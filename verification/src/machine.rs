//! The machine as a mathematical value, and what its instructions mean.

use crate::text::is_scalar_value;
use crate::vm::{Opcode, VmError};
use vstd::prelude::*;

verus! {

/// `x + y` in 32-bit words.
pub open spec fn wrapping_sum(x: u32, y: u32) -> u32 {
    ((x + y) % 0x1_0000_0000) as u32
}

/// `x - y` in 32-bit words.
pub open spec fn wrapping_difference(x: u32, y: u32) -> u32 {
    ((x - y) % 0x1_0000_0000) as u32
}

/// The machine as a mathematical value: the program and the input, which
/// never change, and what an instruction can change.
#[verifier::ext_equal]
pub struct Machine {
    /// The bytecode.
    pub code: Seq<u8>,
    /// The whole input.
    pub input: Seq<char>,
    /// How many input characters `In` has consumed.
    pub cursor: nat,
    /// Address of the next opcode byte.
    pub pc: nat,
    /// The data stack; the top is the last element.
    pub stack: Seq<u32>,
    /// The auxiliary register.
    pub aux: u32,
    /// The characters written so far.
    pub output: Seq<char>,
}

/// What one fetch-decode-execute cycle does to a machine.
#[verifier::ext_equal]
pub enum Step {
    /// The instruction completed and left this machine.
    Next(Machine),
    /// The instruction was `Exit`.
    Halt,
    /// The instruction could not be fetched, decoded or executed.
    Fault(VmError),
}

impl Machine {
    /// The machine before its first instruction.
    pub open spec fn start(code: Seq<u8>, input: Seq<char>) -> Machine {
        Machine { code, input, cursor: 0, pc: 0, stack: Seq::empty(), aux: 0, output: Seq::empty() }
    }

    /// The word that `In` pushes: the next character's code point, or 0
    /// once the input is used up.
    pub open spec fn next_input(self) -> u32 {
        if self.cursor < self.input.len() {
            self.input[self.cursor as int] as u32
        } else {
            0
        }
    }

    /// The operand byte of the instruction at `pc`.
    pub open spec fn operand(self) -> u8 {
        self.code[(self.pc + 1) as int]
    }

    /// The stack without its top `count` words.
    pub open spec fn below(self, count: nat) -> Seq<u32> {
        self.stack.take(self.stack.len() - count)
    }

    /// The word `depth` places under the top of the stack (0 is the top).
    pub open spec fn peek(self, depth: nat) -> u32 {
        self.stack[self.stack.len() - 1 - depth]
    }

    /// After an instruction without operand that replaces the top `count`
    /// words by `word`.
    pub open spec fn replace_top(self, count: nat, word: u32) -> Machine {
        Machine { pc: self.pc + 1, stack: self.below(count).push(word), ..self }
    }

    /// After a branch that took `count` words from the stack: at the operand's
    /// address if `taken`, else behind the operand byte.
    pub open spec fn branch(self, count: nat, taken: bool) -> Machine {
        Machine {
            pc: if taken {
                self.operand() as nat
            } else {
                self.pc + 2
            },
            stack: self.below(count),
            ..self
        }
    }

    /// The effect of `op` at `pc`, given that the stack holds the words it
    /// takes and that its operand byte, if it has one, lies within the code.
    pub open spec fn execute(self, op: Opcode) -> Step {
        match op {
            Opcode::In => Step::Next(
                Machine {
                    pc: self.pc + 1,
                    stack: self.stack.push(self.next_input()),
                    cursor: if self.cursor < self.input.len() {
                        self.cursor + 1
                    } else {
                        self.cursor
                    },
                    ..self
                },
            ),
            Opcode::Out => if is_scalar_value(self.peek(0)) {
                Step::Next(
                    Machine {
                        pc: self.pc + 1,
                        stack: self.below(1),
                        output: self.output.push(self.peek(0) as char),
                        ..self
                    },
                )
            } else {
                Step::Fault(VmError::InvalidCodePoint(self.peek(0)))
            },
            Opcode::Dup => Step::Next(self.replace_top(0, self.peek(0))),
            Opcode::Add => Step::Next(
                self.replace_top(2, wrapping_sum(self.peek(1), self.peek(0))),
            ),
            Opcode::Sub => Step::Next(
                self.replace_top(2, wrapping_difference(self.peek(1), self.peek(0))),
            ),
            Opcode::Bne => Step::Next(self.branch(1, self.peek(0) != 0)),
            Opcode::Blt => Step::Next(self.branch(2, self.peek(1) < self.peek(0))),
            Opcode::Bgt => Step::Next(self.branch(2, self.peek(1) > self.peek(0))),
            Opcode::Ble => Step::Next(self.branch(2, self.peek(1) <= self.peek(0))),
            Opcode::Beq => Step::Next(self.branch(2, self.peek(1) == self.peek(0))),
            Opcode::Exit => Step::Halt,
            Opcode::Push => Step::Next(
                Machine { pc: self.pc + 2, stack: self.stack.push(self.operand() as u32), ..self },
            ),
            Opcode::Jmp => Step::Next(self.branch(0, true)),
            Opcode::Pusha => Step::Next(self.replace_top(0, self.aux)),
            Opcode::Popa => Step::Next(
                Machine { pc: self.pc + 1, stack: self.below(1), aux: self.peek(0), ..self },
            ),
        }
    }

    /// Whether the instruction `op` at `pc` lacks its operand byte.
    pub open spec fn operand_missing(self, op: Opcode) -> bool {
        op.has_operand() && self.pc + 1 >= self.code.len()
    }

    /// One cycle: fetch the opcode byte at `pc`, decode it, check the stack and
    /// the operand, execute. A failing instruction changes nothing.
    pub open spec fn step(self) -> Step {
        if self.pc >= self.code.len() {
            Step::Fault(VmError::OutOfCode)
        } else {
            match Opcode::decode(self.code[self.pc as int]) {
                None => Step::Fault(VmError::InvalidOpcode(self.code[self.pc as int])),
                Some(op) => if self.stack.len() < op.pops() {
                    Step::Fault(VmError::StackUnderflow)
                } else if self.operand_missing(op) {
                    Step::Fault(VmError::OutOfCode)
                } else {
                    self.execute(op)
                },
            }
        }
    }

    /// Runs at most `fuel` cycles. Gives the machine at which the run stopped
    /// and why: `Ok` at an `Exit`, the fault of the instruction that failed, or
    /// `StepLimit` when `fuel` cycles did not reach either.
    pub open spec fn run(self, fuel: nat) -> (Machine, Result<(), VmError>)
        decreases fuel,
    {
        if fuel == 0 {
            (self, Err(VmError::StepLimit))
        } else {
            match self.step() {
                Step::Next(next) => next.run((fuel - 1) as nat),
                Step::Halt => (self, Ok(())),
                Step::Fault(e) => (self, Err(e)),
            }
        }
    }

    /// What a run of at most `fuel` cycles returns: the output at the `Exit`
    /// that it reached, or the error that stopped it.
    pub open spec fn outcome(self, fuel: nat) -> Result<Seq<char>, VmError> {
        match self.run(fuel).1 {
            Ok(()) => Ok(self.run(fuel).0.output),
            Err(e) => Err(e),
        }
    }
}

/// An instruction never touches the program or the input, never takes back
/// what was written, and never moves the input cursor backwards.
pub proof fn lemma_step_keeps(machine: Machine)
    requires
        machine.step() is Next,
    ensures
        machine.step()->Next_0.code == machine.code,
        machine.step()->Next_0.input == machine.input,
        machine.step()->Next_0.cursor >= machine.cursor,
        machine.output.is_prefix_of(machine.step()->Next_0.output),
{
}

/// No instruction faults with `StepLimit`: a run ends with it only where
/// its fuel is used up before an `Exit` or a fault.
pub proof fn lemma_step_limit_means_fuel(machine: Machine)
    ensures
        machine.step() != Step::Fault(VmError::StepLimit),
{
}

/// A run never touches the program or the input, never takes back what was
/// written, and never moves the input cursor backwards.
pub proof fn lemma_run_keeps(machine: Machine, fuel: nat)
    ensures
        machine.run(fuel).0.code == machine.code,
        machine.run(fuel).0.input == machine.input,
        machine.run(fuel).0.cursor >= machine.cursor,
        machine.output.is_prefix_of(machine.run(fuel).0.output),
    decreases fuel,
{
    if fuel > 0 {
        if let Step::Next(next) = machine.step() {
            lemma_step_keeps(machine);
            lemma_run_keeps(next, (fuel - 1) as nat);
        }
    }
}

/// More fuel changes nothing for a run that stopped by itself: a run that
/// reached `Exit` or a fault within `fuel` cycles stops at the same machine,
/// for the same reason, with any larger fuel.
pub proof fn lemma_run_more_fuel(machine: Machine, fuel: nat, more: nat)
    requires
        fuel <= more,
        machine.run(fuel).1 != Err::<(), VmError>(VmError::StepLimit),
    ensures
        machine.run(more) == machine.run(fuel),
    decreases fuel,
{
    if fuel > 0 {
        if let Step::Next(next) = machine.step() {
            lemma_run_more_fuel(next, (fuel - 1) as nat, (more - 1) as nat);
        }
    }
}

/// A run of `first + second` cycles is a run of `first` cycles followed,
/// where that one used up its fuel, by a run of `second` cycles.
pub proof fn lemma_run_split(machine: Machine, first: nat, second: nat)
    ensures
        machine.run(first + second) == if machine.run(first).1 == Err::<(), VmError>(
            VmError::StepLimit,
        ) {
            machine.run(first).0.run(second)
        } else {
            machine.run(first)
        },
    decreases first,
{
    if first > 0 {
        if let Step::Next(next) = machine.step() {
            lemma_run_split(next, (first - 1) as nat, second);
        }
    }
}

/// A cycle executes the opcode whose code stands at the program counter,
/// provided the stack holds the words it takes and its operand byte, if it
/// has one, lies within the code.
pub proof fn lemma_step_executes(machine: Machine, op: Opcode)
    requires
        machine.pc < machine.code.len(),
        machine.code[machine.pc as int] == op.code(),
        machine.stack.len() >= op.pops(),
        !machine.operand_missing(op),
    ensures
        machine.step() == machine.execute(op),
{
}

/// Whether `from` is at `to` after exactly `cycles` cycles, none of which
/// was an `Exit` or a fault.
pub open spec fn reaches(from: Machine, to: Machine, cycles: nat) -> bool {
    from.run(cycles) == (to, Err::<(), VmError>(VmError::StepLimit))
}

/// A completed instruction takes the machine to the next one in one cycle.
pub proof fn lemma_reaches_next(machine: Machine, next: Machine)
    requires
        machine.step() == Step::Next(next),
    ensures
        reaches(machine, next, 1),
{
    reveal_with_fuel(Machine::run, 2);
}

/// Cycles add up: from `from` to `via` and on to `to`.
pub proof fn lemma_reaches_chain(from: Machine, via: Machine, to: Machine, first: nat, second: nat)
    requires
        reaches(from, via, first),
        reaches(via, to, second),
    ensures
        reaches(from, to, first + second),
{
    lemma_run_split(from, first, second);
}

/// A run that passes through `via` ends as the run from `via` does with the
/// fuel that is left.
pub proof fn lemma_run_through(from: Machine, via: Machine, cycles: nat, fuel: nat)
    requires
        reaches(from, via, cycles),
    ensures
        from.run(cycles + fuel) == via.run(fuel),
{
    lemma_run_split(from, cycles, fuel);
}

} // verus!
