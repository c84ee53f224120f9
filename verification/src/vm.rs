//! The bytecode interpreter.

use crate::machine::{Machine, Step};
use crate::text::{chars_of, decimal, push_decimal};
use vstd::prelude::*;
use vstd::string::*;

verus! {

/// The instruction set.
///
/// An opcode is encoded in one byte, its position in this list (`In` is 0,
/// `Ble` is 14). Seven of them are followed by one operand byte: a jump
/// address for the branches and `Jmp`, an immediate for `Push`.
#[derive(Debug, Clone, Copy, PartialEq, Eq, Structural)]
pub enum Opcode {
    /// Push the code point of the next input character, or 0 at end of input.
    In,
    /// Pop a word and append it to the output as a character.
    Out,
    /// Push a copy of the top word.
    Dup,
    /// Pop `y`, pop `x`, push `x + y` (wrapping at 32 bits).
    Add,
    /// Pop `y`, pop `x`, push `x - y` (wrapping at 32 bits).
    Sub,
    /// Pop `x`; jump if `x != 0`.
    Bne,
    /// Pop `y`, pop `x`; jump if `x < y`.
    Blt,
    /// Stop.
    Exit,
    /// Push the operand byte.
    Push,
    /// Jump.
    Jmp,
    /// Pop `y`, pop `x`; jump if `x == y`.
    Beq,
    /// Push the auxiliary register.
    Pusha,
    /// Pop a word into the auxiliary register.
    Popa,
    /// Pop `y`, pop `x`; jump if `x > y`.
    Bgt,
    /// Pop `y`, pop `x`; jump if `x <= y`.
    Ble,
}

/// Why a run stopped without reaching `Exit`.
#[derive(Debug, Clone, Copy, PartialEq, Eq, Structural)]
pub enum VmError {
    /// The byte fetched as an opcode is not the code of any opcode.
    InvalidOpcode(u8),
    /// An instruction needed more words than the stack holds.
    StackUnderflow,
    /// `Out` popped a word that is not a Unicode scalar value.
    InvalidCodePoint(u32),
    /// An opcode or operand byte was to be fetched outside the code.
    OutOfCode,
    /// The step budget ran out before the program stopped.
    StepLimit,
}

impl Opcode {
    /// The byte that encodes this opcode.
    pub open spec fn code(self) -> u8 {
        match self {
            Opcode::In => 0,
            Opcode::Out => 1,
            Opcode::Dup => 2,
            Opcode::Add => 3,
            Opcode::Sub => 4,
            Opcode::Bne => 5,
            Opcode::Blt => 6,
            Opcode::Exit => 7,
            Opcode::Push => 8,
            Opcode::Jmp => 9,
            Opcode::Beq => 10,
            Opcode::Pusha => 11,
            Opcode::Popa => 12,
            Opcode::Bgt => 13,
            Opcode::Ble => 14,
        }
    }

    /// The opcode that a byte encodes, if any.
    pub open spec fn decode(byte: u8) -> Option<Opcode> {
        match byte {
            0 => Some(Opcode::In),
            1 => Some(Opcode::Out),
            2 => Some(Opcode::Dup),
            3 => Some(Opcode::Add),
            4 => Some(Opcode::Sub),
            5 => Some(Opcode::Bne),
            6 => Some(Opcode::Blt),
            7 => Some(Opcode::Exit),
            8 => Some(Opcode::Push),
            9 => Some(Opcode::Jmp),
            10 => Some(Opcode::Beq),
            11 => Some(Opcode::Pusha),
            12 => Some(Opcode::Popa),
            13 => Some(Opcode::Bgt),
            14 => Some(Opcode::Ble),
            _ => None,
        }
    }

    /// What decoding a byte gives: the opcode, or the error that names the byte.
    pub open spec fn decode_or_error(byte: u8) -> Result<Opcode, VmError> {
        match Opcode::decode(byte) {
            Some(op) => Ok(op),
            None => Err(VmError::InvalidOpcode(byte)),
        }
    }

    /// Whether an operand byte follows the opcode byte.
    pub open spec fn has_operand(self) -> bool {
        match self {
            Opcode::Bne | Opcode::Blt | Opcode::Push | Opcode::Jmp | Opcode::Beq | Opcode::Bgt
            | Opcode::Ble => true,
            _ => false,
        }
    }

    /// How many words the instruction takes from the stack.
    pub open spec fn pops(self) -> nat {
        match self {
            Opcode::In | Opcode::Exit | Opcode::Push | Opcode::Jmp | Opcode::Pusha => 0,
            Opcode::Out | Opcode::Dup | Opcode::Bne | Opcode::Popa => 1,
            Opcode::Add | Opcode::Sub | Opcode::Blt | Opcode::Beq | Opcode::Bgt
            | Opcode::Ble => 2,
        }
    }

    /// The opcode's name, as a listing shows it.
    pub open spec fn mnemonic(self) -> Seq<char> {
        match self {
            Opcode::In => seq!['I', 'n'],
            Opcode::Out => seq!['O', 'u', 't'],
            Opcode::Dup => seq!['D', 'u', 'p'],
            Opcode::Add => seq!['A', 'd', 'd'],
            Opcode::Sub => seq!['S', 'u', 'b'],
            Opcode::Bne => seq!['B', 'n', 'e'],
            Opcode::Blt => seq!['B', 'l', 't'],
            Opcode::Exit => seq!['E', 'x', 'i', 't'],
            Opcode::Push => seq!['P', 'u', 's', 'h'],
            Opcode::Jmp => seq!['J', 'm', 'p'],
            Opcode::Beq => seq!['B', 'e', 'q'],
            Opcode::Pusha => seq!['P', 'u', 's', 'h', 'a'],
            Opcode::Popa => seq!['P', 'o', 'p', 'a'],
            Opcode::Bgt => seq!['B', 'g', 't'],
            Opcode::Ble => seq!['B', 'l', 'e'],
        }
    }

    /// The byte that encodes this opcode.
    pub fn to_byte(self) -> (byte: u8)
        ensures
            byte == self.code(),
    {
        match self {
            Opcode::In => 0,
            Opcode::Out => 1,
            Opcode::Dup => 2,
            Opcode::Add => 3,
            Opcode::Sub => 4,
            Opcode::Bne => 5,
            Opcode::Blt => 6,
            Opcode::Exit => 7,
            Opcode::Push => 8,
            Opcode::Jmp => 9,
            Opcode::Beq => 10,
            Opcode::Pusha => 11,
            Opcode::Popa => 12,
            Opcode::Bgt => 13,
            Opcode::Ble => 14,
        }
    }

    /// The opcode's name, as a listing shows it.
    pub fn name(self) -> (name: &'static str)
        ensures
            name@ == self.mnemonic(),
    {
        proof {
            reveal_strlit("In");
            reveal_strlit("Out");
            reveal_strlit("Dup");
            reveal_strlit("Add");
            reveal_strlit("Sub");
            reveal_strlit("Bne");
            reveal_strlit("Blt");
            reveal_strlit("Exit");
            reveal_strlit("Push");
            reveal_strlit("Jmp");
            reveal_strlit("Beq");
            reveal_strlit("Pusha");
            reveal_strlit("Popa");
            reveal_strlit("Bgt");
            reveal_strlit("Ble");
        }
        let name = match self {
            Opcode::In => "In",
            Opcode::Out => "Out",
            Opcode::Dup => "Dup",
            Opcode::Add => "Add",
            Opcode::Sub => "Sub",
            Opcode::Bne => "Bne",
            Opcode::Blt => "Blt",
            Opcode::Exit => "Exit",
            Opcode::Push => "Push",
            Opcode::Jmp => "Jmp",
            Opcode::Beq => "Beq",
            Opcode::Pusha => "Pusha",
            Opcode::Popa => "Popa",
            Opcode::Bgt => "Bgt",
            Opcode::Ble => "Ble",
        };
        assert(name@ =~= self.mnemonic());
        name
    }
}

impl TryFrom<u8> for Opcode {
    type Error = VmError;

    /// Decodes an opcode byte; a byte above 14 is rejected.
    fn try_from(value: u8) -> (r: Result<Opcode, VmError>)
        ensures
            r == Opcode::decode_or_error(value),
    {
        match value {
            0 => Ok(Opcode::In),
            1 => Ok(Opcode::Out),
            2 => Ok(Opcode::Dup),
            3 => Ok(Opcode::Add),
            4 => Ok(Opcode::Sub),
            5 => Ok(Opcode::Bne),
            6 => Ok(Opcode::Blt),
            7 => Ok(Opcode::Exit),
            8 => Ok(Opcode::Push),
            9 => Ok(Opcode::Jmp),
            10 => Ok(Opcode::Beq),
            11 => Ok(Opcode::Pusha),
            12 => Ok(Opcode::Popa),
            13 => Ok(Opcode::Bgt),
            14 => Ok(Opcode::Ble),
            _ => Err(VmError::InvalidOpcode(value)),
        }
    }
}

impl vstd::std_specs::convert::TryFromSpecImpl<u8> for Opcode {
    open spec fn obeys_try_from_spec() -> bool {
        true
    }

    open spec fn try_from_spec(v: u8) -> Result<Opcode, VmError> {
        Opcode::decode_or_error(v)
    }
}

impl VmError {
    /// The error in words.
    pub open spec fn describe(self) -> Seq<char> {
        match self {
            VmError::InvalidOpcode(byte) => "invalid opcode "@ + decimal(byte as nat),
            VmError::StackUnderflow => "stack underflow"@,
            VmError::InvalidCodePoint(word) => "invalid code point "@ + decimal(word as nat),
            VmError::OutOfCode => "program counter outside the code"@,
            VmError::StepLimit => "step limit reached"@,
        }
    }

    /// The error in words, with the byte or word that caused it in decimal.
    pub fn message(&self) -> (text: String)
        ensures
            text@ == self.describe(),
    {
        match *self {
            VmError::InvalidOpcode(byte) => {
                let mut text = "invalid opcode ".to_owned();
                push_decimal(&mut text, byte as u32);
                text
            },
            VmError::StackUnderflow => "stack underflow".to_owned(),
            VmError::InvalidCodePoint(word) => {
                let mut text = "invalid code point ".to_owned();
                push_decimal(&mut text, word);
                text
            },
            VmError::OutOfCode => "program counter outside the code".to_owned(),
            VmError::StepLimit => "step limit reached".to_owned(),
        }
    }
}

/// Opcodes and the bytes 0 to 14 correspond one to one: decoding the code of
/// an opcode gives the opcode back, and a byte decodes exactly when it is at
/// most 14, to the opcode with that code.
pub proof fn lemma_opcode_codes(op: Opcode, byte: u8)
    ensures
        op.code() <= 14,
        Opcode::decode(op.code()) == Some(op),
        Opcode::decode(byte) is Some <==> byte <= 14,
        Opcode::decode(byte) == Some(op) <==> op.code() == byte,
{
}

/// The most cycles that [`run`] and [`Vm::run`] execute before they give up
/// with [`VmError::StepLimit`]: 2^128 - 1, more than any run can use up.
pub const STEP_LIMIT: u128 = 0xffff_ffff_ffff_ffff_ffff_ffff_ffff_ffff;

/// The state of one execution.
///
/// A machine has a code segment, a character input of which `In` reads the
/// next character, a character output to which `Out` appends, a program
/// counter, a stack of 32-bit words and one auxiliary register.
pub struct Vm<'a> {
    program: &'a [u8],
    input: Vec<char>,
    cursor: usize,
    output: String,
    pc: usize,
    stack: Vec<u32>,
    aux: u32,
}

impl<'a> View for Vm<'a> {
    type V = Machine;

    closed spec fn view(&self) -> Machine {
        Machine {
            code: self.program@,
            input: self.input@,
            cursor: self.cursor as nat,
            pc: self.pc as nat,
            stack: self.stack@,
            aux: self.aux,
            output: self.output@,
        }
    }
}

/// A result with the text of its `String` in place of the `String`.
pub open spec fn text_of(r: Result<String, VmError>) -> Result<Seq<char>, VmError> {
    match r {
        Ok(text) => Ok(text@),
        Err(e) => Err(e),
    }
}

impl<'a> Vm<'a> {
    /// A machine about to execute the first byte of `program` on `input`.
    /// The input is held as its characters, so there are at most
    /// `usize::MAX` of them.
    pub fn new(program: &'a [u8], input: &'a str) -> (vm: Vm<'a>)
        ensures
            vm@ == Machine::start(program@, input@),
            input@.len() <= usize::MAX,
    {
        let chars = chars_of(input);
        assert(chars@.len() == chars.len());
        Vm {
            program,
            input: chars,
            cursor: 0,
            output: String::new(),
            pc: 0,
            stack: Vec::with_capacity(16),
            aux: 0,
        }
    }

    /// The address of the next instruction.
    pub fn pc(&self) -> (pc: usize)
        ensures
            pc == self@.pc,
    {
        self.pc
    }

    /// The auxiliary register.
    pub fn aux(&self) -> (aux: u32)
        ensures
            aux == self@.aux,
    {
        self.aux
    }

    /// The stack, bottom first.
    pub fn stack(&self) -> (stack: &[u32])
        ensures
            stack@ == self@.stack,
    {
        self.stack.as_slice()
    }

    /// What has been written so far.
    pub fn output(&self) -> (output: &str)
        ensures
            output@ == self@.output,
    {
        self.output.as_str()
    }

    /// Pushes `x` on the stack.
    pub fn push(&mut self, x: u32)
        ensures
            final(self)@ == (Machine { stack: old(self)@.stack.push(x), ..old(self)@ }),
    {
        self.stack.push(x)
    }

    /// Pops the top of the stack; fails, and changes nothing, on an empty stack.
    pub fn pop(&mut self) -> (r: Result<u32, VmError>)
        ensures
            match r {
                Ok(x) => {
                    &&& old(self)@.stack.len() > 0
                    &&& x == old(self)@.peek(0)
                    &&& final(self)@ == (Machine { stack: old(self)@.below(1), ..old(self)@ })
                },
                Err(e) => {
                    &&& old(self)@.stack.len() == 0
                    &&& e == VmError::StackUnderflow
                    &&& final(self)@ == old(self)@
                },
            },
    {
        match self.stack.pop() {
            Some(x) => {
                assert(self.stack@ =~= old(self)@.below(1));
                Ok(x)
            },
            None => Err(VmError::StackUnderflow),
        }
    }

    /// The operand byte of the instruction at the program counter.
    fn fetch_operand(&self) -> (r: Result<u8, VmError>)
        ensures
            match r {
                Ok(byte) => {
                    &&& self@.pc + 1 < self@.code.len()
                    &&& self@.pc + 2 <= usize::MAX
                    &&& byte == self@.operand()
                },
                Err(e) => self@.pc + 1 >= self@.code.len() && e == VmError::OutOfCode,
            },
    {
        if self.pc < self.program.len() && self.pc + 1 < self.program.len() {
            Ok(self.program[self.pc + 1])
        } else {
            Err(VmError::OutOfCode)
        }
    }

    /// Fails unless the stack holds at least `count` words.
    fn need(&self, count: usize) -> (r: Result<(), VmError>)
        ensures
            match r {
                Ok(()) => self@.stack.len() >= count,
                Err(e) => self@.stack.len() < count && e == VmError::StackUnderflow,
            },
    {
        if self.stack.len() >= count {
            Ok(())
        } else {
            Err(VmError::StackUnderflow)
        }
    }

    /// Executes a branch on two words: pops `y`, then `x`, and continues at
    /// the operand's address if `test(x, y)`, else behind the operand byte.
    ///
    /// Fails, and changes nothing, with `StackUnderflow` if the stack holds
    /// fewer than two words, else with `OutOfCode` if the operand byte lies
    /// outside the code.
    pub fn branch_if<Test: FnOnce(u32, u32) -> bool>(&mut self, test: Test) -> (r: Result<
        (),
        VmError,
    >)
        requires
            old(self)@.stack.len() >= 2 && old(self)@.pc + 1 < old(self)@.code.len()
                ==> call_requires(test, (old(self)@.peek(1), old(self)@.peek(0))),
        ensures
            match r {
                Ok(()) => {
                    &&& old(self)@.stack.len() >= 2
                    &&& old(self)@.pc + 1 < old(self)@.code.len()
                    &&& exists|taken: bool|
                        {
                            &&& call_ensures(
                                test,
                                (old(self)@.peek(1), old(self)@.peek(0)),
                                taken,
                            )
                            &&& final(self)@ == old(self)@.branch(2, taken)
                        }
                },
                Err(e) => {
                    &&& final(self)@ == old(self)@
                    &&& if old(self)@.stack.len() < 2 {
                        e == VmError::StackUnderflow
                    } else {
                        old(self)@.pc + 1 >= old(self)@.code.len() && e == VmError::OutOfCode
                    }
                },
            },
    {
        self.need(2)?;
        let target = self.fetch_operand()?;
        let rhs = self.pop()?;
        let lhs = self.pop()?;
        let taken = test(lhs, rhs);
        if taken {
            self.pc = target as usize;
        } else {
            self.pc += 2;
        }
        proof {
            assert(self.stack@ =~= old(self)@.below(2));
            assert(self@ == old(self)@.branch(2, taken));
        }
        Ok(())
    }

    /// Executes the instruction at the program counter.
    ///
    /// Returns `Ok(false)` when the instruction completed, `Ok(true)` when it
    /// was `Exit`, and the fault otherwise. Only a completed instruction
    /// changes the machine.
    pub fn step(&mut self) -> (r: Result<bool, VmError>)
        ensures
            match r {
                Ok(halted) => if halted {
                    old(self)@.step() == Step::Halt && final(self)@ == old(self)@
                } else {
                    old(self)@.step() == Step::Next(final(self)@)
                },
                Err(e) => old(self)@.step() == Step::Fault(e) && final(self)@ == old(self)@,
            },
    {
        if self.pc >= self.program.len() {
            return Err(VmError::OutOfCode);
        }
        let opcode = self.program[self.pc];
        match Opcode::try_from(opcode)? {
            Opcode::Exit => {
                return Ok(true);
            },
            Opcode::In => {
                let word: u32 = if self.cursor < self.input.len() {
                    let ch = self.input[self.cursor];
                    self.cursor += 1;
                    ch as u32
                } else {
                    0
                };
                self.push(word);
                self.pc += 1;
            },
            Opcode::Out => {
                self.need(1)?;
                let word = self.stack[self.stack.len() - 1];
                match char::from_u32(word) {
                    Some(ch) => {
                        self.stack.pop();
                        self.output.push(ch);
                        self.pc += 1;
                    },
                    None => {
                        return Err(VmError::InvalidCodePoint(word));
                    },
                }
            },
            Opcode::Jmp => {
                let target = self.fetch_operand()?;
                self.pc = target as usize;
            },
            Opcode::Dup => {
                self.need(1)?;
                let top = self.stack[self.stack.len() - 1];
                self.push(top);
                self.pc += 1;
            },
            Opcode::Bne => {
                self.need(1)?;
                let target = self.fetch_operand()?;
                let top = self.pop()?;
                if top != 0 {
                    self.pc = target as usize;
                } else {
                    self.pc += 2;
                }
            },
            Opcode::Bgt => {
                let test = |x: u32, y: u32| -> (taken: bool)
                    ensures
                        taken == (x > y),
                    {
                        let taken = x > y;
                        taken
                    };
                self.branch_if(test)?;
            },
            Opcode::Blt => {
                let test = |x: u32, y: u32| -> (taken: bool)
                    ensures
                        taken == (x < y),
                    {
                        let taken = x < y;
                        taken
                    };
                self.branch_if(test)?;
            },
            Opcode::Ble => {
                let test = |x: u32, y: u32| -> (taken: bool)
                    ensures
                        taken == (x <= y),
                    {
                        let taken = x <= y;
                        taken
                    };
                self.branch_if(test)?;
            },
            Opcode::Beq => {
                let test = |x: u32, y: u32| -> (taken: bool)
                    ensures
                        taken == (x == y),
                    {
                        let taken = x == y;
                        taken
                    };
                self.branch_if(test)?;
            },
            Opcode::Pusha => {
                self.push(self.aux);
                self.pc += 1;
            },
            Opcode::Push => {
                let value = self.fetch_operand()?;
                self.push(value as u32);
                self.pc += 2;
            },
            Opcode::Popa => {
                self.aux = self.pop()?;
                self.pc += 1;
            },
            Opcode::Add => {
                self.need(2)?;
                let rhs = self.pop()?;
                let lhs = self.pop()?;
                self.push(lhs.wrapping_add(rhs));
                self.pc += 1;
            },
            Opcode::Sub => {
                self.need(2)?;
                let rhs = self.pop()?;
                let lhs = self.pop()?;
                self.push(lhs.wrapping_sub(rhs));
                self.pc += 1;
            },
        }
        proof {
            assert(self@ =~= old(self)@.step()->Next_0);
        }
        Ok(false)
    }

    /// Runs until `Exit`, a fault, or `max_steps` cycles, whichever comes
    /// first, and leaves the machine where the run stopped.
    ///
    /// Returns the output collected so far at `Exit`, the fault of the
    /// instruction that failed, or `StepLimit`.
    pub fn run_bounded(&mut self, max_steps: u128) -> (r: Result<String, VmError>)
        ensures
            final(self)@ == old(self)@.run(max_steps as nat).0,
            text_of(r) == old(self)@.outcome(max_steps as nat),
    {
        let mut left = max_steps;
        while left > 0
            invariant
                self@.run(left as nat) == old(self)@.run(max_steps as nat),
            decreases left,
        {
            if self.step()? {
                return Ok(self.output.clone());
            }
            left -= 1;
        }
        Err(VmError::StepLimit)
    }

    /// Runs until `Exit` or a fault, for at most [`STEP_LIMIT`] cycles.
    pub fn run(&mut self) -> (r: Result<String, VmError>)
        ensures
            final(self)@ == old(self)@.run(STEP_LIMIT as nat).0,
            text_of(r) == old(self)@.outcome(STEP_LIMIT as nat),
    {
        self.run_bounded(STEP_LIMIT)
    }
}

/// Executes `program` on `input` and returns what it wrote.
///
/// Execution starts at address 0 with an empty stack and stops at the first
/// `Exit`, with the output, or at the first instruction that fails, with its
/// error; in an empty program that is the first fetch, with
/// [`VmError::OutOfCode`]. A program that is still running after
/// [`STEP_LIMIT`] cycles is given up with [`VmError::StepLimit`]. The input is
/// held as its characters, so there are at most `usize::MAX` of them.
pub fn run(program: &[u8], input: &str) -> (r: Result<String, VmError>)
    ensures
        text_of(r) == Machine::start(program@, input@).outcome(STEP_LIMIT as nat),
        input@.len() <= usize::MAX,
{
    let mut vm = Vm::new(program, input);
    vm.run()
}

} // verus!
