//! A worked example: the bytecode of a program that undoes a running-key
//! letter shift, and the proof that it does.
//!
//! The program keeps a key in the auxiliary register. It starts at 4, grows
//! by one with every letter read, and goes from 25 back to 0. Each input
//! letter is moved forward in the alphabet by the key, past `z` back to `a`,
//! and written out. The program stops when the input is used up.

use crate::assembler::{Insn, SpecInsn, SpecOperand};
use crate::encoding::{
    address_too_large_at, complete, defines, encode, encode_first, encode_insn,
    immediate_too_large_at, in_range, lemma_resolve_defined_once, offset, resolve, undefined_at,
};
use crate::machine::{
    lemma_reaches_chain, lemma_reaches_next, lemma_run_more_fuel, lemma_run_through,
    lemma_step_executes, reaches, Machine, Step,
};
use crate::assembler::assemble;
use crate::vm::{text_of, Opcode, Vm, VmError, STEP_LIMIT};
use vstd::pervasive::unreached;
use vstd::prelude::*;

verus! {

/// An instruction without label and operand.
pub open spec fn plain(opcode: Opcode) -> SpecInsn {
    SpecInsn { label: None, opcode, operand: SpecOperand::Absent }
}

/// An instruction without label, with an immediate.
pub open spec fn immediate(opcode: Opcode, value: u32) -> SpecInsn {
    SpecInsn { label: None, opcode, operand: SpecOperand::Value(value) }
}

/// An instruction without label that refers to the label `name`.
pub open spec fn reference(opcode: Opcode, name: Seq<char>) -> SpecInsn {
    SpecInsn { label: None, opcode, operand: SpecOperand::Target(name) }
}

/// `insn` under the label `name`.
pub open spec fn labelled(name: Seq<char>, insn: SpecInsn) -> SpecInsn {
    SpecInsn { label: Some(name), ..insn }
}

/// The decrypter, instruction by instruction.
pub open spec fn source() -> Seq<SpecInsn> {
    seq![
        immediate(Opcode::Push, 4),
        plain(Opcode::Popa),
        labelled("loop"@, plain(Opcode::In)),
        plain(Opcode::Dup),
        reference(Opcode::Bne, "decode"@),
        plain(Opcode::Exit),
        labelled("decode"@, plain(Opcode::Pusha)),
        plain(Opcode::Add),
        plain(Opcode::Dup),
        immediate(Opcode::Push, 122),
        reference(Opcode::Ble, "out"@),
        immediate(Opcode::Push, 26),
        plain(Opcode::Sub),
        labelled("out"@, plain(Opcode::Out)),
        plain(Opcode::Pusha),
        immediate(Opcode::Push, 1),
        plain(Opcode::Add),
        plain(Opcode::Dup),
        immediate(Opcode::Push, 25),
        reference(Opcode::Bgt, "wrap"@),
        plain(Opcode::Popa),
        reference(Opcode::Jmp, "loop"@),
        labelled("wrap"@, immediate(Opcode::Push, 0)),
        plain(Opcode::Popa),
        reference(Opcode::Jmp, "loop"@),
    ]
}

/// The decrypter, ready to assemble or to list.
pub fn program() -> (instructions: Vec<Insn>)
    ensures
        instructions.deep_view() == source(),
{
    let mut instructions: Vec<Insn> = Vec::new();
    instructions.push(Insn::new(Opcode::Push).set_value(4));
    instructions.push(Insn::new(Opcode::Popa));
    instructions.push(Insn::new(Opcode::In).set_label("loop"));
    instructions.push(Insn::new(Opcode::Dup));
    instructions.push(Insn::new(Opcode::Bne).set_target("decode"));
    instructions.push(Insn::new(Opcode::Exit));
    instructions.push(Insn::new(Opcode::Pusha).set_label("decode"));
    instructions.push(Insn::new(Opcode::Add));
    instructions.push(Insn::new(Opcode::Dup));
    instructions.push(Insn::new(Opcode::Push).set_value(122));
    instructions.push(Insn::new(Opcode::Ble).set_target("out"));
    instructions.push(Insn::new(Opcode::Push).set_value(26));
    instructions.push(Insn::new(Opcode::Sub));
    instructions.push(Insn::new(Opcode::Out).set_label("out"));
    instructions.push(Insn::new(Opcode::Pusha));
    instructions.push(Insn::new(Opcode::Push).set_value(1));
    instructions.push(Insn::new(Opcode::Add));
    instructions.push(Insn::new(Opcode::Dup));
    instructions.push(Insn::new(Opcode::Push).set_value(25));
    instructions.push(Insn::new(Opcode::Bgt).set_target("wrap"));
    instructions.push(Insn::new(Opcode::Popa));
    instructions.push(Insn::new(Opcode::Jmp).set_target("loop"));
    instructions.push(Insn::new(Opcode::Push).set_value(0).set_label("wrap"));
    instructions.push(Insn::new(Opcode::Popa));
    instructions.push(Insn::new(Opcode::Jmp).set_target("loop"));
    assert(instructions.deep_view() =~= source());
    instructions
}

/// The bytecode of the decrypter.
pub open spec fn code() -> Seq<u8> {
    seq![
        8u8, 4, 12, 0, 2, 5, 8, 7, 11, 3, 2, 8, 122, 14, 18, 8, 26, 4, 1, 11, 8, 1, 3, 2, 8, 25,
        13, 31, 12, 9, 3, 8, 0, 12, 9, 3,
    ]
}

/// Whether a text is made of the letters `a` to `z` alone.
pub open spec fn is_lowercase(text: Seq<char>) -> bool {
    forall|at: int| 0 <= at < text.len() ==> 'a' <= #[trigger] text[at] <= 'z'
}

/// The key for the letter at `position`.
pub open spec fn key(position: nat) -> nat {
    (4 + position) % 26
}

/// `letter` moved forward in the alphabet by `by` places, past `z` back to `a`.
pub open spec fn rotate(letter: char, by: nat) -> char {
    if letter as u32 + by > 122 {
        (letter as u32 + by - 26) as char
    } else {
        (letter as u32 + by) as char
    }
}

/// What the decrypter makes of `cipher`: each letter moved forward by its key.
pub open spec fn decrypt(cipher: Seq<char>) -> Seq<char> {
    Seq::new(cipher.len(), |at: int| rotate(cipher[at], key(at as nat)))
}

/// What `decrypt` undoes: each letter moved backward by its key, that is,
/// forward by what the key lacks to 26.
pub open spec fn encrypt(plain: Seq<char>) -> Seq<char> {
    Seq::new(plain.len(), |at: int| rotate(plain[at], (26 - key(at as nat)) as nat))
}

/// Decrypting what was encrypted gives the text back.
pub proof fn lemma_decrypt_encrypt(plain: Seq<char>)
    requires
        is_lowercase(plain),
    ensures
        is_lowercase(encrypt(plain)),
        decrypt(encrypt(plain)) == plain,
{
    assert forall|at: int| 0 <= at < plain.len() implies 'a' <= #[trigger] encrypt(plain)[at]
        <= 'z' && decrypt(encrypt(plain))[at] == plain[at] by {
        let letter = plain[at];
        assert('a' <= letter <= 'z');
        let k = key(at as nat);
        let moved = rotate(letter, (26 - k) as nat);
        assert(encrypt(plain)[at] == moved);
        assert('a' <= moved <= 'z');
        assert(rotate(moved, k) == letter);
    }
    assert(decrypt(encrypt(plain)) =~= plain);
}

/// The bytes of the decrypter, one by one.
proof fn lemma_code_bytes()
    ensures
        code().len() == 36,
        code()[0] == 8 && code()[1] == 4 && code()[2] == 12 && code()[3] == 0,
        code()[4] == 2 && code()[5] == 5 && code()[6] == 8 && code()[7] == 7,
        code()[8] == 11 && code()[9] == 3 && code()[10] == 2 && code()[11] == 8,
        code()[12] == 122 && code()[13] == 14 && code()[14] == 18 && code()[15] == 8,
        code()[16] == 26 && code()[17] == 4 && code()[18] == 1 && code()[19] == 11,
        code()[20] == 8 && code()[21] == 1 && code()[22] == 3 && code()[23] == 2,
        code()[24] == 8 && code()[25] == 25 && code()[26] == 13 && code()[27] == 31,
        code()[28] == 12 && code()[29] == 9 && code()[30] == 3 && code()[31] == 8,
        code()[32] == 0 && code()[33] == 12 && code()[34] == 9 && code()[35] == 3,
{
}

/// The decrypter on `input`, with everything that an instruction can change.
spec fn at(
    input: Seq<char>,
    cursor: nat,
    pc: nat,
    stack: Seq<u32>,
    aux: u32,
    output: Seq<char>,
) -> Machine {
    Machine { code: code(), input, cursor, pc, stack, aux, output }
}

/// One instruction of the decrypter: from `machine` to `next` in one cycle.
proof fn lemma_cycle(machine: Machine, op: Opcode, next: Machine)
    requires
        machine.code == code(),
        machine.pc < 36,
        code()[machine.pc as int] == op.code(),
        machine.stack.len() >= op.pops(),
        op.has_operand() ==> machine.pc + 1 < 36,
        machine.execute(op) == Step::Next(next),
    ensures
        reaches(machine, next, 1),
{
    lemma_code_bytes();
    lemma_step_executes(machine, op);
    lemma_reaches_next(machine, next);
}

/// `In; Dup; Bne decode` on a character other than NUL: the character's code
/// point is on the stack and the machine at `decode`.
proof fn lemma_read(input: Seq<char>, cursor: nat, stack: Seq<u32>, aux: u32, output: Seq<char>)
    requires
        cursor < input.len(),
        input[cursor as int] as u32 != 0,
    ensures
        reaches(
            at(input, cursor, 3, stack, aux, output),
            at(input, cursor + 1, 8, stack.push(input[cursor as int] as u32), aux, output),
            3,
        ),
{
    lemma_code_bytes();
    let word = input[cursor as int] as u32;
    let m0 = at(input, cursor, 3, stack, aux, output);
    let m1 = at(input, cursor + 1, 4, stack.push(word), aux, output);
    let m2 = at(input, cursor + 1, 5, stack.push(word).push(word), aux, output);
    let m3 = at(input, cursor + 1, 8, stack.push(word), aux, output);
    assert(m0.execute(Opcode::In)->Next_0 =~= m1);
    lemma_cycle(m0, Opcode::In, m1);
    assert(m1.execute(Opcode::Dup)->Next_0 =~= m2);
    lemma_cycle(m1, Opcode::Dup, m2);
    assert(m2.execute(Opcode::Bne)->Next_0 =~= m3);
    lemma_cycle(m2, Opcode::Bne, m3);
    lemma_reaches_chain(m0, m1, m2, 1, 1);
    lemma_reaches_chain(m0, m2, m3, 2, 1);
}

/// `Pusha; Add; Dup; Push 122; Ble out; Push 26; Sub`: the letter on top of
/// the stack is moved forward by the key, past `z` back to `a`, and the
/// machine at `out`.
proof fn lemma_shift(
    input: Seq<char>,
    cursor: nat,
    stack: Seq<u32>,
    letter: char,
    aux: u32,
    output: Seq<char>,
)
    requires
        'a' <= letter <= 'z',
        aux <= 25,
    ensures
        reaches(
            at(input, cursor, 8, stack.push(letter as u32), aux, output),
            at(input, cursor, 18, stack.push(rotate(letter, aux as nat) as u32), aux, output),
            if letter as u32 + aux > 122 {
                7
            } else {
                5
            },
        ),
        'a' <= rotate(letter, aux as nat) <= 'z',
{
    lemma_code_bytes();
    let word = letter as u32;
    let sum = (word + aux) as u32;
    let m0 = at(input, cursor, 8, stack.push(word), aux, output);
    let m1 = at(input, cursor, 9, stack.push(word).push(aux), aux, output);
    let m2 = at(input, cursor, 10, stack.push(sum), aux, output);
    let m3 = at(input, cursor, 11, stack.push(sum).push(sum), aux, output);
    let m4 = at(input, cursor, 13, stack.push(sum).push(sum).push(122), aux, output);
    assert(m0.execute(Opcode::Pusha)->Next_0 =~= m1);
    lemma_cycle(m0, Opcode::Pusha, m1);
    assert(m1.execute(Opcode::Add)->Next_0 =~= m2);
    lemma_cycle(m1, Opcode::Add, m2);
    assert(m2.execute(Opcode::Dup)->Next_0 =~= m3);
    lemma_cycle(m2, Opcode::Dup, m3);
    assert(m3.execute(Opcode::Push)->Next_0 =~= m4);
    lemma_cycle(m3, Opcode::Push, m4);
    lemma_reaches_chain(m0, m1, m2, 1, 1);
    lemma_reaches_chain(m0, m2, m3, 2, 1);
    lemma_reaches_chain(m0, m3, m4, 3, 1);
    if sum > 122 {
        let m5 = at(input, cursor, 15, stack.push(sum), aux, output);
        let m6 = at(input, cursor, 17, stack.push(sum).push(26), aux, output);
        let m7 = at(input, cursor, 18, stack.push((sum - 26) as u32), aux, output);
        assert(m4.execute(Opcode::Ble)->Next_0 =~= m5);
        lemma_cycle(m4, Opcode::Ble, m5);
        assert(m5.execute(Opcode::Push)->Next_0 =~= m6);
        lemma_cycle(m5, Opcode::Push, m6);
        assert(m6.execute(Opcode::Sub)->Next_0 =~= m7);
        lemma_cycle(m6, Opcode::Sub, m7);
        lemma_reaches_chain(m0, m4, m5, 4, 1);
        lemma_reaches_chain(m0, m5, m6, 5, 1);
        lemma_reaches_chain(m0, m6, m7, 6, 1);
    } else {
        let m5 = at(input, cursor, 18, stack.push(sum), aux, output);
        assert(m4.execute(Opcode::Ble)->Next_0 =~= m5);
        lemma_cycle(m4, Opcode::Ble, m5);
        lemma_reaches_chain(m0, m4, m5, 4, 1);
    }
}

/// `Out; Pusha; Push 1; Add; Dup; Push 25; Bgt wrap`: the letter on top of
/// the stack is written and the key plus one is on the stack, the machine at
/// `wrap` if that is above 25 and behind the branch if not.
proof fn lemma_write(
    input: Seq<char>,
    cursor: nat,
    stack: Seq<u32>,
    letter: char,
    aux: u32,
    output: Seq<char>,
)
    requires
        aux <= 25,
    ensures
        reaches(
            at(input, cursor, 18, stack.push(letter as u32), aux, output),
            at(
                input,
                cursor,
                if aux == 25 {
                    31
                } else {
                    28
                },
                stack.push((aux + 1) as u32),
                aux,
                output.push(letter),
            ),
            7,
        ),
{
    lemma_code_bytes();
    let word = letter as u32;
    let more = (aux + 1) as u32;
    let written = output.push(letter);
    let m0 = at(input, cursor, 18, stack.push(word), aux, output);
    let m1 = at(input, cursor, 19, stack, aux, written);
    let m2 = at(input, cursor, 20, stack.push(aux), aux, written);
    let m3 = at(input, cursor, 22, stack.push(aux).push(1), aux, written);
    let m4 = at(input, cursor, 23, stack.push(more), aux, written);
    let m5 = at(input, cursor, 24, stack.push(more).push(more), aux, written);
    let m6 = at(input, cursor, 26, stack.push(more).push(more).push(25), aux, written);
    let m7 = at(
        input,
        cursor,
        if aux == 25 {
            31
        } else {
            28
        },
        stack.push(more),
        aux,
        written,
    );
    assert(word as char == letter);
    assert(m0.execute(Opcode::Out)->Next_0 =~= m1);
    lemma_cycle(m0, Opcode::Out, m1);
    assert(m1.execute(Opcode::Pusha)->Next_0 =~= m2);
    lemma_cycle(m1, Opcode::Pusha, m2);
    assert(m2.execute(Opcode::Push)->Next_0 =~= m3);
    lemma_cycle(m2, Opcode::Push, m3);
    assert(m3.execute(Opcode::Add)->Next_0 =~= m4);
    lemma_cycle(m3, Opcode::Add, m4);
    assert(m4.execute(Opcode::Dup)->Next_0 =~= m5);
    lemma_cycle(m4, Opcode::Dup, m5);
    assert(m5.execute(Opcode::Push)->Next_0 =~= m6);
    lemma_cycle(m5, Opcode::Push, m6);
    assert(m6.execute(Opcode::Bgt)->Next_0 =~= m7);
    lemma_cycle(m6, Opcode::Bgt, m7);
    lemma_reaches_chain(m0, m1, m2, 1, 1);
    lemma_reaches_chain(m0, m2, m3, 2, 1);
    lemma_reaches_chain(m0, m3, m4, 3, 1);
    lemma_reaches_chain(m0, m4, m5, 4, 1);
    lemma_reaches_chain(m0, m5, m6, 5, 1);
    lemma_reaches_chain(m0, m6, m7, 6, 1);
}

/// `Popa; Jmp loop`: the word on top of the stack becomes the key and the
/// machine is back at `loop`.
proof fn lemma_keep(
    input: Seq<char>,
    cursor: nat,
    stack: Seq<u32>,
    top: u32,
    aux: u32,
    output: Seq<char>,
)
    ensures
        reaches(
            at(input, cursor, 28, stack.push(top), aux, output),
            at(input, cursor, 3, stack, top, output),
            2,
        ),
{
    lemma_code_bytes();
    let m0 = at(input, cursor, 28, stack.push(top), aux, output);
    let m1 = at(input, cursor, 29, stack, top, output);
    let m2 = at(input, cursor, 3, stack, top, output);
    assert(m0.execute(Opcode::Popa)->Next_0 =~= m1);
    lemma_cycle(m0, Opcode::Popa, m1);
    assert(m1.execute(Opcode::Jmp)->Next_0 =~= m2);
    lemma_cycle(m1, Opcode::Jmp, m2);
    lemma_reaches_chain(m0, m1, m2, 1, 1);
}

/// `Push 0; Popa; Jmp loop`: the key is 0 again and the machine back at
/// `loop`; the stack is left as it was.
proof fn lemma_wrap(input: Seq<char>, cursor: nat, stack: Seq<u32>, aux: u32, output: Seq<char>)
    ensures
        reaches(
            at(input, cursor, 31, stack, aux, output),
            at(input, cursor, 3, stack, 0, output),
            3,
        ),
{
    lemma_code_bytes();
    let m0 = at(input, cursor, 31, stack, aux, output);
    let m1 = at(input, cursor, 33, stack.push(0), aux, output);
    let m2 = at(input, cursor, 34, stack, 0, output);
    let m3 = at(input, cursor, 3, stack, 0, output);
    assert(m0.execute(Opcode::Push)->Next_0 =~= m1);
    lemma_cycle(m0, Opcode::Push, m1);
    assert(m1.execute(Opcode::Popa)->Next_0 =~= m2);
    lemma_cycle(m1, Opcode::Popa, m2);
    assert(m2.execute(Opcode::Jmp)->Next_0 =~= m3);
    lemma_cycle(m2, Opcode::Jmp, m3);
    lemma_reaches_chain(m0, m1, m2, 1, 1);
    lemma_reaches_chain(m0, m2, m3, 2, 1);
}

/// The words that lie on the stack once `count` letters are done: one 26 for
/// each time the key went from 25 back to 0.
pub open spec fn leftovers(count: nat) -> Seq<u32> {
    Seq::new(((4 + count) / 26) as nat, |at: int| 26u32)
}

/// The decrypter about to read the letter at `count`, the letters before it
/// done.
pub open spec fn at_loop(cipher: Seq<char>, count: nat) -> Machine {
    Machine {
        code: code(),
        input: cipher,
        cursor: count,
        pc: 3,
        stack: leftovers(count),
        aux: key(count) as u32,
        output: decrypt(cipher).take(count as int),
    }
}

/// The decrypter at its `Exit`: the whole input read, the end-of-input word 0
/// on top of the stack, every letter written.
pub open spec fn at_exit(cipher: Seq<char>) -> Machine {
    Machine {
        code: code(),
        input: cipher,
        cursor: cipher.len(),
        pc: 7,
        stack: leftovers(cipher.len()).push(0),
        aux: key(cipher.len()) as u32,
        output: decrypt(cipher),
    }
}

/// The cycles that the letter at `position` takes.
spec fn cycles_for(cipher: Seq<char>, position: nat) -> nat {
    let shifting: nat = if cipher[position as int] as u32 + key(position) > 122 {
        7
    } else {
        5
    };
    let closing: nat = if key(position) == 25 {
        3
    } else {
        2
    };
    3 + shifting + 7 + closing
}

/// The cycles that the first `count` letters take.
spec fn cycles_before(cipher: Seq<char>, count: nat) -> nat
    decreases count,
{
    if count == 0 {
        0
    } else {
        cycles_before(cipher, (count - 1) as nat) + cycles_for(cipher, (count - 1) as nat)
    }
}

/// `Push 4; Popa`: the key is set and the machine at `loop`.
proof fn lemma_enter(cipher: Seq<char>)
    ensures
        reaches(Machine::start(code(), cipher), at_loop(cipher, 0), 2),
{
    lemma_code_bytes();
    let m0 = Machine::start(code(), cipher);
    let m1 = at(cipher, 0, 2, Seq::<u32>::empty().push(4), 0, Seq::empty());
    let m2 = at(cipher, 0, 3, Seq::empty(), 4, Seq::empty());
    assert(m0.execute(Opcode::Push)->Next_0 =~= m1);
    lemma_cycle(m0, Opcode::Push, m1);
    assert(m1.execute(Opcode::Popa)->Next_0 =~= m2);
    lemma_cycle(m1, Opcode::Popa, m2);
    lemma_reaches_chain(m0, m1, m2, 1, 1);
    assert(m2 =~= at_loop(cipher, 0));
}

/// One turn of the loop: the letter at `position` is read, moved and written,
/// and the key moved on.
proof fn lemma_turn(cipher: Seq<char>, position: nat)
    requires
        is_lowercase(cipher),
        position < cipher.len(),
    ensures
        reaches(
            at_loop(cipher, position),
            at_loop(cipher, position + 1),
            cycles_for(cipher, position),
        ),
{
    let stack = leftovers(position);
    let k = key(position) as u32;
    let output = decrypt(cipher).take(position as int);
    let letter = cipher[position as int];
    let moved = rotate(letter, k as nat);
    let written = output.push(moved);
    let shifting: nat = if letter as u32 + k > 122 {
        7
    } else {
        5
    };
    assert('a' <= letter <= 'z');
    let m0 = at_loop(cipher, position);
    let m1 = at(cipher, position + 1, 8, stack.push(letter as u32), k, output);
    let m2 = at(cipher, position + 1, 18, stack.push(moved as u32), k, output);
    let m3 = at(
        cipher,
        position + 1,
        if k == 25 {
            31
        } else {
            28
        },
        stack.push((k + 1) as u32),
        k,
        written,
    );
    let m4 = at_loop(cipher, position + 1);
    assert(m0 =~= at(cipher, position, 3, stack, k, output));
    lemma_read(cipher, position, stack, k, output);
    lemma_shift(cipher, position + 1, stack, letter, k, output);
    lemma_write(cipher, position + 1, stack, moved, k, output);
    assert(written =~= decrypt(cipher).take((position + 1) as int));
    if k == 25 {
        lemma_wrap(cipher, position + 1, stack.push(26), k, written);
        assert(stack.push(26) =~= leftovers(position + 1));
        assert(m4 =~= at(cipher, position + 1, 3, stack.push(26), 0, written));
        lemma_reaches_chain(m0, m1, m2, 3, shifting);
        lemma_reaches_chain(m0, m2, m3, 3 + shifting, 7);
        lemma_reaches_chain(m0, m3, m4, 3 + shifting + 7, 3);
    } else {
        lemma_keep(cipher, position + 1, stack, (k + 1) as u32, k, written);
        assert(stack =~= leftovers(position + 1));
        assert(m4 =~= at(cipher, position + 1, 3, stack, (k + 1) as u32, written));
        lemma_reaches_chain(m0, m1, m2, 3, shifting);
        lemma_reaches_chain(m0, m2, m3, 3 + shifting, 7);
        lemma_reaches_chain(m0, m3, m4, 3 + shifting + 7, 2);
    }
}

/// The first `count` letters: the machine is back at `loop`, after at most 20
/// cycles for each letter.
proof fn lemma_turns(cipher: Seq<char>, count: nat)
    requires
        is_lowercase(cipher),
        count <= cipher.len(),
    ensures
        reaches(
            Machine::start(code(), cipher),
            at_loop(cipher, count),
            2 + cycles_before(cipher, count),
        ),
        cycles_before(cipher, count) <= 20 * count,
    decreases count,
{
    if count == 0 {
        lemma_enter(cipher);
    } else {
        let before = (count - 1) as nat;
        lemma_turns(cipher, before);
        lemma_turn(cipher, before);
        lemma_reaches_chain(
            Machine::start(code(), cipher),
            at_loop(cipher, before),
            at_loop(cipher, count),
            2 + cycles_before(cipher, before),
            cycles_for(cipher, before),
        );
    }
}

/// `In; Dup; Bne decode; Exit` at the end of the input: `In` pushes 0, the
/// branch is not taken, and the machine stops at `Exit`.
proof fn lemma_leave(cipher: Seq<char>, fuel: nat)
    requires
        fuel >= 4,
    ensures
        at_loop(cipher, cipher.len()).run(fuel) == (at_exit(cipher), Ok::<(), VmError>(())),
{
    lemma_code_bytes();
    let count = cipher.len();
    let stack = leftovers(count);
    let k = key(count) as u32;
    let output = decrypt(cipher);
    let m0 = at_loop(cipher, count);
    let m1 = at(cipher, count, 4, stack.push(0), k, output);
    let m2 = at(cipher, count, 5, stack.push(0).push(0), k, output);
    let m3 = at(cipher, count, 7, stack.push(0), k, output);
    assert(decrypt(cipher).take(count as int) =~= output);
    assert(m0 =~= at(cipher, count, 3, stack, k, output));
    assert(m0.execute(Opcode::In)->Next_0 =~= m1);
    lemma_cycle(m0, Opcode::In, m1);
    assert(m1.execute(Opcode::Dup)->Next_0 =~= m2);
    lemma_cycle(m1, Opcode::Dup, m2);
    assert(m2.execute(Opcode::Bne)->Next_0 =~= m3);
    lemma_cycle(m2, Opcode::Bne, m3);
    lemma_reaches_chain(m0, m1, m2, 1, 1);
    lemma_reaches_chain(m0, m2, m3, 2, 1);
    lemma_step_executes(m3, Opcode::Exit);
    assert(m3.run(1) == (m3, Ok::<(), VmError>(())));
    lemma_run_through(m0, m3, 3, 1);
    assert(m3 =~= at_exit(cipher));
    lemma_run_more_fuel(m0, 4, fuel);
}

/// The decrypter decrypts: on an input of lowercase letters it stops at its
/// `Exit`, when the input is used up and not before, having written each
/// letter moved forward by its key. 20 cycles for each letter and 6 more
/// are enough fuel.
pub proof fn lemma_decrypter_decrypts(cipher: Seq<char>, fuel: nat)
    requires
        is_lowercase(cipher),
        fuel >= 20 * cipher.len() + 6,
    ensures
        Machine::start(code(), cipher).run(fuel) == (at_exit(cipher), Ok::<(), VmError>(())),
        Machine::start(code(), cipher).outcome(fuel) == Ok::<Seq<char>, VmError>(
            decrypt(cipher),
        ),
{
    let start = Machine::start(code(), cipher);
    let count = cipher.len();
    let used = 2 + cycles_before(cipher, count);
    lemma_turns(cipher, count);
    lemma_leave(cipher, 4);
    lemma_run_through(start, at_loop(cipher, count), used, 4);
    lemma_run_more_fuel(start, used + 4, fuel);
}

/// The decrypter recovers what was encrypted: run on the encryption of a
/// text of lowercase letters, it writes the text.
pub proof fn lemma_decrypter_recovers(plain: Seq<char>, fuel: nat)
    requires
        is_lowercase(plain),
        fuel >= 20 * plain.len() + 6,
    ensures
        Machine::start(code(), encrypt(plain)).outcome(fuel) == Ok::<Seq<char>, VmError>(plain),
{
    lemma_decrypt_encrypt(plain);
    lemma_decrypter_decrypts(encrypt(plain), fuel);
}

/// The four labels of the decrypter are four different names.
proof fn lemma_label_names()
    ensures
        "loop"@ != "decode"@,
        "loop"@ != "out"@,
        "loop"@ != "wrap"@,
        "decode"@ != "out"@,
        "decode"@ != "wrap"@,
        "out"@ != "wrap"@,
{
    reveal_strlit("loop");
    reveal_strlit("decode");
    reveal_strlit("out");
    reveal_strlit("wrap");
    assert("loop"@.len() == 4 && "decode"@.len() == 6 && "out"@.len() == 3 && "wrap"@.len() == 4);
    assert("loop"@[0] != "wrap"@[0]);
}

/// The addresses of the decrypter's instructions.
proof fn lemma_source_offsets()
    ensures
        source().len() == 25,
        offset(source(), 0) == 0,
        offset(source(), 1) == 2,
        offset(source(), 2) == 3,
        offset(source(), 3) == 4,
        offset(source(), 4) == 5,
        offset(source(), 5) == 7,
        offset(source(), 6) == 8,
        offset(source(), 7) == 9,
        offset(source(), 8) == 10,
        offset(source(), 9) == 11,
        offset(source(), 10) == 13,
        offset(source(), 11) == 15,
        offset(source(), 12) == 17,
        offset(source(), 13) == 18,
        offset(source(), 14) == 19,
        offset(source(), 15) == 20,
        offset(source(), 16) == 22,
        offset(source(), 17) == 23,
        offset(source(), 18) == 24,
        offset(source(), 19) == 26,
        offset(source(), 20) == 28,
        offset(source(), 21) == 29,
        offset(source(), 22) == 31,
        offset(source(), 23) == 33,
        offset(source(), 24) == 34,
        offset(source(), 25) == 36,
{
    reveal_with_fuel(offset, 26);
}

/// Where the decrypter's labels stand.
proof fn lemma_source_labels()
    ensures
        resolve(source(), "loop"@) == Some(3nat),
        resolve(source(), "decode"@) == Some(8nat),
        resolve(source(), "out"@) == Some(18nat),
        resolve(source(), "wrap"@) == Some(31nat),
{
    lemma_label_names();
    lemma_source_offsets();
    let program = source();
    assert(defines(program, 2, "loop"@));
    assert(defines(program, 6, "decode"@));
    assert(defines(program, 13, "out"@));
    assert(defines(program, 22, "wrap"@));
    assert forall|other: int, name: Seq<char>| #[trigger]
        defines(program, other, name) implies other == 2 || other == 6 || other == 13 || other
        == 22 by {
        if 0 <= other < 25 && other != 2 && other != 6 && other != 13 && other != 22 {
            assert(program[other].label is None);
        }
    }
    lemma_resolve_defined_once(program, "loop"@, 2);
    lemma_resolve_defined_once(program, "decode"@, 6);
    lemma_resolve_defined_once(program, "out"@, 13);
    lemma_resolve_defined_once(program, "wrap"@, 22);
}

/// The bytes of the first `count` instructions of the decrypter are the
/// first bytes of its bytecode.
proof fn lemma_source_encodes(count: int)
    requires
        0 <= count <= 25,
    ensures
        encode_first(source(), count) == code().take(offset(source(), count) as int),
    decreases count,
{
    lemma_source_offsets();
    lemma_source_labels();
    lemma_code_bytes();
    let program = source();
    let upto = code().take(offset(program, count) as int);
    if count == 0 {
        assert(encode_first(program, count) =~= upto);
    } else {
        lemma_source_encodes(count - 1);
        let before = code().take(offset(program, count - 1) as int);
        let insn = program[count - 1];
        let bytes = encode_insn(program, insn);
        assert(encode_first(program, count) == before + bytes);
        assert(bytes.len() == offset(program, count) - offset(program, count - 1));
        assert(bytes[0] == code()[offset(program, count - 1) as int]);
        assert(bytes.len() == 2 ==> bytes[1] == code()[offset(program, count - 1) as int + 1]);
        assert(before + bytes =~= upto);
    }
}

/// The decrypter assembles, and to the bytecode `code()`: every label that
/// it refers to has a definition, every operand fits in its byte, and its
/// encoding is `code()`.
pub proof fn lemma_decrypter_assembles()
    ensures
        complete(source()),
        in_range(source()),
        encode(source()) == code(),
{
    lemma_source_offsets();
    lemma_source_labels();
    lemma_source_encodes(25);
    lemma_code_bytes();
    assert(code().take(36) =~= code());
    let program = source();
    assert forall|index: int|
        !undefined_at(program, index) && !address_too_large_at(program, index) by {
        if 0 <= index < 25 {
            if let SpecOperand::Target(name) = program[index].operand {
                assert(name == "loop"@ || name == "decode"@ || name == "out"@ || name
                    == "wrap"@);
            }
        }
    }
    assert forall|index: int| !immediate_too_large_at(program, index) by {
        if 0 <= index < 25 {
            if let SpecOperand::Value(value) = program[index].operand {
                assert(value == 4 || value == 122 || value == 26 || value == 1 || value == 25
                    || value == 0);
            }
        }
    }
}

/// What the decrypter writes for lowercase letters is as many lowercase
/// letters.
pub proof fn lemma_decrypt_is_lowercase(cipher: Seq<char>)
    requires
        is_lowercase(cipher),
    ensures
        decrypt(cipher).len() == cipher.len(),
        is_lowercase(decrypt(cipher)),
{
    assert forall|at: int| 0 <= at < decrypt(cipher).len() implies 'a' <= #[trigger] decrypt(
        cipher,
    )[at] <= 'z' by {
        assert('a' <= cipher[at] <= 'z');
    }
}

/// The step limit is out of the decrypter's reach: on any input of lowercase
/// letters that a machine can hold, the decrypter stops at its `Exit` within
/// `STEP_LIMIT` cycles, having written each letter moved forward by its key.
pub proof fn lemma_decrypter_within_limit(cipher: Seq<char>)
    requires
        is_lowercase(cipher),
        cipher.len() <= usize::MAX,
    ensures
        Machine::start(code(), cipher).run(STEP_LIMIT as nat) == (
            at_exit(cipher),
            Ok::<(), VmError>(()),
        ),
        Machine::start(code(), cipher).outcome(STEP_LIMIT as nat) == Ok::<Seq<char>, VmError>(
            decrypt(cipher),
        ),
{
    lemma_decrypter_decrypts(cipher, STEP_LIMIT as nat);
}

/// Assembles the decrypter and runs it on `cipher`.
///
/// On an input of lowercase letters it returns as many lowercase letters,
/// each input letter moved forward by its key. On any input it returns what
/// the machine makes of the decrypter's bytecode.
pub fn decrypt_text(cipher: &str) -> (r: Result<String, VmError>)
    ensures
        text_of(r) == Machine::start(code(), cipher@).outcome(STEP_LIMIT as nat),
        is_lowercase(cipher@) ==> text_of(r) == Ok::<Seq<char>, VmError>(decrypt(cipher@)),
{
    let instructions = program();
    proof {
        lemma_decrypter_assembles();
    }
    match assemble(instructions.as_slice()) {
        Ok(bytecode) => {
            let mut vm = Vm::new(bytecode.as_slice(), cipher);
            proof {
                if is_lowercase(cipher@) {
                    lemma_decrypter_within_limit(cipher@);
                }
            }
            vm.run()
        },
        Err(_) => unreached(),
    }
}

} // verus!
