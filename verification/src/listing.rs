//! The text that a program is listed as: one line for each instruction.

use crate::assembler::{SpecInsn, SpecOperand};
use crate::text::decimal;
use vstd::prelude::*;

verus! {

/// What stands before the opcode: the label, a colon and a tab, or a tab alone.
pub open spec fn render_label(label: Option<Seq<char>>) -> Seq<char> {
    match label {
        Some(name) => name + seq![':', '\t'],
        None => seq!['\t'],
    }
}

/// What stands behind the opcode: nothing, or a space and then the label
/// referred to or the immediate in decimal.
pub open spec fn render_operand(operand: SpecOperand) -> Seq<char> {
    match operand {
        SpecOperand::Absent => Seq::empty(),
        SpecOperand::Target(name) => seq![' '] + name,
        SpecOperand::Value(value) => seq![' '] + decimal(value as nat),
    }
}

/// The line of one instruction, with the newline that ends it.
pub open spec fn render_insn(insn: SpecInsn) -> Seq<char> {
    render_label(insn.label) + insn.opcode.mnemonic() + render_operand(insn.operand) + seq!['\n']
}

/// The lines of the first `count` instructions, in program order.
pub open spec fn render_first(program: Seq<SpecInsn>, count: int) -> Seq<char>
    decreases count,
{
    if count <= 0 {
        Seq::empty()
    } else {
        render_first(program, count - 1) + render_insn(program[count - 1])
    }
}

/// The listing of `program`.
pub open spec fn render(program: Seq<SpecInsn>) -> Seq<char> {
    render_first(program, program.len() as int)
}

/// How many newline characters a text holds.
pub open spec fn newlines(text: Seq<char>) -> nat
    decreases text.len(),
{
    if text.len() == 0 {
        0
    } else {
        newlines(text.drop_last()) + if text.last() == '\n' {
            1nat
        } else {
            0nat
        }
    }
}

/// Whether a text holds no newline character.
pub open spec fn single_line(text: Seq<char>) -> bool {
    forall|at: int| 0 <= at < text.len() ==> text[at] != '\n'
}

/// Whether neither the label of an instruction nor the label that it refers
/// to holds a newline character.
pub open spec fn names_single_line(insn: SpecInsn) -> bool {
    &&& insn.label matches Some(name) ==> single_line(name)
    &&& insn.operand matches SpecOperand::Target(name) ==> single_line(name)
}

/// The newlines of two texts put together are those of the one and those of
/// the other.
pub proof fn lemma_newlines_concat(front: Seq<char>, back: Seq<char>)
    ensures
        newlines(front + back) == newlines(front) + newlines(back),
    decreases back.len(),
{
    if back.len() == 0 {
        assert(front + back =~= front);
    } else {
        lemma_newlines_concat(front, back.drop_last());
        assert((front + back).drop_last() =~= front + back.drop_last());
    }
}

/// A text without newline characters counts none.
pub proof fn lemma_single_line_newlines(text: Seq<char>)
    requires
        single_line(text),
    ensures
        newlines(text) == 0,
    decreases text.len(),
{
    if text.len() > 0 {
        lemma_single_line_newlines(text.drop_last());
    }
}

/// A number in decimal is made of digits alone.
pub proof fn lemma_decimal_single_line(n: nat)
    ensures
        decimal(n).len() > 0,
        single_line(decimal(n)),
    decreases n,
{
    if n >= 10 {
        lemma_decimal_single_line(n / 10);
    }
}

/// The line of an instruction is one line: if its names hold no newline, its
/// only newline is the one at its end.
pub proof fn lemma_render_insn_one_line(insn: SpecInsn)
    requires
        names_single_line(insn),
    ensures
        newlines(render_insn(insn)) == 1,
        render_insn(insn).len() > 0,
        render_insn(insn).last() == '\n',
{
    let label = render_label(insn.label);
    let name = insn.opcode.mnemonic();
    let operand = render_operand(insn.operand);
    assert(single_line(label));
    assert(single_line(name));
    assert(single_line(operand)) by {
        if let SpecOperand::Value(value) = insn.operand {
            lemma_decimal_single_line(value as nat);
        }
    }
    lemma_single_line_newlines(label);
    lemma_single_line_newlines(name);
    lemma_single_line_newlines(operand);
    lemma_newlines_concat(label, name);
    lemma_newlines_concat(label + name, operand);
    lemma_newlines_concat(label + name + operand, seq!['\n']);
    assert(newlines(seq!['\n']) == 1) by {
        reveal_with_fuel(newlines, 2);
        assert(seq!['\n'].drop_last() =~= Seq::<char>::empty());
    }
}

/// One line per instruction: where no name holds a newline, the listing of
/// the first `count` instructions holds `count` newlines.
pub proof fn lemma_render_first_line_count(program: Seq<SpecInsn>, count: int)
    requires
        0 <= count <= program.len(),
        forall|index: int| 0 <= index < program.len() ==> names_single_line(#[trigger] program[index]),
    ensures
        newlines(render_first(program, count)) == count,
    decreases count,
{
    if count > 0 {
        lemma_render_first_line_count(program, count - 1);
        lemma_render_insn_one_line(program[count - 1]);
        lemma_newlines_concat(render_first(program, count - 1), render_insn(program[count - 1]));
    }
}

/// One line per instruction: where no name holds a newline, the listing
/// holds as many newlines as the program has instructions.
pub proof fn lemma_render_line_count(program: Seq<SpecInsn>)
    requires
        forall|index: int| 0 <= index < program.len() ==> names_single_line(#[trigger] program[index]),
    ensures
        newlines(render(program)) == program.len(),
{
    lemma_render_first_line_count(program, program.len() as int);
}

/// The listing of the first `low` instructions stands unchanged at the start
/// of the listing of the first `high`.
pub proof fn lemma_render_first_prefix(program: Seq<SpecInsn>, low: int, high: int)
    requires
        0 <= low <= high <= program.len(),
    ensures
        render_first(program, low).len() <= render_first(program, high).len(),
        render_first(program, high).take(render_first(program, low).len() as int) == render_first(
            program,
            low,
        ),
    decreases high - low,
{
    if low < high {
        lemma_render_first_prefix(program, low, high - 1);
        assert(render_first(program, high).take(render_first(program, low).len() as int)
            =~= render_first(program, high - 1).take(render_first(program, low).len() as int));
    } else {
        assert(render_first(program, high).take(render_first(program, low).len() as int)
            =~= render_first(program, low));
    }
}

/// Program order: the line of instruction `index` stands in the listing
/// right behind the lines of the instructions before it.
pub proof fn lemma_render_line_at(program: Seq<SpecInsn>, index: int)
    requires
        0 <= index < program.len(),
    ensures
        render_first(program, index + 1).len() == render_first(program, index).len()
            + render_insn(program[index]).len(),
        render_first(program, index + 1).len() <= render(program).len(),
        render(program).subrange(
            render_first(program, index).len() as int,
            render_first(program, index + 1).len() as int,
        ) == render_insn(program[index]),
{
    let start = render_first(program, index).len() as int;
    let end = start + render_insn(program[index]).len();
    let upto = render_first(program, index + 1);
    assert(upto == render_first(program, index) + render_insn(program[index]));
    lemma_render_first_prefix(program, index + 1, program.len() as int);
    assert(upto.subrange(start, end) =~= render_insn(program[index]));
    assert(render(program).subrange(start, end) =~= render(program).take(end).subrange(
        start,
        end,
    ));
}

} // verus!
