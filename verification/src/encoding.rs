//! What a program assembles to: sizes, addresses, labels and bytes.

use crate::assembler::{SpecInsn, SpecOperand};
use vstd::prelude::*;

verus! {

/// The number of bytes that an instruction occupies: the opcode byte, and one
/// more if it has an operand.
pub open spec fn size(insn: SpecInsn) -> nat {
    if insn.operand is Absent {
        1
    } else {
        2
    }
}

/// The address of instruction `index`: the bytes that the instructions
/// before it occupy.
pub open spec fn offset(program: Seq<SpecInsn>, index: int) -> nat
    decreases index,
{
    if index <= 0 {
        0
    } else {
        offset(program, index - 1) + size(program[index - 1])
    }
}

/// The number of bytes that the whole program occupies.
pub open spec fn code_len(program: Seq<SpecInsn>) -> nat {
    offset(program, program.len() as int)
}

/// Whether instruction `index` carries the label `name`.
pub open spec fn defines(program: Seq<SpecInsn>, index: int, name: Seq<char>) -> bool {
    0 <= index < program.len() && program[index].label == Some(name)
}

/// The address that `name` stands for when only the first `count`
/// instructions are looked at: that of the last of them that carries it.
pub open spec fn resolve_first(program: Seq<SpecInsn>, count: int, name: Seq<char>) -> Option<nat>
    decreases count,
{
    if count <= 0 {
        None
    } else if program[count - 1].label == Some(name) {
        Some(offset(program, count - 1))
    } else {
        resolve_first(program, count - 1, name)
    }
}

/// The address that `name` stands for: that of the last instruction that
/// carries it as its label, if any does.
pub open spec fn resolve(program: Seq<SpecInsn>, name: Seq<char>) -> Option<nat> {
    resolve_first(program, program.len() as int, name)
}

/// The byte that holds `n`, for a number that fits in one (0 for one that
/// does not: a program with such a number has no bytecode).
pub open spec fn byte_of(n: nat) -> u8 {
    if n <= 255 {
        n as u8
    } else {
        0
    }
}

/// The byte that stands for the address of `name` (0 where the name has no
/// definition).
pub open spec fn address_byte(program: Seq<SpecInsn>, name: Seq<char>) -> u8 {
    match resolve(program, name) {
        Some(address) => byte_of(address),
        None => 0,
    }
}

/// The bytes of one instruction of `program`: the opcode byte, and behind it
/// the immediate or the address of the label referred to.
pub open spec fn encode_insn(program: Seq<SpecInsn>, insn: SpecInsn) -> Seq<u8> {
    match insn.operand {
        SpecOperand::Absent => seq![insn.opcode.code()],
        SpecOperand::Value(value) => seq![insn.opcode.code(), byte_of(value as nat)],
        SpecOperand::Target(name) => seq![insn.opcode.code(), address_byte(program, name)],
    }
}

/// The bytes of the first `count` instructions of `program`, one after the
/// other.
pub open spec fn encode_first(program: Seq<SpecInsn>, count: int) -> Seq<u8>
    decreases count,
{
    if count <= 0 {
        Seq::empty()
    } else {
        encode_first(program, count - 1) + encode_insn(program, program[count - 1])
    }
}

/// The bytecode of `program`.
pub open spec fn encode(program: Seq<SpecInsn>) -> Seq<u8> {
    encode_first(program, program.len() as int)
}

/// Whether instruction `index` has the address of the label `name` as its
/// operand.
pub open spec fn refers_to(program: Seq<SpecInsn>, index: int, name: Seq<char>) -> bool {
    0 <= index < program.len() && program[index].operand == SpecOperand::Target(name)
}

/// Whether instruction `index` refers to a label that no instruction carries.
pub open spec fn undefined_at(program: Seq<SpecInsn>, index: int) -> bool {
    &&& 0 <= index < program.len()
    &&& program[index].operand matches SpecOperand::Target(name)
    &&& resolve(program, name) is None
}

/// Whether every label that the program refers to has a definition.
pub open spec fn complete(program: Seq<SpecInsn>) -> bool {
    forall|index: int| !undefined_at(program, index)
}

/// Whether the immediate of instruction `index` does not fit in a byte.
pub open spec fn immediate_too_large_at(program: Seq<SpecInsn>, index: int) -> bool {
    &&& 0 <= index < program.len()
    &&& program[index].operand matches SpecOperand::Value(value)
    &&& value > 255
}

/// Whether instruction `index` refers to a label whose address does not fit
/// in a byte.
pub open spec fn address_too_large_at(program: Seq<SpecInsn>, index: int) -> bool {
    &&& 0 <= index < program.len()
    &&& program[index].operand matches SpecOperand::Target(name)
    &&& resolve(program, name) matches Some(address)
    &&& address > 255
}

/// Whether every immediate of the program fits in a byte.
pub open spec fn immediates_fit(program: Seq<SpecInsn>) -> bool {
    forall|index: int| !immediate_too_large_at(program, index)
}

/// Whether every operand of the program fits in its byte: every immediate is
/// at most 255, and so is the address of every label referred to.
pub open spec fn in_range(program: Seq<SpecInsn>) -> bool {
    forall|index: int|
        !immediate_too_large_at(program, index) && !address_too_large_at(program, index)
}

/// Whether instruction `index` is the first whose immediate does not fit in
/// a byte.
pub open spec fn first_immediate_too_large(program: Seq<SpecInsn>, index: int) -> bool {
    &&& immediate_too_large_at(program, index)
    &&& forall|earlier: int| 0 <= earlier < index ==> !immediate_too_large_at(program, earlier)
}

/// Whether the reference that instruction `index` makes cannot be encoded:
/// the label has no definition, or its address does not fit in a byte.
pub open spec fn bad_reference_at(program: Seq<SpecInsn>, index: int) -> bool {
    undefined_at(program, index) || address_too_large_at(program, index)
}

/// Whether instruction `index` is the first whose reference cannot be
/// encoded.
pub open spec fn first_bad_reference(program: Seq<SpecInsn>, index: int) -> bool {
    &&& bad_reference_at(program, index)
    &&& forall|earlier: int| 0 <= earlier < index ==> !bad_reference_at(program, earlier)
}

/// Whether exactly one instruction carries the label `name`.
pub open spec fn defined_once(program: Seq<SpecInsn>, name: Seq<char>) -> bool {
    exists|index: int|
        {
            &&& #[trigger] defines(program, index, name)
            &&& forall|other: int| #[trigger] defines(program, other, name) ==> other == index
        }
}

/// Addresses grow with the index, by at least one byte and at most two for
/// each instruction.
pub proof fn lemma_offset_grows(program: Seq<SpecInsn>, low: int, high: int)
    requires
        0 <= low <= high,
    ensures
        offset(program, low) + (high - low) <= offset(program, high),
        offset(program, high) <= offset(program, low) + 2 * (high - low),
    decreases high - low,
{
    if low < high {
        lemma_offset_grows(program, low, high - 1);
    }
}

/// A name resolves among the first `count` instructions exactly when one of
/// them carries it, and then to the address of the last one that does.
pub proof fn lemma_resolve_first(program: Seq<SpecInsn>, count: int, name: Seq<char>)
    requires
        0 <= count <= program.len(),
    ensures
        match resolve_first(program, count, name) {
            Some(address) => exists|index: int|
                {
                    &&& index < count
                    &&& #[trigger] defines(program, index, name)
                    &&& address == offset(program, index)
                    &&& forall|later: int|
                        index < later < count ==> !#[trigger] defines(program, later, name)
                },
            None => forall|index: int|
                index < count ==> !#[trigger] defines(program, index, name),
        },
    decreases count,
{
    if count > 0 {
        if program[count - 1].label == Some(name) {
            assert(defines(program, count - 1, name));
        } else {
            lemma_resolve_first(program, count - 1, name);
            match resolve_first(program, count - 1, name) {
                Some(address) => {
                    let index = choose|index: int|
                        {
                            &&& index < count - 1
                            &&& #[trigger] defines(program, index, name)
                            &&& address == offset(program, index)
                            &&& forall|later: int|
                                index < later < count - 1 ==> !#[trigger] defines(
                                    program,
                                    later,
                                    name,
                                )
                        };
                    assert(defines(program, index, name));
                    assert forall|later: int| index < later < count implies !#[trigger] defines(
                        program,
                        later,
                        name,
                    ) by {}
                },
                None => {
                    assert forall|index: int| index < count implies !#[trigger] defines(
                        program,
                        index,
                        name,
                    ) by {}
                },
            }
        }
    }
}

/// Last definition wins: a name resolves exactly when some instruction
/// carries it, and then to the address of the last instruction that does.
pub proof fn lemma_resolve_is_last_definition(program: Seq<SpecInsn>, name: Seq<char>)
    ensures
        resolve(program, name) is Some <==> exists|index: int|
            #[trigger] defines(program, index, name),
        forall|index: int|
            #![trigger defines(program, index, name)]
            defines(program, index, name) && (forall|later: int|
                index < later ==> !#[trigger] defines(program, later, name)) ==> resolve(
                program,
                name,
            ) == Some(offset(program, index)),
{
    lemma_resolve_first(program, program.len() as int, name);
}

/// The first `count` instructions occupy as many bytes as the address of
/// the next one says.
pub proof fn lemma_encode_first_len(program: Seq<SpecInsn>, count: int)
    requires
        0 <= count <= program.len(),
    ensures
        encode_first(program, count).len() == offset(program, count),
    decreases count,
{
    if count > 0 {
        lemma_encode_first_len(program, count - 1);
    }
}

/// The bytes of the first `low` instructions stand unchanged at the start
/// of the bytes of the first `high`.
pub proof fn lemma_encode_first_prefix(program: Seq<SpecInsn>, low: int, high: int)
    requires
        0 <= low <= high <= program.len(),
    ensures
        offset(program, low) <= offset(program, high),
        encode_first(program, high).len() == offset(program, high),
        encode_first(program, high).take(offset(program, low) as int) == encode_first(
            program,
            low,
        ),
    decreases high - low,
{
    lemma_encode_first_len(program, low);
    lemma_encode_first_len(program, high);
    lemma_offset_grows(program, low, high);
    if low < high {
        lemma_encode_first_prefix(program, low, high - 1);
        lemma_encode_first_len(program, high - 1);
        lemma_offset_grows(program, low, high - 1);
        assert(encode_first(program, high).take(offset(program, low) as int) =~= encode_first(
            program,
            high - 1,
        ).take(offset(program, low) as int));
    } else {
        assert(encode_first(program, high).take(offset(program, low) as int) =~= encode_first(
            program,
            low,
        ));
    }
}

/// The bytecode is as long as the sizes of the instructions add up to, and
/// each instruction's bytes stand in it at the instruction's address.
pub proof fn lemma_encode_at(program: Seq<SpecInsn>, index: int)
    requires
        0 <= index < program.len(),
    ensures
        encode(program).len() == code_len(program),
        offset(program, index + 1) == offset(program, index) + size(program[index]),
        offset(program, index + 1) <= code_len(program),
        encode(program).subrange(
            offset(program, index) as int,
            offset(program, index + 1) as int,
        ) == encode_insn(program, program[index]),
{
    let n = program.len() as int;
    lemma_encode_first_prefix(program, index + 1, n);
    lemma_encode_first_len(program, index);
    lemma_encode_first_len(program, index + 1);
    let whole = encode(program);
    let upto = encode_first(program, index + 1);
    let start = offset(program, index) as int;
    let end = offset(program, index + 1) as int;
    assert(upto == encode_first(program, index) + encode_insn(program, program[index]));
    assert(upto.subrange(start, end) =~= encode_insn(program, program[index]));
    assert(whole.subrange(start, end) =~= whole.take(end).subrange(start, end));
}

/// A label that exactly one instruction carries stands for that
/// instruction's address.
pub proof fn lemma_resolve_defined_once(program: Seq<SpecInsn>, name: Seq<char>, definition: int)
    requires
        defines(program, definition, name),
        forall|other: int| #[trigger] defines(program, other, name) ==> other == definition,
    ensures
        resolve(program, name) == Some(offset(program, definition)),
{
    lemma_resolve_is_last_definition(program, name);
}

/// A program in which every label referred to is carried by exactly one
/// instruction is complete, and its bytecode is as long as the sizes of its
/// instructions add up to.
pub proof fn lemma_defined_once_is_complete(program: Seq<SpecInsn>)
    requires
        forall|index: int, name: Seq<char>| #[trigger]
            refers_to(program, index, name) ==> defined_once(program, name),
    ensures
        complete(program),
        encode(program).len() == code_len(program),
{
    lemma_encode_first_len(program, program.len() as int);
    assert forall|index: int| !undefined_at(program, index) by {
        if 0 <= index < program.len() {
            if let SpecOperand::Target(name) = program[index].operand {
                assert(refers_to(program, index, name));
                assert(defined_once(program, name));
                lemma_resolve_is_last_definition(program, name);
            }
        }
    }
}

/// In the bytecode of a program whose operands fit, the opcode byte of each
/// instruction stands at the instruction's address, and its operand byte, if
/// it has one, behind it: the immediate, or the address of the label.
pub proof fn lemma_bytes_of_insn(program: Seq<SpecInsn>, index: int)
    requires
        0 <= index < program.len(),
        complete(program),
        in_range(program),
    ensures
        offset(program, index) + size(program[index]) <= encode(program).len(),
        encode(program)[offset(program, index) as int] == program[index].opcode.code(),
        match program[index].operand {
            SpecOperand::Absent => true,
            SpecOperand::Value(value) => encode(program)[offset(program, index) as int + 1]
                == value,
            SpecOperand::Target(name) => resolve(program, name) is Some && encode(
                program,
            )[offset(program, index) as int + 1] == resolve(program, name)->0,
        },
{
    lemma_encode_at(program, index);
    let whole = encode(program);
    let start = offset(program, index) as int;
    let end = offset(program, index + 1) as int;
    let piece = encode_insn(program, program[index]);
    assert(whole.subrange(start, end) == piece);
    assert(piece.len() == end - start);
    assert(whole.subrange(start, end)[0] == whole[start]);
    if !(program[index].operand is Absent) {
        assert(whole.subrange(start, end)[1] == whole[start + 1]);
    }
    assert(!undefined_at(program, index));
    assert(!immediate_too_large_at(program, index));
    assert(!address_too_large_at(program, index));
}

/// In the bytecode of a program whose operands fit, where the label that
/// instruction `index` refers to is carried by exactly one instruction, the
/// operand byte of instruction `index` is that instruction's address.
pub proof fn lemma_target_byte_is_address(
    program: Seq<SpecInsn>,
    index: int,
    name: Seq<char>,
    definition: int,
)
    requires
        refers_to(program, index, name),
        defines(program, definition, name),
        forall|other: int| #[trigger] defines(program, other, name) ==> other == definition,
        in_range(program),
    ensures
        offset(program, index) + 1 < encode(program).len(),
        encode(program)[offset(program, index) as int + 1] == offset(program, definition),
{
    lemma_encode_at(program, index);
    lemma_resolve_defined_once(program, name, definition);
    let whole = encode(program);
    let start = offset(program, index) as int;
    let end = offset(program, index + 1) as int;
    assert(whole.subrange(start, end) == encode_insn(program, program[index]));
    assert(whole.subrange(start, end)[1] == whole[start + 1]);
    assert(!address_too_large_at(program, index));
}

} // verus!
