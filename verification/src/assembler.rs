//! The assembler: instructions with labels in, bytecode or a listing out.

use crate::encoding::{
    address_byte, address_too_large_at, bad_reference_at, complete, encode, encode_first,
    encode_insn, first_bad_reference, first_immediate_too_large, immediate_too_large_at,
    immediates_fit, in_range, offset, resolve, resolve_first, undefined_at,
};
use crate::text::decimal;
use crate::listing::{render, render_first, render_insn, render_label, render_operand};
use crate::text::push_decimal;
use crate::vm::Opcode;
use vstd::prelude::*;
use vstd::string::*;

verus! {

/// What follows the opcode of an instruction.
#[derive(Debug, Clone, Copy, PartialEq, Eq)]
pub enum Operand {
    /// No operand: the instruction is the opcode byte alone.
    Absent,
    /// The address of the instruction that carries this label.
    Target(&'static str),
    /// An immediate. It is encoded in one byte, so it has to be at most 255.
    Value(u32),
}

/// One instruction to assemble: an opcode, its operand, and the label under
/// which other instructions can refer to its address, if it has one.
#[derive(Debug, Clone, Copy, PartialEq, Eq)]
pub struct Insn {
    label: Option<&'static str>,
    opcode: Opcode,
    operand: Operand,
}

/// An operand as a mathematical value: label names as character sequences.
pub enum SpecOperand {
    /// No operand.
    Absent,
    /// The address of the instruction that carries the label of this name.
    Target(Seq<char>),
    /// An immediate.
    Value(u32),
}

/// An instruction as a mathematical value.
pub struct SpecInsn {
    /// The name under which instructions refer to this one, if it has one.
    pub label: Option<Seq<char>>,
    /// What the instruction does.
    pub opcode: Opcode,
    /// What follows the opcode.
    pub operand: SpecOperand,
}

impl View for Operand {
    type V = SpecOperand;

    open spec fn view(&self) -> SpecOperand {
        match *self {
            Operand::Absent => SpecOperand::Absent,
            Operand::Target(name) => SpecOperand::Target(name@),
            Operand::Value(value) => SpecOperand::Value(value),
        }
    }
}

impl View for Insn {
    type V = SpecInsn;

    closed spec fn view(&self) -> SpecInsn {
        SpecInsn {
            label: match self.label {
                Some(name) => Some(name@),
                None => None,
            },
            opcode: self.opcode,
            operand: self.operand@,
        }
    }
}

impl DeepView for Insn {
    type V = SpecInsn;

    open spec fn deep_view(&self) -> SpecInsn {
        self@
    }
}

impl Insn {
    /// The instruction `opcode` without label and without operand.
    pub fn new(opcode: Opcode) -> (insn: Insn)
        ensures
            insn@ == (SpecInsn { label: None, opcode, operand: SpecOperand::Absent }),
    {
        Insn { label: None, opcode, operand: Operand::Absent }
    }

    /// The same instruction under the label `label`, in place of any it had.
    pub fn set_label(self, label: &'static str) -> (insn: Insn)
        ensures
            insn@ == (SpecInsn { label: Some(label@), ..self@ }),
    {
        Insn { label: Some(label), opcode: self.opcode, operand: self.operand }
    }

    /// The same instruction with the immediate `value` as its operand. A
    /// program assembles only if its immediates are at most 255.
    pub fn set_value(self, value: u32) -> (insn: Insn)
        ensures
            insn@ == (SpecInsn { operand: SpecOperand::Value(value), ..self@ }),
    {
        Insn { label: self.label, opcode: self.opcode, operand: Operand::Value(value) }
    }

    /// The same instruction with the address of `label` as its operand.
    pub fn set_target(self, label: &'static str) -> (insn: Insn)
        ensures
            insn@ == (SpecInsn { operand: SpecOperand::Target(label@), ..self@ }),
    {
        Insn { label: self.label, opcode: self.opcode, operand: Operand::Target(label) }
    }
}

/// Why a program could not be assembled.
#[derive(Debug, Clone, Copy, PartialEq, Eq)]
pub enum AsmError {
    /// An instruction refers to this label, and no instruction carries it.
    UndefinedLabel(&'static str),
    /// An instruction has this immediate, which is above 255.
    ImmediateTooLarge(u32),
    /// An instruction refers to this label, whose address is above 255.
    AddressTooLarge(&'static str),
}

impl AsmError {
    /// The error in words.
    pub open spec fn describe(self) -> Seq<char> {
        match self {
            AsmError::UndefinedLabel(name) => "undefined label "@ + name@,
            AsmError::ImmediateTooLarge(value) => "immediate too large "@ + decimal(value as nat),
            AsmError::AddressTooLarge(name) => "address too large for label "@ + name@,
        }
    }

    /// The error in words, with the label or the immediate that caused it.
    pub fn message(&self) -> (text: String)
        ensures
            text@ == self.describe(),
    {
        match *self {
            AsmError::UndefinedLabel(name) => {
                let mut text = "undefined label ".to_owned();
                text.append(name);
                text
            },
            AsmError::ImmediateTooLarge(value) => {
                let mut text = "immediate too large ".to_owned();
                push_decimal(&mut text, value);
                text
            },
            AsmError::AddressTooLarge(name) => {
                let mut text = "address too large for label ".to_owned();
                text.append(name);
                text
            },
        }
    }
}

/// The addresses of the labels seen so far. A later entry for a name
/// replaces an earlier one.
struct LabelTable {
    entries: Vec<(&'static str, usize)>,
}

/// The table that a list of entries stands for, later entries winning.
spec fn table_of(entries: Seq<(&'static str, usize)>) -> Map<Seq<char>, usize>
    decreases entries.len(),
{
    if entries.len() == 0 {
        Map::empty()
    } else {
        table_of(entries.drop_last()).insert(entries.last().0@, entries.last().1)
    }
}

/// The last entry for a name is the one that the table holds.
proof fn lemma_table_of_last(entries: Seq<(&'static str, usize)>, name: Seq<char>, at: int)
    requires
        0 <= at <= entries.len(),
        forall|later: int| at <= later < entries.len() ==> entries[later].0@ != name,
    ensures
        at == 0 ==> !table_of(entries).contains_key(name),
        at > 0 && entries[at - 1].0@ == name ==> table_of(entries).contains_key(name)
            && table_of(entries)[name] == entries[at - 1].1,
    decreases entries.len(),
{
    if at < entries.len() {
        lemma_table_of_last(entries.drop_last(), name, at);
    }
}

impl View for LabelTable {
    type V = Map<Seq<char>, usize>;

    closed spec fn view(&self) -> Map<Seq<char>, usize> {
        table_of(self.entries@)
    }
}

impl LabelTable {
    /// The address recorded for `name`, if any.
    spec fn address(&self, name: Seq<char>) -> Option<nat> {
        if self@.contains_key(name) {
            Some(self@[name] as nat)
        } else {
            None
        }
    }

    /// The table without entries.
    fn new() -> (table: LabelTable)
        ensures
            table@ == Map::<Seq<char>, usize>::empty(),
    {
        LabelTable { entries: Vec::new() }
    }

    /// Records `address` for `name`, in place of what was recorded for it.
    fn insert(&mut self, name: &'static str, address: usize)
        ensures
            final(self)@ == old(self)@.insert(name@, address),
    {
        self.entries.push((name, address));
        assert(self.entries@.drop_last() =~= old(self).entries@);
    }

    /// The address recorded for `name`, if any.
    fn get(&self, name: &str) -> (found: Option<usize>)
        ensures
            found == if self@.contains_key(name@) {
                Some(self@[name@])
            } else {
                None
            },
    {
        let mut at = self.entries.len();
        while at > 0
            invariant
                at <= self.entries.len(),
                forall|later: int| at <= later < self.entries.len() ==> self.entries[later].0@ != name@,
            decreases at,
        {
            if *self.entries[at - 1].0 == *name {
                proof {
                    lemma_table_of_last(self.entries@, name@, at as int);
                }
                return Some(self.entries[at - 1].1);
            }
            at -= 1;
        }
        proof {
            lemma_table_of_last(self.entries@, name@, 0);
        }
        None
    }
}

/// The bytes of instruction `index` while the addresses are being filled in:
/// a reference to a label is still the placeholder 0 unless `index < done`.
spec fn draft_insn(program: Seq<SpecInsn>, index: int, done: int) -> Seq<u8> {
    if index >= done && program[index].operand is Target {
        seq![program[index].opcode.code(), 0u8]
    } else {
        encode_insn(program, program[index])
    }
}

/// The bytes of the first `count` instructions while the addresses are being
/// filled in: those of the first `done` instructions are.
spec fn draft(program: Seq<SpecInsn>, count: int, done: int) -> Seq<u8>
    decreases count,
{
    if count <= 0 {
        Seq::empty()
    } else {
        draft(program, count - 1, done) + draft_insn(program, count - 1, done)
    }
}

/// A draft is as long as the encoding, whatever is filled in.
proof fn lemma_draft_len(program: Seq<SpecInsn>, count: int, done: int)
    requires
        0 <= count <= program.len(),
    ensures
        draft(program, count, done).len() == offset(program, count),
    decreases count,
{
    if count > 0 {
        lemma_draft_len(program, count - 1, done);
    }
}

/// Filling in further addresses changes nothing where no instruction in
/// between refers to a label.
proof fn lemma_draft_skip(program: Seq<SpecInsn>, count: int, done: int, further: int)
    requires
        0 <= count <= program.len(),
        done <= further,
        forall|index: int|
            done <= index < further && index < count ==> !(#[trigger] program[index].operand
                is Target),
    ensures
        draft(program, count, done) == draft(program, count, further),
    decreases count,
{
    if count > 0 {
        lemma_draft_skip(program, count - 1, done, further);
    }
}

/// Once every address is filled in, the draft is the encoding.
proof fn lemma_draft_finished(program: Seq<SpecInsn>, count: int, done: int)
    requires
        0 <= count <= program.len(),
        count <= done,
    ensures
        draft(program, count, done) == encode_first(program, count),
    decreases count,
{
    if count > 0 {
        lemma_draft_finished(program, count - 1, done);
    }
}

/// Filling in the address of instruction `index` changes its operand byte and
/// no other.
proof fn lemma_draft_patch(program: Seq<SpecInsn>, count: int, index: int, name: Seq<char>)
    requires
        0 <= index < count <= program.len(),
        program[index].operand == SpecOperand::Target(name),
    ensures
        offset(program, index) + 1 < offset(program, count),
        draft(program, count, index + 1) == draft(program, count, index).update(
            (offset(program, index) + 1) as int,
            address_byte(program, name),
        ),
    decreases count,
{
    let position = (offset(program, index) + 1) as int;
    lemma_draft_len(program, count - 1, index);
    lemma_draft_len(program, count - 1, index + 1);
    if count == index + 1 {
        lemma_draft_finished(program, index, index);
        lemma_draft_finished(program, index, index + 1);
        assert(draft(program, count, index + 1) =~= draft(program, count, index).update(
            position,
            address_byte(program, name),
        ));
    } else {
        lemma_draft_patch(program, count - 1, index, name);
        assert(draft(program, count, index + 1) =~= draft(program, count, index).update(
            position,
            address_byte(program, name),
        ));
    }
}

/// What the first pass leaves for the second: relocation `k` is the reference
/// that instruction `owners[k]` makes, with the address of its operand byte,
/// and every reference among the first `count` instructions is listed, in
/// program order.
spec fn relocations_of(
    program: Seq<SpecInsn>,
    count: int,
    relocations: Seq<(&'static str, usize)>,
    owners: Seq<int>,
) -> bool {
    &&& relocations.len() == owners.len()
    &&& forall|k: int|
        #![trigger owners[k]]
        0 <= k < owners.len() ==> {
            &&& 0 <= owners[k] < count
            &&& program[owners[k]].operand == SpecOperand::Target(relocations[k].0@)
            &&& relocations[k].1 == offset(program, owners[k]) + 1
        }
    &&& forall|k: int, l: int|
        #![trigger owners[k], owners[l]]
        0 <= k < l < owners.len() ==> owners[k] < owners[l]
    &&& forall|index: int|
        0 <= index < count && #[trigger] program[index].operand is Target ==> exists|k: int|
            0 <= k < owners.len() && #[trigger] owners[k] == index
}

/// The first instruction that no relocation before `k` belongs to.
spec fn done_before(owners: Seq<int>, k: int) -> int {
    if k <= 0 {
        0
    } else {
        owners[k - 1] + 1
    }
}

/// No instruction between two relocations in a row refers to a label, nor
/// does one behind the last.
proof fn lemma_no_reference_between(
    program: Seq<SpecInsn>,
    relocations: Seq<(&'static str, usize)>,
    owners: Seq<int>,
    k: int,
)
    requires
        relocations_of(program, program.len() as int, relocations, owners),
        0 <= k <= owners.len(),
    ensures
        0 <= done_before(owners, k) <= program.len(),
        k < owners.len() ==> done_before(owners, k) <= owners[k],
        forall|index: int|
            done_before(owners, k) <= index < (if k < owners.len() {
                owners[k]
            } else {
                program.len() as int
            }) ==> !(#[trigger] program[index].operand is Target),
{
    let high = if k < owners.len() {
        owners[k]
    } else {
        program.len() as int
    };
    if k > 0 {
        assert(0 <= owners[k - 1] < program.len());
    }
    assert forall|index: int| done_before(owners, k) <= index < high implies !(
    #[trigger] program[index].operand is Target) by {
        if program[index].operand is Target {
            let l = choose|l: int| 0 <= l < owners.len() && #[trigger] owners[l] == index;
            if l < k {
                if l < k - 1 {
                    assert(owners[l] < owners[k - 1]);
                }
            } else if l > k {
                assert(owners[k] < owners[l]);
            }
        }
    }
}

/// Assembles `source` into bytecode.
///
/// Each instruction becomes its opcode byte, followed by one operand byte if
/// it has an operand: the immediate, or the address of the instruction that
/// carries the label referred to. Where several instructions carry the same
/// label, the last one is meant.
///
/// Fails if an operand does not fit in its byte or a label has no definition,
/// and then gives no bytecode:
/// - with the first immediate above 255, in program order, if there is one;
/// - else with the label of the first reference, in program order, whose
///   label no instruction carries or stands at an address above 255.
pub fn assemble(source: &[Insn]) -> (r: Result<Vec<u8>, AsmError>)
    ensures
        match r {
            Ok(bytes) => {
                &&& complete(source.deep_view())
                &&& in_range(source.deep_view())
                &&& bytes@ == encode(source.deep_view())
            },
            Err(AsmError::ImmediateTooLarge(value)) => exists|index: int|
                {
                    &&& #[trigger] first_immediate_too_large(source.deep_view(), index)
                    &&& source.deep_view()[index].operand == SpecOperand::Value(value)
                },
            Err(AsmError::UndefinedLabel(name)) => immediates_fit(source.deep_view())
                && exists|index: int|
                {
                    &&& #[trigger] first_bad_reference(source.deep_view(), index)
                    &&& source.deep_view()[index].operand == SpecOperand::Target(name@)
                    &&& undefined_at(source.deep_view(), index)
                },
            Err(AsmError::AddressTooLarge(name)) => immediates_fit(source.deep_view())
                && exists|index: int|
                {
                    &&& #[trigger] first_bad_reference(source.deep_view(), index)
                    &&& source.deep_view()[index].operand == SpecOperand::Target(name@)
                    &&& address_too_large_at(source.deep_view(), index)
                },
        },
{
    let ghost program = source.deep_view();
    let mut labels = LabelTable::new();
    let mut relocations: Vec<(&'static str, usize)> = Vec::new();
    let mut bytecodes: Vec<u8> = Vec::new();
    let ghost mut owners: Seq<int> = Seq::empty();
    let mut i: usize = 0;
    while i < source.len()
        invariant
            i <= source.len(),
            program == source.deep_view(),
            bytecodes@ == draft(program, i as int, 0),
            bytecodes@.len() == offset(program, i as int),
            forall|name: Seq<char>|
                labels.address(name) == #[trigger] resolve_first(program, i as int, name),
            relocations_of(program, i as int, relocations@, owners),
            forall|index: int| 0 <= index < i ==> !immediate_too_large_at(program, index),
        decreases source.len() - i,
    {
        let insn = &source[i];
        assert(program[i as int] == insn@);
        if let Some(label) = insn.label {
            labels.insert(label, bytecodes.len());
        }
        assert forall|name: Seq<char>|
            labels.address(name) == #[trigger] resolve_first(program, i + 1, name) by {
            let _ = resolve_first(program, i as int, name);
        }
        bytecodes.push(insn.opcode.to_byte());
        match insn.operand {
            Operand::Absent => (),
            Operand::Target(label) => {
                relocations.push((label, bytecodes.len()));
                bytecodes.push(0);
                proof {
                    let ghost earlier = owners;
                    owners = owners.push(i as int);
                    assert forall|index: int|
                        0 <= index < i + 1 && #[trigger] program[index].operand
                            is Target implies exists|k: int|
                        0 <= k < owners.len() && #[trigger] owners[k] == index by {
                        if index < i {
                            let k = choose|k: int|
                                0 <= k < earlier.len() && #[trigger] earlier[k] == index;
                            assert(owners[k] == index);
                        } else {
                            assert(owners[earlier.len() as int] == index);
                        }
                    }
                }
            },
            Operand::Value(value) => {
                if value > 255 {
                    proof {
                        assert(first_immediate_too_large(program, i as int));
                    }
                    return Err(AsmError::ImmediateTooLarge(value));
                }
                bytecodes.push(value as u8);
            },
        }
        proof {
            assert(bytecodes@ =~= draft(program, i as int, 0) + draft_insn(program, i as int, 0));
        }
        i += 1;
    }

    let ghost n = program.len() as int;
    assert(immediates_fit(program));
    let mut k: usize = 0;
    while k < relocations.len()
        invariant
            k <= relocations.len(),
            program == source.deep_view(),
            n == program.len(),
            immediates_fit(program),
            relocations_of(program, n, relocations@, owners),
            forall|name: Seq<char>| labels.address(name) == #[trigger] resolve(program, name),
            bytecodes@ == draft(program, n, done_before(owners, k as int)),
            forall|index: int|
                0 <= index < done_before(owners, k as int) ==> !bad_reference_at(program, index),
        decreases relocations.len() - k,
    {
        let (label, position) = relocations[k];
        let ghost index = owners[k as int];
        proof {
            lemma_no_reference_between(program, relocations@, owners, k as int);
            lemma_draft_skip(program, n, done_before(owners, k as int), index);
            lemma_draft_patch(program, n, index, label@);
            lemma_draft_len(program, n, index);
            let _ = resolve(program, label@);
            assert forall|earlier: int| 0 <= earlier < index implies !bad_reference_at(
                program,
                earlier,
            ) by {
                if earlier >= done_before(owners, k as int) {
                    assert(!(program[earlier].operand is Target));
                }
            }
        }
        match labels.get(label) {
            Some(address) => {
                if address > 255 {
                    proof {
                        assert(address_too_large_at(program, index));
                        assert(first_bad_reference(program, index));
                    }
                    return Err(AsmError::AddressTooLarge(label));
                }
                bytecodes.set(position, address as u8);
            },
            None => {
                proof {
                    assert(undefined_at(program, index));
                    assert(first_bad_reference(program, index));
                }
                return Err(AsmError::UndefinedLabel(label));
            },
        }
        proof {
            assert(!bad_reference_at(program, index));
        }
        k += 1;
    }
    proof {
        lemma_no_reference_between(program, relocations@, owners, k as int);
        lemma_draft_skip(program, n, done_before(owners, k as int), n);
        lemma_draft_finished(program, n, n);
        assert forall|index: int| !bad_reference_at(program, index) by {
            if 0 <= index < n && index >= done_before(owners, k as int) {
                assert(!(program[index].operand is Target));
            }
        }
        assert forall|index: int| !undefined_at(program, index) by {
            assert(!bad_reference_at(program, index));
        }
        assert forall|index: int|
            !immediate_too_large_at(program, index) && !address_too_large_at(
                program,
                index,
            ) by {
            assert(!bad_reference_at(program, index));
        }
    }
    Ok(bytecodes)
}

impl Insn {
    /// Appends what stands before the opcode in this instruction's line.
    fn push_label(&self, output: &mut String)
        ensures
            final(output)@ == old(output)@ + render_label(self@.label),
    {
        if let Some(label) = self.label {
            output.append(label);
            output.push(':');
            output.push('\t');
            assert(output@ =~= old(output)@ + render_label(self@.label));
        } else {
            output.push('\t');
            assert(output@ =~= old(output)@ + render_label(self@.label));
        }
    }

    /// Appends what stands behind the opcode in this instruction's line.
    fn push_operand(&self, output: &mut String)
        ensures
            final(output)@ == old(output)@ + render_operand(self@.operand),
    {
        match self.operand {
            Operand::Absent => {
                assert(output@ =~= old(output)@ + render_operand(self@.operand));
            },
            Operand::Target(label) => {
                output.push(' ');
                output.append(label);
                assert(output@ =~= old(output)@ + render_operand(self@.operand));
            },
            Operand::Value(value) => {
                output.push(' ');
                push_decimal(output, value);
                assert(output@ =~= old(output)@ + render_operand(self@.operand));
            },
        }
    }

    /// Appends this instruction's line.
    fn push_line(&self, output: &mut String)
        ensures
            final(output)@ == old(output)@ + render_insn(self@),
    {
        self.push_label(output);
        let ghost labelled = output@;
        output.append(self.opcode.name());
        let ghost named = output@;
        self.push_operand(output);
        let ghost whole = output@;
        output.push('\n');
        assert(output@ =~= old(output)@ + render_insn(self@)) by {
            assert(labelled == old(output)@ + render_label(self@.label));
            assert(named == labelled + self@.opcode.mnemonic());
            assert(whole == named + render_operand(self@.operand));
            assert(output@ == whole.push('\n'));
        }
    }
}

/// Lists `source` as text, one line for each instruction in program order.
///
/// A line is the label followed by a colon and a tab, or a tab alone; the
/// opcode's name; for an operand a space and then the label referred to or
/// the immediate in decimal; and a newline. Listing never fails: a program
/// that does not assemble is listed all the same.
pub fn pretty_print(source: &[Insn]) -> (r: Result<String, AsmError>)
    ensures
        r matches Ok(text) && text@ == render(source.deep_view()),
{
    let ghost program = source.deep_view();
    let mut output = String::new();
    let mut i: usize = 0;
    while i < source.len()
        invariant
            i <= source.len(),
            program == source.deep_view(),
            output@ == render_first(program, i as int),
        decreases source.len() - i,
    {
        assert(program[i as int] == source[i as int]@);
        source[i].push_line(&mut output);
        i += 1;
    }
    Ok(output)
}

} // verus!
