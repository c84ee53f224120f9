use enaa::assembler::{assemble, AsmError, Insn};
use enaa::decrypter::program;
use enaa::vm::Opcode;

#[test]
fn empty_program_assembles_to_nothing() {
    assert_eq!(assemble(&[]), Ok(vec![]));
}

#[test]
fn instruction_without_operand_is_one_byte() {
    assert_eq!(assemble(&[Insn::new(Opcode::Exit)]), Ok(vec![7]));
}

#[test]
fn immediate_follows_its_opcode() {
    let source = [
        Insn::new(Opcode::Push).set_value(97),
        Insn::new(Opcode::Out),
        Insn::new(Opcode::Exit),
    ];
    assert_eq!(assemble(&source), Ok(vec![8, 97, 1, 7]));
}

#[test]
fn immediate_up_to_255_is_encoded_in_full() {
    let source = [
        Insn::new(Opcode::Push).set_value(0),
        Insn::new(Opcode::Push).set_value(254),
        Insn::new(Opcode::Push).set_value(255),
    ];
    assert_eq!(assemble(&source), Ok(vec![8, 0, 8, 254, 8, 255]));
}

#[test]
fn immediate_above_255_is_refused() {
    let source = [Insn::new(Opcode::Push).set_value(256), Insn::new(Opcode::Exit)];
    assert_eq!(assemble(&source), Err(AsmError::ImmediateTooLarge(256)));
    let source = [Insn::new(Opcode::Push).set_value(u32::MAX)];
    assert_eq!(assemble(&source), Err(AsmError::ImmediateTooLarge(u32::MAX)));
}

#[test]
fn first_immediate_above_255_is_reported() {
    let source = [
        Insn::new(Opcode::Push).set_value(255),
        Insn::new(Opcode::Push).set_value(300),
        Insn::new(Opcode::Push).set_value(1000),
    ];
    assert_eq!(assemble(&source), Err(AsmError::ImmediateTooLarge(300)));
}

#[test]
fn immediate_above_255_is_reported_before_any_label() {
    let source = [
        Insn::new(Opcode::Jmp).set_target("nowhere"),
        Insn::new(Opcode::Push).set_value(256),
    ];
    assert_eq!(assemble(&source), Err(AsmError::ImmediateTooLarge(256)));
}

#[test]
fn backward_reference_resolves() {
    let source = [
        Insn::new(Opcode::In),
        Insn::new(Opcode::In).set_label("again"),
        Insn::new(Opcode::Jmp).set_target("again"),
    ];
    assert_eq!(assemble(&source), Ok(vec![0, 0, 9, 1]));
}

#[test]
fn forward_reference_resolves() {
    let source = [
        Insn::new(Opcode::Jmp).set_target("end"),
        Insn::new(Opcode::Push).set_value(1),
        Insn::new(Opcode::Exit).set_label("end"),
    ];
    assert_eq!(assemble(&source), Ok(vec![9, 4, 8, 1, 7]));
}

#[test]
fn instruction_may_refer_to_itself() {
    let source = [Insn::new(Opcode::In), Insn::new(Opcode::Jmp).set_label("here").set_target("here")];
    assert_eq!(assemble(&source), Ok(vec![0, 9, 1]));
}

#[test]
fn length_is_the_sum_of_the_sizes() {
    let source = program();
    let with_operand = 11;
    let without_operand = 14;
    assert_eq!(source.len(), with_operand + without_operand);
    let bytes = assemble(&source).unwrap();
    assert_eq!(bytes.len(), 2 * with_operand + without_operand);
}

#[test]
fn decrypter_assembles_to_known_bytes() {
    let expected: Vec<u8> = vec![
        8, 4, 12, 0, 2, 5, 8, 7, 11, 3, 2, 8, 122, 14, 18, 8, 26, 4, 1, 11, 8, 1, 3, 2, 8, 25, 13,
        31, 12, 9, 3, 8, 0, 12, 9, 3,
    ];
    assert_eq!(assemble(&program()), Ok(expected));
}

#[test]
fn undefined_label_fails() {
    let source = [
        Insn::new(Opcode::In).set_label("start"),
        Insn::new(Opcode::Jmp).set_target("nowhere"),
        Insn::new(Opcode::Exit),
    ];
    assert_eq!(assemble(&source), Err(AsmError::UndefinedLabel("nowhere")));
}

#[test]
fn first_undefined_label_is_reported() {
    let source = [
        Insn::new(Opcode::Jmp).set_target("known"),
        Insn::new(Opcode::Jmp).set_target("first"),
        Insn::new(Opcode::Jmp).set_target("second"),
        Insn::new(Opcode::Exit).set_label("known"),
    ];
    assert_eq!(assemble(&source), Err(AsmError::UndefinedLabel("first")));
}

#[test]
fn label_names_are_compared_in_full() {
    let source = [
        Insn::new(Opcode::Jmp).set_target("loop"),
        Insn::new(Opcode::Exit).set_label("loop2"),
    ];
    assert_eq!(assemble(&source), Err(AsmError::UndefinedLabel("loop")));
    let source = [
        Insn::new(Opcode::Jmp).set_target("b"),
        Insn::new(Opcode::In).set_label("a"),
        Insn::new(Opcode::Exit).set_label("b"),
    ];
    assert_eq!(assemble(&source), Ok(vec![9, 3, 0, 7]));
}

#[test]
fn last_definition_of_a_label_wins() {
    let source = [
        Insn::new(Opcode::In).set_label("twice"),
        Insn::new(Opcode::Jmp).set_target("twice"),
        Insn::new(Opcode::In),
        Insn::new(Opcode::Exit).set_label("twice"),
    ];
    assert_eq!(assemble(&source), Ok(vec![0, 9, 4, 0, 7]));
}

#[test]
fn set_label_replaces_the_label() {
    let source = [
        Insn::new(Opcode::Jmp).set_target("new"),
        Insn::new(Opcode::Exit).set_label("old").set_label("new"),
    ];
    assert_eq!(assemble(&source), Ok(vec![9, 2, 7]));
    let source = [
        Insn::new(Opcode::Jmp).set_target("old"),
        Insn::new(Opcode::Exit).set_label("old").set_label("new"),
    ];
    assert_eq!(assemble(&source), Err(AsmError::UndefinedLabel("old")));
}

#[test]
fn later_operand_replaces_the_earlier_one() {
    let source = [
        Insn::new(Opcode::Push).set_target("x").set_value(9),
        Insn::new(Opcode::Jmp).set_value(9).set_target("x"),
        Insn::new(Opcode::Exit).set_label("x"),
    ];
    assert_eq!(assemble(&source), Ok(vec![8, 9, 9, 4, 7]));
}

#[test]
fn size_goes_by_the_operand_not_the_opcode() {
    let source = [Insn::new(Opcode::Push), Insn::new(Opcode::In).set_value(3)];
    assert_eq!(assemble(&source), Ok(vec![8, 0, 3]));
}

#[test]
fn address_above_255_is_refused() {
    let mut source: Vec<Insn> = Vec::new();
    for _ in 0..128 {
        source.push(Insn::new(Opcode::Push).set_value(0));
    }
    source.push(Insn::new(Opcode::Exit).set_label("end"));
    source.push(Insn::new(Opcode::Jmp).set_target("end"));
    assert_eq!(assemble(&source), Err(AsmError::AddressTooLarge("end")));
}

#[test]
fn forward_reference_above_255_is_refused() {
    let mut source: Vec<Insn> = vec![Insn::new(Opcode::Jmp).set_target("far")];
    for _ in 0..254 {
        source.push(Insn::new(Opcode::In));
    }
    source.push(Insn::new(Opcode::Exit).set_label("far"));
    assert_eq!(assemble(&source), Err(AsmError::AddressTooLarge("far")));
}

#[test]
fn first_reference_that_cannot_be_encoded_is_reported() {
    let mut source: Vec<Insn> = vec![
        Insn::new(Opcode::Jmp).set_target("near"),
        Insn::new(Opcode::Jmp).set_target("far"),
        Insn::new(Opcode::Jmp).set_target("nowhere"),
        Insn::new(Opcode::Exit).set_label("near"),
    ];
    for _ in 0..256 {
        source.push(Insn::new(Opcode::In));
    }
    source.push(Insn::new(Opcode::Exit).set_label("far"));
    assert_eq!(assemble(&source), Err(AsmError::AddressTooLarge("far")));
    source.swap(1, 2);
    assert_eq!(assemble(&source), Err(AsmError::UndefinedLabel("nowhere")));
}

#[test]
fn long_program_without_far_reference_assembles() {
    let mut source: Vec<Insn> = vec![Insn::new(Opcode::Jmp).set_label("start").set_target("start")];
    for _ in 0..300 {
        source.push(Insn::new(Opcode::In));
    }
    source.push(Insn::new(Opcode::Exit).set_label("unused"));
    let bytes = assemble(&source).unwrap();
    assert_eq!(bytes.len(), 303);
    assert_eq!(&bytes[..3], &[9, 0, 0]);
    assert_eq!(bytes[302], 7);
}

#[test]
fn last_definition_decides_whether_the_address_fits() {
    let mut source: Vec<Insn> = vec![
        Insn::new(Opcode::Jmp).set_target("twice"),
        Insn::new(Opcode::Exit).set_label("twice"),
    ];
    for _ in 0..254 {
        source.push(Insn::new(Opcode::In));
    }
    source.push(Insn::new(Opcode::Exit).set_label("twice"));
    assert_eq!(assemble(&source), Err(AsmError::AddressTooLarge("twice")));
}

#[test]
fn address_255_is_encoded_in_full() {
    let mut source: Vec<Insn> = Vec::new();
    for _ in 0..255 {
        source.push(Insn::new(Opcode::In));
    }
    source.push(Insn::new(Opcode::Exit).set_label("edge"));
    source.push(Insn::new(Opcode::Jmp).set_target("edge"));
    let bytes = assemble(&source).unwrap();
    assert_eq!(bytes[257], 255);
}
