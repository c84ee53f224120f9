use enaa::assembler::AsmError;
use enaa::vm::VmError;

#[test]
fn vm_errors_in_words() {
    assert_eq!(VmError::InvalidOpcode(15).message(), "invalid opcode 15");
    assert_eq!(VmError::InvalidOpcode(255).message(), "invalid opcode 255");
    assert_eq!(VmError::StackUnderflow.message(), "stack underflow");
    assert_eq!(VmError::InvalidCodePoint(55296).message(), "invalid code point 55296");
    assert_eq!(VmError::InvalidCodePoint(u32::MAX).message(), "invalid code point 4294967295");
    assert_eq!(VmError::OutOfCode.message(), "program counter outside the code");
    assert_eq!(VmError::StepLimit.message(), "step limit reached");
}

#[test]
fn asm_error_names_the_label() {
    assert_eq!(AsmError::UndefinedLabel("decode").message(), "undefined label decode");
    assert_eq!(AsmError::UndefinedLabel("").message(), "undefined label ");
}

#[test]
fn asm_error_names_the_immediate() {
    assert_eq!(AsmError::ImmediateTooLarge(256).message(), "immediate too large 256");
    assert_eq!(AsmError::ImmediateTooLarge(u32::MAX).message(), "immediate too large 4294967295");
}

#[test]
fn asm_error_names_the_far_label() {
    assert_eq!(AsmError::AddressTooLarge("end").message(), "address too large for label end");
}
