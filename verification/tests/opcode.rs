use enaa::vm::{Opcode, VmError};

const ALL: [Opcode; 15] = [
    Opcode::In,
    Opcode::Out,
    Opcode::Dup,
    Opcode::Add,
    Opcode::Sub,
    Opcode::Bne,
    Opcode::Blt,
    Opcode::Exit,
    Opcode::Push,
    Opcode::Jmp,
    Opcode::Beq,
    Opcode::Pusha,
    Opcode::Popa,
    Opcode::Bgt,
    Opcode::Ble,
];

#[test]
fn decodes_every_defined_byte() {
    assert_eq!(Opcode::try_from(0u8), Ok(Opcode::In));
    assert_eq!(Opcode::try_from(1u8), Ok(Opcode::Out));
    assert_eq!(Opcode::try_from(2u8), Ok(Opcode::Dup));
    assert_eq!(Opcode::try_from(3u8), Ok(Opcode::Add));
    assert_eq!(Opcode::try_from(4u8), Ok(Opcode::Sub));
    assert_eq!(Opcode::try_from(5u8), Ok(Opcode::Bne));
    assert_eq!(Opcode::try_from(6u8), Ok(Opcode::Blt));
    assert_eq!(Opcode::try_from(7u8), Ok(Opcode::Exit));
    assert_eq!(Opcode::try_from(8u8), Ok(Opcode::Push));
    assert_eq!(Opcode::try_from(9u8), Ok(Opcode::Jmp));
    assert_eq!(Opcode::try_from(10u8), Ok(Opcode::Beq));
    assert_eq!(Opcode::try_from(11u8), Ok(Opcode::Pusha));
    assert_eq!(Opcode::try_from(12u8), Ok(Opcode::Popa));
    assert_eq!(Opcode::try_from(13u8), Ok(Opcode::Bgt));
    assert_eq!(Opcode::try_from(14u8), Ok(Opcode::Ble));
}

#[test]
fn rejects_every_byte_above_fourteen() {
    for byte in 15u8..=255 {
        assert_eq!(Opcode::try_from(byte), Err(VmError::InvalidOpcode(byte)));
    }
}

#[test]
fn code_and_decode_are_inverse() {
    for (position, op) in ALL.iter().enumerate() {
        assert_eq!(op.to_byte() as usize, position);
        assert_eq!(Opcode::try_from(op.to_byte()), Ok(*op));
    }
    for byte in 0u8..15 {
        assert_eq!(Opcode::try_from(byte).unwrap().to_byte(), byte);
    }
}

#[test]
fn names_are_the_variant_names() {
    let names = [
        "In", "Out", "Dup", "Add", "Sub", "Bne", "Blt", "Exit", "Push", "Jmp", "Beq", "Pusha",
        "Popa", "Bgt", "Ble",
    ];
    for (op, name) in ALL.iter().zip(names.iter()) {
        assert_eq!(op.name(), *name);
        assert_eq!(format!("{:?}", op), *name);
    }
}
