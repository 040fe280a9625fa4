use lib::opcodes::{
    OpcodeByte, CALL_REL_SIGNED4_END, CALL_REL_SIGNED4_START, JUMP_IF_ZERO_REL_SIGNED4_END,
    JUMP_IF_ZERO_REL_SIGNED4_START, JUMP_REL_SIGNED4_END, JUMP_REL_SIGNED4_START,
    PUSH_SIGNED4_END, PUSH_SIGNED4_START, PUSH_UNSIGNED4_END, PUSH_UNSIGNED4_START,
};

#[test]
fn short_form_ranges() {
    assert_eq!((PUSH_UNSIGNED4_START, PUSH_UNSIGNED4_END), (0x90, 0x9F));
    assert_eq!((PUSH_SIGNED4_START, PUSH_SIGNED4_END), (0xA0, 0xAF));
    assert_eq!((CALL_REL_SIGNED4_START, CALL_REL_SIGNED4_END), (0xB0, 0xBF));
    assert_eq!((JUMP_IF_ZERO_REL_SIGNED4_START, JUMP_IF_ZERO_REL_SIGNED4_END), (0xC0, 0xCF));
    assert_eq!((JUMP_REL_SIGNED4_START, JUMP_REL_SIGNED4_END), (0xD0, 0xDF));
}

#[test]
fn assigned_bytes_decode() {
    assert_eq!(OpcodeByte::try_from_byte(0x00), Some(OpcodeByte::Noop));
    assert_eq!(OpcodeByte::try_from_byte(0x10), Some(OpcodeByte::Pop));
    assert_eq!(OpcodeByte::try_from_byte(0x18), Some(OpcodeByte::Push64));
    assert_eq!(OpcodeByte::try_from_byte(0x2F), Some(OpcodeByte::JumpAbsIndirect));
    assert_eq!(OpcodeByte::try_from_byte(0x3D), Some(OpcodeByte::MemFill8));
    assert_eq!(OpcodeByte::try_from_byte(0xFF), Some(OpcodeByte::Halt));
}

#[test]
fn unassigned_bytes_do_not_decode() {
    assert_eq!(OpcodeByte::try_from_byte(0x3E), None);
    assert_eq!(OpcodeByte::try_from_byte(0x8F), None);
    assert_eq!(OpcodeByte::try_from_byte(0x90), None);
    assert_eq!(OpcodeByte::try_from_byte(0xDF), None);
    assert_eq!(OpcodeByte::try_from_byte(0xFE), None);
}

#[test]
fn decoding_inverts_encoding_on_every_byte() {
    let mut assigned = 0;
    for b in 0u8..=255 {
        match OpcodeByte::try_from_byte(b) {
            Some(op) => {
                assert_eq!(op.to_byte(), b);
                assigned += 1;
            }
            None => assert!((0x3E..=0xFE).contains(&b)),
        }
    }
    assert_eq!(assigned, 0x3E + 1);
}

#[test]
fn encoding_of_each_opcode_decodes_back() {
    let ops = [
        OpcodeByte::Add,
        OpcodeByte::Swap,
        OpcodeByte::CompGreaterThanOrEqualSigned,
        OpcodeByte::CallRelSigned64,
        OpcodeByte::Return,
        OpcodeByte::MemGrow,
        OpcodeByte::Halt,
    ];
    let bytes = [0x01u8, 0x11, 0x22, 0x2E, 0x31, 0x3B, 0xFF];
    for (op, b) in ops.iter().zip(bytes.iter()) {
        assert_eq!(op.to_byte(), *b);
        assert_eq!(OpcodeByte::try_from_byte(*b), Some(*op));
    }
}

#[test]
fn short_forms_are_not_opcodes() {
    for b in PUSH_UNSIGNED4_START..=JUMP_REL_SIGNED4_END {
        assert_eq!(OpcodeByte::try_from_byte(b), None);
    }
}
