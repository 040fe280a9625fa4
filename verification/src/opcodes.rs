//! Byte encoding of the virtual machine's instruction set.
//!
//! Most instructions are encoded by a single opcode byte (see [`OpcodeByte`]).
//! Five ranges of sixteen bytes each are "short forms" that carry a 4-bit
//! operand in their low nibble.
use vstd::prelude::*;

verus! {

/// First byte of the short push form with an unsigned 4-bit value in the low nibble.
pub const PUSH_UNSIGNED4_START: u8 = 0x90;
/// Last byte of the short unsigned push form.
pub const PUSH_UNSIGNED4_END: u8 = 0x9F;

/// First byte of the short push form with a signed 4-bit value in the low nibble.
pub const PUSH_SIGNED4_START: u8 = 0xA0;
/// Last byte of the short signed push form.
pub const PUSH_SIGNED4_END: u8 = 0xAF;

/// First byte of the short relative call with a signed 4-bit offset in the low nibble.
pub const CALL_REL_SIGNED4_START: u8 = 0xB0;
/// Last byte of the short relative call.
pub const CALL_REL_SIGNED4_END: u8 = 0xBF;

/// First byte of the short conditional relative jump with a signed 4-bit offset.
pub const JUMP_IF_ZERO_REL_SIGNED4_START: u8 = 0xC0;
/// Last byte of the short conditional relative jump.
pub const JUMP_IF_ZERO_REL_SIGNED4_END: u8 = 0xCF;

/// First byte of the short relative jump with a signed 4-bit offset.
pub const JUMP_REL_SIGNED4_START: u8 = 0xD0;
/// Last byte of the short relative jump.
pub const JUMP_REL_SIGNED4_END: u8 = 0xDF;

/// The single-byte opcodes of the instruction set.
///
/// The byte of each opcode is given by [`OpcodeByte::byte`]; bytes
/// 0x3E–0x8F and 0xE0–0xFE are unassigned, and 0x90–0xDF hold the short forms.
#[derive(Clone, Copy, PartialEq, Eq, Debug, Structural)]
pub enum OpcodeByte {
    Noop,
    Add,
    Sub,
    Mul,
    DivUnsigned,
    DivSigned,
    RemUnsigned,
    RemSigned,
    BitAnd,
    BitOr,
    BitXor,
    BitNot,
    ShiftLeft,
    LogicShiftRight,
    ArithShiftRight,
    Dup,
    Pop,
    Swap,
    PushUnsigned8,
    PushSigned8,
    PushUnsigned16,
    PushSigned16,
    PushUnsigned32,
    PushSigned32,
    Push64,
    CompEqual,
    CompNotEqual,
    CompLessThanUnsigned,
    CompLessThanSigned,
    CompLessThanOrEqualUnsigned,
    CompLessThanOrEqualSigned,
    CompGreaterThanUnsigned,
    CompGreaterThanSigned,
    CompGreaterThanOrEqualUnsigned,
    CompGreaterThanOrEqualSigned,
    JumpRelSigned8,
    JumpRelSigned16,
    JumpRelSigned32,
    JumpRelSigned64,
    JumpIfZeroRelSigned8,
    JumpIfZeroRelSigned16,
    JumpIfZeroRelSigned32,
    JumpIfZeroRelSigned64,
    CallRelSigned8,
    CallRelSigned16,
    CallRelSigned32,
    CallRelSigned64,
    JumpAbsIndirect,
    CallAbsIndirect,
    Return,
    MemLoad8,
    MemLoad16,
    MemLoad32,
    MemLoad64,
    MemStore8,
    MemStore16,
    MemStore32,
    MemStore64,
    MemSize,
    MemGrow,
    MemCopy8,
    MemFill8,
    Halt,
}

impl OpcodeByte {
    /// The byte that encodes this opcode.
    pub open spec fn byte(self) -> u8 {
        match self {
            OpcodeByte::Noop => 0x00,
            OpcodeByte::Add => 0x01,
            OpcodeByte::Sub => 0x02,
            OpcodeByte::Mul => 0x03,
            OpcodeByte::DivUnsigned => 0x04,
            OpcodeByte::DivSigned => 0x05,
            OpcodeByte::RemUnsigned => 0x06,
            OpcodeByte::RemSigned => 0x07,
            OpcodeByte::BitAnd => 0x08,
            OpcodeByte::BitOr => 0x09,
            OpcodeByte::BitXor => 0x0A,
            OpcodeByte::BitNot => 0x0B,
            OpcodeByte::ShiftLeft => 0x0C,
            OpcodeByte::LogicShiftRight => 0x0D,
            OpcodeByte::ArithShiftRight => 0x0E,
            OpcodeByte::Dup => 0x0F,
            OpcodeByte::Pop => 0x10,
            OpcodeByte::Swap => 0x11,
            OpcodeByte::PushUnsigned8 => 0x12,
            OpcodeByte::PushSigned8 => 0x13,
            OpcodeByte::PushUnsigned16 => 0x14,
            OpcodeByte::PushSigned16 => 0x15,
            OpcodeByte::PushUnsigned32 => 0x16,
            OpcodeByte::PushSigned32 => 0x17,
            OpcodeByte::Push64 => 0x18,
            OpcodeByte::CompEqual => 0x19,
            OpcodeByte::CompNotEqual => 0x1A,
            OpcodeByte::CompLessThanUnsigned => 0x1B,
            OpcodeByte::CompLessThanSigned => 0x1C,
            OpcodeByte::CompLessThanOrEqualUnsigned => 0x1D,
            OpcodeByte::CompLessThanOrEqualSigned => 0x1E,
            OpcodeByte::CompGreaterThanUnsigned => 0x1F,
            OpcodeByte::CompGreaterThanSigned => 0x20,
            OpcodeByte::CompGreaterThanOrEqualUnsigned => 0x21,
            OpcodeByte::CompGreaterThanOrEqualSigned => 0x22,
            OpcodeByte::JumpRelSigned8 => 0x23,
            OpcodeByte::JumpRelSigned16 => 0x24,
            OpcodeByte::JumpRelSigned32 => 0x25,
            OpcodeByte::JumpRelSigned64 => 0x26,
            OpcodeByte::JumpIfZeroRelSigned8 => 0x27,
            OpcodeByte::JumpIfZeroRelSigned16 => 0x28,
            OpcodeByte::JumpIfZeroRelSigned32 => 0x29,
            OpcodeByte::JumpIfZeroRelSigned64 => 0x2A,
            OpcodeByte::CallRelSigned8 => 0x2B,
            OpcodeByte::CallRelSigned16 => 0x2C,
            OpcodeByte::CallRelSigned32 => 0x2D,
            OpcodeByte::CallRelSigned64 => 0x2E,
            OpcodeByte::JumpAbsIndirect => 0x2F,
            OpcodeByte::CallAbsIndirect => 0x30,
            OpcodeByte::Return => 0x31,
            OpcodeByte::MemLoad8 => 0x32,
            OpcodeByte::MemLoad16 => 0x33,
            OpcodeByte::MemLoad32 => 0x34,
            OpcodeByte::MemLoad64 => 0x35,
            OpcodeByte::MemStore8 => 0x36,
            OpcodeByte::MemStore16 => 0x37,
            OpcodeByte::MemStore32 => 0x38,
            OpcodeByte::MemStore64 => 0x39,
            OpcodeByte::MemSize => 0x3A,
            OpcodeByte::MemGrow => 0x3B,
            OpcodeByte::MemCopy8 => 0x3C,
            OpcodeByte::MemFill8 => 0x3D,
            OpcodeByte::Halt => 0xFF,
        }
    }

    /// The opcode that a byte encodes: the assigned opcodes are 0x00–0x3D and 0xFF.
    pub open spec fn decode(b: u8) -> Option<OpcodeByte> {
        if b == 0xFF {
            Some(OpcodeByte::Halt)
        } else if b <= 0x3D {
            Some(Self::decode_assigned(b))
        } else {
            None
        }
    }

    /// The opcode of an assigned byte in 0x00–0x3D.
    pub open spec fn decode_assigned(b: u8) -> OpcodeByte {
        if b < 0x10 {
            Self::decode_low(b)
        } else if b < 0x20 {
            Self::decode_mid(b)
        } else if b < 0x30 {
            Self::decode_high(b)
        } else {
            Self::decode_top(b)
        }
    }

    /// The opcode of an assigned byte in `0x00..=0x0F`.
    pub open spec fn decode_low(b: u8) -> OpcodeByte {
        match b {
            0x00 => OpcodeByte::Noop,
            0x01 => OpcodeByte::Add,
            0x02 => OpcodeByte::Sub,
            0x03 => OpcodeByte::Mul,
            0x04 => OpcodeByte::DivUnsigned,
            0x05 => OpcodeByte::DivSigned,
            0x06 => OpcodeByte::RemUnsigned,
            0x07 => OpcodeByte::RemSigned,
            0x08 => OpcodeByte::BitAnd,
            0x09 => OpcodeByte::BitOr,
            0x0A => OpcodeByte::BitXor,
            0x0B => OpcodeByte::BitNot,
            0x0C => OpcodeByte::ShiftLeft,
            0x0D => OpcodeByte::LogicShiftRight,
            0x0E => OpcodeByte::ArithShiftRight,
            _ => OpcodeByte::Dup,
        }
    }

    /// The opcode of an assigned byte in `0x10..=0x1F`.
    pub open spec fn decode_mid(b: u8) -> OpcodeByte {
        match b {
            0x10 => OpcodeByte::Pop,
            0x11 => OpcodeByte::Swap,
            0x12 => OpcodeByte::PushUnsigned8,
            0x13 => OpcodeByte::PushSigned8,
            0x14 => OpcodeByte::PushUnsigned16,
            0x15 => OpcodeByte::PushSigned16,
            0x16 => OpcodeByte::PushUnsigned32,
            0x17 => OpcodeByte::PushSigned32,
            0x18 => OpcodeByte::Push64,
            0x19 => OpcodeByte::CompEqual,
            0x1A => OpcodeByte::CompNotEqual,
            0x1B => OpcodeByte::CompLessThanUnsigned,
            0x1C => OpcodeByte::CompLessThanSigned,
            0x1D => OpcodeByte::CompLessThanOrEqualUnsigned,
            0x1E => OpcodeByte::CompLessThanOrEqualSigned,
            _ => OpcodeByte::CompGreaterThanUnsigned,
        }
    }

    /// The opcode of an assigned byte in `0x20..=0x2F`.
    pub open spec fn decode_high(b: u8) -> OpcodeByte {
        match b {
            0x20 => OpcodeByte::CompGreaterThanSigned,
            0x21 => OpcodeByte::CompGreaterThanOrEqualUnsigned,
            0x22 => OpcodeByte::CompGreaterThanOrEqualSigned,
            0x23 => OpcodeByte::JumpRelSigned8,
            0x24 => OpcodeByte::JumpRelSigned16,
            0x25 => OpcodeByte::JumpRelSigned32,
            0x26 => OpcodeByte::JumpRelSigned64,
            0x27 => OpcodeByte::JumpIfZeroRelSigned8,
            0x28 => OpcodeByte::JumpIfZeroRelSigned16,
            0x29 => OpcodeByte::JumpIfZeroRelSigned32,
            0x2A => OpcodeByte::JumpIfZeroRelSigned64,
            0x2B => OpcodeByte::CallRelSigned8,
            0x2C => OpcodeByte::CallRelSigned16,
            0x2D => OpcodeByte::CallRelSigned32,
            0x2E => OpcodeByte::CallRelSigned64,
            _ => OpcodeByte::JumpAbsIndirect,
        }
    }

    /// The opcode of an assigned byte in `0x30..=0x3D`.
    pub open spec fn decode_top(b: u8) -> OpcodeByte {
        match b {
            0x30 => OpcodeByte::CallAbsIndirect,
            0x31 => OpcodeByte::Return,
            0x32 => OpcodeByte::MemLoad8,
            0x33 => OpcodeByte::MemLoad16,
            0x34 => OpcodeByte::MemLoad32,
            0x35 => OpcodeByte::MemLoad64,
            0x36 => OpcodeByte::MemStore8,
            0x37 => OpcodeByte::MemStore16,
            0x38 => OpcodeByte::MemStore32,
            0x39 => OpcodeByte::MemStore64,
            0x3A => OpcodeByte::MemSize,
            0x3B => OpcodeByte::MemGrow,
            0x3C => OpcodeByte::MemCopy8,
            _ => OpcodeByte::MemFill8,
        }
    }

    /// The byte that encodes this opcode.
    pub fn to_byte(self) -> (b: u8)
        ensures
            b == self.byte(),
    {
        match self {
            OpcodeByte::Noop => 0x00,
            OpcodeByte::Add => 0x01,
            OpcodeByte::Sub => 0x02,
            OpcodeByte::Mul => 0x03,
            OpcodeByte::DivUnsigned => 0x04,
            OpcodeByte::DivSigned => 0x05,
            OpcodeByte::RemUnsigned => 0x06,
            OpcodeByte::RemSigned => 0x07,
            OpcodeByte::BitAnd => 0x08,
            OpcodeByte::BitOr => 0x09,
            OpcodeByte::BitXor => 0x0A,
            OpcodeByte::BitNot => 0x0B,
            OpcodeByte::ShiftLeft => 0x0C,
            OpcodeByte::LogicShiftRight => 0x0D,
            OpcodeByte::ArithShiftRight => 0x0E,
            OpcodeByte::Dup => 0x0F,
            OpcodeByte::Pop => 0x10,
            OpcodeByte::Swap => 0x11,
            OpcodeByte::PushUnsigned8 => 0x12,
            OpcodeByte::PushSigned8 => 0x13,
            OpcodeByte::PushUnsigned16 => 0x14,
            OpcodeByte::PushSigned16 => 0x15,
            OpcodeByte::PushUnsigned32 => 0x16,
            OpcodeByte::PushSigned32 => 0x17,
            OpcodeByte::Push64 => 0x18,
            OpcodeByte::CompEqual => 0x19,
            OpcodeByte::CompNotEqual => 0x1A,
            OpcodeByte::CompLessThanUnsigned => 0x1B,
            OpcodeByte::CompLessThanSigned => 0x1C,
            OpcodeByte::CompLessThanOrEqualUnsigned => 0x1D,
            OpcodeByte::CompLessThanOrEqualSigned => 0x1E,
            OpcodeByte::CompGreaterThanUnsigned => 0x1F,
            OpcodeByte::CompGreaterThanSigned => 0x20,
            OpcodeByte::CompGreaterThanOrEqualUnsigned => 0x21,
            OpcodeByte::CompGreaterThanOrEqualSigned => 0x22,
            OpcodeByte::JumpRelSigned8 => 0x23,
            OpcodeByte::JumpRelSigned16 => 0x24,
            OpcodeByte::JumpRelSigned32 => 0x25,
            OpcodeByte::JumpRelSigned64 => 0x26,
            OpcodeByte::JumpIfZeroRelSigned8 => 0x27,
            OpcodeByte::JumpIfZeroRelSigned16 => 0x28,
            OpcodeByte::JumpIfZeroRelSigned32 => 0x29,
            OpcodeByte::JumpIfZeroRelSigned64 => 0x2A,
            OpcodeByte::CallRelSigned8 => 0x2B,
            OpcodeByte::CallRelSigned16 => 0x2C,
            OpcodeByte::CallRelSigned32 => 0x2D,
            OpcodeByte::CallRelSigned64 => 0x2E,
            OpcodeByte::JumpAbsIndirect => 0x2F,
            OpcodeByte::CallAbsIndirect => 0x30,
            OpcodeByte::Return => 0x31,
            OpcodeByte::MemLoad8 => 0x32,
            OpcodeByte::MemLoad16 => 0x33,
            OpcodeByte::MemLoad32 => 0x34,
            OpcodeByte::MemLoad64 => 0x35,
            OpcodeByte::MemStore8 => 0x36,
            OpcodeByte::MemStore16 => 0x37,
            OpcodeByte::MemStore32 => 0x38,
            OpcodeByte::MemStore64 => 0x39,
            OpcodeByte::MemSize => 0x3A,
            OpcodeByte::MemGrow => 0x3B,
            OpcodeByte::MemCopy8 => 0x3C,
            OpcodeByte::MemFill8 => 0x3D,
            OpcodeByte::Halt => 0xFF,
        }
    }

    /// The opcode that `b` encodes, or `None` where `b` is no single-byte opcode.
    pub fn try_from_byte(b: u8) -> (r: Option<OpcodeByte>)
        ensures
            r == Self::decode(b),
    {
        if b == 0xFF {
            Some(OpcodeByte::Halt)
        } else if b <= 0x3D {
            Some(Self::from_assigned_byte(b))
        } else {
            None
        }
    }

    fn from_assigned_byte(b: u8) -> (r: OpcodeByte)
        requires
            b <= 0x3D,
        ensures
            r == Self::decode_assigned(b),
    {
        match b {
            0x00 => OpcodeByte::Noop,
            0x01 => OpcodeByte::Add,
            0x02 => OpcodeByte::Sub,
            0x03 => OpcodeByte::Mul,
            0x04 => OpcodeByte::DivUnsigned,
            0x05 => OpcodeByte::DivSigned,
            0x06 => OpcodeByte::RemUnsigned,
            0x07 => OpcodeByte::RemSigned,
            0x08 => OpcodeByte::BitAnd,
            0x09 => OpcodeByte::BitOr,
            0x0A => OpcodeByte::BitXor,
            0x0B => OpcodeByte::BitNot,
            0x0C => OpcodeByte::ShiftLeft,
            0x0D => OpcodeByte::LogicShiftRight,
            0x0E => OpcodeByte::ArithShiftRight,
            0x0F => OpcodeByte::Dup,
            0x10 => OpcodeByte::Pop,
            0x11 => OpcodeByte::Swap,
            0x12 => OpcodeByte::PushUnsigned8,
            0x13 => OpcodeByte::PushSigned8,
            0x14 => OpcodeByte::PushUnsigned16,
            0x15 => OpcodeByte::PushSigned16,
            0x16 => OpcodeByte::PushUnsigned32,
            0x17 => OpcodeByte::PushSigned32,
            0x18 => OpcodeByte::Push64,
            0x19 => OpcodeByte::CompEqual,
            0x1A => OpcodeByte::CompNotEqual,
            0x1B => OpcodeByte::CompLessThanUnsigned,
            0x1C => OpcodeByte::CompLessThanSigned,
            0x1D => OpcodeByte::CompLessThanOrEqualUnsigned,
            0x1E => OpcodeByte::CompLessThanOrEqualSigned,
            0x1F => OpcodeByte::CompGreaterThanUnsigned,
            0x20 => OpcodeByte::CompGreaterThanSigned,
            0x21 => OpcodeByte::CompGreaterThanOrEqualUnsigned,
            0x22 => OpcodeByte::CompGreaterThanOrEqualSigned,
            0x23 => OpcodeByte::JumpRelSigned8,
            0x24 => OpcodeByte::JumpRelSigned16,
            0x25 => OpcodeByte::JumpRelSigned32,
            0x26 => OpcodeByte::JumpRelSigned64,
            0x27 => OpcodeByte::JumpIfZeroRelSigned8,
            0x28 => OpcodeByte::JumpIfZeroRelSigned16,
            0x29 => OpcodeByte::JumpIfZeroRelSigned32,
            0x2A => OpcodeByte::JumpIfZeroRelSigned64,
            0x2B => OpcodeByte::CallRelSigned8,
            0x2C => OpcodeByte::CallRelSigned16,
            0x2D => OpcodeByte::CallRelSigned32,
            0x2E => OpcodeByte::CallRelSigned64,
            0x2F => OpcodeByte::JumpAbsIndirect,
            0x30 => OpcodeByte::CallAbsIndirect,
            0x31 => OpcodeByte::Return,
            0x32 => OpcodeByte::MemLoad8,
            0x33 => OpcodeByte::MemLoad16,
            0x34 => OpcodeByte::MemLoad32,
            0x35 => OpcodeByte::MemLoad64,
            0x36 => OpcodeByte::MemStore8,
            0x37 => OpcodeByte::MemStore16,
            0x38 => OpcodeByte::MemStore32,
            0x39 => OpcodeByte::MemStore64,
            0x3A => OpcodeByte::MemSize,
            0x3B => OpcodeByte::MemGrow,
            0x3C => OpcodeByte::MemCopy8,
            _ => OpcodeByte::MemFill8,
        }
    }
}

/// Decoding the byte of an opcode gives back that opcode.
pub proof fn lemma_decode_byte(op: OpcodeByte)
    ensures
        OpcodeByte::decode(op.byte()) == Some(op),
{
}

/// A byte decodes to an opcode exactly when it is that opcode's byte; in
/// particular no two opcodes share a byte.
pub proof fn lemma_byte_of_decode(b: u8)
    ensures
        OpcodeByte::decode(b) matches Some(op) ==> op.byte() == b,
{
}

/// No single-byte opcode lies in the range of the short forms.
pub proof fn lemma_short_forms_unassigned(b: u8)
    requires
        PUSH_UNSIGNED4_START <= b <= JUMP_REL_SIGNED4_END,
    ensures
        OpcodeByte::decode(b) is None,
{
}

} // verus!
