//! The stack virtual machine.
//!
//! A machine state holds an operand stack of 64-bit words, a call stack of
//! return addresses, a byte-addressed linear memory and an instruction
//! pointer into the program bytes. [`next_state`] states what one step does,
//! [`step`] performs it, and [`run_program`] steps from the initial state
//! until the program halts and returns the operand stack.
use vstd::prelude::*;
use crate::encoding::{le_bytes, le_value, read_le, write_le};
use crate::opcodes::{
    OpcodeByte, CALL_REL_SIGNED4_END, CALL_REL_SIGNED4_START, JUMP_IF_ZERO_REL_SIGNED4_END,
    JUMP_IF_ZERO_REL_SIGNED4_START, JUMP_REL_SIGNED4_END, JUMP_REL_SIGNED4_START,
    PUSH_SIGNED4_END, PUSH_SIGNED4_START, PUSH_UNSIGNED4_END, PUSH_UNSIGNED4_START,
};

verus! {

/// The machine word.
pub type Word = u64;

/// The abstract state of a machine.
#[verifier::ext_equal]
pub struct VmState {
    pub stack: Seq<Word>,
    pub call_stack: Seq<usize>,
    pub memory: Seq<u8>,
    pub ip: usize,
}

/// Why a step cannot be carried out.
#[derive(Clone, Copy, PartialEq, Eq, Debug, Structural)]
pub enum Fault {
    /// The instruction pointer, or an operand, lies past the end of the program.
    ProgramOutOfBounds,
    /// The byte is neither an opcode nor a short form.
    UnknownOpcode(u8),
    /// An operand was popped from an empty stack.
    StackUnderflow,
    /// `Return` with an empty call stack.
    CallStackUnderflow,
    /// Division by zero.
    DivisionByZero,
    /// Remainder by zero.
    RemainderByZero,
    /// A relative offset does not fit in `usize`.
    OffsetTooLarge,
    /// A relative target lies below 0 or above `usize::MAX`.
    TargetOutOfRange,
    /// An indirect jump target does not fit in `usize`.
    JumpTargetTooLarge,
    /// An indirect call target does not fit in `usize`.
    CallTargetTooLarge,
    /// A memory address does not fit in `usize`.
    AddressTooLarge,
    /// The end of a memory access does not fit in `usize`.
    AccessOutOfRange,
    /// A memory access reaches past the end of memory.
    AccessOutOfBounds,
    /// A memory growth amount does not fit in `usize`.
    GrowthTooLarge,
    /// The grown memory size does not fit in `usize`.
    MemorySizeTooLarge,
    /// A copy length does not fit in `usize`.
    CopyLengthTooLarge,
    /// A fill length does not fit in `usize`.
    FillLengthTooLarge,
}

/// The message with which a fault stops a run.
pub open spec fn fault_message(f: Fault) -> Seq<char> {
    match f {
        Fault::ProgramOutOfBounds => "index out of bounds"@,
        Fault::UnknownOpcode(_) => "unknown opcode byte"@,
        Fault::StackUnderflow => "stack underflow"@,
        Fault::CallStackUnderflow => "call stack underflow"@,
        Fault::DivisionByZero => "division by zero"@,
        Fault::RemainderByZero => "remainder by zero"@,
        Fault::OffsetTooLarge => "relative offset is too large for this platform"@,
        Fault::TargetOutOfRange => "control-flow target is out of range"@,
        Fault::JumpTargetTooLarge => "jump target is too large for this platform"@,
        Fault::CallTargetTooLarge => "call target is too large for this platform"@,
        Fault::AddressTooLarge => "memory address is too large for this platform"@,
        Fault::AccessOutOfRange => "memory access is out of range"@,
        Fault::AccessOutOfBounds => "memory access is out of bounds"@,
        Fault::GrowthTooLarge => "memory growth amount is too large for this platform"@,
        Fault::MemorySizeTooLarge => "memory size is too large for this platform"@,
        Fault::CopyLengthTooLarge => "memory copy length is too large for this platform"@,
        Fault::FillLengthTooLarge => "memory fill length is too large for this platform"@,
    }
}

impl Fault {
    /// The message with which this fault stops a run.
    pub fn message(&self) -> (s: String)
        ensures
            s@ == fault_message(*self),
    {
        match self {
            Fault::ProgramOutOfBounds => String::from_str("index out of bounds"),
            Fault::UnknownOpcode(_) => String::from_str("unknown opcode byte"),
            Fault::StackUnderflow => String::from_str("stack underflow"),
            Fault::CallStackUnderflow => String::from_str("call stack underflow"),
            Fault::DivisionByZero => String::from_str("division by zero"),
            Fault::RemainderByZero => String::from_str("remainder by zero"),
            Fault::OffsetTooLarge => String::from_str("relative offset is too large for this platform"),
            Fault::TargetOutOfRange => String::from_str("control-flow target is out of range"),
            Fault::JumpTargetTooLarge => String::from_str("jump target is too large for this platform"),
            Fault::CallTargetTooLarge => String::from_str("call target is too large for this platform"),
            Fault::AddressTooLarge => String::from_str("memory address is too large for this platform"),
            Fault::AccessOutOfRange => String::from_str("memory access is out of range"),
            Fault::AccessOutOfBounds => String::from_str("memory access is out of bounds"),
            Fault::GrowthTooLarge => String::from_str("memory growth amount is too large for this platform"),
            Fault::MemorySizeTooLarge => String::from_str("memory size is too large for this platform"),
            Fault::CopyLengthTooLarge => String::from_str("memory copy length is too large for this platform"),
            Fault::FillLengthTooLarge => String::from_str("memory fill length is too large for this platform"),
        }
    }
}

/// What one step leads to.
pub enum StepResult {
    /// The machine continues in this state.
    Running(VmState),
    /// The machine executed `Halt` and stopped in this state.
    Halted(VmState),
    /// The step cannot be carried out.
    Faulted(Fault),
}

/// What [`step`] reports.
#[derive(Clone, Copy, PartialEq, Eq, Debug, Structural)]
pub enum Outcome {
    Running,
    Halted,
    Faulted(Fault),
}

/// A machine.
pub struct Machine {
    pub stack: Vec<Word>,
    pub call_stack: Vec<usize>,
    pub memory: Vec<u8>,
    pub ip: usize,
}

impl View for Machine {
    type V = VmState;

    open spec fn view(&self) -> VmState {
        VmState {
            stack: self.stack@,
            call_stack: self.call_stack@,
            memory: self.memory@,
            ip: self.ip,
        }
    }
}

/// The state in which every program starts: empty stacks and memory, at address 0.
pub open spec fn initial_state() -> VmState {
    VmState { stack: Seq::empty(), call_stack: Seq::empty(), memory: Seq::empty(), ip: 0 }
}

/// `outcome` and the state `after` agree with the expected result of a step.
pub open spec fn reports(outcome: Outcome, after: VmState, expected: StepResult) -> bool {
    match expected {
        StepResult::Running(s) => outcome == Outcome::Running && after == s,
        StepResult::Halted(s) => outcome == Outcome::Halted && after == s,
        StepResult::Faulted(f) => outcome == Outcome::Faulted(f),
    }
}

// ---------------------------------------------------------------------------
// Arithmetic on words
// ---------------------------------------------------------------------------

/// `x` reduced modulo 2^64.
pub open spec fn wrap_word(x: int) -> Word {
    (x % 0x1_0000_0000_0000_0000) as Word
}

/// The absolute value of `x`.
pub open spec fn abs(x: int) -> int {
    if x < 0 {
        -x
    } else {
        x
    }
}

/// Quotient rounded toward zero.
pub open spec fn trunc_div(a: int, b: int) -> int {
    if (a < 0) == (b < 0) {
        abs(a) / abs(b)
    } else {
        -(abs(a) / abs(b))
    }
}

/// Remainder of the quotient rounded toward zero; it has the sign of `a`.
pub open spec fn trunc_rem(a: int, b: int) -> int {
    if a < 0 {
        -(abs(a) % abs(b))
    } else {
        abs(a) % abs(b)
    }
}

/// Signed division of two's-complement words; `i64::MIN / -1` gives `i64::MIN`.
pub open spec fn signed_quotient(a: i64, b: i64) -> Word {
    if a == i64::MIN && b == -1 {
        i64::MIN as Word
    } else {
        (trunc_div(a as int, b as int) as i64) as Word
    }
}

/// Signed remainder of two's-complement words; `i64::MIN % -1` gives 0.
pub open spec fn signed_remainder(a: i64, b: i64) -> Word {
    if a == i64::MIN && b == -1 {
        0
    } else {
        (trunc_rem(a as int, b as int) as i64) as Word
    }
}

/// 1 for `true`, 0 for `false`.
pub open spec fn bool_word(b: bool) -> Word {
    if b {
        1
    } else {
        0
    }
}

/// The opcodes that pop two words `a` (pushed first) and `b` and push one result.
pub open spec fn is_binary(op: OpcodeByte) -> bool {
    match op {
        OpcodeByte::Add | OpcodeByte::Sub | OpcodeByte::Mul | OpcodeByte::DivUnsigned
        | OpcodeByte::DivSigned | OpcodeByte::RemUnsigned | OpcodeByte::RemSigned
        | OpcodeByte::BitAnd | OpcodeByte::BitOr | OpcodeByte::BitXor | OpcodeByte::ShiftLeft
        | OpcodeByte::LogicShiftRight | OpcodeByte::ArithShiftRight | OpcodeByte::CompEqual
        | OpcodeByte::CompNotEqual | OpcodeByte::CompLessThanUnsigned
        | OpcodeByte::CompLessThanSigned | OpcodeByte::CompLessThanOrEqualUnsigned
        | OpcodeByte::CompLessThanOrEqualSigned | OpcodeByte::CompGreaterThanUnsigned
        | OpcodeByte::CompGreaterThanSigned | OpcodeByte::CompGreaterThanOrEqualUnsigned
        | OpcodeByte::CompGreaterThanOrEqualSigned => true,
        _ => false,
    }
}

/// The result of a binary opcode on `a` (the deeper operand) and `b` (the top).
/// Shift amounts are taken modulo 64.
pub open spec fn binary_result(op: OpcodeByte, a: Word, b: Word) -> Result<Word, Fault> {
    match op {
        OpcodeByte::Add => Ok(wrap_word(a + b)),
        OpcodeByte::Sub => Ok(wrap_word(a - b)),
        OpcodeByte::Mul => Ok(wrap_word(a * b)),
        OpcodeByte::DivUnsigned => if b == 0 {
            Err(Fault::DivisionByZero)
        } else {
            Ok(a / b)
        },
        OpcodeByte::DivSigned => if b == 0 {
            Err(Fault::DivisionByZero)
        } else {
            Ok(signed_quotient(a as i64, b as i64))
        },
        OpcodeByte::RemUnsigned => if b == 0 {
            Err(Fault::RemainderByZero)
        } else {
            Ok(a % b)
        },
        OpcodeByte::RemSigned => if b == 0 {
            Err(Fault::RemainderByZero)
        } else {
            Ok(signed_remainder(a as i64, b as i64))
        },
        OpcodeByte::BitAnd => Ok(a & b),
        OpcodeByte::BitOr => Ok(a | b),
        OpcodeByte::BitXor => Ok(a ^ b),
        OpcodeByte::ShiftLeft => Ok(a << (b & 0x3F)),
        OpcodeByte::LogicShiftRight => Ok(a >> (b & 0x3F)),
        OpcodeByte::ArithShiftRight => Ok(((a as i64) >> (b & 0x3F)) as Word),
        OpcodeByte::CompEqual => Ok(bool_word(a == b)),
        OpcodeByte::CompNotEqual => Ok(bool_word(a != b)),
        OpcodeByte::CompLessThanUnsigned => Ok(bool_word(a < b)),
        OpcodeByte::CompLessThanSigned => Ok(bool_word((a as i64) < (b as i64))),
        OpcodeByte::CompLessThanOrEqualUnsigned => Ok(bool_word(a <= b)),
        OpcodeByte::CompLessThanOrEqualSigned => Ok(bool_word((a as i64) <= (b as i64))),
        OpcodeByte::CompGreaterThanUnsigned => Ok(bool_word(a > b)),
        OpcodeByte::CompGreaterThanSigned => Ok(bool_word((a as i64) > (b as i64))),
        OpcodeByte::CompGreaterThanOrEqualUnsigned => Ok(bool_word(a >= b)),
        OpcodeByte::CompGreaterThanOrEqualSigned => Ok(bool_word((a as i64) >= (b as i64))),
        _ => Ok(0),
    }
}

// ---------------------------------------------------------------------------
// Pieces of a step
// ---------------------------------------------------------------------------

/// `s` with the instruction pointer set to `ip`.
pub open spec fn with_ip(s: VmState, ip: usize) -> VmState {
    VmState { ip, ..s }
}

/// `s` with `w` pushed on the operand stack.
pub open spec fn push_word(s: VmState, w: Word) -> VmState {
    VmState { stack: s.stack.push(w), ..s }
}

/// `s` with the top of the operand stack removed.
pub open spec fn drop_word(s: VmState) -> VmState {
    VmState { stack: s.stack.drop_last(), ..s }
}

/// The signed value of a short form's low nibble, in -8..=7.
pub open spec fn nibble_offset(op: u8) -> int {
    if (op & 0x0F) & 0x08 != 0 {
        (op & 0x0F) - 16
    } else {
        (op & 0x0F) as int
    }
}

/// A signed nibble lies in -8..=7, and its low four bits are the byte's low
/// four bits: the high nibble of the byte is ignored.
pub proof fn lemma_nibble_offset(op: u8)
    ensures
        -8 <= nibble_offset(op) <= 7,
        ((nibble_offset(op) as i8) as u8) & 0x0F == op & 0x0F,
{
    let v = op & 0x0F;
    assert(v <= 15 && ((v & 0x08 != 0) == (v >= 8))) by (bit_vector)
        requires
            v == op & 0x0F,
    ;
    if v >= 8 {
        assert(((((v as i16) - 16) as i8) as u8) & 0x0F == v) by (bit_vector)
            requires
                8 <= v <= 15,
        ;
    } else {
        assert((((v as i16) as i8) as u8) & 0x0F == v) by (bit_vector)
            requires
                v <= 7,
        ;
    }
}

/// Where a relative offset from `ip` leads.
pub open spec fn relative_target(ip: usize, offset: i64) -> Result<usize, Fault> {
    if offset >= 0 {
        if offset > usize::MAX {
            Err(Fault::OffsetTooLarge)
        } else if ip + offset > usize::MAX {
            Err(Fault::TargetOutOfRange)
        } else {
            Ok((ip + offset) as usize)
        }
    } else {
        if -offset > usize::MAX {
            Err(Fault::OffsetTooLarge)
        } else if ip + offset < 0 {
            Err(Fault::TargetOutOfRange)
        } else {
            Ok((ip + offset) as usize)
        }
    }
}

/// A relative jump by `offset` from the current instruction pointer.
pub open spec fn jump(s: VmState, offset: i64) -> StepResult {
    match relative_target(s.ip, offset) {
        Ok(target) => StepResult::Running(with_ip(s, target)),
        Err(f) => StepResult::Faulted(f),
    }
}

/// Pops the top of the stack and jumps by `offset` when it is zero.
pub open spec fn jump_if_zero(s: VmState, offset: i64) -> StepResult {
    if s.stack.len() == 0 {
        StepResult::Faulted(Fault::StackUnderflow)
    } else if s.stack.last() == 0 {
        jump(drop_word(s), offset)
    } else {
        StepResult::Running(drop_word(s))
    }
}

/// Pushes the current instruction pointer on the call stack and jumps by `offset`.
pub open spec fn call(s: VmState, offset: i64) -> StepResult {
    jump(VmState { call_stack: s.call_stack.push(s.ip), ..s }, offset)
}

/// A step whose opcode byte lies in one of the short-form ranges.
pub open spec fn is_short_form(op: u8) -> bool {
    PUSH_UNSIGNED4_START <= op <= JUMP_REL_SIGNED4_END
}

/// The step of a short-form byte: its low nibble is the operand.
pub open spec fn short_form_step(s: VmState, op: u8) -> StepResult {
    if op <= PUSH_UNSIGNED4_END {
        StepResult::Running(push_word(s, (op & 0x0F) as Word))
    } else if op <= PUSH_SIGNED4_END {
        StepResult::Running(push_word(s, (nibble_offset(op) as i64) as Word))
    } else if op <= CALL_REL_SIGNED4_END {
        call(s, nibble_offset(op) as i64)
    } else if op <= JUMP_IF_ZERO_REL_SIGNED4_END {
        jump_if_zero(s, nibble_offset(op) as i64)
    } else {
        jump(s, nibble_offset(op) as i64)
    }
}

/// The step of an instruction that pops two words and pushes one.
pub open spec fn binary_step(s: VmState, op: OpcodeByte) -> StepResult {
    if s.stack.len() < 2 {
        StepResult::Faulted(Fault::StackUnderflow)
    } else {
        let b = s.stack.last();
        let a = s.stack.drop_last().last();
        let rest = VmState { stack: s.stack.drop_last().drop_last(), ..s };
        match binary_result(op, a, b) {
            Ok(v) => StepResult::Running(push_word(rest, v)),
            Err(f) => StepResult::Faulted(f),
        }
    }
}

/// `BitNot`, `Dup`, `Pop` and `Swap`.
pub open spec fn stack_step(s: VmState, op: OpcodeByte) -> StepResult {
    if op == OpcodeByte::Swap {
        if s.stack.len() < 2 {
            StepResult::Faulted(Fault::StackUnderflow)
        } else {
            let b = s.stack.last();
            let a = s.stack.drop_last().last();
            let rest = s.stack.drop_last().drop_last();
            StepResult::Running(VmState { stack: rest.push(b).push(a), ..s })
        }
    } else if s.stack.len() == 0 {
        StepResult::Faulted(Fault::StackUnderflow)
    } else if op == OpcodeByte::BitNot {
        StepResult::Running(push_word(drop_word(s), !s.stack.last()))
    } else if op == OpcodeByte::Dup {
        StepResult::Running(push_word(s, s.stack.last()))
    } else {
        StepResult::Running(drop_word(s))
    }
}

/// The number of operand bytes that follow an opcode.
pub open spec fn operand_width(op: OpcodeByte) -> nat {
    match op {
        OpcodeByte::PushUnsigned8 | OpcodeByte::PushSigned8 | OpcodeByte::JumpRelSigned8
        | OpcodeByte::JumpIfZeroRelSigned8 | OpcodeByte::CallRelSigned8 => 1,
        OpcodeByte::PushUnsigned16 | OpcodeByte::PushSigned16 | OpcodeByte::JumpRelSigned16
        | OpcodeByte::JumpIfZeroRelSigned16 | OpcodeByte::CallRelSigned16 => 2,
        OpcodeByte::PushUnsigned32 | OpcodeByte::PushSigned32 | OpcodeByte::JumpRelSigned32
        | OpcodeByte::JumpIfZeroRelSigned32 | OpcodeByte::CallRelSigned32 => 4,
        OpcodeByte::Push64 | OpcodeByte::JumpRelSigned64 | OpcodeByte::JumpIfZeroRelSigned64
        | OpcodeByte::CallRelSigned64 => 8,
        _ => 0,
    }
}

/// The operand bytes at `ip`, and the address after them, where they lie within the program.
pub open spec fn operand(program: Seq<u8>, ip: usize, width: nat) -> Option<(Word, usize)> {
    if ip + width <= program.len() {
        Some((le_value(program.subrange(ip as int, ip + width)) as Word, (ip + width) as usize))
    } else {
        None
    }
}

/// The two's-complement value of the low `width` bytes of `raw`.
pub open spec fn signed_operand(raw: Word, width: nat) -> i64 {
    if width == 1 {
        ((raw as u8) as i8) as i64
    } else if width == 2 {
        ((raw as u16) as i16) as i64
    } else if width == 4 {
        ((raw as u32) as i32) as i64
    } else {
        raw as i64
    }
}

/// The pushes with an operand in the bytes that follow the opcode.
pub open spec fn is_immediate_push(op: OpcodeByte) -> bool {
    match op {
        OpcodeByte::PushUnsigned8 | OpcodeByte::PushSigned8 | OpcodeByte::PushUnsigned16
        | OpcodeByte::PushSigned16 | OpcodeByte::PushUnsigned32 | OpcodeByte::PushSigned32
        | OpcodeByte::Push64 => true,
        _ => false,
    }
}

/// The word that an immediate push pushes for the raw operand value.
pub open spec fn immediate_word(op: OpcodeByte, raw: Word) -> Word {
    match op {
        OpcodeByte::PushSigned8 | OpcodeByte::PushSigned16 | OpcodeByte::PushSigned32 => (
        signed_operand(raw, operand_width(op)) as Word),
        _ => raw,
    }
}

/// The step of an immediate push; `s` points at the operand.
pub open spec fn immediate_step(program: Seq<u8>, s: VmState, op: OpcodeByte) -> StepResult {
    match operand(program, s.ip, operand_width(op)) {
        None => StepResult::Faulted(Fault::ProgramOutOfBounds),
        Some((raw, next)) => StepResult::Running(push_word(with_ip(s, next), immediate_word(op, raw))),
    }
}

/// The relative jumps, conditional jumps and calls with an 8- to 64-bit offset.
pub open spec fn is_relative(op: OpcodeByte) -> bool {
    match op {
        OpcodeByte::JumpRelSigned8 | OpcodeByte::JumpRelSigned16 | OpcodeByte::JumpRelSigned32
        | OpcodeByte::JumpRelSigned64 | OpcodeByte::JumpIfZeroRelSigned8
        | OpcodeByte::JumpIfZeroRelSigned16 | OpcodeByte::JumpIfZeroRelSigned32
        | OpcodeByte::JumpIfZeroRelSigned64 | OpcodeByte::CallRelSigned8
        | OpcodeByte::CallRelSigned16 | OpcodeByte::CallRelSigned32
        | OpcodeByte::CallRelSigned64 => true,
        _ => false,
    }
}

/// The step of a relative jump or call; `s` points at the offset operand.
pub open spec fn relative_step(program: Seq<u8>, s: VmState, op: OpcodeByte) -> StepResult {
    match operand(program, s.ip, operand_width(op)) {
        None => StepResult::Faulted(Fault::ProgramOutOfBounds),
        Some((raw, next)) => {
            let t = with_ip(s, next);
            let offset = signed_operand(raw, operand_width(op));
            match op {
                OpcodeByte::JumpRelSigned8 | OpcodeByte::JumpRelSigned16
                | OpcodeByte::JumpRelSigned32 | OpcodeByte::JumpRelSigned64 => jump(t, offset),
                OpcodeByte::JumpIfZeroRelSigned8 | OpcodeByte::JumpIfZeroRelSigned16
                | OpcodeByte::JumpIfZeroRelSigned32 | OpcodeByte::JumpIfZeroRelSigned64 => jump_if_zero(t, offset),
                _ => call(t, offset),
            }
        },
    }
}

/// `JumpAbsIndirect`, `CallAbsIndirect` and `Return`.
pub open spec fn indirect_step(s: VmState, op: OpcodeByte) -> StepResult {
    if op == OpcodeByte::Return {
        if s.call_stack.len() == 0 {
            StepResult::Faulted(Fault::CallStackUnderflow)
        } else {
            StepResult::Running(
                VmState { call_stack: s.call_stack.drop_last(), ip: s.call_stack.last(), ..s },
            )
        }
    } else if s.stack.len() == 0 {
        StepResult::Faulted(Fault::StackUnderflow)
    } else if s.stack.last() > usize::MAX {
        StepResult::Faulted(
            if op == OpcodeByte::JumpAbsIndirect {
                Fault::JumpTargetTooLarge
            } else {
                Fault::CallTargetTooLarge
            },
        )
    } else {
        let t = drop_word(s);
        let target = s.stack.last() as usize;
        if op == OpcodeByte::JumpAbsIndirect {
            StepResult::Running(with_ip(t, target))
        } else {
            StepResult::Running(VmState { call_stack: t.call_stack.push(t.ip), ip: target, ..t })
        }
    }
}

/// The start of the `length` bytes of memory at `address`, where they lie within memory.
pub open spec fn memory_range(memory_len: nat, address: Word, length: usize) -> Result<usize, Fault> {
    if address > usize::MAX {
        Err(Fault::AddressTooLarge)
    } else if address + length > usize::MAX {
        Err(Fault::AccessOutOfRange)
    } else if address + length > memory_len {
        Err(Fault::AccessOutOfBounds)
    } else {
        Ok(address as usize)
    }
}

/// `memory` with the bytes from `start` on replaced by `bytes`.
pub open spec fn splice(memory: Seq<u8>, start: int, bytes: Seq<u8>) -> Seq<u8> {
    memory.take(start) + bytes + memory.skip(start + bytes.len())
}

/// The number of bytes a memory load or store accesses.
pub open spec fn access_width(op: OpcodeByte) -> usize {
    match op {
        OpcodeByte::MemLoad8 | OpcodeByte::MemStore8 => 1,
        OpcodeByte::MemLoad16 | OpcodeByte::MemStore16 => 2,
        OpcodeByte::MemLoad32 | OpcodeByte::MemStore32 => 4,
        _ => 8,
    }
}

/// The instructions that read, write or resize memory.
pub open spec fn is_memory(op: OpcodeByte) -> bool {
    match op {
        OpcodeByte::MemLoad8 | OpcodeByte::MemLoad16 | OpcodeByte::MemLoad32
        | OpcodeByte::MemLoad64 | OpcodeByte::MemStore8 | OpcodeByte::MemStore16
        | OpcodeByte::MemStore32 | OpcodeByte::MemStore64 | OpcodeByte::MemSize
        | OpcodeByte::MemGrow | OpcodeByte::MemCopy8 | OpcodeByte::MemFill8 => true,
        _ => false,
    }
}

/// Pops an address and pushes the `width`-byte little-endian value stored there.
pub open spec fn load_step(s: VmState, width: usize) -> StepResult {
    if s.stack.len() == 0 {
        StepResult::Faulted(Fault::StackUnderflow)
    } else {
        match memory_range(s.memory.len(), s.stack.last(), width) {
            Err(f) => StepResult::Faulted(f),
            Ok(start) => StepResult::Running(
                push_word(
                    drop_word(s),
                    le_value(s.memory.subrange(start as int, start + width)) as Word,
                ),
            ),
        }
    }
}

/// Pops a value and an address and stores the value's low `width` bytes there.
pub open spec fn store_step(s: VmState, width: usize) -> StepResult {
    if s.stack.len() < 2 {
        StepResult::Faulted(Fault::StackUnderflow)
    } else {
        let value = s.stack.last();
        let address = s.stack.drop_last().last();
        match memory_range(s.memory.len(), address, width) {
            Err(f) => StepResult::Faulted(f),
            Ok(start) => StepResult::Running(
                VmState {
                    stack: s.stack.drop_last().drop_last(),
                    memory: splice(s.memory, start as int, le_bytes(value as nat, width as nat)),
                    ..s
                },
            ),
        }
    }
}

/// Pops an amount, appends that many zero bytes to memory and pushes the old size.
pub open spec fn grow_step(s: VmState) -> StepResult {
    if s.stack.len() == 0 {
        StepResult::Faulted(Fault::StackUnderflow)
    } else if s.stack.last() > usize::MAX {
        StepResult::Faulted(Fault::GrowthTooLarge)
    } else if s.memory.len() + s.stack.last() > usize::MAX {
        StepResult::Faulted(Fault::MemorySizeTooLarge)
    } else {
        let amount = s.stack.last() as nat;
        StepResult::Running(
            VmState {
                stack: s.stack.drop_last().push(s.memory.len() as Word),
                memory: s.memory + Seq::new(amount, |i: int| 0u8),
                ..s
            },
        )
    }
}

/// Pops a length, a source and a destination address and copies the bytes
/// (as if through a buffer, so the ranges may overlap).
pub open spec fn copy_step(s: VmState) -> StepResult {
    if s.stack.len() < 3 {
        StepResult::Faulted(Fault::StackUnderflow)
    } else {
        let length = s.stack.last();
        let source = s.stack.drop_last().last();
        let destination = s.stack.drop_last().drop_last().last();
        let rest = s.stack.drop_last().drop_last().drop_last();
        if length > usize::MAX {
            StepResult::Faulted(Fault::CopyLengthTooLarge)
        } else {
            match memory_range(s.memory.len(), source, length as usize) {
                Err(f) => StepResult::Faulted(f),
                Ok(from) => match memory_range(s.memory.len(), destination, length as usize) {
                    Err(f) => StepResult::Faulted(f),
                    Ok(to) => StepResult::Running(
                        VmState {
                            stack: rest,
                            memory: splice(
                                s.memory,
                                to as int,
                                s.memory.subrange(from as int, from + length),
                            ),
                            ..s
                        },
                    ),
                },
            }
        }
    }
}

/// Pops a length, a value and an address and sets the bytes to the value's low byte.
pub open spec fn fill_step(s: VmState) -> StepResult {
    if s.stack.len() < 3 {
        StepResult::Faulted(Fault::StackUnderflow)
    } else {
        let length = s.stack.last();
        let value = s.stack.drop_last().last();
        let address = s.stack.drop_last().drop_last().last();
        let rest = s.stack.drop_last().drop_last().drop_last();
        if length > usize::MAX {
            StepResult::Faulted(Fault::FillLengthTooLarge)
        } else {
            match memory_range(s.memory.len(), address, length as usize) {
                Err(f) => StepResult::Faulted(f),
                Ok(start) => StepResult::Running(
                    VmState {
                        stack: rest,
                        memory: splice(
                            s.memory,
                            start as int,
                            Seq::new(length as nat, |i: int| value as u8),
                        ),
                        ..s
                    },
                ),
            }
        }
    }
}

/// The step of a memory instruction.
pub open spec fn memory_step(s: VmState, op: OpcodeByte) -> StepResult {
    match op {
        OpcodeByte::MemLoad8 | OpcodeByte::MemLoad16 | OpcodeByte::MemLoad32
        | OpcodeByte::MemLoad64 => load_step(s, access_width(op)),
        OpcodeByte::MemStore8 | OpcodeByte::MemStore16 | OpcodeByte::MemStore32
        | OpcodeByte::MemStore64 => store_step(s, access_width(op)),
        OpcodeByte::MemSize => StepResult::Running(push_word(s, s.memory.len() as Word)),
        OpcodeByte::MemGrow => grow_step(s),
        OpcodeByte::MemCopy8 => copy_step(s),
        _ => fill_step(s),
    }
}

/// The step of a single-byte opcode; `s` already points past the opcode byte.
pub open spec fn opcode_step(program: Seq<u8>, s: VmState, op: OpcodeByte) -> StepResult {
    if op == OpcodeByte::Noop {
        StepResult::Running(s)
    } else if op == OpcodeByte::Halt {
        StepResult::Halted(s)
    } else if is_binary(op) {
        binary_step(s, op)
    } else if is_immediate_push(op) {
        immediate_step(program, s, op)
    } else if is_relative(op) {
        relative_step(program, s, op)
    } else if is_memory(op) {
        memory_step(s, op)
    } else if op == OpcodeByte::JumpAbsIndirect || op == OpcodeByte::CallAbsIndirect || op
        == OpcodeByte::Return {
        indirect_step(s, op)
    } else {
        stack_step(s, op)
    }
}

/// One step of the machine: fetch the byte at the instruction pointer, move
/// past it, and carry out the instruction it encodes.
pub open spec fn next_state(program: Seq<u8>, s: VmState) -> StepResult {
    if s.ip >= program.len() {
        StepResult::Faulted(Fault::ProgramOutOfBounds)
    } else {
        let op = program[s.ip as int];
        let t = with_ip(s, (s.ip + 1) as usize);
        if is_short_form(op) {
            short_form_step(t, op)
        } else {
            match OpcodeByte::decode(op) {
                None => StepResult::Faulted(Fault::UnknownOpcode(op)),
                Some(opcode) => opcode_step(program, t, opcode),
            }
        }
    }
}

/// The result of at most `fuel` steps from `s`: the first halt or fault, or
/// the state reached after `fuel` steps.
pub open spec fn run(program: Seq<u8>, s: VmState, fuel: nat) -> StepResult
    decreases fuel,
{
    if fuel == 0 {
        StepResult::Running(s)
    } else {
        match next_state(program, s) {
            StepResult::Running(t) => run(program, t, (fuel - 1) as nat),
            other => other,
        }
    }
}

/// The program halts, without a fault, when started in the initial state.
pub open spec fn halts(program: Seq<u8>) -> bool {
    exists|fuel: nat| #[trigger] run(program, initial_state(), fuel) is Halted
}

/// The state in which a halting program stops.
pub open spec fn final_state(program: Seq<u8>) -> VmState {
    run(program, initial_state(), choose|fuel: nat| #[trigger] run(program, initial_state(), fuel) is Halted)->Halted_0
}


// ---------------------------------------------------------------------------
// Execution
// ---------------------------------------------------------------------------

impl Machine {
    /// A machine in the initial state.
    pub fn new() -> (m: Machine)
        ensures
            m@ == initial_state(),
    {
        Machine {
            stack: Vec::with_capacity(4096),
            call_stack: Vec::with_capacity(4096),
            memory: Vec::new(),
            ip: 0,
        }
    }
}

fn pop_word(stack: &mut Vec<Word>) -> (w: Word)
    requires
        old(stack)@.len() > 0,
    ensures
        w == old(stack)@.last(),
        final(stack)@ == old(stack)@.drop_last(),
{
    stack.pop().unwrap()
}

fn get_next_byte_from_program(program: &[u8], ip: &mut usize) -> (b: u8)
    requires
        *old(ip) < program@.len(),
    ensures
        b == program@[*old(ip) as int],
        *final(ip) == *old(ip) + 1,
{
    let b = program[*ip];
    *ip = *ip + 1;
    b
}

/// The raw little-endian operand of `width` bytes at `ip`.
pub open spec fn raw_operand(program: Seq<u8>, ip: int, width: nat) -> Word {
    le_value(program.subrange(ip, ip + width)) as Word
}

fn get_next_u16_from_program(program: &[u8], ip: &mut usize) -> (v: u16)
    requires
        *old(ip) + 2 <= program.len(),
    ensures
        v == raw_operand(program@, *old(ip) as int, 2) as u16,
        *final(ip) == *old(ip) + 2,
{
    let raw = read_le(program, *ip, 2);
    *ip = *ip + 2;
    raw as u16
}

fn get_next_u32_from_program(program: &[u8], ip: &mut usize) -> (v: u32)
    requires
        *old(ip) + 4 <= program.len(),
    ensures
        v == raw_operand(program@, *old(ip) as int, 4) as u32,
        *final(ip) == *old(ip) + 4,
{
    let raw = read_le(program, *ip, 4);
    *ip = *ip + 4;
    raw as u32
}

fn get_next_u64_from_program(program: &[u8], ip: &mut usize) -> (v: u64)
    requires
        *old(ip) + 8 <= program.len(),
    ensures
        v == raw_operand(program@, *old(ip) as int, 8),
        *final(ip) == *old(ip) + 8,
{
    let raw = read_le(program, *ip, 8);
    *ip = *ip + 8;
    raw
}

fn get_next_i8_from_program(program: &[u8], ip: &mut usize) -> (v: i8)
    requires
        *old(ip) + 1 <= program.len(),
    ensures
        v == (raw_operand(program@, *old(ip) as int, 1) as u8) as i8,
        *final(ip) == *old(ip) + 1,
{
    let raw = read_le(program, *ip, 1);
    *ip = *ip + 1;
    (raw as u8) as i8
}

fn get_next_i16_from_program(program: &[u8], ip: &mut usize) -> (v: i16)
    requires
        *old(ip) + 2 <= program.len(),
    ensures
        v == (raw_operand(program@, *old(ip) as int, 2) as u16) as i16,
        *final(ip) == *old(ip) + 2,
{
    let raw = read_le(program, *ip, 2);
    *ip = *ip + 2;
    (raw as u16) as i16
}

fn get_next_i32_from_program(program: &[u8], ip: &mut usize) -> (v: i32)
    requires
        *old(ip) + 4 <= program.len(),
    ensures
        v == (raw_operand(program@, *old(ip) as int, 4) as u32) as i32,
        *final(ip) == *old(ip) + 4,
{
    let raw = read_le(program, *ip, 4);
    *ip = *ip + 4;
    (raw as u32) as i32
}

fn get_next_i64_from_program(program: &[u8], ip: &mut usize) -> (v: i64)
    requires
        *old(ip) + 8 <= program.len(),
    ensures
        v == raw_operand(program@, *old(ip) as int, 8) as i64,
        *final(ip) == *old(ip) + 8,
{
    let raw = read_le(program, *ip, 8);
    *ip = *ip + 8;
    raw as i64
}

fn decode_u4(value: u8) -> (r: u8)
    ensures
        r == value & 0x0F,
        r <= 15,
{
    assert(value & 0x0F <= 15) by (bit_vector);
    value & 0x0F
}

fn decode_i4(value: u8) -> (r: i8)
    ensures
        r == nibble_offset(value),
{
    let value = decode_u4(value);
    if value & 0x08 != 0 {
        value as i8 - 16
    } else {
        value as i8
    }
}

fn add_relative_offset(ip: usize, offset: i64) -> (r: Result<usize, Fault>)
    ensures
        r == relative_target(ip, offset),
{
    if offset >= 0 {
        if offset as u64 > usize::MAX as u64 {
            return Err(Fault::OffsetTooLarge);
        }
        let offset = offset as usize;
        match ip.checked_add(offset) {
            Some(target) => Ok(target),
            None => Err(Fault::TargetOutOfRange),
        }
    } else {
        let magnitude: u64 = if offset == i64::MIN {
            0x8000_0000_0000_0000
        } else {
            (-offset) as u64
        };
        if magnitude > usize::MAX as u64 {
            return Err(Fault::OffsetTooLarge);
        }
        let magnitude = magnitude as usize;
        match ip.checked_sub(magnitude) {
            Some(target) => Ok(target),
            None => Err(Fault::TargetOutOfRange),
        }
    }
}

fn get_memory_range(memory_len: usize, address: Word, length: usize) -> (r: Result<usize, Fault>)
    ensures
        r == memory_range(memory_len as nat, address, length),
{
    if address > usize::MAX as u64 {
        return Err(Fault::AddressTooLarge);
    }
    let start = address as usize;
    match start.checked_add(length) {
        None => Err(Fault::AccessOutOfRange),
        Some(end) => if end > memory_len {
            Err(Fault::AccessOutOfBounds)
        } else {
            Ok(start)
        },
    }
}

fn magnitude(a: i64) -> (m: u64)
    ensures
        m as int == abs(a as int),
{
    if a >= 0 {
        a as u64
    } else if a == i64::MIN {
        0x8000_0000_0000_0000
    } else {
        (-a) as u64
    }
}

fn signed_div(a: i64, b: i64) -> (r: Word)
    requires
        b != 0,
    ensures
        r == signed_quotient(a, b),
{
    if a == i64::MIN && b == -1 {
        i64::MIN as Word
    } else {
        let ma = magnitude(a);
        let mb = magnitude(b);
        let q = ma / mb;
        proof {
            assert(q <= ma) by (nonlinear_arith)
                requires
                    mb >= 1,
                    q == ma / mb,
            ;
            if b < 0 && a == i64::MIN {
                assert(mb >= 2);
                assert(q <= ma / 2) by (nonlinear_arith)
                    requires
                        mb >= 2,
                        q == ma / mb,
                ;
            }
        }
        let r: i64 = if (a < 0) != (b < 0) {
            if q == 0x8000_0000_0000_0000 {
                i64::MIN
            } else {
                -(q as i64)
            }
        } else {
            q as i64
        };
        r as Word
    }
}

fn signed_rem(a: i64, b: i64) -> (r: Word)
    requires
        b != 0,
    ensures
        r == signed_remainder(a, b),
{
    if a == i64::MIN && b == -1 {
        0
    } else {
        let ma = magnitude(a);
        let mb = magnitude(b);
        let m = ma % mb;
        let r: i64 = if a < 0 {
            -(m as i64)
        } else {
            m as i64
        };
        r as Word
    }
}

fn binary_value(op: OpcodeByte, a: Word, b: Word) -> (r: Result<Word, Fault>)
    ensures
        r == binary_result(op, a, b),
{
    match op {
        OpcodeByte::Add => Ok(a.wrapping_add(b)),
        OpcodeByte::Sub => Ok(a.wrapping_sub(b)),
        OpcodeByte::Mul => Ok(a.wrapping_mul(b)),
        OpcodeByte::DivUnsigned => if b == 0 {
            Err(Fault::DivisionByZero)
        } else {
            Ok(a / b)
        },
        OpcodeByte::DivSigned => if b == 0 {
            Err(Fault::DivisionByZero)
        } else {
            assert(b != 0 ==> (b as i64) != 0) by (bit_vector);
            Ok(signed_div(a as i64, b as i64))
        },
        OpcodeByte::RemUnsigned => if b == 0 {
            Err(Fault::RemainderByZero)
        } else {
            Ok(a % b)
        },
        OpcodeByte::RemSigned => if b == 0 {
            Err(Fault::RemainderByZero)
        } else {
            assert(b != 0 ==> (b as i64) != 0) by (bit_vector);
            Ok(signed_rem(a as i64, b as i64))
        },
        OpcodeByte::BitAnd => Ok(a & b),
        OpcodeByte::BitOr => Ok(a | b),
        OpcodeByte::BitXor => Ok(a ^ b),
        OpcodeByte::ShiftLeft => {
            let shift = b & 0x3F;
            assert(shift < 64) by (bit_vector)
                requires
                    shift == b & 0x3F,
            ;
            Ok(a << shift)
        },
        OpcodeByte::LogicShiftRight => {
            let shift = b & 0x3F;
            assert(shift < 64) by (bit_vector)
                requires
                    shift == b & 0x3F,
            ;
            Ok(a >> shift)
        },
        OpcodeByte::ArithShiftRight => {
            let shift = b & 0x3F;
            assert(shift < 64) by (bit_vector)
                requires
                    shift == b & 0x3F,
            ;
            Ok(((a as i64) >> shift) as Word)
        },
        OpcodeByte::CompEqual => Ok(if a == b { 1 } else { 0 }),
        OpcodeByte::CompNotEqual => Ok(if a != b { 1 } else { 0 }),
        OpcodeByte::CompLessThanUnsigned => Ok(if a < b { 1 } else { 0 }),
        OpcodeByte::CompLessThanSigned => Ok(if (a as i64) < (b as i64) { 1 } else { 0 }),
        OpcodeByte::CompLessThanOrEqualUnsigned => Ok(if a <= b { 1 } else { 0 }),
        OpcodeByte::CompLessThanOrEqualSigned => Ok(if (a as i64) <= (b as i64) { 1 } else { 0 }),
        OpcodeByte::CompGreaterThanUnsigned => Ok(if a > b { 1 } else { 0 }),
        OpcodeByte::CompGreaterThanSigned => Ok(if (a as i64) > (b as i64) { 1 } else { 0 }),
        OpcodeByte::CompGreaterThanOrEqualUnsigned => Ok(if a >= b { 1 } else { 0 }),
        OpcodeByte::CompGreaterThanOrEqualSigned => Ok(if (a as i64) >= (b as i64) { 1 } else { 0 }),
        _ => Ok(0),
    }
}

fn execute_binary(m: &mut Machine, op: OpcodeByte) -> (r: Outcome)
    ensures
        reports(r, final(m)@, binary_step(old(m)@, op)),
{
    if m.stack.len() < 2 {
        return Outcome::Faulted(Fault::StackUnderflow);
    }
    let b = pop_word(&mut m.stack);
    let a = pop_word(&mut m.stack);
    match binary_value(op, a, b) {
        Ok(v) => {
            m.stack.push(v);
            Outcome::Running
        },
        Err(f) => Outcome::Faulted(f),
    }
}

fn execute_stack(m: &mut Machine, op: OpcodeByte) -> (r: Outcome)
    ensures
        reports(r, final(m)@, stack_step(old(m)@, op)),
{
    if op == OpcodeByte::Swap {
        if m.stack.len() < 2 {
            return Outcome::Faulted(Fault::StackUnderflow);
        }
        let b = pop_word(&mut m.stack);
        let a = pop_word(&mut m.stack);
        m.stack.push(b);
        m.stack.push(a);
        return Outcome::Running;
    }
    if m.stack.len() == 0 {
        return Outcome::Faulted(Fault::StackUnderflow);
    }
    if op == OpcodeByte::BitNot {
        let a = pop_word(&mut m.stack);
        m.stack.push(!a);
    } else if op == OpcodeByte::Dup {
        let value = m.stack[m.stack.len() - 1];
        m.stack.push(value);
    } else {
        pop_word(&mut m.stack);
    }
    Outcome::Running
}

fn jump_relative(m: &mut Machine, offset: i64) -> (r: Outcome)
    ensures
        reports(r, final(m)@, jump(old(m)@, offset)),
{
    match add_relative_offset(m.ip, offset) {
        Ok(target) => {
            m.ip = target;
            Outcome::Running
        },
        Err(f) => Outcome::Faulted(f),
    }
}

fn jump_if_zero_relative(m: &mut Machine, offset: i64) -> (r: Outcome)
    ensures
        reports(r, final(m)@, jump_if_zero(old(m)@, offset)),
{
    if m.stack.len() == 0 {
        return Outcome::Faulted(Fault::StackUnderflow);
    }
    let condition = pop_word(&mut m.stack);
    if condition == 0 {
        jump_relative(m, offset)
    } else {
        Outcome::Running
    }
}

fn call_relative(m: &mut Machine, offset: i64) -> (r: Outcome)
    ensures
        reports(r, final(m)@, call(old(m)@, offset)),
{
    m.call_stack.push(m.ip);
    jump_relative(m, offset)
}

fn execute_short_form(m: &mut Machine, op: u8) -> (r: Outcome)
    requires
        is_short_form(op),
    ensures
        reports(r, final(m)@, short_form_step(old(m)@, op)),
{
    if op <= PUSH_UNSIGNED4_END {
        let value = decode_u4(op);
        m.stack.push(value as Word);
        Outcome::Running
    } else if op <= PUSH_SIGNED4_END {
        let value = decode_i4(op);
        m.stack.push(value as i64 as Word);
        Outcome::Running
    } else if op <= CALL_REL_SIGNED4_END {
        let offset = decode_i4(op);
        call_relative(m, offset as i64)
    } else if op <= JUMP_IF_ZERO_REL_SIGNED4_END {
        let offset = decode_i4(op);
        jump_if_zero_relative(m, offset as i64)
    } else {
        let offset = decode_i4(op);
        jump_relative(m, offset as i64)
    }
}

fn operand_width_of(op: OpcodeByte) -> (w: usize)
    ensures
        w == operand_width(op),
{
    match op {
        OpcodeByte::PushUnsigned8 | OpcodeByte::PushSigned8 | OpcodeByte::JumpRelSigned8
        | OpcodeByte::JumpIfZeroRelSigned8 | OpcodeByte::CallRelSigned8 => 1,
        OpcodeByte::PushUnsigned16 | OpcodeByte::PushSigned16 | OpcodeByte::JumpRelSigned16
        | OpcodeByte::JumpIfZeroRelSigned16 | OpcodeByte::CallRelSigned16 => 2,
        OpcodeByte::PushUnsigned32 | OpcodeByte::PushSigned32 | OpcodeByte::JumpRelSigned32
        | OpcodeByte::JumpIfZeroRelSigned32 | OpcodeByte::CallRelSigned32 => 4,
        OpcodeByte::Push64 | OpcodeByte::JumpRelSigned64 | OpcodeByte::JumpIfZeroRelSigned64
        | OpcodeByte::CallRelSigned64 => 8,
        _ => 0,
    }
}

fn execute_immediate(program: &[u8], m: &mut Machine, op: OpcodeByte) -> (r: Outcome)
    requires
        is_immediate_push(op),
    ensures
        reports(r, final(m)@, immediate_step(program@, old(m)@, op)),
{
    let width = operand_width_of(op);
    assert(width >= 1);
    if m.ip >= program.len() || program.len() - m.ip < width {
        return Outcome::Faulted(Fault::ProgramOutOfBounds);
    }
    let ghost raw = raw_operand(program@, m.ip as int, width as nat);
    let value: Word = if op == OpcodeByte::PushUnsigned8 {
        let v = read_le(program, m.ip, 1);
        m.ip = m.ip + 1;
        v
    } else if op == OpcodeByte::PushSigned8 {
        get_next_i8_from_program(program, &mut m.ip) as i64 as Word
    } else if op == OpcodeByte::PushUnsigned16 {
        proof {
            crate::encoding::lemma_le_value_bound(program@.subrange(m.ip as int, m.ip + 2));
            crate::encoding::lemma_pow256_eight();
        }
        get_next_u16_from_program(program, &mut m.ip) as Word
    } else if op == OpcodeByte::PushSigned16 {
        get_next_i16_from_program(program, &mut m.ip) as i64 as Word
    } else if op == OpcodeByte::PushUnsigned32 {
        proof {
            crate::encoding::lemma_le_value_bound(program@.subrange(m.ip as int, m.ip + 4));
            crate::encoding::lemma_pow256_eight();
        }
        get_next_u32_from_program(program, &mut m.ip) as Word
    } else if op == OpcodeByte::PushSigned32 {
        get_next_i32_from_program(program, &mut m.ip) as i64 as Word
    } else {
        get_next_u64_from_program(program, &mut m.ip)
    };
    assert(value == immediate_word(op, raw));
    m.stack.push(value);
    Outcome::Running
}

fn execute_relative(program: &[u8], m: &mut Machine, op: OpcodeByte) -> (r: Outcome)
    requires
        is_relative(op),
    ensures
        reports(r, final(m)@, relative_step(program@, old(m)@, op)),
{
    let width = operand_width_of(op);
    assert(width >= 1);
    if m.ip >= program.len() || program.len() - m.ip < width {
        return Outcome::Faulted(Fault::ProgramOutOfBounds);
    }
    let offset: i64 = if width == 1 {
        get_next_i8_from_program(program, &mut m.ip) as i64
    } else if width == 2 {
        get_next_i16_from_program(program, &mut m.ip) as i64
    } else if width == 4 {
        get_next_i32_from_program(program, &mut m.ip) as i64
    } else {
        get_next_i64_from_program(program, &mut m.ip)
    };
    match op {
        OpcodeByte::JumpRelSigned8 | OpcodeByte::JumpRelSigned16 | OpcodeByte::JumpRelSigned32
        | OpcodeByte::JumpRelSigned64 => jump_relative(m, offset),
        OpcodeByte::JumpIfZeroRelSigned8 | OpcodeByte::JumpIfZeroRelSigned16
        | OpcodeByte::JumpIfZeroRelSigned32 | OpcodeByte::JumpIfZeroRelSigned64 => jump_if_zero_relative(m, offset),
        _ => call_relative(m, offset),
    }
}

fn execute_indirect(m: &mut Machine, op: OpcodeByte) -> (r: Outcome)
    ensures
        reports(r, final(m)@, indirect_step(old(m)@, op)),
{
    if op == OpcodeByte::Return {
        match m.call_stack.pop() {
            Some(target) => {
                m.ip = target;
                Outcome::Running
            },
            None => Outcome::Faulted(Fault::CallStackUnderflow),
        }
    } else {
        if m.stack.len() == 0 {
            return Outcome::Faulted(Fault::StackUnderflow);
        }
        let target = pop_word(&mut m.stack);
        if target > usize::MAX as u64 {
            return Outcome::Faulted(
                if op == OpcodeByte::JumpAbsIndirect {
                    Fault::JumpTargetTooLarge
                } else {
                    Fault::CallTargetTooLarge
                },
            );
        }
        let target = target as usize;
        if op != OpcodeByte::JumpAbsIndirect {
            m.call_stack.push(m.ip);
        }
        m.ip = target;
        Outcome::Running
    }
}

fn access_width_of(op: OpcodeByte) -> (w: usize)
    ensures
        w == access_width(op),
{
    match op {
        OpcodeByte::MemLoad8 | OpcodeByte::MemStore8 => 1,
        OpcodeByte::MemLoad16 | OpcodeByte::MemStore16 => 2,
        OpcodeByte::MemLoad32 | OpcodeByte::MemStore32 => 4,
        _ => 8,
    }
}

fn execute_load(m: &mut Machine, width: usize) -> (r: Outcome)
    requires
        width <= 8,
    ensures
        reports(r, final(m)@, load_step(old(m)@, width)),
{
    if m.stack.len() == 0 {
        return Outcome::Faulted(Fault::StackUnderflow);
    }
    let address = pop_word(&mut m.stack);
    match get_memory_range(m.memory.len(), address, width) {
        Err(f) => Outcome::Faulted(f),
        Ok(start) => {
            let value = read_le(m.memory.as_slice(), start, width);
            m.stack.push(value);
            Outcome::Running
        },
    }
}

fn execute_store(m: &mut Machine, width: usize) -> (r: Outcome)
    ensures
        reports(r, final(m)@, store_step(old(m)@, width)),
{
    if m.stack.len() < 2 {
        return Outcome::Faulted(Fault::StackUnderflow);
    }
    let value = pop_word(&mut m.stack);
    let address = pop_word(&mut m.stack);
    match get_memory_range(m.memory.len(), address, width) {
        Err(f) => Outcome::Faulted(f),
        Ok(start) => {
            write_le(&mut m.memory, start, value, width);
            proof {
                crate::encoding::lemma_le_bytes_len(value as nat, width as nat);
            }
            Outcome::Running
        },
    }
}

fn execute_grow(m: &mut Machine) -> (r: Outcome)
    ensures
        reports(r, final(m)@, grow_step(old(m)@)),
{
    if m.stack.len() == 0 {
        return Outcome::Faulted(Fault::StackUnderflow);
    }
    let amount = pop_word(&mut m.stack);
    if amount > usize::MAX as u64 {
        return Outcome::Faulted(Fault::GrowthTooLarge);
    }
    let amount = amount as usize;
    let old_size = m.memory.len();
    if amount > usize::MAX - old_size {
        return Outcome::Faulted(Fault::MemorySizeTooLarge);
    }
    let ghost before = m.memory@;
    m.memory.resize(old_size + amount, 0);
    proof {
        assert(m.memory@ =~= before + Seq::new(amount as nat, |i: int| 0u8));
    }
    m.stack.push(old_size as Word);
    Outcome::Running
}

fn execute_copy(m: &mut Machine) -> (r: Outcome)
    ensures
        reports(r, final(m)@, copy_step(old(m)@)),
{
    if m.stack.len() < 3 {
        return Outcome::Faulted(Fault::StackUnderflow);
    }
    let length = pop_word(&mut m.stack);
    let source = pop_word(&mut m.stack);
    let destination = pop_word(&mut m.stack);
    if length > usize::MAX as u64 {
        return Outcome::Faulted(Fault::CopyLengthTooLarge);
    }
    let length = length as usize;
    let from = match get_memory_range(m.memory.len(), source, length) {
        Err(f) => {
            return Outcome::Faulted(f);
        },
        Ok(start) => start,
    };
    let to = match get_memory_range(m.memory.len(), destination, length) {
        Err(f) => {
            return Outcome::Faulted(f);
        },
        Ok(start) => start,
    };
    copy_within(&mut m.memory, from, to, length);
    Outcome::Running
}

/// Copies `memory[from..from + length]` to `memory[to..to + length]`; the two ranges may overlap.
fn copy_within(memory: &mut Vec<u8>, from: usize, to: usize, length: usize)
    requires
        from + length <= old(memory)@.len(),
        to + length <= old(memory)@.len(),
    ensures
        final(memory)@ == splice(
            old(memory)@,
            to as int,
            old(memory)@.subrange(from as int, from + length),
        ),
{
    let ghost before = memory@;
    let mut buffer: Vec<u8> = Vec::with_capacity(length);
    let mut i: usize = 0;
    while i < length
        invariant
            i <= length,
            from + length <= before.len(),
            from + length <= memory.len(),
            memory@ == before,
            buffer@ == before.subrange(from as int, from + i),
        decreases length - i,
    {
        buffer.push(memory[from + i]);
        i = i + 1;
        proof {
            assert(buffer@ =~= before.subrange(from as int, from + i));
        }
    }
    let ghost copied = buffer@;
    let mut j: usize = 0;
    while j < length
        invariant
            j <= length,
            to + length <= before.len(),
            to + length <= memory.len(),
            from + length <= before.len(),
            buffer@ == copied,
            copied == before.subrange(from as int, from + length),
            copied.len() == length,
            memory@.len() == before.len(),
            forall|k: int| 0 <= k < to ==> memory@[k] == before[k],
            forall|k: int| to + length <= k < before.len() ==> memory@[k] == before[k],
            forall|k: int| to <= k < to + j ==> memory@[k] == copied[k - to],
            forall|k: int| to + j <= k < to + length ==> memory@[k] == before[k],
        decreases length - j,
    {
        memory.set(to + j, buffer[j]);
        j = j + 1;
    }
    proof {
        assert(memory@ =~= splice(before, to as int, copied));
    }
}

fn execute_fill(m: &mut Machine) -> (r: Outcome)
    ensures
        reports(r, final(m)@, fill_step(old(m)@)),
{
    if m.stack.len() < 3 {
        return Outcome::Faulted(Fault::StackUnderflow);
    }
    let length = pop_word(&mut m.stack);
    let value = pop_word(&mut m.stack);
    let address = pop_word(&mut m.stack);
    if length > usize::MAX as u64 {
        return Outcome::Faulted(Fault::FillLengthTooLarge);
    }
    let length = length as usize;
    let start = match get_memory_range(m.memory.len(), address, length) {
        Err(f) => {
            return Outcome::Faulted(f);
        },
        Ok(start) => start,
    };
    fill(&mut m.memory, start, length, value as u8);
    Outcome::Running
}

/// Sets `memory[start..start + length]` to `byte`.
fn fill(memory: &mut Vec<u8>, start: usize, length: usize, byte: u8)
    requires
        start + length <= old(memory)@.len(),
    ensures
        final(memory)@ == splice(old(memory)@, start as int, Seq::new(length as nat, |i: int| byte)),
{
    let ghost before = memory@;
    let ghost filled = Seq::new(length as nat, |i: int| byte);
    let mut j: usize = 0;
    while j < length
        invariant
            j <= length,
            start + length <= before.len(),
            start + length <= memory.len(),
            filled.len() == length,
            forall|k: int| 0 <= k < length ==> filled[k] == byte,
            memory@.len() == before.len(),
            forall|k: int| 0 <= k < start ==> memory@[k] == before[k],
            forall|k: int| start + length <= k < before.len() ==> memory@[k] == before[k],
            forall|k: int| start <= k < start + j ==> memory@[k] == byte,
            forall|k: int| start + j <= k < start + length ==> memory@[k] == before[k],
        decreases length - j,
    {
        memory.set(start + j, byte);
        j = j + 1;
    }
    proof {
        assert(memory@ =~= splice(before, start as int, filled));
    }
}

fn execute_memory(m: &mut Machine, op: OpcodeByte) -> (r: Outcome)
    requires
        is_memory(op),
    ensures
        reports(r, final(m)@, memory_step(old(m)@, op)),
{
    match op {
        OpcodeByte::MemLoad8 | OpcodeByte::MemLoad16 | OpcodeByte::MemLoad32
        | OpcodeByte::MemLoad64 => execute_load(m, access_width_of(op)),
        OpcodeByte::MemStore8 | OpcodeByte::MemStore16 | OpcodeByte::MemStore32
        | OpcodeByte::MemStore64 => execute_store(m, access_width_of(op)),
        OpcodeByte::MemSize => {
            m.stack.push(m.memory.len() as Word);
            Outcome::Running
        },
        OpcodeByte::MemGrow => execute_grow(m),
        OpcodeByte::MemCopy8 => execute_copy(m),
        _ => execute_fill(m),
    }
}

fn execute_opcode(program: &[u8], m: &mut Machine, op: OpcodeByte) -> (r: Outcome)
    ensures
        reports(r, final(m)@, opcode_step(program@, old(m)@, op)),
{
    if op == OpcodeByte::Noop {
        Outcome::Running
    } else if op == OpcodeByte::Halt {
        Outcome::Halted
    } else if is_binary_opcode(op) {
        execute_binary(m, op)
    } else if is_immediate_opcode(op) {
        execute_immediate(program, m, op)
    } else if is_relative_opcode(op) {
        execute_relative(program, m, op)
    } else if is_memory_opcode(op) {
        execute_memory(m, op)
    } else if op == OpcodeByte::JumpAbsIndirect || op == OpcodeByte::CallAbsIndirect || op
        == OpcodeByte::Return {
        execute_indirect(m, op)
    } else {
        execute_stack(m, op)
    }
}

fn is_binary_opcode(op: OpcodeByte) -> (b: bool)
    ensures
        b == is_binary(op),
{
    match op {
        OpcodeByte::Add | OpcodeByte::Sub | OpcodeByte::Mul | OpcodeByte::DivUnsigned
        | OpcodeByte::DivSigned | OpcodeByte::RemUnsigned | OpcodeByte::RemSigned
        | OpcodeByte::BitAnd | OpcodeByte::BitOr | OpcodeByte::BitXor | OpcodeByte::ShiftLeft
        | OpcodeByte::LogicShiftRight | OpcodeByte::ArithShiftRight | OpcodeByte::CompEqual
        | OpcodeByte::CompNotEqual | OpcodeByte::CompLessThanUnsigned
        | OpcodeByte::CompLessThanSigned | OpcodeByte::CompLessThanOrEqualUnsigned
        | OpcodeByte::CompLessThanOrEqualSigned | OpcodeByte::CompGreaterThanUnsigned
        | OpcodeByte::CompGreaterThanSigned | OpcodeByte::CompGreaterThanOrEqualUnsigned
        | OpcodeByte::CompGreaterThanOrEqualSigned => true,
        _ => false,
    }
}

fn is_immediate_opcode(op: OpcodeByte) -> (b: bool)
    ensures
        b == is_immediate_push(op),
{
    match op {
        OpcodeByte::PushUnsigned8 | OpcodeByte::PushSigned8 | OpcodeByte::PushUnsigned16
        | OpcodeByte::PushSigned16 | OpcodeByte::PushUnsigned32 | OpcodeByte::PushSigned32
        | OpcodeByte::Push64 => true,
        _ => false,
    }
}

fn is_relative_opcode(op: OpcodeByte) -> (b: bool)
    ensures
        b == is_relative(op),
{
    match op {
        OpcodeByte::JumpRelSigned8 | OpcodeByte::JumpRelSigned16 | OpcodeByte::JumpRelSigned32
        | OpcodeByte::JumpRelSigned64 | OpcodeByte::JumpIfZeroRelSigned8
        | OpcodeByte::JumpIfZeroRelSigned16 | OpcodeByte::JumpIfZeroRelSigned32
        | OpcodeByte::JumpIfZeroRelSigned64 | OpcodeByte::CallRelSigned8
        | OpcodeByte::CallRelSigned16 | OpcodeByte::CallRelSigned32
        | OpcodeByte::CallRelSigned64 => true,
        _ => false,
    }
}

fn is_memory_opcode(op: OpcodeByte) -> (b: bool)
    ensures
        b == is_memory(op),
{
    match op {
        OpcodeByte::MemLoad8 | OpcodeByte::MemLoad16 | OpcodeByte::MemLoad32
        | OpcodeByte::MemLoad64 | OpcodeByte::MemStore8 | OpcodeByte::MemStore16
        | OpcodeByte::MemStore32 | OpcodeByte::MemStore64 | OpcodeByte::MemSize
        | OpcodeByte::MemGrow | OpcodeByte::MemCopy8 | OpcodeByte::MemFill8 => true,
        _ => false,
    }
}

/// Carries out one step of `m` on `program`, as [`next_state`] states it.
/// After a fault the machine's state is unspecified.
pub fn step(program: &[u8], m: &mut Machine) -> (r: Outcome)
    ensures
        reports(r, final(m)@, next_state(program@, old(m)@)),
{
    if m.ip >= program.len() {
        return Outcome::Faulted(Fault::ProgramOutOfBounds);
    }
    let op = get_next_byte_from_program(program, &mut m.ip);
    if PUSH_UNSIGNED4_START <= op && op <= JUMP_REL_SIGNED4_END {
        execute_short_form(m, op)
    } else {
        match OpcodeByte::try_from_byte(op) {
            None => Outcome::Faulted(Fault::UnknownOpcode(op)),
            Some(opcode) => execute_opcode(program, m, opcode),
        }
    }
}


/// Running is deterministic: whatever fuel suffices for a halt, the halt is in the same state.
pub proof fn lemma_run_deterministic(program: Seq<u8>, s: VmState, fuel1: nat, fuel2: nat)
    requires
        run(program, s, fuel1) is Halted,
        run(program, s, fuel2) is Halted,
    ensures
        run(program, s, fuel1) == run(program, s, fuel2),
    decreases fuel1,
{
    if let StepResult::Running(t) = next_state(program, s) {
        lemma_run_deterministic(program, t, (fuel1 - 1) as nat, (fuel2 - 1) as nat);
    }
}

/// Runs `program` from the initial state until it executes `Halt`, and returns
/// the operand stack at that point (bottom first).
pub fn run_program(program: &[u8]) -> (stack: Vec<Word>)
    requires
        halts(program@),
    ensures
        stack@ == final_state(program@).stack,
        forall|fuel: nat|
            #[trigger] run(program@, initial_state(), fuel) matches StepResult::Halted(s)
                ==> stack@ == s.stack,
{
    let mut m = Machine::new();
    let ghost start = choose|fuel: nat| #[trigger] run(program@, initial_state(), fuel) is Halted;
    let ghost mut fuel: nat = start;
    loop
        invariant
            run(program@, initial_state(), start) is Halted,
            run(program@, m@, fuel) == run(program@, initial_state(), start),
        decreases fuel,
    {
        let ghost before = m@;
        let outcome = step(program, &mut m);
        match outcome {
            Outcome::Running => {
                proof {
                    fuel = (fuel - 1) as nat;
                }
            },
            Outcome::Halted => {
                proof {
                    assert(run(program@, initial_state(), start) == StepResult::Halted(m@));
                    assert forall|f: nat| #[trigger]
                        run(program@, initial_state(), f) is Halted implies m.stack@ == run(
                        program@,
                        initial_state(),
                        f,
                    )->Halted_0.stack by {
                        lemma_run_deterministic(program@, initial_state(), f, start);
                    }
                }
                return m.stack;
            },
            Outcome::Faulted(_) => {
                proof {
                    assert(false);
                }
                return m.stack;
            },
        }
    }
}

/// Storing a word and loading from the same address gives back the word
/// reduced to the access width: read after write.
pub proof fn lemma_load_after_store(s: VmState, width: usize, address: Word, value: Word)
    requires
        1 <= width <= 8,
        store_step(push_word(push_word(s, address), value), width) is Running,
    ensures
        ({
            let t = store_step(push_word(push_word(s, address), value), width)->Running_0;
            load_step(push_word(t, address), width) == StepResult::Running(
                push_word(t, (value as nat % crate::encoding::pow256(width as nat)) as Word),
            )
        }),
{
    let s2 = push_word(push_word(s, address), value);
    assert(s2.stack.last() == value);
    assert(s2.stack.drop_last().last() == address);
    let start = memory_range(s.memory.len(), address, width)->Ok_0;
    let bytes = le_bytes(value as nat, width as nat);
    crate::encoding::lemma_le_bytes_len(value as nat, width as nat);
    crate::encoding::lemma_le_value_of_bytes(value as nat, width as nat);
    let t = store_step(s2, width)->Running_0;
    assert(t.memory.len() == s.memory.len());
    assert(t.memory.subrange(start as int, start + width) =~= bytes);
    let u = push_word(t, address);
    assert(u.stack.last() == address);
    assert(drop_word(u) =~= t);
    crate::encoding::lemma_pow256_monotone(width as nat, 8);
    crate::encoding::lemma_pow256_eight();
}

} // verus!
