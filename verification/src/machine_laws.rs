//! What single instructions do, stated against integer arithmetic and
//! sequence operations: each law says what state one step of an opcode leads
//! to, in terms of the state before it.
use vstd::prelude::*;
use crate::opcodes::{lemma_decode_byte, lemma_short_forms_unassigned, OpcodeByte};
use crate::encoding::{
    le_bytes, le_value, lemma_le_bytes_len, lemma_le_value_of_bytes, lemma_pow256_eight, pow256,
};
use crate::vm::{abs, next_state, signed_operand, Fault, StepResult, VmState, Word};

verus! {

/// `program` holds the opcode byte of `op` where the state's instruction
/// pointer points, and the pointer can move past it.
pub open spec fn at_opcode(program: Seq<u8>, s: VmState, op: OpcodeByte) -> bool {
    &&& program.len() <= usize::MAX
    &&& s.ip < program.len()
    &&& s.ip < usize::MAX
    &&& program[s.ip as int] == op.byte()
}

/// The two's-complement value of a word.
pub open spec fn signed_value(w: Word) -> int {
    if w < 0x8000_0000_0000_0000 {
        w as int
    } else {
        w - 0x1_0000_0000_0000_0000
    }
}

/// `q * b`.
pub open spec fn product(q: int, b: int) -> int {
    q * b
}

/// `d` is a whole multiple of `b`.
pub open spec fn multiple_of(d: int, b: int) -> bool {
    exists|q: int| #[trigger] product(q, b) == d
}

/// The state `t` is `s` with `stack` as its stack and the instruction
/// pointer at `ip`.
pub open spec fn now_at(s: VmState, t: VmState, stack: Seq<Word>, ip: int) -> bool {
    &&& t.stack == stack
    &&& t.call_stack == s.call_stack
    &&& t.memory == s.memory
    &&& t.ip == ip
}

/// The state `t` is `s` one instruction further on, with `stack` as its stack.
pub open spec fn moved_on(s: VmState, t: VmState, stack: Seq<Word>) -> bool {
    &&& t.stack == stack
    &&& t.call_stack == s.call_stack
    &&& t.memory == s.memory
    &&& t.ip == s.ip + 1
}

/// The state `t` is `s` one instruction further on, with the top two words
/// of the stack replaced by `r`.
pub open spec fn replaces_two(s: VmState, t: VmState, r: Word) -> bool {
    moved_on(s, t, s.stack.take(s.stack.len() - 2).push(r))
}

proof fn lemma_dispatch(program: Seq<u8>, s: VmState, op: OpcodeByte)
    requires
        at_opcode(program, s, op),
    ensures
        next_state(program, s) == crate::vm::opcode_step(
            program,
            crate::vm::with_ip(s, (s.ip + 1) as usize),
            op,
        ),
{
    lemma_decode_byte(op);
    if crate::vm::is_short_form(op.byte()) {
        lemma_short_forms_unassigned(op.byte());
    }
}

proof fn lemma_signed_value(w: Word)
    ensures
        (w as i64) as int == signed_value(w),
{
    assert(w >= 0x8000_0000_0000_0000 ==> (w as i64) as i128 == (w as i128)
        - 0x1_0000_0000_0000_0000i128) by (bit_vector);
    assert(w < 0x8000_0000_0000_0000 ==> (w as i64) as i128 == (w as i128)) by (bit_vector);
}

proof fn lemma_signed_value_of(x: i64)
    ensures
        signed_value(x as Word) == x as int,
{
    assert(x < 0 ==> (x as u64) as i128 == (x as i128) + 0x1_0000_0000_0000_0000i128)
        by (bit_vector);
    assert(x >= 0 ==> (x as u64) as i128 == (x as i128)) by (bit_vector);
}

/// A comparison pops two words `a` (the deeper) and `b` and pushes 1 when
/// the relation holds between them, 0 when it does not: unsigned
/// comparisons order the words as naturals, signed ones by their
/// two's-complement values.
pub proof fn lemma_comparison_step(program: Seq<u8>, s: VmState, op: OpcodeByte)
    requires
        at_opcode(program, s, op),
        s.stack.len() >= 2,
        op == OpcodeByte::CompEqual || op == OpcodeByte::CompNotEqual || op
            == OpcodeByte::CompLessThanUnsigned || op == OpcodeByte::CompLessThanSigned || op
            == OpcodeByte::CompLessThanOrEqualUnsigned || op
            == OpcodeByte::CompLessThanOrEqualSigned || op == OpcodeByte::CompGreaterThanUnsigned
            || op == OpcodeByte::CompGreaterThanSigned || op
            == OpcodeByte::CompGreaterThanOrEqualUnsigned || op
            == OpcodeByte::CompGreaterThanOrEqualSigned,
    ensures
        next_state(program, s) is Running,
        ({
            let t = next_state(program, s)->Running_0;
            let a = s.stack[s.stack.len() - 2];
            let b = s.stack[s.stack.len() - 1];
            let sa = signed_value(a);
            let sb = signed_value(b);
            let r = t.stack.last();
            &&& replaces_two(s, t, r)
            &&& op == OpcodeByte::CompEqual ==> r == (if a == b { 1u64 } else { 0u64 })
            &&& op == OpcodeByte::CompNotEqual ==> r == (if a != b { 1u64 } else { 0u64 })
            &&& op == OpcodeByte::CompLessThanUnsigned ==> r == (if a < b { 1u64 } else { 0u64 })
            &&& op == OpcodeByte::CompLessThanSigned ==> r == (if sa < sb { 1u64 } else { 0u64 })
            &&& op == OpcodeByte::CompLessThanOrEqualUnsigned ==> r == (if a <= b {
                1u64
            } else {
                0u64
            })
            &&& op == OpcodeByte::CompLessThanOrEqualSigned ==> r == (if sa <= sb {
                1u64
            } else {
                0u64
            })
            &&& op == OpcodeByte::CompGreaterThanUnsigned ==> r == (if a > b {
                1u64
            } else {
                0u64
            })
            &&& op == OpcodeByte::CompGreaterThanSigned ==> r == (if sa > sb {
                1u64
            } else {
                0u64
            })
            &&& op == OpcodeByte::CompGreaterThanOrEqualUnsigned ==> r == (if a >= b {
                1u64
            } else {
                0u64
            })
            &&& op == OpcodeByte::CompGreaterThanOrEqualSigned ==> r == (if sa >= sb {
                1u64
            } else {
                0u64
            })
        }),
{
    lemma_dispatch(program, s, op);
    let a = s.stack[s.stack.len() - 2];
    let b = s.stack[s.stack.len() - 1];
    lemma_signed_value(a);
    lemma_signed_value(b);
    assert(s.stack.drop_last().last() == a);
    assert(s.stack.drop_last().drop_last() =~= s.stack.take(s.stack.len() - 2));
}

/// Addition, subtraction and multiplication pop `a` (the deeper) and `b` and
/// push the result modulo 2^64; unsigned division and remainder push the
/// quotient `q` and remainder `r` with `a == q * b + r` and `0 <= r < b`, and
/// fail on a zero divisor.
pub proof fn lemma_unsigned_arithmetic_step(program: Seq<u8>, s: VmState, op: OpcodeByte)
    requires
        at_opcode(program, s, op),
        s.stack.len() >= 2,
        op == OpcodeByte::Add || op == OpcodeByte::Sub || op == OpcodeByte::Mul || op
            == OpcodeByte::DivUnsigned || op == OpcodeByte::RemUnsigned,
    ensures
        ({
            let a = s.stack[s.stack.len() - 2];
            let b = s.stack[s.stack.len() - 1];
            let t = next_state(program, s)->Running_0;
            let r = t.stack.last();
            &&& op == OpcodeByte::DivUnsigned && b == 0 ==> next_state(program, s)
                == StepResult::Faulted(Fault::DivisionByZero)
            &&& op == OpcodeByte::RemUnsigned && b == 0 ==> next_state(program, s)
                == StepResult::Faulted(Fault::RemainderByZero)
            &&& (op == OpcodeByte::Add || op == OpcodeByte::Sub || op == OpcodeByte::Mul || b != 0)
                ==> next_state(program, s) is Running && replaces_two(s, t, r)
            &&& op == OpcodeByte::Add ==> r as int == (a + b) % 0x1_0000_0000_0000_0000
            &&& op == OpcodeByte::Sub ==> r as int == (a - b) % 0x1_0000_0000_0000_0000
            &&& op == OpcodeByte::Mul ==> r as int == (a * b) % 0x1_0000_0000_0000_0000
            &&& op == OpcodeByte::DivUnsigned && b != 0 ==> r * b <= a < (r + 1) * b
            &&& op == OpcodeByte::RemUnsigned && b != 0 ==> r < b && multiple_of(a - r, b as int)
        }),
{
    lemma_dispatch(program, s, op);
    let a = s.stack[s.stack.len() - 2];
    let b = s.stack[s.stack.len() - 1];
    assert(s.stack.drop_last().last() == a);
    assert(s.stack.drop_last().drop_last() =~= s.stack.take(s.stack.len() - 2));
    if b != 0 {
        let q = a / b;
        let r = a % b;
        assert(q * b <= a < (q + 1) * b && r < b && a == q * b + r) by (nonlinear_arith)
            requires
                b > 0,
                q == a / b,
                r == a % b,
        ;
        if op == OpcodeByte::RemUnsigned {
            assert(product(q as int, b as int) == a - r);
        }
    }
}

/// The quotient of two's-complement words rounds toward zero: apart from
/// `i64::MIN / -1`, which gives `i64::MIN`, the quotient `q` leaves a remainder
/// `a - q * b` smaller than `b` in size and of the sign of `a`. The remainder
/// instruction pushes that remainder (0 for `i64::MIN % -1`). A zero divisor
/// fails.
pub proof fn lemma_signed_division_step(program: Seq<u8>, s: VmState, op: OpcodeByte)
    requires
        at_opcode(program, s, op),
        s.stack.len() >= 2,
        op == OpcodeByte::DivSigned || op == OpcodeByte::RemSigned,
    ensures
        ({
            let sa = signed_value(s.stack[s.stack.len() - 2]);
            let sb = signed_value(s.stack[s.stack.len() - 1]);
            let t = next_state(program, s)->Running_0;
            let r = t.stack.last();
            let overflow = sa == -0x8000_0000_0000_0000 && sb == -1;
            &&& sb == 0 && op == OpcodeByte::DivSigned ==> next_state(program, s)
                == StepResult::Faulted(Fault::DivisionByZero)
            &&& sb == 0 && op == OpcodeByte::RemSigned ==> next_state(program, s)
                == StepResult::Faulted(Fault::RemainderByZero)
            &&& sb != 0 ==> next_state(program, s) is Running && replaces_two(s, t, r)
            &&& sb != 0 && op == OpcodeByte::DivSigned && overflow ==> r
                == 0x8000_0000_0000_0000
            &&& sb != 0 && op == OpcodeByte::DivSigned && !overflow ==> {
                let rem = sa - signed_value(r) * sb;
                &&& -abs(sb) < rem < abs(sb)
                &&& rem == 0 || (rem < 0) == (sa < 0)
            }
            &&& sb != 0 && op == OpcodeByte::RemSigned && overflow ==> r == 0
            &&& sb != 0 && op == OpcodeByte::RemSigned && !overflow ==> {
                let rem = signed_value(r);
                &&& -abs(sb) < rem < abs(sb)
                &&& rem == 0 || (rem < 0) == (sa < 0)
                &&& multiple_of(sa - rem, sb)
            }
        }),
{
    lemma_dispatch(program, s, op);
    let a = s.stack[s.stack.len() - 2];
    let b = s.stack[s.stack.len() - 1];
    assert(s.stack.drop_last().last() == a);
    assert(s.stack.drop_last().drop_last() =~= s.stack.take(s.stack.len() - 2));
    lemma_signed_value(a);
    lemma_signed_value(b);
    let sa = signed_value(a);
    let sb = signed_value(b);
    lemma_signed_value_of(i64::MIN);
    lemma_signed_value_of(0i64);
    if sb != 0 && !(sa == -0x8000_0000_0000_0000 && sb == -1) {
        let x = abs(sa);
        let y = abs(sb);
        let q0 = x / y;
        let r0 = x % y;
        assert(x == q0 * y + r0 && 0 <= r0 < y && 0 <= q0 <= x) by (nonlinear_arith)
            requires
                x >= 0,
                y > 0,
                q0 == x / y,
                r0 == x % y,
        ;
        let q = crate::vm::trunc_div(sa, sb);
        let rem = crate::vm::trunc_rem(sa, sb);
        assert(sa == q * sb + rem && (rem == 0 || (rem < 0) == (sa < 0)) && -y < rem < y)
            by (nonlinear_arith)
            requires
                x == abs(sa),
                y == abs(sb),
                x == q0 * y + r0,
                0 <= r0 < y,
                q == (if (sa < 0) == (sb < 0) { q0 } else { -q0 }),
                rem == (if sa < 0 { -r0 } else { r0 }),
        ;
        // The quotient fits in 64 bits.
        if y == 1 {
            assert(q0 == x) by (nonlinear_arith)
                requires
                    y == 1,
                    q0 == x / y,
            ;
        } else {
            assert(q0 <= x / 2) by (nonlinear_arith)
                requires
                    y >= 2,
                    x >= 0,
                    q0 == x / y,
            ;
        }
        assert(-0x8000_0000_0000_0000 <= q < 0x8000_0000_0000_0000);
        lemma_signed_value_of(q as i64);
        lemma_signed_value_of(rem as i64);
        assert((q as i64) as int == q);
        assert((rem as i64) as int == rem);
        assert(crate::vm::signed_quotient(a as i64, b as i64) == (q as i64) as Word);
        assert(crate::vm::signed_remainder(a as i64, b as i64) == (rem as i64) as Word);
        if op == OpcodeByte::RemSigned {
            assert(product(q, sb) == sa - rem);
        }
    }
}

/// `DUP` pushes a copy of the top word, `DROP` removes the top word, `SWAP`
/// exchanges the top two, `NOT` replaces the top word by its complement
/// `2^64 - 1 - w`, and `NOOP` changes nothing; each fails on a stack too
/// short for it.
pub proof fn lemma_stack_step(program: Seq<u8>, s: VmState, op: OpcodeByte)
    requires
        at_opcode(program, s, op),
        op == OpcodeByte::Dup || op == OpcodeByte::Pop || op == OpcodeByte::Swap || op
            == OpcodeByte::BitNot || op == OpcodeByte::Noop,
    ensures
        ({
            let st = s.stack;
            let n = st.len();
            let t = next_state(program, s)->Running_0;
            &&& op == OpcodeByte::Noop ==> next_state(program, s) is Running && moved_on(s, t, st)
            &&& (op == OpcodeByte::Dup || op == OpcodeByte::Pop || op == OpcodeByte::BitNot) && n
                == 0 ==> next_state(program, s) == StepResult::Faulted(Fault::StackUnderflow)
            &&& op == OpcodeByte::Swap && n < 2 ==> next_state(program, s)
                == StepResult::Faulted(Fault::StackUnderflow)
            &&& op == OpcodeByte::Dup && n > 0 ==> next_state(program, s) is Running && moved_on(
                s,
                t,
                st.push(st[n - 1]),
            )
            &&& op == OpcodeByte::Pop && n > 0 ==> next_state(program, s) is Running && moved_on(
                s,
                t,
                st.take(n - 1),
            )
            &&& op == OpcodeByte::Swap && n >= 2 ==> next_state(program, s) is Running && moved_on(
                s,
                t,
                st.update(n - 1, st[n - 2]).update(n - 2, st[n - 1]),
            )
            &&& op == OpcodeByte::BitNot && n > 0 ==> next_state(program, s) is Running
                && t.stack.take(n - 1) == st.take(n - 1) && t.stack.len() == n && t.stack[n - 1]
                == 0xFFFF_FFFF_FFFF_FFFF - st[n - 1] && moved_on(s, t, t.stack)
        }),
{
    lemma_dispatch(program, s, op);
    let st = s.stack;
    let n = st.len();
    if n > 0 {
        let w = st[n - 1];
        assert(!w == 0xFFFF_FFFF_FFFF_FFFF - w) by (bit_vector);
        assert(st.drop_last() =~= st.take(n - 1));
        assert(st.drop_last().push(!w).take(n - 1) =~= st.take(n - 1));
    }
    if n >= 2 {
        assert(st.drop_last().drop_last().push(st[n - 1]).push(st[n - 2]) =~= st.update(
            n - 1,
            st[n - 2],
        ).update(n - 2, st[n - 1]));
    }
}

/// `MEMSIZE` pushes the memory's length. `MEMGROW` pops an amount, appends
/// that many zero bytes to memory, keeping the old bytes in front, and
/// pushes the old length; it fails when the amount or the new length does
/// not fit in `usize`.
pub proof fn lemma_memory_size_step(program: Seq<u8>, s: VmState, op: OpcodeByte)
    requires
        at_opcode(program, s, op),
        op == OpcodeByte::MemSize || op == OpcodeByte::MemGrow,
    ensures
        ({
            let st = s.stack;
            let n = st.len();
            let old_len = s.memory.len();
            let t = next_state(program, s)->Running_0;
            &&& op == OpcodeByte::MemSize ==> next_state(program, s) is Running && moved_on(
                s,
                t,
                st.push(old_len as Word),
            )
            &&& op == OpcodeByte::MemGrow && n == 0 ==> next_state(program, s)
                == StepResult::Faulted(Fault::StackUnderflow)
            &&& op == OpcodeByte::MemGrow && n > 0 && st[n - 1] > usize::MAX ==> next_state(
                program,
                s,
            ) == StepResult::Faulted(Fault::GrowthTooLarge)
            &&& op == OpcodeByte::MemGrow && n > 0 && st[n - 1] <= usize::MAX && old_len + st[n
                - 1] > usize::MAX ==> next_state(program, s) == StepResult::Faulted(
                Fault::MemorySizeTooLarge,
            )
            &&& op == OpcodeByte::MemGrow && n > 0 && old_len + st[n - 1] <= usize::MAX ==> {
                &&& next_state(program, s) is Running
                &&& t.stack == st.take(n - 1).push(old_len as Word)
                &&& t.call_stack == s.call_stack
                &&& t.ip == s.ip + 1
                &&& t.memory.len() == old_len + st[n - 1]
                &&& t.memory.take(old_len as int) == s.memory
                &&& forall|i: int| old_len <= i < t.memory.len() ==> #[trigger] t.memory[i] == 0
            }
        }),
{
    lemma_dispatch(program, s, op);
    let st = s.stack;
    let n = st.len();
    if n > 0 {
        assert(st.drop_last() =~= st.take(n - 1));
        let amount = st[n - 1];
        if s.memory.len() + amount <= usize::MAX {
            let m = s.memory + Seq::new(amount as nat, |i: int| 0u8);
            assert(m.take(s.memory.len() as int) =~= s.memory);
        }
    }
}

/// The value of the `w` bytes of `bytes` from `start` on, least significant
/// first: the sum of each byte times `256^i` at its offset `i`.
pub open spec fn bytes_le(bytes: Seq<u8>, start: int, w: nat) -> nat
    decreases w,
{
    if w == 0 {
        0
    } else {
        bytes_le(bytes, start, (w - 1) as nat) + (bytes[start + w - 1] as nat) * pow256((w - 1) as nat)
    }
}

/// The two's-complement value of the `w`-byte value `u`.
pub open spec fn signed_in(u: nat, w: nat) -> int {
    if u < pow256(w) / 2 {
        u as int
    } else {
        u - pow256(w)
    }
}

proof fn lemma_le_value_push(bs: Seq<u8>, x: u8)
    ensures
        le_value(bs.push(x)) == le_value(bs) + x * pow256(bs.len()),
    decreases bs.len(),
{
    if bs.len() == 0 {
        assert(bs.push(x).drop_first() =~= Seq::<u8>::empty());
        assert(pow256(0) == 1);
        assert(le_value(Seq::<u8>::empty()) == 0);
        assert(bs.push(x)[0] == x);
    } else {
        assert(bs.push(x).drop_first() =~= bs.drop_first().push(x));
        assert(bs.push(x)[0] == bs[0]);
        assert(pow256(bs.len()) == 256 * pow256((bs.len() - 1) as nat));
        lemma_le_value_push(bs.drop_first(), x);
        assert(256 * (le_value(bs.drop_first()) + x * pow256((bs.len() - 1) as nat)) == 256
            * le_value(bs.drop_first()) + x * (256 * pow256((bs.len() - 1) as nat)))
            by (nonlinear_arith);
    }
}

/// Reading bytes as a little-endian number agrees with `bytes_le`.
proof fn lemma_le_value_window(bytes: Seq<u8>, start: int, w: nat)
    requires
        0 <= start,
        start + w <= bytes.len(),
    ensures
        le_value(bytes.subrange(start, start + w)) == bytes_le(bytes, start, w),
    decreases w,
{
    if w == 0 {
        assert(bytes.subrange(start, start) =~= Seq::<u8>::empty());
    } else {
        lemma_le_value_window(bytes, start, (w - 1) as nat);
        let sub = bytes.subrange(start, start + w - 1);
        assert(bytes.subrange(start, start + w) =~= sub.push(bytes[start + w - 1]));
        lemma_le_value_push(sub, bytes[start + w - 1]);
    }
}

proof fn lemma_bytes_le_bound(bytes: Seq<u8>, start: int, w: nat)
    ensures
        bytes_le(bytes, start, w) < pow256(w),
    decreases w,
{
    if w > 0 {
        lemma_bytes_le_bound(bytes, start, (w - 1) as nat);
        let p = pow256((w - 1) as nat);
        let b = bytes[start + w - 1];
        assert(bytes_le(bytes, start, (w - 1) as nat) + b * p < 256 * p) by (nonlinear_arith)
            requires
                bytes_le(bytes, start, (w - 1) as nat) < p,
                b < 256,
        ;
    }
}

/// Reading the low `w` bytes of a raw operand as signed gives `signed_in`.
proof fn lemma_signed_operand_value(raw: Word, w: nat)
    requires
        w == 1 || w == 2 || w == 4 || w == 8,
        raw < pow256(w),
    ensures
        signed_operand(raw, w) as int == signed_in(raw as nat, w),
{
    lemma_pow256_eight();
    if w == 1 {
        assert(raw < 128 ==> (((raw as u8) as i8) as i128) == (raw as i128)) by (bit_vector);
        assert(128 <= raw < 256 ==> (((raw as u8) as i8) as i128) == (raw as i128) - 256)
            by (bit_vector);
    } else if w == 2 {
        assert(raw < 0x8000 ==> (((raw as u16) as i16) as i128) == (raw as i128)) by (bit_vector);
        assert(0x8000 <= raw < 0x1_0000 ==> (((raw as u16) as i16) as i128) == (raw as i128)
            - 0x1_0000) by (bit_vector);
    } else if w == 4 {
        assert(raw < 0x8000_0000 ==> (((raw as u32) as i32) as i128) == (raw as i128))
            by (bit_vector);
        assert(0x8000_0000 <= raw < 0x1_0000_0000 ==> (((raw as u32) as i32) as i128) == (
        raw as i128) - 0x1_0000_0000) by (bit_vector);
    } else {
        lemma_signed_value(raw);
    }
}

/// The number of operand bytes after the opcode of an immediate push.
pub open spec fn push_operand_bytes(op: OpcodeByte) -> nat {
    if op == OpcodeByte::PushUnsigned8 || op == OpcodeByte::PushSigned8 {
        1
    } else if op == OpcodeByte::PushUnsigned16 || op == OpcodeByte::PushSigned16 {
        2
    } else if op == OpcodeByte::PushUnsigned32 || op == OpcodeByte::PushSigned32 {
        4
    } else {
        8
    }
}

/// An immediate push reads the 1, 2, 4 or 8 bytes after its opcode as a
/// little-endian number `u` and pushes it: as is for the unsigned pushes and
/// `Push64`, and as the word with the two's-complement value of `u` in that
/// many bytes for the signed ones; the instruction pointer moves past the
/// operand. An operand cut off by the end of the program is a fault.
pub proof fn lemma_immediate_push_step(program: Seq<u8>, s: VmState, op: OpcodeByte)
    requires
        at_opcode(program, s, op),
        op == OpcodeByte::PushUnsigned8 || op == OpcodeByte::PushSigned8 || op
            == OpcodeByte::PushUnsigned16 || op == OpcodeByte::PushSigned16 || op
            == OpcodeByte::PushUnsigned32 || op == OpcodeByte::PushSigned32 || op
            == OpcodeByte::Push64,
    ensures
        ({
            let w = push_operand_bytes(op);
            let u = bytes_le(program, s.ip + 1, w);
            let t = next_state(program, s)->Running_0;
            let signed = op == OpcodeByte::PushSigned8 || op == OpcodeByte::PushSigned16 || op
                == OpcodeByte::PushSigned32;
            &&& s.ip + 1 + w > program.len() ==> next_state(program, s) == StepResult::Faulted(
                Fault::ProgramOutOfBounds,
            )
            &&& s.ip + 1 + w <= program.len() ==> {
                &&& next_state(program, s) is Running
                &&& now_at(s, t, s.stack.push(t.stack.last()), s.ip + 1 + w)
                &&& !signed ==> t.stack.last() == u
                &&& signed ==> signed_value(t.stack.last()) == signed_in(u, w)
            }
        }),
{
    lemma_dispatch(program, s, op);
    lemma_pow256_eight();
    let w = push_operand_bytes(op);
    assert(crate::vm::operand_width(op) == w);
    if s.ip + 1 + w <= program.len() {
        lemma_le_value_window(program, s.ip + 1, w);
        lemma_bytes_le_bound(program, s.ip + 1, w);
        crate::encoding::lemma_pow256_monotone(w, 8);
        let u = bytes_le(program, s.ip + 1, w);
        let raw = u as Word;
        assert(raw as nat == u);
        if op == OpcodeByte::PushSigned8 || op == OpcodeByte::PushSigned16 || op
            == OpcodeByte::PushSigned32 {
            lemma_signed_operand_value(raw, w);
            lemma_signed_value_of(signed_operand(raw, w));
        }
    }
}

/// The signed value of the low nibble of a short-form byte `b` whose range
/// starts at `base`: `b - base`, less 16 when that is 8 or more.
pub open spec fn short_operand(b: u8, base: u8) -> int {
    if b - base < 8 {
        b - base
    } else {
        b - base - 16
    }
}

/// The outcome of transferring control from `s` to `target`, where `stack`
/// and `call_stack` are the stacks after the transfer: it runs when the
/// target is an address, and faults otherwise.
pub open spec fn transfers(
    r: StepResult,
    s: VmState,
    stack: Seq<Word>,
    call_stack: Seq<usize>,
    target: int,
) -> bool {
    &&& 0 <= target <= usize::MAX ==> (r matches StepResult::Running(t) && t.stack == stack
        && t.call_stack == call_stack && t.memory == s.memory && t.ip == target)
    &&& !(0 <= target <= usize::MAX) ==> r is Faulted
}

proof fn lemma_low_nibble_of(b: u8, base: u8)
    requires
        base == 0x90 || base == 0xA0 || base == 0xB0 || base == 0xC0 || base == 0xD0,
        base <= b < base + 16,
    ensures
        crate::vm::nibble_offset(b) == short_operand(b, base),
        b & 0x0F == b - base,
{
    assert(base % 16 == 0);
    assert((base % 16 == 0 && base <= b && b < base + 16 && base <= 0xD0) ==> b & 0x0F == b
        - base) by (bit_vector);
    assert(((b & 0x0F) & 0x08 != 0) == ((b & 0x0F) >= 8)) by (bit_vector);
}

/// The short forms, whose low nibble is their operand: `0x90..=0x9F` push
/// the nibble; `0xA0..=0xAF` push the word with its signed value; and
/// `0xB0..=0xBF` (call), `0xC0..=0xCF` (jump if the popped top is zero) and
/// `0xD0..=0xDF` (jump) transfer control by its signed value from the next
/// byte, a call pushing that next address on the call stack.
pub proof fn lemma_short_form_step(program: Seq<u8>, s: VmState)
    requires
        program.len() <= usize::MAX,
        s.ip < program.len(),
        0x90 <= program[s.ip as int] <= 0xDF,
    ensures
        ({
            let b = program[s.ip as int];
            let st = s.stack;
            let n = st.len();
            let next = s.ip + 1;
            let r = next_state(program, s);
            let t = r->Running_0;
            &&& b <= 0x9F ==> r is Running && now_at(s, t, st.push((b - 0x90) as Word), next)
            &&& 0xA0 <= b <= 0xAF ==> r is Running && now_at(s, t, st.push(t.stack.last()), next)
                && signed_value(t.stack.last()) == short_operand(b, 0xA0)
            &&& 0xB0 <= b <= 0xBF ==> transfers(
                r,
                s,
                st,
                s.call_stack.push(next as usize),
                next + short_operand(b, 0xB0),
            )
            &&& 0xC0 <= b <= 0xCF && n == 0 ==> r == StepResult::Faulted(Fault::StackUnderflow)
            &&& 0xC0 <= b <= 0xCF && n > 0 && st[n - 1] == 0 ==> transfers(
                r,
                s,
                st.take(n - 1),
                s.call_stack,
                next + short_operand(b, 0xC0),
            )
            &&& 0xC0 <= b <= 0xCF && n > 0 && st[n - 1] != 0 ==> r is Running && now_at(
                s,
                t,
                st.take(n - 1),
                next,
            )
            &&& 0xD0 <= b ==> transfers(r, s, st, s.call_stack, next + short_operand(b, 0xD0))
        }),
{
    let b = program[s.ip as int];
    let st = s.stack;
    let n = st.len();
    if n > 0 {
        assert(st.drop_last() =~= st.take(n - 1));
    }
    if b <= 0x9F {
        lemma_low_nibble_of(b, 0x90);
    } else if b <= 0xAF {
        lemma_low_nibble_of(b, 0xA0);
        lemma_signed_value_of(short_operand(b, 0xA0) as i64);
    } else if b <= 0xBF {
        lemma_low_nibble_of(b, 0xB0);
    } else if b <= 0xCF {
        lemma_low_nibble_of(b, 0xC0);
    } else {
        lemma_low_nibble_of(b, 0xD0);
    }
}

/// The number of offset bytes after the opcode of a wide relative jump or call.
pub open spec fn offset_bytes(op: OpcodeByte) -> nat {
    if op == OpcodeByte::JumpRelSigned8 || op == OpcodeByte::JumpIfZeroRelSigned8 || op
        == OpcodeByte::CallRelSigned8 {
        1
    } else if op == OpcodeByte::JumpRelSigned16 || op == OpcodeByte::JumpIfZeroRelSigned16 || op
        == OpcodeByte::CallRelSigned16 {
        2
    } else if op == OpcodeByte::JumpRelSigned32 || op == OpcodeByte::JumpIfZeroRelSigned32 || op
        == OpcodeByte::CallRelSigned32 {
        4
    } else {
        8
    }
}

/// A relative jump, conditional jump or call reads the 1, 2, 4 or 8 bytes
/// after its opcode as a little-endian two's-complement offset and transfers
/// control by it from the address after the operand; the conditional jump
/// pops the top and jumps only when it is zero, and the call pushes the
/// address after the operand on the call stack.
pub proof fn lemma_relative_step(program: Seq<u8>, s: VmState, op: OpcodeByte)
    requires
        at_opcode(program, s, op),
        op == OpcodeByte::JumpRelSigned8 || op == OpcodeByte::JumpRelSigned16 || op
            == OpcodeByte::JumpRelSigned32 || op == OpcodeByte::JumpRelSigned64 || op
            == OpcodeByte::JumpIfZeroRelSigned8 || op == OpcodeByte::JumpIfZeroRelSigned16 || op
            == OpcodeByte::JumpIfZeroRelSigned32 || op == OpcodeByte::JumpIfZeroRelSigned64 || op
            == OpcodeByte::CallRelSigned8 || op == OpcodeByte::CallRelSigned16 || op
            == OpcodeByte::CallRelSigned32 || op == OpcodeByte::CallRelSigned64,
    ensures
        ({
            let w = offset_bytes(op);
            let next = s.ip + 1 + w;
            let offset = signed_in(bytes_le(program, s.ip + 1, w), w);
            let st = s.stack;
            let n = st.len();
            let r = next_state(program, s);
            let jump = op == OpcodeByte::JumpRelSigned8 || op == OpcodeByte::JumpRelSigned16 || op
                == OpcodeByte::JumpRelSigned32 || op == OpcodeByte::JumpRelSigned64;
            let call = op == OpcodeByte::CallRelSigned8 || op == OpcodeByte::CallRelSigned16 || op
                == OpcodeByte::CallRelSigned32 || op == OpcodeByte::CallRelSigned64;
            let conditional = !jump && !call;
            &&& next > program.len() ==> r == StepResult::Faulted(Fault::ProgramOutOfBounds)
            &&& next <= program.len() && jump ==> transfers(r, s, st, s.call_stack, next + offset)
            &&& next <= program.len() && call ==> transfers(
                r,
                s,
                st,
                s.call_stack.push(next as usize),
                next + offset,
            )
            &&& next <= program.len() && conditional && n == 0 ==> r == StepResult::Faulted(
                Fault::StackUnderflow,
            )
            &&& next <= program.len() && conditional && n > 0 && st[n - 1] == 0 ==> transfers(
                r,
                s,
                st.take(n - 1),
                s.call_stack,
                next + offset,
            )
            &&& next <= program.len() && conditional && n > 0 && st[n - 1] != 0 ==> r is Running
                && now_at(s, r->Running_0, st.take(n - 1), next)
        }),
{
    lemma_dispatch(program, s, op);
    lemma_pow256_eight();
    let w = offset_bytes(op);
    assert(crate::vm::operand_width(op) == w);
    let st = s.stack;
    if st.len() > 0 {
        assert(st.drop_last() =~= st.take(st.len() - 1));
    }
    if s.ip + 1 + w <= program.len() {
        lemma_le_value_window(program, s.ip + 1, w);
        lemma_bytes_le_bound(program, s.ip + 1, w);
        crate::encoding::lemma_pow256_monotone(w, 8);
        let u = bytes_le(program, s.ip + 1, w);
        let raw = u as Word;
        assert(raw as nat == u);
        lemma_signed_operand_value(raw, w);
    }
}

/// An indirect jump pops an address and continues there; an indirect call
/// also pushes the address after it on the call stack; a return pops the
/// call stack and continues at that address. `HALT` stops with the state
/// unchanged but for the instruction pointer, which moves past it.
pub proof fn lemma_control_step(program: Seq<u8>, s: VmState, op: OpcodeByte)
    requires
        at_opcode(program, s, op),
        op == OpcodeByte::JumpAbsIndirect || op == OpcodeByte::CallAbsIndirect || op
            == OpcodeByte::Return || op == OpcodeByte::Halt,
    ensures
        ({
            let st = s.stack;
            let n = st.len();
            let cs = s.call_stack;
            let r = next_state(program, s);
            let t = r->Running_0;
            &&& op == OpcodeByte::Halt ==> (r matches StepResult::Halted(h) && now_at(
                s,
                h,
                st,
                s.ip + 1,
            ))
            &&& op == OpcodeByte::Return && cs.len() == 0 ==> r == StepResult::Faulted(
                Fault::CallStackUnderflow,
            )
            &&& op == OpcodeByte::Return && cs.len() > 0 ==> r is Running && t.stack == st
                && t.memory == s.memory && t.call_stack == cs.take(cs.len() - 1) && t.ip == cs[cs.len()
                - 1]
            &&& (op == OpcodeByte::JumpAbsIndirect || op == OpcodeByte::CallAbsIndirect) && n == 0
                ==> r == StepResult::Faulted(Fault::StackUnderflow)
            &&& op == OpcodeByte::JumpAbsIndirect && n > 0 && st[n - 1] <= usize::MAX ==> r
                is Running && now_at(s, t, st.take(n - 1), st[n - 1] as int)
            &&& op == OpcodeByte::CallAbsIndirect && n > 0 && st[n - 1] <= usize::MAX ==> r
                is Running && t.stack == st.take(n - 1) && t.memory == s.memory && t.call_stack
                == cs.push((s.ip + 1) as usize) && t.ip == st[n - 1]
            &&& (op == OpcodeByte::JumpAbsIndirect || op == OpcodeByte::CallAbsIndirect) && n > 0
                && st[n - 1] > usize::MAX ==> r is Faulted
        }),
{
    lemma_dispatch(program, s, op);
    let st = s.stack;
    if st.len() > 0 {
        assert(st.drop_last() =~= st.take(st.len() - 1));
    }
    if s.call_stack.len() > 0 {
        assert(s.call_stack.drop_last() =~= s.call_stack.take(s.call_stack.len() - 1));
    }
}

/// The number of bytes a memory load or store accesses.
pub open spec fn access_bytes(op: OpcodeByte) -> nat {
    if op == OpcodeByte::MemLoad8 || op == OpcodeByte::MemStore8 {
        1
    } else if op == OpcodeByte::MemLoad16 || op == OpcodeByte::MemStore16 {
        2
    } else if op == OpcodeByte::MemLoad32 || op == OpcodeByte::MemStore32 {
        4
    } else {
        8
    }
}

/// `t` equals `m` outside the `len` bytes from `start` and has its length.
pub open spec fn same_outside(m: Seq<u8>, t: Seq<u8>, start: int, len: int) -> bool {
    &&& t.len() == m.len()
    &&& forall|j: int| 0 <= j < m.len() && !(start <= j < start + len) ==> #[trigger] t[j] == m[j]
}

/// Writing `bytes` into memory at `start` changes only those bytes.
proof fn lemma_splice(mem: Seq<u8>, start: int, bytes: Seq<u8>)
    requires
        0 <= start,
        start + bytes.len() <= mem.len(),
    ensures
        same_outside(mem, crate::vm::splice(mem, start, bytes), start, bytes.len() as int),
        crate::vm::splice(mem, start, bytes).subrange(start, start + bytes.len()) == bytes,
        forall|i: int| 0 <= i < bytes.len() ==> #[trigger] crate::vm::splice(mem, start, bytes)[start + i] == bytes[i],
{
    let m2 = crate::vm::splice(mem, start, bytes);
    let len = bytes.len() as int;
    assert forall|j: int| 0 <= j < mem.len() && !(start <= j < start + len) implies #[trigger] m2[j]
        == mem[j] by {
        if j < start {
            assert(m2[j] == mem.take(start)[j]);
        } else {
            assert(m2[j] == mem.skip(start + len)[j - start - len]);
        }
    }
    assert(m2.subrange(start, start + len) =~= bytes);
}

/// A load pops an address and pushes the little-endian number in the 1, 2,
/// 4 or 8 bytes of memory from there. An access past the end of memory
/// faults.
pub proof fn lemma_load_step(program: Seq<u8>, s: VmState, op: OpcodeByte)
    requires
        at_opcode(program, s, op),
        op == OpcodeByte::MemLoad8 || op == OpcodeByte::MemLoad16 || op == OpcodeByte::MemLoad32
            || op == OpcodeByte::MemLoad64,
    ensures
        ({
            let w = access_bytes(op);
            let st = s.stack;
            let n = st.len();
            let mem = s.memory;
            let r = next_state(program, s);
            let t = r->Running_0;
            &&& n == 0 ==> r == StepResult::Faulted(Fault::StackUnderflow)
            &&& n > 0 && st[n - 1] + w > mem.len() ==> r is Faulted
            &&& n > 0 && st[n - 1] + w <= mem.len() && st[n - 1] + w <= usize::MAX ==> r
                is Running && now_at(
                s,
                t,
                st.take(n - 1).push(bytes_le(mem, st[n - 1] as int, w) as Word),
                s.ip + 1,
            )
        }),
{
    lemma_dispatch(program, s, op);
    lemma_pow256_eight();
    let w = access_bytes(op);
    assert(crate::vm::access_width(op) == w);
    let st = s.stack;
    let n = st.len();
    let mem = s.memory;
    if n > 0 {
        assert(st.drop_last() =~= st.take(n - 1));
        let a = st[n - 1];
        if a + w <= mem.len() {
            lemma_le_value_window(mem, a as int, w);
        }
    }
}

/// A store pops a value and an address and writes the value's low 1, 2, 4
/// or 8 bytes there, least significant first, leaving the rest of memory as
/// it was. An access past the end of memory faults.
pub proof fn lemma_store_step(program: Seq<u8>, s: VmState, op: OpcodeByte)
    requires
        at_opcode(program, s, op),
        op == OpcodeByte::MemStore8 || op == OpcodeByte::MemStore16 || op
            == OpcodeByte::MemStore32 || op == OpcodeByte::MemStore64,
    ensures
        ({
            let w = access_bytes(op);
            let st = s.stack;
            let n = st.len();
            let mem = s.memory;
            let r = next_state(program, s);
            let t = r->Running_0;
            &&& n < 2 ==> r == StepResult::Faulted(Fault::StackUnderflow)
            &&& n >= 2 && st[n - 2] + w > mem.len() ==> r is Faulted
            &&& n >= 2 && st[n - 2] + w <= mem.len() && st[n - 2] + w <= usize::MAX ==> {
                &&& r is Running
                &&& t.stack == st.take(n - 2)
                &&& t.call_stack == s.call_stack
                &&& t.ip == s.ip + 1
                &&& same_outside(mem, t.memory, st[n - 2] as int, w as int)
                &&& bytes_le(t.memory, st[n - 2] as int, w) == (st[n - 1] as nat) % pow256(w)
            }
        }),
{
    lemma_dispatch(program, s, op);
    let w = access_bytes(op);
    assert(crate::vm::access_width(op) == w);
    let st = s.stack;
    let n = st.len();
    let mem = s.memory;
    if n >= 2 {
        assert(st.drop_last().drop_last() =~= st.take(n - 2));
        assert(st.drop_last().last() == st[n - 2]);
        let a = st[n - 2];
        let v = st[n - 1];
        if a + w <= mem.len() {
            let bytes = le_bytes(v as nat, w);
            lemma_le_bytes_len(v as nat, w);
            lemma_le_value_of_bytes(v as nat, w);
            lemma_splice(mem, a as int, bytes);
            lemma_le_value_window(crate::vm::splice(mem, a as int, bytes), a as int, w);
        }
    }
}

/// A copy pops a length, a source and a destination address and writes the
/// source bytes (as they were before the copy) to the destination, leaving
/// the rest of memory as it was; a fill pops a length, a value and an
/// address and sets that many bytes to the value's low byte. A range past
/// the end of memory faults.
pub proof fn lemma_copy_fill_step(program: Seq<u8>, s: VmState, op: OpcodeByte)
    requires
        at_opcode(program, s, op),
        op == OpcodeByte::MemCopy8 || op == OpcodeByte::MemFill8,
    ensures
        ({
            let st = s.stack;
            let n = st.len();
            let mem = s.memory;
            let r = next_state(program, s);
            let t = r->Running_0;
            &&& n < 3 ==> r == StepResult::Faulted(Fault::StackUnderflow)
            &&& n >= 3 ==> {
                let len = st[n - 1];
                let second = st[n - 2];
                let third = st[n - 3];
                &&& op == OpcodeByte::MemCopy8 && (second + len > mem.len() || third + len
                    > mem.len()) ==> r is Faulted
                &&& op == OpcodeByte::MemCopy8 && second + len <= mem.len() && third + len
                    <= mem.len() && second + len <= usize::MAX && third + len <= usize::MAX ==> {
                    &&& r is Running
                    &&& t.stack == st.take(n - 3)
                    &&& t.call_stack == s.call_stack
                    &&& t.ip == s.ip + 1
                    &&& same_outside(mem, t.memory, third as int, len as int)
                    &&& forall|i: int| 0 <= i < len ==> #[trigger] t.memory[third + i] == mem[second + i]
                }
                &&& op == OpcodeByte::MemFill8 && third + len > mem.len() ==> r is Faulted
                &&& op == OpcodeByte::MemFill8 && third + len <= mem.len() && third + len
                    <= usize::MAX ==> {
                    &&& r is Running
                    &&& t.stack == st.take(n - 3)
                    &&& t.call_stack == s.call_stack
                    &&& t.ip == s.ip + 1
                    &&& same_outside(mem, t.memory, third as int, len as int)
                    &&& forall|i: int| 0 <= i < len ==> #[trigger] t.memory[third + i] == (second as nat) % 256
                }
            }
        }),
{
    lemma_dispatch(program, s, op);
    let st = s.stack;
    let n = st.len();
    let mem = s.memory;
    if n >= 3 {
        assert(st.drop_last().drop_last().drop_last() =~= st.take(n - 3));
        assert(st.drop_last().last() == st[n - 2]);
        assert(st.drop_last().drop_last().last() == st[n - 3]);
        let len = st[n - 1];
        let second = st[n - 2];
        let third = st[n - 3];
        if third + len <= mem.len() && third + len <= usize::MAX {
            let bytes = if op == OpcodeByte::MemCopy8 {
                mem.subrange(second as int, second + len)
            } else {
                Seq::new(len as nat, |i: int| second as u8)
            };
            if op == OpcodeByte::MemCopy8 ==> second + len <= mem.len() {
                lemma_splice(mem, third as int, bytes);
                if op == OpcodeByte::MemFill8 {
                    assert((second as u8) as int == second % 256) by (bit_vector);
                }
            }
        }
    }
}

/// Bit `i` of `x`: whether `x / 2^i` is odd.
pub open spec fn bit(x: Word, i: nat) -> bool {
    (x as nat / vstd::arithmetic::power2::pow2(i)) % 2 == 1
}

proof fn lemma_bit_of(x: u64, i: u64)
    requires
        i < 64,
    ensures
        bit(x, i as nat) == ((x >> i) & 1 == 1),
{
    vstd::bits::lemma_u64_shr_is_div(x, i);
    assert((x >> i) & 1 == (x >> i) % 2) by (bit_vector);
}

proof fn lemma_bitwise_bits(a: u64, b: u64, k: u64, i: u64)
    requires
        i < 64,
        k < 64,
    ensures
        bit(a & b, i as nat) == (bit(a, i as nat) && bit(b, i as nat)),
        bit(a | b, i as nat) == (bit(a, i as nat) || bit(b, i as nat)),
        bit(a ^ b, i as nat) == (bit(a, i as nat) != bit(b, i as nat)),
        bit(a << k, i as nat) == (i >= k && bit(a, (i - k) as nat)),
        bit(a >> k, i as nat) == (i + k < 64 && bit(a, (i + k) as nat)),
        bit(((a as i64) >> k) as u64, i as nat) == if i + k < 64 {
            bit(a, (i + k) as nat)
        } else {
            bit(a, 63)
        },
{
    lemma_bit_of(a & b, i);
    lemma_bit_of(a | b, i);
    lemma_bit_of(a ^ b, i);
    lemma_bit_of(a << k, i);
    lemma_bit_of(a >> k, i);
    lemma_bit_of(((a as i64) >> k) as u64, i);
    lemma_bit_of(a, i);
    lemma_bit_of(b, i);
    lemma_bit_of(a, 63);
    assert(i < 64 && k < 64 ==> {
        &&& (((a & b) >> i) & 1 == 1) == ((a >> i) & 1 == 1 && (b >> i) & 1 == 1)
        &&& (((a | b) >> i) & 1 == 1) == ((a >> i) & 1 == 1 || (b >> i) & 1 == 1)
        &&& (((a ^ b) >> i) & 1 == 1) == (((a >> i) & 1 == 1) != ((b >> i) & 1 == 1))
    }) by (bit_vector);
    assert(i < 64 && k < 64 ==> {
        &&& k <= i ==> ((a << k) >> i) & 1 == (a >> ((i - k) as u64)) & 1
        &&& i < k ==> ((a << k) >> i) & 1 == 0
        &&& i + k < 64 ==> ((a >> k) >> i) & 1 == (a >> ((i + k) as u64)) & 1
        &&& i + k >= 64 ==> ((a >> k) >> i) & 1 == 0
    }) by (bit_vector);
    assert(i < 64 && k < 64 ==> {
        &&& i + k < 64 ==> ((((a as i64) >> k) as u64) >> i) & 1 == (a >> ((i + k) as u64)) & 1
        &&& i + k >= 64 ==> ((((a as i64) >> k) as u64) >> i) & 1 == (a >> 63) & 1
    }) by (bit_vector);
    if i >= k {
        lemma_bit_of(a, (i - k) as u64);
    }
    if i + k < 64 {
        lemma_bit_of(a, (i + k) as u64);
    }
}

/// Bit `i` of `r` is what `op` makes of the bits of `a` and `b`, with shift
/// amount `k`.
pub open spec fn bit_follows(op: OpcodeByte, a: Word, b: Word, k: nat, r: Word, i: nat) -> bool {
    &&& op == OpcodeByte::BitAnd ==> bit(r, i) == (bit(a, i) && bit(b, i))
    &&& op == OpcodeByte::BitOr ==> bit(r, i) == (bit(a, i) || bit(b, i))
    &&& op == OpcodeByte::BitXor ==> bit(r, i) == (bit(a, i) != bit(b, i))
    &&& op == OpcodeByte::ShiftLeft ==> bit(r, i) == (i >= k && bit(a, (i - k) as nat))
    &&& op == OpcodeByte::LogicShiftRight ==> bit(r, i) == (i + k < 64 && bit(a, (i + k) as nat))
    &&& op == OpcodeByte::ArithShiftRight ==> bit(r, i) == if i + k < 64 {
        bit(a, (i + k) as nat)
    } else {
        bit(a, 63)
    }
}

/// Every bit of `r` is what `op` makes of the bits of `a` and `b`.
pub open spec fn bits_follow(op: OpcodeByte, a: Word, b: Word, k: nat, r: Word) -> bool {
    forall|i: nat| i < 64 ==> #[trigger] bit_follows(op, a, b, k, r, i)
}

/// The bitwise instructions pop `a` (the deeper) and `b` and push the word
/// whose every bit is the conjunction, disjunction or exclusive or of the
/// bits of `a` and `b` there. The shifts move the bits of `a` by `b`
/// modulo 64: left, bringing in zeros; logically right, bringing in zeros;
/// arithmetically right, bringing in copies of the top bit.
pub proof fn lemma_bitwise_step(program: Seq<u8>, s: VmState, op: OpcodeByte)
    requires
        at_opcode(program, s, op),
        s.stack.len() >= 2,
        op == OpcodeByte::BitAnd || op == OpcodeByte::BitOr || op == OpcodeByte::BitXor || op
            == OpcodeByte::ShiftLeft || op == OpcodeByte::LogicShiftRight || op
            == OpcodeByte::ArithShiftRight,
    ensures
        ({
            let a = s.stack[s.stack.len() - 2];
            let b = s.stack[s.stack.len() - 1];
            let t = next_state(program, s)->Running_0;
            let r = t.stack.last();
            &&& next_state(program, s) is Running
            &&& replaces_two(s, t, r)
            &&& bits_follow(op, a, b, (b % 64) as nat, r)
        }),
{
    lemma_dispatch(program, s, op);
    let a = s.stack[s.stack.len() - 2];
    let b = s.stack[s.stack.len() - 1];
    assert(s.stack.drop_last().last() == a);
    assert(s.stack.drop_last().drop_last() =~= s.stack.take(s.stack.len() - 2));
    assert(b & 0x3F == b % 64 && b & 0x3F < 64) by (bit_vector);
    let k = b & 0x3F;
    let r = crate::vm::binary_result(op, a, b)->Ok_0;
    assert forall|i: nat| i < 64 implies #[trigger] bit_follows(op, a, b, k as nat, r, i) by {
        lemma_bitwise_bits(a, b, k, i as u64);
    }
    assert(bits_follow(op, a, b, k as nat, r));
}

/// A step with the instruction pointer past the end of the program faults,
/// and so does one at a byte that encodes no instruction (`0x3E..=0x8F` and
/// `0xE0..=0xFE`), naming the byte.
pub proof fn lemma_no_instruction_step(program: Seq<u8>, s: VmState)
    ensures
        s.ip >= program.len() ==> next_state(program, s) == StepResult::Faulted(
            Fault::ProgramOutOfBounds,
        ),
        s.ip < program.len() && (0x3E <= program[s.ip as int] <= 0x8F || 0xE0
            <= program[s.ip as int] <= 0xFE) ==> next_state(program, s) == StepResult::Faulted(
            Fault::UnknownOpcode(program[s.ip as int]),
        ),
{
}

} // verus!
