//! What the virtual machine does with the bytes the assembler emits: a push
//! pushes its literal, a relative jump or call reaches its label, and a
//! pushed address is its label's address.
use vstd::prelude::*;
use crate::assembler::emit::{
    encode_push, encode_relative, operand_bytes, relative_opcode, signed4_base, wrap64,
};
use crate::assembler::emit::{emit_items, encode_instruction, lemma_emit_size};
use crate::assembler::layout::{
    all_offsets_fit, items_size, label_table, lemma_items_size_bound, lemma_items_size_prefix,
    lemma_relax_fits, lookup, offset_fits, relax, size_of_instruction, width_size,
};
use crate::assembler::parse::{
    decimal_literal, decimal_operand, halt_line, lemma_decimal_operand, lemma_halt_line,
    lemma_numeral_len, lemma_numeral_value, lemma_one_line, lemma_push_line,
    lemma_source_items_count, lemma_source_items_join, lemma_unsigned_numerals, numeral,
    push_line, source_items,
};
use crate::assembler::emit::lemma_emit_ok_iff_labels_found;
use crate::assembler::{
    assembly, AssemblyError, AssemblyInstruction, AssemblyItem, IntegerLiteral,
    RelativeInstructionKind,
    RelativeWidth, Text,
};
use crate::encoding::{
    le_bytes, le_value, lemma_le_bytes_len, lemma_le_value_of_bytes, lemma_pow256_eight, pow256,
};
use crate::opcodes::{lemma_decode_byte, OpcodeByte};
use crate::vm::{
    drop_word, final_state, halts, initial_state, lemma_run_deterministic, next_state,
    nibble_offset, push_word, run, signed_operand, with_ip, StepResult, VmState, Word,
};

verus! {

/// The word a push of `lit` leaves on the stack: its 64-bit two's-complement bits.
pub open spec fn literal_word(lit: IntegerLiteral) -> Word {
    match lit {
        IntegerLiteral::Unsigned(u) => u,
        IntegerLiteral::Signed(v) => wrap64(v as int) as Word,
    }
}

/// `bytes` stand in `program` at `at`.
pub open spec fn holds_at(program: Seq<u8>, at: int, bytes: Seq<u8>) -> bool {
    &&& 0 <= at
    &&& at + bytes.len() <= program.len()
    &&& program.subrange(at, at + bytes.len()) == bytes
}

proof fn lemma_cast_u8_i8(b: u8)
    ensures
        b >= 128 ==> (b as i8) as int == b - 256,
        b < 128 ==> (b as i8) as int == b as int,
{
    assert(b >= 128 ==> (b as i8) as i16 == (b as i16) - 256) by (bit_vector);
    assert(b < 128 ==> (b as i8) as i16 == (b as i16)) by (bit_vector);
}

proof fn lemma_cast_u16_i16(b: u16)
    ensures
        b >= 0x8000 ==> (b as i16) as int == b - 0x1_0000,
        b < 0x8000 ==> (b as i16) as int == b as int,
{
    assert(b >= 0x8000 ==> (b as i16) as i32 == (b as i32) - 0x1_0000) by (bit_vector);
    assert(b < 0x8000 ==> (b as i16) as i32 == (b as i32)) by (bit_vector);
}

proof fn lemma_cast_u32_i32(b: u32)
    ensures
        b >= 0x8000_0000 ==> (b as i32) as int == b - 0x1_0000_0000,
        b < 0x8000_0000 ==> (b as i32) as int == b as int,
{
    assert(b >= 0x8000_0000 ==> (b as i32) as i64 == (b as i64) - 0x1_0000_0000) by (bit_vector);
    assert(b < 0x8000_0000 ==> (b as i32) as i64 == (b as i64)) by (bit_vector);
}

proof fn lemma_cast_u64_i64(b: u64)
    ensures
        b >= 0x8000_0000_0000_0000 ==> (b as i64) as int == b - 0x1_0000_0000_0000_0000,
        b < 0x8000_0000_0000_0000 ==> (b as i64) as int == b as int,
{
    assert(b >= 0x8000_0000_0000_0000 ==> (b as i64) as i128 == (b as i128)
        - 0x1_0000_0000_0000_0000i128) by (bit_vector);
    assert(b < 0x8000_0000_0000_0000 ==> (b as i64) as i128 == (b as i128)) by (bit_vector);
}

/// The two's-complement bits of an `i64`.
proof fn lemma_cast_i64_u64(x: i64)
    ensures
        (x as u64) as int == wrap64(x as int),
{
    assert(x < 0 ==> (x as u64) as i128 == (x as i128) + 0x1_0000_0000_0000_0000i128)
        by (bit_vector);
    assert(x >= 0 ==> (x as u64) as i128 == (x as i128)) by (bit_vector);
}

/// The low `n` bytes of the two's-complement bits of an offset that fits `n`
/// bytes, read back as a signed operand, give the offset.
proof fn lemma_signed_operand(x: int, n: nat)
    requires
        n == 1 || n == 2 || n == 4 || n == 8,
        n == 1 ==> -0x80 <= x < 0x80,
        n == 2 ==> -0x8000 <= x < 0x8000,
        n == 4 ==> -0x8000_0000 <= x < 0x8000_0000,
        n == 8 ==> -0x8000_0000_0000_0000 <= x < 0x8000_0000_0000_0000,
    ensures
        signed_operand((wrap64(x) % pow256(n)) as Word, n) as int == x,
{
    lemma_pow256_eight();
    let w = wrap64(x);
    if x >= 0 {
        assert(w == x);
    } else {
        assert(w == x + 0x1_0000_0000_0000_0000);
    }
    let r = w % pow256(n);
    if n == 1 {
        if x >= 0 {
            assert(r == x);
        } else {
            assert(r == x + 0x100);
        }
        lemma_cast_u8_i8(r as u8);
    } else if n == 2 {
        if x >= 0 {
            assert(r == x);
        } else {
            assert(r == x + 0x1_0000);
        }
        lemma_cast_u16_i16(r as u16);
    } else if n == 4 {
        if x >= 0 {
            assert(r == x);
        } else {
            assert(r == x + 0x1_0000_0000);
        }
        lemma_cast_u32_i32(r as u32);
    } else {
        assert(r == w);
        lemma_cast_u64_i64(r as u64);
    }
}


/// What a relative jump, conditional jump or call to `target` does from `s`,
/// whose instruction pointer already points past the instruction.
pub open spec fn transfer(kind: RelativeInstructionKind, s: VmState, target: usize) -> StepResult {
    match kind {
        RelativeInstructionKind::Jump => StepResult::Running(with_ip(s, target)),
        RelativeInstructionKind::JumpIfZero => if s.stack.len() == 0 {
            StepResult::Faulted(crate::vm::Fault::StackUnderflow)
        } else if s.stack.last() == 0 {
            StepResult::Running(with_ip(drop_word(s), target))
        } else {
            StepResult::Running(drop_word(s))
        },
        RelativeInstructionKind::Call => StepResult::Running(
            VmState { call_stack: s.call_stack.push(s.ip), ip: target, ..s },
        ),
    }
}

/// The low nibble of a short form with base `base` and unsigned operand `r`
/// is `r`; its top bit is set exactly when `r` is 8 or more.
pub proof fn lemma_low_nibble(base: u8, r: u8)
    requires
        base % 16 == 0,
        r < 16,
        base as int + r as int <= 0xFF,
    ensures
        ((base + r) as u8) & 0x0F == r,
        (r & 0x08 != 0) == (r >= 8),
{
    assert(base % 16 == 0 ==> base & 0x0F == 0) by (bit_vector);
    assert(base & 0x0F == 0 && r < 16 && base as int + r as int <= 0xFF ==> ((base + r) as u8)
        & 0x0F == r) by (bit_vector);
    assert(r < 16 ==> ((r & 0x08 != 0) == (r >= 8))) by (bit_vector);
}

/// Decoding inverts the 4-bit encoding: the low nibble of the short form with
/// offset `x` in -8..=7, read back as a signed nibble, is `x`.
pub proof fn lemma_nibble(base: u8, x: int)
    requires
        -8 <= x <= 7,
        base % 16 == 0,
        base <= 0xF0,
    ensures
        nibble_offset((base + wrap64(x) % 16) as u8) == x,
{
    let r = wrap64(x) % 16;
    if x >= 0 {
        assert(wrap64(x) == x);
        assert(r == x);
    } else {
        assert(wrap64(x) == x + 0x1_0000_0000_0000_0000);
        assert(r == x + 16);
    }
    lemma_low_nibble(base, r as u8);
}

/// `bytes` at `at` in `program`: their first byte, and the rest from `at + 1`.
proof fn lemma_holds_split(program: Seq<u8>, at: int, bytes: Seq<u8>)
    requires
        holds_at(program, at, bytes),
        bytes.len() >= 1,
    ensures
        program[at] == bytes[0],
        program.subrange(at + 1, at + bytes.len()) == bytes.drop_first(),
{
    assert(program.subrange(at, at + bytes.len())[0] == program[at]);
    assert(program.subrange(at + 1, at + bytes.len()) =~= bytes.drop_first());
}

/// Executing the bytes the assembler emits for a push pushes the literal's
/// 64-bit two's-complement bits and moves past them.
pub proof fn lemma_push_executes(program: Seq<u8>, s: VmState, lit: IntegerLiteral)
    requires
        holds_at(program, s.ip as int, encode_push(lit)),
        s.ip + encode_push(lit).len() <= usize::MAX,
    ensures
        next_state(program, s) == StepResult::Running(
            push_word(with_ip(s, (s.ip + encode_push(lit).len()) as usize), literal_word(lit)),
        ),
{
    lemma_pow256_eight();
    reveal_with_fuel(le_bytes, 9);
    lemma_holds_split(program, s.ip as int, encode_push(lit));
    match lit {
        IntegerLiteral::Unsigned(u) => {
            if u <= 15 {
                lemma_low_nibble(0x90, u as u8);
            } else {
                lemma_push_unsigned_wide(program, s, u);
            }
        },
        IntegerLiteral::Signed(v) => {
            lemma_cast_i64_u64(v);
            if -8 <= v < 8 {
                lemma_nibble(0xA0, v as int);
            } else {
                lemma_push_signed_wide(program, s, v);
            }
        },
    }
}

#[verifier::rlimit(60)]
proof fn lemma_push_unsigned_wide(program: Seq<u8>, s: VmState, u: u64)
    requires
        u > 15,
        holds_at(program, s.ip as int, encode_push(IntegerLiteral::Unsigned(u))),
        s.ip + encode_push(IntegerLiteral::Unsigned(u)).len() <= usize::MAX,
    ensures
        next_state(program, s) == StepResult::Running(
            push_word(
                with_ip(s, (s.ip + encode_push(IntegerLiteral::Unsigned(u)).len()) as usize),
                u,
            ),
        ),
{
    let bytes = encode_push(IntegerLiteral::Unsigned(u));
    lemma_pow256_eight();
    reveal_with_fuel(le_bytes, 9);
    lemma_holds_split(program, s.ip as int, bytes);
    let n: nat = if u <= 0xFF {
        1
    } else if u <= 0xFFFF {
        2
    } else if u <= 0xFFFF_FFFF {
        4
    } else {
        8
    };
    let op = if n == 1 {
        OpcodeByte::PushUnsigned8
    } else if n == 2 {
        OpcodeByte::PushUnsigned16
    } else if n == 4 {
        OpcodeByte::PushUnsigned32
    } else {
        OpcodeByte::Push64
    };
    assert(bytes =~= seq![op.byte()] + le_bytes(u as nat, n));
    assert(bytes.drop_first() =~= le_bytes(u as nat, n));
    lemma_le_value_of_bytes(u as nat, n);
    lemma_decode_byte(op);
    crate::encoding::lemma_pow256_monotone(n, 8);
    assert(u < pow256(n));
    let t = with_ip(s, (s.ip + 1) as usize);
    assert(program[s.ip as int] == op.byte());
    assert(crate::vm::operand_width(op) == n);
    assert(program.subrange(t.ip as int, t.ip + n) == le_bytes(u as nat, n));
    assert(crate::vm::operand(program, t.ip, n) == Some((u, (t.ip + n) as usize)));
    assert(crate::vm::immediate_step(program, t, op) == StepResult::Running(push_word(with_ip(t, (t.ip + n) as usize), u)));
    assert(crate::vm::opcode_step(program, t, op) == crate::vm::immediate_step(program, t, op));
}

#[verifier::rlimit(60)]
proof fn lemma_push_signed_wide(program: Seq<u8>, s: VmState, v: i64)
    requires
        !(-8 <= v < 8),
        holds_at(program, s.ip as int, encode_push(IntegerLiteral::Signed(v))),
        s.ip + encode_push(IntegerLiteral::Signed(v)).len() <= usize::MAX,
    ensures
        next_state(program, s) == StepResult::Running(
            push_word(
                with_ip(s, (s.ip + encode_push(IntegerLiteral::Signed(v)).len()) as usize),
                wrap64(v as int) as Word,
            ),
        ),
{
    let bytes = encode_push(IntegerLiteral::Signed(v));
    lemma_pow256_eight();
    reveal_with_fuel(le_bytes, 9);
    lemma_holds_split(program, s.ip as int, bytes);
    lemma_cast_i64_u64(v);
    let n: nat = if i8::MIN <= v <= i8::MAX {
        1
    } else if i16::MIN <= v <= i16::MAX {
        2
    } else if i32::MIN <= v <= i32::MAX {
        4
    } else {
        8
    };
    let op = if n == 1 {
        OpcodeByte::PushSigned8
    } else if n == 2 {
        OpcodeByte::PushSigned16
    } else if n == 4 {
        OpcodeByte::PushSigned32
    } else {
        OpcodeByte::Push64
    };
    assert(bytes =~= seq![op.byte()] + le_bytes(wrap64(v as int), n));
    assert(bytes.drop_first() =~= le_bytes(wrap64(v as int), n));
    lemma_le_value_of_bytes(wrap64(v as int), n);
    lemma_signed_operand(v as int, n);
    lemma_decode_byte(op);
    crate::encoding::lemma_pow256_monotone(n, 8);
    let t = with_ip(s, (s.ip + 1) as usize);
    let raw = (wrap64(v as int) % pow256(n)) as Word;
    assert(program[s.ip as int] == op.byte());
    assert(crate::vm::operand_width(op) == n);
    assert(program.subrange(t.ip as int, t.ip + n) == le_bytes(wrap64(v as int), n));
    assert(crate::vm::operand(program, t.ip, n) == Some((raw, (t.ip + n) as usize)));
    assert(signed_operand(raw, n) == v);
    assert(crate::vm::immediate_word(op, raw) == wrap64(v as int) as Word);
    assert(crate::vm::immediate_step(program, t, op) == StepResult::Running(
        push_word(with_ip(t, (t.ip + n) as usize), wrap64(v as int) as Word),
    ));
    assert(crate::vm::opcode_step(program, t, op) == crate::vm::immediate_step(program, t, op));
}

/// Executing the bytes the assembler emits for a push of a label address
/// pushes the address and moves past the nine bytes.
#[verifier::rlimit(60)]
pub proof fn lemma_push_address_executes(program: Seq<u8>, s: VmState, target: nat)
    requires
        target < 0x1_0000_0000_0000_0000,
        holds_at(program, s.ip as int, seq![OpcodeByte::Push64.byte()] + le_bytes(target, 8)),
        s.ip + 9 <= usize::MAX,
    ensures
        next_state(program, s) == StepResult::Running(
            push_word(with_ip(s, (s.ip + 9) as usize), target as Word),
        ),
{
    let bytes = seq![OpcodeByte::Push64.byte()] + le_bytes(target, 8);
    lemma_pow256_eight();
    lemma_le_bytes_len(target, 8);
    lemma_holds_split(program, s.ip as int, bytes);
    assert(bytes.drop_first() =~= le_bytes(target, 8));
    lemma_le_value_of_bytes(target, 8);
    lemma_decode_byte(OpcodeByte::Push64);
    let t = with_ip(s, (s.ip + 1) as usize);
    assert(program[s.ip as int] == OpcodeByte::Push64.byte());
    assert(program.subrange(t.ip as int, t.ip + 8) == le_bytes(target, 8));
    assert(crate::vm::operand(program, t.ip, 8) == Some((target as Word, (t.ip + 8) as usize)));
    assert(crate::vm::immediate_step(program, t, OpcodeByte::Push64) == StepResult::Running(
        push_word(with_ip(t, (t.ip + 8) as usize), target as Word),
    ));
    assert(crate::vm::opcode_step(program, t, OpcodeByte::Push64) == crate::vm::immediate_step(
        program,
        t,
        OpcodeByte::Push64,
    ));
}

/// Executing the bytes the assembler emits for a relative jump, conditional
/// jump or call whose offset fits its width transfers control to its target.
#[verifier::rlimit(60)]
pub proof fn lemma_relative_executes(
    program: Seq<u8>,
    s: VmState,
    kind: RelativeInstructionKind,
    w: RelativeWidth,
    target: usize,
)
    requires
        offset_fits(w, target - (s.ip + width_size(w))),
        holds_at(program, s.ip as int, encode_relative(kind, w, target - (s.ip + width_size(w)))),
        s.ip + width_size(w) <= usize::MAX,
    ensures
        next_state(program, s) == transfer(
            kind,
            with_ip(s, (s.ip + width_size(w)) as usize),
            target,
        ),
{
    let offset = target - (s.ip + width_size(w));
    let bytes = encode_relative(kind, w, offset);
    lemma_pow256_eight();
    reveal_with_fuel(le_bytes, 9);
    lemma_holds_split(program, s.ip as int, bytes);
    if w == RelativeWidth::Signed4 {
        lemma_nibble(signed4_base(kind), offset);
    } else {
        let n = operand_bytes(w);
        assert(bytes.drop_first() =~= le_bytes(wrap64(offset), n));
        lemma_le_value_of_bytes(wrap64(offset), n);
        lemma_signed_operand(offset, n);
        lemma_decode_byte(relative_opcode(kind, w));
    }
}


/// In the bytes emitted for `items`, each instruction's encoding stands at its address.
pub proof fn lemma_emitted_at(items: Seq<AssemblyItem<Text>>, table: Seq<(Text, nat)>, k: int)
    requires
        emit_items(items, table) is Ok,
        0 <= k < items.len(),
        items[k] is Instruction,
    ensures
        encode_instruction(items[k]->Instruction_0, table, items_size(items.take(k))) is Ok,
        holds_at(
            emit_items(items, table)->Ok_0,
            items_size(items.take(k)) as int,
            encode_instruction(items[k]->Instruction_0, table, items_size(items.take(k)))->Ok_0,
        ),
    decreases items.len(),
{
    let prefix = items.drop_last();
    let before = emit_items(prefix, table)->Ok_0;
    let bytes = emit_items(items, table)->Ok_0;
    lemma_emit_size(prefix, table);
    assert(bytes.subrange(0, before.len() as int) =~= before);
    if k == items.len() - 1 {
        assert(items.take(k) =~= prefix);
        let b = encode_instruction(items[k]->Instruction_0, table, before.len())->Ok_0;
        assert(bytes.subrange(before.len() as int, (before.len() + b.len()) as int) =~= b);
    } else {
        lemma_emitted_at(prefix, table, k);
        assert(prefix.take(k) =~= items.take(k));
        let at = items_size(items.take(k)) as int;
        let b = encode_instruction(items[k]->Instruction_0, table, items_size(items.take(k)))->Ok_0;
        assert(bytes.subrange(at, at + b.len()) =~= before.subrange(at, at + b.len()));
    }
}

/// A label's address is the address of its definition: the size of the items before it.
pub proof fn lemma_label_address(items: Seq<AssemblyItem<Text>>, name: Text)
    requires
        label_table(items) is Ok,
        lookup(label_table(items)->Ok_0, name) is Some,
    ensures
        exists|j: int|
            0 <= j < items.len() && #[trigger] items[j] == AssemblyItem::<Text>::Label(name)
                && lookup(label_table(items)->Ok_0, name)->Some_0 == items_size(items.take(j)),
        lookup(label_table(items)->Ok_0, name)->Some_0 <= items_size(items),
    decreases items.len(),
{
    let prefix = items.drop_last();
    let t = label_table(prefix)->Ok_0;
    lemma_items_size_prefix(items, items.len() - 1);
    assert(items.take(items.len() - 1) =~= prefix);
    match items.last() {
        AssemblyItem::Label(n) => {
            if n == name {
                assert(items[items.len() - 1] == AssemblyItem::<Text>::Label(name));
            } else {
                assert(label_table(items)->Ok_0.drop_last() =~= t);
                lemma_label_address(prefix, name);
                let j = choose|j: int|
                    0 <= j < prefix.len() && #[trigger] prefix[j] == AssemblyItem::<Text>::Label(name)
                        && lookup(t, name)->Some_0 == items_size(prefix.take(j));
                assert(prefix.take(j) =~= items.take(j));
                assert(items[j] == prefix[j]);
            }
        },
        AssemblyItem::Instruction(_) => {
            lemma_label_address(prefix, name);
            let j = choose|j: int|
                0 <= j < prefix.len() && #[trigger] prefix[j] == AssemblyItem::<Text>::Label(name)
                    && lookup(t, name)->Some_0 == items_size(prefix.take(j));
            assert(prefix.take(j) =~= items.take(j));
            assert(items[j] == prefix[j]);
        },
    }
}

/// The relaxed items of a source text that assembles.
pub open spec fn assembled_items(source: Text) -> Seq<AssemblyItem<Text>> {
    relax(source_items(source)->Ok_0)->Ok_0
}

/// The label table of a source text that assembles.
pub open spec fn assembled_labels(source: Text) -> Seq<(Text, nat)> {
    label_table(assembled_items(source))->Ok_0
}

/// The address of item `k` of an assembled source text.
pub open spec fn item_address(source: Text, k: int) -> nat {
    items_size(assembled_items(source).take(k))
}

proof fn lemma_assembled_bounds(source: Text)
    requires
        assembly(source) is Ok,
        3 * source.len() + 12 <= usize::MAX,
    ensures
        9 * assembled_items(source).len() + 9 <= usize::MAX,
        items_size(assembled_items(source)) + 9 <= usize::MAX,
        label_table(assembled_items(source)) is Ok,
        all_offsets_fit(assembled_items(source), assembled_labels(source)),
        emit_items(assembled_items(source), assembled_labels(source)) == assembly(source),
{
    let parsed = source_items(source)->Ok_0;
    lemma_source_items_count(source);
    lemma_relax_fits(parsed);
    lemma_items_size_bound(assembled_items(source));
}

/// In an assembled program, the relative jump, conditional jump or call of
/// item `k` transfers control to the address of the definition of its label.
pub proof fn lemma_assembled_transfer(source: Text, k: int, s: VmState)
    requires
        assembly(source) is Ok,
        3 * source.len() + 12 <= usize::MAX,
        0 <= k < assembled_items(source).len(),
        assembled_items(source)[k] matches AssemblyItem::Instruction(
            AssemblyInstruction::Relative { .. },
        ),
        s.ip == item_address(source, k),
    ensures
        ({
            let instruction = assembled_items(source)[k]->Instruction_0;
            let target = lookup(assembled_labels(source), instruction->label_name)->Some_0;
            &&& exists|j: int|
                0 <= j < assembled_items(source).len() && #[trigger] assembled_items(source)[j]
                    == AssemblyItem::<Text>::Label(instruction->label_name)
                    && target == item_address(source, j)
            &&& next_state(assembly(source)->Ok_0, s) == transfer(
                instruction->kind,
                with_ip(s, (s.ip + width_size(instruction->width)) as usize),
                target as usize,
            )
        }),
{
    let items = assembled_items(source);
    let table = assembled_labels(source);
    lemma_assembled_bounds(source);
    let instruction = items[k]->Instruction_0;
    let kind = instruction->kind;
    let label_name = instruction->label_name;
    let width = instruction->width;
    let target = lookup(table, label_name)->Some_0;
    lemma_label_address(items, label_name);
    lemma_emitted_at(items, table, k);
    lemma_items_size_prefix(items, k);
    lemma_relative_executes(assembly(source)->Ok_0, s, kind, width, target as usize);
}

/// In an assembled program, the push of item `k` pushes its literal.
pub proof fn lemma_assembled_push(source: Text, k: int, s: VmState)
    requires
        assembly(source) is Ok,
        3 * source.len() + 12 <= usize::MAX,
        0 <= k < assembled_items(source).len(),
        assembled_items(source)[k] matches AssemblyItem::Instruction(AssemblyInstruction::Push(_)),
        s.ip == item_address(source, k),
    ensures
        ({
            let lit = assembled_items(source)[k]->Instruction_0->Push_0;
            next_state(assembly(source)->Ok_0, s) == StepResult::Running(
                push_word(
                    with_ip(s, (s.ip + size_of_instruction(AssemblyInstruction::<Text>::Push(lit))) as usize),
                    literal_word(lit),
                ),
            )
        }),
{
    let items = assembled_items(source);
    let table = assembled_labels(source);
    lemma_assembled_bounds(source);
    let lit = items[k]->Instruction_0->Push_0;
    lemma_emitted_at(items, table, k);
    lemma_items_size_prefix(items, k);
    crate::assembler::emit::lemma_encode_size(items[k]->Instruction_0, table, s.ip as nat);
    lemma_push_executes(assembly(source)->Ok_0, s, lit);
}

/// In an assembled program, the push of a label address of item `k` pushes
/// the address of the definition of that label.
pub proof fn lemma_assembled_push_address(source: Text, k: int, s: VmState)
    requires
        assembly(source) is Ok,
        3 * source.len() + 12 <= usize::MAX,
        0 <= k < assembled_items(source).len(),
        assembled_items(source)[k] matches AssemblyItem::Instruction(
            AssemblyInstruction::PushAddress(_),
        ),
        s.ip == item_address(source, k),
    ensures
        ({
            let name = assembled_items(source)[k]->Instruction_0->PushAddress_0;
            let target = lookup(assembled_labels(source), name)->Some_0;
            &&& exists|j: int|
                0 <= j < assembled_items(source).len() && #[trigger] assembled_items(source)[j]
                    == AssemblyItem::<Text>::Label(name) && target == item_address(source, j)
            &&& next_state(assembly(source)->Ok_0, s) == StepResult::Running(
                push_word(with_ip(s, (s.ip + 9) as usize), target as Word),
            )
        }),
{
    let items = assembled_items(source);
    let table = assembled_labels(source);
    lemma_assembled_bounds(source);
    let name = items[k]->Instruction_0->PushAddress_0;
    let target = lookup(table, name)->Some_0;
    lemma_emitted_at(items, table, k);
    lemma_label_address(items, name);
    lemma_items_size_prefix(items, k);
    lemma_push_address_executes(assembly(source)->Ok_0, s, target);
}

/// In an assembled program, an instruction without operands stands as its
/// opcode byte at its address.
pub proof fn lemma_assembled_plain(source: Text, k: int)
    requires
        assembly(source) is Ok,
        3 * source.len() + 12 <= usize::MAX,
        0 <= k < assembled_items(source).len(),
        assembled_items(source)[k] matches AssemblyItem::Instruction(AssemblyInstruction::Plain(_)),
    ensures
        item_address(source, k) < assembly(source)->Ok_0.len(),
        assembly(source)->Ok_0[item_address(source, k) as int]
            == assembled_items(source)[k]->Instruction_0->Plain_0.byte(),
{
    let items = assembled_items(source);
    let table = assembled_labels(source);
    lemma_assembled_bounds(source);
    lemma_emitted_at(items, table, k);
    let at = item_address(source, k) as int;
    let program = assembly(source)->Ok_0;
    assert(program.subrange(at, at + 1)[0] == program[at]);
}

/// An assembled program is as long as its items, laid out one after another.
pub proof fn lemma_assembled_length(source: Text)
    requires
        assembly(source) is Ok,
        3 * source.len() + 12 <= usize::MAX,
    ensures
        assembly(source)->Ok_0.len() == items_size(assembled_items(source)),
{
    lemma_assembled_bounds(source);
    lemma_emit_size(assembled_items(source), assembled_labels(source));
}

/// The words pushed by the first `k` items of an assembled source, each a push.
pub open spec fn pushed_words(source: Text, k: nat) -> Seq<Word> {
    Seq::new(k, |i: int| literal_word(assembled_items(source)[i]->Instruction_0->Push_0))
}

/// The machine after the first `k` pushes of a straight-line program of pushes.
pub open spec fn after_pushes(source: Text, k: nat) -> VmState {
    VmState {
        stack: pushed_words(source, k),
        call_stack: Seq::empty(),
        memory: Seq::empty(),
        ip: item_address(source, k as int) as usize,
    }
}

/// The assembled items of `source` are `m` pushes followed by `HALT`.
pub open spec fn pushes_then_halt(source: Text, m: nat) -> bool {
    &&& assembled_items(source).len() == m + 1
    &&& forall|k: int|
        0 <= k < m ==> (#[trigger] assembled_items(source)[k] matches AssemblyItem::Instruction(
            AssemblyInstruction::Push(_),
        ))
    &&& assembled_items(source)[m as int] == AssemblyItem::<Text>::Instruction(
        AssemblyInstruction::Plain(OpcodeByte::Halt),
    )
}

proof fn lemma_pushes_from(source: Text, m: nat, k: nat)
    requires
        assembly(source) is Ok,
        3 * source.len() + 12 <= usize::MAX,
        pushes_then_halt(source, m),
        k <= m,
    ensures
        run(assembly(source)->Ok_0, after_pushes(source, k), (m + 1 - k) as nat)
            == StepResult::Halted(with_ip(after_pushes(source, m), (item_address(source, m as int) + 1) as usize)),
    decreases m - k,
{
    let items = assembled_items(source);
    let program = assembly(source)->Ok_0;
    let s = after_pushes(source, k);
    lemma_assembled_bounds(source);
    lemma_items_size_prefix(items, k as int);
    lemma_items_size_prefix(items, m as int);
    if k == m {
        lemma_assembled_plain(source, m as int);
        lemma_decode_byte(OpcodeByte::Halt);
        assert(program[s.ip as int] == 0xFF);
        assert(next_state(program, s) == StepResult::Halted(with_ip(s, (s.ip + 1) as usize)));
    } else {
        let lit = items[k as int]->Instruction_0->Push_0;
        assert(items[k as int] matches AssemblyItem::Instruction(AssemblyInstruction::Push(_)));
        lemma_assembled_push(source, k as int, s);
        lemma_items_size_prefix(items, (k + 1) as int);
        assert(items.take((k + 1) as int).drop_last() =~= items.take(k as int));
        assert(items.take((k + 1) as int).last() == items[k as int]);
        let t = after_pushes(source, (k + 1) as nat);
        assert(item_address(source, (k + 1) as int) == item_address(source, k as int)
            + size_of_instruction(AssemblyInstruction::<Text>::Push(lit)));
        assert(pushed_words(source, k).push(literal_word(lit)) =~= pushed_words(source, (k + 1) as nat));
        assert(next_state(program, s) == StepResult::Running(t));
        lemma_pushes_from(source, m, (k + 1) as nat);
    }
}

/// A straight-line assembled program of pushes followed by `HALT` halts with
/// the pushed literals on the stack, in order: so `run_program` returns them.
pub proof fn lemma_pushes_then_halt(source: Text, m: nat)
    requires
        assembly(source) is Ok,
        3 * source.len() + 12 <= usize::MAX,
        pushes_then_halt(source, m),
    ensures
        halts(assembly(source)->Ok_0),
        final_state(assembly(source)->Ok_0).stack == pushed_words(source, m),
{
    let program = assembly(source)->Ok_0;
    let items = assembled_items(source);
    assert(items.take(0) =~= Seq::<AssemblyItem<Text>>::empty());
    assert(pushed_words(source, 0) =~= Seq::<Word>::empty());
    assert(after_pushes(source, 0) == initial_state());
    lemma_pushes_from(source, m, 0);
    assert(run(program, initial_state(), m + 1) is Halted);
    let fuel = choose|fuel: nat| #[trigger] run(program, initial_state(), fuel) is Halted;
    lemma_run_deterministic(program, initial_state(), fuel, m + 1);
}

/// The source text `PUSH n`, `PUSH x`, `HALT` on three lines, with `n` and
/// `x` in decimal.
pub open spec fn push_push_halt(n: u64, x: i64) -> Text {
    push_line(numeral(n as nat, 10)) + seq!['\n'] + push_line(decimal_operand(x)) + seq!['\n']
        + halt_line()
}

/// The items of `PUSH n`, `PUSH x`, `HALT`.
pub open spec fn push_push_halt_items(n: u64, x: i64) -> Seq<AssemblyItem<Text>> {
    seq![
        AssemblyItem::Instruction(AssemblyInstruction::Push(IntegerLiteral::Unsigned(n))),
        AssemblyItem::Instruction(AssemblyInstruction::Push(decimal_literal(x))),
        AssemblyItem::Instruction(AssemblyInstruction::Plain(OpcodeByte::Halt)),
    ]
}

proof fn lemma_push_push_halt_items(n: u64, x: i64)
    ensures
        source_items(push_push_halt(n, x)) == Ok::<Seq<AssemblyItem<Text>>, AssemblyError<Text>>(
            push_push_halt_items(n, x),
        ),
{
    let m = numeral(n as nat, 10);
    let d = decimal_operand(x);
    let a = push_line(m);
    let b = push_line(d);
    let h = halt_line();
    lemma_numeral_value(n as nat, 10);
    lemma_unsigned_numerals(n);
    assert forall|i: int| 0 <= i < m.len() implies crate::assembler::parse::numeral_char(
        #[trigger] m[i],
    ) by {}
    assert('0' <= m[m.len() - 1] <= '9');
    lemma_push_line(m);
    lemma_decimal_operand(x);
    lemma_push_line(d);
    lemma_halt_line();
    lemma_one_line(a);
    lemma_one_line(b);
    lemma_one_line(h);
    lemma_source_items_join(a, b);
    lemma_source_items_join(a + seq!['\n'] + b, h);
    let items = push_push_halt_items(n, x);
    assert(seq![items[0]] + seq![items[1]] + seq![items[2]] =~= items);
}

proof fn lemma_push_push_halt_short(n: u64, x: i64)
    ensures
        push_push_halt(n, x).len() <= 200,
{
    vstd::arithmetic::power2::lemma2_to64();
    lemma_numeral_len(n as nat, 64);
    if x < 0 {
        lemma_numeral_len((-(x as int)) as nat, 64);
    } else {
        lemma_numeral_len(x as nat, 64);
    }
}

/// `PUSH n`, `PUSH x`, `HALT` assembles, and the program halts with `n` and
/// the 64-bit two's-complement bits of `x` on the stack, whichever encodings
/// the assembler picks: so `run_program` returns `[n, x as u64]`.
pub proof fn lemma_push_push_halt(n: u64, x: i64)
    ensures
        assembly(push_push_halt(n, x)) is Ok,
        halts(assembly(push_push_halt(n, x))->Ok_0),
        final_state(assembly(push_push_halt(n, x))->Ok_0).stack == seq![n as Word, x as Word],
{
    let source = push_push_halt(n, x);
    let items = push_push_halt_items(n, x);
    lemma_push_push_halt_items(n, x);
    assert(crate::assembler::layout::plain_items(items));
    crate::assembler::layout::lemma_relax_plain(items);
    lemma_emit_ok_iff_labels_found(items, Seq::empty());
    assert(assembled_items(source) == items);
    lemma_push_push_halt_short(n, x);
    assert(pushes_then_halt(source, 2));
    lemma_pushes_then_halt(source, 2);
    lemma_cast_i64_u64(x);
    assert(pushed_words(source, 2) =~= seq![n as Word, x as Word]);
}

} // verus!
