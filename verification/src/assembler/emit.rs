//! Encoding laid-out instructions into program bytes.
use vstd::prelude::*;
use crate::encoding::{le_bytes, lemma_le_bytes_len, push_le};
use crate::opcodes::{
    OpcodeByte, CALL_REL_SIGNED4_START, JUMP_IF_ZERO_REL_SIGNED4_START, JUMP_REL_SIGNED4_START,
    PUSH_SIGNED4_START, PUSH_UNSIGNED4_START,
};
use crate::text::copy_chars;
use super::layout::{
    find_label, items_size, lookup, size_of_instruction, size_of_item, table_view, LabelTable,
};
use super::{
    item_views, AssemblyError, AssemblyInstruction, AssemblyItem, Chars, IntegerLiteral,
    RelativeInstructionKind, RelativeWidth, Text,
};

verus! {

/// `x` modulo 2^64: the 64-bit two's-complement bits of `x`.
pub open spec fn wrap64(x: int) -> nat {
    (x % 0x1_0000_0000_0000_0000) as nat
}

/// The first byte of the short form of a relative instruction.
pub open spec fn signed4_base(kind: RelativeInstructionKind) -> u8 {
    match kind {
        RelativeInstructionKind::Jump => JUMP_REL_SIGNED4_START,
        RelativeInstructionKind::JumpIfZero => JUMP_IF_ZERO_REL_SIGNED4_START,
        RelativeInstructionKind::Call => CALL_REL_SIGNED4_START,
    }
}

/// The opcode of a relative instruction with an operand of width `w` (8 bits or more).
pub open spec fn relative_opcode(kind: RelativeInstructionKind, w: RelativeWidth) -> OpcodeByte {
    match kind {
        RelativeInstructionKind::Jump => match w {
            RelativeWidth::Signed16 => OpcodeByte::JumpRelSigned16,
            RelativeWidth::Signed32 => OpcodeByte::JumpRelSigned32,
            RelativeWidth::Signed64 => OpcodeByte::JumpRelSigned64,
            _ => OpcodeByte::JumpRelSigned8,
        },
        RelativeInstructionKind::JumpIfZero => match w {
            RelativeWidth::Signed16 => OpcodeByte::JumpIfZeroRelSigned16,
            RelativeWidth::Signed32 => OpcodeByte::JumpIfZeroRelSigned32,
            RelativeWidth::Signed64 => OpcodeByte::JumpIfZeroRelSigned64,
            _ => OpcodeByte::JumpIfZeroRelSigned8,
        },
        RelativeInstructionKind::Call => match w {
            RelativeWidth::Signed16 => OpcodeByte::CallRelSigned16,
            RelativeWidth::Signed32 => OpcodeByte::CallRelSigned32,
            RelativeWidth::Signed64 => OpcodeByte::CallRelSigned64,
            _ => OpcodeByte::CallRelSigned8,
        },
    }
}

/// The number of operand bytes of a relative instruction of width `w`.
pub open spec fn operand_bytes(w: RelativeWidth) -> nat {
    match w {
        RelativeWidth::Signed4 => 0,
        RelativeWidth::Signed8 => 1,
        RelativeWidth::Signed16 => 2,
        RelativeWidth::Signed32 => 4,
        RelativeWidth::Signed64 => 8,
    }
}

/// The bytes of a relative instruction with the given offset.
pub open spec fn encode_relative(kind: RelativeInstructionKind, w: RelativeWidth, offset: int) -> Seq<u8> {
    if w == RelativeWidth::Signed4 {
        seq![(signed4_base(kind) + wrap64(offset) % 16) as u8]
    } else {
        seq![relative_opcode(kind, w).byte()] + le_bytes(wrap64(offset), operand_bytes(w))
    }
}

/// The bytes of a push of `lit`: the shortest form that holds the value.
pub open spec fn encode_push(lit: IntegerLiteral) -> Seq<u8> {
    match lit {
        IntegerLiteral::Unsigned(u) => if u <= 15 {
            seq![(PUSH_UNSIGNED4_START + u) as u8]
        } else if u <= 0xFF {
            seq![OpcodeByte::PushUnsigned8.byte()] + le_bytes(u as nat, 1)
        } else if u <= 0xFFFF {
            seq![OpcodeByte::PushUnsigned16.byte()] + le_bytes(u as nat, 2)
        } else if u <= 0xFFFF_FFFF {
            seq![OpcodeByte::PushUnsigned32.byte()] + le_bytes(u as nat, 4)
        } else {
            seq![OpcodeByte::Push64.byte()] + le_bytes(u as nat, 8)
        },
        IntegerLiteral::Signed(v) => if -8 <= v < 8 {
            seq![(PUSH_SIGNED4_START + wrap64(v as int) % 16) as u8]
        } else if i8::MIN <= v <= i8::MAX {
            seq![OpcodeByte::PushSigned8.byte()] + le_bytes(wrap64(v as int), 1)
        } else if i16::MIN <= v <= i16::MAX {
            seq![OpcodeByte::PushSigned16.byte()] + le_bytes(wrap64(v as int), 2)
        } else if i32::MIN <= v <= i32::MAX {
            seq![OpcodeByte::PushSigned32.byte()] + le_bytes(wrap64(v as int), 4)
        } else {
            seq![OpcodeByte::Push64.byte()] + le_bytes(wrap64(v as int), 8)
        },
    }
}

/// The bytes of an instruction at `address`; a label that is used must be in `table`.
pub open spec fn encode_instruction(
    i: AssemblyInstruction<Text>,
    table: Seq<(Text, nat)>,
    address: nat,
) -> Result<Seq<u8>, AssemblyError<Text>> {
    match i {
        AssemblyInstruction::Plain(op) => Ok(seq![op.byte()]),
        AssemblyInstruction::Push(lit) => Ok(encode_push(lit)),
        AssemblyInstruction::PushAddress(name) => match lookup(table, name) {
            None => Err(AssemblyError::UnknownLabel(name)),
            Some(target) => Ok(seq![OpcodeByte::Push64.byte()] + le_bytes(target, 8)),
        },
        AssemblyInstruction::Relative { kind, label_name, width } => match lookup(table, label_name) {
            None => Err(AssemblyError::UnknownLabel(label_name)),
            Some(target) => Ok(
                encode_relative(
                    kind,
                    width,
                    target - (address + size_of_instruction(i)),
                ),
            ),
        },
    }
}

/// The bytes of a sequence of items, each instruction at the address where the
/// bytes before it end; the first instruction that cannot be encoded gives the error.
pub open spec fn emit_items(items: Seq<AssemblyItem<Text>>, table: Seq<(Text, nat)>) -> Result<
    Seq<u8>,
    AssemblyError<Text>,
>
    decreases items.len(),
{
    if items.len() == 0 {
        Ok(Seq::empty())
    } else {
        match emit_items(items.drop_last(), table) {
            Err(e) => Err(e),
            Ok(bytes) => match items.last() {
                AssemblyItem::Label(_) => Ok(bytes),
                AssemblyItem::Instruction(i) => match encode_instruction(i, table, bytes.len()) {
                    Err(e) => Err(e),
                    Ok(b) => Ok(bytes + b),
                },
            },
        }
    }
}

/// An instruction is encoded in as many bytes as its size says.
pub proof fn lemma_encode_size(i: AssemblyInstruction<Text>, table: Seq<(Text, nat)>, address: nat)
    ensures
        encode_instruction(i, table, address) matches Ok(b) ==> b.len() == size_of_instruction(i),
{
    reveal_with_fuel(le_bytes, 9);
}

/// The items are encoded in as many bytes as their size says, so every label
/// stands at the address of the instruction after it.
pub proof fn lemma_emit_size(items: Seq<AssemblyItem<Text>>, table: Seq<(Text, nat)>)
    ensures
        emit_items(items, table) matches Ok(b) ==> b.len() == items_size(items),
    decreases items.len(),
{
    if items.len() > 0 {
        lemma_emit_size(items.drop_last(), table);
        if let Ok(bytes) = emit_items(items.drop_last(), table) {
            if let AssemblyItem::Instruction(i) = items.last() {
                lemma_encode_size(i, table, bytes.len());
            }
        }
    }
}

/// The label that an item names, if any: that of a `PADDR` or a relative
/// jump or call.
pub open spec fn named_label(item: AssemblyItem<Text>) -> Option<Text> {
    match item {
        AssemblyItem::Instruction(AssemblyInstruction::PushAddress(name)) => Some(name),
        AssemblyItem::Instruction(AssemblyInstruction::Relative { label_name, .. }) => Some(
            label_name,
        ),
        _ => None,
    }
}

/// Every label that the items name is in `table`.
pub open spec fn labels_found(items: Seq<AssemblyItem<Text>>, table: Seq<(Text, nat)>) -> bool {
    forall|k: int|
        0 <= k < items.len() ==> (#[trigger] named_label(items[k]) matches Some(name) ==> lookup(
            table,
            name,
        ) is Some)
}

/// Encoding succeeds exactly when every label that the items name is in the
/// table; an error names a label that is not there.
pub proof fn lemma_emit_ok_iff_labels_found(items: Seq<AssemblyItem<Text>>, table: Seq<(Text, nat)>)
    ensures
        (emit_items(items, table) is Ok) == labels_found(items, table),
        emit_items(items, table) matches Err(e) ==> (e matches AssemblyError::UnknownLabel(name)
            && lookup(table, name) is None),
    decreases items.len(),
{
    if items.len() > 0 {
        let prefix = items.drop_last();
        lemma_emit_ok_iff_labels_found(prefix, table);
        assert forall|k: int| 0 <= k < prefix.len() implies #[trigger] named_label(prefix[k])
            == named_label(items[k]) by {
            assert(prefix[k] == items[k]);
        }
        if labels_found(items, table) {
            assert forall|k: int| 0 <= k < prefix.len() implies (#[trigger] named_label(
                prefix[k],
            ) matches Some(name) ==> lookup(table, name) is Some) by {
                assert(named_label(prefix[k]) == named_label(items[k]));
            }
            assert(named_label(items[items.len() - 1]) == named_label(items.last()));
        } else if labels_found(prefix, table) {
            let k = choose|k: int|
                0 <= k < items.len() && !(#[trigger] named_label(items[k]) matches Some(name)
                    ==> lookup(table, name) is Some);
            if k < prefix.len() {
                assert(named_label(prefix[k]) == named_label(items[k]));
            }
            assert(k == items.len() - 1);
        }
    }
}

proof fn lemma_emit_error(items: Seq<AssemblyItem<Text>>, table: Seq<(Text, nat)>, k: int)
    requires
        0 <= k <= items.len(),
        emit_items(items.take(k), table) is Err,
    ensures
        emit_items(items, table) == emit_items(items.take(k), table),
    decreases items.len(),
{
    if k < items.len() {
        assert(items.drop_last().take(k) =~= items.take(k));
        lemma_emit_error(items.drop_last(), table, k);
    } else {
        assert(items.take(k) =~= items);
    }
}

/// `target - next` modulo 2^64.
fn wrapped_offset(target: usize, next: usize) -> (v: u64)
    ensures
        v == wrap64(target - next),
{
    if target >= next {
        (target - next) as u64
    } else {
        0u64.wrapping_sub((next - target) as u64)
    }
}

/// `v` modulo 2^64.
fn wrapped_signed(v: i64) -> (w: u64)
    ensures
        w == wrap64(v as int),
{
    if v >= 0 {
        v as u64
    } else if v == i64::MIN {
        0x8000_0000_0000_0000
    } else {
        0u64.wrapping_sub((-v) as u64)
    }
}

fn emit_push(program: &mut Vec<u8>, lit: IntegerLiteral)
    ensures
        final(program)@ == old(program)@ + encode_push(lit),
{
    let ghost before = program@;
    match lit {
        IntegerLiteral::Unsigned(u) => {
            if u <= 15 {
                program.push(PUSH_UNSIGNED4_START + u as u8);
            } else if u <= 0xFF {
                program.push(OpcodeByte::PushUnsigned8.to_byte());
                push_le(program, u, 1);
            } else if u <= 0xFFFF {
                program.push(OpcodeByte::PushUnsigned16.to_byte());
                push_le(program, u, 2);
            } else if u <= 0xFFFF_FFFF {
                program.push(OpcodeByte::PushUnsigned32.to_byte());
                push_le(program, u, 4);
            } else {
                program.push(OpcodeByte::Push64.to_byte());
                push_le(program, u, 8);
            }
        },
        IntegerLiteral::Signed(v) => {
            let w = wrapped_signed(v);
            if -8 <= v && v < 8 {
                program.push(PUSH_SIGNED4_START + (w % 16) as u8);
            } else if i8::MIN as i64 <= v && v <= i8::MAX as i64 {
                program.push(OpcodeByte::PushSigned8.to_byte());
                push_le(program, w, 1);
            } else if i16::MIN as i64 <= v && v <= i16::MAX as i64 {
                program.push(OpcodeByte::PushSigned16.to_byte());
                push_le(program, w, 2);
            } else if i32::MIN as i64 <= v && v <= i32::MAX as i64 {
                program.push(OpcodeByte::PushSigned32.to_byte());
                push_le(program, w, 4);
            } else {
                program.push(OpcodeByte::Push64.to_byte());
                push_le(program, w, 8);
            }
        },
    }
    proof {
        assert(program@ =~= before + encode_push(lit));
    }
}

fn relative_opcode_of(kind: RelativeInstructionKind, w: RelativeWidth) -> (op: OpcodeByte)
    ensures
        op == relative_opcode(kind, w),
{
    match kind {
        RelativeInstructionKind::Jump => match w {
            RelativeWidth::Signed16 => OpcodeByte::JumpRelSigned16,
            RelativeWidth::Signed32 => OpcodeByte::JumpRelSigned32,
            RelativeWidth::Signed64 => OpcodeByte::JumpRelSigned64,
            _ => OpcodeByte::JumpRelSigned8,
        },
        RelativeInstructionKind::JumpIfZero => match w {
            RelativeWidth::Signed16 => OpcodeByte::JumpIfZeroRelSigned16,
            RelativeWidth::Signed32 => OpcodeByte::JumpIfZeroRelSigned32,
            RelativeWidth::Signed64 => OpcodeByte::JumpIfZeroRelSigned64,
            _ => OpcodeByte::JumpIfZeroRelSigned8,
        },
        RelativeInstructionKind::Call => match w {
            RelativeWidth::Signed16 => OpcodeByte::CallRelSigned16,
            RelativeWidth::Signed32 => OpcodeByte::CallRelSigned32,
            RelativeWidth::Signed64 => OpcodeByte::CallRelSigned64,
            _ => OpcodeByte::CallRelSigned8,
        },
    }
}

/// Appends the bytes of an instruction, as [`encode_instruction`] states them;
/// the instruction stands at the address where the program ends. On success
/// exactly the instruction's size in bytes is appended; on an error the
/// program is left as it was.
fn emit_instruction(
    program: &mut Vec<u8>,
    instruction: &AssemblyInstruction<Chars>,
    labels: &LabelTable,
) -> (r: Result<(), AssemblyError<Chars>>)
    requires
        old(program)@.len() + 9 <= usize::MAX,
    ensures
        match encode_instruction(instruction@, table_view(labels@), old(program)@.len()) {
            Ok(b) => r is Ok && final(program)@ == old(program)@ + b,
            Err(e) => r is Err && r->Err_0@ == e,
        },
        r is Ok ==> final(program)@.len() == old(program)@.len() + size_of_instruction(instruction@),
        r is Ok ==> final(program)@.take(old(program)@.len() as int) == old(program)@,
        r is Err ==> final(program)@ == old(program)@,
{
    let ghost before = program@;
    proof {
        lemma_encode_size(instruction@, table_view(labels@), before.len());
    }
    match instruction {
        AssemblyInstruction::Plain(op) => {
            program.push(op.to_byte());
            proof {
                assert(program@ =~= before + seq![op.byte()]);
            }
            Ok(())
        },
        AssemblyInstruction::Push(lit) => {
            emit_push(program, *lit);
            Ok(())
        },
        AssemblyInstruction::PushAddress(name) => match find_label(labels, name.as_slice()) {
            None => Err(AssemblyError::UnknownLabel(copy_chars(name.as_slice()))),
            Some(target) => {
                program.push(OpcodeByte::Push64.to_byte());
                push_le(program, target as u64, 8);
                proof {
                    assert(program@ =~= before + (seq![OpcodeByte::Push64.byte()] + le_bytes(
                        target as nat,
                        8,
                    )));
                }
                Ok(())
            },
        },
        AssemblyInstruction::Relative { kind, label_name, width } => {
            let address = program.len();
            match find_label(labels, label_name.as_slice()) {
                None => Err(AssemblyError::UnknownLabel(copy_chars(label_name.as_slice()))),
                Some(target) => {
                    let next = address + instruction_width(*width);
                    let offset = wrapped_offset(target, next);
                    match width {
                        RelativeWidth::Signed4 => {
                            let base = match kind {
                                RelativeInstructionKind::Jump => JUMP_REL_SIGNED4_START,
                                RelativeInstructionKind::JumpIfZero => JUMP_IF_ZERO_REL_SIGNED4_START,
                                RelativeInstructionKind::Call => CALL_REL_SIGNED4_START,
                            };
                            program.push(base + (offset % 16) as u8);
                        },
                        RelativeWidth::Signed8 => {
                            program.push(relative_opcode_of(*kind, *width).to_byte());
                            push_le(program, offset, 1);
                        },
                        RelativeWidth::Signed16 => {
                            program.push(relative_opcode_of(*kind, *width).to_byte());
                            push_le(program, offset, 2);
                        },
                        RelativeWidth::Signed32 => {
                            program.push(relative_opcode_of(*kind, *width).to_byte());
                            push_le(program, offset, 4);
                        },
                        RelativeWidth::Signed64 => {
                            program.push(relative_opcode_of(*kind, *width).to_byte());
                            push_le(program, offset, 8);
                        },
                    }
                    proof {
                        assert(program@ =~= before + encode_relative(
                            *kind,
                            *width,
                            target - next,
                        ));
                    }
                    Ok(())
                },
            }
        },
    }
}

fn instruction_width(w: RelativeWidth) -> (n: usize)
    ensures
        n == size_of_instruction(
            AssemblyInstruction::<Text>::Relative {
                kind: RelativeInstructionKind::Jump,
                label_name: Seq::empty(),
                width: w,
            },
        ),
{
    match w {
        RelativeWidth::Signed4 => 1,
        RelativeWidth::Signed8 => 2,
        RelativeWidth::Signed16 => 3,
        RelativeWidth::Signed32 => 5,
        RelativeWidth::Signed64 => 9,
    }
}

/// The bytes of all items, as [`emit_items`] states them.
pub fn emit_program(items: &Vec<AssemblyItem<Chars>>, labels: &LabelTable) -> (r: Result<
    Vec<u8>,
    AssemblyError<Chars>,
>)
    requires
        9 * items@.len() + 9 <= usize::MAX,
    ensures
        match emit_items(item_views(items@), table_view(labels@)) {
            Ok(b) => r is Ok && r->Ok_0@ == b,
            Err(e) => r is Err && r->Err_0@ == e,
        },
{
    let ghost views = item_views(items@);
    let ghost t = table_view(labels@);
    let mut program: Vec<u8> = Vec::new();
    let mut k: usize = 0;
    proof {
        assert(views.take(0) =~= Seq::<AssemblyItem<Text>>::empty());
    }
    while k < items.len()
        invariant
            k <= items.len(),
            9 * items@.len() + 9 <= usize::MAX,
            views == item_views(items@),
            t == table_view(labels@),
            emit_items(views.take(k as int), t) == Ok::<Seq<u8>, AssemblyError<Text>>(program@),
            program@.len() <= 9 * k,
        decreases items.len() - k,
    {
        proof {
            assert(views.take(k + 1).drop_last() =~= views.take(k as int));
            assert(views.take(k + 1).last() == items@[k as int]@);
        }
        match &items[k] {
            AssemblyItem::Label(_) => {},
            AssemblyItem::Instruction(instruction) => {
                let ghost before = program@;
                match emit_instruction(&mut program, instruction, labels) {
                    Err(e) => {
                        proof {
                            lemma_emit_error(views, t, k + 1);
                        }
                        return Err(e);
                    },
                    Ok(_) => {
                        proof {
                            lemma_encode_size(instruction@, t, before.len());
                            assert(size_of_instruction(instruction@) <= 9);
                        }
                    },
                }
            },
        }
        k = k + 1;
    }
    proof {
        assert(views.take(items.len() as int) =~= views);
    }
    Ok(program)
}

} // verus!
