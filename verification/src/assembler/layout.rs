//! Instruction sizes, label addresses and the widening of relative jumps.
//!
//! Every relative jump or call starts in its shortest form (a 4-bit offset).
//! Relaxation repeatedly lays the program out, and widens each relative
//! instruction whose offset to its label does not fit its current width,
//! until a pass widens nothing.
use vstd::prelude::*;
use crate::text::{chars_equal, copy_chars};
use super::{
    item_views, AssemblyError, AssemblyInstruction, AssemblyItem, Chars, IntegerLiteral,
    RelativeInstructionKind, RelativeWidth, Text,
};

verus! {

/// The number of bytes a push of `lit` is encoded in.
pub open spec fn push_size(lit: IntegerLiteral) -> nat {
    match lit {
        IntegerLiteral::Unsigned(u) => if u <= 15 {
            1
        } else if u <= 0xFF {
            2
        } else if u <= 0xFFFF {
            3
        } else if u <= 0xFFFF_FFFF {
            5
        } else {
            9
        },
        IntegerLiteral::Signed(v) => if -8 <= v < 8 {
            1
        } else if i8::MIN <= v <= i8::MAX {
            2
        } else if i16::MIN <= v <= i16::MAX {
            3
        } else if i32::MIN <= v <= i32::MAX {
            5
        } else {
            9
        },
    }
}

/// The number of bytes a relative instruction of width `w` is encoded in.
pub open spec fn width_size(w: RelativeWidth) -> nat {
    match w {
        RelativeWidth::Signed4 => 1,
        RelativeWidth::Signed8 => 2,
        RelativeWidth::Signed16 => 3,
        RelativeWidth::Signed32 => 5,
        RelativeWidth::Signed64 => 9,
    }
}

/// The number of bytes an instruction is encoded in.
pub open spec fn size_of_instruction<N>(i: AssemblyInstruction<N>) -> nat {
    match i {
        AssemblyInstruction::Plain(_) => 1,
        AssemblyInstruction::Push(lit) => push_size(lit),
        AssemblyInstruction::PushAddress(_) => 9,
        AssemblyInstruction::Relative { width, .. } => width_size(width),
    }
}

/// The number of bytes an item is encoded in; a label takes none.
pub open spec fn size_of_item<N>(it: AssemblyItem<N>) -> nat {
    match it {
        AssemblyItem::Instruction(i) => size_of_instruction(i),
        AssemblyItem::Label(_) => 0,
    }
}

/// The number of bytes a sequence of items is encoded in; the address of the
/// item after them.
pub open spec fn items_size<N>(items: Seq<AssemblyItem<N>>) -> nat
    decreases items.len(),
{
    if items.len() == 0 {
        0
    } else {
        items_size(items.drop_last()) + size_of_item(items.last())
    }
}

/// The address of the label `name` in a label table.
pub open spec fn lookup(table: Seq<(Text, nat)>, name: Text) -> Option<nat>
    decreases table.len(),
{
    if table.len() == 0 {
        None
    } else if table.last().0 == name {
        Some(table.last().1)
    } else {
        lookup(table.drop_last(), name)
    }
}

/// The labels of `items` with their addresses, in order of definition; a
/// label defined twice is an error at its second definition.
pub open spec fn label_table(items: Seq<AssemblyItem<Text>>) -> Result<Seq<(Text, nat)>, AssemblyError<Text>>
    decreases items.len(),
{
    if items.len() == 0 {
        Ok(Seq::empty())
    } else {
        match label_table(items.drop_last()) {
            Err(e) => Err(e),
            Ok(t) => match items.last() {
                AssemblyItem::Label(name) => if lookup(t, name) is Some {
                    Err(AssemblyError::DuplicateLabel(name))
                } else {
                    Ok(t.push((name, items_size(items.drop_last()))))
                },
                AssemblyItem::Instruction(_) => Ok(t),
            },
        }
    }
}

/// A relative offset fits the operand of width `w`.
pub open spec fn offset_fits(w: RelativeWidth, offset: int) -> bool {
    match w {
        RelativeWidth::Signed4 => -8 <= offset <= 7,
        RelativeWidth::Signed8 => i8::MIN <= offset <= i8::MAX,
        RelativeWidth::Signed16 => i16::MIN <= offset <= i16::MAX,
        RelativeWidth::Signed32 => i32::MIN <= offset <= i32::MAX,
        RelativeWidth::Signed64 => i64::MIN <= offset <= i64::MAX,
    }
}

/// An offset that fits a width fits every wider width.
pub proof fn lemma_offset_fits_wider(w1: RelativeWidth, w2: RelativeWidth, offset: int)
    requires
        width_rank(w1) <= width_rank(w2),
        offset_fits(w1, offset),
    ensures
        offset_fits(w2, offset),
{
}

/// An offset that fits a width fits the next wider one.
pub proof fn lemma_offset_fits_next(w: RelativeWidth, offset: int)
    requires
        offset_fits(w, offset),
        wider(w) is Some,
    ensures
        offset_fits(wider(w)->Some_0, offset),
        width_rank(wider(w)->Some_0) == width_rank(w) + 1,
{
}

/// The next wider width.
pub open spec fn wider(w: RelativeWidth) -> Option<RelativeWidth> {
    match w {
        RelativeWidth::Signed4 => Some(RelativeWidth::Signed8),
        RelativeWidth::Signed8 => Some(RelativeWidth::Signed16),
        RelativeWidth::Signed16 => Some(RelativeWidth::Signed32),
        RelativeWidth::Signed32 => Some(RelativeWidth::Signed64),
        RelativeWidth::Signed64 => None,
    }
}

/// The position of a width in the order from narrowest to widest.
pub open spec fn width_rank(w: RelativeWidth) -> nat {
    match w {
        RelativeWidth::Signed4 => 0,
        RelativeWidth::Signed8 => 1,
        RelativeWidth::Signed16 => 2,
        RelativeWidth::Signed32 => 3,
        RelativeWidth::Signed64 => 4,
    }
}

/// The offset of a relative instruction at `address` of width `w` to `target`:
/// it is counted from the address after the instruction.
pub open spec fn relative_offset(target: nat, address: nat, w: RelativeWidth) -> int {
    target - (address + width_size(w))
}

/// One item of a relaxation pass at `address`: a relative instruction whose
/// offset does not fit is widened by one step, and the flag says whether it was.
pub open spec fn relax_item(item: AssemblyItem<Text>, table: Seq<(Text, nat)>, address: nat) -> Result<
    (AssemblyItem<Text>, bool),
    AssemblyError<Text>,
> {
    match item {
        AssemblyItem::Instruction(AssemblyInstruction::Relative { kind, label_name, width }) => {
            match lookup(table, label_name) {
                None => Err(AssemblyError::UnknownLabel(label_name)),
                Some(target) => if offset_fits(width, relative_offset(target, address, width)) {
                    Ok((item, false))
                } else {
                    match wider(width) {
                        None => Err(AssemblyError::TooFar(label_name)),
                        Some(w) => Ok(
                            (
                                AssemblyItem::Instruction(
                                    AssemblyInstruction::Relative { kind, label_name, width: w },
                                ),
                                true,
                            ),
                        ),
                    }
                },
            }
        },
        _ => Ok((item, false)),
    }
}

/// A relaxation pass over the first `n` items, each at its address in the
/// layout before the pass.
pub open spec fn relax_prefix(items: Seq<AssemblyItem<Text>>, table: Seq<(Text, nat)>, n: nat) -> Result<
    (Seq<AssemblyItem<Text>>, bool),
    AssemblyError<Text>,
>
    decreases n,
{
    if n == 0 {
        Ok((Seq::empty(), false))
    } else {
        match relax_prefix(items, table, (n - 1) as nat) {
            Err(e) => Err(e),
            Ok((done, changed)) => match relax_item(
                items[n - 1],
                table,
                items_size(items.take(n - 1)),
            ) {
                Err(e) => Err(e),
                Ok((item, c)) => Ok((done.push(item), changed || c)),
            },
        }
    }
}

/// A whole relaxation pass.
pub open spec fn relax_pass(items: Seq<AssemblyItem<Text>>) -> Result<
    (Seq<AssemblyItem<Text>>, bool),
    AssemblyError<Text>,
> {
    match label_table(items) {
        Err(e) => Err(e),
        Ok(table) => relax_prefix(items, table, items.len()),
    }
}

/// How many more widening steps the relative instructions of `items` can take.
pub open spec fn potential(items: Seq<AssemblyItem<Text>>) -> nat
    decreases items.len(),
{
    if items.len() == 0 {
        0
    } else {
        potential(items.drop_last()) + item_potential(items.last())
    }
}

/// How many more widening steps an item can take.
pub open spec fn item_potential(item: AssemblyItem<Text>) -> nat {
    match item {
        AssemblyItem::Instruction(AssemblyInstruction::Relative { width, .. }) => (4 - width_rank(
            width,
        )) as nat,
        _ => 0,
    }
}

/// Relaxation: passes are repeated until one widens nothing.
pub open spec fn relax(items: Seq<AssemblyItem<Text>>) -> Result<Seq<AssemblyItem<Text>>, AssemblyError<Text>>
    decreases potential(items),
{
    match relax_pass(items) {
        Err(e) => Err(e),
        Ok((next, changed)) => if changed {
            proof {
                lemma_relax_prefix(items, label_table(items)->Ok_0, items.len());
                assert(items.take(items.len() as int) =~= items);
            }
            relax(next)
        } else {
            Ok(items)
        },
    }
}

/// No item takes more than nine bytes.
pub proof fn lemma_items_size_bound<N>(items: Seq<AssemblyItem<N>>)
    ensures
        items_size(items) <= 9 * items.len(),
    decreases items.len(),
{
    if items.len() > 0 {
        lemma_items_size_bound(items.drop_last());
    }
}

/// The items before `k` take no more bytes than all of them.
pub proof fn lemma_items_size_prefix<N>(items: Seq<AssemblyItem<N>>, k: int)
    requires
        0 <= k <= items.len(),
    ensures
        items_size(items.take(k)) <= items_size(items),
    decreases items.len(),
{
    if k < items.len() {
        lemma_items_size_prefix(items.drop_last(), k);
        assert(items.drop_last().take(k) =~= items.take(k));
    } else {
        assert(items.take(k) =~= items);
    }
}

/// A relaxation pass over a prefix keeps the number of items, widens some
/// relative instructions and leaves every other item as it was; when it
/// reports a change, it has lowered the potential.
pub proof fn lemma_relax_prefix(items: Seq<AssemblyItem<Text>>, table: Seq<(Text, nat)>, n: nat)
    requires
        n <= items.len(),
    ensures
        relax_prefix(items, table, n) matches Ok((done, changed)) ==> {
            &&& done.len() == n
            &&& potential(done) <= potential(items.take(n as int))
            &&& (changed ==> potential(done) < potential(items.take(n as int)))
            &&& (!changed ==> done == items.take(n as int))
        },
    decreases n,
{
    if n > 0 {
        lemma_relax_prefix(items, table, (n - 1) as nat);
        assert(items.take(n as int).drop_last() =~= items.take(n - 1));
        if let Ok((done, changed)) = relax_prefix(items, table, n) {
            let (prev, _) = relax_prefix(items, table, (n - 1) as nat)->Ok_0;
            assert(done.drop_last() =~= prev);
            if !changed {
                assert(done =~= items.take(n as int));
            }
        }
    }
}

/// Every relative instruction of `items`, laid out, has an offset to a
/// defined label that fits its width.
pub open spec fn all_offsets_fit(items: Seq<AssemblyItem<Text>>, table: Seq<(Text, nat)>) -> bool {
    forall|k: int|
        #![trigger items[k]]
        0 <= k < items.len() ==> match items[k] {
            AssemblyItem::Instruction(AssemblyInstruction::Relative { label_name, width, .. }) => {
                &&& lookup(table, label_name) is Some
                &&& offset_fits(
                    width,
                    relative_offset(
                        lookup(table, label_name)->Some_0,
                        items_size(items.take(k)),
                        width,
                    ),
                )
            },
            _ => true,
        }
}

proof fn lemma_unchanged_prefix_fits(items: Seq<AssemblyItem<Text>>, table: Seq<(Text, nat)>, n: nat)
    requires
        n <= items.len(),
        relax_prefix(items, table, n) matches Ok((_, changed)) && !changed,
    ensures
        forall|k: int|
            #![trigger items[k]]
            0 <= k < n ==> match items[k] {
                AssemblyItem::Instruction(AssemblyInstruction::Relative { label_name, width, .. }) => {
                    &&& lookup(table, label_name) is Some
                    &&& offset_fits(
                        width,
                        relative_offset(
                            lookup(table, label_name)->Some_0,
                            items_size(items.take(k)),
                            width,
                        ),
                    )
                },
                _ => true,
            },
    decreases n,
{
    if n > 0 {
        lemma_unchanged_prefix_fits(items, table, (n - 1) as nat);
    }
}

/// `b` is `a`, or `a` with a relative instruction encoded at least as wide.
pub open spec fn widened_item(a: AssemblyItem<Text>, b: AssemblyItem<Text>) -> bool {
    ||| b == a
    ||| {
        &&& a matches AssemblyItem::Instruction(AssemblyInstruction::Relative { .. })
        &&& b matches AssemblyItem::Instruction(AssemblyInstruction::Relative { .. })
        &&& b->Instruction_0->kind == a->Instruction_0->kind
        &&& b->Instruction_0->label_name == a->Instruction_0->label_name
        &&& width_rank(a->Instruction_0->width) <= width_rank(b->Instruction_0->width)
    }
}

/// `b` has the items of `a`, each the same or a relative instruction widened.
pub open spec fn widened(a: Seq<AssemblyItem<Text>>, b: Seq<AssemblyItem<Text>>) -> bool {
    &&& a.len() == b.len()
    &&& forall|k: int| 0 <= k < a.len() ==> #[trigger] widened_item(a[k], b[k])
}

proof fn lemma_relax_prefix_widens(items: Seq<AssemblyItem<Text>>, table: Seq<(Text, nat)>, n: nat)
    requires
        n <= items.len(),
        relax_prefix(items, table, n) is Ok,
    ensures
        widened(items.take(n as int), relax_prefix(items, table, n)->Ok_0.0),
    decreases n,
{
    if n > 0 {
        lemma_relax_prefix_widens(items, table, (n - 1) as nat);
        let done = relax_prefix(items, table, n)->Ok_0.0;
        let prev = relax_prefix(items, table, (n - 1) as nat)->Ok_0.0;
        assert(done.drop_last() =~= prev);
        assert forall|k: int| 0 <= k < n implies #[trigger] widened_item(
            items.take(n as int)[k],
            done[k],
        ) by {
            if k < n - 1 {
                assert(items.take(n as int)[k] == items.take(n - 1)[k]);
                assert(done[k] == prev[k]);
            }
        }
    }
}

/// Items with neither labels nor relative instructions.
pub open spec fn plain_items(items: Seq<AssemblyItem<Text>>) -> bool {
    forall|k: int|
        0 <= k < items.len() ==> (#[trigger] items[k] is Instruction && !(
        items[k]->Instruction_0 is Relative))
}

proof fn lemma_plain_prefix(items: Seq<AssemblyItem<Text>>, table: Seq<(Text, nat)>, n: nat)
    requires
        plain_items(items),
        n <= items.len(),
    ensures
        label_table(items.take(n as int)) == Ok::<Seq<(Text, nat)>, AssemblyError<Text>>(
            Seq::empty(),
        ),
        relax_prefix(items, table, n) == Ok::<(Seq<AssemblyItem<Text>>, bool), AssemblyError<Text>>(
            (items.take(n as int), false),
        ),
    decreases n,
{
    if n > 0 {
        lemma_plain_prefix(items, table, (n - 1) as nat);
        let p = items.take(n as int);
        assert(p.drop_last() =~= items.take(n - 1));
        assert(p.last() == items[n - 1]);
        assert(items.take(n - 1).push(items[n - 1]) =~= p);
    } else {
        assert(items.take(0) =~= Seq::<AssemblyItem<Text>>::empty());
    }
}

/// Without labels or relative instructions there is nothing to widen:
/// relaxation leaves the items as they are, and the label table is empty.
pub proof fn lemma_relax_plain(items: Seq<AssemblyItem<Text>>)
    requires
        plain_items(items),
    ensures
        label_table(items) == Ok::<Seq<(Text, nat)>, AssemblyError<Text>>(Seq::empty()),
        relax(items) == Ok::<Seq<AssemblyItem<Text>>, AssemblyError<Text>>(items),
{
    lemma_plain_prefix(items, Seq::empty(), items.len());
    assert(items.take(items.len() as int) =~= items);
}

/// Relaxation succeeds only with a layout in which every relative offset fits
/// its width, and it leaves every item as it was but for the widths of
/// relative instructions, which it only ever widens.
pub proof fn lemma_relax_fits(items: Seq<AssemblyItem<Text>>)
    requires
        relax(items) is Ok,
    ensures
        label_table(relax(items)->Ok_0) is Ok,
        all_offsets_fit(relax(items)->Ok_0, label_table(relax(items)->Ok_0)->Ok_0),
        relax(items)->Ok_0.len() == items.len(),
        widened(items, relax(items)->Ok_0),
    decreases potential(items),
{
    let (next, changed) = relax_pass(items)->Ok_0;
    let table = label_table(items)->Ok_0;
    lemma_relax_prefix(items, table, items.len());
    lemma_relax_prefix_widens(items, table, items.len());
    assert(items.take(items.len() as int) =~= items);
    if changed {
        lemma_relax_fits(next);
        let last = relax(next)->Ok_0;
        assert forall|k: int| 0 <= k < items.len() implies #[trigger] widened_item(
            items[k],
            last[k],
        ) by {
            assert(widened_item(items[k], next[k]));
            assert(widened_item(next[k], last[k]));
        }
    } else {
        lemma_unchanged_prefix_fits(items, table, items.len());
    }
}

/// A relaxation pass error in a prefix is the error of the whole pass.
proof fn lemma_relax_prefix_error(items: Seq<AssemblyItem<Text>>, table: Seq<(Text, nat)>, k: nat, n: nat)
    requires
        k <= n,
        relax_prefix(items, table, k) is Err,
    ensures
        relax_prefix(items, table, n) == relax_prefix(items, table, k),
    decreases n,
{
    if n > k {
        lemma_relax_prefix_error(items, table, k, (n - 1) as nat);
    }
}

/// A label-table error in a prefix is the error for the whole sequence.
proof fn lemma_label_table_error(items: Seq<AssemblyItem<Text>>, k: int)
    requires
        0 <= k <= items.len(),
        label_table(items.take(k)) is Err,
    ensures
        label_table(items) == label_table(items.take(k)),
    decreases items.len(),
{
    if k < items.len() {
        assert(items.drop_last().take(k) =~= items.take(k));
        lemma_label_table_error(items.drop_last(), k);
    } else {
        assert(items.take(k) =~= items);
    }
}

/// The views of a label table.
pub open spec fn table_view(t: Seq<(Chars, usize)>) -> Seq<(Text, nat)> {
    t.map_values(|p: (Chars, usize)| (p.0@, p.1 as nat))
}

/// A label table: the labels with their addresses.
pub type LabelTable = Vec<(Chars, usize)>;

/// The address of `name` in `table`.
pub fn find_label(table: &LabelTable, name: &[char]) -> (r: Option<usize>)
    ensures
        match lookup(table_view(table@), name@) {
            Some(a) => r == Some(a as usize) && a <= usize::MAX,
            None => r is None,
        },
{
    let ghost tv = table_view(table@);
    let mut i: usize = table.len();
    proof {
        assert(tv.take(i as int) =~= tv);
    }
    while i > 0
        invariant
            i <= table.len(),
            tv == table_view(table@),
            lookup(tv, name@) == lookup(tv.take(i as int), name@),
        decreases i,
    {
        proof {
            assert(tv.take(i as int).drop_last() =~= tv.take(i - 1));
            assert(tv.take(i as int).last() == tv[i - 1]);
        }
        if chars_equal(table[i - 1].0.as_slice(), name) {
            return Some(table[i - 1].1);
        }
        i = i - 1;
    }
    None
}

fn integer_literal_push_size(lit: &IntegerLiteral) -> (n: usize)
    ensures
        n == push_size(*lit),
{
    match lit {
        IntegerLiteral::Unsigned(u) => {
            if *u <= 15 {
                1
            } else if *u <= 0xFF {
                2
            } else if *u <= 0xFFFF {
                3
            } else if *u <= 0xFFFF_FFFF {
                5
            } else {
                9
            }
        },
        IntegerLiteral::Signed(v) => {
            if -8 <= *v && *v < 8 {
                1
            } else if i8::MIN as i64 <= *v && *v <= i8::MAX as i64 {
                2
            } else if i16::MIN as i64 <= *v && *v <= i16::MAX as i64 {
                3
            } else if i32::MIN as i64 <= *v && *v <= i32::MAX as i64 {
                5
            } else {
                9
            }
        },
    }
}

fn relative_width_instruction_size(w: RelativeWidth) -> (n: usize)
    ensures
        n == width_size(w),
{
    match w {
        RelativeWidth::Signed4 => 1,
        RelativeWidth::Signed8 => 2,
        RelativeWidth::Signed16 => 3,
        RelativeWidth::Signed32 => 5,
        RelativeWidth::Signed64 => 9,
    }
}

fn relative_width_offset_fits(w: RelativeWidth, offset: i128) -> (b: bool)
    ensures
        b == offset_fits(w, offset as int),
{
    match w {
        RelativeWidth::Signed4 => -8 <= offset && offset <= 7,
        RelativeWidth::Signed8 => i8::MIN as i128 <= offset && offset <= i8::MAX as i128,
        RelativeWidth::Signed16 => i16::MIN as i128 <= offset && offset <= i16::MAX as i128,
        RelativeWidth::Signed32 => i32::MIN as i128 <= offset && offset <= i32::MAX as i128,
        RelativeWidth::Signed64 => i64::MIN as i128 <= offset && offset <= i64::MAX as i128,
    }
}

fn next_relative_width(w: RelativeWidth) -> (r: Option<RelativeWidth>)
    ensures
        r == wider(w),
{
    match w {
        RelativeWidth::Signed4 => Some(RelativeWidth::Signed8),
        RelativeWidth::Signed8 => Some(RelativeWidth::Signed16),
        RelativeWidth::Signed16 => Some(RelativeWidth::Signed32),
        RelativeWidth::Signed32 => Some(RelativeWidth::Signed64),
        RelativeWidth::Signed64 => None,
    }
}

/// The number of bytes an instruction is encoded in.
pub fn instruction_size(i: &AssemblyInstruction<Chars>) -> (n: usize)
    ensures
        n == size_of_instruction(i@),
{
    match i {
        AssemblyInstruction::Plain(_) => 1,
        AssemblyInstruction::Push(lit) => integer_literal_push_size(lit),
        AssemblyInstruction::PushAddress(_) => 9,
        AssemblyInstruction::Relative { width, .. } => relative_width_instruction_size(*width),
    }
}

fn item_size(it: &AssemblyItem<Chars>) -> (n: usize)
    ensures
        n == size_of_item(it@),
{
    match it {
        AssemblyItem::Instruction(i) => instruction_size(i),
        AssemblyItem::Label(_) => 0,
    }
}

/// The labels of `items` with their addresses, as [`label_table`] states it.
pub fn calculate_label_addresses(items: &Vec<AssemblyItem<Chars>>) -> (r: Result<
    LabelTable,
    AssemblyError<Chars>,
>)
    requires
        items_size(item_views(items@)) <= usize::MAX,
    ensures
        match label_table(item_views(items@)) {
            Ok(t) => r is Ok && table_view(r->Ok_0@) == t,
            Err(e) => r is Err && r->Err_0@ == e,
        },
{
    let ghost views = item_views(items@);
    let mut labels: LabelTable = Vec::new();
    let mut address: usize = 0;
    let mut k: usize = 0;
    proof {
        assert(views.take(0) =~= Seq::<AssemblyItem<Text>>::empty());
        assert(table_view(labels@) =~= Seq::<(Text, nat)>::empty());
    }
    while k < items.len()
        invariant
            k <= items.len(),
            views == item_views(items@),
            items_size(views) <= usize::MAX,
            address == items_size(views.take(k as int)),
            label_table(views.take(k as int)) == Ok::<Seq<(Text, nat)>, AssemblyError<Text>>(
                table_view(labels@),
            ),
        decreases items.len() - k,
    {
        proof {
            assert(views.take(k + 1).drop_last() =~= views.take(k as int));
            assert(views.take(k + 1).last() == items@[k as int]@);
            lemma_items_size_prefix(views, k + 1);
        }
        match &items[k] {
            AssemblyItem::Label(name) => {
                if find_label(&labels, name.as_slice()).is_some() {
                    proof {
                        lemma_label_table_error(views, k + 1);
                    }
                    return Err(AssemblyError::DuplicateLabel(copy_chars(name.as_slice())));
                }
                let ghost before = labels@;
                labels.push((copy_chars(name.as_slice()), address));
                proof {
                    assert(table_view(labels@) =~= table_view(before).push((name@, address as nat)));
                }
            },
            AssemblyItem::Instruction(instruction) => {
                address = address + instruction_size(instruction);
            },
        }
        k = k + 1;
    }
    proof {
        assert(views.take(items.len() as int) =~= views);
    }
    Ok(labels)
}

/// One item of a relaxation pass, as [`relax_item`] states it: the widened
/// item where the item changes, and `None` where it stays.
fn relax_one(item: &AssemblyItem<Chars>, table: &LabelTable, address: usize) -> (r: Result<
    Option<AssemblyItem<Chars>>,
    AssemblyError<Chars>,
>)
    requires
        address + 9 <= usize::MAX,
    ensures
        match relax_item(item@, table_view(table@), address as nat) {
            Ok((it, changed)) => r is Ok && (changed ==> (r->Ok_0 is Some && r->Ok_0->Some_0@ == it))
                && (!changed ==> (r->Ok_0 is None && it == item@)),
            Err(e) => r is Err && r->Err_0@ == e,
        },
{
    match item {
        AssemblyItem::Instruction(AssemblyInstruction::Relative { kind, label_name, width }) => {
            match find_label(table, label_name.as_slice()) {
                None => Err(AssemblyError::UnknownLabel(copy_chars(label_name.as_slice()))),
                Some(target) => {
                    let next = address + relative_width_instruction_size(*width);
                    let offset = target as i128 - next as i128;
                    if relative_width_offset_fits(*width, offset) {
                        Ok(None)
                    } else {
                        match next_relative_width(*width) {
                            None => Err(AssemblyError::TooFar(copy_chars(label_name.as_slice()))),
                            Some(w) => Ok(
                                Some(
                                    AssemblyItem::Instruction(
                                        AssemblyInstruction::Relative {
                                            kind: *kind,
                                            label_name: copy_chars(label_name.as_slice()),
                                            width: w,
                                        },
                                    ),
                                ),
                            ),
                        }
                    }
                },
            }
        },
        _ => Ok(None),
    }
}

/// One relaxation pass over all items, as [`relax_prefix`] states it; the
/// result tells whether an instruction was widened.
fn relax_pass_items(items: &mut Vec<AssemblyItem<Chars>>, table: &LabelTable) -> (r: Result<
    bool,
    AssemblyError<Chars>,
>)
    requires
        items_size(item_views(old(items)@)) + 9 <= usize::MAX,
    ensures
        match relax_prefix(item_views(old(items)@), table_view(table@), old(items)@.len()) {
            Ok((next, changed)) => r == Ok::<bool, AssemblyError<Chars>>(changed) && item_views(
                final(items)@,
            ) == next,
            Err(e) => r is Err && r->Err_0@ == e,
        },
{
    let ghost orig = item_views(items@);
    let ghost t = table_view(table@);
    let n = items.len();
    let mut address: usize = 0;
    let mut changed = false;
    let mut k: usize = 0;
    proof {
        assert(orig.take(0) =~= Seq::<AssemblyItem<Text>>::empty());
        assert(item_views(items@).take(0) =~= Seq::<AssemblyItem<Text>>::empty());
    }
    while k < n
        invariant
            k <= n,
            n == items@.len(),
            n == orig.len(),
            orig == item_views(old(items)@),
            t == table_view(table@),
            items_size(orig) + 9 <= usize::MAX,
            address == items_size(orig.take(k as int)),
            relax_prefix(orig, t, k as nat) == Ok::<
                (Seq<AssemblyItem<Text>>, bool),
                AssemblyError<Text>,
            >((item_views(items@).take(k as int), changed)),
            forall|j: int| k <= j < n ==> #[trigger] items@[j]@ == orig[j],
        decreases n - k,
    {
        proof {
            lemma_items_size_prefix(orig, k as int);
            assert(items@[k as int]@ == orig[k as int]);
        }
        let size = item_size(&items[k]);
        proof {
            assert(orig.take(k + 1).drop_last() =~= orig.take(k as int));
            assert(orig.take(k + 1).last() == orig[k as int]);
            lemma_items_size_prefix(orig, k + 1);
        }
        match relax_one(&items[k], table, address) {
            Err(e) => {
                proof {
                    assert(relax_prefix(orig, t, (k + 1) as nat) is Err);
                    lemma_relax_prefix_error(orig, t, (k + 1) as nat, n as nat);
                }
                return Err(e);
            },
            Ok(None) => {
                proof {
                    assert(item_views(items@).take(k + 1) =~= item_views(items@).take(k as int).push(
                        orig[k as int],
                    ));
                }
            },
            Ok(Some(new_item)) => {
                let ghost before = items@;
                items.set(k, new_item);
                changed = true;
                proof {
                    assert(item_views(items@).take(k + 1) =~= item_views(before).take(k as int).push(
                        items@[k as int]@,
                    ));
                }
            },
        }
        address = address + size;
        k = k + 1;
    }
    proof {
        assert(item_views(items@).take(n as int) =~= item_views(items@));
    }
    Ok(changed)
}

/// Widens relative instructions until every offset fits, as [`relax`] states it.
/// A duplicate label is reported before any item is changed.
pub fn relax_relative_instructions(items: &mut Vec<AssemblyItem<Chars>>) -> (r: Result<
    (),
    AssemblyError<Chars>,
>)
    requires
        9 * old(items)@.len() + 9 <= usize::MAX,
    ensures
        match relax(item_views(old(items)@)) {
            Ok(next) => r is Ok && item_views(final(items)@) == next,
            Err(e) => r is Err && r->Err_0@ == e,
        },
        label_table(item_views(old(items)@)) is Err ==> final(items)@ == old(items)@,
{
    let ghost start = item_views(items@);
    loop
        invariant
            items@.len() == start.len(),
            start == item_views(old(items)@),
            label_table(start) is Err ==> items@ == old(items)@,
            9 * start.len() + 9 <= usize::MAX,
            relax(item_views(items@)) == relax(start),
        decreases potential(item_views(items@)),
    {
        let ghost current = item_views(items@);
        proof {
            lemma_items_size_bound(current);
        }
        let labels = match calculate_label_addresses(items) {
            Err(e) => {
                proof {
                    assert(relax_pass(current) is Err);
                    assert(relax(current) == Err::<Seq<AssemblyItem<Text>>, AssemblyError<Text>>(e@));
                }
                return Err(e);
            },
            Ok(labels) => labels,
        };
        let result = relax_pass_items(items, &labels);
        proof {
            lemma_relax_prefix(current, table_view(labels@), current.len());
            assert(current.take(current.len() as int) =~= current);
        }
        proof {
            assert(relax_pass(current) == relax_prefix(current, table_view(labels@), current.len()));
        }
        match result {
            Err(e) => {
                proof {
                    assert(relax(current) == Err::<Seq<AssemblyItem<Text>>, AssemblyError<Text>>(e@));
                }
                return Err(e);
            },
            Ok(changed) => {
                if !changed {
                    proof {
                        assert(relax(current) == Ok::<Seq<AssemblyItem<Text>>, AssemblyError<Text>>(current));
                    }
                    return Ok(());
                }
            },
        }
    }
}

} // verus!
