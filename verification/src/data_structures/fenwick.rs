//! A Fenwick tree (binary indexed tree) over `usize` values.
use vstd::prelude::*;

verus! {

/// The lowest set bit of `x` (0 for 0).
pub open spec fn lowbit(x: usize) -> usize {
    if x == 0 {
        0
    } else {
        x & !((x - 1) as usize)
    }
}

/// The node of a Fenwick tree into which node `i` is accumulated.
pub open spec fn parent(i: usize) -> int {
    i + lowbit(i)
}

/// Node `j` covers the values at indices `j - lowbit(j) .. j`.
pub open spec fn low_end(j: usize) -> int {
    j - lowbit(j)
}

proof fn lemma_lowbit_bounds(x: usize)
    requires
        x >= 1,
    ensures
        1 <= lowbit(x) <= x,
{
    assert(x >= 1 ==> 1 <= x & !((x - 1) as usize) <= x) by (bit_vector);
}

/// Accumulating node `i` into its parent `j` leaves the range of `i` starting
/// either where the range of `j` starts or at another child of `j`.
proof fn lemma_child_range_start(i: usize, j: usize)
    requires
        i >= 1,
        i + lowbit(i) == j,
    ensures
        low_end(i) == low_end(j) || (low_end(i) >= 1 && parent(low_end(i) as usize) == j),
{
    lemma_lowbit_bounds(i);
    let hi = (i - lowbit(i)) as usize;
    assert(hi == low_end(i));
    assert(i >= 1 && i + (i & !((i - 1) as usize)) == j ==> {
        let hi = (i - (i & !((i - 1) as usize))) as usize;
        hi == j - (j & !((j - 1) as usize)) || (hi >= 1 && hi + (hi & !((hi - 1) as usize)) == j)
    }) by (bit_vector);
    if hi >= 1 {
        assert(lowbit(hi) == hi & !((hi - 1) as usize));
    }
}


/// No other child of `j` lies between the start of a child's range and the child.
proof fn lemma_no_child_inside(i: usize, j: usize, c: usize)
    requires
        i >= 1,
        i + lowbit(i) == j,
        low_end(i) < c < i,
    ensures
        parent(c) != j,
{
    lemma_lowbit_bounds(i);
    assert(c >= 1);
    assert(lowbit(c) == c & !((c - 1) as usize));
    assert(i >= 1 && i + (i & !((i - 1) as usize)) == j && i - (i & !((i - 1) as usize)) < c && c
        < i ==> c + (c & !((c - 1) as usize)) != j) by (bit_vector);
}

/// A child's range starts after the start of its parent's range.
proof fn lemma_child_after_low_end(c: usize, j: usize)
    requires
        c >= 1,
        parent(c) == j,
    ensures
        low_end(j) < c,
{
    lemma_lowbit_bounds(c);
    assert(j >= 1);
    assert(lowbit(j) == j & !((j - 1) as usize));
    assert(c >= 1 && c + (c & !((c - 1) as usize)) == j ==> j - (j & !((j - 1) as usize)) < c)
        by (bit_vector);
}

/// The node just below an even node is its child.
proof fn lemma_last_child(j: usize)
    requires
        j >= 2,
        lowbit(j) >= 2,
    ensures
        parent((j - 1) as usize) == j,
{
    let c = (j - 1) as usize;
    assert(lowbit(c) == c & !((c - 1) as usize));
    assert(j >= 2 && j & !((j - 1) as usize) >= 2 ==> {
        let c = (j - 1) as usize;
        c >= 1 && c + (c & !((c - 1) as usize)) == j
    }) by (bit_vector);
}

/// The nodes strictly between `i` and its parent have ranges that start at or after `i`.
proof fn lemma_between_parent(i: usize, c: usize)
    requires
        i >= 1,
        i < c < i + lowbit(i),
    ensures
        low_end(c) >= i,
{
    assert(lowbit(i) == i & !((i - 1) as usize));
    assert(lowbit(c) == c & !((c - 1) as usize));
    assert(i >= 1 && i < c && c < i + (i & !((i - 1) as usize)) ==> c - (c & !((c - 1) as usize))
        >= i) by (bit_vector);
}


/// The sum of the first `n` values.
pub open spec fn sum_to(values: Seq<nat>, n: int) -> nat
    decreases n,
{
    if n <= 0 {
        0
    } else {
        sum_to(values, n - 1) + values[n - 1]
    }
}

/// The sum of the values that node `j` covers, at indices `j - lowbit(j) .. j`.
pub open spec fn node_sum(values: Seq<nat>, j: usize) -> int {
    sum_to(values, j as int) - sum_to(values, low_end(j))
}

/// Node `j` covers the value at `index`.
pub open spec fn covers(j: usize, index: int) -> bool {
    low_end(j) <= index < j
}

/// The values of a slice, as natural numbers.
pub open spec fn nat_values(values: Seq<usize>) -> Seq<nat> {
    values.map_values(|v: usize| v as nat)
}

proof fn lemma_sum_to_monotone(values: Seq<nat>, m: int, n: int)
    requires
        m <= n,
    ensures
        sum_to(values, m) <= sum_to(values, n),
    decreases n - m,
{
    if m < n {
        lemma_sum_to_monotone(values, m, n - 1);
    }
}

proof fn lemma_sum_to_zeros(n: nat, k: int)
    requires
        k <= n,
    ensures
        sum_to(Seq::new(n, |i: int| 0nat), k) == 0,
    decreases k,
{
    if k > 0 {
        lemma_sum_to_zeros(n, k - 1);
    }
}

proof fn lemma_sum_to_update(values: Seq<nat>, index: int, amount: nat, n: int)
    requires
        0 <= index < values.len(),
        n <= values.len(),
    ensures
        sum_to(values.update(index, values[index] + amount), n) == sum_to(values, n) + (if index
            < n {
            amount
        } else {
            0
        }),
    decreases n,
{
    if n > 0 {
        lemma_sum_to_update(values, index, amount, n - 1);
    }
}

/// No child of `j` lies strictly between `lo` and `hi`.
pub open spec fn no_child_between(j: usize, lo: int, hi: int) -> bool {
    forall|c: int| lo < c < hi && c >= 1 ==> #[trigger] parent(c as usize) != j
}

/// While the tree is built, node `j` holds its own value plus the sums of the
/// children below `end`, whose ranges fill `low_end(j) .. end`.
pub open spec fn partial_node(values: Seq<nat>, node: int, j: usize, end: int, k: int) -> bool {
    &&& low_end(j) <= end < j
    &&& (end == low_end(j) || (end >= 1 && parent(end as usize) == j && end < k))
    &&& no_child_between(j, end, k)
    &&& node == values[j - 1] + sum_to(values, end) - sum_to(values, low_end(j))
}

/// Once every child of `j` has been accumulated, the range of accumulated children ends at `j - 1`.
proof fn lemma_partial_complete(j: usize, end: int, k: int)
    requires
        j >= 1,
        low_end(j) <= end < j,
        end == low_end(j) || (end >= 1 && parent(end as usize) == j),
        no_child_between(j, end, k),
        j <= k,
    ensures
        end == j - 1,
{
    lemma_lowbit_bounds(j);
    if lowbit(j) >= 2 {
        lemma_last_child(j);
        if end < j - 1 {
            assert(parent((j - 1) as usize) != j);
        }
    }
}

/// When child `i` is accumulated into `j`, the accumulated range of `j` ends where the range of `i` starts.
proof fn lemma_accumulate_start(i: usize, j: usize, end: int)
    requires
        i >= 1,
        parent(i) == j,
        low_end(j) <= end < j,
        end == low_end(j) || (end >= 1 && parent(end as usize) == j && end < i),
        no_child_between(j, end, i as int),
    ensures
        end == low_end(i),
{
    lemma_lowbit_bounds(i);
    lemma_child_range_start(i, j);
    let h = low_end(i);
    if h != low_end(j) {
        lemma_child_after_low_end(h as usize, j);
    }
    if end < h {
        if h != low_end(j) {
            assert(parent(h as usize) != j);
        }
    } else if end > h {
        lemma_no_child_inside(i, j, end as usize);
    }
}

/// A Fenwick tree over a sequence of `usize` values: node `j` (1-based) of the
/// tree holds the sum of the values at indices `j - lowbit(j) .. j`.
pub struct FenwickTree {
    tree: Vec<usize>,
    values: Ghost<Seq<nat>>,
}

impl View for FenwickTree {
    type V = Seq<nat>;

    /// The values the tree holds.
    closed spec fn view(&self) -> Seq<nat> {
        self.values@
    }
}

impl FenwickTree {
    /// The nodes of the tree; node 0 is unused.
    pub closed spec fn nodes(&self) -> Seq<usize> {
        self.tree@
    }

    /// The tree's representation invariant.
    pub closed spec fn wf(&self) -> bool {
        &&& self.tree@.len() == self.values@.len() + 1
        &&& self.tree@.len() <= usize::MAX / 2
        &&& self.tree@[0] == 0
        &&& forall|j: int|
            1 <= j < self.tree@.len() ==> #[trigger] self.tree@[j] == node_sum(
                self.values@,
                j as usize,
            )
    }

    /// A well-formed tree's nodes are determined by its values: node `j` holds the
    /// sum of the values that it covers.
    pub proof fn lemma_nodes(&self)
        requires
            self.wf(),
        ensures
            self.nodes().len() == self@.len() + 1,
            self@.len() < usize::MAX / 2,
            self.nodes()[0] == 0,
            forall|j: int|
                1 <= j <= self@.len() ==> #[trigger] self.nodes()[j] == node_sum(self@, j as usize),
    {
    }

    /// Two well-formed trees that hold the same values have the same nodes,
    /// however they were built.
    pub proof fn lemma_nodes_determined(a: &Self, b: &Self)
        requires
            a.wf(),
            b.wf(),
            a@ == b@,
        ensures
            a.nodes() == b.nodes(),
    {
        assert(a.nodes() =~= b.nodes());
    }

    /// A tree of `size` zeros.
    pub fn new(size: usize) -> (t: Self)
        requires
            size < usize::MAX / 2,
        ensures
            t.wf(),
            t@ == zeros(size as nat),
    {
        let tree = vec![0usize; size + 1];
        let ghost values = Seq::new(size as nat, |i: int| 0nat);
        let t = FenwickTree { tree, values: Ghost(values) };
        proof {
            assert forall|j: int| 1 <= j < t.tree@.len() implies #[trigger] t.tree@[j] == node_sum(
                values,
                j as usize,
            ) by {
                lemma_sum_to_zeros(size as nat, j);
                lemma_sum_to_zeros(size as nat, low_end(j as usize));
            }
        }
        t
    }

    /// A tree that holds `values`, built in linear time by accumulating each
    /// node into its parent.
    pub fn from_slice(values: &[usize]) -> (t: Self)
        requires
            values@.len() < usize::MAX / 2,
            forall|j: int|
                1 <= j <= values@.len() ==> #[trigger] node_sum(nat_values(values@), j as usize)
                    <= usize::MAX,
        ensures
            t.wf(),
            t@ == nat_values(values@),
    {
        let ghost vals = nat_values(values@);
        let mut tree: Vec<usize> = Vec::with_capacity(values.len() + 1);
        tree.push(0);
        let mut v: usize = 0;
        while v < values.len()
            invariant
                v <= values@.len(),
                tree@.len() == v + 1,
                tree@[0] == 0,
                forall|j: int| 1 <= j <= v ==> #[trigger] tree@[j] == values@[j - 1],
            decreases values@.len() - v,
        {
            tree.push(values[v]);
            v = v + 1;
        }
        let n = tree.len();
        let ghost mut ends: Seq<int> = Seq::new(n as nat, |j: int| low_end(j as usize));
        proof {
            assert forall|j: int| 1 <= j < n implies #[trigger] partial_node(
                vals,
                tree@[j] as int,
                j as usize,
                ends[j],
                1,
            ) by {
                lemma_lowbit_bounds(j as usize);
            }
        }
        let mut tree_index: usize = 1;
        while tree_index < n
            invariant
                1 <= tree_index <= n,
                n == tree@.len(),
                n == vals.len() + 1,
                n <= usize::MAX / 2,
                vals == nat_values(values@),
                tree@[0] == 0,
                ends.len() == n,
                forall|j: int|
                    1 <= j <= vals.len() ==> #[trigger] node_sum(vals, j as usize) <= usize::MAX,
                forall|j: int|
                    #![trigger tree@[j]]
                    1 <= j < n ==> partial_node(
                        vals,
                        tree@[j] as int,
                        j as usize,
                        ends[j],
                        tree_index as int,
                    ),
            decreases n - tree_index,
        {
            let i = tree_index;
            proof {
                assert(partial_node(vals, tree@[i as int] as int, i, ends[i as int], i as int));
                lemma_partial_complete(i, ends[i as int], i as int);
                lemma_lowbit_bounds(i);
            }
            let step = lowest_set_bit(i);
            let parent_index = i + step;
            let ghost before = tree@;
            let ghost before_ends = ends;
            if parent_index < n {
                let p = parent_index;
                proof {
                    assert(partial_node(vals, before[p as int] as int, p, ends[p as int], i as int));
                    lemma_accumulate_start(i, p, ends[p as int]);
                    lemma_sum_to_monotone(vals, i as int, p - 1);
                    assert(ends[i as int] == i - 1);
                    assert(tree@[i as int] == vals[i - 1] + sum_to(vals, i - 1) - sum_to(vals, low_end(i)));
                    assert(sum_to(vals, i as int) == sum_to(vals, i - 1) + vals[i - 1]);
                    assert(sum_to(vals, p as int) == sum_to(vals, p - 1) + vals[p - 1]);
                    assert(node_sum(vals, p) <= usize::MAX);
                    assert(tree@[p as int] + tree@[i as int] <= node_sum(vals, p));
                }
                let sum = tree[p] + tree[i];
                tree.set(p, sum);
                proof {
                    ends = ends.update(p as int, i as int);
                }
            }
            tree_index = tree_index + 1;
            proof {
                assert forall|j: int| 1 <= j < n implies #[trigger] partial_node(
                    vals,
                    tree@[j] as int,
                    j as usize,
                    ends[j],
                    tree_index as int,
                ) by {
                    assert(partial_node(vals, before[j] as int, j as usize, before_ends[j], i as int));
                    if j == parent_index {
                        assert(no_child_between(j as usize, ends[j], tree_index as int));
                    } else {
                        assert forall|c: int|
                            ends[j] < c < tree_index && c >= 1 implies #[trigger] parent(c as usize) != j by {
                            if c < i {
                                assert(no_child_between(j as usize, before_ends[j], i as int));
                            }
                        }
                    }
                }
            }
        }
        proof {
            assert forall|j: int| 1 <= j < n implies #[trigger] tree@[j] == node_sum(
                vals,
                j as usize,
            ) by {
                assert(partial_node(vals, tree@[j] as int, j as usize, ends[j], n as int));
                lemma_partial_complete(j as usize, ends[j], n as int);
            }
        }
        FenwickTree { tree, values: Ghost(vals) }
    }

    /// Adds `amount` to the value at `index`.
    pub fn add(&mut self, index: usize, amount: usize)
        requires
            old(self).wf(),
            index < old(self)@.len(),
            forall|j: int|
                1 <= j <= old(self)@.len() && covers(j as usize, index as int) ==> #[trigger] node_sum(
                    old(self)@,
                    j as usize,
                ) + amount <= usize::MAX,
        ensures
            final(self).wf(),
            final(self)@ == added(old(self)@, index as int, amount as nat),
    {
        let ghost vals = self.values@;
        let ghost n = self.tree@.len();
        let mut tree_index = index + 1;
        proof {
            lemma_lowbit_bounds(tree_index);
        }
        while tree_index < self.tree.len()
            invariant
                n == self.tree@.len(),
                n == vals.len() + 1,
                n <= usize::MAX / 2,
                vals == self.values@,
                vals == old(self)@,
                index < vals.len(),
                index + 1 <= tree_index,
                self.tree@[0] == 0,
                tree_index < n ==> covers(tree_index, index as int),
                forall|j: int|
                    1 <= j <= vals.len() && covers(j as usize, index as int) ==> #[trigger] node_sum(
                        vals,
                        j as usize,
                    ) + amount <= usize::MAX,
                forall|j: int|
                    1 <= j < n ==> #[trigger] self.tree@[j] == node_sum(vals, j as usize) + (if covers(
                        j as usize,
                        index as int,
                    ) && j < tree_index {
                        amount as int
                    } else {
                        0
                    }),
            decreases (if tree_index < n {
                n - tree_index
            } else {
                0
            }),
        {
            let i = tree_index;
            proof {
                lemma_lowbit_bounds(i);
                assert(self.tree@[i as int] == node_sum(vals, i));
                assert(node_sum(vals, i) + amount <= usize::MAX);
            }
            let value = self.tree[i] + amount;
            self.tree.set(i, value);
            let step = lowest_set_bit(i);
            tree_index = i + step;
            proof {
                if tree_index < n {
                    lemma_child_range_start(i, tree_index);
                    if low_end(i) != low_end(tree_index) {
                        lemma_child_after_low_end(low_end(i) as usize, tree_index);
                    }
                }
                assert forall|j: int| i < j < tree_index implies !#[trigger] covers(j as usize, index as int) by {
                    lemma_between_parent(i, j as usize);
                }
            }
        }
        let ghost new_vals = vals.update(index as int, vals[index as int] + amount as nat);
        self.values = Ghost(new_vals);
        proof {
            assert forall|j: int| 1 <= j < n implies #[trigger] self.tree@[j] == node_sum(
                new_vals,
                j as usize,
            ) by {
                lemma_lowbit_bounds(j as usize);
                lemma_sum_to_update(vals, index as int, amount as nat, j);
                lemma_sum_to_update(vals, index as int, amount as nat, low_end(j as usize));
            }
        }
    }
}

/// The lowest set bit of `value` (0 for 0).
fn lowest_set_bit(value: usize) -> (r: usize)
    ensures
        r == lowbit(value),
{
    if value == 0 {
        0
    } else {
        value & !(value - 1)
    }
}

/// The values after `amount` is added at `index`.
pub open spec fn added(values: Seq<nat>, index: int, amount: nat) -> Seq<nat> {
    values.update(index, values[index] + amount)
}

/// The values after each index of `order`, in turn, has had its entry of
/// `amounts` added to it.
pub open spec fn added_all(values: Seq<nat>, order: Seq<int>, amounts: Seq<nat>) -> Seq<nat>
    decreases order.len(),
{
    if order.len() == 0 {
        values
    } else {
        added(added_all(values, order.drop_last(), amounts), order.last(), amounts[order.last()])
    }
}

/// `n` zeros: the values of `FenwickTree::new(n)`.
pub open spec fn zeros(n: nat) -> Seq<nat> {
    Seq::new(n, |i: int| 0nat)
}

/// Additions at two indices commute.
pub proof fn lemma_add_commutes(values: Seq<nat>, i: int, j: int, a: nat, b: nat)
    requires
        0 <= i < values.len(),
        0 <= j < values.len(),
    ensures
        added(added(values, i, a), j, b) == added(added(values, j, b), i, a),
{
    assert(added(added(values, i, a), j, b) =~= added(added(values, j, b), i, a));
}

/// Two additions at one index are one addition of their sum.
pub proof fn lemma_add_merges(values: Seq<nat>, i: int, a: nat, b: nat)
    requires
        0 <= i < values.len(),
    ensures
        added(added(values, i, a), i, b) == added(values, i, a + b),
{
    assert(added(added(values, i, a), i, b) =~= added(values, i, a + b));
}

/// Adding zero changes nothing.
pub proof fn lemma_add_zero(values: Seq<nat>, i: int)
    requires
        0 <= i < values.len(),
    ensures
        added(values, i, 0) == values,
{
    assert(added(values, i, 0) =~= values);
}

proof fn lemma_added_all_entries(n: nat, order: Seq<int>, amounts: Seq<nat>)
    requires
        amounts.len() == n,
        order.no_duplicates(),
        forall|k: int| 0 <= k < order.len() ==> 0 <= #[trigger] order[k] < n,
    ensures
        added_all(zeros(n), order, amounts).len() == n,
        forall|i: int|
            0 <= i < n ==> #[trigger] added_all(zeros(n), order, amounts)[i] == if order.contains(i) {
                amounts[i]
            } else {
                0
            },
    decreases order.len(),
{
    if order.len() > 0 {
        let rest = order.drop_last();
        assert forall|k: int| 0 <= k < rest.len() implies 0 <= #[trigger] rest[k] < n by {
            assert(rest[k] == order[k]);
        }
        assert(rest.no_duplicates()) by {
            assert forall|x: int, y: int| 0 <= x < y < rest.len() implies rest[x] != rest[y] by {
                assert(rest[x] == order[x] && rest[y] == order[y]);
            }
        }
        lemma_added_all_entries(n, rest, amounts);
        let last = order.last();
        assert(!rest.contains(last)) by {
            if rest.contains(last) {
                let x = choose|x: int| 0 <= x < rest.len() && rest[x] == last;
                assert(order[x] == order[order.len() - 1]);
            }
        }
        assert forall|i: int| 0 <= i < n implies #[trigger] added_all(zeros(n), order, amounts)[i]
            == if order.contains(i) {
            amounts[i]
        } else {
            0
        } by {
            if order.contains(i) && i != last {
                let x = choose|x: int| 0 <= x < order.len() && order[x] == i;
                assert(rest[x] == i);
            }
            if rest.contains(i) {
                let x = choose|x: int| 0 <= x < rest.len() && rest[x] == i;
                assert(order[x] == i);
            }
            if i == last {
                assert(order[order.len() - 1] == i);
            }
        }
    }
}

/// Starting from zeros, adding each value once at its index, in any order,
/// gives the values: what `FenwickTree::from_slice` holds.
pub proof fn lemma_adds_in_any_order(amounts: Seq<nat>, order: Seq<int>)
    requires
        order.no_duplicates(),
        order.len() == amounts.len(),
        forall|k: int| 0 <= k < order.len() ==> 0 <= #[trigger] order[k] < amounts.len(),
    ensures
        added_all(zeros(amounts.len()), order, amounts) == amounts,
{
    let n = amounts.len();
    lemma_added_all_entries(n, order, amounts);
    assert forall|i: int| 0 <= i < n implies order.contains(i) by {
        lemma_permutation_contains(order, n, i);
    }
    assert(added_all(zeros(n), order, amounts) =~= amounts);
}

/// A sequence of `n` distinct indices below `n` holds every index below `n`.
proof fn lemma_permutation_contains(order: Seq<int>, n: nat, i: int)
    requires
        order.no_duplicates(),
        order.len() == n,
        forall|k: int| 0 <= k < order.len() ==> 0 <= #[trigger] order[k] < n,
        0 <= i < n,
    ensures
        order.contains(i),
{
    if !order.contains(i) {
        let s = order.to_set();
        order.unique_seq_to_set();
        assert(s.subset_of(Set::new(|x: int| 0 <= x < n && x != i)));
        let t = Set::new(|x: int| 0 <= x < n && x != i);
        assert(t =~= vstd::set_lib::set_int_range(0, n as int).remove(i));
        vstd::set_lib::lemma_int_range(0, n as int);
        vstd::set_lib::lemma_len_subset(s, t);
    }
}

/// A tree built from `values` and one built by adding each value once to a
/// tree of zeros, in any order, have the same nodes.
pub proof fn lemma_from_slice_is_adds(built: &FenwickTree, summed: &FenwickTree, order: Seq<int>)
    requires
        built.wf(),
        summed.wf(),
        order.no_duplicates(),
        order.len() == built@.len(),
        forall|k: int| 0 <= k < order.len() ==> 0 <= #[trigger] order[k] < built@.len(),
        summed@ == added_all(zeros(built@.len()), order, built@),
    ensures
        built.nodes() == summed.nodes(),
{
    lemma_adds_in_any_order(built@, order);
    FenwickTree::lemma_nodes_determined(built, summed);
}

/// The lowest set bit of a positive `x` is a single bit (a power of two)
/// that is set in `x` with every lower bit of `x` clear: the largest power
/// of two that divides `x`. So node `j` covers the values from
/// `j - lowbit(j)` up to `j`.
pub proof fn lemma_lowbit_is_lowest_power(x: usize)
    requires
        x > 0,
    ensures
        lowbit(x) > 0,
        lowbit(x) & ((lowbit(x) - 1) as usize) == 0,
        x & lowbit(x) == lowbit(x),
        x & ((lowbit(x) - 1) as usize) == 0,
{
    let l = x & !((x - 1) as usize);
    assert(x > 0 && l == x & !((x - 1) as usize) ==> l > 0 && l & ((l - 1) as usize) == 0 && x & l
        == l && x & ((l - 1) as usize) == 0) by (bit_vector);
}

} // verus!
