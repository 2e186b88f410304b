//! Iterative bottom-up segment tree over aggregate nodes.
//!
//! A tree of capacity `C` holds `2C` nodes: leaf `i` lives at physical index
//! `i + C`, node `p` merges nodes `2p` and `2p + 1`, and node `1` is the root.
//! For a power of two `w`, a node `p` with `C <= p * w` and
//! `(p + 1) * w <= 2C` covers exactly the leaves `p * w - C .. (p + 1) * w - C`,
//! in order; these are the only nodes a query reads.
use vstd::prelude::*;
use crate::node::{
    describes, lemma_merge_describes, merged, Moments, Node, NEG_INF_BITS, POS_INF_BITS,
};

verus! {

/// Largest number of leaves a caller may ask for, or index it may update.
pub const MAX_LEAVES: usize = 0x2000_0000;

/// `n` is a power of two.
pub open spec fn is_pow2(n: int) -> bool
    decreases n,
{
    if n <= 0 {
        false
    } else if n == 1 {
        true
    } else {
        n % 2 == 0 && is_pow2(n / 2)
    }
}

/// Capacity after growing a tree of capacity `c` so that it holds leaf
/// `required - 1`: `max(2c, required)`.
pub open spec fn grown_capacity(c: int, required: int) -> int {
    if 2 * c >= required {
        2 * c
    } else {
        required
    }
}

/// The samples held by leaves `a .. b`, in leaf order (empty leaves skipped).
pub open spec fn present(leaves: Seq<Option<u64>>, a: int, b: int) -> Seq<u64>
    decreases b - a,
{
    if b <= a {
        Seq::empty()
    } else {
        let s = present(leaves, a, b - 1);
        match leaves[b - 1] {
            Some(v) => s.push(v),
            None => s,
        }
    }
}

/// `c` leaves holding `vals` in order, the rest empty.
pub open spec fn as_leaves(vals: Seq<u64>, c: int) -> Seq<Option<u64>> {
    Seq::new(c as nat, |i: int| if i < vals.len() { Some(vals[i]) } else { None })
}

pub struct SegmentTree<M> {
    tree: Vec<Node<M>>,
    capacity: usize,
    leaves: Ghost<Seq<Option<u64>>>,
}

impl<M> View for SegmentTree<M> {
    type V = Seq<Option<u64>>;

    /// The sample of each leaf, `None` for an empty one.
    closed spec fn view(&self) -> Seq<Option<u64>> {
        self.leaves@
    }
}

#[verifier::opaque]
spec fn leaves_ok<M>(t: Seq<Node<M>>, c: int, vals: Seq<Option<u64>>) -> bool {
    forall|p: int| c <= p < 2 * c ==> describes(#[trigger] t[p], present(vals, p - c, p - c + 1))
}

#[verifier::opaque]
spec fn counts_ok<M>(t: Seq<Node<M>>, c: int) -> bool {
    forall|p: int| 1 <= p < 2 * c ==> (#[trigger] t[p]).count * p <= 2 * c
}

#[verifier::opaque]
spec fn parents_ok_from<M>(t: Seq<Node<M>>, c: int, lo: int) -> bool {
    forall|p: int| lo <= p < c ==> merged(#[trigger] t[p], t[2 * p], t[2 * p + 1])
}

proof fn lemma_present_concat(vals: Seq<Option<u64>>, a: int, b: int, d: int)
    requires
        a <= b <= d,
    ensures
        present(vals, a, b) + present(vals, b, d) =~= present(vals, a, d),
    decreases d - b,
{
    if d > b {
        lemma_present_concat(vals, a, b, d - 1);
    } else {
        assert(present(vals, a, b) + Seq::<u64>::empty() =~= present(vals, a, b));
    }
}

proof fn lemma_present_len(vals: Seq<Option<u64>>, a: int, b: int)
    requires
        a <= b,
    ensures
        present(vals, a, b).len() <= b - a,
    decreases b - a,
{
    if b > a {
        lemma_present_len(vals, a, b - 1);
    }
}

proof fn lemma_present_leaf(vals: Seq<Option<u64>>, j: int)
    ensures
        present(vals, j, j + 1) == (match vals[j] {
            Some(v) => seq![v],
            None => Seq::<u64>::empty(),
        }),
{
    assert(present(vals, j, j) == Seq::<u64>::empty());
    if let Some(v) = vals[j] {
        assert(Seq::<u64>::empty().push(v) =~= seq![v]);
    }
}

/// Over leaves that hold a sequence in order, the samples of a range are
/// that part of the sequence.
pub proof fn lemma_present_prefix(vals: Seq<u64>, c: int, a: int, b: int)
    requires
        0 <= a <= b <= vals.len() <= c,
    ensures
        present(as_leaves(vals, c), a, b) =~= vals.subrange(a, b),
    decreases b - a,
{
    if b > a {
        lemma_present_prefix(vals, c, a, b - 1);
        assert(vals.subrange(a, b - 1).push(vals[b - 1]) =~= vals.subrange(a, b));
    }
}

/// Growing makes room for leaf `required - 1`.
pub proof fn lemma_grown_at_least(c: int, required: int)
    ensures
        grown_capacity(c, required) >= required,
        grown_capacity(c, required) >= 2 * c,
{
}

/// A parent whose children respect the count bound respects it too.
proof fn lemma_count_merge(a: int, b: int, p: int, c: int)
    requires
        p >= 1,
        a >= 0,
        b >= 0,
        a * (2 * p) <= 2 * c,
        b * (2 * p + 1) <= 2 * c,
    ensures
        (a + b) * p <= 2 * c,
        a + b <= 2 * c,
{
    assert(a * p <= c) by (nonlinear_arith)
        requires
            a * (2 * p) <= 2 * c,
    ;
    assert(b * p <= c) by (nonlinear_arith)
        requires
            b * (2 * p + 1) <= 2 * c,
            b >= 0,
            p >= 1,
    ;
    assert((a + b) * p == a * p + b * p) by (nonlinear_arith);
    assert(a <= a * p && b <= b * p) by (nonlinear_arith)
        requires
            a >= 0,
            b >= 0,
            p >= 1,
    ;
}

proof fn lemma_parents_from<M>(t: Seq<Node<M>>, c: int, lo: int, hi: int)
    requires
        parents_ok_from(t, c, lo),
        lo <= hi,
    ensures
        parents_ok_from(t, c, hi),
{
    reveal(parents_ok_from);
}

proof fn lemma_pow2_double(n: int)
    requires
        is_pow2(n),
    ensures
        is_pow2(2 * n),
{
    assert((2 * n) / 2 == n);
}

proof fn lemma_pow2_half(n: int)
    requires
        is_pow2(n),
        n >= 2,
    ensures
        n % 2 == 0,
        is_pow2(n / 2),
        n / 2 >= 2 ==> (n / 2) % 2 == 0,
{
    if n / 2 >= 2 {
        assert(is_pow2(n / 2));
    }
}

/// The children of a node covering leaves at the level of width `w` cover
/// leaves at the level of width `w / 2`.
proof fn lemma_level_split(c: int, q: int, w: int)
    requires
        c >= 1,
        is_pow2(w),
        w >= 2,
        c <= q * w,
        (q + 1) * w <= 2 * c,
    ensures
        w == 2 * (w / 2),
        w / 2 >= 1,
        is_pow2(w / 2),
        1 <= q < c,
        c <= (2 * q) * (w / 2),
        (2 * q) * (w / 2) == q * w,
        (2 * q + 1) * (w / 2) == q * w + w / 2,
        c <= (2 * q + 1) * (w / 2),
        (2 * q + 1) * (w / 2) <= 2 * c,
        (2 * q + 2) * (w / 2) == (q + 1) * w,
        (q + 1) * w == q * w + w,
{
    lemma_pow2_half(w);
    let h = w / 2;
    assert(q >= 1) by (nonlinear_arith)
        requires
            c <= q * w,
            c >= 1,
            w >= 2,
    ;
    assert(q + 1 <= c) by (nonlinear_arith)
        requires
            (q + 1) * w <= 2 * c,
            w >= 2,
            q >= 1,
    ;
    assert((q + 1) * w == q * w + w) by (nonlinear_arith);
    assert((2 * q) * h == q * w) by (nonlinear_arith)
        requires
            w == 2 * h,
    ;
    assert((2 * q + 1) * h == q * w + h) by (nonlinear_arith)
        requires
            w == 2 * h,
    ;
    assert((2 * q + 2) * h == (q + 1) * w) by (nonlinear_arith)
        requires
            w == 2 * h,
    ;
}

/// Facts about the bounds of the query at the start of one of its rounds.
proof fn lemma_round_bounds(c: int, w: int, l: int, r: int)
    requires
        c >= 1,
        w >= 1,
        1 <= l <= r,
        c <= l * w,
        (r + 1) * w <= 2 * c,
    ensures
        (l + 1) * w <= 2 * c,
        c <= r * w,
        r < 2 * c,
        (l + 1) * w == l * w + w,
        (r + 1) * w == r * w + w,
        (r - 1) * w == r * w - w,
{
    assert((r - 1) * w == r * w - w) by (nonlinear_arith);
    assert((r + 1) * w == r * w + w) by (nonlinear_arith);
    assert((l + 1) * w == l * w + w) by (nonlinear_arith);
    assert(l * w <= r * w) by (nonlinear_arith)
        requires
            l <= r,
            w >= 1,
    ;
    assert(r < 2 * c) by (nonlinear_arith)
        requires
            r * w < 2 * c,
            w >= 1,
            r >= 1,
    ;
}

/// Halving the bounds of the query keeps the leaf offsets they stand for.
proof fn lemma_round_halve(w: int, l: int, r: int)
    requires
        is_pow2(w),
        l % 2 == 0,
        r % 2 == 1,
    ensures
        (l / 2) * (2 * w) == l * w,
        (r / 2 + 1) * (2 * w) == (r + 1) * w,
        is_pow2(2 * w),
{
    lemma_pow2_double(w);
    let l2 = l / 2;
    let r2 = r / 2;
    assert(l2 * (2 * w) == l * w) by (nonlinear_arith)
        requires
            l == 2 * l2,
    ;
    assert((r2 + 1) * (2 * w) == (r + 1) * w) by (nonlinear_arith)
        requires
            r == 2 * r2 + 1,
    ;
}

/// Node `q`, at the level of width `w`, summarizes the leaves it covers,
/// provided the leaves are right and every parent from `q` on merges its
/// children.
#[verifier::rlimit(40)]
proof fn lemma_subtree<M>(t: Seq<Node<M>>, c: int, vals: Seq<Option<u64>>, q: int, w: int)
    requires
        c >= 1,
        t.len() == 2 * c,
        is_pow2(w),
        c <= q * w,
        (q + 1) * w <= 2 * c,
        leaves_ok(t, c, vals),
        parents_ok_from(t, c, q),
    ensures
        describes(t[q], present(vals, q * w - c, (q + 1) * w - c)),
    decreases w,
{
    reveal(leaves_ok);
    reveal(parents_ok_from);
    if w == 1 {
        // a leaf
        assert(describes(t[q], present(vals, q - c, q - c + 1)));
    } else {
        lemma_level_split(c, q, w);
        let h = w / 2;
        lemma_subtree(t, c, vals, 2 * q, h);
        lemma_subtree(t, c, vals, 2 * q + 1, h);
        assert(merged(t[q], t[2 * q], t[2 * q + 1]));
        let a = q * w - c;
        let mid = (2 * q + 1) * h - c;
        let b = (q + 1) * w - c;
        lemma_merge_describes(
            t[2 * q],
            t[2 * q + 1],
            t[q],
            present(vals, a, mid),
            present(vals, mid, b),
        );
        lemma_present_concat(vals, a, mid, b);
    }
}

impl<M: Moments> SegmentTree<M> {
    /// Well-formedness: `2C` nodes over `C` leaves, every leaf the summary of
    /// its sample, every parent the merge of its children, and node `p`
    /// counting at most `2C / p` samples.
    pub closed spec fn wf(&self) -> bool {
        let c = self.capacity as int;
        &&& c <= 2 * MAX_LEAVES
        &&& self.tree@.len() == 2 * c
        &&& self.leaves@.len() == c
        &&& leaves_ok(self.tree@, c, self.leaves@)
        &&& parents_ok_from(self.tree@, c, 1)
        &&& counts_ok(self.tree@, c)
    }

    pub closed spec fn spec_capacity(&self) -> int {
        self.capacity as int
    }

    /// Facts of a well-formed tree that callers rely on.
    pub proof fn lemma_wf(&self)
        requires
            self.wf(),
        ensures
            self@.len() == self.spec_capacity(),
            0 <= self.spec_capacity() <= 2 * MAX_LEAVES,
    {
    }

    /// A tree of `capacity` leaves, all empty, in `2 * capacity` nodes.
    pub fn new(capacity: usize) -> (r: Self)
        requires
            capacity <= MAX_LEAVES,
        ensures
            r.wf(),
            r.spec_capacity() == capacity,
            r@ == as_leaves(Seq::empty(), capacity as int),
    {
        Self::filled(capacity)
    }

    /// Number of leaves.
    pub fn capacity(&self) -> (r: usize)
        ensures
            r == self.spec_capacity(),
    {
        self.capacity
    }

    fn filled(c: usize) -> (r: Self)
        requires
            c <= 2 * MAX_LEAVES,
        ensures
            r.wf(),
            r@ == as_leaves(Seq::empty(), c as int),
            r.spec_capacity() == c,
    {
        let e = Node::<M>::empty();
        let mut tree: Vec<Node<M>> = Vec::new();
        let total = 2 * c;
        while tree.len() < total
            invariant
                tree.len() <= total,
                total == 2 * c,
                e.count == 0,
                forall|k: int| 0 <= k < tree.len() ==> #[trigger] tree@[k] == e,
            decreases total - tree.len(),
        {
            tree.push(e);
        }
        let ghost leaves = as_leaves(Seq::empty(), c as int);
        let r = SegmentTree { tree, capacity: c, leaves: Ghost(leaves) };
        assert(leaves_ok(r.tree@, c as int, leaves)) by {
            reveal(leaves_ok);
            assert forall|p: int| c <= p < 2 * c implies describes(
                #[trigger] r.tree@[p],
                present(leaves, p - c, p - c + 1),
            ) by {
                lemma_present_leaf(leaves, p - c);
            }
        }
        assert(counts_ok(r.tree@, c as int)) by {
            reveal(counts_ok);
            assert forall|p: int| 1 <= p < 2 * c implies (#[trigger] r.tree@[p]).count * p <= 2
                * c by {
                assert(r.tree@[p] == e);
            }
        }
        assert(parents_ok_from(r.tree@, c as int, 1)) by {
            reveal(parents_ok_from);
            assert forall|p: int| 1 <= p < c implies merged(
                #[trigger] r.tree@[p],
                r.tree@[2 * p],
                r.tree@[2 * p + 1],
            ) by {
                assert(r.tree@[p] == e);
                assert(r.tree@[2 * p] == e);
                assert(r.tree@[2 * p + 1] == e);
            }
        }
        r
    }

    /// Writes `value` at leaf `index`. When `index` is beyond the capacity the
    /// tree first grows to `max(2C, index + 1)` leaves, rebuilt from the
    /// sample log `all_values`.
    pub fn update(&mut self, index: usize, value: u64, all_values: &[u64])
        requires
            old(self).wf(),
            index < MAX_LEAVES,
            index >= old(self).spec_capacity() ==> all_values@.len() <= grown_capacity(
                old(self).spec_capacity(),
                index + 1,
            ),
        ensures
            final(self).wf(),
            index < old(self).spec_capacity() ==> final(self).spec_capacity()
                == old(self).spec_capacity() && final(self)@ == old(self)@.update(
                index as int,
                Some(value),
            ),
            index >= old(self).spec_capacity() ==> final(self).spec_capacity() == grown_capacity(
                old(self).spec_capacity(),
                index + 1,
            ) && final(self)@ == as_leaves(all_values@, final(self).spec_capacity()).update(
                index as int,
                Some(value),
            ),
    {
        if index >= self.capacity {
            self.resize(index + 1, all_values);
        }
        self.update_internal(index, value);
    }

    #[verifier::rlimit(40)]
    fn update_internal(&mut self, index: usize, value: u64)
        requires
            old(self).wf(),
            index < old(self).spec_capacity(),
        ensures
            final(self).wf(),
            final(self)@ == old(self)@.update(index as int, Some(value)),
            final(self).spec_capacity() == old(self).spec_capacity(),
    {
        let ghost c = self.capacity as int;
        let ghost old_vals = self.leaves@;
        let ghost new_vals = old_vals.update(index as int, Some(value));
        let mut idx = index + self.capacity;
        let ghost before_leaf = self.tree@;
        self.tree.set(idx, Node::single(value));
        self.leaves = Ghost(new_vals);
        assert(leaves_ok(self.tree@, c, new_vals)) by {
            reveal(leaves_ok);
            assert forall|p: int| c <= p < 2 * c implies describes(
                #[trigger] self.tree@[p],
                present(new_vals, p - c, p - c + 1),
            ) by {
                lemma_present_leaf(new_vals, p - c);
                lemma_present_leaf(old_vals, p - c);
            }
        }
        assert(counts_ok(self.tree@, c)) by {
            reveal(counts_ok);
            assert forall|p: int| 1 <= p < 2 * c implies (#[trigger] self.tree@[p]).count * p <= 2
                * c by {
                if p != idx {
                    assert(self.tree@[p] == before_leaf[p]);
                } else {
                    assert(self.tree@[p].count == 1);
                    assert(self.tree@[p].count * p == p);
                }
            }
        }
        proof {
            reveal(parents_ok_from);
        }
        while idx > 1
            invariant
                c == self.capacity,
                c <= 2 * MAX_LEAVES,
                self.tree@.len() == 2 * c,
                self.leaves@ == new_vals,
                new_vals.len() == c,
                1 <= idx < 2 * c,
                leaves_ok(self.tree@, c, new_vals),
                counts_ok(self.tree@, c),
                forall|p: int|
                    1 <= p < c && p != idx / 2 ==> merged(
                        #[trigger] self.tree@[p],
                        self.tree@[2 * p],
                        self.tree@[2 * p + 1],
                    ),
            decreases idx,
        {
            let parent = idx / 2;
            let left_child = 2 * parent;
            let right_child = 2 * parent + 1;
            let a = self.tree[left_child];
            let b = self.tree[right_child];
            proof {
                reveal(counts_ok);
                assert(a.count * left_child <= 2 * c);
                assert(b.count * right_child <= 2 * c);
                lemma_count_merge(a.count as int, b.count as int, parent as int, c);
            }
            let n = a.merge(&b);
            let ghost before = self.tree@;
            self.tree.set(parent, n);
            proof {
                assert(leaves_ok(self.tree@, c, new_vals)) by {
                    reveal(leaves_ok);
                    assert forall|p: int| c <= p < 2 * c implies #[trigger] self.tree@[p]
                        == before[p] by {}
                }
                assert(counts_ok(self.tree@, c)) by {
                    reveal(counts_ok);
                    assert forall|p: int| 1 <= p < 2 * c implies (#[trigger] self.tree@[p]).count
                        * p <= 2 * c by {
                        if p != parent {
                            assert(self.tree@[p] == before[p]);
                        }
                    }
                }
            }
            idx = parent;
        }
        proof {
            reveal(parents_ok_from);
        }
    }

    /// Grows the tree to `max(2C, required)` leaves holding `all_values` in
    /// order.
    fn resize(&mut self, required_capacity: usize, all_values: &[u64])
        requires
            old(self).wf(),
            required_capacity <= MAX_LEAVES,
            required_capacity > old(self).spec_capacity(),
            all_values@.len() <= grown_capacity(old(self).spec_capacity(), required_capacity as int),
        ensures
            final(self).wf(),
            final(self).spec_capacity() == grown_capacity(
                old(self).spec_capacity(),
                required_capacity as int,
            ),
            final(self).spec_capacity() >= required_capacity,
            final(self)@ == as_leaves(all_values@, final(self).spec_capacity()),
    {
        let doubled = 2 * self.capacity;
        let new_capacity = if doubled >= required_capacity {
            doubled
        } else {
            required_capacity
        };
        *self = Self::filled(new_capacity);
        let n = all_values.len();
        let mut i: usize = 0;
        proof {
            assert(as_leaves(Seq::empty(), new_capacity as int) =~= as_leaves(
                all_values@.take(0),
                new_capacity as int,
            ));
        }
        while i < n
            invariant
                self.wf(),
                self.spec_capacity() == new_capacity,
                new_capacity >= n,
                n == all_values@.len(),
                i <= n,
                self@ == as_leaves(all_values@.take(i as int), new_capacity as int),
            decreases n - i,
        {
            self.update_internal(i, all_values[i]);
            assert(self@ =~= as_leaves(all_values@.take(i + 1), new_capacity as int));
            i = i + 1;
        }
        assert(all_values@.take(n as int) =~= all_values@);
    }

    /// Summary of leaves `left ..= right`; the empty node when `left > right`.
    #[verifier::rlimit(40)]
    pub fn query(&self, left: usize, right: usize) -> (r: Node<M>)
        requires
            self.wf(),
            left > right || right < self.spec_capacity(),
        ensures
            left > right ==> r.count == 0 && r.min == POS_INF_BITS && r.max == NEG_INF_BITS,
            left <= right ==> describes(r, present(self@, left as int, right + 1)),
    {
        if left > right {
            return Node::empty();
        }
        let ghost c = self.capacity as int;
        let mut res_left = Node::<M>::empty();
        let mut res_right = Node::<M>::empty();
        let mut l = left + self.capacity;
        let mut r = right + self.capacity;
        let ghost mut w: int = 1;
        while l <= r
            invariant
                self.wf(),
                c == self.capacity,
                left <= right < c,
                is_pow2(w),
                1 <= l <= r + 1,
                left <= l * w - c,
                (r + 1) * w - c <= right + 1,
                describes(res_left, present(self@, left as int, l * w - c)),
                describes(res_right, present(self@, (r + 1) * w - c, right + 1)),
            decreases r,
        {
            let ghost l0 = l as int;
            let ghost r0 = r as int;
            proof {
                lemma_round_bounds(c, w, l0, r0);
                lemma_parents_from(self.tree@, c, 1, l0);
                lemma_parents_from(self.tree@, c, 1, r0);
                lemma_present_len(self@, left as int, l0 * w - c);
                lemma_present_len(self@, (r0 + 1) * w - c, right + 1);
                lemma_present_len(self@, l0 * w - c, (l0 + 1) * w - c);
                lemma_present_len(self@, r0 * w - c, (r0 + 1) * w - c);
            }
            if l % 2 == 1 {
                let ghost a = l0 * w - c;
                proof {
                    lemma_subtree(self.tree@, c, self@, l0, w);
                    lemma_present_concat(self@, left as int, a, a + w);
                }
                let ghost prev = res_left;
                res_left = res_left.merge(&self.tree[l]);
                proof {
                    lemma_merge_describes(
                        prev,
                        self.tree@[l0],
                        res_left,
                        present(self@, left as int, a),
                        present(self@, a, a + w),
                    );
                }
                l = l + 1;
            }
            let ghost l1 = l as int;
            assert(l1 * w == l0 * w || l1 * w == l0 * w + w);
            if r % 2 == 0 {
                let ghost b = r0 * w - c;
                proof {
                    assert(l1 <= r0);
                    lemma_subtree(self.tree@, c, self@, r0, w);
                    lemma_present_concat(self@, b, b + w, right + 1);
                }
                let ghost prev = res_right;
                res_right = self.tree[r].merge(&res_right);
                proof {
                    lemma_merge_describes(
                        self.tree@[r0],
                        prev,
                        res_right,
                        present(self@, b, b + w),
                        present(self@, b + w, right + 1),
                    );
                }
                r = r - 1;
            }
            let ghost r1 = r as int;
            assert(r1 * w == r0 * w || r1 * w == r0 * w - w);
            assert(l1 % 2 == 0 && r1 % 2 == 1);
            proof {
                lemma_round_halve(w, l1, r1);
            }
            l = l / 2;
            r = r / 2;
            proof {
                w = 2 * w;
            }
        }
        proof {
            assert(l == r + 1);
            lemma_present_len(self@, left as int, l * w - c);
            lemma_present_len(self@, l * w - c, right + 1);
        }
        let res = res_left.merge(&res_right);
        proof {
            lemma_present_concat(self@, left as int, l * w - c, right + 1);
            lemma_merge_describes(
                res_left,
                res_right,
                res,
                present(self@, left as int, l * w - c),
                present(self@, l * w - c, right + 1),
            );
        }
        res
    }
}

} // verus!
