//! Samples and the aggregate node algebra.
//!
//! A sample is held by its IEEE 754 binary64 encoding (`u64`). For the
//! encodings of non-negative numbers (`+0.0` up to `+inf`) unsigned integer
//! order is numeric order, so the minimum, the maximum and the sign test are
//! exact integer operations here. The running moments (mean and spread) need
//! floating-point arithmetic; they are supplied by an implementation of
//! [`Moments`] and carried through the tree unchanged in shape.
use vstd::prelude::*;

verus! {

/// Encoding of `+inf`; the largest encoding of a non-negative, non-NaN number.
pub const POS_INF_BITS: u64 = 0x7FF0_0000_0000_0000;

/// Encoding of `-0.0`.
pub const NEG_ZERO_BITS: u64 = 0x8000_0000_0000_0000;

/// Encoding of `-inf`.
pub const NEG_INF_BITS: u64 = 0xFFF0_0000_0000_0000;

/// The encoding is a NaN (either sign).
pub open spec fn is_nan_bits(b: u64) -> bool {
    (POS_INF_BITS < b && b < NEG_ZERO_BITS) || NEG_INF_BITS < b
}

/// The encoded number is strictly below zero (`-0.0` is not).
pub open spec fn is_negative_bits(b: u64) -> bool {
    NEG_ZERO_BITS < b && b <= NEG_INF_BITS
}

/// A sample as the tree stores it: a non-negative number, zero as `+0.0`.
pub open spec fn is_sample(b: u64) -> bool {
    b <= POS_INF_BITS
}

/// The stored form of an accepted value: `-0.0` becomes `+0.0`.
pub open spec fn canonical(b: u64) -> u64 {
    if b == NEG_ZERO_BITS {
        0
    } else {
        b
    }
}

pub open spec fn min_u64(a: u64, b: u64) -> u64 {
    if a <= b {
        a
    } else {
        b
    }
}

pub open spec fn max_u64(a: u64, b: u64) -> u64 {
    if a >= b {
        a
    } else {
        b
    }
}

/// Smallest element of a non-empty sequence.
pub open spec fn seq_min(s: Seq<u64>) -> u64
    decreases s.len(),
{
    if s.len() == 0 {
        POS_INF_BITS
    } else if s.len() == 1 {
        s[0]
    } else {
        min_u64(seq_min(s.drop_last()), s.last())
    }
}

/// Largest element of a non-empty sequence.
pub open spec fn seq_max(s: Seq<u64>) -> u64
    decreases s.len(),
{
    if s.len() == 0 {
        0
    } else if s.len() == 1 {
        s[0]
    } else {
        max_u64(seq_max(s.drop_last()), s.last())
    }
}

/// Test whether a value is strictly negative.
pub fn is_negative(b: u64) -> (r: bool)
    ensures
        r == is_negative_bits(b),
{
    NEG_ZERO_BITS < b && b <= NEG_INF_BITS
}

/// Test whether a value is a NaN.
pub fn is_nan(b: u64) -> (r: bool)
    ensures
        r == is_nan_bits(b),
{
    (POS_INF_BITS < b && b < NEG_ZERO_BITS) || NEG_INF_BITS < b
}

/// The stored form of a value that is neither negative nor NaN.
pub fn canonicalize(b: u64) -> (r: u64)
    ensures
        r == canonical(b),
        !is_negative_bits(b) && !is_nan_bits(b) ==> is_sample(r),
{
    if b == NEG_ZERO_BITS {
        0
    } else {
        b
    }
}

/// Running moments of a run of samples (for instance Welford's mean and M2).
///
/// The node algebra only stores and forwards these values; how they are
/// computed is up to the implementation.
pub trait Moments: Copy {
    /// Moments of the empty run.
    fn empty() -> Self;

    /// Moments of a run holding one sample.
    fn single(sample: u64) -> Self;

    /// Moments of the run `left` followed by the run `right`, given their
    /// lengths (both at least one).
    fn combine(left: &Self, left_count: u64, right: &Self, right_count: u64) -> Self;
}

/// Aggregate summary of a contiguous run of samples.
pub struct Node<M> {
    pub min: u64,
    pub max: u64,
    pub count: u64,
    pub moments: M,
}

impl<M: Copy> Clone for Node<M> {
    fn clone(&self) -> (r: Self)
        ensures
            r == *self,
    {
        Node { min: self.min, max: self.max, count: self.count, moments: self.moments }
    }
}

impl<M: Copy> Copy for Node<M> {

}

/// `n` summarizes the run `s`: it counts it and, when `s` is not empty,
/// holds its smallest and largest sample.
pub open spec fn describes<M>(n: Node<M>, s: Seq<u64>) -> bool {
    &&& n.count == s.len()
    &&& s.len() > 0 ==> n.min == seq_min(s) && n.max == seq_max(s)
}

/// The exact part of `c` is the merge of those of `a` (left) and `b` (right).
pub open spec fn merged<M>(c: Node<M>, a: Node<M>, b: Node<M>) -> bool {
    &&& c.count == a.count + b.count
    &&& a.count == 0 ==> c.min == b.min && c.max == b.max
    &&& a.count != 0 && b.count == 0 ==> c.min == a.min && c.max == a.max
    &&& a.count != 0 && b.count != 0 ==> c.min == min_u64(a.min, b.min) && c.max == max_u64(
        a.max,
        b.max,
    )
}

impl<M: Moments> Node<M> {
    /// The identity of `merge`: no samples, `min = +inf`, `max = -inf`.
    pub fn empty() -> (r: Self)
        ensures
            r.count == 0,
            r.min == POS_INF_BITS,
            r.max == NEG_INF_BITS,
    {
        Node { min: POS_INF_BITS, max: NEG_INF_BITS, count: 0, moments: M::empty() }
    }

    /// Summary of the run holding the one sample `v`.
    pub fn single(v: u64) -> (r: Self)
        ensures
            r.count == 1,
            r.min == v,
            r.max == v,
            describes(r, seq![v]),
    {
        Node { min: v, max: v, count: 1, moments: M::single(v) }
    }

    /// Summary of the run of `self` followed by the run of `other`.
    pub fn merge(&self, other: &Self) -> (r: Self)
        requires
            self.count + other.count <= u64::MAX,
        ensures
            merged(r, *self, *other),
            self.count == 0 ==> r == *other,
            self.count != 0 && other.count == 0 ==> r == *self,
    {
        if self.count == 0 {
            return *other;
        }
        if other.count == 0 {
            return *self;
        }
        let min = if self.min <= other.min {
            self.min
        } else {
            other.min
        };
        let max = if self.max >= other.max {
            self.max
        } else {
            other.max
        };
        Node {
            min,
            max,
            count: self.count + other.count,
            moments: M::combine(&self.moments, self.count, &other.moments, other.count),
        }
    }
}

impl<M: Moments> Default for Node<M> {
    fn default() -> (r: Self)
        ensures
            r.count == 0,
            r.min == POS_INF_BITS,
            r.max == NEG_INF_BITS,
    {
        Self::empty()
    }
}

/// The extremes of a concatenation are the extremes of the extremes.
pub proof fn lemma_extremes_concat(s1: Seq<u64>, s2: Seq<u64>)
    requires
        s1.len() > 0,
        s2.len() > 0,
    ensures
        seq_min(s1 + s2) == min_u64(seq_min(s1), seq_min(s2)),
        seq_max(s1 + s2) == max_u64(seq_max(s1), seq_max(s2)),
    decreases s2.len(),
{
    let s = s1 + s2;
    if s2.len() == 1 {
        assert(s.drop_last() =~= s1);
    } else {
        assert(s.drop_last() =~= s1 + s2.drop_last());
        lemma_extremes_concat(s1, s2.drop_last());
    }
}

/// Merging the summaries of two adjacent runs summarizes their concatenation.
pub proof fn lemma_merge_describes<M>(
    a: Node<M>,
    b: Node<M>,
    c: Node<M>,
    s1: Seq<u64>,
    s2: Seq<u64>,
)
    requires
        describes(a, s1),
        describes(b, s2),
        merged(c, a, b),
    ensures
        describes(c, s1 + s2),
{
    if s1.len() == 0 {
        assert(s1 + s2 =~= s2);
    } else if s2.len() == 0 {
        assert(s1 + s2 =~= s1);
    } else {
        lemma_extremes_concat(s1, s2);
    }
}

/// The smallest sample of a run is at most its largest.
pub proof fn lemma_min_le_max(s: Seq<u64>)
    requires
        s.len() > 0,
    ensures
        seq_min(s) <= seq_max(s),
    decreases s.len(),
{
    if s.len() > 1 {
        lemma_min_le_max(s.drop_last());
    }
}

} // verus!
