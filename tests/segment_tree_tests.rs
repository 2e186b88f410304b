use hft_service::node::{Moments, Node};
use hft_service::segment_tree::SegmentTree;

/// Welford's running mean and sum of squared deviations, in binary64.
#[derive(Debug, Clone, Copy)]
struct Welford {
    mean: f64,
    m2: f64,
}

impl Moments for Welford {
    fn empty() -> Self {
        Welford { mean: 0.0, m2: 0.0 }
    }

    fn single(sample: u64) -> Self {
        Welford { mean: f64::from_bits(sample), m2: 0.0 }
    }

    fn combine(left: &Self, left_count: u64, right: &Self, right_count: u64) -> Self {
        let n = (left_count + right_count) as f64;
        let delta = right.mean - left.mean;
        Welford {
            mean: left.mean + delta * (right_count as f64 / n),
            m2: left.m2 + right.m2 + delta.powi(2) * (left_count as f64 * right_count as f64 / n),
        }
    }
}

const EPSILON: f64 = 1e-9;

fn assert_float_eq(a: f64, b: f64) {
    assert!((a - b).abs() < EPSILON, "Assertion failed: Expected {}, got {}", b, a);
}

fn bits(values: &[f64]) -> Vec<u64> {
    values.iter().map(|v| v.to_bits()).collect()
}

fn fill(tree: &mut SegmentTree<Welford>, data: &[f64]) -> Vec<u64> {
    let mut values = Vec::new();
    for (i, &v) in data.iter().enumerate() {
        values.push(v.to_bits());
        tree.update(i, v.to_bits(), &values);
    }
    values
}

#[test]
fn test_empty_query() {
    let tree = SegmentTree::<Welford>::new(10);
    let node = tree.query(0, 5);
    assert_eq!(node.count, 0);
}

#[test]
fn test_single_element() {
    let mut tree = SegmentTree::<Welford>::new(10);
    let mut values = Vec::new();

    values.push(150.5f64.to_bits());
    tree.update(0, 150.5f64.to_bits(), &values);

    let node = tree.query(0, 0);
    assert_eq!(node.count, 1);
    assert_float_eq(node.moments.mean, 150.5);
    assert_float_eq(node.moments.m2, 0.0);
}

#[test]
fn test_multiple_elements_full_range() {
    let mut tree = SegmentTree::<Welford>::new(10);
    fill(&mut tree, &[10.0, 20.0, 5.0, 15.0]);

    let node = tree.query(0, 3);
    assert_eq!(node.count, 4);
    assert_float_eq(f64::from_bits(node.min), 5.0);
    assert_float_eq(f64::from_bits(node.max), 20.0);
    assert_float_eq(node.moments.mean, 12.5);
    assert_float_eq(node.moments.m2, 125.0);
    let variance = node.moments.m2 / node.count as f64;
    assert_float_eq(variance, 31.25);
}

#[test]
fn test_multiple_elements_sub_range() {
    let mut tree = SegmentTree::<Welford>::new(10);
    fill(&mut tree, &[10.0, 20.0, 5.0, 15.0, 25.0]);

    let node = tree.query(1, 3);
    assert_eq!(node.count, 3);
    assert_float_eq(f64::from_bits(node.min), 5.0);
    assert_float_eq(f64::from_bits(node.max), 20.0);
    let expected_mean = 40.0 / 3.0;
    assert_float_eq(node.moments.mean, expected_mean);
    let expected_m2 = (20.0f64 - expected_mean).powi(2)
        + (5.0f64 - expected_mean).powi(2)
        + (15.0f64 - expected_mean).powi(2);
    assert_float_eq(node.moments.m2, expected_m2);
}

#[test]
fn test_resizing_with_welford() {
    let mut tree = SegmentTree::<Welford>::new(2);
    fill(&mut tree, &[10.0, 20.0, 5.0, 15.0]);

    assert!(tree.capacity() >= 4);

    let node = tree.query(0, 3);
    assert_eq!(node.count, 4);
    assert_float_eq(node.moments.mean, 12.5);
    assert_float_eq(node.moments.m2, 125.0);
}

#[test]
fn test_numerical_stability_with_large_offset() {
    let mut tree = SegmentTree::<Welford>::new(4);
    const OFFSET: f64 = 1_000_000_000.0;
    fill(&mut tree, &[OFFSET + 1.0, OFFSET - 1.0, OFFSET + 1.0, OFFSET - 1.0]);

    let node = tree.query(0, 3);
    assert_float_eq(node.moments.mean, OFFSET);
    let variance = node.moments.m2 / node.count as f64;
    assert_float_eq(variance, 1.0);
}

#[test]
fn capacity_is_as_requested() {
    assert_eq!(SegmentTree::<Welford>::new(10).capacity(), 10);
    assert_eq!(SegmentTree::<Welford>::new(16).capacity(), 16);
    assert_eq!(SegmentTree::<Welford>::new(0).capacity(), 0);
    assert_eq!(SegmentTree::<Welford>::new(1_000_000).capacity(), 1_000_000);
}

#[test]
fn growth_takes_max_of_double_and_required() {
    let mut tree = SegmentTree::<Welford>::new(1);
    tree.update(0, 1.0f64.to_bits(), &[1.0f64.to_bits()]);
    let log = bits(&[1.0, 2.0, 3.0]);
    tree.update(2, 3.0f64.to_bits(), &log);
    assert_eq!(tree.capacity(), 3);
    let node = tree.query(0, 2);
    assert_eq!(node.count, 3);
    assert_eq!(f64::from_bits(node.min), 1.0);
    assert_eq!(f64::from_bits(node.max), 3.0);
    assert_float_eq(node.moments.mean, 2.0);
    tree.update(3, 4.0f64.to_bits(), &bits(&[1.0, 2.0, 3.0, 4.0]));
    assert_eq!(tree.capacity(), 6);
    assert_eq!(tree.query(0, 5).count, 4);
}

#[test]
fn odd_capacities_answer_every_range() {
    for cap in [3usize, 5, 6, 7, 11] {
        let data: Vec<f64> = (0..cap).map(|i| ((i * 13) % 7) as f64 + 1.0).collect();
        let mut tree = SegmentTree::<Welford>::new(cap);
        fill(&mut tree, &data);
        assert_eq!(tree.capacity(), cap);
        for l in 0..cap {
            for r in l..cap {
                let node = tree.query(l, r);
                let slice = &data[l..=r];
                assert_eq!(node.count as usize, slice.len());
                assert_eq!(f64::from_bits(node.min), slice.iter().cloned().fold(f64::INFINITY, f64::min));
                assert_eq!(f64::from_bits(node.max), slice.iter().cloned().fold(f64::NEG_INFINITY, f64::max));
                let mean = slice.iter().sum::<f64>() / slice.len() as f64;
                assert!((node.moments.mean - mean).abs() < 1e-9);
            }
        }
    }
}

#[test]
fn growth_doubles_and_keeps_earlier_samples() {
    let mut tree = SegmentTree::<Welford>::new(1);
    fill(&mut tree, &[3.0, 1.0, 4.0, 1.0, 5.0, 9.0, 2.0, 6.0, 5.0]);
    assert_eq!(tree.capacity(), 16);
    let node = tree.query(0, 8);
    assert_eq!(node.count, 9);
    assert_eq!(f64::from_bits(node.min), 1.0);
    assert_eq!(f64::from_bits(node.max), 9.0);
    assert_float_eq(node.moments.mean, 4.0);
    let node = tree.query(5, 7);
    assert_eq!(node.count, 3);
    assert_eq!(f64::from_bits(node.min), 2.0);
    assert_eq!(f64::from_bits(node.max), 9.0);
}

#[test]
fn query_with_left_after_right_is_empty() {
    let mut tree = SegmentTree::<Welford>::new(8);
    fill(&mut tree, &[1.0, 2.0, 3.0]);
    let node = tree.query(2, 1);
    assert_eq!(node.count, 0);
    assert_eq!(f64::from_bits(node.min), f64::INFINITY);
    assert_eq!(f64::from_bits(node.max), f64::NEG_INFINITY);
    let node = SegmentTree::<Welford>::new(0).query(9, 3);
    assert_eq!(node.count, 0);
}

#[test]
fn query_past_populated_leaves_counts_only_samples() {
    let mut tree = SegmentTree::<Welford>::new(8);
    fill(&mut tree, &[7.0, 8.0, 9.0]);
    let node = tree.query(1, 7);
    assert_eq!(node.count, 2);
    assert_eq!(f64::from_bits(node.min), 8.0);
    assert_eq!(f64::from_bits(node.max), 9.0);
}

#[test]
fn overwriting_a_leaf_updates_the_summary() {
    let mut tree = SegmentTree::<Welford>::new(4);
    let values = fill(&mut tree, &[10.0, 20.0, 30.0]);
    tree.update(1, 2.0f64.to_bits(), &values);
    let node = tree.query(0, 2);
    assert_eq!(node.count, 3);
    assert_eq!(f64::from_bits(node.min), 2.0);
    assert_eq!(f64::from_bits(node.max), 30.0);
    assert_float_eq(node.moments.mean, 14.0);
}

#[test]
fn every_range_matches_naive_aggregation() {
    let data: Vec<f64> = (0..37).map(|i| ((i * 7919) % 101) as f64 + 0.5).collect();
    let mut tree = SegmentTree::<Welford>::new(5);
    fill(&mut tree, &data);
    for l in 0..data.len() {
        for r in l..data.len() {
            let node = tree.query(l, r);
            let slice = &data[l..=r];
            let min = slice.iter().cloned().fold(f64::INFINITY, f64::min);
            let max = slice.iter().cloned().fold(f64::NEG_INFINITY, f64::max);
            let mean = slice.iter().sum::<f64>() / slice.len() as f64;
            assert_eq!(node.count as usize, slice.len());
            assert_eq!(f64::from_bits(node.min), min);
            assert_eq!(f64::from_bits(node.max), max);
            assert!((node.moments.mean - mean).abs() < 1e-9);
        }
    }
}

#[test]
fn merge_with_empty_is_identity() {
    let e = Node::<Welford>::empty();
    let a = Node::<Welford>::single(3.5f64.to_bits());
    let m = e.merge(&a);
    assert_eq!(m.count, 1);
    assert_eq!(m.min, a.min);
    assert_eq!(m.moments.mean, 3.5);
    let m = a.merge(&e);
    assert_eq!(m.count, 1);
    assert_eq!(m.max, a.max);
    let d = Node::<Welford>::default();
    assert_eq!(d.count, 0);
    assert_eq!(f64::from_bits(d.min), f64::INFINITY);
    assert_eq!(f64::from_bits(d.max), f64::NEG_INFINITY);
}

#[test]
fn merge_combines_extremes_and_counts() {
    let a = Node::<Welford>::single(4.0f64.to_bits());
    let b = Node::<Welford>::single(1.0f64.to_bits());
    let m = a.merge(&b);
    assert_eq!(m.count, 2);
    assert_eq!(f64::from_bits(m.min), 1.0);
    assert_eq!(f64::from_bits(m.max), 4.0);
    assert_float_eq(m.moments.mean, 2.5);
    assert_float_eq(m.moments.m2, 4.5);
}

#[test]
fn writing_past_the_populated_leaves_leaves_a_gap() {
    let mut tree = SegmentTree::<Welford>::new(8);
    let values = fill(&mut tree, &[1.0, 2.0, 3.0]);
    tree.update(6, 10.0f64.to_bits(), &values);
    let node = tree.query(0, 7);
    assert_eq!(node.count, 4);
    assert_eq!(f64::from_bits(node.max), 10.0);
    let node = tree.query(3, 5);
    assert_eq!(node.count, 0);
    let node = tree.query(5, 6);
    assert_eq!(node.count, 1);
    assert_float_eq(node.moments.mean, 10.0);
}
