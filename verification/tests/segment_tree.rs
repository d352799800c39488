use library::data_structure::segment_tree::SegmentTree;
use library::data_structure::segtree::monoids::{Monoid, RangeMinMonoid, RangeSumMonoid};
use library::utils::versatility_functions::Endpoint;
use library::utils::versatility_functions::Endpoint::{Excluded, Included, Unbounded};

fn naive_sum(v: &[u64], l: usize, r: usize) -> u64 {
    let r = r.min(v.len());
    if l < r { v[l..r].iter().sum() } else { 0 }
}

#[test]
fn monoid_operations() {
    assert_eq!(<RangeMinMonoid<i32> as Monoid>::op(3, -2), -2);
    assert_eq!(<RangeMinMonoid<i32> as Monoid>::id(), i32::MAX);
    assert_eq!(<RangeSumMonoid<u8> as Monoid>::op(3, 4), 7);
    assert_eq!(<RangeSumMonoid<u8> as Monoid>::op(250, 10), 4);
    assert_eq!(<RangeSumMonoid<i64> as Monoid>::id(), 0);
}

#[test]
fn new_tree_holds_identities() {
    let seg: SegmentTree<RangeSumMonoid<u64>> = SegmentTree::new(5);
    assert_eq!(seg.get((Unbounded, Unbounded)), 0);
    let min: SegmentTree<RangeMinMonoid<i64>> = SegmentTree::new(0);
    assert_eq!(min.get((Unbounded, Unbounded)), i64::MAX);
}

#[test]
fn range_sums_agree_with_a_plain_sum() {
    let v: Vec<u64> = vec![5, 1, 4, 1, 5, 9, 2, 6, 5, 3, 5];
    let seg: SegmentTree<RangeSumMonoid<u64>> = SegmentTree::from_vec(&v);
    for l in 0..=v.len() + 1 {
        for r in 0..=v.len() + 2 {
            assert_eq!(seg.get((Included(l), Excluded(r))), naive_sum(&v, l, r));
        }
    }
    assert_eq!(seg.get((Unbounded, Unbounded)), 46);
    assert_eq!(seg.get((Included(2), Included(4))), 10);
    assert_eq!(seg.get((Excluded(2), Unbounded)), 36);
    assert_eq!(seg.get((Unbounded, Excluded(3))), 10);
}

#[test]
fn set_changes_one_position() {
    let mut seg: SegmentTree<RangeMinMonoid<i64>> = SegmentTree::new(6);
    let vals = [7i64, -3, 9, 0, 4, 12];
    for (i, x) in vals.iter().enumerate() {
        seg.set(i, *x);
    }
    assert_eq!(seg.get((Unbounded, Unbounded)), -3);
    assert_eq!(seg.get((Included(2), Excluded(5))), 0);
    assert_eq!(seg.get((Included(4), Included(5))), 4);
    seg.set(1, 100);
    assert_eq!(seg.get((Unbounded, Unbounded)), 0);
    assert_eq!(seg.get((Included(0), Included(1))), 7);
    assert_eq!(seg.get((Included(3), Excluded(3))), i64::MAX);
    let e: Endpoint<usize> = Included(9);
    assert_eq!(seg.get((e, Unbounded)), i64::MAX);
}

#[test]
fn len_and_capacity() {
    let expected = [(0usize, 1usize), (1, 1), (2, 2), (3, 4), (4, 4), (5, 8), (9, 16)];
    for (len, capacity) in expected {
        let seg: SegmentTree<RangeSumMonoid<u64>> = SegmentTree::new(len);
        assert_eq!(seg.len(), len);
        assert_eq!(seg.capacity(), capacity);
    }
    let seg: SegmentTree<RangeMinMonoid<i32>> = SegmentTree::from_vec(&vec![3, 1, 2]);
    assert_eq!(seg.len(), 3);
    assert_eq!(seg.capacity(), 4);
}
