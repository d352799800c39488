use library::data_structure::segtree::lazy_segment_tree::LazySegmentTree;
use library::data_structure::segtree::monoids::{MapMonoid, Monoid, RangeMinMonoid};
use library::utils::versatility_functions::Endpoint::{Excluded, Included, Unbounded};

/// Sums with the number of values that they are the sum of, so that adding a
/// number to every value goes along with the sum.
struct SumOver;

impl Monoid for SumOver {
    type S = (i64, i64);

    fn op(a: (i64, i64), b: (i64, i64)) -> (i64, i64) {
        (a.0 + b.0, a.1 + b.1)
    }

    fn id() -> (i64, i64) {
        (0, 0)
    }

    // what follows is only read when the library is verified
    fn op_spec(_: (i64, i64), _: (i64, i64)) -> (i64, i64) {
        unreachable!()
    }

    fn id_spec() -> (i64, i64) {
        unreachable!()
    }

    fn lemma_associative(_: (i64, i64), _: (i64, i64), _: (i64, i64)) {
        unreachable!()
    }

    fn lemma_identity(_: (i64, i64)) {
        unreachable!()
    }
}

/// Adding a number to every value of a range.
struct RangeAdd;

impl MapMonoid for RangeAdd {
    type M = SumOver;
    type F = i64;

    fn identity_map() -> i64 {
        0
    }

    fn mapping(f: &i64, x: &(i64, i64)) -> (i64, i64) {
        (x.0 + f * x.1, x.1)
    }

    fn composition(f: &i64, g: &i64) -> i64 {
        f + g
    }

    // what follows is only read when the library is verified
    fn identity_map_spec() -> i64 {
        unreachable!()
    }

    fn mapping_spec(_: i64, _: (i64, i64)) -> (i64, i64) {
        unreachable!()
    }

    fn composition_spec(_: i64, _: i64) -> i64 {
        unreachable!()
    }

    fn lemma_identity_map(_: (i64, i64)) {
        unreachable!()
    }

    fn lemma_composition(_: i64, _: i64, _: (i64, i64)) {
        unreachable!()
    }

    fn lemma_distributes(_: i64, _: (i64, i64), _: (i64, i64)) {
        unreachable!()
    }
}

/// Putting a number in the place of every value of a range; `None` changes
/// nothing.
struct RangeAssign;

impl MapMonoid for RangeAssign {
    type M = RangeMinMonoid<i64>;
    type F = Option<i64>;

    fn identity_map() -> Option<i64> {
        None
    }

    fn mapping(f: &Option<i64>, x: &i64) -> i64 {
        match f {
            Some(v) => *v,
            None => *x,
        }
    }

    fn composition(f: &Option<i64>, g: &Option<i64>) -> Option<i64> {
        match f {
            Some(v) => Some(*v),
            None => *g,
        }
    }

    // what follows is only read when the library is verified
    fn identity_map_spec() -> Option<i64> {
        unreachable!()
    }

    fn mapping_spec(_: Option<i64>, _: i64) -> i64 {
        unreachable!()
    }

    fn composition_spec(_: Option<i64>, _: Option<i64>) -> Option<i64> {
        unreachable!()
    }

    fn lemma_identity_map(_: i64) {
        unreachable!()
    }

    fn lemma_composition(_: Option<i64>, _: Option<i64>, _: i64) {
        unreachable!()
    }

    fn lemma_distributes(_: Option<i64>, _: i64, _: i64) {
        unreachable!()
    }
}

#[test]
fn range_add_and_range_sum() {
    let n = 10usize;
    let mut seg: LazySegmentTree<RangeAdd> = LazySegmentTree::new(n);
    let mut model = vec![0i64; n];
    for i in 0..n {
        seg.set(i, (i as i64, 1));
        model[i] = i as i64;
    }
    let steps = [(0usize, 10usize, 5i64), (2, 7, -3), (9, 10, 100), (0, 1, 7), (3, 3, 9), (4, 9, 2)];
    for (l, r, x) in steps {
        seg.update((Included(l), Excluded(r)), &x);
        for v in model[l..r].iter_mut() {
            *v += x;
        }
        for a in 0..=n {
            for b in a..=n {
                let want: i64 = model[a..b].iter().sum();
                assert_eq!(seg.get((Included(a), Excluded(b))).0, want);
            }
        }
    }
    assert_eq!(seg.get((Unbounded, Unbounded)).0, model.iter().sum::<i64>());
    assert_eq!(seg.get((Included(2), Included(4))).0, model[2..=4].iter().sum::<i64>());
    assert_eq!(seg.get((Excluded(2), Unbounded)).0, model[3..].iter().sum::<i64>());
}

#[test]
fn range_assign_and_range_min() {
    let n = 7usize;
    let mut seg: LazySegmentTree<RangeAssign> = LazySegmentTree::new(n);
    assert_eq!(seg.get((Unbounded, Unbounded)), i64::MAX);
    let mut model = vec![i64::MAX; n];
    let steps = [(0usize, 7usize, 50i64), (1, 4, 20), (3, 6, 30), (6, 7, -1), (0, 2, 40)];
    for (l, r, x) in steps {
        seg.update((Included(l), Excluded(r)), &Some(x));
        for v in model[l..r].iter_mut() {
            *v = x;
        }
        for a in 0..n {
            for b in a + 1..=n {
                assert_eq!(seg.get((Included(a), Excluded(b))), *model[a..b].iter().min().unwrap());
            }
        }
    }
    seg.set(5, -7);
    assert_eq!(seg.get((Included(5), Included(5))), -7);
    assert_eq!(seg.get((Unbounded, Unbounded)), -7);
    assert_eq!(seg.get((Included(0), Excluded(5))), 20);
    assert_eq!(seg.get((Included(3), Excluded(3))), i64::MAX);
}
