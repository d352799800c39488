use library::data_structure::interval_set::IntervalSet;
use library::utils::versatility_functions::Endpoint::{Excluded, Included, Unbounded};

fn intervals(s: &IntervalSet<i64>) -> Vec<(i64, i64)> {
    s.iter().copied().collect()
}

#[test]
fn new_set_is_empty() {
    let s: IntervalSet<i64> = IntervalSet::new();
    assert_eq!(s.covered_length(), 0);
    assert!(!s.contains(0));
    assert_eq!(intervals(&s), vec![]);
}

#[test]
fn insert_merges_intervals() {
    let mut s: IntervalSet<i64> = IntervalSet::new();
    assert_eq!(s.insert((Included(1), Excluded(3))), 2);
    assert_eq!(s.insert((Included(5), Excluded(8))), 3);
    assert_eq!(intervals(&s), vec![(1, 3), (5, 8)]);
    // touching intervals are joined
    assert_eq!(s.insert((Included(3), Excluded(4))), 1);
    assert_eq!(intervals(&s), vec![(1, 4), (5, 8)]);
    // an overlap counts only what is new
    assert_eq!(s.insert((Included(2), Included(9))), 3);
    assert_eq!(intervals(&s), vec![(1, 10)]);
    assert_eq!(s.covered_length(), 9);
    assert_eq!(s.insert((Included(4), Excluded(6))), 0);
    assert_eq!(s.insert((Included(4), Excluded(4))), 0);
    assert_eq!(s.insert((Included(-5), Excluded(-3))), 2);
    assert_eq!(intervals(&s), vec![(-5, -3), (1, 10)]);
    assert_eq!(s.covered_length(), 11);
}

#[test]
fn contains_tells_members() {
    let mut s: IntervalSet<i64> = IntervalSet::new();
    s.insert((Included(1), Excluded(3)));
    s.insert((Excluded(9), Included(12)));
    for (x, want) in [(0, false), (1, true), (2, true), (3, false), (9, false), (10, true), (12, true), (13, false)] {
        assert_eq!(s.contains(x), want);
    }
}

#[test]
fn erase_cuts_intervals() {
    let mut s: IntervalSet<i64> = IntervalSet::new();
    s.insert((Included(0), Excluded(10)));
    s.insert((Included(20), Excluded(30)));
    s.insert((Included(40), Excluded(50)));
    // inside one interval
    assert_eq!(s.erase((Included(3), Excluded(5))), 2);
    assert_eq!(intervals(&s), vec![(0, 3), (5, 10), (20, 30), (40, 50)]);
    // across several
    assert_eq!(s.erase((Included(8), Excluded(45))), 2 + 10 + 5);
    assert_eq!(intervals(&s), vec![(0, 3), (5, 8), (45, 50)]);
    assert_eq!(s.covered_length(), 11);
    // nothing to take
    assert_eq!(s.erase((Included(10), Excluded(40))), 0);
    assert_eq!(s.erase((Included(6), Excluded(6))), 0);
    // a whole interval
    assert_eq!(s.erase((Included(5), Excluded(8))), 3);
    assert_eq!(intervals(&s), vec![(0, 3), (45, 50)]);
    assert_eq!(s.erase((Unbounded, Excluded(47))), 5);
    assert_eq!(intervals(&s), vec![(47, 50)]);
    assert_eq!(s.covered_length(), 3);
}

#[test]
fn erase_inside_one_interval() {
    let mut s: IntervalSet<i64> = IntervalSet::new();
    s.insert((Included(0), Excluded(10)));
    assert_eq!(s.erase((Included(3), Excluded(5))), 2);
    assert_eq!(intervals(&s), vec![(0, 3), (5, 10)]);
    assert_eq!(s.covered_length(), 8);
    assert!(!s.contains(3));
    assert!(s.contains(5));
}

#[test]
fn insert_over_an_end() {
    let mut s: IntervalSet<i64> = IntervalSet::new();
    s.insert((Included(0), Excluded(5)));
    assert_eq!(s.insert((Included(3), Excluded(8))), 3);
    assert_eq!(intervals(&s), vec![(0, 8)]);
    assert_eq!(s.covered_length(), 8);
}
