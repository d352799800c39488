use library::utils::iterlibs::dedup::{DedupIterator, RleItertor};

#[test]
fn rle_counts_runs() {
    let items = vec![1, 1, 2, 2, 2, 3, 1, 1];
    let runs = items.into_iter().rle().collect_vec();
    assert_eq!(runs, vec![(2, 1), (3, 2), (1, 3), (2, 1)]);
}

#[test]
fn rle_of_nothing() {
    let items: Vec<u8> = vec![];
    let runs = items.into_iter().rle().collect_vec();
    assert_eq!(runs, vec![]);
}

#[test]
fn rle_single_run() {
    let items = vec!['a', 'a', 'a', 'a'];
    let mut runs = items.into_iter().rle();
    assert_eq!(runs.next(), Some((4, 'a')));
    assert_eq!(runs.next(), None);
    assert_eq!(runs.next(), None);
}

#[test]
fn rle_hands_runs_out_in_order() {
    let items = vec![7, 8, 8, 9];
    let mut runs = items.into_iter().rle();
    assert_eq!(runs.next(), Some((1, 7)));
    assert_eq!(runs.next(), Some((2, 8)));
    assert_eq!(runs.next(), Some((1, 9)));
    assert_eq!(runs.next(), None);
}

#[test]
fn dedup_keeps_first_of_each_run() {
    let items = vec![1, 1, 2, 2, 2, 3, 1, 1];
    let mut it = items.into_iter().dedup();
    let mut got = Vec::new();
    while let Some(x) = it.next() {
        got.push(x);
    }
    assert_eq!(got, vec![1, 2, 3, 1]);
}

#[test]
fn dedup_of_nothing() {
    let items: Vec<i32> = vec![];
    let mut it = items.into_iter().dedup();
    assert_eq!(it.next(), None);
}

#[test]
fn dedup_without_repeats_changes_nothing() {
    let items = vec![3, 1, 2];
    let mut it = items.clone().into_iter().dedup();
    let mut got = Vec::new();
    while let Some(x) = it.next() {
        got.push(x);
    }
    assert_eq!(got, items);
}

#[test]
fn dedup_collects_what_is_left() {
    let items = vec![5, 5, 6, 6, 7];
    let mut it = items.into_iter().dedup();
    assert_eq!(it.next(), Some(5));
    assert_eq!(it.collect_vec(), vec![6, 7]);
}
