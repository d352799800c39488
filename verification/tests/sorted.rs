use library::utils::iterlibs::{collect::CollectIter, sorted::SortedIterator};

#[test]
fn sorted_with_elements() {
    let v = vec![3, 1, 4, 1, 5];
    assert_eq!(
        v.iter().copied().sorted().collect_vec(),
        vec![1, 1, 3, 4, 5]
    );
}

#[test]
fn sorted_empty() {
    let v: Vec<i32> = Vec::new();
    assert_eq!(v.iter().copied().sorted().collect_vec(), Vec::new());
}

#[test]
fn sorted_hands_items_out_one_by_one() {
    let v = vec![9u8, 2, 7];
    let mut s = v.iter().copied().sorted();
    assert_eq!(s.next(), Some(2));
    assert_eq!(s.next(), Some(7));
    assert_eq!(s.collect_vec(), vec![9]);
    let mut e = Vec::<u8>::new().into_iter().sorted();
    assert_eq!(e.next(), None);
}
