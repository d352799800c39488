use library::utils::iterlibs::collect::{chars_of, CollectIter};

#[test]
fn collect_with_elements() {
    let v = vec![1, 2, 3, 4];
    assert_eq!(
        v.iter().map(|vi| *vi + 1).collect_vec(),
        vec![2, 3, 4, 5]
    );
}

#[test]
fn collect_empty() {
    let v: Vec<i32> = vec![];
    assert_eq!(
        v.iter().map(|vi| *vi + 1).collect_vec(),
        vec![]
    );
}

#[test]
fn chars_of_a_string() {
    assert_eq!(chars_of(&"héllo".to_string()), vec!['h', 'é', 'l', 'l', 'o']);
    assert_eq!(chars_of(&String::new()), Vec::<char>::new());
}
