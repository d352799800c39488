use library::utils::iterlibs::strs::StrUtilIter;

#[test]
fn strs_with_elements() {
    let v = vec![1, 2, 3, 4];
    assert_eq!(v.iter().join(" "), "1 2 3 4".to_string());
}

#[test]
fn strs_empty() {
    let v: Vec<i32> = Vec::new();
    assert_eq!(v.iter().join(" "), "".to_string());
}

#[test]
fn join_one_item_has_no_separator() {
    assert_eq!(vec!["x"].iter().join(", "), "x".to_string());
    assert_eq!(vec!["x", "yz"].iter().join(", "), "x, yz".to_string());
}
