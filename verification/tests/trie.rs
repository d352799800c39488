use library::data_structure::trie::Trie;

fn s(x: &str) -> String {
    x.to_string()
}

#[test]
fn new_trie_holds_the_empty_word() {
    let t = Trie::new();
    assert_eq!(t.search(&s("")), Ok(1));
    assert_eq!(t.search(&s("a")), Err(()));
    assert_eq!(t.lcp(&s("abc")), 0);
}

#[test]
fn insert_and_search_count_words() {
    let mut t = Trie::new();
    t.insert(&s("apple"));
    t.insert(&s("app"));
    t.insert(&s("apple"));
    assert_eq!(t.search(&s("apple")), Ok(2));
    assert_eq!(t.search(&s("app")), Ok(1));
    assert_eq!(t.search(&s("appl")), Err(()));
    assert_eq!(t.search(&s("apples")), Err(()));
    assert_eq!(t.search(&s("b")), Err(()));
}

#[test]
fn lcp_is_the_longest_common_beginning() {
    let mut t = Trie::new();
    t.insert(&s("apple"));
    t.insert(&s("bank"));
    assert_eq!(t.lcp(&s("application")), 4);
    assert_eq!(t.lcp(&s("apple")), 5);
    assert_eq!(t.lcp(&s("applesauce")), 5);
    assert_eq!(t.lcp(&s("band")), 3);
    assert_eq!(t.lcp(&s("zebra")), 0);
    assert_eq!(t.lcp(&s("")), 0);
}

#[test]
fn delete_one_or_all() {
    let mut t = Trie::new();
    t.insert(&s("abc"));
    t.insert(&s("abc"));
    t.insert(&s("abc"));
    t.insert(&s("abd"));
    assert_eq!(t.delete(&s("abc"), false), Ok(1));
    assert_eq!(t.search(&s("abc")), Ok(2));
    assert_eq!(t.delete(&s("abc"), true), Ok(2));
    assert_eq!(t.search(&s("abc")), Err(()));
    assert_eq!(t.delete(&s("abc"), false), Err(()));
    assert_eq!(t.delete(&s("abc"), true), Err(()));
    assert_eq!(t.delete(&s("ab"), true), Err(()));
    assert_eq!(t.search(&s("abd")), Ok(1));
    // the nodes of "abc" are gone, those of "abd" stay
    assert_eq!(t.lcp(&s("abc")), 2);
    assert_eq!(t.delete(&s("abd"), false), Ok(1));
    assert_eq!(t.lcp(&s("abd")), 0);
}
