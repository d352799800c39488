use library::algorithm::aho_corasick::AhoCorasick;

fn automaton(patterns: &[&str]) -> AhoCorasick {
    AhoCorasick::new(&patterns.iter().map(|p| p.to_string()).collect())
}

fn naive(patterns: &[&str], text: &str) -> Vec<(usize, usize)> {
    let mut res = Vec::new();
    for (i, p) in patterns.iter().enumerate() {
        if p.is_empty() {
            continue;
        }
        for j in 0..text.len() {
            if text[j..].starts_with(p) {
                res.push((i, j));
            }
        }
    }
    res.sort();
    res
}

#[test]
fn finds_every_place_of_every_pattern() {
    let patterns = ["he", "she", "his", "hers"];
    let ac = automaton(&patterns);
    let got = ac.search(&"ushers".to_string());
    // in the order of the last character, the longest pattern first
    assert_eq!(got, vec![(1, 1), (0, 2), (3, 2)]);
    assert_eq!(ac.node_size(), 10);
}

#[test]
fn agrees_with_a_plain_search() {
    let patterns = ["a", "ab", "bab", "bc", "bca", "c", "caa", "abab", "zz"];
    let ac = automaton(&patterns);
    for text in ["abccab", "ababababab", "", "zzzz", "bcaabcaacaab", "xyz", "abcbabcbcacaab"] {
        let mut got = ac.search(&text.to_string());
        got.sort();
        assert_eq!(got, naive(&patterns, text), "{}", text);
    }
}

#[test]
fn same_pattern_twice_is_found_twice() {
    let ac = automaton(&["ab", "ab", "b"]);
    let got = ac.search(&"ab".to_string());
    assert_eq!(got, vec![(0, 0), (1, 0), (2, 1)]);
}

#[test]
fn no_patterns_find_nothing() {
    let ac = automaton(&[]);
    assert_eq!(ac.node_size(), 1);
    assert_eq!(ac.search(&"abc".to_string()), vec![]);
    assert_eq!(ac.destination_node_ids_from_id(0), vec![0; 26]);
}

#[test]
fn transition_table() {
    // states: 0 "", 1 "a", 2 "ab", 3 "b", 4 "bc"
    let ac = automaton(&["ab", "bc"]);
    assert_eq!(ac.node_size(), 5);
    let mut from_root = vec![0usize; 26];
    from_root[0] = 1;
    from_root[1] = 3;
    assert_eq!(ac.destination_node_ids_from_id(0), from_root);
    // from "ab": a -> "a", b -> "b", c -> "bc"
    let mut from_ab = vec![0usize; 26];
    from_ab[0] = 1;
    from_ab[1] = 3;
    from_ab[2] = 4;
    assert_eq!(ac.destination_node_ids_from_id(2), from_ab);
    assert_eq!(ac.destination_node_ids_from_str(&"xxab".to_string()), from_ab);
    assert_eq!(ac.destination_node_ids_from_str(&"q".to_string()), from_root);
    assert_eq!(ac.destination_node_ids_from_str(&"".to_string()), from_root);
}
