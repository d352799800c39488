use library::utils::input::{Input, InputError};

fn reader(text: &str) -> Input {
    let mut ip = Input::new();
    ip.feed(text.as_bytes());
    ip
}

#[test]
fn next_reads_numbers_between_white_space() {
    let mut ip = reader("  12 -7\t+3\n 0\r\n255");
    assert_eq!(ip.next::<u32>(), Ok(12));
    assert_eq!(ip.next::<i64>(), Ok(-7));
    assert_eq!(ip.next::<u8>(), Ok(3));
    assert_eq!(ip.next::<usize>(), Ok(0));
    assert_eq!(ip.next::<u8>(), Ok(255));
    assert_eq!(ip.next::<u8>(), Err(InputError::Exhausted));
    assert_eq!(ip.next::<u8>(), Err(InputError::Exhausted));
}

#[test]
fn next_rejects_what_is_no_number_of_the_type() {
    assert_eq!(reader("256").next::<u8>(), Err(InputError::Malformed));
    assert_eq!(reader("-1").next::<u8>(), Err(InputError::Malformed));
    assert_eq!(reader("-129").next::<i8>(), Err(InputError::Malformed));
    assert_eq!(reader("-128").next::<i8>(), Ok(-128));
    assert_eq!(reader("127").next::<i8>(), Ok(127));
    assert_eq!(reader("128").next::<i8>(), Err(InputError::Malformed));
    assert_eq!(reader("12a").next::<i32>(), Err(InputError::Malformed));
    assert_eq!(reader("+").next::<i32>(), Err(InputError::Malformed));
    assert_eq!(reader("-").next::<i32>(), Err(InputError::Malformed));
    assert_eq!(reader("--1").next::<i32>(), Err(InputError::Malformed));
    assert_eq!(reader("1.5").next::<i32>(), Err(InputError::Malformed));
    assert_eq!(reader("").next::<i32>(), Err(InputError::Exhausted));
    assert_eq!(reader("  \n").next::<i32>(), Err(InputError::Exhausted));
    assert_eq!(reader("007").next::<u8>(), Ok(7));
    assert_eq!(reader("18446744073709551615").next::<u64>(), Ok(u64::MAX));
    assert_eq!(reader("18446744073709551616").next::<u64>(), Err(InputError::Malformed));
    assert_eq!(reader("-9223372036854775808").next::<i64>(), Ok(i64::MIN));
    assert_eq!(reader("-9223372036854775809").next::<i64>(), Err(InputError::Malformed));
    assert_eq!(
        reader("170141183460469231731687303715884105727").next::<i128>(),
        Ok(i128::MAX)
    );
}

#[test]
fn agrees_with_the_standard_parser() {
    for text in ["0", "5", "-5", "+5", "99", "100", "127", "128", "-128", "-129", "255", "256", "1 2", "x", "٣"] {
        let token = text.split_whitespace().next().unwrap();
        assert_eq!(reader(text).next::<i8>().ok(), token.parse::<i8>().ok(), "{}", text);
        assert_eq!(reader(text).next::<u8>().ok(), token.parse::<u8>().ok(), "{}", text);
        assert_eq!(reader(text).next::<i32>().ok(), token.parse::<i32>().ok(), "{}", text);
    }
}

#[test]
fn next_token_gives_bounds() {
    let mut ip = reader(" ab  c ");
    assert_eq!(ip.next_token(), Some((1, 3)));
    assert_eq!(ip.next_token(), Some((5, 6)));
    assert_eq!(ip.next_token(), None);
    let mut d = Input::default();
    assert_eq!(d.next_token(), None);
}

#[test]
fn pair_triple_and_vector() {
    let mut ip = reader("1 -2 3 4 5 6 7 8");
    assert_eq!(ip.pair::<u8, i8>(), Ok((1, -2)));
    assert_eq!(ip.triple::<u8, u32, i64>(), Ok((3, 4, 5)));
    assert_eq!(ip.vector::<u64>(2), Ok(vec![6, 7]));
    assert_eq!(ip.vector::<u64>(0), Ok(vec![]));
    assert_eq!(ip.vector::<u64>(2), Err(InputError::Exhausted));
    assert_eq!(reader("1").pair::<u8, u8>(), Err(InputError::Exhausted));
    assert_eq!(reader("1 x 3").triple::<u8, u8, u8>(), Err(InputError::Malformed));
}

#[test]
fn graph_builds_neighbour_lists() {
    let mut ip = reader("1 2\n2 3\n1 3\n");
    assert_eq!(ip.graph(3, 3, true), Ok(vec![vec![1, 2], vec![2], vec![]]));
    let mut ip = reader("1 2\n2 3\n");
    assert_eq!(ip.graph(3, 2, false), Ok(vec![vec![1], vec![0, 2], vec![1]]));
    assert_eq!(reader("").graph(2, 0, true), Ok(vec![vec![], vec![]]));
    assert_eq!(reader("0 1").graph(2, 1, true), Err(InputError::Malformed));
    assert_eq!(reader("1 3").graph(2, 1, true), Err(InputError::Malformed));
    assert_eq!(reader("1 2 1").graph(2, 2, true), Err(InputError::Exhausted));
}

#[test]
fn weighted_graph_builds_neighbour_lists() {
    let mut ip = reader("0 1 5\n1 2 -7\n");
    assert_eq!(
        ip.weighted_graph::<i64>(3, 2, true, false),
        Ok(vec![vec![(1, 5)], vec![(2, -7)], vec![]])
    );
    let mut ip = reader("1 2 5\n2 3 7\n");
    assert_eq!(
        ip.weighted_graph::<u32>(3, 2, false, true),
        Ok(vec![vec![(1, 5)], vec![(0, 5), (2, 7)], vec![(1, 7)]])
    );
    assert_eq!(reader("0 1 5").weighted_graph::<u32>(3, 1, true, true), Err(InputError::Malformed));
    assert_eq!(reader("3 1 5").weighted_graph::<u32>(3, 1, true, false), Err(InputError::Malformed));
    assert_eq!(reader("1 1 x").weighted_graph::<u32>(3, 1, true, false), Err(InputError::Malformed));
}

#[test]
fn offset_counts_what_was_read() {
    let mut ip = reader(" 12  34 ");
    assert_eq!(ip.offset(), 0);
    assert_eq!(ip.next::<u8>(), Ok(12));
    assert_eq!(ip.offset(), 3);
    assert_eq!(ip.next::<u8>(), Ok(34));
    assert_eq!(ip.offset(), 7);
    assert_eq!(ip.next::<u8>(), Err(InputError::Exhausted));
    ip.feed(b"5");
    assert_eq!(ip.offset(), 0);
    assert_eq!(ip.next::<u8>(), Ok(5));
    assert_eq!(ip.offset(), 1);
}
