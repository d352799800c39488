use library::algorithm::max_flow::MaxFlow;

#[test]
fn small_network() {
    let mut f: MaxFlow<u64> = MaxFlow::new(4, None);
    f.add_edge(0, 1, 2);
    f.add_edge(0, 2, 1);
    f.add_edge(1, 2, 1);
    f.add_edge(1, 3, 1);
    f.add_edge(2, 3, 2);
    assert_eq!(f.execute(), 3);
    // nothing more can flow
    assert_eq!(f.execute(), 0);
}

#[test]
fn no_way_and_single_edge() {
    let mut f: MaxFlow<i32> = MaxFlow::new(3, None);
    f.add_edge(0, 1, 5);
    assert_eq!(f.execute(), 0);
    let mut g: MaxFlow<i32> = MaxFlow::new(2, None);
    g.add_edge(0, 1, 7);
    g.add_edge(0, 1, 3);
    assert_eq!(g.execute(), 10);
}

#[test]
fn flow_has_to_be_taken_back() {
    // the first shortest walk 0-1-2-3 blocks the two walks of the greatest flow
    let mut f: MaxFlow<u32> = MaxFlow::new(6, Some((0, 5)));
    f.add_edge(0, 1, 1);
    f.add_edge(0, 2, 1);
    f.add_edge(1, 3, 1);
    f.add_edge(1, 4, 1);
    f.add_edge(2, 4, 1);
    f.add_edge(3, 5, 1);
    f.add_edge(4, 5, 1);
    assert_eq!(f.execute(), 2);
}

#[test]
fn other_start_and_end() {
    let mut f: MaxFlow<i64> = MaxFlow::new(4, Some((3, 1)));
    f.add_edge(3, 0, 4);
    f.add_edge(3, 2, 6);
    f.add_edge(0, 1, 3);
    f.add_edge(2, 1, 10);
    f.add_edge(0, 2, 5);
    assert_eq!(f.execute(), 10);
}

#[test]
fn agrees_with_the_cut_of_a_layered_network() {
    // k parallel walks of two edges, the second edge of the i-th with capacity i
    let k = 8usize;
    let mut f: MaxFlow<u64> = MaxFlow::new(k + 2, Some((0, k + 1)));
    let mut want = 0;
    for i in 1..=k {
        f.add_edge(0, i, 5);
        f.add_edge(i, k + 1, i as u64);
        want += (i as u64).min(5);
    }
    assert_eq!(f.execute(), want);
}
