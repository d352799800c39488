use library::graph::dijkstra::Dijkstra;

fn graph() -> Vec<Vec<(usize, i64)>> {
    // 0 -> 1 (7), 0 -> 2 (9), 0 -> 5 (14), 1 -> 2 (10), 1 -> 3 (15),
    // 2 -> 3 (11), 2 -> 5 (2), 3 -> 4 (6), 5 -> 4 (9); node 6 stands alone
    vec![
        vec![(1, 7), (2, 9), (5, 14)],
        vec![(2, 10), (3, 15)],
        vec![(3, 11), (5, 2)],
        vec![(4, 6)],
        vec![],
        vec![(4, 9)],
        vec![],
    ]
}

#[test]
fn distances_are_shortest() {
    let d = Dijkstra::new(0, &graph());
    assert_eq!(d.get(0), 0);
    assert_eq!(d.get(1), 7);
    assert_eq!(d.get(2), 9);
    assert_eq!(d.get(3), 20);
    assert_eq!(d.get(4), 20);
    assert_eq!(d.get(5), 11);
    assert_eq!(d.get(6), i64::MAX >> 2);
}

#[test]
fn paths_follow_the_shortest_walks() {
    let d = Dijkstra::new(0, &graph());
    assert_eq!(d.path(0), None);
    assert_eq!(d.path(6), None);
    assert_eq!(d.path(1), Some(vec![0, 1]));
    assert_eq!(d.path(5), Some(vec![0, 2, 5]));
    assert_eq!(d.path(4), Some(vec![0, 2, 5, 4]));
    assert_eq!(d.path(3), Some(vec![0, 2, 3]));
}

#[test]
fn single_node_and_other_start() {
    let one: Vec<Vec<(usize, u32)>> = vec![vec![(0, 5)]];
    let d = Dijkstra::new(0, &one);
    assert_eq!(d.get(0), 0);
    assert_eq!(d.path(0), None);
    let d = Dijkstra::new(2, &graph());
    assert_eq!(d.get(0), i64::MAX >> 2);
    assert_eq!(d.get(4), 11);
    assert_eq!(d.path(4), Some(vec![2, 5, 4]));
}

#[test]
fn agrees_with_relaxation_on_a_dense_graph() {
    let n = 30usize;
    let mut g: Vec<Vec<(usize, u64)>> = vec![Vec::new(); n];
    let mut x: u64 = 12345;
    for u in 0..n {
        for v in 0..n {
            x = x.wrapping_mul(6364136223846793005).wrapping_add(1442695040888963407);
            if (x >> 33) % 4 == 0 {
                g[u].push((v, (x >> 40) % 1000));
            }
        }
    }
    let d = Dijkstra::new(0, &g);
    let inf = u64::MAX >> 2;
    let mut best = vec![inf; n];
    best[0] = 0;
    for _ in 0..n {
        for u in 0..n {
            if best[u] == inf {
                continue;
            }
            for &(v, w) in &g[u] {
                if best[u] + w < best[v] {
                    best[v] = best[u] + w;
                }
            }
        }
    }
    for v in 0..n {
        assert_eq!(d.get(v), best[v]);
        if let Some(p) = d.path(v) {
            assert_eq!(p[0], 0);
            assert_eq!(*p.last().unwrap(), v);
            let mut total = 0;
            for e in p.windows(2) {
                let w = g[e[0]].iter().filter(|(t, _)| *t == e[1]).map(|(_, w)| *w).min().unwrap();
                total += w;
            }
            assert_eq!(total, best[v]);
        }
    }
}

#[test]
fn path_passes_no_node_twice() {
    // 0 -> 1 -> 2 -> 1 at no cost, 2 -> 3 at no cost
    let g: Vec<Vec<(usize, i64)>> = vec![vec![(1, 0)], vec![(2, 0)], vec![(1, 0), (3, 0)], vec![]];
    let d = Dijkstra::new(0, &g);
    assert_eq!(d.get(3), 0);
    assert_eq!(d.path(3), Some(vec![0, 1, 2, 3]));
    assert_eq!(d.path(1), Some(vec![0, 1]));
}

#[test]
fn heavy_edges_off_the_walks_do_no_harm() {
    let inf = i64::MAX >> 2;
    // the walks of at most two edges from node 0 weigh less than inf
    let g: Vec<Vec<(usize, i64)>> = vec![vec![(1, inf / 2), (2, inf - 1)], vec![(2, inf / 2 - 5)], vec![]];
    let d = Dijkstra::new(0, &g);
    assert_eq!(d.get(1), inf / 2);
    assert_eq!(d.get(2), inf / 2 + inf / 2 - 5);
    assert_eq!(d.path(2), Some(vec![0, 1, 2]));
}
