use crate::utils::integer::Integer;
use vstd::prelude::*;

verus! {

/// The edges of a graph: for every node the nodes that an edge leads to from
/// it, each with the weight of the edge.
pub type Edges<T> = Seq<Seq<(usize, T)>>;

/// Every edge leads to a node of the graph, and its weight is not negative.
pub open spec fn edges_ok<T: Integer>(g: Edges<T>) -> bool {
    forall|u: int, k: int|
        0 <= u < g.len() && 0 <= k < g[u].len() ==> {
            &&& (#[trigger] g[u][k]).0 < g.len()
            &&& 0 <= g[u][k].1.as_int()
        }
}

/// There is a walk of `n` edges and of the weight `d` from `s` to `v`.
#[verifier::opaque]
pub open spec fn reach<T: Integer>(g: Edges<T>, s: int, v: int, d: int, n: nat) -> bool
    decreases n,
{
    if n == 0 {
        v == s && d == 0
    } else {
        exists|u: int, k: int|
            0 <= u < g.len() && 0 <= k < g[u].len() && (#[trigger] g[u][k]).0 == v && reach(
                g,
                s,
                u,
                d - g[u][k].1.as_int(),
                (n - 1) as nat,
            )
    }
}

/// Every walk from `s` that has fewer edges than the graph has nodes weighs
/// less than `inf`, which stands for "no walk".
pub open spec fn walks_fit<T: Integer>(g: Edges<T>, s: int) -> bool {
    forall|v: int, d: int, n: nat| n < g.len() && #[trigger] reach(g, s, v, d, n) ==> d < T::max_int() / 4
}

/// Some walk leads from `s` to `v`.
pub open spec fn reachable<T: Integer>(g: Edges<T>, s: int, v: int) -> bool {
    exists|d: int, n: nat| reach(g, s, v, d, n)
}

/// `d` is the weight of a walk from `s` to `v`, and no walk from `s` to `v` has
/// a smaller one.
pub open spec fn shortest<T: Integer>(g: Edges<T>, s: int, v: int, d: int) -> bool {
    &&& exists|n: nat| reach(g, s, v, d, n)
    &&& forall|e: int, n: nat| reach(g, s, v, e, n) ==> d <= e
}

/// The walk without an edge leads from the start to the start.
pub proof fn lemma_reach_start<T: Integer>(g: Edges<T>, s: int)
    ensures
        reach(g, s, s, 0, 0),
{
    reveal_with_fuel(reach, 1);
}

/// A walk goes on over an edge.
pub proof fn lemma_reach_step<T: Integer>(g: Edges<T>, s: int, u: int, k: int, d: int, n: nat)
    requires
        0 <= u < g.len(),
        0 <= k < g[u].len(),
        reach(g, s, u, d, n),
    ensures
        reach(g, s, g[u][k].0 as int, d + g[u][k].1.as_int(), n + 1),
{
    reveal_with_fuel(reach, 1);
    let v = g[u][k].0 as int;
    let e = d + g[u][k].1.as_int();
    assert(g[u][k].0 == v && reach(g, s, u, e - g[u][k].1.as_int(), ((n + 1) - 1) as nat));
}

/// A walk has no edge and stays at the start, or it ends with an edge.
pub proof fn lemma_reach_last<T: Integer>(g: Edges<T>, s: int, v: int, d: int, n: nat)
    requires
        reach(g, s, v, d, n),
    ensures
        n == 0 ==> v == s && d == 0,
        n > 0 ==> exists|u: int, k: int|
            0 <= u < g.len() && 0 <= k < g[u].len() && (#[trigger] g[u][k]).0 == v && reach(
                g,
                s,
                u,
                d - g[u][k].1.as_int(),
                (n - 1) as nat,
            ),
{
    reveal_with_fuel(reach, 1);
}

/// A walk of `n` edges, none of which weighs more than `w`, weighs at most
/// `n` times `w`.
pub proof fn lemma_walk_weight<T: Integer>(g: Edges<T>, s: int, v: int, d: int, n: nat, w: int)
    requires
        reach(g, s, v, d, n),
        forall|u: int, k: int|
            0 <= u < g.len() && 0 <= k < g[u].len() ==> (#[trigger] g[u][k]).1.as_int() <= w,
    ensures
        d <= n * w,
    decreases n,
{
    lemma_reach_last(g, s, v, d, n);
    if n > 0 {
        let (u, k) = choose|u: int, k: int|
            0 <= u < g.len() && 0 <= k < g[u].len() && (#[trigger] g[u][k]).0 == v && reach(
                g,
                s,
                u,
                d - g[u][k].1.as_int(),
                (n - 1) as nat,
            );
        let e = g[u][k].1.as_int();
        lemma_walk_weight(g, s, u, d - e, (n - 1) as nat, w);
        assert(d <= n * w) by (nonlinear_arith)
            requires
                d - e <= (n - 1) * w,
                e <= w,
        ;
    }
}

/// Where the weight of every edge, taken as often as there are nodes, stays
/// below `inf`, the walks fit.
pub proof fn lemma_light_edges<T: Integer>(g: Edges<T>, s: int)
    requires
        edges_ok(g),
        forall|u: int, k: int|
            0 <= u < g.len() && 0 <= k < g[u].len() ==> (#[trigger] g[u][k]).1.as_int() * g.len()
                < T::max_int() / 4,
    ensures
        walks_fit(g, s),
{
    let inf = T::max_int() / 4;
    let len = g.len() as int;
    if len > 0 {
        T::lemma_bounds();
        let w = (inf - 1) / len;
        vstd::arithmetic::div_mod::lemma_fundamental_div_mod(inf - 1, len);
        vstd::arithmetic::div_mod::lemma_mod_bound(inf - 1, len);
        assert(w >= 0 && w * len < inf) by (nonlinear_arith)
            requires
                inf - 1 == len * w + (inf - 1) % len,
                0 <= (inf - 1) % len < len,
                inf >= 1,
                len >= 1,
        ;
        assert forall|u: int, k: int| 0 <= u < g.len() && 0 <= k < g[u].len() implies (
        #[trigger] g[u][k]).1.as_int() <= w by {
            let x = g[u][k].1.as_int();
            assert(x <= w) by (nonlinear_arith)
                requires
                    x * len < inf,
                    inf - 1 == len * w + (inf - 1) % len,
                    0 <= (inf - 1) % len < len,
                    len >= 1,
            ;
        }
        assert forall|v: int, d: int, n: nat| n < g.len() && #[trigger] reach(g, s, v, d, n) implies d
            < inf by {
            lemma_walk_weight(g, s, v, d, n, w);
            assert(n * w <= w * len) by (nonlinear_arith)
                requires
                    0 <= n < len,
                    w >= 0,
            ;
        }
    }
}

/// One entry of the queue is before another: by its cost, then by its node,
/// then by the node that it comes from.
spec fn entry_le<T: Integer>(a: (T, usize, usize), b: (T, usize, usize)) -> bool {
    a.0.as_int() < b.0.as_int() || (a.0.as_int() == b.0.as_int() && (a.1 < b.1 || (a.1 == b.1
        && a.2 <= b.2)))
}

/// The queue after its entry at `at` has left it, with the last entry put in
/// its place.
spec fn popped<T>(pq: Seq<(T, usize, usize)>, rest: Seq<(T, usize, usize)>, at: int) -> bool {
    &&& 0 <= at < pq.len()
    &&& rest.len() == pq.len() - 1
    &&& forall|i: int|
        0 <= i < rest.len() ==> #[trigger] rest[i] == pq[if i == at {
            pq.len() - 1
        } else {
            i
        }]
}

/// Takes the least entry out of the queue.
fn pop_min<T: Integer>(pq: &mut Vec<(T, usize, usize)>) -> (r: (T, usize, usize))
    requires
        old(pq)@.len() > 0,
    ensures
        final(pq)@.len() == old(pq)@.len() - 1,
        exists|at: int| popped(old(pq)@, final(pq)@, at) && #[trigger] old(pq)@[at] == r,
        forall|i: int| 0 <= i < old(pq)@.len() ==> entry_le(r, #[trigger] old(pq)@[i]),
{
    let mut best: usize = 0;
    let mut i: usize = 1;
    while i < pq.len()
        invariant
            0 <= best < i <= pq@.len(),
            pq@ == old(pq)@,
            forall|j: int| 0 <= j < i ==> entry_le(pq@[best as int], #[trigger] pq@[j]),
        decreases pq@.len() - i,
    {
        let a = pq[i];
        let b = pq[best];
        if a.0.less(b.0) || (a.0.same(b.0) && (a.1 < b.1 || (a.1 == b.1 && a.2 < b.2))) {
            best = i;
        }
        i += 1;
    }
    let r = pq[best];
    let last = pq.len() - 1;
    let moved = pq[last];
    pq[best] = moved;
    pq.pop();
    proof {
        assert(popped(old(pq)@, pq@, best as int) && old(pq)@[best as int] == r);
    }
    r
}

/// The shortest distances from one node of a graph to all its nodes.
pub struct Dijkstra<T> {
    start: usize,
    dist: Vec<T>,
    from: Vec<Option<usize>>,
    graph: Ghost<Edges<T>>,
    hops: Ghost<Seq<nat>>,
}

/// The node `v` came to its distance from the node `f`, over an edge from `f`.
spec fn link_ok<T: Integer>(
    g: Edges<T>,
    done: Set<int>,
    dist: Seq<T>,
    hops: Seq<nat>,
    v: int,
    f: int,
) -> bool {
    &&& 0 <= f < g.len()
    &&& done.contains(f)
    &&& hops[v] == hops[f] + 1
    &&& exists|k: int|
        0 <= k < g[f].len() && (#[trigger] g[f][k]).0 == v && dist[v].as_int() == dist[f].as_int()
            + g[f][k].1.as_int()
}

/// While the distances are found: every node that has its distance has the
/// shortest one, over a walk of `hops` edges, and came to it from a node on
/// that walk.
#[verifier::opaque]
spec fn settled_ok<T: Integer>(
    g: Edges<T>,
    s: int,
    done: Set<int>,
    dist: Seq<T>,
    from: Seq<Option<usize>>,
    hops: Seq<nat>,
) -> bool {
    forall|v: int|
        0 <= v < g.len() && #[trigger] done.contains(v) ==> node_ok(
            g,
            s,
            done,
            dist,
            from,
            hops,
            v,
        )
}

/// Every entry of the queue holds the weight of a walk to its node that comes
/// over a node that has its distance.
#[verifier::opaque]
spec fn queue_ok<T: Integer>(
    g: Edges<T>,
    s: int,
    done: Set<int>,
    dist: Seq<T>,
    hops: Seq<nat>,
    pq: Seq<(T, usize, usize)>,
) -> bool {
    forall|i: int|
        0 <= i < pq.len() ==> {
            let (c, u, f) = #[trigger] pq[i];
            &&& u < g.len()
            &&& f < g.len()
            &&& if done.contains(f as int) {
                exists|k: int|
                    0 <= k < g[f as int].len() && (#[trigger] g[f as int][k]).0 == u && c.as_int()
                        == dist[f as int].as_int() + g[f as int][k].1.as_int()
            } else {
                done.len() == 0 && u == s && f == s && c.as_int() == 0
            }
        }
}

/// Every edge from a node that has its distance to one that has none has an
/// entry in the queue that costs no more than the way over this edge; and as
/// long as no node has its distance the start is in the queue at no cost.
#[verifier::opaque]
spec fn frontier_ok<T: Integer>(
    g: Edges<T>,
    s: int,
    done: Set<int>,
    dist: Seq<T>,
    pq: Seq<(T, usize, usize)>,
) -> bool {
    &&& forall|u: int, k: int|
        0 <= u < g.len() && 0 <= k < g[u].len() && done.contains(u) && !done.contains(
            (#[trigger] g[u][k]).0 as int,
        ) ==> exists|i: int|
            0 <= i < pq.len() && (#[trigger] pq[i]).1 == g[u][k].0 && pq[i].0.as_int()
                <= dist[u].as_int() + g[u][k].1.as_int()
    &&& !done.contains(s) ==> exists|i: int|
        0 <= i < pq.len() && (#[trigger] pq[i]).1 == s && pq[i].0.as_int() <= 0
}

/// A walk to a node that has no distance yet costs at least as much as some
/// entry of the queue.
proof fn lemma_walk_meets_queue<T: Integer>(
    g: Edges<T>,
    s: int,
    done: Set<int>,
    dist: Seq<T>,
    from: Seq<Option<usize>>,
    hops: Seq<nat>,
    pq: Seq<(T, usize, usize)>,
    v: int,
    d: int,
    n: nat,
)
    requires
        edges_ok(g),
        0 <= s < g.len(),
        0 <= v < g.len(),
        settled_ok(g, s, done, dist, from, hops),
        frontier_ok(g, s, done, dist, pq),
        !done.contains(v),
        reach(g, s, v, d, n),
    ensures
        exists|i: int| 0 <= i < pq.len() && (#[trigger] pq[i]).0.as_int() <= d,
    decreases n,
{
    reveal(settled_ok);
    reveal(frontier_ok);
    lemma_reach_last(g, s, v, d, n);
    if n == 0 {
        let i = choose|i: int| 0 <= i < pq.len() && (#[trigger] pq[i]).1 == s && pq[i].0.as_int() <= 0;
        assert(pq[i].0.as_int() <= d);
    } else {
        let (u, k) = choose|u: int, k: int|
            0 <= u < g.len() && 0 <= k < g[u].len() && (#[trigger] g[u][k]).0 == v && reach(
                g,
                s,
                u,
                d - g[u][k].1.as_int(),
                (n - 1) as nat,
            );
        if done.contains(u) {
            let i = choose|i: int|
                0 <= i < pq.len() && (#[trigger] pq[i]).1 == g[u][k].0 && pq[i].0.as_int()
                    <= dist[u].as_int() + g[u][k].1.as_int();
            assert(dist[u].as_int() <= d - g[u][k].1.as_int());
            assert(pq[i].0.as_int() <= d);
        } else {
            lemma_walk_meets_queue(
                g,
                s,
                done,
                dist,
                from,
                hops,
                pq,
                u,
                d - g[u][k].1.as_int(),
                (n - 1) as nat,
            );
            let i = choose|i: int| 0 <= i < pq.len() && (#[trigger] pq[i]).0.as_int() <= d
                - g[u][k].1.as_int();
            assert(pq[i].0.as_int() <= d);
        }
    }
}

/// As `frontier_ok` for all edges but those from `pos` with the number `upto`
/// or a higher one.
#[verifier::opaque]
spec fn frontier_upto<T: Integer>(
    g: Edges<T>,
    s: int,
    done: Set<int>,
    dist: Seq<T>,
    pq: Seq<(T, usize, usize)>,
    pos: int,
    upto: int,
) -> bool {
    &&& forall|u: int, k: int|
        0 <= u < g.len() && 0 <= k < g[u].len() && done.contains(u) && !done.contains(
            (#[trigger] g[u][k]).0 as int,
        ) && (u != pos || k < upto) ==> exists|i: int|
            0 <= i < pq.len() && (#[trigger] pq[i]).1 == g[u][k].0 && pq[i].0.as_int()
                <= dist[u].as_int() + g[u][k].1.as_int()
    &&& !done.contains(s) ==> exists|i: int|
        0 <= i < pq.len() && (#[trigger] pq[i]).1 == s && pq[i].0.as_int() <= 0
}

/// An entry for a node that has its distance can leave the queue.
proof fn lemma_drop_entry<T: Integer>(
    g: Edges<T>,
    s: int,
    done: Set<int>,
    dist: Seq<T>,
    hops: Seq<nat>,
    pq: Seq<(T, usize, usize)>,
    rest: Seq<(T, usize, usize)>,
    at: int,
)
    requires
        popped(pq, rest, at),
        queue_ok(g, s, done, dist, hops, pq),
        frontier_ok(g, s, done, dist, pq),
        done.contains(pq[at].1 as int),
        done.contains(s),
    ensures
        queue_ok(g, s, done, dist, hops, rest),
        frontier_ok(g, s, done, dist, rest),
{
    reveal(queue_ok);
    reveal(frontier_ok);
    assert forall|i: int| 0 <= i < rest.len() implies {
        let (c, u, f) = #[trigger] rest[i];
        &&& u < g.len()
        &&& f < g.len()
        &&& if done.contains(f as int) {
            exists|k: int|
                0 <= k < g[f as int].len() && (#[trigger] g[f as int][k]).0 == u && c.as_int()
                    == dist[f as int].as_int() + g[f as int][k].1.as_int()
        } else {
            done.len() == 0 && u == s && f == s && c.as_int() == 0
        }
    } by {
        let j = if i == at { pq.len() - 1 } else { i };
        assert(rest[i] == pq[j]);
    }
    assert forall|u: int, k: int|
        0 <= u < g.len() && 0 <= k < g[u].len() && done.contains(u) && !done.contains(
            (#[trigger] g[u][k]).0 as int,
        ) implies exists|i: int|
        0 <= i < rest.len() && (#[trigger] rest[i]).1 == g[u][k].0 && rest[i].0.as_int()
            <= dist[u].as_int() + g[u][k].1.as_int() by {
        let i = choose|i: int|
            0 <= i < pq.len() && (#[trigger] pq[i]).1 == g[u][k].0 && pq[i].0.as_int()
                <= dist[u].as_int() + g[u][k].1.as_int();
        assert(i != at);
        let j = if i == pq.len() - 1 { at } else { i };
        assert(rest[j] == pq[i]);
    }
}

/// What is known of the node `v` once it has its distance.
spec fn node_ok<T: Integer>(
    g: Edges<T>,
    s: int,
    done: Set<int>,
    dist: Seq<T>,
    from: Seq<Option<usize>>,
    hops: Seq<nat>,
    v: int,
) -> bool {
    &&& reach(g, s, v, dist[v].as_int(), hops[v])
    &&& forall|e: int, n: nat| reach(g, s, v, e, n) ==> dist[v].as_int() <= e
    &&& hops[v] < done.len()
    &&& 0 <= dist[v].as_int()
    &&& (v == s ==> hops[v] == 0 && dist[v].as_int() == 0)
    &&& (v != s ==> from[v] is Some && link_ok(g, done, dist, hops, v, from[v]->0 as int))
}

/// The cost of the least entry of the queue, whose node has no distance yet,
/// is the weight of a shortest walk to that node.
proof fn lemma_least_is_shortest<T: Integer>(
    g: Edges<T>,
    s: int,
    done: Set<int>,
    dist: Seq<T>,
    from: Seq<Option<usize>>,
    hops: Seq<nat>,
    pq: Seq<(T, usize, usize)>,
    at: int,
)
    requires
        edges_ok(g),
        0 <= s < g.len(),
        done.len() > 0 ==> done.contains(s),
        0 <= at < pq.len(),
        forall|i: int| 0 <= i < pq.len() ==> entry_le(pq[at], #[trigger] pq[i]),
        settled_ok(g, s, done, dist, from, hops),
        queue_ok(g, s, done, dist, hops, pq),
        frontier_ok(g, s, done, dist, pq),
        !done.contains(pq[at].1 as int),
    ensures
        pq[at].1 < g.len(),
        pq[at].2 < g.len(),
        forall|e: int, n: nat| reach(g, s, pq[at].1 as int, e, n) ==> pq[at].0.as_int() <= e,
        done.contains(pq[at].2 as int) ==> {
            &&& pq[at].1 != s
            &&& reach(g, s, pq[at].1 as int, pq[at].0.as_int(), (hops[pq[at].2 as int] + 1) as nat)
            &&& 0 <= pq[at].0.as_int()
            &&& hops[pq[at].2 as int] + 1 <= done.len()
            &&& exists|k: int|
                0 <= k < g[pq[at].2 as int].len() && (#[trigger] g[pq[at].2 as int][k]).0
                    == pq[at].1 && pq[at].0.as_int() == dist[pq[at].2 as int].as_int()
                    + g[pq[at].2 as int][k].1.as_int()
        },
        !done.contains(pq[at].2 as int) ==> {
            &&& pq[at].1 == s
            &&& pq[at].0.as_int() == 0
            &&& done.len() == 0
            &&& reach(g, s, pq[at].1 as int, 0, 0)
        },
{
    reveal(settled_ok);
    reveal(queue_ok);
    let c = pq[at].0;
    let pos = pq[at].1 as int;
    let f = pq[at].2 as int;
    assert(pos < g.len() && f < g.len());
    if done.contains(f) {
        let k = choose|k: int|
            0 <= k < g[f].len() && (#[trigger] g[f][k]).0 == pos && c.as_int() == dist[f].as_int()
                + g[f][k].1.as_int();
        assert(node_ok(g, s, done, dist, from, hops, f));
        lemma_reach_step(g, s, f, k, dist[f].as_int(), hops[f]);
    }
    if !done.contains(f) {
        lemma_reach_start(g, s);
    }
    assert forall|e: int, n: nat| reach(g, s, pos, e, n) implies c.as_int() <= e by {
        lemma_walk_meets_queue(g, s, done, dist, from, hops, pq, pos, e, n);
        let i = choose|i: int| 0 <= i < pq.len() && (#[trigger] pq[i]).0.as_int() <= e;
        assert(entry_le(pq[at], pq[i]));
    }
}

/// A node that had its distance keeps what is known of it when another node
/// takes its distance.
proof fn lemma_node_stays<T: Integer>(
    g: Edges<T>,
    s: int,
    done: Set<int>,
    dist: Seq<T>,
    from: Seq<Option<usize>>,
    hops: Seq<nat>,
    pos: int,
    dist2: Seq<T>,
    from2: Seq<Option<usize>>,
    hops2: Seq<nat>,
    v: int,
)
    requires
        done.finite(),
        0 <= pos < g.len(),
        0 <= v < g.len(),
        dist.len() == g.len(),
        from.len() == g.len(),
        hops.len() == g.len(),
        !done.contains(pos),
        done.contains(v),
        node_ok(g, s, done, dist, from, hops, v),
        dist2.len() == dist.len(),
        from2.len() == from.len(),
        hops2.len() == hops.len(),
        forall|x: int| 0 <= x < g.len() && x != pos ==> dist2[x] == dist[x] && from2[x] == from[x]
            && hops2[x] == hops[x],
    ensures
        node_ok(g, s, done.insert(pos), dist2, from2, hops2, v),
{
    if v != s {
        let fv = from[v]->0 as int;
        assert(link_ok(g, done, dist, hops, v, fv));
        let k = choose|k: int|
            0 <= k < g[fv].len() && (#[trigger] g[fv][k]).0 == v && dist[v].as_int()
                == dist[fv].as_int() + g[fv][k].1.as_int();
        assert(g[fv][k].0 == v && dist2[v].as_int() == dist2[fv].as_int() + g[fv][k].1.as_int());
        assert(link_ok(g, done.insert(pos), dist2, hops2, v, fv));
    }
}

/// The entries that stay in the queue when its least entry, whose node has
/// just taken its distance, has left it.
proof fn lemma_queue_after<T: Integer>(
    g: Edges<T>,
    s: int,
    done: Set<int>,
    dist: Seq<T>,
    hops: Seq<nat>,
    pq: Seq<(T, usize, usize)>,
    rest: Seq<(T, usize, usize)>,
    at: int,
    dist2: Seq<T>,
    hops2: Seq<nat>,
)
    requires
        0 <= s < g.len(),
        done.finite(),
        done.len() == 0 ==> pq.len() == 1,
        popped(pq, rest, at),
        queue_ok(g, s, done, dist, hops, pq),
        !done.contains(pq[at].1 as int),
        forall|x: int|
            #![trigger dist2[x]]
            0 <= x < g.len() && x != pq[at].1 ==> dist2[x] == dist[x],
    ensures
        queue_ok(g, s, done.insert(pq[at].1 as int), dist2, hops2, rest),
{
    reveal(queue_ok);
    let pos = pq[at].1 as int;
    let done2 = done.insert(pos);
    assert forall|i: int| 0 <= i < rest.len() implies {
        let (c, u, f) = #[trigger] rest[i];
        &&& u < g.len()
        &&& f < g.len()
        &&& if done2.contains(f as int) {
            exists|k: int|
                0 <= k < g[f as int].len() && (#[trigger] g[f as int][k]).0 == u && c.as_int()
                    == dist2[f as int].as_int() + g[f as int][k].1.as_int()
        } else {
            done2.len() == 0 && u == s && f == s && c.as_int() == 0
        }
    } by {
        let j = if i == at { pq.len() - 1 } else { i };
        assert(rest[i] == pq[j]);
        let e = pq[j];
        let fi = e.2 as int;
        assert(e.1 < g.len() && e.2 < g.len());
        if done.contains(fi) {
            let k = choose|k: int|
                0 <= k < g[fi].len() && (#[trigger] g[fi][k]).0 == e.1 && e.0.as_int()
                    == dist[fi].as_int() + g[fi][k].1.as_int();
            assert(fi != pos);
            assert(dist2[fi] == dist[fi]);
            assert(g[fi][k].0 == e.1 && e.0.as_int() == dist2[fi].as_int() + g[fi][k].1.as_int());
        } else {
            // the only entry of the first round has just left the queue
            assert(pq.len() == 1);
        }
    }
}

/// The edges out of the nodes that had their distance keep their entries when
/// the least entry, whose node has just taken its distance, has left the queue.
proof fn lemma_frontier_after<T: Integer>(
    g: Edges<T>,
    s: int,
    done: Set<int>,
    dist: Seq<T>,
    pq: Seq<(T, usize, usize)>,
    rest: Seq<(T, usize, usize)>,
    at: int,
    dist2: Seq<T>,
)
    requires
        0 <= s < g.len(),
        popped(pq, rest, at),
        frontier_ok(g, s, done, dist, pq),
        !done.contains(pq[at].1 as int),
        done.len() > 0 ==> done.contains(s),
        !done.contains(s) ==> pq[at].1 == s,
        forall|x: int|
            #![trigger dist2[x]]
            0 <= x < g.len() && x != pq[at].1 ==> dist2[x] == dist[x],
    ensures
        frontier_upto(g, s, done.insert(pq[at].1 as int), dist2, rest, pq[at].1 as int, 0),
{
    reveal(frontier_ok);
    reveal(frontier_upto);
    let pos = pq[at].1 as int;
    let done2 = done.insert(pos);
    assert forall|u: int, k: int|
        0 <= u < g.len() && 0 <= k < g[u].len() && done2.contains(u) && !done2.contains(
            (#[trigger] g[u][k]).0 as int,
        ) && (u != pos || k < 0) implies exists|i: int|
        0 <= i < rest.len() && (#[trigger] rest[i]).1 == g[u][k].0 && rest[i].0.as_int()
            <= dist2[u].as_int() + g[u][k].1.as_int() by {
        assert(done.contains(u));
        assert(!done.contains(g[u][k].0 as int));
        let i = choose|i: int|
            0 <= i < pq.len() && (#[trigger] pq[i]).1 == g[u][k].0 && pq[i].0.as_int()
                <= dist[u].as_int() + g[u][k].1.as_int();
        assert(pq[i].1 != pq[at].1);
        assert(i != at);
        let j = if i == pq.len() - 1 { at } else { i };
        assert(rest[j] == pq[i]);
        assert(dist2[u] == dist[u]);
        assert(rest[j].1 == g[u][k].0 && rest[j].0.as_int() <= dist2[u].as_int()
            + g[u][k].1.as_int());
    }
    assert(done2.contains(s));
}

/// The node of the least entry of the queue, which has no distance yet, takes
/// the cost of the entry as its distance.
proof fn lemma_settle<T: Integer>(
    g: Edges<T>,
    s: int,
    done: Set<int>,
    dist: Seq<T>,
    from: Seq<Option<usize>>,
    hops: Seq<nat>,
    pq: Seq<(T, usize, usize)>,
    rest: Seq<(T, usize, usize)>,
    at: int,
    dist2: Seq<T>,
    from2: Seq<Option<usize>>,
    hops2: Seq<nat>,
)
    requires
        edges_ok(g),
        0 <= s < g.len(),
        dist.len() == g.len(),
        from.len() == g.len(),
        hops.len() == g.len(),
        done.finite(),
        forall|v: int| done.contains(v) ==> 0 <= v < g.len(),
        done.len() > 0 ==> done.contains(s),
        done.len() == 0 ==> pq.len() == 1,
        popped(pq, rest, at),
        forall|i: int| 0 <= i < pq.len() ==> entry_le(pq[at], #[trigger] pq[i]),
        settled_ok(g, s, done, dist, from, hops),
        queue_ok(g, s, done, dist, hops, pq),
        frontier_ok(g, s, done, dist, pq),
        !done.contains(pq[at].1 as int),
        dist2 == dist.update(pq[at].1 as int, pq[at].0),
        from2 == from.update(pq[at].1 as int, Some(pq[at].2)),
        hops2 == hops.update(
            pq[at].1 as int,
            if done.contains(pq[at].2 as int) {
                (hops[pq[at].2 as int] + 1) as nat
            } else {
                0nat
            },
        ),
    ensures
        pq[at].1 < g.len(),
        settled_ok(g, s, done.insert(pq[at].1 as int), dist2, from2, hops2),
        queue_ok(g, s, done.insert(pq[at].1 as int), dist2, hops2, rest),
        frontier_upto(g, s, done.insert(pq[at].1 as int), dist2, rest, pq[at].1 as int, 0),
        done.insert(pq[at].1 as int).contains(s),
        0 <= pq[at].0.as_int(),
        reach(g, s, pq[at].1 as int, pq[at].0.as_int(), hops2[pq[at].1 as int]),
        hops2[pq[at].1 as int] <= done.len(),
{
    reveal(settled_ok);
    let c = pq[at].0;
    let pos = pq[at].1 as int;
    let f = pq[at].2 as int;
    let done2 = done.insert(pos);
    lemma_least_is_shortest(g, s, done, dist, from, hops, pq, at);
    lemma_queue_after(g, s, done, dist, hops, pq, rest, at, dist2, hops2);
    lemma_frontier_after(g, s, done, dist, pq, rest, at, dist2);
    if done.contains(f) {
        assert(link_ok(g, done2, dist2, hops2, pos, f)) by {
            let k = choose|k: int|
                0 <= k < g[f].len() && (#[trigger] g[f][k]).0 == pq[at].1 && pq[at].0.as_int()
                    == dist[f].as_int() + g[f][k].1.as_int();
            assert(g[f][k].0 == pos && dist2[pos].as_int() == dist2[f].as_int()
                + g[f][k].1.as_int());
        }
    }
    assert(node_ok(g, s, done2, dist2, from2, hops2, pos));
    assert forall|v: int| 0 <= v < g.len() && #[trigger] done2.contains(v) implies node_ok(
        g,
        s,
        done2,
        dist2,
        from2,
        hops2,
        v,
    ) by {
        if v != pos {
            assert(done.contains(v));
            lemma_node_stays(g, s, done, dist, from, hops, pos, dist2, from2, hops2, v);
        }
    }
}

/// An entry for the edge `k` from the node `pos`, which has its distance,
/// comes into the queue, unless the edge leads to a node that has its distance.
proof fn lemma_push<T: Integer>(
    g: Edges<T>,
    s: int,
    done: Set<int>,
    dist: Seq<T>,
    hops: Seq<nat>,
    pq: Seq<(T, usize, usize)>,
    pos: int,
    k: int,
    next: Seq<(T, usize, usize)>,
)
    requires
        0 <= pos < g.len(),
        0 <= k < g[pos].len(),
        g[pos][k].0 < g.len(),
        done.contains(pos),
        done.contains(s),
        queue_ok(g, s, done, dist, hops, pq),
        frontier_upto(g, s, done, dist, pq, pos, k),
        if done.contains(g[pos][k].0 as int) {
            next == pq
        } else {
            next.len() == pq.len() + 1 && next.drop_last() == pq && next.last().1 == g[pos][k].0
                && next.last().2 == pos && next.last().0.as_int() == dist[pos].as_int()
                + g[pos][k].1.as_int()
        },
    ensures
        queue_ok(g, s, done, dist, hops, next),
        frontier_upto(g, s, done, dist, next, pos, k + 1),
{
    reveal(queue_ok);
    reveal(frontier_upto);
    if !done.contains(g[pos][k].0 as int) {
        assert forall|i: int| 0 <= i < next.len() implies {
            let (c, u, f) = #[trigger] next[i];
            &&& u < g.len()
            &&& f < g.len()
            &&& if done.contains(f as int) {
                exists|j: int|
                    0 <= j < g[f as int].len() && (#[trigger] g[f as int][j]).0 == u && c.as_int()
                        == dist[f as int].as_int() + g[f as int][j].1.as_int()
            } else {
                done.len() == 0 && u == s && f == s && c.as_int() == 0
            }
        } by {
            if i < pq.len() {
                assert(next[i] == next.drop_last()[i]);
            } else {
                assert(next[i] == next.last());
                assert(g[pos][k].0 == next[i].1);
            }
        }
        assert forall|u: int, j: int|
            0 <= u < g.len() && 0 <= j < g[u].len() && done.contains(u) && !done.contains(
                (#[trigger] g[u][j]).0 as int,
            ) && (u != pos || j < k + 1) implies exists|i: int|
            0 <= i < next.len() && (#[trigger] next[i]).1 == g[u][j].0 && next[i].0.as_int()
                <= dist[u].as_int() + g[u][j].1.as_int() by {
            if u == pos && j == k {
                assert(next[pq.len() as int] == next.last());
            } else {
                let i = choose|i: int|
                    0 <= i < pq.len() && (#[trigger] pq[i]).1 == g[u][j].0 && pq[i].0.as_int()
                        <= dist[u].as_int() + g[u][j].1.as_int();
                assert(next[i] == next.drop_last()[i]);
            }
        }
    }
}

/// Before the first round: no node has its distance, and the start is in the
/// queue at no cost.
proof fn lemma_init<T: Integer>(
    g: Edges<T>,
    s: int,
    dist: Seq<T>,
    from: Seq<Option<usize>>,
    hops: Seq<nat>,
    pq: Seq<(T, usize, usize)>,
)
    requires
        0 <= s < g.len(),
        pq.len() == 1,
        pq[0].0.as_int() == 0,
        pq[0].1 == s,
        pq[0].2 == s,
    ensures
        settled_ok(g, s, Set::<int>::empty(), dist, from, hops),
        queue_ok(g, s, Set::<int>::empty(), dist, hops, pq),
        frontier_ok(g, s, Set::<int>::empty(), dist, pq),
{
    reveal(settled_ok);
    reveal(queue_ok);
    reveal(frontier_ok);
}

/// Once all edges from `pos` have been looked at, every edge has its entry.
proof fn lemma_frontier_full<T: Integer>(
    g: Edges<T>,
    s: int,
    done: Set<int>,
    dist: Seq<T>,
    pq: Seq<(T, usize, usize)>,
    pos: int,
)
    requires
        0 <= pos < g.len(),
        frontier_upto(g, s, done, dist, pq, pos, g[pos].len() as int),
    ensures
        frontier_ok(g, s, done, dist, pq),
{
    reveal(frontier_ok);
    reveal(frontier_upto);
}

/// With the queue empty, no walk leads to a node without a distance.
proof fn lemma_unreached<T: Integer>(
    g: Edges<T>,
    s: int,
    done: Set<int>,
    dist: Seq<T>,
    from: Seq<Option<usize>>,
    hops: Seq<nat>,
    pq: Seq<(T, usize, usize)>,
    v: int,
)
    requires
        edges_ok(g),
        0 <= s < g.len(),
        0 <= v < g.len(),
        settled_ok(g, s, done, dist, from, hops),
        frontier_ok(g, s, done, dist, pq),
        !done.contains(v),
        pq.len() == 0,
    ensures
        !reachable(g, s, v),
{
    if reachable(g, s, v) {
        let (d, n) = choose|d: int, n: nat| reach(g, s, v, d, n);
        lemma_walk_meets_queue(g, s, done, dist, from, hops, pq, v, d, n);
    }
}

/// What is known of a node that has its distance, in the words of the
/// representation invariant.
proof fn lemma_node_known<T: Integer>(
    g: Edges<T>,
    s: int,
    done: Set<int>,
    dist: Seq<T>,
    from: Seq<Option<usize>>,
    hops: Seq<nat>,
    v: int,
)
    requires
        0 <= v < g.len(),
        done.contains(v),
        settled_ok(g, s, done, dist, from, hops),
    ensures
        shortest(g, s, v, dist[v].as_int()),
        v == s ==> hops[v] == 0,
        v != s ==> from[v] is Some && link_ok(g, done, dist, hops, v, from[v]->0 as int),
{
    reveal(settled_ok);
    assert(node_ok(g, s, done, dist, from, hops, v));
}

/// The edges that a graph holds.
pub open spec fn edges_of<T>(graph: Seq<Vec<(usize, T)>>) -> Edges<T> {
    graph.map_values(|row: Vec<(usize, T)>| row@)
}

impl<T: Integer> Dijkstra<T> {
    /// The graph that the distances belong to.
    pub closed spec fn graph(&self) -> Edges<T> {
        self.graph@
    }

    /// The node that the distances start from.
    pub closed spec fn start(&self) -> int {
        self.start as int
    }

    /// The distance that is kept for the node `v`.
    pub closed spec fn dist(&self, v: int) -> int {
        self.dist@[v].as_int()
    }

    /// The node has a distance: it is not `inf`.
    spec fn has(&self, v: int) -> bool {
        self.dist@[v].as_int() != T::max_int() / 4
    }

    /// The representation invariant: every node that can be reached keeps the
    /// weight of a shortest walk and the node before it on such a walk, and
    /// every other node keeps `inf`.
    pub closed spec fn wf(&self) -> bool {
        let g = self.graph@;
        let s = self.start as int;
        &&& edges_ok(g)
        &&& 0 <= s < g.len()
        &&& self.dist@.len() == g.len()
        &&& self.from@.len() == g.len()
        &&& self.hops@.len() == g.len()
        &&& self.from@[s] is None
        &&& self.has(s) ==> self.hops@[s] == 0
        &&& forall|v: int|
            0 <= v < g.len() ==> if #[trigger] self.has(v) {
                &&& shortest(g, s, v, self.dist(v))
                &&& (v != s ==> self.from@[v] is Some && {
                    let f = self.from@[v]->0 as int;
                    &&& 0 <= f < g.len()
                    &&& self.has(f)
                    &&& self.hops@[v] == self.hops@[f] + 1
                    &&& exists|k: int|
                        0 <= k < g[f].len() && (#[trigger] g[f][k]).0 == v && self.dist(v)
                            == self.dist(f) + g[f][k].1.as_int()
                })
            } else {
                &&& !reachable(g, s, v)
                &&& self.from@[v] is None
            }
    }

    /// The shortest distances from `start` to the nodes of `graph`.
    pub fn new(start: usize, graph: &Vec<Vec<(usize, T)>>) -> (d: Self)
        requires
            start < graph@.len(),
            edges_ok(edges_of(graph@)),
            walks_fit(edges_of(graph@), start as int),
        ensures
            d.wf(),
            d.graph() == edges_of(graph@),
            d.start() == start,
    {
        let ghost g = edges_of(graph@);
        let ghost s = start as int;
        let ghost infi = T::max_int() / 4;
        let inf = T::inf();
        let v = graph.len();
        proof {
            T::lemma_bounds();
        }
        let mut distance: Vec<T> = Vec::new();
        let mut from: Vec<Option<usize>> = Vec::new();
        let mut i: usize = 0;
        while i < v
            invariant
                i <= v,
                distance@.len() == i,
                from@.len() == i,
                forall|x: int| 0 <= x < i ==> distance@[x] == inf,
                forall|x: int| 0 <= x < i ==> from@[x] is None,
            decreases v - i,
        {
            distance.push(inf);
            from.push(None);
            i += 1;
        }
        let mut pq: Vec<(T, usize, usize)> = Vec::new();
        pq.push((T::zero(), start, start));
        let mut left = v;
        let ghost mut done: Set<int> = Set::empty();
        let ghost mut hops: Seq<nat> = Seq::new(v as nat, |x: int| 0nat);
        proof {
            lemma_init(g, s, distance@, from@, hops, pq@);
        }
        loop
            invariant_except_break
                v == graph@.len(),
                g == edges_of(graph@),
                g.len() == v,
                edges_ok(g),
                walks_fit(g, s),
                s == start,
                0 <= s < v,
                infi == T::max_int() / 4,
                inf.as_int() == infi,
                T::min_int() <= 0,
                distance@.len() == v,
                from@.len() == v,
                hops.len() == v,
                done.finite(),
                forall|x: int| done.contains(x) ==> 0 <= x < v,
                left == v - done.len(),
                forall|x: int|
                    0 <= x < v ==> (done.contains(x) <==> (#[trigger] distance@[x]).as_int()
                        != infi),
                forall|x: int| 0 <= x < v && !done.contains(x) ==> #[trigger] from@[x] is None,
                done.len() > 0 ==> done.contains(s),
                done.len() == 0 ==> pq@.len() == 1,
                settled_ok(g, s, done, distance@, from@, hops),
                queue_ok(g, s, done, distance@, hops, pq@),
                frontier_ok(g, s, done, distance@, pq@),
            ensures
                distance@.len() == v,
                from@.len() == v,
                hops.len() == v,
                forall|x: int|
                    0 <= x < v ==> (done.contains(x) <==> (#[trigger] distance@[x]).as_int()
                        != infi),
                forall|x: int| 0 <= x < v && !done.contains(x) ==> #[trigger] from@[x] is None,
                settled_ok(g, s, done, distance@, from@, hops),
                forall|x: int| 0 <= x < v && !done.contains(x) ==> !reachable(g, s, x),
            decreases left, pq@.len(),
        {
            if pq.len() == 0 {
                proof {
                    assert forall|x: int| 0 <= x < v && !done.contains(x) implies !reachable(
                        g,
                        s,
                        x,
                    ) by {
                        lemma_unreached(g, s, done, distance@, from@, hops, pq@, x);
                    }
                }
                break ;
            }
            let ghost old_pq = pq@;
            let (cost, pos, f) = pop_min(&mut pq);
            let ghost at = choose|at: int| popped(old_pq, pq@, at) && #[trigger] old_pq[at] == (
                cost,
                pos,
                f,
            );
            proof {
                assert(pos < v) by {
                    reveal(queue_ok);
                }
            }
            if !distance[pos].same(inf) {
                proof {
                    lemma_drop_entry(g, s, done, distance@, hops, old_pq, pq@, at);
                }
                continue ;
            }
            let ghost old_dist = distance@;
            let ghost old_from = from@;
            let ghost old_hops = hops;
            let ghost old_done = done;
            from[pos] = Some(f);
            distance[pos] = cost;
            proof {
                hops = hops.update(
                    pos as int,
                    if done.contains(f as int) {
                        (hops[f as int] + 1) as nat
                    } else {
                        0nat
                    },
                );
                done = done.insert(pos as int);
                lemma_settle(
                    g,
                    s,
                    old_done,
                    old_dist,
                    old_from,
                    old_hops,
                    old_pq,
                    pq@,
                    at,
                    distance@,
                    from@,
                    hops,
                );
                // the new set of nodes lies within the graph
                vstd::set_lib::lemma_int_range(0, v as int);
                assert(done.subset_of(vstd::set_lib::set_int_range(0, v as int)));
                vstd::set_lib::lemma_len_subset(done, vstd::set_lib::set_int_range(0, v as int));
                assert(cost.as_int() < infi);
            }
            left -= 1;
            if left == 0 {
                proof {
                    vstd::set_lib::lemma_subset_equality(
                        done,
                        vstd::set_lib::set_int_range(0, v as int),
                    );
                    assert forall|x: int| 0 <= x < v implies done.contains(x) by {
                        assert(vstd::set_lib::set_int_range(0, v as int).contains(x));
                    }
                }
                break ;
            }
            let mut k: usize = 0;
            while k < graph[pos].len()
                invariant
                    v == graph@.len(),
                    g == edges_of(graph@),
                    g.len() == v,
                    edges_ok(g),
                    pos < v,
                    0 <= s < v,
                    k <= g[pos as int].len(),
                    infi == T::max_int() / 4,
                    inf.as_int() == infi,
                    T::min_int() <= 0,
                    distance@.len() == v,
                    done.contains(pos as int),
                    done.contains(s),
                    done.len() > 0,
                    cost == distance@[pos as int],
                    0 <= cost.as_int(),
                    walks_fit(g, s),
                    reach(g, s, pos as int, cost.as_int(), hops[pos as int]),
                    hops[pos as int] + 1 < v,
                    forall|x: int|
                        0 <= x < v ==> (done.contains(x) <==> (#[trigger] distance@[x]).as_int()
                            != infi),
                    queue_ok(g, s, done, distance@, hops, pq@),
                    frontier_upto(g, s, done, distance@, pq@, pos as int, k as int),
                decreases g[pos as int].len() - k,
            {
                let (ni, wt) = graph[pos][k];
                let ghost before = pq@;
                proof {
                    assert(g[pos as int][k as int] == (ni, wt));
                    assert(ni < v && 0 <= wt.as_int());
                    lemma_reach_step(g, s, pos as int, k as int, cost.as_int(), hops[pos as int]);
                    assert(wt.as_int() + cost.as_int() < infi);
                }
                if distance[ni].same(inf) {
                    pq.push((wt.plus(cost), ni, pos));
                    proof {
                        assert(pq@.drop_last() =~= before);
                    }
                }
                proof {
                    lemma_push(g, s, done, distance@, hops, before, pos as int, k as int, pq@);
                }
                k += 1;
            }
            proof {
                lemma_frontier_full(g, s, done, distance@, pq@, pos as int);
            }
        }
        let ghost before = from@;
        from[start] = None;
        let d = Self { start, from, dist: distance, graph: Ghost(g), hops: Ghost(hops) };
        proof {
            assert forall|x: int| 0 <= x < g.len() implies if #[trigger] d.has(x) {
                &&& shortest(g, s, x, d.dist(x))
                &&& (x != s ==> d.from@[x] is Some && {
                    let f = d.from@[x]->0 as int;
                    &&& 0 <= f < g.len()
                    &&& d.has(f)
                    &&& d.hops@[x] == d.hops@[f] + 1
                    &&& exists|k: int|
                        0 <= k < g[f].len() && (#[trigger] g[f][k]).0 == x && d.dist(x) == d.dist(f)
                            + g[f][k].1.as_int()
                })
            } else {
                &&& !reachable(g, s, x)
                &&& d.from@[x] is None
            } by {
                if d.has(x) {
                    assert(done.contains(x));
                    lemma_node_known(g, s, done, d.dist@, before, hops, x);
                    if x != s {
                        assert(d.from@[x] == before[x]);
                    }
                } else {
                    assert(!done.contains(x));
                    if x != s {
                        assert(d.from@[x] == before[x]);
                    }
                }
            }
            if d.has(s) {
                lemma_node_known(g, s, done, d.dist@, before, hops, s);
            }
        }
        d
    }

    /// The distance of the node `to`: the weight of a shortest walk to it, or
    /// `inf` where no walk leads to it.
    pub fn get(&self, to: usize) -> (r: T)
        requires
            self.wf(),
            to < self.graph().len(),
        ensures
            r.as_int() == self.dist(to as int),
            reachable(self.graph(), self.start(), to as int) ==> shortest(
                self.graph(),
                self.start(),
                to as int,
                r.as_int(),
            ),
            !reachable(self.graph(), self.start(), to as int) ==> r.as_int() == T::max_int() / 4,
    {
        proof {
            if self.has(to as int) {
                assert(shortest(self.graph@, self.start as int, to as int, self.dist(to as int)));
                let n = choose|n: nat|
                    reach(self.graph@, self.start as int, to as int, self.dist(to as int), n);
                assert(reachable(self.graph@, self.start as int, to as int));
            }
        }
        self.dist[to]
    }

    /// An edge leads from `u` to `v` over which the distance of `v` comes from
    /// that of `u`.
    pub open spec fn tight(&self, u: int, v: int) -> bool {
        exists|k: int|
            0 <= k < self.graph()[u].len() && (#[trigger] self.graph()[u][k]).0 == v && self.dist(v)
                == self.dist(u) + self.graph()[u][k].1.as_int()
    }

    /// The nodes of a shortest walk from the start to `to`, both included, none
    /// of them twice; `None` for the start itself and where no walk leads to
    /// `to`.
    pub fn path(&self, to: usize) -> (r: Option<Vec<usize>>)
        requires
            self.wf(),
            to < self.graph().len(),
        ensures
            r is None <==> (to == self.start() || !reachable(
                self.graph(),
                self.start(),
                to as int,
            )),
            r matches Some(p) ==> {
                &&& p@.len() >= 2
                &&& p@[0] == self.start()
                &&& p@.last() == to
                &&& forall|i: int|
                    0 <= i < p@.len() - 1 ==> (#[trigger] p@[i]) < self.graph().len() && self.tight(
                        p@[i] as int,
                        p@[i + 1] as int,
                    )
                &&& forall|i: int, j: int|
                    0 <= i < j < p@.len() ==> #[trigger] p@[i] != #[trigger] p@[j]
            },
    {
        let ghost g = self.graph@;
        let ghost s = self.start as int;
        proof {
            if self.has(to as int) {
                assert(shortest(g, s, to as int, self.dist(to as int)));
                let n = choose|n: nat| reach(g, s, to as int, self.dist(to as int), n);
                assert(reachable(g, s, to as int));
            }
        }
        if self.from[to].is_none() {
            return None;
        }
        let mut res: Vec<usize> = Vec::new();
        res.push(to);
        let mut cur = to;
        loop
            invariant
                self.wf(),
                g == self.graph@,
                s == self.start,
                cur < g.len(),
                self.has(cur as int),
                res@.len() >= 1,
                res@[0] == to,
                res@.last() == cur,
                cur == s ==> res@.len() >= 2,
                forall|i: int|
                    0 <= i < res@.len() - 1 ==> (#[trigger] res@[i + 1]) < g.len() && self.tight(
                        res@[i + 1] as int,
                        res@[i] as int,
                    ),
                forall|i: int|
                    0 <= i < res@.len() ==> self.hops@[#[trigger] res@[i] as int]
                        == self.hops@[cur as int] + res@.len() - 1 - i,
            ensures
                cur == s,
                res@.len() >= 2,
                res@[0] == to,
                res@.last() == s,
                forall|i: int|
                    0 <= i < res@.len() - 1 ==> (#[trigger] res@[i + 1]) < g.len() && self.tight(
                        res@[i + 1] as int,
                        res@[i] as int,
                    ),
                forall|i: int|
                    0 <= i < res@.len() ==> self.hops@[#[trigger] res@[i] as int] == res@.len() - 1
                        - i,
            decreases self.hops@[cur as int],
        {
            match self.from[cur] {
                Some(p) => {
                    let ghost before = res@;
                    proof {
                        assert(self.has(cur as int));
                        assert(cur != s);
                        let f = p as int;
                        let k = choose|k: int|
                            0 <= k < g[f].len() && (#[trigger] g[f][k]).0 == cur && self.dist(
                                cur as int,
                            ) == self.dist(f) + g[f][k].1.as_int();
                        assert(self.graph()[f][k].0 == cur);
                        assert(self.tight(p as int, cur as int));
                    }
                    res.push(p);
                    proof {
                        assert forall|i: int| 0 <= i < res@.len() - 1 implies (
                        #[trigger] res@[i + 1]) < g.len() && self.tight(
                            res@[i + 1] as int,
                            res@[i] as int,
                        ) by {
                            if i < before.len() - 1 {
                                assert(res@[i + 1] == before[i + 1]);
                                assert(res@[i] == before[i]);
                            }
                        }
                        assert(self.hops@[cur as int] == self.hops@[p as int] + 1);
                        assert forall|i: int| 0 <= i < res@.len() implies self.hops@[#[trigger] res@[i] as int]
                            == self.hops@[p as int] + res@.len() - 1 - i by {
                            if i < before.len() {
                                assert(res@[i] == before[i]);
                            }
                        }
                    }
                    cur = p;
                },
                None => {
                    break ;
                },
            }
        }
        let ghost back = res@;
        let mut out: Vec<usize> = Vec::new();
        loop
            invariant
                res@.len() <= back.len(),
                res@ == back.subrange(0, res@.len() as int),
                out@ == back.subrange(res@.len() as int, back.len() as int).reverse(),
            ensures
                out@ == back.reverse(),
            decreases res@.len(),
        {
            let ghost k = res@.len() as int;
            match res.pop() {
                Some(x) => {
                    out.push(x);
                    proof {
                        assert(res@ =~= back.subrange(0, k - 1));
                        assert(out@ =~= back.subrange(k - 1, back.len() as int).reverse());
                    }
                },
                None => {
                    proof {
                        assert(back.subrange(0, back.len() as int) =~= back);
                    }
                    break ;
                },
            }
        }
        proof {
            let n = back.len() as int;
            assert forall|i: int| 0 <= i < out@.len() - 1 implies (#[trigger] out@[i])
                < self.graph().len() && self.tight(out@[i] as int, out@[i + 1] as int) by {
                assert(out@[i] == back[n - 1 - i]);
                assert(out@[i + 1] == back[n - 2 - i]);
                assert(back[(n - 2 - i) + 1] < g.len());
            }
            assert forall|i: int, j: int| 0 <= i < j < out@.len() implies #[trigger] out@[i]
                != #[trigger] out@[j] by {
                assert(out@[i] == back[n - 1 - i]);
                assert(out@[j] == back[n - 1 - j]);
            }
        }
        Some(out)
    }
}

} // verus!
