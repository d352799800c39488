use crate::utils::integer::Integer;
use std::collections::VecDeque;
use vstd::prelude::*;

verus! {

/// The capacities that are left between the nodes of a network: `m[u][v]` from
/// `u` to `v`.
pub type Matrix = Seq<Seq<int>>;

/// The matrix has as many columns as rows.
pub open spec fn square(m: Matrix) -> bool {
    forall|u: int| 0 <= u < m.len() ==> (#[trigger] m[u]).len() == m.len()
}

/// The sum of the numbers of `row`.
pub open spec fn row_sum(row: Seq<int>) -> int
    decreases row.len(),
{
    if row.len() == 0 {
        0
    } else {
        row_sum(row.drop_last()) + row.last()
    }
}

/// A walk of `n` edges with capacity left leads from `s` to `v`.
#[verifier::opaque]
pub open spec fn linked(m: Matrix, s: int, v: int, n: nat) -> bool
    decreases n,
{
    if n == 0 {
        v == s
    } else {
        exists|u: int| 0 <= u < m.len() && #[trigger] m[u][v] > 0 && linked(m, s, u, (n - 1) as nat)
    }
}

/// Some walk over edges with capacity left leads from `s` to `v`.
pub open spec fn connected(m: Matrix, s: int, v: int) -> bool {
    exists|n: nat| linked(m, s, v, n)
}

/// The integers that the values of a matrix stand for.
pub open spec fn ints_of<T: Integer>(g: Seq<Vec<T>>) -> Matrix {
    g.map_values(|row: Vec<T>| row@.map_values(|c: T| c.as_int()))
}

/// The levels that the breadth-first search gives: the start has level 0, and
/// every other node that has a level has it one above a node from which an
/// edge with capacity left leads to it.
spec fn levels_ok(m: Matrix, lvl: Seq<int>, s: int, inf: int) -> bool {
    &&& lvl.len() == m.len()
    &&& lvl[s] == 0
    &&& forall|v: int| 0 <= v < m.len() && #[trigger] lvl[v] != inf ==> 0 <= lvl[v] < m.len()
    &&& forall|v: int|
        0 <= v < m.len() && v != s && #[trigger] lvl[v] != inf ==> exists|u: int|
            0 <= u < m.len() && #[trigger] m[u][v] > 0 && lvl[u] != inf && lvl[u] + 1 == lvl[v]
}

/// Every edge with capacity left leads from a node with a level to a node
/// with a level.
spec fn levels_closed(m: Matrix, lvl: Seq<int>, inf: int) -> bool {
    forall|u: int, v: int|
        0 <= u < m.len() && 0 <= v < m.len() && lvl[u] != inf && #[trigger] m[u][v] > 0 ==> lvl[v]
            != inf
}

/// Where the levels are closed under the edges with capacity left, every node
/// that a walk leads to from the start has a level.
proof fn lemma_closed_covers(m: Matrix, lvl: Seq<int>, s: int, inf: int, v: int, n: nat)
    requires
        square(m),
        lvl.len() == m.len(),
        0 <= s < m.len(),
        0 <= v < m.len(),
        lvl[s] != inf,
        levels_closed(m, lvl, inf),
        linked(m, s, v, n),
    ensures
        lvl[v] != inf,
    decreases n,
{
    reveal_with_fuel(linked, 1);
    if n > 0 {
        let u = choose|u: int|
            0 <= u < m.len() && #[trigger] m[u][v] > 0 && linked(m, s, u, (n - 1) as nat);
        lemma_closed_covers(m, lvl, s, inf, u, (n - 1) as nat);
    }
}

/// The nodes `p` lie on a walk from `s` to `t` over edges with capacity left,
/// each node one level above the node before it.
spec fn path_ok(m: Matrix, lvl: Seq<int>, s: int, t: int, p: Seq<usize>) -> bool {
    &&& p.len() >= 2
    &&& p[0] == s
    &&& p.last() == t
    &&& forall|i: int| 0 <= i < p.len() ==> (#[trigger] p[i]) < m.len()
    &&& forall|i: int|
        0 <= i < p.len() - 1 ==> m[#[trigger] p[i] as int][p[i + 1] as int] > 0 && lvl[p[i
            + 1] as int] == lvl[p[i] as int] + 1
}

/// Where a set of nodes holds the start and, with every node, the nodes one
/// level above it to which an edge with capacity left leads, it holds every
/// node that has a level.
proof fn lemma_levels_covered(m: Matrix, lvl: Seq<int>, s: int, inf: int, visited: Set<int>, v: int)
    requires
        0 <= s < m.len(),
        0 <= v < m.len(),
        levels_ok(m, lvl, s, inf),
        visited.contains(s),
        forall|u: int, x: int|
            0 <= u < m.len() && 0 <= x < m.len() && visited.contains(u) && #[trigger] m[u][x] > 0
                && lvl[x] == lvl[u] + 1 ==> visited.contains(x),
        lvl[v] != inf,
    ensures
        visited.contains(v),
    decreases lvl[v],
{
    if v != s {
        let u = choose|u: int|
            0 <= u < m.len() && #[trigger] m[u][v] > 0 && lvl[u] != inf && lvl[u] + 1 == lvl[v];
        assert(0 <= lvl[u]);
        lemma_levels_covered(m, lvl, s, inf, visited, u);
        assert(m[u][v] > 0);
    }
}

/// The cell `(u, v)` lies on one of the first `i` edges of the walk `p`, in
/// either direction.
spec fn touched(p: Seq<usize>, i: int, u: int, v: int) -> bool {
    exists|j: int|
        0 <= j < i && ((#[trigger] p[j] == u && p[j + 1] == v) || (p[j + 1] == u && p[j] == v))
}

/// Rows that differ in one number have sums that differ as that number.
proof fn lemma_row_sum_update(a: Seq<int>, b: Seq<int>, c: int)
    requires
        a.len() == b.len(),
        0 <= c < a.len(),
        forall|j: int| 0 <= j < a.len() && j != c ==> a[j] == b[j],
    ensures
        row_sum(b) == row_sum(a) - a[c] + b[c],
    decreases a.len(),
{
    if a.len() - 1 == c {
        assert(a.drop_last() =~= b.drop_last());
    } else {
        lemma_row_sum_update(a.drop_last(), b.drop_last(), c);
    }
}

/// A row of numbers that are not negative has a sum that is at least the sum
/// of each of its beginnings, which is not negative.
proof fn lemma_row_sum_grows(a: Seq<int>, k: int)
    requires
        0 <= k <= a.len(),
        forall|j: int| 0 <= j < a.len() ==> 0 <= a[j],
    ensures
        0 <= row_sum(a.subrange(0, k)) <= row_sum(a),
    decreases a.len() - k,
{
    if k < a.len() {
        lemma_row_sum_grows(a, k + 1);
        assert(a.subrange(0, k + 1).drop_last() =~= a.subrange(0, k));
        lemma_row_sum_nonneg(a.subrange(0, k));
    } else {
        assert(a.subrange(0, k) =~= a);
        lemma_row_sum_nonneg(a);
    }
}

/// A row of numbers that are not negative has a sum that is not negative.
proof fn lemma_row_sum_nonneg(a: Seq<int>)
    requires
        forall|j: int| 0 <= j < a.len() ==> 0 <= a[j],
    ensures
        0 <= row_sum(a),
    decreases a.len(),
{
    if a.len() > 0 {
        lemma_row_sum_nonneg(a.drop_last());
    }
}

/// No capacity is negative, and the two capacities between any two nodes are
/// together within the bounds of the type.
pub open spec fn capacities_ok(m: Matrix, max: int) -> bool {
    forall|u: int, v: int|
        0 <= u < m.len() && 0 <= v < m.len() ==> 0 <= #[trigger] m[u][v] && m[u][v] + m[v][u] <= max
}

/// Between any two nodes the two capacities of `b` are together what those of
/// `a` are: what has left one direction has come to the other.
pub open spec fn same_pairs(a: Matrix, b: Matrix) -> bool {
    &&& a.len() == b.len()
    &&& forall|u: int, v: int|
        0 <= u < a.len() && 0 <= v < a.len() ==> #[trigger] b[u][v] + b[v][u] == a[u][v] + a[v][u]
}

/// Every node but `s` and `t` has in `b` as much capacity left on the edges
/// that leave it as it has in `a`: what has come to it has gone on.
#[verifier::opaque]
pub open spec fn conserved(a: Matrix, b: Matrix, s: int, t: int) -> bool {
    forall|u: int| 0 <= u < a.len() && u != s && u != t ==> #[trigger] row_sum(b[u]) == row_sum(a[u])
}

/// A network of capacities between nodes, of which `execute` finds a greatest
/// flow from the start to the end.
pub struct MaxFlow<T> {
    g: Vec<Vec<T>>,
    start: usize,
    end: usize,
}

impl<T: Integer> MaxFlow<T> {
    /// The capacities that are left.
    pub closed spec fn matrix(&self) -> Matrix {
        ints_of(self.g@)
    }

    /// The node that the flow starts from.
    pub closed spec fn start(&self) -> int {
        self.start as int
    }

    /// The node that the flow ends at.
    pub closed spec fn end(&self) -> int {
        self.end as int
    }

    /// The representation invariant: the matrix is square, and the start and
    /// the end are nodes of it.
    pub closed spec fn wf(&self) -> bool {
        &&& self.g@.len() >= 1
        &&& forall|u: int| 0 <= u < self.g@.len() ==> (#[trigger] self.g@[u])@.len() == self.g@.len()
        &&& self.start < self.g@.len()
        &&& self.end < self.g@.len()
    }

    /// A network of `n` nodes without capacities, with the start and the end
    /// `start_end`, or the first and the last node.
    pub fn new(n: usize, start_end: Option<(usize, usize)>) -> (f: Self)
        requires
            n >= 1,
            start_end matches Some(se) ==> se.0 < n && se.1 < n,
        ensures
            f.wf(),
            f.matrix() == Seq::new(n as nat, |u: int| Seq::new(n as nat, |v: int| 0int)),
            f.start() == match start_end {
                Some(se) => se.0 as int,
                None => 0,
            },
            f.end() == match start_end {
                Some(se) => se.1 as int,
                None => n - 1,
            },
    {
        let (start, end) = match start_end {
            Some(se) => se,
            None => (0, n - 1),
        };
        let mut g: Vec<Vec<T>> = Vec::new();
        let mut u: usize = 0;
        proof {
            T::lemma_bounds();
        }
        while u < n
            invariant
                u <= n,
                T::min_int() <= 0 <= T::max_int(),
                g@.len() == u,
                forall|i: int| 0 <= i < u ==> (#[trigger] g@[i])@.len() == n,
                forall|i: int, j: int| 0 <= i < u && 0 <= j < n ==> (#[trigger] g@[i]@[j]).as_int() == 0,
            decreases n - u,
        {
            let mut row: Vec<T> = Vec::new();
            let mut v: usize = 0;
            while v < n
                invariant
                    v <= n,
                    T::min_int() <= 0 <= T::max_int(),
                    row@.len() == v,
                    forall|j: int| 0 <= j < v ==> (#[trigger] row@[j]).as_int() == 0,
                decreases n - v,
            {
                row.push(T::from_i32(0));
                v += 1;
            }
            g.push(row);
            u += 1;
        }
        let f = Self { g, start, end };
        proof {
            let want = Seq::new(n as nat, |u: int| Seq::new(n as nat, |v: int| 0int));
            assert(f.matrix().len() == want.len());
            assert forall|i: int| 0 <= i < n implies #[trigger] f.matrix()[i] =~= want[i] by {
                assert forall|j: int| 0 <= j < n implies #[trigger] f.matrix()[i][j] == 0 by {
                    assert(f.g@[i]@[j].as_int() == 0);
                }
            }
            assert(f.matrix() =~= want);
        }
        f
    }

    /// Adds `c` to the capacity from `u` to `v`.
    pub fn add_edge(&mut self, u: usize, v: usize, c: T)
        requires
            old(self).wf(),
            u < old(self).matrix().len(),
            v < old(self).matrix().len(),
            T::min_int() <= old(self).matrix()[u as int][v as int] + c.as_int() <= T::max_int(),
        ensures
            final(self).wf(),
            final(self).start() == old(self).start(),
            final(self).end() == old(self).end(),
            final(self).matrix() == old(self).matrix().update(
                u as int,
                old(self).matrix()[u as int].update(
                    v as int,
                    old(self).matrix()[u as int][v as int] + c.as_int(),
                ),
            ),
    {
        let ghost before = self.matrix();
        let x = self.g[u][v].plus(c);
        self.g[u][v] = x;
        proof {
            let want = before.update(
                u as int,
                before[u as int].update(v as int, before[u as int][v as int] + c.as_int()),
            );
            assert(self.matrix().len() == want.len());
            assert forall|i: int| 0 <= i < want.len() implies #[trigger] self.matrix()[i]
                =~= want[i] by {
                assert(before[i] == old(self).g@[i]@.map_values(|c: T| c.as_int()));
            }
            assert(self.matrix() =~= want);
        }
    }

    /// Gives every node that a walk over edges with capacity left leads to from
    /// the start its level, the least number of edges of such a walk.
    fn bfs(&self, dist: &mut Vec<T>)
        requires
            self.wf(),
            old(dist)@.len() == self.g@.len(),
            self.g@.len() < T::max_int() / 4,
            forall|v: int| 0 <= v < old(dist)@.len() ==> (#[trigger] old(dist)@[v]).as_int()
                == T::max_int() / 4,
        ensures
            final(dist)@.len() == self.g@.len(),
            levels_ok(
                self.matrix(),
                final(dist)@.map_values(|d: T| d.as_int()),
                self.start as int,
                T::max_int() / 4,
            ),
            levels_closed(
                self.matrix(),
                final(dist)@.map_values(|d: T| d.as_int()),
                T::max_int() / 4,
            ),
    {
        let ghost m = self.matrix();
        let ghost inf = T::max_int() / 4;
        let ghost s = self.start as int;
        let n = self.g.len();
        proof {
            T::lemma_bounds();
        }
        dist[self.start] = T::from_i32(0);
        let mut que: VecDeque<usize> = VecDeque::new();
        que.push_back(self.start);
        let ghost mut all: Seq<usize> = Seq::<usize>::empty().push(self.start);
        let ghost mut head: int = 0;
        let ghost mut seen: Set<int> = Set::<int>::empty().insert(s);
        let zero = T::zero();
        let one = T::from_i32(1);
        let infv = T::inf();
        proof {
            assert(que@ =~= all.subrange(head, all.len() as int));
            assert(all[0] == s);
            assert(seen.len() == 1);
            assert forall|x: int|
                0 <= x < n && (#[trigger] dist@[x]).as_int() != inf implies exists|i: int|
                0 <= i < all.len() && #[trigger] all[i] == x by {
                assert(x == s);
                assert(all[0] == x);
            }
        }
        loop
            invariant
                que@ == all.subrange(head, all.len() as int),
                0 <= head,
                self.wf(),
                m == self.matrix(),
                inf == T::max_int() / 4,
                s == self.start,
                n == self.g@.len(),
                n < inf,
                dist@.len() == n,
                zero.as_int() == 0,
                one.as_int() == 1,
                infv.as_int() == inf,
                T::min_int() <= 0,
                head <= all.len(),
                all.len() == seen.len(),
                seen.finite(),
                forall|x: int| seen.contains(x) ==> 0 <= x < n,
                forall|i: int| 0 <= i < all.len() ==> seen.contains(#[trigger] all[i] as int),
                forall|x: int|
                    0 <= x < n ==> (seen.contains(x) <==> (#[trigger] dist@[x]).as_int() != inf),
                forall|i: int|
                    0 <= i < all.len() ==> 0 <= dist@[#[trigger] all[i] as int].as_int() <= i,
                dist@[s].as_int() == 0,
                forall|v: int|
                    0 <= v < n && v != s && (#[trigger] dist@[v]).as_int() != inf ==> exists|
                        u: int,
                    |
                        0 <= u < n && #[trigger] m[u][v] > 0 && dist@[u].as_int() != inf
                            && dist@[u].as_int() + 1 == dist@[v].as_int(),
                forall|i: int, v: int|
                    0 <= i < head && 0 <= v < n && #[trigger] m[all[i] as int][v] > 0
                        ==> dist@[v].as_int() != inf,
                forall|x: int|
                    0 <= x < n && (#[trigger] dist@[x]).as_int() != inf ==> exists|i: int|
                        0 <= i < all.len() && #[trigger] all[i] == x,
            ensures
                head == all.len(),
            decreases n - head,
        {
            let u = match que.pop_front() {
                Some(u) => u,
                None => {
                    break ;
                },
            };
            proof {
                assert(u == all[head]);
                assert(que@ =~= all.subrange(head + 1, all.len() as int));
                vstd::set_lib::lemma_int_range(0, n as int);
                assert(seen.subset_of(vstd::set_lib::set_int_range(0, n as int)));
                vstd::set_lib::lemma_len_subset(seen, vstd::set_lib::set_int_range(0, n as int));
                assert(seen.contains(all[head] as int));
            }
            let du = dist[u];
            let mut v: usize = 0;
            while v < n
                invariant
                    que@ == all.subrange(head + 1, all.len() as int),
                    0 <= head,
                    self.wf(),
                    m == self.matrix(),
                    inf == T::max_int() / 4,
                    s == self.start,
                    n == self.g@.len(),
                    n < inf,
                    u < n,
                    v <= n,
                    dist@.len() == n,
                    zero.as_int() == 0,
                    one.as_int() == 1,
                    infv.as_int() == inf,
                    T::min_int() <= 0,
                    head < all.len(),
                    u == all[head],
                    du == dist@[u as int],
                    du.as_int() != inf,
                    0 <= du.as_int() <= head,
                    all.len() == seen.len(),
                    seen.finite(),
                    forall|x: int| seen.contains(x) ==> 0 <= x < n,
                    forall|i: int| 0 <= i < all.len() ==> seen.contains(#[trigger] all[i] as int),
                    forall|x: int|
                        0 <= x < n ==> (seen.contains(x) <==> (#[trigger] dist@[x]).as_int()
                            != inf),
                    forall|i: int|
                        0 <= i < all.len() ==> 0 <= dist@[#[trigger] all[i] as int].as_int() <= i,
                    dist@[s].as_int() == 0,
                    forall|v: int|
                        0 <= v < n && v != s && (#[trigger] dist@[v]).as_int() != inf ==> exists|
                            u: int,
                        |
                            0 <= u < n && #[trigger] m[u][v] > 0 && dist@[u].as_int() != inf
                                && dist@[u].as_int() + 1 == dist@[v].as_int(),
                    forall|i: int, v: int|
                        0 <= i < head && 0 <= v < n && #[trigger] m[all[i] as int][v] > 0
                            ==> dist@[v].as_int() != inf,
                    forall|x: int| 0 <= x < v && #[trigger] m[u as int][x] > 0 ==> dist@[x].as_int()
                        != inf,
                    forall|x: int|
                        0 <= x < n && (#[trigger] dist@[x]).as_int() != inf ==> exists|i: int|
                            0 <= i < all.len() && #[trigger] all[i] == x,
                decreases n - v,
            {
                let ci = self.g[u][v];
                proof {
                    assert(m[u as int][v as int] == ci.as_int()) by {
                        assert(m[u as int] == self.g@[u as int]@.map_values(|c: T| c.as_int()));
                    }
                    vstd::set_lib::lemma_int_range(0, n as int);
                    assert(seen.subset_of(vstd::set_lib::set_int_range(0, n as int)));
                    vstd::set_lib::lemma_len_subset(seen, vstd::set_lib::set_int_range(0, n as int));
                }
                if zero.less(ci) && dist[v].same(infv) {
                    let ghost old_dist = dist@;
                    let ghost old_que = all;
                    proof {
                        assert(!seen.contains(v as int));
                        vstd::set_lib::lemma_len_subset(
                            seen.insert(v as int),
                            vstd::set_lib::set_int_range(0, n as int),
                        );
                    }
                    dist[v] = du.plus(one);
                    que.push_back(v);
                    proof {
                        all = all.push(v);
                        assert(que@ =~= all.subrange(head + 1, all.len() as int));
                        seen = seen.insert(v as int);
                        assert forall|x: int|
                            0 <= x < n && x != s && (#[trigger] dist@[x]).as_int()
                                != inf implies exists|w: int|
                            0 <= w < n && #[trigger] m[w][x] > 0 && dist@[w].as_int() != inf
                                && dist@[w].as_int() + 1 == dist@[x].as_int() by {
                            if x == v {
                                assert(m[u as int][x] > 0);
                            } else {
                                let w = choose|w: int|
                                    0 <= w < n && #[trigger] m[w][x] > 0 && old_dist[w].as_int()
                                        != inf && old_dist[w].as_int() + 1 == old_dist[x].as_int();
                                assert(m[w][x] > 0 && dist@[w] == old_dist[w]);
                            }
                        }
                        assert forall|x: int|
                            0 <= x < n && (#[trigger] dist@[x]).as_int() != inf implies exists|
                            i: int,
                        | 0 <= i < all.len() && #[trigger] all[i] == x by {
                            if x == v {
                                assert(all[old_que.len() as int] == v);
                            } else {
                                let i = choose|i: int|
                                    0 <= i < old_que.len() && #[trigger] old_que[i] == x;
                                assert(all[i] == x);
                            }
                        }
                        assert forall|i: int| 0 <= i < all.len() implies 0
                            <= dist@[#[trigger] all[i] as int].as_int() <= i by {
                            if i < old_que.len() {
                                assert(all[i] == old_que[i]);
                                assert(seen.contains(old_que[i] as int));
                            }
                        }
                        assert forall|i: int, x: int|
                            0 <= i < head && 0 <= x < n && #[trigger] m[all[i] as int][x]
                                > 0 implies dist@[x].as_int() != inf by {
                            assert(all[i] == old_que[i]);
                            assert(old_dist[x].as_int() != inf);
                        }
                    }
                }
                v += 1;
            }
            proof {
                head = head + 1;
            }
        }
        proof {
            let lvl = dist@.map_values(|d: T| d.as_int());
            assert forall|v: int| 0 <= v < m.len() && v != s && #[trigger] lvl[v]
                != inf implies exists|u: int|
                0 <= u < m.len() && #[trigger] m[u][v] > 0 && lvl[u] != inf && lvl[u] + 1
                    == lvl[v] by {
                assert(dist@[v].as_int() != inf);
                let u = choose|u: int|
                    0 <= u < n && #[trigger] m[u][v] > 0 && dist@[u].as_int() != inf
                        && dist@[u].as_int() + 1 == dist@[v].as_int();
                assert(m[u][v] > 0 && lvl[u] != inf);
            }
            assert forall|v: int| 0 <= v < m.len() && #[trigger] lvl[v] != inf implies 0 <= lvl[v]
                < m.len() by {
                assert(dist@[v].as_int() != inf);
                let i = choose|i: int| 0 <= i < all.len() && #[trigger] all[i] == v;
                assert(dist@[all[i] as int].as_int() <= i);
                vstd::set_lib::lemma_int_range(0, n as int);
                assert(seen.subset_of(vstd::set_lib::set_int_range(0, n as int)));
                vstd::set_lib::lemma_len_subset(seen, vstd::set_lib::set_int_range(0, n as int));
            }
            assert forall|u: int, v: int|
                0 <= u < m.len() && 0 <= v < m.len() && lvl[u] != inf && #[trigger] m[u][v]
                    > 0 implies lvl[v] != inf by {
                assert(dist@[u].as_int() != inf);
                let i = choose|i: int| 0 <= i < all.len() && #[trigger] all[i] == u;
                assert(m[all[i] as int][v] > 0);
            }
        }
    }

    /// A walk from the start to the end over edges with capacity left that
    /// goes up one level with every edge, as the nodes on it; empty where
    /// there is none.
    fn dfs(&self, dist: &Vec<T>) -> (res: Vec<usize>)
        requires
            self.wf(),
            self.start != self.end,
            dist@.len() == self.g@.len(),
            self.g@.len() < T::max_int() / 4,
            dist@[self.start as int].as_int() == 0,
            forall|v: int|
                0 <= v < dist@.len() && (#[trigger] dist@[v]).as_int() != T::max_int() / 4 ==> 0
                    <= dist@[v].as_int() < dist@.len(),
        ensures
            res@.len() == 0 || path_ok(
                self.matrix(),
                dist@.map_values(|d: T| d.as_int()),
                self.start as int,
                self.end as int,
                res@,
            ),
            levels_ok(
                self.matrix(),
                dist@.map_values(|d: T| d.as_int()),
                self.start as int,
                T::max_int() / 4,
            ) && dist@[self.end as int].as_int() != T::max_int() / 4 ==> res@.len() > 0,
    {
        let ghost m = self.matrix();
        let ghost inf = T::max_int() / 4;
        let ghost s = self.start as int;
        let ghost lvl = dist@.map_values(|d: T| d.as_int());
        let n = self.g.len();
        proof {
            T::lemma_bounds();
        }
        let zero = T::zero();
        let one = T::from_i32(1);
        let mut parent: Vec<Option<usize>> = Vec::new();
        let mut k: usize = 0;
        while k < n
            invariant
                k <= n,
                parent@.len() == k,
                forall|x: int| 0 <= x < k ==> #[trigger] parent@[x] is None,
            decreases n - k,
        {
            parent.push(None);
            k += 1;
        }
        let mut stk: Vec<usize> = Vec::new();
        stk.push(self.start);
        let ghost mut visited: Set<int> = Set::<int>::empty().insert(s);
        proof {
            assert(stk@[0] == s);
            assert(lvl[s] == dist@[s].as_int());
            assert forall|v: int| 0 <= v < n && #[trigger] lvl[v] != inf implies 0 <= lvl[v]
                < n by {
                assert(dist@[v].as_int() != inf);
            }
        }
        loop
            invariant
                self.wf(),
                m == self.matrix(),
                inf == T::max_int() / 4,
                s == self.start,
                n == self.g@.len(),
                n < inf,
                dist@.len() == n,
                lvl == dist@.map_values(|d: T| d.as_int()),
                lvl[s] == 0,
                forall|v: int| 0 <= v < n && #[trigger] lvl[v] != inf ==> 0 <= lvl[v] < n,
                zero.as_int() == 0,
                one.as_int() == 1,
                T::min_int() <= 0,
                parent@.len() == n,
                visited.finite(),
                visited.contains(s),
                forall|x: int| visited.contains(x) ==> 0 <= x < n,
                forall|x: int|
                    0 <= x < n ==> (visited.contains(x) <==> (x == s || #[trigger] parent@[x] is Some)),
                parent@[s] is None,
                forall|x: int| visited.contains(x) ==> 0 <= #[trigger] lvl[x] < n,
                forall|x: int|
                    0 <= x < n && #[trigger] parent@[x] is Some ==> {
                        let p = parent@[x]->0 as int;
                        &&& 0 <= p < n
                        &&& visited.contains(p)
                        &&& m[p][x] > 0
                        &&& lvl[x] == lvl[p] + 1
                    },
                forall|i: int| 0 <= i < stk@.len() ==> visited.contains(#[trigger] stk@[i] as int),
                stk@.len() <= visited.len(),
                forall|u: int, x: int|
                    0 <= u < n && 0 <= x < n && visited.contains(u) && #[trigger] m[u][x] > 0
                        && lvl[x] == lvl[u] + 1 ==> visited.contains(x) || exists|i: int|
                        0 <= i < stk@.len() && #[trigger] stk@[i] == u,
            ensures
                parent@.len() == n,
                visited.contains(s),
                forall|x: int| visited.contains(x) ==> 0 <= x < n,
                forall|x: int|
                    0 <= x < n ==> (visited.contains(x) <==> (x == s || #[trigger] parent@[x] is Some)),
                parent@[s] is None,
                forall|x: int| visited.contains(x) ==> 0 <= #[trigger] lvl[x] < n,
                forall|x: int|
                    0 <= x < n && #[trigger] parent@[x] is Some ==> {
                        let p = parent@[x]->0 as int;
                        &&& 0 <= p < n
                        &&& visited.contains(p)
                        &&& m[p][x] > 0
                        &&& lvl[x] == lvl[p] + 1
                    },
                forall|u: int, x: int|
                    0 <= u < n && 0 <= x < n && visited.contains(u) && #[trigger] m[u][x] > 0
                        && lvl[x] == lvl[u] + 1 ==> visited.contains(x),
            decreases 2 * (n - visited.len()) + stk@.len(),
        {
            proof {
                vstd::set_lib::lemma_int_range(0, n as int);
                assert(visited.subset_of(vstd::set_lib::set_int_range(0, n as int)));
                vstd::set_lib::lemma_len_subset(visited, vstd::set_lib::set_int_range(0, n as int));
            }
            let ghost old_stk = stk@;
            let ghost old_visited = visited;
            let u = match stk.pop() {
                Some(u) => u,
                None => {
                    break ;
                },
            };
            proof {
                assert(visited.contains(old_stk[old_stk.len() - 1] as int));
            }
            let du = dist[u];
            proof {
                assert(lvl[u as int] == du.as_int());
            }
            let next = du.plus(one);
            proof {
                assert forall|w: int, x: int|
                    0 <= w < n && 0 <= x < n && visited.contains(w) && #[trigger] m[w][x] > 0
                        && lvl[x] == lvl[w] + 1 && w != u implies visited.contains(x) || exists|
                    i: int,
                | 0 <= i < stk@.len() && #[trigger] stk@[i] == w by {
                    if !visited.contains(x) {
                        let i = choose|i: int| 0 <= i < old_stk.len() && #[trigger] old_stk[i] == w;
                        assert(i < old_stk.len() - 1);
                        assert(stk@[i] == old_stk[i]);
                    }
                }
                assert forall|i: int| 0 <= i < stk@.len() implies visited.contains(
                    #[trigger] stk@[i] as int,
                ) by {
                    assert(stk@[i] == old_stk[i]);
                }
            }
            let mut v: usize = 0;
            while v < n
                invariant
                    self.wf(),
                    m == self.matrix(),
                    inf == T::max_int() / 4,
                    s == self.start,
                    n == self.g@.len(),
                    n < inf,
                    u < n,
                    v <= n,
                    dist@.len() == n,
                    lvl == dist@.map_values(|d: T| d.as_int()),
                    lvl[s] == 0,
                    forall|v: int| 0 <= v < n && #[trigger] lvl[v] != inf ==> 0 <= lvl[v] < n,
                    zero.as_int() == 0,
                    next.as_int() == lvl[u as int] + 1,
                    parent@.len() == n,
                    visited.finite(),
                    visited.contains(s),
                    visited.contains(u as int),
                    forall|x: int| visited.contains(x) ==> 0 <= x < n,
                    forall|x: int|
                        0 <= x < n ==> (visited.contains(x) <==> (x == s || #[trigger] parent@[x] is Some)),
                    parent@[s] is None,
                    forall|x: int| visited.contains(x) ==> 0 <= #[trigger] lvl[x] < n,
                    forall|x: int|
                        0 <= x < n && #[trigger] parent@[x] is Some ==> {
                            let p = parent@[x]->0 as int;
                            &&& 0 <= p < n
                            &&& visited.contains(p)
                            &&& m[p][x] > 0
                            &&& lvl[x] == lvl[p] + 1
                        },
                    forall|i: int| 0 <= i < stk@.len() ==> visited.contains(#[trigger] stk@[i] as int),
                    stk@.len() + 1 <= visited.len(),
                    visited.len() <= n,
                    old_visited.len() <= n,
                    2 * (n - visited.len()) + stk@.len() < 2 * (n - old_visited.len()) + old_stk.len(),
                    forall|w: int, x: int|
                        0 <= w < n && 0 <= x < n && visited.contains(w) && #[trigger] m[w][x] > 0
                            && lvl[x] == lvl[w] + 1 && (w != u || x < v) ==> visited.contains(x)
                            || exists|i: int| 0 <= i < stk@.len() && #[trigger] stk@[i] == w,
                decreases n - v,
            {
                let ci = self.g[u][v];
                proof {
                    assert(m[u as int][v as int] == ci.as_int()) by {
                        assert(m[u as int] == self.g@[u as int]@.map_values(|c: T| c.as_int()));
                    }
                    assert(lvl[v as int] == dist@[v as int].as_int());
                    vstd::set_lib::lemma_int_range(0, n as int);
                    assert(visited.subset_of(vstd::set_lib::set_int_range(0, n as int)));
                    vstd::set_lib::lemma_len_subset(
                        visited,
                        vstd::set_lib::set_int_range(0, n as int),
                    );
                }
                if parent[v].is_none() && zero.less(ci) && next.same(dist[v]) {
                    let ghost before = stk@;
                    let ghost old_parent = parent@;
                    proof {
                        assert(v != s);
                        assert(!visited.contains(v as int));
                        vstd::set_lib::lemma_len_subset(
                            visited.insert(v as int),
                            vstd::set_lib::set_int_range(0, n as int),
                        );
                    }
                    parent[v] = Some(u);
                    stk.push(v);
                    proof {
                        visited = visited.insert(v as int);
                        assert forall|w: int, x: int|
                            0 <= w < n && 0 <= x < n && visited.contains(w) && #[trigger] m[w][x]
                                > 0 && lvl[x] == lvl[w] + 1 && (w != u || x < v
                                + 1) implies visited.contains(x) || exists|i: int|
                            0 <= i < stk@.len() && #[trigger] stk@[i] == w by {
                            if w == v {
                                assert(stk@[before.len() as int] == w);
                            } else if w == u && x == v {
                            } else {
                                if !visited.contains(x) {
                                    let i = choose|i: int|
                                        0 <= i < before.len() && #[trigger] before[i] == w;
                                    assert(stk@[i] == w);
                                }
                            }
                        }
                        assert forall|i: int| 0 <= i < stk@.len() implies visited.contains(
                            #[trigger] stk@[i] as int,
                        ) by {
                            if i < before.len() {
                                assert(stk@[i] == before[i]);
                            }
                        }
                        assert forall|x: int| 0 <= x < n && #[trigger] parent@[x] is Some implies {
                            let p = parent@[x]->0 as int;
                            &&& 0 <= p < n
                            &&& visited.contains(p)
                            &&& m[p][x] > 0
                            &&& lvl[x] == lvl[p] + 1
                        } by {
                            if x != v {
                                assert(parent@[x] == old_parent[x]);
                            }
                        }
                    }
                }
                v += 1;
            }
        }
        if parent[self.end].is_none() {
            proof {
                if levels_ok(m, lvl, s, inf) && lvl[self.end as int] != inf {
                    lemma_levels_covered(m, lvl, s, inf, visited, self.end as int);
                }
            }
            return Vec::new();
        }
        let mut res: Vec<usize> = Vec::new();
        res.push(self.end);
        let mut cur = self.end;
        loop
            invariant
                parent@.len() == n,
                n == m.len(),
                s == self.start,
                s != self.end,
                cur < n,
                lvl.len() == n,
                square(m),
                visited.contains(cur as int),
                forall|x: int| visited.contains(x) ==> 0 <= x < n,
                forall|x: int|
                    0 <= x < n ==> (visited.contains(x) <==> (x == s || #[trigger] parent@[x] is Some)),
                forall|x: int| visited.contains(x) ==> 0 <= #[trigger] lvl[x] < n,
                forall|x: int|
                    0 <= x < n && #[trigger] parent@[x] is Some ==> {
                        let p = parent@[x]->0 as int;
                        &&& 0 <= p < n
                        &&& visited.contains(p)
                        &&& m[p][x] > 0
                        &&& lvl[x] == lvl[p] + 1
                    },
                res@.len() >= 1,
                res@[0] == self.end,
                res@.last() == cur,
                cur == s ==> res@.len() >= 2,
                forall|i: int| 0 <= i < res@.len() ==> (#[trigger] res@[i]) < n,
                forall|i: int|
                    0 <= i < res@.len() - 1 ==> m[#[trigger] res@[i + 1] as int][res@[i] as int] > 0
                        && lvl[res@[i] as int] == lvl[res@[i + 1] as int] + 1,
            ensures
                res@.len() >= 2,
                res@[0] == self.end,
                res@.last() == s,
                forall|i: int| 0 <= i < res@.len() ==> (#[trigger] res@[i]) < n,
                forall|i: int|
                    0 <= i < res@.len() - 1 ==> m[#[trigger] res@[i + 1] as int][res@[i] as int] > 0
                        && lvl[res@[i] as int] == lvl[res@[i + 1] as int] + 1,
            decreases lvl[cur as int],
        {
            match parent[cur] {
                Some(p) => {
                    let ghost before = res@;
                    res.push(p);
                    proof {
                        assert forall|i: int| 0 <= i < res@.len() - 1 implies m[#[trigger] res@[i
                            + 1] as int][res@[i] as int] > 0 && lvl[res@[i] as int] == lvl[res@[i
                            + 1] as int] + 1 by {
                            if i < before.len() - 1 {
                                assert(res@[i + 1] == before[i + 1]);
                                assert(res@[i] == before[i]);
                            }
                        }
                    }
                    cur = p;
                },
                None => {
                    break ;
                },
            }
        }
        let ghost back = res@;
        let mut out: Vec<usize> = Vec::new();
        loop
            invariant
                res@.len() <= back.len(),
                res@ == back.subrange(0, res@.len() as int),
                out@ == back.subrange(res@.len() as int, back.len() as int).reverse(),
            ensures
                out@ == back.reverse(),
            decreases res@.len(),
        {
            let ghost k = res@.len() as int;
            match res.pop() {
                Some(x) => {
                    out.push(x);
                    proof {
                        assert(res@ =~= back.subrange(0, k - 1));
                        assert(out@ =~= back.subrange(k - 1, back.len() as int).reverse());
                    }
                },
                None => {
                    proof {
                        assert(back.subrange(0, back.len() as int) =~= back);
                    }
                    break ;
                },
            }
        }
        proof {
            let len = back.len() as int;
            assert forall|i: int| 0 <= i < out@.len() implies (#[trigger] out@[i]) < m.len() by {
                assert(out@[i] == back[len - 1 - i]);
            }
            assert forall|i: int| 0 <= i < out@.len() - 1 implies m[#[trigger] out@[i] as int][out@[i
                + 1] as int] > 0 && lvl[out@[i + 1] as int] == lvl[out@[i] as int] + 1 by {
                assert(out@[i] == back[len - 1 - i]);
                assert(out@[i + 1] == back[len - 2 - i]);
                assert(m[back[(len - 2 - i) + 1] as int][back[len - 2 - i] as int] > 0);
            }
        }
        out
    }

    /// Moves as much as can flow from the start to the end, and returns how
    /// much that is: what the capacities from the start have gone down by.
    /// What has left one direction of an edge has come to the other, every
    /// node between the start and the end has passed on what came to it, and
    /// afterwards no walk over edges with capacity left leads from the start
    /// to the end, so that no flow is greater.
    #[verifier::rlimit(60)]
    pub fn execute(&mut self) -> (r: T)
        requires
            old(self).wf(),
            old(self).start() != old(self).end(),
            old(self).matrix().len() < T::max_int() / 4,
            capacities_ok(old(self).matrix(), T::max_int()),
            row_sum(old(self).matrix()[old(self).start()]) <= T::max_int(),
        ensures
            final(self).wf(),
            final(self).start() == old(self).start(),
            final(self).end() == old(self).end(),
            square(final(self).matrix()),
            capacities_ok(final(self).matrix(), T::max_int()),
            same_pairs(old(self).matrix(), final(self).matrix()),
            conserved(
                old(self).matrix(),
                final(self).matrix(),
                old(self).start(),
                old(self).end(),
            ),
            !connected(final(self).matrix(), final(self).start(), final(self).end()),
            r.as_int() == row_sum(old(self).matrix()[old(self).start()]) - row_sum(
                final(self).matrix()[old(self).start()],
            ),
            r.as_int() >= 0,
    {
        let ghost m0 = self.matrix();
        let ghost s = self.start as int;
        let ghost t = self.end as int;
        let ghost inf = T::max_int() / 4;
        let n = self.g.len();
        proof {
            T::lemma_bounds();
            self.lemma_shape();
            lemma_conserved_same(m0, s, t);
        }
        let sum = self.row_total(self.start);
        let infv = T::inf();
        let mut dist: Vec<T> = Vec::new();
        let mut k: usize = 0;
        while k < n
            invariant
                k <= n,
                dist@.len() == k,
                infv.as_int() == inf,
                forall|v: int| 0 <= v < k ==> (#[trigger] dist@[v]).as_int() == inf,
            decreases n - k,
        {
            dist.push(infv);
            k += 1;
        }
        loop
            invariant_except_break
                dist@.len() == n,
                forall|v: int| 0 <= v < n ==> (#[trigger] dist@[v]).as_int() == inf,
            invariant
                self.wf(),
                self.start == old(self).start,
                self.end == old(self).end,
                s == self.start,
                t == self.end,
                s != t,
                n == self.g@.len(),
                n == m0.len(),
                n < inf,
                inf == T::max_int() / 4,
                infv.as_int() == inf,
                T::min_int() <= 0,
                capacities_ok(self.matrix(), T::max_int()),
                same_pairs(m0, self.matrix()),
                conserved(m0, self.matrix(), s, t),
                0 <= row_sum(self.matrix()[s]) <= row_sum(m0[s]),
            ensures
                !connected(self.matrix(), s, t),
            decreases row_sum(self.matrix()[s]),
        {
            self.bfs(&mut dist);
            let ghost lvl = dist@.map_values(|d: T| d.as_int());
            let ghost phase = self.matrix();
            proof {
                self.lemma_shape();
                assert(lvl[t] == dist@[t].as_int());
            }
            if dist[self.end].same(infv) {
                proof {
                    if connected(phase, s, t) {
                        let len = choose|len: nat| linked(phase, s, t, len);
                        lemma_closed_covers(phase, lvl, s, inf, t, len);
                    }
                }
                break ;
            }
            let ghost mut augmented = false;
            loop
                invariant
                    self.wf(),
                    self.start == old(self).start,
                    self.end == old(self).end,
                    s == self.start,
                    t == self.end,
                    s != t,
                    n == self.g@.len(),
                    n == m0.len(),
                    n < inf,
                    inf == T::max_int() / 4,
                    infv.as_int() == inf,
                    T::min_int() <= 0,
                    dist@.len() == n,
                    lvl == dist@.map_values(|d: T| d.as_int()),
                    lvl[s] == 0,
                    lvl[t] != inf,
                    forall|v: int| 0 <= v < n && #[trigger] lvl[v] != inf ==> 0 <= lvl[v] < n,
                    capacities_ok(self.matrix(), T::max_int()),
                    same_pairs(m0, self.matrix()),
                    conserved(m0, self.matrix(), s, t),
                    0 <= row_sum(self.matrix()[s]) <= row_sum(phase[s]),
                    row_sum(phase[s]) <= row_sum(m0[s]),
                    !augmented ==> self.matrix() == phase && levels_ok(phase, lvl, s, inf),
                    augmented ==> row_sum(self.matrix()[s]) < row_sum(phase[s]),
                ensures
                    augmented,
                decreases row_sum(self.matrix()[s]),
            {
                proof {
                    assert(dist@[s].as_int() == lvl[s]);
                    assert forall|v: int|
                        0 <= v < dist@.len() && (#[trigger] dist@[v]).as_int() != T::max_int()
                            / 4 implies 0 <= dist@[v].as_int() < dist@.len() by {
                        assert(lvl[v] == dist@[v].as_int());
                    }
                    assert(dist@[t].as_int() == lvl[t]);
                }
                let path = self.dfs(&dist);
                if path.len() == 0 {
                    break ;
                }
                let ghost cur = self.matrix();
                let flow = self.bottleneck(&path);
                self.augment(&path, flow, Ghost(lvl));
                proof {
                    augmented = true;
                    self.lemma_shape();
                    lemma_same_pairs(m0, cur, self.matrix());
                    lemma_conserved_twice(m0, cur, self.matrix(), s, t);
                    lemma_row_sum_nonneg(self.matrix()[s]);
                }
            }
            let mut k: usize = 0;
            while k < n
                invariant
                    k <= n,
                    dist@.len() == n,
                    infv.as_int() == inf,
                    forall|v: int| 0 <= v < k ==> (#[trigger] dist@[v]).as_int() == inf,
                decreases n - k,
            {
                dist[k] = infv;
                k += 1;
            }
        }
        proof {
            self.lemma_shape();
        }
        let d = self.row_total(self.start);
        sum.minus(d)
    }

    /// The matrix is square, and every row of a matrix of capacities that are
    /// not negative has a sum that is not negative.
    proof fn lemma_shape(&self)
        requires
            self.wf(),
        ensures
            square(self.matrix()),
            self.matrix().len() == self.g@.len(),
            capacities_ok(self.matrix(), T::max_int()) ==> forall|u: int|
                0 <= u < self.g@.len() ==> 0 <= row_sum(#[trigger] self.matrix()[u]),
    {
        let m = self.matrix();
        assert forall|x: int| 0 <= x < m.len() implies (#[trigger] m[x]).len() == m.len() by {
            assert(m[x] == self.g@[x]@.map_values(|c: T| c.as_int()));
        }
        if capacities_ok(m, T::max_int()) {
            assert forall|u: int| 0 <= u < self.g@.len() implies 0 <= row_sum(#[trigger] m[u]) by {
                lemma_row_sum_nonneg(m[u]);
            }
        }
    }

    /// The least capacity on the edges of the walk `path`, or `inf` where that
    /// is less.
    fn bottleneck(&self, path: &Vec<usize>) -> (flow: T)
        requires
            self.wf(),
            path@.len() >= 1,
            forall|i: int| 0 <= i < path@.len() ==> (#[trigger] path@[i]) < self.g@.len(),
            forall|i: int|
                0 <= i < path@.len() - 1 ==> 0 < self.matrix()[#[trigger] path@[i] as int][path@[i
                    + 1] as int],
        ensures
            0 < flow.as_int(),
            forall|i: int|
                0 <= i < path@.len() - 1 ==> flow.as_int() <= self.matrix()[#[trigger] path@[i] as int][path@[i
                    + 1] as int],
    {
        proof {
            T::lemma_bounds();
        }
        let mut flow = T::inf();
        let mut i: usize = 0;
        while i < path.len() - 1
            invariant
                self.wf(),
                path@.len() >= 1,
                forall|i: int| 0 <= i < path@.len() ==> (#[trigger] path@[i]) < self.g@.len(),
                forall|i: int|
                    0 <= i < path@.len() - 1 ==> 0 < self.matrix()[#[trigger] path@[i] as int][path@[i
                        + 1] as int],
                i <= path@.len() - 1,
                0 < flow.as_int(),
                forall|j: int|
                    0 <= j < i ==> flow.as_int() <= self.matrix()[#[trigger] path@[j] as int][path@[j
                        + 1] as int],
            decreases path@.len() - 1 - i,
        {
            let c = self.cell(path[i], path[i + 1]);
            if c.less(flow) {
                flow = c;
            }
            i += 1;
        }
        flow
    }

    /// The capacity that is left from `u` to `v`.
    fn cell(&self, u: usize, v: usize) -> (c: T)
        requires
            self.wf(),
            u < self.g@.len(),
            v < self.g@.len(),
        ensures
            c.as_int() == self.matrix()[u as int][v as int],
    {
        proof {
            assert(self.matrix()[u as int] == self.g@[u as int]@.map_values(|c: T| c.as_int()));
        }
        self.g[u][v]
    }

    /// Puts `c` in the place of the capacity from `u` to `v`.
    fn set_cell(&mut self, u: usize, v: usize, c: T)
        requires
            old(self).wf(),
            u < old(self).g@.len(),
            v < old(self).g@.len(),
        ensures
            final(self).wf(),
            final(self).start == old(self).start,
            final(self).end == old(self).end,
            final(self).g@.len() == old(self).g@.len(),
            final(self).matrix().len() == old(self).matrix().len(),
            square(final(self).matrix()),
            forall|x: int, y: int|
                0 <= x < old(self).g@.len() && 0 <= y < old(self).g@.len() ==> #[trigger] final(self).matrix()[x][y] == if x == u && y == v {
                    c.as_int()
                } else {
                    old(self).matrix()[x][y]
                },
    {
        self.g[u][v] = c;
        proof {
            assert forall|x: int, y: int|
                0 <= x < old(self).g@.len() && 0 <= y < old(self).g@.len() implies #[trigger] self.matrix()[x][y]
                == if x == u && y == v {
                c.as_int()
            } else {
                old(self).matrix()[x][y]
            } by {
                assert(self.matrix()[x] == self.g@[x]@.map_values(|c: T| c.as_int()));
                assert(old(self).matrix()[x] == old(self).g@[x]@.map_values(|c: T| c.as_int()));
            }
            assert forall|x: int| 0 <= x < self.matrix().len() implies (
            #[trigger] self.matrix()[x]).len() == self.matrix().len() by {
                assert(self.matrix()[x] == self.g@[x]@.map_values(|c: T| c.as_int()));
            }
        }
    }

    /// The sum of the capacities that are left from `u`.
    fn row_total(&self, u: usize) -> (r: T)
        requires
            self.wf(),
            u < self.g@.len(),
            forall|v: int| 0 <= v < self.g@.len() ==> 0 <= #[trigger] self.matrix()[u as int][v],
            row_sum(self.matrix()[u as int]) <= T::max_int(),
        ensures
            r.as_int() == row_sum(self.matrix()[u as int]),
    {
        let ghost row = self.matrix()[u as int];
        let n = self.g.len();
        proof {
            T::lemma_bounds();
            assert(row == self.g@[u as int]@.map_values(|c: T| c.as_int()));
            assert(row.subrange(0, 0) =~= Seq::<int>::empty());
        }
        let mut acc = T::from_i32(0);
        let mut v: usize = 0;
        while v < n
            invariant
                self.wf(),
                u < n,
                v <= n,
                n == self.g@.len(),
                row == self.matrix()[u as int],
                row.len() == n,
                T::min_int() <= 0,
                forall|j: int| 0 <= j < n ==> 0 <= #[trigger] row[j],
                row_sum(row) <= T::max_int(),
                acc.as_int() == row_sum(row.subrange(0, v as int)),
            decreases n - v,
        {
            let c = self.cell(u, v);
            proof {
                lemma_row_sum_grows(row, v + 1);
                assert(row.subrange(0, v + 1).drop_last() =~= row.subrange(0, v as int));
            }
            acc = acc.plus(c);
            v += 1;
        }
        proof {
            assert(row.subrange(0, n as int) =~= row);
        }
        acc
    }

    /// Moves `flow` along the walk `path`: every edge of the walk loses that
    /// much capacity, and the edge against it gains it.
    fn augment(&mut self, path: &Vec<usize>, flow: T, lvl: Ghost<Seq<int>>)
        requires
            old(self).wf(),
            path_ok(
                old(self).matrix(),
                lvl@,
                old(self).start as int,
                old(self).end as int,
                path@,
            ),
            lvl@.len() == old(self).g@.len(),
            capacities_ok(old(self).matrix(), T::max_int()),
            0 < flow.as_int(),
            forall|i: int|
                0 <= i < path@.len() - 1 ==> flow.as_int() <= old(self).matrix()[#[trigger] path@[i] as int][path@[i
                    + 1] as int],
        ensures
            final(self).wf(),
            final(self).start == old(self).start,
            final(self).end == old(self).end,
            final(self).g@.len() == old(self).g@.len(),
            capacities_ok(final(self).matrix(), T::max_int()),
            same_pairs(old(self).matrix(), final(self).matrix()),
            conserved(
                old(self).matrix(),
                final(self).matrix(),
                old(self).start as int,
                old(self).end as int,
            ),
            row_sum(final(self).matrix()[old(self).start as int]) == row_sum(
                old(self).matrix()[old(self).start as int],
            ) - flow.as_int(),
    {
        let ghost m0 = self.matrix();
        let ghost p = path@;
        let ghost s = self.start as int;
        let ghost t = self.end as int;
        let ghost n = self.g@.len() as int;
        let ghost f = flow.as_int();
        proof {
            assert forall|x: int| 0 <= x < n implies (#[trigger] m0[x]).len() == n by {
                assert(m0[x] == self.g@[x]@.map_values(|c: T| c.as_int()));
            }
            lemma_augment_start(m0, p);
            assert(moved(m0, self.matrix(), p, lvl@, s, t, 0, f, T::max_int())) by {
                reveal(moved);
            }
            assert(balanced(m0, self.matrix(), p, 0, f)) by {
                reveal(balanced);
            }
        }
        let mut i: usize = 0;
        while i < path.len() - 1
            invariant
                self.wf(),
                self.start == old(self).start,
                self.end == old(self).end,
                self.g@.len() == n,
                m0.len() == n,
                p == path@,
                f == flow.as_int(),
                i <= p.len() - 1,
                moved(m0, self.matrix(), p, lvl@, s, t, i as int, f, T::max_int()),
                balanced(m0, self.matrix(), p, i as int, f),
            decreases p.len() - 1 - i,
        {
            let a = path[i];
            let b = path[i + 1];
            let ghost before = self.matrix();
            proof {
                T::lemma_bounds();
                lemma_augment_cells(m0, before, p, lvl@, s, t, i as int, f, T::max_int());
                assert(p[i as int] == a && p[i + 1] == b);
            }
            let fwd = self.cell(a, b);
            self.set_cell(a, b, fwd.minus(flow));
            let ghost mid = self.matrix();
            let back = self.cell(b, a);
            proof {
                assert(mid[b as int][a as int] == before[b as int][a as int]);
            }
            self.set_cell(b, a, back.plus(flow));
            proof {
                assert forall|x: int, y: int|
                    0 <= x < m0.len() && 0 <= y < m0.len() implies #[trigger] self.matrix()[x][y]
                    == if x == p[i as int] && y == p[i + 1] {
                    before[x][y] - f
                } else if x == p[i + 1] && y == p[i as int] {
                    before[x][y] + f
                } else {
                    before[x][y]
                } by {
                    assert(mid[x][y] == if x == a && y == b {
                        before[x][y] - f
                    } else {
                        before[x][y]
                    });
                }
                lemma_balance_step(
                    m0,
                    before,
                    self.matrix(),
                    p,
                    lvl@,
                    s,
                    t,
                    i as int,
                    f,
                    T::max_int(),
                );
                lemma_augment_step(
                    m0,
                    before,
                    self.matrix(),
                    p,
                    lvl@,
                    s,
                    t,
                    i as int,
                    f,
                    T::max_int(),
                );
            }
            i += 1;
        }
        proof {
            lemma_augment_end(m0, self.matrix(), p, lvl@, s, t, f, T::max_int());
            lemma_balance_end(m0, self.matrix(), p, lvl@, s, t, f, T::max_int());
        }
    }
}

/// What has twice moved between the two directions of every pair of nodes
/// has moved between them.
proof fn lemma_same_pairs(a: Matrix, b: Matrix, c: Matrix)
    requires
        same_pairs(a, b),
        same_pairs(b, c),
    ensures
        same_pairs(a, c),
{
    assert forall|u: int, v: int| 0 <= u < a.len() && 0 <= v < a.len() implies #[trigger] c[u][v]
        + c[v][u] == a[u][v] + a[v][u] by {
        assert(b[u][v] + b[v][u] == a[u][v] + a[v][u]);
    }
}

/// The state of the matrix `cur` while `f` moves along the walk `p` in the
/// matrix `m0`, after the first `i` edges.
#[verifier::opaque]
spec fn moved(
    m0: Matrix,
    cur: Matrix,
    p: Seq<usize>,
    lvl: Seq<int>,
    s: int,
    t: int,
    i: int,
    f: int,
    max: int,
) -> bool {
    let n = m0.len() as int;
    &&& square(m0)
    &&& square(cur)
    &&& cur.len() == n
    &&& lvl.len() == n
    &&& f > 0
    &&& 0 <= i <= p.len() - 1
    &&& path_ok(m0, lvl, s, t, p)
    &&& capacities_ok(m0, max)
    &&& capacities_ok(cur, max)
    &&& same_pairs(m0, cur)
    &&& forall|j: int| 0 <= j < p.len() - 1 ==> f <= m0[#[trigger] p[j] as int][p[j + 1] as int]
    &&& forall|u: int, v: int|
        0 <= u < n && 0 <= v < n && !touched(p, i, u, v) ==> #[trigger] cur[u][v] == m0[u][v]
    &&& i > 0 ==> cur[s][p[1] as int] == m0[s][p[1] as int] - f
}

/// Before the first edge nothing has moved.
proof fn lemma_augment_start(m0: Matrix, p: Seq<usize>)
    ensures
        forall|u: int, v: int| !touched(p, 0, u, v),
{
}

/// The capacities on the edge `i` of the walk and against it are still those
/// of the matrix `m0`, so that `f` can move.
proof fn lemma_augment_cells(
    m0: Matrix,
    cur: Matrix,
    p: Seq<usize>,
    lvl: Seq<int>,
    s: int,
    t: int,
    i: int,
    f: int,
    max: int,
)
    requires
        moved(m0, cur, p, lvl, s, t, i, f, max),
        i < p.len() - 1,
    ensures
        p[i] < m0.len(),
        p[i + 1] < m0.len(),
        p[i] != p[i + 1],
        cur[p[i] as int][p[i + 1] as int] == m0[p[i] as int][p[i + 1] as int],
        cur[p[i + 1] as int][p[i] as int] == m0[p[i + 1] as int][p[i] as int],
        0 < f <= cur[p[i] as int][p[i + 1] as int],
        cur[p[i] as int][p[i + 1] as int] <= max,
        0 <= cur[p[i + 1] as int][p[i] as int],
        cur[p[i + 1] as int][p[i] as int] + f <= max,
{
    reveal(moved);
    let a = p[i] as int;
    let b = p[i + 1] as int;
    lemma_levels_apart(m0, lvl, s, t, p);
    assert(lvl[b] == lvl[a] + 1);
    assert(!touched(p, i, a, b)) by {
        if touched(p, i, a, b) {
            let j = choose|j: int|
                0 <= j < i && ((#[trigger] p[j] == a && p[j + 1] == b) || (p[j + 1] == a && p[j]
                    == b));
            assert(lvl[p[j] as int] == lvl[s] + j);
            assert(lvl[p[j + 1] as int] == lvl[s] + j + 1);
        }
    }
    assert(!touched(p, i, b, a)) by {
        if touched(p, i, b, a) {
            let j = choose|j: int|
                0 <= j < i && ((#[trigger] p[j] == b && p[j + 1] == a) || (p[j + 1] == b && p[j]
                    == a));
            assert(lvl[p[j] as int] == lvl[s] + j);
            assert(lvl[p[j + 1] as int] == lvl[s] + j + 1);
        }
    }
    assert(cur[a][b] == m0[a][b]);
    assert(cur[b][a] == m0[b][a]);
    assert(0 <= m0[a][b] && m0[a][b] + m0[b][a] <= max);
    assert(0 <= m0[b][a]);
    assert(f <= m0[p[i] as int][p[i + 1] as int]);
}

/// After `f` has moved over the edge `i` of the walk.
proof fn lemma_augment_step(
    m0: Matrix,
    before: Matrix,
    now: Matrix,
    p: Seq<usize>,
    lvl: Seq<int>,
    s: int,
    t: int,
    i: int,
    f: int,
    max: int,
)
    requires
        moved(m0, before, p, lvl, s, t, i, f, max),
        i < p.len() - 1,
        now.len() == before.len(),
        square(now),
        forall|x: int, y: int|
            0 <= x < m0.len() && 0 <= y < m0.len() ==> #[trigger] now[x][y] == if x == p[i] && y
                == p[i + 1] {
                before[x][y] - f
            } else if x == p[i + 1] && y == p[i] {
                before[x][y] + f
            } else {
                before[x][y]
            },
    ensures
        moved(m0, now, p, lvl, s, t, i + 1, f, max),
{
    lemma_augment_cells(m0, before, p, lvl, s, t, i, f, max);
    reveal(moved);
    let n = m0.len() as int;
    let a = p[i] as int;
    let b = p[i + 1] as int;
    lemma_levels_apart(m0, lvl, s, t, p);
    assert forall|u: int, v: int| 0 <= u < n && 0 <= v < n implies 0 <= #[trigger] now[u][v]
        && now[u][v] + now[v][u] <= max by {
        assert(before[u][v] + before[v][u] == m0[u][v] + m0[v][u]);
        assert(0 <= before[u][v] && 0 <= before[v][u]);
        assert(now[v][u] == if v == a && u == b {
            before[v][u] - f
        } else if v == b && u == a {
            before[v][u] + f
        } else {
            before[v][u]
        });
    }
    assert forall|u: int, v: int| 0 <= u < n && 0 <= v < n implies #[trigger] now[u][v]
        + now[v][u] == m0[u][v] + m0[v][u] by {
        assert(before[u][v] + before[v][u] == m0[u][v] + m0[v][u]);
        assert(now[v][u] == if v == a && u == b {
            before[v][u] - f
        } else if v == b && u == a {
            before[v][u] + f
        } else {
            before[v][u]
        });
    }
    assert forall|u: int, v: int|
        0 <= u < n && 0 <= v < n && !touched(p, i + 1, u, v) implies #[trigger] now[u][v]
        == m0[u][v] by {
        if touched(p, i, u, v) {
            let j = choose|j: int|
                0 <= j < i && ((#[trigger] p[j] == u && p[j + 1] == v) || (p[j + 1] == u && p[j]
                    == v));
            assert(0 <= j < i + 1);
        }
        if (u == a && v == b) || (u == b && v == a) {
            assert((p[i] == u && p[i + 1] == v) || (p[i + 1] == u && p[i] == v));
        }
    }
    assert(lvl[p[1] as int] == lvl[s] + 1);
    if i == 0 {
        assert(a == s);
    } else {
        assert(lvl[a] == lvl[s] + i);
        assert(lvl[b] == lvl[s] + i + 1);
    }
}

/// After `f` has moved over all edges of the walk, the start has lost `f`.
proof fn lemma_augment_end(
    m0: Matrix,
    now: Matrix,
    p: Seq<usize>,
    lvl: Seq<int>,
    s: int,
    t: int,
    f: int,
    max: int,
)
    requires
        moved(m0, now, p, lvl, s, t, p.len() - 1, f, max),
    ensures
        capacities_ok(now, max),
        same_pairs(m0, now),
        row_sum(now[s]) == row_sum(m0[s]) - f,
{
    reveal(moved);
    let n = m0.len() as int;
    let i = p.len() - 1;
    lemma_levels_apart(m0, lvl, s, t, p);
    assert(p[0] == s);
    assert forall|v: int| 0 <= v < n && v != p[1] implies now[s][v] == m0[s][v] by {
        if touched(p, i, s, v) {
            let j = choose|j: int|
                0 <= j < i && ((#[trigger] p[j] == s && p[j + 1] == v) || (p[j + 1] == s && p[j]
                    == v));
            assert(lvl[p[j] as int] == lvl[s] + j);
            assert(lvl[p[j + 1] as int] == lvl[s] + j + 1);
        }
    }
    lemma_row_sum_update(m0[s], now[s], p[1] as int);
}

/// What the capacity that leaves the node `u` has gone up by after `f` has
/// moved over the first `i` edges of the walk `p`: the first node has lost
/// `f`, and the node that `f` has come to has it.
spec fn gain(p: Seq<usize>, i: int, f: int, u: int) -> int {
    if i <= 0 {
        0
    } else if u == p[0] {
        -f
    } else if u == p[i] {
        f
    } else {
        0
    }
}

/// The rows of `cur` have the sums of the rows of `m0` and what `f` on the
/// first `i` edges of the walk `p` has added.
#[verifier::opaque]
spec fn balanced(m0: Matrix, cur: Matrix, p: Seq<usize>, i: int, f: int) -> bool {
    forall|u: int| 0 <= u < m0.len() ==> #[trigger] row_sum(cur[u]) == row_sum(m0[u]) + gain(p, i, f, u)
}

/// After `f` has moved over the edge `i` of the walk, the node before the
/// edge has passed it on to the node behind it.
proof fn lemma_balance_step(
    m0: Matrix,
    before: Matrix,
    now: Matrix,
    p: Seq<usize>,
    lvl: Seq<int>,
    s: int,
    t: int,
    i: int,
    f: int,
    max: int,
)
    requires
        moved(m0, before, p, lvl, s, t, i, f, max),
        balanced(m0, before, p, i, f),
        i < p.len() - 1,
        now.len() == before.len(),
        square(now),
        forall|x: int, y: int|
            0 <= x < m0.len() && 0 <= y < m0.len() ==> #[trigger] now[x][y] == if x == p[i] && y
                == p[i + 1] {
                before[x][y] - f
            } else if x == p[i + 1] && y == p[i] {
                before[x][y] + f
            } else {
                before[x][y]
            },
    ensures
        balanced(m0, now, p, i + 1, f),
{
    reveal(moved);
    reveal(balanced);
    let n = m0.len() as int;
    let a = p[i] as int;
    let b = p[i + 1] as int;
    lemma_levels_apart(m0, lvl, s, t, p);
    assert(lvl[a] == lvl[s] + i);
    assert(lvl[b] == lvl[s] + i + 1);
    assert(lvl[p[0] as int] == lvl[s] + 0);
    assert forall|u: int| 0 <= u < n implies #[trigger] row_sum(now[u]) == row_sum(m0[u]) + gain(
        p,
        i + 1,
        f,
        u,
    ) by {
        assert(row_sum(before[u]) == row_sum(m0[u]) + gain(p, i, f, u));
        if u == a {
            assert forall|j: int| 0 <= j < n && j != b implies before[a][j] == now[a][j] by {}
            lemma_row_sum_update(before[a], now[a], b);
        } else if u == b {
            assert forall|j: int| 0 <= j < n && j != a implies before[b][j] == now[b][j] by {}
            lemma_row_sum_update(before[b], now[b], a);
        } else {
            assert forall|j: int| 0 <= j < n implies before[u][j] == now[u][j] by {}
            assert(now[u] =~= before[u]);
        }
    }
}

/// After `f` has moved over all edges of the walk, every node between the
/// start and the end has passed it on.
proof fn lemma_balance_end(
    m0: Matrix,
    now: Matrix,
    p: Seq<usize>,
    lvl: Seq<int>,
    s: int,
    t: int,
    f: int,
    max: int,
)
    requires
        moved(m0, now, p, lvl, s, t, p.len() - 1, f, max),
        balanced(m0, now, p, p.len() - 1, f),
    ensures
        conserved(m0, now, s, t),
{
    reveal(moved);
    reveal(balanced);
    reveal(conserved);
    assert forall|u: int| 0 <= u < m0.len() && u != s && u != t implies #[trigger] row_sum(now[u])
        == row_sum(m0[u]) by {
        assert(row_sum(now[u]) == row_sum(m0[u]) + gain(p, p.len() - 1, f, u));
    }
}

/// Nothing has moved where nothing has changed.
proof fn lemma_conserved_same(a: Matrix, s: int, t: int)
    ensures
        conserved(a, a, s, t),
{
    reveal(conserved);
}

/// What every node has passed on twice it has passed on.
proof fn lemma_conserved_twice(a: Matrix, b: Matrix, c: Matrix, s: int, t: int)
    requires
        a.len() == b.len(),
        conserved(a, b, s, t),
        conserved(b, c, s, t),
    ensures
        conserved(a, c, s, t),
{
    reveal(conserved);
    assert forall|u: int| 0 <= u < a.len() && u != s && u != t implies #[trigger] row_sum(c[u])
        == row_sum(a[u]) by {
        assert(row_sum(b[u]) == row_sum(a[u]));
    }
}

/// The nodes of a walk that goes up one level with every edge have levels
/// that count up from the level of the first.
proof fn lemma_levels_apart(m: Matrix, lvl: Seq<int>, s: int, t: int, p: Seq<usize>)
    requires
        path_ok(m, lvl, s, t, p),
    ensures
        forall|j: int| 0 <= j < p.len() ==> lvl[#[trigger] p[j] as int] == lvl[s] + j,
{
    assert forall|j: int| 0 <= j < p.len() implies lvl[#[trigger] p[j] as int] == lvl[s] + j by {
        lemma_level_at(m, lvl, s, t, p, j);
    }
}

/// The node `j` of a walk that goes up one level with every edge lies `j`
/// levels above the first.
proof fn lemma_level_at(m: Matrix, lvl: Seq<int>, s: int, t: int, p: Seq<usize>, j: int)
    requires
        path_ok(m, lvl, s, t, p),
        0 <= j < p.len(),
    ensures
        lvl[p[j] as int] == lvl[s] + j,
    decreases j,
{
    if j > 0 {
        lemma_level_at(m, lvl, s, t, p, j - 1);
        assert(lvl[p[(j - 1) + 1] as int] == lvl[p[j - 1] as int] + 1);
    }
}

} // verus!
