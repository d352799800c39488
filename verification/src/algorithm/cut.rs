use crate::algorithm::max_flow::{
    capacities_ok, connected, conserved, linked, row_sum, same_pairs, square, Matrix,
};
use vstd::prelude::*;

verus! {

/// The sum of the numbers of `row` at the positions of which `keep` holds,
/// where `inside` is true, and at the other positions, where it is false.
spec fn part(row: Seq<int>, keep: spec_fn(int) -> bool, inside: bool) -> int
    decreases row.len(),
{
    if row.len() == 0 {
        0
    } else {
        part(row.drop_last(), keep, inside) + if keep(row.len() - 1) == inside {
            row.last()
        } else {
            0
        }
    }
}

/// The sum of `part` over the first `w` numbers of each of the first `j` rows
/// of which `keep` holds.
spec fn block(h: Matrix, keep: spec_fn(int) -> bool, j: int, w: int, inside: bool) -> int
    decreases j,
{
    if j <= 0 {
        0
    } else {
        block(h, keep, j - 1, w, inside) + if keep(j - 1) {
            part(h[j - 1].take(w), keep, inside)
        } else {
            0
        }
    }
}

/// The sum of the sums of the first `j` rows of which `keep` holds.
spec fn total(h: Matrix, keep: spec_fn(int) -> bool, j: int) -> int
    decreases j,
{
    if j <= 0 {
        0
    } else {
        total(h, keep, j - 1) + if keep(j - 1) {
            row_sum(h[j - 1])
        } else {
            0
        }
    }
}

/// The sum of the numbers in the column `c` of the first `j` rows of which
/// `keep` holds.
spec fn column(h: Matrix, keep: spec_fn(int) -> bool, c: int, j: int) -> int
    decreases j,
{
    if j <= 0 {
        0
    } else {
        column(h, keep, c, j - 1) + if keep(j - 1) {
            h[j - 1][c]
        } else {
            0
        }
    }
}

/// The sum of a row is the sum of its two parts.
proof fn lemma_part_split(row: Seq<int>, keep: spec_fn(int) -> bool)
    ensures
        row_sum(row) == part(row, keep, true) + part(row, keep, false),
    decreases row.len(),
{
    if row.len() > 0 {
        lemma_part_split(row.drop_last(), keep);
    }
}

/// A part without a negative number is not negative.
proof fn lemma_part_nonneg(row: Seq<int>, keep: spec_fn(int) -> bool)
    requires
        forall|j: int| 0 <= j < row.len() && !keep(j) ==> 0 <= #[trigger] row[j],
    ensures
        0 <= part(row, keep, false),
    decreases row.len(),
{
    if row.len() > 0 {
        lemma_part_nonneg(row.drop_last(), keep);
    }
}

/// The difference of two rows has the difference of their sums.
proof fn lemma_row_sum_diff(x: Seq<int>, y: Seq<int>, d: Seq<int>)
    requires
        x.len() == y.len(),
        x.len() == d.len(),
        forall|j: int| 0 <= j < d.len() ==> #[trigger] d[j] == x[j] - y[j],
    ensures
        row_sum(d) == row_sum(x) - row_sum(y),
    decreases d.len(),
{
    if d.len() > 0 {
        lemma_row_sum_diff(x.drop_last(), y.drop_last(), d.drop_last());
    }
}

/// The sums of the kept rows are the two blocks together.
proof fn lemma_total_split(h: Matrix, keep: spec_fn(int) -> bool, j: int, n: int)
    requires
        0 <= j <= n,
        forall|u: int| 0 <= u < n ==> (#[trigger] h[u]).len() == n,
    ensures
        total(h, keep, j) == block(h, keep, j, n, true) + block(h, keep, j, n, false),
    decreases j,
{
    if j > 0 {
        lemma_total_split(h, keep, j - 1, n);
        assert(h[j - 1].take(n) =~= h[j - 1]);
        lemma_part_split(h[j - 1], keep);
    }
}

/// The block outside is not negative where no number from a kept row to a
/// column that is not kept is negative.
proof fn lemma_outside_nonneg(h: Matrix, keep: spec_fn(int) -> bool, j: int, n: int)
    requires
        0 <= j <= n,
        forall|u: int| 0 <= u < n ==> (#[trigger] h[u]).len() == n,
        forall|u: int, v: int|
            0 <= u < n && 0 <= v < n && keep(u) && !keep(v) ==> 0 <= #[trigger] h[u][v],
    ensures
        0 <= block(h, keep, j, n, false),
    decreases j,
{
    if j > 0 {
        lemma_outside_nonneg(h, keep, j - 1, n);
        if keep(j - 1) {
            let row = h[j - 1].take(n);
            assert(row =~= h[j - 1]);
            assert forall|v: int| 0 <= v < row.len() && !keep(v) implies 0 <= #[trigger] row[v] by {
                assert(0 <= h[j - 1][v]);
            }
            lemma_part_nonneg(row, keep);
        }
    }
}

/// Where every kept row but the row `s` has the sum 0, the sums of the kept
/// rows are the sum of the row `s`.
proof fn lemma_total_source(h: Matrix, keep: spec_fn(int) -> bool, j: int, n: int, s: int)
    requires
        0 <= j <= n,
        0 <= s < n,
        keep(s),
        forall|u: int| 0 <= u < n && keep(u) && u != s ==> #[trigger] row_sum(h[u]) == 0,
    ensures
        total(h, keep, j) == if s < j {
            row_sum(h[s])
        } else {
            0
        },
    decreases j,
{
    if j > 0 {
        lemma_total_source(h, keep, j - 1, n, s);
        if keep(j - 1) && j - 1 != s {
            assert(row_sum(h[j - 1]) == 0);
        }
    }
}

/// One more number of every row adds a column to the block inside.
proof fn lemma_block_widen(h: Matrix, keep: spec_fn(int) -> bool, j: int, w: int, n: int)
    requires
        0 <= j <= n,
        0 <= w < n,
        forall|u: int| 0 <= u < n ==> (#[trigger] h[u]).len() == n,
    ensures
        block(h, keep, j, w + 1, true) == block(h, keep, j, w, true) + if keep(w) {
            column(h, keep, w, j)
        } else {
            0
        },
    decreases j,
{
    if j > 0 {
        lemma_block_widen(h, keep, j - 1, w, n);
        let row = h[j - 1];
        assert(row.take(w + 1).drop_last() =~= row.take(w));
        assert(row.take(w + 1).last() == row[w]);
    }
}

/// Where the numbers at `(u, v)` and at `(v, u)` sum to 0, so do the
/// beginning of a column and the beginning of the row of the same number.
proof fn lemma_mirror(h: Matrix, keep: spec_fn(int) -> bool, c: int, j: int, n: int)
    requires
        0 <= j <= n,
        0 <= c < n,
        forall|u: int| 0 <= u < n ==> (#[trigger] h[u]).len() == n,
        forall|u: int, v: int| 0 <= u < n && 0 <= v < n ==> #[trigger] h[u][v] + h[v][u] == 0,
    ensures
        column(h, keep, c, j) + part(h[c].take(j), keep, true) == 0,
    decreases j,
{
    if j > 0 {
        lemma_mirror(h, keep, c, j - 1, n);
        let row = h[c];
        assert(row.take(j).drop_last() =~= row.take(j - 1));
        assert(row.take(j).last() == row[j - 1]);
        assert(h[j - 1][c] + h[c][j - 1] == 0);
    } else {
        assert(h[c].take(0) =~= Seq::<int>::empty());
    }
}

/// Where the numbers at `(u, v)` and at `(v, u)` sum to 0, the block inside
/// sums to 0.
proof fn lemma_inside_zero(h: Matrix, keep: spec_fn(int) -> bool, k: int, n: int)
    requires
        0 <= k <= n,
        forall|u: int| 0 <= u < n ==> (#[trigger] h[u]).len() == n,
        forall|u: int, v: int| 0 <= u < n && 0 <= v < n ==> #[trigger] h[u][v] + h[v][u] == 0,
    ensures
        block(h, keep, k, k, true) == 0,
    decreases k,
{
    if k > 0 {
        let c = k - 1;
        lemma_inside_zero(h, keep, c, n);
        lemma_block_widen(h, keep, c, c, n);
        lemma_mirror(h, keep, c, c, n);
        let row = h[c];
        assert(row.take(k).drop_last() =~= row.take(c));
        assert(row.take(k).last() == row[c]);
        assert(h[c][c] + h[c][c] == 0);
    }
}

/// A walk with capacity left goes on over every edge with capacity left.
proof fn lemma_connected_step(m: Matrix, s: int, u: int, v: int)
    requires
        connected(m, s, u),
        0 <= u < m.len(),
        m[u][v] > 0,
    ensures
        connected(m, s, v),
{
    let k = choose|k: nat| linked(m, s, u, k);
    assert(linked(m, s, v, k + 1)) by {
        reveal_with_fuel(linked, 2);
    }
}

/// No flow is greater than one that leaves no walk with capacity from the
/// start to the end. Of the capacities `a`, the capacities `b` and `g` are
/// what two flows from `s` to `t` leave; with `b` no such walk is left. Then
/// the capacities that leave `s` have not gone down more with `g` than with
/// `b`.
pub proof fn lemma_flow_is_greatest(a: Matrix, b: Matrix, g: Matrix, s: int, t: int, max: int)
    requires
        square(a),
        square(b),
        square(g),
        0 <= s < a.len(),
        0 <= t < a.len(),
        capacities_ok(b, max),
        capacities_ok(g, max),
        same_pairs(a, b),
        same_pairs(a, g),
        conserved(a, b, s, t),
        conserved(a, g, s, t),
        !connected(b, s, t),
    ensures
        row_sum(a[s]) - row_sum(g[s]) <= row_sum(a[s]) - row_sum(b[s]),
{
    let n = a.len() as int;
    let h = Seq::new(n as nat, |u: int| Seq::new(n as nat, |v: int| g[u][v] - b[u][v]));
    let keep = |u: int| connected(b, s, u);
    assert(keep(s)) by {
        reveal(linked);
        assert(linked(b, s, s, 0));
    }
    assert forall|u: int, v: int| 0 <= u < n && 0 <= v < n implies #[trigger] h[u][v] + h[v][u]
        == 0 by {
        assert(b[u][v] + b[v][u] == a[u][v] + a[v][u]);
        assert(g[u][v] + g[v][u] == a[u][v] + a[v][u]);
    }
    assert forall|u: int, v: int| 0 <= u < n && 0 <= v < n && keep(u) && !keep(v) implies 0
        <= #[trigger] h[u][v] by {
        if b[u][v] > 0 {
            lemma_connected_step(b, s, u, v);
        }
        assert(0 <= b[u][v]);
        assert(0 <= g[u][v]);
    }
    assert forall|u: int| 0 <= u < n implies #[trigger] row_sum(h[u]) == row_sum(g[u]) - row_sum(
        b[u],
    ) by {
        lemma_row_sum_diff(g[u], b[u], h[u]);
    }
    assert forall|u: int| 0 <= u < n && keep(u) && u != s implies #[trigger] row_sum(h[u])
        == 0 by {
        reveal(conserved);
        assert(u != t);
        assert(row_sum(b[u]) == row_sum(a[u]));
        assert(row_sum(g[u]) == row_sum(a[u]));
    }
    lemma_total_source(h, keep, n, n, s);
    lemma_total_split(h, keep, n, n);
    lemma_inside_zero(h, keep, n, n);
    lemma_outside_nonneg(h, keep, n, n);
    assert(row_sum(h[s]) == row_sum(g[s]) - row_sum(b[s]));
}

} // verus!
