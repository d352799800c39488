use crate::utils::integer::Integer;
use vstd::prelude::*;

verus! {

/// One round of a transform over the bits `0..n`, for the `i`-th bit: every
/// position below `2^n` with that bit set takes in, with the sign `sign`, the
/// value at the position without it.
pub open spec fn round(g: Seq<int>, i: nat, n: nat, sign: int) -> Seq<int> {
    Seq::new(
        g.len(),
        |s: int|
            if s < (1usize << n) && (s as usize) & (1usize << i) != 0 {
                g[s] + sign * g[((s as usize) ^ (1usize << i)) as int]
            } else {
                g[s]
            },
    )
}

/// The first `k` rounds of a transform over the bits `0..n`, in this order.
pub open spec fn rounds(f: Seq<int>, k: nat, n: nat, sign: int) -> Seq<int>
    decreases k,
{
    if k == 0 {
        f
    } else {
        round(rounds(f, (k - 1) as nat, n, sign), (k - 1) as nat, n, sign)
    }
}

/// The set `s` has the element `i`.
pub open spec fn has_bit(s: usize, i: usize) -> bool {
    s & (1usize << i) != 0
}

/// The set `s` with the element `i` taken out, where it has it.
pub open spec fn without(s: usize, i: usize) -> usize {
    s ^ (1usize << i)
}

/// The sum of the values of `f` at the subsets of `s` that lack none of the
/// elements of `s` but such as lie in `lo..hi`.
pub open spec fn subset_sum(f: Seq<int>, s: usize, lo: usize, hi: usize) -> int
    decreases hi,
{
    if hi <= lo {
        f[s as int]
    } else if has_bit(s, (hi - 1) as usize) {
        subset_sum(f, s, lo, (hi - 1) as usize) + subset_sum(
            f,
            without(s, (hi - 1) as usize),
            lo,
            (hi - 1) as usize,
        )
    } else {
        subset_sum(f, s, lo, (hi - 1) as usize)
    }
}

/// A round changes no length, and no value at a position from `2^n` on.
pub proof fn lemma_rounds_frame(f: Seq<int>, k: nat, n: nat, sign: int)
    ensures
        rounds(f, k, n, sign).len() == f.len(),
        forall|s: int|
            (1usize << n) <= s < f.len() ==> (#[trigger] rounds(f, k, n, sign)[s]) == f[s],
    decreases k,
{
    if k > 0 {
        lemma_rounds_frame(f, (k - 1) as nat, n, sign);
    }
}

/// Taking the element `i` out of a set below `2^n` gives a set below `2^n`
/// that lacks `i` and has, of the other elements, what the set had.
pub proof fn lemma_without(s: usize, i: usize, j: usize, n: usize)
    requires
        i < n < usize::BITS,
        j < usize::BITS,
        s < (1usize << n),
        has_bit(s, i),
    ensures
        without(s, i) < (1usize << n),
        !has_bit(without(s, i), i),
        j != i ==> has_bit(without(s, i), j) == has_bit(s, j),
        j != i && has_bit(s, j) ==> without(without(s, i), j) == without(without(s, j), i),
{
    assert((s ^ (1usize << i)) < (1usize << n)) by (bit_vector)
        requires
            i < n < usize::BITS,
            s < (1usize << n),
            s & (1usize << i) != 0,
    ;
    assert((s ^ (1usize << i)) & (1usize << i) == 0) by (bit_vector)
        requires
            i < usize::BITS,
            s & (1usize << i) != 0,
    ;
    if j != i {
        assert(((s ^ (1usize << i)) & (1usize << j) != 0) == (s & (1usize << j) != 0))
            by (bit_vector)
            requires
                i < usize::BITS,
                j < usize::BITS,
                j != i,
        ;
        assert((s ^ (1usize << i)) ^ (1usize << j) == (s ^ (1usize << j)) ^ (1usize << i))
            by (bit_vector);
    }
}

/// After the first `k` rounds that add, the value at a set is the sum of the
/// values at its subsets that lack only elements below `k`.
pub proof fn lemma_zeta_rounds(f: Seq<int>, k: usize, n: usize, s: usize)
    requires
        k <= n < usize::BITS,
        (1usize << n) <= f.len(),
        s < (1usize << n),
    ensures
        rounds(f, k as nat, n as nat, 1)[s as int] == subset_sum(f, s, 0, k),
    decreases k,
{
    if k > 0 {
        let i = (k - 1) as usize;
        lemma_rounds_frame(f, i as nat, n as nat, 1);
        lemma_zeta_rounds(f, i, n, s);
        if has_bit(s, i) {
            lemma_without(s, i, i, n);
            lemma_zeta_rounds(f, i, n, without(s, i));
        }
    }
}

/// The sum over the subsets that lack only elements of `lo..hi` splits by
/// the element `lo`.
pub proof fn lemma_subset_sum_low(f: Seq<int>, s: usize, lo: usize, hi: usize, n: usize)
    requires
        lo < hi <= n < usize::BITS,
        s < (1usize << n),
    ensures
        subset_sum(f, s, lo, hi) == if has_bit(s, lo) {
            subset_sum(f, s, (lo + 1) as usize, hi) + subset_sum(
                f,
                without(s, lo),
                (lo + 1) as usize,
                hi,
            )
        } else {
            subset_sum(f, s, (lo + 1) as usize, hi)
        },
    decreases hi,
{
    let j = (hi - 1) as usize;
    let up = (lo + 1) as usize;
    if j == lo {
        assert(subset_sum(f, s, lo, lo) == f[s as int]);
        assert(subset_sum(f, s, up, hi) == f[s as int]);
        if has_bit(s, lo) {
            assert(subset_sum(f, without(s, lo), lo, lo) == f[without(s, lo) as int]);
            assert(subset_sum(f, without(s, lo), up, hi) == f[without(s, lo) as int]);
        }
    } else {
        lemma_subset_sum_low(f, s, lo, j, n);
        if has_bit(s, j) {
            lemma_without(s, j, lo, n);
            lemma_subset_sum_low(f, without(s, j), lo, j, n);
            if has_bit(s, lo) {
                lemma_without(s, lo, j, n);
            }
        } else if has_bit(s, lo) {
            lemma_without(s, lo, j, n);
        }
    }
}

/// After the first `k` rounds that subtract, made on what all the rounds that
/// add have given, the value at a set is the sum of the values at its subsets
/// that lack only elements from `k` on.
pub proof fn lemma_mobius_rounds(f: Seq<int>, k: usize, n: usize, s: usize)
    requires
        k <= n < usize::BITS,
        (1usize << n) <= f.len(),
        s < (1usize << n),
    ensures
        rounds(rounds(f, n as nat, n as nat, 1), k as nat, n as nat, -1)[s as int] == subset_sum(
            f,
            s,
            k,
            n,
        ),
    decreases k,
{
    let z = rounds(f, n as nat, n as nat, 1);
    lemma_rounds_frame(f, n as nat, n as nat, 1);
    if k == 0 {
        lemma_zeta_rounds(f, n, n, s);
    } else {
        let i = (k - 1) as usize;
        lemma_rounds_frame(z, i as nat, n as nat, -1);
        lemma_mobius_rounds(f, i, n, s);
        lemma_subset_sum_low(f, s, i, n, n);
        if has_bit(s, i) {
            lemma_without(s, i, i, n);
            lemma_mobius_rounds(f, i, n, without(s, i));
            lemma_subset_sum_low(f, without(s, i), i, n, n);
        }
    }
}

/// The rounds that subtract undo the rounds that add.
pub proof fn lemma_mobius_undoes_zeta(f: Seq<int>, n: usize)
    requires
        n < usize::BITS,
        (1usize << n) <= f.len(),
    ensures
        rounds(rounds(f, n as nat, n as nat, 1), n as nat, n as nat, -1) == f,
{
    let z = rounds(f, n as nat, n as nat, 1);
    let back = rounds(z, n as nat, n as nat, -1);
    lemma_rounds_frame(f, n as nat, n as nat, 1);
    lemma_rounds_frame(z, n as nat, n as nat, -1);
    assert forall|s: int| 0 <= s < f.len() implies back[s] == f[s] by {
        if s < (1usize << n) {
            lemma_mobius_rounds(f, n, n, s as usize);
        }
    }
    assert(back =~= f);
}

/// The integers that the values of `v` stand for.
pub open spec fn ints<T: Integer>(v: Seq<T>) -> Seq<int> {
    v.map_values(|x: T| x.as_int())
}

/// Every value of every round up to `n` is within the bounds of `T`.
pub open spec fn rounds_fit<T: Integer>(f: Seq<int>, n: nat, sign: int) -> bool {
    forall|i: nat, s: int|
        i <= n && 0 <= s < f.len() ==> T::min_int() <= (#[trigger] rounds(f, i, n, sign)[s])
            <= T::max_int()
}

/// The rounds of a transform over the bits `0..n`: those that subtract where
/// `minus` holds, those that add where it does not.
fn transform<T: Integer>(f: &[T], n: usize, minus: bool) -> (g: Vec<T>)
    requires
        n < usize::BITS,
        (1usize << n) <= f@.len(),
        rounds_fit::<T>(ints(f@), n as nat, if minus { -1int } else { 1int }),
    ensures
        ints(g@) == rounds(ints(f@), n as nat, n as nat, if minus { -1int } else { 1int }),
{
    let ghost sign = if minus { -1int } else { 1int };
    let ghost f0 = ints(f@);
    let mut g: Vec<T> = Vec::new();
    let mut k: usize = 0;
    while k < f.len()
        invariant
            k <= f@.len(),
            g@ == f@.subrange(0, k as int),
        decreases f@.len() - k,
    {
        g.push(f[k]);
        proof {
            assert(g@ =~= f@.subrange(0, k + 1));
        }
        k += 1;
    }
    proof {
        assert(g@ =~= f@);
    }
    let size: usize = 1usize << n;
    let mut i: usize = 0;
    while i < n
        invariant
            i <= n < usize::BITS,
            size == 1usize << n,
            size <= f@.len(),
            g@.len() == f@.len(),
            f0 == ints(f@),
            sign == if minus { -1int } else { 1int },
            rounds_fit::<T>(f0, n as nat, sign),
            ints(g@) == rounds(f0, i as nat, n as nat, sign),
        decreases n - i,
    {
        let ghost before = ints(g@);
        let bit: usize = 1usize << i;
        let mut s: usize = 0;
        while s < size
            invariant
                s <= size <= f@.len(),
                i < n < usize::BITS,
                size == 1usize << n,
                bit == 1usize << i,
                g@.len() == f@.len(),
                before.len() == f@.len(),
                f0.len() == f@.len(),
                sign == if minus { -1int } else { 1int },
                rounds_fit::<T>(f0, n as nat, sign),
                before == rounds(f0, i as nat, n as nat, sign),
                forall|t: int| 0 <= t < s ==> ints(g@)[t] == round(before, i as nat, n as nat, sign)[t],
                forall|t: int| s <= t < g@.len() ==> ints(g@)[t] == before[t],
            decreases size - s,
        {
            if s & bit != 0 {
                let other = s ^ bit;
                proof {
                    assert(other < s) by (bit_vector)
                        requires
                            s & bit != 0,
                            other == s ^ bit,
                            bit == 1usize << i,
                            i < usize::BITS,
                    ;
                    assert(other & bit == 0) by (bit_vector)
                        requires
                            s & bit != 0,
                            other == s ^ bit,
                            bit == 1usize << i,
                            i < usize::BITS,
                    ;
                    assert(round(before, i as nat, n as nat, sign)[other as int] == before[other as int]);
                    assert(ints(g@)[other as int] == before[other as int]);
                    assert(rounds(f0, (i + 1) as nat, n as nat, sign)[s as int] == round(before, i as nat, n as nat, sign)[s as int]);
                    assert(ints(g@)[s as int] == g@[s as int].as_int());
                    assert(ints(g@)[other as int] == g@[other as int].as_int());
                }
                let ghost prev = ints(g@);
                if minus {
                    g[s] = g[s].minus(g[other]);
                } else {
                    g[s] = g[s].plus(g[other]);
                }
                proof {
                    assert forall|t: int| 0 <= t < s + 1 implies ints(g@)[t] == round(before, i as nat, n as nat, sign)[t] by {
                        if t < s {
                            assert(ints(g@)[t] == prev[t]);
                        }
                    }
                    assert forall|t: int| s + 1 <= t < g@.len() implies ints(g@)[t]
                        == before[t] by {
                        assert(ints(g@)[t] == prev[t]);
                    }
                }
            }
            s += 1;
        }
        proof {
            let after = round(before, i as nat, n as nat, sign);
            assert forall|t: int| 0 <= t < after.len() implies ints(g@)[t] == after[t] by {}
            assert(ints(g@) =~= rounds(f0, (i + 1) as nat, n as nat, sign));
        }
        i += 1;
    }
    g
}

/// The zeta transform over subsets: rounds that add, over the bits `0..n`. The
/// value at a set `s` becomes the sum of the values at the subsets of `s`.
pub fn zeta_transform<T: Integer>(f: &[T], n: usize) -> (g: Vec<T>)
    requires
        n < usize::BITS,
        (1usize << n) <= f@.len(),
        rounds_fit::<T>(ints(f@), n as nat, 1),
    ensures
        ints(g@) == rounds(ints(f@), n as nat, n as nat, 1),
        g@.len() == f@.len(),
        forall|s: usize|
            s < (1usize << n) ==> (#[trigger] g@[s as int]).as_int() == subset_sum(
                ints(f@),
                s,
                0,
                n,
            ),
        forall|s: int| (1usize << n) <= s < f@.len() ==> (#[trigger] g@[s]).as_int() == f@[s].as_int(),
{
    let g = transform(f, n, false);
    proof {
        lemma_rounds_frame(ints(f@), n as nat, n as nat, 1);
        assert(ints(g@).len() == g@.len());
        assert forall|s: usize| s < (1usize << n) implies (#[trigger] g@[s as int]).as_int()
            == subset_sum(ints(f@), s, 0, n) by {
            lemma_zeta_rounds(ints(f@), n, n, s);
            assert(ints(g@)[s as int] == g@[s as int].as_int());
        }
        assert forall|s: int| (1usize << n) <= s < f@.len() implies (#[trigger] g@[s]).as_int()
            == f@[s].as_int() by {
            assert(ints(g@)[s] == g@[s].as_int());
            assert(ints(f@)[s] == f@[s].as_int());
        }
    }
    g
}

/// The Moebius transform over subsets, which undoes the zeta transform: rounds
/// that subtract, over the bits `0..n`.
pub fn mobius_transform<T: Integer>(g: &[T], n: usize) -> (f: Vec<T>)
    requires
        n < usize::BITS,
        (1usize << n) <= g@.len(),
        rounds_fit::<T>(ints(g@), n as nat, -1),
    ensures
        ints(f@) == rounds(ints(g@), n as nat, n as nat, -1),
{
    transform(g, n, true)
}

} // verus!
