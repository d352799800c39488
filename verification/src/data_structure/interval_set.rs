use crate::utils::integer::Integer;
use crate::utils::versatility_functions::{lower_spec, unpack_range, upper_spec, Endpoint};
use vstd::prelude::*;
use vstd::set_lib::{lemma_int_range, lemma_set_disjoint_lens, set_int_range};
use vstd::std_specs::iter::IteratorSpec;

verus! {

/// The integers that lie in one of the half-open intervals `ivs`.
pub open spec fn points(ivs: Seq<(int, int)>) -> Set<int> {
    Set::new(|x: int| exists|i: int| 0 <= i < ivs.len() && (#[trigger] ivs[i]).0 <= x < ivs[i].1)
}

/// The integers from `l` up to, but without, `r`.
pub open spec fn span(l: int, r: int) -> Set<int> {
    Set::new(|x: int| l <= x < r)
}

/// The intervals are not empty, they stand in ascending order, and between
/// one and the next at least one integer is left out.
pub open spec fn canonical(ivs: Seq<(int, int)>) -> bool {
    &&& forall|i: int| 0 <= i < ivs.len() ==> (#[trigger] ivs[i]).0 < ivs[i].1
    &&& forall|i: int, j: int| 0 <= i < j < ivs.len() ==> (#[trigger] ivs[i]).1 < (#[trigger] ivs[j]).0
}

/// The sum of the lengths of the intervals.
pub open spec fn total(ivs: Seq<(int, int)>) -> int
    decreases ivs.len(),
{
    if ivs.len() == 0 {
        0
    } else {
        total(ivs.drop_last()) + ivs.last().1 - ivs.last().0
    }
}

/// The lengths of two sequences of intervals add up.
pub proof fn lemma_total_append(a: Seq<(int, int)>, b: Seq<(int, int)>)
    ensures
        total(a + b) == total(a) + total(b),
    decreases b.len(),
{
    if b.len() == 0 {
        assert(a + b =~= a);
    } else {
        lemma_total_append(a, b.drop_last());
        assert((a + b).drop_last() =~= a + b.drop_last());
    }
}

/// Intervals in canonical form are together no longer than the distance from
/// the start of the first to the end of the last.
pub proof fn lemma_total_within(ivs: Seq<(int, int)>)
    requires
        canonical(ivs),
        ivs.len() > 0,
    ensures
        0 < total(ivs) <= ivs.last().1 - ivs[0].0,
    decreases ivs.len(),
{
    if ivs.len() > 1 {
        let init = ivs.drop_last();
        assert(canonical(init)) by {
            assert forall|i: int| 0 <= i < init.len() implies (#[trigger] init[i]).0 < init[i].1 by {
                assert(init[i] == ivs[i]);
            }
            assert forall|i: int, j: int| 0 <= i < j < init.len() implies (#[trigger] init[i]).1 < (
            #[trigger] init[j]).0 by {
                assert(init[i] == ivs[i] && init[j] == ivs[j]);
            }
        }
        lemma_total_within(init);
        assert(init.last() == ivs[ivs.len() - 2]);
        assert(ivs[ivs.len() - 2].1 < ivs[ivs.len() - 1].0);
        assert(init[0] == ivs[0]);
    } else {
        assert(total(ivs.drop_last()) == 0);
    }
}

/// A part of a sequence of intervals in canonical form is in canonical form.
pub proof fn lemma_canonical_part(ivs: Seq<(int, int)>, from: int, to: int)
    requires
        canonical(ivs),
        0 <= from <= to <= ivs.len(),
    ensures
        canonical(ivs.subrange(from, to)),
        0 <= total(ivs.subrange(from, to)) <= total(ivs),
{
    let part = ivs.subrange(from, to);
    assert forall|i: int| 0 <= i < part.len() implies (#[trigger] part[i]).0 < part[i].1 by {
        assert(part[i] == ivs[from + i]);
    }
    assert forall|i: int, j: int| 0 <= i < j < part.len() implies (#[trigger] part[i]).1 < (
    #[trigger] part[j]).0 by {
        assert(part[i] == ivs[from + i] && part[j] == ivs[from + j]);
    }
    let a = ivs.subrange(0, from);
    let c = ivs.subrange(to, ivs.len() as int);
    assert(a + part + c =~= ivs);
    lemma_total_append(a + part, c);
    lemma_total_append(a, part);
    lemma_total_nonneg(a);
    lemma_total_nonneg(c);
    lemma_total_nonneg(part);
}

/// Without its last interval a sequence in canonical form is in canonical
/// form.
pub proof fn lemma_canonical_init(ivs: Seq<(int, int)>)
    requires
        canonical(ivs),
        ivs.len() > 0,
    ensures
        canonical(ivs.drop_last()),
{
    lemma_canonical_part(ivs, 0, ivs.len() - 1);
    assert(ivs.subrange(0, ivs.len() - 1) =~= ivs.drop_last());
}

/// The end of an interval of a sequence in canonical form is not among its
/// integers.
pub proof fn lemma_end_left_out(ivs: Seq<(int, int)>, j: int)
    requires
        canonical(ivs),
        0 <= j < ivs.len(),
    ensures
        !points(ivs).contains(ivs[j].1),
{
    let x = ivs[j].1;
    assert forall|i: int| 0 <= i < ivs.len() implies !((#[trigger] ivs[i]).0 <= x < ivs[i].1) by {
        if i < j {
            assert(ivs[i].1 < ivs[j].0);
        } else if i > j {
            assert(ivs[j].1 < ivs[i].0);
        }
    }
}

/// The integers of intervals in canonical form are as many as the intervals
/// are long together.
pub proof fn lemma_total_counts(ivs: Seq<(int, int)>)
    requires
        canonical(ivs),
    ensures
        points(ivs).finite(),
        points(ivs).len() == total(ivs),
    decreases ivs.len(),
{
    if ivs.len() == 0 {
        assert(points(ivs) =~= Set::<int>::empty());
    } else {
        let init = ivs.drop_last();
        let last = ivs.last();
        lemma_canonical_init(ivs);
        lemma_total_counts(init);
        lemma_int_range(last.0, last.1);
        let b = set_int_range(last.0, last.1);
        assert forall|x: int| points(ivs).contains(x) == (points(init).contains(x) || b.contains(
            x,
        )) by {
            if points(ivs).contains(x) {
                let i = choose|i: int| 0 <= i < ivs.len() && (#[trigger] ivs[i]).0 <= x < ivs[i].1;
                if i < init.len() {
                    assert(init[i] == ivs[i]);
                }
            }
            if points(init).contains(x) {
                let i = choose|i: int|
                    0 <= i < init.len() && (#[trigger] init[i]).0 <= x < init[i].1;
                assert(ivs[i] == init[i]);
            }
            if b.contains(x) {
                assert(ivs[ivs.len() - 1].0 <= x < ivs[ivs.len() - 1].1);
            }
        }
        assert(points(ivs) =~= points(init) + b);
        assert(points(init).disjoint(b)) by {
            assert forall|x: int| points(init).contains(x) implies !b.contains(x) by {
                let i = choose|i: int|
                    0 <= i < init.len() && (#[trigger] init[i]).0 <= x < init[i].1;
                assert(ivs[i] == init[i]);
                assert(ivs[i].1 < ivs[ivs.len() - 1].0);
            }
        }
        lemma_set_disjoint_lens(points(init), b);
    }
}

/// The last of the intervals `a` ends and starts where an interval of `b`
/// does that holds the same integers.
proof fn lemma_last_within(a: Seq<(int, int)>, b: Seq<(int, int)>)
    requires
        canonical(a),
        canonical(b),
        points(a) == points(b),
        a.len() > 0,
    ensures
        b.len() > 0,
        a.last().1 <= b.last().1,
        a.last().1 == b.last().1 ==> b.last().0 <= a.last().0,
{
    let la = a.last();
    assert(a[a.len() - 1].0 <= la.1 - 1 < a[a.len() - 1].1);
    assert(points(a).contains(la.1 - 1));
    let j = choose|j: int| 0 <= j < b.len() && (#[trigger] b[j]).0 <= la.1 - 1 < b[j].1;
    if j < b.len() - 1 {
        assert(b[j].1 < b[b.len() - 1].0);
    }
    if la.1 == b.last().1 {
        assert(a[a.len() - 1].0 <= la.0 < a[a.len() - 1].1);
        assert(points(a).contains(la.0));
        let k = choose|k: int| 0 <= k < b.len() && (#[trigger] b[k]).0 <= la.0 < b[k].1;
        if k < b.len() - 1 {
            // the end of that interval lies in the last interval of `a`
            assert(b[k].1 < b[b.len() - 1].0);
            lemma_end_left_out(b, k);
            assert(a[a.len() - 1].0 <= b[k].1 < a[a.len() - 1].1);
            assert(points(a).contains(b[k].1));
        }
    }
}

/// The integers of `a` without its last interval are among those of `b`
/// without its last, where the two hold the same integers and their last
/// intervals are the same.
proof fn lemma_init_within(a: Seq<(int, int)>, b: Seq<(int, int)>)
    requires
        canonical(a),
        canonical(b),
        points(a) == points(b),
        a.len() > 0,
        b.len() > 0,
        a.last() == b.last(),
    ensures
        points(a.drop_last()).subset_of(points(b.drop_last())),
{
    let ia = a.drop_last();
    let ib = b.drop_last();
    assert forall|x: int| points(ia).contains(x) implies points(ib).contains(x) by {
        let i = choose|i: int| 0 <= i < ia.len() && (#[trigger] ia[i]).0 <= x < ia[i].1;
        assert(a[i] == ia[i]);
        assert(a[i].1 < a[a.len() - 1].0);
        assert(points(a).contains(x));
        let j = choose|j: int| 0 <= j < b.len() && (#[trigger] b[j]).0 <= x < b[j].1;
        assert(j < b.len() - 1);
        assert(ib[j] == b[j]);
    }
}

/// A set of integers has one sequence of intervals in canonical form.
pub proof fn lemma_canonical_unique(a: Seq<(int, int)>, b: Seq<(int, int)>)
    requires
        canonical(a),
        canonical(b),
        points(a) == points(b),
    ensures
        a == b,
    decreases a.len(),
{
    if a.len() == 0 {
        if b.len() > 0 {
            assert(b[0].0 <= b[0].0 < b[0].1);
            assert(points(b).contains(b[0].0));
            let i = choose|i: int| 0 <= i < a.len() && (#[trigger] a[i]).0 <= b[0].0 < a[i].1;
        }
        assert(a =~= b);
    } else {
        lemma_last_within(a, b);
        lemma_last_within(b, a);
        lemma_last_within(a, b);
        assert(a.last() == b.last());
        lemma_init_within(a, b);
        lemma_init_within(b, a);
        assert(points(a.drop_last()) =~= points(b.drop_last()));
        lemma_canonical_init(a);
        lemma_canonical_init(b);
        lemma_canonical_unique(a.drop_last(), b.drop_last());
        assert(a =~= a.drop_last().push(a.last()));
        assert(b =~= b.drop_last().push(b.last()));
    }
}

/// One interval that is not empty is in canonical form, holds the integers
/// from its start up to its end, and is as long as the two are apart.
pub proof fn lemma_single(l: int, r: int)
    requires
        l < r,
    ensures
        canonical(seq![(l, r)]),
        points(seq![(l, r)]) == span(l, r),
        total(seq![(l, r)]) == r - l,
{
    let one = seq![(l, r)];
    assert(one[0] == (l, r));
    assert forall|x: int| points(one).contains(x) == span(l, r).contains(x) by {
        if span(l, r).contains(x) {
            assert(one[0].0 <= x < one[0].1);
        }
    }
    assert(points(one) =~= span(l, r));
    assert(one.drop_last() =~= Seq::<(int, int)>::empty());
    assert(total(one.drop_last()) == 0);
}

/// One interval is as long as it is.
pub proof fn lemma_total_one(ivs: Seq<(int, int)>)
    requires
        ivs.len() == 1,
    ensures
        total(ivs) == ivs[0].1 - ivs[0].0,
{
    assert(total(ivs.drop_last()) == 0);
}

/// Intervals that are not empty have no negative length together.
pub proof fn lemma_total_nonneg(ivs: Seq<(int, int)>)
    requires
        forall|i: int| 0 <= i < ivs.len() ==> (#[trigger] ivs[i]).0 < ivs[i].1,
    ensures
        0 <= total(ivs),
    decreases ivs.len(),
{
    if ivs.len() > 0 {
        let init = ivs.drop_last();
        assert forall|i: int| 0 <= i < init.len() implies (#[trigger] init[i]).0 < init[i].1 by {
            assert(init[i] == ivs[i]);
        }
        lemma_total_nonneg(init);
    }
}

/// The intervals `ivs` with those from `first` up to `last`, which are the ones
/// that `l..r` meets or touches, replaced by the one interval `(s, e)` that
/// covers them and `l..r`.
pub open spec fn merged(ivs: Seq<(int, int)>, first: int, last: int, s: int, e: int) -> Seq<
    (int, int),
> {
    ivs.subrange(0, first).push((s, e)) + ivs.subrange(last, ivs.len() as int)
}

/// Replacing the intervals that `l..r` meets or touches by the interval that
/// covers them and `l..r` gives the canonical form of the union.
pub proof fn lemma_merged(ivs: Seq<(int, int)>, first: int, last: int, l: int, r: int, s: int, e: int)
    requires
        canonical(ivs),
        0 <= first <= last <= ivs.len(),
        l < r,
        forall|i: int| 0 <= i < first ==> (#[trigger] ivs[i]).1 < l,
        forall|i: int| first <= i < last ==> (#[trigger] ivs[i]).1 >= l && ivs[i].0 <= r,
        forall|i: int| last <= i < ivs.len() ==> (#[trigger] ivs[i]).0 > r,
        s == if first < last && ivs[first].0 < l {
            ivs[first].0
        } else {
            l
        },
        e == if first < last && ivs[last - 1].1 > r {
            ivs[last - 1].1
        } else {
            r
        },
    ensures
        canonical(merged(ivs, first, last, s, e)),
        points(merged(ivs, first, last, s, e)) == points(ivs).union(span(l, r)),
        total(merged(ivs, first, last, s, e)) == total(ivs) - total(ivs.subrange(first, last)) + (e
            - s),
        0 <= total(ivs.subrange(first, last)) <= e - s,
        e - s - total(ivs.subrange(first, last)) <= r - l,
{
    let new = merged(ivs, first, last, s, e);
    let a = ivs.subrange(0, first);
    let m = ivs.subrange(first, last);
    let c = ivs.subrange(last, ivs.len() as int);
    assert forall|i: int| 0 <= i < new.len() implies #[trigger] new[i] == (if i < first {
        ivs[i]
    } else if i == first {
        (s, e)
    } else {
        ivs[i - first - 1 + last]
    }) by {}
    assert(canonical(new)) by {
        assert forall|i: int| 0 <= i < new.len() implies (#[trigger] new[i]).0 < new[i].1 by {}
        assert forall|i: int, j: int| 0 <= i < j < new.len() implies (#[trigger] new[i]).1 < (
        #[trigger] new[j]).0 by {
            if i < first {
                assert(ivs[i].1 < l);
                if j > first {
                    assert(ivs[i].1 < ivs[j - first - 1 + last].0);
                } else if first < last {
                    assert(ivs[i].1 < ivs[first].0);
                }
            } else if i == first {
                assert(ivs[j - first - 1 + last].0 > r);
                if first < last {
                    assert(j - first - 1 + last > last - 1);
                    assert(ivs[last - 1].1 < ivs[j - first - 1 + last].0);
                }
            } else {
                assert(ivs[i - first - 1 + last].1 < ivs[j - first - 1 + last].0);
            }
        }
    }
    assert(points(new) =~= points(ivs).union(span(l, r))) by {
        assert forall|x: int| points(new).contains(x) implies points(ivs).union(
            span(l, r),
        ).contains(x) by {
            let i = choose|i: int| 0 <= i < new.len() && (#[trigger] new[i]).0 <= x < new[i].1;
            if i < first {
                assert(ivs[i].0 <= x < ivs[i].1);
            } else if i == first {
                if x < l {
                    assert(ivs[first].0 <= x < ivs[first].1);
                } else if x >= r {
                    assert(ivs[last - 1].0 <= x < ivs[last - 1].1);
                }
            } else {
                assert(ivs[i - first - 1 + last].0 <= x < ivs[i - first - 1 + last].1);
            }
        }
        assert forall|x: int| points(ivs).union(span(l, r)).contains(x) implies points(
            new,
        ).contains(x) by {
            if l <= x < r {
                assert(new[first].0 <= x < new[first].1);
            } else {
                let i = choose|i: int| 0 <= i < ivs.len() && (#[trigger] ivs[i]).0 <= x < ivs[i].1;
                if i < first {
                    assert(new[i].0 <= x < new[i].1);
                } else if i < last {
                    if first < i {
                        assert(ivs[first].1 < ivs[i].0);
                    }
                    if i < last - 1 {
                        assert(ivs[i].1 < ivs[last - 1].0);
                    }
                    assert(new[first].0 <= x < new[first].1);
                } else {
                    assert(new[i - last + first + 1].0 <= x < new[i - last + first + 1].1);
                }
            }
        }
    }
    assert(a + m + c =~= ivs);
    lemma_total_append(a + m, c);
    lemma_total_append(a, m);
    lemma_total_append(a.push((s, e)), c);
    assert(a.push((s, e)).drop_last() =~= a);
    lemma_canonical_part(ivs, first, last);
    if first < last {
        lemma_total_within(m);
        assert(m[0] == ivs[first]);
        assert(m.last() == ivs[last - 1]);
        if last - first >= 2 {
            let inner = m.subrange(1, m.len() - 1);
            let head = m.subrange(0, 1);
            let tail = m.subrange(m.len() - 1, m.len() as int);
            assert(head + inner + tail =~= m);
            lemma_total_append(head + inner, tail);
            lemma_total_append(head, inner);
            lemma_canonical_part(m, 1, m.len() - 1);
            lemma_total_one(head);
            lemma_total_one(tail);
        } else {
            lemma_total_one(m);
        }
    }
}

/// What is left of the interval `iv` before `l`: nothing, or one interval.
pub open spec fn left_rest(iv: (int, int), l: int) -> Seq<(int, int)> {
    if iv.0 < l {
        seq![(iv.0, l)]
    } else {
        Seq::empty()
    }
}

/// What is left of the interval `iv` from `r` on: nothing, or one interval.
pub open spec fn right_rest(iv: (int, int), r: int) -> Seq<(int, int)> {
    if r < iv.1 {
        seq![(r, iv.1)]
    } else {
        Seq::empty()
    }
}

/// The intervals `ivs` with those from `first` up to `last`, which are the ones
/// that `l..r` meets, replaced by what is left of them outside `l..r`.
pub open spec fn erased(ivs: Seq<(int, int)>, first: int, last: int, l: int, r: int) -> Seq<
    (int, int),
> {
    if first < last {
        ivs.subrange(0, first) + left_rest(ivs[first], l) + right_rest(ivs[last - 1], r)
            + ivs.subrange(last, ivs.len() as int)
    } else {
        ivs
    }
}

/// Replacing the intervals that `l..r` meets by what is left of them outside
/// `l..r` gives the canonical form of the difference.
pub proof fn lemma_erased(ivs: Seq<(int, int)>, first: int, last: int, l: int, r: int)
    requires
        canonical(ivs),
        0 <= first <= last <= ivs.len(),
        l < r,
        forall|i: int| 0 <= i < first ==> (#[trigger] ivs[i]).1 <= l,
        forall|i: int| first <= i < last ==> (#[trigger] ivs[i]).1 > l && ivs[i].0 < r,
        forall|i: int| last <= i < ivs.len() ==> (#[trigger] ivs[i]).0 >= r,
    ensures
        canonical(erased(ivs, first, last, l, r)),
        points(erased(ivs, first, last, l, r)) == points(ivs).difference(span(l, r)),
        first < last ==> total(erased(ivs, first, last, l, r)) == total(ivs) - total(
            ivs.subrange(first, last),
        ) + total(left_rest(ivs[first], l)) + total(right_rest(ivs[last - 1], r)),
{
    let new = erased(ivs, first, last, l, r);
    if first < last {
        let a = ivs.subrange(0, first);
        let m = ivs.subrange(first, last);
        let c = ivs.subrange(last, ivs.len() as int);
        let lr = left_rest(ivs[first], l);
        let rr = right_rest(ivs[last - 1], r);
        let nl = lr.len() as int;
        let nr = rr.len() as int;
        assert forall|i: int| 0 <= i < new.len() implies #[trigger] new[i] == (if i < first {
            ivs[i]
        } else if i < first + nl {
            (ivs[first].0, l)
        } else if i < first + nl + nr {
            (r, ivs[last - 1].1)
        } else {
            ivs[i - first - nl - nr + last]
        }) by {}
        assert(canonical(new)) by {
            assert forall|i: int| 0 <= i < new.len() implies (#[trigger] new[i]).0 < new[i].1 by {}
            assert forall|i: int, j: int| 0 <= i < j < new.len() implies (#[trigger] new[i]).1 < (
            #[trigger] new[j]).0 by {
                if i < first {
                    assert(ivs[i].1 <= l);
                    assert(ivs[i].1 < ivs[first].0);
                    if j >= first + nl + nr {
                        assert(ivs[i].1 < ivs[j - first - nl - nr + last].0);
                    }
                } else if j >= first + nl + nr {
                    let jj = j - first - nl - nr + last;
                    assert(ivs[jj].0 >= r);
                    if i >= first + nl + nr {
                        assert(ivs[i - first - nl - nr + last].1 < ivs[jj].0);
                    } else {
                        assert(ivs[last - 1].1 < ivs[jj].0);
                    }
                }
            }
        }
        assert(points(new) =~= points(ivs).difference(span(l, r))) by {
            assert forall|x: int| points(new).contains(x) implies points(ivs).difference(
                span(l, r),
            ).contains(x) by {
                let i = choose|i: int| 0 <= i < new.len() && (#[trigger] new[i]).0 <= x < new[i].1;
                if i < first {
                    assert(ivs[i].0 <= x < ivs[i].1);
                } else if i < first + nl {
                    assert(ivs[first].0 <= x < ivs[first].1);
                } else if i < first + nl + nr {
                    assert(ivs[last - 1].0 <= x < ivs[last - 1].1);
                } else {
                    let ii = i - first - nl - nr + last;
                    assert(ivs[ii].0 <= x < ivs[ii].1);
                }
            }
            assert forall|x: int| points(ivs).difference(span(l, r)).contains(x) implies points(
                new,
            ).contains(x) by {
                let i = choose|i: int| 0 <= i < ivs.len() && (#[trigger] ivs[i]).0 <= x < ivs[i].1;
                if i < first {
                    assert(new[i].0 <= x < new[i].1);
                } else if i < last {
                    if x < l {
                        if first < i {
                            assert(ivs[first].1 < ivs[i].0);
                        }
                        assert(new[first].0 <= x < new[first].1);
                    } else {
                        if i < last - 1 {
                            assert(ivs[i].1 < ivs[last - 1].0);
                        }
                        assert(new[first + nl].0 <= x < new[first + nl].1);
                    }
                } else {
                    let ii = i - last + first + nl + nr;
                    assert(new[ii].0 <= x < new[ii].1);
                }
            }
        }
        assert(a + m + c =~= ivs);
        lemma_total_append(a + m, c);
        lemma_total_append(a, m);
        lemma_total_append(a + lr + rr, c);
        lemma_total_append(a + lr, rr);
        lemma_total_append(a, lr);
    } else {
        assert(points(ivs) =~= points(ivs).difference(span(l, r))) by {
            assert forall|x: int| points(ivs).contains(x) implies !span(l, r).contains(x) by {
                let i = choose|i: int| 0 <= i < ivs.len() && (#[trigger] ivs[i]).0 <= x < ivs[i].1;
            }
        }
    }
}

/// A set of integers, kept as the half-open intervals that it is made of.
pub struct IntervalSet<T: Integer> {
    sum: T,
    set: Vec<(T, T)>,
}

impl<T: Integer> View for IntervalSet<T> {
    type V = Set<int>;

    /// The integers of the set.
    open spec fn view(&self) -> Set<int> {
        points(self.intervals())
    }
}

impl<T: Integer> IntervalSet<T> {
    /// The intervals of the set, in ascending order.
    pub closed spec fn intervals(&self) -> Seq<(int, int)> {
        self.set@.map_values(|p: (T, T)| (p.0.as_int(), p.1.as_int()))
    }

    /// The representation invariant: the intervals are in canonical form.
    pub closed spec fn wf(&self) -> bool {
        &&& canonical(self.intervals())
        &&& self.sum.as_int() == total(self.intervals())
    }

    /// The intervals of a set are in canonical form, so that they are the
    /// only ones for its integers, and their lengths sum to the number of its
    /// integers.
    pub proof fn lemma_canonical(&self)
        requires
            self.wf(),
        ensures
            canonical(self.intervals()),
            self@.finite(),
            self@.len() == total(self.intervals()),
            forall|ivs: Seq<(int, int)>|
                canonical(ivs) && #[trigger] points(ivs) == self@ ==> ivs == self.intervals(),
    {
        lemma_total_counts(self.intervals());
        assert forall|ivs: Seq<(int, int)>|
            canonical(ivs) && #[trigger] points(ivs) == self@ implies ivs == self.intervals() by {
            lemma_canonical_unique(ivs, self.intervals());
        }
    }

    /// The empty set.
    pub fn new() -> (s: Self)
        ensures
            s.wf(),
            s.intervals() == Seq::<(int, int)>::empty(),
            s@ == Set::<int>::empty(),
    {
        let s = Self { sum: T::zero(), set: Vec::new() };
        proof {
            assert(s.intervals() =~= Seq::<(int, int)>::empty());
            assert(s@ =~= Set::<int>::empty());
        }
        s
    }

    /// Adds the integers of `range`, and returns by how many the set has grown.
    /// A range without a start begins at the least value of the type, one
    /// without an end stops before the greatest.
    pub fn insert(&mut self, range: (Endpoint<T>, Endpoint<T>)) -> (plus: T)
        requires
            old(self).wf(),
            lower_spec(range.0, T::min_int()) <= upper_spec(range.1, T::max_int()) <= T::max_int(),
            total(old(self).intervals()) + upper_spec(range.1, T::max_int()) - lower_spec(
                range.0,
                T::min_int(),
            ) <= T::max_int(),
        ensures
            final(self).wf(),
            final(self)@ == old(self)@.union(
                span(lower_spec(range.0, T::min_int()), upper_spec(range.1, T::max_int())),
            ),
            plus.as_int() == total(final(self).intervals()) - total(old(self).intervals()),
            canonical(final(self).intervals()),
            plus.as_int() == final(self)@.len() - old(self)@.len(),
    {
        proof {
            old(self).lemma_canonical();
        }
        let (l, r) = unpack_range(range, T::min_value(), T::max_value());
        let ghost ivs = self.intervals();
        let ghost li = l.as_int();
        let ghost ri = r.as_int();
        proof {
            T::lemma_bounds();
        }
        if !l.less(r) {
            proof {
                assert(span(li, ri) =~= Set::<int>::empty());
                assert(self@.union(span(li, ri)) =~= self@);
            }
            proof {
                self.lemma_canonical();
            }
            return T::zero();
        }
        let n = self.set.len();
        let mut first: usize = 0;
        while first < n && self.set[first].1.less(l)
            invariant
                first <= n,
                n == self.set@.len(),
                ivs == self.intervals(),
                li == l.as_int(),
                forall|i: int| 0 <= i < first ==> (#[trigger] ivs[i]).1 < li,
            decreases n - first,
        {
            first += 1;
        }
        let mut start_l = l;
        let mut max_r = r;
        let mut sub = T::zero();
        let mut last: usize = first;
        while last < n && !r.less(self.set[last].0)
            invariant
                first <= last <= n,
                n == self.set@.len(),
                ivs == self.intervals(),
                canonical(ivs),
                total(ivs) <= T::max_int(),
                li == l.as_int(),
                ri == r.as_int(),
                li < ri,
                forall|i: int| 0 <= i < first ==> (#[trigger] ivs[i]).1 < li,
                first < n ==> ivs[first as int].1 >= li,
                forall|i: int| first <= i < last ==> (#[trigger] ivs[i]).1 >= li && ivs[i].0 <= ri,
                sub.as_int() == total(ivs.subrange(first as int, last as int)),
                start_l.as_int() == if first < last && ivs[first as int].0 < li {
                    ivs[first as int].0
                } else {
                    li
                },
                max_r.as_int() == if first < last && ivs[last - 1].1 > ri {
                    ivs[last - 1].1
                } else {
                    ri
                },
            decreases n - last,
        {
            let inv = self.set[last];
            proof {
                assert(ivs[last as int] == (inv.0.as_int(), inv.1.as_int()));
                if first < last {
                    assert(ivs[first as int].1 < ivs[last as int].0);
                    assert(ivs[last - 1].1 < ivs[last as int].0 || last - 1 == last);
                }
                assert(ivs.subrange(first as int, last + 1).drop_last() =~= ivs.subrange(
                    first as int,
                    last as int,
                ));
                lemma_canonical_part(ivs, first as int, last + 1);
                lemma_canonical_part(ivs, first as int, last as int);
                T::lemma_bounds();
                inv.0.lemma_range();
                inv.1.lemma_range();
            }
            if inv.0.less(start_l) {
                start_l = inv.0;
            }
            sub = sub.plus(inv.1.minus(inv.0));
            if max_r.less(inv.1) {
                max_r = inv.1;
            }
            last += 1;
        }
        proof {
            assert forall|i: int| last <= i < ivs.len() implies (#[trigger] ivs[i]).0 > ri by {
                if i > last {
                    assert(ivs[last as int].1 < ivs[i].0);
                    assert(ivs[last as int].0 < ivs[last as int].1);
                }
            }
            lemma_merged(
                ivs,
                first as int,
                last as int,
                li,
                ri,
                start_l.as_int(),
                max_r.as_int(),
            );
            start_l.lemma_range();
            max_r.lemma_range();
            lemma_canonical_part(ivs, first as int, last as int);
        }
        let plus = max_r.minus(start_l).minus(sub);
        self.sum = self.sum.plus(plus);
        let mut new_set: Vec<(T, T)> = Vec::new();
        let mut i: usize = 0;
        while i < first
            invariant
                i <= first <= last <= n,
                n == self.set@.len(),
                new_set@ == self.set@.subrange(0, i as int),
            decreases first - i,
        {
            new_set.push(self.set[i]);
            proof {
                assert(new_set@ =~= self.set@.subrange(0, i + 1));
            }
            i += 1;
        }
        new_set.push((start_l, max_r));
        let mut i: usize = last;
        while i < n
            invariant
                first <= last <= i <= n,
                n == self.set@.len(),
                new_set@ == self.set@.subrange(0, first as int).push((start_l, max_r))
                    + self.set@.subrange(last as int, i as int),
            decreases n - i,
        {
            new_set.push(self.set[i]);
            proof {
                assert(new_set@ =~= self.set@.subrange(0, first as int).push((start_l, max_r))
                    + self.set@.subrange(last as int, i + 1));
            }
            i += 1;
        }
        self.set = new_set;
        proof {
            assert(self.intervals() =~= merged(
                ivs,
                first as int,
                last as int,
                start_l.as_int(),
                max_r.as_int(),
            ));
        }
        proof {
            self.lemma_canonical();
        }
        plus
    }

    /// Takes the integers of `range` out, and returns by how many the set has
    /// shrunk. A range without a start begins at the least value of the type,
    /// one without an end stops before the greatest.
    pub fn erase(&mut self, range: (Endpoint<T>, Endpoint<T>)) -> (sub: T)
        requires
            old(self).wf(),
            lower_spec(range.0, T::min_int()) <= upper_spec(range.1, T::max_int()) <= T::max_int(),
        ensures
            final(self).wf(),
            final(self)@ == old(self)@.difference(
                span(lower_spec(range.0, T::min_int()), upper_spec(range.1, T::max_int())),
            ),
            sub.as_int() == total(old(self).intervals()) - total(final(self).intervals()),
            canonical(final(self).intervals()),
            sub.as_int() == old(self)@.len() - final(self)@.len(),
    {
        proof {
            old(self).lemma_canonical();
        }
        let (l, r) = unpack_range(range, T::min_value(), T::max_value());
        let ghost ivs = self.intervals();
        let ghost li = l.as_int();
        let ghost ri = r.as_int();
        proof {
            T::lemma_bounds();
            self.sum.lemma_range();
        }
        if !l.less(r) {
            proof {
                assert(span(li, ri) =~= Set::<int>::empty());
                assert(self@.difference(span(li, ri)) =~= self@);
            }
            proof {
                self.lemma_canonical();
            }
            return T::zero();
        }
        let n = self.set.len();
        let mut new_set: Vec<(T, T)> = Vec::new();
        let mut first: usize = 0;
        while first < n && !l.less(self.set[first].1)
            invariant
                first <= n,
                n == self.set@.len(),
                ivs == self.intervals(),
                li == l.as_int(),
                new_set@ == self.set@.subrange(0, first as int),
                forall|i: int| 0 <= i < first ==> (#[trigger] ivs[i]).1 <= li,
            decreases n - first,
        {
            new_set.push(self.set[first]);
            proof {
                assert(new_set@ =~= self.set@.subrange(0, first + 1));
            }
            first += 1;
        }
        let mut sub = T::zero();
        let mut last: usize = first;
        while last < n && self.set[last].0.less(r)
            invariant
                first <= last <= n,
                n == self.set@.len(),
                ivs == self.intervals(),
                canonical(ivs),
                total(ivs) <= T::max_int(),
                T::min_int() <= 0,
                li == l.as_int(),
                ri == r.as_int(),
                li < ri,
                forall|i: int| 0 <= i < first ==> (#[trigger] ivs[i]).1 <= li,
                first < n ==> ivs[first as int].1 > li,
                forall|i: int| first <= i < last ==> (#[trigger] ivs[i]).1 > li && ivs[i].0 < ri,
                first < last ==> sub.as_int() == total(ivs.subrange(first as int, last as int))
                    - total(left_rest(ivs[first as int], li)) - total(right_rest(ivs[last - 1], ri)),
                first == last ==> sub.as_int() == 0,
                0 <= sub.as_int() <= total(ivs.subrange(first as int, last as int)),
                new_set@.map_values(|p: (T, T)| (p.0.as_int(), p.1.as_int())) == if first < last {
                    ivs.subrange(0, first as int) + left_rest(ivs[first as int], li) + right_rest(
                        ivs[last - 1],
                        ri,
                    )
                } else {
                    ivs.subrange(0, first as int)
                },
            decreases n - last,
        {
            let inv = self.set[last];
            let ghost prev = new_set@.map_values(|p: (T, T)| (p.0.as_int(), p.1.as_int()));
            proof {
                assert(ivs[last as int] == (inv.0.as_int(), inv.1.as_int()));
                if first < last {
                    assert(ivs[first as int].1 < ivs[last as int].0);
                    assert(ivs[last - 1].1 < ivs[last as int].0);
                    assert(right_rest(ivs[last - 1], ri) =~= Seq::<(int, int)>::empty());
                }
                assert(ivs.subrange(first as int, last + 1).drop_last() =~= ivs.subrange(
                    first as int,
                    last as int,
                ));
                lemma_canonical_part(ivs, first as int, last + 1);
                lemma_canonical_part(ivs, first as int, last as int);
                inv.0.lemma_range();
                inv.1.lemma_range();
                if inv.0.as_int() < li {
                    lemma_total_one(left_rest(ivs[last as int], li));
                }
                if ri < inv.1.as_int() {
                    lemma_total_one(right_rest(ivs[last as int], ri));
                }
            }
            let from = if inv.0.less(l) {
                new_set.push((inv.0, l));
                l
            } else {
                inv.0
            };
            let to = if r.less(inv.1) {
                new_set.push((r, inv.1));
                r
            } else {
                inv.1
            };
            sub = sub.plus(to.minus(from));
            proof {
                let now = new_set@.map_values(|p: (T, T)| (p.0.as_int(), p.1.as_int()));
                let lr = left_rest(ivs[last as int], li);
                let rr = right_rest(ivs[last as int], ri);
                if first == last {
                    assert(now =~= ivs.subrange(0, first as int) + lr + rr);
                } else {
                    assert(left_rest(ivs[last as int], li) =~= Seq::<(int, int)>::empty());
                    assert(now =~= ivs.subrange(0, first as int) + left_rest(
                        ivs[first as int],
                        li,
                    ) + rr);
                }
            }
            last += 1;
        }
        proof {
            assert forall|i: int| last <= i < ivs.len() implies (#[trigger] ivs[i]).0 >= ri by {
                if i > last {
                    assert(ivs[last as int].1 < ivs[i].0);
                    assert(ivs[last as int].0 < ivs[last as int].1);
                }
            }
            lemma_erased(ivs, first as int, last as int, li, ri);
            lemma_canonical_part(ivs, first as int, last as int);
        }
        let mut i: usize = last;
        let ghost kept = new_set@;
        while i < n
            invariant
                last <= i <= n,
                n == self.set@.len(),
                new_set@ == kept + self.set@.subrange(last as int, i as int),
            decreases n - i,
        {
            new_set.push(self.set[i]);
            proof {
                assert(new_set@ =~= kept + self.set@.subrange(last as int, i + 1));
            }
            i += 1;
        }
        self.sum = self.sum.minus(sub);
        self.set = new_set;
        proof {
            let tail = old(self).set@.subrange(last as int, n as int);
            let head = kept.map_values(|p: (T, T)| (p.0.as_int(), p.1.as_int()));
            assert(tail.map_values(|p: (T, T)| (p.0.as_int(), p.1.as_int())) =~= ivs.subrange(
                last as int,
                n as int,
            ));
            assert(self.intervals() =~= head + ivs.subrange(last as int, n as int));
            if first == last {
                assert(head + ivs.subrange(last as int, n as int) =~= ivs);
            }
            assert(self.intervals() =~= erased(ivs, first as int, last as int, li, ri));
        }
        proof {
            self.lemma_canonical();
        }
        sub
    }

    /// Whether `x` is in the set.
    pub fn contains(&self, x: T) -> (r: bool)
        requires
            self.wf(),
        ensures
            r == self@.contains(x.as_int()),
    {
        let n = self.set.len();
        let ghost ivs = self.intervals();
        let mut i: usize = 0;
        while i < n
            invariant
                i <= n,
                n == self.set@.len(),
                ivs == self.intervals(),
                canonical(ivs),
                forall|j: int| 0 <= j < i ==> !((#[trigger] ivs[j]).0 <= x.as_int() < ivs[j].1),
            decreases n - i,
        {
            let inv = self.set[i];
            proof {
                assert(ivs[i as int] == (inv.0.as_int(), inv.1.as_int()));
            }
            if x.less(inv.0) {
                proof {
                    assert forall|j: int| 0 <= j < ivs.len() implies !((#[trigger] ivs[j]).0
                        <= x.as_int() < ivs[j].1) by {
                        if j > i {
                            assert(ivs[i as int].1 < ivs[j].0);
                        }
                    }
                }
                return false;
            }
            if x.less(inv.1) {
                return true;
            }
            i += 1;
        }
        false
    }

    /// The number of integers in the set.
    pub fn covered_length(&self) -> (r: T)
        requires
            self.wf(),
        ensures
            r.as_int() == total(self.intervals()),
            r.as_int() == self@.len(),
    {
        proof {
            self.lemma_canonical();
        }
        self.sum
    }

    /// The intervals of the set as `(start, end)`, in ascending order.
    pub fn iter(&self) -> (r: std::slice::Iter<'_, (T, T)>)
        ensures
            r.obeys_prophetic_iter_laws(),
            r.decrease() is Some,
            r.remaining().map_values(|p: &(T, T)| (p.0.as_int(), p.1.as_int()))
                == self.intervals(),
    {
        let r = self.set.as_slice().iter();
        proof {
            assert(r.remaining().map_values(|p: &(T, T)| (p.0.as_int(), p.1.as_int()))
                =~= self.intervals());
        }
        r
    }
}

} // verus!
