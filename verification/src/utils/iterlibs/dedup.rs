use crate::utils::iterlibs::collect::CollectIter;
use vstd::prelude::*;
use vstd::std_specs::cmp::PartialEqSpec;
use vstd::std_specs::iter::IteratorSpec;

verus! {

/// The runs of `s`: each stretch of items that are equal to the first of the
/// stretch, as its length and that first item.
pub open spec fn rle_spec<T: PartialEq>(s: Seq<T>) -> Seq<(usize, T)>
    decreases s.len(),
{
    if s.len() == 0 {
        Seq::empty()
    } else {
        let before = rle_spec(s.drop_last());
        if before.len() > 0 && before.last().1.eq_spec(&s.last()) {
            before.drop_last().push(((before.last().0 + 1) as usize, before.last().1))
        } else {
            before.push((1usize, s.last()))
        }
    }
}

/// The first items of the runs of `s`.
pub open spec fn dedup_spec<T: PartialEq>(s: Seq<T>) -> Seq<T> {
    rle_spec(s).map_values(|run: (usize, T)| run.1)
}

/// No run is longer than the sequence.
pub proof fn lemma_rle_bound<T: PartialEq>(s: Seq<T>)
    requires
        s.len() <= usize::MAX,
    ensures
        rle_spec(s).len() <= s.len(),
        forall|i: int| 0 <= i < rle_spec(s).len() ==> 1 <= (#[trigger] rle_spec(s)[i]).0 <= s.len(),
    decreases s.len(),
{
    if s.len() > 0 {
        lemma_rle_bound(s.drop_last());
        let before = rle_spec(s.drop_last());
        if before.len() > 0 && before.last().1.eq_spec(&s.last()) {
            assert(before.last().0 + 1 <= s.len());
            let got = rle_spec(s);
            assert forall|i: int| 0 <= i < got.len() implies 1 <= (#[trigger] got[i]).0
                <= s.len() by {
                if i < got.len() - 1 {
                    assert(got[i] == before[i]);
                }
            }
        }
    }
}

/// The items of `v` in the opposite order.
fn reversed<T>(v: Vec<T>) -> (r: Vec<T>)
    ensures
        r@ == v@.reverse(),
{
    let mut v = v;
    let ghost all = v@;
    let mut r: Vec<T> = Vec::new();
    loop
        invariant
            v@.len() <= all.len(),
            v@ == all.subrange(0, v@.len() as int),
            r@ == all.subrange(v@.len() as int, all.len() as int).reverse(),
        ensures
            r@ == all.reverse(),
        decreases v@.len(),
    {
        let ghost k = v@.len() as int;
        match v.pop() {
            Some(item) => {
                r.push(item);
                proof {
                    assert(v@ =~= all.subrange(0, k - 1));
                    assert(r@ =~= all.subrange(k - 1, all.len() as int).reverse());
                }
            },
            None => {
                proof {
                    assert(all.subrange(0, all.len() as int) =~= all);
                }
                break ;
            },
        }
    }
    r
}

/// The runs of what an iterator yields. The runs that are still to come are
/// held in the opposite order, so that the next one is the last.
pub struct Rle<I: Iterator> {
    rest: Vec<(usize, I::Item)>,
}

impl<I: Iterator> Rle<I> {
    /// The runs that are still to come.
    pub closed spec fn runs(&self) -> Seq<(usize, I::Item)> {
        self.rest@.reverse()
    }

    /// The next run, as its length and its first item.
    pub fn next(&mut self) -> (r: Option<(usize, I::Item)>)
        ensures
            old(self).runs().len() == 0 ==> r is None && final(self).runs() == old(self).runs(),
            old(self).runs().len() > 0 ==> r == Some(old(self).runs()[0]) && final(self).runs()
                == old(self).runs().drop_first(),
    {
        let r = self.rest.pop();
        proof {
            if old(self).rest@.len() > 0 {
                assert(self.rest@.reverse() =~= old(self).rest@.reverse().drop_first());
            }
        }
        r
    }

    /// The runs that are still to come.
    pub fn collect_vec(self) -> (res: Vec<(usize, I::Item)>)
        ensures
            res@ == self.runs(),
    {
        reversed(self.rest)
    }
}

/// Run-length encoding of what an iterator yields.
pub trait RleItertor: Iterator + Sized {
    /// The runs of the items that the iterator yields.
    fn rle(self) -> (r: Rle<Self>) where Self::Item: PartialEq
        requires
            self.obeys_prophetic_iter_laws(),
            self.decrease() is Some,
        ensures
            <Self::Item>::obeys_eq_spec() ==> r.runs()
                == rle_spec(self.remaining()),
    ;
}

impl<I: Iterator> RleItertor for I {
    fn rle(self) -> (r: Rle<Self>) where Self::Item: PartialEq {
        let ghost all = self.remaining();
        let items = self.collect_vec();
        proof {
            assert(items.len() == all.len());
        }
        let mut back = reversed(items);
        let mut runs: Vec<(usize, I::Item)> = Vec::new();
        let ghost obeys = <I::Item>::obeys_eq_spec();
        proof {
            assert(all.subrange(0, 0) =~= Seq::<I::Item>::empty());
        }
        loop
            invariant
                back@.len() <= all.len(),
                all.len() <= usize::MAX,
                forall|i: int| 0 <= i < runs@.len() ==> (#[trigger] runs@[i]).0 <= all.len() - back@.len(),
                back@ == all.reverse().subrange(0, back@.len() as int),
                obeys == <I::Item>::obeys_eq_spec(),
                obeys ==> runs@ == rle_spec(all.subrange(0, all.len() - back@.len())),
            ensures
                obeys ==> runs@ == rle_spec(all),
            decreases back@.len(),
        {
            let ghost done = all.len() - back@.len();
            let ghost sofar = all.subrange(0, done);
            let ghost remaining = back@.len() as int;
            match back.pop() {
                Some(item) => {
                    proof {
                        assert(back@ =~= all.reverse().subrange(0, remaining - 1));
                        assert(item == all[done]);
                        assert(all.subrange(0, done + 1).drop_last() =~= sofar);
                        lemma_rle_bound(sofar);
                    }
                    let n = runs.len();
                    if n > 0 && runs[n - 1].1 == item {
                        let count = runs[n - 1].0;
                        runs[n - 1].0 = count + 1;
                        proof {
                            if obeys {
                                assert(runs@ =~= rle_spec(all.subrange(0, done + 1)));
                            }
                        }
                    } else {
                        runs.push((1, item));
                    }
                },
                None => {
                    proof {
                        assert(all.subrange(0, all.len() as int) =~= all);
                    }
                    break ;
                },
            }
        }
        let rest = reversed(runs);
        let r = Rle { rest };
        proof {
            if obeys {
                assert(r.runs() =~= rle_spec(all));
            }
        }
        r
    }
}

/// What an iterator yields, with every run of equal items cut down to its
/// first item.
pub struct Dedup<I> where I: Iterator {
    inner: Rle<I>,
}

impl<I: Iterator> Dedup<I> {
    /// The items that are still to come.
    pub closed spec fn items(&self) -> Seq<I::Item> {
        self.inner.runs().map_values(|run: (usize, I::Item)| run.1)
    }

    /// The next item.
    pub fn next(&mut self) -> (r: Option<I::Item>)
        ensures
            old(self).items().len() == 0 ==> r is None && final(self).items() == old(self).items(),
            old(self).items().len() > 0 ==> r == Some(old(self).items()[0]) && final(self).items()
                == old(self).items().drop_first(),
    {
        let r = match self.inner.next() {
            Some(run) => Some(run.1),
            None => None,
        };
        proof {
            if old(self).items().len() > 0 {
                assert(self.items() =~= old(self).items().drop_first());
            }
        }
        r
    }

    /// The items that are still to come.
    pub fn collect_vec(self) -> (res: Vec<I::Item>)
        ensures
            res@ == self.items(),
    {
        let mut it = self;
        let mut res: Vec<I::Item> = Vec::new();
        loop
            invariant
                res@ + it.items() == self.items(),
            ensures
                res@ == self.items(),
            decreases it.items().len(),
        {
            let ghost before = it.items();
            match it.next() {
                Some(item) => {
                    res.push(item);
                    proof {
                        assert(res@ + it.items() =~= res@.drop_last() + before);
                    }
                },
                None => {
                    proof {
                        assert(res@ + it.items() =~= res@);
                    }
                    break ;
                },
            }
        }
        res
    }
}

/// Cutting runs of equal items down to one item.
pub trait DedupIterator: Iterator + Sized {
    /// The items that the iterator yields, without those that are equal to
    /// the first item of the run that they stand in.
    fn dedup(self) -> (r: Dedup<Self>) where Self::Item: PartialEq
        requires
            self.obeys_prophetic_iter_laws(),
            self.decrease() is Some,
        ensures
            <Self::Item>::obeys_eq_spec() ==> r.items()
                == dedup_spec(self.remaining()),
    ;
}

impl<I: Iterator> DedupIterator for I {
    fn dedup(self) -> (r: Dedup<Self>) where Self::Item: PartialEq {
        Dedup { inner: self.rle() }
    }
}

} // verus!
