use crate::utils::iterlibs::collect::CollectIter;
use vstd::prelude::*;
use vstd::std_specs::cmp::PartialOrdIs;
use vstd::std_specs::iter::IteratorSpec;

verus! {

/// The items of an iterator in ascending order. The items that are still to
/// come are held in descending order, so that the next one is the last.
pub struct Sorted<I: Iterator> {
    rest: Vec<I::Item>,
}

/// Sorts `v` with `slice::sort`, which may panic where the order of the items
/// is no total order, so that such items are not admitted: afterwards `v`
/// holds the same items as before, each as often as before, and no item is
/// greater than an item behind it.
#[verifier::external_body]
fn sort_vec<T: Ord>(v: &mut Vec<T>)
    requires
        vstd::laws_cmp::obeys_cmp::<T>(),
    ensures
        final(v)@.to_multiset() == old(v)@.to_multiset(),
        final(v)@.len() == old(v)@.len(),
        forall|i: int, j: int|
            #![trigger final(v)@[i], final(v)@[j]]
            0 <= i <= j < final(v)@.len() ==> final(v)@[i].is_le(&final(v)@[j]),
{
    v.sort();
}

impl<I: Iterator> Sorted<I> {
    /// The items that are still to come, in ascending order.
    pub closed spec fn items(&self) -> Seq<I::Item> {
        self.rest@.reverse()
    }

    /// The next item, or `None` when all have been handed out.
    pub fn next(&mut self) -> (r: Option<I::Item>)
        ensures
            old(self).items().len() == 0 ==> r is None && final(self).items() == old(self).items(),
            old(self).items().len() > 0 ==> r == Some(old(self).items()[0]) && final(self).items()
                == old(self).items().drop_first(),
    {
        let r = self.rest.pop();
        proof {
            if old(self).rest@.len() > 0 {
                assert(self.rest@.reverse() =~= old(self).rest@.reverse().drop_first());
            }
        }
        r
    }

    /// The items that are still to come, in ascending order.
    pub fn collect_vec(self) -> (res: Vec<I::Item>)
        ensures
            res@ == self.items(),
    {
        let mut rest = self.rest;
        let mut res: Vec<I::Item> = Vec::new();
        let ghost all = rest@;
        loop
            invariant
                rest@.len() <= all.len(),
                rest@ == all.subrange(0, rest@.len() as int),
                res@ == all.subrange(rest@.len() as int, all.len() as int).reverse(),
            ensures
                res@ == all.reverse(),
            decreases rest@.len(),
        {
            let ghost before = res@;
            let ghost k = rest@.len() as int;
            match rest.pop() {
                Some(item) => {
                    res.push(item);
                    proof {
                        assert(rest@ =~= all.subrange(0, k - 1));
                        assert(res@ =~= all.subrange(k - 1, all.len() as int).reverse());
                    }
                },
                None => {
                    proof {
                        assert(all.subrange(0, all.len() as int) =~= all);
                    }
                    break ;
                },
            }
        }
        res
    }
}

/// Sorting what an iterator yields.
pub trait SortedIterator: Iterator + Sized {
    /// The items that the iterator yields, each as often as it yields it, in
    /// ascending order. The order of the items is a total order.
    fn sorted(self) -> (r: Sorted<std::vec::IntoIter<Self::Item>>) where Self::Item: Ord
        requires
            self.obeys_prophetic_iter_laws(),
            self.decrease() is Some,
            vstd::laws_cmp::obeys_cmp::<Self::Item>(),
        ensures
            r.items().to_multiset() == self.remaining().to_multiset(),
            forall|i: int, j: int|
                #![trigger r.items()[i], r.items()[j]]
                0 <= i <= j < r.items().len() ==> r.items()[i].is_le(&r.items()[j]),
    ;
}

impl<T> SortedIterator for T where T: Iterator + Sized {
    fn sorted(self) -> (r: Sorted<std::vec::IntoIter<Self::Item>>) where Self::Item: Ord {
        let mut v: Vec<Self::Item> = self.collect_vec();
        sort_vec(&mut v);
        let ghost sorted = v@;
        let mut rest: Vec<Self::Item> = Vec::new();
        loop
            invariant
                v@.len() <= sorted.len(),
                v@ == sorted.subrange(0, v@.len() as int),
                rest@ == sorted.subrange(v@.len() as int, sorted.len() as int).reverse(),
            ensures
                rest@ == sorted.reverse(),
            decreases v@.len(),
        {
            let ghost k = v@.len() as int;
            match v.pop() {
                Some(item) => {
                    rest.push(item);
                    proof {
                        assert(v@ =~= sorted.subrange(0, k - 1));
                        assert(rest@ =~= sorted.subrange(k - 1, sorted.len() as int).reverse());
                    }
                },
                None => {
                    proof {
                        assert(sorted.subrange(0, sorted.len() as int) =~= sorted);
                    }
                    break ;
                },
            }
        }
        let r = Sorted { rest };
        proof {
            assert(r.items() =~= sorted);
        }
        r
    }
}

} // verus!
