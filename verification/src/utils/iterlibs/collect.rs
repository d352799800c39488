use vstd::prelude::*;
use vstd::std_specs::iter::IteratorSpec;

verus! {

/// Gathering what an iterator yields.
pub trait CollectIter: Iterator + Sized {
    /// The items that the iterator yields, in order.
    fn collect_vec(self) -> (res: Vec<Self::Item>)
        requires
            self.obeys_prophetic_iter_laws(),
            self.decrease() is Some,
        ensures
            res@ == self.remaining(),
    ;
}

impl<I> CollectIter for I where I: Iterator {
    fn collect_vec(self) -> (res: Vec<Self::Item>) {
        let ghost all = self.remaining();
        let mut iter = self;
        let mut res: Vec<I::Item> = Vec::new();
        loop
            invariant
                iter.obeys_prophetic_iter_laws(),
                iter.decrease() is Some,
                res@ + iter.remaining() == all,
            ensures
                res@ == all,
            decreases iter.decrease()->0,
        {
            let ghost before = iter.remaining();
            let ghost sofar = res@;
            match iter.next() {
                None => {
                    proof {
                        assert(sofar + before =~= sofar);
                    }
                    break ;
                },
                Some(val) => {
                    res.push(val);
                    proof {
                        assert(res@ + iter.remaining() =~= sofar + before);
                    }
                },
            }
        }
        res
    }
}

/// The characters of `s`.
pub fn chars_of(s: &String) -> (v: Vec<char>)
    ensures
        v@ == s@,
{
    s.as_str().chars().collect_vec()
}

} // verus!
