use crate::utils::integer::{abs_diff_spec, Integer};
use vstd::prelude::*;

verus! {

/// `x` lies between `a` and `b`, whichever of them is the smaller.
pub open spec fn between(x: int, a: int, b: int) -> bool {
    (a <= x <= b) || (b <= x <= a)
}

/// `x` lies between `a` and `b` and is neither of them.
pub open spec fn inside(x: int, a: int, b: int) -> bool {
    (a < x < b) || (b < x < a)
}

/// The integer next to `r` on the way from `ok` to `ng`.
pub open spec fn toward(r: int, ok: int, ng: int) -> int {
    if ok < ng {
        r + 1
    } else {
        r - 1
    }
}

/// Bisects between `ok` and `ng`, which count as a value on which `f` is true
/// and one on which it is false, and calls `f` only on values inside them. The
/// result is `ok`, or a value inside on which `f` was true; and the
/// value next to it on the way to `ng` is `ng`, or one on which `f` was
/// false. So where `f` is true up to some point on the way from `ok` to `ng`
/// and false from there on, the result is the last value on which it is true.
/// The sum of two values from `ok` to `ng` that are more than 1 apart must
/// be within the bounds of the type.
pub fn binary_search<T: Integer, F: Fn(T) -> bool>(ok: T, ng: T, f: F) -> (r: T)
    requires
        abs_diff_spec(ok.as_int(), ng.as_int()) <= T::max_int(),
        abs_diff_spec(ok.as_int(), ng.as_int()) > 1 ==> {
            &&& T::min_int() <= 2 * ok.as_int() + 2
            &&& T::min_int() <= 2 * ng.as_int() + 2
            &&& 2 * ok.as_int() - 2 <= T::max_int()
            &&& 2 * ng.as_int() - 2 <= T::max_int()
        },
        forall|x: T| inside(x.as_int(), ok.as_int(), ng.as_int()) ==> f.requires((x,)),
    ensures
        r == ok || (inside(r.as_int(), ok.as_int(), ng.as_int()) && f.ensures((r,), true)),
        ok.as_int() == ng.as_int() ==> r == ok,
        ok.as_int() != ng.as_int() ==> exists|n: T|
            {
                &&& n.as_int() == toward(r.as_int(), ok.as_int(), ng.as_int())
                &&& (n == ng || (inside(n.as_int(), ok.as_int(), ng.as_int()) && f.ensures(
                    (n,),
                    false,
                )))
            },
{
    let ghost ok0 = ok;
    let ghost ng0 = ng;
    let mut ok = ok;
    let mut ng = ng;
    proof {
        ok.lemma_range();
    }
    while T::from_i32(1).less(ok.abs_diff(ng))
        invariant
            127 <= T::max_int(),
            T::min_int() <= 0,
            abs_diff_spec(ok0.as_int(), ng0.as_int()) <= T::max_int(),
            abs_diff_spec(ok0.as_int(), ng0.as_int()) > 1 ==> {
                &&& T::min_int() <= 2 * ok0.as_int() + 2
                &&& T::min_int() <= 2 * ng0.as_int() + 2
                &&& 2 * ok0.as_int() - 2 <= T::max_int()
                &&& 2 * ng0.as_int() - 2 <= T::max_int()
            },
            between(ok.as_int(), ok0.as_int(), ng0.as_int()),
            between(ng.as_int(), ok0.as_int(), ng0.as_int()),
            ok0.as_int() < ng0.as_int() ==> ok.as_int() < ng.as_int(),
            ok0.as_int() > ng0.as_int() ==> ok.as_int() > ng.as_int(),
            ok0.as_int() == ng0.as_int() ==> ok == ok0,
            ok == ok0 || (inside(ok.as_int(), ok0.as_int(), ng0.as_int()) && f.ensures(
                (ok,),
                true,
            )),
            ng == ng0 || (inside(ng.as_int(), ok0.as_int(), ng0.as_int()) && f.ensures(
                (ng,),
                false,
            )),
            forall|x: T| inside(x.as_int(), ok0.as_int(), ng0.as_int()) ==> f.requires((x,)),
        decreases abs_diff_spec(ok.as_int(), ng.as_int()),
    {
        let mid = ok.plus(ng).half();
        if f(mid) {
            ok = mid;
        } else {
            ng = mid;
        }
    }
    ok
}

} // verus!
