use crate::utils::integer::Integer;
use vstd::prelude::*;

verus! {

/// One end of a range: a value that belongs to the range, a value just outside
/// it, or no limit.
#[derive(Clone, Copy)]
pub enum Endpoint<T> {
    Included(T),
    Excluded(T),
    Unbounded,
}

/// The first integer of a range that starts at `start`, where a range without a
/// start begins at `unbound`.
pub open spec fn lower_spec<T: Integer>(start: Endpoint<T>, unbound: int) -> int {
    match start {
        Endpoint::Included(s) => s.as_int(),
        Endpoint::Excluded(s) => s.as_int() + 1,
        Endpoint::Unbounded => unbound,
    }
}

/// The first integer behind a range that ends at `end`, where a range without
/// an end stops before `unbound`.
pub open spec fn upper_spec<T: Integer>(end: Endpoint<T>, unbound: int) -> int {
    match end {
        Endpoint::Included(e) => e.as_int() + 1,
        Endpoint::Excluded(e) => e.as_int(),
        Endpoint::Unbounded => unbound,
    }
}

/// The half-open range `[l, r)` that `range` describes, as `(l, r)`.
pub fn unpack_range<T: Integer>(range: (Endpoint<T>, Endpoint<T>), lo_unbound: T, up_unbound: T) -> (r:
    (T, T))
    requires
        lower_spec(range.0, lo_unbound.as_int()) <= T::max_int(),
        upper_spec(range.1, up_unbound.as_int()) <= T::max_int(),
    ensures
        r.0.as_int() == lower_spec(range.0, lo_unbound.as_int()),
        r.1.as_int() == upper_spec(range.1, up_unbound.as_int()),
{
    proof {
        lo_unbound.lemma_range();
    }
    let l = match range.0 {
        Endpoint::Included(s) => s,
        Endpoint::Excluded(s) => {
            proof {
                s.lemma_range();
            }
            s.plus(T::from_i32(1))
        },
        Endpoint::Unbounded => lo_unbound,
    };
    let r = match range.1 {
        Endpoint::Included(e) => {
            proof {
                e.lemma_range();
            }
            e.plus(T::from_i32(1))
        },
        Endpoint::Excluded(e) => e,
        Endpoint::Unbounded => up_unbound,
    };
    (l, r)
}

} // verus!
