use crate::utils::integer::{wrap_spec, Integer};
use std::marker::PhantomData;
use vstd::prelude::*;

verus! {

/// A set with an associative operation that has an identity.
pub trait Monoid {
    type S: Copy;

    /// The operation.
    spec fn op_spec(a: Self::S, b: Self::S) -> Self::S;

    /// The identity of the operation.
    spec fn id_spec() -> Self::S;

    /// The operation is associative.
    proof fn lemma_associative(a: Self::S, b: Self::S, c: Self::S)
        ensures
            Self::op_spec(Self::op_spec(a, b), c) == Self::op_spec(a, Self::op_spec(b, c)),
    ;

    /// The identity changes nothing, on either side.
    proof fn lemma_identity(a: Self::S)
        ensures
            Self::op_spec(Self::id_spec(), a) == a,
            Self::op_spec(a, Self::id_spec()) == a,
    ;

    fn op(a: Self::S, b: Self::S) -> (r: Self::S)
        ensures
            r == Self::op_spec(a, b),
    ;

    fn id() -> (r: Self::S)
        ensures
            r == Self::id_spec(),
    ;
}

/// Maps on the values of a monoid that can be composed and that go along with
/// the operation of the monoid: mapping what two values combine to gives what
/// the two mapped values combine to.
pub trait MapMonoid {
    type M: Monoid;

    type F;

    /// The map that changes nothing.
    spec fn identity_map_spec() -> Self::F;

    /// What the map `f` makes of the value `x`.
    spec fn mapping_spec(f: Self::F, x: <Self::M as Monoid>::S) -> <Self::M as Monoid>::S;

    /// The map that applies `g` and then `f`.
    spec fn composition_spec(f: Self::F, g: Self::F) -> Self::F;

    /// The identity map changes no value.
    proof fn lemma_identity_map(x: <Self::M as Monoid>::S)
        ensures
            Self::mapping_spec(Self::identity_map_spec(), x) == x,
    ;

    /// The composition of two maps applies the second and then the first.
    proof fn lemma_composition(f: Self::F, g: Self::F, x: <Self::M as Monoid>::S)
        ensures
            Self::mapping_spec(Self::composition_spec(f, g), x) == Self::mapping_spec(
                f,
                Self::mapping_spec(g, x),
            ),
    ;

    /// A map goes along with the operation of the monoid.
    proof fn lemma_distributes(f: Self::F, a: <Self::M as Monoid>::S, b: <Self::M as Monoid>::S)
        ensures
            Self::mapping_spec(f, <Self::M as Monoid>::op_spec(a, b)) == <Self::M as Monoid>::op_spec(
                Self::mapping_spec(f, a),
                Self::mapping_spec(f, b),
            ),
    ;

    fn op(a: &<Self::M as Monoid>::S, b: &<Self::M as Monoid>::S) -> (r: <Self::M as Monoid>::S)
        ensures
            r == <Self::M as Monoid>::op_spec(*a, *b),
    {
        Self::M::op(*a, *b)
    }

    fn id() -> (r: <Self::M as Monoid>::S)
        ensures
            r == <Self::M as Monoid>::id_spec(),
    {
        Self::M::id()
    }

    fn identity_map() -> (r: Self::F)
        ensures
            r == Self::identity_map_spec(),
    ;

    fn mapping(f: &Self::F, x: &<Self::M as Monoid>::S) -> (r: <Self::M as Monoid>::S)
        ensures
            r == Self::mapping_spec(*f, *x),
    ;

    fn composition(f: &Self::F, g: &Self::F) -> (r: Self::F)
        ensures
            r == Self::composition_spec(*f, *g),
    ;
}

/// The values of `s` combined from left to right; the identity for none.
pub open spec fn fold<M: Monoid>(s: Seq<M::S>) -> M::S
    decreases s.len(),
{
    if s.len() == 0 {
        M::id_spec()
    } else {
        M::op_spec(fold::<M>(s.drop_last()), s.last())
    }
}

/// The values of `s` at the positions `l..r` combined, as far as `s` reaches;
/// the identity where there is no such position.
pub open spec fn range_fold<M: Monoid>(s: Seq<M::S>, l: int, r: int) -> M::S {
    if 0 <= l < r && l < s.len() {
        fold::<M>(
            s.subrange(
                l,
                if r < s.len() {
                    r
                } else {
                    s.len() as int
                },
            ),
        )
    } else {
        M::id_spec()
    }
}

/// Combining one sequence after another combines what each of them gives.
pub proof fn lemma_fold_append<M: Monoid>(a: Seq<M::S>, b: Seq<M::S>)
    ensures
        fold::<M>(a + b) == M::op_spec(fold::<M>(a), fold::<M>(b)),
    decreases b.len(),
{
    if b.len() == 0 {
        assert(a + b =~= a);
        M::lemma_identity(fold::<M>(a));
    } else {
        lemma_fold_append::<M>(a, b.drop_last());
        assert((a + b).drop_last() =~= a + b.drop_last());
        M::lemma_associative(fold::<M>(a), fold::<M>(b.drop_last()), b.last());
    }
}

/// One value combined is the value.
pub proof fn lemma_fold_one<M: Monoid>(s: Seq<M::S>)
    requires
        s.len() == 1,
    ensures
        fold::<M>(s) == s[0],
{
    assert(s.drop_last().len() == 0);
    assert(fold::<M>(s.drop_last()) == M::id_spec());
    M::lemma_identity(s[0]);
}

/// Identities combined give the identity.
pub proof fn lemma_fold_identities<M: Monoid>(s: Seq<M::S>)
    requires
        forall|i: int| 0 <= i < s.len() ==> s[i] == M::id_spec(),
    ensures
        fold::<M>(s) == M::id_spec(),
    decreases s.len(),
{
    if s.len() > 0 {
        lemma_fold_identities::<M>(s.drop_last());
        M::lemma_identity(M::id_spec());
    }
}

/// The smaller of two integers, with the greatest value of the type as identity.
pub struct RangeMinMonoid<T>(PhantomData<T>);

impl<T: Integer> Monoid for RangeMinMonoid<T> {
    type S = T;

    open spec fn op_spec(a: T, b: T) -> T {
        if b.as_int() < a.as_int() {
            b
        } else {
            a
        }
    }

    open spec fn id_spec() -> T {
        max_of::<T>()
    }

    proof fn lemma_associative(a: T, b: T, c: T) {
    }

    proof fn lemma_identity(a: T) {
        a.lemma_range();
        lemma_max_of::<T>();
        if a.as_int() == T::max_int() {
            a.lemma_injective(max_of::<T>());
        }
    }

    fn op(a: T, b: T) -> (r: T) {
        if b.less(a) {
            b
        } else {
            a
        }
    }

    fn id() -> (r: T) {
        let r = T::max_value();
        proof {
            lemma_max_of::<T>();
            r.lemma_injective(max_of::<T>());
        }
        r
    }
}

/// The greatest value of the type.
pub open spec fn max_of<T: Integer>() -> T {
    choose|x: T| x.as_int() == T::max_int()
}

/// The value of the type that stands for `v`, where there is one.
pub open spec fn value_of<T: Integer>(v: int) -> T {
    choose|x: T| x.as_int() == v
}

/// `max_of` stands for the greatest integer of the type.
pub proof fn lemma_max_of<T: Integer>()
    ensures
        max_of::<T>().as_int() == T::max_int(),
{
    T::lemma_bounds();
    T::lemma_values(T::max_int());
}

/// `value_of(v)` stands for `v` where `v` is within the type's bounds.
pub proof fn lemma_value_of<T: Integer>(v: int)
    requires
        T::min_int() <= v <= T::max_int(),
    ensures
        value_of::<T>(v).as_int() == v,
{
    T::lemma_values(v);
}

/// The sum of two integers, wrapped around the type's bounds, with 0 as identity.
pub struct RangeSumMonoid<T>(PhantomData<T>);

impl<T: Integer> Monoid for RangeSumMonoid<T> {
    type S = T;

    open spec fn op_spec(a: T, b: T) -> T {
        value_of::<T>(wrap_spec(a.as_int() + b.as_int(), T::min_int(), T::max_int()))
    }

    open spec fn id_spec() -> T {
        value_of::<T>(0)
    }

    proof fn lemma_associative(a: T, b: T, c: T) {
        let min = T::min_int();
        let max = T::max_int();
        let w = max - min + 1;
        a.lemma_range();
        let ab = wrap_spec(a.as_int() + b.as_int(), min, max);
        let bc = wrap_spec(b.as_int() + c.as_int(), min, max);
        vstd::arithmetic::div_mod::lemma_mod_bound(a.as_int() + b.as_int() - min, w);
        vstd::arithmetic::div_mod::lemma_mod_bound(b.as_int() + c.as_int() - min, w);
        lemma_value_of::<T>(ab);
        lemma_value_of::<T>(bc);
        // (ab + c - min) % w == (a + b + c - min) % w == (a + bc - min) % w
        vstd::arithmetic::div_mod::lemma_add_mod_noop(a.as_int() + b.as_int() - min, c.as_int(), w);
        vstd::arithmetic::div_mod::lemma_add_mod_noop(ab - min, c.as_int(), w);
        vstd::arithmetic::div_mod::lemma_mod_twice(a.as_int() + b.as_int() - min, w);
        vstd::arithmetic::div_mod::lemma_add_mod_noop(a.as_int(), b.as_int() + c.as_int() - min, w);
        vstd::arithmetic::div_mod::lemma_add_mod_noop(a.as_int(), bc - min, w);
        vstd::arithmetic::div_mod::lemma_mod_twice(b.as_int() + c.as_int() - min, w);
        assert(ab - min + c.as_int() == ab + c.as_int() - min);
        assert(a.as_int() + (bc - min) == a.as_int() + bc - min);
        assert(a.as_int() + b.as_int() - min + c.as_int() == a.as_int() + (b.as_int() + c.as_int()
            - min));
    }

    proof fn lemma_identity(a: T) {
        a.lemma_range();
        lemma_value_of::<T>(0);
        crate::utils::integer::lemma_wrap(a.as_int(), T::min_int(), T::max_int());
        lemma_value_of::<T>(a.as_int());
        a.lemma_injective(value_of::<T>(a.as_int()));
    }

    fn op(a: T, b: T) -> (r: T) {
        let r = a.wrapping_plus(b);
        proof {
            a.lemma_range();
            vstd::arithmetic::div_mod::lemma_mod_bound(
                a.as_int() + b.as_int() - T::min_int(),
                T::max_int() - T::min_int() + 1,
            );
            lemma_value_of::<T>(r.as_int());
            r.lemma_injective(value_of::<T>(r.as_int()));
        }
        r
    }

    fn id() -> (r: T) {
        proof {
            T::lemma_bounds();
        }
        let r = T::from_i32(0);
        proof {
            lemma_value_of::<T>(0);
            r.lemma_injective(value_of::<T>(0));
        }
        r
    }
}

} // verus!
