use crate::utils::integer::{lemma_div_bound, trunc_div, trunc_rem, Integer};
use std::ops::Neg;
use vstd::prelude::*;

verus! {

/// The absolute value of an integer.
pub open spec fn abs(a: int) -> int {
    if a >= 0 {
        a
    } else {
        -a
    }
}

/// `d` times `k`.
pub open spec fn multiple(d: int, k: int) -> int {
    d * k
}

/// `d` divides `n`.
pub open spec fn divides(d: int, n: int) -> bool {
    exists|k: int| n == #[trigger] multiple(d, k)
}

/// Division that rounds toward zero: the remainder is smaller than the divisor
/// and has the sign of the dividend.
pub proof fn lemma_trunc_div_rem(a: int, b: int)
    requires
        b != 0,
    ensures
        a == b * trunc_div(a, b) + trunc_rem(a, b),
        abs(trunc_rem(a, b)) < abs(b),
        a >= 0 ==> trunc_rem(a, b) >= 0,
        a <= 0 ==> trunc_rem(a, b) <= 0,
        abs(a) == abs(b) * abs(trunc_div(a, b)) + abs(trunc_rem(a, b)),
{
    let x = abs(a);
    lemma_div_bound(x, b);
    let q = x / b;
    let r = x % b;
    assert(a == b * trunc_div(a, b) + trunc_rem(a, b)) by (nonlinear_arith)
        requires
            x == b * q + r,
            a >= 0 ==> a == x && trunc_div(a, b) == q && trunc_rem(a, b) == r,
            a < 0 ==> a == -x && trunc_div(a, b) == -q && trunc_rem(a, b) == -r,
    ;
    assert(x == abs(b) * abs(q) + r) by (nonlinear_arith)
        requires
            x == b * q + r,
            0 <= r,
            x >= 0,
            b > 0 ==> r < b,
            b < 0 ==> r < -b,
            b != 0,
    ;
}

/// What Euclid's algorithm gives for `a` and `b`, dividing as the machine does.
pub open spec fn gcd_spec(a: int, b: int) -> int
    decreases abs(b),
{
    if a == 0 {
        b
    } else if b == 0 {
        a
    } else {
        proof {
            lemma_trunc_div_rem(a, b);
        }
        gcd_spec(b, trunc_rem(a, b))
    }
}

/// The coefficients and the divisor that the extended algorithm gives for `a`
/// and `b`, as `(x, y, d)`.
pub open spec fn extended_gcd_spec(a: int, b: int) -> (int, int, int)
    decreases abs(b),
{
    if a == 0 {
        (0, 1, b)
    } else if b == 0 {
        (1, 0, a)
    } else {
        proof {
            lemma_trunc_div_rem(a, b);
        }
        let rec = extended_gcd_spec(b, trunc_rem(a, b));
        (rec.1, rec.0 - trunc_div(a, b) * rec.1, rec.2)
    }
}

/// `gcd_spec(a, b)` divides both `a` and `b`.
pub proof fn lemma_gcd_divides(a: int, b: int)
    ensures
        divides(gcd_spec(a, b), a),
        divides(gcd_spec(a, b), b),
    decreases abs(b),
{
    let g = gcd_spec(a, b);
    if a == 0 {
        assert(a == multiple(g, 0));
        assert(b == multiple(g, 1));
    } else if b == 0 {
        assert(a == multiple(g, 1));
        assert(b == multiple(g, 0));
    } else {
        lemma_trunc_div_rem(a, b);
        let q = trunc_div(a, b);
        let r = trunc_rem(a, b);
        lemma_gcd_divides(b, r);
        let kb = choose|k: int| b == #[trigger] multiple(g, k);
        let kr = choose|k: int| r == #[trigger] multiple(g, k);
        assert(a == g * (kb * q + kr)) by (nonlinear_arith)
            requires
                a == b * q + r,
                b == g * kb,
                r == g * kr,
        ;
        assert(a == multiple(g, kb * q + kr));
    }
}

/// Every common divisor of `a` and `b` divides `gcd_spec(a, b)`.
pub proof fn lemma_gcd_greatest(a: int, b: int, c: int)
    requires
        divides(c, a),
        divides(c, b),
    ensures
        divides(c, gcd_spec(a, b)),
    decreases abs(b),
{
    if a != 0 && b != 0 {
        lemma_trunc_div_rem(a, b);
        let q = trunc_div(a, b);
        let r = trunc_rem(a, b);
        let ka = choose|k: int| a == #[trigger] multiple(c, k);
        let kb = choose|k: int| b == #[trigger] multiple(c, k);
        assert(r == c * (ka - kb * q)) by (nonlinear_arith)
            requires
                a == b * q + r,
                a == c * ka,
                b == c * kb,
        ;
        assert(r == multiple(c, ka - kb * q));
        lemma_gcd_greatest(b, r, c);
    }
}

/// For numbers that are not negative the result is not negative, and it is 0
/// only when both are 0.
pub proof fn lemma_gcd_sign(a: int, b: int)
    ensures
        a >= 0 && b >= 0 ==> gcd_spec(a, b) >= 0,
        gcd_spec(a, b) == 0 ==> a == 0 && b == 0,
    decreases abs(b),
{
    if a != 0 && b != 0 {
        lemma_trunc_div_rem(a, b);
        lemma_gcd_sign(b, trunc_rem(a, b));
    }
}

/// Bezout's identity: the coefficients combine `a` and `b` to the divisor, which
/// is the one that Euclid's algorithm gives.
pub proof fn lemma_bezout(a: int, b: int)
    ensures
        a * extended_gcd_spec(a, b).0 + b * extended_gcd_spec(a, b).1 == extended_gcd_spec(a, b).2,
        extended_gcd_spec(a, b).2 == gcd_spec(a, b),
    decreases abs(b),
{
    if a != 0 && b != 0 {
        lemma_trunc_div_rem(a, b);
        let q = trunc_div(a, b);
        let r = trunc_rem(a, b);
        lemma_bezout(b, r);
        let rec = extended_gcd_spec(b, r);
        assert(a * rec.1 + b * (rec.0 - q * rec.1) == rec.2) by (nonlinear_arith)
            requires
                a == b * q + r,
                b * rec.0 + r * rec.1 == rec.2,
        ;
    }
}

/// The coefficients are no larger than the other argument: `|x| * |d| <= |b|`
/// and `|y| * |d| <= |a|` where neither argument is 0.
pub proof fn lemma_coefficients_bounded(a: int, b: int)
    ensures
        a != 0 && b != 0 ==> abs(extended_gcd_spec(a, b).0) * abs(extended_gcd_spec(a, b).2) <= abs(
            b,
        ) && abs(extended_gcd_spec(a, b).1) * abs(extended_gcd_spec(a, b).2) <= abs(a),
        a != 0 || b != 0 ==> extended_gcd_spec(a, b).2 != 0,
        abs(extended_gcd_spec(a, b).0) <= abs(b) || extended_gcd_spec(a, b).0 == 1,
        abs(extended_gcd_spec(a, b).1) <= abs(a) || extended_gcd_spec(a, b).1 == 1,
    decreases abs(b),
{
    if a != 0 && b != 0 {
        lemma_trunc_div_rem(a, b);
        let q = trunc_div(a, b);
        let r = trunc_rem(a, b);
        lemma_coefficients_bounded(b, r);
        let rec = extended_gcd_spec(b, r);
        let x = extended_gcd_spec(a, b).0;
        let y = extended_gcd_spec(a, b).1;
        let d = extended_gcd_spec(a, b).2;
        assert(x == rec.1 && y == rec.0 - q * rec.1 && d == rec.2);
        let ad = abs(d);
        if r == 0 {
            assert(rec == (1int, 0int, b));
            assert(abs(b) <= abs(a)) by (nonlinear_arith)
                requires
                    abs(a) == abs(b) * abs(q),
                    a != 0,
                    abs(a) >= 0,
                    abs(b) >= 0,
                    abs(q) >= 0,
            ;
            assert(abs(x) * ad == 0 && abs(y) * ad == abs(b)) by (nonlinear_arith)
                requires
                    x == 0,
                    y == 1,
                    ad == abs(b),
            ;
        } else {
            assert(abs(x) * ad <= abs(b));
            assert(abs(y) * ad <= abs(a)) by (nonlinear_arith)
                requires
                    y == rec.0 - q * rec.1,
                    abs(rec.0) * ad <= abs(r),
                    abs(rec.1) * ad <= abs(b),
                    abs(a) == abs(b) * abs(q) + abs(r),
                    ad >= 0,
                    abs(y) == if y >= 0 {
                        y
                    } else {
                        -y
                    },
                    abs(rec.0) == if rec.0 >= 0 {
                        rec.0
                    } else {
                        -rec.0
                    },
                    abs(rec.1) == if rec.1 >= 0 {
                        rec.1
                    } else {
                        -rec.1
                    },
                    abs(q) == if q >= 0 {
                        q
                    } else {
                        -q
                    },
            ;
        }
        assert(abs(x) <= abs(b) && abs(y) <= abs(a)) by (nonlinear_arith)
            requires
                abs(x) * ad <= abs(b),
                abs(y) * ad <= abs(a),
                ad >= 1,
                abs(x) >= 0,
                abs(y) >= 0,
        ;
    }
}

/// The greatest common divisor of `a` and `b` by Euclid's algorithm.
pub fn gcd<T: Integer>(a: T, b: T) -> (r: T)
    requires
        !(a.as_int() == -T::max_int() - 1 && b.as_int() == -1),
        !(a.as_int() == -1 && b.as_int() == -T::max_int() - 1),
    ensures
        r.as_int() == gcd_spec(a.as_int(), b.as_int()),
    decreases abs(b.as_int()),
{
    if a.same(T::zero()) {
        return b;
    }
    if b.same(T::zero()) {
        return a;
    }
    proof {
        a.lemma_range();
        b.lemma_range();
        lemma_trunc_div_rem(a.as_int(), b.as_int());
        let x = abs(a.as_int());
        let bb = b.as_int();
        lemma_div_bound(x, bb);
        if bb == -T::max_int() - 1 {
            assert(x % bb == x || x % bb == 0) by (nonlinear_arith)
                requires
                    x == bb * (x / bb) + x % bb,
                    0 <= x % bb < -bb,
                    0 <= x <= -bb,
            ;
        }
    }
    gcd(b, a.rem(b))
}

/// The least common multiple of `a` and `b`: `a / gcd(a, b) * b`, and 0 where
/// either is 0.
pub fn lcm<T: Integer>(a: T, b: T) -> (r: T)
    requires
        !(a.as_int() == -T::max_int() - 1 && b.as_int() == -1),
        !(a.as_int() == -1 && b.as_int() == -T::max_int() - 1),
        !(a.as_int() == -T::max_int() - 1 && gcd_spec(a.as_int(), b.as_int()) == -1),
        T::min_int() <= lcm_spec(a.as_int(), b.as_int()) <= T::max_int(),
    ensures
        r.as_int() == lcm_spec(a.as_int(), b.as_int()),
{
    if a.same(T::zero()) || b.same(T::zero()) {
        return T::zero();
    }
    proof {
        lemma_gcd_sign(a.as_int(), b.as_int());
    }
    a.quot(gcd(a, b)).times(b)
}

/// What `lcm` gives for `a` and `b`.
pub open spec fn lcm_spec(a: int, b: int) -> int {
    if a == 0 || b == 0 {
        0
    } else {
        trunc_div(a, gcd_spec(a, b)) * b
    }
}

/// Integers `x` and `y` with `a * x + b * y == d`, where `d` is the greatest
/// common divisor of `a` and `b`, as `(x, y, d)`; `None` where both are 0.
pub fn extended_gcd<T: Integer + Neg>(a: T, b: T) -> (r: Option<(T, T, T)>)
    requires
        T::min_int() < 0,
        -T::max_int() <= a.as_int(),
        -T::max_int() <= b.as_int(),
    ensures
        a.as_int() == 0 && b.as_int() == 0 ==> r is None,
        a.as_int() != 0 || b.as_int() != 0 ==> (r matches Some(t) && (
            t.0.as_int(),
            t.1.as_int(),
            t.2.as_int(),
        ) == extended_gcd_spec(a.as_int(), b.as_int())),
    decreases abs(b.as_int()),
{
    if a.same(T::zero()) {
        if b.same(T::zero()) {
            return None;
        }
        proof {
            b.lemma_range();
        }
        return Some((T::zero(), T::from_i32(1), b));
    }
    if b.same(T::zero()) {
        proof {
            a.lemma_range();
        }
        return Some((T::from_i32(1), T::zero(), a));
    }
    proof {
        a.lemma_range();
        b.lemma_range();
        lemma_trunc_div_rem(a.as_int(), b.as_int());
    }
    if let Some((x, y, d)) = extended_gcd(b, a.rem(b)) {
        let q = a.quot(b);
        proof {
            let ai = a.as_int();
            let bi = b.as_int();
            let r = trunc_rem(ai, bi);
            lemma_coefficients_bounded(bi, r);
            lemma_coefficients_bounded(ai, bi);
            let rec = extended_gcd_spec(bi, r);
            let qi = trunc_div(ai, bi);
            assert(extended_gcd_spec(ai, bi).1 == rec.0 - qi * rec.1);
            if r != 0 {
                assert(abs(qi * rec.1) == abs(qi) * abs(rec.1)) by (nonlinear_arith);
                assert(abs(qi * rec.1) <= abs(ai)) by (nonlinear_arith)
                    requires
                        abs(rec.1) * abs(rec.2) <= abs(bi),
                        abs(rec.2) >= 1,
                        abs(ai) == abs(bi) * abs(qi) + abs(r),
                        abs(qi * rec.1) == abs(qi) * abs(rec.1),
                        abs(qi) >= 0,
                        abs(rec.1) >= 0,
                        abs(r) >= 0,
                ;
            } else {
                assert(rec == (1int, 0int, bi));
                assert(qi * rec.1 == 0) by (nonlinear_arith)
                    requires
                        rec.1 == 0,
                ;
            }
        }
        return Some((y, x.minus(q.times(y)), d));
    } else {
        return None;
    }
}

} // verus!
