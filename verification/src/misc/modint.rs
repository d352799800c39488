use crate::math::euclidean::{extended_gcd, extended_gcd_spec, gcd_spec, lemma_bezout, lemma_coefficients_bounded};
use crate::utils::integer::Integer;
use std::ops::{Add, AddAssign, Div, DivAssign, Mul, MulAssign, Sub, SubAssign};
use vstd::arithmetic::div_mod::{lemma_fundamental_div_mod, lemma_mod_multiples_vanish, lemma_mul_mod_noop_general, lemma_small_mod};
use vstd::arithmetic::power::{lemma_pow0, lemma_pow1, lemma_pow_adds, lemma_pow_mod_noop, lemma_pow_multiplies, pow};
use vstd::prelude::*;
use vstd::string::to_string_from_display_ensures;
use vstd::std_specs::ops::{AddSpecImpl, DivSpecImpl, MulSpecImpl, SubSpecImpl};

verus! {

/// A residue modulo `MOD`.
#[derive(Clone, Copy, Debug, PartialEq, Eq)]
pub struct Modint<const MOD: u64> {
    pub value: u64,
}

/// The residue of `v` modulo `m`: of `v` itself where `v` is negative, of `v` cut
/// to 64 bits where it is not.
pub open spec fn val_mod_spec(v: int, m: u64) -> u64 {
    if v < 0 {
        (v % (m as int)) as u64
    } else {
        ((v as u64) % m) as u64
    }
}

/// What `inv` gives for `val` modulo `m`: the first coefficient of the extended
/// algorithm on `val` and `m`, less than 0 made positive by adding `m`.
pub open spec fn inv_spec(val: u64, m: u64) -> u64 {
    let x = extended_gcd_spec(val as int, m as int).0;
    if x < 0 {
        (x + m) as u64
    } else {
        x as u64
    }
}

/// Where `val` and `m` have no common divisor but 1, `inv_spec(val, m)` is the
/// inverse of `val` modulo `m`.
pub proof fn lemma_inv_spec(val: u64, m: u64)
    requires
        m > 0,
        val <= i64::MAX,
        m <= i64::MAX,
        gcd_spec(val as int, m as int) == 1,
    ensures
        (val * inv_spec(val, m)) % (m as int) == 1int % (m as int),
{
    let a = val as int;
    let b = m as int;
    lemma_bezout(a, b);
    lemma_coefficients_bounded(a, b);
    let x = extended_gcd_spec(a, b).0;
    let y = extended_gcd_spec(a, b).1;
    let z = inv_spec(val, m) as int;
    let k = if x < 0 {
        y - a
    } else {
        y
    };
    assert(a * z == b * (-k) + 1) by (nonlinear_arith)
        requires
            a * x + b * y == 1,
            x < 0 ==> z == x + b && k == y - a,
            x >= 0 ==> z == x && k == y,
    ;
    lemma_mod_multiples_vanish(-k, 1, b);
}

/// `inv_spec(val, m)` is at most `m`.
pub proof fn lemma_inv_bounded(val: u64, m: u64)
    requires
        m > 0,
        val <= i64::MAX,
        m <= i64::MAX,
    ensures
        inv_spec(val, m) <= m,
{
    lemma_coefficients_bounded(val as int, m as int);
}

impl<const MOD: u64> Modint<MOD> {
    /// The residue of `val`.
    pub fn new<T: Integer>(val: T) -> (r: Self)
        requires
            MOD > 0,
            val.as_int() < 0 ==> MOD <= T::max_int(),
        ensures
            r.value == val_mod_spec(val.as_int(), MOD),
    {
        Self { value: Self::val_mod(val) }
    }

    #[inline]
    fn val_mod<T: Integer>(val: T) -> (r: u64)
        requires
            MOD > 0,
            val.as_int() < 0 ==> MOD <= T::max_int(),
        ensures
            r == val_mod_spec(val.as_int(), MOD),
    {
        if val.less(T::zero()) {
            proof {
                val.lemma_range();
                let v = val.as_int();
                let m = MOD as int;
                crate::math::euclidean::lemma_trunc_div_rem(v, m);
                let q = crate::utils::integer::trunc_div(v, m);
                let r = crate::utils::integer::trunc_rem(v, m);
                lemma_mod_multiples_vanish(q, r, m);
                lemma_mod_multiples_vanish(1, r, m);
                assert(m * 1 + r == r + m);
            }
            let m = T::from_u64(MOD);
            val.rem(m).plus(m).to_u64() % MOD
        } else {
            val.to_u64() % MOD
        }
    }

    /// The residue that `extended_gcd` gives as the inverse of `val`; an error
    /// where `val` and the modulus are both 0.
    pub fn inv(val: u64) -> (r: Result<Self, ()>)
        requires
            val <= i64::MAX,
            MOD <= i64::MAX,
        ensures
            val == 0 && MOD == 0 ==> r is Err,
            val != 0 || MOD != 0 ==> r == Ok::<Self, ()>(Modint { value: inv_spec(val, MOD) }),
    {
        proof {
            lemma_coefficients_bounded(val as int, MOD as int);
        }
        if let Some((x, _, _)) = extended_gcd(val as i64, MOD as i64) {
            let value = if x < 0 {
                (x + MOD as i64) as u64
            } else {
                x as u64
            };
            Ok(Self { value })
        } else {
            Err(())
        }
    }

    /// The `k`-th power.
    pub fn pow(&self, k: u32) -> (r: Self)
        requires
            MOD > 0,
            k > 0 ==> self.value * self.value <= u64::MAX && (MOD - 1) * self.value <= u64::MAX && (
            MOD - 1) * (MOD - 1) <= u64::MAX,
        ensures
            r.value == pow(self.value as int, k as nat) % (MOD as int),
    {
        let mut res = Self::new(1u64);
        let mut cur = *self;
        let mut k = k;
        let ghost k0 = k;
        let ghost m = MOD as int;
        let ghost base = self.value as int;
        proof {
            lemma_small_mod(res.value as nat, MOD as nat);
            lemma_mul_mod_noop_general(1, pow(base, k as nat), m);
        }
        while k > 0
            invariant
                MOD > 0,
                m == MOD as int,
                base == self.value as int,
                res.value < MOD,
                cur.value < MOD || cur.value == base,
                k <= k0,
                k0 > 0 ==> base * base <= u64::MAX && (MOD - 1) * base <= u64::MAX && (MOD - 1) * (
                MOD - 1) <= u64::MAX,
                (res.value * pow(cur.value as int, k as nat)) % m == pow(base, k0 as nat) % m,
            decreases k,
        {
            let ghost c = cur.value as int;
            let ghost rv = res.value as int;
            let ghost kk = k as nat;
            let ghost half = (k / 2) as nat;
            proof {
                assert(rv * c <= u64::MAX && c * c <= u64::MAX) by (nonlinear_arith)
                    requires
                        0 <= rv <= m - 1,
                        0 <= c,
                        c <= m - 1 || c == base,
                        (m - 1) * (m - 1) <= u64::MAX,
                        base * base <= u64::MAX,
                        (m - 1) * base <= u64::MAX,
                ;
                // c^k == (c*c)^(k/2) * c^(k%2)
                lemma_pow_multiplies(c, 2, half);
                lemma_pow_adds(c, 2 * half, (kk % 2) as nat);
                lemma_pow1(c);
                lemma_pow0(c);
                lemma_pow_adds(c, 1, 1);
                assert(pow(c, 2) == c * c);
                assert(pow(c, kk) == pow(c * c, half) * pow(c, (kk % 2) as nat));
                lemma_pow_mod_noop(c * c, half, m);
            }
            if k & 1 == 1 {
                assert(k & 1 == 1 ==> k % 2 == 1) by (bit_vector);
                res = res * cur;
            } else {
                assert(k & 1 != 1 ==> k % 2 == 0) by (bit_vector);
            }
            cur = cur * cur;
            assert(k >> 1 == k / 2) by (bit_vector);
            k >>= 1;
            proof {
                let p = pow(c * c, half);
                let nc = cur.value as int;
                let nr = res.value as int;
                assert(nc == (c * c) % m);
                assert(pow(nc, half) % m == p % m);
                // res' * nc^half == (rv * c^(k%2)) % m * nc^half
                let e = pow(c, (kk % 2) as nat);
                assert(nr == (rv * e) % m) by {
                    if kk % 2 == 1 {
                        assert(rv * e == rv * c);
                    } else {
                        assert(rv * e == rv) by (nonlinear_arith)
                            requires
                                e == 1,
                        ;
                        lemma_small_mod(rv as nat, m as nat);
                    }
                }
                lemma_mul_mod_noop_general(rv * e, p, m);
                lemma_mul_mod_noop_general(nr, pow(nc, half), m);
                assert((rv * e) * p == rv * pow(c, kk)) by (nonlinear_arith)
                    requires
                        pow(c, kk) == p * e,
                ;
            }
        }
        proof {
            lemma_pow0(cur.value as int);
            lemma_small_mod(res.value as nat, MOD as nat);
        }
        res
    }
}

impl<const MOD: u64> Modint<MOD> {
    /// The residue as a decimal number.
    pub fn to_string(&self) -> (res: String)
        ensures
            to_string_from_display_ensures::<u64>(&self.value, res),
    {
        self.value.to_string()
    }
}

impl<const MOD: u64> AddSpecImpl for Modint<MOD> {
    open spec fn obeys_add_spec() -> bool {
        true
    }

    open spec fn add_req(self, rhs: Self) -> bool {
        MOD > 0 && self.value + rhs.value <= u64::MAX
    }

    open spec fn add_spec(self, rhs: Self) -> Self {
        Modint { value: ((self.value + rhs.value) % (MOD as int)) as u64 }
    }
}

impl<const MOD: u64> Add for Modint<MOD> {
    type Output = Self;

    fn add(self, rhs: Self) -> (r: Self) {
        Self::new(self.value + rhs.value)
    }
}

impl<const MOD: u64> AddAssign for Modint<MOD> {
    fn add_assign(&mut self, rhs: Self)
        requires
            MOD > 0,
            old(self).value + rhs.value <= u64::MAX,
        ensures
            final(self).value == (old(self).value + rhs.value) % (MOD as int),
    {
        *self = *self + rhs;
    }
}

impl<const MOD: u64> SubSpecImpl for Modint<MOD> {
    open spec fn obeys_sub_spec() -> bool {
        true
    }

    open spec fn sub_req(self, rhs: Self) -> bool {
        MOD > 0 && MOD + self.value <= u64::MAX && rhs.value <= MOD + self.value
    }

    open spec fn sub_spec(self, rhs: Self) -> Self {
        Modint { value: ((MOD + self.value - rhs.value) % (MOD as int)) as u64 }
    }
}

impl<const MOD: u64> Sub for Modint<MOD> {
    type Output = Self;

    fn sub(self, rhs: Self) -> (r: Self) {
        Self::new(MOD + self.value - rhs.value)
    }
}

impl<const MOD: u64> SubAssign for Modint<MOD> {
    fn sub_assign(&mut self, rhs: Self)
        requires
            MOD > 0,
            MOD + old(self).value <= u64::MAX,
            rhs.value <= MOD + old(self).value,
        ensures
            final(self).value == (MOD + old(self).value - rhs.value) % (MOD as int),
    {
        *self = *self - rhs;
    }
}

impl<const MOD: u64> MulSpecImpl for Modint<MOD> {
    open spec fn obeys_mul_spec() -> bool {
        true
    }

    open spec fn mul_req(self, rhs: Self) -> bool {
        MOD > 0 && self.value * rhs.value <= u64::MAX
    }

    open spec fn mul_spec(self, rhs: Self) -> Self {
        Modint { value: ((self.value * rhs.value) % (MOD as int)) as u64 }
    }
}

impl<const MOD: u64> Mul for Modint<MOD> {
    type Output = Self;

    fn mul(self, rhs: Self) -> (r: Self) {
        Self::new(self.value * rhs.value)
    }
}

impl<const MOD: u64> MulAssign for Modint<MOD> {
    fn mul_assign(&mut self, rhs: Self)
        requires
            MOD > 0,
            old(self).value * rhs.value <= u64::MAX,
        ensures
            final(self).value == (old(self).value * rhs.value) % (MOD as int),
    {
        *self = *self * rhs;
    }
}

impl<const MOD: u64> DivSpecImpl for Modint<MOD> {
    open spec fn obeys_div_spec() -> bool {
        true
    }

    open spec fn div_req(self, rhs: Self) -> bool {
        &&& 0 < MOD <= i64::MAX
        &&& rhs.value <= i64::MAX
        &&& self.value * inv_spec(rhs.value, MOD) <= u64::MAX
    }

    open spec fn div_spec(self, rhs: Self) -> Self {
        Modint { value: ((self.value * inv_spec(rhs.value, MOD)) % (MOD as int)) as u64 }
    }
}

impl<const MOD: u64> Div for Modint<MOD> {
    type Output = Self;

    fn div(self, rhs: Self) -> (r: Self) {
        let rhs_inv = Self::inv(rhs.value).unwrap();
        self * rhs_inv
    }
}

impl<const MOD: u64> DivAssign for Modint<MOD> {
    fn div_assign(&mut self, rhs: Self)
        requires
            0 < MOD <= i64::MAX,
            rhs.value <= i64::MAX,
            old(self).value * inv_spec(rhs.value, MOD) <= u64::MAX,
        ensures
            final(self).value == (old(self).value * inv_spec(rhs.value, MOD)) % (MOD as int),
    {
        *self = *self / rhs;
    }
}

impl<const MOD: u64, T: Integer> AddSpecImpl<T> for Modint<MOD> {
    open spec fn obeys_add_spec() -> bool {
        true
    }

    open spec fn add_req(self, rhs: T) -> bool {
        &&& MOD > 0
        &&& rhs.as_int() < 0 ==> MOD <= T::max_int()
        &&& self.value + val_mod_spec(rhs.as_int(), MOD) <= u64::MAX
    }

    open spec fn add_spec(self, rhs: T) -> Self {
        Modint { value: ((self.value + val_mod_spec(rhs.as_int(), MOD)) % (MOD as int)) as u64 }
    }
}

impl<const MOD: u64, T: Integer> Add<T> for Modint<MOD> {
    type Output = Self;

    fn add(self, rhs: T) -> (r: Self) {
        self + Self::new(rhs)
    }
}

impl<const MOD: u64, T: Integer> AddAssign<T> for Modint<MOD> {
    fn add_assign(&mut self, rhs: T)
        requires
            MOD > 0,
            rhs.as_int() < 0 ==> MOD <= T::max_int(),
            old(self).value + val_mod_spec(rhs.as_int(), MOD) <= u64::MAX,
        ensures
            final(self).value == (old(self).value + val_mod_spec(rhs.as_int(), MOD)) % (MOD as int),
    {
        *self = *self + rhs;
    }
}

impl<const MOD: u64, T: Integer> SubSpecImpl<T> for Modint<MOD> {
    open spec fn obeys_sub_spec() -> bool {
        true
    }

    open spec fn sub_req(self, rhs: T) -> bool {
        &&& MOD > 0
        &&& rhs.as_int() < 0 ==> MOD <= T::max_int()
        &&& MOD + self.value <= u64::MAX
        &&& val_mod_spec(rhs.as_int(), MOD) <= MOD + self.value
    }

    open spec fn sub_spec(self, rhs: T) -> Self {
        Modint {
            value: ((MOD + self.value - val_mod_spec(rhs.as_int(), MOD)) % (MOD as int)) as u64,
        }
    }
}

impl<const MOD: u64, T: Integer> Sub<T> for Modint<MOD> {
    type Output = Self;

    fn sub(self, rhs: T) -> (r: Self) {
        self - Self::new(rhs)
    }
}

impl<const MOD: u64, T: Integer> SubAssign<T> for Modint<MOD> {
    fn sub_assign(&mut self, rhs: T)
        requires
            MOD > 0,
            rhs.as_int() < 0 ==> MOD <= T::max_int(),
            MOD + old(self).value <= u64::MAX,
            val_mod_spec(rhs.as_int(), MOD) <= MOD + old(self).value,
        ensures
            final(self).value == (MOD + old(self).value - val_mod_spec(rhs.as_int(), MOD)) % (MOD as int),
    {
        *self = *self - rhs;
    }
}

impl<const MOD: u64, T: Integer> MulSpecImpl<T> for Modint<MOD> {
    open spec fn obeys_mul_spec() -> bool {
        true
    }

    open spec fn mul_req(self, rhs: T) -> bool {
        &&& MOD > 0
        &&& rhs.as_int() < 0 ==> MOD <= T::max_int()
        &&& self.value * val_mod_spec(rhs.as_int(), MOD) <= u64::MAX
    }

    open spec fn mul_spec(self, rhs: T) -> Self {
        Modint { value: ((self.value * val_mod_spec(rhs.as_int(), MOD)) % (MOD as int)) as u64 }
    }
}

impl<const MOD: u64, T: Integer> Mul<T> for Modint<MOD> {
    type Output = Self;

    fn mul(self, rhs: T) -> (r: Self) {
        self * Self::new(rhs)
    }
}

impl<const MOD: u64, T: Integer> MulAssign<T> for Modint<MOD> {
    fn mul_assign(&mut self, rhs: T)
        requires
            MOD > 0,
            rhs.as_int() < 0 ==> MOD <= T::max_int(),
            old(self).value * val_mod_spec(rhs.as_int(), MOD) <= u64::MAX,
        ensures
            final(self).value == (old(self).value * val_mod_spec(rhs.as_int(), MOD)) % (MOD as int),
    {
        *self = *self * rhs;
    }
}

impl<const MOD: u64, T: Integer> DivSpecImpl<T> for Modint<MOD> {
    open spec fn obeys_div_spec() -> bool {
        true
    }

    open spec fn div_req(self, rhs: T) -> bool {
        &&& 0 < MOD <= i64::MAX
        &&& rhs.as_int() < 0 ==> MOD <= T::max_int()
        &&& self.value * inv_spec(val_mod_spec(rhs.as_int(), MOD), MOD) <= u64::MAX
    }

    open spec fn div_spec(self, rhs: T) -> Self {
        Modint {
            value: ((self.value * inv_spec(val_mod_spec(rhs.as_int(), MOD), MOD)) % (
            MOD as int)) as u64,
        }
    }
}

impl<const MOD: u64, T: Integer> Div<T> for Modint<MOD> {
    type Output = Self;

    fn div(self, rhs: T) -> (r: Self) {
        self / Self::new(rhs)
    }
}

impl<const MOD: u64, T: Integer> DivAssign<T> for Modint<MOD> {
    fn div_assign(&mut self, rhs: T)
        requires
            0 < MOD <= i64::MAX,
            rhs.as_int() < 0 ==> MOD <= T::max_int(),
            old(self).value * inv_spec(val_mod_spec(rhs.as_int(), MOD), MOD) <= u64::MAX,
        ensures
            final(self).value == (old(self).value * inv_spec(val_mod_spec(rhs.as_int(), MOD), MOD)) % (MOD as int),
    {
        *self = *self / rhs;
    }
}

} // verus!
