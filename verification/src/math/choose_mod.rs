use crate::math::euclidean::{
    divides, gcd_spec, lemma_bezout, lemma_gcd_divides, lemma_gcd_sign, multiple,
};
use crate::misc::modint::{inv_spec, lemma_inv_bounded, lemma_inv_spec, Modint};
use vstd::arithmetic::div_mod::{
    lemma_fundamental_div_mod, lemma_mod_multiples_basic, lemma_mul_mod_noop_general,
    lemma_small_mod,
};
use vstd::prelude::*;

verus! {

/// `n!`.
pub open spec fn factorial(n: nat) -> nat
    decreases n,
{
    if n == 0 {
        1
    } else {
        n * factorial((n - 1) as nat)
    }
}

/// `n!` modulo `m`.
pub open spec fn factorial_mod(n: nat, m: u64) -> u64 {
    (factorial(n) % (m as nat)) as u64
}

/// What `ncr` gives: `n!` divided by `(n - r)!` and by `r!`, each division a
/// multiplication by the inverse modulo `m`; 0 where `n < r`.
pub open spec fn ncr_spec(n: nat, r: nat, m: u64) -> u64 {
    if n < r {
        0
    } else {
        let first = ((factorial_mod(n, m) * inv_spec(factorial_mod((n - r) as nat, m), m)) % (
        m as int)) as u64;
        ((first * inv_spec(factorial_mod(r, m), m)) % (m as int)) as u64
    }
}

/// The number of ways to choose `r` of `n`, by Pascal's rule.
pub open spec fn binomial(n: nat, r: nat) -> nat
    decreases n,
{
    if r == 0 {
        1
    } else if n == 0 {
        0
    } else {
        binomial((n - 1) as nat, (r - 1) as nat) + binomial((n - 1) as nat, r)
    }
}

/// `p` is a prime.
pub open spec fn is_prime(p: int) -> bool {
    p >= 2 && forall|d: int| 1 < d < p ==> #[trigger] (p % d) != 0
}

/// There is no way to choose more than there is.
pub proof fn lemma_binomial_none(n: nat, r: nat)
    requires
        n < r,
    ensures
        binomial(n, r) == 0,
    decreases n,
{
    if n > 0 {
        lemma_binomial_none((n - 1) as nat, (r - 1) as nat);
        lemma_binomial_none((n - 1) as nat, r);
    }
}

/// The number of ways to choose `r` of `n` is `n!` divided by `r!` and by
/// `(n - r)!`.
pub proof fn lemma_binomial_factorials(n: nat, r: nat)
    requires
        r <= n,
    ensures
        binomial(n, r) * factorial(r) * factorial((n - r) as nat) == factorial(n),
    decreases n,
{
    let c = binomial(n, r) as int;
    let fr = factorial(r) as int;
    let fs = factorial((n - r) as nat) as int;
    let fnn = factorial(n) as int;
    if r == 0 {
        assert(c * fr * fs == fnn) by (nonlinear_arith)
            requires
                c == 1,
                fr == 1,
                fs == fnn,
        ;
    } else {
        let prev = factorial((n - 1) as nat) as int;
        let r1 = factorial((r - 1) as nat) as int;
        let a = binomial((n - 1) as nat, (r - 1) as nat) as int;
        let b = binomial((n - 1) as nat, r) as int;
        lemma_binomial_factorials((n - 1) as nat, (r - 1) as nat);
        assert(fr == r * r1);
        assert(fnn == n * prev);
        if r == n {
            lemma_binomial_none((n - 1) as nat, r);
            assert(fs == 1);
            assert(c * fr * fs == fnn) by (nonlinear_arith)
                requires
                    c == a,
                    a * r1 * 1 == prev,
                    fr == n * r1,
                    fs == 1,
                    fnn == n * prev,
            ;
        } else {
            let s1 = factorial((n - 1 - r) as nat) as int;
            lemma_binomial_factorials((n - 1) as nat, r);
            assert(fs == (n - r) * s1);
            assert(c * fr * fs == fnn) by (nonlinear_arith)
                requires
                    c == a + b,
                    a * r1 * fs == prev,
                    b * fr * s1 == prev,
                    fr == r * r1,
                    fs == (n - r) * s1,
                    fnn == n * prev,
            ;
        }
    }
}

/// A positive number below a prime has no divisor in common with it but 1.
pub proof fn lemma_coprime_below(k: int, p: int)
    requires
        is_prime(p),
        0 < k < p,
    ensures
        gcd_spec(k, p) == 1,
{
    let g = gcd_spec(k, p);
    lemma_gcd_sign(k, p);
    lemma_gcd_divides(k, p);
    let q = choose|q: int| k == #[trigger] multiple(g, q);
    let t = choose|t: int| p == #[trigger] multiple(g, t);
    assert(g <= k) by (nonlinear_arith)
        requires
            k == g * q,
            g > 0,
            k > 0,
    ;
    lemma_mod_multiples_basic(t, g);
    assert(p == t * g) by (nonlinear_arith)
        requires
            p == g * t,
    ;
    if g > 1 {
        assert(p % g != 0);
    }
}

/// A prime that divides a product with a positive number below it divides
/// the other factor.
pub proof fn lemma_prime_divides_factor(a: int, k: int, p: int)
    requires
        is_prime(p),
        0 < k < p,
        (a * k) % p == 0,
    ensures
        a % p == 0,
{
    lemma_coprime_below(k, p);
    lemma_bezout(k, p);
    let x = crate::math::euclidean::extended_gcd_spec(k, p).0;
    let y = crate::math::euclidean::extended_gcd_spec(k, p).1;
    lemma_fundamental_div_mod(a * k, p);
    let t = (a * k) / p;
    let w = t * x + a * y;
    assert(a == w * p) by (nonlinear_arith)
        requires
            k * x + p * y == 1,
            a * k == p * t,
            w == t * x + a * y,
    ;
    lemma_mod_multiples_basic(w, p);
}

/// A prime divides no factorial of a number below it.
pub proof fn lemma_factorial_residue(k: nat, p: int)
    requires
        is_prime(p),
        k < p,
    ensures
        factorial(k) % (p as nat) != 0,
    decreases k,
{
    if k == 0 {
        lemma_small_mod(1, p as nat);
    } else {
        lemma_factorial_residue((k - 1) as nat, p);
        let prev = factorial((k - 1) as nat) as int;
        if factorial(k) % (p as nat) == 0 {
            assert(factorial(k) == prev * k) by (nonlinear_arith)
                requires
                    factorial(k) == k * prev,
            ;
            lemma_prime_divides_factor(prev, k as int, p);
        }
    }
}

/// A factorial of a number below a prime, times the inverse of its residue,
/// leaves 1.
proof fn lemma_factorial_inverse(k: nat, m: u64)
    requires
        is_prime(m as int),
        m <= i64::MAX,
        k < m,
    ensures
        (factorial(k) * inv_spec(factorial_mod(k, m), m)) % (m as int) == 1,
{
    let p = m as int;
    let f = factorial(k) as int;
    let x = factorial_mod(k, m);
    let i = inv_spec(x, m) as int;
    lemma_factorial_residue(k, p);
    assert(0 < x < m);
    lemma_coprime_below(x as int, p);
    lemma_inv_spec(x, m);
    lemma_small_mod(1, m as nat);
    lemma_mul_mod_noop_general(f, i, p);
    lemma_mul_mod_noop_general(x as int, i, p);
    assert(f % p == x);
    lemma_small_mod(x as nat, m as nat);
}

/// Modulo a prime above `n`, what `ncr` gives is the residue of the number of
/// ways to choose `r` of `n`.
pub proof fn lemma_ncr_binomial(n: nat, r: nat, m: u64)
    requires
        is_prime(m as int),
        m <= i64::MAX,
        r <= n < m,
    ensures
        ncr_spec(n, r, m) == binomial(n, r) % (m as nat),
{
    let p = m as int;
    let c = binomial(n, r) as int;
    let fnn = factorial(n) as int;
    let fr = factorial(r) as int;
    let fs = factorial((n - r) as nat) as int;
    let ir = inv_spec(factorial_mod(r, m), m) as int;
    let is = inv_spec(factorial_mod((n - r) as nat, m), m) as int;
    lemma_binomial_factorials(n, r);
    lemma_factorial_inverse(r, m);
    lemma_factorial_inverse((n - r) as nat, m);
    // what `ncr` gives is the residue of n! * is * ir
    let first = (factorial_mod(n, m) * is) % p;
    lemma_mul_mod_noop_general(fnn, is, p);
    assert(first == (fnn * is) % p);
    lemma_mul_mod_noop_general(fnn * is, ir, p);
    lemma_mul_mod_noop_general(first, ir, p);
    assert(ncr_spec(n, r, m) == (fnn * is * ir) % p);
    // which is c * (r! * ir) * ((n - r)! * is)
    let x = fr * ir;
    let y = fs * is;
    assert(fnn * is * ir == (c * x) * y) by (nonlinear_arith)
        requires
            c * fr * fs == fnn,
            x == fr * ir,
            y == fs * is,
    ;
    lemma_mul_mod_noop_general(c, x, p);
    lemma_mul_mod_noop_general(c * x, y, p);
    lemma_mul_mod_noop_general(c, 1, p);
    assert(c * 1 == c);
}

/// Factorials modulo `MOD`, from which binomial coefficients are read off.
pub struct ChooseMod<const MOD: u64> {
    v: Vec<Modint<MOD>>,
}

impl<const MOD: u64> ChooseMod<MOD> {
    /// The largest `n` of which the table holds the factorial.
    pub closed spec fn size(&self) -> nat {
        (self.v@.len() - 1) as nat
    }

    /// The table holds `i!` modulo `MOD` at each `i`.
    pub closed spec fn wf(&self) -> bool {
        &&& MOD > 0
        &&& self.v@.len() >= 1
        &&& forall|i: int|
            0 <= i < self.v@.len() ==> (#[trigger] self.v@[i]).value == factorial_mod(i as nat, MOD)
    }

    /// The factorials up to `n!`.
    pub fn new(n: usize) -> (c: Self)
        requires
            MOD > 0,
            n < usize::MAX,
            (MOD - 1) * (MOD - 1) <= u64::MAX,
        ensures
            c.wf(),
            c.size() == n,
    {
        let mut v: Vec<Modint<MOD>> = Vec::new();
        v.push(Modint::new(1u64));
        proof {
            assert(factorial(0) == 1);
        }
        let mut i: usize = 0;
        while i < n
            invariant
                MOD > 0,
                (MOD - 1) * (MOD - 1) <= u64::MAX,
                i <= n < usize::MAX,
                v@.len() == i + 1,
                forall|k: int|
                    0 <= k < v@.len() ==> (#[trigger] v@[k]).value == factorial_mod(k as nat, MOD),
            decreases n - i,
        {
            let prev = v[i];
            let ghost f = factorial(i as nat) as int;
            let ghost m = MOD as int;
            proof {
                let a = prev.value as int;
                let b = ((i + 1) as u64 % MOD) as int;
                assert(a * b <= u64::MAX) by (nonlinear_arith)
                    requires
                        0 <= a <= m - 1,
                        0 <= b <= m - 1,
                        (m - 1) * (m - 1) <= u64::MAX,
                ;
                vstd::arithmetic::div_mod::lemma_mul_mod_noop_general(f, (i + 1) as int, m);
                assert(factorial((i + 1) as nat) == (i + 1) * factorial(i as nat));
                assert(f * (i + 1) == (i + 1) * f) by (nonlinear_arith);
            }
            let next = prev * ((i + 1) as u64);
            v.push(next);
            i += 1;
        }
        Self { v }
    }

    /// The number of ways to choose `r` of `n`, modulo `MOD`.
    pub fn ncr(&self, n: usize, r: usize) -> (res: Modint<MOD>)
        requires
            self.wf(),
            MOD <= i64::MAX,
            MOD * MOD <= u64::MAX,
            n >= r ==> n <= self.size(),
        ensures
            res.value == ncr_spec(n as nat, r as nat, MOD),
            is_prime(MOD as int) && n < MOD ==> res.value == binomial(n as nat, r as nat) % (
            MOD as nat),
    {
        proof {
            if is_prime(MOD as int) && n < MOD {
                if n < r {
                    lemma_binomial_none(n as nat, r as nat);
                } else {
                    lemma_ncr_binomial(n as nat, r as nat, MOD);
                }
            }
        }
        if n < r {
            return Modint::new(0u64);
        }
        let first = self.v[n];
        let second = self.v[n - r];
        let third = self.v[r];
        proof {
            let m = MOD as int;
            lemma_inv_bounded(second.value, MOD);
            lemma_inv_bounded(third.value, MOD);
            let a = first.value as int;
            let b = inv_spec(second.value, MOD) as int;
            let c = ((a * b) % m) as int;
            let d = inv_spec(third.value, MOD) as int;
            assert(a * b <= u64::MAX && c * d <= u64::MAX) by (nonlinear_arith)
                requires
                    0 <= a < m,
                    0 <= b <= m,
                    0 <= c < m,
                    0 <= d <= m,
                    m * m <= u64::MAX,
            ;
        }
        first / second / third
    }
}

} // verus!
