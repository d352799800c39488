use crate::misc::rand::Pcg32;
use crate::utils::iterlibs::collect::chars_of;
use crate::utils::versatility_functions::{lower_spec, unpack_range, upper_spec, Endpoint};
use vstd::prelude::*;
use vstd::string::StringSliceAdditionalSpecFns;

verus! {

/// The modulus of the hash, the prime `2^61 - 1`.
pub const MODULO: u128 = 2305843009213693951;

/// The polynomial hash of `text` to the base `base`.
pub open spec fn hash_of(text: Seq<char>, base: int) -> int
    decreases text.len(),
{
    if text.len() == 0 {
        0
    } else {
        (hash_of(text.drop_last(), base) * base + text.last() as int) % (MODULO as int)
    }
}

/// The `k`-th power of `base`, reduced after every multiplication.
pub open spec fn power_of(base: int, k: nat) -> int
    decreases k,
{
    if k == 0 {
        1
    } else {
        (power_of(base, (k - 1) as nat) * base) % (MODULO as int)
    }
}

/// The hash of the first `i` characters of `text`; 0 where `text` has fewer.
pub open spec fn prefix_at(text: Seq<char>, base: int, i: int) -> int {
    if 0 <= i <= text.len() {
        hash_of(text.take(i), base)
    } else {
        0
    }
}

/// The `i`-th power of `base`, as far as `text` has characters; 1 beyond.
pub open spec fn power_at(text: Seq<char>, base: int, i: int) -> int {
    if 0 <= i <= text.len() {
        power_of(base, i as nat)
    } else {
        1
    }
}

/// What `hash` gives for the positions `l..r`: the hash of the first `r`
/// characters, less that of the first `l` moved up by `r - l` places.
pub open spec fn range_hash(text: Seq<char>, base: int, l: int, r: int) -> int {
    (prefix_at(text, base, r) + MODULO - (power_at(text, base, r - l) * prefix_at(text, base, l)) % (
    MODULO as int)) % (MODULO as int)
}

/// A text has at least as many bytes as characters.
pub proof fn lemma_bytes_cover_chars(text: Seq<char>)
    ensures
        vstd::utf8::encode_utf8(text).len() >= text.len(),
    decreases text.len(),
{
    if text.len() > 0 {
        lemma_bytes_cover_chars(text.drop_first());
    }
}

/// A hash is a residue.
pub proof fn lemma_hash_bounds(text: Seq<char>, base: int, k: nat)
    ensures
        0 <= hash_of(text, base) < MODULO,
        0 <= power_of(base, k) < MODULO,
{
    if text.len() > 0 {
        vstd::arithmetic::div_mod::lemma_mod_bound(
            hash_of(text.drop_last(), base) * base + text.last() as int,
            MODULO as int,
        );
    }
    if k > 0 {
        vstd::arithmetic::div_mod::lemma_mod_bound(
            power_of(base, (k - 1) as nat) * base,
            MODULO as int,
        );
    }
}

/// The hash of `text` before any reduction: the value of the polynomial whose
/// coefficients are the characters, at `base`.
pub open spec fn plain_hash(text: Seq<char>, base: int) -> int
    decreases text.len(),
{
    if text.len() == 0 {
        0
    } else {
        plain_hash(text.drop_last(), base) * base + text.last() as int
    }
}

/// `base` to the power `k`.
pub open spec fn plain_power(base: int, k: nat) -> int
    decreases k,
{
    if k == 0 {
        1
    } else {
        plain_power(base, (k - 1) as nat) * base
    }
}

/// The hash and the power are the residues of the polynomial's value and of
/// the plain power.
pub proof fn lemma_hash_residue(text: Seq<char>, base: int, k: nat)
    ensures
        hash_of(text, base) == plain_hash(text, base) % (MODULO as int),
        power_of(base, k) == plain_power(base, k) % (MODULO as int),
    decreases text.len() + k,
{
    let m = MODULO as int;
    if text.len() > 0 {
        lemma_hash_residue(text.drop_last(), base, 0);
        let h = plain_hash(text.drop_last(), base);
        let c = text.last() as int;
        vstd::arithmetic::div_mod::lemma_mul_mod_noop_left(h, base, m);
        vstd::arithmetic::div_mod::lemma_add_mod_noop_right(c, h * base, m);
        vstd::arithmetic::div_mod::lemma_add_mod_noop_right(c, (h % m) * base, m);
    }
    if k > 0 {
        lemma_hash_residue(Seq::empty(), base, (k - 1) as nat);
        vstd::arithmetic::div_mod::lemma_mul_mod_noop_left(
            plain_power(base, (k - 1) as nat),
            base,
            m,
        );
    }
}

/// The value of the polynomial of a text splits at any position: it is the
/// value for what stands before the position, times the power of the base for
/// the rest's length, plus the value for the rest.
pub proof fn lemma_plain_split(text: Seq<char>, base: int, l: int, r: int)
    requires
        0 <= l <= r <= text.len(),
    ensures
        plain_hash(text.take(r), base) == plain_hash(text.take(l), base) * plain_power(
            base,
            (r - l) as nat,
        ) + plain_hash(text.subrange(l, r), base),
    decreases r - l,
{
    if l == r {
        assert(text.subrange(l, r) =~= Seq::<char>::empty());
    } else {
        lemma_plain_split(text, base, l, r - 1);
        assert(text.take(r).drop_last() =~= text.take(r - 1));
        assert(text.subrange(l, r).drop_last() =~= text.subrange(l, r - 1));
        let a = plain_hash(text.take(l), base);
        let p = plain_power(base, (r - 1 - l) as nat);
        let s = plain_hash(text.subrange(l, r - 1), base);
        let c = text[r - 1] as int;
        assert(text.take(r).last() == text[r - 1]);
        assert(text.subrange(l, r).last() == text[r - 1]);
        assert(plain_power(base, (r - l) as nat) == p * base);
        assert((a * p + s) * base + c == a * (p * base) + (s * base + c)) by (nonlinear_arith);
    }
}

/// The hash of a range of characters is the hash of the text that stands
/// there.
pub proof fn lemma_range_hash(text: Seq<char>, base: int, l: int, r: int)
    requires
        0 <= l <= r <= text.len(),
    ensures
        range_hash(text, base, l, r) == hash_of(text.subrange(l, r), base),
{
    let m = MODULO as int;
    let raw_t = plain_hash(text.take(r), base);
    let raw_a = plain_hash(text.take(l), base);
    let raw_p = plain_power(base, (r - l) as nat);
    let raw_s = plain_hash(text.subrange(l, r), base);
    lemma_plain_split(text, base, l, r);
    lemma_hash_residue(text.take(r), base, (r - l) as nat);
    lemma_hash_residue(text.take(l), base, 0);
    lemma_hash_residue(text.subrange(l, r), base, 0);
    let x = raw_p * raw_a;
    assert(raw_t == x + raw_s) by (nonlinear_arith)
        requires
            raw_t == raw_a * raw_p + raw_s,
            x == raw_p * raw_a,
    ;
    vstd::arithmetic::div_mod::lemma_mul_mod_noop_general(raw_p, raw_a, m);
    // the range's hash is (t' + m - x') % m, with t' and x' the residues
    vstd::arithmetic::div_mod::lemma_fundamental_div_mod(raw_t, m);
    vstd::arithmetic::div_mod::lemma_fundamental_div_mod(x, m);
    let k = 1 - raw_t / m + x / m;
    assert(raw_t % m + m - x % m == raw_s + m * k) by (nonlinear_arith)
        requires
            raw_t == x + raw_s,
            raw_t == m * (raw_t / m) + raw_t % m,
            x == m * (x / m) + x % m,
            k == 1 - raw_t / m + x / m,
    ;
    vstd::arithmetic::div_mod::lemma_mod_multiples_vanish(k, raw_s, m);
    assert(m * k + raw_s == raw_s + m * k);
}

/// The number of the character `c`.
fn char_code(c: char) -> (r: u128)
    ensures
        r == c as int,
        r <= 0x10FFFF,
{
    (c as u32) as u128
}

/// Hashes of the beginnings of a text, from which the hash of any part of it
/// is computed.
pub struct RollingHash {
    n: usize,
    pub base: u128,
    prefix: Vec<u128>,
    power: Vec<u128>,
    text: Ghost<Seq<char>>,
}

impl RollingHash {
    /// The base of the hash.
    pub closed spec fn base_value(&self) -> u128 {
        self.base
    }

    /// The text that was hashed.
    pub closed spec fn text(&self) -> Seq<char> {
        self.text@
    }

    /// The number of bytes of the text, which is the end of a range without one.
    pub closed spec fn size(&self) -> nat {
        self.n as nat
    }

    /// The representation invariant: the tables hold the hashes and the powers.
    pub closed spec fn wf(&self) -> bool {
        &&& self.text@.len() <= self.n
        &&& self.prefix@.len() == self.n + 1
        &&& self.power@.len() == self.n + 1
        &&& forall|i: int|
            0 <= i <= self.n ==> #[trigger] self.prefix@[i] == prefix_at(
                self.text@,
                self.base as int,
                i,
            )
        &&& forall|i: int|
            0 <= i <= self.n ==> #[trigger] self.power@[i] == power_at(
                self.text@,
                self.base as int,
                i,
            )
    }

    /// The hashes of `s` to the base `base`, or to a base drawn from the clock
    /// between 100 and `u32::MAX`.
    pub fn new(s: &String, base: Option<u128>) -> (h: Self)
        requires
            s@.len() > 0 ==> (base matches Some(b) ==> b * (MODULO - 1) + 0x10FFFF <= u128::MAX),
            vstd::utf8::encode_utf8(s@).len() < usize::MAX,
        ensures
            h.wf(),
            h.text() == s@,
            h.size() == vstd::utf8::encode_utf8(s@).len(),
            base matches Some(b) ==> h.base_value() == b,
            base is None ==> 100 <= h.base_value() < u32::MAX,
    {
        let mut rng = Pcg32::new();
        let base = if let Some(val) = base {
            val
        } else {
            rng.gen_range((Endpoint::Included(100u128), Endpoint::Excluded(u32::MAX as u128)))
        };
        let n = s.as_str().len();
        let chars = chars_of(s);
        proof {
            lemma_bytes_cover_chars(s@);
        }
        let mut prefix: Vec<u128> = Vec::new();
        let mut power: Vec<u128> = Vec::new();
        let mut k: usize = 0;
        while k < n + 1
            invariant
                k <= n + 1,
                n < usize::MAX,
                prefix@.len() == k,
                power@.len() == k,
                forall|i: int| 0 <= i < k ==> #[trigger] prefix@[i] == 0,
                forall|i: int| 0 <= i < k ==> #[trigger] power@[i] == 1,
            decreases n + 1 - k,
        {
            prefix.push(0);
            power.push(1);
            k += 1;
        }
        let ghost text = s@;
        let ghost b = base as int;
        let mut i: usize = 0;
        proof {
            assert(text.take(0) =~= Seq::<char>::empty());
        }
        while i < chars.len()
            invariant
                i <= chars@.len() <= n < usize::MAX,
                chars@ == text,
                b == base as int,
                text.len() > 0 ==> base * (MODULO - 1) + 0x10FFFF <= u128::MAX,
                prefix@.len() == n + 1,
                power@.len() == n + 1,
                forall|j: int| 0 <= j <= i ==> #[trigger] prefix@[j] == hash_of(text.take(j), b),
                forall|j: int| 0 <= j <= i ==> #[trigger] power@[j] == power_of(b, j as nat),
                forall|j: int| i < j <= n ==> #[trigger] prefix@[j] == 0,
                forall|j: int| i < j <= n ==> #[trigger] power@[j] == 1,
            decreases chars@.len() - i,
        {
            let c = chars[i];
            let ci = char_code(c);
            proof {
                lemma_hash_bounds(text.take(i as int), b, i as nat);
                assert(text.take(i + 1).drop_last() =~= text.take(i as int));
                assert(text.take(i + 1).last() == c);
                assert(prefix@[i as int] * base + ci <= u128::MAX && power@[i as int] * base
                    <= u128::MAX) by (nonlinear_arith)
                    requires
                        0 <= prefix@[i as int] <= MODULO - 1,
                        0 <= power@[i as int] <= MODULO - 1,
                        ci <= 0x10FFFF,
                        base * (MODULO - 1) + 0x10FFFF <= u128::MAX,
                ;
            }
            prefix[i + 1] = (prefix[i] * base + ci) % MODULO;
            power[i + 1] = (power[i] * base) % MODULO;
            i += 1;
        }
        Self { n, base, prefix, power, text: Ghost(text) }
    }

    /// The hash of the part of the text at the positions of `range`; a range
    /// without a start begins at the first position, and one without an end
    /// stops behind the last byte.
    pub fn hash(&self, range: (Endpoint<usize>, Endpoint<usize>)) -> (res: u128)
        requires
            self.wf(),
            lower_spec(range.0, 0) <= upper_spec(range.1, self.size() as int) <= self.size(),
        ensures
            res == range_hash(
                self.text(),
                self.base_value() as int,
                lower_spec(range.0, 0),
                upper_spec(range.1, self.size() as int),
            ),
            upper_spec(range.1, self.size() as int) <= self.text().len() ==> res == hash_of(
                self.text().subrange(
                    lower_spec(range.0, 0),
                    upper_spec(range.1, self.size() as int),
                ),
                self.base_value() as int,
            ),
    {
        let (l, r) = unpack_range(range, 0usize, self.n);
        proof {
            if r <= self.text@.len() {
                lemma_range_hash(self.text@, self.base as int, l as int, r as int);
            }
            let t = self.text@;
            let b = self.base as int;
            if r <= t.len() {
                lemma_hash_bounds(t.take(r as int), b, (r - l) as nat);
            }
            if l <= t.len() {
                lemma_hash_bounds(t.take(l as int), b, (r - l) as nat);
            }
            assert(self.prefix@[r as int] < MODULO);
            assert(self.prefix@[l as int] < MODULO);
            assert(self.power@[r - l] < MODULO);
            assert(self.power@[r - l] * self.prefix@[l as int] <= u128::MAX) by (nonlinear_arith)
                requires
                    0 <= self.power@[r - l] < MODULO,
                    0 <= self.prefix@[l as int] < MODULO,
            ;
            vstd::arithmetic::div_mod::lemma_mod_bound(
                self.power@[r - l] * self.prefix@[l as int],
                MODULO as int,
            );
        }
        let res = self.prefix[r] + MODULO - ((self.power[r - l] * self.prefix[l]) % MODULO);
        return res % MODULO;
    }
}

} // verus!
