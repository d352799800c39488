use crate::utils::integer::{trunc_rem, Integer};
use crate::utils::versatility_functions::{lower_spec, upper_spec, Endpoint};
use std::time::{SystemTime, UNIX_EPOCH};
use vstd::prelude::*;

verus! {

/// Multiplier of the 64-bit linear congruential step.
pub const MUL: u64 = 6_364_136_223_846_793_005;

/// The state after one step: `state * MUL + inc` modulo 2^64.
pub open spec fn advance(state: u64, inc: u64) -> u64 {
    state.wrapping_mul(MUL).wrapping_add(inc)
}

/// `x` rotated right by `rot` bits, for `rot < 32`.
pub open spec fn rotate_right_32(x: u32, rot: u32) -> u32 {
    if rot == 0 {
        x
    } else {
        (x >> rot) | (x << ((32 - rot) as u32))
    }
}

/// The 32 bits that a step hands out, computed from the state before the step:
/// the xor-shifted high bits, rotated by the top five bits.
pub open spec fn output(state: u64) -> u32 {
    rotate_right_32(((state >> 18) ^ (state >> 27)) as u32, (state >> 59) as u32)
}

/// A permuted congruential generator with 64 bits of state and 32 bits of output.
pub struct Pcg32 {
    state: u64,
    inc: u64,
}

/// Nanoseconds since the Unix epoch as `std::time::SystemTime::now` reports them,
/// cut to 64 bits; 0 when the clock stands before the epoch. Nothing is claimed
/// of the value.
#[verifier::external_body]
fn clock_nanos() -> u64 {
    match SystemTime::now().duration_since(UNIX_EPOCH) {
        Ok(d) => d.as_nanos() as u64,
        Err(_) => 0,
    }
}

impl Pcg32 {
    /// The generator's current state.
    pub closed spec fn state(&self) -> u64 {
        self.state
    }

    /// The generator's increment, which selects its stream; always odd.
    pub closed spec fn inc(&self) -> u64 {
        self.inc
    }

    /// The generator that `with_seed` builds from `seed` and `stream_id`.
    pub open spec fn seeded(seed: u64, stream_id: u64) -> (u64, u64) {
        let inc = (stream_id << 1) | 1;
        (advance(seed.wrapping_add(inc), inc), inc)
    }

    /// A generator seeded from the clock.
    pub fn new() -> (pcg: Self)
        ensures
            exists|seed: u64, stream_id: u64| (pcg.state(), pcg.inc()) == Self::seeded(seed, stream_id),
    {
        let seed = clock_nanos();
        let stream_id = clock_nanos();
        Self::with_seed(seed, stream_id)
    }

    /// The generator for `seed` on the stream `stream_id`.
    pub fn with_seed(seed: u64, stream_id: u64) -> (pcg: Self)
        ensures
            (pcg.state(), pcg.inc()) == Self::seeded(seed, stream_id),
    {
        let inc = (stream_id << 1) | 1;
        let state = seed.wrapping_add(inc);
        let mut pcg = Self { state, inc };
        pcg.next();
        pcg
    }

    /// The next 32 bits: the output for the state, which moves on by one step.
    pub fn next(&mut self) -> (r: u32)
        ensures
            final(self).inc() == old(self).inc(),
            final(self).state() == advance(old(self).state(), old(self).inc()),
            r == output(old(self).state()),
    {
        let old_state = self.state;
        self.state = self.state.wrapping_mul(MUL).wrapping_add(self.inc);
        let xorshifted = ((old_state >> 18) ^ (old_state >> 27)) as u32;
        let rot = (old_state >> 59) as u32;
        assert(rot < 32) by (bit_vector)
            requires
                rot == (old_state >> 59) as u32,
        ;
        if rot == 0 {
            xorshifted
        } else {
            (xorshifted >> rot) | (xorshifted << (32 - rot))
        }
    }

    /// The next 32 bits.
    #[inline]
    pub fn next_u32(&mut self) -> (r: u32)
        ensures
            final(self).inc() == old(self).inc(),
            final(self).state() == advance(old(self).state(), old(self).inc()),
            r == output(old(self).state()),
    {
        self.next()
    }

    /// The next 64 bits: two draws of 32, the first in the upper half.
    #[inline]
    pub fn next_u64(&mut self) -> (r: u64)
        ensures
            final(self).inc() == old(self).inc(),
            (r, final(self).state()) == draw_u64(old(self).state(), old(self).inc()),
    {
        let u = self.next_u32() as u64;
        let d = self.next_u32() as u64;
        (u << 32) | d
    }

    /// The next 128 bits: two draws of 64, the first in the upper half.
    #[inline]
    pub fn next_u128(&mut self) -> (r: u128)
        ensures
            final(self).inc() == old(self).inc(),
            (r, final(self).state()) == draw_u128(old(self).state(), old(self).inc()),
    {
        let u = self.next_u64() as u128;
        let d = self.next_u64() as u128;
        (u << 64) | d
    }

    /// A value of the half-open range that `range` describes, which needs both
    /// ends: the first draw that is at least the threshold, reduced by the size
    /// of the range and added to its start. After `MAX_DRAWS` draws below the
    /// threshold it is the start of the range.
    pub fn gen_range<T: PcgRandomInt>(&mut self, range: (Endpoint<T>, Endpoint<T>)) -> (r: T)
        requires
            !(range.0 is Unbounded),
            !(range.1 is Unbounded),
            lower_spec(range.0, 0) < upper_spec(range.1, 0) <= T::max_int(),
            upper_spec(range.1, 0) - lower_spec(range.0, 0) <= T::max_int(),
        ensures
            final(self).inc() == old(self).inc(),
            (r.as_int(), final(self).state()) == sample::<T>(
                old(self).state(),
                old(self).inc(),
                lower_spec(range.0, 0),
                upper_spec(range.1, 0) - lower_spec(range.0, 0),
                MAX_DRAWS as nat,
            ),
            lower_spec(range.0, 0) <= r.as_int() < upper_spec(range.1, 0),
    {
        let zero = T::zero();
        let (l, r) = crate::utils::versatility_functions::unpack_range(range, zero, zero);
        proof {
            l.lemma_range();
        }
        let bound = r.minus(l);
        proof {
            bound.lemma_range();
            T::lemma_wrapping_neg(bound);
            crate::math::euclidean::lemma_trunc_div_rem(
                bound.wrapping_neg_spec().as_int(),
                bound.as_int(),
            );
            vstd::arithmetic::div_mod::lemma_mod_self_0(bound.as_int());
        }
        let threshold = bound.wrapping_neg().rem(bound);
        let ghost low = l.as_int();
        let ghost size = bound.as_int();
        let mut tries: u32 = MAX_DRAWS;
        while tries > 0
            invariant
                self.inc() == old(self).inc(),
                low == l.as_int(),
                size == bound.as_int(),
                low == lower_spec(range.0, 0),
                size == upper_spec(range.1, 0) - lower_spec(range.0, 0),
                size > 0,
                low + size <= T::max_int(),
                threshold.as_int() == threshold_spec::<T>(size),
                threshold.as_int() >= 0,
                sample::<T>(self.state(), self.inc(), low, size, tries as nat) == sample::<T>(
                    old(self).state(),
                    old(self).inc(),
                    low,
                    size,
                    MAX_DRAWS as nat,
                ),
            decreases tries,
        {
            let x = T::get_random(self);
            if !x.less(threshold) {
                proof {
                    x.lemma_range();
                    l.lemma_range();
                    crate::math::euclidean::lemma_trunc_div_rem(x.as_int(), size);
                }
                return l.plus(x.rem(bound));
            }
            tries -= 1;
        }
        l
    }
}

/// How often `gen_range` draws before it gives up on the threshold.
pub const MAX_DRAWS: u32 = 256;

/// Two draws of 32 bits, the first in the upper half: the value and the state
/// after them.
pub open spec fn draw_u64(state: u64, inc: u64) -> (u64, u64) {
    let s1 = advance(state, inc);
    (((output(state) as u64) << 32) | (output(s1) as u64), advance(s1, inc))
}

/// Two draws of 64 bits, the first in the upper half: the value and the state
/// after them.
pub open spec fn draw_u128(state: u64, inc: u64) -> (u128, u64) {
    let first = draw_u64(state, inc);
    let second = draw_u64(first.1, inc);
    (((first.0 as u128) << 64) | (second.0 as u128), second.1)
}

/// The least draw that `gen_range` accepts for a range of `size` values: the
/// two's complement of `size`, reduced by `size`.
pub open spec fn threshold_spec<T: PcgRandomInt>(size: int) -> int {
    if T::min_int() < 0 {
        0
    } else {
        (T::max_int() + 1 - size) % size
    }
}

/// What `gen_range` gives for the range of `size` values from `low`, and the
/// state after it, with `tries` draws left.
pub open spec fn sample<T: PcgRandomInt>(state: u64, inc: u64, low: int, size: int, tries: nat) -> (
    int,
    u64,
)
    decreases tries,
{
    if tries == 0 {
        (low, state)
    } else {
        let drawn = T::draw(state, inc);
        if drawn.0.as_int() >= threshold_spec::<T>(size) {
            (low + trunc_rem(drawn.0.as_int(), size), drawn.1)
        } else {
            sample::<T>(drawn.1, inc, low, size, (tries - 1) as nat)
        }
    }
}

/// The integer types that a generator can draw.
pub trait PcgRandomInt: Integer {
    /// The value that a draw gives in the state `state`, and the state after it.
    spec fn draw(state: u64, inc: u64) -> (Self, u64);

    /// The two's complement of the value.
    spec fn wrapping_neg_spec(self) -> Self;

    /// The two's complement is the negation, but for 0 and for the least value
    /// of a signed type, which are their own, and in an unsigned type it is
    /// what is missing to the number of values of the type.
    proof fn lemma_wrapping_neg(x: Self)
        ensures
            Self::min_int() < 0 && x.as_int() != Self::min_int() ==> x.wrapping_neg_spec().as_int()
                == -x.as_int(),
            Self::min_int() < 0 && x.as_int() == Self::min_int() ==> x.wrapping_neg_spec() == x,
            Self::min_int() == 0 && x.as_int() != 0 ==> x.wrapping_neg_spec().as_int()
                == Self::max_int() + 1 - x.as_int(),
            Self::min_int() == 0 && x.as_int() == 0 ==> x.wrapping_neg_spec() == x,
    ;

    fn get_random(rng: &mut Pcg32) -> (r: Self)
        ensures
            final(rng).inc() == old(rng).inc(),
            (r, final(rng).state()) == Self::draw(old(rng).state(), old(rng).inc()),
    ;

    fn wrapping_neg(self) -> (r: Self)
        ensures
            r == self.wrapping_neg_spec(),
    ;
}

impl PcgRandomInt for u32 {
    open spec fn draw(state: u64, inc: u64) -> (Self, u64) {
        (output(state), advance(state, inc))
    }

    open spec fn wrapping_neg_spec(self) -> Self {
        if self == 0 {
            self
        } else {
            (u32::MAX - self + 1) as u32
        }
    }

    proof fn lemma_wrapping_neg(x: Self) {
    }

    #[inline]
    fn get_random(rng: &mut Pcg32) -> (r: Self) {
        rng.next_u32()
    }

    #[inline]
    fn wrapping_neg(self) -> (r: Self) {
        if self == 0 {
            self
        } else {
            u32::MAX - self + 1
        }
    }
}

impl PcgRandomInt for u64 {
    open spec fn draw(state: u64, inc: u64) -> (Self, u64) {
        draw_u64(state, inc)
    }

    open spec fn wrapping_neg_spec(self) -> Self {
        if self == 0 {
            self
        } else {
            (u64::MAX - self + 1) as u64
        }
    }

    proof fn lemma_wrapping_neg(x: Self) {
    }

    #[inline]
    fn get_random(rng: &mut Pcg32) -> (r: Self) {
        rng.next_u64()
    }

    #[inline]
    fn wrapping_neg(self) -> (r: Self) {
        if self == 0 {
            self
        } else {
            u64::MAX - self + 1
        }
    }
}

impl PcgRandomInt for u128 {
    open spec fn draw(state: u64, inc: u64) -> (Self, u64) {
        draw_u128(state, inc)
    }

    open spec fn wrapping_neg_spec(self) -> Self {
        if self == 0 {
            self
        } else {
            (u128::MAX - self + 1) as u128
        }
    }

    proof fn lemma_wrapping_neg(x: Self) {
    }

    #[inline]
    fn get_random(rng: &mut Pcg32) -> (r: Self) {
        rng.next_u128()
    }

    #[inline]
    fn wrapping_neg(self) -> (r: Self) {
        if self == 0 {
            self
        } else {
            u128::MAX - self + 1
        }
    }
}

impl PcgRandomInt for usize {
    open spec fn draw(state: u64, inc: u64) -> (Self, u64) {
        let drawn = draw_u64(state, inc);
        (drawn.0 as usize, drawn.1)
    }

    open spec fn wrapping_neg_spec(self) -> Self {
        if self == 0 {
            self
        } else {
            (usize::MAX - self + 1) as usize
        }
    }

    proof fn lemma_wrapping_neg(x: Self) {
    }

    #[inline]
    fn get_random(rng: &mut Pcg32) -> (r: Self) {
        #[verifier::truncate] (rng.next_u64() as usize)
    }

    #[inline]
    fn wrapping_neg(self) -> (r: Self) {
        if self == 0 {
            self
        } else {
            usize::MAX - self + 1
        }
    }
}

impl PcgRandomInt for i32 {
    open spec fn draw(state: u64, inc: u64) -> (Self, u64) {
        let drawn = (output(state), advance(state, inc));
        (drawn.0 as i32, drawn.1)
    }

    open spec fn wrapping_neg_spec(self) -> Self {
        if self == i32::MIN {
            self
        } else {
            (-self) as i32
        }
    }

    proof fn lemma_wrapping_neg(x: Self) {
    }

    #[inline]
    fn get_random(rng: &mut Pcg32) -> (r: Self) {
        #[verifier::truncate] (rng.next_u32() as i32)
    }

    #[inline]
    fn wrapping_neg(self) -> (r: Self) {
        if self == i32::MIN {
            self
        } else {
            -self
        }
    }
}

impl PcgRandomInt for i64 {
    open spec fn draw(state: u64, inc: u64) -> (Self, u64) {
        let drawn = draw_u64(state, inc);
        (drawn.0 as i64, drawn.1)
    }

    open spec fn wrapping_neg_spec(self) -> Self {
        if self == i64::MIN {
            self
        } else {
            (-self) as i64
        }
    }

    proof fn lemma_wrapping_neg(x: Self) {
    }

    #[inline]
    fn get_random(rng: &mut Pcg32) -> (r: Self) {
        #[verifier::truncate] (rng.next_u64() as i64)
    }

    #[inline]
    fn wrapping_neg(self) -> (r: Self) {
        if self == i64::MIN {
            self
        } else {
            -self
        }
    }
}

impl PcgRandomInt for i128 {
    open spec fn draw(state: u64, inc: u64) -> (Self, u64) {
        let drawn = draw_u128(state, inc);
        (drawn.0 as i128, drawn.1)
    }

    open spec fn wrapping_neg_spec(self) -> Self {
        if self == i128::MIN {
            self
        } else {
            (-self) as i128
        }
    }

    proof fn lemma_wrapping_neg(x: Self) {
    }

    #[inline]
    fn get_random(rng: &mut Pcg32) -> (r: Self) {
        #[verifier::truncate] (rng.next_u128() as i128)
    }

    #[inline]
    fn wrapping_neg(self) -> (r: Self) {
        if self == i128::MIN {
            self
        } else {
            -self
        }
    }
}

} // verus!
