use vstd::prelude::*;

verus! {

/// Quotient of the division that rounds toward zero, as the machine divides.
pub open spec fn trunc_div(a: int, b: int) -> int {
    if a >= 0 {
        a / b
    } else {
        -((-a) / b)
    }
}

/// Remainder of the division that rounds toward zero; it has the sign of `a`.
pub open spec fn trunc_rem(a: int, b: int) -> int {
    if a >= 0 {
        a % b
    } else {
        -((-a) % b)
    }
}

/// Distance between two integers.
pub open spec fn abs_diff_spec(a: int, b: int) -> int {
    if a >= b {
        a - b
    } else {
        b - a
    }
}

/// Euclidean division of a number that is not negative: the quotient is no
/// larger than the number, and the remainder is smaller than the divisor.
pub proof fn lemma_div_bound(x: int, b: int)
    requires
        x >= 0,
        b != 0,
    ensures
        -x <= x / b <= x,
        0 <= x % b,
        b > 0 ==> x % b < b,
        b < 0 ==> x % b < -b,
        x == b * (x / b) + x % b,
{
    if b > 0 {
        vstd::arithmetic::div_mod::lemma_fundamental_div_mod(x, b);
        vstd::arithmetic::div_mod::lemma_mod_bound(x, b);
        assert(-x <= x / b <= x) by (nonlinear_arith)
            requires
                x == b * (x / b) + x % b,
                0 <= x % b < b,
                b > 0,
                x >= 0,
        ;
    } else {
        let q = x / b;
        let r = x % b;
        assert(x == b * q + r && 0 <= r < -b) by (nonlinear_arith)
            requires
                q == x / b,
                r == x % b,
                b < 0,
        ;
        assert(-x <= q <= x) by (nonlinear_arith)
            requires
                x == b * q + r,
                0 <= r < -b,
                b < 0,
                x >= 0,
        ;
    }
}

/// Division that rounds toward zero stays within the bounds of a signed type,
/// but for the least value divided by -1.
pub proof fn lemma_trunc_div_in_range(a: int, b: int, max: int)
    requires
        -max - 1 <= a <= max,
        -max - 1 <= b <= max,
        b != 0,
        !(a == -max - 1 && b == -1),
    ensures
        -max - 1 <= trunc_div(a, b) <= max,
        -max - 1 <= trunc_rem(a, b) <= max,
        a >= 0 ==> -max - 1 <= a / b <= max,
        a < 0 ==> -max - 1 <= (-a) / b <= max + 1 && -max - 1 <= (-a) % b <= max,
{
    let x = if a >= 0 {
        a
    } else {
        -a
    };
    lemma_div_bound(x, b);
    if a == -max - 1 {
        let q = x / b;
        let r = x % b;
        assert(q != -x) by (nonlinear_arith)
            requires
                x == b * q + r,
                0 <= r,
                b > 0 ==> r < b,
                b < 0 ==> r < -b,
                b != 0,
                b != -1,
                x >= 1,
        ;
    }
}

/// `v` wrapped around into the bounds `min..=max`.
pub open spec fn wrap_spec(v: int, min: int, max: int) -> int {
    (v - min) % (max - min + 1) + min
}

/// Wrapping around moves a value that lies less than one width outside the
/// bounds by one width, and leaves a value within them as it is.
pub proof fn lemma_wrap(v: int, min: int, max: int)
    requires
        min <= max,
        min - (max - min + 1) <= v <= max + (max - min + 1),
    ensures
        wrap_spec(v, min, max) == if v > max {
            v - (max - min + 1)
        } else if v < min {
            v + (max - min + 1)
        } else {
            v
        },
{
    let width = max - min + 1;
    if v > max {
        vstd::arithmetic::div_mod::lemma_fundamental_div_mod_converse(v - min, width, 1, v - min - width);
    } else if v < min {
        vstd::arithmetic::div_mod::lemma_fundamental_div_mod_converse(v - min, width, -1, v - min + width);
    } else {
        vstd::arithmetic::div_mod::lemma_fundamental_div_mod_converse(v - min, width, 0, v - min);
    }
}

/// The primitive integer types, seen through the integer that a value stands for.
pub trait Integer: Copy + Sized {
    /// The integer that the value stands for.
    spec fn as_int(self) -> int;

    /// The least integer of the type.
    spec fn min_int() -> int;

    /// The greatest integer of the type.
    spec fn max_int() -> int;

    /// Every value lies within the type's bounds, which include 0 to 127.
    proof fn lemma_range(self)
        ensures
            Self::min_int() <= self.as_int() <= Self::max_int(),
            Self::min_int() <= 0,
            127 <= Self::max_int(),
            Self::min_int() == 0 || Self::min_int() == -Self::max_int() - 1,
    ;

    /// The bounds include 0 to 127, and the least integer is 0 or the negative
    /// of the greatest, less 1.
    proof fn lemma_bounds()
        ensures
            Self::min_int() <= 0,
            127 <= Self::max_int(),
            Self::min_int() == 0 || Self::min_int() == -Self::max_int() - 1,
    ;

    /// Two values that stand for the same integer are the same value.
    proof fn lemma_injective(self, other: Self)
        requires
            self.as_int() == other.as_int(),
        ensures
            self == other,
    ;

    /// Every integer within the bounds is the integer of some value.
    proof fn lemma_values(v: int)
        requires
            Self::min_int() <= v <= Self::max_int(),
        ensures
            exists|x: Self| x.as_int() == v,
    ;

    /// The greatest value of the type.
    fn max_value() -> (r: Self)
        ensures
            r.as_int() == Self::max_int(),
    ;

    /// The least value of the type.
    fn min_value() -> (r: Self)
        ensures
            r.as_int() == Self::min_int(),
    ;

    fn zero() -> (r: Self)
        ensures
            r.as_int() == 0,
    ;

    /// A quarter of the greatest value: large, and safe to add to itself.
    fn inf() -> (r: Self)
        ensures
            r.as_int() == Self::max_int() / 4,
    ;

    fn from_i32(val: i32) -> (r: Self)
        requires
            Self::min_int() <= val <= Self::max_int(),
        ensures
            r.as_int() == val,
    ;

    fn from_u64(val: u64) -> (r: Self)
        requires
            val <= Self::max_int(),
        ensures
            r.as_int() == val,
    ;

    fn abs_diff(self, other: Self) -> (r: Self)
        requires
            abs_diff_spec(self.as_int(), other.as_int()) <= Self::max_int(),
        ensures
            r.as_int() == abs_diff_spec(self.as_int(), other.as_int()),
    ;

    /// `self + rhs`, where the sum is within the type's bounds.
    fn plus(self, rhs: Self) -> (r: Self)
        requires
            Self::min_int() <= self.as_int() + rhs.as_int() <= Self::max_int(),
        ensures
            r.as_int() == self.as_int() + rhs.as_int(),
    ;

    /// `self - rhs`, where the difference is within the type's bounds.
    fn minus(self, rhs: Self) -> (r: Self)
        requires
            Self::min_int() <= self.as_int() - rhs.as_int() <= Self::max_int(),
        ensures
            r.as_int() == self.as_int() - rhs.as_int(),
    ;

    /// `self + rhs`, wrapped around the type's bounds.
    fn wrapping_plus(self, rhs: Self) -> (r: Self)
        ensures
            r.as_int() == wrap_spec(self.as_int() + rhs.as_int(), Self::min_int(), Self::max_int()),
    ;

    /// `self * rhs`, where the product is within the type's bounds.
    fn times(self, rhs: Self) -> (r: Self)
        requires
            Self::min_int() <= self.as_int() * rhs.as_int() <= Self::max_int(),
        ensures
            r.as_int() == self.as_int() * rhs.as_int(),
    ;

    /// `self / rhs`, rounded toward zero.
    fn quot(self, rhs: Self) -> (r: Self)
        requires
            rhs.as_int() != 0,
            !(self.as_int() == -Self::max_int() - 1 && rhs.as_int() == -1),
        ensures
            r.as_int() == trunc_div(self.as_int(), rhs.as_int()),
    ;

    /// `self % rhs`, with the sign of `self`.
    fn rem(self, rhs: Self) -> (r: Self)
        requires
            rhs.as_int() != 0,
            !(self.as_int() == -Self::max_int() - 1 && rhs.as_int() == -1),
        ensures
            r.as_int() == trunc_rem(self.as_int(), rhs.as_int()),
    ;

    /// `self >> 1`: half of `self`, rounded down.
    fn half(self) -> (r: Self)
        ensures
            r.as_int() == self.as_int() / 2,
    ;

    /// `self < rhs`.
    fn less(self, rhs: Self) -> (r: bool)
        ensures
            r == (self.as_int() < rhs.as_int()),
    ;

    /// `self == rhs`.
    fn same(self, rhs: Self) -> (r: bool)
        ensures
            r == (self.as_int() == rhs.as_int()),
    ;

    /// The value cut to the bits of `u8`, as `as u8` does.
    fn to_u8(&self) -> (r: u8)
        ensures
            r == self.as_int() as u8,
    ;

    /// The value cut to the bits of `u32`, as `as u32` does.
    fn to_u32(&self) -> (r: u32)
        ensures
            r == self.as_int() as u32,
    ;

    /// The value cut to the bits of `u64`, as `as u64` does.
    fn to_u64(&self) -> (r: u64)
        ensures
            r == self.as_int() as u64,
    ;

    /// The value cut to the bits of `u128`, as `as u128` does.
    fn to_u128(&self) -> (r: u128)
        ensures
            r == self.as_int() as u128,
    ;

    /// The value cut to the bits of `usize`, as `as usize` does.
    fn to_usize(&self) -> (r: usize)
        ensures
            r == self.as_int() as usize,
    ;

    /// The value cut to the bits of `i8`, as `as i8` does.
    fn to_i8(&self) -> (r: i8)
        ensures
            r == self.as_int() as i8,
    ;

    /// The value cut to the bits of `i32`, as `as i32` does.
    fn to_i32(&self) -> (r: i32)
        ensures
            r == self.as_int() as i32,
    ;

    /// The value cut to the bits of `i64`, as `as i64` does.
    fn to_i64(&self) -> (r: i64)
        ensures
            r == self.as_int() as i64,
    ;

    /// The value cut to the bits of `i128`, as `as i128` does.
    fn to_i128(&self) -> (r: i128)
        ensures
            r == self.as_int() as i128,
    ;

    /// The value cut to the bits of `isize`, as `as isize` does.
    fn to_isize(&self) -> (r: isize)
        ensures
            r == self.as_int() as isize,
    ;
}

impl Integer for u8 {
    open spec fn as_int(self) -> int {
        self as int
    }

    open spec fn min_int() -> int {
        u8::MIN as int
    }

    open spec fn max_int() -> int {
        u8::MAX as int
    }

    proof fn lemma_range(self) {
    }

    proof fn lemma_bounds() {
    }

    proof fn lemma_injective(self, other: Self) {
    }

    proof fn lemma_values(v: int) {
        assert((v as u8).as_int() == v);
    }

    fn max_value() -> (r: Self) {
        u8::MAX
    }

    fn min_value() -> (r: Self) {
        u8::MIN
    }

    #[inline(always)]
    fn zero() -> (r: Self) {
        0
    }

    #[inline(always)]
    fn inf() -> (r: Self) {
        let r: u8 = u8::MAX >> 2;
        assert(u8::MAX >> 2 == u8::MAX / 4) by (bit_vector);
        r
    }

    #[inline(always)]
    fn from_i32(val: i32) -> (r: Self) {
        val as u8
    }

    #[inline(always)]
    fn from_u64(val: u64) -> (r: Self) {
        val as u8
    }

    #[inline(always)]
    fn abs_diff(self, other: Self) -> (r: Self) {
        if self >= other {
            self - other
        } else {
            other - self
        }
    }

    #[inline]
    fn plus(self, rhs: Self) -> (r: Self) {
        self + rhs
    }

    #[inline]
    fn minus(self, rhs: Self) -> (r: Self) {
        self - rhs
    }

    #[inline]
    fn wrapping_plus(self, rhs: Self) -> (r: Self) {
        proof {
            lemma_wrap(self + rhs, u8::MIN as int, u8::MAX as int);
        }
        self.wrapping_add(rhs)
    }

    #[inline]
    fn times(self, rhs: Self) -> (r: Self) {
        self * rhs
    }

    #[inline]
    fn quot(self, rhs: Self) -> (r: Self) {
        self / rhs
    }

    #[inline]
    fn rem(self, rhs: Self) -> (r: Self) {
        self % rhs
    }

    #[inline]
    fn half(self) -> (r: Self) {
        let r: u8 = self >> 1;
        assert(self >> 1 == self / 2) by (bit_vector);
        r
    }

    #[inline]
    fn less(self, rhs: Self) -> (r: bool) {
        self < rhs
    }

    #[inline]
    fn same(self, rhs: Self) -> (r: bool) {
        self == rhs
    }

    #[inline]
    fn to_u8(&self) -> (r: u8) {
        *self
    }

    #[inline]
    fn to_u32(&self) -> (r: u32) {
        #[verifier::truncate] (*self as u32)
    }

    #[inline]
    fn to_u64(&self) -> (r: u64) {
        #[verifier::truncate] (*self as u64)
    }

    #[inline]
    fn to_u128(&self) -> (r: u128) {
        #[verifier::truncate] (*self as u128)
    }

    #[inline]
    fn to_usize(&self) -> (r: usize) {
        #[verifier::truncate] (*self as usize)
    }

    #[inline]
    fn to_i8(&self) -> (r: i8) {
        #[verifier::truncate] (*self as i8)
    }

    #[inline]
    fn to_i32(&self) -> (r: i32) {
        #[verifier::truncate] (*self as i32)
    }

    #[inline]
    fn to_i64(&self) -> (r: i64) {
        #[verifier::truncate] (*self as i64)
    }

    #[inline]
    fn to_i128(&self) -> (r: i128) {
        #[verifier::truncate] (*self as i128)
    }

    #[inline]
    fn to_isize(&self) -> (r: isize) {
        #[verifier::truncate] (*self as isize)
    }
}

impl Integer for u32 {
    open spec fn as_int(self) -> int {
        self as int
    }

    open spec fn min_int() -> int {
        u32::MIN as int
    }

    open spec fn max_int() -> int {
        u32::MAX as int
    }

    proof fn lemma_range(self) {
    }

    proof fn lemma_bounds() {
    }

    proof fn lemma_injective(self, other: Self) {
    }

    proof fn lemma_values(v: int) {
        assert((v as u32).as_int() == v);
    }

    fn max_value() -> (r: Self) {
        u32::MAX
    }

    fn min_value() -> (r: Self) {
        u32::MIN
    }

    #[inline(always)]
    fn zero() -> (r: Self) {
        0
    }

    #[inline(always)]
    fn inf() -> (r: Self) {
        let r: u32 = u32::MAX >> 2;
        assert(u32::MAX >> 2 == u32::MAX / 4) by (bit_vector);
        r
    }

    #[inline(always)]
    fn from_i32(val: i32) -> (r: Self) {
        val as u32
    }

    #[inline(always)]
    fn from_u64(val: u64) -> (r: Self) {
        val as u32
    }

    #[inline(always)]
    fn abs_diff(self, other: Self) -> (r: Self) {
        if self >= other {
            self - other
        } else {
            other - self
        }
    }

    #[inline]
    fn plus(self, rhs: Self) -> (r: Self) {
        self + rhs
    }

    #[inline]
    fn minus(self, rhs: Self) -> (r: Self) {
        self - rhs
    }

    #[inline]
    fn wrapping_plus(self, rhs: Self) -> (r: Self) {
        proof {
            lemma_wrap(self + rhs, u32::MIN as int, u32::MAX as int);
        }
        self.wrapping_add(rhs)
    }

    #[inline]
    fn times(self, rhs: Self) -> (r: Self) {
        self * rhs
    }

    #[inline]
    fn quot(self, rhs: Self) -> (r: Self) {
        self / rhs
    }

    #[inline]
    fn rem(self, rhs: Self) -> (r: Self) {
        self % rhs
    }

    #[inline]
    fn half(self) -> (r: Self) {
        let r: u32 = self >> 1;
        assert(self >> 1 == self / 2) by (bit_vector);
        r
    }

    #[inline]
    fn less(self, rhs: Self) -> (r: bool) {
        self < rhs
    }

    #[inline]
    fn same(self, rhs: Self) -> (r: bool) {
        self == rhs
    }

    #[inline]
    fn to_u8(&self) -> (r: u8) {
        #[verifier::truncate] (*self as u8)
    }

    #[inline]
    fn to_u32(&self) -> (r: u32) {
        *self
    }

    #[inline]
    fn to_u64(&self) -> (r: u64) {
        #[verifier::truncate] (*self as u64)
    }

    #[inline]
    fn to_u128(&self) -> (r: u128) {
        #[verifier::truncate] (*self as u128)
    }

    #[inline]
    fn to_usize(&self) -> (r: usize) {
        #[verifier::truncate] (*self as usize)
    }

    #[inline]
    fn to_i8(&self) -> (r: i8) {
        #[verifier::truncate] (*self as i8)
    }

    #[inline]
    fn to_i32(&self) -> (r: i32) {
        #[verifier::truncate] (*self as i32)
    }

    #[inline]
    fn to_i64(&self) -> (r: i64) {
        #[verifier::truncate] (*self as i64)
    }

    #[inline]
    fn to_i128(&self) -> (r: i128) {
        #[verifier::truncate] (*self as i128)
    }

    #[inline]
    fn to_isize(&self) -> (r: isize) {
        #[verifier::truncate] (*self as isize)
    }
}

impl Integer for u64 {
    open spec fn as_int(self) -> int {
        self as int
    }

    open spec fn min_int() -> int {
        u64::MIN as int
    }

    open spec fn max_int() -> int {
        u64::MAX as int
    }

    proof fn lemma_range(self) {
    }

    proof fn lemma_bounds() {
    }

    proof fn lemma_injective(self, other: Self) {
    }

    proof fn lemma_values(v: int) {
        assert((v as u64).as_int() == v);
    }

    fn max_value() -> (r: Self) {
        u64::MAX
    }

    fn min_value() -> (r: Self) {
        u64::MIN
    }

    #[inline(always)]
    fn zero() -> (r: Self) {
        0
    }

    #[inline(always)]
    fn inf() -> (r: Self) {
        let r: u64 = u64::MAX >> 2;
        assert(u64::MAX >> 2 == u64::MAX / 4) by (bit_vector);
        r
    }

    #[inline(always)]
    fn from_i32(val: i32) -> (r: Self) {
        val as u64
    }

    #[inline(always)]
    fn from_u64(val: u64) -> (r: Self) {
        val as u64
    }

    #[inline(always)]
    fn abs_diff(self, other: Self) -> (r: Self) {
        if self >= other {
            self - other
        } else {
            other - self
        }
    }

    #[inline]
    fn plus(self, rhs: Self) -> (r: Self) {
        self + rhs
    }

    #[inline]
    fn minus(self, rhs: Self) -> (r: Self) {
        self - rhs
    }

    #[inline]
    fn wrapping_plus(self, rhs: Self) -> (r: Self) {
        proof {
            lemma_wrap(self + rhs, u64::MIN as int, u64::MAX as int);
        }
        self.wrapping_add(rhs)
    }

    #[inline]
    fn times(self, rhs: Self) -> (r: Self) {
        self * rhs
    }

    #[inline]
    fn quot(self, rhs: Self) -> (r: Self) {
        self / rhs
    }

    #[inline]
    fn rem(self, rhs: Self) -> (r: Self) {
        self % rhs
    }

    #[inline]
    fn half(self) -> (r: Self) {
        let r: u64 = self >> 1;
        assert(self >> 1 == self / 2) by (bit_vector);
        r
    }

    #[inline]
    fn less(self, rhs: Self) -> (r: bool) {
        self < rhs
    }

    #[inline]
    fn same(self, rhs: Self) -> (r: bool) {
        self == rhs
    }

    #[inline]
    fn to_u8(&self) -> (r: u8) {
        #[verifier::truncate] (*self as u8)
    }

    #[inline]
    fn to_u32(&self) -> (r: u32) {
        #[verifier::truncate] (*self as u32)
    }

    #[inline]
    fn to_u64(&self) -> (r: u64) {
        *self
    }

    #[inline]
    fn to_u128(&self) -> (r: u128) {
        #[verifier::truncate] (*self as u128)
    }

    #[inline]
    fn to_usize(&self) -> (r: usize) {
        #[verifier::truncate] (*self as usize)
    }

    #[inline]
    fn to_i8(&self) -> (r: i8) {
        #[verifier::truncate] (*self as i8)
    }

    #[inline]
    fn to_i32(&self) -> (r: i32) {
        #[verifier::truncate] (*self as i32)
    }

    #[inline]
    fn to_i64(&self) -> (r: i64) {
        #[verifier::truncate] (*self as i64)
    }

    #[inline]
    fn to_i128(&self) -> (r: i128) {
        #[verifier::truncate] (*self as i128)
    }

    #[inline]
    fn to_isize(&self) -> (r: isize) {
        #[verifier::truncate] (*self as isize)
    }
}

impl Integer for u128 {
    open spec fn as_int(self) -> int {
        self as int
    }

    open spec fn min_int() -> int {
        u128::MIN as int
    }

    open spec fn max_int() -> int {
        u128::MAX as int
    }

    proof fn lemma_range(self) {
    }

    proof fn lemma_bounds() {
    }

    proof fn lemma_injective(self, other: Self) {
    }

    proof fn lemma_values(v: int) {
        assert((v as u128).as_int() == v);
    }

    fn max_value() -> (r: Self) {
        u128::MAX
    }

    fn min_value() -> (r: Self) {
        u128::MIN
    }

    #[inline(always)]
    fn zero() -> (r: Self) {
        0
    }

    #[inline(always)]
    fn inf() -> (r: Self) {
        let r: u128 = u128::MAX >> 2;
        assert(u128::MAX >> 2 == u128::MAX / 4) by (bit_vector);
        r
    }

    #[inline(always)]
    fn from_i32(val: i32) -> (r: Self) {
        val as u128
    }

    #[inline(always)]
    fn from_u64(val: u64) -> (r: Self) {
        val as u128
    }

    #[inline(always)]
    fn abs_diff(self, other: Self) -> (r: Self) {
        if self >= other {
            self - other
        } else {
            other - self
        }
    }

    #[inline]
    fn plus(self, rhs: Self) -> (r: Self) {
        self + rhs
    }

    #[inline]
    fn minus(self, rhs: Self) -> (r: Self) {
        self - rhs
    }

    #[inline]
    fn wrapping_plus(self, rhs: Self) -> (r: Self) {
        proof {
            lemma_wrap(self + rhs, u128::MIN as int, u128::MAX as int);
        }
        self.wrapping_add(rhs)
    }

    #[inline]
    fn times(self, rhs: Self) -> (r: Self) {
        self * rhs
    }

    #[inline]
    fn quot(self, rhs: Self) -> (r: Self) {
        self / rhs
    }

    #[inline]
    fn rem(self, rhs: Self) -> (r: Self) {
        self % rhs
    }

    #[inline]
    fn half(self) -> (r: Self) {
        let r: u128 = self >> 1;
        assert(self >> 1 == self / 2) by (bit_vector);
        r
    }

    #[inline]
    fn less(self, rhs: Self) -> (r: bool) {
        self < rhs
    }

    #[inline]
    fn same(self, rhs: Self) -> (r: bool) {
        self == rhs
    }

    #[inline]
    fn to_u8(&self) -> (r: u8) {
        #[verifier::truncate] (*self as u8)
    }

    #[inline]
    fn to_u32(&self) -> (r: u32) {
        #[verifier::truncate] (*self as u32)
    }

    #[inline]
    fn to_u64(&self) -> (r: u64) {
        #[verifier::truncate] (*self as u64)
    }

    #[inline]
    fn to_u128(&self) -> (r: u128) {
        *self
    }

    #[inline]
    fn to_usize(&self) -> (r: usize) {
        #[verifier::truncate] (*self as usize)
    }

    #[inline]
    fn to_i8(&self) -> (r: i8) {
        #[verifier::truncate] (*self as i8)
    }

    #[inline]
    fn to_i32(&self) -> (r: i32) {
        #[verifier::truncate] (*self as i32)
    }

    #[inline]
    fn to_i64(&self) -> (r: i64) {
        #[verifier::truncate] (*self as i64)
    }

    #[inline]
    fn to_i128(&self) -> (r: i128) {
        #[verifier::truncate] (*self as i128)
    }

    #[inline]
    fn to_isize(&self) -> (r: isize) {
        #[verifier::truncate] (*self as isize)
    }
}

impl Integer for usize {
    open spec fn as_int(self) -> int {
        self as int
    }

    open spec fn min_int() -> int {
        usize::MIN as int
    }

    open spec fn max_int() -> int {
        usize::MAX as int
    }

    proof fn lemma_range(self) {
    }

    proof fn lemma_bounds() {
    }

    proof fn lemma_injective(self, other: Self) {
    }

    proof fn lemma_values(v: int) {
        assert((v as usize).as_int() == v);
    }

    fn max_value() -> (r: Self) {
        usize::MAX
    }

    fn min_value() -> (r: Self) {
        usize::MIN
    }

    #[inline(always)]
    fn zero() -> (r: Self) {
        0
    }

    #[inline(always)]
    fn inf() -> (r: Self) {
        let r: usize = usize::MAX >> 2;
        let m: usize = usize::MAX;
        assert(m >> 2 == m / 4) by (bit_vector);
        r
    }

    #[inline(always)]
    fn from_i32(val: i32) -> (r: Self) {
        val as usize
    }

    #[inline(always)]
    fn from_u64(val: u64) -> (r: Self) {
        val as usize
    }

    #[inline(always)]
    fn abs_diff(self, other: Self) -> (r: Self) {
        if self >= other {
            self - other
        } else {
            other - self
        }
    }

    #[inline]
    fn plus(self, rhs: Self) -> (r: Self) {
        self + rhs
    }

    #[inline]
    fn minus(self, rhs: Self) -> (r: Self) {
        self - rhs
    }

    #[inline]
    fn wrapping_plus(self, rhs: Self) -> (r: Self) {
        proof {
            lemma_wrap(self + rhs, usize::MIN as int, usize::MAX as int);
        }
        self.wrapping_add(rhs)
    }

    #[inline]
    fn times(self, rhs: Self) -> (r: Self) {
        self * rhs
    }

    #[inline]
    fn quot(self, rhs: Self) -> (r: Self) {
        self / rhs
    }

    #[inline]
    fn rem(self, rhs: Self) -> (r: Self) {
        self % rhs
    }

    #[inline]
    fn half(self) -> (r: Self) {
        let r: usize = self >> 1;
        assert(self >> 1 == self / 2) by (bit_vector);
        r
    }

    #[inline]
    fn less(self, rhs: Self) -> (r: bool) {
        self < rhs
    }

    #[inline]
    fn same(self, rhs: Self) -> (r: bool) {
        self == rhs
    }

    #[inline]
    fn to_u8(&self) -> (r: u8) {
        #[verifier::truncate] (*self as u8)
    }

    #[inline]
    fn to_u32(&self) -> (r: u32) {
        #[verifier::truncate] (*self as u32)
    }

    #[inline]
    fn to_u64(&self) -> (r: u64) {
        #[verifier::truncate] (*self as u64)
    }

    #[inline]
    fn to_u128(&self) -> (r: u128) {
        #[verifier::truncate] (*self as u128)
    }

    #[inline]
    fn to_usize(&self) -> (r: usize) {
        *self
    }

    #[inline]
    fn to_i8(&self) -> (r: i8) {
        #[verifier::truncate] (*self as i8)
    }

    #[inline]
    fn to_i32(&self) -> (r: i32) {
        #[verifier::truncate] (*self as i32)
    }

    #[inline]
    fn to_i64(&self) -> (r: i64) {
        #[verifier::truncate] (*self as i64)
    }

    #[inline]
    fn to_i128(&self) -> (r: i128) {
        #[verifier::truncate] (*self as i128)
    }

    #[inline]
    fn to_isize(&self) -> (r: isize) {
        #[verifier::truncate] (*self as isize)
    }
}

impl Integer for i8 {
    open spec fn as_int(self) -> int {
        self as int
    }

    open spec fn min_int() -> int {
        i8::MIN as int
    }

    open spec fn max_int() -> int {
        i8::MAX as int
    }

    proof fn lemma_range(self) {
    }

    proof fn lemma_bounds() {
    }

    proof fn lemma_injective(self, other: Self) {
    }

    proof fn lemma_values(v: int) {
        assert((v as i8).as_int() == v);
    }

    fn max_value() -> (r: Self) {
        i8::MAX
    }

    fn min_value() -> (r: Self) {
        i8::MIN
    }

    #[inline(always)]
    fn zero() -> (r: Self) {
        0
    }

    #[inline(always)]
    fn inf() -> (r: Self) {
        let r: i8 = i8::MAX >> 2;
        assert(i8::MAX >> 2 == i8::MAX / 4) by (bit_vector);
        r
    }

    #[inline(always)]
    fn from_i32(val: i32) -> (r: Self) {
        val as i8
    }

    #[inline(always)]
    fn from_u64(val: u64) -> (r: Self) {
        val as i8
    }

    #[inline(always)]
    fn abs_diff(self, other: Self) -> (r: Self) {
        if self >= other {
            self - other
        } else {
            other - self
        }
    }

    #[inline]
    fn plus(self, rhs: Self) -> (r: Self) {
        self + rhs
    }

    #[inline]
    fn minus(self, rhs: Self) -> (r: Self) {
        self - rhs
    }

    #[inline]
    fn wrapping_plus(self, rhs: Self) -> (r: Self) {
        proof {
            lemma_wrap(self + rhs, i8::MIN as int, i8::MAX as int);
        }
        self.wrapping_add(rhs)
    }

    #[inline]
    fn times(self, rhs: Self) -> (r: Self) {
        self * rhs
    }

    #[inline]
    fn quot(self, rhs: Self) -> (r: Self) {
        proof {
            lemma_trunc_div_in_range(self as int, rhs as int, i8::MAX as int);
        }
        self / rhs
    }

    #[inline]
    fn rem(self, rhs: Self) -> (r: Self) {
        proof {
            lemma_trunc_div_in_range(self as int, rhs as int, i8::MAX as int);
        }
        self % rhs
    }

    #[inline]
    fn half(self) -> (r: Self) {
        let r: i8 = self >> 1;
        assert(self >> 1 == self / 2) by (bit_vector);
        r
    }

    #[inline]
    fn less(self, rhs: Self) -> (r: bool) {
        self < rhs
    }

    #[inline]
    fn same(self, rhs: Self) -> (r: bool) {
        self == rhs
    }

    #[inline]
    fn to_u8(&self) -> (r: u8) {
        #[verifier::truncate] (*self as u8)
    }

    #[inline]
    fn to_u32(&self) -> (r: u32) {
        #[verifier::truncate] (*self as u32)
    }

    #[inline]
    fn to_u64(&self) -> (r: u64) {
        #[verifier::truncate] (*self as u64)
    }

    #[inline]
    fn to_u128(&self) -> (r: u128) {
        #[verifier::truncate] (*self as u128)
    }

    #[inline]
    fn to_usize(&self) -> (r: usize) {
        #[verifier::truncate] (*self as usize)
    }

    #[inline]
    fn to_i8(&self) -> (r: i8) {
        *self
    }

    #[inline]
    fn to_i32(&self) -> (r: i32) {
        #[verifier::truncate] (*self as i32)
    }

    #[inline]
    fn to_i64(&self) -> (r: i64) {
        #[verifier::truncate] (*self as i64)
    }

    #[inline]
    fn to_i128(&self) -> (r: i128) {
        #[verifier::truncate] (*self as i128)
    }

    #[inline]
    fn to_isize(&self) -> (r: isize) {
        #[verifier::truncate] (*self as isize)
    }
}

impl Integer for i32 {
    open spec fn as_int(self) -> int {
        self as int
    }

    open spec fn min_int() -> int {
        i32::MIN as int
    }

    open spec fn max_int() -> int {
        i32::MAX as int
    }

    proof fn lemma_range(self) {
    }

    proof fn lemma_bounds() {
    }

    proof fn lemma_injective(self, other: Self) {
    }

    proof fn lemma_values(v: int) {
        assert((v as i32).as_int() == v);
    }

    fn max_value() -> (r: Self) {
        i32::MAX
    }

    fn min_value() -> (r: Self) {
        i32::MIN
    }

    #[inline(always)]
    fn zero() -> (r: Self) {
        0
    }

    #[inline(always)]
    fn inf() -> (r: Self) {
        let r: i32 = i32::MAX >> 2;
        assert(i32::MAX >> 2 == i32::MAX / 4) by (bit_vector);
        r
    }

    #[inline(always)]
    fn from_i32(val: i32) -> (r: Self) {
        val as i32
    }

    #[inline(always)]
    fn from_u64(val: u64) -> (r: Self) {
        val as i32
    }

    #[inline(always)]
    fn abs_diff(self, other: Self) -> (r: Self) {
        if self >= other {
            self - other
        } else {
            other - self
        }
    }

    #[inline]
    fn plus(self, rhs: Self) -> (r: Self) {
        self + rhs
    }

    #[inline]
    fn minus(self, rhs: Self) -> (r: Self) {
        self - rhs
    }

    #[inline]
    fn wrapping_plus(self, rhs: Self) -> (r: Self) {
        proof {
            lemma_wrap(self + rhs, i32::MIN as int, i32::MAX as int);
        }
        self.wrapping_add(rhs)
    }

    #[inline]
    fn times(self, rhs: Self) -> (r: Self) {
        self * rhs
    }

    #[inline]
    fn quot(self, rhs: Self) -> (r: Self) {
        proof {
            lemma_trunc_div_in_range(self as int, rhs as int, i32::MAX as int);
        }
        self / rhs
    }

    #[inline]
    fn rem(self, rhs: Self) -> (r: Self) {
        proof {
            lemma_trunc_div_in_range(self as int, rhs as int, i32::MAX as int);
        }
        self % rhs
    }

    #[inline]
    fn half(self) -> (r: Self) {
        let r: i32 = self >> 1;
        assert(self >> 1 == self / 2) by (bit_vector);
        r
    }

    #[inline]
    fn less(self, rhs: Self) -> (r: bool) {
        self < rhs
    }

    #[inline]
    fn same(self, rhs: Self) -> (r: bool) {
        self == rhs
    }

    #[inline]
    fn to_u8(&self) -> (r: u8) {
        #[verifier::truncate] (*self as u8)
    }

    #[inline]
    fn to_u32(&self) -> (r: u32) {
        #[verifier::truncate] (*self as u32)
    }

    #[inline]
    fn to_u64(&self) -> (r: u64) {
        #[verifier::truncate] (*self as u64)
    }

    #[inline]
    fn to_u128(&self) -> (r: u128) {
        #[verifier::truncate] (*self as u128)
    }

    #[inline]
    fn to_usize(&self) -> (r: usize) {
        #[verifier::truncate] (*self as usize)
    }

    #[inline]
    fn to_i8(&self) -> (r: i8) {
        #[verifier::truncate] (*self as i8)
    }

    #[inline]
    fn to_i32(&self) -> (r: i32) {
        *self
    }

    #[inline]
    fn to_i64(&self) -> (r: i64) {
        #[verifier::truncate] (*self as i64)
    }

    #[inline]
    fn to_i128(&self) -> (r: i128) {
        #[verifier::truncate] (*self as i128)
    }

    #[inline]
    fn to_isize(&self) -> (r: isize) {
        #[verifier::truncate] (*self as isize)
    }
}

impl Integer for i64 {
    open spec fn as_int(self) -> int {
        self as int
    }

    open spec fn min_int() -> int {
        i64::MIN as int
    }

    open spec fn max_int() -> int {
        i64::MAX as int
    }

    proof fn lemma_range(self) {
    }

    proof fn lemma_bounds() {
    }

    proof fn lemma_injective(self, other: Self) {
    }

    proof fn lemma_values(v: int) {
        assert((v as i64).as_int() == v);
    }

    fn max_value() -> (r: Self) {
        i64::MAX
    }

    fn min_value() -> (r: Self) {
        i64::MIN
    }

    #[inline(always)]
    fn zero() -> (r: Self) {
        0
    }

    #[inline(always)]
    fn inf() -> (r: Self) {
        let r: i64 = i64::MAX >> 2;
        assert(i64::MAX >> 2 == i64::MAX / 4) by (bit_vector);
        r
    }

    #[inline(always)]
    fn from_i32(val: i32) -> (r: Self) {
        val as i64
    }

    #[inline(always)]
    fn from_u64(val: u64) -> (r: Self) {
        val as i64
    }

    #[inline(always)]
    fn abs_diff(self, other: Self) -> (r: Self) {
        if self >= other {
            self - other
        } else {
            other - self
        }
    }

    #[inline]
    fn plus(self, rhs: Self) -> (r: Self) {
        self + rhs
    }

    #[inline]
    fn minus(self, rhs: Self) -> (r: Self) {
        self - rhs
    }

    #[inline]
    fn wrapping_plus(self, rhs: Self) -> (r: Self) {
        proof {
            lemma_wrap(self + rhs, i64::MIN as int, i64::MAX as int);
        }
        self.wrapping_add(rhs)
    }

    #[inline]
    fn times(self, rhs: Self) -> (r: Self) {
        self * rhs
    }

    #[inline]
    fn quot(self, rhs: Self) -> (r: Self) {
        proof {
            lemma_trunc_div_in_range(self as int, rhs as int, i64::MAX as int);
        }
        self / rhs
    }

    #[inline]
    fn rem(self, rhs: Self) -> (r: Self) {
        proof {
            lemma_trunc_div_in_range(self as int, rhs as int, i64::MAX as int);
        }
        self % rhs
    }

    #[inline]
    fn half(self) -> (r: Self) {
        let r: i64 = self >> 1;
        assert(self >> 1 == self / 2) by (bit_vector);
        r
    }

    #[inline]
    fn less(self, rhs: Self) -> (r: bool) {
        self < rhs
    }

    #[inline]
    fn same(self, rhs: Self) -> (r: bool) {
        self == rhs
    }

    #[inline]
    fn to_u8(&self) -> (r: u8) {
        #[verifier::truncate] (*self as u8)
    }

    #[inline]
    fn to_u32(&self) -> (r: u32) {
        #[verifier::truncate] (*self as u32)
    }

    #[inline]
    fn to_u64(&self) -> (r: u64) {
        #[verifier::truncate] (*self as u64)
    }

    #[inline]
    fn to_u128(&self) -> (r: u128) {
        #[verifier::truncate] (*self as u128)
    }

    #[inline]
    fn to_usize(&self) -> (r: usize) {
        #[verifier::truncate] (*self as usize)
    }

    #[inline]
    fn to_i8(&self) -> (r: i8) {
        #[verifier::truncate] (*self as i8)
    }

    #[inline]
    fn to_i32(&self) -> (r: i32) {
        #[verifier::truncate] (*self as i32)
    }

    #[inline]
    fn to_i64(&self) -> (r: i64) {
        *self
    }

    #[inline]
    fn to_i128(&self) -> (r: i128) {
        #[verifier::truncate] (*self as i128)
    }

    #[inline]
    fn to_isize(&self) -> (r: isize) {
        #[verifier::truncate] (*self as isize)
    }
}

impl Integer for i128 {
    open spec fn as_int(self) -> int {
        self as int
    }

    open spec fn min_int() -> int {
        i128::MIN as int
    }

    open spec fn max_int() -> int {
        i128::MAX as int
    }

    proof fn lemma_range(self) {
    }

    proof fn lemma_bounds() {
    }

    proof fn lemma_injective(self, other: Self) {
    }

    proof fn lemma_values(v: int) {
        assert((v as i128).as_int() == v);
    }

    fn max_value() -> (r: Self) {
        i128::MAX
    }

    fn min_value() -> (r: Self) {
        i128::MIN
    }

    #[inline(always)]
    fn zero() -> (r: Self) {
        0
    }

    #[inline(always)]
    fn inf() -> (r: Self) {
        let r: i128 = i128::MAX >> 2;
        assert(i128::MAX >> 2 == i128::MAX / 4) by (bit_vector);
        r
    }

    #[inline(always)]
    fn from_i32(val: i32) -> (r: Self) {
        val as i128
    }

    #[inline(always)]
    fn from_u64(val: u64) -> (r: Self) {
        val as i128
    }

    #[inline(always)]
    fn abs_diff(self, other: Self) -> (r: Self) {
        if self >= other {
            self - other
        } else {
            other - self
        }
    }

    #[inline]
    fn plus(self, rhs: Self) -> (r: Self) {
        self + rhs
    }

    #[inline]
    fn minus(self, rhs: Self) -> (r: Self) {
        self - rhs
    }

    #[inline]
    fn wrapping_plus(self, rhs: Self) -> (r: Self) {
        proof {
            lemma_wrap(self + rhs, i128::MIN as int, i128::MAX as int);
        }
        self.wrapping_add(rhs)
    }

    #[inline]
    fn times(self, rhs: Self) -> (r: Self) {
        self * rhs
    }

    #[inline]
    fn quot(self, rhs: Self) -> (r: Self) {
        proof {
            lemma_trunc_div_in_range(self as int, rhs as int, i128::MAX as int);
        }
        self / rhs
    }

    #[inline]
    fn rem(self, rhs: Self) -> (r: Self) {
        proof {
            lemma_trunc_div_in_range(self as int, rhs as int, i128::MAX as int);
        }
        self % rhs
    }

    #[inline]
    fn half(self) -> (r: Self) {
        let r: i128 = self >> 1;
        assert(self >> 1 == self / 2) by (bit_vector);
        r
    }

    #[inline]
    fn less(self, rhs: Self) -> (r: bool) {
        self < rhs
    }

    #[inline]
    fn same(self, rhs: Self) -> (r: bool) {
        self == rhs
    }

    #[inline]
    fn to_u8(&self) -> (r: u8) {
        #[verifier::truncate] (*self as u8)
    }

    #[inline]
    fn to_u32(&self) -> (r: u32) {
        #[verifier::truncate] (*self as u32)
    }

    #[inline]
    fn to_u64(&self) -> (r: u64) {
        #[verifier::truncate] (*self as u64)
    }

    #[inline]
    fn to_u128(&self) -> (r: u128) {
        #[verifier::truncate] (*self as u128)
    }

    #[inline]
    fn to_usize(&self) -> (r: usize) {
        #[verifier::truncate] (*self as usize)
    }

    #[inline]
    fn to_i8(&self) -> (r: i8) {
        #[verifier::truncate] (*self as i8)
    }

    #[inline]
    fn to_i32(&self) -> (r: i32) {
        #[verifier::truncate] (*self as i32)
    }

    #[inline]
    fn to_i64(&self) -> (r: i64) {
        #[verifier::truncate] (*self as i64)
    }

    #[inline]
    fn to_i128(&self) -> (r: i128) {
        *self
    }

    #[inline]
    fn to_isize(&self) -> (r: isize) {
        #[verifier::truncate] (*self as isize)
    }
}

impl Integer for isize {
    open spec fn as_int(self) -> int {
        self as int
    }

    open spec fn min_int() -> int {
        isize::MIN as int
    }

    open spec fn max_int() -> int {
        isize::MAX as int
    }

    proof fn lemma_range(self) {
    }

    proof fn lemma_bounds() {
    }

    proof fn lemma_injective(self, other: Self) {
    }

    proof fn lemma_values(v: int) {
        assert((v as isize).as_int() == v);
    }

    fn max_value() -> (r: Self) {
        isize::MAX
    }

    fn min_value() -> (r: Self) {
        isize::MIN
    }

    #[inline(always)]
    fn zero() -> (r: Self) {
        0
    }

    #[inline(always)]
    fn inf() -> (r: Self) {
        let r: isize = isize::MAX >> 2;
        let m: isize = isize::MAX;
        assert(m >> 2 == m / 4) by (bit_vector);
        r
    }

    #[inline(always)]
    fn from_i32(val: i32) -> (r: Self) {
        val as isize
    }

    #[inline(always)]
    fn from_u64(val: u64) -> (r: Self) {
        val as isize
    }

    #[inline(always)]
    fn abs_diff(self, other: Self) -> (r: Self) {
        if self >= other {
            self - other
        } else {
            other - self
        }
    }

    #[inline]
    fn plus(self, rhs: Self) -> (r: Self) {
        self + rhs
    }

    #[inline]
    fn minus(self, rhs: Self) -> (r: Self) {
        self - rhs
    }

    #[inline]
    fn wrapping_plus(self, rhs: Self) -> (r: Self) {
        proof {
            lemma_wrap(self + rhs, isize::MIN as int, isize::MAX as int);
        }
        self.wrapping_add(rhs)
    }

    #[inline]
    fn times(self, rhs: Self) -> (r: Self) {
        self * rhs
    }

    #[inline]
    fn quot(self, rhs: Self) -> (r: Self) {
        proof {
            lemma_trunc_div_in_range(self as int, rhs as int, isize::MAX as int);
        }
        self / rhs
    }

    #[inline]
    fn rem(self, rhs: Self) -> (r: Self) {
        proof {
            lemma_trunc_div_in_range(self as int, rhs as int, isize::MAX as int);
        }
        self % rhs
    }

    #[inline]
    fn half(self) -> (r: Self) {
        let r: isize = self >> 1;
        assert(self >> 1 == self / 2) by (bit_vector);
        r
    }

    #[inline]
    fn less(self, rhs: Self) -> (r: bool) {
        self < rhs
    }

    #[inline]
    fn same(self, rhs: Self) -> (r: bool) {
        self == rhs
    }

    #[inline]
    fn to_u8(&self) -> (r: u8) {
        #[verifier::truncate] (*self as u8)
    }

    #[inline]
    fn to_u32(&self) -> (r: u32) {
        #[verifier::truncate] (*self as u32)
    }

    #[inline]
    fn to_u64(&self) -> (r: u64) {
        #[verifier::truncate] (*self as u64)
    }

    #[inline]
    fn to_u128(&self) -> (r: u128) {
        #[verifier::truncate] (*self as u128)
    }

    #[inline]
    fn to_usize(&self) -> (r: usize) {
        #[verifier::truncate] (*self as usize)
    }

    #[inline]
    fn to_i8(&self) -> (r: i8) {
        #[verifier::truncate] (*self as i8)
    }

    #[inline]
    fn to_i32(&self) -> (r: i32) {
        #[verifier::truncate] (*self as i32)
    }

    #[inline]
    fn to_i64(&self) -> (r: i64) {
        #[verifier::truncate] (*self as i64)
    }

    #[inline]
    fn to_i128(&self) -> (r: i128) {
        #[verifier::truncate] (*self as i128)
    }

    #[inline]
    fn to_isize(&self) -> (r: isize) {
        *self
    }
}

} // verus!
