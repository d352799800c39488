use library::algorithm::binary_search::binary_search;
use library::math::choose_mod::ChooseMod;
use library::math::euclidean::{extended_gcd, gcd, lcm};
use library::utils::integer::Integer;
use library::utils::versatility_functions::{unpack_range, Endpoint};

#[test]
fn integer_constants() {
    assert_eq!(<u8 as Integer>::zero(), 0);
    assert_eq!(<i32 as Integer>::inf(), i32::MAX >> 2);
    assert_eq!(<u64 as Integer>::inf(), u64::MAX / 4);
    assert_eq!(<i8 as Integer>::max_value(), 127);
    assert_eq!(<i8 as Integer>::min_value(), -128);
    assert_eq!(<i64 as Integer>::from_i32(-7), -7);
    assert_eq!(<u128 as Integer>::from_u64(u64::MAX), u64::MAX as u128);
}

#[test]
fn integer_arithmetic() {
    assert_eq!(Integer::abs_diff(3u8, 10u8), 7);
    assert_eq!(Integer::abs_diff(-3i32, 10i32), 13);
    assert_eq!(7i32.plus(-9), -2);
    assert_eq!(7u64.minus(2), 5);
    assert_eq!((-7i64).times(6), -42);
    assert_eq!((-7i32).quot(2), -3);
    assert_eq!((-7i32).rem(2), -1);
    assert_eq!(7i32.quot(-2), -3);
    assert_eq!(7i32.rem(-2), 1);
    assert_eq!((-3i32).half(), -2);
    assert_eq!(9usize.half(), 4);
    assert_eq!(250u8.wrapping_plus(10), 4);
    assert_eq!(i8::MAX.wrapping_plus(1), i8::MIN);
    assert!(3i8.less(4));
    assert!(!4u32.less(4));
    assert!(4u32.same(4));
}

#[test]
fn integer_casts_cut_bits() {
    assert_eq!(300u32.to_u8(), 44);
    assert_eq!((-1i32).to_u64(), u64::MAX);
    assert_eq!(u64::MAX.to_i8(), -1);
    assert_eq!((1u128 << 64).to_u64(), 0);
    assert_eq!(200u8.to_i8(), -56);
    assert_eq!((-5isize).to_i128(), -5);
    assert_eq!(70000usize.to_u32(), 70000);
    assert_eq!(5i64.to_usize(), 5);
    assert_eq!(5i8.to_i32(), 5);
    assert_eq!(5u8.to_i64(), 5);
    assert_eq!(5u8.to_isize(), 5);
    assert_eq!(5u8.to_u128(), 5);
}

#[test]
fn gcd_and_lcm() {
    assert_eq!(gcd(12u64, 18u64), 6);
    assert_eq!(gcd(0u32, 5u32), 5);
    assert_eq!(gcd(5u32, 0u32), 5);
    assert_eq!(gcd(0i32, 0i32), 0);
    assert_eq!(gcd(-4i32, 6i32), 2);
    assert_eq!(gcd(4i32, -6i32), -2);
    assert_eq!(gcd(17u8, 5u8), 1);
    assert_eq!(lcm(4u64, 6u64), 12);
    assert_eq!(lcm(0u64, 6u64), 0);
    assert_eq!(lcm(21i64, 6i64), 42);
}

#[test]
fn extended_gcd_gives_bezout_coefficients() {
    assert_eq!(extended_gcd(0i64, 0i64), None);
    assert_eq!(extended_gcd(0i64, 5i64), Some((0, 1, 5)));
    assert_eq!(extended_gcd(5i64, 0i64), Some((1, 0, 5)));
    assert_eq!(extended_gcd(2i64, 11i64), Some((-5, 1, 1)));
    for (a, b) in [(240i64, 46i64), (17, 5), (5, 17), (-12, 18), (12, -18), (1, 1)] {
        let (x, y, d) = extended_gcd(a, b).unwrap();
        assert_eq!(a * x + b * y, d);
        assert_eq!(d, gcd(a, b));
    }
}

#[test]
fn binomial_coefficients() {
    let c = ChooseMod::<1000000007>::new(10);
    assert_eq!(c.ncr(5, 2).value, 10);
    assert_eq!(c.ncr(10, 5).value, 252);
    assert_eq!(c.ncr(10, 0).value, 1);
    assert_eq!(c.ncr(10, 10).value, 1);
    assert_eq!(c.ncr(3, 7).value, 0);
    let small = ChooseMod::<7>::new(6);
    assert_eq!(small.ncr(6, 3).value, 20 % 7);
}

#[test]
fn unpack_range_gives_half_open_bounds() {
    assert_eq!(unpack_range((Endpoint::Included(2u32), Endpoint::Excluded(5)), 0, 9), (2, 5));
    assert_eq!(unpack_range((Endpoint::Excluded(2i64), Endpoint::Included(5)), 0, 9), (3, 6));
    assert_eq!(unpack_range((Endpoint::<u8>::Unbounded, Endpoint::Unbounded), 1, 9), (1, 9));
}

#[test]
fn binary_search_finds_the_boundary() {
    // the last x with x * x <= 1000
    assert_eq!(binary_search(0i64, 1000i64, |x| x * x <= 1000), 31);
    // descending: the least x with x * x >= 1000
    assert_eq!(binary_search(1000i64, 0i64, |x| x * x >= 1000), 32);
    assert_eq!(binary_search(5u32, 6u32, |_| false), 5);
    assert_eq!(binary_search(5u32, 5u32, |_| true), 5);
    assert_eq!(binary_search(-10i8, 10i8, |x| x < 0), -1);
}

#[test]
fn binary_search_asks_only_inside() {
    // the predicate holds everywhere, and is never asked about an end
    let r = binary_search(0i8, 64i8, |x| {
        assert!(0 < x && x < 64);
        true
    });
    assert_eq!(r, 63);
    let r = binary_search(-64i8, 0i8, |x| {
        assert!(-64 < x && x < 0);
        false
    });
    assert_eq!(r, -64);
}
