use library::misc::rand::{Pcg32, PcgRandomInt};
use library::utils::versatility_functions::Endpoint;

#[test]
fn seeded_generator_gives_known_words() {
    let mut rng = Pcg32::with_seed(42, 54);
    let got: Vec<u32> = (0..6).map(|_| rng.next_u32()).collect();
    assert_eq!(
        got,
        vec![0xd969db81, 0x4cba4fd6, 0x35e6561f, 0x1be8d334, 0x82b1c384, 0x3c57b5cd]
    );
}

#[test]
fn next_u64_joins_two_words() {
    let mut rng = Pcg32::with_seed(42, 54);
    assert_eq!(rng.next_u64(), 0xd969db814cba4fd6);
    let mut a = Pcg32::with_seed(42, 54);
    let mut b = Pcg32::with_seed(42, 54);
    let hi = a.next_u64() as u128;
    let lo = a.next_u64() as u128;
    assert_eq!(b.next_u128(), (hi << 64) | lo);
}

#[test]
fn same_seed_same_stream() {
    let mut a = Pcg32::with_seed(7, 3);
    let mut b = Pcg32::with_seed(7, 3);
    for _ in 0..100 {
        assert_eq!(a.next(), b.next());
    }
}

#[test]
fn gen_range_coin_flips() {
    let mut rng = Pcg32::with_seed(1, 2);
    let got: Vec<i32> = (0..20)
        .map(|_| rng.gen_range((Endpoint::Included(0), Endpoint::Included(1))))
        .collect();
    assert_eq!(got, vec![0, 0, 0, 1, 1, 0, 0, 1, 0, 0, 1, 0, 0, 0, 1, 0, 0, 0, 1, 1]);
}

#[test]
fn gen_range_unsigned_values() {
    let mut rng = Pcg32::with_seed(42, 54);
    let got: Vec<u32> = (0..10)
        .map(|_| rng.gen_range((Endpoint::Included(10), Endpoint::Excluded(20))))
        .collect();
    assert_eq!(got, vec![15, 10, 15, 12, 14, 13, 13, 17, 12, 10]);
}

#[test]
fn gen_range_stays_in_range() {
    let mut rng = Pcg32::new();
    for _ in 0..1000 {
        let x: i64 = rng.gen_range((Endpoint::Included(-5), Endpoint::Excluded(5)));
        assert!((-5..5).contains(&x));
        let y: u128 = rng.gen_range((Endpoint::Excluded(99), Endpoint::Included(100)));
        assert_eq!(y, 100);
        let z: usize = rng.gen_range((Endpoint::Included(3), Endpoint::Included(9)));
        assert!((3..=9).contains(&z));
    }
}

#[test]
fn wrapping_neg_is_twos_complement() {
    assert_eq!(PcgRandomInt::wrapping_neg(5u32), u32::MAX - 4);
    assert_eq!(PcgRandomInt::wrapping_neg(0u64), 0);
    assert_eq!(PcgRandomInt::wrapping_neg(5i32), -5);
    assert_eq!(PcgRandomInt::wrapping_neg(i64::MIN), i64::MIN);
    assert_eq!(PcgRandomInt::wrapping_neg(1u128), u128::MAX);
}
