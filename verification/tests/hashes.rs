use library::hash::zobrist_hash::{ZobristHash, MOD};
use library::strings::rollinghash::{RollingHash, MODULO};
use library::utils::versatility_functions::Endpoint::{Excluded, Included, Unbounded};
use library::zeta_mobius_transform::{mobius_transform, zeta_transform};

fn naive_hash(s: &str, base: u128) -> u128 {
    let mut h = 0u128;
    for c in s.chars() {
        h = (h * base + c as u128) % MODULO;
    }
    h
}

#[test]
fn rolling_hash_of_parts() {
    let text = "abracadabra".to_string();
    let h = RollingHash::new(&text, Some(131));
    assert_eq!(h.base, 131);
    for l in 0..=text.len() {
        for r in l..=text.len() {
            assert_eq!(h.hash((Included(l), Excluded(r))), naive_hash(&text[l..r], 131));
        }
    }
    assert_eq!(h.hash((Unbounded, Unbounded)), naive_hash(&text, 131));
    assert_eq!(h.hash((Included(0), Included(3))), h.hash((Included(7), Included(10))));
    assert_eq!(h.hash((Excluded(0), Excluded(4))), naive_hash("bra", 131));
    assert_eq!(h.hash((Included(0), Excluded(1))), 97);
    assert_eq!(h.hash((Included(0), Excluded(2))), 97 * 131 + 98);
}

#[test]
fn rolling_hash_draws_a_base() {
    let h = RollingHash::new(&"xyz".to_string(), None);
    assert!(h.base >= 100 && h.base < u32::MAX as u128);
    assert_eq!(h.hash((Included(1), Excluded(3))), naive_hash("yz", h.base));
    let e = RollingHash::new(&String::new(), Some(7));
    assert_eq!(e.hash((Unbounded, Unbounded)), 0);
}

#[test]
fn zobrist_values_stay_and_differ() {
    let mut z: ZobristHash<u32> = ZobristHash::new();
    let a = z.get(1);
    let b = z.get(2);
    let c = z.get(3);
    assert!(a <= MOD && b <= MOD && c <= MOD);
    assert_ne!(a, b);
    assert_ne!(a, c);
    assert_ne!(b, c);
    assert_eq!(z.get(1), a);
    assert_eq!(z.get(2), b);
    assert_eq!(z.get(3), c);
    let mut d: ZobristHash<(i8, i8)> = ZobristHash::default();
    let v = d.get((1, -1));
    assert_eq!(d.get((1, -1)), v);
}

#[test]
fn zeta_sums_over_subsets() {
    let f: Vec<i64> = vec![1, 2, 3, 4, 5, 6, 7, 8];
    let g = zeta_transform(&f, 3);
    let mut want = vec![0i64; 8];
    for s in 0..8usize {
        for t in 0..8usize {
            if t & s == t {
                want[s] += f[t];
            }
        }
    }
    assert_eq!(g, want);
    assert_eq!(g, vec![1, 3, 4, 10, 6, 14, 16, 36]);
    assert_eq!(mobius_transform(&g, 3), f);
    assert_eq!(zeta_transform(&f, 0), f);
    // positions from 2^n on are left alone
    assert_eq!(zeta_transform(&f, 1), vec![1, 3, 3, 4, 5, 6, 7, 8]);
    let u: Vec<u8> = vec![1, 1, 1, 1];
    assert_eq!(zeta_transform(&u, 2), vec![1, 2, 2, 4]);
    assert_eq!(mobius_transform(&[1u8, 2, 2, 4], 2), vec![1, 1, 1, 1]);
}

#[test]
fn zobrist_values_of_many_keys_differ() {
    let mut z: ZobristHash<u16> = ZobristHash::new();
    let mut seen = std::collections::BTreeSet::new();
    for k in 0..2000u16 {
        let v = z.get(k);
        assert!(v <= MOD);
        assert!(seen.insert(v));
    }
    for k in 0..2000u16 {
        assert!(seen.contains(&z.get(k)));
    }
}
