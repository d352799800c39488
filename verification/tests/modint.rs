use library::misc::modint::Modint;

#[test]
fn test_modint() {
    let a = Modint::<5>::new(3);
    let b = Modint::<5>::new(9002);
    assert_eq!(a.value, 3);
    assert_eq!(b.value, 2);
    assert_eq!((a + b).value, 0);
    assert_eq!((a - b).value, 1);
    assert_eq!((a * b).value, 1);
}

#[test]
fn test_modint_pow() {
    let a = Modint::<11>::new(2);
    assert_eq!(a.pow(3).value, 8);
    assert_eq!(a.pow(10).value, 1);
    assert_eq!(a.pow(20).value, 1);
}

#[test]
fn test_modint_div() {
    assert_eq!(
        Modint::<11>::new(3) / Modint::<11>::new(2),
        Modint::<11>::new(7)
    );
    assert_eq!(Modint::<11>::new(8) / 2u64, Modint::<11>::new(4));
}

#[test]
fn modint_of_negative_values() {
    assert_eq!(Modint::<7>::new(-1i32).value, 6);
    assert_eq!(Modint::<7>::new(-14i64).value, 0);
    assert_eq!(Modint::<7>::new(-15i8).value, 6);
}

#[test]
fn modint_inverse() {
    assert_eq!(Modint::<11>::inv(2), Ok(Modint::<11>::new(6)));
    assert_eq!(Modint::<11>::inv(10), Ok(Modint::<11>::new(10)));
    assert_eq!(Modint::<0>::inv(0), Err(()));
    let m = Modint::<1000000007>::inv(123456).unwrap();
    assert_eq!((m * Modint::<1000000007>::new(123456u64)).value, 1);
}

#[test]
fn modint_with_integer_operands() {
    let a = Modint::<13>::new(5);
    assert_eq!((a + 10u32).value, 2);
    assert_eq!((a - 7i32).value, 11);
    assert_eq!((a * 4u8).value, 7);
    assert_eq!((a - (-1i64)).value, 6);
}

#[test]
fn modint_assigning_operators() {
    let mut a: Modint<11> = Modint::new(7u64);
    a += Modint::new(9u64);
    assert_eq!(a.value, 5);
    a -= Modint::new(8u64);
    assert_eq!(a.value, 8);
    a *= Modint::new(6u64);
    assert_eq!(a.value, 4);
    a /= Modint::new(3u64);
    assert_eq!(a.value, 5);
    a += 20i64;
    assert_eq!(a.value, 3);
    a -= 5u32;
    assert_eq!(a.value, 9);
    a *= -1i32;
    assert_eq!(a.value, 2);
    a /= 4u8;
    assert_eq!(a.value, 6);
}

#[test]
fn modint_as_text() {
    let a: Modint<1000000007> = Modint::new(-1i64);
    assert_eq!(a.to_string(), "1000000006");
    assert_eq!(Modint::<7>::new(14u64).to_string(), "0");
}
