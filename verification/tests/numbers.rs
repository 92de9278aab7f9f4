use sc2replay::numbers::{Integer, Natural};

#[test]
fn natural_from_digits_with_carries() {
    let n = Natural::from_base128_be(&[1, 0]);
    assert_eq!(n.to_decimal_string(), "128");
    let n = Natural::from_base128_be(&[0, 0, 200]);
    assert_eq!(n.to_decimal_string(), "200");
    assert_eq!(n.low_u64(), 200);
    assert!(Natural::from_base128_be(&[]).is_zero());
    assert!(Natural::from_base128_be(&[0, 0]).is_zero());
}

#[test]
fn natural_halves_and_compares() {
    let n = Natural::from_base128_be(&[1, 1]);
    let (h, odd) = n.half();
    assert_eq!(h.to_decimal_string(), "64");
    assert!(odd);
    assert!(h.eq_value(&Natural::from_base128_be(&[0, 64])));
    assert!(!h.eq_value(&n));
}

#[test]
fn natural_low_word() {
    let n = Natural::from_base128_be(&[2, 0, 0, 0, 0, 0, 0, 0, 0, 5]);
    assert_eq!(n.low_u64(), 5);
}

#[test]
fn integer_sign_and_value() {
    let i = Integer::new(true, Natural::from_base128_be(&[3]));
    assert_eq!(i.to_decimal_string(), "-3");
    assert!(!i.is_positive());
    assert_eq!(i.low_u64(), 3);
    let z = Integer::new(true, Natural::from_base128_be(&[]));
    assert_eq!(z.to_decimal_string(), "0");
    assert!(z.same_value(&Integer::new(false, Natural::from_base128_be(&[0]))));
    assert!(!i.same_value(&Integer::new(false, Natural::from_base128_be(&[3]))));
    assert!(Integer::new(false, Natural::from_base128_be(&[3])).is_positive());
}
