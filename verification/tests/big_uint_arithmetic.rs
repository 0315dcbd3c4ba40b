use subscription_fee::big_uint::BigUint;

#[test]
fn zero_is_zero() {
    assert!(BigUint::zero().is_zero());
    assert_eq!(BigUint::zero().to_u64(), Some(0));
    assert_eq!(BigUint::from_u64(0), BigUint::zero());
}

#[test]
fn from_u64_round_trips() {
    for x in [0u64, 1, 255, 256, 65_535, 65_536, 1_000_000_007, u64::MAX] {
        assert_eq!(BigUint::from_u64(x).to_u64(), Some(x));
    }
}

#[test]
fn add_carries_across_digits() {
    let a = BigUint::from_u64(255);
    let b = BigUint::from_u64(1);
    assert_eq!(a.add(&b).to_u64(), Some(256));
    let c = BigUint::from_u64(0xffff_ffff);
    assert_eq!(c.add(&b).to_u64(), Some(0x1_0000_0000));
}

#[test]
fn add_grows_beyond_u64() {
    let max = BigUint::from_u64(u64::MAX);
    let one = BigUint::from_u64(1);
    let sum = max.add(&one);
    assert_eq!(sum.to_u64(), None);
    assert_eq!(sum.to_bytes_be(), vec![1u8, 0, 0, 0, 0, 0, 0, 0, 0]);
    assert_eq!(sum.checked_sub(&one), Some(max));
}

#[test]
fn checked_sub_borrows_and_refuses() {
    let a = BigUint::from_u64(0x1_0000);
    let b = BigUint::from_u64(1);
    assert_eq!(a.checked_sub(&b).unwrap().to_u64(), Some(0xffff));
    assert_eq!(b.checked_sub(&a), None);
    assert_eq!(a.checked_sub(&a), Some(BigUint::zero()));
}

#[test]
fn sub_takes_the_smaller_from_the_larger() {
    let a = BigUint::from_u64(1000);
    let b = BigUint::from_u64(1);
    assert_eq!(a.sub(&b).to_u64(), Some(999));
    assert_eq!(a.sub(&a), BigUint::zero());
    let big = BigUint::from_bytes_be(&vec![1u8, 0, 0, 0, 0, 0, 0, 0, 0, 0]);
    assert_eq!(big.sub(&b).to_bytes_be(), vec![0xffu8; 9]);
}

#[test]
fn ge_orders_by_value() {
    let small = BigUint::from_u64(0x01ff);
    let large = BigUint::from_u64(0x0200);
    assert!(large.ge(&small));
    assert!(!small.ge(&large));
    assert!(small.ge(&small));
    assert!(small.eq(&BigUint::from_u64(511)));
    assert!(!small.eq(&large));
}

#[test]
fn bytes_be_round_trip_drops_leading_zeros() {
    let x = BigUint::from_bytes_be(&vec![0u8, 0, 1, 2]);
    assert_eq!(x.to_u64(), Some(258));
    assert_eq!(x.to_bytes_be(), vec![1u8, 2]);
    assert_eq!(BigUint::from_bytes_be(&vec![]).to_u64(), Some(0));
    assert_eq!(BigUint::zero().to_bytes_be(), Vec::<u8>::new());
}
