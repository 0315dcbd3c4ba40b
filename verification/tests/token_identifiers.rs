use subscription_fee::address::Address;
use subscription_fee::big_uint::BigUint;
use subscription_fee::token::{
    DctTokenPayment, MoaxOrDctTokenIdentifier, MoaxOrDctTokenPayment, TokenIdentifier,
};

fn token(id: &str) -> TokenIdentifier {
    TokenIdentifier::from_bytes(id.as_bytes().to_vec())
}

#[test]
fn well_formed_identifiers_are_valid() {
    assert!(token("USDC-abcdef").is_valid_dct_identifier());
    assert!(token("ABC-123456").is_valid_dct_identifier());
    assert!(token("A1B2C3D4E5-a1b2c3").is_valid_dct_identifier());
    assert!(token("WMOAX-0a1b2c").is_valid_dct_identifier());
}

#[test]
fn identifiers_of_wrong_length_are_invalid() {
    assert!(!token("").is_valid_dct_identifier());
    assert!(!token("AB-abcdef").is_valid_dct_identifier());
    assert!(!token("ABCDEFGHIJK-abcdef").is_valid_dct_identifier());
    assert!(!token("ABC-12345").is_valid_dct_identifier());
}

#[test]
fn identifiers_with_wrong_characters_are_invalid() {
    assert!(!token("usdc-abcdef").is_valid_dct_identifier());
    assert!(!token("USDC-ABCDEF").is_valid_dct_identifier());
    assert!(!token("USDC_abcdef").is_valid_dct_identifier());
    assert!(!token("US-C-abcdef").is_valid_dct_identifier());
    assert!(!token("USDC-abc-ef").is_valid_dct_identifier());
    assert!(!token("USDC-abcde!").is_valid_dct_identifier());
}

#[test]
fn native_coin_is_always_valid() {
    assert!(MoaxOrDctTokenIdentifier::moax().is_valid());
    assert!(MoaxOrDctTokenIdentifier::dct(token("USDC-abcdef")).is_valid());
    assert!(!MoaxOrDctTokenIdentifier::dct(token("bad")).is_valid());
}

#[test]
fn asset_kinds_are_told_apart() {
    let native = MoaxOrDctTokenIdentifier::moax();
    let usdc = MoaxOrDctTokenIdentifier::dct(token("USDC-abcdef"));
    assert!(native.is_moax());
    assert!(!native.is_dct());
    assert!(usdc.is_dct());
    assert!(!usdc.is_moax());
    assert_eq!(native.as_dct_option(), None);
    assert_eq!(usdc.as_dct_option(), Some(&token("USDC-abcdef")));
}

#[test]
fn asset_equality_goes_by_identifier() {
    let usdc = MoaxOrDctTokenIdentifier::dct(token("USDC-abcdef"));
    let usdc_again = MoaxOrDctTokenIdentifier::dct(token("USDC-abcdef"));
    let other = MoaxOrDctTokenIdentifier::dct(token("USDC-abcdee"));
    let native = MoaxOrDctTokenIdentifier::moax();
    assert!(usdc.eq(&usdc_again));
    assert!(!usdc.eq(&other));
    assert!(!usdc.eq(&native));
    assert!(!native.eq(&usdc));
    assert!(native.eq(&MoaxOrDctTokenIdentifier::moax()));
    assert!(token("USDC-abcdef").eq(&token("USDC-abcdef")));
    assert!(!token("USDC-abcdef").eq(&token("USDC-abcde")));
}

#[test]
fn token_identifier_keeps_its_bytes() {
    let id = token("USDC-abcdef");
    assert_eq!(id.to_bytes(), b"USDC-abcdef".to_vec());
    assert_eq!(id.clone(), id);
}

#[test]
fn payments_hold_what_they_were_made_of() {
    let p = DctTokenPayment::new(token("USDC-abcdef"), BigUint::from_u64(7));
    assert_eq!(p.token_identifier, token("USDC-abcdef"));
    assert_eq!(p.amount, BigUint::from_u64(7));
    assert_eq!(p.clone(), p);
    let q = MoaxOrDctTokenPayment::new(MoaxOrDctTokenIdentifier::moax(), BigUint::from_u64(9));
    assert!(q.token_identifier.is_moax());
    assert_eq!(q.amount.to_u64(), Some(9));
}

#[test]
fn zero_address_is_zero() {
    assert!(Address::zero().is_zero());
    assert!(Address::new([0u8; 32]).is_zero());
    let mut bytes = [0u8; 32];
    bytes[31] = 1;
    assert!(!Address::new(bytes).is_zero());
    bytes[31] = 0;
    bytes[0] = 1;
    assert!(!Address::new(bytes).is_zero());
}

#[test]
fn smart_contract_address_has_eight_leading_zeros() {
    let mut bytes = [7u8; 32];
    assert!(!Address::new(bytes).is_smart_contract_address());
    for i in 0..8 {
        bytes[i] = 0;
    }
    assert!(Address::new(bytes).is_smart_contract_address());
    bytes[7] = 1;
    assert!(!Address::new(bytes).is_smart_contract_address());
    bytes[7] = 0;
    bytes[0] = 1;
    assert!(!Address::new(bytes).is_smart_contract_address());
    assert!(Address::zero().is_smart_contract_address());
}

#[test]
fn address_equality_goes_by_bytes() {
    let a = Address::new([3u8; 32]);
    let mut bytes = [3u8; 32];
    assert!(a.eq(&Address::new(bytes)));
    bytes[31] = 4;
    assert!(!a.eq(&Address::new(bytes)));
    bytes[31] = 3;
    bytes[0] = 4;
    assert!(!a.eq(&Address::new(bytes)));
}
