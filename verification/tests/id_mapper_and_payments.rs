use subscription_fee::address::Address;
use subscription_fee::address_to_id_mapper::{AddressToIdMapper, NULL_ID};
use subscription_fee::big_uint::BigUint;
use subscription_fee::token::{DctTokenPayment, TokenIdentifier};
use subscription_fee::unique_payments::{find_holding, UniquePayments};

fn tok(id: &str) -> TokenIdentifier {
    TokenIdentifier::from_bytes(id.as_bytes().to_vec())
}

fn pay(id: &str, amount: u64) -> DctTokenPayment {
    DctTokenPayment::new(tok(id), BigUint::from_u64(amount))
}

fn addr(n: u8) -> Address {
    Address::new([n; 32])
}

#[test]
fn unknown_address_has_null_id() {
    let mapper = AddressToIdMapper::new();
    assert_eq!(mapper.get_id(&addr(1)), NULL_ID);
    assert_eq!(mapper.get_id_non_zero(&addr(1)), None);
    assert_eq!(mapper.get_last_id(), 0);
}

#[test]
fn ids_are_given_out_from_one_upwards() {
    let mut mapper = AddressToIdMapper::new();
    assert_eq!(mapper.get_id_or_insert(&addr(1)), 1);
    assert_eq!(mapper.get_id_or_insert(&addr(2)), 2);
    assert_eq!(mapper.get_id_or_insert(&addr(3)), 3);
    assert_eq!(mapper.get_id(&addr(2)), 2);
    assert_eq!(mapper.get_id_non_zero(&addr(3)), Some(3));
    assert_eq!(mapper.get_last_id(), 3);
}

#[test]
fn get_id_or_insert_keeps_an_id_that_is_there() {
    let mut mapper = AddressToIdMapper::new();
    assert_eq!(mapper.get_id_or_insert(&addr(1)), 1);
    assert_eq!(mapper.get_id_or_insert(&addr(1)), 1);
    assert_eq!(mapper.get_last_id(), 1);
}

#[test]
fn insert_new_refuses_an_address_that_has_an_id() {
    let mut mapper = AddressToIdMapper::new();
    assert_eq!(mapper.insert_new(&addr(1)), Some(1));
    assert_eq!(mapper.insert_new(&addr(1)), None);
    assert_eq!(mapper.insert_new(&addr(2)), Some(2));
    assert_eq!(mapper.get_last_id(), 2);
}

#[test]
fn removed_id_is_never_given_out_again() {
    let mut mapper = AddressToIdMapper::new();
    assert_eq!(mapper.get_id_or_insert(&addr(1)), 1);
    assert_eq!(mapper.get_id_or_insert(&addr(2)), 2);
    assert_eq!(mapper.remove_by_address(&addr(1)), 1);
    assert_eq!(mapper.get_id(&addr(1)), NULL_ID);
    assert_eq!(mapper.get_id(&addr(2)), 2);
    assert_eq!(mapper.remove_by_address(&addr(1)), NULL_ID);
    assert_eq!(mapper.get_id_or_insert(&addr(1)), 3);
    assert_eq!(mapper.get_id_or_insert(&addr(4)), 4);
    assert_eq!(mapper.get_last_id(), 4);
}

#[test]
fn remove_of_unknown_address_changes_nothing() {
    let mut mapper = AddressToIdMapper::new();
    assert_eq!(mapper.get_id_or_insert(&addr(1)), 1);
    assert_eq!(mapper.remove_by_address(&addr(9)), NULL_ID);
    assert_eq!(mapper.get_id(&addr(1)), 1);
    assert_eq!(mapper.get_last_id(), 1);
}

#[test]
fn new_list_is_empty() {
    let list = UniquePayments::new();
    assert!(list.is_empty());
    assert_eq!(list.len(), 0);
    assert_eq!(list.into_payments(), Vec::<DctTokenPayment>::new());
}

#[test]
fn add_payment_appends_a_new_token() {
    let mut list = UniquePayments::new();
    list.add_payment(pay("AAA-111111", 100));
    list.add_payment(pay("BBB-222222", 50));
    assert_eq!(list.len(), 2);
    assert!(!list.is_empty());
    assert_eq!(list.into_payments(), vec![pay("AAA-111111", 100), pay("BBB-222222", 50)]);
}

#[test]
fn add_payment_merges_into_the_entry_of_its_token() {
    let mut list = UniquePayments::new();
    list.add_payment(pay("AAA-111111", 100));
    list.add_payment(pay("BBB-222222", 50));
    list.add_payment(pay("AAA-111111", 23));
    assert_eq!(list.len(), 2);
    assert_eq!(list.into_payments(), vec![pay("AAA-111111", 123), pay("BBB-222222", 50)]);
}

#[test]
fn list_from_unique_payments_keeps_their_order() {
    let list =
        UniquePayments::new_from_unique_payments(vec![pay("BBB-222222", 1), pay("AAA-111111", 2)]);
    assert_eq!(list.clone(), list);
    assert_eq!(list.into_payments(), vec![pay("BBB-222222", 1), pay("AAA-111111", 2)]);
}

#[test]
fn find_holding_names_the_first_entry_that_holds_enough() {
    let payments = vec![pay("AAA-111111", 10), pay("BBB-222222", 20), pay("AAA-111111", 30)];
    assert_eq!(find_holding(&payments, &tok("AAA-111111"), &BigUint::from_u64(10)), Some(0));
    assert_eq!(find_holding(&payments, &tok("AAA-111111"), &BigUint::from_u64(11)), Some(2));
    assert_eq!(find_holding(&payments, &tok("AAA-111111"), &BigUint::from_u64(31)), None);
    assert_eq!(find_holding(&payments, &tok("BBB-222222"), &BigUint::zero()), Some(1));
    assert_eq!(find_holding(&payments, &tok("CCC-333333"), &BigUint::zero()), None);
}
