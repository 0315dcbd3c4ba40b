use subscription_fee::address::Address;
use subscription_fee::big_uint::BigUint;
use subscription_fee::errors::Error;
use subscription_fee::fees::{contains_token, FeesModule, WithdrawnFunds};
use subscription_fee::token::{
    DctTokenPayment, MoaxOrDctTokenIdentifier, MoaxOrDctTokenPayment, TokenIdentifier,
};

fn token_id(id: &str) -> TokenIdentifier {
    TokenIdentifier::from_bytes(id.as_bytes().to_vec())
}

fn dct(id: &str) -> MoaxOrDctTokenIdentifier {
    MoaxOrDctTokenIdentifier::dct(token_id(id))
}

fn moax() -> MoaxOrDctTokenIdentifier {
    MoaxOrDctTokenIdentifier::moax()
}

fn big(x: u64) -> BigUint {
    BigUint::from_u64(x)
}

fn payment(id: &str, amount: u64) -> DctTokenPayment {
    DctTokenPayment::new(token_id(id), big(amount))
}

fn sent(moax_transfers: Vec<u64>, output_payments: Vec<DctTokenPayment>) -> WithdrawnFunds {
    WithdrawnFunds {
        moax_amount: big(moax_transfers.iter().sum()),
        moax_transfers: moax_transfers.into_iter().map(big).collect(),
        output_payments,
    }
}

fn user(n: u8) -> Address {
    Address::new([n; 32])
}

const A: &str = "AAA-aaaaaa";
const B: &str = "BBB-bbbbbb";
const C: &str = "CCC-cccccc";

fn ledger_accepting_all() -> FeesModule {
    let mut fees = FeesModule::new();
    assert_eq!(fees.add_accepted_fees_tokens(true, vec![moax(), dct(A), dct(B), dct(C)]), Ok(()));
    fees
}

fn held_tokens(fees: &FeesModule, id: u64) -> Vec<DctTokenPayment> {
    fees.user_deposited_fees(id).into_payments()
}

#[test]
fn new_ledger_accepts_nothing_and_holds_nothing() {
    let fees = FeesModule::new();
    assert!(fees.accepted_fees_tokens().is_empty());
    assert_eq!(fees.user_id().get_last_id(), 0);
    assert_eq!(fees.user_deposited_moax(1), BigUint::zero());
    assert!(fees.user_deposited_fees(1).is_empty());
}

#[test]
fn owner_adds_accepted_assets_in_order() {
    let mut fees = FeesModule::new();
    assert_eq!(fees.add_accepted_fees_tokens(true, vec![dct(A), moax()]), Ok(()));
    assert_eq!(fees.add_accepted_fees_tokens(true, vec![dct(B)]), Ok(()));
    assert_eq!(fees.accepted_fees_tokens(), &vec![dct(A), moax(), dct(B)]);
    assert!(contains_token(fees.accepted_fees_tokens(), &moax()));
    assert!(contains_token(fees.accepted_fees_tokens(), &dct(B)));
    assert!(!contains_token(fees.accepted_fees_tokens(), &dct(C)));
}

#[test]
fn accepted_asset_added_twice_stands_once() {
    let mut fees = FeesModule::new();
    assert_eq!(fees.add_accepted_fees_tokens(true, vec![dct(A)]), Ok(()));
    assert_eq!(fees.accepted_fees_tokens().len(), 1);
    assert_eq!(fees.add_accepted_fees_tokens(true, vec![dct(A)]), Ok(()));
    assert_eq!(fees.accepted_fees_tokens().len(), 1);
    assert_eq!(fees.add_accepted_fees_tokens(true, vec![dct(B), dct(A), dct(B)]), Ok(()));
    assert_eq!(fees.accepted_fees_tokens(), &vec![dct(A), dct(B)]);
}

#[test]
fn only_the_owner_adds_accepted_assets() {
    let mut fees = FeesModule::new();
    assert_eq!(fees.add_accepted_fees_tokens(false, vec![dct(A)]), Err(Error::NotOwner));
    assert!(fees.accepted_fees_tokens().is_empty());
}

#[test]
fn invalid_asset_refuses_the_whole_call() {
    let mut fees = FeesModule::new();
    assert_eq!(
        fees.add_accepted_fees_tokens(true, vec![dct(A), dct("not-valid"), dct(B)]),
        Err(Error::InvalidAsset)
    );
    assert!(fees.accepted_fees_tokens().is_empty());
}

#[test]
fn deposit_of_nothing_is_refused() {
    let mut fees = ledger_accepting_all();
    assert_eq!(fees.deposit(&user(1), dct(A), BigUint::zero()), Err(Error::NoPayment));
    assert_eq!(fees.deposit(&user(1), dct("XXX-xxxxxx"), BigUint::zero()), Err(Error::NoPayment));
    assert_eq!(fees.user_id().get_id(&user(1)), 0);
}

#[test]
fn deposit_of_unaccepted_asset_is_refused() {
    let mut fees = FeesModule::new();
    assert_eq!(fees.add_accepted_fees_tokens(true, vec![dct(A)]), Ok(()));
    assert_eq!(fees.deposit(&user(1), dct(B), big(5)), Err(Error::InvalidPaymentToken));
    assert_eq!(fees.deposit(&user(1), moax(), big(5)), Err(Error::InvalidPaymentToken));
    assert_eq!(fees.user_id().get_id(&user(1)), 0);
    assert!(fees.user_deposited_fees(1).is_empty());
}

#[test]
fn deposit_gives_the_caller_a_number_and_adds_to_its_balance() {
    let mut fees = ledger_accepting_all();
    assert_eq!(fees.deposit(&user(1), moax(), big(1000)), Ok(()));
    assert_eq!(fees.deposit(&user(2), dct(A), big(7)), Ok(()));
    assert_eq!(fees.deposit(&user(1), moax(), big(5)), Ok(()));
    assert_eq!(fees.deposit(&user(1), dct(B), big(3)), Ok(()));
    assert_eq!(fees.deposit(&user(1), dct(A), big(4)), Ok(()));
    assert_eq!(fees.deposit(&user(1), dct(B), big(30)), Ok(()));
    assert_eq!(fees.user_id().get_id(&user(1)), 1);
    assert_eq!(fees.user_id().get_id(&user(2)), 2);
    assert_eq!(fees.user_deposited_moax(1), big(1005));
    assert_eq!(fees.user_deposited_moax(2), BigUint::zero());
    assert_eq!(held_tokens(&fees, 1), vec![payment(B, 33), payment(A, 4)]);
    assert_eq!(held_tokens(&fees, 2), vec![payment(A, 7)]);
}

#[test]
fn add_user_payment_adds_to_the_user_of_that_number() {
    let mut fees = FeesModule::new();
    fees.add_user_payment(5, MoaxOrDctTokenPayment::new(moax(), big(10)));
    fees.add_user_payment(5, MoaxOrDctTokenPayment::new(moax(), big(5)));
    fees.add_user_payment(5, MoaxOrDctTokenPayment::new(dct(A), big(2)));
    fees.add_user_payment(5, MoaxOrDctTokenPayment::new(dct(A), big(3)));
    fees.add_user_payment(6, MoaxOrDctTokenPayment::new(dct(B), big(1)));
    assert_eq!(fees.user_deposited_moax(5), big(15));
    assert_eq!(held_tokens(&fees, 5), vec![payment(A, 5)]);
    assert_eq!(held_tokens(&fees, 6), vec![payment(B, 1)]);
    assert_eq!(fees.user_deposited_moax(6), BigUint::zero());
}

#[test]
fn get_user_id_or_insert_gives_a_number_once() {
    let mut fees = FeesModule::new();
    assert_eq!(fees.get_user_id_or_insert(&user(4)), 1);
    assert_eq!(fees.get_user_id_or_insert(&user(4)), 1);
    assert_eq!(fees.get_user_id_or_insert(&user(5)), 2);
}

#[test]
fn withdrawal_by_unknown_user_is_refused() {
    let mut fees = ledger_accepting_all();
    assert_eq!(fees.deposit(&user(1), moax(), big(10)), Ok(()));
    assert_eq!(fees.withdraw_funds(&user(2), vec![(moax(), big(1))]), Err(Error::UnknownUser));
    assert_eq!(fees.withdraw_funds(&user(2), vec![]), Err(Error::UnknownUser));
    assert_eq!(fees.user_deposited_moax(1), big(10));
}

#[test]
fn full_withdrawal_removes_entry_and_larger_request_is_skipped() {
    let mut fees = ledger_accepting_all();
    assert_eq!(fees.deposit(&user(1), dct(A), big(100)), Ok(()));
    assert_eq!(fees.deposit(&user(1), dct(B), big(50)), Ok(()));
    let result = fees.withdraw_funds(&user(1), vec![(dct(A), big(100)), (dct(B), big(60))]);
    assert_eq!(result, Ok(sent(vec![], vec![payment(A, 100)])));
    assert_eq!(held_tokens(&fees, 1), vec![payment(B, 50)]);
}

#[test]
fn partial_withdrawal_lowers_the_entry_in_place() {
    let mut fees = ledger_accepting_all();
    assert_eq!(fees.deposit(&user(1), dct(A), big(100)), Ok(()));
    assert_eq!(fees.deposit(&user(1), dct(B), big(50)), Ok(()));
    assert_eq!(fees.deposit(&user(1), dct(C), big(10)), Ok(()));
    let result = fees.withdraw_funds(&user(1), vec![(dct(B), big(20))]);
    assert_eq!(result, Ok(sent(vec![], vec![payment(B, 20)])));
    assert_eq!(held_tokens(&fees, 1), vec![payment(A, 100), payment(B, 30), payment(C, 10)]);
}

#[test]
fn exact_withdrawal_shortens_the_list_by_one() {
    let mut fees = ledger_accepting_all();
    assert_eq!(fees.deposit(&user(1), dct(A), big(100)), Ok(()));
    assert_eq!(fees.deposit(&user(1), dct(B), big(50)), Ok(()));
    assert_eq!(fees.deposit(&user(1), dct(C), big(10)), Ok(()));
    assert_eq!(fees.user_deposited_fees(1).len(), 3);
    let result = fees.withdraw_funds(&user(1), vec![(dct(A), big(100))]);
    assert_eq!(result, Ok(sent(vec![], vec![payment(A, 100)])));
    assert_eq!(fees.user_deposited_fees(1).len(), 2);
    assert_eq!(held_tokens(&fees, 1), vec![payment(B, 50), payment(C, 10)]);
}

#[test]
fn native_withdrawal_is_granted_in_full_or_skipped() {
    let mut fees = ledger_accepting_all();
    assert_eq!(fees.deposit(&user(1), moax(), big(100)), Ok(()));
    let result = fees.withdraw_funds(
        &user(1),
        vec![(moax(), big(101)), (moax(), big(60)), (moax(), big(60)), (moax(), big(40))],
    );
    assert_eq!(result, Ok(sent(vec![60, 40], vec![])));
    assert_eq!(result.unwrap().moax_amount, big(100));
    assert_eq!(fees.user_deposited_moax(1), BigUint::zero());
}

#[test]
fn skipped_request_does_not_stop_the_batch() {
    let mut fees = ledger_accepting_all();
    assert_eq!(fees.deposit(&user(1), moax(), big(10)), Ok(()));
    assert_eq!(fees.deposit(&user(1), dct(A), big(5)), Ok(()));
    assert_eq!(fees.deposit(&user(1), dct(B), big(8)), Ok(()));
    let result = fees.withdraw_funds(
        &user(1),
        vec![
            (dct(C), big(1)),
            (dct(A), big(6)),
            (moax(), big(11)),
            (dct(B), big(8)),
            (moax(), big(4)),
            (dct(A), big(2)),
            (dct(A), big(3)),
            (dct(A), big(1)),
        ],
    );
    assert_eq!(result, Ok(sent(vec![4], vec![payment(B, 8), payment(A, 2), payment(A, 3)])));
    assert_eq!(fees.user_deposited_moax(1), big(6));
    assert_eq!(held_tokens(&fees, 1), Vec::<DctTokenPayment>::new());
}

#[test]
fn withdrawal_of_one_user_leaves_the_others_alone() {
    let mut fees = ledger_accepting_all();
    assert_eq!(fees.deposit(&user(1), dct(A), big(5)), Ok(()));
    assert_eq!(fees.deposit(&user(2), dct(A), big(9)), Ok(()));
    assert_eq!(fees.deposit(&user(2), moax(), big(3)), Ok(()));
    let result = fees.withdraw_funds(&user(1), vec![(dct(A), big(9)), (moax(), big(3))]);
    assert_eq!(result, Ok(sent(vec![], vec![])));
    assert_eq!(held_tokens(&fees, 1), vec![payment(A, 5)]);
    assert_eq!(held_tokens(&fees, 2), vec![payment(A, 9)]);
    assert_eq!(fees.user_deposited_moax(2), big(3));
}

#[test]
fn empty_withdrawal_changes_nothing() {
    let mut fees = ledger_accepting_all();
    assert_eq!(fees.deposit(&user(1), dct(A), big(5)), Ok(()));
    assert_eq!(fees.withdraw_funds(&user(1), vec![]), Ok(sent(vec![], vec![])));
    assert_eq!(held_tokens(&fees, 1), vec![payment(A, 5)]);
}

#[test]
fn request_of_nothing_is_granted_where_the_token_is_held() {
    let mut fees = ledger_accepting_all();
    assert_eq!(fees.deposit(&user(1), dct(A), big(5)), Ok(()));
    let result = fees
        .withdraw_funds(&user(1), vec![(dct(A), big(0)), (dct(B), big(0)), (moax(), big(0))]);
    assert_eq!(result, Ok(sent(vec![0], vec![payment(A, 0)])));
    assert_eq!(held_tokens(&fees, 1), vec![payment(A, 5)]);
}

#[test]
fn balance_is_deposits_minus_what_was_transferred() {
    let mut fees = ledger_accepting_all();
    let mut paid_in: u64 = 0;
    let mut paid_out: u64 = 0;
    for (asset, amount) in [(moax(), 70u64), (dct(A), 30), (dct(B), 11), (dct(A), 12)] {
        assert_eq!(fees.deposit(&user(1), asset, big(amount)), Ok(()));
        paid_in += amount;
    }
    let batches = vec![
        vec![(dct(A), big(40)), (dct(A), big(50)), (moax(), big(71)), (moax(), big(1))],
        vec![(dct(B), big(11)), (dct(B), big(1)), (dct(A), big(2))],
    ];
    for batch in batches {
        let funds = fees.withdraw_funds(&user(1), batch).unwrap();
        paid_out += funds.moax_amount.to_u64().unwrap();
        for p in funds.output_payments {
            paid_out += p.amount.to_u64().unwrap();
        }
    }
    assert_eq!(paid_in, 123);
    assert_eq!(paid_out, 40 + 1 + 11 + 2);
    let mut held = fees.user_deposited_moax(1).to_u64().unwrap();
    for p in held_tokens(&fees, 1) {
        held += p.amount.to_u64().unwrap();
    }
    assert_eq!(held, paid_in - paid_out);
    assert_eq!(fees.user_deposited_moax(1), big(69));
    assert_eq!(held_tokens(&fees, 1), Vec::<DctTokenPayment>::new());
}

#[test]
fn amounts_beyond_64_bits_are_held_exactly() {
    let mut fees = ledger_accepting_all();
    assert_eq!(fees.deposit(&user(1), moax(), big(u64::MAX)), Ok(()));
    assert_eq!(fees.deposit(&user(1), moax(), big(u64::MAX)), Ok(()));
    assert_eq!(fees.user_deposited_moax(1).to_u64(), None);
    let funds = fees.withdraw_funds(&user(1), vec![(moax(), big(u64::MAX))]).unwrap();
    assert_eq!(funds.moax_amount, big(u64::MAX));
    assert_eq!(funds.moax_transfers, vec![big(u64::MAX)]);
    assert_eq!(fees.user_deposited_moax(1), big(u64::MAX));
}

#[test]
fn each_refusal_has_its_words() {
    assert_eq!(Error::NotOwner.message(), "Endpoint can only be called by owner");
    assert_eq!(Error::InvalidAsset.message(), "Invalid token");
    assert_eq!(Error::NoPayment.message(), "No payment");
    assert_eq!(Error::InvalidPaymentToken.message(), "Invalid payment token");
    assert_eq!(Error::UnknownUser.message(), "Unknown address");
    assert_eq!(Error::EmptyArguments.message(), "No arguments provided");
    assert_eq!(Error::AlreadyRegistered.message(), "Service already registered");
    assert_eq!(Error::InvalidDestination.message(), "Invalid SC address");
    assert_eq!(Error::UnknownService.message(), "Unknown service");
    assert_eq!(Error::InvalidServiceIndex.message(), "Invalid service index");
    assert_eq!(Error::InvalidSubscriptionType.message(), "Invalid subscription type");
    assert_eq!(Error::InvalidTokenId.message(), "Invalid token ID");
    assert_eq!(Error::InvalidPairAddress.message(), "Invalid pair address");
}

#[test]
fn user_number_stays_when_the_balance_is_used_up() {
    let mut fees = ledger_accepting_all();
    assert_eq!(fees.deposit(&user(1), dct(A), big(5)), Ok(()));
    assert_eq!(fees.deposit(&user(1), moax(), big(2)), Ok(()));
    let result = fees.withdraw_funds(&user(1), vec![(dct(A), big(5)), (moax(), big(2))]);
    assert_eq!(result, Ok(sent(vec![2], vec![payment(A, 5)])));
    assert_eq!(fees.user_id().get_id(&user(1)), 1);
    assert!(fees.user_deposited_fees(1).is_empty());
    assert_eq!(fees.user_deposited_moax(1), BigUint::zero());
    assert_eq!(fees.withdraw_funds(&user(1), vec![(dct(A), big(1))]), Ok(sent(vec![], vec![])));
    assert_eq!(fees.deposit(&user(2), dct(A), big(1)), Ok(()));
    assert_eq!(fees.user_id().get_id(&user(2)), 2);
    assert_eq!(fees.deposit(&user(1), dct(B), big(4)), Ok(()));
    assert_eq!(fees.user_id().get_id(&user(1)), 1);
    assert_eq!(held_tokens(&fees, 1), vec![payment(B, 4)]);
}
