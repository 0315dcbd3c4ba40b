use subscription_fee::address::Address;
use subscription_fee::base_functions::{InterpretedResult, SubscriberContract};
use subscription_fee::big_uint::BigUint;
use subscription_fee::claim_farm_boosted::AdditionalFarmData;
use subscription_fee::errors::Error;
use subscription_fee::fees::FeesModule;
use subscription_fee::pair_actions::{PairActionsModule, SafePriceQuery};
use subscription_fee::service::{ServiceInfo, ServiceModule, SubscriptionType};
use subscription_fee::token::{DctTokenPayment, MoaxOrDctTokenIdentifier, TokenIdentifier};

const X: &str = "XXX-xxxxxx";
const Y: &str = "YYY-yyyyyy";

fn tid(id: &str) -> TokenIdentifier {
    TokenIdentifier::from_bytes(id.as_bytes().to_vec())
}

fn asset(id: &str) -> MoaxOrDctTokenIdentifier {
    MoaxOrDctTokenIdentifier::dct(tid(id))
}

fn amount(x: u64) -> BigUint {
    BigUint::from_u64(x)
}

fn account(n: u8) -> Address {
    Address::new([n; 32])
}

fn contract(n: u8) -> Address {
    let mut bytes = [n; 32];
    for i in 0..8 {
        bytes[i] = 0;
    }
    Address::new(bytes)
}

fn info(destination: Address, token: Option<&str>, price: u64) -> ServiceInfo {
    ServiceInfo {
        sc_address: destination,
        opt_payment_token: token.map(asset),
        amount: amount(price),
    }
}

fn arg(
    destination: Address,
    token: Option<&str>,
    price: u64,
) -> (Address, Option<MoaxOrDctTokenIdentifier>, BigUint) {
    (destination, token.map(asset), amount(price))
}

fn fees_accepting_x() -> FeesModule {
    let mut fees = FeesModule::new();
    assert_eq!(fees.add_accepted_fees_tokens(true, vec![asset(X)]), Ok(()));
    fees
}

fn approved_service_with_two_options(fees: &FeesModule) -> (ServiceModule, Address) {
    let mut services = ServiceModule::new();
    let s = contract(9);
    assert_eq!(
        services.register_service(fees, &s, vec![arg(contract(10), Some(X), 5), arg(contract(11), None, 6)]),
        Ok(())
    );
    assert_eq!(services.approve_service(true, &s), Ok(()));
    (services, s)
}

#[test]
fn new_registry_is_empty() {
    let services = ServiceModule::new();
    assert!(services.pending_services().is_empty());
    assert!(services.pending_service_info(&contract(1)).is_empty());
    assert!(services.service_info(1).is_empty());
    assert!(services.subscribed_users(1, 0).is_empty());
    assert_eq!(services.subscription_type(1, 1, 0), SubscriptionType::NoSubscription);
    assert_eq!(services.service_id().get_last_id(), 0);
}

#[test]
fn registration_without_options_is_refused() {
    let fees = fees_accepting_x();
    let mut services = ServiceModule::new();
    assert_eq!(services.register_service(&fees, &contract(9), vec![]), Err(Error::EmptyArguments));
    assert!(services.pending_services().is_empty());
}

#[test]
fn registration_with_invalid_destination_is_refused() {
    let fees = fees_accepting_x();
    let mut services = ServiceModule::new();
    let s = contract(9);
    assert_eq!(
        services.register_service(&fees, &s, vec![arg(account(3), None, 1)]),
        Err(Error::InvalidDestination)
    );
    assert_eq!(
        services.register_service(&fees, &s, vec![arg(Address::zero(), None, 1)]),
        Err(Error::InvalidDestination)
    );
    assert_eq!(
        services
            .register_service(&fees, &s, vec![arg(contract(10), None, 1), arg(account(3), Some(Y), 1)]),
        Err(Error::InvalidDestination)
    );
    assert!(services.pending_services().is_empty());
    assert!(services.pending_service_info(&s).is_empty());
}

#[test]
fn registration_with_unaccepted_asset_is_refused() {
    let fees = fees_accepting_x();
    let mut services = ServiceModule::new();
    let s = contract(9);
    assert_eq!(
        services
            .register_service(&fees, &s, vec![arg(contract(10), Some(X), 1), arg(contract(11), Some(Y), 1)]),
        Err(Error::InvalidPaymentToken)
    );
    assert_eq!(
        services
            .register_service(&fees, &s, vec![arg(contract(10), Some(Y), 1), arg(account(3), None, 1)]),
        Err(Error::InvalidPaymentToken)
    );
    assert!(services.pending_services().is_empty());
    assert!(services.pending_service_info(&s).is_empty());
}

#[test]
fn registrations_before_approval_add_up() {
    let fees = fees_accepting_x();
    let mut services = ServiceModule::new();
    let s = contract(9);
    let t = contract(8);
    assert_eq!(services.register_service(&fees, &s, vec![arg(contract(10), Some(X), 5)]), Ok(()));
    assert_eq!(services.register_service(&fees, &t, vec![arg(contract(12), None, 7)]), Ok(()));
    assert_eq!(
        services.register_service(&fees, &s, vec![arg(contract(11), None, 6), arg(contract(10), None, 1)]),
        Ok(())
    );
    assert_eq!(services.pending_services(), vec![s, t]);
    assert_eq!(
        services.pending_service_info(&s),
        vec![info(contract(10), Some(X), 5), info(contract(11), None, 6), info(contract(10), None, 1)]
    );
    assert_eq!(services.pending_service_info(&t), vec![info(contract(12), None, 7)]);
    assert_eq!(services.service_id().get_id(&s), 0);
}

#[test]
fn approval_of_unknown_service_is_refused() {
    let mut services = ServiceModule::new();
    assert_eq!(services.approve_service(true, &contract(9)), Err(Error::UnknownService));
    assert_eq!(services.service_id().get_last_id(), 0);
}

#[test]
fn only_the_owner_approves() {
    let fees = fees_accepting_x();
    let mut services = ServiceModule::new();
    let s = contract(9);
    assert_eq!(services.register_service(&fees, &s, vec![arg(contract(10), None, 5)]), Ok(()));
    assert_eq!(services.approve_service(false, &s), Err(Error::NotOwner));
    assert_eq!(services.approve_service(false, &contract(7)), Err(Error::NotOwner));
    assert_eq!(services.pending_services(), vec![s]);
    assert_eq!(services.service_id().get_id(&s), 0);
}

#[test]
fn approval_moves_the_options_under_the_new_number() {
    let fees = fees_accepting_x();
    let mut services = ServiceModule::new();
    let s = contract(9);
    let t = contract(8);
    let u = contract(7);
    assert_eq!(services.register_service(&fees, &s, vec![arg(contract(10), Some(X), 5)]), Ok(()));
    assert_eq!(services.register_service(&fees, &t, vec![arg(contract(11), None, 6)]), Ok(()));
    assert_eq!(services.register_service(&fees, &u, vec![arg(contract(12), None, 7)]), Ok(()));
    assert_eq!(services.approve_service(true, &s), Ok(()));
    assert_eq!(services.service_id().get_id(&s), 1);
    assert_eq!(services.service_info(1), vec![info(contract(10), Some(X), 5)]);
    assert!(services.pending_service_info(&s).is_empty());
    assert_eq!(services.pending_services(), vec![u, t]);
    assert_eq!(services.approve_service(true, &t), Ok(()));
    assert_eq!(services.service_id().get_id(&t), 2);
    assert_eq!(services.service_info(2), vec![info(contract(11), None, 6)]);
    assert_eq!(services.pending_services(), vec![u]);
}

#[test]
fn second_approval_of_the_same_address_is_refused() {
    let fees = fees_accepting_x();
    let (mut services, s) = approved_service_with_two_options(&fees);
    assert_eq!(services.approve_service(true, &s), Err(Error::UnknownService));
    assert_eq!(services.service_id().get_id(&s), 1);
    assert_eq!(services.service_id().get_last_id(), 1);
    assert_eq!(services.service_info(1).len(), 2);
}

#[test]
fn approved_service_cannot_register_again() {
    let fees = fees_accepting_x();
    let (mut services, s) = approved_service_with_two_options(&fees);
    assert_eq!(
        services.register_service(&fees, &s, vec![arg(contract(10), None, 5)]),
        Err(Error::AlreadyRegistered)
    );
    assert_eq!(services.register_service(&fees, &s, vec![]), Err(Error::EmptyArguments));
    assert!(services.pending_services().is_empty());
}

#[test]
fn unregister_without_registration_changes_nothing() {
    let fees = fees_accepting_x();
    let (mut services, s) = approved_service_with_two_options(&fees);
    services.unregister_service(&contract(3));
    assert_eq!(services.service_id().get_id(&s), 1);
    assert_eq!(services.service_info(1).len(), 2);
    assert!(services.pending_services().is_empty());
}

#[test]
fn unregister_of_waiting_service_clears_what_it_registered() {
    let fees = fees_accepting_x();
    let mut services = ServiceModule::new();
    let s = contract(9);
    let t = contract(8);
    assert_eq!(services.register_service(&fees, &s, vec![arg(contract(10), Some(X), 5)]), Ok(()));
    assert_eq!(services.register_service(&fees, &t, vec![arg(contract(11), None, 6)]), Ok(()));
    services.unregister_service(&s);
    assert_eq!(services.pending_services(), vec![t]);
    assert!(services.pending_service_info(&s).is_empty());
    assert_eq!(services.approve_service(true, &s), Err(Error::UnknownService));
    assert_eq!(services.register_service(&fees, &s, vec![arg(contract(12), None, 1)]), Ok(()));
    assert_eq!(services.pending_service_info(&s), vec![info(contract(12), None, 1)]);
    assert_eq!(services.pending_services(), vec![t, s]);
}

#[test]
fn unregister_of_approved_service_clears_its_options() {
    let fees = fees_accepting_x();
    let (mut services, s) = approved_service_with_two_options(&fees);
    services.unregister_service(&s);
    assert_eq!(services.service_id().get_id(&s), 0);
    assert!(services.service_info(1).is_empty());
    assert_eq!(services.register_service(&fees, &s, vec![arg(contract(10), None, 5)]), Ok(()));
    assert_eq!(services.approve_service(true, &s), Ok(()));
    assert_eq!(services.service_id().get_id(&s), 2);
    assert_eq!(services.service_info(2), vec![info(contract(10), None, 5)]);
    assert!(services.service_info(1).is_empty());
}

#[test]
fn first_subscription_records_user_and_type() {
    let mut fees = fees_accepting_x();
    let (mut services, s) = approved_service_with_two_options(&fees);
    let service_id = services.service_id().get_id(&s);
    let caller = account(1);
    assert_eq!(
        services.subscribe(&mut fees, &caller, vec![(service_id, 0, SubscriptionType::Daily)]),
        Ok(())
    );
    let user_id = fees.user_id().get_id(&caller);
    assert_eq!(user_id, 1);
    assert_eq!(services.subscribed_users(service_id, 0), vec![user_id]);
    assert_eq!(services.subscription_type(user_id, service_id, 0), SubscriptionType::Daily);
    assert!(services.subscribed_users(service_id, 1).is_empty());
    assert_eq!(
        services.subscription_type(user_id, service_id, 1),
        SubscriptionType::NoSubscription
    );
}

#[test]
fn subscription_to_missing_option_is_refused() {
    let mut fees = fees_accepting_x();
    let (mut services, _) = approved_service_with_two_options(&fees);
    let caller = account(1);
    assert_eq!(
        services.subscribe(&mut fees, &caller, vec![(1, 2, SubscriptionType::Daily)]),
        Err(Error::InvalidServiceIndex)
    );
    assert_eq!(
        services.subscribe(&mut fees, &caller, vec![(2, 0, SubscriptionType::Daily)]),
        Err(Error::InvalidServiceIndex)
    );
    assert_eq!(
        services.subscribe(&mut fees, &caller, vec![(1, 2, SubscriptionType::NoSubscription)]),
        Err(Error::InvalidServiceIndex)
    );
    assert_eq!(fees.user_id().get_id(&caller), 0);
}

#[test]
fn subscription_without_type_refuses_the_whole_call() {
    let mut fees = fees_accepting_x();
    let (mut services, _) = approved_service_with_two_options(&fees);
    let caller = account(1);
    assert_eq!(
        services.subscribe(
            &mut fees,
            &caller,
            vec![(1, 0, SubscriptionType::Weekly), (1, 1, SubscriptionType::NoSubscription)]
        ),
        Err(Error::InvalidSubscriptionType)
    );
    assert_eq!(fees.user_id().get_id(&caller), 0);
    assert!(services.subscribed_users(1, 0).is_empty());
    assert_eq!(services.subscription_type(1, 1, 0), SubscriptionType::NoSubscription);
}

#[test]
fn subscribing_again_takes_the_new_type() {
    let mut fees = fees_accepting_x();
    let (mut services, _) = approved_service_with_two_options(&fees);
    let caller = account(1);
    assert_eq!(
        services.subscribe(
            &mut fees,
            &caller,
            vec![(1, 0, SubscriptionType::Daily), (1, 1, SubscriptionType::Weekly)]
        ),
        Ok(())
    );
    assert_eq!(services.subscribe(&mut fees, &caller, vec![(1, 0, SubscriptionType::Monthly)]), Ok(()));
    assert_eq!(services.subscribed_users(1, 0), vec![1]);
    assert_eq!(services.subscribed_users(1, 1), vec![1]);
    assert_eq!(services.subscription_type(1, 1, 0), SubscriptionType::Monthly);
    assert_eq!(services.subscription_type(1, 1, 1), SubscriptionType::Weekly);
}

#[test]
fn empty_subscription_gives_the_caller_a_number() {
    let mut fees = fees_accepting_x();
    let (mut services, _) = approved_service_with_two_options(&fees);
    assert_eq!(services.subscribe(&mut fees, &account(1), vec![]), Ok(()));
    assert_eq!(fees.user_id().get_id(&account(1)), 1);
}

#[test]
fn unsubscribe_after_subscribe_restores_the_subscribers() {
    let mut fees = fees_accepting_x();
    let (mut services, _) = approved_service_with_two_options(&fees);
    assert_eq!(services.subscribe(&mut fees, &account(1), vec![(1, 0, SubscriptionType::Daily)]), Ok(()));
    let before = services.subscribed_users(1, 0);
    assert_eq!(before, vec![1]);
    assert_eq!(services.subscribe(&mut fees, &account(2), vec![(1, 0, SubscriptionType::Weekly)]), Ok(()));
    assert_eq!(services.subscribed_users(1, 0), vec![1, 2]);
    assert_eq!(services.unsubscribe(&fees, &account(2), vec![(1, 0)]), Ok(()));
    assert_eq!(services.subscribed_users(1, 0), before);
    assert_eq!(services.subscription_type(2, 1, 0), SubscriptionType::NoSubscription);
    assert_eq!(services.subscription_type(1, 1, 0), SubscriptionType::Daily);
}

#[test]
fn unsubscribe_without_subscription_changes_nothing() {
    let mut fees = fees_accepting_x();
    let (mut services, _) = approved_service_with_two_options(&fees);
    assert_eq!(services.subscribe(&mut fees, &account(1), vec![(1, 0, SubscriptionType::Daily)]), Ok(()));
    assert_eq!(services.unsubscribe(&fees, &account(1), vec![(1, 1), (1, 1)]), Ok(()));
    assert_eq!(services.subscribed_users(1, 0), vec![1]);
    assert!(services.subscribed_users(1, 1).is_empty());
    assert_eq!(services.subscription_type(1, 1, 0), SubscriptionType::Daily);
}

#[test]
fn unsubscribe_by_unknown_user_changes_nothing() {
    let mut fees = fees_accepting_x();
    let (mut services, _) = approved_service_with_two_options(&fees);
    assert_eq!(services.subscribe(&mut fees, &account(1), vec![(1, 0, SubscriptionType::Daily)]), Ok(()));
    assert_eq!(services.unsubscribe(&fees, &account(2), vec![(1, 0), (1, 1)]), Ok(()));
    assert_eq!(services.unsubscribe(&fees, &account(2), vec![]), Ok(()));
    assert_eq!(services.unsubscribe(&fees, &account(2), vec![(1, 5)]), Err(Error::InvalidServiceIndex));
    assert_eq!(fees.user_id().get_id(&account(2)), 0);
    assert_eq!(services.subscribed_users(1, 0), vec![1]);
    assert_eq!(services.subscription_type(1, 1, 0), SubscriptionType::Daily);
}

#[test]
fn unsubscribe_from_missing_option_refuses_the_whole_call() {
    let mut fees = fees_accepting_x();
    let (mut services, _) = approved_service_with_two_options(&fees);
    assert_eq!(services.subscribe(&mut fees, &account(1), vec![(1, 0, SubscriptionType::Daily)]), Ok(()));
    assert_eq!(
        services.unsubscribe(&fees, &account(1), vec![(1, 0), (1, 2)]),
        Err(Error::InvalidServiceIndex)
    );
    assert_eq!(services.subscribed_users(1, 0), vec![1]);
    assert_eq!(services.subscription_type(1, 1, 0), SubscriptionType::Daily);
}

#[test]
fn subscriptions_outlive_the_service_but_cannot_change() {
    let mut fees = fees_accepting_x();
    let (mut services, s) = approved_service_with_two_options(&fees);
    assert_eq!(services.subscribe(&mut fees, &account(1), vec![(1, 0, SubscriptionType::Daily)]), Ok(()));
    services.unregister_service(&s);
    assert_eq!(services.subscribed_users(1, 0), vec![1]);
    assert_eq!(services.unsubscribe(&fees, &account(1), vec![(1, 0)]), Err(Error::InvalidServiceIndex));
    assert_eq!(
        services.subscribe(&mut fees, &account(1), vec![(1, 0, SubscriptionType::Weekly)]),
        Err(Error::InvalidServiceIndex)
    );
}

#[test]
fn price_venue_is_set_asked_and_removed() {
    let mut pairs = PairActionsModule::new(contract(20));
    assert_eq!(pairs.price_query_address(), contract(20));
    assert_eq!(pairs.get_price(tid(X), amount(5)), Err(()));
    assert_eq!(pairs.add_usdc_pair(true, tid(X), contract(21)), Ok(()));
    assert_eq!(pairs.add_usdc_pair(true, tid(Y), contract(22)), Ok(()));
    assert_eq!(
        pairs.get_price(tid(X), amount(5)),
        Ok(SafePriceQuery {
            price_query_address: contract(20),
            pair_address: contract(21),
            input_payment: DctTokenPayment::new(tid(X), amount(5)),
        })
    );
    assert_eq!(pairs.add_usdc_pair(true, tid(X), contract(23)), Ok(()));
    assert_eq!(pairs.pair_address_for_token(&tid(X)), Some(contract(23)));
    assert_eq!(pairs.pair_address_for_token(&tid(Y)), Some(contract(22)));
    assert_eq!(pairs.remove_usdc_pair(true, tid(X)), Ok(()));
    assert_eq!(pairs.get_price(tid(X), amount(5)), Err(()));
    assert_eq!(pairs.pair_address_for_token(&tid(Y)), Some(contract(22)));
    assert_eq!(pairs.remove_usdc_pair(true, tid(X)), Ok(()));
}

#[test]
fn price_venue_changes_are_refused_with_reasons() {
    let mut pairs = PairActionsModule::new(contract(20));
    assert_eq!(pairs.add_usdc_pair(false, tid(X), contract(21)), Err(Error::NotOwner));
    assert_eq!(pairs.add_usdc_pair(true, tid("nope"), contract(21)), Err(Error::InvalidTokenId));
    assert_eq!(pairs.add_usdc_pair(true, tid("nope"), account(1)), Err(Error::InvalidTokenId));
    assert_eq!(pairs.add_usdc_pair(true, tid(X), account(1)), Err(Error::InvalidPairAddress));
    assert_eq!(pairs.pair_address_for_token(&tid(X)), None);
    assert_eq!(pairs.add_usdc_pair(true, tid(X), contract(21)), Ok(()));
    assert_eq!(pairs.remove_usdc_pair(false, tid(X)), Err(Error::NotOwner));
    assert_eq!(pairs.pair_address_for_token(&tid(X)), Some(contract(21)));
}

struct EchoSubscriber;

impl SubscriberContract for EchoSubscriber {
    type SubSc = u64;
    type AdditionalDataType = AdditionalFarmData;

    fn perform_action(
        sc: &u64,
        _user_address: Address,
        service_index: usize,
        service_info: &ServiceInfo,
        additional_data: &AdditionalFarmData,
    ) -> Result<InterpretedResult, ()> {
        if service_index > 0 || additional_data.dummy_data != 0 {
            return Err(());
        }
        Ok(InterpretedResult {
            user_rewards: vec![DctTokenPayment::new(tid(X), service_info.amount.add(&amount(*sc)))],
        })
    }
}

#[test]
fn subscriber_contract_carries_out_its_action() {
    let option = info(contract(10), Some(X), 5);
    let data = AdditionalFarmData { dummy_data: 0 };
    assert_eq!(
        EchoSubscriber::perform_action(&2, account(1), 0, &option, &data),
        Ok(InterpretedResult { user_rewards: vec![DctTokenPayment::new(tid(X), amount(7))] })
    );
    assert_eq!(EchoSubscriber::perform_action(&2, account(1), 1, &option, &data), Err(()));
}
