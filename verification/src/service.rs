//! The service registry: services that wait for approval, approved services with their
//! options, and the users' subscriptions.

use crate::address::{all_zero, has_smart_contract_prefix, Address};
use crate::address_to_id_mapper::{AddressId, AddressToIdMapper, IdTable, NULL_ID};
use crate::big_uint::BigUint;
use crate::errors::Error;
use crate::fees::{assets_view, contains_token, FeesModule, FeesState};
use crate::token::{Asset, MoaxOrDctTokenIdentifier};
use std::collections::HashMap;
use vstd::prelude::*;

verus! {

broadcast use vstd::std_specs::hash::group_hash_axioms;

/// One paid option of a service in the model.
pub struct ServiceInfoView {
    pub sc_address: Seq<u8>,
    pub opt_payment_token: Option<Asset>,
    pub amount: nat,
}

/// One paid option of a service: where it is carried out, in which asset it is paid, if in
/// a given one, and its price, which the service itself makes use of.
#[derive(Debug, PartialEq, Eq)]
pub struct ServiceInfo {
    pub sc_address: Address,
    pub opt_payment_token: Option<MoaxOrDctTokenIdentifier>,
    pub amount: BigUint,
}

impl View for ServiceInfo {
    type V = ServiceInfoView;

    open spec fn view(&self) -> ServiceInfoView {
        ServiceInfoView {
            sc_address: self.sc_address@,
            opt_payment_token: match self.opt_payment_token {
                Some(token) => Some(token@),
                None => None,
            },
            amount: self.amount@,
        }
    }
}

impl Clone for ServiceInfo {
    fn clone(&self) -> (r: ServiceInfo)
        ensures
            r@ == self@,
    {
        ServiceInfo {
            sc_address: self.sc_address,
            opt_payment_token: match &self.opt_payment_token {
                Some(token) => Some(token.clone()),
                None => None,
            },
            amount: self.amount.clone(),
        }
    }
}

/// How often a subscription is carried out. `NoSubscription` stands for none at all.
#[derive(Clone, Copy, Debug, PartialEq, Eq, Structural)]
pub enum SubscriptionType {
    NoSubscription,
    Daily,
    Weekly,
    Monthly,
}

/// The options in the model.
pub open spec fn infos_view(infos: Seq<ServiceInfo>) -> Seq<ServiceInfoView> {
    infos.map_values(|info: ServiceInfo| info@)
}

/// The arguments of a registration in the model.
pub open spec fn args_view(
    args: Seq<(Address, Option<MoaxOrDctTokenIdentifier>, BigUint)>,
) -> Seq<ServiceInfoView> {
    args.map_values(
        |arg: (Address, Option<MoaxOrDctTokenIdentifier>, BigUint)|
            ServiceInfoView {
                sc_address: arg.0@,
                opt_payment_token: match arg.1 {
                    Some(token) => Some(token@),
                    None => None,
                },
                amount: arg.2@,
            },
    )
}

/// A destination is valid where it is the address of a smart contract and not the zero
/// address.
pub open spec fn valid_destination(sc_address: Seq<u8>) -> bool {
    has_smart_contract_prefix(sc_address) && !all_zero(sc_address)
}

/// Why an option is refused, if it is: for its destination first, then for its asset, which
/// must be an accepted one where the option names one.
pub open spec fn option_error(accepted: Seq<Asset>, option: ServiceInfoView) -> Option<Error> {
    if !valid_destination(option.sc_address) {
        Some(Error::InvalidDestination)
    } else if option.opt_payment_token is Some && !accepted.contains(
        option.opt_payment_token->Some_0,
    ) {
        Some(Error::InvalidPaymentToken)
    } else {
        None
    }
}

/// Why a list of options is refused, if it is: for the first option that is refused.
pub open spec fn options_error(accepted: Seq<Asset>, options: Seq<ServiceInfoView>) -> Option<
    Error,
>
    decreases options.len(),
{
    if options.len() == 0 {
        None
    } else {
        match options_error(accepted, options.drop_last()) {
            Some(e) => Some(e),
            None => option_error(accepted, options.last()),
        }
    }
}

/// The set after the address was added: appended, unless it is in the set already.
pub open spec fn insert_address(addresses: Seq<Seq<u8>>, address: Seq<u8>) -> Seq<Seq<u8>> {
    if addresses.contains(address) {
        addresses
    } else {
        addresses.push(address)
    }
}

/// The set after the address was removed: the last address takes its place.
pub open spec fn swap_remove_address(addresses: Seq<Seq<u8>>, address: Seq<u8>) -> Seq<Seq<u8>> {
    if addresses.contains(address) {
        addresses.update(addresses.index_of(address), addresses.last()).drop_last()
    } else {
        addresses
    }
}

/// The registry in the model.
pub struct ServiceState {
    /// The numbers of the approved services.
    pub service_id: IdTable,
    /// The addresses that wait for approval, each of them once.
    pub pending_services: Seq<Seq<u8>>,
    /// The options that each waiting address has registered; empty for any other address.
    pub pending_service_info: Map<Seq<u8>, Seq<ServiceInfoView>>,
    /// The options of each approved service; empty for any other number.
    pub service_info: Map<nat, Seq<ServiceInfoView>>,
    /// The users that subscribe to an option, by the service's number and the option's
    /// index.
    pub subscribed_users: Map<(nat, nat), Set<nat>>,
    /// The type of a subscription, by the user's number, the service's number and the
    /// option's index; `NoSubscription` where the user does not subscribe to the option.
    pub subscription_type: Map<(nat, nat, nat), SubscriptionType>,
}

impl ServiceState {
    /// The registry without services and subscriptions.
    pub open spec fn empty() -> ServiceState {
        ServiceState {
            service_id: IdTable::empty(),
            pending_services: Seq::empty(),
            pending_service_info: Map::total(|a: Seq<u8>| Seq::<ServiceInfoView>::empty()),
            service_info: Map::total(|id: nat| Seq::<ServiceInfoView>::empty()),
            subscribed_users: Map::total(|k: (nat, nat)| Set::<nat>::empty()),
            subscription_type: Map::total(|k: (nat, nat, nat)| SubscriptionType::NoSubscription),
        }
    }

    /// In a well-formed registry no address waits twice, an address has registered options
    /// exactly while it waits, no waiting address is an approved service, and a user is
    /// among the subscribers of an option exactly where its subscription has a type.
    pub open spec fn well_formed(self) -> bool {
        &&& self.service_id.well_formed()
        &&& self.pending_services.no_duplicates()
        &&& forall|a: Seq<u8>| #[trigger] self.pending_service_info.contains_key(a)
        &&& forall|a: Seq<u8>|
            self.pending_services.contains(a) <==> (#[trigger] self.pending_service_info[a]).len()
                > 0
        &&& forall|a: Seq<u8>| #[trigger]
            self.pending_services.contains(a) ==> self.service_id.get_id(a) == 0
        &&& forall|id: nat| #[trigger] self.service_info.contains_key(id)
        &&& forall|k: (nat, nat)| #[trigger] self.subscribed_users.contains_key(k)
        &&& forall|k: (nat, nat, nat)| #[trigger] self.subscription_type.contains_key(k)
        &&& forall|user: nat, service: nat, index: nat|
            self.subscribed_users[(service, index)].contains(user) <==> #[trigger] self.subscription_type[(
                user,
                service,
                index,
            )] != SubscriptionType::NoSubscription
    }

    /// A service registers options and waits for approval. The caller must not be an
    /// approved service, and each option must have a valid destination and, where it names
    /// an asset, an accepted one. The options are added to those that the caller has
    /// registered before.
    pub open spec fn register_service(
        self,
        accepted: Seq<Asset>,
        caller: Seq<u8>,
        options: Seq<ServiceInfoView>,
    ) -> Result<ServiceState, Error> {
        if options.len() == 0 {
            Err(Error::EmptyArguments)
        } else if self.service_id.get_id(caller) != 0 {
            Err(Error::AlreadyRegistered)
        } else if options_error(accepted, options) is Some {
            Err(options_error(accepted, options)->Some_0)
        } else {
            Ok(
                ServiceState {
                    pending_services: insert_address(self.pending_services, caller),
                    pending_service_info: self.pending_service_info.insert(
                        caller,
                        self.pending_service_info[caller] + options,
                    ),
                    ..self
                },
            )
        }
    }

    /// A service withdraws: it loses its number and its approved options, if it has any,
    /// and no longer waits for approval.
    pub open spec fn unregister_service(self, caller: Seq<u8>) -> ServiceState {
        let id = self.service_id.get_id(caller);
        ServiceState {
            service_id: self.service_id.remove_by_address(caller),
            service_info: if id != 0 {
                self.service_info.insert(id, Seq::empty())
            } else {
                self.service_info
            },
            pending_services: swap_remove_address(self.pending_services, caller),
            pending_service_info: self.pending_service_info.insert(caller, Seq::empty()),
            ..self
        }
    }

    /// The owner approves a waiting service: it gets the next number, under which its
    /// registered options stand from then on, and no longer waits.
    pub open spec fn approve_service(self, caller_is_owner: bool, address: Seq<u8>) -> Result<
        ServiceState,
        Error,
    > {
        if !caller_is_owner {
            Err(Error::NotOwner)
        } else if !self.pending_services.contains(address) {
            Err(Error::UnknownService)
        } else if self.service_id.get_id(address) != 0 {
            Err(Error::AlreadyRegistered)
        } else {
            Ok(
                ServiceState {
                    service_id: self.service_id.insert_address(address),
                    service_info: self.service_info.insert(
                        self.service_id.last_id + 1,
                        self.pending_service_info[address],
                    ),
                    pending_services: swap_remove_address(self.pending_services, address),
                    pending_service_info: self.pending_service_info.insert(address, Seq::empty()),
                    ..self
                },
            )
        }
    }
}

/// The requests of a call of `subscribe` in the model.
pub open spec fn subscribe_requests_view(
    requests: Seq<(AddressId, usize, SubscriptionType)>,
) -> Seq<(nat, nat, SubscriptionType)> {
    requests.map_values(
        |r: (AddressId, usize, SubscriptionType)| (r.0 as nat, r.1 as nat, r.2),
    )
}

/// The requests of a call of `unsubscribe` in the model.
pub open spec fn unsubscribe_requests_view(requests: Seq<(AddressId, usize)>) -> Seq<(nat, nat)> {
    requests.map_values(|r: (AddressId, usize)| (r.0 as nat, r.1 as nat))
}

impl ServiceState {
    /// Whether the service of that number has an option of that index.
    pub open spec fn has_option(self, service: nat, index: nat) -> bool {
        index < self.service_info[service].len()
    }

    /// Why a request to subscribe is refused, if it is: for its index first, then for its
    /// type.
    pub open spec fn subscribe_request_error(
        self,
        request: (nat, nat, SubscriptionType),
    ) -> Option<Error> {
        if !self.has_option(request.0, request.1) {
            Some(Error::InvalidServiceIndex)
        } else if request.2 == SubscriptionType::NoSubscription {
            Some(Error::InvalidSubscriptionType)
        } else {
            None
        }
    }

    /// Why a call of `subscribe` is refused, if it is: for the first request that is
    /// refused.
    pub open spec fn subscribe_error(self, requests: Seq<(nat, nat, SubscriptionType)>) -> Option<
        Error,
    >
        decreases requests.len(),
    {
        if requests.len() == 0 {
            None
        } else {
            match self.subscribe_error(requests.drop_last()) {
                Some(e) => Some(e),
                None => self.subscribe_request_error(requests.last()),
            }
        }
    }

    /// The user subscribes to an option, or changes the type of its subscription.
    pub open spec fn subscribe_one(
        self,
        user: nat,
        service: nat,
        index: nat,
        subscription_type: SubscriptionType,
    ) -> ServiceState {
        ServiceState {
            subscription_type: self.subscription_type.insert(
                (user, service, index),
                subscription_type,
            ),
            subscribed_users: self.subscribed_users.insert(
                (service, index),
                self.subscribed_users[(service, index)].insert(user),
            ),
            ..self
        }
    }

    /// The requests of a call of `subscribe`, one after the other.
    pub open spec fn subscribe_all(
        self,
        user: nat,
        requests: Seq<(nat, nat, SubscriptionType)>,
    ) -> ServiceState
        decreases requests.len(),
    {
        if requests.len() == 0 {
            self
        } else {
            self.subscribe_all(user, requests.drop_last()).subscribe_one(
                user,
                requests.last().0,
                requests.last().1,
                requests.last().2,
            )
        }
    }

    /// A user subscribes to options of services. The call is refused as a whole where a
    /// request names an option that the service does not have, or no type. Else the
    /// caller gets a user number, where it has none, and each request is recorded.
    pub open spec fn subscribe(
        self,
        fees: FeesState,
        caller: Seq<u8>,
        requests: Seq<(nat, nat, SubscriptionType)>,
    ) -> Result<(ServiceState, FeesState), Error> {
        match self.subscribe_error(requests) {
            Some(e) => Err(e),
            None => {
                let registered = fees.register_user(caller);
                Ok((self.subscribe_all(registered.user_id.get_id(caller), requests), registered))
            },
        }
    }

    /// Why a call of `unsubscribe` is refused for its requests, if it is: for the first
    /// request that names an option that the service does not have.
    pub open spec fn unsubscribe_error(self, requests: Seq<(nat, nat)>) -> Option<Error>
        decreases requests.len(),
    {
        if requests.len() == 0 {
            None
        } else {
            match self.unsubscribe_error(requests.drop_last()) {
                Some(e) => Some(e),
                None => if !self.has_option(requests.last().0, requests.last().1) {
                    Some(Error::InvalidServiceIndex)
                } else {
                    None
                },
            }
        }
    }

    /// The user no longer subscribes to the option.
    pub open spec fn unsubscribe_one(self, user: nat, service: nat, index: nat) -> ServiceState {
        ServiceState {
            subscription_type: self.subscription_type.insert(
                (user, service, index),
                SubscriptionType::NoSubscription,
            ),
            subscribed_users: self.subscribed_users.insert(
                (service, index),
                self.subscribed_users[(service, index)].remove(user),
            ),
            ..self
        }
    }

    /// The requests of a call of `unsubscribe`, one after the other.
    pub open spec fn unsubscribe_all(self, user: nat, requests: Seq<(nat, nat)>) -> ServiceState
        decreases requests.len(),
    {
        if requests.len() == 0 {
            self
        } else {
            self.unsubscribe_all(user, requests.drop_last()).unsubscribe_one(
                user,
                requests.last().0,
                requests.last().1,
            )
        }
    }

    /// A user ends subscriptions. The call is refused as a whole where a request names an
    /// option that the service does not have. A request for an option to which the caller
    /// does not subscribe changes nothing; a caller without a user number subscribes to
    /// nothing.
    pub open spec fn unsubscribe(
        self,
        fees: FeesState,
        caller: Seq<u8>,
        requests: Seq<(nat, nat)>,
    ) -> Result<ServiceState, Error> {
        let user = fees.user_id.get_id(caller);
        match self.unsubscribe_error(requests) {
            Some(e) => Err(e),
            None => if user == 0 {
                Ok(self)
            } else {
                Ok(self.unsubscribe_all(user, requests))
            },
        }
    }
}

/// The first refused request decides why a call of `subscribe` is refused.
pub proof fn lemma_subscribe_error_at(
    state: ServiceState,
    requests: Seq<(nat, nat, SubscriptionType)>,
    i: int,
)
    requires
        0 <= i < requests.len(),
        state.subscribe_error(requests.take(i)) is None,
        state.subscribe_request_error(requests[i]) is Some,
    ensures
        state.subscribe_error(requests) == state.subscribe_request_error(requests[i]),
    decreases requests.len(),
{
    if i == requests.len() - 1 {
        assert(requests.drop_last() =~= requests.take(i));
    } else {
        assert(requests.drop_last().take(i) =~= requests.take(i));
        lemma_subscribe_error_at(state, requests.drop_last(), i);
    }
}

/// A call of `subscribe` that is not refused holds no request that is.
pub proof fn lemma_subscribe_error_prefix(
    state: ServiceState,
    requests: Seq<(nat, nat, SubscriptionType)>,
    i: int,
)
    requires
        0 <= i < requests.len(),
        state.subscribe_error(requests) is None,
    ensures
        state.subscribe_request_error(requests[i]) is None,
        state.subscribe_error(requests.take(i)) is None,
    decreases requests.len(),
{
    if i == requests.len() - 1 {
        assert(requests.drop_last() =~= requests.take(i));
    } else {
        assert(requests.drop_last().take(i) =~= requests.take(i));
        lemma_subscribe_error_prefix(state, requests.drop_last(), i);
    }
}

/// The first refused request decides why a call of `unsubscribe` is refused.
pub proof fn lemma_unsubscribe_error_at(state: ServiceState, requests: Seq<(nat, nat)>, i: int)
    requires
        0 <= i < requests.len(),
        state.unsubscribe_error(requests.take(i)) is None,
        !state.has_option(requests[i].0, requests[i].1),
    ensures
        state.unsubscribe_error(requests) == Some(Error::InvalidServiceIndex),
    decreases requests.len(),
{
    if i == requests.len() - 1 {
        assert(requests.drop_last() =~= requests.take(i));
    } else {
        assert(requests.drop_last().take(i) =~= requests.take(i));
        lemma_unsubscribe_error_at(state, requests.drop_last(), i);
    }
}

/// The first refused option decides why a list of options is refused.
pub proof fn lemma_options_error_at(accepted: Seq<Asset>, options: Seq<ServiceInfoView>, i: int)
    requires
        0 <= i < options.len(),
        options_error(accepted, options.take(i)) is None,
        option_error(accepted, options[i]) is Some,
    ensures
        options_error(accepted, options) == option_error(accepted, options[i]),
    decreases options.len(),
{
    if i == options.len() - 1 {
        assert(options.drop_last() =~= options.take(i));
    } else {
        assert(options.drop_last().take(i) =~= options.take(i));
        lemma_options_error_at(accepted, options.drop_last(), i);
    }
}

/// A service that waits for approval, with the options that it has registered.
struct PendingService {
    address: Address,
    options: Vec<ServiceInfo>,
}

/// One subscription of a user to an option of a service.
struct Subscription {
    user_id: AddressId,
    service_id: AddressId,
    service_index: usize,
    subscription_type: SubscriptionType,
}

/// Whether entry `i` is that of the address.
spec fn pending_at(pending: Seq<PendingService>, i: int, address: Seq<u8>) -> bool {
    0 <= i < pending.len() && pending[i].address@ == address
}

spec fn pending_addresses(pending: Seq<PendingService>) -> Seq<Seq<u8>> {
    pending.map_values(|p: PendingService| p.address@)
}

spec fn pending_info(pending: Seq<PendingService>) -> Map<Seq<u8>, Seq<ServiceInfoView>> {
    Map::total(
        |a: Seq<u8>|
            if exists|i: int| pending_at(pending, i, a) {
                infos_view(pending[choose|i: int| pending_at(pending, i, a)].options@)
            } else {
                Seq::<ServiceInfoView>::empty()
            },
    )
}

spec fn approved_info(m: Map<AddressId, Vec<ServiceInfo>>) -> Map<nat, Seq<ServiceInfoView>> {
    Map::total(
        |id: nat|
            if id <= u64::MAX && m.contains_key(id as AddressId) {
                infos_view(m[id as AddressId]@)
            } else {
                Seq::<ServiceInfoView>::empty()
            },
    )
}

/// Whether entry `i` is the subscription of the user to the option.
spec fn subscription_at(
    subscriptions: Seq<Subscription>,
    i: int,
    user: nat,
    service: nat,
    index: nat,
) -> bool {
    0 <= i < subscriptions.len() && subscriptions[i].user_id == user && subscriptions[i].service_id
        == service && subscriptions[i].service_index == index
}

spec fn subscribers_of(subscriptions: Seq<Subscription>) -> Map<(nat, nat), Set<nat>> {
    Map::total(
        |k: (nat, nat)|
            Set::new(|user: nat| exists|i: int| subscription_at(subscriptions, i, user, k.0, k.1)),
    )
}

spec fn types_of(subscriptions: Seq<Subscription>) -> Map<(nat, nat, nat), SubscriptionType> {
    Map::total(
        |k: (nat, nat, nat)|
            if exists|i: int| subscription_at(subscriptions, i, k.0, k.1, k.2) {
                subscriptions[choose|i: int|
                    subscription_at(subscriptions, i, k.0, k.1, k.2)].subscription_type
            } else {
                SubscriptionType::NoSubscription
            },
    )
}

/// Whether no address has two entries, and every entry has options.
spec fn pending_wf(pending: Seq<PendingService>) -> bool {
    &&& forall|i: int, j: int|
        0 <= i < j < pending.len() ==> (#[trigger] pending[i]).address@ != (
        #[trigger] pending[j]).address@
    &&& forall|i: int| 0 <= i < pending.len() ==> (#[trigger] pending[i]).options@.len() > 0
}

/// Whether the two entries are of the same user and the same option.
spec fn same_subscription(a: Subscription, b: Subscription) -> bool {
    a.user_id == b.user_id && a.service_id == b.service_id && a.service_index == b.service_index
}

/// Whether no subscription has two entries, and every entry has a type.
spec fn subscriptions_wf(subscriptions: Seq<Subscription>) -> bool {
    &&& forall|i: int, j: int|
        0 <= i < j < subscriptions.len() ==> !same_subscription(
            #[trigger] subscriptions[i],
            #[trigger] subscriptions[j],
        )
    &&& forall|i: int|
        0 <= i < subscriptions.len() ==> (#[trigger] subscriptions[i]).subscription_type
            != SubscriptionType::NoSubscription
}

proof fn lemma_pending_info_at(pending: Seq<PendingService>, i: int)
    requires
        pending_wf(pending),
        0 <= i < pending.len(),
    ensures
        pending_info(pending)[pending[i].address@] == infos_view(pending[i].options@),
        pending_addresses(pending).contains(pending[i].address@),
        pending_addresses(pending).index_of(pending[i].address@) == i,
{
    let a = pending[i].address@;
    assert(pending_at(pending, i, a));
    let c = choose|c: int| pending_at(pending, c, a);
    assert(c == i);
    let addresses = pending_addresses(pending);
    assert(addresses[i] == a);
    let k = addresses.index_of(a);
    assert(0 <= k < addresses.len() && addresses[k] == a);
    assert(pending[k].address@ == a);
}

proof fn lemma_pending_info_absent(pending: Seq<PendingService>, address: Seq<u8>)
    requires
        forall|i: int| 0 <= i < pending.len() ==> (#[trigger] pending[i]).address@ != address,
    ensures
        pending_info(pending)[address] == Seq::<ServiceInfoView>::empty(),
        !pending_addresses(pending).contains(address),
{
    let addresses = pending_addresses(pending);
    if addresses.contains(address) {
        let k = choose|k: int| 0 <= k < addresses.len() && addresses[k] == address;
        assert(pending[k].address@ == address);
    }
}

/// The views of two lists of waiting services agree at every address but one, where each
/// entry of the second list is an entry of the first and the other way round.
proof fn lemma_pending_info_same_elsewhere(
    before: Seq<PendingService>,
    after: Seq<PendingService>,
    address: Seq<u8>,
    options: Seq<ServiceInfoView>,
)
    requires
        pending_wf(before),
        pending_wf(after),
        forall|i: int|
            0 <= i < before.len() && (#[trigger] before[i]).address@ != address ==> exists|j: int|
                0 <= j < after.len() && #[trigger] after[j] == before[i],
        forall|j: int|
            0 <= j < after.len() && (#[trigger] after[j]).address@ != address ==> exists|i: int|
                0 <= i < before.len() && #[trigger] before[i] == after[j],
        pending_info(after)[address] == options,
    ensures
        pending_info(after) == pending_info(before).insert(address, options),
{
    let expected = pending_info(before).insert(address, options);
    assert forall|a: Seq<u8>| #[trigger] pending_info(after)[a] == expected[a] by {
        if a != address {
            if exists|i: int| pending_at(before, i, a) {
                let i = choose|i: int| pending_at(before, i, a);
                assert(pending_at(before, i, a));
                let j = choose|j: int| 0 <= j < after.len() && #[trigger] after[j] == before[i];
                lemma_pending_info_at(before, i);
                lemma_pending_info_at(after, j);
            } else {
                if exists|j: int| pending_at(after, j, a) {
                    let j = choose|j: int| pending_at(after, j, a);
                    assert(pending_at(after, j, a));
                    let i = choose|i: int| 0 <= i < before.len() && #[trigger] before[i] == after[j];
                    assert(pending_at(before, i, a));
                }
            }
        }
    }
    assert(pending_info(after) =~= expected);
}

/// Removing one entry, with the last entry taking its place, removes its address from the
/// waiting ones and leaves the others as they are.
proof fn lemma_pending_swap_remove(before: Seq<PendingService>, i: int)
    requires
        pending_wf(before),
        0 <= i < before.len(),
    ensures
        pending_wf(before.update(i, before.last()).drop_last()),
        pending_addresses(before.update(i, before.last()).drop_last()) == swap_remove_address(
            pending_addresses(before),
            before[i].address@,
        ),
        pending_info(before.update(i, before.last()).drop_last()) == pending_info(before).insert(
            before[i].address@,
            Seq::empty(),
        ),
        forall|j: int|
            0 <= j < before.len() - 1 ==> exists|k: int|
                0 <= k < before.len() && before[k] == #[trigger] before.update(
                    i,
                    before.last(),
                ).drop_last()[j],
{
    let after = before.update(i, before.last()).drop_last();
    let address = before[i].address@;
    let last = before.len() - 1;
    assert forall|j: int| 0 <= j < after.len() implies after[j] == before[if j == i {
        last
    } else {
        j
    }] by {}
    assert forall|x: int, y: int| 0 <= x < y < after.len() implies (#[trigger] after[x]).address@
        != (#[trigger] after[y]).address@ by {
        let x0 = if x == i { last } else { x };
        let y0 = if y == i { last } else { y };
        assert(after[x] == before[x0]);
        assert(after[y] == before[y0]);
    }
    assert forall|x: int| 0 <= x < after.len() implies (#[trigger] after[x]).options@.len() > 0 by {
        let x0 = if x == i { last } else { x };
        assert(after[x] == before[x0]);
    }
    assert forall|x: int| 0 <= x < after.len() implies (#[trigger] after[x]).address@ != address by {
        let x0 = if x == i { last } else { x };
        assert(after[x] == before[x0]);
    }
    lemma_pending_info_absent(after, address);
    lemma_pending_info_at(before, i);
    assert forall|x: int|
        0 <= x < before.len() && (#[trigger] before[x]).address@ != address implies exists|y: int|
        0 <= y < after.len() && #[trigger] after[y] == before[x] by {
        if x == last {
            assert(after[i] == before[x]);
        } else {
            assert(after[x] == before[x]);
        }
    }
    assert forall|y: int|
        0 <= y < after.len() && (#[trigger] after[y]).address@ != address implies exists|x: int|
        0 <= x < before.len() && #[trigger] before[x] == after[y] by {
        let y0 = if y == i { last } else { y };
        assert(before[y0] == after[y]);
    }
    lemma_pending_info_same_elsewhere(before, after, address, Seq::empty());
    assert(pending_addresses(after) =~= swap_remove_address(pending_addresses(before), address));
    assert forall|j: int| 0 <= j < before.len() - 1 implies exists|k: int|
        0 <= k < before.len() && before[k] == #[trigger] after[j] by {
        let j0 = if j == i { last } else { j };
        assert(before[j0] == after[j]);
    }
}

/// What the views say of an entry of the list of subscriptions.
proof fn lemma_subscription_at(subscriptions: Seq<Subscription>, i: int)
    requires
        subscriptions_wf(subscriptions),
        0 <= i < subscriptions.len(),
    ensures
        types_of(subscriptions)[(
            subscriptions[i].user_id as nat,
            subscriptions[i].service_id as nat,
            subscriptions[i].service_index as nat,
        )] == subscriptions[i].subscription_type,
        subscribers_of(subscriptions)[(
            subscriptions[i].service_id as nat,
            subscriptions[i].service_index as nat,
        )].contains(subscriptions[i].user_id as nat),
{
    let user = subscriptions[i].user_id as nat;
    let service = subscriptions[i].service_id as nat;
    let index = subscriptions[i].service_index as nat;
    assert(subscription_at(subscriptions, i, user, service, index));
    let c = choose|c: int| subscription_at(subscriptions, c, user, service, index);
    if c < i {
        assert(same_subscription(subscriptions[c], subscriptions[i]));
    } else if i < c {
        assert(same_subscription(subscriptions[i], subscriptions[c]));
    }
}

/// What the views say of a subscription that has no entry.
proof fn lemma_subscription_absent(
    subscriptions: Seq<Subscription>,
    user: nat,
    service: nat,
    index: nat,
)
    requires
        forall|i: int| !subscription_at(subscriptions, i, user, service, index),
    ensures
        types_of(subscriptions)[(user, service, index)] == SubscriptionType::NoSubscription,
        !subscribers_of(subscriptions)[(service, index)].contains(user),
{
}

/// Where two lists of subscriptions hold the same entries but for one subscription, their
/// views differ at that subscription alone.
proof fn lemma_subscriptions_same_elsewhere(
    before: Seq<Subscription>,
    after: Seq<Subscription>,
    user: nat,
    service: nat,
    index: nat,
)
    requires
        subscriptions_wf(before),
        subscriptions_wf(after),
        forall|i: int|
            0 <= i < before.len() && !subscription_at(before, i, user, service, index)
                ==> exists|j: int| 0 <= j < after.len() && #[trigger] after[j] == before[i],
        forall|j: int|
            0 <= j < after.len() && !subscription_at(after, j, user, service, index)
                ==> exists|i: int| 0 <= i < before.len() && #[trigger] before[i] == after[j],
    ensures
        types_of(after) == types_of(before).insert(
            (user, service, index),
            types_of(after)[(user, service, index)],
        ),
        subscribers_of(after) == subscribers_of(before).insert(
            (service, index),
            if exists|j: int| subscription_at(after, j, user, service, index) {
                subscribers_of(before)[(service, index)].insert(user)
            } else {
                subscribers_of(before)[(service, index)].remove(user)
            },
        ),
{
    let key = (user, service, index);
    let expected_types = types_of(before).insert(key, types_of(after)[key]);
    assert forall|k: (nat, nat, nat)| #[trigger] types_of(after)[k] == expected_types[k] by {
        if k != key {
            if exists|i: int| subscription_at(before, i, k.0, k.1, k.2) {
                let i = choose|i: int| subscription_at(before, i, k.0, k.1, k.2);
                assert(subscription_at(before, i, k.0, k.1, k.2));
                assert(!subscription_at(before, i, user, service, index));
                let j = choose|j: int| 0 <= j < after.len() && #[trigger] after[j] == before[i];
                lemma_subscription_at(before, i);
                lemma_subscription_at(after, j);
            } else {
                if exists|j: int| subscription_at(after, j, k.0, k.1, k.2) {
                    let j = choose|j: int| subscription_at(after, j, k.0, k.1, k.2);
                    assert(subscription_at(after, j, k.0, k.1, k.2));
                    assert(!subscription_at(after, j, user, service, index));
                    let i = choose|i: int| 0 <= i < before.len() && #[trigger] before[i] == after[j];
                    assert(subscription_at(before, i, k.0, k.1, k.2));
                }
            }
        }
    }
    assert(types_of(after) =~= expected_types);
    let users_before = subscribers_of(before)[(service, index)];
    let users_after = if exists|j: int| subscription_at(after, j, user, service, index) {
        users_before.insert(user)
    } else {
        users_before.remove(user)
    };
    let expected_users = subscribers_of(before).insert((service, index), users_after);
    assert forall|k: (nat, nat)| #[trigger] subscribers_of(after)[k] == expected_users[k] by {
        assert forall|u: nat| subscribers_of(after)[k].contains(u) == expected_users[k].contains(
            u,
        ) by {
            if (u, k.0, k.1) != key {
                if exists|i: int| subscription_at(before, i, u, k.0, k.1) {
                    let i = choose|i: int| subscription_at(before, i, u, k.0, k.1);
                    assert(subscription_at(before, i, u, k.0, k.1));
                    assert(!subscription_at(before, i, user, service, index));
                    let j = choose|j: int| 0 <= j < after.len() && #[trigger] after[j] == before[i];
                    assert(subscription_at(after, j, u, k.0, k.1));
                }
                if exists|j: int| subscription_at(after, j, u, k.0, k.1) {
                    let j = choose|j: int| subscription_at(after, j, u, k.0, k.1);
                    assert(subscription_at(after, j, u, k.0, k.1));
                    assert(!subscription_at(after, j, user, service, index));
                    let i = choose|i: int| 0 <= i < before.len() && #[trigger] before[i] == after[j];
                    assert(subscription_at(before, i, u, k.0, k.1));
                }
            }
        }
        assert(subscribers_of(after)[k] =~= expected_users[k]);
    }
    assert(subscribers_of(after) =~= expected_users);
}

/// The service registry.
pub struct ServiceModule {
    service_id: AddressToIdMapper,
    pending: Vec<PendingService>,
    service_info: HashMap<AddressId, Vec<ServiceInfo>>,
    subscriptions: Vec<Subscription>,
}

impl View for ServiceModule {
    type V = ServiceState;

    closed spec fn view(&self) -> ServiceState {
        ServiceState {
            service_id: self.service_id@,
            pending_services: pending_addresses(self.pending@),
            pending_service_info: pending_info(self.pending@),
            service_info: approved_info(self.service_info@),
            subscribed_users: subscribers_of(self.subscriptions@),
            subscription_type: types_of(self.subscriptions@),
        }
    }
}

/// A copy of the options.
fn clone_infos(infos: &Vec<ServiceInfo>) -> (r: Vec<ServiceInfo>)
    ensures
        infos_view(r@) == infos_view(infos@),
{
    let mut copy: Vec<ServiceInfo> = Vec::new();
    let mut i: usize = 0;
    while i < infos.len()
        invariant
            i <= infos@.len(),
            copy@.len() == i,
            forall|j: int| 0 <= j < i ==> copy@[j]@ == infos@[j]@,
        decreases infos@.len() - i,
    {
        copy.push(infos[i].clone());
        i = i + 1;
    }
    assert(infos_view(copy@) =~= infos_view(infos@));
    copy
}

impl ServiceModule {
    /// What holds of every registry between calls. Every public function that makes or
    /// changes a registry establishes it, so a caller outside has nothing to do for it.
    pub closed spec fn wf(&self) -> bool {
        &&& self.service_id@.well_formed()
        &&& pending_wf(self.pending@)
        &&& forall|i: int|
            0 <= i < self.pending@.len() ==> self.service_id@.get_id(
                (#[trigger] self.pending@[i]).address@,
            ) == 0
        &&& subscriptions_wf(self.subscriptions@)
    }

    /// The registry without services and subscriptions.
    pub fn new() -> (r: ServiceModule)
        ensures
            r.wf(),
            r@ == ServiceState::empty(),
    {
        let r = ServiceModule {
            service_id: AddressToIdMapper::new(),
            pending: Vec::new(),
            service_info: HashMap::new(),
            subscriptions: Vec::new(),
        };
        assert(r@.pending_services =~= Seq::<Seq<u8>>::empty());
        assert(r@.pending_service_info =~= ServiceState::empty().pending_service_info);
        assert(r@.service_info =~= ServiceState::empty().service_info);
        assert(r@.subscription_type =~= ServiceState::empty().subscription_type);
        assert forall|k: (nat, nat)| #[trigger]
            r@.subscribed_users[k] == ServiceState::empty().subscribed_users[k] by {
            assert(r@.subscribed_users[k] =~= Set::<nat>::empty());
        }
        assert(r@.subscribed_users =~= ServiceState::empty().subscribed_users);
        r
    }

    /// The entry of the address among the waiting services, if it has one.
    fn find_pending(&self, address: &Address) -> (r: Option<usize>)
        ensures
            match r {
                Some(i) => pending_at(self.pending@, i as int, address@),
                None => forall|i: int|
                    0 <= i < self.pending@.len() ==> (#[trigger] self.pending@[i]).address@
                        != address@,
            },
    {
        let mut i: usize = 0;
        while i < self.pending.len()
            invariant
                i <= self.pending@.len(),
                forall|j: int| 0 <= j < i ==> (#[trigger] self.pending@[j]).address@ != address@,
            decreases self.pending@.len() - i,
        {
            if self.pending[i].address.eq(address) {
                return Some(i);
            }
            i = i + 1;
        }
        None
    }

    /// A service registers options and waits for approval. The call is refused as a whole
    /// where there is no option, where the caller is an approved service, or where an
    /// option has no valid destination or names an asset that is not accepted. Else the
    /// options are added to those that the caller has registered before.
    pub fn register_service(
        &mut self,
        fees: &FeesModule,
        caller: &Address,
        args: Vec<(Address, Option<MoaxOrDctTokenIdentifier>, BigUint)>,
    ) -> (r: Result<(), Error>)
        requires
            old(self).wf(),
            fees.wf(),
        ensures
            final(self).wf(),
            match old(self)@.register_service(
                fees@.accepted_fees_tokens,
                caller@,
                args_view(args@),
            ) {
                Ok(state) => r is Ok && final(self)@ == state,
                Err(e) => r == Err::<(), Error>(e) && final(self)@ == old(self)@,
            },
    {
        if args.len() == 0 {
            return Err(Error::EmptyArguments);
        }
        let existing_service_id = self.service_id.get_id(caller);
        if existing_service_id != NULL_ID {
            return Err(Error::AlreadyRegistered);
        }
        let ghost options = args_view(args@);
        let ghost accepted = fees@.accepted_fees_tokens;
        let accepted_tokens = fees.accepted_fees_tokens();
        let mut services: Vec<ServiceInfo> = Vec::new();
        let mut n: usize = 0;
        assert(options.take(0) =~= Seq::<ServiceInfoView>::empty());
        assert(infos_view(services@) =~= options.take(0));
        while n < args.len()
            invariant
                n <= args@.len(),
                options == args_view(args@),
                accepted == assets_view(accepted_tokens@),
                accepted == fees@.accepted_fees_tokens,
                options_error(accepted, options.take(n as int)) is None,
                infos_view(services@) == options.take(n as int),
                *self == *old(self),
                self.wf(),
                args@.len() > 0,
                self@.service_id.get_id(caller@) == 0,
            decreases args@.len() - n,
        {
            let sc_address = &args[n].0;
            let opt_payment_token = &args[n].1;
            let amount = &args[n].2;
            proof {
                assert(options.take(n + 1).drop_last() =~= options.take(n as int));
                assert(options.take(n + 1).last() == options[n as int]);
                assert(options[n as int].sc_address == sc_address@);
                assert(options[n as int].opt_payment_token == match *opt_payment_token {
                    Some(token) => Some(token@),
                    None => None,
                });
            }
            if !(sc_address.is_smart_contract_address() && !sc_address.is_zero()) {
                proof {
                    lemma_options_error_at(accepted, options, n as int);
                }
                return Err(Error::InvalidDestination);
            }
            let token_copy = match opt_payment_token {
                Some(token_id) => {
                    if !contains_token(accepted_tokens, token_id) {
                        proof {
                            lemma_options_error_at(accepted, options, n as int);
                        }
                        return Err(Error::InvalidPaymentToken);
                    }
                    Some(token_id.clone())
                },
                None => None,
            };
            let info = ServiceInfo {
                sc_address: *sc_address,
                opt_payment_token: token_copy,
                amount: amount.clone(),
            };
            assert(info@ == options[n as int]);
            assert(infos_view(services@.push(info)) =~= options.take(n + 1));
            services.push(info);
            n = n + 1;
        }
        assert(options.take(n as int) =~= options);
        let ghost before = self.pending@;
        match self.find_pending(caller) {
            Some(i) => {
                proof {
                    lemma_pending_info_at(before, i as int);
                }
                let mut merged: Vec<ServiceInfo> = Vec::new();
                core::mem::swap(&mut merged, &mut self.pending[i].options);
                let ghost held = merged@;
                merged.append(&mut services);
                self.pending[i].options = merged;
                proof {
                    let after = self.pending@;
                    assert(after[i as int].address == before[i as int].address);
                    assert(infos_view(after[i as int].options@) =~= infos_view(held) + options);
                    assert forall|x: int, y: int| 0 <= x < y < after.len() implies (
                    #[trigger] after[x]).address@ != (#[trigger] after[y]).address@ by {
                        assert(after[x].address == before[x].address);
                        assert(after[y].address == before[y].address);
                    }
                    assert forall|x: int| 0 <= x < after.len() implies (
                    #[trigger] after[x]).options@.len() > 0 by {
                        if x != i {
                            assert(after[x] == before[x]);
                        }
                    }
                    assert forall|x: int|
                        0 <= x < after.len() implies self.service_id@.get_id(
                        (#[trigger] after[x]).address@,
                    ) == 0 by {
                        assert(after[x].address == before[x].address);
                    }
                    lemma_pending_info_at(after, i as int);
                    assert forall|x: int|
                        0 <= x < before.len() && (#[trigger] before[x]).address@
                            != caller@ implies exists|y: int|
                        0 <= y < after.len() && #[trigger] after[y] == before[x] by {
                        assert(after[x] == before[x]);
                    }
                    assert forall|y: int|
                        0 <= y < after.len() && (#[trigger] after[y]).address@
                            != caller@ implies exists|x: int|
                        0 <= x < before.len() && #[trigger] before[x] == after[y] by {
                        assert(before[y] == after[y]);
                    }
                    lemma_pending_info_same_elsewhere(
                        before,
                        after,
                        caller@,
                        infos_view(held) + options,
                    );
                    assert(pending_addresses(after) =~= pending_addresses(before));
                }
            },
            None => {
                proof {
                    lemma_pending_info_absent(before, caller@);
                }
                let entry = PendingService { address: *caller, options: services };
                self.pending.push(entry);
                proof {
                    let after = self.pending@;
                    let last = before.len() as int;
                    assert(after[last] == entry);
                    assert forall|x: int, y: int| 0 <= x < y < after.len() implies (
                    #[trigger] after[x]).address@ != (#[trigger] after[y]).address@ by {
                        assert(after[x] == before[x]);
                        if y < last {
                            assert(after[y] == before[y]);
                        }
                    }
                    assert forall|x: int| 0 <= x < after.len() implies (
                    #[trigger] after[x]).options@.len() > 0 by {
                        if x < last {
                            assert(after[x] == before[x]);
                        } else {
                            assert(infos_view(after[x].options@).len() == options.len());
                        }
                    }
                    assert forall|x: int|
                        0 <= x < after.len() implies self.service_id@.get_id(
                        (#[trigger] after[x]).address@,
                    ) == 0 by {
                        if x < last {
                            assert(after[x] == before[x]);
                        }
                    }
                    lemma_pending_info_at(after, last);
                    assert forall|x: int|
                        0 <= x < before.len() && (#[trigger] before[x]).address@
                            != caller@ implies exists|y: int|
                        0 <= y < after.len() && #[trigger] after[y] == before[x] by {
                        assert(after[x] == before[x]);
                    }
                    assert forall|y: int|
                        0 <= y < after.len() && (#[trigger] after[y]).address@
                            != caller@ implies exists|x: int|
                        0 <= x < before.len() && #[trigger] before[x] == after[y] by {
                        assert(before[y] == after[y]);
                    }
                    assert(Seq::<ServiceInfoView>::empty() + options =~= options);
                    lemma_pending_info_same_elsewhere(before, after, caller@, options);
                    assert(pending_addresses(after) =~= pending_addresses(before).push(caller@));
                }
            },
        }
        Ok(())
    }

    /// A service withdraws: it loses its number and its approved options, if it has any,
    /// and no longer waits for approval. Nothing happens where the caller is neither
    /// approved nor waiting.
    pub fn unregister_service(&mut self, caller: &Address)
        requires
            old(self).wf(),
        ensures
            final(self).wf(),
            final(self)@ == old(self)@.unregister_service(caller@),
    {
        let ghost ids = self.service_id@;
        let service_id = self.service_id.remove_by_address(caller);
        if service_id != NULL_ID {
            self.service_info.remove(&service_id);
        }
        assert(self@.service_info =~= if service_id != 0 {
            old(self)@.service_info.insert(service_id as nat, Seq::empty())
        } else {
            old(self)@.service_info
        });
        let ghost before = self.pending@;
        assert forall|a: Seq<u8>| ids.get_id(a) == 0 implies self.service_id@.get_id(a) == 0 by {}
        match self.find_pending(caller) {
            Some(i) => {
                proof {
                    lemma_pending_swap_remove(before, i as int);
                }
                self.pending.swap_remove(i);
                proof {
                    let after = self.pending@;
                    assert forall|x: int|
                        0 <= x < after.len() implies self.service_id@.get_id(
                        (#[trigger] after[x]).address@,
                    ) == 0 by {
                        let k = choose|k: int| 0 <= k < before.len() && before[k] == after[x];
                        assert(ids.get_id(before[k].address@) == 0);
                    }
                }
            },
            None => {
                proof {
                    lemma_pending_info_absent(before, caller@);
                    assert(pending_info(before).insert(caller@, Seq::empty()) =~= pending_info(
                        before,
                    ));
                }
            },
        }
    }

    /// The owner approves a waiting service: it gets the next number, under which its
    /// registered options stand from then on, and no longer waits. The call is refused
    /// where the caller is not the owner or the address does not wait for approval.
    pub fn approve_service(&mut self, caller_is_owner: bool, service_address: &Address) -> (r:
        Result<(), Error>)
        requires
            old(self).wf(),
        ensures
            final(self).wf(),
            match old(self)@.approve_service(caller_is_owner, service_address@) {
                Ok(state) => r is Ok && final(self)@ == state,
                Err(e) => r == Err::<(), Error>(e) && final(self)@ == old(self)@,
            },
            caller_is_owner && old(self)@.pending_services.contains(service_address@) ==> r is Ok,
    {
        if !caller_is_owner {
            return Err(Error::NotOwner);
        }
        let ghost before = self.pending@;
        let ghost ids = self.service_id@;
        let i = match self.find_pending(service_address) {
            Some(i) => i,
            None => {
                proof {
                    lemma_pending_info_absent(before, service_address@);
                }
                return Err(Error::UnknownService);
            },
        };
        proof {
            lemma_pending_info_at(before, i as int);
            lemma_pending_swap_remove(before, i as int);
            crate::address_to_id_mapper::lemma_insert_address_well_formed(ids, service_address@);
        }
        let service_id = match self.service_id.insert_new(service_address) {
            Some(id) => id,
            None => {
                return Err(Error::AlreadyRegistered);
            },
        };
        let entry = self.pending.swap_remove(i);
        self.service_info.insert(service_id, entry.options);
        proof {
            let after = self.pending@;
            assert forall|x: int|
                0 <= x < after.len() implies self.service_id@.get_id(
                (#[trigger] after[x]).address@,
            ) == 0 by {
                let k = choose|k: int| 0 <= k < before.len() && before[k] == after[x];
                assert(ids.get_id(before[k].address@) == 0);
                assert(after[x].address@ != service_address@);
            }
            assert(self@.service_info =~= old(self)@.service_info.insert(
                ids.last_id + 1,
                old(self)@.pending_service_info[service_address@],
            ));
        }
        Ok(())
    }

    /// The entry of the subscription, if it has one.
    fn find_subscription(
        &self,
        user_id: AddressId,
        service_id: AddressId,
        service_index: usize,
    ) -> (r: Option<usize>)
        ensures
            match r {
                Some(i) => subscription_at(
                    self.subscriptions@,
                    i as int,
                    user_id as nat,
                    service_id as nat,
                    service_index as nat,
                ),
                None => forall|i: int|
                    !subscription_at(
                        self.subscriptions@,
                        i,
                        user_id as nat,
                        service_id as nat,
                        service_index as nat,
                    ),
            },
    {
        let mut i: usize = 0;
        while i < self.subscriptions.len()
            invariant
                i <= self.subscriptions@.len(),
                forall|j: int|
                    0 <= j < i ==> !subscription_at(
                        self.subscriptions@,
                        j,
                        user_id as nat,
                        service_id as nat,
                        service_index as nat,
                    ),
            decreases self.subscriptions@.len() - i,
        {
            let entry = &self.subscriptions[i];
            if entry.user_id == user_id && entry.service_id == service_id && entry.service_index
                == service_index {
                return Some(i);
            }
            i = i + 1;
        }
        None
    }

    /// Whether the service of that number has an option of that index.
    fn has_option(&self, service_id: AddressId, service_index: usize) -> (r: bool)
        ensures
            r == self@.has_option(service_id as nat, service_index as nat),
    {
        match self.service_info.get(&service_id) {
            Some(service_options) => service_index < service_options.len(),
            None => false,
        }
    }

    /// Records one subscription: a new entry, or another type in the entry that is there.
    fn subscribe_one(
        &mut self,
        user_id: AddressId,
        service_id: AddressId,
        service_index: usize,
        subscription_type: SubscriptionType,
    )
        requires
            old(self).wf(),
            subscription_type != SubscriptionType::NoSubscription,
        ensures
            final(self).wf(),
            final(self)@ == old(self)@.subscribe_one(
                user_id as nat,
                service_id as nat,
                service_index as nat,
                subscription_type,
            ),
    {
        let ghost before = self.subscriptions@;
        let ghost user = user_id as nat;
        let ghost service = service_id as nat;
        let ghost index = service_index as nat;
        let entry = Subscription { user_id, service_id, service_index, subscription_type };
        match self.find_subscription(user_id, service_id, service_index) {
            Some(i) => {
                self.subscriptions.set(i, entry);
                proof {
                    let after = self.subscriptions@;
                    assert forall|x: int, y: int| 0 <= x < y < after.len() implies !same_subscription(
                        #[trigger] after[x],
                        #[trigger] after[y],
                    ) by {
                        assert(same_subscription(after[x], before[x]));
                        assert(same_subscription(after[y], before[y]));
                    }
                    assert forall|x: int| 0 <= x < after.len() implies (
                    #[trigger] after[x]).subscription_type != SubscriptionType::NoSubscription by {
                        if x != i {
                            assert(after[x] == before[x]);
                        }
                    }
                    assert forall|x: int|
                        0 <= x < before.len() && !subscription_at(
                            before,
                            x,
                            user,
                            service,
                            index,
                        ) implies exists|y: int|
                        0 <= y < after.len() && #[trigger] after[y] == before[x] by {
                        assert(after[x] == before[x]);
                    }
                    assert forall|y: int|
                        0 <= y < after.len() && !subscription_at(
                            after,
                            y,
                            user,
                            service,
                            index,
                        ) implies exists|x: int|
                        0 <= x < before.len() && #[trigger] before[x] == after[y] by {
                        assert(before[y] == after[y]);
                    }
                    lemma_subscriptions_same_elsewhere(before, after, user, service, index);
                    lemma_subscription_at(after, i as int);
                    lemma_subscription_at(before, i as int);
                    assert(subscription_at(after, i as int, user, service, index));
                }
            },
            None => {
                self.subscriptions.push(entry);
                proof {
                    let after = self.subscriptions@;
                    let last = before.len() as int;
                    assert(after[last] == entry);
                    assert forall|x: int, y: int| 0 <= x < y < after.len() implies !same_subscription(
                        #[trigger] after[x],
                        #[trigger] after[y],
                    ) by {
                        assert(after[x] == before[x]);
                        if y < last {
                            assert(after[y] == before[y]);
                        } else {
                            assert(!subscription_at(before, x, user, service, index));
                        }
                    }
                    assert forall|x: int| 0 <= x < after.len() implies (
                    #[trigger] after[x]).subscription_type != SubscriptionType::NoSubscription by {
                        if x < last {
                            assert(after[x] == before[x]);
                        }
                    }
                    assert forall|x: int|
                        0 <= x < before.len() && !subscription_at(
                            before,
                            x,
                            user,
                            service,
                            index,
                        ) implies exists|y: int|
                        0 <= y < after.len() && #[trigger] after[y] == before[x] by {
                        assert(after[x] == before[x]);
                    }
                    assert forall|y: int|
                        0 <= y < after.len() && !subscription_at(
                            after,
                            y,
                            user,
                            service,
                            index,
                        ) implies exists|x: int|
                        0 <= x < before.len() && #[trigger] before[x] == after[y] by {
                        assert(before[y] == after[y]);
                    }
                    lemma_subscriptions_same_elsewhere(before, after, user, service, index);
                    lemma_subscription_at(after, last);
                    assert(subscription_at(after, last, user, service, index));
                }
            },
        }
    }

    /// Removes one subscription, where it has an entry.
    fn unsubscribe_one(&mut self, user_id: AddressId, service_id: AddressId, service_index: usize)
        requires
            old(self).wf(),
        ensures
            final(self).wf(),
            final(self)@ == old(self)@.unsubscribe_one(
                user_id as nat,
                service_id as nat,
                service_index as nat,
            ),
    {
        let ghost before = self.subscriptions@;
        let ghost user = user_id as nat;
        let ghost service = service_id as nat;
        let ghost index = service_index as nat;
        match self.find_subscription(user_id, service_id, service_index) {
            Some(i) => {
                self.subscriptions.swap_remove(i);
                proof {
                    let after = self.subscriptions@;
                    let last = before.len() - 1;
                    assert forall|x: int| 0 <= x < after.len() implies after[x] == before[if x
                        == i {
                        last
                    } else {
                        x
                    }] by {}
                    assert forall|x: int, y: int| 0 <= x < y < after.len() implies !same_subscription(
                        #[trigger] after[x],
                        #[trigger] after[y],
                    ) by {
                        let x0 = if x == i { last } else { x };
                        let y0 = if y == i { last } else { y };
                        assert(after[x] == before[x0]);
                        assert(after[y] == before[y0]);
                        if x0 < y0 {
                            assert(!same_subscription(before[x0], before[y0]));
                        } else {
                            assert(!same_subscription(before[y0], before[x0]));
                        }
                    }
                    assert forall|x: int| 0 <= x < after.len() implies (
                    #[trigger] after[x]).subscription_type != SubscriptionType::NoSubscription by {
                        let x0 = if x == i { last } else { x };
                        assert(after[x] == before[x0]);
                    }
                    assert forall|x: int| !subscription_at(after, x, user, service, index) by {
                        if 0 <= x < after.len() {
                            let x0 = if x == i { last } else { x };
                            assert(after[x] == before[x0]);
                            if x0 < i {
                                assert(!same_subscription(before[x0], before[i as int]));
                            } else {
                                assert(!same_subscription(before[i as int], before[x0]));
                            }
                        }
                    }
                    assert forall|x: int|
                        0 <= x < before.len() && !subscription_at(
                            before,
                            x,
                            user,
                            service,
                            index,
                        ) implies exists|y: int|
                        0 <= y < after.len() && #[trigger] after[y] == before[x] by {
                        if x == last {
                            assert(after[i as int] == before[x]);
                        } else {
                            assert(after[x] == before[x]);
                        }
                    }
                    assert forall|y: int|
                        0 <= y < after.len() && !subscription_at(
                            after,
                            y,
                            user,
                            service,
                            index,
                        ) implies exists|x: int|
                        0 <= x < before.len() && #[trigger] before[x] == after[y] by {
                        let y0 = if y == i { last } else { y };
                        assert(before[y0] == after[y]);
                    }
                    lemma_subscriptions_same_elsewhere(before, after, user, service, index);
                    lemma_subscription_absent(after, user, service, index);
                }
            },
            None => {
                proof {
                    lemma_subscription_absent(before, user, service, index);
                    let state = old(self)@;
                    assert(state.subscription_type.insert(
                        (user, service, index),
                        SubscriptionType::NoSubscription,
                    ) =~= state.subscription_type);
                    assert(state.subscribed_users[(service, index)].remove(user)
                        =~= state.subscribed_users[(service, index)]);
                    assert(state.subscribed_users.insert(
                        (service, index),
                        state.subscribed_users[(service, index)],
                    ) =~= state.subscribed_users);
                }
            },
        }
    }

    /// A user subscribes to options of services, each request giving the service's number,
    /// the option's index and the type of the subscription. The call is refused as a whole
    /// where a request names an option that the service does not have, or no type. Else
    /// the caller gets a user number, where it has none, and each request is recorded; a
    /// subscription that is there already takes the new type.
    pub fn subscribe(
        &mut self,
        fees: &mut FeesModule,
        caller: &Address,
        services: Vec<(AddressId, usize, SubscriptionType)>,
    ) -> (r: Result<(), Error>)
        requires
            old(self).wf(),
            old(fees).wf(),
        ensures
            final(self).wf(),
            final(fees).wf(),
            match old(self)@.subscribe(old(fees)@, caller@, subscribe_requests_view(services@)) {
                Ok((state, fees_state)) => r is Ok && final(self)@ == state && final(fees)@
                    == fees_state,
                Err(e) => r == Err::<(), Error>(e) && final(self)@ == old(self)@ && final(fees)@
                    == old(fees)@,
            },
    {
        let ghost requests = subscribe_requests_view(services@);
        let ghost state = self@;
        let mut n: usize = 0;
        assert(requests.take(0) =~= Seq::<(nat, nat, SubscriptionType)>::empty());
        while n < services.len()
            invariant
                n <= services@.len(),
                requests == subscribe_requests_view(services@),
                state.subscribe_error(requests.take(n as int)) is None,
                *self == *old(self),
                *fees == *old(fees),
                state == self@,
                self.wf(),
                fees.wf(),
            decreases services@.len() - n,
        {
            let service_id = services[n].0;
            let service_index = services[n].1;
            let subscription_type = services[n].2;
            proof {
                assert(requests.take(n + 1).drop_last() =~= requests.take(n as int));
                assert(requests.take(n + 1).last() == requests[n as int]);
                assert(requests[n as int] == (
                    service_id as nat,
                    service_index as nat,
                    subscription_type,
                ));
            }
            if !self.has_option(service_id, service_index) {
                proof {
                    lemma_subscribe_error_at(state, requests, n as int);
                }
                return Err(Error::InvalidServiceIndex);
            }
            if subscription_type == SubscriptionType::NoSubscription {
                proof {
                    lemma_subscribe_error_at(state, requests, n as int);
                }
                return Err(Error::InvalidSubscriptionType);
            }
            n = n + 1;
        }
        assert(requests.take(n as int) =~= requests);
        let caller_id = fees.get_user_id_or_insert(caller);
        let mut k: usize = 0;
        while k < services.len()
            invariant
                k <= services@.len(),
                requests == subscribe_requests_view(services@),
                state.subscribe_error(requests) is None,
                self.wf(),
                self@ == state.subscribe_all(caller_id as nat, requests.take(k as int)),
            decreases services@.len() - k,
        {
            let service_id = services[k].0;
            let service_index = services[k].1;
            let subscription_type = services[k].2;
            proof {
                assert(requests.take(k + 1).drop_last() =~= requests.take(k as int));
                assert(requests.take(k + 1).last() == (
                    service_id as nat,
                    service_index as nat,
                    subscription_type,
                ));
                if subscription_type == SubscriptionType::NoSubscription {
                    assert(state.subscribe_request_error(requests[k as int]) is Some);
                    if state.subscribe_error(requests.take(k as int)) is None {
                        lemma_subscribe_error_at(state, requests, k as int);
                    } else {
                        lemma_subscribe_error_prefix(state, requests, k as int);
                    }
                }
            }
            self.subscribe_one(caller_id, service_id, service_index, subscription_type);
            k = k + 1;
        }
        assert(requests.take(k as int) =~= requests);
        Ok(())
    }

    /// A user ends subscriptions, each request giving the service's number and the option's
    /// index. The call is refused as a whole where a request names an option that the
    /// service does not have. A request for an option to which the caller does not
    /// subscribe changes nothing, and so does every request of a caller that has no user
    /// number.
    pub fn unsubscribe(
        &mut self,
        fees: &FeesModule,
        caller: &Address,
        services: Vec<(AddressId, usize)>,
    ) -> (r: Result<(), Error>)
        requires
            old(self).wf(),
            fees.wf(),
        ensures
            final(self).wf(),
            match old(self)@.unsubscribe(fees@, caller@, unsubscribe_requests_view(services@)) {
                Ok(state) => r is Ok && final(self)@ == state,
                Err(e) => r == Err::<(), Error>(e) && final(self)@ == old(self)@,
            },
    {
        let ghost requests = unsubscribe_requests_view(services@);
        let ghost state = self@;
        let mut n: usize = 0;
        assert(requests.take(0) =~= Seq::<(nat, nat)>::empty());
        while n < services.len()
            invariant
                n <= services@.len(),
                requests == unsubscribe_requests_view(services@),
                state.unsubscribe_error(requests.take(n as int)) is None,
                *self == *old(self),
                state == self@,
                self.wf(),
            decreases services@.len() - n,
        {
            let service_id = services[n].0;
            let service_index = services[n].1;
            proof {
                assert(requests.take(n + 1).drop_last() =~= requests.take(n as int));
                assert(requests.take(n + 1).last() == requests[n as int]);
                assert(requests[n as int] == (service_id as nat, service_index as nat));
            }
            if !self.has_option(service_id, service_index) {
                proof {
                    lemma_unsubscribe_error_at(state, requests, n as int);
                }
                return Err(Error::InvalidServiceIndex);
            }
            n = n + 1;
        }
        assert(requests.take(n as int) =~= requests);
        let caller_id = match fees.user_id().get_id_non_zero(caller) {
            Some(id) => id,
            None => {
                return Ok(());
            },
        };
        let mut k: usize = 0;
        while k < services.len()
            invariant
                k <= services@.len(),
                requests == unsubscribe_requests_view(services@),
                self.wf(),
                self@ == state.unsubscribe_all(caller_id as nat, requests.take(k as int)),
            decreases services@.len() - k,
        {
            let service_id = services[k].0;
            let service_index = services[k].1;
            proof {
                assert(requests.take(k + 1).drop_last() =~= requests.take(k as int));
                assert(requests.take(k + 1).last() == (service_id as nat, service_index as nat));
            }
            self.unsubscribe_one(caller_id, service_id, service_index);
            k = k + 1;
        }
        assert(requests.take(k as int) =~= requests);
        Ok(())
    }

    /// The view of a registry that is well formed is well formed.
    pub proof fn lemma_view_well_formed(&self)
        requires
            self.wf(),
        ensures
            self@.well_formed(),
    {
        let pending = self.pending@;
        let state = self@;
        assert forall|i: int, j: int|
            0 <= i < state.pending_services.len() && 0 <= j < state.pending_services.len() && i
                != j implies state.pending_services[i] != state.pending_services[j] by {
            if i < j {
                assert(pending[i].address@ != pending[j].address@);
            } else {
                assert(pending[j].address@ != pending[i].address@);
            }
        }
        assert forall|a: Seq<u8>|
            state.pending_services.contains(a) <==> (#[trigger] state.pending_service_info[a]).len()
                > 0 by {
            if state.pending_services.contains(a) {
                let k = choose|k: int|
                    0 <= k < state.pending_services.len() && state.pending_services[k] == a;
                lemma_pending_info_at(pending, k);
            }
            if state.pending_service_info[a].len() > 0 {
                let k = choose|k: int| pending_at(pending, k, a);
                assert(pending_at(pending, k, a));
                assert(state.pending_services[k] == a);
            }
        }
        assert forall|a: Seq<u8>| #[trigger]
            state.pending_services.contains(a) implies state.service_id.get_id(a) == 0 by {
            let k = choose|k: int|
                0 <= k < state.pending_services.len() && state.pending_services[k] == a;
            assert(pending[k].address@ == a);
        }
        assert forall|user: nat, service: nat, index: nat|
            state.subscribed_users[(service, index)].contains(user) <==> #[trigger] state.subscription_type[(
                user,
                service,
                index,
            )] != SubscriptionType::NoSubscription by {
            if exists|i: int| subscription_at(self.subscriptions@, i, user, service, index) {
                let i = choose|i: int| subscription_at(self.subscriptions@, i, user, service, index);
                assert(subscription_at(self.subscriptions@, i, user, service, index));
                lemma_subscription_at(self.subscriptions@, i);
            }
        }
    }

    /// The table of the services' numbers.
    pub fn service_id(&self) -> (r: &AddressToIdMapper)
        ensures
            r@ == self@.service_id,
    {
        &self.service_id
    }

    /// The addresses that wait for approval.
    pub fn pending_services(&self) -> (r: Vec<Address>)
        ensures
            r@.map_values(|a: Address| a@) == self@.pending_services,
    {
        let mut addresses: Vec<Address> = Vec::new();
        let mut i: usize = 0;
        while i < self.pending.len()
            invariant
                i <= self.pending@.len(),
                addresses@.len() == i,
                forall|j: int| 0 <= j < i ==> addresses@[j] == self.pending@[j].address,
            decreases self.pending@.len() - i,
        {
            addresses.push(self.pending[i].address);
            i = i + 1;
        }
        assert(addresses@.map_values(|a: Address| a@) =~= pending_addresses(self.pending@));
        addresses
    }

    /// The options that the address has registered and that wait for approval.
    pub fn pending_service_info(&self, service_address: &Address) -> (r: Vec<ServiceInfo>)
        requires
            self.wf(),
        ensures
            infos_view(r@) == self@.pending_service_info[service_address@],
    {
        match self.find_pending(service_address) {
            Some(i) => {
                proof {
                    lemma_pending_info_at(self.pending@, i as int);
                }
                clone_infos(&self.pending[i].options)
            },
            None => {
                proof {
                    lemma_pending_info_absent(self.pending@, service_address@);
                }
                let infos: Vec<ServiceInfo> = Vec::new();
                assert(infos_view(infos@) =~= Seq::<ServiceInfoView>::empty());
                infos
            },
        }
    }

    /// The options of the approved service of that number.
    pub fn service_info(&self, service_id: AddressId) -> (r: Vec<ServiceInfo>)
        ensures
            infos_view(r@) == self@.service_info[service_id as nat],
    {
        match self.service_info.get(&service_id) {
            Some(service_options) => clone_infos(service_options),
            None => {
                let infos: Vec<ServiceInfo> = Vec::new();
                assert(infos_view(infos@) =~= Seq::<ServiceInfoView>::empty());
                infos
            },
        }
    }

    /// The users that subscribe to the option, each of them once.
    pub fn subscribed_users(&self, service_id: AddressId, service_index: usize) -> (r: Vec<
        AddressId,
    >)
        requires
            self.wf(),
        ensures
            r@.no_duplicates(),
            forall|user: nat|
                self@.subscribed_users[(service_id as nat, service_index as nat)].contains(user)
                    <==> user <= u64::MAX && r@.contains(user as AddressId),
    {
        let ghost service = service_id as nat;
        let ghost index = service_index as nat;
        let mut users: Vec<AddressId> = Vec::new();
        let ghost mut places: Seq<int> = Seq::empty();
        let mut i: usize = 0;
        while i < self.subscriptions.len()
            invariant
                i <= self.subscriptions@.len(),
                subscriptions_wf(self.subscriptions@),
                service == service_id as nat,
                index == service_index as nat,
                places.len() == users@.len(),
                forall|k: int|
                    0 <= k < users@.len() ==> 0 <= #[trigger] places[k] < i && subscription_at(
                        self.subscriptions@,
                        places[k],
                        users@[k] as nat,
                        service,
                        index,
                    ),
                forall|k: int, l: int| 0 <= k < l < users@.len() ==> places[k] < places[l],
                forall|j: int, user: nat|
                    0 <= j < i && subscription_at(self.subscriptions@, j, user, service, index)
                        ==> users@.contains(user as AddressId),
            decreases self.subscriptions@.len() - i,
        {
            let entry = &self.subscriptions[i];
            if entry.service_id == service_id && entry.service_index == service_index {
                let ghost earlier = users@;
                users.push(entry.user_id);
                proof {
                    places = places.push(i as int);
                    assert forall|j: int, user: nat|
                        0 <= j < i + 1 && subscription_at(
                            self.subscriptions@,
                            j,
                            user,
                            service,
                            index,
                        ) implies users@.contains(user as AddressId) by {
                        if j < i {
                            let k = choose|k: int|
                                0 <= k < earlier.len() && earlier[k] == user as AddressId;
                            assert(users@[k] == user as AddressId);
                        } else {
                            assert(users@[earlier.len() as int] == user as AddressId);
                        }
                    }
                }
            }
            i = i + 1;
        }
        proof {
            assert forall|k: int, l: int|
                0 <= k < users@.len() && 0 <= l < users@.len() && k != l implies users@[k]
                != users@[l] by {
                if users@[k] == users@[l] {
                    let pk = places[k];
                    let pl = places[l];
                    if pk < pl {
                        assert(same_subscription(
                            self.subscriptions@[pk],
                            self.subscriptions@[pl],
                        ));
                    } else if pl < pk {
                        assert(same_subscription(
                            self.subscriptions@[pl],
                            self.subscriptions@[pk],
                        ));
                    }
                }
            }
            assert forall|user: nat|
                self@.subscribed_users[(service, index)].contains(user) <==> user <= u64::MAX
                    && users@.contains(user as AddressId) by {
                if self@.subscribed_users[(service, index)].contains(user) {
                    let j = choose|j: int|
                        subscription_at(self.subscriptions@, j, user, service, index);
                    assert(subscription_at(self.subscriptions@, j, user, service, index));
                }
                if user <= u64::MAX && users@.contains(user as AddressId) {
                    let k = choose|k: int| 0 <= k < users@.len() && users@[k] == user as AddressId;
                    assert(subscription_at(
                        self.subscriptions@,
                        places[k],
                        user,
                        service,
                        index,
                    ));
                }
            }
        }
        users
    }

    /// The type of the user's subscription to the option; `NoSubscription` where the user
    /// does not subscribe to it.
    pub fn subscription_type(
        &self,
        user_id: AddressId,
        service_id: AddressId,
        service_index: usize,
    ) -> (r: SubscriptionType)
        requires
            self.wf(),
        ensures
            r == self@.subscription_type[(user_id as nat, service_id as nat, service_index as nat)],
    {
        match self.find_subscription(user_id, service_id, service_index) {
            Some(i) => {
                proof {
                    lemma_subscription_at(self.subscriptions@, i as int);
                }
                self.subscriptions[i].subscription_type
            },
            None => {
                proof {
                    lemma_subscription_absent(
                        self.subscriptions@,
                        user_id as nat,
                        service_id as nat,
                        service_index as nat,
                    );
                }
                SubscriptionType::NoSubscription
            },
        }
    }
}

} // verus!
