//! What holds of the service registry over any sequence of calls.

use crate::address_to_id_mapper::{
    lemma_insert_address_well_formed, lemma_remove_by_address_well_formed,
};
use crate::errors::Error;
use crate::fees::FeesState;
use crate::service::{
    insert_address, swap_remove_address, ServiceInfoView, ServiceState, SubscriptionType,
};
use crate::token::Asset;
use vstd::prelude::*;

verus! {

/// Removing an address from a set in which no address stands twice leaves a set without
/// it, in which the other addresses still stand, each of them once.
pub proof fn lemma_swap_remove_address(addresses: Seq<Seq<u8>>, address: Seq<u8>)
    requires
        addresses.no_duplicates(),
    ensures
        swap_remove_address(addresses, address).no_duplicates(),
        !swap_remove_address(addresses, address).contains(address),
        forall|a: Seq<u8>|
            a != address ==> swap_remove_address(addresses, address).contains(a)
                == addresses.contains(a),
        addresses.contains(address) ==> swap_remove_address(addresses, address).len()
            == addresses.len() - 1,
{
    let after = swap_remove_address(addresses, address);
    if addresses.contains(address) {
        let i = addresses.index_of(address);
        let last = addresses.len() - 1;
        assert(0 <= i < addresses.len() && addresses[i] == address);
        assert forall|x: int| 0 <= x < after.len() implies after[x] == addresses[if x == i {
            last
        } else {
            x
        }] by {}
        assert forall|x: int, y: int|
            0 <= x < after.len() && 0 <= y < after.len() && x != y implies after[x]
            != after[y] by {
            let x0 = if x == i { last } else { x };
            let y0 = if y == i { last } else { y };
            assert(after[x] == addresses[x0]);
            assert(after[y] == addresses[y0]);
        }
        if after.contains(address) {
            let x = choose|x: int| 0 <= x < after.len() && after[x] == address;
            let x0 = if x == i { last } else { x };
            assert(after[x] == addresses[x0]);
        }
        assert forall|a: Seq<u8>| a != address implies after.contains(a) == addresses.contains(
            a,
        ) by {
            if after.contains(a) {
                let x = choose|x: int| 0 <= x < after.len() && after[x] == a;
                let x0 = if x == i { last } else { x };
                assert(addresses[x0] == a);
            }
            if addresses.contains(a) {
                let x = choose|x: int| 0 <= x < addresses.len() && addresses[x] == a;
                if x == last {
                    assert(after[i] == a);
                } else {
                    assert(after[x] == a);
                }
            }
        }
    }
}

/// Adding an address to a set in which no address stands twice leaves such a set, in which
/// the address stands.
pub proof fn lemma_insert_address(addresses: Seq<Seq<u8>>, address: Seq<u8>)
    requires
        addresses.no_duplicates(),
    ensures
        insert_address(addresses, address).no_duplicates(),
        insert_address(addresses, address).contains(address),
        forall|a: Seq<u8>|
            a != address ==> insert_address(addresses, address).contains(a) == addresses.contains(
                a,
            ),
{
    let after = insert_address(addresses, address);
    if !addresses.contains(address) {
        assert(after[addresses.len() as int] == address);
        assert forall|a: Seq<u8>| a != address implies after.contains(a) == addresses.contains(
            a,
        ) by {
            if after.contains(a) {
                let x = choose|x: int| 0 <= x < after.len() && after[x] == a;
                assert(addresses[x] == a);
            }
            if addresses.contains(a) {
                let x = choose|x: int| 0 <= x < addresses.len() && addresses[x] == a;
                assert(after[x] == a);
            }
        }
    }
}

/// A registration that is accepted leaves the registry well formed, with the caller among
/// the waiting services and its options after those that it had registered before.
pub proof fn law_register_service(
    state: ServiceState,
    accepted: Seq<Asset>,
    caller: Seq<u8>,
    options: Seq<ServiceInfoView>,
)
    requires
        state.well_formed(),
        state.register_service(accepted, caller, options) is Ok,
    ensures
        ({
            let after = state.register_service(accepted, caller, options)->Ok_0;
            &&& after.well_formed()
            &&& after.pending_services.contains(caller)
            &&& after.pending_service_info[caller] == state.pending_service_info[caller] + options
        }),
{
    let after = state.register_service(accepted, caller, options)->Ok_0;
    lemma_insert_address(state.pending_services, caller);
    assert forall|a: Seq<u8>|
        after.pending_services.contains(a) <==> (#[trigger] after.pending_service_info[a]).len()
            > 0 by {
        if a != caller {
            assert(after.pending_service_info[a] == state.pending_service_info[a]);
        }
    }
    assert forall|a: Seq<u8>| #[trigger]
        after.pending_services.contains(a) implies after.service_id.get_id(a) == 0 by {
        if a != caller {
            assert(state.pending_services.contains(a));
        }
    }
}

/// A service that withdraws is neither approved nor waiting afterwards, and the registry
/// stays well formed.
pub proof fn law_unregister_service(state: ServiceState, caller: Seq<u8>)
    requires
        state.well_formed(),
    ensures
        ({
            let after = state.unregister_service(caller);
            &&& after.well_formed()
            &&& after.service_id.get_id(caller) == 0
            &&& !after.pending_services.contains(caller)
            &&& after.pending_service_info[caller].len() == 0
        }),
{
    let after = state.unregister_service(caller);
    lemma_swap_remove_address(state.pending_services, caller);
    lemma_remove_by_address_well_formed(state.service_id, caller);
    assert forall|a: Seq<u8>|
        after.pending_services.contains(a) <==> (#[trigger] after.pending_service_info[a]).len()
            > 0 by {
        if a != caller {
            assert(after.pending_service_info[a] == state.pending_service_info[a]);
        }
    }
    assert forall|a: Seq<u8>| #[trigger]
        after.pending_services.contains(a) implies after.service_id.get_id(a) == 0 by {
        assert(state.pending_services.contains(a));
        assert(state.service_id.get_id(a) == 0);
    }
}

/// The approval of an address that does not wait for approval is refused.
pub proof fn law_approve_unknown_service(state: ServiceState, address: Seq<u8>)
    requires
        !state.pending_services.contains(address),
    ensures
        state.approve_service(true, address) == Err::<ServiceState, Error>(Error::UnknownService),
{
}

/// The approval of a waiting service by the owner is carried out: the service gets the
/// next number, its registered options stand under that number, and the registry stays
/// well formed.
pub proof fn law_approve_pending_service(state: ServiceState, address: Seq<u8>)
    requires
        state.well_formed(),
        state.pending_services.contains(address),
    ensures
        state.approve_service(true, address) is Ok,
        ({
            let after = state.approve_service(true, address)->Ok_0;
            let id = state.service_id.last_id + 1;
            &&& after.well_formed()
            &&& after.service_id.get_id(address) == id
            &&& after.service_info[id] == state.pending_service_info[address]
            &&& !after.pending_services.contains(address)
        }),
{
    let after = state.approve_service(true, address)->Ok_0;
    lemma_swap_remove_address(state.pending_services, address);
    lemma_insert_address_well_formed(state.service_id, address);
    assert forall|a: Seq<u8>|
        after.pending_services.contains(a) <==> (#[trigger] after.pending_service_info[a]).len()
            > 0 by {
        if a != address {
            assert(after.pending_service_info[a] == state.pending_service_info[a]);
        }
    }
    assert forall|a: Seq<u8>| #[trigger]
        after.pending_services.contains(a) implies after.service_id.get_id(a) == 0 by {
        assert(state.pending_services.contains(a));
        assert(state.service_id.get_id(a) == 0);
    }
}

/// An approval is carried out once: a second approval of the same address is refused,
/// because the address no longer waits.
pub proof fn law_approve_once(state: ServiceState, address: Seq<u8>)
    requires
        state.well_formed(),
        state.approve_service(true, address) is Ok,
    ensures
        state.approve_service(true, address)->Ok_0.approve_service(true, address) == Err::<
            ServiceState,
            Error,
        >(Error::UnknownService),
{
    law_approve_pending_service(state, address);
}

/// A subscription that is recorded has its type, and the user is among the subscribers of
/// the option. The registry stays well formed where the type is not `NoSubscription`.
pub proof fn law_subscribe_one(
    state: ServiceState,
    user: nat,
    service: nat,
    index: nat,
    subscription_type: SubscriptionType,
)
    requires
        state.well_formed(),
        subscription_type != SubscriptionType::NoSubscription,
    ensures
        ({
            let after = state.subscribe_one(user, service, index, subscription_type);
            &&& after.well_formed()
            &&& after.subscription_type[(user, service, index)] == subscription_type
            &&& after.subscribed_users[(service, index)].contains(user)
        }),
{
    let after = state.subscribe_one(user, service, index, subscription_type);
    assert forall|u: nat, s: nat, i: nat|
        after.subscribed_users[(s, i)].contains(u) <==> #[trigger] after.subscription_type[(
            u,
            s,
            i,
        )] != SubscriptionType::NoSubscription by {
        assert(state.subscribed_users[(s, i)].contains(u) <==> state.subscription_type[(u, s, i)]
            != SubscriptionType::NoSubscription);
    }
}

/// Ending a subscription clears its type and takes the user from the subscribers of the
/// option. The registry stays well formed.
pub proof fn law_unsubscribe_one(state: ServiceState, user: nat, service: nat, index: nat)
    requires
        state.well_formed(),
    ensures
        ({
            let after = state.unsubscribe_one(user, service, index);
            &&& after.well_formed()
            &&& after.subscription_type[(user, service, index)] == SubscriptionType::NoSubscription
            &&& !after.subscribed_users[(service, index)].contains(user)
        }),
{
    let after = state.unsubscribe_one(user, service, index);
    assert forall|u: nat, s: nat, i: nat|
        after.subscribed_users[(s, i)].contains(u) <==> #[trigger] after.subscription_type[(
            u,
            s,
            i,
        )] != SubscriptionType::NoSubscription by {
        assert(state.subscribed_users[(s, i)].contains(u) <==> state.subscription_type[(u, s, i)]
            != SubscriptionType::NoSubscription);
    }
}

/// A user that does not subscribe to an option, subscribes to it and then ends the
/// subscription, leaves the registry as it was before: the subscribers of the option are
/// those of before, and the subscription has no type.
pub proof fn law_subscribe_then_unsubscribe(
    state: ServiceState,
    fees: FeesState,
    caller: Seq<u8>,
    service: nat,
    index: nat,
    subscription_type: SubscriptionType,
)
    requires
        state.well_formed(),
        state.subscribe(fees, caller, seq![(service, index, subscription_type)]) is Ok,
        !state.subscribed_users[(service, index)].contains(
            fees.register_user(caller).user_id.get_id(caller),
        ),
    ensures
        ({
            let (subscribed, registered) = state.subscribe(
                fees,
                caller,
                seq![(service, index, subscription_type)],
            )->Ok_0;
            let user = registered.user_id.get_id(caller);
            &&& subscribed.subscribed_users[(service, index)].contains(user)
            &&& subscribed.subscription_type[(user, service, index)] == subscription_type
            &&& subscribed.unsubscribe(registered, caller, seq![(service, index)]) == Ok::<
                ServiceState,
                Error,
            >(state)
        }),
{
    let requests = seq![(service, index, subscription_type)];
    let (subscribed, registered) = state.subscribe(fees, caller, requests)->Ok_0;
    let user = registered.user_id.get_id(caller);
    assert(requests.drop_last() =~= Seq::<(nat, nat, SubscriptionType)>::empty());
    assert(requests.last() == (service, index, subscription_type));
    assert(state.subscribe_error(requests.drop_last()) is None);
    assert(state.subscribe_all(user, requests.drop_last()) == state);
    assert(subscribed == state.subscribe_one(user, service, index, subscription_type));
    let ending = seq![(service, index)];
    assert(ending.drop_last() =~= Seq::<(nat, nat)>::empty());
    assert(ending.last() == (service, index));
    assert(subscribed.unsubscribe_error(ending.drop_last()) is None);
    assert(subscribed.unsubscribe_all(user, ending.drop_last()) == subscribed);
    assert(subscribed.has_option(service, index));
    let ended = subscribed.unsubscribe_one(user, service, index);
    assert(state.subscription_type[(user, service, index)] == SubscriptionType::NoSubscription);
    assert(ended.subscription_type =~= state.subscription_type);
    assert(ended.subscribed_users[(service, index)] =~= state.subscribed_users[(service, index)]);
    assert(ended.subscribed_users =~= state.subscribed_users);
}

/// The requests of a call of `subscribe` that is not refused leave the registry well
/// formed, and touch neither the services nor those that wait for approval.
pub proof fn law_subscribe_all(
    state: ServiceState,
    user: nat,
    requests: Seq<(nat, nat, SubscriptionType)>,
)
    requires
        state.well_formed(),
        state.subscribe_error(requests) is None,
    ensures
        ({
            let after = state.subscribe_all(user, requests);
            &&& after.well_formed()
            &&& after.service_id == state.service_id
            &&& after.service_info == state.service_info
            &&& after.pending_services == state.pending_services
            &&& after.pending_service_info == state.pending_service_info
        }),
    decreases requests.len(),
{
    if requests.len() > 0 {
        law_subscribe_all(state, user, requests.drop_last());
        law_subscribe_one(
            state.subscribe_all(user, requests.drop_last()),
            user,
            requests.last().0,
            requests.last().1,
            requests.last().2,
        );
    }
}

/// The requests of a call of `unsubscribe` leave the registry well formed, and touch
/// neither the services nor those that wait for approval.
pub proof fn law_unsubscribe_all(state: ServiceState, user: nat, requests: Seq<(nat, nat)>)
    requires
        state.well_formed(),
    ensures
        ({
            let after = state.unsubscribe_all(user, requests);
            &&& after.well_formed()
            &&& after.service_id == state.service_id
            &&& after.service_info == state.service_info
            &&& after.pending_services == state.pending_services
            &&& after.pending_service_info == state.pending_service_info
        }),
    decreases requests.len(),
{
    if requests.len() > 0 {
        law_unsubscribe_all(state, user, requests.drop_last());
        law_unsubscribe_one(
            state.unsubscribe_all(user, requests.drop_last()),
            user,
            requests.last().0,
            requests.last().1,
        );
    }
}

/// The options of an approved service stay as they were approved: a registration changes
/// none of them, an approval only sets those of the service that it approves, and a
/// service that withdraws only clears its own.
pub proof fn law_approved_options_stay(
    state: ServiceState,
    accepted: Seq<Asset>,
    caller: Seq<u8>,
    options: Seq<ServiceInfoView>,
    id: nat,
)
    requires
        state.well_formed(),
    ensures
        state.register_service(accepted, caller, options) is Ok ==> state.register_service(
            accepted,
            caller,
            options,
        )->Ok_0.service_info[id] == state.service_info[id],
        state.approve_service(true, caller) is Ok && id != state.service_id.last_id + 1
            ==> state.approve_service(true, caller)->Ok_0.service_info[id]
            == state.service_info[id],
        id != state.service_id.get_id(caller) ==> state.unregister_service(caller).service_info[id]
            == state.service_info[id],
{
}

} // verus!
