//! What a subscriber contract has to offer: the action that it carries out for a user.

use crate::address::Address;
use crate::service::ServiceInfo;
use crate::token::DctTokenPayment;
use vstd::prelude::*;

verus! {

/// What an action has brought the user.
#[derive(Debug, PartialEq, Eq)]
pub struct InterpretedResult {
    pub user_rewards: Vec<DctTokenPayment>,
}

/// A contract that carries out, for the users that subscribe to it, one action per option.
pub trait SubscriberContract {
    /// The contract that carries out the action.
    type SubSc;

    /// What the action needs to know besides the user and the option.
    type AdditionalDataType: Clone;

    /// Carries out the action of the option for the user. `Err` where the action could not
    /// be carried out.
    fn perform_action(
        sc: &Self::SubSc,
        user_address: Address,
        service_index: usize,
        service_info: &ServiceInfo,
        additional_data: &Self::AdditionalDataType,
    ) -> Result<InterpretedResult, ()>;
}

} // verus!
