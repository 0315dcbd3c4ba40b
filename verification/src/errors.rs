//! The reasons for which a call is refused.

use vstd::prelude::*;

verus! {

/// Why a call was refused. A refused call leaves the state as it was.
#[derive(Clone, Copy, Debug, PartialEq, Eq, Structural)]
pub enum Error {
    /// A call that only the owner may make was made by somebody else.
    NotOwner,
    /// An asset that is neither the native coin nor a well-formed token identifier.
    InvalidAsset,
    /// A deposit of nothing.
    NoPayment,
    /// An asset that is not among the accepted ones.
    InvalidPaymentToken,
    /// The caller has no user number, so it holds nothing that it could withdraw.
    UnknownUser,
    /// A registration without options.
    EmptyArguments,
    /// The caller is an approved service already.
    AlreadyRegistered,
    /// An option whose destination is not a smart contract, or is the zero address.
    InvalidDestination,
    /// The address is not waiting for approval.
    UnknownService,
    /// The service has no option of that index.
    InvalidServiceIndex,
    /// A subscription without a type.
    InvalidSubscriptionType,
    /// A token identifier that is not well formed, where a price venue is set.
    InvalidTokenId,
    /// A price venue whose address is not that of a smart contract.
    InvalidPairAddress,
}

/// The words that go with each reason.
pub open spec fn error_message(error: Error) -> Seq<char> {
    match error {
        Error::NotOwner => "Endpoint can only be called by owner"@,
        Error::InvalidAsset => "Invalid token"@,
        Error::NoPayment => "No payment"@,
        Error::InvalidPaymentToken => "Invalid payment token"@,
        Error::UnknownUser => "Unknown address"@,
        Error::EmptyArguments => "No arguments provided"@,
        Error::AlreadyRegistered => "Service already registered"@,
        Error::InvalidDestination => "Invalid SC address"@,
        Error::UnknownService => "Unknown service"@,
        Error::InvalidServiceIndex => "Invalid service index"@,
        Error::InvalidSubscriptionType => "Invalid subscription type"@,
        Error::InvalidTokenId => "Invalid token ID"@,
        Error::InvalidPairAddress => "Invalid pair address"@,
    }
}

impl Error {
    /// The words with which the call is refused.
    pub fn message(&self) -> (r: &'static str)
        ensures
            r@ == error_message(*self),
    {
        match self {
            Error::NotOwner => "Endpoint can only be called by owner",
            Error::InvalidAsset => "Invalid token",
            Error::NoPayment => "No payment",
            Error::InvalidPaymentToken => "Invalid payment token",
            Error::UnknownUser => "Unknown address",
            Error::EmptyArguments => "No arguments provided",
            Error::AlreadyRegistered => "Service already registered",
            Error::InvalidDestination => "Invalid SC address",
            Error::UnknownService => "Unknown service",
            Error::InvalidServiceIndex => "Invalid service index",
            Error::InvalidSubscriptionType => "Invalid subscription type",
            Error::InvalidTokenId => "Invalid token ID",
            Error::InvalidPairAddress => "Invalid pair address",
        }
    }
}

} // verus!
