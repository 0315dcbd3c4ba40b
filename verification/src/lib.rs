//! The custody ledger and the service registry of a subscription-fee contract.
//!
//! Users deposit accepted assets, the native coin or tokens, and withdraw them again in
//! whole or in part; services register paid options, the owner approves them, and users
//! subscribe to the options of approved services.
//!
//! - `fees` holds the ledger: the accepted assets and what each user holds.
//! - `service` holds the registry: waiting and approved services, and the subscriptions.
//! - `pair_actions` holds the price venues of the tokens.
//! - `fees_laws` and `service_laws` state what holds of the two over any calls.
//! - `address_to_id_mapper` and `unique_payments` are the tables that the ledger and the
//!   registry are built on, `big_uint`, `address` and `token` the values that they hold.
//!
//! Each state has a model, and each call is stated as a function on the models. A call that
//! is refused leaves the state as it was.

pub mod address;
pub mod address_to_id_mapper;
pub mod base_functions;
pub mod big_uint;
pub mod claim_farm_boosted;
pub mod errors;
pub mod fees;
pub mod fees_laws;
pub mod pair_actions;
pub mod service;
pub mod service_laws;
pub mod token;
pub mod unique_payments;
