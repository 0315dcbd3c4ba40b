//! Account addresses.

use vstd::prelude::*;

verus! {

/// The number of leading zero bytes that mark the address of a smart contract.
pub const SC_ADDRESS_NUM_LEADING_ZEROS: usize = 8;

/// Whether the 32 bytes are all zero.
pub open spec fn all_zero(bytes: Seq<u8>) -> bool {
    forall|i: int| 0 <= i < bytes.len() ==> bytes[i] == 0
}

/// Whether the bytes have the form of a smart contract's address: the leading bytes are zero.
pub open spec fn has_smart_contract_prefix(bytes: Seq<u8>) -> bool {
    forall|i: int| 0 <= i < SC_ADDRESS_NUM_LEADING_ZEROS && i < bytes.len() ==> bytes[i] == 0
}

/// The address of an account or of a smart contract: 32 bytes.
#[derive(Clone, Copy, Debug, PartialEq, Eq)]
pub struct Address {
    pub bytes: [u8; 32],
}

impl View for Address {
    type V = Seq<u8>;

    open spec fn view(&self) -> Seq<u8> {
        self.bytes@
    }
}

/// Calls `Address::is_zero` of `dharitri_sc::chain_core::types`, which compares the 32 bytes
/// with 32 zero bytes.
#[verifier::external_body]
fn chain_address_is_zero(bytes: &[u8; 32]) -> (r: bool)
    ensures
        r == all_zero(bytes@),
{
    dharitri_sc::chain_core::types::Address::new(*bytes).is_zero()
}

/// Calls `Address::is_smart_contract_address` of `dharitri_sc::chain_core::types`, which tests
/// whether the first eight bytes are all zero.
#[verifier::external_body]
fn chain_address_is_smart_contract(bytes: &[u8; 32]) -> (r: bool)
    ensures
        r == has_smart_contract_prefix(bytes@),
{
    dharitri_sc::chain_core::types::Address::new(*bytes).is_smart_contract_address()
}

impl Address {
    /// The address that the 32 bytes spell.
    pub fn new(bytes: [u8; 32]) -> (r: Address)
        ensures
            r@ == bytes@,
    {
        Address { bytes }
    }

    /// The address of 32 zero bytes, which belongs to nobody.
    pub fn zero() -> (r: Address)
        ensures
            r@.len() == 32,
            all_zero(r@),
    {
        Address { bytes: [0u8; 32] }
    }

    /// Whether the two addresses are the same.
    pub fn eq(&self, other: &Address) -> (r: bool)
        ensures
            r == (self@ == other@),
    {
        let mut i: usize = 0;
        while i < 32
            invariant
                i <= 32,
                forall|j: int| 0 <= j < i ==> self@[j] == other@[j],
            decreases 32 - i,
        {
            if self.bytes[i] != other.bytes[i] {
                return false;
            }
            i = i + 1;
        }
        assert(self@ =~= other@);
        true
    }

    /// Whether this is the address of 32 zero bytes.
    pub fn is_zero(&self) -> (r: bool)
        ensures
            r == all_zero(self@),
    {
        chain_address_is_zero(&self.bytes)
    }

    /// Whether the address has the form of a smart contract's address.
    pub fn is_smart_contract_address(&self) -> (r: bool)
        ensures
            r == has_smart_contract_prefix(self@),
    {
        chain_address_is_smart_contract(&self.bytes)
    }
}

} // verus!
