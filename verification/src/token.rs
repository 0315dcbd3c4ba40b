//! Asset identifiers and payments.

use crate::big_uint::BigUint;
use vstd::prelude::*;

verus! {

/// An upper-case letter or a digit, in ASCII.
pub open spec fn is_upper_alphanumeric(c: u8) -> bool {
    (0x41 <= c <= 0x5a) || (0x30 <= c <= 0x39)
}

/// A lower-case letter or a digit, in ASCII.
pub open spec fn is_lower_alphanumeric(c: u8) -> bool {
    (0x61 <= c <= 0x7a) || (0x30 <= c <= 0x39)
}

/// The form of a token identifier: a ticker of 3 to 10 upper-case letters and digits, a dash,
/// and 6 lower-case letters and digits.
pub open spec fn valid_dct_identifier(id: Seq<u8>) -> bool {
    &&& 10 <= id.len() <= 17
    &&& forall|i: int| 0 <= i < id.len() - 7 ==> is_upper_alphanumeric(#[trigger] id[i])
    &&& id[id.len() - 7] == 0x2d
    &&& forall|i: int| id.len() - 6 <= i < id.len() ==> is_lower_alphanumeric(#[trigger] id[i])
}

/// `validate_token_identifier` of `dharitri_sc::chain_core::token_identifier_util` accepts
/// exactly the byte strings of the form that `valid_dct_identifier` describes.
pub assume_specification[ dharitri_sc::chain_core::token_identifier_util::validate_token_identifier ](
    token_id_slice: &[u8],
) -> (r: bool)
    ensures
        r == valid_dct_identifier(token_id_slice@),
;

/// An asset, in the model: the native coin, or a token with its identifier.
pub enum Asset {
    Moax,
    Dct(Seq<u8>),
}

impl Asset {
    /// The native coin is always valid, a token where its identifier is well formed.
    pub open spec fn is_valid(self) -> bool {
        match self {
            Asset::Moax => true,
            Asset::Dct(id) => valid_dct_identifier(id),
        }
    }
}

/// An amount of one token in the model.
pub struct PaymentView {
    pub token: Seq<u8>,
    pub amount: nat,
}

/// The identifier of a token.
#[derive(Debug, PartialEq, Eq)]
pub struct TokenIdentifier {
    data: Vec<u8>,
}

impl View for TokenIdentifier {
    type V = Seq<u8>;

    closed spec fn view(&self) -> Seq<u8> {
        self.data@
    }
}

impl Clone for TokenIdentifier {
    fn clone(&self) -> (r: TokenIdentifier)
        ensures
            r@ == self@,
    {
        let data = self.data.clone();
        assert(data@ =~= self.data@);
        TokenIdentifier { data }
    }
}

impl TokenIdentifier {
    /// The identifier that the bytes spell, well formed or not.
    pub fn from_bytes(bytes: Vec<u8>) -> (r: TokenIdentifier)
        ensures
            r@ == bytes@,
    {
        TokenIdentifier { data: bytes }
    }

    /// The bytes of the identifier.
    pub fn to_bytes(&self) -> (r: Vec<u8>)
        ensures
            r@ == self@,
    {
        let data = self.data.clone();
        assert(data@ =~= self.data@);
        data
    }

    /// Whether the two identifiers are the same.
    pub fn eq(&self, other: &TokenIdentifier) -> (r: bool)
        ensures
            r == (self@ == other@),
    {
        if self.data.len() != other.data.len() {
            return false;
        }
        let mut i: usize = 0;
        while i < self.data.len()
            invariant
                i <= self.data@.len(),
                self.data@.len() == other.data@.len(),
                forall|j: int| 0 <= j < i ==> self.data@[j] == other.data@[j],
            decreases self.data@.len() - i,
        {
            if self.data[i] != other.data[i] {
                return false;
            }
            i = i + 1;
        }
        assert(self.data@ =~= other.data@);
        true
    }

    /// Whether the identifier is well formed.
    pub fn is_valid_dct_identifier(&self) -> (r: bool)
        ensures
            r == valid_dct_identifier(self@),
    {
        dharitri_sc::chain_core::token_identifier_util::validate_token_identifier(
            self.data.as_slice(),
        )
    }
}

/// The native coin, or a token.
#[derive(Debug, PartialEq, Eq)]
pub enum MoaxOrDctTokenIdentifier {
    Moax,
    Dct(TokenIdentifier),
}

impl View for MoaxOrDctTokenIdentifier {
    type V = Asset;

    open spec fn view(&self) -> Asset {
        match self {
            MoaxOrDctTokenIdentifier::Moax => Asset::Moax,
            MoaxOrDctTokenIdentifier::Dct(token) => Asset::Dct(token@),
        }
    }
}

impl Clone for MoaxOrDctTokenIdentifier {
    fn clone(&self) -> (r: MoaxOrDctTokenIdentifier)
        ensures
            r@ == self@,
    {
        match self {
            MoaxOrDctTokenIdentifier::Moax => MoaxOrDctTokenIdentifier::Moax,
            MoaxOrDctTokenIdentifier::Dct(token) => MoaxOrDctTokenIdentifier::Dct(token.clone()),
        }
    }
}

impl MoaxOrDctTokenIdentifier {
    /// The native coin.
    pub fn moax() -> (r: MoaxOrDctTokenIdentifier)
        ensures
            r@ == Asset::Moax,
    {
        MoaxOrDctTokenIdentifier::Moax
    }

    /// The token with the given identifier.
    pub fn dct(token_identifier: TokenIdentifier) -> (r: MoaxOrDctTokenIdentifier)
        ensures
            r@ == Asset::Dct(token_identifier@),
    {
        MoaxOrDctTokenIdentifier::Dct(token_identifier)
    }

    /// Whether this is the native coin.
    pub fn is_moax(&self) -> (r: bool)
        ensures
            r == (self@ is Moax),
    {
        match self {
            MoaxOrDctTokenIdentifier::Moax => true,
            MoaxOrDctTokenIdentifier::Dct(_) => false,
        }
    }

    /// Whether this is a token.
    pub fn is_dct(&self) -> (r: bool)
        ensures
            r == (self@ is Dct),
    {
        !self.is_moax()
    }

    /// Whether the asset is valid: the native coin always, a token where its identifier is
    /// well formed.
    pub fn is_valid(&self) -> (r: bool)
        ensures
            r == self@.is_valid(),
    {
        match self {
            MoaxOrDctTokenIdentifier::Moax => true,
            MoaxOrDctTokenIdentifier::Dct(token) => token.is_valid_dct_identifier(),
        }
    }

    /// Whether the two assets are the same.
    pub fn eq(&self, other: &MoaxOrDctTokenIdentifier) -> (r: bool)
        ensures
            r == (self@ == other@),
    {
        match self {
            MoaxOrDctTokenIdentifier::Moax => other.is_moax(),
            MoaxOrDctTokenIdentifier::Dct(token) => match other {
                MoaxOrDctTokenIdentifier::Moax => false,
                MoaxOrDctTokenIdentifier::Dct(other_token) => token.eq(other_token),
            },
        }
    }

    /// The token's identifier, where this is a token.
    pub fn as_dct_option(&self) -> (r: Option<&TokenIdentifier>)
        ensures
            match self@ {
                Asset::Moax => r is None,
                Asset::Dct(id) => r is Some && r->Some_0@ == id,
            },
    {
        match self {
            MoaxOrDctTokenIdentifier::Moax => None,
            MoaxOrDctTokenIdentifier::Dct(token) => Some(token),
        }
    }
}

/// An amount of one token.
#[derive(Debug, PartialEq, Eq)]
pub struct DctTokenPayment {
    pub token_identifier: TokenIdentifier,
    pub amount: BigUint,
}

impl View for DctTokenPayment {
    type V = PaymentView;

    open spec fn view(&self) -> PaymentView {
        PaymentView { token: self.token_identifier@, amount: self.amount@ }
    }
}

impl Clone for DctTokenPayment {
    fn clone(&self) -> (r: DctTokenPayment)
        ensures
            r@ == self@,
    {
        DctTokenPayment {
            token_identifier: self.token_identifier.clone(),
            amount: self.amount.clone(),
        }
    }
}

impl DctTokenPayment {
    /// The payment of `amount` of the token.
    pub fn new(token_identifier: TokenIdentifier, amount: BigUint) -> (r: DctTokenPayment)
        ensures
            r@ == (PaymentView { token: token_identifier@, amount: amount@ }),
    {
        DctTokenPayment { token_identifier, amount }
    }
}

/// An amount of the native coin or of one token.
#[derive(Debug, PartialEq, Eq)]
pub struct MoaxOrDctTokenPayment {
    pub token_identifier: MoaxOrDctTokenIdentifier,
    pub amount: BigUint,
}

impl Clone for MoaxOrDctTokenPayment {
    fn clone(&self) -> (r: MoaxOrDctTokenPayment)
        ensures
            r.token_identifier@ == self.token_identifier@,
            r.amount@ == self.amount@,
    {
        MoaxOrDctTokenPayment {
            token_identifier: self.token_identifier.clone(),
            amount: self.amount.clone(),
        }
    }
}

impl MoaxOrDctTokenPayment {
    /// The payment of `amount` of the asset.
    pub fn new(token_identifier: MoaxOrDctTokenIdentifier, amount: BigUint) -> (r:
        MoaxOrDctTokenPayment)
        ensures
            r.token_identifier@ == token_identifier@,
            r.amount@ == amount@,
    {
        MoaxOrDctTokenPayment { token_identifier, amount }
    }
}

} // verus!
