//! The price venues: for each token the contract that quotes its price.

use crate::address::{has_smart_contract_prefix, Address};
use crate::big_uint::BigUint;
use crate::errors::Error;
use crate::token::{valid_dct_identifier, DctTokenPayment, PaymentView, TokenIdentifier};
use vstd::prelude::*;

verus! {

/// The price venues in the model.
pub struct PairState {
    /// The venue of each token that has one.
    pub pair_address_for_token: Map<Seq<u8>, Seq<u8>>,
    /// The contract through which prices are asked.
    pub price_query_address: Seq<u8>,
}

/// A question to a price venue in the model.
pub struct SafePriceQueryView {
    pub price_query_address: Seq<u8>,
    pub pair_address: Seq<u8>,
    pub input_payment: PaymentView,
}

impl PairState {
    /// The owner sets the venue of a token, in place of the one that it had, if any. The
    /// token's identifier must be well formed and the venue a smart contract.
    pub open spec fn add_usdc_pair(
        self,
        caller_is_owner: bool,
        token_id: Seq<u8>,
        pair_address: Seq<u8>,
    ) -> Result<PairState, Error> {
        if !caller_is_owner {
            Err(Error::NotOwner)
        } else if !valid_dct_identifier(token_id) {
            Err(Error::InvalidTokenId)
        } else if !has_smart_contract_prefix(pair_address) {
            Err(Error::InvalidPairAddress)
        } else {
            Ok(
                PairState {
                    pair_address_for_token: self.pair_address_for_token.insert(
                        token_id,
                        pair_address,
                    ),
                    ..self
                },
            )
        }
    }

    /// The owner takes the venue of a token away.
    pub open spec fn remove_usdc_pair(self, caller_is_owner: bool, token_id: Seq<u8>) -> Result<
        PairState,
        Error,
    > {
        if !caller_is_owner {
            Err(Error::NotOwner)
        } else {
            Ok(
                PairState {
                    pair_address_for_token: self.pair_address_for_token.remove(token_id),
                    ..self
                },
            )
        }
    }

    /// What to ask for the price of `amount` of the token: its venue, if it has one, is
    /// asked through the price query contract for the safe price of that payment.
    pub open spec fn get_price(self, token_id: Seq<u8>, amount: nat) -> Result<
        SafePriceQueryView,
        (),
    > {
        if !self.pair_address_for_token.contains_key(token_id) {
            Err(())
        } else {
            Ok(
                SafePriceQueryView {
                    price_query_address: self.price_query_address,
                    pair_address: self.pair_address_for_token[token_id],
                    input_payment: PaymentView { token: token_id, amount },
                },
            )
        }
    }
}

/// A question to a price venue: the contract to ask through, the venue, and the payment
/// whose price is asked for. The amount of the payment that the venue answers with is the
/// price.
#[derive(Debug, PartialEq, Eq)]
pub struct SafePriceQuery {
    pub price_query_address: Address,
    pub pair_address: Address,
    pub input_payment: DctTokenPayment,
}

impl View for SafePriceQuery {
    type V = SafePriceQueryView;

    open spec fn view(&self) -> SafePriceQueryView {
        SafePriceQueryView {
            price_query_address: self.price_query_address@,
            pair_address: self.pair_address@,
            input_payment: self.input_payment@,
        }
    }
}

/// The venue of one token.
struct Pair {
    token_id: TokenIdentifier,
    pair_address: Address,
}

/// Whether entry `i` is that of the token.
spec fn pair_at(pairs: Seq<Pair>, i: int, token_id: Seq<u8>) -> bool {
    0 <= i < pairs.len() && pairs[i].token_id@ == token_id
}

/// Whether no token has two entries.
spec fn pairs_wf(pairs: Seq<Pair>) -> bool {
    forall|i: int, j: int|
        0 <= i < j < pairs.len() ==> (#[trigger] pairs[i]).token_id@ != (
        #[trigger] pairs[j]).token_id@
}

spec fn pairs_view(pairs: Seq<Pair>) -> Map<Seq<u8>, Seq<u8>> {
    Map::new(
        |t: Seq<u8>| exists|i: int| pair_at(pairs, i, t),
        |t: Seq<u8>| pairs[choose|i: int| pair_at(pairs, i, t)].pair_address@,
    )
}

proof fn lemma_pair_at(pairs: Seq<Pair>, i: int)
    requires
        pairs_wf(pairs),
        0 <= i < pairs.len(),
    ensures
        pairs_view(pairs).contains_key(pairs[i].token_id@),
        pairs_view(pairs)[pairs[i].token_id@] == pairs[i].pair_address@,
{
    let t = pairs[i].token_id@;
    assert(pair_at(pairs, i, t));
    let c = choose|c: int| pair_at(pairs, c, t);
    assert(c == i);
}

/// Where two lists of venues hold the same entries but for one token, their views differ
/// at that token alone.
proof fn lemma_pairs_same_elsewhere(before: Seq<Pair>, after: Seq<Pair>, token_id: Seq<u8>)
    requires
        pairs_wf(before),
        pairs_wf(after),
        forall|i: int|
            0 <= i < before.len() && (#[trigger] before[i]).token_id@ != token_id ==> exists|j: int|
                0 <= j < after.len() && #[trigger] after[j] == before[i],
        forall|j: int|
            0 <= j < after.len() && (#[trigger] after[j]).token_id@ != token_id ==> exists|i: int|
                0 <= i < before.len() && #[trigger] before[i] == after[j],
    ensures
        forall|t: Seq<u8>|
            t != token_id ==> pairs_view(after).contains_key(t) == pairs_view(before).contains_key(
                t,
            ),
        forall|t: Seq<u8>|
            t != token_id && pairs_view(before).contains_key(t) ==> pairs_view(after)[t]
                == pairs_view(before)[t],
{
    assert forall|t: Seq<u8>| t != token_id implies pairs_view(after).contains_key(t)
        == pairs_view(before).contains_key(t) by {
        if pairs_view(before).contains_key(t) {
            let i = choose|i: int| pair_at(before, i, t);
            assert(pair_at(before, i, t));
            let j = choose|j: int| 0 <= j < after.len() && #[trigger] after[j] == before[i];
            assert(pair_at(after, j, t));
        }
        if pairs_view(after).contains_key(t) {
            let j = choose|j: int| pair_at(after, j, t);
            assert(pair_at(after, j, t));
            let i = choose|i: int| 0 <= i < before.len() && #[trigger] before[i] == after[j];
            assert(pair_at(before, i, t));
        }
    }
    assert forall|t: Seq<u8>|
        t != token_id && pairs_view(before).contains_key(t) implies pairs_view(after)[t]
        == pairs_view(before)[t] by {
        let i = choose|i: int| pair_at(before, i, t);
        assert(pair_at(before, i, t));
        let j = choose|j: int| 0 <= j < after.len() && #[trigger] after[j] == before[i];
        lemma_pair_at(before, i);
        lemma_pair_at(after, j);
    }
}

/// The price venues: for each token that has one, the contract that quotes its price, and
/// the contract through which prices are asked.
pub struct PairActionsModule {
    pairs: Vec<Pair>,
    price_query_address: Address,
}

impl View for PairActionsModule {
    type V = PairState;

    closed spec fn view(&self) -> PairState {
        PairState {
            pair_address_for_token: pairs_view(self.pairs@),
            price_query_address: self.price_query_address@,
        }
    }
}

impl PairActionsModule {
    /// What holds of the venues between calls. Every public function that makes or changes
    /// them establishes it, so a caller outside has nothing to do for it.
    pub closed spec fn wf(&self) -> bool {
        pairs_wf(self.pairs@)
    }

    /// No venues, and the contract through which prices are asked.
    pub fn new(price_query_address: Address) -> (r: PairActionsModule)
        ensures
            r.wf(),
            r@ == (PairState {
                pair_address_for_token: Map::empty(),
                price_query_address: price_query_address@,
            }),
    {
        let r = PairActionsModule { pairs: Vec::new(), price_query_address };
        assert(r@.pair_address_for_token =~= Map::<Seq<u8>, Seq<u8>>::empty());
        r
    }

    /// The entry of the token, if it has one.
    fn find_pair(&self, token_id: &TokenIdentifier) -> (r: Option<usize>)
        requires
            self.wf(),
        ensures
            match r {
                Some(i) => pair_at(self.pairs@, i as int, token_id@),
                None => !self@.pair_address_for_token.contains_key(token_id@),
            },
    {
        let mut i: usize = 0;
        while i < self.pairs.len()
            invariant
                i <= self.pairs@.len(),
                forall|j: int| 0 <= j < i ==> !pair_at(self.pairs@, j, token_id@),
            decreases self.pairs@.len() - i,
        {
            if self.pairs[i].token_id.eq(token_id) {
                return Some(i);
            }
            i = i + 1;
        }
        proof {
            if pairs_view(self.pairs@).contains_key(token_id@) {
                let c = choose|c: int| pair_at(self.pairs@, c, token_id@);
                assert(pair_at(self.pairs@, c, token_id@));
            }
        }
        None
    }

    /// The owner sets the venue of a token, in place of the one that it had, if any. The
    /// call is refused where the caller is not the owner, the token's identifier is not
    /// well formed, or the venue is not a smart contract.
    pub fn add_usdc_pair(
        &mut self,
        caller_is_owner: bool,
        token_id: TokenIdentifier,
        pair_address: Address,
    ) -> (r: Result<(), Error>)
        requires
            old(self).wf(),
        ensures
            final(self).wf(),
            match old(self)@.add_usdc_pair(caller_is_owner, token_id@, pair_address@) {
                Ok(state) => r is Ok && final(self)@ == state,
                Err(e) => r == Err::<(), Error>(e) && final(self)@ == old(self)@,
            },
    {
        if !caller_is_owner {
            return Err(Error::NotOwner);
        }
        if !token_id.is_valid_dct_identifier() {
            return Err(Error::InvalidTokenId);
        }
        if !pair_address.is_smart_contract_address() {
            return Err(Error::InvalidPairAddress);
        }
        let ghost before = self.pairs@;
        let ghost token = token_id@;
        let found = self.find_pair(&token_id);
        let entry = Pair { token_id, pair_address };
        match found {
            Some(i) => {
                self.pairs.set(i, entry);
                proof {
                    let after = self.pairs@;
                    assert forall|x: int, y: int| 0 <= x < y < after.len() implies (
                    #[trigger] after[x]).token_id@ != (#[trigger] after[y]).token_id@ by {
                        assert(after[x].token_id@ == before[x].token_id@);
                        assert(after[y].token_id@ == before[y].token_id@);
                    }
                    assert forall|x: int|
                        0 <= x < before.len() && (#[trigger] before[x]).token_id@
                            != token implies exists|y: int|
                        0 <= y < after.len() && #[trigger] after[y] == before[x] by {
                        assert(after[x] == before[x]);
                    }
                    assert forall|y: int|
                        0 <= y < after.len() && (#[trigger] after[y]).token_id@
                            != token implies exists|x: int|
                        0 <= x < before.len() && #[trigger] before[x] == after[y] by {
                        assert(before[y] == after[y]);
                    }
                    lemma_pairs_same_elsewhere(before, after, token);
                    lemma_pair_at(after, i as int);
                    assert(pairs_view(after) =~= pairs_view(before).insert(token, pair_address@));
                }
            },
            None => {
                self.pairs.push(entry);
                proof {
                    let after = self.pairs@;
                    let last = before.len() as int;
                    assert(after[last] == entry);
                    assert forall|x: int, y: int| 0 <= x < y < after.len() implies (
                    #[trigger] after[x]).token_id@ != (#[trigger] after[y]).token_id@ by {
                        assert(after[x] == before[x]);
                        assert(pair_at(before, x, before[x].token_id@));
                        if y < last {
                            assert(after[y] == before[y]);
                        }
                    }
                    assert forall|x: int|
                        0 <= x < before.len() && (#[trigger] before[x]).token_id@
                            != token implies exists|y: int|
                        0 <= y < after.len() && #[trigger] after[y] == before[x] by {
                        assert(after[x] == before[x]);
                    }
                    assert forall|y: int|
                        0 <= y < after.len() && (#[trigger] after[y]).token_id@
                            != token implies exists|x: int|
                        0 <= x < before.len() && #[trigger] before[x] == after[y] by {
                        assert(before[y] == after[y]);
                    }
                    lemma_pairs_same_elsewhere(before, after, token);
                    lemma_pair_at(after, last);
                    assert(pairs_view(after) =~= pairs_view(before).insert(token, pair_address@));
                }
            },
        }
        Ok(())
    }

    /// The owner takes the venue of a token away. The call is refused where the caller is
    /// not the owner; it changes nothing where the token has no venue.
    pub fn remove_usdc_pair(&mut self, caller_is_owner: bool, token_id: TokenIdentifier) -> (r:
        Result<(), Error>)
        requires
            old(self).wf(),
        ensures
            final(self).wf(),
            match old(self)@.remove_usdc_pair(caller_is_owner, token_id@) {
                Ok(state) => r is Ok && final(self)@ == state,
                Err(e) => r == Err::<(), Error>(e) && final(self)@ == old(self)@,
            },
    {
        if !caller_is_owner {
            return Err(Error::NotOwner);
        }
        let ghost before = self.pairs@;
        let ghost token = token_id@;
        match self.find_pair(&token_id) {
            Some(i) => {
                self.pairs.swap_remove(i);
                proof {
                    let after = self.pairs@;
                    let last = before.len() - 1;
                    assert forall|x: int| 0 <= x < after.len() implies after[x] == before[if x
                        == i {
                        last
                    } else {
                        x
                    }] by {}
                    assert forall|x: int, y: int| 0 <= x < y < after.len() implies (
                    #[trigger] after[x]).token_id@ != (#[trigger] after[y]).token_id@ by {
                        let x0 = if x == i { last } else { x };
                        let y0 = if y == i { last } else { y };
                        assert(after[x] == before[x0]);
                        assert(after[y] == before[y0]);
                    }
                    assert forall|x: int|
                        0 <= x < before.len() && (#[trigger] before[x]).token_id@
                            != token implies exists|y: int|
                        0 <= y < after.len() && #[trigger] after[y] == before[x] by {
                        if x == last {
                            assert(after[i as int] == before[x]);
                        } else {
                            assert(after[x] == before[x]);
                        }
                    }
                    assert forall|y: int|
                        0 <= y < after.len() && (#[trigger] after[y]).token_id@
                            != token implies exists|x: int|
                        0 <= x < before.len() && #[trigger] before[x] == after[y] by {
                        let y0 = if y == i { last } else { y };
                        assert(before[y0] == after[y]);
                    }
                    lemma_pairs_same_elsewhere(before, after, token);
                    if pairs_view(after).contains_key(token) {
                        let c = choose|c: int| pair_at(after, c, token);
                        assert(pair_at(after, c, token));
                        let c0 = if c == i { last } else { c };
                        assert(after[c] == before[c0]);
                    }
                    assert(pairs_view(after) =~= pairs_view(before).remove(token));
                }
            },
            None => {
                assert(pairs_view(before).remove(token) =~= pairs_view(before));
            },
        }
        Ok(())
    }

    /// What to ask for the price of `amount` of the token: nothing where the token has no
    /// venue; else its venue is asked, through the price query contract, for the safe
    /// price of that payment.
    pub fn get_price(&self, token_id: TokenIdentifier, amount: BigUint) -> (r: Result<
        SafePriceQuery,
        (),
    >)
        requires
            self.wf(),
        ensures
            match self@.get_price(token_id@, amount@) {
                Ok(query) => r is Ok && r->Ok_0@ == query,
                Err(_) => r is Err,
            },
    {
        match self.find_pair(&token_id) {
            Some(i) => {
                proof {
                    lemma_pair_at(self.pairs@, i as int);
                }
                Ok(
                    SafePriceQuery {
                        price_query_address: self.price_query_address,
                        pair_address: self.pairs[i].pair_address,
                        input_payment: DctTokenPayment::new(token_id, amount),
                    },
                )
            },
            None => Err(()),
        }
    }

    /// The venue of the token, if it has one.
    pub fn pair_address_for_token(&self, token_id: &TokenIdentifier) -> (r: Option<Address>)
        requires
            self.wf(),
        ensures
            match r {
                Some(pair_address) => self@.pair_address_for_token.contains_key(token_id@)
                    && self@.pair_address_for_token[token_id@] == pair_address@,
                None => !self@.pair_address_for_token.contains_key(token_id@),
            },
    {
        match self.find_pair(token_id) {
            Some(i) => {
                proof {
                    lemma_pair_at(self.pairs@, i as int);
                }
                Some(self.pairs[i].pair_address)
            },
            None => None,
        }
    }

    /// The contract through which prices are asked.
    pub fn price_query_address(&self) -> (r: Address)
        ensures
            r@ == self@.price_query_address,
    {
        self.price_query_address
    }
}

} // verus!
