//! The fees ledger: the accepted assets, and what each user has deposited.

use crate::address::Address;
use crate::address_to_id_mapper::{AddressId, AddressToIdMapper, IdTable};
use crate::big_uint::BigUint;
use crate::errors::Error;
use crate::token::{
    Asset, DctTokenPayment, MoaxOrDctTokenIdentifier, MoaxOrDctTokenPayment, PaymentView,
};
use crate::unique_payments::{
    add_payment_to, can_take, holds_at_least, is_first_holding, lemma_first_holding_is,
    lemma_first_holding_none, lemma_take_unique, payments_view, take_from, unique_tokens,
    UniquePayments,
};
use std::collections::HashMap;
use vstd::prelude::*;

verus! {

broadcast use vstd::std_specs::hash::group_hash_axioms;

/// The set after `token` was added: appended, unless it is in the set already.
pub open spec fn insert_token(accepted: Seq<Asset>, token: Asset) -> Seq<Asset> {
    if accepted.contains(token) {
        accepted
    } else {
        accepted.push(token)
    }
}

/// The set after the tokens were added, one after the other.
pub open spec fn insert_tokens(accepted: Seq<Asset>, tokens: Seq<Asset>) -> Seq<Asset>
    decreases tokens.len(),
{
    if tokens.len() == 0 {
        accepted
    } else {
        insert_token(insert_tokens(accepted, tokens.drop_last()), tokens.last())
    }
}

/// What a withdrawal has done so far: what the user still holds, and what goes out.
pub struct Withdrawal {
    /// The native coin that the user still holds.
    pub moax: nat,
    /// The tokens that the user still holds.
    pub tokens: Seq<PaymentView>,
    /// The native coin that goes out, in all.
    pub moax_amount: nat,
    /// The native coin that goes out, one transfer for each request that was granted.
    pub moax_transfers: Seq<nat>,
    /// The tokens that go out, in the order of the requests that were granted.
    pub output_payments: Seq<PaymentView>,
}

/// What a withdrawal sends to the caller in the model.
pub struct WithdrawnFundsView {
    pub moax_amount: nat,
    pub moax_transfers: Seq<nat>,
    pub output_payments: Seq<PaymentView>,
}

impl Withdrawal {
    /// What the withdrawal sends to the caller.
    pub open spec fn funds(self) -> WithdrawnFundsView {
        WithdrawnFundsView {
            moax_amount: self.moax_amount,
            moax_transfers: self.moax_transfers,
            output_payments: self.output_payments,
        }
    }
}

/// One request of a withdrawal. It is granted in full where the user holds that much of the
/// asset, and skipped otherwise. A token entry that is used up leaves the list.
pub open spec fn withdraw_one(w: Withdrawal, asset: Asset, amount: nat) -> Withdrawal {
    match asset {
        Asset::Moax => if w.moax >= amount {
            Withdrawal {
                moax: (w.moax - amount) as nat,
                tokens: w.tokens,
                moax_amount: w.moax_amount + amount,
                moax_transfers: w.moax_transfers.push(amount),
                output_payments: w.output_payments,
            }
        } else {
            w
        },
        Asset::Dct(token) => if can_take(w.tokens, token, amount) {
            Withdrawal {
                moax: w.moax,
                tokens: take_from(w.tokens, token, amount),
                moax_amount: w.moax_amount,
                moax_transfers: w.moax_transfers,
                output_payments: w.output_payments.push(PaymentView { token, amount }),
            }
        } else {
            w
        },
    }
}

/// The requests of a withdrawal, one after the other.
pub open spec fn withdraw_all(w: Withdrawal, requests: Seq<(Asset, nat)>) -> Withdrawal
    decreases requests.len(),
{
    if requests.len() == 0 {
        w
    } else {
        withdraw_one(
            withdraw_all(w, requests.drop_last()),
            requests.last().0,
            requests.last().1,
        )
    }
}

/// The ledger in the model.
pub struct FeesState {
    /// The accepted assets, in the order in which they were added, each of them once.
    pub accepted_fees_tokens: Seq<Asset>,
    /// The numbers of the users.
    pub user_id: IdTable,
    /// The native coin that each user holds; 0 for a number that never deposited.
    pub user_deposited_moax: Map<nat, nat>,
    /// The tokens that each user holds; empty for a number that never deposited.
    pub user_deposited_fees: Map<nat, Seq<PaymentView>>,
}

impl FeesState {
    /// The ledger in which nothing is accepted and nobody holds anything.
    pub open spec fn empty() -> FeesState {
        FeesState {
            accepted_fees_tokens: Seq::empty(),
            user_id: IdTable::empty(),
            user_deposited_moax: Map::total(|id: nat| 0nat),
            user_deposited_fees: Map::total(|id: nat| Seq::<PaymentView>::empty()),
        }
    }

    /// In a well-formed ledger no asset is accepted twice, the table of users is well
    /// formed, every number has a balance, and no user holds two entries of one token.
    pub open spec fn well_formed(self) -> bool {
        &&& self.accepted_fees_tokens.no_duplicates()
        &&& self.user_id.well_formed()
        &&& forall|id: nat| #[trigger] self.user_deposited_moax.contains_key(id)
        &&& forall|id: nat| #[trigger] self.user_deposited_fees.contains_key(id)
        &&& forall|id: nat| unique_tokens(#[trigger] self.user_deposited_fees[id])
    }

    /// What the user of that number holds of the asset.
    pub open spec fn balance(self, id: nat, asset: Asset) -> nat {
        match asset {
            Asset::Moax => self.user_deposited_moax[id],
            Asset::Dct(token) => crate::unique_payments::amount_of(
                self.user_deposited_fees[id],
                token,
            ),
        }
    }

    /// All that the user of that number holds, the native coin and the tokens added up.
    pub open spec fn total_balance(self, id: nat) -> nat {
        self.user_deposited_moax[id] + crate::unique_payments::total_amount(
            self.user_deposited_fees[id],
        )
    }

    /// The owner adds assets to the accepted ones. All of them must be valid; one that is
    /// accepted already changes nothing.
    pub open spec fn add_accepted_fees_tokens(
        self,
        caller_is_owner: bool,
        tokens: Seq<Asset>,
    ) -> Result<FeesState, Error> {
        if !caller_is_owner {
            Err(Error::NotOwner)
        } else if exists|i: int| 0 <= i < tokens.len() && !(#[trigger] tokens[i]).is_valid() {
            Err(Error::InvalidAsset)
        } else {
            Ok(
                FeesState {
                    accepted_fees_tokens: insert_tokens(self.accepted_fees_tokens, tokens),
                    ..self
                },
            )
        }
    }

    /// The amount is added to what the user of that number holds of the asset.
    pub open spec fn add_user_payment(self, caller_id: nat, asset: Asset, amount: nat) -> FeesState {
        match asset {
            Asset::Moax => FeesState {
                user_deposited_moax: self.user_deposited_moax.insert(
                    caller_id,
                    self.user_deposited_moax[caller_id] + amount,
                ),
                ..self
            },
            Asset::Dct(token) => FeesState {
                user_deposited_fees: self.user_deposited_fees.insert(
                    caller_id,
                    add_payment_to(
                        self.user_deposited_fees[caller_id],
                        PaymentView { token, amount },
                    ),
                ),
                ..self
            },
        }
    }

    /// The caller gets a user number, unless it has one.
    pub open spec fn register_user(self, caller: Seq<u8>) -> FeesState {
        FeesState { user_id: self.user_id.get_id_or_insert(caller), ..self }
    }

    /// A deposit of an accepted asset. The caller gets a user number where it has none.
    pub open spec fn deposit(self, caller: Seq<u8>, asset: Asset, amount: nat) -> Result<
        FeesState,
        Error,
    > {
        if amount == 0 {
            Err(Error::NoPayment)
        } else if !self.accepted_fees_tokens.contains(asset) {
            Err(Error::InvalidPaymentToken)
        } else {
            let registered = self.register_user(caller);
            Ok(registered.add_user_payment(registered.user_id.get_id(caller), asset, amount))
        }
    }

    /// Where the withdrawal of a user starts.
    pub open spec fn withdrawal_start(self, id: nat) -> Withdrawal {
        Withdrawal {
            moax: self.user_deposited_moax[id],
            tokens: self.user_deposited_fees[id],
            moax_amount: 0,
            moax_transfers: Seq::empty(),
            output_payments: Seq::empty(),
        }
    }

    /// A withdrawal by a caller that has a user number: the ledger afterwards, and what is
    /// sent to the caller.
    pub open spec fn withdraw_funds(self, caller: Seq<u8>, requests: Seq<(Asset, nat)>) -> Result<
        (FeesState, WithdrawnFundsView),
        Error,
    > {
        let id = self.user_id.get_id(caller);
        if id == 0 {
            Err(Error::UnknownUser)
        } else {
            let w = withdraw_all(self.withdrawal_start(id), requests);
            Ok(
                (
                    FeesState {
                        user_deposited_moax: self.user_deposited_moax.insert(id, w.moax),
                        user_deposited_fees: self.user_deposited_fees.insert(id, w.tokens),
                        ..self
                    },
                    w.funds(),
                ),
            )
        }
    }
}

/// The assets in the model.
pub open spec fn assets_view(tokens: Seq<MoaxOrDctTokenIdentifier>) -> Seq<Asset> {
    tokens.map_values(|t: MoaxOrDctTokenIdentifier| t@)
}

/// The requests of a withdrawal in the model.
pub open spec fn requests_view(requests: Seq<(MoaxOrDctTokenIdentifier, BigUint)>) -> Seq<
    (Asset, nat),
> {
    requests.map_values(|r: (MoaxOrDctTokenIdentifier, BigUint)| (r.0@, r.1@))
}

/// Whether the asset is among the given ones.
pub fn contains_token(tokens: &Vec<MoaxOrDctTokenIdentifier>, token: &MoaxOrDctTokenIdentifier) -> (r:
    bool)
    ensures
        r == assets_view(tokens@).contains(token@),
{
    let mut i: usize = 0;
    while i < tokens.len()
        invariant
            i <= tokens@.len(),
            forall|j: int| 0 <= j < i ==> assets_view(tokens@)[j] != token@,
        decreases tokens@.len() - i,
    {
        if tokens[i].eq(token) {
            assert(assets_view(tokens@)[i as int] == token@);
            return true;
        }
        i = i + 1;
    }
    false
}

spec fn moax_view(m: Map<AddressId, BigUint>) -> Map<nat, nat> {
    Map::total(
        |id: nat|
            if id <= u64::MAX && m.contains_key(id as AddressId) {
                m[id as AddressId]@
            } else {
                0nat
            },
    )
}

spec fn fees_view(m: Map<AddressId, UniquePayments>) -> Map<nat, Seq<PaymentView>> {
    Map::total(
        |id: nat|
            if id <= u64::MAX && m.contains_key(id as AddressId) {
                m[id as AddressId]@
            } else {
                Seq::<PaymentView>::empty()
            },
    )
}

/// What a withdrawal sends to the caller.
#[derive(Debug, PartialEq, Eq)]
pub struct WithdrawnFunds {
    /// The native coin to send, in all.
    pub moax_amount: BigUint,
    /// The native coin to send, one transfer for each request that was granted, in the
    /// order of the requests.
    pub moax_transfers: Vec<BigUint>,
    /// The token payments to send in one transfer, in the order of the requests that were
    /// granted.
    pub output_payments: Vec<DctTokenPayment>,
}

/// The amounts in the model.
pub open spec fn amounts_view(amounts: Seq<BigUint>) -> Seq<nat> {
    amounts.map_values(|a: BigUint| a@)
}

impl View for WithdrawnFunds {
    type V = WithdrawnFundsView;

    open spec fn view(&self) -> WithdrawnFundsView {
        WithdrawnFundsView {
            moax_amount: self.moax_amount@,
            moax_transfers: amounts_view(self.moax_transfers@),
            output_payments: payments_view(self.output_payments@),
        }
    }
}

/// The fees ledger: which assets are accepted, who the users are, and what each of them has
/// deposited and not yet withdrawn.
pub struct FeesModule {
    accepted_fees_tokens: Vec<MoaxOrDctTokenIdentifier>,
    user_id: AddressToIdMapper,
    user_deposited_moax: HashMap<AddressId, BigUint>,
    user_deposited_fees: HashMap<AddressId, UniquePayments>,
}

impl View for FeesModule {
    type V = FeesState;

    closed spec fn view(&self) -> FeesState {
        FeesState {
            accepted_fees_tokens: assets_view(self.accepted_fees_tokens@),
            user_id: self.user_id@,
            user_deposited_moax: moax_view(self.user_deposited_moax@),
            user_deposited_fees: fees_view(self.user_deposited_fees@),
        }
    }
}

impl FeesModule {
    /// What holds of every ledger between calls. Every public function that makes or
    /// changes a ledger establishes it, so a caller outside has nothing to do for it.
    pub closed spec fn wf(&self) -> bool {
        &&& assets_view(self.accepted_fees_tokens@).no_duplicates()
        &&& self.user_id@.well_formed()
        &&& forall|id: AddressId| #[trigger]
            self.user_deposited_fees@.contains_key(id) ==> unique_tokens(
                self.user_deposited_fees@[id]@,
            )
    }

    /// The view of a ledger that is well formed is well formed.
    pub proof fn lemma_view_well_formed(&self)
        requires
            self.wf(),
        ensures
            self@.well_formed(),
    {
        assert forall|id: nat| unique_tokens(#[trigger] self@.user_deposited_fees[id]) by {
            if id <= u64::MAX && self.user_deposited_fees@.contains_key(id as AddressId) {
                assert(unique_tokens(self.user_deposited_fees@[id as AddressId]@));
            }
        }
    }

    /// The ledger in which nothing is accepted and nobody holds anything.
    pub fn new() -> (r: FeesModule)
        ensures
            r.wf(),
            r@ == FeesState::empty(),
    {
        let r = FeesModule {
            accepted_fees_tokens: Vec::new(),
            user_id: AddressToIdMapper::new(),
            user_deposited_moax: HashMap::new(),
            user_deposited_fees: HashMap::new(),
        };
        assert(r@.accepted_fees_tokens =~= Seq::<Asset>::empty());
        assert(r@.user_deposited_moax =~= FeesState::empty().user_deposited_moax);
        assert(r@.user_deposited_fees =~= FeesState::empty().user_deposited_fees);
        r
    }

    /// The owner adds assets to the accepted ones. The call is refused as a whole unless the
    /// caller is the owner and every asset is valid. An asset that is accepted already
    /// changes nothing.
    pub fn add_accepted_fees_tokens(
        &mut self,
        caller_is_owner: bool,
        accepted_tokens: Vec<MoaxOrDctTokenIdentifier>,
    ) -> (r: Result<(), Error>)
        requires
            old(self).wf(),
        ensures
            final(self).wf(),
            match old(self)@.add_accepted_fees_tokens(
                caller_is_owner,
                assets_view(accepted_tokens@),
            ) {
                Ok(state) => r is Ok && final(self)@ == state,
                Err(e) => r == Err::<(), Error>(e) && final(self)@ == old(self)@,
            },
    {
        if !caller_is_owner {
            return Err(Error::NotOwner);
        }
        let ghost tokens = assets_view(accepted_tokens@);
        let mut i: usize = 0;
        while i < accepted_tokens.len()
            invariant
                i <= accepted_tokens@.len(),
                tokens == assets_view(accepted_tokens@),
                forall|j: int| 0 <= j < i ==> (#[trigger] tokens[j]).is_valid(),
                *self == *old(self),
                self.wf(),
                caller_is_owner,
            decreases accepted_tokens@.len() - i,
        {
            if !accepted_tokens[i].is_valid() {
                assert(!tokens[i as int].is_valid());
                return Err(Error::InvalidAsset);
            }
            i = i + 1;
        }
        let ghost before = assets_view(self.accepted_fees_tokens@);
        let mut k: usize = 0;
        assert(tokens.take(0) =~= Seq::<Asset>::empty());
        while k < accepted_tokens.len()
            invariant
                k <= accepted_tokens@.len(),
                tokens == assets_view(accepted_tokens@),
                assets_view(self.accepted_fees_tokens@) == insert_tokens(before, tokens.take(k as int)),
                assets_view(self.accepted_fees_tokens@).no_duplicates(),
                self.user_id == old(self).user_id,
                self.user_deposited_moax == old(self).user_deposited_moax,
                self.user_deposited_fees == old(self).user_deposited_fees,
            decreases accepted_tokens@.len() - k,
        {
            let token = accepted_tokens[k].clone();
            proof {
                assert(tokens.take(k + 1).drop_last() =~= tokens.take(k as int));
                assert(tokens.take(k + 1).last() == token@);
            }
            if !contains_token(&self.accepted_fees_tokens, &token) {
                assert(assets_view(self.accepted_fees_tokens@.push(token)) =~= assets_view(
                    self.accepted_fees_tokens@,
                ).push(token@));
                self.accepted_fees_tokens.push(token);
            }
            k = k + 1;
        }
        assert(tokens.take(k as int) =~= tokens);
        Ok(())
    }

    /// Adds the payment to what the user of that number holds: the native coin to its
    /// native balance, a token to its entry in the user's list, which is made where the
    /// user has none.
    pub fn add_user_payment(&mut self, caller_id: AddressId, payment: MoaxOrDctTokenPayment)
        requires
            old(self).wf(),
        ensures
            final(self).wf(),
            final(self)@ == old(self)@.add_user_payment(
                caller_id as nat,
                payment.token_identifier@,
                payment.amount@,
            ),
    {
        let MoaxOrDctTokenPayment { token_identifier, amount } = payment;
        match token_identifier {
            MoaxOrDctTokenIdentifier::Moax => {
                let deposited_moax = match self.user_deposited_moax.get(&caller_id) {
                    Some(held) => held.add(&amount),
                    None => amount,
                };
                self.user_deposited_moax.insert(caller_id, deposited_moax);
                assert(self@.user_deposited_moax =~= old(self)@.user_deposited_moax.insert(
                    caller_id as nat,
                    old(self)@.user_deposited_moax[caller_id as nat] + amount@,
                ));
            },
            MoaxOrDctTokenIdentifier::Dct(token) => {
                let mut user_fees = match self.user_deposited_fees.remove(&caller_id) {
                    Some(fees) => fees,
                    None => UniquePayments::new(),
                };
                let ghost held = user_fees@;
                assert(held == old(self)@.user_deposited_fees[caller_id as nat]);
                assert(unique_tokens(held));
                proof {
                    crate::unique_payments::lemma_add_payment_unique(
                        held,
                        PaymentView { token: token@, amount: amount@ },
                    );
                }
                user_fees.add_payment(DctTokenPayment::new(token, amount));
                self.user_deposited_fees.insert(caller_id, user_fees);
                assert(self@.user_deposited_fees =~= old(self)@.user_deposited_fees.insert(
                    caller_id as nat,
                    add_payment_to(held, PaymentView { token: token@, amount: amount@ }),
                ));
            },
        }
    }

    /// A deposit by `caller`. It is refused where the amount is zero or the asset is not
    /// accepted. Else the caller gets a user number, where it has none, and the amount is
    /// added to what it holds.
    pub fn deposit(
        &mut self,
        caller: &Address,
        payment_token: MoaxOrDctTokenIdentifier,
        payment_amount: BigUint,
    ) -> (r: Result<(), Error>)
        requires
            old(self).wf(),
        ensures
            final(self).wf(),
            match old(self)@.deposit(caller@, payment_token@, payment_amount@) {
                Ok(state) => r is Ok && final(self)@ == state,
                Err(e) => r == Err::<(), Error>(e) && final(self)@ == old(self)@,
            },
    {
        if payment_amount.is_zero() {
            return Err(Error::NoPayment);
        }
        if !contains_token(&self.accepted_fees_tokens, &payment_token) {
            return Err(Error::InvalidPaymentToken);
        }
        let caller_id = self.get_user_id_or_insert(caller);
        self.add_user_payment(caller_id, MoaxOrDctTokenPayment::new(payment_token, payment_amount));
        Ok(())
    }

    /// The user number of the caller; where it had none, it is given the next one.
    pub fn get_user_id_or_insert(&mut self, caller: &Address) -> (r: AddressId)
        requires
            old(self).wf(),
        ensures
            final(self).wf(),
            final(self)@ == old(self)@.register_user(caller@),
            r == final(self)@.user_id.get_id(caller@),
            r != 0,
    {
        self.user_id.get_id_or_insert(caller)
    }

    /// A withdrawal by `caller`, which must have a user number. Each request is granted in
    /// full where the caller holds that much of the asset, and skipped otherwise: for the
    /// native coin by its balance, for a token by the first entry of that token in its list
    /// that holds that much. An entry that is used up leaves the list. Returns what is to
    /// be sent to the caller: the native coin, one transfer for each request that was
    /// granted, and the token payments, in the order of the requests that were granted.
    pub fn withdraw_funds(
        &mut self,
        caller: &Address,
        tokens_to_withdraw: Vec<(MoaxOrDctTokenIdentifier, BigUint)>,
    ) -> (r: Result<WithdrawnFunds, Error>)
        requires
            old(self).wf(),
        ensures
            final(self).wf(),
            match old(self)@.withdraw_funds(caller@, requests_view(tokens_to_withdraw@)) {
                Ok((state, funds)) => r is Ok && final(self)@ == state && r->Ok_0@ == funds,
                Err(e) => r is Err && r->Err_0 == e && final(self)@ == old(self)@,
            },
    {
        let caller_id = match self.user_id.get_id_non_zero(caller) {
            Some(id) => id,
            None => {
                return Err(Error::UnknownUser);
            },
        };
        let ghost requests = requests_view(tokens_to_withdraw@);
        let ghost start = old(self)@.withdrawal_start(caller_id as nat);
        let mut all_user_tokens = match self.user_deposited_fees.remove(&caller_id) {
            Some(fees) => fees.into_payments(),
            None => Vec::new(),
        };
        let mut user_moax = match self.user_deposited_moax.get(&caller_id) {
            Some(held) => held.clone(),
            None => BigUint::zero(),
        };
        let mut moax_amount = BigUint::zero();
        let mut moax_transfers: Vec<BigUint> = Vec::new();
        let mut output_payments: Vec<DctTokenPayment> = Vec::new();
        assert(payments_view(all_user_tokens@) =~= start.tokens);
        assert(payments_view(output_payments@) =~= start.output_payments);
        assert(amounts_view(moax_transfers@) =~= start.moax_transfers);
        assert(requests.take(0) =~= Seq::<(Asset, nat)>::empty());
        let mut n: usize = 0;
        while n < tokens_to_withdraw.len()
            invariant
                n <= tokens_to_withdraw@.len(),
                requests == requests_view(tokens_to_withdraw@),
                unique_tokens(payments_view(all_user_tokens@)),
                withdraw_all(start, requests.take(n as int)) == (Withdrawal {
                    moax: user_moax@,
                    tokens: payments_view(all_user_tokens@),
                    moax_amount: moax_amount@,
                    moax_transfers: amounts_view(moax_transfers@),
                    output_payments: payments_view(output_payments@),
                }),
            decreases tokens_to_withdraw@.len() - n,
        {
            let token_id = &tokens_to_withdraw[n].0;
            let amount = &tokens_to_withdraw[n].1;
            let ghost so_far = withdraw_all(start, requests.take(n as int));
            proof {
                assert(requests.take(n + 1).drop_last() =~= requests.take(n as int));
                assert(requests.take(n + 1).last() == (token_id@, amount@));
            }
            n = n + 1;
            match token_id {
                MoaxOrDctTokenIdentifier::Moax => {
                    if user_moax.ge(amount) {
                        user_moax = user_moax.sub(amount);
                        moax_amount = moax_amount.add(amount);
                        moax_transfers.push(amount.clone());
                        assert(amounts_view(moax_transfers@) =~= so_far.moax_transfers.push(
                            amount@,
                        ));
                    }
                },
                MoaxOrDctTokenIdentifier::Dct(token) => {
                    let ghost held = payments_view(all_user_tokens@);
                    let mut opt_found_token_index: Option<usize> = None;
                    let mut index: usize = 0;
                    while index < all_user_tokens.len()
                        invariant_except_break
                            opt_found_token_index is None,
                            forall|j: int|
                                0 <= j < index ==> !holds_at_least(
                                    #[trigger] held[j],
                                    token@,
                                    amount@,
                                ),
                        invariant
                            index <= all_user_tokens@.len(),
                            held == payments_view(all_user_tokens@),
                        ensures
                            match opt_found_token_index {
                                Some(i) => is_first_holding(held, token@, amount@, i as int),
                                None => forall|j: int|
                                    0 <= j < held.len() ==> !holds_at_least(
                                        #[trigger] held[j],
                                        token@,
                                        amount@,
                                    ),
                            },
                        decreases all_user_tokens@.len() - index,
                    {
                        let user_payment = &all_user_tokens[index];
                        if user_payment.token_identifier.eq(token) && user_payment.amount.ge(
                            amount,
                        ) {
                            opt_found_token_index = Some(index);
                            break ;
                        }
                        index = index + 1;
                    }
                    proof {
                        match opt_found_token_index {
                            Some(i) => lemma_first_holding_is(held, token@, amount@, i as int),
                            None => lemma_first_holding_none(held, token@, amount@),
                        }
                    }
                    match opt_found_token_index {
                        Some(token_index) => {
                            proof {
                                lemma_take_unique(held, token@, amount@);
                            }
                            output_payments.push(DctTokenPayment::new(token.clone(), amount.clone()));
                            assert(payments_view(output_payments@) =~= so_far.output_payments.push(
                                PaymentView { token: token@, amount: amount@ },
                            ));
                            let token_info = &all_user_tokens[token_index];
                            if token_info.amount.eq(amount) {
                                all_user_tokens.remove(token_index);
                            } else {
                                let rest = token_info.amount.sub(amount);
                                all_user_tokens.set(
                                    token_index,
                                    DctTokenPayment::new(token.clone(), rest),
                                );
                            }
                            assert(payments_view(all_user_tokens@) =~= take_from(
                                held,
                                token@,
                                amount@,
                            ));
                        },
                        None => {},
                    }
                },
            }
        }
        assert(requests.take(n as int) =~= requests);
        self.user_deposited_moax.insert(caller_id, user_moax);
        self.user_deposited_fees.insert(
            caller_id,
            UniquePayments::new_from_unique_payments(all_user_tokens),
        );
        proof {
            let w = withdraw_all(start, requests);
            assert(self@.user_deposited_moax =~= old(self)@.user_deposited_moax.insert(
                caller_id as nat,
                w.moax,
            ));
            assert(self@.user_deposited_fees =~= old(self)@.user_deposited_fees.insert(
                caller_id as nat,
                w.tokens,
            ));
        }
        Ok(WithdrawnFunds { moax_amount, moax_transfers, output_payments })
    }

    /// The accepted assets, in the order in which they were added.
    pub fn accepted_fees_tokens(&self) -> (r: &Vec<MoaxOrDctTokenIdentifier>)
        ensures
            assets_view(r@) == self@.accepted_fees_tokens,
    {
        &self.accepted_fees_tokens
    }

    /// The table of the users' numbers.
    pub fn user_id(&self) -> (r: &AddressToIdMapper)
        ensures
            r@ == self@.user_id,
    {
        &self.user_id
    }

    /// The tokens that the user of that number holds.
    pub fn user_deposited_fees(&self, user_id: AddressId) -> (r: UniquePayments)
        ensures
            r@ == self@.user_deposited_fees[user_id as nat],
    {
        match self.user_deposited_fees.get(&user_id) {
            Some(fees) => fees.clone(),
            None => UniquePayments::new(),
        }
    }

    /// The native coin that the user of that number holds.
    pub fn user_deposited_moax(&self, user_id: AddressId) -> (r: BigUint)
        ensures
            r@ == self@.user_deposited_moax[user_id as nat],
    {
        match self.user_deposited_moax.get(&user_id) {
            Some(held) => held.clone(),
            None => BigUint::zero(),
        }
    }
}

} // verus!
