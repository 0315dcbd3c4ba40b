//! What holds of the fees ledger over any sequence of calls.

use crate::errors::Error;
use crate::fees::{insert_token, insert_tokens, withdraw_all, withdraw_one, FeesState, Withdrawal};
use crate::token::{Asset, PaymentView};
use crate::unique_payments::{
    amount_of, can_take, first_holding, holds_at_least, is_first_holding, lemma_first_holding_is,
    lemma_first_holding_none, lemma_first_holding_some, lemma_take_unique, lemma_total_push,
    lemma_total_remove, lemma_total_update, take_from, total_amount, unique_tokens,
};
use vstd::prelude::*;

verus! {

/// All that a withdrawal holds: what the user keeps and what goes out.
pub open spec fn withdrawal_total(w: Withdrawal) -> nat {
    w.moax + total_amount(w.tokens) + w.moax_amount + total_amount(w.output_payments)
}

/// What the user holds of the asset while its withdrawal runs.
pub open spec fn withdrawal_held(w: Withdrawal, asset: Asset) -> nat {
    match asset {
        Asset::Moax => w.moax,
        Asset::Dct(token) => amount_of(w.tokens, token),
    }
}

/// Taking an amount from a list lowers its sum by that amount, where the amount can be
/// taken, and leaves the list as it is otherwise.
pub proof fn law_take_lowers_total(payments: Seq<PaymentView>, token: Seq<u8>, amount: nat)
    ensures
        can_take(payments, token, amount) ==> total_amount(take_from(payments, token, amount))
            + amount == total_amount(payments),
        !can_take(payments, token, amount) ==> take_from(payments, token, amount) == payments,
{
    if can_take(payments, token, amount) {
        lemma_first_holding_some(payments, token, amount);
        let i = first_holding(payments, token, amount)->Some_0;
        if payments[i].amount == amount {
            lemma_total_remove(payments, i);
        } else {
            lemma_total_update(
                payments,
                i,
                PaymentView { token, amount: (payments[i].amount - amount) as nat },
            );
        }
    }
}

/// One request of a withdrawal moves value from what the user holds to what goes out, and
/// neither makes nor loses any.
pub proof fn law_withdraw_one_conserves(w: Withdrawal, asset: Asset, amount: nat)
    ensures
        withdrawal_total(withdraw_one(w, asset, amount)) == withdrawal_total(w),
{
    match asset {
        Asset::Moax => {},
        Asset::Dct(token) => {
            law_take_lowers_total(w.tokens, token, amount);
            lemma_total_push(w.output_payments, PaymentView { token, amount });
        },
    }
}

/// The requests of a withdrawal move value from what the user holds to what goes out, and
/// neither make nor lose any.
pub proof fn law_withdraw_all_conserves(w: Withdrawal, requests: Seq<(Asset, nat)>)
    ensures
        withdrawal_total(withdraw_all(w, requests)) == withdrawal_total(w),
    decreases requests.len(),
{
    if requests.len() > 0 {
        law_withdraw_all_conserves(w, requests.drop_last());
        law_withdraw_one_conserves(
            withdraw_all(w, requests.drop_last()),
            requests.last().0,
            requests.last().1,
        );
    }
}

/// The requests of a withdrawal keep the tokens of the user's list distinct.
pub proof fn law_withdraw_all_keeps_unique(w: Withdrawal, requests: Seq<(Asset, nat)>)
    requires
        unique_tokens(w.tokens),
    ensures
        unique_tokens(withdraw_all(w, requests).tokens),
    decreases requests.len(),
{
    if requests.len() > 0 {
        law_withdraw_all_keeps_unique(w, requests.drop_last());
        let so_far = withdraw_all(w, requests.drop_last());
        match requests.last().0 {
            Asset::Moax => {},
            Asset::Dct(token) => {
                lemma_take_unique(so_far.tokens, token, requests.last().1);
            },
        }
    }
}

/// A deposit that is accepted raises what the caller holds by the amount deposited, and
/// leaves every other user's holdings as they are.
pub proof fn law_deposit_adds(state: FeesState, caller: Seq<u8>, asset: Asset, amount: nat)
    requires
        state.deposit(caller, asset, amount) is Ok,
    ensures
        ({
            let after = state.deposit(caller, asset, amount)->Ok_0;
            let id = after.user_id.get_id(caller);
            &&& after.total_balance(id) == state.total_balance(id) + amount
            &&& after.balance(id, asset) == state.balance(id, asset) + amount
            &&& forall|other: nat| other != id ==> after.total_balance(other) == state.total_balance(other)
        }),
{
    let after = state.deposit(caller, asset, amount)->Ok_0;
    let id = after.user_id.get_id(caller);
    match asset {
        Asset::Moax => {},
        Asset::Dct(token) => {
            let held = state.user_deposited_fees[id];
            let payment = PaymentView { token, amount };
            law_add_payment_adds(held, payment);
        },
    }
}

/// Adding a payment to a list raises its sum, and what it holds of the token, by the
/// amount of the payment.
pub proof fn law_add_payment_adds(payments: Seq<PaymentView>, payment: PaymentView)
    ensures
        total_amount(crate::unique_payments::add_payment_to(payments, payment)) == total_amount(
            payments,
        ) + payment.amount,
        amount_of(crate::unique_payments::add_payment_to(payments, payment), payment.token)
            == amount_of(payments, payment.token) + payment.amount,
{
    let after = crate::unique_payments::add_payment_to(payments, payment);
    match first_holding(payments, payment.token, 0) {
        Some(i) => {
            lemma_first_holding_some(payments, payment.token, 0);
            lemma_total_update(
                payments,
                i,
                PaymentView { token: payment.token, amount: payments[i].amount + payment.amount },
            );
            assert(is_first_holding(after, payment.token, 0, i)) by {
                assert forall|j: int| 0 <= j < i implies !holds_at_least(
                    #[trigger] after[j],
                    payment.token,
                    0,
                ) by {
                    assert(after[j] == payments[j]);
                }
            }
            lemma_first_holding_is(after, payment.token, 0, i);
        },
        None => {
            lemma_total_push(payments, payment);
            crate::unique_payments::lemma_first_holding_none_means(payments, payment.token, 0);
            let last = payments.len() as int;
            assert(is_first_holding(after, payment.token, 0, last)) by {
                assert forall|j: int| 0 <= j < last implies !holds_at_least(
                    #[trigger] after[j],
                    payment.token,
                    0,
                ) by {
                    assert(after[j] == payments[j]);
                }
            }
            lemma_first_holding_is(after, payment.token, 0, last);
        },
    }
}

/// A withdrawal that is carried out lowers what the caller holds by exactly what goes out:
/// the native coin and the token payments that are returned, not what was asked for. Every
/// other user's holdings stay as they are.
pub proof fn law_withdraw_pays_out(state: FeesState, caller: Seq<u8>, requests: Seq<(Asset, nat)>)
    requires
        state.withdraw_funds(caller, requests) is Ok,
    ensures
        ({
            let (after, funds) = state.withdraw_funds(caller, requests)->Ok_0;
            let id = state.user_id.get_id(caller);
            &&& after.user_id == state.user_id
            &&& after.total_balance(id) + funds.moax_amount + total_amount(funds.output_payments)
                == state.total_balance(id)
            &&& funds.moax_amount == sum_of(funds.moax_transfers)
            &&& forall|other: nat| other != id ==> after.total_balance(other) == state.total_balance(other)
        }),
{
    let id = state.user_id.get_id(caller);
    law_withdraw_all_conserves(state.withdrawal_start(id), requests);
    law_moax_amount_is_sum_of_transfers(state.withdrawal_start(id), requests);
    assert(total_amount(Seq::<PaymentView>::empty()) == 0);
}

/// The sum of the amounts.
pub open spec fn sum_of(amounts: Seq<nat>) -> nat
    decreases amounts.len(),
{
    if amounts.len() == 0 {
        0
    } else {
        sum_of(amounts.drop_last()) + amounts.last()
    }
}

/// The native coin that a withdrawal sends in all is the sum of its single transfers.
pub proof fn law_moax_amount_is_sum_of_transfers(w: Withdrawal, requests: Seq<(Asset, nat)>)
    requires
        w.moax_amount == sum_of(w.moax_transfers),
    ensures
        withdraw_all(w, requests).moax_amount == sum_of(withdraw_all(w, requests).moax_transfers),
    decreases requests.len(),
{
    if requests.len() > 0 {
        law_moax_amount_is_sum_of_transfers(w, requests.drop_last());
        let so_far = withdraw_all(w, requests.drop_last());
        let amount = requests.last().1;
        assert(so_far.moax_transfers.push(amount).drop_last() =~= so_far.moax_transfers);
    }
}

/// A call of a user to the ledger.
pub enum LedgerCall {
    Deposit { asset: Asset, amount: nat },
    Withdraw { requests: Seq<(Asset, nat)> },
}

/// The ledger after the call of `caller`. A call that is refused leaves it as it is.
pub open spec fn after_call(state: FeesState, caller: Seq<u8>, call: LedgerCall) -> FeesState {
    match call {
        LedgerCall::Deposit { asset, amount } => match state.deposit(caller, asset, amount) {
            Ok(after) => after,
            Err(_) => state,
        },
        LedgerCall::Withdraw { requests } => match state.withdraw_funds(caller, requests) {
            Ok((after, _)) => after,
            Err(_) => state,
        },
    }
}

/// What the call brings in: the amount of a deposit that is accepted.
pub open spec fn paid_in(state: FeesState, caller: Seq<u8>, call: LedgerCall) -> nat {
    match call {
        LedgerCall::Deposit { asset, amount } => if state.deposit(caller, asset, amount) is Ok {
            amount
        } else {
            0
        },
        LedgerCall::Withdraw { requests } => 0,
    }
}

/// What the call sends out: the native coin and the tokens that a withdrawal transfers.
pub open spec fn paid_out(state: FeesState, caller: Seq<u8>, call: LedgerCall) -> nat {
    match call {
        LedgerCall::Deposit { asset, amount } => 0,
        LedgerCall::Withdraw { requests } => match state.withdraw_funds(caller, requests) {
            Ok((_, funds)) => funds.moax_amount + total_amount(funds.output_payments),
            Err(_) => 0,
        },
    }
}

/// The ledger after the calls of `caller`, one after the other.
pub open spec fn after_calls(state: FeesState, caller: Seq<u8>, calls: Seq<LedgerCall>) -> FeesState
    decreases calls.len(),
{
    if calls.len() == 0 {
        state
    } else {
        after_call(after_calls(state, caller, calls.drop_last()), caller, calls.last())
    }
}

/// All that the calls bring in.
pub open spec fn total_paid_in(state: FeesState, caller: Seq<u8>, calls: Seq<LedgerCall>) -> nat
    decreases calls.len(),
{
    if calls.len() == 0 {
        0
    } else {
        total_paid_in(state, caller, calls.drop_last()) + paid_in(
            after_calls(state, caller, calls.drop_last()),
            caller,
            calls.last(),
        )
    }
}

/// All that the calls send out.
pub open spec fn total_paid_out(state: FeesState, caller: Seq<u8>, calls: Seq<LedgerCall>) -> nat
    decreases calls.len(),
{
    if calls.len() == 0 {
        0
    } else {
        total_paid_out(state, caller, calls.drop_last()) + paid_out(
            after_calls(state, caller, calls.drop_last()),
            caller,
            calls.last(),
        )
    }
}

/// Over any sequence of deposits and withdrawals of one user, what the user holds at the
/// end is what it held at the start, plus what its deposits brought in, minus what its
/// withdrawals sent out. While the user has no number, its calls change nothing.
pub proof fn law_conservation(state: FeesState, caller: Seq<u8>, calls: Seq<LedgerCall>)
    ensures
        ({
            let after = after_calls(state, caller, calls);
            let id = after.user_id.get_id(caller);
            &&& id == 0 ==> after == state && total_paid_in(state, caller, calls) == 0
                && total_paid_out(state, caller, calls) == 0
            &&& after.total_balance(id) + total_paid_out(state, caller, calls)
                == state.total_balance(id) + total_paid_in(state, caller, calls)
            &&& state.user_id.get_id(caller) != 0 ==> id == state.user_id.get_id(caller)
        }),
    decreases calls.len(),
{
    if calls.len() > 0 {
        let earlier = calls.drop_last();
        law_conservation(state, caller, earlier);
        let before = after_calls(state, caller, earlier);
        let after = after_calls(state, caller, calls);
        let id_before = before.user_id.get_id(caller);
        let id = after.user_id.get_id(caller);
        match calls.last() {
            LedgerCall::Deposit { asset, amount } => {
                if before.deposit(caller, asset, amount) is Ok {
                    law_deposit_adds(before, caller, asset, amount);
                    if id_before == 0 {
                        assert(before == state);
                    }
                }
            },
            LedgerCall::Withdraw { requests } => {
                if before.withdraw_funds(caller, requests) is Ok {
                    law_withdraw_pays_out(before, caller, requests);
                }
            },
        }
    }
}

/// Adding an asset that is accepted already changes nothing.
pub proof fn law_insert_token_idempotent(accepted: Seq<Asset>, token: Asset)
    ensures
        insert_token(insert_token(accepted, token), token) == insert_token(accepted, token),
        insert_token(accepted, token).contains(token),
        accepted.no_duplicates() ==> insert_token(accepted, token).no_duplicates(),
{
    let once = insert_token(accepted, token);
    if !accepted.contains(token) {
        assert(once[accepted.len() as int] == token);
    }
}

/// Adding assets keeps each accepted asset in the set once.
pub proof fn law_insert_tokens_no_duplicates(accepted: Seq<Asset>, tokens: Seq<Asset>)
    requires
        accepted.no_duplicates(),
    ensures
        insert_tokens(accepted, tokens).no_duplicates(),
    decreases tokens.len(),
{
    if tokens.len() > 0 {
        law_insert_tokens_no_duplicates(accepted, tokens.drop_last());
        law_insert_token_idempotent(insert_tokens(accepted, tokens.drop_last()), tokens.last());
    }
}

/// Registering the same accepted asset twice leaves the set of accepted assets as the first
/// registration left it, in content and in size.
pub proof fn law_accepted_asset_twice(state: FeesState, token: Asset)
    requires
        token.is_valid(),
    ensures
        state.add_accepted_fees_tokens(true, seq![token]) is Ok,
        ({
            let once = state.add_accepted_fees_tokens(true, seq![token])->Ok_0;
            &&& once.add_accepted_fees_tokens(true, seq![token]) == Ok::<FeesState, Error>(once)
            &&& once.accepted_fees_tokens.contains(token)
        }),
{
    let tokens = seq![token];
    assert(tokens.drop_last() =~= Seq::<Asset>::empty());
    assert(tokens.last() == token);
    assert(insert_tokens(state.accepted_fees_tokens, tokens) == insert_token(
        state.accepted_fees_tokens,
        token,
    )) by {
        assert(insert_tokens(state.accepted_fees_tokens, tokens.drop_last())
            == state.accepted_fees_tokens);
    }
    let once = state.add_accepted_fees_tokens(true, tokens)->Ok_0;
    law_insert_token_idempotent(state.accepted_fees_tokens, token);
    assert(insert_tokens(once.accepted_fees_tokens, tokens) == insert_token(
        once.accepted_fees_tokens,
        token,
    )) by {
        assert(insert_tokens(once.accepted_fees_tokens, tokens.drop_last())
            == once.accepted_fees_tokens);
    }
}

/// Where the tokens of a list are distinct, the entry of a token is the only one that a
/// withdrawal of that token looks at.
pub proof fn lemma_unique_entry(payments: Seq<PaymentView>, i: int, amount: nat)
    requires
        unique_tokens(payments),
        0 <= i < payments.len(),
    ensures
        amount_of(payments, payments[i].token) == payments[i].amount,
        payments[i].amount >= amount ==> first_holding(payments, payments[i].token, amount)
            == Some(i),
        payments[i].amount < amount ==> first_holding(payments, payments[i].token, amount) is None,
{
    let token = payments[i].token;
    assert forall|j: int| 0 <= j < payments.len() && j != i implies (
    #[trigger] payments[j]).token != token by {
        if j < i {
            assert(payments[j].token != payments[i].token);
        } else {
            assert(payments[i].token != payments[j].token);
        }
    }
    assert(is_first_holding(payments, token, 0, i));
    lemma_first_holding_is(payments, token, 0, i);
    if payments[i].amount >= amount {
        assert(is_first_holding(payments, token, amount, i));
        lemma_first_holding_is(payments, token, amount, i);
    } else {
        lemma_first_holding_none(payments, token, amount);
    }
}

/// A request for more than the user holds of the asset is skipped: the withdrawal stays
/// where it was, so what the user holds of that asset is not altered and nothing goes out.
pub proof fn law_withdraw_skips(w: Withdrawal, asset: Asset, amount: nat)
    requires
        unique_tokens(w.tokens),
        amount > withdrawal_held(w, asset),
    ensures
        withdraw_one(w, asset, amount) == w,
{
    match asset {
        Asset::Moax => {},
        Asset::Dct(token) => {
            if can_take(w.tokens, token, amount) {
                lemma_first_holding_some(w.tokens, token, amount);
                let i = first_holding(w.tokens, token, amount)->Some_0;
                lemma_unique_entry(w.tokens, i, amount);
            }
        },
    }
}

/// The requests of a withdrawal can be carried out in two parts.
pub proof fn lemma_withdraw_all_split(
    w: Withdrawal,
    first: Seq<(Asset, nat)>,
    second: Seq<(Asset, nat)>,
)
    ensures
        withdraw_all(w, first + second) == withdraw_all(withdraw_all(w, first), second),
    decreases second.len(),
{
    if second.len() == 0 {
        assert(first + second =~= first);
    } else {
        assert((first + second).drop_last() =~= first + second.drop_last());
        assert((first + second).last() == second.last());
        lemma_withdraw_all_split(w, first, second.drop_last());
    }
}

/// A request for more than the user holds at that point does not stop the batch: the
/// requests before it and after it are carried out as if it were not there.
pub proof fn law_skipped_request_leaves_batch(
    w: Withdrawal,
    before: Seq<(Asset, nat)>,
    asset: Asset,
    amount: nat,
    after: Seq<(Asset, nat)>,
)
    requires
        unique_tokens(w.tokens),
        amount > withdrawal_held(withdraw_all(w, before), asset),
    ensures
        withdraw_all(w, before.push((asset, amount)) + after) == withdraw_all(w, before + after),
{
    let reached = withdraw_all(w, before);
    law_withdraw_all_keeps_unique(w, before);
    law_withdraw_skips(reached, asset, amount);
    assert(before.push((asset, amount)).drop_last() =~= before);
    assert(withdraw_all(w, before.push((asset, amount))) == reached);
    lemma_withdraw_all_split(w, before.push((asset, amount)), after);
    lemma_withdraw_all_split(w, before, after);
}

/// A withdrawal of exactly what an entry holds removes the entry, so the list gets shorter
/// by one and holds nothing of the token. A withdrawal of less lowers the entry in place,
/// and the list keeps its length.
pub proof fn law_exact_withdrawal_removes_entry(
    w: Withdrawal,
    i: int,
    amount: nat,
)
    requires
        unique_tokens(w.tokens),
        0 <= i < w.tokens.len(),
        amount <= w.tokens[i].amount,
    ensures
        ({
            let token = w.tokens[i].token;
            let after = withdraw_one(w, Asset::Dct(token), amount);
            &&& after.output_payments == w.output_payments.push(PaymentView { token, amount })
            &&& after.moax == w.moax && after.moax_amount == w.moax_amount
            &&& amount == w.tokens[i].amount ==> after.tokens == w.tokens.remove(i)
                && after.tokens.len() == w.tokens.len() - 1 && amount_of(after.tokens, token) == 0
            &&& amount < w.tokens[i].amount ==> after.tokens == w.tokens.update(
                i,
                PaymentView { token, amount: (w.tokens[i].amount - amount) as nat },
            ) && after.tokens.len() == w.tokens.len() && amount_of(after.tokens, token)
                == w.tokens[i].amount - amount
        }),
{
    let token = w.tokens[i].token;
    let after = withdraw_one(w, Asset::Dct(token), amount);
    lemma_unique_entry(w.tokens, i, amount);
    lemma_take_unique(w.tokens, token, amount);
    if amount == w.tokens[i].amount {
        let rest = w.tokens.remove(i);
        assert forall|j: int| 0 <= j < rest.len() implies !holds_at_least(
            #[trigger] rest[j],
            token,
            0,
        ) by {
            let j0 = if j < i { j } else { j + 1 };
            assert(rest[j] == w.tokens[j0]);
            if j0 < i {
                assert(w.tokens[j0].token != w.tokens[i].token);
            } else {
                assert(w.tokens[i].token != w.tokens[j0].token);
            }
        }
        lemma_first_holding_none(rest, token, 0);
    } else {
        lemma_unique_entry(after.tokens, i, 0);
    }
}

/// Whether every token that a user holds is among the accepted assets.
pub open spec fn holds_only_accepted(state: FeesState) -> bool {
    forall|id: nat, i: int|
        0 <= i < state.user_deposited_fees[id].len() ==> state.accepted_fees_tokens.contains(
            Asset::Dct((#[trigger] state.user_deposited_fees[id][i]).token),
        )
}

/// Adding assets takes none of the accepted ones away.
pub proof fn lemma_insert_tokens_keeps(accepted: Seq<Asset>, tokens: Seq<Asset>, asset: Asset)
    requires
        accepted.contains(asset),
    ensures
        insert_tokens(accepted, tokens).contains(asset),
    decreases tokens.len(),
{
    if tokens.len() > 0 {
        lemma_insert_tokens_keeps(accepted, tokens.drop_last(), asset);
        let so_far = insert_tokens(accepted, tokens.drop_last());
        let k = choose|k: int| 0 <= k < so_far.len() && so_far[k] == asset;
        assert(insert_token(so_far, tokens.last())[k] == asset);
    }
}

/// Every token of a list from which amounts were taken is a token of the list before.
pub proof fn lemma_take_keeps_tokens(payments: Seq<PaymentView>, token: Seq<u8>, amount: nat, i: int)
    requires
        0 <= i < take_from(payments, token, amount).len(),
    ensures
        exists|j: int|
            0 <= j < payments.len() && (#[trigger] payments[j]).token == take_from(
                payments,
                token,
                amount,
            )[i].token,
{
    let after = take_from(payments, token, amount);
    match first_holding(payments, token, amount) {
        Some(k) => {
            lemma_first_holding_some(payments, token, amount);
            if payments[k].amount == amount {
                let j = if i < k { i } else { i + 1 };
                assert(payments[j].token == after[i].token);
            } else {
                assert(payments[i].token == after[i].token);
            }
        },
        None => {
            assert(payments[i].token == after[i].token);
        },
    }
}

/// Every token that the user holds after the requests of a withdrawal is one that it held
/// before.
pub proof fn lemma_withdraw_all_keeps_tokens(w: Withdrawal, requests: Seq<(Asset, nat)>, i: int)
    requires
        0 <= i < withdraw_all(w, requests).tokens.len(),
    ensures
        exists|j: int|
            0 <= j < w.tokens.len() && (#[trigger] w.tokens[j]).token == withdraw_all(
                w,
                requests,
            ).tokens[i].token,
    decreases requests.len(),
{
    if requests.len() == 0 {
        assert(w.tokens[i].token == withdraw_all(w, requests).tokens[i].token);
    } else {
        let so_far = withdraw_all(w, requests.drop_last());
        let after = withdraw_all(w, requests);
        match requests.last().0 {
            Asset::Moax => {
                lemma_withdraw_all_keeps_tokens(w, requests.drop_last(), i);
            },
            Asset::Dct(token) => {
                if can_take(so_far.tokens, token, requests.last().1) {
                    lemma_take_keeps_tokens(so_far.tokens, token, requests.last().1, i);
                    let k = choose|k: int|
                        0 <= k < so_far.tokens.len() && (#[trigger] so_far.tokens[k]).token
                            == after.tokens[i].token;
                    lemma_withdraw_all_keeps_tokens(w, requests.drop_last(), k);
                } else {
                    lemma_withdraw_all_keeps_tokens(w, requests.drop_last(), i);
                }
            },
        }
    }
}

/// The owner's additions keep the ledger well formed and take no accepted asset away, so
/// that every token that a user holds stays an accepted one.
pub proof fn law_add_accepted_keeps_invariants(state: FeesState, tokens: Seq<Asset>)
    requires
        state.well_formed(),
        state.add_accepted_fees_tokens(true, tokens) is Ok,
    ensures
        state.add_accepted_fees_tokens(true, tokens)->Ok_0.well_formed(),
        forall|asset: Asset|
            state.accepted_fees_tokens.contains(asset) ==> state.add_accepted_fees_tokens(
                true,
                tokens,
            )->Ok_0.accepted_fees_tokens.contains(asset),
        holds_only_accepted(state) ==> holds_only_accepted(
            state.add_accepted_fees_tokens(true, tokens)->Ok_0,
        ),
{
    let after = state.add_accepted_fees_tokens(true, tokens)->Ok_0;
    law_insert_tokens_no_duplicates(state.accepted_fees_tokens, tokens);
    assert forall|asset: Asset|
        state.accepted_fees_tokens.contains(asset) implies after.accepted_fees_tokens.contains(
        asset,
    ) by {
        lemma_insert_tokens_keeps(state.accepted_fees_tokens, tokens, asset);
    }
    if holds_only_accepted(state) {
        assert forall|id: nat, i: int|
            0 <= i < after.user_deposited_fees[id].len() implies after.accepted_fees_tokens.contains(
            Asset::Dct((#[trigger] after.user_deposited_fees[id][i]).token),
        ) by {
            assert(state.accepted_fees_tokens.contains(
                Asset::Dct(state.user_deposited_fees[id][i].token),
            ));
        }
    }
}

/// A deposit keeps the ledger well formed, and every token that a user holds an accepted
/// one.
pub proof fn law_deposit_keeps_invariants(
    state: FeesState,
    caller: Seq<u8>,
    asset: Asset,
    amount: nat,
)
    requires
        state.well_formed(),
        state.deposit(caller, asset, amount) is Ok,
    ensures
        state.deposit(caller, asset, amount)->Ok_0.well_formed(),
        state.deposit(caller, asset, amount)->Ok_0.user_id.get_id(caller) != 0,
        holds_only_accepted(state) ==> holds_only_accepted(
            state.deposit(caller, asset, amount)->Ok_0,
        ),
{
    let after = state.deposit(caller, asset, amount)->Ok_0;
    let id = after.user_id.get_id(caller);
    if state.user_id.get_id(caller) == 0 {
        crate::address_to_id_mapper::lemma_insert_address_well_formed(state.user_id, caller);
    }
    match asset {
        Asset::Moax => {
            assert forall|other: nat| unique_tokens(#[trigger] after.user_deposited_fees[other]) by {
                assert(after.user_deposited_fees[other] == state.user_deposited_fees[other]);
            }
            if holds_only_accepted(state) {
                assert forall|other: nat, i: int|
                    0 <= i < after.user_deposited_fees[other].len() implies after.accepted_fees_tokens.contains(
                    Asset::Dct((#[trigger] after.user_deposited_fees[other][i]).token),
                ) by {
                    assert(state.accepted_fees_tokens.contains(
                        Asset::Dct(state.user_deposited_fees[other][i].token),
                    ));
                }
            }
        },
        Asset::Dct(token) => {
            let held = state.user_deposited_fees[id];
            let payment = PaymentView { token, amount };
            crate::unique_payments::lemma_add_payment_unique(held, payment);
            assert forall|other: nat| unique_tokens(#[trigger] after.user_deposited_fees[other]) by {
                if other != id {
                    assert(after.user_deposited_fees[other] == state.user_deposited_fees[other]);
                }
            }
            if holds_only_accepted(state) {
                assert forall|other: nat, i: int|
                    0 <= i < after.user_deposited_fees[other].len() implies after.accepted_fees_tokens.contains(
                    Asset::Dct((#[trigger] after.user_deposited_fees[other][i]).token),
                ) by {
                    if other != id {
                        assert(state.accepted_fees_tokens.contains(
                            Asset::Dct(state.user_deposited_fees[other][i].token),
                        ));
                    } else {
                        if i < held.len() {
                            assert(after.user_deposited_fees[id][i].token == held[i].token);
                            assert(state.accepted_fees_tokens.contains(Asset::Dct(held[i].token)));
                        }
                    }
                }
            }
        },
    }
}

/// A withdrawal keeps the ledger well formed, and every token that a user holds an
/// accepted one.
pub proof fn law_withdraw_keeps_invariants(
    state: FeesState,
    caller: Seq<u8>,
    requests: Seq<(Asset, nat)>,
)
    requires
        state.well_formed(),
        state.withdraw_funds(caller, requests) is Ok,
    ensures
        state.withdraw_funds(caller, requests)->Ok_0.0.well_formed(),
        holds_only_accepted(state) ==> holds_only_accepted(
            state.withdraw_funds(caller, requests)->Ok_0.0,
        ),
{
    let after = state.withdraw_funds(caller, requests)->Ok_0.0;
    let id = state.user_id.get_id(caller);
    let start = state.withdrawal_start(id);
    law_withdraw_all_keeps_unique(start, requests);
    assert forall|other: nat| unique_tokens(#[trigger] after.user_deposited_fees[other]) by {
        if other != id {
            assert(after.user_deposited_fees[other] == state.user_deposited_fees[other]);
        }
    }
    if holds_only_accepted(state) {
        assert forall|other: nat, i: int|
            0 <= i < after.user_deposited_fees[other].len() implies after.accepted_fees_tokens.contains(
            Asset::Dct((#[trigger] after.user_deposited_fees[other][i]).token),
        ) by {
            if other != id {
                assert(state.accepted_fees_tokens.contains(
                    Asset::Dct(state.user_deposited_fees[other][i].token),
                ));
            } else {
                lemma_withdraw_all_keeps_tokens(start, requests, i);
                let j = choose|j: int|
                    0 <= j < start.tokens.len() && (#[trigger] start.tokens[j]).token
                        == withdraw_all(start, requests).tokens[i].token;
                assert(state.accepted_fees_tokens.contains(
                    Asset::Dct(state.user_deposited_fees[id][j].token),
                ));
            }
        }
    }
}

/// What the payments hold of the token, all of them added up.
pub open spec fn paid_of(payments: Seq<PaymentView>, token: Seq<u8>) -> nat
    decreases payments.len(),
{
    if payments.len() == 0 {
        0
    } else {
        paid_of(payments.drop_last(), token) + if payments.last().token == token {
            payments.last().amount
        } else {
            0
        }
    }
}

/// What a withdrawal sends of the asset.
pub open spec fn sent_of(w: Withdrawal, asset: Asset) -> nat {
    match asset {
        Asset::Moax => w.moax_amount,
        Asset::Dct(token) => paid_of(w.output_payments, token),
    }
}

/// A list in which no entry is of the token holds nothing of it.
pub proof fn lemma_amount_of_absent(payments: Seq<PaymentView>, token: Seq<u8>)
    requires
        forall|j: int| 0 <= j < payments.len() ==> (#[trigger] payments[j]).token != token,
    ensures
        amount_of(payments, token) == 0,
{
    lemma_first_holding_none(payments, token, 0);
}

/// Taking an amount of a token from a list in which the tokens are distinct lowers what the
/// list holds of that token by the amount, where the amount can be taken, and leaves what
/// it holds of every other token as it is.
pub proof fn law_take_per_token(payments: Seq<PaymentView>, token: Seq<u8>, amount: nat, other: Seq<u8>)
    requires
        unique_tokens(payments),
    ensures
        other != token ==> amount_of(take_from(payments, token, amount), other) == amount_of(
            payments,
            other,
        ),
        can_take(payments, token, amount) ==> amount_of(take_from(payments, token, amount), token)
            + amount == amount_of(payments, token),
{
    let after = take_from(payments, token, amount);
    lemma_take_unique(payments, token, amount);
    if can_take(payments, token, amount) {
        lemma_first_holding_some(payments, token, amount);
        let k = first_holding(payments, token, amount)->Some_0;
        lemma_unique_entry(payments, k, 0);
        if payments[k].amount == amount {
            assert forall|j: int| 0 <= j < after.len() implies (#[trigger] after[j]).token
                != token by {
                let j0 = if j < k { j } else { j + 1 };
                assert(after[j] == payments[j0]);
                if j0 < k {
                    assert(payments[j0].token != payments[k].token);
                } else {
                    assert(payments[k].token != payments[j0].token);
                }
            }
            lemma_amount_of_absent(after, token);
        } else {
            lemma_unique_entry(after, k, 0);
        }
        if other != token {
            if exists|i: int| 0 <= i < payments.len() && (#[trigger] payments[i]).token == other {
                let i = choose|i: int| 0 <= i < payments.len() && (#[trigger] payments[i]).token == other;
                lemma_unique_entry(payments, i, 0);
                if payments[k].amount == amount {
                    let i1 = if i < k { i } else { i - 1 };
                    assert(after[i1] == payments[i]);
                    lemma_unique_entry(after, i1, 0);
                } else {
                    assert(after[i] == payments[i]);
                    lemma_unique_entry(after, i, 0);
                }
            } else {
                lemma_amount_of_absent(payments, other);
                assert forall|j: int| 0 <= j < after.len() implies (#[trigger] after[j]).token
                    != other by {
                    if payments[k].amount == amount {
                        let j0 = if j < k { j } else { j + 1 };
                        assert(after[j] == payments[j0]);
                    } else {
                        assert(after[j].token == payments[j].token);
                    }
                }
                lemma_amount_of_absent(after, other);
            }
        }
    }
}

/// One request of a withdrawal moves what it grants of an asset from what the user holds of
/// that asset to what is sent of it, and touches no other asset.
pub proof fn law_withdraw_one_per_asset(w: Withdrawal, request: Asset, amount: nat, asset: Asset)
    requires
        unique_tokens(w.tokens),
    ensures
        withdrawal_held(withdraw_one(w, request, amount), asset) + sent_of(
            withdraw_one(w, request, amount),
            asset,
        ) == withdrawal_held(w, asset) + sent_of(w, asset),
{
    match request {
        Asset::Moax => {},
        Asset::Dct(token) => {
            if can_take(w.tokens, token, amount) {
                let payment = PaymentView { token, amount };
                assert(w.output_payments.push(payment).drop_last() =~= w.output_payments);
                match asset {
                    Asset::Moax => {},
                    Asset::Dct(other) => {
                        law_take_per_token(w.tokens, token, amount, other);
                    },
                }
            }
        },
    }
}

/// Over the requests of a withdrawal, what the user holds of each asset and what is sent of
/// it add up to what the user held of it before.
pub proof fn law_withdraw_all_per_asset(w: Withdrawal, requests: Seq<(Asset, nat)>, asset: Asset)
    requires
        unique_tokens(w.tokens),
    ensures
        withdrawal_held(withdraw_all(w, requests), asset) + sent_of(
            withdraw_all(w, requests),
            asset,
        ) == withdrawal_held(w, asset) + sent_of(w, asset),
    decreases requests.len(),
{
    if requests.len() > 0 {
        law_withdraw_all_per_asset(w, requests.drop_last(), asset);
        law_withdraw_all_keeps_unique(w, requests.drop_last());
        law_withdraw_one_per_asset(
            withdraw_all(w, requests.drop_last()),
            requests.last().0,
            requests.last().1,
            asset,
        );
    }
}

/// A withdrawal that is carried out lowers what the caller holds of each asset by exactly
/// what is sent of that asset.
pub proof fn law_withdraw_pays_out_per_asset(
    state: FeesState,
    caller: Seq<u8>,
    requests: Seq<(Asset, nat)>,
    asset: Asset,
)
    requires
        state.well_formed(),
        state.withdraw_funds(caller, requests) is Ok,
    ensures
        ({
            let (after, funds) = state.withdraw_funds(caller, requests)->Ok_0;
            let id = state.user_id.get_id(caller);
            after.balance(id, asset) + match asset {
                Asset::Moax => funds.moax_amount,
                Asset::Dct(token) => paid_of(funds.output_payments, token),
            } == state.balance(id, asset)
        }),
{
    let id = state.user_id.get_id(caller);
    law_withdraw_all_per_asset(state.withdrawal_start(id), requests, asset);
}

} // verus!
