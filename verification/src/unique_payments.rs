//! A list of token amounts in which no token occurs twice.

use crate::big_uint::BigUint;
use crate::token::{DctTokenPayment, PaymentView, TokenIdentifier};
use vstd::prelude::*;

verus! {

/// The list in the model.
pub open spec fn payments_view(payments: Seq<DctTokenPayment>) -> Seq<PaymentView> {
    payments.map_values(|p: DctTokenPayment| p@)
}

/// Whether no token occurs twice in the list.
pub open spec fn unique_tokens(payments: Seq<PaymentView>) -> bool {
    forall|i: int, j: int|
        0 <= i < j < payments.len() ==> (#[trigger] payments[i]).token != (
        #[trigger] payments[j]).token
}

/// Whether the entry is of `token` and holds at least `amount`.
pub open spec fn holds_at_least(p: PaymentView, token: Seq<u8>, amount: nat) -> bool {
    p.token == token && p.amount >= amount
}

/// Whether `i` is the position of the first entry of `token` that holds at least `amount`.
pub open spec fn is_first_holding(
    payments: Seq<PaymentView>,
    token: Seq<u8>,
    amount: nat,
    i: int,
) -> bool {
    &&& 0 <= i < payments.len()
    &&& holds_at_least(payments[i], token, amount)
    &&& forall|j: int| 0 <= j < i ==> !holds_at_least(#[trigger] payments[j], token, amount)
}

/// The position of the first entry of `token` that holds at least `amount`, if there is one.
pub open spec fn first_holding(payments: Seq<PaymentView>, token: Seq<u8>, amount: nat) -> Option<
    int,
> {
    if exists|i: int| is_first_holding(payments, token, amount, i) {
        Some(choose|i: int| is_first_holding(payments, token, amount, i))
    } else {
        None
    }
}

/// The sum of all amounts in the list.
pub open spec fn total_amount(payments: Seq<PaymentView>) -> nat
    decreases payments.len(),
{
    if payments.len() == 0 {
        0
    } else {
        total_amount(payments.drop_last()) + payments.last().amount
    }
}

/// The amount of `token` that the list holds: that of its first entry of the token.
pub open spec fn amount_of(payments: Seq<PaymentView>, token: Seq<u8>) -> nat {
    match first_holding(payments, token, 0) {
        Some(i) => payments[i].amount,
        None => 0,
    }
}

/// The list after `payment` was added: merged into the entry of its token, or appended where
/// the list has none.
pub open spec fn add_payment_to(payments: Seq<PaymentView>, payment: PaymentView) -> Seq<
    PaymentView,
> {
    match first_holding(payments, payment.token, 0) {
        Some(i) => payments.update(
            i,
            PaymentView { token: payment.token, amount: payments[i].amount + payment.amount },
        ),
        None => payments.push(payment),
    }
}

/// Whether `amount` of `token` can be taken from the list: some entry of the token holds
/// that much.
pub open spec fn can_take(payments: Seq<PaymentView>, token: Seq<u8>, amount: nat) -> bool {
    first_holding(payments, token, amount) is Some
}

/// The list after `amount` of `token` was taken from the first entry that holds that much:
/// the entry leaves the list where it held exactly `amount`, and keeps the rest otherwise.
/// Where no entry holds that much, the list stays as it is.
pub open spec fn take_from(payments: Seq<PaymentView>, token: Seq<u8>, amount: nat) -> Seq<
    PaymentView,
> {
    match first_holding(payments, token, amount) {
        Some(i) => if payments[i].amount == amount {
            payments.remove(i)
        } else {
            payments.update(
                i,
                PaymentView { token, amount: (payments[i].amount - amount) as nat },
            )
        },
        None => payments,
    }
}

/// The first entry that holds enough is the only position that `first_holding` can name.
pub proof fn lemma_first_holding_is(payments: Seq<PaymentView>, token: Seq<u8>, amount: nat, i: int)
    requires
        is_first_holding(payments, token, amount, i),
    ensures
        first_holding(payments, token, amount) == Some(i),
{
    let c = choose|c: int| is_first_holding(payments, token, amount, c);
    if c < i {
        assert(!holds_at_least(payments[c], token, amount));
    } else if i < c {
        assert(!holds_at_least(payments[i], token, amount));
    }
}

/// Where no entry holds enough, `first_holding` names none.
pub proof fn lemma_first_holding_none(payments: Seq<PaymentView>, token: Seq<u8>, amount: nat)
    requires
        forall|j: int|
            0 <= j < payments.len() ==> !holds_at_least(#[trigger] payments[j], token, amount),
    ensures
        first_holding(payments, token, amount) is None,
{
}

/// Where some entry holds enough, one of them is the first.
proof fn lemma_some_entry_is_first(payments: Seq<PaymentView>, token: Seq<u8>, amount: nat, j: int)
    requires
        0 <= j < payments.len(),
        holds_at_least(payments[j], token, amount),
    ensures
        exists|i: int| is_first_holding(payments, token, amount, i),
    decreases j,
{
    if exists|k: int| 0 <= k < j && holds_at_least(#[trigger] payments[k], token, amount) {
        let k = choose|k: int| 0 <= k < j && holds_at_least(#[trigger] payments[k], token, amount);
        lemma_some_entry_is_first(payments, token, amount, k);
    } else {
        assert(is_first_holding(payments, token, amount, j));
    }
}

/// Where `first_holding` names none, no entry holds enough.
pub proof fn lemma_first_holding_none_means(
    payments: Seq<PaymentView>,
    token: Seq<u8>,
    amount: nat,
)
    requires
        first_holding(payments, token, amount) is None,
    ensures
        forall|j: int|
            0 <= j < payments.len() ==> !holds_at_least(#[trigger] payments[j], token, amount),
{
    assert forall|j: int| 0 <= j < payments.len() implies !holds_at_least(
        #[trigger] payments[j],
        token,
        amount,
    ) by {
        if holds_at_least(payments[j], token, amount) {
            lemma_some_entry_is_first(payments, token, amount, j);
        }
    }
}

/// What `first_holding` names is the first entry that holds enough.
pub proof fn lemma_first_holding_some(payments: Seq<PaymentView>, token: Seq<u8>, amount: nat)
    requires
        first_holding(payments, token, amount) is Some,
    ensures
        is_first_holding(payments, token, amount, first_holding(payments, token, amount)->Some_0),
{
}

/// Adding a payment keeps the tokens of the list distinct.
pub proof fn lemma_add_payment_unique(payments: Seq<PaymentView>, payment: PaymentView)
    requires
        unique_tokens(payments),
    ensures
        unique_tokens(add_payment_to(payments, payment)),
{
    let after = add_payment_to(payments, payment);
    match first_holding(payments, payment.token, 0) {
        Some(i) => {
            lemma_first_holding_some(payments, payment.token, 0);
            assert forall|a: int, b: int| 0 <= a < b < after.len() implies (#[trigger] after[a]).token
                != (#[trigger] after[b]).token by {
                assert(after[a].token == payments[a].token);
                assert(after[b].token == payments[b].token);
            }
        },
        None => {
            assert forall|a: int, b: int| 0 <= a < b < after.len() implies (#[trigger] after[a]).token
                != (#[trigger] after[b]).token by {
                if b == payments.len() {
                    lemma_first_holding_none_means(payments, payment.token, 0);
                    assert(!holds_at_least(payments[a], payment.token, 0));
                } else {
                    assert(after[a].token == payments[a].token);
                    assert(after[b].token == payments[b].token);
                }
            }
        },
    }
}

/// Taking an amount keeps the tokens of the list distinct.
pub proof fn lemma_take_unique(payments: Seq<PaymentView>, token: Seq<u8>, amount: nat)
    requires
        unique_tokens(payments),
    ensures
        unique_tokens(take_from(payments, token, amount)),
{
    let after = take_from(payments, token, amount);
    match first_holding(payments, token, amount) {
        Some(i) => {
            lemma_first_holding_some(payments, token, amount);
            if payments[i].amount == amount {
                assert forall|a: int, b: int| 0 <= a < b < after.len() implies (
                #[trigger] after[a]).token != (#[trigger] after[b]).token by {
                    let a0 = if a < i { a } else { a + 1 };
                    let b0 = if b < i { b } else { b + 1 };
                    assert(after[a] == payments[a0]);
                    assert(after[b] == payments[b0]);
                }
            } else {
                assert forall|a: int, b: int| 0 <= a < b < after.len() implies (
                #[trigger] after[a]).token != (#[trigger] after[b]).token by {
                    assert(after[a].token == payments[a].token);
                    assert(after[b].token == payments[b].token);
                }
            }
        },
        None => {},
    }
}

/// The sum of a list with one entry replaced.
pub proof fn lemma_total_update(payments: Seq<PaymentView>, i: int, p: PaymentView)
    requires
        0 <= i < payments.len(),
    ensures
        total_amount(payments.update(i, p)) + payments[i].amount == total_amount(payments)
            + p.amount,
    decreases payments.len(),
{
    let after = payments.update(i, p);
    if i == payments.len() - 1 {
        assert(after.drop_last() =~= payments.drop_last());
    } else {
        assert(after.drop_last() =~= payments.drop_last().update(i, p));
        lemma_total_update(payments.drop_last(), i, p);
    }
}

/// The sum of a list with one entry removed.
pub proof fn lemma_total_remove(payments: Seq<PaymentView>, i: int)
    requires
        0 <= i < payments.len(),
    ensures
        total_amount(payments.remove(i)) + payments[i].amount == total_amount(payments),
    decreases payments.len(),
{
    let after = payments.remove(i);
    if i == payments.len() - 1 {
        assert(after =~= payments.drop_last());
    } else {
        assert(after.drop_last() =~= payments.drop_last().remove(i));
        assert(after.last() == payments.last());
        lemma_total_remove(payments.drop_last(), i);
    }
}

/// The sum of a list with one entry appended.
pub proof fn lemma_total_push(payments: Seq<PaymentView>, p: PaymentView)
    ensures
        total_amount(payments.push(p)) == total_amount(payments) + p.amount,
{
    assert(payments.push(p).drop_last() =~= payments);
}

/// A list of token amounts in which no token occurs twice, in the order in which the tokens
/// first came.
#[derive(Debug, PartialEq, Eq)]
pub struct UniquePayments {
    payments: Vec<DctTokenPayment>,
}

impl View for UniquePayments {
    type V = Seq<PaymentView>;

    closed spec fn view(&self) -> Seq<PaymentView> {
        payments_view(self.payments@)
    }
}

/// The position of the first entry of `token` that holds at least `amount`.
pub fn find_holding(payments: &Vec<DctTokenPayment>, token: &TokenIdentifier, amount: &BigUint) -> (r:
    Option<usize>)
    ensures
        first_holding(payments_view(payments@), token@, amount@) == match r {
            Some(i) => Some(i as int),
            None => None,
        },
        r is Some ==> r->Some_0 < payments@.len(),
{
    let ghost list = payments_view(payments@);
    let mut i: usize = 0;
    while i < payments.len()
        invariant
            i <= payments@.len(),
            list == payments_view(payments@),
            forall|j: int| 0 <= j < i ==> !holds_at_least(#[trigger] list[j], token@, amount@),
        decreases payments@.len() - i,
    {
        if payments[i].token_identifier.eq(token) && payments[i].amount.ge(amount) {
            proof {
                lemma_first_holding_is(list, token@, amount@, i as int);
            }
            return Some(i);
        }
        i = i + 1;
    }
    proof {
        lemma_first_holding_none(list, token@, amount@);
    }
    None
}

impl Clone for UniquePayments {
    fn clone(&self) -> (r: UniquePayments)
        ensures
            r@ == self@,
    {
        proof {
            use_type_invariant(self);
        }
        let mut payments: Vec<DctTokenPayment> = Vec::new();
        let mut i: usize = 0;
        while i < self.payments.len()
            invariant
                i <= self.payments@.len(),
                payments@.len() == i,
                forall|j: int| 0 <= j < i ==> payments@[j]@ == self.payments@[j]@,
            decreases self.payments@.len() - i,
        {
            payments.push(self.payments[i].clone());
            i = i + 1;
        }
        assert(payments_view(payments@) =~= payments_view(self.payments@));
        UniquePayments { payments }
    }
}

impl UniquePayments {
    #[verifier::type_invariant]
    spec fn well_formed(self) -> bool {
        unique_tokens(payments_view(self.payments@))
    }

    /// The empty list.
    pub fn new() -> (r: UniquePayments)
        ensures
            r@ == Seq::<PaymentView>::empty(),
    {
        let payments: Vec<DctTokenPayment> = Vec::new();
        assert(payments_view(payments@) =~= Seq::<PaymentView>::empty());
        UniquePayments { payments }
    }

    /// The list of the given payments, whose tokens are distinct.
    pub fn new_from_unique_payments(payments: Vec<DctTokenPayment>) -> (r: UniquePayments)
        requires
            unique_tokens(payments_view(payments@)),
        ensures
            r@ == payments_view(payments@),
    {
        UniquePayments { payments }
    }

    /// Adds the payment: to the entry of its token where the list has one, else as a new
    /// last entry.
    pub fn add_payment(&mut self, new_payment: DctTokenPayment)
        ensures
            final(self)@ == add_payment_to(old(self)@, new_payment@),
    {
        proof {
            use_type_invariant(&*self);
            lemma_add_payment_unique(self@, new_payment@);
        }
        let zero = BigUint::zero();
        let mut payments: Vec<DctTokenPayment> = Vec::new();
        assert(payments_view(payments@) =~= Seq::<PaymentView>::empty());
        core::mem::swap(&mut self.payments, &mut payments);
        match find_holding(&payments, &new_payment.token_identifier, &zero) {
            Some(i) => {
                let merged = DctTokenPayment {
                    amount: payments[i].amount.add(&new_payment.amount),
                    token_identifier: new_payment.token_identifier,
                };
                assert(payments_view(payments@.update(i as int, merged)) =~= add_payment_to(
                    payments_view(payments@),
                    new_payment@,
                ));
                payments.set(i, merged);
            },
            None => {
                assert(payments_view(payments@.push(new_payment)) =~= add_payment_to(
                    payments_view(payments@),
                    new_payment@,
                ));
                payments.push(new_payment);
            },
        }
        core::mem::swap(&mut self.payments, &mut payments);
    }

    /// The number of entries.
    pub fn len(&self) -> (r: usize)
        ensures
            r == self@.len(),
    {
        self.payments.len()
    }

    /// Whether the list has no entry.
    pub fn is_empty(&self) -> (r: bool)
        ensures
            r == (self@.len() == 0),
    {
        self.payments.len() == 0
    }

    /// The entries, in their order.
    pub fn into_payments(self) -> (r: Vec<DctTokenPayment>)
        ensures
            payments_view(r@) == self@,
            unique_tokens(payments_view(r@)),
    {
        proof {
            use_type_invariant(&self);
        }
        self.payments
    }
}

} // verus!
