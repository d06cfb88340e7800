//! What holds of balances and settlements whatever the payments.

use crate::arrangement::{by_parties, parties_before};
use crate::balance::{balance, balances, effect, occurrences, remainder, share};
use crate::conservation::lemma_ledger_balanced;
use crate::entity::payment::PaymentView;
use crate::entity::person::Name;
use crate::ledger::{entries, total};
use crate::matching::most_transfers;
use crate::ranking::negated;
use crate::settlement::{creditors, debtors, lemma_settlement, remaining, settlement};
use crate::sums::{lemma_sum_of_permutation, lemma_sum_of_push, sum_of};
use vstd::prelude::*;
use vstd::seq_lib::{to_multiset_build, to_multiset_insert};

verus! {

/// Whatever the payments, the balances of all participants come to zero:
/// what a payment credits its payer, it charges its beneficiaries.
pub proof fn lemma_conservation(payments: Seq<PaymentView>)
    ensures
        total(entries(payments)) == 0,
{
    lemma_ledger_balanced(payments);
}

/// Once the transfers of the settlement are made, nobody is owed anything
/// and nobody owes anything.
pub proof fn lemma_settlement_settles(payments: Seq<PaymentView>, who: Name)
    ensures
        remaining(balance(payments, who), settlement(payments), who) == 0,
{
    lemma_settlement(payments);
}

/// No transfer of a settlement goes from a participant to themselves.
pub proof fn lemma_settlement_between_two(payments: Seq<PaymentView>, i: int)
    requires
        0 <= i < settlement(payments).len(),
    ensures
        settlement(payments)[i].from != settlement(payments)[i].to,
{
    lemma_settlement(payments);
}

/// Every transfer of a settlement moves something.
pub proof fn lemma_settlement_moves_something(payments: Seq<PaymentView>, i: int)
    requires
        0 <= i < settlement(payments).len(),
    ensures
        settlement(payments)[i].amount > 0,
{
    lemma_settlement(payments);
}

/// A settlement makes fewer transfers than it has creditors and debtors, and
/// none where it has no creditors or no debtors.
pub proof fn lemma_settlement_is_short(payments: Seq<PaymentView>)
    ensures
        settlement(payments).len() <= most_transfers(
            creditors(payments).len(),
            debtors(payments).len(),
        ),
{
    lemma_settlement(payments);
}

/// The transfers of a settlement come in order of payer and, for one payer,
/// of payee, and no two of them have both in common.
pub proof fn lemma_settlement_in_order(payments: Seq<PaymentView>, i: int, j: int)
    requires
        0 <= i < j < settlement(payments).len(),
    ensures
        parties_before(settlement(payments)[i], settlement(payments)[j]),
{
    lemma_settlement(payments);
    assert(by_parties()(settlement(payments)[i], settlement(payments)[j]));
}

/// A balance is the sum of what the payments each do to it.
proof fn lemma_balance_is_sum(payments: Seq<PaymentView>, who: Name)
    ensures
        balance(payments, who) == sum_of(payments, |p: PaymentView| effect(p, who)),
    decreases payments.len(),
{
    if payments.len() > 0 {
        let weight = |p: PaymentView| effect(p, who);
        lemma_balance_is_sum(payments.drop_last(), who);
        lemma_sum_of_push(payments.drop_last(), payments.last(), weight);
        assert(payments.drop_last().push(payments.last()) =~= payments);
    }
}

/// The order of the payments changes no balance: two lists of the same
/// payments, each as often, give everyone the same balance.
pub proof fn lemma_balance_ignores_order(a: Seq<PaymentView>, b: Seq<PaymentView>, who: Name)
    requires
        a.to_multiset() == b.to_multiset(),
    ensures
        balance(a, who) == balance(b, who),
{
    lemma_balance_is_sum(a, who);
    lemma_balance_is_sum(b, who);
    lemma_sum_of_permutation(a, b, |p: PaymentView| effect(p, who));
}

/// The settlement depends on the balances alone: payments that give
/// everyone the same balance have the same creditors, the same debtors and
/// the same settlement.
pub proof fn lemma_settlement_follows_balances(a: Seq<PaymentView>, b: Seq<PaymentView>)
    requires
        forall|who: Name| balance(a, who) == balance(b, who),
    ensures
        creditors(a) == creditors(b),
        debtors(a) == debtors(b),
        settlement(a) == settlement(b),
{
    assert(balances(a) =~= balances(b));
    assert(negated(balances(a)) =~= negated(balances(b)));
}

/// The order of the payments changes nothing in the settlement.
pub proof fn lemma_settlement_ignores_order(a: Seq<PaymentView>, b: Seq<PaymentView>)
    requires
        a.to_multiset() == b.to_multiset(),
    ensures
        settlement(a) == settlement(b),
{
    assert forall|who: Name| balance(a, who) == balance(b, who) by {
        lemma_balance_ignores_order(a, b, who);
    }
    lemma_settlement_follows_balances(a, b);
}

/// A payment without beneficiaries, or of nothing, counts for nothing:
/// wherever it stands among the payments, every balance is what it is
/// without it, and so is the settlement.
pub proof fn lemma_idle_payment(payments: Seq<PaymentView>, place: int, idle: PaymentView)
    requires
        0 <= place <= payments.len(),
        idle.beneficiaries.len() == 0 || idle.amount == 0,
    ensures
        forall|who: Name| balance(payments.insert(place, idle), who) == balance(payments, who),
        settlement(payments.insert(place, idle)) == settlement(payments),
{
    let with_idle = payments.insert(place, idle);
    assert forall|who: Name| balance(with_idle, who) == balance(payments, who) by {
        to_multiset_insert(payments, place, idle);
        to_multiset_build(payments, idle);
        lemma_balance_ignores_order(with_idle, payments.push(idle), who);
        assert(payments.push(idle).drop_last() =~= payments);
        assert(effect(idle, who) == 0) by {
            if idle.beneficiaries.len() > 0 {
                let n = idle.beneficiaries.len() as int;
                let listed = occurrences(idle.beneficiaries, who) as int;
                vstd::arithmetic::div_mod::lemma_small_mod(0, n as nat);
                vstd::arithmetic::div_mod::lemma_div_of0(n);
                assert(share(idle) == 0);
                assert(remainder(idle) == 0);
                assert(share(idle) * listed == 0) by (nonlinear_arith)
                    requires
                        share(idle) == 0,
                ;
            }
        }
    }
    lemma_settlement_follows_balances(with_idle, payments);
}

} // verus!
