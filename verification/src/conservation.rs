//! Conservation: a payment charges its beneficiaries, between them, exactly
//! what it credits its payer, so that all balances together come to zero.

use crate::balance::{
    balance, balances, credit, effect, lemma_roster, occurrences, remainder, roster, share,
};
use crate::entity::payment::PaymentView;
use crate::entity::person::Name;
use crate::ledger::{entries, total, Entry};
use crate::sums::{
    lemma_sum_of_linear, lemma_sum_of_one, lemma_sum_of_push, lemma_sum_of_same, sum_of,
};
use vstd::prelude::*;

verus! {

/// A weight that is zero everywhere sums to zero.
proof fn lemma_sum_of_nothing(names: Seq<Name>, weight: spec_fn(Name) -> int)
    requires
        forall|who: Name| #[trigger] weight(who) == 0,
    ensures
        sum_of(names, weight) == 0,
    decreases names.len(),
{
    if names.len() > 0 {
        lemma_sum_of_nothing(names.drop_first(), weight);
    }
}

/// Over names that include everyone listed, each once, the listings of all
/// come to the length of the list.
proof fn lemma_occurrences_sum(listed: Seq<Name>, names: Seq<Name>)
    requires
        names.no_duplicates(),
        forall|i: int| 0 <= i < listed.len() ==> names.contains(#[trigger] listed[i]),
    ensures
        sum_of(names, |who: Name| occurrences(listed, who) as int) == listed.len(),
    decreases listed.len(),
{
    let all = |who: Name| occurrences(listed, who) as int;
    if listed.len() == 0 {
        lemma_sum_of_nothing(names, all);
    } else {
        let last = listed.last();
        let one = |who: Name| if who == last { 1int } else { 0int };
        let earlier = |who: Name| occurrences(listed.drop_last(), who) as int;
        assert(names.contains(listed[listed.len() - 1]));
        assert forall|i: int| 0 <= i < listed.drop_last().len() implies names.contains(
            #[trigger] listed.drop_last()[i],
        ) by {
            assert(listed.drop_last()[i] == listed[i]);
        }
        lemma_occurrences_sum(listed.drop_last(), names);
        lemma_sum_of_one(names, last, one);
        lemma_sum_of_linear(names, 1, one, earlier, all);
    }
}

/// Over names that include the payer and the beneficiaries, each once, what
/// a payment does to the balances comes to zero.
proof fn lemma_effects_cancel(p: PaymentView, names: Seq<Name>)
    requires
        names.no_duplicates(),
        p.beneficiaries.len() > 0 ==> names.contains(p.payer),
        forall|i: int|
            0 <= i < p.beneficiaries.len() ==> names.contains(#[trigger] p.beneficiaries[i]),
    ensures
        sum_of(names, |who: Name| effect(p, who)) == 0,
{
    let effects = |who: Name| effect(p, who);
    if p.beneficiaries.len() == 0 {
        lemma_sum_of_nothing(names, effects);
    } else {
        let n = p.beneficiaries.len() as int;
        let last = p.beneficiaries.last();
        let nothing = |who: Name| 0int;
        let is_last = |who: Name| if who == last { 1int } else { 0int };
        let is_payer = |who: Name| if who == p.payer { 1int } else { 0int };
        let listings = |who: Name| occurrences(p.beneficiaries, who) as int;
        let extra = |who: Name| -remainder(p) * is_last(who) + nothing(who);
        let charges = |who: Name| -share(p) * listings(who) + extra(who);
        let sums = |who: Name| (p.amount as int) * is_payer(who) + charges(who);
        assert(names.contains(p.beneficiaries[n - 1]));
        lemma_sum_of_nothing(names, nothing);
        lemma_sum_of_one(names, last, is_last);
        lemma_sum_of_one(names, p.payer, is_payer);
        lemma_occurrences_sum(p.beneficiaries, names);
        lemma_sum_of_linear(names, -remainder(p), is_last, nothing, extra);
        lemma_sum_of_linear(names, -share(p), listings, extra, charges);
        lemma_sum_of_linear(names, p.amount as int, is_payer, charges, sums);
        assert forall|i: int| 0 <= i < names.len() implies effects(#[trigger] names[i]) == sums(
            names[i],
        ) by {
            let who = names[i];
            assert(-share(p) * listings(who) == -(share(p) * listings(who))) by (nonlinear_arith);
            assert((p.amount as int) * is_payer(who) == credit(p, who)) by (nonlinear_arith)
                requires
                    is_payer(who) == if who == p.payer { 1int } else { 0int },
                    credit(p, who) == if who == p.payer { p.amount as int } else { 0int },
            ;
            assert(-remainder(p) * is_last(who) == if who == last { -remainder(p) } else { 0int })
                by (nonlinear_arith)
                requires
                    is_last(who) == if who == last { 1int } else { 0int },
            ;
        }
        lemma_sum_of_same(names, effects, sums);
        vstd::arithmetic::div_mod::lemma_fundamental_div_mod(p.amount as int, n);
        assert(-share(p) * n == -(n * share(p))) by (nonlinear_arith);
    }
}

/// Over names that include the roster, each once, the balances come to zero.
pub proof fn lemma_balances_cancel(payments: Seq<PaymentView>, names: Seq<Name>)
    requires
        names.no_duplicates(),
        forall|who: Name| roster(payments).contains(who) ==> names.contains(who),
    ensures
        sum_of(names, balances(payments)) == 0,
    decreases payments.len(),
{
    if payments.len() == 0 {
        lemma_sum_of_nothing(names, balances(payments));
    } else {
        let p = payments.last();
        let effects = |who: Name| effect(p, who);
        lemma_roster(payments);
        lemma_balances_cancel(payments.drop_last(), names);
        assert forall|i: int| 0 <= i < p.beneficiaries.len() implies names.contains(
            #[trigger] p.beneficiaries[i],
        ) by {
            assert(p.beneficiaries.contains(p.beneficiaries[i]));
        }
        lemma_effects_cancel(p, names);
        lemma_sum_of_linear(
            names,
            1,
            balances(payments.drop_last()),
            effects,
            balances(payments),
        );
    }
}

/// The total of the entries for `names` is the sum of their balances.
proof fn lemma_total_is_sum(payments: Seq<PaymentView>, names: Seq<Name>)
    ensures
        total(names.map_values(|who: Name| Entry { name: who, balance: balance(payments, who) }))
            == sum_of(names, balances(payments)),
    decreases names.len(),
{
    let line = |who: Name| Entry { name: who, balance: balance(payments, who) };
    if names.len() > 0 {
        let earlier = names.drop_last();
        lemma_total_is_sum(payments, earlier);
        lemma_sum_of_push(earlier, names.last(), balances(payments));
        assert(earlier.push(names.last()) =~= names);
        assert(names.map_values(line).drop_last() =~= earlier.map_values(line));
    }
}

/// The balances in the ledger of any payments come to zero.
pub proof fn lemma_ledger_balanced(payments: Seq<PaymentView>)
    ensures
        total(entries(payments)) == 0,
{
    lemma_roster(payments);
    lemma_balances_cancel(payments, roster(payments));
    lemma_total_is_sum(payments, roster(payments));
}

} // verus!
