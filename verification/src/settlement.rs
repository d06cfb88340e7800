//! The settlement of a list of payments: its creditors matched against its
//! debtors, the transfers in order of payer and payee.

use crate::arrangement::{
    arranged, by_parties, in_order, lemma_arranged_unique, lemma_by_parties_strict,
};
use crate::balance::{balance, balances, lemma_outsider, lemma_roster, roster};
use crate::conservation::lemma_balances_cancel;
use crate::entity::payment::PaymentView;
use crate::entity::person::{lemma_name_before_connected, Name};
use crate::entity::repayment::Transfer;
use crate::matching::{
    lemma_matched_amounts_positive, lemma_matched_len, lemma_matched_parties,
    lemma_matched_parties_differ, lemma_matched_settles, lemma_transfers_rearranged, matched,
    most_transfers, paid, received,
};
use crate::order::lemma_arrangement_exists;
use crate::ranking::{
    gains, is_ranking, lemma_ranking_exists, lemma_ranking_one_each, lemma_ranking_open_for,
    names_in, negated, ranking, total_of, PositionView,
};
use crate::sums::lemma_sum_of_linear;
use vstd::prelude::*;
use vstd::seq_lib::{to_multiset_contains, to_multiset_len};

verus! {

/// The transfers that settle what is owed under `owed`: its creditors
/// matched against its debtors, in order of payer and payee.
pub open spec fn plan(owed: spec_fn(Name) -> int) -> Seq<Transfer> {
    arranged(matched(ranking(owed), ranking(negated(owed))))
}

/// The creditors of the payments: who has a positive balance, with that
/// balance, in the order of settlement.
pub open spec fn creditors(payments: Seq<PaymentView>) -> Seq<PositionView> {
    ranking(balances(payments))
}

/// The debtors of the payments: who has a negative balance, with what they
/// owe, in the order of settlement.
pub open spec fn debtors(payments: Seq<PaymentView>) -> Seq<PositionView> {
    ranking(negated(balances(payments)))
}

/// The transfers that settle the payments.
pub open spec fn settlement(payments: Seq<PaymentView>) -> Seq<Transfer> {
    plan(balances(payments))
}

/// What is left of a balance once the transfers are made: what `who` pays
/// is no longer owed by them, and what they receive is no longer owed to
/// them.
pub open spec fn remaining(balance: int, transfers: Seq<Transfer>, who: Name) -> int {
    balance + paid(transfers, who) - received(transfers, who)
}

/// Every transfer moves something, from one participant to another.
pub open spec fn all_proper(transfers: Seq<Transfer>) -> bool {
    forall|i: int|
        0 <= i < transfers.len() ==> (#[trigger] transfers[i]).amount > 0 && transfers[i].from
            != transfers[i].to
}

/// The repayments are those that [`solve`](crate::solver::solve) returns for
/// the payments: their settlement, which comes in order of payer and payee,
/// holds the transfers of the matching of creditors against debtors, each
/// of something and between two participants, leaves nothing owed or owing,
/// and is no longer than matching can be.
pub open spec fn solves(repayments: Seq<Transfer>, payments: Seq<PaymentView>) -> bool {
    &&& repayments == settlement(payments)
    &&& in_order(repayments)
    &&& repayments.to_multiset() == matched(creditors(payments), debtors(payments)).to_multiset()
    &&& all_proper(repayments)
    &&& forall|who: Name| remaining(#[trigger] balance(payments, who), repayments, who) == 0
    &&& repayments.len() <= most_transfers(creditors(payments).len(), debtors(payments).len())
}

/// Where both sides of `owed` have a ranking, its plan holds the transfers
/// of the matching, in order; each moves something, from a debtor to a
/// creditor; there are fewer of them than positions; and where as much is
/// owed as owing, they settle everyone.
pub proof fn lemma_plan(owed: spec_fn(Name) -> int)
    requires
        is_ranking(ranking(owed), owed),
        is_ranking(ranking(negated(owed)), negated(owed)),
    ensures
        in_order(plan(owed)),
        plan(owed).to_multiset() == matched(ranking(owed), ranking(negated(owed))).to_multiset(),
        all_proper(plan(owed)),
        plan(owed).len() <= most_transfers(ranking(owed).len(), ranking(negated(owed)).len()),
        total_of(ranking(owed)) == total_of(ranking(negated(owed))) ==> forall|who: Name|
            remaining(#[trigger] owed(who), plan(owed), who) == 0,
{
    let cs = ranking(owed);
    let ds = ranking(negated(owed));
    let made = matched(cs, ds);
    lemma_ranking_one_each(cs, owed);
    lemma_ranking_one_each(ds, negated(owed));
    lemma_matched_parties_differ(cs, ds);
    lemma_by_parties_strict();
    assert forall|i: int, j: int| 0 <= i < j < made.len() implies by_parties()(
        #[trigger] made[i],
        #[trigger] made[j],
    ) || by_parties()(made[j], made[i]) by {
        if made[i].from != made[j].from {
            lemma_name_before_connected(made[i].from, made[j].from);
        } else {
            lemma_name_before_connected(made[i].to, made[j].to);
        }
    }
    let result = lemma_arrangement_exists(made, by_parties());
    lemma_arranged_unique(result, result, made);
    lemma_matched_amounts_positive(cs, ds);
    lemma_matched_parties(cs, ds);
    lemma_matched_len(cs, ds);
    to_multiset_len(result);
    to_multiset_len(made);
    assert forall|i: int| 0 <= i < result.len() implies (#[trigger] result[i]).amount > 0
        && result[i].from != result[i].to by {
        let t = result[i];
        assert(result.contains(t));
        to_multiset_contains(result, t);
        to_multiset_contains(made, t);
        let k = choose|k: int| 0 <= k < made.len() && made[k] == t;
        let a = choose|a: int| 0 <= a < cs.len() && names_in(cs)[a] == made[k].to;
        let b = choose|b: int| 0 <= b < ds.len() && names_in(ds)[b] == made[k].from;
        assert(cs.contains(cs[a]));
        assert(ds.contains(ds[b]));
    }
    if total_of(cs) == total_of(ds) {
        assert forall|who: Name| remaining(#[trigger] owed(who), result, who) == 0 by {
            lemma_matched_settles(cs, ds, who);
            lemma_ranking_open_for(cs, owed, who);
            lemma_ranking_open_for(ds, negated(owed), who);
            lemma_transfers_rearranged(result, made, who);
        }
    }
}

/// Every list of payments has its creditors and its debtors, who are owed
/// in all what is owing, and its settlement, which is what [`solves`] says.
pub proof fn lemma_settlement(payments: Seq<PaymentView>)
    ensures
        is_ranking(creditors(payments), balances(payments)),
        is_ranking(debtors(payments), negated(balances(payments))),
        total_of(creditors(payments)) == total_of(debtors(payments)),
        solves(settlement(payments), payments),
{
    let owed = balances(payments);
    let names = roster(payments);
    lemma_roster(payments);
    assert forall|who: Name| owed(who) != 0 implies names.contains(who) by {
        if !names.contains(who) {
            lemma_outsider(payments, who);
        }
    }
    lemma_ranking_exists(owed, names);
    lemma_ranking_exists(negated(owed), names);
    lemma_balances_cancel(payments, names);
    lemma_sum_of_linear(names, -1, gains(negated(owed)), gains(owed), owed);
    lemma_plan(owed);
    assert forall|who: Name|
        remaining(#[trigger] balance(payments, who), settlement(payments), who) == 0 by {
        assert(owed(who) == balance(payments, who));
    }
}

} // verus!
