//! Solving: from payments to the repayments that settle them.

use crate::arrangement::{arrange, lemma_arranged_unique};
use crate::balance::{balance, balances, lemma_balance_bounded, volume};
use crate::entity::money::Money;
use crate::entity::payment::{Payment, PaymentView};
use crate::entity::person::Name;
use crate::entity::repayment::{Repayment, Transfer};
use crate::ledger::{held, held_by, Ledger};
use crate::matching::{after_paying, lemma_matched_parties_differ, matched};
use crate::ranking::{
    lemma_ranking_one_each, lemma_ranking_unique, negated, rank, Position, PositionView,
};
use crate::settlement::{lemma_settlement, solves};
use vstd::prelude::*;

verus! {

/// What is left of `positions` when those before place `i` are settled and
/// the one at place `i` has `left` open.
spec fn open_from(positions: Seq<PositionView>, i: int, left: nat) -> Seq<PositionView> {
    if i < positions.len() {
        positions.subrange(i, positions.len() as int).update(
            0,
            PositionView { name: positions[i].name, magnitude: left },
        )
    } else {
        Seq::empty()
    }
}

/// Paying what is left in front either leaves the same position in front,
/// with less open, or brings the next one to the front.
proof fn lemma_open_from_next(positions: Seq<PositionView>, i: int, left: nat, amount: nat)
    requires
        0 <= i < positions.len(),
        0 < amount <= left,
    ensures
        after_paying(open_from(positions, i, left), amount) == if left == amount {
            if i + 1 < positions.len() {
                open_from(positions, i + 1, positions[i + 1].magnitude)
            } else {
                Seq::empty()
            }
        } else {
            open_from(positions, i, (left - amount) as nat)
        },
{
    let now = open_from(positions, i, left);
    if left == amount {
        if i + 1 < positions.len() {
            assert(now.drop_first() =~= open_from(positions, i + 1, positions[i + 1].magnitude));
        } else {
            assert(now.drop_first() =~= Seq::<PositionView>::empty());
        }
    } else {
        assert(after_paying(now, amount) =~= open_from(positions, i, (left - amount) as nat));
    }
}

/// Matches creditors against debtors, the first of each side in turn.
pub fn calculate_repayments(creditors: &Vec<Position>, debtors: &Vec<Position>) -> (repayments:
    Vec<Repayment>)
    ensures
        repayments.deep_view() == matched(creditors.deep_view(), debtors.deep_view()),
{
    let ghost cs = creditors.deep_view();
    let ghost ds = debtors.deep_view();
    let mut repayments: Vec<Repayment> = Vec::new();
    let mut c: usize = 0;
    let mut d: usize = 0;
    let mut credit: u32 = if creditors.len() > 0 {
        creditors[0].magnitude().as_inner()
    } else {
        0
    };
    let mut debt: u32 = if debtors.len() > 0 {
        debtors[0].magnitude().as_inner()
    } else {
        0
    };
    proof {
        assert(open_from(cs, 0, credit as nat) =~= cs);
        assert(open_from(ds, 0, debt as nat) =~= ds);
        assert(repayments.deep_view() + matched(cs, ds) =~= matched(cs, ds));
    }
    while c < creditors.len() && d < debtors.len()
        invariant
            cs == creditors.deep_view(),
            ds == debtors.deep_view(),
            0 <= c <= cs.len(),
            0 <= d <= ds.len(),
            repayments.deep_view() + matched(
                open_from(cs, c as int, credit as nat),
                open_from(ds, d as int, debt as nat),
            ) == matched(cs, ds),
        ensures
            repayments.deep_view() == matched(cs, ds),
        decreases (cs.len() - c) + (ds.len() - d),
    {
        let amount = if credit <= debt {
            credit
        } else {
            debt
        };
        let ghost open_credit = open_from(cs, c as int, credit as nat);
        let ghost open_debt = open_from(ds, d as int, debt as nat);
        let ghost done = repayments.deep_view();
        if amount == 0 {
            proof {
                assert(done + Seq::<Transfer>::empty() =~= done);
            }
            break;
        }
        let repayment = Repayment::new(
            Money::new(amount),
            debtors[d].person().clone(),
            creditors[c].person().clone(),
        );
        proof {
            lemma_open_from_next(cs, c as int, credit as nat, amount as nat);
            lemma_open_from_next(ds, d as int, debt as nat, amount as nat);
        }
        repayments.push(repayment);
        credit -= amount;
        debt -= amount;
        if credit == 0 {
            c += 1;
            if c < creditors.len() {
                credit = creditors[c].magnitude().as_inner();
            }
        }
        if debt == 0 {
            d += 1;
            if d < debtors.len() {
                debt = debtors[d].magnitude().as_inner();
            }
        }
        proof {
            let rest = matched(
                open_from(cs, c as int, credit as nat),
                open_from(ds, d as int, debt as nat),
            );
            assert(repayments.deep_view() =~= done.push(repayment@));
            assert(matched(open_credit, open_debt) == seq![repayment@] + rest);
            assert(done.push(repayment@) + rest =~= done + (seq![repayment@] + rest));
        }
    }
    repayments
}

/// No balance is more than the largest amount of money, owed or owing.
pub open spec fn affordable(payments: Seq<PaymentView>) -> bool {
    forall|who: Name| -(u32::MAX as int) <= #[trigger] balance(payments, who) <= u32::MAX
}

/// Payments that amount to no more than the largest [`Money`] in all are
/// affordable.
pub proof fn lemma_small_volume_affordable(payments: Seq<PaymentView>)
    requires
        volume(payments) <= u32::MAX,
    ensures
        affordable(payments),
{
    assert forall|who: Name| -(u32::MAX as int) <= #[trigger] balance(payments, who)
        <= u32::MAX by {
        lemma_balance_bounded(payments, who);
    }
}

/// The transfers that settle the ledger of the payments.
fn settle(ledger: &Ledger, Ghost(payments): Ghost<Seq<PaymentView>>) -> (repayments: Vec<
    Repayment,
>)
    requires
        forall|who: Name| held(ledger@, who) == balance(payments, who),
        affordable(payments),
    ensures
        solves(repayments.deep_view(), payments),
{
    proof {
        assert(held_by(ledger@) =~= balances(payments));
        assert forall|who: Name| -(u32::MAX as int) <= #[trigger] held(ledger@, who)
            <= u32::MAX by {
            assert(held(ledger@, who) == balance(payments, who));
        }
    }
    let sides = rank(ledger);
    proof {
        let owed = balances(payments);
        lemma_ranking_unique(sides.0.deep_view(), sides.0.deep_view(), owed);
        lemma_ranking_unique(sides.1.deep_view(), sides.1.deep_view(), negated(owed));
        lemma_ranking_one_each(sides.0.deep_view(), owed);
        lemma_ranking_one_each(sides.1.deep_view(), negated(owed));
        lemma_matched_parties_differ(sides.0.deep_view(), sides.1.deep_view());
    }
    let matches = calculate_repayments(&sides.0, &sides.1);
    let repayments = arrange(matches);
    proof {
        lemma_arranged_unique(
            repayments.deep_view(),
            repayments.deep_view(),
            matched(sides.0.deep_view(), sides.1.deep_view()),
        );
        lemma_settlement(payments);
    }
    repayments
}

/// The transfers that settle the payments: each participant's balance is
/// what they fronted less what they were charged ([`balance`]); creditors
/// are matched against debtors, both in the order of settlement
/// ([`matched`]); the transfers come in order of payer and payee.
///
/// No balance may be more than the largest [`Money`], owed or owing: no
/// repayment could carry it. [`try_solve`] asks for nothing, and finds out.
pub fn solve(payments: Vec<Payment>) -> (repayments: Vec<Repayment>)
    requires
        affordable(payments.deep_view()),
    ensures
        solves(repayments.deep_view(), payments.deep_view()),
{
    let ledger = Ledger::from_payments(&payments);
    settle(&ledger, Ghost(payments.deep_view()))
}

/// As [`solve`], for any payments: `None` where a balance is more than the
/// largest [`Money`], owed or owing.
pub fn try_solve(payments: Vec<Payment>) -> (outcome: Option<Vec<Repayment>>)
    ensures
        outcome is Some <==> affordable(payments.deep_view()),
        outcome matches Some(repayments) ==> solves(repayments.deep_view(), payments.deep_view()),
{
    let ledger = Ledger::from_payments(&payments);
    if ledger.fits_money() {
        proof {
            assert forall|who: Name| -(u32::MAX as int) <= #[trigger] balance(
                payments.deep_view(),
                who,
            ) <= u32::MAX by {
                assert(held(ledger@, who) == balance(payments.deep_view(), who));
            }
        }
        Some(settle(&ledger, Ghost(payments.deep_view())))
    } else {
        proof {
            if affordable(payments.deep_view()) {
                assert forall|who: Name| -(u32::MAX as int) <= #[trigger] held(ledger@, who)
                    <= u32::MAX by {
                    assert(held(ledger@, who) == balance(payments.deep_view(), who));
                }
            }
        }
        None
    }
}

} // verus!
