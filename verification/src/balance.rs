//! The balance of a participant: what they fronted, less what they were
//! charged.
//!
//! A payment credits its payer with the full amount and charges each listing
//! among its beneficiaries one share, the amount divided by the number of
//! listings, rounded down. What the division leaves over is charged to the
//! beneficiary listed last, on top of that share. A payment without
//! beneficiaries counts for nothing, not even for its payer.

use crate::entity::payment::PaymentView;
use crate::entity::person::Name;
use vstd::prelude::*;

verus! {

/// How many times `who` is listed in `names`.
pub open spec fn occurrences(names: Seq<Name>, who: Name) -> nat
    decreases names.len(),
{
    if names.len() == 0 {
        0
    } else {
        occurrences(names.drop_last(), who) + if names.last() == who {
            1nat
        } else {
            0nat
        }
    }
}

/// The share of one listing: the amount divided by the number of listings,
/// rounded down.
pub open spec fn share(p: PaymentView) -> int {
    p.amount as int / p.beneficiaries.len() as int
}

/// What the division into shares leaves over.
pub open spec fn remainder(p: PaymentView) -> int {
    p.amount as int % p.beneficiaries.len() as int
}

/// What a payment with beneficiaries charges `who`: one share per listing,
/// and the remainder as well if `who` is the beneficiary listed last.
pub open spec fn charge(p: PaymentView, who: Name) -> int {
    share(p) * occurrences(p.beneficiaries, who) + if p.beneficiaries.last() == who {
        remainder(p)
    } else {
        0
    }
}

/// What a payment credits its payer, seen from `who`.
pub open spec fn credit(p: PaymentView, who: Name) -> int {
    if p.payer == who {
        p.amount as int
    } else {
        0
    }
}

/// By how much one payment changes the balance of `who`.
pub open spec fn effect(p: PaymentView, who: Name) -> int {
    if p.beneficiaries.len() == 0 {
        0
    } else {
        credit(p, who) - charge(p, who)
    }
}

/// The net balance of `who` over all payments: positive when `who` is owed
/// money, negative when `who` owes.
pub open spec fn balance(payments: Seq<PaymentView>, who: Name) -> int
    decreases payments.len(),
{
    if payments.len() == 0 {
        0
    } else {
        balance(payments.drop_last(), who) + effect(payments.last(), who)
    }
}

/// `names`, with `who` added at the end unless already present.
pub open spec fn enroll(names: Seq<Name>, who: Name) -> Seq<Name> {
    if names.contains(who) {
        names
    } else {
        names.push(who)
    }
}

/// `names`, with each of `newcomers` enrolled in turn.
pub open spec fn enroll_all(names: Seq<Name>, newcomers: Seq<Name>) -> Seq<Name>
    decreases newcomers.len(),
{
    if newcomers.len() == 0 {
        names
    } else {
        enroll(enroll_all(names, newcomers.drop_last()), newcomers.last())
    }
}

/// The participants in order of first appearance: for each payment with
/// beneficiaries, the payer first and then the beneficiaries as listed.
pub open spec fn roster(payments: Seq<PaymentView>) -> Seq<Name>
    decreases payments.len(),
{
    if payments.len() == 0 {
        Seq::empty()
    } else if payments.last().beneficiaries.len() == 0 {
        roster(payments.drop_last())
    } else {
        enroll_all(
            enroll(roster(payments.drop_last()), payments.last().payer),
            payments.last().beneficiaries,
        )
    }
}

/// [`balance`] as a function of the participant.
pub open spec fn balances(payments: Seq<PaymentView>) -> spec_fn(Name) -> int {
    |who: Name| balance(payments, who)
}

/// The amounts of all payments with beneficiaries, in all.
pub open spec fn volume(payments: Seq<PaymentView>) -> nat
    decreases payments.len(),
{
    if payments.len() == 0 {
        0
    } else {
        volume(payments.drop_last()) + if payments.last().beneficiaries.len() == 0 {
            0
        } else {
            payments.last().amount
        }
    }
}

/// Who is not listed is listed no times.
pub proof fn lemma_occurrences_absent(names: Seq<Name>, who: Name)
    requires
        !names.contains(who),
    ensures
        occurrences(names, who) == 0,
    decreases names.len(),
{
    if names.len() > 0 {
        assert(names[names.len() - 1] != who);
        assert forall|i: int| 0 <= i < names.drop_last().len() implies names.drop_last()[i]
            != who by {
            assert(names.drop_last()[i] == names[i]);
        }
        lemma_occurrences_absent(names.drop_last(), who);
    }
}

/// Enrolling newcomers adds them, and nobody else, and lists nobody twice.
pub proof fn lemma_enroll_all(names: Seq<Name>, newcomers: Seq<Name>)
    ensures
        forall|who: Name|
            enroll_all(names, newcomers).contains(who) <==> names.contains(who)
                || newcomers.contains(who),
        names.no_duplicates() ==> enroll_all(names, newcomers).no_duplicates(),
    decreases newcomers.len(),
{
    if newcomers.len() > 0 {
        let earlier = enroll_all(names, newcomers.drop_last());
        let last = newcomers.last();
        let all = enroll_all(names, newcomers);
        lemma_enroll_all(names, newcomers.drop_last());
        assert forall|who: Name| all.contains(who) <==> names.contains(who) || newcomers.contains(
            who,
        ) by {
            if newcomers.contains(who) {
                let i = choose|i: int| 0 <= i < newcomers.len() && newcomers[i] == who;
                if i < newcomers.len() - 1 {
                    assert(newcomers.drop_last()[i] == who);
                }
            }
            if newcomers.drop_last().contains(who) {
                let i = choose|i: int|
                    0 <= i < newcomers.drop_last().len() && newcomers.drop_last()[i] == who;
                assert(newcomers[i] == who);
            }
            assert(newcomers[newcomers.len() - 1] == last);
            if !earlier.contains(last) {
                lemma_push_contains(earlier, last, who);
            }
        }
    }
}

/// A list with `last` added holds what it held, and `last`.
proof fn lemma_push_contains(names: Seq<Name>, last: Name, who: Name)
    ensures
        names.push(last).contains(who) <==> names.contains(who) || who == last,
{
    let all = names.push(last);
    if names.contains(who) {
        let i = choose|i: int| 0 <= i < names.len() && names[i] == who;
        assert(all[i] == who);
    }
    if who == last {
        assert(all[names.len() as int] == who);
    }
}

/// What a roster holds: whoever was on it before the last payment and, if
/// that payment has beneficiaries, its payer and its beneficiaries. Nobody
/// is on it twice.
pub proof fn lemma_roster(payments: Seq<PaymentView>)
    ensures
        roster(payments).no_duplicates(),
        payments.len() > 0 ==> forall|who: Name|
            roster(payments).contains(who) <==> roster(payments.drop_last()).contains(who) || (
            payments.last().beneficiaries.len() > 0 && (who == payments.last().payer
                || payments.last().beneficiaries.contains(who))),
    decreases payments.len(),
{
    if payments.len() > 0 {
        let before = roster(payments.drop_last());
        let p = payments.last();
        lemma_roster(payments.drop_last());
        if p.beneficiaries.len() > 0 {
            let with_payer = enroll(before, p.payer);
            lemma_enroll_all(with_payer, p.beneficiaries);
            assert forall|who: Name|
                with_payer.contains(who) <==> before.contains(who) || who == p.payer by {
                if !before.contains(p.payer) {
                    lemma_push_contains(before, p.payer, who);
                }
            }
        }
    }
}

/// Who is not on the roster has a balance of zero.
pub proof fn lemma_outsider(payments: Seq<PaymentView>, who: Name)
    requires
        !roster(payments).contains(who),
    ensures
        balance(payments, who) == 0,
    decreases payments.len(),
{
    if payments.len() > 0 {
        let p = payments.last();
        lemma_roster(payments);
        lemma_outsider(payments.drop_last(), who);
        if p.beneficiaries.len() > 0 {
            lemma_occurrences_absent(p.beneficiaries, who);
            assert(p.beneficiaries[p.beneficiaries.len() - 1] == p.beneficiaries.last());
            assert(share(p) * 0 == 0);
        }
    }
}

/// Nobody is listed more often than the list is long.
pub proof fn lemma_occurrences_bounded(names: Seq<Name>, who: Name)
    ensures
        occurrences(names, who) <= names.len(),
    decreases names.len(),
{
    if names.len() > 0 {
        lemma_occurrences_bounded(names.drop_last(), who);
    }
}

/// The shares of the first `j` of `n` listings never exceed the amount.
pub proof fn lemma_shares_bounded(amount: int, n: int, j: int, k: int)
    requires
        0 <= amount,
        0 <= k <= j <= n,
        0 < n,
    ensures
        0 <= (amount / n) * k <= (amount / n) * j <= amount - amount % n,
        amount == (amount / n) * n + amount % n,
        0 <= amount % n < n,
        0 <= amount / n,
{
    vstd::arithmetic::div_mod::lemma_fundamental_div_mod(amount, n);
    vstd::arithmetic::div_mod::lemma_div_pos_is_pos(amount, n);
    vstd::arithmetic::div_mod::lemma_mod_bound(amount, n);
    let share = amount / n;
    assert(n * share == share * n) by (nonlinear_arith);
    assert(share * k <= share * j) by (nonlinear_arith)
        requires
            0 <= share,
            k <= j,
    ;
    assert(share * j <= share * n) by (nonlinear_arith)
        requires
            0 <= share,
            j <= n,
    ;
    assert(0 <= share * k) by (nonlinear_arith)
        requires
            0 <= share,
            0 <= k,
    ;
}

/// A payment changes no balance by more than its amount.
pub proof fn lemma_effect_bounded(p: PaymentView, who: Name)
    ensures
        -(p.amount as int) <= effect(p, who) <= p.amount,
{
    if p.beneficiaries.len() > 0 {
        let n = p.beneficiaries.len() as int;
        lemma_occurrences_bounded(p.beneficiaries, who);
        lemma_shares_bounded(p.amount as int, n, n, occurrences(p.beneficiaries, who) as int);
    }
}

/// No balance is more than the payments amount to in all, owed or owing.
pub proof fn lemma_balance_bounded(payments: Seq<PaymentView>, who: Name)
    ensures
        -(volume(payments) as int) <= balance(payments, who) <= volume(payments),
    decreases payments.len(),
{
    if payments.len() > 0 {
        lemma_balance_bounded(payments.drop_last(), who);
        lemma_effect_bounded(payments.last(), who);
    }
}

} // verus!
