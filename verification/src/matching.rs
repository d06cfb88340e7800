//! Matching creditors against debtors, the first of each side in turn.
//!
//! The first creditor receives from the first debtor the smaller of their
//! two open amounts. Whoever is thereby settled leaves; the other stays in
//! front with what remains open.

use crate::entity::person::Name;
use crate::entity::repayment::Transfer;
use crate::ranking::{all_open, names_in, open_for, total_of, PositionView};
use crate::sums::{lemma_sum_of_permutation, sum_of};
use vstd::prelude::*;

verus! {

/// The positions after the first of them has been paid `amount`: it leaves
/// when nothing remains open, and else stays in front with the rest.
pub open spec fn after_paying(positions: Seq<PositionView>, amount: nat) -> Seq<PositionView> {
    if positions[0].magnitude == amount {
        positions.drop_first()
    } else {
        positions.update(
            0,
            PositionView {
                name: positions[0].name,
                magnitude: (positions[0].magnitude - amount) as nat,
            },
        )
    }
}

/// The smaller of two amounts.
pub open spec fn smaller(a: nat, b: nat) -> nat {
    if a <= b {
        a
    } else {
        b
    }
}

/// The transfers that match creditors against debtors, in the order in which
/// they are made. Matching ends when one side is empty, and before a
/// transfer of nothing.
pub open spec fn matched(creditors: Seq<PositionView>, debtors: Seq<PositionView>) -> Seq<
    Transfer,
>
    decreases creditors.len() + debtors.len(),
{
    if creditors.len() == 0 || debtors.len() == 0 {
        Seq::empty()
    } else {
        let amount = smaller(creditors[0].magnitude, debtors[0].magnitude);
        if amount == 0 {
            Seq::empty()
        } else {
            seq![Transfer { amount, from: debtors[0].name, to: creditors[0].name }] + matched(
                after_paying(creditors, amount),
                after_paying(debtors, amount),
            )
        }
    }
}

/// What `who` receives from the transfers, in all.
pub open spec fn received(transfers: Seq<Transfer>, who: Name) -> nat
    decreases transfers.len(),
{
    if transfers.len() == 0 {
        0
    } else {
        received(transfers.drop_first(), who) + if transfers[0].to == who {
            transfers[0].amount
        } else {
            0
        }
    }
}

/// What `who` pays in the transfers, in all.
pub open spec fn paid(transfers: Seq<Transfer>, who: Name) -> nat
    decreases transfers.len(),
{
    if transfers.len() == 0 {
        0
    } else {
        paid(transfers.drop_first(), who) + if transfers[0].from == who {
            transfers[0].amount
        } else {
            0
        }
    }
}

/// The limit on the number of transfers: none where a side is empty, and
/// else one less than there are positions.
pub open spec fn most_transfers(creditors: nat, debtors: nat) -> nat {
    if creditors == 0 || debtors == 0 {
        0
    } else {
        (creditors + debtors - 1) as nat
    }
}

/// No two of the transfers have both the payer and the payee in common.
pub open spec fn parties_differ(transfers: Seq<Transfer>) -> bool {
    forall|k: int, l: int|
        0 <= k < l < transfers.len() ==> (#[trigger] transfers[k]).from != (
        #[trigger] transfers[l]).from || transfers[k].to != transfers[l].to
}

/// Every transfer made in matching moves something.
pub proof fn lemma_matched_amounts_positive(
    creditors: Seq<PositionView>,
    debtors: Seq<PositionView>,
)
    ensures
        forall|k: int|
            0 <= k < matched(creditors, debtors).len() ==> (#[trigger] matched(
                creditors,
                debtors,
            )[k]).amount > 0,
    decreases creditors.len() + debtors.len(),
{
    if creditors.len() > 0 && debtors.len() > 0 {
        let amount = smaller(creditors[0].magnitude, debtors[0].magnitude);
        if amount > 0 {
            let all = matched(creditors, debtors);
            let rest = matched(after_paying(creditors, amount), after_paying(debtors, amount));
            lemma_matched_amounts_positive(
                after_paying(creditors, amount),
                after_paying(debtors, amount),
            );
            assert forall|k: int| 0 <= k < all.len() implies (#[trigger] all[k]).amount > 0 by {
                if k > 0 {
                    assert(all[k] == rest[k - 1]);
                }
            }
        }
    }
}

/// Matching makes fewer transfers than there are positions.
pub proof fn lemma_matched_len(creditors: Seq<PositionView>, debtors: Seq<PositionView>)
    ensures
        matched(creditors, debtors).len() <= most_transfers(creditors.len(), debtors.len()),
    decreases creditors.len() + debtors.len(),
{
    if creditors.len() > 0 && debtors.len() > 0 {
        let amount = smaller(creditors[0].magnitude, debtors[0].magnitude);
        if amount > 0 {
            lemma_matched_len(after_paying(creditors, amount), after_paying(debtors, amount));
        }
    }
}

/// Paying the first position changes no name; where it leaves, the names
/// that follow are what is left.
proof fn lemma_after_paying_names(positions: Seq<PositionView>, amount: nat)
    requires
        positions.len() > 0,
    ensures
        names_in(after_paying(positions, amount)) == if positions[0].magnitude == amount {
            names_in(positions).drop_first()
        } else {
            names_in(positions)
        },
        names_in(positions).no_duplicates() ==> names_in(
            after_paying(positions, amount),
        ).no_duplicates(),
        names_in(positions).no_duplicates() && positions[0].magnitude == amount ==> !names_in(
            after_paying(positions, amount),
        ).contains(positions[0].name),
{
    let names = names_in(positions);
    if positions[0].magnitude == amount {
        assert(names_in(after_paying(positions, amount)) =~= names.drop_first());
        if names.no_duplicates() {
            assert forall|i: int| 0 <= i < names.drop_first().len() implies names.drop_first()[i]
                != positions[0].name by {
                assert(names[i + 1] != names[0]);
            }
        }
    } else {
        assert(names_in(after_paying(positions, amount)) =~= names);
    }
}

/// Whoever has a position after the first was paid had one before.
proof fn lemma_after_paying_introduces_nobody(
    positions: Seq<PositionView>,
    amount: nat,
    who: Name,
)
    requires
        positions.len() > 0,
        names_in(after_paying(positions, amount)).contains(who),
    ensures
        names_in(positions).contains(who),
{
    let names = names_in(positions);
    let next = names_in(after_paying(positions, amount));
    lemma_after_paying_names(positions, amount);
    let i = choose|i: int| 0 <= i < next.len() && next[i] == who;
    if positions[0].magnitude == amount {
        assert(names[i + 1] == who);
    } else {
        assert(names[i] == who);
    }
}

/// In every transfer made in matching, a debtor pays a creditor.
pub proof fn lemma_matched_parties(creditors: Seq<PositionView>, debtors: Seq<PositionView>)
    ensures
        forall|k: int|
            0 <= k < matched(creditors, debtors).len() ==> names_in(creditors).contains(
                (#[trigger] matched(creditors, debtors)[k]).to,
            ) && names_in(debtors).contains(matched(creditors, debtors)[k].from),
    decreases creditors.len() + debtors.len(),
{
    if creditors.len() > 0 && debtors.len() > 0 {
        let amount = smaller(creditors[0].magnitude, debtors[0].magnitude);
        if amount > 0 {
            let next_creditors = after_paying(creditors, amount);
            let next_debtors = after_paying(debtors, amount);
            let all = matched(creditors, debtors);
            let rest = matched(next_creditors, next_debtors);
            lemma_matched_parties(next_creditors, next_debtors);
            lemma_after_paying_names(creditors, amount);
            lemma_after_paying_names(debtors, amount);
            assert(names_in(creditors)[0] == creditors[0].name);
            assert(names_in(debtors)[0] == debtors[0].name);
            assert forall|k: int| 0 <= k < all.len() implies names_in(creditors).contains(
                (#[trigger] all[k]).to,
            ) && names_in(debtors).contains(all[k].from) by {
                if k > 0 {
                    assert(all[k] == rest[k - 1]);
                    lemma_after_paying_introduces_nobody(creditors, amount, rest[k - 1].to);
                    lemma_after_paying_introduces_nobody(debtors, amount, rest[k - 1].from);
                }
            }
        }
    }
}

/// Where no participant has two positions on a side, no two transfers made
/// in matching have both the payer and the payee in common.
pub proof fn lemma_matched_parties_differ(
    creditors: Seq<PositionView>,
    debtors: Seq<PositionView>,
)
    requires
        names_in(creditors).no_duplicates(),
        names_in(debtors).no_duplicates(),
    ensures
        parties_differ(matched(creditors, debtors)),
    decreases creditors.len() + debtors.len(),
{
    if creditors.len() > 0 && debtors.len() > 0 {
        let amount = smaller(creditors[0].magnitude, debtors[0].magnitude);
        if amount > 0 {
            let next_creditors = after_paying(creditors, amount);
            let next_debtors = after_paying(debtors, amount);
            let all = matched(creditors, debtors);
            let rest = matched(next_creditors, next_debtors);
            lemma_after_paying_names(creditors, amount);
            lemma_after_paying_names(debtors, amount);
            lemma_matched_parties_differ(next_creditors, next_debtors);
            lemma_matched_parties(next_creditors, next_debtors);
            assert(names_in(creditors)[0] == creditors[0].name);
            assert(names_in(debtors)[0] == debtors[0].name);
            assert forall|k: int, l: int| 0 <= k < l < all.len() implies (#[trigger] all[k]).from
                != (#[trigger] all[l]).from || all[k].to != all[l].to by {
                if k == 0 {
                    assert(all[l] == rest[l - 1]);
                    assert(names_in(next_creditors).contains(rest[l - 1].to));
                    assert(names_in(next_debtors).contains(rest[l - 1].from));
                } else {
                    assert(all[k] == rest[k - 1]);
                    assert(all[l] == rest[l - 1]);
                }
            }
        }
    }
}

/// Paying the first position takes the amount off what is open in all, and
/// off what its participant has open; every position left has something
/// open.
proof fn lemma_after_paying_totals(positions: Seq<PositionView>, amount: nat, who: Name)
    requires
        positions.len() > 0,
        all_open(positions),
        0 < amount <= positions[0].magnitude,
    ensures
        all_open(after_paying(positions, amount)),
        total_of(after_paying(positions, amount)) == total_of(positions) - amount,
        open_for(after_paying(positions, amount), who) == open_for(positions, who)
            - if positions[0].name == who {
            amount
        } else {
            0
        },
{
    let next = after_paying(positions, amount);
    if positions[0].magnitude == amount {
        assert forall|i: int| 0 <= i < next.len() implies (#[trigger] next[i]).magnitude > 0 by {
            assert(next[i] == positions[i + 1]);
        }
    } else {
        assert(next.drop_first() =~= positions.drop_first());
        assert forall|i: int| 0 <= i < next.len() implies (#[trigger] next[i]).magnitude > 0 by {
            if i > 0 {
                assert(next[i] == positions[i]);
            }
        }
    }
}

/// Where both sides have as much open in all, matching settles everyone:
/// each receives what they had open as a creditor and pays what they had
/// open as a debtor.
pub proof fn lemma_matched_settles(
    creditors: Seq<PositionView>,
    debtors: Seq<PositionView>,
    who: Name,
)
    requires
        all_open(creditors),
        all_open(debtors),
        total_of(creditors) == total_of(debtors),
    ensures
        received(matched(creditors, debtors), who) == open_for(creditors, who),
        paid(matched(creditors, debtors), who) == open_for(debtors, who),
    decreases creditors.len() + debtors.len(),
{
    if creditors.len() == 0 {
        if debtors.len() > 0 {
            assert(debtors[0].magnitude > 0);
        }
    } else if debtors.len() == 0 {
        assert(creditors[0].magnitude > 0);
    } else {
        let amount = smaller(creditors[0].magnitude, debtors[0].magnitude);
        assert(creditors[0].magnitude > 0 && debtors[0].magnitude > 0);
        let next_creditors = after_paying(creditors, amount);
        let next_debtors = after_paying(debtors, amount);
        lemma_after_paying_totals(creditors, amount, who);
        lemma_after_paying_totals(debtors, amount, who);
        lemma_matched_settles(next_creditors, next_debtors, who);
        let first = Transfer { amount, from: debtors[0].name, to: creditors[0].name };
        let rest = matched(next_creditors, next_debtors);
        assert((seq![first] + rest).drop_first() =~= rest);
    }
}

/// What `who` receives from the transfers, as a sum of weights.
proof fn lemma_received_is_sum(transfers: Seq<Transfer>, who: Name)
    ensures
        received(transfers, who) == sum_of(
            transfers,
            |t: Transfer|
                if t.to == who {
                    t.amount as int
                } else {
                    0
                },
        ),
    decreases transfers.len(),
{
    if transfers.len() > 0 {
        lemma_received_is_sum(transfers.drop_first(), who);
    }
}

/// What `who` pays in the transfers, as a sum of weights.
proof fn lemma_paid_is_sum(transfers: Seq<Transfer>, who: Name)
    ensures
        paid(transfers, who) == sum_of(
            transfers,
            |t: Transfer|
                if t.from == who {
                    t.amount as int
                } else {
                    0
                },
        ),
    decreases transfers.len(),
{
    if transfers.len() > 0 {
        lemma_paid_is_sum(transfers.drop_first(), who);
    }
}

/// The order of the transfers changes nothing in what anyone receives or
/// pays.
pub proof fn lemma_transfers_rearranged(a: Seq<Transfer>, b: Seq<Transfer>, who: Name)
    requires
        a.to_multiset() == b.to_multiset(),
    ensures
        received(a, who) == received(b, who),
        paid(a, who) == paid(b, who),
{
    let to_who = |t: Transfer|
        if t.to == who {
            t.amount as int
        } else {
            0
        };
    let from_who = |t: Transfer|
        if t.from == who {
            t.amount as int
        } else {
            0
        };
    lemma_received_is_sum(a, who);
    lemma_received_is_sum(b, who);
    lemma_paid_is_sum(a, who);
    lemma_paid_is_sum(b, who);
    lemma_sum_of_permutation(a, b, to_who);
    lemma_sum_of_permutation(a, b, from_who);
}

} // verus!
