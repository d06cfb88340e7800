//! The order of the result: transfers by payer and, for one payer, by payee.

use crate::entity::person::{
    lemma_name_before_connected, lemma_name_before_irreflexive, lemma_name_before_transitive,
    name_before,
};
use crate::entity::repayment::{Repayment, Transfer};
use crate::matching::parties_differ;
use crate::order::{lemma_insert_keeps_order, lemma_order_determines};
use vstd::prelude::*;
use vstd::relations::{irreflexive, sorted_by, transitive};
use vstd::seq_lib::{to_multiset_build, to_multiset_contains, to_multiset_insert};

verus! {

/// The order of the result: by payer and, for one payer, by payee.
pub open spec fn parties_before(a: Transfer, b: Transfer) -> bool {
    name_before(a.from, b.from) || (a.from == b.from && name_before(a.to, b.to))
}

/// [`parties_before`] as a relation.
pub open spec fn by_parties() -> spec_fn(Transfer, Transfer) -> bool {
    |a: Transfer, b: Transfer| parties_before(a, b)
}

/// The transfers stand in order of payer and payee, each before all that
/// follow it.
pub open spec fn in_order(transfers: Seq<Transfer>) -> bool {
    sorted_by(transfers, by_parties())
}

/// The same transfers in order of payer and payee. There is at most one such
/// arrangement ([`lemma_arranged_unique`]).
pub open spec fn arranged(transfers: Seq<Transfer>) -> Seq<Transfer> {
    choose|result: Seq<Transfer>|
        in_order(result) && result.to_multiset() == transfers.to_multiset()
}

/// The order of the result is strict: no transfer stands before itself, and
/// what stands before a transfer stands before all that follow it.
pub proof fn lemma_by_parties_strict()
    ensures
        irreflexive(by_parties()),
        transitive(by_parties()),
{
    assert forall|x: Transfer| !(#[trigger] by_parties()(x, x)) by {
        lemma_name_before_irreflexive(x.from);
        lemma_name_before_irreflexive(x.to);
    }
    assert forall|x: Transfer, y: Transfer, z: Transfer| #[trigger]
        by_parties()(x, y) && #[trigger] by_parties()(y, z) implies by_parties()(x, z) by {
        if name_before(x.from, y.from) && name_before(y.from, z.from) {
            lemma_name_before_transitive(x.from, y.from, z.from);
        }
        if x.from == y.from && y.from == z.from {
            lemma_name_before_irreflexive(x.from);
            lemma_name_before_transitive(x.to, y.to, z.to);
        }
    }
}

/// Two arrangements of the same transfers are the same.
pub proof fn lemma_arranged_unique(a: Seq<Transfer>, b: Seq<Transfer>, transfers: Seq<Transfer>)
    requires
        in_order(a),
        in_order(b),
        a.to_multiset() == transfers.to_multiset(),
        b.to_multiset() == transfers.to_multiset(),
    ensures
        a == b,
        a == arranged(transfers),
{
    lemma_by_parties_strict();
    assert forall|x: Transfer| a.contains(x) <==> b.contains(x) by {
        to_multiset_contains(a, x);
        to_multiset_contains(b, x);
    }
    lemma_order_determines(a, b, by_parties());
    let c = arranged(transfers);
    assert forall|x: Transfer| a.contains(x) <==> c.contains(x) by {
        to_multiset_contains(a, x);
        to_multiset_contains(c, x);
    }
    lemma_order_determines(a, c, by_parties());
}

/// Whether `a` stands before `b` in the order of the result.
fn stands_before(a: &Repayment, b: &Repayment) -> (first: bool)
    ensures
        first == parties_before(a@, b@),
{
    a.from().precedes(b.from()) || (*a.from() == *b.from() && a.to().precedes(b.to()))
}

/// Puts `item` in its place among `repayments`, and returns that place.
fn insert_in_order(repayments: &mut Vec<Repayment>, item: Repayment) -> (place: usize)
    requires
        in_order(old(repayments).deep_view()),
        forall|i: int|
            0 <= i < old(repayments).len() ==> (#[trigger] old(repayments).deep_view()[i]).from
                != item@.from || old(repayments).deep_view()[i].to != item@.to,
    ensures
        place <= old(repayments).len(),
        final(repayments).deep_view() == old(repayments).deep_view().insert(place as int, item@),
        in_order(final(repayments).deep_view()),
{
    let ghost before = repayments.deep_view();
    let mut low: usize = 0;
    let mut high: usize = repayments.len();
    proof {
        lemma_by_parties_strict();
    }
    while low < high
        invariant
            0 <= low <= high <= repayments.len(),
            before == repayments.deep_view(),
            in_order(before),
            transitive(by_parties()),
            forall|i: int|
                0 <= i < before.len() ==> (#[trigger] before[i]).from != item@.from || before[i].to
                    != item@.to,
            forall|i: int| 0 <= i < low ==> parties_before(#[trigger] before[i], item@),
            forall|i: int| high <= i < before.len() ==> parties_before(item@, #[trigger] before[i]),
        decreases high - low,
    {
        let middle = low + (high - low) / 2;
        let ghost pivot = before[middle as int];
        if stands_before(&repayments[middle], &item) {
            proof {
                assert forall|i: int| 0 <= i < middle + 1 implies parties_before(
                    #[trigger] before[i],
                    item@,
                ) by {
                    if i < middle {
                        assert(by_parties()(before[i], pivot) && by_parties()(pivot, item@));
                    }
                }
            }
            low = middle + 1;
        } else {
            proof {
                if pivot.from != item@.from {
                    lemma_name_before_connected(item@.from, pivot.from);
                } else {
                    lemma_name_before_connected(item@.to, pivot.to);
                }
                assert forall|i: int| middle <= i < before.len() implies parties_before(
                    item@,
                    #[trigger] before[i],
                ) by {
                    if i > middle {
                        assert(by_parties()(item@, pivot) && by_parties()(pivot, before[i]));
                    }
                }
            }
            high = middle;
        }
    }
    proof {
        lemma_insert_keeps_order(before, low as int, item@, by_parties());
    }
    repayments.insert(low, item);
    proof {
        assert(repayments.deep_view() =~= before.insert(low as int, item@));
    }
    low
}

/// The same repayments in order of payer and payee.
pub(crate) fn arrange(repayments: Vec<Repayment>) -> (result: Vec<Repayment>)
    requires
        parties_differ(repayments.deep_view()),
    ensures
        in_order(result.deep_view()),
        result.deep_view().to_multiset() == repayments.deep_view().to_multiset(),
{
    let ghost all = repayments.deep_view();
    let mut rest = repayments;
    let mut result: Vec<Repayment> = Vec::new();
    proof {
        broadcast use vstd::seq_lib::group_to_multiset_ensures;

        assert(result.deep_view() =~= Seq::<Transfer>::empty());
        assert(rest.deep_view() =~= all.take(rest.len() as int));
        assert(result.deep_view().to_multiset().add(all.to_multiset()) =~= all.to_multiset());
    }
    while rest.len() > 0
        invariant
            rest.deep_view() == all.take(rest.len() as int),
            rest.len() <= all.len(),
            parties_differ(all),
            in_order(result.deep_view()),
            result.deep_view().to_multiset().add(rest.deep_view().to_multiset())
                == all.to_multiset(),
            forall|i: int|
                0 <= i < result.len() ==> exists|j: int|
                    rest.len() <= j < all.len() && all[j] == #[trigger] result.deep_view()[i],
        decreases rest.len(),
    {
        let ghost ordered = result.deep_view();
        let ghost waiting = rest.deep_view();
        let ghost m = rest.len() - 1;
        let item = rest.pop().unwrap();
        proof {
            assert(waiting[m] == item@);
            assert(item@ == all[m]);
            assert(rest.deep_view() =~= all.take(m));
            assert(waiting =~= rest.deep_view().push(item@));
            assert forall|i: int| 0 <= i < ordered.len() implies (#[trigger] ordered[i]).from
                != item@.from || ordered[i].to != item@.to by {
                let j = choose|j: int| m < j < all.len() && all[j] == ordered[i];
                assert(all[m].from != all[j].from || all[m].to != all[j].to);
            }
        }
        let place = insert_in_order(&mut result, item);
        proof {
            ordered.insert_ensures(place as int, item@);
            to_multiset_insert(ordered, place as int, item@);
            to_multiset_build(rest.deep_view(), item@);
            assert(result.deep_view().to_multiset().add(rest.deep_view().to_multiset())
                =~= ordered.to_multiset().add(waiting.to_multiset()));
            assert forall|i: int| 0 <= i < result.len() implies exists|j: int|
                rest.len() <= j < all.len() && all[j] == #[trigger] result.deep_view()[i] by {
                if i < place {
                    assert(result.deep_view()[i] == ordered[i]);
                    let j = choose|j: int| m < j < all.len() && all[j] == ordered[i];
                    assert(rest.len() <= j < all.len() && all[j] == result.deep_view()[i]);
                } else if i == place {
                    assert(all[m] == result.deep_view()[i]);
                } else {
                    assert(result.deep_view()[i] == ordered[i - 1]);
                    let j = choose|j: int| m < j < all.len() && all[j] == ordered[i - 1];
                    assert(rest.len() <= j < all.len() && all[j] == result.deep_view()[i]);
                }
            }
        }
    }
    proof {
        broadcast use vstd::seq_lib::group_to_multiset_ensures;

        assert(rest.deep_view() =~= Seq::<Transfer>::empty());
        assert(result.deep_view().to_multiset().add(rest.deep_view().to_multiset())
            =~= result.deep_view().to_multiset());
    }
    result
}

} // verus!
