//! Creditors and debtors, each side in the order in which it is settled:
//! the larger amount first, and of two equal amounts the earlier name.

use crate::entity::money::Money;
use crate::entity::person::{
    lemma_name_before_connected, lemma_name_before_irreflexive, lemma_name_before_transitive,
    name_before, Name, Person,
};
use crate::ledger::{
    held, held_by, lemma_held_absent, lemma_held_present, names_of, one_entry_each, within, Entry,
    Ledger,
};
use crate::order::{
    lemma_insert_contains, lemma_insert_keeps_order, lemma_order_determines, lemma_place_exists,
};
use crate::sums::{lemma_sum_of_push, sum_of};
use vstd::prelude::*;
use vstd::relations::sorted_by;

verus! {

/// A participant with an open amount: what a creditor is still owed, or what
/// a debtor still owes.
#[derive(Debug)]
pub struct Position {
    person: Person,
    magnitude: Money,
}

/// A position as contracts see it.
pub struct PositionView {
    pub name: Name,
    pub magnitude: nat,
}

impl View for Position {
    type V = PositionView;

    closed spec fn view(&self) -> PositionView {
        PositionView { name: self.person@, magnitude: self.magnitude@ }
    }
}

impl DeepView for Position {
    type V = PositionView;

    open spec fn deep_view(&self) -> PositionView {
        self@
    }
}

impl Clone for Position {
    /// The same participant with the same amount open.
    fn clone(&self) -> (copy: Self)
        ensures
            copy@ == self@,
    {
        Position { person: self.person.clone(), magnitude: self.magnitude }
    }
}

impl PartialEq for Position {
    /// Whether participant and amount are the same.
    fn eq(&self, other: &Self) -> (same: bool) {
        self.person == other.person && self.magnitude == other.magnitude
    }
}

impl Eq for Position {

}

impl vstd::std_specs::cmp::PartialEqSpecImpl for Position {
    open spec fn obeys_eq_spec() -> bool {
        true
    }

    open spec fn eq_spec(&self, other: &Self) -> bool {
        self@ == other@
    }
}

impl Position {
    /// The position of `person` with `magnitude` open.
    pub fn new(person: Person, magnitude: Money) -> (position: Self)
        ensures
            position@ == (PositionView { name: person@, magnitude: magnitude@ }),
    {
        Self { person, magnitude }
    }

    /// Whose position it is.
    pub fn person(&self) -> (person: &Person)
        ensures
            person@ == self@.name,
    {
        &self.person
    }

    /// The amount open.
    pub fn magnitude(&self) -> (magnitude: &Money)
        ensures
            magnitude@ == self@.magnitude,
    {
        &self.magnitude
    }

    /// Whether this position is settled before the other.
    pub fn outranks(&self, other: &Position) -> (first: bool)
        ensures
            first == outranks(self@, other@),
    {
        let mine = self.magnitude.as_inner();
        let theirs = other.magnitude.as_inner();
        mine > theirs || (mine == theirs && self.person.precedes(&other.person))
    }
}

/// The order of settlement: `a` is settled before `b` when its amount is
/// larger or, the amounts being equal, its name comes first.
pub open spec fn outranks(a: PositionView, b: PositionView) -> bool {
    a.magnitude > b.magnitude || (a.magnitude == b.magnitude && name_before(a.name, b.name))
}

/// [`outranks`] as a relation.
pub open spec fn by_rank() -> spec_fn(PositionView, PositionView) -> bool {
    |a: PositionView, b: PositionView| outranks(a, b)
}

/// The positions stand in the order of settlement, each before all that
/// follow it.
pub open spec fn ranked(positions: Seq<PositionView>) -> bool {
    sorted_by(positions, by_rank())
}

/// `positions` lists, in the order of settlement, exactly those who are
/// owed something under `owed`, each with the amount owed.
pub open spec fn is_ranking(positions: Seq<PositionView>, owed: spec_fn(Name) -> int) -> bool {
    &&& ranked(positions)
    &&& forall|p: PositionView| #[trigger]
        positions.contains(p) <==> p.magnitude > 0 && owed(p.name) == p.magnitude
}

/// What each owes under `owed`: what they are owed, negated.
pub open spec fn negated(owed: spec_fn(Name) -> int) -> spec_fn(Name) -> int {
    |who: Name| -owed(who)
}

/// The ranking of those who are owed something under `owed`. There is at most
/// one ([`lemma_ranking_unique`]).
pub open spec fn ranking(owed: spec_fn(Name) -> int) -> Seq<PositionView> {
    choose|positions: Seq<PositionView>| is_ranking(positions, owed)
}

/// What each is owed under `owed`, counting as nothing what is owed by them.
pub open spec fn gains(owed: spec_fn(Name) -> int) -> spec_fn(Name) -> int {
    |who: Name|
        if owed(who) > 0 {
            owed(who)
        } else {
            0
        }
}

/// Every position has something open.
pub open spec fn all_open(positions: Seq<PositionView>) -> bool {
    forall|i: int| 0 <= i < positions.len() ==> (#[trigger] positions[i]).magnitude > 0
}

/// The sum of all open amounts.
pub open spec fn total_of(positions: Seq<PositionView>) -> nat
    decreases positions.len(),
{
    if positions.len() == 0 {
        0
    } else {
        positions[0].magnitude + total_of(positions.drop_first())
    }
}

/// What `who` has open among the positions, in all.
pub open spec fn open_for(positions: Seq<PositionView>, who: Name) -> nat
    decreases positions.len(),
{
    if positions.len() == 0 {
        0
    } else {
        open_for(positions.drop_first(), who) + if positions[0].name == who {
            positions[0].magnitude
        } else {
            0
        }
    }
}

/// The names of the positions, in order.
pub open spec fn names_in(positions: Seq<PositionView>) -> Seq<Name> {
    positions.map_values(|p: PositionView| p.name)
}

/// No position outranks itself.
pub proof fn lemma_outranks_irreflexive(a: PositionView)
    ensures
        !outranks(a, a),
{
    lemma_name_before_irreflexive(a.name);
}

/// What outranks a position outranks all that the position outranks.
pub proof fn lemma_outranks_transitive(a: PositionView, b: PositionView, c: PositionView)
    requires
        outranks(a, b),
        outranks(b, c),
    ensures
        outranks(a, c),
{
    if a.magnitude == b.magnitude && b.magnitude == c.magnitude {
        lemma_name_before_transitive(a.name, b.name, c.name);
    }
}

/// Of two positions of different participants, one outranks the other.
pub proof fn lemma_outranks_connected(a: PositionView, b: PositionView)
    requires
        a.name != b.name,
    ensures
        outranks(a, b) || outranks(b, a),
{
    lemma_name_before_connected(a.name, b.name);
}

/// Two rankings under the same `owed` are the same.
pub proof fn lemma_ranking_unique(
    a: Seq<PositionView>,
    b: Seq<PositionView>,
    owed: spec_fn(Name) -> int,
)
    requires
        is_ranking(a, owed),
        is_ranking(b, owed),
    ensures
        a == b,
        a == ranking(owed),
{
    assert forall|x: PositionView| !(#[trigger] by_rank()(x, x)) by {
        lemma_outranks_irreflexive(x);
    }
    assert forall|x: PositionView, y: PositionView, z: PositionView| #[trigger]
        by_rank()(x, y) && #[trigger] by_rank()(y, z) implies by_rank()(x, z) by {
        lemma_outranks_transitive(x, y, z);
    }
    lemma_order_determines(a, b, by_rank());
    lemma_order_determines(a, ranking(owed), by_rank());
}

/// A ranking has one position for each participant in it, and every
/// position in it has something open.
pub proof fn lemma_ranking_one_each(positions: Seq<PositionView>, owed: spec_fn(Name) -> int)
    requires
        is_ranking(positions, owed),
    ensures
        names_in(positions).no_duplicates(),
        all_open(positions),
{
    assert forall|i: int| 0 <= i < positions.len() implies (#[trigger] positions[i]).magnitude
        > 0 by {
        assert(positions.contains(positions[i]));
    }
    assert forall|i: int, j: int|
        0 <= i < positions.len() && 0 <= j < positions.len() && i != j implies names_in(
        positions,
    )[i] != names_in(positions)[j] by {
        assert(positions.contains(positions[i]));
        assert(positions.contains(positions[j]));
        if positions[i].name == positions[j].name {
            assert(positions[i] == positions[j]);
            lemma_outranks_irreflexive(positions[i]);
            if i < j {
                assert(by_rank()(positions[i], positions[j]));
            } else {
                assert(by_rank()(positions[j], positions[i]));
            }
        }
    }
}

/// Who has no position has nothing open.
proof fn lemma_open_for_absent(positions: Seq<PositionView>, who: Name)
    requires
        !names_in(positions).contains(who),
    ensures
        open_for(positions, who) == 0,
    decreases positions.len(),
{
    if positions.len() > 0 {
        assert(names_in(positions)[0] == positions[0].name);
        assert forall|i: int| 0 <= i < positions.len() - 1 implies names_in(
            positions.drop_first(),
        )[i] != who by {
            assert(names_in(positions)[i + 1] == positions.drop_first()[i].name);
        }
        lemma_open_for_absent(positions.drop_first(), who);
    }
}

/// Where nobody has two positions, each has open what their position says.
proof fn lemma_open_for_present(positions: Seq<PositionView>, i: int)
    requires
        names_in(positions).no_duplicates(),
        0 <= i < positions.len(),
    ensures
        open_for(positions, positions[i].name) == positions[i].magnitude,
    decreases positions.len(),
{
    let rest = positions.drop_first();
    if i == 0 {
        assert forall|j: int| 0 <= j < rest.len() implies names_in(rest)[j]
            != positions[0].name by {
            assert(names_in(positions)[j + 1] != names_in(positions)[0]);
        }
        lemma_open_for_absent(rest, positions[0].name);
    } else {
        assert(names_in(positions)[i] != names_in(positions)[0]);
        assert forall|a: int, b: int|
            0 <= a < rest.len() && 0 <= b < rest.len() && a != b implies names_in(rest)[a]
            != names_in(rest)[b] by {
            assert(names_in(positions)[a + 1] != names_in(positions)[b + 1]);
        }
        lemma_open_for_present(rest, i - 1);
    }
}

/// In a ranking, each has open what they are owed, and whoever is owed
/// nothing has nothing open.
pub proof fn lemma_ranking_open_for(
    positions: Seq<PositionView>,
    owed: spec_fn(Name) -> int,
    who: Name,
)
    requires
        is_ranking(positions, owed),
    ensures
        open_for(positions, who) == if owed(who) > 0 {
            owed(who)
        } else {
            0
        },
{
    lemma_ranking_one_each(positions, owed);
    if owed(who) > 0 {
        let p = PositionView { name: who, magnitude: owed(who) as nat };
        assert(positions.contains(p));
        let i = choose|i: int| 0 <= i < positions.len() && positions[i] == p;
        lemma_open_for_present(positions, i);
    } else {
        if names_in(positions).contains(who) {
            let i = choose|i: int| 0 <= i < positions.len() && names_in(positions)[i] == who;
            assert(positions.contains(positions[i]));
        }
        lemma_open_for_absent(positions, who);
    }
}

/// A position put in adds its amount to what is open in all.
proof fn lemma_total_of_insert(positions: Seq<PositionView>, k: int, p: PositionView)
    requires
        0 <= k <= positions.len(),
    ensures
        total_of(positions.insert(k, p)) == total_of(positions) + p.magnitude,
    decreases k,
{
    let t = positions.insert(k, p);
    if k == 0 {
        assert(t.drop_first() =~= positions);
    } else {
        assert(t.drop_first() =~= positions.drop_first().insert(k - 1, p));
        assert(t[0] == positions[0]);
        lemma_total_of_insert(positions.drop_first(), k - 1, p);
    }
}

/// `positions` lists, in the order of settlement, exactly those of `names`
/// who are owed something under `owed`, each with the amount owed.
spec fn is_ranking_among(
    positions: Seq<PositionView>,
    owed: spec_fn(Name) -> int,
    names: Seq<Name>,
) -> bool {
    &&& ranked(positions)
    &&& forall|p: PositionView| #[trigger]
        positions.contains(p) <==> p.magnitude > 0 && owed(p.name) == p.magnitude
            && names.contains(p.name)
}

/// Those of `names` who are owed something have a ranking, and it holds in
/// all what they are owed.
proof fn lemma_ranking_among(owed: spec_fn(Name) -> int, names: Seq<Name>) -> (positions: Seq<
    PositionView,
>)
    requires
        names.no_duplicates(),
    ensures
        is_ranking_among(positions, owed, names),
        total_of(positions) == sum_of(names, gains(owed)),
    decreases names.len(),
{
    if names.len() == 0 {
        let positions = Seq::<PositionView>::empty();
        assert forall|p: PositionView| #[trigger]
            positions.contains(p) <==> p.magnitude > 0 && owed(p.name) == p.magnitude
                && names.contains(p.name) by {}
        positions
    } else {
        let earlier = names.drop_last();
        let last = names.last();
        let ranked_earlier = lemma_ranking_among(owed, earlier);
        lemma_sum_of_push(earlier, last, gains(owed));
        assert(earlier.push(last) =~= names);
        assert(names[names.len() - 1] == last);
        assert forall|who: Name| names.contains(who) <==> earlier.contains(who) || who == last by {
            if names.contains(who) {
                let i = choose|i: int| 0 <= i < names.len() && names[i] == who;
                if i < names.len() - 1 {
                    assert(earlier[i] == who);
                }
            }
            if earlier.contains(who) {
                let i = choose|i: int| 0 <= i < earlier.len() && earlier[i] == who;
                assert(names[i] == who);
            }
        }
        assert(!earlier.contains(last)) by {
            if earlier.contains(last) {
                let i = choose|i: int| 0 <= i < earlier.len() && earlier[i] == last;
                assert(names[i] == names[names.len() - 1]);
            }
        }
        if owed(last) > 0 {
            let item = PositionView { name: last, magnitude: owed(last) as nat };
            assert forall|x: PositionView, y: PositionView, z: PositionView| #[trigger]
                by_rank()(x, y) && #[trigger] by_rank()(y, z) implies by_rank()(x, z) by {
                lemma_outranks_transitive(x, y, z);
            }
            assert forall|i: int| 0 <= i < ranked_earlier.len() implies by_rank()(
                #[trigger] ranked_earlier[i],
                item,
            ) || by_rank()(item, ranked_earlier[i]) by {
                assert(ranked_earlier.contains(ranked_earlier[i]));
                lemma_outranks_connected(ranked_earlier[i], item);
            }
            let k = lemma_place_exists(ranked_earlier, item, by_rank());
            lemma_insert_keeps_order(ranked_earlier, k, item, by_rank());
            lemma_total_of_insert(ranked_earlier, k, item);
            let positions = ranked_earlier.insert(k, item);
            assert forall|p: PositionView| #[trigger]
                positions.contains(p) <==> p.magnitude > 0 && owed(p.name) == p.magnitude
                    && names.contains(p.name) by {
                lemma_insert_contains(ranked_earlier, k, item, p);
            }
            positions
        } else {
            ranked_earlier
        }
    }
}

/// Where all who are owed something under `owed` are among finitely many
/// names, they have a ranking, and it holds in all what they are owed.
pub proof fn lemma_ranking_exists(owed: spec_fn(Name) -> int, names: Seq<Name>)
    requires
        names.no_duplicates(),
        forall|who: Name| owed(who) > 0 ==> names.contains(who),
    ensures
        is_ranking(ranking(owed), owed),
        total_of(ranking(owed)) == sum_of(names, gains(owed)),
{
    let positions = lemma_ranking_among(owed, names);
    assert(is_ranking(positions, owed));
    lemma_ranking_unique(positions, positions, owed);
}

/// Puts `item` in its place among `positions`, and returns that place.
fn insert_ranked(positions: &mut Vec<Position>, item: Position) -> (place: usize)
    requires
        ranked(old(positions).deep_view()),
        forall|i: int|
            0 <= i < old(positions).len() ==> (#[trigger] old(positions).deep_view()[i]).name
                != item@.name,
    ensures
        place <= old(positions).len(),
        final(positions).deep_view() == old(positions).deep_view().insert(place as int, item@),
        ranked(final(positions).deep_view()),
{
    let ghost before = positions.deep_view();
    let mut low: usize = 0;
    let mut high: usize = positions.len();
    while low < high
        invariant
            0 <= low <= high <= positions.len(),
            before == positions.deep_view(),
            ranked(before),
            forall|i: int| 0 <= i < before.len() ==> (#[trigger] before[i]).name != item@.name,
            forall|i: int| 0 <= i < low ==> outranks(#[trigger] before[i], item@),
            forall|i: int| high <= i < before.len() ==> outranks(item@, #[trigger] before[i]),
        decreases high - low,
    {
        let middle = low + (high - low) / 2;
        if positions[middle].outranks(&item) {
            proof {
                assert forall|i: int| 0 <= i < middle + 1 implies outranks(
                    #[trigger] before[i],
                    item@,
                ) by {
                    if i < middle {
                        assert(by_rank()(before[i], before[middle as int]));
                        lemma_outranks_transitive(before[i], before[middle as int], item@);
                    }
                }
            }
            low = middle + 1;
        } else {
            proof {
                assert(before[middle as int].name != item@.name);
                lemma_outranks_connected(item@, before[middle as int]);
                assert forall|i: int| middle <= i < before.len() implies outranks(
                    item@,
                    #[trigger] before[i],
                ) by {
                    if i > middle {
                        assert(by_rank()(before[middle as int], before[i]));
                        lemma_outranks_transitive(item@, before[middle as int], before[i]);
                    }
                }
            }
            high = middle;
        }
    }
    proof {
        lemma_insert_keeps_order(before, low as int, item@, by_rank());
    }
    positions.insert(low, item);
    proof {
        assert(positions.deep_view() =~= before.insert(low as int, item@));
    }
    low
}

/// The two sides of a ledger: those with a positive balance, the creditors,
/// and those with a negative one, the debtors, each side in the order of
/// settlement. Who stands at zero is on neither side.
pub fn rank(ledger: &Ledger) -> (sides: (Vec<Position>, Vec<Position>))
    requires
        within(ledger@, u32::MAX as int),
    ensures
        is_ranking(sides.0.deep_view(), held_by(ledger@)),
        is_ranking(sides.1.deep_view(), negated(held_by(ledger@))),
{
    let mut creditors: Vec<Position> = Vec::new();
    let mut debtors: Vec<Position> = Vec::new();
    let n = ledger.len();
    let mut k: usize = 0;
    proof {
        assert(ledger@.take(0) =~= Seq::<Entry>::empty());
    }
    while k < n
        invariant
            0 <= k <= n == ledger@.len(),
            one_entry_each(ledger@),
            within(ledger@, u32::MAX as int),
            ranked(creditors.deep_view()),
            ranked(debtors.deep_view()),
            forall|p: PositionView| #[trigger]
                creditors.deep_view().contains(p) <==> p.magnitude > 0 && held(
                    ledger@.take(k as int),
                    p.name,
                ) == p.magnitude,
            forall|p: PositionView| #[trigger]
                debtors.deep_view().contains(p) <==> p.magnitude > 0 && -held(
                    ledger@.take(k as int),
                    p.name,
                ) == p.magnitude,
        decreases n - k,
    {
        let who = ledger.person(k);
        let balance = ledger.balance(k);
        let ghost seen = ledger@.take(k as int);
        let ghost next = ledger@.take(k + 1);
        let ghost cs = creditors.deep_view();
        let ghost ds = debtors.deep_view();
        proof {
            assert(next.drop_last() =~= seen);
            assert(next.last() == ledger@[k as int]);
            assert forall|i: int| 0 <= i < seen.len() implies names_of(seen)[i] != who@ by {
                assert(seen[i] == ledger@[i]);
            }
            lemma_held_absent(seen, who@);
            lemma_held_present(ledger@, k as int);
            assert forall|i: int| 0 <= i < cs.len() implies cs[i].name != who@ by {
                assert(cs.contains(cs[i]));
            }
            assert forall|i: int| 0 <= i < ds.len() implies ds[i].name != who@ by {
                assert(ds.contains(ds[i]));
            }
        }
        if balance > 0 {
            let item = Position::new(who.clone(), Money::new(balance as u32));
            let place = insert_ranked(&mut creditors, item);
            proof {
                assert forall|p: PositionView| #[trigger]
                    creditors.deep_view().contains(p) <==> p.magnitude > 0 && held(next, p.name)
                        == p.magnitude by {
                    lemma_insert_contains(cs, place as int, item@, p);
                }
            }
        } else if balance < 0 {
            let item = Position::new(who.clone(), Money::new((-balance) as u32));
            let place = insert_ranked(&mut debtors, item);
            proof {
                assert forall|p: PositionView| #[trigger]
                    debtors.deep_view().contains(p) <==> p.magnitude > 0 && -held(next, p.name)
                        == p.magnitude by {
                    lemma_insert_contains(ds, place as int, item@, p);
                }
            }
        }
        k += 1;
    }
    proof {
        assert(ledger@.take(n as int) =~= ledger@);
    }
    (creditors, debtors)
}

} // verus!
