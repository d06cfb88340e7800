//! The balance ledger: one entry per participant, in order of first
//! appearance, with the balance that the payments give them.

use crate::balance::{
    balance, credit, effect, enroll, enroll_all, lemma_effect_bounded, lemma_occurrences_bounded,
    lemma_shares_bounded, occurrences, remainder, roster, share,
};
use crate::conservation::lemma_ledger_balanced;
use crate::entity::payment::{Payment, PaymentView};
use crate::entity::person::{Name, Person};
use vstd::hash_map::StringHashMap;
use vstd::prelude::*;

verus! {

/// One line of the ledger: a participant and their net balance.
pub struct Entry {
    pub name: Name,
    pub balance: int,
}

/// The ledger that the payments give: one entry per participant, in order of
/// first appearance.
pub open spec fn entries(payments: Seq<PaymentView>) -> Seq<Entry> {
    roster(payments).map_values(|who: Name| Entry { name: who, balance: balance(payments, who) })
}

/// The sum of all balances in a ledger.
pub open spec fn total(ledger: Seq<Entry>) -> int
    decreases ledger.len(),
{
    if ledger.len() == 0 {
        0
    } else {
        total(ledger.drop_last()) + ledger.last().balance
    }
}

/// The balance that a ledger holds for `who`: zero for whoever has no entry.
pub open spec fn held(ledger: Seq<Entry>, who: Name) -> int
    decreases ledger.len(),
{
    if ledger.len() == 0 {
        0
    } else if ledger.last().name == who {
        ledger.last().balance
    } else {
        held(ledger.drop_last(), who)
    }
}

/// The names of a ledger's entries, in order.
pub open spec fn names_of(ledger: Seq<Entry>) -> Seq<Name> {
    ledger.map_values(|e: Entry| e.name)
}

/// No two entries of the ledger name the same participant.
pub open spec fn one_entry_each(ledger: Seq<Entry>) -> bool {
    forall|i: int, j: int|
        0 <= i < j < ledger.len() ==> (#[trigger] ledger[i]).name != (#[trigger] ledger[j]).name
}

/// A ledger with an entry added holds that entry's balance for its
/// participant, and for the others what it held.
proof fn lemma_held_push(ledger: Seq<Entry>, e: Entry, who: Name)
    ensures
        held(ledger.push(e), who) == if e.name == who {
            e.balance
        } else {
            held(ledger, who)
        },
{
    assert(ledger.push(e).drop_last() =~= ledger);
}

/// Whoever has no entry is held at zero.
pub proof fn lemma_held_absent(ledger: Seq<Entry>, who: Name)
    requires
        !names_of(ledger).contains(who),
    ensures
        held(ledger, who) == 0,
    decreases ledger.len(),
{
    if ledger.len() > 0 {
        let last = ledger.len() - 1;
        assert(names_of(ledger)[last] == ledger.last().name);
        assert forall|i: int| 0 <= i < ledger.len() - 1 implies names_of(ledger.drop_last())[i]
            != who by {
            assert(names_of(ledger)[i] == ledger.drop_last()[i].name);
        }
        lemma_held_absent(ledger.drop_last(), who);
    }
}

/// Where each participant has one entry, the ledger holds for each the
/// balance of that entry.
pub proof fn lemma_held_present(ledger: Seq<Entry>, i: int)
    requires
        one_entry_each(ledger),
        0 <= i < ledger.len(),
    ensures
        held(ledger, ledger[i].name) == ledger[i].balance,
    decreases ledger.len(),
{
    if i < ledger.len() - 1 {
        assert(ledger[i].name != ledger[ledger.len() - 1].name);
        assert(ledger.drop_last()[i] == ledger[i]);
        assert forall|a: int, b: int| 0 <= a < b < ledger.len() - 1 implies (
        #[trigger] ledger.drop_last()[a]).name != (#[trigger] ledger.drop_last()[b]).name by {
            assert(ledger.drop_last()[a] == ledger[a]);
            assert(ledger.drop_last()[b] == ledger[b]);
        }
        lemma_held_present(ledger.drop_last(), i);
    }
}

/// A ledger with the balance of one entry changed holds the new balance for
/// that participant, and for the others what it held.
proof fn lemma_held_update(ledger: Seq<Entry>, i: int, e: Entry, who: Name)
    requires
        one_entry_each(ledger),
        0 <= i < ledger.len(),
        e.name == ledger[i].name,
    ensures
        held(ledger.update(i, e), who) == if e.name == who {
            e.balance
        } else {
            held(ledger, who)
        },
    decreases ledger.len(),
{
    let updated = ledger.update(i, e);
    let last = ledger.len() - 1;
    assert forall|a: int, b: int| 0 <= a < b < last implies (#[trigger] ledger.drop_last()[a]).name
        != (#[trigger] ledger.drop_last()[b]).name by {
        assert(ledger.drop_last()[a] == ledger[a]);
        assert(ledger.drop_last()[b] == ledger[b]);
    }
    if i == last {
        assert(updated.drop_last() =~= ledger.drop_last());
    } else {
        assert(updated.drop_last() =~= ledger.drop_last().update(i, e));
        assert(ledger[i].name != ledger[last].name);
        assert(ledger.drop_last()[i] == ledger[i]);
        lemma_held_update(ledger.drop_last(), i, e, who);
    }
}

/// [`held`] as a function of the participant.
pub open spec fn held_by(ledger: Seq<Entry>) -> spec_fn(Name) -> int {
    |who: Name| held(ledger, who)
}

/// Every balance that the ledger holds lies within `limit` of zero.
pub open spec fn within(ledger: Seq<Entry>, limit: int) -> bool {
    forall|who: Name| -limit <= #[trigger] held(ledger, who) <= limit
}

/// One listing more counts for the participant listed, and for nobody else.
proof fn lemma_occurrences_next(names: Seq<Name>, j: int, who: Name)
    requires
        0 <= j < names.len(),
    ensures
        occurrences(names.take(j + 1), who) == occurrences(names.take(j), who) + if names[j]
            == who {
            1nat
        } else {
            0nat
        },
{
    assert(names.take(j + 1).drop_last() =~= names.take(j));
}

/// Enrolling one newcomer more is enrolling the others first.
proof fn lemma_enroll_all_next(names: Seq<Name>, newcomers: Seq<Name>, j: int)
    requires
        0 <= j < newcomers.len(),
    ensures
        enroll_all(names, newcomers.take(j + 1)) == enroll(
            enroll_all(names, newcomers.take(j)),
            newcomers[j],
        ),
{
    assert(newcomers.take(j + 1).drop_last() =~= newcomers.take(j));
}

/// The balances of all participants. Built from payments by
/// [`Ledger::from_payments`]; read through its methods.
///
/// Balances are kept in 128 bits: whatever the payments, and however many,
/// no balance leaves that range, though it may well be more than any
/// [`Money`](crate::entity::money::Money).
pub struct Ledger {
    names: Vec<Person>,
    amounts: Vec<i128>,
    index: StringHashMap<usize>,
}

impl View for Ledger {
    type V = Seq<Entry>;

    closed spec fn view(&self) -> Seq<Entry> {
        Seq::new(
            self.names.len() as nat,
            |i: int| Entry { name: self.names[i]@, balance: self.amounts[i] as int },
        )
    }
}

impl Ledger {
    /// The index knows the place of every name, and of nothing else.
    #[verifier::type_invariant]
    spec fn coherent(&self) -> bool {
        &&& self.names.len() == self.amounts.len()
        &&& forall|i: int|
            0 <= i < self.names.len() ==> self.index@.contains_key(#[trigger] self.names[i]@)
                && self.index@[self.names[i]@] == i
        &&& forall|who: Name| #[trigger]
            self.index@.contains_key(who) ==> self.index@[who] < self.names.len()
                && self.names[self.index@[who] as int]@ == who
    }

    /// A ledger without entries.
    pub fn new() -> (ledger: Self)
        ensures
            ledger@ == Seq::<Entry>::empty(),
    {
        let ledger = Ledger { names: Vec::new(), amounts: Vec::new(), index: StringHashMap::new() };
        assert(ledger@ =~= Seq::<Entry>::empty());
        ledger
    }

    /// The number of entries. No two of them name the same participant.
    pub fn len(&self) -> (n: usize)
        ensures
            n == self@.len(),
            one_entry_each(self@),
    {
        proof {
            use_type_invariant(self);
        }
        self.names.len()
    }

    /// The participant of entry `i`.
    pub fn person(&self, i: usize) -> (who: &Person)
        requires
            i < self@.len(),
        ensures
            who@ == self@[i as int].name,
    {
        &self.names[i]
    }

    /// The balance of entry `i`.
    pub fn balance(&self, i: usize) -> (balance: i128)
        requires
            i < self@.len(),
        ensures
            balance == self@[i as int].balance,
    {
        proof {
            use_type_invariant(self);
        }
        self.amounts[i]
    }

    /// The balance of `who`: zero for whoever has no entry.
    pub fn balance_of(&self, who: &Person) -> (balance: i128)
        ensures
            balance == held(self@, who@),
    {
        proof {
            use_type_invariant(self);
            assert(one_entry_each(self@));
        }
        match self.index.get(who.as_inner().as_str()) {
            Some(place) => {
                proof {
                    lemma_held_present(self@, *place as int);
                }
                self.amounts[*place]
            },
            None => {
                proof {
                    assert forall|i: int| 0 <= i < self@.len() implies names_of(self@)[i]
                        != who@ by {
                        assert(self.index@.contains_key(self.names[i]@));
                    }
                    lemma_held_absent(self@, who@);
                }
                0
            },
        }
    }

    /// Whether every balance is an amount of money, owed or owing.
    pub fn fits_money(&self) -> (fits: bool)
        ensures
            fits == within(self@, u32::MAX as int),
    {
        proof {
            use_type_invariant(self);
            assert(one_entry_each(self@));
        }
        let mut i: usize = 0;
        while i < self.amounts.len()
            invariant
                0 <= i <= self.amounts.len() == self@.len(),
                one_entry_each(self@),
                forall|k: int|
                    0 <= k < i ==> -(u32::MAX as int) <= (#[trigger] self@[k]).balance
                        <= u32::MAX,
            decreases self.amounts.len() - i,
        {
            let b = self.amounts[i];
            if b > u32::MAX as i128 || b < -(u32::MAX as i128) {
                proof {
                    lemma_held_present(self@, i as int);
                }
                return false;
            }
            i += 1;
        }
        proof {
            assert forall|who: Name| -(u32::MAX as int) <= #[trigger] held(self@, who)
                <= u32::MAX by {
                if names_of(self@).contains(who) {
                    let k = choose|k: int| 0 <= k < self@.len() && names_of(self@)[k] == who;
                    lemma_held_present(self@, k);
                } else {
                    lemma_held_absent(self@, who);
                }
            }
        }
        true
    }

    /// Adds `delta` to the balance of `who`, whose entry is opened at zero if
    /// there is none yet.
    fn adjust(self, who: &Person, delta: i128) -> (next: Self)
        requires
            i128::MIN <= held(self@, who@) + delta <= i128::MAX,
        ensures
            names_of(next@) == enroll(names_of(self@), who@),
            forall|x: Name|
                held(next@, x) == #[trigger] held(self@, x) + if x == who@ {
                    delta as int
                } else {
                    0
                },
    {
        proof {
            use_type_invariant(&self);
            assert(one_entry_each(self@));
        }
        let ghost before = self@;
        let Ledger { mut names, mut amounts, mut index } = self;
        match index.get(who.as_inner().as_str()) {
            Some(place) => {
                let i = *place;
                proof {
                    lemma_held_present(before, i as int);
                }
                let sum = amounts[i] + delta;
                amounts.set(i, sum);
                let next = Ledger { names, amounts, index };
                proof {
                    let e = Entry { name: who@, balance: sum as int };
                    assert(next@ =~= before.update(i as int, e));
                    assert forall|x: Name|
                        held(next@, x) == #[trigger] held(before, x) + if x == who@ {
                            delta as int
                        } else {
                            0
                        } by {
                        lemma_held_update(before, i as int, e, x);
                    }
                    assert(names_of(before)[i as int] == who@);
                    assert(names_of(next@) =~= names_of(before));
                }
                next
            },
            None => {
                proof {
                    assert forall|i: int| 0 <= i < before.len() implies names_of(before)[i]
                        != who@ by {
                        assert(index@.contains_key(names[i]@));
                    }
                    lemma_held_absent(before, who@);
                }
                index.insert(who.as_inner().clone(), names.len());
                names.push(who.clone());
                amounts.push(delta);
                let next = Ledger { names, amounts, index };
                proof {
                    let e = Entry { name: who@, balance: delta as int };
                    assert(next@ =~= before.push(e));
                    assert forall|x: Name|
                        held(next@, x) == #[trigger] held(before, x) + if x == who@ {
                            delta as int
                        } else {
                            0
                        } by {
                        lemma_held_push(before, e, x);
                    }
                    assert(names_of(next@) =~= names_of(before).push(who@));
                }
                next
            },
        }
    }

    /// Takes one payment into account.
    fn record(self, payment: &Payment, Ghost(limit): Ghost<int>) -> (next: Self)
        requires
            within(self@, limit),
            0 <= limit <= i128::MAX - u32::MAX,
        ensures
            names_of(next@) == if payment@.beneficiaries.len() == 0 {
                names_of(self@)
            } else {
                enroll_all(enroll(names_of(self@), payment@.payer), payment@.beneficiaries)
            },
            forall|who: Name|
                held(next@, who) == #[trigger] held(self@, who) + effect(payment@, who),
            within(next@, limit + u32::MAX),
    {
        let beneficiaries = payment.to();
        let n = beneficiaries.len();
        if n == 0 {
            return self;
        }
        let ghost start = self@;
        let ghost p = payment@;
        let amount = payment.money().as_inner();
        let each = (amount as u64 / n as u64) as i128;
        let left_over = (amount as u64 % n as u64) as i128;
        proof {
            lemma_shares_bounded(amount as int, n as int, 0, 0);
            assert(held(start, p.payer) <= limit);
        }
        let mut ledger = self.adjust(payment.from(), amount as i128);
        let mut j: usize = 0;
        proof {
            assert(p.beneficiaries.take(0) =~= Seq::<Name>::empty());
        }
        while j < n
            invariant
                0 <= j <= n == beneficiaries.len(),
                0 < n,
                p == payment@,
                p.beneficiaries == beneficiaries.deep_view(),
                p.amount == amount,
                each == share(p),
                left_over == remainder(p),
                within(start, limit),
                0 <= limit <= i128::MAX - u32::MAX,
                names_of(ledger@) == enroll_all(
                    enroll(names_of(start), p.payer),
                    p.beneficiaries.take(j as int),
                ),
                forall|who: Name|
                    held(ledger@, who) == #[trigger] held(start, who) + credit(p, who) - each
                        * occurrences(p.beneficiaries.take(j as int), who) - if j == n
                        && p.beneficiaries.last() == who {
                        left_over as int
                    } else {
                        0
                    },
            decreases n - j,
        {
            let who = &beneficiaries[j];
            let due = if j == n - 1 {
                each + left_over
            } else {
                each
            };
            proof {
                let listed = occurrences(p.beneficiaries.take(j as int), who@);
                lemma_occurrences_bounded(p.beneficiaries.take(j as int), who@);
                lemma_shares_bounded(amount as int, n as int, j as int, listed as int);
                lemma_shares_bounded(amount as int, n as int, j as int + 1, j as int);
                assert(each * (j + 1) == each * j + each) by (nonlinear_arith);
                assert(-limit <= held(start, who@) <= limit);
                assert(who@ == p.beneficiaries[j as int]);
            }
            let ghost prev = ledger@;
            ledger = ledger.adjust(who, -due);
            proof {
                lemma_enroll_all_next(enroll(names_of(start), p.payer), p.beneficiaries, j as int);
                assert forall|x: Name|
                    held(ledger@, x) == #[trigger] held(start, x) + credit(p, x) - each
                        * occurrences(p.beneficiaries.take(j + 1), x) - if j + 1 == n
                        && p.beneficiaries.last() == x {
                        left_over as int
                    } else {
                        0
                    } by {
                    lemma_occurrences_next(p.beneficiaries, j as int, x);
                    let before = occurrences(p.beneficiaries.take(j as int), x);
                    assert(held(ledger@, x) == held(prev, x) + if x == who@ {
                        -due as int
                    } else {
                        0
                    });
                    assert(each * (before + 1) == each * before + each) by (nonlinear_arith);
                }
            }
            j += 1;
        }
        proof {
            assert(p.beneficiaries.take(n as int) =~= p.beneficiaries);
            assert forall|who: Name| -(limit + u32::MAX) <= #[trigger] held(ledger@, who) <= limit
                + u32::MAX by {
                lemma_effect_bounded(p, who);
                assert(-limit <= held(start, who) <= limit);
            }
        }
        ledger
    }

    /// The ledger of the given payments.
    pub fn from_payments(payments: &Vec<Payment>) -> (ledger: Self)
        ensures
            ledger@ == entries(payments.deep_view()),
            one_entry_each(ledger@),
            forall|who: Name| held(ledger@, who) == balance(payments.deep_view(), who),
            total(ledger@) == 0,
    {
        let ghost all = payments.deep_view();
        let mut ledger = Ledger::new();
        let mut k: usize = 0;
        proof {
            assert(all.take(0) =~= Seq::<PaymentView>::empty());
            assert(names_of(ledger@) =~= Seq::<Name>::empty());
        }
        while k < payments.len()
            invariant
                0 <= k <= payments.len(),
                all == payments.deep_view(),
                names_of(ledger@) == roster(all.take(k as int)),
                forall|who: Name| #[trigger] held(ledger@, who) == balance(all.take(k as int), who),
                within(ledger@, k * u32::MAX),
            decreases payments.len() - k,
        {
            proof {
                assert(all.take(k + 1).drop_last() =~= all.take(k as int));
                assert(all.take(k + 1).last() == payments[k as int]@);
            }
            let ghost prev = ledger@;
            ledger = ledger.record(&payments[k], Ghost(k * u32::MAX));
            proof {
                assert forall|who: Name| #[trigger]
                    held(ledger@, who) == balance(all.take(k + 1), who) by {
                    assert(held(ledger@, who) == held(prev, who) + effect(
                        payments[k as int]@,
                        who,
                    ));
                }
            }
            k += 1;
        }
        proof {
            use_type_invariant(&ledger);
            assert(all.take(k as int) =~= all);
            assert(one_entry_each(ledger@));
            assert forall|i: int| 0 <= i < ledger@.len() implies ledger@[i] == entries(all)[i] by {
                lemma_held_present(ledger@, i);
                assert(names_of(ledger@)[i] == ledger@[i].name);
            }
            assert(names_of(ledger@).len() == ledger@.len());
            assert(ledger@ =~= entries(all));
            lemma_ledger_balanced(all);
        }
        ledger
    }
}

} // verus!
