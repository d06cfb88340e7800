//! Payments: who fronted how much, and on whose behalf.

use super::money::Money;
use super::person::{Name, Person};
use vstd::prelude::*;

verus! {

/// One shared expense: `from` fronted `money` on behalf of the persons in
/// `to`. The payer may be among them, and a person may be listed more than
/// once: each listing is one share.
#[derive(Debug)]
pub struct Payment {
    money: Money,
    from: Person,
    to: Vec<Person>,
}

/// A payment as contracts see it.
pub struct PaymentView {
    pub amount: nat,
    pub payer: Name,
    pub beneficiaries: Seq<Name>,
}

impl View for Payment {
    type V = PaymentView;

    closed spec fn view(&self) -> PaymentView {
        PaymentView {
            amount: self.money@,
            payer: self.from@,
            beneficiaries: self.to.deep_view(),
        }
    }
}

impl DeepView for Payment {
    type V = PaymentView;

    open spec fn deep_view(&self) -> PaymentView {
        self@
    }
}

impl Clone for Payment {
    /// A payment of the same amount, by the same payer, for the same
    /// beneficiaries.
    fn clone(&self) -> (copy: Self)
        ensures
            copy@ == self@,
    {
        let copy = Payment { money: self.money, from: self.from.clone(), to: self.to.clone() };
        proof {
            assert(copy.to.deep_view() =~= self.to.deep_view());
        }
        copy
    }
}

impl PartialEq for Payment {
    /// Whether amount, payer and beneficiaries are the same, the
    /// beneficiaries as listed.
    fn eq(&self, other: &Self) -> (same: bool) {
        if self.money != other.money || self.from != other.from || self.to.len()
            != other.to.len() {
            proof {
                if self.to.len() != other.to.len() {
                    assert(self.to.deep_view().len() != other.to.deep_view().len());
                }
            }
            return false;
        }
        let mut i: usize = 0;
        while i < self.to.len()
            invariant
                0 <= i <= self.to.len() == other.to.len(),
                forall|k: int| 0 <= k < i ==> self.to[k]@ == other.to[k]@,
            decreases self.to.len() - i,
        {
            if self.to[i] != other.to[i] {
                proof {
                    assert(self.to.deep_view()[i as int] != other.to.deep_view()[i as int]);
                }
                return false;
            }
            i += 1;
        }
        proof {
            assert(self.to.deep_view() =~= other.to.deep_view());
        }
        true
    }
}

impl Eq for Payment {

}

impl vstd::std_specs::cmp::PartialEqSpecImpl for Payment {
    open spec fn obeys_eq_spec() -> bool {
        true
    }

    open spec fn eq_spec(&self, other: &Self) -> bool {
        self@ == other@
    }
}

impl Payment {
    /// The payment of `money` by `from` on behalf of the persons in `to`.
    pub fn new(money: Money, from: Person, to: Vec<Person>) -> (payment: Self)
        ensures
            payment@ == (PaymentView {
                amount: money@,
                payer: from@,
                beneficiaries: to.deep_view(),
            }),
    {
        Self { money, from, to }
    }

    /// The amount fronted.
    pub fn money(&self) -> (money: &Money)
        ensures
            money@ == self@.amount,
    {
        &self.money
    }

    /// Who fronted the amount.
    pub fn from(&self) -> (payer: &Person)
        ensures
            payer@ == self@.payer,
    {
        &self.from
    }

    /// On whose behalf the amount was fronted, as listed.
    pub fn to(&self) -> (beneficiaries: &Vec<Person>)
        ensures
            beneficiaries.deep_view() == self@.beneficiaries,
    {
        &self.to
    }
}

} // verus!
