//! Repayments: who pays how much to whom.

use super::money::Money;
use super::person::{Name, Person};
use vstd::prelude::*;

verus! {

/// One transfer of a settlement: `from` pays `money` to `to`.
#[derive(Debug)]
pub struct Repayment {
    money: Money,
    from: Person,
    to: Person,
}

/// A repayment as contracts see it.
pub struct Transfer {
    pub amount: nat,
    pub from: Name,
    pub to: Name,
}

impl View for Repayment {
    type V = Transfer;

    closed spec fn view(&self) -> Transfer {
        Transfer { amount: self.money@, from: self.from@, to: self.to@ }
    }
}

impl DeepView for Repayment {
    type V = Transfer;

    open spec fn deep_view(&self) -> Transfer {
        self@
    }
}

impl Clone for Repayment {
    /// A repayment of the same amount between the same two.
    fn clone(&self) -> (copy: Self)
        ensures
            copy@ == self@,
    {
        Repayment { money: self.money, from: self.from.clone(), to: self.to.clone() }
    }
}

impl PartialEq for Repayment {
    /// Whether amount, payer and payee are the same.
    fn eq(&self, other: &Self) -> (same: bool) {
        self.money == other.money && self.from == other.from && self.to == other.to
    }
}

impl Eq for Repayment {

}

impl vstd::std_specs::cmp::PartialEqSpecImpl for Repayment {
    open spec fn obeys_eq_spec() -> bool {
        true
    }

    open spec fn eq_spec(&self, other: &Self) -> bool {
        self@ == other@
    }
}

impl Repayment {
    /// The repayment of `money` by `from` to `to`.
    pub fn new(money: Money, from: Person, to: Person) -> (repayment: Self)
        ensures
            repayment@ == (Transfer { amount: money@, from: from@, to: to@ }),
    {
        Self { money, from, to }
    }

    /// The amount to pay.
    pub fn money(&self) -> (money: &Money)
        ensures
            money@ == self@.amount,
    {
        &self.money
    }

    /// Who pays.
    pub fn from(&self) -> (payer: &Person)
        ensures
            payer@ == self@.from,
    {
        &self.from
    }

    /// Who is paid.
    pub fn to(&self) -> (payee: &Person)
        ensures
            payee@ == self@.to,
    {
        &self.to
    }
}

} // verus!
