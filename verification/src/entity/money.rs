//! Amounts of money.

use vstd::prelude::*;

verus! {

/// An amount in the smallest currency unit. Never negative.
#[derive(Debug, Clone, Copy, PartialEq, Eq, Structural)]
pub struct Money {
    pub amount: u32,
}

impl View for Money {
    type V = nat;

    open spec fn view(&self) -> nat {
        self.amount as nat
    }
}

impl Money {
    /// The given amount of money.
    pub fn new(amount: u32) -> (money: Self)
        ensures
            money.amount == amount,
    {
        Self { amount }
    }

    /// The amount, in the smallest unit of the currency.
    pub fn as_inner(&self) -> (amount: u32)
        ensures
            amount == self.amount,
    {
        self.amount
    }
}

} // verus!
