//! Settling shared expenses.
//!
//! A [`Payment`](entity::payment::Payment) records that one person fronted an
//! amount on behalf of some beneficiaries. [`solve`](solver::solve) turns a
//! list of payments into the [`Repayment`](entity::repayment::Repayment)s
//! that bring everyone back to zero:
//!
//! 1. Each participant's [balance](balance::balance) is what they fronted
//!    less what they were charged. A payment charges every listing among its
//!    beneficiaries one share, the amount divided by the number of listings
//!    and rounded down; what the division leaves over is charged to the
//!    beneficiary listed last. A payment without beneficiaries counts for
//!    nothing.
//! 2. Those with a positive balance, the creditors, and those with a
//!    negative one, the debtors, are each put in the
//!    [order of settlement](ranking::outranks): the larger amount first, and
//!    of two equal amounts the earlier name.
//! 3. The first creditor is [matched](matching::matched) against the first
//!    debtor: the smaller of their two open amounts changes hands, whoever is
//!    settled leaves, and the other stays in front with what remains.
//! 4. The repayments are put in [order](arrangement::parties_before) of
//!    payer and, for one payer, of payee.
//!
//! Names are ordered character by character, by code point.
//!
//! What holds of every result is stated in [`laws`]: the balances come to
//! zero, the repayments settle them all, none goes from a person to
//! themselves, none is of nothing, and neither the order of the payments nor
//! a payment that counts for nothing changes the result.

pub mod arrangement;
pub mod balance;
pub mod conservation;
pub mod entity;
pub mod laws;
pub mod ledger;
pub mod matching;
pub mod order;
pub mod ranking;
pub mod settlement;
pub mod solver;
pub mod sums;
