//! The data model: amounts, participants, payments and repayments.

pub mod money;
pub mod payment;
pub mod person;
pub mod repayment;
