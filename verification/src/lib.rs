//! A proportional revenue-splitting ledger.
//!
//! Incoming value of a token is apportioned across shareholders by fixed
//! basis-point weights, each shareholder's claimable allocation is tracked
//! until withdrawn, and the administrator may move only what no shareholder
//! has a claim on. Every operation is verified against a contract stated over
//! the mathematical view of the stored state.

pub mod contract;
pub mod errors;
pub mod execute;
pub mod invariants;
pub mod math;
pub mod storage;
