//! Dynamic-programming tools and the shared error type.

use vstd::prelude::*;

pub mod calc_dp_2;
pub mod optimality;
pub mod table_score;

verus! {

/// Error produced by the calculation tools in this crate: a single kind
/// carrying a human-readable message.
#[derive(Debug, Clone)]
pub struct CalcDpError {
    pub message: String,
}

} // verus!
