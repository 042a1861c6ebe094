//! Error taxonomy of the escrow core.
//!
//! Every operation either succeeds in full or aborts with one of these named
//! errors; no partial state is ever committed.

use vstd::prelude::*;

verus! {

/// Why an escrow or settlement operation was refused.
#[derive(Clone, Copy, Debug, PartialEq, Eq, Structural)]
pub enum EscrowError {
    /// The caller lacks the required capability (e.g. a non-maker refund).
    Unauthorized,
    /// A balance is below the required amount.
    InsufficientFunds,
    /// Checked arithmetic would overflow; amounts are never wrapped.
    ArithmeticOverflow,
    /// Checked subtraction would underflow; amounts are never wrapped.
    ArithmeticUnderflow,
    /// Creation targets an address that is already occupied.
    AlreadyExists,
    /// The targeted escrow or vault is missing or already resolved.
    NotFound,
    /// An account is in a state the operation cannot accept.
    AccountStateMismatch,
}

} // verus!
