//! Verified core of a bilateral escrow service.
//!
//! Two parties exchange distinct classes of digital assets through a neutral
//! custodial holding account (the vault) whose release is governed by
//! deterministic rules. The library models the account-based ledger the
//! operations run against, and proves the custody invariants: conservation of
//! every asset's supply, single resolution of each escrow, maker-only
//! cancellation, and exact overflow-checked settlement arithmetic.

pub mod amm;
pub mod errors;
pub mod escrow;
pub mod ledger;
pub mod pda;
pub mod settlement;

use vstd::prelude::*;

verus! {

/// Basis-points denominator: 10000 bps is 100%.
pub const BPS_DENOMINATOR: u64 = 10000;

} // verus!
