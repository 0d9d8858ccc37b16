//! Lifecycle engine for token-sale campaigns: creation with escrowed shares,
//! investment up to a hard cap, and settlement by pro-rata distribution or refund.
//!
//! - `ledger`: balances of every account in every denomination, with exact transfers.
//! - `asset`: an asset value that moves itself between accounts.
//! - `escrow`: the escrow account of a campaign, derived from its identifier.
//! - `prorata`: the rounded-down part of a share owed to one investment.
//! - `crowdfunding`: campaign records, contributions and the hard-cap clamp.
//! - `settlement`: refunds, pro-rata distribution and the closing sweep of an escrow.
//! - `platform`: the campaigns with their guarded transitions.
//! - `scheduler`: the transitions that time makes due.

pub mod types;
pub mod ledger;
pub mod asset;
pub mod escrow;
pub mod prorata;
pub mod crowdfunding;
pub mod settlement;
pub mod platform;
pub mod scheduler;
