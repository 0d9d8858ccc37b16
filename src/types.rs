use vstd::prelude::*;

verus! {

/// An account of the ledger.
pub type AccountId = u64;

/// The identifier of a fungible asset.
pub type AssetId = u64;

/// An amount of some asset.
pub type Balance = u64;

/// A point in time, as the ledger's clock reports it.
pub type Moment = u64;

/// The 160-bit external identifier of an investment opportunity.
pub type InvestmentId = [u8; 20];

} // verus!
