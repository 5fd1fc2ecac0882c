//! A collateralised lending engine: asset registry, pool and account ledgers,
//! a utilisation-based interest model, collateral valuation, health checks,
//! liquidation and the pro-rata distribution of earnings.
//!
//! Every amount is an unsigned integer; every ratio is an integer scaled by
//! `math::RATIO_ONE`; a price is value units per whole token, with one
//! dollar worth `10^math::PRICE_DECIMALS` units. Users and assets are known
//! by the bytes of their principals; an asset is addressed by its index.
//!
//! Token transfers, price feeds and caller identity belong to the host. For
//! an operation that moves tokens the host calls the matching `validate_*`
//! function, performs the transfer, and then commits with the operation
//! itself, which checks again against the ledger as it stands at that moment
//! and changes nothing when it refuses.
pub mod math;
pub mod types;
pub mod risk;
pub mod ledger;
pub mod ops;
pub mod earnings;
pub mod liquidation;
pub mod admin;
pub mod interest;
pub mod subaccount;
pub mod laws;
