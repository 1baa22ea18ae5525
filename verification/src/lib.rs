//! A target-allocation engine for rebalancing an investment portfolio.
//!
//! The portfolio is a tree of asset groups and priced instruments.  The engine
//! computes a target value for every node so that holdings move toward the
//! configured weights while respecting hard restrictions (blocked buying or
//! selling, minimum tradeable amounts, whole-lot trades for priced
//! instruments) and conserving the total exactly.
//!
//! Monetary amounts are fixed-point integers counted in the smallest currency
//! unit; weights are fractions expressed in parts per million.  All arithmetic
//! is exact integer arithmetic, so every rounding step is deterministic and
//! stated in the contracts.

pub mod analyse;
pub mod asset_allocation;
pub mod rebalancing;
pub mod rounding;
