//! Splits shared monetary costs across participants with cent-level
//! precision. All amounts are integer counts of the smallest currency
//! unit (cents), so conservation of every pool is exact: the sum of the
//! allocations handed out always equals the amount that was divided.

pub mod amounts;
pub mod expense;
pub mod rounding;
pub mod split;
pub mod upserting;
pub mod user;
