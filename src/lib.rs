//! Label-setting solver for the elementary shortest path problem with
//! resource constraints, as used for pricing in column generation.
pub mod oracle;
pub mod label;
pub mod pool;
pub mod route;
pub mod solve;
