//! A device-reordering interception layer for a graphics API's
//! instance-creation call chain.
//!
//! The crate holds the verified core of the layer: rule evaluation and
//! configuration data, the per-instance dispatch registry, the chain-walking
//! bootstrap decision, and the device-list transformation engine with its
//! two-call buffer-size contract.

pub mod chain;
pub mod config;
pub mod devices;
pub mod dispatch;
pub mod status;
