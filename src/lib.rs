//! Latency survey of a catalog of endpoints: the decisions of probing, the
//! geolocation cache, the correction of country attribution and the per-country
//! latency report, each stated and proved over a mathematical model.
//!
//! Round-trip times are whole nanoseconds throughout.
pub mod catalog;
pub mod geo;
pub mod groups;
pub mod ordering;
pub mod probe;
pub mod report;
pub mod stats;
