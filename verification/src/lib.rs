//! Aggregation of live order-book depth from multiple cryptocurrency
//! exchanges for one trading pair.
//!
//! The crate holds the aggregation pipeline's logic: the per-exchange
//! codecs that turn raw depth snapshots into normalized updates, the
//! feed lifecycle state machine, and the cross-exchange merge that
//! produces the published top-N summary.  Network transport, metrics
//! and configuration loading live outside the library and talk to it
//! through plain values.

pub mod app_config;
pub mod decimal;
pub mod exchange;
pub mod json;
pub mod orderbook;
pub mod orderbook_aggregator;
pub mod orderbook_data;
