//! Ingestion-and-orchestration core for a trading-bot status reporter.
//!
//! The library holds the verified heart of the system: an append-only,
//! newline-delimited snapshot store with indexed head/tail reads, the
//! per-entity polling/dedup engine, balance merging and chart aggregation,
//! and the pure conversions between wire shapes and internal records.
//! Network, file and chat I/O live outside, in the surrounding application.

pub mod backend_api;
pub mod bot;
pub mod bot_balance;
pub mod bot_cache;
pub mod bot_name;
pub mod codec;
pub mod config;
pub mod dec;
pub mod jsonl_cache;
pub mod polling;
pub mod profit_chart;
pub mod trade;
pub mod text;

pub use polling::DedupState;
