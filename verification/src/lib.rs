//! A local, continuously refreshed time-series cache of tag values mirrored
//! from a remote historian database.
//!
//! Narrow readings (tag, timestamp, value) pulled from the remote source are
//! reshaped into a wide, one-row-per-timestamp layout with one column per tag.
//! The crate holds the synchronization engine: merging readings into wide
//! rows, evolving the column schema as new tags appear, upserting by
//! timestamp, detecting tag-set changes, and trimming a rolling retention
//! window. The remote source and the on-disk store are driven from outside;
//! the engine works on plain values and keeps an exact in-memory model of the
//! wide table.

pub mod config;
pub mod data_source;
pub mod database;
pub mod sync_service;
pub mod text;
pub mod value;
pub mod wide_table;
