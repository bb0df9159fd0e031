//! Segment transport: splitting a payload into bounded segments and
//! reassembling it from out-of-order, possibly duplicated deliveries,
//! with bounded retries and age-based eviction of stale groups.

pub mod builder;
pub mod clock;
pub mod consumer_config;
pub mod laws;
pub mod producer_config;
pub mod cache;
pub mod segment;
pub mod splitter;
pub mod splitter_config;
pub mod send_time;
pub mod text;
