//! Time-triggered synchronization and notification engine for a private
//! puzzle leaderboard: event model and exact-rational scoring, feed parsing,
//! tie-grouped standings, checkpointed idempotent replay, and the
//! window/trigger scheduling that decides when each announcement is due.
//!
//! Instants are counted in seconds from the Unix epoch and kept within the
//! four-digit-year range (through 9999-12-31T23:59:59 UTC), so that every
//! delivered instant round-trips through its RFC 3339 checkpoint record; a
//! feed timestamp outside that range is a conversion error.

pub mod config;
pub mod error;
pub mod event;
pub mod feed;
pub mod rational;
pub mod schedule;
pub mod standings;
pub mod text;
pub mod time;
pub mod webhook;
