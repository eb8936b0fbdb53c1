//! Core of a clipboard-history manager: a bounded, deduplicated,
//! favorite-aware store of text snapshots, with a search filter, a
//! poll-driven ingestion rule, a deferred action dispatcher, and a
//! JSON persistence codec with a proved save/load round trip.

pub mod clock;
pub mod entry;
pub mod text;
pub mod store;
pub mod filter;
pub mod codec;
pub mod poller;
pub mod dispatch;
