//! Tracks, per pipeline, whether each event is seen by every required service within the
//! pipeline's time budget, and reports complete and incomplete events.

pub mod config;
pub mod grace_period;
pub mod ingest;
pub mod pipeline;
pub mod processor;
