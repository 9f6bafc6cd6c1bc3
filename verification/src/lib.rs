//! An embedded, schema-versioned, append-only event store.
//!
//! A game client records state-changing events durably and reconstructs
//! current state by deterministic replay. Events are grouped into streams;
//! within a stream, sequence numbers are gapless and strictly increasing
//! from 1. Snapshots bound replay cost but are never a correctness
//! requirement: the event log remains the single source of truth.

pub mod errors;
pub mod event;
pub mod migrate;
pub mod replay;
pub mod store;
pub mod inventory;
pub mod laws;
