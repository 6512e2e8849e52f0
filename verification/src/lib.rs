//! Records shell-command usage and answers aggregate questions over it.
//!
//! The crate is organised around one persisted record shape, `CommandEntry`:
//! the codec reads and writes its newline-delimited wire form, the redaction
//! engine scrubs credential-shaped substrings out of command text before it
//! is persisted, the store keeps redacted records as immutable rows, the sync
//! orchestrator moves records from a rotated log into the store with
//! per-record failure accounting, and the query engine computes ranked,
//! time-windowed statistics over the stored rows.
pub mod cli;
pub mod codec;
pub mod duration;
pub mod queries;
pub mod redact;
pub mod store;
pub mod sync;

use vstd::prelude::*;

verus! {

} // verus!
