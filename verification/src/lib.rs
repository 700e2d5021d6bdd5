//! Core of a slot-based block-production and voting-based finality engine
//! for a blockchain client: leader election per slot, an ordered block-import
//! pipeline with a deterministic fork-choice rule, a round-based finality
//! voter with equivocation handling, inherent-data composition, and a
//! supervisor for the node's concurrent tasks.
//!
//! Cryptographic primitives, networking, storage and timers are collaborators
//! at the edge: the library works on plain values (keys, hashes, weights and
//! slots as integers) that those collaborators hand in and take back.

pub mod authority;
pub mod import;
pub mod inherents;
pub mod slots;
pub mod supervisor;
pub mod voter;
