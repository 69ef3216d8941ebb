//! An embeddable storage engine built around a versioning kernel.
//!
//! The kernel owns the authoritative [`Version`] of a store instance: a
//! snapshot of metadata and registered objects, advanced by sequenced
//! [`VersionUpdate`] deltas that are fanned out to subscribers in order.
//! A log-structured engine composes a write-ahead journal, immutable
//! tables and background compaction around the kernel, which records the
//! manifest (the set of live tables) as kernel-tracked objects.

pub mod engine;
pub mod kernel;
pub mod version;
