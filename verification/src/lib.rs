//! Disk I/O engine for a BitTorrent client.
//!
//! The engine turns piece-granular read/write demands into bounded,
//! cooperatively scheduled filesystem operations: it maps a torrent's
//! piece address space onto a many-file layout, hash-verifies pieces
//! against a stored digest table, persists metadata atomically via
//! temp-file-then-rename, moves and deletes torrent data, and streams
//! completed content over HTTP with range and multipart support.
//!
//! The verified core works against an in-memory filesystem model
//! ([`fs::MemFs`]); a thin unverified runner performs the same
//! operations against the real filesystem.
use vstd::prelude::*;

pub mod cache;
pub mod download;
pub mod encdec;
pub mod fs;
pub mod hashing;
pub mod info;
pub mod job;
pub mod location;
pub mod message;

verus! {

/// Wall-clock budget, in milliseconds, that one cooperative job may
/// consume before yielding back to the reactor.
pub const JOB_TIME_SLICE: u64 = 150;

} // verus!
