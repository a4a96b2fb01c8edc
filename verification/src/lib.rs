//! A byte-addressable EEPROM emulation layered over NOR-flash-like storage.
//!
//! The flash below offers only page-granular programming (bits may move from
//! 1 to 0) and sector-granular erase. This crate hides that asymmetry behind
//! a log-structured, two-sector ping-pong scheme: writes are appended as
//! CRC-protected records to the active sector, reads are served from an
//! in-memory shadow, and when the active sector fills up a compaction writes
//! a single full-image snapshot into the other sector and promotes it by a
//! higher sequence number.

use vstd::prelude::*;

pub mod crc;
pub mod engine;
pub mod flash;
pub mod layout;
pub mod mock;
pub mod parse;

verus! {

/// Errors surfaced by the emulation engine.
#[derive(Clone, Copy, Debug, PartialEq, Eq, Structural)]
pub enum EepromError {
    /// Rejected at `open`: a zero size, or a logical size the two sectors cannot hold.
    Config,
    /// A read or write past the end of the logical address space, or an empty write.
    Bounds,
    /// Compaction cannot make enough room for the requested record.
    Capacity,
}

} // verus!
