//! Verified core of a small network scanner.
//!
//! The library expands a textual target specification (a single address of
//! either family, or an address/prefix range) into an ordered address list,
//! parses port
//! specifications, decides each per-host scan pipeline step, and aggregates
//! per-host outcomes into an ordered, index-aligned result set.  All network
//! I/O (echo probes, reverse lookups, connection attempts) lives outside the
//! library, which only makes the decisions and owns the data.

pub mod expand;
pub mod ports;
pub mod resolve;
pub mod scan;
pub mod text;

use vstd::prelude::*;

verus! {

/// A network address of either family, as the plain value the textual form
/// denotes.
#[derive(Clone, Copy, Debug, PartialEq, Eq, Structural)]
pub enum Addr {
    /// A 32-bit address, written as a dotted quad.
    V4(u32),
    /// A 128-bit address, written as hexadecimal groups.
    V6(u128),
}

/// Errors reported for a malformed target specification.  These are the only
/// run-aborting failures the scanner core can signal.
#[derive(Clone, Copy, Debug, PartialEq, Eq, Structural)]
pub enum InputError {
    /// The specification contained a range delimiter but is not a valid
    /// address/prefix range.
    InvalidRange,
    /// The specification is not a valid single address.
    InvalidAddress,
}

} // verus!
