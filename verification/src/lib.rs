//! A conservative mark-and-sweep heap manager.
//!
//! The allocator serves fixed-class memory blocks and reclaims blocks that
//! have become unreachable.  Reachability is decided conservatively, by
//! scanning raw words of the root regions (static data and stack) and of the
//! tracked blocks themselves for values that fall inside a tracked block's
//! address range.
//!
//! Memory is modelled explicitly: the registry owns every block's payload
//! bytes, each block is identified by a synthetic, pairwise-disjoint address
//! range, and root regions are byte buffers paired with the base address they
//! stand at.  This keeps every scan an ordinary, bounds-checked read while
//! preserving the address arithmetic of a conservative collector.

pub mod classify;
pub mod collect;
pub mod graph;
pub mod laws;
pub mod list;
pub mod reach;
pub mod registry;
pub mod word;

use vstd::prelude::*;

verus! {

/// The unrecoverable failures of the heap manager.
///
/// Anything else (freeing an unknown address, a zero-sized request) is
/// handled locally and never surfaces as an error.
#[derive(Clone, Copy, Debug, PartialEq, Eq, Structural)]
pub enum AllocError {
    /// A request exceeded the largest size class.
    OversizedRequest,
    /// The registry ran out of address space to hand out.
    AddressSpaceExhausted,
    /// The target is not a 64-bit architecture.
    UnsupportedArchitecture,
}

} // verus!
