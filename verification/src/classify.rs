//! The size classifier: maps a requested byte count to one of a fixed
//! ladder of block classes.

use crate::AllocError;
use vstd::prelude::*;

verus! {

/// Smallest block class of the ladder, in bytes.
pub const MIN_CLASS: usize = 521;

/// Largest block class of the ladder, in bytes.  A request must be strictly
/// smaller than this value to be served at all.
pub const MAX_CLASS: usize = 66688;

/// True exactly for the values of the class ladder: `MIN_CLASS` doubled
/// seven times.
pub open spec fn is_class(c: usize) -> bool {
    c == 521 || c == 1042 || c == 2084 || c == 4168 || c == 8336 || c == 16672 || c == 33344
        || c == 66688
}

/// The class a request of `size` bytes is served from: the first ladder
/// value strictly greater than `size`.  A request exactly equal to a ladder
/// value is promoted to the next class.
pub open spec fn spec_class(size: usize) -> usize
    recommends
        size < MAX_CLASS,
{
    if size < 521 {
        521
    } else if size < 1042 {
        1042
    } else if size < 2084 {
        2084
    } else if size < 4168 {
        4168
    } else if size < 8336 {
        8336
    } else if size < 16672 {
        16672
    } else if size < 33344 {
        33344
    } else {
        66688
    }
}

/// Classifies a request of `size` bytes: returns the smallest ladder value
/// strictly greater than `size`, or `OversizedRequest` when the request
/// exceeds the largest class.
pub fn get_block_size(size: usize) -> (r: Result<usize, AllocError>)
    ensures
        size < MAX_CLASS ==> r == Ok::<usize, AllocError>(spec_class(size)),
        size >= MAX_CLASS ==> r == Err::<usize, AllocError>(AllocError::OversizedRequest),
        r matches Ok(c) ==> is_class(c) && size < c && (forall|d: usize|
            is_class(d) && size < d ==> c <= d),
{
    if size < 521 {
        Ok(521)
    } else if size < 1042 {
        Ok(1042)
    } else if size < 2084 {
        Ok(2084)
    } else if size < 4168 {
        Ok(4168)
    } else if size < 8336 {
        Ok(8336)
    } else if size < 16672 {
        Ok(16672)
    } else if size < 33344 {
        Ok(33344)
    } else if size < 66688 {
        Ok(66688)
    } else {
        Err(AllocError::OversizedRequest)
    }
}

/// True when `addr` is 8-byte aligned.
pub fn is_aligned_as_eight(addr: usize) -> (r: bool)
    ensures
        r == (addr % 8 == 0),
{
    addr % 8 == 0
}

/// Rounds `addr` to 8-byte alignment: down to the greatest aligned address
/// not above it when `round_down` is set, otherwise up to the least aligned
/// address not below it.
pub fn align_as_eight(addr: usize, round_down: bool) -> (r: usize)
    requires
        !round_down ==> addr + 7 <= usize::MAX,
    ensures
        r % 8 == 0,
        round_down ==> r == addr - addr % 8,
        !round_down ==> r == addr + ((8 - addr % 8) % 8) as usize,
        round_down ==> r <= addr < r + 8,
        !round_down ==> r - 8 < addr <= r,
{
    if addr % 8 != 0 {
        if round_down {
            addr - addr % 8
        } else {
            addr + (8 - addr % 8)
        }
    } else {
        addr
    }
}

} // verus!
