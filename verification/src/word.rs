//! Word-width reads and writes over payload bytes.
//!
//! The collector treats every aligned 8-byte slot of scanned memory as a
//! candidate pointer.  Words are read little-endian, the byte order of the
//! 64-bit targets the allocator serves.

use vstd::arithmetic::div_mod::{lemma_div_denominator, lemma_fundamental_div_mod};
use vstd::prelude::*;

verus! {

/// The value of the little-endian 64-bit word stored at byte offset `off`
/// of `data`.
pub open spec fn word_at(data: Seq<u8>, off: int) -> int
    recommends
        0 <= off,
        off + 8 <= data.len(),
{
    data[off] + data[off + 1] * 0x100 + data[off + 2] * 0x10000 + data[off + 3] * 0x1000000
        + data[off + 4] * 0x100000000 + data[off + 5] * 0x10000000000 + data[off + 6]
        * 0x1000000000000 + data[off + 7] * 0x100000000000000
}

/// Byte `k` of the little-endian encoding of `v`.
pub open spec fn le_byte(v: u64, k: int) -> u8
    recommends
        0 <= k < 8,
{
    if k == 0 {
        (v as int % 0x100) as u8
    } else if k == 1 {
        ((v as int / 0x100) % 0x100) as u8
    } else if k == 2 {
        ((v as int / 0x10000) % 0x100) as u8
    } else if k == 3 {
        ((v as int / 0x1000000) % 0x100) as u8
    } else if k == 4 {
        ((v as int / 0x100000000) % 0x100) as u8
    } else if k == 5 {
        ((v as int / 0x10000000000) % 0x100) as u8
    } else if k == 6 {
        ((v as int / 0x1000000000000) % 0x100) as u8
    } else {
        ((v as int / 0x100000000000000) % 0x100) as u8
    }
}

/// A word read back from its little-endian bytes is the value written.
pub proof fn lemma_word_of_le_bytes(data: Seq<u8>, off: int, v: u64)
    requires
        0 <= off,
        off + 8 <= data.len(),
        forall|k: int| 0 <= k < 8 ==> data[off + k] == le_byte(v, k),
    ensures
        word_at(data, off) == v as int,
{
    let x = v as int;
    assert(data[off + 0] == le_byte(v, 0));
    assert(data[off + 1] == le_byte(v, 1));
    assert(data[off + 2] == le_byte(v, 2));
    assert(data[off + 3] == le_byte(v, 3));
    assert(data[off + 4] == le_byte(v, 4));
    assert(data[off + 5] == le_byte(v, 5));
    assert(data[off + 6] == le_byte(v, 6));
    assert(data[off + 7] == le_byte(v, 7));
    lemma_le_decompose(x);
}

/// Every value below 2^64 is the weighted sum of its little-endian bytes.
proof fn lemma_le_decompose(x: int)
    requires
        0 <= x < 0x10000000000000000,
    ensures
        x == (x % 0x100) + ((x / 0x100) % 0x100) * 0x100 + ((x / 0x10000) % 0x100) * 0x10000 + ((
        x / 0x1000000) % 0x100) * 0x1000000 + ((x / 0x100000000) % 0x100) * 0x100000000 + ((x
            / 0x10000000000) % 0x100) * 0x10000000000 + ((x / 0x1000000000000) % 0x100)
            * 0x1000000000000 + ((x / 0x100000000000000) % 0x100) * 0x100000000000000,
{
    lemma_fundamental_div_mod(x, 0x100);
    lemma_fundamental_div_mod(x / 0x100, 0x100);
    lemma_fundamental_div_mod(x / 0x10000, 0x100);
    lemma_fundamental_div_mod(x / 0x1000000, 0x100);
    lemma_fundamental_div_mod(x / 0x100000000, 0x100);
    lemma_fundamental_div_mod(x / 0x10000000000, 0x100);
    lemma_fundamental_div_mod(x / 0x1000000000000, 0x100);
    lemma_div_denominator(x, 0x100, 0x100);
    lemma_div_denominator(x, 0x10000, 0x100);
    lemma_div_denominator(x, 0x1000000, 0x100);
    lemma_div_denominator(x, 0x100000000, 0x100);
    lemma_div_denominator(x, 0x10000000000, 0x100);
    lemma_div_denominator(x, 0x1000000000000, 0x100);
    assert(x / 0x100000000000000 < 0x100) by {
        assert(x / 0x100000000000000 <= 0xffffffffffffffffint / 0x100000000000000) by {
            vstd::arithmetic::div_mod::lemma_div_is_ordered(x, 0xffffffffffffffffint, 0x100000000000000);
        }
    }
    assert(x / 0x100000000000000 >= 0) by {
        vstd::arithmetic::div_mod::lemma_div_pos_is_pos(x, 0x100000000000000);
    }
}

/// Reads the little-endian 64-bit word at byte offset `off` of `data`.
pub fn read_word(data: &Vec<u8>, off: usize) -> (w: u64)
    requires
        off + 8 <= data@.len(),
    ensures
        w as int == word_at(data@, off as int),
{
    let _n: usize = data.len();
    let b0 = data[off] as u64;
    let b1 = data[off + 1] as u64;
    let b2 = data[off + 2] as u64;
    let b3 = data[off + 3] as u64;
    let b4 = data[off + 4] as u64;
    let b5 = data[off + 5] as u64;
    let b6 = data[off + 6] as u64;
    let b7 = data[off + 7] as u64;
    b0 + b1 * 0x100 + b2 * 0x10000 + b3 * 0x1000000 + b4 * 0x100000000 + b5 * 0x10000000000 + b6
        * 0x1000000000000 + b7 * 0x100000000000000
}

} // verus!
