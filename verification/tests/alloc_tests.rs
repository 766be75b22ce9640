use rgc::classify::{align_as_eight, get_block_size, is_aligned_as_eight, MAX_CLASS, MIN_CLASS};
use rgc::registry::{alloc_clean, alloc_init, free, malloc, rgc_malloc, Allocator};
use rgc::AllocError;

#[test]
fn classify_returns_first_class_strictly_greater() {
    assert_eq!(get_block_size(1), Ok(521));
    assert_eq!(get_block_size(100), Ok(521));
    assert_eq!(get_block_size(520), Ok(521));
    // A request exactly on a ladder boundary is promoted to the next class.
    assert_eq!(get_block_size(521), Ok(1042));
    assert_eq!(get_block_size(1041), Ok(1042));
    assert_eq!(get_block_size(1042), Ok(2084));
    assert_eq!(get_block_size(2084), Ok(4168));
    assert_eq!(get_block_size(4168), Ok(8336));
    assert_eq!(get_block_size(8336), Ok(16672));
    assert_eq!(get_block_size(16672), Ok(33344));
    assert_eq!(get_block_size(33344), Ok(66688));
    assert_eq!(get_block_size(66687), Ok(66688));
}

#[test]
fn classify_rejects_oversized_requests() {
    assert_eq!(get_block_size(66688), Err(AllocError::OversizedRequest));
    assert_eq!(get_block_size(70000), Err(AllocError::OversizedRequest));
    assert_eq!(get_block_size(usize::MAX), Err(AllocError::OversizedRequest));
    assert_eq!(MIN_CLASS, 521);
    assert_eq!(MAX_CLASS, 66688);
}

#[test]
fn alignment_helpers() {
    assert!(is_aligned_as_eight(0));
    assert!(is_aligned_as_eight(16));
    assert!(!is_aligned_as_eight(17));
    assert_eq!(align_as_eight(10, false), 16);
    assert_eq!(align_as_eight(10, true), 8);
    assert_eq!(align_as_eight(16, false), 16);
    assert_eq!(align_as_eight(16, true), 16);
    assert_eq!(align_as_eight(7, true), 0);
    assert_eq!(align_as_eight(1, false), 8);
}

#[test]
fn zero_and_negative_requests_yield_null() {
    let mut a = Allocator::new();
    assert_eq!(malloc(&mut a, 0), Ok(0));
    assert_eq!(a.block_count(), 0);
    assert_eq!(rgc_malloc(&mut a, 0), Ok(0));
    assert_eq!(rgc_malloc(&mut a, -5), Ok(0));
    assert_eq!(a.block_count(), 0);
}

#[test]
fn oversized_request_is_an_error() {
    let mut a = Allocator::new();
    assert_eq!(malloc(&mut a, 70000), Err(AllocError::OversizedRequest));
    assert_eq!(a.block_count(), 0);
    assert_eq!(rgc_malloc(&mut a, 66688), Err(AllocError::OversizedRequest));
}

#[test]
fn release_restores_block_count() {
    let mut a = Allocator::new();
    let before = a.block_count();
    let addr = malloc(&mut a, 100).unwrap();
    assert_ne!(addr, 0);
    assert_eq!(a.block_count(), before + 1);
    free(&mut a, addr);
    assert_eq!(a.block_count(), before);
    // A second release of the same address is a no-op.
    free(&mut a, addr);
    assert_eq!(a.block_count(), before);
}

#[test]
fn free_verbose_reports_sizes_and_misses() {
    let mut a = Allocator::new();
    let addr = malloc(&mut a, 100).unwrap();
    assert_eq!(a.free_verbose(addr), (100, 521));
    // The block is gone: the same address now misses.
    assert_eq!(a.free_verbose(addr), (0, 0));
    // An address never handed out misses too.
    assert_eq!(a.free_verbose(0xDEAD_BEE8), (0, 0));
}

#[test]
fn free_of_null_is_a_no_op() {
    let mut a = Allocator::new();
    let _ = malloc(&mut a, 10).unwrap();
    free(&mut a, 0);
    assert_eq!(a.block_count(), 1);
}

#[test]
fn payload_starts_zeroed_and_round_trips() {
    let mut a = Allocator::new();
    let addr = malloc(&mut a, 50).unwrap();
    // Zero-filled on allocation, over the whole class.
    assert_eq!(a.read_byte(addr, 0), Some(0));
    assert_eq!(a.read_byte(addr, 520), Some(0));
    assert_eq!(a.read_byte(addr, 521), None);
    // A written byte reads back exactly.
    assert!(a.write_byte(addr, 3, 0xAB));
    assert_eq!(a.read_byte(addr, 3), Some(0xAB));
    // Out-of-range writes and unknown addresses are rejected.
    assert!(!a.write_byte(addr, 521, 1));
    assert!(!a.write_byte(addr + 1, 0, 1));
    assert_eq!(a.read_byte(addr + 1, 0), None);
}

#[test]
fn words_are_stored_little_endian() {
    let mut a = Allocator::new();
    let addr = malloc(&mut a, 64).unwrap();
    assert!(a.write_word(addr, 8, 0x0102030405060708));
    assert_eq!(a.read_byte(addr, 8), Some(0x08));
    assert_eq!(a.read_byte(addr, 9), Some(0x07));
    assert_eq!(a.read_byte(addr, 15), Some(0x01));
    // A word that would not fit inside the class is rejected.
    assert!(!a.write_word(addr, 514, 1));
}

#[test]
fn distinct_blocks_get_distinct_addresses() {
    let mut a = Allocator::new();
    let p1 = malloc(&mut a, 10).unwrap();
    let p2 = malloc(&mut a, 10).unwrap();
    let p3 = malloc(&mut a, 40000).unwrap();
    assert_ne!(p1, p2);
    assert_ne!(p2, p3);
    assert_ne!(p1, p3);
    assert_eq!(a.block_count(), 3);
}

#[test]
fn init_accepts_this_target() {
    assert_eq!(alloc_init(), Ok(()));
}

#[test]
fn clean_clears_all_bookkeeping() {
    let mut a = Allocator::new();
    let _ = malloc(&mut a, 10).unwrap();
    let _ = malloc(&mut a, 20).unwrap();
    alloc_clean(&mut a);
    assert_eq!(a.block_count(), 0);
}
