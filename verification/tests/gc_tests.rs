use rgc::collect::garbage_collect;
use rgc::graph::RootRegion;
use rgc::registry::{malloc, Allocator};

/// A root region whose words are all zero.
fn silent_region(base: usize, len: usize) -> RootRegion {
    RootRegion { base, data: vec![0u8; len] }
}

/// A root region holding one word: `value` at byte offset `off` from `base`.
fn region_with_word(base: usize, len: usize, off: usize, value: usize) -> RootRegion {
    let mut data = vec![0u8; len];
    let bytes = (value as u64).to_le_bytes();
    for k in 0..8 {
        data[off + k] = bytes[k];
    }
    RootRegion { base, data }
}

#[test]
fn unreferenced_blocks_are_all_collected() {
    let mut a = Allocator::new();
    let _p1 = malloc(&mut a, 100).unwrap();
    let _p2 = malloc(&mut a, 600).unwrap();
    let _p3 = malloc(&mut a, 2000).unwrap();
    assert_eq!(a.block_count(), 3);
    let sreg = silent_region(0x100000, 64);
    let kreg = silent_region(0x200000, 64);
    let (count, bytes) = garbage_collect(&mut a, &sreg, &kreg);
    assert_eq!(count, 3);
    assert_eq!(bytes, 521 + 1042 + 2084);
    assert_eq!(a.block_count(), 0);
}

#[test]
fn collection_of_an_empty_registry_reports_nothing() {
    let mut a = Allocator::new();
    let sreg = silent_region(0x100000, 32);
    let kreg = silent_region(0x200000, 32);
    assert_eq!(garbage_collect(&mut a, &sreg, &kreg), (0, 0));
}

#[test]
fn root_chain_keeps_both_blocks_alive() {
    let mut a = Allocator::new();
    let pa = malloc(&mut a, 100).unwrap();
    let pb = malloc(&mut a, 100).unwrap();
    let pc = malloc(&mut a, 100).unwrap();
    // Block A's payload holds, at an aligned offset, the exact address of B.
    assert!(a.write_word(pa, 8, pb as u64));
    // One static-region slot points at A; nothing else references anything.
    let sreg = region_with_word(0x100000, 32, 8, pa);
    let kreg = silent_region(0x200000, 32);
    let (count, bytes) = garbage_collect(&mut a, &sreg, &kreg);
    // Only the unreferenced block C is freed; A and B survive.
    assert_eq!(count, 1);
    assert_eq!(bytes, 521);
    assert_eq!(a.block_count(), 2);
    assert!(a.find_block(pa).is_some());
    assert!(a.find_block(pb).is_some());
    assert!(a.find_block(pc).is_none());
}

#[test]
fn stack_root_keeps_a_block_alive() {
    let mut a = Allocator::new();
    let pa = malloc(&mut a, 100).unwrap();
    let pb = malloc(&mut a, 100).unwrap();
    let sreg = silent_region(0x100000, 32);
    let kreg = region_with_word(0x200000, 32, 0, pa);
    let (count, bytes) = garbage_collect(&mut a, &sreg, &kreg);
    assert_eq!((count, bytes), (1, 521));
    assert!(a.find_block(pa).is_some());
    assert!(a.find_block(pb).is_none());
}

#[test]
fn interior_pointer_retains_a_block_conservatively() {
    // The containment test is range-based: a root word anywhere inside a
    // block's class range retains it.
    let mut a = Allocator::new();
    let pa = malloc(&mut a, 100).unwrap();
    let sreg = region_with_word(0x100000, 16, 8, pa + 300);
    let kreg = silent_region(0x200000, 16);
    let (count, _) = garbage_collect(&mut a, &sreg, &kreg);
    assert_eq!(count, 0);
    assert!(a.find_block(pa).is_some());
}

#[test]
fn unaligned_static_bound_is_rounded_inward() {
    // The static region's low bound is rounded up to 8-byte alignment, so a
    // match written at the first aligned address is still found.
    let mut a = Allocator::new();
    let pa = malloc(&mut a, 100).unwrap();
    // Region starts at an unaligned base; the word sits at the first aligned
    // address, 3 bytes in.
    let sreg = region_with_word(0x100005, 32, 3, pa);
    let kreg = silent_region(0x200000, 32);
    let (count, _) = garbage_collect(&mut a, &sreg, &kreg);
    assert_eq!(count, 0);
    assert!(a.find_block(pa).is_some());
}

#[test]
fn collection_preserves_surviving_payload() {
    let mut a = Allocator::new();
    let pa = malloc(&mut a, 100).unwrap();
    for k in 0..8 {
        assert!(a.write_byte(pa, k, (0x10 + k) as u8));
    }
    let sreg = region_with_word(0x100000, 16, 0, pa);
    let kreg = silent_region(0x200000, 16);
    let (count, _) = garbage_collect(&mut a, &sreg, &kreg);
    assert_eq!(count, 0);
    for k in 0..8 {
        assert_eq!(a.read_byte(pa, k), Some((0x10 + k) as u8));
    }
}

#[test]
fn zero_words_in_roots_are_skipped() {
    // Address 0 never retains anything: a zero word is an explicit skip.
    let mut a = Allocator::new();
    let _pa = malloc(&mut a, 100).unwrap();
    let sreg = silent_region(0x100000, 64);
    let kreg = silent_region(0x200000, 64);
    let (count, _) = garbage_collect(&mut a, &sreg, &kreg);
    assert_eq!(count, 1);
}

#[test]
fn heap_only_cycles_are_collected() {
    // Two blocks pointing at each other but with no root reference are both
    // freed: reachability starts at root-origin nodes only.
    let mut a = Allocator::new();
    let pa = malloc(&mut a, 100).unwrap();
    let pb = malloc(&mut a, 100).unwrap();
    assert!(a.write_word(pa, 0, pb as u64));
    assert!(a.write_word(pb, 0, pa as u64));
    let sreg = silent_region(0x100000, 16);
    let kreg = silent_region(0x200000, 16);
    let (count, bytes) = garbage_collect(&mut a, &sreg, &kreg);
    assert_eq!((count, bytes), (2, 1042));
    assert_eq!(a.block_count(), 0);
}
