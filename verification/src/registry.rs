//! The block registry: owns the set of live allocations, serves `malloc`
//! and `free`, and is the single source of truth for what is currently
//! allocated.

use crate::classify::{get_block_size, is_class, spec_class, MAX_CLASS};
use crate::AllocError;
use vstd::prelude::*;

verus! {

/// Mathematical model of one tracked block.
pub ghost struct BlockModel {
    /// The address handed out to the caller; identifies the block while live.
    pub payload_addr: usize,
    /// The byte size actually reserved: one of the ladder classes.
    pub class_size: usize,
    /// The byte size the caller asked for.
    pub requested_size: usize,
    /// The payload bytes.
    pub data: Seq<u8>,
}

impl BlockModel {
    /// Well-formedness of a single block: the class comes from the ladder
    /// and matches the request, the payload has exactly `class_size` bytes,
    /// and the address is a nonzero 8-byte-aligned value.
    pub open spec fn wf(self) -> bool {
        &&& is_class(self.class_size)
        &&& self.class_size == spec_class(self.requested_size)
        &&& 1 <= self.requested_size
        &&& self.data.len() == self.class_size
        &&& self.payload_addr % 8 == 0
        &&& 8 <= self.payload_addr
    }

    /// True when `v` falls inside this block's address range.
    pub open spec fn range_contains(self, v: int) -> bool {
        self.payload_addr <= v < self.payload_addr + self.class_size
    }
}

/// True when the address ranges of `a` and `b` do not overlap.
pub open spec fn ranges_disjoint(a: BlockModel, b: BlockModel) -> bool {
    a.payload_addr + a.class_size <= b.payload_addr
        || b.payload_addr + b.class_size <= a.payload_addr
}

/// Mathematical model of the whole registry: the tracked blocks and the
/// next address the registry will hand out.
pub ghost struct RegistryModel {
    pub blocks: Seq<BlockModel>,
    pub next_addr: usize,
}

impl RegistryModel {
    /// Registry invariant: every block is well formed, lies entirely below
    /// `next_addr`, and no two blocks overlap.
    pub open spec fn wf(self) -> bool {
        &&& self.next_addr % 8 == 0
        &&& 8 <= self.next_addr
        &&& forall|i: int| 0 <= i < self.blocks.len() ==> (#[trigger] self.blocks[i]).wf()
        &&& forall|i: int|
            0 <= i < self.blocks.len() ==> (#[trigger] self.blocks[i]).payload_addr
                + self.blocks[i].class_size <= self.next_addr
        &&& forall|i: int, j: int|
            0 <= i < self.blocks.len() && 0 <= j < self.blocks.len() && i != j ==> ranges_disjoint(
                #[trigger] self.blocks[i],
                #[trigger] self.blocks[j],
            )
    }
}

/// True when some tracked block's payload address is exactly `addr`.
pub open spec fn has_block(blocks: Seq<BlockModel>, addr: usize) -> bool {
    exists|i: int| 0 <= i < blocks.len() && (#[trigger] blocks[i]).payload_addr == addr
}

/// The index of the first block whose payload address is exactly `addr`,
/// or `-1` when there is none.
pub open spec fn idx_of(blocks: Seq<BlockModel>, addr: usize) -> int
    decreases blocks.len(),
{
    if blocks.len() == 0 {
        -1
    } else if blocks[0].payload_addr == addr {
        0
    } else {
        let rest = idx_of(blocks.drop_first(), addr);
        if rest < 0 {
            -1
        } else {
            rest + 1
        }
    }
}

/// The first block whose payload address is exactly `addr`.
pub open spec fn block_of(blocks: Seq<BlockModel>, addr: usize) -> BlockModel
    recommends
        has_block(blocks, addr),
{
    blocks[idx_of(blocks, addr)]
}

/// The registry after freeing `addr`: the matching block is removed, and a
/// registry without a match is left unchanged.
pub open spec fn spec_free(blocks: Seq<BlockModel>, addr: usize) -> Seq<BlockModel> {
    if has_block(blocks, addr) {
        blocks.remove(idx_of(blocks, addr))
    } else {
        blocks
    }
}

/// The total number of reserved bytes over all tracked blocks.
pub open spec fn total_class_bytes(blocks: Seq<BlockModel>) -> int
    decreases blocks.len(),
{
    if blocks.len() == 0 {
        0
    } else {
        total_class_bytes(blocks.drop_last()) + blocks.last().class_size
    }
}

/// `idx_of` finds a valid index exactly when some block matches.
pub proof fn lemma_idx_of(blocks: Seq<BlockModel>, addr: usize)
    ensures
        has_block(blocks, addr) ==> {
            &&& 0 <= idx_of(blocks, addr) < blocks.len()
            &&& blocks[idx_of(blocks, addr)].payload_addr == addr
        },
        !has_block(blocks, addr) ==> idx_of(blocks, addr) == -1,
    decreases blocks.len(),
{
    if blocks.len() > 0 && blocks[0].payload_addr != addr {
        lemma_idx_of(blocks.drop_first(), addr);
        if has_block(blocks, addr) {
            let i = choose|i: int|
                0 <= i < blocks.len() && (#[trigger] blocks[i]).payload_addr == addr;
            assert(blocks.drop_first()[i - 1] == blocks[i]);
        } else {
            assert(forall|i: int|
                0 <= i < blocks.drop_first().len() ==> (#[trigger] blocks.drop_first()[i])
                    == blocks[i + 1]);
        }
    }
}

/// A match found by a left-to-right scan is the match `idx_of` names.
pub proof fn lemma_idx_of_first(blocks: Seq<BlockModel>, addr: usize, i: int)
    requires
        0 <= i < blocks.len(),
        blocks[i].payload_addr == addr,
        forall|j: int| 0 <= j < i ==> (#[trigger] blocks[j]).payload_addr != addr,
    ensures
        idx_of(blocks, addr) == i,
    decreases blocks.len(),
{
    if i > 0 {
        assert(blocks.drop_first()[i - 1] == blocks[i]);
        assert(forall|j: int|
            0 <= j < i - 1 ==> (#[trigger] blocks.drop_first()[j]) == blocks[j + 1]);
        lemma_idx_of_first(blocks.drop_first(), addr, i - 1);
    }
}

/// Removing one block lowers the byte total by exactly its class size.
pub proof fn lemma_total_remove(blocks: Seq<BlockModel>, i: int)
    requires
        0 <= i < blocks.len(),
    ensures
        total_class_bytes(blocks.remove(i)) == total_class_bytes(blocks)
            - blocks[i].class_size,
    decreases blocks.len(),
{
    if i == blocks.len() - 1 {
        assert(blocks.remove(i) =~= blocks.drop_last());
    } else {
        lemma_total_remove(blocks.drop_last(), i);
        assert(blocks.remove(i).drop_last() =~= blocks.drop_last().remove(i));
        assert(blocks.remove(i).last() == blocks.last());
    }
}

/// Appending one block raises the byte total by exactly its class size.
pub proof fn lemma_total_push(blocks: Seq<BlockModel>, b: BlockModel)
    ensures
        total_class_bytes(blocks.push(b)) == total_class_bytes(blocks) + b.class_size,
{
    assert(blocks.push(b).drop_last() =~= blocks);
}

/// One tracked allocation: the bookkeeping record together with the payload
/// storage it owns.  A block exists from the moment `malloc` succeeds until
/// the moment it is freed, explicitly or by the collector; a freed block is
/// removed from the registry rather than flagged.
pub struct Block {
    /// The byte size actually reserved: one of the ladder classes.
    pub class_size: usize,
    /// The byte size the caller asked for.
    pub requested_size: usize,
    /// The address handed out to the caller.
    pub payload_addr: usize,
    /// The payload bytes; zero-filled on allocation.
    pub data: Vec<u8>,
}

impl View for Block {
    type V = BlockModel;

    open spec fn view(&self) -> BlockModel {
        BlockModel {
            payload_addr: self.payload_addr,
            class_size: self.class_size,
            requested_size: self.requested_size,
            data: self.data@,
        }
    }
}

/// The models of a sequence of blocks.
pub open spec fn views_of(s: Seq<Block>) -> Seq<BlockModel> {
    s.map_values(|b: Block| b@)
}

/// The block registry.  It owns the bookkeeping record and the payload
/// storage of every live allocation; payload addresses are synthetic,
/// pairwise-disjoint ranges carved from a bump counter.
pub struct Allocator {
    /// The tracked blocks, in no authoritative order.
    pub blocks: Vec<Block>,
    /// The next payload address the registry will hand out.
    pub next_addr: usize,
}

impl View for Allocator {
    type V = RegistryModel;

    open spec fn view(&self) -> RegistryModel {
        RegistryModel { blocks: views_of(self.blocks@), next_addr: self.next_addr }
    }
}

/// The model of a freshly served block: the requested class, zero-filled.
pub open spec fn spec_new_block(addr: usize, size: usize) -> BlockModel {
    BlockModel {
        payload_addr: addr,
        class_size: spec_class(size),
        requested_size: size,
        data: Seq::new(spec_class(size) as nat, |i: int| 0u8),
    }
}

/// `class` rounded up to the next multiple of 8.
pub open spec fn round_up_eight(class: int) -> int {
    class + ((8 - class % 8) % 8)
}

/// True when the registry still has address space for a block of the class
/// that serves `size`.
pub open spec fn spec_has_room(m: RegistryModel, size: usize) -> bool {
    m.next_addr + round_up_eight(spec_class(size) as int) <= usize::MAX
}

/// What `read_byte` returns: the payload byte at `off` of the block at
/// `addr`, or nothing when there is no such block or the offset is out of
/// its range.
pub open spec fn spec_read_byte(blocks: Seq<BlockModel>, addr: usize, off: usize) -> Option<u8> {
    if has_block(blocks, addr) && off < block_of(blocks, addr).class_size {
        Some(block_of(blocks, addr).data[off as int])
    } else {
        None
    }
}

/// The registry after storing `val` at byte offset `off` of the block at
/// `addr`; a miss or an out-of-range offset leaves it unchanged.
pub open spec fn spec_write_byte(
    blocks: Seq<BlockModel>,
    addr: usize,
    off: usize,
    val: u8,
) -> Seq<BlockModel> {
    if has_block(blocks, addr) && off < block_of(blocks, addr).class_size {
        let i = idx_of(blocks, addr);
        blocks.update(i, BlockModel { data: blocks[i].data.update(off as int, val), ..blocks[i] })
    } else {
        blocks
    }
}

/// `data` with the little-endian bytes of `val` stored at offsets `off`
/// through `off + 7`.
pub open spec fn write_le_bytes(data: Seq<u8>, off: int, val: u64) -> Seq<u8> {
    Seq::new(data.len(), |i: int| if off <= i < off + 8 {
        crate::word::le_byte(val, i - off)
    } else {
        data[i]
    })
}

/// The registry after storing the word `val` little-endian at byte offset
/// `off` of the block at `addr`; a miss or an offset whose word would not
/// fit leaves it unchanged.
pub open spec fn spec_write_word(
    blocks: Seq<BlockModel>,
    addr: usize,
    off: usize,
    val: u64,
) -> Seq<BlockModel> {
    if has_block(blocks, addr) && off + 8 <= block_of(blocks, addr).class_size {
        let i = idx_of(blocks, addr);
        blocks.update(i, BlockModel { data: write_le_bytes(blocks[i].data, off as int, val), ..blocks[i] })
    } else {
        blocks
    }
}

/// Zero-initialized storage of `n` bytes.
fn zeroed_storage(n: usize) -> (r: Vec<u8>)
    ensures
        r@ == Seq::new(n as nat, |i: int| 0u8),
{
    let mut data: Vec<u8> = Vec::new();
    while data.len() < n
        invariant
            data@.len() <= n,
            forall|i: int| 0 <= i < data@.len() ==> data@[i] == 0u8,
        decreases n - data@.len(),
    {
        data.push(0u8);
    }
    proof {
        assert(data@ =~= Seq::new(n as nat, |i: int| 0u8));
    }
    data
}

impl Allocator {
    /// Invariant of the registry; see `RegistryModel::wf`.
    pub open spec fn wf(&self) -> bool {
        self@.wf()
    }

    /// Creates an empty registry.
    pub fn new() -> (r: Allocator)
        ensures
            r.wf(),
            r@.blocks =~= Seq::<BlockModel>::empty(),
            r@.next_addr == 8,
    {
        Allocator { blocks: Vec::new(), next_addr: 8 }
    }

    /// The number of currently tracked blocks.
    pub fn block_count(&self) -> (r: usize)
        ensures
            r == self@.blocks.len(),
    {
        self.blocks.len()
    }

    /// The bookkeeping of the `i`-th tracked block, as
    /// `(payload_addr, requested_size, class_size)`.
    pub fn block_info(&self, i: usize) -> (r: Option<(usize, usize, usize)>)
        ensures
            i < self@.blocks.len() ==> r == Some(
                (
                    self@.blocks[i as int].payload_addr,
                    self@.blocks[i as int].requested_size,
                    self@.blocks[i as int].class_size,
                ),
            ),
            i >= self@.blocks.len() ==> r == None::<(usize, usize, usize)>,
    {
        if i < self.blocks.len() {
            let b = &self.blocks[i];
            Some((b.payload_addr, b.requested_size, b.class_size))
        } else {
            None
        }
    }

    /// Serves a request of `size` bytes: classifies the size, reserves
    /// zero-initialized storage of the class size, registers the block and
    /// returns its fresh payload address.
    pub fn malloc(&mut self, size: usize) -> (r: Result<usize, AllocError>)
        requires
            old(self).wf(),
            1 <= size,
        ensures
            final(self).wf(),
            size >= MAX_CLASS ==> r == Err::<usize, AllocError>(AllocError::OversizedRequest)
                && final(self)@ == old(self)@,
            size < MAX_CLASS && !spec_has_room(old(self)@, size) ==> r == Err::<
                usize,
                AllocError,
            >(AllocError::AddressSpaceExhausted) && final(self)@ == old(self)@,
            size < MAX_CLASS && spec_has_room(old(self)@, size) ==> {
                &&& r == Ok::<usize, AllocError>(old(self)@.next_addr)
                &&& final(self)@.blocks == old(self)@.blocks.push(
                    spec_new_block(old(self)@.next_addr, size),
                )
                &&& final(self)@.next_addr == round_up_eight(
                    old(self)@.next_addr + spec_class(size) as int,
                )
                &&& !has_block(old(self)@.blocks, old(self)@.next_addr)
                &&& old(self)@.next_addr != 0
            },
    {
        let class = match get_block_size(size) {
            Ok(c) => c,
            Err(e) => {
                return Err(e);
            },
        };
        let pad: usize = if class % 8 == 0 {
            0
        } else {
            8 - class % 8
        };
        if self.next_addr > usize::MAX - (class + pad) {
            return Err(AllocError::AddressSpaceExhausted);
        }
        let addr = self.next_addr;
        let data = zeroed_storage(class);
        let block = Block { class_size: class, requested_size: size, payload_addr: addr, data };
        self.blocks.push(block);
        self.next_addr = addr + class + pad;
        proof {
            let m0 = old(self)@;
            assert(self@.blocks =~= m0.blocks.push(spec_new_block(addr, size)));
            assert(self@.blocks.last() == spec_new_block(addr, size));
            assert forall|i: int| 0 <= i < m0.blocks.len() implies !((#[trigger] m0.blocks[i])
                .payload_addr == addr) by {
                assert(m0.blocks[i].wf());
            }
            assert((addr + class) % 8 == class % 8 && (addr + class + pad) % 8 == 0) by {
                assert(addr % 8 == 0);
                assert(addr == 8 * (addr / 8)) by {
                    vstd::arithmetic::div_mod::lemma_fundamental_div_mod(addr as int, 8);
                }
                assert((8 * (addr / 8) + class) % 8 == class % 8) by {
                    vstd::arithmetic::div_mod::lemma_mod_multiples_vanish(
                        addr as int / 8,
                        class as int,
                        8,
                    );
                }
                assert((8 * (addr / 8) + (class + pad)) % 8 == (class + pad) % 8) by {
                    vstd::arithmetic::div_mod::lemma_mod_multiples_vanish(
                        addr as int / 8,
                        class as int + pad as int,
                        8,
                    );
                }
            }
            assert(self@.next_addr == round_up_eight(m0.next_addr + spec_class(size) as int));
            assert(self@.blocks[m0.blocks.len() as int].wf());
            assert(self@.wf()) by {
                assert forall|i: int, j: int|
                    0 <= i < self@.blocks.len() && 0 <= j < self@.blocks.len() && i != j implies
                    ranges_disjoint(#[trigger] self@.blocks[i], #[trigger] self@.blocks[j]) by {
                    if i < m0.blocks.len() && j < m0.blocks.len() {
                        assert(ranges_disjoint(m0.blocks[i], m0.blocks[j]));
                    }
                }
            }
        }
        Ok(addr)
    }

    /// Looks the registry up for the block whose payload address is exactly
    /// `addr` and returns its index.
    pub fn find_block(&self, addr: usize) -> (r: Option<usize>)
        ensures
            match r {
                Some(i) => {
                    &&& has_block(self@.blocks, addr)
                    &&& i == idx_of(self@.blocks, addr)
                    &&& i < self@.blocks.len()
                    &&& self@.blocks[i as int].payload_addr == addr
                },
                None => !has_block(self@.blocks, addr),
            },
    {
        let mut i: usize = 0;
        while i < self.blocks.len()
            invariant
                i <= self.blocks@.len(),
                forall|j: int| 0 <= j < i ==> (#[trigger] self@.blocks[j]).payload_addr != addr,
            decreases self.blocks@.len() - i,
        {
            if self.blocks[i].payload_addr == addr {
                proof {
                    lemma_idx_of_first(self@.blocks, addr, i as int);
                }
                return Some(i);
            }
            i = i + 1;
        }
        proof {
            lemma_idx_of(self@.blocks, addr);
        }
        None
    }

    /// Frees the block whose payload address is exactly `addr` (identity
    /// match: an interior pointer is not accepted) and reports the sizes of
    /// the removed block as `(requested_size, class_size)`.  Freeing an
    /// unknown or already-freed address is a no-op reported as `(0, 0)`.
    pub fn free_verbose(&mut self, addr: usize) -> (r: (usize, usize))
        requires
            old(self).wf(),
        ensures
            final(self).wf(),
            final(self)@.next_addr == old(self)@.next_addr,
            final(self)@.blocks == spec_free(old(self)@.blocks, addr),
            has_block(old(self)@.blocks, addr) ==> r == (
                block_of(old(self)@.blocks, addr).requested_size,
                block_of(old(self)@.blocks, addr).class_size,
            ) && final(self)@.blocks.len() == old(self)@.blocks.len() - 1,
            !has_block(old(self)@.blocks, addr) ==> r == (0usize, 0usize) && final(self)@ == old(
                self,
            )@,
            total_class_bytes(final(self)@.blocks) == total_class_bytes(old(self)@.blocks) - (
            if has_block(old(self)@.blocks, addr) {
                block_of(old(self)@.blocks, addr).class_size as int
            } else {
                0
            }),
    {
        let mut i: usize = 0;
        while i < self.blocks.len()
            invariant
                old(self).wf(),
                self == old(self),
                i <= self.blocks@.len(),
                forall|j: int| 0 <= j < i ==> (#[trigger] self@.blocks[j]).payload_addr != addr,
            decreases self.blocks@.len() - i,
        {
            if self.blocks[i].payload_addr == addr {
                let ghost m0 = old(self)@;
                let removed = self.blocks.remove(i);
                proof {
                    lemma_idx_of_first(m0.blocks, addr, i as int);
                    m0.blocks.remove_ensures(i as int);
                    assert(self@.blocks =~= m0.blocks.remove(i as int));
                    lemma_total_remove(m0.blocks, i as int);
                    assert forall|a: int, b: int|
                        0 <= a < self@.blocks.len() && 0 <= b < self@.blocks.len() && a != b
                        implies ranges_disjoint(
                        #[trigger] self@.blocks[a],
                        #[trigger] self@.blocks[b],
                    ) by {
                        let a0 = if a < i as int { a } else { a + 1 };
                        let b0 = if b < i as int { b } else { b + 1 };
                        assert(ranges_disjoint(m0.blocks[a0], m0.blocks[b0]));
                    }
                }
                return (removed.requested_size, removed.class_size);
            }
            i = i + 1;
        }
        proof {
            lemma_idx_of(old(self)@.blocks, addr);
        }
        (0, 0)
    }

    /// Reads the payload byte at offset `off` of the block whose payload
    /// address is exactly `addr`.
    pub fn read_byte(&self, addr: usize, off: usize) -> (r: Option<u8>)
        requires
            self.wf(),
        ensures
            r == spec_read_byte(self@.blocks, addr, off),
    {
        match self.find_block(addr) {
            None => None,
            Some(i) => {
                proof {
                    assert(self@.blocks[i as int].wf());
                }
                if off < self.blocks[i].class_size {
                    Some(self.blocks[i].data[off])
                } else {
                    None
                }
            },
        }
    }

    /// Stores `val` at byte offset `off` of the block whose payload address
    /// is exactly `addr`.  Returns whether a block was written; a miss or an
    /// out-of-range offset is a no-op.
    pub fn write_byte(&mut self, addr: usize, off: usize, val: u8) -> (ok: bool)
        requires
            old(self).wf(),
        ensures
            final(self).wf(),
            final(self)@.next_addr == old(self)@.next_addr,
            final(self)@.blocks == spec_write_byte(old(self)@.blocks, addr, off, val),
            ok == (has_block(old(self)@.blocks, addr) && off < block_of(
                old(self)@.blocks,
                addr,
            ).class_size),
    {
        let ghost m0 = self@;
        match self.find_block(addr) {
            None => false,
            Some(i) => {
                if off < self.blocks[i].class_size {
                    proof {
                        assert(m0.blocks[i as int].wf());
                    }
                    self.blocks[i].data[off] = val;
                    proof {
                        assert(self@.blocks =~= spec_write_byte(m0.blocks, addr, off, val));
                        assert(final(self)@.blocks[i as int].wf());
                        lemma_wf_update(m0, self@, i as int);
                    }
                    true
                } else {
                    false
                }
            },
        }
    }

    /// Stores the word `val` little-endian at byte offset `off` of the block
    /// whose payload address is exactly `addr`.  Returns whether a block was
    /// written; a miss or an offset whose word would not fit is a no-op.
    pub fn write_word(&mut self, addr: usize, off: usize, val: u64) -> (ok: bool)
        requires
            old(self).wf(),
        ensures
            final(self).wf(),
            final(self)@.next_addr == old(self)@.next_addr,
            final(self)@.blocks == spec_write_word(old(self)@.blocks, addr, off, val),
            ok == (has_block(old(self)@.blocks, addr) && off + 8 <= block_of(
                old(self)@.blocks,
                addr,
            ).class_size),
    {
        let ghost m0 = self@;
        match self.find_block(addr) {
            None => false,
            Some(i) => {
                proof {
                    assert(m0.blocks[i as int].wf());
                }
                let class = self.blocks[i].class_size;
                if off <= usize::MAX - 8 && off + 8 <= class {
                    self.blocks[i].data[off] = (val % 0x100) as u8;
                    self.blocks[i].data[off + 1] = ((val / 0x100) % 0x100) as u8;
                    self.blocks[i].data[off + 2] = ((val / 0x10000) % 0x100) as u8;
                    self.blocks[i].data[off + 3] = ((val / 0x1000000) % 0x100) as u8;
                    self.blocks[i].data[off + 4] = ((val / 0x100000000) % 0x100) as u8;
                    self.blocks[i].data[off + 5] = ((val / 0x10000000000) % 0x100) as u8;
                    self.blocks[i].data[off + 6] = ((val / 0x1000000000000) % 0x100) as u8;
                    self.blocks[i].data[off + 7] = ((val / 0x100000000000000) % 0x100) as u8;
                    proof {
                        assert(self@.blocks[i as int].data =~= write_le_bytes(
                            m0.blocks[i as int].data,
                            off as int,
                            val,
                        ));
                        assert(self@.blocks =~= spec_write_word(m0.blocks, addr, off, val));
                        assert(final(self)@.blocks[i as int].wf());
                        lemma_wf_update(m0, self@, i as int);
                    }
                    true
                } else {
                    false
                }
            },
        }
    }

    /// Frees the block whose payload address is exactly `addr`; a miss is a
    /// reported no-op.
    pub fn free(&mut self, addr: usize)
        requires
            old(self).wf(),
        ensures
            final(self).wf(),
            final(self)@.next_addr == old(self)@.next_addr,
            final(self)@.blocks == spec_free(old(self)@.blocks, addr),
    {
        let _ = self.free_verbose(addr);
    }
}

/// A registry stays well formed when one block is replaced by another with
/// the same address and class.
proof fn lemma_wf_update(m0: RegistryModel, m1: RegistryModel, i: int)
    requires
        m0.wf(),
        0 <= i < m0.blocks.len(),
        m1.next_addr == m0.next_addr,
        m1.blocks.len() == m0.blocks.len(),
        forall|j: int| 0 <= j < m0.blocks.len() && j != i ==> m1.blocks[j] == m0.blocks[j],
        m1.blocks[i].wf(),
        m1.blocks[i].payload_addr == m0.blocks[i].payload_addr,
        m1.blocks[i].class_size == m0.blocks[i].class_size,
    ensures
        m1.wf(),
{
    assert forall|a: int, b: int|
        0 <= a < m1.blocks.len() && 0 <= b < m1.blocks.len() && a != b implies ranges_disjoint(
        #[trigger] m1.blocks[a],
        #[trigger] m1.blocks[b],
    ) by {
        assert(ranges_disjoint(m0.blocks[a], m0.blocks[b]));
    }
}

/// Serves a request of `size` bytes from the registry.  A zero-sized
/// request yields the null address and registers nothing; this is the
/// documented null-allocation contract, not a fault.
pub fn malloc(alloc: &mut Allocator, size: usize) -> (r: Result<usize, AllocError>)
    requires
        old(alloc).wf(),
    ensures
        final(alloc).wf(),
        size == 0 ==> r == Ok::<usize, AllocError>(0usize) && final(alloc)@ == old(alloc)@,
        size >= MAX_CLASS ==> r == Err::<usize, AllocError>(AllocError::OversizedRequest)
            && final(alloc)@ == old(alloc)@,
        1 <= size < MAX_CLASS && !spec_has_room(old(alloc)@, size) ==> r == Err::<
            usize,
            AllocError,
        >(AllocError::AddressSpaceExhausted) && final(alloc)@ == old(alloc)@,
        1 <= size < MAX_CLASS && spec_has_room(old(alloc)@, size) ==> {
            &&& r == Ok::<usize, AllocError>(old(alloc)@.next_addr)
            &&& final(alloc)@.blocks == old(alloc)@.blocks.push(
                spec_new_block(old(alloc)@.next_addr, size),
            )
            &&& final(alloc)@.next_addr == round_up_eight(
                old(alloc)@.next_addr + spec_class(size) as int,
            )
            &&& !has_block(old(alloc)@.blocks, old(alloc)@.next_addr)
            &&& old(alloc)@.next_addr != 0
        },
{
    if size == 0 {
        return Ok(0);
    }
    alloc.malloc(size)
}

/// Frees the block at `addr`; the null address is a no-op, and so is an
/// address that matches no tracked block.
pub fn free(alloc: &mut Allocator, addr: usize)
    requires
        old(alloc).wf(),
    ensures
        final(alloc).wf(),
        final(alloc)@.next_addr == old(alloc)@.next_addr,
        final(alloc)@.blocks == spec_free(old(alloc)@.blocks, addr),
{
    if addr != 0 {
        alloc.free(addr);
    } else {
        proof {
            if has_block(alloc@.blocks, 0) {
                let i = choose|i: int|
                    0 <= i < alloc@.blocks.len() && (#[trigger] alloc@.blocks[i]).payload_addr
                        == 0;
                assert(alloc@.blocks[i].wf());
            }
        }
    }
}

/// The boundary allocation entry: a zero or negative request yields the
/// null address with no diagnostic; a positive request is served by
/// `malloc`.
pub fn rgc_malloc(alloc: &mut Allocator, size: isize) -> (r: Result<usize, AllocError>)
    requires
        old(alloc).wf(),
    ensures
        final(alloc).wf(),
        size <= 0 ==> r == Ok::<usize, AllocError>(0usize) && final(alloc)@ == old(alloc)@,
        size > 0 ==> r == spec_rgc_malloc_result(old(alloc)@, size as usize),
        size > 0 && (size as usize) < MAX_CLASS && spec_has_room(old(alloc)@, size as usize) ==> {
            &&& final(alloc)@.blocks == old(alloc)@.blocks.push(
                spec_new_block(old(alloc)@.next_addr, size as usize),
            )
            &&& final(alloc)@.next_addr == round_up_eight(
                old(alloc)@.next_addr + spec_class(size as usize) as int,
            )
        },
        size <= 0 || (size as usize) >= MAX_CLASS || !spec_has_room(old(alloc)@, size as usize)
            ==> final(alloc)@ == old(alloc)@,
{
    if size <= 0 {
        return Ok(0);
    }
    malloc(alloc, size as usize)
}

/// What the boundary allocation entry returns for a positive request.
pub open spec fn spec_rgc_malloc_result(m: RegistryModel, size: usize) -> Result<
    usize,
    AllocError,
> {
    if size >= MAX_CLASS {
        Err(AllocError::OversizedRequest)
    } else if !spec_has_room(m, size) {
        Err(AllocError::AddressSpaceExhausted)
    } else {
        Ok(m.next_addr)
    }
}

/// Tears the registry down: clears the bookkeeping of every outstanding
/// block.  Mirrors the boundary `teardown` contract, which drops the
/// registry without visiting the blocks still alive in it.
pub fn alloc_clean(alloc: &mut Allocator)
    requires
        old(alloc).wf(),
    ensures
        final(alloc).wf(),
        final(alloc)@.blocks =~= Seq::<BlockModel>::empty(),
        final(alloc)@.next_addr == old(alloc)@.next_addr,
{
    alloc.blocks.clear();
    proof {
        assert(alloc@.blocks =~= Seq::<BlockModel>::empty());
    }
}

/// One-time setup check: the conservative scans read 8-byte words, so a
/// 64-bit pointer width is asserted before anything is served.
pub fn alloc_init() -> (r: Result<(), AllocError>)
    ensures
        r == Ok::<(), AllocError>(()) <==> usize::MAX as u64 == u64::MAX,
        r matches Err(e) ==> e == AllocError::UnsupportedArchitecture,
{
    if usize::MAX as u64 == u64::MAX {
        Ok(())
    } else {
        Err(AllocError::UnsupportedArchitecture)
    }
}

} // verus!
