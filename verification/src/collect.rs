//! The collection cycle: heap-graph construction, root scanning, reachability
//! traversal and the sweep.
//!
//! The policy, stated over the registry model and the two root regions: a
//! block survives a cycle exactly when some word-aligned slot of the static
//! region, the stack region, or a chain of live blocks' payloads leads to it
//! from a root-origin address.  The test is conservative and value-based: any
//! in-range word counts as a reference.

use crate::classify::is_class;
use crate::graph::{AddrSet, HeapGraph, ObjEntry, RegionModel, RootRegion};
use crate::reach::reaches;
use crate::registry::{has_block, Allocator, BlockModel, RegistryModel};
use crate::word::{read_word, word_at};
use vstd::prelude::*;

verus! {

/// True when the word slot at byte offset `off` of `src`'s payload is
/// word-aligned, holds a complete word, and that word falls inside `dst`'s
/// address range.
pub open spec fn block_word_hits(src: BlockModel, dst: BlockModel, off: int) -> bool {
    &&& 0 <= off
    &&& off % 8 == 0
    &&& off + 8 <= src.class_size
    &&& dst.range_contains(word_at(src.data, off))
}

/// The heap-to-heap edge relation: the block at `x` holds, at some aligned
/// offset, a word inside the range of the distinct block at `y`.
pub open spec fn heap_edge(blocks: Seq<BlockModel>, x: usize, y: usize) -> bool {
    exists|a: int, j: int, off: int|
        {
            &&& 0 <= a < blocks.len()
            &&& 0 <= j < blocks.len()
            &&& a != j
            &&& blocks[a].payload_addr == x
            &&& blocks[j].payload_addr == y
            &&& #[trigger] block_word_hits(blocks[a], blocks[j], off)
        }
}

/// The object table derived from the registry: payload address and class
/// size of every tracked block, in registry order.
pub open spec fn table_of(blocks: Seq<BlockModel>) -> Seq<ObjEntry> {
    blocks.map_values(|b: BlockModel| ObjEntry { addr: b.payload_addr, size: b.class_size })
}

/// True when the scan of `reg` finds, at byte offset `off`, a word-aligned,
/// complete, nonzero word inside the range of table entry `j`.
pub open spec fn root_hit(reg: RegionModel, t: Seq<ObjEntry>, off: int, j: int) -> bool {
    &&& 0 <= off
    &&& off + 8 <= reg.data.len()
    &&& (reg.base + off) % 8 == 0
    &&& word_at(reg.data, off) != 0
    &&& 0 <= j < t.len()
    &&& t[j].addr <= word_at(reg.data, off) < t[j].addr + t[j].size
}

/// The root-to-heap edge relation of one region: the word at the root
/// address `x` falls inside the range of the object at `y`.
pub open spec fn root_edge(reg: RegionModel, t: Seq<ObjEntry>, x: usize, y: usize) -> bool {
    exists|off: int, j: int|
        #[trigger] root_hit(reg, t, off, j) && x == reg.base + off && t[j].addr == y
}

/// True when the scan of `reg` finds any reference at the root address `x`.
pub open spec fn root_src(reg: RegionModel, t: Seq<ObjEntry>, x: usize) -> bool {
    exists|y: usize| #[trigger] root_edge(reg, t, x, y)
}

/// An address `x` that sources an edge of `g1` that `g0` did not have.
pub open spec fn new_src(g0: HeapGraph, g1: HeapGraph, x: usize) -> bool {
    exists|y: usize| #[trigger] g1.edge(x, y) && !g0.edge(x, y)
}

/// The combined edge relation of one collection cycle over the static
/// region `sreg` and the stack region `kreg`.
pub open spec fn gc_edge(
    blocks: Seq<BlockModel>,
    sreg: RegionModel,
    kreg: RegionModel,
    x: usize,
    y: usize,
) -> bool {
    ||| heap_edge(blocks, x, y)
    ||| root_edge(sreg, table_of(blocks), x, y)
    ||| root_edge(kreg, table_of(blocks), x, y)
}

/// The combined edge relation as a value, for the reachability definitions.
pub open spec fn gc_edge_fn(
    blocks: Seq<BlockModel>,
    sreg: RegionModel,
    kreg: RegionModel,
) -> spec_fn(usize, usize) -> bool {
    |x: usize, y: usize| gc_edge(blocks, sreg, kreg, x, y)
}

/// A root-origin node: an address that is not itself a tracked block's
/// payload address and whose scanned word matched some object.
pub open spec fn gc_root(
    blocks: Seq<BlockModel>,
    sreg: RegionModel,
    kreg: RegionModel,
    r: usize,
) -> bool {
    &&& !has_block(blocks, r)
    &&& (root_src(sreg, table_of(blocks), r) || root_src(kreg, table_of(blocks), r))
}

/// The collection policy: the block at `a` survives exactly when some
/// root-origin address reaches it over the combined edge relation.
pub open spec fn gc_survives(
    blocks: Seq<BlockModel>,
    sreg: RegionModel,
    kreg: RegionModel,
    a: usize,
) -> bool {
    exists|r: usize|
        #[trigger] gc_root(blocks, sreg, kreg, r) && reaches(gc_edge_fn(blocks, sreg, kreg), r, a)
}

/// The blocks that survive one collection cycle, in registry order.
pub open spec fn surviving(
    blocks: Seq<BlockModel>,
    sreg: RegionModel,
    kreg: RegionModel,
) -> Seq<BlockModel> {
    blocks.filter(|b: BlockModel| gc_survives(blocks, sreg, kreg, b.payload_addr))
}

/// A root-origin node of a built graph: a source that is not a tracked
/// block's payload address.
pub open spec fn graph_root(g: HeapGraph, blocks: Seq<BlockModel>, r: usize) -> bool {
    g.is_node(r) && !has_block(blocks, r)
}

/// Survival relative to a built graph: some root-origin node reaches `a`.
pub open spec fn graph_survives(g: HeapGraph, blocks: Seq<BlockModel>, a: usize) -> bool {
    exists|r: usize| #[trigger] graph_root(g, blocks, r) && reaches(g.edge_fn(), r, a)
}

/// Tracked blocks have pairwise distinct payload addresses: their ranges
/// are disjoint and never empty.
pub proof fn lemma_addr_unique(m: RegistryModel, i: int, j: int)
    requires
        m.wf(),
        0 <= i < m.blocks.len(),
        0 <= j < m.blocks.len(),
        m.blocks[i].payload_addr == m.blocks[j].payload_addr,
    ensures
        i == j,
{
    if i != j {
        assert(m.blocks[i].wf());
        assert(m.blocks[j].wf());
        assert(crate::registry::ranges_disjoint(m.blocks[i], m.blocks[j]));
        assert(is_class(m.blocks[i].class_size));
        assert(false);
    }
}

/// Root hits whose offset is below `off_bound`.
spec fn root_hit_upto(
    reg: RegionModel,
    t: Seq<ObjEntry>,
    x: usize,
    y: usize,
    off_bound: int,
) -> bool {
    exists|off: int, j: int|
        #[trigger] root_hit(reg, t, off, j) && off < off_bound && x == reg.base + off && t[j].addr
            == y
}

/// Root hits at offset exactly `off` whose table index is below `j_bound`.
spec fn root_hit_at_dst_lt(
    reg: RegionModel,
    t: Seq<ObjEntry>,
    x: usize,
    y: usize,
    off: int,
    j_bound: int,
) -> bool {
    exists|j: int|
        #[trigger] root_hit(reg, t, off, j) && j < j_bound && x == reg.base + off && t[j].addr == y
}

/// Hits whose source block index is below `i`.
spec fn hit_src_lt(blocks: Seq<BlockModel>, x: usize, y: usize, i: int) -> bool {
    exists|a: int, j: int, off: int|
        {
            &&& 0 <= a < i
            &&& 0 <= j < blocks.len()
            &&& a != j
            &&& blocks[a].payload_addr == x
            &&& blocks[j].payload_addr == y
            &&& #[trigger] block_word_hits(blocks[a], blocks[j], off)
        }
}

/// Hits whose source block index is exactly `i` and whose offset is below
/// `off_bound`.
spec fn hit_at_src_off_lt(
    blocks: Seq<BlockModel>,
    x: usize,
    y: usize,
    i: int,
    off_bound: int,
) -> bool {
    exists|j: int, off: int|
        {
            &&& 0 <= j < blocks.len()
            &&& j != i
            &&& blocks[i].payload_addr == x
            &&& blocks[j].payload_addr == y
            &&& off < off_bound
            &&& #[trigger] block_word_hits(blocks[i], blocks[j], off)
        }
}

/// Hits whose source block index is exactly `i`, at offset exactly `off`,
/// with a destination index below `j_bound`.
spec fn hit_at_src_off_dst_lt(
    blocks: Seq<BlockModel>,
    x: usize,
    y: usize,
    i: int,
    off: int,
    j_bound: int,
) -> bool {
    exists|j: int|
        {
            &&& 0 <= j < j_bound
            &&& j != i
            &&& blocks[i].payload_addr == x
            &&& #[trigger] blocks[j].payload_addr == y
            &&& block_word_hits(blocks[i], blocks[j], off)
        }
}

impl Allocator {
    /// Builds the heap graph's block nodes and heap-to-heap edges, together
    /// with the object table: every tracked block becomes a node, and every
    /// word-aligned slot of every block's payload that holds a value inside
    /// another block's range becomes an edge.
    pub fn build_heap_edges(&self) -> (r: (HeapGraph, Vec<ObjEntry>))
        requires
            self.wf(),
        ensures
            r.0.wf(),
            r.1@ == table_of(self@.blocks),
            forall|x: usize| r.0.is_node(x) <==> has_block(self@.blocks, x),
            forall|x: usize, y: usize| r.0.edge(x, y) <==> heap_edge(self@.blocks, x, y),
    {
        let ghost bm = self@.blocks;
        let mut g = HeapGraph::new();
        let mut t: Vec<ObjEntry> = Vec::new();
        let mut i: usize = 0;
        // Register every block as a node and an object-table entry.
        while i < self.blocks.len()
            invariant
                self.wf(),
                bm == self@.blocks,
                i <= bm.len(),
                g.wf(),
                t@.len() == i,
                forall|k: int|
                    0 <= k < i ==> t@[k] == (ObjEntry {
                        addr: bm[k].payload_addr,
                        size: bm[k].class_size,
                    }),
                forall|x: usize| g.is_node(x) <==> #[trigger] has_block(bm.take(i as int), x),
                forall|x: usize, y: usize| !g.edge(x, y),
            decreases bm.len() - i,
        {
            let addr = self.blocks[i].payload_addr;
            let size = self.blocks[i].class_size;
            g.add_node(addr);
            t.push(ObjEntry { addr, size });
            proof {
                lemma_has_block_take_step(bm, i as int);
            }
            i = i + 1;
        }
        proof {
            assert(t@ =~= table_of(bm));
            assert(bm.take(bm.len() as int) =~= bm);
        }
        // Scan every block's payload for words inside other blocks' ranges.
        let mut a: usize = 0;
        while a < self.blocks.len()
            invariant
                self.wf(),
                bm == self@.blocks,
                a <= bm.len(),
                g.wf(),
                t@ == table_of(bm),
                forall|x: usize| g.is_node(x) <==> has_block(bm, x),
                forall|x: usize, y: usize| g.edge(x, y) <==> hit_src_lt(bm, x, y, a as int),
            decreases bm.len() - a,
        {
            let src_addr = self.blocks[a].payload_addr;
            let class = self.blocks[a].class_size;
            proof {
                assert(bm[a as int].wf());
            }
            let mut off: usize = 0;
            while off + 8 <= class
                invariant
                    self.wf(),
                    bm == self@.blocks,
                    a < bm.len(),
                    src_addr == bm[a as int].payload_addr,
                    class == bm[a as int].class_size,
                    class == self.blocks@[a as int].data@.len(),
                    is_class(class),
                    off <= class,
                    off % 8 == 0,
                    g.wf(),
                    t@ == table_of(bm),
                    forall|x: usize| g.is_node(x) <==> has_block(bm, x),
                    forall|x: usize, y: usize|
                        g.edge(x, y) <==> hit_src_lt(bm, x, y, a as int) || hit_at_src_off_lt(
                            bm,
                            x,
                            y,
                            a as int,
                            off as int,
                        ),
                decreases class - off,
            {
                let w = read_word(&self.blocks[a].data, off);
                let mut j: usize = 0;
                while j < t.len()
                    invariant
                        self.wf(),
                        bm == self@.blocks,
                        a < bm.len(),
                        src_addr == bm[a as int].payload_addr,
                        class == bm[a as int].class_size,
                        off % 8 == 0,
                        off + 8 <= class,
                        w as int == word_at(bm[a as int].data, off as int),
                        j <= t@.len(),
                        g.wf(),
                        t@ == table_of(bm),
                        forall|x: usize| g.is_node(x) <==> has_block(bm, x),
                        forall|x: usize, y: usize|
                            g.edge(x, y) <==> hit_src_lt(bm, x, y, a as int) || hit_at_src_off_lt(
                                bm,
                                x,
                                y,
                                a as int,
                                off as int,
                            ) || hit_at_src_off_dst_lt(
                                bm,
                                x,
                                y,
                                a as int,
                                off as int,
                                j as int,
                            ),
                    decreases t@.len() - j,
                {
                    let entry_addr = t[j].addr;
                    let entry_size = t[j].size;
                    proof {
                        assert(bm[j as int].wf());
                        assert(bm[j as int].payload_addr + bm[j as int].class_size
                            <= self@.next_addr);
                    }
                    if entry_addr != src_addr {
                        let ghost g0 = g;
                        if entry_addr as u64 <= w && w < entry_addr as u64 + entry_size as u64 {
                            g.add_edge(src_addr, entry_addr);
                            proof {
                                assert(bm[j as int].range_contains(
                                    word_at(bm[a as int].data, off as int),
                                ));
                                assert(a as int != j as int) by {
                                    if a as int == j as int {
                                        assert(bm[a as int].payload_addr == entry_addr);
                                    }
                                }
                                assert(block_word_hits(bm[a as int], bm[j as int], off as int));
                                assert(hit_at_src_off_dst_lt(
                                    bm,
                                    src_addr,
                                    entry_addr,
                                    a as int,
                                    off as int,
                                    j as int + 1,
                                ));
                            }
                        } else {
                            proof {
                                assert(!bm[j as int].range_contains(
                                    word_at(bm[a as int].data, off as int),
                                ));
                            }
                        }
                        proof {
                            lemma_dst_step(bm, a as int, off as int, j as int, g0, g);
                        }
                    } else {
                        proof {
                            lemma_addr_unique(self@, a as int, j as int);
                            assert forall|x: usize, y: usize|
                                hit_at_src_off_dst_lt(
                                    bm,
                                    x,
                                    y,
                                    a as int,
                                    off as int,
                                    j as int + 1,
                                ) implies hit_at_src_off_dst_lt(
                                bm,
                                x,
                                y,
                                a as int,
                                off as int,
                                j as int,
                            ) by {
                                let k = choose|k: int|
                                    {
                                        &&& 0 <= k < j as int + 1
                                        &&& k != a as int
                                        &&& bm[a as int].payload_addr == x
                                        &&& (#[trigger] bm[k].payload_addr) == y
                                        &&& block_word_hits(bm[a as int], bm[k], off as int)
                                    };
                                assert(k != j as int);
                            }
                        }
                    }
                    j = j + 1;
                }
                proof {
                    lemma_off_step(bm, a as int, off as int);
                }
                off = off + 8;
            }
            proof {
                lemma_src_step(bm, a as int, off as int);
            }
            a = a + 1;
        }
        proof {
            assert forall|x: usize, y: usize|
                g.edge(x, y) <==> heap_edge(bm, x, y) by {
                if g.edge(x, y) {
                    assert(hit_src_lt(bm, x, y, bm.len() as int));
                }
                if heap_edge(bm, x, y) {
                    let (aa, jj, oo) = choose|aa: int, jj: int, oo: int|
                        {
                            &&& 0 <= aa < bm.len()
                            &&& 0 <= jj < bm.len()
                            &&& aa != jj
                            &&& bm[aa].payload_addr == x
                            &&& bm[jj].payload_addr == y
                            &&& #[trigger] block_word_hits(bm[aa], bm[jj], oo)
                        };
                    assert(hit_src_lt(bm, x, y, bm.len() as int));
                }
            }
        }
        (g, t)
    }
}

/// One more block extends the address set of a registry prefix by exactly
/// that block's address.
proof fn lemma_has_block_take_step(blocks: Seq<BlockModel>, i: int)
    requires
        0 <= i < blocks.len(),
    ensures
        forall|x: usize|
            #[trigger] has_block(blocks.take(i + 1), x) <==> has_block(blocks.take(i), x)
                || blocks[i].payload_addr == x,
{
    let pre = blocks.take(i);
    let cur = blocks.take(i + 1);
    assert forall|x: usize|
        #[trigger] has_block(cur, x) <==> has_block(pre, x) || blocks[i].payload_addr == x by {
        if has_block(cur, x) {
            let k = choose|k: int|
                0 <= k < cur.len() && (#[trigger] cur[k]).payload_addr == x;
            if k < i {
                assert(pre[k].payload_addr == x);
                assert(has_block(pre, x));
            } else {
                assert(cur[k] == blocks[i]);
            }
        }
        if has_block(pre, x) {
            let k = choose|k: int|
                0 <= k < pre.len() && (#[trigger] pre[k]).payload_addr == x;
            assert(cur[k].payload_addr == x);
            assert(has_block(cur, x));
        }
        if blocks[i].payload_addr == x {
            assert(cur[i].payload_addr == x);
            assert(has_block(cur, x));
        }
    }
}

/// After the destination loop has looked at `j`, the hits it accounts for
/// are exactly those below `j + 1`.
proof fn lemma_dst_step(
    blocks: Seq<BlockModel>,
    a: int,
    off: int,
    j: int,
    g0: HeapGraph,
    g1: HeapGraph,
)
    requires
        0 <= a < blocks.len(),
        0 <= j < blocks.len(),
        forall|x: usize, y: usize|
            g1.edge(x, y) <==> g0.edge(x, y) || (j != a && blocks[j].range_contains(
                word_at(blocks[a].data, off),
            ) && 0 <= off && off % 8 == 0 && off + 8 <= blocks[a].class_size && x
                == blocks[a].payload_addr && y == blocks[j].payload_addr),
    ensures
        forall|x: usize, y: usize|
            (g0.edge(x, y) || hit_at_src_off_dst_lt(blocks, x, y, a, off, j + 1)) <==> (g1.edge(
                x,
                y,
            ) || hit_at_src_off_dst_lt(blocks, x, y, a, off, j)),
{
    assert forall|x: usize, y: usize|
        (g0.edge(x, y) || hit_at_src_off_dst_lt(blocks, x, y, a, off, j + 1)) implies (g1.edge(
        x,
        y,
    ) || hit_at_src_off_dst_lt(blocks, x, y, a, off, j)) by {
        if !g0.edge(x, y) && hit_at_src_off_dst_lt(blocks, x, y, a, off, j + 1) {
            let k = choose|k: int|
                {
                    &&& 0 <= k < j + 1
                    &&& k != a
                    &&& blocks[a].payload_addr == x
                    &&& (#[trigger] blocks[k].payload_addr) == y
                    &&& block_word_hits(blocks[a], blocks[k], off)
                };
            if k == j {
                assert(g1.edge(x, y));
            } else {
                assert(hit_at_src_off_dst_lt(blocks, x, y, a, off, j));
            }
        }
    }
    assert forall|x: usize, y: usize|
        (g1.edge(x, y) || hit_at_src_off_dst_lt(blocks, x, y, a, off, j)) implies (g0.edge(x, y)
            || hit_at_src_off_dst_lt(blocks, x, y, a, off, j + 1)) by {
        if hit_at_src_off_dst_lt(blocks, x, y, a, off, j) {
            let k = choose|k: int|
                {
                    &&& 0 <= k < j
                    &&& k != a
                    &&& blocks[a].payload_addr == x
                    &&& (#[trigger] blocks[k].payload_addr) == y
                    &&& block_word_hits(blocks[a], blocks[k], off)
                };
            assert(hit_at_src_off_dst_lt(blocks, x, y, a, off, j + 1));
        } else {
            if g1.edge(x, y) && !g0.edge(x, y) {
                assert(block_word_hits(blocks[a], blocks[j], off));
                assert(hit_at_src_off_dst_lt(blocks, x, y, a, off, j + 1));
            }
        }
    }
}

/// A full pass over the destinations at offset `off` extends the covered
/// offsets to `off + 8`.
proof fn lemma_off_step(blocks: Seq<BlockModel>, a: int, off: int)
    requires
        0 <= a < blocks.len(),
        off % 8 == 0,
        0 <= off,
    ensures
        forall|x: usize, y: usize|
            (hit_at_src_off_lt(blocks, x, y, a, off) || hit_at_src_off_dst_lt(
                blocks,
                x,
                y,
                a,
                off,
                blocks.len() as int,
            )) <==> hit_at_src_off_lt(blocks, x, y, a, off + 8),
{
    assert forall|x: usize, y: usize|
        (hit_at_src_off_lt(blocks, x, y, a, off) || hit_at_src_off_dst_lt(
            blocks,
            x,
            y,
            a,
            off,
            blocks.len() as int,
        )) implies hit_at_src_off_lt(blocks, x, y, a, off + 8) by {
        if hit_at_src_off_lt(blocks, x, y, a, off) {
            let (k, o) = choose|k: int, o: int|
                {
                    &&& 0 <= k < blocks.len()
                    &&& k != a
                    &&& blocks[a].payload_addr == x
                    &&& blocks[k].payload_addr == y
                    &&& o < off
                    &&& #[trigger] block_word_hits(blocks[a], blocks[k], o)
                };
            assert(hit_at_src_off_lt(blocks, x, y, a, off + 8));
        } else {
            let k = choose|k: int|
                {
                    &&& 0 <= k < blocks.len()
                    &&& k != a
                    &&& blocks[a].payload_addr == x
                    &&& (#[trigger] blocks[k].payload_addr) == y
                    &&& block_word_hits(blocks[a], blocks[k], off)
                };
            assert(block_word_hits(blocks[a], blocks[k], off) && off < off + 8);
            assert(hit_at_src_off_lt(blocks, x, y, a, off + 8));
        }
    }
    assert forall|x: usize, y: usize|
        hit_at_src_off_lt(blocks, x, y, a, off + 8) implies (hit_at_src_off_lt(
        blocks,
        x,
        y,
        a,
        off,
    ) || hit_at_src_off_dst_lt(blocks, x, y, a, off, blocks.len() as int)) by {
        let (k, o) = choose|k: int, o: int|
            {
                &&& 0 <= k < blocks.len()
                &&& k != a
                &&& blocks[a].payload_addr == x
                &&& blocks[k].payload_addr == y
                &&& o < off + 8
                &&& #[trigger] block_word_hits(blocks[a], blocks[k], o)
            };
        if o < off {
            assert(hit_at_src_off_lt(blocks, x, y, a, off));
        } else {
            assert(o % 8 == 0 && off <= o < off + 8);
            assert(o == off) by {
                if o != off {
                    assert(off < o < off + 8);
                    assert(o % 8 == 0 && off % 8 == 0);
                    assert((o - off) % 8 == 0) by {
                        vstd::arithmetic::div_mod::lemma_sub_mod_noop(o, off, 8);
                    }
                    assert((o - off) % 8 == o - off) by {
                        vstd::arithmetic::div_mod::lemma_small_mod((o - off) as nat, 8);
                    }
                    assert(0 < o - off < 8);
                    assert(false);
                }
            }
            assert(hit_at_src_off_dst_lt(blocks, x, y, a, off, blocks.len() as int));
        }
    }
}

/// A full pass over the offsets of block `a` extends the covered sources to
/// `a + 1`; `off_end` is where the offset loop stopped.
proof fn lemma_src_step(blocks: Seq<BlockModel>, a: int, off_end: int)
    requires
        0 <= a < blocks.len(),
        off_end % 8 == 0,
        0 <= off_end,
        off_end + 8 > blocks[a].class_size,
    ensures
        forall|x: usize, y: usize|
            (hit_src_lt(blocks, x, y, a) || hit_at_src_off_lt(blocks, x, y, a, off_end)) <==>
            hit_src_lt(blocks, x, y, a + 1),
{
    assert forall|x: usize, y: usize|
        (hit_src_lt(blocks, x, y, a) || hit_at_src_off_lt(blocks, x, y, a, off_end)) implies
        hit_src_lt(blocks, x, y, a + 1) by {
        if hit_src_lt(blocks, x, y, a) {
            let (aa, k, o) = choose|aa: int, k: int, o: int|
                {
                    &&& 0 <= aa < a
                    &&& 0 <= k < blocks.len()
                    &&& aa != k
                    &&& blocks[aa].payload_addr == x
                    &&& blocks[k].payload_addr == y
                    &&& #[trigger] block_word_hits(blocks[aa], blocks[k], o)
                };
            assert(hit_src_lt(blocks, x, y, a + 1));
        } else {
            let (k, o) = choose|k: int, o: int|
                {
                    &&& 0 <= k < blocks.len()
                    &&& k != a
                    &&& blocks[a].payload_addr == x
                    &&& blocks[k].payload_addr == y
                    &&& o < off_end
                    &&& #[trigger] block_word_hits(blocks[a], blocks[k], o)
                };
            assert(hit_src_lt(blocks, x, y, a + 1));
        }
    }
    assert forall|x: usize, y: usize|
        hit_src_lt(blocks, x, y, a + 1) implies (hit_src_lt(blocks, x, y, a) || hit_at_src_off_lt(
        blocks,
        x,
        y,
        a,
        off_end,
    )) by {
        let (aa, k, o) = choose|aa: int, k: int, o: int|
            {
                &&& 0 <= aa < a + 1
                &&& 0 <= k < blocks.len()
                &&& aa != k
                &&& blocks[aa].payload_addr == x
                &&& blocks[k].payload_addr == y
                &&& #[trigger] block_word_hits(blocks[aa], blocks[k], o)
            };
        if aa < a {
            assert(hit_src_lt(blocks, x, y, a));
        } else {
            assert(o + 8 <= blocks[a].class_size < off_end + 8);
            assert(hit_at_src_off_lt(blocks, x, y, a, off_end));
        }
    }
}

/// An edge of a graph always has its source registered as a node.
proof fn lemma_edge_src_is_node(g: HeapGraph, x: usize, y: usize)
    requires
        g.edge(x, y),
    ensures
        g.is_node(x),
{
    let i = choose|i: int|
        0 <= i < g.nodes@.len() && (#[trigger] g.nodes@[i]).src == x && g.nodes@[i].dests@.contains(
            y,
        );
    assert(g.nodes@[i].src == x);
}

/// Adding one edge to a graph keeps the on-demand-node bookkeeping: the
/// nodes are the base graph's nodes plus the sources of the new edges.
proof fn lemma_new_src_track(base: HeapGraph, g0: HeapGraph, g1: HeapGraph, a: usize, b: usize)
    requires
        forall|x: usize, y: usize| g1.edge(x, y) <==> g0.edge(x, y) || (x == a && y == b),
        forall|x: usize| g1.is_node(x) <==> g0.is_node(x) || x == a,
        forall|x: usize| g0.is_node(x) <==> base.is_node(x) || new_src(base, g0, x),
        g1.edge(a, b),
    ensures
        forall|x: usize| g1.is_node(x) <==> base.is_node(x) || new_src(base, g1, x),
{
    assert forall|x: usize| g1.is_node(x) <==> base.is_node(x) || new_src(base, g1, x) by {
        if g1.is_node(x) {
            if x == a {
                if base.edge(a, b) {
                    lemma_edge_src_is_node(base, a, b);
                } else {
                    assert(g1.edge(a, b) && !base.edge(a, b));
                    assert(new_src(base, g1, a));
                }
            } else {
                assert(g0.is_node(x));
                if new_src(base, g0, x) {
                    let y = choose|y: usize| #[trigger] g0.edge(x, y) && !base.edge(x, y);
                    assert(g1.edge(x, y) && !base.edge(x, y));
                    assert(new_src(base, g1, x));
                }
            }
        }
        if base.is_node(x) {
            assert(g0.is_node(x));
        }
        if new_src(base, g1, x) {
            let y = choose|y: usize| #[trigger] g1.edge(x, y) && !base.edge(x, y);
            if g0.edge(x, y) {
                assert(new_src(base, g0, x));
            } else {
                assert(x == a);
            }
        }
    }
}

/// After the table loop has looked at entry `j`, the root hits it accounts
/// for at the current offset are exactly those below `j + 1`.
proof fn lemma_root_dst_step(
    reg: RegionModel,
    t: Seq<ObjEntry>,
    off: int,
    j: int,
    base: HeapGraph,
    g0: HeapGraph,
    g1: HeapGraph,
)
    requires
        0 <= j < t.len(),
        forall|x: usize, y: usize|
            g0.edge(x, y) <==> base.edge(x, y) || root_hit_upto(reg, t, x, y, off)
                || root_hit_at_dst_lt(reg, t, x, y, off, j),
        forall|x: usize, y: usize|
            g1.edge(x, y) <==> g0.edge(x, y) || (root_hit(reg, t, off, j) && x == reg.base + off
                && y == t[j].addr),
    ensures
        forall|x: usize, y: usize|
            g1.edge(x, y) <==> base.edge(x, y) || root_hit_upto(reg, t, x, y, off)
                || root_hit_at_dst_lt(reg, t, x, y, off, j + 1),
{
    assert forall|x: usize, y: usize|
        g1.edge(x, y) <==> base.edge(x, y) || root_hit_upto(reg, t, x, y, off)
            || root_hit_at_dst_lt(reg, t, x, y, off, j + 1) by {
        if g1.edge(x, y) {
            if g0.edge(x, y) {
                if root_hit_at_dst_lt(reg, t, x, y, off, j) {
                    let k = choose|k: int|
                        #[trigger] root_hit(reg, t, off, k) && k < j && x == reg.base + off
                            && t[k].addr == y;
                    assert(root_hit_at_dst_lt(reg, t, x, y, off, j + 1));
                }
            } else {
                assert(root_hit(reg, t, off, j) && x == reg.base + off && t[j].addr == y);
                assert(root_hit_at_dst_lt(reg, t, x, y, off, j + 1));
            }
        }
        if root_hit_at_dst_lt(reg, t, x, y, off, j + 1) {
            let k = choose|k: int|
                #[trigger] root_hit(reg, t, off, k) && k < j + 1 && x == reg.base + off && t[k].addr
                    == y;
            if k < j {
                assert(root_hit_at_dst_lt(reg, t, x, y, off, j));
            } else {
                assert(root_hit(reg, t, off, j) && x == reg.base + off && y == t[j].addr);
            }
        }
    }
}

/// Word-aligned offsets come 8 bytes apart: a full pass over the table at
/// offset `off` extends the covered offsets to `off + 8`.
proof fn lemma_root_off_advance(reg: RegionModel, t: Seq<ObjEntry>, off: int)
    requires
        0 <= off,
        (reg.base + off) % 8 == 0,
    ensures
        forall|x: usize, y: usize|
            (root_hit_upto(reg, t, x, y, off) || root_hit_at_dst_lt(reg, t, x, y, off, t.len() as int))
                <==> root_hit_upto(reg, t, x, y, off + 8),
{
    assert forall|x: usize, y: usize|
        (root_hit_upto(reg, t, x, y, off) || root_hit_at_dst_lt(reg, t, x, y, off, t.len() as int))
            <==> root_hit_upto(reg, t, x, y, off + 8) by {
        if root_hit_upto(reg, t, x, y, off) {
            let (o, k) = choose|o: int, k: int|
                #[trigger] root_hit(reg, t, o, k) && o < off && x == reg.base + o && t[k].addr == y;
            assert(root_hit_upto(reg, t, x, y, off + 8));
        }
        if root_hit_at_dst_lt(reg, t, x, y, off, t.len() as int) {
            let k = choose|k: int|
                #[trigger] root_hit(reg, t, off, k) && k < t.len() && x == reg.base + off
                    && t[k].addr == y;
            assert(root_hit(reg, t, off, k) && off < off + 8);
            assert(root_hit_upto(reg, t, x, y, off + 8));
        }
        if root_hit_upto(reg, t, x, y, off + 8) {
            let (o, k) = choose|o: int, k: int|
                #[trigger] root_hit(reg, t, o, k) && o < off + 8 && x == reg.base + o && t[k].addr
                    == y;
            if o < off {
                assert(root_hit_upto(reg, t, x, y, off));
            } else {
                assert(o == off) by {
                    assert((reg.base + o) % 8 == 0 && (reg.base + off) % 8 == 0);
                    assert((o - off) % 8 == 0) by {
                        vstd::arithmetic::div_mod::lemma_sub_mod_noop(
                            reg.base + o,
                            reg.base + off,
                            8,
                        );
                    }
                    if o != off {
                        vstd::arithmetic::div_mod::lemma_small_mod((o - off) as nat, 8);
                        assert(false);
                    }
                }
                assert(root_hit_at_dst_lt(reg, t, x, y, off, t.len() as int));
            }
        }
    }
}

impl Allocator {
    /// Walks the region from its first 8-byte-aligned address, low address
    /// to high, in word strides.  At each address it reads one word, skips
    /// an exact zero, and otherwise adds an edge from the root address
    /// itself to every object whose byte range contains the word.
    /// Root-origin nodes are created in the graph on demand.
    pub fn scan_region(reg: &RootRegion, hg: &mut HeapGraph, objs: &Vec<ObjEntry>)
        requires
            reg@.wf(),
            old(hg).wf(),
            forall|j: int|
                0 <= j < objs@.len() ==> (#[trigger] objs@[j]).addr + objs@[j].size <= usize::MAX,
        ensures
            final(hg).wf(),
            forall|x: usize, y: usize|
                final(hg).edge(x, y) <==> old(hg).edge(x, y) || root_edge(reg@, objs@, x, y),
            forall|x: usize|
                final(hg).is_node(x) <==> old(hg).is_node(x) || new_src(*old(hg), *final(hg), x),
    {
        let len = reg.data.len();
        if len < 8 {
            proof {
                assert forall|x: usize, y: usize| !root_edge(reg@, objs@, x, y) by {
                    if root_edge(reg@, objs@, x, y) {
                        let (o, k) = choose|o: int, k: int|
                            #[trigger] root_hit(reg@, objs@, o, k) && x == reg@.base + o
                                && objs@[k].addr == y;
                        assert(o + 8 <= reg@.data.len());
                        assert(false);
                    }
                }
                assert forall|x: usize| !new_src(*old(hg), *hg, x) by {
                    if new_src(*old(hg), *hg, x) {
                        let y = choose|y: usize| #[trigger] hg.edge(x, y) && !old(hg).edge(x, y);
                        assert(false);
                    }
                }
            }
            return;
        }
        let start_off: usize = if reg.base % 8 == 0 {
            0
        } else {
            8 - reg.base % 8
        };
        proof {
            assert((reg@.base + start_off) % 8 == 0) by {
                let base = reg@.base as int;
                vstd::arithmetic::div_mod::lemma_fundamental_div_mod(base, 8);
                if base % 8 == 0 {
                    vstd::arithmetic::div_mod::lemma_mod_multiples_basic(base / 8, 8);
                    assert(base + start_off == (base / 8) * 8);
                } else {
                    vstd::arithmetic::div_mod::lemma_mod_multiples_basic(base / 8 + 1, 8);
                    assert(base + start_off == (base / 8 + 1) * 8);
                }
            }
            assert forall|x: usize, y: usize|
                !root_hit_upto(reg@, objs@, x, y, start_off as int) by {
                if root_hit_upto(reg@, objs@, x, y, start_off as int) {
                    let (o, k) = choose|o: int, k: int|
                        #[trigger] root_hit(reg@, objs@, o, k) && o < start_off && x == reg@.base
                            + o && objs@[k].addr == y;
                    assert((reg@.base + o) % 8 == 0 && (reg@.base + start_off) % 8 == 0);
                    assert((start_off - o) % 8 == 0) by {
                        vstd::arithmetic::div_mod::lemma_sub_mod_noop(
                            reg@.base + start_off,
                            reg@.base + o,
                            8,
                        );
                    }
                    vstd::arithmetic::div_mod::lemma_small_mod((start_off - o) as nat, 8);
                    assert(false);
                }
            }
        }
        let mut off = start_off;
        while off <= len - 8
            invariant
                reg@.wf(),
                old(hg).wf(),
                hg.wf(),
                forall|j: int|
                    0 <= j < objs@.len() ==> (#[trigger] objs@[j]).addr + objs@[j].size
                        <= usize::MAX,
                len == reg@.data.len(),
                8 <= len,
                start_off < 8,
                start_off <= off,
                (reg@.base + off) % 8 == 0,
                forall|x: usize, y: usize|
                    hg.edge(x, y) <==> old(hg).edge(x, y) || root_hit_upto(
                        reg@,
                        objs@,
                        x,
                        y,
                        off as int,
                    ),
                forall|x: usize| hg.is_node(x) <==> old(hg).is_node(x) || new_src(*old(hg), *hg, x),
            decreases len - off,
        {
            let w = read_word(&reg.data, off);
            let root_addr = reg.base + off;
            if w != 0 {
                let mut j: usize = 0;
                while j < objs.len()
                    invariant
                        reg@.wf(),
                        old(hg).wf(),
                        hg.wf(),
                        forall|jj: int|
                            0 <= jj < objs@.len() ==> (#[trigger] objs@[jj]).addr + objs@[jj].size
                                <= usize::MAX,
                        len == reg@.data.len(),
                        off + 8 <= len,
                        (reg@.base + off) % 8 == 0,
                        root_addr == reg@.base + off,
                        w as int == word_at(reg@.data, off as int),
                        w != 0,
                        j <= objs@.len(),
                        forall|x: usize, y: usize|
                            hg.edge(x, y) <==> old(hg).edge(x, y) || root_hit_upto(
                                reg@,
                                objs@,
                                x,
                                y,
                                off as int,
                            ) || root_hit_at_dst_lt(reg@, objs@, x, y, off as int, j as int),
                        forall|x: usize|
                            hg.is_node(x) <==> old(hg).is_node(x) || new_src(*old(hg), *hg, x),
                    decreases objs@.len() - j,
                {
                    let ghost g0 = *hg;
                    let oa = objs[j].addr;
                    let osz = objs[j].size;
                    if oa as u64 <= w && w < oa as u64 + osz as u64 {
                        hg.add_edge(root_addr, oa);
                        proof {
                            assert(root_hit(reg@, objs@, off as int, j as int));
                            assert(hg.edge(root_addr, oa));
                            lemma_new_src_track(*old(hg), g0, *hg, root_addr, oa);
                        }
                    } else {
                        proof {
                            assert(!root_hit(reg@, objs@, off as int, j as int));
                        }
                    }
                    proof {
                        lemma_root_dst_step(
                            reg@,
                            objs@,
                            off as int,
                            j as int,
                            *old(hg),
                            g0,
                            *hg,
                        );
                    }
                    j = j + 1;
                }
                proof {
                    lemma_root_off_advance(reg@, objs@, off as int);
                }
            } else {
                proof {
                    assert forall|x: usize, y: usize|
                        !root_hit_at_dst_lt(reg@, objs@, x, y, off as int, objs@.len() as int) by {
                        if root_hit_at_dst_lt(reg@, objs@, x, y, off as int, objs@.len() as int) {
                            let k = choose|k: int|
                                #[trigger] root_hit(reg@, objs@, off as int, k) && k < objs@.len()
                                    && x == reg@.base + off && objs@[k].addr == y;
                            assert(word_at(reg@.data, off as int) != 0);
                            assert(false);
                        }
                    }
                    lemma_root_off_advance(reg@, objs@, off as int);
                }
            }
            off = off + 8;
        }
        proof {
            assert forall|x: usize, y: usize|
                root_edge(reg@, objs@, x, y) <==> root_hit_upto(reg@, objs@, x, y, off as int) by {
                if root_edge(reg@, objs@, x, y) {
                    let (o, k) = choose|o: int, k: int|
                        #[trigger] root_hit(reg@, objs@, o, k) && x == reg@.base + o
                            && objs@[k].addr == y;
                    assert(o + 8 <= len);
                    assert(o < off);
                    assert(root_hit_upto(reg@, objs@, x, y, off as int));
                }
                if root_hit_upto(reg@, objs@, x, y, off as int) {
                    let (o, k) = choose|o: int, k: int|
                        #[trigger] root_hit(reg@, objs@, o, k) && o < off && x == reg@.base + o
                            && objs@[k].addr == y;
                    assert(root_edge(reg@, objs@, x, y));
                }
            }
        }
    }
}

/// The set of source addresses of a graph's nodes.
pub open spec fn node_src_set(g: HeapGraph) -> Set<usize> {
    g.nodes@.map_values(|n: crate::graph::GraphNode| n.src).to_set()
}

/// `node_src_set` holds exactly the graph's nodes.
proof fn lemma_node_src_set(g: HeapGraph, a: usize)
    ensures
        node_src_set(g).contains(a) <==> g.is_node(a),
{
    let m = g.nodes@.map_values(|n: crate::graph::GraphNode| n.src);
    if m.contains(a) {
        let i = choose|i: int| 0 <= i < m.len() && m[i] == a;
        assert(g.nodes@[i].src == a);
    }
    if g.is_node(a) {
        let i = choose|i: int| 0 <= i < g.nodes@.len() && (#[trigger] g.nodes@[i]).src == a;
        assert(m[i] == a);
        assert(m.contains(a));
    }
}

/// The traversal's termination measure: how many graph nodes (and the start
/// address) are still unvisited.
pub open spec fn dfs_pending(g: HeapGraph, start: usize, visited: Set<usize>) -> nat {
    node_src_set(g).insert(start).difference(visited).len()
}

impl Allocator {
    /// Depth-first traversal from `start_node`: marks `start_node` and every
    /// address the graph reaches from it in `visited`.  An explicit work
    /// stack replaces the recursion of a textbook DFS, so long reference
    /// chains cannot exhaust the call stack.  A start node missing from the
    /// graph is marked and contributes nothing further.
    #[allow(non_snake_case)]
    pub fn graph_DFS(start_node: usize, visited: &mut AddrSet, hg: &HeapGraph)
        requires
            hg.wf(),
            forall|a: usize, b: usize| #[trigger] hg.edge(a, b) ==> hg.is_node(b),
            forall|a: usize, b: usize|
                old(visited)@.contains(a) && #[trigger] hg.edge(a, b)
                    ==> old(visited)@.contains(b),
        ensures
            forall|d: usize|
                final(visited)@.contains(d) <==> old(visited)@.contains(d) || reaches(
                    hg.edge_fn(),
                    start_node,
                    d,
                ),
            forall|a: usize, b: usize|
                final(visited)@.contains(a) && #[trigger] hg.edge(a, b)
                    ==> final(visited)@.contains(b),
    {
        let ghost e = hg.edge_fn();
        let mut stack: Vec<usize> = Vec::new();
        stack.push(start_node);
        proof {
            crate::reach::lemma_reaches_self(e, start_node);
            assert(stack@[0] == start_node);
            assert(stack@.contains(start_node));
        }
        while stack.len() > 0
            invariant
                hg.wf(),
                e == hg.edge_fn(),
                forall|a: usize, b: usize| #[trigger] hg.edge(a, b) ==> hg.is_node(b),
                forall|d: usize| old(visited)@.contains(d) ==> visited@.contains(d),
                forall|d: usize|
                    visited@.contains(d) ==> old(visited)@.contains(d) || reaches(
                        e,
                        start_node,
                        d,
                    ),
                forall|k: int|
                    0 <= k < stack@.len() ==> reaches(e, start_node, #[trigger] stack@[k]),
                forall|k: int|
                    0 <= k < stack@.len() ==> hg.is_node(#[trigger] stack@[k]) || stack@[k]
                        == start_node,
                forall|a: usize, b: usize|
                    visited@.contains(a) && #[trigger] hg.edge(a, b) ==> visited@.contains(b)
                        || stack@.contains(b),
                visited@.contains(start_node) || stack@.contains(start_node),
            decreases dfs_pending(*hg, start_node, visited@), stack@.len(),
        {
            let ghost stack0 = stack@;
            let ghost vis0 = visited@;
            let n = stack.pop().unwrap();
            proof {
                assert(n == stack0.last());
                assert(reaches(e, start_node, n));
                assert forall|b: usize| stack0.contains(b) implies stack@.contains(b) || b == n by {
                    let k = choose|k: int| 0 <= k < stack0.len() && stack0[k] == b;
                    if k < stack0.len() - 1 {
                        assert(stack@[k] == b);
                    }
                }
            }
            let already = visited.contains(n);
            if !already {
                visited.insert(n);
                proof {
                    lemma_node_src_set(*hg, n);
                    let s0 = node_src_set(*hg).insert(start_node).difference(vis0);
                    let s1 = node_src_set(*hg).insert(start_node).difference(vis0.insert(n));
                    assert(s1 =~= s0.remove(n));
                    assert(s0.contains(n));
                    vstd::seq_lib::seq_to_set_is_finite(
                        hg.nodes@.map_values(|nd: crate::graph::GraphNode| nd.src),
                    );
                    vstd::set::axiom_set_insert_finite(node_src_set(*hg), start_node);
                    vstd::set::axiom_set_difference_finite(
                        node_src_set(*hg).insert(start_node),
                        vis0,
                    );
                    vstd::set::axiom_set_remove_len(s0, n);
                    assert(dfs_pending(*hg, start_node, visited@) < dfs_pending(
                        *hg,
                        start_node,
                        vis0,
                    ));
                }
                let found = hg.find_src(n);
                match found {
                    Some(i) => {
                        let ghost dests = hg.nodes@[i as int].dests@;
                        let mut k: usize = 0;
                        while k < hg.nodes[i].dests.len()
                            invariant
                                hg.wf(),
                                e == hg.edge_fn(),
                                forall|a: usize, b: usize|
                                    #[trigger] hg.edge(a, b) ==> hg.is_node(b),
                                i < hg.nodes@.len(),
                                hg.nodes@[i as int].src == n,
                                dests == hg.nodes@[i as int].dests@,
                                k <= dests.len(),
                                visited@ == vis0.insert(n),
                                reaches(e, start_node, n),
                                forall|d: usize| old(visited)@.contains(d) ==> visited@.contains(d),
                                forall|d: usize|
                                    visited@.contains(d) ==> old(visited)@.contains(d) || reaches(
                                        e,
                                        start_node,
                                        d,
                                    ),
                                forall|kk: int|
                                    0 <= kk < stack@.len() ==> reaches(
                                        e,
                                        start_node,
                                        #[trigger] stack@[kk],
                                    ),
                                forall|kk: int|
                                    0 <= kk < stack@.len() ==> hg.is_node(#[trigger] stack@[kk])
                                        || stack@[kk] == start_node,
                                forall|a: usize, b: usize|
                                    visited@.contains(a) && #[trigger] hg.edge(a, b)
                                        ==> visited@.contains(b) || stack@.contains(b) || (a == n
                                        && exists|m: int| k <= m < dests.len() && dests[m] == b),
                                visited@.contains(start_node) || stack@.contains(start_node),
                            decreases dests.len() - k,
                        {
                            let d = hg.nodes[i].dests[k];
                            let ghost stack1 = stack@;
                            stack.push(d);
                            proof {
                                assert(hg.edge(n, d)) by {
                                    assert(hg.nodes@[i as int].src == n
                                        && hg.nodes@[i as int].dests@.contains(d)) by {
                                        assert(dests[k as int] == d);
                                    }
                                }
                                assert(e(n, d));
                                crate::reach::lemma_reaches_extend(e, start_node, n, d);
                                assert forall|b: usize| stack1.contains(b) implies
                                    stack@.contains(b) by {
                                    let kk = choose|kk: int|
                                        0 <= kk < stack1.len() && stack1[kk] == b;
                                    assert(stack@[kk] == b);
                                }
                                assert(stack@[stack@.len() - 1] == d);
                                assert(stack@.contains(d));
                            }
                            k = k + 1;
                        }
                        proof {
                            assert forall|a: usize, b: usize|
                                visited@.contains(a) && #[trigger] hg.edge(a, b) implies
                                visited@.contains(b) || stack@.contains(b) by {
                                if a == n && !visited@.contains(b) && !stack@.contains(b) {
                                    assert(exists|m: int|
                                        k <= m < dests.len() && dests[m] == b);
                                    assert(false);
                                }
                            }
                        }
                    },
                    None => {
                        proof {
                            assert forall|a: usize, b: usize|
                                visited@.contains(a) && #[trigger] hg.edge(a, b) implies
                                visited@.contains(b) || stack@.contains(b) by {
                                if a == n {
                                    lemma_edge_src_is_node(*hg, a, b);
                                    assert(false);
                                }
                            }
                        }
                    },
                }
            }
        }
        proof {
            assert(visited@.contains(start_node));
            assert forall|d: usize|
                visited@.contains(d) <==> old(visited)@.contains(d) || reaches(
                    hg.edge_fn(),
                    start_node,
                    d,
                ) by {
                if reaches(hg.edge_fn(), start_node, d) && !visited@.contains(d) {
                    crate::reach::lemma_reaches_in_closed(e, visited@, start_node, d);
                }
            }
        }
    }
}

/// The byte total of a sequence of blocks is never negative.
proof fn lemma_total_nonneg(blocks: Seq<BlockModel>)
    ensures
        crate::registry::total_class_bytes(blocks) >= 0,
    decreases blocks.len(),
{
    if blocks.len() > 0 {
        lemma_total_nonneg(blocks.drop_last());
    }
}

/// The byte total distributes over concatenation.
proof fn lemma_total_concat(s: Seq<BlockModel>, t: Seq<BlockModel>)
    ensures
        crate::registry::total_class_bytes(s + t) == crate::registry::total_class_bytes(s)
            + crate::registry::total_class_bytes(t),
    decreases t.len(),
{
    if t.len() == 0 {
        assert(s + t =~= s);
    } else {
        lemma_total_concat(s, t.drop_last());
        assert((s + t).drop_last() =~= s + t.drop_last());
        assert((s + t).last() == t.last());
    }
}

/// The index of a block with the greatest payload address.
spec fn argmax_addr(blocks: Seq<BlockModel>) -> int
    recommends
        blocks.len() > 0,
    decreases blocks.len(),
{
    if blocks.len() <= 1 {
        0
    } else {
        let r = argmax_addr(blocks.drop_last());
        if blocks.last().payload_addr >= blocks[r].payload_addr {
            blocks.len() - 1
        } else {
            r
        }
    }
}

/// `argmax_addr` names a valid index whose address no block exceeds.
proof fn lemma_argmax_addr(blocks: Seq<BlockModel>)
    requires
        blocks.len() > 0,
    ensures
        0 <= argmax_addr(blocks) < blocks.len(),
        forall|j: int|
            0 <= j < blocks.len() ==> (#[trigger] blocks[j]).payload_addr
                <= blocks[argmax_addr(blocks)].payload_addr,
    decreases blocks.len(),
{
    if blocks.len() > 1 {
        lemma_argmax_addr(blocks.drop_last());
        assert(forall|j: int|
            0 <= j < blocks.len() - 1 ==> (#[trigger] blocks[j]) == blocks.drop_last()[j]);
    }
}

/// Pairwise-disjoint blocks that all lie below `bound` have a byte total of
/// at most `bound`.
proof fn lemma_total_bounded_below(blocks: Seq<BlockModel>, bound: int)
    requires
        0 <= bound,
        forall|i: int|
            0 <= i < blocks.len() ==> (#[trigger] blocks[i]).payload_addr + blocks[i].class_size
                <= bound,
        forall|i: int| 0 <= i < blocks.len() ==> (#[trigger] blocks[i]).class_size >= 1,
        forall|i: int, j: int|
            0 <= i < blocks.len() && 0 <= j < blocks.len() && i != j
                ==> crate::registry::ranges_disjoint(
                #[trigger] blocks[i],
                #[trigger] blocks[j],
            ),
    ensures
        crate::registry::total_class_bytes(blocks) <= bound,
    decreases blocks.len(),
{
    if blocks.len() > 0 {
        lemma_argmax_addr(blocks);
        let m = argmax_addr(blocks);
        let top = blocks[m];
        let rest = blocks.remove(m);
        assert forall|i: int|
            0 <= i < rest.len() implies (#[trigger] rest[i]).payload_addr + rest[i].class_size
            <= top.payload_addr by {
            let i0 = if i < m {
                i
            } else {
                i + 1
            };
            assert(rest[i] == blocks[i0]);
            assert(crate::registry::ranges_disjoint(blocks[i0], blocks[m]));
            assert(blocks[i0].payload_addr <= top.payload_addr);
        }
        assert forall|i: int, j: int|
            0 <= i < rest.len() && 0 <= j < rest.len() && i != j implies
            crate::registry::ranges_disjoint(#[trigger] rest[i], #[trigger] rest[j]) by {
            let i0 = if i < m {
                i
            } else {
                i + 1
            };
            let j0 = if j < m {
                j
            } else {
                j + 1
            };
            assert(rest[i] == blocks[i0] && rest[j] == blocks[j0]);
            assert(crate::registry::ranges_disjoint(blocks[i0], blocks[j0]));
        }
        assert(forall|i: int|
            0 <= i < rest.len() ==> (#[trigger] rest[i]).class_size >= 1) by {
            assert forall|i: int| 0 <= i < rest.len() implies (#[trigger] rest[i]).class_size
                >= 1 by {
                let i0 = if i < m {
                    i
                } else {
                    i + 1
                };
                assert(rest[i] == blocks[i0]);
            }
        }
        assert(0 <= top.payload_addr);
        lemma_total_bounded_below(rest, top.payload_addr as int);
        crate::registry::lemma_total_remove(blocks, m);
    }
}

/// The byte total of a well-formed registry never exceeds its bump counter.
pub proof fn lemma_total_bounded(m: RegistryModel)
    requires
        m.wf(),
    ensures
        crate::registry::total_class_bytes(m.blocks) <= m.next_addr,
{
    assert forall|i: int| 0 <= i < m.blocks.len() implies (#[trigger] m.blocks[i]).class_size
        >= 1 by {
        assert(m.blocks[i].wf());
    }
    lemma_total_bounded_below(m.blocks, m.next_addr as int);
}

/// Addresses the traversal has marked after the first `k_bound` graph nodes
/// were taken as candidate roots.
spec fn visited_by_prefix(
    g: HeapGraph,
    blocks: Seq<BlockModel>,
    k_bound: int,
    d: usize,
) -> bool {
    exists|k: int|
        0 <= k < k_bound && !has_block(blocks, (#[trigger] g.nodes@[k]).src) && reaches(
            g.edge_fn(),
            g.nodes@[k].src,
            d,
        )
}

impl Allocator {
    /// Finds the leaked blocks and collects them: runs the traversal from
    /// every root-origin node of the graph, then frees every tracked block
    /// the traversal did not visit.  Returns how many blocks were freed and
    /// how many reserved bytes they amounted to.
    pub fn find_mem_leaks(&mut self, hg: &HeapGraph) -> (summary: (usize, usize))
        requires
            old(self).wf(),
            hg.wf(),
            forall|a: usize, b: usize| #[trigger] hg.edge(a, b) ==> hg.is_node(b),
            forall|a: usize| #[trigger] has_block(old(self)@.blocks, a) ==> hg.is_node(a),
        ensures
            final(self).wf(),
            final(self)@.next_addr == old(self)@.next_addr,
            final(self)@.blocks == old(self)@.blocks.filter(
                |b: BlockModel| graph_survives(*hg, old(self)@.blocks, b.payload_addr),
            ),
            summary.0 == old(self)@.blocks.len() - final(self)@.blocks.len(),
            summary.1 as int == crate::registry::total_class_bytes(old(self)@.blocks)
                - crate::registry::total_class_bytes(final(self)@.blocks),
    {
        let ghost pre = self@.blocks;
        let ghost e = hg.edge_fn();
        let mut visited = AddrSet::new();
        let mut ni: usize = 0;
        while ni < hg.nodes.len()
            invariant
                *self == *old(self),
                self.wf(),
                pre == self@.blocks,
                e == hg.edge_fn(),
                hg.wf(),
                forall|a: usize, b: usize| #[trigger] hg.edge(a, b) ==> hg.is_node(b),
                ni <= hg.nodes@.len(),
                forall|a: usize, b: usize|
                    visited@.contains(a) && #[trigger] hg.edge(a, b) ==> visited@.contains(b),
                forall|d: usize|
                    visited@.contains(d) <==> #[trigger] visited_by_prefix(
                        *hg,
                        pre,
                        ni as int,
                        d,
                    ),
            decreases hg.nodes@.len() - ni,
        {
            let src = hg.nodes[ni].src;
            let ghost vis0 = visited@;
            let blk = self.find_block(src);
            if blk.is_none() {
                Allocator::graph_DFS(src, &mut visited, hg);
            }
            proof {
                assert forall|d: usize|
                    visited@.contains(d) <==> visited_by_prefix(*hg, pre, ni as int + 1, d) by {
                    if visited@.contains(d) {
                        if vis0.contains(d) {
                            assert(visited_by_prefix(*hg, pre, ni as int, d));
                            let k = choose|k: int|
                                0 <= k < ni as int && !has_block(
                                    pre,
                                    (#[trigger] hg.nodes@[k]).src,
                                ) && reaches(e, hg.nodes@[k].src, d);
                            assert(visited_by_prefix(*hg, pre, ni as int + 1, d));
                        } else {
                            assert(!has_block(pre, src) && reaches(e, src, d));
                            assert(hg.nodes@[ni as int].src == src);
                            assert(visited_by_prefix(*hg, pre, ni as int + 1, d));
                        }
                    }
                    if visited_by_prefix(*hg, pre, ni as int + 1, d) {
                        let k = choose|k: int|
                            0 <= k < ni as int + 1 && !has_block(
                                pre,
                                (#[trigger] hg.nodes@[k]).src,
                            ) && reaches(e, hg.nodes@[k].src, d);
                        if k < ni as int {
                            assert(visited_by_prefix(*hg, pre, ni as int, d));
                            assert(vis0.contains(d));
                        } else {
                            assert(hg.nodes@[k].src == src);
                            assert(!has_block(pre, src));
                        }
                    }
                }
            }
            ni = ni + 1;
        }
        proof {
            assert(ni as int == hg.nodes@.len());
            assert forall|d: usize|
                visited@.contains(d) <==> graph_survives(*hg, pre, d) by {
                if visited@.contains(d) {
                    assert(visited_by_prefix(*hg, pre, ni as int, d));
                    let k = choose|k: int|
                        0 <= k < ni as int && !has_block(
                            pre,
                            (#[trigger] hg.nodes@[k]).src,
                        ) && reaches(e, hg.nodes@[k].src, d);
                    let src = hg.nodes@[k].src;
                    assert(hg.is_node(src)) by {
                        assert(0 <= k < hg.nodes@.len() && hg.nodes@[k].src == src);
                    }
                    assert(graph_root(*hg, pre, src));
                    assert(graph_survives(*hg, pre, d));
                }
                if graph_survives(*hg, pre, d) {
                    let r = choose|r: usize|
                        #[trigger] graph_root(*hg, pre, r) && reaches(e, r, d);
                    let k = choose|k: int|
                        0 <= k < hg.nodes@.len() && (#[trigger] hg.nodes@[k]).src == r;
                    assert(!has_block(pre, hg.nodes@[k].src) && reaches(
                        e,
                        hg.nodes@[k].src,
                        d,
                    ));
                    assert(visited_by_prefix(*hg, pre, ni as int, d));
                }
            }
            lemma_total_bounded(self@);
            lemma_total_nonneg(pre);
        }
        let ghost kept = |b: BlockModel| graph_survives(*hg, pre, b.payload_addr);
        let n0: usize = self.blocks.len();
        proof {
            assert(pre.len() == n0 as int);
        }
        let mut freed: usize = 0;
        let mut bytes: usize = 0;
        let mut i: usize = 0;
        proof {
            assert(pre.subrange(0, 0) =~= Seq::<BlockModel>::empty());
            assert(self@.blocks =~= pre.subrange(0, 0).filter(kept) + pre.subrange(
                0,
                pre.len() as int,
            ));
            assert(pre.subrange(0, pre.len() as int) =~= pre);
        }
        while i < self.blocks.len()
            invariant
                self.wf(),
                hg.wf(),
                self@.next_addr == old(self)@.next_addr,
                pre == old(self)@.blocks,
                kept == (|b: BlockModel| graph_survives(*hg, pre, b.payload_addr)),
                forall|d: usize| visited@.contains(d) <==> graph_survives(*hg, pre, d),
                i + freed <= pre.len(),
                self@.blocks == pre.subrange(0, (i + freed) as int).filter(kept) + pre.subrange(
                    (i + freed) as int,
                    pre.len() as int,
                ),
                i as int == pre.subrange(0, (i + freed) as int).filter(kept).len(),
                pre.len() <= usize::MAX,
                bytes as int == crate::registry::total_class_bytes(
                    pre.subrange(0, (i + freed) as int),
                ) - crate::registry::total_class_bytes(
                    pre.subrange(0, (i + freed) as int).filter(kept),
                ),
                crate::registry::total_class_bytes(pre) <= usize::MAX,
            decreases self.blocks@.len() - i,
        {
            let ghost j = (i + freed) as int;
            let ghost cur = self@.blocks;
            let addr = self.blocks[i].payload_addr;
            proof {
                assert(self@.blocks.len() == pre.subrange(0, j).filter(kept).len() + (pre.len()
                    - j));
                assert(j < pre.len());
                assert(pre.subrange(j, pre.len() as int)[0] == pre[j]);
                assert(self@.blocks[i as int] == pre[j]);
                lemma_total_concat(pre.subrange(0, j), pre.subrange(j, pre.len() as int));
                assert(pre.subrange(0, j) + pre.subrange(j, pre.len() as int) =~= pre);
                assert(pre.subrange(0, j + 1).drop_last() =~= pre.subrange(0, j));
                assert(pre.subrange(0, j + 1).last() == pre[j]);
                lemma_total_nonneg(pre.subrange(0, j).filter(kept));
                lemma_total_nonneg(pre.subrange(j, pre.len() as int));
                lemma_total_nonneg(pre.subrange(j + 1, pre.len() as int));
            }
            let marked = visited.contains(addr);
            if !marked {
                let (_rq, sz) = self.free_verbose(addr);
                proof {
                    crate::registry::lemma_idx_of(cur, addr);
                    let fidx = crate::registry::idx_of(cur, addr);
                    assert(has_block(cur, addr)) by {
                        assert(cur[i as int].payload_addr == addr);
                    }
                    lemma_addr_unique(
                        RegistryModel { blocks: cur, next_addr: old(self)@.next_addr },
                        fidx,
                        i as int,
                    );
                    assert(fidx == i as int);
                    assert(self@.blocks =~= cur.remove(i as int));
                    assert(!kept(pre[j]));
                    assert(pre.subrange(0, j + 1) =~= pre.subrange(0, j).push(pre[j]));
                    pre.subrange(0, j).lemma_filter_push(pre[j], kept);
                    assert(pre.subrange(0, j + 1).filter(kept) =~= pre.subrange(0, j).filter(
                        kept,
                    ));
                    assert(self@.blocks =~= pre.subrange(0, j + 1).filter(kept) + pre.subrange(
                        j + 1,
                        pre.len() as int,
                    )) by {
                        assert(cur.remove(i as int) =~= pre.subrange(0, j).filter(kept)
                            + pre.subrange(j, pre.len() as int).drop_first());
                        assert(pre.subrange(j, pre.len() as int).drop_first() =~= pre.subrange(
                            j + 1,
                            pre.len() as int,
                        ));
                    }
                    assert(sz == pre[j].class_size);
                    crate::registry::lemma_total_push(pre.subrange(0, j), pre[j]);
                    assert(crate::registry::total_class_bytes(pre.subrange(0, j + 1))
                        == crate::registry::total_class_bytes(pre.subrange(0, j))
                        + pre[j].class_size);
                    lemma_total_concat(
                        pre.subrange(0, j + 1),
                        pre.subrange(j + 1, pre.len() as int),
                    );
                    assert(pre.subrange(0, j + 1) + pre.subrange(j + 1, pre.len() as int)
                        =~= pre);
                    assert(bytes + sz <= usize::MAX);
                }
                freed = freed + 1;
                bytes = bytes + sz;
            } else {
                proof {
                    assert(kept(pre[j]));
                    assert(pre.subrange(0, j + 1) =~= pre.subrange(0, j).push(pre[j]));
                    pre.subrange(0, j).lemma_filter_push(pre[j], kept);
                    assert(pre.subrange(0, j + 1).filter(kept) =~= pre.subrange(0, j).filter(
                        kept,
                    ).push(pre[j]));
                    assert(self@.blocks =~= pre.subrange(0, j + 1).filter(kept) + pre.subrange(
                        j + 1,
                        pre.len() as int,
                    )) by {
                        assert(pre.subrange(0, j).filter(kept).push(pre[j]) =~= pre.subrange(
                            0,
                            j,
                        ).filter(kept) + seq![pre[j]]);
                        assert(pre.subrange(j, pre.len() as int) =~= seq![pre[j]] + pre.subrange(
                            j + 1,
                            pre.len() as int,
                        ));
                    }
                    crate::registry::lemma_total_push(pre.subrange(0, j).filter(kept), pre[j]);
                }
                i = i + 1;
            }
        }
        proof {
            let j = (i + freed) as int;
            assert(self@.blocks.len() == pre.subrange(0, j).filter(kept).len() + (pre.len()
                - j));
            assert(j == pre.len());
            assert(pre.subrange(0, pre.len() as int) =~= pre);
            assert(self@.blocks =~= pre.filter(kept));
            assert(pre.filter(kept) =~= pre.filter(
                |b: BlockModel| graph_survives(*hg, old(self)@.blocks, b.payload_addr),
            ));
        }
        (freed, bytes)
    }
}

/// A heap edge always lands on a tracked block's address.
proof fn lemma_heap_edge_dst(blocks: Seq<BlockModel>, x: usize, y: usize)
    requires
        heap_edge(blocks, x, y),
    ensures
        has_block(blocks, y),
{
    let (a, j, off) = choose|a: int, j: int, off: int|
        {
            &&& 0 <= a < blocks.len()
            &&& 0 <= j < blocks.len()
            &&& a != j
            &&& blocks[a].payload_addr == x
            &&& blocks[j].payload_addr == y
            &&& #[trigger] block_word_hits(blocks[a], blocks[j], off)
        };
    assert(blocks[j].payload_addr == y);
}

/// A root edge always lands on a tracked block's address.
proof fn lemma_root_edge_dst(
    reg: RegionModel,
    blocks: Seq<BlockModel>,
    x: usize,
    y: usize,
)
    requires
        root_edge(reg, table_of(blocks), x, y),
    ensures
        has_block(blocks, y),
{
    let t = table_of(blocks);
    let (off, j) = choose|off: int, j: int|
        #[trigger] root_hit(reg, t, off, j) && x == reg.base + off && t[j].addr == y;
    assert(blocks[j].payload_addr == y);
}

/// Filters with predicates that agree on the sequence's own elements give
/// the same result.
pub proof fn lemma_filter_congruent(
    s: Seq<BlockModel>,
    p1: spec_fn(BlockModel) -> bool,
    p2: spec_fn(BlockModel) -> bool,
)
    requires
        forall|i: int| 0 <= i < s.len() ==> (p1(#[trigger] s[i]) <==> p2(s[i])),
    ensures
        s.filter(p1) == s.filter(p2),
    decreases s.len(),
{
    if s.len() > 0 {
        assert(forall|i: int|
            0 <= i < s.drop_last().len() ==> (#[trigger] s.drop_last()[i]) == s[i]);
        lemma_filter_congruent(s.drop_last(), p1, p2);
        s.drop_last().lemma_filter_push(s.last(), p1);
        s.drop_last().lemma_filter_push(s.last(), p2);
        assert(s.drop_last().push(s.last()) =~= s);
        assert(p1(s[s.len() - 1]) <==> p2(s[s.len() - 1]));
    } else {
        assert(s.filter(p1) =~= s.filter(p2)) by {
            broadcast use vstd::seq_lib::group_filter_ensures;

            assert(s.filter(p1).len() <= s.len());
            assert(s.filter(p2).len() <= s.len());
        }
    }
}

impl Allocator {
    /// Scans the two root regions into the heap graph, then finds and frees
    /// the unreached blocks.  The static region is rounded inward to 8-byte
    /// alignment before scanning; the stack region's bounds must already be
    /// aligned.  Returns how many blocks were collected and how many
    /// reserved bytes they amounted to.
    pub fn sweep_root_mem(
        &mut self,
        static_region: &RootRegion,
        stack_region: &RootRegion,
        hg: &mut HeapGraph,
        objs: &Vec<ObjEntry>,
    ) -> (summary: (usize, usize))
        requires
            old(self).wf(),
            static_region@.wf(),
            stack_region@.wf(),
            stack_region@.base % 8 == 0,
            stack_region@.data.len() % 8 == 0,
            old(hg).wf(),
            objs@ == table_of(old(self)@.blocks),
            forall|x: usize| old(hg).is_node(x) <==> has_block(old(self)@.blocks, x),
            forall|x: usize, y: usize|
                old(hg).edge(x, y) <==> heap_edge(old(self)@.blocks, x, y),
        ensures
            final(self).wf(),
            final(self)@.next_addr == old(self)@.next_addr,
            final(self)@.blocks == surviving(old(self)@.blocks, static_region@, stack_region@),
            summary.0 == old(self)@.blocks.len() - final(self)@.blocks.len(),
            summary.1 as int == crate::registry::total_class_bytes(old(self)@.blocks)
                - crate::registry::total_class_bytes(final(self)@.blocks),
    {
        let ghost bm = self@.blocks;
        let ghost sreg = static_region@;
        let ghost kreg = stack_region@;
        let ghost t = table_of(bm);
        let ghost g_built = *hg;
        proof {
            assert forall|j: int|
                0 <= j < objs@.len() implies (#[trigger] objs@[j]).addr + objs@[j].size
                <= usize::MAX by {
                assert(objs@[j].addr == bm[j].payload_addr && objs@[j].size == bm[j].class_size);
            }
        }
        Allocator::scan_region(static_region, hg, objs);
        let ghost g_static = *hg;
        Allocator::scan_region(stack_region, hg, objs);
        let ghost g_full = *hg;
        proof {
            // The graph's edges are exactly the combined edge relation.
            assert forall|x: usize, y: usize|
                g_full.edge(x, y) <==> gc_edge(bm, sreg, kreg, x, y) by {}
            // The graph's root-origin nodes are exactly the policy's roots.
            assert forall|r: usize|
                graph_root(g_full, bm, r) <==> gc_root(bm, sreg, kreg, r) by {
                if graph_root(g_full, bm, r) {
                    if g_static.is_node(r) {
                        if !g_built.is_node(r) {
                            assert(new_src(g_built, g_static, r));
                            let y = choose|y: usize|
                                #[trigger] g_static.edge(r, y) && !g_built.edge(r, y);
                            assert(root_edge(sreg, t, r, y));
                            assert(root_src(sreg, t, r));
                        }
                    } else {
                        assert(new_src(g_static, g_full, r));
                        let y = choose|y: usize|
                            #[trigger] g_full.edge(r, y) && !g_static.edge(r, y);
                        assert(root_edge(kreg, t, r, y));
                        assert(root_src(kreg, t, r));
                    }
                }
                if gc_root(bm, sreg, kreg, r) {
                    if root_src(sreg, t, r) {
                        let y = choose|y: usize| #[trigger] root_edge(sreg, t, r, y);
                        assert(g_full.edge(r, y));
                        lemma_edge_src_is_node(g_full, r, y);
                    } else {
                        let y = choose|y: usize| #[trigger] root_edge(kreg, t, r, y);
                        assert(g_full.edge(r, y));
                        lemma_edge_src_is_node(g_full, r, y);
                    }
                }
            }
            // Survival relative to the graph is the stated collection policy.
            assert forall|d: usize|
                graph_survives(g_full, bm, d) <==> gc_survives(bm, sreg, kreg, d) by {
                assert forall|a: usize, b: usize|
                    #[trigger] g_full.edge_fn()(a, b) <==> #[trigger] gc_edge_fn(
                        bm,
                        sreg,
                        kreg,
                    )(a, b) by {}
                if graph_survives(g_full, bm, d) {
                    let r = choose|r: usize|
                        #[trigger] graph_root(g_full, bm, r) && reaches(g_full.edge_fn(), r, d);
                    crate::reach::lemma_reaches_equiv(
                        g_full.edge_fn(),
                        gc_edge_fn(bm, sreg, kreg),
                        r,
                        d,
                    );
                    assert(gc_root(bm, sreg, kreg, r) && reaches(
                        gc_edge_fn(bm, sreg, kreg),
                        r,
                        d,
                    ));
                }
                if gc_survives(bm, sreg, kreg, d) {
                    let r = choose|r: usize|
                        #[trigger] gc_root(bm, sreg, kreg, r) && reaches(
                            gc_edge_fn(bm, sreg, kreg),
                            r,
                            d,
                        );
                    crate::reach::lemma_reaches_equiv(
                        gc_edge_fn(bm, sreg, kreg),
                        g_full.edge_fn(),
                        r,
                        d,
                    );
                    assert(graph_root(g_full, bm, r) && reaches(g_full.edge_fn(), r, d));
                }
            }
            // Every edge of the graph lands on a tracked block, hence a node.
            assert forall|a: usize, b: usize| #[trigger] g_full.edge(a, b) implies
                g_full.is_node(b) by {
                if heap_edge(bm, a, b) {
                    lemma_heap_edge_dst(bm, a, b);
                } else if root_edge(sreg, t, a, b) {
                    lemma_root_edge_dst(sreg, bm, a, b);
                } else {
                    lemma_root_edge_dst(kreg, bm, a, b);
                }
            }
            assert forall|a: usize| #[trigger] has_block(bm, a) implies g_full.is_node(a) by {}
        }
        let summary = self.find_mem_leaks(hg);
        proof {
            lemma_filter_congruent(
                bm,
                |b: BlockModel| graph_survives(g_full, bm, b.payload_addr),
                |b: BlockModel| gc_survives(bm, sreg, kreg, b.payload_addr),
            );
        }
        summary
    }

    /// Runs one full collection cycle: builds the heap graph and the object
    /// table fresh, scans the two root regions, and frees every tracked
    /// block the traversal from the root-origin nodes does not reach.
    pub fn create_heap_graph(
        &mut self,
        static_region: &RootRegion,
        stack_region: &RootRegion,
    ) -> (summary: (usize, usize))
        requires
            old(self).wf(),
            static_region@.wf(),
            stack_region@.wf(),
            stack_region@.base % 8 == 0,
            stack_region@.data.len() % 8 == 0,
        ensures
            final(self).wf(),
            final(self)@.next_addr == old(self)@.next_addr,
            final(self)@.blocks == surviving(old(self)@.blocks, static_region@, stack_region@),
            summary.0 == old(self)@.blocks.len() - final(self)@.blocks.len(),
            summary.1 as int == crate::registry::total_class_bytes(old(self)@.blocks)
                - crate::registry::total_class_bytes(final(self)@.blocks),
    {
        let (mut hg, objs) = self.build_heap_edges();
        self.sweep_root_mem(static_region, stack_region, &mut hg, &objs)
    }
}

/// Runs one full collection cycle on the registry, against the two
/// caller-supplied root regions.  A block survives exactly when some
/// word-aligned slot of the static region, the stack region, or a chain of
/// live blocks' payloads leads to it; everything else is freed.  Returns
/// the number of objects collected and the total reserved bytes reclaimed.
pub fn garbage_collect(
    alloc: &mut Allocator,
    static_region: &RootRegion,
    stack_region: &RootRegion,
) -> (summary: (usize, usize))
    requires
        old(alloc).wf(),
        static_region@.wf(),
        stack_region@.wf(),
        stack_region@.base % 8 == 0,
        stack_region@.data.len() % 8 == 0,
    ensures
        final(alloc).wf(),
        final(alloc)@.next_addr == old(alloc)@.next_addr,
        final(alloc)@.blocks == surviving(old(alloc)@.blocks, static_region@, stack_region@),
        summary.0 == old(alloc)@.blocks.len() - final(alloc)@.blocks.len(),
        summary.1 as int == crate::registry::total_class_bytes(old(alloc)@.blocks)
            - crate::registry::total_class_bytes(final(alloc)@.blocks),
{
    alloc.create_heap_graph(static_region, stack_region)
}

} // verus!
