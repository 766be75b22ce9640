//! The allocator's and collector's laws: properties that relate several
//! operations, stated over the same models the executable contracts use and
//! proved once and for all.

use crate::collect::{
    gc_edge, gc_edge_fn, gc_root, gc_survives, heap_edge, lemma_filter_congruent, root_edge,
    root_src, surviving, table_of,
};
use crate::graph::RegionModel;
use crate::reach::{lemma_reaches_extend, lemma_reaches_in_closed, lemma_reaches_step, reaches};
use crate::registry::{
    block_of, has_block, idx_of, lemma_idx_of, lemma_idx_of_first, spec_free, spec_read_byte,
    spec_write_byte, BlockModel, RegistryModel,
};
use vstd::prelude::*;

verus! {

/// Law: releasing a freshly allocated block returns the registry to its
/// previous contents — in particular to its previous block count — and a
/// second release of the same address is a no-op.
///
/// `blocks` is the registry before the allocation and `b` the block the
/// allocation appended; `malloc` guarantees that its address is fresh.
pub proof fn lemma_release_restores_count(blocks: Seq<BlockModel>, b: BlockModel)
    requires
        !has_block(blocks, b.payload_addr),
    ensures
        spec_free(blocks.push(b), b.payload_addr) == blocks,
        spec_free(blocks.push(b), b.payload_addr).len() == blocks.len(),
        spec_free(spec_free(blocks.push(b), b.payload_addr), b.payload_addr) == blocks,
{
    let grown = blocks.push(b);
    let addr = b.payload_addr;
    assert(grown[blocks.len() as int].payload_addr == addr);
    assert(has_block(grown, addr));
    assert forall|j: int| 0 <= j < blocks.len() implies (#[trigger] grown[j]).payload_addr
        != addr by {
        assert(grown[j] == blocks[j]);
    }
    lemma_idx_of_first(grown, addr, blocks.len() as int);
    assert(grown.remove(blocks.len() as int) =~= blocks);
}

/// Law: a collection run against a registry with no cross-references in any
/// block's payload and no root-region word inside any block's range frees
/// every block.  With the collector's contract this makes the reported
/// summary the full block count and the sum of their class sizes.
pub proof fn lemma_collect_frees_all_unreferenced(
    blocks: Seq<BlockModel>,
    sreg: RegionModel,
    kreg: RegionModel,
)
    requires
        forall|x: usize, y: usize| !heap_edge(blocks, x, y),
        forall|x: usize, y: usize|
            !root_edge(sreg, table_of(blocks), x, y) && !root_edge(
                kreg,
                table_of(blocks),
                x,
                y,
            ),
    ensures
        surviving(blocks, sreg, kreg) == Seq::<BlockModel>::empty(),
{
    assert forall|d: usize| !gc_survives(blocks, sreg, kreg, d) by {
        if gc_survives(blocks, sreg, kreg, d) {
            let r = choose|r: usize|
                #[trigger] gc_root(blocks, sreg, kreg, r) && reaches(
                    gc_edge_fn(blocks, sreg, kreg),
                    r,
                    d,
                );
            if root_src(sreg, table_of(blocks), r) {
                let y = choose|y: usize| #[trigger] root_edge(sreg, table_of(blocks), r, y);
                assert(false);
            } else {
                let y = choose|y: usize| #[trigger] root_edge(kreg, table_of(blocks), r, y);
                assert(false);
            }
        }
    }
    let pred = |b: BlockModel| gc_survives(blocks, sreg, kreg, b.payload_addr);
    broadcast use vstd::seq_lib::group_filter_ensures;

    assert(blocks.filter(pred).len() == 0) by {
        if blocks.filter(pred).len() > 0 {
            assert(pred(blocks.filter(pred)[0]));
        }
    }
    assert(surviving(blocks, sreg, kreg) =~= Seq::<BlockModel>::empty());
}

/// Law: when one root slot points at block `A` and `A`'s payload points at
/// block `B`, and those are the only references anywhere, a collection
/// keeps exactly `A` and `B`; every other block is freed.
pub proof fn lemma_collect_keeps_chain(
    blocks: Seq<BlockModel>,
    sreg: RegionModel,
    kreg: RegionModel,
    r: usize,
    a_addr: usize,
    b_addr: usize,
)
    requires
        has_block(blocks, a_addr),
        has_block(blocks, b_addr),
        !has_block(blocks, r),
        a_addr != b_addr,
        root_edge(sreg, table_of(blocks), r, a_addr) || root_edge(
            kreg,
            table_of(blocks),
            r,
            a_addr,
        ),
        heap_edge(blocks, a_addr, b_addr),
        forall|x: usize, y: usize|
            #[trigger] gc_edge(blocks, sreg, kreg, x, y) ==> ((x == r && y == a_addr) || (x
                == a_addr && y == b_addr)),
    ensures
        gc_survives(blocks, sreg, kreg, a_addr),
        gc_survives(blocks, sreg, kreg, b_addr),
        forall|c: usize|
            has_block(blocks, c) && c != a_addr && c != b_addr ==> !gc_survives(
                blocks,
                sreg,
                kreg,
                c,
            ),
        surviving(blocks, sreg, kreg) == blocks.filter(
            |b: BlockModel| b.payload_addr == a_addr || b.payload_addr == b_addr,
        ),
{
    let e = gc_edge_fn(blocks, sreg, kreg);
    assert(gc_root(blocks, sreg, kreg, r)) by {
        if root_edge(sreg, table_of(blocks), r, a_addr) {
            assert(root_src(sreg, table_of(blocks), r));
        } else {
            assert(root_src(kreg, table_of(blocks), r));
        }
    }
    assert(e(r, a_addr)) by {
        assert(gc_edge(blocks, sreg, kreg, r, a_addr));
    }
    assert(e(a_addr, b_addr)) by {
        assert(gc_edge(blocks, sreg, kreg, a_addr, b_addr));
    }
    lemma_reaches_step(e, r, a_addr);
    lemma_reaches_extend(e, r, a_addr, b_addr);
    assert(gc_survives(blocks, sreg, kreg, a_addr));
    assert(gc_survives(blocks, sreg, kreg, b_addr));
    let closed_set = set![r, a_addr, b_addr];
    assert forall|c: usize|
        has_block(blocks, c) && c != a_addr && c != b_addr implies !gc_survives(
        blocks,
        sreg,
        kreg,
        c,
    ) by {
        if gc_survives(blocks, sreg, kreg, c) {
            let r2 = choose|r2: usize|
                #[trigger] gc_root(blocks, sreg, kreg, r2) && reaches(e, r2, c);
            assert(r2 == r) by {
                if root_src(sreg, table_of(blocks), r2) {
                    let y = choose|y: usize| #[trigger] root_edge(sreg, table_of(blocks), r2, y);
                    assert(gc_edge(blocks, sreg, kreg, r2, y));
                } else {
                    let y = choose|y: usize| #[trigger] root_edge(kreg, table_of(blocks), r2, y);
                    assert(gc_edge(blocks, sreg, kreg, r2, y));
                }
            }
            assert forall|p: usize, q: usize| closed_set.contains(p) && #[trigger] e(p, q)
                implies closed_set.contains(q) by {
                assert(gc_edge(blocks, sreg, kreg, p, q));
            }
            assert(closed_set.contains(r));
            lemma_reaches_in_closed(e, closed_set, r, c);
            assert(c == r);
            assert(false);
        }
    }
    assert forall|i: int| 0 <= i < blocks.len() implies (gc_survives(
        blocks,
        sreg,
        kreg,
        (#[trigger] blocks[i]).payload_addr,
    ) <==> (blocks[i].payload_addr == a_addr || blocks[i].payload_addr == b_addr)) by {
        assert(has_block(blocks, blocks[i].payload_addr));
    }
    lemma_filter_congruent(
        blocks,
        |b: BlockModel| gc_survives(blocks, sreg, kreg, b.payload_addr),
        |b: BlockModel| b.payload_addr == a_addr || b.payload_addr == b_addr,
    );
}

/// Law: a byte written into a block's payload reads back exactly as
/// written, and a collection that the block survives leaves the byte — and
/// the whole payload — untouched.
pub proof fn lemma_payload_round_trip(
    m: RegistryModel,
    addr: usize,
    off: usize,
    val: u8,
    sreg: RegionModel,
    kreg: RegionModel,
)
    requires
        m.wf(),
        has_block(m.blocks, addr),
        off < block_of(m.blocks, addr).class_size,
        gc_survives(spec_write_byte(m.blocks, addr, off, val), sreg, kreg, addr),
    ensures
        spec_read_byte(spec_write_byte(m.blocks, addr, off, val), addr, off) == Some(val),
        spec_read_byte(
            surviving(spec_write_byte(m.blocks, addr, off, val), sreg, kreg),
            addr,
            off,
        ) == Some(val),
{
    lemma_idx_of(m.blocks, addr);
    let i = idx_of(m.blocks, addr);
    let written = spec_write_byte(m.blocks, addr, off, val);
    let wb = written[i];
    assert(wb.payload_addr == addr && wb.class_size == m.blocks[i].class_size);
    assert(wb.data == m.blocks[i].data.update(off as int, val));
    assert(has_block(written, addr));
    assert forall|j: int| 0 <= j < i implies (#[trigger] written[j]).payload_addr != addr by {
        assert(written[j] == m.blocks[j]);
        if m.blocks[j].payload_addr == addr {
            crate::collect::lemma_addr_unique(m, j, i);
        }
    }
    lemma_idx_of_first(written, addr, i);
    assert(spec_read_byte(written, addr, off) == Some(wb.data[off as int]));
    assert(wb.data[off as int] == val);
    // After a collection the block survives: the filtered registry holds the
    // very same block value.
    let pred = |b: BlockModel| gc_survives(written, sreg, kreg, b.payload_addr);
    let kept = surviving(written, sreg, kreg);
    broadcast use vstd::seq_lib::group_filter_ensures;

    assert(pred(wb));
    assert(written.contains(wb)) by {
        assert(written[i] == wb);
    }
    assert(kept.contains(wb)) by {
        assert(0 <= i < written.len() && pred(written[i]));
    }
    let ki = choose|ki: int| 0 <= ki < kept.len() && kept[ki] == wb;
    assert(has_block(kept, addr)) by {
        assert(kept[ki].payload_addr == addr);
    }
    lemma_idx_of(kept, addr);
    let k0 = idx_of(kept, addr);
    assert(kept[k0].payload_addr == addr);
    // Uniqueness: every kept block is one of the written blocks, whose
    // addresses are pairwise distinct.
    assert(kept[k0] == wb) by {
        assert(written.contains(kept[k0])) by {
            written.lemma_filter_contains_rev(pred, kept[k0]);
            assert(kept.contains(kept[k0]));
        }
        let j = choose|j: int| 0 <= j < written.len() && written[j] == kept[k0];
        if j != i {
            assert(written[j].payload_addr == m.blocks[j].payload_addr);
            crate::collect::lemma_addr_unique(m, j, i);
        }
    }
    assert(off < kept[k0].class_size);
    assert(spec_read_byte(kept, addr, off) == Some(kept[k0].data[off as int]));
}

} // verus!
