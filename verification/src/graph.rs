//! The transient heap graph built on every collection cycle, the derived
//! object table, the root regions handed in by the caller, and the pointer
//! set the traversal marks.

use vstd::prelude::*;

verus! {

/// One entry of the object table: a tracked block's payload address paired
/// with its class size, used to test whether a scanned word falls inside
/// that block's byte range.
pub struct ObjEntry {
    pub addr: usize,
    pub size: usize,
}

/// A root region handed to the collector: `data` holds the bytes that stand
/// at addresses `base` through `base + data.len()` (exclusive).
pub struct RootRegion {
    /// The address of the first byte of the region.
    pub base: usize,
    /// The bytes of the region, low address first.
    pub data: Vec<u8>,
}

/// Mathematical model of a root region.
pub ghost struct RegionModel {
    pub base: usize,
    pub data: Seq<u8>,
}

impl View for RootRegion {
    type V = RegionModel;

    open spec fn view(&self) -> RegionModel {
        RegionModel { base: self.base, data: self.data@ }
    }
}

impl RegionModel {
    /// The region must describe a real address range.
    pub open spec fn wf(self) -> bool {
        self.base + self.data.len() <= usize::MAX
    }
}

/// One node of the heap graph: a source address together with the payload
/// addresses it appears to reference.
pub struct GraphNode {
    pub src: usize,
    pub dests: Vec<usize>,
}

/// The heap graph: a mapping from a source address (a block's payload
/// address, or a root address where a reference was found) to the set of
/// payload addresses it references.  It is built fresh on every collection
/// cycle and discarded immediately after use.
pub struct HeapGraph {
    pub nodes: Vec<GraphNode>,
}

impl HeapGraph {
    /// The graph is a mapping: source addresses are pairwise distinct.
    pub open spec fn wf(self) -> bool {
        forall|i: int, j: int|
            0 <= i < self.nodes@.len() && 0 <= j < self.nodes@.len() && i != j ==> (
            #[trigger] self.nodes@[i]).src != (#[trigger] self.nodes@[j]).src
    }

    /// True when `a` is a source node of the graph.
    pub open spec fn is_node(self, a: usize) -> bool {
        exists|i: int| 0 <= i < self.nodes@.len() && (#[trigger] self.nodes@[i]).src == a
    }

    /// True when the graph records that `a` references `b`.
    pub open spec fn edge(self, a: usize, b: usize) -> bool {
        exists|i: int|
            0 <= i < self.nodes@.len() && (#[trigger] self.nodes@[i]).src == a
                && self.nodes@[i].dests@.contains(b)
    }

    /// The graph's edge relation as a value, for the reachability
    /// definitions.
    pub open spec fn edge_fn(self) -> spec_fn(usize, usize) -> bool {
        |a: usize, b: usize| self.edge(a, b)
    }

    /// Creates an empty graph.
    pub fn new() -> (r: HeapGraph)
        ensures
            r.wf(),
            forall|a: usize| !r.is_node(a),
            forall|a: usize, b: usize| !r.edge(a, b),
    {
        HeapGraph { nodes: Vec::new() }
    }

    /// The index of the node whose source address is `a`.
    pub fn find_src(&self, a: usize) -> (r: Option<usize>)
        ensures
            match r {
                Some(i) => i < self.nodes@.len() && self.nodes@[i as int].src == a,
                None => !self.is_node(a),
            },
    {
        let mut i: usize = 0;
        while i < self.nodes.len()
            invariant
                i <= self.nodes@.len(),
                forall|j: int| 0 <= j < i ==> (#[trigger] self.nodes@[j]).src != a,
            decreases self.nodes@.len() - i,
        {
            if self.nodes[i].src == a {
                return Some(i);
            }
            i = i + 1;
        }
        None
    }

    /// Registers `a` as a node with no outgoing edges yet; a source already
    /// present is left as it is.
    pub fn add_node(&mut self, a: usize)
        requires
            old(self).wf(),
        ensures
            final(self).wf(),
            forall|x: usize| final(self).is_node(x) <==> old(self).is_node(x) || x == a,
            forall|x: usize, y: usize| final(self).edge(x, y) <==> old(self).edge(x, y),
    {
        let found = self.find_src(a);
        if found.is_none() {
            let ghost g0 = *self;
            self.nodes.push(GraphNode { src: a, dests: Vec::new() });
            proof {
                let n = g0.nodes@.len() as int;
                assert(self.nodes@[n].src == a);
                assert(forall|j: int| 0 <= j < n ==> self.nodes@[j] == g0.nodes@[j]);
                assert forall|x: usize, y: usize| self.edge(x, y) implies g0.edge(x, y) by {
                    let i = choose|i: int|
                        0 <= i < self.nodes@.len() && (#[trigger] self.nodes@[i]).src == x
                            && self.nodes@[i].dests@.contains(y);
                    assert(i != n ==> g0.nodes@[i] == self.nodes@[i]);
                }
            }
        }
    }

    /// Records that `a` references `b`, creating the node for `a` on demand.
    pub fn add_edge(&mut self, a: usize, b: usize)
        requires
            old(self).wf(),
        ensures
            final(self).wf(),
            forall|x: usize| final(self).is_node(x) <==> old(self).is_node(x) || x == a,
            forall|x: usize, y: usize|
                final(self).edge(x, y) <==> old(self).edge(x, y) || (x == a && y == b),
    {
        let found = self.find_src(a);
        match found {
            Some(i) => {
                let ghost g0 = *self;
                if !vec_contains(&self.nodes[i].dests, b) {
                    self.nodes[i].dests.push(b);
                    proof {
                        assert(self.nodes@[i as int].dests@ == g0.nodes@[i as int].dests@.push(
                            b,
                        ));
                        assert forall|y: usize| #[trigger]
                            self.nodes@[i as int].dests@.contains(y)
                                <==> g0.nodes@[i as int].dests@.contains(y) || y == b by {
                            vstd::seq_lib::lemma_seq_contains_after_push(
                                g0.nodes@[i as int].dests@,
                                b,
                                y,
                            );
                        }
                    }
                }
                proof {
                    let i = i as int;
                    assert(forall|j: int|
                        0 <= j < self.nodes@.len() && j != i ==> self.nodes@[j] == g0.nodes@[j]);
                    assert(self.nodes@[i].src == a);
                    assert(forall|y: usize| #[trigger]
                        self.nodes@[i].dests@.contains(y) <==> g0.nodes@[i].dests@.contains(y)
                            || y == b);
                    assert forall|x: usize, y: usize|
                        self.edge(x, y) implies g0.edge(x, y) || (x == a && y == b) by {
                        let k = choose|k: int|
                            0 <= k < self.nodes@.len() && (#[trigger] self.nodes@[k]).src == x
                                && self.nodes@[k].dests@.contains(y);
                        if k != i {
                            assert(g0.nodes@[k] == self.nodes@[k]);
                        }
                    }
                    assert forall|x: usize, y: usize| g0.edge(x, y) implies self.edge(x, y) by {
                        let k = choose|k: int|
                            0 <= k < g0.nodes@.len() && (#[trigger] g0.nodes@[k]).src == x
                                && g0.nodes@[k].dests@.contains(y);
                        assert(self.nodes@[k].src == x && self.nodes@[k].dests@.contains(y));
                    }
                    assert(self.edge(a, b)) by {
                        assert(self.nodes@[i].src == a && self.nodes@[i].dests@.contains(b));
                    }
                    assert forall|x: usize| self.is_node(x) implies g0.is_node(x) || x == a by {
                        let k = choose|k: int|
                            0 <= k < self.nodes@.len() && (#[trigger] self.nodes@[k]).src == x;
                        assert(g0.nodes@[k].src == self.nodes@[k].src);
                    }
                }
            },
            None => {
                let ghost g0 = *self;
                let mut dests: Vec<usize> = Vec::new();
                dests.push(b);
                self.nodes.push(GraphNode { src: a, dests });
                proof {
                    let n = g0.nodes@.len() as int;
                    assert(self.nodes@[n].src == a);
                    assert(self.nodes@[n].dests@ =~= seq![b]);
                    assert(self.nodes@[n].dests@[0] == b);
                    assert(self.nodes@[n].dests@.contains(b));
                    assert(forall|j: int| 0 <= j < n ==> self.nodes@[j] == g0.nodes@[j]);
                    assert forall|x: usize, y: usize|
                        self.edge(x, y) implies g0.edge(x, y) || (x == a && y == b) by {
                        let k = choose|k: int|
                            0 <= k < self.nodes@.len() && (#[trigger] self.nodes@[k]).src == x
                                && self.nodes@[k].dests@.contains(y);
                        if k != n {
                            assert(g0.nodes@[k] == self.nodes@[k]);
                        } else {
                            assert(self.nodes@[n].dests@[0] == b);
                        }
                    }
                    assert forall|x: usize| self.is_node(x) implies g0.is_node(x) || x == a by {
                        let k = choose|k: int|
                            0 <= k < self.nodes@.len() && (#[trigger] self.nodes@[k]).src == x;
                        if k != n {
                            assert(g0.nodes@[k].src == self.nodes@[k].src);
                        }
                    }
                }
            },
        }
    }
}

/// True when `v` holds `x`.
pub fn vec_contains(v: &Vec<usize>, x: usize) -> (r: bool)
    ensures
        r == v@.contains(x),
{
    let mut i: usize = 0;
    while i < v.len()
        invariant
            i <= v@.len(),
            forall|j: int| 0 <= j < i ==> v@[j] != x,
        decreases v@.len() - i,
    {
        if v[i] == x {
            return true;
        }
        i = i + 1;
    }
    false
}

/// A set of addresses: the traversal's visited marks.
pub struct AddrSet {
    pub items: Vec<usize>,
}

impl View for AddrSet {
    type V = Set<usize>;

    open spec fn view(&self) -> Set<usize> {
        self.items@.to_set()
    }
}

impl AddrSet {
    /// Creates an empty set.
    pub fn new() -> (r: AddrSet)
        ensures
            r@ =~= Set::<usize>::empty(),
    {
        AddrSet { items: Vec::new() }
    }

    /// True when `x` has been marked.
    pub fn contains(&self, x: usize) -> (r: bool)
        ensures
            r == self@.contains(x),
    {
        vec_contains(&self.items, x)
    }

    /// Marks `x`.
    pub fn insert(&mut self, x: usize)
        ensures
            final(self)@ =~= old(self)@.insert(x),
    {
        let present = self.contains(x);
        if !present {
            let ghost s0 = self.items@;
            self.items.push(x);
            proof {
                s0.lemma_push_to_set_commute(x);
            }
        } else {
            proof {
                assert(old(self)@.insert(x) =~= old(self)@);
            }
        }
    }
}

} // verus!
