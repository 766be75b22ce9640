//! Reachability over an abstract edge relation.
//!
//! The collection policy is stated in terms of paths: an object survives
//! exactly when some root-origin node reaches it.  The definitions here are
//! shared by the heap graph's edge relation and by the edge relation stated
//! directly over the registry and the root regions.

use vstd::prelude::*;

verus! {

/// True when `p` is a non-empty walk along edges of `e`.
pub open spec fn path_ok(e: spec_fn(usize, usize) -> bool, p: Seq<usize>) -> bool {
    &&& 1 <= p.len()
    &&& forall|i: int| 0 <= i < p.len() - 1 ==> #[trigger] e(p[i], p[i + 1])
}

/// True when some walk along edges of `e` leads from `src` to `dst`.  Every
/// address reaches itself by the one-element walk.
pub open spec fn reaches(e: spec_fn(usize, usize) -> bool, src: usize, dst: usize) -> bool {
    exists|p: Seq<usize>| path_ok(e, p) && p.first() == src && p.last() == dst
}

/// One edge of a walk.
pub proof fn lemma_path_edge(e: spec_fn(usize, usize) -> bool, p: Seq<usize>, i: int)
    requires
        path_ok(e, p),
        0 <= i < p.len() - 1,
    ensures
        e(p[i], p[i + 1]),
{
}

/// Every address reaches itself.
pub proof fn lemma_reaches_self(e: spec_fn(usize, usize) -> bool, a: usize)
    ensures
        reaches(e, a, a),
{
    let p = seq![a];
    assert(path_ok(e, p) && p.first() == a && p.last() == a);
}

/// A single edge is a reach.
pub proof fn lemma_reaches_step(e: spec_fn(usize, usize) -> bool, a: usize, b: usize)
    requires
        e(a, b),
    ensures
        reaches(e, a, b),
{
    let p = seq![a, b];
    assert(e(p[0], p[1]));
    assert(path_ok(e, p) && p.first() == a && p.last() == b);
}

/// A reach followed by one more edge is a reach.
pub proof fn lemma_reaches_extend(
    e: spec_fn(usize, usize) -> bool,
    src: usize,
    mid: usize,
    dst: usize,
)
    requires
        reaches(e, src, mid),
        e(mid, dst),
    ensures
        reaches(e, src, dst),
{
    let p = choose|p: Seq<usize>| path_ok(e, p) && p.first() == src && p.last() == mid;
    let q = p.push(dst);
    assert forall|i: int| 0 <= i < q.len() - 1 implies #[trigger] e(q[i], q[i + 1]) by {
        if i < p.len() - 1 {
            lemma_path_edge(e, p, i);
            assert(q[i] == p[i] && q[i + 1] == p[i + 1]);
        } else {
            assert(q[i] == p.last() && q[i + 1] == dst);
        }
    }
    assert(path_ok(e, q) && q.first() == src && q.last() == dst);
}

/// Every walk that starts inside a set closed under `e` ends inside it.
proof fn lemma_path_in_closed(e: spec_fn(usize, usize) -> bool, s: Set<usize>, p: Seq<usize>)
    requires
        path_ok(e, p),
        s.contains(p.first()),
        forall|a: usize, b: usize| s.contains(a) && #[trigger] e(a, b) ==> s.contains(b),
    ensures
        s.contains(p.last()),
    decreases p.len(),
{
    if p.len() > 1 {
        lemma_path_edge(e, p, 0);
        assert(e(p[0], p[1]));
        let q = p.drop_first();
        assert forall|i: int| 0 <= i < q.len() - 1 implies #[trigger] e(q[i], q[i + 1]) by {
            lemma_path_edge(e, p, i + 1);
            assert(q[i] == p[i + 1] && q[i + 1] == p[i + 2]);
        }
        assert(path_ok(e, q) && q.first() == p[1] && q.last() == p.last());
        lemma_path_in_closed(e, s, q);
    }
}

/// Nothing outside a set closed under `e` is reachable from inside it.
pub proof fn lemma_reaches_in_closed(
    e: spec_fn(usize, usize) -> bool,
    s: Set<usize>,
    src: usize,
    dst: usize,
)
    requires
        s.contains(src),
        forall|a: usize, b: usize| s.contains(a) && #[trigger] e(a, b) ==> s.contains(b),
        reaches(e, src, dst),
    ensures
        s.contains(dst),
{
    let p = choose|p: Seq<usize>| path_ok(e, p) && p.first() == src && p.last() == dst;
    lemma_path_in_closed(e, s, p);
}

/// Relations that agree edge for edge reach the same addresses.
pub proof fn lemma_reaches_equiv(
    e1: spec_fn(usize, usize) -> bool,
    e2: spec_fn(usize, usize) -> bool,
    src: usize,
    dst: usize,
)
    requires
        forall|a: usize, b: usize| #[trigger] e1(a, b) <==> #[trigger] e2(a, b),
        reaches(e1, src, dst),
    ensures
        reaches(e2, src, dst),
{
    let p = choose|p: Seq<usize>| path_ok(e1, p) && p.first() == src && p.last() == dst;
    assert forall|i: int| 0 <= i < p.len() - 1 implies #[trigger] e2(p[i], p[i + 1]) by {
        lemma_path_edge(e1, p, i);
    }
    assert(path_ok(e2, p));
}

} // verus!
