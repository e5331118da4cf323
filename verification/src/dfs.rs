//! Depth-first post-order traversal of a dependency relation between
//! nodes: what a traversal with a visited list guarantees about the order
//! it produces, stated once for the relation and used by both graph kinds.

use vstd::prelude::*;
use crate::types::NodeId;

verus! {

/// `rank` strictly decreases along every edge of `rel`.
pub open spec fn ranked(rel: spec_fn(NodeId, NodeId) -> bool, rank: spec_fn(NodeId) -> nat) -> bool {
    forall|s: NodeId, x: NodeId| #[trigger] rel(s, x) ==> rank(s) < rank(x)
}

/// `rel` has no cycle.
pub open spec fn acyclic(rel: spec_fn(NodeId, NodeId) -> bool) -> bool {
    exists|rank: spec_fn(NodeId) -> nat| ranked(rel, rank)
}

/// Number of entries of `ids` not in `visited`.
pub open spec fn unvisited(ids: Seq<NodeId>, visited: Seq<NodeId>) -> nat
    decreases ids.len(),
{
    if ids.len() == 0 {
        0
    } else {
        unvisited(ids.drop_last(), visited) + if visited.contains(ids.last()) {
            0nat
        } else {
            1nat
        }
    }
}

/// Everything in `a` is in `b`.
pub open spec fn subset_of(a: Seq<NodeId>, b: Seq<NodeId>) -> bool {
    forall|y: NodeId| #[trigger] a.contains(y) ==> b.contains(y)
}

pub proof fn lemma_unvisited_mono(ids: Seq<NodeId>, a: Seq<NodeId>, b: Seq<NodeId>)
    requires
        subset_of(a, b),
    ensures
        unvisited(ids, b) <= unvisited(ids, a),
    decreases ids.len(),
{
    if ids.len() > 0 {
        lemma_unvisited_mono(ids.drop_last(), a, b);
    }
}

pub proof fn lemma_unvisited_drop(ids: Seq<NodeId>, a: Seq<NodeId>, b: Seq<NodeId>, k: int)
    requires
        subset_of(a, b),
        0 <= k < ids.len(),
        b.contains(ids[k]),
        !a.contains(ids[k]),
    ensures
        unvisited(ids, b) < unvisited(ids, a),
    decreases ids.len(),
{
    let d = ids.drop_last();
    if k == ids.len() - 1 {
        lemma_unvisited_mono(d, a, b);
    } else {
        assert(d[k] == ids[k]);
        lemma_unvisited_drop(d, a, b, k);
    }
}

/// The node at position `i` of `n` feeds a node at a later position.
pub open spec fn has_later_feeder(rel: spec_fn(NodeId, NodeId) -> bool, n: Seq<NodeId>, i: int) -> bool {
    exists|j: int| i < j < n.len() && #[trigger] rel(n[i], n[j])
}

/// The nodes still being traversed when `x` is entered (visited, not yet
/// ordered) all rank above `x`, and `rank` decreases along `rel`.
pub open spec fn rank_hyp(
    rel: spec_fn(NodeId, NodeId) -> bool,
    rank: spec_fn(NodeId) -> nat,
    x: NodeId,
    v0: Seq<NodeId>,
    o0: Seq<NodeId>,
) -> bool {
    &&& ranked(rel, rank)
    &&& forall|z: NodeId| #[trigger] v0.contains(z) && !o0.contains(z) ==> rank(z) > rank(x)
}

/// What the traversal from `x` did: `v0`/`o0` are the visited set and
/// order before, `v1`/`o1` after, and `o1` extends `o0` by the nodes it
/// reached for the first time, each after the nodes that feed it.
pub open spec fn visit_result(
    rel: spec_fn(NodeId, NodeId) -> bool,
    rank: spec_fn(NodeId) -> nat,
    x: NodeId,
    v0: Seq<NodeId>,
    o0: Seq<NodeId>,
    v1: Seq<NodeId>,
    o1: Seq<NodeId>,
) -> bool {
    let n = o1.skip(o0.len() as int);
    &&& o0.len() <= o1.len()
    &&& o1.take(o0.len() as int) == o0
    &&& forall|y: NodeId| #[trigger] v1.contains(y) <==> (v0.contains(y) || n.contains(y))
    &&& forall|i: int| 0 <= i < n.len() ==> !v0.contains(#[trigger] n[i])
    &&& n.no_duplicates()
    &&& v0.contains(x) ==> n.len() == 0
    &&& !v0.contains(x) ==> n.len() > 0 && n.last() == x
    &&& forall|i: int, s: NodeId| 0 <= i < n.len() && #[trigger] rel(s, n[i]) ==> v1.contains(s)
    &&& forall|i: int| 0 <= i < n.len() - 1 ==> #[trigger] has_later_feeder(rel, n, i)
    &&& rank_hyp(rel, rank, x, v0, o0) ==> forall|i: int, s: NodeId|
        0 <= i < n.len() && #[trigger] rel(s, n[i]) ==> exists|j: int| 0 <= j < o0.len() + i && o1[j] == s
}

/// The state inside the traversal from `x`, after `x` was marked visited
/// and some of the nodes feeding it were traversed.
pub open spec fn partial_visit(
    rel: spec_fn(NodeId, NodeId) -> bool,
    rank: spec_fn(NodeId) -> nat,
    x: NodeId,
    v0: Seq<NodeId>,
    o0: Seq<NodeId>,
    v: Seq<NodeId>,
    o: Seq<NodeId>,
) -> bool {
    let m = o.skip(o0.len() as int);
    &&& subset_of(o0, v0)
    &&& subset_of(o, v)
    &&& o.no_duplicates()
    &&& !v0.contains(x)
    &&& o0.len() <= o.len()
    &&& o.take(o0.len() as int) == o0
    &&& forall|y: NodeId| #[trigger] v.contains(y) <==> (v0.contains(y) || y == x || m.contains(y))
    &&& forall|q: int| 0 <= q < m.len() ==> !v0.contains(#[trigger] m[q]) && m[q] != x
    &&& forall|q: int, s: NodeId| 0 <= q < m.len() && #[trigger] rel(s, m[q]) ==> v.contains(s)
    &&& forall|q: int| 0 <= q < m.len() ==> #[trigger] has_later_feeder(rel, m, q) || rel(m[q], x)
    &&& rank_hyp(rel, rank, x, v0, o0) ==> forall|q: int, s: NodeId|
        0 <= q < m.len() && #[trigger] rel(s, m[q]) ==> exists|j: int| 0 <= j < o0.len() + q && o[j] == s
}

pub proof fn lemma_visit_step(
    rel: spec_fn(NodeId, NodeId) -> bool,
    rank: spec_fn(NodeId) -> nat,
    x: NodeId,
    s: NodeId,
    v0: Seq<NodeId>,
    o0: Seq<NodeId>,
    vb: Seq<NodeId>,
    ob: Seq<NodeId>,
    va: Seq<NodeId>,
    oa: Seq<NodeId>,
)
    requires
        partial_visit(rel, rank, x, v0, o0, vb, ob),
        rel(s, x),
        visit_result(rel, rank, s, vb, ob, va, oa),
        subset_of(oa, va),
        oa.no_duplicates(),
    ensures
        partial_visit(rel, rank, x, v0, o0, va, oa),
        va.contains(s),
        subset_of(vb, va),
{
    let mb = ob.skip(o0.len() as int);
    let ma = oa.skip(o0.len() as int);
    let ns = oa.skip(ob.len() as int);
    assert(ma =~= mb + ns) by {
        assert(oa.take(ob.len() as int) == ob);
    }
    assert(oa.take(o0.len() as int) =~= o0) by {
        assert(oa.take(ob.len() as int) == ob);
        assert(oa.take(o0.len() as int) =~= ob.take(o0.len() as int));
    }
    assert forall|y: NodeId| #[trigger] va.contains(y) <==> (v0.contains(y) || y == x || ma.contains(y)) by {
        if ns.contains(y) {
            let w = choose|w: int| 0 <= w < ns.len() && ns[w] == y;
            assert(ma[mb.len() + w] == y);
        }
        if mb.contains(y) {
            let w = choose|w: int| 0 <= w < mb.len() && mb[w] == y;
            assert(ma[w] == y);
        }
        if ma.contains(y) {
            let w = choose|w: int| 0 <= w < ma.len() && ma[w] == y;
            if w < mb.len() {
                assert(mb[w] == y);
            } else {
                assert(ns[w - mb.len()] == y);
            }
        }
    }
    assert forall|q: int| 0 <= q < ma.len() implies !v0.contains(#[trigger] ma[q]) && ma[q] != x by {
        if q >= mb.len() {
            assert(ma[q] == ns[q - mb.len()]);
            assert(!vb.contains(ns[q - mb.len()]));
        } else {
            assert(ma[q] == mb[q]);
        }
    }
    assert forall|q: int, t: NodeId| 0 <= q < ma.len() && #[trigger] rel(t, ma[q]) implies va.contains(t) by {
        if q >= mb.len() {
            assert(ma[q] == ns[q - mb.len()]);
            assert(rel(t, ns[q - mb.len()]));
        } else {
            assert(ma[q] == mb[q]);
            assert(rel(t, mb[q]));
            assert(vb.contains(t));
        }
    }
    assert forall|q: int| 0 <= q < ma.len() implies #[trigger] has_later_feeder(rel, ma, q) || rel(ma[q], x) by {
        if q >= mb.len() {
            let qq = q - mb.len();
            assert(ma[q] == ns[qq]);
            if qq < ns.len() - 1 {
                assert(has_later_feeder(rel, ns, qq));
                let j = choose|j: int| qq < j < ns.len() && #[trigger] rel(ns[qq], ns[j]);
                assert(ma[mb.len() + j] == ns[j]);
                assert(rel(ma[q], ma[mb.len() + j]));
            } else {
                assert(ns.last() == s);
            }
        } else {
            assert(ma[q] == mb[q]);
            if !rel(mb[q], x) {
                assert(has_later_feeder(rel, mb, q));
                let j = choose|j: int| q < j < mb.len() && #[trigger] rel(mb[q], mb[j]);
                assert(ma[j] == mb[j]);
                assert(rel(ma[q], ma[j]));
            }
        }
    }
    if rank_hyp(rel, rank, x, v0, o0) {
        assert(rank(s) < rank(x));
        assert forall|z: NodeId| #[trigger] vb.contains(z) && !ob.contains(z) implies rank(z) > rank(s) by {
            if mb.contains(z) {
                let w = choose|w: int| 0 <= w < mb.len() && mb[w] == z;
                assert(ob[o0.len() + w] == z);
            }
            if o0.contains(z) {
                let w = choose|w: int| 0 <= w < o0.len() && o0[w] == z;
                assert(ob[w] == z);
            }
            if z == x {
            } else {
                assert(v0.contains(z));
            }
        }
        assert(rank_hyp(rel, rank, s, vb, ob));
        assert forall|q: int, t: NodeId| 0 <= q < ma.len() && #[trigger] rel(t, ma[q])
            implies exists|j: int| 0 <= j < o0.len() + q && oa[j] == t by {
            if q >= mb.len() {
                let qq = q - mb.len();
                assert(ma[q] == ns[qq]);
                assert(rel(t, ns[qq]));
                let j = choose|j: int| 0 <= j < ob.len() + qq && oa[j] == t;
            } else {
                assert(ma[q] == mb[q]);
                assert(rel(t, mb[q]));
                let j = choose|j: int| 0 <= j < o0.len() + q && ob[j] == t;
                assert(oa[j] == ob[j]);
            }
        }
    }
    assert(va.contains(s)) by {
        if !vb.contains(s) {
            assert(ns[ns.len() - 1] == s);
        }
    }
}

#[verifier::spinoff_prover]
#[verifier::rlimit(100)]
pub proof fn lemma_finish_order(
    rel: spec_fn(NodeId, NodeId) -> bool,
    rank: spec_fn(NodeId) -> nat,
    x: NodeId,
    v0: Seq<NodeId>,
    o0: Seq<NodeId>,
    v: Seq<NodeId>,
    ob: Seq<NodeId>,
    o: Seq<NodeId>,
)
    requires
        partial_visit(rel, rank, x, v0, o0, v, ob),
        o == ob.push(x),
    ensures
        o.skip(o0.len() as int) == ob.skip(o0.len() as int).push(x),
        o.take(o0.len() as int) == o0,
        o.no_duplicates(),
        o.skip(o0.len() as int).no_duplicates(),
        subset_of(o, v),
        forall|y: NodeId| #[trigger] v.contains(y) <==> (v0.contains(y) || o.skip(o0.len() as int).contains(y)),
        forall|i: int| 0 <= i < o.skip(o0.len() as int).len() ==> !v0.contains(#[trigger] o.skip(o0.len() as int)[i]),
{
    let mb = ob.skip(o0.len() as int);
    let n = o.skip(o0.len() as int);
    assert(n =~= mb.push(x));
    assert(o.take(o0.len() as int) =~= ob.take(o0.len() as int));
    assert(!ob.contains(x)) by {
        if ob.contains(x) {
            let w = choose|w: int| 0 <= w < ob.len() && ob[w] == x;
            if w < o0.len() {
                assert(ob.take(o0.len() as int)[w] == ob[w]);
                assert(o0[w] == x);
                assert(o0.contains(x));
            } else {
                assert(mb[w - o0.len()] == ob[w]);
                assert(mb[w - o0.len()] == x);
            }
        }
    }
    assert(o.no_duplicates());
    assert(n.no_duplicates()) by {
        assert forall|i: int, j: int| 0 <= i < j < n.len() implies n[i] != n[j] by {
            assert(o[o0.len() + i] == n[i]);
            assert(o[o0.len() + j] == n[j]);
        }
    }
    assert forall|y: NodeId| #[trigger] v.contains(y) <==> (v0.contains(y) || n.contains(y)) by {
        if n.contains(y) {
            let w = choose|w: int| 0 <= w < n.len() && n[w] == y;
            if w < mb.len() {
                assert(mb[w] == y);
            }
        }
        if mb.contains(y) {
            let w = choose|w: int| 0 <= w < mb.len() && mb[w] == y;
            assert(n[w] == y);
        }
        if y == x {
            assert(n[mb.len() as int] == x);
        }
    }
    assert forall|y: NodeId| #[trigger] o.contains(y) implies v.contains(y) by {
        let w = choose|w: int| 0 <= w < o.len() && o[w] == y;
        if w < ob.len() {
            assert(ob[w] == y);
            assert(ob.contains(y));
        } else {
            assert(y == x);
        }
    }
    assert forall|i: int| 0 <= i < n.len() implies !v0.contains(#[trigger] n[i]) by {
        if i < mb.len() {
            assert(n[i] == mb[i]);
        }
    }
}

pub proof fn lemma_finish_feeds(
    rel: spec_fn(NodeId, NodeId) -> bool,
    rank: spec_fn(NodeId) -> nat,
    x: NodeId,
    v0: Seq<NodeId>,
    o0: Seq<NodeId>,
    v: Seq<NodeId>,
    ob: Seq<NodeId>,
    n: Seq<NodeId>,
)
    requires
        partial_visit(rel, rank, x, v0, o0, v, ob),
        forall|s: NodeId| #[trigger] rel(s, x) ==> v.contains(s),
        n == ob.skip(o0.len() as int).push(x),
    ensures
        forall|i: int, s: NodeId| 0 <= i < n.len() && #[trigger] rel(s, n[i]) ==> v.contains(s),
        forall|i: int| 0 <= i < n.len() - 1 ==> #[trigger] has_later_feeder(rel, n, i),
{
    let mb = ob.skip(o0.len() as int);
    assert forall|i: int, s: NodeId| 0 <= i < n.len() && #[trigger] rel(s, n[i]) implies v.contains(s) by {
        if i < mb.len() {
            assert(n[i] == mb[i]);
            assert(rel(s, mb[i]));
        }
    }
    assert forall|i: int| 0 <= i < n.len() - 1 implies #[trigger] has_later_feeder(rel, n, i) by {
        assert(n[i] == mb[i]);
        if rel(mb[i], x) {
            let j = n.len() - 1;
            assert(n[j] == x);
            assert(i < j < n.len() && rel(n[i], n[j]));
        } else {
            assert(has_later_feeder(rel, mb, i));
            let j = choose|j: int| i < j < mb.len() && #[trigger] rel(mb[i], mb[j]);
            assert(n[j] == mb[j]);
            assert(i < j < n.len() && rel(n[i], n[j]));
        }
    }
}

pub proof fn lemma_finish_rank(
    rel: spec_fn(NodeId, NodeId) -> bool,
    rank: spec_fn(NodeId) -> nat,
    x: NodeId,
    v0: Seq<NodeId>,
    o0: Seq<NodeId>,
    v: Seq<NodeId>,
    ob: Seq<NodeId>,
    o: Seq<NodeId>,
)
    requires
        partial_visit(rel, rank, x, v0, o0, v, ob),
        forall|s: NodeId| #[trigger] rel(s, x) ==> v.contains(s),
        o == ob.push(x),
        rank_hyp(rel, rank, x, v0, o0),
    ensures
        forall|i: int, s: NodeId|
            0 <= i < o.skip(o0.len() as int).len() && #[trigger] rel(s, o.skip(o0.len() as int)[i])
                ==> exists|j: int| 0 <= j < o0.len() + i && o[j] == s,
{
    let mb = ob.skip(o0.len() as int);
    let n = o.skip(o0.len() as int);
    assert(n =~= mb.push(x));
    assert forall|i: int, s: NodeId| 0 <= i < n.len() && #[trigger] rel(s, n[i])
        implies exists|j: int| 0 <= j < o0.len() + i && o[j] == s by {
        if i < mb.len() {
            assert(n[i] == mb[i]);
            assert(rel(s, mb[i]));
            let j = choose|j: int| 0 <= j < o0.len() + i && ob[j] == s;
            assert(o[j] == ob[j]);
        } else {
            assert(n[i] == x);
            assert(v.contains(s));
            assert(rank(s) < rank(x));
            if mb.contains(s) {
                let w = choose|w: int| 0 <= w < mb.len() && mb[w] == s;
                assert(o[o0.len() + w] == s);
            } else if s == x {
            } else {
                assert(v0.contains(s));
                if o0.contains(s) {
                    let w = choose|w: int| 0 <= w < o0.len() && o0[w] == s;
                    assert(ob.take(o0.len() as int)[w] == ob[w]);
                    assert(o[w] == s);
                }
            }
        }
    }
}

pub proof fn lemma_visit_finish(
    rel: spec_fn(NodeId, NodeId) -> bool,
    rank: spec_fn(NodeId) -> nat,
    x: NodeId,
    v0: Seq<NodeId>,
    o0: Seq<NodeId>,
    v: Seq<NodeId>,
    ob: Seq<NodeId>,
    o: Seq<NodeId>,
)
    requires
        partial_visit(rel, rank, x, v0, o0, v, ob),
        forall|s: NodeId| #[trigger] rel(s, x) ==> v.contains(s),
        o == ob.push(x),
    ensures
        visit_result(rel, rank, x, v0, o0, v, o),
        subset_of(o, v),
        o.no_duplicates(),
{
    lemma_finish_order(rel, rank, x, v0, o0, v, ob, o);
    lemma_finish_feeds(rel, rank, x, v0, o0, v, ob, o.skip(o0.len() as int));
    if rank_hyp(rel, rank, x, v0, o0) {
        lemma_finish_rank(rel, rank, x, v0, o0, v, ob, o);
    }
    assert(o.skip(o0.len() as int).last() == x);
}

/// `order` lists `target` last, after everything related to it: no entry
/// twice, every entry's predecessors under `rel` included, every entry but
/// `target` a predecessor of a later one, and, when `rel` has no cycle,
/// every entry after all of its predecessors.
pub open spec fn is_post_order(rel: spec_fn(NodeId, NodeId) -> bool, target: NodeId, order: Seq<NodeId>) -> bool {
    &&& order.len() > 0
    &&& order.last() == target
    &&& order.no_duplicates()
    &&& forall|i: int, s: NodeId| 0 <= i < order.len() && #[trigger] rel(s, order[i]) ==> order.contains(s)
    &&& forall|i: int| 0 <= i < order.len() - 1 ==> #[trigger] has_later_feeder(rel, order, i)
    &&& acyclic(rel) ==> forall|i: int, s: NodeId|
        0 <= i < order.len() && #[trigger] rel(s, order[i]) ==> exists|j: int| 0 <= j < i && order[j] == s
}

/// A traversal from `target` that started with nothing visited, run with
/// `rank` witnessing acyclicity whenever `rel` is acyclic, produced a post
/// order.
pub proof fn lemma_post_order(
    rel: spec_fn(NodeId, NodeId) -> bool,
    rank: spec_fn(NodeId) -> nat,
    target: NodeId,
    visited: Seq<NodeId>,
    order: Seq<NodeId>,
)
    requires
        visit_result(rel, rank, target, seq![], seq![], visited, order),
        acyclic(rel) ==> ranked(rel, rank),
    ensures
        is_post_order(rel, target, order),
{
    assert(order.skip(0) =~= order);
    assert(order.take(0) =~= seq![]);
    assert forall|i: int, s: NodeId| 0 <= i < order.len() && #[trigger] rel(s, order[i]) implies order.contains(s) by {
        assert(order.skip(0)[i] == order[i]);
        assert(visited.contains(s));
    }
    assert forall|i: int| 0 <= i < order.len() - 1 implies #[trigger] has_later_feeder(rel, order, i) by {
        assert(has_later_feeder(rel, order.skip(0), i));
    }
    if acyclic(rel) {
        assert(rank_hyp(rel, rank, target, seq![], seq![]));
        assert forall|i: int, s: NodeId| 0 <= i < order.len() && #[trigger] rel(s, order[i])
            implies exists|j: int| 0 <= j < i && order[j] == s by {
            assert(order.skip(0)[i] == order[i]);
            assert(rel(s, order.skip(0)[i]));
        }
    }
}

} // verus!
