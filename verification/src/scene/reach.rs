//! Reachability along child links, and the counting argument that bounds a
//! breadth-first walk over a subtree without cycles.

use vstd::prelude::*;
use super::{NodeId, NodeView};
use super::hierarchy::slot_live;

verus! {

/// The children recorded by the node in slot `x` of `s`; none for an empty
/// slot.
pub open spec fn kids(s: Seq<Option<NodeView>>, x: NodeId) -> Seq<NodeId> {
    if slot_live(s, x) {
        s[x.0 as int].unwrap().children
    } else {
        Seq::empty()
    }
}

/// Whether `path` follows child links of `s`: each step goes from a node to
/// one of its children.
pub open spec fn is_child_path(s: Seq<Option<NodeView>>, path: Seq<NodeId>) -> bool {
    &&& path.len() >= 1
    &&& forall|j: int| 0 <= j < path.len() - 1 ==> kids(s, #[trigger] path[j]).contains(path[j + 1])
}

/// Whether `to` can be reached from `from` along child links (in zero or more
/// steps).
pub open spec fn reaches(s: Seq<Option<NodeView>>, from: NodeId, to: NodeId) -> bool {
    exists|path: Seq<NodeId>| #[trigger] is_child_path(s, path) && path[0] == from && path.last() == to
}

/// Whether `set` is closed under child links of `s` and `rank` strictly
/// decreases along each of those links.
pub open spec fn ranked_closed(s: Seq<Option<NodeView>>, set: Set<NodeId>, rank: spec_fn(NodeId) -> nat) -> bool {
    forall|x: NodeId, k: int| set.contains(x) && 0 <= k < kids(s, x).len() ==> {
        &&& set.contains(#[trigger] kids(s, x)[k])
        &&& rank(kids(s, x)[k]) < rank(x)
    }
}

/// Whether no cycle of child links can be reached from `id`: some set holding
/// `id` is closed under child links with a rank that strictly decreases along
/// them.
pub open spec fn acyclic_below(s: Seq<Option<NodeView>>, id: NodeId) -> bool {
    exists|set: Set<NodeId>, rank: spec_fn(NodeId) -> nat| set.contains(id) && ranked_closed(s, set, rank)
}

/// The number of child paths that start at `x`, counted to depth `fuel`.
pub open spec fn path_count(s: Seq<Option<NodeView>>, x: NodeId, fuel: nat) -> nat
    decreases fuel, 0nat,
{
    if fuel == 0 {
        1
    } else {
        1 + path_sum(s, kids(s, x), (fuel - 1) as nat)
    }
}

/// The sum of `path_count` over `cs`.
pub open spec fn path_sum(s: Seq<Option<NodeView>>, cs: Seq<NodeId>, fuel: nat) -> nat
    decreases fuel, cs.len(),
{
    if cs.len() == 0 {
        0
    } else {
        path_sum(s, cs.drop_last(), fuel) + path_count(s, cs.last(), fuel)
    }
}

/// With enough depth, the count of paths from a node in a ranked closed set
/// no longer depends on the depth.
pub proof fn lemma_path_count_stable(s: Seq<Option<NodeView>>, set: Set<NodeId>, rank: spec_fn(NodeId) -> nat, x: NodeId, f1: nat, f2: nat)
    requires
        ranked_closed(s, set, rank),
        set.contains(x),
        f1 > rank(x),
        f2 > rank(x),
    ensures
        path_count(s, x, f1) == path_count(s, x, f2),
    decreases f1, 0nat,
{
    lemma_path_sum_stable(s, set, rank, x, kids(s, x), (f1 - 1) as nat, (f2 - 1) as nat);
}

/// `path_sum` over a prefix of a node's children is stable in the same way.
pub proof fn lemma_path_sum_stable(
    s: Seq<Option<NodeView>>,
    set: Set<NodeId>,
    rank: spec_fn(NodeId) -> nat,
    x: NodeId,
    cs: Seq<NodeId>,
    f1: nat,
    f2: nat,
)
    requires
        ranked_closed(s, set, rank),
        set.contains(x),
        cs.len() <= kids(s, x).len(),
        forall|k: int| 0 <= k < cs.len() ==> cs[k] == kids(s, x)[k],
        f1 >= rank(x),
        f2 >= rank(x),
    ensures
        path_sum(s, cs, f1) == path_sum(s, cs, f2),
    decreases f1, cs.len(),
{
    if cs.len() > 0 {
        let k = cs.len() - 1;
        assert(cs.last() == kids(s, x)[k]);
        assert(set.contains(kids(s, x)[k]) && rank(kids(s, x)[k]) < rank(x));
        lemma_path_sum_stable(s, set, rank, x, cs.drop_last(), f1, f2);
        lemma_path_count_stable(s, set, rank, cs.last(), f1, f2);
    }
}

/// The number of child paths that start at `x`.
pub open spec fn paths(s: Seq<Option<NodeView>>, rank: spec_fn(NodeId) -> nat, x: NodeId) -> nat {
    path_count(s, x, rank(x) + 1)
}

/// The sum of `paths(x) - 1` over `cs`: how many more entries a breadth-first
/// walk lists below the nodes of `cs`.
pub open spec fn pending(s: Seq<Option<NodeView>>, rank: spec_fn(NodeId) -> nat, cs: Seq<NodeId>) -> int
    decreases cs.len(),
{
    if cs.len() == 0 {
        0
    } else {
        pending(s, rank, cs.drop_last()) + paths(s, rank, cs.last()) - 1
    }
}

/// Every path count is at least one, so `pending` is never negative.
pub proof fn lemma_pending_nonneg(s: Seq<Option<NodeView>>, rank: spec_fn(NodeId) -> nat, cs: Seq<NodeId>)
    ensures
        pending(s, rank, cs) >= 0,
    decreases cs.len(),
{
    if cs.len() > 0 {
        lemma_pending_nonneg(s, rank, cs.drop_last());
    }
}

/// `pending` distributes over concatenation.
pub proof fn lemma_pending_concat(s: Seq<Option<NodeView>>, rank: spec_fn(NodeId) -> nat, a: Seq<NodeId>, b: Seq<NodeId>)
    ensures
        pending(s, rank, a + b) == pending(s, rank, a) + pending(s, rank, b),
    decreases b.len(),
{
    if b.len() > 0 {
        assert((a + b).drop_last() =~= a + b.drop_last());
        lemma_pending_concat(s, rank, a, b.drop_last());
    } else {
        assert(a + b =~= a);
    }
}

/// `pending` over a sequence, split after its first element.
pub proof fn lemma_pending_first(s: Seq<Option<NodeView>>, rank: spec_fn(NodeId) -> nat, cs: Seq<NodeId>)
    requires
        cs.len() > 0,
    ensures
        pending(s, rank, cs) == paths(s, rank, cs[0]) - 1 + pending(s, rank, cs.subrange(1, cs.len() as int)),
{
    assert(cs =~= seq![cs[0]] + cs.subrange(1, cs.len() as int));
    lemma_pending_concat(s, rank, seq![cs[0]], cs.subrange(1, cs.len() as int));
    let one = seq![cs[0]];
    assert(one.drop_last() =~= Seq::<NodeId>::empty());
    assert(one.last() == cs[0]);
    assert(pending(s, rank, one) == pending(s, rank, one.drop_last()) + paths(s, rank, one.last()) - 1);
}

/// A node's path count is one more than the sum over its children.
pub proof fn lemma_paths_unfold(s: Seq<Option<NodeView>>, set: Set<NodeId>, rank: spec_fn(NodeId) -> nat, x: NodeId)
    requires
        ranked_closed(s, set, rank),
        set.contains(x),
    ensures
        paths(s, rank, x) == 1 + pending(s, rank, kids(s, x)) + kids(s, x).len(),
{
    lemma_sum_is_pending(s, set, rank, x, kids(s, x));
}

/// Over a prefix of a live node's children, `path_sum` at the node's depth is
/// `pending` plus the prefix's length.
proof fn lemma_sum_is_pending(s: Seq<Option<NodeView>>, set: Set<NodeId>, rank: spec_fn(NodeId) -> nat, x: NodeId, cs: Seq<NodeId>)
    requires
        ranked_closed(s, set, rank),
        set.contains(x),
        cs.len() <= kids(s, x).len(),
        forall|k: int| 0 <= k < cs.len() ==> cs[k] == kids(s, x)[k],
    ensures
        path_sum(s, cs, rank(x)) == pending(s, rank, cs) + cs.len(),
    decreases cs.len(),
{
    if cs.len() > 0 {
        let k = cs.len() - 1;
        assert(cs.last() == kids(s, x)[k]);
        assert(set.contains(kids(s, x)[k]) && rank(kids(s, x)[k]) < rank(x));
        lemma_sum_is_pending(s, set, rank, x, cs.drop_last());
        lemma_path_count_stable(s, set, rank, cs.last(), rank(x), rank(cs.last()) + 1);
    }
}

/// A path extended by a child of its last node is a path.
pub proof fn lemma_reaches_child(s: Seq<Option<NodeView>>, from: NodeId, x: NodeId, k: int)
    requires
        reaches(s, from, x),
        0 <= k < kids(s, x).len(),
    ensures
        reaches(s, from, kids(s, x)[k]),
{
    let path = choose|path: Seq<NodeId>| is_child_path(s, path) && path[0] == from && path.last() == x;
    let p2 = path.push(kids(s, x)[k]);
    assert forall|j: int| 0 <= j < p2.len() - 1 implies kids(s, #[trigger] p2[j]).contains(p2[j + 1]) by {
        if j < path.len() - 1 {
            assert(p2[j] == path[j] && p2[j + 1] == path[j + 1]);
        } else {
            assert(p2[j] == x);
            assert(kids(s, x)[k] == p2[j + 1]);
        }
    }
    assert(is_child_path(s, p2));
    assert(p2[0] == from);
    assert(p2.last() == kids(s, x)[k]);
}

/// Every node reachable from a member of a set closed under child links is a
/// member.
pub proof fn lemma_closed_contains_reach(s: Seq<Option<NodeView>>, set: Set<NodeId>, from: NodeId, to: NodeId)
    requires
        set.contains(from),
        forall|x: NodeId, k: int| set.contains(x) && 0 <= k < kids(s, x).len() ==> set.contains(#[trigger] kids(s, x)[k]),
        reaches(s, from, to),
    ensures
        set.contains(to),
{
    let path = choose|path: Seq<NodeId>| is_child_path(s, path) && path[0] == from && path.last() == to;
    lemma_closed_path(s, set, path, path.len() - 1);
}

proof fn lemma_closed_path(s: Seq<Option<NodeView>>, set: Set<NodeId>, path: Seq<NodeId>, j: int)
    requires
        is_child_path(s, path),
        set.contains(path[0]),
        forall|x: NodeId, k: int| set.contains(x) && 0 <= k < kids(s, x).len() ==> set.contains(#[trigger] kids(s, x)[k]),
        0 <= j < path.len(),
    ensures
        set.contains(path[j]),
    decreases j,
{
    if j > 0 {
        lemma_closed_path(s, set, path, j - 1);
        assert(kids(s, path[j - 1]).contains(path[j]));
        let k = choose|k: int| 0 <= k < kids(s, path[j - 1]).len() && #[trigger] kids(s, path[j - 1])[k] == path[j];
    }
}

/// A node reaches itself.
pub proof fn lemma_reaches_self(s: Seq<Option<NodeView>>, x: NodeId)
    ensures
        reaches(s, x, x),
{
    let p = seq![x];
    assert(is_child_path(s, p));
    assert(p[0] == x && p.last() == x);
}

} // verus!
