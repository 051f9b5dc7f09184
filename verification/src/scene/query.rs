//! Culling and ray picking over the hierarchy.
//!
//! The geometric tests themselves are floating-point work done outside the
//! library; here they arrive as one answer per slot, and the library decides
//! which nodes are visited, in which order, and what is returned.

use vstd::prelude::*;
use super::{NodeId, NodeView, SceneGraph, refs_in_range};
use super::hierarchy::slot_live;
use super::reach::{acyclic_below, is_child_path, kids, ranked_closed};

verus! {

/// The nodes that a depth-first walk from `id` lists, each before its
/// children: a node is listed, and its children walked, only when it lives
/// and `keep` holds of it. `fuel` bounds the depth.
pub open spec fn preorder(s: Seq<Option<NodeView>>, keep: spec_fn(NodeId) -> bool, id: NodeId, fuel: nat) -> Seq<NodeId>
    decreases fuel, 0nat,
{
    if fuel == 0 || !slot_live(s, id) || !keep(id) {
        Seq::empty()
    } else {
        seq![id] + preorder_all(s, keep, kids(s, id), (fuel - 1) as nat)
    }
}

/// The walks from each of `cs`, one after another.
pub open spec fn preorder_all(s: Seq<Option<NodeView>>, keep: spec_fn(NodeId) -> bool, cs: Seq<NodeId>, fuel: nat) -> Seq<NodeId>
    decreases fuel, cs.len(),
{
    if cs.len() == 0 {
        Seq::empty()
    } else {
        preorder_all(s, keep, cs.drop_last(), fuel) + preorder(s, keep, cs.last(), fuel)
    }
}

/// A depth bound for walks from `id`: one more than the rank of `id` in some
/// ranked closed set that holds it.
pub open spec fn depth_bound(s: Seq<Option<NodeView>>, id: NodeId) -> nat {
    let (set, rank) = choose|set: Set<NodeId>, rank: spec_fn(NodeId) -> nat| set.contains(id) && ranked_closed(s, set, rank);
    rank(id) + 1
}

/// A node is kept by culling when it is active and either has no bounds or
/// its bounds were found inside the frustum.
pub open spec fn culling_keep(s: Seq<Option<NodeView>>, in_frustum: Seq<bool>) -> spec_fn(NodeId) -> bool {
    |x: NodeId| s[x.0 as int].unwrap().active && (s[x.0 as int].unwrap().bounds is None || in_frustum[x.0 as int])
}

/// A node is walked by ray picking when it is active.
pub open spec fn picking_keep(s: Seq<Option<NodeView>>) -> spec_fn(NodeId) -> bool {
    |x: NodeId| s[x.0 as int].unwrap().active
}

/// One step of ray picking: the node at `x` replaces the best hit so far when
/// it has bounds that the ray hits strictly closer.
pub open spec fn pick_step(s: Seq<Option<NodeView>>, hits: Seq<Option<u32>>, best: Option<(NodeId, u32)>, x: NodeId) -> Option<(NodeId, u32)> {
    if s[x.0 as int].unwrap().bounds is Some && hits[x.0 as int] is Some && (best is None || hits[x.0 as int].unwrap() < best.unwrap().1) {
        Some((x, hits[x.0 as int].unwrap()))
    } else {
        best
    }
}

/// Ray picking over `order`, starting from `best`.
pub open spec fn pick_all(s: Seq<Option<NodeView>>, hits: Seq<Option<u32>>, order: Seq<NodeId>, best: Option<(NodeId, u32)>) -> Option<(NodeId, u32)>
    decreases order.len(),
{
    if order.len() == 0 {
        best
    } else {
        pick_step(s, hits, pick_all(s, hits, order.drop_last(), best), order.last())
    }
}

proof fn lemma_pick_concat(s: Seq<Option<NodeView>>, hits: Seq<Option<u32>>, a: Seq<NodeId>, b: Seq<NodeId>, best: Option<(NodeId, u32)>)
    ensures
        pick_all(s, hits, a + b, best) == pick_all(s, hits, b, pick_all(s, hits, a, best)),
    decreases b.len(),
{
    if b.len() > 0 {
        assert((a + b).drop_last() =~= a + b.drop_last());
        lemma_pick_concat(s, hits, a, b.drop_last(), best);
    } else {
        assert(a + b =~= a);
    }
}

/// Whether `p` follows child links of `s` through live nodes of which `keep`
/// holds.
pub open spec fn kept_path(s: Seq<Option<NodeView>>, keep: spec_fn(NodeId) -> bool, p: Seq<NodeId>) -> bool {
    &&& is_child_path(s, p)
    &&& forall|j: int| 0 <= j < p.len() ==> slot_live(s, #[trigger] p[j]) && keep(p[j])
}

/// Every node a walk from `id` lists is live, kept, and reached from `id`
/// through kept nodes.
proof fn lemma_preorder_sound(s: Seq<Option<NodeView>>, keep: spec_fn(NodeId) -> bool, id: NodeId, fuel: nat)
    ensures
        forall|i: int| 0 <= i < preorder(s, keep, id, fuel).len() ==> {
            let x = #[trigger] preorder(s, keep, id, fuel)[i];
            &&& slot_live(s, x)
            &&& keep(x)
            &&& exists|p: Seq<NodeId>| kept_path(s, keep, p) && p[0] == id && p.last() == x
        },
    decreases fuel, 0nat,
{
    let r = preorder(s, keep, id, fuel);
    if fuel > 0 && slot_live(s, id) && keep(id) {
        let cs = kids(s, id);
        let rest = preorder_all(s, keep, cs, (fuel - 1) as nat);
        lemma_preorder_all_sound(s, keep, cs, (fuel - 1) as nat);
        assert(r == seq![id] + rest);
        assert forall|i: int| 0 <= i < r.len() implies {
            let x = #[trigger] r[i];
            &&& slot_live(s, x)
            &&& keep(x)
            &&& exists|p: Seq<NodeId>| kept_path(s, keep, p) && p[0] == id && p.last() == x
        } by {
            if i == 0 {
                let p = seq![id];
                assert(r[0] == id);
                assert(kept_path(s, keep, p) && p[0] == id && p.last() == r[i]);
            } else {
                assert(r[i] == rest[i - 1]);
                let x = r[i];
                let (k, q) = choose|k: int, q: Seq<NodeId>| 0 <= k < cs.len() && kept_path(s, keep, q) && q[0] == cs[k] && q.last() == x;
                let p = seq![id] + q;
                assert forall|j: int| 0 <= j < p.len() - 1 implies kids(s, #[trigger] p[j]).contains(p[j + 1]) by {
                    if j == 0 {
                        assert(p[1] == q[0]);
                        assert(cs[k] == q[0]);
                    } else {
                        assert(p[j] == q[j - 1] && p[j + 1] == q[j]);
                    }
                }
                assert forall|j: int| 0 <= j < p.len() implies slot_live(s, #[trigger] p[j]) && keep(p[j]) by {
                    if j > 0 {
                        assert(p[j] == q[j - 1]);
                    }
                }
                assert(kept_path(s, keep, p) && p[0] == id && p.last() == x);
            }
        }
    }
}

/// Every node the walks from `cs` list is live, kept, and reached from one of
/// `cs` through kept nodes.
proof fn lemma_preorder_all_sound(s: Seq<Option<NodeView>>, keep: spec_fn(NodeId) -> bool, cs: Seq<NodeId>, fuel: nat)
    ensures
        forall|i: int| 0 <= i < preorder_all(s, keep, cs, fuel).len() ==> {
            let x = #[trigger] preorder_all(s, keep, cs, fuel)[i];
            &&& slot_live(s, x)
            &&& keep(x)
            &&& exists|k: int, p: Seq<NodeId>| 0 <= k < cs.len() && kept_path(s, keep, p) && p[0] == cs[k] && p.last() == x
        },
    decreases fuel, cs.len(),
{
    if cs.len() > 0 {
        let pre = cs.drop_last();
        let a = preorder_all(s, keep, pre, fuel);
        let b = preorder(s, keep, cs.last(), fuel);
        lemma_preorder_all_sound(s, keep, pre, fuel);
        lemma_preorder_sound(s, keep, cs.last(), fuel);
        let r = preorder_all(s, keep, cs, fuel);
        assert(r == a + b);
        assert forall|i: int| 0 <= i < r.len() implies {
            let x = #[trigger] r[i];
            &&& slot_live(s, x)
            &&& keep(x)
            &&& exists|k: int, p: Seq<NodeId>| 0 <= k < cs.len() && kept_path(s, keep, p) && p[0] == cs[k] && p.last() == x
        } by {
            let x = r[i];
            if i < a.len() {
                assert(x == a[i]);
                let (k, p) = choose|k: int, p: Seq<NodeId>| 0 <= k < pre.len() && kept_path(s, keep, p) && p[0] == pre[k] && p.last() == x;
                assert(cs[k] == pre[k]);
            } else {
                assert(x == b[i - a.len()]);
                let p = choose|p: Seq<NodeId>| kept_path(s, keep, p) && p[0] == cs.last() && p.last() == x;
                assert(cs[cs.len() - 1] == cs.last());
            }
        }
    }
}

/// A walk from `id` starts at `id`, and lists every other node after a node
/// that has it as a child.
proof fn lemma_preorder_parent_first(s: Seq<Option<NodeView>>, keep: spec_fn(NodeId) -> bool, id: NodeId, fuel: nat)
    ensures
        preorder(s, keep, id, fuel).len() > 0 ==> preorder(s, keep, id, fuel)[0] == id,
        forall|i: int| 0 < i < preorder(s, keep, id, fuel).len() ==> exists|m: int|
            0 <= m < i && kids(s, preorder(s, keep, id, fuel)[m]).contains(#[trigger] preorder(s, keep, id, fuel)[i]),
    decreases fuel, 0nat,
{
    let r = preorder(s, keep, id, fuel);
    if fuel > 0 && slot_live(s, id) && keep(id) {
        let cs = kids(s, id);
        let rest = preorder_all(s, keep, cs, (fuel - 1) as nat);
        lemma_preorder_all_parent_first(s, keep, cs, (fuel - 1) as nat);
        assert(r == seq![id] + rest);
        assert forall|i: int| 0 < i < r.len() implies exists|m: int| 0 <= m < i && kids(s, r[m]).contains(#[trigger] r[i]) by {
            assert(r[i] == rest[i - 1]);
            if cs.contains(rest[i - 1]) {
                assert(r[0] == id);
                assert(kids(s, r[0]).contains(r[i]));
            } else {
                let m = choose|m: int| 0 <= m < i - 1 && kids(s, rest[m]).contains(#[trigger] rest[i - 1]);
                assert(r[m + 1] == rest[m]);
                assert(kids(s, r[m + 1]).contains(r[i]));
            }
        }
    }
}

/// The walks from `cs` list each node after a node that has it as a child,
/// unless it is one of `cs`.
proof fn lemma_preorder_all_parent_first(s: Seq<Option<NodeView>>, keep: spec_fn(NodeId) -> bool, cs: Seq<NodeId>, fuel: nat)
    ensures
        forall|i: int| 0 <= i < preorder_all(s, keep, cs, fuel).len() ==> cs.contains(#[trigger] preorder_all(s, keep, cs, fuel)[i])
            || exists|m: int| 0 <= m < i && kids(s, preorder_all(s, keep, cs, fuel)[m]).contains(preorder_all(s, keep, cs, fuel)[i]),
    decreases fuel, cs.len(),
{
    if cs.len() > 0 {
        let pre = cs.drop_last();
        let a = preorder_all(s, keep, pre, fuel);
        let b = preorder(s, keep, cs.last(), fuel);
        lemma_preorder_all_parent_first(s, keep, pre, fuel);
        lemma_preorder_parent_first(s, keep, cs.last(), fuel);
        let r = preorder_all(s, keep, cs, fuel);
        assert(r == a + b);
        assert forall|i: int| 0 <= i < r.len() implies cs.contains(#[trigger] r[i])
            || exists|m: int| 0 <= m < i && kids(s, r[m]).contains(r[i]) by {
            if i < a.len() {
                assert(r[i] == a[i]);
                if pre.contains(a[i]) {
                    let k = choose|k: int| 0 <= k < pre.len() && pre[k] == a[i];
                    assert(cs[k] == pre[k]);
                } else {
                    let m = choose|m: int| 0 <= m < i && kids(s, a[m]).contains(#[trigger] a[i]);
                    assert(r[m] == a[m]);
                }
            } else {
                let j = i - a.len();
                assert(r[i] == b[j]);
                if j == 0 {
                    assert(cs[cs.len() - 1] == b[0]);
                } else {
                    let m = choose|m: int| 0 <= m < j && kids(s, b[m]).contains(#[trigger] b[j]);
                    assert(r[a.len() + m] == b[m]);
                }
            }
        }
    }
}

/// The walks from `cs` list everything the walk from each of them lists.
proof fn lemma_preorder_all_contains(s: Seq<Option<NodeView>>, keep: spec_fn(NodeId) -> bool, cs: Seq<NodeId>, fuel: nat, k: int, x: NodeId)
    requires
        0 <= k < cs.len(),
        preorder(s, keep, cs[k], fuel).contains(x),
    ensures
        preorder_all(s, keep, cs, fuel).contains(x),
    decreases cs.len(),
{
    let pre = cs.drop_last();
    let a = preorder_all(s, keep, pre, fuel);
    let b = preorder(s, keep, cs.last(), fuel);
    assert(preorder_all(s, keep, cs, fuel) == a + b);
    if k < cs.len() - 1 {
        assert(pre[k] == cs[k]);
        lemma_preorder_all_contains(s, keep, pre, fuel, k, x);
        let i = choose|i: int| 0 <= i < a.len() && a[i] == x;
        assert((a + b)[i] == x);
    } else {
        let i = choose|i: int| 0 <= i < b.len() && b[i] == x;
        assert((a + b)[a.len() + i] == x);
    }
}

/// A walk from `id` with enough fuel lists every node reached from `id`
/// through kept nodes.
proof fn lemma_preorder_complete(
    s: Seq<Option<NodeView>>,
    keep: spec_fn(NodeId) -> bool,
    set: Set<NodeId>,
    rank: spec_fn(NodeId) -> nat,
    fuel: nat,
    p: Seq<NodeId>,
)
    requires
        set.contains(p[0]),
        ranked_closed(s, set, rank),
        fuel > rank(p[0]),
        kept_path(s, keep, p),
    ensures
        preorder(s, keep, p[0], fuel).contains(p.last()),
    decreases p.len(),
{
    let id = p[0];
    assert(slot_live(s, p[0]) && keep(p[0]));
    let r = preorder(s, keep, id, fuel);
    let cs = kids(s, id);
    let rest = preorder_all(s, keep, cs, (fuel - 1) as nat);
    assert(r == seq![id] + rest);
    if p.len() == 1 {
        assert(r[0] == id);
    } else {
        let q = p.subrange(1, p.len() as int);
        assert(kids(s, p[0]).contains(p[1]));
        let k = choose|k: int| 0 <= k < cs.len() && cs[k] == p[1];
        assert(set.contains(cs[k]) && rank(cs[k]) < rank(id));
        assert forall|j: int| 0 <= j < q.len() - 1 implies kids(s, #[trigger] q[j]).contains(q[j + 1]) by {
            assert(q[j] == p[j + 1] && q[j + 1] == p[j + 2]);
        }
        assert forall|j: int| 0 <= j < q.len() implies slot_live(s, #[trigger] q[j]) && keep(q[j]) by {
            assert(q[j] == p[j + 1]);
        }
        assert(q[0] == p[1]);
        assert(q.last() == p.last());
        lemma_preorder_complete(s, keep, set, rank, (fuel - 1) as nat, q);
        lemma_preorder_all_contains(s, keep, cs, (fuel - 1) as nat, k, p.last());
        let i = choose|i: int| 0 <= i < rest.len() && rest[i] == p.last();
        assert(r[i + 1] == p.last());
    }
}

/// Ray picking over `order` from no hit gives a hit of some node of `order`
/// with bounds, and no node of `order` with bounds is hit closer.
#[verifier::rlimit(40)]
proof fn lemma_pick_all_closest(s: Seq<Option<NodeView>>, hits: Seq<Option<u32>>, order: Seq<NodeId>)
    ensures
        pick_all(s, hits, order, None) matches Some((y, t)) ==> {
            &&& order.contains(y)
            &&& s[y.0 as int].unwrap().bounds is Some
            &&& hits[y.0 as int] == Some(t)
            &&& exists|i: int| 0 <= i < order.len() && order[i] == y && forall|m: int| 0 <= m < i
                && s[(#[trigger] order[m]).0 as int].unwrap().bounds is Some && hits[order[m].0 as int] is Some
                ==> t < hits[order[m].0 as int].unwrap()
        },
        forall|m: int| 0 <= m < order.len() && s[(#[trigger] order[m]).0 as int].unwrap().bounds is Some && hits[order[m].0 as int] is Some
            ==> (pick_all(s, hits, order, None) is Some && pick_all(s, hits, order, None).unwrap().1 <= hits[order[m].0 as int].unwrap()),
    decreases order.len(),
{
    if order.len() > 0 {
        let pre = order.drop_last();
        let x = order.last();
        lemma_pick_all_closest(s, hits, pre);
        let prev = pick_all(s, hits, pre, None);
        let r = pick_all(s, hits, order, None);
        assert(r == pick_step(s, hits, prev, x));
        assert(order[order.len() - 1] == x);
        if let Some((y, t)) = r {
            if r != prev {
                assert(y == x);
                let i = order.len() - 1;
                assert forall|m: int| 0 <= m < i
                    && s[(#[trigger] order[m]).0 as int].unwrap().bounds is Some && hits[order[m].0 as int] is Some
                    implies t < hits[order[m].0 as int].unwrap() by {
                    assert(pre[m] == order[m]);
                }
                assert(order[i] == y);
            } else {
                let y2 = prev.unwrap().0;
                let i = choose|i: int| 0 <= i < pre.len() && pre[i] == y2 && forall|m: int| 0 <= m < i
                    && s[(#[trigger] pre[m]).0 as int].unwrap().bounds is Some && hits[pre[m].0 as int] is Some
                    ==> t < hits[pre[m].0 as int].unwrap();
                assert(order[i] == y2);
                assert forall|m: int| 0 <= m < i
                    && s[(#[trigger] order[m]).0 as int].unwrap().bounds is Some && hits[order[m].0 as int] is Some
                    implies t < hits[order[m].0 as int].unwrap() by {
                    assert(pre[m] == order[m]);
                }
            }
        }
        assert forall|m: int| 0 <= m < order.len() && s[(#[trigger] order[m]).0 as int].unwrap().bounds is Some && hits[order[m].0 as int] is Some
            implies (r is Some && r.unwrap().1 <= hits[order[m].0 as int].unwrap()) by {
            if m < pre.len() {
                assert(pre[m] == order[m]);
            }
        }
    }
}

/// Culling law: the nodes that survive culling are live and active, and have
/// bounds only if those bounds meet the frustum; every node that the root
/// reaches through such nodes survives; and the list starts at the root and
/// lists every other node after a node that has it as a child.
pub proof fn lemma_culling_law(g: SceneGraph, in_frustum: Seq<bool>, r: Seq<NodeId>)
    requires
        g.wf(),
        in_frustum.len() == g.slots().len(),
        acyclic_below(g.slots(), g.root_spec()),
        r == preorder(g.slots(), culling_keep(g.slots(), in_frustum), g.root_spec(), depth_bound(g.slots(), g.root_spec())),
    ensures
        forall|i: int| 0 <= i < r.len() ==> {
            let x = #[trigger] r[i];
            &&& g.live(x)
            &&& g.node(x).active
            &&& (g.node(x).bounds is Some ==> in_frustum[x.0 as int])
        },
        forall|p: Seq<NodeId>|
            #![trigger is_child_path(g.slots(), p)]
            is_child_path(g.slots(), p) && p[0] == g.root_spec() && (forall|j: int| 0 <= j < p.len() ==> {
                &&& g.live(#[trigger] p[j])
                &&& g.node(p[j]).active
                &&& (g.node(p[j]).bounds is Some ==> in_frustum[p[j].0 as int])
            }) ==> r.contains(p.last()),
        r.len() > 0 ==> r[0] == g.root_spec(),
        forall|i: int| 0 < i < r.len() ==> exists|m: int| 0 <= m < i && kids(g.slots(), r[m]).contains(#[trigger] r[i]),
{
    let s = g.slots();
    let root = g.root_spec();
    let keep = culling_keep(s, in_frustum);
    lemma_preorder_parent_first(s, keep, root, depth_bound(s, root));
    let (set, rank) = choose|set: Set<NodeId>, rank: spec_fn(NodeId) -> nat| set.contains(root) && ranked_closed(s, set, rank);
    let fuel = depth_bound(s, root);
    assert(fuel == rank(root) + 1);
    lemma_preorder_sound(s, keep, root, fuel);
    assert forall|i: int| 0 <= i < r.len() implies {
        let x = #[trigger] r[i];
        &&& g.live(x)
        &&& g.node(x).active
        &&& (g.node(x).bounds is Some ==> in_frustum[x.0 as int])
    } by {
        assert(keep(r[i]));
    }
    assert forall|p: Seq<NodeId>|
        #![trigger is_child_path(g.slots(), p)]
        is_child_path(g.slots(), p) && p[0] == g.root_spec() && (forall|j: int| 0 <= j < p.len() ==> {
            &&& g.live(#[trigger] p[j])
            &&& g.node(p[j]).active
            &&& (g.node(p[j]).bounds is Some ==> in_frustum[p[j].0 as int])
        }) implies r.contains(p.last()) by {
        assert forall|j: int| 0 <= j < p.len() implies slot_live(s, #[trigger] p[j]) && keep(p[j]) by {
            assert(g.live(p[j]));
        }
        lemma_preorder_complete(s, keep, set, rank, fuel, p);
    }
}

/// Picking law: a ray picks the hit of a live, active node with bounds that
/// the root reaches through active nodes; whenever such a node is hit, some
/// node is picked, no such node is hit closer than the one picked, and none
/// visited before it is hit as close.
pub proof fn lemma_picking_law(g: SceneGraph, hits: Seq<Option<u32>>, r: Option<(NodeId, u32)>)
    requires
        g.wf(),
        hits.len() == g.slots().len(),
        acyclic_below(g.slots(), g.root_spec()),
        r == pick_all(g.slots(), hits, preorder(g.slots(), picking_keep(g.slots()), g.root_spec(), depth_bound(g.slots(), g.root_spec())), None),
    ensures
        r matches Some((y, t)) ==> {
            &&& g.live(y)
            &&& g.node(y).active
            &&& g.node(y).bounds is Some
            &&& hits[y.0 as int] == Some(t)
            &&& {
                let order = preorder(g.slots(), picking_keep(g.slots()), g.root_spec(), depth_bound(g.slots(), g.root_spec()));
                exists|i: int| 0 <= i < order.len() && order[i] == y && forall|m: int| 0 <= m < i
                    && g.node(#[trigger] order[m]).bounds is Some && hits[order[m].0 as int] is Some
                    ==> t < hits[order[m].0 as int].unwrap()
            }
            &&& exists|p: Seq<NodeId>| #![trigger is_child_path(g.slots(), p)]
                is_child_path(g.slots(), p) && p[0] == g.root_spec() && p.last() == y
                && forall|j: int| 0 <= j < p.len() ==> g.live(#[trigger] p[j]) && g.node(p[j]).active
        },
        forall|p: Seq<NodeId>|
            #![trigger is_child_path(g.slots(), p)]
            is_child_path(g.slots(), p) && p[0] == g.root_spec()
            && (forall|j: int| 0 <= j < p.len() ==> g.live(#[trigger] p[j]) && g.node(p[j]).active)
            && g.node(p.last()).bounds is Some && hits[p.last().0 as int] is Some
            ==> (r is Some && r.unwrap().1 <= hits[p.last().0 as int].unwrap()),
{
    let s = g.slots();
    let root = g.root_spec();
    let keep = picking_keep(s);
    let (set, rank) = choose|set: Set<NodeId>, rank: spec_fn(NodeId) -> nat| set.contains(root) && ranked_closed(s, set, rank);
    let fuel = depth_bound(s, root);
    assert(fuel == rank(root) + 1);
    let order = preorder(s, keep, root, fuel);
    lemma_preorder_sound(s, keep, root, fuel);
    lemma_pick_all_closest(s, hits, order);
    if let Some((y, t)) = r {
        let i = choose|i: int| 0 <= i < order.len() && order[i] == y;
        assert(keep(order[i]));
        let p = choose|p: Seq<NodeId>| kept_path(s, keep, p) && p[0] == root && p.last() == order[i];
        assert forall|j: int| 0 <= j < p.len() implies g.live(#[trigger] p[j]) && g.node(p[j]).active by {
            assert(slot_live(s, p[j]) && keep(p[j]));
        }
        assert(is_child_path(g.slots(), p));
    }
    assert forall|p: Seq<NodeId>|
        #![trigger is_child_path(g.slots(), p)]
        is_child_path(g.slots(), p) && p[0] == g.root_spec()
        && (forall|j: int| 0 <= j < p.len() ==> g.live(#[trigger] p[j]) && g.node(p[j]).active)
        && g.node(p.last()).bounds is Some && hits[p.last().0 as int] is Some
        implies (r is Some && r.unwrap().1 <= hits[p.last().0 as int].unwrap()) by {
        assert forall|j: int| 0 <= j < p.len() implies slot_live(s, #[trigger] p[j]) && keep(p[j]) by {
            assert(g.live(p[j]));
        }
        lemma_preorder_complete(s, keep, set, rank, fuel, p);
        let m = choose|m: int| 0 <= m < order.len() && order[m] == p.last();
        assert(s[order[m].0 as int].unwrap().bounds is Some);
    }
}

impl SceneGraph {
    fn query_recursive(
        &self,
        id: NodeId,
        in_frustum: &[bool],
        results: &mut Vec<NodeId>,
        Ghost(set): Ghost<Set<NodeId>>,
        Ghost(rank): Ghost<spec_fn(NodeId) -> nat>,
        Ghost(fuel): Ghost<nat>,
    )
        requires
            self.wf(),
            in_frustum@.len() == self.slots().len(),
            set.contains(id),
            ranked_closed(self.slots(), set, rank),
            fuel > rank(id),
        ensures
            final(results)@ == old(results)@ + preorder(self.slots(), culling_keep(self.slots(), in_frustum@), id, fuel),
        decreases rank(id),
    {
        let ghost s = self.slots();
        let ghost keep = culling_keep(s, in_frustum@);
        if (id.0 as usize) >= self.nodes.len() {
            proof {
                assert(old(results)@ + Seq::<NodeId>::empty() =~= old(results)@);
            }
            return;
        }
        let node = match &self.nodes[id.0 as usize] {
            Some(n) => n,
            None => {
                proof {
                    assert(old(results)@ + Seq::<NodeId>::empty() =~= old(results)@);
                }
                return;
            },
        };
        proof {
            assert(s[id.0 as int] == Some(node@));
        }
        let in_view = match node.bounds {
            Some(_) => in_frustum[id.0 as usize],
            None => true,
        };
        if !node.active || !in_view {
            proof {
                assert(!keep(id));
                assert(old(results)@ + Seq::<NodeId>::empty() =~= old(results)@);
            }
            return;
        }
        results.push(id);
        proof {
            assert(refs_in_range(s[id.0 as int].unwrap(), s.len() as int));
        }
        let mut k: usize = 0;
        while k < node.children.len()
            invariant
                self.wf(),
                self.slots() == s,
                in_frustum@.len() == s.len(),
                keep == culling_keep(s, in_frustum@),
                node.children@ == kids(s, id),
                set.contains(id),
                ranked_closed(s, set, rank),
                fuel > rank(id),
                k <= node.children@.len(),
                results@ == old(results)@ + seq![id] + preorder_all(s, keep, node.children@.take(k as int), (fuel - 1) as nat),
            decreases node.children@.len() - k,
        {
            let c = node.children[k];
            proof {
                assert(kids(s, id)[k as int] == c);
                assert(set.contains(c) && rank(c) < rank(id));
                assert(node.children@.take(k as int + 1).drop_last() =~= node.children@.take(k as int));
                assert(node.children@.take(k as int + 1).last() == c);
            }
            self.query_recursive(c, in_frustum, results, Ghost(set), Ghost(rank), Ghost((fuel - 1) as nat));
            k = k + 1;
            proof {
                assert(results@ =~= old(results)@ + seq![id] + preorder_all(s, keep, node.children@.take(k as int), (fuel - 1) as nat));
            }
        }
        proof {
            assert(node.children@.take(k as int) =~= kids(s, id));
            assert(results@ =~= old(results)@ + preorder(s, keep, id, fuel));
        }
    }

    /// The nodes that survive culling, in depth-first order from the root,
    /// each before its children. `in_frustum` holds, for each slot, whether
    /// the node's world-space bounds intersect the view frustum; it is read
    /// only for nodes that have bounds. A node is listed, and its children
    /// visited, when it is active and its bounds (if any) intersect.
    pub fn query_frustum(&self, in_frustum: &[bool]) -> (r: Vec<NodeId>)
        requires
            self.wf(),
            in_frustum@.len() == self.slots().len(),
            acyclic_below(self.slots(), self.root_spec()),
        ensures
            r@ == preorder(self.slots(), culling_keep(self.slots(), in_frustum@), self.root_spec(), depth_bound(self.slots(), self.root_spec())),
            forall|i: int| 0 <= i < r@.len() ==> {
                let x = #[trigger] r@[i];
                &&& self.live(x)
                &&& self.node(x).active
                &&& (self.node(x).bounds is Some ==> in_frustum@[x.0 as int])
            },
            forall|p: Seq<NodeId>|
                #![trigger is_child_path(self.slots(), p)]
                is_child_path(self.slots(), p) && p[0] == self.root_spec() && (forall|j: int| 0 <= j < p.len() ==> {
                    &&& self.live(#[trigger] p[j])
                    &&& self.node(p[j]).active
                    &&& (self.node(p[j]).bounds is Some ==> in_frustum@[p[j].0 as int])
                }) ==> r@.contains(p.last()),
            r@.len() > 0 ==> r@[0] == self.root_spec(),
            forall|i: int| 0 < i < r@.len() ==> exists|m: int| 0 <= m < i && kids(self.slots(), r@[m]).contains(#[trigger] r@[i]),
    {
        let ghost s = self.slots();
        let ghost (set, rank) = choose|set: Set<NodeId>, rank: spec_fn(NodeId) -> nat| set.contains(self.root) && ranked_closed(s, set, rank);
        let mut results: Vec<NodeId> = Vec::new();
        self.query_recursive(self.root, in_frustum, &mut results, Ghost(set), Ghost(rank), Ghost(rank(self.root) + 1));
        proof {
            assert(results@ =~= preorder(s, culling_keep(s, in_frustum@), self.root, rank(self.root) + 1));
            lemma_culling_law(*self, in_frustum@, results@);
        }
        results
    }

    fn raycast_recursive(
        &self,
        id: NodeId,
        hits: &[Option<u32>],
        closest: &mut Option<(NodeId, u32)>,
        Ghost(set): Ghost<Set<NodeId>>,
        Ghost(rank): Ghost<spec_fn(NodeId) -> nat>,
        Ghost(fuel): Ghost<nat>,
    )
        requires
            self.wf(),
            hits@.len() == self.slots().len(),
            set.contains(id),
            ranked_closed(self.slots(), set, rank),
            fuel > rank(id),
        ensures
            *final(closest) == pick_all(self.slots(), hits@, preorder(self.slots(), picking_keep(self.slots()), id, fuel), *old(closest)),
        decreases rank(id),
    {
        let ghost s = self.slots();
        let ghost keep = picking_keep(s);
        if (id.0 as usize) >= self.nodes.len() {
            return;
        }
        let node = match &self.nodes[id.0 as usize] {
            Some(n) => n,
            None => {
                return;
            },
        };
        proof {
            assert(s[id.0 as int] == Some(node@));
        }
        if !node.active {
            return;
        }
        if node.bounds.is_some() {
            match hits[id.0 as usize] {
                Some(t) => {
                    match *closest {
                        Some((_, best)) => {
                            if t < best {
                                *closest = Some((id, t));
                            }
                        },
                        None => {
                            *closest = Some((id, t));
                        },
                    }
                },
                None => {},
            }
        }
        proof {
            let one = seq![id];
            assert(one.drop_last() =~= Seq::<NodeId>::empty());
            assert(one.last() == id);
            assert(pick_all(s, hits@, one.drop_last(), *old(closest)) == *old(closest));
            assert(pick_all(s, hits@, one, *old(closest)) == pick_step(s, hits@, *old(closest), id));
            assert(*closest == pick_all(s, hits@, seq![id], *old(closest)));
            assert(refs_in_range(s[id.0 as int].unwrap(), s.len() as int));
        }
        let ghost after_self = *closest;
        let mut k: usize = 0;
        while k < node.children.len()
            invariant
                self.wf(),
                self.slots() == s,
                hits@.len() == s.len(),
                keep == picking_keep(s),
                node.children@ == kids(s, id),
                set.contains(id),
                ranked_closed(s, set, rank),
                fuel > rank(id),
                k <= node.children@.len(),
                after_self == pick_all(s, hits@, seq![id], *old(closest)),
                *closest == pick_all(s, hits@, preorder_all(s, keep, node.children@.take(k as int), (fuel - 1) as nat), after_self),
            decreases node.children@.len() - k,
        {
            let c = node.children[k];
            let ghost before = *closest;
            proof {
                assert(kids(s, id)[k as int] == c);
                assert(set.contains(c) && rank(c) < rank(id));
                assert(node.children@.take(k as int + 1).drop_last() =~= node.children@.take(k as int));
                assert(node.children@.take(k as int + 1).last() == c);
            }
            self.raycast_recursive(c, hits, closest, Ghost(set), Ghost(rank), Ghost((fuel - 1) as nat));
            proof {
                lemma_pick_concat(s, hits@, preorder_all(s, keep, node.children@.take(k as int), (fuel - 1) as nat),
                    preorder(s, keep, c, (fuel - 1) as nat), after_self);
            }
            k = k + 1;
        }
        proof {
            assert(node.children@.take(k as int) =~= kids(s, id));
            lemma_pick_concat(s, hits@, seq![id], preorder_all(s, keep, kids(s, id), (fuel - 1) as nat), *old(closest));
        }
    }

    /// The node hit first by a ray. `hits` holds, for each slot, the hit
    /// distance of the ray against the node's world-space bounds, as a key that
    /// orders like the distance, or `None` for a miss; it is read only for
    /// nodes that have bounds. Active nodes are visited depth first from the
    /// root, each before its children (inactive nodes and everything below
    /// them are skipped), and a hit replaces the best so far only when it is
    /// strictly closer.
    pub fn raycast(&self, hits: &[Option<u32>]) -> (r: Option<(NodeId, u32)>)
        requires
            self.wf(),
            hits@.len() == self.slots().len(),
            acyclic_below(self.slots(), self.root_spec()),
        ensures
            r == pick_all(self.slots(), hits@, preorder(self.slots(), picking_keep(self.slots()), self.root_spec(), depth_bound(self.slots(), self.root_spec())), None),
            r matches Some((y, t)) ==> {
                &&& self.live(y)
                &&& self.node(y).active
                &&& self.node(y).bounds is Some
                &&& hits@[y.0 as int] == Some(t)
            },
            forall|p: Seq<NodeId>|
                #![trigger is_child_path(self.slots(), p)]
                is_child_path(self.slots(), p) && p[0] == self.root_spec()
                && (forall|j: int| 0 <= j < p.len() ==> self.live(#[trigger] p[j]) && self.node(p[j]).active)
                && self.node(p.last()).bounds is Some && hits@[p.last().0 as int] is Some
                ==> (r is Some && r.unwrap().1 <= hits@[p.last().0 as int].unwrap()),
    {
        let ghost s = self.slots();
        let ghost (set, rank) = choose|set: Set<NodeId>, rank: spec_fn(NodeId) -> nat| set.contains(self.root) && ranked_closed(s, set, rank);
        let mut closest: Option<(NodeId, u32)> = None;
        self.raycast_recursive(self.root, hits, &mut closest, Ghost(set), Ghost(rank), Ghost(rank(self.root) + 1));
        proof {
            lemma_picking_law(*self, hits@, closest);
        }
        closest
    }
}

} // verus!
