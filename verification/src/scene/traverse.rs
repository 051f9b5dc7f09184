//! Walks over the hierarchy: transform propagation, culling and ray picking.

use vstd::prelude::*;
use crate::math::{mat4_from_srt, mat4_mul, mat4_product, srt_matrix};
use super::{NodeId, NodeView, SceneGraph, refs_in_range};
use super::hierarchy::slot_live;
use super::forest::{parent_of, is_forest, lemma_forest_same_shape, lemma_forest_reach_parent, lemma_siblings_disjoint};
use super::reach::{acyclic_below, is_child_path, kids, lemma_reaches_self, lemma_reaches_child, ranked_closed, reaches};

verus! {

/// Whether `a` and `b` have the same live slots with the same children.
pub open spec fn same_links(a: Seq<Option<NodeView>>, b: Seq<Option<NodeView>>) -> bool {
    &&& a.len() == b.len()
    &&& forall|x: NodeId| slot_live(a, x) == slot_live(b, x)
    &&& forall|x: NodeId| #[trigger] kids(a, x) == kids(b, x)
}

/// Slot sequences with the same links have the same child paths.
pub proof fn lemma_same_links_reaches(a: Seq<Option<NodeView>>, b: Seq<Option<NodeView>>, from: NodeId, to: NodeId)
    requires
        same_links(a, b),
    ensures
        reaches(a, from, to) == reaches(b, from, to),
{
    if reaches(a, from, to) {
        let p = choose|p: Seq<NodeId>| #[trigger] is_child_path(a, p) && p[0] == from && p.last() == to;
        assert forall|j: int| 0 <= j < p.len() - 1 implies kids(b, #[trigger] p[j]).contains(p[j + 1]) by {
            assert(kids(a, p[j]) == kids(b, p[j]));
        }
        assert(is_child_path(b, p));
    }
    if reaches(b, from, to) {
        let p = choose|p: Seq<NodeId>| #[trigger] is_child_path(b, p) && p[0] == from && p.last() == to;
        assert forall|j: int| 0 <= j < p.len() - 1 implies kids(a, #[trigger] p[j]).contains(p[j + 1]) by {
            assert(kids(a, p[j]) == kids(b, p[j]));
        }
        assert(is_child_path(a, p));
    }
}

/// A node reaches `x` iff `x` is the node itself or is reached from one of its
/// children.
pub proof fn lemma_reaches_split(s: Seq<Option<NodeView>>, id: NodeId, x: NodeId)
    ensures
        reaches(s, id, x) == (x == id || exists|k: int| 0 <= k < kids(s, id).len() && reaches(s, #[trigger] kids(s, id)[k], x)),
{
    if reaches(s, id, x) && x != id {
        let p = choose|p: Seq<NodeId>| #[trigger] is_child_path(s, p) && p[0] == id && p.last() == x;
        assert(p.len() >= 2);
        assert(kids(s, p[0]).contains(p[1]));
        let k = choose|k: int| 0 <= k < kids(s, id).len() && kids(s, id)[k] == p[1];
        let q = p.subrange(1, p.len() as int);
        assert forall|j: int| 0 <= j < q.len() - 1 implies kids(s, #[trigger] q[j]).contains(q[j + 1]) by {
            assert(q[j] == p[j + 1] && q[j + 1] == p[j + 2]);
        }
        assert(is_child_path(s, q) && q[0] == kids(s, id)[k] && q.last() == x);
    }
    if x == id {
        lemma_reaches_self(s, id);
    }
    if exists|k: int| 0 <= k < kids(s, id).len() && reaches(s, #[trigger] kids(s, id)[k], x) {
        let k = choose|k: int| 0 <= k < kids(s, id).len() && reaches(s, #[trigger] kids(s, id)[k], x);
        let c = kids(s, id)[k];
        let p = choose|p: Seq<NodeId>| #[trigger] is_child_path(s, p) && p[0] == c && p.last() == x;
        let q = seq![id] + p;
        assert forall|j: int| 0 <= j < q.len() - 1 implies kids(s, #[trigger] q[j]).contains(q[j + 1]) by {
            if j == 0 {
                assert(q[1] == c);
                assert(kids(s, id)[k] == c);
            } else {
                assert(q[j] == p[j - 1] && q[j + 1] == p[j]);
            }
        }
        assert(is_child_path(s, q) && q[0] == id && q.last() == x);
    }
}

/// How a transform update leaves one slot: the same node apart from its world
/// transform and its dirty flag, which is cleared when `reached`; a node not
/// reached keeps its world transform.
pub open spec fn updated_slot(before: Option<NodeView>, after: Option<NodeView>, reached: bool) -> bool {
    match before {
        None => after is None,
        Some(b) => after matches Some(a) && a == (NodeView {
            world: a.world,
            transform_dirty: if reached { false } else { b.transform_dirty },
            ..b
        }) && (!reached ==> a.world == b.world),
    }
}

/// A node's local matrix: its transform's scale, rotation and translation.
pub open spec fn local_matrix(n: NodeView) -> glam::Mat4 {
    srt_matrix(n.transform.scale, n.transform.rotation, n.transform.position)
}

/// Whether the node in slot `x` is live, has a live parent, and holds as its
/// world transform its parent's world transform times its local matrix.
pub open spec fn propagated(s: Seq<Option<NodeView>>, x: NodeId) -> bool {
    &&& slot_live(s, x)
    &&& s[x.0 as int].unwrap().parent is Some
    &&& slot_live(s, s[x.0 as int].unwrap().parent.unwrap())
    &&& s[x.0 as int].unwrap().world == mat4_product(
        s[s[x.0 as int].unwrap().parent.unwrap().0 as int].unwrap().world,
        local_matrix(s[x.0 as int].unwrap()),
    )
}

/// Whether one of the first `k` of `cs` reaches `x`.
pub open spec fn below_first(s: Seq<Option<NodeView>>, cs: Seq<NodeId>, k: int, x: NodeId) -> bool {
    exists|m: int| 0 <= m < k && reaches(s, #[trigger] cs[m], x)
}

/// Along child links inside a ranked closed set the rank never grows.
pub proof fn lemma_reach_rank(s: Seq<Option<NodeView>>, set: Set<NodeId>, rank: spec_fn(NodeId) -> nat, a: NodeId, b: NodeId)
    requires
        ranked_closed(s, set, rank),
        set.contains(a),
        reaches(s, a, b),
    ensures
        set.contains(b),
        rank(b) <= rank(a),
        b != a ==> rank(b) < rank(a),
{
    let p = choose|p: Seq<NodeId>| #[trigger] is_child_path(s, p) && p[0] == a && p.last() == b;
    lemma_path_rank(s, set, rank, p, p.len() - 1);
}

proof fn lemma_path_rank(s: Seq<Option<NodeView>>, set: Set<NodeId>, rank: spec_fn(NodeId) -> nat, p: Seq<NodeId>, j: int)
    requires
        ranked_closed(s, set, rank),
        is_child_path(s, p),
        set.contains(p[0]),
        0 <= j < p.len(),
    ensures
        set.contains(p[j]),
        rank(p[j]) <= rank(p[0]),
        j > 0 ==> rank(p[j]) < rank(p[0]),
    decreases j,
{
    if j > 0 {
        lemma_path_rank(s, set, rank, p, j - 1);
        assert(kids(s, p[j - 1]).contains(p[j]));
        let k = choose|k: int| 0 <= k < kids(s, p[j - 1]).len() && #[trigger] kids(s, p[j - 1])[k] == p[j];
    }
}

/// Closure and ranks depend only on the links.
pub proof fn lemma_same_links_ranked(a: Seq<Option<NodeView>>, b: Seq<Option<NodeView>>, set: Set<NodeId>, rank: spec_fn(NodeId) -> nat)
    requires
        same_links(a, b),
        ranked_closed(a, set, rank),
    ensures
        ranked_closed(b, set, rank),
{
    assert forall|x: NodeId, k: int| set.contains(x) && 0 <= k < kids(b, x).len() implies {
        &&& set.contains(#[trigger] kids(b, x)[k])
        &&& rank(kids(b, x)[k]) < rank(x)
    } by {
        assert(kids(a, x) == kids(b, x));
        assert(set.contains(kids(a, x)[k]));
    }
}

/// Two updates in a row compose into one.
pub proof fn lemma_updated_compose(a: Option<NodeView>, b: Option<NodeView>, c: Option<NodeView>, r1: bool, r2: bool)
    requires
        updated_slot(a, b, r1),
        updated_slot(b, c, r2),
    ensures
        updated_slot(a, c, r1 || r2),
{
}

/// Whether every node live in `a` keeps its parent and transform in `b`.
pub open spec fn kept_shape(a: Seq<Option<NodeView>>, b: Seq<Option<NodeView>>) -> bool {
    forall|x: NodeId| slot_live(a, x) ==> #[trigger] parent_of(b, x) == parent_of(a, x)
        && b[x.0 as int].unwrap().transform == a[x.0 as int].unwrap().transform
}

/// A graph with the links, parents and transforms of a forest is a forest.
proof fn lemma_kept_forest(a: Seq<Option<NodeView>>, b: Seq<Option<NodeView>>)
    requires
        is_forest(a),
        same_links(b, a),
        kept_shape(a, b),
    ensures
        is_forest(b),
{
    assert forall|x: NodeId| #[trigger] slot_live(a, x) == slot_live(b, x) by {}
    assert forall|x: NodeId| slot_live(a, x) implies #[trigger] parent_of(a, x) == parent_of(b, x) by {}
    lemma_forest_same_shape(a, b);
}

/// A node below an earlier sibling of `c` keeps what it had when the walk
/// below `c` runs: the walk reaches neither it nor its parent.
proof fn lemma_sibling_untouched(
    s: Seq<Option<NodeView>>,
    cur: Seq<Option<NodeView>>,
    nw: Seq<Option<NodeView>>,
    rank: spec_fn(NodeId) -> nat,
    id: NodeId,
    a: NodeId,
    c: NodeId,
    x: NodeId,
    world: glam::Mat4,
)
    requires
        is_forest(s),
        ranked_closed(s, Set::full(), rank),
        kids(s, id).contains(a),
        kids(s, id).contains(c),
        a != c,
        reaches(s, a, x),
        same_links(cur, s),
        same_links(nw, s),
        kept_shape(s, cur),
        kept_shape(s, nw),
        forall|y: int| 0 <= y < s.len() ==> updated_slot(cur[y], #[trigger] nw[y], reaches(cur, c, NodeId(y as u32))),
        cur[id.0 as int].unwrap().world == world,
        nw[id.0 as int].unwrap().world == world,
        parent_of(s, a) == Some(id),
        propagated(cur, x),
    ensures
        propagated(nw, x),
{
    lemma_siblings_disjoint(s, rank, id, a, c, x);
    lemma_same_links_reaches(cur, s, c, x);
    let ka = choose|k: int| 0 <= k < kids(s, id).len() && kids(s, id)[k] == a;
    assert(slot_live(s, kids(s, id)[ka]));
    if x != a {
        lemma_forest_reach_parent(s, a, x);
    }
    assert(slot_live(s, x));
    let xi = x.0 as int;
    assert(NodeId(xi as u32) == x);
    assert(updated_slot(cur[xi], nw[xi], reaches(cur, c, NodeId(xi as u32))));
    assert(nw[xi] == cur[xi]);
    let q = cur[xi].unwrap().parent.unwrap();
    if q != id {
        assert(parent_of(cur, x) == parent_of(s, x));
        assert(x != a);
        lemma_sibling_parent_untouched(s, cur, nw, rank, id, a, c, q);
    }
}

/// The parent `q` of a node below an earlier sibling of `c`, when it is not
/// `id`, keeps its world transform while the walk below `c` runs.
proof fn lemma_sibling_parent_untouched(
    s: Seq<Option<NodeView>>,
    cur: Seq<Option<NodeView>>,
    nw: Seq<Option<NodeView>>,
    rank: spec_fn(NodeId) -> nat,
    id: NodeId,
    a: NodeId,
    c: NodeId,
    q: NodeId,
)
    requires
        is_forest(s),
        ranked_closed(s, Set::full(), rank),
        kids(s, id).contains(a),
        kids(s, id).contains(c),
        a != c,
        reaches(s, a, q),
        slot_live(s, q),
        same_links(cur, s),
        forall|y: int| 0 <= y < s.len() ==> updated_slot(cur[y], #[trigger] nw[y], reaches(cur, c, NodeId(y as u32))),
    ensures
        nw[q.0 as int] == cur[q.0 as int],
{
    lemma_siblings_disjoint(s, rank, id, a, c, q);
    lemma_same_links_reaches(cur, s, c, q);
    let qi = q.0 as int;
    assert(NodeId(qi as u32) == q);
    assert(updated_slot(cur[qi], nw[qi], reaches(cur, c, NodeId(qi as u32))));
}

/// One step of transform propagation over a forest: once the walk below the
/// `k`-th child `c` of `id` has run, every node below the first `k + 1`
/// children holds its parent's world transform times its local matrix.
proof fn lemma_keeps_forest_step(
    s: Seq<Option<NodeView>>,
    cur: Seq<Option<NodeView>>,
    nw: Seq<Option<NodeView>>,
    id: NodeId,
    c: NodeId,
    k: int,
    children: Seq<NodeId>,
    world: glam::Mat4,
)
    requires
        is_forest(s),
        slot_live(s, id),
        children == kids(s, id),
        0 <= k < children.len(),
        c == children[k],
        same_links(cur, s),
        same_links(nw, s),
        kept_shape(s, cur),
        kept_shape(s, nw),
        forall|x: int| 0 <= x < s.len() ==> updated_slot(cur[x], #[trigger] nw[x], reaches(cur, c, NodeId(x as u32))),
        nw[c.0 as int].unwrap().world == mat4_product(world, local_matrix(cur[c.0 as int].unwrap())),
        forall|y: NodeId| y != c && #[trigger] reaches(cur, c, y) ==> propagated(nw, y),
        cur[id.0 as int].unwrap().world == world,
        nw[id.0 as int].unwrap().world == world,
        forall|x: NodeId| #[trigger] below_first(s, children, k, x) ==> propagated(cur, x),
    ensures
        forall|x: NodeId| #[trigger] below_first(s, children, k + 1, x) ==> propagated(nw, x),
{
    let rank = choose|rank: spec_fn(NodeId) -> nat| ranked_closed(s, Set::full(), rank);
    assert(slot_live(s, kids(s, id)[k]) && parent_of(s, kids(s, id)[k]) == Some(id));
    assert forall|x: NodeId| #[trigger] below_first(s, children, k + 1, x) implies propagated(nw, x) by {
        let m = choose|m: int| 0 <= m < k + 1 && reaches(s, #[trigger] children[m], x);
        if m == k {
            if x != c {
                lemma_same_links_reaches(cur, s, c, x);
            } else {
                assert(slot_live(s, c));
                assert(parent_of(nw, c) == parent_of(s, c));
                assert(parent_of(cur, c) == parent_of(s, c));
                assert(nw[c.0 as int].unwrap().transform == cur[c.0 as int].unwrap().transform);
                assert(local_matrix(nw[c.0 as int].unwrap()) == local_matrix(cur[c.0 as int].unwrap()));
                assert(slot_live(nw, id));
            }
        } else {
            assert(below_first(s, children, k, x));
            let a = children[m];
            assert(a != c) by {
                assert(kids(s, id).no_duplicates());
            }
            assert(kids(s, id).contains(a));
            assert(kids(s, id).contains(c));
            assert(slot_live(s, kids(s, id)[m]) && parent_of(s, kids(s, id)[m]) == Some(id));
            lemma_sibling_untouched(s, cur, nw, rank, id, a, c, x, world);
        }
    }
}

impl SceneGraph {
    /// Recomputes world transforms below `id`: the node's world transform
    /// becomes `parent_world * local` (or `local` alone at the top), and its
    /// children are then updated with it as their parent's.
    fn update_node_transforms(
        &mut self,
        id: NodeId,
        parent_world: Option<glam::Mat4>,
        Ghost(set): Ghost<Set<NodeId>>,
        Ghost(rank): Ghost<spec_fn(NodeId) -> nat>,
    )
        requires
            old(self).wf(),
            set.contains(id),
            ranked_closed(old(self).slots(), set, rank),
        ensures
            final(self).wf(),
            final(self).same_index(*old(self)),
            same_links(final(self).slots(), old(self).slots()),
            forall|x: int| 0 <= x < old(self).slots().len() ==> updated_slot(
                old(self).slots()[x],
                #[trigger] final(self).slots()[x],
                reaches(old(self).slots(), id, NodeId(x as u32)),
            ),
            slot_live(old(self).slots(), id)
                ==> final(self).slots()[id.0 as int].unwrap().world == (match parent_world {
                    Some(p) => mat4_product(p, local_matrix(old(self).slots()[id.0 as int].unwrap())),
                    None => local_matrix(old(self).slots()[id.0 as int].unwrap()),
                }),
            is_forest(old(self).slots()) ==> forall|x: NodeId| x != id && #[trigger] reaches(old(self).slots(), id, x)
                ==> propagated(final(self).slots(), x),
            kept_shape(old(self).slots(), final(self).slots()),
        decreases rank(id),
    {
        let ghost s = self.slots();
        if (id.0 as usize) >= self.nodes.len() || self.nodes[id.0 as usize].is_none() {
            proof {
                assert forall|x: int| 0 <= x < s.len() implies updated_slot(s[x], #[trigger] s[x], reaches(s, id, NodeId(x as u32))) by {
                    if s[x] is Some {
                        if reaches(s, id, NodeId(x as u32)) {
                            lemma_reaches_split(s, id, NodeId(x as u32));
                            assert(kids(s, id).len() == 0);
                            assert(NodeId(x as u32) == id);
                        }
                        assert(s[x].unwrap() == NodeView { world: s[x].unwrap().world, transform_dirty: s[x].unwrap().transform_dirty, ..s[x].unwrap() });
                    }
                }
                assert forall|x: NodeId| x != id && #[trigger] reaches(s, id, x) implies propagated(s, x) by {
                    lemma_reaches_split(s, id, x);
                    assert(kids(s, id).len() == 0);
                }
            }
            return;
        }
        let world: glam::Mat4;
        let children: Vec<NodeId>;
        match self.nodes[id.0 as usize].as_mut() {
            Some(node) => {
                let local = mat4_from_srt(node.transform.scale, node.transform.rotation, node.transform.position);
                node.world_transform = match parent_world {
                    Some(p) => mat4_mul(&p, &local),
                    None => local,
                };
                node.transform_dirty = false;
                children = node.children.clone();
                world = node.world_transform;
            },
            None => {
                return;
            },
        }
        let ghost s1 = self.slots();
        proof {
            assert(children@ =~= s[id.0 as int].unwrap().children);
            assert(s1 =~= s.update(id.0 as int, Some(NodeView {
                world: s1[id.0 as int].unwrap().world,
                transform_dirty: false,
                ..s[id.0 as int].unwrap()
            })));
            assert forall|i: int| 0 <= i < s1.len() && (#[trigger] s1[i]) is Some implies refs_in_range(s1[i].unwrap(), s1.len() as int) by {
                assert(s[i] is Some);
                assert(refs_in_range(s[i].unwrap(), s.len() as int));
            }
            SceneGraph::lemma_wf_same_shape(*old(self), *self);
            assert forall|x: NodeId| #[trigger] kids(s1, x) == kids(s, x) by {}
            assert forall|x: int| 0 <= x < s.len() implies updated_slot(s[x], #[trigger] s1[x], x == id.0 || exists|m: int| 0 <= m < 0 && reaches(s, #[trigger] children@[m], NodeId(x as u32))) by {
                if x != id.0 && s[x] is Some {
                    assert(s[x].unwrap() == NodeView { world: s[x].unwrap().world, transform_dirty: s[x].unwrap().transform_dirty, ..s[x].unwrap() });
                }
            }
        }
        let mut k: usize = 0;
        while k < children.len()
            invariant
                self.wf(),
                self.same_index(*old(self)),
                same_links(self.slots(), s),
                children@ == kids(s, id),
                slot_live(s, id),
                set.contains(id),
                ranked_closed(s, set, rank),
                k <= children@.len(),
                forall|x: int| 0 <= x < s.len() ==> updated_slot(s[x], #[trigger] self.slots()[x],
                    x == id.0 || exists|m: int| 0 <= m < k && reaches(s, #[trigger] children@[m], NodeId(x as u32))),
                self.slots()[id.0 as int].unwrap().world == world,
                world == (match parent_world {
                    Some(p) => mat4_product(p, local_matrix(s[id.0 as int].unwrap())),
                    None => local_matrix(s[id.0 as int].unwrap()),
                }),
                kept_shape(s, self.slots()),
                is_forest(s) ==> forall|x: NodeId| #[trigger] below_first(s, children@, k as int, x) ==> propagated(self.slots(), x),
            decreases children@.len() - k,
        {
            let c = children[k];
            let ghost cur = self.slots();
            proof {
                assert(kids(s, id)[k as int] == c);
                assert(set.contains(c) && rank(c) < rank(id));
                lemma_same_links_ranked(s, cur, set, rank);
                if is_forest(s) {
                    lemma_kept_forest(s, cur);
                    assert(slot_live(s, kids(s, id)[k as int]));
                }
            }
            self.update_node_transforms(c, Some(world), Ghost(set), Ghost(rank));
            proof {
                let nw = self.slots();
                assert forall|x: NodeId| #[trigger] kids(nw, x) == kids(s, x) by {
                    assert(kids(nw, x) == kids(cur, x));
                    assert(kids(cur, x) == kids(s, x));
                }
                assert forall|x: int| 0 <= x < s.len() implies updated_slot(s[x], #[trigger] nw[x],
                    x == id.0 || exists|m: int| 0 <= m < k + 1 && reaches(s, #[trigger] children@[m], NodeId(x as u32))) by {
                    lemma_same_links_reaches(cur, s, c, NodeId(x as u32));
                    assert(updated_slot(cur[x], nw[x], reaches(cur, c, NodeId(x as u32))));
                    lemma_updated_compose(s[x], cur[x], nw[x],
                        x == id.0 || exists|m: int| 0 <= m < k && reaches(s, #[trigger] children@[m], NodeId(x as u32)),
                        reaches(s, c, NodeId(x as u32)));
                    if reaches(s, c, NodeId(x as u32)) {
                        assert(children@[k as int] == c);
                    }
                    if exists|m: int| 0 <= m < k + 1 && reaches(s, #[trigger] children@[m], NodeId(x as u32)) {
                        let m = choose|m: int| 0 <= m < k + 1 && reaches(s, #[trigger] children@[m], NodeId(x as u32));
                        if m < k {
                            assert(exists|m: int| 0 <= m < k && reaches(s, #[trigger] children@[m], NodeId(x as u32)));
                        }
                    }
                }
                if reaches(s, c, id) {
                    lemma_reach_rank(s, set, rank, c, id);
                }
                lemma_same_links_reaches(cur, s, c, id);
                assert(updated_slot(cur[id.0 as int], nw[id.0 as int], reaches(cur, c, NodeId(id.0 as u32))));
                if is_forest(s) {
                    lemma_keeps_forest_step(s, cur, nw, id, c, k as int, children@, world);
                }
            }
            k = k + 1;
        }
        proof {
            let fin = self.slots();
            if is_forest(s) {
                assert forall|x: NodeId| x != id && #[trigger] reaches(s, id, x) implies propagated(fin, x) by {
                    lemma_reaches_split(s, id, x);
                    let m = choose|m: int| 0 <= m < kids(s, id).len() && reaches(s, #[trigger] kids(s, id)[m], x);
                    assert(children@[m] == kids(s, id)[m]);
                    assert(below_first(s, children@, children@.len() as int, x));
                }
            }
            assert forall|x: int| 0 <= x < s.len() implies updated_slot(s[x], #[trigger] fin[x], reaches(s, id, NodeId(x as u32))) by {
                lemma_reaches_split(s, id, NodeId(x as u32));
                if exists|m: int| 0 <= m < kids(s, id).len() && reaches(s, #[trigger] kids(s, id)[m], NodeId(x as u32)) {
                    let m = choose|m: int| 0 <= m < kids(s, id).len() && reaches(s, #[trigger] kids(s, id)[m], NodeId(x as u32));
                    assert(children@[m] == kids(s, id)[m]);
                }
                if exists|m: int| 0 <= m < children@.len() && reaches(s, #[trigger] children@[m], NodeId(x as u32)) {
                    let m = choose|m: int| 0 <= m < children@.len() && reaches(s, #[trigger] children@[m], NodeId(x as u32));
                    assert(kids(s, id)[m] == children@[m]);
                }
            }
        }
    }

    /// Recomputes every world transform in the graph: each node without a
    /// parent, in slot order, gets its local matrix, and every node below it
    /// its parent's world transform times its local matrix (see
    /// `updated_slot`). Nodes that no parentless node reaches (only possible
    /// off a forest) are left as they are.
    pub fn update_transforms(&mut self)
        requires
            old(self).wf(),
            forall|x: NodeId| #[trigger] is_top(old(self).slots(), x) ==> acyclic_below(old(self).slots(), x),
        ensures
            final(self).wf(),
            final(self).same_index(*old(self)),
            transforms_updated(old(self).slots(), final(self).slots()),
            old(self).forest() ==> final(self).forest(),
    {
        let ghost s = self.slots();
        let n = self.nodes.len();
        let mut i: usize = 0;
        proof {
            assert forall|x: int| 0 <= x < s.len() implies updated_slot(s[x], #[trigger] s[x], under_top_below(s, 0, NodeId(x as u32))) by {
                if s[x] is Some {
                    assert(s[x].unwrap() == NodeView { world: s[x].unwrap().world, transform_dirty: s[x].unwrap().transform_dirty, ..s[x].unwrap() });
                }
            }
            assert forall|x: NodeId| slot_live(s, x) implies #[trigger] parent_of(s, x) == parent_of(s, x)
                && s[x.0 as int].unwrap().transform == s[x.0 as int].unwrap().transform by {}
        }
        while i < n
            invariant
                n == s.len(),
                i <= n,
                forall|x: NodeId| #[trigger] is_top(s, x) ==> acyclic_below(s, x),
                self.wf(),
                self.same_index(*old(self)),
                s == old(self).slots(),
                same_links(self.slots(), s),
                kept_shape(s, self.slots()),
                forall|x: int| 0 <= x < s.len() ==> updated_slot(s[x], #[trigger] self.slots()[x], under_top_below(s, i as int, NodeId(x as u32))),
                is_forest(s) ==> forall|x: NodeId| #[trigger] under_top_below(s, i as int, x) ==> world_consistent(self.slots(), x),
            decreases n - i,
        {
            let top = match &self.nodes[i] {
                Some(node) => node.parent.is_none(),
                None => false,
            };
            let t = NodeId(i as u32);
            let ghost cur = self.slots();
            proof {
                assert(t.0 as int == i);
                assert(slot_live(cur, t) == slot_live(s, t));
                if slot_live(s, t) {
                    assert(parent_of(cur, t) == parent_of(s, t));
                    assert(cur[i as int] == Some(self.nodes@[i as int].unwrap()@));
                }
                assert(top == is_top(s, t));
            }
            if top {
                let ghost (set, rank) = choose|set: Set<NodeId>, rank: spec_fn(NodeId) -> nat| set.contains(t) && ranked_closed(s, set, rank);
                proof {
                    assert(acyclic_below(s, t));
                    lemma_same_links_ranked(s, cur, set, rank);
                    if is_forest(s) {
                        lemma_kept_forest(s, cur);
                    }
                }
                self.update_node_transforms(t, None, Ghost(set), Ghost(rank));
                proof {
                    let nw = self.slots();
                    lemma_top_step(s, cur, nw, t, i as int);
                    if is_forest(s) {
                        lemma_top_step_consistent(s, cur, nw, t, i as int);
                    }
                }
            } else {
                proof {
                    assert forall|x: NodeId| #[trigger] under_top_below(s, i as int + 1, x) == under_top_below(s, i as int, x) by {
                        if under_top_below(s, i as int + 1, x) {
                            let u = choose|u: NodeId| (u.0 as int) < i + 1 && is_top(s, u) && #[trigger] reaches(s, u, x);
                            if u.0 as int == i {
                                assert(u == t);
                            }
                        }
                    }
                }
            }
            i = i + 1;
        }
        proof {
            let fin = self.slots();
            assert forall|x: NodeId| #[trigger] under_top(s, x) == under_top_below(s, n as int, x) by {
                if under_top(s, x) {
                    let u = choose|u: NodeId| is_top(s, u) && #[trigger] reaches(s, u, x);
                }
            }
            if old(self).forest() {
                assert forall|x: NodeId| slot_live(s, x) implies #[trigger] parent_of(s, x) == parent_of(fin, x) by {}
                assert forall|x: NodeId| #[trigger] slot_live(s, x) == slot_live(fin, x) by {}
                lemma_forest_same_shape(s, fin);
                assert forall|x: NodeId| #[trigger] slot_live(s, x) implies world_consistent(fin, x) by {
                    lemma_forest_under_top(s, x);
                    assert(under_top_below(s, n as int, x));
                }
            }
        }
    }
}

/// What a transform update does to the slots: the links stay; every node
/// that a node without a parent reaches gets a new world transform and a
/// cleared dirty flag, and keeps everything else; on a forest every live node
/// then holds its local matrix, or its parent's world transform times it.
pub open spec fn transforms_updated(before: Seq<Option<NodeView>>, after: Seq<Option<NodeView>>) -> bool {
    &&& same_links(after, before)
    &&& forall|x: int| 0 <= x < before.len() ==> updated_slot(before[x], #[trigger] after[x], under_top(before, NodeId(x as u32)))
    &&& is_forest(before) ==> forall|x: NodeId| #[trigger] slot_live(before, x) ==> world_consistent(after, x)
}

/// Whether slot `x` of `s` holds a node without a parent.
pub open spec fn is_top(s: Seq<Option<NodeView>>, x: NodeId) -> bool {
    slot_live(s, x) && parent_of(s, x) is None
}

/// Whether some node without a parent reaches `x`.
pub open spec fn under_top(s: Seq<Option<NodeView>>, x: NodeId) -> bool {
    exists|t: NodeId| is_top(s, t) && #[trigger] reaches(s, t, x)
}

/// Whether some node without a parent in one of the first `i` slots reaches
/// `x`.
pub open spec fn under_top_below(s: Seq<Option<NodeView>>, i: int, x: NodeId) -> bool {
    exists|t: NodeId| (t.0 as int) < i && is_top(s, t) && #[trigger] reaches(s, t, x)
}

/// Whether the node in slot `x` is live and holds as its world transform its
/// local matrix when it has no parent, and otherwise its live parent's world
/// transform times its local matrix.
pub open spec fn world_consistent(s: Seq<Option<NodeView>>, x: NodeId) -> bool {
    &&& slot_live(s, x)
    &&& match s[x.0 as int].unwrap().parent {
        None => s[x.0 as int].unwrap().world == local_matrix(s[x.0 as int].unwrap()),
        Some(p) => propagated(s, x),
    }
}

/// In a forest two different nodes without a parent reach no node in common.
pub proof fn lemma_tops_disjoint(s: Seq<Option<NodeView>>, rank: spec_fn(NodeId) -> nat, t1: NodeId, t2: NodeId, y: NodeId)
    requires
        is_forest(s),
        ranked_closed(s, Set::full(), rank),
        is_top(s, t1),
        is_top(s, t2),
        reaches(s, t1, y),
        reaches(s, t2, y),
    ensures
        t1 == t2,
    decreases rank(t1) - rank(y),
{
    lemma_reach_rank(s, Set::full(), rank, t1, y);
    if y == t1 {
        if y != t2 {
            lemma_forest_reach_parent(s, t2, y);
        }
    } else {
        lemma_forest_reach_parent(s, t1, y);
        if y == t2 {
        } else {
            lemma_forest_reach_parent(s, t2, y);
            let p = parent_of(s, y).unwrap();
            let k = choose|k: int| 0 <= k < kids(s, p).len() && kids(s, p)[k] == y;
            assert(Set::<NodeId>::full().contains(p));
            assert(rank(kids(s, p)[k]) < rank(p));
            lemma_reach_rank(s, Set::full(), rank, t1, p);
            lemma_tops_disjoint(s, rank, t1, t2, p);
        }
    }
}

/// A bound on the ranks of the first `n` slots.
pub open spec fn rank_bound(rank: spec_fn(NodeId) -> nat, n: nat) -> nat
    decreases n,
{
    if n == 0 {
        0
    } else {
        let before = rank_bound(rank, (n - 1) as nat);
        let r = rank(NodeId((n - 1) as u32));
        if r > before {
            r
        } else {
            before
        }
    }
}

proof fn lemma_rank_bound(rank: spec_fn(NodeId) -> nat, n: nat, i: int)
    requires
        0 <= i < n,
        n <= u32::MAX + 1,
    ensures
        rank(NodeId(i as u32)) <= rank_bound(rank, n),
    decreases n,
{
    if i < n - 1 {
        lemma_rank_bound(rank, (n - 1) as nat, i);
    }
}

proof fn lemma_under_top_bounded(s: Seq<Option<NodeView>>, rank: spec_fn(NodeId) -> nat, x: NodeId)
    requires
        is_forest(s),
        ranked_closed(s, Set::full(), rank),
        s.len() <= u32::MAX + 1,
        slot_live(s, x),
    ensures
        under_top(s, x),
    decreases rank_bound(rank, s.len()) - rank(x),
{
    assert(NodeId(x.0 as int as u32) == x);
    lemma_rank_bound(rank, s.len(), x.0 as int);
    match parent_of(s, x) {
        None => {
            lemma_reaches_self(s, x);
            assert(is_top(s, x));
        },
        Some(p) => {
            assert(slot_live(s, p) && kids(s, p).contains(x));
            let k = choose|k: int| 0 <= k < kids(s, p).len() && kids(s, p)[k] == x;
            assert(Set::<NodeId>::full().contains(p));
            assert(rank(kids(s, p)[k]) < rank(p));
            assert(NodeId(p.0 as int as u32) == p);
            lemma_rank_bound(rank, s.len(), p.0 as int);
            lemma_under_top_bounded(s, rank, p);
            let t = choose|t: NodeId| is_top(s, t) && #[trigger] reaches(s, t, p);
            lemma_reaches_child(s, t, p, k);
        },
    }
}

/// In a forest every live node hangs below a node without a parent.
pub proof fn lemma_forest_under_top(s: Seq<Option<NodeView>>, x: NodeId)
    requires
        is_forest(s),
        s.len() <= u32::MAX + 1,
        slot_live(s, x),
    ensures
        under_top(s, x),
{
    let rank = choose|rank: spec_fn(NodeId) -> nat| ranked_closed(s, Set::full(), rank);
    lemma_under_top_bounded(s, rank, x);
}

/// Whether `x` is reached from one of the first `i + 1` slots' top nodes
/// exactly when it is from one of the first `i`, or from the top node in slot
/// `i`.
proof fn lemma_under_top_next(s: Seq<Option<NodeView>>, t: NodeId, i: int)
    requires
        t.0 as int == i,
    ensures
        forall|x: NodeId| #[trigger] under_top_below(s, i + 1, x) == (under_top_below(s, i, x) || (is_top(s, t) && reaches(s, t, x))),
{
    assert forall|x: NodeId| #[trigger] under_top_below(s, i + 1, x) == (under_top_below(s, i, x) || (is_top(s, t) && reaches(s, t, x))) by {
        if under_top_below(s, i + 1, x) {
            let u = choose|u: NodeId| (u.0 as int) < i + 1 && is_top(s, u) && #[trigger] reaches(s, u, x);
            if u.0 as int == i {
                assert(u == t);
            }
        }
    }
}

/// One step of the update over all nodes without a parent: after the walk
/// from the top node `t` in slot `i`, the slots it reached are updated and the
/// others are as they were.
proof fn lemma_top_step(s: Seq<Option<NodeView>>, cur: Seq<Option<NodeView>>, nw: Seq<Option<NodeView>>, t: NodeId, i: int)
    requires
        t.0 as int == i,
        is_top(s, t),
        same_links(cur, s),
        kept_shape(s, cur),
        same_links(nw, cur),
        kept_shape(cur, nw),
        forall|x: int| 0 <= x < s.len() ==> updated_slot(s[x], #[trigger] cur[x], under_top_below(s, i, NodeId(x as u32))),
        forall|x: int| 0 <= x < s.len() ==> updated_slot(cur[x], #[trigger] nw[x], reaches(cur, t, NodeId(x as u32))),
    ensures
        same_links(nw, s),
        kept_shape(s, nw),
        forall|x: int| 0 <= x < s.len() ==> updated_slot(s[x], #[trigger] nw[x], under_top_below(s, i + 1, NodeId(x as u32))),
{
    assert forall|x: NodeId| #[trigger] kids(nw, x) == kids(s, x) by {
        assert(kids(nw, x) == kids(cur, x));
    }
    lemma_under_top_next(s, t, i);
    assert forall|x: int| 0 <= x < s.len() implies updated_slot(s[x], #[trigger] nw[x], under_top_below(s, i + 1, NodeId(x as u32))) by {
        lemma_same_links_reaches(cur, s, t, NodeId(x as u32));
        assert(updated_slot(cur[x], nw[x], reaches(cur, t, NodeId(x as u32))));
        lemma_updated_compose(s[x], cur[x], nw[x], under_top_below(s, i, NodeId(x as u32)), reaches(s, t, NodeId(x as u32)));
    }
    assert forall|x: NodeId| slot_live(s, x) implies #[trigger] parent_of(nw, x) == parent_of(s, x)
        && nw[x.0 as int].unwrap().transform == s[x.0 as int].unwrap().transform by {
        assert(slot_live(cur, x));
    }
}

/// A node below an earlier top node than `t` keeps what it had, and so does
/// its parent, while the walk from `t` runs.
proof fn lemma_top_step_untouched(
    s: Seq<Option<NodeView>>,
    cur: Seq<Option<NodeView>>,
    nw: Seq<Option<NodeView>>,
    rank: spec_fn(NodeId) -> nat,
    t: NodeId,
    u: NodeId,
    x: NodeId,
)
    requires
        is_forest(s),
        ranked_closed(s, Set::full(), rank),
        is_top(s, t),
        is_top(s, u),
        u != t,
        reaches(s, u, x),
        same_links(cur, s),
        kept_shape(s, cur),
        nw.len() == s.len(),
        forall|y: int| 0 <= y < s.len() ==> updated_slot(cur[y], #[trigger] nw[y], reaches(cur, t, NodeId(y as u32))),
        world_consistent(cur, x),
    ensures
        world_consistent(nw, x),
{
    if reaches(s, t, x) {
        lemma_tops_disjoint(s, rank, u, t, x);
    }
    lemma_same_links_reaches(cur, s, t, x);
    assert(NodeId(x.0 as int as u32) == x);
    assert(updated_slot(cur[x.0 as int], nw[x.0 as int], reaches(cur, t, x)));
    assert(nw[x.0 as int] == cur[x.0 as int]);
    if let Some(p) = parent_of(cur, x) {
        assert(slot_live(s, x));
        assert(parent_of(s, x) == Some(p));
        if x != u {
            lemma_forest_reach_parent(s, u, x);
        }
        if reaches(s, t, p) {
            lemma_tops_disjoint(s, rank, u, t, p);
        }
        lemma_same_links_reaches(cur, s, t, p);
        assert(NodeId(p.0 as int as u32) == p);
        assert(updated_slot(cur[p.0 as int], nw[p.0 as int], reaches(cur, t, p)));
        assert(nw[p.0 as int] == cur[p.0 as int]);
    }
}

/// After the walk from the top node `t` in slot `i`, every node below the top
/// nodes of the first `i + 1` slots is consistent.
proof fn lemma_top_step_consistent(s: Seq<Option<NodeView>>, cur: Seq<Option<NodeView>>, nw: Seq<Option<NodeView>>, t: NodeId, i: int)
    requires
        t.0 as int == i,
        is_top(s, t),
        is_forest(s),
        same_links(cur, s),
        kept_shape(s, cur),
        same_links(nw, cur),
        kept_shape(cur, nw),
        forall|x: int| 0 <= x < s.len() ==> updated_slot(cur[x], #[trigger] nw[x], reaches(cur, t, NodeId(x as u32))),
        nw[t.0 as int].unwrap().world == local_matrix(cur[t.0 as int].unwrap()),
        forall|x: NodeId| x != t && #[trigger] reaches(cur, t, x) ==> propagated(nw, x),
        forall|x: NodeId| #[trigger] under_top_below(s, i, x) ==> world_consistent(cur, x),
    ensures
        forall|x: NodeId| #[trigger] under_top_below(s, i + 1, x) ==> world_consistent(nw, x),
{
    let rank = choose|rank: spec_fn(NodeId) -> nat| ranked_closed(s, Set::full(), rank);
    lemma_under_top_next(s, t, i);
    assert forall|x: NodeId| #[trigger] under_top_below(s, i + 1, x) implies world_consistent(nw, x) by {
        if reaches(s, t, x) {
            lemma_same_links_reaches(cur, s, t, x);
            if x == t {
                assert(slot_live(s, t));
                assert(parent_of(nw, t) == parent_of(cur, t));
                assert(parent_of(cur, t) == parent_of(s, t));
                assert(nw[t.0 as int].unwrap().transform == cur[t.0 as int].unwrap().transform);
                assert(slot_live(nw, t));
            } else {
                assert(propagated(nw, x));
            }
        } else {
            assert(under_top_below(s, i, x));
            let u = choose|u: NodeId| (u.0 as int) < i && is_top(s, u) && #[trigger] reaches(s, u, x);
            lemma_top_step_untouched(s, cur, nw, rank, t, u, x);
        }
    }
}

/// Two forests with the same nodes, links and transforms, both with every
/// world transform consistent, hold the same world transforms.
proof fn lemma_consistent_worlds_agree(
    b: Seq<Option<NodeView>>,
    c: Seq<Option<NodeView>>,
    rank: spec_fn(NodeId) -> nat,
    x: NodeId,
)
    requires
        is_forest(b),
        ranked_closed(b, Set::full(), rank),
        b.len() <= u32::MAX + 1,
        c.len() == b.len(),
        kept_shape(b, c),
        forall|y: NodeId| #[trigger] slot_live(b, y) ==> slot_live(c, y) && world_consistent(b, y) && world_consistent(c, y),
        slot_live(b, x),
    ensures
        c[x.0 as int].unwrap().world == b[x.0 as int].unwrap().world,
    decreases rank_bound(rank, b.len()) - rank(x),
{
    assert(NodeId(x.0 as int as u32) == x);
    lemma_rank_bound(rank, b.len(), x.0 as int);
    assert(world_consistent(b, x) && world_consistent(c, x));
    assert(parent_of(c, x) == parent_of(b, x));
    assert(local_matrix(c[x.0 as int].unwrap()) == local_matrix(b[x.0 as int].unwrap()));
    if let Some(p) = parent_of(b, x) {
        assert(slot_live(b, p) && kids(b, p).contains(x));
        let k = choose|k: int| 0 <= k < kids(b, p).len() && kids(b, p)[k] == x;
        assert(Set::<NodeId>::full().contains(p));
        assert(rank(kids(b, p)[k]) < rank(p));
        assert(NodeId(p.0 as int as u32) == p);
        lemma_rank_bound(rank, b.len(), p.0 as int);
        lemma_consistent_worlds_agree(b, c, rank, p);
    }
}

/// Updating transforms twice is updating them once: on a forest, the second
/// update changes nothing.
pub proof fn lemma_update_transforms_idempotent(a: Seq<Option<NodeView>>, b: Seq<Option<NodeView>>, c: Seq<Option<NodeView>>)
    requires
        is_forest(a),
        a.len() <= u32::MAX + 1,
        transforms_updated(a, b),
        transforms_updated(b, c),
    ensures
        c == b,
{
    assert forall|x: NodeId| #[trigger] slot_live(a, x) == slot_live(b, x) by {}
    assert forall|x: NodeId| slot_live(a, x) implies #[trigger] parent_of(a, x) == parent_of(b, x) by {
        assert(NodeId(x.0 as int as u32) == x);
        assert(updated_slot(a[x.0 as int], b[x.0 as int], under_top(a, x)));
    }
    lemma_forest_same_shape(a, b);
    let rank = choose|rank: spec_fn(NodeId) -> nat| ranked_closed(b, Set::full(), rank);
    assert forall|y: NodeId| slot_live(b, y) implies #[trigger] parent_of(c, y) == parent_of(b, y)
        && c[y.0 as int].unwrap().transform == b[y.0 as int].unwrap().transform by {
        assert(NodeId(y.0 as int as u32) == y);
        assert(updated_slot(b[y.0 as int], c[y.0 as int], under_top(b, y)));
    }
    assert forall|y: NodeId| #[trigger] slot_live(b, y) implies slot_live(c, y) && world_consistent(b, y) && world_consistent(c, y) by {
        assert(slot_live(a, y));
        assert(NodeId(y.0 as int as u32) == y);
        assert(updated_slot(b[y.0 as int], c[y.0 as int], under_top(b, y)));
    }
    assert forall|i: int| 0 <= i < b.len() implies c[i] == b[i] by {
        let x = NodeId(i as u32);
        assert(x.0 as int == i);
        assert(updated_slot(a[i], b[i], under_top(a, x)));
        assert(updated_slot(b[i], c[i], under_top(b, x)));
        if b[i] is Some {
            lemma_forest_under_top(a, x);
            lemma_forest_under_top(b, x);
            lemma_consistent_worlds_agree(b, c, rank, x);
        }
    }
    assert(c =~= b);
}

} // verus!
