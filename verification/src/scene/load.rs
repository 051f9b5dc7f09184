//! Building a scene graph from a scene file.
//!
//! Loading runs in three passes. The first adds every node of the file, in
//! order, as a fresh detached node. The second walks the nodes in order and,
//! for each child name that names a node, makes that node a child of the node
//! that the parent's name refers to. The third makes every node that a name
//! refers to and that got no parent a child of the root, in file order.
//! Each move goes through `add_child`, so a request that would close a cycle
//! makes the whole load fail.

use vstd::prelude::*;
use crate::math::Transform;
use super::{NodeId, NodeView, SceneError, SceneGraph, SceneNode, unique_names, unique_tags};
use super::file::{NodeData, NodeDataView, SceneFile};
use super::hierarchy::{detached, slot_live, with_child, with_parent};
use super::reach::{acyclic_below, kids, reaches, lemma_reaches_self};
use super::traverse::{same_links, lemma_same_links_reaches, updated_slot, world_consistent, is_top, under_top, lemma_forest_under_top};
use super::forest::lemma_acyclic_below;

verus! {

/// The models of a file's nodes, in order.
pub open spec fn file_views(f: SceneFile) -> Seq<NodeDataView> {
    f.nodes@.map_values(|d: NodeData| d@)
}

/// The slot that the `k`-th node of a file is loaded into.
pub open spec fn slot_of(k: int) -> NodeId {
    NodeId((k + 1) as u32)
}

/// The position of the last node named `name`, if any.
pub open spec fn last_named(fs: Seq<NodeDataView>, name: Seq<char>) -> Option<int>
    decreases fs.len(),
{
    if fs.len() == 0 {
        None
    } else if fs.last().name == name {
        Some(fs.len() - 1)
    } else {
        last_named(fs.drop_last(), name)
    }
}

/// The parent-child requests made by the first `m` child names of node `i`:
/// the node that `i`'s name refers to, and the node each child name refers to.
pub open spec fn links_of(fs: Seq<NodeDataView>, i: int, m: nat) -> Seq<(NodeId, NodeId)>
    decreases m,
{
    if m == 0 {
        Seq::empty()
    } else {
        let before = links_of(fs, i, (m - 1) as nat);
        match last_named(fs, fs[i].children[m - 1]) {
            Some(j) => before.push((slot_of(last_named(fs, fs[i].name).unwrap()), slot_of(j))),
            None => before,
        }
    }
}

/// The parent-child requests of the first `n` nodes, in order.
pub open spec fn child_links(fs: Seq<NodeDataView>, n: nat) -> Seq<(NodeId, NodeId)>
    decreases n,
{
    if n == 0 {
        Seq::empty()
    } else {
        child_links(fs, (n - 1) as nat) + links_of(fs, n - 1, fs[n - 1].children.len())
    }
}

/// Whether some request of `links` names `x` as the child.
pub open spec fn is_linked(links: Seq<(NodeId, NodeId)>, x: NodeId) -> bool {
    exists|m: int| 0 <= m < links.len() && (#[trigger] links[m]).1 == x
}

/// The requests that attach to the root each of the first `n` nodes that its
/// name refers to and that `linked` gives no parent.
pub open spec fn top_links(fs: Seq<NodeDataView>, linked: Seq<(NodeId, NodeId)>, n: nat) -> Seq<(NodeId, NodeId)>
    decreases n,
{
    if n == 0 {
        Seq::empty()
    } else {
        let before = top_links(fs, linked, (n - 1) as nat);
        let k = n - 1;
        if last_named(fs, fs[k].name) == Some(k) && !is_linked(linked, slot_of(k)) {
            before.push((NodeId(0), slot_of(k)))
        } else {
            before
        }
    }
}

/// `add_child(p, c)` on a forest: refused when `p` is `c` or `c` reaches `p`;
/// otherwise `c` leaves its former parent and is appended to `p`'s children.
pub open spec fn attach(s: Seq<Option<NodeView>>, p: NodeId, c: NodeId) -> Option<Seq<Option<NodeView>>> {
    if p == c || reaches(s, c, p) {
        None
    } else {
        Some(with_parent(with_child(detached(s, c), p, c), c, Some(p)))
    }
}

/// The requests of `links` carried out in order; none if one is refused.
pub open spec fn attach_all(s: Seq<Option<NodeView>>, links: Seq<(NodeId, NodeId)>) -> Option<Seq<Option<NodeView>>>
    decreases links.len(),
{
    if links.len() == 0 {
        Some(s)
    } else {
        match attach_all(s, links.drop_last()) {
            Some(t) => attach(t, links.last().0, links.last().1),
            None => None,
        }
    }
}

/// Some matrix: a world transform that nothing depends on.
pub open spec fn any_matrix() -> glam::Mat4 {
    vstd::pervasive::arbitrary()
}

/// Some transform: a root transform that nothing depends on.
pub open spec fn any_transform() -> Transform {
    vstd::pervasive::arbitrary()
}

/// The node that a file node is loaded as (its world transform aside).
pub open spec fn file_node(d: NodeDataView) -> NodeView {
    NodeView {
        transform: d.transform,
        world: any_matrix(),
        bounds: None,
        parent: None,
        children: Seq::empty(),
        entity_id: None,
        name: d.name,
        tags: unique_names(d.tags),
        active: d.active,
        transform_dirty: true,
        bounds_dirty: true,
    }
}

/// The root of a new graph (its transforms aside).
pub open spec fn plain_root() -> NodeView {
    NodeView {
        transform: any_transform(),
        world: any_matrix(),
        bounds: None,
        parent: None,
        children: Seq::empty(),
        entity_id: None,
        name: "Root"@,
        tags: Seq::empty(),
        active: true,
        transform_dirty: true,
        bounds_dirty: true,
    }
}

/// The slots after the first pass: the root, then each file node in order.
pub open spec fn first_pass(fs: Seq<NodeDataView>) -> Seq<Option<NodeView>> {
    seq![Some(plain_root())] + fs.map_values(|d: NodeDataView| Some(file_node(d)))
}

/// The slots after the second and third passes, or none if a request is
/// refused.
pub open spec fn load_plan(fs: Seq<NodeDataView>) -> Option<Seq<Option<NodeView>>> {
    let links = child_links(fs, fs.len());
    attach_all(first_pass(fs), links + top_links(fs, links, fs.len()))
}

/// The name index after the first `n` nodes are added.
pub open spec fn file_names(fs: Seq<NodeDataView>, n: nat) -> Map<Seq<char>, u32>
    decreases n,
{
    if n == 0 {
        map!["Root"@ => 0u32]
    } else {
        let before = file_names(fs, (n - 1) as nat);
        if fs[n - 1].name.len() > 0 {
            before.insert(fs[n - 1].name, n as u32)
        } else {
            before
        }
    }
}

/// Whether `a` is `b` up to the world transform.
pub open spec fn same_but_world(a: Option<NodeView>, b: Option<NodeView>) -> bool {
    match b {
        None => a is None,
        Some(bn) => a matches Some(an) && an == (NodeView { world: an.world, ..bn }),
    }
}

/// Whether `a` is `b` up to world transforms and the root's transform.
pub open spec fn agree(a: Seq<Option<NodeView>>, b: Seq<Option<NodeView>>) -> bool {
    &&& a.len() == b.len()
    &&& a.len() >= 1
    &&& a[0] is Some
    &&& b[0] is Some
    &&& a[0].unwrap() == (NodeView { transform: a[0].unwrap().transform, world: a[0].unwrap().world, ..b[0].unwrap() })
    &&& forall|x: int| 1 <= x < a.len() ==> same_but_world(#[trigger] a[x], b[x])
}

/// How a loaded slot relates to the plan: the same node but for its world
/// transform, with the dirty flag cleared.
pub open spec fn loaded_slot(plan: Option<NodeView>, got: Option<NodeView>) -> bool {
    match plan {
        None => got is None,
        Some(p) => got matches Some(g) && g == (NodeView {
            world: g.world,
            transform_dirty: false,
            ..p
        }),
    }
}

/// Where a name's last node sits, and that every node's own name has one.
pub proof fn lemma_last_named(fs: Seq<NodeDataView>, name: Seq<char>)
    ensures
        last_named(fs, name) matches Some(k) ==> 0 <= k < fs.len() && fs[k].name == name,
        last_named(fs, name) is None ==> forall|k: int| 0 <= k < fs.len() ==> fs[k].name != name,
    decreases fs.len(),
{
    if fs.len() > 0 {
        lemma_last_named(fs.drop_last(), name);
        if fs.last().name != name {
            assert forall|k: int| 0 <= k < fs.drop_last().len() && last_named(fs, name) is Some implies fs[k] == fs.drop_last()[k] by {}
            if last_named(fs, name) is None {
                assert forall|k: int| 0 <= k < fs.len() implies fs[k].name != name by {
                    if k < fs.len() - 1 {
                        assert(fs[k] == fs.drop_last()[k]);
                    }
                }
            }
        }
    }
}

/// Carrying out `a` then `b` is carrying out `a + b`.
pub proof fn lemma_attach_all_concat(s: Seq<Option<NodeView>>, a: Seq<(NodeId, NodeId)>, b: Seq<(NodeId, NodeId)>)
    ensures
        attach_all(s, a + b) == (match attach_all(s, a) {
            Some(t) => attach_all(t, b),
            None => None,
        }),
    decreases b.len(),
{
    if b.len() == 0 {
        assert(a + b =~= a);
    } else {
        assert((a + b).drop_last() =~= a + b.drop_last());
        assert((a + b).last() == b.last());
        lemma_attach_all_concat(s, a, b.drop_last());
    }
}

/// The requests of fewer child names come first.
pub proof fn lemma_links_of_prefix(fs: Seq<NodeDataView>, i: int, m1: nat, m2: nat)
    requires
        m1 <= m2,
    ensures
        links_of(fs, i, m1).len() <= links_of(fs, i, m2).len(),
        links_of(fs, i, m2).subrange(0, links_of(fs, i, m1).len() as int) == links_of(fs, i, m1),
    decreases m2,
{
    if m1 < m2 {
        lemma_links_of_prefix(fs, i, m1, (m2 - 1) as nat);
        let a = links_of(fs, i, m1);
        let b = links_of(fs, i, (m2 - 1) as nat);
        assert(links_of(fs, i, m2).subrange(0, a.len() as int) =~= b.subrange(0, a.len() as int));
    } else {
        assert(links_of(fs, i, m2).subrange(0, links_of(fs, i, m1).len() as int) =~= links_of(fs, i, m1));
    }
}

/// The requests of fewer nodes come first.
pub proof fn lemma_child_links_prefix(fs: Seq<NodeDataView>, n1: nat, n2: nat)
    requires
        n1 <= n2,
    ensures
        child_links(fs, n1).len() <= child_links(fs, n2).len(),
        child_links(fs, n2).subrange(0, child_links(fs, n1).len() as int) == child_links(fs, n1),
    decreases n2,
{
    if n1 < n2 {
        lemma_child_links_prefix(fs, n1, (n2 - 1) as nat);
        let a = child_links(fs, n1);
        let b = child_links(fs, (n2 - 1) as nat);
        assert(child_links(fs, n2).subrange(0, a.len() as int) =~= b.subrange(0, a.len() as int));
    } else {
        assert(child_links(fs, n2).subrange(0, child_links(fs, n1).len() as int) =~= child_links(fs, n1));
    }
}

/// The root requests of fewer nodes come first.
pub proof fn lemma_top_links_prefix(fs: Seq<NodeDataView>, linked: Seq<(NodeId, NodeId)>, n1: nat, n2: nat)
    requires
        n1 <= n2,
    ensures
        top_links(fs, linked, n1).len() <= top_links(fs, linked, n2).len(),
        top_links(fs, linked, n2).subrange(0, top_links(fs, linked, n1).len() as int) == top_links(fs, linked, n1),
    decreases n2,
{
    if n1 < n2 {
        lemma_top_links_prefix(fs, linked, n1, (n2 - 1) as nat);
        let a = top_links(fs, linked, n1);
        let b = top_links(fs, linked, (n2 - 1) as nat);
        assert(top_links(fs, linked, n2).subrange(0, a.len() as int) =~= b.subrange(0, a.len() as int));
    } else {
        assert(top_links(fs, linked, n2).subrange(0, top_links(fs, linked, n1).len() as int) =~= top_links(fs, linked, n1));
    }
}

/// A refused prefix of requests refuses the whole sequence.
pub proof fn lemma_refused_prefix(s: Seq<Option<NodeView>>, pre: Seq<(NodeId, NodeId)>, all: Seq<(NodeId, NodeId)>)
    requires
        attach_all(s, pre) is None,
        pre.len() <= all.len(),
        all.subrange(0, pre.len() as int) == pre,
    ensures
        attach_all(s, all) is None,
{
    let rest = all.subrange(pre.len() as int, all.len() as int);
    assert(all =~= pre + rest);
    lemma_attach_all_concat(s, pre, rest);
}

/// Graphs that agree have the same links.
pub proof fn lemma_agree_links(a: Seq<Option<NodeView>>, b: Seq<Option<NodeView>>)
    requires
        agree(a, b),
    ensures
        same_links(a, b),
        forall|x: NodeId| slot_live(a, x) ==> #[trigger] a[x.0 as int].unwrap().parent == b[x.0 as int].unwrap().parent,
{
    assert forall|x: NodeId| slot_live(a, x) == slot_live(b, x) by {
        if (x.0 as int) < a.len() && x.0 >= 1 {
            assert(same_but_world(a[x.0 as int], b[x.0 as int]));
        }
    }
    assert forall|x: NodeId| #[trigger] kids(a, x) == kids(b, x) by {
        if (x.0 as int) < a.len() && x.0 >= 1 {
            assert(same_but_world(a[x.0 as int], b[x.0 as int]));
        }
    }
    assert forall|x: NodeId| slot_live(a, x) implies #[trigger] a[x.0 as int].unwrap().parent == b[x.0 as int].unwrap().parent by {
        if x.0 >= 1 {
            assert(same_but_world(a[x.0 as int], b[x.0 as int]));
        }
    }
}

/// A request is refused on one of two agreeing graphs exactly when it is
/// refused on the other, and carrying it out keeps them agreeing.
pub proof fn lemma_attach_agree(a: Seq<Option<NodeView>>, b: Seq<Option<NodeView>>, p: NodeId, c: NodeId)
    requires
        agree(a, b),
        1 <= c.0 < a.len(),
        (p.0 as int) < a.len(),
    ensures
        attach(a, p, c) is None == attach(b, p, c) is None,
        attach(a, p, c) is Some ==> agree(attach(a, p, c).unwrap(), attach(b, p, c).unwrap()),
{
    lemma_agree_links(a, b);
    lemma_same_links_reaches(a, b, c, p);
    if attach(a, p, c) is Some {
        let da = detached(a, c);
        let db = detached(b, c);
        assert(slot_live(a, c) == slot_live(b, c));
        if slot_live(a, c) {
            let q = a[c.0 as int].unwrap().parent;
            assert(q == b[c.0 as int].unwrap().parent);
            if q is Some {
                assert(slot_live(a, q.unwrap()) == slot_live(b, q.unwrap()));
                assert(kids(a, q.unwrap()) == kids(b, q.unwrap()));
            }
        }
        assert(agree(da, db)) by {
            assert forall|x: int| 1 <= x < da.len() implies same_but_world(#[trigger] da[x], db[x]) by {
                assert(same_but_world(a[x], b[x]));
            }
        }
        let wa = with_child(da, p, c);
        let wb = with_child(db, p, c);
        assert(slot_live(da, p) == slot_live(db, p)) by {
            if p.0 >= 1 {
                assert(same_but_world(da[p.0 as int], db[p.0 as int]));
            }
        }
        assert(agree(wa, wb)) by {
            if p.0 >= 1 {
                assert(same_but_world(da[p.0 as int], db[p.0 as int]));
            }
            assert forall|x: int| 1 <= x < wa.len() implies same_but_world(#[trigger] wa[x], wb[x]) by {
                assert(same_but_world(da[x], db[x]));
            }
        }
        let fa = with_parent(wa, c, Some(p));
        let fb = with_parent(wb, c, Some(p));
        assert(agree(fa, fb)) by {
            assert(same_but_world(wa[c.0 as int], wb[c.0 as int]));
            assert forall|x: int| 1 <= x < fa.len() implies same_but_world(#[trigger] fa[x], fb[x]) by {
                assert(same_but_world(wa[x], wb[x]));
            }
        }
    }
}

/// The position of the last node of `nodes` named `name`, if any.
fn last_named_index(nodes: &Vec<NodeData>, name: &String) -> (r: Option<usize>)
    ensures
        match r {
            Some(j) => last_named(nodes@.map_values(|d: NodeData| d@), name@) == Some(j as int),
            None => last_named(nodes@.map_values(|d: NodeData| d@), name@) is None,
        },
{
    let ghost fs = nodes@.map_values(|d: NodeData| d@);
    let mut j: usize = nodes.len();
    proof {
        assert(fs.take(j as int) =~= fs);
    }
    while j > 0
        invariant
            j <= nodes@.len(),
            fs == nodes@.map_values(|d: NodeData| d@),
            last_named(fs, name@) == last_named(fs.take(j as int), name@),
        decreases j,
    {
        proof {
            assert(fs.take(j as int).drop_last() =~= fs.take(j - 1));
            assert(fs.take(j as int).last() == nodes@[j - 1]@);
        }
        if nodes[j - 1].name == *name {
            return Some(j - 1);
        }
        j = j - 1;
    }
    None
}

/// What loading `scene_file` gives when it succeeds: the graph of the load
/// plan, with its root kept in slot 0 and every world transform updated.
pub open spec fn loads_as(scene_file: SceneFile, g: SceneGraph) -> bool {
    let fs = file_views(scene_file);
    &&& load_plan(fs) is Some
    &&& g.wf()
    &&& g.forest()
    &&& g.root_spec() == NodeId(0)
    &&& g.free().len() == 0
    &&& g.names() == file_names(fs, fs.len())
    &&& g.slots().len() == load_plan(fs).unwrap().len()
    &&& g.live(NodeId(0))
    &&& g.node(NodeId(0)) == (NodeView {
        transform: g.node(NodeId(0)).transform,
        world: g.node(NodeId(0)).world,
        transform_dirty: false,
        ..load_plan(fs).unwrap()[0].unwrap()
    })
    &&& forall|x: int| 1 <= x < g.slots().len() ==> loaded_slot(load_plan(fs).unwrap()[x], #[trigger] g.slots()[x])
    &&& forall|x: NodeId| #[trigger] slot_live(g.slots(), x) ==> world_consistent(g.slots(), x)
}

impl SceneGraph {
    /// Builds a graph from a scene file (see the module's description): `Ok`
    /// with the planned graph, its transforms updated, unless a request would
    /// close a cycle, which is refused as a circular dependency.
    pub fn from_scene_file(scene_file: &SceneFile) -> (r: Result<SceneGraph, SceneError>)
        requires
            scene_file.nodes@.len() < u32::MAX,
        ensures
            match r {
                Ok(g) => loads_as(*scene_file, g),
                Err(e) => e == SceneError::CircularDependency && load_plan(file_views(*scene_file)) is None,
            },
    {
        let ghost fs = file_views(*scene_file);
        let n = scene_file.nodes.len();
        let mut graph = SceneGraph::new();
        proof {
            assert(graph.node(NodeId(0)).tags =~= Seq::<Seq<char>>::empty());
            assert(graph.node(NodeId(0)).children =~= Seq::<NodeId>::empty());
            assert(fs.take(0).map_values(|d: NodeDataView| Some(file_node(d))) =~= Seq::<Option<NodeView>>::empty());
            assert(first_pass(fs.take(0)) =~= seq![Some(plain_root())]);
        }

        // First pass: every node, in order.
        let mut i: usize = 0;
        while i < n
            invariant
                n == scene_file.nodes@.len(),
                fs == file_views(*scene_file),
                n < u32::MAX,
                i <= n,
                graph.wf(),
                graph.forest(),
                graph.root_spec() == NodeId(0),
                graph.free().len() == 0,
                graph.slots().len() == i + 1,
                agree(graph.slots(), first_pass(fs.take(i as int))),
                graph.names() == file_names(fs, i as nat),
            decreases n - i,
        {
            let d = &scene_file.nodes[i];
            let mut node = SceneNode::new(d.name.as_str());
            node.transform = d.transform;
            node.tags = unique_tags(&d.tags);
            node.active = d.active;
            let ghost before = graph.slots();
            proof {
                assert(fs[i as int] == d@);
                let f = file_node(fs[i as int]);
                assert(node@.name == f.name);
                assert(node@.tags == f.tags);
                assert(node@.transform == f.transform);
                assert(node@.active == f.active);
                assert(node@.children == f.children);
                assert(node@.parent == f.parent);
                assert(node@.bounds == f.bounds);
                assert(node@.entity_id == f.entity_id);
                assert(node@ == (NodeView { world: node@.world, transform_dirty: true, ..file_node(fs[i as int]) }));
            }
            let id = graph.add_node(node);
            proof {
                let a = graph.slots();
                let b = first_pass(fs.take(i as int + 1));
                let b0 = first_pass(fs.take(i as int));
                assert(b =~= b0.push(Some(file_node(fs[i as int]))));
                assert forall|x: int| 1 <= x < a.len() implies same_but_world(#[trigger] a[x], b[x]) by {
                    if x < i + 1 {
                        assert(same_but_world(before[x], b0[x]));
                    }
                }
            }
            i = i + 1;
        }
        proof {
            assert(fs.take(n as int) =~= fs);
        }
        let ghost start = first_pass(fs);
        let ghost all_child = child_links(fs, fs.len());
        let ghost all = all_child + top_links(fs, all_child, fs.len());
        proof {
            lemma_child_links_prefix(fs, 0, fs.len());
            assert(all.subrange(0, all_child.len() as int) =~= all_child);
        }
        let mut has_parent: Vec<bool> = Vec::new();
        let mut k: usize = 0;
        while k <= n
            invariant
                k <= n + 1,
                n < u32::MAX,
                has_parent@.len() == k,
                forall|x: int| 0 <= x < k ==> !has_parent@[x],
            decreases n + 1 - k,
        {
            has_parent.push(false);
            k = k + 1;
        }

        // Second pass: the children that each node names.
        let root = graph.root();
        let mut i: usize = 0;
        while i < n
            invariant
                n == scene_file.nodes@.len(),
                fs == file_views(*scene_file),
                n < u32::MAX,
                i <= n,
                root == NodeId(0),
                graph.wf(),
                graph.forest(),
                graph.root_spec() == NodeId(0),
                graph.free().len() == 0,
                graph.slots().len() == n + 1,
                forall|x: int| 0 <= x < graph.slots().len() ==> (#[trigger] graph.slots()[x]) is Some,
                graph.names() == file_names(fs, n as nat),
                start == first_pass(fs),
                all_child == child_links(fs, fs.len()),
                all == all_child + top_links(fs, all_child, fs.len()),
                all_child.len() <= all.len(),
                all.subrange(0, all_child.len() as int) == all_child,
                attach_all(start, child_links(fs, i as nat)) is Some,
                agree(graph.slots(), attach_all(start, child_links(fs, i as nat)).unwrap()),
                has_parent@.len() == n + 1,
                forall|x: int| 0 <= x <= n ==> has_parent@[x] == is_linked(child_links(fs, i as nat), NodeId(x as u32)),
            decreases n - i,
        {
            let d = &scene_file.nodes[i];
            proof {
                assert(fs[i as int] == d@);
                lemma_last_named(fs, d.name@);
            }
            let pid = match last_named_index(&scene_file.nodes, &d.name) {
                Some(j) => NodeId((j + 1) as u32),
                None => {
                    proof {
                        assert(fs[i as int].name == d.name@);
                    }
                    NodeId(0)
                },
            };
            proof {
                assert(pid == slot_of(last_named(fs, fs[i as int].name).unwrap()));
            }
            let ghost base = child_links(fs, i as nat);
            let mut m: usize = 0;
            while m < d.children.len()
                invariant
                    n == scene_file.nodes@.len(),
                    fs == file_views(*scene_file),
                    n < u32::MAX,
                    i < n,
                    d == scene_file.nodes@[i as int],
                    fs[i as int] == d@,
                    pid == slot_of(last_named(fs, fs[i as int].name).unwrap()),
                    1 <= pid.0 <= n,
                    m <= d.children@.len(),
                    root == NodeId(0),
                    graph.wf(),
                    graph.forest(),
                    graph.root_spec() == NodeId(0),
                    graph.free().len() == 0,
                    graph.slots().len() == n + 1,
                    forall|x: int| 0 <= x < graph.slots().len() ==> (#[trigger] graph.slots()[x]) is Some,
                    graph.names() == file_names(fs, n as nat),
                    start == first_pass(fs),
                    all_child == child_links(fs, fs.len()),
                    all == all_child + top_links(fs, all_child, fs.len()),
                    all_child.len() <= all.len(),
                    all.subrange(0, all_child.len() as int) == all_child,
                    base == child_links(fs, i as nat),
                    attach_all(start, base + links_of(fs, i as int, m as nat)) is Some,
                    agree(graph.slots(), attach_all(start, base + links_of(fs, i as int, m as nat)).unwrap()),
                    has_parent@.len() == n + 1,
                    forall|x: int| 0 <= x <= n ==> has_parent@[x] == is_linked(base + links_of(fs, i as int, m as nat), NodeId(x as u32)),
                decreases d.children@.len() - m,
            {
                let ghost pre = base + links_of(fs, i as int, m as nat);
                let ghost t = attach_all(start, pre).unwrap();
                proof {
                    assert(d@.children[m as int] == d.children@[m as int]@);
                    lemma_last_named(fs, d.children@[m as int]@);
                }
                match last_named_index(&scene_file.nodes, &d.children[m]) {
                    Some(cj) => {
                        let cid = NodeId((cj + 1) as u32);
                        let ghost next = base + links_of(fs, i as int, m as nat + 1);
                        proof {
                            assert(links_of(fs, i as int, m as nat + 1) == links_of(fs, i as int, m as nat).push((pid, cid)));
                            assert(next =~= pre.push((pid, cid)));
                            assert(next.drop_last() =~= pre);
                            lemma_attach_agree(graph.slots(), t, pid, cid);
                            assert(graph.slots()[pid.0 as int] is Some);
                            assert(graph.slots()[cid.0 as int] is Some);
                        }
                        let ghost g_before = graph.slots();
                        match graph.add_child(pid, cid) {
                            Ok(()) => {
                                proof {
                                    assert(graph.slots() == attach(g_before, pid, cid).unwrap());
                                    assert forall|x: int| 0 <= x < graph.slots().len() implies (#[trigger] graph.slots()[x]) is Some by {
                                        assert(g_before[x] is Some);
                                    }
                                }
                            },
                            Err(e) => {
                                proof {
                                    assert(attach(g_before, pid, cid) is None);
                                    assert(attach_all(start, next) is None);
                                    lemma_links_of_prefix(fs, i as int, m as nat + 1, fs[i as int].children.len());
                                    lemma_child_links_prefix(fs, i as nat + 1, fs.len());
                                    let whole = links_of(fs, i as int, fs[i as int].children.len());
                                    assert(child_links(fs, i as nat + 1) == base + whole);
                                    assert(all.subrange(0, next.len() as int) =~= next) by {
                                        assert(all_child.subrange(0, next.len() as int) =~= next) by {
                                            assert(child_links(fs, i as nat + 1).subrange(0, next.len() as int) =~= next);
                                        }
                                    }
                                    lemma_refused_prefix(start, next, all);
                                }
                                return Err(e);
                            },
                        }
                        has_parent.set(cj + 1, true);
                    },
                    None => {},
                }
                m = m + 1;
            }
            proof {
                assert(child_links(fs, i as nat + 1) == base + links_of(fs, i as int, d.children@.len() as nat));
            }
            i = i + 1;
        }

        // Third pass: every node that a name refers to and that got no
        // parent goes below the root.
        let ghost tops = top_links(fs, all_child, fs.len());
        let mut k: usize = 0;
        while k < n
            invariant
                n == scene_file.nodes@.len(),
                fs == file_views(*scene_file),
                n < u32::MAX,
                k <= n,
                root == NodeId(0),
                graph.wf(),
                graph.forest(),
                graph.root_spec() == NodeId(0),
                graph.free().len() == 0,
                graph.slots().len() == n + 1,
                forall|x: int| 0 <= x < graph.slots().len() ==> (#[trigger] graph.slots()[x]) is Some,
                graph.names() == file_names(fs, n as nat),
                start == first_pass(fs),
                all_child == child_links(fs, fs.len()),
                tops == top_links(fs, all_child, fs.len()),
                all == all_child + tops,
                attach_all(start, all_child + top_links(fs, all_child, k as nat)) is Some,
                agree(graph.slots(), attach_all(start, all_child + top_links(fs, all_child, k as nat)).unwrap()),
                has_parent@.len() == n + 1,
                forall|x: int| 0 <= x <= n ==> has_parent@[x] == is_linked(all_child, NodeId(x as u32)),
            decreases n - k,
        {
            let ghost pre = all_child + top_links(fs, all_child, k as nat);
            let ghost t = attach_all(start, pre).unwrap();
            let d = &scene_file.nodes[k];
            proof {
                assert(fs[k as int] == d@);
            }
            let is_last = match last_named_index(&scene_file.nodes, &d.name) {
                Some(j) => j == k,
                None => false,
            };
            if is_last && !has_parent[k + 1] {
                let cid = NodeId((k + 1) as u32);
                let ghost next = all_child + top_links(fs, all_child, k as nat + 1);
                proof {
                    assert(top_links(fs, all_child, k as nat + 1) == top_links(fs, all_child, k as nat).push((NodeId(0), cid)));
                    assert(next =~= pre.push((root, cid)));
                    assert(next.drop_last() =~= pre);
                    lemma_attach_agree(graph.slots(), t, root, cid);
                    assert(graph.slots()[0] is Some);
                    assert(graph.slots()[cid.0 as int] is Some);
                }
                let ghost g_before = graph.slots();
                match graph.add_child(root, cid) {
                    Ok(()) => {
                        proof {
                            assert(graph.slots() == attach(g_before, root, cid).unwrap());
                            assert forall|x: int| 0 <= x < graph.slots().len() implies (#[trigger] graph.slots()[x]) is Some by {
                                assert(g_before[x] is Some);
                            }
                        }
                    },
                    Err(e) => {
                        proof {
                            assert(attach(g_before, root, cid) is None);
                            assert(attach_all(start, next) is None);
                            lemma_top_links_prefix(fs, all_child, k as nat + 1, fs.len());
                            assert(all.subrange(0, next.len() as int) =~= next);
                            lemma_refused_prefix(start, next, all);
                        }
                        return Err(e);
                    },
                }
            } else {
                proof {
                    assert(top_links(fs, all_child, k as nat + 1) == top_links(fs, all_child, k as nat));
                }
            }
            k = k + 1;
        }
        let ghost before_update = graph.slots();
        proof {
            assert forall|x: NodeId| #[trigger] is_top(before_update, x) implies acyclic_below(before_update, x) by {
                lemma_acyclic_below(before_update, x);
            }
        }
        graph.update_transforms();
        proof {
            let t = load_plan(fs).unwrap();
            let a = before_update;
            let g = graph.slots();
            assert(load_plan(fs) == attach_all(start, all));
            lemma_agree_links(a, t);
            assert forall|x: int| 0 <= x < g.len() implies #[trigger] g[x] == (match a[x] {
                Some(an) => Some(NodeView { world: g[x].unwrap().world, transform_dirty: false, ..an }),
                None => None,
            }) by {
                assert(updated_slot(a[x], g[x], under_top(a, NodeId(x as u32))));
                if a[x] is Some {
                    assert(NodeId(x as u32).0 as int == x);
                    lemma_forest_under_top(a, NodeId(x as u32));
                }
            }
            assert forall|x: int| 1 <= x < g.len() implies loaded_slot(t[x], #[trigger] g[x]) by {
                assert(same_but_world(a[x], t[x]));
            }
        }
        Ok(graph)
    }
}

} // verus!
