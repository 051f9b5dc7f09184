//! The hierarchical scene graph.
//!
//! Nodes live in numbered slots. A slot is live while it holds a node; the
//! slots of removed nodes wait on a free list and are handed out again, last
//! freed first. Each node records its parent and its children by slot number.

use vstd::prelude::*;
use crate::math::{Transform, vec3_min, vec3_max, vec3_min_of, vec3_max_of};
use crate::text::{decimal, push_decimal};
use self::names::name_index_contents;

pub mod names;
pub mod graph;
pub mod hierarchy;
pub mod reach;
pub mod remove;
pub mod traverse;
pub mod query;
pub mod forest;
pub mod file;
pub mod load;
pub mod cache;
pub mod roundtrip;

verus! {

/// A node's slot number. `u32::MAX` marks no node.
#[derive(Copy, Clone, Debug, PartialEq, Eq, Structural, Hash)]
pub struct NodeId(pub u32);

/// The slot number that marks no node.
pub const INVALID_NODE: u32 = 4294967295u32;

impl NodeId {
    /// The id that marks no node.
    pub fn invalid() -> (id: NodeId)
        ensures
            id.0 == u32::MAX,
    {
        NodeId(INVALID_NODE)
    }

    /// Whether the id can name a node: every id but `u32::MAX`.
    pub fn is_valid(self) -> (b: bool)
        ensures
            b == (self.0 != u32::MAX),
    {
        self.0 != INVALID_NODE
    }

    /// The id's text, `Node(<slot number>)`.
    pub fn to_string(&self) -> (s: String)
        ensures
            s@ == "Node("@ + decimal(self.0 as nat) + ")"@,
    {
        let mut s = String::from_str("Node(");
        push_decimal(&mut s, self.0);
        s.append(")");
        s
    }
}

impl Default for NodeId {
    fn default() -> (id: Self)
        ensures
            id.0 == 0,
    {
        NodeId(0)
    }
}

/// Why a scene-graph operation was refused.
#[derive(Copy, Clone, Debug, PartialEq, Eq, Structural)]
pub enum SceneError {
    /// No node lives in the slot.
    NodeNotFound(NodeId),
    /// The node cannot be used this way; the root cannot be removed.
    InvalidParent(NodeId),
    /// The change would make a node its own ancestor.
    CircularDependency,
}

/// An axis-aligned bounding box in a node's local space.
#[derive(Debug, Clone, Copy)]
pub struct BoundingBox {
    pub min: glam::Vec3,
    pub max: glam::Vec3,
}

/// The coordinate-wise minimum of the points, taken in order from the
/// first.
pub open spec fn fold_min(points: Seq<glam::Vec3>) -> glam::Vec3
    decreases points.len(),
{
    if points.len() <= 1 {
        points[0]
    } else {
        vec3_min_of(fold_min(points.drop_last()), points.last())
    }
}

/// The coordinate-wise maximum of the points, taken in order from the
/// first.
pub open spec fn fold_max(points: Seq<glam::Vec3>) -> glam::Vec3
    decreases points.len(),
{
    if points.len() <= 1 {
        points[0]
    } else {
        vec3_max_of(fold_max(points.drop_last()), points.last())
    }
}

impl BoundingBox {
    pub fn new(min: glam::Vec3, max: glam::Vec3) -> (b: Self)
        ensures
            b.min == min,
            b.max == max,
    {
        BoundingBox { min, max }
    }

    /// The box's extent, `max - min`.
    pub fn size(&self) -> (d: glam::Vec3)
        ensures
            d == crate::math::vec3_difference(self.max, self.min),
    {
        crate::math::vec3_sub(self.max, self.min)
    }

    /// The smallest box around `points`: none for no points.
    pub fn from_points(points: &[glam::Vec3]) -> (r: Option<Self>)
        ensures
            r is None <==> points@.len() == 0,
            r matches Some(b) ==> b.min == fold_min(points@) && b.max == fold_max(points@),
    {
        if points.len() == 0 {
            return None;
        }
        let mut min = points[0];
        let mut max = points[0];
        let mut i: usize = 1;
        while i < points.len()
            invariant
                1 <= i <= points@.len(),
                min == fold_min(points@.take(i as int)),
                max == fold_max(points@.take(i as int)),
            decreases points@.len() - i,
        {
            proof {
                assert(points@.take(i as int + 1).drop_last() =~= points@.take(i as int));
            }
            min = vec3_min(min, points[i]);
            max = vec3_max(max, points[i]);
            i = i + 1;
        }
        proof {
            assert(points@.take(points@.len() as int) =~= points@);
        }
        Some(BoundingBox { min, max })
    }
}

/// A node of the scene graph.
#[derive(Debug, Clone)]
pub struct SceneNode {
    /// The node's transform relative to its parent.
    pub transform: Transform,
    pub(crate) world_transform: glam::Mat4,
    pub(crate) bounds: Option<BoundingBox>,
    pub(crate) parent: Option<NodeId>,
    pub(crate) children: Vec<NodeId>,
    /// The ECS entity that the node stands for, if any.
    pub entity_id: Option<u32>,
    pub name: String,
    pub tags: Vec<String>,
    pub active: bool,
    pub(crate) transform_dirty: bool,
    pub(crate) bounds_dirty: bool,
}

/// Whether `tags` holds no name twice.
pub open spec fn distinct_names(tags: Seq<Seq<char>>) -> bool {
    forall|i: int, j: int| 0 <= i < j < tags.len() ==> tags[i] != tags[j]
}

/// `tags` with each name kept at its first appearance only.
pub open spec fn unique_names(tags: Seq<Seq<char>>) -> Seq<Seq<char>>
    decreases tags.len(),
{
    if tags.len() == 0 {
        Seq::empty()
    } else {
        let before = unique_names(tags.drop_last());
        if before.contains(tags.last()) {
            before
        } else {
            before.push(tags.last())
        }
    }
}

/// Keeping each name once leaves no name twice and the same names.
pub proof fn lemma_unique_names(tags: Seq<Seq<char>>)
    ensures
        distinct_names(unique_names(tags)),
        forall|s: Seq<char>| unique_names(tags).contains(s) <==> tags.contains(s),
    decreases tags.len(),
{
    if tags.len() > 0 {
        let before = unique_names(tags.drop_last());
        lemma_unique_names(tags.drop_last());
        assert forall|s: Seq<char>| unique_names(tags).contains(s) <==> tags.contains(s) by {
            if tags.contains(s) {
                let k = choose|k: int| 0 <= k < tags.len() && tags[k] == s;
                if k < tags.len() - 1 {
                    assert(tags.drop_last()[k] == s);
                }
            }
            if tags.drop_last().contains(s) {
                let k = choose|k: int| 0 <= k < tags.drop_last().len() && tags.drop_last()[k] == s;
                assert(tags[k] == s);
            }
            if !before.contains(tags.last()) {
                assert(unique_names(tags) == before.push(tags.last()));
                if unique_names(tags).contains(s) && s != tags.last() {
                    let k = choose|k: int| 0 <= k < unique_names(tags).len() && unique_names(tags)[k] == s;
                    assert(before[k] == s);
                }
                assert(unique_names(tags)[before.len() as int] == tags.last());
                if before.contains(s) {
                    let k = choose|k: int| 0 <= k < before.len() && before[k] == s;
                    assert(unique_names(tags)[k] == s);
                }
            }
            assert(tags[tags.len() - 1] == tags.last());
        }
    }
}

/// A copy of `tags` with each name kept at its first appearance only.
pub(crate) fn unique_tags(tags: &Vec<String>) -> (r: Vec<String>)
    ensures
        string_views(r@) == unique_names(string_views(tags@)),
{
    let mut out: Vec<String> = Vec::new();
    let mut i: usize = 0;
    while i < tags.len()
        invariant
            i <= tags@.len(),
            string_views(out@) == unique_names(string_views(tags@.take(i as int))),
        decreases tags@.len() - i,
    {
        proof {
            assert(string_views(tags@.take(i as int + 1)).drop_last() =~= string_views(tags@.take(i as int)));
        }
        let t: String = tags[i].clone();
        let mut found = false;
        let mut j: usize = 0;
        while j < out.len()
            invariant
                j <= out@.len(),
                found == exists|k: int| 0 <= k < j && out@[k]@ == t@,
            decreases out@.len() - j,
        {
            if out[j] == t {
                found = true;
            }
            j = j + 1;
        }
        proof {
            let v = string_views(out@);
            if found {
                let k = choose|k: int| 0 <= k < out@.len() && out@[k]@ == t@;
                assert(v[k] == t@);
            } else {
                assert forall|k: int| 0 <= k < v.len() implies v[k] != t@ by {
                    assert(v[k] == out@[k]@);
                }
            }
        }
        if !found {
            let ghost before = out@;
            out.push(t);
            proof {
                assert(string_views(out@) =~= string_views(before).push(t@));
            }
        }
        i = i + 1;
    }
    proof {
        assert(tags@.take(tags@.len() as int) =~= tags@);
    }
    out
}

/// The mathematical model of a scene node.
pub struct NodeView {
    pub transform: Transform,
    pub world: glam::Mat4,
    pub bounds: Option<BoundingBox>,
    pub parent: Option<NodeId>,
    pub children: Seq<NodeId>,
    pub entity_id: Option<u32>,
    pub name: Seq<char>,
    pub tags: Seq<Seq<char>>,
    pub active: bool,
    pub transform_dirty: bool,
    pub bounds_dirty: bool,
}

impl NodeView {
    /// A node as `SceneNode::new` makes it, apart from its transform, world
    /// transform and name.
    pub open spec fn is_fresh(self) -> bool {
        &&& self.parent is None
        &&& self.children.len() == 0
        &&& self.bounds is None
        &&& self.entity_id is None
        &&& self.tags.len() == 0
        &&& self.active
        &&& self.transform_dirty
        &&& self.bounds_dirty
    }
}

/// The characters of each string, in order.
pub open spec fn string_views(s: Seq<String>) -> Seq<Seq<char>> {
    s.map_values(|t: String| t@)
}

impl View for SceneNode {
    type V = NodeView;

    closed spec fn view(&self) -> NodeView {
        NodeView {
            transform: self.transform,
            world: self.world_transform,
            bounds: self.bounds,
            parent: self.parent,
            children: self.children@,
            entity_id: self.entity_id,
            name: self.name@,
            tags: string_views(self.tags@),
            active: self.active,
            transform_dirty: self.transform_dirty,
            bounds_dirty: self.bounds_dirty,
        }
    }
}

impl SceneNode {
    /// A detached, active node with the identity transform and no tags, bounds
    /// or entity, marked for a transform update.
    pub fn new(name: &str) -> (n: Self)
        ensures
            n@.is_fresh(),
            n@.name == name@,
    {
        SceneNode {
            transform: Transform::identity(),
            world_transform: crate::math::mat4_identity(),
            bounds: None,
            parent: None,
            children: Vec::new(),
            entity_id: None,
            name: String::from_str(name),
            tags: Vec::new(),
            active: true,
            transform_dirty: true,
            bounds_dirty: true,
        }
    }

    /// The node with `transform` as its local transform, marked for a
    /// transform update.
    pub fn with_transform(self, transform: Transform) -> (n: Self)
        ensures
            n@ == (NodeView { transform, transform_dirty: true, ..self@ }),
    {
        let mut n = self;
        n.transform = transform;
        n.transform_dirty = true;
        n
    }

    /// The node with `tags` as its tag set: each name once, in order of first
    /// appearance.
    pub fn with_tags(self, tags: &[&str]) -> (n: Self)
        ensures
            n@.tags == unique_names(tags@.map_values(|t: &str| t@)),
            n@ == (NodeView { tags: n@.tags, ..self@ }),
    {
        let mut given: Vec<String> = Vec::new();
        let mut i: usize = 0;
        while i < tags.len()
            invariant
                i <= tags@.len(),
                string_views(given@) == tags@.take(i as int).map_values(|t: &str| t@),
            decreases tags@.len() - i,
        {
            let ghost before = given@;
            let t = String::from_str(tags[i]);
            given.push(t);
            proof {
                let a = string_views(given@);
                let b = tags@.take(i as int + 1).map_values(|t: &str| t@);
                assert(given@ == before.push(t));
                assert(string_views(before).len() == before.len());
                assert(tags@.take(i as int).map_values(|t: &str| t@).len() == i);
                assert(before.len() == i);
                assert(a.len() == i + 1);
                assert(b.len() == i + 1);
                assert forall|k: int| 0 <= k < a.len() implies a[k] == b[k] by {
                    assert(a[k] == given@[k]@);
                    assert(b[k] == tags@[k]@);
                    if k < i {
                        assert(given@[k] == before[k]);
                        assert(string_views(before)[k] == before[k]@);
                        assert(tags@.take(i as int).map_values(|t: &str| t@)[k] == tags@[k]@);
                    }
                }
                assert(a =~= b);
            }
            i = i + 1;
        }
        proof {
            assert(tags@.take(tags@.len() as int) =~= tags@);
        }
        let mut n = self;
        n.tags = unique_tags(&given);
        n
    }

    /// The world transform computed at the last transform update.
    pub fn world_transform(&self) -> (m: &glam::Mat4)
        ensures
            *m == self@.world,
    {
        &self.world_transform
    }

    /// The translation part of the world transform.
    pub fn world_position(&self) -> (p: glam::Vec3)
        ensures
            p == crate::math::translation_of(self@.world),
    {
        crate::math::mat4_translation(&self.world_transform)
    }

    /// Marks the transform and bounds for an update.
    pub fn mark_transform_dirty(&mut self)
        ensures
            final(self)@ == (NodeView { transform_dirty: true, bounds_dirty: true, ..old(self)@ }),
    {
        self.transform_dirty = true;
        self.bounds_dirty = true;
    }

    /// The node's children, in order.
    pub fn children(&self) -> (c: &[NodeId])
        ensures
            c@ == self@.children,
    {
        self.children.as_slice()
    }

    /// The node's name.
    pub fn name(&self) -> (r: &str)
        ensures
            r@ == self@.name,
    {
        self.name.as_str()
    }

    /// The node's tags.
    pub fn tags(&self) -> (r: &[String])
        ensures
            string_views(r@) == self@.tags,
    {
        self.tags.as_slice()
    }

    /// Whether the node is active.
    pub fn is_active(&self) -> (b: bool)
        ensures
            b == self@.active,
    {
        self.active
    }

    /// The node's transform relative to its parent.
    pub fn transform(&self) -> (t: &Transform)
        ensures
            *t == self@.transform,
    {
        &self.transform
    }

    /// The ECS entity that the node stands for, if any.
    pub fn entity_id(&self) -> (e: Option<u32>)
        ensures
            e == self@.entity_id,
    {
        self.entity_id
    }

    /// The node's parent, if any.
    pub fn parent(&self) -> (p: Option<NodeId>)
        ensures
            p == self@.parent,
    {
        self.parent
    }

    /// Whether the transform awaits an update.
    pub fn is_transform_dirty(&self) -> (b: bool)
        ensures
            b == self@.transform_dirty,
    {
        self.transform_dirty
    }

    /// The node's local bounds, if any.
    pub fn bounds(&self) -> (b: Option<BoundingBox>)
        ensures
            b == self@.bounds,
    {
        self.bounds
    }
}

impl Default for SceneNode {
    /// An unnamed fresh node.
    fn default() -> (n: Self)
        ensures
            n@.is_fresh(),
            n@.name.len() == 0,
    {
        proof {
            reveal_strlit("");
        }
        SceneNode::new("")
    }
}

/// Hierarchical scene graph.
#[derive(Debug)]
pub struct SceneGraph {
    nodes: Vec<Option<SceneNode>>,
    name_map: indexmap::IndexMap<String, u32>,
    root: NodeId,
    free_list: Vec<NodeId>,
    next_id: u32,
}

impl SceneGraph {
    /// The slots, in order; a live slot holds its node.
    pub closed spec fn slots(&self) -> Seq<Option<NodeView>> {
        self.nodes@.map_values(|o: Option<SceneNode>| opt_view(o))
    }

    /// The name index: each registered name and the slot it names.
    pub closed spec fn names(&self) -> Map<Seq<char>, u32> {
        name_index_contents(self.name_map)
    }

    /// The free slots, in the order they were freed.
    pub closed spec fn free(&self) -> Seq<NodeId> {
        self.free_list@
    }

    /// The slot number that the next new slot gets.
    pub closed spec fn next_id_spec(&self) -> u32 {
        self.next_id
    }

    pub closed spec fn root_spec(&self) -> NodeId {
        self.root
    }

    /// Whether a node lives in slot `id`.
    pub open spec fn live(&self, id: NodeId) -> bool {
        (id.0 as int) < self.slots().len() && self.slots()[id.0 as int] is Some
    }

    /// The node in slot `id`.
    pub open spec fn node(&self, id: NodeId) -> NodeView {
        self.slots()[id.0 as int].unwrap()
    }

    /// The graph's structural invariant: the root is slot 0; slot numbers are
    /// handed out in order; free slots are empty, distinct and in range; and
    /// every parent and child a node records is a slot in range.
    pub closed spec fn wf(&self) -> bool {
        &&& self.root == NodeId(0)
        &&& self.slots().len() >= 1
        &&& self.next_id as int == self.slots().len()
        &&& forall|k: int| 0 <= k < self.free_list@.len() ==> {
            &&& (#[trigger] self.free_list@[k]).0 < self.slots().len()
            &&& self.slots()[self.free_list@[k].0 as int] is None
        }
        &&& forall|k: int, l: int| 0 <= k < l < self.free_list@.len() ==> self.free_list@[k] != self.free_list@[l]
        &&& forall|i: int| 0 <= i < self.slots().len() && (#[trigger] self.slots()[i]) is Some ==> refs_in_range(self.slots()[i].unwrap(), self.slots().len() as int)
    }

    /// What well-formedness tells a caller: the root is slot 0, the next new
    /// slot is numbered by the slot count, and each free slot is an empty slot
    /// in range, listed once.
    pub proof fn lemma_wf_facts(&self)
        requires
            self.wf(),
        ensures
            self.root_spec() == NodeId(0),
            self.slots().len() >= 1,
            self.next_id_spec() == self.slots().len(),
            forall|k: int| 0 <= k < self.free().len() ==> {
                &&& ((#[trigger] self.free()[k]).0 as int) < self.slots().len()
                &&& !self.live(self.free()[k])
            },
            self.free().no_duplicates(),
    {
    }

    /// A graph that differs from a well-formed one only in the contents of
    /// live slots, whose references stay in range, is well-formed.
    pub(crate) proof fn lemma_wf_same_shape(old_g: SceneGraph, new_g: SceneGraph)
        requires
            old_g.wf(),
            new_g.root_spec() == old_g.root_spec(),
            new_g.next_id_spec() == old_g.next_id_spec(),
            new_g.free() == old_g.free(),
            new_g.slots().len() == old_g.slots().len(),
            forall|i: int| 0 <= i < old_g.slots().len() ==> (#[trigger] new_g.slots()[i] is Some) == old_g.slots()[i] is Some,
            forall|i: int| 0 <= i < new_g.slots().len() && (#[trigger] new_g.slots()[i]) is Some ==> refs_in_range(new_g.slots()[i].unwrap(), new_g.slots().len() as int),
        ensures
            new_g.wf(),
    {
        assert forall|k: int| 0 <= k < new_g.free_list@.len() implies {
            &&& (#[trigger] new_g.free_list@[k]).0 < new_g.slots().len()
            &&& new_g.slots()[new_g.free_list@[k].0 as int] is None
        } by {
            assert(old_g.free_list@[k] == new_g.free_list@[k]);
            let j = new_g.free_list@[k].0 as int;
            assert(new_g.slots()[j] is Some == old_g.slots()[j] is Some);
        }
    }
}

/// Whether every parent and child that `n` records is below `len`.
pub open spec fn refs_in_range(n: NodeView, len: int) -> bool {
    &&& (n.parent matches Some(p) ==> (p.0 as int) < len)
    &&& forall|k: int| 0 <= k < n.children.len() ==> ((#[trigger] n.children[k]).0 as int) < len
}

/// The model of a slot's content.
pub open spec fn opt_view(o: Option<SceneNode>) -> Option<NodeView> {
    match o {
        Some(n) => Some(n@),
        None => None,
    }
}

} // verus!
