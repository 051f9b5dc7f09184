//! Editing node transforms and the parent-child hierarchy.

use vstd::prelude::*;
use std::collections::HashSet;
use crate::math::Transform;
use super::{NodeId, NodeView, SceneError, SceneGraph, refs_in_range};
use super::graph::{drop_id, lemma_drop_id_from, without_id};
use super::forest::{lemma_forest_relabel, lemma_forest_remove_child, lemma_forest_move, lemma_walk_decides, lemma_drop_absent};
use super::reach::{reaches, kids};

verus! {

broadcast use vstd::std_specs::hash::group_hash_axioms;

/// Whether a node lives in slot `id` of `s`.
pub open spec fn slot_live(s: Seq<Option<NodeView>>, id: NodeId) -> bool {
    (id.0 as int) < s.len() && s[id.0 as int] is Some
}

/// `s` with `c` dropped from the children of the node in slot `p`.
pub open spec fn without_child(s: Seq<Option<NodeView>>, p: NodeId, c: NodeId) -> Seq<Option<NodeView>> {
    s.update(p.0 as int, Some(NodeView { children: drop_id(s[p.0 as int].unwrap().children, c), ..s[p.0 as int].unwrap() }))
}

/// `s` with `c` appended to the children of the node in slot `p`.
pub open spec fn with_child(s: Seq<Option<NodeView>>, p: NodeId, c: NodeId) -> Seq<Option<NodeView>> {
    s.update(p.0 as int, Some(NodeView { children: s[p.0 as int].unwrap().children.push(c), ..s[p.0 as int].unwrap() }))
}

/// `s` with the node in slot `c` given parent `p` and marked for a transform
/// update.
pub open spec fn with_parent(s: Seq<Option<NodeView>>, c: NodeId, p: Option<NodeId>) -> Seq<Option<NodeView>> {
    s.update(c.0 as int, Some(NodeView { parent: p, transform_dirty: true, ..s[c.0 as int].unwrap() }))
}

/// `s` with `c` dropped from the children of its recorded parent, if `c` and
/// that parent are live.
pub open spec fn detached(s: Seq<Option<NodeView>>, c: NodeId) -> Seq<Option<NodeView>> {
    if slot_live(s, c) && s[c.0 as int].unwrap().parent is Some && slot_live(s, s[c.0 as int].unwrap().parent.unwrap()) {
        without_child(s, s[c.0 as int].unwrap().parent.unwrap(), c)
    } else {
        s
    }
}

/// The walk up the parent links from `cur` in search of `anc`: `Some(true)`
/// when some parent on the way is `anc`; `Some(false)` when the walk reaches an
/// empty slot or a node without a parent first; `None` when it comes back to
/// a node it has passed (`visited` holds the slots passed so far).
pub open spec fn ancestor_walk(s: Seq<Option<NodeView>>, anc: NodeId, cur: NodeId, visited: Set<u32>, fuel: nat) -> Option<bool>
    decreases fuel,
{
    if fuel == 0 {
        None
    } else if !slot_live(s, cur) {
        Some(false)
    } else if visited.contains(cur.0) {
        None
    } else {
        match s[cur.0 as int].unwrap().parent {
            None => Some(false),
            Some(p) => if p == anc {
                Some(true)
            } else {
                ancestor_walk(s, anc, p, visited.insert(cur.0), (fuel - 1) as nat)
            },
        }
    }
}

/// Enough fuel for a walk that has passed only live slots: the walk never
/// runs out.
proof fn lemma_walk_fuel(s: Seq<Option<NodeView>>, anc: NodeId, cur: NodeId, visited: Set<u32>, fuel: nat)
    requires
        visited.finite(),
        forall|v: u32| visited.contains(v) ==> (v as int) < s.len(),
        fuel >= s.len() + 1 - visited.len(),
        s.len() <= u32::MAX,
    ensures
        ancestor_walk(s, anc, cur, visited, fuel) == ancestor_walk(s, anc, cur, visited, fuel + 1),
    decreases fuel,
{
    let range = Set::<u32>::range(0, s.len() as u32);
    vstd::set_lib::range_set_properties::<u32>(0, s.len() as u32);
    assert(visited.subset_of(range));
    vstd::set_lib::lemma_len_subset(visited, range);
    if fuel > 0 && slot_live(s, cur) && !visited.contains(cur.0) {
        match s[cur.0 as int].unwrap().parent {
            None => {},
            Some(p) => if p != anc {
                lemma_walk_fuel(s, anc, p, visited.insert(cur.0), (fuel - 1) as nat);
            },
        }
    } else if fuel == 0 {
        assert(false);
    }
}

impl SceneGraph {
    /// Whether `self` and `other` have the same name index, free slots, next
    /// slot number and root.
    pub open spec fn same_index(&self, other: SceneGraph) -> bool {
        &&& self.names() == other.names()
        &&& self.free() == other.free()
        &&& self.next_id_spec() == other.next_id_spec()
        &&& self.root_spec() == other.root_spec()
    }

    /// The walk up the parent links from `desc` in search of `anc` (see
    /// `ancestor_walk`).
    pub open spec fn parent_walk(&self, anc: NodeId, desc: NodeId) -> Option<bool> {
        ancestor_walk(self.slots(), anc, desc, Set::empty(), (self.slots().len() + 1) as nat)
    }

    /// Sets the local position of the node in slot `id` and marks its
    /// transform and bounds for an update.
    pub fn set_position(&mut self, id: NodeId, position: glam::Vec3) -> (r: Result<(), SceneError>)
        requires
            old(self).wf(),
        ensures
            final(self).wf(),
            old(self).forest() ==> final(self).forest(),
            final(self).same_index(*old(self)),
            r == (if old(self).live(id) { Ok(()) } else { Err(SceneError::NodeNotFound(id)) }),
            final(self).slots() == (if old(self).live(id) {
                old(self).slots().update(id.0 as int, Some(NodeView {
                    transform: Transform { position, ..old(self).node(id).transform },
                    transform_dirty: true,
                    bounds_dirty: true,
                    ..old(self).node(id)
                }))
            } else {
                old(self).slots()
            }),
    {
        match self.get_mut(id) {
            Ok(n) => {
                n.transform.position = position;
                n.mark_transform_dirty();
            },
            Err(e) => {
                return Err(e);
            },
        }
        proof {
            SceneGraph::lemma_wf_same_shape(*old(self), *self);
            if old(self).forest() {
                lemma_forest_relabel(old(self).slots(), id, self.node(id));
            }
        }
        Ok(())
    }

    /// Sets the local rotation of the node in slot `id` and marks its
    /// transform and bounds for an update.
    pub fn set_rotation(&mut self, id: NodeId, rotation: glam::Quat) -> (r: Result<(), SceneError>)
        requires
            old(self).wf(),
        ensures
            final(self).wf(),
            old(self).forest() ==> final(self).forest(),
            final(self).same_index(*old(self)),
            r == (if old(self).live(id) { Ok(()) } else { Err(SceneError::NodeNotFound(id)) }),
            final(self).slots() == (if old(self).live(id) {
                old(self).slots().update(id.0 as int, Some(NodeView {
                    transform: Transform { rotation, ..old(self).node(id).transform },
                    transform_dirty: true,
                    bounds_dirty: true,
                    ..old(self).node(id)
                }))
            } else {
                old(self).slots()
            }),
    {
        match self.get_mut(id) {
            Ok(n) => {
                n.transform.rotation = rotation;
                n.mark_transform_dirty();
            },
            Err(e) => {
                return Err(e);
            },
        }
        proof {
            SceneGraph::lemma_wf_same_shape(*old(self), *self);
            if old(self).forest() {
                lemma_forest_relabel(old(self).slots(), id, self.node(id));
            }
        }
        Ok(())
    }

    /// Sets the local scale of the node in slot `id` and marks its transform
    /// and bounds for an update.
    pub fn set_scale(&mut self, id: NodeId, scale: glam::Vec3) -> (r: Result<(), SceneError>)
        requires
            old(self).wf(),
        ensures
            final(self).wf(),
            old(self).forest() ==> final(self).forest(),
            final(self).same_index(*old(self)),
            r == (if old(self).live(id) { Ok(()) } else { Err(SceneError::NodeNotFound(id)) }),
            final(self).slots() == (if old(self).live(id) {
                old(self).slots().update(id.0 as int, Some(NodeView {
                    transform: Transform { scale, ..old(self).node(id).transform },
                    transform_dirty: true,
                    bounds_dirty: true,
                    ..old(self).node(id)
                }))
            } else {
                old(self).slots()
            }),
    {
        match self.get_mut(id) {
            Ok(n) => {
                n.transform.scale = scale;
                n.mark_transform_dirty();
            },
            Err(e) => {
                return Err(e);
            },
        }
        proof {
            SceneGraph::lemma_wf_same_shape(*old(self), *self);
            if old(self).forest() {
                lemma_forest_relabel(old(self).slots(), id, self.node(id));
            }
        }
        Ok(())
    }

    /// Drops `child` from the children of `parent`, then detaches `child`:
    /// its parent is cleared and its transform marked for an update. The
    /// first step stands even when the second finds no node in `child`'s slot.
    pub fn remove_child(&mut self, parent: NodeId, child: NodeId) -> (r: Result<(), SceneError>)
        requires
            old(self).wf(),
        ensures
            final(self).wf(),
            final(self).same_index(*old(self)),
            !old(self).live(parent) ==> r == Err::<(), SceneError>(SceneError::NodeNotFound(parent))
                && final(self).slots() == old(self).slots(),
            old(self).live(parent) && !old(self).live(child) ==> r == Err::<(), SceneError>(SceneError::NodeNotFound(child))
                && final(self).slots() == without_child(old(self).slots(), parent, child),
            old(self).live(parent) && old(self).live(child) ==> r == Ok::<(), SceneError>(())
                && final(self).slots() == with_parent(without_child(old(self).slots(), parent, child), child, None),
            old(self).forest() && old(self).live(parent) && (old(self).live(child) ==> (old(self).node(child).parent is None
                || old(self).node(child).parent == Some(parent))) ==> final(self).forest(),
    {
        match self.get_mut(parent) {
            Ok(pn) => {
                let kept = without_id(&pn.children, child);
                pn.children = kept;
            },
            Err(e) => {
                return Err(e);
            },
        }
        proof {
            lemma_drop_id_from(old(self).node(parent).children, child);
            SceneGraph::lemma_wf_same_shape(*old(self), *self);
        }
        let ghost mid = *self;
        match self.get_mut(child) {
            Ok(cn) => {
                cn.parent = None;
                cn.transform_dirty = true;
            },
            Err(e) => {
                proof {
                    if old(self).forest() {
                        let s0 = old(self).slots();
                        assert(!kids(s0, parent).contains(child)) by {
                            if kids(s0, parent).contains(child) {
                                let k = choose|k: int| 0 <= k < kids(s0, parent).len() && kids(s0, parent)[k] == child;
                                assert(slot_live(s0, kids(s0, parent)[k]));
                            }
                        }
                        lemma_drop_absent(kids(s0, parent), child);
                        lemma_forest_relabel(s0, parent, self.node(parent));
                        assert(self.slots() == s0.update(parent.0 as int, Some(self.node(parent))));
                    }
                }
                return Err(e);
            },
        }
        proof {
            let len = mid.slots().len() as int;
            assert forall|i: int| 0 <= i < self.slots().len() && (#[trigger] self.slots()[i]) is Some implies refs_in_range(self.slots()[i].unwrap(), len) by {
                assert(mid.slots()[i] is Some);
                assert(refs_in_range(mid.slots()[i].unwrap(), len));
            }
            SceneGraph::lemma_wf_same_shape(mid, *self);
            if old(self).forest() && (old(self).node(child).parent is None || old(self).node(child).parent == Some(parent)) {
                lemma_forest_remove_child(old(self).slots(), parent, child);
            }
        }
        Ok(())
    }

    /// Walks up the parent links from `descendant` in search of `ancestor`
    /// (see `ancestor_walk`); a walk that comes back to a node it passed is
    /// refused as a circular dependency.
    fn is_ancestor(&self, ancestor: NodeId, descendant: NodeId) -> (r: Result<bool, SceneError>)
        requires
            self.wf(),
        ensures
            r == (match self.parent_walk(ancestor, descendant) {
                Some(b) => Ok::<bool, SceneError>(b),
                None => Err::<bool, SceneError>(SceneError::CircularDependency),
            }),
    {
        let mut current = descendant;
        let mut visited: HashSet<u32> = HashSet::new();
        let ghost len = self.slots().len();
        loop
            invariant
                self.wf(),
                len == self.slots().len(),
                visited@.finite(),
                forall|v: u32| visited@.contains(v) ==> (v as int) < len,
                self.parent_walk(ancestor, descendant) == ancestor_walk(self.slots(), ancestor, current, visited@, (len + 1 - visited@.len()) as nat),
            decreases len + 1 - visited@.len(),
        {
            proof {
                let range = Set::<u32>::range(0, len as u32);
                vstd::set_lib::range_set_properties::<u32>(0, len as u32);
                assert(visited@.subset_of(range));
                vstd::set_lib::lemma_len_subset(visited@, range);
                lemma_walk_fuel(self.slots(), ancestor, current, visited@, (len + 1 - visited@.len()) as nat);
            }
            if (current.0 as usize) >= self.nodes.len() {
                return Ok(false);
            }
            let parent = match &self.nodes[current.0 as usize] {
                Some(node) => node.parent,
                None => {
                    return Ok(false);
                },
            };
            proof {
                assert(self.slots()[current.0 as int] == Some(self.nodes@[current.0 as int].unwrap()@));
            }
            if !visited.insert(current.0) {
                return Err(SceneError::CircularDependency);
            }
            match parent {
                Some(p) => {
                    if p == ancestor {
                        return Ok(true);
                    }
                    proof {
                        assert(refs_in_range(self.slots()[current.0 as int].unwrap(), len as int));
                    }
                    current = p;
                },
                None => {
                    return Ok(false);
                },
            }
        }
    }

    /// Makes `child` a child of `parent`: refused as circular when `parent` is
    /// `child` or the walk up from `parent` finds `child` or a loop (see
    /// `parent_walk`); otherwise `child` is dropped from its former parent's
    /// children, appended to `parent`'s children, and given `parent` as its
    /// parent, its transform marked for an update. Each step stands even when a
    /// later one finds no node in the slot it needs.
    pub fn add_child(&mut self, parent: NodeId, child: NodeId) -> (r: Result<(), SceneError>)
        requires
            old(self).wf(),
            parent == child || old(self).parent_walk(child, parent) != Some(false)
                || (child.0 as int) < old(self).slots().len(),
        ensures
            final(self).wf(),
            final(self).same_index(*old(self)),
            parent == child || old(self).parent_walk(child, parent) != Some(false) ==>
                r == Err::<(), SceneError>(SceneError::CircularDependency) && final(self).slots() == old(self).slots(),
            parent != child && old(self).parent_walk(child, parent) == Some(false) ==> {
                let s1 = detached(old(self).slots(), child);
                let s2 = with_child(s1, parent, child);
                &&& !slot_live(s1, parent) ==> r == Err::<(), SceneError>(SceneError::NodeNotFound(parent)) && final(self).slots() == s1
                &&& slot_live(s1, parent) && !slot_live(s2, child) ==> r == Err::<(), SceneError>(SceneError::NodeNotFound(child))
                    && final(self).slots() == s2
                &&& slot_live(s1, parent) && slot_live(s2, child) ==> r == Ok::<(), SceneError>(())
                    && final(self).slots() == with_parent(s2, child, Some(parent))
            },
            old(self).forest() && old(self).live(parent) && old(self).live(child) ==> {
                &&& final(self).forest()
                &&& (r is Ok <==> parent != child && !reaches(old(self).slots(), child, parent))
                &&& r is Err ==> r == Err::<(), SceneError>(SceneError::CircularDependency)
            },
    {
        proof {
            if old(self).forest() && old(self).live(parent) && old(self).live(child) && parent != child {
                lemma_walk_decides(old(self).slots(), child, parent);
            }
        }
        if parent == child {
            return Err(SceneError::CircularDependency);
        }
        match self.is_ancestor(child, parent) {
            Ok(true) => {
                return Err(SceneError::CircularDependency);
            },
            Ok(false) => {},
            Err(e) => {
                return Err(e);
            },
        }
        let old_parent = match &self.nodes[child.0 as usize] {
            Some(n) => n.parent,
            None => None,
        };
        proof {
            if old(self).slots()[child.0 as int] is Some {
                assert(old(self).slots()[child.0 as int] == Some(old(self).nodes@[child.0 as int].unwrap()@));
                assert(refs_in_range(old(self).slots()[child.0 as int].unwrap(), old(self).slots().len() as int));
            }
        }
        if let Some(op) = old_parent {
            if self.nodes[op.0 as usize].is_some() {
                match self.get_mut(op) {
                    Ok(opn) => {
                        let kept = without_id(&opn.children, child);
                        opn.children = kept;
                    },
                    Err(_) => {},
                }
                proof {
                    lemma_drop_id_from(old(self).node(op).children, child);
                    SceneGraph::lemma_wf_same_shape(*old(self), *self);
                }
            }
        }
        proof {
            assert(self.slots() == detached(old(self).slots(), child));
        }
        let ghost s1 = *self;
        match self.get_mut(parent) {
            Ok(pn) => {
                pn.children.push(child);
            },
            Err(e) => {
                return Err(e);
            },
        }
        proof {
            let len = s1.slots().len() as int;
            assert((child.0 as int) < len);
            assert forall|i: int| 0 <= i < self.slots().len() && (#[trigger] self.slots()[i]) is Some implies refs_in_range(self.slots()[i].unwrap(), len) by {
                assert(s1.slots()[i] is Some);
                assert(refs_in_range(s1.slots()[i].unwrap(), len));
                if i == parent.0 {
                    let c = self.slots()[i].unwrap().children;
                    assert forall|k: int| 0 <= k < c.len() implies ((#[trigger] c[k]).0 as int) < len by {
                        if k < c.len() - 1 {
                            assert(c[k] == s1.slots()[i].unwrap().children[k]);
                        }
                    }
                }
            }
            SceneGraph::lemma_wf_same_shape(s1, *self);
        }
        let ghost s2 = *self;
        match self.get_mut(child) {
            Ok(cn) => {
                cn.parent = Some(parent);
                cn.transform_dirty = true;
            },
            Err(e) => {
                return Err(e);
            },
        }
        proof {
            let len = s2.slots().len() as int;
            assert forall|i: int| 0 <= i < self.slots().len() && (#[trigger] self.slots()[i]) is Some implies refs_in_range(self.slots()[i].unwrap(), len) by {
                assert(s2.slots()[i] is Some);
                assert(refs_in_range(s2.slots()[i].unwrap(), len));
            }
            SceneGraph::lemma_wf_same_shape(s2, *self);
            if old(self).forest() && old(self).live(parent) && old(self).live(child) {
                lemma_forest_move(old(self).slots(), parent, child);
            }
        }
        Ok(())
    }
}

} // verus!
