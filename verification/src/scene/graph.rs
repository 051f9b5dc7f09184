//! Building, reading and rearranging the scene graph.

use vstd::prelude::*;
use super::{NodeId, NodeView, SceneError, SceneGraph, SceneNode, refs_in_range};
use super::names::{name_index_new, name_index_insert, name_index_get};
use super::hierarchy::slot_live;
use super::reach::{kids, ranked_closed};
use super::forest::{links_agree, parent_of, lemma_forest_add_fresh};

verus! {

/// `s` without any occurrence of `x`, the rest in order.
pub open spec fn drop_id(s: Seq<NodeId>, x: NodeId) -> Seq<NodeId> {
    s.filter(|c: NodeId| c != x)
}

/// Every element of `drop_id(s, x)` is an element of `s` other than `x`.
pub proof fn lemma_drop_id_from(s: Seq<NodeId>, x: NodeId)
    ensures
        forall|i: int| 0 <= i < drop_id(s, x).len() ==> s.contains(#[trigger] drop_id(s, x)[i]) && drop_id(s, x)[i] != x,
        drop_id(s, x).len() <= s.len(),
    decreases s.len(),
{
    reveal(Seq::filter);
    if s.len() > 0 {
        lemma_drop_id_from(s.drop_last(), x);
        assert forall|i: int| 0 <= i < drop_id(s, x).len() implies s.contains(#[trigger] drop_id(s, x)[i]) && drop_id(s, x)[i] != x by {
            let d = drop_id(s.drop_last(), x);
            if i < d.len() {
                assert(drop_id(s, x)[i] == d[i]);
                let k = choose|k: int| 0 <= k < s.drop_last().len() && s.drop_last()[k] == d[i];
                assert(s[k] == d[i]);
            } else {
                assert(drop_id(s, x)[i] == s.last());
            }
        }
    }
}

/// A copy of `v` without any occurrence of `x`.
pub(crate) fn without_id(v: &Vec<NodeId>, x: NodeId) -> (r: Vec<NodeId>)
    ensures
        r@ == drop_id(v@, x),
{
    let mut r: Vec<NodeId> = Vec::new();
    let mut i: usize = 0;
    while i < v.len()
        invariant
            i <= v@.len(),
            r@ == drop_id(v@.take(i as int), x),
        decreases v@.len() - i,
    {
        proof {
            reveal(Seq::filter);
            assert(v@.take(i as int + 1).drop_last() =~= v@.take(i as int));
        }
        let c = v[i];
        if c != x {
            r.push(c);
        }
        i = i + 1;
    }
    proof {
        assert(v@.take(v@.len() as int) =~= v@);
    }
    r
}

impl Default for SceneGraph {
    /// A graph holding only its root (see `new`).
    fn default() -> (g: Self)
        ensures
            g.wf(),
            g.forest(),
            g.slots().len() == 1,
            g.live(NodeId(0)),
            g.node(NodeId(0)).is_fresh(),
            g.node(NodeId(0)).name == "Root"@,
            g.names() == map!["Root"@ => 0u32],
            g.free().len() == 0,
            g.root_spec() == NodeId(0),
    {
        SceneGraph::new()
    }
}

/// The live slots among the first `n`, in slot order.
pub open spec fn live_ids_upto(s: Seq<Option<NodeView>>, n: nat) -> Seq<NodeId>
    decreases n,
{
    if n == 0 {
        Seq::empty()
    } else {
        let before = live_ids_upto(s, (n - 1) as nat);
        if s[n - 1] is Some {
            before.push(NodeId((n - 1) as u32))
        } else {
            before
        }
    }
}

/// The live slots, in slot order.
pub open spec fn live_ids(s: Seq<Option<NodeView>>) -> Seq<NodeId> {
    live_ids_upto(s, s.len())
}

impl SceneGraph {
    /// The slot that `add_node` fills next: the last freed slot if any,
    /// otherwise a new slot at the end.
    pub open spec fn next_slot(&self) -> NodeId {
        if self.free().len() > 0 {
            self.free().last()
        } else {
            NodeId(self.next_id_spec())
        }
    }

    /// A graph holding only its root, a fresh node named "Root" in slot 0.
    pub fn new() -> (g: Self)
        ensures
            g.wf(),
            g.slots().len() == 1,
            g.live(NodeId(0)),
            g.node(NodeId(0)).is_fresh(),
            g.node(NodeId(0)).name == "Root"@,
            g.names() == map!["Root"@ => 0u32],
            g.free().len() == 0,
            g.next_id_spec() == 1,
            g.root_spec() == NodeId(0),
            g.forest(),
    {
        let mut nodes: Vec<Option<SceneNode>> = Vec::new();
        nodes.push(Some(SceneNode::new("Root")));
        let mut name_map = name_index_new();
        name_index_insert(&mut name_map, String::from_str("Root"), 0);
        let g = SceneGraph { nodes, name_map, root: NodeId(0), free_list: Vec::new(), next_id: 1 };
        proof {
            assert(g.names() =~= map!["Root"@ => 0u32]);
            let s = g.slots();
            assert forall|x: NodeId| #[trigger] kids(s, x) =~= Seq::<NodeId>::empty() by {}
            let rank = |x: NodeId| 0nat;
            assert(ranked_closed(s, Set::full(), rank));
            assert forall|x: NodeId| #[trigger] slot_live(s, x) && parent_of(s, x) is Some implies {
                &&& slot_live(s, parent_of(s, x).unwrap())
                &&& kids(s, parent_of(s, x).unwrap()).contains(x)
            } by {
                assert(x.0 == 0);
            }
            assert(links_agree(s));
        }
        g
    }

    /// Adds `node` as a detached node in the next slot (see `next_slot`),
    /// marked for a transform update, and registers its name if it has one.
    pub fn add_node(&mut self, node: SceneNode) -> (id: NodeId)
        requires
            old(self).wf(),
            old(self).free().len() > 0 || old(self).next_id_spec() < u32::MAX,
            refs_in_range(node@, old(self).slots().len() + (if old(self).free().len() > 0 { 0int } else { 1int })),
        ensures
            final(self).wf(),
            id == old(self).next_slot(),
            !old(self).live(id),
            final(self).live(id),
            old(self).free().len() == 0 ==> id.0 == old(self).slots().len(),
            final(self).slots() == (if old(self).free().len() > 0 {
                old(self).slots().update(id.0 as int, Some(NodeView { transform_dirty: true, ..node@ }))
            } else {
                old(self).slots().push(Some(NodeView { transform_dirty: true, ..node@ }))
            }),
            final(self).names() == (if node@.name.len() > 0 {
                old(self).names().insert(node@.name, id.0)
            } else {
                old(self).names()
            }),
            final(self).free() == (if old(self).free().len() > 0 {
                old(self).free().drop_last()
            } else {
                old(self).free()
            }),
            final(self).next_id_spec() == (if old(self).free().len() > 0 {
                old(self).next_id_spec() as int
            } else {
                old(self).next_id_spec() + 1
            }),
            final(self).root_spec() == old(self).root_spec(),
            old(self).forest() && node@.parent is None && node@.children.len() == 0 ==> final(self).forest(),
    {
        let ghost given = node;
        let mut node = node;
        let id = match self.free_list.pop() {
            Some(recycled) => recycled,
            None => {
                let id = NodeId(self.next_id);
                self.next_id = self.next_id + 1;
                self.nodes.push(None);
                id
            },
        };
        if !node.name.as_str().is_empty() {
            name_index_insert(&mut self.name_map, node.name.clone(), id.0);
        }
        node.transform_dirty = true;
        self.nodes.set(id.0 as usize, Some(node));
        proof {
            let len = self.slots().len();
            assert(self.slots() =~= (if old(self).free().len() > 0 {
                old(self).slots().update(id.0 as int, Some(NodeView { transform_dirty: true, ..given@ }))
            } else {
                old(self).slots().push(Some(NodeView { transform_dirty: true, ..given@ }))
            }));
            assert(len == old(self).slots().len() + (if old(self).free().len() > 0 { 0int } else { 1int }));
            assert forall|i: int| 0 <= i < len && (#[trigger] self.slots()[i]) is Some implies refs_in_range(self.slots()[i].unwrap(), len as int) by {
                if i != id.0 {
                    assert(refs_in_range(old(self).slots()[i].unwrap(), old(self).slots().len() as int));
                }
            }
            assert forall|k: int| 0 <= k < self.free_list@.len() implies {
                &&& (#[trigger] self.free_list@[k]).0 < self.slots().len()
                &&& self.slots()[self.free_list@[k].0 as int] is None
            } by {
                assert(old(self).free_list@[k] == self.free_list@[k]);
                if old(self).free_list@.len() > 0 {
                    assert(old(self).free_list@[k] != old(self).free_list@[old(self).free_list@.len() - 1]);
                }
            }
            if old(self).forest() && given@.parent is None && given@.children.len() == 0 {
                if old(self).free().len() > 0 {
                    assert(old(self).free()[old(self).free().len() - 1] == id);
                    assert(!slot_live(old(self).slots(), id));
                }
                lemma_forest_add_fresh(old(self).slots(), self.slots(), id, NodeView { transform_dirty: true, ..given@ });
            }
        }
        id
    }

    /// The node in slot `id`, if one lives there.
    pub fn get(&self, id: NodeId) -> (r: Result<&SceneNode, SceneError>)
        ensures
            match r {
                Ok(n) => self.live(id) && n@ == self.node(id),
                Err(e) => !self.live(id) && e == SceneError::NodeNotFound(id),
            },
    {
        if (id.0 as usize) < self.nodes.len() {
            match &self.nodes[id.0 as usize] {
                Some(n) => Ok(n),
                None => Err(SceneError::NodeNotFound(id)),
            }
        } else {
            Err(SceneError::NodeNotFound(id))
        }
    }

    /// Mutable access to the node in slot `id`, if one lives there.
    pub fn get_mut(&mut self, id: NodeId) -> (r: Result<&mut SceneNode, SceneError>)
        ensures
            match r {
                Ok(n) => {
                    &&& old(self).live(id)
                    &&& n@ == old(self).node(id)
                    &&& final(self).slots() == old(self).slots().update(id.0 as int, Some(final(n)@))
                    &&& final(self).names() == old(self).names()
                    &&& final(self).free() == old(self).free()
                    &&& final(self).next_id_spec() == old(self).next_id_spec()
                    &&& final(self).root_spec() == old(self).root_spec()
                },
                Err(e) => {
                    &&& !old(self).live(id)
                    &&& e == SceneError::NodeNotFound(id)
                    &&& *final(self) == *old(self)
                },
            },
    {
        if (id.0 as usize) >= self.nodes.len() || self.nodes[id.0 as usize].is_none() {
            return Err(SceneError::NodeNotFound(id));
        }
        match self.nodes[id.0 as usize].as_mut() {
            Some(n) => Ok(n),
            None => Err(SceneError::NodeNotFound(id)),
        }
    }

    /// The slot registered under `name`, if any.
    pub fn find_by_name(&self, name: &str) -> (r: Option<NodeId>)
        ensures
            r == (if self.names().contains_key(name@) {
                Some(NodeId(self.names()[name@]))
            } else {
                None::<NodeId>
            }),
    {
        match name_index_get(&self.name_map, name) {
            Some(i) => Some(NodeId(i)),
            None => None,
        }
    }

    /// Every live slot with its node, in slot order.
    pub fn iter(&self) -> (r: Vec<(NodeId, &SceneNode)>)
        requires
            self.wf(),
        ensures
            r@.len() == live_ids(self.slots()).len(),
            forall|k: int| 0 <= k < r@.len() ==> (#[trigger] r@[k]).0 == live_ids(self.slots())[k]
                && r@[k].1@ == self.node(r@[k].0),
    {
        let mut r: Vec<(NodeId, &SceneNode)> = Vec::new();
        let mut i: usize = 0;
        while i < self.nodes.len()
            invariant
                self.wf(),
                i <= self.nodes@.len(),
                r@.len() == live_ids_upto(self.slots(), i as nat).len(),
                forall|k: int| 0 <= k < r@.len() ==> (#[trigger] r@[k]).0 == live_ids_upto(self.slots(), i as nat)[k]
                    && r@[k].1@ == self.node(r@[k].0),
            decreases self.nodes@.len() - i,
        {
            let ghost before = r@;
            match &self.nodes[i] {
                Some(n) => {
                    proof {
                        assert(self.slots()[i as int] == Some(n@));
                    }
                    r.push((NodeId(i as u32), n));
                },
                None => {},
            }
            i = i + 1;
        }
        r
    }

    /// The number of slots, live or free.
    pub fn slot_count(&self) -> (n: usize)
        ensures
            n == self.slots().len(),
    {
        self.nodes.len()
    }

    /// The root's slot.
    pub fn root(&self) -> (r: NodeId)
        ensures
            r == self.root_spec(),
    {
        self.root
    }
}

} // verus!
