//! Scene files: the plain data that a scene is saved as and loaded from.
//!
//! A file lists the nodes below the root. Each node names its children by
//! their names; when two nodes share a name, the later one is the one that
//! name refers to.

use vstd::prelude::*;
use crate::math::Transform;
use super::{NodeId, NodeView, SceneGraph};
use super::graph::{drop_id, live_ids};
use super::hierarchy::slot_live;

verus! {

/// Asset paths used by a scene, as (name, path) pairs of meshes, textures and
/// materials.
#[derive(Debug, Clone)]
pub struct AssetReferences {
    pub meshes: Vec<(String, String)>,
    pub textures: Vec<(String, String)>,
    pub materials: Vec<(String, String)>,
}

impl Default for AssetReferences {
    /// No assets.
    fn default() -> (a: Self)
        ensures
            a.meshes@.len() == 0,
            a.textures@.len() == 0,
            a.materials@.len() == 0,
    {
        AssetReferences { meshes: Vec::new(), textures: Vec::new(), materials: Vec::new() }
    }
}

/// One saved node.
#[derive(Debug, Clone)]
pub struct NodeData {
    pub name: String,
    pub transform: Transform,
    /// The names of the node's children, in order.
    pub children: Vec<String>,
    pub tags: Vec<String>,
    pub active: bool,
}

/// The model of a saved node.
pub struct NodeDataView {
    pub name: Seq<char>,
    pub transform: Transform,
    pub children: Seq<Seq<char>>,
    pub tags: Seq<Seq<char>>,
    pub active: bool,
}

impl View for NodeData {
    type V = NodeDataView;

    open spec fn view(&self) -> NodeDataView {
        NodeDataView {
            name: self.name@,
            transform: self.transform,
            children: super::string_views(self.children@),
            tags: super::string_views(self.tags@),
            active: self.active,
        }
    }
}

/// A saved scene.
#[derive(Debug, Clone)]
pub struct SceneFile {
    pub version: String,
    pub nodes: Vec<NodeData>,
    pub assets: AssetReferences,
}

/// The names of the live nodes among `cs`, in order.
pub open spec fn child_names(s: Seq<Option<NodeView>>, cs: Seq<NodeId>) -> Seq<Seq<char>>
    decreases cs.len(),
{
    if cs.len() == 0 {
        Seq::empty()
    } else {
        let before = child_names(s, cs.drop_last());
        if slot_live(s, cs.last()) {
            before.push(s[cs.last().0 as int].unwrap().name)
        } else {
            before
        }
    }
}

/// How the node in slot `x` is saved: its name, transform, tags and active
/// flag, and the names of its live children.
pub open spec fn saved_node(s: Seq<Option<NodeView>>, x: NodeId) -> NodeDataView {
    let n = s[x.0 as int].unwrap();
    NodeDataView {
        name: n.name,
        transform: n.transform,
        children: child_names(s, n.children),
        tags: n.tags,
        active: n.active,
    }
}

/// The slots that a scene saves: every live slot but the root's, in order.
pub open spec fn saved_ids(s: Seq<Option<NodeView>>, root: NodeId) -> Seq<NodeId> {
    drop_id(live_ids(s), root)
}

impl SceneGraph {
    /// The names of the live nodes among `cs`.
    fn names_of_children(&self, cs: &[NodeId]) -> (r: Vec<String>)
        ensures
            super::string_views(r@) == child_names(self.slots(), cs@),
    {
        let mut r: Vec<String> = Vec::new();
        let mut i: usize = 0;
        while i < cs.len()
            invariant
                i <= cs@.len(),
                super::string_views(r@) == child_names(self.slots(), cs@.take(i as int)),
            decreases cs@.len() - i,
        {
            proof {
                assert(cs@.take(i as int + 1).drop_last() =~= cs@.take(i as int));
            }
            match self.get(cs[i]) {
                Ok(n) => {
                    let ghost before = r@;
                    r.push(n.name.clone());
                    proof {
                        assert(super::string_views(r@) =~= super::string_views(before).push(n.name@));
                    }
                },
                Err(_) => {},
            }
            i = i + 1;
        }
        proof {
            assert(cs@.take(cs@.len() as int) =~= cs@);
        }
        r
    }

    /// The scene as file data: every node but the root, in slot order, with
    /// its children named; version "1.0" and no assets.
    pub fn to_scene_file(&self) -> (f: SceneFile)
        requires
            self.wf(),
        ensures
            f.version@ == "1.0"@,
            f.nodes@.len() == saved_ids(self.slots(), self.root_spec()).len(),
            forall|k: int| 0 <= k < f.nodes@.len() ==> (#[trigger] f.nodes@[k])@ == saved_node(
                self.slots(),
                saved_ids(self.slots(), self.root_spec())[k],
            ),
            f.assets.meshes@.len() == 0,
            f.assets.textures@.len() == 0,
            f.assets.materials@.len() == 0,
    {
        let entries = self.iter();
        let root = self.root();
        let ghost ids = live_ids(self.slots());
        let mut nodes: Vec<NodeData> = Vec::new();
        let mut i: usize = 0;
        while i < entries.len()
            invariant
                self.wf(),
                root == self.root_spec(),
                entries@.len() == ids.len(),
                ids == live_ids(self.slots()),
                forall|k: int| 0 <= k < entries@.len() ==> (#[trigger] entries@[k]).0 == ids[k]
                    && entries@[k].1@ == self.node(entries@[k].0),
                i <= entries@.len(),
                nodes@.len() == drop_id(ids.take(i as int), root).len(),
                forall|k: int| 0 <= k < nodes@.len() ==> (#[trigger] nodes@[k])@ == saved_node(
                    self.slots(),
                    drop_id(ids.take(i as int), root)[k],
                ),
            decreases entries@.len() - i,
        {
            proof {
                reveal(Seq::filter);
                assert(ids.take(i as int + 1).drop_last() =~= ids.take(i as int));
                assert(ids.take(i as int + 1).last() == ids[i as int]);
            }
            let (id, node) = entries[i];
            if id != root {
                let children = self.names_of_children(node.children());
                let data = NodeData {
                    name: node.name.clone(),
                    transform: node.transform,
                    children,
                    tags: node.tags.clone(),
                    active: node.active,
                };
                proof {
                    assert(node@.children == self.node(id).children);
                    assert(data@ == saved_node(self.slots(), id));
                }
                nodes.push(data);
            }
            i = i + 1;
        }
        proof {
            assert(ids.take(ids.len() as int) =~= ids);
            reveal_strlit("1.0");
        }
        SceneFile { version: String::from_str("1.0"), nodes, assets: AssetReferences::default() }
    }
}

} // verus!
