use rustforge::math::Transform;
use rustforge::scene::cache::TransformCache;
use rustforge::scene::file::{AssetReferences, NodeData, SceneFile};
use rustforge::scene::{BoundingBox, NodeId, SceneError, SceneGraph, SceneNode};
use glam::{Mat4, Quat, Vec3};

#[test]
fn test_node_id() {
    let id = NodeId(42);
    assert!(id.is_valid());
    assert_eq!(id.to_string(), "Node(42)");

    let invalid = NodeId::invalid();
    assert!(!invalid.is_valid());
}

#[test]
fn test_scene_node_creation() {
    let node = SceneNode::new("Player");
    assert_eq!(node.name, "Player");
    assert!(node.active);
    assert!(node.is_transform_dirty());
    assert_eq!(node.children().len(), 0);
    assert!(node.parent().is_none());
}

#[test]
fn test_scene_node_builder() {
    let transform = Transform {
        position: Vec3::new(1.0, 2.0, 3.0),
        rotation: Quat::from_rotation_y(1.57),
        scale: Vec3::splat(2.0),
    };

    let node = SceneNode::new("Enemy").with_transform(transform).with_tags(&["enemy", "ai"]);

    assert_eq!(node.transform.position, Vec3::new(1.0, 2.0, 3.0));
    assert!(node.tags.contains(&"enemy".to_string()));
    assert!(node.tags.contains(&"ai".to_string()));
    assert_eq!(node.tags.len(), 2);
}

#[test]
fn with_tags_keeps_each_name_once_in_first_order() {
    let node = SceneNode::new("N").with_tags(&["b", "a", "b", "c", "a"]);
    assert_eq!(node.tags, vec!["b".to_string(), "a".to_string(), "c".to_string()]);
}

#[test]
fn default_node_is_unnamed_and_fresh() {
    let node = SceneNode::default();
    assert_eq!(node.name, "");
    assert!(node.active);
    assert!(node.is_transform_dirty());
    assert!(node.bounds().is_none());
}

#[test]
fn test_bounding_box_from_points() {
    let points = vec![Vec3::new(0.0, 0.0, 0.0), Vec3::new(2.0, 1.0, 1.0), Vec3::new(-1.0, 2.0, 0.5)];

    let bb = BoundingBox::from_points(&points).unwrap();
    assert_eq!(bb.min, Vec3::new(-1.0, 0.0, 0.0));
    assert_eq!(bb.max, Vec3::new(2.0, 2.0, 1.0));
}

#[test]
fn bounding_box_of_no_points_is_none() {
    assert!(BoundingBox::from_points(&[]).is_none());
}

#[test]
fn test_scene_graph_creation() {
    let graph = SceneGraph::new();
    assert_eq!(graph.root(), NodeId(0));

    let root = graph.get(graph.root()).unwrap();
    assert_eq!(root.name, "Root");
}

#[test]
fn test_add_remove_nodes() {
    let mut graph = SceneGraph::new();

    let _player_id = graph.add_node(SceneNode::new("Player"));
    let weapon_id = graph.add_node(SceneNode::new("Weapon"));

    assert!(graph.find_by_name("Player").is_some());
    assert!(graph.find_by_name("Weapon").is_some());

    graph.remove_node(weapon_id).unwrap();
    assert!(graph.find_by_name("Weapon").is_none());
    assert!(graph.get(weapon_id).is_err());
}

#[test]
fn test_hierarchy() {
    let mut graph = SceneGraph::new();

    let parent_id = graph.add_node(SceneNode::new("Parent"));
    let child1_id = graph.add_node(SceneNode::new("Child1"));
    let child2_id = graph.add_node(SceneNode::new("Child2"));

    graph.add_child(parent_id, child1_id).unwrap();
    graph.add_child(parent_id, child2_id).unwrap();

    let parent = graph.get(parent_id).unwrap();
    assert_eq!(parent.children().len(), 2);

    let child1 = graph.get(child1_id).unwrap();
    assert_eq!(child1.parent(), Some(parent_id));
}

#[test]
fn test_circular_dependency_prevention() {
    let mut graph = SceneGraph::new();

    let a = graph.add_node(SceneNode::new("A"));
    let b = graph.add_node(SceneNode::new("B"));
    let c = graph.add_node(SceneNode::new("C"));

    graph.add_child(a, b).unwrap();
    graph.add_child(b, c).unwrap();

    let result = graph.add_child(c, a);
    assert!(matches!(result, Err(SceneError::CircularDependency)));
}

#[test]
fn refused_moves_leave_the_graph_unchanged() {
    let mut graph = SceneGraph::new();
    let a = graph.add_node(SceneNode::new("A"));
    let b = graph.add_node(SceneNode::new("B"));
    graph.add_child(a, b).unwrap();
    assert_eq!(graph.add_child(a, a), Err(SceneError::CircularDependency));
    assert_eq!(graph.add_child(b, a), Err(SceneError::CircularDependency));
    assert_eq!(graph.get(a).unwrap().children(), &[b][..]);
    assert_eq!(graph.get(a).unwrap().parent(), None);
    assert_eq!(graph.get(b).unwrap().parent(), Some(a));
}

#[test]
fn moving_a_child_detaches_it_from_its_former_parent() {
    let mut graph = SceneGraph::new();
    let a = graph.add_node(SceneNode::new("A"));
    let b = graph.add_node(SceneNode::new("B"));
    let c = graph.add_node(SceneNode::new("C"));
    graph.add_child(a, c).unwrap();
    graph.add_child(b, c).unwrap();
    assert_eq!(graph.get(a).unwrap().children().len(), 0);
    assert_eq!(graph.get(b).unwrap().children(), &[c][..]);
    assert_eq!(graph.get(c).unwrap().parent(), Some(b));
    let gone = graph.add_node(SceneNode::new("Gone"));
    graph.remove_node(gone).unwrap();
    assert_eq!(graph.add_child(a, gone), Err(SceneError::NodeNotFound(gone)));
    assert_eq!(graph.get(a).unwrap().children(), &[gone][..]);
}

#[test]
fn remove_child_detaches_both_sides() {
    let mut graph = SceneGraph::new();
    let a = graph.add_node(SceneNode::new("A"));
    let b = graph.add_node(SceneNode::new("B"));
    graph.add_child(a, b).unwrap();
    graph.remove_child(a, b).unwrap();
    assert_eq!(graph.get(a).unwrap().children().len(), 0);
    assert_eq!(graph.get(b).unwrap().parent(), None);
    assert!(graph.get(b).unwrap().is_transform_dirty());
    assert_eq!(graph.remove_child(NodeId(7), b), Err(SceneError::NodeNotFound(NodeId(7))));
}

#[test]
fn test_transform_propagation() {
    let mut graph = SceneGraph::new();

    let parent_id = graph.add_node(SceneNode::new("Parent"));
    let child_id = graph.add_node(SceneNode::new("Child"));

    graph.add_child(graph.root(), parent_id).unwrap();
    graph.add_child(parent_id, child_id).unwrap();
    graph.set_position(parent_id, Vec3::new(10.0, 0.0, 0.0)).unwrap();
    graph.set_position(child_id, Vec3::new(5.0, 0.0, 0.0)).unwrap();

    graph.update_transforms();

    let child = graph.get(child_id).unwrap();
    let world_pos = child.world_position();
    assert_eq!(world_pos, Vec3::new(15.0, 0.0, 0.0));
}

#[test]
fn update_reaches_every_node() {
    let mut graph = SceneGraph::new();
    let a = graph.add_node(SceneNode::new("A"));
    let loose = graph.add_node(SceneNode::new("Loose"));
    let below = graph.add_node(SceneNode::new("Below"));
    graph.add_child(graph.root(), a).unwrap();
    graph.add_child(loose, below).unwrap();
    graph.set_position(loose, Vec3::new(3.0, 0.0, 0.0)).unwrap();
    graph.set_position(below, Vec3::new(0.0, 2.0, 0.0)).unwrap();
    graph.update_transforms();
    assert!(!graph.get(a).unwrap().is_transform_dirty());
    assert!(!graph.get(loose).unwrap().is_transform_dirty());
    assert!(!graph.get(below).unwrap().is_transform_dirty());
    assert_eq!(graph.get(loose).unwrap().world_position(), Vec3::new(3.0, 0.0, 0.0));
    assert_eq!(graph.get(below).unwrap().world_position(), Vec3::new(3.0, 2.0, 0.0));
    assert_eq!(graph.set_scale(NodeId(40), Vec3::ONE), Err(SceneError::NodeNotFound(NodeId(40))));
    graph.set_rotation(a, Quat::from_rotation_z(0.5)).unwrap();
    assert!(graph.get(a).unwrap().is_transform_dirty());
}

#[test]
fn updating_twice_changes_nothing() {
    let mut graph = SceneGraph::new();
    let a = graph.add_node(SceneNode::new("A"));
    let b = graph.add_node(SceneNode::new("B"));
    graph.add_child(a, b).unwrap();
    graph.set_position(a, Vec3::new(1.0, 2.0, 3.0)).unwrap();
    graph.set_rotation(b, Quat::from_rotation_y(0.7)).unwrap();
    graph.update_transforms();
    let first: Vec<Mat4> = graph.iter().iter().map(|(_, n)| *n.world_transform()).collect();
    graph.update_transforms();
    let second: Vec<Mat4> = graph.iter().iter().map(|(_, n)| *n.world_transform()).collect();
    assert_eq!(first, second);
}

#[test]
fn test_node_recycling() {
    let mut graph = SceneGraph::new();

    let id1 = graph.add_node(SceneNode::new("Node1"));
    graph.remove_node(id1).unwrap();

    let id2 = graph.add_node(SceneNode::new("Node2"));
    assert_eq!(id1, id2);
}

#[test]
fn removing_a_node_removes_its_subtree_and_names() {
    let mut graph = SceneGraph::new();
    let a = graph.add_node(SceneNode::new("A"));
    let b = graph.add_node(SceneNode::new("B"));
    let c = graph.add_node(SceneNode::new("C"));
    let d = graph.add_node(SceneNode::new("D"));
    graph.add_child(graph.root(), a).unwrap();
    graph.add_child(a, b).unwrap();
    graph.add_child(b, c).unwrap();
    graph.remove_node(a).unwrap();
    for id in [a, b, c] {
        assert!(graph.get(id).is_err());
    }
    assert!(graph.get(d).is_ok());
    assert!(graph.find_by_name("C").is_none());
    assert_eq!(graph.find_by_name("D"), Some(d));
    assert_eq!(graph.get(graph.root()).unwrap().children().len(), 0);
    assert_eq!(graph.remove_node(graph.root()), Err(SceneError::InvalidParent(NodeId(0))));
}

#[test]
fn iter_lists_live_slots_in_order() {
    let mut graph = SceneGraph::new();
    let a = graph.add_node(SceneNode::new("A"));
    let b = graph.add_node(SceneNode::new("B"));
    graph.remove_node(a).unwrap();
    let ids: Vec<NodeId> = graph.iter().iter().map(|(id, _)| *id).collect();
    assert_eq!(ids, vec![NodeId(0), b]);
}

#[test]
fn culling_and_picking_visit_active_nodes_depth_first() {
    let mut graph = SceneGraph::new();
    let a = graph.add_node(SceneNode::new("A"));
    let b = graph.add_node(SceneNode::new("B"));
    let c = graph.add_node(SceneNode::new("C"));
    graph.add_child(graph.root(), a).unwrap();
    graph.add_child(a, b).unwrap();
    graph.add_child(graph.root(), c).unwrap();
    graph.get_mut(c).unwrap().active = false;
    let visible = graph.query_frustum(&[true, false, false, false]);
    assert_eq!(visible, vec![NodeId(0), a, b]);
    assert_eq!(graph.raycast(&[Some(3), Some(1), None, Some(0)]), None);
}

#[test]
fn test_transform_cache() {
    let mut cache = TransformCache::new();
    let node_id = NodeId(1);
    let transform = Mat4::from_translation(glam::Vec3::new(1.0, 2.0, 3.0));

    cache.update(node_id, transform);
    assert!(cache.is_valid(node_id));
    assert_eq!(cache.get(node_id), Some(&transform));

    cache.invalidate(node_id);
    assert!(!cache.is_valid(node_id));
    assert!(cache.get(node_id).is_none());
}

#[test]
fn invalidating_one_node_makes_every_stamp_stale() {
    let mut cache = TransformCache::new();
    cache.update(NodeId(1), Mat4::IDENTITY);
    cache.update(NodeId(2), Mat4::IDENTITY);
    cache.invalidate(NodeId(1));
    assert!(!cache.is_valid(NodeId(2)));
    assert_eq!(cache.get(NodeId(2)), Some(&Mat4::IDENTITY));
    cache.update(NodeId(2), Mat4::IDENTITY);
    assert!(cache.is_valid(NodeId(2)));
    cache.clear();
    assert!(!cache.is_valid(NodeId(2)));
    assert!(cache.get(NodeId(2)).is_none());
}

fn data(name: &str, children: &[&str]) -> NodeData {
    NodeData {
        name: name.to_string(),
        transform: Transform::default(),
        children: children.iter().map(|c| c.to_string()).collect(),
        tags: vec!["t".to_string(), "t".to_string()],
        active: true,
    }
}

fn file(nodes: Vec<NodeData>) -> SceneFile {
    SceneFile { version: "1.0".to_string(), nodes, assets: AssetReferences::default() }
}

#[test]
fn loading_builds_the_hierarchy_under_the_root() {
    let f = file(vec![data("Player", &["Weapon", "Missing"]), data("Weapon", &[]), data("Light", &[])]);
    let graph = SceneGraph::from_scene_file(&f).unwrap();
    let player = graph.find_by_name("Player").unwrap();
    let weapon = graph.find_by_name("Weapon").unwrap();
    let light = graph.find_by_name("Light").unwrap();
    assert_eq!((player, weapon, light), (NodeId(1), NodeId(2), NodeId(3)));
    assert_eq!(graph.get(graph.root()).unwrap().children(), &[player, light][..]);
    assert_eq!(graph.get(player).unwrap().children(), &[weapon][..]);
    assert_eq!(graph.get(weapon).unwrap().parent(), Some(player));
    assert_eq!(graph.get(weapon).unwrap().tags, vec!["t".to_string()]);
    assert!(!graph.get(weapon).unwrap().is_transform_dirty());
}

#[test]
fn loading_refuses_a_cycle() {
    let f = file(vec![data("A", &["B"]), data("B", &["A"])]);
    assert_eq!(SceneGraph::from_scene_file(&f).err(), Some(SceneError::CircularDependency));
    let g = file(vec![data("A", &["A"])]);
    assert_eq!(SceneGraph::from_scene_file(&g).err(), Some(SceneError::CircularDependency));
}

#[test]
fn a_name_refers_to_its_last_node() {
    let f = file(vec![data("Twin", &[]), data("Twin", &[]), data("P", &["Twin"])]);
    let graph = SceneGraph::from_scene_file(&f).unwrap();
    assert_eq!(graph.find_by_name("Twin"), Some(NodeId(2)));
    assert_eq!(graph.get(NodeId(3)).unwrap().children(), &[NodeId(2)][..]);
    assert_eq!(graph.get(NodeId(1)).unwrap().parent(), None);
    assert_eq!(graph.get(graph.root()).unwrap().children(), &[NodeId(3)][..]);
}

#[test]
fn saving_lists_nodes_with_child_names() {
    let mut graph = SceneGraph::new();
    let a = graph.add_node(SceneNode::new("A").with_tags(&["x"]));
    let b = graph.add_node(SceneNode::new("B"));
    graph.add_child(a, b).unwrap();
    graph.get_mut(b).unwrap().active = false;
    let f = graph.to_scene_file();
    assert_eq!(f.version, "1.0");
    assert_eq!(f.nodes.len(), 2);
    assert_eq!(f.nodes[0].name, "A");
    assert_eq!(f.nodes[0].children, vec!["B".to_string()]);
    assert_eq!(f.nodes[0].tags, vec!["x".to_string()]);
    assert_eq!(f.nodes[1].name, "B");
    assert!(!f.nodes[1].active);
    assert!(f.assets.meshes.is_empty() && f.assets.textures.is_empty() && f.assets.materials.is_empty());
}

#[test]
fn bounding_box_size() {
    let bb = BoundingBox::new(Vec3::new(-1.0, -1.0, -1.0), Vec3::new(1.0, 1.0, 1.0));
    assert_eq!(bb.size(), Vec3::splat(2.0));
}

#[test]
fn adding_then_removing_a_child_restores_the_links() {
    let mut graph = SceneGraph::new();
    let p = graph.add_node(SceneNode::new("P"));
    let q = graph.add_node(SceneNode::new("Q"));
    let c = graph.add_node(SceneNode::new("C"));
    graph.add_child(p, q).unwrap();
    graph.add_child(p, c).unwrap();
    graph.remove_child(p, c).unwrap();
    assert_eq!(graph.get(p).unwrap().children(), &[q][..]);
    assert_eq!(graph.get(c).unwrap().parent(), None);
    assert_eq!(graph.get(q).unwrap().parent(), Some(p));
}

#[test]
fn saving_then_loading_rebuilds_the_hierarchy() {
    let mut graph = SceneGraph::new();
    let a = graph.add_node(SceneNode::new("A").with_tags(&["t"]));
    let b = graph.add_node(SceneNode::new("B"));
    let c = graph.add_node(SceneNode::new("C"));
    let d = graph.add_node(SceneNode::new("D"));
    graph.add_child(graph.root(), a).unwrap();
    graph.add_child(a, c).unwrap();
    graph.add_child(a, b).unwrap();
    graph.add_child(graph.root(), d).unwrap();
    graph.get_mut(d).unwrap().active = false;
    let loaded = SceneGraph::from_scene_file(&graph.to_scene_file()).unwrap();
    assert_eq!(loaded.slot_count(), 5);
    let la = loaded.find_by_name("A").unwrap();
    let lb = loaded.find_by_name("B").unwrap();
    let lc = loaded.find_by_name("C").unwrap();
    let ld = loaded.find_by_name("D").unwrap();
    assert_eq!((la, lb, lc, ld), (NodeId(1), NodeId(2), NodeId(3), NodeId(4)));
    assert_eq!(loaded.get(la).unwrap().children(), &[lc, lb][..]);
    assert_eq!(loaded.get(lb).unwrap().parent(), Some(la));
    assert_eq!(loaded.get(la).unwrap().parent(), Some(loaded.root()));
    assert_eq!(loaded.get(ld).unwrap().parent(), Some(loaded.root()));
    assert_eq!(loaded.get(la).unwrap().tags(), &["t".to_string()][..]);
    assert!(!loaded.get(ld).unwrap().is_active());
    assert!(loaded.get(lc).unwrap().is_active());
}

#[test]
fn a_new_graph_fills_slot_one_first() {
    let mut graph = SceneGraph::new();
    assert_eq!(graph.slot_count(), 1);
    let id = graph.add_node(SceneNode::new("N"));
    assert_eq!(id, NodeId(1));
    assert_eq!(graph.slot_count(), 2);
    assert_eq!(graph.get(id).unwrap().name(), "N");
    assert_eq!(graph.get(id).unwrap().entity_id(), None);
    assert_eq!(graph.get(id).unwrap().parent(), None);
}

#[test]
fn node_accessors_read_the_fields() {
    let mut node = SceneNode::new("Lamp").with_tags(&["light", "light", "warm"]);
    node.entity_id = Some(7);
    let t = Transform::new(Vec3::new(1.0, 2.0, 3.0), Quat::IDENTITY, Vec3::ONE);
    let node = node.with_transform(t);
    assert_eq!(node.name(), "Lamp");
    assert_eq!(node.tags(), &["light".to_string(), "warm".to_string()][..]);
    assert!(node.is_active());
    assert_eq!(node.entity_id(), Some(7));
    assert_eq!(node.transform().position, Vec3::new(1.0, 2.0, 3.0));
}

#[test]
fn removal_frees_slots_in_breadth_first_order() {
    let mut graph = SceneGraph::new();
    let a = graph.add_node(SceneNode::new("A"));
    let b = graph.add_node(SceneNode::new("B"));
    let c = graph.add_node(SceneNode::new("C"));
    let d = graph.add_node(SceneNode::new("D"));
    graph.add_child(a, b).unwrap();
    graph.add_child(a, c).unwrap();
    graph.add_child(b, d).unwrap();
    graph.remove_node(a).unwrap();
    // Freed as A, B, C, D; the last freed slot is filled first.
    assert_eq!(graph.add_node(SceneNode::new("W")), d);
    assert_eq!(graph.add_node(SceneNode::new("X")), c);
    assert_eq!(graph.add_node(SceneNode::new("Y")), b);
    assert_eq!(graph.add_node(SceneNode::new("Z")), a);
}

#[test]
fn the_root_leaves_with_a_node_it_was_moved_under() {
    let mut graph = SceneGraph::new();
    let x = graph.add_node(SceneNode::new("X"));
    graph.add_child(x, graph.root()).unwrap();
    graph.remove_node(x).unwrap();
    assert!(graph.get(graph.root()).is_err());
    assert_eq!(graph.find_by_name("Root"), None);
}
