use rustforge::ecs::{Active, Name, SceneNodeComponent, Tag, TransformComponent, Velocity};
use rustforge::graphics::{cubemap_face_paths, CameraComponent, MaterialType, Renderable};
use rustforge::scene::NodeId;
use glam::{Quat, Vec3};

#[test]
fn test_transform_component_default() {
    let tc = TransformComponent::default();
    assert_eq!(tc.transform.position, Vec3::ZERO);
    assert_eq!(tc.transform.rotation, Quat::IDENTITY);
    assert_eq!(tc.transform.scale, Vec3::ONE);
}

#[test]
fn test_velocity_default() {
    let vel = Velocity::default();
    assert_eq!(vel.linear, Vec3::ZERO);
    assert_eq!(vel.angular, Vec3::ZERO);
}

#[test]
fn test_velocity_creation() {
    let mut vel = Velocity::default();
    vel.linear = Vec3::new(1.0, 2.0, 3.0);
    vel.angular = Vec3::new(0.1, 0.2, 0.3);

    assert_eq!(vel.linear, Vec3::new(1.0, 2.0, 3.0));
    assert_eq!(vel.angular, Vec3::new(0.1, 0.2, 0.3));
}

#[test]
fn test_name_component() {
    let name = Name("TestEntity".to_string());
    assert_eq!(name.0, "TestEntity");
}

#[test]
fn test_tag_component() {
    let tag = Tag("Enemy".to_string());
    assert_eq!(tag.0, "Enemy");
}

#[test]
fn test_active_component() {
    let active = Active::new(true);
    assert_eq!(active.0, true);

    let inactive = Active::new(false);
    assert_eq!(inactive.0, false);
}

#[test]
fn active_defaults_to_inactive() {
    assert!(!Active::default().0);
}

#[test]
fn scene_node_component_links_its_node() {
    let c = SceneNodeComponent::new(NodeId(7));
    assert_eq!(c.node_id, NodeId(7));
    assert_eq!(c, SceneNodeComponent { node_id: NodeId(7) });
}

#[test]
fn test_renderable_component() {
    let renderable = Renderable {
        mesh_name: "test_mesh".to_string(),
        material_name: "test_material".to_string(),
    };

    assert_eq!(renderable.mesh_name, "test_mesh");
    assert_eq!(renderable.material_name, "test_material");
}

#[test]
fn test_camera_component() {
    let camera = CameraComponent { active: true };
    assert!(camera.active);

    let default_camera = CameraComponent::default();
    assert!(!default_camera.active);
}

#[test]
fn material_kinds_differ() {
    assert_ne!(MaterialType::Pbr, MaterialType::Cubemap);
}

#[test]
fn cubemap_faces_in_layer_order() {
    let paths = cubemap_face_paths("assets/sky");
    assert_eq!(
        paths,
        vec![
            "assets/sky/px.png".to_string(),
            "assets/sky/nx.png".to_string(),
            "assets/sky/py.png".to_string(),
            "assets/sky/ny.png".to_string(),
            "assets/sky/pz.png".to_string(),
            "assets/sky/nz.png".to_string(),
        ]
    );
}
