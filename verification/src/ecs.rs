//! Components and systems of the entity-component world.
//!
//! These are the plain values that entities carry. The world that stores
//! them, and the systems' per-frame arithmetic on vectors, live with the
//! application.

use vstd::prelude::*;
use crate::math::{Transform, vec3_zero};
use crate::scene::NodeId;

verus! {

/// Where an entity is.
#[derive(Debug, Clone, Copy)]
pub struct TransformComponent {
    pub transform: Transform,
}

impl Default for TransformComponent {
    /// The identity transform.
    fn default() -> (c: Self) {
        TransformComponent { transform: Transform::identity() }
    }
}

/// How an entity moves: linear and angular velocity.
#[derive(Debug, Clone, Copy)]
pub struct Velocity {
    pub linear: glam::Vec3,
    pub angular: glam::Vec3,
}

impl Default for Velocity {
    /// At rest.
    fn default() -> (v: Self) {
        Velocity { linear: vec3_zero(), angular: vec3_zero() }
    }
}

/// An entity's name.
#[derive(Debug, Clone)]
pub struct Name(pub String);

/// A label that groups entities.
#[derive(Debug, Clone)]
pub struct Tag(pub String);

/// Whether an entity takes part in updates.
#[derive(Debug, Clone, Copy)]
pub struct Active(pub bool);

impl Active {
    pub fn new(active: bool) -> (a: Self)
        ensures
            a.0 == active,
    {
        Active(active)
    }
}

impl Default for Active {
    /// Inactive.
    fn default() -> (a: Self)
        ensures
            !a.0,
    {
        Active(false)
    }
}

/// Marks the entity that the player steers.
#[derive(Debug, Default)]
pub struct PlayerControlled;

/// Links an entity to the scene-graph node that stands for it.
#[derive(Debug, Clone, Copy, PartialEq, Eq, Structural)]
pub struct SceneNodeComponent {
    pub node_id: NodeId,
}

impl SceneNodeComponent {
    pub fn new(node_id: NodeId) -> (c: Self)
        ensures
            c.node_id == node_id,
    {
        SceneNodeComponent { node_id }
    }
}

/// The system that moves every active entity by its velocity each frame.
pub struct VelocitySystem;

} // verus!
