//! Rendering components and the kinds of materials.

use vstd::prelude::*;

verus! {

/// Marks an entity for drawing with a mesh and a material, named.
#[derive(Debug, Clone)]
pub struct Renderable {
    pub mesh_name: String,
    pub material_name: String,
}

/// Marks an entity as a camera; an active one is drawn from.
#[derive(Debug)]
pub struct CameraComponent {
    pub active: bool,
}

impl Default for CameraComponent {
    /// Inactive.
    fn default() -> (c: Self)
        ensures
            !c.active,
    {
        CameraComponent { active: false }
    }
}

/// The kind of a material.
#[derive(Debug, Clone, Copy, PartialEq, Eq, Structural)]
pub enum MaterialType {
    /// A physically based surface.
    Pbr,
    /// A cube map, for skyboxes.
    Cubemap,
}

/// The system that draws the skybox of every active skybox entity.
pub struct SkyboxRenderSystem;

/// The system that draws every active renderable entity.
pub struct RenderSystem;

/// The file name of each face of a cube map, in the order of the texture's
/// layers: right, left, top, bottom, front, back.
pub open spec fn face_file(k: int) -> Seq<char> {
    if k == 0 {
        "/px.png"@
    } else if k == 1 {
        "/nx.png"@
    } else if k == 2 {
        "/py.png"@
    } else if k == 3 {
        "/ny.png"@
    } else if k == 4 {
        "/pz.png"@
    } else {
        "/nz.png"@
    }
}

/// The paths of the six face images of the cube map in directory `dir`, in
/// layer order (see `face_file`).
pub fn cubemap_face_paths(dir: &str) -> (r: Vec<String>)
    ensures
        r@.len() == 6,
        forall|k: int| 0 <= k < 6 ==> (#[trigger] r@[k])@ == dir@ + face_file(k),
{
    let mut r: Vec<String> = Vec::new();
    let mut s = String::from_str(dir);
    s.append("/px.png");
    r.push(s);
    let mut s = String::from_str(dir);
    s.append("/nx.png");
    r.push(s);
    let mut s = String::from_str(dir);
    s.append("/py.png");
    r.push(s);
    let mut s = String::from_str(dir);
    s.append("/ny.png");
    r.push(s);
    let mut s = String::from_str(dir);
    s.append("/pz.png");
    r.push(s);
    let mut s = String::from_str(dir);
    s.append("/nz.png");
    r.push(s);
    r
}

} // verus!
