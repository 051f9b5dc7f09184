//! Spatial data carried through the engine.
//!
//! Vectors, rotations and matrices are `glam` values. The library never looks
//! inside them; it carries them and hands them to `glam` for arithmetic.

use vstd::prelude::*;

verus! {

/// `glam::Vec3`, carried as an opaque value.
#[verifier::external_type_specification]
#[verifier::external_body]
pub struct ExVec3(glam::Vec3);

/// `glam::Quat`, carried as an opaque value.
#[verifier::external_type_specification]
#[verifier::external_body]
pub struct ExQuat(glam::Quat);

/// `glam::Mat4`, carried as an opaque value.
#[verifier::external_type_specification]
#[verifier::external_body]
pub struct ExMat4(glam::Mat4);

/// `Clone` for `glam::Mat4`, which derives `Clone` beside `Copy`: the clone
/// is the same matrix.
pub assume_specification[ <glam::Mat4 as Clone>::clone ](m: &glam::Mat4) -> (r: glam::Mat4)
    ensures
        r == *m,
;

/// The zero vector, `glam::Vec3::ZERO`.
#[verifier::external_body]
pub(crate) fn vec3_zero() -> glam::Vec3 {
    glam::Vec3::ZERO
}

/// The all-ones vector, `glam::Vec3::ONE`.
#[verifier::external_body]
pub(crate) fn vec3_one() -> glam::Vec3 {
    glam::Vec3::ONE
}

/// The identity rotation, `glam::Quat::IDENTITY`.
#[verifier::external_body]
pub(crate) fn quat_identity() -> glam::Quat {
    glam::Quat::IDENTITY
}

/// The identity matrix, `glam::Mat4::IDENTITY`.
#[verifier::external_body]
pub(crate) fn mat4_identity() -> glam::Mat4 {
    glam::Mat4::IDENTITY
}

/// What `glam`'s `Mul` for `Mat4` returns for `a * b`.
pub uninterp spec fn mat4_product(a: glam::Mat4, b: glam::Mat4) -> glam::Mat4;

/// What `glam::Mat4::from_scale_rotation_translation` returns.
pub uninterp spec fn srt_matrix(scale: glam::Vec3, rotation: glam::Quat, translation: glam::Vec3) -> glam::Mat4;

/// The matrix product `a * b` of `glam`'s `Mul` for `Mat4`, a function of
/// its arguments alone.
#[verifier::external_body]
pub(crate) fn mat4_mul(a: &glam::Mat4, b: &glam::Mat4) -> (r: glam::Mat4)
    ensures
        r == mat4_product(*a, *b),
{
    *a * *b
}

/// `glam::Mat4::from_scale_rotation_translation`, a function of its
/// arguments alone.
#[verifier::external_body]
pub(crate) fn mat4_from_srt(scale: glam::Vec3, rotation: glam::Quat, translation: glam::Vec3) -> (r: glam::Mat4)
    ensures
        r == srt_matrix(scale, rotation, translation),
{
    glam::Mat4::from_scale_rotation_translation(scale, rotation, translation)
}

/// What `m.w_axis.truncate()` returns: the translation column of `m`.
pub uninterp spec fn translation_of(m: glam::Mat4) -> glam::Vec3;

/// The translation column of a matrix, `m.w_axis.truncate()`, a function of
/// the matrix alone.
#[verifier::external_body]
pub(crate) fn mat4_translation(m: &glam::Mat4) -> (r: glam::Vec3)
    ensures
        r == translation_of(*m),
{
    m.w_axis.truncate()
}

/// What `glam`'s `Sub` for `Vec3` returns for `a - b`.
pub uninterp spec fn vec3_difference(a: glam::Vec3, b: glam::Vec3) -> glam::Vec3;

/// `a - b` with `glam`'s `Sub` for `Vec3`, a function of its arguments alone.
#[verifier::external_body]
pub(crate) fn vec3_sub(a: glam::Vec3, b: glam::Vec3) -> (r: glam::Vec3)
    ensures
        r == vec3_difference(a, b),
{
    a - b
}

/// What `glam::Vec3::min` returns for `a` and `b`: the smaller of each
/// coordinate.
pub uninterp spec fn vec3_min_of(a: glam::Vec3, b: glam::Vec3) -> glam::Vec3;

/// What `glam::Vec3::max` returns for `a` and `b`: the larger of each
/// coordinate.
pub uninterp spec fn vec3_max_of(a: glam::Vec3, b: glam::Vec3) -> glam::Vec3;

/// `glam::Vec3::min`, a function of its arguments alone.
#[verifier::external_body]
pub(crate) fn vec3_min(a: glam::Vec3, b: glam::Vec3) -> (r: glam::Vec3)
    ensures
        r == vec3_min_of(a, b),
{
    a.min(b)
}

/// `glam::Vec3::max`, a function of its arguments alone.
#[verifier::external_body]
pub(crate) fn vec3_max(a: glam::Vec3, b: glam::Vec3) -> (r: glam::Vec3)
    ensures
        r == vec3_max_of(a, b),
{
    a.max(b)
}

/// Local position, rotation and scale of an object.
#[derive(Debug, Clone, Copy)]
pub struct Transform {
    pub position: glam::Vec3,
    pub rotation: glam::Quat,
    pub scale: glam::Vec3,
}

impl Transform {
    pub fn new(position: glam::Vec3, rotation: glam::Quat, scale: glam::Vec3) -> (t: Self)
        ensures
            t.position == position,
            t.rotation == rotation,
            t.scale == scale,
    {
        Transform { position, rotation, scale }
    }

    /// The identity transform: no translation or rotation, unit scale.
    pub fn identity() -> (t: Self) {
        Transform { position: vec3_zero(), rotation: quat_identity(), scale: vec3_one() }
    }

    /// The local-to-parent matrix: scale, then rotate, then translate.
    pub fn matrix(&self) -> (m: glam::Mat4)
        ensures
            m == srt_matrix(self.scale, self.rotation, self.position),
    {
        mat4_from_srt(self.scale, self.rotation, self.position)
    }
}

impl Default for Transform {
    fn default() -> Self {
        Self::identity()
    }
}

} // verus!
