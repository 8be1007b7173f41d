use crate::ids::LibraryId;
use crate::storage2::StorageElem2;
use vstd::prelude::*;

verus! {

/// A piece of GLSL code written by the user.
#[derive(Debug, Clone, Default)]
pub struct GlslCode(pub String);

/// The body of a material's shading function.
#[derive(Debug, Clone)]
pub struct MaterialCode(pub GlslCode);

/// Shader functions shared by the whole scene.
#[derive(Debug, Clone)]
pub struct LibraryCode(pub GlslCode);

impl Default for LibraryCode {
    /// No code.
    fn default() -> (result: Self)
        ensures
            result.0.0@ == Seq::<char>::empty(),
    {
        LibraryCode(GlslCode(String::new()))
    }
}

impl StorageElem2 for LibraryCode {
    type IdWrapper = LibraryId;

    /// Library code holds no other library code.
    open spec fn fields(&self) -> Seq<LibraryId> {
        Seq::empty()
    }

    fn field_ids(&self) -> (result: Vec<LibraryId>) {
        Vec::new()
    }

    open spec fn with_fields(&self, ids: Seq<Option<LibraryId>>) -> Self {
        *self
    }

    fn replace_fields(self, ids: &Vec<Option<LibraryId>>) -> (result: Self) {
        self
    }

    open spec fn is_default(&self) -> bool {
        self.0.0@ == Seq::<char>::empty()
    }

    fn new_default() -> (result: Self) {
        LibraryCode::default()
    }
}

/// The body of a flat object's `is_inside` function: it gets the position and surface
/// coordinates and returns a material number, or `NOT_INSIDE`.
#[derive(Debug, Clone)]
pub struct IsInsideCode(pub GlslCode);

/// The body of a complex object's `intersect` function: it gets the transformed ray and
/// returns a `SceneIntersection`.
#[derive(Debug, Clone)]
pub struct IntersectCode(pub GlslCode);

impl Default for MaterialCode {
    /// A simple green material.
    fn default() -> (result: Self)
        ensures
            result.0.0@ == "return material_simple(hit, r, vec3(9.21e-2, 7.28e-1, 6.81e-2), 5e-1, true, 4e0, 3e-1);"@,
    {
        MaterialCode(GlslCode(String::from_str("return material_simple(hit, r, vec3(9.21e-2, 7.28e-1, 6.81e-2), 5e-1, true, 4e0, 3e-1);")))
    }
}

impl Default for IsInsideCode {
    /// A black unit disc.
    fn default() -> (result: Self)
        ensures
            result.0.0@ == "if (x*x + y*y < 1.) {\n  return black_M;\n} else {\n  return NOT_INSIDE;\n}"@,
    {
        IsInsideCode(GlslCode(String::from_str("if (x*x + y*y < 1.) {\n  return black_M;\n} else {\n  return NOT_INSIDE;\n}")))
    }
}

impl Default for IntersectCode {
    /// A black unit sphere.
    fn default() -> (result: Self)
        ensures
            result.0.0@ == "vec3 op = -r.o.xyz;\nfloat b = dot(op, r.d.xyz);\nfloat det = b*b - dot(op, op) + 1.0;\nif (det < 0.) return scene_intersection_none;\n\ndet = sqrt(det);\nfloat t = b - det;\nif (t < 0.) t = b + det;\nif (t < 0.) return scene_intersection_none;\n\nvec4 pos = r.o + r.d * t;\nvec3 n = normalize(pos.xyz);\n\nfloat u = atan(pos.z, pos.x);\nfloat v = atan(sqrt(pos.x * pos.x + pos.z * pos.z), pos.y);\n\nreturn SceneIntersection(black_M, SurfaceIntersection(true, t, u, v, n));"@,
    {
        IntersectCode(GlslCode(String::from_str("vec3 op = -r.o.xyz;\nfloat b = dot(op, r.d.xyz);\nfloat det = b*b - dot(op, op) + 1.0;\nif (det < 0.) return scene_intersection_none;\n\ndet = sqrt(det);\nfloat t = b - det;\nif (t < 0.) t = b + det;\nif (t < 0.) return scene_intersection_none;\n\nvec4 pos = r.o + r.d * t;\nvec3 n = normalize(pos.xyz);\n\nfloat u = atan(pos.z, pos.x);\nfloat v = atan(sqrt(pos.x * pos.x + pos.z * pos.z), pos.y);\n\nreturn SceneIntersection(black_M, SurfaceIntersection(true, t, u, v, n));")))
    }
}

} // verus!
