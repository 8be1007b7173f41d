use crate::ids::{AnimationId, CameraId, IntersectionMaterialId, LibraryId, MaterialId, MatrixId, ObjectId, RealAnimationId, TextureId, UniformId, Wrapper};
use crate::glsl::{GlslCode, IntersectCode, IsInsideCode};
use crate::object::{kind_matrices, Object, ObjectType};
use crate::unique_id::UniqueId;
use std::collections::BTreeMap;
use vstd::prelude::*;

verus! {

broadcast use vstd::std_specs::btree::group_btree_axioms;

/// Where a renumbering sends the raw identifier `k`: its entry in `m`, or `k` itself when
/// `m` has none.
pub open spec fn mapped(m: Map<usize, usize>, k: usize) -> usize {
    if m.contains_key(k) {
        m[k]
    } else {
        k
    }
}

/// A renumbering without entries changes no identifier, and an entry decides where its
/// identifier goes.
pub proof fn lemma_mapped(m: Map<usize, usize>, k: usize, v: usize)
    ensures
        mapped(Map::<usize, usize>::empty(), k) == k,
        mapped(m.insert(k, v), k) == v,
{
}

/// Renumberings of the identifiers of each kind of scene element, from old raw identifier to
/// new one. An identifier without an entry keeps its number.
#[derive(Clone)]
pub struct IdMaps {
    pub uniforms: BTreeMap<usize, usize>,
    pub matrices: BTreeMap<usize, usize>,
    pub objects: BTreeMap<usize, usize>,
    pub cameras: BTreeMap<usize, usize>,
    pub textures: BTreeMap<usize, usize>,
    pub videos: BTreeMap<usize, usize>,
    pub materials: BTreeMap<usize, usize>,
    pub intersections: BTreeMap<usize, usize>,
    pub library: BTreeMap<usize, usize>,
    pub anim_stages: BTreeMap<usize, usize>,
    pub real_anims: BTreeMap<usize, usize>,
}

impl Default for IdMaps {
    /// Renumberings that change nothing.
    fn default() -> (result: Self)
        ensures
            result.uniforms@ == Map::<usize, usize>::empty(),
            result.matrices@ == Map::<usize, usize>::empty(),
            result.objects@ == Map::<usize, usize>::empty(),
            result.cameras@ == Map::<usize, usize>::empty(),
            result.textures@ == Map::<usize, usize>::empty(),
            result.videos@ == Map::<usize, usize>::empty(),
            result.materials@ == Map::<usize, usize>::empty(),
            result.intersections@ == Map::<usize, usize>::empty(),
            result.library@ == Map::<usize, usize>::empty(),
            result.anim_stages@ == Map::<usize, usize>::empty(),
            result.real_anims@ == Map::<usize, usize>::empty(),
    {
        IdMaps {
            uniforms: BTreeMap::new(),
            matrices: BTreeMap::new(),
            objects: BTreeMap::new(),
            cameras: BTreeMap::new(),
            textures: BTreeMap::new(),
            videos: BTreeMap::new(),
            materials: BTreeMap::new(),
            intersections: BTreeMap::new(),
            library: BTreeMap::new(),
            anim_stages: BTreeMap::new(),
            real_anims: BTreeMap::new(),
        }
    }
}

impl IdMaps {
    /// Renumbers `id` by `map`.
    fn map<T: Wrapper>(map: &BTreeMap<usize, usize>, id: T) -> (result: T)
        ensures
            result.id_of().0 == mapped(map@, id.id_of().0),
    {
        let k = id.un_wrap().0;
        match map.get(&k) {
            Some(v) => T::wrap(UniqueId(*v)),
            None => T::wrap(UniqueId(k)),
        }
    }

    /// Renumbers `id` by `map`, if there is one.
    fn map_opt<T: Wrapper>(map: &BTreeMap<usize, usize>, id: Option<T>) -> (result: Option<T>)
        ensures
            result is Some <==> id is Some,
            id is Some ==> result.unwrap().id_of().0 == mapped(map@, id.unwrap().id_of().0),
    {
        match id {
            Some(id) => Some(Self::map(map, id)),
            None => None,
        }
    }

    /// Renumbers the identifier of an uniform.
    pub fn map_uniform(&self, id: UniformId) -> (result: UniformId)
        ensures
            result.0.0 == mapped(self.uniforms@, id.0.0),
    {
        Self::map(&self.uniforms, id)
    }

    /// Renumbers the identifier of an uniform, if there is one.
    pub fn map_opt_uniform(&self, id: Option<UniformId>) -> (result: Option<UniformId>)
        ensures
            result is Some <==> id is Some,
            id is Some ==> result.unwrap().0.0 == mapped(self.uniforms@, id.unwrap().0.0),
    {
        Self::map_opt(&self.uniforms, id)
    }

    /// Renumbers the identifier of a matrix.
    pub fn map_matrix(&self, id: MatrixId) -> (result: MatrixId)
        ensures
            result.0.0 == mapped(self.matrices@, id.0.0),
    {
        Self::map(&self.matrices, id)
    }

    /// Renumbers the identifier of a matrix, if there is one.
    pub fn map_opt_matrix(&self, id: Option<MatrixId>) -> (result: Option<MatrixId>)
        ensures
            result is Some <==> id is Some,
            id is Some ==> result.unwrap().0.0 == mapped(self.matrices@, id.unwrap().0.0),
    {
        Self::map_opt(&self.matrices, id)
    }

    /// Renumbers the identifier of an object.
    pub fn map_object(&self, id: ObjectId) -> (result: ObjectId)
        ensures
            result.0.0 == mapped(self.objects@, id.0.0),
    {
        Self::map(&self.objects, id)
    }

    /// Renumbers the identifier of a camera.
    pub fn map_camera(&self, id: CameraId) -> (result: CameraId)
        ensures
            result.0.0 == mapped(self.cameras@, id.0.0),
    {
        Self::map(&self.cameras, id)
    }

    /// Renumbers the identifier of a camera, if there is one.
    pub fn map_opt_camera(&self, id: Option<CameraId>) -> (result: Option<CameraId>)
        ensures
            result is Some <==> id is Some,
            id is Some ==> result.unwrap().0.0 == mapped(self.cameras@, id.unwrap().0.0),
    {
        Self::map_opt(&self.cameras, id)
    }

    /// Renumbers the identifier of a texture.
    pub fn map_texture(&self, id: TextureId) -> (result: TextureId)
        ensures
            result.0.0 == mapped(self.textures@, id.0.0),
    {
        Self::map(&self.textures, id)
    }

    /// Renumbers the identifier of a material.
    pub fn map_material(&self, id: MaterialId) -> (result: MaterialId)
        ensures
            result.0.0 == mapped(self.materials@, id.0.0),
    {
        Self::map(&self.materials, id)
    }

    /// Renumbers the identifier of an intersection.
    pub fn map_intersection(&self, id: IntersectionMaterialId) -> (result: IntersectionMaterialId)
        ensures
            result.0.0 == mapped(self.intersections@, id.0.0),
    {
        Self::map(&self.intersections, id)
    }

    /// Renumbers the identifier of a library.
    pub fn map_library(&self, id: LibraryId) -> (result: LibraryId)
        ensures
            result.0.0 == mapped(self.library@, id.0.0),
    {
        Self::map(&self.library, id)
    }

    /// Renumbers the identifier of an anim stage.
    pub fn map_anim_stage(&self, id: AnimationId) -> (result: AnimationId)
        ensures
            result.0.0 == mapped(self.anim_stages@, id.0.0),
    {
        Self::map(&self.anim_stages, id)
    }

    /// Renumbers the identifier of a real anim.
    pub fn map_real_anim(&self, id: RealAnimationId) -> (result: RealAnimationId)
        ensures
            result.0.0 == mapped(self.real_anims@, id.0.0),
    {
        Self::map(&self.real_anims, id)
    }
}

/// A matrix identifier renumbered by `m`, if there is one.
pub open spec fn remapped_matrix(m: Map<usize, usize>, a: Option<MatrixId>) -> Option<MatrixId> {
    match a {
        Some(id) => Some(MatrixId(UniqueId(mapped(m, id.0.0)))),
        None => None,
    }
}

/// A surface kind with its matrices renumbered by `m`.
pub open spec fn remapped_kind(m: Map<usize, usize>, kind: ObjectType) -> ObjectType {
    match kind {
        ObjectType::Simple(a) => ObjectType::Simple(remapped_matrix(m, a)),
        ObjectType::Portal(a, b) => ObjectType::Portal(remapped_matrix(m, a), remapped_matrix(m, b)),
    }
}

/// Renumbers the matrices of a surface kind.
fn remap_kind(kind: &ObjectType, maps: &IdMaps) -> (result: ObjectType)
    ensures
        result == remapped_kind(maps.matrices@, *kind),
{
    match kind {
        ObjectType::Simple(a) => ObjectType::Simple(maps.map_opt_matrix(*a)),
        ObjectType::Portal(a, b) => ObjectType::Portal(maps.map_opt_matrix(*a), maps.map_opt_matrix(*b)),
    }
}

/// The object `o` with the matrices it uses renumbered by the matrix renumbering of `maps`;
/// its kind, code and subspace stay.
pub fn remap_object_value(o: &Object, maps: &IdMaps) -> (result: Object)
    ensures
        match (*o, result) {
            (Object::DebugMatrix(a), Object::DebugMatrix(b)) => b == remapped_matrix(maps.matrices@, a),
            (
                Object::Flat { kind: k1, is_inside: c1, in_subspace: s1 },
                Object::Flat { kind: k2, is_inside: c2, in_subspace: s2 },
            ) => k2 == remapped_kind(maps.matrices@, k1) && c2.0.0@ == c1.0.0@ && s2 == s1,
            (
                Object::Complex { kind: k1, intersect: c1, in_subspace: s1 },
                Object::Complex { kind: k2, intersect: c2, in_subspace: s2 },
            ) => k2 == remapped_kind(maps.matrices@, k1) && c2.0.0@ == c1.0.0@ && s2 == s1,
            _ => false,
        },
        renumbered_ref(maps.matrices@, o.matrix_fields().0, result.matrix_fields().0),
        renumbered_ref(maps.matrices@, o.matrix_fields().1, result.matrix_fields().1),
{
    match o {
        Object::DebugMatrix(a) => Object::DebugMatrix(maps.map_opt_matrix(*a)),
        Object::Flat { kind, is_inside, in_subspace } => Object::Flat {
            kind: remap_kind(kind, maps),
            is_inside: IsInsideCode(GlslCode(is_inside.0.0.clone())),
            in_subspace: *in_subspace,
        },
        Object::Complex { kind, intersect, in_subspace } => Object::Complex {
            kind: remap_kind(kind, maps),
            intersect: IntersectCode(GlslCode(intersect.0.0.clone())),
            in_subspace: *in_subspace,
        },
    }
}

/// Whether the matrix reference `b` is `a` renumbered by `m`: both unchosen, or both chosen
/// with the number of `b` where `m` sends the number of `a`.
pub open spec fn renumbered_ref(m: Map<usize, usize>, a: Option<MatrixId>, b: Option<MatrixId>) -> bool {
    match (a, b) {
        (None, None) => true,
        (Some(x), Some(y)) => y.0.0 == mapped(m, x.0.0),
        _ => false,
    }
}

/// Renumbering a surface kind keeps it plain or a portal and renumbers each of its matrix
/// references, the one of a plain surface as well as both of a portal.
pub proof fn lemma_remapped_kind_renumbers(m: Map<usize, usize>, kind: ObjectType)
    ensures
        (remapped_kind(m, kind) is Simple) == (kind is Simple),
        renumbered_ref(m, kind_matrices(kind).0, kind_matrices(remapped_kind(m, kind)).0),
        renumbered_ref(m, kind_matrices(kind).1, kind_matrices(remapped_kind(m, kind)).1),
{
}

/// Renumbering an object renumbers every matrix it uses.
pub proof fn lemma_remapped_object_renumbers(m: Map<usize, usize>, o: Object, r: Object)
    requires
        match (o, r) {
            (Object::DebugMatrix(a), Object::DebugMatrix(b)) => b == remapped_matrix(m, a),
            (Object::Flat { kind: k1, .. }, Object::Flat { kind: k2, .. }) => k2 == remapped_kind(m, k1),
            (Object::Complex { kind: k1, .. }, Object::Complex { kind: k2, .. }) => k2 == remapped_kind(m, k1),
            _ => false,
        },
    ensures
        renumbered_ref(m, o.matrix_fields().0, r.matrix_fields().0),
        renumbered_ref(m, o.matrix_fields().1, r.matrix_fields().1),
{
}

} // verus!
