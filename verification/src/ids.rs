use crate::unique_id::UniqueId;
use vstd::prelude::*;

verus! {

/// A typed identifier: a [`UniqueId`] tagged with the kind of element it names.
pub trait Wrapper: Sized + Copy {
    /// The raw identifier inside.
    spec fn id_of(self) -> UniqueId;

    /// Tags a raw identifier.
    fn wrap(t: UniqueId) -> (result: Self)
        ensures
            result.id_of() == t,
    ;

    /// The raw identifier inside.
    fn un_wrap(self) -> (result: UniqueId)
        ensures
            result == self.id_of(),
    ;

    /// The number that tells this kind of identifier from the other kinds.
    spec fn id_kind() -> u8;

    /// The number that tells this kind of identifier from the other kinds.
    fn kind() -> (result: u8)
        ensures
            result == Self::id_kind(),
    ;
}

/// Identifier of a uniform.
#[derive(Clone, Copy, Debug, PartialEq, Eq, Structural, Hash)]
pub struct UniformId(pub UniqueId);

impl Wrapper for UniformId {
    open spec fn id_of(self) -> UniqueId {
        self.0
    }

    fn wrap(t: UniqueId) -> (result: Self) {
        UniformId(t)
    }

    fn un_wrap(self) -> (result: UniqueId) {
        self.0
    }

    open spec fn id_kind() -> u8 {
        0u8
    }

    fn kind() -> (result: u8) {
        0u8
    }
}

/// Identifier of a matrix.
#[derive(Clone, Copy, Debug, PartialEq, Eq, Structural, Hash)]
pub struct MatrixId(pub UniqueId);

impl Wrapper for MatrixId {
    open spec fn id_of(self) -> UniqueId {
        self.0
    }

    fn wrap(t: UniqueId) -> (result: Self) {
        MatrixId(t)
    }

    fn un_wrap(self) -> (result: UniqueId) {
        self.0
    }

    open spec fn id_kind() -> u8 {
        1u8
    }

    fn kind() -> (result: u8) {
        1u8
    }
}

/// Identifier of an object.
#[derive(Clone, Copy, Debug, PartialEq, Eq, Structural, Hash)]
pub struct ObjectId(pub UniqueId);

impl Wrapper for ObjectId {
    open spec fn id_of(self) -> UniqueId {
        self.0
    }

    fn wrap(t: UniqueId) -> (result: Self) {
        ObjectId(t)
    }

    fn un_wrap(self) -> (result: UniqueId) {
        self.0
    }

    open spec fn id_kind() -> u8 {
        2u8
    }

    fn kind() -> (result: u8) {
        2u8
    }
}

/// Identifier of a camera.
#[derive(Clone, Copy, Debug, PartialEq, Eq, Structural, Hash)]
pub struct CameraId(pub UniqueId);

impl Wrapper for CameraId {
    open spec fn id_of(self) -> UniqueId {
        self.0
    }

    fn wrap(t: UniqueId) -> (result: Self) {
        CameraId(t)
    }

    fn un_wrap(self) -> (result: UniqueId) {
        self.0
    }

    open spec fn id_kind() -> u8 {
        3u8
    }

    fn kind() -> (result: u8) {
        3u8
    }
}

/// Identifier of a texture.
#[derive(Clone, Copy, Debug, PartialEq, Eq, Structural, Hash)]
pub struct TextureId(pub UniqueId);

impl Wrapper for TextureId {
    open spec fn id_of(self) -> UniqueId {
        self.0
    }

    fn wrap(t: UniqueId) -> (result: Self) {
        TextureId(t)
    }

    fn un_wrap(self) -> (result: UniqueId) {
        self.0
    }

    open spec fn id_kind() -> u8 {
        4u8
    }

    fn kind() -> (result: u8) {
        4u8
    }
}

/// Identifier of a video.
#[derive(Clone, Copy, Debug, PartialEq, Eq, Structural, Hash)]
pub struct VideoId(pub UniqueId);

impl Wrapper for VideoId {
    open spec fn id_of(self) -> UniqueId {
        self.0
    }

    fn wrap(t: UniqueId) -> (result: Self) {
        VideoId(t)
    }

    fn un_wrap(self) -> (result: UniqueId) {
        self.0
    }

    open spec fn id_kind() -> u8 {
        5u8
    }

    fn kind() -> (result: u8) {
        5u8
    }
}

/// Identifier of a material.
#[derive(Clone, Copy, Debug, PartialEq, Eq, Structural, Hash)]
pub struct MaterialId(pub UniqueId);

impl Wrapper for MaterialId {
    open spec fn id_of(self) -> UniqueId {
        self.0
    }

    fn wrap(t: UniqueId) -> (result: Self) {
        MaterialId(t)
    }

    fn un_wrap(self) -> (result: UniqueId) {
        self.0
    }

    open spec fn id_kind() -> u8 {
        6u8
    }

    fn kind() -> (result: u8) {
        6u8
    }
}

/// Identifier of an intersection material.
#[derive(Clone, Copy, Debug, PartialEq, Eq, Structural, Hash)]
pub struct IntersectionMaterialId(pub UniqueId);

impl Wrapper for IntersectionMaterialId {
    open spec fn id_of(self) -> UniqueId {
        self.0
    }

    fn wrap(t: UniqueId) -> (result: Self) {
        IntersectionMaterialId(t)
    }

    fn un_wrap(self) -> (result: UniqueId) {
        self.0
    }

    open spec fn id_kind() -> u8 {
        7u8
    }

    fn kind() -> (result: u8) {
        7u8
    }
}

/// Identifier of a piece of shader library code.
#[derive(Clone, Copy, Debug, PartialEq, Eq, Structural, Hash)]
pub struct LibraryId(pub UniqueId);

impl Wrapper for LibraryId {
    open spec fn id_of(self) -> UniqueId {
        self.0
    }

    fn wrap(t: UniqueId) -> (result: Self) {
        LibraryId(t)
    }

    fn un_wrap(self) -> (result: UniqueId) {
        self.0
    }

    open spec fn id_kind() -> u8 {
        8u8
    }

    fn kind() -> (result: u8) {
        8u8
    }
}

/// Identifier of an animation stage.
#[derive(Clone, Copy, Debug, PartialEq, Eq, Structural, Hash)]
pub struct AnimationId(pub UniqueId);

impl Wrapper for AnimationId {
    open spec fn id_of(self) -> UniqueId {
        self.0
    }

    fn wrap(t: UniqueId) -> (result: Self) {
        AnimationId(t)
    }

    fn un_wrap(self) -> (result: UniqueId) {
        self.0
    }

    open spec fn id_kind() -> u8 {
        9u8
    }

    fn kind() -> (result: u8) {
        9u8
    }
}

/// Identifier of an animation.
#[derive(Clone, Copy, Debug, PartialEq, Eq, Structural, Hash)]
pub struct RealAnimationId(pub UniqueId);

impl Wrapper for RealAnimationId {
    open spec fn id_of(self) -> UniqueId {
        self.0
    }

    fn wrap(t: UniqueId) -> (result: Self) {
        RealAnimationId(t)
    }

    fn un_wrap(self) -> (result: UniqueId) {
        self.0
    }

    open spec fn id_kind() -> u8 {
        10u8
    }

    fn kind() -> (result: u8) {
        10u8
    }
}

/// Identifier of an arithmetic expression.
#[derive(Clone, Copy, Debug, PartialEq, Eq, Structural, Hash)]
pub struct ArithmeticId(pub UniqueId);

impl Wrapper for ArithmeticId {
    open spec fn id_of(self) -> UniqueId {
        self.0
    }

    fn wrap(t: UniqueId) -> (result: Self) {
        ArithmeticId(t)
    }

    fn un_wrap(self) -> (result: UniqueId) {
        self.0
    }

    open spec fn id_kind() -> u8 {
        11u8
    }

    fn kind() -> (result: u8) {
        11u8
    }
}

/// Identifier of an extended arithmetic expression.
#[derive(Clone, Copy, Debug, PartialEq, Eq, Structural, Hash)]
pub struct MoreArithmeticId(pub UniqueId);

impl Wrapper for MoreArithmeticId {
    open spec fn id_of(self) -> UniqueId {
        self.0
    }

    fn wrap(t: UniqueId) -> (result: Self) {
        MoreArithmeticId(t)
    }

    fn un_wrap(self) -> (result: UniqueId) {
        self.0
    }

    open spec fn id_kind() -> u8 {
        12u8
    }

    fn kind() -> (result: u8) {
        12u8
    }
}

/// The camera that is looked through: `None` means the original free camera.
#[derive(Clone, Copy, Debug, PartialEq, Eq, Structural, Default)]
pub struct CurrentCam(pub Option<CameraId>);

/// Each kind of identifier has a number of its own, so what is filed under one kind is never
/// taken for another kind's.
pub proof fn lemma_kinds_distinct()
    ensures
        seq![
            UniformId::id_kind(),
            MatrixId::id_kind(),
            ObjectId::id_kind(),
            CameraId::id_kind(),
            TextureId::id_kind(),
            VideoId::id_kind(),
            MaterialId::id_kind(),
            IntersectionMaterialId::id_kind(),
            LibraryId::id_kind(),
            AnimationId::id_kind(),
            RealAnimationId::id_kind(),
            ArithmeticId::id_kind(),
            MoreArithmeticId::id_kind(),
        ].no_duplicates(),
{
    let s = seq![
        UniformId::id_kind(),
        MatrixId::id_kind(),
        ObjectId::id_kind(),
        CameraId::id_kind(),
        TextureId::id_kind(),
        VideoId::id_kind(),
        MaterialId::id_kind(),
        IntersectionMaterialId::id_kind(),
        LibraryId::id_kind(),
        AnimationId::id_kind(),
        RealAnimationId::id_kind(),
        ArithmeticId::id_kind(),
        MoreArithmeticId::id_kind(),
    ];
    assert forall|i: int, j: int| 0 <= i < s.len() && 0 <= j < s.len() && i != j implies s[i] != s[j] by {
        assert(forall|k: int| 0 <= k < s.len() ==> s[k] == k);
    }
}

} // verus!
