use crate::combo_box::ComboBoxChoosable;
use crate::common::{message_view, ShaderErrors};
use crate::error_count::{entry_errors, ErrorCounting};
use crate::glsl::{IntersectCode, IsInsideCode};
use crate::ids::{MatrixId, ObjectId, Wrapper};
use crate::storage2::{default_name, inline_reach, StorageElem2, StorageInner, Storage2};
use crate::text::{push_char, push_decimal};
use vstd::prelude::*;

verus! {

/// The name a matrix goes by in generated shader code.
#[derive(Debug, Clone)]
pub struct MatrixName(pub String);

impl MatrixName {
    /// The shader variable holding the matrix: the name followed by `_mat`.
    pub fn normal_name(&self) -> (result: String)
        ensures
            result@ == self.0@ + "_mat"@,
    {
        let mut result = String::from_str(self.0.as_str());
        result.append("_mat");
        result
    }

    /// The shader variable holding the inverse matrix: the name followed by `_mat_inv`.
    pub fn inverse_name(&self) -> (result: String)
        ensures
            result@ == self.0@ + "_mat_inv"@,
    {
        let mut result = String::from_str(self.0.as_str());
        result.append("_mat_inv");
        result
    }

    /// The shader variable holding the teleportation from this matrix to `to`:
    /// `<this>_to_<to>_mat_teleport`.
    pub fn teleport_to_name(&self, to: &MatrixName) -> (result: String)
        ensures
            result@ == self.0@ + "_to_"@ + to.0@ + "_mat_teleport"@,
    {
        let mut result = String::from_str(self.0.as_str());
        result.append("_to_");
        result.append(to.0.as_str());
        result.append("_mat_teleport");
        result
    }
}

/// What an object's surface is: a plain one placed by a matrix, or a portal between two.
#[derive(Debug, Clone, Copy, PartialEq, Eq, Structural)]
pub enum ObjectType {
    Simple(Option<MatrixId>),
    Portal(Option<MatrixId>, Option<MatrixId>),
}

/// In which space an object is seen: the normal one, the subspace, or both.
#[derive(Debug, Clone, Copy, PartialEq, Eq, Structural)]
pub enum SubspaceType {
    Normal,
    Subspace,
    Both,
}

/// An object of the scene.
#[derive(Debug, Clone)]
pub enum Object {
    DebugMatrix(Option<MatrixId>),
    Flat { kind: ObjectType, is_inside: IsInsideCode, in_subspace: SubspaceType },
    Complex { kind: ObjectType, intersect: IntersectCode, in_subspace: SubspaceType },
}

impl Default for ObjectType {
    /// A plain surface with no matrix yet.
    fn default() -> (result: Self)
        ensures
            result == ObjectType::Simple(None),
    {
        ObjectType::Simple(None)
    }
}

impl Default for SubspaceType {
    /// The normal space.
    fn default() -> (result: Self)
        ensures
            result == SubspaceType::Normal,
    {
        SubspaceType::Normal
    }
}

impl Default for Object {
    /// A debug view of no matrix yet.
    fn default() -> (result: Self)
        ensures
            result matches Object::DebugMatrix(None),
    {
        Object::DebugMatrix(None)
    }
}

impl SubspaceType {
    /// The space numbered `n` in the combo box.
    pub open spec fn from_number(n: nat) -> SubspaceType {
        if n == 0 {
            SubspaceType::Normal
        } else if n == 1 {
            SubspaceType::Subspace
        } else {
            SubspaceType::Both
        }
    }

    /// Choosing a space by its own number gives it back, and the space chosen by a number
    /// has that number.
    pub proof fn lemma_number_roundtrip(s: SubspaceType, n: nat)
        ensures
            SubspaceType::from_number(s.number()) == s,
            n < SubspaceType::variant_count() ==> SubspaceType::from_number(n).number() == n,
    {
    }
}

impl ComboBoxChoosable for SubspaceType {
    open spec fn variant_count() -> nat {
        3
    }

    open spec fn number(&self) -> nat {
        match self {
            SubspaceType::Normal => 0,
            SubspaceType::Subspace => 1,
            SubspaceType::Both => 2,
        }
    }

    open spec fn variant_names() -> Seq<Seq<char>> {
        seq!["Normal"@, "Subspace"@, "Both"@]
    }

    fn variants() -> (result: &'static [&'static str]) {
        let names: &'static [&'static str] = &["Normal", "Subspace", "Both"];
        names
    }

    fn get_number(&self) -> (result: usize) {
        match self {
            SubspaceType::Normal => 0,
            SubspaceType::Subspace => 1,
            SubspaceType::Both => 2,
        }
    }

    fn set_number(&mut self, number: usize)
        ensures
            *final(self) == SubspaceType::from_number(number as nat),
    {
        *self = match number {
            0 => SubspaceType::Normal,
            1 => SubspaceType::Subspace,
            _ => SubspaceType::Both,
        };
    }
}

impl ComboBoxChoosable for ObjectType {
    open spec fn variant_count() -> nat {
        2
    }

    open spec fn number(&self) -> nat {
        match self {
            ObjectType::Simple(_) => 0,
            ObjectType::Portal(_, _) => 1,
        }
    }

    open spec fn variant_names() -> Seq<Seq<char>> {
        seq!["Simple"@, "Portal"@]
    }

    fn variants() -> (result: &'static [&'static str]) {
        let names: &'static [&'static str] = &["Simple", "Portal"];
        names
    }

    fn get_number(&self) -> (result: usize) {
        match self {
            ObjectType::Simple(_) => 0,
            ObjectType::Portal(_, _) => 1,
        }
    }

    /// Becomes the chosen kind, with no matrices yet.
    fn set_number(&mut self, number: usize)
        ensures
            *final(self) == if number == 0 { ObjectType::Simple(None) } else { ObjectType::Portal(None, None) },
    {
        *self = match number {
            0 => ObjectType::Simple(None),
            _ => ObjectType::Portal(None, None),
        };
    }
}

impl ComboBoxChoosable for Object {
    open spec fn variant_count() -> nat {
        3
    }

    open spec fn number(&self) -> nat {
        match self {
            Object::DebugMatrix(_) => 0,
            Object::Flat { .. } => 1,
            Object::Complex { .. } => 2,
        }
    }

    open spec fn variant_names() -> Seq<Seq<char>> {
        seq!["Debug"@, "Flat"@, "Complex"@]
    }

    fn variants() -> (result: &'static [&'static str]) {
        let names: &'static [&'static str] = &["Debug", "Flat", "Complex"];
        names
    }

    fn get_number(&self) -> (result: usize) {
        match self {
            Object::DebugMatrix(_) => 0,
            Object::Flat { .. } => 1,
            Object::Complex { .. } => 2,
        }
    }

    /// Becomes the chosen kind of object, plain, with no matrix yet, in the normal space,
    /// with the default code.
    fn set_number(&mut self, number: usize)
        ensures
            final(self).matrix_fields() == (None::<MatrixId>, None::<MatrixId>),
            number != 0 ==> final(self).subspace() == SubspaceType::Normal,
    {
        *self = match number {
            0 => Object::DebugMatrix(None),
            1 => Object::Flat { kind: ObjectType::Simple(None), is_inside: IsInsideCode::default(), in_subspace: SubspaceType::Normal },
            _ => Object::Complex { kind: ObjectType::Simple(None), intersect: IntersectCode::default(), in_subspace: SubspaceType::Normal },
        };
    }
}

/// The matrices of a surface kind: the one of a plain surface, the two of a portal.
pub open spec fn kind_matrices(kind: ObjectType) -> (Option<MatrixId>, Option<MatrixId>) {
    match kind {
        ObjectType::Simple(a) => (a, None),
        ObjectType::Portal(a, b) => (a, b),
    }
}

/// The entries left after removing `a`, if chosen, as a field.
pub open spec fn without_field<M: StorageElem2>(m: Map<usize, StorageInner<M>>, a: Option<MatrixId>) -> Map<usize, StorageInner<M>> {
    match a {
        Some(id) => m.remove_keys(inline_reach(m, set![id.0.0])),
        None => m,
    }
}

impl Object {
    /// The matrices the object uses, in order.
    pub open spec fn matrix_fields(&self) -> (Option<MatrixId>, Option<MatrixId>) {
        match self {
            Object::DebugMatrix(a) => (*a, None),
            Object::Flat { kind, .. } => kind_matrices(*kind),
            Object::Complex { kind, .. } => kind_matrices(*kind),
        }
    }

    /// The space the object is seen in; a debug view is seen in the normal one.
    pub open spec fn subspace(&self) -> SubspaceType {
        match self {
            Object::DebugMatrix(_) => SubspaceType::Normal,
            Object::Flat { in_subspace, .. } => *in_subspace,
            Object::Complex { in_subspace, .. } => *in_subspace,
        }
    }

    /// The name matrix `id` goes by in shader code: its own name, or `id` followed by its
    /// identifier when it is anonymous; `None` when there is no such matrix.
    pub fn get_name<M: StorageElem2>(id: M::IdWrapper, storage: &Storage2<M>) -> (result: Option<MatrixName>)
        ensures
            match result {
                Some(name) => storage.elements().contains_key(id.id_of().0) && name.0@ == match storage.elements()[id.id_of().0] {
                    StorageInner::Named(_, n) => n@,
                    StorageInner::Inline(_) => default_name(id.id_of().0),
                },
                None => !storage.elements().contains_key(id.id_of().0),
            },
    {
        match storage.get_name(id) {
            Some(Some(name)) => Some(MatrixName(String::from_str(name))),
            Some(None) => {
                let mut name = String::new();
                push_char(&mut name, 'i');
                push_char(&mut name, 'd');
                push_decimal(&mut name, id.un_wrap().0);
                assert(name@ =~= default_name(id.id_of().0));
                Some(MatrixName(name))
            },
            None => None,
        }
    }

    /// Removes the matrices of the object from `matrices`, as fields, in order: each one
    /// that is anonymous goes with what it holds anonymously.
    pub fn remove_from<M: StorageElem2<IdWrapper = MatrixId>>(&self, matrices: &mut Storage2<M>)
        requires
            old(matrices).wf(),
            self.matrix_fields().0 is Some ==> old(matrices).elements().contains_key(self.matrix_fields().0.unwrap().0.0),
            self.matrix_fields().1 is Some ==> without_field(old(matrices).elements(), self.matrix_fields().0).contains_key(
                self.matrix_fields().1.unwrap().0.0,
            ),
        ensures
            final(matrices).wf(),
            final(matrices).order() == old(matrices).order(),
            final(matrices).elements() == without_field(
                without_field(old(matrices).elements(), self.matrix_fields().0),
                self.matrix_fields().1,
            ),
    {
        let (a, b) = match self {
            Object::DebugMatrix(a) => (*a, None),
            Object::Flat { kind, .. } => match kind {
                ObjectType::Simple(a) => (*a, None),
                ObjectType::Portal(a, b) => (*a, *b),
            },
            Object::Complex { kind, .. } => match kind {
                ObjectType::Simple(a) => (*a, None),
                ObjectType::Portal(a, b) => (*a, *b),
            },
        };
        if let Some(id) = a {
            assert(id.id_of().0 == id.0.0);
            matrices.remove_as_field(id);
        }
        if let Some(id) = b {
            assert(id.id_of().0 == id.0.0);
            matrices.remove_as_field(id);
        }
    }
}

impl StorageElem2 for Object {
    type IdWrapper = ObjectId;

    /// Objects hold matrices, which live in another storage, and no objects.
    open spec fn fields(&self) -> Seq<ObjectId> {
        Seq::empty()
    }

    fn field_ids(&self) -> (result: Vec<ObjectId>) {
        Vec::new()
    }

    open spec fn with_fields(&self, ids: Seq<Option<ObjectId>>) -> Self {
        *self
    }

    fn replace_fields(self, ids: &Vec<Option<ObjectId>>) -> (result: Self) {
        self
    }

    open spec fn is_default(&self) -> bool {
        *self matches Object::DebugMatrix(None)
    }

    fn new_default() -> (result: Self) {
        Object::default()
    }
}

/// How many compiler messages are filed under the object `id`.
pub open spec fn own_messages(errors: &ShaderErrors, id: ObjectId) -> nat {
    if errors.messages().contains_key((ObjectId::id_kind(), id.0.0)) {
        errors.messages()[(ObjectId::id_kind(), id.0.0)].len()
    } else {
        0
    }
}

/// The problems counted for one matrix an object needs: one when none is chosen, else
/// those of the matrix as an anonymous field.
pub open spec fn matrix_errors<M: ErrorCounting>(m: Map<usize, StorageInner<M>>, input: M::ErrorInput, a: Option<MatrixId>) -> nat {
    match a {
        Some(id) => entry_errors(m, input, id.0.0, false),
        None => 1,
    }
}

/// The problems counted for the matrices of a surface kind: the one of a plain surface, the
/// two of a portal.
pub open spec fn kind_errors<M: ErrorCounting>(m: Map<usize, StorageInner<M>>, input: M::ErrorInput, kind: ObjectType) -> nat {
    match kind {
        ObjectType::Simple(a) => matrix_errors(m, input, a),
        ObjectType::Portal(a, b) => matrix_errors(m, input, a) + matrix_errors(m, input, b),
    }
}

impl Object {
    /// The problems counted for the matrices the object needs.
    pub open spec fn matrices_errors<M: ErrorCounting>(&self, m: Map<usize, StorageInner<M>>, input: M::ErrorInput) -> nat {
        match self {
            Object::DebugMatrix(a) => matrix_errors(m, input, *a),
            Object::Flat { kind, .. } => kind_errors(m, input, *kind),
            Object::Complex { kind, .. } => kind_errors(m, input, *kind),
        }
    }

    /// The problems of the object stored under `self_id`: the compiler messages filed under
    /// it in `errors`, and those counted for the matrices it needs in `matrices`.
    pub fn errors_count<M: ErrorCounting<IdWrapper = MatrixId>>(
        &self,
        errors: &ShaderErrors,
        matrices: &Storage2<M>,
        input: &M::ErrorInput,
        self_id: ObjectId,
    ) -> (result: usize)
        requires
            matrices.wf(),
            own_messages(errors, self_id) + self.matrices_errors(matrices.elements(), *input) <= usize::MAX,
        ensures
            result == own_messages(errors, self_id) + self.matrices_errors(matrices.elements(), *input),
    {
        let local: usize = match errors.get(self_id) {
            Some(v) => {
                assert(v@.map_values(|p: (usize, String)| message_view(p)).len() == v@.len());
                v.len()
            },
            None => 0,
        };
        let (a, b, two) = match self {
            Object::DebugMatrix(a) => (*a, None, false),
            Object::Flat { kind, .. } => match kind {
                ObjectType::Simple(a) => (*a, None, false),
                ObjectType::Portal(a, b) => (*a, *b, true),
            },
            Object::Complex { kind, .. } => match kind {
                ObjectType::Simple(a) => (*a, None, false),
                ObjectType::Portal(a, b) => (*a, *b, true),
            },
        };
        let first = Self::one_matrix_errors(a, matrices, input);
        let mut result = local + first;
        if two {
            let second = Self::one_matrix_errors(b, matrices, input);
            result = result + second;
        }
        result
    }

    /// The problems counted for one matrix the object needs.
    fn one_matrix_errors<M: ErrorCounting<IdWrapper = MatrixId>>(a: Option<MatrixId>, matrices: &Storage2<M>, input: &M::ErrorInput) -> (result: usize)
        requires
            matrices.wf(),
            matrix_errors(matrices.elements(), *input, a) <= usize::MAX,
        ensures
            result == matrix_errors(matrices.elements(), *input, a),
    {
        match a {
            Some(id) => {
                assert(id.id_of().0 == id.0.0);
                matrices.errors_inline(id, input)
            },
            None => 1,
        }
    }
}

/// The matrices of a portal count separately: a portal has as many problems from its
/// matrices as two debug views of its two matrices, whichever side each is on, and an
/// unchosen side is a problem of its own.
pub proof fn lemma_portal_counts_both_sides<M: ErrorCounting>(
    m: Map<usize, StorageInner<M>>,
    input: M::ErrorInput,
    a: Option<MatrixId>,
    b: Option<MatrixId>,
    is_inside: IsInsideCode,
    intersect: IntersectCode,
    s: SubspaceType,
)
    ensures
        (Object::Flat { kind: ObjectType::Portal(a, b), is_inside, in_subspace: s }).matrices_errors(m, input)
            == Object::DebugMatrix(a).matrices_errors(m, input) + Object::DebugMatrix(b).matrices_errors(m, input),
        (Object::Complex { kind: ObjectType::Portal(a, b), intersect, in_subspace: s }).matrices_errors(m, input)
            == Object::DebugMatrix(a).matrices_errors(m, input) + Object::DebugMatrix(b).matrices_errors(m, input),
        kind_errors(m, input, ObjectType::Portal(a, b)) == kind_errors(m, input, ObjectType::Portal(b, a)),
        kind_errors(m, input, ObjectType::Portal(a, b)) == kind_errors(m, input, ObjectType::Simple(a)) + kind_errors(
            m,
            input,
            ObjectType::Simple(b),
        ),
        kind_errors(m, input, ObjectType::Simple(None)) == 1,
        a is None || b is None ==> kind_errors(m, input, ObjectType::Portal(a, b)) >= 1,
{
}

} // verus!
