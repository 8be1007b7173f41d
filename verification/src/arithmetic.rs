use crate::combo_box::ComboBoxChoosable;
use crate::error_count::ErrorCounting;
use crate::ids::{ArithmeticId, MoreArithmeticId, Wrapper};
use crate::storage2::{inline_reach, StorageElem2, Storage2};
use vstd::prelude::*;

verus! {

/// An arithmetic expression: a constant, or the sum or product of two expressions of the
/// same storage. The constant is kept as the bit pattern of its 64-bit floating-point value.
#[derive(Debug, Clone, Copy, PartialEq, Eq, Structural)]
pub enum Arithmetic {
    Float(u64),
    Sum(Option<ArithmeticId>, Option<ArithmeticId>),
    Mul(Option<ArithmeticId>, Option<ArithmeticId>),
}

/// The chosen ones among two optional operands, in order.
pub open spec fn present_operands(a: Option<ArithmeticId>, b: Option<ArithmeticId>) -> Seq<ArithmeticId> {
    let first = match a {
        Some(x) => seq![x],
        None => Seq::<ArithmeticId>::empty(),
    };
    let second = match b {
        Some(y) => seq![y],
        None => Seq::<ArithmeticId>::empty(),
    };
    first + second
}

fn push_operands(a: Option<ArithmeticId>, b: Option<ArithmeticId>) -> (result: Vec<ArithmeticId>)
    ensures
        result@ == present_operands(a, b),
{
    let mut result: Vec<ArithmeticId> = Vec::new();
    if let Some(x) = a {
        result.push(x);
    }
    if let Some(y) = b {
        result.push(y);
    }
    assert(result@ =~= present_operands(a, b));
    result
}

/// Two optional operands with the chosen ones replaced, in order, by `ids`.
pub open spec fn refilled(a: Option<ArithmeticId>, b: Option<ArithmeticId>, ids: Seq<Option<ArithmeticId>>) -> (
    Option<ArithmeticId>,
    Option<ArithmeticId>,
) {
    match (a, b) {
        (Some(_), Some(_)) => (ids[0], ids[1]),
        (Some(_), None) => (ids[0], None),
        (None, Some(_)) => (None, ids[0]),
        (None, None) => (None, None),
    }
}

fn refill(a: Option<ArithmeticId>, b: Option<ArithmeticId>, ids: &Vec<Option<ArithmeticId>>) -> (result: (
    Option<ArithmeticId>,
    Option<ArithmeticId>,
))
    requires
        ids@.len() == present_operands(a, b).len(),
    ensures
        result == refilled(a, b, ids@),
{
    match (a, b) {
        (Some(_), Some(_)) => (ids[0], ids[1]),
        (Some(_), None) => (ids[0], None),
        (None, Some(_)) => (None, ids[0]),
        (None, None) => (None, None),
    }
}

impl Default for Arithmetic {
    /// The constant zero.
    fn default() -> (result: Self)
        ensures
            result == Arithmetic::Float(0),
    {
        Arithmetic::Float(0)
    }
}

impl ComboBoxChoosable for Arithmetic {
    open spec fn variant_count() -> nat {
        3
    }

    open spec fn number(&self) -> nat {
        match self {
            Arithmetic::Float(_) => 0,
            Arithmetic::Sum(_, _) => 1,
            Arithmetic::Mul(_, _) => 2,
        }
    }

    open spec fn variant_names() -> Seq<Seq<char>> {
        seq!["Float"@, "a+b"@, "a*b"@]
    }

    fn variants() -> (result: &'static [&'static str]) {
        let names: &'static [&'static str] = &["Float", "a+b", "a*b"];
        names
    }

    fn get_number(&self) -> (result: usize) {
        match self {
            Arithmetic::Float(_) => 0,
            Arithmetic::Sum(_, _) => 1,
            Arithmetic::Mul(_, _) => 2,
        }
    }

    /// Becomes the chosen kind of expression: the constant zero, or an operation on nothing yet.
    fn set_number(&mut self, number: usize)
        ensures
            *final(self) == match number {
                0 => Arithmetic::Float(0),
                1 => Arithmetic::Sum(None, None),
                _ => Arithmetic::Mul(None, None),
            },
    {
        *self = match number {
            0 => Arithmetic::Float(0),
            1 => Arithmetic::Sum(None, None),
            _ => Arithmetic::Mul(None, None),
        };
    }
}

impl StorageElem2 for Arithmetic {
    type IdWrapper = ArithmeticId;

    /// The chosen operands.
    open spec fn fields(&self) -> Seq<ArithmeticId> {
        match self {
            Arithmetic::Float(_) => Seq::empty(),
            Arithmetic::Sum(a, b) => present_operands(*a, *b),
            Arithmetic::Mul(a, b) => present_operands(*a, *b),
        }
    }

    fn field_ids(&self) -> (result: Vec<ArithmeticId>) {
        match self {
            Arithmetic::Float(_) => Vec::new(),
            Arithmetic::Sum(a, b) => push_operands(*a, *b),
            Arithmetic::Mul(a, b) => push_operands(*a, *b),
        }
    }

    /// The chosen operands replaced, in order, by `ids`.
    open spec fn with_fields(&self, ids: Seq<Option<ArithmeticId>>) -> Self {
        match self {
            Arithmetic::Float(x) => Arithmetic::Float(*x),
            Arithmetic::Sum(a, b) => Arithmetic::Sum(refilled(*a, *b, ids).0, refilled(*a, *b, ids).1),
            Arithmetic::Mul(a, b) => Arithmetic::Mul(refilled(*a, *b, ids).0, refilled(*a, *b, ids).1),
        }
    }

    fn replace_fields(self, ids: &Vec<Option<ArithmeticId>>) -> (result: Self) {
        match self {
            Arithmetic::Float(x) => Arithmetic::Float(x),
            Arithmetic::Sum(a, b) => {
                let (x, y) = refill(a, b, ids);
                Arithmetic::Sum(x, y)
            },
            Arithmetic::Mul(a, b) => {
                let (x, y) = refill(a, b, ids);
                Arithmetic::Mul(x, y)
            },
        }
    }

    open spec fn is_default(&self) -> bool {
        *self == Arithmetic::Float(0)
    }

    fn new_default() -> (result: Self) {
        Arithmetic::default()
    }
}

/// How many of two optional operands are missing.
pub open spec fn missing_operands(a: Option<ArithmeticId>, b: Option<ArithmeticId>) -> nat {
    (if a is None { 1nat } else { 0nat }) + (if b is None { 1nat } else { 0nat })
}

impl ErrorCounting for Arithmetic {
    type ErrorInput = ();

    /// One for each missing operand.
    open spec fn own_errors(&self, input: &(), self_id: usize) -> nat {
        match self {
            Arithmetic::Float(_) => 0,
            Arithmetic::Sum(a, b) => missing_operands(*a, *b),
            Arithmetic::Mul(a, b) => missing_operands(*a, *b),
        }
    }

    /// The chosen operands.
    open spec fn checked_fields(&self) -> Seq<ArithmeticId> {
        self.fields()
    }

    fn errors_parts(&self, input: &(), self_id: ArithmeticId) -> (result: (usize, Vec<ArithmeticId>)) {
        match self {
            Arithmetic::Float(_) => (0, Vec::new()),
            Arithmetic::Sum(a, b) => {
                let missing: usize = if a.is_none() { 1 } else { 0 };
                let missing: usize = missing + if b.is_none() { 1 } else { 0 };
                (missing, push_operands(*a, *b))
            },
            Arithmetic::Mul(a, b) => {
                let missing: usize = if a.is_none() { 1 } else { 0 };
                let missing: usize = missing + if b.is_none() { 1 } else { 0 };
                (missing, push_operands(*a, *b))
            },
        }
    }
}

/// A function applied to an arithmetic expression, which lives in the storage of arithmetic
/// expressions.
#[derive(Debug, Clone, Copy, PartialEq, Eq, Structural)]
pub enum MoreArithmetic {
    Sin(Option<ArithmeticId>),
    Cos(Option<ArithmeticId>),
}

impl MoreArithmetic {
    /// The expression the function is applied to, if one is chosen.
    pub open spec fn argument(&self) -> Option<ArithmeticId> {
        match self {
            MoreArithmetic::Sin(a) => *a,
            MoreArithmetic::Cos(a) => *a,
        }
    }

    /// How many errors the element shows: one when no argument is chosen.
    pub fn errors_count(&self) -> (result: usize)
        ensures
            result == if self.argument() is None { 1usize } else { 0usize },
    {
        match self {
            MoreArithmetic::Sin(a) => if a.is_none() { 1 } else { 0 },
            MoreArithmetic::Cos(a) => if a.is_none() { 1 } else { 0 },
        }
    }

    /// Removes the argument from the storage of arithmetic expressions, as a field: when it
    /// is anonymous it goes, with what it holds anonymously.
    pub fn remove_from<S: StorageElem2<IdWrapper = ArithmeticId>>(&self, storage: &mut Storage2<S>)
        requires
            old(storage).wf(),
            self.argument() is Some ==> old(storage).elements().contains_key(self.argument().unwrap().0.0),
        ensures
            final(storage).wf(),
            final(storage).order() == old(storage).order(),
            self.argument() is None ==> final(storage).elements() == old(storage).elements(),
            self.argument() is Some ==> final(storage).elements() == old(storage).elements().remove_keys(
                inline_reach(old(storage).elements(), set![self.argument().unwrap().0.0]),
            ),
    {
        let arg = match self {
            MoreArithmetic::Sin(a) => *a,
            MoreArithmetic::Cos(a) => *a,
        };
        if let Some(a) = arg {
            assert(a.id_of().0 == a.0.0);
            storage.remove_as_field(a);
        }
    }
}

impl Default for MoreArithmetic {
    /// The sine of nothing yet.
    fn default() -> (result: Self)
        ensures
            result == MoreArithmetic::Sin(None),
    {
        MoreArithmetic::Sin(None)
    }
}

impl ComboBoxChoosable for MoreArithmetic {
    open spec fn variant_count() -> nat {
        2
    }

    open spec fn number(&self) -> nat {
        match self {
            MoreArithmetic::Sin(_) => 0,
            MoreArithmetic::Cos(_) => 1,
        }
    }

    open spec fn variant_names() -> Seq<Seq<char>> {
        seq!["sin(x)"@, "cos(x)"@]
    }

    fn variants() -> (result: &'static [&'static str]) {
        let names: &'static [&'static str] = &["sin(x)", "cos(x)"];
        names
    }

    fn get_number(&self) -> (result: usize) {
        match self {
            MoreArithmetic::Sin(_) => 0,
            MoreArithmetic::Cos(_) => 1,
        }
    }

    /// Becomes the chosen function, of nothing yet.
    fn set_number(&mut self, number: usize)
        ensures
            *final(self) == if number == 0 { MoreArithmetic::Sin(None) } else { MoreArithmetic::Cos(None) },
    {
        *self = match number {
            0 => MoreArithmetic::Sin(None),
            _ => MoreArithmetic::Cos(None),
        };
    }
}

impl StorageElem2 for MoreArithmetic {
    type IdWrapper = MoreArithmeticId;

    /// Its argument lives in another storage, so it holds no field of its own storage.
    open spec fn fields(&self) -> Seq<MoreArithmeticId> {
        Seq::empty()
    }

    fn field_ids(&self) -> (result: Vec<MoreArithmeticId>) {
        Vec::new()
    }

    open spec fn with_fields(&self, ids: Seq<Option<MoreArithmeticId>>) -> Self {
        *self
    }

    fn replace_fields(self, ids: &Vec<Option<MoreArithmeticId>>) -> (result: Self) {
        self
    }

    open spec fn is_default(&self) -> bool {
        *self == MoreArithmetic::Sin(None)
    }

    fn new_default() -> (result: Self) {
        MoreArithmetic::default()
    }
}

impl ErrorCounting for MoreArithmetic {
    type ErrorInput = ();

    /// One when no argument is chosen.
    open spec fn own_errors(&self, input: &(), self_id: usize) -> nat {
        if self.argument() is None { 1 } else { 0 }
    }

    /// Its argument lives in another storage and is not counted here.
    open spec fn checked_fields(&self) -> Seq<MoreArithmeticId> {
        Seq::empty()
    }

    fn errors_parts(&self, input: &(), self_id: MoreArithmeticId) -> (result: (usize, Vec<MoreArithmeticId>)) {
        (self.errors_count(), Vec::new())
    }
}

} // verus!
