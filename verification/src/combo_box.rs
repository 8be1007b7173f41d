use vstd::prelude::*;

verus! {

/// A choice among named variants, numbered from zero, as offered in a combo box.
pub trait ComboBoxChoosable: Sized {
    /// How many variants there are.
    spec fn variant_count() -> nat;

    /// The number of the variant `self` is.
    spec fn number(&self) -> nat;

    /// The names of the variants, in order.
    spec fn variant_names() -> Seq<Seq<char>>;

    /// The names of the variants, in order: the name of variant `i` is shown for it.
    fn variants() -> (result: &'static [&'static str])
        ensures
            result@.len() == Self::variant_count(),
            result@.len() == Self::variant_names().len(),
            forall|i: int| 0 <= i < result@.len() ==> (#[trigger] result@[i])@ == Self::variant_names()[i],
    ;

    /// The number of the variant `self` is.
    fn get_number(&self) -> (result: usize)
        ensures
            result == self.number(),
            result < Self::variant_count(),
    ;

    /// Becomes variant number `number`.
    fn set_number(&mut self, number: usize)
        requires
            number < Self::variant_count(),
        ensures
            final(self).number() == number,
    ;
}

/// Applies the choice made in a combo box: switches `t` to variant `chosen` when that differs
/// from its current one, and says whether it did.
pub fn apply_choice<T: ComboBoxChoosable>(t: &mut T, chosen: usize) -> (changed: bool)
    requires
        chosen < T::variant_count(),
    ensures
        changed == (old(t).number() != chosen),
        final(t).number() == chosen,
        !changed ==> *final(t) == *old(t),
{
    let current = t.get_number();
    if current != chosen {
        t.set_number(chosen);
        true
    } else {
        false
    }
}

} // verus!
