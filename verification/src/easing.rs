use crate::combo_box::ComboBoxChoosable;
use vstd::prelude::*;

verus! {

/// How an animated value moves from its start to its end.
#[derive(Debug, Clone, Copy, PartialEq, Eq, Structural)]
pub enum Easing {
    Linear,
    In,
    Out,
    InOut,
    InOutFast,
    ElasticOut,
}

impl Default for Easing {
    /// Linear.
    fn default() -> (result: Self)
        ensures
            result == Easing::Linear,
    {
        Easing::Linear
    }
}

impl Easing {
    /// The easing numbered `n` in the combo box.
    pub open spec fn from_number(n: nat) -> Easing {
        if n == 0 {
            Easing::Linear
        } else if n == 1 {
            Easing::In
        } else if n == 2 {
            Easing::Out
        } else if n == 3 {
            Easing::InOut
        } else if n == 4 {
            Easing::InOutFast
        } else {
            Easing::ElasticOut
        }
    }

    /// Choosing an easing by its own number gives it back, and the easing chosen by a
    /// number has that number.
    pub proof fn lemma_number_roundtrip(e: Easing, n: nat)
        ensures
            Easing::from_number(e.number()) == e,
            n < Easing::variant_count() ==> Easing::from_number(n).number() == n,
    {
    }
}

impl ComboBoxChoosable for Easing {
    open spec fn variant_count() -> nat {
        6
    }

    open spec fn number(&self) -> nat {
        match self {
            Easing::Linear => 0,
            Easing::In => 1,
            Easing::Out => 2,
            Easing::InOut => 3,
            Easing::InOutFast => 4,
            Easing::ElasticOut => 5,
        }
    }

    open spec fn variant_names() -> Seq<Seq<char>> {
        seq!["Linear"@, "In"@, "Out"@, "InOut"@, "InOutFast"@, "ElasticOut"@]
    }

    fn variants() -> (result: &'static [&'static str]) {
        let names: &'static [&'static str] = &["Linear", "In", "Out", "InOut", "InOutFast", "ElasticOut"];
        names
    }

    fn get_number(&self) -> (result: usize) {
        match self {
            Easing::Linear => 0,
            Easing::In => 1,
            Easing::Out => 2,
            Easing::InOut => 3,
            Easing::InOutFast => 4,
            Easing::ElasticOut => 5,
        }
    }

    fn set_number(&mut self, number: usize)
        ensures
            *final(self) == Easing::from_number(number as nat),
    {
        *self = match number {
            0 => Easing::Linear,
            1 => Easing::In,
            2 => Easing::Out,
            3 => Easing::InOut,
            4 => Easing::InOutFast,
            _ => Easing::ElasticOut,
        };
    }
}

} // verus!
