use vstd::prelude::*;

verus! {

/// The language the interface shows its texts in.
#[derive(Debug, Clone, Copy, PartialEq, Eq, Structural)]
pub enum EngRusSettings {
    Eng,
    Rus,
}

impl Default for EngRusSettings {
    /// English.
    fn default() -> (result: Self)
        ensures
            result == EngRusSettings::Eng,
    {
        EngRusSettings::Eng
    }
}

impl EngRusSettings {
    /// The setting after the language button is clicked: the other language.
    pub fn toggled(self) -> (result: Self)
        ensures
            result != self,
    {
        match self {
            EngRusSettings::Eng => EngRusSettings::Rus,
            EngRusSettings::Rus => EngRusSettings::Eng,
        }
    }
}

/// A text in English and in Russian.
#[derive(Debug, Default)]
pub struct EngRusText {
    pub eng: String,
    pub rus: String,
}

impl EngRusText {
    /// The text in the language `setting` chooses.
    pub fn text<'a>(&'a self, setting: EngRusSettings) -> (result: &'a str)
        ensures
            result@ == match setting {
                EngRusSettings::Eng => self.eng@,
                EngRusSettings::Rus => self.rus@,
            },
    {
        match setting {
            EngRusSettings::Eng => self.eng.as_str(),
            EngRusSettings::Rus => self.rus.as_str(),
        }
    }
}

} // verus!
