//! The two languages the interface speaks.
use vstd::prelude::*;

verus! {

/// A language of the interface.
#[derive(Debug, Clone, Copy, PartialEq, Eq, Structural)]
pub enum Lang {
    Ru,
    En,
}

/// The text of `lang` among a Russian and an English one.
pub open spec fn pick(lang: Lang, ru: Seq<char>, en: Seq<char>) -> Seq<char> {
    match lang {
        Lang::Ru => ru,
        Lang::En => en,
    }
}

impl Lang {
    /// The one of `ru` and `en` written in this language.
    pub fn say(self, ru: &'static str, en: &'static str) -> (r: &'static str)
        ensures
            r@ == pick(self, ru@, en@),
    {
        match self {
            Lang::Ru => ru,
            Lang::En => en,
        }
    }
}

} // verus!
