use vstd::prelude::*;
use crate::text_map::{lookup, TextMap};

verus! {

/// The language code under which a text goes where a document names none,
/// or one that the table does not know.
pub const LANG_UNDETERMINED: &'static str = "und";

/// The table of language codes: what stands for a language in a document
/// against what stands for it in an event, and the other way round. Each
/// code has one entry, with the code it is turned into.
#[derive(Debug, PartialEq, Eq)]
pub struct LangTable {
    pub codes: TextMap,
}

impl View for LangTable {
    type V = Seq<(Seq<char>, Seq<char>)>;

    /// The entries as pairs of a code and the code it is turned into.
    open spec fn view(&self) -> Seq<(Seq<char>, Seq<char>)> {
        self.codes@
    }
}

impl LangTable {
    /// A table without entries.
    pub fn new() -> (r: Self)
        ensures
            r@ == Seq::<(Seq<char>, Seq<char>)>::empty(),
    {
        LangTable { codes: TextMap::new() }
    }

    /// Lets `to` stand for `from`.
    pub fn insert(&mut self, from: &str, to: &str)
        ensures
            final(self)@ == crate::text_map::put(old(self)@, from@, to@),
    {
        self.codes.insert(from.to_owned(), to.to_owned());
    }

    /// The code that stands for `lang`.
    pub fn convert(&self, lang: &str) -> (r: Option<&String>)
        ensures
            match r {
                Some(code) => lookup(self@, lang@) == Some(code@),
                None => lookup(self@, lang@).is_none(),
            },
    {
        self.codes.get(lang)
    }
}

} // verus!
