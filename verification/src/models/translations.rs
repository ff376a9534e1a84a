//! Raw translation tables.

use vstd::prelude::*;

verus! {

/// One translation table: its entries in the order in which they appear.
#[derive(Debug, Clone, PartialEq, Eq)]
pub struct Translations {
    pub entries: Vec<Translation>,
}

/// One raw entry of a translation table.
#[derive(Debug, Clone, PartialEq, Eq)]
pub struct Translation {
    /// The text as stored: a display name and a fact's text run together, or either alone.
    pub key: String,
    /// The text in one language.
    pub value: String,
}

impl View for Translation {
    type V = (Seq<char>, Seq<char>);

    open spec fn view(&self) -> (Seq<char>, Seq<char>) {
        (self.key@, self.value@)
    }
}

/// The entries of a table as pairs of key and value.
pub open spec fn pairs_of(entries: Seq<Translation>) -> Seq<(Seq<char>, Seq<char>)> {
    Seq::new(entries.len(), |i: int| entries[i]@)
}

impl View for Translations {
    type V = Seq<(Seq<char>, Seq<char>)>;

    open spec fn view(&self) -> Seq<(Seq<char>, Seq<char>)> {
        pairs_of(self.entries@)
    }
}

} // verus!
