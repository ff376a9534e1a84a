//! The catalog: objects, their entries and the facts of each entry.

use crate::text::opt_text;
use vstd::prelude::*;

verus! {

/// A fact learned by exploring.
#[derive(Debug, Clone, PartialEq, Eq)]
pub struct ExploreFact {
    pub id: String,
    /// Ignore this fact when deciding whether a card has more to explore.
    pub ignore_more_to_explore: bool,
    pub text: String,
}

/// A fact learned as a rumor.
#[derive(Debug, Clone, PartialEq, Eq)]
pub struct RumorFact {
    pub id: String,
    /// Id of the entry the rumor comes from.
    pub source_id: Option<String>,
    /// Name shown when the rumor stands as a card of its own.
    pub name: Option<String>,
    pub text: String,
}

/// What an explore fact holds.
pub struct ExploreFactView {
    pub id: Seq<char>,
    pub ignore_more_to_explore: bool,
    pub text: Seq<char>,
}

/// What a rumor fact holds.
pub struct RumorFactView {
    pub id: Seq<char>,
    pub source_id: Option<Seq<char>>,
    pub name: Option<Seq<char>>,
    pub text: Seq<char>,
}

/// What an entry holds, in either of its two forms.
pub struct EntryView {
    pub id: Seq<char>,
    pub name: Seq<char>,
    pub curiosity: Option<Seq<char>>,
    pub is_curiosity: bool,
    pub ignore_more_to_explore: bool,
    pub explore: Seq<ExploreFactView>,
    pub rumor: Seq<RumorFactView>,
    pub entries: Seq<EntryView>,
}

impl View for ExploreFact {
    type V = ExploreFactView;

    open spec fn view(&self) -> ExploreFactView {
        ExploreFactView {
            id: self.id@,
            ignore_more_to_explore: self.ignore_more_to_explore,
            text: self.text@,
        }
    }
}

impl View for RumorFact {
    type V = RumorFactView;

    open spec fn view(&self) -> RumorFactView {
        RumorFactView {
            id: self.id@,
            source_id: opt_text(self.source_id),
            name: opt_text(self.name),
            text: self.text@,
        }
    }
}

/// An entry as the game's files hold it.
#[derive(Debug, PartialEq, Eq, Default)]
pub struct XmlEntry {
    pub id: String,
    pub name: String,
    pub curiosity: Option<String>,
    pub is_curiosity: bool,
    /// Ignore the facts of this entry when deciding whether a card has more to explore.
    pub ignore_more_to_explore: bool,
    pub rumor_facts: Vec<RumorFact>,
    pub explore_facts: Vec<ExploreFact>,
    pub entries: Vec<XmlEntry>,
}

/// What a run of explore facts holds.
pub open spec fn explore_views(facts: Seq<ExploreFact>) -> Seq<ExploreFactView> {
    Seq::new(facts.len(), |i: int| facts[i]@)
}

/// What a run of rumor facts holds.
pub open spec fn rumor_views(facts: Seq<RumorFact>) -> Seq<RumorFactView> {
    Seq::new(facts.len(), |i: int| facts[i]@)
}

/// What an entry of the game's files holds.
pub open spec fn xml_entry_view(e: XmlEntry) -> EntryView
    decreases e,
{
    EntryView {
        id: e.id@,
        name: e.name@,
        curiosity: opt_text(e.curiosity),
        is_curiosity: e.is_curiosity,
        ignore_more_to_explore: e.ignore_more_to_explore,
        explore: explore_views(e.explore_facts@),
        rumor: rumor_views(e.rumor_facts@),
        entries: xml_entry_views(e.entries@),
    }
}

/// What a run of entries of the game's files holds.
pub open spec fn xml_entry_views(entries: Seq<XmlEntry>) -> Seq<EntryView>
    decreases entries,
{
    Seq::new(
        entries.len(),
        |i: int|
            if 0 <= i < entries.len() {
                xml_entry_view(entries[i])
            } else {
                arbitrary()
            },
    )
}

impl View for XmlEntry {
    type V = EntryView;

    open spec fn view(&self) -> EntryView {
        xml_entry_view(*self)
    }
}

/// The facts of an entry, by kind.
#[derive(Debug, PartialEq, Eq, Default)]
pub struct JsonEntryFacts {
    pub explore: Vec<ExploreFact>,
    pub rumor: Vec<RumorFact>,
}

/// An entry as it is written out.
#[derive(Debug, PartialEq, Eq, Default)]
pub struct JsonEntry {
    pub id: String,
    pub name: String,
    pub is_curiosity: bool,
    pub curiosity: Option<String>,
    /// Ignore the facts of this entry when deciding whether a card has more to explore.
    pub ignore_more_to_explore: bool,
    pub facts: JsonEntryFacts,
    pub entries: Vec<JsonEntry>,
}

/// What an entry that is written out holds.
pub open spec fn json_entry_view(e: JsonEntry) -> EntryView
    decreases e,
{
    EntryView {
        id: e.id@,
        name: e.name@,
        curiosity: opt_text(e.curiosity),
        is_curiosity: e.is_curiosity,
        ignore_more_to_explore: e.ignore_more_to_explore,
        explore: explore_views(e.facts.explore@),
        rumor: rumor_views(e.facts.rumor@),
        entries: json_entry_views(e.entries@),
    }
}

/// What a run of entries that are written out holds.
pub open spec fn json_entry_views(entries: Seq<JsonEntry>) -> Seq<EntryView>
    decreases entries,
{
    Seq::new(
        entries.len(),
        |i: int|
            if 0 <= i < entries.len() {
                json_entry_view(entries[i])
            } else {
                arbitrary()
            },
    )
}

impl View for JsonEntry {
    type V = EntryView;

    open spec fn view(&self) -> EntryView {
        json_entry_view(*self)
    }
}

/// One object of the catalog with the entries below it.
#[derive(Debug, PartialEq, Eq)]
pub struct AstroObject<Entry> {
    pub id: String,
    pub entries: Vec<Entry>,
}

/// What an object of the catalog holds.
pub struct AstroObjectView {
    pub id: Seq<char>,
    pub entries: Seq<EntryView>,
}

impl View for AstroObject<XmlEntry> {
    type V = AstroObjectView;

    open spec fn view(&self) -> AstroObjectView {
        AstroObjectView { id: self.id@, entries: xml_entry_views(self.entries@) }
    }
}

impl View for AstroObject<JsonEntry> {
    type V = AstroObjectView;

    open spec fn view(&self) -> AstroObjectView {
        AstroObjectView { id: self.id@, entries: json_entry_views(self.entries@) }
    }
}

/// Turns each entry of the game's files into the form that is written out.
fn convert_entries(entries: Vec<XmlEntry>) -> (converted: Vec<JsonEntry>)
    ensures
        json_entry_views(converted@) == xml_entry_views(entries@),
    decreases entries,
{
    let ghost source = entries@;
    let mut converted: Vec<JsonEntry> = Vec::new();
    for entry in it: entries
        invariant
            it.seq() == source,
            converted@.len() == it.index(),
            forall|i: int| 0 <= i < it.index() ==> converted@[i]@ == source[i]@,
    {
        converted.push(JsonEntry::from(entry));
    }
    proof {
        assert(json_entry_views(converted@) =~= xml_entry_views(source));
    }
    converted
}

impl JsonEntry {
    /// The same entry in the form that is written out, its facts grouped by kind.
    pub fn from(value: XmlEntry) -> (json: JsonEntry)
        ensures
            json@ == value@,
        decreases value,
    {
        JsonEntry {
            id: value.id,
            name: value.name,
            curiosity: value.curiosity,
            is_curiosity: value.is_curiosity,
            ignore_more_to_explore: value.ignore_more_to_explore,
            facts: JsonEntryFacts { rumor: value.rumor_facts, explore: value.explore_facts },
            entries: convert_entries(value.entries),
        }
    }
}

impl AstroObject<JsonEntry> {
    /// The same object with its entries in the form that is written out.
    pub fn from(value: AstroObject<XmlEntry>) -> (json: AstroObject<JsonEntry>)
        ensures
            json@ == value@,
    {
        AstroObject { id: value.id, entries: convert_entries(value.entries) }
    }
}

} // verus!
