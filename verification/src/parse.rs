//! Reading the catalog and the translation tables off the tree of a fragment.
//!
//! An element is read field by field. A field is looked up by the name of its
//! tag; tags with other names, tags with a prefix and stray text are passed
//! over. A field that holds one value may come once; a field that holds many
//! comes as one unbroken run of tags.

use crate::markup::{
    element_tree, node_views, read_tokens, root_of, token_views, xml_events, NodeView, TokenView,
    XmlNode, XmlToken,
};
use crate::models::entries::{
    explore_views, rumor_views, xml_entry_views, AstroObject, AstroObjectView,
    EntryView, ExploreFact, ExploreFactView, RumorFact, RumorFactView, XmlEntry,
};
use crate::models::translations::{pairs_of, Translation, Translations};
use crate::text::str_eq;
use vstd::prelude::*;

verus! {

/// Tag of an id.
pub const TAG_ID: &'static str = "ID";

/// Tag of the display name of an entry.
pub const TAG_NAME: &'static str = "Name";

/// Tag of the curiosity an entry belongs to.
pub const TAG_CURIOSITY: &'static str = "Curiosity";

/// Tag that tells whether an entry is a curiosity.
pub const TAG_IS_CURIOSITY: &'static str = "IsCuriosity";

/// Tag that marks an entry or a fact as left out of "more to explore".
pub const TAG_IGNORE_MORE_TO_EXPLORE: &'static str = "IgnoreMoreToExplore";

/// Tag of a rumor fact.
pub const TAG_RUMOR_FACT: &'static str = "RumorFact";

/// Tag of an explore fact.
pub const TAG_EXPLORE_FACT: &'static str = "ExploreFact";

/// Tag of an entry.
pub const TAG_ENTRY: &'static str = "Entry";

/// Tag of the id of the entry a rumor comes from.
pub const TAG_SOURCE_ID: &'static str = "SourceID";

/// Tag of the second display name of a rumor fact.
pub const TAG_RUMOR_NAME: &'static str = "RumorName";

/// Tag of the text of a fact.
pub const TAG_TEXT: &'static str = "Text";

/// Tag of an entry of a ship-log translation table.
pub const TAG_TR_ENTRY: &'static str = "TranslationTableEntry";

/// Tag of an entry of a user-interface translation table.
pub const TAG_TR_ENTRY_UI: &'static str = "TranslationTableEntryUI";

/// Tag of the key of a raw translation entry.
pub const TAG_KEY: &'static str = "key";

/// Tag of the value of a raw translation entry.
pub const TAG_VALUE: &'static str = "value";

/// What looking up a field that holds one value gives.
#[derive(Debug, PartialEq, Eq)]
pub enum Field<T> {
    /// No tag bears the field's name.
    Absent,
    /// One tag bears the field's name, and holds this.
    Present(T),
    /// Several tags bear the field's name, or the one that does holds what the field cannot be.
    Broken,
}

/// `node` is an element without prefix whose tag is `name`.
pub open spec fn is_named(node: NodeView, name: Seq<char>) -> bool {
    node matches NodeView::Element { prefix, name: tag, .. } && prefix is None && tag == name
}

/// Number of the nodes of `kids` whose tag is `name`.
pub open spec fn count_named(kids: Seq<NodeView>, name: Seq<char>) -> nat
    decreases kids.len(),
{
    if kids.len() == 0 {
        0
    } else if is_named(kids.last(), name) {
        count_named(kids.drop_last(), name) + 1
    } else {
        count_named(kids.drop_last(), name)
    }
}

/// The last of the nodes of `kids` whose tag is `name`.
pub open spec fn last_named(kids: Seq<NodeView>, name: Seq<char>) -> Option<NodeView>
    decreases kids.len(),
{
    if kids.len() == 0 {
        None
    } else if is_named(kids.last(), name) {
        Some(kids.last())
    } else {
        last_named(kids.drop_last(), name)
    }
}

/// Number of unbroken runs that the nodes whose tag is `name` form in `kids`.
pub open spec fn runs_named(kids: Seq<NodeView>, name: Seq<char>) -> nat
    decreases kids.len(),
{
    if kids.len() == 0 {
        0
    } else if is_named(kids.last(), name) && !(kids.len() > 1 && is_named(
        kids[kids.len() - 2],
        name,
    )) {
        runs_named(kids.drop_last(), name) + 1
    } else {
        runs_named(kids.drop_last(), name)
    }
}

/// The text inside an element that holds nothing but text, or nothing at all.
pub open spec fn leaf_text(node: NodeView) -> Option<Seq<char>> {
    match node {
        NodeView::Element { children, .. } => if children.len() == 0 {
            Some(Seq::empty())
        } else if children.len() == 1 {
            match children[0] {
                NodeView::Text(text) => Some(text),
                _ => None,
            }
        } else {
            None
        },
        NodeView::Text(_) => None,
    }
}

/// The truth value that a text spells.
pub open spec fn flag_of(text: Seq<char>) -> Option<bool> {
    if text == "true"@ || text == "1"@ {
        Some(true)
    } else if text == "false"@ || text == "0"@ {
        Some(false)
    } else {
        None
    }
}

/// The one node of `kids` whose tag is `name`.
pub open spec fn the_named(kids: Seq<NodeView>, name: Seq<char>) -> Field<NodeView> {
    if count_named(kids, name) > 1 {
        Field::Broken
    } else {
        match last_named(kids, name) {
            Some(node) => Field::Present(node),
            None => Field::Absent,
        }
    }
}

/// The field `name` of `kids` as text.
pub open spec fn text_field(kids: Seq<NodeView>, name: Seq<char>) -> Field<Seq<char>> {
    match the_named(kids, name) {
        Field::Present(node) => match leaf_text(node) {
            Some(text) => Field::Present(text),
            None => Field::Broken,
        },
        Field::Absent => Field::Absent,
        Field::Broken => Field::Broken,
    }
}

/// The field `name` of `kids` as a truth value that is spelled out.
pub open spec fn flag_field(kids: Seq<NodeView>, name: Seq<char>) -> Field<bool> {
    match the_named(kids, name) {
        Field::Present(node) => match node {
            NodeView::Element { children, .. } => if children.len() == 1 {
                match children[0] {
                    NodeView::Text(text) => match flag_of(text) {
                        Some(flag) => Field::Present(flag),
                        None => Field::Broken,
                    },
                    _ => Field::Broken,
                }
            } else {
                Field::Broken
            },
            NodeView::Text(_) => Field::Broken,
        },
        Field::Absent => Field::Absent,
        Field::Broken => Field::Broken,
    }
}

/// The field `name` of `kids` as a mark: it holds where its tag is there at
/// all, whatever text the tag holds.
pub open spec fn marker_field(kids: Seq<NodeView>, name: Seq<char>) -> Field<bool> {
    match text_field(kids, name) {
        Field::Present(_) => Field::Present(true),
        Field::Absent => Field::Absent,
        Field::Broken => Field::Broken,
    }
}

/// The value of a field that may be absent.
pub open spec fn or_none<T>(field: Field<T>) -> Option<T> {
    match field {
        Field::Present(value) => Some(value),
        _ => None,
    }
}

/// Whether the tag of `node` is `name`.
fn named(node: &XmlNode, name: &str) -> (is: bool)
    ensures
        is == is_named(node@, name@),
{
    match node {
        XmlNode::Element { prefix, name: tag, .. } => prefix.is_none() && str_eq(
            tag.as_str(),
            name,
        ),
        XmlNode::Text(_) => false,
    }
}

/// Looks up the one node of `kids` whose tag is `name`.
fn find_named<'a>(kids: &'a Vec<XmlNode>, name: &str) -> (found: Field<&'a XmlNode>)
    ensures
        match found {
            Field::Present(node) => the_named(node_views(kids@), name@) == Field::Present(node@),
            Field::Absent => the_named(node_views(kids@), name@) is Absent,
            Field::Broken => the_named(node_views(kids@), name@) is Broken,
        },
{
    let ghost views = node_views(kids@);
    let mut found: Option<usize> = None;
    let mut several = false;
    let mut i: usize = 0;
    proof {
        assert(views.subrange(0, 0) =~= Seq::empty());
    }
    while i < kids.len()
        invariant
            i <= kids@.len(),
            views == node_views(kids@),
            several == (count_named(views.subrange(0, i as int), name@) > 1),
            match found {
                Some(at) => at < i && count_named(views.subrange(0, i as int), name@) >= 1
                    && last_named(views.subrange(0, i as int), name@) == Some(views[at as int]),
                None => count_named(views.subrange(0, i as int), name@) == 0 && last_named(
                    views.subrange(0, i as int),
                    name@,
                ) is None,
            },
        decreases kids@.len() - i,
    {
        proof {
            assert(views.subrange(0, i + 1).drop_last() =~= views.subrange(0, i as int));
            assert(views.subrange(0, i + 1).last() == kids@[i as int]@);
        }
        if named(&kids[i], name) {
            if found.is_some() {
                several = true;
            }
            found = Some(i);
        }
        i = i + 1;
    }
    proof {
        assert(views.subrange(0, i as int) =~= views);
    }
    if several {
        Field::Broken
    } else {
        match found {
            Some(at) => Field::Present(&kids[at]),
            None => Field::Absent,
        }
    }
}

/// The text inside an element that holds nothing but text, or nothing at all.
fn read_leaf_text(node: &XmlNode) -> (text: Option<String>)
    ensures
        match text {
            Some(text) => leaf_text(node@) == Some(text@),
            None => leaf_text(node@) is None,
        },
{
    match node {
        XmlNode::Element { children, .. } => {
            proof {
                assert(node@->children == node_views(children@));
            }
            if children.len() == 0 {
                Some(String::new())
            } else if children.len() == 1 {
                proof {
                    assert(node_views(children@)[0] == children@[0]@);
                }
                match &children[0] {
                    XmlNode::Text(text) => Some(text.clone()),
                    _ => None,
                }
            } else {
                None
            }
        },
        XmlNode::Text(_) => None,
    }
}

/// Reads the field `name` of `kids` as text.
fn read_text_field(kids: &Vec<XmlNode>, name: &str) -> (field: Field<String>)
    ensures
        match field {
            Field::Present(text) => text_field(node_views(kids@), name@) == Field::Present(text@),
            Field::Absent => text_field(node_views(kids@), name@) is Absent,
            Field::Broken => text_field(node_views(kids@), name@) is Broken,
        },
{
    match find_named(kids, name) {
        Field::Present(node) => match read_leaf_text(node) {
            Some(text) => Field::Present(text),
            None => Field::Broken,
        },
        Field::Absent => Field::Absent,
        Field::Broken => Field::Broken,
    }
}

/// Reads the truth value that a text spells.
fn read_flag(text: &str) -> (flag: Option<bool>)
    ensures
        flag == flag_of(text@),
{
    if str_eq(text, "true") || str_eq(text, "1") {
        Some(true)
    } else if str_eq(text, "false") || str_eq(text, "0") {
        Some(false)
    } else {
        None
    }
}

/// Reads the field `name` of `kids` as a truth value that is spelled out.
fn read_flag_field(kids: &Vec<XmlNode>, name: &str) -> (field: Field<bool>)
    ensures
        field == flag_field(node_views(kids@), name@),
{
    match find_named(kids, name) {
        Field::Present(node) => match node {
            XmlNode::Element { children, .. } => {
                proof {
                    assert(node@->children == node_views(children@));
                    if children@.len() == 1 {
                        assert(node_views(children@)[0] == children@[0]@);
                    }
                }
                if children.len() == 1 {
                    match &children[0] {
                        XmlNode::Text(text) => match read_flag(text.as_str()) {
                            Some(flag) => Field::Present(flag),
                            None => Field::Broken,
                        },
                        _ => Field::Broken,
                    }
                } else {
                    Field::Broken
                }
            },
            XmlNode::Text(_) => Field::Broken,
        },
        Field::Absent => Field::Absent,
        Field::Broken => Field::Broken,
    }
}

/// Reads the field `name` of `kids` as a mark.
fn read_marker_field(kids: &Vec<XmlNode>, name: &str) -> (field: Field<bool>)
    ensures
        field == marker_field(node_views(kids@), name@),
{
    match read_text_field(kids, name) {
        Field::Present(_) => Field::Present(true),
        Field::Absent => Field::Absent,
        Field::Broken => Field::Broken,
    }
}

/// Counts, up to two, the unbroken runs that the nodes whose tag is `name` form in `kids`.
fn count_runs(kids: &Vec<XmlNode>, name: &str) -> (runs: u8)
    ensures
        runs <= 2,
        runs < 2 ==> runs == runs_named(node_views(kids@), name@),
        runs == 2 ==> runs_named(node_views(kids@), name@) >= 2,
{
    let ghost views = node_views(kids@);
    let mut runs: u8 = 0;
    let mut inside = false;
    let mut i: usize = 0;
    proof {
        assert(views.subrange(0, 0) =~= Seq::empty());
    }
    while i < kids.len()
        invariant
            i <= kids@.len(),
            views == node_views(kids@),
            runs <= 2,
            runs < 2 ==> runs == runs_named(views.subrange(0, i as int), name@),
            runs == 2 ==> runs_named(views.subrange(0, i as int), name@) >= 2,
            inside == (i > 0 && is_named(views[i - 1], name@)),
        decreases kids@.len() - i,
    {
        proof {
            let upto = views.subrange(0, i + 1);
            assert(upto.drop_last() =~= views.subrange(0, i as int));
            assert(upto.last() == views[i as int]);
            if i > 0 {
                assert(upto[upto.len() - 2] == views[i - 1]);
            }
        }
        let here = named(&kids[i], name);
        if here && !inside && runs < 2 {
            runs = runs + 1;
        }
        inside = here;
        i = i + 1;
    }
    proof {
        assert(views.subrange(0, i as int) =~= views);
    }
    runs
}

/// Whether the nodes of `kids` whose tag is `name` form at most one unbroken run.
fn single_run(kids: &Vec<XmlNode>, name: &str) -> (single: bool)
    ensures
        single == (runs_named(node_views(kids@), name@) <= 1),
{
    count_runs(kids, name) <= 1
}

/// The children of a node; text has none.
pub open spec fn kids_of(node: NodeView) -> Seq<NodeView> {
    match node {
        NodeView::Element { children, .. } => children,
        NodeView::Text(_) => Seq::empty(),
    }
}

/// The explore fact that an element holds: its `ID` and its `Text` must be
/// there, and the mark `IgnoreMoreToExplore` may be.
pub open spec fn explore_fact_of(node: NodeView) -> Option<ExploreFactView> {
    let kids = kids_of(node);
    let id = text_field(kids, TAG_ID@);
    let ignore = marker_field(kids, TAG_IGNORE_MORE_TO_EXPLORE@);
    let text = text_field(kids, TAG_TEXT@);
    if id is Present && text is Present && !(ignore is Broken) {
        Some(
            ExploreFactView {
                id: id->Present_0,
                ignore_more_to_explore: ignore is Present,
                text: text->Present_0,
            },
        )
    } else {
        None
    }
}

/// The rumor fact that an element holds: its `ID` and its `Text` must be
/// there, `SourceID` and `RumorName` may be.
pub open spec fn rumor_fact_of(node: NodeView) -> Option<RumorFactView> {
    let kids = kids_of(node);
    let id = text_field(kids, TAG_ID@);
    let source_id = text_field(kids, TAG_SOURCE_ID@);
    let name = text_field(kids, TAG_RUMOR_NAME@);
    let text = text_field(kids, TAG_TEXT@);
    if id is Present && text is Present && !(source_id is Broken) && !(name is Broken) {
        Some(
            RumorFactView {
                id: id->Present_0,
                source_id: or_none(source_id),
                name: or_none(name),
                text: text->Present_0,
            },
        )
    } else {
        None
    }
}

/// The explore facts among `kids`, in order; nothing where one of them is broken.
pub open spec fn explore_facts_in(kids: Seq<NodeView>) -> Option<Seq<ExploreFactView>>
    decreases kids.len(),
{
    if kids.len() == 0 {
        Some(Seq::empty())
    } else {
        match explore_facts_in(kids.drop_last()) {
            Some(facts) => if is_named(kids.last(), TAG_EXPLORE_FACT@) {
                match explore_fact_of(kids.last()) {
                    Some(fact) => Some(facts.push(fact)),
                    None => None,
                }
            } else {
                Some(facts)
            },
            None => None,
        }
    }
}

/// The rumor facts among `kids`, in order; nothing where one of them is broken.
pub open spec fn rumor_facts_in(kids: Seq<NodeView>) -> Option<Seq<RumorFactView>>
    decreases kids.len(),
{
    if kids.len() == 0 {
        Some(Seq::empty())
    } else {
        match rumor_facts_in(kids.drop_last()) {
            Some(facts) => if is_named(kids.last(), TAG_RUMOR_FACT@) {
                match rumor_fact_of(kids.last()) {
                    Some(fact) => Some(facts.push(fact)),
                    None => None,
                }
            } else {
                Some(facts)
            },
            None => None,
        }
    }
}

/// The entry that an element holds. Its `ID` and its `Name` must be there;
/// `Curiosity`, `IsCuriosity` and the mark `IgnoreMoreToExplore` may be; its
/// rumor facts, its explore facts and the entries below it each come as one
/// unbroken run of tags.
pub open spec fn entry_of(node: NodeView) -> Option<EntryView>
    decreases node, 1nat,
{
    match node {
        NodeView::Element { children: kids, .. } => {
            let id = text_field(kids, TAG_ID@);
            let name = text_field(kids, TAG_NAME@);
            let curiosity = text_field(kids, TAG_CURIOSITY@);
            let is_curiosity = flag_field(kids, TAG_IS_CURIOSITY@);
            let ignore = marker_field(kids, TAG_IGNORE_MORE_TO_EXPLORE@);
            let rumor = rumor_facts_in(kids);
            let explore = explore_facts_in(kids);
            let entries = entries_in(kids);
            if id is Present && name is Present && !(curiosity is Broken) && !(is_curiosity
                is Broken) && !(ignore is Broken) && runs_named(kids, TAG_RUMOR_FACT@) <= 1
                && runs_named(kids, TAG_EXPLORE_FACT@) <= 1 && runs_named(kids, TAG_ENTRY@) <= 1
                && rumor is Some && explore is Some && entries is Some {
                Some(
                    EntryView {
                        id: id->Present_0,
                        name: name->Present_0,
                        curiosity: or_none(curiosity),
                        is_curiosity: is_curiosity == Field::Present(true),
                        ignore_more_to_explore: ignore is Present,
                        explore: explore->Some_0,
                        rumor: rumor->Some_0,
                        entries: entries->Some_0,
                    },
                )
            } else {
                None
            }
        },
        NodeView::Text(_) => None,
    }
}

/// The entries among `kids`, in order; nothing where one of them is broken.
pub open spec fn entries_in(kids: Seq<NodeView>) -> Option<Seq<EntryView>>
    decreases kids, 0nat,
{
    if kids.len() == 0 {
        Some(Seq::empty())
    } else {
        match entries_in(kids.drop_last()) {
            Some(entries) => if is_named(kids.last(), TAG_ENTRY@) {
                match entry_of(kids.last()) {
                    Some(entry) => Some(entries.push(entry)),
                    None => None,
                }
            } else {
                Some(entries)
            },
            None => None,
        }
    }
}

/// The object of the catalog that the root of a fragment holds: its `ID`
/// must be there, and its entries come as one unbroken run of tags.
pub open spec fn astro_object_of(root: NodeView) -> Option<AstroObjectView> {
    let kids = kids_of(root);
    let id = text_field(kids, TAG_ID@);
    let entries = entries_in(kids);
    if root is Element && id is Present && runs_named(kids, TAG_ENTRY@) <= 1 && entries is Some {
        Some(AstroObjectView { id: id->Present_0, entries: entries->Some_0 })
    } else {
        None
    }
}

/// `node` is an entry of a translation table, of the ship log or of the user interface.
pub open spec fn is_tr_entry(node: NodeView) -> bool {
    is_named(node, TAG_TR_ENTRY@) || is_named(node, TAG_TR_ENTRY_UI@)
}

/// The raw entry that an element holds: its `key` and its `value` must be there.
pub open spec fn translation_of(node: NodeView) -> Option<(Seq<char>, Seq<char>)> {
    let kids = kids_of(node);
    let key = text_field(kids, TAG_KEY@);
    let value = text_field(kids, TAG_VALUE@);
    if key is Present && value is Present {
        Some((key->Present_0, value->Present_0))
    } else {
        None
    }
}

/// The raw entries among `kids`, in order; nothing where one of them is broken.
pub open spec fn translations_in(kids: Seq<NodeView>) -> Option<Seq<(Seq<char>, Seq<char>)>>
    decreases kids.len(),
{
    if kids.len() == 0 {
        Some(Seq::empty())
    } else {
        match translations_in(kids.drop_last()) {
            Some(entries) => if is_tr_entry(kids.last()) {
                match translation_of(kids.last()) {
                    Some(entry) => Some(entries.push(entry)),
                    None => None,
                }
            } else {
                Some(entries)
            },
            None => None,
        }
    }
}

/// The translation table that the root of a fragment holds: its entries
/// come as one unbroken run of tags of one name, and there is at least one.
pub open spec fn translations_of(root: NodeView) -> Option<Seq<(Seq<char>, Seq<char>)>> {
    let kids = kids_of(root);
    if root is Element && runs_named(kids, TAG_TR_ENTRY@) + runs_named(kids, TAG_TR_ENTRY_UI@)
        == 1 {
        translations_in(kids)
    } else {
        None
    }
}

/// The children of an element; text has none.
fn children_of(node: &XmlNode) -> (kids: Option<&Vec<XmlNode>>)
    ensures
        match kids {
            Some(kids) => node@ is Element && kids_of(node@) == node_views(kids@),
            None => node@ is Text && kids_of(node@) == Seq::<NodeView>::empty(),
        },
{
    match node {
        XmlNode::Element { children, .. } => Some(children),
        XmlNode::Text(_) => None,
    }
}

/// Reads the explore fact that an element holds.
fn read_explore_fact(node: &XmlNode) -> (fact: Option<ExploreFact>)
    ensures
        match fact {
            Some(fact) => explore_fact_of(node@) == Some(fact@),
            None => explore_fact_of(node@) is None,
        },
{
    let kids = match children_of(node) {
        Some(kids) => kids,
        None => {
            proof {
                assert(text_field(Seq::empty(), TAG_ID@) is Absent);
            }
            return None;
        },
    };
    let id = read_text_field(kids, TAG_ID);
    let ignore = read_marker_field(kids, TAG_IGNORE_MORE_TO_EXPLORE);
    let text = read_text_field(kids, TAG_TEXT);
    match (id, ignore, text) {
        (Field::Present(id), Field::Present(_), Field::Present(text)) => Some(
            ExploreFact { id, ignore_more_to_explore: true, text },
        ),
        (Field::Present(id), Field::Absent, Field::Present(text)) => Some(
            ExploreFact { id, ignore_more_to_explore: false, text },
        ),
        _ => None,
    }
}

/// The value of a field that may be absent.
fn optional(field: Field<String>) -> (value: Option<String>)
    ensures
        value == or_none(field),
{
    match field {
        Field::Present(value) => Some(value),
        _ => None,
    }
}

/// Reads the rumor fact that an element holds.
fn read_rumor_fact(node: &XmlNode) -> (fact: Option<RumorFact>)
    ensures
        match fact {
            Some(fact) => rumor_fact_of(node@) == Some(fact@),
            None => rumor_fact_of(node@) is None,
        },
{
    let kids = match children_of(node) {
        Some(kids) => kids,
        None => {
            proof {
                assert(text_field(Seq::empty(), TAG_ID@) is Absent);
            }
            return None;
        },
    };
    let id = read_text_field(kids, TAG_ID);
    let source_id = read_text_field(kids, TAG_SOURCE_ID);
    let name = read_text_field(kids, TAG_RUMOR_NAME);
    let text = read_text_field(kids, TAG_TEXT);
    if matches!(source_id, Field::Broken) || matches!(name, Field::Broken) {
        return None;
    }
    match (id, text) {
        (Field::Present(id), Field::Present(text)) => Some(
            RumorFact { id, source_id: optional(source_id), name: optional(name), text },
        ),
        _ => None,
    }
}

/// Reads the explore facts among `kids`.
fn read_explore_facts(kids: &Vec<XmlNode>) -> (facts: Option<Vec<ExploreFact>>)
    ensures
        match facts {
            Some(facts) => explore_facts_in(node_views(kids@)) == Some(explore_views(facts@)),
            None => explore_facts_in(node_views(kids@)) is None,
        },
{
    let ghost views = node_views(kids@);
    let mut facts: Vec<ExploreFact> = Vec::new();
    let mut i: usize = 0;
    proof {
        assert(views.subrange(0, 0) =~= Seq::empty());
        assert(explore_views(facts@) =~= Seq::empty());
    }
    while i < kids.len()
        invariant
            i <= kids@.len(),
            views == node_views(kids@),
            explore_facts_in(views.subrange(0, i as int)) == Some(explore_views(facts@)),
        decreases kids@.len() - i,
    {
        proof {
            assert(views.subrange(0, i + 1).drop_last() =~= views.subrange(0, i as int));
            assert(views.subrange(0, i + 1).last() == kids@[i as int]@);
        }
        if named(&kids[i], TAG_EXPLORE_FACT) {
            match read_explore_fact(&kids[i]) {
                Some(fact) => {
                    let ghost before = facts@;
                    facts.push(fact);
                    proof {
                        assert(explore_views(facts@) =~= explore_views(before).push(fact@));
                    }
                },
                None => {
                    proof {
                        lemma_explore_facts_broken(views, i + 1);
                    }
                    return None;
                },
            }
        }
        i = i + 1;
    }
    proof {
        assert(views.subrange(0, i as int) =~= views);
    }
    Some(facts)
}

/// Once a run of nodes holds a broken explore fact, so does every longer run.
proof fn lemma_explore_facts_broken(kids: Seq<NodeView>, upto: int)
    requires
        0 <= upto <= kids.len(),
        explore_facts_in(kids.subrange(0, upto)) is None,
    ensures
        explore_facts_in(kids) is None,
    decreases kids.len() - upto,
{
    if upto < kids.len() {
        assert(kids.subrange(0, upto + 1).drop_last() =~= kids.subrange(0, upto));
        lemma_explore_facts_broken(kids, upto + 1);
    } else {
        assert(kids.subrange(0, upto) =~= kids);
    }
}

/// Reads the rumor facts among `kids`.
fn read_rumor_facts(kids: &Vec<XmlNode>) -> (facts: Option<Vec<RumorFact>>)
    ensures
        match facts {
            Some(facts) => rumor_facts_in(node_views(kids@)) == Some(rumor_views(facts@)),
            None => rumor_facts_in(node_views(kids@)) is None,
        },
{
    let ghost views = node_views(kids@);
    let mut facts: Vec<RumorFact> = Vec::new();
    let mut i: usize = 0;
    proof {
        assert(views.subrange(0, 0) =~= Seq::empty());
        assert(rumor_views(facts@) =~= Seq::empty());
    }
    while i < kids.len()
        invariant
            i <= kids@.len(),
            views == node_views(kids@),
            rumor_facts_in(views.subrange(0, i as int)) == Some(rumor_views(facts@)),
        decreases kids@.len() - i,
    {
        proof {
            assert(views.subrange(0, i + 1).drop_last() =~= views.subrange(0, i as int));
            assert(views.subrange(0, i + 1).last() == kids@[i as int]@);
        }
        if named(&kids[i], TAG_RUMOR_FACT) {
            match read_rumor_fact(&kids[i]) {
                Some(fact) => {
                    let ghost before = facts@;
                    facts.push(fact);
                    proof {
                        assert(rumor_views(facts@) =~= rumor_views(before).push(fact@));
                    }
                },
                None => {
                    proof {
                        lemma_rumor_facts_broken(views, i + 1);
                    }
                    return None;
                },
            }
        }
        i = i + 1;
    }
    proof {
        assert(views.subrange(0, i as int) =~= views);
    }
    Some(facts)
}

/// Once a run of nodes holds a broken rumor fact, so does every longer run.
proof fn lemma_rumor_facts_broken(kids: Seq<NodeView>, upto: int)
    requires
        0 <= upto <= kids.len(),
        rumor_facts_in(kids.subrange(0, upto)) is None,
    ensures
        rumor_facts_in(kids) is None,
    decreases kids.len() - upto,
{
    if upto < kids.len() {
        assert(kids.subrange(0, upto + 1).drop_last() =~= kids.subrange(0, upto));
        lemma_rumor_facts_broken(kids, upto + 1);
    } else {
        assert(kids.subrange(0, upto) =~= kids);
    }
}

/// Once a run of nodes holds a broken entry, so does every longer run.
proof fn lemma_entries_broken(kids: Seq<NodeView>, upto: int)
    requires
        0 <= upto <= kids.len(),
        entries_in(kids.subrange(0, upto)) is None,
    ensures
        entries_in(kids) is None,
    decreases kids.len() - upto,
{
    if upto < kids.len() {
        assert(kids.subrange(0, upto + 1).drop_last() =~= kids.subrange(0, upto));
        lemma_entries_broken(kids, upto + 1);
    } else {
        assert(kids.subrange(0, upto) =~= kids);
    }
}

/// Reads the entries among `kids`, each with all that lies below it.
fn read_entries(kids: &Vec<XmlNode>) -> (entries: Option<Vec<XmlEntry>>)
    ensures
        match entries {
            Some(entries) => entries_in(node_views(kids@)) == Some(xml_entry_views(entries@)),
            None => entries_in(node_views(kids@)) is None,
        },
    decreases kids@, 0nat,
{
    let ghost views = node_views(kids@);
    let mut entries: Vec<XmlEntry> = Vec::new();
    let mut i: usize = 0;
    proof {
        assert(views.subrange(0, 0) =~= Seq::empty());
        assert(xml_entry_views(entries@) =~= Seq::empty());
    }
    while i < kids.len()
        invariant
            i <= kids@.len(),
            views == node_views(kids@),
            entries_in(views.subrange(0, i as int)) == Some(xml_entry_views(entries@)),
        decreases kids@.len() - i,
    {
        proof {
            assert(views.subrange(0, i + 1).drop_last() =~= views.subrange(0, i as int));
            assert(views.subrange(0, i + 1).last() == kids@[i as int]@);
        }
        if named(&kids[i], TAG_ENTRY) {
            match read_entry(&kids[i]) {
                Some(entry) => {
                    let ghost before = entries@;
                    entries.push(entry);
                    proof {
                        assert(xml_entry_views(entries@) =~= xml_entry_views(before).push(entry@));
                    }
                },
                None => {
                    proof {
                        lemma_entries_broken(views, i + 1);
                    }
                    return None;
                },
            }
        }
        i = i + 1;
    }
    proof {
        assert(views.subrange(0, i as int) =~= views);
    }
    Some(entries)
}

/// Reads the entry that an element holds, with all that lies below it.
fn read_entry(node: &XmlNode) -> (entry: Option<XmlEntry>)
    ensures
        match entry {
            Some(entry) => entry_of(node@) == Some(entry@),
            None => entry_of(node@) is None,
        },
    decreases node, 1nat,
{
    let kids = match node {
        XmlNode::Element { children, .. } => children,
        XmlNode::Text(_) => {
            return None;
        },
    };
    proof {
        assert(node@->children == node_views(kids@));
    }
    let id = read_text_field(kids, TAG_ID);
    let name = read_text_field(kids, TAG_NAME);
    let curiosity = read_text_field(kids, TAG_CURIOSITY);
    let is_curiosity = read_flag_field(kids, TAG_IS_CURIOSITY);
    let ignore = read_marker_field(kids, TAG_IGNORE_MORE_TO_EXPLORE);
    if matches!(curiosity, Field::Broken) || matches!(is_curiosity, Field::Broken) || matches!(
        ignore,
        Field::Broken
    ) {
        return None;
    }
    if !single_run(kids, TAG_RUMOR_FACT) || !single_run(kids, TAG_EXPLORE_FACT) || !single_run(
        kids,
        TAG_ENTRY,
    ) {
        return None;
    }
    let rumor_facts = match read_rumor_facts(kids) {
        Some(facts) => facts,
        None => {
            return None;
        },
    };
    let explore_facts = match read_explore_facts(kids) {
        Some(facts) => facts,
        None => {
            return None;
        },
    };
    let entries = match read_entries(kids) {
        Some(entries) => entries,
        None => {
            return None;
        },
    };
    match (id, name) {
        (Field::Present(id), Field::Present(name)) => Some(
            XmlEntry {
                id,
                name,
                curiosity: optional(curiosity),
                is_curiosity: matches!(is_curiosity, Field::Present(true)),
                ignore_more_to_explore: matches!(ignore, Field::Present(_)),
                rumor_facts,
                explore_facts,
                entries,
            },
        ),
        _ => None,
    }
}

/// Why a fragment could not be read.
#[derive(Debug)]
pub enum ParseError {
    /// The text is not well-formed markup.
    Malformed(xml::reader::Error),
    /// The tags are not those of the thing that was looked for.
    Structure,
}

/// Reads the object of the catalog that the root of a fragment holds.
pub fn astro_object_of_tree(root: &XmlNode) -> (object: Option<AstroObject<XmlEntry>>)
    ensures
        match object {
            Some(object) => astro_object_of(root@) == Some(object@),
            None => astro_object_of(root@) is None,
        },
{
    let kids = match children_of(root) {
        Some(kids) => kids,
        None => {
            return None;
        },
    };
    if !single_run(kids, TAG_ENTRY) {
        return None;
    }
    let entries = match read_entries(kids) {
        Some(entries) => entries,
        None => {
            return None;
        },
    };
    match read_text_field(kids, TAG_ID) {
        Field::Present(id) => Some(AstroObject { id, entries }),
        _ => None,
    }
}

/// Reads the raw entry that an element holds.
fn read_translation(node: &XmlNode) -> (entry: Option<Translation>)
    ensures
        match entry {
            Some(entry) => translation_of(node@) == Some(entry@),
            None => translation_of(node@) is None,
        },
{
    let kids = match children_of(node) {
        Some(kids) => kids,
        None => {
            proof {
                assert(text_field(Seq::empty(), TAG_KEY@) is Absent);
            }
            return None;
        },
    };
    let key = read_text_field(kids, TAG_KEY);
    let value = read_text_field(kids, TAG_VALUE);
    match (key, value) {
        (Field::Present(key), Field::Present(value)) => Some(Translation { key, value }),
        _ => None,
    }
}

/// Once a run of nodes holds a broken raw entry, so does every longer run.
proof fn lemma_translations_broken(kids: Seq<NodeView>, upto: int)
    requires
        0 <= upto <= kids.len(),
        translations_in(kids.subrange(0, upto)) is None,
    ensures
        translations_in(kids) is None,
    decreases kids.len() - upto,
{
    if upto < kids.len() {
        assert(kids.subrange(0, upto + 1).drop_last() =~= kids.subrange(0, upto));
        lemma_translations_broken(kids, upto + 1);
    } else {
        assert(kids.subrange(0, upto) =~= kids);
    }
}

/// Reads the translation table that the root of a fragment holds.
pub fn translations_of_tree(root: &XmlNode) -> (table: Option<Translations>)
    ensures
        match table {
            Some(table) => translations_of(root@) == Some(table@),
            None => translations_of(root@) is None,
        },
{
    let kids = match children_of(root) {
        Some(kids) => kids,
        None => {
            return None;
        },
    };
    let ghost views = node_views(kids@);
    if count_runs(kids, TAG_TR_ENTRY) + count_runs(kids, TAG_TR_ENTRY_UI) != 1 {
        return None;
    }
    let mut entries: Vec<Translation> = Vec::new();
    let mut i: usize = 0;
    proof {
        assert(views.subrange(0, 0) =~= Seq::empty());
        assert(pairs_of(entries@) =~= Seq::empty());
    }
    while i < kids.len()
        invariant
            i <= kids@.len(),
            views == node_views(kids@),
            root@ is Element,
            kids_of(root@) == views,
            runs_named(views, TAG_TR_ENTRY@) + runs_named(views, TAG_TR_ENTRY_UI@) == 1,
            translations_in(views.subrange(0, i as int)) == Some(pairs_of(entries@)),
        decreases kids@.len() - i,
    {
        proof {
            assert(views.subrange(0, i + 1).drop_last() =~= views.subrange(0, i as int));
            assert(views.subrange(0, i + 1).last() == kids@[i as int]@);
        }
        if named(&kids[i], TAG_TR_ENTRY) || named(&kids[i], TAG_TR_ENTRY_UI) {
            match read_translation(&kids[i]) {
                Some(entry) => {
                    let ghost before = entries@;
                    entries.push(entry);
                    proof {
                        assert(pairs_of(entries@) =~= pairs_of(before).push(entry@));
                    }
                },
                None => {
                    proof {
                        lemma_translations_broken(views, i + 1);
                    }
                    return None;
                },
            }
        }
        i = i + 1;
    }
    proof {
        assert(views.subrange(0, i as int) =~= views);
    }
    Some(Translations { entries })
}

/// The object of the catalog that a run of tokens holds.
pub open spec fn astro_object_of_tokens(tokens: Seq<TokenView>) -> Option<AstroObjectView> {
    match root_of(tokens) {
        Some(root) => astro_object_of(root),
        None => None,
    }
}

/// The translation table that a run of tokens holds.
pub open spec fn translations_of_tokens(tokens: Seq<TokenView>) -> Option<
    Seq<(Seq<char>, Seq<char>)>,
> {
    match root_of(tokens) {
        Some(root) => translations_of(root),
        None => None,
    }
}

/// Reads the object of the catalog that a run of tokens holds.
pub fn astro_object_from_tokens(tokens: Vec<XmlToken>) -> (object: Option<AstroObject<XmlEntry>>)
    ensures
        match object {
            Some(object) => astro_object_of_tokens(token_views(tokens@)) == Some(object@),
            None => astro_object_of_tokens(token_views(tokens@)) is None,
        },
{
    match element_tree(tokens) {
        Some(root) => astro_object_of_tree(&root),
        None => None,
    }
}

/// Reads the translation table that a run of tokens holds.
pub fn translations_from_tokens(tokens: Vec<XmlToken>) -> (table: Option<Translations>)
    ensures
        match table {
            Some(table) => translations_of_tokens(token_views(tokens@)) == Some(table@),
            None => translations_of_tokens(token_views(tokens@)) is None,
        },
{
    match element_tree(tokens) {
        Some(root) => translations_of_tree(&root),
        None => None,
    }
}

/// Parses one fragment of the catalog.
pub fn parse_astro_object(data: &str) -> (parsed: Result<AstroObject<XmlEntry>, ParseError>)
    ensures
        match parsed {
            Ok(object) => xml_events(data@) matches Some(tokens) && astro_object_of_tokens(tokens)
                == Some(object@),
            Err(ParseError::Malformed(_)) => xml_events(data@) is None,
            Err(ParseError::Structure) => xml_events(data@) matches Some(tokens)
                && astro_object_of_tokens(tokens) is None,
        },
{
    match read_tokens(data) {
        Ok(tokens) => match astro_object_from_tokens(tokens) {
            Some(object) => Ok(object),
            None => Err(ParseError::Structure),
        },
        Err(e) => Err(ParseError::Malformed(e)),
    }
}

/// Parses one translation table.
pub fn parse_tr_object(data: &str) -> (parsed: Result<Translations, ParseError>)
    ensures
        match parsed {
            Ok(table) => xml_events(data@) matches Some(tokens) && translations_of_tokens(tokens)
                == Some(table@),
            Err(ParseError::Malformed(_)) => xml_events(data@) is None,
            Err(ParseError::Structure) => xml_events(data@) matches Some(tokens)
                && translations_of_tokens(tokens) is None,
        },
{
    match read_tokens(data) {
        Ok(tokens) => match translations_from_tokens(tokens) {
            Some(table) => Ok(table),
            None => Err(ParseError::Structure),
        },
        Err(e) => Err(ParseError::Malformed(e)),
    }
}

} // verus!
