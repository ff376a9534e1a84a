//! The run as a whole: from the tables of all languages to one map from id to
//! translation for each language.

use crate::extract::{
    extract_astro_object, extract_shiplog_tr_object, extract_ui_tr_object,
    lemma_encoding_nonempty, lemma_fragment_bounds, next_fragment, FindError, ASTRO_OBJECT_END, ASTRO_OBJECT_START, TR_SHIPLOG_END,
    TR_SHIPLOG_START, TR_UI_END, TR_UI_START,
};
use crate::fanout::{
    alt_key, fan_out, fanned_out, ids_apart, lemma_fact_is_target, lemma_shared_text, listed,
    targets, unresolved_texts, Reconciled,
};
use crate::index::{
    explore_texts, fact_texts_of, first_texts, forest_alt_names, forest_fact_texts,
    forest_names, forest_views, ids_under, index_of_forest, lemma_ids_under_contains, names_of,
    rumor_texts, text_values, CatalogIndex, CatalogIndexView,
};
use crate::info::Lang;
use crate::markup::xml_events;
use crate::models::entries::{AstroObject, AstroObjectView, EntryView, JsonEntry};
use crate::models::translations::{pairs_of, Translation};
use crate::parse::{
    astro_object_of_tokens, parse_astro_object, parse_tr_object, translations_of_tokens,
    ParseError,
};
use crate::reconcile::{
    CleanedView, clean_one, clean_tables, cleaned_table, cleaned_tables, cleaned_views, prefix_after, rule_of,
    tables_of, CleanError, ConfigView, KeyRule, ReconcilerConfig, MORE_TO_EXPLORE_EXTRACT_KEY,
};
use crate::strmap::texts_of;
use crate::text::{shouty_snake_case, str_eq};
use vstd::prelude::*;
use vstd::string::*;
use vstd::utf8::*;

verus! {

/// A catalog of one entry with one fact, and a table of one raw entry whose
/// key is the entry's name and the fact's text run together: the fact gets
/// the value of that raw entry.
pub proof fn lemma_single_fact(
    config: ConfigView,
    object_id: Seq<char>,
    entry: EntryView,
    fact_id: Seq<char>,
    text: Seq<char>,
    value: Seq<char>,
)
    requires
        entry.entries.len() == 0,
        explore_texts(entry.explore) + rumor_texts(entry.rumor) == seq![(text, fact_id)],
        !config.exceptions.contains(entry.name + text),
        entry.name + text != config.sentinel_key,
    ensures
        ({
            let forest = seq![AstroObjectView { id: object_id, entries: seq![entry] }];
            let index = index_of_forest(forest);
            let raw = seq![(entry.name + text, value)];
            let cleaned = cleaned_table(config, index.name_order, index.name_order[0], raw);
            &&& index.name_order == seq![entry.name]
            &&& fanned_out(config, index, cleaned).contains_key(fact_id)
            &&& fanned_out(config, index, cleaned)[fact_id] == value
        }),
{
    let forest = seq![AstroObjectView { id: object_id, entries: seq![entry] }];
    let index = index_of_forest(forest);
    let key = entry.name + text;
    let raw = seq![(key, value)];
    let entries = seq![entry];
    assert(forest.drop_last() =~= Seq::empty());
    assert(entries.drop_last() =~= Seq::empty());
    assert(forest.last().entries == entries);
    assert(entries.last() == entry);
    let names = seq![(entry.name, entry.id)];
    assert(entry.entries =~= Seq::empty());
    assert(names_of(Seq::<EntryView>::empty()) =~= Seq::empty());
    assert(names_of(entries) =~= names);
    assert(forest_names(Seq::<AstroObjectView>::empty()) =~= Seq::empty());
    assert(forest_names(forest) =~= names);
    assert(names.drop_last() =~= Seq::empty());
    assert(first_texts(Seq::<(Seq<char>, Seq<char>)>::empty()) =~= Seq::empty());
    assert(!first_texts(names.drop_last()).contains(entry.name));
    assert(first_texts(names) =~= seq![entry.name]);
    let facts = seq![(text, fact_id)];
    assert(fact_texts_of(Seq::<EntryView>::empty()) =~= Seq::empty());
    assert(fact_texts_of(entries) =~= facts);
    assert(forest_fact_texts(Seq::<AstroObjectView>::empty()) =~= Seq::empty());
    assert(forest_fact_texts(forest) =~= facts);
    assert(facts[0].0 == text);
    assert(facts.drop_last() =~= Seq::empty());
    assert(ids_under(Seq::<(Seq<char>, Seq<char>)>::empty(), text) =~= Seq::empty());
    assert(ids_under(facts, text) =~= seq![fact_id]);
    assert(ids_under(facts, text)[0] == fact_id);
    assert(index.facts.contains_key(text));
    lemma_fact_is_target(index, text, fact_id);

    let order = index.name_order;
    assert(raw.subrange(0, 0) =~= Seq::empty());
    assert(prefix_after(config, order, order[0], raw.subrange(0, 0)) == entry.name);
    assert(key.subrange(0, entry.name.len() as int) =~= entry.name);
    assert(rule_of(config, order, entry.name, key) == KeyRule::CurrentPrefix);
    assert(key.skip(entry.name.len() as int) =~= text);
    let cleaned = cleaned_table(config, order, order[0], raw);
    assert(cleaned[0] == clean_one(config, order, entry.name, key, value));
    assert(cleaned.drop_last() =~= Seq::empty());
    assert(cleaned.last() == cleaned[0]);
}

/// Why the fragments of a buffer could not be loaded.
#[derive(Debug)]
pub enum LoadError {
    /// A fragment is not UTF-8.
    Utf8Error(std::str::Utf8Error),
    /// A fragment could not be read.
    Parse(ParseError),
}

/// The three ways in which loading fails.
#[derive(PartialEq, Eq, Structural)]
pub enum LoadFailure {
    /// A fragment is not UTF-8.
    Encoding,
    /// A fragment is not well-formed markup.
    Malformed,
    /// A fragment's tags are not those of the thing that was looked for.
    Structure,
}

/// The failure that an error tells of.
pub open spec fn failure_of(error: LoadError) -> LoadFailure {
    match error {
        LoadError::Utf8Error(_) => LoadFailure::Encoding,
        LoadError::Parse(ParseError::Malformed(_)) => LoadFailure::Malformed,
        LoadError::Parse(ParseError::Structure) => LoadFailure::Structure,
    }
}

/// The object of the catalog in the fragment of `data` from `start` to `end`.
pub open spec fn astro_object_at(data: Seq<u8>, start: int, end: int) -> Result<
    AstroObjectView,
    LoadFailure,
> {
    let bytes = data.subrange(start, end);
    if !valid_utf8(bytes) {
        Err(LoadFailure::Encoding)
    } else {
        match xml_events(decode_utf8(bytes)) {
            None => Err(LoadFailure::Malformed),
            Some(tokens) => match astro_object_of_tokens(tokens) {
                Some(object) => Ok(object),
                None => Err(LoadFailure::Structure),
            },
        }
    }
}

/// `first` before each of `rest`, where there is a rest.
pub open spec fn and_then<T>(first: Seq<T>, rest: Result<Seq<T>, LoadFailure>) -> Result<
    Seq<T>,
    LoadFailure,
> {
    match rest {
        Ok(rest) => Ok(first + rest),
        Err(failure) => Err(failure),
    }
}

/// The objects of the catalog in the fragments of `data` from `offset` on,
/// each fragment looked for from where the one before it ended; or the
/// failure of the first fragment that cannot be loaded.
pub open spec fn astro_objects_from(data: Seq<u8>, offset: int) -> Result<
    Seq<AstroObjectView>,
    LoadFailure,
>
    decreases data.len() - offset,
    when ASTRO_OBJECT_END.spec_bytes().len() > 0
{
    match next_fragment(
        data,
        offset,
        ASTRO_OBJECT_START.spec_bytes(),
        ASTRO_OBJECT_END.spec_bytes(),
    ) {
        None => Ok(Seq::empty()),
        Some((start, end)) => {
            proof {
                lemma_fragment_bounds(
                    data,
                    offset,
                    ASTRO_OBJECT_START.spec_bytes(),
                    ASTRO_OBJECT_END.spec_bytes(),
                );
            }
            match astro_object_at(data, start, end) {
                Ok(object) => and_then(seq![object], astro_objects_from(data, end)),
                Err(failure) => Err(failure),
            }
        },
    }
}

/// Loads every object of the catalog from `data`, one fragment after another.
pub fn load_astro_objects(data: &[u8]) -> (loaded: Result<Vec<AstroObject<JsonEntry>>, LoadError>)
    ensures
        match loaded {
            Ok(objects) => astro_objects_from(data@, 0) == Ok::<_, LoadFailure>(
                forest_views(objects@),
            ),
            Err(error) => astro_objects_from(data@, 0) == Err::<Seq<AstroObjectView>, _>(
                failure_of(error),
            ),
        },
{
    proof {
        reveal_strlit("</AstroObjectEntry>");
        lemma_encoding_nonempty(ASTRO_OBJECT_END@);
    }
    let mut offset: usize = 0;
    let mut astro_objects: Vec<AstroObject<JsonEntry>> = Vec::new();
    proof {
        assert(forest_views(astro_objects@) =~= Seq::empty());
        assert(Seq::<AstroObjectView>::empty() + Seq::<AstroObjectView>::empty() =~= Seq::empty());
    }
    loop
        invariant
            ASTRO_OBJECT_END.spec_bytes().len() > 0,
            astro_objects_from(data@, 0) == and_then(
                forest_views(astro_objects@),
                astro_objects_from(data@, offset as int),
            ),
        decreases data@.len() - offset,
    {
        let ghost done = forest_views(astro_objects@);
        match extract_astro_object(data, offset) {
            Ok((text, next_offset)) => {
                let object = match parse_astro_object(text) {
                    Ok(object) => object,
                    Err(e) => {
                        return Err(LoadError::Parse(e));
                    },
                };
                let object = AstroObject::<JsonEntry>::from(object);
                astro_objects.push(object);
                proof {
                    assert(forest_views(astro_objects@) =~= done.push(object@));
                    let rest = astro_objects_from(data@, next_offset as int);
                    if let Ok(rest) = rest {
                        assert(done + (seq![object@] + rest) =~= done.push(object@) + rest);
                    }
                }
                offset = next_offset;
            },
            Err(e) => match e {
                FindError::NotFound => {
                    proof {
                        assert(done + Seq::<AstroObjectView>::empty() =~= done);
                    }
                    return Ok(astro_objects);
                },
                FindError::Utf8Error(e) => {
                    return Err(LoadError::Utf8Error(e));
                },
            },
        }
    }
}

/// The translation table in the fragment of `data` from `start` to `end`.
pub open spec fn table_at(data: Seq<u8>, start: int, end: int) -> Result<
    Seq<(Seq<char>, Seq<char>)>,
    LoadFailure,
> {
    let bytes = data.subrange(start, end);
    if !valid_utf8(bytes) {
        Err(LoadFailure::Encoding)
    } else {
        match xml_events(decode_utf8(bytes)) {
            None => Err(LoadFailure::Malformed),
            Some(tokens) => match translations_of_tokens(tokens) {
                Some(table) => Ok(table),
                None => Err(LoadFailure::Structure),
            },
        }
    }
}

/// The test that a raw entry has the key `key`.
pub open spec fn has_key(key: Seq<char>) -> spec_fn((Seq<char>, Seq<char>)) -> bool {
    |entry: (Seq<char>, Seq<char>)| entry.0 == key
}

/// The next table of `data` at or after `offset`: of the user interface
/// where `ui` holds, else of the ship log.
pub open spec fn next_table(data: Seq<u8>, offset: int, ui: bool) -> Option<(int, int)> {
    if ui {
        next_fragment(data, offset, TR_UI_START.spec_bytes(), TR_UI_END.spec_bytes())
    } else {
        next_fragment(data, offset, TR_SHIPLOG_START.spec_bytes(), TR_SHIPLOG_END.spec_bytes())
    }
}

/// The tables of all languages in `data` from `offset` on. A table of the
/// ship log and the table of the user interface that follows it make the
/// table of one language: all entries of the first, then those entries of
/// the second whose key is `key`. `pending` holds the entries of a ship-log
/// table whose user-interface table is still to come; where none comes, they
/// are dropped.
pub open spec fn tables_from(
    data: Seq<u8>,
    offset: int,
    key: Seq<char>,
    ui: bool,
    pending: Seq<(Seq<char>, Seq<char>)>,
) -> Result<Seq<Seq<(Seq<char>, Seq<char>)>>, LoadFailure>
    decreases data.len() - offset,
    when TR_SHIPLOG_END.spec_bytes().len() > 0 && TR_UI_END.spec_bytes().len() > 0
{
    match next_table(data, offset, ui) {
        None => Ok(Seq::empty()),
        Some((start, end)) => {
            proof {
                lemma_fragment_bounds(
                    data,
                    offset,
                    TR_UI_START.spec_bytes(),
                    TR_UI_END.spec_bytes(),
                );
                lemma_fragment_bounds(
                    data,
                    offset,
                    TR_SHIPLOG_START.spec_bytes(),
                    TR_SHIPLOG_END.spec_bytes(),
                );
            }
            match table_at(data, start, end) {
                Ok(entries) => if ui {
                    and_then(
                        seq![pending + entries.filter(has_key(key))],
                        tables_from(data, end, key, false, Seq::empty()),
                    )
                } else {
                    tables_from(data, end, key, true, entries)
                },
                Err(failure) => Err(failure),
            }
        },
    }
}

/// Loads the tables of all languages from `data`: in turn a table of the
/// ship log and a table of the user interface, of which only the entry for
/// "There's more to explore" is kept.
pub fn load_tr_objects(data: &[u8]) -> (loaded: Result<Vec<Vec<Translation>>, LoadError>)
    ensures
        match loaded {
            Ok(tables) => tables_from(
                data@,
                0,
                MORE_TO_EXPLORE_EXTRACT_KEY@,
                false,
                Seq::empty(),
            ) == Ok::<_, LoadFailure>(tables_of(tables@)),
            Err(error) => tables_from(data@, 0, MORE_TO_EXPLORE_EXTRACT_KEY@, false, Seq::empty())
                == Err::<Seq<Seq<(Seq<char>, Seq<char>)>>, _>(failure_of(error)),
        },
{
    proof {
        reveal_strlit("</table_shipLog>");
        reveal_strlit("</table_ui>");
        lemma_encoding_nonempty(TR_SHIPLOG_END@);
        lemma_encoding_nonempty(TR_UI_END@);
    }
    let ghost key = MORE_TO_EXPLORE_EXTRACT_KEY@;
    let mut offset: usize = 0;
    let mut tr_objects: Vec<Vec<Translation>> = Vec::new();
    let mut is_ui_table = false;
    let mut objects: Vec<Translation> = Vec::new();
    proof {
        assert(tables_of(tr_objects@) =~= Seq::empty());
        assert(pairs_of(objects@) =~= Seq::empty());
        assert(Seq::<Seq<(Seq<char>, Seq<char>)>>::empty() + Seq::<
            Seq<(Seq<char>, Seq<char>)>,
        >::empty() =~= Seq::empty());
    }
    loop
        invariant
            TR_SHIPLOG_END.spec_bytes().len() > 0,
            TR_UI_END.spec_bytes().len() > 0,
            key == MORE_TO_EXPLORE_EXTRACT_KEY@,
            tables_from(data@, 0, key, false, Seq::empty()) == and_then(
                tables_of(tr_objects@),
                tables_from(data@, offset as int, key, is_ui_table, pairs_of(objects@)),
            ),
        decreases data@.len() - offset,
    {
        let ghost done = tables_of(tr_objects@);
        let ghost pending = pairs_of(objects@);
        let extracted = if is_ui_table {
            extract_ui_tr_object(data, offset)
        } else {
            extract_shiplog_tr_object(data, offset)
        };
        let (text, next_offset) = match extracted {
            Ok(found) => found,
            Err(e) => match e {
                FindError::NotFound => {
                    proof {
                        assert(done + Seq::<Seq<(Seq<char>, Seq<char>)>>::empty() =~= done);
                    }
                    return Ok(tr_objects);
                },
                FindError::Utf8Error(e) => {
                    return Err(LoadError::Utf8Error(e));
                },
            },
        };
        let tr_object = match parse_tr_object(text) {
            Ok(table) => table,
            Err(e) => {
                return Err(LoadError::Parse(e));
            },
        };
        let ghost entries = tr_object@;
        if is_ui_table {
            proof {
                reveal(Seq::filter);
                assert(entries.subrange(0, 0) =~= Seq::empty());
                assert(pending + entries.subrange(0, 0).filter(has_key(key)) =~= pending);
            }
            for entry in it: tr_object.entries
                invariant
                    it.seq() == tr_object.entries@,
                    entries == pairs_of(tr_object.entries@),
                    key == MORE_TO_EXPLORE_EXTRACT_KEY@,
                    pairs_of(objects@) == pending + entries.subrange(
                        0,
                        it.index() as int,
                    ).filter(has_key(key)),
            {
                let ghost i = it.index() as int;
                let ghost kept = objects@;
                proof {
                    assert(entries[i] == entry@);
                    entries.subrange(0, i).lemma_filter_push(entry@, has_key(key));
                    assert(entries.subrange(0, i + 1) =~= entries.subrange(0, i).push(entry@));
                }
                if str_eq(entry.key.as_str(), MORE_TO_EXPLORE_EXTRACT_KEY) {
                    objects.push(entry);
                    proof {
                        assert(pairs_of(objects@) =~= pairs_of(kept).push(entry@));
                    }
                }
            }
            proof {
                assert(entries.subrange(0, entries.len() as int) =~= entries);
            }
            let ghost table = pairs_of(objects@);
            tr_objects.push(objects);
            objects = Vec::new();
            proof {
                assert(tables_of(tr_objects@) =~= done.push(table));
                assert(pairs_of(objects@) =~= Seq::empty());
                let rest = tables_from(data@, next_offset as int, key, false, Seq::empty());
                if let Ok(rest) = rest {
                    assert(done + (seq![table] + rest) =~= done.push(table) + rest);
                }
            }
        } else {
            objects = tr_object.entries;
        }
        is_ui_table = !is_ui_table;
        offset = next_offset;
    }
}

/// What reconciling the tables of all languages owes its caller: on a
/// catalog without names the error, else for each table, beside the language
/// at its place in `order`, the map from id to translation and the texts
/// that belong to no id.
pub open spec fn is_reconciling(
    config: ConfigView,
    order: Seq<Lang>,
    index: CatalogIndexView,
    tables: Seq<Seq<(Seq<char>, Seq<char>)>>,
    reconciled: Result<Vec<(Lang, Reconciled)>, CleanError>,
) -> bool {
    match reconciled {
        Ok(reconciled) => {
            &&& index.name_order.len() > 0
            &&& reconciled@.len() == tables.len()
            &&& forall|t: int|
                0 <= t < tables.len() ==> {
                    let cleaned = cleaned_tables(
                        config,
                        index.name_order,
                        index.name_order[0],
                        tables,
                    )[t];
                    &&& (#[trigger] reconciled@[t]).0 == order[t]
                    &&& reconciled@[t].1.translations.wf()
                    &&& text_values(reconciled@[t].1.translations@) == fanned_out(
                        config,
                        index,
                        cleaned,
                    )
                    &&& texts_of(reconciled@[t].1.unresolved@) == unresolved_texts(index, cleaned)
                }
        },
        Err(e) => e == CleanError::NoNames && index.name_order.len() == 0,
    }
}

/// Reconciles the tables of all languages with the catalog: each table is
/// cleaned, the first display name of the catalog being the prefix to start
/// with, and each cleaned translation is handed to the ids that its text
/// belongs to.
pub fn reconcile_tables(
    config: &ReconcilerConfig,
    order: &Vec<Lang>,
    index: &CatalogIndex,
    tr_objects: Vec<Vec<Translation>>,
) -> (reconciled: Result<Vec<(Lang, Reconciled)>, CleanError>)
    requires
        index.wf(),
        tr_objects@.len() <= order@.len(),
    ensures
        is_reconciling(config@, order@, index@, tables_of(tr_objects@), reconciled),
{
    let ghost tables = tables_of(tr_objects@);
    let cleaned = match clean_tables(config, order, tr_objects, index.names.keys()) {
        Ok(cleaned) => cleaned,
        Err(e) => {
            return Err(e);
        },
    };
    let ghost names = index@.name_order;
    let mut reconciled: Vec<(Lang, Reconciled)> = Vec::new();
    let mut t: usize = 0;
    while t < cleaned.len()
        invariant
            t <= cleaned@.len(),
            index.wf(),
            names == index@.name_order,
            names.len() > 0,
            cleaned@.len() == tables.len(),
            forall|u: int|
                0 <= u < tables.len() ==> (#[trigger] cleaned@[u]).0 == order@[u] && cleaned_views(
                    cleaned@[u].1@,
                ) == cleaned_tables(config@, names, names[0], tables)[u],
            reconciled@.len() == t,
            forall|u: int|
                0 <= u < t ==> {
                    let table = cleaned_tables(config@, names, names[0], tables)[u];
                    &&& (#[trigger] reconciled@[u]).0 == order@[u]
                    &&& reconciled@[u].1.translations.wf()
                    &&& text_values(reconciled@[u].1.translations@) == fanned_out(
                        config@,
                        index@,
                        table,
                    )
                    &&& texts_of(reconciled@[u].1.unresolved@) == unresolved_texts(index@, table)
                },
        decreases cleaned@.len() - t,
    {
        let lang = cleaned[t].0;
        let out = fan_out(config, index, &cleaned[t].1);
        reconciled.push((lang, out));
        t = t + 1;
    }
    Ok(reconciled)
}

/// Each of `names` beside the key made up for it.
pub open spec fn alt_pairs(names: Seq<Seq<char>>) -> Seq<(Seq<char>, Seq<char>)> {
    Seq::new(names.len(), |i: int| (names[i], shouty_snake_case(names[i])))
}

/// Every text of the forest beside an id that it leads to: the names of the
/// entries, the texts of the facts, and the second display names of the
/// rumor facts beside their made-up keys.
pub open spec fn reach_pairs(forest: Seq<AstroObjectView>) -> Seq<(Seq<char>, Seq<char>)> {
    forest_names(forest) + forest_fact_texts(forest) + alt_pairs(forest_alt_names(forest))
}

/// The ids of the forest form one namespace: an id that stands beside two
/// texts stands beside the same text twice, and no id is the key the
/// sentinel is written out with.
pub open spec fn one_namespace(config: ConfigView, forest: Seq<AstroObjectView>) -> bool {
    &&& forall|i: int, j: int|
        0 <= i < reach_pairs(forest).len() && 0 <= j < reach_pairs(forest).len() && (
        #[trigger] reach_pairs(forest)[i]).1 == (#[trigger] reach_pairs(forest)[j]).1
            ==> reach_pairs(forest)[i].0 == reach_pairs(forest)[j].0
    &&& forall|i: int|
        0 <= i < reach_pairs(forest).len() ==> (#[trigger] reach_pairs(forest)[i]).1
            != config.sentinel_output_key
}

/// An id that a text of the indexed forest leads to stands beside that text
/// among the pairs of the forest.
pub proof fn lemma_target_pair(forest: Seq<AstroObjectView>, text: Seq<char>, id: Seq<char>)
    requires
        targets(index_of_forest(forest), text).contains(id),
    ensures
        reach_pairs(forest).contains((text, id)),
{
    let index = index_of_forest(forest);
    let names = forest_names(forest);
    let facts = forest_fact_texts(forest);
    let alts = alt_pairs(forest_alt_names(forest));
    let all = reach_pairs(forest);
    let by_name = listed(index.names, text);
    let by_fact = listed(index.facts, text);
    let by_alt = alt_key(index.alt_names, text);
    let reached = targets(index, text);
    let at = reached.index_of(id);
    assert(reached[at] == id);
    if at < by_name.len() {
        assert(by_name[at] == id);
        assert(ids_under(names, text).contains(id));
        lemma_ids_under_contains(names, text, id);
        let k = names.index_of((text, id));
        assert(names[k] == (text, id));
        assert(all[k] == (text, id));
    } else if at < by_name.len() + by_fact.len() {
        assert(by_fact[at - by_name.len()] == id);
        assert(ids_under(facts, text).contains(id));
        lemma_ids_under_contains(facts, text, id);
        let k = facts.index_of((text, id));
        assert(facts[k] == (text, id));
        assert(all[names.len() + k] == (text, id));
    } else {
        assert(by_alt[at - by_name.len() - by_fact.len()] == id);
        let k = forest_alt_names(forest).index_of(text);
        assert(forest_alt_names(forest)[k] == text);
        assert(alts[k] == (text, id));
        assert(all[names.len() + facts.len() + k] == (text, id));
    }
}

/// Over a forest whose ids form one namespace, no id is reached from two
/// texts of the index.
pub proof fn lemma_one_namespace(config: ConfigView, forest: Seq<AstroObjectView>)
    requires
        one_namespace(config, forest),
    ensures
        ids_apart(config, index_of_forest(forest)),
{
    let index = index_of_forest(forest);
    let all = reach_pairs(forest);
    assert forall|a: Seq<char>, b: Seq<char>, id: Seq<char>|
        #![trigger targets(index, a).contains(id), targets(index, b).contains(id)]
        targets(index, a).contains(id) && targets(index, b).contains(id) implies a == b by {
        lemma_target_pair(forest, a, id);
        lemma_target_pair(forest, b, id);
        let i = all.index_of((a, id));
        let j = all.index_of((b, id));
        assert(all[i] == (a, id));
        assert(all[j] == (b, id));
    }
    assert forall|a: Seq<char>| !(#[trigger] targets(index, a)).contains(
        config.sentinel_output_key,
    ) by {
        if targets(index, a).contains(config.sentinel_output_key) {
            lemma_target_pair(forest, a, config.sentinel_output_key);
            let i = all.index_of((a, config.sentinel_output_key));
            assert(all[i] == (a, config.sentinel_output_key));
        }
    }
}

/// Two facts of a forest that share a text get the same translation,
/// whatever table is reconciled with the forest: either both have one, and
/// it is the same, or neither has.
pub proof fn lemma_facts_share_translation(
    config: ConfigView,
    forest: Seq<AstroObjectView>,
    entries: Seq<CleanedView>,
    text: Seq<char>,
    first: Seq<char>,
    second: Seq<char>,
)
    requires
        one_namespace(config, forest),
        forest_fact_texts(forest).contains((text, first)),
        forest_fact_texts(forest).contains((text, second)),
    ensures
        ({
            let map = fanned_out(config, index_of_forest(forest), entries);
            &&& map.contains_key(first) == map.contains_key(second)
            &&& map.contains_key(first) ==> map[first] == map[second]
        }),
{
    let index = index_of_forest(forest);
    let facts = forest_fact_texts(forest);
    lemma_one_namespace(config, forest);
    lemma_ids_under_contains(facts, text, first);
    lemma_ids_under_contains(facts, text, second);
    let at = facts.index_of((text, first));
    assert(facts[at].0 == text);
    assert(index.facts.contains_key(text));
    lemma_shared_text(config, index, entries, text, first, second);
}

} // verus!
