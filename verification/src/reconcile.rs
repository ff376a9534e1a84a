//! Recovering what each raw translation key stands for: the keys of a
//! translation table are a display name and a text run together, and only
//! their order tells where one name's texts end and the next begin.

use crate::info::{v16_lang_order, v16_lang_order_spec, Lang};
use crate::models::translations::{pairs_of, Translation};
use crate::strmap::texts_of;
use crate::text::{is_whitespace, str_eq, strip_prefix, strip_suffix, whitespace};
use vstd::prelude::*;
use vstd::string::*;

verus! {

/// Key under which the game stores "There's more to explore".
pub const MORE_TO_EXPLORE_EXTRACT_KEY: &'static str = "973";

/// Key under which "There's more to explore" is written out.
pub const MORE_TO_EXPLORE_TR_KEY: &'static str = "MORE_TO_EXPLORE";

/// A raw key that the current prefix would wrongly cut.
pub const ESCAPE_POD_SURVIVORS: &'static str = "Escape Pod 3 Survivors";

/// Opening tag of the markup around the sentinel's value.
pub const MARKUP_OPEN: &'static str = "<color=orange>";

/// Closing tag of the markup around the sentinel's value.
pub const MARKUP_CLOSE: &'static str = "</color>";

/// The values that belong to one build of the game.
#[derive(Debug)]
pub struct ReconcilerConfig {
    /// Raw keys that are kept as they are, whatever prefix they start with.
    pub exceptions: Vec<String>,
    /// The one key of the user-interface table that is kept.
    pub sentinel_key: String,
    /// The key under which the sentinel's value is written out.
    pub sentinel_output_key: String,
    /// Opening tag of the markup around the sentinel's value.
    pub markup_open: String,
    /// Closing tag of the markup around the sentinel's value.
    pub markup_close: String,
}

/// What a configuration holds.
pub struct ConfigView {
    pub exceptions: Seq<Seq<char>>,
    pub sentinel_key: Seq<char>,
    pub sentinel_output_key: Seq<char>,
    pub markup_open: Seq<char>,
    pub markup_close: Seq<char>,
}

impl View for ReconcilerConfig {
    type V = ConfigView;

    open spec fn view(&self) -> ConfigView {
        ConfigView {
            exceptions: texts_of(self.exceptions@),
            sentinel_key: self.sentinel_key@,
            sentinel_output_key: self.sentinel_output_key@,
            markup_open: self.markup_open@,
            markup_close: self.markup_close@,
        }
    }
}

/// The configuration of game version 1.1.16.
pub open spec fn v16_config() -> ConfigView {
    ConfigView {
        exceptions: seq![ESCAPE_POD_SURVIVORS@],
        sentinel_key: MORE_TO_EXPLORE_EXTRACT_KEY@,
        sentinel_output_key: MORE_TO_EXPLORE_TR_KEY@,
        markup_open: MARKUP_OPEN@,
        markup_close: MARKUP_CLOSE@,
    }
}

impl ReconcilerConfig {
    /// The configuration of game version 1.1.16.
    pub fn v16() -> (config: Self)
        ensures
            config@ == v16_config(),
    {
        let mut exceptions: Vec<String> = Vec::new();
        exceptions.push(ESCAPE_POD_SURVIVORS.to_owned());
        let config = ReconcilerConfig {
            exceptions,
            sentinel_key: MORE_TO_EXPLORE_EXTRACT_KEY.to_owned(),
            sentinel_output_key: MORE_TO_EXPLORE_TR_KEY.to_owned(),
            markup_open: MARKUP_OPEN.to_owned(),
            markup_close: MARKUP_CLOSE.to_owned(),
        };
        proof {
            assert(config@.exceptions =~= seq![ESCAPE_POD_SURVIVORS@]);
        }
        config
    }
}

/// `value` without the markup around it: the opening tag is taken once from
/// its front, where it stands there, and then the closing tag once from its
/// end, where it stands there.
pub open spec fn strip_markup(config: ConfigView, value: Seq<char>) -> Seq<char> {
    let opened = if config.markup_open.is_prefix_of(value) {
        value.skip(config.markup_open.len() as int)
    } else {
        value
    };
    if config.markup_close.is_suffix_of(opened) {
        opened.take(opened.len() - config.markup_close.len())
    } else {
        opened
    }
}

/// The markup is taken off exactly once, however often its tags come again
/// inside the value.
pub proof fn lemma_markup_stripped_once(config: ConfigView, inner: Seq<char>)
    ensures
        strip_markup(config, config.markup_open + inner + config.markup_close) == inner,
{
    let value = config.markup_open + inner + config.markup_close;
    assert(value.subrange(0, config.markup_open.len() as int) =~= config.markup_open);
    let opened = value.skip(config.markup_open.len() as int);
    assert(opened =~= inner + config.markup_close);
    assert(opened.subrange(opened.len() - config.markup_close.len(), opened.len() as int)
        =~= config.markup_close);
    assert(opened.take(opened.len() - config.markup_close.len()) =~= inner);
}

/// Takes the markup off the sentinel's value.
pub fn strip_sentinel_markup(config: &ReconcilerConfig, value: &str) -> (stripped: String)
    ensures
        stripped@ == strip_markup(config@, value@),
{
    let opened = match strip_prefix(value, config.markup_open.as_str()) {
        Some(rest) => rest,
        None => value,
    };
    match strip_suffix(opened, config.markup_close.as_str()) {
        Some(rest) => rest.to_owned(),
        None => opened.to_owned(),
    }
}

/// `prefix` may be cut from `key`: the key starts with it, goes on after it,
/// and does not go on with white space.
pub open spec fn valid_prefix(key: Seq<char>, prefix: Seq<char>) -> bool {
    &&& prefix.len() < key.len()
    &&& prefix.is_prefix_of(key)
    &&& !whitespace(key[prefix.len() as int])
}

/// `prefix` is the longest of `names` that may be cut from `key`.
pub open spec fn is_longest_prefix(key: Seq<char>, names: Seq<Seq<char>>, prefix: Seq<char>) -> bool {
    &&& names.contains(prefix)
    &&& valid_prefix(key, prefix)
    &&& forall|i: int|
        0 <= i < names.len() && valid_prefix(key, #[trigger] names[i]) ==> names[i].len()
            <= prefix.len()
}

/// The longest of `names` that may be cut from `key`, if any may.
pub open spec fn new_prefix(key: Seq<char>, names: Seq<Seq<char>>) -> Option<Seq<char>> {
    if exists|p: Seq<char>| is_longest_prefix(key, names, p) {
        Some(choose|p: Seq<char>| is_longest_prefix(key, names, p))
    } else {
        None
    }
}

/// The longest name that may be cut from a key is the only one.
pub proof fn lemma_longest_prefix_found(key: Seq<char>, names: Seq<Seq<char>>, prefix: Seq<char>)
    requires
        is_longest_prefix(key, names, prefix),
    ensures
        new_prefix(key, names) == Some(prefix),
{
    let chosen = choose|p: Seq<char>| is_longest_prefix(key, names, p);
    let i = names.index_of(prefix);
    let j = names.index_of(chosen);
    assert(names[i] == prefix);
    assert(names[j] == chosen);
    assert(chosen.len() == prefix.len());
    assert(chosen =~= prefix);
}

/// The length of `prefix` in characters, where it may be cut from `key`.
pub open spec fn cut_length(key: Seq<char>, prefix: Seq<char>) -> Option<usize> {
    if valid_prefix(key, prefix) && prefix.len() <= usize::MAX {
        Some(prefix.len() as usize)
    } else {
        None
    }
}

/// Tells whether `name` may be cut from `key`, and how long it is where it may.
pub fn prefix_length(key: &str, name: &str) -> (length: Option<usize>)
    ensures
        length == cut_length(key@, name@),
        valid_prefix(key@, name@) ==> length is Some,
{
    match strip_prefix(key, name) {
        Some(rest) => {
            if !rest.is_empty() && !is_whitespace(rest.get_char(0)) {
                Some(name.unicode_len())
            } else {
                None
            }
        },
        None => None,
    }
}

/// `at` is the place of the greatest of `lengths`, and of the first of
/// those that are as great.
pub open spec fn is_longest(lengths: Seq<Option<usize>>, at: int) -> bool {
    &&& 0 <= at < lengths.len()
    &&& lengths[at] is Some
    &&& forall|j: int|
        0 <= j < lengths.len() && (#[trigger] lengths[j]) is Some ==> lengths[j]->Some_0
            <= lengths[at]->Some_0
    &&& forall|j: int|
        0 <= j < at && (#[trigger] lengths[j]) is Some ==> lengths[j]->Some_0
            < lengths[at]->Some_0
}

/// Picks the place of the greatest of `lengths`, the first of those that are
/// as great; there is none where no length is given.
pub fn longest(lengths: &Vec<Option<usize>>) -> (found: Option<usize>)
    ensures
        match found {
            Some(at) => is_longest(lengths@, at as int),
            None => forall|j: int| 0 <= j < lengths@.len() ==> (#[trigger] lengths@[j]) is None,
        },
{
    let mut best: Option<usize> = None;
    let mut best_len: usize = 0;
    let mut i: usize = 0;
    while i < lengths.len()
        invariant
            i <= lengths@.len(),
            match best {
                Some(at) => at < i && lengths@[at as int] == Some(best_len) && (forall|j: int|
                    0 <= j < i && (#[trigger] lengths@[j]) is Some ==> lengths@[j]->Some_0
                        <= best_len) && (forall|j: int|
                    0 <= j < at && (#[trigger] lengths@[j]) is Some ==> lengths@[j]->Some_0
                        < best_len),
                None => forall|j: int| 0 <= j < i ==> (#[trigger] lengths@[j]) is None,
            },
        decreases lengths@.len() - i,
    {
        match lengths[i] {
            Some(len) => {
                if best.is_none() || len > best_len {
                    best = Some(i);
                    best_len = len;
                }
            },
            None => {},
        }
        i = i + 1;
    }
    best
}

/// Finds the longest of `names` that may be cut from `key`.
pub fn find_new_prefix<'a>(key: &str, names: &'a Vec<String>) -> (found: Option<&'a String>)
    ensures
        match found {
            Some(prefix) => new_prefix(key@, texts_of(names@)) == Some(prefix@),
            None => new_prefix(key@, texts_of(names@)) is None,
        },
{
    let ghost all = texts_of(names@);
    let mut lengths: Vec<Option<usize>> = Vec::new();
    let mut i: usize = 0;
    while i < names.len()
        invariant
            i <= names@.len(),
            all == texts_of(names@),
            lengths@.len() == i,
            forall|j: int|
                0 <= j < i ==> (#[trigger] lengths@[j]) == cut_length(key@, all[j]) && (
                valid_prefix(key@, all[j]) ==> lengths@[j] is Some),
        decreases names@.len() - i,
    {
        lengths.push(prefix_length(key, names[i].as_str()));
        i = i + 1;
    }
    match longest(&lengths) {
        Some(at) => {
            proof {
                assert(lengths@[at as int] is Some);
                assert forall|j: int|
                    0 <= j < all.len() && valid_prefix(key@, #[trigger] all[j]) implies all[j].len()
                    <= all[at as int].len() by {
                    assert(lengths@[j] is Some);
                }
                lemma_longest_prefix_found(key@, all, all[at as int]);
            }
            Some(&names[at])
        },
        None => {
            proof {
                if exists|p: Seq<char>| is_longest_prefix(key@, all, p) {
                    let p = choose|p: Seq<char>| is_longest_prefix(key@, all, p);
                    let j = all.index_of(p);
                    assert(all[j] == p);
                    assert(lengths@[j] is None);
                }
            }
            None
        },
    }
}

/// The rule by which a raw key is handled.
#[derive(Debug, Clone, Copy, PartialEq, Eq, Structural)]
pub enum KeyRule {
    /// The key is one of the exceptions: it is kept as it is.
    Exception,
    /// The key is the sentinel: its value loses its markup.
    Sentinel,
    /// The key starts with the current prefix: the prefix is cut.
    CurrentPrefix,
    /// The key starts with another name: that name becomes the prefix, and is cut.
    NewPrefix,
    /// No name may be cut from the key: it is kept as it is.
    NoPrefix,
}

/// The rule for `key` while `prefix` is the current prefix. The first of the
/// five that applies is taken.
pub open spec fn rule_of(
    config: ConfigView,
    names: Seq<Seq<char>>,
    prefix: Seq<char>,
    key: Seq<char>,
) -> KeyRule {
    if config.exceptions.contains(key) {
        KeyRule::Exception
    } else if key == config.sentinel_key {
        KeyRule::Sentinel
    } else if prefix.is_prefix_of(key) {
        KeyRule::CurrentPrefix
    } else if new_prefix(key, names) is Some {
        KeyRule::NewPrefix
    } else {
        KeyRule::NoPrefix
    }
}

/// The current prefix after `key` was handled.
pub open spec fn next_prefix(
    config: ConfigView,
    names: Seq<Seq<char>>,
    prefix: Seq<char>,
    key: Seq<char>,
) -> Seq<char> {
    if rule_of(config, names, prefix, key) == KeyRule::NewPrefix {
        new_prefix(key, names).unwrap()
    } else {
        prefix
    }
}

/// A raw entry after its key was handled.
#[derive(Debug, PartialEq, Eq)]
pub struct CleanedEntry {
    /// The rule that was taken.
    pub rule: KeyRule,
    /// The key, without the prefix where one was cut.
    pub key: String,
    /// The value, without its markup where the key is the sentinel.
    pub value: String,
}

/// What a cleaned entry holds.
pub struct CleanedView {
    pub rule: KeyRule,
    pub key: Seq<char>,
    pub value: Seq<char>,
}

impl View for CleanedEntry {
    type V = CleanedView;

    open spec fn view(&self) -> CleanedView {
        CleanedView { rule: self.rule, key: self.key@, value: self.value@ }
    }
}

/// What each cleaned entry of a run holds.
pub open spec fn cleaned_views(entries: Seq<CleanedEntry>) -> Seq<CleanedView> {
    Seq::new(entries.len(), |i: int| entries[i]@)
}

/// The raw entry `(key, value)` as it is cleaned while `prefix` is the current prefix.
pub open spec fn clean_one(
    config: ConfigView,
    names: Seq<Seq<char>>,
    prefix: Seq<char>,
    key: Seq<char>,
    value: Seq<char>,
) -> CleanedView {
    let rule = rule_of(config, names, prefix, key);
    match rule {
        KeyRule::Exception => CleanedView { rule, key, value },
        KeyRule::Sentinel => CleanedView { rule, key, value: strip_markup(config, value) },
        KeyRule::CurrentPrefix => CleanedView { rule, key: key.skip(prefix.len() as int), value },
        KeyRule::NewPrefix => CleanedView {
            rule,
            key: key.skip(new_prefix(key, names).unwrap().len() as int),
            value,
        },
        KeyRule::NoPrefix => CleanedView { rule, key, value },
    }
}

/// A raw key that is one of the exceptions is kept as it is and leaves the
/// current prefix alone, whether or not a prefix could be cut from it.
pub proof fn lemma_exception_verbatim(
    config: ConfigView,
    names: Seq<Seq<char>>,
    prefix: Seq<char>,
    key: Seq<char>,
    value: Seq<char>,
)
    requires
        config.exceptions.contains(key),
    ensures
        clean_one(config, names, prefix, key, value) == (CleanedView {
            rule: KeyRule::Exception,
            key,
            value,
        }),
        next_prefix(config, names, prefix, key) == prefix,
{
}

/// Whether `key` is one of the exceptions.
fn is_exception(config: &ReconcilerConfig, key: &str) -> (found: bool)
    ensures
        found == config@.exceptions.contains(key@),
{
    let mut i: usize = 0;
    while i < config.exceptions.len()
        invariant
            i <= config.exceptions@.len(),
            forall|j: int| 0 <= j < i ==> config@.exceptions[j] != key@,
        decreases config.exceptions@.len() - i,
    {
        if str_eq(config.exceptions[i].as_str(), key) {
            proof {
                assert(config@.exceptions[i as int] == key@);
            }
            return true;
        }
        i = i + 1;
    }
    false
}

/// Cleans one raw entry while `prefix` is the current prefix. Beside the
/// cleaned entry stands the new current prefix, where the entry brought one.
pub fn clean_entry(
    config: &ReconcilerConfig,
    names: &Vec<String>,
    prefix: &String,
    entry: Translation,
) -> (cleaned: (CleanedEntry, Option<String>))
    ensures
        cleaned.0@ == clean_one(config@, texts_of(names@), prefix@, entry.key@, entry.value@),
        match cleaned.1 {
            Some(found) => cleaned.0.rule == KeyRule::NewPrefix && found@ == next_prefix(
                config@,
                texts_of(names@),
                prefix@,
                entry.key@,
            ),
            None => cleaned.0.rule != KeyRule::NewPrefix && prefix@ == next_prefix(
                config@,
                texts_of(names@),
                prefix@,
                entry.key@,
            ),
        },
{
    if is_exception(config, entry.key.as_str()) {
        return (CleanedEntry { rule: KeyRule::Exception, key: entry.key, value: entry.value }, None);
    }
    if str_eq(entry.key.as_str(), config.sentinel_key.as_str()) {
        let value = strip_sentinel_markup(config, entry.value.as_str());
        return (CleanedEntry { rule: KeyRule::Sentinel, key: entry.key, value }, None);
    }
    match strip_prefix(entry.key.as_str(), prefix.as_str()) {
        Some(rest) => {
            return (
                CleanedEntry {
                    rule: KeyRule::CurrentPrefix,
                    key: rest.to_owned(),
                    value: entry.value,
                },
                None,
            );
        },
        None => {},
    }
    match find_new_prefix(entry.key.as_str(), names) {
        Some(found) => {
            let rest = strip_prefix(entry.key.as_str(), found.as_str());
            let key = match rest {
                Some(rest) => rest.to_owned(),
                None => entry.key,
            };
            (
                CleanedEntry { rule: KeyRule::NewPrefix, key, value: entry.value },
                Some(found.clone()),
            )
        },
        None => (
            CleanedEntry { rule: KeyRule::NoPrefix, key: entry.key, value: entry.value },
            None,
        ),
    }
}

/// The current prefix after `entries` were handled one after another,
/// starting with `prefix`.
pub open spec fn prefix_after(
    config: ConfigView,
    names: Seq<Seq<char>>,
    prefix: Seq<char>,
    entries: Seq<(Seq<char>, Seq<char>)>,
) -> Seq<char>
    decreases entries.len(),
{
    if entries.len() == 0 {
        prefix
    } else {
        next_prefix(
            config,
            names,
            prefix_after(config, names, prefix, entries.drop_last()),
            entries.last().0,
        )
    }
}

/// The entries of one table, each cleaned while the prefix is what the
/// entries before it left.
pub open spec fn cleaned_table(
    config: ConfigView,
    names: Seq<Seq<char>>,
    prefix: Seq<char>,
    entries: Seq<(Seq<char>, Seq<char>)>,
) -> Seq<CleanedView> {
    Seq::new(
        entries.len(),
        |i: int|
            clean_one(
                config,
                names,
                prefix_after(config, names, prefix, entries.subrange(0, i)),
                entries[i].0,
                entries[i].1,
            ),
    )
}

/// Cleans the entries of one table in the order in which they appear,
/// starting with `prefix`. Beside the cleaned entries stands the prefix that
/// the last entry left.
pub fn clean_table(
    config: &ReconcilerConfig,
    names: &Vec<String>,
    prefix: String,
    entries: Vec<Translation>,
) -> (cleaned: (Vec<CleanedEntry>, String))
    ensures
        cleaned_views(cleaned.0@) == cleaned_table(
            config@,
            texts_of(names@),
            prefix@,
            pairs_of(entries@),
        ),
        cleaned.1@ == prefix_after(config@, texts_of(names@), prefix@, pairs_of(entries@)),
{
    let ghost raw = pairs_of(entries@);
    let ghost start = prefix@;
    let mut current = prefix;
    let mut cleaned: Vec<CleanedEntry> = Vec::new();
    proof {
        assert(raw.subrange(0, 0) =~= Seq::empty());
    }
    for entry in it: entries
        invariant
            it.seq() == entries@,
            raw == pairs_of(entries@),
            cleaned@.len() == it.index(),
            current@ == prefix_after(
                config@,
                texts_of(names@),
                start,
                raw.subrange(0, it.index() as int),
            ),
            forall|i: int|
                0 <= i < it.index() ==> (#[trigger] cleaned@[i])@ == cleaned_table(
                    config@,
                    texts_of(names@),
                    start,
                    raw,
                )[i],
    {
        let ghost i = it.index() as int;
        proof {
            assert(raw[i] == (entry.key@, entry.value@));
            assert(raw.subrange(0, i + 1).drop_last() =~= raw.subrange(0, i));
        }
        let (one, found) = clean_entry(config, names, &current, entry);
        cleaned.push(one);
        match found {
            Some(found) => {
                current = found;
            },
            None => {},
        }
    }
    proof {
        assert(raw.subrange(0, raw.len() as int) =~= raw);
        assert(cleaned_views(cleaned@) =~= cleaned_table(config@, texts_of(names@), start, raw));
    }
    (cleaned, current)
}

/// What each table of a run holds.
pub open spec fn tables_of(tables: Seq<Vec<Translation>>) -> Seq<Seq<(Seq<char>, Seq<char>)>> {
    Seq::new(tables.len(), |i: int| pairs_of(tables[i]@))
}

/// The current prefix when the first `count` of `tables` were handled, one
/// table after another, starting with `prefix`.
pub open spec fn prefix_before_table(
    config: ConfigView,
    names: Seq<Seq<char>>,
    prefix: Seq<char>,
    tables: Seq<Seq<(Seq<char>, Seq<char>)>>,
    count: int,
) -> Seq<char>
    decreases count,
{
    if count <= 0 {
        prefix
    } else {
        prefix_after(
            config,
            names,
            prefix_before_table(config, names, prefix, tables, count - 1),
            tables[count - 1],
        )
    }
}

/// The tables of all languages, cleaned one after another: the prefix that
/// one table leaves is the one the next starts with.
pub open spec fn cleaned_tables(
    config: ConfigView,
    names: Seq<Seq<char>>,
    prefix: Seq<char>,
    tables: Seq<Seq<(Seq<char>, Seq<char>)>>,
) -> Seq<Seq<CleanedView>> {
    Seq::new(
        tables.len(),
        |t: int|
            cleaned_table(
                config,
                names,
                prefix_before_table(config, names, prefix, tables, t),
                tables[t],
            ),
    )
}

/// Why the tables could not be cleaned.
#[derive(Debug, Clone, Copy, PartialEq, Eq, Structural)]
pub enum CleanError {
    /// The catalog has no display name to start with.
    NoNames,
}

/// What cleaning the tables of all languages owes its caller: on a catalog
/// without names the error, else each table cleaned, beside the language
/// that stands at its place in `order`.
pub open spec fn is_cleaning(
    config: ConfigView,
    order: Seq<Lang>,
    tables: Seq<Seq<(Seq<char>, Seq<char>)>>,
    names: Seq<Seq<char>>,
    cleaned: Result<Vec<(Lang, Vec<CleanedEntry>)>, CleanError>,
) -> bool {
    match cleaned {
        Ok(cleaned) => {
            &&& names.len() > 0
            &&& cleaned@.len() == tables.len()
            &&& forall|t: int|
                0 <= t < tables.len() ==> (#[trigger] cleaned@[t]).0 == order[t] && cleaned_views(
                    cleaned@[t].1@,
                ) == cleaned_tables(config, names, names[0], tables)[t]
        },
        Err(e) => e == CleanError::NoNames && names.len() == 0,
    }
}

/// Cleans the tables of all languages, the first of `astro_names` being the
/// prefix to start with, and sets beside each the language at its place in `order`.
pub fn clean_tables(
    config: &ReconcilerConfig,
    order: &Vec<Lang>,
    tr_objects: Vec<Vec<Translation>>,
    astro_names: &Vec<String>,
) -> (cleaned: Result<Vec<(Lang, Vec<CleanedEntry>)>, CleanError>)
    requires
        tr_objects@.len() <= order@.len(),
    ensures
        is_cleaning(config@, order@, tables_of(tr_objects@), texts_of(astro_names@), cleaned),
{
    if astro_names.len() == 0 {
        return Err(CleanError::NoNames);
    }
    let ghost tables = tables_of(tr_objects@);
    let ghost names = texts_of(astro_names@);
    let mut prefix = astro_names[0].clone();
    let mut translations: Vec<(Lang, Vec<CleanedEntry>)> = Vec::new();
    for tr_entries in it: tr_objects
        invariant
            it.seq() == tr_objects@,
            tables == tables_of(tr_objects@),
            names == texts_of(astro_names@),
            names.len() > 0,
            tr_objects@.len() <= order@.len(),
            translations@.len() == it.index(),
            prefix@ == prefix_before_table(config@, names, names[0], tables, it.index() as int),
            forall|t: int|
                0 <= t < it.index() ==> (#[trigger] translations@[t]).0 == order@[t]
                    && cleaned_views(translations@[t].1@) == cleaned_tables(
                    config@,
                    names,
                    names[0],
                    tables,
                )[t],
    {
        let ghost t = it.index() as int;
        proof {
            assert(tables[t] == pairs_of(tr_entries@));
        }
        let lang = order[translations.len()];
        let (translation, left) = clean_table(config, astro_names, prefix, tr_entries);
        prefix = left;
        translations.push((lang, translation));
    }
    Ok(translations)
}

/// Cleans the translation keys of their prefixes, for the tables of all
/// languages in the order of game version 1.1.16.
///
/// Most keys start with the display name of an entry, as in
/// "VillageThe one and only Hearthian village, ...". The name is found and cut.
pub fn clean_translations(tr_objects: Vec<Vec<Translation>>, astro_names: Vec<String>) -> (cleaned:
    Result<Vec<(Lang, Vec<CleanedEntry>)>, CleanError>)
    requires
        tr_objects@.len() <= v16_lang_order_spec().len(),
    ensures
        is_cleaning(
            v16_config(),
            v16_lang_order_spec(),
            tables_of(tr_objects@),
            texts_of(astro_names@),
            cleaned,
        ),
{
    let config = ReconcilerConfig::v16();
    let order = v16_lang_order();
    clean_tables(&config, &order, tr_objects, &astro_names)
}

} // verus!
