//! Handing each cleaned translation to the ids that its text belongs to.

use crate::index::{text_values, CatalogIndex, CatalogIndexView};
use crate::reconcile::{
    cleaned_views, CleanedEntry, CleanedView, ConfigView, KeyRule, ReconcilerConfig,
};
use crate::strmap::{texts_of, StrMap};
use vstd::prelude::*;

verus! {

/// The ids that `index` lists under `text`; none where it does not hold the text.
pub open spec fn listed(index: Map<Seq<char>, Seq<Seq<char>>>, text: Seq<char>) -> Seq<Seq<char>> {
    if index.contains_key(text) {
        index[text]
    } else {
        Seq::empty()
    }
}

/// The made-up key of `text`, where it is the second display name of a rumor fact.
pub open spec fn alt_key(index: Map<Seq<char>, Seq<char>>, text: Seq<char>) -> Seq<Seq<char>> {
    if index.contains_key(text) {
        seq![index[text]]
    } else {
        Seq::empty()
    }
}

/// Every id that `text` belongs to: the entries that bear it as their name,
/// the facts that hold it as their text, and its made-up key.
pub open spec fn targets(index: CatalogIndexView, text: Seq<char>) -> Seq<Seq<char>> {
    listed(index.names, text) + listed(index.facts, text) + alt_key(index.alt_names, text)
}

/// `map` with `value` under each of `ids`.
pub open spec fn write_all(
    map: Map<Seq<char>, Seq<char>>,
    ids: Seq<Seq<char>>,
    value: Seq<char>,
) -> Map<Seq<char>, Seq<char>> {
    Map::new(
        |id: Seq<char>| map.contains_key(id) || ids.contains(id),
        |id: Seq<char>|
            if ids.contains(id) {
                value
            } else {
                map[id]
            },
    )
}

/// `map` after one cleaned entry: the sentinel's value goes under the key it
/// is written out with, every other value under each id its text belongs to.
pub open spec fn fan_out_one(
    config: ConfigView,
    index: CatalogIndexView,
    map: Map<Seq<char>, Seq<char>>,
    entry: CleanedView,
) -> Map<Seq<char>, Seq<char>> {
    if entry.rule == KeyRule::Sentinel {
        map.insert(config.sentinel_output_key, entry.value)
    } else {
        write_all(map, targets(index, entry.key), entry.value)
    }
}

/// The map from id to translation after all of `entries`, each in its turn.
pub open spec fn fanned_out(
    config: ConfigView,
    index: CatalogIndexView,
    entries: Seq<CleanedView>,
) -> Map<Seq<char>, Seq<char>>
    decreases entries.len(),
{
    if entries.len() == 0 {
        Map::empty()
    } else {
        fan_out_one(config, index, fanned_out(config, index, entries.drop_last()), entries.last())
    }
}

/// The entry belongs to no id: it is not the sentinel, and none of the three
/// indexes lists an id under its text.
pub open spec fn is_unresolved(index: CatalogIndexView, entry: CleanedView) -> bool {
    entry.rule != KeyRule::Sentinel && targets(index, entry.key).len() == 0
}

/// The texts of the entries that belong to no id, in order.
pub open spec fn unresolved_texts(index: CatalogIndexView, entries: Seq<CleanedView>) -> Seq<
    Seq<char>,
>
    decreases entries.len(),
{
    if entries.len() == 0 {
        Seq::empty()
    } else if is_unresolved(index, entries.last()) {
        unresolved_texts(index, entries.drop_last()).push(entries.last().key)
    } else {
        unresolved_texts(index, entries.drop_last())
    }
}

/// Writing under two runs of ids, one after the other, is writing under both.
pub proof fn lemma_write_all_add(
    map: Map<Seq<char>, Seq<char>>,
    first: Seq<Seq<char>>,
    second: Seq<Seq<char>>,
    value: Seq<char>,
)
    ensures
        write_all(write_all(map, first, value), second, value) == write_all(
            map,
            first + second,
            value,
        ),
{
    let both = first + second;
    assert forall|id: Seq<char>| both.contains(id) == (first.contains(id) || second.contains(
        id,
    )) by {
        if first.contains(id) {
            let i = first.index_of(id);
            assert(both[i] == id);
        }
        if second.contains(id) {
            let i = second.index_of(id);
            assert(both[first.len() + i] == id);
        }
        if both.contains(id) {
            let i = both.index_of(id);
            if i < first.len() {
                assert(first[i] == id);
            } else {
                assert(second[i - first.len()] == id);
            }
        }
    }
    assert(write_all(write_all(map, first, value), second, value) =~= write_all(map, both, value));
}

/// Writes `value` under each of `ids`.
fn write_ids(map: &mut StrMap<String>, ids: &Vec<String>, value: &String)
    requires
        old(map).wf(),
    ensures
        final(map).wf(),
        text_values(final(map)@) == write_all(text_values(old(map)@), texts_of(ids@), value@),
{
    let ghost start = text_values(map@);
    let ghost all = texts_of(ids@);
    let mut i: usize = 0;
    proof {
        assert(text_values(map@) =~= write_all(start, all.subrange(0, 0), value@));
    }
    while i < ids.len()
        invariant
            i <= ids@.len(),
            all == texts_of(ids@),
            map.wf(),
            text_values(map@) == write_all(start, all.subrange(0, i as int), value@),
        decreases ids@.len() - i,
    {
        let ghost before = text_values(map@);
        map.insert(ids[i].clone(), value.clone());
        proof {
            let done = all.subrange(0, i as int);
            let upto = all.subrange(0, i + 1);
            let id = all[i as int];
            assert(text_values(map@) =~= before.insert(id, value@));
            assert forall|k: Seq<char>| upto.contains(k) == (done.contains(k) || k == id) by {
                if done.contains(k) {
                    let j = done.index_of(k);
                    assert(upto[j] == k);
                }
                if k == id {
                    assert(upto[i as int] == k);
                }
                if upto.contains(k) {
                    let j = upto.index_of(k);
                    if j < i {
                        assert(done[j] == k);
                    }
                }
            }
            assert(before.insert(id, value@) =~= write_all(start, upto, value@));
        }
        i = i + 1;
    }
    proof {
        assert(all.subrange(0, i as int) =~= all);
    }
}

/// What reconciling one language's table gives.
pub struct Reconciled {
    /// From id to translation.
    pub translations: StrMap<String>,
    /// The texts that belong to no id, in the order in which they came.
    pub unresolved: Vec<String>,
}

/// Hands each cleaned translation to every id that its text belongs to. A
/// later entry overwrites what an earlier one wrote under the same id.
pub fn fan_out(config: &ReconcilerConfig, index: &CatalogIndex, cleaned: &Vec<CleanedEntry>) -> (out:
    Reconciled)
    requires
        index.wf(),
    ensures
        out.translations.wf(),
        text_values(out.translations@) == fanned_out(config@, index@, cleaned_views(cleaned@)),
        texts_of(out.unresolved@) == unresolved_texts(index@, cleaned_views(cleaned@)),
{
    let ghost entries = cleaned_views(cleaned@);
    let mut translations: StrMap<String> = StrMap::new();
    let mut unresolved: Vec<String> = Vec::new();
    let mut i: usize = 0;
    proof {
        assert(entries.subrange(0, 0) =~= Seq::empty());
        assert(text_values(translations@) =~= Map::empty());
        assert(texts_of(unresolved@) =~= Seq::empty());
    }
    while i < cleaned.len()
        invariant
            i <= cleaned@.len(),
            entries == cleaned_views(cleaned@),
            index.wf(),
            translations.wf(),
            text_values(translations@) == fanned_out(
                config@,
                index@,
                entries.subrange(0, i as int),
            ),
            texts_of(unresolved@) == unresolved_texts(index@, entries.subrange(0, i as int)),
        decreases cleaned@.len() - i,
    {
        let entry = &cleaned[i];
        let ghost before = text_values(translations@);
        let ghost missed = unresolved@;
        proof {
            assert(entries.subrange(0, i + 1).drop_last() =~= entries.subrange(0, i as int));
            assert(entries.subrange(0, i + 1).last() == entry@);
        }
        if entry.rule == KeyRule::Sentinel {
            translations.insert(config.sentinel_output_key.clone(), entry.value.clone());
            proof {
                assert(text_values(translations@) =~= before.insert(
                    config@.sentinel_output_key,
                    entry.value@,
                ));
            }
        } else {
            let mut any = false;
            let ghost names = listed(index@.names, entry.key@);
            let ghost facts = listed(index@.facts, entry.key@);
            let ghost alt = alt_key(index@.alt_names, entry.key@);
            match index.names.get(entry.key.as_str()) {
                Some(ids) => {
                    write_ids(&mut translations, ids, &entry.value);
                    any = any || ids.len() > 0;
                },
                None => {
                    proof {
                        assert(text_values(translations@) =~= write_all(
                            before,
                            names,
                            entry.value@,
                        ));
                    }
                },
            }
            let ghost named = text_values(translations@);
            match index.facts.get(entry.key.as_str()) {
                Some(ids) => {
                    write_ids(&mut translations, ids, &entry.value);
                    any = any || ids.len() > 0;
                },
                None => {
                    proof {
                        assert(text_values(translations@) =~= write_all(
                            named,
                            facts,
                            entry.value@,
                        ));
                    }
                },
            }
            let ghost told = text_values(translations@);
            match index.alt_names.get(entry.key.as_str()) {
                Some(key) => {
                    translations.insert(key.clone(), entry.value.clone());
                    any = true;
                    proof {
                        assert(alt[0] == key@);
                        assert(text_values(translations@) =~= write_all(told, alt, entry.value@));
                    }
                },
                None => {
                    proof {
                        assert(text_values(translations@) =~= write_all(told, alt, entry.value@));
                    }
                },
            }
            proof {
                lemma_write_all_add(before, names, facts, entry.value@);
                lemma_write_all_add(before, names + facts, alt, entry.value@);
                assert(any == (targets(index@, entry.key@).len() > 0));
            }
            if !any {
                unresolved.push(entry.key.clone());
                proof {
                    assert(texts_of(unresolved@) =~= texts_of(missed).push(entry.key@));
                }
            }
        }
        i = i + 1;
    }
    proof {
        assert(entries.subrange(0, i as int) =~= entries);
    }
    Reconciled { translations, unresolved }
}

/// Why a table could not be reconciled.
#[derive(Debug, PartialEq, Eq)]
pub enum ReconcileError {
    /// The text belongs to no id of the catalog.
    UnresolvedTranslationKey(String),
}

/// Hands each cleaned translation to every id that its text belongs to. In
/// strict mode the first text that belongs to no id is an error; else such
/// texts are listed beside the translations.
pub fn reconcile(
    config: &ReconcilerConfig,
    index: &CatalogIndex,
    cleaned: &Vec<CleanedEntry>,
    strict: bool,
) -> (out: Result<Reconciled, ReconcileError>)
    requires
        index.wf(),
    ensures
        match out {
            Ok(out) => {
                &&& out.translations.wf()
                &&& text_values(out.translations@) == fanned_out(
                    config@,
                    index@,
                    cleaned_views(cleaned@),
                )
                &&& texts_of(out.unresolved@) == unresolved_texts(index@, cleaned_views(cleaned@))
                &&& strict ==> out.unresolved@.len() == 0
            },
            Err(ReconcileError::UnresolvedTranslationKey(text)) => {
                &&& strict
                &&& unresolved_texts(index@, cleaned_views(cleaned@)).len() > 0
                &&& text@ == unresolved_texts(index@, cleaned_views(cleaned@))[0]
            },
        },
{
    let out = fan_out(config, index, cleaned);
    if strict && out.unresolved.len() > 0 {
        let text = out.unresolved[0].clone();
        proof {
            assert(texts_of(out.unresolved@)[0] == text@);
        }
        return Err(ReconcileError::UnresolvedTranslationKey(text));
    }
    Ok(out)
}

/// The ids of the catalog form one namespace: no id is reached from two
/// texts, and none is the key the sentinel is written out with.
pub open spec fn ids_apart(config: ConfigView, index: CatalogIndexView) -> bool {
    &&& forall|a: Seq<char>, b: Seq<char>, id: Seq<char>|
        #![trigger targets(index, a).contains(id), targets(index, b).contains(id)]
        targets(index, a).contains(id) && targets(index, b).contains(id) ==> a == b
    &&& forall|a: Seq<char>| !(#[trigger] targets(index, a)).contains(config.sentinel_output_key)
}

/// A fact's id is among the ids that its text belongs to.
pub proof fn lemma_fact_is_target(index: CatalogIndexView, text: Seq<char>, id: Seq<char>)
    requires
        listed(index.facts, text).contains(id),
    ensures
        targets(index, text).contains(id),
{
    let facts = listed(index.facts, text);
    let i = facts.index_of(id);
    assert(facts[i] == id);
    assert(targets(index, text)[listed(index.names, text).len() + i] == id);
}

/// Two facts that share a text get the same translation: after any run of
/// cleaned entries, either both have one, and it is the same, or neither has.
pub proof fn lemma_shared_text(
    config: ConfigView,
    index: CatalogIndexView,
    entries: Seq<CleanedView>,
    text: Seq<char>,
    first: Seq<char>,
    second: Seq<char>,
)
    requires
        ids_apart(config, index),
        listed(index.facts, text).contains(first),
        listed(index.facts, text).contains(second),
    ensures
        fanned_out(config, index, entries).contains_key(first) == fanned_out(
            config,
            index,
            entries,
        ).contains_key(second),
        fanned_out(config, index, entries).contains_key(first) ==> fanned_out(
            config,
            index,
            entries,
        )[first] == fanned_out(config, index, entries)[second],
    decreases entries.len(),
{
    lemma_fact_is_target(index, text, first);
    lemma_fact_is_target(index, text, second);
    if entries.len() > 0 {
        lemma_shared_text(config, index, entries.drop_last(), text, first, second);
        let last = entries.last();
        if last.rule != KeyRule::Sentinel && last.key != text {
            assert(!targets(index, last.key).contains(first));
            assert(!targets(index, last.key).contains(second));
        }
    }
}

/// After a cleaned entry that is not the sentinel, every id that its text
/// belongs to holds its value.
pub proof fn lemma_fan_out_reaches(
    config: ConfigView,
    index: CatalogIndexView,
    map: Map<Seq<char>, Seq<char>>,
    entry: CleanedView,
    id: Seq<char>,
)
    requires
        entry.rule != KeyRule::Sentinel,
        targets(index, entry.key).contains(id),
    ensures
        fan_out_one(config, index, map, entry).contains_key(id),
        fan_out_one(config, index, map, entry)[id] == entry.value,
{
}

} // verus!
