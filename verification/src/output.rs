//! Preparing the forest for being written out.

use crate::index::{alt_names_of, rumor_names, text_values};
use crate::models::entries::{
    json_entry_view, json_entry_views, rumor_views, EntryView, JsonEntry, RumorFact,
    RumorFactView,
};
use crate::strmap::StrMap;
use crate::text::text_le;
use vstd::prelude::*;

verus! {

/// Number of entries in a run, those below each entry included.
pub open spec fn entry_count(entries: Seq<EntryView>) -> nat
    decreases entries,
{
    if entries.len() == 0 {
        0
    } else {
        entry_count(entries.drop_last()) + 1 + entry_count(entries.last().entries)
    }
}

/// The first entries of a run are no more than all of them.
pub proof fn lemma_count_prefix(entries: Seq<EntryView>, upto: int)
    requires
        0 <= upto <= entries.len(),
    ensures
        entry_count(entries.subrange(0, upto)) <= entry_count(entries),
    decreases entries.len() - upto,
{
    if upto < entries.len() {
        assert(entries.subrange(0, upto + 1).drop_last() =~= entries.subrange(0, upto));
        lemma_count_prefix(entries, upto + 1);
    } else {
        assert(entries.subrange(0, upto) =~= entries);
    }
}

/// Counts the entries of a run, those below each entry included. There is no
/// count where it is more than a `u32` holds.
pub fn count_entries(entries: &[JsonEntry]) -> (count: Option<u32>)
    ensures
        match count {
            Some(count) => count == entry_count(json_entry_views(entries@)),
            None => entry_count(json_entry_views(entries@)) > u32::MAX,
        },
    decreases entries@,
{
    let ghost views = json_entry_views(entries@);
    let mut count: u32 = 0;
    let mut i: usize = 0;
    proof {
        assert(views.subrange(0, 0) =~= Seq::empty());
    }
    while i < entries.len()
        invariant
            i <= entries@.len(),
            views == json_entry_views(entries@),
            count == entry_count(views.subrange(0, i as int)),
        decreases entries@.len() - i,
    {
        proof {
            let upto = views.subrange(0, i + 1);
            assert(upto.drop_last() =~= views.subrange(0, i as int));
            assert(upto.last() == json_entry_view(entries@[i as int]));
            lemma_count_prefix(views, i + 1);
        }
        let below = match count_entries(entries[i].entries.as_slice()) {
            Some(below) => below,
            None => {
                return None;
            },
        };
        if below == u32::MAX || count > u32::MAX - 1 - below {
            return None;
        }
        count = count + 1 + below;
        i = i + 1;
    }
    proof {
        assert(views.subrange(0, i as int) =~= views);
    }
    Some(count)
}

/// The rumor fact with the key made up for its second display name in the name's place.
pub open spec fn renamed_rumor(fact: RumorFactView, keys: Map<Seq<char>, Seq<char>>) -> RumorFactView {
    RumorFactView {
        id: fact.id,
        source_id: fact.source_id,
        name: match fact.name {
            Some(name) => Some(keys[name]),
            None => None,
        },
        text: fact.text,
    }
}

/// Each rumor fact of a run with its key in its name's place.
pub open spec fn renamed_rumors(facts: Seq<RumorFactView>, keys: Map<Seq<char>, Seq<char>>) -> Seq<
    RumorFactView,
> {
    Seq::new(facts.len(), |i: int| renamed_rumor(facts[i], keys))
}

/// The entry with the key of each rumor fact in its name's place, in the
/// entry itself and in all entries below it.
pub open spec fn renamed_entry(entry: EntryView, keys: Map<Seq<char>, Seq<char>>) -> EntryView
    decreases entry,
{
    EntryView {
        id: entry.id,
        name: entry.name,
        curiosity: entry.curiosity,
        is_curiosity: entry.is_curiosity,
        ignore_more_to_explore: entry.ignore_more_to_explore,
        explore: entry.explore,
        rumor: renamed_rumors(entry.rumor, keys),
        entries: renamed(entry.entries, keys),
    }
}

/// Each entry of a run with the key of each rumor fact in its name's place.
pub open spec fn renamed(entries: Seq<EntryView>, keys: Map<Seq<char>, Seq<char>>) -> Seq<EntryView>
    decreases entries,
{
    Seq::new(
        entries.len(),
        |i: int|
            if 0 <= i < entries.len() {
                renamed_entry(entries[i], keys)
            } else {
                arbitrary()
            },
    )
}

/// Every second display name of a rumor fact in the run has a key.
pub open spec fn names_known(entries: Seq<EntryView>, keys: Map<Seq<char>, String>) -> bool {
    forall|i: int|
        0 <= i < alt_names_of(entries).len() ==> keys.contains_key(
            #[trigger] alt_names_of(entries)[i],
        )
}

/// Puts the key made up for its second display name in the place of the name
/// of each rumor fact.
fn replace_rumor_names(rumors: &mut Vec<RumorFact>, name_to_key: &StrMap<String>)
    requires
        name_to_key.wf(),
        forall|i: int|
            0 <= i < rumor_names(rumor_views(old(rumors)@)).len() ==> name_to_key@.contains_key(
                #[trigger] rumor_names(rumor_views(old(rumors)@))[i],
            ),
    ensures
        rumor_views(final(rumors)@) == renamed_rumors(
            rumor_views(old(rumors)@),
            text_values(name_to_key@),
        ),
{
    let ghost before = rumor_views(rumors@);
    let ghost keys = text_values(name_to_key@);
    let mut k: usize = 0;
    while k < rumors.len()
        invariant
            k <= rumors@.len(),
            name_to_key.wf(),
            keys == text_values(name_to_key@),
            rumors@.len() == before.len(),
            forall|i: int|
                0 <= i < rumor_names(before).len() ==> name_to_key@.contains_key(
                    #[trigger] rumor_names(before)[i],
                ),
            forall|j: int| 0 <= j < k ==> (#[trigger] rumors@[j])@ == renamed_rumor(before[j], keys),
            forall|j: int| k <= j < rumors@.len() ==> (#[trigger] rumors@[j])@ == before[j],
        decreases rumors@.len() - k,
    {
        let new_name = match &rumors[k].name {
            Some(name) => {
                proof {
                    lemma_rumor_name_listed(before, k as int);
                }
                match name_to_key.get(name.as_str()) {
                    Some(key) => Some(key.clone()),
                    None => None,
                }
            },
            None => None,
        };
        rumors[k].name = new_name;
        k = k + 1;
    }
    proof {
        assert(rumor_views(rumors@) =~= renamed_rumors(before, keys));
    }
}

/// The second display name of a rumor fact is among those of its run.
proof fn lemma_rumor_name_listed(facts: Seq<RumorFactView>, k: int)
    requires
        0 <= k < facts.len(),
        facts[k].name is Some,
    ensures
        rumor_names(facts).contains(facts[k].name->Some_0),
    decreases facts.len(),
{
    let rest = facts.drop_last();
    if k == facts.len() - 1 {
        let names = rumor_names(facts);
        assert(names[names.len() - 1] == facts[k].name->Some_0);
    } else {
        lemma_rumor_name_listed(rest, k);
        let i = rumor_names(rest).index_of(facts[k].name->Some_0);
        assert(rumor_names(rest)[i] == facts[k].name->Some_0);
        assert(rumor_names(facts)[i] == facts[k].name->Some_0);
    }
}

/// The second display names of one entry of a run are among those of the run.
proof fn lemma_alt_names_listed(entries: Seq<EntryView>, i: int)
    requires
        0 <= i < entries.len(),
    ensures
        forall|k: int|
            0 <= k < rumor_names(entries[i].rumor).len() ==> alt_names_of(entries).contains(
                #[trigger] rumor_names(entries[i].rumor)[k],
            ),
        forall|k: int|
            0 <= k < alt_names_of(entries[i].entries).len() ==> alt_names_of(entries).contains(
                #[trigger] alt_names_of(entries[i].entries)[k],
            ),
    decreases entries.len(),
{
    let rest = entries.drop_last();
    let all = alt_names_of(entries);
    let before = alt_names_of(rest);
    let own = rumor_names(entries.last().rumor);
    let below = alt_names_of(entries.last().entries);
    assert(all == before + own + below);
    if i == entries.len() - 1 {
        assert forall|k: int| 0 <= k < own.len() implies all.contains(#[trigger] own[k]) by {
            assert(all[before.len() + k] == own[k]);
        }
        assert forall|k: int| 0 <= k < below.len() implies all.contains(#[trigger] below[k]) by {
            assert(all[before.len() + own.len() + k] == below[k]);
        }
    } else {
        lemma_alt_names_listed(rest, i);
        assert(rest[i] == entries[i]);
        assert forall|k: int| 0 <= k < rumor_names(entries[i].rumor).len() implies all.contains(
            #[trigger] rumor_names(entries[i].rumor)[k],
        ) by {
            let name = rumor_names(entries[i].rumor)[k];
            let at = before.index_of(name);
            assert(before[at] == name);
            assert(all[at] == name);
        }
        assert forall|k: int|
            0 <= k < alt_names_of(entries[i].entries).len() implies all.contains(
            #[trigger] alt_names_of(entries[i].entries)[k],
        ) by {
            let name = alt_names_of(entries[i].entries)[k];
            let at = before.index_of(name);
            assert(before[at] == name);
            assert(all[at] == name);
        }
    }
}

/// Puts the key made up for its second display name in the place of the name
/// of each rumor fact, in every entry and in all entries below it.
pub fn replace_rumor_alt_names(entries: &mut Vec<JsonEntry>, name_to_key: &StrMap<String>)
    requires
        name_to_key.wf(),
        names_known(json_entry_views(old(entries)@), name_to_key@),
    ensures
        json_entry_views(final(entries)@) == renamed(
            json_entry_views(old(entries)@),
            text_values(name_to_key@),
        ),
    decreases old(entries)@,
{
    let ghost before = json_entry_views(entries@);
    let ghost keys = text_values(name_to_key@);
    let mut i: usize = 0;
    while i < entries.len()
        invariant
            i <= entries@.len(),
            name_to_key.wf(),
            keys == text_values(name_to_key@),
            entries@.len() == before.len(),
            before == json_entry_views(old(entries)@),
            names_known(before, name_to_key@),
            forall|j: int| 0 <= j < i ==> (#[trigger] entries@[j])@ == renamed_entry(before[j], keys),
            forall|j: int| i <= j < entries@.len() ==> #[trigger] entries@[j] == old(entries)@[j],
        decreases entries@.len() - i,
    {
        proof {
            lemma_alt_names_listed(before, i as int);
            assert(before[i as int] == json_entry_view(entries@[i as int]));
        }
        replace_rumor_names(&mut entries[i].facts.rumor, name_to_key);
        replace_rumor_alt_names(&mut entries[i].entries, name_to_key);
        i = i + 1;
    }
    proof {
        assert(json_entry_views(entries@) =~= renamed(before, keys));
    }
}

/// `places` names each of the places `0..count` once.
pub open spec fn is_rearrangement(places: Seq<int>, count: nat) -> bool {
    &&& places.len() == count
    &&& places.no_duplicates()
    &&& forall|i: int| 0 <= i < count ==> 0 <= #[trigger] places[i] < count
}

/// `after` holds the entries of `before` in another order, and so on below
/// each entry; nothing else has changed.
pub open spec fn rearranged(before: Seq<EntryView>, after: Seq<EntryView>) -> bool
    decreases before, 0nat,
{
    exists|places: Seq<int>|
        {
            &&& is_rearrangement(places, before.len())
            &&& after.len() == before.len()
            &&& forall|i: int|
                0 <= i < before.len() ==> 0 <= #[trigger] places[i] < before.len()
                    && rearranged_entry(before[places[i]], after[i])
        }
}

/// `after` is the entry `before` with the entries below it in another order.
pub open spec fn rearranged_entry(before: EntryView, after: EntryView) -> bool
    decreases before, 1nat,
{
    &&& after.id == before.id
    &&& after.name == before.name
    &&& after.curiosity == before.curiosity
    &&& after.is_curiosity == before.is_curiosity
    &&& after.ignore_more_to_explore == before.ignore_more_to_explore
    &&& after.explore == before.explore
    &&& after.rumor == before.rumor
    &&& rearranged(before.entries, after.entries)
}

/// The ids of the entries come in the order of strings, and so do those
/// below each entry.
pub open spec fn ids_sorted(entries: Seq<EntryView>) -> bool
    decreases entries,
{
    &&& forall|i: int, j: int|
        0 <= i < j < entries.len() ==> text_le(
            (#[trigger] entries[i]).id,
            (#[trigger] entries[j]).id,
        )
    &&& forall|i: int| 0 <= i < entries.len() ==> ids_sorted((#[trigger] entries[i]).entries)
}

/// Sorts the entries by id with `sort_unstable_by_key` of slices: the same
/// entries come out, in an order in which no id comes before a smaller one.
/// Which of two entries with one id comes first is left open.
#[verifier::external_body]
fn sort_by_id(entries: &mut Vec<JsonEntry>)
    ensures
        final(entries)@.len() == old(entries)@.len(),
        exists|places: Seq<int>|
            is_rearrangement(places, old(entries)@.len()) && forall|i: int|
                0 <= i < old(entries)@.len() ==> #[trigger] final(entries)@[i] == old(
                    entries,
                )@[places[i]],
        forall|i: int, j: int|
            0 <= i < j < final(entries)@.len() ==> text_le(
                (#[trigger] final(entries)@[i]).id@,
                (#[trigger] final(entries)@[j]).id@,
            ),
{
    entries.sort_unstable_by_key(|e| e.id.clone());
}

/// Sorts the entries by id, and so those below each entry.
pub fn sort_entries(entries: &mut Vec<JsonEntry>)
    ensures
        rearranged(json_entry_views(old(entries)@), json_entry_views(final(entries)@)),
        ids_sorted(json_entry_views(final(entries)@)),
    decreases old(entries)@,
{
    let ghost before = json_entry_views(entries@);
    let mut i: usize = 0;
    while i < entries.len()
        invariant
            i <= entries@.len(),
            entries@.len() == before.len(),
            before == json_entry_views(old(entries)@),
            forall|j: int|
                0 <= j < i ==> rearranged_entry(before[j], (#[trigger] entries@[j])@) && ids_sorted(
                    entries@[j]@.entries,
                ),
            forall|j: int| i <= j < entries@.len() ==> #[trigger] entries@[j] == old(entries)@[j],
        decreases entries@.len() - i,
    {
        proof {
            assert(before[i as int] == json_entry_view(entries@[i as int]));
        }
        sort_entries(&mut entries[i].entries);
        i = i + 1;
    }
    let ghost below = entries@;
    sort_by_id(entries);
    proof {
        let places = choose|places: Seq<int>|
            is_rearrangement(places, below.len()) && forall|i: int|
                0 <= i < below.len() ==> #[trigger] entries@[i] == below[places[i]];
        let after = json_entry_views(entries@);
        assert forall|i: int| 0 <= i < before.len() implies 0 <= #[trigger] places[i]
            < before.len() && rearranged_entry(before[places[i]], after[i]) by {
            assert(entries@[i] == below[places[i]]);
            assert(after[i] == below[places[i]]@);
        }
        assert forall|i: int, j: int| 0 <= i < j < after.len() implies text_le(
            (#[trigger] after[i]).id,
            (#[trigger] after[j]).id,
        ) by {
            assert(after[i].id == entries@[i].id@);
            assert(after[j].id == entries@[j].id@);
        }
        assert forall|i: int| 0 <= i < after.len() implies ids_sorted(
            (#[trigger] after[i]).entries,
        ) by {
            assert(entries@[i] == below[places[i]]);
            assert(0 <= places[i] < below.len());
        }
    }
}

} // verus!
