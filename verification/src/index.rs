//! Indexes over the catalog: which ids a display name or a fact's text belongs to.

use crate::models::entries::{
    explore_views, json_entry_view, json_entry_views, rumor_views, AstroObject, AstroObjectView,
    EntryView, ExploreFactView, JsonEntry, RumorFactView,
};
use crate::strmap::{texts_of, StrMap};
use crate::text::{shouty_snake_case, to_shouty_snake_case};
use vstd::prelude::*;

verus! {

/// The text of each pair of strings.
pub open spec fn pair_texts(pairs: Seq<(String, String)>) -> Seq<(Seq<char>, Seq<char>)> {
    Seq::new(pairs.len(), |i: int| (pairs[i].0@, pairs[i].1@))
}

/// Display name and id of every entry, each entry before the entries below it.
pub open spec fn names_of(entries: Seq<EntryView>) -> Seq<(Seq<char>, Seq<char>)>
    decreases entries,
{
    if entries.len() == 0 {
        Seq::empty()
    } else {
        names_of(entries.drop_last()) + seq![(entries.last().name, entries.last().id)] + names_of(
            entries.last().entries,
        )
    }
}

/// Text and id of every explore fact of a run.
pub open spec fn explore_texts(facts: Seq<ExploreFactView>) -> Seq<(Seq<char>, Seq<char>)> {
    Seq::new(facts.len(), |i: int| (facts[i].text, facts[i].id))
}

/// Text and id of every rumor fact of a run.
pub open spec fn rumor_texts(facts: Seq<RumorFactView>) -> Seq<(Seq<char>, Seq<char>)> {
    Seq::new(facts.len(), |i: int| (facts[i].text, facts[i].id))
}

/// Text and id of every fact: for each entry its explore facts, its rumor
/// facts, then the facts of the entries below it.
pub open spec fn fact_texts_of(entries: Seq<EntryView>) -> Seq<(Seq<char>, Seq<char>)>
    decreases entries,
{
    if entries.len() == 0 {
        Seq::empty()
    } else {
        fact_texts_of(entries.drop_last()) + explore_texts(entries.last().explore) + rumor_texts(
            entries.last().rumor,
        ) + fact_texts_of(entries.last().entries)
    }
}

/// Returns the display name and the id of every entry, each entry before the
/// entries below it.
pub fn collect_astro_names(entries: &[JsonEntry]) -> (names: Vec<(String, String)>)
    ensures
        pair_texts(names@) == names_of(json_entry_views(entries@)),
    decreases entries@,
{
    let ghost views = json_entry_views(entries@);
    let mut names: Vec<(String, String)> = Vec::new();
    let mut i: usize = 0;
    proof {
        assert(views.subrange(0, 0) =~= Seq::empty());
        assert(pair_texts(names@) =~= Seq::empty());
    }
    while i < entries.len()
        invariant
            i <= entries@.len(),
            views == json_entry_views(entries@),
            pair_texts(names@) == names_of(views.subrange(0, i as int)),
        decreases entries@.len() - i,
    {
        let e = &entries[i];
        let ghost before = names@;
        names.push((e.name.clone(), e.id.clone()));
        let mut below = collect_astro_names(e.entries.as_slice());
        let ghost below_pairs = below@;
        names.append(&mut below);
        proof {
            let upto = views.subrange(0, i + 1);
            assert(upto.drop_last() =~= views.subrange(0, i as int));
            assert(upto.last() == json_entry_view(entries@[i as int]));
            assert(pair_texts(names@) =~= pair_texts(before) + seq![(e.name@, e.id@)] + pair_texts(
                below_pairs,
            ));
        }
        i = i + 1;
    }
    proof {
        assert(views.subrange(0, i as int) =~= views);
    }
    names
}

/// Returns the text and the id of every fact: for each entry its explore
/// facts, its rumor facts, then the facts of the entries below it.
pub fn collect_astro_texts(entries: &[JsonEntry]) -> (texts: Vec<(String, String)>)
    ensures
        pair_texts(texts@) == fact_texts_of(json_entry_views(entries@)),
    decreases entries@,
{
    let ghost views = json_entry_views(entries@);
    let mut texts: Vec<(String, String)> = Vec::new();
    let mut i: usize = 0;
    proof {
        assert(views.subrange(0, 0) =~= Seq::empty());
        assert(pair_texts(texts@) =~= Seq::empty());
    }
    while i < entries.len()
        invariant
            i <= entries@.len(),
            views == json_entry_views(entries@),
            pair_texts(texts@) == fact_texts_of(views.subrange(0, i as int)),
        decreases entries@.len() - i,
    {
        let e = &entries[i];
        let ghost before = texts@;
        let mut k: usize = 0;
        while k < e.facts.explore.len()
            invariant
                k <= e.facts.explore@.len(),
                pair_texts(texts@) == pair_texts(before) + explore_texts(
                    explore_views(e.facts.explore@),
                ).subrange(0, k as int),
            decreases e.facts.explore@.len() - k,
        {
            let fact = &e.facts.explore[k];
            let ghost prev = texts@;
            texts.push((fact.text.clone(), fact.id.clone()));
            proof {
                let all = explore_texts(explore_views(e.facts.explore@));
                assert(pair_texts(texts@) =~= pair_texts(prev).push((fact.text@, fact.id@)));
                assert(all.subrange(0, k + 1) =~= all.subrange(0, k as int).push(all[k as int]));
                assert(pair_texts(texts@) =~= pair_texts(before) + explore_texts(
                    explore_views(e.facts.explore@),
                ).subrange(0, k + 1));
            }
            k = k + 1;
        }
        let ghost explored = texts@;
        let mut k: usize = 0;
        while k < e.facts.rumor.len()
            invariant
                k <= e.facts.rumor@.len(),
                pair_texts(texts@) == pair_texts(explored) + rumor_texts(
                    rumor_views(e.facts.rumor@),
                ).subrange(0, k as int),
            decreases e.facts.rumor@.len() - k,
        {
            let fact = &e.facts.rumor[k];
            let ghost prev = texts@;
            texts.push((fact.text.clone(), fact.id.clone()));
            proof {
                let all = rumor_texts(rumor_views(e.facts.rumor@));
                assert(pair_texts(texts@) =~= pair_texts(prev).push((fact.text@, fact.id@)));
                assert(all.subrange(0, k + 1) =~= all.subrange(0, k as int).push(all[k as int]));
                assert(pair_texts(texts@) =~= pair_texts(explored) + rumor_texts(
                    rumor_views(e.facts.rumor@),
                ).subrange(0, k + 1));
            }
            k = k + 1;
        }
        let ghost rumored = texts@;
        let mut below = collect_astro_texts(e.entries.as_slice());
        let ghost below_pairs = below@;
        texts.append(&mut below);
        proof {
            let upto = views.subrange(0, i + 1);
            let view = json_entry_view(entries@[i as int]);
            assert(upto.drop_last() =~= views.subrange(0, i as int));
            assert(upto.last() == view);
            assert(explore_texts(view.explore).subrange(0, view.explore.len() as int)
                =~= explore_texts(view.explore));
            assert(rumor_texts(view.rumor).subrange(0, view.rumor.len() as int) =~= rumor_texts(
                view.rumor,
            ));
            assert(pair_texts(texts@) =~= pair_texts(rumored) + pair_texts(below_pairs));
        }
        i = i + 1;
    }
    proof {
        assert(views.subrange(0, i as int) =~= views);
    }
    texts
}

/// The second display names of a run of rumor facts, in order.
pub open spec fn rumor_names(facts: Seq<RumorFactView>) -> Seq<Seq<char>>
    decreases facts.len(),
{
    if facts.len() == 0 {
        Seq::empty()
    } else {
        match facts.last().name {
            Some(name) => rumor_names(facts.drop_last()).push(name),
            None => rumor_names(facts.drop_last()),
        }
    }
}

/// Every second display name of a rumor fact: for each entry those of its
/// rumor facts, then those of the entries below it.
pub open spec fn alt_names_of(entries: Seq<EntryView>) -> Seq<Seq<char>>
    decreases entries,
{
    if entries.len() == 0 {
        Seq::empty()
    } else {
        alt_names_of(entries.drop_last()) + rumor_names(entries.last().rumor) + alt_names_of(
            entries.last().entries,
        )
    }
}

/// The map that gives each of `names` its made-up key.
pub open spec fn alt_keys_of(names: Seq<Seq<char>>) -> Map<Seq<char>, Seq<char>> {
    Map::new(|name: Seq<char>| names.contains(name), |name: Seq<char>| shouty_snake_case(name))
}

/// The text of each value of a map.
pub open spec fn text_values(map: Map<Seq<char>, String>) -> Map<Seq<char>, Seq<char>> {
    Map::new(|key: Seq<char>| map.contains_key(key), |key: Seq<char>| map[key]@)
}

/// Every second display name of a rumor fact, in the order of the walk.
fn collect_alt_names(entries: &[JsonEntry]) -> (names: Vec<String>)
    ensures
        texts_of(names@) == alt_names_of(json_entry_views(entries@)),
    decreases entries@,
{
    let ghost views = json_entry_views(entries@);
    let mut names: Vec<String> = Vec::new();
    let mut i: usize = 0;
    proof {
        assert(views.subrange(0, 0) =~= Seq::empty());
        assert(texts_of(names@) =~= Seq::empty());
    }
    while i < entries.len()
        invariant
            i <= entries@.len(),
            views == json_entry_views(entries@),
            texts_of(names@) == alt_names_of(views.subrange(0, i as int)),
        decreases entries@.len() - i,
    {
        let e = &entries[i];
        let ghost before = names@;
        let ghost rumors = rumor_views(e.facts.rumor@);
        let mut k: usize = 0;
        proof {
            assert(rumors.subrange(0, 0) =~= Seq::empty());
        }
        while k < e.facts.rumor.len()
            invariant
                k <= e.facts.rumor@.len(),
                rumors == rumor_views(e.facts.rumor@),
                texts_of(names@) == texts_of(before) + rumor_names(rumors.subrange(0, k as int)),
            decreases e.facts.rumor@.len() - k,
        {
            proof {
                assert(rumors.subrange(0, k + 1).drop_last() =~= rumors.subrange(0, k as int));
            }
            match &e.facts.rumor[k].name {
                Some(name) => {
                    let ghost prev = names@;
                    names.push(name.clone());
                    proof {
                        assert(texts_of(names@) =~= texts_of(prev).push(name@));
                        assert(rumors.subrange(0, k + 1).last().name == Some(name@));
                        assert(texts_of(names@) =~= texts_of(before) + rumor_names(
                            rumors.subrange(0, k + 1),
                        ));
                    }
                },
                None => {},
            }
            k = k + 1;
        }
        let ghost rumored = names@;
        let mut below = collect_alt_names(e.entries.as_slice());
        let ghost below_names = below@;
        names.append(&mut below);
        proof {
            let upto = views.subrange(0, i + 1);
            assert(upto.drop_last() =~= views.subrange(0, i as int));
            assert(upto.last() == json_entry_view(entries@[i as int]));
            assert(rumors.subrange(0, rumors.len() as int) =~= rumors);
            assert(texts_of(names@) =~= texts_of(rumored) + texts_of(below_names));
        }
        i = i + 1;
    }
    proof {
        assert(views.subrange(0, i as int) =~= views);
    }
    names
}

/// Gives each of `names` its made-up key.
fn alt_keys(names: &Vec<String>) -> (keys: StrMap<String>)
    ensures
        keys.wf(),
        text_values(keys@) == alt_keys_of(texts_of(names@)),
{
    let mut keys: StrMap<String> = StrMap::new();
    let mut i: usize = 0;
    proof {
        assert(text_values(keys@) =~= alt_keys_of(texts_of(names@).subrange(0, 0)));
    }
    while i < names.len()
        invariant
            i <= names@.len(),
            keys.wf(),
            text_values(keys@) == alt_keys_of(texts_of(names@).subrange(0, i as int)),
        decreases names@.len() - i,
    {
        let name = &names[i];
        let ghost before = keys@;
        keys.insert(name.clone(), to_shouty_snake_case(name.as_str()));
        proof {
            let done = texts_of(names@).subrange(0, i as int);
            let upto = texts_of(names@).subrange(0, i + 1);
            assert(upto =~= done.push(name@));
            assert forall|k: Seq<char>| upto.contains(k) <==> (done.contains(k) || k == name@) by {
                if done.contains(k) {
                    let j = done.index_of(k);
                    assert(upto[j] == k);
                }
                if k == name@ {
                    assert(upto[i as int] == k);
                }
                if upto.contains(k) {
                    let j = upto.index_of(k);
                    if j < i {
                        assert(done[j] == k);
                    }
                }
            }
            assert forall|k: Seq<char>| #[trigger]
                text_values(keys@).dom().contains(k) == alt_keys_of(upto).dom().contains(k) by {
                if k != name@ {
                    assert(text_values(before).dom().contains(k) == alt_keys_of(
                        done,
                    ).dom().contains(k));
                }
            }
            assert forall|k: Seq<char>| #[trigger]
                text_values(keys@).dom().contains(k) implies text_values(keys@)[k] == alt_keys_of(
                upto,
            )[k] by {
                if k != name@ {
                    assert(text_values(before).dom().contains(k));
                    assert(text_values(before)[k] == alt_keys_of(done)[k]);
                }
            }
            assert(text_values(keys@) =~= alt_keys_of(upto));
        }
        i = i + 1;
    }
    proof {
        assert(texts_of(names@).subrange(0, i as int) =~= texts_of(names@));
    }
    keys
}

/// Returns the map from each second display name of a rumor fact to the key
/// made up for it.
pub fn collect_rumor_alt_names(entries: &[JsonEntry]) -> (keys: StrMap<String>)
    ensures
        keys.wf(),
        text_values(keys@) == alt_keys_of(alt_names_of(json_entry_views(entries@))),
{
    let names = collect_alt_names(entries);
    alt_keys(&names)
}

/// The ids that stand beside `text` in `pairs`, in order.
pub open spec fn ids_under(pairs: Seq<(Seq<char>, Seq<char>)>, text: Seq<char>) -> Seq<Seq<char>>
    decreases pairs.len(),
{
    if pairs.len() == 0 {
        Seq::empty()
    } else if pairs.last().0 == text {
        ids_under(pairs.drop_last(), text).push(pairs.last().1)
    } else {
        ids_under(pairs.drop_last(), text)
    }
}

/// Some pair of `pairs` holds `text`.
pub open spec fn has_text(pairs: Seq<(Seq<char>, Seq<char>)>, text: Seq<char>) -> bool {
    exists|i: int| 0 <= i < pairs.len() && (#[trigger] pairs[i]).0 == text
}

/// The index over `pairs`: each text leads to all the ids that stand beside
/// it, in the order in which they come.
pub open spec fn grouped(pairs: Seq<(Seq<char>, Seq<char>)>) -> Map<Seq<char>, Seq<Seq<char>>> {
    Map::new(|text: Seq<char>| has_text(pairs, text), |text: Seq<char>| ids_under(pairs, text))
}

/// The texts of `pairs` in the order in which each first comes.
pub open spec fn first_texts(pairs: Seq<(Seq<char>, Seq<char>)>) -> Seq<Seq<char>>
    decreases pairs.len(),
{
    if pairs.len() == 0 {
        Seq::empty()
    } else if first_texts(pairs.drop_last()).contains(pairs.last().0) {
        first_texts(pairs.drop_last())
    } else {
        first_texts(pairs.drop_last()).push(pairs.last().0)
    }
}

/// The text of each id of each list of a map.
pub open spec fn id_lists(map: Map<Seq<char>, Vec<String>>) -> Map<Seq<char>, Seq<Seq<char>>> {
    Map::new(|key: Seq<char>| map.contains_key(key), |key: Seq<char>| texts_of(map[key]@))
}

/// A text that no pair holds has no ids.
pub proof fn lemma_ids_under_absent(pairs: Seq<(Seq<char>, Seq<char>)>, text: Seq<char>)
    requires
        !has_text(pairs, text),
    ensures
        ids_under(pairs, text) == Seq::<Seq<char>>::empty(),
    decreases pairs.len(),
{
    if pairs.len() > 0 {
        assert(pairs[pairs.len() - 1].0 != text);
        assert forall|i: int| 0 <= i < pairs.drop_last().len() implies (#[trigger] pairs.drop_last()[i]).0
            != text by {
            assert(pairs[i].0 != text);
        }
        lemma_ids_under_absent(pairs.drop_last(), text);
    }
}

/// An id stands in the list of a text exactly when some pair holds the two together.
pub proof fn lemma_ids_under_contains(
    pairs: Seq<(Seq<char>, Seq<char>)>,
    text: Seq<char>,
    id: Seq<char>,
)
    ensures
        ids_under(pairs, text).contains(id) <==> pairs.contains((text, id)),
    decreases pairs.len(),
{
    if pairs.len() > 0 {
        let rest = pairs.drop_last();
        let last = pairs.last();
        let under = ids_under(pairs, text);
        let under_rest = ids_under(rest, text);
        lemma_ids_under_contains(rest, text, id);
        if pairs.contains((text, id)) {
            let i = pairs.index_of((text, id));
            assert(pairs[i] == (text, id));
            if i < rest.len() {
                assert(rest[i] == (text, id));
                assert(under_rest.contains(id));
                let j = under_rest.index_of(id);
                assert(under_rest[j] == id);
                assert(under[j] == id);
            } else {
                assert(last == (text, id));
                assert(under == under_rest.push(id));
                assert(under[under.len() - 1] == id);
            }
            assert(under.contains(id));
        }
        if under.contains(id) {
            let j = under.index_of(id);
            assert(under[j] == id);
            if last.0 == text && j == under.len() - 1 {
                assert(pairs[pairs.len() - 1] == (text, id));
            } else {
                assert(under_rest[j] == id);
                assert(under_rest.contains(id));
                let i = rest.index_of((text, id));
                assert(rest[i] == (text, id));
                assert(pairs[i] == (text, id));
            }
            assert(pairs.contains((text, id)));
        }
    } else {
        assert(!ids_under(pairs, text).contains(id));
        assert(!pairs.contains((text, id)));
    }
}

/// Builds the index over `pairs`: each text leads to all the ids that stand
/// beside it; a text that comes again adds its id to the list.
pub fn group_by_text(pairs: Vec<(String, String)>) -> (index: StrMap<Vec<String>>)
    ensures
        index.wf(),
        id_lists(index@) == grouped(pair_texts(pairs@)),
        index.spec_keys() == first_texts(pair_texts(pairs@)),
{
    let ghost all = pair_texts(pairs@);
    let mut index: StrMap<Vec<String>> = StrMap::new();
    proof {
        assert(all.subrange(0, 0) =~= Seq::empty());
        assert(id_lists(index@) =~= grouped(all.subrange(0, 0)));
    }
    for pair in it: pairs
        invariant
            it.seq() == pairs@,
            all == pair_texts(pairs@),
            index.wf(),
            id_lists(index@) == grouped(all.subrange(0, it.index() as int)),
            index.spec_keys() == first_texts(all.subrange(0, it.index() as int)),
    {
        let ghost i = it.index() as int;
        let ghost before = index;
        let ghost done = all.subrange(0, i);
        let ghost upto = all.subrange(0, i + 1);
        let ghost text = pair.0@;
        let ghost id = pair.1@;
        index.push_to(pair.0, pair.1);
        proof {
            assert(all[i] == (text, id));
            assert(upto.drop_last() =~= done);
            assert(upto.last() == (text, id));
            assert forall|k: Seq<char>| has_text(upto, k) == (has_text(done, k) || k == text) by {
                if has_text(done, k) {
                    let j = choose|j: int| 0 <= j < done.len() && (#[trigger] done[j]).0 == k;
                    assert(upto[j].0 == k);
                }
                if k == text {
                    assert(upto[i].0 == k);
                }
                if has_text(upto, k) {
                    let j = choose|j: int| 0 <= j < upto.len() && (#[trigger] upto[j]).0 == k;
                    if j < i {
                        assert(done[j].0 == k);
                    }
                }
            }
            assert(before.spec_keys().contains(text) == before@.contains_key(text));
            assert(id_lists(before@).dom().contains(text) == has_text(done, text));
            assert forall|k: Seq<char>| #[trigger]
                id_lists(index@).dom().contains(k) == grouped(upto).dom().contains(k) by {
                assert(id_lists(before@).dom().contains(k) == grouped(done).dom().contains(k));
            }
            assert forall|k: Seq<char>| #[trigger]
                id_lists(index@).dom().contains(k) implies id_lists(index@)[k] == grouped(
                upto,
            )[k] by {
                if k == text {
                    if before@.contains_key(text) {
                        assert(id_lists(before@)[text] == grouped(done)[text]);
                        assert(texts_of(index@[text]@) =~= texts_of(before@[text]@).push(id));
                    } else {
                        lemma_ids_under_absent(done, text);
                        assert(texts_of(index@[text]@) =~= Seq::<Seq<char>>::empty().push(id));
                    }
                } else {
                    assert(id_lists(before@).dom().contains(k));
                    assert(id_lists(before@)[k] == grouped(done)[k]);
                }
            }
            assert(id_lists(index@) =~= grouped(upto));
        }
    }
    proof {
        assert(all.subrange(0, pairs@.len() as int) =~= all);
    }
    index
}

/// The three indexes over the catalog.
pub struct CatalogIndex {
    /// From a display name to the ids of the entries that bear it.
    pub names: StrMap<Vec<String>>,
    /// From a fact's text to the ids of the facts that hold it.
    pub facts: StrMap<Vec<String>>,
    /// From the second display name of a rumor fact to the key made up for it.
    pub alt_names: StrMap<String>,
}

/// What the three indexes hold.
pub struct CatalogIndexView {
    pub names: Map<Seq<char>, Seq<Seq<char>>>,
    pub facts: Map<Seq<char>, Seq<Seq<char>>>,
    pub alt_names: Map<Seq<char>, Seq<char>>,
    /// The display names in the order in which the catalog first shows each.
    pub name_order: Seq<Seq<char>>,
}

impl View for CatalogIndex {
    type V = CatalogIndexView;

    open spec fn view(&self) -> CatalogIndexView {
        CatalogIndexView {
            names: id_lists(self.names@),
            facts: id_lists(self.facts@),
            alt_names: text_values(self.alt_names@),
            name_order: self.names.spec_keys(),
        }
    }
}

impl CatalogIndex {
    /// Each of the three indexes is well formed.
    pub open spec fn wf(self) -> bool {
        &&& self.names.wf()
        &&& self.facts.wf()
        &&& self.alt_names.wf()
    }
}

/// What each object of a forest holds.
pub open spec fn forest_views(forest: Seq<AstroObject<JsonEntry>>) -> Seq<AstroObjectView> {
    Seq::new(forest.len(), |i: int| forest[i]@)
}

/// Display name and id of every entry of the forest.
pub open spec fn forest_names(forest: Seq<AstroObjectView>) -> Seq<(Seq<char>, Seq<char>)>
    decreases forest.len(),
{
    if forest.len() == 0 {
        Seq::empty()
    } else {
        forest_names(forest.drop_last()) + names_of(forest.last().entries)
    }
}

/// Text and id of every fact of the forest.
pub open spec fn forest_fact_texts(forest: Seq<AstroObjectView>) -> Seq<(Seq<char>, Seq<char>)>
    decreases forest.len(),
{
    if forest.len() == 0 {
        Seq::empty()
    } else {
        forest_fact_texts(forest.drop_last()) + fact_texts_of(forest.last().entries)
    }
}

/// Every second display name of a rumor fact of the forest.
pub open spec fn forest_alt_names(forest: Seq<AstroObjectView>) -> Seq<Seq<char>>
    decreases forest.len(),
{
    if forest.len() == 0 {
        Seq::empty()
    } else {
        forest_alt_names(forest.drop_last()) + alt_names_of(forest.last().entries)
    }
}

/// The indexes over a forest.
pub open spec fn index_of_forest(forest: Seq<AstroObjectView>) -> CatalogIndexView {
    CatalogIndexView {
        names: grouped(forest_names(forest)),
        facts: grouped(forest_fact_texts(forest)),
        alt_names: alt_keys_of(forest_alt_names(forest)),
        name_order: first_texts(forest_names(forest)),
    }
}

/// Walks the forest once and builds the three indexes over it.
pub fn build_index(forest: &Vec<AstroObject<JsonEntry>>) -> (index: CatalogIndex)
    ensures
        index.wf(),
        index@ == index_of_forest(forest_views(forest@)),
{
    let ghost views = forest_views(forest@);
    let mut names: Vec<(String, String)> = Vec::new();
    let mut facts: Vec<(String, String)> = Vec::new();
    let mut alt_names: Vec<String> = Vec::new();
    let mut i: usize = 0;
    proof {
        assert(views.subrange(0, 0) =~= Seq::empty());
        assert(pair_texts(names@) =~= Seq::empty());
        assert(pair_texts(facts@) =~= Seq::empty());
        assert(texts_of(alt_names@) =~= Seq::empty());
    }
    while i < forest.len()
        invariant
            i <= forest@.len(),
            views == forest_views(forest@),
            pair_texts(names@) == forest_names(views.subrange(0, i as int)),
            pair_texts(facts@) == forest_fact_texts(views.subrange(0, i as int)),
            texts_of(alt_names@) == forest_alt_names(views.subrange(0, i as int)),
        decreases forest@.len() - i,
    {
        let object = &forest[i];
        let ghost names_before = names@;
        let ghost facts_before = facts@;
        let ghost alt_before = alt_names@;
        let mut more_names = collect_astro_names(object.entries.as_slice());
        let mut more_facts = collect_astro_texts(object.entries.as_slice());
        let mut more_alt = collect_alt_names(object.entries.as_slice());
        let ghost added_names = more_names@;
        let ghost added_facts = more_facts@;
        let ghost added_alt = more_alt@;
        names.append(&mut more_names);
        facts.append(&mut more_facts);
        alt_names.append(&mut more_alt);
        proof {
            let upto = views.subrange(0, i + 1);
            assert(upto.drop_last() =~= views.subrange(0, i as int));
            assert(upto.last() == forest@[i as int]@);
            assert(pair_texts(names@) =~= pair_texts(names_before) + pair_texts(added_names));
            assert(pair_texts(facts@) =~= pair_texts(facts_before) + pair_texts(added_facts));
            assert(texts_of(alt_names@) =~= texts_of(alt_before) + texts_of(added_alt));
        }
        i = i + 1;
    }
    proof {
        assert(views.subrange(0, i as int) =~= views);
    }
    CatalogIndex {
        names: group_by_text(names),
        facts: group_by_text(facts),
        alt_names: alt_keys(&alt_names),
    }
}

} // verus!
