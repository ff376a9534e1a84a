//! Checking that every id of the catalog has a translation.

use crate::index::{forest_views, text_values};
use crate::info::Lang;
use crate::models::entries::{
    explore_views, json_entry_view, json_entry_views, rumor_views, AstroObject, AstroObjectView,
    EntryView, ExploreFactView, JsonEntry, RumorFactView,
};
use crate::strmap::{texts_of, StrMap};
use vstd::prelude::*;

verus! {

/// The id of each explore fact of a run.
pub open spec fn explore_ids(facts: Seq<ExploreFactView>) -> Seq<Seq<char>> {
    Seq::new(facts.len(), |i: int| facts[i].id)
}

/// The id of each rumor fact of a run.
pub open spec fn rumor_ids(facts: Seq<RumorFactView>) -> Seq<Seq<char>> {
    Seq::new(facts.len(), |i: int| facts[i].id)
}

/// Every id below a run of entries: for each entry its own id, the ids of
/// its explore facts, those of its rumor facts, then the ids below it.
pub open spec fn ids_of(entries: Seq<EntryView>) -> Seq<Seq<char>>
    decreases entries,
{
    if entries.len() == 0 {
        Seq::empty()
    } else {
        ids_of(entries.drop_last()) + seq![entries.last().id] + explore_ids(entries.last().explore)
            + rumor_ids(entries.last().rumor) + ids_of(entries.last().entries)
    }
}

/// Every id of the entries and facts of a forest.
pub open spec fn forest_ids(forest: Seq<AstroObjectView>) -> Seq<Seq<char>>
    decreases forest.len(),
{
    if forest.len() == 0 {
        Seq::empty()
    } else {
        forest_ids(forest.drop_last()) + ids_of(forest.last().entries)
    }
}

/// The test that an id has no translation in `tr`.
pub open spec fn lacks(tr: Map<Seq<char>, Seq<char>>) -> spec_fn(Seq<char>) -> bool {
    |id: Seq<char>| !tr.contains_key(id)
}

/// The ids among `ids` that have no translation in `tr`, in order.
pub open spec fn missing_among(ids: Seq<Seq<char>>, tr: Map<Seq<char>, Seq<char>>) -> Seq<
    Seq<char>,
> {
    ids.filter(lacks(tr))
}

/// An id is reported as missing exactly when it is an id of the catalog and
/// has no translation.
pub proof fn lemma_missing_iff(ids: Seq<Seq<char>>, tr: Map<Seq<char>, Seq<char>>, id: Seq<char>)
    ensures
        missing_among(ids, tr).contains(id) <==> (ids.contains(id) && !tr.contains_key(id)),
{
    let missing = missing_among(ids, tr);
    if missing.contains(id) {
        ids.lemma_filter_contains_rev(lacks(tr), id);
        let i = missing.index_of(id);
        assert(missing[i] == id);
        ids.lemma_filter_pred(lacks(tr), i);
    }
    if ids.contains(id) && !tr.contains_key(id) {
        let i = ids.index_of(id);
        assert(ids[i] == id);
        ids.lemma_filter_contains(lacks(tr), i);
    }
}

/// Lists the ids of the entries and of their facts that have no translation
/// in `tr`, in the order of the walk.
pub fn validate_entries_tr(entries: &[JsonEntry], tr: &StrMap<String>) -> (missing: Vec<String>)
    requires
        tr.wf(),
    ensures
        texts_of(missing@) == missing_among(ids_of(json_entry_views(entries@)), text_values(tr@)),
    decreases entries@,
{
    let ghost views = json_entry_views(entries@);
    let ghost have = text_values(tr@);
    let mut missing: Vec<String> = Vec::new();
    let mut i: usize = 0;
    proof {
        reveal(Seq::filter);
        assert(views.subrange(0, 0) =~= Seq::empty());
        assert(texts_of(missing@) =~= Seq::empty());
        assert(missing_among(Seq::empty(), have) =~= Seq::empty());
    }
    while i < entries.len()
        invariant
            i <= entries@.len(),
            views == json_entry_views(entries@),
            have == text_values(tr@),
            tr.wf(),
            texts_of(missing@) == missing_among(ids_of(views.subrange(0, i as int)), have),
        decreases entries@.len() - i,
    {
        let e = &entries[i];
        let ghost view = json_entry_view(entries@[i as int]);
        let ghost mut seen = ids_of(views.subrange(0, i as int));
        if !tr.contains_key(e.id.as_str()) {
            let ghost prev = missing@;
            missing.push(e.id.clone());
            proof {
                assert(texts_of(missing@) =~= texts_of(prev).push(e.id@));
            }
        }
        proof {
            seen.lemma_filter_push(e.id@, lacks(have));
            seen = seen.push(e.id@);
        }
        let ghost own = seen;
        let mut k: usize = 0;
        proof {
            assert(own + explore_ids(view.explore).subrange(0, 0) =~= own);
        }
        while k < e.facts.explore.len()
            invariant
                k <= e.facts.explore@.len(),
                have == text_values(tr@),
                tr.wf(),
                view.explore == explore_views(e.facts.explore@),
                seen == own + explore_ids(view.explore).subrange(0, k as int),
                texts_of(missing@) == missing_among(seen, have),
            decreases e.facts.explore@.len() - k,
        {
            let fact = &e.facts.explore[k];
            if !tr.contains_key(fact.id.as_str()) {
                let ghost prev = missing@;
                missing.push(fact.id.clone());
                proof {
                    assert(texts_of(missing@) =~= texts_of(prev).push(fact.id@));
                }
            }
            proof {
                seen.lemma_filter_push(fact.id@, lacks(have));
                assert(seen.push(fact.id@) =~= own + explore_ids(view.explore).subrange(0, k + 1));
                seen = seen.push(fact.id@);
            }
            k = k + 1;
        }
        let ghost explored = seen;
        let mut k: usize = 0;
        proof {
            assert(explore_ids(view.explore).subrange(0, view.explore.len() as int)
                =~= explore_ids(view.explore));
            assert(explored + rumor_ids(view.rumor).subrange(0, 0) =~= explored);
        }
        while k < e.facts.rumor.len()
            invariant
                k <= e.facts.rumor@.len(),
                have == text_values(tr@),
                tr.wf(),
                view.rumor == rumor_views(e.facts.rumor@),
                seen == explored + rumor_ids(view.rumor).subrange(0, k as int),
                texts_of(missing@) == missing_among(seen, have),
            decreases e.facts.rumor@.len() - k,
        {
            let fact = &e.facts.rumor[k];
            if !tr.contains_key(fact.id.as_str()) {
                let ghost prev = missing@;
                missing.push(fact.id.clone());
                proof {
                    assert(texts_of(missing@) =~= texts_of(prev).push(fact.id@));
                }
            }
            proof {
                seen.lemma_filter_push(fact.id@, lacks(have));
                assert(seen.push(fact.id@) =~= explored + rumor_ids(view.rumor).subrange(0, k + 1));
                seen = seen.push(fact.id@);
            }
            k = k + 1;
        }
        let ghost before = missing@;
        let mut below = validate_entries_tr(e.entries.as_slice(), tr);
        let ghost below_ids = below@;
        missing.append(&mut below);
        proof {
            let upto = views.subrange(0, i + 1);
            assert(upto.drop_last() =~= views.subrange(0, i as int));
            assert(upto.last() == view);
            assert(rumor_ids(view.rumor).subrange(0, view.rumor.len() as int) =~= rumor_ids(
                view.rumor,
            ));
            assert(texts_of(missing@) =~= texts_of(before) + texts_of(below_ids));
            Seq::filter_distributes_over_add(seen, ids_of(view.entries), lacks(have));
            assert(ids_of(upto) =~= seen + ids_of(view.entries));
        }
        i = i + 1;
    }
    proof {
        assert(views.subrange(0, i as int) =~= views);
    }
    missing
}

/// Lists the ids of the forest that have no translation in `tr`.
pub fn validate_forest(forest: &Vec<AstroObject<JsonEntry>>, tr: &StrMap<String>) -> (missing: Vec<
    String,
>)
    requires
        tr.wf(),
    ensures
        texts_of(missing@) == missing_among(forest_ids(forest_views(forest@)), text_values(tr@)),
{
    let ghost views = forest_views(forest@);
    let ghost have = text_values(tr@);
    let mut missing: Vec<String> = Vec::new();
    let mut i: usize = 0;
    proof {
        reveal(Seq::filter);
        assert(views.subrange(0, 0) =~= Seq::empty());
        assert(texts_of(missing@) =~= Seq::empty());
        assert(missing_among(Seq::empty(), have) =~= Seq::empty());
    }
    while i < forest.len()
        invariant
            i <= forest@.len(),
            views == forest_views(forest@),
            have == text_values(tr@),
            tr.wf(),
            texts_of(missing@) == missing_among(forest_ids(views.subrange(0, i as int)), have),
        decreases forest@.len() - i,
    {
        let ghost before = missing@;
        let mut more = validate_entries_tr(forest[i].entries.as_slice(), tr);
        let ghost added = more@;
        missing.append(&mut more);
        proof {
            let upto = views.subrange(0, i + 1);
            assert(upto.drop_last() =~= views.subrange(0, i as int));
            assert(upto.last() == forest@[i as int]@);
            assert(texts_of(missing@) =~= texts_of(before) + texts_of(added));
            Seq::filter_distributes_over_add(
                forest_ids(views.subrange(0, i as int)),
                ids_of(upto.last().entries),
                lacks(have),
            );
        }
        i = i + 1;
    }
    proof {
        assert(views.subrange(0, i as int) =~= views);
    }
    missing
}

/// An id of the catalog that has no translation in one language.
#[derive(Debug, PartialEq, Eq)]
pub struct MissingTranslation {
    pub lang: Lang,
    pub id: String,
}

impl View for MissingTranslation {
    type V = (Lang, Seq<char>);

    open spec fn view(&self) -> (Lang, Seq<char>) {
        (self.lang, self.id@)
    }
}

/// What each finding of a run holds.
pub open spec fn finding_views(findings: Seq<MissingTranslation>) -> Seq<(Lang, Seq<char>)> {
    Seq::new(findings.len(), |i: int| findings[i]@)
}

/// Each of `ids` beside `lang`.
pub open spec fn tagged(lang: Lang, ids: Seq<Seq<char>>) -> Seq<(Lang, Seq<char>)> {
    Seq::new(ids.len(), |i: int| (lang, ids[i]))
}

/// The ids of the forest that have no translation, language by language.
pub open spec fn findings_of(
    forest: Seq<AstroObjectView>,
    translations: Seq<(Lang, Map<Seq<char>, Seq<char>>)>,
) -> Seq<(Lang, Seq<char>)>
    decreases translations.len(),
{
    if translations.len() == 0 {
        Seq::empty()
    } else {
        findings_of(forest, translations.drop_last()) + tagged(
            translations.last().0,
            missing_among(forest_ids(forest), translations.last().1),
        )
    }
}

/// What the map of each language holds.
pub open spec fn language_maps(translations: Seq<(Lang, StrMap<String>)>) -> Seq<
    (Lang, Map<Seq<char>, Seq<char>>),
> {
    Seq::new(translations.len(), |i: int| (translations[i].0, text_values(translations[i].1@)))
}

/// Walks the forest once for each language and lists, beside the language,
/// every id of an entry or of a fact that has no translation in it.
pub fn validate(forest: &Vec<AstroObject<JsonEntry>>, translations: &Vec<(Lang, StrMap<String>)>) -> (findings:
    Vec<MissingTranslation>)
    requires
        forall|i: int| 0 <= i < translations@.len() ==> (#[trigger] translations@[i]).1.wf(),
    ensures
        finding_views(findings@) == findings_of(
            forest_views(forest@),
            language_maps(translations@),
        ),
{
    let ghost views = forest_views(forest@);
    let ghost maps = language_maps(translations@);
    let mut findings: Vec<MissingTranslation> = Vec::new();
    let mut t: usize = 0;
    proof {
        assert(maps.subrange(0, 0) =~= Seq::empty());
        assert(finding_views(findings@) =~= Seq::empty());
    }
    while t < translations.len()
        invariant
            t <= translations@.len(),
            views == forest_views(forest@),
            maps == language_maps(translations@),
            forall|i: int| 0 <= i < translations@.len() ==> (#[trigger] translations@[i]).1.wf(),
            finding_views(findings@) == findings_of(views, maps.subrange(0, t as int)),
        decreases translations@.len() - t,
    {
        let lang = translations[t].0;
        let ghost before = findings@;
        let missing = validate_forest(forest, &translations[t].1);
        let ghost ids = texts_of(missing@);
        for id in it: missing
            invariant
                it.seq() == missing@,
                ids == texts_of(missing@),
                finding_views(findings@) == finding_views(before) + tagged(lang, ids).subrange(
                    0,
                    it.index() as int,
                ),
        {
            let ghost prev = findings@;
            let ghost i = it.index() as int;
            findings.push(MissingTranslation { lang, id });
            proof {
                assert(finding_views(findings@) =~= finding_views(prev).push((lang, id@)));
                assert(tagged(lang, ids).subrange(0, i + 1) =~= tagged(lang, ids).subrange(
                    0,
                    i,
                ).push((lang, ids[i])));
            }
        }
        proof {
            assert(tagged(lang, ids).subrange(0, ids.len() as int) =~= tagged(lang, ids));
            assert(maps.subrange(0, t + 1).drop_last() =~= maps.subrange(0, t as int));
            assert(maps.subrange(0, t + 1).last() == maps[t as int]);
        }
        t = t + 1;
    }
    proof {
        assert(maps.subrange(0, t as int) =~= maps);
    }
    findings
}

} // verus!
