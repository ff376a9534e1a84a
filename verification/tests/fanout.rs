use ow_tracker::fanout::{fan_out, reconcile, ReconcileError};
use ow_tracker::index::{build_index, CatalogIndex};
use ow_tracker::info::Lang;
use ow_tracker::models::entries::{
    AstroObject, ExploreFact, JsonEntry, JsonEntryFacts, RumorFact,
};
use ow_tracker::models::translations::Translation;
use ow_tracker::pipeline::reconcile_tables;
use ow_tracker::reconcile::{clean_table, CleanError, CleanedEntry, KeyRule, ReconcilerConfig};
use ow_tracker::strmap::StrMap;
use ow_tracker::validate::{validate, validate_entries_tr, validate_forest, MissingTranslation};

fn explore(id: &str, text: &str) -> ExploreFact {
    ExploreFact { id: id.to_string(), ignore_more_to_explore: false, text: text.to_string() }
}

fn rumor(id: &str, name: Option<&str>, text: &str) -> RumorFact {
    RumorFact {
        id: id.to_string(),
        source_id: None,
        name: name.map(|n| n.to_string()),
        text: text.to_string(),
    }
}

fn entry(
    id: &str,
    name: &str,
    explore: Vec<ExploreFact>,
    rumor: Vec<RumorFact>,
    entries: Vec<JsonEntry>,
) -> JsonEntry {
    JsonEntry {
        id: id.to_string(),
        name: name.to_string(),
        facts: JsonEntryFacts { explore, rumor },
        entries,
        ..Default::default()
    }
}

fn tr(key: &str, value: &str) -> Translation {
    Translation { key: key.to_string(), value: value.to_string() }
}

fn cleaned(rule: KeyRule, key: &str, value: &str) -> CleanedEntry {
    CleanedEntry { rule, key: key.to_string(), value: value.to_string() }
}

fn pairs(map: &StrMap<String>) -> Vec<(String, String)> {
    let mut pairs = (0..map.len())
        .map(|i| (map.key_at(i).clone(), map.value_at(i).clone()))
        .collect::<Vec<_>>();
    pairs.sort();
    pairs
}

fn pair(a: &str, b: &str) -> (String, String) {
    (a.to_string(), b.to_string())
}

fn village() -> Vec<AstroObject<JsonEntry>> {
    vec![AstroObject {
        id: "TIMBER_HEARTH".to_string(),
        entries: vec![entry(
            "TH_VILLAGE",
            "Village",
            vec![explore("TH_VILLAGE_X1", "The one and only village.")],
            vec![],
            vec![],
        )],
    }]
}

fn forest() -> Vec<AstroObject<JsonEntry>> {
    vec![AstroObject {
        id: "TIMBER_HEARTH".to_string(),
        entries: vec![entry(
            "TH_VILLAGE",
            "Village",
            vec![explore("TH_VILLAGE_X1", "A village."), explore("TH_VILLAGE_X2", "Shared.")],
            vec![rumor("TH_VILLAGE_R1", Some("The Old Village"), "A rumor.")],
            vec![entry(
                "TH_ZERO_G_CAVE",
                "Zero-G Cave",
                vec![explore("TH_ZERO_G_CAVE_X1", "Shared.")],
                vec![],
                vec![],
            )],
        )],
    }]
}

fn index_of(forest: &Vec<AstroObject<JsonEntry>>) -> CatalogIndex {
    build_index(forest)
}

#[test]
fn the_one_and_only_village() {
    let forest = village();
    let index = index_of(&forest);
    assert_eq!(index.names.get("Village"), Some(&vec!["TH_VILLAGE".to_string()]));
    assert_eq!(
        index.facts.get("The one and only village."),
        Some(&vec!["TH_VILLAGE_X1".to_string()])
    );
    let reconciled = reconcile_tables(
        &ReconcilerConfig::v16(),
        &vec![Lang::French],
        &index,
        vec![vec![tr("VillageThe one and only village.", "Le seul et unique village.")]],
    )
    .unwrap();
    assert_eq!(reconciled.len(), 1);
    assert_eq!(reconciled[0].0, Lang::French);
    assert_eq!(
        pairs(&reconciled[0].1.translations),
        vec![pair("TH_VILLAGE_X1", "Le seul et unique village.")]
    );
    assert!(reconciled[0].1.unresolved.is_empty());
}

#[test]
fn a_fact_gets_the_value_of_the_key_that_runs_name_and_text_together() {
    for (name, text) in [("Village", "A text."), ("V", ""), ("A b", " c"), ("\u{c9}t\u{e9}", "\u{e9}")] {
        let forest = vec![AstroObject {
            id: "O".to_string(),
            entries: vec![entry("E", name, vec![], vec![rumor("F", None, text)], vec![])],
        }];
        let index = index_of(&forest);
        let key = format!("{name}{text}");
        let reconciled = reconcile_tables(
            &ReconcilerConfig::v16(),
            &vec![Lang::English],
            &index,
            vec![vec![tr(&key, "value")]],
        )
        .unwrap();
        assert_eq!(reconciled[0].1.translations.get("F"), Some(&"value".to_string()));
    }
}

#[test]
fn facts_that_share_a_text_get_the_same_value() {
    let forest = forest();
    let index = index_of(&forest);
    let out = fan_out(
        &ReconcilerConfig::v16(),
        &index,
        &vec![cleaned(KeyRule::CurrentPrefix, "Shared.", "one"), cleaned(KeyRule::NoPrefix, "Shared.", "two")],
    );
    assert_eq!(out.translations.get("TH_VILLAGE_X2"), Some(&"two".to_string()));
    assert_eq!(out.translations.get("TH_ZERO_G_CAVE_X1"), Some(&"two".to_string()));
    assert_eq!(out.translations.len(), 2);
}

#[test]
fn a_text_goes_to_names_facts_and_made_up_keys() {
    let forest = forest();
    let index = index_of(&forest);
    let out = fan_out(
        &ReconcilerConfig::v16(),
        &index,
        &vec![
            cleaned(KeyRule::NoPrefix, "Village", "Dorf"),
            cleaned(KeyRule::NewPrefix, "A village.", "Ein Dorf."),
            cleaned(KeyRule::NoPrefix, "The Old Village", "Das alte Dorf"),
            cleaned(KeyRule::Exception, "A rumor.", "Ein Ger\u{fc}cht."),
            cleaned(KeyRule::Sentinel, "973", "Mehr"),
        ],
    );
    assert_eq!(
        pairs(&out.translations),
        vec![
            pair("MORE_TO_EXPLORE", "Mehr"),
            pair("THE_OLD_VILLAGE", "Das alte Dorf"),
            pair("TH_VILLAGE", "Dorf"),
            pair("TH_VILLAGE_R1", "Ein Ger\u{fc}cht."),
            pair("TH_VILLAGE_X1", "Ein Dorf."),
        ]
    );
    assert!(out.unresolved.is_empty());
}

#[test]
fn a_text_that_belongs_to_no_id_is_listed() {
    let forest = forest();
    let index = index_of(&forest);
    let entries = vec![
        cleaned(KeyRule::NoPrefix, "Village", "Dorf"),
        cleaned(KeyRule::CurrentPrefix, "Unknown.", "?"),
        cleaned(KeyRule::NoPrefix, "973", "not the sentinel"),
        cleaned(KeyRule::Sentinel, "Village", "the sentinel"),
    ];
    let out = fan_out(&ReconcilerConfig::v16(), &index, &entries);
    assert_eq!(out.unresolved, vec!["Unknown.".to_string(), "973".to_string()]);
    assert_eq!(
        pairs(&out.translations),
        vec![pair("MORE_TO_EXPLORE", "the sentinel"), pair("TH_VILLAGE", "Dorf")]
    );
    let lenient = reconcile(&ReconcilerConfig::v16(), &index, &entries, false).unwrap();
    assert_eq!(lenient.unresolved, vec!["Unknown.".to_string(), "973".to_string()]);
    assert_eq!(
        reconcile(&ReconcilerConfig::v16(), &index, &entries, true).map(|out| out.unresolved),
        Err(ReconcileError::UnresolvedTranslationKey("Unknown.".to_string()))
    );
    let fine = vec![cleaned(KeyRule::NoPrefix, "Village", "Dorf")];
    assert!(reconcile(&ReconcilerConfig::v16(), &index, &fine, true).is_ok());
}

#[test]
fn the_sentinel_is_written_out_without_its_markup() {
    let forest = forest();
    let index = index_of(&forest);
    let config = ReconcilerConfig::v16();
    let (table, _) = clean_table(
        &config,
        index.names.keys(),
        "Village".to_string(),
        vec![tr("973", "<color=orange>There's <color=orange>more</color> to explore</color>")],
    );
    let out = fan_out(&config, &index, &table);
    assert_eq!(
        pairs(&out.translations),
        vec![pair("MORE_TO_EXPLORE", "There's <color=orange>more</color> to explore")]
    );
}

#[test]
fn an_exception_reaches_the_id_of_its_whole_key() {
    let forest = vec![AstroObject {
        id: "O".to_string(),
        entries: vec![
            entry("POD", "Escape Pod 3", vec![explore("POD_X1", "Empty.")], vec![], vec![]),
            entry("SURVIVORS", "Escape Pod 3 Survivors", vec![], vec![], vec![]),
        ],
    }];
    let index = index_of(&forest);
    let reconciled = reconcile_tables(
        &ReconcilerConfig::v16(),
        &vec![Lang::English],
        &index,
        vec![vec![
            tr("Escape Pod 3", "Pod"),
            tr("Escape Pod 3Empty.", "Leer."),
            tr("Escape Pod 3 Survivors", "Survivors"),
        ]],
    )
    .unwrap();
    assert_eq!(
        pairs(&reconciled[0].1.translations),
        vec![pair("POD_X1", "Leer."), pair("SURVIVORS", "Survivors")]
    );
    // the name itself starts with the current prefix, which is cut from it
    assert_eq!(reconciled[0].1.unresolved, vec!["".to_string()]);
}

#[test]
fn a_catalog_without_names_cannot_be_reconciled() {
    let index = index_of(&vec![]);
    assert_eq!(
        reconcile_tables(&ReconcilerConfig::v16(), &vec![Lang::English], &index, vec![vec![]])
            .map(|r| r.len()),
        Err(CleanError::NoNames)
    );
}

#[test]
fn an_id_is_missing_exactly_when_it_has_no_translation() {
    let forest = forest();
    let mut tr: StrMap<String> = StrMap::new();
    for id in ["TH_VILLAGE", "TH_VILLAGE_X1", "TH_VILLAGE_R1", "TH_ZERO_G_CAVE", "TH_ZERO_G_CAVE_X1"] {
        tr.insert(id.to_string(), "v".to_string());
    }
    assert_eq!(validate_forest(&forest, &tr), vec!["TH_VILLAGE_X2".to_string()]);
    tr.insert("TH_VILLAGE_X2".to_string(), "v".to_string());
    assert_eq!(validate_forest(&forest, &tr), Vec::<String>::new());
    // the id of the object itself is not looked for
    assert!(!tr.contains_key("TIMBER_HEARTH"));
}

#[test]
fn missing_ids_come_in_the_order_of_the_walk() {
    let forest = forest();
    let tr: StrMap<String> = StrMap::new();
    assert_eq!(
        validate_entries_tr(&forest[0].entries, &tr),
        vec![
            "TH_VILLAGE".to_string(),
            "TH_VILLAGE_X1".to_string(),
            "TH_VILLAGE_X2".to_string(),
            "TH_VILLAGE_R1".to_string(),
            "TH_ZERO_G_CAVE".to_string(),
            "TH_ZERO_G_CAVE_X1".to_string(),
        ]
    );
    assert_eq!(validate_entries_tr(&[], &tr), Vec::<String>::new());
}

#[test]
fn findings_tell_the_language_and_the_id() {
    let forest = village();
    let mut full: StrMap<String> = StrMap::new();
    full.insert("TH_VILLAGE".to_string(), "v".to_string());
    full.insert("TH_VILLAGE_X1".to_string(), "v".to_string());
    let mut part: StrMap<String> = StrMap::new();
    part.insert("TH_VILLAGE".to_string(), "v".to_string());
    let findings = validate(&forest, &vec![(Lang::English, full), (Lang::Korean, part)]);
    assert_eq!(
        findings,
        vec![MissingTranslation { lang: Lang::Korean, id: "TH_VILLAGE_X1".to_string() }]
    );
}
