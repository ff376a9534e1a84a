use ow_tracker::companion::{
    read_save_packed, DetectError, InstallType, SaveFact, SaveFile, WatchAction, WatchActionKind,
};
use ow_tracker::index::{build_index, collect_rumor_alt_names};
use ow_tracker::info::{v16_lang_order, Lang, V16_LANG_COUNT};
use ow_tracker::models::entries::{JsonEntry, JsonEntryFacts, RumorFact};
use ow_tracker::models::translations::Translation;
use ow_tracker::output::{count_entries, replace_rumor_alt_names, sort_entries};
use ow_tracker::parse::ParseError;
use ow_tracker::pipeline::{load_astro_objects, load_tr_objects, reconcile_tables, LoadError};
use ow_tracker::reconcile::ReconcilerConfig;
use ow_tracker::validate::validate_forest;

fn tr(key: &str, value: &str) -> Translation {
    Translation { key: key.to_string(), value: value.to_string() }
}

fn table(kind: &str, entries: &[(&str, &str)]) -> String {
    let tag = if kind == "table_ui" { "TranslationTableEntryUI" } else { "TranslationTableEntry" };
    let mut text = format!("<{kind}>");
    for (key, value) in entries {
        text += &format!("<{tag}><key>{key}</key><value>{value}</value></{tag}>");
    }
    text + &format!("</{kind}>")
}

const CATALOG: &str = "junk<AstroObjectEntry><ID>TIMBER_HEARTH</ID><Entry><ID>TH_VILLAGE</ID>\
    <Name>Village</Name><ExploreFact><ID>TH_VILLAGE_X1</ID><Text>A village.</Text></ExploreFact>\
    <RumorFact><ID>TH_VILLAGE_R1</ID><RumorName>Old Village</RumorName><Text>A rumor.</Text></RumorFact>\
    </Entry></AstroObjectEntry>\x00\x01<AstroObjectEntry><ID>GIANTS_DEEP</ID></AstroObjectEntry>tail";

#[test]
fn every_object_of_the_buffer_is_loaded() {
    let objects = load_astro_objects(CATALOG.as_bytes()).unwrap();
    assert_eq!(objects.len(), 2);
    assert_eq!(objects[0].id, "TIMBER_HEARTH");
    assert_eq!(objects[0].entries[0].facts.explore[0].text, "A village.");
    assert_eq!(objects[0].entries[0].facts.rumor[0].name, Some("Old Village".to_string()));
    assert_eq!(objects[1].id, "GIANTS_DEEP");
    assert!(objects[1].entries.is_empty());
    assert_eq!(load_astro_objects(b"nothing here").unwrap().len(), 0);
    assert_eq!(load_astro_objects(b"").unwrap().len(), 0);
}

#[test]
fn an_object_that_cannot_be_read_ends_the_load() {
    let broken = b"<AstroObjectEntry><ID>A</ID></AstroObjectEntry><AstroObjectEntry></AstroObjectEntry>";
    assert!(matches!(load_astro_objects(broken), Err(LoadError::Parse(ParseError::Structure))));
    let malformed = b"<AstroObjectEntry><ID>A</AstroObjectEntry>";
    assert!(matches!(load_astro_objects(malformed), Err(LoadError::Parse(ParseError::Malformed(_)))));
    let not_text = b"<AstroObjectEntry>\xff</AstroObjectEntry>";
    assert!(matches!(load_astro_objects(not_text), Err(LoadError::Utf8Error(_))));
}

#[test]
fn of_a_table_of_the_user_interface_only_the_sentinel_is_kept() {
    let data = format!(
        "..{}{}--{}{}..",
        table("table_shipLog", &[("Village", "Dorf"), ("VillageA village.", "Ein Dorf.")]),
        table("table_ui", &[("1", "Ok"), ("973", "Mehr"), ("974", "Weniger")]),
        table("table_shipLog", &[("Village", "Village")]),
        table("table_ui", &[("12", "Yes")]),
    );
    let tables = load_tr_objects(data.as_bytes()).unwrap();
    assert_eq!(
        tables,
        vec![
            vec![tr("Village", "Dorf"), tr("VillageA village.", "Ein Dorf."), tr("973", "Mehr")],
            vec![tr("Village", "Village")],
        ]
    );
}

#[test]
fn a_table_of_the_ship_log_without_its_user_interface_table_is_dropped() {
    let data = format!(
        "{}{}{}",
        table("table_shipLog", &[("a", "b")]),
        table("table_ui", &[("973", "m")]),
        table("table_shipLog", &[("c", "d")]),
    );
    assert_eq!(load_tr_objects(data.as_bytes()).unwrap(), vec![vec![tr("a", "b"), tr("973", "m")]]);
    assert_eq!(load_tr_objects(b"").unwrap(), Vec::<Vec<Translation>>::new());
    // a table of the user interface before any of the ship log is passed over
    let data = format!("{}{}", table("table_ui", &[("973", "m")]), table("table_shipLog", &[("a", "b")]));
    assert_eq!(load_tr_objects(data.as_bytes()).unwrap(), Vec::<Vec<Translation>>::new());
}

#[test]
fn a_table_that_cannot_be_read_ends_the_load() {
    assert!(matches!(
        load_tr_objects(b"<table_shipLog></table_shipLog>"),
        Err(LoadError::Parse(ParseError::Structure))
    ));
    assert!(matches!(
        load_tr_objects(b"<table_shipLog><a></table_shipLog>"),
        Err(LoadError::Parse(ParseError::Malformed(_)))
    ));
    assert!(matches!(
        load_tr_objects(b"<table_shipLog>\xc3</table_shipLog>"),
        Err(LoadError::Utf8Error(_))
    ));
}

#[test]
fn from_two_buffers_to_the_translations_of_each_language() {
    let forest = load_astro_objects(CATALOG.as_bytes()).unwrap();
    let index = build_index(&forest);
    let tables = format!(
        "{}{}{}{}",
        table(
            "table_shipLog",
            &[
                ("Village", "Pueblo"),
                ("VillageA village.", "Un pueblo."),
                ("A rumor.", "Un rumor."),
                ("Old Village", "Pueblo viejo"),
            ]
        ),
        table("table_ui", &[("973", "&lt;color=orange&gt;Hay m\u{e1}s&lt;/color&gt;")]),
        table("table_shipLog", &[("VillageA village.", "A village.")]),
        table("table_ui", &[("1", "x")]),
    );
    let tables = load_tr_objects(tables.as_bytes()).unwrap();
    let reconciled =
        reconcile_tables(&ReconcilerConfig::v16(), &v16_lang_order(), &index, tables).unwrap();
    assert_eq!(reconciled.len(), 2);
    let (lang, spanish) = &reconciled[0];
    assert_eq!(*lang, Lang::SpanishLa);
    assert_eq!(lang.file_name(), "spanish_la");
    assert_eq!(spanish.translations.len(), 4);
    assert_eq!(spanish.translations.get("TH_VILLAGE_X1"), Some(&"Un pueblo.".to_string()));
    assert_eq!(spanish.translations.get("TH_VILLAGE_R1"), Some(&"Un rumor.".to_string()));
    assert_eq!(spanish.translations.get("OLD_VILLAGE"), Some(&"Pueblo viejo".to_string()));
    assert_eq!(spanish.translations.get("MORE_TO_EXPLORE"), Some(&"Hay m\u{e1}s".to_string()));
    // the name itself came while it was the current prefix
    assert_eq!(spanish.unresolved, vec!["".to_string()]);
    assert_eq!(validate_forest(&forest, &spanish.translations), vec!["TH_VILLAGE".to_string()]);
    let (lang, english) = &reconciled[1];
    assert_eq!(*lang, Lang::English);
    assert_eq!(english.translations.len(), 1);
    assert_eq!(
        validate_forest(&forest, &english.translations),
        vec!["TH_VILLAGE".to_string(), "TH_VILLAGE_R1".to_string()]
    );
}

#[test]
fn each_language_has_its_file_name() {
    let order = v16_lang_order();
    assert_eq!(order.len(), V16_LANG_COUNT);
    assert_eq!(
        order.iter().map(|l| l.file_name()).collect::<Vec<_>>(),
        vec![
            "spanish_la",
            "english",
            "turkish",
            "portuguese_br",
            "italian",
            "french",
            "polish",
            "korean",
            "chinese_simple",
            "german",
            "russian",
            "japanese",
        ]
    );
}

fn named(id: &str, rumor_name: Option<&str>, entries: Vec<JsonEntry>) -> JsonEntry {
    JsonEntry {
        id: id.to_string(),
        name: id.to_string(),
        facts: JsonEntryFacts {
            explore: vec![],
            rumor: vec![RumorFact {
                id: format!("{id}_R"),
                source_id: None,
                name: rumor_name.map(|n| n.to_string()),
                text: "t".to_string(),
            }],
        },
        entries,
        ..Default::default()
    }
}

#[test]
fn entries_are_counted_with_those_below_them() {
    assert_eq!(count_entries(&[]), Some(0));
    let entries = vec![
        named("a", None, vec![named("b", None, vec![named("c", None, vec![])])]),
        named("d", None, vec![]),
    ];
    assert_eq!(count_entries(&entries), Some(4));
}

#[test]
fn the_names_of_rumors_give_way_to_their_keys() {
    let mut entries = vec![
        named("a", Some("Old Village"), vec![named("b", Some("the pod"), vec![])]),
        named("c", None, vec![]),
    ];
    let keys = collect_rumor_alt_names(&entries);
    replace_rumor_alt_names(&mut entries, &keys);
    assert_eq!(entries[0].facts.rumor[0].name, Some("OLD_VILLAGE".to_string()));
    assert_eq!(entries[0].entries[0].facts.rumor[0].name, Some("THE_POD".to_string()));
    assert_eq!(entries[1].facts.rumor[0].name, None);
    assert_eq!(entries[0].facts.rumor[0].id, "a_R");
    assert_eq!(entries[0].entries[0].id, "b");
}

#[test]
fn a_save_is_packed_by_what_is_known() {
    let fact = |name: &str, order: i32| (name.to_string(), SaveFact { reveal_order: order });
    let save = SaveFile {
        fact_saves: vec![
            fact("A", 3),
            fact("B", -1),
            fact("C", 0),
            fact("D", -1),
            fact("E", -1),
            fact("F", -1),
            fact("G", -1),
            fact("H", 1),
            fact("I", 2),
        ],
    };
    assert!(SaveFact { reveal_order: 0 }.is_learned());
    assert!(!SaveFact { reveal_order: -1 }.is_learned());
    assert_eq!(
        save.learned_as_bools(),
        vec![true, false, true, false, false, false, false, true, true]
    );
    assert_eq!(read_save_packed(&save), vec![0b1010_0001, 0b1000_0000]);
    assert_eq!(read_save_packed(&SaveFile { fact_saves: vec![] }), Vec::<u8>::new());
}

#[test]
fn watch_actions_name_their_profile() {
    assert_eq!(
        WatchAction::watch("me"),
        WatchAction { kind: WatchActionKind::Watch, name: "me".to_string() }
    );
    assert_eq!(
        WatchAction::unwatch("me"),
        WatchAction { kind: WatchActionKind::Unwatch, name: "me".to_string() }
    );
    assert_eq!(InstallType::Steam.name(), "Steam");
    assert_eq!(InstallType::EpicGames.name(), "Epic Games");
    assert_ne!(DetectError::NoHome, DetectError::NotFound);
}

#[test]
fn entries_are_sorted_by_id_on_every_level() {
    let mut entries = vec![
        named("b", None, vec![named("z", None, vec![]), named("Z", None, vec![]), named("a", None, vec![])]),
        named("a\u{e9}", None, vec![]),
        named("a", Some("x"), vec![named("2", None, vec![]), named("10", None, vec![])]),
        named("B", None, vec![]),
    ];
    sort_entries(&mut entries);
    let ids = |entries: &Vec<JsonEntry>| entries.iter().map(|e| e.id.clone()).collect::<Vec<_>>();
    assert_eq!(ids(&entries), vec!["B", "a", "a\u{e9}", "b"]);
    assert_eq!(ids(&entries[1].entries), vec!["10", "2"]);
    assert_eq!(ids(&entries[3].entries), vec!["Z", "a", "z"]);
    assert_eq!(entries[1].facts.rumor[0].name, Some("x".to_string()));
    assert_eq!(entries[1].facts.rumor[0].id, "a_R");
    let mut none: Vec<JsonEntry> = vec![];
    sort_entries(&mut none);
    assert!(none.is_empty());
}
