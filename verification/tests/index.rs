use ow_tracker::index::{
    build_index, collect_astro_names, collect_astro_texts, collect_rumor_alt_names, group_by_text,
};
use ow_tracker::models::entries::{
    AstroObject, ExploreFact, JsonEntry, JsonEntryFacts, RumorFact, XmlEntry,
};
use ow_tracker::strmap::StrMap;

fn explore(id: &str, text: &str) -> ExploreFact {
    ExploreFact { id: id.to_string(), ignore_more_to_explore: false, text: text.to_string() }
}

fn rumor(id: &str, name: Option<&str>, text: &str) -> RumorFact {
    RumorFact {
        id: id.to_string(),
        source_id: None,
        name: name.map(|n| n.to_string()),
        text: text.to_string(),
    }
}

fn entry(
    id: &str,
    name: &str,
    explore: Vec<ExploreFact>,
    rumor: Vec<RumorFact>,
    entries: Vec<JsonEntry>,
) -> JsonEntry {
    JsonEntry {
        id: id.to_string(),
        name: name.to_string(),
        facts: JsonEntryFacts { explore, rumor },
        entries,
        ..Default::default()
    }
}

fn pair(a: &str, b: &str) -> (String, String) {
    (a.to_string(), b.to_string())
}

fn forest() -> Vec<AstroObject<JsonEntry>> {
    vec![
        AstroObject {
            id: "TIMBER_HEARTH".to_string(),
            entries: vec![entry(
                "TH_VILLAGE",
                "Village",
                vec![explore("TH_VILLAGE_X1", "A village."), explore("TH_VILLAGE_X2", "Shared.")],
                vec![rumor("TH_VILLAGE_R1", Some("The Old Village"), "A rumor.")],
                vec![entry(
                    "TH_ZERO_G_CAVE",
                    "Zero-G Cave",
                    vec![explore("TH_ZERO_G_CAVE_X1", "Shared.")],
                    vec![rumor("TH_ZERO_G_CAVE_R1", None, "Another rumor.")],
                    vec![],
                )],
            )],
        },
        AstroObject {
            id: "BRITTLE_HOLLOW".to_string(),
            entries: vec![entry(
                "BH_VILLAGE",
                "Village",
                vec![],
                vec![rumor("BH_VILLAGE_R1", Some("escapePod three"), "A rumor.")],
                vec![],
            )],
        },
    ]
}

#[test]
fn names_come_in_the_order_of_the_walk() {
    let forest = forest();
    assert_eq!(
        collect_astro_names(&forest[0].entries),
        vec![pair("Village", "TH_VILLAGE"), pair("Zero-G Cave", "TH_ZERO_G_CAVE")]
    );
    assert_eq!(collect_astro_names(&[]), vec![]);
}

#[test]
fn texts_come_explore_facts_first_then_rumor_facts_then_what_lies_below() {
    let forest = forest();
    assert_eq!(
        collect_astro_texts(&forest[0].entries),
        vec![
            pair("A village.", "TH_VILLAGE_X1"),
            pair("Shared.", "TH_VILLAGE_X2"),
            pair("A rumor.", "TH_VILLAGE_R1"),
            pair("Shared.", "TH_ZERO_G_CAVE_X1"),
            pair("Another rumor.", "TH_ZERO_G_CAVE_R1"),
        ]
    );
}

#[test]
fn alt_names_get_keys_in_shouty_snake_case() {
    let forest = forest();
    let keys = collect_rumor_alt_names(&forest[0].entries);
    assert_eq!(keys.len(), 1);
    assert_eq!(keys.get("The Old Village"), Some(&"THE_OLD_VILLAGE".to_string()));
    let keys = collect_rumor_alt_names(&forest[1].entries);
    assert_eq!(keys.get("escapePod three"), Some(&"ESCAPE_POD_THREE".to_string()));
    assert_eq!(keys.get("The Old Village"), None);
}

#[test]
fn a_text_that_comes_again_adds_its_id_to_the_list() {
    let index = group_by_text(vec![pair("a", "1"), pair("b", "2"), pair("a", "3"), pair("a", "1")]);
    assert_eq!(index.keys(), &vec!["a".to_string(), "b".to_string()]);
    assert_eq!(
        index.get("a"),
        Some(&vec!["1".to_string(), "3".to_string(), "1".to_string()])
    );
    assert_eq!(index.get("b"), Some(&vec!["2".to_string()]));
    assert_eq!(index.get("c"), None);
    assert_eq!(group_by_text(vec![]).len(), 0);
}

#[test]
fn the_index_is_built_over_the_whole_forest() {
    let index = build_index(&forest());
    assert_eq!(index.names.keys(), &vec!["Village".to_string(), "Zero-G Cave".to_string()]);
    assert_eq!(
        index.names.get("Village"),
        Some(&vec!["TH_VILLAGE".to_string(), "BH_VILLAGE".to_string()])
    );
    assert_eq!(
        index.facts.get("Shared."),
        Some(&vec!["TH_VILLAGE_X2".to_string(), "TH_ZERO_G_CAVE_X1".to_string()])
    );
    assert_eq!(
        index.facts.get("A rumor."),
        Some(&vec!["TH_VILLAGE_R1".to_string(), "BH_VILLAGE_R1".to_string()])
    );
    assert_eq!(index.alt_names.len(), 2);
    assert_eq!(index.alt_names.get("The Old Village"), Some(&"THE_OLD_VILLAGE".to_string()));
    assert_eq!(index.names.get("TIMBER_HEARTH"), None);
}

#[test]
fn an_empty_forest_has_empty_indexes() {
    let index = build_index(&vec![]);
    assert_eq!(index.names.len(), 0);
    assert_eq!(index.facts.len(), 0);
    assert_eq!(index.alt_names.len(), 0);
}

#[test]
fn an_entry_keeps_what_it_holds_when_it_changes_form() {
    let xml = XmlEntry {
        id: "E".to_string(),
        name: "N".to_string(),
        curiosity: Some("C".to_string()),
        is_curiosity: true,
        ignore_more_to_explore: true,
        rumor_facts: vec![rumor("R", Some("alt"), "rt")],
        explore_facts: vec![explore("X", "xt")],
        entries: vec![XmlEntry { id: "E2".to_string(), name: "N2".to_string(), ..Default::default() }],
    };
    let json = JsonEntry::from(xml);
    assert_eq!(
        json,
        JsonEntry {
            id: "E".to_string(),
            name: "N".to_string(),
            is_curiosity: true,
            curiosity: Some("C".to_string()),
            ignore_more_to_explore: true,
            facts: JsonEntryFacts {
                explore: vec![explore("X", "xt")],
                rumor: vec![rumor("R", Some("alt"), "rt")],
            },
            entries: vec![entry("E2", "N2", vec![], vec![], vec![])],
        }
    );
    let object = AstroObject::<JsonEntry>::from(AstroObject {
        id: "O".to_string(),
        entries: vec![XmlEntry { id: "E".to_string(), name: "N".to_string(), ..Default::default() }],
    });
    assert_eq!(
        object,
        AstroObject { id: "O".to_string(), entries: vec![entry("E", "N", vec![], vec![], vec![])] }
    );
}

#[test]
fn a_map_keeps_its_keys_in_the_order_in_which_they_came() {
    let mut map: StrMap<u32> = StrMap::new();
    assert_eq!(map.len(), 0);
    map.insert("b".to_string(), 1);
    map.insert("a".to_string(), 2);
    map.insert("b".to_string(), 3);
    assert_eq!(map.len(), 2);
    assert_eq!(map.keys(), &vec!["b".to_string(), "a".to_string()]);
    assert_eq!(map.get("b"), Some(&3));
    assert_eq!(map.get("a"), Some(&2));
    assert_eq!(map.get("c"), None);
    assert!(map.contains_key("a"));
    assert!(!map.contains_key(""));
    assert_eq!(map.position("a"), Some(1));
    assert_eq!(map.key_at(0), "b");
    assert_eq!(map.value_at(1), &2);
}

#[test]
fn push_to_starts_a_list_where_the_key_is_new() {
    let mut map: StrMap<Vec<String>> = StrMap::new();
    map.push_to("k".to_string(), "1".to_string());
    map.push_to("k".to_string(), "2".to_string());
    map.push_to("l".to_string(), "3".to_string());
    assert_eq!(map.get("k"), Some(&vec!["1".to_string(), "2".to_string()]));
    assert_eq!(map.get("l"), Some(&vec!["3".to_string()]));
}
