use ow_tracker::markup::{element_tree, XmlNode, XmlToken};
use ow_tracker::models::entries::{AstroObject, ExploreFact, RumorFact, XmlEntry};
use ow_tracker::models::translations::{Translation, Translations};
use ow_tracker::parse::{
    astro_object_from_tokens, astro_object_of_tree, parse_astro_object, parse_tr_object,
    translations_from_tokens, ParseError,
};

fn start(name: &str) -> XmlToken {
    XmlToken::Start { prefix: None, name: name.to_string() }
}

fn text(text: &str) -> XmlToken {
    XmlToken::Text(text.to_string())
}

fn leaf(name: &str, value: &str) -> Vec<XmlToken> {
    vec![start(name), text(value), XmlToken::End]
}

#[test]
fn test_parse_astro_object() {
    let data = r#"
<AstroObjectEntry>
<ID>TIMBER_HEARTH</ID>
<Entry>
    <ID>TH_VILLAGE</ID>
    <Name>Village</Name>
    <Curiosity>1</Curiosity>
    <ExploreFact>
        <ID>TH_VILLAGE_X1</ID>
        <Text>2</Text>
    </ExploreFact>
    <Entry>
        <ID>TH_ZERO_G_CAVE</ID>
        <Name>Zero-G Cave</Name>
        <RumorFact>
            <ID>TH_ZERO_G_CAVE_R1</ID>
            <SourceID>5</SourceID>
            <RumorName>6</RumorName>
            <RumorNamePriority>0</RumorNamePriority>
            <Text>3</Text>
        </RumorFact>
        <ExploreFact>
            <ID>TH_ZERO_G_CAVE_X1</ID>
            <ClueType>7</ClueType>
            <IgnoreMoreToExplore/>
            <Text>4</Text>
        </ExploreFact>
    </Entry>
</Entry>
</AstroObjectEntry>
        "#;

    let parsed = parse_astro_object(data).unwrap();
    let expected = AstroObject {
        id: "TIMBER_HEARTH".to_string(),
        entries: vec![XmlEntry {
            id: "TH_VILLAGE".to_string(),
            name: "Village".to_string(),
            curiosity: Some("1".to_string()),
            is_curiosity: false,
            ignore_more_to_explore: false,
            rumor_facts: vec![],
            explore_facts: vec![ExploreFact {
                id: "TH_VILLAGE_X1".to_string(),
                ignore_more_to_explore: false,
                text: "2".to_string(),
            }],
            entries: vec![XmlEntry {
                id: "TH_ZERO_G_CAVE".to_string(),
                name: "Zero-G Cave".to_string(),
                curiosity: None,
                is_curiosity: false,
                ignore_more_to_explore: false,
                rumor_facts: vec![RumorFact {
                    id: "TH_ZERO_G_CAVE_R1".to_string(),
                    source_id: Some("5".to_string()),
                    name: Some("6".to_string()),
                    text: "3".to_string(),
                }],
                explore_facts: vec![ExploreFact {
                    id: "TH_ZERO_G_CAVE_X1".to_string(),
                    ignore_more_to_explore: true,
                    text: "4".to_string(),
                }],
                entries: vec![],
            }],
        }],
    };
    assert_eq!(expected, parsed);
}

#[test]
fn a_translation_table_of_the_ship_log_is_parsed_in_order() {
    let data = "<table_shipLog>\
        <TranslationTableEntry><key>Village</key><value>Dorf</value></TranslationTableEntry>\
        <TranslationTableEntry><key>VillageA text.</key><value>Ein Text.</value></TranslationTableEntry>\
        </table_shipLog>";
    let parsed = parse_tr_object(data).unwrap();
    assert_eq!(
        parsed,
        Translations {
            entries: vec![
                Translation { key: "Village".to_string(), value: "Dorf".to_string() },
                Translation { key: "VillageA text.".to_string(), value: "Ein Text.".to_string() },
            ],
        }
    );
}

#[test]
fn a_translation_table_of_the_user_interface_is_parsed() {
    let data = "<table_ui><TranslationTableEntryUI><key>973</key>\
        <value>&lt;color=orange&gt;More&lt;/color&gt;</value></TranslationTableEntryUI></table_ui>";
    let parsed = parse_tr_object(data).unwrap();
    assert_eq!(
        parsed.entries,
        vec![Translation {
            key: "973".to_string(),
            value: "<color=orange>More</color>".to_string()
        }]
    );
}

#[test]
fn text_is_trimmed_and_character_data_is_text() {
    let data = "<o><ID>  A  </ID><Entry><ID><![CDATA[B]]></ID><Name> N\n</Name></Entry></o>";
    let parsed = parse_astro_object(data).unwrap();
    assert_eq!(parsed.id, "A");
    assert_eq!(parsed.entries[0].id, "B");
    assert_eq!(parsed.entries[0].name, "N");
}

#[test]
fn text_that_is_not_markup_is_malformed() {
    assert!(matches!(parse_astro_object("<a><b></a>"), Err(ParseError::Malformed(_))));
    assert!(matches!(parse_tr_object("<a>"), Err(ParseError::Malformed(_))));
    assert!(matches!(parse_astro_object(""), Err(ParseError::Malformed(_))));
}

#[test]
fn an_object_without_id_is_a_structure_error() {
    assert!(matches!(parse_astro_object("<o><Entry><ID>a</ID><Name>b</Name></Entry></o>"), Err(ParseError::Structure)));
    assert!(matches!(parse_astro_object("<o><ID>a</ID><ID>b</ID></o>"), Err(ParseError::Structure)));
}

#[test]
fn an_entry_needs_its_id_and_its_name() {
    assert!(matches!(parse_astro_object("<o><ID>a</ID><Entry><ID>e</ID></Entry></o>"), Err(ParseError::Structure)));
    assert!(matches!(parse_astro_object("<o><ID>a</ID><Entry><Name>e</Name></Entry></o>"), Err(ParseError::Structure)));
    assert!(parse_astro_object("<o><ID>a</ID><Entry><Name>e</Name><ID>i</ID></Entry></o>").is_ok());
}

#[test]
fn a_fact_needs_its_id_and_its_text() {
    let no_text = "<o><ID>a</ID><Entry><ID>e</ID><Name>n</Name><ExploreFact><ID>f</ID></ExploreFact></Entry></o>";
    assert!(matches!(parse_astro_object(no_text), Err(ParseError::Structure)));
    let no_id = "<o><ID>a</ID><Entry><ID>e</ID><Name>n</Name><RumorFact><Text>t</Text></RumorFact></Entry></o>";
    assert!(matches!(parse_astro_object(no_id), Err(ParseError::Structure)));
}

#[test]
fn a_run_of_entries_that_is_broken_is_a_structure_error() {
    let data = "<o><Entry><ID>a</ID><Name>n</Name></Entry><ID>x</ID><Entry><ID>b</ID><Name>m</Name></Entry></o>";
    assert!(matches!(parse_astro_object(data), Err(ParseError::Structure)));
    let data = "<o><ID>x</ID><Entry><ID>a</ID><Name>n</Name></Entry><Entry><ID>b</ID><Name>m</Name></Entry></o>";
    assert_eq!(parse_astro_object(data).unwrap().entries.len(), 2);
}

#[test]
fn unknown_tags_and_tags_with_a_prefix_are_passed_over() {
    let data = "<o xmlns:x=\"urn:x\"><ID>a</ID><x:ID>b</x:ID><Other><ID>c</ID><Deep><ID>d</ID></Deep></Other></o>";
    let parsed = parse_astro_object(data).unwrap();
    assert_eq!(parsed.id, "a");
    assert!(parsed.entries.is_empty());
}

#[test]
fn is_curiosity_is_spelled_out() {
    let entry = |flag: &str| {
        format!("<o><ID>a</ID><Entry><ID>e</ID><Name>n</Name><IsCuriosity>{flag}</IsCuriosity></Entry></o>")
    };
    assert!(parse_astro_object(&entry("true")).unwrap().entries[0].is_curiosity);
    assert!(parse_astro_object(&entry("1")).unwrap().entries[0].is_curiosity);
    assert!(!parse_astro_object(&entry("false")).unwrap().entries[0].is_curiosity);
    assert!(!parse_astro_object(&entry("0")).unwrap().entries[0].is_curiosity);
    assert!(matches!(parse_astro_object(&entry("yes")), Err(ParseError::Structure)));
    assert!(matches!(parse_astro_object(&entry("")), Err(ParseError::Structure)));
}

#[test]
fn the_mark_holds_where_its_tag_is_there_whatever_it_says() {
    let entry = |mark: &str| {
        format!("<o><ID>a</ID><Entry><ID>e</ID><Name>n</Name>{mark}</Entry></o>")
    };
    assert!(parse_astro_object(&entry("<IgnoreMoreToExplore/>")).unwrap().entries[0].ignore_more_to_explore);
    assert!(parse_astro_object(&entry("<IgnoreMoreToExplore>false</IgnoreMoreToExplore>")).unwrap().entries[0].ignore_more_to_explore);
    assert!(!parse_astro_object(&entry("")).unwrap().entries[0].ignore_more_to_explore);
}

#[test]
fn a_table_without_entries_is_a_structure_error() {
    assert!(matches!(parse_tr_object("<table_ui></table_ui>"), Err(ParseError::Structure)));
}

#[test]
fn a_table_that_mixes_the_two_kinds_of_entries_is_a_structure_error() {
    let data = "<t><TranslationTableEntry><key>a</key><value>b</value></TranslationTableEntry>\
        <TranslationTableEntryUI><key>c</key><value>d</value></TranslationTableEntryUI></t>";
    assert!(matches!(parse_tr_object(data), Err(ParseError::Structure)));
}

#[test]
fn a_raw_entry_needs_its_key_and_its_value() {
    let data = "<t><TranslationTableEntry><key>a</key></TranslationTableEntry></t>";
    assert!(matches!(parse_tr_object(data), Err(ParseError::Structure)));
    let data = "<t><TranslationTableEntry><key>a</key><value/></TranslationTableEntry></t>";
    assert_eq!(
        parse_tr_object(data).unwrap().entries,
        vec![Translation { key: "a".to_string(), value: String::new() }]
    );
}

#[test]
fn the_tree_is_that_of_the_first_element() {
    let mut tokens = vec![XmlToken::Other, start("a")];
    tokens.extend(leaf("b", "x"));
    tokens.push(text("y"));
    tokens.push(XmlToken::End);
    tokens.extend(leaf("c", "z"));
    let tree = element_tree(tokens).unwrap();
    assert_eq!(
        tree,
        XmlNode::Element {
            prefix: None,
            name: "a".to_string(),
            children: vec![
                XmlNode::Element {
                    prefix: None,
                    name: "b".to_string(),
                    children: vec![XmlNode::Text("x".to_string())],
                },
                XmlNode::Text("y".to_string()),
            ],
        }
    );
}

#[test]
fn tokens_that_do_not_close_their_element_have_no_tree() {
    assert_eq!(element_tree(vec![start("a"), start("b"), XmlToken::End]), None);
    assert_eq!(element_tree(vec![]), None);
    assert_eq!(element_tree(vec![XmlToken::End]), None);
    assert_eq!(element_tree(vec![text("x"), start("a"), XmlToken::End]), None);
}

#[test]
fn an_object_is_read_off_tokens() {
    let mut tokens = vec![start("AstroObjectEntry")];
    tokens.extend(leaf("ID", "TIMBER_HEARTH"));
    tokens.push(start("Entry"));
    tokens.extend(leaf("ID", "TH_VILLAGE"));
    tokens.extend(leaf("Name", "Village"));
    tokens.push(XmlToken::End);
    tokens.push(XmlToken::End);
    let object = astro_object_from_tokens(tokens).unwrap();
    assert_eq!(object.id, "TIMBER_HEARTH");
    assert_eq!(object.entries.len(), 1);
    assert_eq!(object.entries[0].name, "Village");
    assert_eq!(astro_object_from_tokens(vec![start("a"), XmlToken::End]).map(|o| o.id), None);
}

#[test]
fn a_table_is_read_off_tokens() {
    let mut tokens = vec![start("table_shipLog"), start("TranslationTableEntry")];
    tokens.extend(leaf("key", "k"));
    tokens.extend(leaf("value", "v"));
    tokens.push(XmlToken::End);
    tokens.push(XmlToken::End);
    let table = translations_from_tokens(tokens).unwrap();
    assert_eq!(table.entries, vec![Translation { key: "k".to_string(), value: "v".to_string() }]);
}

#[test]
fn text_is_no_object() {
    assert_eq!(astro_object_of_tree(&XmlNode::Text("x".to_string())), None);
}
