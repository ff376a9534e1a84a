use ow_tracker::extract::{
    extract_astro_object, extract_shiplog_tr_object, extract_ui_tr_object, extract_utf8,
    find_end_of, find_indices_of, find_start_of, FindError,
};

#[test]
fn the_first_occurrence_at_or_after_the_offset_is_found() {
    let data = b"abcabcabc";
    assert!(matches!(find_indices_of(data, 0, b"bc"), Ok((1, 2))));
    assert!(matches!(find_indices_of(data, 1, b"bc"), Ok((1, 2))));
    assert!(matches!(find_indices_of(data, 2, b"bc"), Ok((4, 5))));
    assert!(matches!(find_indices_of(data, 7, b"bc"), Ok((7, 8))));
    assert!(matches!(find_indices_of(data, 0, b"abcabcabc"), Ok((0, 8))));
    assert!(matches!(find_indices_of(data, 0, b"c"), Ok((2, 2))));
}

#[test]
fn a_pattern_that_does_not_occur_again_is_not_found() {
    let data = b"abcabcabc";
    assert!(matches!(find_indices_of(data, 8, b"bc"), Err(FindError::NotFound)));
    assert!(matches!(find_indices_of(data, 0, b"x"), Err(FindError::NotFound)));
    assert!(matches!(find_indices_of(data, 9, b"a"), Err(FindError::NotFound)));
    assert!(matches!(find_indices_of(data, 100, b"a"), Err(FindError::NotFound)));
    assert!(matches!(find_indices_of(data, 0, b"abcabcabca"), Err(FindError::NotFound)));
    assert!(matches!(find_indices_of(b"", 0, b"a"), Err(FindError::NotFound)));
}

#[test]
fn start_and_end_are_the_first_and_the_last_byte() {
    let data = b"..<tag>..";
    assert!(matches!(find_start_of(data, 0, b"<tag>"), Ok(2)));
    assert!(matches!(find_end_of(data, 0, b"<tag>"), Ok(6)));
    assert!(matches!(find_start_of(data, 3, b"<tag>"), Err(FindError::NotFound)));
    assert!(matches!(find_end_of(data, 3, b"<tag>"), Err(FindError::NotFound)));
}

#[test]
fn a_fragment_runs_from_its_start_marker_through_its_end_marker() {
    let data = b"xx<a>one</a>yy<a>two</a>zz";
    let (text, next) = extract_utf8(data, 0, b"<a>", b"</a>").unwrap();
    assert_eq!(text, "<a>one</a>");
    assert_eq!(next, 12);
    let (text, next) = extract_utf8(data, next, b"<a>", b"</a>").unwrap();
    assert_eq!(text, "<a>two</a>");
    assert_eq!(next, 24);
    assert!(matches!(extract_utf8(data, next, b"<a>", b"</a>"), Err(FindError::NotFound)));
}

#[test]
fn repeated_extraction_covers_the_buffer_and_hands_out_nothing_twice() {
    let data = b"<a>1</a><a>22</a>--<a>333</a>-<a>";
    let mut offset = 0;
    let mut spans = 0;
    let mut gaps = 0;
    let mut found = Vec::new();
    loop {
        match extract_utf8(data, offset, b"<a>", b"</a>") {
            Ok((text, next)) => {
                let start = next - text.len();
                assert!(offset <= start);
                gaps += start - offset;
                spans += text.len();
                found.push(text.to_string());
                offset = next;
            }
            Err(FindError::NotFound) => break,
            Err(e) => panic!("{e:?}"),
        }
    }
    assert_eq!(found, vec!["<a>1</a>", "<a>22</a>", "<a>333</a>"]);
    assert_eq!(spans + gaps, offset);
    assert_eq!(offset, 29);
}

#[test]
fn a_start_marker_without_end_marker_is_not_found() {
    assert!(matches!(extract_utf8(b"..<a>..", 0, b"<a>", b"</a>"), Err(FindError::NotFound)));
    assert!(matches!(extract_utf8(b"</a><a>", 0, b"<a>", b"</a>"), Err(FindError::NotFound)));
}

#[test]
fn the_end_marker_is_looked_for_from_the_start_marker_on() {
    let (text, next) = extract_utf8(b"ab", 0, b"a", b"a").unwrap();
    assert_eq!((text, next), ("a", 1));
    let (text, next) = extract_utf8(b"<a></a>", 0, b"<a>", b"a>").unwrap();
    assert_eq!((text, next), ("<a>", 3));
}

#[test]
fn a_fragment_that_is_not_utf8_is_an_error() {
    let data = b"<a>\xff\xfe</a>";
    assert!(matches!(extract_utf8(data, 0, b"<a>", b"</a>"), Err(FindError::Utf8Error(_))));
    let data = "<a>\u{e9}t\u{e9} \u{4e2d}</a>".as_bytes();
    let (text, next) = extract_utf8(data, 0, b"<a>", b"</a>").unwrap();
    assert_eq!(text, "<a>\u{e9}t\u{e9} \u{4e2d}</a>");
    assert_eq!(next, data.len());
}

#[test]
fn catalog_fragments_are_found_by_their_tags() {
    let data = b"\x00\x01<AstroObjectEntry><ID>A</ID></AstroObjectEntry>\x02<AstroObjectEntry/>";
    let (text, next) = extract_astro_object(data, 0).unwrap();
    assert_eq!(text, "<AstroObjectEntry><ID>A</ID></AstroObjectEntry>");
    assert_eq!(next, 2 + text.len());
    assert!(matches!(extract_astro_object(data, next), Err(FindError::NotFound)));
}

#[test]
fn tables_are_found_by_their_tags() {
    let data = b"..<table_shipLog>s</table_shipLog><table_ui>u</table_ui>..";
    let (text, next) = extract_shiplog_tr_object(data, 0).unwrap();
    assert_eq!(text, "<table_shipLog>s</table_shipLog>");
    let (text, next) = extract_ui_tr_object(data, next).unwrap();
    assert_eq!(text, "<table_ui>u</table_ui>");
    assert!(matches!(extract_shiplog_tr_object(data, next), Err(FindError::NotFound)));
    assert!(matches!(extract_ui_tr_object(data, next), Err(FindError::NotFound)));
}
