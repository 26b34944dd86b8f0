use tachylyte::editor_intents::{scan, EditorIntent, SourceSpan};

#[test]
fn scans_common_intents() {
    let got = scan("[x](url) [[Page]] ![[img.png]] - [x] done #tag [[N#^b]]");
    assert!(got.iter().any(|x| matches!(x, EditorIntent::Link { destination, .. } if destination == "url")));
    assert!(got.iter().any(|x| matches!(x, EditorIntent::Embed { target, .. } if target == "img.png")));
    assert!(got.iter().any(|x| matches!(x, EditorIntent::ToggleTask { checked: true, .. })));
    assert!(got.iter().any(|x| matches!(x, EditorIntent::NavigateBlock { reference, .. } if reference == "b")));
}

#[test]
fn invalid_offsets_are_safe() {
    assert!(EditorIntent::at("é", 1).is_none());
    assert!(scan("[[unterminated").is_empty());
}

#[test]
fn scan_reports_exact_spans_in_order() {
    let got = scan("[x](url) [[Page]] ![[img.png]] - [x] done #tag [[N#^b]]");
    assert_eq!(
        got,
        vec![
            EditorIntent::Link { destination: "url".to_owned(), span: SourceSpan::new(0, 8) },
            EditorIntent::WikiLink { target: "Page".to_owned(), span: SourceSpan::new(9, 17) },
            EditorIntent::Embed { target: "img.png".to_owned(), span: SourceSpan::new(18, 30) },
            EditorIntent::NavigateBlock { reference: "b".to_owned(), span: SourceSpan::new(47, 55) },
            EditorIntent::ToggleTask { checked: true, span: SourceSpan::new(33, 36) },
            EditorIntent::Tag { name: "tag".to_owned(), span: SourceSpan::new(42, 46) },
        ]
    );
}

#[test]
fn link_destination_is_trimmed_and_spans_are_bytes() {
    let got = scan("é [a]( dest ) ");
    assert_eq!(
        got,
        vec![EditorIntent::Link { destination: "dest".to_owned(), span: SourceSpan::new(3, 14) }]
    );
}

#[test]
fn tags_need_leading_whitespace_and_a_name() {
    let got = scan("a#b # #ok\n#x");
    assert_eq!(
        got,
        vec![
            EditorIntent::Tag { name: "ok".to_owned(), span: SourceSpan::new(6, 9) },
            EditorIntent::Tag { name: "x".to_owned(), span: SourceSpan::new(10, 12) },
        ]
    );
}

#[test]
fn unchecked_task_and_offset_lookup() {
    let src = "  - [ ] todo\n";
    let got = scan(src);
    assert_eq!(got, vec![EditorIntent::ToggleTask { checked: false, span: SourceSpan::new(4, 7) }]);
    assert_eq!(EditorIntent::at(src, 5), Some(got[0].clone()));
    assert_eq!(EditorIntent::at(src, 0), None);
    assert_eq!(got[0].span().range(), 4..7);
}

#[test]
fn space_after_bracket_is_not_a_link() {
    assert!(scan("[ x](y)").is_empty());
    assert!(scan("[x] (y)").is_empty());
}

#[test]
fn at_picks_the_innermost_construct() {
    let src = "[[a #b c]]";
    assert_eq!(
        EditorIntent::at(src, 5),
        Some(EditorIntent::Tag { name: "b".to_owned(), span: SourceSpan::new(4, 6) })
    );
    assert_eq!(
        EditorIntent::at(src, 1),
        Some(EditorIntent::WikiLink { target: "a #b c".to_owned(), span: SourceSpan::new(0, 10) })
    );
}
