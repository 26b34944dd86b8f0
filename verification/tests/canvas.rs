use tachylyte::canvas::{apply_selection, parse_color, side, try_parse_color, CardText, NodeType, Side};
use tachylyte::textmap::TextSet;

#[test]
fn colors() {
    assert_eq!(parse_color(Some("#123456")), [18, 52, 86, 255]);
    assert_eq!(parse_color(Some("bad")), [128, 128, 128, 255]);
}

#[test]
fn color_presets_alpha_and_partial_channels() {
    assert_eq!(parse_color(None), [128, 128, 128, 255]);
    assert_eq!(parse_color(Some(" 1 ")), [0xd9, 0x55, 0x55, 255]);
    assert_eq!(parse_color(Some("6")), [0x80, 0x64, 0xa2, 255]);
    assert_eq!(parse_color(Some("#FFFFFF80")), [255, 255, 255, 128]);
    assert_eq!(parse_color(Some("#zz00+f")), [128, 0, 15, 255]);
    assert_eq!(parse_color(Some("#1234")), [128, 128, 128, 128]);
}

#[test]
fn sides_kinds_and_labels() {
    assert_eq!(side(Some("LEFT")), Side::Left);
    assert_eq!(side(Some("bottom")), Side::Bottom);
    assert_eq!(side(Some("middle")), Side::Center);
    assert_eq!(side(None), Side::Center);
    let mut c = CardText {
        id: "n1".into(),
        kind: "URL".into(),
        text: None,
        file: Some("notes/a.md".into()),
        url: Some("https://x".into()),
    };
    assert_eq!(c.node_type(), NodeType::Link);
    assert_eq!(c.card_label(), "notes/a.md");
    c.file = None;
    c.url = None;
    c.kind = "group".into();
    assert_eq!(c.node_type(), NodeType::Group);
    assert_eq!(c.card_label(), "n1");
    c.text = Some("first\nsecond".into());
    assert_eq!(c.card_label(), "first");
}

#[test]
fn click_selection_replaces_unless_additive() {
    let mut s = TextSet::new();
    s.insert("a".into());
    apply_selection(&mut s, vec!["b".into()], true);
    assert_eq!(s.len(), 2);
    apply_selection(&mut s, vec!["c".into(), "c".into()], false);
    assert_eq!(s.len(), 1);
    assert!(s.contains("c"));
}

#[test]
fn try_parse_color_refuses_hex_codes_split_inside_a_character() {
    assert_eq!(try_parse_color(Some("#aééb")), None);
    assert_eq!(try_parse_color(Some("#ff0000")), Some([255, 0, 0, 255]));
    assert_eq!(try_parse_color(Some(" 4 ")), Some([0x4e, 0x9f, 0x6e, 255]));
    assert_eq!(try_parse_color(None), Some([128, 128, 128, 255]));
    assert_eq!(try_parse_color(Some("#abc")), Some([128, 128, 128, 128]));
}
