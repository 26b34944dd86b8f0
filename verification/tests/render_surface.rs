use tachylyte::render_surface::{render_surface, NodeKind, RenderSurface, SourceRange, SurfaceNode};

#[test]
fn classifies_surface_features() {
    let s = "---\ntitle: Demo\n---\n> [!NOTE] hi\n- [x] done [[page]] ![[img.png]] #tag\n| a | b |\n---\n";
    let r = render_surface(s);
    assert!(r.nodes.iter().any(|n| n.kind == NodeKind::FrontmatterProperty));
    assert!(r.nodes.iter().any(|n| n.kind == NodeKind::Callout));
    assert!(r.nodes.iter().any(|n| n.kind == NodeKind::Wikilink));
    assert!(r.nodes.iter().any(|n| n.kind == NodeKind::Embed));
    assert!(r.nodes.iter().any(|n| n.kind == NodeKind::TaskCheckbox));
    assert!(r.nodes.iter().any(|n| n.kind == NodeKind::Table));
    assert!(r.nodes.iter().any(|n| n.kind == NodeKind::HorizontalRule));
}

#[test]
fn ranges_are_source_offsets() {
    let s = "[[x]]";
    let n = &render_surface(s).nodes[0];
    assert_eq!(&s[n.range.start..n.range.end], "[[x]]");
}

fn node(kind: NodeKind, start: usize, end: usize, text: &str, detail: Option<&str>) -> SurfaceNode {
    SurfaceNode { kind, range: SourceRange { start, end }, text: text.to_owned(), detail: detail.map(str::to_owned) }
}

#[test]
fn frontmatter_heading_and_paragraph_details() {
    let s = "---\ntitle: Demo\n: no key\n---\n## Head\nplain\n";
    let r = render_surface(s);
    assert_eq!(
        r.nodes,
        vec![
            node(NodeKind::FrontmatterProperty, 4, 15, "title: Demo", Some("title")),
            node(NodeKind::Heading, 29, 36, "## Head", Some("2")),
            node(NodeKind::Tag, 29, 31, "##", None),
            node(NodeKind::Paragraph, 37, 42, "plain", None),
        ]
    );
}

#[test]
fn fenced_code_spans_its_lines() {
    let s = "```rust\nlet x;\n```\nafter";
    let r = render_surface(s);
    assert_eq!(
        r.nodes,
        vec![
            node(NodeKind::FencedCode, 0, 18, "```rust\nlet x;\n```", Some("```")),
            node(NodeKind::Paragraph, 19, 24, "after", None),
        ]
    );
}

#[test]
fn task_tags_and_callout_details() {
    let s = "- [ ] é #t\n> [!TIP] x";
    let r = render_surface(s);
    assert_eq!(
        r.nodes,
        vec![
            node(NodeKind::TaskCheckbox, 0, 11, "- [ ] é #t", Some("false")),
            node(NodeKind::Tag, 9, 11, "#t", None),
            node(NodeKind::Callout, 12, 22, "> [!TIP] x", Some("TIP")),
        ]
    );
}

#[test]
fn lone_hash_is_a_tag_not_a_heading() {
    let s = "# \n$$ x $$";
    let r = render_surface(s);
    assert_eq!(
        r.nodes,
        vec![
            node(NodeKind::Tag, 0, 1, "#", None),
            node(NodeKind::Paragraph, 0, 2, "# ", None),
            node(NodeKind::Math, 3, 10, "$$ x $$", None),
        ]
    );
}

#[test]
fn default_surface_is_empty() {
    assert!(RenderSurface::default().nodes.is_empty());
    assert!(render_surface("").nodes.is_empty());
}

#[test]
fn crlf_lines_leave_the_carriage_return_out() {
    let s = "a\r\n## H\r\n```\r\ncode\r\n```\r\n";
    let r = render_surface(s);
    assert_eq!(
        r.nodes,
        vec![
            node(NodeKind::Paragraph, 0, 1, "a", None),
            node(NodeKind::Heading, 3, 7, "## H", Some("2")),
            node(NodeKind::Tag, 3, 5, "##", None),
            node(NodeKind::FencedCode, 9, 23, "```\r\ncode\r\n```", Some("```")),
        ]
    );
    for n in &r.nodes {
        assert!(!n.text.ends_with('\r') && !n.text.ends_with('\n'));
        assert_eq!(&s[n.range.start..n.range.end], n.text);
    }
}
