use tachylyte::knowledge::graph::{graph, GraphFilter};
use tachylyte::knowledge::links::{backlinks, file_stem, links, unlinked_mentions};
use tachylyte::knowledge::navigate::{
    explore, fuzzy_score, preview, quick_switch, random_note, rank_commands, try_fuzzy_score, Command, Sort,
};
use tachylyte::knowledge::outline::{outline, property_counts, tag_counts};
use tachylyte::knowledge::query::{matches_query, parse_query, Query};
use tachylyte::knowledge::search::{search, snippet, try_search, try_snippet};
use tachylyte::knowledge::{Document, Task, VaultIndex};

fn d(path: &str, content: &str) -> Document {
    Document {
        path: path.into(),
        content: content.into(),
        ..Default::default()
    }
}

#[test]
fn query() {
    let x = d("a.md", "hello");
    assert!(matches_query(&parse_query("content:hello").unwrap(), &x));
    assert!(!matches_query(&parse_query("-content:hello").unwrap(), &x));
}

#[test]
fn unicode_snippet() {
    assert!(snippet("αβγ hello", "hello").contains("hello"));
}

#[test]
fn stale_revision() {
    let mut i = VaultIndex::new();
    let r = i.revision();
    i.upsert(d("a.md", "x"));
    assert!(i.revision() > r);
}

#[test]
fn links_and_outline() {
    let mut i = VaultIndex::new();
    i.upsert(d("a.md", "# One\n[[b.md]]"));
    assert_eq!(outline(&i.get("a.md").unwrap().content)[0].text, "One");
    assert_eq!(links(&i, "a.md").len(), 1);
}

#[test]
fn graph_unresolved() {
    let mut i = VaultIndex::new();
    i.upsert(d("a.md", "[[missing]]"));
    assert_eq!(graph(&i, &GraphFilter::default()).1.len(), 0);
    let f = GraphFilter {
        include_unresolved: true,
        ..Default::default()
    };
    assert_eq!(graph(&i, &f).1.len(), 1);
}

#[test]
fn query_language_groups_or_and_fields() {
    let q = parse_query("tag:#work OR \"two words\" -path:x").unwrap();
    assert_eq!(
        q,
        Query::Or(vec![
            Query::Tag("work".into()),
            Query::And(vec![
                Query::Term("two words\"".into()),
                Query::Not(Box::new(Query::Path("x".into()))),
            ]),
        ])
    );
    assert_eq!(parse_query("").unwrap(), Query::Term(String::new()));
    assert_eq!(parse_query("task:done").unwrap(), Query::Task(Some(true)));
    assert_eq!(parse_query("task:open").unwrap(), Query::Task(Some(false)));
    assert_eq!(parse_query("task:any").unwrap(), Query::Task(None));
    assert_eq!(
        parse_query("property:status=active").unwrap(),
        Query::Property("status".into(), "active".into())
    );
    assert_eq!(parse_query("PATH:Notes").unwrap(), Query::Path("Notes".into()));
    assert_eq!(parse_query("other:x").unwrap(), Query::Term("other:x".into()));
}

#[test]
fn unterminated_quote_is_an_error_at_the_end() {
    let e = parse_query("say \"hi").unwrap_err();
    assert_eq!(e.message, "unterminated quote");
    assert_eq!(e.position, 7);
    let e = parse_query("é\"").unwrap_err();
    assert_eq!(e.position, 3);
}

#[test]
fn matching_fields_ignore_case() {
    let mut x = d("Notes/Plan.md", "Ship the RIVER release");
    x.tags = vec!["#Work".into()];
    x.properties.insert("status".into(), "Active".into());
    x.tasks = vec![Task { text: "t".into(), done: true }];
    for (q, want) in [
        ("river", true),
        ("file:plan", true),
        ("file:notes", false),
        ("tag:work", true),
        ("work", true),
        ("property:status=act", true),
        ("property:owner", false),
        ("task:done", true),
        ("task:todo", false),
        ("river OR nothing", true),
        ("river nothing", false),
    ] {
        assert_eq!(matches_query(&parse_query(q).unwrap(), &x), want, "{q}");
    }
}

#[test]
fn search_ranks_by_score_then_path() {
    let mut i = VaultIndex::new();
    i.upsert(d("b.md", "river river"));
    i.upsert(d("a.md", "river"));
    i.upsert(d("river.md", "nothing"));
    i.upsert(d("c.md", "lake"));
    let r = search(&i, "river").unwrap();
    let got: Vec<(String, u32)> = r.iter().map(|x| (x.path.clone(), x.score)).collect();
    assert_eq!(
        got,
        vec![("river.md".to_string(), 30), ("b.md".to_string(), 20), ("a.md".to_string(), 10)]
    );
    assert_eq!(r[2].snippet, "river");
    assert!(search(&i, "\"open").is_err());
    assert_eq!(try_search(&i, "lake").unwrap().unwrap()[0].path, "c.md");
}

#[test]
fn snippet_cuts_around_the_match() {
    let text = format!("{}needle{}", "a".repeat(50), "b".repeat(200));
    let s = snippet(&text, "NEEDLE rest");
    assert_eq!(s, format!("…{}{}…", "a".repeat(41), &format!("needle{}", "b".repeat(200))[..120]));
    assert_eq!(snippet("short text", "  "), "short text");
    assert_eq!(snippet("no match here", "zzz"), "no match here");
    assert_eq!(try_snippet("abc", "b"), Some("abc".to_string()));
}

#[test]
fn links_resolve_by_path_or_stem_and_sort() {
    let mut i = VaultIndex::new();
    i.upsert(d("a.md", "see [[zeta]] and [[dir/b.md|Bee]]. [[c|C|x]]"));
    i.upsert(d("dir/b.md", "back to [[a.md]]"));
    i.upsert(d("zeta.md", "plain"));
    let ls = links(&i, "a.md");
    let targets: Vec<&str> = ls.iter().map(|l| l.target.as_str()).collect();
    assert_eq!(targets, vec!["c", "dir/b.md", "zeta"]);
    assert_eq!(ls[0].alias.as_deref(), Some("C"));
    assert!(!ls[0].resolved);
    assert_eq!(ls[1].alias.as_deref(), Some("Bee]]."));
    assert!(ls[1].resolved);
    assert!(ls[2].resolved);
    assert!(links(&i, "missing.md").is_empty());
    let b = backlinks(&i, "a.md");
    assert_eq!(b.len(), 1);
    assert_eq!(b[0].source, "dir/b.md");
    assert_eq!(file_stem("x/y/Note.md"), "Note");
    assert_eq!(file_stem("x/y/image.png"), "image.png");
}

#[test]
fn unlinked_mentions_skip_links() {
    let mut i = VaultIndex::new();
    i.upsert(d("b.md", "River here\n[[river]] linked\nriver again\r\nnone"));
    i.upsert(d("a.md", "about RIVER"));
    i.upsert(d("c.md", "[[River]]"));
    let m = unlinked_mentions(&i, "River.md");
    assert_eq!(
        m,
        vec![("a.md".to_string(), 0), ("b.md".to_string(), 0), ("b.md".to_string(), 2)]
    );
}

#[test]
fn outline_levels_and_lines() {
    let h = outline("intro\n## Two  \n#NoSpace\n### Three\n");
    assert_eq!(h.len(), 2);
    assert_eq!((h[0].level, h[0].text.as_str(), h[0].line), (2, "Two", 1));
    assert_eq!((h[1].level, h[1].text.as_str(), h[1].line), (3, "Three", 3));
}

#[test]
fn tallies_count_each_note() {
    let mut i = VaultIndex::new();
    let mut a = d("a.md", "");
    a.tags = vec!["#work".into(), "home".into()];
    a.properties.insert("status".into(), "x".into());
    let mut b = d("b.md", "");
    b.tags = vec!["work".into()];
    b.properties.insert("status".into(), "y".into());
    b.properties.insert("owner".into(), "z".into());
    i.upsert(a);
    i.upsert(b);
    let t = tag_counts(&i);
    assert_eq!(t.get("work"), Some(&2));
    assert_eq!(t.get("home"), Some(&1));
    assert_eq!(t.len(), 2);
    let p = property_counts(&i);
    assert_eq!(p.get("status"), Some(&2));
    assert_eq!(p.get("owner"), Some(&1));
}

#[test]
fn switchers_rank_deterministically() {
    assert_eq!(fuzzy_score("anything", ""), Some(0));
    assert_eq!(fuzzy_score("abc", "ac"), Some(100 + 98));
    assert_eq!(fuzzy_score("abc", "ab"), Some(100 + 99 + 25));
    assert_eq!(fuzzy_score("abc", "ca"), None);
    assert_eq!(try_fuzzy_score("ABC", "a"), Some(Some(100)));
    let paths = vec!["zeta.md".to_string(), "alpha.md".to_string(), "beta.md".to_string()];
    let r = quick_switch(&paths, "a");
    assert_eq!(r[0], ("alpha.md".to_string(), 100));
    assert_eq!(r.len(), 3);
    let cmds = vec![
        Command { id: "b.open".into(), title: "Open file".into(), usage: 1 },
        Command { id: "a.reopen".into(), title: "Reopen".into(), usage: 5 },
        Command { id: "c.open".into(), title: "Open folder".into(), usage: 3 },
        Command { id: "d".into(), title: "Close".into(), usage: 9 },
    ];
    let ids: Vec<String> = rank_commands(&cmds, "open").into_iter().map(|c| c.id).collect();
    assert_eq!(ids, vec!["c.open", "b.open", "a.reopen"]);
}

#[test]
fn explorer_random_and_preview() {
    let mut i = VaultIndex::new();
    i.upsert(d("b/two.md", "second"));
    i.upsert(d("a/one.md", &"x".repeat(400)));
    i.upsert(d("b/one.md", "first"));
    assert_eq!(explore(&i, "b/", Sort::Name), vec!["b/one.md", "b/two.md"]);
    assert_eq!(explore(&i, "", Sort::Modified).len(), 3);
    assert_eq!(random_note(&i, 4).unwrap().path, "b/one.md");
    assert!(random_note(&VaultIndex::new(), 1).is_none());
    assert_eq!(preview(&i, "a/one.md").unwrap().chars().count(), 300);
    assert_eq!(preview(&i, "b/two.md").as_deref(), Some("second"));
    assert!(preview(&i, "zzz").is_none());
}

#[test]
fn remove_and_snapshot_track_revisions() {
    let mut i = VaultIndex::new();
    assert_eq!(i.upsert(d("a.md", "x")), 1);
    assert_eq!(i.upsert(d("a.md", "y")), 2);
    assert_eq!(i.remove("missing.md"), 3);
    let (rev, docs) = i.snapshot();
    assert_eq!(rev, 3);
    assert_eq!(docs.len(), 1);
    assert_eq!(docs[0].content, "y");
    assert_eq!(i.remove("a.md"), 4);
    assert!(i.get("a.md").is_none());
    assert_eq!(i.documents().len(), 0);
}

const RIVER_NOTE: &str = "# River\n\nThe river restoration project.\n\n- [ ] Survey the banks\n\nSee [[Home]] for the weekly review.\n";

fn acceptance_index() -> VaultIndex {
    let mut index = VaultIndex::new();
    let mut home = Document {
        path: "Home.md".into(),
        content: "# Home\n\nThe weekly review links to [[River|the river plan]]. #work".into(),
        tags: vec!["work".into()],
        ..Default::default()
    };
    home.properties.insert("status".into(), "active".into());
    home.tasks = vec![Task { text: "Review river plan".into(), done: false }];
    index.upsert(home);
    index.upsert(Document {
        path: "Projects/River.md".into(),
        content: RIVER_NOTE.into(),
        tags: vec!["project".into()],
        ..Default::default()
    });
    index
}

#[test]
fn index_search_backlinks_and_graph_share_link_resolution() {
    let index = acceptance_index();
    let results = search(&index, "tag:work").unwrap();
    assert_eq!(results[0].path, "Home.md");
    assert_eq!(links(&index, "Home.md")[0].target, "River");
    assert_eq!(backlinks(&index, "Projects/River.md")[0].source, "Home.md");
    let (nodes, edges) = graph(
        &index,
        &GraphFilter {
            include_unresolved: true,
            ..Default::default()
        },
    );
    assert_eq!(nodes.len(), 2);
    assert!(edges
        .iter()
        .any(|e| e.from == "Home.md" && e.to == "Projects/River.md"));
}

#[test]
fn stem_resolution_prefers_exact_path_and_keeps_raw_targets() {
    let mut index = VaultIndex::new();
    index.upsert(d("a.md", "[[b.md]] [[River]] [[missing]]"));
    index.upsert(d("b.md", ""));
    index.upsert(d("x/River.md", ""));
    index.upsert(d("y/River.md", ""));
    let (_, edges) = graph(&index, &GraphFilter { include_unresolved: true, ..Default::default() });
    let to: Vec<(&str, bool)> = edges.iter().map(|e| (e.to.as_str(), e.unresolved)).collect();
    assert_eq!(to, vec![("b.md", false), ("missing", true), ("x/River.md", false)]);
    assert_eq!(backlinks(&index, "x/River.md").len(), 1);
    assert_eq!(backlinks(&index, "y/River.md").len(), 0);
    assert_eq!(backlinks(&index, "River").len(), 1);
    let targets: Vec<String> = links(&index, "a.md").into_iter().map(|l| l.target).collect();
    assert_eq!(targets, vec!["River", "b.md", "missing"]);
}
