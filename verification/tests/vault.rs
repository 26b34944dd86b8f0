use tachylyte::vault::{commands, core_features, CoreError, FeatureRegistry, VaultPath};
use tachylyte::textmap::TextMap;

#[test]
fn disabled_commands() {
    let mut r = FeatureRegistry::defaults();
    r.set("search", false).unwrap();
    assert!(!commands(&r).iter().any(|x| x.id == "search.query"));
}

#[test]
fn registry_defaults_unknowns_and_stored_states() {
    let r = FeatureRegistry::default();
    assert_eq!(core_features().len(), 20);
    assert!(core_features().iter().all(|id| r.is_enabled(id)));
    assert!(!r.is_enabled("not-a-feature"));
    let mut r = r;
    assert!(matches!(r.set("not-a-feature", true), Err(CoreError::UnknownFeature(_))));
    assert_eq!(commands(&r).len(), core_features().len());
    assert!(FeatureRegistry::from_enabled(None).is_enabled("vault"));
    let mut stored = TextMap::new();
    stored.insert("search".to_string(), false);
    stored.insert("future".to_string(), true);
    let with_unknown = FeatureRegistry::from_enabled(Some(stored));
    assert!(!with_unknown.is_enabled("search"));
    assert!(!with_unknown.is_enabled("future"));
    assert!(FeatureRegistry::is_known("daily-notes"));
}

#[test]
fn vault_paths_are_relative_and_normalized() {
    assert!(VaultPath::new("../x").is_err());
    assert!(VaultPath::new("/x").is_err());
    assert!(VaultPath::new("").is_err());
    assert!(VaultPath::new("./.").is_err());
    assert!(VaultPath::new("a/../b").is_err());
    assert_eq!(VaultPath::new("a//./n.md").unwrap().as_path(), "a/n.md");
    assert_eq!(VaultPath::new("./a/b/").unwrap().to_string(), "a/b");
}

use tachylyte::vault::{is_hidden_name, path_before, sort_entries, trash_destination, FileKind, VaultEntry};

fn entry(p: &str) -> VaultEntry {
    VaultEntry { path: VaultPath::new(p).unwrap(), kind: FileKind::Markdown, size: 0 }
}

#[test]
fn trash_keeps_the_file_name() {
    let p = VaultPath::new("Projects/Revised.md").unwrap();
    assert_eq!(trash_destination(&p).unwrap().as_path(), ".trash/Revised.md");
    let q = VaultPath::new("Home.md").unwrap();
    assert_eq!(trash_destination(&q).unwrap().as_path(), ".trash/Home.md");
}

#[test]
fn file_kinds_follow_extensions_without_case() {
    assert_eq!(FileKind::from_path("a/B.MD"), Some(FileKind::Markdown));
    assert_eq!(FileKind::from_path("board.canvas"), Some(FileKind::Canvas));
    assert_eq!(FileKind::from_path("x/photo.JpEg"), Some(FileKind::Image));
    assert_eq!(FileKind::from_path("song.m4a"), Some(FileKind::Audio));
    assert_eq!(FileKind::from_path("clip.mov"), Some(FileKind::Video));
    assert_eq!(FileKind::from_path("paper.pdf"), Some(FileKind::Pdf));
    assert_eq!(FileKind::from_path("notes.txt"), None);
    assert_eq!(FileKind::from_path(".md"), None);
    assert_eq!(FileKind::from_path("README"), None);
}

#[test]
fn hidden_names_start_with_a_dot() {
    assert!(is_hidden_name(".trash"));
    assert!(!is_hidden_name("notes.md"));
    assert!(!is_hidden_name(""));
}

#[test]
fn scan_order_is_component_wise() {
    assert!(path_before("a/b.md", "a.md"));
    assert!(!path_before("a.md", "a/b.md"));
    assert!(path_before("a", "a/b"));
    let sorted = sort_entries(vec![entry("z.md"), entry("a.md"), entry("a/b.md"), entry("Home.md")]);
    let paths: Vec<&str> = sorted.iter().map(|e| e.path.as_path()).collect();
    assert_eq!(paths, vec!["Home.md", "a/b.md", "a.md", "z.md"]);
}

#[test]
fn file_kinds_follow_std_path_extensions() {
    for p in ["a/b.md", "a/b.md/", "a/b.md/.", "a/.md", "a/x.y.md", "dir.md/..", "/", "", ".", "..", "a/b.", "a//c.PDF", "./x.png", "a/../y.mp3"] {
        let ext = std::path::Path::new(p).extension().and_then(|e| e.to_str()).map(|e| e.to_ascii_lowercase());
        let expected = match ext.as_deref() {
            Some("md") | Some("markdown") => Some(FileKind::Markdown),
            Some("canvas") => Some(FileKind::Canvas),
            Some("png") | Some("jpg") | Some("jpeg") | Some("gif") | Some("svg") | Some("webp") => Some(FileKind::Image),
            Some("mp3") | Some("wav") | Some("m4a") | Some("ogg") => Some(FileKind::Audio),
            Some("mp4") | Some("webm") | Some("mov") => Some(FileKind::Video),
            Some("pdf") => Some(FileKind::Pdf),
            _ => None,
        };
        assert_eq!(FileKind::from_path(p), expected, "{p}");
    }
}
