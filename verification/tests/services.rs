use tachylyte::services::auth::{Error, Session, SessionState};
use tachylyte::services::files::{safe_relative, PathError, RecoveryJob, RecoveryScheduler};
use tachylyte::services::publish::{diff, DiffKind, PublishManifest, SiteConfig};
use tachylyte::services::sync::VersionVector;
use tachylyte::services::uri;
use tachylyte::services::web::{navigation, NavigationPolicy, UrlError};
use tachylyte::services::{MockTransport, Secret};
use tachylyte::textmap::{TextMap, TextSet};

#[test]
fn auth_states_are_explicit() {
    let mut s = Session::signed_out();
    s.begin_login().unwrap();
    s.authenticated("a", Secret::new("x"), None).unwrap();
    s.sign_out();
    assert_eq!(s.state, SessionState::SignedOut);
}

#[test]
fn invalid_auth_transitions_are_rejected() {
    let mut s = Session::signed_out();
    assert_eq!(
        s.authenticated("a", Secret::new("x"), None),
        Err(Error::InvalidTransition)
    );
    s.begin_login().unwrap();
    assert_eq!(s.begin_login(), Err(Error::InvalidTransition));
    s.authenticated("acct", Secret::new("tok"), None).unwrap();
    assert_eq!(
        s.state,
        SessionState::Authenticated {
            account_id: "acct".into()
        }
    );
    assert_eq!(s.access_token.as_ref().unwrap().expose(), "tok");
}

#[test]
fn vectors_are_deterministic() {
    let mut a = VersionVector::default();
    a.increment("a");
    let mut b = a.clone();
    b.increment("b");
    assert!(b.dominates(&a));
    assert!(!a.concurrent(&b));
}

#[test]
fn concurrent_vectors_neither_dominate() {
    let mut a = VersionVector::default();
    a.increment("a");
    let mut b = VersionVector::default();
    b.increment("b");
    assert!(a.concurrent(&b));
    assert!(a.dominates(&a));
}

#[test]
fn unsafe_boundaries_rejected() {
    assert!(safe_relative("../x").is_err());
    let mut hosts = TextSet::new();
    hosts.insert("example.test".into());
    let p = NavigationPolicy {
        allowed_hosts: hosts,
        allow_external: false,
    };
    assert!(navigation(&p, "file:///tmp/x").is_err());
    assert!(navigation(&p, "https://evil.test").is_err());
}

#[test]
fn navigation_errors_are_specific() {
    let mut hosts = TextSet::new();
    hosts.insert("example.test".into());
    let p = NavigationPolicy {
        allowed_hosts: hosts,
        allow_external: false,
    };
    assert_eq!(navigation(&p, "no scheme").unwrap_err(), UrlError::Malformed);
    assert_eq!(navigation(&p, "ftp://example.test").unwrap_err(), UrlError::UnsafeScheme);
    assert_eq!(navigation(&p, "HTTPS://Example.TEST/a?b#c").unwrap().as_str(), "HTTPS://Example.TEST/a?b#c");
    assert_eq!(navigation(&p, "https:///path").unwrap_err(), UrlError::HostDenied);
    assert_eq!(safe_relative(""), Err(PathError::Empty));
    assert_eq!(safe_relative("/abs"), Err(PathError::Traversal));
    assert_eq!(safe_relative("a/..b"), Ok(()));
}

#[test]
fn mock_has_no_network() {
    let mut t = MockTransport::default();
    t.respond("x", vec![1]);
    assert_eq!(t.request("x"), Some(vec![1]));
    assert_eq!(t.requests, ["x"]);
}

#[test]
fn recovery_queue_is_fifo_and_rejects_unsafe_paths() {
    let mut q = RecoveryScheduler::new();
    assert_eq!(q.schedule(RecoveryJob { path: "../x".into(), attempts: 0 }), Err(PathError::Traversal));
    q.schedule(RecoveryJob { path: "a.md".into(), attempts: 1 }).unwrap();
    q.schedule(RecoveryJob { path: "b.md".into(), attempts: 2 }).unwrap();
    assert_eq!(q.pop().unwrap().path, "a.md");
    assert_eq!(q.pop().unwrap().path, "b.md");
    assert!(q.pop().is_none());
}

#[test]
fn deep_links_parse_actions_and_params() {
    let d = uri::parse("tachylyte://open?vault=work&file=a.md&file=b.md&bare").unwrap();
    assert_eq!(d.action, "open");
    assert!(d.target.is_none());
    assert_eq!(d.params.len(), 2);
    assert_eq!(d.params.get("file").unwrap(), "b.md");
    assert_eq!(d.params.get("vault").unwrap(), "work");
    assert!(uri::parse("obsidian://open").is_none());
    assert!(uri::parse("tachylyte:open").is_none());
    assert_eq!(uri::parse("tachylyte://search").unwrap().params.len(), 0);
}

fn manifest(files: &[(&str, &str)]) -> PublishManifest {
    let mut m = TextMap::new();
    for (p, d) in files {
        m.insert(p.to_string(), d.to_string());
    }
    PublishManifest {
        site: SiteConfig {
            title: "Docs".into(),
            base_path: "/".into(),
            extra: TextMap::new(),
        },
        files: m,
        extra: TextMap::new(),
    }
}

#[test]
fn manifest_diff_lists_additions_changes_then_removals() {
    let old = manifest(&[("a.md", "1"), ("b.md", "2"), ("c.md", "3")]);
    let new = manifest(&[("b.md", "2"), ("c.md", "4"), ("d.md", "5")]);
    let d = diff(&old, &new);
    assert_eq!(d.len(), 3);
    assert_eq!((d[0].path.as_str(), d[0].kind), ("c.md", DiffKind::Changed));
    assert_eq!(d[0].digest.as_deref(), Some("4"));
    assert_eq!((d[1].path.as_str(), d[1].kind), ("d.md", DiffKind::Added));
    assert_eq!((d[2].path.as_str(), d[2].kind, d[2].digest.clone()), ("a.md", DiffKind::Removed, None));
}

#[test]
fn parent_parts_are_found_anywhere_in_the_path() {
    assert_eq!(safe_relative("a/../b"), Err(PathError::Traversal));
    assert_eq!(safe_relative("a/b/.."), Err(PathError::Traversal));
    assert_eq!(safe_relative(".."), Err(PathError::Traversal));
    assert_eq!(safe_relative("a/b../c"), Ok(()));
    assert_eq!(safe_relative("./a/...b"), Ok(()));
}
