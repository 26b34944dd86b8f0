use tachylyte::media::{IntentQueue, LeafChrome, MediaIntent};

#[test]
fn intents_are_fifo() {
    let mut queue = IntentQueue::default();
    queue.push(MediaIntent::Play);
    queue.push(MediaIntent::Seek(42));
    assert_eq!(queue.take(), Some(MediaIntent::Play));
    assert_eq!(queue.take(), Some(MediaIntent::Seek(42)));
    assert_eq!(queue.take(), None);
}

#[test]
fn leaf_chrome_starts_empty() {
    let mut chrome = LeafChrome::default();
    assert!(chrome.title.is_empty() && chrome.source.is_empty());
    chrome.queued_intents.push(MediaIntent::OpenExternal("https://example.test".into()));
    assert_eq!(
        chrome.queued_intents.take(),
        Some(MediaIntent::OpenExternal("https://example.test".into()))
    );
}

use tachylyte::media::attachment::{AttachmentInfo, AttachmentModel};
use tachylyte::media::playback::{PlaybackKind, PlaybackModel};
use tachylyte::media::slides::{Slide, SlidesModel};

#[test]
fn controls_emit_intents() {
    let mut m = PlaybackModel::new("a", "x", PlaybackKind::Audio);
    m.play();
    m.pause();
    assert_eq!(m.take_intents(), vec![MediaIntent::Play, MediaIntent::Pause]);
}

#[test]
fn seek_clamps() {
    let mut m = PlaybackModel::new("a", "x", PlaybackKind::Audio);
    m.duration_ms = 10;
    m.seek(99);
    assert_eq!(m.position_ms, 10);
    assert_eq!(m.take_intents(), vec![MediaIntent::Seek(10)]);
}

#[test]
fn seek_within_duration_keeps_position() {
    let mut m = PlaybackModel::new("a", "x", PlaybackKind::Video);
    m.duration_ms = 100;
    m.seek(40);
    assert_eq!(m.position_ms, 40);
    m.play();
    assert!(m.playing);
    assert_eq!(m.take_intents(), vec![MediaIntent::Seek(40), MediaIntent::Play]);
    assert!(m.take_intents().is_empty());
}

#[test]
fn metadata_and_external_intent() {
    let info = AttachmentInfo {
        display_name: "note.pdf".into(),
        source: "files/note.pdf".into(),
        mime: "application/pdf".into(),
        byte_size: 42,
        modified: Some("today".into()),
    };
    let mut m = AttachmentModel::new(info.clone());
    assert_eq!(m.info, info);
    m.open_external();
    assert_eq!(m.take_intents(), vec![MediaIntent::OpenExternal("files/note.pdf".into())]);
}

fn slide(title: &str, content: &str) -> Slide {
    Slide { title: Some(title.into()), content: content.into() }
}

#[test]
fn empty_deck_has_zero_progress() {
    let m = SlidesModel::new(Vec::new());
    assert_eq!(m.progress(), (0, 0));
    assert_eq!(m.current_notes(), None);
}

#[test]
fn slide_paging_is_bounded_and_emits() {
    let mut m = SlidesModel::from_slides(vec![slide("A", "# A"), slide("B", "# B")]);
    m.next_page();
    assert_eq!(m.current_page, 1);
    assert_eq!(m.take_intents(), vec![MediaIntent::NextPage]);
    m.next_page();
    assert_eq!(m.current_page, 1);
    m.previous_page();
    assert_eq!(m.take_intents(), vec![MediaIntent::PreviousPage]);
    m.previous_page();
    assert_eq!(m.current_page, 0);
    assert!(m.take_intents().is_empty());
}

#[test]
fn slide_notes_come_from_comment_lines() {
    let mut m = SlidesModel::from_slides(vec![
        slide("A", "# A\n<!-- notes: explain A -->\n  <!--note:  and more  -->\r\n<!-- other -->"),
        slide("B", "# B\n<!-- note: explain B -->"),
        slide("C", "# C"),
    ]);
    assert_eq!(m.current_notes(), Some("explain A\nand more"));
    m.toggle_presenter_mode();
    assert!(m.presenter_mode);
    m.next_page();
    assert_eq!(m.current_notes(), Some("explain B"));
    m.next_page();
    assert_eq!(m.current_notes(), Some(""));
    assert_eq!(m.progress(), (3, 3));
    m.set_presenter_notes("updated");
    assert_eq!(m.current_notes(), Some("updated"));
    assert_eq!(m.current().map(|s| s.content.as_str()), Some("# C"));
}

#[test]
fn setting_notes_pads_missing_slides() {
    let mut m = SlidesModel::new(vec![slide("A", "a"), slide("B", "b"), slide("C", "c")]);
    m.current_page = 2;
    m.set_presenter_notes("third");
    assert_eq!(m.presenter_notes, vec![String::new(), String::new(), "third".to_string()]);
}

use tachylyte::media::document::{file_kind, route_file, DocumentView, FileKind};
use tachylyte::media::web::{WebPolicy, WebViewModel};

#[test]
fn policy_blocks_and_allows() {
    let p = WebPolicy::AllowList(vec!["example.com".into()]);
    assert!(p.allows("https://www.example.com/a"));
    assert!(!p.allows("https://evil.test"));
}

#[test]
fn blocked_navigation_is_observable() {
    let mut m = WebViewModel::new(WebPolicy::Offline);
    m.navigate("https://example.com");
    assert!(m.blocked_reason.is_some());
    assert!(m.take_intents().is_empty());
}

#[test]
fn allow_list_rejects_credential_bypass_without_allowed_intent() {
    let policy = WebPolicy::AllowList(vec!["example.com".into()]);
    let url = "https://example.com@evil.test";

    assert!(!policy.allows(url));

    let mut model = WebViewModel::new(policy);
    model.navigate(url);
    assert!(model.take_intents().is_empty());
}

#[test]
fn refusals_say_why() {
    let p = WebPolicy::AllowList(vec!["Example.COM.".into(), "https://docs.rs/".into(), "bad_host!".into()]);
    assert_eq!(p.evaluate("https://exa\u{7}mple.com"), Err("URL contains control characters".to_string()));
    assert_eq!(p.evaluate("not a url"), Err("URL could not be parsed".to_string()));
    assert_eq!(p.evaluate("ftp://example.com/x"), Err("URL scheme is not HTTP(S)".to_string()));
    assert_eq!(p.evaluate("https://me:pw@example.com/"), Err("URL contains credentials".to_string()));
    assert_eq!(p.evaluate("https://example.com:8443/"), Err("URL contains an explicit port".to_string()));
    assert_eq!(p.evaluate("https://notexample.com/"), Err("host is not on the allow-list: notexample.com".to_string()));
    assert_eq!(p.evaluate("https://EXAMPLE.com/path?q=1"), Ok(()));
    assert_eq!(p.evaluate("https://api.docs.rs/crate"), Ok(()));
    assert_eq!(p.evaluate("http://127.0.0.1/"), Err("host is not on the allow-list: 127.0.0.1".to_string()));
    assert_eq!(WebPolicy::Offline.evaluate("https://example.com"), Err("offline policy blocks navigation".to_string()));
}

#[test]
fn admitted_navigation_opens_externally() {
    let mut m = WebViewModel::new(WebPolicy::AllowList(vec!["example.com".into()]));
    m.navigate("https://example.com/page");
    assert_eq!(m.url, "https://example.com/page");
    assert!(m.blocked_reason.is_none());
    assert_eq!(m.take_intents(), vec![MediaIntent::OpenExternal("https://example.com/page".into())]);
}

#[test]
fn routes_supported_local_kinds_case_insensitively() {
    assert_eq!(file_kind("vault/PHOTO.JpG"), FileKind::Image);
    assert_eq!(file_kind("vault/clip.MP4"), FileKind::Video);
    assert_eq!(file_kind("vault/guide.pdf"), FileKind::Pdf);
    assert_eq!(file_kind("vault/readme.md"), FileKind::Markdown);
    assert_eq!(file_kind("vault/data.bin"), FileKind::Attachment);
}

#[test]
fn routes_only_credential_free_http_urls_to_web() {
    assert_eq!(file_kind("https://example.test/docs"), FileKind::Web);
    assert_eq!(file_kind("https://user@example.test/docs"), FileKind::Attachment);
    assert_eq!(file_kind("javascript:alert(1)"), FileKind::Attachment);
    assert_eq!(file_kind("https://example.test:8443/docs"), FileKind::Attachment);
}

#[test]
fn document_views_take_their_title_from_the_file_name() {
    let mut v = DocumentView::new("notes/Plan.canvas");
    assert_eq!(v.title, "Plan.canvas");
    assert_eq!(v.kind, FileKind::Canvas);
    assert_eq!(v.boundary_label(), "Canvas host boundary");
    v.set_source("..");
    assert_eq!(v.title, "..");
    assert_eq!(v.kind, FileKind::Attachment);
    assert_eq!(route_file("song.OGG"), FileKind::Audio);
}

#[test]
fn document_titles_follow_std_file_names() {
    for p in ["notes/Plan.canvas", "a/b/", "a/b/.", "a/..", "/", "", ".", "x//y.md", "../up.pdf"] {
        let expected = std::path::Path::new(p).file_name().and_then(|n| n.to_str()).filter(|n| !n.is_empty()).unwrap_or(p);
        assert_eq!(DocumentView::new(p).title, expected, "{p}");
    }
}
