//! Routing a document source to the leaf that shows it, by metadata alone:
//! nothing is read, fetched or launched.
use vstd::prelude::*;
use super::web::{any_control, has_control, is_web_scheme, parse_url, url_parse, web_scheme};
use crate::text::{chars_of, contains_seq, contains_text, lower_ascii_seq};
use crate::vault::{file_name_of, kind_of_extension, path_extension, path_file_name};

verus! {

/// The leaf renderer chosen for a document source.
#[derive(Clone, Copy, Debug, PartialEq, Eq, Structural)]
pub enum FileKind {
    Markdown,
    Canvas,
    Image,
    Pdf,
    Audio,
    Video,
    Web,
    Attachment,
}

/// Whether `s` is an HTTP(S) URL with a host and no credentials or port.
pub open spec fn safe_web_url(s: Seq<char>) -> bool {
    !has_control(s) && match url_parse(s) {
        Some(u) => web_scheme(u.scheme) && u.host is Some && u.username.len() == 0 && u.password is None && u.port is None,
        None => false,
    }
}

/// The leaf for a source: safe web URLs go to the web leaf; other sources
/// with control characters or a `://` are attachments; local paths go by
/// their extension (ASCII case aside), unknown ones to the attachment leaf.
pub open spec fn route_of(s: Seq<char>) -> FileKind {
    if safe_web_url(s) {
        FileKind::Web
    } else if has_control(s) || contains_seq(s, seq![':', '/', '/']) {
        FileKind::Attachment
    } else {
        match path_extension(s) {
            Some(e) => match kind_of_extension(lower_ascii_seq(e)) {
                Some(crate::vault::FileKind::Markdown) => FileKind::Markdown,
                Some(crate::vault::FileKind::Canvas) => FileKind::Canvas,
                Some(crate::vault::FileKind::Image) => FileKind::Image,
                Some(crate::vault::FileKind::Audio) => FileKind::Audio,
                Some(crate::vault::FileKind::Video) => FileKind::Video,
                Some(crate::vault::FileKind::Pdf) => FileKind::Pdf,
                None => FileKind::Attachment,
            },
            None => FileKind::Attachment,
        }
    }
}

fn is_safe_web_url(source: &str) -> (b: bool)
    ensures
        b == safe_web_url(source@),
{
    let cs = chars_of(source);
    if any_control(&cs) {
        return false;
    }
    match parse_url(source) {
        Some(u) => {
            let user = chars_of(u.username.as_str());
            is_web_scheme(u.scheme.as_str()) && u.host.is_some() && user.len() == 0 && u.password.is_none() && u.port.is_none()
        },
        None => false,
    }
}

/// Routes a local path or an HTTP(S) URL without touching the filesystem or
/// the network (see `route_of`).
pub fn file_kind(source: &str) -> (k: FileKind)
    ensures
        k == route_of(source@),
{
    if is_safe_web_url(source) {
        return FileKind::Web;
    }
    let cs = chars_of(source);
    let scheme_sep = vec![':', '/', '/'];
    proof {
        assert(scheme_sep@ =~= seq![':', '/', '/']);
    }
    let sep = crate::text::string_from_chars(&scheme_sep);
    if any_control(&cs) || contains_text(source, sep.as_str()) {
        return FileKind::Attachment;
    }
    match crate::vault::FileKind::from_path(source) {
        Some(crate::vault::FileKind::Markdown) => FileKind::Markdown,
        Some(crate::vault::FileKind::Canvas) => FileKind::Canvas,
        Some(crate::vault::FileKind::Image) => FileKind::Image,
        Some(crate::vault::FileKind::Audio) => FileKind::Audio,
        Some(crate::vault::FileKind::Video) => FileKind::Video,
        Some(crate::vault::FileKind::Pdf) => FileKind::Pdf,
        None => FileKind::Attachment,
    }
}

/// The host-facing name of `file_kind`.
pub fn route_file(source: &str) -> (k: FileKind)
    ensures
        k == route_of(source@),
{
    file_kind(source)
}

/// The title of a source: its file name, or the whole source where it has none.
pub open spec fn title_of(s: Seq<char>) -> Seq<char> {
    match path_file_name(s) {
        Some(n) => if n.len() > 0 { n } else { s },
        None => s,
    }
}

/// A mountable document shell: a source, the leaf it routes to, a title.
pub struct DocumentView {
    pub source: String,
    pub kind: FileKind,
    pub title: String,
}

impl DocumentView {
    pub fn new(source: &str) -> (v: Self)
        ensures
            v.source@ == source@,
            v.kind == route_of(source@),
            v.title@ == title_of(source@),
    {
        let title = match file_name_of(source) {
            Some(n) => {
                let nc = chars_of(n.as_str());
                if nc.len() > 0 {
                    n
                } else {
                    source.to_string()
                }
            },
            None => source.to_string(),
        };
        DocumentView { source: source.to_string(), kind: file_kind(source), title }
    }

    /// Points the view at another source.
    pub fn set_source(&mut self, source: &str)
        ensures
            final(self).source@ == source@,
            final(self).kind == route_of(source@),
            final(self).title@ == title_of(source@),
    {
        let next = DocumentView::new(source);
        self.source = next.source;
        self.kind = next.kind;
        self.title = next.title;
    }

    /// Which boundary of the host the routed leaf stands behind.
    pub fn boundary_label(&self) -> (s: &'static str)
        ensures
            s@ == match self.kind {
                FileKind::Markdown => "Markdown host/editor boundary"@,
                FileKind::Canvas => "Canvas host boundary"@,
                FileKind::Image => "GPUI image renderer"@,
                FileKind::Pdf => "PDF native backend boundary"@,
                FileKind::Audio => "Audio host playback boundary"@,
                FileKind::Video => "Video host playback boundary"@,
                FileKind::Web => "Web host policy boundary"@,
                FileKind::Attachment => "Attachment / external-app boundary"@,
            },
    {
        match self.kind {
            FileKind::Markdown => "Markdown host/editor boundary",
            FileKind::Canvas => "Canvas host boundary",
            FileKind::Image => "GPUI image renderer",
            FileKind::Pdf => "PDF native backend boundary",
            FileKind::Audio => "Audio host playback boundary",
            FileKind::Video => "Video host playback boundary",
            FileKind::Web => "Web host policy boundary",
            FileKind::Attachment => "Attachment / external-app boundary",
        }
    }
}

} // verus!
