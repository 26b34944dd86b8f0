//! The web leaf's navigation policy: only credential-free, port-free HTTP(S)
//! URLs whose host is allowed (exactly, or as a dot-delimited subdomain) are
//! opened, and a blocked navigation says why.
use vstd::prelude::*;
use super::{IntentQueue, LeafState, MediaIntent};
use crate::markdown::inline::{char_is_alphanumeric, is_alnum};
use crate::navigation::texts;
use crate::text::{char_is_control, chars_of, ends_with, is_control, lower_ascii_range, lower_ascii_seq, region_ends_with, region_starts_with, starts_with, string_from_chars, vec_eq};

verus! {

/// The host of a parsed URL, as text.
pub enum HostView {
    Domain(Seq<char>),
    Ipv4(Seq<char>),
    Ipv6(Seq<char>),
}

/// The parts of a parsed URL that the policy reads, as text.
pub struct UrlView {
    pub scheme: Seq<char>,
    pub username: Seq<char>,
    pub password: Option<Seq<char>>,
    pub host: Option<HostView>,
    pub port: Option<u16>,
    pub path: Seq<char>,
    pub query: Option<Seq<char>>,
    pub fragment: Option<Seq<char>>,
}

/// What `url::Url::parse` gives for an input: its parts, or none where the
/// input is not a URL.
pub uninterp spec fn url_parse(input: Seq<char>) -> Option<UrlView>;

/// The host of a parsed URL.
#[derive(Clone, Debug, PartialEq, Eq)]
pub enum UrlHost {
    Domain(String),
    Ipv4(String),
    Ipv6(String),
}

/// The parts of a parsed URL that the policy reads.
#[derive(Clone, Debug, PartialEq, Eq)]
pub struct UrlParts {
    pub scheme: String,
    pub username: String,
    pub password: Option<String>,
    pub host: Option<UrlHost>,
    pub port: Option<u16>,
    pub path: String,
    pub query: Option<String>,
    pub fragment: Option<String>,
}

pub open spec fn opt_text(o: Option<String>) -> Option<Seq<char>> {
    match o {
        Some(s) => Some(s@),
        None => None,
    }
}

pub open spec fn parts_view(p: UrlParts) -> UrlView {
    UrlView {
        scheme: p.scheme@,
        username: p.username@,
        password: opt_text(p.password),
        host: match p.host {
            Some(UrlHost::Domain(d)) => Some(HostView::Domain(d@)),
            Some(UrlHost::Ipv4(a)) => Some(HostView::Ipv4(a@)),
            Some(UrlHost::Ipv6(a)) => Some(HostView::Ipv6(a@)),
            None => None,
        },
        port: p.port,
        path: p.path@,
        query: opt_text(p.query),
        fragment: opt_text(p.fragment),
    }
}

/// `url::Url::parse`, with the parsed URL read into plain parts (addresses
/// in their standard text form).  The contract names the result; the WHATWG
/// parsing rules are not stated.
#[verifier::external_body]
pub(crate) fn parse_url(input: &str) -> (r: Option<UrlParts>)
    ensures
        r matches Some(p) ==> url_parse(input@) == Some(parts_view(p)),
        r is None ==> url_parse(input@) is None,
{
    let u = url::Url::parse(input).ok()?;
    let host = u.host().map(|h| match h {
        url::Host::Domain(d) => UrlHost::Domain(d.to_string()),
        url::Host::Ipv4(a) => UrlHost::Ipv4(a.to_string()),
        url::Host::Ipv6(a) => UrlHost::Ipv6(a.to_string()),
    });
    let text = |s: &str| s.to_string();
    Some(UrlParts { scheme: text(u.scheme()), username: text(u.username()), password: u.password().map(text), host, port: u.port(), path: text(u.path()), query: u.query().map(text), fragment: u.fragment().map(text) })
}

/// Whether `s` holds a control character.
pub open spec fn has_control(s: Seq<char>) -> bool {
    exists|i: int| 0 <= i < s.len() && #[trigger] is_control(s[i])
}

pub(crate) fn any_control(s: &Vec<char>) -> (b: bool)
    ensures
        b == has_control(s@),
{
    let mut i: usize = 0;
    while i < s.len()
        invariant
            i <= s@.len(),
            forall|j: int| 0 <= j < i ==> !#[trigger] is_control(s@[j]),
        decreases s@.len() - i,
    {
        if char_is_control(s[i]) {
            return true;
        }
        i = i + 1;
    }
    false
}

/// Whether a scheme is `http` or `https`.
pub open spec fn web_scheme(s: Seq<char>) -> bool {
    s == seq!['h', 't', 't', 'p'] || s == seq!['h', 't', 't', 'p', 's']
}

pub(crate) fn is_web_scheme(s: &str) -> (b: bool)
    ensures
        b == web_scheme(s@),
{
    let c = chars_of(s);
    vec_eq(&c, &vec!['h', 't', 't', 'p']) || vec_eq(&c, &vec!['h', 't', 't', 'p', 's'])
}

/// `d` without its trailing dots.
pub open spec fn trim_dots(d: Seq<char>) -> Seq<char>
    decreases d.len(),
{
    if d.len() > 0 && d.last() == '.' {
        trim_dots(d.drop_last())
    } else {
        d
    }
}

/// Whether every `.`-separated label of `d` is non-empty, neither starts nor
/// ends with `-`, and holds only alphanumeric characters and `-`.
pub open spec fn labels_ok(d: Seq<char>) -> bool {
    &&& d.len() > 0
    &&& d[0] != '.' && d[0] != '-'
    &&& d.last() != '.' && d.last() != '-'
    &&& forall|i: int| 0 <= i < d.len() ==> #[trigger] is_alnum(d[i]) || d[i] == '-' || d[i] == '.'
    &&& forall|i: int| 0 <= i < d.len() - 1 && #[trigger] d[i] == '.' ==> d[i + 1] != '.' && d[i + 1] != '-'
    &&& forall|i: int| 0 < i < d.len() && #[trigger] d[i] == '.' ==> d[i - 1] != '-'
}

/// The normal form of a domain: without trailing dots, checked, lowercased.
pub open spec fn normal_domain(domain: Seq<char>) -> Option<Seq<char>> {
    let d = trim_dots(domain);
    if d.len() == 0 || has_control(d) || !labels_ok(d) {
        None
    } else {
        Some(lower_ascii_seq(d))
    }
}

fn trim_dots_exec(d: &Vec<char>) -> (n: usize)
    ensures
        n <= d@.len(),
        d@.take(n as int) == trim_dots(d@),
{
    let mut n = d.len();
    proof {
        assert(d@.take(n as int) =~= d@);
    }
    while n > 0 && d[n - 1] == '.'
        invariant
            n <= d@.len(),
            trim_dots(d@.take(n as int)) == trim_dots(d@),
        decreases n,
    {
        proof {
            assert(d@.take(n as int).drop_last() =~= d@.take(n - 1));
        }
        n = n - 1;
    }
    n
}

fn labels_ok_exec(t: &Vec<char>) -> (b: bool)
    ensures
        b == labels_ok(t@),
{
    let n = t.len();
    if n == 0 || t[0] == '.' || t[0] == '-' || t[n - 1] == '.' || t[n - 1] == '-' {
        return false;
    }
    let mut i: usize = 0;
    while i < n
        invariant
            n == t@.len() > 0,
            i <= n,
            t@[0] != '.' && t@[0] != '-' && t@[n - 1] != '.' && t@[n - 1] != '-',
            forall|j: int| 0 <= j < i ==> #[trigger] is_alnum(t@[j]) || t@[j] == '-' || t@[j] == '.',
            forall|j: int| 0 <= j < i && j < n - 1 && #[trigger] t@[j] == '.' ==> t@[j + 1] != '.' && t@[j + 1] != '-',
            forall|j: int| 0 < j < i && #[trigger] t@[j] == '.' ==> t@[j - 1] != '-',
        decreases n - i,
    {
        let c = t[i];
        if !(char_is_alphanumeric(c) || c == '-' || c == '.') {
            return false;
        }
        if c == '.' && i + 1 < n && (t[i + 1] == '.' || t[i + 1] == '-') {
            return false;
        }
        if c == '.' && i > 0 && t[i - 1] == '-' {
            return false;
        }
        i = i + 1;
    }
    true
}

/// The normal form of a domain, if it is a valid one.
fn normalize_domain(domain: &str) -> (r: Option<String>)
    ensures
        opt_text(r) == normal_domain(domain@),
{
    let d = chars_of(domain);
    let n = trim_dots_exec(&d);
    let t = crate::text::sub_chars(&d, 0, n);
    proof {
        assert(t@ =~= d@.take(n as int));
    }
    if n == 0 || any_control(&t) || !labels_ok_exec(&t) {
        return None;
    }
    let low = lower_ascii_range(&t, 0, t.len());
    proof {
        assert(t@.subrange(0, t@.len() as int) =~= t@);
    }
    Some(string_from_chars(&low))
}

/// The policy's form of a parsed URL's host: a valid domain in normal form,
/// or an address.
pub open spec fn url_host(u: UrlView) -> Option<Seq<char>> {
    match u.host {
        Some(HostView::Domain(d)) => normal_domain(d),
        Some(HostView::Ipv4(a)) => Some(a),
        Some(HostView::Ipv6(a)) => Some(a),
        None => None,
    }
}

fn normalize_url_host(u: &UrlParts) -> (r: Option<String>)
    ensures
        opt_text(r) == url_host(parts_view(*u)),
{
    match &u.host {
        Some(UrlHost::Domain(d)) => normalize_domain(d.as_str()),
        Some(UrlHost::Ipv4(a)) => Some(a.clone()),
        Some(UrlHost::Ipv6(a)) => Some(a.clone()),
        None => None,
    }
}

/// Whether a parsed URL is bare: no credentials, port, query or fragment,
/// and the root path.
pub open spec fn bare(u: UrlView) -> bool {
    &&& u.username.len() == 0
    &&& u.password is None
    &&& u.path == seq!['/']
    &&& u.query is None
    &&& u.fragment is None
    &&& u.port is None
}

fn is_bare(u: &UrlParts) -> (b: bool)
    ensures
        b == bare(parts_view(*u)),
{
    let user = chars_of(u.username.as_str());
    let path = chars_of(u.path.as_str());
    let root = vec!['/'];
    proof {
        assert(root@ =~= seq!['/']);
    }
    user.len() == 0 && u.password.is_none() && vec_eq(&path, &root) && u.query.is_none() && u.fragment.is_none()
        && u.port.is_none()
}

pub open spec fn http_prefix() -> Seq<char> {
    seq!['h', 't', 't', 'p', ':', '/', '/']
}

pub open spec fn https_prefix() -> Seq<char> {
    seq!['h', 't', 't', 'p', 's', ':', '/', '/']
}

/// The host an allow-list entry admits: a bare host name, or a bare
/// absolute HTTP(S) URL; each must read back as `http://` and the host with
/// nothing else.  Entries that are neither admit nothing.
pub open spec fn allowed_host(entry: Seq<char>) -> Option<Seq<char>> {
    let candidate = if starts_with(entry, http_prefix()) || starts_with(entry, https_prefix()) {
        match url_parse(entry) {
            Some(u) => if !web_scheme(u.scheme) || !bare(u) {
                None
            } else {
                url_host(u)
            },
            None => None,
        }
    } else {
        Some(entry)
    };
    match candidate {
        Some(c) => if c.len() == 0 || has_control(c) {
            None
        } else {
            match url_parse(http_prefix() + c) {
                Some(u) => if !bare(u) {
                    None
                } else {
                    url_host(u)
                },
                None => None,
            }
        },
        None => None,
    }
}

fn normalize_allowed_host(entry: &str) -> (r: Option<String>)
    ensures
        opt_text(r) == allowed_host(entry@),
{
    let e = chars_of(entry);
    let n = e.len();
    let http = vec!['h', 't', 't', 'p', ':', '/', '/'];
    let https = vec!['h', 't', 't', 'p', 's', ':', '/', '/'];
    proof {
        assert(e@.subrange(0, n as int) =~= entry@);
        assert(http@ =~= http_prefix());
        assert(https@ =~= https_prefix());
    }
    let candidate = if region_starts_with(&e, 0, n, &http) || region_starts_with(&e, 0, n, &https) {
        let parsed = match parse_url(entry) {
            Some(p) => p,
            None => return None,
        };
        if !is_web_scheme(parsed.scheme.as_str()) || !is_bare(&parsed) {
            return None;
        }
        match normalize_url_host(&parsed) {
            Some(h) => h,
            None => return None,
        }
    } else {
        entry.to_string()
    };
    let cc = chars_of(candidate.as_str());
    if cc.len() == 0 || any_control(&cc) {
        return None;
    }
    let mut url = string_from_chars(&http);
    url.append(candidate.as_str());
    let parsed = match parse_url(url.as_str()) {
        Some(p) => p,
        None => return None,
    };
    if !is_bare(&parsed) {
        return None;
    }
    normalize_url_host(&parsed)
}

/// Whether `host` is `allowed` or a subdomain of it.
pub open spec fn host_matches(host: Seq<char>, allowed: Seq<char>) -> bool {
    host == allowed || ends_with(host, seq!['.'] + allowed)
}

/// Whether some entry of the allow-list admits `host`.
pub open spec fn admitted(host: Seq<char>, list: Seq<Seq<char>>) -> bool {
    exists|i: int| 0 <= i < list.len() && (#[trigger] allowed_host(list[i]) matches Some(a) && host_matches(host, a))
}

/// Where web leaves may navigate.
#[derive(Clone, Debug, PartialEq, Eq)]
pub enum WebPolicy {
    /// No navigation at all.
    Offline,
    /// Navigation to the listed hosts and their subdomains.
    AllowList(Vec<String>),
}

/// Why a URL is refused, or `Ok` where the policy (`None` for offline, else
/// the allow-list's texts) admits it.
pub open spec fn verdict(allow: Option<Seq<Seq<char>>>, url: Seq<char>) -> Result<(), Seq<char>> {
    if has_control(url) {
        Err("URL contains control characters"@)
    } else {
        match url_parse(url) {
            None => Err("URL could not be parsed"@),
            Some(u) => if !web_scheme(u.scheme) {
                Err("URL scheme is not HTTP(S)"@)
            } else if u.username.len() > 0 || u.password is Some {
                Err("URL contains credentials"@)
            } else if u.port is Some {
                Err("URL contains an explicit port"@)
            } else {
                match url_host(u) {
                    None => Err("URL has no valid host"@),
                    Some(h) => match allow {
                        None => Err("offline policy blocks navigation"@),
                        Some(list) => if admitted(h, list) {
                            Ok(())
                        } else {
                            Err("host is not on the allow-list: "@ + h)
                        },
                    },
                }
            },
        }
    }
}

pub open spec fn allow_of(p: WebPolicy) -> Option<Seq<Seq<char>>> {
    match p {
        WebPolicy::Offline => None,
        WebPolicy::AllowList(list) => Some(texts(list@)),
    }
}

pub open spec fn verdict_text(r: Result<(), String>) -> Result<(), Seq<char>> {
    match r {
        Ok(()) => Ok(()),
        Err(m) => Err(m@),
    }
}

/// Whether some entry of `list` admits `host`.
fn on_list(host: &str, list: &Vec<String>) -> (b: bool)
    ensures
        b == admitted(host@, texts(list@)),
{
    let hc = chars_of(host);
    let mut i: usize = 0;
    while i < list.len()
        invariant
            i <= list@.len(),
            hc@ == host@,
            forall|j: int| 0 <= j < i ==> !(#[trigger] allowed_host(texts(list@)[j]) matches Some(a) && host_matches(host@, a)),
        decreases list@.len() - i,
    {
        proof {
            assert(texts(list@)[i as int] == list@[i as int]@);
        }
        match normalize_allowed_host(list[i].as_str()) {
            Some(a) => {
                let ac = chars_of(a.as_str());
                let mut dotted = vec!['.'];
                dotted.append(&mut crate::text::sub_chars(&ac, 0, ac.len()));
                proof {
                    assert(ac@.subrange(0, ac@.len() as int) =~= a@);
                    assert(dotted@ =~= seq!['.'] + a@);
                    assert(hc@.subrange(0, hc@.len() as int) =~= hc@);
                }
                if vec_eq(&hc, &ac) || region_ends_with(&hc, 0, hc.len(), &dotted) {
                    return true;
                }
            },
            None => {},
        }
        i = i + 1;
    }
    proof {
        assert forall|j: int| 0 <= j < texts(list@).len() implies !(#[trigger] allowed_host(texts(list@)[j]) matches Some(a)
            && host_matches(host@, a)) by {}
    }
    false
}

impl WebPolicy {
    /// `Ok` where the policy admits `url`, else why not (see `verdict`).
    pub fn evaluate(&self, url: &str) -> (r: Result<(), String>)
        ensures
            verdict_text(r) == verdict(allow_of(*self), url@),
    {
        let uc = chars_of(url);
        if any_control(&uc) {
            return Err("URL contains control characters".to_string());
        }
        let parsed = match parse_url(url) {
            Some(p) => p,
            None => return Err("URL could not be parsed".to_string()),
        };
        if !is_web_scheme(parsed.scheme.as_str()) {
            return Err("URL scheme is not HTTP(S)".to_string());
        }
        let user = chars_of(parsed.username.as_str());
        if user.len() > 0 || parsed.password.is_some() {
            return Err("URL contains credentials".to_string());
        }
        if parsed.port.is_some() {
            return Err("URL contains an explicit port".to_string());
        }
        let host = match normalize_url_host(&parsed) {
            Some(h) => h,
            None => return Err("URL has no valid host".to_string()),
        };
        match self {
            WebPolicy::Offline => Err("offline policy blocks navigation".to_string()),
            WebPolicy::AllowList(list) => {
                if on_list(host.as_str(), list) {
                    Ok(())
                } else {
                    let mut m = "host is not on the allow-list: ".to_string();
                    m.append(host.as_str());
                    Err(m)
                }
            },
        }
    }

    /// Whether the policy admits `url`.
    pub fn allows(&self, url: &str) -> (b: bool)
        ensures
            b == verdict(allow_of(*self), url@) is Ok,
    {
        self.evaluate(url).is_ok()
    }
}

/// The web leaf: the URL it was asked for, and why it was blocked, if it was.
pub struct WebViewModel {
    pub state: LeafState,
    pub policy: WebPolicy,
    pub url: String,
    pub blocked_reason: Option<String>,
    /// Intents waiting for the host, oldest first.
    pub intents: IntentQueue,
}

impl WebViewModel {
    pub fn new(policy: WebPolicy) -> (m: Self)
        ensures
            m.policy == policy,
            m.url@.len() == 0,
            m.blocked_reason is None,
            m.intents@.len() == 0,
    {
        WebViewModel { state: LeafState::default(), policy, url: String::new(), blocked_reason: None, intents: IntentQueue::default() }
    }

    /// Records `url`; an admitted URL clears the blocked reason and asks the
    /// host to open it, a refused one records why.
    pub fn navigate(&mut self, url: &str)
        ensures
            final(self).url@ == url@,
            final(self).policy == old(self).policy,
            verdict(allow_of(old(self).policy), url@) is Ok ==> final(self).blocked_reason is None
                && final(self).intents@.len() == old(self).intents@.len() + 1
                && final(self).intents@.drop_last() == old(self).intents@
                && (final(self).intents@.last() matches MediaIntent::OpenExternal(u) && u@ == url@),
            verdict(allow_of(old(self).policy), url@) matches Err(m) ==> (final(self).blocked_reason matches Some(b) && b@ == m)
                && final(self).intents@ == old(self).intents@,
    {
        self.url = url.to_string();
        match self.policy.evaluate(url) {
            Ok(()) => {
                self.blocked_reason = None;
                let ghost before = self.intents@;
                self.intents.push(MediaIntent::OpenExternal(url.to_string()));
                proof {
                    assert(self.intents@.drop_last() =~= before);
                }
            },
            Err(reason) => {
                self.blocked_reason = Some(reason);
            },
        }
    }

    /// Takes the queued intents, oldest first.
    pub fn take_intents(&mut self) -> (v: Vec<MediaIntent>)
        ensures
            v@ == old(self).intents@,
            final(self).intents@.len() == 0,
            final(self).url == old(self).url,
            final(self).blocked_reason == old(self).blocked_reason,
    {
        self.intents.drain()
    }
}

/// A mountable web leaf.
pub struct WebView {
    pub model: WebViewModel,
}

impl WebView {
    pub fn new(model: WebViewModel) -> (v: Self)
        ensures
            v.model == model,
    {
        WebView { model }
    }
}

} // verus!
