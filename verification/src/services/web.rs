//! Navigation policy for web content.
use vstd::prelude::*;
use crate::text::{match_at, chars_of, find_from, lemma_find_from_agrees, find_seq, lower_ascii_range, lower_ascii_seq, string_from_chars, vec_eq};
use crate::textmap::TextSet;

verus! {

pub struct NavigationPolicy {
    pub allowed_hosts: TextSet,
    pub allow_external: bool,
}

/// A URL that passed a [`NavigationPolicy`].
#[derive(Clone, Debug, PartialEq, Eq)]
pub struct SafeUrl(String);

impl View for SafeUrl {
    type V = Seq<char>;

    closed spec fn view(&self) -> Seq<char> {
        self.0@
    }
}

#[derive(Clone, Copy, Debug, PartialEq, Eq, Structural)]
pub enum UrlError {
    Malformed,
    UnsafeScheme,
    HostDenied,
}

#[derive(Clone, Debug, PartialEq, Eq)]
pub struct DownloadIntent {
    pub url: String,
    pub filename: String,
}

/// The length of the host part: the characters before the first `/`, `?` or `#`.
pub open spec fn host_len(s: Seq<char>) -> int
    decreases s.len(),
{
    if s.len() == 0 {
        0
    } else if s[0] == '/' || s[0] == '?' || s[0] == '#' {
        0
    } else {
        1 + host_len(s.drop_first())
    }
}

/// The verdict on `raw`: it must be `scheme://rest` with an `http` or `https`
/// scheme (in any ASCII case) and a non-empty host that the policy admits.
pub open spec fn spec_navigation(raw: Seq<char>, allow_external: bool, hosts: Set<Seq<char>>) -> Result<(), UrlError> {
    match find_seq(raw, "://"@) {
        None => Err(UrlError::Malformed),
        Some(i) => {
            let scheme = lower_ascii_seq(raw.take(i));
            if scheme != "https"@ && scheme != "http"@ {
                Err(UrlError::UnsafeScheme)
            } else {
                let rest = raw.skip(i + 3);
                let host = lower_ascii_seq(rest.take(host_len(rest)));
                if host.len() == 0 || (!allow_external && !hosts.contains(host)) {
                    Err(UrlError::HostDenied)
                } else {
                    Ok(())
                }
            }
        },
    }
}

proof fn lemma_host_len_bounds(s: Seq<char>)
    ensures
        0 <= host_len(s) <= s.len(),
    decreases s.len(),
{
    if s.len() > 0 {
        lemma_host_len_bounds(s.drop_first());
    }
}

impl SafeUrl {
    pub fn parse(raw: &str, policy: &NavigationPolicy) -> (r: Result<Self, UrlError>)
        ensures
            spec_navigation(raw@, policy.allow_external, policy.allowed_hosts.set()) is Ok ==> (r matches Ok(u) && u@ == raw@),
            spec_navigation(raw@, policy.allow_external, policy.allowed_hosts.set()) matches Err(e) ==> r == Err::<Self, UrlError>(e),
    {
        let cs = chars_of(raw);
        let sep = chars_of("://");
        let found = find_from(&cs, 0, &sep);
        proof {
            lemma_find_from_agrees(cs@, 0, sep@, match found { Some(i) => Some(i as int), None => None });
            assert(cs@.skip(0) =~= cs@);
        }
        let i = match found {
            None => return Err(UrlError::Malformed),
            Some(i) => i,
        };
        proof {
            reveal_strlit("://");
            assert(sep@.len() == 3);
            assert(match_at(cs@, i as int, sep@));
            assert(i + 3 <= cs@.len());
            assert(cs@.take(i as int) =~= cs@.subrange(0, i as int));
        }
        let scheme = lower_ascii_range(&cs, 0, i);
        let https = chars_of("https");
        let http = chars_of("http");
        if !vec_eq(&scheme, &https) && !vec_eq(&scheme, &http) {
            return Err(UrlError::UnsafeScheme);
        }
        let n = cs.len();
        let start = i + 3;
        let mut k = start;
        proof {
            assert(cs@.skip(start as int).skip(0) =~= cs@.skip(start as int));
        }
        while k < cs.len() && cs[k] != '/' && cs[k] != '?' && cs[k] != '#'
            invariant
                start <= k <= cs@.len(),
                host_len(cs@.skip(start as int)) == (k - start) + host_len(cs@.skip(k as int)),
            decreases cs@.len() - k,
        {
            proof {
                assert(cs@.skip(k as int).drop_first() =~= cs@.skip(k + 1));
            }
            k = k + 1;
        }
        proof {
            assert(host_len(cs@.skip(k as int)) == 0);
            assert(cs@.skip(start as int).take(k - start) =~= cs@.subrange(start as int, k as int));
        }
        let host = lower_ascii_range(&cs, start, k);
        if host.len() == 0 {
            return Err(UrlError::HostDenied);
        }
        let host_s = string_from_chars(&host);
        if !policy.allow_external && !policy.allowed_hosts.contains(host_s.as_str()) {
            return Err(UrlError::HostDenied);
        }
        Ok(SafeUrl(raw.to_owned()))
    }

    pub fn as_str(&self) -> (s: &str)
        ensures
            s@ == self@,
    {
        self.0.as_str()
    }
}

/// Checks a navigation request against the policy.
pub fn navigation(policy: &NavigationPolicy, raw: &str) -> (r: Result<SafeUrl, UrlError>)
    ensures
        spec_navigation(raw@, policy.allow_external, policy.allowed_hosts.set()) is Ok ==> (r matches Ok(u) && u@ == raw@),
        spec_navigation(raw@, policy.allow_external, policy.allowed_hosts.set()) matches Err(e) ==> r == Err::<SafeUrl, UrlError>(e),
{
    SafeUrl::parse(raw, policy)
}

} // verus!
