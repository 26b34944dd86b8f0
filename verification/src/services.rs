//! Small, transport-free boundaries for first-party services and platform behavior.
//!
//! This module deliberately holds no server client, credentials, or endpoint
//! defaults.  Callers supply a transport and decide when network access is
//! appropriate.  Unknown JSON fields are retained on wire-facing records.
use vstd::prelude::*;
use crate::textmap::TextMap;

pub mod auth;
pub mod files;
pub mod intents;
pub mod publish;
pub mod sync;
pub mod uri;
pub mod web;

verus! {

#[verifier::external_type_specification]
#[verifier::external_body]
pub struct ExJsonValue(serde_json::Value);

/// JSON fields that a record does not interpret but keeps.
pub type ExtraFields = TextMap<serde_json::Value>;

/// A secret whose text is only reachable through [`Secret::expose`].
#[derive(Clone, PartialEq, Eq)]
pub struct Secret(String);

impl View for Secret {
    type V = Seq<char>;

    closed spec fn view(&self) -> Seq<char> {
        self.0@
    }
}

impl Secret {
    pub fn new(value: &str) -> (s: Self)
        ensures
            s@ == value@,
    {
        Secret(value.to_owned())
    }

    pub fn expose(&self) -> (s: &str)
        ensures
            s@ == self@,
    {
        self.0.as_str()
    }
}

#[derive(Clone, Copy, Debug, PartialEq, Eq, Structural)]
pub enum Connectivity {
    Offline,
    Unauthenticated,
    Degraded,
    Online,
}

#[derive(Clone, Copy, Debug, Default, PartialEq, Eq, Structural)]
pub struct TelemetryConsent {
    pub enabled: bool,
    pub explicit: bool,
}

#[derive(Clone, Copy, Debug, PartialEq, Eq, Structural)]
pub struct PlatformCapabilities {
    pub network: bool,
    pub filesystem: bool,
    pub printing: bool,
    pub updates: bool,
    pub degraded: bool,
}

/// A deterministic transport for tests; it never performs I/O.
pub struct MockTransport {
    pub responses: TextMap<Vec<u8>>,
    pub requests: Vec<String>,
}

impl Default for MockTransport {
    fn default() -> (t: Self)
        ensures
            t.responses.map() == Map::<Seq<char>, Vec<u8>>::empty(),
            t.requests@ == Seq::<String>::empty(),
    {
        MockTransport { responses: TextMap::new(), requests: Vec::new() }
    }
}

impl MockTransport {
    /// Registers the body returned for `key`, replacing any earlier one.
    pub fn respond(&mut self, key: &str, body: Vec<u8>)
        ensures
            final(self).responses.map() == old(self).responses.map().insert(key@, body),
            final(self).requests@ == old(self).requests@,
    {
        self.responses.insert(key.to_owned(), body);
    }

    /// Records the request and answers with the registered body, if any.
    pub fn request(&mut self, key: &str) -> (r: Option<Vec<u8>>)
        ensures
            final(self).requests@.len() == old(self).requests@.len() + 1,
            final(self).requests@.take(old(self).requests@.len() as int) == old(self).requests@,
            final(self).requests@.last()@ == key@,
            final(self).responses.map() == old(self).responses.map(),
            r matches Some(b) ==> old(self).responses.map().contains_key(key@) && b@ == old(self).responses.map()[key@]@,
            r is None ==> !old(self).responses.map().contains_key(key@),
    {
        self.requests.push(key.to_owned());
        proof {
            assert(self.requests@.take(old(self).requests@.len() as int) =~= old(self).requests@);
        }
        match self.responses.get(key) {
            Some(b) => Some(copy_bytes(b)),
            None => None,
        }
    }
}

/// A fresh vector holding the same bytes.
pub fn copy_bytes(b: &Vec<u8>) -> (r: Vec<u8>)
    ensures
        r@ == b@,
{
    let mut r: Vec<u8> = Vec::new();
    let mut i: usize = 0;
    while i < b.len()
        invariant
            i <= b@.len(),
            r@ == b@.take(i as int),
        decreases b@.len() - i,
    {
        r.push(b[i]);
        proof {
            assert(r@ =~= b@.take(i + 1));
        }
        i = i + 1;
    }
    proof {
        assert(b@.take(b@.len() as int) =~= b@);
    }
    r
}

} // verus!
