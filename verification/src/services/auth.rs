//! Session states and their transitions.
use vstd::prelude::*;
use crate::services::{ExtraFields, Secret};
use crate::textmap::TextMap;

verus! {

#[derive(Clone, Debug, PartialEq, Eq)]
pub enum SessionState {
    SignedOut,
    Authenticating,
    Authenticated { account_id: String },
    Expired,
    Degraded,
}

#[derive(Debug, Clone, Copy, PartialEq, Eq, Structural)]
pub enum Error {
    InvalidTransition,
    MissingCredentials,
    TransportUnavailable,
}

/// An authentication session; tokens are kept as [`Secret`]s.
pub struct Session {
    pub state: SessionState,
    pub access_token: Option<Secret>,
    pub refresh_token: Option<Secret>,
    pub extra: ExtraFields,
}

/// Whether a login may start from this state.
pub open spec fn may_begin_login(s: SessionState) -> bool {
    match s {
        SessionState::SignedOut | SessionState::Expired | SessionState::Degraded => true,
        _ => false,
    }
}

impl Session {
    pub fn signed_out() -> (s: Self)
        ensures
            s.state == SessionState::SignedOut,
            s.access_token is None,
            s.refresh_token is None,
            s.extra.map() == Map::<Seq<char>, serde_json::Value>::empty(),
    {
        Session { state: SessionState::SignedOut, access_token: None, refresh_token: None, extra: TextMap::new() }
    }

    /// Starts a login from a signed-out, expired, or degraded session.
    pub fn begin_login(&mut self) -> (r: Result<(), Error>)
        ensures
            may_begin_login(old(self).state) ==> r is Ok && final(self).state == SessionState::Authenticating,
            !may_begin_login(old(self).state) ==> r == Err::<(), Error>(Error::InvalidTransition)
                && final(self).state == old(self).state,
            final(self).access_token == old(self).access_token,
            final(self).refresh_token == old(self).refresh_token,
            final(self).extra == old(self).extra,
    {
        let ok = match self.state {
            SessionState::SignedOut | SessionState::Expired | SessionState::Degraded => true,
            _ => false,
        };
        if ok {
            self.state = SessionState::Authenticating;
            Ok(())
        } else {
            Err(Error::InvalidTransition)
        }
    }

    /// Completes a login that is in progress, storing the tokens.
    pub fn authenticated(&mut self, account_id: &str, access: Secret, refresh: Option<Secret>) -> (r: Result<(), Error>)
        ensures
            old(self).state is Authenticating ==> r is Ok
                && final(self).state == (SessionState::Authenticated { account_id: final(self).state->account_id })
                && final(self).state->account_id@ == account_id@
                && final(self).access_token == Some(access)
                && final(self).refresh_token == refresh,
            !(old(self).state is Authenticating) ==> r == Err::<(), Error>(Error::InvalidTransition)
                && final(self).state == old(self).state
                && final(self).access_token == old(self).access_token
                && final(self).refresh_token == old(self).refresh_token,
            final(self).extra == old(self).extra,
    {
        if let SessionState::Authenticating = self.state {
            self.state = SessionState::Authenticated { account_id: account_id.to_owned() };
            self.access_token = Some(access);
            self.refresh_token = refresh;
            Ok(())
        } else {
            Err(Error::InvalidTransition)
        }
    }

    /// Signs out and forgets both tokens.
    pub fn sign_out(&mut self)
        ensures
            final(self).state == SessionState::SignedOut,
            final(self).access_token is None,
            final(self).refresh_token is None,
            final(self).extra == old(self).extra,
    {
        self.state = SessionState::SignedOut;
        self.access_token = None;
        self.refresh_token = None;
    }
}

} // verus!
