//! State and typed intents for the account, sync and publish settings surfaces.
use vstd::prelude::*;
use crate::services::auth::{Session, SessionState};
use crate::services::publish::{ManifestDiff, PublishManifest, SiteConfig};
use crate::services::sync::{Conflict, Resolution, SyncState, VersionVector};
use crate::services::Connectivity;
use crate::textmap::{TextMap, TextSet};

verus! {

#[derive(Clone, Debug, PartialEq, Eq)]
pub enum AccountStatus {
    SignedOut,
    SigningIn,
    SignedIn { account_id: String },
    Error(String),
    Offline,
}

#[derive(Clone, Copy, Debug, PartialEq, Eq, Structural)]
pub enum AccountIntent {
    Login,
    Logout,
}

pub struct AccountModel {
    pub status: AccountStatus,
    pub intents: Vec<AccountIntent>,
}

/// The text shown for a degraded session.
pub open spec fn degraded_message() -> Seq<char> {
    "session degraded"@
}

/// Whether `status` is what a session in `state` shows under `connectivity`.
pub open spec fn status_matches(status: AccountStatus, state: SessionState, connectivity: Connectivity) -> bool {
    if connectivity == Connectivity::Offline {
        status == AccountStatus::Offline
    } else {
        match state {
            SessionState::SignedOut | SessionState::Expired => status == AccountStatus::SignedOut,
            SessionState::Authenticating => status == AccountStatus::SigningIn,
            SessionState::Authenticated { account_id } => status == (AccountStatus::SignedIn { account_id }),
            SessionState::Degraded => status matches AccountStatus::Error(m) && m@ == degraded_message(),
        }
    }
}

impl AccountModel {
    pub fn new(session: Session, connectivity: Connectivity) -> (m: Self)
        ensures
            status_matches(m.status, session.state, connectivity),
            m.intents@.len() == 0,
    {
        let status = if connectivity == Connectivity::Offline {
            AccountStatus::Offline
        } else {
            match session.state {
                SessionState::SignedOut | SessionState::Expired => AccountStatus::SignedOut,
                SessionState::Authenticating => AccountStatus::SigningIn,
                SessionState::Authenticated { account_id } => AccountStatus::SignedIn { account_id },
                SessionState::Degraded => AccountStatus::Error("session degraded".to_owned()),
            }
        };
        AccountModel { status, intents: Vec::new() }
    }

    pub fn request_login(&mut self)
        ensures
            final(self).intents@ == old(self).intents@.push(AccountIntent::Login),
            final(self).status == old(self).status,
    {
        self.intents.push(AccountIntent::Login);
    }

    pub fn request_logout(&mut self)
        ensures
            final(self).intents@ == old(self).intents@.push(AccountIntent::Logout),
            final(self).status == old(self).status,
    {
        self.intents.push(AccountIntent::Logout);
    }

    /// Returns the pending intents, oldest first, and leaves none pending.
    pub fn drain_intents(&mut self) -> (out: Vec<AccountIntent>)
        ensures
            out@ == old(self).intents@,
            final(self).intents@.len() == 0,
            final(self).status == old(self).status,
    {
        let mut out = Vec::new();
        std::mem::swap(&mut out, &mut self.intents);
        out
    }
}

pub struct Device {
    pub id: String,
    pub name: String,
    pub platform: String,
    pub last_seen: String,
    pub current: bool,
}

pub struct ActivityEntry {
    pub summary: String,
    pub detail: String,
}

pub enum SyncIntent {
    SetEnabled(bool),
    SetSelectiveFolders(TextSet),
    SetSelectiveSettings(TextSet),
    Pause,
    Resume,
    ResolveConflict { conflict: Conflict, resolution: Resolution },
}

pub struct SyncModel {
    pub enabled: bool,
    pub selective_folders: TextSet,
    pub selective_settings: TextSet,
    pub devices: Vec<Device>,
    pub activity: Vec<ActivityEntry>,
    pub conflicts: Vec<Conflict>,
    pub state: SyncState,
    pub paused: bool,
    pub backend_configured: bool,
    pub offline: bool,
    pub intents: Vec<SyncIntent>,
}

/// `s` has the members of `base` with `item` added or removed.
pub open spec fn toggled_member(base: Set<Seq<char>>, item: Seq<char>, selected: bool) -> Set<Seq<char>> {
    if selected {
        base.insert(item)
    } else {
        base.remove(item)
    }
}

/// `new` differs from `old` only by one more pending intent.
pub open spec fn one_more<T>(old: Seq<T>, new: Seq<T>) -> bool {
    new.len() == old.len() + 1 && new.take(old.len() as int) == old
}

/// A copy of a version vector with the same counters.
pub fn copy_vector(v: &VersionVector) -> (r: VersionVector)
    ensures
        r.0.map() == v.0.map(),
{
    VersionVector(v.0.duplicate())
}

/// A copy of a conflict with the same resource and versions.
pub fn copy_conflict(c: &Conflict) -> (r: Conflict)
    ensures
        r.resource@ == c.resource@,
        r.local.0.map() == c.local.0.map(),
        r.remote.0.map() == c.remote.0.map(),
{
    Conflict { resource: c.resource.clone(), local: copy_vector(&c.local), remote: copy_vector(&c.remote) }
}

impl SyncModel {
    pub fn new(connectivity: Connectivity) -> (m: Self)
        ensures
            !m.enabled,
            m.backend_configured,
            m.offline == (connectivity == Connectivity::Offline),
            m.state == (if connectivity == Connectivity::Offline { SyncState::Offline } else { SyncState::Ready }),
            !m.paused,
            m.selective_folders.set() == Set::<Seq<char>>::empty(),
            m.selective_settings.set() == Set::<Seq<char>>::empty(),
            m.devices@.len() == 0 && m.activity@.len() == 0 && m.conflicts@.len() == 0,
            m.intents@.len() == 0,
    {
        Self::with_backend(true, connectivity)
    }

    pub fn with_backend(backend_configured: bool, connectivity: Connectivity) -> (m: Self)
        ensures
            !m.enabled,
            m.backend_configured == backend_configured,
            m.offline == (connectivity == Connectivity::Offline),
            m.state == (if connectivity == Connectivity::Offline { SyncState::Offline } else { SyncState::Ready }),
            !m.paused,
            m.selective_folders.set() == Set::<Seq<char>>::empty(),
            m.selective_settings.set() == Set::<Seq<char>>::empty(),
            m.devices@.len() == 0 && m.activity@.len() == 0 && m.conflicts@.len() == 0,
            m.intents@.len() == 0,
    {
        let offline = connectivity == Connectivity::Offline;
        SyncModel {
            enabled: false,
            selective_folders: TextSet::new(),
            selective_settings: TextSet::new(),
            devices: Vec::new(),
            activity: Vec::new(),
            conflicts: Vec::new(),
            state: if offline { SyncState::Offline } else { SyncState::Ready },
            paused: false,
            backend_configured,
            offline,
            intents: Vec::new(),
        }
    }

    pub fn set_enabled(&mut self, enabled: bool)
        ensures
            final(self).enabled == enabled,
            final(self).intents@ == old(self).intents@.push(SyncIntent::SetEnabled(enabled)),
            final(self).paused == old(self).paused,
            final(self).selective_folders == old(self).selective_folders,
            final(self).selective_settings == old(self).selective_settings,
    {
        self.enabled = enabled;
        self.intents.push(SyncIntent::SetEnabled(enabled));
    }

    pub fn toggle_enabled(&mut self)
        ensures
            final(self).enabled == !old(self).enabled,
            final(self).intents@ == old(self).intents@.push(SyncIntent::SetEnabled(!old(self).enabled)),
            final(self).paused == old(self).paused,
    {
        let next = !self.enabled;
        self.set_enabled(next);
    }

    pub fn set_selective_folders(&mut self, folders: TextSet)
        ensures
            final(self).selective_folders.set() == folders.set(),
            final(self).intents@ == old(self).intents@.push(SyncIntent::SetSelectiveFolders(folders)),
            final(self).enabled == old(self).enabled,
            final(self).paused == old(self).paused,
    {
        self.selective_folders = folders.duplicate();
        self.intents.push(SyncIntent::SetSelectiveFolders(folders));
    }

    /// Adds or removes one folder and announces the resulting selection.
    pub fn set_selective_folder(&mut self, folder: String, selected: bool)
        ensures
            final(self).selective_folders.set() == toggled_member(old(self).selective_folders.set(), folder@, selected),
            one_more(old(self).intents@, final(self).intents@),
            final(self).intents@.last() matches SyncIntent::SetSelectiveFolders(s)
                && s.set() == toggled_member(old(self).selective_folders.set(), folder@, selected),
            final(self).enabled == old(self).enabled,
            final(self).paused == old(self).paused,
    {
        let mut folders = self.selective_folders.duplicate();
        if selected {
            folders.insert(folder);
        } else {
            folders.remove(folder.as_str());
        }
        self.set_selective_folders(folders);
        proof {
            assert(self.intents@.take(old(self).intents@.len() as int) =~= old(self).intents@);
        }
    }

    pub fn set_selective_settings(&mut self, settings: TextSet)
        ensures
            final(self).selective_settings.set() == settings.set(),
            final(self).intents@ == old(self).intents@.push(SyncIntent::SetSelectiveSettings(settings)),
            final(self).enabled == old(self).enabled,
            final(self).paused == old(self).paused,
    {
        self.selective_settings = settings.duplicate();
        self.intents.push(SyncIntent::SetSelectiveSettings(settings));
    }

    /// Adds or removes one setting and announces the resulting selection.
    pub fn set_selective_setting(&mut self, setting: String, selected: bool)
        ensures
            final(self).selective_settings.set() == toggled_member(old(self).selective_settings.set(), setting@, selected),
            one_more(old(self).intents@, final(self).intents@),
            final(self).intents@.last() matches SyncIntent::SetSelectiveSettings(s)
                && s.set() == toggled_member(old(self).selective_settings.set(), setting@, selected),
            final(self).enabled == old(self).enabled,
            final(self).paused == old(self).paused,
    {
        let mut settings = self.selective_settings.duplicate();
        if selected {
            settings.insert(setting);
        } else {
            settings.remove(setting.as_str());
        }
        self.set_selective_settings(settings);
        proof {
            assert(self.intents@.take(old(self).intents@.len() as int) =~= old(self).intents@);
        }
    }

    pub fn request_pause(&mut self)
        ensures
            final(self).paused,
            final(self).intents@ == old(self).intents@.push(SyncIntent::Pause),
            final(self).enabled == old(self).enabled,
    {
        self.paused = true;
        self.intents.push(SyncIntent::Pause);
    }

    pub fn request_resume(&mut self)
        ensures
            !final(self).paused,
            final(self).intents@ == old(self).intents@.push(SyncIntent::Resume),
            final(self).enabled == old(self).enabled,
    {
        self.paused = false;
        self.intents.push(SyncIntent::Resume);
    }

    pub fn pause(&mut self)
        ensures
            final(self).paused,
            final(self).intents@ == old(self).intents@.push(SyncIntent::Pause),
            final(self).enabled == old(self).enabled,
    {
        self.request_pause();
    }

    pub fn resume(&mut self)
        ensures
            !final(self).paused,
            final(self).intents@ == old(self).intents@.push(SyncIntent::Resume),
            final(self).enabled == old(self).enabled,
    {
        self.request_resume();
    }

    /// Requests resolution of the first conflict on `resource`; without one, nothing happens.
    pub fn request_resolve(&mut self, resource: String, resolution: Resolution)
        ensures
            (forall|i: int| 0 <= i < old(self).conflicts@.len() ==> (#[trigger] old(self).conflicts@[i]).resource@ != resource@)
                ==> final(self).intents@ == old(self).intents@,
            (exists|i: int| 0 <= i < old(self).conflicts@.len() && (#[trigger] old(self).conflicts@[i]).resource@ == resource@) ==> {
                &&& one_more(old(self).intents@, final(self).intents@)
                &&& final(self).intents@.last() matches SyncIntent::ResolveConflict { conflict, resolution: r }
                &&& r == resolution
                &&& exists|i: int| #![trigger old(self).conflicts@[i]] 0 <= i < old(self).conflicts@.len()
                    && old(self).conflicts@[i].resource@ == resource@
                    && (forall|j: int| 0 <= j < i ==> (#[trigger] old(self).conflicts@[j]).resource@ != resource@)
                    && conflict.resource@ == resource@
                    && conflict.local.0.map() == old(self).conflicts@[i].local.0.map()
                    && conflict.remote.0.map() == old(self).conflicts@[i].remote.0.map()
            },
            final(self).conflicts@ == old(self).conflicts@,
    {
        let mut i: usize = 0;
        while i < self.conflicts.len()
            invariant
                i <= self.conflicts@.len(),
                self.conflicts@ == old(self).conflicts@,
                self.intents@ == old(self).intents@,
                forall|j: int| 0 <= j < i ==> (#[trigger] self.conflicts@[j]).resource@ != resource@,
            decreases self.conflicts@.len() - i,
        {
            if crate::text::str_eq(self.conflicts[i].resource.as_str(), resource.as_str()) {
                let c = copy_conflict(&self.conflicts[i]);
                self.resolve_conflict(c, resolution);
                proof {
                    assert(self.intents@.take(old(self).intents@.len() as int) =~= old(self).intents@);
                    assert(old(self).conflicts@[i as int].resource@ == resource@);
                }
                return;
            }
            i = i + 1;
        }
    }

    pub fn resolve_conflict(&mut self, conflict: Conflict, resolution: Resolution)
        ensures
            final(self).intents@ == old(self).intents@.push(SyncIntent::ResolveConflict { conflict, resolution }),
            final(self).conflicts@ == old(self).conflicts@,
            final(self).enabled == old(self).enabled,
            final(self).paused == old(self).paused,
    {
        self.intents.push(SyncIntent::ResolveConflict { conflict, resolution });
    }

    /// Returns the pending intents, oldest first, and leaves none pending.
    pub fn drain_intents(&mut self) -> (out: Vec<SyncIntent>)
        ensures
            out@ == old(self).intents@,
            final(self).intents@.len() == 0,
            final(self).enabled == old(self).enabled,
            final(self).paused == old(self).paused,
    {
        let mut out = Vec::new();
        std::mem::swap(&mut out, &mut self.intents);
        out
    }
}

pub enum PublishIntent {
    SetSiteConfig(SiteConfig),
    SelectFiles(TextSet),
    Publish,
    Unpublish,
}

pub struct PublishModel {
    pub backend_configured: bool,
    pub offline: bool,
    pub site: Option<SiteConfig>,
    pub available_files: Vec<String>,
    pub selected_files: TextSet,
    pub current_manifest: Option<PublishManifest>,
    pub preview: Vec<ManifestDiff>,
    pub intents: Vec<PublishIntent>,
}

/// A copy of site settings with the same title, base path and extra keys.
pub fn copy_site(site: &SiteConfig) -> (r: SiteConfig)
    ensures
        r.title@ == site.title@,
        r.base_path@ == site.base_path@,
        r.extra.map().dom() == site.extra.map().dom(),
{
    let extra = site.extra.clone();
    proof {
        assert forall|k: Seq<char>| extra.map().contains_key(k) == site.extra.map().contains_key(k) by {
            if extra.map().contains_key(k) {
                let j = crate::textmap::key_index(extra.pairs(), k);
                assert(site.extra.pairs()[j].0 == k);
            }
            if site.extra.map().contains_key(k) {
                let j = crate::textmap::key_index(site.extra.pairs(), k);
                assert(extra.pairs()[j].0 == k);
            }
        }
        assert(extra.map().dom() =~= site.extra.map().dom());
    }
    SiteConfig { title: site.title.clone(), base_path: site.base_path.clone(), extra }
}

/// The selection after toggling `path`: removed when present, added otherwise.
pub open spec fn toggled_file(base: Set<Seq<char>>, path: Seq<char>) -> Set<Seq<char>> {
    if base.contains(path) {
        base.remove(path)
    } else {
        base.insert(path)
    }
}

impl PublishModel {
    pub fn new(backend_configured: bool, connectivity: Connectivity) -> (m: Self)
        ensures
            m.backend_configured == backend_configured,
            m.offline == (connectivity == Connectivity::Offline),
            m.site is None,
            m.available_files@.len() == 0,
            m.selected_files.set() == Set::<Seq<char>>::empty(),
            m.current_manifest is None,
            m.preview@.len() == 0,
            m.intents@.len() == 0,
    {
        PublishModel {
            backend_configured,
            offline: connectivity == Connectivity::Offline,
            site: None,
            available_files: Vec::new(),
            selected_files: TextSet::new(),
            current_manifest: None,
            preview: Vec::new(),
            intents: Vec::new(),
        }
    }

    pub fn set_site_config(&mut self, site: SiteConfig)
        ensures
            final(self).site matches Some(s) && s.title@ == site.title@ && s.base_path@ == site.base_path@,
            final(self).intents@ == old(self).intents@.push(PublishIntent::SetSiteConfig(site)),
            final(self).selected_files == old(self).selected_files,
    {
        self.site = Some(copy_site(&site));
        self.intents.push(PublishIntent::SetSiteConfig(site));
    }

    /// Sets the site from a title and base path, with no extra fields.
    pub fn set_site(&mut self, title: String, base_path: String)
        ensures
            final(self).site matches Some(s) && s.title@ == title@ && s.base_path@ == base_path@,
            one_more(old(self).intents@, final(self).intents@),
            final(self).intents@.last() matches PublishIntent::SetSiteConfig(s)
                && s.title@ == title@ && s.base_path@ == base_path@
                && s.extra.map() == Map::<Seq<char>, serde_json::Value>::empty(),
            final(self).selected_files == old(self).selected_files,
    {
        self.set_site_config(SiteConfig { title, base_path, extra: TextMap::new() });
        proof {
            assert(self.intents@.take(old(self).intents@.len() as int) =~= old(self).intents@);
        }
    }

    pub fn select_files(&mut self, files: TextSet)
        ensures
            final(self).selected_files.set() == files.set(),
            final(self).intents@ == old(self).intents@.push(PublishIntent::SelectFiles(files)),
    {
        self.selected_files = files.duplicate();
        self.intents.push(PublishIntent::SelectFiles(files));
    }

    /// Selects `path` when unselected, unselects it otherwise, and announces the selection.
    pub fn toggle_file(&mut self, path: String)
        ensures
            final(self).selected_files.set() == toggled_file(old(self).selected_files.set(), path@),
            one_more(old(self).intents@, final(self).intents@),
            final(self).intents@.last() matches PublishIntent::SelectFiles(s)
                && s.set() == toggled_file(old(self).selected_files.set(), path@),
    {
        let mut files = self.selected_files.duplicate();
        if !files.remove(path.as_str()) {
            files.insert(path);
        }
        self.select_files(files);
        proof {
            assert(self.intents@.take(old(self).intents@.len() as int) =~= old(self).intents@);
        }
    }

    pub fn request_publish(&mut self)
        ensures
            final(self).intents@ == old(self).intents@.push(PublishIntent::Publish),
            final(self).selected_files == old(self).selected_files,
    {
        self.intents.push(PublishIntent::Publish);
    }

    pub fn request_unpublish(&mut self)
        ensures
            final(self).intents@ == old(self).intents@.push(PublishIntent::Unpublish),
            final(self).selected_files == old(self).selected_files,
    {
        self.intents.push(PublishIntent::Unpublish);
    }

    pub fn publish(&mut self)
        ensures
            final(self).intents@ == old(self).intents@.push(PublishIntent::Publish),
            final(self).selected_files == old(self).selected_files,
    {
        self.request_publish();
    }

    pub fn unpublish(&mut self)
        ensures
            final(self).intents@ == old(self).intents@.push(PublishIntent::Unpublish),
            final(self).selected_files == old(self).selected_files,
    {
        self.request_unpublish();
    }

    /// Returns the pending intents, oldest first, and leaves none pending.
    pub fn drain_intents(&mut self) -> (out: Vec<PublishIntent>)
        ensures
            out@ == old(self).intents@,
            final(self).intents@.len() == 0,
            final(self).selected_files == old(self).selected_files,
    {
        let mut out = Vec::new();
        std::mem::swap(&mut out, &mut self.intents);
        out
    }
}

} // verus!
