use tachylyte::account::{
    AccountIntent, AccountModel, AccountStatus, PublishIntent, PublishModel, SyncIntent,
    SyncModel,
};
use tachylyte::services::auth::Session;
use tachylyte::services::sync::{Resolution, VersionVector};
use tachylyte::services::Connectivity;

#[test]
fn account_status_maps_session_and_connectivity() {
    let mut session = Session::signed_out();
    assert_eq!(
        AccountModel::new(Session::signed_out(), Connectivity::Online).status,
        AccountStatus::SignedOut
    );
    session.begin_login().unwrap();
    assert_eq!(
        AccountModel::new(session, Connectivity::Online).status,
        AccountStatus::SigningIn
    );
    assert_eq!(
        AccountModel::new(Session::signed_out(), Connectivity::Offline).status,
        AccountStatus::Offline
    );
}

#[test]
fn intents_are_typed_and_drained() {
    let mut account = AccountModel::new(Session::signed_out(), Connectivity::Online);
    account.request_login();
    account.request_logout();
    assert_eq!(
        account.drain_intents(),
        vec![AccountIntent::Login, AccountIntent::Logout]
    );

    let mut sync = SyncModel::new(Connectivity::Online);
    sync.set_selective_folder("Notes".into(), true);
    sync.request_pause();
    assert_eq!(sync.drain_intents().len(), 2);
}

#[test]
fn publish_intents_never_contain_credentials() {
    let mut publish = PublishModel::new(true, Connectivity::Online);
    publish.set_site("Docs".into(), "/docs".into());
    publish.toggle_file("index.md".into());
    publish.request_publish();
    assert!(matches!(
        publish.drain_intents().as_slice(),
        [
            PublishIntent::SetSiteConfig(_),
            PublishIntent::SelectFiles(_),
            PublishIntent::Publish
        ]
    ));
}

#[test]
fn toggles_and_resolution_requests_are_recorded() {
    let mut publish = PublishModel::new(false, Connectivity::Offline);
    assert!(publish.offline);
    publish.toggle_file("a.md".into());
    publish.toggle_file("a.md".into());
    assert!(!publish.selected_files.contains("a.md"));

    let mut sync = SyncModel::with_backend(false, Connectivity::Offline);
    assert!(sync.offline && !sync.backend_configured);
    sync.request_resolve("missing".into(), Resolution::KeepLocal);
    assert!(sync.drain_intents().is_empty());
    let plan = tachylyte::services::sync::SyncPlan::new(tachylyte::services::sync::ConflictPolicy::RequireReview);
    sync.conflicts.push(plan.conflict("a.md", VersionVector::default(), VersionVector::default()));
    sync.request_resolve("a.md".into(), Resolution::KeepRemote);
    let intents = sync.drain_intents();
    assert_eq!(intents.len(), 1);
    match &intents[0] {
        SyncIntent::ResolveConflict { conflict, resolution } => {
            assert_eq!(conflict.resource, "a.md");
            assert_eq!(*resolution, Resolution::KeepRemote);
        }
        _ => panic!("expected a resolution intent"),
    }
    sync.toggle_enabled();
    assert!(sync.enabled);
}
