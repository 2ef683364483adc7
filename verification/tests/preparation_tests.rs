use quartz::component::{ComponentSpec, Limits};
use quartz::composition::CompositionPatch;
use quartz::digest::sha256_hex;
use quartz::error::{DeclarationIssue, Error, JournalIssue, PatchIssue, PersistenceIssue};
use quartz::exchange::ExchangeGrant;
use quartz::journal::{EventGrant, SnapshotGrant};
use quartz::manifest::{BindingKind, ComponentDeclaration, HostCapability, Manifest, ProvidedBinding, RequiredBinding};
use quartz::preparation::{
    check_artifact_digest,
    check_activation_bound, check_authority, check_child, check_patch, check_placement, check_snapshot_count,
    check_bootstrap, check_snapshot_digest, check_snapshot_grant, check_snapshot_size, is_single_segment, path_depth,
    recovered_next_event_id,
};
use quartz::repository::WorkspaceGrant;

fn manifest(capabilities: Vec<HostCapability>) -> Manifest {
    Manifest {
        abi: 11,
        module: "m".into(),
        version: "1".into(),
        execution_mode: "wasm-component".into(),
        requested_host_capabilities: capabilities,
        component: ComponentDeclaration {
            id: "planner".into(),
            config_schema: "u64".into(),
            max_activation_steps: 64,
            inject: vec![],
            provide: vec![],
        },
    }
}

fn spec(entry: &str) -> ComponentSpec {
    ComponentSpec::new(entry.into(), format!("/artifacts/{entry}.wasm"))
}

fn declaration(path: &str, issue: DeclarationIssue) -> Result<(), Error> {
    Err(Error::Declaration { path: path.into(), issue })
}

fn event(namespace: &str, name: &str, revision: u32) -> EventGrant {
    EventGrant { namespace: namespace.into(), name: name.into(), revision }
}

fn exchange(adapter: &str) -> ExchangeGrant {
    ExchangeGrant::new(adapter.into(), "/state/exchange".into(), 1024, 4096, 1000)
}

fn snapshot(path: &str, provenance: &str) -> SnapshotGrant {
    SnapshotGrant {
        path: path.into(),
        provenance: provenance.into(),
        byte_len: 5,
        sha256: String::from_utf8(sha256_hex(b"hello")).unwrap(),
    }
}

#[test]
fn placement_counts_depth_and_entry() {
    let limits = Limits::default();
    assert_eq!(check_placement("app", 1, 1, &limits), Ok(()));
    assert_eq!(check_placement("app", 16, 128, &limits), Ok(()));
    assert_eq!(check_placement("app", 1, 129, &limits), Err(Error::ComponentLimit { actual: 129, limit: 128 }));
    assert_eq!(check_placement("a/b", 17, 129, &limits), Err(Error::ComponentLimit { actual: 129, limit: 128 }));
    assert_eq!(check_placement("app", 17, 3, &limits), Err(Error::DepthLimit { actual: 17, limit: 16 }));
    assert_eq!(check_placement("a/b", 2, 3, &limits), Err(Error::InvalidEntry("a/b".into())));
    assert_eq!(check_placement("", 2, 3, &limits), Err(Error::InvalidEntry(String::new())));
}

#[test]
fn segments_and_depths() {
    assert!(is_single_segment("worker"));
    assert!(!is_single_segment(""));
    assert!(!is_single_segment("app/worker"));
    assert_eq!(path_depth("app"), 1);
    assert_eq!(path_depth("app/worker/tool"), 3);
}

#[test]
fn patches_may_not_touch_the_persistence_root() {
    let patch = CompositionPatch::replace("kernel/store".into(), spec("store"));
    assert_eq!(check_patch(&patch, "tools", Some("kernel")), Err(Error::InvalidPatch(PatchIssue::PersistenceRoot)));
    let patch = CompositionPatch::remove_root("kernel".into());
    assert_eq!(check_patch(&patch, "tools", Some("kernel/store")), Err(Error::InvalidPatch(PatchIssue::PersistenceRoot)));
    let patch = CompositionPatch::add_root(spec("kernelx"));
    assert_eq!(check_patch(&patch, "tools", Some("kernel")), Ok(()));
}

#[test]
fn added_and_removed_roots_are_single_segments() {
    assert_eq!(
        check_patch(&CompositionPatch::add_root(spec("a/b")), "tools", None),
        Err(Error::InvalidPatch(PatchIssue::AddedRootEntry))
    );
    assert_eq!(
        check_patch(&CompositionPatch::remove_root(String::new()), "tools", None),
        Err(Error::InvalidPatch(PatchIssue::RemovedRootEntry))
    );
    assert_eq!(
        check_patch(&CompositionPatch::remove_root("app".into()), "app/planner", None),
        Err(Error::InvalidPatch(PatchIssue::RemovesSelfOrAncestor))
    );
    assert_eq!(check_patch(&CompositionPatch::remove_root("apps".into()), "app/planner", None), Ok(()));
}

#[test]
fn replacements_name_their_target_and_spare_the_requester() {
    assert_eq!(
        check_patch(&CompositionPatch::replace("app//x".into(), spec("x")), "tools", None),
        Err(Error::InvalidPatch(PatchIssue::EmptySegment))
    );
    assert_eq!(
        check_patch(&CompositionPatch::replace("app/worker".into(), spec("helper")), "tools", None),
        Err(Error::InvalidPatch(PatchIssue::ReplacementEntryMismatch))
    );
    assert_eq!(
        check_patch(&CompositionPatch::replace("app".into(), spec("app")), "app/planner", None),
        Err(Error::InvalidPatch(PatchIssue::ReplacesSelfOrAncestor))
    );
    assert_eq!(check_patch(&CompositionPatch::replace("app/worker".into(), spec("worker")), "app/planner", None), Ok(()));
    assert_eq!(check_patch(&CompositionPatch::replace("worker".into(), spec("worker")), "app", None), Ok(()));
}

#[test]
fn journals_and_streams_pair_with_paths_at_the_root() {
    let journal = manifest(vec![HostCapability::OpenJournal]);
    let bare = spec("kernel");
    assert_eq!(check_authority(&bare, &journal, "kernel", Some("kernel")), declaration("kernel", DeclarationIssue::JournalAuthority));
    let with_paths = spec("kernel").with_journal_paths(vec!["/state/journal".into()]);
    assert_eq!(check_authority(&with_paths, &manifest(vec![]), "kernel", Some("kernel")), declaration("kernel", DeclarationIssue::JournalAuthority));
    assert_eq!(check_authority(&with_paths, &journal, "kernel", Some("kernel")), Ok(()));
    assert_eq!(check_authority(&with_paths, &journal, "kernel", Some("other")), declaration("kernel", DeclarationIssue::JournalPathsReserved));
    assert_eq!(check_authority(&with_paths, &journal, "kernel", None), declaration("kernel", DeclarationIssue::JournalPathsReserved));
    let streams = spec("kernel").with_event_stream_paths(vec!["/state/events".into()]);
    assert_eq!(check_authority(&streams, &manifest(vec![]), "kernel", Some("kernel")), declaration("kernel", DeclarationIssue::EventStreamAuthority));
    let stream_manifest = manifest(vec![HostCapability::OpenEventStream]);
    assert_eq!(check_authority(&streams, &stream_manifest, "app/kernel", Some("kernel")), declaration("app/kernel", DeclarationIssue::EventStreamPathsReserved));
    assert_eq!(check_authority(&streams, &stream_manifest, "kernel", Some("kernel")), Ok(()));
}

#[test]
fn event_append_authority_of_one_kind_with_distinct_grants() {
    let mixed = manifest(vec![HostCapability::AppendEvent, HostCapability::ResumeExchange]);
    let granted = spec("app").with_event_grants(vec![event("quartz", "fact", 1)]);
    assert_eq!(check_authority(&granted, &mixed, "app", None), declaration("app", DeclarationIssue::MixedAppendAuthority));
    let append = manifest(vec![HostCapability::AppendEvent]);
    assert_eq!(check_authority(&spec("app"), &append, "app", None), declaration("app", DeclarationIssue::EventGrantAuthority));
    assert_eq!(check_authority(&granted, &manifest(vec![]), "app", None), declaration("app", DeclarationIssue::EventGrantAuthority));
    assert_eq!(check_authority(&granted, &append, "app", None), Ok(()));
    let invalid = spec("app").with_event_grants(vec![event("quartz", "fact", 1), event("quartz", "", 2)]);
    assert_eq!(check_authority(&invalid, &append, "app", None), declaration("app", DeclarationIssue::InvalidEventGrant));
    let duplicate = spec("app").with_event_grants(vec![event("quartz", "fact", 1), event("quartz", "fact", 1), event("", "x", 0)]);
    assert_eq!(check_authority(&duplicate, &append, "app", None), declaration("app", DeclarationIssue::DuplicateEventGrant));
    let revisions = spec("app").with_event_grants(vec![event("quartz", "fact", 1), event("quartz", "fact", 2)]);
    assert_eq!(check_authority(&revisions, &manifest(vec![HostCapability::ResumeEvent]), "app", None), Ok(()));
}

#[test]
fn snapshots_exchanges_and_workspaces_pair_with_grants() {
    let snapshots = spec("app").with_snapshot_grants(vec![snapshot("/in/task.json", "user")]);
    assert_eq!(check_authority(&snapshots, &manifest(vec![]), "app", None), declaration("app", DeclarationIssue::SnapshotAuthority));
    assert_eq!(check_authority(&snapshots, &manifest(vec![HostCapability::ResumeSnapshot]), "app", None), declaration("app", DeclarationIssue::EventGrantAuthority));
    assert_eq!(check_authority(&snapshots, &manifest(vec![HostCapability::ReadSnapshot]), "app", None), Ok(()));

    let exchanges = spec("app").with_exchange_grants(vec![exchange("model")]);
    assert_eq!(check_authority(&exchanges, &manifest(vec![HostCapability::Exchange]), "app", None), declaration("app", DeclarationIssue::ExchangeAuthority));
    let both = manifest(vec![HostCapability::OpenExchange, HostCapability::Exchange]);
    assert_eq!(check_authority(&spec("app"), &both, "app", None), declaration("app", DeclarationIssue::ExchangeAuthority));
    assert_eq!(check_authority(&exchanges, &both, "app", None), Ok(()));
    let repeated = spec("app").with_exchange_grants(vec![exchange("model"), exchange("search"), exchange("model")]);
    assert_eq!(check_authority(&repeated, &both, "app", None), declaration("app", DeclarationIssue::InvalidExchangeGrant));
    let unbounded = spec("app").with_exchange_grants(vec![ExchangeGrant::new("model".into(), "/l".into(), 1, 1, 0)]);
    assert_eq!(check_authority(&unbounded, &both, "app", None), declaration("app", DeclarationIssue::InvalidExchangeGrant));

    let read_only = manifest(vec![HostCapability::WorkspaceRead]);
    assert_eq!(check_authority(&spec("app"), &read_only, "app", None), declaration("app", DeclarationIssue::WorkspaceAuthority));
    let workspace = WorkspaceGrant {
        source_path: "/repo/a.txt".into(),
        ledger_path: "/repo/ledger".into(),
        operation: 1,
        provenance: "task".into(),
        before_sha256: String::from_utf8(sha256_hex(b"a")).unwrap(),
        result_sha256: String::from_utf8(sha256_hex(b"b")).unwrap(),
        max_bytes: 8,
    };
    let all = manifest(vec![HostCapability::WorkspaceRead, HostCapability::WorkspaceWrite, HostCapability::WorkspacePublish]);
    assert_eq!(check_authority(&spec("app"), &all, "app", None), declaration("app", DeclarationIssue::WorkspaceAuthority));
    assert_eq!(check_authority(&spec("app").with_workspace_grants(vec![workspace]), &all, "app", None), Ok(()));
    assert_eq!(check_authority(&spec("app"), &manifest(vec![HostCapability::SetState]), "app", None), Ok(()));
}

#[test]
fn activation_bound_and_distinct_children() {
    let limits = Limits::default();
    let mut m = manifest(vec![]);
    assert_eq!(check_activation_bound(&m, &limits), Ok(()));
    m.component.max_activation_steps = 1024;
    assert_eq!(check_activation_bound(&m, &limits), Ok(()));
    m.component.max_activation_steps = 1025;
    assert_eq!(check_activation_bound(&m, &limits), Err(Error::ActivationLimit("planner".into())));

    let children = vec![spec("planner"), spec("worker"), spec("planner")];
    assert_eq!(check_child("app", &children, 0), Ok("app/planner".to_string()));
    assert_eq!(check_child("app", &children, 1), Ok("app/worker".to_string()));
    assert_eq!(check_child("app", &children, 2), Err(Error::DuplicateEntry("app/planner".into())));
}

#[test]
fn snapshot_grants_sizes_and_digests() {
    let limits = Limits::default();
    let grants: Vec<SnapshotGrant> = (0..9).map(|k| snapshot(&format!("/in/{k}"), "user")).collect();
    assert_eq!(check_snapshot_count(&grants, &limits), Err(Error::SnapshotGrantLimit { actual: 9, limit: 8 }));
    assert_eq!(check_snapshot_count(&grants[..8].to_vec(), &limits), Ok(()));

    let grants = vec![snapshot("/in/a", "user"), snapshot("/in/b", ""), snapshot("/in/a", "user"), snapshot("/in/a", "tool")];
    assert_eq!(check_snapshot_grant("app", &grants, 0), Ok(()));
    assert_eq!(check_snapshot_grant("app", &grants, 1), declaration("app", DeclarationIssue::InvalidSnapshotGrant));
    assert_eq!(check_snapshot_grant("app", &grants, 2), declaration("app", DeclarationIssue::InvalidSnapshotGrant));
    assert_eq!(check_snapshot_grant("app", &grants, 3), Ok(()));

    assert_eq!(check_snapshot_size(64 * 1024, &limits), Ok(()));
    assert_eq!(check_snapshot_size(64 * 1024 + 1, &limits), Err(Error::SnapshotBytesLimit { actual: 65537, limit: 65536 }));

    let grant = snapshot("/in/a", "user");
    assert_eq!(check_snapshot_digest(&grant, b"hello"), Ok(()));
    assert_eq!(
        check_snapshot_digest(&grant, b"hellO"),
        Err(Error::SnapshotDigestMismatch {
            path: "/in/a".into(),
            expected: grant.sha256.clone(),
            actual: sha256_hex(b"hellO"),
        })
    );
    let short = SnapshotGrant { byte_len: 4, ..grant.clone() };
    assert_eq!(
        check_snapshot_digest(&short, b"hello"),
        Err(Error::SnapshotDigestMismatch { path: "/in/a".into(), expected: grant.sha256.clone(), actual: sha256_hex(b"hello") })
    );
    assert_eq!(
        String::from_utf8(sha256_hex(b"hello")).unwrap(),
        "2cf24dba5fb0a30e26e83b2ac5b9e29e1b161e5c1fa7425e73043362938b9824"
    );
}

#[test]
fn the_bootstrap_admits_one_journal_and_nothing_else() {
    let journal = spec("kernel").with_journal_paths(vec!["/state/journal".into()]);
    assert_eq!(check_bootstrap(&journal), Ok(()));
    let with_stream = spec("kernel").with_journal_paths(vec!["/j".into()]).with_event_stream_paths(vec!["/e".into()]);
    assert_eq!(check_bootstrap(&with_stream), Ok(()));
    let shape = Err(Error::Persistence(PersistenceIssue::BootstrapShape));
    assert_eq!(check_bootstrap(&spec("kernel")), shape);
    assert_eq!(check_bootstrap(&journal.with_children(vec![spec("x")])), shape);
    let two = spec("kernel").with_journal_paths(vec!["/a".into(), "/b".into()]);
    assert_eq!(check_bootstrap(&two), shape);
    let granted = spec("kernel").with_journal_paths(vec!["/j".into()]).with_event_grants(vec![event("q", "f", 1)]);
    assert_eq!(check_bootstrap(&granted), shape);
}

#[test]
fn the_next_event_id_follows_outbox_and_stream() {
    assert_eq!(recovered_next_event_id(&vec![], 1, 1), Ok(1));
    assert_eq!(recovered_next_event_id(&vec![], 3, 9), Ok(9));
    assert_eq!(recovered_next_event_id(&vec![4, 7, 5], 8, 2), Ok(8));
    assert_eq!(recovered_next_event_id(&vec![4, 7, 5], 7, 2), Err(Error::JournalCorrupt(JournalIssue::OutboxAhead)));
    assert_eq!(recovered_next_event_id(&vec![], 0, 5), Err(Error::JournalCorrupt(JournalIssue::OutboxAhead)));
}

#[test]
fn a_valid_manifest_maps_each_binding_under_its_slot() {
    let mut m = manifest(vec![]);
    let required = |slot: u64, interface: &str| RequiredBinding {
        slot,
        kind: BindingKind::Value,
        namespace: "quartz".into(),
        interface: interface.into(),
        min_revision: 1,
        max_revision: 2,
    };
    let provided = |slot: u64, interface: &str| ProvidedBinding {
        slot,
        kind: BindingKind::Callable,
        namespace: "quartz".into(),
        interface: interface.into(),
        revision: 1,
    };
    m.component.inject = vec![required(0, "store"), required(2, "clock")];
    m.component.provide = vec![provided(1, "plan"), provided(3, "review")];
    assert_eq!(m.validate(), Ok(()));
    let required_slots: Vec<u64> = m.required_by_slot().keys().copied().collect();
    assert_eq!(required_slots, vec![0, 2]);
    assert_eq!(m.required_by_slot()[&2].interface, "clock");
    let provided_slots: Vec<u64> = m.provided_by_slot().keys().copied().collect();
    assert_eq!(provided_slots, vec![1, 3]);
    assert_eq!(m.provided_by_slot()[&3].interface, "review");
}

#[test]
fn a_later_binding_of_a_slot_takes_its_place() {
    let mut m = manifest(vec![]);
    let required = |slot: u64, interface: &str| RequiredBinding {
        slot,
        kind: BindingKind::Value,
        namespace: "quartz".into(),
        interface: interface.into(),
        min_revision: 1,
        max_revision: 2,
    };
    let provided = |slot: u64, interface: &str| ProvidedBinding {
        slot,
        kind: BindingKind::Callable,
        namespace: "quartz".into(),
        interface: interface.into(),
        revision: 1,
    };
    m.component.inject = vec![required(0, "store"), required(2, "clock"), required(0, "cache")];
    m.component.provide = vec![provided(1, "plan"), provided(1, "review")];
    let required_slots: Vec<u64> = m.required_by_slot().keys().copied().collect();
    assert_eq!(required_slots, vec![0, 2]);
    assert_eq!(m.required_by_slot()[&0].interface, "cache");
    let provided_slots: Vec<u64> = m.provided_by_slot().keys().copied().collect();
    assert_eq!(provided_slots, vec![1]);
    assert_eq!(m.provided_by_slot()[&1].interface, "review");
}

#[test]
fn an_artifact_is_held_to_its_pinned_digest() {
    let digest = b"ba7816bf8f01cfea414140de5dae2223b00361a396177a9cb410ff61f20015ad".to_vec();
    assert_eq!(check_artifact_digest("/a/app.wasm", b"abc", None), Ok(digest.clone()));
    let pinned = String::from_utf8(digest.clone()).unwrap();
    assert_eq!(check_artifact_digest("/a/app.wasm", b"abc", Some(&pinned)), Ok(digest.clone()));
    assert_eq!(
        check_artifact_digest("/a/app.wasm", b"abc", Some("00")),
        Err(Error::ArtifactDigestMismatch { path: "/a/app.wasm".into(), expected: "00".into(), actual: digest })
    );
}
