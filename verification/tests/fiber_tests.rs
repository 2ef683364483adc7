use quartz::component::{ComponentSpec, ComponentTree, FiberId, FiberState, Limits, TraceEvent};
use quartz::error::{Error, InvariantIssue, PersistenceIssue};
use quartz::digest::sha256_hex;
use quartz::exchange::{DurablePayload, ExchangeGrant, ExchangeLedgerFailure, ExchangeLedgerOutcome};
use quartz::journal::{EventGrant, SnapshotGrant};
use quartz::fiber::{
    CommittedProvider, Core, EventFact, EventRecord, ExchangeRegistration, PreparedSnapshot, EventStreamRegistration, PatchAuthorization, PatchOwner, EventOutputGrant, EventPayloadSource, PatchRequestFate, PendingEvent, PendingPatch, RecoveryStep, Fiber, InternalState, Inverse, PreparedSpec, PreparedWorkspace, PromotionAuthorization, Root,
    StateCell, WorkspaceAuthorization,
};
use quartz::repository::{PublicationOwnership, WorkspaceGrant};
use quartz::composition::CompositionPatch;
use quartz::recovery::composition_undo_applies;
use quartz::queue::EventDisposition;
use quartz::snapshot::EffectSource;
use quartz::manifest::{BindingKind, ComponentDeclaration, HostCapability, InterfaceId, Manifest, ProvidedBinding, RequiredBinding};
use quartz::status::{
    STATUS_BUSY, STATUS_COLLISION, STATUS_DENIED, STATUS_INVALID, STATUS_LIMIT, STATUS_OK, STATUS_STALE, STATUS_UNDECLARED,
    STATUS_UNSATISFIED,
};
use quartz::error::MutationIssue;

fn manifest(capabilities: Vec<HostCapability>, inject: Vec<RequiredBinding>, provide: Vec<ProvidedBinding>) -> Manifest {
    Manifest {
        abi: 11,
        module: "m".into(),
        version: "1".into(),
        execution_mode: "wasm-component".into(),
        requested_host_capabilities: capabilities,
        component: ComponentDeclaration { id: "c".into(), config_schema: "u64".into(), max_activation_steps: 8, inject, provide },
    }
}

fn provided(slot: u64, kind: BindingKind, revision: u32) -> ProvidedBinding {
    ProvidedBinding { slot, kind, namespace: "quartz".into(), interface: "counter".into(), revision }
}

fn required(slot: u64) -> RequiredBinding {
    RequiredBinding {
        slot,
        kind: BindingKind::Value,
        namespace: "quartz".into(),
        interface: "counter".into(),
        min_revision: 1,
        max_revision: 3,
    }
}

fn interface(kind: BindingKind, revision: u32) -> InterfaceId {
    InterfaceId { kind, namespace: "quartz".into(), interface: "counter".into(), revision }
}

/// A core with one activating root fiber `app` of the given manifest, whose
/// specification has one child `worker`.
fn core_with(manifest: Manifest) -> Core {
    let mut core = Core::new(Limits::default());
    let workspace = PreparedWorkspace { grant: grant(), bytes: b"seed".to_vec() };
    core.specs.push(PreparedSpec {
        entry: "app".into(),
        declaration: ComponentSpec::new("app".into(), "app.wasm".into()),
        manifest,
        artifact_digest: "d1".into(),
        children: vec![1],
        patch_targets: vec!["app/worker".into(), "tools".into()],
        journal_paths: vec!["/state/journal".into()],
        event_stream_paths: vec!["/state/events".into()],
        snapshots: vec![PreparedSnapshot {
            grant: SnapshotGrant { path: "/in/task.json".into(), provenance: "user".into(), byte_len: 2, sha256: "x".into() },
            bytes: b"{}".to_vec(),
        }],
        workspaces: vec![workspace],
        event_grants: vec![EventGrant { namespace: "quartz".into(), name: "fact".into(), revision: 1 }],
        event_outputs: vec![EventOutputGrant { provenance: "model".into(), max_bytes: 4 }],
    });
    let child = manifest_for_child();
    core.specs.push(PreparedSpec {
        entry: "worker".into(),
        declaration: ComponentSpec::new("worker".into(), "w.wasm".into()),
        manifest: child,
        artifact_digest: "d2".into(),
        children: vec![],
        patch_targets: vec![],
        journal_paths: vec![],
        event_stream_paths: vec![],
        snapshots: vec![],
        workspaces: vec![],
        event_grants: vec![],
        event_outputs: vec![],
    });
    let id = core.allocate_fiber();
    let mut fiber = Fiber::new(id, None, "app".into(), 0, &core.specs[0]);
    fiber.state = InternalState::Activating;
    core.fibers.push(fiber);
    core.roots.push(Root { entry: "app".into(), fiber: id });
    core
}

fn grant() -> WorkspaceGrant {
    WorkspaceGrant {
        source_path: "/repo/a.txt".into(),
        ledger_path: "/repo/ledger".into(),
        operation: 9,
        provenance: "task".into(),
        before_sha256: String::from_utf8(sha256_hex(b"seed")).unwrap(),
        result_sha256: String::from_utf8(sha256_hex(b"sprout")).unwrap(),
        max_bytes: 8,
    }
}

fn manifest_for_child() -> Manifest {
    manifest(vec![HostCapability::Resolve], vec![required(0)], vec![])
}

#[test]
fn set_state_and_its_inverse_restore_the_cell() {
    let mut core = core_with(manifest(vec![HostCapability::SetState], vec![], vec![]));
    let app = FiberId(1);
    assert_eq!(core.host_set_state(app, 7, 40), STATUS_OK);
    assert_eq!(core.host_set_state(app, 7, 41), STATUS_OK);
    assert_eq!(core.state_cells, vec![StateCell { fiber: app, key: 7, value: 41 }]);
    assert_eq!(core.next_effect, 3);
    let inverses: Vec<Inverse> = core.fibers[0].accumulator.drain(..).collect();
    assert_eq!(inverses[0], Inverse::RestoreState { effect: 1, key: 7, previous: None });
    assert_eq!(inverses[1], Inverse::RestoreState { effect: 2, key: 7, previous: Some(40) });
    for inverse in inverses.into_iter().rev() {
        assert_eq!(core.apply_inverse(app, inverse, Ok(())), Ok(()));
    }
    assert!(core.state_cells.is_empty());
    assert_eq!(
        core.trace.last(),
        Some(&TraceEvent::EffectRecovered { fiber: app, effect: 1, kind: "state".into() })
    );
}

#[test]
fn set_state_refusals_change_nothing() {
    let mut core = core_with(manifest(vec![], vec![], vec![]));
    assert_eq!(core.host_set_state(FiberId(9), 1, 1), STATUS_INVALID);
    assert_eq!(core.host_set_state(FiberId(1), 1, 1), STATUS_UNDECLARED);
    core.fibers[0].state = InternalState::Active;
    assert_eq!(core.host_set_state(FiberId(1), 1, 1), STATUS_INVALID);
    assert!(core.state_cells.is_empty());
    assert!(core.trace.is_empty());
    assert_eq!(core.next_effect, 1);
}

#[test]
fn publish_resolve_and_unbind() {
    let capabilities = vec![HostCapability::Publish, HostCapability::PublishCallable, HostCapability::Resolve];
    let mut core = core_with(manifest(
        capabilities,
        vec![required(5)],
        vec![provided(0, BindingKind::Value, 2), provided(1, BindingKind::Callable, 1)],
    ));
    let app = FiberId(1);
    assert_eq!(core.host_publish(app, 0, (i64::MAX as u64) + 1), STATUS_INVALID);
    assert_eq!(core.host_publish(app, 1, 3), STATUS_UNDECLARED);
    assert_eq!(core.host_publish(app, 9, 3), STATUS_UNDECLARED);
    assert_eq!(core.host_publish(app, 0, 3), STATUS_OK);
    assert_eq!(core.host_publish(app, 0, 4), STATUS_COLLISION);
    assert_eq!(core.host_publish_callable(app, 0), STATUS_UNDECLARED);
    assert_eq!(core.host_publish_callable(app, 1), STATUS_OK);
    assert_eq!(core.bindings.len(), 2);

    assert_eq!(core.host_resolve(app, 4), -(STATUS_UNDECLARED as i64));
    assert_eq!(core.host_resolve(app, 5), -(STATUS_UNSATISFIED as i64));
    core.fibers[0].committed.push(quartz::fiber::CommittedProvider { slot: 5, fiber: app, interface: interface(BindingKind::Value, 2) });
    assert_eq!(core.host_resolve(app, 5), 3);

    let inverse = core.fibers[0].accumulator.remove(0);
    assert_eq!(inverse, Inverse::RemoveBinding { effect: 1, interface: interface(BindingKind::Value, 2) });
    assert_eq!(core.apply_inverse(FiberId(2), inverse, Ok(())), Err(Error::Invariant(InvariantIssue::BindingOwner)));
    assert_eq!(core.bindings.len(), 1);
    assert_eq!(core.host_resolve(app, 5), -(STATUS_UNSATISFIED as i64));
    let again = Inverse::RemoveBinding { effect: 1, interface: interface(BindingKind::Value, 2) };
    assert_eq!(core.apply_inverse(app, again, Ok(())), Err(Error::Invariant(InvariantIssue::BindingMissing)));
}

#[test]
fn register_child_and_retire_it() {
    let mut core = core_with(manifest(vec![HostCapability::RegisterChild], vec![], vec![]));
    let app = FiberId(1);
    assert_eq!(core.host_register_child(app, 1), STATUS_INVALID);
    assert_eq!(core.host_register_child(app, 0), STATUS_OK);
    assert_eq!(core.fibers.len(), 2);
    assert_eq!(core.fibers[1].path, "app/worker");
    assert_eq!(core.fibers[1].id, FiberId(2));
    assert_eq!(core.fibers[1].parent, Some(app));
    assert_eq!(core.fibers[1].spec, 1);
    assert_eq!(core.registrations[0].entry, "worker");
    assert_eq!(
        core.trace.last(),
        Some(&TraceEvent::ChildRegistered { parent: app, child: FiberId(2), path: "app/worker".into() })
    );
    assert_eq!(core.host_register_child(app, 0), STATUS_COLLISION);

    let inverse = core.fibers[0].accumulator.pop().unwrap();
    assert_eq!(inverse, Inverse::RetireChild { effect: 1, registration: 1 });
    assert_eq!(core.apply_inverse(app, inverse, Ok(())), Ok(()));
    assert!(core.fibers[1].retired);
    assert_eq!(
        core.fiber_by_path("app/worker"),
        Some(FiberId(2))
    );
}

#[test]
fn register_child_respects_the_component_limit() {
    let mut core = core_with(manifest(vec![HostCapability::RegisterChild], vec![], vec![]));
    core.limits.max_components = 1;
    assert_eq!(core.host_register_child(FiberId(1), 0), STATUS_LIMIT);
    assert_eq!(core.fibers.len(), 1);
}

#[test]
fn remove_fiber_requires_no_effects() {
    let mut core = core_with(manifest(vec![HostCapability::SetState], vec![], vec![]));
    assert_eq!(core.remove_fiber(FiberId(7)), Err(Error::Invariant(InvariantIssue::RemovedFiberMissing)));
    assert_eq!(core.host_set_state(FiberId(1), 1, 1), STATUS_OK);
    assert_eq!(core.remove_fiber(FiberId(1)), Err(Error::Invariant(InvariantIssue::RetainedEffects)));
    assert!(core.fibers.is_empty());

    let mut clean = core_with(manifest(vec![], vec![], vec![]));
    assert_eq!(clean.remove_fiber(FiberId(1)), Ok(()));
    assert!(clean.roots.is_empty());
    assert_eq!(clean.trace.last(), Some(&TraceEvent::FiberRemoved { fiber: FiberId(1), path: "app".into() }));
}

#[test]
fn retarget_root_and_child_slots() {
    let mut core = core_with(manifest(vec![HostCapability::RegisterChild], vec![], vec![]));
    assert_eq!(core.retarget_slot(None, "app/x", FiberId(3), FiberId(4)), Err(Error::Invariant(InvariantIssue::RootOwner)));
    assert_eq!(core.retarget_slot(None, "other", FiberId(1), FiberId(4)), Err(Error::Invariant(InvariantIssue::RootRegistration)));
    assert_eq!(core.retarget_slot(None, "app/x", FiberId(1), FiberId(4)), Ok(()));
    assert_eq!(core.roots[0].fiber, FiberId(4));
    assert_eq!(core.retarget_slot(Some(FiberId(1)), "app/worker", FiberId(2), FiberId(5)), Err(Error::Invariant(InvariantIssue::ParentRegistration)));
    assert_eq!(core.host_register_child(FiberId(1), 0), STATUS_OK);
    assert_eq!(core.retarget_slot(Some(FiberId(1)), "app/worker", FiberId(2), FiberId(5)), Ok(()));
    assert_eq!(core.registrations[0].child, FiberId(5));
}

#[test]
fn targets_pick_the_lowest_active_revision() {
    let capabilities = vec![HostCapability::Publish];
    let mut core = core_with(manifest(capabilities, vec![], vec![provided(0, BindingKind::Value, 3), provided(1, BindingKind::Value, 2)]));
    let app = FiberId(1);
    assert_eq!(core.host_publish(app, 0, 10), STATUS_OK);
    assert_eq!(core.host_publish(app, 1, 20), STATUS_OK);
    assert_eq!(core.target_for_spec(1, true), None);
    let target = core.target_for_spec(1, false).unwrap();
    assert_eq!(target.len(), 1);
    assert_eq!(target[0].interface.revision, 2);
    core.fibers[0].state = InternalState::Active;
    assert!(core.target_for_spec(1, true).is_some());
    assert!(!core.is_relied_on(app));
    assert_eq!(core.target_for(FiberId(9)), None);
}

#[test]
fn refresh_marks_the_first_fiber_whose_providers_moved() {
    let capabilities = vec![HostCapability::Publish];
    let mut core = core_with(manifest(capabilities, vec![], vec![provided(0, BindingKind::Value, 3), provided(1, BindingKind::Value, 2)]));
    let app = FiberId(1);
    assert_eq!(core.host_publish(app, 0, 10), STATUS_OK);
    assert_eq!(core.host_publish(app, 1, 20), STATUS_OK);
    core.fibers[0].state = InternalState::Active;
    let worker = core.allocate_fiber();
    let mut fiber = Fiber::new(worker, Some(app), "app/worker".into(), 1, &core.specs[1]);
    fiber.state = InternalState::Active;
    fiber.committed.push(CommittedProvider { slot: 0, fiber: app, interface: interface(BindingKind::Value, 2) });
    core.fibers.push(fiber);
    let traced = core.trace.len();
    assert!(!core.refresh_one());
    assert_eq!(core.trace.len(), traced);
    core.fibers[1].committed[0].interface = interface(BindingKind::Value, 3);
    assert!(core.refresh_one());
    assert_eq!(core.fibers[1].state, InternalState::Unloading);
    assert_eq!(core.fibers[0].state, InternalState::Active);
    assert_eq!(core.trace.last(), Some(&TraceEvent::FiberUnavailable { fiber: worker, path: "app/worker".into() }));
    assert!(!core.refresh_one());
    core.fibers[1].state = InternalState::Activating;
    core.fibers[1].committed.clear();
    assert!(core.refresh_one());
}

#[test]
fn observers_read_the_fiber_at_a_path() {
    let capabilities = vec![HostCapability::Publish, HostCapability::SetState];
    let mut core = core_with(manifest(capabilities, vec![], vec![provided(0, BindingKind::Value, 3)]));
    let app = FiberId(1);
    assert_eq!(core.host_set_state(app, 4, 99), STATUS_OK);
    assert_eq!(core.host_publish(app, 0, 10), STATUS_OK);
    assert_eq!(core.fiber_state("app"), Some(FiberState::Activating));
    assert_eq!(core.fiber_state("app/worker"), None);
    assert_eq!(core.state_value("app", 4), Some(99));
    assert_eq!(core.state_value("app", 5), None);
    assert_eq!(core.state_value("nowhere", 4), None);
    assert_eq!(core.provider_identity(&interface(BindingKind::Value, 3)), None);
    core.fibers[0].state = InternalState::Active;
    assert_eq!(core.provider_identity(&interface(BindingKind::Value, 3)), Some(app));
    assert_eq!(core.provider_identity(&interface(BindingKind::Value, 2)), None);
    assert_eq!(core.committed_provider("app", 0), None);
    core.fibers[0].committed.push(CommittedProvider { slot: 0, fiber: FiberId(7), interface: interface(BindingKind::Value, 3) });
    assert_eq!(core.committed_provider("app", 0), Some(FiberId(7)));
    assert_eq!(core.committed_provider("app", 1), None);
    core.fibers[0].state = InternalState::Failed;
    assert_eq!(core.fiber_state("app"), Some(FiberState::Failed("unknown failure".into())));
}

#[test]
fn inserted_roots_take_over_their_entry() {
    let mut core = core_with(manifest(vec![], vec![], vec![]));
    assert_eq!(core.insert_root(0), FiberId(2));
    assert_eq!(core.roots, vec![Root { entry: "app".into(), fiber: FiberId(2) }]);
    assert_eq!(core.fibers.len(), 2);
    assert_eq!(core.fibers[1].path, "app");
    assert_eq!(core.fibers[1].state, InternalState::Inactive);
    assert_eq!(core.fibers[1].parent, None);
    assert_eq!(core.insert_root(1), FiberId(3));
    assert_eq!(core.roots[1], Root { entry: "worker".into(), fiber: FiberId(3) });
    assert_eq!(core.next_fiber, 4);
}

#[test]
fn public_state_reports_failures() {
    let core = core_with(manifest(vec![], vec![], vec![]));
    let mut fiber = Fiber::new(FiberId(3), None, "x".into(), 0, &core.specs[0]);
    assert_eq!(fiber.public_state(), FiberState::Inactive);
    assert_eq!(fiber.workspace_buffers, vec![b"seed".to_vec()]);
    fiber.state = InternalState::Failed;
    assert_eq!(fiber.public_state(), FiberState::Failed("unknown failure".into()));
    fiber.outcome = Some("trap".into());
    assert_eq!(fiber.public_state(), FiberState::Failed("trap".into()));
}

#[test]
fn workspace_buffers_read_resize_and_write() {
    let capabilities = vec![HostCapability::WorkspaceRead, HostCapability::WorkspaceWrite];
    let mut core = core_with(manifest(capabilities, vec![], vec![]));
    let app = FiberId(1);
    assert_eq!(core.host_workspace_len(app, 0), 4);
    assert_eq!(core.host_workspace_len(app, 1), -(STATUS_UNDECLARED as i64));
    assert_eq!(core.host_workspace_byte(app, 0, 1), i32::from(b'e'));
    assert_eq!(core.host_workspace_byte(app, 0, 4), -STATUS_INVALID);
    core.fibers[0].workspace_authorization = Some(WorkspaceAuthorization { provider: FiberId(2), index: 0, operation: 9 });
    assert_eq!(core.host_workspace_set_len(app, 0, 9), STATUS_LIMIT);
    assert!(core.fibers[0].workspace_authorization.is_some());
    assert_eq!(core.host_workspace_set_len(app, 0, 6), STATUS_OK);
    assert!(core.fibers[0].workspace_authorization.is_none());
    assert_eq!(core.fibers[0].workspace_buffers[0], b"seed\0\0".to_vec());
    assert_eq!(core.host_workspace_write_byte(app, 0, 4, 256), STATUS_INVALID);
    assert_eq!(core.host_workspace_write_byte(app, 0, 6, 1), STATUS_INVALID);
    assert_eq!(core.host_workspace_write_byte(app, 0, 4, u32::from(b'!')), STATUS_OK);
    assert_eq!(core.host_workspace_set_len(app, 0, 2), STATUS_OK);
    assert_eq!(core.fibers[0].workspace_buffers[0], b"se".to_vec());
}

#[test]
fn publication_needs_the_authority_and_the_result() {
    let capabilities = vec![HostCapability::WorkspacePublish, HostCapability::WorkspaceWrite];
    let mut core = core_with(manifest(capabilities, vec![], vec![]));
    let app = FiberId(1);
    assert_eq!(core.prepare_publication(app, 0), Err(STATUS_DENIED));
    core.fibers[0].committed.push(CommittedProvider { slot: 3, fiber: FiberId(5), interface: interface(BindingKind::Callable, 1) });
    core.fibers[0].workspace_authorization = Some(WorkspaceAuthorization { provider: FiberId(5), index: 0, operation: 9 });
    assert_eq!(core.prepare_publication(app, 0), Err(STATUS_INVALID));
    assert!(core.fibers[0].workspace_authorization.is_none());
    core.fibers[0].workspace_buffers[0] = b"sprout".to_vec();
    core.fibers[0].workspace_authorization = Some(WorkspaceAuthorization { provider: FiberId(5), index: 0, operation: 9 });
    let publication = core.prepare_publication(app, 0).unwrap();
    assert_eq!(publication.before_bytes, b"seed".to_vec());
    assert_eq!(publication.result_bytes, b"sprout".to_vec());
    assert_eq!(core.record_publication(app, publication, Ok(()), Some(PublicationOwnership::Restore)), STATUS_OK);
    assert!(matches!(core.fibers[0].accumulator[0], Inverse::RestoreWorkspace { effect: 1, .. }));
    assert_eq!(
        core.trace.last(),
        Some(&TraceEvent::EffectApplied { fiber: app, effect: 1, kind: "workspace-publication".into() })
    );
}

#[test]
fn promotion_turns_the_restoration_into_a_check() {
    let capabilities = vec![HostCapability::WorkspacePromote];
    let mut core = core_with(manifest(capabilities, vec![], vec![]));
    let app = FiberId(1);
    core.fibers[0].committed.push(CommittedProvider { slot: 3, fiber: FiberId(5), interface: interface(BindingKind::Callable, 1) });
    let authorization = || PromotionAuthorization { provider: FiberId(5), index: 0, operation: 9, approver: "m@1#d".into() };
    core.fibers[0].promotion_authorization = Some(authorization());
    assert_eq!(core.prepare_promotion(app, 0), Err(STATUS_DENIED));
    core.fibers[0].accumulator.push(Inverse::RestoreWorkspace {
        effect: 4,
        grant: grant(),
        before_bytes: b"seed".to_vec(),
        result_bytes: b"sprout".to_vec(),
    });
    core.fibers[0].promotion_authorization = Some(authorization());
    let promotion = core.prepare_promotion(app, 0).unwrap();
    assert_eq!(promotion.inverse_index, 0);
    assert!(!promotion.is_promoted);
    let refused = core.prepare_promotion(app, 0);
    assert_eq!(refused, Err(STATUS_DENIED));
    let stale = Error::WorkspaceDigestMismatch { path: "/repo/a.txt".into(), expected: "x".into(), actual: vec![] };
    let copy = quartz::fiber::Promotion {
        grant: grant(),
        before_bytes: promotion.before_bytes.clone(),
        result_bytes: promotion.result_bytes.clone(),
        approver: promotion.approver.clone(),
        inverse_index: 0,
        is_promoted: false,
    };
    assert_eq!(core.record_promotion(app, copy, Err(stale)), STATUS_STALE);
    assert_eq!(core.record_promotion(app, promotion, Ok(())), STATUS_OK);
    assert!(matches!(
        &core.fibers[0].accumulator[0],
        Inverse::VerifyPromotedWorkspace { effect: 4, approver, .. } if approver == "m@1#d"
    ));
    let corrupt = Error::MutationCorrupt(MutationIssue::InverseCommit);
    let inverse = core.fibers[0].accumulator.remove(0);
    assert_eq!(core.apply_inverse(app, inverse, Err(corrupt.clone())), Err(corrupt));
    assert_eq!(core.fibers[0].accumulator.len(), 1);
}

#[test]
fn invocation_hands_back_the_instance_and_authorities() {
    let capabilities = vec![HostCapability::Invoke];
    let mut core = core_with(manifest(capabilities, vec![], vec![]));
    let app = FiberId(1);
    let authority = InterfaceId {
        kind: BindingKind::Callable,
        namespace: "quartz.repository".into(),
        interface: "mutation-authority".into(),
        revision: 1,
    };
    assert!(core.begin_invoke(app, 3).is_err());
    core.fibers[0].committed.push(CommittedProvider { slot: 3, fiber: FiberId(2), interface: authority.clone() });
    assert_eq!(core.begin_invoke(app, 3), Err(-(STATUS_UNSATISFIED as i64)));
    let provider_id = core.allocate_fiber();
    let mut provider = Fiber::new(provider_id, None, "authority".into(), 1, &core.specs[1]);
    provider.state = InternalState::Active;
    provider.instance = true;
    core.fibers.push(provider);
    core.bindings.push(quartz::fiber::ProviderBinding { interface: authority.clone(), fiber: provider_id, kind: BindingKind::Callable, value: None });
    let invocation = core.begin_invoke(app, 3).unwrap();
    assert_eq!(invocation.provider, provider_id);
    assert_eq!(core.invoking, vec![provider_id]);
    assert!(!core.fibers[1].instance);
    assert_eq!(core.begin_invoke(app, 3), Err(-(STATUS_BUSY as i64)));

    assert_eq!(core.finish_invoke(app, invocation, 1, 9, 0, 1), 1);
    assert!(core.invoking.is_empty());
    assert!(core.fibers[1].instance);
    assert_eq!(core.fibers[0].workspace_authorization, Some(WorkspaceAuthorization { provider: provider_id, index: 0, operation: 9 }));

    let again = core.begin_invoke(app, 3).unwrap();
    assert_eq!(core.finish_invoke(app, again, 1, 8, 0, 1), -(STATUS_INVALID as i64));
    core.fibers[1].staged_usage = Some(3);
    let staged = core.begin_invoke(app, 3).unwrap();
    assert_eq!(core.finish_invoke(app, staged, 1, 9, 0, 3), -(STATUS_INVALID as i64));
    assert!(core.fibers[1].staged_usage.is_none());
}

#[test]
fn events_are_read_through_the_committed_stream() {
    let capabilities = vec![HostCapability::EventCount, HostCapability::ReadEvent, HostCapability::EventPayloadLen, HostCapability::EventPayloadByte];
    let mut core = core_with(manifest(capabilities, vec![], vec![]));
    let app = FiberId(1);
    assert_eq!(core.host_event_count(app), -(STATUS_UNSATISFIED as i64));
    let payload = DurablePayload { provenance: "user".into(), sha256: sha256_hex(b"hi"), bytes: b"hi".to_vec() };
    core.event_stream = Some(EventStreamRegistration {
        owner: FiberId(7),
        records: vec![EventRecord { value: 11, payload: None }, EventRecord { value: 12, payload: Some(payload) }],
    });
    assert_eq!(core.host_event_count(app), -(STATUS_UNDECLARED as i64));
    core.fibers[0].committed.push(CommittedProvider { slot: 0, fiber: FiberId(7), interface: interface(BindingKind::Value, 1) });
    assert_eq!(core.host_event_count(app), 2);
    assert_eq!(core.host_read_event(app, 1), 12);
    assert_eq!(core.host_read_event(app, 2), -(STATUS_INVALID as i64));
    assert_eq!(core.host_event_payload_len(app, 0), -(STATUS_UNSATISFIED as i64));
    assert_eq!(core.host_event_payload_len(app, 1), 2);
    assert_eq!(core.host_event_payload_byte(app, 1, 1), i32::from(b'i'));
    assert_eq!(core.host_event_payload_byte(app, 1, 2), -STATUS_INVALID);
    core.fibers[0].state = InternalState::Active;
    assert_eq!(core.host_event_count(app), -(STATUS_UNDECLARED as i64));
    core.invoking.push(app);
    assert_eq!(core.host_event_count(app), 2);
}

#[test]
fn patches_need_authority_and_a_free_target() {
    let mut core = core_with(manifest(vec![HostCapability::ApplyPatch], vec![], vec![]));
    let app = FiberId(1);
    assert_eq!(core.host_apply_patch(app, 1, 3), STATUS_STALE);
    assert_eq!(core.host_apply_patch(app, 2, 0), STATUS_UNDECLARED);
    assert_eq!(core.host_apply_patch(app, 1, 0), STATUS_DENIED);
    core.fibers[0].committed.push(CommittedProvider { slot: 0, fiber: FiberId(5), interface: interface(BindingKind::Callable, 1) });
    core.fibers[0].patch_authorization = Some(PatchAuthorization { provider: FiberId(5), index: 1, base_revision: 0 });
    core.patch_owners.push(PatchOwner { target: "tools/lint".into(), fiber: FiberId(9) });
    assert_eq!(core.host_apply_patch(app, 1, 0), STATUS_BUSY);
    core.patch_owners.clear();
    core.journal_owner = Some(FiberId(8));
    assert_eq!(core.host_apply_patch(app, 1, 0), STATUS_UNDECLARED);
    core.journal_owner = None;
    assert_eq!(core.host_apply_patch(app, 1, 0), STATUS_OK);
    assert_eq!(core.pending_patches, vec![PendingPatch { actor: app, index: 1, base_revision: 0 }]);
    assert!(core.fibers[0].patch_authorization.is_none());
    core.replaying = true;
    assert_eq!(core.host_apply_patch(app, 1, 0), STATUS_BUSY);
}

#[test]
fn pending_patches_are_triaged_oldest_first() {
    let mut core = core_with(manifest(vec![HostCapability::ApplyPatch], vec![], vec![]));
    let app = FiberId(1);
    assert_eq!(core.take_pending_patch(), PatchRequestFate::Empty);
    core.pending_patches.push(PendingPatch { actor: FiberId(7), index: 0, base_revision: 0 });
    core.pending_patches.push(PendingPatch { actor: app, index: 1, base_revision: 0 });
    core.pending_patches.push(PendingPatch { actor: app, index: 0, base_revision: 0 });
    assert_eq!(core.take_pending_patch(), PatchRequestFate::Vanished);
    assert_eq!(core.take_pending_patch(), PatchRequestFate::Ready { actor: app, index: 1 });
    core.composition_revision = 1;
    assert_eq!(core.take_pending_patch(), PatchRequestFate::Stale);
    assert!(core.pending_patches.is_empty());
    assert_eq!(core.fibers[0].state, InternalState::Unloading);
    assert_eq!(core.fibers[0].outcome, Some("patch request became stale or unavailable".to_string()));
    let n = core.trace.len();
    assert_eq!(
        core.trace[n - 2],
        TraceEvent::PatchRejected { actor: app, target: String::new(), error: "patch request became stale or unavailable".into() }
    );
    assert_eq!(core.trace[n - 1], TraceEvent::FiberUnavailable { fiber: app, path: "app".into() });
}

#[test]
fn uncommitted_requesters_lose_their_patches_quietly() {
    let mut core = core_with(manifest(vec![HostCapability::ApplyPatch], vec![], vec![]));
    let app = FiberId(1);
    core.fibers[0].state = InternalState::Inactive;
    core.pending_patches.push(PendingPatch { actor: app, index: 1, base_revision: 0 });
    core.pending_patches.push(PendingPatch { actor: app, index: 5, base_revision: 0 });
    assert_eq!(core.take_pending_patch(), PatchRequestFate::Cancelled);
    assert_eq!(
        core.trace.last(),
        Some(&TraceEvent::PatchRejected { actor: app, target: "tools".into(), error: "requester activation did not commit".into() })
    );
    assert_eq!(core.take_pending_patch(), PatchRequestFate::Cancelled);
    assert_eq!(
        core.trace.last(),
        Some(&TraceEvent::PatchRejected { actor: app, target: String::new(), error: "requester activation did not commit".into() })
    );
    assert_eq!(core.fibers[0].state, InternalState::Inactive);
    assert_eq!(core.fibers[0].outcome, None);
}

#[test]
fn rejecting_a_patch_of_a_settled_fiber_only_records_it() {
    let mut core = core_with(manifest(vec![HostCapability::ApplyPatch], vec![], vec![]));
    let app = FiberId(1);
    core.fibers[0].state = InternalState::Failed;
    core.reject_patch(app, "tools".into(), "refused".into());
    assert_eq!(core.fibers[0].state, InternalState::Failed);
    assert_eq!(core.fibers[0].outcome, Some("refused".to_string()));
    assert_eq!(core.trace.last(), Some(&TraceEvent::PatchRejected { actor: app, target: "tools".into(), error: "refused".into() }));
    core.reject_patch(FiberId(3), "x".into(), "gone".into());
    assert_eq!(core.trace.last(), Some(&TraceEvent::PatchRejected { actor: FiberId(3), target: "x".into(), error: "gone".into() }));
}

#[test]
fn patches_may_not_touch_a_relied_on_provider() {
    let mut core = core_with(manifest(vec![HostCapability::ApplyPatch], vec![], vec![]));
    let app = FiberId(1);
    let worker = core.allocate_fiber();
    core.fibers.push(Fiber::new(worker, Some(app), "app/worker".into(), 1, &core.specs[1]));
    core.fibers[0].committed.push(CommittedProvider { slot: 0, fiber: worker, interface: interface(BindingKind::Callable, 1) });
    core.fibers[0].patch_authorization = Some(PatchAuthorization { provider: worker, index: 0, base_revision: 0 });
    assert_eq!(core.host_apply_patch(app, 0, 0), STATUS_DENIED);
}

#[test]
fn journals_and_streams_open_once() {
    let capabilities = vec![HostCapability::OpenJournal, HostCapability::OpenEventStream];
    let mut core = core_with(manifest(capabilities, vec![], vec![]));
    let app = FiberId(1);
    assert_eq!(core.prepare_open_journal(app, 1), Err(STATUS_UNDECLARED));
    assert_eq!(core.prepare_open_journal(app, 0), Ok("/state/journal".to_string()));
    assert_eq!(core.record_open_journal(app), STATUS_OK);
    assert_eq!(core.journal_owner, Some(app));
    assert_eq!(core.prepare_open_journal(app, 0), Err(STATUS_COLLISION));
    assert_eq!(core.prepare_open_event_stream(app, 0), Ok("/state/events".to_string()));
    assert_eq!(core.record_open_event_stream(app, vec![EventRecord { value: 1, payload: None }], 5), STATUS_OK);
    assert_eq!(core.next_event_id, 5);
    assert_eq!(core.prepare_open_event_stream(app, 0), Err(STATUS_COLLISION));
    let inverses: Vec<Inverse> = core.fibers[0].accumulator.drain(..).collect();
    assert_eq!(inverses, vec![Inverse::CloseJournal { effect: 1 }, Inverse::CloseEventStream { effect: 2 }]);
    for inverse in inverses.into_iter().rev() {
        assert_eq!(core.apply_inverse(app, inverse, Ok(())), Ok(()));
    }
    assert!(core.journal_owner.is_none());
    assert!(core.event_stream.is_none());
    core.fibers[0].state = InternalState::Active;
    assert_eq!(core.prepare_open_journal(app, 0), Err(STATUS_INVALID));
}

#[test]
fn snapshots_are_read_by_index() {
    let mut core = core_with(manifest(vec![HostCapability::ReadSnapshot], vec![], vec![]));
    let app = FiberId(1);
    assert_eq!(core.host_snapshot_len(app, 0), 2);
    assert_eq!(core.host_snapshot_len(app, 1), -(STATUS_UNDECLARED as i64));
    assert_eq!(core.host_snapshot_byte(app, 0, 1), i32::from(b'}'));
    assert_eq!(core.host_snapshot_byte(app, 0, 2), -STATUS_INVALID);
    core.fibers[0].state = InternalState::Inactive;
    assert_eq!(core.host_snapshot_len(app, 0), -(STATUS_UNDECLARED as i64));
    assert_eq!(core.host_snapshot_byte(FiberId(4), 0, 0), -STATUS_INVALID);
}

#[test]
fn exchanges_send_a_committed_request_and_stage_the_answer() {
    let mut core = core_with(manifest(vec![HostCapability::Exchange], vec![], vec![]));
    let app = FiberId(1);
    assert_eq!(core.prepare_exchange(app, 0, 0), Err(-(STATUS_INVALID as i64)));
    assert_eq!(core.prepare_exchange(app, 0, 1), Err(-(STATUS_UNSATISFIED as i64)));
    let request = DurablePayload { provenance: "user".into(), sha256: sha256_hex(b"ask"), bytes: b"ask".to_vec() };
    core.event_stream = Some(EventStreamRegistration {
        owner: FiberId(7),
        records: vec![EventRecord { value: 40, payload: Some(request) }, EventRecord { value: 41, payload: None }],
    });
    core.fibers[0].committed.push(CommittedProvider { slot: 0, fiber: FiberId(7), interface: interface(BindingKind::Value, 1) });
    let grant = ExchangeGrant::new("model".into(), "/state/x".into(), 2, 64, 1000);
    core.exchange = Some(ExchangeRegistration { owner: app, grant });
    assert_eq!(core.prepare_exchange(app, 1, 1), Err(-(STATUS_INVALID as i64)));
    assert_eq!(core.prepare_exchange(app, 0, 1), Err(-(STATUS_LIMIT as i64)));
    core.exchange = Some(ExchangeRegistration { owner: app, grant: ExchangeGrant::new("model".into(), "/state/x".into(), 8, 64, 1000) });
    assert_eq!(core.prepare_exchange(app, 0, 1), Err(-(STATUS_DENIED as i64)));
    core.exchange_adapters.push("model".into());
    let call = core.prepare_exchange(app, 0, 1).unwrap();
    assert_eq!(call.request, b"ask".to_vec());
    assert_eq!(call.request_sha256, sha256_hex(b"ask"));

    let answer = DurablePayload { provenance: "model".into(), sha256: sha256_hex(b"ok"), bytes: b"ok".to_vec() };
    assert_eq!(core.stage_exchange_outcome(app, ExchangeLedgerOutcome::Succeeded { payload: answer.clone(), usage: 5 }), 5);
    assert_eq!(core.fibers[0].staged_response, Some(answer));
    assert_eq!(core.fibers[0].staged_usage, Some(5));
    let failed = ExchangeLedgerOutcome::Failed { failure: ExchangeLedgerFailure::Authentication };
    assert_eq!(core.stage_exchange_outcome(app, failed), -11);
}

/// A core whose activating root `app` may append events from every source
/// and committed to the event stream of fiber 7.
fn appending_core() -> Core {
    let capabilities = vec![
        HostCapability::AppendEvent,
        HostCapability::ResumeEvent,
        HostCapability::ResumeSnapshot,
        HostCapability::ResumeExchange,
        HostCapability::ResumeEventOutput,
        HostCapability::EventOutputWrite,
    ];
    let mut core = core_with(manifest(capabilities, vec![], vec![]));
    core.event_stream = Some(EventStreamRegistration { owner: FiberId(7), records: vec![] });
    core.fibers[0].committed.push(CommittedProvider { slot: 0, fiber: FiberId(7), interface: interface(BindingKind::Value, 1) });
    core
}

#[test]
fn appended_events_wait_with_their_payloads() {
    let mut core = appending_core();
    let app = FiberId(1);
    assert_eq!(core.host_append_event(app, 0, 5, false, EventPayloadSource::Empty, Ok(())), STATUS_OK);
    assert_eq!(core.pending_events, vec![PendingEvent { actor: app, index: 0, value: 5, payload: None }]);
    assert_eq!(core.host_append_event(app, 0, 6, true, EventPayloadSource::Snapshot(0), Ok(())), STATUS_OK);
    assert_eq!(
        core.pending_events[1].payload,
        Some(DurablePayload { provenance: "user".into(), sha256: b"x".to_vec(), bytes: b"{}".to_vec() })
    );
    let answer = DurablePayload { provenance: "model".into(), sha256: sha256_hex(b"ok"), bytes: b"ok".to_vec() };
    core.fibers[0].inbound_response = Some(answer.clone());
    assert_eq!(core.host_append_event(app, 0, 7, true, EventPayloadSource::Exchange, Ok(())), STATUS_OK);
    assert_eq!(core.pending_events[2].payload, Some(answer));
    assert!(core.fibers[0].inbound_response.is_none());
    assert_eq!(core.host_event_output_set_len(app, 0, 2), STATUS_OK);
    assert_eq!(core.host_event_output_write_byte(app, 0, 1, 104), STATUS_OK);
    assert_eq!(core.fibers[0].event_output_buffers[0], vec![0, 104]);
    assert_eq!(core.host_append_event(app, 0, 8, true, EventPayloadSource::Output(0), Ok(())), STATUS_OK);
    assert_eq!(
        core.pending_events[3].payload,
        Some(DurablePayload { provenance: "model".into(), sha256: sha256_hex(&[0, 104]), bytes: vec![0, 104] })
    );
    assert!(core.fibers[0].event_output_buffers[0].is_empty());
    assert_eq!(core.pending_events.len(), 4);
}

#[test]
fn appends_are_refused_in_the_original_order() {
    let mut core = appending_core();
    let app = FiberId(1);
    assert_eq!(core.host_append_event(app, 0, 1u64 << 63, false, EventPayloadSource::Empty, Ok(())), STATUS_INVALID);
    assert_eq!(core.host_append_event(FiberId(9), 0, 1, false, EventPayloadSource::Empty, Ok(())), STATUS_INVALID);
    assert_eq!(core.host_append_event(app, 1, 1, false, EventPayloadSource::Empty, Ok(())), STATUS_UNDECLARED);
    assert_eq!(core.host_append_event(app, 0, 1, true, EventPayloadSource::Snapshot(1), Ok(())), STATUS_UNDECLARED);
    assert_eq!(core.host_append_event(app, 0, 1, true, EventPayloadSource::Output(1), Ok(())), STATUS_UNDECLARED);
    assert_eq!(core.host_append_event(app, 0, 1, true, EventPayloadSource::Exchange, Ok(())), STATUS_UNSATISFIED);
    let limit = Err(Error::PayloadBytesLimit { actual: 9, limit: 8 });
    assert_eq!(core.host_append_event(app, 0, 1, false, EventPayloadSource::Empty, limit), STATUS_LIMIT);
    assert!(core.event_failure.is_none());
    let corrupt = Err(Error::EventCorrupt("gap".into()));
    assert_eq!(core.host_append_event(app, 0, 1, false, EventPayloadSource::Empty, corrupt), STATUS_INVALID);
    assert_eq!(core.event_failure, Some(Error::EventCorrupt("gap".into())));
    core.replaying = true;
    assert_eq!(core.host_append_event(app, 0, 1, false, EventPayloadSource::Empty, Ok(())), STATUS_BUSY);
    assert_eq!(core.host_append_event(app, 0, 1, true, EventPayloadSource::Empty, Ok(())), STATUS_OK);
    core.fibers[0].committed.clear();
    assert_eq!(core.host_append_event(app, 0, 1, true, EventPayloadSource::Empty, Ok(())), STATUS_UNSATISFIED);
    core.event_stream = None;
    assert_eq!(core.host_append_event(app, 0, 1, true, EventPayloadSource::Empty, Ok(())), STATUS_UNSATISFIED);
    core.fibers[0].state = InternalState::Active;
    assert_eq!(core.host_append_event(app, 0, 1, true, EventPayloadSource::Empty, Ok(())), STATUS_UNDECLARED);
    assert_eq!(core.pending_events.len(), 1);
}

#[test]
fn output_buffers_keep_within_their_grant() {
    let mut core = appending_core();
    let app = FiberId(1);
    assert_eq!(core.host_event_output_set_len(app, 0, 5), STATUS_LIMIT);
    assert_eq!(core.host_event_output_set_len(app, 1, 1), STATUS_UNDECLARED);
    assert_eq!(core.host_event_output_write_byte(app, 0, 0, 1), STATUS_INVALID);
    assert_eq!(core.host_event_output_set_len(app, 0, 4), STATUS_OK);
    assert_eq!(core.host_event_output_write_byte(app, 0, 3, 256), STATUS_INVALID);
    assert_eq!(core.host_event_output_write_byte(app, 0, 3, 9), STATUS_OK);
    assert_eq!(core.host_event_output_set_len(app, 0, 1), STATUS_OK);
    assert_eq!(core.fibers[0].event_output_buffers[0], vec![0]);
}

#[test]
fn replacements_are_checked_and_settled() {
    let mut core = core_with(manifest(vec![], vec![], vec![]));
    assert_eq!(core.check_replacement("app", "app"), Ok(FiberId(1)));
    assert_eq!(
        core.check_replacement("app", "other"),
        Err(Error::ReplacementEntry { entry: "other".into(), expected: "app".into() })
    );
    assert_eq!(core.check_replacement("nowhere", "nowhere"), Err(Error::UnknownEntry("nowhere".into())));
    core.patch_owners.push(PatchOwner { target: "app/worker".into(), fiber: FiberId(3) });
    assert_eq!(core.check_replacement("app", "app"), Err(Error::PatchTargetOwned("app".into())));

    let candidate = core.insert_root(0);
    assert_eq!(core.settle_replacement(FiberId(1), FiberId(99), "app".into()), Err(Error::Invariant(InvariantIssue::CandidateMissing)));
    assert_eq!(core.settle_replacement(FiberId(1), candidate, "app".into()), Ok(Some("candidate did not reach active state".into())));
    core.fibers[1].state = InternalState::Failed;
    assert_eq!(core.settle_replacement(FiberId(1), candidate, "app".into()), Ok(Some("candidate activation failed".into())));
    core.fibers[1].outcome = Some("trap".into());
    assert_eq!(core.settle_replacement(FiberId(1), candidate, "app".into()), Ok(Some("trap".into())));
    core.fibers[1].state = InternalState::Active;
    core.fibers[1].pinned = true;
    assert_eq!(core.settle_replacement(FiberId(1), candidate, "app".into()), Ok(None));
    assert!(!core.fibers[1].pinned);
    assert_eq!(core.trace.last(), Some(&TraceEvent::ReplacementCommitted { old: FiberId(1), new: candidate, path: "app".into() }));
}

#[test]
fn the_bootstrap_root_owns_journal_and_stream() {
    let mut core = core_with(manifest(vec![], vec![], vec![]));
    assert_eq!(core.check_bootstrap_owners("app", false), Err(Error::Persistence(PersistenceIssue::JournalNotRegistered)));
    core.event_failure = Some(Error::EventCorrupt("torn".into()));
    assert_eq!(core.check_bootstrap_owners("app", false), Err(Error::EventCorrupt("torn".into())));
    assert!(core.event_failure.is_none());
    core.journal_owner = Some(FiberId(1));
    assert_eq!(core.check_bootstrap_owners("app", false), Ok(()));
    assert_eq!(core.check_bootstrap_owners("app", true), Err(Error::Persistence(PersistenceIssue::EventStreamNotRegistered)));
    assert_eq!(core.check_bootstrap_owners("kernel", false), Err(Error::Persistence(PersistenceIssue::JournalOwner)));
    core.event_stream = Some(EventStreamRegistration { owner: FiberId(2), records: vec![] });
    assert_eq!(core.check_bootstrap_owners("app", true), Err(Error::Persistence(PersistenceIssue::EventStreamOwner)));
    core.event_stream = Some(EventStreamRegistration { owner: FiberId(1), records: vec![] });
    assert_eq!(core.check_bootstrap_owners("app", true), Ok(()));
}

#[test]
fn undoing_a_set_state_restores_the_cell() {
    let mut core = core_with(manifest(vec![HostCapability::SetState], vec![], vec![]));
    let app = FiberId(1);
    core.state_cells.push(StateCell { fiber: app, key: 1, value: 5 });
    let before = core.state_cells.clone();
    assert_eq!(core.host_set_state(app, 1, 6), STATUS_OK);
    let inverse = core.fibers[0].accumulator.pop().unwrap();
    assert_eq!(inverse, Inverse::RestoreState { effect: 1, key: 1, previous: Some(5) });
    assert_eq!(core.apply_inverse(app, inverse, Ok(())), Ok(()));
    assert_eq!(core.state_cells.iter().rev().find(|c| c.key == 1).map(|c| c.value), Some(5));
    assert_eq!(before.len(), 1);
    assert_eq!(core.trace.last(), Some(&TraceEvent::EffectRecovered { fiber: app, effect: 1, kind: "state".into() }));
}

#[test]
fn patch_commits_are_recorded_and_withdrawn() {
    let mut core = core_with(manifest(vec![HostCapability::ApplyPatch], vec![], vec![]));
    let app = FiberId(1);
    let undo = CompositionPatch::remove_root("tools".into());
    assert_eq!(core.record_patch_commit(app, "tools".into(), undo), Ok(1));
    assert_eq!(core.patch_owners, vec![PatchOwner { target: "tools".into(), fiber: app }]);
    assert_eq!(
        core.fibers[0].accumulator.last(),
        Some(&Inverse::RestoreComposition { effect: 1, target: "tools".into(), undo: CompositionPatch::remove_root("tools".into()) })
    );
    core.trace_patch_commit(app, "tools".into(), 1);
    assert_eq!(core.trace.last(), Some(&TraceEvent::PatchCommitted { actor: app, target: "tools".into(), revision: 0 }));
    let n = core.trace.len();
    assert_eq!(core.trace[n - 2], TraceEvent::EffectApplied { fiber: app, effect: 1, kind: "composition".into() });

    let replacement = CompositionPatch::replace("app/worker".into(), ComponentSpec::new("worker".into(), "w.wasm".into()));
    assert_eq!(core.record_patch_commit(app, "app/worker".into(), replacement), Ok(2));
    assert_eq!(core.unwind_patch_commit(app, "app/worker", 2), Ok(()));
    assert_eq!(core.patch_owners, vec![PatchOwner { target: "tools".into(), fiber: app }]);
    assert_eq!(core.fibers[0].accumulator.len(), 1);
    assert_eq!(core.unwind_patch_commit(app, "tools", 7), Err(Error::Invariant(InvariantIssue::PatchInverseNotLast)));
    assert!(core.patch_owners.is_empty());
    assert_eq!(core.unwind_patch_commit(app, "tools", 1), Err(Error::Invariant(InvariantIssue::PatchInverseMissing)));
    assert_eq!(core.record_patch_commit(FiberId(9), "x".into(), CompositionPatch::remove_root("x".into())), Err(Error::Invariant(InvariantIssue::PatchActorMissing)));
    assert_eq!(core.patch_owners, vec![PatchOwner { target: "x".into(), fiber: FiberId(9) }]);
}

#[test]
fn recovery_undoes_the_newest_effect_first_then_settles() {
    let mut core = core_with(manifest(vec![HostCapability::SetState], vec![], vec![]));
    let app = FiberId(1);
    assert_eq!(core.host_set_state(app, 1, 10), STATUS_OK);
    assert_eq!(core.host_set_state(app, 2, 20), STATUS_OK);
    assert_eq!(core.next_recovery(), RecoveryStep::Idle);
    core.fibers[0].state = InternalState::Unloading;
    core.blocked_recovery.push(app);
    assert_eq!(core.next_recovery(), RecoveryStep::Idle);
    core.blocked_recovery.clear();
    assert_eq!(core.next_recovery(), RecoveryStep::Undo { fiber: app, inverse: Inverse::RestoreState { effect: 2, key: 2, previous: None } });
    assert_eq!(core.next_recovery(), RecoveryStep::Undo { fiber: app, inverse: Inverse::RestoreState { effect: 1, key: 1, previous: None } });
    core.fibers[0].instance = true;
    core.fibers[0].outcome = Some("trap".into());
    assert_eq!(core.next_recovery(), RecoveryStep::Finish { fiber: app, instance: true, failed: Some("trap".into()) });
    assert!(!core.fibers[0].instance);
    core.fibers[0].committed.push(CommittedProvider { slot: 0, fiber: FiberId(5), interface: interface(BindingKind::Value, 1) });
    assert_eq!(core.finish_recovery(app, Some("trap".into()), Some("drop failed".into())), Ok(()));
    assert_eq!(core.fibers[0].state, InternalState::Failed);
    assert!(core.fibers[0].committed.is_empty());
    let n = core.trace.len();
    assert_eq!(core.trace[n - 2], TraceEvent::DisposalFailed { fiber: app, path: "app".into(), error: "drop failed".into() });
    assert_eq!(core.trace[n - 1], TraceEvent::FiberFailed { fiber: app, path: "app".into(), error: "trap".into() });
    assert_eq!(core.finish_recovery(FiberId(9), None, None), Err(Error::Invariant(InvariantIssue::UnloadingFiberMissing)));
    assert_eq!(core.finish_recovery(app, None, None), Ok(()));
    assert_eq!(core.fibers[0].state, InternalState::Inactive);
    assert_eq!(core.trace.last(), Some(&TraceEvent::FiberInactive { fiber: app, path: "app".into() }));
}

#[test]
fn relied_on_fibers_wait_for_their_dependents() {
    let mut core = core_with(manifest(vec![], vec![], vec![]));
    let app = FiberId(1);
    core.fibers[0].state = InternalState::Unloading;
    let worker = core.allocate_fiber();
    let mut fiber = Fiber::new(worker, Some(app), "app/worker".into(), 1, &core.specs[1]);
    fiber.state = InternalState::Active;
    fiber.committed.push(CommittedProvider { slot: 0, fiber: app, interface: interface(BindingKind::Value, 1) });
    core.fibers.push(fiber);
    assert_eq!(core.next_recovery(), RecoveryStep::Idle);
    core.fibers[1].state = InternalState::Inactive;
    assert_eq!(core.next_recovery(), RecoveryStep::Finish { fiber: app, instance: false, failed: None });
}

fn tree(roots: Vec<ComponentSpec>) -> ComponentTree {
    ComponentTree { roots }
}

fn app_root() -> ComponentSpec {
    ComponentSpec::new("app".into(), "app.wasm".into())
}

fn tools_root() -> ComponentSpec {
    ComponentSpec::new("tools".into(), "tools.wasm".into())
}

#[test]
fn declaring_an_added_root_changes_the_composition() {
    let core = core_with(manifest(vec![], vec![], vec![]));
    let desired = tree(vec![app_root()]);
    assert_eq!(core.check_declaration(&desired, &tree(vec![app_root(), tools_root()])), Ok(true));
    assert_eq!(core.check_declaration(&desired, &tree(vec![app_root()])), Ok(false));
}

#[test]
fn declaring_a_changed_root_is_refused() {
    let core = core_with(manifest(vec![], vec![], vec![]));
    let desired = tree(vec![ComponentSpec::new("app".into(), "app.wasm".into())]);
    let prepared = tree(vec![ComponentSpec::new("app".into(), "other.wasm".into())]);
    assert_eq!(core.check_declaration(&desired, &prepared), Err(Error::RootChanged("app".into())));
}

#[test]
fn a_reappearing_root_keeps_its_declaration() {
    let mut core = core_with(manifest(vec![], vec![], vec![]));
    core.fibers[0].retired = true;
    let desired = tree(vec![]);
    let changed = tree(vec![ComponentSpec::new("app".into(), "other.wasm".into())]);
    assert_eq!(core.check_declaration(&desired, &changed), Err(Error::RootReappeared("app".into())));
    let same = tree(vec![ComponentSpec::new("app".into(), "app.wasm".into())]);
    assert_eq!(core.check_declaration(&desired, &same), Ok(true));
    assert_eq!(core.settle_declaration(&desired, &same, true, true), Ok(()));
    assert!(!core.fibers[0].retired);
    assert_eq!(core.composition_revision, 1);
}

#[test]
fn declaring_past_the_component_limit_is_refused() {
    let mut core = core_with(manifest(vec![], vec![], vec![]));
    core.limits.max_components = 1;
    assert_eq!(
        core.check_declaration(&tree(vec![app_root()]), &tree(vec![app_root(), tools_root()])),
        Err(Error::ComponentLimit { actual: 2, limit: 1 })
    );
}

#[test]
fn a_patch_in_flight_guards_its_target_root() {
    let mut core = core_with(manifest(vec![], vec![], vec![]));
    let actor = core.fibers[0].id;
    core.patch_owners.push(PatchOwner { target: "tools".into(), fiber: actor });
    let desired = tree(vec![app_root()]);
    let prepared = tree(vec![app_root(), tools_root()]);
    assert_eq!(core.check_declaration(&desired, &prepared), Err(Error::PatchTargetOwned("tools".into())));
    assert_eq!(core.check_declaration(&desired, &desired), Ok(false));
    core.patch_owners[0].fiber = FiberId(99);
    assert_eq!(core.check_declaration(&desired, &prepared), Err(Error::Invariant(InvariantIssue::PatchOwnerMissing)));
}

#[test]
fn dropping_a_root_retires_its_fiber() {
    let mut core = core_with(manifest(vec![], vec![], vec![]));
    let desired = tree(vec![ComponentSpec::new("app".into(), "app.wasm".into())]);
    let empty = tree(vec![]);
    assert_eq!(core.check_declaration(&desired, &empty), Ok(true));
    assert_eq!(core.settle_declaration(&desired, &empty, true, false), Ok(()));
    assert!(core.fibers[0].retired);
    assert_eq!(core.composition_revision, 0);
    core.roots[0].fiber = FiberId(99);
    assert_eq!(
        core.settle_declaration(&desired, &empty, true, true),
        Err(Error::Invariant(InvariantIssue::RetiredFiberMissing))
    );
}

#[test]
fn composition_recovery_withdraws_and_blocks_then_traces() {
    let mut core = core_with(manifest(vec![], vec![], vec![]));
    let actor = core.fibers[0].id;
    core.patch_owners.push(PatchOwner { target: "tools".into(), fiber: actor });
    assert_eq!(core.begin_composition_recovery(actor, "tools"), Ok("app".to_string()));
    assert!(core.patch_owners.is_empty());
    assert_eq!(core.blocked_recovery, vec![actor]);
    assert_eq!(
        core.begin_composition_recovery(actor, "tools"),
        Err(Error::Invariant(InvariantIssue::CompositionNotOwned))
    );
    let undo = CompositionPatch::remove_root("tools".into());
    let journal = Error::Persistence(PersistenceIssue::JournalNotRegistered);
    assert_eq!(core.finish_composition_recovery(actor, 7, "tools".into(), undo, Ok(()), Some(journal.clone())), Err(journal));
    assert!(core.blocked_recovery.is_empty());
    assert!(core.patch_owners.is_empty());
    assert_eq!(
        core.trace.last(),
        Some(&TraceEvent::EffectRecovered { fiber: actor, effect: 7, kind: "composition".into() })
    );
}

#[test]
fn failed_composition_recovery_keeps_the_inverse() {
    let mut core = core_with(manifest(vec![], vec![], vec![]));
    let actor = core.fibers[0].id;
    core.patch_owners.push(PatchOwner { target: "tools".into(), fiber: actor });
    assert_eq!(core.begin_composition_recovery(actor, "tools"), Ok("app".to_string()));
    let undo = CompositionPatch::remove_root("tools".into());
    let failure = Error::UnknownEntry("tools".into());
    assert_eq!(core.finish_composition_recovery(actor, 7, "tools".into(), undo, Err(failure.clone()), None), Err(failure));
    assert!(core.blocked_recovery.is_empty());
    assert_eq!(core.patch_owners, vec![PatchOwner { target: "tools".into(), fiber: actor }]);
    assert_eq!(
        core.fibers[0].accumulator.last(),
        Some(&Inverse::RestoreComposition { effect: 7, target: "tools".into(), undo: CompositionPatch::remove_root("tools".into()) })
    );
    core.patch_owners[0].fiber = FiberId(99);
    assert_eq!(
        core.begin_composition_recovery(FiberId(99), "tools"),
        Err(Error::Invariant(InvariantIssue::CompositionOwnerMissing))
    );
    assert_eq!(core.blocked_recovery, vec![FiberId(99)]);
}

#[test]
fn composition_undo_applies_while_actor_or_target_is_declared() {
    let mut app = ComponentSpec::new("app".into(), "app.wasm".into());
    app.children.push(ComponentSpec::new("worker".into(), "w.wasm".into()));
    let desired = tree(vec![app]);
    assert!(composition_undo_applies(&desired, "app", "tools"));
    assert!(composition_undo_applies(&desired, "gone", "app/worker"));
    assert!(!composition_undo_applies(&desired, "gone", "tools"));
    assert!(!composition_undo_applies(&desired, "app/other", "tools"));
}

#[test]
fn the_first_inactive_served_fiber_activates_next() {
    let mut core = core_with(manifest(vec![], vec![], vec![]));
    let id = core.fibers[0].id;
    assert_eq!(core.next_activation(), None);
    core.fibers[0].state = InternalState::Inactive;
    assert_eq!(core.next_activation(), Some((id, vec![])));
    core.fibers[0].retired = true;
    assert_eq!(core.next_activation(), None);

    let mut waiting = core_with(manifest(vec![], vec![required(0)], vec![]));
    waiting.fibers[0].state = InternalState::Inactive;
    assert_eq!(waiting.next_activation(), None);
}

#[test]
fn starting_an_activation_commits_or_records_the_failure() {
    let mut core = core_with(manifest(vec![], vec![], vec![]));
    let id = core.fibers[0].id;
    core.fibers[0].state = InternalState::Inactive;
    core.fibers[0].activation_steps = 3;
    assert_eq!(core.start_activation(id, vec![], Some(vec![b"fresh".to_vec()]), None), Ok(()));
    assert_eq!(core.fibers[0].state, InternalState::Activating);
    assert_eq!(core.fibers[0].activation_steps, 0);
    assert!(core.fibers[0].instance);
    assert_eq!(core.fibers[0].workspace_buffers, vec![b"fresh".to_vec()]);
    assert_eq!(core.trace.last(), Some(&TraceEvent::FiberActivating { fiber: id, path: "app".into() }));

    core.fibers[0].state = InternalState::Inactive;
    assert_eq!(core.start_activation(id, vec![], None, Some("no artifact".into())), Ok(()));
    assert_eq!(core.fibers[0].state, InternalState::Failed);
    assert_eq!(core.fibers[0].outcome, Some("no artifact".to_string()));
    assert_eq!(
        core.trace.last(),
        Some(&TraceEvent::FiberFailed { fiber: id, path: "app".into(), error: "no artifact".into() })
    );
    assert_eq!(
        core.start_activation(FiberId(99), vec![], None, None),
        Err(Error::Invariant(InvariantIssue::ActivationCandidateMissing))
    );
}

#[test]
fn a_committed_replacement_updates_the_desired_tree_and_revision() {
    let mut core = core_with(manifest(vec![], vec![], vec![]));
    let mut app = app_root();
    app.children.push(ComponentSpec::new("worker".into(), "w.wasm".into()));
    let mut desired = tree(vec![app]);
    assert_eq!(
        core.commit_replacement(&mut desired, "app/worker", ComponentSpec::new("worker".into(), "w2.wasm".into())),
        Ok(())
    );
    assert_eq!(desired.roots[0].children[0].artifact, "w2.wasm");
    assert_eq!(core.composition_revision, 1);
    assert_eq!(
        core.commit_replacement(&mut desired, "app/none", ComponentSpec::new("none".into(), "n.wasm".into())),
        Err(Error::UnknownEntry("app/none".into()))
    );
    assert_eq!(core.composition_revision, 1);
}

#[test]
fn a_rolled_back_replacement_restores_the_replaced_generation() {
    let mut core = core_with(manifest(vec![], vec![], vec![]));
    let previous = core.fibers[0].id;
    let candidate = core.allocate_fiber();
    let mut fresh = Fiber::new(candidate, None, "app".into(), 0, &core.specs[0]);
    fresh.state = InternalState::Active;
    core.fibers[0] = fresh;
    core.roots[0].fiber = candidate;
    let bystander = core.allocate_fiber();
    core.fibers.push(Fiber::new(bystander, None, "tools".into(), 1, &core.specs[1]));

    core.composition_revision = 6;
    assert_eq!(core.begin_rollback(FiberId(99)), Err(Error::Invariant(InvariantIssue::RollbackCandidateMissing)));
    assert_eq!(core.begin_rollback(candidate), Ok(()));
    assert!(core.fibers[0].retired && core.fibers[0].pinned);
    assert_eq!(core.fibers[0].state, InternalState::Unloading);
    assert_eq!(core.trace.last(), Some(&TraceEvent::FiberUnavailable { fiber: candidate, path: "app".into() }));

    core.fibers[0].state = InternalState::Inactive;
    assert_eq!(
        core.finish_rollback(previous, None, "app".into(), 0, FiberId(99)),
        Err(Error::Invariant(InvariantIssue::RejectedCandidateMissing))
    );
    assert_eq!(core.finish_rollback(previous, None, "app".into(), 0, candidate), Ok(()));
    let ids: Vec<FiberId> = core.fibers.iter().map(|f| f.id).collect();
    assert_eq!(ids, vec![previous, bystander]);
    assert_eq!(core.fibers[0].state, InternalState::Inactive);
    assert!(!core.fibers[0].retired);
    assert_eq!(core.roots[0].fiber, previous);
    assert_eq!(core.composition_revision, 6);
    assert_eq!(core.fibers[0].path, "app");
    assert_eq!(core.fibers[0].spec, 0);
    assert_eq!(
        core.trace.last(),
        Some(&TraceEvent::ReplacementRolledBack { restored: previous, rejected: candidate, path: "app".into() })
    );
}

#[test]
fn a_candidate_holding_effects_cannot_be_rolled_back() {
    let mut core = core_with(manifest(vec![], vec![], vec![]));
    let previous = core.fibers[0].id;
    let candidate = core.allocate_fiber();
    let mut fresh = Fiber::new(candidate, None, "app".into(), 0, &core.specs[0]);
    fresh.instance = true;
    core.fibers[0] = fresh;
    core.roots[0].fiber = candidate;
    assert_eq!(
        core.finish_rollback(previous, None, "app".into(), 0, candidate),
        Err(Error::Invariant(InvariantIssue::RejectedRetainedEffects))
    );
    assert!(core.fibers.is_empty());
}

#[test]
fn pending_events_wait_for_their_requesters_activation() {
    let mut core = core_with(manifest(vec![], vec![], vec![]));
    let actor = core.fibers[0].id;
    core.pending_events.push(PendingEvent { actor, index: 0, value: 5, payload: None });
    assert_eq!(core.take_pending_event(), Ok(EventDisposition::Idle));
    assert_eq!(core.pending_events.len(), 1);
    core.fibers[0].state = InternalState::Active;
    assert_eq!(
        core.take_pending_event(),
        Ok(EventDisposition::Ready {
            actor,
            actor_path: "app".into(),
            event: EventGrant { namespace: "quartz".into(), name: "fact".into(), revision: 1 },
            value: 5,
            payload: None,
        })
    );
    assert!(core.pending_events.is_empty());

    core.pending_events.push(PendingEvent { actor: FiberId(99), index: 0, value: 1, payload: None });
    assert_eq!(core.take_pending_event(), Ok(EventDisposition::Dropped));
    core.pending_events.push(PendingEvent { actor, index: 7, value: 1, payload: None });
    assert_eq!(core.take_pending_event(), Err(Error::Invariant(InvariantIssue::EventGrantMissing)));
    assert!(core.pending_events.is_empty());

    core.fibers[0].outcome = Some("failed".into());
    core.pending_events.push(PendingEvent { actor, index: 0, value: 1, payload: None });
    assert_eq!(core.take_pending_event(), Ok(EventDisposition::Rejected));
    assert_eq!(
        core.trace.last(),
        Some(&TraceEvent::EventRejected { actor, error: "event requester activation did not commit".into() })
    );
}

#[test]
fn an_accepted_event_takes_the_next_identity() {
    let mut core = core_with(manifest(vec![], vec![], vec![]));
    let actor = core.fibers[0].id;
    let grant = || EventGrant { namespace: "quartz".into(), name: "fact".into(), revision: 1 };
    assert_eq!(
        core.queue_event(actor, "app".into(), grant(), 5, None, Ok(())),
        Err(Error::Persistence(PersistenceIssue::EventStreamUnavailable))
    );
    core.event_stream = Some(EventStreamRegistration { owner: FiberId(7), records: vec![] });
    let refusal = Error::EventCorrupt("bad".into());
    assert_eq!(core.queue_event(actor, "app".into(), grant(), 5, None, Err(refusal.clone())), Err(refusal));
    assert!(core.event_outbox.is_empty());
    let id = core.next_event_id;
    assert_eq!(core.queue_event(actor, "app".into(), grant(), 5, None, Ok(())), Ok(id));
    assert_eq!(core.next_event_id, id + 1);
    assert_eq!(
        core.event_outbox,
        vec![EventFact { id, actor_path: "app".into(), event: grant(), value: 5, payload: None }]
    );
    assert_eq!(core.trace.last(), Some(&TraceEvent::EventQueued { actor, id }));

    assert_eq!(core.unqueue_event(id), Ok(()));
    assert!(core.event_outbox.is_empty());
    assert_eq!(core.next_event_id, id);
    assert_eq!(core.unqueue_event(id), Err(Error::Invariant(InvariantIssue::OutboxEmpty)));
    assert_eq!(core.queue_event(actor, "app".into(), grant(), 6, None, Ok(())), Ok(id));
    assert_eq!(core.unqueue_event(id + 9), Err(Error::Invariant(InvariantIssue::OutboxTailNotOwned)));
    assert!(core.event_outbox.is_empty());
    assert_eq!(core.next_event_id, id + 1);
}

#[test]
fn a_snapshot_records_the_newest_inverse_of_each_declared_owner() {
    let mut core = core_with(manifest(vec![], vec![], vec![]));
    let actor = core.fibers[0].id;
    core.patch_owners.push(PatchOwner { target: "tools".into(), fiber: actor });
    let desired = tree(vec![app_root()]);
    assert_eq!(
        core.journal_effect_sources(&desired),
        Err(Error::Invariant(InvariantIssue::CompositionInverseMissing))
    );
    core.fibers[0].accumulator.push(Inverse::RestoreComposition { effect: 3, target: "tools".into(), undo: CompositionPatch::remove_root("tools".into()) });
    core.fibers[0].accumulator.push(Inverse::RestoreState { effect: 4, key: 1, previous: None });
    core.fibers[0].accumulator.push(Inverse::RestoreComposition { effect: 5, target: "tools".into(), undo: CompositionPatch::remove_root("tools".into()) });
    core.fibers[0].accumulator.push(Inverse::RestoreComposition { effect: 6, target: "other".into(), undo: CompositionPatch::remove_root("other".into()) });
    assert_eq!(core.journal_effect_sources(&desired), Ok(vec![EffectSource { owner: 0, fiber: 0, inverse: 2 }]));
    assert_eq!(core.journal_effect_sources(&tree(vec![])), Ok(vec![]));
    core.patch_owners[0].fiber = FiberId(99);
    assert_eq!(core.journal_effect_sources(&desired), Err(Error::Invariant(InvariantIssue::PatchOwnerMissing)));
}

#[test]
fn a_set_state_is_undone_after_later_work_on_other_cells() {
    let mut core = core_with(manifest(vec![HostCapability::SetState], vec![], vec![]));
    let app = FiberId(1);
    assert_eq!(core.host_set_state(app, 1, 10), STATUS_OK);
    assert_eq!(core.host_set_state(app, 7, 40), STATUS_OK);
    assert_eq!(core.host_set_state(app, 2, 20), STATUS_OK);
    let later = core.fibers[0].accumulator.pop().unwrap();
    assert_eq!(core.apply_inverse(app, later, Ok(())), Ok(()));
    let inverse = core.fibers[0].accumulator.pop().unwrap();
    assert_eq!(inverse, Inverse::RestoreState { effect: 2, key: 7, previous: None });
    assert_eq!(core.apply_inverse(app, inverse, Ok(())), Ok(()));
    assert_eq!(core.state_cells, vec![StateCell { fiber: app, key: 1, value: 10 }]);
}

#[test]
fn a_candidate_takes_the_place_of_the_replaced_generation() {
    let mut core = core_with(manifest(vec![], vec![], vec![]));
    let previous = core.fibers[0].id;
    let candidate = core.allocate_fiber();
    assert_eq!(
        core.retire_previous(None, "app", FiberId(99), candidate),
        Err(Error::Invariant(InvariantIssue::SwapPreviousMissing))
    );
    assert_eq!(core.retire_previous(None, "app", previous, candidate), Ok(()));
    assert!(core.fibers.is_empty());
    assert_eq!(core.roots[0].fiber, candidate);
    core.place_candidate(candidate, None, "app".into(), 0, Some(vec![b"fresh".to_vec()]));
    assert_eq!(core.fibers.len(), 1);
    assert_eq!(core.fibers[0].id, candidate);
    assert_eq!(core.fibers[0].state, InternalState::Activating);
    assert!(core.fibers[0].pinned && core.fibers[0].instance);
    assert_eq!(core.fibers[0].workspace_buffers, vec![b"fresh".to_vec()]);
    assert_eq!(core.trace.last(), Some(&TraceEvent::FiberActivating { fiber: candidate, path: "app".into() }));
}

#[test]
fn an_unserved_candidate_waits_and_a_busy_generation_stays_out() {
    let mut core = core_with(manifest(vec![], vec![required(0)], vec![]));
    let previous = core.fibers[0].id;
    core.fibers[0].instance = true;
    let candidate = core.allocate_fiber();
    assert_eq!(
        core.retire_previous(None, "app", previous, candidate),
        Err(Error::Invariant(InvariantIssue::SwapRetainedEffects))
    );
    assert!(core.fibers.is_empty());
    assert_eq!(core.roots[0].fiber, previous);
    let traced = core.trace.len();
    core.place_candidate(candidate, None, "app".into(), 0, None);
    assert_eq!(core.fibers[0].state, InternalState::Inactive);
    assert!(core.fibers[0].pinned && !core.fibers[0].instance);
    assert_eq!(core.fibers[0].workspace_buffers, vec![b"seed".to_vec()]);
    assert_eq!(core.trace.len(), traced);
}

#[test]
fn a_replaced_generation_is_pinned_until_it_unloads() {
    let mut core = core_with(manifest(vec![], vec![], vec![]));
    let previous = core.fibers[0].id;
    assert_eq!(core.pin_replaced(FiberId(99)), Err(Error::Invariant(InvariantIssue::ReplacedMissing)));
    assert_eq!(core.pin_replaced(previous), Ok(()));
    assert!(core.fibers[0].retired && core.fibers[0].pinned);
    assert_eq!(core.check_replaced_inactive(previous), Err(Error::Invariant(InvariantIssue::ReplacedStillLoaded)));
    core.fibers[0].state = InternalState::Inactive;
    assert_eq!(core.check_replaced_inactive(previous), Ok(()));
    assert_eq!(core.check_replaced_inactive(FiberId(99)), Err(Error::Invariant(InvariantIssue::PinnedReplacedMissing)));
    assert_eq!(core.release_replaced(previous), Ok(()));
    assert!(!core.fibers[0].retired && !core.fibers[0].pinned);
    assert_eq!(core.release_replaced(FiberId(99)), Err(Error::Invariant(InvariantIssue::StagedReplacedMissing)));
}

#[test]
fn the_stream_judges_the_outbox_then_the_pending_then_the_new_event() {
    let mut core = core_with(manifest(vec![], vec![], vec![]));
    let actor = core.fibers[0].id;
    let grant = || EventGrant { namespace: "quartz".into(), name: "fact".into(), revision: 1 };
    core.next_event_id = 4;
    core.event_outbox.push(EventFact { id: 3, actor_path: "app".into(), event: grant(), value: 1, payload: None });
    let payload = DurablePayload { provenance: "user".into(), sha256: sha256_hex(b"hi"), bytes: b"hi".to_vec() };
    core.pending_events.push(PendingEvent { actor, index: 0, value: 2, payload: Some(payload.clone()) });
    let staged = core.staged_facts("app".into(), grant(), 9, None).unwrap();
    assert_eq!(
        staged,
        vec![
            EventFact { id: 3, actor_path: "app".into(), event: grant(), value: 1, payload: None },
            EventFact { id: 4, actor_path: "app".into(), event: grant(), value: 2, payload: Some(payload) },
            EventFact { id: 5, actor_path: "app".into(), event: grant(), value: 9, payload: None },
        ]
    );
    core.pending_events.push(PendingEvent { actor: FiberId(99), index: 0, value: 2, payload: None });
    assert_eq!(core.staged_facts("app".into(), grant(), 9, None), None);
}
