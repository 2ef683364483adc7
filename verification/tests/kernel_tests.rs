use quartz::dependency::{detect_cycle, validate_entries, Entry, Graph};
use quartz::digest::{sha256, sha256_hex};
use quartz::error::{Error, JournalIssue, MutationIssue};
use quartz::exchange::{
    check_request, classify_response, settle_recovered, exchange_result, exchange_step, ExchangeFailure, ExchangeLedgerFailure,
    ExchangeLedgerOutcome, ExchangeResponse, ExchangeStep,
};
use quartz::journal::{check_schema, decode, encode_frame};
use quartz::manifest::{BindingKind, ComponentDeclaration, ProvidedBinding, RequiredBinding};
use quartz::repository::{
    after_failed_publish, after_failed_restore, holds_result, publication_ownership, publish_workspace,
    recover_workspace_publication, step_error, verify_promoted_record, workspace_status, MutationOutcome,
    MutationRecord, MutationStep, PublicationOwnership, WorkspaceGrant,
};
use quartz::schedule::{after_phase, first_phase, reconcile_next, Reconcile, StepAction, StepPhase};
use quartz::text::{trimmed, utf8_text};

const ABC_SHA256: &str = "ba7816bf8f01cfea414140de5dae2223b00361a396177a9cb410ff61f20015ad";

#[test]
fn sha256_hex_matches_known_digest() {
    assert_eq!(sha256_hex(b"abc"), ABC_SHA256.as_bytes().to_vec());
    assert_eq!(sha256(b"abc").len(), 32);
    assert_eq!(sha256(b"abc")[0], 0xba);
}

#[test]
fn text_is_read_as_utf8_and_trimmed() {
    assert!(utf8_text(b"caf\xc3\xa9").is_some());
    assert!(utf8_text(b"\xff").is_none());
    assert_eq!(trimmed(b"  approve\n"), b"approve".to_vec());
    assert_eq!(trimmed(b"\xff approve"), Vec::<u8>::new());
}

#[test]
fn journal_frames_read_back_what_was_appended() {
    let first = encode_frame(0, b"{\"one\":1}", 1024).unwrap();
    assert_eq!(&first[..8], b"QUARTZJ1");
    let second = encode_frame(1, b"{\"two\":2}", 1024).unwrap();
    assert_eq!(&second[..8], &2u64.to_le_bytes());
    let mut journal = first.clone();
    journal.extend_from_slice(&second);
    let frames = decode(&journal, 1024).unwrap();
    assert_eq!(frames.sequence, 2);
    assert_eq!(frames.valid_len, journal.len());
    assert_eq!(frames.payloads, vec![b"{\"one\":1}".to_vec(), b"{\"two\":2}".to_vec()]);
    assert!(frames.failure.is_none());
}

#[test]
fn journal_torn_tail_is_dropped() {
    let mut journal = encode_frame(0, b"first", 1024).unwrap();
    let clean = journal.len();
    let second = encode_frame(1, b"second", 1024).unwrap();
    journal.extend_from_slice(&second[..second.len() - 3]);
    let frames = decode(&journal, 1024).unwrap();
    assert_eq!(frames.sequence, 1);
    assert_eq!(frames.valid_len, clean);
    assert_eq!(frames.payloads, vec![b"first".to_vec()]);
    assert!(frames.failure.is_none());
    let empty = decode(b"QUAR", 1024).unwrap();
    assert_eq!(empty.valid_len, 0);
    assert_eq!(empty.sequence, 0);
}

#[test]
fn journal_corruption_is_reported() {
    assert_eq!(decode(b"NOTAJOURNAL", 1024).err(), Some(Error::JournalCorrupt(JournalIssue::InvalidMagic)));
    let mut journal = encode_frame(0, b"first", 1024).unwrap();
    let last = journal.len() - 1;
    journal[last] ^= 1;
    let frames = decode(&journal, 1024).unwrap();
    assert_eq!(frames.failure, Some(Error::JournalCorrupt(JournalIssue::ChecksumMismatch(1))));
    assert!(frames.payloads.is_empty());
    let gap = encode_frame(4, b"late", 1024).unwrap();
    let mut journal = b"QUARTZJ1".to_vec();
    journal.extend_from_slice(&gap);
    let frames = decode(&journal, 1024).unwrap();
    assert_eq!(frames.failure, Some(Error::JournalCorrupt(JournalIssue::SequenceGap { found: 5, previous: 0 })));
    let big = encode_frame(0, b"0123456789", 1024).unwrap();
    let frames = decode(&big, 4).unwrap();
    assert_eq!(frames.failure, Some(Error::JournalRecordLimit { actual: 10, limit: 4 }));
    assert_eq!(encode_frame(0, b"0123456789", 4).err(), Some(Error::JournalRecordLimit { actual: 10, limit: 4 }));
    assert_eq!(check_schema(1), Ok(()));
    assert_eq!(check_schema(2), Err(Error::JournalCorrupt(JournalIssue::UnsupportedSchema(2))));
}

fn graph(names: &[&str], children: Vec<Vec<usize>>) -> Graph {
    Graph { names: names.iter().map(|n| n.to_string()).collect(), children }
}

#[test]
fn dependency_cycles_are_found() {
    assert_eq!(detect_cycle(&graph(&["a", "b", "c"], vec![vec![1], vec![2], vec![]])), Ok(()));
    match detect_cycle(&graph(&["a", "b", "c"], vec![vec![1], vec![2], vec![0]])) {
        Err(Error::DependencyCycle(cycle)) => {
            assert_eq!(cycle.first(), cycle.last());
            assert_eq!(cycle.len(), 4);
        },
        other => panic!("expected a cycle, got {other:?}"),
    }
    assert!(detect_cycle(&graph(&["a"], vec![vec![0]])).is_err());
}

fn provided(namespace: &str, interface: &str, revision: u32) -> ProvidedBinding {
    ProvidedBinding { slot: 0, kind: BindingKind::Value, namespace: namespace.into(), interface: interface.into(), revision }
}

fn required(namespace: &str, interface: &str) -> RequiredBinding {
    RequiredBinding {
        slot: 0,
        kind: BindingKind::Value,
        namespace: namespace.into(),
        interface: interface.into(),
        min_revision: 1,
        max_revision: 2,
    }
}

fn entry(path: &str, inject: Vec<RequiredBinding>, provide: Vec<ProvidedBinding>) -> Entry {
    Entry {
        path: path.into(),
        component: ComponentDeclaration { id: path.into(), config_schema: "none".into(), max_activation_steps: 1, inject, provide },
    }
}

#[test]
fn entries_refuse_collisions_and_cycles() {
    let chain = vec![
        entry("a", vec![], vec![provided("q", "x", 1)]),
        entry("b", vec![required("q", "x")], vec![provided("q", "y", 1)]),
    ];
    assert_eq!(validate_entries(&chain), Ok(()));
    let collision = vec![
        entry("a", vec![], vec![provided("q", "x", 1)]),
        entry("b", vec![], vec![provided("q", "x", 2)]),
    ];
    assert_eq!(
        validate_entries(&collision),
        Err(Error::ProviderCollision { namespace: "q".into(), interface: "x".into(), revision: 2 })
    );
    let cycle = vec![
        entry("a", vec![required("q", "y")], vec![provided("q", "x", 1)]),
        entry("b", vec![required("q", "x")], vec![provided("q", "y", 1)]),
    ];
    match validate_entries(&cycle) {
        Err(Error::DependencyCycle(paths)) => assert_eq!(paths.first(), paths.last()),
        other => panic!("expected a cycle, got {other:?}"),
    }
    let out_of_range = vec![
        entry("a", vec![required("q", "y")], vec![provided("q", "x", 1)]),
        entry("b", vec![required("q", "x")], vec![provided("q", "y", 3)]),
    ];
    assert_eq!(validate_entries(&out_of_range), Ok(()));
}

fn grant() -> WorkspaceGrant {
    WorkspaceGrant::new(
        "/repo/a.txt".into(),
        "/repo/.ledger".into(),
        7,
        "model".into(),
        String::from_utf8(sha256_hex(b"before")).unwrap(),
        String::from_utf8(sha256_hex(b"after")).unwrap(),
        1024,
    )
    .unwrap()
}

#[test]
fn workspace_grants_need_valid_fields() {
    let bad = WorkspaceGrant::new("/a".into(), "/l".into(), 0, "p".into(), "0".repeat(64), "0".repeat(64), 1);
    assert_eq!(bad, Err(Error::InvalidWorkspaceGrant));
    let bad = WorkspaceGrant::new("/a".into(), "/l".into(), 1, "p".into(), "0".repeat(63), "0".repeat(64), 1);
    assert_eq!(bad, Err(Error::InvalidWorkspaceGrant));
    let bad = WorkspaceGrant::new("/a".into(), "/l".into(), 1, String::new(), "0".repeat(64), "0".repeat(64), 1);
    assert_eq!(bad, Err(Error::InvalidWorkspaceGrant));
    assert!(WorkspaceGrant::new("/a".into(), "/l".into(), 1, "p".into(), "0".repeat(64), "f".repeat(64), 1).is_ok());
}

#[test]
fn publication_follows_the_ledger_and_the_file() {
    let g = grant();
    let before = sha256_hex(b"before");
    let after = sha256_hex(b"after");
    let other = sha256_hex(b"other");
    assert_eq!(publish_workspace(&g, None, &before), MutationStep::Publish);
    assert_eq!(
        publish_workspace(&g, None, &other),
        MutationStep::Stale { expected: g.before_sha256.clone(), actual: other.clone() }
    );
    assert_eq!(publish_workspace(&g, Some(MutationOutcome::Started), &after), MutationStep::RecordApplied);
    assert_eq!(publish_workspace(&g, Some(MutationOutcome::Applied), &after), MutationStep::Done);
    assert_eq!(publish_workspace(&g, Some(MutationOutcome::Applied), &other), MutationStep::RecordAmbiguous);
    assert_eq!(publish_workspace(&g, Some(MutationOutcome::Ambiguous), &after), MutationStep::Ambiguous);
    assert_eq!(after_failed_publish(&g, Some(&after)), MutationStep::RecordApplied);
    assert_eq!(after_failed_publish(&g, None), MutationStep::RecordAmbiguous);
    assert_eq!(step_error(&g, MutationStep::RecordAmbiguous), Some(Error::MutationAmbiguous("/repo/a.txt".into())));
    assert_eq!(step_error(&g, MutationStep::Done), None);
}

#[test]
fn recovery_and_promotion_follow_the_ledger() {
    let g = grant();
    let before = sha256_hex(b"before");
    let after = sha256_hex(b"after");
    let other = sha256_hex(b"other");
    assert_eq!(recover_workspace_publication(&g, MutationOutcome::Applied, &after), MutationStep::Restore);
    assert_eq!(recover_workspace_publication(&g, MutationOutcome::Started, &before), MutationStep::RecordReverted);
    assert_eq!(recover_workspace_publication(&g, MutationOutcome::Reverted, &before), MutationStep::Done);
    assert_eq!(recover_workspace_publication(&g, MutationOutcome::Applied, &other), MutationStep::RecordAmbiguous);
    assert_eq!(
        recover_workspace_publication(&g, MutationOutcome::Promoted, &after),
        MutationStep::Corrupt(MutationIssue::ArmedAfterPromotion)
    );
    assert_eq!(after_failed_restore(&g, Some(&before)), MutationStep::RecordReverted);
    assert_eq!(after_failed_restore(&g, Some(&after)), MutationStep::KeepError);
    assert_eq!(after_failed_restore(&g, Some(&other)), MutationStep::RecordAmbiguous);
    assert!(holds_result(&g, Some(&after)));
    assert!(!holds_result(&g, None));
    let promoted = MutationRecord { outcome: MutationOutcome::Promoted, approver: Some("alice".into()) };
    assert_eq!(
        publication_ownership(&g, Some(&after), Some(promoted.clone())),
        Some(PublicationOwnership::Promoted("alice".into()))
    );
    assert_eq!(publication_ownership(&g, Some(&other), Some(promoted.clone())), None);
    assert_eq!(verify_promoted_record(&g, &promoted, &"alice".to_string()), Ok(()));
    assert_eq!(
        verify_promoted_record(&g, &promoted, &"bob".to_string()),
        Err(Error::MutationCorrupt(MutationIssue::InverseApprover))
    );
    assert_eq!(workspace_status(&Error::MutationAmbiguous("/x".into())), 10);
    assert_eq!(workspace_status(&Error::MutationCorrupt(MutationIssue::InverseCommit)), 6);
    assert_eq!(workspace_status(&Error::InvalidWorkspaceGrant), 4);
}

#[test]
fn exchanges_are_classified_and_staged() {
    assert_eq!(check_request(b"hello", 16), Ok(()));
    assert_eq!(check_request(b"", 16), Err(5));
    assert_eq!(check_request(b"\xff", 16), Err(5));
    assert_eq!(check_request(b"hello", 4), Err(5));
    let response = ExchangeResponse { provenance: "model".into(), bytes: b"answer".to_vec(), usage: 12 };
    match classify_response(Some(Ok(response.clone())), 1024) {
        ExchangeLedgerOutcome::Succeeded { payload, usage } => {
            assert_eq!(usage, 12);
            assert_eq!(payload.sha256, sha256_hex(b"answer"));
        },
        other => panic!("expected success, got {other:?}"),
    }
    assert_eq!(
        classify_response(Some(Ok(response.clone())), 3),
        ExchangeLedgerOutcome::Failed { failure: ExchangeLedgerFailure::ResponseLimit }
    );
    let anonymous = ExchangeResponse { provenance: String::new(), ..response };
    assert_eq!(
        classify_response(Some(Ok(anonymous)), 1024),
        ExchangeLedgerOutcome::Failed { failure: ExchangeLedgerFailure::Protocol }
    );
    assert_eq!(
        classify_response(Some(Err(ExchangeFailure::Authentication)), 1024),
        ExchangeLedgerOutcome::Failed { failure: ExchangeLedgerFailure::Authentication }
    );
    let timed_out = classify_response(None, 1024);
    assert_eq!(timed_out, ExchangeLedgerOutcome::Failed { failure: ExchangeLedgerFailure::Ambiguous });
    assert_eq!(exchange_result(&timed_out), -17);
    assert_eq!(exchange_result(&ExchangeLedgerOutcome::Started), -10);
    assert_eq!(settle_recovered(ExchangeLedgerOutcome::Started), timed_out);
}

#[test]
fn a_recorded_exchange_is_answered_from_its_ledger() {
    let ambiguous = ExchangeLedgerOutcome::Failed { failure: ExchangeLedgerFailure::Ambiguous };
    assert_eq!(
        exchange_step(Ok(Some(ExchangeLedgerOutcome::Started)), true),
        ExchangeStep::Replay { terminal: Some(ambiguous.clone()), outcome: ambiguous.clone() }
    );
    assert_eq!(exchange_result(&ambiguous), -17);
    let rejected = ExchangeLedgerOutcome::Failed { failure: ExchangeLedgerFailure::RequestRejected };
    assert_eq!(
        exchange_step(Ok(Some(rejected.clone())), false),
        ExchangeStep::Replay { terminal: None, outcome: rejected }
    );
    assert_eq!(exchange_step(Ok(None), true), ExchangeStep::Busy);
    assert_eq!(exchange_step(Ok(None), false), ExchangeStep::Call);
    let corrupt = Error::MutationCorrupt(MutationIssue::NoInverseRecord);
    assert_eq!(exchange_step(Err(corrupt.clone()), false), ExchangeStep::LedgerFailed(corrupt));
}

#[test]
fn a_step_tries_each_phase_in_order_until_one_progresses() {
    let mut phase = first_phase();
    let mut order = vec![phase];
    loop {
        match after_phase(phase, false) {
            StepAction::Run(next) => {
                order.push(next);
                phase = next;
            }
            StepAction::Quiet => break,
            StepAction::Progressed => unreachable!(),
        }
    }
    assert_eq!(
        order,
        vec![
            StepPhase::RetryOutbox,
            StepPhase::PendingEvent,
            StepPhase::PendingPatch,
            StepPhase::Refresh,
            StepPhase::Recover,
            StepPhase::Advance,
            StepPhase::Remove,
            StepPhase::Begin,
        ]
    );
    assert_eq!(after_phase(StepPhase::Refresh, true), StepAction::Progressed);
}

#[test]
fn reconciliation_stops_when_quiet_or_at_its_bound() {
    assert_eq!(reconcile_next(0, 3, false), Reconcile::Step);
    assert_eq!(reconcile_next(2, 3, true), Reconcile::Quiescent);
    assert_eq!(reconcile_next(3, 3, false), Reconcile::Exceeded(Error::ReconciliationLimit(3)));
    assert_eq!(reconcile_next(0, 0, false), Reconcile::Exceeded(Error::ReconciliationLimit(0)));
}
