//! Host-admitted repository mutation and promotion.
//!
//! A workspace grant lets a component replace one source file with bytes of a
//! pinned digest. Every publication is recorded in a mutation ledger under
//! the grant's operation number before the file is replaced, so that a
//! publication interrupted at any point can be completed, reverted, or
//! reported ambiguous from what the ledger and the file hold. The decisions
//! below take what the host read from the ledger and the file and name the
//! next durable step.

use vstd::prelude::*;
use crate::composition::bytes_equal;
use crate::digest::{spec_valid_sha256, valid_sha256};
use crate::error::{Error, MutationIssue};
use crate::orchestrator::utf8_of;
use crate::status::{STATUS_AMBIGUOUS, STATUS_COLLISION, STATUS_INVALID, STATUS_LIMIT, STATUS_STALE};

verus! {

/// Authority to replace one source file with digest-pinned bytes, recorded
/// in a mutation ledger under one operation number.
#[derive(Clone, Debug, PartialEq, Eq)]
pub struct WorkspaceGrant {
    pub source_path: String,
    pub ledger_path: String,
    pub operation: u64,
    pub provenance: String,
    pub before_sha256: String,
    pub result_sha256: String,
    pub max_bytes: usize,
}

/// A grant's fields are usable: a nonzero operation and byte bound, a
/// provenance, and two digests in canonical form.
pub open spec fn grant_fields_valid(operation: u64, provenance: String, before_sha256: String, result_sha256: String, max_bytes: usize) -> bool {
    &&& operation != 0
    &&& max_bytes != 0
    &&& provenance@.len() > 0
    &&& spec_valid_sha256(utf8_of(before_sha256))
    &&& spec_valid_sha256(utf8_of(result_sha256))
}

impl WorkspaceGrant {
    /// A grant for the canonical `source_path`, refused unless its fields are
    /// usable.
    pub fn new(
        source_path: String,
        ledger_path: String,
        operation: u64,
        provenance: String,
        before_sha256: String,
        result_sha256: String,
        max_bytes: usize,
    ) -> (r: Result<Self, Error>)
        ensures
            match r {
                Ok(g) => grant_fields_valid(operation, provenance, before_sha256, result_sha256, max_bytes)
                    && g == (WorkspaceGrant { source_path, ledger_path, operation, provenance, before_sha256, result_sha256, max_bytes }),
                Err(e) => !grant_fields_valid(operation, provenance, before_sha256, result_sha256, max_bytes)
                    && e == Error::InvalidWorkspaceGrant,
            },
    {
        let provenance_text = provenance.as_str();
        if operation == 0 || max_bytes == 0 || provenance_text.unicode_len() == 0
            || !valid_sha256(before_sha256.as_str().as_bytes())
            || !valid_sha256(result_sha256.as_str().as_bytes()) {
            return Err(Error::InvalidWorkspaceGrant);
        }
        Ok(WorkspaceGrant { source_path, ledger_path, operation, provenance, before_sha256, result_sha256, max_bytes })
    }
}

/// What a mutation ledger records of one operation.
#[derive(Clone, Copy, Debug, PartialEq, Eq, Structural)]
pub enum MutationOutcome {
    /// The publication started; the file may or may not hold the result.
    Started,
    /// The file holds the published result.
    Applied,
    /// A promotion was approved and is being committed.
    PromotionIntent,
    /// The published result was promoted.
    Promoted,
    /// The publication was reverted to the bytes before it.
    Reverted,
    /// The file holds neither side of the publication.
    Ambiguous,
}

/// The ledger record of one operation: its outcome and, once promoted, the
/// approver of the promotion.
#[derive(Clone, Debug, PartialEq, Eq)]
pub struct MutationRecord {
    pub outcome: MutationOutcome,
    pub approver: Option<String>,
}

/// The identity a ledger record must match: the grant's source, provenance
/// and digests and the exact bytes before and after.
#[derive(Debug, PartialEq, Eq)]
pub struct MutationLedgerIdentity {
    pub source_path: String,
    pub provenance: String,
    pub before_sha256: String,
    pub result_sha256: String,
    pub before_bytes: Vec<u8>,
    pub result_bytes: Vec<u8>,
}

/// Returns the identity of a publication under a grant.
pub fn mutation_ledger_identity(grant: &WorkspaceGrant, before_bytes: &[u8], result_bytes: &[u8]) -> (r: MutationLedgerIdentity)
    ensures
        r.source_path == grant.source_path,
        r.provenance == grant.provenance,
        r.before_sha256 == grant.before_sha256,
        r.result_sha256 == grant.result_sha256,
        r.before_bytes@ == before_bytes@,
        r.result_bytes@ == result_bytes@,
{
    MutationLedgerIdentity {
        source_path: grant.source_path.clone(),
        provenance: grant.provenance.clone(),
        before_sha256: grant.before_sha256.clone(),
        result_sha256: grant.result_sha256.clone(),
        before_bytes: vstd::slice::slice_to_vec(before_bytes),
        result_bytes: vstd::slice::slice_to_vec(result_bytes),
    }
}

/// The next durable step of a publication, restoration or promotion.
#[derive(Debug, PartialEq, Eq)]
pub enum MutationStep {
    /// Nothing is left to do: the step succeeded.
    Done,
    /// Record the start and replace the file with the result bytes.
    Publish,
    /// Record that the file holds the result, then succeed.
    RecordApplied,
    /// Replace the file with the bytes before the publication.
    Restore,
    /// Record that the file holds the bytes before, then succeed.
    RecordReverted,
    /// Record the promotion's approver and its commit, then succeed.
    RecordPromotion,
    /// Record that the outcome is ambiguous, then refuse as ambiguous.
    RecordAmbiguous,
    /// Refuse with the error the failed replacement gave.
    KeepError,
    /// Refuse: the file does not hold the digest `expected` but `actual`.
    Stale { expected: String, actual: Vec<u8> },
    /// Refuse: the outcome is already ambiguous.
    Ambiguous,
    /// Refuse: the ledger contradicts the step.
    Corrupt(MutationIssue),
}

/// The value of a mutation step.
pub enum MutationStepView {
    Done,
    Publish,
    RecordApplied,
    Restore,
    RecordReverted,
    RecordPromotion,
    RecordAmbiguous,
    KeepError,
    Stale { expected: String, actual: Seq<u8> },
    Ambiguous,
    Corrupt(MutationIssue),
}

impl View for MutationStep {
    type V = MutationStepView;

    open spec fn view(&self) -> MutationStepView {
        match self {
            MutationStep::Done => MutationStepView::Done,
            MutationStep::Publish => MutationStepView::Publish,
            MutationStep::RecordApplied => MutationStepView::RecordApplied,
            MutationStep::Restore => MutationStepView::Restore,
            MutationStep::RecordReverted => MutationStepView::RecordReverted,
            MutationStep::RecordPromotion => MutationStepView::RecordPromotion,
            MutationStep::RecordAmbiguous => MutationStepView::RecordAmbiguous,
            MutationStep::KeepError => MutationStepView::KeepError,
            MutationStep::Stale { expected, actual } => MutationStepView::Stale { expected: *expected, actual: actual@ },
            MutationStep::Ambiguous => MutationStepView::Ambiguous,
            MutationStep::Corrupt(issue) => MutationStepView::Corrupt(*issue),
        }
    }
}

/// The file holds the digest `named`.
pub open spec fn holds(digest: Seq<u8>, named: String) -> bool {
    digest == utf8_of(named)
}

/// Returns whether a digest is the one a string names.
fn digest_is(digest: &[u8], named: &String) -> (r: bool)
    ensures
        r == holds(digest@, *named),
{
    bytes_equal(digest, named.as_str().as_bytes())
}

/// The error a refusing step reports for a grant's file, if it refuses.
pub open spec fn spec_step_error(grant: WorkspaceGrant, step: MutationStep) -> Option<Error> {
    match step {
        MutationStep::Stale { expected, actual } => Some(Error::WorkspaceDigestMismatch { path: grant.source_path, expected, actual }),
        MutationStep::RecordAmbiguous => Some(Error::MutationAmbiguous(grant.source_path)),
        MutationStep::Ambiguous => Some(Error::MutationAmbiguous(grant.source_path)),
        MutationStep::Corrupt(issue) => Some(Error::MutationCorrupt(issue)),
        _ => None,
    }
}

/// Returns the error a refusing step reports for a grant's file.
pub fn step_error(grant: &WorkspaceGrant, step: MutationStep) -> (r: Option<Error>)
    ensures
        r == spec_step_error(*grant, step),
{
    match step {
        MutationStep::Stale { expected, actual } => Some(Error::WorkspaceDigestMismatch { path: grant.source_path.clone(), expected, actual }),
        MutationStep::RecordAmbiguous => Some(Error::MutationAmbiguous(grant.source_path.clone())),
        MutationStep::Ambiguous => Some(Error::MutationAmbiguous(grant.source_path.clone())),
        MutationStep::Corrupt(issue) => Some(Error::MutationCorrupt(issue)),
        _ => None,
    }
}

/// What publishing under a grant does next, from the ledger's record of the
/// operation and the digest of the file: publish when nothing is recorded
/// and the file holds the bytes before; complete a started publication whose
/// result is in place; accept one already applied; otherwise refuse, after
/// recording ambiguity when the file left the published result.
pub open spec fn spec_publish(grant: WorkspaceGrant, existing: Option<MutationOutcome>, source_sha256: Seq<u8>) -> MutationStepView {
    let at_result = holds(source_sha256, grant.result_sha256);
    match existing {
        None => if holds(source_sha256, grant.before_sha256) {
            MutationStepView::Publish
        } else {
            MutationStepView::Stale { expected: grant.before_sha256, actual: source_sha256 }
        },
        Some(MutationOutcome::Started) => if at_result { MutationStepView::RecordApplied } else { MutationStepView::RecordAmbiguous },
        Some(MutationOutcome::Applied) | Some(MutationOutcome::PromotionIntent) | Some(MutationOutcome::Promoted) => if at_result {
            MutationStepView::Done
        } else {
            MutationStepView::RecordAmbiguous
        },
        Some(MutationOutcome::Reverted) => MutationStepView::Stale { expected: grant.result_sha256, actual: source_sha256 },
        Some(MutationOutcome::Ambiguous) => MutationStepView::Ambiguous,
    }
}

/// Returns what publishing under a grant does next.
pub fn publish_workspace(grant: &WorkspaceGrant, existing: Option<MutationOutcome>, source_sha256: &[u8]) -> (r: MutationStep)
    ensures
        r@ == spec_publish(*grant, existing, source_sha256@),
{
    let at_result = digest_is(source_sha256, &grant.result_sha256);
    match existing {
        None => if digest_is(source_sha256, &grant.before_sha256) {
            MutationStep::Publish
        } else {
            MutationStep::Stale { expected: grant.before_sha256.clone(), actual: vstd::slice::slice_to_vec(source_sha256) }
        },
        Some(MutationOutcome::Started) => if at_result { MutationStep::RecordApplied } else { MutationStep::RecordAmbiguous },
        Some(MutationOutcome::Applied) | Some(MutationOutcome::PromotionIntent) | Some(MutationOutcome::Promoted) => if at_result {
            MutationStep::Done
        } else {
            MutationStep::RecordAmbiguous
        },
        Some(MutationOutcome::Reverted) => MutationStep::Stale {
            expected: grant.result_sha256.clone(),
            actual: vstd::slice::slice_to_vec(source_sha256),
        },
        Some(MutationOutcome::Ambiguous) => MutationStep::Ambiguous,
    }
}

/// What a publication does after its replacement failed, from the digest
/// of the file read again (none when it cannot be read): the result in
/// place counts as applied, anything else is ambiguous.
pub open spec fn spec_after_failed_publish(grant: WorkspaceGrant, current_sha256: Option<Seq<u8>>) -> MutationStepView {
    match current_sha256 {
        Some(d) => if holds(d, grant.result_sha256) { MutationStepView::RecordApplied } else { MutationStepView::RecordAmbiguous },
        None => MutationStepView::RecordAmbiguous,
    }
}

/// Returns what a publication does after its replacement failed.
pub fn after_failed_publish(grant: &WorkspaceGrant, current_sha256: Option<&[u8]>) -> (r: MutationStep)
    ensures
        r@ == spec_after_failed_publish(*grant, match current_sha256 { Some(d) => Some(d@), None => None }),
{
    match current_sha256 {
        Some(d) => if digest_is(d, &grant.result_sha256) { MutationStep::RecordApplied } else { MutationStep::RecordAmbiguous },
        None => MutationStep::RecordAmbiguous,
    }
}

/// Who owns a published workspace that a retired component leaves behind.
#[derive(Debug, PartialEq, Eq)]
pub enum PublicationOwnership {
    /// The publication is not promoted: restore the bytes before it.
    Restore,
    /// The publication was promoted by this approver.
    Promoted(String),
}

/// The ownership of a publication: only while the file holds the published
/// result, then restore an unpromoted one or keep a promoted one with its
/// approver; nothing otherwise, or when the ledger cannot be read.
pub open spec fn spec_publication_ownership(grant: WorkspaceGrant, source_sha256: Option<Seq<u8>>, record: Option<MutationRecord>) -> Option<PublicationOwnership> {
    match source_sha256 {
        Some(d) => if !holds(d, grant.result_sha256) {
            None
        } else {
            match record {
                Some(rec) => match rec.outcome {
                    MutationOutcome::Started | MutationOutcome::Applied | MutationOutcome::PromotionIntent => Some(PublicationOwnership::Restore),
                    MutationOutcome::Promoted => match rec.approver {
                        Some(approver) => Some(PublicationOwnership::Promoted(approver)),
                        None => None,
                    },
                    _ => None,
                },
                None => None,
            }
        },
        None => None,
    }
}

/// Whether the file, read as `source_sha256` (none when unreadable), holds
/// the published result; only then is the ledger consulted.
pub fn holds_result(grant: &WorkspaceGrant, source_sha256: Option<&[u8]>) -> (r: bool)
    ensures
        r == (source_sha256 matches Some(d) && holds(d@, grant.result_sha256)),
{
    match source_sha256 {
        Some(d) => digest_is(d, &grant.result_sha256),
        None => false,
    }
}

/// Returns the ownership of a publication; `record` is the ledger's record
/// of the operation, none when there is none or the ledger cannot be read.
pub fn publication_ownership(grant: &WorkspaceGrant, source_sha256: Option<&[u8]>, record: Option<MutationRecord>) -> (r: Option<PublicationOwnership>)
    ensures
        r == spec_publication_ownership(*grant, match source_sha256 { Some(d) => Some(d@), None => None }, record),
{
    if !holds_result(grant, source_sha256) {
        return None;
    }
    match record {
        Some(rec) => match rec.outcome {
            MutationOutcome::Started | MutationOutcome::Applied | MutationOutcome::PromotionIntent => Some(PublicationOwnership::Restore),
            MutationOutcome::Promoted => match rec.approver {
                Some(approver) => Some(PublicationOwnership::Promoted(approver)),
                None => None,
            },
            _ => None,
        },
        None => None,
    }
}

/// The record an inverse or a promotion needs, or the corruption its
/// absence is.
pub fn require_record(record: Option<MutationRecord>, missing: MutationIssue) -> (r: Result<MutationRecord, Error>)
    ensures
        match record {
            Some(rec) => r == Ok::<MutationRecord, Error>(rec),
            None => r == Err::<MutationRecord, Error>(Error::MutationCorrupt(missing)),
        },
{
    match record {
        Some(rec) => Ok(rec),
        None => Err(Error::MutationCorrupt(missing)),
    }
}

/// What promoting a publication does next, from its ledger record and the
/// digest of the file: a file that left the result is ambiguous; an applied
/// publication is promoted by a first, live approval; a promotion replayed
/// with its own approver stands; any other is refused.
pub open spec fn spec_promote(grant: WorkspaceGrant, record: MutationRecord, source_sha256: Seq<u8>, approver: String, replaying: bool, has_promoted_inverse: bool) -> MutationStepView {
    if !holds(source_sha256, grant.result_sha256) {
        MutationStepView::RecordAmbiguous
    } else {
        match record.outcome {
            MutationOutcome::Applied => if !replaying && !has_promoted_inverse {
                MutationStepView::RecordPromotion
            } else {
                MutationStepView::Ambiguous
            },
            MutationOutcome::Promoted => if has_promoted_inverse && (record.approver matches Some(a) && a@ == approver@) {
                MutationStepView::Done
            } else {
                MutationStepView::Corrupt(MutationIssue::ApproverChanged(grant.operation))
            },
            _ => MutationStepView::Ambiguous,
        }
    }
}

/// Promotion is recorded once, live, for a publication whose file holds the
/// published result: a live first promotion of an applied publication
/// records the promotion; a replayed one, or one whose inverse is already
/// held, never records it; a file that left the published result is
/// recorded as ambiguous; a promotion replayed with the approver it was
/// recorded with stands, and with any other approver the ledger is
/// corrupt; and nothing but an applied publication is ever promoted.
pub proof fn lemma_promotion_recorded_once(grant: WorkspaceGrant, record: MutationRecord, source_sha256: Seq<u8>, approver: String,
    replaying: bool, has_promoted_inverse: bool)
    ensures
        ({
            let step = spec_promote(grant, record, source_sha256, approver, replaying, has_promoted_inverse);
            &&& source_sha256 == utf8_of(grant.result_sha256) && record.outcome == MutationOutcome::Applied
                && !replaying && !has_promoted_inverse ==> step == MutationStepView::RecordPromotion
            &&& (replaying || has_promoted_inverse) ==> step != MutationStepView::RecordPromotion
            &&& step == MutationStepView::RecordPromotion ==> record.outcome == MutationOutcome::Applied
                && source_sha256 == utf8_of(grant.result_sha256)
            &&& source_sha256 != utf8_of(grant.result_sha256) ==> step == MutationStepView::RecordAmbiguous
            &&& source_sha256 == utf8_of(grant.result_sha256) && record.outcome == MutationOutcome::Promoted ==> (
                if has_promoted_inverse && (record.approver matches Some(a) && a@ == approver@) {
                    step == MutationStepView::Done
                } else if record.approver matches Some(a) && a@ != approver@ {
                    step == MutationStepView::Corrupt(MutationIssue::ApproverChanged(grant.operation))
                } else {
                    step != MutationStepView::Done
                })
        }),
{
}

/// Returns whether two strings are equal.
fn same_text(a: &String, b: &String) -> (r: bool)
    ensures
        r == (a@ == b@),
{
    let x = a.as_str().as_bytes();
    let y = b.as_str().as_bytes();
    proof {
        vstd::utf8::encode_utf8_decode_utf8(a@);
        vstd::utf8::encode_utf8_decode_utf8(b@);
    }
    bytes_equal(x, y)
}

/// Returns what promoting a publication does next.
pub fn promote_workspace(grant: &WorkspaceGrant, record: &MutationRecord, source_sha256: &[u8], approver: &String, replaying: bool, has_promoted_inverse: bool) -> (r: MutationStep)
    ensures
        r@ == spec_promote(*grant, *record, source_sha256@, *approver, replaying, has_promoted_inverse),
{
    if !digest_is(source_sha256, &grant.result_sha256) {
        return MutationStep::RecordAmbiguous;
    }
    match record.outcome {
        MutationOutcome::Applied => if !replaying && !has_promoted_inverse {
            MutationStep::RecordPromotion
        } else {
            MutationStep::Ambiguous
        },
        MutationOutcome::Promoted => {
            let same = match &record.approver {
                Some(a) => same_text(a, approver),
                None => false,
            };
            if has_promoted_inverse && same {
                MutationStep::Done
            } else {
                MutationStep::Corrupt(MutationIssue::ApproverChanged(grant.operation))
            }
        },
        _ => MutationStep::Ambiguous,
    }
}

/// What recovering an unpromoted publication does next, from its ledger
/// outcome and the digest of the file: restore a result still in place;
/// record a start that never replaced the file as reverted; accept a
/// completed revert; otherwise refuse, recording ambiguity when the
/// publication was live but the file holds neither side.
pub open spec fn spec_recover(grant: WorkspaceGrant, outcome: MutationOutcome, source_sha256: Seq<u8>) -> MutationStepView {
    let at_result = holds(source_sha256, grant.result_sha256);
    let at_before = holds(source_sha256, grant.before_sha256);
    match outcome {
        MutationOutcome::Applied | MutationOutcome::PromotionIntent => if at_result {
            MutationStepView::Restore
        } else {
            MutationStepView::RecordAmbiguous
        },
        MutationOutcome::Started => if at_result {
            MutationStepView::Restore
        } else if at_before {
            MutationStepView::RecordReverted
        } else {
            MutationStepView::RecordAmbiguous
        },
        MutationOutcome::Reverted => if at_before { MutationStepView::Done } else { MutationStepView::Ambiguous },
        MutationOutcome::Promoted => MutationStepView::Corrupt(MutationIssue::ArmedAfterPromotion),
        MutationOutcome::Ambiguous => MutationStepView::Ambiguous,
    }
}

/// Returns what recovering an unpromoted publication does next.
pub fn recover_workspace_publication(grant: &WorkspaceGrant, outcome: MutationOutcome, source_sha256: &[u8]) -> (r: MutationStep)
    ensures
        r@ == spec_recover(*grant, outcome, source_sha256@),
{
    let at_result = digest_is(source_sha256, &grant.result_sha256);
    let at_before = digest_is(source_sha256, &grant.before_sha256);
    match outcome {
        MutationOutcome::Applied | MutationOutcome::PromotionIntent => if at_result {
            MutationStep::Restore
        } else {
            MutationStep::RecordAmbiguous
        },
        MutationOutcome::Started => if at_result {
            MutationStep::Restore
        } else if at_before {
            MutationStep::RecordReverted
        } else {
            MutationStep::RecordAmbiguous
        },
        MutationOutcome::Reverted => if at_before { MutationStep::Done } else { MutationStep::Ambiguous },
        MutationOutcome::Promoted => MutationStep::Corrupt(MutationIssue::ArmedAfterPromotion),
        MutationOutcome::Ambiguous => MutationStep::Ambiguous,
    }
}

/// What a restoration does after its replacement failed, from the digest
/// of the file read again (none when unreadable): the bytes before in place
/// count as reverted; the result still in place keeps the failure; anything
/// else is ambiguous.
pub open spec fn spec_after_failed_restore(grant: WorkspaceGrant, current_sha256: Option<Seq<u8>>) -> MutationStepView {
    match current_sha256 {
        Some(d) => if holds(d, grant.before_sha256) {
            MutationStepView::RecordReverted
        } else if holds(d, grant.result_sha256) {
            MutationStepView::KeepError
        } else {
            MutationStepView::RecordAmbiguous
        },
        None => MutationStepView::RecordAmbiguous,
    }
}

/// Returns what a restoration does after its replacement failed.
pub fn after_failed_restore(grant: &WorkspaceGrant, current_sha256: Option<&[u8]>) -> (r: MutationStep)
    ensures
        r@ == spec_after_failed_restore(*grant, match current_sha256 { Some(d) => Some(d@), None => None }),
{
    match current_sha256 {
        Some(d) => if digest_is(d, &grant.before_sha256) {
            MutationStep::RecordReverted
        } else if digest_is(d, &grant.result_sha256) {
            MutationStep::KeepError
        } else {
            MutationStep::RecordAmbiguous
        },
        None => MutationStep::RecordAmbiguous,
    }
}

/// Whether the ledger backs a promotion inverse: the same approver and a
/// committed promotion; an ambiguous record is refused as ambiguous.
pub open spec fn spec_promoted_record(grant: WorkspaceGrant, record: MutationRecord, approver: String) -> Result<(), Error> {
    if !(record.approver matches Some(a) && a@ == approver@) {
        Err(Error::MutationCorrupt(MutationIssue::InverseApprover))
    } else if record.outcome == MutationOutcome::Ambiguous {
        Err(Error::MutationAmbiguous(grant.source_path))
    } else if record.outcome != MutationOutcome::Promoted {
        Err(Error::MutationCorrupt(MutationIssue::InverseCommit))
    } else {
        Ok(())
    }
}

/// Checks that the ledger backs a promotion inverse.
pub fn verify_promoted_record(grant: &WorkspaceGrant, record: &MutationRecord, approver: &String) -> (r: Result<(), Error>)
    ensures
        r == spec_promoted_record(*grant, *record, *approver),
{
    let same = match &record.approver {
        Some(a) => same_text(a, approver),
        None => false,
    };
    if !same {
        return Err(Error::MutationCorrupt(MutationIssue::InverseApprover));
    }
    if record.outcome == MutationOutcome::Ambiguous {
        return Err(Error::MutationAmbiguous(grant.source_path.clone()));
    }
    if record.outcome != MutationOutcome::Promoted {
        return Err(Error::MutationCorrupt(MutationIssue::InverseCommit));
    }
    Ok(())
}

/// What verifying a promoted workspace does once its record checks: accept
/// the result in place, else record ambiguity.
pub fn verify_promoted_workspace(grant: &WorkspaceGrant, source_sha256: &[u8]) -> (r: MutationStep)
    ensures
        r@ == (if holds(source_sha256@, grant.result_sha256) { MutationStepView::Done } else { MutationStepView::RecordAmbiguous }),
{
    if digest_is(source_sha256, &grant.result_sha256) {
        MutationStep::Done
    } else {
        MutationStep::RecordAmbiguous
    }
}

/// The status a component sees for a refused workspace operation.
pub open spec fn spec_workspace_status(error: Error) -> i32 {
    match error {
        Error::WorkspaceBytesLimit { .. } | Error::MutationRecordLimit { .. } => STATUS_LIMIT,
        Error::WorkspaceDigestMismatch { .. } => STATUS_STALE,
        Error::MutationCorrupt(_) => STATUS_COLLISION,
        Error::MutationAmbiguous(_) => STATUS_AMBIGUOUS,
        _ => STATUS_INVALID,
    }
}

/// Returns the status a component sees for a refused workspace operation:
/// a bound exceeded, a stale source, a contradicting ledger, an ambiguous
/// outcome, or invalid.
pub fn workspace_status(error: &Error) -> (r: i32)
    ensures
        r == spec_workspace_status(*error),
{
    match error {
        Error::WorkspaceBytesLimit { .. } | Error::MutationRecordLimit { .. } => STATUS_LIMIT,
        Error::WorkspaceDigestMismatch { .. } => STATUS_STALE,
        Error::MutationCorrupt(_) => STATUS_COLLISION,
        Error::MutationAmbiguous(_) => STATUS_AMBIGUOUS,
        _ => STATUS_INVALID,
    }
}

/// A file is replaced by a publication only when nothing is recorded for
/// it and it holds the bytes the grant starts from; otherwise a stale file
/// is reported with the digest expected; a started publication whose result
/// is in place is recorded as applied; an applied or promoted one stands
/// while its result is in place; and a file that left the result of a live
/// publication is recorded as ambiguous.
pub proof fn lemma_publication_steps(grant: WorkspaceGrant, existing: Option<MutationOutcome>, source_sha256: Seq<u8>)
    ensures
        ({
            let step = spec_publish(grant, existing, source_sha256);
            let at_result = source_sha256 == utf8_of(grant.result_sha256);
            let at_before = source_sha256 == utf8_of(grant.before_sha256);
            &&& step == MutationStepView::Publish <==> (existing is None && at_before)
            &&& existing is None && !at_before ==> step == (MutationStepView::Stale { expected: grant.before_sha256, actual: source_sha256 })
            &&& existing == Some(MutationOutcome::Started) ==> step == (if at_result {
                MutationStepView::RecordApplied } else { MutationStepView::RecordAmbiguous })
            &&& (existing == Some(MutationOutcome::Applied) || existing == Some(MutationOutcome::PromotionIntent)
                || existing == Some(MutationOutcome::Promoted)) ==> step == (if at_result {
                MutationStepView::Done } else { MutationStepView::RecordAmbiguous })
            &&& existing == Some(MutationOutcome::Reverted) ==> step == (MutationStepView::Stale {
                expected: grant.result_sha256, actual: source_sha256 })
            &&& existing == Some(MutationOutcome::Ambiguous) ==> step == MutationStepView::Ambiguous
        }),
{
}

/// Recovering an unpromoted publication restores the bytes before it only
/// while the file holds its result; a start that never replaced the file is
/// recorded as reverted; a completed revert stands; a promoted publication
/// is never recovered; and a live publication whose file holds neither side
/// is recorded as ambiguous.
pub proof fn lemma_recovery_steps(grant: WorkspaceGrant, outcome: MutationOutcome, source_sha256: Seq<u8>)
    ensures
        ({
            let step = spec_recover(grant, outcome, source_sha256);
            let at_result = source_sha256 == utf8_of(grant.result_sha256);
            let at_before = source_sha256 == utf8_of(grant.before_sha256);
            let live = outcome == MutationOutcome::Started || outcome == MutationOutcome::Applied
                || outcome == MutationOutcome::PromotionIntent;
            &&& step == MutationStepView::Restore <==> (live && at_result)
            &&& step == MutationStepView::RecordReverted <==> (outcome == MutationOutcome::Started && !at_result && at_before)
            &&& outcome == MutationOutcome::Reverted ==> step == (if at_before { MutationStepView::Done } else { MutationStepView::Ambiguous })
            &&& outcome == MutationOutcome::Promoted ==> step == MutationStepView::Corrupt(MutationIssue::ArmedAfterPromotion)
            &&& outcome == MutationOutcome::Ambiguous ==> step == MutationStepView::Ambiguous
            &&& live && !at_result && !(outcome == MutationOutcome::Started && at_before) ==> step == MutationStepView::RecordAmbiguous
        }),
{
}

/// Publishing is idempotent: once the ledger records a publication as
/// applied (or promoted) and the file holds its result, publishing again
/// does nothing.
pub proof fn lemma_publish_idempotent(grant: WorkspaceGrant, outcome: MutationOutcome, source_sha256: Seq<u8>)
    requires
        outcome == MutationOutcome::Applied || outcome == MutationOutcome::PromotionIntent
            || outcome == MutationOutcome::Promoted,
        holds(source_sha256, grant.result_sha256),
    ensures
        spec_publish(grant, Some(outcome), source_sha256) == MutationStepView::Done,
{
}

/// Recovery is idempotent: a reverted publication whose file holds the bytes
/// before it needs nothing more.
pub proof fn lemma_recover_idempotent(grant: WorkspaceGrant, source_sha256: Seq<u8>)
    requires
        holds(source_sha256, grant.before_sha256),
    ensures
        spec_recover(grant, MutationOutcome::Reverted, source_sha256) == MutationStepView::Done,
{
}

/// A publication never silently leaves the file in an unknown state: every
/// step from a live record either acts on a file that holds one side of the
/// publication or records the outcome as ambiguous.
pub proof fn lemma_live_publication_resolves(grant: WorkspaceGrant, outcome: MutationOutcome, source_sha256: Seq<u8>)
    requires
        outcome == MutationOutcome::Started || outcome == MutationOutcome::Applied
            || outcome == MutationOutcome::PromotionIntent,
        !holds(source_sha256, grant.before_sha256),
        !holds(source_sha256, grant.result_sha256),
    ensures
        spec_publish(grant, Some(outcome), source_sha256) == MutationStepView::RecordAmbiguous,
        spec_recover(grant, outcome, source_sha256) == MutationStepView::RecordAmbiguous,
{
}

} // verus!
