//! Bounded exchanges with outside services.
//!
//! A component exchanges one bounded UTF-8 request for one bounded UTF-8
//! response through an adapter named by its grant. Each exchange is recorded
//! in a ledger under its invocation number, started before the adapter runs
//! and terminal after; a started exchange found again after a restart is
//! ambiguous, since the outside service may or may not have acted on it.

use vstd::prelude::*;
use crate::digest::{sha256_hex, spec_sha256_hex};
use crate::status::{
    STATUS_AMBIGUOUS, STATUS_AUTHENTICATION, STATUS_EMPTY_RESPONSE, STATUS_EXCHANGE_AMBIGUOUS, STATUS_LIMIT,
    STATUS_PROTOCOL, STATUS_REMOTE_FAILED_OTHER, STATUS_REQUEST_REJECTED, STATUS_RESPONSE_LIMIT,
};
use crate::text::utf8_text;
use crate::error::Error;
use vstd::utf8::valid_utf8;

verus! {

/// Authority to exchange bytes with one named adapter under bounds.
#[derive(Clone, Debug, PartialEq, Eq)]
pub struct ExchangeGrant {
    pub adapter: String,
    pub ledger_path: String,
    pub max_request_bytes: usize,
    pub max_response_bytes: usize,
    pub timeout_ms: u64,
}

impl ExchangeGrant {
    /// A grant with exactly the given adapter, ledger, and bounds.
    pub fn new(
        adapter: String,
        ledger_path: String,
        max_request_bytes: usize,
        max_response_bytes: usize,
        timeout_ms: u64,
    ) -> (r: Self)
        ensures
            r == (ExchangeGrant {
                adapter,
                ledger_path,
                max_request_bytes,
                max_response_bytes,
                timeout_ms,
            }),
    {
        ExchangeGrant { adapter, ledger_path, max_request_bytes, max_response_bytes, timeout_ms }
    }
}

/// The answer of an adapter: who produced it, its bytes, and the usage it
/// cost.
#[derive(Clone, Debug, PartialEq, Eq)]
pub struct ExchangeResponse {
    pub provenance: String,
    pub bytes: Vec<u8>,
    pub usage: u64,
}

/// Why an adapter gave no answer.
#[derive(Clone, Copy, Debug, PartialEq, Eq, Structural)]
pub enum ExchangeFailure {
    Authentication,
    RequestRejected,
    RemoteFailed,
    EmptyResponse,
    ResponseLimit,
    Protocol,
    Ambiguous,
}

/// An outside service that answers exchanges; hosts implement it.
pub trait ExchangeAdapter {
    /// The name grants refer to this adapter by.
    fn identity(&self) -> &str;

    /// Answers `request` within `timeout_ms` milliseconds with at most
    /// `max_response_bytes` bytes.
    fn exchange(&self, request: &[u8], timeout_ms: u64, max_response_bytes: usize) -> Result<ExchangeResponse, ExchangeFailure>;
}

/// Why a recorded exchange failed.
#[derive(Clone, Copy, Debug, PartialEq, Eq, Structural)]
pub enum ExchangeLedgerFailure {
    Authentication,
    RequestRejected,
    RemoteFailed,
    EmptyResponse,
    ResponseLimit,
    Protocol,
    Ambiguous,
}

/// A response kept durably: its provenance, its digest, and its bytes.
#[derive(Clone, Debug, PartialEq, Eq)]
pub struct DurablePayload {
    pub provenance: String,
    pub sha256: Vec<u8>,
    pub bytes: Vec<u8>,
}

/// What an exchange ledger records of one invocation.
#[derive(Clone, Debug, PartialEq, Eq)]
pub enum ExchangeLedgerOutcome {
    /// The adapter was called; no answer is recorded.
    Started,
    /// The adapter answered.
    Succeeded { payload: DurablePayload, usage: u64 },
    /// The adapter failed.
    Failed { failure: ExchangeLedgerFailure },
}

/// A request a component may send: non-empty UTF-8 within the grant's bound.
pub open spec fn request_ok(request: Seq<u8>, max_request_bytes: usize) -> bool {
    request.len() > 0 && request.len() <= max_request_bytes && valid_utf8(request)
}

/// Checks a request against its grant: refused as a limit otherwise.
pub fn check_request(request: &[u8], max_request_bytes: usize) -> (r: Result<(), i32>)
    ensures
        r == (if request_ok(request@, max_request_bytes) { Ok::<(), i32>(()) } else { Err(STATUS_LIMIT) }),
{
    if request.len() == 0 || request.len() > max_request_bytes || utf8_text(request).is_none() {
        Err(STATUS_LIMIT)
    } else {
        Ok(())
    }
}

/// The recorded reason of an adapter failure.
pub open spec fn spec_ledger_failure(failure: ExchangeFailure) -> ExchangeLedgerFailure {
    match failure {
        ExchangeFailure::Authentication => ExchangeLedgerFailure::Authentication,
        ExchangeFailure::RequestRejected => ExchangeLedgerFailure::RequestRejected,
        ExchangeFailure::RemoteFailed => ExchangeLedgerFailure::RemoteFailed,
        ExchangeFailure::EmptyResponse => ExchangeLedgerFailure::EmptyResponse,
        ExchangeFailure::ResponseLimit => ExchangeLedgerFailure::ResponseLimit,
        ExchangeFailure::Protocol => ExchangeLedgerFailure::Protocol,
        ExchangeFailure::Ambiguous => ExchangeLedgerFailure::Ambiguous,
    }
}

/// Returns the recorded reason of an adapter failure.
pub fn ledger_failure(failure: ExchangeFailure) -> (r: ExchangeLedgerFailure)
    ensures
        r == spec_ledger_failure(failure),
{
    match failure {
        ExchangeFailure::Authentication => ExchangeLedgerFailure::Authentication,
        ExchangeFailure::RequestRejected => ExchangeLedgerFailure::RequestRejected,
        ExchangeFailure::RemoteFailed => ExchangeLedgerFailure::RemoteFailed,
        ExchangeFailure::EmptyResponse => ExchangeLedgerFailure::EmptyResponse,
        ExchangeFailure::ResponseLimit => ExchangeLedgerFailure::ResponseLimit,
        ExchangeFailure::Protocol => ExchangeLedgerFailure::Protocol,
        ExchangeFailure::Ambiguous => ExchangeLedgerFailure::Ambiguous,
    }
}

/// The terminal outcome of an exchange from what the adapter gave within the
/// timeout (none when it gave nothing in time): an empty, oversized or
/// malformed answer fails; a well-formed one succeeds with its digest; a
/// failure is recorded as such; no answer is ambiguous.
pub open spec fn outcome_ok(received: Option<Result<ExchangeResponse, ExchangeFailure>>, max_response_bytes: usize, outcome: ExchangeLedgerOutcome) -> bool {
    match received {
        Some(Ok(response)) => {
            let bytes = response.bytes@;
            if bytes.len() == 0 {
                outcome == ExchangeLedgerOutcome::Failed { failure: ExchangeLedgerFailure::EmptyResponse }
            } else if bytes.len() > max_response_bytes {
                outcome == ExchangeLedgerOutcome::Failed { failure: ExchangeLedgerFailure::ResponseLimit }
            } else if response.usage > i64::MAX || response.provenance@.len() == 0 || !valid_utf8(bytes) {
                outcome == ExchangeLedgerOutcome::Failed { failure: ExchangeLedgerFailure::Protocol }
            } else {
                outcome matches ExchangeLedgerOutcome::Succeeded { payload, usage }
                    && usage == response.usage && payload.provenance == response.provenance
                    && payload.bytes@ == bytes && payload.sha256@ == spec_sha256_hex(bytes)
            }
        },
        Some(Err(failure)) => outcome == ExchangeLedgerOutcome::Failed { failure: spec_ledger_failure(failure) },
        None => outcome == ExchangeLedgerOutcome::Failed { failure: ExchangeLedgerFailure::Ambiguous },
    }
}

/// Returns the terminal outcome of an exchange.
pub fn classify_response(received: Option<Result<ExchangeResponse, ExchangeFailure>>, max_response_bytes: usize) -> (r: ExchangeLedgerOutcome)
    ensures
        outcome_ok(received, max_response_bytes, r),
{
    match received {
        Some(Ok(response)) => {
            if response.bytes.len() == 0 {
                ExchangeLedgerOutcome::Failed { failure: ExchangeLedgerFailure::EmptyResponse }
            } else if response.bytes.len() > max_response_bytes {
                ExchangeLedgerOutcome::Failed { failure: ExchangeLedgerFailure::ResponseLimit }
            } else if response.usage > 0x7fff_ffff_ffff_ffff || response.provenance.as_str().unicode_len() == 0
                || utf8_text(response.bytes.as_slice()).is_none() {
                ExchangeLedgerOutcome::Failed { failure: ExchangeLedgerFailure::Protocol }
            } else {
                let sha256 = sha256_hex(response.bytes.as_slice());
                ExchangeLedgerOutcome::Succeeded {
                    payload: DurablePayload { provenance: response.provenance, sha256, bytes: response.bytes },
                    usage: response.usage,
                }
            }
        },
        Some(Err(failure)) => ExchangeLedgerOutcome::Failed { failure: ledger_failure(failure) },
        None => ExchangeLedgerOutcome::Failed { failure: ExchangeLedgerFailure::Ambiguous },
    }
}

/// The outcome a recovered record stands for: a started exchange is
/// ambiguous, a terminal one stands.
pub open spec fn spec_settled(outcome: ExchangeLedgerOutcome) -> ExchangeLedgerOutcome {
    if outcome == ExchangeLedgerOutcome::Started {
        ExchangeLedgerOutcome::Failed { failure: ExchangeLedgerFailure::Ambiguous }
    } else {
        outcome
    }
}

/// Returns the outcome a recovered record stands for.
pub fn settle_recovered(outcome: ExchangeLedgerOutcome) -> (r: ExchangeLedgerOutcome)
    ensures
        r == spec_settled(outcome),
{
    match outcome {
        ExchangeLedgerOutcome::Started => ExchangeLedgerOutcome::Failed { failure: ExchangeLedgerFailure::Ambiguous },
        other => other,
    }
}

/// The status of a recorded failure.
pub open spec fn spec_failure_status(failure: ExchangeLedgerFailure) -> i32 {
    match failure {
        ExchangeLedgerFailure::Authentication => STATUS_AUTHENTICATION,
        ExchangeLedgerFailure::RequestRejected => STATUS_REQUEST_REJECTED,
        ExchangeLedgerFailure::RemoteFailed => STATUS_REMOTE_FAILED_OTHER,
        ExchangeLedgerFailure::EmptyResponse => STATUS_EMPTY_RESPONSE,
        ExchangeLedgerFailure::ResponseLimit => STATUS_RESPONSE_LIMIT,
        ExchangeLedgerFailure::Protocol => STATUS_PROTOCOL,
        ExchangeLedgerFailure::Ambiguous => STATUS_EXCHANGE_AMBIGUOUS,
    }
}

/// What a component's exchange call returns for a recorded outcome: the
/// usage of a success, the negated status of a failure, and ambiguity for an
/// exchange still started.
pub open spec fn spec_exchange_result(outcome: ExchangeLedgerOutcome) -> i64 {
    match outcome {
        ExchangeLedgerOutcome::Started => -STATUS_AMBIGUOUS as i64,
        ExchangeLedgerOutcome::Succeeded { usage, .. } => usage as i64,
        ExchangeLedgerOutcome::Failed { failure } => -spec_failure_status(failure) as i64,
    }
}

/// Returns what a component's exchange call returns for a recorded outcome.
pub fn exchange_result(outcome: &ExchangeLedgerOutcome) -> (r: i64)
    ensures
        r == spec_exchange_result(*outcome),
{
    match outcome {
        ExchangeLedgerOutcome::Started => -(STATUS_AMBIGUOUS as i64),
        ExchangeLedgerOutcome::Succeeded { usage, .. } => *usage as i64,
        ExchangeLedgerOutcome::Failed { failure } => {
            let status = match failure {
                ExchangeLedgerFailure::Authentication => STATUS_AUTHENTICATION,
                ExchangeLedgerFailure::RequestRejected => STATUS_REQUEST_REJECTED,
                ExchangeLedgerFailure::RemoteFailed => STATUS_REMOTE_FAILED_OTHER,
                ExchangeLedgerFailure::EmptyResponse => STATUS_EMPTY_RESPONSE,
                ExchangeLedgerFailure::ResponseLimit => STATUS_RESPONSE_LIMIT,
                ExchangeLedgerFailure::Protocol => STATUS_PROTOCOL,
                ExchangeLedgerFailure::Ambiguous => STATUS_EXCHANGE_AMBIGUOUS,
            };
            -(status as i64)
        },
    }
}

/// After a restart an exchange answers from its record and is never sent
/// again: a terminal record answers exactly as before, and one that had
/// only started answers as ambiguous.
pub proof fn lemma_recovered_exchange_answers_the_same(outcome: ExchangeLedgerOutcome)
    ensures
        outcome != ExchangeLedgerOutcome::Started ==> spec_exchange_result(spec_settled(outcome)) == spec_exchange_result(outcome),
        outcome == ExchangeLedgerOutcome::Started ==> spec_exchange_result(spec_settled(outcome)) == -STATUS_EXCHANGE_AMBIGUOUS as i64,
{
}

/// What an exchange does once its ledger was consulted for the invocation
/// and the digest of the request.
#[derive(Debug, PartialEq, Eq)]
pub enum ExchangeStep {
    /// The ledger could not be read: the failure is kept and the call is
    /// refused as invalid.
    LedgerFailed(Error),
    /// An outcome is recorded: the adapter is not called again. `terminal`,
    /// where given, is appended to the ledger first (for an exchange that
    /// had only started), and `outcome` is staged.
    Replay { terminal: Option<ExchangeLedgerOutcome>, outcome: ExchangeLedgerOutcome },
    /// Nothing is recorded, but an earlier exchange is still running: the
    /// call is refused as ambiguous.
    Busy,
    /// Nothing is recorded and nothing is running: the start is recorded
    /// and the adapter is called.
    Call,
}

/// The step an exchange takes from what its ledger holds, `lookup`, and
/// whether an earlier exchange is still `running`.
pub open spec fn spec_exchange_step(lookup: Result<Option<ExchangeLedgerOutcome>, Error>, running: bool) -> ExchangeStep {
    match lookup {
        Err(e) => ExchangeStep::LedgerFailed(e),
        Ok(Some(o)) => ExchangeStep::Replay {
            terminal: if o == ExchangeLedgerOutcome::Started { Some(spec_settled(o)) } else { None },
            outcome: spec_settled(o),
        },
        Ok(None) => if running { ExchangeStep::Busy } else { ExchangeStep::Call },
    }
}

/// Returns the step an exchange takes from what its ledger holds and
/// whether an earlier exchange is still running.
pub fn exchange_step(lookup: Result<Option<ExchangeLedgerOutcome>, Error>, running: bool) -> (r: ExchangeStep)
    ensures
        r == spec_exchange_step(lookup, running),
{
    match lookup {
        Err(e) => ExchangeStep::LedgerFailed(e),
        Ok(Some(o)) => {
            let started = match o {
                ExchangeLedgerOutcome::Started => true,
                _ => false,
            };
            let outcome = settle_recovered(o);
            if started {
                ExchangeStep::Replay {
                    terminal: Some(ExchangeLedgerOutcome::Failed { failure: ExchangeLedgerFailure::Ambiguous }),
                    outcome,
                }
            } else {
                ExchangeStep::Replay { terminal: None, outcome }
            }
        },
        Ok(None) => if running { ExchangeStep::Busy } else { ExchangeStep::Call },
    }
}

/// An exchange whose outcome is already recorded, by an earlier call or an
/// earlier process, is answered from the record whatever else is running:
/// the adapter is not called, an exchange that had only started is closed
/// as ambiguous, and the answer is the recorded one (ambiguity for a mere
/// start).
pub proof fn lemma_recorded_exchange_is_replayed(o: ExchangeLedgerOutcome, running: bool)
    ensures
        spec_exchange_step(Ok(Some(o)), running) matches ExchangeStep::Replay { terminal, outcome } && {
            &&& outcome == spec_settled(o)
            &&& (o == ExchangeLedgerOutcome::Started ==> terminal == Some(ExchangeLedgerOutcome::Failed {
                failure: ExchangeLedgerFailure::Ambiguous }))
            &&& (o != ExchangeLedgerOutcome::Started ==> terminal is None
                && spec_exchange_result(outcome) == spec_exchange_result(o))
            &&& (o == ExchangeLedgerOutcome::Started ==> spec_exchange_result(outcome) == -STATUS_EXCHANGE_AMBIGUOUS as i64)
        },
{
}

/// A success never reads as a failure: a classified success returns its
/// usage, which is never negative, and every failure returns a negative
/// status.
pub proof fn lemma_exchange_result_sign(received: Option<Result<ExchangeResponse, ExchangeFailure>>, max_response_bytes: usize, outcome: ExchangeLedgerOutcome)
    requires
        outcome_ok(received, max_response_bytes, outcome),
    ensures
        (outcome is Succeeded) ==> spec_exchange_result(outcome) >= 0,
        (outcome is Failed) ==> spec_exchange_result(outcome) < 0,
{
    if let ExchangeLedgerOutcome::Succeeded { usage, .. } = outcome {
        assert(usage <= i64::MAX);
        assert(usage as i64 == usage) by (bit_vector)
            requires
                usage <= 0x7fff_ffff_ffff_ffffu64,
        ;
    }
}

} // verus!
