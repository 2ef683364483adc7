//! The next step of a repository-task session: from the committed facts to
//! the one action that moves the session forward.
//!
//! Each step reads the whole history and either finishes, fails with a
//! status, or names a single action for the host to perform: admit the task,
//! append a fact, run an exchange, apply a reviewed candidate, or promote it.

use vstd::prelude::*;
use vstd::string::StringSliceAdditionalSpecFns;
use crate::composition::bytes_equal;
use crate::digest::sha256_digest;
use crate::task::{
    copy_bytes, copy_generation, copy_proposal, find_proposal, lemma_find_proposal, parse_initial_response,
    proposals_equal, spec_initial_response, spec_invocation, texts, texts_equal, Admission, AdmittedFile,
    AdmittedFileView, Fact, Generation, GenerationView, Operation, Payload, Proposal, ProposalView,
    parse_revision_response, spec_revision_response, EVENT_INITIAL_PROMPT, EVENT_INITIAL_RESPONSE,
    EVENT_MUTATION_AUTHORIZED, EVENT_PROMOTION_AUTHORIZED, EVENT_PROMOTION_PROMPT, EVENT_PROMOTION_RESPONSE,
    EVENT_REVIEW_PROMPT, EVENT_REVIEW_RESPONSE, EVENT_REVISION_PROMPT, EVENT_REVISION_RESPONSE, INVALID,
    MAX_FEEDBACK_BYTES, EVENT_COMMAND_DECISION, EVENT_COMMAND_PROMPT, EVENT_COMMAND_RESULT,
    EVENT_COMMAND_STARTED, EVENT_COMPLETE, EVENT_CONTINUATION_PROMPT, EVENT_CONTINUATION_RESPONSE,
    EVENT_GENERATION, CommandRequest, ContinuationResponse, ContinuationView, continuation_sources,
    expected_sources, parse_continuation_response, sources_upto, spec_command_finished,
    spec_continuation_response, spec_continuation_sources, validate_command_finished,
    adjacency_ok, current_positions, fact_generation, fact_values, generation_views, generations_at,
    holds_generation, operation, positions_upto, spec_admission_valid, spec_operation, validate_admission,
    validate_external_adjacency, views_at, EVENT_CANDIDATE_APPLIED, EVENT_PROMOTED, EVENT_STARTED,
    EVENT_STOPPED, FAILURE_STOP,
};
use crate::text::{blank, is_blank, trimmed, trimmed_text};
use crate::text::append_bytes;
use crate::composition::has_prefix;

verus! {

/// Which facts of one event code a search accepts.
#[derive(Clone, Copy, Debug, PartialEq, Eq, Structural)]
pub enum FactFilter {
    /// Every fact.
    Any,
    /// Facts carrying exactly this operation.
    Carries(Operation),
    /// Facts carrying the request of this attempt of the admitted command.
    Requests(u64),
    /// Facts after this index.
    After(u64),
    /// The fact directly after this index.
    Follows(u64),
    /// The fact directly before this index.
    Precedes(u64),
}

/// Whether a fact has event code `event` and passes `filter`; `argv` is the
/// admitted command vector that requests must repeat.
pub open spec fn matches_fact(f: Fact, event: u64, filter: FactFilter, argv: Seq<Seq<u8>>) -> bool {
    &&& f.value == event
    &&& match filter {
        FactFilter::Any => true,
        FactFilter::Carries(op) => f.payload matches Payload::Operation(Some(o)) && o == op,
        FactFilter::Requests(attempt) => f.payload matches Payload::CommandRequest(Some(r))
            && r.schema == 1 && r.attempt == attempt && texts(r.argv@) == argv,
        FactFilter::After(i) => f.index > i,
        FactFilter::Follows(i) => f.index == i + 1,
        FactFilter::Precedes(i) => f.index + 1 == i,
    }
}

/// The position of the last matching fact among the first `n`.
pub open spec fn last_match(facts: Seq<Fact>, event: u64, filter: FactFilter, argv: Seq<Seq<u8>>, n: nat) -> Option<int>
    decreases n,
{
    if n == 0 {
        None
    } else if matches_fact(facts[n - 1], event, filter, argv) {
        Some(n - 1)
    } else {
        last_match(facts, event, filter, argv, (n - 1) as nat)
    }
}

/// The position of the first matching fact at or after `start`.
pub open spec fn first_match(facts: Seq<Fact>, event: u64, filter: FactFilter, argv: Seq<Seq<u8>>, start: nat) -> Option<int>
    decreases facts.len() - start,
{
    if start >= facts.len() {
        None
    } else if matches_fact(facts[start as int], event, filter, argv) {
        Some(start as int)
    } else {
        first_match(facts, event, filter, argv, start + 1)
    }
}

/// The last matching fact of the whole history.
pub open spec fn last_of(facts: Seq<Fact>, event: u64, filter: FactFilter, argv: Seq<Seq<u8>>) -> Option<int> {
    last_match(facts, event, filter, argv, facts.len())
}

/// A found position lies in the history and holds a matching fact.
pub proof fn lemma_last_match(facts: Seq<Fact>, event: u64, filter: FactFilter, argv: Seq<Seq<u8>>, n: nat)
    requires
        n <= facts.len(),
    ensures
        last_match(facts, event, filter, argv, n) matches Some(i) ==> 0 <= i < n
            && matches_fact(facts[i], event, filter, argv),
    decreases n,
{
    if n > 0 {
        lemma_last_match(facts, event, filter, argv, (n - 1) as nat);
    }
}

/// A found position lies in the history and holds a matching fact.
pub proof fn lemma_first_match(facts: Seq<Fact>, event: u64, filter: FactFilter, argv: Seq<Seq<u8>>, start: nat)
    ensures
        first_match(facts, event, filter, argv, start) matches Some(i) ==> start <= i < facts.len()
            && matches_fact(facts[i], event, filter, argv),
    decreases facts.len() - start,
{
    if start < facts.len() {
        lemma_first_match(facts, event, filter, argv, start + 1);
    }
}

/// Returns whether a fact matches.
pub fn fact_matches(f: &Fact, event: u64, filter: FactFilter, argv: &Vec<Vec<u8>>) -> (r: bool)
    ensures
        r == matches_fact(*f, event, filter, texts(argv@)),
{
    if f.value != event {
        return false;
    }
    match filter {
        FactFilter::Any => true,
        FactFilter::Carries(op) => match &f.payload {
            Payload::Operation(Some(o)) => *o == op,
            _ => false,
        },
        FactFilter::Requests(attempt) => match &f.payload {
            Payload::CommandRequest(Some(r)) => r.schema == 1 && r.attempt == attempt && texts_equal(&r.argv, argv),
            _ => false,
        },
        FactFilter::After(i) => f.index > i,
        FactFilter::Follows(i) => f.index > 0 && f.index - 1 == i,
        FactFilter::Precedes(i) => i > 0 && f.index == i - 1,
    }
}

/// Returns the position of the last matching fact.
pub fn last_matching(facts: &Vec<Fact>, event: u64, filter: FactFilter, argv: &Vec<Vec<u8>>) -> (r: Option<usize>)
    ensures
        match r {
            Some(i) => last_of(facts@, event, filter, texts(argv@)) == Some(i as int),
            None => last_of(facts@, event, filter, texts(argv@)) is None,
        },
{
    let mut n: usize = facts.len();
    while n > 0
        invariant
            n <= facts@.len(),
            last_of(facts@, event, filter, texts(argv@)) == last_match(facts@, event, filter, texts(argv@), n as nat),
        decreases n,
    {
        if fact_matches(&facts[n - 1], event, filter, argv) {
            return Some(n - 1);
        }
        n -= 1;
    }
    None
}

/// Returns the position of the first matching fact.
pub fn first_matching(facts: &Vec<Fact>, event: u64, filter: FactFilter, argv: &Vec<Vec<u8>>) -> (r: Option<usize>)
    ensures
        match r {
            Some(i) => first_match(facts@, event, filter, texts(argv@), 0) == Some(i as int),
            None => first_match(facts@, event, filter, texts(argv@), 0) is None,
        },
{
    let mut n: usize = 0;
    while n < facts.len()
        invariant
            n <= facts@.len(),
            first_match(facts@, event, filter, texts(argv@), 0) == first_match(facts@, event, filter, texts(argv@), n as nat),
        decreases facts@.len() - n,
    {
        if fact_matches(&facts[n], event, filter, argv) {
            return Some(n);
        }
        n += 1;
    }
    None
}

/// Provider slot of the model exchange.
pub const MODEL_SLOT: u64 = 30;
/// Provider slot of the terminal exchange, through which the user answers.
pub const TERMINAL_SLOT: u64 = 31;
/// Provider slot of the command exchange.
pub const COMMAND_SLOT: u64 = 32;

/// The weight of the mode byte at the top of an instance value.
pub const MODE_UNIT: u64 = 72057594037927936;

/// What an instance of the task component does, by the mode in the top byte
/// of its instance value.
#[derive(Clone, Copy, Debug, PartialEq, Eq, Structural)]
pub enum Role {
    /// Orchestrates the session over the number of sources in the low bytes.
    Orchestrator(u64),
    /// Provides the exchange of this slot.
    Provider(u64),
    /// Authorizes mutations and promotions.
    Authority,
    /// Any other mode.
    Unknown,
}

/// The role of an instance value: mode 0 orchestrates, modes 1 to 3 provide
/// the model, terminal and command exchanges, mode 4 authorizes.
pub open spec fn spec_role(instance: u64) -> Role {
    let mode = instance / MODE_UNIT;
    if mode == 0 {
        Role::Orchestrator(instance % MODE_UNIT)
    } else if mode == 1 {
        Role::Provider(MODEL_SLOT)
    } else if mode == 2 {
        Role::Provider(TERMINAL_SLOT)
    } else if mode == 3 {
        Role::Provider(COMMAND_SLOT)
    } else if mode == 4 {
        Role::Authority
    } else {
        Role::Unknown
    }
}

/// Returns the role of an instance value.
pub fn role_of(instance: u64) -> (r: Role)
    ensures
        r == spec_role(instance),
{
    let mode = instance / MODE_UNIT;
    if mode == 0 {
        Role::Orchestrator(instance % MODE_UNIT)
    } else if mode == 1 {
        Role::Provider(MODEL_SLOT)
    } else if mode == 2 {
        Role::Provider(TERMINAL_SLOT)
    } else if mode == 3 {
        Role::Provider(COMMAND_SLOT)
    } else if mode == 4 {
        Role::Authority
    } else {
        Role::Unknown
    }
}

/// The one thing a session step asks the host to do.
#[derive(Debug, PartialEq, Eq)]
pub enum Action {
    /// The session is complete: nothing is left to do.
    Finished,
    /// Admit the task from its input snapshot and sources and append the start.
    Admit,
    /// Append the initial prompt built from the admission.
    AppendInitialPrompt,
    /// Exchange the request at `request_index` through provider `slot` and
    /// append the answer as event `response_event`.
    Exchange { slot: u64, request_index: u64, invocation: u64, response_event: u64 },
    /// Append this generation.
    AppendGeneration(Generation),
    /// Append the review prompt of an operation with its rendered diff.
    AppendReviewPrompt { operation: Operation, diff: Vec<u8> },
    /// Append event `event` carrying an operation.
    AppendOperation { event: u64, operation: Operation },
    /// Write the result into the workspace of admitted file
    /// `admitted_path_index`, have the authority approve and publish it,
    /// then record the application.
    ApplyCandidate { admitted_path_index: usize, result: Vec<u8>, operation: Operation },
    /// Append the revision prompt of a rejected generation.
    AppendRevisionPrompt { generation: Generation, operation: Operation, feedback: Vec<u8> },
    /// Have the authority approve the promotion of the workspace of admitted
    /// file `admitted_path_index`, promote it, then record the promotion.
    Promote { admitted_path_index: usize, operation: Operation },
    /// Append event `event` carrying the request of attempt `attempt` of the
    /// admitted command vector `argv`.
    AppendCommandRequest { event: u64, attempt: u64, argv: Vec<Vec<u8>> },
    /// Append the continuation prompt after the command evidence at position
    /// `finished_position`, with the sources it reports and the current
    /// generations in proposal order.
    AppendContinuationPrompt { finished_position: usize, sources: Vec<AdmittedFile>, generations: Vec<Generation> },
    /// Append the stop of the session with this summary.
    AppendStopped(Vec<u8>),
    /// Append the completion of the session with this summary.
    AppendComplete(Vec<u8>),
}

/// The value of an action.
pub enum ActionView {
    Finished,
    Admit,
    AppendInitialPrompt,
    Exchange { slot: u64, request_index: u64, invocation: u64, response_event: u64 },
    AppendGeneration(GenerationView),
    AppendReviewPrompt { operation: Operation, diff: Seq<u8> },
    AppendOperation { event: u64, operation: Operation },
    ApplyCandidate { admitted_path_index: usize, result: Seq<u8>, operation: Operation },
    AppendRevisionPrompt { generation: GenerationView, operation: Operation, feedback: Seq<u8> },
    Promote { admitted_path_index: usize, operation: Operation },
    AppendCommandRequest { event: u64, attempt: u64, argv: Seq<Seq<u8>> },
    AppendContinuationPrompt { finished_position: usize, sources: Seq<AdmittedFileView>, generations: Seq<GenerationView> },
    AppendStopped(Seq<u8>),
    AppendComplete(Seq<u8>),
}

impl View for Action {
    type V = ActionView;

    open spec fn view(&self) -> ActionView {
        match self {
            Action::Finished => ActionView::Finished,
            Action::Admit => ActionView::Admit,
            Action::AppendInitialPrompt => ActionView::AppendInitialPrompt,
            Action::Exchange { slot, request_index, invocation, response_event } => ActionView::Exchange {
                slot: *slot,
                request_index: *request_index,
                invocation: *invocation,
                response_event: *response_event,
            },
            Action::AppendGeneration(g) => ActionView::AppendGeneration(g@),
            Action::AppendReviewPrompt { operation, diff } => ActionView::AppendReviewPrompt { operation: *operation, diff: diff@ },
            Action::AppendOperation { event, operation } => ActionView::AppendOperation { event: *event, operation: *operation },
            Action::ApplyCandidate { admitted_path_index, result, operation } => ActionView::ApplyCandidate {
                admitted_path_index: *admitted_path_index,
                result: result@,
                operation: *operation,
            },
            Action::AppendRevisionPrompt { generation, operation, feedback } => ActionView::AppendRevisionPrompt {
                generation: generation@,
                operation: *operation,
                feedback: feedback@,
            },
            Action::Promote { admitted_path_index, operation } => ActionView::Promote {
                admitted_path_index: *admitted_path_index,
                operation: *operation,
            },
            Action::AppendCommandRequest { event, attempt, argv } => ActionView::AppendCommandRequest {
                event: *event,
                attempt: *attempt,
                argv: texts(argv@),
            },
            Action::AppendContinuationPrompt { finished_position, sources, generations } => ActionView::AppendContinuationPrompt {
                finished_position: *finished_position,
                sources: sources@.map_values(|f: AdmittedFile| f@),
                generations: generations@.map_values(|g: Generation| g@),
            },
            Action::AppendStopped(summary) => ActionView::AppendStopped(summary@),
            Action::AppendComplete(summary) => ActionView::AppendComplete(summary@),
        }
    }
}

/// The exchange that answers the request at `request_index`.
pub open spec fn exchange_view(slot: u64, request_index: u64, response_event: u64) -> ActionView {
    ActionView::Exchange {
        slot,
        request_index,
        invocation: spec_invocation(slot, request_index),
        response_event,
    }
}

/// Returns the exchange that answers the request at `request_index`.
fn exchange(slot: u64, request_index: u64, response_event: u64) -> (r: Action)
    ensures
        r@ == exchange_view(slot, request_index, response_event),
{
    Action::Exchange {
        slot,
        request_index,
        invocation: crate::task::invocation(slot, request_index),
        response_event,
    }
}

/// The canonical decimal digits of `n`.
pub open spec fn decimal(n: nat) -> Seq<u8>
    decreases n,
{
    if n < 10 {
        seq![(48 + n) as u8]
    } else {
        decimal(n / 10).push((48 + n % 10) as u8)
    }
}

/// Appends the canonical decimal digits of `n`.
pub fn push_decimal(out: &mut Vec<u8>, n: usize)
    ensures
        final(out)@ == old(out)@ + decimal(n as nat),
    decreases n,
{
    if n >= 10 {
        push_decimal(out, n / 10);
    }
    let ghost before = out@;
    out.push((48 + n % 10) as u8);
    assert(out@ =~= old(out)@ + decimal(n as nat));
}

/// Text with every line feed followed by `mark`.
pub open spec fn mark_lines(s: Seq<u8>, mark: u8) -> Seq<u8>
    decreases s.len(),
{
    if s.len() == 0 {
        Seq::empty()
    } else if s.last() == 10 {
        mark_lines(s.drop_last(), mark) + seq![10u8, mark]
    } else {
        mark_lines(s.drop_last(), mark).push(s.last())
    }
}

/// Appends `s` with every line feed followed by `mark`.
fn push_marked(out: &mut Vec<u8>, s: &[u8], mark: u8)
    ensures
        final(out)@ == old(out)@ + mark_lines(s@, mark),
{
    let mut i: usize = 0;
    while i < s.len()
        invariant
            i <= s@.len(),
            out@ == old(out)@ + mark_lines(s@.take(i as int), mark),
        decreases s@.len() - i,
    {
        let ghost before = out@;
        assert(s@.take(i + 1).drop_last() =~= s@.take(i as int));
        if s[i] == 10 {
            out.push(10);
            out.push(mark);
        } else {
            out.push(s[i]);
        }
        assert(out@ =~= old(out)@ + mark_lines(s@.take(i + 1), mark));
        i += 1;
    }
    assert(s@.take(s@.len() as int) =~= s@);
}

/// The review text of a proposal: a unified header for its path, the byte
/// range it replaces, the source lines marked `-`, the result lines marked
/// `+`, and the answers the user may give.
pub open spec fn spec_render_diff(p: ProposalView) -> Seq<u8> {
    "--- a/".spec_bytes() + p.path + "\n+++ b/".spec_bytes() + p.path + "\n@@ bytes ".spec_bytes()
        + decimal(p.byte_start as nat) + "..".spec_bytes() + decimal(p.byte_end as nat) + " @@\n-".spec_bytes()
        + mark_lines(p.source, 45) + "\n+".spec_bytes() + mark_lines(p.result, 43)
        + "\n\nApprove with 'approve', reject with 'reject <feedback>', or stop with 'stop'.".spec_bytes()
}

/// Renders the review text of a proposal.
pub fn render_diff(p: &Proposal) -> (r: Vec<u8>)
    ensures
        r@ == spec_render_diff(p@),
{
    let mut out: Vec<u8> = Vec::new();
    append_bytes(&mut out, "--- a/".as_bytes());
    append_bytes(&mut out, p.path.as_slice());
    append_bytes(&mut out, "\n+++ b/".as_bytes());
    append_bytes(&mut out, p.path.as_slice());
    append_bytes(&mut out, "\n@@ bytes ".as_bytes());
    push_decimal(&mut out, p.byte_start);
    append_bytes(&mut out, "..".as_bytes());
    push_decimal(&mut out, p.byte_end);
    append_bytes(&mut out, " @@\n-".as_bytes());
    push_marked(&mut out, p.source.as_slice(), 45);
    append_bytes(&mut out, "\n+".as_bytes());
    push_marked(&mut out, p.result.as_slice(), 43);
    append_bytes(&mut out, "\n\nApprove with 'approve', reject with 'reject <feedback>', or stop with 'stop'.".as_bytes());
    out
}

/// The position of the admitted file with path `path`, at or after `start`.
pub open spec fn admitted_position(files: Seq<AdmittedFile>, path: Seq<u8>, start: nat) -> Option<int>
    decreases files.len() - start,
{
    if start >= files.len() {
        None
    } else if files[start as int].path@ == path {
        Some(start as int)
    } else {
        admitted_position(files, path, start + 1)
    }
}

/// A found position is that of an admitted file with that path.
pub proof fn lemma_admitted_position(files: Seq<AdmittedFile>, path: Seq<u8>, start: nat)
    ensures
        admitted_position(files, path, start) matches Some(i) ==> start <= i < files.len() && files[i].path@ == path,
    decreases files.len() - start,
{
    if start < files.len() {
        lemma_admitted_position(files, path, start + 1);
    }
}

/// Returns the position of the admitted file with path `path`.
pub fn position_of_path(files: &Vec<AdmittedFile>, path: &[u8]) -> (r: Option<usize>)
    ensures
        match r {
            Some(i) => admitted_position(files@, path@, 0) == Some(i as int),
            None => admitted_position(files@, path@, 0) is None,
        },
{
    let mut i: usize = 0;
    while i < files.len()
        invariant
            i <= files@.len(),
            admitted_position(files@, path@, 0) == admitted_position(files@, path@, i as nat),
        decreases files@.len() - i,
    {
        if bytes_equal(files[i].path.as_slice(), path) {
            return Some(i);
        }
        i += 1;
    }
    None
}

/// The first generation of a proposal read from an initial response: the
/// first proposal, on its admitted file.
pub open spec fn spec_first_generation(bytes: Seq<u8>, a: Admission) -> Result<ActionView, i32> {
    match spec_initial_response(bytes, a) {
        None => Err(INVALID),
        Some(props) => if props.len() == 0 {
            Err(INVALID)
        } else {
            match admitted_position(a.files@, props[0].path, 0) {
                None => Err(INVALID),
                Some(i) => Ok(ActionView::AppendGeneration(GenerationView {
                    proposal_index: 0,
                    admitted_path_index: i as usize,
                    revision: 0,
                    proposal: props[0],
                })),
            }
        },
    }
}

/// The step of a session without generations: prompt the model, have it
/// answer the latest prompt, or take the first proposal of its answer.
pub open spec fn spec_initial_generation(facts: Seq<Fact>, a: Admission) -> Result<ActionView, i32> {
    let argv = texts(a.argv@);
    match last_of(facts, EVENT_INITIAL_PROMPT, FactFilter::Any, argv) {
        None => Ok(ActionView::AppendInitialPrompt),
        Some(p) => match last_of(facts, EVENT_INITIAL_RESPONSE, FactFilter::Any, argv) {
            Some(r) => if facts[r].index < facts[p].index {
                Ok(exchange_view(MODEL_SLOT, facts[p].index, EVENT_INITIAL_RESPONSE))
            } else {
                spec_first_generation(facts[r].bytes@, a)
            },
            None => Ok(exchange_view(MODEL_SLOT, facts[p].index, EVENT_INITIAL_RESPONSE)),
        },
    }
}

/// Returns the step of a session without generations.
pub fn initial_generation(facts: &Vec<Fact>, a: &Admission) -> (r: Result<Action, i32>)
    ensures
        match r {
            Ok(act) => spec_initial_generation(facts@, *a) == Ok::<ActionView, i32>(act@),
            Err(c) => spec_initial_generation(facts@, *a) == Err::<ActionView, i32>(c),
        },
{
    let p = match last_matching(facts, EVENT_INITIAL_PROMPT, FactFilter::Any, &a.argv) {
        None => return Ok(Action::AppendInitialPrompt),
        Some(p) => p,
    };
    proof { lemma_last_match(facts@, EVENT_INITIAL_PROMPT, FactFilter::Any, texts(a.argv@), facts@.len()); }
    let r = match last_matching(facts, EVENT_INITIAL_RESPONSE, FactFilter::Any, &a.argv) {
        None => return Ok(exchange(MODEL_SLOT, facts[p].index, EVENT_INITIAL_RESPONSE)),
        Some(r) => r,
    };
    proof { lemma_last_match(facts@, EVENT_INITIAL_RESPONSE, FactFilter::Any, texts(a.argv@), facts@.len()); }
    if facts[r].index < facts[p].index {
        return Ok(exchange(MODEL_SLOT, facts[p].index, EVENT_INITIAL_RESPONSE));
    }
    let props = parse_initial_response(facts[r].bytes.as_slice(), a)?;
    if props.len() == 0 {
        return Err(INVALID);
    }
    let proposal = &props[0];
    let i = match position_of_path(&a.files, proposal.path.as_slice()) {
        None => return Err(INVALID),
        Some(i) => i,
    };
    Ok(Action::AppendGeneration(Generation {
        proposal_index: 0,
        admitted_path_index: i,
        revision: 0,
        proposal: copy_proposal(proposal),
    }))
}

/// The first proposal of the initial response, from `k` on, that no current
/// generation holds yet; refused when an unrevised current generation holds
/// a different proposal than the response gave.
pub open spec fn missing_from(props: Seq<ProposalView>, cur: Seq<GenerationView>, files: Seq<AdmittedFile>, k: nat) -> Result<Option<GenerationView>, i32>
    decreases props.len() - k,
{
    if k >= props.len() {
        Ok(None)
    } else {
        match find_proposal(cur, k as usize, 0) {
            Some(i) => if cur[i].revision == 0 && cur[i].proposal != props[k as int] {
                Err(INVALID)
            } else {
                missing_from(props, cur, files, k + 1)
            },
            None => match admitted_position(files, props[k as int].path, 0) {
                None => Err(INVALID),
                Some(j) => Ok(Some(GenerationView {
                    proposal_index: k as usize,
                    admitted_path_index: j as usize,
                    revision: 0,
                    proposal: props[k as int],
                })),
            },
        }
    }
}

/// The generation of an initially proposed edit that is still missing from
/// the current generations, read from the first initial response.
pub open spec fn spec_missing_initial(facts: Seq<Fact>, a: Admission, cur: Seq<GenerationView>) -> Result<Option<GenerationView>, i32> {
    match first_match(facts, EVENT_INITIAL_RESPONSE, FactFilter::Any, texts(a.argv@), 0) {
        None => Ok(None),
        Some(r) => match spec_initial_response(facts[r].bytes@, a) {
            None => Err(INVALID),
            Some(props) => missing_from(props, cur, a.files@, 0),
        },
    }
}

/// Returns the first initially proposed generation still missing.
pub fn missing_initial_generation(facts: &Vec<Fact>, a: &Admission, cur: &Vec<Generation>) -> (r: Result<Option<Generation>, i32>)
    ensures
        match r {
            Ok(Some(g)) => spec_missing_initial(facts@, *a, cur@.map_values(|g: Generation| g@)) == Ok::<Option<GenerationView>, i32>(Some(g@)),
            Ok(None) => spec_missing_initial(facts@, *a, cur@.map_values(|g: Generation| g@)) == Ok::<Option<GenerationView>, i32>(None),
            Err(c) => spec_missing_initial(facts@, *a, cur@.map_values(|g: Generation| g@)) == Err::<Option<GenerationView>, i32>(c),
        },
{
    let ghost views = cur@.map_values(|g: Generation| g@);
    let r = match first_matching(facts, EVENT_INITIAL_RESPONSE, FactFilter::Any, &a.argv) {
        None => return Ok(None),
        Some(r) => r,
    };
    proof { lemma_first_match(facts@, EVENT_INITIAL_RESPONSE, FactFilter::Any, texts(a.argv@), 0); }
    let props = parse_initial_response(facts[r].bytes.as_slice(), a)?;
    let ghost pv = props@.map_values(|p: Proposal| p@);
    let mut k: usize = 0;
    while k < props.len()
        invariant
            k <= props@.len(),
            pv == props@.map_values(|p: Proposal| p@),
            views == cur@.map_values(|g: Generation| g@),
            spec_missing_initial(facts@, *a, views) == missing_from(pv, views, a.files@, k as nat),
        decreases props@.len() - k,
    {
        let mut i: usize = 0;
        while i < cur.len() && cur[i].proposal_index != k
            invariant
                i <= cur@.len(),
                views == cur@.map_values(|g: Generation| g@),
                find_proposal(views, k, 0) == find_proposal(views, k, i as nat),
            decreases cur@.len() - i,
        {
            i += 1;
        }
        proof { lemma_find_proposal(views, k, 0); }
        if i < cur.len() {
            assert(find_proposal(views, k, 0) == Some(i as int));
            if cur[i].revision == 0 && !proposals_equal(&cur[i].proposal, &props[k]) {
                return Err(INVALID);
            }
        } else {
            assert(find_proposal(views, k, 0) is None);
            let j = match position_of_path(&a.files, props[k].path.as_slice()) {
                None => return Err(INVALID),
                Some(j) => j,
            };
            return Ok(Some(Generation {
                proposal_index: k,
                admitted_path_index: j,
                revision: 0,
                proposal: copy_proposal(&props[k]),
            }));
        }
        k += 1;
    }
    Ok(None)
}

/// The summary of a session the user stopped.
pub open spec fn stopped_by_user() -> Seq<u8> {
    "Stopped by user.".spec_bytes()
}

/// The summary of a session whose promotion the user declined.
pub open spec fn promotion_declined() -> Seq<u8> {
    "Promotion not approved.".spec_bytes()
}

/// The feedback of a rejection line `reject <feedback>`: not blank and at
/// most the feedback bound.
pub open spec fn rejection_feedback(line: Seq<u8>) -> Option<Seq<u8>> {
    let prefix = "reject ".spec_bytes();
    if line.len() >= prefix.len() && line.subrange(0, prefix.len() as int) == prefix {
        let feedback = line.subrange(prefix.len() as int, line.len() as int);
        if blank(feedback) || feedback.len() > MAX_FEEDBACK_BYTES {
            None
        } else {
            Some(feedback)
        }
    } else {
        None
    }
}

/// Returns the feedback of a rejection line.
fn feedback_of(line: &[u8]) -> (r: Option<Vec<u8>>)
    ensures
        match r {
            Some(f) => rejection_feedback(line@) == Some(f@),
            None => rejection_feedback(line@) is None,
        },
{
    let prefix = "reject ".as_bytes();
    if !has_prefix(line, prefix) {
        return None;
    }
    let feedback = vstd::slice::slice_subrange(line, prefix.len(), line.len());
    if is_blank(feedback) || feedback.len() > MAX_FEEDBACK_BYTES {
        return None;
    }
    Some(vstd::slice::slice_to_vec(feedback))
}

/// The step of revising a rejected generation: prompt the model once after
/// the rejection, have it answer, then take the next revision.
pub open spec fn spec_revise(facts: Seq<Fact>, a: Admission, g: GenerationView, op: Operation, rejection_index: u64, feedback: Seq<u8>) -> Result<ActionView, i32> {
    let argv = texts(a.argv@);
    let prompt = match last_of(facts, EVENT_REVISION_PROMPT, FactFilter::Carries(op), argv) {
        Some(i) => if facts[i].index > rejection_index { Some(i) } else { None },
        None => None,
    };
    match prompt {
        None => Ok(ActionView::AppendRevisionPrompt { generation: g, operation: op, feedback }),
        Some(p) => match last_of(facts, EVENT_REVISION_RESPONSE, FactFilter::Follows(facts[p].index), argv) {
            None => Ok(exchange_view(MODEL_SLOT, facts[p].index, EVENT_REVISION_RESPONSE)),
            Some(r) => match spec_revision_response(facts[r].bytes@, g) {
                None => Err(INVALID),
                Some(proposal) => if g.revision == u32::MAX {
                    Err(INVALID)
                } else {
                    Ok(ActionView::AppendGeneration(GenerationView {
                        proposal_index: g.proposal_index,
                        admitted_path_index: g.admitted_path_index,
                        revision: (g.revision + 1) as u32,
                        proposal,
                    }))
                },
            },
        },
    }
}

/// A revision appends the model's revised edit, never the rejected one:
/// the generation it appends is the next revision of the same proposal and
/// file, its proposal is the one read from a revision response in the
/// history, an edit of the same path and source, and its result differs
/// from the rejected result.
pub proof fn lemma_revision_carries_the_revised_edit(facts: Seq<Fact>, a: Admission, g: GenerationView, op: Operation,
    rejection_index: u64, feedback: Seq<u8>)
    ensures
        spec_revise(facts, a, g, op, rejection_index, feedback) matches Ok(ActionView::AppendGeneration(next)) ==> {
            &&& next.proposal_index == g.proposal_index
            &&& next.admitted_path_index == g.admitted_path_index
            &&& next.revision == g.revision + 1
            &&& next.proposal.path == g.proposal.path
            &&& next.proposal.source == g.proposal.source
            &&& next.proposal.result != g.proposal.result
            &&& exists|r: int| 0 <= r < facts.len() && #[trigger] facts[r].value == EVENT_REVISION_RESPONSE
                && spec_revision_response(facts[r].bytes@, g) == Some(next.proposal)
        },
{
    let argv = texts(a.argv@);
    lemma_last_match(facts, EVENT_REVISION_PROMPT, FactFilter::Carries(op), argv, facts.len());
    if let Some(p) = last_of(facts, EVENT_REVISION_PROMPT, FactFilter::Carries(op), argv) {
        lemma_last_match(facts, EVENT_REVISION_RESPONSE, FactFilter::Follows(facts[p].index), argv, facts.len());
        if let Some(r) = last_of(facts, EVENT_REVISION_RESPONSE, FactFilter::Follows(facts[p].index), argv) {
            assert(facts[r].value == EVENT_REVISION_RESPONSE);
        }
    }
}

/// Returns the step of revising a rejected generation.
pub fn revise_generation(facts: &Vec<Fact>, a: &Admission, g: &Generation, op: Operation, rejection_index: u64, feedback: Vec<u8>) -> (r: Result<Action, i32>)
    ensures
        match r {
            Ok(act) => spec_revise(facts@, *a, g@, op, rejection_index, feedback@) == Ok::<ActionView, i32>(act@),
            Err(c) => spec_revise(facts@, *a, g@, op, rejection_index, feedback@) == Err::<ActionView, i32>(c),
        },
{
    proof {
        lemma_last_match(facts@, EVENT_REVISION_PROMPT, FactFilter::Carries(op), texts(a.argv@), facts@.len());
    }
    let p = match last_matching(facts, EVENT_REVISION_PROMPT, FactFilter::Carries(op), &a.argv) {
        Some(i) => if facts[i].index > rejection_index { i } else {
            return Ok(Action::AppendRevisionPrompt { generation: copy_generation(g), operation: op, feedback });
        },
        None => return Ok(Action::AppendRevisionPrompt { generation: copy_generation(g), operation: op, feedback }),
    };
    let prompt_index = facts[p].index;
    let r = match last_matching(facts, EVENT_REVISION_RESPONSE, FactFilter::Follows(prompt_index), &a.argv) {
        None => return Ok(exchange(MODEL_SLOT, prompt_index, EVENT_REVISION_RESPONSE)),
        Some(r) => r,
    };
    proof {
        lemma_last_match(facts@, EVENT_REVISION_RESPONSE, FactFilter::Follows(prompt_index), texts(a.argv@), facts@.len());
    }
    let proposal = parse_revision_response(facts[r].bytes.as_slice(), g)?;
    if g.revision == u32::MAX {
        return Err(INVALID);
    }
    Ok(Action::AppendGeneration(Generation {
        proposal_index: g.proposal_index,
        admitted_path_index: g.admitted_path_index,
        revision: g.revision + 1,
        proposal,
    }))
}

/// The step of reviewing a generation: prompt the user with its diff, have
/// the user answer, then stop, authorize and apply it, or revise it.
pub open spec fn spec_review(facts: Seq<Fact>, a: Admission, g: GenerationView, op: Operation) -> Result<ActionView, i32> {
    let argv = texts(a.argv@);
    match last_of(facts, EVENT_REVIEW_PROMPT, FactFilter::Carries(op), argv) {
        None => Ok(ActionView::AppendReviewPrompt { operation: op, diff: spec_render_diff(g.proposal) }),
        Some(p) => match last_of(facts, EVENT_REVIEW_RESPONSE, FactFilter::Follows(facts[p].index), argv) {
            None => Ok(exchange_view(TERMINAL_SLOT, facts[p].index, EVENT_REVIEW_RESPONSE)),
            Some(r) => {
                let line = trimmed_text(facts[r].bytes@);
                if line == "stop".spec_bytes() {
                    Ok(ActionView::AppendStopped(stopped_by_user()))
                } else if line == "approve".spec_bytes() {
                    if last_of(facts, EVENT_MUTATION_AUTHORIZED, FactFilter::Carries(op), argv) is None {
                        Ok(ActionView::AppendOperation { event: EVENT_MUTATION_AUTHORIZED, operation: op })
                    } else {
                        Ok(ActionView::ApplyCandidate {
                            admitted_path_index: g.admitted_path_index,
                            result: g.proposal.result,
                            operation: op,
                        })
                    }
                } else {
                    match rejection_feedback(line) {
                        None => Err(INVALID),
                        Some(feedback) => spec_revise(facts, a, g, op, facts[r].index, feedback),
                    }
                }
            },
        },
    }
}

/// A review first shows the user the generation's diff, then waits on the
/// user's answer from the terminal, and the answer decides: `stop` stops
/// the session; `approve` authorizes, then applies, this generation's
/// result; `reject ` followed by feedback that is not blank and within the
/// feedback bound revises the generation with that feedback; anything
/// else is invalid.
#[verifier::spinoff_prover]
#[verifier::rlimit(80)]
pub proof fn lemma_review_answer(facts: Seq<Fact>, a: Admission, g: GenerationView, op: Operation)
    ensures
        match last_of(facts, EVENT_REVIEW_PROMPT, FactFilter::Carries(op), texts(a.argv@)) {
            None => spec_review(facts, a, g, op)
                == Ok::<ActionView, i32>(ActionView::AppendReviewPrompt { operation: op, diff: spec_render_diff(g.proposal) }),
            Some(p) => match last_of(facts, EVENT_REVIEW_RESPONSE, FactFilter::Follows(facts[p].index), texts(a.argv@)) {
                None => spec_review(facts, a, g, op) == Ok::<ActionView, i32>(exchange_view(31, facts[p].index, EVENT_REVIEW_RESPONSE)),
                Some(r) => {
                    let line = trimmed_text(facts[r].bytes@);
                    let prefix = "reject ".spec_bytes();
                    let rest = line.subrange(7, line.len() as int);
                    &&& facts[r].value == EVENT_REVIEW_RESPONSE
                    &&& line == "stop".spec_bytes() ==> spec_review(facts, a, g, op)
                        == Ok::<ActionView, i32>(ActionView::AppendStopped("Stopped by user.".spec_bytes()))
                    &&& line == "approve".spec_bytes() ==> (spec_review(facts, a, g, op) matches Ok(act) && (
                        act == (ActionView::AppendOperation { event: EVENT_MUTATION_AUTHORIZED, operation: op })
                        || act == (ActionView::ApplyCandidate { admitted_path_index: g.admitted_path_index, result: g.proposal.result,
                            operation: op })))
                    &&& (line.len() >= 7 && line.subrange(0, 7) == prefix && !blank(rest) && rest.len() <= MAX_FEEDBACK_BYTES)
                        ==> spec_review(facts, a, g, op) == spec_revise(facts, a, g, op, facts[r].index, rest)
                    &&& (line != "stop".spec_bytes() && line != "approve".spec_bytes()
                        && !(line.len() >= 7 && line.subrange(0, 7) == prefix && !blank(rest) && rest.len() <= MAX_FEEDBACK_BYTES))
                        ==> spec_review(facts, a, g, op) == Err::<ActionView, i32>(INVALID)
                },
            },
        },
{
    let argv = texts(a.argv@);
    lemma_last_match(facts, EVENT_REVIEW_PROMPT, FactFilter::Carries(op), argv, facts.len());
    if let Some(p) = last_of(facts, EVENT_REVIEW_PROMPT, FactFilter::Carries(op), argv) {
        lemma_last_match(facts, EVENT_REVIEW_RESPONSE, FactFilter::Follows(facts[p].index), argv, facts.len());
        if let Some(r) = last_of(facts, EVENT_REVIEW_RESPONSE, FactFilter::Follows(facts[p].index), argv) {
            let line = trimmed_text(facts[r].bytes@);
            assert("reject ".spec_bytes().len() == 7) by {
                reveal_strlit("reject ");
                assert(vstd::string::is_ascii("reject "));
                vstd::string::is_ascii_spec_bytes("reject ");
            }
            assert("stop".spec_bytes() != "approve".spec_bytes()) by {
                reveal_strlit("stop");
                reveal_strlit("approve");
                assert(vstd::string::is_ascii("stop"));
                assert(vstd::string::is_ascii("approve"));
                vstd::string::is_ascii_spec_bytes("stop");
                vstd::string::is_ascii_spec_bytes("approve");
                assert("stop".spec_bytes().len() != "approve".spec_bytes().len());
            }
            assert("stop".spec_bytes().len() == 4 && "approve".spec_bytes()[0] == 97 && "reject ".spec_bytes()[0] == 114) by {
                reveal_strlit("stop");
                reveal_strlit("approve");
                reveal_strlit("reject ");
                assert(vstd::string::is_ascii("stop"));
                assert(vstd::string::is_ascii("approve"));
                assert(vstd::string::is_ascii("reject "));
                vstd::string::is_ascii_spec_bytes("stop");
                vstd::string::is_ascii_spec_bytes("approve");
                vstd::string::is_ascii_spec_bytes("reject ");
            }
            if line.len() >= 7 && line.subrange(0, 7) == "reject ".spec_bytes() {
                assert(line[0] == 114) by {
                    assert(line.subrange(0, 7)[0] == line[0]);
                }
                assert(line != "stop".spec_bytes());
                assert(line != "approve".spec_bytes());
            }
            let prefix = "reject ".spec_bytes();
            let rest = line.subrange(7, line.len() as int);
            assert(line == "stop".spec_bytes() ==> spec_review(facts, a, g, op)
                == Ok::<ActionView, i32>(ActionView::AppendStopped("Stopped by user.".spec_bytes())));
            assert(line == "approve".spec_bytes() ==> (spec_review(facts, a, g, op) matches Ok(act) && (
                act == (ActionView::AppendOperation { event: EVENT_MUTATION_AUTHORIZED, operation: op })
                || act == (ActionView::ApplyCandidate { admitted_path_index: g.admitted_path_index, result: g.proposal.result,
                    operation: op }))));
            assert((line.len() >= 7 && line.subrange(0, 7) == prefix && !blank(rest) && rest.len() <= MAX_FEEDBACK_BYTES)
                ==> rejection_feedback(line) == Some(rest));
            assert(!(line.len() >= 7 && line.subrange(0, 7) == prefix && !blank(rest) && rest.len() <= MAX_FEEDBACK_BYTES)
                ==> rejection_feedback(line) is None);
            assert((line != "stop".spec_bytes() && line != "approve".spec_bytes()
                && !(line.len() >= 7 && line.subrange(0, 7) == prefix && !blank(rest) && rest.len() <= MAX_FEEDBACK_BYTES))
                ==> spec_review(facts, a, g, op) == Err::<ActionView, i32>(INVALID));
            assert((line.len() >= 7 && line.subrange(0, 7) == prefix && !blank(rest) && rest.len() <= MAX_FEEDBACK_BYTES)
                ==> spec_review(facts, a, g, op) == spec_revise(facts, a, g, op, facts[r].index, rest));
            assert(facts[r].value == EVENT_REVIEW_RESPONSE);
        }
    }
}

/// Returns the step of reviewing a generation.
pub fn review_generation(facts: &Vec<Fact>, a: &Admission, g: &Generation, op: Operation) -> (r: Result<Action, i32>)
    ensures
        match r {
            Ok(act) => spec_review(facts@, *a, g@, op) == Ok::<ActionView, i32>(act@),
            Err(c) => spec_review(facts@, *a, g@, op) == Err::<ActionView, i32>(c),
        },
{
    let p = match last_matching(facts, EVENT_REVIEW_PROMPT, FactFilter::Carries(op), &a.argv) {
        None => return Ok(Action::AppendReviewPrompt { operation: op, diff: render_diff(&g.proposal) }),
        Some(p) => p,
    };
    proof {
        lemma_last_match(facts@, EVENT_REVIEW_PROMPT, FactFilter::Carries(op), texts(a.argv@), facts@.len());
    }
    let prompt_index = facts[p].index;
    let r = match last_matching(facts, EVENT_REVIEW_RESPONSE, FactFilter::Follows(prompt_index), &a.argv) {
        None => return Ok(exchange(TERMINAL_SLOT, prompt_index, EVENT_REVIEW_RESPONSE)),
        Some(r) => r,
    };
    proof {
        lemma_last_match(facts@, EVENT_REVIEW_RESPONSE, FactFilter::Follows(prompt_index), texts(a.argv@), facts@.len());
    }
    let line = trimmed(facts[r].bytes.as_slice());
    if bytes_equal(line.as_slice(), "stop".as_bytes()) {
        return Ok(Action::AppendStopped(vstd::slice::slice_to_vec("Stopped by user.".as_bytes())));
    }
    if bytes_equal(line.as_slice(), "approve".as_bytes()) {
        if last_matching(facts, EVENT_MUTATION_AUTHORIZED, FactFilter::Carries(op), &a.argv).is_none() {
            return Ok(Action::AppendOperation { event: EVENT_MUTATION_AUTHORIZED, operation: op });
        }
        return Ok(Action::ApplyCandidate {
            admitted_path_index: g.admitted_path_index,
            result: copy_bytes(&g.proposal.result),
            operation: op,
        });
    }
    match feedback_of(line.as_slice()) {
        None => Err(INVALID),
        Some(feedback) => revise_generation(facts, a, g, op, facts[r].index, feedback),
    }
}

/// The step of promoting an applied generation: ask the user, have the user
/// answer, then stop, authorize, or promote it.
pub open spec fn spec_promote(facts: Seq<Fact>, a: Admission, g: GenerationView, op: Operation) -> Result<ActionView, i32> {
    let argv = texts(a.argv@);
    match last_of(facts, EVENT_PROMOTION_PROMPT, FactFilter::Carries(op), argv) {
        None => Ok(ActionView::AppendOperation { event: EVENT_PROMOTION_PROMPT, operation: op }),
        Some(p) => match last_of(facts, EVENT_PROMOTION_RESPONSE, FactFilter::Follows(facts[p].index), argv) {
            None => Ok(exchange_view(TERMINAL_SLOT, facts[p].index, EVENT_PROMOTION_RESPONSE)),
            Some(r) => if trimmed_text(facts[r].bytes@) != "approve".spec_bytes() {
                Ok(ActionView::AppendStopped(promotion_declined()))
            } else if last_of(facts, EVENT_PROMOTION_AUTHORIZED, FactFilter::Carries(op), argv) is None {
                Ok(ActionView::AppendOperation { event: EVENT_PROMOTION_AUTHORIZED, operation: op })
            } else {
                Ok(ActionView::Promote { admitted_path_index: g.admitted_path_index, operation: op })
            },
        },
    }
}

/// A promotion first asks the user, then waits on the user's answer from
/// the terminal. The user's answer to a promotion prompt decides it: an answer that
/// trims to `approve` never stops the session but authorizes or performs
/// the promotion of this generation, and any other answer stops the session
/// as not approved.
pub proof fn lemma_promotion_answer(facts: Seq<Fact>, a: Admission, g: GenerationView, op: Operation)
    ensures
        match last_of(facts, EVENT_PROMOTION_PROMPT, FactFilter::Carries(op), texts(a.argv@)) {
            None => spec_promote(facts, a, g, op)
                == Ok::<ActionView, i32>(ActionView::AppendOperation { event: EVENT_PROMOTION_PROMPT, operation: op }),
            Some(p) => match last_of(facts, EVENT_PROMOTION_RESPONSE, FactFilter::Follows(facts[p].index), texts(a.argv@)) {
                None => spec_promote(facts, a, g, op) == Ok::<ActionView, i32>(exchange_view(31, facts[p].index, EVENT_PROMOTION_RESPONSE)),
                Some(r) => {
                    &&& facts[r].value == EVENT_PROMOTION_RESPONSE
                    &&& trimmed_text(facts[r].bytes@) == "approve".spec_bytes() ==> (spec_promote(facts, a, g, op) matches Ok(act) && (
                        act == (ActionView::AppendOperation { event: EVENT_PROMOTION_AUTHORIZED, operation: op })
                        || act == (ActionView::Promote { admitted_path_index: g.admitted_path_index, operation: op })))
                    &&& trimmed_text(facts[r].bytes@) != "approve".spec_bytes() ==> spec_promote(facts, a, g, op)
                        == Ok::<ActionView, i32>(ActionView::AppendStopped("Promotion not approved.".spec_bytes()))
                },
            },
        },
{
    let argv = texts(a.argv@);
    lemma_last_match(facts, EVENT_PROMOTION_PROMPT, FactFilter::Carries(op), argv, facts.len());
    if let Some(p) = last_of(facts, EVENT_PROMOTION_PROMPT, FactFilter::Carries(op), argv) {
        lemma_last_match(facts, EVENT_PROMOTION_RESPONSE, FactFilter::Follows(facts[p].index), argv, facts.len());
    }
}

/// Returns the step of promoting an applied generation.
pub fn promote_generation(facts: &Vec<Fact>, a: &Admission, g: &Generation, op: Operation) -> (r: Result<Action, i32>)
    ensures
        match r {
            Ok(act) => spec_promote(facts@, *a, g@, op) == Ok::<ActionView, i32>(act@),
            Err(c) => spec_promote(facts@, *a, g@, op) == Err::<ActionView, i32>(c),
        },
{
    let p = match last_matching(facts, EVENT_PROMOTION_PROMPT, FactFilter::Carries(op), &a.argv) {
        None => return Ok(Action::AppendOperation { event: EVENT_PROMOTION_PROMPT, operation: op }),
        Some(p) => p,
    };
    proof {
        lemma_last_match(facts@, EVENT_PROMOTION_PROMPT, FactFilter::Carries(op), texts(a.argv@), facts@.len());
    }
    let prompt_index = facts[p].index;
    let r = match last_matching(facts, EVENT_PROMOTION_RESPONSE, FactFilter::Follows(prompt_index), &a.argv) {
        None => return Ok(exchange(TERMINAL_SLOT, prompt_index, EVENT_PROMOTION_RESPONSE)),
        Some(r) => r,
    };
    proof {
        lemma_last_match(facts@, EVENT_PROMOTION_RESPONSE, FactFilter::Follows(prompt_index), texts(a.argv@), facts@.len());
    }
    let line = trimmed(facts[r].bytes.as_slice());
    if !bytes_equal(line.as_slice(), "approve".as_bytes()) {
        return Ok(Action::AppendStopped(vstd::slice::slice_to_vec("Promotion not approved.".as_bytes())));
    }
    if last_matching(facts, EVENT_PROMOTION_AUTHORIZED, FactFilter::Carries(op), &a.argv).is_none() {
        return Ok(Action::AppendOperation { event: EVENT_PROMOTION_AUTHORIZED, operation: op });
    }
    Ok(Action::Promote { admitted_path_index: g.admitted_path_index, operation: op })
}

/// Generations in ascending order of proposal index, `g` placed before the
/// first generation whose index is not below its own.
pub open spec fn insert_sorted(s: Seq<GenerationView>, g: GenerationView) -> Seq<GenerationView>
    decreases s.len(),
{
    if s.len() == 0 {
        seq![g]
    } else if g.proposal_index <= s[0].proposal_index {
        seq![g] + s
    } else {
        seq![s[0]] + insert_sorted(s.drop_first(), g)
    }
}

/// Generations ordered by proposal index, equal indices in their order.
pub open spec fn sort_by_proposal(s: Seq<GenerationView>) -> Seq<GenerationView>
    decreases s.len(),
{
    if s.len() == 0 {
        Seq::empty()
    } else {
        insert_sorted(sort_by_proposal(s.drop_last()), s.last())
    }
}

/// Inserting before the first index not below `g`'s is inserting in order.
pub proof fn lemma_insert_sorted(s: Seq<GenerationView>, g: GenerationView, j: int)
    requires
        0 <= j <= s.len(),
        forall|k: int| 0 <= k < j ==> #[trigger] s[k].proposal_index < g.proposal_index,
        j < s.len() ==> g.proposal_index <= s[j].proposal_index,
    ensures
        insert_sorted(s, g) == s.insert(j, g),
    decreases s.len(),
{
    if s.len() == 0 {
        assert(s.insert(j, g) =~= seq![g]);
    } else if j == 0 {
        assert(s.insert(0, g) =~= seq![g] + s);
    } else {
        let t = s.drop_first();
        assert forall|k: int| 0 <= k < j - 1 implies #[trigger] t[k].proposal_index < g.proposal_index by {
            assert(t[k] == s[k + 1]);
        }
        lemma_insert_sorted(t, g, j - 1);
        assert(s.insert(j, g) =~= seq![s[0]] + t.insert(j - 1, g));
    }
}

/// Ordering keeps every generation, so a bound on their proposal indices.
pub proof fn lemma_insert_bounded(s: Seq<GenerationView>, g: GenerationView, bound: nat)
    requires
        forall|k: int| 0 <= k < s.len() ==> #[trigger] s[k].proposal_index < bound,
        g.proposal_index < bound,
    ensures
        insert_sorted(s, g).len() == s.len() + 1,
        forall|k: int| 0 <= k < insert_sorted(s, g).len() ==> #[trigger] insert_sorted(s, g)[k].proposal_index < bound,
    decreases s.len(),
{
    if s.len() > 0 && g.proposal_index > s[0].proposal_index {
        lemma_insert_bounded(s.drop_first(), g, bound);
        let t = insert_sorted(s.drop_first(), g);
        assert forall|k: int| 0 <= k < insert_sorted(s, g).len() implies #[trigger] insert_sorted(s, g)[k].proposal_index < bound by {
            if k > 0 {
                assert(insert_sorted(s, g)[k] == t[k - 1]);
            }
        }
    }
}

/// Ordering keeps every generation, so a bound on their proposal indices.
pub proof fn lemma_sort_bounded(s: Seq<GenerationView>, bound: nat)
    requires
        forall|k: int| 0 <= k < s.len() ==> #[trigger] s[k].proposal_index < bound,
    ensures
        sort_by_proposal(s).len() == s.len(),
        forall|k: int| 0 <= k < sort_by_proposal(s).len() ==> #[trigger] sort_by_proposal(s)[k].proposal_index < bound,
    decreases s.len(),
{
    if s.len() > 0 {
        let t = s.drop_last();
        assert forall|k: int| 0 <= k < t.len() implies #[trigger] t[k].proposal_index < bound by {
            assert(t[k] == s[k]);
        }
        lemma_sort_bounded(t, bound);
        lemma_insert_bounded(sort_by_proposal(t), s.last(), bound);
    }
}

/// Returns copies of the generations ordered by proposal index.
pub fn sorted_by_proposal(gs: &Vec<Generation>) -> (r: Vec<Generation>)
    ensures
        r@.map_values(|g: Generation| g@) == sort_by_proposal(gs@.map_values(|g: Generation| g@)),
{
    let ghost views = gs@.map_values(|g: Generation| g@);
    let mut out: Vec<Generation> = Vec::new();
    let mut n: usize = 0;
    while n < gs.len()
        invariant
            n <= gs@.len(),
            views == gs@.map_values(|g: Generation| g@),
            out@.map_values(|g: Generation| g@) == sort_by_proposal(views.take(n as int)),
        decreases gs@.len() - n,
    {
        let g = &gs[n];
        let ghost sorted = out@.map_values(|g: Generation| g@);
        let mut j: usize = 0;
        while j < out.len() && out[j].proposal_index < g.proposal_index
            invariant
                j <= out@.len(),
                sorted == out@.map_values(|g: Generation| g@),
                forall|k: int| 0 <= k < j ==> #[trigger] sorted[k].proposal_index < g.proposal_index,
            decreases out@.len() - j,
        {
            j += 1;
        }
        proof {
            lemma_insert_sorted(sorted, g@, j as int);
            assert(views.take(n + 1).drop_last() =~= views.take(n as int));
        }
        out.insert(j, copy_generation(g));
        assert(out@.map_values(|g: Generation| g@) =~= sorted.insert(j as int, g@));
        n += 1;
    }
    assert(views.take(gs@.len() as int) =~= views);
    out
}

/// The largest proposal index among the first `n` generations.
pub open spec fn max_proposal_index(cur: Seq<GenerationView>, n: nat) -> nat
    decreases n,
{
    if n == 0 {
        0
    } else {
        let rest = max_proposal_index(cur, (n - 1) as nat);
        let here = cur[n - 1].proposal_index as nat;
        if n == 1 || here > rest {
            here
        } else {
            rest
        }
    }
}

/// The proposal index a new proposal takes: one more than the largest
/// current one, or zero.
pub open spec fn next_proposal_index(cur: Seq<GenerationView>) -> usize {
    if cur.len() == 0 {
        0
    } else {
        (max_proposal_index(cur, cur.len()) + 1) as usize
    }
}

/// The position of the first generation that edits admitted file `index`.
pub open spec fn path_generation(cur: Seq<GenerationView>, index: usize, start: nat) -> Option<int>
    decreases cur.len() - start,
{
    if start >= cur.len() {
        None
    } else if cur[start as int].admitted_path_index == index {
        Some(start as int)
    } else {
        path_generation(cur, index, start + 1)
    }
}

/// A found position holds a generation of that file.
pub proof fn lemma_path_generation(cur: Seq<GenerationView>, index: usize, start: nat)
    ensures
        path_generation(cur, index, start) matches Some(i) ==> start <= i < cur.len()
            && cur[i].admitted_path_index == index,
    decreases cur.len() - start,
{
    if start < cur.len() {
        lemma_path_generation(cur, index, start + 1);
    }
}

/// The generation a continuation proposal makes: the next revision of the
/// current generation of that file, or revision zero of a new proposal.
pub open spec fn continued_generation(cur: Seq<GenerationView>, index: usize, proposal: ProposalView) -> Result<ActionView, i32> {
    match path_generation(cur, index, 0) {
        Some(i) => if cur[i].revision == u32::MAX {
            Err(INVALID)
        } else {
            Ok(ActionView::AppendGeneration(GenerationView {
                proposal_index: cur[i].proposal_index,
                admitted_path_index: index,
                revision: (cur[i].revision + 1) as u32,
                proposal,
            }))
        },
        None => Ok(ActionView::AppendGeneration(GenerationView {
            proposal_index: next_proposal_index(cur),
            admitted_path_index: index,
            revision: 0,
            proposal,
        })),
    }
}

/// Returns the generation a continuation proposal makes.
fn continue_generation(cur: &Vec<Generation>, index: usize, proposal: Proposal) -> (r: Result<Action, i32>)
    requires
        forall|k: int| 0 <= k < cur@.len() ==> #[trigger] cur@[k].proposal_index < usize::MAX,
    ensures
        match r {
            Ok(act) => continued_generation(cur@.map_values(|g: Generation| g@), index, proposal@) == Ok::<ActionView, i32>(act@),
            Err(c) => continued_generation(cur@.map_values(|g: Generation| g@), index, proposal@) == Err::<ActionView, i32>(c),
        },
{
    let ghost views = cur@.map_values(|g: Generation| g@);
    let mut i: usize = 0;
    while i < cur.len() && cur[i].admitted_path_index != index
        invariant
            i <= cur@.len(),
            views == cur@.map_values(|g: Generation| g@),
            path_generation(views, index, 0) == path_generation(views, index, i as nat),
        decreases cur@.len() - i,
    {
        i += 1;
    }
    if i < cur.len() {
        assert(path_generation(views, index, 0) == Some(i as int));
        if cur[i].revision == u32::MAX {
            return Err(INVALID);
        }
        return Ok(Action::AppendGeneration(Generation {
            proposal_index: cur[i].proposal_index,
            admitted_path_index: index,
            revision: cur[i].revision + 1,
            proposal,
        }));
    }
    let mut next: usize = 0;
    let mut k: usize = 0;
    while k < cur.len()
        invariant
            k <= cur@.len(),
            views == cur@.map_values(|g: Generation| g@),
            forall|j: int| 0 <= j < cur@.len() ==> #[trigger] cur@[j].proposal_index < usize::MAX,
            next == (if k == 0 { 0 } else { max_proposal_index(views, k as nat) + 1 }),
        decreases cur@.len() - k,
    {
        let here = cur[k].proposal_index;
        assert(views[k as int].proposal_index == here);
        if k == 0 || here + 1 > next {
            next = here + 1;
        }
        k += 1;
    }
    Ok(Action::AppendGeneration(Generation { proposal_index: next, admitted_path_index: index, revision: 0, proposal }))
}

/// The step after validated command evidence: prompt the model with the
/// evidence, have it answer, then complete or continue with a proposal.
pub open spec fn spec_continuation(facts: Seq<Fact>, a: Admission, cur: Seq<GenerationView>, res: int, f: crate::task::CommandFinished) -> Result<ActionView, i32> {
    let argv = texts(a.argv@);
    match last_of(facts, EVENT_CONTINUATION_PROMPT, FactFilter::After(facts[res].index), argv) {
        None => match spec_continuation_sources(a, f) {
            None => Err(INVALID),
            Some(sources) => Ok(ActionView::AppendContinuationPrompt { finished_position: res as usize, sources, generations: cur }),
        },
        Some(p) => match last_of(facts, EVENT_CONTINUATION_RESPONSE, FactFilter::Follows(facts[p].index), argv) {
            None => Ok(exchange_view(MODEL_SLOT, facts[p].index, EVENT_CONTINUATION_RESPONSE)),
            Some(r) => match spec_continuation_response(facts[r].bytes@, a, f) {
                None => Err(INVALID),
                Some(ContinuationView::Complete(summary)) => Ok(ActionView::AppendComplete(summary)),
                Some(ContinuationView::Proposal(index, proposal)) => continued_generation(cur, index, proposal),
            },
        },
    }
}

/// Returns the step after validated command evidence.
pub fn continuation_cycle(facts: &Vec<Fact>, a: &Admission, cur: &Vec<Generation>, res: usize, f: &crate::task::CommandFinished) -> (r: Result<Action, i32>)
    requires
        res < facts@.len(),
        forall|k: int| 0 <= k < cur@.len() ==> #[trigger] cur@[k].proposal_index < usize::MAX,
    ensures
        match r {
            Ok(act) => spec_continuation(facts@, *a, cur@.map_values(|g: Generation| g@), res as int, *f) == Ok::<ActionView, i32>(act@),
            Err(c) => spec_continuation(facts@, *a, cur@.map_values(|g: Generation| g@), res as int, *f) == Err::<ActionView, i32>(c),
        },
{
    let result_index = facts[res].index;
    let p = match last_matching(facts, EVENT_CONTINUATION_PROMPT, FactFilter::After(result_index), &a.argv) {
        None => {
            let sources = continuation_sources(a, f)?;
            let mut generations: Vec<Generation> = Vec::new();
            let mut k: usize = 0;
            while k < cur.len()
                invariant
                    k <= cur@.len(),
                    generations@.map_values(|g: Generation| g@) == cur@.take(k as int).map_values(|g: Generation| g@),
                decreases cur@.len() - k,
            {
                let ghost before = generations@;
                generations.push(copy_generation(&cur[k]));
                assert(cur@.take(k + 1) =~= cur@.take(k as int).push(cur@[k as int]));
                assert(generations@.map_values(|g: Generation| g@) =~= before.map_values(|g: Generation| g@).push(cur@[k as int]@));
                assert(cur@.take(k + 1).map_values(|g: Generation| g@) =~= cur@.take(k as int).map_values(|g: Generation| g@).push(cur@[k as int]@));
                k += 1;
            }
            assert(cur@.take(cur@.len() as int) =~= cur@);
            return Ok(Action::AppendContinuationPrompt { finished_position: res, sources, generations });
        },
        Some(p) => p,
    };
    proof {
        lemma_last_match(facts@, EVENT_CONTINUATION_PROMPT, FactFilter::After(result_index), texts(a.argv@), facts@.len());
    }
    let prompt_index = facts[p].index;
    let r = match last_matching(facts, EVENT_CONTINUATION_RESPONSE, FactFilter::Follows(prompt_index), &a.argv) {
        None => return Ok(exchange(MODEL_SLOT, prompt_index, EVENT_CONTINUATION_RESPONSE)),
        Some(r) => r,
    };
    proof {
        lemma_last_match(facts@, EVENT_CONTINUATION_RESPONSE, FactFilter::Follows(prompt_index), texts(a.argv@), facts@.len());
    }
    match parse_continuation_response(facts[r].bytes.as_slice(), a, f)? {
        ContinuationResponse::Complete(summary) => Ok(Action::AppendComplete(summary)),
        ContinuationResponse::Proposal { admitted_path_index, proposal } => continue_generation(cur, admitted_path_index, proposal),
    }
}

/// The number of facts with event code `event` among the first `n`.
pub open spec fn count_value(facts: Seq<Fact>, event: u64, n: nat) -> nat
    decreases n,
{
    if n == 0 {
        0
    } else {
        count_value(facts, event, (n - 1) as nat) + if facts[n - 1].value == event { 1nat } else { 0nat }
    }
}

/// Some generation or completion was derived from the first continuation
/// response after the command result at `res`.
pub open spec fn derived(facts: Seq<Fact>, argv: Seq<Seq<u8>>, res: int) -> bool {
    match first_match(facts, EVENT_CONTINUATION_RESPONSE, FactFilter::After(facts[res].index), argv, 0) {
        None => false,
        Some(r) => exists|k: int| 0 <= k < facts.len() && #[trigger] facts[k].index > facts[r].index
            && (facts[k].value == EVENT_GENERATION || facts[k].value == EVENT_COMPLETE),
    }
}

/// The step after the command result at `res`, which answered the request of
/// attempt `attempt` of `request_argv`: its evidence must match the request
/// and the sources the session expects before it.
pub open spec fn spec_after_result(facts: Seq<Fact>, a: Admission, cur: Seq<GenerationView>, res: int, attempt: u64, request_argv: Seq<Seq<u8>>) -> Result<ActionView, i32> {
    match facts[res].payload {
        Payload::CommandFinished(Some(f)) => match sources_upto(facts, a, facts[res].index, facts.len()) {
            None => Err(INVALID),
            Some(expected) => if !spec_command_finished(f, attempt, request_argv, a, expected) {
                Err(INVALID)
            } else {
                spec_continuation(facts, a, cur, res, f)
            },
        },
        _ => Err(INVALID),
    }
}

/// The step of a new attempt of the admitted command: request it, have the
/// user decide, record its start, run it, then continue from its result.
pub open spec fn spec_new_attempt(facts: Seq<Fact>, a: Admission, cur: Seq<GenerationView>) -> Result<ActionView, i32> {
    let argv = texts(a.argv@);
    let attempt = (count_value(facts, EVENT_COMMAND_RESULT, facts.len()) + 1) as u64;
    match last_of(facts, EVENT_COMMAND_PROMPT, FactFilter::Requests(attempt), argv) {
        None => Ok(ActionView::AppendCommandRequest { event: EVENT_COMMAND_PROMPT, attempt, argv }),
        Some(p) => match last_of(facts, EVENT_COMMAND_DECISION, FactFilter::Follows(facts[p].index), argv) {
            None => Ok(exchange_view(TERMINAL_SLOT, facts[p].index, EVENT_COMMAND_DECISION)),
            Some(d) => {
                let line = trimmed_text(facts[d].bytes@);
                if line == "stop".spec_bytes() {
                    Ok(ActionView::AppendStopped(stopped_by_user()))
                } else if line != "approve".spec_bytes() {
                    Err(INVALID)
                } else {
                    match last_of(facts, EVENT_COMMAND_STARTED, FactFilter::Requests(attempt), argv) {
                        None => Ok(ActionView::AppendCommandRequest { event: EVENT_COMMAND_STARTED, attempt, argv }),
                        Some(st) => match last_of(facts, EVENT_COMMAND_RESULT, FactFilter::Follows(facts[st].index), argv) {
                            None => Ok(exchange_view(COMMAND_SLOT, facts[st].index, EVENT_COMMAND_RESULT)),
                            Some(res) => spec_after_result(facts, a, cur, res, attempt, argv),
                        },
                    }
                }
            },
        },
    }
}

/// The command step: continue from the latest command result unless a
/// continuation already derived something from it, else start a new attempt.
pub open spec fn spec_command_cycle(facts: Seq<Fact>, a: Admission, cur: Seq<GenerationView>) -> Result<ActionView, i32> {
    let argv = texts(a.argv@);
    match last_of(facts, EVENT_COMMAND_RESULT, FactFilter::Any, argv) {
        Some(res) => if derived(facts, argv, res) {
            spec_new_attempt(facts, a, cur)
        } else {
            match first_match(facts, EVENT_COMMAND_STARTED, FactFilter::Precedes(facts[res].index), argv, 0) {
                None => Err(INVALID),
                Some(st) => match facts[st].payload {
                    Payload::CommandRequest(Some(rq)) => spec_after_result(facts, a, cur, res, rq.attempt, texts(rq.argv@)),
                    _ => Err(INVALID),
                },
            }
        },
        None => spec_new_attempt(facts, a, cur),
    }
}

/// A copy of a list of byte strings.
pub fn copy_texts(v: &Vec<Vec<u8>>) -> (r: Vec<Vec<u8>>)
    ensures
        texts(r@) == texts(v@),
{
    let mut out: Vec<Vec<u8>> = Vec::new();
    let mut k: usize = 0;
    while k < v.len()
        invariant
            k <= v@.len(),
            texts(out@) == texts(v@.take(k as int)),
        decreases v@.len() - k,
    {
        let ghost before = out@;
        out.push(copy_bytes(&v[k]));
        assert(texts(out@) =~= texts(before).push(v@[k as int]@));
        assert(v@.take(k + 1) =~= v@.take(k as int).push(v@[k as int]));
        assert(texts(v@.take(k + 1)) =~= texts(v@.take(k as int)).push(v@[k as int]@));
        k += 1;
    }
    assert(v@.take(v@.len() as int) =~= v@);
    out
}

/// Returns the step after a command result.
fn after_result(facts: &Vec<Fact>, a: &Admission, cur: &Vec<Generation>, res: usize, request: &CommandRequest) -> (r: Result<Action, i32>)
    requires
        res < facts@.len(),
        forall|k: int| 0 <= k < cur@.len() ==> #[trigger] cur@[k].proposal_index < usize::MAX,
    ensures
        match r {
            Ok(act) => spec_after_result(facts@, *a, cur@.map_values(|g: Generation| g@), res as int, request.attempt, texts(request.argv@)) == Ok::<ActionView, i32>(act@),
            Err(c) => spec_after_result(facts@, *a, cur@.map_values(|g: Generation| g@), res as int, request.attempt, texts(request.argv@)) == Err::<ActionView, i32>(c),
        },
{
    let f = match &facts[res].payload {
        Payload::CommandFinished(Some(f)) => f,
        _ => return Err(INVALID),
    };
    let expected = expected_sources(facts, a, facts[res].index)?;
    validate_command_finished(f, request, a, &expected)?;
    continuation_cycle(facts, a, cur, res, f)
}

/// Returns the step of a new attempt of the admitted command.
fn new_attempt(facts: &Vec<Fact>, a: &Admission, cur: &Vec<Generation>) -> (r: Result<Action, i32>)
    requires
        facts@.len() < usize::MAX,
        forall|k: int| 0 <= k < cur@.len() ==> #[trigger] cur@[k].proposal_index < usize::MAX,
    ensures
        match r {
            Ok(act) => spec_new_attempt(facts@, *a, cur@.map_values(|g: Generation| g@)) == Ok::<ActionView, i32>(act@),
            Err(c) => spec_new_attempt(facts@, *a, cur@.map_values(|g: Generation| g@)) == Err::<ActionView, i32>(c),
        },
{
    let mut count: usize = 0;
    let mut n: usize = 0;
    while n < facts.len()
        invariant
            n <= facts@.len() < usize::MAX,
            count == count_value(facts@, EVENT_COMMAND_RESULT, n as nat),
            count <= n,
        decreases facts@.len() - n,
    {
        if facts[n].value == EVENT_COMMAND_RESULT {
            count += 1;
        }
        n += 1;
    }
    let attempt = count as u64 + 1;
    let p = match last_matching(facts, EVENT_COMMAND_PROMPT, FactFilter::Requests(attempt), &a.argv) {
        None => return Ok(Action::AppendCommandRequest { event: EVENT_COMMAND_PROMPT, attempt, argv: copy_texts(&a.argv) }),
        Some(p) => p,
    };
    proof {
        lemma_last_match(facts@, EVENT_COMMAND_PROMPT, FactFilter::Requests(attempt), texts(a.argv@), facts@.len());
    }
    let prompt_index = facts[p].index;
    let d = match last_matching(facts, EVENT_COMMAND_DECISION, FactFilter::Follows(prompt_index), &a.argv) {
        None => return Ok(exchange(TERMINAL_SLOT, prompt_index, EVENT_COMMAND_DECISION)),
        Some(d) => d,
    };
    proof {
        lemma_last_match(facts@, EVENT_COMMAND_DECISION, FactFilter::Follows(prompt_index), texts(a.argv@), facts@.len());
    }
    let line = trimmed(facts[d].bytes.as_slice());
    if bytes_equal(line.as_slice(), "stop".as_bytes()) {
        return Ok(Action::AppendStopped(vstd::slice::slice_to_vec("Stopped by user.".as_bytes())));
    }
    if !bytes_equal(line.as_slice(), "approve".as_bytes()) {
        return Err(INVALID);
    }
    let st = match last_matching(facts, EVENT_COMMAND_STARTED, FactFilter::Requests(attempt), &a.argv) {
        None => return Ok(Action::AppendCommandRequest { event: EVENT_COMMAND_STARTED, attempt, argv: copy_texts(&a.argv) }),
        Some(st) => st,
    };
    proof {
        lemma_last_match(facts@, EVENT_COMMAND_STARTED, FactFilter::Requests(attempt), texts(a.argv@), facts@.len());
    }
    let started_index = facts[st].index;
    let res = match last_matching(facts, EVENT_COMMAND_RESULT, FactFilter::Follows(started_index), &a.argv) {
        None => return Ok(exchange(COMMAND_SLOT, started_index, EVENT_COMMAND_RESULT)),
        Some(res) => res,
    };
    proof {
        lemma_last_match(facts@, EVENT_COMMAND_RESULT, FactFilter::Follows(started_index), texts(a.argv@), facts@.len());
    }
    let request = CommandRequest { schema: 1, attempt, argv: copy_texts(&a.argv) };
    after_result(facts, a, cur, res, &request)
}

/// Returns the command step.
pub fn command_cycle(facts: &Vec<Fact>, a: &Admission, cur: &Vec<Generation>) -> (r: Result<Action, i32>)
    requires
        facts@.len() < usize::MAX,
        forall|k: int| 0 <= k < cur@.len() ==> #[trigger] cur@[k].proposal_index < usize::MAX,
    ensures
        match r {
            Ok(act) => spec_command_cycle(facts@, *a, cur@.map_values(|g: Generation| g@)) == Ok::<ActionView, i32>(act@),
            Err(c) => spec_command_cycle(facts@, *a, cur@.map_values(|g: Generation| g@)) == Err::<ActionView, i32>(c),
        },
{
    let ghost argv = texts(a.argv@);
    let res = match last_matching(facts, EVENT_COMMAND_RESULT, FactFilter::Any, &a.argv) {
        None => return new_attempt(facts, a, cur),
        Some(res) => res,
    };
    proof {
        lemma_last_match(facts@, EVENT_COMMAND_RESULT, FactFilter::Any, argv, facts@.len());
    }
    let result_index = facts[res].index;
    let is_derived = match first_matching(facts, EVENT_CONTINUATION_RESPONSE, FactFilter::After(result_index), &a.argv) {
        None => false,
        Some(r) => {
            proof {
                lemma_first_match(facts@, EVENT_CONTINUATION_RESPONSE, FactFilter::After(result_index), argv, 0);
            }
            let response_index = facts[r].index;
            let mut found = false;
            let mut k: usize = 0;
            while k < facts.len() && !found
                invariant
                    k <= facts@.len(),
                    found ==> exists|j: int| 0 <= j < facts@.len() && #[trigger] facts@[j].index > response_index
                        && (facts@[j].value == EVENT_GENERATION || facts@[j].value == EVENT_COMPLETE),
                    !found ==> forall|j: int| 0 <= j < k ==> !(#[trigger] facts@[j].index > response_index
                        && (facts@[j].value == EVENT_GENERATION || facts@[j].value == EVENT_COMPLETE)),
                decreases facts@.len() - k,
            {
                let f = &facts[k];
                if f.index > response_index && (f.value == EVENT_GENERATION || f.value == EVENT_COMPLETE) {
                    found = true;
                }
                k += 1;
            }
            found
        },
    };
    assert(is_derived == derived(facts@, argv, res as int));
    if is_derived {
        return new_attempt(facts, a, cur);
    }
    let st = match first_matching(facts, EVENT_COMMAND_STARTED, FactFilter::Precedes(result_index), &a.argv) {
        None => return Err(INVALID),
        Some(st) => st,
    };
    proof {
        lemma_first_match(facts@, EVENT_COMMAND_STARTED, FactFilter::Precedes(result_index), argv, 0);
    }
    match &facts[st].payload {
        Payload::CommandRequest(Some(request)) => after_result(facts, a, cur, res, request),
        _ => Err(INVALID),
    }
}

/// The operation of the generation held by the fact at position `p`.
pub open spec fn op_at(facts: Seq<Fact>, p: usize) -> Operation {
    spec_operation(fact_generation(facts[p as int]), facts[p as int].canonical@)
}

/// Among the first `n` current generations, the one with the lowest proposal
/// index whose operation no fact of code `event` carries yet.
pub open spec fn first_pending(facts: Seq<Fact>, argv: Seq<Seq<u8>>, ps: Seq<usize>, event: u64, n: nat) -> Option<int>
    decreases n,
{
    if n == 0 {
        None
    } else {
        let best = first_pending(facts, argv, ps, event, (n - 1) as nat);
        let k = n - 1;
        let pending = last_of(facts, event, FactFilter::Carries(op_at(facts, ps[k])), argv) is None;
        let lower = match best {
            Some(b) => fact_generation(facts[ps[k] as int]).proposal_index < fact_generation(facts[ps[b] as int]).proposal_index,
            None => true,
        };
        if pending && lower {
            Some(k)
        } else {
            best
        }
    }
}

/// A found generation is one of the current ones.
pub proof fn lemma_first_pending(facts: Seq<Fact>, argv: Seq<Seq<u8>>, ps: Seq<usize>, event: u64, n: nat)
    ensures
        first_pending(facts, argv, ps, event, n) matches Some(k) ==> 0 <= k < n,
    decreases n,
{
    if n > 0 {
        lemma_first_pending(facts, argv, ps, event, (n - 1) as nat);
    }
}

/// The step of an admitted session: create the first generation, complete
/// the initial proposals, review each generation not yet applied, promote
/// each applied one, then run and continue from the command.
pub open spec fn spec_with_admission(facts: Seq<Fact>, a: Admission) -> Result<ActionView, i32> {
    let argv = texts(a.argv@);
    match positions_upto(facts, a, facts.len()) {
        None => Err(INVALID),
        Some(ps) => {
            let cur = views_at(facts, ps);
            if ps.len() == 0 {
                spec_initial_generation(facts, a)
            } else {
                match spec_missing_initial(facts, a, cur) {
                    Err(c) => Err(c),
                    Ok(Some(g)) => Ok(ActionView::AppendGeneration(g)),
                    Ok(None) => match first_pending(facts, argv, ps, EVENT_CANDIDATE_APPLIED, ps.len()) {
                        Some(k) => spec_review(facts, a, cur[k], op_at(facts, ps[k])),
                        None => match first_pending(facts, argv, ps, EVENT_PROMOTED, ps.len()) {
                            Some(k) => spec_promote(facts, a, cur[k], op_at(facts, ps[k])),
                            None => spec_command_cycle(facts, a, sort_by_proposal(cur)),
                        },
                    },
                }
            }
        },
    }
}

/// The next step of a session from its committed facts: refused unless it
/// admits two to sixty-four sources and every response directly follows its
/// request; finished after completion; failed after a stop; admission first;
/// then the step of the admitted session.
pub open spec fn spec_orchestrate(facts: Seq<Fact>, source_count: usize) -> Result<ActionView, i32> {
    if source_count < 2 || source_count > 64 {
        Err(INVALID)
    } else if !(forall|i: int| 0 <= i < facts.len() ==> #[trigger] adjacency_ok(fact_values(facts), i)) {
        Err(INVALID)
    } else if facts.len() > 0 && facts.last().value == EVENT_COMPLETE {
        Ok(ActionView::Finished)
    } else if facts.len() > 0 && facts.last().value == EVENT_STOPPED {
        Err(FAILURE_STOP)
    } else if facts.len() == 0 {
        Ok(ActionView::Admit)
    } else if facts[0].value != EVENT_STARTED {
        Err(INVALID)
    } else {
        match facts[0].payload {
            Payload::Admission(Some(a)) => if !spec_admission_valid(a, source_count) {
                Err(INVALID)
            } else {
                spec_with_admission(facts, a)
            },
            _ => Err(INVALID),
        }
    }
}

/// The proposal indices that generation facts carry leave room for one more.
pub open spec fn proposal_indices_bounded(facts: Seq<Fact>) -> bool {
    forall|k: int| 0 <= k < facts.len() ==> (#[trigger] facts[k].payload matches Payload::Generation(Some(g))
        ==> g.proposal_index < usize::MAX)
}

/// Returns the pending generation with the lowest proposal index.
fn pending(facts: &Vec<Fact>, a: &Admission, ps: &Vec<usize>, event: u64) -> (r: Option<usize>)
    requires
        forall|j: int| 0 <= j < ps@.len() ==> #[trigger] holds_generation(facts@, ps@[j], facts@.len()),
    ensures
        match r {
            Some(k) => first_pending(facts@, texts(a.argv@), ps@, event, ps@.len()) == Some(k as int),
            None => first_pending(facts@, texts(a.argv@), ps@, event, ps@.len()) is None,
        },
{
    let ghost argv = texts(a.argv@);
    let mut best: Option<usize> = None;
    let mut best_index: usize = 0;
    let mut k: usize = 0;
    while k < ps.len()
        invariant
            k <= ps@.len(),
            argv == texts(a.argv@),
            forall|j: int| 0 <= j < ps@.len() ==> #[trigger] holds_generation(facts@, ps@[j], facts@.len()),
            match best {
                Some(b) => first_pending(facts@, argv, ps@, event, k as nat) == Some(b as int) && b < k
                    && best_index == fact_generation(facts@[ps@[b as int] as int]).proposal_index,
                None => first_pending(facts@, argv, ps@, event, k as nat) is None,
            },
        decreases ps@.len() - k,
    {
        assert(holds_generation(facts@, ps@[k as int], facts@.len()));
        let f = &facts[ps[k]];
        match &f.payload {
            Payload::Generation(Some(g)) => {
                assert(fact_generation(facts@[ps@[k as int] as int]) == g@);
                let op = operation(g, f.canonical.as_slice());
                assert(op == op_at(facts@, ps@[k as int]));
                let is_pending = last_matching(facts, event, FactFilter::Carries(op), &a.argv).is_none();
                let lower = match best {
                    Some(_) => g.proposal_index < best_index,
                    None => true,
                };
                proof {
                    assert(is_pending == (last_of(facts@, event, FactFilter::Carries(op_at(facts@, ps@[k as int])), argv) is None));
                    match best {
                        Some(b) => {
                            assert(lower == (fact_generation(facts@[ps@[k as int] as int]).proposal_index
                                < fact_generation(facts@[ps@[b as int] as int]).proposal_index));
                        },
                        None => {},
                    }
                }
                if is_pending && lower {
                    best = Some(k);
                    best_index = g.proposal_index;
                }
            },
            _ => {
                proof { assert(false); }
            },
        }
        k += 1;
    }
    best
}

/// Returns the step of a session with generations, once no initial
/// proposal is missing.
fn pending_step(facts: &Vec<Fact>, a: &Admission, ps: &Vec<usize>, cur: &Vec<Generation>) -> (r: Result<Action, i32>)
    requires
        facts@.len() < usize::MAX,
        forall|j: int| 0 <= j < ps@.len() ==> #[trigger] holds_generation(facts@, ps@[j], facts@.len()),
        generation_views(cur@) == views_at(facts@, ps@),
        forall|k: int| 0 <= k < cur@.len() ==> #[trigger] cur@[k].proposal_index < usize::MAX,
    ensures
        match r {
            Ok(act) => (match first_pending(facts@, texts(a.argv@), ps@, EVENT_CANDIDATE_APPLIED, ps@.len()) {
                Some(k) => spec_review(facts@, *a, views_at(facts@, ps@)[k], op_at(facts@, ps@[k])),
                None => match first_pending(facts@, texts(a.argv@), ps@, EVENT_PROMOTED, ps@.len()) {
                    Some(k) => spec_promote(facts@, *a, views_at(facts@, ps@)[k], op_at(facts@, ps@[k])),
                    None => spec_command_cycle(facts@, *a, sort_by_proposal(views_at(facts@, ps@))),
                },
            }) == Ok::<ActionView, i32>(act@),
            Err(c) => (match first_pending(facts@, texts(a.argv@), ps@, EVENT_CANDIDATE_APPLIED, ps@.len()) {
                Some(k) => spec_review(facts@, *a, views_at(facts@, ps@)[k], op_at(facts@, ps@[k])),
                None => match first_pending(facts@, texts(a.argv@), ps@, EVENT_PROMOTED, ps@.len()) {
                    Some(k) => spec_promote(facts@, *a, views_at(facts@, ps@)[k], op_at(facts@, ps@[k])),
                    None => spec_command_cycle(facts@, *a, sort_by_proposal(views_at(facts@, ps@))),
                },
            }) == Err::<ActionView, i32>(c),
        },
{
    if let Some(k) = pending(facts, a, ps, EVENT_CANDIDATE_APPLIED) {
        proof { lemma_first_pending(facts@, texts(a.argv@), ps@, EVENT_CANDIDATE_APPLIED, ps@.len()); }
        assert(holds_generation(facts@, ps@[k as int], facts@.len()));
        let f = &facts[ps[k]];
        assert(generation_views(cur@)[k as int] == views_at(facts@, ps@)[k as int]);
        let op = operation(&cur[k], f.canonical.as_slice());
        return review_generation(facts, a, &cur[k], op);
    }
    if let Some(k) = pending(facts, a, ps, EVENT_PROMOTED) {
        proof { lemma_first_pending(facts@, texts(a.argv@), ps@, EVENT_PROMOTED, ps@.len()); }
        assert(holds_generation(facts@, ps@[k as int], facts@.len()));
        let f = &facts[ps[k]];
        assert(generation_views(cur@)[k as int] == views_at(facts@, ps@)[k as int]);
        let op = operation(&cur[k], f.canonical.as_slice());
        return promote_generation(facts, a, &cur[k], op);
    }
    let sorted = sorted_by_proposal(cur);
    proof {
        assert(cur@.map_values(|g: Generation| g@) == generation_views(cur@));
        lemma_sort_bounded(generation_views(cur@), usize::MAX as nat);
        let sv = sorted@.map_values(|g: Generation| g@);
        assert(sv == sort_by_proposal(generation_views(cur@)));
        assert(sv.len() == sorted@.len());
        assert forall|k: int| 0 <= k < sorted@.len() implies #[trigger] sorted@[k].proposal_index < usize::MAX by {
            assert(sv[k] == sorted@[k]@);
            assert(sort_by_proposal(generation_views(cur@))[k].proposal_index < usize::MAX);
        }
    }
    command_cycle(facts, a, &sorted)
}

/// Returns the step of an admitted session.
fn with_admission(facts: &Vec<Fact>, a: &Admission) -> (r: Result<Action, i32>)
    requires
        facts@.len() < usize::MAX,
        proposal_indices_bounded(facts@),
    ensures
        match r {
            Ok(act) => spec_with_admission(facts@, *a) == Ok::<ActionView, i32>(act@),
            Err(c) => spec_with_admission(facts@, *a) == Err::<ActionView, i32>(c),
        },
{
    let ps = current_positions(facts, a)?;
    if ps.len() == 0 {
        return initial_generation(facts, a);
    }
    let cur = generations_at(facts, &ps);
    assert(cur@.map_values(|g: Generation| g@) == generation_views(cur@));
    proof {
        assert forall|k: int| 0 <= k < cur@.len() implies #[trigger] cur@[k].proposal_index < usize::MAX by {
            assert(holds_generation(facts@, ps@[k], facts@.len()));
            assert(generation_views(cur@)[k] == views_at(facts@, ps@)[k]);
        }
    }
    match missing_initial_generation(facts, a, &cur)? {
        Some(g) => Ok(Action::AppendGeneration(g)),
        None => pending_step(facts, a, &ps, &cur),
    }
}

/// Accepts a task of 2 through 64 source files; refuses any other count as
/// invalid, before anything is read.
pub fn check_source_count(source_count: usize) -> (r: Result<(), i32>)
    ensures
        r is Ok <==> 2 <= source_count <= 64,
        r matches Err(c) ==> c == INVALID,
{
    if source_count < 2 || source_count > 64 {
        return Err(INVALID);
    }
    Ok(())
}

/// Returns the next step of a session from its committed facts.
pub fn orchestrate_inner(facts: &Vec<Fact>, source_count: usize) -> (r: Result<Action, i32>)
    requires
        facts@.len() < usize::MAX,
        proposal_indices_bounded(facts@),
    ensures
        match r {
            Ok(act) => spec_orchestrate(facts@, source_count) == Ok::<ActionView, i32>(act@),
            Err(c) => spec_orchestrate(facts@, source_count) == Err::<ActionView, i32>(c),
        },
{
    check_source_count(source_count)?;
    validate_external_adjacency(facts)?;
    if facts.len() > 0 {
        let last = facts[facts.len() - 1].value;
        if last == EVENT_COMPLETE {
            return Ok(Action::Finished);
        }
        if last == EVENT_STOPPED {
            return Err(FAILURE_STOP);
        }
    }
    if facts.len() == 0 {
        return Ok(Action::Admit);
    }
    if facts[0].value != EVENT_STARTED {
        return Err(INVALID);
    }
    let a = match &facts[0].payload {
        Payload::Admission(Some(a)) => a,
        _ => return Err(INVALID),
    };
    validate_admission(a, source_count)?;
    with_admission(facts, a)
}

/// A generation the first-pending search passes over is not pending: once
/// the search finds none, every generation carries the record `event`.
pub proof fn lemma_none_pending(facts: Seq<Fact>, argv: Seq<Seq<u8>>, ps: Seq<usize>, event: u64, n: nat)
    requires
        first_pending(facts, argv, ps, event, n) is None,
    ensures
        forall|k: int| 0 <= k < n ==> #[trigger] last_of(facts, event, FactFilter::Carries(op_at(facts, ps[k])), argv) is Some,
    decreases n,
{
    if n > 0 {
        lemma_none_pending(facts, argv, ps, event, (n - 1) as nat);
    }
}

/// A completed session is finished: stepping it again asks for nothing
/// more, neither of the model, the user, the command, nor the workspaces.
pub proof fn lemma_completed_session_is_finished(facts: Seq<Fact>, source_count: usize)
    requires
        2 <= source_count <= 64,
        forall|i: int| 0 <= i < facts.len() ==> #[trigger] adjacency_ok(fact_values(facts), i),
        facts.len() > 0,
        facts.last().value == EVENT_COMPLETE,
    ensures
        spec_orchestrate(facts, source_count) == Ok::<ActionView, i32>(ActionView::Finished),
{
}

/// A stopped session stays stopped: stepping it again fails with the stop
/// category and repeats nothing.
pub proof fn lemma_stopped_session_stays_stopped(facts: Seq<Fact>, source_count: usize)
    requires
        2 <= source_count <= 64,
        forall|i: int| 0 <= i < facts.len() ==> #[trigger] adjacency_ok(fact_values(facts), i),
        facts.len() > 0,
        facts.last().value == EVENT_STOPPED,
    ensures
        spec_orchestrate(facts, source_count) == Err::<ActionView, i32>(FAILURE_STOP),
        crate::task::spec_terminal_failure(FAILURE_STOP) == FAILURE_STOP,
{
}

/// The command is asked for only once every current generation has been
/// applied to its workspace and promoted.
pub proof fn lemma_command_after_promotion(facts: Seq<Fact>, source_count: usize)
    requires
        spec_orchestrate(facts, source_count) matches Ok(ActionView::AppendCommandRequest { .. }),
    ensures
        facts.len() > 0,
        facts[0].payload matches Payload::Admission(Some(a)) && (positions_upto(facts, a, facts.len()) matches Some(ps)
            && ps.len() > 0
            && forall|k: int| 0 <= k < ps.len() ==> {
                &&& #[trigger] last_of(facts, EVENT_CANDIDATE_APPLIED, FactFilter::Carries(op_at(facts, ps[k])), texts(a.argv@)) is Some
                &&& last_of(facts, EVENT_PROMOTED, FactFilter::Carries(op_at(facts, ps[k])), texts(a.argv@)) is Some
            }),
{
    let a = facts[0].payload->Admission_0->0;
    let argv = texts(a.argv@);
    let ps = positions_upto(facts, a, facts.len())->0;
    assert(first_pending(facts, argv, ps, EVENT_CANDIDATE_APPLIED, ps.len()) is None);
    assert(first_pending(facts, argv, ps, EVENT_PROMOTED, ps.len()) is None);
    lemma_none_pending(facts, argv, ps, EVENT_CANDIDATE_APPLIED, ps.len());
    lemma_none_pending(facts, argv, ps, EVENT_PROMOTED, ps.len());
}

} // verus!
