//! The repository-task orchestrator: the admission rules for each durable
//! fact of a task session, given the facts already committed.

use vstd::prelude::*;
use vstd::string::StringSliceAdditionalSpecFns;
use vstd::utf8::*;
use crate::composition::{bytes_equal, has_prefix};
use crate::digest::{sha256_hex, spec_sha256_hex, spec_valid_sha256, valid_sha256};
use crate::json::{
    array_field, as_array, get, is_exact_object, parse_json, parsed_json, spec_as_array, spec_as_i64,
    spec_exact_object, spec_get, spec_str_field, spec_usize_field, str_field, usize_field,
    Json, as_i64, deref_json, json_well_formed, as_str, spec_as_str,
};
use crate::text::{
    blank, canonical_decimal, char_boundary, find_newline, first_newline, is_blank,
    is_canonical_decimal, parse_usize, spec_parse_usize, splice, splice_bytes,
};
use vstd::slice::slice_subrange;

verus! {

broadcast use vstd::utf8::group_utf8_lib;

/// Status of a fact that is not well-formed input.
pub const INVALID: i32 = 2;
/// Status of a fact that the session rules refuse.
pub const DENIED: i32 = 7;
/// The largest fact, in bytes.
pub const MAX_FACT_BYTES: u64 = 524288;

/// Which model request a model fact belongs to.
#[derive(Clone, Copy, Debug, PartialEq, Eq, Structural)]
pub enum ModelTurn {
    Initial,
    Revision { proposal_index: usize, revision: u32 },
    Continuation { sequence: u32 },
}

/// One durable fact of a task session.
#[derive(Clone, Debug, PartialEq, Eq)]
pub enum SessionFact {
    ModelStarted { turn: ModelTurn, model: String, prompt_sha256: String, prompt: String },
    ModelCompleted {
        turn: ModelTurn,
        prompt_sha256: String,
        response_sha256: String,
        response: String,
        provenance: String,
    },
    ProposalRejected {
        proposal_index: usize,
        revision: u32,
        candidate_sha256: String,
        model: String,
        feedback: String,
    },
    ProposalApproved { proposal_index: usize, revision: u32, candidate_sha256: String },
    PromotionStarted {
        proposal_index: usize,
        revision: u32,
        candidate_sha256: String,
        operation: u64,
    },
    ProposalPromoted {
        proposal_index: usize,
        revision: u32,
        candidate_sha256: String,
        operation: u64,
    },
    CommandStarted { attempt: u64, payload_sha256: String, payload: String },
    CommandFinished { attempt: u64, start_sha256: String, payload_sha256: String, payload: String },
    TaskCompleted {
        sequence: u32,
        prompt_sha256: String,
        response_sha256: String,
        response: String,
        provenance: String,
    },
}

/// The UTF-8 bytes of a string.
pub open spec fn utf8_of(s: String) -> Seq<u8> {
    encode_utf8(s@)
}

/// The event code under which a fact is committed.
pub open spec fn spec_fact_code(fact: SessionFact) -> u64 {
    match fact {
        SessionFact::ModelStarted { .. } => 1,
        SessionFact::ModelCompleted { .. } => 2,
        SessionFact::ProposalRejected { .. } => 3,
        SessionFact::ProposalApproved { .. } => 4,
        SessionFact::PromotionStarted { .. } => 5,
        SessionFact::ProposalPromoted { .. } => 6,
        SessionFact::CommandStarted { .. } => 7,
        SessionFact::CommandFinished { .. } => 8,
        SessionFact::TaskCompleted { .. } => 9,
    }
}

/// Returns the event code under which `fact` is committed.
pub fn fact_code(fact: &SessionFact) -> (r: u64)
    ensures
        r == spec_fact_code(*fact),
{
    match fact {
        SessionFact::ModelStarted { .. } => 1,
        SessionFact::ModelCompleted { .. } => 2,
        SessionFact::ProposalRejected { .. } => 3,
        SessionFact::ProposalApproved { .. } => 4,
        SessionFact::PromotionStarted { .. } => 5,
        SessionFact::ProposalPromoted { .. } => 6,
        SessionFact::CommandStarted { .. } => 7,
        SessionFact::CommandFinished { .. } => 8,
        SessionFact::TaskCompleted { .. } => 9,
    }
}

/// The session's transition relation on event codes; code 0 stands for the
/// empty session.
pub open spec fn spec_allowed(previous: u64, next: u64) -> bool {
    ||| previous == 0 && next == 1
    ||| previous == 1 && (next == 2 || next == 9)
    ||| previous == 2 && (next == 3 || next == 4)
    ||| previous == 3 && next == 1
    ||| previous == 4 && next == 5
    ||| previous == 5 && next == 6
    ||| previous == 6 && (next == 4 || next == 7)
    ||| previous == 7 && next == 8
    ||| previous == 8 && next == 1
}

/// The session's transitions are exactly these pairs of codes (0 for the
/// empty session, then model start 1, model completion 2, rejection 3,
/// approval 4, promotion start 5, promotion 6, command start 7, command
/// finish 8, task completion 9): a model start opens the session and
/// follows a rejection or a finished command; a completion or the task's
/// completion follows a model start; a rejection or an approval follows a
/// completion; a promotion starts after an approval and ends it; after a
/// promotion comes another approval or a command start; and a command
/// finishes after it starts.
pub proof fn lemma_transition_table(previous: u64, next: u64)
    ensures
        spec_allowed(previous, next) <==> {
            ||| (previous == 0 && next == 1)
            ||| (previous == 1 && next == 2)
            ||| (previous == 1 && next == 9)
            ||| (previous == 2 && next == 3)
            ||| (previous == 2 && next == 4)
            ||| (previous == 3 && next == 1)
            ||| (previous == 4 && next == 5)
            ||| (previous == 5 && next == 6)
            ||| (previous == 6 && next == 4)
            ||| (previous == 6 && next == 7)
            ||| (previous == 7 && next == 8)
            ||| (previous == 8 && next == 1)
        },
{
}

/// A command may start right after a promotion, and nothing else but a
/// further approval may.
pub proof fn lemma_command_follows_promotion(next: u64)
    ensures
        spec_allowed(6, 7),
        spec_allowed(6, next) <==> (next == 4 || next == 7),
{
}

/// Returns whether a fact with code `next` may follow one with code `previous`.
pub fn allowed(previous: u64, next: u64) -> (r: bool)
    ensures
        r == spec_allowed(previous, next),
{
    (previous == 0 && next == 1) || (previous == 1 && (next == 2 || next == 9)) || (previous == 2
        && (next == 3 || next == 4)) || (previous == 3 && next == 1) || (previous == 4 && next
        == 5) || (previous == 5 && next == 6) || (previous == 6 && (next == 4 || next == 7)) || (
    previous == 7 && next == 8) || (previous == 8 && next == 1)
}

/// Whether `digest` is the lowercase SHA-256 of `text`.
pub open spec fn digest_of(text: String, digest: String) -> bool {
    spec_sha256_hex(utf8_of(text)) == utf8_of(digest)
}

/// Returns whether `digest` is the lowercase SHA-256 of `text`.
pub fn digest_matches(text: &String, digest: &String) -> (r: bool)
    ensures
        r == digest_of(*text, *digest),
{
    let computed = sha256_hex(text.as_str().as_bytes());
    bytes_equal(computed.as_slice(), digest.as_str().as_bytes())
}

/// How many model requests of the continuation kind a history holds.
pub open spec fn continuation_starts(history: Seq<SessionFact>) -> nat
    decreases history.len(),
{
    if history.len() == 0 {
        0
    } else {
        continuation_starts(history.drop_last()) + match history.last() {
            SessionFact::ModelStarted { turn: ModelTurn::Continuation { .. }, .. } => 1nat,
            _ => 0nat,
        }
    }
}

/// How many commands a history has started.
pub open spec fn command_starts(history: Seq<SessionFact>) -> nat
    decreases history.len(),
{
    if history.len() == 0 {
        0
    } else {
        command_starts(history.drop_last()) + match history.last() {
            SessionFact::CommandStarted { .. } => 1nat,
            _ => 0nat,
        }
    }
}

/// Counting facts of one kind never exceeds the number of facts.
pub proof fn lemma_counts_bounded(history: Seq<SessionFact>)
    ensures
        continuation_starts(history) <= history.len(),
        command_starts(history) <= history.len(),
    decreases history.len(),
{
    if history.len() > 0 {
        lemma_counts_bounded(history.drop_last());
    }
}

/// When a model request may start.
pub open spec fn spec_model_start(turn: ModelTurn, model: String, history: Seq<SessionFact>) -> Result<(), i32> {
    match turn {
        ModelTurn::Initial => if history.len() == 0 { Ok(()) } else { Err(DENIED) },
        ModelTurn::Revision { proposal_index, revision } => {
            if history.len() > 0 && (history.last() matches SessionFact::ProposalRejected {
                proposal_index: rejected_index,
                revision: rejected_revision,
                model: rejected_model,
                ..
            } && proposal_index == rejected_index
                && revision as int == (if rejected_revision == u32::MAX { u32::MAX as int } else { rejected_revision + 1 })
                && model@ == rejected_model@) {
                Ok(())
            } else {
                Err(DENIED)
            }
        },
        ModelTurn::Continuation { sequence } => {
            if sequence == continuation_starts(history) + 1 && history.len() > 0
                && history.last() is CommandFinished {
                Ok(())
            } else {
                Err(DENIED)
            }
        },
    }
}

/// A model request starts only where the session calls for it: the initial
/// request opens an empty session and only that; a revision follows the
/// rejection of the same proposal by the same model and is its next
/// revision; the n-th continuation follows a finished command after n - 1
/// earlier continuations.
pub proof fn lemma_model_start_placement(turn: ModelTurn, model: String, history: Seq<SessionFact>)
    ensures
        (turn == ModelTurn::Initial) ==> (spec_model_start(turn, model, history) is Ok <==> history.len() == 0),
        spec_model_start(turn, model, history) is Ok ==> match turn {
            ModelTurn::Initial => history.len() == 0,
            ModelTurn::Revision { proposal_index, revision } => history.len() > 0
                && (history.last() matches SessionFact::ProposalRejected { proposal_index: i, revision: r, model: m, .. }
                    && i == proposal_index && m@ == model@ && (r < u32::MAX ==> revision == r + 1)),
            ModelTurn::Continuation { sequence } => history.len() > 0 && history.last() is CommandFinished
                && sequence == continuation_starts(history) + 1,
        },
        history.len() > 0 && history.last() is CommandFinished
            && turn == (ModelTurn::Continuation { sequence: (continuation_starts(history) + 1) as u32 })
            && continuation_starts(history) + 1 <= u32::MAX
            ==> spec_model_start(turn, model, history) is Ok,
{
}

/// Admits the start of a model request: an initial request only on an empty
/// session, a revision only right after that proposal's rejection by the same
/// model, and continuation number n only right after a command finished and
/// after n - 1 earlier continuations.
pub fn validate_model_start(turn: &ModelTurn, model: &String, history: &[SessionFact]) -> (r: Result<(), i32>)
    requires
        history@.len() < u32::MAX,
    ensures
        r == spec_model_start(*turn, *model, history@),
{
    match turn {
        ModelTurn::Initial => if history.len() == 0 { Ok(()) } else { Err(DENIED) },
        ModelTurn::Revision { proposal_index, revision } => {
            if history.len() == 0 {
                return Err(DENIED);
            }
            match &history[history.len() - 1] {
                SessionFact::ProposalRejected {
                    proposal_index: rejected_index,
                    revision: rejected_revision,
                    model: rejected_model,
                    ..
                } => {
                    if *proposal_index == *rejected_index
                        && *revision == rejected_revision.saturating_add(1)
                        && *model == *rejected_model {
                        Ok(())
                    } else {
                        Err(DENIED)
                    }
                },
                _ => Err(DENIED),
            }
        },
        ModelTurn::Continuation { sequence } => {
            let mut count: u64 = 0;
            let mut i: usize = 0;
            while i < history.len()
                invariant
                    i <= history@.len() < u32::MAX,
                    count as nat == continuation_starts(history@.take(i as int)),
                decreases history@.len() - i,
            {
                proof {
                    assert(history@.take(i + 1).drop_last() == history@.take(i as int));
                    lemma_counts_bounded(history@.take(i as int));
                }
                if let SessionFact::ModelStarted { turn: ModelTurn::Continuation { .. }, .. } = &history[i] {
                    count = count + 1;
                }
                i += 1;
            }
            assert(history@.take(history@.len() as int) == history@);
            proof {
                lemma_counts_bounded(history@);
            }
            if history.len() > 0 && (*sequence as u64) == count + 1 && matches!(history[history.len() - 1], SessionFact::CommandFinished { .. }) {
                Ok(())
            } else {
                Err(DENIED)
            }
        },
    }
}


/// The keys of a ranged edit that names its file.
pub open spec fn edit_keys() -> Seq<Seq<u8>> {
    seq![
        "path".spec_bytes(),
        "source_sha256".spec_bytes(),
        "byte_start".spec_bytes(),
        "byte_end".spec_bytes(),
        "replacement".spec_bytes(),
        "result_sha256".spec_bytes(),
    ]
}

/// The keys of a ranged edit that names its file.
fn edit_keys_list() -> (r: Vec<&'static [u8]>)
    ensures
        r@.map_values(|k: &[u8]| k@) == edit_keys(),
{
    let r = vec![
        "path".as_bytes(),
        "source_sha256".as_bytes(),
        "byte_start".as_bytes(),
        "byte_end".as_bytes(),
        "replacement".as_bytes(),
        "result_sha256".as_bytes(),
    ];
    assert(r@.map_values(|k: &[u8]| k@) =~= edit_keys());
    r
}

/// The keys of a ranged edit of an indexed source.
pub open spec fn bare_edit_keys() -> Seq<Seq<u8>> {
    seq![
        "source_sha256".spec_bytes(),
        "byte_start".spec_bytes(),
        "byte_end".spec_bytes(),
        "replacement".spec_bytes(),
        "result_sha256".spec_bytes(),
    ]
}

/// The keys of a ranged edit of an indexed source.
fn bare_edit_keys_list() -> (r: Vec<&'static [u8]>)
    ensures
        r@.map_values(|k: &[u8]| k@) == bare_edit_keys(),
{
    let r = vec![
        "source_sha256".as_bytes(),
        "byte_start".as_bytes(),
        "byte_end".as_bytes(),
        "replacement".as_bytes(),
        "result_sha256".as_bytes(),
    ];
    assert(r@.map_values(|k: &[u8]| k@) =~= bare_edit_keys());
    r
}

/// The keys of an admitted file in a prompt.
pub open spec fn file_keys() -> Seq<Seq<u8>> {
    seq![
        "path".spec_bytes(),
        "before_sha256".spec_bytes(),
        "content".spec_bytes(),
    ]
}

/// The keys of an admitted file in a prompt.
fn file_keys_list() -> (r: Vec<&'static [u8]>)
    ensures
        r@.map_values(|k: &[u8]| k@) == file_keys(),
{
    let r = vec![
        "path".as_bytes(),
        "before_sha256".as_bytes(),
        "content".as_bytes(),
    ];
    assert(r@.map_values(|k: &[u8]| k@) =~= file_keys());
    r
}

/// The keys of an initial prompt.
pub open spec fn initial_prompt_keys() -> Seq<Seq<u8>> {
    seq![
        "schema".spec_bytes(),
        "instructions".spec_bytes(),
        "task".spec_bytes(),
        "files".spec_bytes(),
        "required_response".spec_bytes(),
    ]
}

/// The keys of an initial prompt.
fn initial_prompt_keys_list() -> (r: Vec<&'static [u8]>)
    ensures
        r@.map_values(|k: &[u8]| k@) == initial_prompt_keys(),
{
    let r = vec![
        "schema".as_bytes(),
        "instructions".as_bytes(),
        "task".as_bytes(),
        "files".as_bytes(),
        "required_response".as_bytes(),
    ];
    assert(r@.map_values(|k: &[u8]| k@) =~= initial_prompt_keys());
    r
}

/// The keys of an initial response.
pub open spec fn proposals_keys() -> Seq<Seq<u8>> {
    seq![
        "proposals".spec_bytes(),
    ]
}

/// The keys of an initial response.
fn proposals_keys_list() -> (r: Vec<&'static [u8]>)
    ensures
        r@.map_values(|k: &[u8]| k@) == proposals_keys(),
{
    let r = vec![
        "proposals".as_bytes(),
    ];
    assert(r@.map_values(|k: &[u8]| k@) =~= proposals_keys());
    r
}

/// The keys of a revision prompt.
pub open spec fn revision_prompt_keys() -> Seq<Seq<u8>> {
    seq![
        "schema".spec_bytes(),
        "instructions".spec_bytes(),
        "model".spec_bytes(),
        "admission".spec_bytes(),
        "rejection".spec_bytes(),
        "required_response".spec_bytes(),
    ]
}

/// The keys of a revision prompt.
fn revision_prompt_keys_list() -> (r: Vec<&'static [u8]>)
    ensures
        r@.map_values(|k: &[u8]| k@) == revision_prompt_keys(),
{
    let r = vec![
        "schema".as_bytes(),
        "instructions".as_bytes(),
        "model".as_bytes(),
        "admission".as_bytes(),
        "rejection".as_bytes(),
        "required_response".as_bytes(),
    ];
    assert(r@.map_values(|k: &[u8]| k@) =~= revision_prompt_keys());
    r
}

/// The keys of the admission inside a revision prompt.
pub open spec fn admission_keys() -> Seq<Seq<u8>> {
    seq![
        "prompt_sha256".spec_bytes(),
        "task".spec_bytes(),
        "files".spec_bytes(),
    ]
}

/// The keys of the admission inside a revision prompt.
fn admission_keys_list() -> (r: Vec<&'static [u8]>)
    ensures
        r@.map_values(|k: &[u8]| k@) == admission_keys(),
{
    let r = vec![
        "prompt_sha256".as_bytes(),
        "task".as_bytes(),
        "files".as_bytes(),
    ];
    assert(r@.map_values(|k: &[u8]| k@) =~= admission_keys());
    r
}

/// The keys of the rejection inside a revision prompt.
pub open spec fn rejection_keys() -> Seq<Seq<u8>> {
    seq![
        "proposal_index".spec_bytes(),
        "path".spec_bytes(),
        "source_sha256".spec_bytes(),
        "byte_start".spec_bytes(),
        "byte_end".spec_bytes(),
        "prior_replacement".spec_bytes(),
        "prior_result_sha256".spec_bytes(),
        "feedback".spec_bytes(),
    ]
}

/// The keys of the rejection inside a revision prompt.
fn rejection_keys_list() -> (r: Vec<&'static [u8]>)
    ensures
        r@.map_values(|k: &[u8]| k@) == rejection_keys(),
{
    let r = vec![
        "proposal_index".as_bytes(),
        "path".as_bytes(),
        "source_sha256".as_bytes(),
        "byte_start".as_bytes(),
        "byte_end".as_bytes(),
        "prior_replacement".as_bytes(),
        "prior_result_sha256".as_bytes(),
        "feedback".as_bytes(),
    ];
    assert(r@.map_values(|k: &[u8]| k@) =~= rejection_keys());
    r
}

/// The keys of a revision response.
pub open spec fn proposal_keys() -> Seq<Seq<u8>> {
    seq![
        "proposal".spec_bytes(),
    ]
}

/// The keys of a revision response.
fn proposal_keys_list() -> (r: Vec<&'static [u8]>)
    ensures
        r@.map_values(|k: &[u8]| k@) == proposal_keys(),
{
    let r = vec![
        "proposal".as_bytes(),
    ];
    assert(r@.map_values(|k: &[u8]| k@) =~= proposal_keys());
    r
}

/// The keys of a continuation prompt.
pub open spec fn continuation_prompt_keys() -> Seq<Seq<u8>> {
    seq![
        "schema".spec_bytes(),
        "instructions".spec_bytes(),
        "model".spec_bytes(),
        "task".spec_bytes(),
        "admitted_sources".spec_bytes(),
        "current_proposals".spec_bytes(),
        "command_finished".spec_bytes(),
        "required_response".spec_bytes(),
    ]
}

/// The keys of a continuation prompt.
fn continuation_prompt_keys_list() -> (r: Vec<&'static [u8]>)
    ensures
        r@.map_values(|k: &[u8]| k@) == continuation_prompt_keys(),
{
    let r = vec![
        "schema".as_bytes(),
        "instructions".as_bytes(),
        "model".as_bytes(),
        "task".as_bytes(),
        "admitted_sources".as_bytes(),
        "current_proposals".as_bytes(),
        "command_finished".as_bytes(),
        "required_response".as_bytes(),
    ];
    assert(r@.map_values(|k: &[u8]| k@) =~= continuation_prompt_keys());
    r
}

/// The keys of an admitted source in a continuation prompt.
pub open spec fn source_keys() -> Seq<Seq<u8>> {
    seq![
        "admitted_path_index".spec_bytes(),
        "path".spec_bytes(),
        "sha256".spec_bytes(),
        "content".spec_bytes(),
    ]
}

/// The keys of an admitted source in a continuation prompt.
fn source_keys_list() -> (r: Vec<&'static [u8]>)
    ensures
        r@.map_values(|k: &[u8]| k@) == source_keys(),
{
    let r = vec![
        "admitted_path_index".as_bytes(),
        "path".as_bytes(),
        "sha256".as_bytes(),
        "content".as_bytes(),
    ];
    assert(r@.map_values(|k: &[u8]| k@) =~= source_keys());
    r
}

/// The status an exact-object check yields: invalid for a non-object,
/// denied for an object with other keys.
pub open spec fn exact_code(j: Json, keys: Seq<Seq<u8>>) -> Option<i32> {
    if !(j is Object) {
        Some(INVALID)
    } else if !spec_exact_object(j, keys) {
        Some(DENIED)
    } else {
        None
    }
}

/// Returns the status of an exact-object check.
fn exact_check(j: &Json, keys: &[&[u8]]) -> (r: Option<i32>)
    requires
        json_well_formed(*j),
    ensures
        r == exact_code(*j, keys@.map_values(|k: &[u8]| k@)),
{
    if !matches!(j, Json::Object(_)) {
        return Some(INVALID);
    }
    if !is_exact_object(j, keys) {
        return Some(DENIED);
    }
    None
}

/// When a ranged edit of `source` is admitted: the source digest is the
/// stated one, the byte range lies on character boundaries, and the stated
/// result digest is that of the changed, non-empty result.
pub open spec fn spec_edit_bytes(edit: Json, source: Seq<u8>, source_sha256: Seq<u8>) -> Result<(), i32> {
    if !spec_valid_sha256(source_sha256) || spec_sha256_hex(source) != source_sha256 {
        Err(DENIED)
    } else {
        match spec_str_field(edit, "source_sha256".spec_bytes()) {
            None => Err(INVALID),
            Some(stated) => if stated != source_sha256 {
                Err(DENIED)
            } else {
                match spec_usize_field(edit, "byte_start".spec_bytes()) {
                    None => Err(INVALID),
                    Some(start) => match spec_usize_field(edit, "byte_end".spec_bytes()) {
                        None => Err(INVALID),
                        Some(end) => if start > end || end > source.len()
                            || !is_char_boundary(source, start as int)
                            || !is_char_boundary(source, end as int) {
                            Err(DENIED)
                        } else {
                            match spec_str_field(edit, "replacement".spec_bytes()) {
                                None => Err(INVALID),
                                Some(replacement) => {
                                    let result = splice(source, start as int, end as int, replacement);
                                    match spec_str_field(edit, "result_sha256".spec_bytes()) {
                                        None => Err(INVALID),
                                        Some(stated_result) => if result.len() == 0 || result == source
                                            || !spec_valid_sha256(stated_result)
                                            || spec_sha256_hex(result) != stated_result {
                                            Err(DENIED)
                                        } else {
                                            Ok(())
                                        },
                                    }
                                },
                            }
                        },
                    },
                }
            },
        }
    }
}

/// Checks a ranged edit of `source`.
pub fn validate_edit_bytes(edit: &Json, source: &[u8], source_sha256: &[u8]) -> (r: Result<(), i32>)
    requires
        json_well_formed(*edit),
        valid_utf8(source@),
    ensures
        r == spec_edit_bytes(*edit, source@, source_sha256@),
{
    if !valid_sha256(source_sha256) || !bytes_equal(sha256_hex(source).as_slice(), source_sha256) {
        return Err(DENIED);
    }
    let stated = match str_field(edit, "source_sha256".as_bytes()) {
        Some(s) => s,
        None => return Err(INVALID),
    };
    if !bytes_equal(stated, source_sha256) {
        return Err(DENIED);
    }
    let start = match usize_field(edit, "byte_start".as_bytes()) {
        Some(v) => v,
        None => return Err(INVALID),
    };
    let end = match usize_field(edit, "byte_end".as_bytes()) {
        Some(v) => v,
        None => return Err(INVALID),
    };
    if start > end || end > source.len() || !char_boundary(source, start) || !char_boundary(source, end) {
        return Err(DENIED);
    }
    let replacement = match str_field(edit, "replacement".as_bytes()) {
        Some(s) => s,
        None => return Err(INVALID),
    };
    let result = splice_bytes(source, start, end, replacement);
    let stated_result = match str_field(edit, "result_sha256".as_bytes()) {
        Some(s) => s,
        None => return Err(INVALID),
    };
    if result.len() == 0 || bytes_equal(result.as_slice(), source) || !valid_sha256(stated_result)
        || !bytes_equal(sha256_hex(result.as_slice()).as_slice(), stated_result) {
        return Err(DENIED);
    }
    Ok(())
}

/// When a ranged edit of an admitted file from a prompt is admitted.
pub open spec fn spec_ranged_edit(edit: Json, file: Json) -> Result<(), i32> {
    match spec_str_field(file, "content".spec_bytes()) {
        None => Err(INVALID),
        Some(content) => match spec_str_field(file, "before_sha256".spec_bytes()) {
            None => Err(INVALID),
            Some(sha) => spec_edit_bytes(edit, content, sha),
        },
    }
}

/// Checks a ranged edit of an admitted file from a prompt.
pub fn validate_ranged_edit(edit: &Json, file: &Json) -> (r: Result<(), i32>)
    requires
        json_well_formed(*edit),
        json_well_formed(*file),
    ensures
        r == spec_ranged_edit(*edit, *file),
{
    let content = match str_field(file, "content".as_bytes()) {
        Some(s) => s,
        None => return Err(INVALID),
    };
    let sha = match str_field(file, "before_sha256".as_bytes()) {
        Some(s) => s,
        None => return Err(INVALID),
    };
    validate_edit_bytes(edit, content, sha)
}


/// The first file among `files[start..]` whose `path` is `path`.
pub open spec fn find_file(files: Seq<Json>, path: Seq<u8>, start: nat) -> Option<Json>
    decreases files.len() - start,
{
    if start >= files.len() {
        None
    } else if spec_str_field(files[start as int], "path".spec_bytes()) == Some(path) {
        Some(files[start as int])
    } else {
        find_file(files, path, start + 1)
    }
}

/// Returns the first file whose `path` is `path`.
fn file_with_path<'a>(files: &'a Vec<Json>, path: &[u8]) -> (r: Option<&'a Json>)
    requires
        forall|i: int| 0 <= i < files@.len() ==> json_well_formed(#[trigger] files@[i]),
    ensures
        deref_json(r) == find_file(files@, path@, 0),
        r matches Some(f) ==> json_well_formed(*f),
{
    let mut i: usize = 0;
    while i < files.len()
        invariant
            i <= files@.len(),
            forall|k: int| 0 <= k < files@.len() ==> json_well_formed(#[trigger] files@[k]),
            find_file(files@, path@, 0) == find_file(files@, path@, i as nat),
        decreases files@.len() - i,
    {
        let found = match str_field(&files[i], "path".as_bytes()) {
            Some(p) => bytes_equal(p, path),
            None => false,
        };
        if found {
            return Some(&files[i]);
        }
        i += 1;
    }
    None
}

/// The checks on proposal `i` of an initial response.
#[verifier::opaque]
pub open spec fn initial_proposal(proposals: Seq<Json>, files: Seq<Json>, i: int) -> Result<(), i32> {
    let edit = proposals[i];
    match exact_code(edit, edit_keys()) {
        Some(c) => Err(c),
        None => match spec_str_field(edit, "path".spec_bytes()) {
            None => Err(INVALID),
            Some(path) => if exists|j: int|
                0 <= j < i && #[trigger] spec_str_field(proposals[j], "path".spec_bytes()) == Some(path) {
                Err(DENIED)
            } else {
                match find_file(files, path, 0) {
                    None => Err(DENIED),
                    Some(file) => match exact_code(file, file_keys()) {
                        Some(c) => Err(c),
                        None => spec_ranged_edit(edit, file),
                    },
                }
            },
        },
    }
}

/// The first failing check among the first `n` proposals of an initial response.
pub open spec fn initial_proposals(proposals: Seq<Json>, files: Seq<Json>, n: nat) -> Result<(), i32>
    decreases n,
{
    if n == 0 {
        Ok(())
    } else {
        match initial_proposals(proposals, files, (n - 1) as nat) {
            Err(c) => Err(c),
            Ok(()) => initial_proposal(proposals, files, n - 1),
        }
    }
}

/// A failure among the first `m` proposals is the first failure among more.
pub proof fn lemma_initial_proposals_stable(proposals: Seq<Json>, files: Seq<Json>, m: nat, n: nat)
    requires
        m <= n,
        initial_proposals(proposals, files, m) is Err,
    ensures
        initial_proposals(proposals, files, n) == initial_proposals(proposals, files, m),
    decreases n - m,
{
    if m < n {
        lemma_initial_proposals_stable(proposals, files, m, (n - 1) as nat);
    }
}

/// When an initial model response is admitted for its prompt: at least two
/// proposals, no more than the admitted files, each for a distinct admitted
/// path and each a valid ranged edit of that file.
pub open spec fn spec_initial_response(prompt: Seq<u8>, response: Seq<u8>) -> Result<(), i32> {
    match parsed_json(prompt) {
        None => Err(INVALID),
        Some(p) => match exact_code(p, initial_prompt_keys()) {
            Some(c) => Err(c),
            None => match spec_as_array(spec_get(p, "files".spec_bytes())) {
                None => Err(INVALID),
                Some(files) => if files.len() < 2 {
                    Err(DENIED)
                } else {
                    match parsed_json(response) {
                        None => Err(INVALID),
                        Some(r) => match exact_code(r, proposals_keys()) {
                            Some(c) => Err(c),
                            None => match spec_as_array(spec_get(r, "proposals".spec_bytes())) {
                                None => Err(INVALID),
                                Some(proposals) => if proposals.len() < 2 || proposals.len() > files.len() {
                                    Err(DENIED)
                                } else {
                                    initial_proposals(proposals, files, proposals.len())
                                },
                            },
                        },
                    }
                },
            },
        },
    }
}

/// Checks proposal `i` of an initial response, given the paths of the
/// proposals before it; returns its path when it is admitted.
#[verifier::loop_isolation(false)]
fn check_initial_proposal<'a>(
    proposals: &'a Vec<Json>,
    files: &Vec<Json>,
    i: usize,
    seen: &Vec<&[u8]>,
    ekeys: &[&[u8]],
    fkeys: &[&[u8]],
) -> (r: Result<&'a [u8], i32>)
    requires
        i < proposals@.len(),
        seen@.len() == i,
        forall|k: int| 0 <= k < proposals@.len() ==> json_well_formed(#[trigger] proposals@[k]),
        forall|k: int| 0 <= k < files@.len() ==> json_well_formed(#[trigger] files@[k]),
        ekeys@.map_values(|k: &[u8]| k@) == edit_keys(),
        fkeys@.map_values(|k: &[u8]| k@) == file_keys(),
        forall|k: int| 0 <= k < i ==> spec_str_field(#[trigger] proposals@[k], "path".spec_bytes()) == Some(seen@[k]@),
    ensures
        match r {
            Ok(path) => initial_proposal(proposals@, files@, i as int) == Ok::<(), i32>(())
                && spec_str_field(proposals@[i as int], "path".spec_bytes()) == Some(path@),
            Err(c) => initial_proposal(proposals@, files@, i as int) == Err::<(), i32>(c),
        },
{
    reveal(initial_proposal);
    let edit = &proposals[i];
    if let Some(c) = exact_check(edit, ekeys) {
        return Err(c);
    }
    let path = match str_field(edit, "path".as_bytes()) {
        Some(v) => v,
        None => return Err(INVALID),
    };
    let mut j: usize = 0;
    while j < seen.len()
        invariant
            j <= seen@.len() == i,
            forall|k: int| 0 <= k < i ==> spec_str_field(#[trigger] proposals@[k], "path".spec_bytes()) == Some(seen@[k]@),
            forall|k: int| 0 <= k < j ==> seen@[k]@ != path@,
        decreases seen@.len() - j,
    {
        if bytes_equal(seen[j], path) {
            assert(spec_str_field(proposals@[j as int], "path".spec_bytes()) == Some(path@));
            return Err(DENIED);
        }
        j += 1;
    }
    assert(!exists|k: int| 0 <= k < i && #[trigger] spec_str_field(proposals@[k], "path".spec_bytes()) == Some(path@));
    let file = match file_with_path(files, path) {
        Some(f) => f,
        None => return Err(DENIED),
    };
    if let Some(c) = exact_check(file, fkeys) {
        return Err(c);
    }
    match validate_ranged_edit(edit, file) {
        Ok(()) => Ok(path),
        Err(c) => Err(c),
    }
}

/// Checks an initial model response against its prompt.
#[verifier::loop_isolation(false)]
pub fn validate_initial_response(prompt: &[u8], response: &[u8]) -> (r: Result<(), i32>)
    ensures
        r == spec_initial_response(prompt@, response@),
{
    let p = match parse_json(prompt) {
        Some(v) => v,
        None => return Err(INVALID),
    };
    let keys = initial_prompt_keys_list();
    if let Some(c) = exact_check(&p, keys.as_slice()) {
        return Err(c);
    }
    let files = match array_field(&p, "files".as_bytes()) {
        Some(f) => f,
        None => return Err(INVALID),
    };
    if files.len() < 2 {
        return Err(DENIED);
    }
    let r = match parse_json(response) {
        Some(v) => v,
        None => return Err(INVALID),
    };
    let keys = proposals_keys_list();
    if let Some(c) = exact_check(&r, keys.as_slice()) {
        return Err(c);
    }
    let proposals = match array_field(&r, "proposals".as_bytes()) {
        Some(v) => v,
        None => return Err(INVALID),
    };
    if proposals.len() < 2 || proposals.len() > files.len() {
        return Err(DENIED);
    }
    let ekeys = edit_keys_list();
    let fkeys = file_keys_list();
    let mut seen: Vec<&[u8]> = Vec::new();
    let mut i: usize = 0;
    while i < proposals.len()
        invariant
            i <= proposals@.len(),
            seen@.len() == i,
            forall|k: int| 0 <= k < proposals@.len() ==> json_well_formed(#[trigger] proposals@[k]),
            forall|k: int| 0 <= k < files@.len() ==> json_well_formed(#[trigger] files@[k]),
            ekeys@.map_values(|k: &[u8]| k@) == edit_keys(),
            fkeys@.map_values(|k: &[u8]| k@) == file_keys(),
            forall|k: int| 0 <= k < i ==> spec_str_field(#[trigger] proposals@[k], "path".spec_bytes()) == Some(seen@[k]@),
            initial_proposals(proposals@, files@, i as nat) == Ok::<(), i32>(()),
        decreases proposals@.len() - i,
    {
        let checked = check_initial_proposal(proposals, files, i, &seen, ekeys.as_slice(), fkeys.as_slice());
        assert(initial_proposals(proposals@, files@, (i + 1) as nat) == initial_proposal(proposals@, files@, i as int));
        match checked {
            Err(c) => {
                proof {
                    lemma_initial_proposals_stable(proposals@, files@, (i + 1) as nat, proposals@.len());
                }
                return Err(c);
            },
            Ok(path) => {
                seen.push(path);
            },
        }
        i += 1;
    }
    Ok(())
}


/// The value under `key` of an optional value.
pub open spec fn get_in(j: Option<Json>, key: Seq<u8>) -> Option<Json> {
    match j {
        Some(v) => spec_get(v, key),
        None => None,
    }
}

/// When a revision response is admitted for its prompt: one proposal for the
/// rejected path that is a valid ranged edit of that admitted file.
pub open spec fn spec_revision_response(prompt: Seq<u8>, response: Seq<u8>) -> Result<(), i32> {
    match parsed_json(prompt) {
        None => Err(INVALID),
        Some(p) => match exact_code(p, revision_prompt_keys()) {
            Some(c) => Err(c),
            None => match spec_get(p, "admission".spec_bytes()) {
                None => Err(INVALID),
                Some(admission) => match exact_code(admission, admission_keys()) {
                    Some(c) => Err(c),
                    None => match spec_get(p, "rejection".spec_bytes()) {
                        None => Err(INVALID),
                        Some(rejected) => match exact_code(rejected, rejection_keys()) {
                            Some(c) => Err(c),
                            None => match parsed_json(response) {
                                None => Err(INVALID),
                                Some(r) => match exact_code(r, proposal_keys()) {
                                    Some(c) => Err(c),
                                    None => match spec_get(r, "proposal".spec_bytes()) {
                                        None => Err(INVALID),
                                        Some(edit) => match exact_code(edit, edit_keys()) {
                                            Some(c) => Err(c),
                                            None => match spec_str_field(edit, "path".spec_bytes()) {
                                                None => Err(INVALID),
                                                Some(path) => if Some(path) != spec_str_field(rejected, "path".spec_bytes()) {
                                                    Err(DENIED)
                                                } else {
                                                    match spec_as_array(spec_get(admission, "files".spec_bytes())) {
                                                        None => Err(DENIED),
                                                        Some(files) => match find_file(files, path, 0) {
                                                            None => Err(DENIED),
                                                            Some(file) => match exact_code(file, file_keys()) {
                                                                Some(c) => Err(c),
                                                                None => spec_ranged_edit(edit, file),
                                                            },
                                                        },
                                                    }
                                                },
                                            },
                                        },
                                    },
                                },
                            },
                        },
                    },
                },
            },
        },
    }
}

/// Checks a revision response against its prompt.
pub fn validate_revision_response(prompt: &[u8], response: &[u8]) -> (r: Result<(), i32>)
    ensures
        r == spec_revision_response(prompt@, response@),
{
    let p = match parse_json(prompt) {
        Some(v) => v,
        None => return Err(INVALID),
    };
    if let Some(c) = exact_check(&p, revision_prompt_keys_list().as_slice()) {
        return Err(c);
    }
    let admission = match get(&p, "admission".as_bytes()) {
        Some(v) => v,
        None => return Err(INVALID),
    };
    if let Some(c) = exact_check(admission, admission_keys_list().as_slice()) {
        return Err(c);
    }
    let rejected = match get(&p, "rejection".as_bytes()) {
        Some(v) => v,
        None => return Err(INVALID),
    };
    if let Some(c) = exact_check(rejected, rejection_keys_list().as_slice()) {
        return Err(c);
    }
    let resp = match parse_json(response) {
        Some(v) => v,
        None => return Err(INVALID),
    };
    if let Some(c) = exact_check(&resp, proposal_keys_list().as_slice()) {
        return Err(c);
    }
    let edit = match get(&resp, "proposal".as_bytes()) {
        Some(v) => v,
        None => return Err(INVALID),
    };
    if let Some(c) = exact_check(edit, edit_keys_list().as_slice()) {
        return Err(c);
    }
    let path = match str_field(edit, "path".as_bytes()) {
        Some(v) => v,
        None => return Err(INVALID),
    };
    let same = match str_field(rejected, "path".as_bytes()) {
        Some(rp) => bytes_equal(rp, path),
        None => false,
    };
    if !same {
        return Err(DENIED);
    }
    let files = match array_field(admission, "files".as_bytes()) {
        Some(f) => f,
        None => return Err(DENIED),
    };
    let file = match file_with_path(files, path) {
        Some(f) => f,
        None => return Err(DENIED),
    };
    if let Some(c) = exact_check(file, file_keys_list().as_slice()) {
        return Err(c);
    }
    validate_ranged_edit(edit, file)
}

/// The text of a continuation response after its `COMPLETE` line, if it has one.
pub open spec fn complete_summary(response: Seq<u8>) -> Option<Seq<u8>> {
    let prefix = "COMPLETE\n".spec_bytes();
    if prefix.len() <= response.len() && response.subrange(0, prefix.len() as int) == prefix {
        Some(response.subrange(prefix.len() as int, response.len() as int))
    } else {
        None
    }
}

/// The text of a continuation response after `PROPOSE `, if it starts so.
pub open spec fn propose_remainder(response: Seq<u8>) -> Option<Seq<u8>> {
    let prefix = "PROPOSE ".spec_bytes();
    if prefix.len() <= response.len() && response.subrange(0, prefix.len() as int) == prefix {
        Some(response.subrange(prefix.len() as int, response.len() as int))
    } else {
        None
    }
}

/// Whether the command evidence inside a continuation prompt reports exit code zero.
pub open spec fn prompt_command_succeeded(p: Json) -> bool {
    spec_as_i64(get_in(spec_get(p, "command_finished".spec_bytes()), "exit_code".spec_bytes())) == Some(0i64)
}

/// The checks on a `PROPOSE` continuation response once its index and edit are split.
pub open spec fn spec_continuation_proposal(p: Json, index_text: Seq<u8>, edit_text: Seq<u8>) -> Result<(), i32> {
    match spec_parse_usize(index_text) {
        None => Err(INVALID),
        Some(index) => if !canonical_decimal(index_text) {
            Err(DENIED)
        } else {
            match parsed_json(edit_text) {
                None => Err(INVALID),
                Some(edit) => match exact_code(edit, bare_edit_keys()) {
                    Some(c) => Err(c),
                    None => match spec_as_array(spec_get(p, "admitted_sources".spec_bytes())) {
                        None => Err(DENIED),
                        Some(sources) => if index >= sources.len() {
                            Err(DENIED)
                        } else {
                            let source = sources[index as int];
                            match exact_code(source, source_keys()) {
                                Some(c) => Err(c),
                                None => if spec_usize_field(source, "admitted_path_index".spec_bytes()) != Some(index) {
                                    Err(DENIED)
                                } else {
                                    match spec_str_field(source, "content".spec_bytes()) {
                                        None => Err(INVALID),
                                        Some(content) => match spec_str_field(source, "sha256".spec_bytes()) {
                                            None => Err(INVALID),
                                            Some(sha) => spec_edit_bytes(edit, content, sha),
                                        },
                                    }
                                },
                            }
                        },
                    },
                },
            }
        },
    }
}

/// When a continuation response is admitted for its prompt: `COMPLETE` with
/// a non-blank summary after a successful command, or `PROPOSE <index>` in
/// canonical decimal followed by a valid ranged edit of that admitted source.
pub open spec fn spec_continuation_response(prompt: Seq<u8>, response: Seq<u8>) -> Result<(), i32> {
    match parsed_json(prompt) {
        None => Err(INVALID),
        Some(p) => match exact_code(p, continuation_prompt_keys()) {
            Some(c) => Err(c),
            None => match complete_summary(response) {
                Some(summary) => if prompt_command_succeeded(p) && !blank(summary) {
                    Ok(())
                } else {
                    Err(DENIED)
                },
                None => match propose_remainder(response) {
                    None => Err(DENIED),
                    Some(remainder) => match first_newline(remainder) {
                        None => Err(DENIED),
                        Some(k) => spec_continuation_proposal(
                            p,
                            remainder.subrange(0, k),
                            remainder.subrange(k + 1, remainder.len() as int),
                        ),
                    },
                },
            },
        },
    }
}

/// Checks the index and edit of a `PROPOSE` continuation response.
fn validate_continuation_proposal(p: &Json, index_text: &[u8], edit_text: &[u8]) -> (r: Result<(), i32>)
    requires
        json_well_formed(*p),
    ensures
        r == spec_continuation_proposal(*p, index_text@, edit_text@),
{
    let index = match parse_usize(index_text) {
        Some(v) => v,
        None => return Err(INVALID),
    };
    if !is_canonical_decimal(index_text) {
        return Err(DENIED);
    }
    let edit = match parse_json(edit_text) {
        Some(v) => v,
        None => return Err(INVALID),
    };
    if let Some(c) = exact_check(&edit, bare_edit_keys_list().as_slice()) {
        return Err(c);
    }
    let sources = match array_field(p, "admitted_sources".as_bytes()) {
        Some(v) => v,
        None => return Err(DENIED),
    };
    if index >= sources.len() {
        return Err(DENIED);
    }
    let source = &sources[index];
    if let Some(c) = exact_check(source, source_keys_list().as_slice()) {
        return Err(c);
    }
    match usize_field(source, "admitted_path_index".as_bytes()) {
        Some(v) => if v != index {
            return Err(DENIED);
        },
        None => return Err(DENIED),
    }
    let content = match str_field(source, "content".as_bytes()) {
        Some(v) => v,
        None => return Err(INVALID),
    };
    let sha = match str_field(source, "sha256".as_bytes()) {
        Some(v) => v,
        None => return Err(INVALID),
    };
    validate_edit_bytes(&edit, content, sha)
}

/// Checks a continuation response against its prompt.
pub fn validate_continuation_response(prompt: &[u8], response: &[u8]) -> (r: Result<(), i32>)
    ensures
        r == spec_continuation_response(prompt@, response@),
{
    let p = match parse_json(prompt) {
        Some(v) => v,
        None => return Err(INVALID),
    };
    if let Some(c) = exact_check(&p, continuation_prompt_keys_list().as_slice()) {
        return Err(c);
    }
    let complete = "COMPLETE\n".as_bytes();
    if has_prefix(response, complete) {
        let summary = slice_subrange(response, complete.len(), response.len());
        let exit = match get(&p, "command_finished".as_bytes()) {
            Some(command) => as_i64(get(command, "exit_code".as_bytes())),
            None => None,
        };
        let succeeded = match exit {
            Some(code) => code == 0,
            None => false,
        };
        if succeeded && !is_blank(summary) {
            return Ok(());
        } else {
            return Err(DENIED);
        }
    }
    let propose = "PROPOSE ".as_bytes();
    if !has_prefix(response, propose) {
        return Err(DENIED);
    }
    let remainder = slice_subrange(response, propose.len(), response.len());
    let k = match find_newline(remainder) {
        Some(k) => k,
        None => return Err(DENIED),
    };
    validate_continuation_proposal(
        &p,
        slice_subrange(remainder, 0, k),
        slice_subrange(remainder, k + 1, remainder.len()),
    )
}

/// What a model response is checked as, by the turn it answers.
pub open spec fn spec_model_response(turn: ModelTurn, prompt: Seq<u8>, response: Seq<u8>) -> Result<(), i32> {
    match turn {
        ModelTurn::Initial => spec_initial_response(prompt, response),
        ModelTurn::Revision { .. } => spec_revision_response(prompt, response),
        ModelTurn::Continuation { .. } => spec_continuation_response(prompt, response),
    }
}

/// Checks a model response against its prompt by the turn it answers.
pub fn validate_model_response(turn: &ModelTurn, prompt: &[u8], response: &[u8]) -> (r: Result<(), i32>)
    ensures
        r == spec_model_response(*turn, prompt@, response@),
{
    match turn {
        ModelTurn::Initial => validate_initial_response(prompt, response),
        ModelTurn::Revision { .. } => validate_revision_response(prompt, response),
        ModelTurn::Continuation { .. } => validate_continuation_response(prompt, response),
    }
}


/// The result digest a model response states for a candidate, by the turn
/// that produced it.
pub open spec fn spec_candidate_digest(turn: ModelTurn, response: Seq<u8>, proposal_index: usize, revision: u32) -> Result<Seq<u8>, i32> {
    match turn {
        ModelTurn::Initial => if revision == 0 {
            match parsed_json(response) {
                None => Err(INVALID),
                Some(v) => match spec_as_array(spec_get(v, "proposals".spec_bytes())) {
                    Some(items) => if proposal_index < items.len() {
                        match spec_str_field(items[proposal_index as int], "result_sha256".spec_bytes()) {
                            Some(d) => Ok(d),
                            None => Err(DENIED),
                        }
                    } else {
                        Err(DENIED)
                    },
                    None => Err(DENIED),
                },
            }
        } else {
            Err(DENIED)
        },
        ModelTurn::Revision { proposal_index: revised, revision: expected } => if proposal_index == revised
            && revision == expected {
            match parsed_json(response) {
                None => Err(INVALID),
                Some(v) => match spec_get(v, "proposal".spec_bytes()) {
                    Some(p) => match spec_str_field(p, "result_sha256".spec_bytes()) {
                        Some(d) => Ok(d),
                        None => Err(DENIED),
                    },
                    None => Err(DENIED),
                },
            }
        } else {
            Err(DENIED)
        },
        ModelTurn::Continuation { sequence } => if revision as int == (if sequence == u32::MAX { u32::MAX as int } else { sequence + 1 }) {
            match first_newline(response) {
                None => Err(DENIED),
                Some(k) => match parsed_json(response.subrange(k + 1, response.len() as int)) {
                    None => Err(INVALID),
                    Some(v) => match spec_str_field(v, "result_sha256".spec_bytes()) {
                        Some(d) => Ok(d),
                        None => Err(DENIED),
                    },
                },
            }
        } else {
            Err(DENIED)
        },
    }
}

/// Returns the result digest that a model response states for a candidate.
pub fn candidate_digest(turn: &ModelTurn, response: &[u8], proposal_index: usize, revision: u32) -> (r: Result<Vec<u8>, i32>)
    ensures
        match r {
            Ok(d) => spec_candidate_digest(*turn, response@, proposal_index, revision) == Ok::<Seq<u8>, i32>(d@),
            Err(c) => spec_candidate_digest(*turn, response@, proposal_index, revision) == Err::<Seq<u8>, i32>(c),
        },
{
    match turn {
        ModelTurn::Initial => {
            if revision != 0 {
                return Err(DENIED);
            }
            let v = match parse_json(response) {
                Some(v) => v,
                None => return Err(INVALID),
            };
            let items = match array_field(&v, "proposals".as_bytes()) {
                Some(items) => items,
                None => return Err(DENIED),
            };
            if proposal_index >= items.len() {
                return Err(DENIED);
            }
            match str_field(&items[proposal_index], "result_sha256".as_bytes()) {
                Some(d) => Ok(vstd::slice::slice_to_vec(d)),
                None => Err(DENIED),
            }
        },
        ModelTurn::Revision { proposal_index: revised, revision: expected } => {
            if proposal_index != *revised || revision != *expected {
                return Err(DENIED);
            }
            let v = match parse_json(response) {
                Some(v) => v,
                None => return Err(INVALID),
            };
            let p = match get(&v, "proposal".as_bytes()) {
                Some(p) => p,
                None => return Err(DENIED),
            };
            match str_field(p, "result_sha256".as_bytes()) {
                Some(d) => Ok(vstd::slice::slice_to_vec(d)),
                None => Err(DENIED),
            }
        },
        ModelTurn::Continuation { sequence } => {
            if revision != sequence.saturating_add(1) {
                return Err(DENIED);
            }
            let k = match find_newline(response) {
                Some(k) => k,
                None => return Err(DENIED),
            };
            let n = response.len();
            let v = match parse_json(slice_subrange(response, k + 1, n)) {
                Some(v) => v,
                None => return Err(INVALID),
            };
            match str_field(&v, "result_sha256".as_bytes()) {
                Some(d) => Ok(vstd::slice::slice_to_vec(d)),
                None => Err(DENIED),
            }
        },
    }
}

/// The turn and response of the last completed model request in a history.
pub open spec fn last_completion(history: Seq<SessionFact>) -> Option<(ModelTurn, String)>
    decreases history.len(),
{
    if history.len() == 0 {
        None
    } else {
        match history.last() {
            SessionFact::ModelCompleted { turn, response, .. } => Some((turn, response)),
            _ => last_completion(history.drop_last()),
        }
    }
}

/// When a decision on candidate `proposal_index`/`revision` is admitted: its
/// digest is well formed and is the result digest that the last completed
/// model response states for that candidate.
pub open spec fn spec_candidate_decision(proposal_index: usize, revision: u32, candidate_sha256: String, history: Seq<SessionFact>) -> Result<(), i32> {
    if !spec_valid_sha256(utf8_of(candidate_sha256)) {
        Err(DENIED)
    } else {
        match last_completion(history) {
            None => Err(DENIED),
            Some((turn, response)) => match spec_candidate_digest(turn, utf8_of(response), proposal_index, revision) {
                Err(c) => Err(c),
                Ok(expected) => if expected == utf8_of(candidate_sha256) {
                    Ok(())
                } else {
                    Err(DENIED)
                },
            },
        }
    }
}

/// Returns the last completed model request of a history.
fn find_last_completion(history: &[SessionFact]) -> (r: Option<(&ModelTurn, &String)>)
    ensures
        match r {
            Some((t, resp)) => last_completion(history@) == Some((*t, *resp)),
            None => last_completion(history@) is None,
        },
{
    let mut i: usize = history.len();
    assert(history@.take(i as int) == history@);
    while i > 0
        invariant
            i <= history@.len(),
            last_completion(history@) == last_completion(history@.take(i as int)),
        decreases i,
    {
        assert(history@.take(i as int).drop_last() == history@.take(i - 1));
        assert(history@.take(i as int).last() == history@[i - 1]);
        if let SessionFact::ModelCompleted { turn, response, .. } = &history[i - 1] {
            return Some((turn, response));
        }
        i -= 1;
    }
    None
}

/// Checks a decision on a candidate against the last completed model response.
pub fn validate_candidate_decision(proposal_index: usize, revision: u32, candidate_sha256: &String, history: &[SessionFact]) -> (r: Result<(), i32>)
    ensures
        r == spec_candidate_decision(proposal_index, revision, *candidate_sha256, history@),
{
    let candidate = candidate_sha256.as_str().as_bytes();
    if !valid_sha256(candidate) {
        return Err(DENIED);
    }
    let (turn, response) = match find_last_completion(history) {
        Some(found) => found,
        None => return Err(DENIED),
    };
    let expected = match candidate_digest(turn, response.as_str().as_bytes(), proposal_index, revision) {
        Ok(d) => d,
        Err(c) => return Err(c),
    };
    if bytes_equal(expected.as_slice(), candidate) {
        Ok(())
    } else {
        Err(DENIED)
    }
}


/// The admission rules for one fact given the facts already committed.
pub open spec fn spec_validate_fact(fact: SessionFact, history: Seq<SessionFact>) -> Result<(), i32> {
    match fact {
        SessionFact::ModelStarted { turn, model, prompt_sha256, prompt } => {
            if model@.len() == 0 || prompt@.len() == 0 || !digest_of(prompt, prompt_sha256) {
                Err(DENIED)
            } else {
                spec_model_start(turn, model, history)
            }
        },
        SessionFact::ModelCompleted { turn, prompt_sha256, response_sha256, response, provenance } => {
            if history.len() == 0 {
                Err(DENIED)
            } else {
                match history.last() {
                    SessionFact::ModelStarted { turn: started_turn, prompt_sha256: started_sha256, prompt, .. } => {
                        if turn != started_turn || prompt_sha256@ != started_sha256@ || provenance@.len() == 0
                            || response@.len() == 0 || !digest_of(response, response_sha256) {
                            Err(DENIED)
                        } else {
                            spec_model_response(turn, utf8_of(prompt), utf8_of(response))
                        }
                    },
                    _ => Err(DENIED),
                }
            }
        },
        SessionFact::ProposalRejected { proposal_index, revision, candidate_sha256, model, feedback } => {
            match spec_candidate_decision(proposal_index, revision, candidate_sha256, history) {
                Err(c) => Err(c),
                Ok(()) => if model@.len() == 0 || blank(utf8_of(feedback)) {
                    Err(DENIED)
                } else {
                    Ok(())
                },
            }
        },
        SessionFact::ProposalApproved { proposal_index, revision, candidate_sha256 } => {
            spec_candidate_decision(proposal_index, revision, candidate_sha256, history)
        },
        SessionFact::PromotionStarted { proposal_index, revision, candidate_sha256, operation } => {
            if history.len() == 0 {
                Err(DENIED)
            } else {
                match history.last() {
                    SessionFact::ProposalApproved { proposal_index: i, revision: r, candidate_sha256: c } => {
                        if operation == 0 || proposal_index != i || revision != r || candidate_sha256@ != c@ {
                            Err(DENIED)
                        } else {
                            Ok(())
                        }
                    },
                    _ => Err(DENIED),
                }
            }
        },
        SessionFact::ProposalPromoted { proposal_index, revision, candidate_sha256, operation } => {
            if history.len() == 0 {
                Err(DENIED)
            } else {
                match history.last() {
                    SessionFact::PromotionStarted { proposal_index: i, revision: r, candidate_sha256: c, operation: o } => {
                        if proposal_index != i || revision != r || candidate_sha256@ != c@ || operation != o {
                            Err(DENIED)
                        } else {
                            Ok(())
                        }
                    },
                    _ => Err(DENIED),
                }
            }
        },
        SessionFact::CommandStarted { attempt, payload_sha256, payload } => {
            if attempt != command_starts(history) + 1 || !digest_of(payload, payload_sha256) {
                Err(DENIED)
            } else if parsed_json(utf8_of(payload)) is None {
                Err(INVALID)
            } else {
                Ok(())
            }
        },
        SessionFact::CommandFinished { attempt, start_sha256, payload_sha256, payload } => {
            if history.len() == 0 {
                Err(DENIED)
            } else {
                match history.last() {
                    SessionFact::CommandStarted { attempt: a, payload_sha256: started_sha256, .. } => {
                        if attempt != a || start_sha256@ != started_sha256@ || !digest_of(payload, payload_sha256) {
                            Err(DENIED)
                        } else if parsed_json(utf8_of(payload)) is None {
                            Err(INVALID)
                        } else {
                            Ok(())
                        }
                    },
                    _ => Err(DENIED),
                }
            }
        },
        SessionFact::TaskCompleted { sequence, prompt_sha256, response_sha256, response, provenance } => {
            if history.len() == 0 {
                Err(DENIED)
            } else {
                match history.last() {
                    SessionFact::ModelStarted {
                        turn: ModelTurn::Continuation { sequence: started_sequence },
                        prompt_sha256: started_sha256,
                        ..
                    } => {
                        if sequence != started_sequence || prompt_sha256@ != started_sha256@
                            || provenance@.len() == 0 || !digest_of(response, response_sha256) {
                            Err(DENIED)
                        } else {
                            match complete_summary(utf8_of(response)) {
                                None => Err(DENIED),
                                Some(summary) => if blank(summary) {
                                    Err(DENIED)
                                } else {
                                    Ok(())
                                },
                            }
                        }
                    },
                    _ => Err(DENIED),
                }
            }
        },
    }
}

/// Every admitted fact is bound to what came before it: a model start
/// names a model and carries a prompt with its own digest; a completion
/// answers the request started just before, for the same turn and prompt,
/// with a response carrying its own digest and a provenance; a promotion
/// starts for exactly the candidate approved just before, under a non-zero
/// operation, and is recorded for exactly the candidate and operation it
/// started with; a command starts as the next attempt with a payload
/// carrying its own digest, and finishes for the attempt started just
/// before; and decisions on a candidate carry a well-formed digest.
pub proof fn lemma_admitted_facts_follow_their_predecessor(fact: SessionFact, history: Seq<SessionFact>)
    ensures
        spec_validate_fact(fact, history) is Ok ==> match fact {
            SessionFact::ModelStarted { model, prompt_sha256, prompt, .. } =>
                model@.len() > 0 && prompt@.len() > 0 && spec_sha256_hex(utf8_of(prompt)) == utf8_of(prompt_sha256),
            SessionFact::ModelCompleted { turn, prompt_sha256, response_sha256, response, provenance } =>
                history.len() > 0 && (history.last() matches SessionFact::ModelStarted { turn: t, prompt_sha256: d, .. }
                    && t == turn && d@ == prompt_sha256@)
                && provenance@.len() > 0 && response@.len() > 0
                && spec_sha256_hex(utf8_of(response)) == utf8_of(response_sha256),
            SessionFact::ProposalRejected { candidate_sha256, model, feedback, .. } =>
                spec_valid_sha256(utf8_of(candidate_sha256)) && model@.len() > 0 && !blank(utf8_of(feedback)),
            SessionFact::ProposalApproved { candidate_sha256, .. } => spec_valid_sha256(utf8_of(candidate_sha256)),
            SessionFact::PromotionStarted { proposal_index, revision, candidate_sha256, operation } =>
                operation != 0 && history.len() > 0
                && (history.last() matches SessionFact::ProposalApproved { proposal_index: i, revision: r, candidate_sha256: c }
                    && i == proposal_index && r == revision && c@ == candidate_sha256@),
            SessionFact::ProposalPromoted { proposal_index, revision, candidate_sha256, operation } =>
                history.len() > 0
                && (history.last() matches SessionFact::PromotionStarted { proposal_index: i, revision: r, candidate_sha256: c, operation: o }
                    && i == proposal_index && r == revision && c@ == candidate_sha256@ && o == operation),
            SessionFact::CommandStarted { attempt, payload_sha256, payload } =>
                attempt == command_starts(history) + 1 && spec_sha256_hex(utf8_of(payload)) == utf8_of(payload_sha256),
            SessionFact::CommandFinished { attempt, start_sha256, payload_sha256, payload } =>
                history.len() > 0 && (history.last() matches SessionFact::CommandStarted { attempt: a, payload_sha256: d, .. }
                    && a == attempt && d@ == start_sha256@)
                && spec_sha256_hex(utf8_of(payload)) == utf8_of(payload_sha256),
            SessionFact::TaskCompleted { sequence, prompt_sha256, provenance, response_sha256, response } =>
                history.len() > 0 && (history.last() matches SessionFact::ModelStarted {
                    turn: ModelTurn::Continuation { sequence: q }, prompt_sha256: d, .. } && q == sequence && d@ == prompt_sha256@)
                && provenance@.len() > 0 && spec_sha256_hex(utf8_of(response)) == utf8_of(response_sha256),
        },
{
}

/// Whether a JSON document parses from a string.
fn parses_as_json(text: &String) -> (r: bool)
    ensures
        r == parsed_json(utf8_of(*text)) is Some,
{
    parse_json(text.as_str().as_bytes()).is_some()
}

/// Checks one fact of a task session against the facts already committed.
pub fn validate_fact(fact: &SessionFact, history: &[SessionFact]) -> (r: Result<(), i32>)
    requires
        history@.len() < u32::MAX,
    ensures
        r == spec_validate_fact(*fact, history@),
{
    let last = if history.len() == 0 { None } else { Some(&history[history.len() - 1]) };
    match fact {
        SessionFact::ModelStarted { turn, model, prompt_sha256, prompt } => {
            if model.as_str().is_empty() || prompt.as_str().is_empty() || !digest_matches(prompt, prompt_sha256) {
                return Err(DENIED);
            }
            validate_model_start(turn, model, history)
        },
        SessionFact::ModelCompleted { turn, prompt_sha256, response_sha256, response, provenance } => {
            match last {
                Some(SessionFact::ModelStarted { turn: started_turn, prompt_sha256: started_sha256, prompt, .. }) => {
                    if *turn != *started_turn || *prompt_sha256 != *started_sha256 || provenance.as_str().is_empty()
                        || response.as_str().is_empty() || !digest_matches(response, response_sha256) {
                        return Err(DENIED);
                    }
                    validate_model_response(turn, prompt.as_str().as_bytes(), response.as_str().as_bytes())
                },
                _ => Err(DENIED),
            }
        },
        SessionFact::ProposalRejected { proposal_index, revision, candidate_sha256, model, feedback } => {
            match validate_candidate_decision(*proposal_index, *revision, candidate_sha256, history) {
                Err(c) => Err(c),
                Ok(()) => if model.as_str().is_empty() || is_blank(feedback.as_str().as_bytes()) {
                    Err(DENIED)
                } else {
                    Ok(())
                },
            }
        },
        SessionFact::ProposalApproved { proposal_index, revision, candidate_sha256 } => {
            validate_candidate_decision(*proposal_index, *revision, candidate_sha256, history)
        },
        SessionFact::PromotionStarted { proposal_index, revision, candidate_sha256, operation } => {
            match last {
                Some(SessionFact::ProposalApproved { proposal_index: i, revision: r, candidate_sha256: c }) => {
                    if *operation == 0 || *proposal_index != *i || *revision != *r || *candidate_sha256 != *c {
                        Err(DENIED)
                    } else {
                        Ok(())
                    }
                },
                _ => Err(DENIED),
            }
        },
        SessionFact::ProposalPromoted { proposal_index, revision, candidate_sha256, operation } => {
            match last {
                Some(SessionFact::PromotionStarted { proposal_index: i, revision: r, candidate_sha256: c, operation: o }) => {
                    if *proposal_index != *i || *revision != *r || *candidate_sha256 != *c || *operation != *o {
                        Err(DENIED)
                    } else {
                        Ok(())
                    }
                },
                _ => Err(DENIED),
            }
        },
        SessionFact::CommandStarted { attempt, payload_sha256, payload } => {
            let mut count: u64 = 0;
            let mut i: usize = 0;
            while i < history.len()
                invariant
                    i <= history@.len() < u32::MAX,
                    count as nat == command_starts(history@.take(i as int)),
                decreases history@.len() - i,
            {
                proof {
                    assert(history@.take(i + 1).drop_last() == history@.take(i as int));
                    lemma_counts_bounded(history@.take(i as int));
                }
                if let SessionFact::CommandStarted { .. } = &history[i] {
                    count = count + 1;
                }
                i += 1;
            }
            assert(history@.take(history@.len() as int) == history@);
            proof {
                lemma_counts_bounded(history@);
            }
            if *attempt != count + 1 || !digest_matches(payload, payload_sha256) {
                return Err(DENIED);
            }
            if !parses_as_json(payload) {
                return Err(INVALID);
            }
            Ok(())
        },
        SessionFact::CommandFinished { attempt, start_sha256, payload_sha256, payload } => {
            match last {
                Some(SessionFact::CommandStarted { attempt: a, payload_sha256: started_sha256, .. }) => {
                    if *attempt != *a || *start_sha256 != *started_sha256 || !digest_matches(payload, payload_sha256) {
                        return Err(DENIED);
                    }
                    if !parses_as_json(payload) {
                        return Err(INVALID);
                    }
                    Ok(())
                },
                _ => Err(DENIED),
            }
        },
        SessionFact::TaskCompleted { sequence, prompt_sha256, response_sha256, response, provenance } => {
            match last {
                Some(SessionFact::ModelStarted {
                    turn: ModelTurn::Continuation { sequence: started_sequence },
                    prompt_sha256: started_sha256,
                    ..
                }) => {
                    if *sequence != *started_sequence || *prompt_sha256 != *started_sha256
                        || provenance.as_str().is_empty() || !digest_matches(response, response_sha256) {
                        return Err(DENIED);
                    }
                    let bytes = response.as_str().as_bytes();
                    let complete = "COMPLETE\n".as_bytes();
                    if !has_prefix(bytes, complete) {
                        return Err(DENIED);
                    }
                    if is_blank(slice_subrange(bytes, complete.len(), bytes.len())) {
                        return Err(DENIED);
                    }
                    Ok(())
                },
                _ => Err(DENIED),
            }
        },
    }
}

/// The event code of the fact a session ends with, or zero when it is empty.
pub open spec fn last_code(history: Seq<SessionFact>) -> u64 {
    if history.len() == 0 {
        0
    } else {
        spec_fact_code(history.last())
    }
}

/// The admission rules never contradict the transition table: every fact
/// whose rule reads the fact before it (model requests and their outcomes,
/// promotions, command results, and task completion) is admitted by the rules
/// only where the table allows its code to follow the previous one.
pub proof fn lemma_rules_respect_transitions(fact: SessionFact, history: Seq<SessionFact>)
    requires
        spec_validate_fact(fact, history) == Ok::<(), i32>(()),
        !(fact is ProposalRejected || fact is ProposalApproved || fact is CommandStarted),
    ensures
        spec_allowed(last_code(history), spec_fact_code(fact)),
{
}

/// Accepts a non-negative host value as unsigned and negates a negative one
/// into the error, keeping the low 32 bits as `as i32` does.
pub fn checked_i64(value: i64) -> (r: Result<u64, i32>)
    requires
        value != i64::MIN,
    ensures
        r == (if value >= 0 { Ok::<u64, i32>(value as u64) } else { Err((-value) as i32) }),
{
    if value >= 0 {
        Ok(value as u64)
    } else {
        Err((-value) as i32)
    }
}

/// Accepts a zero status and passes any other on as the error.
pub fn checked_status(status: i32) -> (r: Result<(), i32>)
    ensures
        r == (if status == 0 { Ok::<(), i32>(()) } else { Err(status) }),
{
    if status == 0 { Ok(()) } else { Err(status) }
}

/// Accepts the length of a fact: one to `MAX_FACT_BYTES` bytes.
pub fn check_fact_len(length: u64) -> (r: Result<(), i32>)
    ensures
        r == (if length == 0 || length > MAX_FACT_BYTES { Err::<(), i32>(INVALID) } else { Ok(()) }),
{
    if length == 0 || length > MAX_FACT_BYTES { Err(INVALID) } else { Ok(()) }
}

/// Admits a fact code after the last committed one, refused as denied when
/// the transition is not allowed.
pub fn admit_code(previous: u64, code: u64) -> (r: Result<(), i32>)
    ensures
        r == (if spec_allowed(previous, code) { Ok::<(), i32>(()) } else { Err(DENIED) }),
{
    if allowed(previous, code) { Ok(()) } else { Err(DENIED) }
}

/// Checks a fact read back under event code `code`: it must have been read
/// (else invalid) and carry that code (else denied).
pub fn check_fact(fact: Option<SessionFact>, code: u64) -> (r: Result<SessionFact, i32>)
    ensures
        match fact {
            None => r == Err::<SessionFact, i32>(INVALID),
            Some(f) => r == (if spec_fact_code(f) == code { Ok::<SessionFact, i32>(f) } else { Err(DENIED) }),
        },
{
    match fact {
        None => Err(INVALID),
        Some(f) => if fact_code(&f) == code { Ok(f) } else { Err(DENIED) },
    }
}

} // verus!
