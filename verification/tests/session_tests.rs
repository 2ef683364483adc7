use quartz::digest::sha256_hex;
use quartz::session::{check_source_count, orchestrate_inner, render_diff, role_of, Action, Role};
use quartz::task::{
    admit_task, check_model_bytes, invocation, operation, orchestrate, Admission, AdmittedFile, Fact, Generation,
    Operation, Payload, Proposal, TaskInput, EVENT_COMPLETE, EVENT_GENERATION, EVENT_INITIAL_PROMPT,
    EVENT_INITIAL_RESPONSE, EVENT_REVIEW_PROMPT, EVENT_REVIEW_RESPONSE, EVENT_STARTED, EVENT_STOPPED,
};

fn text(s: &str) -> Vec<u8> {
    s.as_bytes().to_vec()
}

fn admission() -> Admission {
    Admission {
        schema: 2,
        task: text("change both files"),
        argv: vec![text("cargo"), text("test")],
        files: vec![
            AdmittedFile { path: text("a.txt"), source_sha256: sha256_hex(b"alpha\n"), content: text("alpha\n") },
            AdmittedFile { path: text("b.txt"), source_sha256: sha256_hex(b"beta\n"), content: text("beta\n") },
        ],
    }
}

fn fact(index: u64, value: u64, bytes: &[u8], payload: Payload) -> Fact {
    Fact { index, value, bytes: bytes.to_vec(), payload, canonical: Vec::new() }
}

fn started() -> Fact {
    fact(0, EVENT_STARTED, b"{}", Payload::Admission(Some(admission())))
}

fn initial_response() -> Vec<u8> {
    let a = String::from_utf8(sha256_hex(b"alpha\n")).unwrap();
    let b = String::from_utf8(sha256_hex(b"beta\n")).unwrap();
    format!(
        "{{\"proposals\":[{{\"path\":\"a.txt\",\"source_sha256\":\"{a}\",\"byte_start\":0,\"byte_end\":6,\"replacement\":\"alpha revised\\n\"}},{{\"path\":\"b.txt\",\"source_sha256\":\"{b}\",\"byte_start\":0,\"byte_end\":5,\"replacement\":\"beta revised\\n\"}}]}}"
    )
    .into_bytes()
}

fn proposal(path: &str, source: &str, end: usize, result: &str) -> Proposal {
    Proposal {
        path: text(path),
        source_sha256: sha256_hex(source.as_bytes()),
        source: text(source),
        byte_start: 0,
        byte_end: end,
        replacement: text(result),
        result_sha256: sha256_hex(result.as_bytes()),
        result: text(result),
    }
}

fn generation_fact(index: u64, g: Generation, canonical: &[u8]) -> Fact {
    Fact { index, value: EVENT_GENERATION, bytes: canonical.to_vec(), payload: Payload::Generation(Some(g)), canonical: canonical.to_vec() }
}

fn first_generation() -> Generation {
    Generation { proposal_index: 0, admitted_path_index: 0, revision: 0, proposal: proposal("a.txt", "alpha\n", 6, "alpha revised\n") }
}

fn second_generation() -> Generation {
    Generation { proposal_index: 1, admitted_path_index: 1, revision: 0, proposal: proposal("b.txt", "beta\n", 5, "beta revised\n") }
}

fn through_generations() -> Vec<Fact> {
    vec![
        started(),
        fact(1, EVENT_INITIAL_PROMPT, b"prompt", Payload::Untyped),
        fact(2, EVENT_INITIAL_RESPONSE, &initial_response(), Payload::Untyped),
        generation_fact(3, first_generation(), b"first"),
        generation_fact(4, second_generation(), b"second"),
    ]
}

#[test]
fn a_new_session_is_admitted_first() {
    assert_eq!(orchestrate_inner(&vec![], 2), Ok(Action::Admit));
    assert_eq!(orchestrate_inner(&vec![], 1), Err(4));
    assert_eq!(orchestrate_inner(&vec![], 65), Err(4));
}

#[test]
fn a_finished_session_stays_finished_and_a_stopped_one_fails() {
    let done = vec![started(), fact(1, EVENT_COMPLETE, b"{}", Payload::Untyped)];
    assert_eq!(orchestrate_inner(&done, 2), Ok(Action::Finished));
    let stopped = vec![started(), fact(1, EVENT_STOPPED, b"{}", Payload::Untyped)];
    assert_eq!(orchestrate_inner(&stopped, 2), Err(18));
}

#[test]
fn responses_must_follow_their_prompts() {
    let orphan = vec![started(), fact(1, EVENT_INITIAL_RESPONSE, b"{}", Payload::Untyped)];
    assert_eq!(orchestrate_inner(&orphan, 2), Err(4));
    let unadmitted = vec![fact(0, EVENT_INITIAL_PROMPT, b"prompt", Payload::Untyped)];
    assert_eq!(orchestrate_inner(&unadmitted, 2), Err(4));
    let wrong_count = vec![started()];
    assert_eq!(orchestrate_inner(&wrong_count, 3), Err(4));
}

#[test]
fn the_initial_proposals_become_generations_in_order() {
    let mut facts = vec![started()];
    assert_eq!(orchestrate_inner(&facts, 2), Ok(Action::AppendInitialPrompt));
    facts.push(fact(1, EVENT_INITIAL_PROMPT, b"prompt", Payload::Untyped));
    assert_eq!(
        orchestrate_inner(&facts, 2),
        Ok(Action::Exchange { slot: 30, request_index: 1, invocation: invocation(30, 1), response_event: EVENT_INITIAL_RESPONSE })
    );
    facts.push(fact(2, EVENT_INITIAL_RESPONSE, &initial_response(), Payload::Untyped));
    assert_eq!(orchestrate_inner(&facts, 2), Ok(Action::AppendGeneration(first_generation())));
    facts.push(generation_fact(3, first_generation(), b"first"));
    assert_eq!(orchestrate_inner(&facts, 2), Ok(Action::AppendGeneration(second_generation())));
}

#[test]
fn generations_are_reviewed_in_proposal_order_and_may_be_stopped() {
    let mut facts = through_generations();
    let op = operation(&first_generation(), b"first");
    assert_eq!(op.proposal_index, 0);
    assert!(op.operation >= 1);
    assert_eq!(
        orchestrate_inner(&facts, 2),
        Ok(Action::AppendReviewPrompt { operation: op, diff: render_diff(&first_generation().proposal) })
    );
    facts.push(fact(5, EVENT_REVIEW_PROMPT, b"review", Payload::Operation(Some(op))));
    assert_eq!(
        orchestrate_inner(&facts, 2),
        Ok(Action::Exchange { slot: 31, request_index: 5, invocation: invocation(31, 5), response_event: EVENT_REVIEW_RESPONSE })
    );
    facts.push(fact(6, EVENT_REVIEW_RESPONSE, b" stop \n", Payload::Untyped));
    assert_eq!(orchestrate_inner(&facts, 2), Ok(Action::AppendStopped(text("Stopped by user."))));
}

#[test]
fn an_approved_generation_is_authorized_then_applied() {
    let mut facts = through_generations();
    let op = operation(&first_generation(), b"first");
    facts.push(fact(5, EVENT_REVIEW_PROMPT, b"review", Payload::Operation(Some(op))));
    facts.push(fact(6, EVENT_REVIEW_RESPONSE, b"approve", Payload::Untyped));
    assert_eq!(
        orchestrate_inner(&facts, 2),
        Ok(Action::AppendOperation { event: quartz::task::EVENT_MUTATION_AUTHORIZED, operation: op })
    );
    facts.push(fact(7, quartz::task::EVENT_MUTATION_AUTHORIZED, b"{}", Payload::Operation(Some(op))));
    assert_eq!(
        orchestrate_inner(&facts, 2),
        Ok(Action::ApplyCandidate { admitted_path_index: 0, result: text("alpha revised\n"), operation: op })
    );
}

#[test]
fn a_rejection_asks_for_a_revision() {
    let mut facts = through_generations();
    let op = operation(&first_generation(), b"first");
    facts.push(fact(5, EVENT_REVIEW_PROMPT, b"review", Payload::Operation(Some(op))));
    facts.push(fact(6, EVENT_REVIEW_RESPONSE, b"reject keep the case", Payload::Untyped));
    assert_eq!(
        orchestrate_inner(&facts, 2),
        Ok(Action::AppendRevisionPrompt { generation: first_generation(), operation: op, feedback: text("keep the case") })
    );
    let mut blank = through_generations();
    blank.push(fact(5, EVENT_REVIEW_PROMPT, b"review", Payload::Operation(Some(op))));
    blank.push(fact(6, EVENT_REVIEW_RESPONSE, b"reject    ", Payload::Untyped));
    assert_eq!(orchestrate_inner(&blank, 2), Err(4));
}

#[test]
fn a_second_generation_on_the_same_file_is_refused() {
    let mut facts = through_generations();
    let clash = Generation { proposal_index: 2, admitted_path_index: 0, revision: 0, proposal: proposal("a.txt", "alpha\n", 6, "other\n") };
    facts.push(generation_fact(5, clash, b"clash"));
    assert_eq!(orchestrate_inner(&facts, 2), Err(4));
}

#[test]
fn the_diff_marks_every_line() {
    let p = proposal("a.txt", "x\ny", 3, "z\n");
    assert_eq!(
        render_diff(&p),
        text("--- a/a.txt\n+++ b/a.txt\n@@ bytes 0..3 @@\n-x\n-y\n+z\n+\n\nApprove with 'approve', reject with 'reject <feedback>', or stop with 'stop'.")
    );
}

#[test]
fn admission_reads_every_source() {
    let input = TaskInput { schema: 2, task: text("task"), argv: vec![text("cargo")], sources: vec![text("a.txt"), text("b.txt")] };
    let admitted = admit_task(input, &vec![Ok(text("alpha\n")), Ok(text("beta\n"))], 2).unwrap();
    assert_eq!(admitted.files[1].source_sha256, sha256_hex(b"beta\n"));
    let input = TaskInput { schema: 2, task: text("task"), argv: vec![text("cargo")], sources: vec![text("a.txt"), text("b.txt")] };
    assert_eq!(admit_task(input, &vec![Err(9), Ok(text("beta\n"))], 2), Err(9));
    let input = TaskInput { schema: 2, task: text("task"), argv: vec![text("cargo")], sources: vec![text("a.txt"), text("a.txt")] };
    assert_eq!(admit_task(input, &vec![Ok(text("alpha\n")), Ok(text("beta\n"))], 2), Err(4));
    let input = TaskInput { schema: 2, task: text("task"), argv: vec![text("cargo")], sources: vec![text("a.txt"), text("b.txt")] };
    assert_eq!(admit_task(input, &vec![Ok(vec![0xff]), Ok(text("beta\n"))], 2), Err(4));
}

#[test]
fn outcomes_map_to_step_statuses() {
    assert_eq!(orchestrate(Ok(())), 1);
    assert_eq!(orchestrate(Err(5)), -15);
    assert_eq!(orchestrate(Err(-11)), -11);
    assert_eq!(orchestrate(Err(4)), -16);
    assert_eq!(check_model_bytes(b""), Err(4));
    assert_eq!(check_model_bytes(b"{}"), Ok(()));
    let op = Operation { proposal_index: 0, source: 0, revision: 0, operation: 1 };
    assert_eq!(op, op);
}

#[test]
fn instance_modes_select_roles() {
    let unit: u64 = 1 << 56;
    assert_eq!(role_of(2), Role::Orchestrator(2));
    assert_eq!(role_of(64), Role::Orchestrator(64));
    assert_eq!(role_of(unit), Role::Provider(30));
    assert_eq!(role_of(2 * unit + 7), Role::Provider(31));
    assert_eq!(role_of(3 * unit), Role::Provider(32));
    assert_eq!(role_of(4 * unit), Role::Authority);
    assert_eq!(role_of(5 * unit), Role::Unknown);
    assert_eq!(role_of(u64::MAX), Role::Unknown);
}

#[test]
fn source_counts_outside_two_through_sixty_four_are_invalid() {
    assert_eq!(check_source_count(1), Err(quartz::task::INVALID));
    assert_eq!(check_source_count(2), Ok(()));
    assert_eq!(check_source_count(64), Ok(()));
    assert_eq!(check_source_count(65), Err(quartz::task::INVALID));
}
