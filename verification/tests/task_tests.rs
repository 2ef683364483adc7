use quartz::digest::sha256_hex;
use quartz::json::{Json, JsonMember};
use quartz::task::{
    parse_continuation_response, parse_initial_response, parse_ranged_edit, parse_revision_response,
    validate_command_finished, Admission, AdmittedFile, BoundedOutput, CommandFinished, CommandRequest,
    ContinuationResponse, Generation, Proposal, RepositoryFile, RepositoryIdentity,
};
use serde_json::Value;

fn text(s: &str) -> Vec<u8> {
    s.as_bytes().to_vec()
}

fn hex(bytes: &[u8]) -> String {
    String::from_utf8(sha256_hex(bytes)).unwrap()
}

fn admission() -> Admission {
    Admission {
        schema: 2,
        task: text("change both files"),
        argv: vec![text("cargo"), text("test")],
        files: vec![
            AdmittedFile { path: text("a.txt"), source_sha256: sha256_hex(b"alpha\n"), content: text("alpha\n") },
            AdmittedFile { path: text("b.txt"), source_sha256: sha256_hex(b"beta\n"), content: text("beta\n") },
        ],
    }
}

fn object(fields: Vec<(&str, Value)>) -> Value {
    let mut map = serde_json::Map::new();
    for (key, value) in fields {
        map.insert(key.to_string(), value);
    }
    Value::Object(map)
}

fn edit(path: Option<&str>, digest: &str, start: u64, end: u64, replacement: &str) -> Value {
    let mut fields = Vec::new();
    if let Some(path) = path {
        fields.push(("path", Value::String(path.to_string())));
    }
    fields.push(("source_sha256", Value::String(digest.to_string())));
    fields.push(("byte_start", Value::from(start)));
    fields.push(("byte_end", Value::from(end)));
    fields.push(("replacement", Value::String(replacement.to_string())));
    object(fields)
}

fn output() -> BoundedOutput {
    BoundedOutput { content: Vec::new(), encoding: text("utf-8"), read_error: None, truncated: false }
}

fn empty_repository() -> RepositoryIdentity {
    RepositoryIdentity { canonical_root: text("/tmp"), canonical_root_sha256: "0".repeat(64).into_bytes(), files: vec![] }
}

fn repository(files: &[(&str, &str)]) -> RepositoryIdentity {
    RepositoryIdentity {
        canonical_root: text("/tmp/repository"),
        canonical_root_sha256: sha256_hex(b"/tmp/repository"),
        files: files
            .iter()
            .map(|(path, content)| RepositoryFile {
                byte_len: Some(content.len() as u64),
                content: Some(text(content)),
                path: text(path),
                sha256: Some(sha256_hex(content.as_bytes())),
                status: text("regular"),
            })
            .collect(),
    }
}

fn finished(argv: Vec<Vec<u8>>, attempt: u64, started: Vec<u8>, exit_code: i32, before: RepositoryIdentity, after: RepositoryIdentity) -> CommandFinished {
    CommandFinished {
        argv,
        attempt,
        command_started_sha256: started,
        duration_ms: 1,
        exit_code: Some(exit_code),
        kind: text("CommandFinished"),
        repository: before,
        repository_after: after,
        schema: 1,
        signal: None,
        spawn_error: None,
        stderr: output(),
        stdout: output(),
        timed_out: false,
    }
}

fn request_digest(attempt: u64) -> Vec<u8> {
    let wire = format!("{{\"schema\":1,\"attempt\":{attempt},\"argv\":[\"cargo\",\"test\"]}}");
    sha256_hex(wire.as_bytes())
}

#[test]
fn strict_ranges_reject_unknown_digest_and_split_utf8() {
    let admission = admission();
    let a = hex(b"alpha\n");
    let b = hex(b"beta\n");
    let valid = object(vec![(
        "proposals",
        Value::Array(vec![
            edit(Some("a.txt"), &a, 0, 6, "alpha revised\n"),
            edit(Some("b.txt"), &b, 0, 5, "beta revised\n"),
        ]),
    )]);
    assert_eq!(parse_initial_response(&serde_json::to_vec(&valid).unwrap(), &admission).unwrap().len(), 2);

    let mut first = edit(Some("a.txt"), &a, 0, 6, "alpha revised\n");
    first.as_object_mut().unwrap().insert("result_sha256".to_string(), Value::String("0".repeat(64)));
    let digest = object(vec![("proposals", Value::Array(vec![first, edit(Some("b.txt"), &b, 0, 5, "beta revised\n")]))]);
    assert!(parse_initial_response(&serde_json::to_vec(&digest).unwrap(), &admission).is_err());

    let utf8 = AdmittedFile { path: text("a.txt"), source_sha256: sha256_hex("é\n".as_bytes()), content: text("é\n") };
    let member = |key: &str, value: Json| JsonMember { key: key.as_bytes().to_vec(), value };
    let wire = Json::Object(vec![
        member("source_sha256", Json::Str(hex("é\n".as_bytes()).into_bytes())),
        member("byte_start", Json::PosInt(1)),
        member("byte_end", Json::PosInt(1)),
        member("replacement", Json::Str(b"x".to_vec())),
    ]);
    assert!(parse_ranged_edit(&wire, &utf8, false).is_err());
}

#[test]
fn completion_requires_success_and_canonical_grammar() {
    let admission = admission();
    let failed = finished(admission.argv.clone(), 1, "0".repeat(64).into_bytes(), 1, empty_repository(), empty_repository());
    assert!(parse_continuation_response(b"COMPLETE\npassed", &admission, &failed).is_err());
    let mut success = failed;
    success.exit_code = Some(0);
    assert!(matches!(
        parse_continuation_response(b"COMPLETE\npassed", &admission, &success),
        Ok(ContinuationResponse::Complete(_))
    ));
    assert!(parse_continuation_response(b"complete\npassed", &admission, &success).is_err());
}

#[test]
fn repeated_revisions_and_continuations_use_strict_current_sources() {
    let admission = admission();
    let a = hex(b"alpha\n");
    let proposal = Proposal {
        path: text("a.txt"),
        source_sha256: admission.files[0].source_sha256.clone(),
        source: text("alpha\n"),
        byte_start: 0,
        byte_end: 6,
        replacement: text("alpha one\n"),
        result_sha256: sha256_hex(b"alpha one\n"),
        result: text("alpha one\n"),
    };
    let first = Generation { proposal_index: 0, admitted_path_index: 0, revision: 0, proposal };
    let revision = object(vec![("proposal", edit(Some("a.txt"), &a, 0, 6, "alpha two\n"))]);
    let second_proposal = parse_revision_response(&serde_json::to_vec(&revision).unwrap(), &first).unwrap();
    let second = Generation { proposal_index: 0, admitted_path_index: 0, revision: 1, proposal: second_proposal };
    let revision = object(vec![("proposal", edit(Some("a.txt"), &a, 0, 6, "alpha three\n"))]);
    assert_eq!(
        parse_revision_response(&serde_json::to_vec(&revision).unwrap(), &second).unwrap().result,
        text("alpha three\n")
    );

    let request = CommandRequest { schema: 1, attempt: 1, argv: admission.argv.clone() };
    let before = repository(&[("a.txt", "alpha two\n"), ("b.txt", "beta\n")]);
    let after = repository(&[("a.txt", "alpha two\n"), ("b.txt", "beta\n")]);
    let finished = finished(request.argv.clone(), 1, request_digest(1), 1, before, after);
    let response = format!(
        "PROPOSE 0\n{}",
        serde_json::to_string(&edit(None, &hex(b"alpha two\n"), 0, 10, "alpha fixed\n")).unwrap()
    );
    let ContinuationResponse::Proposal { admitted_path_index, proposal } =
        parse_continuation_response(response.as_bytes(), &admission, &finished).unwrap()
    else {
        panic!("expected proposal")
    };
    assert_eq!(admitted_path_index, 0);
    assert_eq!(proposal.source, text("alpha two\n"));
    assert_eq!(proposal.result, text("alpha fixed\n"));
}

#[test]
fn command_completion_binds_request_argv_and_repository_bytes() {
    let admission = admission();
    let request = CommandRequest { schema: 1, attempt: 2, argv: admission.argv.clone() };
    let mut finished = finished(
        request.argv.clone(),
        request.attempt,
        request_digest(2),
        0,
        repository(&[("a.txt", "alpha\n"), ("b.txt", "beta\n")]),
        repository(&[("a.txt", "alpha\n"), ("b.txt", "beta\n")]),
    );
    let expected = vec![text("alpha\n"), text("beta\n")];
    assert!(validate_command_finished(&finished, &request, &admission, &expected).is_ok());
    finished.argv.push(text("--changed"));
    assert!(validate_command_finished(&finished, &request, &admission, &expected).is_err());
    finished.argv = request.argv.clone();
    finished.repository_after.files[0].content = Some(text("tampered\n"));
    assert!(validate_command_finished(&finished, &request, &admission, &expected).is_err());
}
