//! The repository task: admission of sources, strict ranged edits proposed by
//! a model, generations of proposals, and the evidence of approved commands.

use vstd::prelude::*;
use vstd::utf8::is_continuation_byte;
use vstd::string::StringSliceAdditionalSpecFns;
use crate::composition::{bytes_equal, has_prefix};
use crate::digest::{
    le_bytes, le_u64_prefix, le_value, push_le_u64, sha256, sha256_digest, sha256_hex, spec_sha256_hex,
    spec_valid_sha256, valid_sha256,
};
use crate::json::{
    get, is_exact_object, json_well_formed, parse_json, parsed_json, spec_exact_object, spec_get,
    spec_str_field, spec_usize_field, str_field, usize_field, Json,
};
use crate::text::{
    blank, canonical_decimal, find_newline, first_newline, is_blank, is_canonical_decimal,
    parse_usize, spec_parse_usize, splice, splice_bytes,
};
use crate::orchestrator::{complete_summary, propose_remainder};
use vstd::slice::slice_subrange;
use vstd::utf8::valid_utf8;

verus! {

/// The largest prompt sent to the model, in bytes.
pub const MAX_MODEL_BYTES: usize = 3145728;

/// The largest task description, in bytes.
pub const MAX_TASK_BYTES: usize = 4096;
/// The largest admitted source, in bytes.
pub const MAX_SOURCE_BYTES: usize = 32768;
/// The largest model response, in bytes.
pub const MAX_RESPONSE_BYTES: usize = 65536;
/// The largest rejection feedback, in bytes.
pub const MAX_FEEDBACK_BYTES: usize = 4096;
/// The largest completion summary, in bytes.
pub const MAX_COMPLETION_BYTES: usize = 4096;
/// The largest command argument, in bytes.
pub const MAX_ARG_BYTES: usize = 4096;
/// The largest command vector, in bytes.
pub const MAX_ARGV_BYTES: usize = 32768;
/// The most command arguments.
pub const MAX_ARGC: usize = 1024;

/// Status of malformed input.
pub const INVALID: i32 = 4;
/// Terminal failure: the credentials were refused.
pub const FAILURE_AUTHENTICATION: i32 = 11;
/// Terminal failure: the request was refused.
pub const FAILURE_REQUEST_REJECTED: i32 = 12;
/// Terminal failure: the remote side failed.
pub const FAILURE_REMOTE_FAILED: i32 = 13;
/// Terminal failure: the response was empty.
pub const FAILURE_EMPTY_RESPONSE: i32 = 14;
/// Terminal failure: the response exceeded its bound.
pub const FAILURE_RESPONSE_LIMIT: i32 = 15;
/// Terminal failure: the exchange broke its protocol.
pub const FAILURE_PROTOCOL: i32 = 16;
/// Terminal failure: the outcome cannot be known.
pub const FAILURE_AMBIGUOUS: i32 = 17;
/// Terminal failure: the user stopped the task.
pub const FAILURE_STOP: i32 = 18;

/// The byte-level test for a character boundary of UTF-8 text: the ends, or
/// a byte that does not continue a character.
pub open spec fn byte_boundary(b: Seq<u8>, i: int) -> bool {
    i == 0 || i == b.len() || (0 < i < b.len() && !is_continuation_byte(b[i]))
}

/// Returns whether `i` is a character boundary of the text `b`.
pub fn is_byte_boundary(b: &[u8], i: usize) -> (r: bool)
    ensures
        r == byte_boundary(b@, i as int),
{
    if i == 0 || i == b.len() {
        return true;
    }
    if i > b.len() {
        return false;
    }
    let byte = b[i];
    !(0x80 <= byte && byte <= 0xbf)
}

/// The failure category a task run ends with, from the status that stopped it.
pub open spec fn spec_terminal_failure(status: i32) -> i32 {
    let s = if status < 0 { -status } else { status as int };
    if s == FAILURE_AUTHENTICATION || s == FAILURE_REQUEST_REJECTED || s == FAILURE_REMOTE_FAILED
        || s == FAILURE_EMPTY_RESPONSE || s == FAILURE_RESPONSE_LIMIT || s == FAILURE_PROTOCOL
        || s == FAILURE_AMBIGUOUS || s == FAILURE_STOP {
        s as i32
    } else if s == 5 {
        FAILURE_RESPONSE_LIMIT
    } else if s == 10 {
        FAILURE_AMBIGUOUS
    } else {
        FAILURE_PROTOCOL
    }
}

/// Maps the status that stopped a task run to its failure category: the
/// terminal categories stand, a limit becomes a response limit, an ambiguity
/// stays ambiguous, anything else is a protocol failure.
pub fn terminal_failure(status: i32) -> (r: i32)
    requires
        status != i32::MIN,
    ensures
        r == spec_terminal_failure(status),
{
    let s = if status < 0 { -status } else { status };
    if s == FAILURE_AUTHENTICATION || s == FAILURE_REQUEST_REJECTED || s == FAILURE_REMOTE_FAILED
        || s == FAILURE_EMPTY_RESPONSE || s == FAILURE_RESPONSE_LIMIT || s == FAILURE_PROTOCOL
        || s == FAILURE_AMBIGUOUS || s == FAILURE_STOP {
        s
    } else if s == 5 {
        FAILURE_RESPONSE_LIMIT
    } else if s == 10 {
        FAILURE_AMBIGUOUS
    } else {
        FAILURE_PROTOCOL
    }
}

/// Classifying a status twice gives the same category as classifying it once:
/// every category is itself a terminal status.
pub proof fn lemma_terminal_failure_idempotent(status: i32)
    requires
        status != i32::MIN,
    ensures
        spec_terminal_failure(spec_terminal_failure(status)) == spec_terminal_failure(status),
        FAILURE_AUTHENTICATION <= spec_terminal_failure(status) <= FAILURE_STOP,
{
}

/// The status a task run reports for the outcome of one step: one after
/// success, else the negated failure category.
pub fn orchestrate(outcome: Result<(), i32>) -> (r: i32)
    requires
        outcome matches Err(status) ==> status != i32::MIN,
    ensures
        r == (match outcome {
            Ok(()) => 1int,
            Err(status) => -spec_terminal_failure(status),
        }),
{
    match outcome {
        Ok(()) => 1,
        Err(status) => -terminal_failure(status),
    }
}

/// Accepts an encoded prompt of one to `MAX_MODEL_BYTES` bytes.
pub fn check_model_bytes(bytes: &[u8]) -> (r: Result<(), i32>)
    ensures
        r == (if bytes@.len() == 0 || bytes@.len() > MAX_MODEL_BYTES { Err::<(), i32>(INVALID) } else { Ok(()) }),
{
    if bytes.len() == 0 || bytes.len() > MAX_MODEL_BYTES { Err(INVALID) } else { Ok(()) }
}

/// Accepts a zero status and passes any other on as the error.
pub fn checked(status: i32) -> (r: Result<i32, i32>)
    ensures
        r == (if status == 0 { Ok::<i32, i32>(status) } else { Err(status) }),
{
    if status == 0 { Ok(status) } else { Err(status) }
}

/// Accepts a non-negative value and negates a negative one into the error.
pub fn checked_i32(value: i32) -> (r: Result<i32, i32>)
    requires
        value != i32::MIN,
    ensures
        r == (if value < 0 { Err::<i32, i32>((-value) as i32) } else { Ok(value) }),
{
    if value < 0 { Err(-value) } else { Ok(value) }
}

/// Accepts a non-negative value and negates a negative one into the error,
/// keeping the low 32 bits as `as i32` does.
pub fn checked_i64(value: i64) -> (r: Result<i64, i32>)
    requires
        value != i64::MIN,
    ensures
        r == (if value < 0 { Err::<i64, i32>((-value) as i32) } else { Ok(value) }),
{
    if value < 0 { Err((-value) as i32) } else { Ok(value) }
}

/// Accepts a response of one to `MAX_RESPONSE_BYTES` bytes.
pub fn check_response_bound(bytes: &[u8]) -> (r: Result<(), i32>)
    ensures
        r == (if bytes@.len() == 0 || bytes@.len() > MAX_RESPONSE_BYTES { Err::<(), i32>(INVALID) } else { Ok(()) }),
{
    if bytes.len() == 0 || bytes.len() > MAX_RESPONSE_BYTES { Err(INVALID) } else { Ok(()) }
}

/// The sum of the lengths of some byte strings.
pub open spec fn total_len(items: Seq<Vec<u8>>) -> nat
    decreases items.len(),
{
    if items.len() == 0 {
        0
    } else {
        total_len(items.drop_last()) + items.last()@.len()
    }
}

/// A command vector: one to `MAX_ARGC` non-empty arguments of at most
/// `MAX_ARG_BYTES` each and at most `MAX_ARGV_BYTES` together.
pub open spec fn spec_valid_argv(argv: Seq<Vec<u8>>) -> bool {
    &&& argv.len() > 0
    &&& argv.len() <= MAX_ARGC
    &&& forall|i: int| 0 <= i < argv.len() ==> 0 < (#[trigger] argv[i])@.len() <= MAX_ARG_BYTES
    &&& total_len(argv) <= MAX_ARGV_BYTES
}

/// Accepts a valid command vector.
pub fn validate_argv(argv: &Vec<Vec<u8>>) -> (r: Result<(), i32>)
    ensures
        r == (if spec_valid_argv(argv@) { Ok::<(), i32>(()) } else { Err(INVALID) }),
{
    let mut total: usize = 0;
    let mut i: usize = 0;
    while i < argv.len()
        invariant
            i <= argv@.len(),
            total as nat == total_len(argv@.take(i as int)),
            forall|k: int| 0 <= k < i ==> 0 < (#[trigger] argv@[k])@.len() <= MAX_ARG_BYTES,
        decreases argv@.len() - i,
    {
        let argument = &argv[i];
        assert(argv@.take(i + 1).drop_last() == argv@.take(i as int));
        if argument.len() == 0 || argument.len() > MAX_ARG_BYTES {
            return Err(INVALID);
        }
        match total.checked_add(argument.len()) {
            Some(t) => {
                total = t;
            },
            None => {
                proof {
                    lemma_total_len_monotone(argv@, (i + 1) as nat);
                }
                return Err(INVALID);
            },
        }
        i += 1;
    }
    assert(argv@.take(argv@.len() as int) == argv@);
    if argv.len() == 0 || argv.len() > MAX_ARGC || total > MAX_ARGV_BYTES {
        Err(INVALID)
    } else {
        Ok(())
    }
}

/// The total length of a prefix never exceeds the total length.
pub proof fn lemma_total_len_monotone(items: Seq<Vec<u8>>, n: nat)
    requires
        n <= items.len(),
    ensures
        total_len(items.take(n as int)) <= total_len(items),
    decreases items.len() - n,
{
    if n < items.len() {
        lemma_total_len_monotone(items, n + 1);
        assert(items.take((n + 1) as int).drop_last() == items.take(n as int));
    } else {
        assert(items.take(n as int) == items);
    }
}


/// A source file admitted to the task, with its digest.
#[derive(Debug, PartialEq, Eq)]
pub struct AdmittedFile {
    pub path: Vec<u8>,
    pub source_sha256: Vec<u8>,
    pub content: Vec<u8>,
}

/// The durable admission of a task: its text, command vector, and sources.
#[derive(Debug, PartialEq, Eq)]
pub struct Admission {
    pub schema: u32,
    pub task: Vec<u8>,
    pub argv: Vec<Vec<u8>>,
    pub files: Vec<AdmittedFile>,
}

/// One ranged edit of an admitted source and its result.
#[derive(Debug, PartialEq, Eq)]
pub struct Proposal {
    pub path: Vec<u8>,
    pub source_sha256: Vec<u8>,
    pub source: Vec<u8>,
    pub byte_start: usize,
    pub byte_end: usize,
    pub replacement: Vec<u8>,
    pub result_sha256: Vec<u8>,
    pub result: Vec<u8>,
}

/// The current revision of one proposal.
#[derive(Debug, PartialEq, Eq)]
pub struct Generation {
    pub proposal_index: usize,
    pub admitted_path_index: usize,
    pub revision: u32,
    pub proposal: Proposal,
}

/// The identity of one reviewed generation and its mutation operation.
#[derive(Clone, Copy, Debug, PartialEq, Eq, Structural)]
pub struct Operation {
    pub proposal_index: usize,
    pub source: usize,
    pub revision: u32,
    pub operation: u64,
}

/// A nonzero identifier from a digest: its first eight bytes read least
/// significant first, or one where they are all zero.
pub open spec fn digest_id(digest: Seq<u8>) -> u64 {
    let v = le_value(digest, 0);
    if v == 0 {
        1
    } else {
        v as u64
    }
}

/// The operation that applies a generation, identified by the digest of the
/// generation's canonical encoding.
pub open spec fn spec_operation(g: GenerationView, canonical: Seq<u8>) -> Operation {
    Operation {
        proposal_index: g.proposal_index,
        source: g.admitted_path_index,
        revision: g.revision,
        operation: digest_id(sha256_digest(canonical)),
    }
}

/// Returns the operation of a generation whose canonical encoding is
/// `canonical`.
pub fn operation(generation: &Generation, canonical: &[u8]) -> (r: Operation)
    ensures
        r == spec_operation(generation@, canonical@),
{
    let digest = sha256(canonical);
    proof {
        crate::digest::lemma_le_value_bound(digest@, 0);
        assert(crate::digest::pow256(8) == 0x1_0000_0000_0000_0000) by {
            reveal_with_fuel(crate::digest::pow256, 9);
        }
    }
    let v = le_u64_prefix(digest.as_slice());
    Operation {
        proposal_index: generation.proposal_index,
        source: generation.admitted_path_index,
        revision: generation.revision,
        operation: if v == 0 { 1 } else { v },
    }
}

/// The invocation identifier of an exchange: from the digest of the slot and
/// the request position, each as eight bytes least significant first.
pub open spec fn spec_invocation(slot: u64, request_index: u64) -> u64 {
    digest_id(sha256_digest(le_bytes(slot as nat, 8) + le_bytes(request_index as nat, 8)))
}

/// Returns the invocation identifier of the exchange answering the request
/// at `request_index` through provider slot `slot`.
pub fn invocation(slot: u64, request_index: u64) -> (r: u64)
    ensures
        r == spec_invocation(slot, request_index),
{
    let mut bytes: Vec<u8> = Vec::new();
    push_le_u64(&mut bytes, slot);
    push_le_u64(&mut bytes, request_index);
    let digest = sha256(bytes.as_slice());
    let v = le_u64_prefix(digest.as_slice());
    if v == 0 { 1 } else { v }
}

/// The value of an admitted file.
pub struct AdmittedFileView {
    pub path: Seq<u8>,
    pub source_sha256: Seq<u8>,
    pub content: Seq<u8>,
}

/// The value of a proposal.
pub struct ProposalView {
    pub path: Seq<u8>,
    pub source_sha256: Seq<u8>,
    pub source: Seq<u8>,
    pub byte_start: usize,
    pub byte_end: usize,
    pub replacement: Seq<u8>,
    pub result_sha256: Seq<u8>,
    pub result: Seq<u8>,
}

/// The value of a generation.
pub struct GenerationView {
    pub proposal_index: usize,
    pub admitted_path_index: usize,
    pub revision: u32,
    pub proposal: ProposalView,
}

impl View for AdmittedFile {
    type V = AdmittedFileView;

    open spec fn view(&self) -> AdmittedFileView {
        AdmittedFileView { path: self.path@, source_sha256: self.source_sha256@, content: self.content@ }
    }
}

impl View for Proposal {
    type V = ProposalView;

    open spec fn view(&self) -> ProposalView {
        ProposalView {
            path: self.path@,
            source_sha256: self.source_sha256@,
            source: self.source@,
            byte_start: self.byte_start,
            byte_end: self.byte_end,
            replacement: self.replacement@,
            result_sha256: self.result_sha256@,
            result: self.result@,
        }
    }
}

impl View for Generation {
    type V = GenerationView;

    open spec fn view(&self) -> GenerationView {
        GenerationView {
            proposal_index: self.proposal_index,
            admitted_path_index: self.admitted_path_index,
            revision: self.revision,
            proposal: self.proposal@,
        }
    }
}

/// A copy of some bytes.
pub fn copy_bytes(b: &Vec<u8>) -> (r: Vec<u8>)
    ensures
        r@ == b@,
{
    vstd::slice::slice_to_vec(b.as_slice())
}

/// A copy of a proposal.
pub fn copy_proposal(p: &Proposal) -> (r: Proposal)
    ensures
        r@ == p@,
{
    Proposal {
        path: copy_bytes(&p.path),
        source_sha256: copy_bytes(&p.source_sha256),
        source: copy_bytes(&p.source),
        byte_start: p.byte_start,
        byte_end: p.byte_end,
        replacement: copy_bytes(&p.replacement),
        result_sha256: copy_bytes(&p.result_sha256),
        result: copy_bytes(&p.result),
    }
}

/// A copy of a generation.
pub fn copy_generation(g: &Generation) -> (r: Generation)
    ensures
        r@ == g@,
{
    Generation {
        proposal_index: g.proposal_index,
        admitted_path_index: g.admitted_path_index,
        revision: g.revision,
        proposal: copy_proposal(&g.proposal),
    }
}

/// Whether two proposals are equal.
pub fn proposals_equal(a: &Proposal, b: &Proposal) -> (r: bool)
    ensures
        r == (a@ == b@),
{
    bytes_equal(a.path.as_slice(), b.path.as_slice())
        && bytes_equal(a.source_sha256.as_slice(), b.source_sha256.as_slice())
        && bytes_equal(a.source.as_slice(), b.source.as_slice()) && a.byte_start == b.byte_start
        && a.byte_end == b.byte_end && bytes_equal(a.replacement.as_slice(), b.replacement.as_slice())
        && bytes_equal(a.result_sha256.as_slice(), b.result_sha256.as_slice())
        && bytes_equal(a.result.as_slice(), b.result.as_slice())
}

/// One admitted file is well formed: a non-empty path, non-empty content of
/// at most `MAX_SOURCE_BYTES`, and its own digest.
pub open spec fn admitted_file_valid(f: AdmittedFileView) -> bool {
    &&& f.path.len() > 0
    &&& f.content.len() > 0
    &&& f.content.len() <= MAX_SOURCE_BYTES
    &&& f.source_sha256 == spec_sha256_hex(f.content)
}

/// An admission is valid for `source_count` sources: schema 2, a non-empty
/// task of bounded length, a valid command vector, and exactly that many well
/// formed files with distinct paths.
pub open spec fn spec_admission_valid(a: Admission, source_count: usize) -> bool {
    &&& a.schema == 2
    &&& a.task@.len() > 0
    &&& a.task@.len() <= MAX_TASK_BYTES
    &&& a.files@.len() == source_count
    &&& spec_valid_argv(a.argv@)
    &&& forall|i: int| 0 <= i < a.files@.len() ==> admitted_file_valid(#[trigger] a.files@[i]@)
    &&& forall|i: int, j: int| 0 <= i < j < a.files@.len() ==> #[trigger] a.files@[i].path@ != #[trigger] a.files@[j].path@
}

/// Accepts a valid admission.
pub fn validate_admission(admission: &Admission, source_count: usize) -> (r: Result<(), i32>)
    ensures
        r == (if spec_admission_valid(*admission, source_count) { Ok::<(), i32>(()) } else { Err(INVALID) }),
{
    if admission.schema != 2 || admission.task.len() == 0 || admission.task.len() > MAX_TASK_BYTES
        || admission.files.len() != source_count || validate_argv(&admission.argv).is_err() {
        return Err(INVALID);
    }
    let files = &admission.files;
    let mut i: usize = 0;
    while i < files.len()
        invariant
            i <= files@.len(),
            files == &admission.files,
            forall|k: int| 0 <= k < i ==> admitted_file_valid(#[trigger] files@[k]@),
            forall|k: int, l: int| 0 <= k < l < i ==> #[trigger] files@[k].path@ != #[trigger] files@[l].path@,
        decreases files@.len() - i,
    {
        let file = &files[i];
        if file.path.len() == 0 || file.content.len() == 0 || file.content.len() > MAX_SOURCE_BYTES {
            assert(!admitted_file_valid(files@[i as int]@));
            return Err(INVALID);
        }
        let mut j: usize = 0;
        while j < i
            invariant
                j <= i < files@.len(),
                files == &admission.files,
                file == &files@[i as int],
                forall|k: int| 0 <= k < j ==> files@[k].path@ != file.path@,
            decreases i - j,
        {
            if bytes_equal(files[j].path.as_slice(), file.path.as_slice()) {
                assert(files@[j as int].path@ == files@[i as int].path@);
                return Err(INVALID);
            }
            j += 1;
        }
        if !bytes_equal(file.source_sha256.as_slice(), sha256_hex(file.content.as_slice()).as_slice()) {
            assert(!admitted_file_valid(files@[i as int]@));
            return Err(INVALID);
        }
        i += 1;
    }
    Ok(())
}

/// The task input snapshot: the task, the command vector, and the paths of
/// the sources to admit.
#[derive(Debug, PartialEq, Eq)]
pub struct TaskInput {
    pub schema: u32,
    pub task: Vec<u8>,
    pub argv: Vec<Vec<u8>>,
    pub sources: Vec<Vec<u8>>,
}

/// The admitted files of the first `n` sources from their workspace reads:
/// each read must succeed and hold UTF-8 text, admitted with its digest.
pub open spec fn admitted_files(sources: Seq<Vec<u8>>, reads: Seq<Result<Vec<u8>, i32>>, n: nat) -> Result<Seq<AdmittedFileView>, i32>
    decreases n,
{
    if n == 0 {
        Ok(Seq::empty())
    } else {
        match admitted_files(sources, reads, (n - 1) as nat) {
            Err(c) => Err(c),
            Ok(files) => match reads[n - 1] {
                Err(status) => Err(status),
                Ok(bytes) => if !valid_utf8(bytes@) {
                    Err(INVALID)
                } else {
                    Ok(files.push(AdmittedFileView {
                        path: sources[n - 1]@,
                        source_sha256: spec_sha256_hex(bytes@),
                        content: bytes@,
                    }))
                },
            },
        }
    }
}

/// Admitted files are well formed and have distinct paths.
pub open spec fn files_valid(files: Seq<AdmittedFileView>) -> bool {
    &&& forall|i: int| 0 <= i < files.len() ==> admitted_file_valid(#[trigger] files[i])
    &&& forall|i: int, j: int| 0 <= i < j < files.len() ==> #[trigger] files[i].path != #[trigger] files[j].path
}

/// The admission of a task input: schema 2 naming exactly `source_count`
/// sources, each admitted from its workspace read, and a valid admission.
pub open spec fn spec_admit(input: TaskInput, reads: Seq<Result<Vec<u8>, i32>>, source_count: usize) -> Result<Seq<AdmittedFileView>, i32> {
    if input.schema != 2 || input.sources@.len() != source_count {
        Err(INVALID)
    } else {
        match admitted_files(input.sources@, reads, source_count as nat) {
            Err(c) => Err(c),
            Ok(files) => if input.task@.len() == 0 || input.task@.len() > MAX_TASK_BYTES || !spec_valid_argv(input.argv@)
                || !files_valid(files) {
                Err(INVALID)
            } else {
                Ok(files)
            },
        }
    }
}

/// Admits a task from its input and the reads of its source workspaces, in
/// source order.
pub fn admit_task(input: TaskInput, reads: &Vec<Result<Vec<u8>, i32>>, source_count: usize) -> (r: Result<Admission, i32>)
    requires
        reads@.len() == source_count,
    ensures
        match r {
            Ok(a) => spec_admit(input, reads@, source_count) == Ok::<Seq<AdmittedFileView>, i32>(a.files@.map_values(|f: AdmittedFile| f@))
                && a.schema == 2 && a.task == input.task && a.argv == input.argv && spec_admission_valid(a, source_count),
            Err(c) => spec_admit(input, reads@, source_count) == Err::<Seq<AdmittedFileView>, i32>(c),
        },
{
    if input.schema != 2 || input.sources.len() != source_count {
        return Err(INVALID);
    }
    let ghost sources = input.sources@;
    let mut files: Vec<AdmittedFile> = Vec::new();
    let mut k: usize = 0;
    assert(files@.map_values(|f: AdmittedFile| f@) =~= Seq::<AdmittedFileView>::empty());
    while k < source_count
        invariant
            k <= source_count,
            files@.len() == k,
            input.schema == 2,
            reads@.len() == source_count,
            sources == input.sources@,
            sources.len() == source_count,
            admitted_files(sources, reads@, k as nat) == Ok::<Seq<AdmittedFileView>, i32>(files@.map_values(|f: AdmittedFile| f@)),
        decreases source_count - k,
    {
        let bytes = match &reads[k] {
            Err(status) => {
                assert(reads@[k as int] == Err::<Vec<u8>, i32>(*status));
                assert(admitted_files(sources, reads@, (k + 1) as nat) == Err::<Seq<AdmittedFileView>, i32>(*status));
                proof { lemma_admitted_files_stable(sources, reads@, (k + 1) as nat, source_count as nat); }
                return Err(*status);
            },
            Ok(bytes) => bytes,
        };
        if crate::text::utf8_text(bytes.as_slice()).is_none() {
            proof { lemma_admitted_files_stable(sources, reads@, (k + 1) as nat, source_count as nat); }
            return Err(INVALID);
        }
        let ghost before = files@;
        files.push(AdmittedFile {
            path: copy_bytes(&input.sources[k]),
            source_sha256: sha256_hex(bytes.as_slice()),
            content: copy_bytes(bytes),
        });
        assert(files@.map_values(|f: AdmittedFile| f@) =~= before.map_values(|f: AdmittedFile| f@).push(files@[k as int]@));
        k += 1;
    }
    let admission = Admission { schema: 2, task: input.task, argv: input.argv, files };
    let ghost views = admission.files@.map_values(|f: AdmittedFile| f@);
    assert forall|i: int| 0 <= i < views.len() implies views[i] == #[trigger] admission.files@[i]@ by {}
    if validate_admission(&admission, source_count).is_err() {
        proof {
            if files_valid(views) {
                assert forall|i: int| 0 <= i < admission.files@.len() implies admitted_file_valid(#[trigger] admission.files@[i]@) by {
                    assert(admitted_file_valid(views[i]));
                }
                assert forall|i: int, j: int| 0 <= i < j < admission.files@.len() implies #[trigger] admission.files@[i].path@ != #[trigger] admission.files@[j].path@ by {
                    assert(views[i].path != views[j].path);
                }
            }
        }
        return Err(INVALID);
    }
    proof {
        assert forall|i: int| 0 <= i < views.len() implies admitted_file_valid(#[trigger] views[i]) by {
            assert(admitted_file_valid(admission.files@[i]@));
        }
        assert forall|i: int, j: int| 0 <= i < j < views.len() implies #[trigger] views[i].path != #[trigger] views[j].path by {
            assert(admission.files@[i].path@ != admission.files@[j].path@);
        }
    }
    Ok(admission)
}

/// A refused source refuses the admission.
pub proof fn lemma_admitted_files_stable(sources: Seq<Vec<u8>>, reads: Seq<Result<Vec<u8>, i32>>, m: nat, n: nat)
    requires
        m <= n,
        admitted_files(sources, reads, m) is Err,
    ensures
        admitted_files(sources, reads, n) == admitted_files(sources, reads, m),
    decreases n - m,
{
    if m < n {
        lemma_admitted_files_stable(sources, reads, m, (n - 1) as nat);
    }
}

/// The proposal a ranged edit of `admitted` makes, when the edit is strict:
/// the stated source digest is the admitted one, the range lies on character
/// boundaries, and the result is non-empty, bounded, and differs from the
/// source. The path is the edit's own when `has_path`, else the file's.
pub open spec fn spec_ranged_edit(wire: Json, admitted: AdmittedFileView, has_path: bool) -> Option<ProposalView> {
    match spec_str_field(wire, "source_sha256".spec_bytes()) {
        None => None,
        Some(source_sha256) => if !spec_valid_sha256(source_sha256) || source_sha256 != admitted.source_sha256 {
            None
        } else {
            match (spec_usize_field(wire, "byte_start".spec_bytes()), spec_usize_field(wire, "byte_end".spec_bytes())) {
                (Some(start), Some(end)) => if start > end || end > admitted.content.len()
                    || !byte_boundary(admitted.content, start as int)
                    || !byte_boundary(admitted.content, end as int) {
                    None
                } else {
                    match spec_str_field(wire, "replacement".spec_bytes()) {
                        None => None,
                        Some(replacement) => {
                            let result = splice(admitted.content, start as int, end as int, replacement);
                            if result.len() == 0 || result.len() > MAX_SOURCE_BYTES || result == admitted.content {
                                None
                            } else {
                                let path = if has_path { spec_str_field(wire, "path".spec_bytes()) } else { Some(admitted.path) };
                                match path {
                                    None => None,
                                    Some(path) => Some(ProposalView {
                                        path,
                                        source_sha256,
                                        source: admitted.content,
                                        byte_start: start,
                                        byte_end: end,
                                        replacement,
                                        result_sha256: spec_sha256_hex(result),
                                        result,
                                    }),
                                }
                            }
                        },
                    }
                },
                _ => None,
            }
        },
    }
}

/// The edits accepted are exactly the strict ones: where the edit names a
/// source digest, a byte range and a replacement, it is accepted if and
/// only if the digest is a well-formed one equal to the admitted file's,
/// the range runs forwards (an empty range, a pure insertion, included) and
/// ends inside the source on character boundaries, the spliced result is
/// non-empty, within the source bound and different from the source, and a
/// path is given where one is asked for; the accepted proposal is that very
/// splice of the admitted source. An edit lacking any of them is refused.
pub proof fn lemma_strict_edits_accepted(wire: Json, admitted: AdmittedFileView, has_path: bool)
    ensures
        match (spec_str_field(wire, "source_sha256".spec_bytes()), spec_usize_field(wire, "byte_start".spec_bytes()),
            spec_usize_field(wire, "byte_end".spec_bytes()), spec_str_field(wire, "replacement".spec_bytes())) {
            (Some(digest), Some(start), Some(end), Some(replacement)) => {
                let content = admitted.content;
                let result = splice(content, start as int, end as int, replacement);
                let strict = spec_valid_sha256(digest) && digest == admitted.source_sha256
                    && start <= end && end <= content.len()
                    && byte_boundary(content, start as int) && byte_boundary(content, end as int)
                    && result.len() > 0 && result.len() <= MAX_SOURCE_BYTES && result != content
                    && (has_path ==> spec_str_field(wire, "path".spec_bytes()) is Some);
                &&& strict ==> (spec_ranged_edit(wire, admitted, has_path) matches Some(p) && {
                    &&& p.source == content
                    &&& p.source_sha256 == digest
                    &&& p.byte_start == start
                    &&& p.byte_end == end
                    &&& p.replacement == replacement
                    &&& p.result == result
                    &&& p.result_sha256 == spec_sha256_hex(result)
                    &&& p.path == (if has_path { spec_str_field(wire, "path".spec_bytes())->0 } else { admitted.path })
                })
                &&& !strict ==> spec_ranged_edit(wire, admitted, has_path) is None
            },
            _ => spec_ranged_edit(wire, admitted, has_path) is None,
        },
{
}

/// Reads one strict ranged edit of `admitted` into a proposal.
pub fn parse_ranged_edit(wire: &Json, admitted: &AdmittedFile, has_path: bool) -> (r: Result<Proposal, i32>)
    requires
        json_well_formed(*wire),
    ensures
        match r {
            Ok(p) => spec_ranged_edit(*wire, admitted@, has_path) == Some(p@),
            Err(c) => c == INVALID && spec_ranged_edit(*wire, admitted@, has_path) is None,
        },
{
    let source_sha256 = match str_field(wire, "source_sha256".as_bytes()) {
        Some(s) => s,
        None => return Err(INVALID),
    };
    if !valid_sha256(source_sha256) || !bytes_equal(source_sha256, admitted.source_sha256.as_slice()) {
        return Err(INVALID);
    }
    let start = match usize_field(wire, "byte_start".as_bytes()) {
        Some(v) => v,
        None => return Err(INVALID),
    };
    let end = match usize_field(wire, "byte_end".as_bytes()) {
        Some(v) => v,
        None => return Err(INVALID),
    };
    let content = admitted.content.as_slice();
    if start > end || end > content.len() || !is_byte_boundary(content, start) || !is_byte_boundary(content, end) {
        return Err(INVALID);
    }
    let replacement = match str_field(wire, "replacement".as_bytes()) {
        Some(s) => s,
        None => return Err(INVALID),
    };
    let kept = content.len() - (end - start);
    if replacement.len() > usize::MAX - kept {
        return Err(INVALID);
    }
    let result_len = kept + replacement.len();
    if result_len == 0 || result_len > MAX_SOURCE_BYTES {
        return Err(INVALID);
    }
    let result = splice_bytes(content, start, end, replacement);
    if bytes_equal(result.as_slice(), content) {
        return Err(INVALID);
    }
    let path = if has_path {
        match str_field(wire, "path".as_bytes()) {
            Some(p) => vstd::slice::slice_to_vec(p),
            None => return Err(INVALID),
        }
    } else {
        copy_bytes(&admitted.path)
    };
    let result_sha256 = sha256_hex(result.as_slice());
    Ok(Proposal {
        path,
        source_sha256: vstd::slice::slice_to_vec(source_sha256),
        source: copy_bytes(&admitted.content),
        byte_start: start,
        byte_end: end,
        replacement: vstd::slice::slice_to_vec(replacement),
        result_sha256,
        result,
    })
}


/// The first admitted file among `files[start..]` with path `path`.
pub open spec fn find_admitted(files: Seq<AdmittedFile>, path: Seq<u8>, start: nat) -> Option<AdmittedFileView>
    decreases files.len() - start,
{
    if start >= files.len() {
        None
    } else if files[start as int].path@ == path {
        Some(files[start as int]@)
    } else {
        find_admitted(files, path, start + 1)
    }
}

/// Returns the first admitted file with path `path`.
fn admitted_with_path<'a>(files: &'a Vec<AdmittedFile>, path: &[u8]) -> (r: Option<&'a AdmittedFile>)
    ensures
        match r {
            Some(f) => find_admitted(files@, path@, 0) == Some(f@),
            None => find_admitted(files@, path@, 0) is None,
        },
{
    let mut i: usize = 0;
    while i < files.len()
        invariant
            i <= files@.len(),
            find_admitted(files@, path@, 0) == find_admitted(files@, path@, i as nat),
        decreases files@.len() - i,
    {
        if bytes_equal(files[i].path.as_slice(), path) {
            return Some(&files[i]);
        }
        i += 1;
    }
    None
}

/// The keys of a ranged edit that names its file.
pub open spec fn task_edit_keys() -> Seq<Seq<u8>> {
    seq![
        "path".spec_bytes(),
        "source_sha256".spec_bytes(),
        "byte_start".spec_bytes(),
        "byte_end".spec_bytes(),
        "replacement".spec_bytes(),
    ]
}

/// The keys of a ranged edit that names its file.
fn task_edit_keys_list() -> (r: Vec<&'static [u8]>)
    ensures
        r@.map_values(|k: &[u8]| k@) == task_edit_keys(),
{
    let r = vec![
        "path".as_bytes(),
        "source_sha256".as_bytes(),
        "byte_start".as_bytes(),
        "byte_end".as_bytes(),
        "replacement".as_bytes(),
    ];
    assert(r@.map_values(|k: &[u8]| k@) =~= task_edit_keys());
    r
}

/// The keys of a ranged edit of a selected source.
pub open spec fn task_bare_edit_keys() -> Seq<Seq<u8>> {
    seq![
        "source_sha256".spec_bytes(),
        "byte_start".spec_bytes(),
        "byte_end".spec_bytes(),
        "replacement".spec_bytes(),
    ]
}

/// The keys of a ranged edit of a selected source.
fn task_bare_edit_keys_list() -> (r: Vec<&'static [u8]>)
    ensures
        r@.map_values(|k: &[u8]| k@) == task_bare_edit_keys(),
{
    let r = vec![
        "source_sha256".as_bytes(),
        "byte_start".as_bytes(),
        "byte_end".as_bytes(),
        "replacement".as_bytes(),
    ];
    assert(r@.map_values(|k: &[u8]| k@) =~= task_bare_edit_keys());
    r
}

/// The one-key list `[key]`.
fn single_key(key: &'static [u8]) -> (r: Vec<&'static [u8]>)
    ensures
        r@.map_values(|k: &[u8]| k@) == seq![key@],
{
    let r = vec![key];
    assert(r@.map_values(|k: &[u8]| k@) =~= seq![key@]);
    r
}

/// Proposal `i` of an initial response, when it is a strict ranged edit of a
/// distinct admitted path.
pub open spec fn initial_item(proposals: Seq<Json>, files: Seq<AdmittedFile>, i: int) -> Option<ProposalView> {
    let wire = proposals[i];
    if !spec_exact_object(wire, task_edit_keys()) {
        None
    } else {
        match spec_str_field(wire, "path".spec_bytes()) {
            None => None,
            Some(path) => if exists|j: int| 0 <= j < i && #[trigger] spec_str_field(proposals[j], "path".spec_bytes()) == Some(path) {
                None
            } else {
                match find_admitted(files, path, 0) {
                    None => None,
                    Some(admitted) => spec_ranged_edit(wire, admitted, true),
                }
            },
        }
    }
}

/// The proposals of the first `n` items of an initial response, when all are admitted.
pub open spec fn initial_items(proposals: Seq<Json>, files: Seq<AdmittedFile>, n: nat) -> Option<Seq<ProposalView>>
    decreases n,
{
    if n == 0 {
        Some(Seq::empty())
    } else {
        match initial_items(proposals, files, (n - 1) as nat) {
            None => None,
            Some(prev) => match initial_item(proposals, files, n - 1) {
                None => None,
                Some(p) => Some(prev.push(p)),
            },
        }
    }
}

/// Reading `n` proposals yields `n` proposals.
pub proof fn lemma_initial_items_len(proposals: Seq<Json>, files: Seq<AdmittedFile>, n: nat)
    ensures
        initial_items(proposals, files, n) matches Some(s) ==> s.len() == n,
    decreases n,
{
    if n > 0 {
        lemma_initial_items_len(proposals, files, (n - 1) as nat);
    }
}

/// An accepted initial response proposes at least two edits, and no more
/// than there are admitted files.
pub proof fn lemma_initial_response_size(bytes: Seq<u8>, admission: Admission)
    requires
        spec_initial_response(bytes, admission) is Some,
    ensures
        2 <= spec_initial_response(bytes, admission)->0.len() <= admission.files@.len(),
{
    let v = parsed_json(bytes)->0;
    let items = spec_get(v, "proposals".spec_bytes())->0->Array_0;
    lemma_initial_items_len(items@, admission.files@, items@.len());
}

/// The proposals an initial model response makes: a bounded JSON object with
/// exactly a `proposals` array of two up to one per admitted file, each a
/// strict ranged edit of a distinct admitted path.
pub open spec fn spec_initial_response(bytes: Seq<u8>, admission: Admission) -> Option<Seq<ProposalView>> {
    if bytes.len() == 0 || bytes.len() > MAX_RESPONSE_BYTES {
        None
    } else {
        match parsed_json(bytes) {
            None => None,
            Some(v) => if !spec_exact_object(v, seq!["proposals".spec_bytes()]) {
                None
            } else {
                match spec_get(v, "proposals".spec_bytes()) {
                    Some(Json::Array(items)) => if items@.len() < 2 || items@.len() > admission.files@.len() {
                        None
                    } else {
                        initial_items(items@, admission.files@, items@.len())
                    },
                    _ => None,
                }
            },
        }
    }
}

/// Checks proposal `i` of an initial response given the paths before it.
#[verifier::loop_isolation(false)]
fn initial_response_item(
    items: &Vec<Json>,
    files: &Vec<AdmittedFile>,
    i: usize,
    seen: &Vec<Vec<u8>>,
    keys: &[&[u8]],
) -> (r: Option<Proposal>)
    requires
        i < items@.len(),
        seen@.len() == i,
        forall|k: int| 0 <= k < items@.len() ==> json_well_formed(#[trigger] items@[k]),
        keys@.map_values(|k: &[u8]| k@) == task_edit_keys(),
        forall|k: int| 0 <= k < i ==> spec_str_field(#[trigger] items@[k], "path".spec_bytes()) == Some(seen@[k]@),
    ensures
        match r {
            Some(p) => initial_item(items@, files@, i as int) == Some(p@)
                && spec_str_field(items@[i as int], "path".spec_bytes()) == Some(p.path@),
            None => initial_item(items@, files@, i as int) is None,
        },
{
    let wire = &items[i];
    if !is_exact_object(wire, keys) {
        return None;
    }
    let path = match str_field(wire, "path".as_bytes()) {
        Some(p) => p,
        None => return None,
    };
    let mut j: usize = 0;
    while j < seen.len()
        invariant
            j <= seen@.len() == i,
            forall|k: int| 0 <= k < j ==> seen@[k]@ != path@,
        decreases seen@.len() - j,
    {
        if bytes_equal(seen[j].as_slice(), path) {
            assert(spec_str_field(items@[j as int], "path".spec_bytes()) == Some(path@));
            return None;
        }
        j += 1;
    }
    assert(!exists|k: int| 0 <= k < i && #[trigger] spec_str_field(items@[k], "path".spec_bytes()) == Some(path@));
    let admitted = match admitted_with_path(files, path) {
        Some(f) => f,
        None => return None,
    };
    match parse_ranged_edit(wire, admitted, true) {
        Ok(p) => Some(p),
        Err(_) => None,
    }
}

/// Reads the proposals of an initial model response.
pub fn parse_initial_response(bytes: &[u8], admission: &Admission) -> (r: Result<Vec<Proposal>, i32>)
    ensures
        match r {
            Ok(ps) => spec_initial_response(bytes@, *admission) == Some(ps@.map_values(|p: Proposal| p@)),
            Err(c) => c == INVALID && spec_initial_response(bytes@, *admission) is None,
        },
{
    if bytes.len() == 0 || bytes.len() > MAX_RESPONSE_BYTES {
        return Err(INVALID);
    }
    let v = match parse_json(bytes) {
        Some(v) => v,
        None => return Err(INVALID),
    };
    if !is_exact_object(&v, single_key("proposals".as_bytes()).as_slice()) {
        return Err(INVALID);
    }
    let items = match get(&v, "proposals".as_bytes()) {
        Some(Json::Array(items)) => items,
        _ => return Err(INVALID),
    };
    proof {
        assert(json_well_formed(Json::Array(*items)));
    }
    if items.len() < 2 || items.len() > admission.files.len() {
        return Err(INVALID);
    }
    let keys = task_edit_keys_list();
    let mut seen: Vec<Vec<u8>> = Vec::new();
    let mut out: Vec<Proposal> = Vec::new();
    let mut i: usize = 0;
    while i < items.len()
        invariant
            i <= items@.len(),
            seen@.len() == i,
            forall|k: int| 0 <= k < items@.len() ==> json_well_formed(#[trigger] items@[k]),
            keys@.map_values(|k: &[u8]| k@) == task_edit_keys(),
            forall|k: int| 0 <= k < i ==> spec_str_field(#[trigger] items@[k], "path".spec_bytes()) == Some(seen@[k]@),
            initial_items(items@, admission.files@, i as nat) == Some(out@.map_values(|p: Proposal| p@)),
            spec_initial_response(bytes@, *admission) == initial_items(items@, admission.files@, items@.len()),
        decreases items@.len() - i,
    {
        match initial_response_item(items, &admission.files, i, &seen, keys.as_slice()) {
            None => {
                proof {
                    lemma_initial_items_stable(items@, admission.files@, (i + 1) as nat, items@.len());
                }
                return Err(INVALID);
            },
            Some(p) => {
                let ghost before = out@;
                seen.push(copy_bytes(&p.path));
                out.push(p);
                assert(out@.map_values(|q: Proposal| q@) =~= before.map_values(|q: Proposal| q@).push(p@));
            },
        }
        i += 1;
    }
    Ok(out)
}

/// Once some item of an initial response is refused, the response is refused.
pub proof fn lemma_initial_items_stable(proposals: Seq<Json>, files: Seq<AdmittedFile>, m: nat, n: nat)
    requires
        m <= n,
        initial_items(proposals, files, m) is None,
    ensures
        initial_items(proposals, files, n) is None,
    decreases n - m,
{
    if m < n {
        lemma_initial_items_stable(proposals, files, m, (n - 1) as nat);
    }
}


/// The proposal a revision response makes for a rejected generation: one
/// strict ranged edit of the rejected source, on the same path, whose result
/// differs from the rejected result.
pub open spec fn spec_revision_response(bytes: Seq<u8>, generation: GenerationView) -> Option<ProposalView> {
    if bytes.len() == 0 || bytes.len() > MAX_RESPONSE_BYTES {
        None
    } else {
        match parsed_json(bytes) {
            None => None,
            Some(v) => if !spec_exact_object(v, seq!["proposal".spec_bytes()]) {
                None
            } else {
                match spec_get(v, "proposal".spec_bytes()) {
                    None => None,
                    Some(wire) => if !spec_exact_object(wire, task_edit_keys()) {
                        None
                    } else {
                        match spec_str_field(wire, "path".spec_bytes()) {
                            None => None,
                            Some(path) => if path != generation.proposal.path {
                                None
                            } else {
                                let admitted = AdmittedFileView {
                                    path: generation.proposal.path,
                                    source_sha256: generation.proposal.source_sha256,
                                    content: generation.proposal.source,
                                };
                                match spec_ranged_edit(wire, admitted, true) {
                                    None => None,
                                    Some(p) => if p.result == generation.proposal.result {
                                        None
                                    } else {
                                        Some(p)
                                    },
                                }
                            },
                        }
                    },
                }
            },
        }
    }
}

/// A revision response revises the rejected edit and nothing else: what it
/// yields edits the same path and the same source, with the source digest
/// the rejected generation had, and its result differs from the rejected
/// result; an empty or oversized response yields nothing.
pub proof fn lemma_revision_response_revises(bytes: Seq<u8>, generation: GenerationView)
    ensures
        spec_revision_response(bytes, generation) matches Some(p) ==> {
            &&& 0 < bytes.len() <= MAX_RESPONSE_BYTES
            &&& p.path == generation.proposal.path
            &&& p.source == generation.proposal.source
            &&& p.source_sha256 == generation.proposal.source_sha256
            &&& p.result != generation.proposal.result
            &&& p.result == splice(p.source, p.byte_start as int, p.byte_end as int, p.replacement)
            &&& p.byte_start <= p.byte_end <= p.source.len()
        },
{
}

/// Reads the revised proposal of a revision response.
pub fn parse_revision_response(bytes: &[u8], generation: &Generation) -> (r: Result<Proposal, i32>)
    ensures
        match r {
            Ok(p) => spec_revision_response(bytes@, generation@) == Some(p@),
            Err(c) => c == INVALID && spec_revision_response(bytes@, generation@) is None,
        },
{
    if bytes.len() == 0 || bytes.len() > MAX_RESPONSE_BYTES {
        return Err(INVALID);
    }
    let v = match parse_json(bytes) {
        Some(v) => v,
        None => return Err(INVALID),
    };
    if !is_exact_object(&v, single_key("proposal".as_bytes()).as_slice()) {
        return Err(INVALID);
    }
    let wire = match get(&v, "proposal".as_bytes()) {
        Some(w) => w,
        None => return Err(INVALID),
    };
    if !is_exact_object(wire, task_edit_keys_list().as_slice()) {
        return Err(INVALID);
    }
    let path = match str_field(wire, "path".as_bytes()) {
        Some(p) => p,
        None => return Err(INVALID),
    };
    if !bytes_equal(path, generation.proposal.path.as_slice()) {
        return Err(INVALID);
    }
    let admitted = AdmittedFile {
        path: copy_bytes(&generation.proposal.path),
        source_sha256: copy_bytes(&generation.proposal.source_sha256),
        content: copy_bytes(&generation.proposal.source),
    };
    let proposal = match parse_ranged_edit(wire, &admitted, true) {
        Ok(p) => p,
        Err(c) => return Err(c),
    };
    if bytes_equal(proposal.result.as_slice(), generation.proposal.result.as_slice()) {
        return Err(INVALID);
    }
    Ok(proposal)
}

/// One file of a repository identity as the command host reports it.
#[derive(Debug, PartialEq, Eq)]
pub struct RepositoryFile {
    pub byte_len: Option<u64>,
    pub content: Option<Vec<u8>>,
    pub path: Vec<u8>,
    pub sha256: Option<Vec<u8>>,
    pub status: Vec<u8>,
}

/// The identity of the repository around a command.
#[derive(Debug, PartialEq, Eq)]
pub struct RepositoryIdentity {
    pub canonical_root: Vec<u8>,
    pub canonical_root_sha256: Vec<u8>,
    pub files: Vec<RepositoryFile>,
}

/// A bounded capture of one output stream.
#[derive(Debug, PartialEq, Eq)]
pub struct BoundedOutput {
    pub content: Vec<u8>,
    pub encoding: Vec<u8>,
    pub read_error: Option<Vec<u8>>,
    pub truncated: bool,
}

/// The request to run the approved command vector once more.
#[derive(Debug, PartialEq, Eq)]
pub struct CommandRequest {
    pub schema: u32,
    pub attempt: u64,
    pub argv: Vec<Vec<u8>>,
}

/// The evidence of one finished command.
#[derive(Debug, PartialEq, Eq)]
pub struct CommandFinished {
    pub argv: Vec<Vec<u8>>,
    pub attempt: u64,
    pub command_started_sha256: Vec<u8>,
    pub duration_ms: u64,
    pub exit_code: Option<i32>,
    pub kind: Vec<u8>,
    pub repository: RepositoryIdentity,
    pub repository_after: RepositoryIdentity,
    pub schema: u32,
    pub signal: Option<i32>,
    pub spawn_error: Option<Vec<u8>>,
    pub stderr: BoundedOutput,
    pub stdout: BoundedOutput,
    pub timed_out: bool,
}

impl CommandFinished {
    /// A command succeeded when it exited with code zero, unsignalled, spawned,
    /// in time, and both streams were read.
    pub open spec fn spec_succeeded(&self) -> bool {
        &&& self.exit_code == Some(0i32)
        &&& self.signal is None
        &&& self.spawn_error is None
        &&& !self.timed_out
        &&& self.stdout.read_error is None
        &&& self.stderr.read_error is None
    }

    /// Returns whether the command succeeded.
    pub fn succeeded(&self) -> (r: bool)
        ensures
            r == self.spec_succeeded(),
    {
        let exited_zero = match self.exit_code {
            Some(code) => code == 0,
            None => false,
        };
        exited_zero && self.signal.is_none() && self.spawn_error.is_none() && !self.timed_out
            && self.stdout.read_error.is_none() && self.stderr.read_error.is_none()
    }
}

/// A captured stream is valid: UTF-8 text or lowercase hexadecimal encoding
/// at most 32 KiB of output, with a read error of at most 4 KiB.
pub open spec fn spec_valid_output(output: BoundedOutput) -> bool {
    let content = output.content@;
    let encoded_len: Option<int> = if output.encoding@ == "utf-8".spec_bytes() {
        Some(content.len() as int)
    } else if output.encoding@ == "hex".spec_bytes() && content.len() % 2 == 0
        && forall|i: int| 0 <= i < content.len() ==> crate::digest::is_hex_lower(#[trigger] content[i]) {
        Some((content.len() / 2) as int)
    } else {
        None
    };
    match encoded_len {
        None => false,
        Some(n) => n <= 32 * 1024 && match output.read_error {
            None => true,
            Some(e) => e@.len() <= 4 * 1024,
        },
    }
}

/// Returns whether every byte is a lowercase hexadecimal digit.
fn all_hex_lower(b: &[u8]) -> (r: bool)
    ensures
        r == forall|i: int| 0 <= i < b@.len() ==> crate::digest::is_hex_lower(#[trigger] b@[i]),
{
    let mut i: usize = 0;
    while i < b.len()
        invariant
            i <= b@.len(),
            forall|k: int| 0 <= k < i ==> crate::digest::is_hex_lower(#[trigger] b@[k]),
        decreases b@.len() - i,
    {
        let c = b[i];
        if !((48 <= c && c <= 57) || (97 <= c && c <= 102)) {
            assert(!crate::digest::is_hex_lower(b@[i as int]));
            return false;
        }
        i += 1;
    }
    true
}

/// Returns whether a captured stream is valid.
pub fn valid_output(output: &BoundedOutput) -> (r: bool)
    ensures
        r == spec_valid_output(*output),
{
    let content = output.content.as_slice();
    let encoded_len: usize = if bytes_equal(output.encoding.as_slice(), "utf-8".as_bytes()) {
        content.len()
    } else if bytes_equal(output.encoding.as_slice(), "hex".as_bytes()) && content.len() % 2 == 0
        && all_hex_lower(content) {
        content.len() / 2
    } else {
        return false;
    };
    encoded_len <= 32 * 1024 && match &output.read_error {
        None => true,
        Some(e) => e.len() <= 4 * 1024,
    }
}

/// A repository file carries this content as a regular file with matching
/// length and digest.
pub open spec fn reports_content(file: RepositoryFile, path: Seq<u8>, content: Seq<u8>) -> bool {
    &&& file.path@ == path
    &&& file.status@ == "regular".spec_bytes()
    &&& (file.content matches Some(c) && c@ == content)
    &&& file.byte_len == Some(content.len() as u64)
    &&& (file.sha256 matches Some(d) && d@ == spec_sha256_hex(content))
}

/// The sources after a command: each admitted path paired with the file the
/// command host reports for it, which must be a regular, non-empty, bounded
/// file whose length and digest match its content.
pub open spec fn spec_continuation_sources(admission: Admission, finished: CommandFinished) -> Option<Seq<AdmittedFileView>> {
    let n = if admission.files@.len() <= finished.repository_after.files@.len() {
        admission.files@.len()
    } else {
        finished.repository_after.files@.len()
    };
    if forall|i: int| 0 <= i < n ==> source_after_ok(#[trigger] admission.files@[i], finished.repository_after.files@[i]) {
        Some(Seq::new(n as nat, |i: int| AdmittedFileView {
            path: finished.repository_after.files@[i].path@,
            source_sha256: spec_sha256_hex(finished.repository_after.files@[i].content.unwrap()@),
            content: finished.repository_after.files@[i].content.unwrap()@,
        }))
    } else {
        None
    }
}

/// A reported file is an admissible post-command source for an admitted file.
pub open spec fn source_after_ok(admitted: AdmittedFile, file: RepositoryFile) -> bool {
    match file.content {
        None => false,
        Some(content) => reports_content(file, admitted.path@, content@) && content@.len() > 0
            && content@.len() <= MAX_SOURCE_BYTES,
    }
}

/// Checks one reported file against its admitted file.
fn check_source_after(admitted: &AdmittedFile, file: &RepositoryFile) -> (r: Option<AdmittedFile>)
    ensures
        match r {
            Some(a) => source_after_ok(*admitted, *file) && a@ == (AdmittedFileView {
                path: file.path@,
                source_sha256: spec_sha256_hex(file.content.unwrap()@),
                content: file.content.unwrap()@,
            }),
            None => !source_after_ok(*admitted, *file),
        },
{
    let content = match &file.content {
        Some(c) => c,
        None => return None,
    };
    let digest = sha256_hex(content.as_slice());
    let len_ok = match file.byte_len {
        Some(n) => content.len() as u64 == n,
        None => false,
    };
    let sha_ok = match &file.sha256 {
        Some(d) => bytes_equal(d.as_slice(), digest.as_slice()),
        None => false,
    };
    if !bytes_equal(file.path.as_slice(), admitted.path.as_slice())
        || !bytes_equal(file.status.as_slice(), "regular".as_bytes()) || !len_ok || !sha_ok
        || content.len() == 0 || content.len() > MAX_SOURCE_BYTES {
        return None;
    }
    Some(AdmittedFile { path: copy_bytes(&file.path), source_sha256: digest, content: copy_bytes(content) })
}

/// Returns the sources after a command.
pub fn continuation_sources(admission: &Admission, finished: &CommandFinished) -> (r: Result<Vec<AdmittedFile>, i32>)
    ensures
        match r {
            Ok(v) => spec_continuation_sources(*admission, *finished) == Some(v@.map_values(|a: AdmittedFile| a@)),
            Err(c) => c == INVALID && spec_continuation_sources(*admission, *finished) is None,
        },
{
    let files = &admission.files;
    let after = &finished.repository_after.files;
    let n = if files.len() <= after.len() { files.len() } else { after.len() };
    let mut out: Vec<AdmittedFile> = Vec::new();
    let mut i: usize = 0;
    while i < n
        invariant
            i <= n,
            n == (if files@.len() <= after@.len() { files@.len() } else { after@.len() }),
            files == &admission.files,
            after == &finished.repository_after.files,
            out@.len() == i,
            forall|k: int| 0 <= k < i ==> source_after_ok(#[trigger] files@[k], after@[k]),
            forall|k: int| 0 <= k < i ==> (#[trigger] out@[k])@ == (AdmittedFileView {
                path: after@[k].path@,
                source_sha256: spec_sha256_hex(after@[k].content.unwrap()@),
                content: after@[k].content.unwrap()@,
            }),
        decreases n - i,
    {
        match check_source_after(&files[i], &after[i]) {
            Some(a) => {
                out.push(a);
            },
            None => {
                return Err(INVALID);
            },
        }
        i += 1;
    }
    assert(out@.map_values(|a: AdmittedFile| a@) =~= spec_continuation_sources(*admission, *finished).unwrap());
    Ok(out)
}


/// What a continuation response asks for.
#[derive(Debug, PartialEq, Eq)]
pub enum ContinuationResponse {
    Complete(Vec<u8>),
    Proposal { admitted_path_index: usize, proposal: Proposal },
}

/// The value of a continuation response.
pub enum ContinuationView {
    Complete(Seq<u8>),
    Proposal(usize, ProposalView),
}

impl View for ContinuationResponse {
    type V = ContinuationView;

    open spec fn view(&self) -> ContinuationView {
        match self {
            ContinuationResponse::Complete(s) => ContinuationView::Complete(s@),
            ContinuationResponse::Proposal { admitted_path_index, proposal } => ContinuationView::Proposal(
                *admitted_path_index,
                proposal@,
            ),
        }
    }
}

/// What a continuation response means: `COMPLETE` and a bounded, non-blank
/// UTF-8 summary, accepted only after a successful command; or
/// `PROPOSE <index>` in canonical decimal naming a post-command source,
/// then a strict ranged edit of that source.
pub open spec fn spec_continuation_response(bytes: Seq<u8>, admission: Admission, finished: CommandFinished) -> Option<ContinuationView> {
    if bytes.len() == 0 || bytes.len() > MAX_RESPONSE_BYTES {
        None
    } else {
        match complete_summary(bytes) {
            Some(summary) => if !finished.spec_succeeded() || summary.len() == 0
                || summary.len() > MAX_COMPLETION_BYTES || !valid_utf8(summary) || blank(summary) {
                None
            } else {
                Some(ContinuationView::Complete(summary))
            },
            None => match propose_remainder(bytes) {
                None => None,
                Some(remainder) => match first_newline(remainder) {
                    None => None,
                    Some(k) => {
                        let index_text = remainder.subrange(0, k);
                        if !canonical_decimal(index_text) || spec_parse_usize(index_text) is None {
                            None
                        } else {
                            let index = spec_parse_usize(index_text).unwrap();
                            match spec_continuation_sources(admission, finished) {
                                None => None,
                                Some(sources) => if index >= sources.len() {
                                    None
                                } else {
                                    match parsed_json(remainder.subrange(k + 1, remainder.len() as int)) {
                                        None => None,
                                        Some(v) => if !spec_exact_object(v, task_bare_edit_keys()) {
                                            None
                                        } else {
                                            match spec_ranged_edit(v, sources[index as int], false) {
                                                None => None,
                                                Some(p) => Some(ContinuationView::Proposal(index, p)),
                                            }
                                        },
                                    }
                                },
                            }
                        }
                    },
                },
            },
        }
    }
}

/// A continuation proposal edits one of the sources as the command left
/// them: its index names one of them, and the proposal is a strict ranged
/// edit of that source, whose result is the splice of its range.
pub proof fn lemma_continuation_proposal_edits_a_source(bytes: Seq<u8>, admission: Admission, finished: CommandFinished)
    ensures
        spec_continuation_response(bytes, admission, finished) matches Some(ContinuationView::Proposal(index, p)) ==> (
            spec_continuation_sources(admission, finished) matches Some(sources) && {
                &&& index < sources.len()
                &&& p.source == sources[index as int].content
                &&& p.path == sources[index as int].path
                &&& p.source_sha256 == sources[index as int].source_sha256
                &&& p.byte_start <= p.byte_end <= p.source.len()
                &&& p.result == splice(p.source, p.byte_start as int, p.byte_end as int, p.replacement)
                &&& p.result != p.source
            }),
{
}

/// `COMPLETE` is accepted only after the command succeeded.
pub proof fn lemma_complete_requires_success(bytes: Seq<u8>, admission: Admission, finished: CommandFinished)
    requires
        spec_continuation_response(bytes, admission, finished) matches Some(ContinuationView::Complete(_)),
    ensures
        finished.spec_succeeded(),
{
}

/// Whether some bytes are UTF-8.
fn is_utf8(b: &[u8]) -> (r: bool)
    ensures
        r == valid_utf8(b@),
{
    crate::text::utf8_text(b).is_some()
}

/// Reads a continuation response.
pub fn parse_continuation_response(bytes: &[u8], admission: &Admission, finished: &CommandFinished) -> (r: Result<ContinuationResponse, i32>)
    ensures
        match r {
            Ok(c) => spec_continuation_response(bytes@, *admission, *finished) == Some(c@),
            Err(c) => c == INVALID && spec_continuation_response(bytes@, *admission, *finished) is None,
        },
{
    if bytes.len() == 0 || bytes.len() > MAX_RESPONSE_BYTES {
        return Err(INVALID);
    }
    let complete = "COMPLETE\n".as_bytes();
    if has_prefix(bytes, complete) {
        let summary = slice_subrange(bytes, complete.len(), bytes.len());
        if !finished.succeeded() || summary.len() == 0 || summary.len() > MAX_COMPLETION_BYTES
            || !is_utf8(summary) || is_blank(summary) {
            return Err(INVALID);
        }
        return Ok(ContinuationResponse::Complete(vstd::slice::slice_to_vec(summary)));
    }
    let propose = "PROPOSE ".as_bytes();
    if !has_prefix(bytes, propose) {
        return Err(INVALID);
    }
    let remainder = slice_subrange(bytes, propose.len(), bytes.len());
    let k = match find_newline(remainder) {
        Some(k) => k,
        None => return Err(INVALID),
    };
    let index_text = slice_subrange(remainder, 0, k);
    if !is_canonical_decimal(index_text) {
        return Err(INVALID);
    }
    let index = match parse_usize(index_text) {
        Some(i) => i,
        None => return Err(INVALID),
    };
    let sources = match continuation_sources(admission, finished) {
        Ok(s) => s,
        Err(c) => return Err(c),
    };
    if index >= sources.len() {
        return Err(INVALID);
    }
    let n = remainder.len();
    let v = match parse_json(slice_subrange(remainder, k + 1, n)) {
        Some(v) => v,
        None => return Err(INVALID),
    };
    if !is_exact_object(&v, task_bare_edit_keys_list().as_slice()) {
        return Err(INVALID);
    }
    match parse_ranged_edit(&v, &sources[index], false) {
        Ok(p) => Ok(ContinuationResponse::Proposal { admitted_path_index: index, proposal: p }),
        Err(c) => Err(c),
    }
}

/// The views of a list of byte strings.
pub open spec fn texts(items: Seq<Vec<u8>>) -> Seq<Seq<u8>> {
    items.map_values(|v: Vec<u8>| v@)
}

/// Returns whether two lists of byte strings are equal.
pub fn texts_equal(a: &Vec<Vec<u8>>, b: &Vec<Vec<u8>>) -> (r: bool)
    ensures
        r == (texts(a@) == texts(b@)),
{
    if a.len() != b.len() {
        return false;
    }
    let mut i: usize = 0;
    while i < a.len()
        invariant
            i <= a@.len() == b@.len(),
            forall|k: int| 0 <= k < i ==> a@[k]@ == b@[k]@,
        decreases a@.len() - i,
    {
        if !bytes_equal(a[i].as_slice(), b[i].as_slice()) {
            assert(texts(a@)[i as int] != texts(b@)[i as int]);
            return false;
        }
        i += 1;
    }
    assert(texts(a@) =~= texts(b@));
    true
}

/// The fields of command evidence that do not depend on file contents are
/// consistent with the request and the admission.
pub open spec fn command_header_ok(f: CommandFinished, attempt: u64, argv: Seq<Seq<u8>>, admission: Admission) -> bool {
    &&& f.schema == 1
    &&& f.kind@ == "CommandFinished".spec_bytes()
    &&& f.attempt == attempt
    &&& texts(f.argv@) == argv
    &&& spec_valid_sha256(f.command_started_sha256@)
    &&& f.repository.canonical_root@ == f.repository_after.canonical_root@
    &&& f.repository.canonical_root_sha256@ == spec_sha256_hex(f.repository.canonical_root@)
    &&& f.repository_after.canonical_root_sha256@ == f.repository.canonical_root_sha256@
    &&& f.repository.files@.len() == admission.files@.len()
    &&& f.repository_after.files@.len() == admission.files@.len()
    &&& !(f.spawn_error is Some && (f.exit_code is Some || f.signal is Some || f.timed_out))
    &&& !(f.spawn_error is None && f.exit_code is None && f.signal is None)
    &&& spec_valid_output(f.stdout)
    &&& spec_valid_output(f.stderr)
}

/// Command evidence is admitted when it answers the request, reports before
/// the command exactly the sources the session expects, and reports
/// admissible sources after it.
pub open spec fn spec_command_finished(f: CommandFinished, attempt: u64, argv: Seq<Seq<u8>>, admission: Admission, expected: Seq<Seq<u8>>) -> bool {
    &&& command_header_ok(f, attempt, argv, admission)
    &&& expected.len() == admission.files@.len()
    &&& forall|i: int| 0 <= i < admission.files@.len() ==> reports_content(
        #[trigger] f.repository.files@[i],
        admission.files@[i].path@,
        expected[i],
    )
    &&& spec_continuation_sources(admission, f) is Some
}

/// Checks the evidence of a finished command.
pub fn validate_command_finished(
    finished: &CommandFinished,
    request: &CommandRequest,
    admission: &Admission,
    expected_sources: &Vec<Vec<u8>>,
) -> (r: Result<(), i32>)
    ensures
        r == (if spec_command_finished(*finished, request.attempt, texts(request.argv@), *admission, texts(expected_sources@)) {
            Ok::<(), i32>(())
        } else {
            Err(INVALID)
        }),
{
    let root_digest = sha256_hex(finished.repository.canonical_root.as_slice());
    if finished.schema != 1 || !bytes_equal(finished.kind.as_slice(), "CommandFinished".as_bytes())
        || finished.attempt != request.attempt || !texts_equal(&finished.argv, &request.argv)
        || !valid_sha256(finished.command_started_sha256.as_slice())
        || !bytes_equal(finished.repository.canonical_root.as_slice(), finished.repository_after.canonical_root.as_slice())
        || !bytes_equal(finished.repository.canonical_root_sha256.as_slice(), root_digest.as_slice())
        || !bytes_equal(finished.repository_after.canonical_root_sha256.as_slice(), finished.repository.canonical_root_sha256.as_slice())
        || finished.repository.files.len() != admission.files.len()
        || finished.repository_after.files.len() != admission.files.len()
        || (finished.spawn_error.is_some() && (finished.exit_code.is_some() || finished.signal.is_some() || finished.timed_out))
        || (finished.spawn_error.is_none() && finished.exit_code.is_none() && finished.signal.is_none())
        || !valid_output(&finished.stdout) || !valid_output(&finished.stderr) {
        return Err(INVALID);
    }
    if expected_sources.len() != admission.files.len() {
        return Err(INVALID);
    }
    let files = &admission.files;
    let reported = &finished.repository.files;
    let mut i: usize = 0;
    while i < files.len()
        invariant
            i <= files@.len(),
            files == &admission.files,
            reported == &finished.repository.files,
            reported@.len() == files@.len() == expected_sources@.len(),
            forall|k: int| 0 <= k < i ==> reports_content(#[trigger] reported@[k], files@[k].path@, expected_sources@[k]@),
        decreases files@.len() - i,
    {
        let file = &reported[i];
        let content = expected_sources[i].as_slice();
        assert(texts(expected_sources@)[i as int] == content@);
        let digest = sha256_hex(content);
        let content_ok = match &file.content {
            Some(c) => bytes_equal(c.as_slice(), content),
            None => false,
        };
        let len_ok = match file.byte_len {
            Some(n) => n == content.len() as u64,
            None => false,
        };
        let sha_ok = match &file.sha256 {
            Some(d) => bytes_equal(d.as_slice(), digest.as_slice()),
            None => false,
        };
        if !bytes_equal(file.path.as_slice(), files[i].path.as_slice())
            || !bytes_equal(file.status.as_slice(), "regular".as_bytes()) || !content_ok || !len_ok || !sha_ok {
            return Err(INVALID);
        }
        i += 1;
    }
    assert forall|k: int| 0 <= k < files@.len() implies reports_content(
        #[trigger] reported@[k],
        files@[k].path@,
        texts(expected_sources@)[k],
    ) by {
        assert(texts(expected_sources@)[k] == expected_sources@[k]@);
    }
    match continuation_sources(admission, finished) {
        Ok(_) => Ok(()),
        Err(c) => Err(c),
    }
}

/// A generation is consistent with the admission: its path is that of its
/// admitted file, its digests are those of its source and result, its range
/// lies on character boundaries, and its result is the edited source,
/// non-empty and bounded.
pub open spec fn spec_generation_valid(g: GenerationView, admission: Admission) -> bool {
    let p = g.proposal;
    &&& g.admitted_path_index < admission.files@.len()
    &&& p.path == admission.files@[g.admitted_path_index as int].path@
    &&& spec_valid_sha256(p.source_sha256)
    &&& p.source_sha256 == spec_sha256_hex(p.source)
    &&& p.byte_start <= p.byte_end <= p.source.len()
    &&& byte_boundary(p.source, p.byte_start as int)
    &&& byte_boundary(p.source, p.byte_end as int)
    &&& p.result_sha256 == spec_sha256_hex(p.result)
    &&& p.result.len() > 0
    &&& p.result.len() <= MAX_SOURCE_BYTES
    &&& splice(p.source, p.byte_start as int, p.byte_end as int, p.replacement) == p.result
}

/// Checks a generation against the admission.
pub fn validate_generation(generation: &Generation, admission: &Admission) -> (r: Result<(), i32>)
    ensures
        r == (if spec_generation_valid(generation@, *admission) { Ok::<(), i32>(()) } else { Err(INVALID) }),
{
    if generation.admitted_path_index >= admission.files.len() {
        return Err(INVALID);
    }
    let file = &admission.files[generation.admitted_path_index];
    let p = &generation.proposal;
    let source = p.source.as_slice();
    if !bytes_equal(p.path.as_slice(), file.path.as_slice()) || !valid_sha256(p.source_sha256.as_slice())
        || !bytes_equal(p.source_sha256.as_slice(), sha256_hex(source).as_slice())
        || p.byte_start > p.byte_end || p.byte_end > source.len()
        || !is_byte_boundary(source, p.byte_start) || !is_byte_boundary(source, p.byte_end)
        || !bytes_equal(p.result_sha256.as_slice(), sha256_hex(p.result.as_slice()).as_slice())
        || p.result.len() == 0 || p.result.len() > MAX_SOURCE_BYTES {
        return Err(INVALID);
    }
    let rebuilt = splice_bytes(source, p.byte_start, p.byte_end, p.replacement.as_slice());
    if !bytes_equal(rebuilt.as_slice(), p.result.as_slice()) {
        return Err(INVALID);
    }
    Ok(())
}


/// Event code: the task was admitted.
pub const EVENT_STARTED: u64 = 1;
/// Event code: the initial prompt.
pub const EVENT_INITIAL_PROMPT: u64 = 10;
/// Event code: the initial model response.
pub const EVENT_INITIAL_RESPONSE: u64 = 11;
/// Event code: a generation of a proposal.
pub const EVENT_GENERATION: u64 = 12;
/// Event code: a revision prompt.
pub const EVENT_REVISION_PROMPT: u64 = 13;
/// Event code: a revision response.
pub const EVENT_REVISION_RESPONSE: u64 = 14;
/// Event code: a review prompt.
pub const EVENT_REVIEW_PROMPT: u64 = 20;
/// Event code: a review response.
pub const EVENT_REVIEW_RESPONSE: u64 = 21;
/// Event code: a mutation was authorized.
pub const EVENT_MUTATION_AUTHORIZED: u64 = 22;
/// Event code: a candidate was applied to the repository.
pub const EVENT_CANDIDATE_APPLIED: u64 = 23;
/// Event code: a promotion prompt.
pub const EVENT_PROMOTION_PROMPT: u64 = 30;
/// Event code: a promotion response.
pub const EVENT_PROMOTION_RESPONSE: u64 = 31;
/// Event code: a promotion was authorized.
pub const EVENT_PROMOTION_AUTHORIZED: u64 = 32;
/// Event code: a candidate was promoted.
pub const EVENT_PROMOTED: u64 = 33;
/// Event code: a command prompt.
pub const EVENT_COMMAND_PROMPT: u64 = 40;
/// Event code: a command decision.
pub const EVENT_COMMAND_DECISION: u64 = 41;
/// Event code: a command started.
pub const EVENT_COMMAND_STARTED: u64 = 42;
/// Event code: a command result.
pub const EVENT_COMMAND_RESULT: u64 = 43;
/// Event code: a continuation prompt.
pub const EVENT_CONTINUATION_PROMPT: u64 = 50;
/// Event code: a continuation response.
pub const EVENT_CONTINUATION_RESPONSE: u64 = 51;
/// Event code: the task completed.
pub const EVENT_COMPLETE: u64 = 80;
/// Event code: the task stopped.
pub const EVENT_STOPPED: u64 = 90;

/// The typed reading of a fact's payload, made by the host from the payload
/// bytes according to the fact's event code; `None` where they do not parse.
/// A start carries the admission; a generation its generation; a command
/// prompt or start its request; a command result its evidence; a review,
/// revision or promotion prompt, an authorization, an application or a
/// promotion the operation it names.
#[derive(Debug, PartialEq, Eq)]
pub enum Payload {
    Untyped,
    Admission(Option<Admission>),
    Generation(Option<Generation>),
    CommandRequest(Option<CommandRequest>),
    CommandFinished(Option<CommandFinished>),
    Operation(Option<Operation>),
}

/// One committed event of the task session.
#[derive(Debug, PartialEq, Eq)]
pub struct Fact {
    pub index: u64,
    pub value: u64,
    pub bytes: Vec<u8>,
    pub payload: Payload,
    /// The host's canonical encoding of a generation payload, from which the
    /// generation's operation is derived; empty for other payloads.
    pub canonical: Vec<u8>,
}

/// The event code each response or authorization must directly follow.
pub open spec fn required_predecessor(value: u64) -> Option<u64> {
    if value == EVENT_INITIAL_RESPONSE {
        Some(EVENT_INITIAL_PROMPT)
    } else if value == EVENT_REVISION_RESPONSE {
        Some(EVENT_REVISION_PROMPT)
    } else if value == EVENT_REVIEW_RESPONSE {
        Some(EVENT_REVIEW_PROMPT)
    } else if value == EVENT_MUTATION_AUTHORIZED {
        Some(EVENT_REVIEW_RESPONSE)
    } else if value == EVENT_CANDIDATE_APPLIED {
        Some(EVENT_MUTATION_AUTHORIZED)
    } else if value == EVENT_PROMOTION_RESPONSE {
        Some(EVENT_PROMOTION_PROMPT)
    } else if value == EVENT_PROMOTION_AUTHORIZED {
        Some(EVENT_PROMOTION_RESPONSE)
    } else if value == EVENT_PROMOTED {
        Some(EVENT_PROMOTION_AUTHORIZED)
    } else if value == EVENT_COMMAND_DECISION {
        Some(EVENT_COMMAND_PROMPT)
    } else if value == EVENT_COMMAND_STARTED {
        Some(EVENT_COMMAND_DECISION)
    } else if value == EVENT_COMMAND_RESULT {
        Some(EVENT_COMMAND_STARTED)
    } else if value == EVENT_CONTINUATION_RESPONSE {
        Some(EVENT_CONTINUATION_PROMPT)
    } else {
        None
    }
}

/// Returns the event code a fact must directly follow.
pub fn predecessor(value: u64) -> (r: Option<u64>)
    ensures
        r == required_predecessor(value),
{
    if value == EVENT_INITIAL_RESPONSE {
        Some(EVENT_INITIAL_PROMPT)
    } else if value == EVENT_REVISION_RESPONSE {
        Some(EVENT_REVISION_PROMPT)
    } else if value == EVENT_REVIEW_RESPONSE {
        Some(EVENT_REVIEW_PROMPT)
    } else if value == EVENT_MUTATION_AUTHORIZED {
        Some(EVENT_REVIEW_RESPONSE)
    } else if value == EVENT_CANDIDATE_APPLIED {
        Some(EVENT_MUTATION_AUTHORIZED)
    } else if value == EVENT_PROMOTION_RESPONSE {
        Some(EVENT_PROMOTION_PROMPT)
    } else if value == EVENT_PROMOTION_AUTHORIZED {
        Some(EVENT_PROMOTION_RESPONSE)
    } else if value == EVENT_PROMOTED {
        Some(EVENT_PROMOTION_AUTHORIZED)
    } else if value == EVENT_COMMAND_DECISION {
        Some(EVENT_COMMAND_PROMPT)
    } else if value == EVENT_COMMAND_STARTED {
        Some(EVENT_COMMAND_DECISION)
    } else if value == EVENT_COMMAND_RESULT {
        Some(EVENT_COMMAND_STARTED)
    } else if value == EVENT_CONTINUATION_RESPONSE {
        Some(EVENT_CONTINUATION_PROMPT)
    } else {
        None
    }
}

/// Fact `i` of a session is correctly placed: an external outcome directly
/// follows the request it answers, and nothing follows completion or stop.
pub open spec fn adjacency_ok(values: Seq<u64>, i: int) -> bool {
    &&& (required_predecessor(values[i]) matches Some(p) ==> i > 0 && values[i - 1] == p)
    &&& (i > 0 ==> values[i - 1] != EVENT_COMPLETE && values[i - 1] != EVENT_STOPPED)
}

/// The event codes of a list of facts.
pub open spec fn fact_values(facts: Seq<Fact>) -> Seq<u64> {
    facts.map_values(|f: Fact| f.value)
}

/// Accepts a session whose facts are all correctly placed.
pub fn validate_external_adjacency(facts: &Vec<Fact>) -> (r: Result<(), i32>)
    ensures
        r == (if forall|i: int| 0 <= i < facts@.len() ==> #[trigger] adjacency_ok(fact_values(facts@), i) {
            Ok::<(), i32>(())
        } else {
            Err(INVALID)
        }),
{
    let ghost values = fact_values(facts@);
    let mut i: usize = 0;
    while i < facts.len()
        invariant
            i <= facts@.len(),
            values == fact_values(facts@),
            forall|k: int| 0 <= k < i ==> #[trigger] adjacency_ok(values, k),
        decreases facts@.len() - i,
    {
        let value = facts[i].value;
        match predecessor(value) {
            Some(p) => {
                if i == 0 || facts[i - 1].value != p {
                    assert(!adjacency_ok(values, i as int));
                    return Err(INVALID);
                }
            },
            None => {},
        }
        if i > 0 && (facts[i - 1].value == EVENT_COMPLETE || facts[i - 1].value == EVENT_STOPPED) {
            assert(!adjacency_ok(values, i as int));
            return Err(INVALID);
        }
        assert(adjacency_ok(values, i as int));
        i += 1;
    }
    Ok(())
}

/// Whether the pair of facts ending at `i + 1` approves a mutation or
/// promotion of `operation` on `source`.
pub open spec fn authorizes(facts: Seq<Fact>, i: int, operation: u64, source: u64) -> bool {
    let expected = if facts[i + 1].value == EVENT_MUTATION_AUTHORIZED {
        Some(EVENT_REVIEW_RESPONSE)
    } else if facts[i + 1].value == EVENT_PROMOTION_AUTHORIZED {
        Some(EVENT_PROMOTION_RESPONSE)
    } else {
        None
    };
    &&& expected matches Some(e) && facts[i].value == e
    &&& crate::text::trimmed_text(facts[i].bytes@) == "approve".spec_bytes()
    &&& facts[i + 1].payload matches Payload::Operation(Some(record))
    &&& record.operation == operation
    &&& record.source as u64 == source
}

/// The authority's answer: 1 when some approved review or promotion response
/// is directly followed by the authorization of exactly this operation on
/// this source, else 0.
pub fn authorize(facts: &Vec<Fact>, operation: u64, source: u64) -> (r: i64)
    ensures
        r == (if exists|i: int| 0 <= i < facts@.len() - 1 && #[trigger] authorizes(facts@, i, operation, source) { 1i64 } else { 0i64 }),
{
    let approve = "approve".as_bytes();
    let mut i: usize = facts.len();
    while i > 1
        invariant
            i <= facts@.len(),
            approve@ == "approve".spec_bytes(),
            forall|k: int| i - 1 <= k < facts@.len() - 1 ==> !#[trigger] authorizes(facts@, k, operation, source),
        decreases i,
    {
        let first = &facts[i - 2];
        let second = &facts[i - 1];
        let expected = if second.value == EVENT_MUTATION_AUTHORIZED {
            Some(EVENT_REVIEW_RESPONSE)
        } else if second.value == EVENT_PROMOTION_AUTHORIZED {
            Some(EVENT_PROMOTION_RESPONSE)
        } else {
            None
        };
        let matches_expected = match expected {
            Some(e) => first.value == e,
            None => false,
        };
        if matches_expected && bytes_equal(crate::text::trimmed(first.bytes.as_slice()).as_slice(), approve) {
            if let Payload::Operation(Some(record)) = &second.payload {
                if record.operation == operation && record.source as u64 == source {
                    assert(authorizes(facts@, i - 2, operation, source));
                    return 1;
                }
            }
        }
        assert(!authorizes(facts@, i - 2, operation, source));
        i -= 1;
    }
    0
}


/// The position of the first current generation of proposal `proposal_index`
/// among `cur[start..]`.
pub open spec fn find_proposal(cur: Seq<GenerationView>, proposal_index: usize, start: nat) -> Option<int>
    decreases cur.len() - start,
{
    if start >= cur.len() {
        None
    } else if cur[start as int].proposal_index == proposal_index {
        Some(start as int)
    } else {
        find_proposal(cur, proposal_index, start + 1)
    }
}

/// A found position lies inside the list and holds that proposal.
pub proof fn lemma_find_proposal(cur: Seq<GenerationView>, proposal_index: usize, start: nat)
    ensures
        find_proposal(cur, proposal_index, start) matches Some(i) ==> start <= i < cur.len()
            && cur[i].proposal_index == proposal_index,
    decreases cur.len() - start,
{
    if start < cur.len() {
        lemma_find_proposal(cur, proposal_index, start + 1);
    }
}

/// The generation a fact carries.
pub open spec fn fact_generation(f: Fact) -> GenerationView {
    match f.payload {
        Payload::Generation(Some(g)) => g@,
        _ => arbitrary(),
    }
}

/// The generations carried by the facts at some positions.
pub open spec fn views_at(facts: Seq<Fact>, ps: Seq<usize>) -> Seq<GenerationView> {
    ps.map_values(|p: usize| fact_generation(facts[p as int]))
}

/// The positions of the current generations after the generation at
/// position `p`: a later revision of a known proposal replaces it when it is
/// the next revision of the same file; a new proposal starts at revision zero
/// on a file no other proposal edits.
pub open spec fn position_step(views: Seq<GenerationView>, ps: Seq<usize>, g: GenerationView, p: usize) -> Option<Seq<usize>> {
    match find_proposal(views, g.proposal_index, 0) {
        Some(i) => if views[i].revision == u32::MAX || g.revision != views[i].revision + 1
            || g.admitted_path_index != views[i].admitted_path_index {
            None
        } else {
            Some(ps.update(i, p))
        },
        None => if g.revision != 0 || exists|j: int|
            0 <= j < views.len() && #[trigger] views[j].admitted_path_index == g.admitted_path_index {
            None
        } else {
            Some(ps.push(p))
        },
    }
}

/// The positions of the facts holding the current generations after the
/// first `n` facts of a session, in the order their proposals appeared.
pub open spec fn positions_upto(facts: Seq<Fact>, admission: Admission, n: nat) -> Option<Seq<usize>>
    decreases n,
{
    if n == 0 {
        Some(Seq::empty())
    } else {
        match positions_upto(facts, admission, (n - 1) as nat) {
            None => None,
            Some(ps) => {
                let f = facts[n - 1];
                if f.value != EVENT_GENERATION {
                    Some(ps)
                } else {
                    match f.payload {
                        Payload::Generation(Some(g)) => if !spec_generation_valid(g@, admission) {
                            None
                        } else {
                            position_step(views_at(facts, ps), ps, g@, (n - 1) as usize)
                        },
                        _ => None,
                    }
                }
            },
        }
    }
}

/// The current generations after the first `n` facts of a session.
pub open spec fn generations_upto(facts: Seq<Fact>, admission: Admission, n: nat) -> Option<Seq<GenerationView>> {
    match positions_upto(facts, admission, n) {
        Some(ps) => Some(views_at(facts, ps)),
        None => None,
    }
}

/// A refused prefix refuses the whole session.
pub proof fn lemma_positions_stable(facts: Seq<Fact>, admission: Admission, m: nat, n: nat)
    requires
        m <= n,
        positions_upto(facts, admission, m) is None,
    ensures
        positions_upto(facts, admission, n) is None,
    decreases n - m,
{
    if m < n {
        lemma_positions_stable(facts, admission, m, (n - 1) as nat);
    }
}

/// A proposal that is not found from `start` on appears nowhere from there.
pub proof fn lemma_find_proposal_none(cur: Seq<GenerationView>, proposal_index: usize, start: nat)
    ensures
        find_proposal(cur, proposal_index, start) is None ==> forall|j: int|
            start <= j < cur.len() ==> #[trigger] cur[j].proposal_index != proposal_index,
    decreases cur.len() - start,
{
    if start < cur.len() {
        lemma_find_proposal_none(cur, proposal_index, start + 1);
    }
}

/// Current generations are one per proposal and one per file: no two share
/// a proposal index or an admitted file.
pub open spec fn distinct_generations(cur: Seq<GenerationView>) -> bool {
    forall|i: int, j: int| #![trigger cur[i], cur[j]] 0 <= i < j < cur.len() ==> apart(cur[i], cur[j])
}

/// Two generations of different proposals on different files.
pub open spec fn apart(x: GenerationView, y: GenerationView) -> bool {
    x.proposal_index != y.proposal_index && x.admitted_path_index != y.admitted_path_index
}

/// Every prefix of a session keeps at most one current generation per
/// proposal and per admitted file.
pub proof fn lemma_generations_distinct(facts: Seq<Fact>, admission: Admission, n: nat)
    requires
        n <= usize::MAX,
    ensures
        generations_upto(facts, admission, n) matches Some(cur) ==> distinct_generations(cur),
    decreases n,
{
    if n > 0 {
        lemma_generations_distinct(facts, admission, (n - 1) as nat);
        match positions_upto(facts, admission, (n - 1) as nat) {
            None => {},
            Some(ps) => {
                let views = views_at(facts, ps);
                let f = facts[n - 1];
                assert(distinct_generations(views));
                if f.value == EVENT_GENERATION {
                    if let Payload::Generation(Some(g)) = f.payload {
                        if spec_generation_valid(g@, admission) {
                            let p = (n - 1) as usize;
                            assert(fact_generation(facts[p as int]) == g@);
                            lemma_find_proposal(views, g.proposal_index, 0);
                            lemma_find_proposal_none(views, g.proposal_index, 0);
                            match find_proposal(views, g.proposal_index, 0) {
                                Some(i) => {
                                    if position_step(views, ps, g@, p) is Some {
                                        assert(views_at(facts, ps.update(i, p)) =~= views.update(i, g@));
                                        let cur = views.update(i, g@);
                                        assert forall|a: int, b: int| #![trigger cur[a], cur[b]] 0 <= a < b < cur.len() implies apart(cur[a], cur[b]) by {
                                            assert(views[a].proposal_index != views[b].proposal_index);
                                        }
                                        assert(distinct_generations(cur));
                                    }
                                },
                                None => {
                                    if position_step(views, ps, g@, p) is Some {
                                        assert(views_at(facts, ps.push(p)) =~= views.push(g@));
                                        let cur = views.push(g@);
                                        assert forall|a: int, b: int| #![trigger cur[a], cur[b]] 0 <= a < b < cur.len() implies apart(cur[a], cur[b]) by {
                                            assert(cur[a] == views[a]);
                                            if b == views.len() {
                                                assert(cur[b] == g@);
                                                assert(views[a].proposal_index != g.proposal_index);
                                                assert(!(views[a].admitted_path_index == g.admitted_path_index));
                                            } else {
                                                assert(cur[b] == views[b]);
                                                assert(views[a].proposal_index != views[b].proposal_index);
                                            }
                                        }
                                        assert(distinct_generations(cur));
                                    }
                                },
                            }
                        }
                    }
                }
            },
        }
    }
}

/// A position is that of a generation fact among the first `n`.
pub open spec fn holds_generation(facts: Seq<Fact>, p: usize, n: nat) -> bool {
    &&& p < n
    &&& facts[p as int].payload matches Payload::Generation(Some(_))
}

/// Whether a fact carries a generation of proposal `proposal_index`.
fn carries_proposal(f: &Fact, proposal_index: usize) -> (r: bool)
    ensures
        r == (f.payload matches Payload::Generation(Some(h)) && h.proposal_index == proposal_index),
{
    match &f.payload {
        Payload::Generation(Some(h)) => h.proposal_index == proposal_index,
        _ => false,
    }
}

/// Whether a fact carries a generation that edits admitted file `index`.
fn carries_path(f: &Fact, index: usize) -> (r: bool)
    ensures
        r == (f.payload matches Payload::Generation(Some(h)) && h.admitted_path_index == index),
{
    match &f.payload {
        Payload::Generation(Some(h)) => h.admitted_path_index == index,
        _ => false,
    }
}

/// The views of a list of generations.
pub open spec fn generation_views(gs: Seq<Generation>) -> Seq<GenerationView> {
    gs.map_values(|g: Generation| g@)
}

/// Returns the positions of the facts that hold the current generations.
pub fn current_positions(facts: &Vec<Fact>, admission: &Admission) -> (r: Result<Vec<usize>, i32>)
    ensures
        match r {
            Ok(ps) => positions_upto(facts@, *admission, facts@.len()) == Some(ps@)
                && forall|k: int| 0 <= k < ps@.len() ==> #[trigger] holds_generation(facts@, ps@[k], facts@.len()),
            Err(c) => c == INVALID && positions_upto(facts@, *admission, facts@.len()) is None,
        },
{
    let mut ps: Vec<usize> = Vec::new();
    let mut n: usize = 0;
    while n < facts.len()
        invariant
            n <= facts@.len(),
            positions_upto(facts@, *admission, n as nat) == Some(ps@),
            forall|k: int| 0 <= k < ps@.len() ==> #[trigger] holds_generation(facts@, ps@[k], n as nat),
        decreases facts@.len() - n,
    {
        let fact = &facts[n];
        if fact.value == EVENT_GENERATION {
            let g = match &fact.payload {
                Payload::Generation(Some(g)) => g,
                _ => {
                    proof { lemma_positions_stable(facts@, *admission, (n + 1) as nat, facts@.len()); }
                    return Err(INVALID);
                },
            };
            if validate_generation(g, admission).is_err() {
                proof { lemma_positions_stable(facts@, *admission, (n + 1) as nat, facts@.len()); }
                return Err(INVALID);
            }
            let ghost views = views_at(facts@, ps@);
            assert forall|k: int| 0 <= k < ps@.len() implies ps@[k] < n by {
                assert(holds_generation(facts@, ps@[k], n as nat));
            }
            let mut i: usize = 0;
            while i < ps.len() && !carries_proposal(&facts[ps[i]], g.proposal_index)
                invariant
                    i <= ps@.len(),
                    n < facts@.len(),
                    views == views_at(facts@, ps@),
                    forall|k: int| 0 <= k < ps@.len() ==> #[trigger] holds_generation(facts@, ps@[k], n as nat),
                    forall|k: int| 0 <= k < ps@.len() ==> ps@[k] < n,
                    find_proposal(views, g.proposal_index, 0) == find_proposal(views, g.proposal_index, i as nat),
                decreases ps@.len() - i,
            {
                assert(holds_generation(facts@, ps@[i as int], n as nat));
                i += 1;
            }
            proof {
                lemma_find_proposal(views, g.proposal_index, 0);
                assert(facts@[n as int] == *fact);
                assert(fact_generation(facts@[n as int]) == g@);
            }
            if i < ps.len() {
                assert(holds_generation(facts@, ps@[i as int], n as nat));
                assert(find_proposal(views, g.proposal_index, 0) == Some(i as int));
                let existing = match &facts[ps[i]].payload {
                    Payload::Generation(Some(h)) => h,
                    _ => {
                        proof { assert(false); }
                        return Err(INVALID);
                    },
                };
                if existing.revision == u32::MAX || g.revision != existing.revision + 1
                    || g.admitted_path_index != existing.admitted_path_index {
                    proof { lemma_positions_stable(facts@, *admission, (n + 1) as nat, facts@.len()); }
                    return Err(INVALID);
                }
                let ghost before = ps@;
                ps.set(i, n);
                assert(views_at(facts@, ps@) =~= views.update(i as int, g@));
                assert forall|k: int| 0 <= k < ps@.len() implies #[trigger] holds_generation(facts@, ps@[k], (n + 1) as nat) by {
                    if k != i {
                        assert(holds_generation(facts@, before[k], n as nat));
                    }
                }
            } else {
                assert(find_proposal(views, g.proposal_index, 0) is None);
                if g.revision != 0 {
                    proof { lemma_positions_stable(facts@, *admission, (n + 1) as nat, facts@.len()); }
                    return Err(INVALID);
                }
                let mut j: usize = 0;
                while j < ps.len() && !carries_path(&facts[ps[j]], g.admitted_path_index)
                    invariant
                        j <= ps@.len(),
                        n < facts@.len(),
                        views == views_at(facts@, ps@),
                        forall|k: int| 0 <= k < ps@.len() ==> #[trigger] holds_generation(facts@, ps@[k], n as nat),
                        forall|k: int| 0 <= k < ps@.len() ==> ps@[k] < n,
                        forall|k: int| 0 <= k < j ==> views[k].admitted_path_index != g.admitted_path_index,
                    decreases ps@.len() - j,
                {
                    assert(holds_generation(facts@, ps@[j as int], n as nat));
                    j += 1;
                }
                if j < ps.len() {
                    assert(holds_generation(facts@, ps@[j as int], n as nat));
                    assert(views[j as int].admitted_path_index == g.admitted_path_index);
                    proof { lemma_positions_stable(facts@, *admission, (n + 1) as nat, facts@.len()); }
                    return Err(INVALID);
                }
                let ghost before = ps@;
                ps.push(n);
                assert(views_at(facts@, ps@) =~= views.push(g@));
                assert forall|k: int| 0 <= k < ps@.len() implies #[trigger] holds_generation(facts@, ps@[k], (n + 1) as nat) by {
                    if k < before.len() {
                        assert(holds_generation(facts@, before[k], n as nat));
                    }
                }
            }
        } else {
            assert forall|k: int| 0 <= k < ps@.len() implies #[trigger] holds_generation(facts@, ps@[k], (n + 1) as nat) by {
                assert(holds_generation(facts@, ps@[k], n as nat));
            }
        }
        n += 1;
    }
    Ok(ps)
}

/// Returns copies of the generations held by the facts at positions `ps`.
pub fn generations_at(facts: &Vec<Fact>, ps: &Vec<usize>) -> (r: Vec<Generation>)
    requires
        forall|j: int| 0 <= j < ps@.len() ==> #[trigger] holds_generation(facts@, ps@[j], facts@.len()),
    ensures
        generation_views(r@) == views_at(facts@, ps@),
{
    let mut out: Vec<Generation> = Vec::new();
    let mut k: usize = 0;
    while k < ps.len()
        invariant
            k <= ps@.len(),
            forall|j: int| 0 <= j < ps@.len() ==> #[trigger] holds_generation(facts@, ps@[j], facts@.len()),
            generation_views(out@) == views_at(facts@, ps@.take(k as int)),
        decreases ps@.len() - k,
    {
        assert(holds_generation(facts@, ps@[k as int], facts@.len()));
        let ghost before = out@;
        match &facts[ps[k]].payload {
            Payload::Generation(Some(g)) => {
                out.push(copy_generation(g));
            },
            _ => {
                proof { assert(false); }
            },
        }
        assert(generation_views(out@) =~= generation_views(before).push(fact_generation(facts@[ps@[k as int] as int])));
        assert(ps@.take(k + 1) =~= ps@.take(k as int).push(ps@[k as int]));
        k += 1;
    }
    assert(ps@.take(ps@.len() as int) =~= ps@);
    out
}

/// Returns the current generation of every proposal of a session.
pub fn current_generations(facts: &Vec<Fact>, admission: &Admission) -> (r: Result<Vec<Generation>, i32>)
    ensures
        match r {
            Ok(gs) => generations_upto(facts@, *admission, facts@.len()) == Some(generation_views(gs@)),
            Err(c) => c == INVALID && generations_upto(facts@, *admission, facts@.len()) is None,
        },
{
    let ps = current_positions(facts, admission)?;
    Ok(generations_at(facts, &ps))
}

/// The expected source contents before the fact with index `before_index`,
/// after the first `n` facts: admitted contents, replaced by each generation's
/// result and, after each command, by the sources it reported.
pub open spec fn sources_upto(facts: Seq<Fact>, admission: Admission, before_index: u64, n: nat) -> Option<Seq<Seq<u8>>>
    decreases n,
{
    if n == 0 {
        Some(admission.files@.map_values(|f: AdmittedFile| f.content@))
    } else {
        match sources_upto(facts, admission, before_index, (n - 1) as nat) {
            None => None,
            Some(sources) => {
                let f = facts[n - 1];
                if f.index >= before_index {
                    Some(sources)
                } else if f.value == EVENT_GENERATION {
                    match f.payload {
                        Payload::Generation(Some(g)) => if g.admitted_path_index < sources.len() {
                            Some(sources.update(g.admitted_path_index as int, g.proposal.result@))
                        } else {
                            None
                        },
                        _ => None,
                    }
                } else if f.value == EVENT_COMMAND_RESULT {
                    match f.payload {
                        Payload::CommandFinished(Some(finished)) => match spec_continuation_sources(admission, finished) {
                            Some(after) => Some(after.map_values(|a: AdmittedFileView| a.content)),
                            None => None,
                        },
                        _ => None,
                    }
                } else {
                    Some(sources)
                }
            },
        }
    }
}

/// A refused prefix refuses every longer prefix.
pub proof fn lemma_sources_stable(facts: Seq<Fact>, admission: Admission, before_index: u64, m: nat, n: nat)
    requires
        m <= n,
        sources_upto(facts, admission, before_index, m) is None,
    ensures
        sources_upto(facts, admission, before_index, n) is None,
    decreases n - m,
{
    if m < n {
        lemma_sources_stable(facts, admission, before_index, m, (n - 1) as nat);
    }
}

/// Returns the source contents the session expects before fact `before_index`.
pub fn expected_sources(facts: &Vec<Fact>, admission: &Admission, before_index: u64) -> (r: Result<Vec<Vec<u8>>, i32>)
    ensures
        match r {
            Ok(v) => sources_upto(facts@, *admission, before_index, facts@.len()) == Some(texts(v@)),
            Err(c) => c == INVALID && sources_upto(facts@, *admission, before_index, facts@.len()) is None,
        },
{
    let mut sources: Vec<Vec<u8>> = Vec::new();
    let mut k: usize = 0;
    while k < admission.files.len()
        invariant
            k <= admission.files@.len(),
            texts(sources@) == admission.files@.take(k as int).map_values(|f: AdmittedFile| f.content@),
        decreases admission.files@.len() - k,
    {
        let ghost before = sources@;
        sources.push(copy_bytes(&admission.files[k].content));
        assert(texts(sources@) =~= texts(before).push(admission.files@[k as int].content@));
        assert(admission.files@.take(k + 1) =~= admission.files@.take(k as int).push(admission.files@[k as int]));
        k += 1;
    }
    assert(admission.files@.take(admission.files@.len() as int) == admission.files@);
    let mut n: usize = 0;
    while n < facts.len()
        invariant
            n <= facts@.len(),
            sources_upto(facts@, *admission, before_index, n as nat) == Some(texts(sources@)),
        decreases facts@.len() - n,
    {
        let fact = &facts[n];
        if fact.index < before_index {
            if fact.value == EVENT_GENERATION {
                match &fact.payload {
                    Payload::Generation(Some(g)) => {
                        if g.admitted_path_index >= sources.len() {
                            proof { lemma_sources_stable(facts@, *admission, before_index, (n + 1) as nat, facts@.len()); }
                            return Err(INVALID);
                        }
                        let ghost before = sources@;
                        sources.set(g.admitted_path_index, copy_bytes(&g.proposal.result));
                        assert(texts(sources@) =~= texts(before).update(g.admitted_path_index as int, g.proposal.result@));
                    },
                    _ => {
                        proof { lemma_sources_stable(facts@, *admission, before_index, (n + 1) as nat, facts@.len()); }
                        return Err(INVALID);
                    },
                }
            } else if fact.value == EVENT_COMMAND_RESULT {
                match &fact.payload {
                    Payload::CommandFinished(Some(finished)) => {
                        let after = match continuation_sources(admission, finished) {
                            Ok(a) => a,
                            Err(c) => {
                                proof { lemma_sources_stable(facts@, *admission, before_index, (n + 1) as nat, facts@.len()); }
                                return Err(c);
                            },
                        };
                        let mut next: Vec<Vec<u8>> = Vec::new();
                        let mut j: usize = 0;
                        while j < after.len()
                            invariant
                                j <= after@.len(),
                                texts(next@) == after@.take(j as int).map_values(|a: AdmittedFile| a.content@),
                            decreases after@.len() - j,
                        {
                            let ghost prior = next@;
                            next.push(copy_bytes(&after[j].content));
                            assert(texts(next@) =~= texts(prior).push(after@[j as int].content@));
                            assert(after@.take(j + 1) =~= after@.take(j as int).push(after@[j as int]));
                            j += 1;
                        }
                        assert(after@.take(after@.len() as int) == after@);
                        assert(texts(next@) =~= after@.map_values(|a: AdmittedFile| a@).map_values(|a: AdmittedFileView| a.content));
                        sources = next;
                    },
                    _ => {
                        proof { lemma_sources_stable(facts@, *admission, before_index, (n + 1) as nat, facts@.len()); }
                        return Err(INVALID);
                    },
                }
            }
        }
        n += 1;
    }
    Ok(sources)
}

} // verus!
