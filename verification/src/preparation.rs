//! The checks a component declaration and a composition patch pass before
//! the host loads an artifact or reads a granted file: where a component
//! may stand in a tree, which authority it may pair with which grants, and
//! which patches a component may request.

use vstd::prelude::*;
use vstd::string::{StringExecFns, StringSliceAdditionalSpecFns};
use vstd::utf8::encode_utf8;
use crate::component::{ComponentSpec, Limits};
use crate::composition::{
    bytes_equal, is_same_or_ancestor, paths_overlap, same_or_ancestor, segments_non_empty,
    spec_paths_overlap, validate_patch_path, CompositionPatch, SLASH,
};
use crate::error::{DeclarationIssue, Error, JournalIssue, PatchIssue, PersistenceIssue};
use crate::exchange::ExchangeGrant;
use crate::journal::{EventGrant, SnapshotGrant};
use crate::digest::{sha256_hex, spec_sha256_hex};
use crate::manifest::{HostCapability, Manifest};

verus! {

/// One path segment: non-empty and without a separator.
pub open spec fn is_segment(b: Seq<u8>) -> bool {
    b.len() > 0 && !b.contains(SLASH)
}

/// Returns whether `s` is one non-empty path segment.
pub fn is_single_segment(s: &str) -> (r: bool)
    ensures
        r == is_segment(s.spec_bytes()),
{
    let b = s.as_bytes();
    if b.len() == 0 {
        return false;
    }
    let mut i: usize = 0;
    while i < b.len()
        invariant
            b@ == s.spec_bytes(),
            i <= b@.len(),
            forall|k: int| 0 <= k < i ==> b@[k] != SLASH,
        decreases b@.len() - i,
    {
        if b[i] == SLASH {
            assert(b@[i as int] == SLASH);
            return false;
        }
        i += 1;
    }
    true
}

/// The number of separators in a path.
pub open spec fn slash_count(b: Seq<u8>) -> nat
    decreases b.len(),
{
    if b.len() == 0 {
        0
    } else {
        slash_count(b.drop_last()) + if b.last() == SLASH { 1nat } else { 0nat }
    }
}

proof fn lemma_slash_count_bound(b: Seq<u8>)
    ensures
        slash_count(b) <= b.len(),
    decreases b.len(),
{
    if b.len() > 0 {
        lemma_slash_count_bound(b.drop_last());
    }
}

/// The depth of the component at `path`: its number of segments.
pub fn path_depth(path: &str) -> (r: usize)
    requires
        path.spec_bytes().len() < usize::MAX,
    ensures
        r == slash_count(path.spec_bytes()) + 1,
{
    let b = path.as_bytes();
    let mut count: usize = 0;
    let mut i: usize = 0;
    while i < b.len()
        invariant
            b@ == path.spec_bytes(),
            b@.len() < usize::MAX,
            i <= b@.len(),
            count == slash_count(b@.subrange(0, i as int)),
        decreases b@.len() - i,
    {
        assert(b@.subrange(0, i + 1).drop_last() == b@.subrange(0, i as int));
        proof {
            lemma_slash_count_bound(b@.subrange(0, i as int));
        }
        if b[i] == SLASH {
            count += 1;
        }
        i += 1;
    }
    assert(b@.subrange(0, b@.len() as int) == b@);
    proof {
        lemma_slash_count_bound(b@);
    }
    count + 1
}

/// What follows the last separator of a path, or the whole path when it
/// has none.
pub open spec fn last_segment(b: Seq<u8>) -> Seq<u8>
    decreases b.len(),
{
    if b.len() == 0 {
        b
    } else if b.last() == SLASH {
        Seq::empty()
    } else {
        last_segment(b.drop_last()).push(b.last())
    }
}

proof fn lemma_last_segment(b: Seq<u8>, k: int)
    requires
        -1 <= k < b.len(),
        k >= 0 ==> b[k] == SLASH,
        forall|j: int| k < j < b.len() ==> b[j] != SLASH,
    ensures
        last_segment(b) == b.subrange(k + 1, b.len() as int),
    decreases b.len(),
{
    if b.len() > 0 {
        if b.last() == SLASH {
            assert(k == b.len() - 1);
        } else {
            lemma_last_segment(b.drop_last(), k);
            assert(b.subrange(k + 1, b.len() as int) == b.drop_last().subrange(k + 1, b.len() - 1).push(b.last()));
        }
    }
}

/// Returns whether `entry` is the last segment of `path`.
fn names_last_segment(path: &str, entry: &str) -> (r: bool)
    ensures
        r == (entry.spec_bytes() == last_segment(path.spec_bytes())),
{
    let b = path.as_bytes();
    let mut start: usize = b.len();
    while start > 0 && b[start - 1] != SLASH
        invariant
            b@ == path.spec_bytes(),
            start <= b@.len(),
            forall|j: int| start <= j < b@.len() ==> b@[j] != SLASH,
        decreases start,
    {
        start -= 1;
    }
    proof {
        lemma_last_segment(b@, start - 1);
    }
    bytes_equal(entry.as_bytes(), vstd::slice::slice_subrange(b, start, b.len()))
}

/// The first refusal of a component that would be the `count`-th of its
/// tree, at depth `depth`, under entry `entry`.
pub open spec fn placement_error(entry: Seq<u8>, depth: usize, count: usize, limits: Limits) -> Option<Error> {
    if count > limits.max_components {
        Some(Error::ComponentLimit { actual: count, limit: limits.max_components })
    } else if depth > limits.max_depth {
        Some(Error::DepthLimit { actual: depth, limit: limits.max_depth })
    } else {
        None
    }
}

/// Checks where a component may stand before its artifact is loaded: the
/// `count`-th component of a tree, at depth `depth`, is refused past the
/// limits, and its entry must be one non-empty path segment.
pub fn check_placement(entry: &str, depth: usize, count: usize, limits: &Limits) -> (r: Result<(), Error>)
    ensures
        match placement_error(entry.spec_bytes(), depth, count, *limits) {
            Some(e) => r == Err::<(), Error>(e),
            None => if is_segment(entry.spec_bytes()) {
                r is Ok
            } else {
                r matches Err(Error::InvalidEntry(e)) && e@ == entry@
            },
        },
{
    if count > limits.max_components {
        return Err(Error::ComponentLimit { actual: count, limit: limits.max_components });
    }
    if depth > limits.max_depth {
        return Err(Error::DepthLimit { actual: depth, limit: limits.max_depth });
    }
    if !is_single_segment(entry) {
        return Err(Error::InvalidEntry(entry.to_owned()));
    }
    Ok(())
}

/// The path a patch changes, as bytes.
pub open spec fn target_bytes(patch: CompositionPatch) -> Seq<u8> {
    encode_utf8(patch.spec_target())
}

/// Why a component at `actor` may not request `patch`, when the
/// persistence bootstrap root, if any, is `root`.
pub open spec fn patch_issue(patch: CompositionPatch, actor: Seq<u8>, root: Option<Seq<u8>>) -> Option<PatchIssue> {
    if root matches Some(r) && spec_paths_overlap(r, target_bytes(patch)) {
        Some(PatchIssue::PersistenceRoot)
    } else {
        match patch {
            CompositionPatch::AddRoot { root } => if !is_segment(encode_utf8(root.entry@)) {
                Some(PatchIssue::AddedRootEntry)
            } else {
                None
            },
            CompositionPatch::RemoveRoot { entry } => if !is_segment(encode_utf8(entry@)) {
                Some(PatchIssue::RemovedRootEntry)
            } else if same_or_ancestor(encode_utf8(entry@), actor) {
                Some(PatchIssue::RemovesSelfOrAncestor)
            } else {
                None
            },
            CompositionPatch::Replace { path, replacement } => if !segments_non_empty(encode_utf8(path@)) {
                Some(PatchIssue::EmptySegment)
            } else if encode_utf8(replacement.entry@) != last_segment(encode_utf8(path@)) {
                Some(PatchIssue::ReplacementEntryMismatch)
            } else if same_or_ancestor(encode_utf8(path@), actor) {
                Some(PatchIssue::ReplacesSelfOrAncestor)
            } else {
                None
            },
        }
    }
}

/// Checks a patch that the component at `actor_path` requests, before its
/// replacement or added root is prepared: no patch may touch the
/// persistence bootstrap root `persistent_root`; an added or removed root
/// is one path segment; a component removes or replaces neither itself nor
/// an ancestor; and a replacement's entry is the last segment of the path
/// it replaces.
pub fn check_patch(patch: &CompositionPatch, actor_path: &str, persistent_root: Option<&str>) -> (r: Result<(), Error>)
    ensures
        match patch_issue(*patch, actor_path.spec_bytes(), match persistent_root {
            Some(root) => Some(root.spec_bytes()),
            None => None,
        }) {
            Some(issue) => r == Err::<(), Error>(Error::InvalidPatch(issue)),
            None => r is Ok,
        },
{
    if let Some(root) = persistent_root {
        if paths_overlap(root, patch.target()) {
            return Err(Error::InvalidPatch(PatchIssue::PersistenceRoot));
        }
    }
    match patch {
        CompositionPatch::AddRoot { root } => {
            if !is_single_segment(root.entry.as_str()) {
                return Err(Error::InvalidPatch(PatchIssue::AddedRootEntry));
            }
        },
        CompositionPatch::RemoveRoot { entry } => {
            if !is_single_segment(entry.as_str()) {
                return Err(Error::InvalidPatch(PatchIssue::RemovedRootEntry));
            }
            if is_same_or_ancestor(entry.as_str(), actor_path) {
                return Err(Error::InvalidPatch(PatchIssue::RemovesSelfOrAncestor));
            }
        },
        CompositionPatch::Replace { path, replacement } => {
            validate_patch_path(path.as_str())?;
            if !names_last_segment(path.as_str(), replacement.entry.as_str()) {
                return Err(Error::InvalidPatch(PatchIssue::ReplacementEntryMismatch));
            }
            if is_same_or_ancestor(path.as_str(), actor_path) {
                return Err(Error::InvalidPatch(PatchIssue::ReplacesSelfOrAncestor));
            }
        },
    }
    Ok(())
}

/// An event grant names a namespace, a name and a revision.
pub open spec fn event_grant_valid(g: EventGrant) -> bool {
    g.namespace@.len() > 0 && g.name@.len() > 0 && g.revision != 0
}

/// Two event grants admit the same event type.
pub open spec fn same_event_grant(a: EventGrant, b: EventGrant) -> bool {
    a.namespace@ == b.namespace@ && a.name@ == b.name@ && a.revision == b.revision
}

/// Grant `k` of `s` is invalid or admits the type of an earlier grant.
pub open spec fn bad_event_grant(s: Seq<EventGrant>, k: int) -> bool {
    !event_grant_valid(s[k]) || exists|j: int| 0 <= j < k && same_event_grant(#[trigger] s[j], s[k])
}

/// Grant `k` is the first bad grant of `s`.
pub open spec fn first_bad_event_grant(s: Seq<EventGrant>, k: int) -> bool {
    0 <= k < s.len() && bad_event_grant(s, k) && forall|j: int| 0 <= j < k ==> !bad_event_grant(s, j)
}

/// The refusal that the first bad event grant of `s` earns, if any.
pub open spec fn event_grants_issue(s: Seq<EventGrant>) -> Option<DeclarationIssue> {
    if exists|k: int| first_bad_event_grant(s, k) {
        let k = choose|k: int| first_bad_event_grant(s, k);
        if !event_grant_valid(s[k]) {
            Some(DeclarationIssue::InvalidEventGrant)
        } else {
            Some(DeclarationIssue::DuplicateEventGrant)
        }
    } else {
        None
    }
}

/// Exchange grant `k` of `s` lacks an adapter or a bound, or names the
/// adapter of an earlier grant.
pub open spec fn bad_exchange_grant(s: Seq<ExchangeGrant>, k: int) -> bool {
    ||| s[k].adapter@.len() == 0
    ||| s[k].max_request_bytes == 0
    ||| s[k].max_response_bytes == 0
    ||| s[k].timeout_ms == 0
    ||| exists|j: int| 0 <= j < k && (#[trigger] s[j]).adapter@ == s[k].adapter@
}

/// The refusal of a declaration whose manifest is `m`, by the first rule on
/// authority it breaks; `at_root` tells whether it is the persistence
/// bootstrap root.
pub open spec fn declaration_issue(spec: ComponentSpec, m: Manifest, at_root: bool) -> Option<DeclarationIssue> {
    let append = m.spec_requests(HostCapability::AppendEvent);
    let replay = m.spec_requests(HostCapability::ResumeEvent) || m.spec_requests(HostCapability::ResumeSnapshot)
        || m.spec_requests(HostCapability::ResumeExchange);
    let open_exchange = m.spec_requests(HostCapability::OpenExchange);
    let exchange = m.spec_requests(HostCapability::Exchange);
    let read = m.spec_requests(HostCapability::WorkspaceRead);
    let write = m.spec_requests(HostCapability::WorkspaceWrite);
    let publish = m.spec_requests(HostCapability::WorkspacePublish);
    if m.spec_requests(HostCapability::OpenJournal) != (spec.journal_paths@.len() > 0) {
        Some(DeclarationIssue::JournalAuthority)
    } else if spec.journal_paths@.len() > 0 && !at_root {
        Some(DeclarationIssue::JournalPathsReserved)
    } else if m.spec_requests(HostCapability::OpenEventStream) != (spec.event_stream_paths@.len() > 0) {
        Some(DeclarationIssue::EventStreamAuthority)
    } else if spec.event_stream_paths@.len() > 0 && !at_root {
        Some(DeclarationIssue::EventStreamPathsReserved)
    } else if append && replay {
        Some(DeclarationIssue::MixedAppendAuthority)
    } else if (append || replay) != (spec.event_grants@.len() > 0) {
        Some(DeclarationIssue::EventGrantAuthority)
    } else if event_grants_issue(spec.event_grants@) is Some {
        event_grants_issue(spec.event_grants@)
    } else if (m.spec_requests(HostCapability::ReadSnapshot) || m.spec_requests(HostCapability::ResumeSnapshot))
        != (spec.snapshot_grants@.len() > 0) {
        Some(DeclarationIssue::SnapshotAuthority)
    } else if (open_exchange || exchange) != (spec.exchange_grants@.len() > 0) || open_exchange != exchange {
        Some(DeclarationIssue::ExchangeAuthority)
    } else if exists|k: int| 0 <= k < spec.exchange_grants@.len() && bad_exchange_grant(spec.exchange_grants@, k) {
        Some(DeclarationIssue::InvalidExchangeGrant)
    } else if !(read == write && write == publish) || read != (spec.workspace_grants@.len() > 0) {
        Some(DeclarationIssue::WorkspaceAuthority)
    } else {
        None
    }
}

/// The first bad event grant of `grants`, if any.
fn find_bad_event_grant(grants: &Vec<EventGrant>) -> (r: Option<usize>)
    ensures
        match r {
            Some(k) => first_bad_event_grant(grants@, k as int),
            None => forall|k: int| 0 <= k < grants@.len() ==> !bad_event_grant(grants@, k),
        },
{
    let mut i: usize = 0;
    while i < grants.len()
        invariant
            i <= grants@.len(),
            forall|k: int| 0 <= k < i ==> !bad_event_grant(grants@, k),
        decreases grants@.len() - i,
    {
        let g = &grants[i];
        if g.namespace.as_str().is_empty() || g.name.as_str().is_empty() || g.revision == 0 {
            return Some(i);
        }
        let mut j: usize = 0;
        while j < i
            invariant
                i < grants@.len(),
                j <= i,
                *g == grants@[i as int],
                event_grant_valid(*g),
                forall|k: int| 0 <= k < i ==> !bad_event_grant(grants@, k),
                forall|m: int| 0 <= m < j ==> !same_event_grant(grants@[m], grants@[i as int]),
            decreases i - j,
        {
            let h = &grants[j];
            if h.namespace == g.namespace && h.name == g.name && h.revision == g.revision {
                assert(same_event_grant(grants@[j as int], grants@[i as int]));
                return Some(i);
            }
            j += 1;
        }
        assert(!bad_event_grant(grants@, i as int));
        i += 1;
    }
    None
}

proof fn lemma_first_bad_event_grant_unique(s: Seq<EventGrant>, k: int)
    requires
        first_bad_event_grant(s, k),
    ensures
        event_grants_issue(s) == (if !event_grant_valid(s[k]) {
            Some(DeclarationIssue::InvalidEventGrant)
        } else {
            Some(DeclarationIssue::DuplicateEventGrant)
        }),
{
    let c = choose|c: int| first_bad_event_grant(s, c);
    assert(first_bad_event_grant(s, c));
    if c < k {
        assert(!bad_event_grant(s, c));
    }
    if k < c {
        assert(!bad_event_grant(s, k));
    }
}

/// Whether some exchange grant of `grants` lacks an adapter or a bound, or
/// repeats an earlier grant's adapter.
fn has_bad_exchange_grant(grants: &Vec<ExchangeGrant>) -> (r: bool)
    ensures
        r == exists|k: int| 0 <= k < grants@.len() && bad_exchange_grant(grants@, k),
{
    let mut i: usize = 0;
    while i < grants.len()
        invariant
            i <= grants@.len(),
            forall|k: int| 0 <= k < i ==> !bad_exchange_grant(grants@, k),
        decreases grants@.len() - i,
    {
        let g = &grants[i];
        if g.adapter.as_str().is_empty() || g.max_request_bytes == 0 || g.max_response_bytes == 0 || g.timeout_ms == 0 {
            assert(bad_exchange_grant(grants@, i as int));
            return true;
        }
        let mut j: usize = 0;
        while j < i
            invariant
                i < grants@.len(),
                j <= i,
                *g == grants@[i as int],
                forall|m: int| 0 <= m < j ==> grants@[m].adapter@ != grants@[i as int].adapter@,
            decreases i - j,
        {
            if grants[j].adapter == g.adapter {
                assert(bad_exchange_grant(grants@, i as int));
                return true;
            }
            j += 1;
        }
        assert(!bad_exchange_grant(grants@, i as int));
        i += 1;
    }
    false
}

/// A refusal of the declaration at `path` for `issue`.
fn refuse(path: &str, issue: DeclarationIssue) -> (r: Result<(), Error>)
    ensures
        r matches Err(Error::Declaration { path: p, issue: i }) && p@ == path@ && i == issue,
{
    Err(Error::Declaration { path: path.to_owned(), issue })
}

/// Checks the authority that the component at `path` requests in its
/// manifest against the grants its declaration admits: journal and event
/// stream paths only with the matching authority and only at the
/// persistence bootstrap root `persistent_root`; event append authority of
/// one kind, with valid and distinct event grants; snapshot, exchange and
/// workspace authority each with its grants, exchange grants valid and
/// with distinct adapters. The first rule broken is reported.
pub fn check_authority(spec: &ComponentSpec, manifest: &Manifest, path: &str, persistent_root: Option<&str>) -> (r: Result<(), Error>)
    ensures
        match declaration_issue(*spec, *manifest, persistent_root matches Some(root) && root.spec_bytes() == path.spec_bytes()) {
            None => r is Ok,
            Some(issue) => r matches Err(Error::Declaration { path: p, issue: i }) && p@ == path@ && i == issue,
        },
{
    let at_root = match persistent_root {
        Some(root) => bytes_equal(root.as_bytes(), path.as_bytes()),
        None => false,
    };
    let journal = manifest.requests(HostCapability::OpenJournal);
    if journal != (spec.journal_paths.len() > 0) {
        return refuse(path, DeclarationIssue::JournalAuthority);
    }
    if spec.journal_paths.len() > 0 && !at_root {
        return refuse(path, DeclarationIssue::JournalPathsReserved);
    }
    if manifest.requests(HostCapability::OpenEventStream) != (spec.event_stream_paths.len() > 0) {
        return refuse(path, DeclarationIssue::EventStreamAuthority);
    }
    if spec.event_stream_paths.len() > 0 && !at_root {
        return refuse(path, DeclarationIssue::EventStreamPathsReserved);
    }
    let append = manifest.requests(HostCapability::AppendEvent);
    let resume = manifest.requests(HostCapability::ResumeEvent);
    let resume_snapshot = manifest.requests(HostCapability::ResumeSnapshot);
    let resume_exchange = manifest.requests(HostCapability::ResumeExchange);
    let replay = resume || resume_snapshot || resume_exchange;
    if append && replay {
        return refuse(path, DeclarationIssue::MixedAppendAuthority);
    }
    if (append || replay) != (spec.event_grants.len() > 0) {
        return refuse(path, DeclarationIssue::EventGrantAuthority);
    }
    match find_bad_event_grant(&spec.event_grants) {
        Some(k) => {
            proof {
                lemma_first_bad_event_grant_unique(spec.event_grants@, k as int);
            }
            let g = &spec.event_grants[k];
            if g.namespace.as_str().is_empty() || g.name.as_str().is_empty() || g.revision == 0 {
                return refuse(path, DeclarationIssue::InvalidEventGrant);
            }
            return refuse(path, DeclarationIssue::DuplicateEventGrant);
        },
        None => {
            assert(!exists|k: int| first_bad_event_grant(spec.event_grants@, k));
        },
    }
    let snapshot = manifest.requests(HostCapability::ReadSnapshot);
    if (snapshot || resume_snapshot) != (spec.snapshot_grants.len() > 0) {
        return refuse(path, DeclarationIssue::SnapshotAuthority);
    }
    let open_exchange = manifest.requests(HostCapability::OpenExchange);
    let exchange = manifest.requests(HostCapability::Exchange);
    if (open_exchange || exchange) != (spec.exchange_grants.len() > 0) || open_exchange != exchange {
        return refuse(path, DeclarationIssue::ExchangeAuthority);
    }
    if has_bad_exchange_grant(&spec.exchange_grants) {
        return refuse(path, DeclarationIssue::InvalidExchangeGrant);
    }
    let read = manifest.requests(HostCapability::WorkspaceRead);
    let write = manifest.requests(HostCapability::WorkspaceWrite);
    let publish = manifest.requests(HostCapability::WorkspacePublish);
    if !(read == write && write == publish) || read != (spec.workspace_grants.len() > 0) {
        return refuse(path, DeclarationIssue::WorkspaceAuthority);
    }
    Ok(())
}

/// Refuses a component whose manifest declares more activation steps than
/// `limits` allow, naming the component's id.
pub fn check_activation_bound(manifest: &Manifest, limits: &Limits) -> (r: Result<(), Error>)
    ensures
        if manifest.component.max_activation_steps > limits.max_activation_steps {
            r == Err::<(), Error>(Error::ActivationLimit(manifest.component.id))
        } else {
            r is Ok
        },
{
    if manifest.component.max_activation_steps > limits.max_activation_steps {
        return Err(Error::ActivationLimit(manifest.component.id.clone()));
    }
    Ok(())
}

/// The path of a child `entry` below `path`.
pub open spec fn child_path_of(path: Seq<char>, entry: Seq<char>) -> Seq<char> {
    path + seq!['/'] + entry
}

/// Checks child `k` of the component at `path` before it is prepared: its
/// entry must differ from those of the children before it. Returns the
/// child's path, or the duplicate at that path.
pub fn check_child(path: &str, children: &Vec<ComponentSpec>, k: usize) -> (r: Result<String, Error>)
    requires
        k < children@.len(),
    ensures
        if exists|j: int| 0 <= j < k && (#[trigger] children@[j]).entry@ == children@[k as int].entry@ {
            r matches Err(Error::DuplicateEntry(p)) && p@ == child_path_of(path@, children@[k as int].entry@)
        } else {
            r matches Ok(p) && p@ == child_path_of(path@, children@[k as int].entry@)
        },
{
    let mut child = path.to_owned();
    proof {
        reveal_strlit("/");
    }
    child.append("/");
    child.append(children[k].entry.as_str());
    let mut j: usize = 0;
    while j < k
        invariant
            k < children@.len(),
            j <= k,
            child@ == child_path_of(path@, children@[k as int].entry@),
            forall|m: int| 0 <= m < j ==> children@[m].entry@ != children@[k as int].entry@,
        decreases k - j,
    {
        if children[j].entry == children[k].entry {
            assert(children@[j as int].entry@ == children@[k as int].entry@);
            return Err(Error::DuplicateEntry(child));
        }
        j += 1;
    }
    Ok(child)
}

/// Refuses a component that admits more snapshot grants than `limits` allow.
pub fn check_snapshot_count(grants: &Vec<SnapshotGrant>, limits: &Limits) -> (r: Result<(), Error>)
    ensures
        if grants@.len() > limits.max_snapshot_grants {
            r == Err::<(), Error>(Error::SnapshotGrantLimit { actual: grants@.len() as usize, limit: limits.max_snapshot_grants })
        } else {
            r is Ok
        },
{
    if grants.len() > limits.max_snapshot_grants {
        return Err(Error::SnapshotGrantLimit { actual: grants.len(), limit: limits.max_snapshot_grants });
    }
    Ok(())
}

/// Two snapshot grants admit the same file with the same pins.
pub open spec fn same_snapshot_grant(a: SnapshotGrant, b: SnapshotGrant) -> bool {
    a.path@ == b.path@ && a.provenance@ == b.provenance@ && a.byte_len == b.byte_len && a.sha256@ == b.sha256@
}

/// Checks snapshot grant `k` of the component at `path` before its file
/// is read: it names a provenance and repeats no earlier grant.
pub fn check_snapshot_grant(path: &str, grants: &Vec<SnapshotGrant>, k: usize) -> (r: Result<(), Error>)
    requires
        k < grants@.len(),
    ensures
        if grants@[k as int].provenance@.len() == 0
            || exists|j: int| 0 <= j < k && same_snapshot_grant(#[trigger] grants@[j], grants@[k as int]) {
            r matches Err(Error::Declaration { path: p, issue: i }) && p@ == path@
                && i == DeclarationIssue::InvalidSnapshotGrant
        } else {
            r is Ok
        },
{
    let g = &grants[k];
    if g.provenance.as_str().is_empty() {
        return refuse(path, DeclarationIssue::InvalidSnapshotGrant);
    }
    let mut j: usize = 0;
    while j < k
        invariant
            k < grants@.len(),
            j <= k,
            *g == grants@[k as int],
            forall|m: int| 0 <= m < j ==> !same_snapshot_grant(grants@[m], grants@[k as int]),
        decreases k - j,
    {
        let h = &grants[j];
        if h.path == g.path && h.provenance == g.provenance && h.byte_len == g.byte_len && h.sha256 == g.sha256 {
            assert(same_snapshot_grant(grants@[j as int], grants@[k as int]));
            return refuse(path, DeclarationIssue::InvalidSnapshotGrant);
        }
        j += 1;
    }
    Ok(())
}

/// Refuses a snapshot of `len` bytes, as declared by the file system or as
/// read, when it exceeds the snapshot bound of `limits`.
pub fn check_snapshot_size(len: usize, limits: &Limits) -> (r: Result<(), Error>)
    ensures
        if len > limits.max_snapshot_bytes {
            r == Err::<(), Error>(Error::SnapshotBytesLimit { actual: len, limit: limits.max_snapshot_bytes })
        } else {
            r is Ok
        },
{
    if len > limits.max_snapshot_bytes {
        return Err(Error::SnapshotBytesLimit { actual: len, limit: limits.max_snapshot_bytes });
    }
    Ok(())
}

/// Accepts the bytes read for a snapshot grant only when they have the
/// length and SHA-256 digest the grant pins; otherwise reports the grant's
/// path, its digest, and the digest of the bytes.
pub fn check_snapshot_digest(grant: &SnapshotGrant, bytes: &[u8]) -> (r: Result<(), Error>)
    ensures
        if grant.byte_len == bytes@.len() && encode_utf8(grant.sha256@) == spec_sha256_hex(bytes@) {
            r is Ok
        } else {
            r matches Err(Error::SnapshotDigestMismatch { path, expected, actual })
                && path == grant.path && expected == grant.sha256 && actual@ == spec_sha256_hex(bytes@)
        },
{
    let actual = sha256_hex(bytes);
    if grant.byte_len != bytes.len() as u64 || !bytes_equal(grant.sha256.as_str().as_bytes(), actual.as_slice()) {
        return Err(Error::SnapshotDigestMismatch { path: grant.path.clone(), expected: grant.sha256.clone(), actual });
    }
    Ok(())
}

/// Takes the SHA-256 digest of the bytes read for the artifact at `path`
/// and returns it, hex-encoded, where the declaration pins no digest or
/// pins this one; otherwise reports the path, the pinned digest, and the
/// digest of the bytes.
pub fn check_artifact_digest(path: &str, bytes: &[u8], expected: Option<&str>) -> (r: Result<Vec<u8>, Error>)
    ensures
        r matches Ok(d) ==> d@ == spec_sha256_hex(bytes@),
        r is Ok <==> (expected is None || encode_utf8(expected->0@) == spec_sha256_hex(bytes@)),
        r matches Err(e) ==> e matches Error::ArtifactDigestMismatch { path: p, expected: x, actual: a }
            && p@ == path@ && x@ == expected->0@ && a@ == spec_sha256_hex(bytes@),
{
    let actual = sha256_hex(bytes);
    match expected {
        Some(pinned) => {
            if !bytes_equal(pinned.as_bytes(), actual.as_slice()) {
                return Err(Error::ArtifactDigestMismatch { path: path.to_string(), expected: pinned.to_string(), actual });
            }
        },
        None => {},
    }
    Ok(actual)
}

/// The persistence bootstrap component admits one journal path, at most
/// one event stream path, and no grants, children or patches.
pub open spec fn bootstrap_shaped(spec: ComponentSpec) -> bool {
    &&& spec.journal_paths@.len() == 1
    &&& spec.event_stream_paths@.len() <= 1
    &&& spec.event_grants@.len() == 0
    &&& spec.snapshot_grants@.len() == 0
    &&& spec.exchange_grants@.len() == 0
    &&& spec.children@.len() == 0
    &&& spec.patches@.len() == 0
}

/// Checks the shape of the persistence bootstrap component.
pub fn check_bootstrap(spec: &ComponentSpec) -> (r: Result<(), Error>)
    ensures
        r is Ok <==> bootstrap_shaped(*spec),
        r matches Err(e) ==> e == Error::Persistence(PersistenceIssue::BootstrapShape),
{
    if spec.journal_paths.len() != 1 || spec.event_stream_paths.len() > 1 || spec.event_grants.len() != 0
        || spec.snapshot_grants.len() != 0 || spec.exchange_grants.len() != 0 || spec.children.len() != 0
        || spec.patches.len() != 0 {
        return Err(Error::Persistence(PersistenceIssue::BootstrapShape));
    }
    Ok(())
}

/// The identity after the largest of `ids`, or one when there is none.
pub open spec fn next_after(ids: Seq<u64>) -> int
    decreases ids.len(),
{
    if ids.len() == 0 {
        1
    } else {
        let rest = next_after(ids.drop_last());
        if ids.last() + 1 > rest { ids.last() + 1 } else { rest }
    }
}

/// The next event identity after recovery: the journal's recorded one,
/// which must not precede the identity after the recovered outbox's
/// events, raised to the event stream's next identity.
pub fn recovered_next_event_id(outbox_ids: &Vec<u64>, recorded_next: u64, stream_next: u64) -> (r: Result<u64, Error>)
    requires
        forall|k: int| 0 <= k < outbox_ids@.len() ==> #[trigger] outbox_ids@[k] < u64::MAX,
    ensures
        if recorded_next < next_after(outbox_ids@) {
            r == Err::<u64, Error>(Error::JournalCorrupt(JournalIssue::OutboxAhead))
        } else {
            r == Ok::<u64, Error>(if recorded_next >= stream_next { recorded_next } else { stream_next })
        },
{
    let mut next: u64 = 1;
    let mut k: usize = 0;
    while k < outbox_ids.len()
        invariant
            k <= outbox_ids@.len(),
            forall|j: int| 0 <= j < outbox_ids@.len() ==> #[trigger] outbox_ids@[j] < u64::MAX,
            next == next_after(outbox_ids@.take(k as int)),
        decreases outbox_ids@.len() - k,
    {
        assert(outbox_ids@.take(k + 1).drop_last() == outbox_ids@.take(k as int));
        if outbox_ids[k] + 1 > next {
            next = outbox_ids[k] + 1;
        }
        k += 1;
    }
    assert(outbox_ids@.take(outbox_ids@.len() as int) == outbox_ids@);
    if recorded_next < next {
        return Err(Error::JournalCorrupt(JournalIssue::OutboxAhead));
    }
    Ok(if recorded_next >= stream_next { recorded_next } else { stream_next })
}

} // verus!
