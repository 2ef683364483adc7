//! The desired composition as a tree of component specifications: finding
//! the component at a path and replacing it.

use vstd::prelude::*;
use vstd::string::StringSliceAdditionalSpecFns;
use vstd::utf8::encode_utf8;
use crate::component::{ComponentSpec, ComponentTree};
use crate::composition::{bytes_equal, CompositionPatch, SLASH};
use crate::exchange::ExchangeGrant;
use crate::journal::{EventGrant, SnapshotGrant};
use crate::preparation::{same_event_grant, same_snapshot_grant};
use crate::repository::WorkspaceGrant;
use crate::error::Error;

verus! {

/// The `/`-separated segments of a path, empty ones included.
pub open spec fn path_segments(p: Seq<u8>) -> Seq<Seq<u8>>
    decreases p.len(),
{
    if p.len() == 0 {
        seq![Seq::empty()]
    } else {
        let prev = path_segments(p.drop_last());
        if p.last() == SLASH {
            prev.push(Seq::empty())
        } else {
            prev.update(prev.len() - 1, prev.last().push(p.last()))
        }
    }
}

proof fn lemma_path_segments_len(p: Seq<u8>)
    ensures
        path_segments(p).len() >= 1,
    decreases p.len(),
{
    if p.len() > 0 {
        lemma_path_segments_len(p.drop_last());
    }
}

/// The values of a list of byte strings.
pub open spec fn byte_strings(v: Seq<Vec<u8>>) -> Seq<Seq<u8>> {
    v.map_values(|x: Vec<u8>| x@)
}

/// Splits a path at its separators.
pub fn split_path(path: &str) -> (r: Vec<Vec<u8>>)
    ensures
        byte_strings(r@) == path_segments(path.spec_bytes()),
{
    let p = path.as_bytes();
    let mut segments: Vec<Vec<u8>> = Vec::new();
    let mut current: Vec<u8> = Vec::new();
    let mut i: usize = 0;
    while i < p.len()
        invariant
            p@ == path.spec_bytes(),
            i <= p@.len(),
            byte_strings(segments@).push(current@) == path_segments(p@.take(i as int)),
        decreases p@.len() - i,
    {
        assert(p@.take(i + 1).drop_last() == p@.take(i as int));
        assert(p@.take(i + 1).last() == p@[i as int]);
        proof {
            lemma_path_segments_len(p@.take(i as int));
        }
        if p[i] == SLASH {
            let done = current;
            segments.push(done);
            current = Vec::new();
            assert(byte_strings(segments@) == byte_strings(segments@.drop_last()).push(done@));
        } else {
            let ghost before = current@;
            current.push(p[i]);
            assert(current@ == before.push(p@[i as int]));
        }
        assert(byte_strings(segments@).push(current@) =~= path_segments(p@.take(i + 1)));
        i += 1;
    }
    assert(p@.take(p@.len() as int) == p@);
    segments.push(current);
    assert(byte_strings(segments@) =~= path_segments(p@));
    segments
}

/// Child `k` of `children` is the first whose entry is `segment`.
pub open spec fn child_named(children: Seq<ComponentSpec>, segment: Seq<u8>, k: int) -> bool {
    &&& 0 <= k < children.len()
    &&& encode_utf8(children[k].entry@) == segment
    &&& forall|j: int| 0 <= j < k ==> encode_utf8(#[trigger] children[j].entry@) != segment
}

pub(crate) proof fn lemma_child_named_unique(children: Seq<ComponentSpec>, segment: Seq<u8>, k1: int, k2: int)
    requires
        child_named(children, segment, k1),
        child_named(children, segment, k2),
    ensures
        k1 == k2,
{
    if k1 < k2 {
        assert(encode_utf8(children[k1].entry@) != segment);
    }
    if k2 < k1 {
        assert(encode_utf8(children[k2].entry@) != segment);
    }
}

/// The component reached from `spec` by following `segments` through the
/// first child of each name.
pub open spec fn lookup(spec: ComponentSpec, segments: Seq<Seq<u8>>) -> Option<ComponentSpec>
    decreases segments.len(),
{
    if segments.len() == 0 {
        Some(spec)
    } else if exists|k: int| child_named(spec.children@, segments[0], k) {
        let k = choose|k: int| child_named(spec.children@, segments[0], k);
        lookup(spec.children@[k], segments.drop_first())
    } else {
        None
    }
}

/// The component at `path` in `tree`: the root named by its first segment,
/// then the children named by the others.
pub open spec fn tree_lookup(tree: ComponentTree, path: Seq<u8>) -> Option<ComponentSpec> {
    let segments = path_segments(path);
    if exists|k: int| child_named(tree.roots@, segments[0], k) {
        let k = choose|k: int| child_named(tree.roots@, segments[0], k);
        lookup(tree.roots@[k], segments.drop_first())
    } else {
        None
    }
}

/// The position of the first component of `children` named `segment`.
pub(crate) fn find_named(children: &Vec<ComponentSpec>, segment: &[u8]) -> (r: Option<usize>)
    ensures
        match r {
            Some(k) => child_named(children@, segment@, k as int),
            None => !exists|k: int| child_named(children@, segment@, k),
        },
{
    let mut k: usize = 0;
    while k < children.len()
        invariant
            k <= children@.len(),
            forall|j: int| 0 <= j < k ==> encode_utf8(#[trigger] children@[j].entry@) != segment@,
        decreases children@.len() - k,
    {
        if bytes_equal(children[k].entry.as_str().as_bytes(), segment) {
            return Some(k);
        }
        k += 1;
    }
    proof {
        assert forall|k: int| !child_named(children@, segment@, k) by {
            if 0 <= k < children@.len() {
                assert(encode_utf8(children@[k].entry@) != segment@);
            }
        }
    }
    None
}

/// Returns the component at `path` in `tree`, if there is one.
pub fn desired_spec<'a>(tree: &'a ComponentTree, path: &str) -> (r: Option<&'a ComponentSpec>)
    ensures
        match r {
            Some(s) => tree_lookup(*tree, path.spec_bytes()) == Some(*s),
            None => tree_lookup(*tree, path.spec_bytes()) is None,
        },
{
    let segments = split_path(path);
    let ghost segs = path_segments(path.spec_bytes());
    proof {
        lemma_path_segments_len(path.spec_bytes());
    }
    assert(segments@[0]@ == segs[0]);
    let k = match find_named(&tree.roots, segments[0].as_slice()) {
        None => return None,
        Some(k) => k,
    };
    proof {
        lemma_child_named_unique(tree.roots@, segs[0], k as int, choose|j: int| child_named(tree.roots@, segs[0], j));
    }
    let mut current: &ComponentSpec = &tree.roots[k];
    let mut i: usize = 1;
    while i < segments.len()
        invariant
            byte_strings(segments@) == segs,
            segs.len() >= 1,
            1 <= i <= segs.len(),
            tree_lookup(*tree, path.spec_bytes()) == lookup(*current, segs.skip(i as int)),
        decreases segs.len() - i,
    {
        let ghost rest = segs.skip(i as int);
        assert(segments@[i as int]@ == segs[i as int]);
        assert(rest[0] == segs[i as int]);
        assert(rest.drop_first() =~= segs.skip(i + 1));
        match find_named(&current.children, segments[i].as_slice()) {
            None => return None,
            Some(c) => {
                proof {
                    lemma_child_named_unique(current.children@, rest[0], c as int, choose|j: int| child_named(current.children@, rest[0], j));
                }
                current = &current.children[c];
            },
        }
        i += 1;
    }
    assert(segs.skip(i as int).len() == 0);
    Some(current)
}

/// `after` is `before` with the component reached by `segments` replaced by
/// `replacement`, every other component kept.
pub open spec fn replaced_in(before: ComponentSpec, after: ComponentSpec, segments: Seq<Seq<u8>>, replacement: ComponentSpec) -> bool
    decreases segments.len(),
{
    if segments.len() == 0 {
        after == replacement
    } else if exists|k: int| child_named(before.children@, segments[0], k) {
        let k = choose|k: int| child_named(before.children@, segments[0], k);
        &&& after.children@.len() == before.children@.len()
        &&& forall|j: int| 0 <= j < before.children@.len() && j != k ==> after.children@[j] == before.children@[j]
        &&& replaced_in(before.children@[k], after.children@[k], segments.drop_first(), replacement)
        &&& after == (ComponentSpec { children: after.children, ..before })
    } else {
        false
    }
}

/// `after` is `tree` with the component at `path` replaced by `replacement`.
pub open spec fn tree_replaced(before: ComponentTree, after: ComponentTree, path: Seq<u8>, replacement: ComponentSpec) -> bool {
    let segments = path_segments(path);
    let k = choose|k: int| child_named(before.roots@, segments[0], k);
    &&& exists|k: int| child_named(before.roots@, segments[0], k)
    &&& after.roots@.len() == before.roots@.len()
    &&& forall|j: int| 0 <= j < before.roots@.len() && j != k ==> after.roots@[j] == before.roots@[j]
    &&& replaced_in(before.roots@[k], after.roots@[k], segments.drop_first(), replacement)
}

/// Replaces the component reached from `current` by `segments[from..]`,
/// which exists.
fn replace_below(current: &mut ComponentSpec, segments: &Vec<Vec<u8>>, from: usize, replacement: ComponentSpec)
    requires
        from <= segments@.len(),
        lookup(*old(current), byte_strings(segments@).skip(from as int)) is Some,
    ensures
        replaced_in(*old(current), *final(current), byte_strings(segments@).skip(from as int), replacement),
    decreases segments@.len() - from,
{
    let ghost rest = byte_strings(segments@).skip(from as int);
    if from == segments.len() {
        *current = replacement;
        return;
    }
    assert(rest[0] == segments@[from as int]@);
    assert(rest.drop_first() =~= byte_strings(segments@).skip(from + 1));
    let k = match find_named(&current.children, segments[from].as_slice()) {
        Some(k) => k,
        None => {
            assert(false);
            return;
        },
    };
    proof {
        lemma_child_named_unique(current.children@, rest[0], k as int, choose|j: int| child_named(current.children@, rest[0], j));
    }
    let mut child = current.children.remove(k);
    replace_below(&mut child, segments, from + 1, replacement);
    current.children.insert(k, child);
    proof {
        assert(current.children@.len() == old(current).children@.len());
        assert forall|j: int| 0 <= j < old(current).children@.len() && j != k implies current.children@[j] == old(current).children@[j] by {
            if j < k {
                assert(current.children@[j] == old(current).children@[j]);
            } else {
                assert(current.children@[j] == old(current).children@[j]);
            }
        }
    }
}

/// Replaces the component at `path` in `tree` with `replacement`; refuses
/// a path at which no component stands, changing nothing.
pub fn replace_desired(tree: &mut ComponentTree, path: &str, replacement: ComponentSpec) -> (r: Result<(), Error>)
    ensures
        match tree_lookup(*old(tree), path.spec_bytes()) {
            None => r matches Err(Error::UnknownEntry(p)) && p@ == path@ && *final(tree) == *old(tree),
            Some(_) => r is Ok && tree_replaced(*old(tree), *final(tree), path.spec_bytes(), replacement),
        },
{
    if desired_spec(tree, path).is_none() {
        return Err(Error::UnknownEntry(path.to_owned()));
    }
    let segments = split_path(path);
    let ghost segs = path_segments(path.spec_bytes());
    proof {
        lemma_path_segments_len(path.spec_bytes());
    }
    assert(segments@[0]@ == segs[0]);
    let k = match find_named(&tree.roots, segments[0].as_slice()) {
        Some(k) => k,
        None => {
            assert(false);
            return Ok(());
        },
    };
    proof {
        lemma_child_named_unique(tree.roots@, segs[0], k as int, choose|j: int| child_named(tree.roots@, segs[0], j));
        assert(segs.skip(1) =~= segs.drop_first());
    }
    let mut root = tree.roots.remove(k);
    replace_below(&mut root, &segments, 1, replacement);
    tree.roots.insert(k, root);
    proof {
        assert forall|j: int| 0 <= j < old(tree).roots@.len() && j != k implies tree.roots@[j] == old(tree).roots@[j] by {
            if j < k {
                assert(tree.roots@[j] == old(tree).roots@[j]);
            } else {
                assert(tree.roots@[j] == old(tree).roots@[j]);
            }
        }
    }
    Ok(())
}

proof fn lemma_lookup_replaced(before: ComponentSpec, after: ComponentSpec, segments: Seq<Seq<u8>>, replacement: ComponentSpec)
    requires
        replaced_in(before, after, segments, replacement),
        segments.len() > 0 ==> encode_utf8(replacement.entry@) == segments.last(),
    ensures
        lookup(after, segments) == Some(replacement),
        segments.len() > 0 ==> after.entry == before.entry,
    decreases segments.len(),
{
    if segments.len() > 0 {
        let k = choose|k: int| child_named(before.children@, segments[0], k);
        let rest = segments.drop_first();
        if rest.len() > 0 {
            assert(rest.last() == segments.last());
        }
        lemma_lookup_replaced(before.children@[k], after.children@[k], rest, replacement);
        assert forall|j: int| 0 <= j < k implies encode_utf8(#[trigger] after.children@[j].entry@) != segments[0] by {
            assert(after.children@[j] == before.children@[j]);
        }
        assert(child_named(after.children@, segments[0], k));
        lemma_child_named_unique(after.children@, segments[0], k, choose|j: int| child_named(after.children@, segments[0], j));
    }
}

/// What a replacement writes at a path is what a lookup there reads back,
/// when the replacement's entry is the path's last segment.
pub proof fn lemma_lookup_after_replace(before: ComponentTree, after: ComponentTree, path: Seq<u8>, replacement: ComponentSpec)
    requires
        tree_replaced(before, after, path, replacement),
        encode_utf8(replacement.entry@) == path_segments(path).last(),
    ensures
        tree_lookup(after, path) == Some(replacement),
{
    let segments = path_segments(path);
    lemma_path_segments_len(path);
    let k = choose|k: int| child_named(before.roots@, segments[0], k);
    let rest = segments.drop_first();
    if rest.len() > 0 {
        assert(rest.last() == segments.last());
    }
    lemma_lookup_replaced(before.roots@[k], after.roots@[k], rest, replacement);
    assert forall|j: int| 0 <= j < k implies encode_utf8(#[trigger] after.roots@[j].entry@) != segments[0] by {
        assert(after.roots@[j] == before.roots@[j]);
    }
    assert(child_named(after.roots@, segments[0], k));
    lemma_child_named_unique(after.roots@, segments[0], k, choose|j: int| child_named(after.roots@, segments[0], j));
}

/// Two lists of strings hold the same texts in the same order.
pub open spec fn same_strings(a: Seq<String>, b: Seq<String>) -> bool {
    a.len() == b.len() && forall|i: int| 0 <= i < a.len() ==> #[trigger] a[i]@ == b[i]@
}

/// Two exchange grants admit the same adapter, ledger and bounds.
pub open spec fn same_exchange_grant(a: ExchangeGrant, b: ExchangeGrant) -> bool {
    &&& a.adapter@ == b.adapter@
    &&& a.ledger_path@ == b.ledger_path@
    &&& a.max_request_bytes == b.max_request_bytes
    &&& a.max_response_bytes == b.max_response_bytes
    &&& a.timeout_ms == b.timeout_ms
}

/// Two workspace grants admit the same mutation.
pub open spec fn same_workspace_grant(a: WorkspaceGrant, b: WorkspaceGrant) -> bool {
    &&& a.source_path@ == b.source_path@
    &&& a.ledger_path@ == b.ledger_path@
    &&& a.operation == b.operation
    &&& a.provenance@ == b.provenance@
    &&& a.before_sha256@ == b.before_sha256@
    &&& a.result_sha256@ == b.result_sha256@
    &&& a.max_bytes == b.max_bytes
}

/// Two declarations grant the same authority, in the same order.
pub open spec fn same_grants(a: ComponentSpec, b: ComponentSpec) -> bool {
    &&& same_strings(a.journal_paths@, b.journal_paths@)
    &&& same_strings(a.event_stream_paths@, b.event_stream_paths@)
    &&& a.event_grants@.len() == b.event_grants@.len()
    &&& forall|i: int| 0 <= i < a.event_grants@.len() ==> #[trigger] same_event_grant(a.event_grants@[i], b.event_grants@[i])
    &&& a.snapshot_grants@.len() == b.snapshot_grants@.len()
    &&& forall|i: int| 0 <= i < a.snapshot_grants@.len() ==> #[trigger] same_snapshot_grant(a.snapshot_grants@[i], b.snapshot_grants@[i])
    &&& a.exchange_grants@.len() == b.exchange_grants@.len()
    &&& forall|i: int| 0 <= i < a.exchange_grants@.len() ==> #[trigger] same_exchange_grant(a.exchange_grants@[i], b.exchange_grants@[i])
    &&& a.workspace_grants@.len() == b.workspace_grants@.len()
    &&& forall|i: int| 0 <= i < a.workspace_grants@.len() ==> #[trigger] same_workspace_grant(a.workspace_grants@[i], b.workspace_grants@[i])
}

/// Two declarations are the same: entry, artifact and its pin,
/// configuration, grants, and, in order, the same children and the same
/// patches (a patch being the same when it requests the same change).
pub open spec fn same_declaration(a: ComponentSpec, b: ComponentSpec) -> bool
    decreases a,
{
    &&& a.entry@ == b.entry@
    &&& a.artifact@ == b.artifact@
    &&& match (a.artifact_digest, b.artifact_digest) {
        (Some(x), Some(y)) => x@ == y@,
        (None, None) => true,
        _ => false,
    }
    &&& a.config == b.config
    &&& same_grants(a, b)
    &&& a.children@.len() == b.children@.len()
    &&& forall|i: int| #![trigger a.children@[i]] 0 <= i < a.children@.len() ==> same_declaration(a.children@[i], b.children@[i])
    &&& a.patches@.len() == b.patches@.len()
    &&& forall|i: int| #![trigger a.patches@[i]] 0 <= i < a.patches@.len() ==> match (a.patches@[i], b.patches@[i]) {
        (CompositionPatch::AddRoot { root: x }, CompositionPatch::AddRoot { root: y }) => same_declaration(*x, *y),
        (CompositionPatch::RemoveRoot { entry: x }, CompositionPatch::RemoveRoot { entry: y }) => x@ == y@,
        (CompositionPatch::Replace { path: p, replacement: x }, CompositionPatch::Replace { path: q, replacement: y }) =>
            p@ == q@ && same_declaration(*x, *y),
        _ => false,
    }
}

/// Two patches request the same change.
pub open spec fn same_patch_request(a: CompositionPatch, b: CompositionPatch) -> bool {
    match (a, b) {
        (CompositionPatch::AddRoot { root: x }, CompositionPatch::AddRoot { root: y }) => same_declaration(*x, *y),
        (CompositionPatch::RemoveRoot { entry: x }, CompositionPatch::RemoveRoot { entry: y }) => x@ == y@,
        (CompositionPatch::Replace { path: p, replacement: x }, CompositionPatch::Replace { path: q, replacement: y }) =>
            p@ == q@ && same_declaration(*x, *y),
        _ => false,
    }
}

proof fn lemma_children_differ(a: ComponentSpec, b: ComponentSpec, i: int)
    requires
        0 <= i < a.children@.len(),
        !same_declaration(a.children@[i], b.children@[i]),
    ensures
        !same_declaration(a, b),
{
}

proof fn lemma_patches_differ(a: ComponentSpec, b: ComponentSpec, i: int)
    requires
        0 <= i < a.patches@.len(),
        !same_patch_request(a.patches@[i], b.patches@[i]),
    ensures
        !same_declaration(a, b),
{
}

proof fn lemma_same_declaration(a: ComponentSpec, b: ComponentSpec)
    requires
        a.entry@ == b.entry@,
        a.artifact@ == b.artifact@,
        match (a.artifact_digest, b.artifact_digest) {
            (Some(x), Some(y)) => x@ == y@,
            (None, None) => true,
            _ => false,
        },
        a.config == b.config,
        same_grants(a, b),
        a.children@.len() == b.children@.len(),
        forall|i: int| #![trigger a.children@[i]] 0 <= i < a.children@.len() ==> same_declaration(a.children@[i], b.children@[i]),
        a.patches@.len() == b.patches@.len(),
        forall|i: int| #![trigger a.patches@[i]] 0 <= i < a.patches@.len() ==> same_patch_request(a.patches@[i], b.patches@[i]),
    ensures
        same_declaration(a, b),
{
}

/// Whether two lists of strings hold the same texts in the same order.
fn strings_match(a: &Vec<String>, b: &Vec<String>) -> (r: bool)
    ensures
        r == same_strings(a@, b@),
{
    if a.len() != b.len() {
        return false;
    }
    let mut i: usize = 0;
    while i < a.len()
        invariant
            a@.len() == b@.len(),
            i <= a@.len(),
            forall|k: int| 0 <= k < i ==> #[trigger] a@[k]@ == b@[k]@,
        decreases a@.len() - i,
    {
        if a[i] != b[i] {
            assert(a@[i as int]@ != b@[i as int]@);
            return false;
        }
        i += 1;
    }
    true
}

/// Whether two declarations grant the same authority in the same order.
fn grants_match(a: &ComponentSpec, b: &ComponentSpec) -> (r: bool)
    ensures
        r == same_grants(*a, *b),
{
    if !strings_match(&a.journal_paths, &b.journal_paths) || !strings_match(&a.event_stream_paths, &b.event_stream_paths) {
        return false;
    }
    let (x, y) = (&a.event_grants, &b.event_grants);
    if x.len() != y.len() {
        return false;
    }
    let mut i: usize = 0;
    while i < x.len()
        invariant
            x == &a.event_grants,
            y == &b.event_grants,
            x@.len() == y@.len(),
            i <= x@.len(),
            forall|k: int| 0 <= k < i ==> #[trigger] same_event_grant(x@[k], y@[k]),
        decreases x@.len() - i,
    {
        if x[i].namespace != y[i].namespace || x[i].name != y[i].name || x[i].revision != y[i].revision {
            assert(!same_event_grant(x@[i as int], y@[i as int]));
            return false;
        }
        i += 1;
    }
    let (x, y) = (&a.snapshot_grants, &b.snapshot_grants);
    if x.len() != y.len() {
        return false;
    }
    let mut i: usize = 0;
    while i < x.len()
        invariant
            x == &a.snapshot_grants,
            y == &b.snapshot_grants,
            x@.len() == y@.len(),
            i <= x@.len(),
            forall|k: int| 0 <= k < i ==> #[trigger] same_snapshot_grant(x@[k], y@[k]),
        decreases x@.len() - i,
    {
        if x[i].path != y[i].path || x[i].provenance != y[i].provenance || x[i].byte_len != y[i].byte_len
            || x[i].sha256 != y[i].sha256 {
            assert(!same_snapshot_grant(x@[i as int], y@[i as int]));
            return false;
        }
        i += 1;
    }
    let (x, y) = (&a.exchange_grants, &b.exchange_grants);
    if x.len() != y.len() {
        return false;
    }
    let mut i: usize = 0;
    while i < x.len()
        invariant
            x == &a.exchange_grants,
            y == &b.exchange_grants,
            x@.len() == y@.len(),
            i <= x@.len(),
            forall|k: int| 0 <= k < i ==> #[trigger] same_exchange_grant(x@[k], y@[k]),
        decreases x@.len() - i,
    {
        if x[i].adapter != y[i].adapter || x[i].ledger_path != y[i].ledger_path
            || x[i].max_request_bytes != y[i].max_request_bytes || x[i].max_response_bytes != y[i].max_response_bytes
            || x[i].timeout_ms != y[i].timeout_ms {
            assert(!same_exchange_grant(x@[i as int], y@[i as int]));
            return false;
        }
        i += 1;
    }
    let (x, y) = (&a.workspace_grants, &b.workspace_grants);
    if x.len() != y.len() {
        return false;
    }
    let mut i: usize = 0;
    while i < x.len()
        invariant
            x == &a.workspace_grants,
            y == &b.workspace_grants,
            x@.len() == y@.len(),
            i <= x@.len(),
            forall|k: int| 0 <= k < i ==> #[trigger] same_workspace_grant(x@[k], y@[k]),
        decreases x@.len() - i,
    {
        if x[i].source_path != y[i].source_path || x[i].ledger_path != y[i].ledger_path || x[i].operation != y[i].operation
            || x[i].provenance != y[i].provenance || x[i].before_sha256 != y[i].before_sha256
            || x[i].result_sha256 != y[i].result_sha256 || x[i].max_bytes != y[i].max_bytes {
            assert(!same_workspace_grant(x@[i as int], y@[i as int]));
            return false;
        }
        i += 1;
    }
    true
}

/// Returns whether two declarations are the same: entry, artifact and its
/// pin, configuration, grants, and the same children and patches in order.
pub fn same_spec(a: &ComponentSpec, b: &ComponentSpec) -> (r: bool)
    ensures
        r == same_declaration(*a, *b),
    decreases *a, 1nat,
{
    if a.entry != b.entry || a.artifact != b.artifact || a.config != b.config {
        return false;
    }
    let digests = match (&a.artifact_digest, &b.artifact_digest) {
        (Some(x), Some(y)) => *x == *y,
        (None, None) => true,
        _ => false,
    };
    if !digests || !grants_match(a, b) {
        return false;
    }
    if a.children.len() != b.children.len() || a.patches.len() != b.patches.len() {
        return false;
    }
    let mut i: usize = 0;
    while i < a.children.len()
        invariant
            a.children@.len() == b.children@.len(),
            i <= a.children@.len(),
            forall|k: int| #![trigger a.children@[k]] 0 <= k < i ==> same_declaration(a.children@[k], b.children@[k]),
        decreases a.children@.len() - i,
    {
        if !same_spec(&a.children[i], &b.children[i]) {
            proof {
                lemma_children_differ(*a, *b, i as int);
            }
            return false;
        }
        i += 1;
    }
    let mut i: usize = 0;
    while i < a.patches.len()
        invariant
            a.patches@.len() == b.patches@.len(),
            i <= a.patches@.len(),
            forall|k: int| #![trigger a.patches@[k]] 0 <= k < i ==> same_patch_request(a.patches@[k], b.patches@[k]),
        decreases a.patches@.len() - i,
    {
        if !same_patch(&a.patches[i], &b.patches[i]) {
            proof {
                lemma_patches_differ(*a, *b, i as int);
            }
            return false;
        }
        i += 1;
    }
    proof {
        lemma_same_declaration(*a, *b);
    }
    true
}

/// Returns whether two patches request the same change.
pub fn same_patch(a: &CompositionPatch, b: &CompositionPatch) -> (r: bool)
    ensures
        r == same_patch_request(*a, *b),
    decreases *a, 0nat,
{
    match (a, b) {
        (CompositionPatch::AddRoot { root: x }, CompositionPatch::AddRoot { root: y }) => same_spec(x, y),
        (CompositionPatch::RemoveRoot { entry: x }, CompositionPatch::RemoveRoot { entry: y }) => *x == *y,
        (CompositionPatch::Replace { path: p, replacement: x }, CompositionPatch::Replace { path: q, replacement: y }) =>
            *p == *q && same_spec(x, y),
        _ => false,
    }
}

/// The position of the first root of `roots` whose entry is `entry`.
pub open spec fn named_root(roots: Seq<ComponentSpec>, entry: Seq<u8>) -> Option<int> {
    if exists|j: int| child_named(roots, entry, j) {
        Some(choose|j: int| child_named(roots, entry, j))
    } else {
        None
    }
}

/// Two compositions have as many roots, and each root of the first has a
/// same declaration among the second's roots under its entry.
pub open spec fn same_composition(a: ComponentTree, b: ComponentTree) -> bool {
    &&& a.roots@.len() == b.roots@.len()
    &&& forall|k: int| #![trigger a.roots@[k]] 0 <= k < a.roots@.len() ==> match named_root(b.roots@, encode_utf8(a.roots@[k].entry@)) {
        Some(j) => same_declaration(a.roots@[k], b.roots@[j]),
        None => false,
    }
}

/// Returns whether two compositions declare the same roots.
pub fn same_tree(a: &ComponentTree, b: &ComponentTree) -> (r: bool)
    ensures
        r == same_composition(*a, *b),
{
    if a.roots.len() != b.roots.len() {
        return false;
    }
    let mut k: usize = 0;
    while k < a.roots.len()
        invariant
            a.roots@.len() == b.roots@.len(),
            k <= a.roots@.len(),
            forall|m: int| #![trigger a.roots@[m]] 0 <= m < k ==> match named_root(b.roots@, encode_utf8(a.roots@[m].entry@)) {
                Some(j) => same_declaration(a.roots@[m], b.roots@[j]),
                None => false,
            },
        decreases a.roots@.len() - k,
    {
        let entry = a.roots[k].entry.as_str().as_bytes();
        let found = find_named(&b.roots, entry);
        let ghost named = named_root(b.roots@, encode_utf8(a.roots@[k as int].entry@));
        match found {
            None => {
                assert(named is None);
                return false;
            },
            Some(j) => {
                proof {
                    lemma_child_named_unique(b.roots@, entry@, j as int, choose|i: int| child_named(b.roots@, entry@, i));
                }
                assert(named == Some(j as int));
                if !same_spec(&a.roots[k], &b.roots[j]) {
                    return false;
                }
            },
        }
        k += 1;
    }
    true
}

/// Every declaration is the same as itself.
pub proof fn lemma_same_declaration_reflexive(a: ComponentSpec)
    ensures
        same_declaration(a, a),
    decreases a,
{
    assert forall|i: int| #![trigger a.children@[i]] 0 <= i < a.children@.len() implies same_declaration(a.children@[i], a.children@[i]) by {
        lemma_same_declaration_reflexive(a.children@[i]);
    }
    assert forall|i: int| #![trigger a.patches@[i]] 0 <= i < a.patches@.len() implies same_patch_request(a.patches@[i], a.patches@[i]) by {
        match a.patches@[i] {
            CompositionPatch::AddRoot { root } => lemma_same_declaration_reflexive(*root),
            CompositionPatch::RemoveRoot { .. } => {},
            CompositionPatch::Replace { replacement, .. } => lemma_same_declaration_reflexive(*replacement),
        }
    }
    lemma_same_declaration(a, a);
}

/// A composition whose roots have distinct entries is the same as itself.
pub proof fn lemma_same_composition_reflexive(t: ComponentTree)
    requires
        forall|j: int, k: int| 0 <= j < k < t.roots@.len() ==> encode_utf8(#[trigger] t.roots@[j].entry@) != encode_utf8(#[trigger] t.roots@[k].entry@),
    ensures
        same_composition(t, t),
{
    assert forall|k: int| #![trigger t.roots@[k]] 0 <= k < t.roots@.len() implies match named_root(t.roots@, encode_utf8(t.roots@[k].entry@)) {
        Some(j) => same_declaration(t.roots@[k], t.roots@[j]),
        None => false,
    } by {
        let e = encode_utf8(t.roots@[k].entry@);
        assert forall|j: int| 0 <= j < k implies encode_utf8(#[trigger] t.roots@[j].entry@) != e by {
            assert(encode_utf8(t.roots@[j].entry@) != encode_utf8(t.roots@[k].entry@));
        }
        assert(child_named(t.roots@, e, k));
        lemma_child_named_unique(t.roots@, e, k, choose|j: int| child_named(t.roots@, e, j));
        lemma_same_declaration_reflexive(t.roots@[k]);
    }
}

} // verus!
