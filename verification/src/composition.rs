//! Composition patches and the path algebra of component trees.

use vstd::prelude::*;
use vstd::string::StringSliceAdditionalSpecFns;
use crate::component::ComponentSpec;
use crate::error::{Error, PatchIssue};

verus! {

/// A change to the composition that a component may request.
#[derive(Debug, PartialEq, Eq)]
pub enum CompositionPatch {
    AddRoot { root: Box<ComponentSpec> },
    RemoveRoot { entry: String },
    Replace { path: String, replacement: Box<ComponentSpec> },
}


impl CompositionPatch {
    /// A patch that adds `root` as a new root component.
    pub fn add_root(root: ComponentSpec) -> (r: Self)
        ensures
            r == (CompositionPatch::AddRoot { root: Box::new(root) }),
    {
        CompositionPatch::AddRoot { root: Box::new(root) }
    }

    /// A patch that removes the root named `entry`.
    pub fn remove_root(entry: String) -> (r: Self)
        ensures
            r == (CompositionPatch::RemoveRoot { entry }),
    {
        CompositionPatch::RemoveRoot { entry }
    }

    /// A patch that replaces the component at `path` with `replacement`.
    pub fn replace(path: String, replacement: ComponentSpec) -> (r: Self)
        ensures
            r == (CompositionPatch::Replace { path, replacement: Box::new(replacement) }),
    {
        CompositionPatch::Replace { path, replacement: Box::new(replacement) }
    }

    /// The path a patch changes.
    pub open spec fn spec_target(&self) -> Seq<char> {
        match self {
            CompositionPatch::AddRoot { root } => root.entry@,
            CompositionPatch::RemoveRoot { entry } => entry@,
            CompositionPatch::Replace { path, .. } => path@,
        }
    }

    /// Returns the path the patch changes: the added root's entry, the
    /// removed entry, or the replaced path.
    pub fn target(&self) -> (r: &str)
        ensures
            r@ == self.spec_target(),
    {
        match self {
            CompositionPatch::AddRoot { root } => root.entry.as_str(),
            CompositionPatch::RemoveRoot { entry } => entry.as_str(),
            CompositionPatch::Replace { path, .. } => path.as_str(),
        }
    }
}

/// The path separator of component paths.
pub const SLASH: u8 = 47;

/// `ancestor` names `path` itself or a component above it.
pub open spec fn same_or_ancestor(ancestor: Seq<u8>, path: Seq<u8>) -> bool {
    path == ancestor || (ancestor.len() < path.len()
        && path.subrange(0, ancestor.len() as int) == ancestor
        && path[ancestor.len() as int] == SLASH)
}

/// One of two paths names the other or a component above it.
pub open spec fn spec_paths_overlap(left: Seq<u8>, right: Seq<u8>) -> bool {
    same_or_ancestor(left, right) || same_or_ancestor(right, left)
}

/// Every `/`-separated segment of the path is non-empty.
pub open spec fn segments_non_empty(path: Seq<u8>) -> bool {
    &&& path.len() > 0
    &&& path[0] != SLASH
    &&& path[path.len() - 1] != SLASH
    &&& forall|i: int| 0 <= i < path.len() - 1 && #[trigger] path[i] == SLASH ==> path[i + 1] != SLASH
}

/// Whether two byte strings are equal.
pub fn bytes_equal(a: &[u8], b: &[u8]) -> (r: bool)
    ensures
        r == (a@ == b@),
{
    if a.len() != b.len() {
        return false;
    }
    let mut i: usize = 0;
    while i < a.len()
        invariant
            a@.len() == b@.len(),
            i <= a@.len(),
            a@.subrange(0, i as int) == b@.subrange(0, i as int),
        decreases a@.len() - i,
    {
        if a[i] != b[i] {
            assert(a@.subrange(0, i + 1)[i as int] != b@.subrange(0, i + 1)[i as int]);
            return false;
        }
        assert(a@.subrange(0, i + 1) == a@.subrange(0, i as int).push(a@[i as int]));
        assert(b@.subrange(0, i + 1) == b@.subrange(0, i as int).push(b@[i as int]));
        i += 1;
    }
    assert(a@.subrange(0, a@.len() as int) == a@);
    assert(b@.subrange(0, b@.len() as int) == b@);
    true
}

/// Whether `prefix` begins `whole`.
pub fn has_prefix(whole: &[u8], prefix: &[u8]) -> (r: bool)
    ensures
        r == (prefix@.len() <= whole@.len()
            && whole@.subrange(0, prefix@.len() as int) == prefix@),
{
    if prefix.len() > whole.len() {
        return false;
    }
    let mut i: usize = 0;
    while i < prefix.len()
        invariant
            prefix@.len() <= whole@.len(),
            i <= prefix@.len(),
            whole@.subrange(0, i as int) == prefix@.subrange(0, i as int),
        decreases prefix@.len() - i,
    {
        if whole[i] != prefix[i] {
            assert(whole@.subrange(0, prefix@.len() as int)[i as int] != prefix@[i as int]);
            return false;
        }
        assert(whole@.subrange(0, i + 1) == whole@.subrange(0, i as int).push(whole@[i as int]));
        assert(prefix@.subrange(0, i + 1) == prefix@.subrange(0, i as int).push(prefix@[i as int]));
        i += 1;
    }
    assert(prefix@.subrange(0, prefix@.len() as int) == prefix@);
    true
}

/// Returns whether `ancestor` is `path` itself or one of its ancestors.
pub fn is_same_or_ancestor(ancestor: &str, path: &str) -> (r: bool)
    ensures
        r == same_or_ancestor(ancestor.spec_bytes(), path.spec_bytes()),
{
    let a = ancestor.as_bytes();
    let p = path.as_bytes();
    if bytes_equal(a, p) {
        return true;
    }
    has_prefix(p, a) && a.len() < p.len() && p[a.len()] == SLASH
}

/// Returns whether either path is the other or an ancestor of it.
pub fn paths_overlap(left: &str, right: &str) -> (r: bool)
    ensures
        r == spec_paths_overlap(left.spec_bytes(), right.spec_bytes()),
{
    is_same_or_ancestor(left, right) || is_same_or_ancestor(right, left)
}

/// Accepts a patch target whose `/`-separated segments are all non-empty.
pub fn validate_patch_path(path: &str) -> (r: Result<(), Error>)
    ensures
        r is Ok <==> segments_non_empty(path.spec_bytes()),
        r matches Err(e) ==> e == Error::InvalidPatch(PatchIssue::EmptySegment),
{
    let p = path.as_bytes();
    if p.len() == 0 || p[0] == SLASH || p[p.len() - 1] == SLASH {
        return Err(Error::InvalidPatch(PatchIssue::EmptySegment));
    }
    let mut i: usize = 0;
    while i < p.len() - 1
        invariant
            p@ == path.spec_bytes(),
            p@.len() > 0,
            i < p@.len(),
            forall|k: int| 0 <= k < i && #[trigger] p@[k] == SLASH ==> p@[k + 1] != SLASH,
        decreases p@.len() - i,
    {
        if p[i] == SLASH && p[i + 1] == SLASH {
            return Err(Error::InvalidPatch(PatchIssue::EmptySegment));
        }
        i += 1;
    }
    Ok(())
}

/// The ancestor relation is reflexive, transitive and antisymmetric: a
/// component path is its own ancestor, an ancestor of an ancestor is an
/// ancestor, and two paths that are ancestors of each other are equal.
pub proof fn lemma_ancestor_partial_order(a: Seq<u8>, b: Seq<u8>, c: Seq<u8>)
    ensures
        same_or_ancestor(a, a),
        same_or_ancestor(a, b) && same_or_ancestor(b, c) ==> same_or_ancestor(a, c),
        same_or_ancestor(a, b) && same_or_ancestor(b, a) ==> a == b,
        spec_paths_overlap(a, b) == spec_paths_overlap(b, a),
{
    if same_or_ancestor(a, b) && same_or_ancestor(b, c) && a != b && b != c {
        assert(c.subrange(0, a.len() as int) == c.subrange(0, b.len() as int).subrange(
            0,
            a.len() as int,
        ));
        assert(c[a.len() as int] == c.subrange(0, b.len() as int)[a.len() as int]);
    }
}

} // verus!
