//! The end of a replacement: committing the new generation to the desired
//! composition, or rolling back to the generation it replaced.

use vstd::prelude::*;
use vstd::string::StringSliceAdditionalSpecFns;
use vstd::utf8::encode_utf8;
use crate::component::{ComponentSpec, ComponentTree, FiberId, TraceEvent};
use crate::error::{Error, InvariantIssue};
use crate::fiber::{Registration, Root, first_child_registration, first_fiber, first_root, ids_ascending, lemma_fiber_position, lemma_first_fiber, root_segment, provides_for, retargeted, unserved, Core, Fiber, InternalState, PreparedSpec};
use crate::tree::{replace_desired, tree_lookup, tree_replaced};

verus! {

/// The position at which a fiber with identity `id` belongs among
/// `fibers`: after every fiber with a smaller identity.
pub open spec fn fiber_slot(fibers: Seq<Fiber>, id: FiberId) -> int
    decreases fibers.len(),
{
    if fibers.len() == 0 {
        0
    } else if fibers.last().id.0 < id.0 {
        fibers.len() as int
    } else {
        fiber_slot(fibers.drop_last(), id)
    }
}

/// `fibers` with `f` put in its place by identity, in place of a fiber with
/// the same identity, as a map keyed by identity takes it.
pub open spec fn placed(fibers: Seq<Fiber>, f: Fiber) -> Seq<Fiber> {
    let p = fiber_slot(fibers, f.id);
    if p < fibers.len() && fibers[p].id == f.id {
        fibers.update(p, f)
    } else {
        fibers.insert(p, f)
    }
}

/// Among fibers in ascending order of identity, those before `fiber_slot`
/// have smaller identities and the others do not.
pub proof fn lemma_fiber_slot(fibers: Seq<Fiber>, next: u64, id: FiberId)
    requires
        ids_ascending(fibers, next),
    ensures
        0 <= fiber_slot(fibers, id) <= fibers.len(),
        forall|j: int| 0 <= j < fiber_slot(fibers, id) ==> #[trigger] fibers[j].id.0 < id.0,
        forall|j: int| fiber_slot(fibers, id) <= j < fibers.len() ==> #[trigger] fibers[j].id.0 >= id.0,
    decreases fibers.len(),
{
    if fibers.len() > 0 {
        let d = fibers.drop_last();
        assert forall|a: int, b: int| 0 <= a < b < d.len() implies (#[trigger] d[a]).id.0 < (#[trigger] d[b]).id.0 by {
            assert(d[a] == fibers[a] && d[b] == fibers[b]);
        }
        assert forall|a: int| 0 <= a < d.len() implies (#[trigger] d[a]).id.0 < next by {
            assert(d[a] == fibers[a]);
        }
        lemma_fiber_slot(d, next, id);
        if fibers.last().id.0 < id.0 {
            assert forall|j: int| 0 <= j < fibers.len() implies #[trigger] fibers[j].id.0 < id.0 by {
                if j < fibers.len() - 1 {
                    assert(fibers[j].id.0 < fibers[fibers.len() - 1].id.0);
                }
            }
        } else {
            assert forall|j: int| 0 <= j < fiber_slot(fibers, id) implies #[trigger] fibers[j].id.0 < id.0 by {
                assert(d[j] == fibers[j]);
            }
            assert forall|j: int| fiber_slot(fibers, id) <= j < fibers.len() implies #[trigger] fibers[j].id.0 >= id.0 by {
                if j < fibers.len() - 1 {
                    assert(d[j] == fibers[j]);
                }
            }
        }
    }
}

/// `f` is a new inactive fiber `id` at `path` under `parent`, of the
/// prepared specification at position `spec`, which is `prepared`, holding
/// a copy of its workspaces and nothing else.
pub open spec fn fresh_fiber(f: Fiber, id: FiberId, parent: Option<FiberId>, path: String, spec: usize, prepared: PreparedSpec) -> bool {
    &&& f.id == id
    &&& f.parent == parent
    &&& f.path == path
    &&& f.spec == spec
    &&& !f.retired
    &&& !f.pinned
    &&& f.state == InternalState::Inactive
    &&& f.committed@.len() == 0
    &&& f.accumulator@.len() == 0
    &&& !f.instance
    &&& f.activation_steps == 0
    &&& f.outcome is None
    &&& f.staged_response is None
    &&& f.staged_usage is None
    &&& f.inbound_response is None
    &&& f.workspace_buffers@.len() == prepared.workspaces@.len()
    &&& forall|i: int| 0 <= i < prepared.workspaces@.len() ==> #[trigger] f.workspace_buffers@[i]@ == prepared.workspaces@[i].bytes@
    &&& f.event_output_buffers@.len() == prepared.event_outputs@.len()
    &&& forall|i: int| 0 <= i < prepared.event_outputs@.len() ==> #[trigger] f.event_output_buffers@[i]@.len() == 0
    &&& f.workspace_authorization is None
    &&& f.patch_authorization is None
    &&& f.promotion_authorization is None
}

/// `f` is the candidate generation `id` at `path` under `parent`, of the
/// prepared specification at position `spec`, which is `prepared`, pinned
/// while the replacement settles, holding `buffers` as its workspaces where
/// given (else a copy of the prepared ones), and no effect; whether it is
/// activating, and what it committed to, is said apart.
pub open spec fn candidate_fiber(f: Fiber, id: FiberId, parent: Option<FiberId>, path: String, spec: usize, prepared: PreparedSpec,
    buffers: Option<Vec<Vec<u8>>>) -> bool {
    &&& f.id == id
    &&& f.parent == parent
    &&& f.path == path
    &&& f.spec == spec
    &&& !f.retired
    &&& f.pinned
    &&& f.accumulator@.len() == 0
    &&& f.activation_steps == 0
    &&& f.outcome is None
    &&& f.staged_response is None
    &&& f.staged_usage is None
    &&& f.inbound_response is None
    &&& match buffers {
        Some(b) => f.workspace_buffers == b,
        None => f.workspace_buffers@.len() == prepared.workspaces@.len()
            && forall|i: int| 0 <= i < prepared.workspaces@.len() ==> #[trigger] f.workspace_buffers@[i]@ == prepared.workspaces@[i].bytes@,
    }
    &&& f.event_output_buffers@.len() == prepared.event_outputs@.len()
    &&& forall|i: int| 0 <= i < prepared.event_outputs@.len() ==> #[trigger] f.event_output_buffers@[i]@.len() == 0
    &&& f.workspace_authorization is None
    &&& f.patch_authorization is None
    &&& f.promotion_authorization is None
}

/// The slot a generation at `path` under `parent` fills names fiber `id`:
/// a registration under `parent`, or, for a root, the root entry `path`
/// starts with.
pub open spec fn slot_names(c: Core, parent: Option<FiberId>, path: Seq<u8>, id: FiberId) -> bool {
    match parent {
        Some(p) => exists|k: int| 0 <= k < c.registrations@.len() && #[trigger] c.registrations@[k].parent == p
            && c.registrations@[k].child == id,
        None => exists|k: int| 0 <= k < c.roots@.len() && encode_utf8(#[trigger] c.roots@[k].entry@) == root_segment(path)
            && c.roots@[k].fiber == id,
    }
}

/// `b` is `a` once the rollback of the replacement by `candidate` began:
/// the candidate is retired and pinned, and the slots and the composition
/// revision are as they were.
pub open spec fn rollback_begun(a: Core, b: Core, candidate: FiberId) -> bool {
    &&& first_fiber(b.fibers@, candidate) matches Some(k) && b.fibers@[k].retired && b.fibers@[k].pinned
    &&& b.composition_revision == a.composition_revision
    &&& b.roots == a.roots
    &&& b.registrations == a.registrations
}

/// `b` is `a` once the rollback finished: the replaced generation
/// `restored` is back as a new inactive fiber at `path` under `parent` of
/// the prepared specification at `spec`, its slot names it again, and the
/// composition revision is as it was.
#[verifier::opaque]
pub open spec fn rollback_finished(a: Core, b: Core, restored: FiberId, parent: Option<FiberId>, path: String, spec: usize) -> bool {
    &&& first_fiber(b.fibers@, restored) matches Some(j)
        && fresh_fiber(b.fibers@[j], restored, parent, path, spec, a.specs@[spec as int])
    &&& slot_names(b, parent, encode_utf8(path@), restored)
    &&& b.composition_revision == a.composition_revision
    &&& b.specs == a.specs
}

/// Rolling back a replacement gives back the generation it replaced: where
/// `c1` is `c0` once the rollback of `candidate` began, the steps until
/// `c2` left the composition revision alone, and `c3` is `c2` once the
/// rollback finished, the composition revision of `c3` is that of `c0`, and
/// `restored` stands again, inactive and unretired, at `path` of the
/// prepared specification at `spec`, named by its slot.
pub proof fn lemma_rollback_restores_generation(c0: Core, c1: Core, c2: Core, c3: Core, candidate: FiberId, restored: FiberId,
    parent: Option<FiberId>, path: String, spec: usize)
    requires
        rollback_begun(c0, c1, candidate),
        c2.composition_revision == c1.composition_revision,
        rollback_finished(c2, c3, restored, parent, path, spec),
    ensures
        c3.composition_revision == c0.composition_revision,
        first_fiber(c3.fibers@, restored) matches Some(j) && c3.fibers@[j].path == path && c3.fibers@[j].spec == spec
            && c3.fibers@[j].parent == parent && c3.fibers@[j].state == InternalState::Inactive && !c3.fibers@[j].retired,
        slot_names(c3, parent, encode_utf8(path@), restored),
{
    reveal(rollback_finished);
}

/// Where some root's entry is `seg`, a first such root exists.
proof fn lemma_first_root_exists(roots: Seq<Root>, seg: Seq<u8>, m: int)
    requires
        0 <= m < roots.len(),
        encode_utf8(roots[m].entry@) == seg,
    ensures
        exists|k: int| 0 <= k < roots.len() && encode_utf8(#[trigger] roots[k].entry@) == seg
            && forall|j: int| 0 <= j < k ==> encode_utf8(#[trigger] roots[j].entry@) != seg,
    decreases m,
{
    if exists|j: int| 0 <= j < m && encode_utf8(#[trigger] roots[j].entry@) == seg {
        let j = choose|j: int| 0 <= j < m && encode_utf8(#[trigger] roots[j].entry@) == seg;
        lemma_first_root_exists(roots, seg, j);
    }
}

/// Where some registration of `child` under `parent` exists, a first one
/// does.
proof fn lemma_first_registration_exists(regs: Seq<Registration>, parent: FiberId, child: FiberId, m: int)
    requires
        0 <= m < regs.len(),
        regs[m].parent == parent && regs[m].child == child,
    ensures
        exists|k: int| 0 <= k < regs.len() && #[trigger] regs[k].parent == parent && regs[k].child == child
            && forall|j: int| 0 <= j < k ==> !(#[trigger] regs[j].parent == parent && regs[j].child == child),
    decreases m,
{
    if exists|j: int| 0 <= j < m && #[trigger] regs[j].parent == parent && regs[j].child == child {
        let j = choose|j: int| 0 <= j < m && #[trigger] regs[j].parent == parent && regs[j].child == child;
        lemma_first_registration_exists(regs, parent, child, j);
    }
}

/// Pointing a root's slot at `restored` leaves the root naming it.
proof fn lemma_root_named(a: Core, b: Core, path: Seq<u8>, candidate: FiberId, restored: FiberId)
    requires
        first_root(a.roots@, root_segment(path)) matches Some(k) && a.roots@[k].fiber == candidate
            && b.roots@.len() == a.roots@.len() && b.roots@[k] == (Root { fiber: restored, ..a.roots@[k] }),
    ensures
        slot_names(b, None, path, restored),
{
    let seg = root_segment(path);
    let roots = a.roots@;
    let m = choose|m: int| 0 <= m < roots.len() && encode_utf8(#[trigger] roots[m].entry@) == seg;
    lemma_first_root_exists(roots, seg, m);
    let k = first_root(roots, seg)->0;
    assert(encode_utf8(b.roots@[k].entry@) == seg);
}

/// Pointing a child's registration at `restored` leaves it naming it.
proof fn lemma_registration_named(a: Core, b: Core, q: FiberId, candidate: FiberId, restored: FiberId)
    requires
        first_child_registration(a.registrations@, q, candidate) matches Some(k)
            && b.registrations@.len() == a.registrations@.len()
            && b.registrations@[k] == (Registration { child: restored, ..a.registrations@[k] }),
    ensures
        slot_names(b, Some(q), Seq::empty(), restored),
{
    let regs = a.registrations@;
    let m = choose|m: int| 0 <= m < regs.len() && #[trigger] regs[m].parent == q && regs[m].child == candidate;
    lemma_first_registration_exists(regs, q, candidate, m);
    let k = first_child_registration(regs, q, candidate)->0;
    assert(b.registrations@[k].parent == q);
}

/// What `finish_rollback` leaves, once it succeeded, is a finished
/// rollback: `a` is the core as the slot was pointed back at `restored`,
/// `b` the core left, and `a0` the core the rollback began from.
proof fn lemma_rollback_finished(a0: Core, a: Core, b: Core, restored: FiberId, parent: Option<FiberId>, path: String, spec: usize,
    candidate: FiberId, p: int)
    requires
        ids_ascending(b.fibers@, b.next_fiber),
        0 <= p < b.fibers@.len(),
        fresh_fiber(b.fibers@[p], restored, parent, path, spec, a0.specs@[spec as int]),
        retargeted(a, Core { roots: b.roots, registrations: b.registrations, ..a }, parent, encode_utf8(path@), candidate, restored,
            Ok::<(), Error>(())),
        b.composition_revision == a0.composition_revision,
        b.specs == a0.specs,
    ensures
        rollback_finished(a0, b, restored, parent, path, spec),
{
    reveal(rollback_finished);
    lemma_fiber_position(b.fibers@, b.next_fiber, p);
    match parent {
        None => lemma_root_named(a, b, encode_utf8(path@), candidate, restored),
        Some(q) => lemma_registration_named(a, b, q, candidate, restored),
    }
}

impl Core {
    /// Puts `f` among the fibers in its place by identity, in place of a
    /// fiber with the same identity.
    fn place_fiber(&mut self, f: Fiber)
        requires
            old(self).well_formed(),
            f.id.0 < old(self).next_fiber,
            f.spec < old(self).specs@.len(),
            f.workspace_buffers@.len() == old(self).specs@[f.spec as int].workspaces@.len(),
        ensures
            final(self).well_formed(),
            final(self).fibers@ == placed(old(self).fibers@, f),
            *final(self) == (Core { fibers: final(self).fibers, ..*old(self) }),
    {
        proof {
            lemma_fiber_slot(self.fibers@, self.next_fiber, f.id);
        }
        let ghost q = fiber_slot(self.fibers@, f.id);
        let mut p: usize = 0;
        while p < self.fibers.len() && self.fibers[p].id.0 < f.id.0
            invariant
                p <= self.fibers@.len(),
                forall|j: int| 0 <= j < p ==> #[trigger] self.fibers@[j].id.0 < f.id.0,
            decreases self.fibers@.len() - p,
        {
            p += 1;
        }
        proof {
            if p < q {
                assert(self.fibers@[p as int].id.0 < f.id.0);
            }
            if q < p {
                assert(self.fibers@[q].id.0 < f.id.0);
            }
            assert(p == q);
        }
        let ghost before = self.fibers@;
        if p < self.fibers.len() && self.fibers[p].id == f.id {
            self.fibers.remove(p);
            self.fibers.insert(p, f);
            proof {
                assert(self.fibers@ =~= before.update(p as int, f));
                assert forall|k: int| 0 <= k < self.fibers@.len() implies (#[trigger] self.fibers@[k]).id == before[k].id by {}
            }
        } else {
            self.fibers.insert(p, f);
            proof {
                assert(self.fibers@ =~= before.insert(p as int, f));
                assert forall|a: int, b: int| 0 <= a < b < self.fibers@.len() implies (#[trigger] self.fibers@[a]).id.0 < (#[trigger] self.fibers@[b]).id.0 by {
                    if b < p {
                        assert(self.fibers@[a] == before[a] && self.fibers@[b] == before[b]);
                    } else if b == p {
                        assert(self.fibers@[a] == before[a]);
                    } else if a < p {
                        assert(self.fibers@[a] == before[a] && self.fibers@[b] == before[b - 1]);
                        assert(before[b - 1].id.0 >= f.id.0);
                        assert(before[b - 1].id.0 != f.id.0 || b - 1 != p);
                        if b - 1 == p {
                            assert(before[p as int].id != f.id);
                        } else {
                            assert(before[p as int].id.0 < before[b - 1].id.0);
                        }
                    } else if a == p {
                        assert(self.fibers@[b] == before[b - 1]);
                        if b - 1 == p {
                            assert(before[p as int].id != f.id);
                        } else {
                            assert(before[p as int].id.0 < before[b - 1].id.0);
                        }
                    } else {
                        assert(self.fibers@[a] == before[a - 1] && self.fibers@[b] == before[b - 1]);
                    }
                }
            }
        }
        proof {
            assert forall|k: int| 0 <= k < self.fibers@.len() implies #[trigger] self.fibers@[k].spec < self.specs@.len()
                && self.fibers@[k].workspace_buffers@.len() == self.specs@[self.fibers@[k].spec as int].workspaces@.len() by {
                if self.fibers@[k] != f {
                    assert(exists|m: int| 0 <= m < before.len() && self.fibers@[k] == before[m]) by {
                        if k < p {
                            assert(self.fibers@[k] == before[k]);
                        } else if self.fibers@.len() == before.len() {
                            assert(self.fibers@[k] == before[k]);
                        } else {
                            assert(self.fibers@[k] == before[k - 1]);
                        }
                    }
                }
            }
            assert forall|a: int| 0 <= a < self.fibers@.len() implies (#[trigger] self.fibers@[a]).id.0 < self.next_fiber by {
                if self.fibers@[a] != f {
                    if a < p {
                        assert(self.fibers@[a] == before[a]);
                    } else if self.fibers@.len() == before.len() {
                        assert(self.fibers@[a] == before[a]);
                    } else {
                        assert(self.fibers@[a] == before[a - 1]);
                    }
                }
            }
        }
    }

    /// Sets whether fiber `j` is retired and pinned.
    fn set_generation_flags(&mut self, j: usize, flag: bool)
        requires
            old(self).well_formed(),
            j < old(self).fibers@.len(),
        ensures
            final(self).well_formed(),
            final(self).fibers@ == old(self).fibers@.update(j as int, Fiber { retired: flag, pinned: flag, ..old(self).fibers@[j as int] }),
            *final(self) == (Core { fibers: final(self).fibers, ..*old(self) }),
    {
        let ghost before = *self;
        let mut f = self.fibers.remove(j);
        f.retired = flag;
        f.pinned = flag;
        self.fibers.insert(j, f);
        proof {
            assert(self.fibers@ =~= before.fibers@.update(j as int, self.fibers@[j as int]));
            assert forall|k: int| 0 <= k < self.fibers@.len() implies #[trigger] self.fibers@[k].spec < self.specs@.len()
                && self.fibers@[k].workspace_buffers@.len() == self.specs@[self.fibers@[k].spec as int].workspaces@.len() by {
                if k != j {
                    assert(self.fibers@[k] == before.fibers@[k]);
                }
            }
            assert forall|a: int, b: int| 0 <= a < b < self.fibers@.len() implies (#[trigger] self.fibers@[a]).id.0 < (#[trigger] self.fibers@[b]).id.0 by {
                assert(self.fibers@[a].id == before.fibers@[a].id);
                assert(self.fibers@[b].id == before.fibers@[b].id);
            }
            assert forall|a: int| 0 <= a < self.fibers@.len() implies (#[trigger] self.fibers@[a]).id.0 < self.next_fiber by {
                assert(self.fibers@[a].id == before.fibers@[a].id);
            }
        }
    }

    /// Retires and pins the generation `previous` that a replacement is to
    /// take the place of, so that it unloads and stays for a rollback. A
    /// vanished generation breaks the core's bookkeeping, and nothing
    /// changes.
    pub fn pin_replaced(&mut self, previous: FiberId) -> (r: Result<(), Error>)
        requires
            old(self).well_formed(),
        ensures
            final(self).well_formed(),
            match first_fiber(old(self).fibers@, previous) {
                None => r == Err::<(), Error>(Error::Invariant(InvariantIssue::ReplacedMissing)) && *final(self) == *old(self),
                Some(j) => r is Ok
                    && final(self).fibers@ == old(self).fibers@.update(j, Fiber { retired: true, pinned: true, ..old(self).fibers@[j] })
                    && *final(self) == (Core { fibers: final(self).fibers, ..*old(self) }),
            },
    {
        let j = match self.find_fiber(previous) {
            None => return Err(Error::Invariant(InvariantIssue::ReplacedMissing)),
            Some(j) => j,
        };
        proof {
            lemma_first_fiber(old(self).fibers@, previous);
        }
        self.set_generation_flags(j, true);
        Ok(())
    }

    /// Takes back a replacement whose candidate's workspaces could not be
    /// had: the generation `previous` is neither retired nor pinned again.
    /// A vanished generation breaks the core's bookkeeping, and nothing
    /// changes.
    pub fn release_replaced(&mut self, previous: FiberId) -> (r: Result<(), Error>)
        requires
            old(self).well_formed(),
        ensures
            final(self).well_formed(),
            match first_fiber(old(self).fibers@, previous) {
                None => r == Err::<(), Error>(Error::Invariant(InvariantIssue::StagedReplacedMissing)) && *final(self) == *old(self),
                Some(j) => r is Ok
                    && final(self).fibers@ == old(self).fibers@.update(j, Fiber { retired: false, pinned: false, ..old(self).fibers@[j] })
                    && *final(self) == (Core { fibers: final(self).fibers, ..*old(self) }),
            },
    {
        let j = match self.find_fiber(previous) {
            None => return Err(Error::Invariant(InvariantIssue::StagedReplacedMissing)),
            Some(j) => j,
        };
        proof {
            lemma_first_fiber(old(self).fibers@, previous);
        }
        self.set_generation_flags(j, false);
        Ok(())
    }

    /// Checks that the pinned generation `previous` has unloaded to
    /// inactive before its candidate takes its place.
    pub fn check_replaced_inactive(&self, previous: FiberId) -> (r: Result<(), Error>)
        requires
            self.well_formed(),
        ensures
            match first_fiber(self.fibers@, previous) {
                None => r == Err::<(), Error>(Error::Invariant(InvariantIssue::PinnedReplacedMissing)),
                Some(j) => if self.fibers@[j].state == InternalState::Inactive {
                    r is Ok
                } else {
                    r == Err::<(), Error>(Error::Invariant(InvariantIssue::ReplacedStillLoaded))
                },
            },
    {
        let j = match self.find_fiber(previous) {
            None => return Err(Error::Invariant(InvariantIssue::PinnedReplacedMissing)),
            Some(j) => j,
        };
        proof {
            lemma_first_fiber(self.fibers@, previous);
        }
        if self.fibers[j].state != InternalState::Inactive {
            return Err(Error::Invariant(InvariantIssue::ReplacedStillLoaded));
        }
        Ok(())
    }

    /// Takes the replaced generation `previous` out of the fibers for its
    /// candidate: it must hold no effect and no live instance, and its slot,
    /// under `parent` or as the root `path` starts with, names `candidate`
    /// from now on. Each failure leaves what was already done.
    pub fn retire_previous(&mut self, parent: Option<FiberId>, path: &str, previous: FiberId, candidate: FiberId) -> (r: Result<(), Error>)
        requires
            old(self).well_formed(),
        ensures
            final(self).well_formed(),
            match first_fiber(old(self).fibers@, previous) {
                None => r == Err::<(), Error>(Error::Invariant(InvariantIssue::SwapPreviousMissing)) && *final(self) == *old(self),
                Some(k) => {
                    let p = old(self).fibers@[k];
                    &&& final(self).fibers@ == old(self).fibers@.remove(k)
                    &&& if p.accumulator@.len() > 0 || p.instance {
                        r == Err::<(), Error>(Error::Invariant(InvariantIssue::SwapRetainedEffects))
                            && *final(self) == (Core { fibers: final(self).fibers, ..*old(self) })
                    } else {
                        &&& retargeted(*old(self), Core { roots: final(self).roots, registrations: final(self).registrations, ..*old(self) },
                            parent, path.spec_bytes(), previous, candidate, r)
                        &&& *final(self) == (Core { fibers: final(self).fibers, roots: final(self).roots,
                            registrations: final(self).registrations, ..*old(self) })
                    }
                },
            },
    {
        let k = match self.find_fiber(previous) {
            None => return Err(Error::Invariant(InvariantIssue::SwapPreviousMissing)),
            Some(k) => k,
        };
        proof {
            lemma_first_fiber(old(self).fibers@, previous);
        }
        let p = self.fibers.remove(k);
        proof {
            assert forall|j: int| 0 <= j < self.fibers@.len() implies #[trigger] self.fibers@[j].spec < self.specs@.len()
                && self.fibers@[j].workspace_buffers@.len() == self.specs@[self.fibers@[j].spec as int].workspaces@.len() by {
                if j < k {
                    assert(self.fibers@[j] == old(self).fibers@[j]);
                } else {
                    assert(self.fibers@[j] == old(self).fibers@[j + 1]);
                }
            }
            assert forall|a: int, b: int| 0 <= a < b < self.fibers@.len() implies (#[trigger] self.fibers@[a]).id.0 < (#[trigger] self.fibers@[b]).id.0 by {
                let oa = if a < k { a } else { a + 1 };
                let ob = if b < k { b } else { b + 1 };
                assert(self.fibers@[a] == old(self).fibers@[oa]);
                assert(self.fibers@[b] == old(self).fibers@[ob]);
            }
            assert forall|a: int| 0 <= a < self.fibers@.len() implies (#[trigger] self.fibers@[a]).id.0 < self.next_fiber by {
                let oa = if a < k { a } else { a + 1 };
                assert(self.fibers@[a] == old(self).fibers@[oa]);
            }
        }
        if p.accumulator.len() > 0 || p.instance {
            return Err(Error::Invariant(InvariantIssue::SwapRetainedEffects));
        }
        self.retarget_slot(parent, path, previous, candidate)
    }

    /// Puts the candidate generation `candidate` among the fibers: a new
    /// pinned fiber at `path` of the prepared specification at `spec`,
    /// holding `buffers` as its workspaces where given. Where an active
    /// provider serves each binding it injects it commits to them and is
    /// activating, which is traced; otherwise it waits inactive.
    pub fn place_candidate(&mut self, candidate: FiberId, parent: Option<FiberId>, path: String, spec: usize,
        buffers: Option<Vec<Vec<u8>>>)
        requires
            old(self).well_formed(),
            candidate.0 < old(self).next_fiber,
            spec < old(self).specs@.len(),
            buffers matches Some(b) ==> b@.len() == old(self).specs@[spec as int].workspaces@.len(),
        ensures
            final(self).well_formed(),
            ({
                let inject = old(self).specs@[spec as int].manifest.component.inject@;
                let c = final(self).fibers@[fiber_slot(old(self).fibers@, candidate)];
                &&& candidate_fiber(c, candidate, parent, path, spec, old(self).specs@[spec as int], buffers)
                &&& final(self).fibers@ == placed(old(self).fibers@, c)
                &&& if forall|k: int| 0 <= k < inject.len() ==> !#[trigger] unserved(*old(self), inject[k], true) {
                    &&& c.state == InternalState::Activating
                    &&& c.instance
                    &&& c.committed@.len() == inject.len()
                    &&& forall|k: int| 0 <= k < inject.len() ==> #[trigger] provides_for(*old(self), inject[k], true, c.committed@[k])
                    &&& final(self).trace@ == old(self).trace@.push(TraceEvent::FiberActivating { fiber: candidate, path })
                } else {
                    &&& c.state == InternalState::Inactive
                    &&& !c.instance
                    &&& c.committed@.len() == 0
                    &&& final(self).trace == old(self).trace
                }
                &&& *final(self) == (Core { fibers: final(self).fibers, trace: final(self).trace, ..*old(self) })
            }),
    {
        let target = self.target_for_spec(spec, true);
        let mut f = Fiber::new(candidate, parent, path.clone(), spec, &self.specs[spec]);
        match buffers {
            Some(b) => {
                f.workspace_buffers = b;
            },
            None => {},
        }
        f.pinned = true;
        let served = target.is_some();
        match target {
            Some(t) => {
                f.state = InternalState::Activating;
                f.committed = t;
                f.instance = true;
            },
            None => {},
        }
        let ghost placed_fiber = f;
        let ghost before = self.fibers@;
        self.place_fiber(f);
        if served {
            self.trace.push(TraceEvent::FiberActivating { fiber: candidate, path });
        }
        proof {
            lemma_fiber_slot(before, old(self).next_fiber, candidate);
            assert(self.fibers@[fiber_slot(before, candidate)] == placed_fiber);
            let inject = old(self).specs@[spec as int].manifest.component.inject@;
            if !served {
                assert(!(forall|k: int| 0 <= k < inject.len() ==> !#[trigger] unserved(*old(self), inject[k], true)));
            } else {
                let t = placed_fiber.committed@;
                assert forall|k: int| 0 <= k < inject.len() implies !#[trigger] unserved(*old(self), inject[k], true) by {
                    assert(provides_for(*old(self), inject[k], true, t[k]));
                }
            }
            let c = self.fibers@[fiber_slot(before, candidate)];
            assert(candidate_fiber(c, candidate, parent, path, spec, old(self).specs@[spec as int], buffers));
            assert(self.fibers@ == placed(before, c));
        }
    }

    /// Commits a replacement at `path` to the desired composition `desired`:
    /// the component there becomes `replacement` and the composition
    /// revision moves on. A path at which no component stands is refused,
    /// changing nothing.
    pub fn commit_replacement(&mut self, desired: &mut ComponentTree, path: &str, replacement: ComponentSpec) -> (r: Result<(), Error>)
        requires
            old(self).composition_revision < u64::MAX,
        ensures
            match tree_lookup(*old(desired), path.spec_bytes()) {
                None => r matches Err(Error::UnknownEntry(p)) && p@ == path@ && *final(desired) == *old(desired)
                    && *final(self) == *old(self),
                Some(_) => {
                    &&& r is Ok
                    &&& tree_replaced(*old(desired), *final(desired), path.spec_bytes(), replacement)
                    &&& *final(self) == (Core { composition_revision: (old(self).composition_revision + 1) as u64, ..*old(self) })
                },
            },
    {
        replace_desired(desired, path, replacement)?;
        self.composition_revision = self.composition_revision + 1;
        Ok(())
    }

    /// Begins rolling back a replacement whose candidate failed: the
    /// candidate is retired and pinned, and an active candidate starts
    /// unloading, which is traced. A vanished candidate breaks the core's
    /// bookkeeping, and nothing changes.
    pub fn begin_rollback(&mut self, candidate: FiberId) -> (r: Result<(), Error>)
        requires
            old(self).well_formed(),
        ensures
            final(self).well_formed(),
            r is Ok ==> rollback_begun(*old(self), *final(self), candidate),
            match first_fiber(old(self).fibers@, candidate) {
                None => r == Err::<(), Error>(Error::Invariant(InvariantIssue::RollbackCandidateMissing)) && *final(self) == *old(self),
                Some(k) => {
                    let c = old(self).fibers@[k];
                    &&& r is Ok
                    &&& if c.state == InternalState::Active {
                        &&& final(self).fibers@ == old(self).fibers@.update(k, Fiber { retired: true, pinned: true, state: InternalState::Unloading, ..c })
                        &&& final(self).trace@ == old(self).trace@.push(TraceEvent::FiberUnavailable { fiber: candidate, path: c.path })
                    } else {
                        &&& final(self).fibers@ == old(self).fibers@.update(k, Fiber { retired: true, pinned: true, ..c })
                        &&& final(self).trace == old(self).trace
                    }
                    &&& *final(self) == (Core { fibers: final(self).fibers, trace: final(self).trace, ..*old(self) })
                },
            },
    {
        let k = match self.find_fiber(candidate) {
            None => return Err(Error::Invariant(InvariantIssue::RollbackCandidateMissing)),
            Some(k) => k,
        };
        proof {
            lemma_first_fiber(old(self).fibers@, candidate);
        }
        let ghost before = *self;
        let mut c = self.fibers.remove(k);
        c.retired = true;
        c.pinned = true;
        let unavailable = c.state == InternalState::Active;
        if unavailable {
            c.state = InternalState::Unloading;
        }
        let path = c.path.clone();
        self.fibers.insert(k, c);
        if unavailable {
            self.trace.push(TraceEvent::FiberUnavailable { fiber: candidate, path });
        }
        proof {
            lemma_fiber_position(self.fibers@, self.next_fiber, k as int);
            assert(self.fibers@ =~= before.fibers@.update(k as int, self.fibers@[k as int]));
            assert forall|j: int| 0 <= j < self.fibers@.len() implies #[trigger] self.fibers@[j].spec < self.specs@.len()
                && self.fibers@[j].workspace_buffers@.len() == self.specs@[self.fibers@[j].spec as int].workspaces@.len() by {
                if j != k {
                    assert(self.fibers@[j] == before.fibers@[j]);
                }
            }
            assert forall|a: int, b: int| 0 <= a < b < self.fibers@.len() implies (#[trigger] self.fibers@[a]).id.0 < (#[trigger] self.fibers@[b]).id.0 by {
                assert(self.fibers@[a].id == before.fibers@[a].id);
                assert(self.fibers@[b].id == before.fibers@[b].id);
            }
            assert forall|a: int| 0 <= a < self.fibers@.len() implies (#[trigger] self.fibers@[a]).id.0 < self.next_fiber by {
                assert(self.fibers@[a].id == before.fibers@[a].id);
            }
        }
        Ok(())
    }

    /// Finishes rolling back a replacement once the candidate has unloaded:
    /// the candidate leaves the fibers and must hold no effect and no live
    /// instance; its slot, under `parent` or as the root `path` starts with,
    /// names the replaced generation `restored` again; and `restored` comes
    /// back as a new inactive fiber at `path` of the prepared specification
    /// at `spec`. The rollback is traced. Each failure leaves what was
    /// already done.
    pub fn finish_rollback(&mut self, restored: FiberId, parent: Option<FiberId>, path: String, spec: usize, candidate: FiberId)
        -> (r: Result<(), Error>)
        requires
            old(self).well_formed(),
            spec < old(self).specs@.len(),
            restored.0 < old(self).next_fiber,
        ensures
            final(self).well_formed(),
            r is Ok ==> rollback_finished(*old(self), *final(self), restored, parent, path, spec),
            match first_fiber(old(self).fibers@, candidate) {
                None => r == Err::<(), Error>(Error::Invariant(InvariantIssue::RejectedCandidateMissing)) && *final(self) == *old(self),
                Some(k) => {
                    let c = old(self).fibers@[k];
                    let removed = old(self).fibers@.remove(k);
                    let shifted = Core { roots: final(self).roots, registrations: final(self).registrations, ..*old(self) };
                    let back = final(self).fibers@[fiber_slot(removed, restored)];
                    if c.accumulator@.len() > 0 || c.instance {
                        r == Err::<(), Error>(Error::Invariant(InvariantIssue::RejectedRetainedEffects))
                            && final(self).fibers@ == removed
                            && *final(self) == (Core { fibers: final(self).fibers, ..*old(self) })
                    } else {
                        &&& retargeted(*old(self), shifted, parent, encode_utf8(path@), candidate, restored, r)
                        &&& r is Err ==> final(self).fibers@ == removed
                            && *final(self) == (Core { fibers: final(self).fibers, roots: final(self).roots,
                                registrations: final(self).registrations, ..*old(self) })
                        &&& r is Ok ==> {
                            &&& fresh_fiber(back, restored, parent, path, spec, old(self).specs@[spec as int])
                            &&& final(self).fibers@ == placed(removed, back)
                            &&& final(self).trace@ == old(self).trace@.push(TraceEvent::ReplacementRolledBack {
                                restored, rejected: candidate, path })
                            &&& *final(self) == (Core { fibers: final(self).fibers, trace: final(self).trace, roots: final(self).roots,
                                registrations: final(self).registrations, ..*old(self) })
                        }
                    }
                },
            },
    {
        let k = match self.find_fiber(candidate) {
            None => return Err(Error::Invariant(InvariantIssue::RejectedCandidateMissing)),
            Some(k) => k,
        };
        proof {
            lemma_first_fiber(old(self).fibers@, candidate);
        }
        let rejected = self.fibers.remove(k);
        proof {
            assert forall|j: int| 0 <= j < self.fibers@.len() implies #[trigger] self.fibers@[j].spec < self.specs@.len()
                && self.fibers@[j].workspace_buffers@.len() == self.specs@[self.fibers@[j].spec as int].workspaces@.len() by {
                if j < k {
                    assert(self.fibers@[j] == old(self).fibers@[j]);
                } else {
                    assert(self.fibers@[j] == old(self).fibers@[j + 1]);
                }
            }
            assert forall|a: int, b: int| 0 <= a < b < self.fibers@.len() implies (#[trigger] self.fibers@[a]).id.0 < (#[trigger] self.fibers@[b]).id.0 by {
                let oa = if a < k { a } else { a + 1 };
                let ob = if b < k { b } else { b + 1 };
                assert(self.fibers@[a] == old(self).fibers@[oa]);
                assert(self.fibers@[b] == old(self).fibers@[ob]);
            }
            assert forall|a: int| 0 <= a < self.fibers@.len() implies (#[trigger] self.fibers@[a]).id.0 < self.next_fiber by {
                let oa = if a < k { a } else { a + 1 };
                assert(self.fibers@[a] == old(self).fibers@[oa]);
            }
        }
        if rejected.accumulator.len() > 0 || rejected.instance {
            return Err(Error::Invariant(InvariantIssue::RejectedRetainedEffects));
        }
        let ghost removed = self.fibers@;
        assert(ids_ascending(removed, old(self).next_fiber));
        let ghost before_retarget = *self;
        self.retarget_slot(parent, path.as_str(), candidate, restored)?;
        let ghost after_retarget = *self;
        let back = Fiber::new(restored, parent, path.clone(), spec, &self.specs[spec]);
        let ghost back_spec = back;
        self.place_fiber(back);
        self.trace.push(TraceEvent::ReplacementRolledBack { restored, rejected: candidate, path });
        proof {
            let p = fiber_slot(removed, restored);
            lemma_fiber_slot(removed, old(self).next_fiber, restored);
            assert(self.fibers@[p] == back_spec);
            assert(fresh_fiber(back_spec, restored, parent, path, spec, old(self).specs@[spec as int]));
            assert(after_retarget == (Core { roots: self.roots, registrations: self.registrations, ..before_retarget }));
            lemma_rollback_finished(*old(self), before_retarget, *self, restored, parent, path, spec, candidate, p);
        }
        Ok(())
    }
}

} // verus!
