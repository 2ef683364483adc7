//! Undoing a composition effect: the core's bookkeeping before and after
//! the runtime applies the patch that restores the composition.

use vstd::prelude::*;
use vstd::string::StringSliceAdditionalSpecFns;
use crate::component::{ComponentTree, FiberId, TraceEvent};
use crate::composition::CompositionPatch;
use crate::error::{Error, InvariantIssue};
use crate::fiber::{accumulated, first_fiber, lemma_first_fiber, owner_of, recovery_traced, Core, Inverse, PatchOwner};
use crate::tree::{desired_spec, tree_lookup};

verus! {

/// `ids` without any occurrence of `id`, in order.
pub open spec fn without_id(ids: Seq<FiberId>, id: FiberId) -> Seq<FiberId>
    decreases ids.len(),
{
    if ids.len() == 0 {
        Seq::empty()
    } else {
        let rest = without_id(ids.drop_last(), id);
        if ids.last() == id { rest } else { rest.push(ids.last()) }
    }
}

/// `without_id` keeps exactly the identities other than `id`.
pub proof fn lemma_without_id(ids: Seq<FiberId>, id: FiberId)
    ensures
        !without_id(ids, id).contains(id),
        forall|x: FiberId| x != id ==> (without_id(ids, id).contains(x) <==> ids.contains(x)),
    decreases ids.len(),
{
    if ids.len() > 0 {
        lemma_without_id(ids.drop_last(), id);
        let rest = without_id(ids.drop_last(), id);
        assert forall|x: FiberId| x != id implies (without_id(ids, id).contains(x) <==> ids.contains(x)) by {
            if ids.contains(x) {
                let k = choose|k: int| 0 <= k < ids.len() && ids[k] == x;
                if k < ids.len() - 1 {
                    assert(ids.drop_last()[k] == x);
                }
            }
            if ids.drop_last().contains(x) {
                let k = choose|k: int| 0 <= k < ids.drop_last().len() && ids.drop_last()[k] == x;
                assert(ids[k] == x);
            }
            if ids.last() != id {
                assert(rest.push(ids.last())[rest.len() as int] == ids.last());
                if rest.contains(x) {
                    let k = choose|k: int| 0 <= k < rest.len() && rest[k] == x;
                    assert(rest.push(ids.last())[k] == x);
                }
                if rest.push(ids.last()).contains(x) {
                    let k = choose|k: int| 0 <= k < rest.len() + 1 && rest.push(ids.last())[k] == x;
                    if k < rest.len() {
                        assert(rest[k] == x);
                    }
                }
            }
        }
        if ids.last() != id {
            if rest.push(ids.last()).contains(id) {
                let k = choose|k: int| 0 <= k < rest.len() + 1 && rest.push(ids.last())[k] == id;
                assert(rest[k] == id);
            }
        }
    }
}

/// The patch owners after `actor` becomes the owner of `target`, in place
/// of any earlier owner.
pub open spec fn owned_by(owners: Seq<PatchOwner>, target: String, actor: FiberId) -> Seq<PatchOwner> {
    match owner_of(owners, target@) {
        Some(k) => owners.update(k, PatchOwner { fiber: actor, ..owners[k] }),
        None => owners.push(PatchOwner { target, fiber: actor }),
    }
}

/// Fiber `f` owns the patch target `t`.
pub open spec fn owns(owners: Seq<PatchOwner>, t: Seq<char>, f: FiberId) -> bool {
    exists|k: int| 0 <= k < owners.len() && (#[trigger] owners[k]).target@ == t && owners[k].fiber == f
}

/// A composition recovery that failed gives back the ownership it took:
/// where `c1` is `c0` after `begin_composition_recovery` withdrew `actor`'s
/// ownership of `target`, and `c2` is `c1` after
/// `finish_composition_recovery` with a failed outcome, every target has
/// the same owner in `c2` as in `c0`.
pub proof fn lemma_failed_recovery_restores_ownership(c0: Core, c1: Core, c2: Core, actor: FiberId, target: String)
    requires
        c0.well_formed(),
        owner_of(c0.patch_owners@, target@) matches Some(k) && c0.patch_owners@[k].fiber == actor
            && c1.patch_owners@ == c0.patch_owners@.remove(k),
        c2.patch_owners@ == owned_by(c1.patch_owners@, target, actor),
    ensures
        forall|t: Seq<char>, f: FiberId| owns(c2.patch_owners@, t, f) <==> owns(c0.patch_owners@, t, f),
{
    let o0 = c0.patch_owners@;
    let k = owner_of(o0, target@)->0;
    let o1 = c1.patch_owners@;
    assert(0 <= k < o0.len() && o0[k].target@ == target@);
    assert forall|m: int| 0 <= m < o1.len() implies (#[trigger] o1[m]).target@ != target@ by {
        if m < k {
            assert(o1[m] == o0[m]);
        } else {
            assert(o1[m] == o0[m + 1]);
        }
    }
    assert(owner_of(o1, target@) is None);
    let o2 = c2.patch_owners@;
    assert(o2 == o1.push(PatchOwner { target, fiber: actor }));
    assert forall|t: Seq<char>, f: FiberId| owns(o2, t, f) <==> owns(o0, t, f) by {
        if owns(o2, t, f) {
            let m = choose|m: int| 0 <= m < o2.len() && (#[trigger] o2[m]).target@ == t && o2[m].fiber == f;
            if m == o1.len() {
                assert(o0[k].target@ == t && o0[k].fiber == f);
            } else if m < k {
                assert(o0[m] == o2[m]);
            } else {
                assert(o0[m + 1] == o2[m]);
            }
        }
        if owns(o0, t, f) {
            let m = choose|m: int| 0 <= m < o0.len() && (#[trigger] o0[m]).target@ == t && o0[m].fiber == f;
            if m == k {
                assert(o2[o1.len() as int].target@ == t && o2[o1.len() as int].fiber == f);
            } else if m < k {
                assert(o2[m] == o0[m]);
            } else {
                assert(o2[m - 1] == o0[m]);
            }
        }
    }
}

/// Whether restoring a composition still has work to do: the requester's
/// component or the patch's target is still in the desired composition.
pub fn composition_undo_applies(desired: &ComponentTree, actor_path: &str, target: &str) -> (r: bool)
    ensures
        r == (tree_lookup(*desired, actor_path.spec_bytes()) is Some || tree_lookup(*desired, target.spec_bytes()) is Some),
{
    desired_spec(desired, actor_path).is_some() || desired_spec(desired, target).is_some()
}

impl Core {
    /// Removes every occurrence of `id` from the blocked recoveries.
    fn unblock_recovery(&mut self, id: FiberId)
        ensures
            final(self).blocked_recovery@ == without_id(old(self).blocked_recovery@, id),
            *final(self) == (Core { blocked_recovery: final(self).blocked_recovery, ..*old(self) }),
    {
        let mut kept: Vec<FiberId> = Vec::new();
        let mut i: usize = 0;
        while i < self.blocked_recovery.len()
            invariant
                i <= self.blocked_recovery@.len(),
                kept@ == without_id(self.blocked_recovery@.take(i as int), id),
            decreases self.blocked_recovery@.len() - i,
        {
            assert(self.blocked_recovery@.take(i + 1).drop_last() =~= self.blocked_recovery@.take(i as int));
            if self.blocked_recovery[i] != id {
                kept.push(self.blocked_recovery[i]);
            }
            i += 1;
        }
        assert(self.blocked_recovery@.take(i as int) =~= self.blocked_recovery@);
        self.blocked_recovery = kept;
    }

    /// Makes `actor` the owner of `target`, in place of any earlier owner.
    fn set_owner(&mut self, target: String, actor: FiberId)
        ensures
            final(self).patch_owners@ == owned_by(old(self).patch_owners@, target, actor),
            *final(self) == (Core { patch_owners: final(self).patch_owners, ..*old(self) }),
    {
        match self.find_owner(target.as_str()) {
            Some(k) => {
                let o = self.patch_owners.remove(k);
                self.patch_owners.insert(k, PatchOwner { fiber: actor, ..o });
                assert(self.patch_owners@ =~= old(self).patch_owners@.update(k as int, PatchOwner { fiber: actor, ..old(self).patch_owners@[k as int] }));
            },
            None => {
                self.patch_owners.push(PatchOwner { target, fiber: actor });
            },
        }
    }

    /// Begins undoing the composition effect of `actor` on `target`: the
    /// actor must still own the target. Its ownership is withdrawn and its
    /// recovery blocked while the composition is restored; returns the
    /// actor's path. A vanished actor breaks the core's bookkeeping, after
    /// the ownership was withdrawn and the recovery blocked.
    pub fn begin_composition_recovery(&mut self, actor: FiberId, target: &str) -> (r: Result<String, Error>)
        requires
            old(self).well_formed(),
        ensures
            final(self).well_formed(),
            match owner_of(old(self).patch_owners@, target@) {
                Some(k) if old(self).patch_owners@[k].fiber == actor => {
                    &&& final(self).patch_owners@ == old(self).patch_owners@.remove(k)
                    &&& final(self).blocked_recovery@ == if old(self).blocked_recovery@.contains(actor) {
                        old(self).blocked_recovery@
                    } else {
                        old(self).blocked_recovery@.push(actor)
                    }
                    &&& *final(self) == (Core { patch_owners: final(self).patch_owners, blocked_recovery: final(self).blocked_recovery, ..*old(self) })
                    &&& match first_fiber(old(self).fibers@, actor) {
                        None => r == Err::<String, Error>(Error::Invariant(InvariantIssue::CompositionOwnerMissing)),
                        Some(j) => r matches Ok(path) && path == old(self).fibers@[j].path,
                    }
                },
                _ => r == Err::<String, Error>(Error::Invariant(InvariantIssue::CompositionNotOwned)) && *final(self) == *old(self),
            },
    {
        let k = match self.find_owner(target) {
            Some(k) => k,
            None => return Err(Error::Invariant(InvariantIssue::CompositionNotOwned)),
        };
        if self.patch_owners[k].fiber != actor {
            return Err(Error::Invariant(InvariantIssue::CompositionNotOwned));
        }
        self.patch_owners.remove(k);
        let mut held = false;
        let mut i: usize = 0;
        while i < self.blocked_recovery.len()
            invariant
                i <= self.blocked_recovery@.len(),
                !held ==> forall|j: int| 0 <= j < i ==> self.blocked_recovery@[j] != actor,
                held ==> self.blocked_recovery@.contains(actor),
            decreases self.blocked_recovery@.len() - i,
        {
            if self.blocked_recovery[i] == actor {
                assert(self.blocked_recovery@[i as int] == actor);
                held = true;
            }
            i += 1;
        }
        if !held {
            self.blocked_recovery.push(actor);
        }
        let j = match self.find_fiber(actor) {
            None => return Err(Error::Invariant(InvariantIssue::CompositionOwnerMissing)),
            Some(j) => j,
        };
        proof {
            lemma_first_fiber(old(self).fibers@, actor);
        }
        Ok(self.fibers[j].path.clone())
    }

    /// Ends undoing the composition effect `effect` of `actor` on `target`,
    /// given the `outcome` of restoring the composition and the error of a
    /// journal write that failed after the restored composition was
    /// committed. The actor's recovery is unblocked. Where restoring
    /// failed, the actor owns the target again and keeps the inverse
    /// restoring it with `undo`, and the failure is returned. Otherwise the
    /// recovery is traced, and the journal's error, if any, is returned.
    pub fn finish_composition_recovery(&mut self, actor: FiberId, effect: u64, target: String, undo: CompositionPatch,
        outcome: Result<(), Error>, committed_error: Option<Error>) -> (r: Result<(), Error>)
        requires
            old(self).well_formed(),
        ensures
            final(self).well_formed(),
            final(self).blocked_recovery@ == without_id(old(self).blocked_recovery@, actor),
            match outcome {
                Err(e) => {
                    &&& r == Err::<(), Error>(e)
                    &&& final(self).patch_owners@ == owned_by(old(self).patch_owners@, target, actor)
                    &&& match first_fiber(old(self).fibers@, actor) {
                        None => final(self).fibers == old(self).fibers,
                        Some(j) => accumulated(old(self).fibers@, final(self).fibers@, j,
                            Inverse::RestoreComposition { effect, target, undo }),
                    }
                    &&& *final(self) == (Core { blocked_recovery: final(self).blocked_recovery, patch_owners: final(self).patch_owners,
                        fibers: final(self).fibers, ..*old(self) })
                },
                Ok(()) => {
                    &&& recovery_traced(old(self).trace@, final(self).trace@, actor, effect, "composition"@)
                    &&& r == match committed_error { Some(e) => Err::<(), Error>(e), None => Ok(()) }
                    &&& *final(self) == (Core { blocked_recovery: final(self).blocked_recovery, trace: final(self).trace, ..*old(self) })
                },
            },
    {
        self.unblock_recovery(actor);
        match outcome {
            Err(error) => {
                self.set_owner(target.clone(), actor);
                match self.find_fiber(actor) {
                    None => {},
                    Some(j) => {
                        proof {
                            lemma_first_fiber(old(self).fibers@, actor);
                        }
                        let ghost before = *self;
                        self.push_inverse(j, Inverse::RestoreComposition { effect, target, undo });
                        proof {
                            assert forall|k: int| 0 <= k < self.fibers@.len() implies #[trigger] self.fibers@[k].spec < self.specs@.len()
                                && self.fibers@[k].workspace_buffers@.len() == self.specs@[self.fibers@[k].spec as int].workspaces@.len() by {
                                if k != j {
                                    assert(self.fibers@[k] == before.fibers@[k]);
                                }
                            }
                            assert forall|a: int, b: int| 0 <= a < b < self.fibers@.len() implies (#[trigger] self.fibers@[a]).id.0 < (#[trigger] self.fibers@[b]).id.0 by {
                                assert(self.fibers@[a].id == before.fibers@[a].id);
                                assert(self.fibers@[b].id == before.fibers@[b].id);
                            }
                            assert forall|a: int| 0 <= a < self.fibers@.len() implies (#[trigger] self.fibers@[a]).id.0 < self.next_fiber by {
                                assert(self.fibers@[a].id == before.fibers@[a].id);
                            }
                        }
                    },
                }
                Err(error)
            },
            Ok(()) => {
                let ghost before = self.trace@;
                self.trace.push(TraceEvent::EffectRecovered { fiber: actor, effect, kind: "composition".to_string() });
                assert(self.trace@.drop_last() =~= before);
                match committed_error {
                    Some(error) => Err(error),
                    None => Ok(()),
                }
            },
        }
    }
}

} // verus!
