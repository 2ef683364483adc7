//! Starting activations: which fiber begins next, and what starting it, or
//! failing to, does to the core.

use vstd::prelude::*;
use crate::component::{FiberId, TraceEvent};
use crate::error::{Error, InvariantIssue};
use crate::fiber::{first_fiber, lemma_first_fiber, provides_for, unserved, CommittedProvider, Core, Fiber, InternalState};

verus! {

/// Fiber `j` may begin activating: it is inactive, not retired, has no
/// outcome yet, and an active provider serves each binding it injects.
pub open spec fn activatable(c: Core, j: int) -> bool {
    let f = c.fibers@[j];
    let inject = c.manifest_of(j).component.inject@;
    &&& f.state == InternalState::Inactive
    &&& !f.retired
    &&& f.outcome is None
    &&& forall|k: int| 0 <= k < inject.len() ==> !#[trigger] unserved(c, inject[k], true)
}

/// Fiber `f` once its activation has started, committed to `committed` and
/// holding `buffers` as its workspaces.
pub open spec fn started(f: Fiber, committed: Vec<CommittedProvider>, buffers: Vec<Vec<u8>>) -> Fiber {
    Fiber {
        committed,
        activation_steps: 0,
        instance: true,
        state: InternalState::Activating,
        workspace_buffers: buffers,
        ..f
    }
}

/// Fiber `f` once its activation failed with `error`, holding `buffers` as
/// its workspaces.
pub open spec fn failed_to_start(f: Fiber, error: String, buffers: Vec<Vec<u8>>) -> Fiber {
    Fiber { state: InternalState::Failed, outcome: Some(error), workspace_buffers: buffers, ..f }
}

impl Core {
    /// The first fiber, in order of identity, that may begin activating,
    /// with the active providers it would commit to; none where no fiber
    /// may.
    pub fn next_activation(&self) -> (r: Option<(FiberId, Vec<CommittedProvider>)>)
        requires
            self.well_formed(),
        ensures
            match r {
                None => forall|j: int| 0 <= j < self.fibers@.len() ==> !#[trigger] activatable(*self, j),
                Some((id, t)) => exists|j: int| {
                    &&& 0 <= j < self.fibers@.len()
                    &&& self.fibers@[j].id == id
                    &&& #[trigger] activatable(*self, j)
                    &&& forall|m: int| 0 <= m < j ==> !#[trigger] activatable(*self, m)
                    &&& t@.len() == self.manifest_of(j).component.inject@.len()
                    &&& forall|k: int| 0 <= k < t@.len() ==> #[trigger] provides_for(*self, self.manifest_of(j).component.inject@[k], true, t@[k])
                },
            },
    {
        let mut j: usize = 0;
        while j < self.fibers.len()
            invariant
                self.well_formed(),
                j <= self.fibers@.len(),
                forall|m: int| 0 <= m < j ==> !#[trigger] activatable(*self, m),
            decreases self.fibers@.len() - j,
        {
            let f = &self.fibers[j];
            if f.state == InternalState::Inactive && !f.retired && f.outcome.is_none() {
                let spec = f.spec;
                match self.target_for_spec(spec, true) {
                    Some(t) => {
                        proof {
                            let inject = self.manifest_of(j as int).component.inject@;
                            assert(inject == self.specs@[spec as int].manifest.component.inject@);
                            assert forall|k: int| 0 <= k < inject.len() implies !#[trigger] unserved(*self, inject[k], true) by {
                                assert(provides_for(*self, inject[k], true, t@[k]));
                            }
                            assert(activatable(*self, j as int));
                        }
                        return Some((self.fibers[j].id, t));
                    },
                    None => {
                        proof {
                            let inject = self.manifest_of(j as int).component.inject@;
                            assert(inject == self.specs@[spec as int].manifest.component.inject@);
                        }
                    },
                }
            }
            j += 1;
        }
        None
    }

    /// Settles the start of fiber `id`'s activation. `buffers`, where
    /// given, are its workspaces as read afresh; `failure`, where given, is
    /// why its workspaces or its instance could not be had. A started fiber
    /// commits to `committed` and is activating with no steps taken; a
    /// failed one records why. Either is traced. A vanished fiber breaks the
    /// core's bookkeeping, and nothing changes.
    pub fn start_activation(&mut self, id: FiberId, committed: Vec<CommittedProvider>, buffers: Option<Vec<Vec<u8>>>,
        failure: Option<String>) -> (r: Result<(), Error>)
        requires
            old(self).well_formed(),
            buffers matches Some(b) ==> forall|j: int| 0 <= j < old(self).fibers@.len() && #[trigger] old(self).fibers@[j].id == id
                ==> b@.len() == old(self).fibers@[j].workspace_buffers@.len(),
        ensures
            final(self).well_formed(),
            match first_fiber(old(self).fibers@, id) {
                None => r == Err::<(), Error>(Error::Invariant(InvariantIssue::ActivationCandidateMissing)) && *final(self) == *old(self),
                Some(j) => {
                    let f = old(self).fibers@[j];
                    let b = match buffers { Some(b) => b, None => f.workspace_buffers };
                    &&& r is Ok
                    &&& final(self).fibers@ == old(self).fibers@.update(j, match failure {
                        None => started(f, committed, b),
                        Some(e) => failed_to_start(f, e, b),
                    })
                    &&& final(self).trace@ == old(self).trace@.push(match failure {
                        None => TraceEvent::FiberActivating { fiber: id, path: f.path },
                        Some(e) => TraceEvent::FiberFailed { fiber: id, path: f.path, error: e },
                    })
                    &&& *final(self) == (Core { fibers: final(self).fibers, trace: final(self).trace, ..*old(self) })
                },
            },
    {
        let j = match self.find_fiber(id) {
            None => return Err(Error::Invariant(InvariantIssue::ActivationCandidateMissing)),
            Some(j) => j,
        };
        proof {
            lemma_first_fiber(old(self).fibers@, id);
        }
        let ghost before = *self;
        let mut f = self.fibers.remove(j);
        match buffers {
            Some(b) => {
                f.workspace_buffers = b;
            },
            None => {},
        }
        let path = f.path.clone();
        let event = match failure {
            None => {
                f.committed = committed;
                f.activation_steps = 0;
                f.instance = true;
                f.state = InternalState::Activating;
                TraceEvent::FiberActivating { fiber: id, path }
            },
            Some(error) => {
                f.state = InternalState::Failed;
                f.outcome = Some(error.clone());
                TraceEvent::FiberFailed { fiber: id, path, error }
            },
        };
        self.fibers.insert(j, f);
        self.trace.push(event);
        proof {
            assert(self.fibers@ =~= before.fibers@.update(j as int, self.fibers@[j as int]));
            assert forall|k: int| 0 <= k < self.fibers@.len() implies #[trigger] self.fibers@[k].spec < self.specs@.len()
                && self.fibers@[k].workspace_buffers@.len() == self.specs@[self.fibers@[k].spec as int].workspaces@.len() by {
                if k != j {
                    assert(self.fibers@[k] == before.fibers@[k]);
                }
            }
            assert forall|a: int, b: int| 0 <= a < b < self.fibers@.len() implies (#[trigger] self.fibers@[a]).id.0 < (#[trigger] self.fibers@[b]).id.0 by {
                assert(self.fibers@[a].id == before.fibers@[a].id);
                assert(self.fibers@[b].id == before.fibers@[b].id);
            }
            assert forall|a: int| 0 <= a < self.fibers@.len() implies (#[trigger] self.fibers@[a]).id.0 < self.next_fiber by {
                assert(self.fibers@[a].id == before.fibers@[a].id);
            }
        }
        Ok(())
    }
}

} // verus!
