//! Committing pending events: the facts the event stream is asked to
//! accept, which appended event is taken next once its requester's
//! activation has settled, and queuing it in the outbox.

use vstd::prelude::*;
use crate::component::{FiberId, TraceEvent};
use crate::error::{Error, InvariantIssue, PersistenceIssue};
use crate::exchange::DurablePayload;
use crate::fiber::{first_fiber, lemma_first_fiber, Core, EventFact, InternalState};
use crate::journal::EventGrant;
use crate::task::copy_bytes;

verus! {

/// Pending event `k` may be taken: its requester is gone or no longer
/// activating.
pub open spec fn event_settled(c: Core, k: int) -> bool {
    match first_fiber(c.fibers@, c.pending_events@[k].actor) {
        None => true,
        Some(i) => c.fibers@[i].state != InternalState::Activating,
    }
}

/// What became of the pending event taken next.
#[derive(Debug, PartialEq, Eq)]
pub enum EventDisposition {
    /// No pending event may be taken yet.
    Idle,
    /// Its requester is gone; it is dropped.
    Dropped,
    /// Its requester's activation did not commit; it is refused.
    Rejected,
    /// It is ready to be committed as a fact of the event type `event`,
    /// appended by the fiber at `actor_path`.
    Ready { actor: FiberId, actor_path: String, event: EventGrant, value: u64, payload: Option<DurablePayload> },
}

/// A copy of an event grant.
pub fn copy_event_grant(g: &EventGrant) -> (r: EventGrant)
    ensures
        r == *g,
{
    EventGrant { namespace: g.namespace.clone(), name: g.name.clone(), revision: g.revision }
}

/// Two payloads hold the same provenance, digest and bytes.
pub open spec fn same_payload(a: Option<DurablePayload>, b: Option<DurablePayload>) -> bool {
    match (a, b) {
        (None, None) => true,
        (Some(x), Some(y)) => x.provenance == y.provenance && x.sha256@ == y.sha256@ && x.bytes@ == y.bytes@,
        _ => false,
    }
}

/// Two event facts say the same.
pub open spec fn same_fact(a: EventFact, b: EventFact) -> bool {
    &&& a.id == b.id
    &&& a.actor_path == b.actor_path
    &&& a.event == b.event
    &&& a.value == b.value
    &&& same_payload(a.payload, b.payload)
}

/// Pending event `k` can be written as a fact: its requester is there
/// and still holds the grant it named.
pub open spec fn pending_describable(c: Core, k: int) -> bool {
    let e = c.pending_events@[k];
    first_fiber(c.fibers@, e.actor) matches Some(i)
        && e.index < c.specs@[c.fibers@[i].spec as int].event_grants@.len()
}

/// `f` is pending event `k` written as a fact, numbered `k` after the next
/// event identity.
pub open spec fn pending_fact(c: Core, k: int, f: EventFact) -> bool {
    let e = c.pending_events@[k];
    let i = first_fiber(c.fibers@, e.actor)->0;
    &&& f.id == c.next_event_id + k
    &&& f.actor_path == c.fibers@[i].path
    &&& f.event == c.specs@[c.fibers@[i].spec as int].event_grants@[e.index as int]
    &&& f.value == e.value
    &&& same_payload(f.payload, e.payload)
}

/// A copy of a payload.
fn copy_payload(p: &Option<DurablePayload>) -> (r: Option<DurablePayload>)
    ensures
        same_payload(r, *p),
{
    match p {
        None => None,
        Some(x) => Some(DurablePayload { provenance: x.provenance.clone(), sha256: copy_bytes(&x.sha256), bytes: copy_bytes(&x.bytes) }),
    }
}

impl Core {
    /// The position of the first pending event that may be taken.
    fn first_settled_event(&self) -> (r: Option<usize>)
        requires
            self.well_formed(),
        ensures
            match r {
                None => forall|k: int| 0 <= k < self.pending_events@.len() ==> !#[trigger] event_settled(*self, k),
                Some(k) => k < self.pending_events@.len() && event_settled(*self, k as int)
                    && forall|m: int| 0 <= m < k ==> !#[trigger] event_settled(*self, m),
            },
    {
        let mut k: usize = 0;
        while k < self.pending_events.len()
            invariant
                self.well_formed(),
                k <= self.pending_events@.len(),
                forall|m: int| 0 <= m < k ==> !#[trigger] event_settled(*self, m),
            decreases self.pending_events@.len() - k,
        {
            let actor = self.pending_events[k].actor;
            proof {
                lemma_first_fiber(self.fibers@, actor);
            }
            match self.find_fiber(actor) {
                None => return Some(k),
                Some(i) => {
                    if self.fibers[i].state != InternalState::Activating {
                        return Some(k);
                    }
                },
            }
            k += 1;
        }
        None
    }

    /// Takes the first pending event whose requester is gone or no longer
    /// activating. With the requester gone the event is dropped; where its
    /// activation is not active, or has an outcome, the event is refused and
    /// the refusal traced; otherwise it is handed back with the requester's
    /// path and the event type it was granted. A grant that is no longer
    /// there breaks the core's bookkeeping, after the event was taken.
    pub fn take_pending_event(&mut self) -> (r: Result<EventDisposition, Error>)
        requires
            old(self).well_formed(),
        ensures
            final(self).well_formed(),
            (forall|k: int| 0 <= k < old(self).pending_events@.len() ==> !#[trigger] event_settled(*old(self), k))
                ==> r == Ok::<EventDisposition, Error>(EventDisposition::Idle) && *final(self) == *old(self),
            forall|k: int| 0 <= k < old(self).pending_events@.len() && event_settled(*old(self), k)
                && (forall|m: int| 0 <= m < k ==> !#[trigger] event_settled(*old(self), m)) ==> {
                let e = old(self).pending_events@[k];
                &&& final(self).pending_events@ == old(self).pending_events@.remove(k)
                &&& match first_fiber(old(self).fibers@, e.actor) {
                    None => r == Ok::<EventDisposition, Error>(EventDisposition::Dropped)
                        && *final(self) == (Core { pending_events: final(self).pending_events, ..*old(self) }),
                    Some(i) => {
                        let f = old(self).fibers@[i];
                        let grants = old(self).specs@[f.spec as int].event_grants@;
                        if f.state != InternalState::Active || f.outcome is Some {
                            &&& r == Ok::<EventDisposition, Error>(EventDisposition::Rejected)
                            &&& final(self).trace@ == old(self).trace@.push(TraceEvent::EventRejected {
                                actor: e.actor,
                                error: final(self).trace@.last()->EventRejected_error,
                            })
                            &&& final(self).trace@.last()->EventRejected_error@ == "event requester activation did not commit"@
                            &&& *final(self) == (Core { pending_events: final(self).pending_events, trace: final(self).trace, ..*old(self) })
                        } else if e.index >= grants.len() {
                            &&& r == Err::<EventDisposition, Error>(Error::Invariant(InvariantIssue::EventGrantMissing))
                            &&& *final(self) == (Core { pending_events: final(self).pending_events, ..*old(self) })
                        } else {
                            &&& r == Ok::<EventDisposition, Error>(EventDisposition::Ready {
                                actor: e.actor,
                                actor_path: f.path,
                                event: grants[e.index as int],
                                value: e.value,
                                payload: e.payload,
                            })
                            &&& *final(self) == (Core { pending_events: final(self).pending_events, ..*old(self) })
                        }
                    },
                }
            },
    {
        let k = match self.first_settled_event() {
            None => return Ok(EventDisposition::Idle),
            Some(k) => k,
        };
        proof {
            assert forall|m: int| 0 <= m < old(self).pending_events@.len() && event_settled(*old(self), m)
                && (forall|n: int| 0 <= n < m ==> !#[trigger] event_settled(*old(self), n)) implies m == k by {
                if m < k {
                    assert(!event_settled(*old(self), m));
                }
                if k < m {
                    assert(!event_settled(*old(self), k as int));
                }
            }
        }
        let request = self.pending_events.remove(k);
        proof {
            lemma_first_fiber(old(self).fibers@, request.actor);
        }
        let i = match self.find_fiber(request.actor) {
            None => return Ok(EventDisposition::Dropped),
            Some(i) => i,
        };
        if self.fibers[i].state != InternalState::Active || self.fibers[i].outcome.is_some() {
            self.trace.push(TraceEvent::EventRejected {
                actor: request.actor,
                error: "event requester activation did not commit".to_string(),
            });
            return Ok(EventDisposition::Rejected);
        }
        let grants = &self.specs[self.fibers[i].spec].event_grants;
        if request.index >= grants.len() {
            return Err(Error::Invariant(InvariantIssue::EventGrantMissing));
        }
        let event = copy_event_grant(&grants[request.index]);
        Ok(EventDisposition::Ready {
            actor: request.actor,
            actor_path: self.fibers[i].path.clone(),
            event,
            value: request.value,
            payload: request.payload,
        })
    }

    /// The facts the event stream is asked to accept when one more event
    /// is appended: the outbox, then each pending event, numbered on from
    /// the next event identity, then the new event `value` of type `event`,
    /// with `payload`, from the fiber at `actor_path`. None where a pending
    /// event's requester is gone or no longer holds the grant it named.
    pub fn staged_facts(&self, actor_path: String, event: EventGrant, value: u64, payload: Option<DurablePayload>)
        -> (r: Option<Vec<EventFact>>)
        requires
            self.well_formed(),
            self.next_event_id + self.pending_events@.len() <= u64::MAX,
        ensures
            r is None <==> exists|k: int| 0 <= k < self.pending_events@.len() && !#[trigger] pending_describable(*self, k),
            r matches Some(v) ==> {
                let n = self.event_outbox@.len();
                let m = self.pending_events@.len();
                &&& v@.len() == n + m + 1
                &&& forall|j: int| 0 <= j < n ==> #[trigger] same_fact(v@[j], self.event_outbox@[j])
                &&& forall|k: int| 0 <= k < m ==> #[trigger] pending_fact(*self, k, v@[n + k])
                &&& v@[(n + m) as int] == (EventFact { id: (self.next_event_id + m) as u64, actor_path, event, value, payload })
            },
    {
        let mut staged: Vec<EventFact> = Vec::new();
        let mut j: usize = 0;
        while j < self.event_outbox.len()
            invariant
                j <= self.event_outbox@.len(),
                staged@.len() == j,
                forall|a: int| 0 <= a < j ==> #[trigger] same_fact(staged@[a], self.event_outbox@[a]),
            decreases self.event_outbox@.len() - j,
        {
            let f = &self.event_outbox[j];
            staged.push(EventFact {
                id: f.id,
                actor_path: f.actor_path.clone(),
                event: copy_event_grant(&f.event),
                value: f.value,
                payload: copy_payload(&f.payload),
            });
            j += 1;
        }
        let n = staged.len();
        let mut k: usize = 0;
        while k < self.pending_events.len()
            invariant
                self.well_formed(),
                self.next_event_id + self.pending_events@.len() <= u64::MAX,
                n == self.event_outbox@.len(),
                k <= self.pending_events@.len(),
                staged@.len() == n + k,
                forall|a: int| 0 <= a < n ==> #[trigger] same_fact(staged@[a], self.event_outbox@[a]),
                forall|a: int| 0 <= a < k ==> #[trigger] pending_fact(*self, a, staged@[n + a]),
                forall|a: int| 0 <= a < k ==> #[trigger] pending_describable(*self, a),
            decreases self.pending_events@.len() - k,
        {
            let e = &self.pending_events[k];
            proof {
                lemma_first_fiber(self.fibers@, e.actor);
            }
            let i = match self.find_fiber(e.actor) {
                None => {
                    assert(!pending_describable(*self, k as int));
                    return None;
                },
                Some(i) => i,
            };
            let grants = &self.specs[self.fibers[i].spec].event_grants;
            if e.index >= grants.len() {
                assert(!pending_describable(*self, k as int));
                return None;
            }
            let ghost before = staged@;
            staged.push(EventFact {
                id: self.next_event_id + k as u64,
                actor_path: self.fibers[i].path.clone(),
                event: copy_event_grant(&grants[e.index]),
                value: e.value,
                payload: copy_payload(&e.payload),
            });
            proof {
                assert forall|a: int| 0 <= a < n implies #[trigger] same_fact(staged@[a], self.event_outbox@[a]) by {
                    assert(staged@[a] == before[a]);
                }
                assert forall|a: int| 0 <= a < k + 1 implies #[trigger] pending_fact(*self, a, staged@[n + a]) by {
                    if a < k {
                        assert(staged@[n + a] == before[n + a]);
                    }
                }
            }
            k += 1;
        }
        let ghost before = staged@;
        let m = self.pending_events.len();
        staged.push(EventFact { id: self.next_event_id + m as u64, actor_path, event, value, payload });
        proof {
            assert forall|a: int| 0 <= a < n implies #[trigger] same_fact(staged@[a], self.event_outbox@[a]) by {
                assert(staged@[a] == before[a]);
            }
            assert forall|a: int| 0 <= a < m implies #[trigger] pending_fact(*self, a, staged@[n + a]) by {
                assert(staged@[n + a] == before[n + a]);
            }
        }
        Some(staged)
    }

    /// Queues the event `value` of type `event`, with `payload`, that
    /// `actor` at `actor_path` appended, once the event stream has judged
    /// the outbox with it added, with `verdict`: an accepted event takes the
    /// next event identity, which is returned, joins the outbox, and is
    /// traced. Without an event stream nothing is queued; a refusal is
    /// returned as it came.
    pub fn queue_event(&mut self, actor: FiberId, actor_path: String, event: EventGrant, value: u64,
        payload: Option<DurablePayload>, verdict: Result<(), Error>) -> (r: Result<u64, Error>)
        requires
            old(self).next_event_id < u64::MAX,
        ensures
            old(self).event_stream is None ==> r == Err::<u64, Error>(Error::Persistence(PersistenceIssue::EventStreamUnavailable))
                && *final(self) == *old(self),
            old(self).event_stream is Some ==> match verdict {
                Err(e) => r == Err::<u64, Error>(e) && *final(self) == *old(self),
                Ok(()) => {
                    let id = old(self).next_event_id;
                    &&& r == Ok::<u64, Error>(id)
                    &&& final(self).next_event_id == id + 1
                    &&& final(self).event_outbox@ == old(self).event_outbox@.push(EventFact { id, actor_path, event, value, payload })
                    &&& final(self).trace@ == old(self).trace@.push(TraceEvent::EventQueued { actor, id })
                    &&& *final(self) == (Core { next_event_id: final(self).next_event_id, event_outbox: final(self).event_outbox,
                        trace: final(self).trace, ..*old(self) })
                },
            },
    {
        if self.event_stream.is_none() {
            return Err(Error::Persistence(PersistenceIssue::EventStreamUnavailable));
        }
        match verdict {
            Err(e) => return Err(e),
            Ok(()) => {},
        }
        let id = self.next_event_id;
        self.next_event_id = id + 1;
        self.event_outbox.push(EventFact { id, actor_path, event, value, payload });
        self.trace.push(TraceEvent::EventQueued { actor, id });
        Ok(id)
    }

    /// Withdraws the event `id` that the journal did not take: it must be
    /// the newest in the outbox, and the next event identity goes back to
    /// it. An empty outbox, or another newest event, breaks the core's
    /// bookkeeping, after that event left the outbox.
    pub fn unqueue_event(&mut self, id: u64) -> (r: Result<(), Error>)
        ensures
            old(self).event_outbox@.len() == 0 ==> r == Err::<(), Error>(Error::Invariant(InvariantIssue::OutboxEmpty))
                && *final(self) == *old(self),
            old(self).event_outbox@.len() > 0 ==> {
                &&& final(self).event_outbox@ == old(self).event_outbox@.drop_last()
                &&& if old(self).event_outbox@.last().id == id {
                    r is Ok && *final(self) == (Core { event_outbox: final(self).event_outbox, next_event_id: id, ..*old(self) })
                } else {
                    r == Err::<(), Error>(Error::Invariant(InvariantIssue::OutboxTailNotOwned))
                        && *final(self) == (Core { event_outbox: final(self).event_outbox, ..*old(self) })
                }
            },
    {
        if self.event_outbox.len() == 0 {
            return Err(Error::Invariant(InvariantIssue::OutboxEmpty));
        }
        let removed = self.event_outbox.pop().unwrap();
        if removed.id != id {
            return Err(Error::Invariant(InvariantIssue::OutboxTailNotOwned));
        }
        self.next_event_id = id;
        Ok(())
    }
}

} // verus!
