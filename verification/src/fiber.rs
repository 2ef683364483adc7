//! The kernel's core: the fibers of a composition, the state cells and
//! bindings their activations install, and the inverse of every effect an
//! activation applies, so that a failed or retired activation can be undone.

use vstd::prelude::*;
use vstd::string::{StringExecFns, StringSliceAdditionalSpecFns};
use vstd::utf8::encode_utf8;
use crate::component::{ComponentSpec, ComponentTree, FiberId, FiberState, Limits, TraceEvent};
use crate::composition::{bytes_equal, is_same_or_ancestor, paths_overlap, same_or_ancestor, spec_paths_overlap, CompositionPatch};
use crate::error::{Error, InvariantIssue, PersistenceIssue};
use crate::tree::{child_named, find_named, lemma_child_named_unique, named_root, same_composition, same_declaration, same_spec, same_tree};
use crate::manifest::{provided_map, required_map, BindingKind, HostCapability, InterfaceId, InterfaceIdView, Manifest};
use crate::exchange::{check_request, request_ok, spec_exchange_result, exchange_result, DurablePayload, ExchangeGrant, ExchangeLedgerOutcome};
use crate::journal::{EventGrant, SnapshotGrant};
use crate::digest::{sha256_hex, spec_sha256_hex};
use crate::repository::{holds, spec_workspace_status, workspace_status, PublicationOwnership, WorkspaceGrant};
use crate::task::copy_bytes;
use crate::status::{STATUS_BUSY, STATUS_COLLISION, STATUS_DENIED, STATUS_INVALID, STATUS_STALE, STATUS_LIMIT, STATUS_OK, STATUS_UNDECLARED, STATUS_UNSATISFIED};

verus! {

broadcast use vstd::laws_cmp::group_laws_cmp;

/// The lifecycle state of a fiber as the core tracks it.
#[derive(Clone, Copy, Debug, PartialEq, Eq, Structural)]
pub enum InternalState {
    Inactive,
    Activating,
    Active,
    Unloading,
    Failed,
}

/// A granted snapshot as prepared: its grant and its bytes.
#[derive(Debug, PartialEq, Eq)]
pub struct PreparedSnapshot {
    pub grant: SnapshotGrant,
    pub bytes: Vec<u8>,
}

/// A granted workspace as prepared: its grant and the bytes it held.
#[derive(Debug, PartialEq, Eq)]
pub struct PreparedWorkspace {
    pub grant: WorkspaceGrant,
    pub bytes: Vec<u8>,
}

/// A component specification prepared for activation: its entry name, the
/// manifest and digest of its artifact, its prepared children by their
/// position in the core's table of prepared specifications, and its granted
/// workspaces.
#[derive(Debug, PartialEq, Eq)]
pub struct PreparedSpec {
    pub entry: String,
    /// The declaration it was prepared from.
    pub declaration: ComponentSpec,
    pub manifest: Manifest,
    pub artifact_digest: String,
    pub children: Vec<usize>,
    /// The paths its prepared composition patches change.
    pub patch_targets: Vec<String>,
    /// The composition journals it may open.
    pub journal_paths: Vec<String>,
    /// The event streams it may open.
    pub event_stream_paths: Vec<String>,
    /// Its granted snapshots.
    pub snapshots: Vec<PreparedSnapshot>,
    pub workspaces: Vec<PreparedWorkspace>,
    /// The event types it may append.
    pub event_grants: Vec<EventGrant>,
    /// The output buffers it may fill and append as event payloads.
    pub event_outputs: Vec<EventOutputGrant>,
}

/// Authority to fill one event output buffer, up to `max_bytes`, and to
/// append it as an event payload of this provenance.
#[derive(Debug, PartialEq, Eq)]
pub struct EventOutputGrant {
    pub provenance: String,
    pub max_bytes: usize,
}

/// The provider a fiber committed to for one of its injected slots.
#[derive(Debug, PartialEq, Eq)]
pub struct CommittedProvider {
    pub slot: u64,
    pub fiber: FiberId,
    pub interface: InterfaceId,
}

/// The undo of one effect an activation applied.
#[derive(Debug, PartialEq, Eq)]
pub enum Inverse {
    /// Put back the state cell `key` as it was: `previous`, or absent.
    RestoreState { effect: u64, key: u64, previous: Option<u64> },
    /// Remove the binding this fiber installed for `interface`.
    RemoveBinding { effect: u64, interface: InterfaceId },
    /// Retire the child of registration `registration`.
    RetireChild { effect: u64, registration: u64 },
    /// Undo a composition patch on `target`; only the runtime can.
    RestoreComposition { effect: u64, target: String, undo: CompositionPatch },
    /// Close the journal this fiber opened.
    CloseJournal { effect: u64 },
    /// Close the event stream this fiber opened.
    CloseEventStream { effect: u64 },
    /// Close the exchange ledger this fiber opened.
    CloseExchange { effect: u64 },
    /// Restore a published workspace to its bytes before.
    RestoreWorkspace { effect: u64, grant: WorkspaceGrant, before_bytes: Vec<u8>, result_bytes: Vec<u8> },
    /// Check that a promoted workspace still holds its promoted result.
    VerifyPromotedWorkspace { effect: u64, grant: WorkspaceGrant, before_bytes: Vec<u8>, result_bytes: Vec<u8>, approver: String },
}

impl Inverse {
    /// The effect an inverse undoes.
    pub open spec fn spec_effect(&self) -> u64 {
        match self {
            Inverse::RestoreState { effect, .. } => *effect,
            Inverse::RemoveBinding { effect, .. } => *effect,
            Inverse::RetireChild { effect, .. } => *effect,
            Inverse::RestoreComposition { effect, .. } => *effect,
            Inverse::CloseJournal { effect } => *effect,
            Inverse::CloseEventStream { effect } => *effect,
            Inverse::CloseExchange { effect } => *effect,
            Inverse::RestoreWorkspace { effect, .. } => *effect,
            Inverse::VerifyPromotedWorkspace { effect, .. } => *effect,
        }
    }

    /// Returns the effect an inverse undoes.
    pub fn effect(&self) -> (r: u64)
        ensures
            r == self.spec_effect(),
    {
        match self {
            Inverse::RestoreState { effect, .. } => *effect,
            Inverse::RemoveBinding { effect, .. } => *effect,
            Inverse::RetireChild { effect, .. } => *effect,
            Inverse::RestoreComposition { effect, .. } => *effect,
            Inverse::CloseJournal { effect } => *effect,
            Inverse::CloseEventStream { effect } => *effect,
            Inverse::CloseExchange { effect } => *effect,
            Inverse::RestoreWorkspace { effect, .. } => *effect,
            Inverse::VerifyPromotedWorkspace { effect, .. } => *effect,
        }
    }

    /// The trace name of the kind of effect an inverse undoes.
    pub open spec fn spec_kind(&self) -> Seq<char> {
        match self {
            Inverse::RestoreState { .. } => "state"@,
            Inverse::RemoveBinding { .. } => "coeffect"@,
            Inverse::RetireChild { .. } => "component-registration"@,
            Inverse::RestoreComposition { .. } => "composition"@,
            Inverse::CloseJournal { .. } => "composition-journal"@,
            Inverse::CloseEventStream { .. } => "event-stream"@,
            Inverse::CloseExchange { .. } => "exchange-ledger"@,
            Inverse::RestoreWorkspace { .. } => "workspace-publication"@,
            Inverse::VerifyPromotedWorkspace { .. } => "workspace-promotion"@,
        }
    }

    /// Returns the trace name of the kind of effect an inverse undoes.
    pub fn kind(&self) -> (r: String)
        ensures
            r@ == self.spec_kind(),
    {
        match self {
            Inverse::RestoreState { .. } => "state".to_string(),
            Inverse::RemoveBinding { .. } => "coeffect".to_string(),
            Inverse::RetireChild { .. } => "component-registration".to_string(),
            Inverse::RestoreComposition { .. } => "composition".to_string(),
            Inverse::CloseJournal { .. } => "composition-journal".to_string(),
            Inverse::CloseEventStream { .. } => "event-stream".to_string(),
            Inverse::CloseExchange { .. } => "exchange-ledger".to_string(),
            Inverse::RestoreWorkspace { .. } => "workspace-publication".to_string(),
            Inverse::VerifyPromotedWorkspace { .. } => "workspace-promotion".to_string(),
        }
    }
}

/// One state cell: the value a fiber stored under a key.
#[derive(Clone, Copy, Debug, PartialEq, Eq, Structural)]
pub struct StateCell {
    pub fiber: FiberId,
    pub key: u64,
    pub value: u64,
}

/// The value of the cell `key` of `fiber`: the last entry for it.
pub open spec fn cell_value(cells: Seq<StateCell>, fiber: FiberId, key: u64) -> Option<u64>
    decreases cells.len(),
{
    if cells.len() == 0 {
        None
    } else if cells.last().fiber == fiber && cells.last().key == key {
        Some(cells.last().value)
    } else {
        cell_value(cells.drop_last(), fiber, key)
    }
}

/// `after` holds the cells of `before` with the cell `key` of `fiber` set to
/// `value`, or removed where `value` is `None`.
pub open spec fn cells_written(before: Seq<StateCell>, after: Seq<StateCell>, fiber: FiberId, key: u64, value: Option<u64>) -> bool {
    forall|f: FiberId, k: u64| #[trigger] cell_value(after, f, k) == (if f == fiber && k == key { value } else { cell_value(before, f, k) })
}

/// Two cell lists hold the same cells.
pub open spec fn same_cells(a: Seq<StateCell>, b: Seq<StateCell>) -> bool {
    forall|f: FiberId, k: u64| #[trigger] cell_value(a, f, k) == cell_value(b, f, k)
}

/// Returns the cells with the cell `key` of `fiber` set to `value`, or
/// removed where `value` is `None`.
pub fn write_cell(cells: &Vec<StateCell>, fiber: FiberId, key: u64, value: Option<u64>) -> (r: Vec<StateCell>)
    ensures
        cells_written(cells@, r@, fiber, key, value),
{
    let mut out: Vec<StateCell> = Vec::new();
    let mut i: usize = 0;
    while i < cells.len()
        invariant
            i <= cells@.len(),
            forall|f: FiberId, k: u64| #[trigger] cell_value(out@, f, k)
                == (if f == fiber && k == key { None } else { cell_value(cells@.take(i as int), f, k) }),
        decreases cells@.len() - i,
    {
        let c = cells[i];
        let ghost prev = out@;
        if !(c.fiber == fiber && c.key == key) {
            out.push(c);
        }
        proof {
            assert(cells@.take(i + 1).drop_last() =~= cells@.take(i as int));
            assert(cells@.take(i + 1).last() == c);
            assert forall|f: FiberId, k: u64| #[trigger] cell_value(out@, f, k)
                == (if f == fiber && k == key { None } else { cell_value(cells@.take(i + 1), f, k) }) by {
                assert(cell_value(prev, f, k) == (if f == fiber && k == key { None } else { cell_value(cells@.take(i as int), f, k) }));
                if !(c.fiber == fiber && c.key == key) {
                    assert(out@.drop_last() =~= prev);
                }
            }
        }
        i = i + 1;
    }
    assert(cells@.take(cells@.len() as int) =~= cells@);
    let ghost prev = out@;
    match value {
        Some(v) => {
            out.push(StateCell { fiber, key, value: v });
            proof {
                assert(out@.drop_last() =~= prev);
                assert forall|f: FiberId, k: u64| #[trigger] cell_value(out@, f, k)
                    == (if f == fiber && k == key { value } else { cell_value(cells@, f, k) }) by {
                    assert(cell_value(prev, f, k) == (if f == fiber && k == key { None } else { cell_value(cells@, f, k) }));
                }
            }
        },
        None => {},
    }
    out
}

/// Returns the value of the cell `key` of `fiber`.
pub fn read_cell(cells: &Vec<StateCell>, fiber: FiberId, key: u64) -> (r: Option<u64>)
    ensures
        r == cell_value(cells@, fiber, key),
{
    let mut i: usize = cells.len();
    assert(cells@.take(i as int) =~= cells@);
    while i > 0
        invariant
            i <= cells@.len(),
            forall|j: int| i <= j < cells@.len() ==> !(#[trigger] cells@[j].fiber == fiber && cells@[j].key == key),
            cell_value(cells@, fiber, key) == cell_value(cells@.take(i as int), fiber, key),
        decreases i,
    {
        let c = cells[i - 1];
        assert(cells@.take(i as int).drop_last() =~= cells@.take(i - 1));
        if c.fiber == fiber && c.key == key {
            return Some(c.value);
        }
        i = i - 1;
    }
    None
}

/// Restoring a cell to the value it had before a write undoes the write.
pub proof fn lemma_write_then_restore(a: Seq<StateCell>, b: Seq<StateCell>, c: Seq<StateCell>, fiber: FiberId, key: u64, value: Option<u64>)
    requires
        cells_written(a, b, fiber, key, value),
        cells_written(b, c, fiber, key, cell_value(a, fiber, key)),
    ensures
        same_cells(a, c),
{
    assert forall|f: FiberId, k: u64| #[trigger] cell_value(a, f, k) == cell_value(c, f, k) by {
        assert(cell_value(c, f, k) == (if f == fiber && k == key { cell_value(a, fiber, key) } else { cell_value(b, f, k) }));
    }
}

/// Returns whether two texts are equal.
pub fn same_str(a: &str, b: &str) -> (r: bool)
    ensures
        r == (a@ == b@),
{
    proof {
        vstd::utf8::encode_utf8_decode_utf8(a@);
        vstd::utf8::encode_utf8_decode_utf8(b@);
    }
    bytes_equal(a.as_bytes(), b.as_bytes())
}

/// Rolling back an activation's state writes, newest first, each to the
/// value its cell held before the write, restores the cells the activation
/// began with: `states[i + 1]` is `states[i]` after write `i`, and
/// `undone[i]` is `undone[i + 1]` after the inverse of write `i`, starting
/// from the cells the writes left.
pub proof fn lemma_rollback_restores_cells(states: Seq<Seq<StateCell>>, undone: Seq<Seq<StateCell>>, writes: Seq<StateCell>)
    requires
        states.len() == writes.len() + 1,
        undone.len() == writes.len() + 1,
        forall|i: int| 0 <= i < writes.len() ==> cells_written(states[i], states[i + 1], #[trigger] writes[i].fiber, writes[i].key, Some(writes[i].value)),
        forall|i: int| 0 <= i < writes.len() ==> cells_written(undone[i + 1], undone[i], #[trigger] writes[i].fiber, writes[i].key,
            cell_value(states[i], writes[i].fiber, writes[i].key)),
        same_cells(undone[writes.len() as int], states[writes.len() as int]),
    ensures
        same_cells(undone[0], states[0]),
    decreases writes.len(),
{
    let n = writes.len() as int;
    if n > 0 {
        let w = writes[n - 1];
        assert(cells_written(states[n - 1], states[n], w.fiber, w.key, Some(w.value)));
        assert(cells_written(undone[n], undone[n - 1], w.fiber, w.key, cell_value(states[n - 1], w.fiber, w.key)));
        assert forall|f: FiberId, k: u64| #[trigger] cell_value(undone[n - 1], f, k) == cell_value(states[n - 1], f, k) by {
            assert(cell_value(undone[n], f, k) == cell_value(states[n], f, k));
            assert(cell_value(states[n], f, k) == (if f == w.fiber && k == w.key { Some(w.value) } else { cell_value(states[n - 1], f, k) }));
        }
        let (s2, u2, w2) = (states.drop_last(), undone.drop_last(), writes.drop_last());
        assert forall|i: int| 0 <= i < w2.len() implies cells_written(s2[i], s2[i + 1], #[trigger] w2[i].fiber, w2[i].key, Some(w2[i].value)) by {
            assert(writes[i] == w2[i]);
            assert(s2[i] == states[i] && s2[i + 1] == states[i + 1]);
        }
        assert forall|i: int| 0 <= i < w2.len() implies cells_written(u2[i + 1], u2[i], #[trigger] w2[i].fiber, w2[i].key,
            cell_value(s2[i], w2[i].fiber, w2[i].key)) by {
            assert(writes[i] == w2[i]);
            assert(u2[i] == undone[i] && u2[i + 1] == undone[i + 1] && s2[i] == states[i]);
        }
        lemma_rollback_restores_cells(s2, u2, w2);
    }
}

/// A binding some fiber installed for an interface: a value cell or a
/// callable provider.
#[derive(Debug, PartialEq, Eq)]
pub struct ProviderBinding {
    pub interface: InterfaceId,
    pub fiber: FiberId,
    pub kind: BindingKind,
    pub value: Option<u64>,
}

/// What is bound to an interface: its provider, kind and value.
pub struct Bound {
    pub fiber: FiberId,
    pub kind: BindingKind,
    pub value: Option<u64>,
}

/// What is bound to `interface`: the last binding for it.
pub open spec fn bound_to(bindings: Seq<ProviderBinding>, interface: InterfaceIdView) -> Option<Bound>
    decreases bindings.len(),
{
    if bindings.len() == 0 {
        None
    } else if bindings.last().interface@ == interface {
        Some(Bound { fiber: bindings.last().fiber, kind: bindings.last().kind, value: bindings.last().value })
    } else {
        bound_to(bindings.drop_last(), interface)
    }
}

/// `after` holds the bindings of `before` with `interface` bound as `bound`,
/// or unbound where `bound` is `None`.
pub open spec fn bindings_written(before: Seq<ProviderBinding>, after: Seq<ProviderBinding>, interface: InterfaceIdView, bound: Option<Bound>) -> bool {
    forall|i: InterfaceIdView| #[trigger] bound_to(after, i) == (if i == interface { bound } else { bound_to(before, i) })
}

/// Two binding lists bind the same interfaces alike.
pub open spec fn same_bindings(a: Seq<ProviderBinding>, b: Seq<ProviderBinding>) -> bool {
    forall|i: InterfaceIdView| #[trigger] bound_to(a, i) == bound_to(b, i)
}

/// A copy of an interface identity.
pub fn copy_interface(i: &InterfaceId) -> (r: InterfaceId)
    ensures
        r == *i,
{
    InterfaceId { kind: i.kind, namespace: i.namespace.clone(), interface: i.interface.clone(), revision: i.revision }
}

/// Returns whether two interface identities are the same.
pub fn same_interface(a: &InterfaceId, b: &InterfaceId) -> (r: bool)
    ensures
        r == (a@ == b@),
{
    a.kind == b.kind && a.namespace == b.namespace && a.interface == b.interface && a.revision == b.revision
}

/// Returns the bindings with `interface` bound as `bound`, or unbound where
/// `bound` is `None`.
pub fn write_binding(bindings: &Vec<ProviderBinding>, interface: &InterfaceId, bound: Option<(FiberId, BindingKind, Option<u64>)>) -> (r: Vec<ProviderBinding>)
    ensures
        bindings_written(bindings@, r@, interface@, match bound {
            Some((fiber, kind, value)) => Some(Bound { fiber, kind, value }),
            None => None,
        }),
{
    let mut out: Vec<ProviderBinding> = Vec::new();
    let mut i: usize = 0;
    while i < bindings.len()
        invariant
            i <= bindings@.len(),
            forall|k: InterfaceIdView| #[trigger] bound_to(out@, k)
                == (if k == interface@ { None } else { bound_to(bindings@.take(i as int), k) }),
        decreases bindings@.len() - i,
    {
        let b = &bindings[i];
        let ghost prev = out@;
        if !same_interface(&b.interface, interface) {
            out.push(ProviderBinding { interface: copy_interface(&b.interface), fiber: b.fiber, kind: b.kind, value: b.value });
        }
        proof {
            assert(bindings@.take(i + 1).drop_last() =~= bindings@.take(i as int));
            assert(bindings@.take(i + 1).last() == *b);
            assert forall|k: InterfaceIdView| #[trigger] bound_to(out@, k)
                == (if k == interface@ { None } else { bound_to(bindings@.take(i + 1), k) }) by {
                assert(bound_to(prev, k) == (if k == interface@ { None } else { bound_to(bindings@.take(i as int), k) }));
                if b.interface@ != interface@ {
                    assert(out@.drop_last() =~= prev);
                }
            }
        }
        i = i + 1;
    }
    assert(bindings@.take(bindings@.len() as int) =~= bindings@);
    let ghost prev = out@;
    let ghost target = match bound {
        Some((fiber, kind, value)) => Some(Bound { fiber, kind, value }),
        None => None,
    };
    match bound {
        Some((fiber, kind, value)) => {
            out.push(ProviderBinding { interface: copy_interface(interface), fiber, kind, value });
            proof {
                assert(out@.drop_last() =~= prev);
                assert forall|k: InterfaceIdView| #[trigger] bound_to(out@, k)
                    == (if k == interface@ { target } else { bound_to(bindings@, k) }) by {
                    assert(bound_to(prev, k) == (if k == interface@ { None } else { bound_to(bindings@, k) }));
                }
            }
        },
        None => {},
    }
    out
}

/// Returns the position of the binding of `interface`, the last one.
pub fn find_binding(bindings: &Vec<ProviderBinding>, interface: &InterfaceId) -> (r: Option<usize>)
    ensures
        match r {
            Some(i) => i < bindings@.len() && bindings@[i as int].interface@ == interface@
                && bound_to(bindings@, interface@) == Some(Bound { fiber: bindings@[i as int].fiber, kind: bindings@[i as int].kind, value: bindings@[i as int].value }),
            None => bound_to(bindings@, interface@) is None,
        },
{
    let mut i: usize = bindings.len();
    assert(bindings@.take(i as int) =~= bindings@);
    while i > 0
        invariant
            i <= bindings@.len(),
            bound_to(bindings@, interface@) == bound_to(bindings@.take(i as int), interface@),
        decreases i,
    {
        assert(bindings@.take(i as int).drop_last() =~= bindings@.take(i - 1));
        assert(bindings@.take(i as int).last() == bindings@[i - 1]);
        if same_interface(&bindings[i - 1].interface, interface) {
            return Some(i - 1);
        }
        i = i - 1;
    }
    None
}

/// Removing a binding that was installed where none was undoes the
/// installation.
pub proof fn lemma_bind_then_unbind(a: Seq<ProviderBinding>, b: Seq<ProviderBinding>, c: Seq<ProviderBinding>, interface: InterfaceIdView, bound: Bound)
    requires
        bound_to(a, interface) is None,
        bindings_written(a, b, interface, Some(bound)),
        bindings_written(b, c, interface, None),
    ensures
        same_bindings(a, c),
{
    assert forall|i: InterfaceIdView| #[trigger] bound_to(a, i) == bound_to(c, i) by {
        assert(bound_to(c, i) == (if i == interface { None } else { bound_to(b, i) }));
    }
}

/// Rolling back an activation's bindings, newest first, restores the
/// bindings it began with: each binding was installed on an interface
/// nothing held (`states[i + 1]` is `states[i]` after binding
/// `interfaces[i]`), and each inverse removes it again (`undone[i]` is
/// `undone[i + 1]` without it), starting from the bindings they left.
pub proof fn lemma_rollback_restores_bindings(states: Seq<Seq<ProviderBinding>>, undone: Seq<Seq<ProviderBinding>>,
    interfaces: Seq<InterfaceIdView>, bound: Seq<Bound>)
    requires
        states.len() == interfaces.len() + 1,
        undone.len() == interfaces.len() + 1,
        bound.len() == interfaces.len(),
        forall|i: int| 0 <= i < interfaces.len() ==> bound_to(states[i], #[trigger] interfaces[i]) is None
            && bindings_written(states[i], states[i + 1], interfaces[i], Some(bound[i])),
        forall|i: int| 0 <= i < interfaces.len() ==> bindings_written(undone[i + 1], undone[i], #[trigger] interfaces[i], None),
        same_bindings(undone[interfaces.len() as int], states[interfaces.len() as int]),
    ensures
        same_bindings(undone[0], states[0]),
    decreases interfaces.len(),
{
    let n = interfaces.len() as int;
    if n > 0 {
        let x = interfaces[n - 1];
        assert(bound_to(states[n - 1], x) is None && bindings_written(states[n - 1], states[n], x, Some(bound[n - 1])));
        assert(bindings_written(undone[n], undone[n - 1], x, None));
        assert forall|i: InterfaceIdView| #[trigger] bound_to(undone[n - 1], i) == bound_to(states[n - 1], i) by {
            assert(bound_to(undone[n], i) == bound_to(states[n], i));
        }
        let (s2, u2, i2, b2) = (states.drop_last(), undone.drop_last(), interfaces.drop_last(), bound.drop_last());
        assert forall|i: int| 0 <= i < i2.len() implies bound_to(s2[i], #[trigger] i2[i]) is None
            && bindings_written(s2[i], s2[i + 1], i2[i], Some(b2[i])) by {
            assert(interfaces[i] == i2[i] && bound[i] == b2[i]);
            assert(s2[i] == states[i] && s2[i + 1] == states[i + 1]);
        }
        assert forall|i: int| 0 <= i < i2.len() implies bindings_written(u2[i + 1], u2[i], #[trigger] i2[i], None) by {
            assert(interfaces[i] == i2[i]);
            assert(u2[i] == undone[i] && u2[i + 1] == undone[i + 1]);
        }
        lemma_rollback_restores_bindings(s2, u2, i2, b2);
    }
}

/// The registration of a child under its parent.
#[derive(Debug, PartialEq, Eq)]
pub struct Registration {
    pub id: u64,
    pub parent: FiberId,
    pub child: FiberId,
    pub entry: String,
}

/// A root entry of the composition and its fiber.
#[derive(Debug, PartialEq, Eq)]
pub struct Root {
    pub entry: String,
    pub fiber: FiberId,
}

/// The target a composition patch owns and its owner.
#[derive(Debug, PartialEq, Eq)]
pub struct PatchOwner {
    pub target: String,
    pub fiber: FiberId,
}

/// The authority a provider gave a fiber to publish one of its workspaces.
#[derive(Clone, Copy, Debug, PartialEq, Eq, Structural)]
pub struct WorkspaceAuthorization {
    pub provider: FiberId,
    pub index: usize,
    pub operation: u64,
}

/// The authority a provider gave a fiber to apply one of its patches on a
/// base composition revision.
#[derive(Clone, Copy, Debug, PartialEq, Eq, Structural)]
pub struct PatchAuthorization {
    pub provider: FiberId,
    pub index: usize,
    pub base_revision: u64,
}

/// The authority a provider gave a fiber to promote one of its workspaces,
/// naming the approver.
#[derive(Debug, PartialEq, Eq)]
pub struct PromotionAuthorization {
    pub provider: FiberId,
    pub index: usize,
    pub operation: u64,
    pub approver: String,
}

/// One generation of a component instance and what its activation holds.
#[derive(Debug, PartialEq, Eq)]
pub struct Fiber {
    pub id: FiberId,
    pub parent: Option<FiberId>,
    pub path: String,
    /// The position of its prepared specification in the core's table.
    pub spec: usize,
    pub retired: bool,
    pub pinned: bool,
    pub state: InternalState,
    /// The provider committed for each injected slot.
    pub committed: Vec<CommittedProvider>,
    /// The inverses of the effects its activation applied, oldest first.
    pub accumulator: Vec<Inverse>,
    /// Whether a guest instance of it is live.
    pub instance: bool,
    pub activation_steps: u32,
    pub outcome: Option<String>,
    pub patch_authorization: Option<PatchAuthorization>,
    pub staged_response: Option<DurablePayload>,
    pub staged_usage: Option<u64>,
    pub inbound_response: Option<DurablePayload>,
    pub workspace_buffers: Vec<Vec<u8>>,
    /// One buffer per event output grant of its specification.
    pub event_output_buffers: Vec<Vec<u8>>,
    pub workspace_authorization: Option<WorkspaceAuthorization>,
    pub promotion_authorization: Option<PromotionAuthorization>,
}

/// A copy of the bytes of some prepared workspaces.
fn copy_buffers(v: &Vec<PreparedWorkspace>) -> (r: Vec<Vec<u8>>)
    ensures
        r@.len() == v@.len(),
        forall|i: int| 0 <= i < v@.len() ==> #[trigger] r@[i]@ == v@[i].bytes@,
{
    let mut out: Vec<Vec<u8>> = Vec::new();
    let mut i: usize = 0;
    while i < v.len()
        invariant
            i <= v@.len(),
            out@.len() == i,
            forall|j: int| 0 <= j < i ==> #[trigger] out@[j]@ == v@[j].bytes@,
        decreases v@.len() - i,
    {
        out.push(copy_bytes(&v[i].bytes));
        i = i + 1;
    }
    out
}

impl Fiber {
    /// A new inactive fiber of the prepared specification at position `spec`,
    /// which is `prepared`, at `path`, holding a copy of the bytes of its
    /// granted workspaces and nothing else.
    pub fn new(id: FiberId, parent: Option<FiberId>, path: String, spec: usize, prepared: &PreparedSpec) -> (r: Fiber)
        ensures
            r.id == id,
            r.parent == parent,
            r.path == path,
            r.spec == spec,
            !r.retired,
            !r.pinned,
            r.state == InternalState::Inactive,
            r.committed@.len() == 0,
            r.accumulator@.len() == 0,
            !r.instance,
            r.activation_steps == 0,
            r.outcome is None,
            r.staged_response is None,
            r.staged_usage is None,
            r.inbound_response is None,
            r.workspace_buffers@.len() == prepared.workspaces@.len(),
            forall|i: int| 0 <= i < prepared.workspaces@.len() ==> #[trigger] r.workspace_buffers@[i]@ == prepared.workspaces@[i].bytes@,
            r.event_output_buffers@.len() == prepared.event_outputs@.len(),
            forall|i: int| 0 <= i < prepared.event_outputs@.len() ==> #[trigger] r.event_output_buffers@[i]@.len() == 0,
            r.workspace_authorization is None,
            r.patch_authorization is None,
            r.promotion_authorization is None,
    {
        let workspace_buffers = copy_buffers(&prepared.workspaces);
        let mut event_output_buffers: Vec<Vec<u8>> = Vec::new();
        let mut k: usize = 0;
        while k < prepared.event_outputs.len()
            invariant
                k <= prepared.event_outputs@.len(),
                event_output_buffers@.len() == k,
                forall|j: int| 0 <= j < k ==> #[trigger] event_output_buffers@[j]@.len() == 0,
            decreases prepared.event_outputs@.len() - k,
        {
            event_output_buffers.push(Vec::new());
            k = k + 1;
        }
        Fiber {
            id,
            parent,
            path,
            spec,
            retired: false,
            pinned: false,
            state: InternalState::Inactive,
            committed: Vec::new(),
            accumulator: Vec::new(),
            instance: false,
            activation_steps: 0,
            outcome: None,
            patch_authorization: None,
            staged_response: None,
            staged_usage: None,
            inbound_response: None,
            workspace_buffers,
            event_output_buffers,
            workspace_authorization: None,
            promotion_authorization: None,
        }
    }

    /// Returns the public state of a fiber; a failure carries its outcome,
    /// or "unknown failure" where none was recorded.
    pub fn public_state(&self) -> (r: FiberState)
        ensures
            match self.state {
                InternalState::Inactive => r == FiberState::Inactive,
                InternalState::Activating => r == FiberState::Activating,
                InternalState::Active => r == FiberState::Active,
                InternalState::Unloading => r == FiberState::Unloading,
                InternalState::Failed => r matches FiberState::Failed(m) && m@ == (match self.outcome {
                    Some(o) => o@,
                    None => "unknown failure"@,
                }),
            },
    {
        match self.state {
            InternalState::Inactive => FiberState::Inactive,
            InternalState::Activating => FiberState::Activating,
            InternalState::Active => FiberState::Active,
            InternalState::Unloading => FiberState::Unloading,
            InternalState::Failed => FiberState::Failed(match &self.outcome {
                Some(o) => o.clone(),
                None => "unknown failure".to_string(),
            }),
        }
    }
}

/// The kernel's core: its fibers and every effect their activations hold.
#[derive(Debug)]
pub struct Core {
    pub limits: Limits,
    pub next_fiber: u64,
    pub next_effect: u64,
    pub next_registration: u64,
    pub composition_revision: u64,
    /// The prepared specifications the fibers and their children name.
    pub specs: Vec<PreparedSpec>,
    pub fibers: Vec<Fiber>,
    pub roots: Vec<Root>,
    pub registrations: Vec<Registration>,
    pub state_cells: Vec<StateCell>,
    pub bindings: Vec<ProviderBinding>,
    pub patch_owners: Vec<PatchOwner>,
    /// The composition patches waiting to be applied.
    pub pending_patches: Vec<PendingPatch>,
    /// The actors of the events waiting to be committed.
    /// The events appended and not yet committed, oldest first.
    pub pending_events: Vec<PendingEvent>,
    /// The events queued for the event stream and not yet committed to it,
    /// oldest first.
    pub event_outbox: Vec<EventFact>,
    pub blocked_recovery: Vec<FiberId>,
    pub invoking: Vec<FiberId>,
    pub next_event_id: u64,
    /// Why the event stream last refused an append, if it did.
    pub event_failure: Option<Error>,
    pub trace: Vec<TraceEvent>,
    pub journal_owner: Option<FiberId>,
    /// The event stream a fiber opened, if any.
    pub event_stream: Option<EventStreamRegistration>,
    /// The exchange ledger a fiber opened, if any.
    pub exchange: Option<ExchangeRegistration>,
    /// The identities of the exchange adapters the host offers.
    pub exchange_adapters: Vec<String>,
    pub replaying: bool,
}

/// No two patch owners own the same target, as a map keyed by target has
/// it.
pub open spec fn owners_distinct(owners: Seq<PatchOwner>) -> bool {
    forall|a: int, b: int| 0 <= a < b < owners.len() ==> (#[trigger] owners[a]).target@ != (#[trigger] owners[b]).target@
}

/// No two roots share an entry, as a map keyed by entry has it.
pub open spec fn roots_distinct(roots: Seq<Root>) -> bool {
    forall|a: int, b: int| 0 <= a < b < roots.len() ==> (#[trigger] roots[a]).entry@ != (#[trigger] roots[b]).entry@
}

/// The fibers are kept in ascending order of their distinct identities, all
/// below the next identity to hand out, as a map keyed by identity is.
pub open spec fn ids_ascending(fibers: Seq<Fiber>, next: u64) -> bool {
    &&& forall|a: int, b: int| 0 <= a < b < fibers.len() ==> (#[trigger] fibers[a]).id.0 < (#[trigger] fibers[b]).id.0
    &&& forall|a: int| 0 <= a < fibers.len() ==> (#[trigger] fibers[a]).id.0 < next
}

/// With identities ascending, the fiber with identity `fibers[i].id` is
/// fiber `i` itself, and walking the fibers in order walks their identities
/// in ascending order.
pub proof fn lemma_fiber_position(fibers: Seq<Fiber>, next: u64, i: int)
    requires
        ids_ascending(fibers, next),
        0 <= i < fibers.len(),
    ensures
        first_fiber(fibers, fibers[i].id) == Some(i),
{
    lemma_first_fiber(fibers, fibers[i].id);
    match first_fiber(fibers, fibers[i].id) {
        Some(k) => {
            if k < i {
                assert(fibers[k].id.0 < fibers[i].id.0);
            }
        },
        None => {},
    }
}

/// The position of the first fiber with identity `id`.
pub open spec fn first_fiber(fibers: Seq<Fiber>, id: FiberId) -> Option<int>
    decreases fibers.len(),
{
    if fibers.len() == 0 {
        None
    } else {
        match first_fiber(fibers.drop_last(), id) {
            Some(i) => Some(i),
            None => if fibers.last().id == id { Some(fibers.len() - 1) } else { None },
        }
    }
}

/// Where `first_fiber` finds a fiber, it finds one with that identity and
/// none before it; where it finds none, there is none.
pub proof fn lemma_first_fiber(fibers: Seq<Fiber>, id: FiberId)
    ensures
        match first_fiber(fibers, id) {
            Some(i) => 0 <= i < fibers.len() && fibers[i].id == id
                && forall|j: int| 0 <= j < i ==> #[trigger] fibers[j].id != id,
            None => forall|j: int| 0 <= j < fibers.len() ==> #[trigger] fibers[j].id != id,
        },
    decreases fibers.len(),
{
    if fibers.len() > 0 {
        lemma_first_fiber(fibers.drop_last(), id);
        match first_fiber(fibers.drop_last(), id) {
            Some(i) => {
                assert forall|j: int| 0 <= j < i implies #[trigger] fibers[j].id != id by {
                    assert(fibers.drop_last()[j] == fibers[j]);
                }
            },
            None => {
                assert forall|j: int| 0 <= j < fibers.len() - 1 implies #[trigger] fibers[j].id != id by {
                    assert(fibers.drop_last()[j] == fibers[j]);
                }
            },
        }
    }
}

/// The first fiber of a prefix is the first fiber of the whole list.
proof fn lemma_first_fiber_prefix(fibers: Seq<Fiber>, id: FiberId, n: int)
    requires
        0 <= n <= fibers.len(),
        first_fiber(fibers.take(n), id) is Some,
    ensures
        first_fiber(fibers, id) == first_fiber(fibers.take(n), id),
    decreases fibers.len() - n,
{
    if n < fibers.len() {
        assert(fibers.take(n + 1).drop_last() =~= fibers.take(n));
        lemma_first_fiber_prefix(fibers, id, n + 1);
    } else {
        assert(fibers.take(n) =~= fibers);
    }
}

/// Fiber lists with the same identities in the same places find the same
/// first fiber.
proof fn lemma_first_fiber_same_ids(a: Seq<Fiber>, b: Seq<Fiber>, id: FiberId)
    requires
        a.len() == b.len(),
        forall|k: int| 0 <= k < a.len() ==> #[trigger] a[k].id == b[k].id,
    ensures
        first_fiber(a, id) == first_fiber(b, id),
    decreases a.len(),
{
    if a.len() > 0 {
        assert forall|k: int| 0 <= k < a.len() - 1 implies #[trigger] a.drop_last()[k].id == b.drop_last()[k].id by {
            assert(a.drop_last()[k] == a[k] && b.drop_last()[k] == b[k]);
        }
        lemma_first_fiber_same_ids(a.drop_last(), b.drop_last(), id);
    }
}

/// `b` is `a` but for the effects its activation holds.
pub open spec fn same_but_accumulator(a: Fiber, b: Fiber) -> bool {
    &&& a.id == b.id
    &&& a.parent == b.parent
    &&& a.path == b.path
    &&& a.spec == b.spec
    &&& a.retired == b.retired
    &&& a.pinned == b.pinned
    &&& a.state == b.state
    &&& a.committed == b.committed
    &&& a.instance == b.instance
    &&& a.activation_steps == b.activation_steps
    &&& a.outcome == b.outcome
    &&& a.patch_authorization == b.patch_authorization
    &&& a.staged_response == b.staged_response
    &&& a.staged_usage == b.staged_usage
    &&& a.inbound_response == b.inbound_response
    &&& a.workspace_buffers == b.workspace_buffers
    &&& a.workspace_authorization == b.workspace_authorization
    &&& a.promotion_authorization == b.promotion_authorization
}

/// `after` is `before` with `inverse` appended to the effects of fiber `i`.
pub open spec fn accumulated(before: Seq<Fiber>, after: Seq<Fiber>, i: int, inverse: Inverse) -> bool {
    &&& after.len() == before.len()
    &&& 0 <= i < before.len()
    &&& forall|j: int| 0 <= j < before.len() && j != i ==> #[trigger] after[j] == before[j]
    &&& same_but_accumulator(before[i], after[i])
    &&& after[i].accumulator@ == before[i].accumulator@.push(inverse)
}

/// `after` is `before` with one more event, this one.
pub open spec fn traced(before: Seq<TraceEvent>, after: Seq<TraceEvent>, event: TraceEvent) -> bool {
    after == before.push(event)
}

/// The trace event of an applied effect of this kind.
pub open spec fn is_effect_applied(event: TraceEvent, fiber: FiberId, effect: u64, kind: Seq<char>) -> bool {
    event matches TraceEvent::EffectApplied { fiber: f, effect: e, kind: k } && f == fiber && e == effect && k@ == kind
}

/// The trace event of a recovered effect of this kind.
pub open spec fn is_effect_recovered(event: TraceEvent, fiber: FiberId, effect: u64, kind: Seq<char>) -> bool {
    event matches TraceEvent::EffectRecovered { fiber: f, effect: e, kind: k } && f == fiber && e == effect && k@ == kind
}

/// The parts of the core that no host call of an activation touches.
pub open spec fn quiet_parts_unchanged(a: Core, b: Core) -> bool {
    &&& a.limits == b.limits
    &&& a.specs == b.specs
    &&& a.composition_revision == b.composition_revision
    &&& a.roots == b.roots
    &&& a.patch_owners == b.patch_owners
    &&& a.pending_patches == b.pending_patches
    &&& a.pending_events == b.pending_events
    &&& a.blocked_recovery == b.blocked_recovery
    &&& a.invoking == b.invoking
    &&& a.next_event_id == b.next_event_id
    &&& a.journal_owner == b.journal_owner
    &&& a.event_stream == b.event_stream
    &&& a.exchange == b.exchange
    &&& a.exchange_adapters == b.exchange_adapters
    &&& a.replaying == b.replaying
}

/// An activation's effect took hold: fiber `i` holds one more inverse, for
/// the next effect, the effect counter moved on, and the trace records the
/// effect as `kind`.
pub open spec fn effect_recorded(a: Core, b: Core, i: int, kind: Seq<char>) -> bool {
    &&& b.next_effect == a.next_effect + 1
    &&& b.fibers@.len() == a.fibers@.len()
    &&& 0 <= i < a.fibers@.len()
    &&& forall|j: int| 0 <= j < a.fibers@.len() && j != i ==> #[trigger] b.fibers@[j] == a.fibers@[j]
    &&& same_but_accumulator(a.fibers@[i], b.fibers@[i])
    &&& b.fibers@[i].accumulator@.len() == a.fibers@[i].accumulator@.len() + 1
    &&& b.fibers@[i].accumulator@.drop_last() == a.fibers@[i].accumulator@
    &&& b.fibers@[i].accumulator@.last().spec_effect() == a.next_effect
    &&& b.trace@.len() == a.trace@.len() + 1
    &&& b.trace@.drop_last() == a.trace@
    &&& is_effect_applied(b.trace@.last(), a.fibers@[i].id, a.next_effect, kind)
}

/// An activation's effect took hold with `inverse` as its undo.
pub open spec fn effect_taken(a: Core, b: Core, i: int, inverse: Inverse, kind: Seq<char>) -> bool {
    &&& effect_recorded(a, b, i, kind)
    &&& b.fibers@[i].accumulator@.last() == inverse
}

/// Where an effect took hold, only fiber `i`, the cells or bindings it
/// wrote, the counter and the trace changed.
pub open spec fn only_effect_parts(a: Core, b: Core) -> bool {
    &&& quiet_parts_unchanged(a, b)
    &&& b.registrations == a.registrations
    &&& b.next_fiber == a.next_fiber
    &&& b.next_registration == a.next_registration
}

/// The provider committed for `slot`: the last commitment of it.
pub open spec fn committed_for(committed: Seq<CommittedProvider>, slot: u64) -> Option<(FiberId, InterfaceIdView)>
    decreases committed.len(),
{
    if committed.len() == 0 {
        None
    } else if committed.last().slot == slot {
        Some((committed.last().fiber, committed.last().interface@))
    } else {
        committed_for(committed.drop_last(), slot)
    }
}

/// Returns the provider committed for `slot`.
pub fn find_committed(committed: &Vec<CommittedProvider>, slot: u64) -> (r: Option<usize>)
    ensures
        match r {
            Some(i) => i < committed@.len() && committed@[i as int].slot == slot
                && committed_for(committed@, slot) == Some((committed@[i as int].fiber, committed@[i as int].interface@)),
            None => committed_for(committed@, slot) is None,
        },
{
    let mut i: usize = committed.len();
    assert(committed@.take(i as int) =~= committed@);
    while i > 0
        invariant
            i <= committed@.len(),
            committed_for(committed@, slot) == committed_for(committed@.take(i as int), slot),
        decreases i,
    {
        assert(committed@.take(i as int).drop_last() =~= committed@.take(i - 1));
        assert(committed@.take(i as int).last() == committed@[i - 1]);
        if committed[i - 1].slot == slot {
            return Some(i - 1);
        }
        i = i - 1;
    }
    None
}

/// A fiber as `Fiber::new` makes it: inactive, unretired, holding nothing.
pub open spec fn is_fresh_fiber(f: Fiber, id: FiberId, parent: Option<FiberId>, spec: usize, prepared: PreparedSpec) -> bool {
    &&& f.id == id
    &&& f.parent == parent
    &&& f.spec == spec
    &&& !f.retired
    &&& !f.pinned
    &&& f.state == InternalState::Inactive
    &&& f.committed@.len() == 0
    &&& f.accumulator@.len() == 0
    &&& !f.instance
    &&& f.activation_steps == 0
    &&& f.outcome is None
    &&& f.staged_response is None
    &&& f.staged_usage is None
    &&& f.inbound_response is None
    &&& f.workspace_buffers@.len() == prepared.workspaces@.len()
    &&& forall|k: int| 0 <= k < prepared.workspaces@.len() ==> #[trigger] f.workspace_buffers@[k]@ == prepared.workspaces@[k].bytes@
    &&& f.workspace_authorization is None
    &&& f.patch_authorization is None
    &&& f.promotion_authorization is None
}

/// Some registration already holds `entry` under `parent`.
pub open spec fn entry_registered(registrations: Seq<Registration>, parent: FiberId, entry: Seq<char>) -> bool {
    exists|k: int| 0 <= k < registrations.len() && #[trigger] registrations[k].parent == parent && registrations[k].entry@ == entry
}

/// The position of the first registration with identity `id`.
pub open spec fn first_registration(registrations: Seq<Registration>, id: u64) -> Option<int>
    decreases registrations.len(),
{
    if registrations.len() == 0 {
        None
    } else {
        match first_registration(registrations.drop_last(), id) {
            Some(k) => Some(k),
            None => if registrations.last().id == id { Some(registrations.len() - 1) } else { None },
        }
    }
}

/// Where `first_registration` finds a registration, it has that identity.
proof fn lemma_first_registration(registrations: Seq<Registration>, id: u64)
    ensures
        first_registration(registrations, id) matches Some(k) ==> 0 <= k < registrations.len() && registrations[k].id == id,
    decreases registrations.len(),
{
    if registrations.len() > 0 {
        lemma_first_registration(registrations.drop_last(), id);
    }
}

/// The first registration of a prefix is the first of the whole list.
proof fn lemma_first_registration_prefix(registrations: Seq<Registration>, id: u64, n: int)
    requires
        0 <= n <= registrations.len(),
        first_registration(registrations.take(n), id) is Some,
    ensures
        first_registration(registrations, id) == first_registration(registrations.take(n), id),
    decreases registrations.len() - n,
{
    if n < registrations.len() {
        assert(registrations.take(n + 1).drop_last() =~= registrations.take(n));
        lemma_first_registration_prefix(registrations, id, n + 1);
    } else {
        assert(registrations.take(n) =~= registrations);
    }
}

/// The roots that do not name fiber `id`, in order.
pub open spec fn roots_without(roots: Seq<Root>, id: FiberId) -> Seq<Root>
    decreases roots.len(),
{
    if roots.len() == 0 {
        roots
    } else if roots.last().fiber == id {
        roots_without(roots.drop_last(), id)
    } else {
        roots_without(roots.drop_last(), id).push(roots.last())
    }
}

/// Dropping the roots of a fiber keeps the others, so their entries stay
/// distinct.
proof fn lemma_roots_without_distinct(roots: Seq<Root>, id: FiberId)
    requires
        roots_distinct(roots),
    ensures
        roots_distinct(roots_without(roots, id)),
        forall|j: int| 0 <= j < roots_without(roots, id).len()
            ==> exists|m: int| 0 <= m < roots.len() && #[trigger] roots_without(roots, id)[j] == roots[m],
    decreases roots.len(),
{
    if roots.len() > 0 {
        let d = roots.drop_last();
        assert forall|a: int, b: int| 0 <= a < b < d.len() implies (#[trigger] d[a]).entry@ != (#[trigger] d[b]).entry@ by {
            assert(d[a] == roots[a] && d[b] == roots[b]);
        }
        lemma_roots_without_distinct(d, id);
        let rest = roots_without(d, id);
        assert forall|j: int| 0 <= j < rest.len() implies exists|m: int| 0 <= m < roots.len() && #[trigger] rest[j] == roots[m] by {
            let m = choose|m: int| 0 <= m < d.len() && rest[j] == d[m];
            assert(rest[j] == roots[m]);
        }
        if roots.last().fiber != id {
            let out = rest.push(roots.last());
            assert forall|a: int, b: int| 0 <= a < b < out.len() implies (#[trigger] out[a]).entry@ != (#[trigger] out[b]).entry@ by {
                if b == rest.len() {
                    let m = choose|m: int| 0 <= m < d.len() && rest[a] == d[m];
                    assert(out[a] == roots[m]);
                    assert(out[b] == roots[roots.len() - 1]);
                } else {
                    assert(out[a] == rest[a] && out[b] == rest[b]);
                }
            }
            assert forall|j: int| 0 <= j < out.len() implies exists|m: int| 0 <= m < roots.len() && #[trigger] out[j] == roots[m] by {
                if j == rest.len() {
                    assert(out[j] == roots[roots.len() - 1]);
                } else {
                    assert(out[j] == rest[j]);
                }
            }
        }
    }
}

/// The registrations whose child is not fiber `id`, in order.
pub open spec fn registrations_without(registrations: Seq<Registration>, id: FiberId) -> Seq<Registration>
    decreases registrations.len(),
{
    if registrations.len() == 0 {
        registrations
    } else if registrations.last().child == id {
        registrations_without(registrations.drop_last(), id)
    } else {
        registrations_without(registrations.drop_last(), id).push(registrations.last())
    }
}

/// Fiber `f`, about to be removed as fiber `id` of core `c`, still holds an
/// effect or work in flight.
pub open spec fn retains_effects(c: Core, f: Fiber, id: FiberId) -> bool {
    ||| f.accumulator@.len() > 0
    ||| f.instance
    ||| c.invoking@.contains(id)
    ||| exists|k: int| 0 <= k < c.state_cells@.len() && #[trigger] c.state_cells@[k].fiber == id
    ||| exists|k: int| 0 <= k < c.bindings@.len() && #[trigger] c.bindings@[k].fiber == id
    ||| exists|k: int| 0 <= k < c.patch_owners@.len() && #[trigger] c.patch_owners@[k].fiber == id
    ||| exists|k: int| 0 <= k < c.pending_patches@.len() && #[trigger] c.pending_patches@[k].actor == id
    ||| exists|k: int| 0 <= k < c.pending_events@.len() && #[trigger] c.pending_events@[k].actor == id
    ||| c.journal_owner == Some(id)
    ||| c.event_stream matches Some(e) && e.owner == id
    ||| c.exchange matches Some(x) && x.owner == id
    ||| f.staged_response is Some
    ||| f.staged_usage is Some
    ||| f.inbound_response is Some
    ||| f.workspace_authorization is Some
}

/// A composition patch a fiber asked to apply: which of its patches, on
/// which base revision.
#[derive(Clone, Copy, Debug, PartialEq, Eq, Structural)]
pub struct PendingPatch {
    pub actor: FiberId,
    pub index: usize,
    pub base_revision: u64,
}

/// An event a fiber appended, waiting to be committed: the grant it was
/// appended under, its value and its payload.
#[derive(Debug, PartialEq, Eq)]
pub struct PendingEvent {
    pub actor: FiberId,
    pub index: usize,
    pub value: u64,
    pub payload: Option<DurablePayload>,
}

/// An event queued for the event stream: its identity, the path of the
/// fiber that appended it, its type, value and payload.
#[derive(Debug, PartialEq, Eq)]
pub struct EventFact {
    pub id: u64,
    pub actor_path: String,
    pub event: EventGrant,
    pub value: u64,
    pub payload: Option<DurablePayload>,
}

/// Returns whether some pending event is fiber `id`'s.
fn has_pending_event_of(pending: &Vec<PendingEvent>, id: FiberId) -> (r: bool)
    ensures
        r == exists|k: int| 0 <= k < pending@.len() && #[trigger] pending@[k].actor == id,
{
    let mut k: usize = 0;
    while k < pending.len()
        invariant
            k <= pending@.len(),
            forall|j: int| 0 <= j < k ==> #[trigger] pending@[j].actor != id,
        decreases pending@.len() - k,
    {
        if pending[k].actor == id {
            return true;
        }
        k = k + 1;
    }
    false
}

/// Returns whether some pending patch is fiber `id`'s.
fn has_pending_patch_of(pending: &Vec<PendingPatch>, id: FiberId) -> (r: bool)
    ensures
        r == exists|k: int| 0 <= k < pending@.len() && #[trigger] pending@[k].actor == id,
{
    let mut i: usize = 0;
    while i < pending.len()
        invariant
            i <= pending@.len(),
            forall|j: int| 0 <= j < i ==> #[trigger] pending@[j].actor != id,
        decreases pending@.len() - i,
    {
        if pending[i].actor == id {
            return true;
        }
        i = i + 1;
    }
    false
}

/// The trace of `a` with one more recovered effect of this kind.
pub open spec fn recovery_traced(a: Seq<TraceEvent>, b: Seq<TraceEvent>, fiber: FiberId, effect: u64, kind: Seq<char>) -> bool {
    &&& b.len() == a.len() + 1
    &&& b.drop_last() == a
    &&& is_effect_recovered(b.last(), fiber, effect, kind)
}

/// Returns whether some cell belongs to fiber `id`.
fn has_cell_of(cells: &Vec<StateCell>, id: FiberId) -> (r: bool)
    ensures
        r == exists|k: int| 0 <= k < cells@.len() && #[trigger] cells@[k].fiber == id,
{
    let mut i: usize = 0;
    while i < cells.len()
        invariant
            i <= cells@.len(),
            forall|j: int| 0 <= j < i ==> #[trigger] cells@[j].fiber != id,
        decreases cells@.len() - i,
    {
        if cells[i].fiber == id {
            return true;
        }
        i = i + 1;
    }
    false
}

/// Returns whether some binding belongs to fiber `id`.
fn has_binding_of(bindings: &Vec<ProviderBinding>, id: FiberId) -> (r: bool)
    ensures
        r == exists|k: int| 0 <= k < bindings@.len() && #[trigger] bindings@[k].fiber == id,
{
    let mut i: usize = 0;
    while i < bindings.len()
        invariant
            i <= bindings@.len(),
            forall|j: int| 0 <= j < i ==> #[trigger] bindings@[j].fiber != id,
        decreases bindings@.len() - i,
    {
        if bindings[i].fiber == id {
            return true;
        }
        i = i + 1;
    }
    false
}

/// Returns whether some patch target is owned by fiber `id`.
fn has_patch_of(owners: &Vec<PatchOwner>, id: FiberId) -> (r: bool)
    ensures
        r == exists|k: int| 0 <= k < owners@.len() && #[trigger] owners@[k].fiber == id,
{
    let mut i: usize = 0;
    while i < owners.len()
        invariant
            i <= owners@.len(),
            forall|j: int| 0 <= j < i ==> #[trigger] owners@[j].fiber != id,
        decreases owners@.len() - i,
    {
        if owners[i].fiber == id {
            return true;
        }
        i = i + 1;
    }
    false
}

/// Returns the roots that do not name fiber `id`.
fn roots_retained(roots: &Vec<Root>, id: FiberId) -> (r: Vec<Root>)
    ensures
        r@ == roots_without(roots@, id),
{
    let mut out: Vec<Root> = Vec::new();
    let mut i: usize = 0;
    while i < roots.len()
        invariant
            i <= roots@.len(),
            out@ == roots_without(roots@.take(i as int), id),
        decreases roots@.len() - i,
    {
        assert(roots@.take(i + 1).drop_last() =~= roots@.take(i as int));
        assert(roots@.take(i + 1).last() == roots@[i as int]);
        if roots[i].fiber != id {
            out.push(Root { entry: roots[i].entry.clone(), fiber: roots[i].fiber });
        }
        i = i + 1;
    }
    assert(roots@.take(roots@.len() as int) =~= roots@);
    out
}

/// Returns the registrations whose child is not fiber `id`.
fn registrations_retained(registrations: &Vec<Registration>, id: FiberId) -> (r: Vec<Registration>)
    ensures
        r@ == registrations_without(registrations@, id),
{
    let mut out: Vec<Registration> = Vec::new();
    let mut i: usize = 0;
    while i < registrations.len()
        invariant
            i <= registrations@.len(),
            out@ == registrations_without(registrations@.take(i as int), id),
        decreases registrations@.len() - i,
    {
        assert(registrations@.take(i + 1).drop_last() =~= registrations@.take(i as int));
        assert(registrations@.take(i + 1).last() == registrations@[i as int]);
        let g = &registrations[i];
        if g.child != id {
            out.push(Registration { id: g.id, parent: g.parent, child: g.child, entry: g.entry.clone() });
        }
        i = i + 1;
    }
    assert(registrations@.take(registrations@.len() as int) =~= registrations@);
    out
}

/// Returns whether `id` occurs in a list of fibers.
fn holds_id(ids: &Vec<FiberId>, id: FiberId) -> (r: bool)
    ensures
        r == ids@.contains(id),
{
    let mut i: usize = 0;
    while i < ids.len()
        invariant
            i <= ids@.len(),
            forall|j: int| 0 <= j < i ==> ids@[j] != id,
        decreases ids@.len() - i,
    {
        if ids[i] == id {
            assert(ids@[i as int] == id);
            return true;
        }
        i = i + 1;
    }
    false
}

/// The bytes of a path before its first `/`: its root entry.
pub open spec fn root_segment(path: Seq<u8>) -> Seq<u8>
    decreases path.len(),
{
    if path.len() == 0 {
        path
    } else if path[0] == 47u8 {
        Seq::empty()
    } else {
        seq![path[0]] + root_segment(path.drop_first())
    }
}

/// The position of the first root whose entry is `segment`.
pub open spec fn first_root(roots: Seq<Root>, segment: Seq<u8>) -> Option<int> {
    if exists|k: int| 0 <= k < roots.len() && encode_utf8(#[trigger] roots[k].entry@) == segment {
        Some(choose|k: int| 0 <= k < roots.len() && encode_utf8(#[trigger] roots[k].entry@) == segment
            && forall|j: int| 0 <= j < k ==> encode_utf8(#[trigger] roots[j].entry@) != segment)
    } else {
        None
    }
}

/// The position of the first registration of `old` under `parent`.
pub open spec fn first_child_registration(registrations: Seq<Registration>, parent: FiberId, old: FiberId) -> Option<int> {
    if exists|k: int| 0 <= k < registrations.len() && #[trigger] registrations[k].parent == parent && registrations[k].child == old {
        Some(choose|k: int| 0 <= k < registrations.len() && #[trigger] registrations[k].parent == parent && registrations[k].child == old
            && forall|j: int| 0 <= j < k ==> !(#[trigger] registrations[j].parent == parent && registrations[j].child == old))
    } else {
        None
    }
}

/// Returns whether the UTF-8 bytes of `entry` are `segment`.
fn entry_is(entry: &String, segment: &[u8]) -> (r: bool)
    ensures
        r == (encode_utf8(entry@) == segment@),
{
    bytes_equal(entry.as_str().as_bytes(), segment)
}

/// Returns the length of the root entry of a path.
fn root_len(path: &[u8]) -> (r: usize)
    ensures
        r <= path@.len(),
        path@.take(r as int) == root_segment(path@),
{
    let mut k: usize = 0;
    while k < path.len() && path[k] != 47u8
        invariant
            k <= path@.len(),
            forall|j: int| 0 <= j < k ==> path@[j] != 47u8,
        decreases path@.len() - k,
    {
        k = k + 1;
    }
    proof {
        lemma_root_segment(path@, k as int);
    }
    k
}

/// The root entry is the part before the first `/`.
proof fn lemma_root_segment(path: Seq<u8>, k: int)
    requires
        0 <= k <= path.len(),
        forall|j: int| 0 <= j < k ==> path[j] != 47u8,
        k == path.len() || path[k] == 47u8,
    ensures
        path.take(k) == root_segment(path),
    decreases k,
{
    if k == 0 {
        assert(path.take(0) =~= Seq::<u8>::empty());
        if path.len() > 0 {
            assert(path[0] == 47u8);
        }
    } else {
        let rest = path.drop_first();
        assert forall|j: int| 0 <= j < k - 1 implies rest[j] != 47u8 by {
            assert(rest[j] == path[j + 1]);
        }
        if k < path.len() {
            assert(rest[k - 1] == path[k]);
        }
        lemma_root_segment(rest, k - 1);
        assert(path.take(k) =~= seq![path[0]] + rest.take(k - 1));
    }
}

/// Fiber `j` of `fibers` is active.
pub open spec fn is_active(fibers: Seq<Fiber>, id: FiberId) -> bool {
    first_fiber(fibers, id) matches Some(j) && fibers[j].state == InternalState::Active
}

/// Entry `j` of the bindings is the one in force for its interface.
pub open spec fn is_live(bindings: Seq<ProviderBinding>, j: int) -> bool {
    &&& 0 <= j < bindings.len()
    &&& forall|k: int| j < k < bindings.len() ==> #[trigger] bindings[k].interface@ != bindings[j].interface@
}

/// Binding entry `j` can serve the injected binding `required`: it is in
/// force, it is accepted, and its provider is active where that is asked.
pub open spec fn can_serve(c: Core, required: crate::manifest::RequiredBinding, require_active: bool, j: int) -> bool {
    let b = c.bindings@[j];
    &&& is_live(c.bindings@, j)
    &&& required.kind == b.interface.kind
    &&& required.namespace@ == b.interface.namespace@
    &&& required.interface@ == b.interface.interface@
    &&& required.min_revision <= b.interface.revision <= required.max_revision
    &&& (!require_active || is_active(c.fibers@, b.fiber))
}

/// Binding entry `j` serves `required`: it can, and no entry that can has a
/// lower revision, as the lowest such interface comes first in the
/// interfaces' order.
pub open spec fn serves(c: Core, required: crate::manifest::RequiredBinding, require_active: bool, j: int) -> bool {
    &&& can_serve(c, required, require_active, j)
    &&& forall|k: int| 0 <= k < c.bindings@.len() && #[trigger] can_serve(c, required, require_active, k)
        ==> c.bindings@[j].interface.revision <= c.bindings@[k].interface.revision
}

/// `p` names, for `required`, the provider of a binding entry that serves it.
pub open spec fn provides_for(c: Core, required: crate::manifest::RequiredBinding, require_active: bool, p: CommittedProvider) -> bool {
    &&& p.slot == required.slot
    &&& exists|j: int| serves(c, required, require_active, j) && p.fiber == c.bindings@[j].fiber && p.interface == c.bindings@[j].interface
}

/// No binding entry can serve `required`.
pub open spec fn unserved(c: Core, required: crate::manifest::RequiredBinding, require_active: bool) -> bool {
    forall|j: int| 0 <= j < c.bindings@.len() ==> !#[trigger] can_serve(c, required, require_active, j)
}

/// An entry in force determines what is bound to its interface.
pub proof fn lemma_live_bound(bindings: Seq<ProviderBinding>, j: int)
    requires
        is_live(bindings, j),
    ensures
        bound_to(bindings, bindings[j].interface@) == Some(Bound { fiber: bindings[j].fiber, kind: bindings[j].kind, value: bindings[j].value }),
    decreases bindings.len(),
{
    if j < bindings.len() - 1 {
        let s = bindings.drop_last();
        assert forall|k: int| j < k < s.len() implies #[trigger] s[k].interface@ != s[j].interface@ by {
            assert(s[k] == bindings[k]);
        }
        lemma_live_bound(s, j);
    }
}

/// The bytes `b` resized to `n`: cut short, or padded with zeros.
pub open spec fn resized(b: Seq<u8>, n: nat) -> Seq<u8> {
    if n <= b.len() { b.take(n as int) } else { b + Seq::new((n - b.len()) as nat, |k: int| 0u8) }
}

/// `b` is `a` with workspace buffer `index` holding `bytes` and no
/// workspace or promotion authorization.
pub open spec fn buffer_written(a: Fiber, b: Fiber, index: int, bytes: Seq<u8>) -> bool {
    &&& a.id == b.id
    &&& a.parent == b.parent
    &&& a.path == b.path
    &&& a.spec == b.spec
    &&& a.retired == b.retired
    &&& a.pinned == b.pinned
    &&& a.state == b.state
    &&& a.committed == b.committed
    &&& a.accumulator == b.accumulator
    &&& a.instance == b.instance
    &&& a.activation_steps == b.activation_steps
    &&& a.outcome == b.outcome
    &&& a.patch_authorization == b.patch_authorization
    &&& a.staged_response == b.staged_response
    &&& a.staged_usage == b.staged_usage
    &&& a.inbound_response == b.inbound_response
    &&& b.workspace_buffers@.len() == a.workspace_buffers@.len()
    &&& 0 <= index < a.workspace_buffers@.len()
    &&& forall|k: int| 0 <= k < a.workspace_buffers@.len() && k != index ==> #[trigger] b.workspace_buffers@[k] == a.workspace_buffers@[k]
    &&& b.workspace_buffers@[index]@ == bytes
    &&& b.workspace_authorization is None
    &&& b.promotion_authorization is None
}

/// A copy of a workspace grant.
pub fn copy_grant(g: &WorkspaceGrant) -> (r: WorkspaceGrant)
    ensures
        r == *g,
{
    WorkspaceGrant {
        source_path: g.source_path.clone(),
        ledger_path: g.ledger_path.clone(),
        operation: g.operation,
        provenance: g.provenance.clone(),
        before_sha256: g.before_sha256.clone(),
        result_sha256: g.result_sha256.clone(),
        max_bytes: g.max_bytes,
    }
}

/// What publishing a workspace hands the ledger: the grant, the bytes the
/// workspace held and the bytes to publish.
#[derive(Debug, PartialEq, Eq)]
pub struct Publication {
    pub grant: WorkspaceGrant,
    pub before_bytes: Vec<u8>,
    pub result_bytes: Vec<u8>,
}

/// What promoting a workspace hands the ledger, with the approver and the
/// position of the workspace's inverse in the fiber's effects, and whether
/// that inverse already checks a promotion.
#[derive(Debug, PartialEq, Eq)]
pub struct Promotion {
    pub grant: WorkspaceGrant,
    pub before_bytes: Vec<u8>,
    pub result_bytes: Vec<u8>,
    pub approver: String,
    pub inverse_index: usize,
    pub is_promoted: bool,
}

/// Whether some committed provider of a fiber is `provider`.
pub open spec fn commits_to(committed: Seq<CommittedProvider>, provider: FiberId) -> bool {
    exists|k: int| 0 <= k < committed.len() && #[trigger] committed[k].fiber == provider
}

/// The position of the last inverse of a workspace publication under
/// `grant`, and whether it checks a promotion.
pub open spec fn last_workspace_inverse(accumulator: Seq<Inverse>, grant: WorkspaceGrant) -> Option<(int, bool)>
    decreases accumulator.len(),
{
    if accumulator.len() == 0 {
        None
    } else {
        match accumulator.last() {
            Inverse::RestoreWorkspace { grant: g, .. } if same_grant_spec(g, grant) => Some((accumulator.len() - 1, false)),
            Inverse::VerifyPromotedWorkspace { grant: g, .. } if same_grant_spec(g, grant) => Some((accumulator.len() - 1, true)),
            _ => last_workspace_inverse(accumulator.drop_last(), grant),
        }
    }
}

/// Two workspace grants name the same paths, operation, provenance,
/// digests and bound.
pub open spec fn same_grant_spec(a: WorkspaceGrant, b: WorkspaceGrant) -> bool {
    &&& a.source_path@ == b.source_path@
    &&& a.ledger_path@ == b.ledger_path@
    &&& a.operation == b.operation
    &&& a.provenance@ == b.provenance@
    &&& a.before_sha256@ == b.before_sha256@
    &&& a.result_sha256@ == b.result_sha256@
    &&& a.max_bytes == b.max_bytes
}

/// Returns whether two workspace grants are the same.
pub fn same_grant(a: &WorkspaceGrant, b: &WorkspaceGrant) -> (r: bool)
    ensures
        r == same_grant_spec(*a, *b),
{
    a.source_path == b.source_path && a.ledger_path == b.ledger_path && a.operation == b.operation
        && a.provenance == b.provenance && a.before_sha256 == b.before_sha256
        && a.result_sha256 == b.result_sha256 && a.max_bytes == b.max_bytes
}

/// Returns whether some committed provider is `provider`.
fn has_commitment(committed: &Vec<CommittedProvider>, provider: FiberId) -> (r: bool)
    ensures
        r == commits_to(committed@, provider),
{
    let mut k: usize = 0;
    while k < committed.len()
        invariant
            k <= committed@.len(),
            forall|j: int| 0 <= j < k ==> #[trigger] committed@[j].fiber != provider,
        decreases committed@.len() - k,
    {
        if committed[k].fiber == provider {
            return true;
        }
        k = k + 1;
    }
    false
}

/// Returns the last inverse of a workspace publication under `grant`.
fn find_workspace_inverse(accumulator: &Vec<Inverse>, grant: &WorkspaceGrant) -> (r: Option<(usize, bool)>)
    ensures
        match r {
            Some((k, promoted)) => last_workspace_inverse(accumulator@, *grant) == Some((k as int, promoted)),
            None => last_workspace_inverse(accumulator@, *grant) is None,
        },
{
    let mut k: usize = accumulator.len();
    assert(accumulator@.take(k as int) =~= accumulator@);
    while k > 0
        invariant
            k <= accumulator@.len(),
            last_workspace_inverse(accumulator@, *grant) == last_workspace_inverse(accumulator@.take(k as int), *grant),
        decreases k,
    {
        assert(accumulator@.take(k as int).drop_last() =~= accumulator@.take(k - 1));
        assert(accumulator@.take(k as int).last() == accumulator@[k - 1]);
        match &accumulator[k - 1] {
            Inverse::RestoreWorkspace { grant: g, .. } => if same_grant(g, grant) {
                return Some((k - 1, false));
            },
            Inverse::VerifyPromotedWorkspace { grant: g, .. } => if same_grant(g, grant) {
                return Some((k - 1, true));
            },
            _ => {},
        }
        k = k - 1;
    }
    None
}

/// A call a fiber started through its committed callable provider.
#[derive(Debug, PartialEq, Eq)]
pub struct Invocation {
    pub provider: FiberId,
    pub interface: InterfaceId,
}

/// The identities of `ids` but `id`, in order.
pub open spec fn ids_without(ids: Seq<FiberId>, id: FiberId) -> Seq<FiberId>
    decreases ids.len(),
{
    if ids.len() == 0 {
        ids
    } else if ids.last() == id {
        ids_without(ids.drop_last(), id)
    } else {
        ids_without(ids.drop_last(), id).push(ids.last())
    }
}

/// Returns the identities of `ids` but `id`.
fn ids_retained(ids: &Vec<FiberId>, id: FiberId) -> (r: Vec<FiberId>)
    ensures
        r@ == ids_without(ids@, id),
{
    let mut out: Vec<FiberId> = Vec::new();
    let mut i: usize = 0;
    while i < ids.len()
        invariant
            i <= ids@.len(),
            out@ == ids_without(ids@.take(i as int), id),
        decreases ids@.len() - i,
    {
        assert(ids@.take(i + 1).drop_last() =~= ids@.take(i as int));
        assert(ids@.take(i + 1).last() == ids@[i as int]);
        if ids[i] != id {
            out.push(ids[i]);
        }
        i = i + 1;
    }
    assert(ids@.take(ids@.len() as int) =~= ids@);
    out
}

/// Interface `i` is revision 1 of the authority `name` in `namespace`.
pub open spec fn is_authority(i: InterfaceIdView, namespace: Seq<char>, name: Seq<char>) -> bool {
    i.namespace == namespace && i.interface == name && i.revision == 1
}

/// Returns whether an interface is revision 1 of the authority `name` in
/// `namespace`.
fn authority_is(i: &InterfaceId, namespace: &str, name: &str) -> (r: bool)
    ensures
        r == is_authority(i@, namespace@, name@),
{
    same_str(i.namespace.as_str(), namespace) && same_str(i.interface.as_str(), name) && i.revision == 1
}

/// What a provider staged for its caller when a call returned `result`: a
/// response whose usage is the result, nothing, or a mismatch.
pub open spec fn staged_outcome(staged_response: Option<DurablePayload>, staged_usage: Option<u64>, result: i64) -> Option<Result<DurablePayload, ()>> {
    match (staged_response, staged_usage) {
        (Some(p), Some(u)) => if result >= 0 && u == result as u64 { Some(Ok(p)) } else { Some(Err(())) },
        (None, None) => None,
        _ => Some(Err(())),
    }
}

/// The approver a promotion authority names: its module, version and
/// artifact digest, as `module@version#digest`.
pub open spec fn approver_of(spec: PreparedSpec) -> Seq<char> {
    spec.manifest.module@ + "@"@ + spec.manifest.version@ + "#"@ + spec.artifact_digest@
}

/// One committed event of the stream: its value and durable payload.
#[derive(Debug, PartialEq, Eq)]
pub struct EventRecord {
    pub value: u64,
    pub payload: Option<DurablePayload>,
}

/// The event stream a fiber opened: its owner and its committed records.
#[derive(Debug, PartialEq, Eq)]
pub struct EventStreamRegistration {
    pub owner: FiberId,
    pub records: Vec<EventRecord>,
}

/// Returns whether the event stream is open and owned by `id`.
fn stream_owned_by(stream: &Option<EventStreamRegistration>, id: FiberId) -> (r: bool)
    ensures
        r == (stream matches Some(e) && e.owner == id),
{
    match stream {
        Some(e) => e.owner == id,
        None => false,
    }
}

/// Fiber `i` of core `c` may read the event stream with `capability`: it
/// is activating, or active within a call, it requested the capability, and
/// it committed to the stream's owner.
pub open spec fn may_read_events(c: Core, i: int, capability: HostCapability) -> bool {
    let f = c.fibers@[i];
    &&& f.state == InternalState::Activating || (f.state == InternalState::Active && c.invoking@.contains(f.id))
    &&& c.manifest_of(i).spec_requests(capability)
    &&& c.event_stream matches Some(e) && commits_to(f.committed@, e.owner)
}

/// Where fiber `fiber` reading event `index` with `capability` is refused,
/// the negated status, else the event's position.
pub open spec fn event_for_read(c: Core, fiber: FiberId, index: u64, capability: HostCapability) -> Result<int, i64> {
    match first_fiber(c.fibers@, fiber) {
        None => Err((-(STATUS_INVALID as i64)) as i64),
        Some(i) => if c.event_stream is None {
            Err((-(STATUS_UNSATISFIED as i64)) as i64)
        } else if !may_read_events(c, i, capability) {
            Err((-(STATUS_UNDECLARED as i64)) as i64)
        } else if index > usize::MAX || index >= c.event_stream->0.records@.len() {
            Err((-(STATUS_INVALID as i64)) as i64)
        } else {
            Ok(index as int)
        },
    }
}

/// Some patch target is owned where it overlaps `target`.
pub open spec fn target_owned(owners: Seq<PatchOwner>, target: Seq<u8>) -> bool {
    exists|k: int| 0 <= k < owners.len() && spec_paths_overlap(encode_utf8(#[trigger] owners[k].target@), target)
}

/// Some provider fiber `f` committed to sits at `target` or below it.
pub open spec fn provider_under(c: Core, f: Fiber, target: Seq<u8>) -> bool {
    exists|k: int| 0 <= k < f.committed@.len() && (first_fiber(c.fibers@, #[trigger] f.committed@[k].fiber) matches Some(j)
        && same_or_ancestor(target, encode_utf8(c.fibers@[j].path@)))
}

/// The exchange ledger a fiber opened, under its grant.
#[derive(Debug, PartialEq, Eq)]
pub struct ExchangeRegistration {
    pub owner: FiberId,
    pub grant: ExchangeGrant,
}

/// Returns whether the exchange ledger is open and owned by `id`.
fn exchange_owned_by(exchange: &Option<ExchangeRegistration>, id: FiberId) -> (r: bool)
    ensures
        r == (exchange matches Some(x) && x.owner == id),
{
    match exchange {
        Some(x) => x.owner == id,
        None => false,
    }
}

/// What an exchange call sends: the request, its digest, and the grant it
/// is bounded by.
#[derive(Debug, PartialEq, Eq)]
pub struct ExchangeCall {
    pub request: Vec<u8>,
    pub request_sha256: Vec<u8>,
    pub grant: ExchangeGrant,
}

/// Some adapter the host offers has this identity.
pub open spec fn offers_adapter(adapters: Seq<String>, adapter: Seq<char>) -> bool {
    exists|k: int| 0 <= k < adapters.len() && #[trigger] adapters[k]@ == adapter
}

/// Returns whether the host offers the adapter `adapter`.
fn has_adapter(adapters: &Vec<String>, adapter: &String) -> (r: bool)
    ensures
        r == offers_adapter(adapters@, adapter@),
{
    let mut k: usize = 0;
    while k < adapters.len()
        invariant
            k <= adapters@.len(),
            forall|j: int| 0 <= j < k ==> #[trigger] adapters@[j]@ != adapter@,
        decreases adapters@.len() - k,
    {
        if adapters[k] == *adapter {
            return true;
        }
        k = k + 1;
    }
    false
}

impl Core {
    /// Every prepared specification a fiber or a specification names is in
    /// the table, and each fiber holds one buffer per granted workspace.
    pub open spec fn well_formed(&self) -> bool {
        &&& forall|i: int| 0 <= i < self.fibers@.len() ==> #[trigger] self.fibers@[i].spec < self.specs@.len()
            && self.fibers@[i].workspace_buffers@.len() == self.specs@[self.fibers@[i].spec as int].workspaces@.len()
        &&& forall|i: int, j: int| 0 <= i < self.specs@.len() && 0 <= j < self.specs@[i].children@.len()
            ==> #[trigger] self.specs@[i].children@[j] < self.specs@.len()
        &&& ids_ascending(self.fibers@, self.next_fiber)
        &&& owners_distinct(self.patch_owners@)
        &&& roots_distinct(self.roots@)
    }

    /// The manifest of fiber `i`.
    pub open spec fn manifest_of(&self, i: int) -> Manifest {
        self.specs@[self.fibers@[i].spec as int].manifest
    }

    /// An empty core under `limits`: no fibers, effects or bindings, and
    /// every counter at one but the composition revision at zero.
    pub fn new(limits: Limits) -> (r: Core)
        ensures
            r.well_formed(),
            r.limits == limits,
            r.next_fiber == 1,
            r.next_effect == 1,
            r.next_registration == 1,
            r.composition_revision == 0,
            r.specs@.len() == 0,
            r.fibers@.len() == 0,
            r.roots@.len() == 0,
            r.registrations@.len() == 0,
            r.state_cells@.len() == 0,
            r.bindings@.len() == 0,
            r.patch_owners@.len() == 0,
            r.pending_patches@.len() == 0,
            r.pending_events@.len() == 0,
            r.event_failure is None,
            r.event_outbox@.len() == 0,
            r.blocked_recovery@.len() == 0,
            r.invoking@.len() == 0,
            r.next_event_id == 1,
            r.trace@.len() == 0,
            r.journal_owner is None,
            r.event_stream is None,
            r.exchange is None,
            r.exchange_adapters@.len() == 0,
            !r.replaying,
    {
        Core {
            limits,
            next_fiber: 1,
            next_effect: 1,
            next_registration: 1,
            composition_revision: 0,
            specs: Vec::new(),
            fibers: Vec::new(),
            roots: Vec::new(),
            registrations: Vec::new(),
            state_cells: Vec::new(),
            bindings: Vec::new(),
            patch_owners: Vec::new(),
            pending_patches: Vec::new(),
            pending_events: Vec::new(),
            event_outbox: Vec::new(),
            event_failure: None,
            blocked_recovery: Vec::new(),
            invoking: Vec::new(),
            next_event_id: 1,
            trace: Vec::new(),
            journal_owner: None,
            event_stream: None,
            exchange: None,
            exchange_adapters: Vec::new(),
            replaying: false,
        }
    }

    /// Hands out the next fiber identity.
    pub fn allocate_fiber(&mut self) -> (r: FiberId)
        requires
            old(self).next_fiber < u64::MAX,
        ensures
            r == FiberId(old(self).next_fiber),
            *final(self) == (Core { next_fiber: (old(self).next_fiber + 1) as u64, ..*old(self) }),
    {
        let id = FiberId(self.next_fiber);
        self.next_fiber = self.next_fiber + 1;
        id
    }

    /// Hands out the next effect identity.
    pub fn allocate_effect(&mut self) -> (r: u64)
        requires
            old(self).next_effect < u64::MAX,
        ensures
            r == old(self).next_effect,
            *final(self) == (Core { next_effect: (old(self).next_effect + 1) as u64, ..*old(self) }),
    {
        let id = self.next_effect;
        self.next_effect = self.next_effect + 1;
        id
    }

    /// Returns the position of the first fiber with identity `id`.
    pub fn find_fiber(&self, id: FiberId) -> (r: Option<usize>)
        ensures
            match r {
                Some(i) => first_fiber(self.fibers@, id) == Some(i as int),
                None => first_fiber(self.fibers@, id) is None,
            },
    {
        let mut i: usize = 0;
        while i < self.fibers.len()
            invariant
                i <= self.fibers@.len(),
                first_fiber(self.fibers@.take(i as int), id) is None,
            decreases self.fibers@.len() - i,
        {
            assert(self.fibers@.take(i + 1).drop_last() =~= self.fibers@.take(i as int));
            if self.fibers[i].id == id {
                proof {
                    lemma_first_fiber_prefix(self.fibers@, id, i + 1);
                }
                return Some(i);
            }
            i = i + 1;
        }
        assert(self.fibers@.take(self.fibers@.len() as int) =~= self.fibers@);
        None
    }

    /// Returns the identity of the first fiber at `path`.
    pub fn fiber_by_path(&self, path: &str) -> (r: Option<FiberId>)
        ensures
            match r {
                Some(id) => exists|i: int| 0 <= i < self.fibers@.len() && #[trigger] self.fibers@[i].id == id
                    && self.fibers@[i].path@ == path@
                    && forall|j: int| 0 <= j < i ==> #[trigger] self.fibers@[j].path@ != path@,
                None => forall|j: int| 0 <= j < self.fibers@.len() ==> #[trigger] self.fibers@[j].path@ != path@,
            },
    {
        let mut i: usize = 0;
        while i < self.fibers.len()
            invariant
                i <= self.fibers@.len(),
                forall|j: int| 0 <= j < i ==> #[trigger] self.fibers@[j].path@ != path@,
            decreases self.fibers@.len() - i,
        {
            if same_str(self.fibers[i].path.as_str(), path) {
                return Some(self.fibers[i].id);
            }
            i = i + 1;
        }
        None
    }

    /// Appends an inverse to the effects of fiber `i`.
    pub(crate) fn push_inverse(&mut self, i: usize, inverse: Inverse)
        requires
            i < old(self).fibers@.len(),
        ensures
            accumulated(old(self).fibers@, final(self).fibers@, i as int, inverse),
            *final(self) == (Core { fibers: final(self).fibers, ..*old(self) }),
    {
        let mut f = self.fibers.remove(i);
        f.accumulator.push(inverse);
        self.fibers.insert(i, f);
    }

    /// Marks a fiber retired; a missing fiber breaks the core's bookkeeping.
    pub fn retire_fiber(&mut self, fiber: FiberId) -> (r: Result<(), Error>)
        ensures
            match first_fiber(old(self).fibers@, fiber) {
                None => r == Err::<(), Error>(Error::Invariant(InvariantIssue::RetiredFiberMissing)) && *final(self) == *old(self),
                Some(i) => r is Ok && final(self).fibers@ == old(self).fibers@.update(i, Fiber { retired: true, ..old(self).fibers@[i] })
                    && *final(self) == (Core { fibers: final(self).fibers, ..*old(self) }),
            },
    {
        match self.find_fiber(fiber) {
            None => Err(Error::Invariant(InvariantIssue::RetiredFiberMissing)),
            Some(i) => {
                proof {
                    lemma_first_fiber(old(self).fibers@, fiber);
                }
                let mut f = self.fibers.remove(i);
                f.retired = true;
                self.fibers.insert(i, f);
                assert(self.fibers@ =~= old(self).fibers@.update(i as int, Fiber { retired: true, ..old(self).fibers@[i as int] }));
                Ok(())
            },
        }
    }

    /// The host's `set-state`: an activating fiber that requested it stores
    /// `value` under `key`, holding the restoration of the cell's previous
    /// value as the inverse.
    pub fn host_set_state(&mut self, fiber: FiberId, key: u64, value: u64) -> (r: i32)
        requires
            old(self).well_formed(),
            old(self).next_effect < u64::MAX,
        ensures
            final(self).well_formed(),
            match first_fiber(old(self).fibers@, fiber) {
                None => r == STATUS_INVALID && *final(self) == *old(self),
                Some(i) => if old(self).fibers@[i].state != InternalState::Activating {
                    r == STATUS_INVALID && *final(self) == *old(self)
                } else if !old(self).manifest_of(i).spec_requests(HostCapability::SetState) {
                    r == STATUS_UNDECLARED && *final(self) == *old(self)
                } else {
                    &&& r == STATUS_OK
                    &&& cells_written(old(self).state_cells@, final(self).state_cells@, fiber, key, Some(value))
                    &&& effect_taken(*old(self), *final(self), i,
                        Inverse::RestoreState { effect: old(self).next_effect, key, previous: cell_value(old(self).state_cells@, fiber, key) },
                        "state"@)
                    &&& only_effect_parts(*old(self), *final(self))
                    &&& final(self).bindings == old(self).bindings
                },
            },
    {
        let i = match self.find_fiber(fiber) {
            None => return STATUS_INVALID,
            Some(i) => i,
        };
        proof {
            lemma_first_fiber(old(self).fibers@, fiber);
        }
        if self.fibers[i].state != InternalState::Activating {
            return STATUS_INVALID;
        }
        if !self.specs[self.fibers[i].spec].manifest.requests(HostCapability::SetState) {
            return STATUS_UNDECLARED;
        }
        let previous = read_cell(&self.state_cells, fiber, key);
        self.state_cells = write_cell(&self.state_cells, fiber, key, Some(value));
        let effect = self.allocate_effect();
        self.push_inverse(i, Inverse::RestoreState { effect, key, previous });
        self.trace.push(TraceEvent::EffectApplied { fiber, effect, kind: "state".to_string() });
        assert(self.trace@.drop_last() =~= old(self).trace@);
        assert(self.fibers@[i as int].accumulator@.drop_last() =~= old(self).fibers@[i as int].accumulator@);
        STATUS_OK
    }

    /// Installs a binding for fiber `i` and holds its removal as the inverse.
    fn install_binding(&mut self, i: usize, interface: InterfaceId, kind: BindingKind, value: Option<u64>, trace_kind: &str)
        requires
            i < old(self).fibers@.len(),
            old(self).next_effect < u64::MAX,
        ensures
            bindings_written(old(self).bindings@, final(self).bindings@, interface@,
                Some(Bound { fiber: old(self).fibers@[i as int].id, kind, value })),
            effect_recorded(*old(self), *final(self), i as int, trace_kind@),
            final(self).fibers@[i as int].accumulator@.last() matches Inverse::RemoveBinding { effect: e, interface: b }
                && b@ == interface@,
            only_effect_parts(*old(self), *final(self)),
            final(self).state_cells == old(self).state_cells,
    {
        let fiber = self.fibers[i].id;
        self.bindings = write_binding(&self.bindings, &interface, Some((fiber, kind, value)));
        let effect = self.allocate_effect();
        self.push_inverse(i, Inverse::RemoveBinding { effect, interface });
        self.trace.push(TraceEvent::EffectApplied { fiber, effect, kind: trace_kind.to_string() });
        assert(self.trace@.drop_last() =~= old(self).trace@);
        assert(self.fibers@[i as int].accumulator@.drop_last() =~= old(self).fibers@[i as int].accumulator@);
    }

    /// The host's `publish`: an activating fiber that requested it binds the
    /// value interface it provides from `slot` to `value`, unless another
    /// binding holds that interface, and holds the binding's removal as the
    /// inverse.
    pub fn host_publish(&mut self, fiber: FiberId, slot: u64, value: u64) -> (r: i32)
        requires
            old(self).well_formed(),
            old(self).next_effect < u64::MAX,
        ensures
            final(self).well_formed(),
            match first_fiber(old(self).fibers@, fiber) {
                None => r == STATUS_INVALID && *final(self) == *old(self),
                Some(i) => {
                    let manifest = old(self).manifest_of(i);
                    let provided = provided_map(manifest.component.provide@);
                    if old(self).fibers@[i].state != InternalState::Activating || value > i64::MAX as u64 {
                        r == STATUS_INVALID && *final(self) == *old(self)
                    } else if !manifest.spec_requests(HostCapability::Publish) || !provided.contains_key(slot)
                        || provided[slot].kind != BindingKind::Value {
                        r == STATUS_UNDECLARED && *final(self) == *old(self)
                    } else if bound_to(old(self).bindings@, provided[slot]) is Some {
                        r == STATUS_COLLISION && *final(self) == *old(self)
                    } else {
                        &&& r == STATUS_OK
                        &&& bindings_written(old(self).bindings@, final(self).bindings@, provided[slot],
                            Some(Bound { fiber, kind: BindingKind::Value, value: Some(value) }))
                        &&& effect_recorded(*old(self), *final(self), i, "coeffect"@)
                        &&& final(self).fibers@[i].accumulator@.last() matches Inverse::RemoveBinding { effect: e, interface: b }
                            && b@ == provided[slot]
                        &&& only_effect_parts(*old(self), *final(self))
                        &&& final(self).state_cells == old(self).state_cells
                    }
                },
            },
    {
        let i = match self.find_fiber(fiber) {
            None => return STATUS_INVALID,
            Some(i) => i,
        };
        proof {
            lemma_first_fiber(old(self).fibers@, fiber);
        }
        if self.fibers[i].state != InternalState::Activating || value > i64::MAX as u64 {
            return STATUS_INVALID;
        }
        let manifest = &self.specs[self.fibers[i].spec].manifest;
        if !manifest.requests(HostCapability::Publish) {
            return STATUS_UNDECLARED;
        }
        let provided = manifest.provided_by_slot();
        let interface = match provided.get(&slot) {
            None => return STATUS_UNDECLARED,
            Some(interface) => copy_interface(interface),
        };
        if interface.kind != BindingKind::Value {
            return STATUS_UNDECLARED;
        }
        if find_binding(&self.bindings, &interface).is_some() {
            return STATUS_COLLISION;
        }
        self.install_binding(i, interface, BindingKind::Value, Some(value), "coeffect");
        STATUS_OK
    }

    /// The host's `publish-callable`: an activating fiber that requested it
    /// binds the callable interface it provides from `slot` to itself,
    /// unless another binding holds that interface, and holds the binding's
    /// removal as the inverse.
    pub fn host_publish_callable(&mut self, fiber: FiberId, slot: u64) -> (r: i32)
        requires
            old(self).well_formed(),
            old(self).next_effect < u64::MAX,
        ensures
            final(self).well_formed(),
            match first_fiber(old(self).fibers@, fiber) {
                None => r == STATUS_INVALID && *final(self) == *old(self),
                Some(i) => {
                    let manifest = old(self).manifest_of(i);
                    let provided = provided_map(manifest.component.provide@);
                    if old(self).fibers@[i].state != InternalState::Activating
                        || !manifest.spec_requests(HostCapability::PublishCallable) || !provided.contains_key(slot)
                        || provided[slot].kind != BindingKind::Callable {
                        r == STATUS_UNDECLARED && *final(self) == *old(self)
                    } else if bound_to(old(self).bindings@, provided[slot]) is Some {
                        r == STATUS_COLLISION && *final(self) == *old(self)
                    } else {
                        &&& r == STATUS_OK
                        &&& bindings_written(old(self).bindings@, final(self).bindings@, provided[slot],
                            Some(Bound { fiber, kind: BindingKind::Callable, value: None }))
                        &&& effect_recorded(*old(self), *final(self), i, "callable-coeffect"@)
                        &&& final(self).fibers@[i].accumulator@.last() matches Inverse::RemoveBinding { effect: e, interface: b }
                            && b@ == provided[slot]
                        &&& only_effect_parts(*old(self), *final(self))
                        &&& final(self).state_cells == old(self).state_cells
                    }
                },
            },
    {
        let i = match self.find_fiber(fiber) {
            None => return STATUS_INVALID,
            Some(i) => i,
        };
        proof {
            lemma_first_fiber(old(self).fibers@, fiber);
        }
        let manifest = &self.specs[self.fibers[i].spec].manifest;
        if self.fibers[i].state != InternalState::Activating || !manifest.requests(HostCapability::PublishCallable) {
            return STATUS_UNDECLARED;
        }
        let provided = manifest.provided_by_slot();
        let interface = match provided.get(&slot) {
            None => return STATUS_UNDECLARED,
            Some(interface) => copy_interface(interface),
        };
        if interface.kind != BindingKind::Callable {
            return STATUS_UNDECLARED;
        }
        if find_binding(&self.bindings, &interface).is_some() {
            return STATUS_COLLISION;
        }
        self.install_binding(i, interface, BindingKind::Callable, None, "callable-coeffect");
        STATUS_OK
    }

    /// The host's `resolve`: an activating fiber that requested it and
    /// injects `slot` reads the value its committed provider bound there;
    /// a failure is the negated status.
    pub fn host_resolve(&self, fiber: FiberId, slot: u64) -> (r: i64)
        requires
            self.well_formed(),
        ensures
            match first_fiber(self.fibers@, fiber) {
                None => r == -(STATUS_INVALID as i64),
                Some(i) => {
                    let manifest = self.manifest_of(i);
                    if self.fibers@[i].state != InternalState::Activating {
                        r == -(STATUS_INVALID as i64)
                    } else if !manifest.spec_requests(HostCapability::Resolve)
                        || !required_map(manifest.component.inject@).contains_key(slot) {
                        r == -(STATUS_UNDECLARED as i64)
                    } else {
                        match committed_for(self.fibers@[i].committed@, slot) {
                            None => r == -(STATUS_UNSATISFIED as i64),
                            Some((provider, interface)) => match bound_to(self.bindings@, interface) {
                                Some(b) => if b.fiber == provider && b.kind == BindingKind::Value && b.value is Some {
                                    r == b.value->0 as i64
                                } else {
                                    r == -(STATUS_UNSATISFIED as i64)
                                },
                                None => r == -(STATUS_UNSATISFIED as i64),
                            },
                        }
                    }
                },
            },
    {
        let i = match self.find_fiber(fiber) {
            None => return -(STATUS_INVALID as i64),
            Some(i) => i,
        };
        proof {
            lemma_first_fiber(self.fibers@, fiber);
        }
        let record = &self.fibers[i];
        if record.state != InternalState::Activating {
            return -(STATUS_INVALID as i64);
        }
        let manifest = &self.specs[record.spec].manifest;
        if !manifest.requests(HostCapability::Resolve) || !manifest.required_by_slot().contains_key(&slot) {
            return -(STATUS_UNDECLARED as i64);
        }
        let c = match find_committed(&record.committed, slot) {
            None => return -(STATUS_UNSATISFIED as i64),
            Some(c) => c,
        };
        let committed = &record.committed[c];
        match find_binding(&self.bindings, &committed.interface) {
            Some(b) => {
                let binding = &self.bindings[b];
                if binding.fiber == committed.fiber && binding.kind == BindingKind::Value {
                    match binding.value {
                        Some(v) => v as i64,
                        None => -(STATUS_UNSATISFIED as i64),
                    }
                } else {
                    -(STATUS_UNSATISFIED as i64)
                }
            },
            None => -(STATUS_UNSATISFIED as i64),
        }
    }

    /// Returns whether some registration holds `entry` under `parent`.
    fn has_entry(&self, parent: FiberId, entry: &String) -> (r: bool)
        ensures
            r == entry_registered(self.registrations@, parent, entry@),
    {
        let mut k: usize = 0;
        while k < self.registrations.len()
            invariant
                k <= self.registrations@.len(),
                forall|j: int| 0 <= j < k ==> !(#[trigger] self.registrations@[j].parent == parent && self.registrations@[j].entry@ == entry@),
            decreases self.registrations@.len() - k,
        {
            if self.registrations[k].parent == parent && self.registrations[k].entry == *entry {
                return true;
            }
            k = k + 1;
        }
        false
    }

    /// The host's `register-child`: an activating fiber that requested it
    /// registers its prepared child `index` as a new inactive fiber under
    /// its path, unless that entry is registered under it already or the
    /// composition is full, and holds the child's retirement as the inverse.
    pub fn host_register_child(&mut self, parent: FiberId, index: u32) -> (r: i32)
        requires
            old(self).well_formed(),
            old(self).next_effect < u64::MAX,
            old(self).next_fiber < u64::MAX,
            old(self).next_registration < u64::MAX,
        ensures
            final(self).well_formed(),
            match first_fiber(old(self).fibers@, parent) {
                None => r == STATUS_INVALID && *final(self) == *old(self),
                Some(i) => {
                    let node = old(self).specs@[old(self).fibers@[i].spec as int];
                    if old(self).fibers@[i].state != InternalState::Activating {
                        r == STATUS_INVALID && *final(self) == *old(self)
                    } else if !node.manifest.spec_requests(HostCapability::RegisterChild) {
                        r == STATUS_UNDECLARED && *final(self) == *old(self)
                    } else if index >= node.children@.len() {
                        r == STATUS_INVALID && *final(self) == *old(self)
                    } else {
                        let c = node.children@[index as int];
                        let entry = old(self).specs@[c as int].entry;
                        let child = FiberId(old(self).next_fiber);
                        if entry_registered(old(self).registrations@, parent, entry@) {
                            r == STATUS_COLLISION && *final(self) == *old(self)
                        } else if old(self).fibers@.len() >= old(self).limits.max_components {
                            r == STATUS_LIMIT && *final(self) == *old(self)
                        } else {
                            &&& r == STATUS_OK
                            &&& final(self).next_fiber == old(self).next_fiber + 1
                            &&& final(self).next_registration == old(self).next_registration + 1
                            &&& final(self).next_effect == old(self).next_effect + 1
                            &&& final(self).registrations@ == old(self).registrations@.push(
                                Registration { id: old(self).next_registration, parent, child, entry })
                            &&& final(self).fibers@.len() == old(self).fibers@.len() + 1
                            &&& accumulated(old(self).fibers@, final(self).fibers@.drop_last(), i,
                                Inverse::RetireChild { effect: old(self).next_effect, registration: old(self).next_registration })
                            &&& is_fresh_fiber(final(self).fibers@.last(), child, Some(parent), c, old(self).specs@[c as int])
                            &&& final(self).fibers@.last().path@ == old(self).fibers@[i].path@ + "/"@ + entry@
                            &&& final(self).trace@.len() == old(self).trace@.len() + 2
                            &&& final(self).trace@.take(old(self).trace@.len() as int) == old(self).trace@
                            &&& is_effect_applied(final(self).trace@[old(self).trace@.len() as int], parent, old(self).next_effect,
                                "component-registration"@)
                            &&& final(self).trace@.last() matches TraceEvent::ChildRegistered { parent: p, child: ch, path }
                                && p == parent && ch == child && path@ == final(self).fibers@.last().path@
                            &&& quiet_parts_unchanged(*old(self), *final(self))
                            &&& final(self).state_cells == old(self).state_cells
                            &&& final(self).bindings == old(self).bindings
                        }
                    }
                },
            },
    {
        let i = match self.find_fiber(parent) {
            None => return STATUS_INVALID,
            Some(i) => i,
        };
        proof {
            lemma_first_fiber(old(self).fibers@, parent);
        }
        if self.fibers[i].state != InternalState::Activating {
            return STATUS_INVALID;
        }
        let node = self.fibers[i].spec;
        if !self.specs[node].manifest.requests(HostCapability::RegisterChild) {
            return STATUS_UNDECLARED;
        }
        if index as usize >= self.specs[node].children.len() {
            return STATUS_INVALID;
        }
        let c = self.specs[node].children[index as usize];
        let entry = self.specs[c].entry.clone();
        if self.has_entry(parent, &entry) {
            return STATUS_COLLISION;
        }
        if self.fibers.len() >= self.limits.max_components {
            return STATUS_LIMIT;
        }
        let child = self.allocate_fiber();
        let registration = self.next_registration;
        self.next_registration = self.next_registration + 1;
        let mut path = self.fibers[i].path.clone();
        path.append("/");
        path.append(entry.as_str());
        let child_path = path.clone();
        self.registrations.push(Registration { id: registration, parent, child, entry });
        let fresh = Fiber::new(child, Some(parent), path, c, &self.specs[c]);
        let effect = self.allocate_effect();
        self.push_inverse(i, Inverse::RetireChild { effect, registration });
        let ghost before_push = self.fibers@;
        self.fibers.push(fresh);
        self.trace.push(TraceEvent::EffectApplied { fiber: parent, effect, kind: "component-registration".to_string() });
        self.trace.push(TraceEvent::ChildRegistered { parent, child, path: child_path });
        proof {
            assert(self.fibers@.drop_last() =~= before_push);
            assert(self.trace@.take(old(self).trace@.len() as int) =~= old(self).trace@);
            assert forall|k: int| 0 <= k < self.fibers@.len() implies #[trigger] self.fibers@[k].spec < self.specs@.len() by {
                if k < before_push.len() {
                    assert(self.fibers@[k] == before_push[k]);
                }
            }
        }
        STATUS_OK
    }


    /// Returns the position of the first registration with identity `id`.
    pub fn find_registration(&self, id: u64) -> (r: Option<usize>)
        ensures
            match r {
                Some(k) => first_registration(self.registrations@, id) == Some(k as int),
                None => first_registration(self.registrations@, id) is None,
            },
    {
        let mut k: usize = 0;
        while k < self.registrations.len()
            invariant
                k <= self.registrations@.len(),
                first_registration(self.registrations@.take(k as int), id) is None,
            decreases self.registrations@.len() - k,
        {
            assert(self.registrations@.take(k + 1).drop_last() =~= self.registrations@.take(k as int));
            if self.registrations[k].id == id {
                proof {
                    lemma_first_registration_prefix(self.registrations@, id, k + 1);
                }
                return Some(k);
            }
            k = k + 1;
        }
        assert(self.registrations@.take(self.registrations@.len() as int) =~= self.registrations@);
        None
    }

    /// Undoes one effect of fiber `fiber_id`: restores a cell, removes a
    /// binding, retires a registered child, or closes a journal, event
    /// stream or exchange ledger the fiber owns; a workspace inverse
    /// succeeds as `recovery`, the outcome of restoring its workspace (or of
    /// checking a promoted one), does, and where that failed the inverse
    /// stays with the fiber. A composition
    /// inverse, or bookkeeping that does not match, is refused. Each undone
    /// effect is traced.
    pub fn apply_inverse(&mut self, fiber_id: FiberId, inverse: Inverse, recovery: Result<(), Error>) -> (r: Result<(), Error>)
        requires
            old(self).well_formed(),
        ensures
            final(self).well_formed(),
            match inverse {
                Inverse::RestoreState { effect, key, previous } => {
                    &&& r is Ok
                    &&& cells_written(old(self).state_cells@, final(self).state_cells@, fiber_id, key, previous)
                    &&& recovery_traced(old(self).trace@, final(self).trace@, fiber_id, effect, "state"@)
                    &&& *final(self) == (Core { state_cells: final(self).state_cells, trace: final(self).trace, ..*old(self) })
                },
                Inverse::RemoveBinding { effect, interface } => match bound_to(old(self).bindings@, interface@) {
                    None => r == Err::<(), Error>(Error::Invariant(InvariantIssue::BindingMissing)) && *final(self) == *old(self),
                    Some(b) => {
                        &&& bindings_written(old(self).bindings@, final(self).bindings@, interface@, None)
                        &&& if b.fiber != fiber_id {
                            r == Err::<(), Error>(Error::Invariant(InvariantIssue::BindingOwner))
                                && *final(self) == (Core { bindings: final(self).bindings, ..*old(self) })
                        } else {
                            &&& r is Ok
                            &&& recovery_traced(old(self).trace@, final(self).trace@, fiber_id, effect, "coeffect"@)
                            &&& *final(self) == (Core { bindings: final(self).bindings, trace: final(self).trace, ..*old(self) })
                        }
                    },
                },
                Inverse::RetireChild { effect, registration } => match first_registration(old(self).registrations@, registration) {
                    None => r == Err::<(), Error>(Error::Invariant(InvariantIssue::RegistrationMissing)) && *final(self) == *old(self),
                    Some(k) => {
                        let g = old(self).registrations@[k];
                        match first_fiber(old(self).fibers@, g.child) {
                            None => r == Err::<(), Error>(Error::Invariant(InvariantIssue::RetiredFiberMissing)) && *final(self) == *old(self),
                            Some(j) => {
                                &&& r is Ok
                                &&& final(self).fibers@ == old(self).fibers@.update(j, Fiber { retired: true, ..old(self).fibers@[j] })
                                &&& final(self).trace@.len() == old(self).trace@.len() + 2
                                &&& final(self).trace@.take(old(self).trace@.len() as int) == old(self).trace@
                                &&& final(self).trace@[old(self).trace@.len() as int] matches TraceEvent::ChildRetired { parent: p, child: c, path }
                                    && p == g.parent && c == g.child && path == old(self).fibers@[j].path
                                &&& is_effect_recovered(final(self).trace@.last(), fiber_id, effect, "component-registration"@)
                                &&& *final(self) == (Core { fibers: final(self).fibers, trace: final(self).trace, ..*old(self) })
                            },
                        }
                    },
                },
                Inverse::RestoreComposition { .. } => r == Err::<(), Error>(Error::Invariant(InvariantIssue::CompositionInverse))
                    && *final(self) == *old(self),
                Inverse::CloseJournal { effect } => match old(self).journal_owner {
                    None => r == Err::<(), Error>(Error::Invariant(InvariantIssue::JournalMissing)) && *final(self) == *old(self),
                    Some(o) => if o != fiber_id {
                        r == Err::<(), Error>(Error::Invariant(InvariantIssue::JournalOwner))
                            && *final(self) == (Core { journal_owner: None, ..*old(self) })
                    } else {
                        &&& r is Ok
                        &&& recovery_traced(old(self).trace@, final(self).trace@, fiber_id, effect, "composition-journal"@)
                        &&& *final(self) == (Core { journal_owner: None, trace: final(self).trace, ..*old(self) })
                    },
                },
                Inverse::CloseEventStream { effect } => match old(self).event_stream {
                    None => r == Err::<(), Error>(Error::Invariant(InvariantIssue::EventStreamMissing)) && *final(self) == *old(self),
                    Some(e) => if e.owner != fiber_id {
                        r == Err::<(), Error>(Error::Invariant(InvariantIssue::EventStreamOwner))
                            && *final(self) == (Core { event_stream: None, ..*old(self) })
                    } else {
                        &&& r is Ok
                        &&& recovery_traced(old(self).trace@, final(self).trace@, fiber_id, effect, "event-stream"@)
                        &&& *final(self) == (Core { event_stream: None, trace: final(self).trace, ..*old(self) })
                    },
                },
                Inverse::CloseExchange { effect } => match old(self).exchange {
                    None => r == Err::<(), Error>(Error::Invariant(InvariantIssue::ExchangeMissing)) && *final(self) == *old(self),
                    Some(x) => if x.owner != fiber_id {
                        r == Err::<(), Error>(Error::Invariant(InvariantIssue::ExchangeOwner))
                            && *final(self) == (Core { exchange: None, ..*old(self) })
                    } else {
                        &&& r is Ok
                        &&& recovery_traced(old(self).trace@, final(self).trace@, fiber_id, effect, "exchange-ledger"@)
                        &&& *final(self) == (Core { exchange: None, trace: final(self).trace, ..*old(self) })
                    },
                },
                Inverse::RestoreWorkspace { effect, .. } | Inverse::VerifyPromotedWorkspace { effect, .. } => match recovery {
                    Ok(()) => {
                        &&& r is Ok
                        &&& recovery_traced(old(self).trace@, final(self).trace@, fiber_id, effect, inverse.spec_kind())
                        &&& *final(self) == (Core { trace: final(self).trace, ..*old(self) })
                    },
                    Err(e) => match first_fiber(old(self).fibers@, fiber_id) {
                        None => r == Err::<(), Error>(Error::Invariant(InvariantIssue::WorkspaceOwnerMissing)) && *final(self) == *old(self),
                        Some(j) => {
                            &&& r == Err::<(), Error>(e)
                            &&& accumulated(old(self).fibers@, final(self).fibers@, j, inverse)
                            &&& *final(self) == (Core { fibers: final(self).fibers, ..*old(self) })
                        },
                    },
                },
            },
    {
        let effect = inverse.effect();
        let kind = inverse.kind();
        match inverse {
            Inverse::RestoreState { key, previous, .. } => {
                self.state_cells = write_cell(&self.state_cells, fiber_id, key, previous);
            },
            Inverse::RemoveBinding { interface, .. } => {
                let b = match find_binding(&self.bindings, &interface) {
                    None => return Err(Error::Invariant(InvariantIssue::BindingMissing)),
                    Some(b) => b,
                };
                let owner = self.bindings[b].fiber;
                self.bindings = write_binding(&self.bindings, &interface, None);
                if owner != fiber_id {
                    return Err(Error::Invariant(InvariantIssue::BindingOwner));
                }
            },
            Inverse::RetireChild { registration, .. } => {
                let k = match self.find_registration(registration) {
                    None => return Err(Error::Invariant(InvariantIssue::RegistrationMissing)),
                    Some(k) => k,
                };
                proof {
                    lemma_first_registration(old(self).registrations@, registration);
                }
                let child = self.registrations[k].child;
                let parent = self.registrations[k].parent;
                let j = match self.find_fiber(child) {
                    None => return Err(Error::Invariant(InvariantIssue::RetiredFiberMissing)),
                    Some(j) => j,
                };
                proof {
                    lemma_first_fiber(old(self).fibers@, child);
                }
                let path = self.fibers[j].path.clone();
                let retired = self.retire_fiber(child);
                self.trace.push(TraceEvent::ChildRetired { parent, child, path });
            },
            Inverse::RestoreComposition { .. } => {
                return Err(Error::Invariant(InvariantIssue::CompositionInverse));
            },
            Inverse::CloseJournal { .. } => {
                match self.journal_owner {
                    None => return Err(Error::Invariant(InvariantIssue::JournalMissing)),
                    Some(o) => {
                        self.journal_owner = None;
                        if o != fiber_id {
                            return Err(Error::Invariant(InvariantIssue::JournalOwner));
                        }
                    },
                }
            },
            Inverse::CloseEventStream { .. } => {
                match self.event_stream.take() {
                    None => return Err(Error::Invariant(InvariantIssue::EventStreamMissing)),
                    Some(e) => {
                        if e.owner != fiber_id {
                            return Err(Error::Invariant(InvariantIssue::EventStreamOwner));
                        }
                    },
                }
            },
            Inverse::CloseExchange { .. } => {
                match self.exchange.take() {
                    None => return Err(Error::Invariant(InvariantIssue::ExchangeMissing)),
                    Some(x) => {
                        if x.owner != fiber_id {
                            return Err(Error::Invariant(InvariantIssue::ExchangeOwner));
                        }
                    },
                }
            },
            Inverse::RestoreWorkspace { effect, grant, before_bytes, result_bytes } => {
                if let Err(error) = recovery {
                    let j = match self.find_fiber(fiber_id) {
                        None => return Err(Error::Invariant(InvariantIssue::WorkspaceOwnerMissing)),
                        Some(j) => j,
                    };
                    proof {
                        lemma_first_fiber(old(self).fibers@, fiber_id);
                    }
                    self.push_inverse(j, Inverse::RestoreWorkspace { effect, grant, before_bytes, result_bytes });
                    return Err(error);
                }
            },
            Inverse::VerifyPromotedWorkspace { effect, grant, before_bytes, result_bytes, approver } => {
                if let Err(error) = recovery {
                    let j = match self.find_fiber(fiber_id) {
                        None => return Err(Error::Invariant(InvariantIssue::WorkspaceOwnerMissing)),
                        Some(j) => j,
                    };
                    proof {
                        lemma_first_fiber(old(self).fibers@, fiber_id);
                    }
                    self.push_inverse(j, Inverse::VerifyPromotedWorkspace { effect, grant, before_bytes, result_bytes, approver });
                    return Err(error);
                }
            },
        }
        let ghost before = self.trace@;
        self.trace.push(TraceEvent::EffectRecovered { fiber: fiber_id, effect, kind });
        assert(self.trace@.drop_last() =~= before);
        proof {
            assert forall|k: int| 0 <= k < self.fibers@.len() implies #[trigger] self.fibers@[k].spec < self.specs@.len() by {
                assert(self.fibers@[k].spec == old(self).fibers@[k].spec);
            }
        }
        Ok(())
    }

    /// Removes fiber `id`, which must hold no effect and no work in flight:
    /// its roots and the registrations of it as a child go with it, and the
    /// removal is traced. The fiber leaves the table before the check, so a
    /// refused removal leaves it out.
    pub fn remove_fiber(&mut self, id: FiberId) -> (r: Result<(), Error>)
        requires
            old(self).well_formed(),
        ensures
            final(self).well_formed(),
            match first_fiber(old(self).fibers@, id) {
                None => r == Err::<(), Error>(Error::Invariant(InvariantIssue::RemovedFiberMissing)) && *final(self) == *old(self),
                Some(i) => {
                    let f = old(self).fibers@[i];
                    &&& final(self).fibers@ == old(self).fibers@.remove(i)
                    &&& if retains_effects(*old(self), f, id) {
                        r == Err::<(), Error>(Error::Invariant(InvariantIssue::RetainedEffects))
                            && *final(self) == (Core { fibers: final(self).fibers, ..*old(self) })
                    } else {
                        &&& r is Ok
                        &&& final(self).roots@ == roots_without(old(self).roots@, id)
                        &&& final(self).registrations@ == registrations_without(old(self).registrations@, id)
                        &&& final(self).trace@ == old(self).trace@.push(TraceEvent::FiberRemoved { fiber: id, path: f.path })
                        &&& *final(self) == (Core {
                            fibers: final(self).fibers,
                            roots: final(self).roots,
                            registrations: final(self).registrations,
                            trace: final(self).trace,
                            ..*old(self)
                        })
                    }
                },
            },
    {
        let i = match self.find_fiber(id) {
            None => return Err(Error::Invariant(InvariantIssue::RemovedFiberMissing)),
            Some(i) => i,
        };
        proof {
            lemma_first_fiber(old(self).fibers@, id);
        }
        let fiber = self.fibers.remove(i);
        proof {
            assert forall|k: int| 0 <= k < self.fibers@.len() implies #[trigger] self.fibers@[k].spec < self.specs@.len() by {
                if k < i {
                    assert(self.fibers@[k] == old(self).fibers@[k]);
                } else {
                    assert(self.fibers@[k] == old(self).fibers@[k + 1]);
                }
            }
        }
        if fiber.accumulator.len() > 0 || fiber.instance || holds_id(&self.invoking, id)
            || has_cell_of(&self.state_cells, id) || has_binding_of(&self.bindings, id)
            || has_patch_of(&self.patch_owners, id) || has_pending_patch_of(&self.pending_patches, id)
            || has_pending_event_of(&self.pending_events, id) || self.journal_owner == Some(id)
            || stream_owned_by(&self.event_stream, id) || exchange_owned_by(&self.exchange, id)
            || fiber.staged_response.is_some() || fiber.staged_usage.is_some()
            || fiber.inbound_response.is_some() || fiber.workspace_authorization.is_some() {
            return Err(Error::Invariant(InvariantIssue::RetainedEffects));
        }
        proof {
            lemma_roots_without_distinct(self.roots@, id);
        }
        self.roots = roots_retained(&self.roots, id);
        self.registrations = registrations_retained(&self.registrations, id);
        self.trace.push(TraceEvent::FiberRemoved { fiber: id, path: fiber.path });
        Ok(())
    }


    /// Points the slot of `previous` at `replacement`: the registration of `previous` under
    /// `parent`, or, for a root, the root entry `path` starts with.
    pub fn retarget_slot(&mut self, parent: Option<FiberId>, path: &str, previous: FiberId, replacement: FiberId) -> (r: Result<(), Error>)
        requires
            old(self).well_formed(),
        ensures
            final(self).well_formed(),
            retargeted(*old(self), *final(self), parent, path.spec_bytes(), previous, replacement, r),
    {
        match parent {
            Some(p) => {
                let mut k: usize = 0;
                while k < self.registrations.len() && !(self.registrations[k].parent == p && self.registrations[k].child == previous)
                    invariant
                        k <= self.registrations@.len(),
                        *self == *old(self),
                        forall|j: int| 0 <= j < k ==> !(#[trigger] self.registrations@[j].parent == p && self.registrations@[j].child == previous),
                    decreases self.registrations@.len() - k,
                {
                    k = k + 1;
                }
                if k == self.registrations.len() {
                    return Err(Error::Invariant(InvariantIssue::ParentRegistration));
                }
                let ghost chosen = first_child_registration(old(self).registrations@, p, previous);
                assert(self.registrations@[k as int].parent == p && self.registrations@[k as int].child == previous);
                assert(chosen == Some(k as int));
                let g = self.registrations.remove(k);
                self.registrations.insert(k, Registration { child: replacement, ..g });
                Ok(())
            },
            None => {
                let bytes = path.as_bytes();
                let n = root_len(bytes);
                let segment = vstd::slice::slice_subrange(bytes, 0, n);
                assert(segment@ == root_segment(path.spec_bytes()));
                let mut k: usize = 0;
                while k < self.roots.len() && !entry_is(&self.roots[k].entry, segment)
                    invariant
                        k <= self.roots@.len(),
                        *self == *old(self),
                        segment@ == root_segment(path.spec_bytes()),
                        forall|j: int| 0 <= j < k ==> encode_utf8(#[trigger] self.roots@[j].entry@) != segment@,
                    decreases self.roots@.len() - k,
                {
                    k = k + 1;
                }
                if k == self.roots.len() {
                    return Err(Error::Invariant(InvariantIssue::RootRegistration));
                }
                let ghost chosen = first_root(old(self).roots@, root_segment(path.spec_bytes()));
                assert(encode_utf8(self.roots@[k as int].entry@) == segment@);
                assert(chosen == Some(k as int));
                if self.roots[k].fiber != previous {
                    return Err(Error::Invariant(InvariantIssue::RootOwner));
                }
                let g = self.roots.remove(k);
                self.roots.insert(k, Root { fiber: replacement, ..g });
                Ok(())
            },
        }
    }

    /// Whether some fiber that is activating, active or unloading has
    /// committed to `provider` for one of its slots.
    pub fn is_relied_on(&self, provider: FiberId) -> (r: bool)
        ensures
            r == exists|j: int, k: int| 0 <= j < self.fibers@.len() && 0 <= k < self.fibers@[j].committed@.len()
                && (self.fibers@[j].state == InternalState::Activating || self.fibers@[j].state == InternalState::Active
                    || self.fibers@[j].state == InternalState::Unloading)
                && #[trigger] self.fibers@[j].committed@[k].fiber == provider,
    {
        let mut j: usize = 0;
        while j < self.fibers.len()
            invariant
                j <= self.fibers@.len(),
                forall|a: int, k: int| 0 <= a < j && 0 <= k < self.fibers@[a].committed@.len()
                    && (self.fibers@[a].state == InternalState::Activating || self.fibers@[a].state == InternalState::Active
                        || self.fibers@[a].state == InternalState::Unloading)
                    ==> #[trigger] self.fibers@[a].committed@[k].fiber != provider,
            decreases self.fibers@.len() - j,
        {
            let f = &self.fibers[j];
            if f.state == InternalState::Activating || f.state == InternalState::Active || f.state == InternalState::Unloading {
                let mut k: usize = 0;
                while k < f.committed.len()
                    invariant
                        j < self.fibers@.len(),
                        *f == self.fibers@[j as int],
                        f.state == InternalState::Activating || f.state == InternalState::Active
                            || f.state == InternalState::Unloading,
                        k <= f.committed@.len(),
                        forall|b: int| 0 <= b < k ==> #[trigger] f.committed@[b].fiber != provider,
                    decreases f.committed@.len() - k,
                {
                    if f.committed[k].fiber == provider {
                        assert(self.fibers@[j as int].committed@[k as int].fiber == provider);
                        return true;
                    }
                    k = k + 1;
                }
            }
            j = j + 1;
        }
        false
    }

    /// Returns whether fiber `id` is active.
    fn active(&self, id: FiberId) -> (r: bool)
        ensures
            r == is_active(self.fibers@, id),
    {
        match self.find_fiber(id) {
            Some(j) => {
                proof {
                    lemma_first_fiber(self.fibers@, id);
                }
                self.fibers[j].state == InternalState::Active
            },
            None => false,
        }
    }

    /// Returns whether binding entry `j` is the one in force.
    fn live(&self, j: usize) -> (r: bool)
        requires
            j < self.bindings@.len(),
        ensures
            r == is_live(self.bindings@, j as int),
    {
        let n = self.bindings.len();
        let mut k: usize = j + 1;
        while k < n
            invariant
                n == self.bindings@.len(),
                j < k <= self.bindings@.len(),
                forall|m: int| j < m < k ==> #[trigger] self.bindings@[m].interface@ != self.bindings@[j as int].interface@,
            decreases self.bindings@.len() - k,
        {
            if same_interface(&self.bindings[k].interface, &self.bindings[j].interface) {
                return false;
            }
            k = k + 1;
        }
        true
    }

    /// Returns the binding entry that serves an injected binding, if any.
    fn resolve_required(&self, required: &crate::manifest::RequiredBinding, require_active: bool) -> (r: Option<usize>)
        ensures
            match r {
                Some(j) => serves(*self, *required, require_active, j as int),
                None => unserved(*self, *required, require_active),
            },
    {
        let requirement = required.requirement();
        let mut best: Option<usize> = None;
        let mut j: usize = 0;
        while j < self.bindings.len()
            invariant
                j <= self.bindings@.len(),
                requirement@ == required.requirement_view(),
                match best {
                    Some(b) => b < j && can_serve(*self, *required, require_active, b as int)
                        && forall|k: int| 0 <= k < j && #[trigger] can_serve(*self, *required, require_active, k)
                            ==> self.bindings@[b as int].interface.revision <= self.bindings@[k].interface.revision,
                    None => forall|k: int| 0 <= k < j ==> !#[trigger] can_serve(*self, *required, require_active, k),
                },
            decreases self.bindings@.len() - j,
        {
            let b = &self.bindings[j];
            let ok = requirement.accepts(&b.interface) && self.live(j) && (!require_active || self.active(b.fiber));
            if ok {
                let better = match best {
                    None => true,
                    Some(c) => b.interface.revision < self.bindings[c].interface.revision,
                };
                if better {
                    best = Some(j);
                }
            }
            j = j + 1;
        }
        best
    }

    /// The providers the prepared specification at `spec` would commit to:
    /// for each binding it injects, the entry in force that serves it; none
    /// where some injected binding has no such entry.
    #[verifier::spinoff_prover]
    pub fn target_for_spec(&self, spec: usize, require_active: bool) -> (r: Option<Vec<CommittedProvider>>)
        requires
            spec < self.specs@.len(),
        ensures
            match r {
                Some(t) => {
                    let inject = self.specs@[spec as int].manifest.component.inject@;
                    &&& t@.len() == inject.len()
                    &&& forall|k: int| 0 <= k < inject.len() ==> #[trigger] provides_for(*self, inject[k], require_active, t@[k])
                },
                None => exists|k: int| 0 <= k < self.specs@[spec as int].manifest.component.inject@.len()
                    && #[trigger] unserved(*self, self.specs@[spec as int].manifest.component.inject@[k], require_active),
            },
    {
        let inject = &self.specs[spec].manifest.component.inject;
        let mut target: Vec<CommittedProvider> = Vec::new();
        let mut k: usize = 0;
        while k < inject.len()
            invariant
                k <= inject@.len(),
                inject == &self.specs@[spec as int].manifest.component.inject,
                target@.len() == k,
                forall|a: int| 0 <= a < k ==> #[trigger] provides_for(*self, inject@[a], require_active, target@[a]),
            decreases inject@.len() - k,
        {
            let j = match self.resolve_required(&inject[k], require_active) {
                None => {
                    assert(unserved(*self, inject@[k as int], require_active));
                    return None;
                },
                Some(j) => j,
            };
            let b = &self.bindings[j];
            let ghost prev = target@;
            target.push(CommittedProvider { slot: inject[k].slot, fiber: b.fiber, interface: copy_interface(&b.interface) });
            proof {
                assert(target@[k as int].interface == self.bindings@[j as int].interface);
                assert(serves(*self, inject@[k as int], require_active, j as int));
                assert forall|a: int| 0 <= a < k + 1 implies #[trigger] provides_for(*self, inject@[a], require_active, target@[a]) by {
                    if a < k {
                        assert(target@[a] == prev[a]);
                        assert(provides_for(*self, inject@[a], require_active, prev[a]));
                    }
                }
            }
            k = k + 1;
        }
        Some(target)
    }

    /// The providers fiber `id` would commit to now: none for a missing or
    /// retired fiber, else the active providers of its specification.
    #[verifier::spinoff_prover]
    pub fn target_for(&self, id: FiberId) -> (r: Option<Vec<CommittedProvider>>)
        requires
            self.well_formed(),
        ensures
            match first_fiber(self.fibers@, id) {
                None => r is None,
                Some(i) => if self.fibers@[i].retired {
                    r is None
                } else {
                    let inject = self.manifest_of(i).component.inject@;
                    match r {
                        Some(t) => t@.len() == inject.len()
                            && forall|k: int| 0 <= k < inject.len() ==> #[trigger] provides_for(*self, inject[k], true, t@[k]),
                        None => exists|k: int| 0 <= k < inject.len() && #[trigger] unserved(*self, inject[k], true),
                    }
                },
            },
    {
        let i = match self.find_fiber(id) {
            None => return None,
            Some(i) => i,
        };
        proof {
            lemma_first_fiber(self.fibers@, id);
        }
        if self.fibers[i].retired {
            return None;
        }
        let r = self.target_for_spec(self.fibers[i].spec, true);
        proof {
            let inject = self.manifest_of(i as int).component.inject@;
            assert(inject == self.specs@[self.fibers@[i as int].spec as int].manifest.component.inject@);
            if r is Some {
                let t = r->0;
                assert forall|k: int| 0 <= k < inject.len() implies #[trigger] provides_for(*self, inject[k], true, t@[k]) by {
                    assert(provides_for(*self, self.specs@[self.fibers@[i as int].spec as int].manifest.component.inject@[k], true, t@[k]));
                }
            }
        }
        r
    }


    /// Puts `bytes` in workspace buffer `index` of fiber `i` and withdraws
    /// the fiber's workspace and promotion authorizations.
    fn write_buffer(&mut self, i: usize, index: usize, bytes: Vec<u8>)
        requires
            old(self).well_formed(),
            i < old(self).fibers@.len(),
            index < old(self).fibers@[i as int].workspace_buffers@.len(),
        ensures
            final(self).well_formed(),
            final(self).fibers@.len() == old(self).fibers@.len(),
            forall|j: int| 0 <= j < old(self).fibers@.len() && j != i ==> #[trigger] final(self).fibers@[j] == old(self).fibers@[j],
            buffer_written(old(self).fibers@[i as int], final(self).fibers@[i as int], index as int, bytes@),
            *final(self) == (Core { fibers: final(self).fibers, ..*old(self) }),
    {
        let mut f = self.fibers.remove(i);
        f.workspace_authorization = None;
        f.promotion_authorization = None;
        f.workspace_buffers.set(index, bytes);
        self.fibers.insert(i, f);
        proof {
            assert forall|k: int| 0 <= k < self.fibers@.len() implies #[trigger] self.fibers@[k].spec < self.specs@.len()
                && self.fibers@[k].workspace_buffers@.len() == self.specs@[self.fibers@[k].spec as int].workspaces@.len() by {
                if k != i {
                    assert(self.fibers@[k] == old(self).fibers@[k]);
                }
            }
        }
    }

    /// The host's `workspace-len`: an activating fiber that requested
    /// workspace reads learns the length of its buffer `index`; a failure is
    /// the negated status.
    pub fn host_workspace_len(&self, fiber: FiberId, index: u64) -> (r: i64)
        requires
            self.well_formed(),
        ensures
            match first_fiber(self.fibers@, fiber) {
                None => r == -(STATUS_INVALID as i64),
                Some(i) => if self.fibers@[i].state != InternalState::Activating
                    || !self.manifest_of(i).spec_requests(HostCapability::WorkspaceRead) {
                    r == -(STATUS_UNDECLARED as i64)
                } else if index > usize::MAX {
                    r == -(STATUS_INVALID as i64)
                } else if index >= self.fibers@[i].workspace_buffers@.len() {
                    r == -(STATUS_UNDECLARED as i64)
                } else {
                    r == self.fibers@[i].workspace_buffers@[index as int]@.len() as i64
                },
            },
    {
        let i = match self.find_fiber(fiber) {
            None => return -(STATUS_INVALID as i64),
            Some(i) => i,
        };
        proof {
            lemma_first_fiber(self.fibers@, fiber);
        }
        let record = &self.fibers[i];
        if record.state != InternalState::Activating || !self.specs[record.spec].manifest.requests(HostCapability::WorkspaceRead) {
            return -(STATUS_UNDECLARED as i64);
        }
        if index > usize::MAX as u64 {
            return -(STATUS_INVALID as i64);
        }
        let index = index as usize;
        if index >= record.workspace_buffers.len() {
            return -(STATUS_UNDECLARED as i64);
        }
        record.workspace_buffers[index].len() as i64
    }

    /// The host's `workspace-byte`: an activating fiber that requested
    /// workspace reads reads byte `offset` of its buffer `index`; a failure
    /// is the negated status.
    pub fn host_workspace_byte(&self, fiber: FiberId, index: u64, offset: u64) -> (r: i32)
        requires
            self.well_formed(),
        ensures
            match first_fiber(self.fibers@, fiber) {
                None => r == -STATUS_INVALID,
                Some(i) => if self.fibers@[i].state != InternalState::Activating
                    || !self.manifest_of(i).spec_requests(HostCapability::WorkspaceRead) {
                    r == -STATUS_UNDECLARED
                } else if index > usize::MAX || offset > usize::MAX || index >= self.fibers@[i].workspace_buffers@.len()
                    || offset >= self.fibers@[i].workspace_buffers@[index as int]@.len() {
                    r == -STATUS_INVALID
                } else {
                    r == self.fibers@[i].workspace_buffers@[index as int]@[offset as int] as i32
                },
            },
    {
        let i = match self.find_fiber(fiber) {
            None => return -STATUS_INVALID,
            Some(i) => i,
        };
        proof {
            lemma_first_fiber(self.fibers@, fiber);
        }
        let record = &self.fibers[i];
        if record.state != InternalState::Activating || !self.specs[record.spec].manifest.requests(HostCapability::WorkspaceRead) {
            return -STATUS_UNDECLARED;
        }
        if index > usize::MAX as u64 || offset > usize::MAX as u64 {
            return -STATUS_INVALID;
        }
        let (index, offset) = (index as usize, offset as usize);
        if index >= record.workspace_buffers.len() || offset >= record.workspace_buffers[index].len() {
            return -STATUS_INVALID;
        }
        record.workspace_buffers[index][offset] as i32
    }

    /// The host's `workspace-set-len`: an activating fiber that requested
    /// workspace writes resizes its buffer `index` within its grant's bound,
    /// padding with zeros, and loses its workspace and promotion
    /// authorizations.
    pub fn host_workspace_set_len(&mut self, fiber: FiberId, index: u64, length: u64) -> (r: i32)
        requires
            old(self).well_formed(),
        ensures
            final(self).well_formed(),
            if index > usize::MAX || length > usize::MAX {
                r == STATUS_INVALID && *final(self) == *old(self)
            } else {
                match first_fiber(old(self).fibers@, fiber) {
                    None => r == STATUS_INVALID && *final(self) == *old(self),
                    Some(i) => {
                        let workspaces = old(self).specs@[old(self).fibers@[i].spec as int].workspaces@;
                        if old(self).fibers@[i].state != InternalState::Activating
                            || !old(self).manifest_of(i).spec_requests(HostCapability::WorkspaceWrite)
                            || index >= workspaces.len() {
                            r == STATUS_UNDECLARED && *final(self) == *old(self)
                        } else if length > workspaces[index as int].grant.max_bytes {
                            r == STATUS_LIMIT && *final(self) == *old(self)
                        } else {
                            &&& r == STATUS_OK
                            &&& final(self).fibers@.len() == old(self).fibers@.len()
                            &&& forall|j: int| 0 <= j < old(self).fibers@.len() && j != i
                                ==> #[trigger] final(self).fibers@[j] == old(self).fibers@[j]
                            &&& buffer_written(old(self).fibers@[i], final(self).fibers@[i], index as int,
                                resized(old(self).fibers@[i].workspace_buffers@[index as int]@, length as nat))
                            &&& *final(self) == (Core { fibers: final(self).fibers, ..*old(self) })
                        }
                    },
                }
            },
    {
        if index > usize::MAX as u64 || length > usize::MAX as u64 {
            return STATUS_INVALID;
        }
        let (index, length) = (index as usize, length as usize);
        let i = match self.find_fiber(fiber) {
            None => return STATUS_INVALID,
            Some(i) => i,
        };
        proof {
            lemma_first_fiber(old(self).fibers@, fiber);
        }
        let spec = self.fibers[i].spec;
        if self.fibers[i].state != InternalState::Activating || !self.specs[spec].manifest.requests(HostCapability::WorkspaceWrite)
            || index >= self.specs[spec].workspaces.len() {
            return STATUS_UNDECLARED;
        }
        if length > self.specs[spec].workspaces[index].grant.max_bytes {
            return STATUS_LIMIT;
        }
        let mut bytes = copy_bytes(&self.fibers[i].workspace_buffers[index]);
        let ghost before = bytes@;
        bytes.resize(length, 0u8);
        proof {
            if length <= before.len() {
                assert(bytes@ =~= resized(before, length as nat));
            } else {
                assert forall|k: int| 0 <= k < bytes@.len() implies #[trigger] bytes@[k] == resized(before, length as nat)[k] by {
                    if k < before.len() {
                        assert(bytes@.subrange(0, before.len() as int)[k] == before[k]);
                    }
                }
                assert(bytes@ =~= resized(before, length as nat));
            }
        }
        self.write_buffer(i, index, bytes);
        STATUS_OK
    }

    /// The host's `workspace-write-byte`: an activating fiber that requested
    /// workspace writes loses its workspace and promotion authorizations and
    /// sets byte `offset` of its buffer `index` to `value`.
    pub fn host_workspace_write_byte(&mut self, fiber: FiberId, index: u64, offset: u64, value: u32) -> (r: i32)
        requires
            old(self).well_formed(),
        ensures
            final(self).well_formed(),
            if index > usize::MAX || offset > usize::MAX || value > u8::MAX {
                r == STATUS_INVALID && *final(self) == *old(self)
            } else {
                match first_fiber(old(self).fibers@, fiber) {
                    None => r == STATUS_INVALID && *final(self) == *old(self),
                    Some(i) => {
                        let f = old(self).fibers@[i];
                        if f.state != InternalState::Activating
                            || !old(self).manifest_of(i).spec_requests(HostCapability::WorkspaceWrite) {
                            r == STATUS_UNDECLARED && *final(self) == *old(self)
                        } else {
                            &&& final(self).fibers@.len() == old(self).fibers@.len()
                            &&& forall|j: int| 0 <= j < old(self).fibers@.len() && j != i
                                ==> #[trigger] final(self).fibers@[j] == old(self).fibers@[j]
                            &&& final(self).fibers@[i].workspace_authorization is None
                            &&& final(self).fibers@[i].promotion_authorization is None
                            &&& *final(self) == (Core { fibers: final(self).fibers, ..*old(self) })
                            &&& if index >= f.workspace_buffers@.len() {
                                r == STATUS_UNDECLARED && final(self).fibers@[i] == (Fiber {
                                    workspace_authorization: None, promotion_authorization: None, ..f })
                            } else if offset >= f.workspace_buffers@[index as int]@.len() {
                                r == STATUS_INVALID && final(self).fibers@[i] == (Fiber {
                                    workspace_authorization: None, promotion_authorization: None, ..f })
                            } else {
                                r == STATUS_OK && buffer_written(f, final(self).fibers@[i], index as int,
                                    f.workspace_buffers@[index as int]@.update(offset as int, value as u8))
                            }
                        }
                    },
                }
            },
    {
        if index > usize::MAX as u64 || offset > usize::MAX as u64 || value > 255 {
            return STATUS_INVALID;
        }
        let (index, offset, value) = (index as usize, offset as usize, value as u8);
        let i = match self.find_fiber(fiber) {
            None => return STATUS_INVALID,
            Some(i) => i,
        };
        proof {
            lemma_first_fiber(old(self).fibers@, fiber);
        }
        if self.fibers[i].state != InternalState::Activating
            || !self.specs[self.fibers[i].spec].manifest.requests(HostCapability::WorkspaceWrite) {
            return STATUS_UNDECLARED;
        }
        if index >= self.fibers[i].workspace_buffers.len() || offset >= self.fibers[i].workspace_buffers[index].len() {
            let status = if index >= self.fibers[i].workspace_buffers.len() { STATUS_UNDECLARED } else { STATUS_INVALID };
            let mut f = self.fibers.remove(i);
            f.workspace_authorization = None;
            f.promotion_authorization = None;
            self.fibers.insert(i, f);
            proof {
                assert forall|k: int| 0 <= k < self.fibers@.len() implies #[trigger] self.fibers@[k].spec < self.specs@.len()
                    && self.fibers@[k].workspace_buffers@.len() == self.specs@[self.fibers@[k].spec as int].workspaces@.len() by {
                    if k != i {
                        assert(self.fibers@[k] == old(self).fibers@[k]);
                    }
                }
            }
            return status;
        }
        let mut bytes = copy_bytes(&self.fibers[i].workspace_buffers[index]);
        bytes.set(offset, value);
        self.write_buffer(i, index, bytes);
        STATUS_OK
    }


    /// Takes fiber `i`'s workspace authorization.
    fn take_workspace_authorization(&mut self, i: usize) -> (r: Option<WorkspaceAuthorization>)
        requires
            old(self).well_formed(),
            i < old(self).fibers@.len(),
        ensures
            final(self).well_formed(),
            r == old(self).fibers@[i as int].workspace_authorization,
            final(self).fibers@ == old(self).fibers@.update(i as int, Fiber { workspace_authorization: None, ..old(self).fibers@[i as int] }),
            *final(self) == (Core { fibers: final(self).fibers, ..*old(self) }),
    {
        let mut f = self.fibers.remove(i);
        let taken = f.workspace_authorization;
        f.workspace_authorization = None;
        self.fibers.insert(i, f);
        assert(self.fibers@ =~= old(self).fibers@.update(i as int, Fiber { workspace_authorization: None, ..old(self).fibers@[i as int] }));
        taken
    }

    /// Takes fiber `i`'s promotion authorization.
    fn take_promotion_authorization(&mut self, i: usize) -> (r: Option<PromotionAuthorization>)
        requires
            old(self).well_formed(),
            i < old(self).fibers@.len(),
        ensures
            final(self).well_formed(),
            r == old(self).fibers@[i as int].promotion_authorization,
            final(self).fibers@ == old(self).fibers@.update(i as int, Fiber { promotion_authorization: None, ..old(self).fibers@[i as int] }),
            *final(self) == (Core { fibers: final(self).fibers, ..*old(self) }),
    {
        let mut f = self.fibers.remove(i);
        let taken = f.promotion_authorization.take();
        self.fibers.insert(i, f);
        assert(self.fibers@ =~= old(self).fibers@.update(i as int, Fiber { promotion_authorization: None, ..old(self).fibers@[i as int] }));
        taken
    }

    /// The checks of the host's `publish-workspace`, before the ledger: an
    /// activating fiber that requested it, holding the authorization for
    /// workspace `index` from a provider it committed to, may publish the
    /// buffer when the buffer's digest is the grant's result. The
    /// authorization is used up by the attempt.
    pub fn prepare_publication(&mut self, fiber: FiberId, index: u64) -> (r: Result<Publication, i32>)
        requires
            old(self).well_formed(),
        ensures
            final(self).well_formed(),
            if index > usize::MAX {
                r == Err::<Publication, i32>(STATUS_INVALID) && *final(self) == *old(self)
            } else {
                match first_fiber(old(self).fibers@, fiber) {
                    None => r == Err::<Publication, i32>(STATUS_INVALID) && *final(self) == *old(self),
                    Some(i) => {
                        let f = old(self).fibers@[i];
                        let workspaces = old(self).specs@[f.spec as int].workspaces@;
                        if f.state != InternalState::Activating
                            || !old(self).manifest_of(i).spec_requests(HostCapability::WorkspacePublish)
                            || index >= workspaces.len() {
                            r == Err::<Publication, i32>(STATUS_UNDECLARED) && *final(self) == *old(self)
                        } else {
                            let w = workspaces[index as int];
                            &&& final(self).fibers@ == old(self).fibers@.update(i, Fiber { workspace_authorization: None, ..f })
                            &&& *final(self) == (Core { fibers: final(self).fibers, ..*old(self) })
                            &&& match f.workspace_authorization {
                                None => r == Err::<Publication, i32>(STATUS_DENIED),
                                Some(a) => if a.index != index || a.operation != w.grant.operation || !commits_to(f.committed@, a.provider) {
                                    r == Err::<Publication, i32>(STATUS_DENIED)
                                } else if !holds(spec_sha256_hex(f.workspace_buffers@[index as int]@), w.grant.result_sha256) {
                                    r == Err::<Publication, i32>(STATUS_INVALID)
                                } else {
                                    r matches Ok(p) && p.grant == w.grant && p.before_bytes@ == w.bytes@
                                        && p.result_bytes@ == f.workspace_buffers@[index as int]@
                                },
                            }
                        }
                    },
                }
            },
    {
        if index > usize::MAX as u64 {
            return Err(STATUS_INVALID);
        }
        let index = index as usize;
        let i = match self.find_fiber(fiber) {
            None => return Err(STATUS_INVALID),
            Some(i) => i,
        };
        proof {
            lemma_first_fiber(old(self).fibers@, fiber);
        }
        let spec = self.fibers[i].spec;
        if self.fibers[i].state != InternalState::Activating || !self.specs[spec].manifest.requests(HostCapability::WorkspacePublish)
            || index >= self.specs[spec].workspaces.len() {
            return Err(STATUS_UNDECLARED);
        }
        let authorization = match self.take_workspace_authorization(i) {
            None => return Err(STATUS_DENIED),
            Some(a) => a,
        };
        let record = &self.fibers[i];
        let workspace = &self.specs[spec].workspaces[index];
        if authorization.index != index || authorization.operation != workspace.grant.operation
            || !has_commitment(&record.committed, authorization.provider) {
            return Err(STATUS_DENIED);
        }
        let result_bytes = copy_bytes(&record.workspace_buffers[index]);
        let digest = sha256_hex(result_bytes.as_slice());
        proof {
            vstd::utf8::encode_utf8_decode_utf8(workspace.grant.result_sha256@);
        }
        if !bytes_equal(digest.as_slice(), workspace.grant.result_sha256.as_str().as_bytes()) {
            return Err(STATUS_INVALID);
        }
        Ok(Publication { grant: copy_grant(&workspace.grant), before_bytes: copy_bytes(&workspace.bytes), result_bytes })
    }

    /// The rest of the host's `publish-workspace`, after the ledger: the
    /// status is the publication's, and where a publication is left to own
    /// (`ownership`), the fiber holds its inverse: a restoration, or the
    /// check of a promotion by its approver.
    pub fn record_publication(&mut self, fiber: FiberId, publication: Publication, outcome: Result<(), Error>,
        ownership: Option<PublicationOwnership>) -> (r: i32)
        requires
            old(self).well_formed(),
            old(self).next_effect < u64::MAX,
            first_fiber(old(self).fibers@, fiber) is Some,
        ensures
            final(self).well_formed(),
            r == (match outcome {
                Ok(()) => STATUS_OK,
                Err(e) => spec_workspace_status(e),
            }),
            match ownership {
                None => *final(self) == *old(self),
                Some(o) => {
                    let i = first_fiber(old(self).fibers@, fiber)->0;
                    let inverse = match o {
                        PublicationOwnership::Restore => Inverse::RestoreWorkspace {
                            effect: old(self).next_effect,
                            grant: publication.grant,
                            before_bytes: publication.before_bytes,
                            result_bytes: publication.result_bytes,
                        },
                        PublicationOwnership::Promoted(approver) => Inverse::VerifyPromotedWorkspace {
                            effect: old(self).next_effect,
                            grant: publication.grant,
                            before_bytes: publication.before_bytes,
                            result_bytes: publication.result_bytes,
                            approver,
                        },
                    };
                    &&& effect_taken(*old(self), *final(self), i, inverse, "workspace-publication"@)
                    &&& only_effect_parts(*old(self), *final(self))
                    &&& final(self).state_cells == old(self).state_cells
                    &&& final(self).bindings == old(self).bindings
                },
            },
    {
        let status = match &outcome {
            Ok(()) => STATUS_OK,
            Err(e) => workspace_status(e),
        };
        if let Some(o) = ownership {
            let i = match self.find_fiber(fiber) {
                Some(i) => i,
                None => return status,
            };
            proof {
                lemma_first_fiber(old(self).fibers@, fiber);
            }
            let effect = self.allocate_effect();
            let inverse = match o {
                PublicationOwnership::Restore => Inverse::RestoreWorkspace {
                    effect,
                    grant: publication.grant,
                    before_bytes: publication.before_bytes,
                    result_bytes: publication.result_bytes,
                },
                PublicationOwnership::Promoted(approver) => Inverse::VerifyPromotedWorkspace {
                    effect,
                    grant: publication.grant,
                    before_bytes: publication.before_bytes,
                    result_bytes: publication.result_bytes,
                    approver,
                },
            };
            self.push_inverse(i, inverse);
            self.trace.push(TraceEvent::EffectApplied { fiber, effect, kind: "workspace-publication".to_string() });
            assert(self.trace@.drop_last() =~= old(self).trace@);
            assert(self.fibers@[i as int].accumulator@.drop_last() =~= old(self).fibers@[i as int].accumulator@);
            proof {
                assert forall|k: int| 0 <= k < self.fibers@.len() implies #[trigger] self.fibers@[k].spec < self.specs@.len()
                    && self.fibers@[k].workspace_buffers@.len() == self.specs@[self.fibers@[k].spec as int].workspaces@.len() by {
                    if k != i {
                        assert(self.fibers@[k] == old(self).fibers@[k]);
                    }
                }
            }
        }
        status
    }

    /// The checks of the host's `promote-workspace`, before the ledger: an
    /// activating fiber that requested it, holding the promotion authority
    /// for workspace `index` from a provider it committed to, may promote
    /// the publication its last workspace inverse under that grant owns.
    /// The authorization is used up by the attempt.
    pub fn prepare_promotion(&mut self, fiber: FiberId, index: u64) -> (r: Result<Promotion, i32>)
        requires
            old(self).well_formed(),
        ensures
            final(self).well_formed(),
            if index > usize::MAX {
                r == Err::<Promotion, i32>(STATUS_INVALID) && *final(self) == *old(self)
            } else {
                match first_fiber(old(self).fibers@, fiber) {
                    None => r == Err::<Promotion, i32>(STATUS_INVALID) && *final(self) == *old(self),
                    Some(i) => {
                        let f = old(self).fibers@[i];
                        let workspaces = old(self).specs@[f.spec as int].workspaces@;
                        if f.state != InternalState::Activating
                            || !old(self).manifest_of(i).spec_requests(HostCapability::WorkspacePromote)
                            || index >= workspaces.len() {
                            r == Err::<Promotion, i32>(STATUS_UNDECLARED) && *final(self) == *old(self)
                        } else {
                            let w = workspaces[index as int];
                            &&& final(self).fibers@ == old(self).fibers@.update(i, Fiber { promotion_authorization: None, ..f })
                            &&& *final(self) == (Core { fibers: final(self).fibers, ..*old(self) })
                            &&& match f.promotion_authorization {
                                None => r == Err::<Promotion, i32>(STATUS_DENIED),
                                Some(a) => if a.index != index || a.operation != w.grant.operation || !commits_to(f.committed@, a.provider) {
                                    r == Err::<Promotion, i32>(STATUS_DENIED)
                                } else {
                                    match last_workspace_inverse(f.accumulator@, w.grant) {
                                        None => r == Err::<Promotion, i32>(STATUS_DENIED),
                                        Some((k, promoted)) => r matches Ok(p) && p.grant == w.grant && p.before_bytes@ == w.bytes@
                                            && p.result_bytes@ == f.workspace_buffers@[index as int]@ && p.approver == a.approver
                                            && p.inverse_index == k && p.is_promoted == promoted,
                                    }
                                },
                            }
                        }
                    },
                }
            },
    {
        if index > usize::MAX as u64 {
            return Err(STATUS_INVALID);
        }
        let index = index as usize;
        let i = match self.find_fiber(fiber) {
            None => return Err(STATUS_INVALID),
            Some(i) => i,
        };
        proof {
            lemma_first_fiber(old(self).fibers@, fiber);
        }
        let spec = self.fibers[i].spec;
        if self.fibers[i].state != InternalState::Activating || !self.specs[spec].manifest.requests(HostCapability::WorkspacePromote)
            || index >= self.specs[spec].workspaces.len() {
            return Err(STATUS_UNDECLARED);
        }
        let authorization = match self.take_promotion_authorization(i) {
            None => return Err(STATUS_DENIED),
            Some(a) => a,
        };
        let record = &self.fibers[i];
        let workspace = &self.specs[spec].workspaces[index];
        if authorization.index != index || authorization.operation != workspace.grant.operation
            || !has_commitment(&record.committed, authorization.provider) {
            return Err(STATUS_DENIED);
        }
        let (inverse_index, is_promoted) = match find_workspace_inverse(&record.accumulator, &workspace.grant) {
            None => return Err(STATUS_DENIED),
            Some(found) => found,
        };
        Ok(Promotion {
            grant: copy_grant(&workspace.grant),
            before_bytes: copy_bytes(&workspace.bytes),
            result_bytes: copy_bytes(&record.workspace_buffers[index]),
            approver: authorization.approver,
            inverse_index,
            is_promoted,
        })
    }

    /// The rest of the host's `promote-workspace`, after the ledger: a
    /// refused promotion reports its status; a first promotion turns the
    /// workspace's restoration into the check of the promotion, keeping its
    /// effect.
    pub fn record_promotion(&mut self, fiber: FiberId, promotion: Promotion, outcome: Result<(), Error>) -> (r: i32)
        requires
            old(self).well_formed(),
            first_fiber(old(self).fibers@, fiber) matches Some(i)
                && promotion.inverse_index < old(self).fibers@[i].accumulator@.len(),
        ensures
            final(self).well_formed(),
            match outcome {
                Err(e) => r == spec_workspace_status(e) && *final(self) == *old(self),
                Ok(()) => {
                    let i = first_fiber(old(self).fibers@, fiber)->0;
                    let f = old(self).fibers@[i];
                    &&& r == STATUS_OK
                    &&& if promotion.is_promoted {
                        *final(self) == *old(self)
                    } else {
                        &&& final(self).fibers@.len() == old(self).fibers@.len()
                        &&& forall|j: int| 0 <= j < old(self).fibers@.len() && j != i ==> #[trigger] final(self).fibers@[j] == old(self).fibers@[j]
                        &&& same_but_accumulator(f, final(self).fibers@[i])
                        &&& final(self).fibers@[i].accumulator@ == f.accumulator@.update(promotion.inverse_index as int,
                            Inverse::VerifyPromotedWorkspace {
                                effect: f.accumulator@[promotion.inverse_index as int].spec_effect(),
                                grant: promotion.grant,
                                before_bytes: promotion.before_bytes,
                                result_bytes: promotion.result_bytes,
                                approver: promotion.approver,
                            })
                        &&& *final(self) == (Core { fibers: final(self).fibers, ..*old(self) })
                    }
                },
            },
    {
        if let Err(e) = &outcome {
            return workspace_status(e);
        }
        if promotion.is_promoted {
            return STATUS_OK;
        }
        let i = match self.find_fiber(fiber) {
            Some(i) => i,
            None => return STATUS_OK,
        };
        proof {
            lemma_first_fiber(old(self).fibers@, fiber);
        }
        let mut f = self.fibers.remove(i);
        let effect = f.accumulator[promotion.inverse_index].effect();
        f.accumulator.set(promotion.inverse_index, Inverse::VerifyPromotedWorkspace {
            effect,
            grant: promotion.grant,
            before_bytes: promotion.before_bytes,
            result_bytes: promotion.result_bytes,
            approver: promotion.approver,
        });
        self.fibers.insert(i, f);
        proof {
            assert forall|k: int| 0 <= k < self.fibers@.len() implies #[trigger] self.fibers@[k].spec < self.specs@.len()
                && self.fibers@[k].workspace_buffers@.len() == self.specs@[self.fibers@[k].spec as int].workspaces@.len() by {
                if k != i {
                    assert(self.fibers@[k] == old(self).fibers@[k]);
                }
            }
        }
        STATUS_OK
    }


    /// The host's `invoke`, up to the call: an activating fiber that
    /// requested it calls the callable provider committed for `slot`, which
    /// must still hold that binding, be active with a live instance and not
    /// be in a call already. The provider is marked as in a call and its
    /// instance is taken for the call; a refusal is the negated status.
    pub fn begin_invoke(&mut self, caller: FiberId, slot: u64) -> (r: Result<Invocation, i64>)
        requires
            old(self).well_formed(),
        ensures
            final(self).well_formed(),
            match first_fiber(old(self).fibers@, caller) {
                None => r == Err::<Invocation, i64>((-(STATUS_INVALID as i64)) as i64) && *final(self) == *old(self),
                Some(i) => if old(self).fibers@[i].state != InternalState::Activating
                    || !old(self).manifest_of(i).spec_requests(HostCapability::Invoke) {
                    r == Err::<Invocation, i64>((-(STATUS_UNDECLARED as i64)) as i64) && *final(self) == *old(self)
                } else {
                    match committed_for(old(self).fibers@[i].committed@, slot) {
                        None => r == Err::<Invocation, i64>((-(STATUS_UNSATISFIED as i64)) as i64) && *final(self) == *old(self),
                        Some((provider, interface)) => if interface.kind != BindingKind::Callable {
                            r == Err::<Invocation, i64>((-(STATUS_UNDECLARED as i64)) as i64) && *final(self) == *old(self)
                        } else if !(bound_to(old(self).bindings@, interface) matches Some(b)
                            && b.fiber == provider && b.kind == BindingKind::Callable) {
                            r == Err::<Invocation, i64>((-(STATUS_UNSATISFIED as i64)) as i64) && *final(self) == *old(self)
                        } else if old(self).invoking@.contains(provider) {
                            r == Err::<Invocation, i64>((-(STATUS_BUSY as i64)) as i64) && *final(self) == *old(self)
                        } else {
                            match first_fiber(old(self).fibers@, provider) {
                                Some(j) if old(self).fibers@[j].state == InternalState::Active && old(self).fibers@[j].instance => {
                                    &&& r matches Ok(inv) && inv.provider == provider && inv.interface@ == interface
                                    &&& final(self).invoking@ == old(self).invoking@.push(provider)
                                    &&& final(self).fibers@ == old(self).fibers@.update(j, Fiber { instance: false, ..old(self).fibers@[j] })
                                    &&& *final(self) == (Core { fibers: final(self).fibers, invoking: final(self).invoking, ..*old(self) })
                                },
                                _ => r == Err::<Invocation, i64>((-(STATUS_UNSATISFIED as i64)) as i64) && *final(self) == *old(self),
                            }
                        },
                    }
                },
            },
    {
        let i = match self.find_fiber(caller) {
            None => return Err(-(STATUS_INVALID as i64)),
            Some(i) => i,
        };
        proof {
            lemma_first_fiber(old(self).fibers@, caller);
        }
        let record = &self.fibers[i];
        if record.state != InternalState::Activating || !self.specs[record.spec].manifest.requests(HostCapability::Invoke) {
            return Err(-(STATUS_UNDECLARED as i64));
        }
        let c = match find_committed(&record.committed, slot) {
            None => return Err(-(STATUS_UNSATISFIED as i64)),
            Some(c) => c,
        };
        let committed = &record.committed[c];
        if committed.interface.kind != BindingKind::Callable {
            return Err(-(STATUS_UNDECLARED as i64));
        }
        let b = match find_binding(&self.bindings, &committed.interface) {
            None => return Err(-(STATUS_UNSATISFIED as i64)),
            Some(b) => b,
        };
        if self.bindings[b].fiber != committed.fiber || self.bindings[b].kind != BindingKind::Callable {
            return Err(-(STATUS_UNSATISFIED as i64));
        }
        let provider = committed.fiber;
        let interface = copy_interface(&committed.interface);
        if holds_id(&self.invoking, provider) {
            return Err(-(STATUS_BUSY as i64));
        }
        let j = match self.find_fiber(provider) {
            None => return Err(-(STATUS_UNSATISFIED as i64)),
            Some(j) => j,
        };
        proof {
            lemma_first_fiber(old(self).fibers@, provider);
        }
        if self.fibers[j].state != InternalState::Active || !self.fibers[j].instance {
            return Err(-(STATUS_UNSATISFIED as i64));
        }
        self.invoking.push(provider);
        let mut f = self.fibers.remove(j);
        f.instance = false;
        self.fibers.insert(j, f);
        proof {
            assert(self.fibers@ =~= old(self).fibers@.update(j as int, Fiber { instance: false, ..old(self).fibers@[j as int] }));
            assert forall|k: int| 0 <= k < self.fibers@.len() implies #[trigger] self.fibers@[k].spec < self.specs@.len()
                && self.fibers@[k].workspace_buffers@.len() == self.specs@[self.fibers@[k].spec as int].workspaces@.len() by {
                if k != j {
                    assert(self.fibers@[k] == old(self).fibers@[k]);
                }
            }
        }
        Ok(Invocation { provider, interface })
    }

    /// The host's `invoke`, after the call returned `result`: the provider
    /// leaves its call with its instance back and its staged response and
    /// usage taken; a response staged with the call's usage goes to the
    /// caller, unless one is waiting there already; a mismatched stage is
    /// invalid. A successful authorization call (operation 1, result 1) on a
    /// patch, mutation or promotion authority gives the caller that
    /// authority for the patch or workspace its arguments name. The result
    /// is returned unless a step refuses with a negated status.
    #[verifier::spinoff_prover]
    pub fn finish_invoke(&mut self, caller: FiberId, invocation: Invocation, operation: u64, arg0: u64, arg1: u64, result: i64) -> (r: i64)
        requires
            old(self).well_formed(),
        ensures
            final(self).well_formed(),
            final(self).invoking@ == ids_without(old(self).invoking@, invocation.provider),
            match first_fiber(old(self).fibers@, invocation.provider) {
                None => r == -(STATUS_INVALID as i64) && *final(self) == (Core { invoking: final(self).invoking, ..*old(self) }),
                Some(j) => {
                    let pf = old(self).fibers@[j];
                    let mid = old(self).fibers@.update(j, Fiber { instance: true, staged_response: None, staged_usage: None, ..pf });
                    let ci = first_fiber(old(self).fibers@, caller);
                    let iface = invocation.interface@;
                    let authorizing = result == 1 && operation == 1;
                    &&& *final(self) == (Core { fibers: final(self).fibers, invoking: final(self).invoking, ..*old(self) })
                    &&& first_fiber(mid, caller) == ci
                    &&& match staged_outcome(pf.staged_response, pf.staged_usage, result) {
                        Some(Err(())) => r == -(STATUS_INVALID as i64) && final(self).fibers@ == mid,
                        Some(Ok(p)) if ci is None => r == -(STATUS_INVALID as i64) && final(self).fibers@ == mid,
                        Some(Ok(p)) if mid[ci->0].inbound_response is Some => r == -(STATUS_BUSY as i64) && final(self).fibers@ == mid,
                        staged => {
                            let mid2 = match staged {
                                Some(Ok(p)) => mid.update(ci->0, Fiber { inbound_response: Some(p), ..mid[ci->0] }),
                                _ => mid,
                            };
                            if authorizing && is_authority(iface, "quartz.composition"@, "patch-authority"@) {
                                if arg0 > usize::MAX {
                                    r == -(STATUS_INVALID as i64) && final(self).fibers@ == mid2
                                } else {
                                    &&& r == result
                                    &&& final(self).fibers@ == (match ci {
                                        Some(c) => mid2.update(c, Fiber { patch_authorization: Some(PatchAuthorization {
                                            provider: invocation.provider, index: arg0 as usize, base_revision: arg1 }), ..mid2[c] }),
                                        None => mid2,
                                    })
                                }
                            } else if authorizing && is_authority(iface, "quartz.repository"@, "mutation-authority"@) {
                                if arg1 > usize::MAX || ci is None {
                                    r == -(STATUS_INVALID as i64) && final(self).fibers@ == mid2
                                } else {
                                    let cf = mid2[ci->0];
                                    let workspaces = old(self).specs@[cf.spec as int].workspaces@;
                                    if arg1 >= workspaces.len() || arg0 == 0 || workspaces[arg1 as int].grant.operation != arg0 {
                                        r == -(STATUS_INVALID as i64) && final(self).fibers@ == mid2
                                    } else {
                                        &&& r == result
                                        &&& final(self).fibers@ == mid2.update(ci->0, Fiber { workspace_authorization: Some(WorkspaceAuthorization {
                                            provider: invocation.provider, index: arg1 as usize, operation: arg0 }), ..cf })
                                    }
                                }
                            } else if authorizing && is_authority(iface, "quartz.repository"@, "promotion-authority"@) {
                                if arg1 > usize::MAX || ci is None {
                                    r == -(STATUS_INVALID as i64) && final(self).fibers@ == mid2
                                } else {
                                    let cf = mid2[ci->0];
                                    let workspaces = old(self).specs@[cf.spec as int].workspaces@;
                                    if arg1 >= workspaces.len() || arg0 == 0 || workspaces[arg1 as int].grant.operation != arg0
                                        || last_workspace_inverse(cf.accumulator@, workspaces[arg1 as int].grant) is None {
                                        r == -(STATUS_INVALID as i64) && final(self).fibers@ == mid2
                                    } else {
                                        &&& r == result
                                        &&& final(self).fibers@[ci->0].promotion_authorization matches Some(a)
                                            && a.provider == invocation.provider && a.index == arg1 && a.operation == arg0
                                            && a.approver@ == approver_of(old(self).specs@[pf.spec as int])
                                        &&& final(self).fibers@.len() == mid2.len()
                                        &&& forall|k: int| 0 <= k < mid2.len() && k != ci->0 ==> #[trigger] final(self).fibers@[k] == mid2[k]
                                        &&& final(self).fibers@[ci->0] == (Fiber { promotion_authorization: final(self).fibers@[ci->0].promotion_authorization, ..cf })
                                    }
                                }
                            } else {
                                r == result && final(self).fibers@ == mid2
                            }
                        },
                    }
                },
            },
    {
        let provider = invocation.provider;
        self.invoking = ids_retained(&self.invoking, provider);
        let j = match self.find_fiber(provider) {
            None => return -(STATUS_INVALID as i64),
            Some(j) => j,
        };
        proof {
            lemma_first_fiber(old(self).fibers@, provider);
        }
        let (staged_response, staged_usage) = self.give_back(j);
        proof {
            lemma_first_fiber_same_ids(old(self).fibers@, self.fibers@, caller);
        }
        let staged: Option<Result<DurablePayload, ()>> = match (staged_response, staged_usage) {
            (Some(p), Some(u)) => if result >= 0 && u == result as u64 { Some(Ok(p)) } else { Some(Err(())) },
            (None, None) => None,
            _ => Some(Err(())),
        };
        let ci = self.find_fiber(caller);
        proof {
            lemma_first_fiber(self.fibers@, caller);
        }
        match staged {
            Some(Err(())) => return -(STATUS_INVALID as i64),
            Some(Ok(p)) => {
                let c = match ci {
                    None => return -(STATUS_INVALID as i64),
                    Some(c) => c,
                };
                if self.fibers[c].inbound_response.is_some() {
                    return -(STATUS_BUSY as i64);
                }
                self.set_inbound(c, p);
            },
            None => {},
        }
        proof {
            assert forall|k: int| 0 <= k < self.fibers@.len() implies #[trigger] self.fibers@[k].id == old(self).fibers@[k].id by {}
            lemma_first_fiber_same_ids(old(self).fibers@, self.fibers@, provider);
            lemma_first_fiber_same_ids(old(self).fibers@, self.fibers@, caller);
        }
        if result == 1 && operation == 1 {
            self.authorize(ci, &invocation, arg0, arg1, result)
        } else {
            result
        }
    }

    /// Gives fiber `j` its instance back and takes its staged response and
    /// usage.
    fn give_back(&mut self, j: usize) -> (r: (Option<DurablePayload>, Option<u64>))
        requires
            old(self).well_formed(),
            j < old(self).fibers@.len(),
        ensures
            final(self).well_formed(),
            r == (old(self).fibers@[j as int].staged_response, old(self).fibers@[j as int].staged_usage),
            final(self).fibers@ == old(self).fibers@.update(j as int,
                Fiber { instance: true, staged_response: None, staged_usage: None, ..old(self).fibers@[j as int] }),
            *final(self) == (Core { fibers: final(self).fibers, ..*old(self) }),
    {
        let mut f = self.fibers.remove(j);
        f.instance = true;
        let staged_response = f.staged_response.take();
        let staged_usage = f.staged_usage.take();
        self.fibers.insert(j, f);
        proof {
            assert(self.fibers@ =~= old(self).fibers@.update(j as int,
                Fiber { instance: true, staged_response: None, staged_usage: None, ..old(self).fibers@[j as int] }));
            assert forall|k: int| 0 <= k < self.fibers@.len() implies #[trigger] self.fibers@[k].spec < self.specs@.len()
                && self.fibers@[k].workspace_buffers@.len() == self.specs@[self.fibers@[k].spec as int].workspaces@.len() by {
                if k != j {
                    assert(self.fibers@[k] == old(self).fibers@[k]);
                }
            }
        }
        (staged_response, staged_usage)
    }

    /// Hands fiber `c` a response.
    fn set_inbound(&mut self, c: usize, p: DurablePayload)
        requires
            old(self).well_formed(),
            c < old(self).fibers@.len(),
        ensures
            final(self).well_formed(),
            final(self).fibers@ == old(self).fibers@.update(c as int, Fiber { inbound_response: Some(p), ..old(self).fibers@[c as int] }),
            *final(self) == (Core { fibers: final(self).fibers, ..*old(self) }),
    {
        let mut f = self.fibers.remove(c);
        f.inbound_response = Some(p);
        self.fibers.insert(c, f);
        proof {
            assert(self.fibers@ =~= old(self).fibers@.update(c as int, Fiber { inbound_response: Some(p), ..old(self).fibers@[c as int] }));
            assert forall|k: int| 0 <= k < self.fibers@.len() implies #[trigger] self.fibers@[k].spec < self.specs@.len()
                && self.fibers@[k].workspace_buffers@.len() == self.specs@[self.fibers@[k].spec as int].workspaces@.len() by {
                if k != c {
                    assert(self.fibers@[k] == old(self).fibers@[k]);
                }
            }
        }
    }

    /// Gives fiber `c` the authority to apply a patch.
    fn set_patch_authorization(&mut self, c: usize, a: PatchAuthorization)
        requires
            old(self).well_formed(),
            c < old(self).fibers@.len(),
        ensures
            final(self).well_formed(),
            final(self).fibers@ == old(self).fibers@.update(c as int, Fiber { patch_authorization: Some(a), ..old(self).fibers@[c as int] }),
            *final(self) == (Core { fibers: final(self).fibers, ..*old(self) }),
    {
        let mut f = self.fibers.remove(c);
        f.patch_authorization = Some(a);
        self.fibers.insert(c, f);
        proof {
            assert(self.fibers@ =~= old(self).fibers@.update(c as int, Fiber { patch_authorization: Some(a), ..old(self).fibers@[c as int] }));
            assert forall|k: int| 0 <= k < self.fibers@.len() implies #[trigger] self.fibers@[k].spec < self.specs@.len()
                && self.fibers@[k].workspace_buffers@.len() == self.specs@[self.fibers@[k].spec as int].workspaces@.len() by {
                if k != c {
                    assert(self.fibers@[k] == old(self).fibers@[k]);
                }
            }
        }
    }

    /// Gives fiber `c` the authority to publish a workspace.
    fn set_workspace_authorization(&mut self, c: usize, a: WorkspaceAuthorization)
        requires
            old(self).well_formed(),
            c < old(self).fibers@.len(),
        ensures
            final(self).well_formed(),
            final(self).fibers@ == old(self).fibers@.update(c as int, Fiber { workspace_authorization: Some(a), ..old(self).fibers@[c as int] }),
            *final(self) == (Core { fibers: final(self).fibers, ..*old(self) }),
    {
        let mut f = self.fibers.remove(c);
        f.workspace_authorization = Some(a);
        self.fibers.insert(c, f);
        proof {
            assert(self.fibers@ =~= old(self).fibers@.update(c as int, Fiber { workspace_authorization: Some(a), ..old(self).fibers@[c as int] }));
            assert forall|k: int| 0 <= k < self.fibers@.len() implies #[trigger] self.fibers@[k].spec < self.specs@.len()
                && self.fibers@[k].workspace_buffers@.len() == self.specs@[self.fibers@[k].spec as int].workspaces@.len() by {
                if k != c {
                    assert(self.fibers@[k] == old(self).fibers@[k]);
                }
            }
        }
    }

    /// Gives fiber `c` the authority to promote a workspace.
    fn set_promotion_authorization(&mut self, c: usize, a: PromotionAuthorization)
        requires
            old(self).well_formed(),
            c < old(self).fibers@.len(),
        ensures
            final(self).well_formed(),
            final(self).fibers@ == old(self).fibers@.update(c as int, Fiber { promotion_authorization: Some(a), ..old(self).fibers@[c as int] }),
            *final(self) == (Core { fibers: final(self).fibers, ..*old(self) }),
    {
        let mut f = self.fibers.remove(c);
        f.promotion_authorization = Some(a);
        self.fibers.insert(c, f);
        proof {
            assert(self.fibers@ =~= old(self).fibers@.update(c as int, Fiber { promotion_authorization: Some(a), ..old(self).fibers@[c as int] }));
            assert forall|k: int| 0 <= k < self.fibers@.len() implies #[trigger] self.fibers@[k].spec < self.specs@.len()
                && self.fibers@[k].workspace_buffers@.len() == self.specs@[self.fibers@[k].spec as int].workspaces@.len() by {
                if k != c {
                    assert(self.fibers@[k] == old(self).fibers@[k]);
                }
            }
        }
    }

    /// The authorities a successful authorization call gives its caller,
    /// the fiber at `ci`.
    fn authorize(&mut self, ci: Option<usize>, invocation: &Invocation, arg0: u64, arg1: u64, result: i64) -> (r: i64)
        requires
            old(self).well_formed(),
            ci matches Some(c) ==> c < old(self).fibers@.len(),
            first_fiber(old(self).fibers@, invocation.provider) is Some,
        ensures
            final(self).well_formed(),
            *final(self) == (Core { fibers: final(self).fibers, ..*old(self) }),
            ({
                let mid2 = old(self).fibers@;
                let iface = invocation.interface@;
                let pf = old(self).fibers@[first_fiber(old(self).fibers@, invocation.provider)->0];
                if is_authority(iface, "quartz.composition"@, "patch-authority"@) {
                    if arg0 > usize::MAX {
                        r == -(STATUS_INVALID as i64) && final(self).fibers@ == mid2
                    } else {
                        &&& r == result
                        &&& final(self).fibers@ == (match ci {
                            Some(c) => mid2.update(c as int, Fiber { patch_authorization: Some(PatchAuthorization {
                                provider: invocation.provider, index: arg0 as usize, base_revision: arg1 }), ..mid2[c as int] }),
                            None => mid2,
                        })
                    }
                } else if is_authority(iface, "quartz.repository"@, "mutation-authority"@) {
                    if arg1 > usize::MAX || ci is None {
                        r == -(STATUS_INVALID as i64) && final(self).fibers@ == mid2
                    } else {
                        let cf = mid2[ci->0 as int];
                        let workspaces = old(self).specs@[cf.spec as int].workspaces@;
                        if arg1 >= workspaces.len() || arg0 == 0 || workspaces[arg1 as int].grant.operation != arg0 {
                            r == -(STATUS_INVALID as i64) && final(self).fibers@ == mid2
                        } else {
                            &&& r == result
                            &&& final(self).fibers@ == mid2.update(ci->0 as int, Fiber { workspace_authorization: Some(WorkspaceAuthorization {
                                provider: invocation.provider, index: arg1 as usize, operation: arg0 }), ..cf })
                        }
                    }
                } else if is_authority(iface, "quartz.repository"@, "promotion-authority"@) {
                    if arg1 > usize::MAX || ci is None {
                        r == -(STATUS_INVALID as i64) && final(self).fibers@ == mid2
                    } else {
                        let cf = mid2[ci->0 as int];
                        let workspaces = old(self).specs@[cf.spec as int].workspaces@;
                        if arg1 >= workspaces.len() || arg0 == 0 || workspaces[arg1 as int].grant.operation != arg0
                            || last_workspace_inverse(cf.accumulator@, workspaces[arg1 as int].grant) is None {
                            r == -(STATUS_INVALID as i64) && final(self).fibers@ == mid2
                        } else {
                            &&& r == result
                            &&& final(self).fibers@[ci->0 as int].promotion_authorization matches Some(a)
                                && a.provider == invocation.provider && a.index == arg1 && a.operation == arg0
                                && a.approver@ == approver_of(old(self).specs@[pf.spec as int])
                            &&& final(self).fibers@.len() == mid2.len()
                            &&& forall|k: int| 0 <= k < mid2.len() && k != ci->0 ==> #[trigger] final(self).fibers@[k] == mid2[k]
                            &&& final(self).fibers@[ci->0 as int] == (Fiber {
                                promotion_authorization: final(self).fibers@[ci->0 as int].promotion_authorization, ..cf })
                        }
                    }
                } else {
                    r == result && final(self).fibers@ == mid2
                }
            }),
    {
        let provider = invocation.provider;
        if authority_is(&invocation.interface, "quartz.composition", "patch-authority") {
            if arg0 > usize::MAX as u64 {
                return -(STATUS_INVALID as i64);
            }
            if let Some(c) = ci {
                self.set_patch_authorization(c, PatchAuthorization { provider, index: arg0 as usize, base_revision: arg1 });
            }
            result
        } else if authority_is(&invocation.interface, "quartz.repository", "mutation-authority") {
            if arg1 > usize::MAX as u64 {
                return -(STATUS_INVALID as i64);
            }
            let c = match ci {
                None => return -(STATUS_INVALID as i64),
                Some(c) => c,
            };
            let index = arg1 as usize;
            let spec = self.fibers[c].spec;
            if index >= self.specs[spec].workspaces.len() || arg0 == 0 || self.specs[spec].workspaces[index].grant.operation != arg0 {
                return -(STATUS_INVALID as i64);
            }
            self.set_workspace_authorization(c, WorkspaceAuthorization { provider, index, operation: arg0 });
            result
        } else if authority_is(&invocation.interface, "quartz.repository", "promotion-authority") {
            if arg1 > usize::MAX as u64 {
                return -(STATUS_INVALID as i64);
            }
            let c = match ci {
                None => return -(STATUS_INVALID as i64),
                Some(c) => c,
            };
            let index = arg1 as usize;
            let j = match self.find_fiber(provider) {
                None => return -(STATUS_INVALID as i64),
                Some(j) => j,
            };
            proof {
                lemma_first_fiber(self.fibers@, provider);
            }
            let node = &self.specs[self.fibers[j].spec];
            let mut approver = node.manifest.module.clone();
            approver.append("@");
            approver.append(node.manifest.version.as_str());
            approver.append("#");
            approver.append(node.artifact_digest.as_str());
            let spec = self.fibers[c].spec;
            if index >= self.specs[spec].workspaces.len() || arg0 == 0 || self.specs[spec].workspaces[index].grant.operation != arg0
                || find_workspace_inverse(&self.fibers[c].accumulator, &self.specs[spec].workspaces[index].grant).is_none() {
                return -(STATUS_INVALID as i64);
            }
            self.set_promotion_authorization(c, PromotionAuthorization { provider, index, operation: arg0, approver });
            result
        } else {
            result
        }
    }


    /// Returns whether fiber `i` may read the event stream with `capability`.
    fn may_read(&self, i: usize, capability: HostCapability) -> (r: bool)
        requires
            self.well_formed(),
            i < self.fibers@.len(),
        ensures
            r == may_read_events(*self, i as int, capability),
    {
        let f = &self.fibers[i];
        let calling = f.state == InternalState::Activating
            || (f.state == InternalState::Active && holds_id(&self.invoking, f.id));
        match &self.event_stream {
            None => false,
            Some(e) => calling && self.specs[f.spec].manifest.requests(capability) && has_commitment(&f.committed, e.owner),
        }
    }

    /// The host's `event-count`: the number of committed events, for a
    /// fiber that may read them; a failure is the negated status.
    pub fn host_event_count(&self, fiber: FiberId) -> (r: i64)
        requires
            self.well_formed(),
        ensures
            match first_fiber(self.fibers@, fiber) {
                None => r == -(STATUS_INVALID as i64),
                Some(i) => match self.event_stream {
                    None => r == -(STATUS_UNSATISFIED as i64),
                    Some(e) => if !may_read_events(*self, i, HostCapability::EventCount) {
                        r == -(STATUS_UNDECLARED as i64)
                    } else {
                        r == e.records@.len() as i64
                    },
                },
            },
    {
        let i = match self.find_fiber(fiber) {
            None => return -(STATUS_INVALID as i64),
            Some(i) => i,
        };
        proof {
            lemma_first_fiber(self.fibers@, fiber);
        }
        match &self.event_stream {
            None => -(STATUS_UNSATISFIED as i64),
            Some(e) => if !self.may_read(i, HostCapability::EventCount) {
                -(STATUS_UNDECLARED as i64)
            } else {
                e.records.len() as i64
            },
        }
    }

    /// Returns the position of the event `index` that fiber `fiber` reads
    /// with `capability`, or the negated status of the refusal.
    fn event_record_for_read(&self, fiber: FiberId, index: u64, capability: HostCapability) -> (r: Result<usize, i64>)
        requires
            self.well_formed(),
        ensures
            match r {
                Ok(k) => event_for_read(*self, fiber, index, capability) == Ok::<int, i64>(k as int),
                Err(e) => event_for_read(*self, fiber, index, capability) == Err::<int, i64>(e),
            },
    {
        let i = match self.find_fiber(fiber) {
            None => return Err(-(STATUS_INVALID as i64)),
            Some(i) => i,
        };
        proof {
            lemma_first_fiber(self.fibers@, fiber);
        }
        match &self.event_stream {
            None => Err(-(STATUS_UNSATISFIED as i64)),
            Some(e) => if !self.may_read(i, capability) {
                Err(-(STATUS_UNDECLARED as i64))
            } else if index > usize::MAX as u64 || index as usize >= e.records.len() {
                Err(-(STATUS_INVALID as i64))
            } else {
                Ok(index as usize)
            },
        }
    }

    /// The host's `read-event`: the value of committed event `index`; a
    /// failure is the negated status.
    pub fn host_read_event(&self, fiber: FiberId, index: u64) -> (r: i64)
        requires
            self.well_formed(),
        ensures
            match event_for_read(*self, fiber, index, HostCapability::ReadEvent) {
                Err(e) => r == e,
                Ok(k) => r == self.event_stream->0.records@[k].value as i64,
            },
    {
        match self.event_record_for_read(fiber, index, HostCapability::ReadEvent) {
            Err(e) => e,
            Ok(k) => match &self.event_stream {
                Some(stream) => stream.records[k].value as i64,
                None => -(STATUS_UNSATISFIED as i64),
            },
        }
    }

    /// The host's `event-payload-len`: the length of the payload of
    /// committed event `index`; a failure is the negated status.
    pub fn host_event_payload_len(&self, fiber: FiberId, index: u64) -> (r: i64)
        requires
            self.well_formed(),
        ensures
            match event_for_read(*self, fiber, index, HostCapability::EventPayloadLen) {
                Err(e) => r == e,
                Ok(k) => match self.event_stream->0.records@[k].payload {
                    None => r == -(STATUS_UNSATISFIED as i64),
                    Some(p) => if p.bytes@.len() > i64::MAX { r == -(STATUS_LIMIT as i64) } else { r == p.bytes@.len() as i64 },
                },
            },
    {
        match self.event_record_for_read(fiber, index, HostCapability::EventPayloadLen) {
            Err(e) => e,
            Ok(k) => match &self.event_stream {
                Some(stream) => match &stream.records[k].payload {
                    None => -(STATUS_UNSATISFIED as i64),
                    Some(p) => if p.bytes.len() as u64 > i64::MAX as u64 {
                        -(STATUS_LIMIT as i64)
                    } else {
                        p.bytes.len() as i64
                    },
                },
                None => -(STATUS_UNSATISFIED as i64),
            },
        }
    }

    /// The host's `event-payload-byte`: byte `offset` of the payload of
    /// committed event `index`; a failure is the negated status.
    pub fn host_event_payload_byte(&self, fiber: FiberId, index: u64, offset: u64) -> (r: i32)
        requires
            self.well_formed(),
        ensures
            match event_for_read(*self, fiber, index, HostCapability::EventPayloadByte) {
                Err(e) => r == e as i32,
                Ok(k) => match self.event_stream->0.records@[k].payload {
                    None => r == -STATUS_UNSATISFIED,
                    Some(p) => if offset > usize::MAX || offset >= p.bytes@.len() {
                        r == -STATUS_INVALID
                    } else {
                        r == p.bytes@[offset as int] as i32
                    },
                },
            },
    {
        match self.event_record_for_read(fiber, index, HostCapability::EventPayloadByte) {
            Err(e) => e as i32,
            Ok(k) => match &self.event_stream {
                Some(stream) => match &stream.records[k].payload {
                    None => -STATUS_UNSATISFIED,
                    Some(p) => if offset > usize::MAX as u64 || offset as usize >= p.bytes.len() {
                        -STATUS_INVALID
                    } else {
                        p.bytes[offset as usize] as i32
                    },
                },
                None => -STATUS_UNSATISFIED,
            },
        }
    }


    /// Returns whether some patch owner overlaps `target`.
    fn owned_target(&self, target: &str) -> (r: bool)
        ensures
            r == target_owned(self.patch_owners@, target.spec_bytes()),
    {
        let mut k: usize = 0;
        while k < self.patch_owners.len()
            invariant
                k <= self.patch_owners@.len(),
                forall|j: int| 0 <= j < k ==> !spec_paths_overlap(encode_utf8(#[trigger] self.patch_owners@[j].target@), target.spec_bytes()),
            decreases self.patch_owners@.len() - k,
        {
            if paths_overlap(self.patch_owners[k].target.as_str(), target) {
                return true;
            }
            k = k + 1;
        }
        false
    }

    /// Returns whether a provider fiber `i` committed to sits at `target`
    /// or below it.
    fn provides_under(&self, i: usize, target: &str) -> (r: bool)
        requires
            i < self.fibers@.len(),
        ensures
            r == provider_under(*self, self.fibers@[i as int], target.spec_bytes()),
    {
        let committed = &self.fibers[i].committed;
        let mut k: usize = 0;
        while k < committed.len()
            invariant
                i < self.fibers@.len(),
                committed == &self.fibers@[i as int].committed,
                k <= committed@.len(),
                forall|j: int| 0 <= j < k ==> !(first_fiber(self.fibers@, #[trigger] committed@[j].fiber) matches Some(m)
                    && same_or_ancestor(target.spec_bytes(), encode_utf8(self.fibers@[m].path@))),
            decreases committed@.len() - k,
        {
            match self.find_fiber(committed[k].fiber) {
                Some(m) => {
                    proof {
                        lemma_first_fiber(self.fibers@, committed@[k as int].fiber);
                    }
                    if is_same_or_ancestor(target, self.fibers[m].path.as_str()) {
                        return true;
                    }
                },
                None => {},
            }
            k = k + 1;
        }
        false
    }

    /// The host's `apply-patch`: an activating fiber that requested it,
    /// holding the authority for its patch `index` on the current
    /// composition revision from a provider it committed to, and committed
    /// to the journal's owner where a journal is open, queues the patch;
    /// unless the composition is being replayed, another patch owns an
    /// overlapping target or the fiber already queued one, or the patch
    /// would change a provider the fiber relies on. The authority is used
    /// up by the queued patch.
    pub fn host_apply_patch(&mut self, actor: FiberId, index: u64, base_revision: u64) -> (r: i32)
        requires
            old(self).well_formed(),
        ensures
            final(self).well_formed(),
            if old(self).replaying {
                r == STATUS_BUSY && *final(self) == *old(self)
            } else if index > usize::MAX {
                r == STATUS_INVALID && *final(self) == *old(self)
            } else {
                match first_fiber(old(self).fibers@, actor) {
                    None => r == STATUS_INVALID && *final(self) == *old(self),
                    Some(i) => {
                        let f = old(self).fibers@[i];
                        let targets = old(self).specs@[f.spec as int].patch_targets@;
                        if f.state != InternalState::Activating || !old(self).manifest_of(i).spec_requests(HostCapability::ApplyPatch) {
                            r == STATUS_UNDECLARED && *final(self) == *old(self)
                        } else if base_revision != old(self).composition_revision {
                            r == STATUS_STALE && *final(self) == *old(self)
                        } else if index >= targets.len() {
                            r == STATUS_UNDECLARED && *final(self) == *old(self)
                        } else if !(f.patch_authorization matches Some(a) && a.index == index && a.base_revision == base_revision
                            && commits_to(f.committed@, a.provider)) {
                            r == STATUS_DENIED && *final(self) == *old(self)
                        } else if old(self).journal_owner matches Some(o) && !commits_to(f.committed@, o) {
                            r == STATUS_UNDECLARED && *final(self) == *old(self)
                        } else if target_owned(old(self).patch_owners@, encode_utf8(targets[index as int]@))
                            || exists|k: int| 0 <= k < old(self).pending_patches@.len() && #[trigger] old(self).pending_patches@[k].actor == actor {
                            r == STATUS_BUSY && *final(self) == *old(self)
                        } else if provider_under(*old(self), f, encode_utf8(targets[index as int]@)) {
                            r == STATUS_DENIED && *final(self) == *old(self)
                        } else {
                            &&& r == STATUS_OK
                            &&& final(self).fibers@ == old(self).fibers@.update(i, Fiber { patch_authorization: None, ..f })
                            &&& final(self).pending_patches@ == old(self).pending_patches@.push(
                                PendingPatch { actor, index: index as usize, base_revision })
                            &&& *final(self) == (Core { fibers: final(self).fibers, pending_patches: final(self).pending_patches, ..*old(self) })
                        }
                    },
                }
            },
    {
        if self.replaying {
            return STATUS_BUSY;
        }
        if index > usize::MAX as u64 {
            return STATUS_INVALID;
        }
        let index = index as usize;
        let i = match self.find_fiber(actor) {
            None => return STATUS_INVALID,
            Some(i) => i,
        };
        proof {
            lemma_first_fiber(old(self).fibers@, actor);
        }
        let record = &self.fibers[i];
        let spec = record.spec;
        if record.state != InternalState::Activating || !self.specs[spec].manifest.requests(HostCapability::ApplyPatch) {
            return STATUS_UNDECLARED;
        }
        if base_revision != self.composition_revision {
            return STATUS_STALE;
        }
        if index >= self.specs[spec].patch_targets.len() {
            return STATUS_UNDECLARED;
        }
        let authorized = match record.patch_authorization {
            Some(a) => a.index == index && a.base_revision == base_revision && has_commitment(&record.committed, a.provider),
            None => false,
        };
        if !authorized {
            return STATUS_DENIED;
        }
        if let Some(o) = self.journal_owner {
            if !has_commitment(&record.committed, o) {
                return STATUS_UNDECLARED;
            }
        }
        let target = self.specs[spec].patch_targets[index].as_str();
        if self.owned_target(target) || has_pending_patch_of(&self.pending_patches, actor) {
            return STATUS_BUSY;
        }
        if self.provides_under(i, target) {
            return STATUS_DENIED;
        }
        let mut f = self.fibers.remove(i);
        f.patch_authorization = None;
        self.fibers.insert(i, f);
        self.pending_patches.push(PendingPatch { actor, index, base_revision });
        proof {
            assert(self.fibers@ =~= old(self).fibers@.update(i as int, Fiber { patch_authorization: None, ..old(self).fibers@[i as int] }));
            assert forall|k: int| 0 <= k < self.fibers@.len() implies #[trigger] self.fibers@[k].spec < self.specs@.len()
                && self.fibers@[k].workspace_buffers@.len() == self.specs@[self.fibers@[k].spec as int].workspaces@.len() by {
                if k != i {
                    assert(self.fibers@[k] == old(self).fibers@[k]);
                }
            }
        }
        STATUS_OK
    }


    /// The checks of the host's `open-journal`, before the file: an
    /// activating fiber that requested it may open its journal `index`
    /// while no journal is open; the path to open is returned.
    pub fn prepare_open_journal(&self, fiber: FiberId, index: u64) -> (r: Result<String, i32>)
        requires
            self.well_formed(),
        ensures
            if index > usize::MAX {
                r == Err::<String, i32>(STATUS_INVALID)
            } else {
                match first_fiber(self.fibers@, fiber) {
                    None => r == Err::<String, i32>(STATUS_INVALID),
                    Some(i) => {
                        let paths = self.specs@[self.fibers@[i].spec as int].journal_paths@;
                        if self.fibers@[i].state != InternalState::Activating {
                            r == Err::<String, i32>(STATUS_INVALID)
                        } else if !self.manifest_of(i).spec_requests(HostCapability::OpenJournal) || index >= paths.len() {
                            r == Err::<String, i32>(STATUS_UNDECLARED)
                        } else if self.journal_owner is Some {
                            r == Err::<String, i32>(STATUS_COLLISION)
                        } else {
                            r == Ok::<String, i32>(paths[index as int])
                        }
                    },
                }
            },
    {
        if index > usize::MAX as u64 {
            return Err(STATUS_INVALID);
        }
        let index = index as usize;
        let i = match self.find_fiber(fiber) {
            None => return Err(STATUS_INVALID),
            Some(i) => i,
        };
        proof {
            lemma_first_fiber(self.fibers@, fiber);
        }
        let spec = &self.specs[self.fibers[i].spec];
        if self.fibers[i].state != InternalState::Activating {
            return Err(STATUS_INVALID);
        }
        if !spec.manifest.requests(HostCapability::OpenJournal) || index >= spec.journal_paths.len() {
            return Err(STATUS_UNDECLARED);
        }
        if self.journal_owner.is_some() {
            return Err(STATUS_COLLISION);
        }
        Ok(spec.journal_paths[index].clone())
    }

    /// The rest of the host's `open-journal`, once the journal is open: the
    /// fiber owns it and holds its closing as the inverse.
    pub fn record_open_journal(&mut self, fiber: FiberId) -> (r: i32)
        requires
            old(self).well_formed(),
            old(self).next_effect < u64::MAX,
            first_fiber(old(self).fibers@, fiber) is Some,
        ensures
            final(self).well_formed(),
            r == STATUS_OK,
            final(self).journal_owner == Some(fiber),
            effect_taken(*old(self), *final(self), first_fiber(old(self).fibers@, fiber)->0,
                Inverse::CloseJournal { effect: old(self).next_effect }, "composition-journal"@),
            *final(self) == (Core { fibers: final(self).fibers, next_effect: final(self).next_effect, trace: final(self).trace,
                journal_owner: final(self).journal_owner, ..*old(self) }),
    {
        let i = match self.find_fiber(fiber) {
            Some(i) => i,
            None => return STATUS_OK,
        };
        proof {
            lemma_first_fiber(old(self).fibers@, fiber);
        }
        let effect = self.allocate_effect();
        self.journal_owner = Some(fiber);
        self.push_inverse(i, Inverse::CloseJournal { effect });
        self.trace.push(TraceEvent::EffectApplied { fiber, effect, kind: "composition-journal".to_string() });
        proof {
            assert(self.trace@.drop_last() =~= old(self).trace@);
            assert(self.fibers@[i as int].accumulator@.drop_last() =~= old(self).fibers@[i as int].accumulator@);
            assert forall|k: int| 0 <= k < self.fibers@.len() implies #[trigger] self.fibers@[k].spec < self.specs@.len()
                && self.fibers@[k].workspace_buffers@.len() == self.specs@[self.fibers@[k].spec as int].workspaces@.len() by {
                if k != i {
                    assert(self.fibers@[k] == old(self).fibers@[k]);
                }
            }
        }
        STATUS_OK
    }

    /// The checks of the host's `open-event-stream`, before the file: an
    /// activating fiber that requested it may open its event stream
    /// `index` while no stream is open; the path to open is returned.
    pub fn prepare_open_event_stream(&self, fiber: FiberId, index: u64) -> (r: Result<String, i32>)
        requires
            self.well_formed(),
        ensures
            if index > usize::MAX {
                r == Err::<String, i32>(STATUS_INVALID)
            } else {
                match first_fiber(self.fibers@, fiber) {
                    None => r == Err::<String, i32>(STATUS_INVALID),
                    Some(i) => {
                        let paths = self.specs@[self.fibers@[i].spec as int].event_stream_paths@;
                        if self.fibers@[i].state != InternalState::Activating
                            || !self.manifest_of(i).spec_requests(HostCapability::OpenEventStream) || index >= paths.len() {
                            r == Err::<String, i32>(STATUS_UNDECLARED)
                        } else if self.event_stream is Some {
                            r == Err::<String, i32>(STATUS_COLLISION)
                        } else {
                            r == Ok::<String, i32>(paths[index as int])
                        }
                    },
                }
            },
    {
        if index > usize::MAX as u64 {
            return Err(STATUS_INVALID);
        }
        let index = index as usize;
        let i = match self.find_fiber(fiber) {
            None => return Err(STATUS_INVALID),
            Some(i) => i,
        };
        proof {
            lemma_first_fiber(self.fibers@, fiber);
        }
        let spec = &self.specs[self.fibers[i].spec];
        if self.fibers[i].state != InternalState::Activating || !spec.manifest.requests(HostCapability::OpenEventStream)
            || index >= spec.event_stream_paths.len() {
            return Err(STATUS_UNDECLARED);
        }
        if self.event_stream.is_some() {
            return Err(STATUS_COLLISION);
        }
        Ok(spec.event_stream_paths[index].clone())
    }

    /// The rest of the host's `open-event-stream`, once the stream is open
    /// with these records and its next event identity: event identities
    /// continue from the larger of the two counters, the fiber owns the
    /// stream and holds its closing as the inverse.
    pub fn record_open_event_stream(&mut self, fiber: FiberId, records: Vec<EventRecord>, next_id: u64) -> (r: i32)
        requires
            old(self).well_formed(),
            old(self).next_effect < u64::MAX,
            first_fiber(old(self).fibers@, fiber) is Some,
        ensures
            final(self).well_formed(),
            r == STATUS_OK,
            final(self).next_event_id == (if old(self).next_event_id >= next_id { old(self).next_event_id } else { next_id }),
            final(self).event_stream == Some(EventStreamRegistration { owner: fiber, records }),
            effect_taken(*old(self), *final(self), first_fiber(old(self).fibers@, fiber)->0,
                Inverse::CloseEventStream { effect: old(self).next_effect }, "event-stream"@),
            *final(self) == (Core { fibers: final(self).fibers, next_effect: final(self).next_effect, trace: final(self).trace,
                event_stream: final(self).event_stream, next_event_id: final(self).next_event_id, ..*old(self) }),
    {
        let i = match self.find_fiber(fiber) {
            Some(i) => i,
            None => return STATUS_OK,
        };
        proof {
            lemma_first_fiber(old(self).fibers@, fiber);
        }
        if next_id > self.next_event_id {
            self.next_event_id = next_id;
        }
        let effect = self.allocate_effect();
        self.event_stream = Some(EventStreamRegistration { owner: fiber, records });
        self.push_inverse(i, Inverse::CloseEventStream { effect });
        self.trace.push(TraceEvent::EffectApplied { fiber, effect, kind: "event-stream".to_string() });
        proof {
            assert(self.trace@.drop_last() =~= old(self).trace@);
            assert(self.fibers@[i as int].accumulator@.drop_last() =~= old(self).fibers@[i as int].accumulator@);
            assert forall|k: int| 0 <= k < self.fibers@.len() implies #[trigger] self.fibers@[k].spec < self.specs@.len()
                && self.fibers@[k].workspace_buffers@.len() == self.specs@[self.fibers@[k].spec as int].workspaces@.len() by {
                if k != i {
                    assert(self.fibers@[k] == old(self).fibers@[k]);
                }
            }
        }
        STATUS_OK
    }


    /// The host's `snapshot-len`: an activating fiber that requested
    /// snapshot reads learns the length of its snapshot `index`; a failure
    /// is the negated status.
    pub fn host_snapshot_len(&self, fiber: FiberId, index: u64) -> (r: i64)
        requires
            self.well_formed(),
        ensures
            match first_fiber(self.fibers@, fiber) {
                None => r == -(STATUS_INVALID as i64),
                Some(i) => {
                    let snapshots = self.specs@[self.fibers@[i].spec as int].snapshots@;
                    if self.fibers@[i].state != InternalState::Activating
                        || !self.manifest_of(i).spec_requests(HostCapability::ReadSnapshot) {
                        r == -(STATUS_UNDECLARED as i64)
                    } else if index > usize::MAX {
                        r == -(STATUS_INVALID as i64)
                    } else if index >= snapshots.len() {
                        r == -(STATUS_UNDECLARED as i64)
                    } else {
                        r == snapshots[index as int].bytes@.len() as i64
                    }
                },
            },
    {
        let i = match self.find_fiber(fiber) {
            None => return -(STATUS_INVALID as i64),
            Some(i) => i,
        };
        proof {
            lemma_first_fiber(self.fibers@, fiber);
        }
        let spec = &self.specs[self.fibers[i].spec];
        if self.fibers[i].state != InternalState::Activating || !spec.manifest.requests(HostCapability::ReadSnapshot) {
            return -(STATUS_UNDECLARED as i64);
        }
        if index > usize::MAX as u64 {
            return -(STATUS_INVALID as i64);
        }
        let index = index as usize;
        if index >= spec.snapshots.len() {
            return -(STATUS_UNDECLARED as i64);
        }
        spec.snapshots[index].bytes.len() as i64
    }

    /// The host's `snapshot-byte`: an activating fiber that requested
    /// snapshot reads reads byte `offset` of its snapshot `index`; a failure
    /// is the negated status.
    pub fn host_snapshot_byte(&self, fiber: FiberId, index: u64, offset: u64) -> (r: i32)
        requires
            self.well_formed(),
        ensures
            match first_fiber(self.fibers@, fiber) {
                None => r == -STATUS_INVALID,
                Some(i) => {
                    let snapshots = self.specs@[self.fibers@[i].spec as int].snapshots@;
                    if self.fibers@[i].state != InternalState::Activating
                        || !self.manifest_of(i).spec_requests(HostCapability::ReadSnapshot) {
                        r == -STATUS_UNDECLARED
                    } else if index > usize::MAX || offset > usize::MAX || index >= snapshots.len()
                        || offset >= snapshots[index as int].bytes@.len() {
                        r == -STATUS_INVALID
                    } else {
                        r == snapshots[index as int].bytes@[offset as int] as i32
                    }
                },
            },
    {
        let i = match self.find_fiber(fiber) {
            None => return -STATUS_INVALID,
            Some(i) => i,
        };
        proof {
            lemma_first_fiber(self.fibers@, fiber);
        }
        let spec = &self.specs[self.fibers[i].spec];
        if self.fibers[i].state != InternalState::Activating || !spec.manifest.requests(HostCapability::ReadSnapshot) {
            return -STATUS_UNDECLARED;
        }
        if index > usize::MAX as u64 || offset > usize::MAX as u64 {
            return -STATUS_INVALID;
        }
        let (index, offset) = (index as usize, offset as usize);
        if index >= spec.snapshots.len() || offset >= spec.snapshots[index].bytes.len() {
            return -STATUS_INVALID;
        }
        spec.snapshots[index].bytes[offset] as i32
    }


    /// The checks of the host's `exchange`, before the ledger and the
    /// adapter: a fiber that requested it, activating or active within a
    /// call, with its exchange ledger open and committed to the event
    /// stream's owner, sends the payload of committed event `event_index`,
    /// which must be a request its grant admits, through an adapter the
    /// host offers. Invocation zero is invalid; a refusal is the negated
    /// status.
    pub fn prepare_exchange(&self, fiber: FiberId, event_index: u64, invocation: u64) -> (r: Result<ExchangeCall, i64>)
        requires
            self.well_formed(),
        ensures
            if invocation == 0 || event_index > usize::MAX {
                r == Err::<ExchangeCall, i64>((-(STATUS_INVALID as i64)) as i64)
            } else {
                match first_fiber(self.fibers@, fiber) {
                    None => r == Err::<ExchangeCall, i64>((-(STATUS_INVALID as i64)) as i64),
                    Some(i) => {
                        let f = self.fibers@[i];
                        if !(f.state == InternalState::Activating || (f.state == InternalState::Active && self.invoking@.contains(fiber)))
                            || !self.manifest_of(i).spec_requests(HostCapability::Exchange) {
                            r == Err::<ExchangeCall, i64>((-(STATUS_UNDECLARED as i64)) as i64)
                        } else if !(self.exchange matches Some(x) && x.owner == fiber) || self.event_stream is None
                            || !commits_to(f.committed@, self.event_stream->0.owner) {
                            r == Err::<ExchangeCall, i64>((-(STATUS_UNSATISFIED as i64)) as i64)
                        } else {
                            let records = self.event_stream->0.records@;
                            let grant = self.exchange->0.grant;
                            if event_index >= records.len() || records[event_index as int].payload is None {
                                r == Err::<ExchangeCall, i64>((-(STATUS_INVALID as i64)) as i64)
                            } else {
                                let request = records[event_index as int].payload->0.bytes@;
                                if !request_ok(request, grant.max_request_bytes) {
                                    r == Err::<ExchangeCall, i64>((-(STATUS_LIMIT as i64)) as i64)
                                } else if !offers_adapter(self.exchange_adapters@, grant.adapter@) {
                                    r == Err::<ExchangeCall, i64>((-(STATUS_DENIED as i64)) as i64)
                                } else {
                                    r matches Ok(call) && call.request@ == request && call.request_sha256@ == spec_sha256_hex(request)
                                        && call.grant == grant
                                }
                            }
                        }
                    },
                }
            },
    {
        if invocation == 0 || event_index > usize::MAX as u64 {
            return Err(-(STATUS_INVALID as i64));
        }
        let event_index = event_index as usize;
        let i = match self.find_fiber(fiber) {
            None => return Err(-(STATUS_INVALID as i64)),
            Some(i) => i,
        };
        proof {
            lemma_first_fiber(self.fibers@, fiber);
        }
        let f = &self.fibers[i];
        let calling = f.state == InternalState::Activating || (f.state == InternalState::Active && holds_id(&self.invoking, fiber));
        if !calling || !self.specs[f.spec].manifest.requests(HostCapability::Exchange) {
            return Err(-(STATUS_UNDECLARED as i64));
        }
        let registration = match &self.exchange {
            Some(x) => if x.owner == fiber { x } else { return Err(-(STATUS_UNSATISFIED as i64)) },
            None => return Err(-(STATUS_UNSATISFIED as i64)),
        };
        let stream = match &self.event_stream {
            Some(e) => e,
            None => return Err(-(STATUS_UNSATISFIED as i64)),
        };
        if !has_commitment(&f.committed, stream.owner) {
            return Err(-(STATUS_UNSATISFIED as i64));
        }
        if event_index >= stream.records.len() {
            return Err(-(STATUS_INVALID as i64));
        }
        let payload = match &stream.records[event_index].payload {
            Some(p) => p,
            None => return Err(-(STATUS_INVALID as i64)),
        };
        if check_request(payload.bytes.as_slice(), registration.grant.max_request_bytes).is_err() {
            return Err(-(STATUS_LIMIT as i64));
        }
        if !has_adapter(&self.exchange_adapters, &registration.grant.adapter) {
            return Err(-(STATUS_DENIED as i64));
        }
        let g = &registration.grant;
        Ok(ExchangeCall {
            request: copy_bytes(&payload.bytes),
            request_sha256: sha256_hex(payload.bytes.as_slice()),
            grant: ExchangeGrant {
                adapter: g.adapter.clone(),
                ledger_path: g.ledger_path.clone(),
                max_request_bytes: g.max_request_bytes,
                max_response_bytes: g.max_response_bytes,
                timeout_ms: g.timeout_ms,
            },
        })
    }

    /// Hands a recorded exchange outcome to fiber `fiber`: a success stages
    /// its payload and usage for the fiber's caller and returns the usage;
    /// a started exchange is ambiguous and a failure returns its status,
    /// negated, as does a missing fiber.
    pub fn stage_exchange_outcome(&mut self, fiber: FiberId, outcome: ExchangeLedgerOutcome) -> (r: i64)
        requires
            old(self).well_formed(),
        ensures
            final(self).well_formed(),
            match outcome {
                ExchangeLedgerOutcome::Succeeded { payload, usage } => match first_fiber(old(self).fibers@, fiber) {
                    None => r == -(STATUS_INVALID as i64) && *final(self) == *old(self),
                    Some(i) => {
                        &&& r == usage as i64
                        &&& final(self).fibers@ == old(self).fibers@.update(i,
                            Fiber { staged_response: Some(payload), staged_usage: Some(usage), ..old(self).fibers@[i] })
                        &&& *final(self) == (Core { fibers: final(self).fibers, ..*old(self) })
                    },
                },
                _ => r == spec_exchange_result(outcome) && *final(self) == *old(self),
            },
    {
        let result = exchange_result(&outcome);
        match outcome {
            ExchangeLedgerOutcome::Succeeded { payload, usage } => {
                let i = match self.find_fiber(fiber) {
                    None => return -(STATUS_INVALID as i64),
                    Some(i) => i,
                };
                proof {
                    lemma_first_fiber(old(self).fibers@, fiber);
                }
                let mut f = self.fibers.remove(i);
                f.staged_response = Some(payload);
                f.staged_usage = Some(usage);
                self.fibers.insert(i, f);
                proof {
                    assert(self.fibers@ =~= old(self).fibers@.update(i as int,
                        Fiber { staged_response: Some(payload), staged_usage: Some(usage), ..old(self).fibers@[i as int] }));
                    assert forall|k: int| 0 <= k < self.fibers@.len() implies #[trigger] self.fibers@[k].spec < self.specs@.len()
                        && self.fibers@[k].workspace_buffers@.len() == self.specs@[self.fibers@[k].spec as int].workspaces@.len() by {
                        if k != i {
                            assert(self.fibers@[k] == old(self).fibers@[k]);
                        }
                    }
                }
                result
            },
            _ => result,
        }
    }

}


/// What became of the oldest pending patch request.
#[derive(Debug, PartialEq, Eq)]
pub enum PatchRequestFate {
    /// No request was pending.
    Empty,
    /// The requesting fiber no longer exists.
    Vanished,
    /// The requester's activation did not commit; the request was dropped.
    Cancelled,
    /// The composition moved on, or the patch is not among the requester's;
    /// the requester was failed.
    Stale,
    /// Patch `index` of fiber `actor` is to be applied.
    Ready { actor: FiberId, index: usize },
}

/// The fiber record after a patch of its was rejected with `error`: the
/// outcome is recorded, and a live fiber starts unloading.
pub open spec fn rejected_fiber(f: Fiber, error: String) -> Fiber {
    Fiber {
        outcome: Some(error),
        state: if f.state == InternalState::Activating || f.state == InternalState::Active {
            InternalState::Unloading
        } else {
            f.state
        },
        ..f
    }
}

/// `ev` records that a patch of `actor` on `target` was rejected with `error`.
pub open spec fn is_patch_rejected(ev: TraceEvent, actor: FiberId, target: Seq<char>, error: Seq<char>) -> bool {
    ev matches TraceEvent::PatchRejected { actor: a, target: t, error: e } && a == actor && t@ == target && e@ == error
}

/// `after` is `before` once a patch of `actor` on `target` was rejected
/// with `error`: the actor, if it exists, records the error as its outcome
/// and, if live, starts unloading; the trace records the rejection and the
/// actor's unavailability.
pub open spec fn patch_rejection(before: Core, after: Core, actor: FiberId, target: Seq<char>, error: Seq<char>) -> bool {
    let n = before.trace@.len();
    match first_fiber(before.fibers@, actor) {
        None => {
            &&& after.trace@.len() == n + 1
            &&& after.trace@.take(n as int) == before.trace@
            &&& is_patch_rejected(after.trace@[n as int], actor, target, error)
            &&& after == (Core { trace: after.trace, ..before })
        },
        Some(i) => {
            let f = before.fibers@[i];
            let g = after.fibers@[i];
            let live = f.state == InternalState::Activating || f.state == InternalState::Active;
            &&& g.outcome matches Some(e) && e@ == error && g == rejected_fiber(f, e)
            &&& after.fibers@ == before.fibers@.update(i, g)
            &&& after.trace@.len() == n + if live { 2nat } else { 1nat }
            &&& after.trace@.take(n as int) == before.trace@
            &&& is_patch_rejected(after.trace@[n as int], actor, target, error)
            &&& live ==> after.trace@.last() == (TraceEvent::FiberUnavailable { fiber: actor, path: f.path })
            &&& after == (Core { fibers: after.fibers, trace: after.trace, ..before })
        },
    }
}

impl Core {
    /// Rejects a patch that fiber `actor` requested on `target` with
    /// `error`: the actor's outcome becomes the error and a live actor
    /// starts unloading and becomes unavailable.
    pub fn reject_patch(&mut self, actor: FiberId, target: String, error: String)
        requires
            old(self).well_formed(),
        ensures
            final(self).well_formed(),
            patch_rejection(*old(self), *final(self), actor, target@, error@),
    {
        match self.find_fiber(actor) {
            None => {
                self.trace.push(TraceEvent::PatchRejected { actor, target, error });
                assert(self.trace@.take(old(self).trace@.len() as int) =~= old(self).trace@);
            },
            Some(i) => {
                proof {
                    lemma_first_fiber(old(self).fibers@, actor);
                }
                let mut f = self.fibers.remove(i);
                f.outcome = Some(error.clone());
                let live = f.state == InternalState::Activating || f.state == InternalState::Active;
                if live {
                    f.state = InternalState::Unloading;
                }
                let path = f.path.clone();
                self.fibers.insert(i, f);
                self.trace.push(TraceEvent::PatchRejected { actor, target, error });
                if live {
                    self.trace.push(TraceEvent::FiberUnavailable { fiber: actor, path });
                }
                proof {
                    let n = old(self).trace@.len();
                    assert(self.trace@.take(n as int) =~= old(self).trace@);
                    assert(self.fibers@ =~= old(self).fibers@.update(i as int, rejected_fiber(old(self).fibers@[i as int], error)));
                    assert forall|k: int| 0 <= k < self.fibers@.len() implies #[trigger] self.fibers@[k].spec < self.specs@.len()
                        && self.fibers@[k].workspace_buffers@.len() == self.specs@[self.fibers@[k].spec as int].workspaces@.len() by {
                        if k != i {
                            assert(self.fibers@[k] == old(self).fibers@[k]);
                        }
                    }
                }
            },
        }
    }
}


/// The rejection of a request whose requester did not commit.
pub open spec fn uncommitted_text() -> Seq<char> {
    "requester activation did not commit"@
}

/// The rejection of a request the composition outran.
pub open spec fn stale_text() -> Seq<char> {
    "patch request became stale or unavailable"@
}

/// The target of patch `index` of a prepared spec, or the empty path.
pub open spec fn requested_target(targets: Seq<String>, index: usize) -> Seq<char> {
    if index < targets.len() { targets[index as int]@ } else { Seq::empty() }
}

impl Core {
    /// Takes the oldest pending patch request and decides its fate before
    /// any composition work: a request of a fiber that no longer exists is
    /// dropped; one whose requester is not live or already has an outcome is
    /// rejected without failing anyone; one made against an older
    /// composition revision, or for a patch the requester does not hold,
    /// fails the requester; any other is ready to apply.
    pub fn take_pending_patch(&mut self) -> (r: PatchRequestFate)
        requires
            old(self).well_formed(),
        ensures
            final(self).well_formed(),
            old(self).pending_patches@.len() == 0 ==> r == PatchRequestFate::Empty && *final(self) == *old(self),
            old(self).pending_patches@.len() > 0 ==> {
                let req = old(self).pending_patches@[0];
                let popped = Core { pending_patches: final(self).pending_patches, ..*old(self) };
                &&& final(self).pending_patches@ == old(self).pending_patches@.drop_first()
                &&& match first_fiber(old(self).fibers@, req.actor) {
                    None => r == PatchRequestFate::Vanished && *final(self) == popped,
                    Some(i) => {
                        let f = old(self).fibers@[i];
                        let targets = old(self).specs@[f.spec as int].patch_targets@;
                        if !(f.state == InternalState::Activating || f.state == InternalState::Active) || f.outcome is Some {
                            &&& r == PatchRequestFate::Cancelled
                            &&& final(self).trace@.len() == old(self).trace@.len() + 1
                            &&& final(self).trace@.drop_last() == old(self).trace@
                            &&& is_patch_rejected(final(self).trace@.last(), req.actor, requested_target(targets, req.index), uncommitted_text())
                            &&& *final(self) == (Core { trace: final(self).trace, ..popped })
                        } else if req.base_revision != old(self).composition_revision || req.index >= targets.len() {
                            &&& r == PatchRequestFate::Stale
                            &&& patch_rejection(popped, *final(self), req.actor, Seq::empty(), stale_text())
                        } else {
                            r == (PatchRequestFate::Ready { actor: req.actor, index: req.index }) && *final(self) == popped
                        }
                    },
                }
            },
    {
        if self.pending_patches.len() == 0 {
            return PatchRequestFate::Empty;
        }
        let req = self.pending_patches.remove(0);
        proof {
            assert(self.pending_patches@ =~= old(self).pending_patches@.drop_first());
        }
        let i = match self.find_fiber(req.actor) {
            None => return PatchRequestFate::Vanished,
            Some(i) => i,
        };
        proof {
            lemma_first_fiber(old(self).fibers@, req.actor);
        }
        let spec = self.fibers[i].spec;
        let live = self.fibers[i].state == InternalState::Activating || self.fibers[i].state == InternalState::Active;
        if !live || self.fibers[i].outcome.is_some() {
            let targets = &self.specs[spec].patch_targets;
            let target = if req.index < targets.len() {
                targets[req.index].clone()
            } else {
                String::new()
            };
            let error = String::from_str("requester activation did not commit");
            self.trace.push(TraceEvent::PatchRejected { actor: req.actor, target, error });
            proof {
                assert(self.trace@.drop_last() =~= old(self).trace@);
            }
            return PatchRequestFate::Cancelled;
        }
        if req.base_revision != self.composition_revision || req.index >= self.specs[spec].patch_targets.len() {
            self.reject_patch(req.actor, String::new(), String::from_str("patch request became stale or unavailable"));
            return PatchRequestFate::Stale;
        }
        PatchRequestFate::Ready { actor: req.actor, index: req.index }
    }
}


/// A commitment for `slot` exists only where some entry names `slot`.
proof fn lemma_committed_for_names(s: Seq<CommittedProvider>, slot: u64)
    requires
        committed_for(s, slot) is Some,
    ensures
        exists|k: int| 0 <= k < s.len() && (#[trigger] s[k]).slot == slot,
    decreases s.len(),
{
    if s.last().slot == slot {
        assert(s[s.len() - 1].slot == slot);
    } else {
        lemma_committed_for_names(s.drop_last(), slot);
        let k = choose|k: int| 0 <= k < s.drop_last().len() && (#[trigger] s.drop_last()[k]).slot == slot;
        assert(s[k] == s.drop_last()[k]);
    }
}

/// Two commitment lists commit every slot to the same provider.
pub open spec fn same_commitments_spec(a: Seq<CommittedProvider>, b: Seq<CommittedProvider>) -> bool {
    forall|slot: u64| #[trigger] committed_for(a, slot) == committed_for(b, slot)
}

/// Whether every slot committed in `a` is committed to the same provider
/// in `b`.
fn commitments_agree(a: &Vec<CommittedProvider>, b: &Vec<CommittedProvider>) -> (r: bool)
    ensures
        r == forall|k: int| 0 <= k < a@.len() ==> committed_for(a@, #[trigger] a@[k].slot) == committed_for(b@, a@[k].slot),
{
    let mut k: usize = 0;
    while k < a.len()
        invariant
            k <= a@.len(),
            forall|m: int| 0 <= m < k ==> committed_for(a@, #[trigger] a@[m].slot) == committed_for(b@, a@[m].slot),
        decreases a@.len() - k,
    {
        let slot = a[k].slot;
        let here = find_committed(a, slot);
        let there = find_committed(b, slot);
        let agree = match (here, there) {
            (Some(x), Some(y)) => a[x].fiber == b[y].fiber && same_interface(&a[x].interface, &b[y].interface),
            (None, None) => true,
            _ => false,
        };
        if !agree {
            assert(committed_for(a@, a@[k as int].slot) != committed_for(b@, a@[k as int].slot));
            return false;
        }
        k += 1;
    }
    true
}

/// Returns whether two commitment lists commit every slot to the same
/// provider.
pub fn same_commitments(a: &Vec<CommittedProvider>, b: &Vec<CommittedProvider>) -> (r: bool)
    ensures
        r == same_commitments_spec(a@, b@),
{
    let forward = commitments_agree(a, b);
    let backward = commitments_agree(b, a);
    proof {
        if forward && backward {
            assert forall|slot: u64| #[trigger] committed_for(a@, slot) == committed_for(b@, slot) by {
                if committed_for(a@, slot) is Some {
                    lemma_committed_for_names(a@, slot);
                    let k = choose|k: int| 0 <= k < a@.len() && (#[trigger] a@[k]).slot == slot;
                    assert(committed_for(a@, a@[k].slot) == committed_for(b@, a@[k].slot));
                } else if committed_for(b@, slot) is Some {
                    lemma_committed_for_names(b@, slot);
                    let k = choose|k: int| 0 <= k < b@.len() && (#[trigger] b@[k]).slot == slot;
                    assert(committed_for(b@, b@[k].slot) == committed_for(a@, b@[k].slot));
                }
            }
        }
        if !forward {
            let k = choose|k: int| 0 <= k < a@.len() && committed_for(a@, #[trigger] a@[k].slot) != committed_for(b@, a@[k].slot);
            assert(committed_for(a@, a@[k].slot) != committed_for(b@, a@[k].slot));
        }
        if !backward {
            let k = choose|k: int| 0 <= k < b@.len() && committed_for(b@, #[trigger] b@[k].slot) != committed_for(a@, b@[k].slot);
            assert(committed_for(b@, b@[k].slot) != committed_for(a@, b@[k].slot));
        }
    }
    forward && backward
}


/// At most one binding entry serves an injected binding.
proof fn lemma_serves_unique(c: Core, required: crate::manifest::RequiredBinding, require_active: bool, j1: int, j2: int)
    requires
        serves(c, required, require_active, j1),
        serves(c, required, require_active, j2),
    ensures
        j1 == j2,
{
    assert(can_serve(c, required, require_active, j1));
    assert(can_serve(c, required, require_active, j2));
    assert(c.bindings@[j1].interface@ == c.bindings@[j2].interface@);
    if j1 < j2 {
        assert(c.bindings@[j2].interface@ != c.bindings@[j1].interface@);
    } else if j2 < j1 {
        assert(c.bindings@[j1].interface@ != c.bindings@[j2].interface@);
    }
}

/// The active provider that serves `required`, by its interface's value.
pub open spec fn serving_provider(c: Core, required: crate::manifest::RequiredBinding) -> Option<(FiberId, InterfaceIdView)> {
    if exists|j: int| serves(c, required, true, j) {
        let j = choose|j: int| serves(c, required, true, j);
        Some((c.bindings@[j].fiber, c.bindings@[j].interface@))
    } else {
        None
    }
}

/// The provider that a specification injecting `inject` would commit to
/// for `slot` now: that of the last injected binding on the slot.
pub open spec fn target_slot(c: Core, inject: Seq<crate::manifest::RequiredBinding>, slot: u64) -> Option<(FiberId, InterfaceIdView)>
    decreases inject.len(),
{
    if inject.len() == 0 {
        None
    } else if inject.last().slot == slot {
        serving_provider(c, inject.last())
    } else {
        target_slot(c, inject.drop_last(), slot)
    }
}

proof fn lemma_target_commitments(c: Core, inject: Seq<crate::manifest::RequiredBinding>, t: Seq<CommittedProvider>)
    requires
        t.len() == inject.len(),
        forall|k: int| 0 <= k < inject.len() ==> #[trigger] provides_for(c, inject[k], true, t[k]),
    ensures
        forall|slot: u64| #[trigger] committed_for(t, slot) == target_slot(c, inject, slot),
    decreases inject.len(),
{
    if inject.len() > 0 {
        let n = inject.len() - 1;
        assert forall|k: int| 0 <= k < inject.drop_last().len() implies #[trigger] provides_for(c, inject.drop_last()[k], true, t.drop_last()[k]) by {
            assert(provides_for(c, inject[k], true, t[k]));
        }
        lemma_target_commitments(c, inject.drop_last(), t.drop_last());
        assert(provides_for(c, inject[n], true, t[n]));
        let j = choose|j: int| serves(c, inject[n], true, j) && t[n].fiber == c.bindings@[j].fiber && t[n].interface == c.bindings@[j].interface;
        let jc = choose|j: int| serves(c, inject[n], true, j);
        lemma_serves_unique(c, inject[n], true, j, jc);
        assert forall|slot: u64| #[trigger] committed_for(t, slot) == target_slot(c, inject, slot) by {
            assert(committed_for(t.drop_last(), slot) == target_slot(c, inject.drop_last(), slot));
        }
    }
}

/// Fiber `i` would commit to other providers now than it did: it is
/// retired, an injected binding has no active provider, or a slot's
/// provider changed.
pub open spec fn out_of_step(c: Core, i: int) -> bool {
    let f = c.fibers@[i];
    let inject = c.specs@[f.spec as int].manifest.component.inject@;
    ||| f.retired
    ||| exists|k: int| 0 <= k < inject.len() && #[trigger] unserved(c, inject[k], true)
    ||| exists|slot: u64| #[trigger] committed_for(f.committed@, slot) != target_slot(c, inject, slot)
}


/// Fiber `i` is live and out of step with its providers.
pub open spec fn needs_refresh(c: Core, i: int) -> bool {
    (c.fibers@[i].state == InternalState::Active || c.fibers@[i].state == InternalState::Activating) && out_of_step(c, i)
}

impl Core {
    /// Whether live fiber `i` would commit to other providers now than it
    /// did.
    fn is_out_of_step(&self, i: usize) -> (r: bool)
        requires
            self.well_formed(),
            i < self.fibers@.len(),
        ensures
            r == out_of_step(*self, i as int),
    {
        let f = &self.fibers[i];
        if f.retired {
            return true;
        }
        let ghost inject = self.specs@[f.spec as int].manifest.component.inject@;
        match self.target_for_spec(f.spec, true) {
            None => true,
            Some(t) => {
                proof {
                    assert forall|k: int| 0 <= k < inject.len() implies !#[trigger] unserved(*self, inject[k], true) by {
                        assert(provides_for(*self, inject[k], true, t@[k]));
                        let j = choose|j: int| serves(*self, inject[k], true, j) && t@[k].fiber == self.bindings@[j].fiber
                            && t@[k].interface == self.bindings@[j].interface;
                        assert(can_serve(*self, inject[k], true, j));
                    }
                    lemma_target_commitments(*self, inject, t@);
                }
                let same = same_commitments(&t, &f.committed);
                proof {
                    if same {
                        assert forall|slot: u64| #[trigger] committed_for(f.committed@, slot) == target_slot(*self, inject, slot) by {
                            assert(committed_for(t@, slot) == committed_for(f.committed@, slot));
                        }
                    } else {
                        let slot = choose|slot: u64| #[trigger] committed_for(t@, slot) != committed_for(f.committed@, slot);
                        assert(committed_for(f.committed@, slot) != target_slot(*self, inject, slot));
                    }
                }
                !same
            },
        }
    }

    /// One step of reconciling commitments: the first live fiber that would
    /// commit to other providers now than it did starts unloading and is
    /// reported unavailable. Returns whether there was one.
    pub fn refresh_one(&mut self) -> (r: bool)
        requires
            old(self).well_formed(),
        ensures
            final(self).well_formed(),
            r == exists|i: int| 0 <= i < old(self).fibers@.len() && #[trigger] needs_refresh(*old(self), i),
            !r ==> *final(self) == *old(self),
            r ==> exists|i: int| 0 <= i < old(self).fibers@.len() && #[trigger] needs_refresh(*old(self), i)
                && (forall|j: int| 0 <= j < i ==> !needs_refresh(*old(self), j))
                && final(self).fibers@ == old(self).fibers@.update(i, Fiber { state: InternalState::Unloading, ..old(self).fibers@[i] })
                && final(self).trace@ == old(self).trace@.push(
                    TraceEvent::FiberUnavailable { fiber: old(self).fibers@[i].id, path: old(self).fibers@[i].path })
                && *final(self) == (Core { fibers: final(self).fibers, trace: final(self).trace, ..*old(self) }),
            r ==> live_count(final(self).fibers@) + 1 == live_count(old(self).fibers@),
    {
        let mut i: usize = 0;
        while i < self.fibers.len()
            invariant
                *self == *old(self),
                self.well_formed(),
                i <= self.fibers@.len(),
                forall|j: int| 0 <= j < i ==> !#[trigger] needs_refresh(*self, j),
            decreases self.fibers@.len() - i,
        {
            let live = self.fibers[i].state == InternalState::Active || self.fibers[i].state == InternalState::Activating;
            if live && self.is_out_of_step(i) {
                assert(needs_refresh(*old(self), i as int));
                let mut f = self.fibers.remove(i);
                f.state = InternalState::Unloading;
                let id = f.id;
                let path = f.path.clone();
                self.fibers.insert(i, f);
                self.trace.push(TraceEvent::FiberUnavailable { fiber: id, path });
                proof {
                    assert(self.fibers@ =~= old(self).fibers@.update(i as int, Fiber { state: InternalState::Unloading, ..old(self).fibers@[i as int] }));
                    lemma_refresh_progress(old(self).fibers@, i as int);
                    assert forall|k: int| 0 <= k < self.fibers@.len() implies #[trigger] self.fibers@[k].spec < self.specs@.len()
                        && self.fibers@[k].workspace_buffers@.len() == self.specs@[self.fibers@[k].spec as int].workspaces@.len() by {
                        if k != i {
                            assert(self.fibers@[k] == old(self).fibers@[k]);
                        }
                    }
                }
                return true;
            }
            assert(!needs_refresh(*self, i as int));
            i += 1;
        }
        false
    }
}


/// Fiber `i` is the first at `path`.
pub open spec fn first_at_path(fibers: Seq<Fiber>, path: Seq<char>, i: int) -> bool {
    &&& 0 <= i < fibers.len()
    &&& fibers[i].path@ == path
    &&& forall|j: int| 0 <= j < i ==> #[trigger] fibers[j].path@ != path
}

/// `s` is the public state of fiber `f`.
pub open spec fn reports_state(f: Fiber, s: FiberState) -> bool {
    match f.state {
        InternalState::Inactive => s == FiberState::Inactive,
        InternalState::Activating => s == FiberState::Activating,
        InternalState::Active => s == FiberState::Active,
        InternalState::Unloading => s == FiberState::Unloading,
        InternalState::Failed => s matches FiberState::Failed(m) && m@ == (match f.outcome {
            Some(o) => o@,
            None => "unknown failure"@,
        }),
    }
}

impl Core {
    /// The position of the first fiber at `path`.
    fn find_path(&self, path: &str) -> (r: Option<usize>)
        ensures
            match r {
                Some(i) => first_at_path(self.fibers@, path@, i as int),
                None => forall|j: int| 0 <= j < self.fibers@.len() ==> #[trigger] self.fibers@[j].path@ != path@,
            },
    {
        let mut i: usize = 0;
        while i < self.fibers.len()
            invariant
                i <= self.fibers@.len(),
                forall|j: int| 0 <= j < i ==> #[trigger] self.fibers@[j].path@ != path@,
            decreases self.fibers@.len() - i,
        {
            if same_str(self.fibers[i].path.as_str(), path) {
                return Some(i);
            }
            i += 1;
        }
        None
    }

    /// The fiber holding the identity of the first fiber at `path`.
    fn fiber_at(&self, path: &str) -> (r: Option<usize>)
        ensures
            match r {
                Some(k) => k < self.fibers@.len()
                    && exists|i: int| first_at_path(self.fibers@, path@, i) && first_fiber(self.fibers@, self.fibers@[i].id) == Some(k as int),
                None => forall|j: int| 0 <= j < self.fibers@.len() ==> #[trigger] self.fibers@[j].path@ != path@,
            },
    {
        let i = match self.find_path(path) {
            None => return None,
            Some(i) => i,
        };
        let id = self.fibers[i].id;
        proof {
            lemma_first_fiber(self.fibers@, id);
        }
        let k = self.find_fiber(id);
        assert(k is Some);
        k
    }

    /// The public state of the fiber at `path`, if there is one.
    pub fn fiber_state(&self, path: &str) -> (r: Option<FiberState>)
        ensures
            match r {
                Some(s) => exists|i: int| first_at_path(self.fibers@, path@, i)
                    && (first_fiber(self.fibers@, self.fibers@[i].id) matches Some(k) && reports_state(self.fibers@[k], s)),
                None => forall|j: int| 0 <= j < self.fibers@.len() ==> #[trigger] self.fibers@[j].path@ != path@,
            },
    {
        match self.fiber_at(path) {
            None => None,
            Some(k) => Some(self.fibers[k].public_state()),
        }
    }

    /// The provider the fiber at `path` committed to for `slot`, if any.
    pub fn committed_provider(&self, path: &str, slot: u64) -> (r: Option<FiberId>)
        ensures
            match r {
                Some(p) => exists|i: int| first_at_path(self.fibers@, path@, i)
                    && (first_fiber(self.fibers@, self.fibers@[i].id) matches Some(k)
                        && committed_for(self.fibers@[k].committed@, slot) matches Some(c) && c.0 == p),
                None => forall|i: int| first_at_path(self.fibers@, path@, i)
                    ==> (first_fiber(self.fibers@, self.fibers@[i].id) matches Some(k)
                        && committed_for(self.fibers@[k].committed@, slot) is None),
            },
    {
        match self.fiber_at(path) {
            None => None,
            Some(k) => match find_committed(&self.fibers[k].committed, slot) {
                None => {
                    proof {
                        assert forall|i: int| first_at_path(self.fibers@, path@, i) implies
                            (first_fiber(self.fibers@, self.fibers@[i].id) matches Some(kk)
                                && committed_for(self.fibers@[kk].committed@, slot) is None) by {
                            let i0 = choose|i0: int| first_at_path(self.fibers@, path@, i0)
                                && first_fiber(self.fibers@, self.fibers@[i0].id) == Some(k as int);
                            if i < i0 {
                                assert(self.fibers@[i].path@ != path@);
                            } else if i0 < i {
                                assert(self.fibers@[i0].path@ != path@);
                            }
                        }
                    }
                    None
                },
                Some(c) => Some(self.fibers[k].committed[c].fiber),
            },
        }
    }

    /// The active provider bound to `interface`, if any.
    pub fn provider_identity(&self, interface: &InterfaceId) -> (r: Option<FiberId>)
        ensures
            r == match bound_to(self.bindings@, interface@) {
                Some(b) => if is_active(self.fibers@, b.fiber) { Some(b.fiber) } else { None },
                None => None,
            },
    {
        let j = match find_binding(&self.bindings, interface) {
            None => return None,
            Some(j) => j,
        };
        let provider = self.bindings[j].fiber;
        proof {
            lemma_first_fiber(self.fibers@, provider);
        }
        match self.find_fiber(provider) {
            Some(k) => if self.fibers[k].state == InternalState::Active { Some(self.fibers[k].id) } else { None },
            None => None,
        }
    }

    /// The value of state cell `key` of the fiber at `path`, if set.
    pub fn state_value(&self, path: &str, key: u64) -> (r: Option<u64>)
        ensures
            (forall|j: int| 0 <= j < self.fibers@.len() ==> #[trigger] self.fibers@[j].path@ != path@) ==> r is None,
            forall|i: int| first_at_path(self.fibers@, path@, i) ==> r == cell_value(self.state_cells@, self.fibers@[i].id, key),
    {
        match self.find_path(path) {
            None => None,
            Some(i) => {
                proof {
                    assert forall|i2: int| first_at_path(self.fibers@, path@, i2) implies i2 == i by {
                        if i2 < i {
                            assert(self.fibers@[i2].path@ != path@);
                        } else if i < i2 {
                            assert(self.fibers@[i as int].path@ != path@);
                        }
                    }
                }
                read_cell(&self.state_cells, self.fibers[i].id, key)
            },
        }
    }
}


/// `f` is a fresh fiber `id` for the prepared specification `spec` of `c`
/// at `path`, with parent `parent`: inactive, unretired, unpinned, holding
/// no commitments, effects or authorities.
pub open spec fn fresh_fiber(f: Fiber, id: FiberId, parent: Option<FiberId>, path: Seq<char>, spec: usize) -> bool {
    &&& f.id == id
    &&& f.parent == parent
    &&& f.path@ == path
    &&& f.spec == spec
    &&& !f.retired
    &&& !f.pinned
    &&& f.state == InternalState::Inactive
    &&& f.committed@.len() == 0
    &&& f.accumulator@.len() == 0
    &&& !f.instance
    &&& f.outcome is None
    &&& f.patch_authorization is None
    &&& f.workspace_authorization is None
    &&& f.promotion_authorization is None
}

impl Core {
    /// Starts a fresh root fiber for the prepared specification `spec` at
    /// its entry, and registers it as the root of that entry, in place of
    /// any fiber registered there before.
    pub fn insert_root(&mut self, spec: usize) -> (r: FiberId)
        requires
            old(self).well_formed(),
            spec < old(self).specs@.len(),
            old(self).next_fiber < u64::MAX,
        ensures
            final(self).well_formed(),
            r == FiberId(old(self).next_fiber),
            final(self).next_fiber == old(self).next_fiber + 1,
            final(self).fibers@.len() == old(self).fibers@.len() + 1,
            final(self).fibers@.drop_last() == old(self).fibers@,
            fresh_fiber(final(self).fibers@.last(), r, None, old(self).specs@[spec as int].entry@, spec),
            match first_root(old(self).roots@, encode_utf8(old(self).specs@[spec as int].entry@)) {
                Some(k) => final(self).roots@ == old(self).roots@.update(k, Root { fiber: r, ..old(self).roots@[k] }),
                None => final(self).roots@.len() == old(self).roots@.len() + 1
                    && final(self).roots@.drop_last() == old(self).roots@
                    && final(self).roots@.last().entry@ == old(self).specs@[spec as int].entry@
                    && final(self).roots@.last().fiber == r,
            },
            *final(self) == (Core { next_fiber: final(self).next_fiber, fibers: final(self).fibers, roots: final(self).roots, ..*old(self) }),
    {
        let id = self.allocate_fiber();
        let path = self.specs[spec].entry.clone();
        let fiber = Fiber::new(id, None, path, spec, &self.specs[spec]);
        let entry = self.specs[spec].entry.as_str();
        let mut k: usize = 0;
        while k < self.roots.len() && !entry_is(&self.roots[k].entry, entry.as_bytes())
            invariant
                k <= self.roots@.len(),
                self.roots == old(self).roots,
                entry@ == old(self).specs@[spec as int].entry@,
                forall|j: int| 0 <= j < k ==> encode_utf8(#[trigger] self.roots@[j].entry@) != entry.spec_bytes(),
            decreases self.roots@.len() - k,
        {
            k = k + 1;
        }
        if k < self.roots.len() {
            let ghost chosen = first_root(old(self).roots@, entry.spec_bytes());
            assert(encode_utf8(self.roots@[k as int].entry@) == entry.spec_bytes());
            assert(chosen == Some(k as int));
            let g = self.roots.remove(k);
            self.roots.insert(k, Root { fiber: id, ..g });
            assert(self.roots@ =~= old(self).roots@.update(k as int, Root { fiber: id, ..old(self).roots@[k as int] }));
        } else {
            self.roots.push(Root { entry: self.specs[spec].entry.clone(), fiber: id });
            assert(self.roots@.drop_last() =~= old(self).roots@);
        }
        self.fibers.push(fiber);
        proof {
            assert(self.fibers@.drop_last() =~= old(self).fibers@);
            assert forall|j: int| 0 <= j < self.fibers@.len() implies #[trigger] self.fibers@[j].spec < self.specs@.len()
                && self.fibers@[j].workspace_buffers@.len() == self.specs@[self.fibers@[j].spec as int].workspaces@.len() by {
                if j < old(self).fibers@.len() {
                    assert(self.fibers@[j] == old(self).fibers@[j]);
                }
            }
        }
        id
    }
}


/// The number of fibers that are activating or active.
pub open spec fn live_count(fibers: Seq<Fiber>) -> nat
    decreases fibers.len(),
{
    if fibers.len() == 0 {
        0
    } else {
        live_count(fibers.drop_last()) + if fibers.last().state == InternalState::Activating
            || fibers.last().state == InternalState::Active { 1nat } else { 0nat }
    }
}

/// Each refresh that finds a fiber out of step takes one live fiber out of
/// service, so refreshing reaches quiescence within as many steps as there
/// are live fibers.
pub proof fn lemma_refresh_progress(fibers: Seq<Fiber>, i: int)
    requires
        0 <= i < fibers.len(),
        fibers[i].state == InternalState::Activating || fibers[i].state == InternalState::Active,
    ensures
        live_count(fibers.update(i, Fiber { state: InternalState::Unloading, ..fibers[i] })) + 1 == live_count(fibers),
    decreases fibers.len(),
{
    let after = fibers.update(i, Fiber { state: InternalState::Unloading, ..fibers[i] });
    if i < fibers.len() - 1 {
        lemma_refresh_progress(fibers.drop_last(), i);
        assert(after.drop_last() =~= fibers.drop_last().update(i, Fiber { state: InternalState::Unloading, ..fibers[i] }));
    } else {
        assert(after.drop_last() =~= fibers.drop_last());
    }
}


/// Where the payload of an appended event comes from.
#[derive(Clone, Copy, Debug, PartialEq, Eq, Structural)]
pub enum EventPayloadSource {
    /// No payload.
    Empty,
    /// The bytes of the fiber's granted snapshot at this index.
    Snapshot(u64),
    /// The response the fiber received from its last exchange.
    Exchange,
    /// The fiber's event output buffer at this index.
    Output(u64),
}

/// The authority an append from `source` needs.
pub open spec fn append_capability(resumable: bool, source: EventPayloadSource) -> HostCapability {
    match source {
        EventPayloadSource::Empty => if resumable { HostCapability::ResumeEvent } else { HostCapability::AppendEvent },
        EventPayloadSource::Snapshot(_) => HostCapability::ResumeSnapshot,
        EventPayloadSource::Exchange => HostCapability::ResumeExchange,
        EventPayloadSource::Output(_) => HostCapability::ResumeEventOutput,
    }
}

/// The stream's refusals that are limits the append exceeded.
pub open spec fn is_event_limit(e: Error) -> bool {
    ||| e is EventRecordLimit
    ||| e is EventRecordBytesLimit
    ||| e is PayloadCountLimit
    ||| e is PayloadBytesLimit
    ||| e is PayloadTotalBytesLimit
}

/// Why fiber `i` cannot take its payload from `source`, if it cannot.
pub open spec fn payload_refusal(c: Core, i: int, source: EventPayloadSource) -> Option<i32> {
    let f = c.fibers@[i];
    let spec = c.specs@[f.spec as int];
    match source {
        EventPayloadSource::Empty => None,
        EventPayloadSource::Snapshot(k) => if k > usize::MAX {
            Some(STATUS_INVALID)
        } else if k >= spec.snapshots@.len() {
            Some(STATUS_UNDECLARED)
        } else {
            None
        },
        EventPayloadSource::Output(k) => if k > usize::MAX {
            Some(STATUS_INVALID)
        } else if k >= spec.event_outputs@.len() || k >= f.event_output_buffers@.len() {
            Some(STATUS_UNDECLARED)
        } else {
            None
        },
        EventPayloadSource::Exchange => if f.inbound_response is None { Some(STATUS_UNSATISFIED) } else { None },
    }
}

/// The status with which an append is refused, if it is: the checks of the
/// value, the fiber, its authority and grant, the event stream it committed
/// to, the payload source, replay, and the stream's verdict `staging` on
/// the outbox with the event added, in that order.
pub open spec fn append_refusal(c: Core, fiber: FiberId, index: u64, value: u64, resumable: bool,
    source: EventPayloadSource, staging: Result<(), Error>) -> Option<i32> {
    if value > i64::MAX || index > usize::MAX {
        Some(STATUS_INVALID)
    } else {
        match first_fiber(c.fibers@, fiber) {
            None => Some(STATUS_INVALID),
            Some(i) => {
                let f = c.fibers@[i];
                let spec = c.specs@[f.spec as int];
                if f.state != InternalState::Activating || !spec.manifest.spec_requests(append_capability(resumable, source)) {
                    Some(STATUS_UNDECLARED)
                } else if index >= spec.event_grants@.len() {
                    Some(STATUS_UNDECLARED)
                } else if c.event_stream is None || !commits_to(f.committed@, c.event_stream->0.owner) {
                    Some(STATUS_UNSATISFIED)
                } else if payload_refusal(c, i, source) is Some {
                    payload_refusal(c, i, source)
                } else if c.replaying && !resumable {
                    Some(STATUS_BUSY)
                } else {
                    match staging {
                        Err(e) => if is_event_limit(e) { Some(STATUS_LIMIT) } else { Some(STATUS_INVALID) },
                        Ok(_) => None,
                    }
                }
            },
        }
    }
}

/// `p` is the payload that fiber `f` of specification `spec` appends from
/// `source`.
pub open spec fn appended_payload(f: Fiber, spec: PreparedSpec, source: EventPayloadSource, p: Option<DurablePayload>) -> bool {
    match source {
        EventPayloadSource::Empty => p is None,
        EventPayloadSource::Snapshot(k) => {
            let snapshot = spec.snapshots@[k as int];
            p matches Some(d) && d.provenance == snapshot.grant.provenance
                && d.sha256@ == encode_utf8(snapshot.grant.sha256@) && d.bytes@ == snapshot.bytes@
        },
        EventPayloadSource::Output(k) => {
            let bytes = f.event_output_buffers@[k as int]@;
            p matches Some(d) && d.provenance == spec.event_outputs@[k as int].provenance
                && d.sha256@ == spec_sha256_hex(bytes) && d.bytes@ == bytes
        },
        EventPayloadSource::Exchange => p == f.inbound_response,
    }
}

/// Fiber `g` is `f` once its append from `source` took hold: an exchange
/// response is consumed and an output buffer emptied.
pub open spec fn after_append(f: Fiber, g: Fiber, source: EventPayloadSource) -> bool {
    match source {
        EventPayloadSource::Exchange => g == (Fiber { inbound_response: None, ..f }),
        EventPayloadSource::Output(k) => {
            &&& g == (Fiber { event_output_buffers: g.event_output_buffers, ..f })
            &&& g.event_output_buffers@.len() == f.event_output_buffers@.len()
            &&& g.event_output_buffers@[k as int]@.len() == 0
            &&& forall|j: int| 0 <= j < f.event_output_buffers@.len() && j != k ==> #[trigger] g.event_output_buffers@[j] == f.event_output_buffers@[j]
        },
        _ => g == f,
    }
}

impl Core {
    /// The payload fiber `i`, of specification `spec`, appends from `source`.
    fn take_payload(&self, i: usize, source: EventPayloadSource) -> (r: Option<DurablePayload>)
        requires
            self.well_formed(),
            i < self.fibers@.len(),
            payload_refusal(*self, i as int, source) is None,
            source != EventPayloadSource::Exchange,
        ensures
            appended_payload(self.fibers@[i as int], self.specs@[self.fibers@[i as int].spec as int], source, r),
    {
        let f = &self.fibers[i];
        let spec = &self.specs[f.spec];
        match source {
            EventPayloadSource::Snapshot(k) => {
                let s = &spec.snapshots[k as usize];
                Some(DurablePayload {
                    provenance: s.grant.provenance.clone(),
                    sha256: vstd::slice::slice_to_vec(s.grant.sha256.as_str().as_bytes()),
                    bytes: copy_bytes(&s.bytes),
                })
            },
            EventPayloadSource::Output(k) => {
                let bytes = &f.event_output_buffers[k as usize];
                Some(DurablePayload {
                    provenance: spec.event_outputs[k as usize].provenance.clone(),
                    sha256: sha256_hex(bytes.as_slice()),
                    bytes: copy_bytes(bytes),
                })
            },
            _ => None,
        }
    }

    /// The host's `append-event`: an activating fiber appends an event of
    /// its granted type `index` with `value`, and a payload from `source`,
    /// to the event stream it committed to; `staging` is the stream's
    /// verdict on the outbox with this event added. An accepted event waits
    /// among the pending events; an exchange response it carries is
    /// consumed and an output buffer it carries emptied. A refusal changes
    /// nothing but, for a stream refusal other than a limit, the recorded
    /// event failure.
    #[verifier::spinoff_prover]
    #[verifier::rlimit(50)]
    pub fn host_append_event(&mut self, fiber: FiberId, index: u64, value: u64, resumable: bool,
        source: EventPayloadSource, staging: Result<(), Error>) -> (r: i32)
        requires
            old(self).well_formed(),
        ensures
            final(self).well_formed(),
            match append_refusal(*old(self), fiber, index, value, resumable, source, staging) {
                Some(status) => {
                    &&& r == status
                    &&& match staging {
                        Err(e) if status == STATUS_INVALID && !is_event_limit(e)
                            && append_refusal(*old(self), fiber, index, value, resumable, source, Ok(())) is None =>
                            *final(self) == (Core { event_failure: Some(e), ..*old(self) }),
                        _ => *final(self) == *old(self),
                    }
                },
                None => {
                    let i = first_fiber(old(self).fibers@, fiber)->0;
                    let f = old(self).fibers@[i];
                    let event = final(self).pending_events@.last();
                    &&& r == STATUS_OK
                    &&& final(self).pending_events@.len() == old(self).pending_events@.len() + 1
                    &&& final(self).pending_events@.drop_last() == old(self).pending_events@
                    &&& event.actor == fiber && event.index == index && event.value == value
                    &&& appended_payload(f, old(self).specs@[f.spec as int], source, event.payload)
                    &&& final(self).fibers@.len() == old(self).fibers@.len()
                    &&& after_append(f, final(self).fibers@[i], source)
                    &&& final(self).fibers@ == old(self).fibers@.update(i, final(self).fibers@[i])
                    &&& *final(self) == (Core { fibers: final(self).fibers, pending_events: final(self).pending_events, ..*old(self) })
                },
            },
    {
        if value > i64::MAX as u64 || index > usize::MAX as u64 {
            return STATUS_INVALID;
        }
        let index = index as usize;
        let i = match self.find_fiber(fiber) {
            None => return STATUS_INVALID,
            Some(i) => i,
        };
        proof {
            lemma_first_fiber(self.fibers@, fiber);
        }
        let capability = match source {
            EventPayloadSource::Empty => if resumable { HostCapability::ResumeEvent } else { HostCapability::AppendEvent },
            EventPayloadSource::Snapshot(_) => HostCapability::ResumeSnapshot,
            EventPayloadSource::Exchange => HostCapability::ResumeExchange,
            EventPayloadSource::Output(_) => HostCapability::ResumeEventOutput,
        };
        let spec = self.fibers[i].spec;
        if self.fibers[i].state != InternalState::Activating || !self.specs[spec].manifest.requests(capability) {
            return STATUS_UNDECLARED;
        }
        if index >= self.specs[spec].event_grants.len() {
            return STATUS_UNDECLARED;
        }
        let owner = match &self.event_stream {
            None => return STATUS_UNSATISFIED,
            Some(e) => e.owner,
        };
        if !has_commitment(&self.fibers[i].committed, owner) {
            return STATUS_UNSATISFIED;
        }
        match source {
            EventPayloadSource::Empty => {},
            EventPayloadSource::Snapshot(k) => {
                if k > usize::MAX as u64 {
                    return STATUS_INVALID;
                }
                if k as usize >= self.specs[spec].snapshots.len() {
                    return STATUS_UNDECLARED;
                }
            },
            EventPayloadSource::Output(k) => {
                if k > usize::MAX as u64 {
                    return STATUS_INVALID;
                }
                if k as usize >= self.specs[spec].event_outputs.len() || k as usize >= self.fibers[i].event_output_buffers.len() {
                    return STATUS_UNDECLARED;
                }
            },
            EventPayloadSource::Exchange => {
                if self.fibers[i].inbound_response.is_none() {
                    return STATUS_UNSATISFIED;
                }
            },
        }
        if self.replaying && !resumable {
            return STATUS_BUSY;
        }
        match staging {
            Err(e) => {
                if event_limit(&e) {
                    return STATUS_LIMIT;
                }
                self.event_failure = Some(e);
                return STATUS_INVALID;
            },
            Ok(()) => {},
        }
        let ghost f0 = self.fibers@[i as int];
        let mut f = self.fibers.remove(i);
        let payload = match source {
            EventPayloadSource::Exchange => f.inbound_response.take(),
            EventPayloadSource::Output(k) => {
                self.fibers.insert(i, f);
                let p = self.take_payload(i, source);
                f = self.fibers.remove(i);
                f.event_output_buffers.set(k as usize, Vec::new());
                p
            },
            _ => {
                self.fibers.insert(i, f);
                let p = self.take_payload(i, source);
                f = self.fibers.remove(i);
                p
            },
        };
        self.fibers.insert(i, f);
        self.pending_events.push(PendingEvent { actor: fiber, index, value, payload });
        proof {
            assert(self.fibers@ =~= old(self).fibers@.update(i as int, self.fibers@[i as int]));
            assert(self.pending_events@.drop_last() =~= old(self).pending_events@);
            assert forall|k: int| 0 <= k < self.fibers@.len() implies #[trigger] self.fibers@[k].spec < self.specs@.len()
                && self.fibers@[k].workspace_buffers@.len() == self.specs@[self.fibers@[k].spec as int].workspaces@.len() by {
                if k != i {
                    assert(self.fibers@[k] == old(self).fibers@[k]);
                }
            }
        }
        STATUS_OK
    }
}

/// Whether a refusal of the event stream is a limit the append exceeded.
fn event_limit(e: &Error) -> (r: bool)
    ensures
        r == is_event_limit(*e),
{
    match e {
        Error::EventRecordLimit { .. } | Error::EventRecordBytesLimit { .. } | Error::PayloadCountLimit { .. }
        | Error::PayloadBytesLimit { .. } | Error::PayloadTotalBytesLimit { .. } => true,
        _ => false,
    }
}


/// `g` is `f` with event output buffer `k` holding `bytes`.
pub open spec fn output_written(f: Fiber, g: Fiber, k: int, bytes: Seq<u8>) -> bool {
    &&& g == (Fiber { event_output_buffers: g.event_output_buffers, ..f })
    &&& g.event_output_buffers@.len() == f.event_output_buffers@.len()
    &&& g.event_output_buffers@[k]@ == bytes
    &&& forall|j: int| 0 <= j < f.event_output_buffers@.len() && j != k ==> #[trigger] g.event_output_buffers@[j] == f.event_output_buffers@[j]
}

impl Core {
    /// Puts `bytes` in event output buffer `k` of fiber `i`.
    fn write_output(&mut self, i: usize, k: usize, bytes: Vec<u8>)
        requires
            old(self).well_formed(),
            i < old(self).fibers@.len(),
            k < old(self).fibers@[i as int].event_output_buffers@.len(),
        ensures
            final(self).well_formed(),
            final(self).fibers@.len() == old(self).fibers@.len(),
            output_written(old(self).fibers@[i as int], final(self).fibers@[i as int], k as int, bytes@),
            final(self).fibers@ == old(self).fibers@.update(i as int, final(self).fibers@[i as int]),
            *final(self) == (Core { fibers: final(self).fibers, ..*old(self) }),
    {
        let ghost b = bytes@;
        let mut f = self.fibers.remove(i);
        f.event_output_buffers.set(k, bytes);
        self.fibers.insert(i, f);
        proof {
            assert(self.fibers@ =~= old(self).fibers@.update(i as int, self.fibers@[i as int]));
            assert forall|j: int| 0 <= j < self.fibers@.len() implies #[trigger] self.fibers@[j].spec < self.specs@.len()
                && self.fibers@[j].workspace_buffers@.len() == self.specs@[self.fibers@[j].spec as int].workspaces@.len() by {
                if j != i {
                    assert(self.fibers@[j] == old(self).fibers@[j]);
                }
            }
        }
    }

    /// The host's `event-output-set-len`: an activating fiber that requested
    /// event output writes resizes its output buffer `index` within its
    /// grant's bound, padding with zeros.
    pub fn host_event_output_set_len(&mut self, fiber: FiberId, index: u64, length: u64) -> (r: i32)
        requires
            old(self).well_formed(),
        ensures
            final(self).well_formed(),
            if index > usize::MAX || length > usize::MAX {
                r == STATUS_INVALID && *final(self) == *old(self)
            } else {
                match first_fiber(old(self).fibers@, fiber) {
                    None => r == STATUS_INVALID && *final(self) == *old(self),
                    Some(i) => {
                        let f = old(self).fibers@[i];
                        let outputs = old(self).specs@[f.spec as int].event_outputs@;
                        if f.state != InternalState::Activating
                            || !old(self).manifest_of(i).spec_requests(HostCapability::EventOutputWrite)
                            || index >= outputs.len() || index >= f.event_output_buffers@.len() {
                            r == STATUS_UNDECLARED && *final(self) == *old(self)
                        } else if length > outputs[index as int].max_bytes {
                            r == STATUS_LIMIT && *final(self) == *old(self)
                        } else {
                            &&& r == STATUS_OK
                            &&& final(self).fibers@.len() == old(self).fibers@.len()
                            &&& output_written(f, final(self).fibers@[i], index as int,
                                resized(f.event_output_buffers@[index as int]@, length as nat))
                            &&& final(self).fibers@ == old(self).fibers@.update(i, final(self).fibers@[i])
                            &&& *final(self) == (Core { fibers: final(self).fibers, ..*old(self) })
                        }
                    },
                }
            },
    {
        if index > usize::MAX as u64 || length > usize::MAX as u64 {
            return STATUS_INVALID;
        }
        let (index, length) = (index as usize, length as usize);
        let i = match self.find_fiber(fiber) {
            None => return STATUS_INVALID,
            Some(i) => i,
        };
        proof {
            lemma_first_fiber(old(self).fibers@, fiber);
        }
        let spec = self.fibers[i].spec;
        if self.fibers[i].state != InternalState::Activating || !self.specs[spec].manifest.requests(HostCapability::EventOutputWrite)
            || index >= self.specs[spec].event_outputs.len() || index >= self.fibers[i].event_output_buffers.len() {
            return STATUS_UNDECLARED;
        }
        if length > self.specs[spec].event_outputs[index].max_bytes {
            return STATUS_LIMIT;
        }
        let mut bytes = copy_bytes(&self.fibers[i].event_output_buffers[index]);
        let ghost before = bytes@;
        bytes.resize(length, 0u8);
        proof {
            if length <= before.len() {
                assert(bytes@ =~= resized(before, length as nat));
            } else {
                assert forall|k: int| 0 <= k < bytes@.len() implies #[trigger] bytes@[k] == resized(before, length as nat)[k] by {
                    if k < before.len() {
                        assert(bytes@.subrange(0, before.len() as int)[k] == before[k]);
                    }
                }
                assert(bytes@ =~= resized(before, length as nat));
            }
        }
        self.write_output(i, index, bytes);
        STATUS_OK
    }

    /// The host's `event-output-write-byte`: an activating fiber that
    /// requested event output writes sets byte `offset` of its output buffer
    /// `index` to `value`.
    pub fn host_event_output_write_byte(&mut self, fiber: FiberId, index: u64, offset: u64, value: u32) -> (r: i32)
        requires
            old(self).well_formed(),
        ensures
            final(self).well_formed(),
            if index > usize::MAX || offset > usize::MAX || value > u8::MAX {
                r == STATUS_INVALID && *final(self) == *old(self)
            } else {
                match first_fiber(old(self).fibers@, fiber) {
                    None => r == STATUS_INVALID && *final(self) == *old(self),
                    Some(i) => {
                        let f = old(self).fibers@[i];
                        if f.state != InternalState::Activating
                            || !old(self).manifest_of(i).spec_requests(HostCapability::EventOutputWrite)
                            || index >= f.event_output_buffers@.len() {
                            r == STATUS_UNDECLARED && *final(self) == *old(self)
                        } else if offset >= f.event_output_buffers@[index as int]@.len() {
                            r == STATUS_INVALID && *final(self) == *old(self)
                        } else {
                            &&& r == STATUS_OK
                            &&& final(self).fibers@.len() == old(self).fibers@.len()
                            &&& output_written(f, final(self).fibers@[i], index as int,
                                f.event_output_buffers@[index as int]@.update(offset as int, value as u8))
                            &&& final(self).fibers@ == old(self).fibers@.update(i, final(self).fibers@[i])
                            &&& *final(self) == (Core { fibers: final(self).fibers, ..*old(self) })
                        }
                    },
                }
            },
    {
        if index > usize::MAX as u64 || offset > usize::MAX as u64 || value > 255u32 {
            return STATUS_INVALID;
        }
        let (index, offset) = (index as usize, offset as usize);
        let i = match self.find_fiber(fiber) {
            None => return STATUS_INVALID,
            Some(i) => i,
        };
        proof {
            lemma_first_fiber(old(self).fibers@, fiber);
        }
        let spec = self.fibers[i].spec;
        if self.fibers[i].state != InternalState::Activating || !self.specs[spec].manifest.requests(HostCapability::EventOutputWrite)
            || index >= self.fibers[i].event_output_buffers.len() {
            return STATUS_UNDECLARED;
        }
        if offset >= self.fibers[i].event_output_buffers[index].len() {
            return STATUS_INVALID;
        }
        let mut bytes = copy_bytes(&self.fibers[i].event_output_buffers[index]);
        bytes.set(offset, value as u8);
        self.write_output(i, index, bytes);
        STATUS_OK
    }
}


/// The entry of the prepared specification of the fiber with identity `id`.
pub open spec fn entry_of(c: Core, id: FiberId) -> Option<Seq<char>> {
    match first_fiber(c.fibers@, id) {
        Some(j) => Some(c.specs@[c.fibers@[j].spec as int].entry@),
        None => None,
    }
}

impl Core {
    /// Checks a replacement of the component at `path` by one with entry
    /// `entry` before anything is prepared: no patch in flight may own an
    /// overlapping path, a fiber must stand at `path`, and the replacement
    /// keeps that fiber's entry. Returns the fiber to replace.
    pub fn check_replacement(&self, path: &str, entry: &str) -> (r: Result<FiberId, Error>)
        requires
            self.well_formed(),
        ensures
            if target_owned(self.patch_owners@, path.spec_bytes()) {
                r matches Err(Error::PatchTargetOwned(p)) && p@ == path@
            } else if forall|j: int| 0 <= j < self.fibers@.len() ==> #[trigger] self.fibers@[j].path@ != path@ {
                r matches Err(Error::UnknownEntry(p)) && p@ == path@
            } else {
                exists|i: int| first_at_path(self.fibers@, path@, i) && ({
                    let id = self.fibers@[i].id;
                    let expected = entry_of(*self, id)->0;
                    if expected == entry@ {
                        r == Ok::<FiberId, Error>(id)
                    } else {
                        r matches Err(Error::ReplacementEntry { entry: e, expected: x }) && e@ == entry@ && x@ == expected
                    }
                })
            },
    {
        if self.owned_target(path) {
            return Err(Error::PatchTargetOwned(path.to_owned()));
        }
        let i = match self.find_path(path) {
            None => return Err(Error::UnknownEntry(path.to_owned())),
            Some(i) => i,
        };
        let id = self.fibers[i].id;
        proof {
            lemma_first_fiber(self.fibers@, id);
        }
        let k = match self.find_fiber(id) {
            Some(k) => k,
            None => return Err(Error::UnknownEntry(path.to_owned())),
        };
        let expected = &self.specs[self.fibers[k].spec].entry;
        if !same_str(expected.as_str(), entry) {
            return Err(Error::ReplacementEntry { entry: entry.to_owned(), expected: expected.clone() });
        }
        Ok(id)
    }

    /// Settles a replacement by the state its candidate reached: an active
    /// candidate is unpinned and the replacement of `previous` by it at `path`
    /// committed to the trace, returning nothing; any other candidate
    /// returns why it failed, for the replacement to be rolled back.
    pub fn settle_replacement(&mut self, previous: FiberId, candidate: FiberId, path: String) -> (r: Result<Option<String>, Error>)
        requires
            old(self).well_formed(),
        ensures
            final(self).well_formed(),
            match first_fiber(old(self).fibers@, candidate) {
                None => r == Err::<Option<String>, Error>(Error::Invariant(InvariantIssue::CandidateMissing))
                    && *final(self) == *old(self),
                Some(k) => {
                    let c = old(self).fibers@[k];
                    match c.state {
                        InternalState::Active => {
                            &&& r == Ok::<Option<String>, Error>(None)
                            &&& final(self).fibers@ == old(self).fibers@.update(k, Fiber { pinned: false, ..c })
                            &&& final(self).trace@ == old(self).trace@.push(TraceEvent::ReplacementCommitted { old: previous, new: candidate, path })
                            &&& *final(self) == (Core { fibers: final(self).fibers, trace: final(self).trace, ..*old(self) })
                        },
                        InternalState::Failed => *final(self) == *old(self) && (r matches Ok(Some(m)) && m@ == match c.outcome {
                            Some(o) => o@,
                            None => "candidate activation failed"@,
                        }),
                        _ => *final(self) == *old(self) && (r matches Ok(Some(m)) && m@ == "candidate did not reach active state"@),
                    }
                },
            },
    {
        let k = match self.find_fiber(candidate) {
            None => return Err(Error::Invariant(InvariantIssue::CandidateMissing)),
            Some(k) => k,
        };
        proof {
            lemma_first_fiber(old(self).fibers@, candidate);
        }
        match self.fibers[k].state {
            InternalState::Active => {},
            InternalState::Failed => {
                let message = match &self.fibers[k].outcome {
                    Some(o) => o.clone(),
                    None => String::from_str("candidate activation failed"),
                };
                return Ok(Some(message));
            },
            _ => return Ok(Some(String::from_str("candidate did not reach active state"))),
        }
        let mut f = self.fibers.remove(k);
        f.pinned = false;
        self.fibers.insert(k, f);
        self.trace.push(TraceEvent::ReplacementCommitted { old: previous, new: candidate, path });
        proof {
            assert(self.fibers@ =~= old(self).fibers@.update(k as int, Fiber { pinned: false, ..old(self).fibers@[k as int] }));
            assert forall|j: int| 0 <= j < self.fibers@.len() implies #[trigger] self.fibers@[j].spec < self.specs@.len()
                && self.fibers@[j].workspace_buffers@.len() == self.specs@[self.fibers@[j].spec as int].workspaces@.len() by {
                if j != k {
                    assert(self.fibers@[j] == old(self).fibers@[j]);
                }
            }
        }
        Ok(None)
    }

    /// Checks what the persistence bootstrap root at `root` registered once
    /// it settled: a journal, and an event stream where one was admitted,
    /// both owned by the root. A missing registration reports the event
    /// stream's recorded failure, if any, which it takes.
    pub fn check_bootstrap_owners(&mut self, root: &str, expects_events: bool) -> (r: Result<(), Error>)
        ensures
            match old(self).journal_owner {
                None => match old(self).event_failure {
                    Some(e) => r == Err::<(), Error>(e) && *final(self) == (Core { event_failure: None, ..*old(self) }),
                    None => r == Err::<(), Error>(Error::Persistence(PersistenceIssue::JournalNotRegistered)) && *final(self) == *old(self),
                },
                Some(owner) => if expects_events && old(self).event_stream is None {
                    match old(self).event_failure {
                        Some(e) => r == Err::<(), Error>(e) && *final(self) == (Core { event_failure: None, ..*old(self) }),
                        None => r == Err::<(), Error>(Error::Persistence(PersistenceIssue::EventStreamNotRegistered)) && *final(self) == *old(self),
                    }
                } else {
                    &&& *final(self) == *old(self)
                    &&& if !(first_fiber(old(self).fibers@, owner) matches Some(j) && old(self).fibers@[j].path@ == root@) {
                        r == Err::<(), Error>(Error::Persistence(PersistenceIssue::JournalOwner))
                    } else if old(self).event_stream matches Some(s) && s.owner != owner {
                        r == Err::<(), Error>(Error::Persistence(PersistenceIssue::EventStreamOwner))
                    } else {
                        r is Ok
                    }
                },
            },
    {
        let owner = match self.journal_owner {
            None => {
                return match self.event_failure.take() {
                    Some(e) => Err(e),
                    None => Err(Error::Persistence(PersistenceIssue::JournalNotRegistered)),
                };
            },
            Some(owner) => owner,
        };
        if expects_events && self.event_stream.is_none() {
            return match self.event_failure.take() {
                Some(e) => Err(e),
                None => Err(Error::Persistence(PersistenceIssue::EventStreamNotRegistered)),
            };
        }
        proof {
            lemma_first_fiber(self.fibers@, owner);
        }
        let at_root = match self.find_fiber(owner) {
            Some(j) => same_str(self.fibers[j].path.as_str(), root),
            None => false,
        };
        if !at_root {
            return Err(Error::Persistence(PersistenceIssue::JournalOwner));
        }
        if let Some(s) = &self.event_stream {
            if s.owner != owner {
                return Err(Error::Persistence(PersistenceIssue::EventStreamOwner));
            }
        }
        Ok(())
    }
}


/// Undoing a set-state with the inverse it recorded gives back the cells as
/// they were and traces the recovery: where `c1` is `c0` after fiber `i`'s
/// set-state of `value` under `key` took hold, recording its inverse, and
/// `c2` is `c1` after that inverse was applied, the cells of `c2` are those
/// of `c0`.
pub proof fn lemma_set_state_undone(c0: Core, c1: Core, c2: Core, i: int, key: u64, value: u64)
    requires
        0 <= i < c0.fibers@.len(),
        cells_written(c0.state_cells@, c1.state_cells@, c0.fibers@[i].id, key, Some(value)),
        effect_taken(c0, c1, i, Inverse::RestoreState { effect: c0.next_effect, key,
            previous: cell_value(c0.state_cells@, c0.fibers@[i].id, key) }, "state"@),
        match c1.fibers@[i].accumulator@.last() {
            Inverse::RestoreState { effect, key: k, previous } => {
                &&& cells_written(c1.state_cells@, c2.state_cells@, c1.fibers@[i].id, k, previous)
                &&& recovery_traced(c1.trace@, c2.trace@, c1.fibers@[i].id, effect, "state"@)
            },
            _ => false,
        },
    ensures
        same_cells(c0.state_cells@, c2.state_cells@),
        is_effect_recovered(c2.trace@.last(), c0.fibers@[i].id, c0.next_effect, "state"@),
{
    assert(c1.fibers@[i].id == c0.fibers@[i].id);
    lemma_write_then_restore(c0.state_cells@, c1.state_cells@, c2.state_cells@, c0.fibers@[i].id, key, Some(value));
}

/// The same holds when other work came between: where `c1` is `c0` after
/// fiber `i`'s set-state of `value` under `key`, recording its inverse,
/// every later change to the cells was undone by `c2`, and `c3` is `c2`
/// after the recorded inverse was applied, the cells of `c3` are those of
/// `c0`.
pub proof fn lemma_set_state_undone_after_later_work(c0: Core, c1: Core, c2: Core, c3: Core, i: int, key: u64, value: u64)
    requires
        0 <= i < c0.fibers@.len(),
        cells_written(c0.state_cells@, c1.state_cells@, c0.fibers@[i].id, key, Some(value)),
        effect_taken(c0, c1, i, Inverse::RestoreState { effect: c0.next_effect, key,
            previous: cell_value(c0.state_cells@, c0.fibers@[i].id, key) }, "state"@),
        same_cells(c1.state_cells@, c2.state_cells@),
        match c1.fibers@[i].accumulator@.last() {
            Inverse::RestoreState { effect, key: k, previous } =>
                cells_written(c2.state_cells@, c3.state_cells@, c1.fibers@[i].id, k, previous),
            _ => false,
        },
    ensures
        same_cells(c0.state_cells@, c3.state_cells@),
{
    let id = c0.fibers@[i].id;
    assert(c1.fibers@[i].id == id);
    assert forall|f: FiberId, k: u64| #[trigger] cell_value(c0.state_cells@, f, k) == cell_value(c3.state_cells@, f, k) by {
        assert(cell_value(c3.state_cells@, f, k) == (if f == id && k == key {
            cell_value(c0.state_cells@, id, key)
        } else {
            cell_value(c2.state_cells@, f, k)
        }));
        assert(cell_value(c2.state_cells@, f, k) == cell_value(c1.state_cells@, f, k));
        assert(cell_value(c1.state_cells@, f, k) == (if f == id && k == key { Some(value) } else { cell_value(c0.state_cells@, f, k) }));
    }
}


/// The position of the first patch owner of exactly `target`.
pub open spec fn owner_of(owners: Seq<PatchOwner>, target: Seq<char>) -> Option<int> {
    if exists|k: int| 0 <= k < owners.len() && (#[trigger] owners[k]).target@ == target {
        Some(choose|k: int| 0 <= k < owners.len() && (#[trigger] owners[k]).target@ == target
            && forall|j: int| 0 <= j < k ==> (#[trigger] owners[j]).target@ != target)
    } else {
        None
    }
}

impl Core {
    /// The position of the first patch owner of exactly `target`.
    pub(crate) fn find_owner(&self, target: &str) -> (r: Option<usize>)
        ensures
            r matches Some(k) ==> k < self.patch_owners@.len() && owner_of(self.patch_owners@, target@) == Some(k as int),
            r is None ==> owner_of(self.patch_owners@, target@) is None,
    {
        let mut k: usize = 0;
        while k < self.patch_owners.len()
            invariant
                k <= self.patch_owners@.len(),
                forall|j: int| 0 <= j < k ==> (#[trigger] self.patch_owners@[j]).target@ != target@,
            decreases self.patch_owners@.len() - k,
        {
            if same_str(self.patch_owners[k].target.as_str(), target) {
                let ghost chosen = owner_of(self.patch_owners@, target@);
                assert(self.patch_owners@[k as int].target@ == target@);
                assert(chosen == Some(k as int));
                return Some(k);
            }
            k += 1;
        }
        None
    }

    /// Records the commit of a composition patch that fiber `actor`
    /// requested on `target`: a fresh effect, `actor` as the owner of
    /// `target` in place of any earlier owner, and the inverse restoring the
    /// composition with `undo` among the actor's effects. Returns the
    /// effect; a vanished actor breaks the core's bookkeeping, after the
    /// effect and the ownership were taken.
    #[verifier::spinoff_prover]
    pub fn record_patch_commit(&mut self, actor: FiberId, target: String, undo: CompositionPatch) -> (r: Result<u64, Error>)
        requires
            old(self).well_formed(),
            old(self).next_effect < u64::MAX,
        ensures
            final(self).well_formed(),
            final(self).next_effect == old(self).next_effect + 1,
            match owner_of(old(self).patch_owners@, target@) {
                Some(k) => final(self).patch_owners@ == old(self).patch_owners@.update(k, PatchOwner { fiber: actor, ..old(self).patch_owners@[k] }),
                None => final(self).patch_owners@ == old(self).patch_owners@.push(PatchOwner { target, fiber: actor }),
            },
            match first_fiber(old(self).fibers@, actor) {
                None => r == Err::<u64, Error>(Error::Invariant(InvariantIssue::PatchActorMissing))
                    && final(self).fibers == old(self).fibers,
                Some(i) => r == Ok::<u64, Error>(old(self).next_effect)
                    && accumulated(old(self).fibers@, final(self).fibers@, i,
                        Inverse::RestoreComposition { effect: old(self).next_effect, target, undo }),
            },
            *final(self) == (Core { next_effect: final(self).next_effect, patch_owners: final(self).patch_owners,
                fibers: final(self).fibers, ..*old(self) }),
    {
        let effect = self.allocate_effect();
        match self.find_owner(target.as_str()) {
            Some(k) => {
                let o = self.patch_owners.remove(k);
                self.patch_owners.insert(k, PatchOwner { fiber: actor, ..o });
                assert(self.patch_owners@ =~= old(self).patch_owners@.update(k as int, PatchOwner { fiber: actor, ..old(self).patch_owners@[k as int] }));
            },
            None => {
                self.patch_owners.push(PatchOwner { target: target.clone(), fiber: actor });
            },
        }
        let i = match self.find_fiber(actor) {
            None => return Err(Error::Invariant(InvariantIssue::PatchActorMissing)),
            Some(i) => i,
        };
        proof {
            lemma_first_fiber(old(self).fibers@, actor);
        }
        let ghost before = *self;
        self.push_inverse(i, Inverse::RestoreComposition { effect, target, undo });
        proof {
            assert forall|k: int| 0 <= k < self.fibers@.len() implies #[trigger] self.fibers@[k].spec < self.specs@.len()
                && self.fibers@[k].workspace_buffers@.len() == self.specs@[self.fibers@[k].spec as int].workspaces@.len() by {
                if k != i {
                    assert(self.fibers@[k] == before.fibers@[k]);
                }
            }
        }
        Ok(effect)
    }

    /// Withdraws a patch commit that the journal did not take: `target`
    /// loses its owner, and the last effect of `actor`, which must be
    /// `effect`, is dropped. A vanished actor, an empty accumulator or
    /// another last effect breaks the core's bookkeeping, after what was
    /// already withdrawn.
    pub fn unwind_patch_commit(&mut self, actor: FiberId, target: &str, effect: u64) -> (r: Result<(), Error>)
        requires
            old(self).well_formed(),
        ensures
            final(self).well_formed(),
            match owner_of(old(self).patch_owners@, target@) {
                Some(k) => final(self).patch_owners@ == old(self).patch_owners@.remove(k),
                None => final(self).patch_owners == old(self).patch_owners,
            },
            match first_fiber(old(self).fibers@, actor) {
                None => r == Err::<(), Error>(Error::Invariant(InvariantIssue::PatchActorMissing)) && final(self).fibers == old(self).fibers,
                Some(i) => {
                    let acc = old(self).fibers@[i].accumulator@;
                    if acc.len() == 0 {
                        r == Err::<(), Error>(Error::Invariant(InvariantIssue::PatchInverseMissing)) && final(self).fibers == old(self).fibers
                    } else {
                        &&& final(self).fibers@ == old(self).fibers@.update(i, final(self).fibers@[i])
                        &&& final(self).fibers@[i] == (Fiber { accumulator: final(self).fibers@[i].accumulator, ..old(self).fibers@[i] })
                        &&& final(self).fibers@[i].accumulator@ == acc.drop_last()
                        &&& if acc.last().spec_effect() == effect {
                            r is Ok
                        } else {
                            r == Err::<(), Error>(Error::Invariant(InvariantIssue::PatchInverseNotLast))
                        }
                    }
                },
            },
            *final(self) == (Core { patch_owners: final(self).patch_owners, fibers: final(self).fibers, ..*old(self) }),
    {
        match self.find_owner(target) {
            Some(k) => {
                self.patch_owners.remove(k);
            },
            None => {},
        }
        let i = match self.find_fiber(actor) {
            None => return Err(Error::Invariant(InvariantIssue::PatchActorMissing)),
            Some(i) => i,
        };
        proof {
            lemma_first_fiber(old(self).fibers@, actor);
        }
        if self.fibers[i].accumulator.len() == 0 {
            return Err(Error::Invariant(InvariantIssue::PatchInverseMissing));
        }
        let ghost before = *self;
        let mut f = self.fibers.remove(i);
        let removed = f.accumulator.pop().unwrap();
        self.fibers.insert(i, f);
        proof {
            assert(self.fibers@ =~= before.fibers@.update(i as int, self.fibers@[i as int]));
            assert forall|k: int| 0 <= k < self.fibers@.len() implies #[trigger] self.fibers@[k].spec < self.specs@.len()
                && self.fibers@[k].workspace_buffers@.len() == self.specs@[self.fibers@[k].spec as int].workspaces@.len() by {
                if k != i {
                    assert(self.fibers@[k] == before.fibers@[k]);
                }
            }
        }
        if removed.effect() != effect {
            return Err(Error::Invariant(InvariantIssue::PatchInverseNotLast));
        }
        Ok(())
    }

    /// Traces a patch commit that the journal took: the composition effect
    /// of `actor` and the patch on `target` at the current revision.
    pub fn trace_patch_commit(&mut self, actor: FiberId, target: String, effect: u64)
        ensures
            final(self).trace@ == old(self).trace@
                .push(TraceEvent::EffectApplied { fiber: actor, effect, kind: final(self).trace@[old(self).trace@.len() as int]->EffectApplied_kind })
                .push(TraceEvent::PatchCommitted { actor, target, revision: old(self).composition_revision }),
            is_effect_applied(final(self).trace@[old(self).trace@.len() as int], actor, effect, "composition"@),
            *final(self) == (Core { trace: final(self).trace, ..*old(self) }),
    {
        self.trace.push(TraceEvent::EffectApplied { fiber: actor, effect, kind: "composition".to_string() });
        let revision = self.composition_revision;
        self.trace.push(TraceEvent::PatchCommitted { actor, target, revision });
    }
}


/// What pointing the slot of `previous` at `replacement` does: `b` is `a`
/// with the registration of `previous` under `parent`, or, for a root, the
/// root entry `path` starts with, naming `replacement`, and `r` is the
/// outcome.
pub open spec fn retargeted(a: Core, b: Core, parent: Option<FiberId>, path: Seq<u8>, previous: FiberId, replacement: FiberId,
    r: Result<(), Error>) -> bool {
    match parent {
        Some(p) => match first_child_registration(a.registrations@, p, previous) {
            None => r == Err::<(), Error>(Error::Invariant(InvariantIssue::ParentRegistration)) && b == a,
            Some(k) => {
                &&& r is Ok
                &&& b.registrations@.len() == a.registrations@.len()
                &&& forall|j: int| 0 <= j < a.registrations@.len() && j != k
                    ==> #[trigger] b.registrations@[j] == a.registrations@[j]
                &&& b.registrations@[k] == (Registration { child: replacement, ..a.registrations@[k] })
                &&& b == (Core { registrations: b.registrations, ..a })
            },
        },
        None => match first_root(a.roots@, root_segment(path)) {
            None => r == Err::<(), Error>(Error::Invariant(InvariantIssue::RootRegistration)) && b == a,
            Some(k) => if a.roots@[k].fiber != previous {
                r == Err::<(), Error>(Error::Invariant(InvariantIssue::RootOwner)) && b == a
            } else {
                &&& r is Ok
                &&& b.roots@.len() == a.roots@.len()
                &&& forall|j: int| 0 <= j < a.roots@.len() && j != k
                    ==> #[trigger] b.roots@[j] == a.roots@[j]
                &&& b.roots@[k] == (Root { fiber: replacement, ..a.roots@[k] })
                &&& b == (Core { roots: b.roots, ..a })
            },
        },
    }
}

/// Some live or unloading fiber committed to `provider`.
pub open spec fn relied_on(c: Core, provider: FiberId) -> bool {
    exists|j: int, k: int| 0 <= j < c.fibers@.len() && 0 <= k < c.fibers@[j].committed@.len()
        && (c.fibers@[j].state == InternalState::Activating || c.fibers@[j].state == InternalState::Active
            || c.fibers@[j].state == InternalState::Unloading)
        && #[trigger] c.fibers@[j].committed@[k].fiber == provider
}

/// Fiber `j` is unloading, no fiber relies on it, and its recovery is not
/// blocked: its effects may be undone.
pub open spec fn recoverable(c: Core, j: int) -> bool {
    &&& c.fibers@[j].state == InternalState::Unloading
    &&& !relied_on(c, c.fibers@[j].id)
    &&& !c.blocked_recovery@.contains(c.fibers@[j].id)
}

/// The next step of unloading fibers.
#[derive(Debug, PartialEq, Eq)]
pub enum RecoveryStep {
    /// No fiber can be recovered now.
    Idle,
    /// Undo this newest remaining effect of `fiber`; a composition inverse
    /// is the composition's to undo, any other the core's.
    Undo { fiber: FiberId, inverse: Inverse },
    /// Every effect of `fiber` is undone: dispose of its instance, if it had
    /// one, and settle it as failed with `failed`, or as inactive.
    Finish { fiber: FiberId, instance: bool, failed: Option<String> },
}

/// The fiber a recovery step is about.
pub open spec fn recovered_fiber(r: RecoveryStep) -> Option<FiberId> {
    match r {
        RecoveryStep::Idle => None,
        RecoveryStep::Undo { fiber, .. } => Some(fiber),
        RecoveryStep::Finish { fiber, .. } => Some(fiber),
    }
}

impl Core {
    /// Takes the next step of recovering unloading fibers, newest effect
    /// first: for the unloading fiber of least identity that no one relies
    /// on and whose recovery is not blocked, its last effect is taken off to
    /// be undone;
    /// with none left, its instance is given up for disposal.
    pub fn next_recovery(&mut self) -> (r: RecoveryStep)
        requires
            old(self).well_formed(),
        ensures
            final(self).well_formed(),
            (forall|j: int| 0 <= j < old(self).fibers@.len() ==> !#[trigger] recoverable(*old(self), j))
                ==> r == RecoveryStep::Idle && *final(self) == *old(self),
            forall|j: int| 0 <= j < old(self).fibers@.len() && #[trigger] recoverable(*old(self), j)
                && (forall|m: int| 0 <= m < j ==> !recoverable(*old(self), m)) ==> {
                let f = old(self).fibers@[j];
                &&& final(self).fibers@.len() == old(self).fibers@.len()
                &&& final(self).fibers@ == old(self).fibers@.update(j, final(self).fibers@[j])
                &&& *final(self) == (Core { fibers: final(self).fibers, ..*old(self) })
                &&& if f.accumulator@.len() > 0 {
                    &&& r == (RecoveryStep::Undo { fiber: f.id, inverse: f.accumulator@.last() })
                    &&& final(self).fibers@[j] == (Fiber { accumulator: final(self).fibers@[j].accumulator, ..f })
                    &&& final(self).fibers@[j].accumulator@ == f.accumulator@.drop_last()
                } else {
                    &&& r == (RecoveryStep::Finish { fiber: f.id, instance: f.instance, failed: f.outcome })
                    &&& final(self).fibers@[j] == (Fiber { instance: false, ..f })
                }
            },
            forall|m: int| 0 <= m < old(self).fibers@.len() && #[trigger] recoverable(*old(self), m)
                ==> (recovered_fiber(r) matches Some(id) && id.0 <= old(self).fibers@[m].id.0),
    {
        let mut j: usize = 0;
        while j < self.fibers.len()
            invariant
                *self == *old(self),
                self.well_formed(),
                j <= self.fibers@.len(),
                forall|m: int| 0 <= m < j ==> !#[trigger] recoverable(*self, m),
            decreases self.fibers@.len() - j,
        {
            let id = self.fibers[j].id;
            if self.fibers[j].state == InternalState::Unloading && !self.is_relied_on(id) && !holds_id(&self.blocked_recovery, id) {
                assert(recoverable(*old(self), j as int));
                let ghost before = *self;
                let mut f = self.fibers.remove(j);
                let step = if f.accumulator.len() > 0 {
                    let inverse = f.accumulator.pop().unwrap();
                    RecoveryStep::Undo { fiber: id, inverse }
                } else {
                    let failed = match &f.outcome {
                        Some(o) => Some(o.clone()),
                        None => None,
                    };
                    let instance = f.instance;
                    f.instance = false;
                    RecoveryStep::Finish { fiber: id, instance, failed }
                };
                self.fibers.insert(j, f);
                proof {
                    assert(self.fibers@ =~= before.fibers@.update(j as int, self.fibers@[j as int]));
                    assert forall|k: int| 0 <= k < self.fibers@.len() implies #[trigger] self.fibers@[k].spec < self.specs@.len()
                        && self.fibers@[k].workspace_buffers@.len() == self.specs@[self.fibers@[k].spec as int].workspaces@.len() by {
                        if k != j {
                            assert(self.fibers@[k] == before.fibers@[k]);
                        }
                    }
                }
                return step;
            }
            assert(!recoverable(*self, j as int));
            j += 1;
        }
        RecoveryStep::Idle
    }

    /// Settles fiber `fiber` once all its effects are undone and its
    /// instance disposed of: it holds no commitments, staged or inbound
    /// response, or authorizations, and becomes failed with `failed` or
    /// inactive; the trace records a disposal failure `drop_error`, if any,
    /// then the fiber's new state.
    pub fn finish_recovery(&mut self, fiber: FiberId, failed: Option<String>, drop_error: Option<String>) -> (r: Result<(), Error>)
        requires
            old(self).well_formed(),
        ensures
            final(self).well_formed(),
            match first_fiber(old(self).fibers@, fiber) {
                None => r == Err::<(), Error>(Error::Invariant(InvariantIssue::UnloadingFiberMissing)) && *final(self) == *old(self),
                Some(i) => {
                    let f = old(self).fibers@[i];
                    let g = final(self).fibers@[i];
                    let n = old(self).trace@.len();
                    let settled = match failed {
                        Some(e) => TraceEvent::FiberFailed { fiber, path: f.path, error: e },
                        None => TraceEvent::FiberInactive { fiber, path: f.path },
                    };
                    &&& r is Ok
                    &&& final(self).fibers@ == old(self).fibers@.update(i, g)
                    &&& g == (Fiber {
                        committed: g.committed,
                        staged_response: None,
                        staged_usage: None,
                        inbound_response: None,
                        workspace_authorization: None,
                        promotion_authorization: None,
                        state: if failed is Some { InternalState::Failed } else { InternalState::Inactive },
                        outcome: if failed is Some { failed } else { f.outcome },
                        ..f
                    })
                    &&& g.committed@.len() == 0
                    &&& final(self).trace@ == match drop_error {
                        Some(error) => old(self).trace@.push(TraceEvent::DisposalFailed { fiber, path: f.path, error }).push(settled),
                        None => old(self).trace@.push(settled),
                    }
                    &&& *final(self) == (Core { fibers: final(self).fibers, trace: final(self).trace, ..*old(self) })
                },
            },
    {
        let i = match self.find_fiber(fiber) {
            None => return Err(Error::Invariant(InvariantIssue::UnloadingFiberMissing)),
            Some(i) => i,
        };
        proof {
            lemma_first_fiber(old(self).fibers@, fiber);
        }
        let ghost before = *self;
        let mut f = self.fibers.remove(i);
        f.committed = Vec::new();
        f.staged_response = None;
        f.staged_usage = None;
        f.inbound_response = None;
        f.workspace_authorization = None;
        f.promotion_authorization = None;
        let path = f.path.clone();
        let settled = match failed {
            Some(error) => {
                f.state = InternalState::Failed;
                f.outcome = Some(error.clone());
                TraceEvent::FiberFailed { fiber, path: path.clone(), error }
            },
            None => {
                f.state = InternalState::Inactive;
                TraceEvent::FiberInactive { fiber, path: path.clone() }
            },
        };
        self.fibers.insert(i, f);
        if let Some(error) = drop_error {
            self.trace.push(TraceEvent::DisposalFailed { fiber, path, error });
        }
        self.trace.push(settled);
        proof {
            assert(self.fibers@ =~= before.fibers@.update(i as int, self.fibers@[i as int]));
            assert forall|k: int| 0 <= k < self.fibers@.len() implies #[trigger] self.fibers@[k].spec < self.specs@.len()
                && self.fibers@[k].workspace_buffers@.len() == self.specs@[self.fibers@[k].spec as int].workspaces@.len() by {
                if k != i {
                    assert(self.fibers@[k] == before.fibers@[k]);
                }
            }
        }
        Ok(())
    }
}


/// `t` has a root whose entry is `segment`.
pub open spec fn has_root(t: ComponentTree, segment: Seq<u8>) -> bool {
    named_root(t.roots@, segment) is Some
}

/// Patch owner `k` forbids declaring `prepared` in place of `desired`: the
/// root of its target comes or goes, and its actor is gone or its root is
/// declared.
pub open spec fn owner_blocks(c: Core, desired: ComponentTree, prepared: ComponentTree, k: int) -> bool {
    let o = c.patch_owners@[k];
    let segment = root_segment(encode_utf8(o.target@));
    &&& has_root(desired, segment) != has_root(prepared, segment)
    &&& match first_fiber(c.fibers@, o.fiber) {
        None => true,
        Some(j) => has_root(prepared, root_segment(encode_utf8(c.fibers@[j].path@))),
    }
}

/// Desired root `k` stays with another declaration.
pub open spec fn root_changed(desired: ComponentTree, prepared: ComponentTree, k: int) -> bool {
    named_root(prepared.roots@, encode_utf8(desired.roots@[k].entry@)) matches Some(j)
        && !same_declaration(desired.roots@[k], prepared.roots@[j])
}

/// Prepared root `k` is new to the composition and a fiber already stands
/// at its entry with another declaration.
pub open spec fn root_reappears_changed(c: Core, desired: ComponentTree, prepared: ComponentTree, k: int) -> bool {
    let r = prepared.roots@[k];
    &&& !has_root(desired, encode_utf8(r.entry@))
    &&& exists|i: int| first_at_path(c.fibers@, r.entry@, i)
        && !same_declaration(c.specs@[c.fibers@[i].spec as int].declaration, r)
}

/// Prepared root `k` is new and no fiber stands at its entry.
pub open spec fn root_inserted(c: Core, desired: ComponentTree, prepared: ComponentTree, k: int) -> bool {
    let r = prepared.roots@[k];
    &&& !has_root(desired, encode_utf8(r.entry@))
    &&& forall|j: int| 0 <= j < c.fibers@.len() ==> #[trigger] c.fibers@[j].path@ != r.entry@
}

/// How many of the first `n` prepared roots need a new fiber.
pub open spec fn inserted_count(c: Core, desired: ComponentTree, prepared: ComponentTree, n: nat) -> nat
    decreases n,
{
    if n == 0 {
        0
    } else {
        inserted_count(c, desired, prepared, (n - 1) as nat) + if root_inserted(c, desired, prepared, n - 1) { 1nat } else { 0nat }
    }
}

proof fn lemma_first_at_path_unique(fibers: Seq<Fiber>, path: Seq<char>, a: int, b: int)
    requires
        first_at_path(fibers, path, a),
        first_at_path(fibers, path, b),
    ensures
        a == b,
{
    if a < b {
        assert(fibers[a].path@ != path);
    }
    if b < a {
        assert(fibers[b].path@ != path);
    }
}

impl Core {
    /// Whether `t` has a root whose entry is the root segment of `path`.
    fn declares_root_of(t: &ComponentTree, path: &str) -> (r: bool)
        ensures
            r == has_root(*t, root_segment(path.spec_bytes())),
    {
        let bytes = path.as_bytes();
        let n = root_len(bytes);
        let segment = vstd::slice::slice_subrange(bytes, 0, n);
        assert(segment@ == root_segment(path.spec_bytes()));
        find_named(&t.roots, segment).is_some()
    }

    /// Checks a declaration of the roots `prepared` in place of the
    /// composition `desired`, before any fiber changes, in the order the
    /// runtime checks it: no patch in flight may see its target's root come
    /// or go while its requester's root is declared (nor may its requester
    /// be gone); a root that stays keeps its declaration; a new root at
    /// whose entry a fiber still stands comes back with that fiber's
    /// declaration; and the fibers with the roots still to start stay within
    /// the component limit. Returns whether the composition changes.
    pub fn check_declaration(&self, desired: &ComponentTree, prepared: &ComponentTree) -> (r: Result<bool, Error>)
        requires
            self.well_formed(),
            self.fibers@.len() + prepared.roots@.len() <= usize::MAX,
        ensures
            (exists|k: int| 0 <= k < self.patch_owners@.len() && owner_blocks(*self, *desired, *prepared, k))
                ==> exists|k: int| 0 <= k < self.patch_owners@.len() && owner_blocks(*self, *desired, *prepared, k)
                    && (forall|m: int| 0 <= m < k ==> !owner_blocks(*self, *desired, *prepared, m))
                    && (if first_fiber(self.fibers@, self.patch_owners@[k].fiber) is None {
                        r == Err::<bool, Error>(Error::Invariant(InvariantIssue::PatchOwnerMissing))
                    } else {
                        r matches Err(Error::PatchTargetOwned(t)) && t == self.patch_owners@[k].target
                    }),
            !(exists|k: int| 0 <= k < self.patch_owners@.len() && owner_blocks(*self, *desired, *prepared, k))
                && (exists|k: int| 0 <= k < desired.roots@.len() && root_changed(*desired, *prepared, k))
                ==> exists|k: int| 0 <= k < desired.roots@.len() && root_changed(*desired, *prepared, k)
                    && (forall|m: int| 0 <= m < k ==> !root_changed(*desired, *prepared, m))
                    && (r matches Err(Error::RootChanged(e)) && e == desired.roots@[k].entry),
            !(exists|k: int| 0 <= k < self.patch_owners@.len() && owner_blocks(*self, *desired, *prepared, k))
                && !(exists|k: int| 0 <= k < desired.roots@.len() && root_changed(*desired, *prepared, k))
                && (exists|k: int| 0 <= k < prepared.roots@.len() && root_reappears_changed(*self, *desired, *prepared, k))
                ==> exists|k: int| 0 <= k < prepared.roots@.len() && root_reappears_changed(*self, *desired, *prepared, k)
                    && (forall|m: int| 0 <= m < k ==> !root_reappears_changed(*self, *desired, *prepared, m))
                    && (r matches Err(Error::RootReappeared(e)) && e == prepared.roots@[k].entry),
            !(exists|k: int| 0 <= k < self.patch_owners@.len() && owner_blocks(*self, *desired, *prepared, k))
                && !(exists|k: int| 0 <= k < desired.roots@.len() && root_changed(*desired, *prepared, k))
                && !(exists|k: int| 0 <= k < prepared.roots@.len() && root_reappears_changed(*self, *desired, *prepared, k))
                ==> {
                    let actual = self.fibers@.len() + inserted_count(*self, *desired, *prepared, prepared.roots@.len());
                    if actual > self.limits.max_components {
                        r == Err::<bool, Error>(Error::ComponentLimit { actual: actual as usize, limit: self.limits.max_components })
                    } else {
                        r == Ok::<bool, Error>(!same_composition(*desired, *prepared))
                    }
                },
    {
        let mut k: usize = 0;
        while k < self.patch_owners.len()
            invariant
                self.well_formed(),
                k <= self.patch_owners@.len(),
                forall|m: int| 0 <= m < k ==> !owner_blocks(*self, *desired, *prepared, m),
            decreases self.patch_owners@.len() - k,
        {
            let o = &self.patch_owners[k];
            let target = o.target.as_str();
            if Self::declares_root_of(desired, target) != Self::declares_root_of(prepared, target) {
                proof {
                    lemma_first_fiber(self.fibers@, o.fiber);
                }
                match self.find_fiber(o.fiber) {
                    None => {
                        assert(owner_blocks(*self, *desired, *prepared, k as int));
                        return Err(Error::Invariant(InvariantIssue::PatchOwnerMissing));
                    },
                    Some(j) => {
                        if Self::declares_root_of(prepared, self.fibers[j].path.as_str()) {
                            assert(owner_blocks(*self, *desired, *prepared, k as int));
                            return Err(Error::PatchTargetOwned(o.target.clone()));
                        }
                    },
                }
            }
            assert(!owner_blocks(*self, *desired, *prepared, k as int));
            k += 1;
        }
        let mut k: usize = 0;
        while k < desired.roots.len()
            invariant
                k <= desired.roots@.len(),
                forall|m: int| 0 <= m < self.patch_owners@.len() ==> !owner_blocks(*self, *desired, *prepared, m),
                forall|m: int| 0 <= m < k ==> !root_changed(*desired, *prepared, m),
            decreases desired.roots@.len() - k,
        {
            let root = &desired.roots[k];
            let entry = root.entry.as_str().as_bytes();
            match find_named(&prepared.roots, entry) {
                None => {},
                Some(j) => {
                    proof {
                        lemma_child_named_unique(prepared.roots@, entry@, j as int, choose|x: int| child_named(prepared.roots@, entry@, x));
                    }
                    if !same_spec(root, &prepared.roots[j]) {
                        assert(root_changed(*desired, *prepared, k as int));
                        return Err(Error::RootChanged(root.entry.clone()));
                    }
                },
            }
            assert(!root_changed(*desired, *prepared, k as int));
            k += 1;
        }
        let mut count: usize = 0;
        let mut k: usize = 0;
        while k < prepared.roots.len()
            invariant
                self.well_formed(),
                k <= prepared.roots@.len(),
                count == inserted_count(*self, *desired, *prepared, k as nat),
                count <= k,
                self.fibers@.len() + prepared.roots@.len() <= usize::MAX,
                forall|m: int| 0 <= m < self.patch_owners@.len() ==> !owner_blocks(*self, *desired, *prepared, m),
                forall|m: int| 0 <= m < desired.roots@.len() ==> !root_changed(*desired, *prepared, m),
                forall|m: int| 0 <= m < k ==> !root_reappears_changed(*self, *desired, *prepared, m),
            decreases prepared.roots@.len() - k,
        {
            let root = &prepared.roots[k];
            let entry = root.entry.as_str();
            if find_named(&desired.roots, entry.as_bytes()).is_none() {
                match self.find_path(entry) {
                    Some(i) => {
                        proof {
                            assert forall|x: int| first_at_path(self.fibers@, root.entry@, x) implies x == i by {
                                lemma_first_at_path_unique(self.fibers@, root.entry@, x, i as int);
                            }
                        }
                        if !same_spec(&self.specs[self.fibers[i].spec].declaration, root) {
                            assert(root_reappears_changed(*self, *desired, *prepared, k as int));
                            return Err(Error::RootReappeared(root.entry.clone()));
                        }
                        assert(!root_inserted(*self, *desired, *prepared, k as int));
                    },
                    None => {
                        count += 1;
                    },
                }
            }
            assert(!root_reappears_changed(*self, *desired, *prepared, k as int));
            k += 1;
        }
        if self.fibers.len() + count > self.limits.max_components {
            return Err(Error::ComponentLimit { actual: self.fibers.len() + count, limit: self.limits.max_components });
        }
        Ok(!same_tree(desired, prepared))
    }
}


/// Fiber `id` is registered for a root that `prepared` drops from `desired`.
pub open spec fn dropped_root_fiber(c: Core, desired: ComponentTree, prepared: ComponentTree, id: FiberId) -> bool {
    exists|k: int| 0 <= k < desired.roots@.len()
        && !has_root(prepared, encode_utf8(#[trigger] desired.roots@[k].entry@))
        && (first_root(c.roots@, encode_utf8(desired.roots@[k].entry@)) matches Some(x) && c.roots@[x].fiber == id)
}

/// Fiber `j` stands first at the entry of a root that `prepared` adds to
/// `desired`.
pub open spec fn revived_fiber(c: Core, desired: ComponentTree, prepared: ComponentTree, j: int) -> bool {
    exists|k: int| 0 <= k < prepared.roots@.len()
        && !has_root(desired, encode_utf8(#[trigger] prepared.roots@[k].entry@))
        && first_at_path(c.fibers@, prepared.roots@[k].entry@, j)
}

/// Whether fiber `j` is retired once a declaration of `prepared` in place
/// of `desired` settles: a revived fiber is not, a dropped root's fiber is,
/// any other keeps its retirement.
pub open spec fn settled_retired(c: Core, desired: ComponentTree, prepared: ComponentTree, j: int) -> bool {
    if revived_fiber(c, desired, prepared, j) {
        false
    } else if dropped_root_fiber(c, desired, prepared, c.fibers@[j].id) {
        true
    } else {
        c.fibers@[j].retired
    }
}

impl Core {
    /// The position of the first root registered for `segment`.
    fn find_root(&self, segment: &[u8]) -> (r: Option<usize>)
        ensures
            match r {
                Some(x) => x < self.roots@.len() && first_root(self.roots@, segment@) == Some(x as int),
                None => first_root(self.roots@, segment@) is None,
            },
    {
        let mut x: usize = 0;
        while x < self.roots.len() && !entry_is(&self.roots[x].entry, segment)
            invariant
                x <= self.roots@.len(),
                forall|j: int| 0 <= j < x ==> encode_utf8(#[trigger] self.roots@[j].entry@) != segment@,
            decreases self.roots@.len() - x,
        {
            x = x + 1;
        }
        if x == self.roots.len() {
            return None;
        }
        let ghost chosen = first_root(self.roots@, segment@);
        assert(encode_utf8(self.roots@[x as int].entry@) == segment@);
        assert(chosen == Some(x as int));
        Some(x)
    }

    /// Whether fiber `id` is registered for a root `prepared` drops.
    fn drops_fiber(&self, desired: &ComponentTree, prepared: &ComponentTree, id: FiberId) -> (r: bool)
        ensures
            r == dropped_root_fiber(*self, *desired, *prepared, id),
    {
        let mut k: usize = 0;
        while k < desired.roots.len()
            invariant
                k <= desired.roots@.len(),
                forall|m: int| 0 <= m < k ==> !(!has_root(*prepared, encode_utf8(#[trigger] desired.roots@[m].entry@))
                    && (first_root(self.roots@, encode_utf8(desired.roots@[m].entry@)) matches Some(x) && self.roots@[x].fiber == id)),
            decreases desired.roots@.len() - k,
        {
            let entry = desired.roots[k].entry.as_str().as_bytes();
            if find_named(&prepared.roots, entry).is_none() {
                match self.find_root(entry) {
                    Some(x) => {
                        if self.roots[x].fiber == id {
                            return true;
                        }
                    },
                    None => {},
                }
            }
            k += 1;
        }
        false
    }

    /// Whether fiber `j` stands first at the entry of a root `prepared` adds.
    fn revives(&self, desired: &ComponentTree, prepared: &ComponentTree, j: usize) -> (r: bool)
        ensures
            r == revived_fiber(*self, *desired, *prepared, j as int),
    {
        let mut k: usize = 0;
        while k < prepared.roots.len()
            invariant
                k <= prepared.roots@.len(),
                forall|m: int| 0 <= m < k ==> !(!has_root(*desired, encode_utf8(#[trigger] prepared.roots@[m].entry@))
                    && first_at_path(self.fibers@, prepared.roots@[m].entry@, j as int)),
            decreases prepared.roots@.len() - k,
        {
            let entry = prepared.roots[k].entry.as_str();
            if find_named(&desired.roots, entry.as_bytes()).is_none() {
                match self.find_path(entry) {
                    Some(i) => {
                        if i == j {
                            return true;
                        }
                        proof {
                            if first_at_path(self.fibers@, prepared.roots@[k as int].entry@, j as int) {
                                lemma_first_at_path_unique(self.fibers@, prepared.roots@[k as int].entry@, i as int, j as int);
                            }
                        }
                    },
                    None => {},
                }
            }
            k += 1;
        }
        false
    }

    /// Whether some root that `prepared` drops is registered for a fiber
    /// that does not exist.
    fn dropped_fiber_missing(&self, desired: &ComponentTree, prepared: &ComponentTree) -> (r: bool)
        ensures
            r == exists|id: FiberId| dropped_root_fiber(*self, *desired, *prepared, id) && first_fiber(self.fibers@, id) is None,
    {
        let mut k: usize = 0;
        while k < desired.roots.len()
            invariant
                k <= desired.roots@.len(),
                forall|m: int| 0 <= m < k ==> !(!has_root(*prepared, encode_utf8(#[trigger] desired.roots@[m].entry@))
                    && (first_root(self.roots@, encode_utf8(desired.roots@[m].entry@)) matches Some(x)
                        && first_fiber(self.fibers@, self.roots@[x].fiber) is None)),
            decreases desired.roots@.len() - k,
        {
            let entry = desired.roots[k].entry.as_str().as_bytes();
            if find_named(&prepared.roots, entry).is_none() {
                match self.find_root(entry) {
                    Some(x) => {
                        if self.find_fiber(self.roots[x].fiber).is_none() {
                            assert(dropped_root_fiber(*self, *desired, *prepared, self.roots@[x as int].fiber));
                            return true;
                        }
                    },
                    None => {},
                }
            }
            k += 1;
        }
        proof {
            assert forall|id: FiberId| !(dropped_root_fiber(*self, *desired, *prepared, id) && first_fiber(self.fibers@, id) is None) by {
                if dropped_root_fiber(*self, *desired, *prepared, id) {
                    let k = choose|k: int| 0 <= k < desired.roots@.len()
                        && !has_root(*prepared, encode_utf8(#[trigger] desired.roots@[k].entry@))
                        && (first_root(self.roots@, encode_utf8(desired.roots@[k].entry@)) matches Some(x) && self.roots@[x].fiber == id);
                    assert(!(!has_root(*prepared, encode_utf8(desired.roots@[k].entry@))
                        && (first_root(self.roots@, encode_utf8(desired.roots@[k].entry@)) matches Some(x)
                            && first_fiber(self.fibers@, self.roots@[x].fiber) is None)));
                }
            }
        }
        false
    }

    /// Whether each fiber is retired once the declaration settles.
    fn retirement_flags(&self, desired: &ComponentTree, prepared: &ComponentTree) -> (flags: Vec<bool>)
        ensures
            flags@.len() == self.fibers@.len(),
            forall|m: int| 0 <= m < self.fibers@.len() ==> #[trigger] flags@[m] == settled_retired(*self, *desired, *prepared, m),
    {
        let mut flags: Vec<bool> = Vec::new();
        let mut j: usize = 0;
        while j < self.fibers.len()
            invariant
                j <= self.fibers@.len(),
                flags@.len() == j,
                forall|m: int| 0 <= m < j ==> #[trigger] flags@[m] == settled_retired(*self, *desired, *prepared, m),
            decreases self.fibers@.len() - j,
        {
            let flag = if self.revives(desired, prepared, j) {
                false
            } else if self.drops_fiber(desired, prepared, self.fibers[j].id) {
                true
            } else {
                self.fibers[j].retired
            };
            flags.push(flag);
            j += 1;
        }
        flags
    }

    /// Sets the retirement of each fiber to its flag.
    fn apply_retirement(&mut self, flags: &Vec<bool>)
        requires
            old(self).well_formed(),
            flags@.len() == old(self).fibers@.len(),
        ensures
            final(self).well_formed(),
            final(self).fibers@.len() == old(self).fibers@.len(),
            forall|m: int| 0 <= m < old(self).fibers@.len() ==> #[trigger] final(self).fibers@[m] == (Fiber { retired: flags@[m], ..old(self).fibers@[m] }),
            *final(self) == (Core { fibers: final(self).fibers, ..*old(self) }),
    {
        let mut j: usize = 0;
        while j < flags.len()
            invariant
                flags@.len() == old(self).fibers@.len(),
                j <= flags@.len(),
                self.fibers@.len() == old(self).fibers@.len(),
                forall|m: int| 0 <= m < j ==> #[trigger] self.fibers@[m] == (Fiber { retired: flags@[m], ..old(self).fibers@[m] }),
                forall|m: int| j <= m < self.fibers@.len() ==> #[trigger] self.fibers@[m] == old(self).fibers@[m],
                *self == (Core { fibers: self.fibers, ..*old(self) }),
            decreases flags@.len() - j,
        {
            let mut f = self.fibers.remove(j);
            f.retired = flags[j];
            self.fibers.insert(j, f);
            j += 1;
        }
        proof {
            assert forall|m: int| 0 <= m < self.fibers@.len() implies #[trigger] self.fibers@[m].spec < self.specs@.len()
                && self.fibers@[m].workspace_buffers@.len() == self.specs@[self.fibers@[m].spec as int].workspaces@.len() by {
                assert(self.fibers@[m].spec == old(self).fibers@[m].spec);
            }
            assert forall|a: int, b: int| 0 <= a < b < self.fibers@.len() implies (#[trigger] self.fibers@[a]).id.0 < (#[trigger] self.fibers@[b]).id.0 by {
                assert(self.fibers@[a].id == old(self).fibers@[a].id);
                assert(self.fibers@[b].id == old(self).fibers@[b].id);
            }
            assert forall|a: int| 0 <= a < self.fibers@.len() implies (#[trigger] self.fibers@[a]).id.0 < self.next_fiber by {
                assert(self.fibers@[a].id == old(self).fibers@[a].id);
            }
        }
    }

    /// Settles a declaration that `check_declaration` accepted: the fibers
    /// of roots that `prepared` drops from `desired` are retired, a fiber
    /// still standing at the entry of a root it adds is revived, and the
    /// composition revision moves on where the composition `changed` and the
    /// caller asks for it. A dropped root registered for a missing fiber
    /// breaks the core's bookkeeping, and nothing changes.
    pub fn settle_declaration(&mut self, desired: &ComponentTree, prepared: &ComponentTree, changed: bool, increment: bool) -> (r: Result<(), Error>)
        requires
            old(self).well_formed(),
            old(self).composition_revision < u64::MAX,
        ensures
            final(self).well_formed(),
            (exists|id: FiberId| dropped_root_fiber(*old(self), *desired, *prepared, id) && first_fiber(old(self).fibers@, id) is None)
                ==> r == Err::<(), Error>(Error::Invariant(InvariantIssue::RetiredFiberMissing)) && *final(self) == *old(self),
            !(exists|id: FiberId| dropped_root_fiber(*old(self), *desired, *prepared, id) && first_fiber(old(self).fibers@, id) is None) ==> {
                &&& r is Ok
                &&& final(self).fibers@.len() == old(self).fibers@.len()
                &&& forall|j: int| 0 <= j < old(self).fibers@.len() ==> #[trigger] final(self).fibers@[j] == (Fiber {
                    retired: settled_retired(*old(self), *desired, *prepared, j),
                    ..old(self).fibers@[j]
                })
                &&& final(self).composition_revision == if changed && increment {
                    (old(self).composition_revision + 1) as u64
                } else {
                    old(self).composition_revision
                }
                &&& *final(self) == (Core { fibers: final(self).fibers, composition_revision: final(self).composition_revision, ..*old(self) })
            },
    {
        if self.dropped_fiber_missing(desired, prepared) {
            return Err(Error::Invariant(InvariantIssue::RetiredFiberMissing));
        }
        let flags = self.retirement_flags(desired, prepared);
        self.apply_retirement(&flags);
        if changed && increment {
            self.composition_revision = self.composition_revision + 1;
        }
        Ok(())
    }
}

} // verus!
