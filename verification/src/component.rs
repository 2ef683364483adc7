//! Component specifications and the observable shapes of a running composition.

use vstd::prelude::*;
use crate::composition::CompositionPatch;
use crate::exchange::ExchangeGrant;
use crate::journal::{EventGrant, SnapshotGrant};
use crate::repository::WorkspaceGrant;

verus! {

/// The identity of one generation of a component instance.
#[derive(Clone, Copy, Debug, PartialEq, Eq, Structural, Hash, PartialOrd, Ord)]
pub struct FiberId(pub u64);

/// The declaration of one component in a tree: its entry name, artifact,
/// configuration, children, patches it may apply, and granted authorities.
#[derive(Debug, PartialEq, Eq)]
pub struct ComponentSpec {
    pub entry: String,
    pub artifact: String,
    pub artifact_digest: Option<String>,
    pub config: u64,
    pub children: Vec<ComponentSpec>,
    pub patches: Vec<CompositionPatch>,
    pub journal_paths: Vec<String>,
    pub event_stream_paths: Vec<String>,
    pub event_grants: Vec<EventGrant>,
    pub snapshot_grants: Vec<SnapshotGrant>,
    pub exchange_grants: Vec<ExchangeGrant>,
    pub workspace_grants: Vec<WorkspaceGrant>,
}

impl ComponentSpec {
    /// A specification of `entry` backed by `artifact`, with no digest pin,
    /// configuration zero, and no children, patches, or grants.
    pub fn new(entry: String, artifact: String) -> (r: Self)
        ensures
            r.entry == entry,
            r.artifact == artifact,
            r.artifact_digest is None,
            r.config == 0,
            r.children@.len() == 0,
            r.patches@.len() == 0,
            r.journal_paths@.len() == 0,
            r.event_stream_paths@.len() == 0,
            r.event_grants@.len() == 0,
            r.snapshot_grants@.len() == 0,
            r.exchange_grants@.len() == 0,
            r.workspace_grants@.len() == 0,
    {
        ComponentSpec {
            entry,
            artifact,
            artifact_digest: None,
            config: 0,
            children: Vec::new(),
            patches: Vec::new(),
            journal_paths: Vec::new(),
            event_stream_paths: Vec::new(),
            event_grants: Vec::new(),
            snapshot_grants: Vec::new(),
            exchange_grants: Vec::new(),
            workspace_grants: Vec::new(),
        }
    }

    /// Replaces the configuration word.
    pub fn with_config(self, config: u64) -> (r: Self)
        ensures
            r == (ComponentSpec { config, ..self }),
    {
        let mut s = self;
        s.config = config;
        s
    }

    /// Replaces the child declarations.
    pub fn with_children(self, children: Vec<ComponentSpec>) -> (r: Self)
        ensures
            r == (ComponentSpec { children, ..self }),
    {
        let mut s = self;
        s.children = children;
        s
    }

    /// Replaces the patches the component may request.
    pub fn with_patches(self, patches: Vec<CompositionPatch>) -> (r: Self)
        ensures
            r == (ComponentSpec { patches, ..self }),
    {
        let mut s = self;
        s.patches = patches;
        s
    }

    /// Pins the artifact to a SHA-256 digest.
    pub fn with_artifact_digest(self, digest: String) -> (r: Self)
        ensures
            r == (ComponentSpec { artifact_digest: Some(digest), ..self }),
    {
        let mut s = self;
        s.artifact_digest = Some(digest);
        s
    }

    /// Replaces the admitted composition journal paths.
    pub fn with_journal_paths(self, paths: Vec<String>) -> (r: Self)
        ensures
            r == (ComponentSpec { journal_paths: paths, ..self }),
    {
        let mut s = self;
        s.journal_paths = paths;
        s
    }

    /// Replaces the admitted event stream paths.
    pub fn with_event_stream_paths(self, paths: Vec<String>) -> (r: Self)
        ensures
            r == (ComponentSpec { event_stream_paths: paths, ..self }),
    {
        let mut s = self;
        s.event_stream_paths = paths;
        s
    }

    /// Replaces the event grants.
    pub fn with_event_grants(self, grants: Vec<EventGrant>) -> (r: Self)
        ensures
            r == (ComponentSpec { event_grants: grants, ..self }),
    {
        let mut s = self;
        s.event_grants = grants;
        s
    }

    /// Replaces the snapshot grants.
    pub fn with_snapshot_grants(self, grants: Vec<SnapshotGrant>) -> (r: Self)
        ensures
            r == (ComponentSpec { snapshot_grants: grants, ..self }),
    {
        let mut s = self;
        s.snapshot_grants = grants;
        s
    }

    /// Replaces the exchange grants.
    pub fn with_exchange_grants(self, grants: Vec<ExchangeGrant>) -> (r: Self)
        ensures
            r == (ComponentSpec { exchange_grants: grants, ..self }),
    {
        let mut s = self;
        s.exchange_grants = grants;
        s
    }

    /// Replaces the workspace grants.
    pub fn with_workspace_grants(self, grants: Vec<WorkspaceGrant>) -> (r: Self)
        ensures
            r == (ComponentSpec { workspace_grants: grants, ..self }),
    {
        let mut s = self;
        s.workspace_grants = grants;
        s
    }
}

/// A declared application: its root components.
#[derive(Debug, Default, PartialEq, Eq)]
pub struct ComponentTree {
    pub roots: Vec<ComponentSpec>,
}

/// Resource bounds the kernel enforces.
#[derive(Clone, Copy, Debug, PartialEq, Eq)]
pub struct Limits {
    pub max_components: usize,
    pub max_depth: usize,
    pub max_activation_steps: u32,
    pub max_reconciliation_steps: usize,
    pub max_journal_record_bytes: usize,
    pub max_event_record_bytes: usize,
    pub max_event_records: usize,
    pub max_snapshot_grants: usize,
    pub max_snapshot_bytes: usize,
    pub max_payload_records: usize,
    pub max_payload_bytes: usize,
    pub max_payload_total_bytes: usize,
    pub max_exchange_record_bytes: usize,
}

impl Default for Limits {
    fn default() -> (r: Self)
        ensures
            r.max_components == 128,
            r.max_depth == 16,
            r.max_activation_steps == 1024,
            r.max_reconciliation_steps == 100_000,
            r.max_journal_record_bytes == 1024 * 1024,
            r.max_event_record_bytes == 256 * 1024,
            r.max_event_records == 512,
            r.max_snapshot_grants == 8,
            r.max_snapshot_bytes == 64 * 1024,
            r.max_payload_records == 64,
            r.max_payload_bytes == 64 * 1024,
            r.max_payload_total_bytes == 512 * 1024,
            r.max_exchange_record_bytes == 128 * 1024,
    {
        Limits {
            max_components: 128,
            max_depth: 16,
            max_activation_steps: 1024,
            max_reconciliation_steps: 100_000,
            max_journal_record_bytes: 1024 * 1024,
            max_event_record_bytes: 256 * 1024,
            max_event_records: 512,
            max_snapshot_grants: 8,
            max_snapshot_bytes: 64 * 1024,
            max_payload_records: 64,
            max_payload_bytes: 64 * 1024,
            max_payload_total_bytes: 512 * 1024,
            max_exchange_record_bytes: 128 * 1024,
        }
    }
}

/// The public lifecycle state of a fiber.
#[derive(Clone, Debug, PartialEq, Eq)]
pub enum FiberState {
    Inactive,
    Activating,
    Active,
    Unloading,
    Failed(String),
}

/// One entry of the kernel's observable trace.
#[derive(Clone, Debug, PartialEq, Eq)]
pub enum TraceEvent {
    FiberActivating { fiber: FiberId, path: String },
    FiberActivated { fiber: FiberId, path: String },
    FiberUnavailable { fiber: FiberId, path: String },
    FiberInactive { fiber: FiberId, path: String },
    FiberFailed { fiber: FiberId, path: String, error: String },
    DisposalFailed { fiber: FiberId, path: String, error: String },
    EffectApplied { fiber: FiberId, effect: u64, kind: String },
    EffectRecovered { fiber: FiberId, effect: u64, kind: String },
    ChildRegistered { parent: FiberId, child: FiberId, path: String },
    ChildRetired { parent: FiberId, child: FiberId, path: String },
    FiberRemoved { fiber: FiberId, path: String },
    ReplacementCommitted { old: FiberId, new: FiberId, path: String },
    ReplacementRolledBack { restored: FiberId, rejected: FiberId, path: String },
    PatchCommitted { actor: FiberId, target: String, revision: u64 },
    PatchRejected { actor: FiberId, target: String, error: String },
    EventQueued { actor: FiberId, id: u64 },
    EventCommitted { actor_path: String, id: u64, sequence: u64 },
    EventRejected { actor: FiberId, error: String },
}

/// Counts of every kind of live resource the kernel holds.
#[derive(Clone, Debug, Default, PartialEq, Eq)]
pub struct ContextObservation {
    pub state_cells: usize,
    pub bindings: usize,
    pub registrations: usize,
    pub fibers: usize,
    pub roots: usize,
    pub live_artifacts: usize,
    pub composition_effects: usize,
    pub pending_patches: usize,
    pub journal_registrations: usize,
    pub pending_events: usize,
    pub staged_events: usize,
    pub event_stream_registrations: usize,
    pub exchange_registrations: usize,
    pub exchange_workers: usize,
}

} // verus!
