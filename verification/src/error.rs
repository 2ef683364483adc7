//! The kernel's error values. Each variant carries plain data; the host
//! renders them as text.

use vstd::prelude::*;

verus! {

/// Why a manifest, component declaration, or grant was refused.
#[derive(Clone, Copy, Debug, PartialEq, Eq, Structural)]
pub enum ManifestIssue {
    ExecutionMode,
    EmptyIdentity,
    ConfigSchema,
    ZeroActivationSteps,
    InvalidInjected,
    DuplicateInjectedSlot(u64),
    InvalidProvided,
    DuplicateProvidedSlot(u64),
    DuplicateProvidedInterface,
}

/// Why a composition patch was refused.
#[derive(Clone, Copy, Debug, PartialEq, Eq, Structural)]
pub enum PatchIssue {
    EmptySegment,
    AddedRootEntry,
    RemovedRootEntry,
    RemovesSelfOrAncestor,
    ReplacementEntryMismatch,
    ReplacesSelfOrAncestor,
    PersistenceRoot,
    RootExists,
}

/// Why a composition journal is corrupt.
#[derive(Clone, Copy, Debug, PartialEq, Eq, Structural)]
pub enum JournalIssue {
    /// The file does not start with the journal magic.
    InvalidMagic,
    /// A frame's length runs past the addressable range.
    LengthOverflow,
    /// A frame's sequence number does not follow the previous one.
    SequenceGap { found: u64, previous: u64 },
    /// A frame's checksum does not match its sequence, length and payload.
    ChecksumMismatch(u64),
    /// A record has a schema this journal does not read.
    UnsupportedSchema(u32),
    /// The recorded next event identity precedes the recovered outbox.
    OutboxAhead,
}

/// Why a mutation ledger contradicts a publication or promotion.
#[derive(Clone, Copy, Debug, PartialEq, Eq, Structural)]
pub enum MutationIssue {
    /// A promotion found no publication record.
    NoPublicationRecord,
    /// A publication inverse found no record.
    NoInverseRecord,
    /// A promotion inverse found no record.
    NoPromotionRecord,
    /// A promotion of this operation named another approver.
    ApproverChanged(u64),
    /// A restoration inverse remained armed after the promotion committed.
    ArmedAfterPromotion,
    /// A promotion inverse names another approver than the ledger.
    InverseApprover,
    /// A promotion inverse finds no committed promotion.
    InverseCommit,
}

/// Which bookkeeping fact of the kernel's core was found broken.
#[derive(Clone, Copy, Debug, PartialEq, Eq, Structural)]
pub enum InvariantIssue {
    /// A fiber to retire does not exist.
    RetiredFiberMissing,
    /// A fiber to remove does not exist.
    RemovedFiberMissing,
    /// A fiber to remove still holds effects or work in flight.
    RetainedEffects,
    /// A binding's inverse found no installed binding.
    BindingMissing,
    /// A binding's inverse names another provider than the installed one.
    BindingOwner,
    /// A registration's inverse found no registration.
    RegistrationMissing,
    /// A composition inverse reached the core, which cannot undo it alone.
    CompositionInverse,
    /// A journal's inverse found no registered journal.
    JournalMissing,
    /// A journal's inverse names another owner.
    JournalOwner,
    /// An event stream's inverse found no registered stream.
    EventStreamMissing,
    /// An event stream's inverse names another owner.
    EventStreamOwner,
    /// An exchange ledger's inverse found no registered ledger.
    ExchangeMissing,
    /// An exchange ledger's inverse names another owner.
    ExchangeOwner,
    /// A workspace inverse's owner disappeared.
    WorkspaceOwnerMissing,
    /// A child's registration under its parent disappeared.
    ParentRegistration,
    /// A root's registration disappeared.
    RootRegistration,
    /// A root's registration names another fiber.
    RootOwner,
    /// A replacement's candidate fiber disappeared.
    CandidateMissing,
    /// A patch owner's fiber disappeared.
    PatchOwnerMissing,
    /// A fiber being unloaded disappeared.
    UnloadingFiberMissing,
    /// A patch's requesting fiber disappeared while it was committed or undone.
    PatchActorMissing,
    /// A patch's inverse disappeared before it was undone.
    PatchInverseMissing,
    /// A patch's inverse was not the last effect of its requester.
    PatchInverseNotLast,
    /// A composition inverse's fiber no longer owns its target.
    CompositionNotOwned,
    /// A composition inverse's fiber disappeared.
    CompositionOwnerMissing,
    /// A fiber chosen to begin activating disappeared.
    ActivationCandidateMissing,
    /// A replacement's candidate disappeared before its rollback began.
    RollbackCandidateMissing,
    /// A rolled-back candidate disappeared before it left the fibers.
    RejectedCandidateMissing,
    /// A rolled-back candidate still held effects or a live instance.
    RejectedRetainedEffects,
    /// A pending event's grant is no longer among its requester's grants.
    EventGrantMissing,
    /// A patch owner holds no inverse restoring its target.
    CompositionInverseMissing,
    /// A replaced generation disappeared before its candidate took its place.
    SwapPreviousMissing,
    /// A replaced generation still held effects or a live instance.
    SwapRetainedEffects,
    /// A generation to replace disappeared before it was pinned.
    ReplacedMissing,
    /// A replaced generation disappeared while its candidate's workspaces
    /// were staged.
    StagedReplacedMissing,
    /// A pinned replaced generation disappeared while it unloaded.
    PinnedReplacedMissing,
    /// A replaced generation did not become inactive.
    ReplacedStillLoaded,
    /// An event to withdraw found the outbox empty.
    OutboxEmpty,
    /// An event to withdraw was not the newest in the outbox.
    OutboxTailNotOwned,
}

/// Which pairing of requested authority and admitted grants a component
/// declaration breaks.
#[derive(Clone, Copy, Debug, PartialEq, Eq, Structural)]
pub enum DeclarationIssue {
    /// Open-journal authority without an admitted journal path, or the reverse.
    JournalAuthority,
    /// Journal paths admitted below the persistence bootstrap root.
    JournalPathsReserved,
    /// Open-event-stream authority without an admitted path, or the reverse.
    EventStreamAuthority,
    /// Event stream paths admitted below the persistence bootstrap root.
    EventStreamPathsReserved,
    /// Ordinary and replay-aware event append authority together.
    MixedAppendAuthority,
    /// Event append authority without admitted event grants, or the reverse.
    EventGrantAuthority,
    /// An event grant without a namespace, a name, or a revision.
    InvalidEventGrant,
    /// An event grant admitted twice.
    DuplicateEventGrant,
    /// Snapshot authority without admitted snapshot grants, or the reverse.
    SnapshotAuthority,
    /// Open-exchange and exchange authority not requested together, or not
    /// paired with admitted exchange grants.
    ExchangeAuthority,
    /// An exchange grant without an adapter or a bound, or one whose adapter
    /// an earlier grant names.
    InvalidExchangeGrant,
    /// A snapshot grant without a provenance, or admitted twice.
    InvalidSnapshotGrant,
    /// Workspace read, write and publish authority not requested together,
    /// or not paired with admitted workspace grants.
    WorkspaceAuthority,
}

/// Why the persistence bootstrap was refused.
#[derive(Clone, Copy, Debug, PartialEq, Eq, Structural)]
pub enum PersistenceIssue {
    /// The bootstrap component admits other than one journal path, at most
    /// one event stream path, and no grants, children or patches.
    BootstrapShape,
    /// The bootstrap component registered no journal.
    JournalNotRegistered,
    /// The bootstrap component registered no event stream it was admitted.
    EventStreamNotRegistered,
    /// The journal is owned by another fiber than the bootstrap root.
    JournalOwner,
    /// The event stream and the journal have different owners.
    EventStreamOwner,
    /// An event was to be queued with no event stream registered.
    EventStreamUnavailable,
}

/// Errors raised by the kernel's verified decisions.
#[derive(Clone, Debug, PartialEq, Eq)]
pub enum Error {
    AbiVersion { expected: u32, actual: u32 },
    Manifest(ManifestIssue),
    InvalidPatch(PatchIssue),
    JournalCorrupt(JournalIssue),
    JournalRecordLimit { actual: usize, limit: usize },
    ProviderCollision { namespace: String, interface: String, revision: u32 },
    /// The components on a dependency cycle, the first repeated at the end.
    DependencyCycle(Vec<String>),
    /// A workspace grant's operation, provenance, bound or digests are invalid.
    InvalidWorkspaceGrant,
    WorkspaceDigestMismatch { path: String, expected: String, actual: Vec<u8> },
    WorkspaceBytesLimit { actual: usize, limit: usize },
    MutationRecordLimit { actual: usize, limit: usize },
    MutationCorrupt(MutationIssue),
    MutationAmbiguous(String),
    /// The kernel's own bookkeeping was found broken.
    Invariant(InvariantIssue),
    /// A component entry that is not one non-empty path segment.
    InvalidEntry(String),
    /// No component of the composition stands at this path.
    UnknownEntry(String),
    /// Two components of one tree level with the same entry, at this path.
    DuplicateEntry(String),
    ComponentLimit { actual: usize, limit: usize },
    DepthLimit { actual: usize, limit: usize },
    /// Reconciliation took this many steps and was still not quiet.
    ReconciliationLimit(usize),
    /// The component with this id declares more activation steps than allowed.
    ActivationLimit(String),
    SnapshotGrantLimit { actual: usize, limit: usize },
    SnapshotBytesLimit { actual: usize, limit: usize },
    /// A snapshot's bytes do not have the length and digest its grant pins.
    SnapshotDigestMismatch { path: String, expected: String, actual: Vec<u8> },
    /// An artifact's bytes do not have the digest its declaration pins.
    ArtifactDigestMismatch { path: String, expected: String, actual: Vec<u8> },
    EventRecordLimit { actual: usize, limit: usize },
    EventRecordBytesLimit { actual: usize, limit: usize },
    PayloadCountLimit { actual: usize, limit: usize },
    PayloadBytesLimit { actual: usize, limit: usize },
    PayloadTotalBytesLimit { actual: usize, limit: usize },
    /// The persistence bootstrap was refused.
    Persistence(PersistenceIssue),
    /// A retained root's declaration changed outside a replacement.
    RootChanged(String),
    /// A root came back with another declaration than its restored fiber's.
    RootReappeared(String),
    /// A composition patch in flight owns a path that overlaps this one.
    PatchTargetOwned(String),
    /// A replacement's entry differs from the entry it replaces.
    ReplacementEntry { entry: String, expected: String },
    /// The durable event stream refused what it was given.
    EventCorrupt(String),
    /// The component at `path` breaks a rule on its authority.
    Declaration { path: String, issue: DeclarationIssue },
}

} // verus!
