//! Component manifests: the declarations an artifact makes about the
//! interfaces it injects and provides and the host capabilities it requests.

use vstd::prelude::*;
use std::collections::BTreeMap;
use crate::error::{Error, ManifestIssue};

verus! {

broadcast use vstd::laws_cmp::group_laws_cmp;

/// The ABI revision this host speaks.
pub const ABI_VERSION: u32 = 11;

/// Whether a binding is a value cell or a callable provider.
#[derive(Clone, Copy, Debug, PartialEq, Eq, Structural)]
pub enum BindingKind {
    Callable,
    Value,
}

/// A host capability a component may request in its manifest.
#[derive(Clone, Copy, Debug, PartialEq, Eq, Structural)]
pub enum HostCapability {
    AppendEvent,
    ApplyPatch,
    EventCount,
    EventPayloadByte,
    EventOutputWrite,
    EventPayloadLen,
    Exchange,
    Invoke,
    OpenEventStream,
    OpenExchange,
    OpenJournal,
    Publish,
    PublishCallable,
    ReadEvent,
    ReadSnapshot,
    RegisterChild,
    Resolve,
    ResumeEvent,
    ResumeEventOutput,
    ResumeExchange,
    ResumeSnapshot,
    SetState,
    WorkspaceRead,
    WorkspaceWrite,
    WorkspacePublish,
    WorkspacePromote,
}

/// A manifest as embedded in a component artifact.
#[derive(Clone, Debug, PartialEq, Eq)]
pub struct Manifest {
    pub abi: u32,
    pub module: String,
    pub version: String,
    pub execution_mode: String,
    pub requested_host_capabilities: Vec<HostCapability>,
    pub component: ComponentDeclaration,
}

/// The component part of a manifest.
#[derive(Clone, Debug, PartialEq, Eq)]
pub struct ComponentDeclaration {
    pub id: String,
    pub config_schema: String,
    pub max_activation_steps: u32,
    pub inject: Vec<RequiredBinding>,
    pub provide: Vec<ProvidedBinding>,
}

/// An interface the component needs injected into a slot.
#[derive(Clone, Debug, PartialEq, Eq)]
pub struct RequiredBinding {
    pub slot: u64,
    pub kind: BindingKind,
    pub namespace: String,
    pub interface: String,
    pub min_revision: u32,
    pub max_revision: u32,
}

/// An interface the component provides from a slot.
#[derive(Clone, Debug, PartialEq, Eq)]
pub struct ProvidedBinding {
    pub slot: u64,
    pub kind: BindingKind,
    pub namespace: String,
    pub interface: String,
    pub revision: u32,
}

/// The identity of a provided interface.
#[derive(Clone, Debug, PartialEq, Eq)]
pub struct InterfaceId {
    pub kind: BindingKind,
    pub namespace: String,
    pub interface: String,
    pub revision: u32,
}

/// A revision range of an interface that a component accepts.
#[derive(Clone, Debug, PartialEq, Eq)]
pub struct Requirement {
    pub kind: BindingKind,
    pub namespace: String,
    pub interface: String,
    pub min_revision: u32,
    pub max_revision: u32,
}

/// The mathematical value of an interface identity.
pub struct InterfaceIdView {
    pub kind: BindingKind,
    pub namespace: Seq<char>,
    pub interface: Seq<char>,
    pub revision: u32,
}

/// The mathematical value of a requirement.
pub struct RequirementView {
    pub kind: BindingKind,
    pub namespace: Seq<char>,
    pub interface: Seq<char>,
    pub min_revision: u32,
    pub max_revision: u32,
}

impl View for InterfaceId {
    type V = InterfaceIdView;

    open spec fn view(&self) -> InterfaceIdView {
        InterfaceIdView {
            kind: self.kind,
            namespace: self.namespace@,
            interface: self.interface@,
            revision: self.revision,
        }
    }
}

impl View for Requirement {
    type V = RequirementView;

    open spec fn view(&self) -> RequirementView {
        RequirementView {
            kind: self.kind,
            namespace: self.namespace@,
            interface: self.interface@,
            min_revision: self.min_revision,
            max_revision: self.max_revision,
        }
    }
}

impl RequiredBinding {
    /// The requirement this binding states, as a mathematical value.
    pub open spec fn requirement_view(&self) -> RequirementView {
        RequirementView {
            kind: self.kind,
            namespace: self.namespace@,
            interface: self.interface@,
            min_revision: self.min_revision,
            max_revision: self.max_revision,
        }
    }

    /// A declaration is well formed when it names an interface and a
    /// non-empty revision range.
    pub open spec fn well_formed(&self) -> bool {
        self.namespace@.len() > 0 && self.interface@.len() > 0
            && self.min_revision <= self.max_revision
    }

    /// Returns the requirement this binding declares.
    pub fn requirement(&self) -> (r: Requirement)
        ensures
            r@ == self.requirement_view(),
    {
        Requirement {
            kind: self.kind,
            namespace: self.namespace.clone(),
            interface: self.interface.clone(),
            min_revision: self.min_revision,
            max_revision: self.max_revision,
        }
    }
}

impl ProvidedBinding {
    /// The interface this binding provides, as a mathematical value.
    pub open spec fn interface_view(&self) -> InterfaceIdView {
        InterfaceIdView {
            kind: self.kind,
            namespace: self.namespace@,
            interface: self.interface@,
            revision: self.revision,
        }
    }

    /// Returns the identity of the provided interface.
    pub fn interface_id(&self) -> (r: InterfaceId)
        ensures
            r@ == self.interface_view(),
    {
        InterfaceId {
            kind: self.kind,
            namespace: self.namespace.clone(),
            interface: self.interface.clone(),
            revision: self.revision,
        }
    }
}

impl Requirement {
    /// Whether an interface satisfies this requirement.
    pub open spec fn spec_accepts(self, provided: InterfaceIdView) -> bool {
        &&& self@.kind == provided.kind
        &&& self@.namespace == provided.namespace
        &&& self@.interface == provided.interface
        &&& self.min_revision <= provided.revision <= self.max_revision
    }

    /// Returns whether `provided` has the required kind and name and a
    /// revision inside the inclusive range.
    pub fn accepts(&self, provided: &InterfaceId) -> (r: bool)
        ensures
            r == self.spec_accepts(provided@),
    {
        self.kind == provided.kind && self.namespace == provided.namespace
            && self.interface == provided.interface && self.min_revision <= provided.revision
            && provided.revision <= self.max_revision
    }

    /// Returns the namespace and interface name.
    pub fn name(&self) -> (r: (&str, &str))
        ensures
            r.0@ == self.namespace@,
            r.1@ == self.interface@,
    {
        (self.namespace.as_str(), self.interface.as_str())
    }
}

/// Whether a provided binding is well formed.
pub open spec fn provision_well_formed(p: ProvidedBinding) -> bool {
    p.namespace@.len() > 0 && p.interface@.len() > 0
}

/// The first problem among the first `n` injected bindings, in order.
pub open spec fn inject_issue(s: Seq<RequiredBinding>, n: nat) -> Option<ManifestIssue>
    decreases n,
{
    if n == 0 {
        None
    } else {
        match inject_issue(s, (n - 1) as nat) {
            Some(issue) => Some(issue),
            None => {
                let r = s[n - 1];
                if !r.well_formed() {
                    Some(ManifestIssue::InvalidInjected)
                } else if exists|j: int| 0 <= j < n - 1 && #[trigger] s[j].slot == r.slot {
                    Some(ManifestIssue::DuplicateInjectedSlot(r.slot))
                } else {
                    None
                }
            },
        }
    }
}

/// The first problem among the first `n` provided bindings, in order.
pub open spec fn provide_issue(s: Seq<ProvidedBinding>, n: nat) -> Option<ManifestIssue>
    decreases n,
{
    if n == 0 {
        None
    } else {
        match provide_issue(s, (n - 1) as nat) {
            Some(issue) => Some(issue),
            None => {
                let p = s[n - 1];
                if !provision_well_formed(p) {
                    Some(ManifestIssue::InvalidProvided)
                } else if exists|j: int| 0 <= j < n - 1 && #[trigger] s[j].slot == p.slot {
                    Some(ManifestIssue::DuplicateProvidedSlot(p.slot))
                } else if exists|j: int|
                    0 <= j < n - 1 && #[trigger] s[j].interface_view() == p.interface_view() {
                    Some(ManifestIssue::DuplicateProvidedInterface)
                } else {
                    None
                }
            },
        }
    }
}

/// The requirements by slot; a later binding of a slot replaces an earlier one.
pub open spec fn required_map(s: Seq<RequiredBinding>) -> Map<u64, RequirementView>
    decreases s.len(),
{
    if s.len() == 0 {
        Map::empty()
    } else {
        required_map(s.drop_last()).insert(s.last().slot, s.last().requirement_view())
    }
}

/// The provided interfaces by slot; a later binding of a slot replaces an earlier one.
pub open spec fn provided_map(s: Seq<ProvidedBinding>) -> Map<u64, InterfaceIdView>
    decreases s.len(),
{
    if s.len() == 0 {
        Map::empty()
    } else {
        provided_map(s.drop_last()).insert(s.last().slot, s.last().interface_view())
    }
}

/// For any list of injected bindings, the slots of `required_map` are the
/// slots some binding names, and each holds the requirement of the last
/// binding naming it.
pub proof fn lemma_required_map_last_wins(s: Seq<RequiredBinding>)
    ensures
        forall|slot: u64| #[trigger] required_map(s).contains_key(slot)
            <==> exists|k: int| 0 <= k < s.len() && s[k].slot == slot,
        forall|k: int| 0 <= k < s.len() && (forall|j: int| k < j < s.len() ==> #[trigger] s[j].slot != s[k].slot)
            ==> required_map(s)[#[trigger] s[k].slot] == s[k].requirement_view(),
    decreases s.len(),
{
    if s.len() > 0 {
        let d = s.drop_last();
        lemma_required_map_last_wins(d);
        assert forall|slot: u64| #[trigger] required_map(s).contains_key(slot)
            <==> exists|k: int| 0 <= k < s.len() && s[k].slot == slot by {
            if required_map(s).contains_key(slot) && slot != s.last().slot {
                let k = choose|k: int| 0 <= k < d.len() && d[k].slot == slot;
                assert(s[k] == d[k]);
            }
            if exists|k: int| 0 <= k < s.len() && s[k].slot == slot {
                let k = choose|k: int| 0 <= k < s.len() && s[k].slot == slot;
                if k < s.len() - 1 {
                    assert(d[k] == s[k]);
                }
            }
        }
        assert forall|k: int| 0 <= k < s.len() && (forall|j: int| k < j < s.len() ==> #[trigger] s[j].slot != s[k].slot)
            implies required_map(s)[#[trigger] s[k].slot] == s[k].requirement_view() by {
            if k < s.len() - 1 {
                assert(d[k] == s[k]);
                assert(s[s.len() - 1].slot != s[k].slot);
                assert forall|j: int| k < j < d.len() implies #[trigger] d[j].slot != d[k].slot by {
                    assert(d[j] == s[j]);
                }
            }
        }
    }
}

/// For any list of provided bindings, the slots of `provided_map` are the
/// slots some binding names, and each holds the interface of the last
/// binding naming it.
pub proof fn lemma_provided_map_last_wins(s: Seq<ProvidedBinding>)
    ensures
        forall|slot: u64| #[trigger] provided_map(s).contains_key(slot)
            <==> exists|k: int| 0 <= k < s.len() && s[k].slot == slot,
        forall|k: int| 0 <= k < s.len() && (forall|j: int| k < j < s.len() ==> #[trigger] s[j].slot != s[k].slot)
            ==> provided_map(s)[#[trigger] s[k].slot] == s[k].interface_view(),
    decreases s.len(),
{
    if s.len() > 0 {
        let d = s.drop_last();
        lemma_provided_map_last_wins(d);
        assert forall|slot: u64| #[trigger] provided_map(s).contains_key(slot)
            <==> exists|k: int| 0 <= k < s.len() && s[k].slot == slot by {
            if provided_map(s).contains_key(slot) && slot != s.last().slot {
                let k = choose|k: int| 0 <= k < d.len() && d[k].slot == slot;
                assert(s[k] == d[k]);
            }
            if exists|k: int| 0 <= k < s.len() && s[k].slot == slot {
                let k = choose|k: int| 0 <= k < s.len() && s[k].slot == slot;
                if k < s.len() - 1 {
                    assert(d[k] == s[k]);
                }
            }
        }
        assert forall|k: int| 0 <= k < s.len() && (forall|j: int| k < j < s.len() ==> #[trigger] s[j].slot != s[k].slot)
            implies provided_map(s)[#[trigger] s[k].slot] == s[k].interface_view() by {
            if k < s.len() - 1 {
                assert(d[k] == s[k]);
                assert(s[s.len() - 1].slot != s[k].slot);
                assert forall|j: int| k < j < d.len() implies #[trigger] d[j].slot != d[k].slot by {
                    assert(d[j] == s[j]);
                }
            }
        }
    }
}

/// Once a problem is found among the first `m` injected bindings, it stays
/// the first problem among any longer prefix.
pub proof fn lemma_inject_issue_stable(s: Seq<RequiredBinding>, m: nat, n: nat)
    requires
        m <= n,
        inject_issue(s, m) is Some,
    ensures
        inject_issue(s, n) == inject_issue(s, m),
    decreases n - m,
{
    if m < n {
        lemma_inject_issue_stable(s, m, (n - 1) as nat);
    }
}

/// Once a problem is found among the first `m` provided bindings, it stays
/// the first problem among any longer prefix.
pub proof fn lemma_provide_issue_stable(s: Seq<ProvidedBinding>, m: nat, n: nat)
    requires
        m <= n,
        provide_issue(s, m) is Some,
    ensures
        provide_issue(s, n) == provide_issue(s, m),
    decreases n - m,
{
    if m < n {
        lemma_provide_issue_stable(s, m, (n - 1) as nat);
    }
}

impl Manifest {
    /// What validation concludes about this manifest: the first check that
    /// fails, in the order the host performs them.
    pub open spec fn spec_validate(&self) -> Result<(), Error> {
        match self.header_issue() {
            Some(e) => Err(e),
            None => match inject_issue(self.component.inject@, self.component.inject@.len()) {
                Some(issue) => Err(Error::Manifest(issue)),
                None => match provide_issue(
                    self.component.provide@,
                    self.component.provide@.len(),
                ) {
                    Some(issue) => Err(Error::Manifest(issue)),
                    None => Ok(()),
                },
            },
        }
    }

    /// The first failing check on the manifest's scalar fields.
    pub open spec fn header_issue(&self) -> Option<Error> {
        if self.abi != ABI_VERSION {
            Some(Error::AbiVersion { expected: ABI_VERSION, actual: self.abi })
        } else if self.execution_mode@ != "wasm-component"@ {
            Some(Error::Manifest(ManifestIssue::ExecutionMode))
        } else if self.module@.len() == 0 || self.version@.len() == 0
            || self.component.id@.len() == 0 {
            Some(Error::Manifest(ManifestIssue::EmptyIdentity))
        } else if self.component.config_schema@ != "u64"@ {
            Some(Error::Manifest(ManifestIssue::ConfigSchema))
        } else if self.component.max_activation_steps == 0 {
            Some(Error::Manifest(ManifestIssue::ZeroActivationSteps))
        } else {
            None
        }
    }

    /// Whether the manifest requests a capability.
    pub open spec fn spec_requests(&self, capability: HostCapability) -> bool {
        self.requested_host_capabilities@.contains(capability)
    }

    /// Checks the manifest against this host's ABI and the well-formedness
    /// rules for its declarations.
    pub fn validate(&self) -> (r: Result<(), Error>)
        ensures
            r == self.spec_validate(),
    {
        if self.abi != ABI_VERSION {
            return Err(Error::AbiVersion { expected: ABI_VERSION, actual: self.abi });
        }
        let mode = String::from_str("wasm-component");
        if self.execution_mode != mode {
            return Err(Error::Manifest(ManifestIssue::ExecutionMode));
        }
        if self.module.as_str().is_empty() || self.version.as_str().is_empty()
            || self.component.id.as_str().is_empty() {
            return Err(Error::Manifest(ManifestIssue::EmptyIdentity));
        }
        let schema = String::from_str("u64");
        if self.component.config_schema != schema {
            return Err(Error::Manifest(ManifestIssue::ConfigSchema));
        }
        if self.component.max_activation_steps == 0 {
            return Err(Error::Manifest(ManifestIssue::ZeroActivationSteps));
        }
        let inject = &self.component.inject;
        let mut i: usize = 0;
        while i < inject.len()
            invariant
                i <= inject@.len(),
                inject == &self.component.inject,
                self.header_issue() is None,
                inject_issue(inject@, i as nat) is None,
            decreases inject@.len() - i,
        {
            let r = &inject[i];
            if r.namespace.as_str().is_empty() || r.interface.as_str().is_empty()
                || r.min_revision > r.max_revision {
                proof {
                    lemma_inject_issue_stable(inject@, (i + 1) as nat, inject@.len());
                }
                return Err(Error::Manifest(ManifestIssue::InvalidInjected));
            }
            let mut j: usize = 0;
            while j < i
                invariant
                    j <= i < inject@.len(),
                    r == inject@[i as int],
                    r.well_formed(),
                    inject == &self.component.inject,
                    self.header_issue() is None,
                    inject_issue(inject@, i as nat) is None,
                    forall|k: int| 0 <= k < j ==> inject@[k].slot != r.slot,
                decreases i - j,
            {
                if inject[j].slot == r.slot {
                    proof {
                        lemma_inject_issue_stable(inject@, (i + 1) as nat, inject@.len());
                    }
                    return Err(Error::Manifest(ManifestIssue::DuplicateInjectedSlot(r.slot)));
                }
                j += 1;
            }
            i += 1;
        }
        let provide = &self.component.provide;
        let mut i: usize = 0;
        while i < provide.len()
            invariant
                i <= provide@.len(),
                provide == &self.component.provide,
                inject == &self.component.inject,
                self.header_issue() is None,
                inject_issue(inject@, inject@.len()) is None,
                provide_issue(provide@, i as nat) is None,
            decreases provide@.len() - i,
        {
            let p = &provide[i];
            if p.namespace.as_str().is_empty() || p.interface.as_str().is_empty() {
                proof {
                    lemma_provide_issue_stable(provide@, (i + 1) as nat, provide@.len());
                }
                return Err(Error::Manifest(ManifestIssue::InvalidProvided));
            }
            let mut j: usize = 0;
            while j < i
                invariant
                    j <= i < provide@.len(),
                    p == provide@[i as int],
                    provision_well_formed(*p),
                    provide == &self.component.provide,
                    inject == &self.component.inject,
                    self.header_issue() is None,
                    inject_issue(inject@, inject@.len()) is None,
                    provide_issue(provide@, i as nat) is None,
                    forall|k: int| 0 <= k < j ==> provide@[k].slot != p.slot,
                decreases i - j,
            {
                if provide[j].slot == p.slot {
                    proof {
                        lemma_provide_issue_stable(provide@, (i + 1) as nat, provide@.len());
                    }
                    return Err(Error::Manifest(ManifestIssue::DuplicateProvidedSlot(p.slot)));
                }
                j += 1;
            }
            let mut j: usize = 0;
            while j < i
                invariant
                    j <= i < provide@.len(),
                    p == provide@[i as int],
                    provision_well_formed(*p),
                    provide == &self.component.provide,
                    inject == &self.component.inject,
                    self.header_issue() is None,
                    inject_issue(inject@, inject@.len()) is None,
                    provide_issue(provide@, i as nat) is None,
                    forall|k: int| 0 <= k < i ==> provide@[k].slot != p.slot,
                    forall|k: int|
                        0 <= k < j ==> provide@[k].interface_view() != p.interface_view(),
                decreases i - j,
            {
                let q = &provide[j];
                if q.kind == p.kind && q.namespace == p.namespace && q.interface == p.interface
                    && q.revision == p.revision {
                    proof {
                        assert(provide@[j as int].interface_view() == p.interface_view());
                        lemma_provide_issue_stable(provide@, (i + 1) as nat, provide@.len());
                    }
                    return Err(Error::Manifest(ManifestIssue::DuplicateProvidedInterface));
                }
                j += 1;
            }
            i += 1;
        }
        Ok(())
    }

    /// Returns the injected requirements by slot.
    pub fn required_by_slot(&self) -> (r: BTreeMap<u64, Requirement>)
        ensures
            r@.dom() == required_map(self.component.inject@).dom(),
            forall|slot: u64| #[trigger] r@.contains_key(slot)
                ==> r@[slot]@ == required_map(self.component.inject@)[slot],
    {
        let inject = &self.component.inject;
        let mut map: BTreeMap<u64, Requirement> = BTreeMap::new();
        let mut i: usize = 0;
        while i < inject.len()
            invariant
                i <= inject@.len(),
                map@.dom() == required_map(inject@.take(i as int)).dom(),
                forall|slot: u64| #[trigger] map@.contains_key(slot)
                    ==> map@[slot]@ == required_map(inject@.take(i as int))[slot],
            decreases inject@.len() - i,
        {
            assert(inject@.take(i + 1).drop_last() == inject@.take(i as int));
            let binding = &inject[i];
            map.insert(binding.slot, binding.requirement());
            i += 1;
        }
        assert(inject@.take(inject@.len() as int) == inject@);
        map
    }

    /// Returns the provided interfaces by slot.
    pub fn provided_by_slot(&self) -> (r: BTreeMap<u64, InterfaceId>)
        ensures
            r@.dom() == provided_map(self.component.provide@).dom(),
            forall|slot: u64| #[trigger] r@.contains_key(slot)
                ==> r@[slot]@ == provided_map(self.component.provide@)[slot],
    {
        let provide = &self.component.provide;
        let mut map: BTreeMap<u64, InterfaceId> = BTreeMap::new();
        let mut i: usize = 0;
        while i < provide.len()
            invariant
                i <= provide@.len(),
                map@.dom() == provided_map(provide@.take(i as int)).dom(),
                forall|slot: u64| #[trigger] map@.contains_key(slot)
                    ==> map@[slot]@ == provided_map(provide@.take(i as int))[slot],
            decreases provide@.len() - i,
        {
            assert(provide@.take(i + 1).drop_last() == provide@.take(i as int));
            let binding = &provide[i];
            map.insert(binding.slot, binding.interface_id());
            i += 1;
        }
        assert(provide@.take(provide@.len() as int) == provide@);
        map
    }

    /// Returns whether the manifest requests `capability`.
    pub fn requests(&self, capability: HostCapability) -> (r: bool)
        ensures
            r == self.spec_requests(capability),
    {
        let caps = &self.requested_host_capabilities;
        let mut i: usize = 0;
        while i < caps.len()
            invariant
                i <= caps@.len(),
                caps == &self.requested_host_capabilities,
                forall|k: int| 0 <= k < i ==> caps@[k] != capability,
            decreases caps@.len() - i,
        {
            if caps[i] == capability {
                assert(caps@[i as int] == capability);
                return true;
            }
            i += 1;
        }
        false
    }
}


proof fn lemma_required_prefix(s: Seq<RequiredBinding>, n: nat)
    requires
        n <= s.len(),
        inject_issue(s, n) is None,
    ensures
        required_map(s.take(n as int)).dom().finite(),
        required_map(s.take(n as int)).dom().len() == n,
        forall|k: int| 0 <= k < n ==> #[trigger] required_map(s.take(n as int)).contains_key(s[k].slot)
            && required_map(s.take(n as int))[s[k].slot] == s[k].requirement_view(),
        forall|slot: u64| #[trigger] required_map(s.take(n as int)).contains_key(slot)
            ==> exists|k: int| 0 <= k < n && s[k].slot == slot,
    decreases n,
{
    let t = s.take(n as int);
    if n == 0 {
        assert(t.len() == 0);
        assert(required_map(t).dom() =~= Set::<u64>::empty());
    } else {
        lemma_required_prefix(s, (n - 1) as nat);
        let prev = s.take(n - 1);
        assert(t.drop_last() == prev);
        assert(t.last() == s[n - 1]);
        let r = s[n - 1];
        assert(!exists|j: int| 0 <= j < n - 1 && #[trigger] s[j].slot == r.slot);
        assert(!required_map(prev).contains_key(r.slot)) by {
            if required_map(prev).contains_key(r.slot) {
                let k = choose|k: int| 0 <= k < n - 1 && s[k].slot == r.slot;
                assert(s[k].slot == r.slot);
            }
        }
        assert forall|k: int| 0 <= k < n implies #[trigger] required_map(t).contains_key(s[k].slot)
            && required_map(t)[s[k].slot] == s[k].requirement_view() by {
            if k < n - 1 {
                assert(s[k].slot != r.slot);
            }
        }
        assert forall|slot: u64| #[trigger] required_map(t).contains_key(slot) implies exists|k: int| 0 <= k < n && s[k].slot == slot by {
            if slot != r.slot {
                assert(required_map(prev).contains_key(slot));
            } else {
                assert(s[n - 1].slot == slot);
            }
        }
    }
}

/// In a valid manifest the injected bindings by slot hold one entry per
/// binding: every binding's requirement, under its own slot, and no other
/// slot.
pub proof fn lemma_required_by_slot_one_per_binding(m: Manifest)
    requires
        m.spec_validate() is Ok,
    ensures
        required_map(m.component.inject@).dom().len() == m.component.inject@.len(),
        forall|k: int| 0 <= k < m.component.inject@.len() ==> #[trigger] required_map(m.component.inject@).contains_key(m.component.inject@[k].slot)
            && required_map(m.component.inject@)[m.component.inject@[k].slot] == m.component.inject@[k].requirement_view(),
        forall|slot: u64| #[trigger] required_map(m.component.inject@).contains_key(slot)
            ==> exists|k: int| 0 <= k < m.component.inject@.len() && m.component.inject@[k].slot == slot,
{
    let s = m.component.inject@;
    lemma_required_prefix(s, s.len());
    assert(s.take(s.len() as int) == s);
}

proof fn lemma_provided_prefix(s: Seq<ProvidedBinding>, n: nat)
    requires
        n <= s.len(),
        provide_issue(s, n) is None,
    ensures
        provided_map(s.take(n as int)).dom().finite(),
        provided_map(s.take(n as int)).dom().len() == n,
        forall|k: int| 0 <= k < n ==> #[trigger] provided_map(s.take(n as int)).contains_key(s[k].slot)
            && provided_map(s.take(n as int))[s[k].slot] == s[k].interface_view(),
        forall|slot: u64| #[trigger] provided_map(s.take(n as int)).contains_key(slot)
            ==> exists|k: int| 0 <= k < n && s[k].slot == slot,
        forall|j: int, k: int| 0 <= j < k < n ==> #[trigger] s[j].interface_view() != #[trigger] s[k].interface_view(),
    decreases n,
{
    let t = s.take(n as int);
    if n == 0 {
        assert(t.len() == 0);
        assert(provided_map(t).dom() =~= Set::<u64>::empty());
    } else {
        lemma_provided_prefix(s, (n - 1) as nat);
        let prev = s.take(n - 1);
        assert(t.drop_last() == prev);
        assert(t.last() == s[n - 1]);
        let p = s[n - 1];
        assert(!exists|j: int| 0 <= j < n - 1 && #[trigger] s[j].slot == p.slot);
        assert(!exists|j: int| 0 <= j < n - 1 && #[trigger] s[j].interface_view() == p.interface_view());
        assert(!provided_map(prev).contains_key(p.slot)) by {
            if provided_map(prev).contains_key(p.slot) {
                let k = choose|k: int| 0 <= k < n - 1 && s[k].slot == p.slot;
                assert(s[k].slot == p.slot);
            }
        }
        assert forall|k: int| 0 <= k < n implies #[trigger] provided_map(t).contains_key(s[k].slot)
            && provided_map(t)[s[k].slot] == s[k].interface_view() by {
            if k < n - 1 {
                assert(s[k].slot != p.slot);
            }
        }
        assert forall|slot: u64| #[trigger] provided_map(t).contains_key(slot) implies exists|k: int| 0 <= k < n && s[k].slot == slot by {
            if slot != p.slot {
                assert(provided_map(prev).contains_key(slot));
            } else {
                assert(s[n - 1].slot == slot);
            }
        }
        assert forall|j: int, k: int| 0 <= j < k < n implies #[trigger] s[j].interface_view() != #[trigger] s[k].interface_view() by {
            if k == n - 1 {
                assert(s[j].interface_view() != p.interface_view());
            }
        }
    }
}

/// In a valid manifest the provided interfaces by slot hold one entry per
/// binding, each binding's interface under its own slot, and no two
/// bindings provide the same interface.
pub proof fn lemma_provided_by_slot_one_per_binding(m: Manifest)
    requires
        m.spec_validate() is Ok,
    ensures
        provided_map(m.component.provide@).dom().len() == m.component.provide@.len(),
        forall|k: int| 0 <= k < m.component.provide@.len() ==> #[trigger] provided_map(m.component.provide@).contains_key(m.component.provide@[k].slot)
            && provided_map(m.component.provide@)[m.component.provide@[k].slot] == m.component.provide@[k].interface_view(),
        forall|slot: u64| #[trigger] provided_map(m.component.provide@).contains_key(slot)
            ==> exists|k: int| 0 <= k < m.component.provide@.len() && m.component.provide@[k].slot == slot,
        forall|j: int, k: int| 0 <= j < k < m.component.provide@.len()
            ==> #[trigger] m.component.provide@[j].interface_view() != #[trigger] m.component.provide@[k].interface_view(),
{
    let s = m.component.provide@;
    lemma_provided_prefix(s, s.len());
    assert(s.take(s.len() as int) == s);
}

} // verus!
