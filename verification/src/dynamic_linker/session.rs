//! A link session: from the root to the closed dependency graph and its frozen
//! scopes.
//!
//! A session takes over the memory of every image that it loads. A session that
//! fails is given up: its allocations are handed back, the youngest first.

use crate::dynamic_linker::artifact::{
    duplicate_name, name_view, ArtifactIdentity, ArtifactIdentityView, ArtifactResolver,
    ArtifactRole, DependencyName, DependencyRequest, ImageId, ImageOwnership, LinkDomainId,
    ResolvedArtifact,
};
use crate::dynamic_linker::graph::{
    identity_at, identity_known, is_dependency_failure, soname_length, DependencyEdge,
    DependencyGraph, DependencyNode, DiscoveryItem, DiscoveryQueue, ProviderChoice,
};
use crate::dynamic_linker::metadata::RuntimeImageState;
use crate::dynamic_linker::runtime::{load_runtime, runtime_outcome, RuntimeDecoder, RuntimeTerms};
use crate::dynamic_linker::scope::{scope_failure, ScopeSet};
use crate::dynamic_linker::symbol::SymbolTable;
use crate::error::{
    claim, claim_at, fail_at, failure, ErrorContext, LimitKind, LoadError, LoadErrorKind,
    LoadResult, LoadStage,
};
use crate::identity::{limit_failure, within, LoadPolicy, LoadProfile, SessionLimits};
use crate::memory::{AllocationLease, ImageAllocation, ImageMemory};
use crate::reader::ElfReader;
use crate::relocation::ArchRelocator;
use vstd::prelude::*;

verus! {

/// What a session has done so far.
#[derive(Clone, Copy, Debug, PartialEq, Eq, Structural)]
pub struct LoadMetrics {
    pub resolver_calls: u64,
    pub images: u64,
    pub edges: u64,
    pub max_depth: u16,
    pub symbol_lookups: u64,
    pub hash_probes: u64,
    pub relocation_operations: u64,
    pub protection_ranges: u64,
    pub cache_ranges: u64,
}

/// One more than `count`, up to the largest number.
pub open spec fn counted(count: u64) -> u64 {
    if count < u64::MAX {
        (count + 1) as u64
    } else {
        count
    }
}

impl Default for LoadMetrics {
    fn default() -> (r: Self)
        ensures
            r == Self::nothing(),
    {
        LoadMetrics {
            resolver_calls: 0,
            images: 0,
            edges: 0,
            max_depth: 0,
            symbol_lookups: 0,
            hash_probes: 0,
            relocation_operations: 0,
            protection_ranges: 0,
            cache_ranges: 0,
        }
    }
}

impl LoadMetrics {
    pub open spec fn nothing() -> Self {
        LoadMetrics {
            resolver_calls: 0,
            images: 0,
            edges: 0,
            max_depth: 0,
            symbol_lookups: 0,
            hash_probes: 0,
            relocation_operations: 0,
            protection_ranges: 0,
            cache_ranges: 0,
        }
    }

    pub open spec fn with_image(self, depth: u16) -> Self {
        LoadMetrics {
            images: counted(self.images),
            max_depth: if depth > self.max_depth {
                depth
            } else {
                self.max_depth
            },
            ..self
        }
    }

    pub open spec fn with_edge(self) -> Self {
        LoadMetrics { edges: counted(self.edges), ..self }
    }

    #[inline]
    pub fn record_resolver_call(&mut self)
        ensures
            *final(self) == (LoadMetrics {
                resolver_calls: counted(old(self).resolver_calls),
                ..*old(self)
            }),
    {
        self.resolver_calls = self.resolver_calls.saturating_add(1);
    }

    #[inline]
    pub fn record_image(&mut self, depth: u16)
        ensures
            *final(self) == old(self).with_image(depth),
    {
        self.images = self.images.saturating_add(1);
        if depth > self.max_depth {
            self.max_depth = depth;
        }
    }

    #[inline]
    pub fn record_edge(&mut self)
        ensures
            *final(self) == old(self).with_edge(),
    {
        self.edges = self.edges.saturating_add(1);
    }

    #[inline]
    pub fn resolver_calls(&self) -> (r: u64)
        ensures
            r == self.resolver_calls,
    {
        self.resolver_calls
    }

    #[inline]
    pub fn images(&self) -> (r: u64)
        ensures
            r == self.images,
    {
        self.images
    }

    #[inline]
    pub fn edges(&self) -> (r: u64)
        ensures
            r == self.edges,
    {
        self.edges
    }

    #[inline]
    pub fn max_depth(&self) -> (r: u16)
        ensures
            r == self.max_depth,
    {
        self.max_depth
    }

    #[inline]
    pub fn symbol_lookups(&self) -> (r: u64)
        ensures
            r == self.symbol_lookups,
    {
        self.symbol_lookups
    }

    #[inline]
    pub fn hash_probes(&self) -> (r: u64)
        ensures
            r == self.hash_probes,
    {
        self.hash_probes
    }

    #[inline]
    pub fn relocation_operations(&self) -> (r: u64)
        ensures
            r == self.relocation_operations,
    {
        self.relocation_operations
    }

    #[inline]
    pub fn protection_ranges(&self) -> (r: u64)
        ensures
            r == self.protection_ranges,
    {
        self.protection_ranges
    }

    #[inline]
    pub fn cache_ranges(&self) -> (r: u64)
        ensures
            r == self.cache_ranges,
    {
        self.cache_ranges
    }
}

/// One image of a session. It can select the image's memory; the authority to give
/// that memory up lies in the rollback log alone.
pub struct SessionImage<S> {
    pub image_id: ImageId,
    pub artifact: ArtifactIdentity,
    pub allocation: ImageAllocation,
    pub state: S,
}

impl<S> SessionImage<S> {
    #[inline]
    pub fn image_id(&self) -> (r: ImageId)
        ensures
            r == self.image_id,
    {
        self.image_id
    }

    #[inline]
    pub fn allocation(&self) -> (r: ImageAllocation)
        ensures
            r == self.allocation,
    {
        self.allocation
    }
}

/// The allocations that a session has taken over, the oldest first.
pub struct AllocationRollbackLog {
    pub leases: Vec<AllocationLease>,
}

impl AllocationRollbackLog {
    #[inline]
    pub fn new() -> (r: Self)
        ensures
            r.leases@.len() == 0,
    {
        AllocationRollbackLog { leases: Vec::new() }
    }

    /// The allocations in the order in which they are given up.
    pub fn abort_order(self) -> (r: Vec<AllocationLease>)
        ensures
            r@ == self.leases@.reverse(),
    {
        let mut leases = self.leases;
        let ghost all = leases@;
        let mut out: Vec<AllocationLease> = Vec::new();
        while leases.len() > 0
            invariant
                leases@.len() <= all.len(),
                leases@ == all.subrange(0, leases@.len() as int),
                out@.len() == all.len() - leases@.len(),
                forall|i: int| 0 <= i < out@.len() ==> out@[i] == all[all.len() - 1 - i],
            decreases leases@.len(),
        {
            if let Some(lease) = leases.pop() {
                out.push(lease);
            }
        }
        assert(out@ =~= all.reverse());
        out
    }
}

/// A session that was given up: why, and its allocations in the order in which
/// they are aborted.
pub struct SessionFailure {
    pub error: LoadError,
    pub abandoned: Vec<AllocationLease>,
}

/// The state of a session whose dependencies are being discovered.
pub struct BuildingState {
    pub images: Vec<SessionImage<RuntimeImageState>>,
    pub discovery: DiscoveryQueue,
    pub closed: bool,
}

/// The state of a session whose scopes are frozen.
pub struct ScopedState {
    pub images: Vec<SessionImage<RuntimeImageState>>,
    pub scopes: ScopeSet,
}

/// A link of several images.
pub struct LinkSession<S> {
    pub rollback: AllocationRollbackLog,
    pub graph: DependencyGraph,
    pub limits: SessionLimits,
    pub metrics: LoadMetrics,
    pub profile: LoadProfile,
    pub policy: LoadPolicy,
    pub domain: LinkDomainId,
    pub state: S,
}

pub type BuildingSession = LinkSession<BuildingState>;

pub type ScopedSession = LinkSession<ScopedState>;

/// Whether the images are those of the graph, in its order, and their memory is
/// what the log holds.
pub open spec fn images_match(
    images: Seq<SessionImage<RuntimeImageState>>,
    graph: DependencyGraph,
    leases: Seq<AllocationLease>,
) -> bool {
    &&& images.len() == graph.nodes@.len()
    &&& leases.len() == images.len()
    &&& forall|i: int|
        0 <= i < images.len() ==> {
            &&& (#[trigger] images[i]).image_id.0 == i
            &&& images[i].artifact@ == graph.nodes@[i].artifact@
            &&& images[i].allocation == leases[i].allocation
        }
}

/// Whether an edge of `requester` satisfies its needed entry `index`.
pub open spec fn edge_for(edges: Seq<DependencyEdge>, requester: int, index: u16) -> bool {
    exists|e: int|
        0 <= e < edges.len() && (#[trigger] edges[e]).requester.0 == requester
            && edges[e].needed_index == index
}

/// Whether needed entry `index` of `requester` is still to be resolved.
pub open spec fn queued(pending: Seq<DiscoveryItem>, requester: int, index: u16) -> bool {
    exists|k: int|
        0 <= k < pending.len() && (#[trigger] pending[k]).requester.0 == requester
            && pending[k].needed_index == index
}

/// Whether needed entry `index` of image `i` has been seen to.
pub open spec fn seen_to(
    edges: Seq<DependencyEdge>,
    pending: Seq<DiscoveryItem>,
    i: int,
    index: u16,
) -> bool {
    edge_for(edges, i, index) || queued(pending, i, index)
}

/// Whether every needed entry of every image has an edge or is queued.
pub open spec fn accounted(
    images: Seq<SessionImage<RuntimeImageState>>,
    edges: Seq<DependencyEdge>,
    pending: Seq<DiscoveryItem>,
) -> bool {
    forall|i: int, j: int|
        0 <= i < images.len() && 0 <= j < images[i].state.metadata.needed@.len() ==> #[trigger] seen_to(
            edges,
            pending,
            i,
            j as u16,
        )
}

impl LinkSession<BuildingState> {
    pub open spec fn wf(self) -> bool {
        &&& self.graph.wf()
        &&& self.state.discovery.wf()
        &&& self.graph.limits == self.limits
        &&& self.state.discovery.limits == self.limits
        &&& self.graph.nodes@.len() > 0
        &&& images_match(self.state.images@, self.graph, self.rollback.leases@)
        &&& forall|k: int|
            0 <= k < self.state.discovery.pending@.len() ==> (
            #[trigger] self.state.discovery.pending@[k]).requester.0 < self.graph.nodes@.len()
        &&& accounted(self.state.images@, self.graph.edges@, self.state.discovery.pending@)
        &&& self.state.closed ==> self.state.discovery.pending@.len() == 0
    }
}

/// The pending resolutions of an image: one per needed name.
pub open spec fn queued_after(
    before: Seq<DiscoveryItem>,
    after: Seq<DiscoveryItem>,
    requester: ImageId,
    needed: Seq<DependencyName>,
) -> bool {
    &&& after.len() == before.len() + needed.len()
    &&& forall|k: int| 0 <= k < before.len() ==> after[k] == before[k]
    &&& forall|j: int|
        0 <= j < needed.len() ==> {
            &&& (#[trigger] after[before.len() + j]).requester == requester
            &&& after[before.len() + j].needed@ == needed[j]@
            &&& after[before.len() + j].needed_index == j as u16
        }
}

/// The outcome of queueing `count` more resolutions.
pub open spec fn queue_quota(pending: nat, count: nat, limits: SessionLimits) -> LoadResult<()> {
    if pending + count <= limits.max_dependency_edges {
        Ok(())
    } else {
        Err(
            limit_failure(
                LimitKind::DependencyEdgeCount,
                (limits.max_dependency_edges + 1) as u64,
                limits.max_dependency_edges as u64,
            ),
        )
    }
}

/// Queues the needed names of an image in their order.
pub fn enqueue_needed(
    discovery: &mut DiscoveryQueue,
    requester: ImageId,
    needed: &Vec<DependencyName>,
) -> (r: LoadResult<()>)
    requires
        old(discovery).wf(),
    ensures
        final(discovery).wf(),
        final(discovery).limits == old(discovery).limits,
        r == queue_quota(
            old(discovery).pending@.len(),
            needed@.len(),
            old(discovery).limits,
        ),
        r is Ok ==> queued_after(
            old(discovery).pending@,
            final(discovery).pending@,
            requester,
            needed@,
        ),
{
    let ghost before = discovery.pending@;
    let mut index: usize = 0;
    while index < needed.len()
        invariant
            index <= needed@.len(),
            discovery.wf(),
            discovery.limits == old(discovery).limits,
            before == old(discovery).pending@,
            discovery.pending@.len() == before.len() + index,
            forall|k: int| 0 <= k < before.len() ==> discovery.pending@[k] == before[k],
            forall|j: int|
                0 <= j < index ==> {
                    &&& (#[trigger] discovery.pending@[before.len() + j]).requester == requester
                    &&& discovery.pending@[before.len() + j].needed@ == needed@[j]@
                    &&& discovery.pending@[before.len() + j].needed_index == j as u16
                },
        decreases needed@.len() - index,
    {
        #[verifier::truncate]
        let needed_index: u16 = index as u16;
        discovery.push(DiscoveryItem::new(requester, needed[index].clone(), needed_index))?;
        index = index + 1;
    }
    Ok(())
}

/// The single relocator of a link and its policy.
pub struct DynamicLinker<A> {
    pub arch: A,
    pub policy: LoadPolicy,
}

/// A session before its root is known to the graph.
pub open spec fn beginning_failure(kind: LoadErrorKind) -> LoadError {
    failure(LoadStage::Beginning, kind, ErrorContext::Nothing)
}

/// What the graph says of a root.
pub open spec fn root_fault(soname: Option<Seq<u8>>, limits: SessionLimits) -> Option<LoadError> {
    let quota = within(LimitKind::ImageCount, 1, limits.max_images as u64);
    let length = soname_length(soname, limits);
    if quota is Err {
        Some(quota->Err_0)
    } else if length is Err {
        Some(length->Err_0)
    } else {
        None
    }
}

/// Whether `r` is the session that a loaded root opens, or the failure of its graph
/// or its queue.
pub open spec fn opened(
    policy: LoadPolicy,
    artifact: ArtifactIdentityView,
    ownership: ImageOwnership,
    profile: LoadProfile,
    domain: LinkDomainId,
    limits: SessionLimits,
    lease: AllocationLease,
    runtime: RuntimeImageState,
    r: Result<BuildingSession, SessionFailure>,
) -> bool {
    let fault = root_fault(name_view(runtime.metadata.soname), limits);
    let queue = queue_quota(0, runtime.metadata.needed@.len(), limits);
    match r {
        Err(failed) => {
            &&& fault is Some || queue is Err
            &&& failed.error == (if fault is Some {
                fault->0
            } else {
                queue->Err_0
            })
            &&& failed.abandoned@ == seq![lease]
        },
        Ok(session) => {
            &&& fault is None && queue is Ok
            &&& session.wf()
            &&& session.graph.nodes@.len() == 1
            &&& session.graph.edges@.len() == 0
            &&& session.graph.nodes@[0].artifact@ == artifact
            &&& name_view(session.graph.nodes@[0].soname) == name_view(
                runtime.metadata.soname,
            )
            &&& session.graph.nodes@[0].ownership == ownership
            &&& session.limits == limits
            &&& session.profile == profile
            &&& session.policy == policy
            &&& session.domain == domain
            &&& session.metrics == LoadMetrics::nothing().with_image(0)
            &&& session.rollback.leases@ == seq![lease]
            &&& !session.state.closed
            &&& session.state.images@.len() == 1
            &&& session.state.images@[0].state == runtime
            &&& session.state.images@[0].allocation == lease.allocation
            &&& queued_after(
                Seq::empty(),
                session.state.discovery.pending@,
                ImageId(0),
                runtime.metadata.needed@,
            )
        },
    }
}

/// Whether `loaded` is what loading a root came to, and `r` what then becomes of the
/// session. Memory and decoder stand before and after the load.
pub open spec fn begun<R: ElfReader, M: ImageMemory, D: RuntimeDecoder>(
    policy: LoadPolicy,
    root: ResolvedArtifact<R>,
    profile: LoadProfile,
    domain: LinkDomainId,
    limits: SessionLimits,
    memory: (M, M),
    decoder: (D, D),
    loaded: LoadResult<(AllocationLease, RuntimeImageState)>,
    r: Result<BuildingSession, SessionFailure>,
) -> bool {
    &&& runtime_outcome(
        root.reader,
        root_terms(profile, policy, limits),
        memory.0,
        memory.1,
        decoder.0,
        decoder.1,
        loaded,
    )
    &&& match loaded {
        Ok((lease, runtime)) => opened(
            policy,
            root.identity@,
            root.ownership,
            profile,
            domain,
            limits,
            lease,
            runtime,
            r,
        ),
        Err(error) => r matches Err(failed) && failed.error == error && failed.abandoned@.len()
            == 0,
    }
}

/// The terms of the root of a link.
pub open spec fn root_terms(profile: LoadProfile, policy: LoadPolicy, limits: SessionLimits) -> RuntimeTerms {
    RuntimeTerms { profile, role: ArtifactRole::ExecutableRoot, policy, limits: limits.per_image }
}

impl<A: ArchRelocator> DynamicLinker<A> {
    #[inline]
    pub fn new(arch: A, policy: LoadPolicy) -> (r: Self)
        ensures
            r == (DynamicLinker { arch, policy }),
    {
        DynamicLinker { arch, policy }
    }

    /// Whether the relocator is one for the profile's machine.
    pub open spec fn serves(self, profile: LoadProfile) -> bool {
        self.arch.target_machine() == profile.machine && self.arch.target_class() == profile.class
    }

    /// Loads the root and opens a session with it. The memory comes back either way.
    pub fn begin<R: ElfReader, M: ImageMemory, D: RuntimeDecoder>(
        &self,
        root: ResolvedArtifact<R>,
        profile: LoadProfile,
        domain: LinkDomainId,
        limits: SessionLimits,
        memory: M,
        decoder: &mut D,
    ) -> (r: (Result<BuildingSession, SessionFailure>, M))
        ensures
            !self.serves(profile) ==> r.1 == memory && *final(decoder) == *old(decoder) && match r.0 {
                Err(failed) => failed.error == beginning_failure(
                    LoadErrorKind::UnsupportedByProfile,
                ) && failed.abandoned@.len() == 0,
                Ok(_) => false,
            },
            self.serves(profile) ==> exists|
                loaded: LoadResult<(AllocationLease, RuntimeImageState)>,
            | #[trigger]
                begun(
                    self.policy,
                    root,
                    profile,
                    domain,
                    limits,
                    (memory, r.1),
                    (*old(decoder), *final(decoder)),
                    loaded,
                    r.0,
                ),
    {
        if self.arch.machine() != profile.machine() || self.arch.class() != profile.class() {
            return (
                Err(
                    SessionFailure {
                        error: fail_at(
                            LoadStage::Beginning,
                            LoadErrorKind::UnsupportedByProfile,
                            ErrorContext::Nothing,
                        ),
                        abandoned: Vec::new(),
                    },
                ),
                memory,
            );
        }
        let artifact: ArtifactIdentity = root.identity().clone();
        let ownership: ImageOwnership = root.ownership();
        let terms = RuntimeTerms {
            profile,
            role: ArtifactRole::ExecutableRoot,
            policy: self.policy,
            limits: *limits.per_image(),
        };
        let (loaded, left) = load_runtime(root.into_reader(), &terms, memory, decoder);
        let ghost answer = loaded;
        let session = match loaded {
            Ok((lease, runtime)) => self.open(
                artifact,
                ownership,
                profile,
                domain,
                limits,
                lease,
                runtime,
            ),
            Err(error) => Err(SessionFailure { error, abandoned: Vec::new() }),
        };
        assert(begun(
            self.policy,
            root,
            profile,
            domain,
            limits,
            (memory, left),
            (*old(decoder), *decoder),
            answer,
            session,
        ));
        (session, left)
    }

    /// Opens a session with a root that has been loaded.
    pub fn open(
        &self,
        artifact: ArtifactIdentity,
        ownership: ImageOwnership,
        profile: LoadProfile,
        domain: LinkDomainId,
        limits: SessionLimits,
        lease: AllocationLease,
        runtime: RuntimeImageState,
    ) -> (r: Result<BuildingSession, SessionFailure>)
        ensures
            opened(
                self.policy,
                artifact@,
                ownership,
                profile,
                domain,
                limits,
                lease,
                runtime,
                r,
            ),
    {
        let mut rollback: AllocationRollbackLog = AllocationRollbackLog::new();
        let allocation: ImageAllocation = *lease.allocation();
        rollback.leases.push(lease);
        assert(rollback.leases@ =~= seq![lease]);
        assert(seq![lease].reverse() =~= seq![lease]);
        let mut graph: DependencyGraph = DependencyGraph::new(limits);
        let mut metrics: LoadMetrics = LoadMetrics::default();
        let soname: Option<DependencyName> = duplicate_name(&runtime.metadata.soname);
        let root_id: ImageId = match graph.insert_root(artifact.clone(), soname, ownership) {
            Ok(root_id) => root_id,
            Err(error) => {
                return Err(SessionFailure { error, abandoned: rollback.abort_order() });
            },
        };
        metrics.record_image(0);
        let mut discovery: DiscoveryQueue = DiscoveryQueue::new(limits);
        match enqueue_needed(&mut discovery, root_id, &runtime.metadata.needed) {
            Ok(_) => {},
            Err(error) => {
                return Err(SessionFailure { error, abandoned: rollback.abort_order() });
            },
        }
        let mut images: Vec<SessionImage<RuntimeImageState>> = Vec::new();
        images.push(SessionImage { image_id: root_id, artifact, allocation, state: runtime });
        proof {
            assert forall|i: int, j: int|
                0 <= i < images@.len() && 0 <= j
                    < images@[i].state.metadata.needed@.len() implies #[trigger] seen_to(
                graph.edges@,
                discovery.pending@,
                i,
                j as u16,
            ) by {
                assert(discovery.pending@[0 + j].requester.0 == i);
                assert(queued(discovery.pending@, i, j as u16));
            }
            assert forall|k: int| 0 <= k < discovery.pending@.len() implies (
            #[trigger] discovery.pending@[k]).requester.0 < graph.nodes@.len() by {
                assert(discovery.pending@[0 + k].requester == root_id);
            }
        }
        Ok(
            LinkSession {
                rollback,
                graph,
                limits,
                metrics,
                profile,
                policy: self.policy,
                domain,
                state: BuildingState { images, discovery, closed: false },
            },
        )
    }
}

/// Whether the images of `before` are still there, unchanged.
pub open spec fn extends(
    before: Seq<SessionImage<RuntimeImageState>>,
    after: Seq<SessionImage<RuntimeImageState>>,
) -> bool {
    before.len() <= after.len() && after.subrange(0, before.len() as int) == before
}

/// Whether two sessions link under the same terms.
pub open spec fn same_terms(before: LinkSession<BuildingState>, after: LinkSession<BuildingState>) -> bool {
    &&& after.limits == before.limits
    &&& after.profile == before.profile
    &&& after.policy == before.policy
    &&& after.domain == before.domain
}

/// Whether the needed entry of an item was recorded as satisfied by an image of the
/// session, or refused because there are too many.
pub open spec fn reused(
    before: LinkSession<BuildingState>,
    after: LinkSession<BuildingState>,
    item: DiscoveryItem,
    provider: ImageId,
    outcome: LoadResult<()>,
) -> bool {
    &&& outcome == claim(before.graph.edge_quota(), LoadStage::Discover)
    &&& after.graph.wf()
    &&& after.graph.limits == before.graph.limits
    &&& after.graph.nodes@ == before.graph.nodes@
    &&& after.graph.edges@ == (if outcome is Ok {
        before.graph.edges@.push(
            DependencyEdge {
                requester: item.requester,
                provider,
                needed_index: item.needed_index,
            },
        )
    } else {
        before.graph.edges@
    })
    &&& after.metrics == (if outcome is Ok {
        before.metrics.with_edge()
    } else {
        before.metrics
    })
    &&& after.rollback == before.rollback
    &&& after.state == before.state
    &&& same_terms(before, after)
}

/// Whether a loaded image was taken into a session for the needed entry of an item,
/// or refused by the graph or the queue.
pub open spec fn absorbed(
    before: LinkSession<BuildingState>,
    after: LinkSession<BuildingState>,
    item: DiscoveryItem,
    identity: ArtifactIdentityView,
    ownership: ImageOwnership,
    lease: AllocationLease,
    runtime: RuntimeImageState,
    outcome: LoadResult<()>,
) -> bool {
    &&& after.graph.wf()
    &&& after.graph.limits == before.graph.limits
    &&& after.state.discovery.wf()
    &&& after.state.discovery.limits == before.state.discovery.limits
    &&& after.rollback.leases@ == before.rollback.leases@.push(lease)
    &&& after.state.closed == before.state.closed
    &&& same_terms(before, after)
    &&& ({
        let choice = before.graph.choice(
            item.requester,
            item.needed@,
            identity,
            name_view(runtime.metadata.soname),
        );
        let edge = before.graph.edge_quota();
        let queue = queue_quota(
            before.state.discovery.pending@.len(),
            runtime.metadata.needed@.len(),
            before.state.discovery.limits,
        );
        match choice {
            ProviderChoice::Refused(error) => outcome == Err::<(), LoadError>(
                error.claimed_by(LoadStage::Discover),
            ),
            ProviderChoice::Conflict(kind) => match outcome {
                Err(error) => exists|cause: LoadError|
                    is_dependency_failure(cause, kind, item.requester, item.needed@)
                        && error == #[trigger] cause.claimed_by(LoadStage::Discover),
                Ok(_) => false,
            },
            ProviderChoice::Existing(_) => false,
            ProviderChoice::Fresh(depth) => if edge is Err {
                outcome == claim(edge, LoadStage::Discover)
            } else if queue is Err {
                outcome == claim(queue, LoadStage::Discover)
            } else {
                let provider = ImageId(before.graph.nodes@.len() as u32);
                &&& outcome is Ok
                &&& after.graph.nodes@.len() == before.graph.nodes@.len() + 1
                &&& after.graph.nodes@.drop_last() == before.graph.nodes@
                &&& after.graph.nodes@.last().artifact@ == identity
                &&& after.graph.nodes@.last().ownership == ownership
                &&& after.graph.nodes@.last().depth == depth
                &&& name_view(after.graph.nodes@.last().soname) == name_view(
                    runtime.metadata.soname,
                )
                &&& after.graph.edges@ == before.graph.edges@.push(
                    DependencyEdge {
                        requester: item.requester,
                        provider,
                        needed_index: item.needed_index,
                    },
                )
                &&& after.metrics == before.metrics.with_image(depth).with_edge()
                &&& queued_after(
                    before.state.discovery.pending@,
                    after.state.discovery.pending@,
                    provider,
                    runtime.metadata.needed@,
                )
                &&& after.state.images@.len() == before.state.images@.len() + 1
                &&& after.state.images@.drop_last() == before.state.images@
                &&& after.state.images@.last().image_id == provider
                &&& after.state.images@.last().artifact@ == identity
                &&& after.state.images@.last().allocation == lease.allocation
                &&& after.state.images@.last().state == runtime
            },
        }
    })
}

/// A session whose dependencies are being resolved, and what it works with.
pub struct Closing<Resolver, M, D> {
    pub session: LinkSession<BuildingState>,
    pub resolver: Resolver,
    pub memory: M,
    pub decoder: D,
}

/// Whether `request` asks for the needed entry of an item on behalf of its requester,
/// in the domain of the session.
pub open spec fn requested(
    session: LinkSession<BuildingState>,
    item: DiscoveryItem,
    request: DependencyRequest,
) -> bool {
    &&& request.requester@ == session.graph.nodes@[item.requester.0 as int].artifact@
    &&& request.needed@ == item.needed@
    &&& request.domain == session.domain
}

/// Whether the first item was taken from the queue and one more question was counted.
pub open spec fn popped(before: LinkSession<BuildingState>, after: LinkSession<BuildingState>) -> bool {
    &&& after.state.discovery.pending@ == before.state.discovery.pending@.drop_first()
    &&& after.state.discovery.limits == before.state.discovery.limits
    &&& after.state.discovery.wf()
    &&& after.state.images == before.state.images
    &&& after.state.closed == before.state.closed
    &&& after.rollback == before.rollback
    &&& after.graph == before.graph
    &&& after.metrics == (LoadMetrics {
        resolver_calls: counted(before.metrics.resolver_calls),
        ..before.metrics
    })
    &&& same_terms(before, after)
}

/// Whether an item was settled with the image that has this identity.
pub open spec fn reuses(
    before: LinkSession<BuildingState>,
    after: LinkSession<BuildingState>,
    item: DiscoveryItem,
    identity: ArtifactIdentityView,
    provider: ImageId,
    outcome: LoadResult<()>,
) -> bool {
    &&& identity_at(before.graph.nodes@, identity, provider.0 as int)
    &&& reused(before, after, item, provider, outcome)
}

/// The terms of a dependency of a session.
pub open spec fn shared_terms(session: LinkSession<BuildingState>) -> RuntimeTerms {
    RuntimeTerms {
        profile: session.profile,
        role: ArtifactRole::SharedObject,
        policy: session.policy,
        limits: session.limits.per_image,
    }
}

/// Whether an item was settled by loading a new artifact: a failed load fails the
/// session, and a loaded image is taken in.
pub open spec fn loads<Resolver: ArtifactResolver, M: ImageMemory, D: RuntimeDecoder>(
    before: Closing<Resolver, M, D>,
    after: Closing<Resolver, M, D>,
    item: DiscoveryItem,
    resolved: ResolvedArtifact<Resolver::Reader>,
    asked: LinkSession<BuildingState>,
    loaded: LoadResult<(AllocationLease, RuntimeImageState)>,
    outcome: LoadResult<()>,
) -> bool {
    &&& runtime_outcome(
        resolved.reader,
        shared_terms(before.session),
        before.memory,
        after.memory,
        before.decoder,
        after.decoder,
        loaded,
    )
    &&& match loaded {
        Ok((lease, runtime)) => absorbed(
            asked,
            after.session,
            item,
            resolved.identity@,
            resolved.ownership,
            lease,
            runtime,
            outcome,
        ),
        Err(error) => after.session == asked && outcome == Err::<(), LoadError>(
            error.claimed_by(LoadStage::Discover),
        ),
    }
}

/// Whether the first item was settled as `answer` to `request` asks for: a failed
/// resolution fails the session, an artifact that the session holds gets another
/// edge, and a new one is loaded. `asked` is the session when the question was asked.
pub open spec fn answered<Resolver: ArtifactResolver, M: ImageMemory, D: RuntimeDecoder>(
    before: Closing<Resolver, M, D>,
    after: Closing<Resolver, M, D>,
    request: DependencyRequest,
    answer: LoadResult<ResolvedArtifact<Resolver::Reader>>,
    asked: LinkSession<BuildingState>,
    outcome: LoadResult<()>,
) -> bool {
    let item = before.session.state.discovery.pending@[0];
    &&& requested(before.session, item, request)
    &&& before.resolver.answers(after.resolver, request, answer)
    &&& popped(before.session, asked)
    &&& match answer {
        Err(error) => {
            &&& outcome == Err::<(), LoadError>(error.claimed_by(LoadStage::Discover))
            &&& after.session == asked
            &&& after.memory == before.memory
            &&& after.decoder == before.decoder
        },
        Ok(resolved) => if identity_known(before.session.graph.nodes@, resolved.identity@) {
            &&& exists|provider: ImageId| #[trigger]
                reuses(asked, after.session, item, resolved.identity@, provider, outcome)
            &&& after.memory == before.memory
            &&& after.decoder == before.decoder
        } else {
            exists|loaded: LoadResult<(AllocationLease, RuntimeImageState)>| #[trigger]
                loads(before, after, item, resolved, asked, loaded, outcome)
        },
    }
}

/// Whether the first queued item was settled with this outcome.
pub open spec fn settled<Resolver: ArtifactResolver, M: ImageMemory, D: RuntimeDecoder>(
    before: Closing<Resolver, M, D>,
    after: Closing<Resolver, M, D>,
    outcome: LoadResult<()>,
) -> bool {
    &&& before.session.state.discovery.pending@.len() > 0
    &&& exists|
        request: DependencyRequest,
        answer: LoadResult<ResolvedArtifact<Resolver::Reader>>,
        asked: LinkSession<BuildingState>,
    | #[trigger]
        answered(before, after, request, answer, asked, outcome)
}

/// Whether every state follows from the one before by settling one item.
pub open spec fn in_turn<Resolver: ArtifactResolver, M: ImageMemory, D: RuntimeDecoder>(
    states: Seq<Closing<Resolver, M, D>>,
) -> bool {
    forall|i: int|
        0 <= i < states.len() - 1 ==> settled(#[trigger] states[i], states[i + 1], Ok(()))
}

/// Whether these states lead from `first` to `last` while every queued item is
/// settled in turn: the session is closed when the queue is empty, or the first item
/// that could not be settled gave the failure.
pub open spec fn closed_through<Resolver: ArtifactResolver, M: ImageMemory, D: RuntimeDecoder>(
    states: Seq<Closing<Resolver, M, D>>,
    first: Closing<Resolver, M, D>,
    last: Closing<Resolver, M, D>,
    outcome: LoadResult<()>,
) -> bool {
    &&& states.len() > 0
    &&& states[0] == first
    &&& in_turn(states)
    &&& match outcome {
        Ok(_) => {
            let end = states.last();
            &&& end.session.state.discovery.pending@.len() == 0
            &&& last == (Closing {
                session: LinkSession {
                    state: BuildingState { closed: true, ..end.session.state },
                    ..end.session
                },
                ..end
            })
        },
        Err(error) => settled(states.last(), last, Err(error)),
    }
}

proof fn lemma_prefix<T>(before: Seq<T>, after: Seq<T>, n: int)
    requires
        0 <= n <= before.len() <= after.len(),
        after.subrange(0, before.len() as int) == before,
    ensures
        after.subrange(0, n) == before.subrange(0, n),
{
    assert forall|i: int| 0 <= i < n implies after.subrange(0, n)[i] == before.subrange(0, n)[i] by {
        assert(after.subrange(0, before.len() as int)[i] == after[i]);
    }
    assert(after.subrange(0, n) =~= before.subrange(0, n));
}

impl LinkSession<BuildingState> {
    /// Records that a needed entry is satisfied by an image of the session.
    pub fn reuse(&mut self, item: &DiscoveryItem, provider: ImageId) -> (r: LoadResult<()>)
        requires
            old(self).graph.wf(),
            item.requester.0 < old(self).graph.nodes@.len(),
            provider.0 < old(self).graph.nodes@.len(),
        ensures
            reused(*old(self), *final(self), *item, provider, r),
    {
        claim_at(
            self.graph.link_existing(item.requester(), provider, item.needed_index()),
            LoadStage::Discover,
        )?;
        self.metrics.record_edge();
        Ok(())
    }

    /// Takes a newly loaded image into the session, records the edge to it and
    /// queues what it needs in turn.
    ///
    /// The session owns the image's memory from the start, so that a failure here
    /// gives it up with the rest.
    pub fn absorb(
        &mut self,
        item: &DiscoveryItem,
        identity: ArtifactIdentity,
        ownership: ImageOwnership,
        lease: AllocationLease,
        runtime: RuntimeImageState,
    ) -> (r: LoadResult<()>)
        requires
            old(self).graph.wf(),
            old(self).state.discovery.wf(),
            !identity_known(old(self).graph.nodes@, identity@),
        ensures
            absorbed(
                *old(self),
                *final(self),
                *item,
                identity@,
                ownership,
                lease,
                runtime,
                r,
            ),
    {
        let allocation: ImageAllocation = *lease.allocation();
        self.rollback.leases.push(lease);
        let soname: Option<DependencyName> = duplicate_name(&runtime.metadata.soname);
        let ghost before = self.graph;
        let copy: ArtifactIdentity = identity.clone();
        let inserted: LoadResult<ImageId> = self.graph.insert_dependency(
            item.requester(),
            item.needed(),
            item.needed_index(),
            copy,
            soname,
            ownership,
        );
        let provider: ImageId = match inserted {
            Ok(provider) => provider,
            Err(error) => return Err(error.at_stage(LoadStage::Discover)),
        };
        let depth: u16 = match self.graph.node(provider) {
            Some(node) => node.depth(),
            None => 0,
        };
        self.metrics.record_image(depth);
        self.metrics.record_edge();
        claim_at(
            enqueue_needed(&mut self.state.discovery, provider, &runtime.metadata.needed),
            LoadStage::Discover,
        )?;
        self.state.images.push(
            SessionImage { image_id: provider, artifact: identity, allocation, state: runtime },
        );
        assert(self.state.images@.drop_last() =~= old(self).state.images@);
        assert(self.graph.nodes@.drop_last() =~= before.nodes@);
        Ok(())
    }

    /// Resolves the first queued item.
    ///
    /// An artifact that the session already holds is found by its identity before
    /// it is loaded and only gets another edge. A new one is loaded, and what it
    /// needs is queued behind the rest.
    pub fn resolve_next<Resolver: ArtifactResolver, M: ImageMemory, D: RuntimeDecoder>(
        &mut self,
        resolver: &mut Resolver,
        memory: M,
        decoder: &mut D,
    ) -> (r: (LoadResult<()>, M))
        requires
            old(self).wf(),
            old(self).state.discovery.pending@.len() > 0,
        ensures
            settled(
                (Closing {
                    session: *old(self),
                    resolver: *old(resolver),
                    memory,
                    decoder: *old(decoder),
                }),
                (Closing {
                    session: *final(self),
                    resolver: *final(resolver),
                    memory: r.1,
                    decoder: *final(decoder),
                }),
                r.0,
            ),
            same_terms(*old(self), *final(self)),
            r.0 is Ok ==> {
                &&& final(self).wf()
                &&& !final(self).state.closed
                &&& extends(old(self).state.images@, final(self).state.images@)
                &&& old(self).graph.edges@.len() <= final(self).graph.edges@.len()
                &&& final(self).graph.edges@.subrange(0, old(self).graph.edges@.len() as int)
                    == old(self).graph.edges@
                &&& final(self).graph.nodes@.len() == old(self).graph.nodes@.len() + 1 || (
                final(self).graph.nodes@.len() == old(self).graph.nodes@.len()
                    && final(self).state.discovery.pending@.len()
                    < old(self).state.discovery.pending@.len())
            },
    {
        let ghost before = *self;
        let ghost start = Closing {
            session: *self,
            resolver: *resolver,
            memory,
            decoder: *decoder,
        };
        let item: DiscoveryItem = match self.state.discovery.pop() {
            Some(item) => item,
            None => vstd::pervasive::unreached(),
        };
        assert(before.state.discovery.pending@[0] == item);
        let requester: ImageId = item.requester();
        let requester_artifact: ArtifactIdentity = match self.graph.node(requester) {
            Some(node) => node.artifact().clone(),
            None => vstd::pervasive::unreached(),
        };
        let request: DependencyRequest = DependencyRequest::new(
            requester_artifact,
            item.needed().clone(),
            self.domain,
        );
        self.metrics.record_resolver_call();
        let ghost asked = *self;
        assert(popped(before, asked));
        assert(requested(before, item, request));
        let answer = resolver.resolve(&request);
        let resolved: ResolvedArtifact<Resolver::Reader> = match answer {
            Ok(resolved) => resolved,
            Err(error) => {
                assert(answered(
                    start,
                    Closing { session: *self, resolver: *resolver, memory, decoder: *decoder },
                    request,
                    Err(error),
                    asked,
                    Err(error.claimed_by(LoadStage::Discover)),
                ));
                return (Err(error.at_stage(LoadStage::Discover)), memory);
            },
        };
        let ghost found = resolved;
        let identity: ArtifactIdentity = resolved.identity().clone();
        let ownership: ImageOwnership = resolved.ownership();
        if let Some(existing) = self.graph.find_identity(&identity) {
            let outcome = self.reuse(&item, existing);
            proof {
                assert(reuses(asked, *self, item, found.identity@, existing, outcome));
                assert(answered(
                    start,
                    Closing { session: *self, resolver: *resolver, memory, decoder: *decoder },
                    request,
                    Ok(found),
                    asked,
                    outcome,
                ));
                if outcome is Ok {
                    lemma_item_reused(before, *self, item, existing);
                    assert(self.state.images@.subrange(0, before.state.images@.len() as int)
                        =~= before.state.images@);
                    assert(self.graph.edges@.subrange(0, before.graph.edges@.len() as int)
                        =~= before.graph.edges@);
                }
            }
            return (outcome, memory);
        }
        let terms = RuntimeTerms {
            profile: self.profile,
            role: ArtifactRole::SharedObject,
            policy: self.policy,
            limits: *self.limits.per_image(),
        };
        let (loaded, memory) = load_runtime(resolved.into_reader(), &terms, memory, decoder);
        let (lease, runtime) = match loaded {
            Ok(loaded) => loaded,
            Err(error) => {
                proof {
                    let end = Closing {
                        session: *self,
                        resolver: *resolver,
                        memory,
                        decoder: *decoder,
                    };
                    let outcome = Err::<(), LoadError>(error.claimed_by(LoadStage::Discover));
                    assert(loads(start, end, item, found, asked, Err(error), outcome));
                    assert(answered(start, end, request, Ok(found), asked, outcome));
                }
                return (Err(error.at_stage(LoadStage::Discover)), memory);
            },
        };
        let outcome = self.absorb(&item, identity, ownership, lease, runtime);
        proof {
            let end = Closing { session: *self, resolver: *resolver, memory, decoder: *decoder };
            assert(loads(start, end, item, found, asked, Ok((lease, runtime)), outcome));
            assert(answered(start, end, request, Ok(found), asked, outcome));
            if outcome is Ok {
                assert(self.graph.edges@.drop_last() =~= before.graph.edges@);
                assert(self.rollback.leases@.drop_last() =~= before.rollback.leases@);
                lemma_item_absorbed(before, asked, *self, item);
                assert(self.state.images@.subrange(0, before.state.images@.len() as int)
                    =~= before.state.images@);
                assert(self.graph.edges@.subrange(0, before.graph.edges@.len() as int)
                    =~= before.graph.edges@);
            }
        }
        (outcome, memory)
    }

    /// Resolves what is queued, in the order of discovery, until nothing is left. The
    /// memory comes back either way.
    pub fn close_dependencies<Resolver: ArtifactResolver, M: ImageMemory, D: RuntimeDecoder>(
        &mut self,
        resolver: &mut Resolver,
        memory: M,
        decoder: &mut D,
    ) -> (r: (LoadResult<()>, M))
        requires
            old(self).wf(),
        ensures
            old(self).state.closed ==> r.0 is Ok && *final(self) == *old(self) && *final(resolver)
                == *old(resolver) && r.1 == memory && *final(decoder) == *old(decoder),
            old(self).state.discovery.pending@.len() == 0 ==> r.0 is Ok,
            same_terms(*old(self), *final(self)),
            exists|states: Seq<Closing<Resolver, M, D>>| #[trigger]
                closed_through(
                    states,
                    (Closing {
                        session: *old(self),
                        resolver: *old(resolver),
                        memory,
                        decoder: *old(decoder),
                    }),
                    (Closing {
                        session: *final(self),
                        resolver: *final(resolver),
                        memory: r.1,
                        decoder: *final(decoder),
                    }),
                    r.0,
                ),
            r.0 is Ok ==> {
                &&& final(self).wf()
                &&& final(self).state.closed
                &&& extends(old(self).state.images@, final(self).state.images@)
                &&& old(self).graph.edges@.len() <= final(self).graph.edges@.len()
                &&& final(self).graph.edges@.subrange(0, old(self).graph.edges@.len() as int)
                    == old(self).graph.edges@
            },
    {
        let ghost start = Closing {
            session: *self,
            resolver: *resolver,
            memory,
            decoder: *decoder,
        };
        let ghost mut states: Seq<Closing<Resolver, M, D>> = seq![start];
        let ghost images = self.state.images@;
        let ghost edges = self.graph.edges@;
        assert(images.subrange(0, images.len() as int) =~= images);
        assert(edges.subrange(0, edges.len() as int) =~= edges);
        if self.state.closed {
            assert(closed_through(states, start, start, Ok(())));
            return (Ok(()), memory);
        }
        let mut held = memory;
        while !self.state.discovery.is_empty()
            invariant
                self.wf(),
                !self.state.closed,
                images == old(self).state.images@,
                edges == old(self).graph.edges@,
                extends(images, self.state.images@),
                edges.len() <= self.graph.edges@.len(),
                self.graph.edges@.subrange(0, edges.len() as int) == edges,
                same_terms(*old(self), *self),
                !old(self).state.closed,
                old(self).state.discovery.pending@.len() == 0
                    ==> self.state.discovery.pending@.len() == 0,
                states.len() > 0,
                states[0] == start,
                start.session == *old(self),
                start.resolver == *old(resolver),
                start.memory == memory,
                start.decoder == *old(decoder),
                states.last() == (Closing {
                    session: *self,
                    resolver: *resolver,
                    memory: held,
                    decoder: *decoder,
                }),
                in_turn(states),
            decreases
                    self.limits.max_images - self.graph.nodes@.len(),
                    self.state.discovery.pending@.len(),
        {
            let ghost before = *self;
            let (outcome, rest) = self.resolve_next(resolver, held, decoder);
            let ghost now = Closing {
                session: *self,
                resolver: *resolver,
                memory: rest,
                decoder: *decoder,
            };
            if let Err(error) = outcome {
                assert(closed_through(states, start, now, Err(error)));
                return (Err(error), rest);
            }
            held = rest;
            proof {
                let earlier = states;
                assert(outcome->Ok_0 == ());
                assert(settled(earlier.last(), now, Ok(())));
                states = states.push(now);
                assert forall|i: int| 0 <= i < states.len() - 1 implies settled(
                    #[trigger] states[i],
                    states[i + 1],
                    Ok(()),
                ) by {
                    assert(states[i] == earlier[i]);
                    if i < earlier.len() - 1 {
                        assert(states[i + 1] == earlier[i + 1]);
                    }
                }
                assert(self.state.images@.subrange(0, images.len() as int)
                    =~= before.state.images@.subrange(0, images.len() as int)) by {
                    assert(self.state.images@.subrange(0, before.state.images@.len() as int)
                        == before.state.images@);
                    lemma_prefix(before.state.images@, self.state.images@, images.len() as int);
                }
                assert(self.graph.edges@.subrange(0, edges.len() as int)
                    =~= before.graph.edges@.subrange(0, edges.len() as int)) by {
                    lemma_prefix(before.graph.edges@, self.graph.edges@, edges.len() as int);
                }
            }
        }
        self.state.closed = true;
        proof {
            let end = Closing {
                session: *self,
                resolver: *resolver,
                memory: held,
                decoder: *decoder,
            };
            assert(closed_through(states, start, end, Ok(())));
        }
        (Ok(()), held)
    }

    /// Freezes the scopes of a closed session. A failed session is given up.
    pub fn freeze_scopes(self) -> (r: Result<ScopedSession, SessionFailure>)
        requires
            self.wf(),
        ensures
            match r {
                Err(failed) => {
                    &&& !self.state.closed
                    &&& failed.error == scope_failure(LoadErrorKind::BadElf)
                    &&& failed.abandoned@ == self.rollback.leases@.reverse()
                },
                Ok(session) => {
                    &&& self.state.closed
                    &&& session.graph == self.graph
                    &&& session.rollback == self.rollback
                    &&& session.limits == self.limits
                    &&& session.metrics == self.metrics
                    &&& session.profile == self.profile
                    &&& session.policy == self.policy
                    &&& session.domain == self.domain
                    &&& session.state.images == self.state.images
                    &&& session.state.scopes.frozen_from(
                        self.graph,
                        symbol_tables(self.state.images@),
                    )
                },
            },
    {
        if !self.state.closed {
            return Err(
                SessionFailure {
                    error: fail_at(LoadStage::Scope, LoadErrorKind::BadElf, ErrorContext::Nothing),
                    abandoned: self.rollback.abort_order(),
                },
            );
        }
        let frozen: LoadResult<ScopeSet> = freeze(&self.graph, &self.state.images);
        match frozen {
            Ok(scopes) => Ok(
                LinkSession {
                    rollback: self.rollback,
                    graph: self.graph,
                    limits: self.limits,
                    metrics: self.metrics,
                    profile: self.profile,
                    policy: self.policy,
                    domain: self.domain,
                    state: ScopedState { images: self.state.images, scopes },
                },
            ),
            Err(error) => Err(
                SessionFailure { error, abandoned: self.rollback.abort_order() },
            ),
        }
    }
}

impl<S> LinkSession<S> {
    /// Gives a session up: its allocations, the youngest first.
    pub fn abandon(self) -> (r: Vec<AllocationLease>)
        ensures
            r@ == self.rollback.leases@.reverse(),
    {
        self.rollback.abort_order()
    }
}

/// The symbol tables of the images.
pub open spec fn symbol_tables(images: Seq<SessionImage<RuntimeImageState>>) -> Seq<&'static SymbolTable> {
    Seq::new(images.len(), |i: int| &images[i].state.metadata.symbols)
}

fn freeze(graph: &DependencyGraph, images: &Vec<SessionImage<RuntimeImageState>>) -> (r: LoadResult<
    ScopeSet,
>)
    requires
        graph.wf(),
        images@.len() == graph.nodes@.len(),
    ensures
        r matches Ok(scopes) && scopes.frozen_from(*graph, symbol_tables(images@)),
{
    let mut symbols: Vec<&SymbolTable> = Vec::new();
    let mut index: usize = 0;
    while index < images.len()
        invariant
            index <= images@.len(),
            symbols@.len() == index,
            forall|i: int|
                0 <= i < index ==> *(#[trigger] symbols@[i]) == images@[i].state.metadata.symbols,
        decreases images@.len() - index,
    {
        symbols.push(images[index].state.metadata().symbols());
        index = index + 1;
    }
    assert(symbols@ =~= symbol_tables(images@));
    ScopeSet::freeze(graph, &symbols)
}

proof fn lemma_item_reused(
    before: LinkSession<BuildingState>,
    after: LinkSession<BuildingState>,
    item: DiscoveryItem,
    provider: ImageId,
)
    requires
        before.wf(),
        !before.state.closed,
        before.state.discovery.pending@.len() > 0,
        item == before.state.discovery.pending@[0],
        after.state.discovery.pending@ == before.state.discovery.pending@.drop_first(),
        after.state.discovery.limits == before.state.discovery.limits,
        after.state.discovery.wf(),
        after.state.images == before.state.images,
        after.state.closed == before.state.closed,
        after.rollback == before.rollback,
        after.graph.wf(),
        after.graph.limits == before.graph.limits,
        after.graph.nodes@ == before.graph.nodes@,
        after.limits == before.limits,
        after.graph.edges@ == before.graph.edges@.push(
            DependencyEdge {
                requester: item.requester,
                provider,
                needed_index: item.needed_index,
            },
        ),
    ensures
        after.wf(),
{
    let pending = before.state.discovery.pending@;
    let rest = after.state.discovery.pending@;
    assert forall|k: int| 0 <= k < rest.len() implies (#[trigger] rest[k]).requester.0
        < after.graph.nodes@.len() by {
        assert(rest[k] == pending[k + 1]);
    }
    assert forall|i: int, j: int|
        0 <= i < after.state.images@.len() && 0 <= j
            < after.state.images@[i].state.metadata.needed@.len() implies #[trigger] seen_to(
        after.graph.edges@,
        rest,
        i,
        j as u16,
    ) by {
        assert(seen_to(before.graph.edges@, pending, i, j as u16));
        lemma_seen_to_kept(before.graph.edges@, after.graph.edges@, pending, rest, i, j as u16);
    }
}

/// What was seen to stays so when the first item is resolved.
proof fn lemma_seen_to_kept(
    edges: Seq<DependencyEdge>,
    more: Seq<DependencyEdge>,
    pending: Seq<DiscoveryItem>,
    rest: Seq<DiscoveryItem>,
    i: int,
    index: u16,
)
    requires
        seen_to(edges, pending, i, index),
        pending.len() > 0,
        pending.len() - 1 <= rest.len(),
        forall|k: int| 0 <= k < pending.len() - 1 ==> rest[k] == #[trigger] pending[k + 1],
        more.len() == edges.len() + 1,
        forall|e: int| 0 <= e < edges.len() ==> more[e] == edges[e],
        more[edges.len() as int].requester == pending[0].requester,
        more[edges.len() as int].needed_index == pending[0].needed_index,
    ensures
        seen_to(more, rest, i, index),
{
    if edge_for(edges, i, index) {
        let e = choose|e: int|
            0 <= e < edges.len() && (#[trigger] edges[e]).requester.0 == i
                && edges[e].needed_index == index;
        assert(more[e] == edges[e]);
    } else {
        let k = choose|k: int|
            0 <= k < pending.len() && (#[trigger] pending[k]).requester.0 == i
                && pending[k].needed_index == index;
        if k == 0 {
            assert(more[edges.len() as int].requester.0 == i);
        } else {
            assert(rest[k - 1] == pending[(k - 1) + 1]);
        }
    }
}

proof fn lemma_item_absorbed(
    before: LinkSession<BuildingState>,
    popped: LinkSession<BuildingState>,
    after: LinkSession<BuildingState>,
    item: DiscoveryItem,
)
    requires
        before.wf(),
        !before.state.closed,
        before.state.discovery.pending@.len() > 0,
        item == before.state.discovery.pending@[0],
        popped.state.discovery.pending@ == before.state.discovery.pending@.drop_first(),
        popped.state.images == before.state.images,
        popped.rollback == before.rollback,
        popped.graph == before.graph,
        popped.limits == before.limits,
        after.state.closed == before.state.closed,
        after.limits == before.limits,
        after.state.discovery.limits == before.state.discovery.limits,
        after.state.discovery.wf(),
        after.graph.wf(),
        after.graph.limits == before.graph.limits,
        after.graph.nodes@.len() == before.graph.nodes@.len() + 1,
        after.graph.nodes@.drop_last() == before.graph.nodes@,
        after.graph.edges@.len() == before.graph.edges@.len() + 1,
        after.graph.edges@.drop_last() == before.graph.edges@,
        after.graph.edges@.last().requester == item.requester,
        after.graph.edges@.last().needed_index == item.needed_index,
        after.state.images@.len() == before.state.images@.len() + 1,
        after.state.images@.drop_last() == before.state.images@,
        after.state.images@.last().image_id == ImageId(before.graph.nodes@.len() as u32),
        after.state.images@.last().artifact@ == after.graph.nodes@.last().artifact@,
        after.rollback.leases@.len() == before.rollback.leases@.len() + 1,
        after.rollback.leases@.drop_last() == before.rollback.leases@,
        after.state.images@.last().allocation == after.rollback.leases@.last().allocation,
        queued_after(
            popped.state.discovery.pending@,
            after.state.discovery.pending@,
            ImageId(before.graph.nodes@.len() as u32),
            after.state.images@.last().state.metadata.needed@,
        ),
    ensures
        after.wf(),
{
    let n = before.graph.nodes@.len() as int;
    let pending = before.state.discovery.pending@;
    let left = popped.state.discovery.pending@;
    let rest = after.state.discovery.pending@;
    let images = after.state.images@;
    assert(after.graph.nodes@[n].id.0 == n);
    assert forall|i: int| 0 <= i < images.len() implies {
        &&& (#[trigger] images[i]).image_id.0 == i
        &&& images[i].artifact@ == after.graph.nodes@[i].artifact@
        &&& images[i].allocation == after.rollback.leases@[i].allocation
    } by {
        if i < n {
            assert(images[i] == before.state.images@[i]);
            assert(after.graph.nodes@[i] == before.graph.nodes@[i]);
            assert(after.rollback.leases@[i] == before.rollback.leases@[i]);
        }
    }
    assert forall|k: int| 0 <= k < rest.len() implies (#[trigger] rest[k]).requester.0
        < after.graph.nodes@.len() by {
        if k < left.len() {
            assert(rest[k] == left[k]);
            assert(left[k] == pending[k + 1]);
        } else {
            assert(rest[left.len() + (k - left.len())].requester.0 == n);
        }
    }
    assert forall|i: int, j: int|
        0 <= i < images.len() && 0 <= j
            < images[i].state.metadata.needed@.len() implies #[trigger] seen_to(
        after.graph.edges@,
        rest,
        i,
        j as u16,
    ) by {
        if i < n {
            assert(images[i] == before.state.images@[i]);
            assert(seen_to(before.graph.edges@, pending, i, j as u16));
            assert forall|k: int| 0 <= k < pending.len() - 1 implies rest[k]
                == #[trigger] pending[k + 1] by {
                assert(rest[k] == left[k]);
            }
            lemma_seen_to_kept(
                before.graph.edges@,
                after.graph.edges@,
                pending,
                rest,
                i,
                j as u16,
            );
        } else {
            assert(rest[left.len() + j].requester.0 == n);
            assert(queued(rest, i, j as u16));
        }
    }
}

/// Whether the last edge of a session leads from the requester of an item to the
/// image that the resolver answered with.
pub open spec fn leads_to_answer<Resolver: ArtifactResolver, M: ImageMemory, D: RuntimeDecoder>(
    before: Closing<Resolver, M, D>,
    after: Closing<Resolver, M, D>,
    edge: DependencyEdge,
    nodes: Seq<DependencyNode>,
    request: DependencyRequest,
    resolved: ResolvedArtifact<Resolver::Reader>,
) -> bool {
    let item = before.session.state.discovery.pending@[0];
    &&& requested(before.session, item, request)
    &&& before.resolver.answers(after.resolver, request, Ok(resolved))
    &&& edge.requester == item.requester
    &&& edge.needed_index == item.needed_index
    &&& identity_at(nodes, resolved.identity@, edge.provider.0 as int)
}

/// Settling an item adds one edge, and adds at most one image.
proof fn lemma_settled<Resolver: ArtifactResolver, M: ImageMemory, D: RuntimeDecoder>(
    before: Closing<Resolver, M, D>,
    after: Closing<Resolver, M, D>,
)
    requires
        settled(before, after, Ok(())),
    ensures
        ({
            let edges = after.session.graph.edges@;
            let nodes = after.session.graph.nodes@;
            &&& edges.len() == before.session.graph.edges@.len() + 1
            &&& edges.drop_last() == before.session.graph.edges@
            &&& before.session.graph.nodes@.len() <= nodes.len()
            &&& forall|j: int|
                0 <= j < before.session.graph.nodes@.len() ==> nodes[j]
                    == #[trigger] before.session.graph.nodes@[j]
            &&& exists|request: DependencyRequest, resolved: ResolvedArtifact<Resolver::Reader>|
                #[trigger] leads_to_answer(before, after, edges.last(), nodes, request, resolved)
        }),
{
    let (request, answer, asked) = choose|
        request: DependencyRequest,
        answer: LoadResult<ResolvedArtifact<Resolver::Reader>>,
        asked: LinkSession<BuildingState>,
    | #[trigger]
        answered(before, after, request, answer, asked, Ok(()));
    let resolved = answer->Ok_0;
    let item = before.session.state.discovery.pending@[0];
    let edges = after.session.graph.edges@;
    let nodes = after.session.graph.nodes@;
    if identity_known(before.session.graph.nodes@, resolved.identity@) {
        let provider = choose|provider: ImageId| #[trigger]
            reuses(asked, after.session, item, resolved.identity@, provider, Ok(()));
        assert(reuses(asked, after.session, item, resolved.identity@, provider, Ok(())));
    } else {
        let loaded = choose|loaded: LoadResult<(AllocationLease, RuntimeImageState)>| #[trigger]
            loads(before, after, item, resolved, asked, loaded, Ok(()));
        assert(loads(before, after, item, resolved, asked, loaded, Ok(())));
        assert(nodes.drop_last() == before.session.graph.nodes@);
        assert forall|j: int| 0 <= j < before.session.graph.nodes@.len() implies nodes[j]
            == #[trigger] before.session.graph.nodes@[j] by {
            assert(nodes.drop_last()[j] == nodes[j]);
        }
    }
    assert(edges.drop_last() =~= before.session.graph.edges@);
    assert(leads_to_answer(before, after, edges.last(), nodes, request, resolved));
}

/// What a session holds stays while more items are settled.
proof fn lemma_in_turn<Resolver: ArtifactResolver, M: ImageMemory, D: RuntimeDecoder>(
    states: Seq<Closing<Resolver, M, D>>,
    i: int,
    k: int,
)
    requires
        in_turn(states),
        0 <= i <= k < states.len(),
    ensures
        ({
            let before = states[i].session.graph;
            let after = states[k].session.graph;
            &&& after.edges@.len() == before.edges@.len() + (k - i)
            &&& forall|e: int|
                0 <= e < before.edges@.len() ==> after.edges@[e] == #[trigger] before.edges@[e]
            &&& before.nodes@.len() <= after.nodes@.len()
            &&& forall|j: int|
                0 <= j < before.nodes@.len() ==> after.nodes@[j] == #[trigger] before.nodes@[j]
        }),
    decreases k - i,
{
    if i < k {
        lemma_in_turn(states, i, k - 1);
        assert(settled(states[k - 1], states[(k - 1) + 1], Ok(())));
        lemma_settled(states[k - 1], states[k]);
        let before = states[i].session.graph;
        let middle = states[k - 1].session.graph;
        let after = states[k].session.graph;
        assert forall|e: int| 0 <= e < before.edges@.len() implies after.edges@[e]
            == #[trigger] before.edges@[e] by {
            assert(after.edges@.drop_last()[e] == after.edges@[e]);
            assert(middle.edges@[e] == before.edges@[e]);
        }
        assert forall|j: int| 0 <= j < before.nodes@.len() implies after.nodes@[j]
            == #[trigger] before.nodes@[j] by {
            assert(middle.nodes@[j] == before.nodes@[j]);
        }
    }
}

proof fn lemma_identity_kept(
    before: Seq<DependencyNode>,
    after: Seq<DependencyNode>,
    identity: ArtifactIdentityView,
    i: int,
)
    requires
        identity_at(before, identity, i),
        before.len() <= after.len(),
        forall|j: int| 0 <= j < before.len() ==> after[j] == #[trigger] before[j],
    ensures
        identity_at(after, identity, i),
{
    assert(after[i] == before[i]);
    assert forall|j: int| 0 <= j < i implies (#[trigger] after[j]).artifact@ != identity by {
        assert(after[j] == before[j]);
    }
}

/// Every dependency of a closed session is answered: the edge of each item that was
/// settled leads from its requester to the image with the identity that the resolver
/// gave for the requester, the needed name and the domain of the session.
#[verifier::spinoff_prover]
#[verifier::rlimit(60)]
pub proof fn edges_lead_to_answers<Resolver: ArtifactResolver, M: ImageMemory, D: RuntimeDecoder>(
    states: Seq<Closing<Resolver, M, D>>,
    first: Closing<Resolver, M, D>,
    last: Closing<Resolver, M, D>,
    i: int,
)
    requires
        closed_through(states, first, last, Ok(())),
        0 <= i < states.len() - 1,
    ensures
        last.session.graph.edges@.len() == first.session.graph.edges@.len() + states.len() - 1,
        exists|request: DependencyRequest, resolved: ResolvedArtifact<Resolver::Reader>|
            #[trigger] leads_to_answer(
                states[i],
                states[i + 1],
                last.session.graph.edges@[first.session.graph.edges@.len() + i],
                last.session.graph.nodes@,
                request,
                resolved,
            ),
{
    let n = states.len() - 1;
    lemma_in_turn(states, 0, n);
    lemma_in_turn(states, 0, i);
    lemma_in_turn(states, i + 1, n);
    assert(settled(states[i], states[i + 1], Ok(())));
    lemma_settled(states[i], states[i + 1]);
    let then = states[i + 1].session.graph;
    let edge = then.edges@.last();
    assert(then.edges@[first.session.graph.edges@.len() + i] == edge);
    assert(last.session.graph == states[n].session.graph);
    let (request, resolved) = choose|
        request: DependencyRequest,
        resolved: ResolvedArtifact<Resolver::Reader>,
    | #[trigger]
        leads_to_answer(states[i], states[i + 1], edge, then.nodes@, request, resolved);
    lemma_identity_kept(
        then.nodes@,
        last.session.graph.nodes@,
        resolved.identity@,
        edge.provider.0 as int,
    );
    assert(leads_to_answer(
        states[i],
        states[i + 1],
        last.session.graph.edges@[first.session.graph.edges@.len() + i],
        last.session.graph.nodes@,
        request,
        resolved,
    ));
}

/// A closed session has an edge for every needed entry of every image.
pub proof fn closed_sessions_lack_nothing(session: LinkSession<BuildingState>, i: int, j: int)
    requires
        session.wf(),
        session.state.closed,
        0 <= i < session.state.images@.len(),
        0 <= j < session.state.images@[i].state.metadata.needed@.len(),
    ensures
        edge_for(session.graph.edges@, i, j as u16),
{
    assert(seen_to(session.graph.edges@, session.state.discovery.pending@, i, j as u16));
}

/// No two images of a session have one identity.
pub proof fn sessions_hold_no_image_twice(session: LinkSession<BuildingState>, i: int, j: int)
    requires
        session.wf(),
        0 <= i < j < session.state.images@.len(),
    ensures
        session.state.images@[i].artifact@ != session.state.images@[j].artifact@,
{
    assert(session.graph.nodes@[i].artifact@ != session.graph.nodes@[j].artifact@);
}

/// Dependencies are resolved in the order in which they were found: the item that has waited
/// longest is settled, and every other one moves up. The edge of the item is added behind the
/// others. If it leads to a new image, that image is one level below the requester, and what
/// it needs in turn waits behind everything else, in its own order.
#[verifier::spinoff_prover]
#[verifier::rlimit(60)]
pub proof fn dependencies_are_settled_in_order<
    Resolver: ArtifactResolver,
    M: ImageMemory,
    D: RuntimeDecoder,
>(before: Closing<Resolver, M, D>, after: Closing<Resolver, M, D>)
    requires
        before.session.wf(),
        settled(before, after, Ok(())),
    ensures
        ({
            let waiting = before.session.state.discovery.pending@;
            let left = after.session.state.discovery.pending@;
            let edges = before.session.graph.edges@;
            let added = after.session.graph.edges@;
            let nodes = before.session.graph.nodes@;
            let grown = after.session.graph.nodes@;
            let item = waiting[0];
            &&& left.len() >= waiting.len() - 1
            &&& forall|k: int| 0 <= k < waiting.len() - 1 ==> #[trigger] left[k] == waiting[k + 1]
            &&& added.len() == edges.len() + 1
            &&& forall|e: int| 0 <= e < edges.len() ==> #[trigger] added[e] == edges[e]
            &&& added.last().requester == item.requester
            &&& added.last().needed_index == item.needed_index
            &&& added.last().provider.0 < grown.len()
            &&& forall|i: int| 0 <= i < nodes.len() ==> #[trigger] grown[i] == nodes[i]
            &&& {
                ||| grown.len() == nodes.len() && left.len() == waiting.len() - 1
                ||| {
                    &&& grown.len() == nodes.len() + 1
                    &&& added.last().provider.0 == nodes.len()
                    &&& grown.last().depth == nodes[item.requester.0 as int].depth + 1
                    &&& after.session.state.images@.len() == before.session.state.images@.len() + 1
                    &&& ({
                        let needed = after.session.state.images@.last().state.metadata.needed@;
                        &&& left.len() == waiting.len() - 1 + needed.len()
                        &&& forall|j: int|
                            0 <= j < needed.len() ==> {
                                &&& (#[trigger] left[waiting.len() - 1 + j]).needed@ == needed[j]@
                                &&& left[waiting.len() - 1 + j].requester.0 == nodes.len()
                                &&& left[waiting.len() - 1 + j].needed_index == j as u16
                            }
                    })
                }
            }
        }),
{
    let waiting = before.session.state.discovery.pending@;
    let left = after.session.state.discovery.pending@;
    let nodes = before.session.graph.nodes@;
    let (request, answer, asked) = choose|
        request: DependencyRequest,
        answer: LoadResult<ResolvedArtifact<Resolver::Reader>>,
        asked: LinkSession<BuildingState>,
    | #[trigger]
        answered(before, after, request, answer, asked, Ok(()));
    let item = waiting[0];
    let queue = asked.state.discovery.pending@;
    assert(queue == waiting.drop_first());
    assert forall|k: int| 0 <= k < waiting.len() - 1 implies #[trigger] queue[k] == waiting[k
        + 1] by {}
    let resolved = answer->Ok_0;
    if identity_known(nodes, resolved.identity@) {
        let provider = choose|provider: ImageId| #[trigger]
            reuses(asked, after.session, item, resolved.identity@, provider, Ok(()));
        assert(reuses(asked, after.session, item, resolved.identity@, provider, Ok(())));
        assert(left == queue);
    } else {
        let loaded = choose|loaded: LoadResult<(AllocationLease, RuntimeImageState)>| #[trigger]
            loads(before, after, item, resolved, asked, loaded, Ok(()));
        assert(loads(before, after, item, resolved, asked, loaded, Ok(())));
        let grown = after.session.graph.nodes@;
        assert forall|i: int| 0 <= i < nodes.len() implies #[trigger] grown[i] == nodes[i] by {
            assert(grown.drop_last()[i] == grown[i]);
        }
    }
}

} // verus!
