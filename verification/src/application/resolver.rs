//! Resolving the dependencies of a launch that has been planned.
//!
//! The plan says which image satisfies each dependency, and the system libraries of
//! the whole launch were acquired at once. What is left is to follow the plan: to
//! say which file to open, with which permit, or which ready library to import. The
//! caller opens the file and tells its snapshot.

use crate::application::registry::{
    lease_released, lease_views, leases_released, load_cancelled, released_leases_are_counted,
    uses_of, LoadPermit, PreparedSystemBatch, RegistryView, StateView, SystemDsoLease,
    SystemDsoRegistry,
};
use crate::application::vfs_reader::{changed, source_changed, FileSnapshotId};
use crate::bytes::copy_bytes;
use crate::dynamic_linker::artifact::{
    ArtifactIdentity, ArtifactIdentityView, DependencyName, ImageOwnership,
};
use crate::error::{unclaimed, ErrorContext, LoadError, LoadErrorKind, LoadResult};
use crate::sort::{are_places, lemma_next_place};
use vstd::prelude::*;

verus! {

/// A descriptor that tells which artifact it is of.
pub trait DescribesArtifact {
    spec fn artifact(&self) -> ArtifactIdentityView;

    fn identity(&self) -> (r: &ArtifactIdentity)
        ensures
            r@ == self.artifact(),
    ;
}

impl DescribesArtifact for crate::dynamic_linker::published::PublishedImageDescriptor {
    open spec fn artifact(&self) -> ArtifactIdentityView {
        self.identity@
    }

    fn identity(&self) -> (r: &ArtifactIdentity) {
        &self.identity
    }
}

/// An image of the plan.
pub struct PlannedImage {
    pub path: String,
    pub identity: ArtifactIdentity,
    pub snapshot: FileSnapshotId,
    /// The name under which the system shares it, if it does.
    pub system_key: Option<DependencyName>,
}

/// A dependency of the plan.
pub struct PlannedEdge {
    pub requester: usize,
    pub request: DependencyName,
    pub provider: usize,
}

/// All images of a launch and their dependencies.
pub struct NamespaceLoadPlan {
    pub images: Vec<PlannedImage>,
    pub edges: Vec<PlannedEdge>,
    pub root: usize,
    pub system_keys: Vec<DependencyName>,
}

impl NamespaceLoadPlan {
    /// Whether every dependency and the root are images of the plan.
    pub open spec fn wf(self) -> bool {
        &&& self.root < self.images@.len()
        &&& forall|e: int|
            0 <= e < self.edges@.len() ==> (#[trigger] self.edges@[e]).provider
                < self.images@.len()
    }
}

/// A system library that this launch loads first.
pub struct SystemCandidateClaim {
    pub key: DependencyName,
    pub identity: ArtifactIdentity,
    pub snapshot: FileSnapshotId,
    pub permit: LoadPermit,
}

/// A ready library that this launch imports.
pub struct SystemImportClaim<D> {
    pub key: DependencyName,
    pub descriptor: D,
}

/// A system library and the authority to publish it.
pub struct SystemCandidatePermit {
    pub key: DependencyName,
    pub identity: ArtifactIdentity,
    pub permit: LoadPermit,
}

/// What a launch has of the registry when its dependencies are resolved.
pub struct ResolverAuthorities {
    pub permits: Vec<SystemCandidatePermit>,
    pub leases: Vec<SystemDsoLease>,
    pub system_images: Vec<(ArtifactIdentity, DependencyName)>,
}

/// What to do for a dependency.
pub enum Resolution<D> {
    /// Open this image of the plan. A permit comes with a system library that is
    /// loaded for the first time.
    Open { provider: usize, ownership: ImageOwnership, permit: Option<LoadPermit> },
    /// Import a ready library.
    Import(D),
}

/// Follows the plan of a launch.
pub struct NamespaceArtifactResolver<D> {
    pub plan: NamespaceLoadPlan,
    pub batch_loads: Vec<(DependencyName, LoadPermit)>,
    pub batch_imports: Vec<(DependencyName, SystemDsoLease, D)>,
    pub candidates: Vec<SystemCandidateClaim>,
    pub leases: Vec<SystemDsoLease>,
    pub imports: Vec<SystemImportClaim<D>>,
}

/// The failure of a launch that does not follow its plan.
pub open spec fn backend() -> LoadError {
    unclaimed(LoadErrorKind::Backend, ErrorContext::Nothing)
}

pub(crate) fn backend_error() -> (r: LoadError)
    ensures
        r == backend(),
{
    LoadError::new(LoadErrorKind::Backend, ErrorContext::Nothing)
}

/// Whether `error` tells of a dependency that nothing satisfies.
pub open spec fn is_unresolved(error: LoadError, needed: Seq<u8>) -> bool {
    &&& error.stage is None
    &&& error.kind == LoadErrorKind::Backend
    &&& error.context matches ErrorContext::Dependency { requester: who, needed: what } && who
        == 0 && what@ == needed
}

pub(crate) fn unresolved(needed: &DependencyName) -> (r: LoadError)
    ensures
        is_unresolved(r, needed@),
{
    LoadError::new(
        LoadErrorKind::Backend,
        ErrorContext::Dependency { requester: 0, needed: copy_bytes(needed.as_bytes()) },
    )
}

/// The first image from `from` on with this identity.
pub open spec fn image_from(
    images: Seq<PlannedImage>,
    identity: ArtifactIdentityView,
    from: int,
) -> Option<int>
    decreases images.len() - from,
{
    if from >= images.len() {
        None
    } else if images[from].identity@ == identity {
        Some(from)
    } else {
        image_from(images, identity, from + 1)
    }
}

/// The first dependency from `from` on of an image on a name.
pub open spec fn edge_from(
    edges: Seq<PlannedEdge>,
    requester: int,
    request: Seq<u8>,
    from: int,
) -> Option<int>
    decreases edges.len() - from,
{
    if from >= edges.len() {
        None
    } else if edges[from].requester == requester && edges[from].request@ == request {
        Some(from)
    } else {
        edge_from(edges, requester, request, from + 1)
    }
}

/// The first load from `from` on of a name.
pub open spec fn load_from(
    loads: Seq<(DependencyName, LoadPermit)>,
    key: Seq<u8>,
    from: int,
) -> Option<int>
    decreases loads.len() - from,
{
    if from >= loads.len() {
        None
    } else if loads[from].0@ == key {
        Some(from)
    } else {
        load_from(loads, key, from + 1)
    }
}

/// The first import from `from` on of a name.
pub open spec fn import_from<D>(
    imports: Seq<(DependencyName, SystemDsoLease, D)>,
    key: Seq<u8>,
    from: int,
) -> Option<int>
    decreases imports.len() - from,
{
    if from >= imports.len() {
        None
    } else if imports[from].0@ == key {
        Some(from)
    } else {
        import_from(imports, key, from + 1)
    }
}

/// `items` without the one at `i`, whose place the last one takes.
pub open spec fn swap_removed<T>(items: Seq<T>, i: int) -> Seq<T> {
    items.update(i, items.last()).drop_last()
}

/// Takes the load of a name.
pub fn take_load(loads: &mut Vec<(DependencyName, LoadPermit)>, key: &DependencyName) -> (r: Option<
    LoadPermit,
>)
    ensures
        match load_from(old(loads)@, key@, 0) {
            Some(i) => r == Some(old(loads)@[i].1) && final(loads)@ == swap_removed(
                old(loads)@,
                i,
            ) && 0 <= i < old(loads)@.len(),
            None => r is None && *final(loads) == *old(loads),
        },
{
    let ghost before = loads@;
    let mut index: usize = 0;
    while index < loads.len()
        invariant
            *loads == *old(loads),
            before == loads@,
            index <= before.len(),
            load_from(before, key@, 0) == load_from(before, key@, index as int),
        decreases before.len() - index,
    {
        if loads[index].0.same(key) {
            let taken = loads.swap_remove(index);
            return Some(taken.1);
        }
        index = index + 1;
    }
    None
}

/// Takes the import of a name.
pub fn take_import<D>(imports: &mut Vec<(DependencyName, SystemDsoLease, D)>, key: &DependencyName) -> (r:
    Option<(SystemDsoLease, D)>)
    ensures
        match import_from(old(imports)@, key@, 0) {
            Some(i) => r == Some((old(imports)@[i].1, old(imports)@[i].2)) && final(imports)@
                == swap_removed(old(imports)@, i) && 0 <= i < old(imports)@.len(),
            None => r is None && *final(imports) == *old(imports),
        },
{
    let ghost before = imports@;
    let mut index: usize = 0;
    while index < imports.len()
        invariant
            *imports == *old(imports),
            before == imports@,
            index <= before.len(),
            import_from(before, key@, 0) == import_from(before, key@, index as int),
        decreases before.len() - index,
    {
        if imports[index].0.same(key) {
            let taken = imports.swap_remove(index);
            return Some((taken.1, taken.2));
        }
        index = index + 1;
    }
    None
}

/// The first claim from `from` on of a name.
pub open spec fn candidate_from(candidates: Seq<SystemCandidateClaim>, key: Seq<u8>, from: int) -> Option<
    int,
>
    decreases candidates.len() - from,
{
    if from >= candidates.len() {
        None
    } else if candidates[from].key@ == key {
        Some(from)
    } else {
        candidate_from(candidates, key, from + 1)
    }
}

/// The first claimed import from `from` on of a name.
pub open spec fn claimed_from<D>(imports: Seq<SystemImportClaim<D>>, key: Seq<u8>, from: int) -> Option<
    int,
>
    decreases imports.len() - from,
{
    if from >= imports.len() {
        None
    } else if imports[from].key@ == key {
        Some(from)
    } else {
        claimed_from(imports, key, from + 1)
    }
}

/// Where the plan says that a dependency comes from.
pub enum Planned {
    /// The requester is no image of the plan.
    NoRequester,
    /// The plan has no such dependency.
    NoEdge,
    Provider(int),
}

/// Where a plan says that a dependency comes from.
pub open spec fn planned(
    plan: NamespaceLoadPlan,
    requester: ArtifactIdentityView,
    needed: Seq<u8>,
) -> Planned {
    match image_from(plan.images@, requester, 0) {
        None => Planned::NoRequester,
        Some(i) => match edge_from(plan.edges@, i, needed, 0) {
            None => Planned::NoEdge,
            Some(e) => Planned::Provider(plan.edges@[e].provider as int),
        },
    }
}

impl<D> NamespaceArtifactResolver<D> {
    /// Starts to follow a plan with the system libraries that were acquired for it.
    pub fn new(plan: NamespaceLoadPlan, batch: PreparedSystemBatch<D>) -> (r: Self)
        ensures
            r.plan == plan,
            r.batch_loads == batch.loads,
            r.batch_imports == batch.imports,
            r.candidates@.len() == 0,
            r.leases@.len() == 0,
            r.imports@.len() == 0,
    {
        NamespaceArtifactResolver {
            plan,
            batch_loads: batch.loads,
            batch_imports: batch.imports,
            candidates: Vec::new(),
            leases: Vec::new(),
            imports: Vec::new(),
        }
    }

    fn find_candidate(&self, key: &DependencyName) -> (r: Option<usize>)
        ensures
            match candidate_from(self.candidates@, key@, 0) {
                Some(i) => r matches Some(found) && found == i && i < self.candidates@.len(),
                None => r is None,
            },
    {
        let mut index: usize = 0;
        while index < self.candidates.len()
            invariant
                index <= self.candidates@.len(),
                candidate_from(self.candidates@, key@, 0) == candidate_from(
                    self.candidates@,
                    key@,
                    index as int,
                ),
            decreases self.candidates@.len() - index,
        {
            if self.candidates[index].key.same(key) {
                return Some(index);
            }
            index = index + 1;
        }
        None
    }

    fn find_claimed(&self, key: &DependencyName) -> (r: Option<usize>)
        ensures
            match claimed_from(self.imports@, key@, 0) {
                Some(i) => r matches Some(found) && found == i && i < self.imports@.len(),
                None => r is None,
            },
    {
        let mut index: usize = 0;
        while index < self.imports.len()
            invariant
                index <= self.imports@.len(),
                claimed_from(self.imports@, key@, 0) == claimed_from(
                    self.imports@,
                    key@,
                    index as int,
                ),
            decreases self.imports@.len() - index,
        {
            if self.imports[index].key.same(key) {
                return Some(index);
            }
            index = index + 1;
        }
        None
    }

    /// The image that the plan provides for a dependency.
    pub fn planned_provider_index(&self, requester: &ArtifactIdentity, needed: &DependencyName) -> (r:
        LoadResult<usize>)
        ensures
            match planned(self.plan, requester@, needed@) {
                Planned::NoRequester => r == Err::<usize, LoadError>(backend()),
                Planned::NoEdge => r matches Err(error) && is_unresolved(error, needed@),
                Planned::Provider(provider) => r matches Ok(found) && found == provider,
            },
    {
        let mut image: usize = 0;
        while image < self.plan.images.len()
            invariant
                image <= self.plan.images@.len(),
                image_from(self.plan.images@, requester@, 0) == image_from(
                    self.plan.images@,
                    requester@,
                    image as int,
                ),
            decreases self.plan.images@.len() - image,
        {
            if self.plan.images[image].identity.same(requester) {
                return self.provider_of(image, needed);
            }
            image = image + 1;
        }
        Err(backend_error())
    }

    fn provider_of(&self, requester: usize, needed: &DependencyName) -> (r: LoadResult<usize>)
        ensures
            match edge_from(self.plan.edges@, requester as int, needed@, 0) {
                None => r matches Err(error) && is_unresolved(error, needed@),
                Some(e) => r matches Ok(found) && found == self.plan.edges@[e].provider,
            },
    {
        let mut edge: usize = 0;
        while edge < self.plan.edges.len()
            invariant
                edge <= self.plan.edges@.len(),
                edge_from(self.plan.edges@, requester as int, needed@, 0) == edge_from(
                    self.plan.edges@,
                    requester as int,
                    needed@,
                    edge as int,
                ),
            decreases self.plan.edges@.len() - edge,
        {
            let known: &PlannedEdge = &self.plan.edges[edge];
            if known.requester == requester && known.request.same(needed) {
                return Ok(known.provider);
            }
            edge = edge + 1;
        }
        Err(unresolved(needed))
    }

    /// Checks a file that was opened for an image of the plan and gives the image's
    /// identity.
    pub fn opened(&self, provider: usize, snapshot: &FileSnapshotId) -> (r: LoadResult<
        ArtifactIdentity,
    >)
        requires
            provider < self.plan.images@.len(),
        ensures
            if *snapshot == self.plan.images@[provider as int].snapshot {
                r matches Ok(identity) && identity@ == self.plan.images@[provider as int].identity@
            } else {
                r == Err::<ArtifactIdentity, LoadError>(changed())
            },
    {
        let image: &PlannedImage = &self.plan.images[provider];
        if *snapshot != image.snapshot {
            return Err(source_changed());
        }
        Ok(image.identity.clone())
    }

    /// Checks the file that was opened for the root and gives the root's identity.
    pub fn root_artifact(&self, snapshot: &FileSnapshotId) -> (r: LoadResult<ArtifactIdentity>)
        requires
            self.plan.wf(),
        ensures
            if *snapshot == self.plan.images@[self.plan.root as int].snapshot {
                r matches Ok(identity) && identity@ == self.plan.images@[self.plan.root as int].identity@
            } else {
                r == Err::<ArtifactIdentity, LoadError>(changed())
            },
    {
        self.opened(self.plan.root, snapshot)
    }

    /// Records that a system library has been opened with its permit.
    pub fn claim(&mut self, provider: usize, permit: LoadPermit)
        requires
            provider < old(self).plan.images@.len(),
        ensures
            final(self).plan == old(self).plan,
            final(self).batch_loads == old(self).batch_loads,
            final(self).batch_imports == old(self).batch_imports,
            final(self).leases == old(self).leases,
            final(self).imports == old(self).imports,
            ({
                let image = old(self).plan.images@[provider as int];
                match image.system_key {
                    Some(key) => {
                        &&& final(self).candidates@.len() == old(self).candidates@.len() + 1
                        &&& final(self).candidates@.drop_last() == old(self).candidates@
                        &&& final(self).candidates@.last().key@ == key@
                        &&& final(self).candidates@.last().identity@ == image.identity@
                        &&& final(self).candidates@.last().snapshot == image.snapshot
                        &&& final(self).candidates@.last().permit == permit
                    },
                    None => final(self).candidates@ == old(self).candidates@,
                }
            }),
    {
        let image: &PlannedImage = &self.plan.images[provider];
        if let Some(key) = &image.system_key {
            let claim = SystemCandidateClaim {
                key: key.clone(),
                identity: image.identity.clone(),
                snapshot: image.snapshot,
                permit,
            };
            self.candidates.push(claim);
            assert(self.candidates@.drop_last() =~= old(self).candidates@);
        }
    }
}

/// How a system library of the plan is resolved.
pub enum SystemCase {
    NotShared,
    /// It was claimed, and is or is not the same file.
    Claimed(bool),
    FirstLoad(int),
    /// It is ready, and is or is not the same artifact.
    FirstImport(int, bool),
    Imported(int),
    Missing,
}

/// How the system library at `provider` is resolved.
pub open spec fn system_case<D: DescribesArtifact>(
    resolver: NamespaceArtifactResolver<D>,
    provider: int,
) -> SystemCase {
    let image = resolver.plan.images@[provider];
    match image.system_key {
        None => SystemCase::NotShared,
        Some(key) => match candidate_from(resolver.candidates@, key@, 0) {
            Some(i) => SystemCase::Claimed(
                resolver.candidates@[i].identity@ == image.identity@
                    && resolver.candidates@[i].snapshot == image.snapshot,
            ),
            None => match load_from(resolver.batch_loads@, key@, 0) {
                Some(i) => SystemCase::FirstLoad(i),
                None => match import_from(resolver.batch_imports@, key@, 0) {
                    Some(i) => SystemCase::FirstImport(
                        i,
                        resolver.batch_imports@[i].2.artifact() == image.identity@,
                    ),
                    None => match claimed_from(resolver.imports@, key@, 0) {
                        Some(i) => SystemCase::Imported(i),
                        None => SystemCase::Missing,
                    },
                },
            },
        },
    }
}

/// Whether a step resolves the system library at `provider`, with the launch and the
/// registry before and after.
pub open spec fn system_resolved<D: DescribesArtifact + Clone>(
    before: NamespaceArtifactResolver<D>,
    after: NamespaceArtifactResolver<D>,
    registry: RegistryView<D>,
    registry_after: RegistryView<D>,
    provider: usize,
    r: LoadResult<Resolution<D>>,
) -> bool {
    &&& after.plan == before.plan
    &&& after.candidates == before.candidates
    &&& match system_case(before, provider as int) {
        SystemCase::NotShared | SystemCase::Missing => {
            &&& r == Err::<Resolution<D>, LoadError>(backend())
            &&& after == before
            &&& registry_after == registry
        },
        SystemCase::Claimed(same) => {
            &&& r == (if same {
                Ok::<Resolution<D>, LoadError>(
                    Resolution::Open {
                        provider,
                        ownership: ImageOwnership::SystemCandidate,
                        permit: None,
                    },
                )
            } else {
                Err(changed())
            })
            &&& after == before
            &&& registry_after == registry
        },
        SystemCase::FirstLoad(i) => {
            &&& r == Ok::<Resolution<D>, LoadError>(
                Resolution::Open {
                    provider,
                    ownership: ImageOwnership::SystemCandidate,
                    permit: Some(before.batch_loads@[i].1),
                },
            )
            &&& after.batch_loads@ == swap_removed(before.batch_loads@, i)
            &&& after.batch_imports == before.batch_imports
            &&& after.leases == before.leases
            &&& after.imports == before.imports
            &&& registry_after == registry
        },
        SystemCase::FirstImport(i, same) => {
            &&& after.batch_loads == before.batch_loads
            &&& after.batch_imports@ == swap_removed(before.batch_imports@, i)
            &&& if same {
                &&& r == Ok::<Resolution<D>, LoadError>(
                    Resolution::Import(before.batch_imports@[i].2),
                )
                &&& after.leases@ == before.leases@.push(
                    before.batch_imports@[i].1,
                )
                &&& after.imports@.len() == before.imports@.len() + 1
                &&& after.imports@.drop_last() == before.imports@
                &&& before.plan.images@[provider as int].system_key matches Some(key)
                    && after.imports@.last().key@ == key@
                &&& cloned::<D>(
                    before.batch_imports@[i].2,
                    after.imports@.last().descriptor,
                )
                &&& registry_after == registry
            } else {
                &&& r == Err::<Resolution<D>, LoadError>(changed())
                &&& after.leases == before.leases
                &&& after.imports == before.imports
                &&& registry_after == lease_released(
                    registry,
                    before.batch_imports@[i].1@,
                )
            }
        },
        SystemCase::Imported(i) => {
            &&& r matches Ok(Resolution::Import(descriptor)) && cloned::<D>(
                before.imports@[i].descriptor,
                descriptor,
            )
            &&& after == before
            &&& registry_after == registry
        },
    }
}

impl<D: DescribesArtifact + Clone> NamespaceArtifactResolver<D> {
    /// Resolves a system library of the plan. One that the launch has claimed is
    /// opened again; one that it is to load comes with its permit; a ready one is
    /// imported, and its lease is kept.
    pub fn resolve_system(&mut self, registry: &mut SystemDsoRegistry<D>, provider: usize) -> (r:
        LoadResult<Resolution<D>>)
        requires
            provider < old(self).plan.images@.len(),
        ensures
            system_resolved(*old(self), *final(self), old(registry)@, final(registry)@, provider, r),
    {
        let key: DependencyName = match &self.plan.images[provider].system_key {
            Some(key) => key.clone(),
            None => return Err(backend_error()),
        };
        if let Some(index) = self.find_candidate(&key) {
            let image: &PlannedImage = &self.plan.images[provider];
            if !self.candidates[index].identity.same(&image.identity)
                || self.candidates[index].snapshot != image.snapshot {
                return Err(source_changed());
            }
            return Ok(
                Resolution::Open {
                    provider,
                    ownership: ImageOwnership::SystemCandidate,
                    permit: None,
                },
            );
        }
        if let Some(permit) = take_load(&mut self.batch_loads, &key) {
            return Ok(
                Resolution::Open {
                    provider,
                    ownership: ImageOwnership::SystemCandidate,
                    permit: Some(permit),
                },
            );
        }
        if let Some((lease, descriptor)) = take_import(&mut self.batch_imports, &key) {
            if !descriptor.identity().same(&self.plan.images[provider].identity) {
                registry.release_lease(lease);
                return Err(source_changed());
            }
            self.leases.push(lease);
            let copy: D = descriptor.clone();
            self.imports.push(SystemImportClaim { key, descriptor: copy });
            assert(self.imports@.drop_last() =~= old(self).imports@);
            return Ok(Resolution::Import(descriptor));
        }
        if let Some(index) = self.find_claimed(&key) {
            return Ok(Resolution::Import(self.imports[index].descriptor.clone()));
        }
        Err(backend_error())
    }

    /// Resolves a dependency of an image of the plan: a system library as
    /// [`Self::resolve_system`] says, any other image by opening it for the
    /// application.
    pub fn resolve(
        &mut self,
        registry: &mut SystemDsoRegistry<D>,
        requester: &ArtifactIdentity,
        needed: &DependencyName,
    ) -> (r: LoadResult<Resolution<D>>)
        requires
            old(self).plan.wf(),
        ensures
            final(self).plan == old(self).plan,
            match planned(old(self).plan, requester@, needed@) {
                Planned::NoRequester => r == Err::<Resolution<D>, LoadError>(backend())
                    && *final(self) == *old(self) && final(registry)@ == old(registry)@,
                Planned::NoEdge => (r matches Err(error) && is_unresolved(error, needed@))
                    && *final(self) == *old(self) && final(registry)@ == old(registry)@,
                Planned::Provider(provider) => if old(self).plan.images@[provider].system_key
                    is None {
                    &&& r == Ok::<Resolution<D>, LoadError>(
                        Resolution::Open {
                            provider: provider as usize,
                            ownership: ImageOwnership::SessionPrivate,
                            permit: None,
                        },
                    )
                    &&& *final(self) == *old(self)
                    &&& final(registry)@ == old(registry)@
                } else {
                    system_resolved(
                        *old(self),
                        *final(self),
                        old(registry)@,
                        final(registry)@,
                        provider as usize,
                        r,
                    )
                },
            },
    {
        let provider: usize = self.planned_provider_index(requester, needed)?;
        proof {
            lemma_edge_from(
                self.plan.edges@,
                image_from(self.plan.images@, requester@, 0)->0,
                needed@,
                0,
            );
        }
        if self.plan.images[provider].system_key.is_some() {
            self.resolve_system(registry, provider)
        } else {
            Ok(
                Resolution::Open {
                    provider,
                    ownership: ImageOwnership::SessionPrivate,
                    permit: None,
                },
            )
        }
    }
}

proof fn lemma_edge_from(edges: Seq<PlannedEdge>, requester: int, request: Seq<u8>, from: int)
    requires
        0 <= from <= edges.len(),
    ensures
        edge_from(edges, requester, request, from) matches Some(e) ==> from <= e < edges.len(),
    decreases edges.len() - from,
{
    if from < edges.len() {
        lemma_edge_from(edges, requester, request, from + 1);
    }
}

/// The leases of some imports.
pub open spec fn import_leases<D>(imports: Seq<(DependencyName, SystemDsoLease, D)>) -> Seq<SystemDsoLease> {
    Seq::new(imports.len(), |i: int| imports[i].1)
}

/// Moves the leases of some imports behind others.
pub(crate) fn append_leases<D>(
    leases: &mut Vec<SystemDsoLease>,
    imports: Vec<(DependencyName, SystemDsoLease, D)>,
)
    ensures
        final(leases)@ == old(leases)@ + import_leases(imports@),
{
    let ghost held = leases@;
    let ghost left = imports@;
    let mut rest = imports;
    let ghost mut taken: int = 0;
    assert(rest@ =~= left.subrange(0, left.len() as int));
    assert(leases@ =~= held + import_leases(left).subrange(0, 0));
    while rest.len() > 0
        invariant
            0 <= taken <= left.len(),
            rest@ == left.subrange(taken, left.len() as int),
            leases@ == held + import_leases(left).subrange(0, taken),
        decreases rest@.len(),
    {
        let import = rest.remove(0);
        assert(import == left[taken]);
        leases.push(import.1);
        proof {
            assert(rest@ =~= left.subrange(taken + 1, left.len() as int));
            assert(leases@ =~= held + import_leases(left).subrange(0, taken + 1));
            taken = taken + 1;
        }
    }
    assert(import_leases(left).subrange(0, taken) =~= import_leases(left));
}

/// The registry after the first `k` of some loads are cancelled.
pub open spec fn permits_dropped<D>(view: RegistryView<D>, permits: Seq<LoadPermit>, k: int) -> RegistryView<
    D,
>
    decreases k,
{
    if k <= 0 {
        view
    } else {
        load_cancelled(permits_dropped(view, permits, k - 1), permits[k - 1])
    }
}

/// The registry after the first `k` of some leases are released.
pub open spec fn leases_dropped<D>(view: RegistryView<D>, leases: Seq<SystemDsoLease>, k: int) -> RegistryView<
    D,
>
    decreases k,
{
    if k <= 0 {
        view
    } else {
        lease_released(leases_dropped(view, leases, k - 1), leases[k - 1]@)
    }
}

/// The permits of some loads.
pub open spec fn load_permits(loads: Seq<(DependencyName, LoadPermit)>) -> Seq<LoadPermit> {
    Seq::new(loads.len(), |i: int| loads[i].1)
}

/// Cancels loads that were acquired and not used.
pub(crate) fn drop_loads<D>(
    registry: &mut SystemDsoRegistry<D>,
    loads: Vec<(DependencyName, LoadPermit)>,
)
    ensures
        final(registry)@ == permits_dropped(
            old(registry)@,
            load_permits(loads@),
            loads@.len() as int,
        ),
{
    let ghost all = loads@;
    let ghost before = registry@;
    let mut rest = loads;
    let ghost mut done: int = 0;
    assert(rest@ =~= all.subrange(0, all.len() as int));
    while rest.len() > 0
        invariant
            0 <= done <= all.len(),
            rest@ == all.subrange(done, all.len() as int),
            registry@ == permits_dropped(before, load_permits(all), done),
        decreases rest@.len(),
    {
        let load = rest.remove(0);
        assert(load == all[done]);
        registry.cancel_load(load.1);
        proof {
            assert(load_permits(all)[done] == load.1);
            assert(rest@ =~= all.subrange(done + 1, all.len() as int));
            done = done + 1;
        }
    }
}

/// Releases leases.
pub(crate) fn drop_leases<D>(registry: &mut SystemDsoRegistry<D>, leases: Vec<SystemDsoLease>)
    ensures
        final(registry)@ == leases_dropped(old(registry)@, leases@, leases@.len() as int),
{
    let ghost all = leases@;
    let ghost before = registry@;
    let mut rest = leases;
    let ghost mut done: int = 0;
    assert(rest@ =~= all.subrange(0, all.len() as int));
    while rest.len() > 0
        invariant
            0 <= done <= all.len(),
            rest@ == all.subrange(done, all.len() as int),
            registry@ == leases_dropped(before, all, done),
        decreases rest@.len(),
    {
        let lease: SystemDsoLease = rest.remove(0);
        assert(lease == all[done]);
        registry.release_lease(lease);
        proof {
            assert(rest@ =~= all.subrange(done + 1, all.len() as int));
            done = done + 1;
        }
    }
}

/// The permits of what a launch has claimed.
pub open spec fn authority_permits(permits: Seq<SystemCandidatePermit>) -> Seq<LoadPermit> {
    Seq::new(permits.len(), |i: int| permits[i].permit)
}

impl ResolverAuthorities {
    /// Gives everything back to the registry: a launch that fails loads nothing and
    /// uses nothing.
    pub fn abandon<D>(self, registry: &mut SystemDsoRegistry<D>)
        ensures
            ({
                let cancelled = permits_dropped(
                    old(registry)@,
                    authority_permits(self.permits@),
                    self.permits@.len() as int,
                );
                final(registry)@ == leases_dropped(
                    cancelled,
                    self.leases@,
                    self.leases@.len() as int,
                )
            }),
    {
        let ghost all = self.permits@;
        let ghost before = registry@;
        let mut rest = self.permits;
        let ghost mut done: int = 0;
        assert(rest@ =~= all.subrange(0, all.len() as int));
        while rest.len() > 0
            invariant
                0 <= done <= all.len(),
                rest@ == all.subrange(done, all.len() as int),
                registry@ == permits_dropped(before, authority_permits(all), done),
            decreases rest@.len(),
        {
            let claim: SystemCandidatePermit = rest.remove(0);
            assert(claim == all[done]);
            registry.cancel_load(claim.permit);
            proof {
                assert(authority_permits(all)[done] == claim.permit);
                assert(rest@ =~= all.subrange(done + 1, all.len() as int));
                done = done + 1;
            }
        }
        drop_leases(registry, self.leases);
    }
}

/// Those of the first `k` images that the system shares, with their names.
pub open spec fn shared_images(images: Seq<PlannedImage>, k: int) -> Seq<
    (ArtifactIdentityView, Seq<u8>),
>
    decreases k,
{
    if k <= 0 {
        Seq::empty()
    } else {
        match images[k - 1].system_key {
            Some(key) => shared_images(images, k - 1).push((images[k - 1].identity@, key@)),
            None => shared_images(images, k - 1),
        }
    }
}

impl<D> NamespaceArtifactResolver<D> {
    /// Hands over what the launch has of the registry. The leases of libraries that
    /// nothing asked for are among it.
    pub fn finish_resolution(&mut self) -> (r: ResolverAuthorities)
        ensures
            final(self).plan == old(self).plan,
            final(self).batch_loads == old(self).batch_loads,
            final(self).imports == old(self).imports,
            final(self).candidates@.len() == 0,
            final(self).leases@.len() == 0,
            final(self).batch_imports@.len() == 0,
            r.leases@ == old(self).leases@ + import_leases(old(self).batch_imports@),
            r.permits@.len() == old(self).candidates@.len(),
            forall|i: int|
                0 <= i < r.permits@.len() ==> {
                    &&& (#[trigger] r.permits@[i]).key == old(self).candidates@[i].key
                    &&& r.permits@[i].identity == old(self).candidates@[i].identity
                    &&& r.permits@[i].permit == old(self).candidates@[i].permit
                },
            r.system_images@.len() == shared_images(
                old(self).plan.images@,
                old(self).plan.images@.len() as int,
            ).len(),
            forall|i: int|
                0 <= i < r.system_images@.len() ==> ((#[trigger] r.system_images@[i]).0@,
                    r.system_images@[i].1@,
                ) == shared_images(
                    old(self).plan.images@,
                    old(self).plan.images@.len() as int,
                )[i],
    {
        let mut candidates: Vec<SystemCandidateClaim> = Vec::new();
        core::mem::swap(&mut self.candidates, &mut candidates);
        let ghost claims = candidates@;
        let mut permits: Vec<SystemCandidatePermit> = Vec::new();
        assert(candidates@ =~= claims.subrange(0, claims.len() as int));
        while candidates.len() > 0
            invariant
                permits@.len() <= claims.len(),
                candidates@ == claims.subrange(permits@.len() as int, claims.len() as int),
                forall|i: int|
                    0 <= i < permits@.len() ==> {
                        &&& (#[trigger] permits@[i]).key == claims[i].key
                        &&& permits@[i].identity == claims[i].identity
                        &&& permits@[i].permit == claims[i].permit
                    },
            decreases candidates@.len(),
        {
            let ghost done = permits@.len() as int;
            let claim: SystemCandidateClaim = candidates.remove(0);
            assert(claim == claims[done]);
            permits.push(
                SystemCandidatePermit {
                    key: claim.key,
                    identity: claim.identity,
                    permit: claim.permit,
                },
            );
            assert(candidates@ =~= claims.subrange(done + 1, claims.len() as int));
        }
        let mut leases: Vec<SystemDsoLease> = Vec::new();
        core::mem::swap(&mut self.leases, &mut leases);
        let mut imports: Vec<(DependencyName, SystemDsoLease, D)> = Vec::new();
        core::mem::swap(&mut self.batch_imports, &mut imports);
        append_leases(&mut leases, imports);
        let system_images = self.shared();
        ResolverAuthorities { permits, leases, system_images }
    }

    /// Cancels the loads that were acquired for the launch and that nothing asked
    /// for. What was claimed goes with [`Self::finish_resolution`].
    pub fn close(self, registry: &mut SystemDsoRegistry<D>)
        ensures
            final(registry)@ == permits_dropped(
                old(registry)@,
                load_permits(self.batch_loads@),
                self.batch_loads@.len() as int,
            ),
    {
        drop_loads(registry, self.batch_loads);
    }

    fn shared(&self) -> (r: Vec<(ArtifactIdentity, DependencyName)>)
        ensures
            r@.len() == shared_images(self.plan.images@, self.plan.images@.len() as int).len(),
            forall|i: int|
                0 <= i < r@.len() ==> ((#[trigger] r@[i]).0@, r@[i].1@) == shared_images(
                    self.plan.images@,
                    self.plan.images@.len() as int,
                )[i],
    {
        let mut out: Vec<(ArtifactIdentity, DependencyName)> = Vec::new();
        let mut index: usize = 0;
        while index < self.plan.images.len()
            invariant
                index <= self.plan.images@.len(),
                out@.len() == shared_images(self.plan.images@, index as int).len(),
                forall|i: int|
                    0 <= i < out@.len() ==> ((#[trigger] out@[i]).0@, out@[i].1@)
                        == shared_images(self.plan.images@, index as int)[i],
            decreases self.plan.images@.len() - index,
        {
            let image: &PlannedImage = &self.plan.images[index];
            if let Some(key) = &image.system_key {
                out.push((image.identity.clone(), key.clone()));
            }
            index = index + 1;
        }
        out
    }
}

proof fn lemma_first_image(images: Seq<PlannedImage>, identity: ArtifactIdentityView, from: int)
    requires
        0 <= from <= images.len(),
    ensures
        match image_from(images, identity, from) {
            Some(i) => from <= i < images.len() && images[i].identity@ == identity && forall|j: int|
                from <= j < i ==> (#[trigger] images[j]).identity@ != identity,
            None => forall|j: int|
                from <= j < images.len() ==> (#[trigger] images[j]).identity@ != identity,
        },
    decreases images.len() - from,
{
    if from < images.len() {
        lemma_first_image(images, identity, from + 1);
    }
}

proof fn lemma_first_edge(edges: Seq<PlannedEdge>, requester: int, request: Seq<u8>, from: int)
    requires
        0 <= from <= edges.len(),
    ensures
        match edge_from(edges, requester, request, from) {
            Some(i) => from <= i < edges.len() && edges[i].requester == requester
                && edges[i].request@ == request && forall|j: int|
                from <= j < i ==> !((#[trigger] edges[j]).requester == requester
                    && edges[j].request@ == request),
            None => forall|j: int|
                from <= j < edges.len() ==> !((#[trigger] edges[j]).requester == requester
                    && edges[j].request@ == request),
        },
    decreases edges.len() - from,
{
    if from < edges.len() {
        lemma_first_edge(edges, requester, request, from + 1);
    }
}

pub(crate) proof fn lemma_first_load(
    loads: Seq<(DependencyName, LoadPermit)>,
    key: Seq<u8>,
    from: int,
)
    requires
        0 <= from <= loads.len(),
    ensures
        match load_from(loads, key, from) {
            Some(i) => from <= i < loads.len() && loads[i].0@ == key && forall|j: int|
                from <= j < i ==> (#[trigger] loads[j]).0@ != key,
            None => forall|j: int| from <= j < loads.len() ==> (#[trigger] loads[j]).0@ != key,
        },
    decreases loads.len() - from,
{
    if from < loads.len() {
        lemma_first_load(loads, key, from + 1);
    }
}

pub(crate) proof fn lemma_first_import<D>(
    imports: Seq<(DependencyName, SystemDsoLease, D)>,
    key: Seq<u8>,
    from: int,
)
    requires
        0 <= from <= imports.len(),
    ensures
        match import_from(imports, key, from) {
            Some(i) => from <= i < imports.len() && imports[i].0@ == key && forall|j: int|
                from <= j < i ==> (#[trigger] imports[j]).0@ != key,
            None => forall|j: int| from <= j < imports.len() ==> (#[trigger] imports[j]).0@ != key,
        },
    decreases imports.len() - from,
{
    if from < imports.len() {
        lemma_first_import(imports, key, from + 1);
    }
}

proof fn lemma_first_candidate(candidates: Seq<SystemCandidateClaim>, key: Seq<u8>, from: int)
    requires
        0 <= from <= candidates.len(),
    ensures
        match candidate_from(candidates, key, from) {
            Some(i) => from <= i < candidates.len() && candidates[i].key@ == key && forall|j: int|
                from <= j < i ==> (#[trigger] candidates[j]).key@ != key,
            None => forall|j: int|
                from <= j < candidates.len() ==> (#[trigger] candidates[j]).key@ != key,
        },
    decreases candidates.len() - from,
{
    if from < candidates.len() {
        lemma_first_candidate(candidates, key, from + 1);
    }
}

proof fn lemma_first_claimed<D>(imports: Seq<SystemImportClaim<D>>, key: Seq<u8>, from: int)
    requires
        0 <= from <= imports.len(),
    ensures
        match claimed_from(imports, key, from) {
            Some(i) => from <= i < imports.len() && imports[i].key@ == key && forall|j: int|
                from <= j < i ==> (#[trigger] imports[j]).key@ != key,
            None => forall|j: int|
                from <= j < imports.len() ==> (#[trigger] imports[j]).key@ != key,
        },
    decreases imports.len() - from,
{
    if from < imports.len() {
        lemma_first_claimed(imports, key, from + 1);
    }
}

/// A dependency comes from the provider of the first edge of the plan that leads from its
/// requester under its name. The requester is the first image of the plan with its
/// identity.
pub proof fn plans_tell_the_provider(
    plan: NamespaceLoadPlan,
    requester: ArtifactIdentityView,
    needed: Seq<u8>,
)
    ensures
        match planned(plan, requester, needed) {
            Planned::NoRequester => forall|i: int|
                0 <= i < plan.images@.len() ==> (#[trigger] plan.images@[i]).identity@ != requester,
            Planned::NoEdge => exists|i: int|
                0 <= i < plan.images@.len() && (#[trigger] plan.images@[i]).identity@ == requester
                    && forall|e: int|
                    0 <= e < plan.edges@.len() ==> (#[trigger] plan.edges@[e]).requester != i
                        || plan.edges@[e].request@ != needed,
            Planned::Provider(provider) => exists|i: int, e: int|
                0 <= i < plan.images@.len() && 0 <= e < plan.edges@.len() && (
                #[trigger] plan.images@[i]).identity@ == requester && (
                #[trigger] plan.edges@[e]).requester == i && plan.edges@[e].request@ == needed
                    && plan.edges@[e].provider == provider && (forall|j: int|
                    0 <= j < i ==> (#[trigger] plan.images@[j]).identity@ != requester) && forall|
                    d: int,
                |
                    0 <= d < e ==> (#[trigger] plan.edges@[d]).requester != i
                        || plan.edges@[d].request@ != needed,
        },
{
    let images = plan.images@;
    let edges = plan.edges@;
    lemma_first_image(images, requester, 0);
    match image_from(images, requester, 0) {
        None => {},
        Some(i) => {
            lemma_first_edge(edges, i, needed, 0);
            assert(images[i].identity@ == requester);
            match edge_from(edges, i, needed, 0) {
                None => {},
                Some(e) => {
                    assert(edges[e].requester == i);
                },
            }
        },
    }
}

/// Taking one item out leaves every other one, and no more than these.
pub proof fn taking_leaves_the_others<T>(items: Seq<T>, i: int)
    requires
        0 <= i < items.len(),
    ensures
        swap_removed(items, i).len() == items.len() - 1,
        forall|j: int|
            0 <= j < items.len() && j != i ==> swap_removed(items, i).contains(
                #[trigger] items[j],
            ),
        swap_removed(items, i).to_multiset() == items.to_multiset().remove(items[i]),
{
    let left = swap_removed(items, i);
    assert forall|j: int| 0 <= j < items.len() && j != i implies left.contains(
        #[trigger] items[j],
    ) by {
        if j == items.len() - 1 {
            assert(left[i] == items[j]);
        } else {
            assert(left[j] == items[j]);
        }
    }
    let last = items.last();
    items.to_multiset_ensures();
    left.to_multiset_ensures();
    assert(items =~= items.drop_last().push(last));
    items.drop_last().to_multiset_ensures();
    if i == items.len() - 1 {
        assert(left =~= items.drop_last());
    } else {
        assert(left =~= items.drop_last().update(i, last));
        vstd::seq_lib::to_multiset_update(items.drop_last(), i, last);
    }
    assert(left.to_multiset() =~= items.to_multiset().remove(items[i]));
}

/// A system library of the plan is resolved under its own name. Where the launch is to
/// open it, there is a permit for its name, which is taken, unless the launch has claimed
/// it before, as the same artifact and the same file. Where the launch is to import it, it
/// was acquired under its name, and its lease is kept, or it was imported before. Nothing
/// that has another name is taken.
pub proof fn system_libraries_are_resolved_by_name<D: DescribesArtifact + Clone>(
    before: NamespaceArtifactResolver<D>,
    after: NamespaceArtifactResolver<D>,
    registry: RegistryView<D>,
    registry_after: RegistryView<D>,
    provider: usize,
    r: LoadResult<Resolution<D>>,
    key: DependencyName,
)
    requires
        system_resolved(before, after, registry, registry_after, provider, r),
        provider < before.plan.images@.len(),
        before.plan.images@[provider as int].system_key == Some(key),
    ensures
        match r {
            Ok(Resolution::Open { provider: opened, ownership, permit }) => {
                &&& opened == provider
                &&& ownership is SystemCandidate
                &&& after.batch_imports == before.batch_imports
                &&& after.leases == before.leases
                &&& registry_after == registry
                &&& match permit {
                    Some(granted) => {
                        &&& after.batch_loads@.len() == before.batch_loads@.len() - 1
                        &&& exists|i: int|
                            0 <= i < before.batch_loads@.len() && (
                            #[trigger] before.batch_loads@[i]).0@ == key@
                                && before.batch_loads@[i].1 == granted && forall|j: int|
                                0 <= j < before.batch_loads@.len() && j != i
                                    ==> after.batch_loads@.contains(
                                    #[trigger] before.batch_loads@[j],
                                )
                        &&& forall|i: int|
                            0 <= i < before.candidates@.len() ==> (
                            #[trigger] before.candidates@[i]).key@ != key@
                    },
                    None => {
                        &&& after.batch_loads == before.batch_loads
                        &&& exists|i: int|
                            0 <= i < before.candidates@.len() && (
                            #[trigger] before.candidates@[i]).key@ == key@
                                && before.candidates@[i].identity@
                                == before.plan.images@[provider as int].identity@
                                && before.candidates@[i].snapshot
                                == before.plan.images@[provider as int].snapshot
                    },
                }
            },
            Ok(Resolution::Import(descriptor)) => {
                &&& after.batch_loads == before.batch_loads
                &&& registry_after == registry
                &&& forall|i: int|
                    0 <= i < before.batch_loads@.len() ==> (
                    #[trigger] before.batch_loads@[i]).0@ != key@
                &&& forall|i: int|
                    0 <= i < before.candidates@.len() ==> (#[trigger] before.candidates@[i]).key@
                        != key@
                &&& {
                    ||| exists|i: int|
                        0 <= i < before.batch_imports@.len() && (
                        #[trigger] before.batch_imports@[i]).0@ == key@
                            && before.batch_imports@[i].2 == descriptor && descriptor.artifact()
                            == before.plan.images@[provider as int].identity@ && after.leases@
                            == before.leases@.push(before.batch_imports@[i].1)
                    ||| exists|i: int|
                        0 <= i < before.imports@.len() && (#[trigger] before.imports@[i]).key@
                            == key@ && cloned::<D>(before.imports@[i].descriptor, descriptor)
                            && after == before
                }
            },
            Err(_) => after.leases == before.leases && after.batch_loads == before.batch_loads,
        },
{
    lemma_first_candidate(before.candidates@, key@, 0);
    lemma_first_load(before.batch_loads@, key@, 0);
    lemma_first_import(before.batch_imports@, key@, 0);
    lemma_first_claimed(before.imports@, key@, 0);
    if candidate_from(before.candidates@, key@, 0) is None {
        match load_from(before.batch_loads@, key@, 0) {
            Some(i) => {
                taking_leaves_the_others(before.batch_loads@, i);
                assert(before.batch_loads@[i].0@ == key@);
            },
            None => {},
        }
    }
}

/// The shared images of a plan are those that have a name in the system, in the order of
/// the plan, each with its name.
pub proof fn shared_images_are_those_with_a_name(images: Seq<PlannedImage>, k: int) -> (places: Seq<
    int,
>)
    requires
        0 <= k <= images.len(),
    ensures
        are_places(places, k, |i: int| images[i].system_key is Some),
        shared_images(images, k).len() == places.len(),
        forall|j: int|
            0 <= j < places.len() ==> (#[trigger] shared_images(images, k)[j]).0
                == images[places[j]].identity@ && shared_images(images, k)[j].1
                == images[places[j]].system_key->0@,
    decreases k,
{
    if k <= 0 {
        Seq::empty()
    } else {
        let before = shared_images_are_those_with_a_name(images, k - 1);
        lemma_next_place(before, k - 1, |i: int| images[i].system_key is Some);
        if images[k - 1].system_key is Some {
            before.push(k - 1)
        } else {
            before
        }
    }
}

/// Leases that a launch gives back are released, each once.
pub proof fn dropped_leases_are_released<D>(
    view: RegistryView<D>,
    leases: Seq<SystemDsoLease>,
    k: int,
    at: int,
)
    requires
        0 <= k <= leases.len(),
        0 <= at < view.slots.len(),
        view.slots[at].state is Ready,
    ensures
        ({
            let after = leases_dropped(view, leases, k);
            let used = uses_of(lease_views(leases), k, at, view.slots[at].generation);
            &&& after.slots[at].generation == view.slots[at].generation
            &&& view.slots[at].state matches StateView::Ready { leases: before, backing }
                && after.slots[at].state matches StateView::Ready { leases: left, backing: kept }
                && kept == backing && left == if used <= before {
                before - used
            } else {
                0
            }
        }),
{
    lemma_dropped_leases(view, leases, k);
    released_leases_are_counted(view, lease_views(leases), k, at);
}

proof fn lemma_dropped_leases<D>(view: RegistryView<D>, leases: Seq<SystemDsoLease>, k: int)
    requires
        0 <= k <= leases.len(),
    ensures
        leases_dropped(view, leases, k) == leases_released(view, lease_views(leases), k),
    decreases k,
{
    if k > 0 {
        lemma_dropped_leases(view, leases, k - 1);
    }
}

/// Permits that a launch gives back are cancelled: a library that was being loaded under one
/// of them is vacant, and every other one is in the state that it was in. No generation
/// changes.
pub proof fn dropped_permits_are_cancelled<D>(
    view: RegistryView<D>,
    permits: Seq<LoadPermit>,
    k: int,
    at: int,
)
    requires
        0 <= k <= permits.len(),
        0 <= at < view.slots.len(),
    ensures
        ({
            let after = permits_dropped(view, permits, k);
            &&& after.slots.len() == view.slots.len()
            &&& after.failed_backings == view.failed_backings
            &&& after.slots[at].generation == view.slots[at].generation
            &&& if view.slots[at].state is Loading && exists|i: int|
                0 <= i < k && (#[trigger] permits[i]).slot == at && permits[i].generation
                    == view.slots[at].generation {
                after.slots[at].state is Vacant
            } else {
                after.slots[at] == view.slots[at]
            }
        }),
    decreases k,
{
    if k > 0 {
        dropped_permits_are_cancelled(view, permits, k - 1, at);
        let last = permits[k - 1];
        let some = permits_dropped(view, permits, k - 1);
        if last.slot == at && last.generation == view.slots[at].generation {
            assert(permits[k - 1].slot == at);
        }
    }
}

} // verus!
