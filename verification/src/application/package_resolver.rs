//! Resolving the dependencies of an application package.
//!
//! The package says where each dependency of its images comes from: from the
//! package itself, or from the system. There is no search and no second try: a
//! dependency that the package does not declare fails the launch, and a system
//! library never sees an image of a package. The caller opens the file that a step
//! names and tells its snapshot.

use crate::application::package::{
    edge_from, find_edge, find_private_image, private_from, ApplicationPackageManifest,
    DependencySource, PackageImageEntry,
};
use crate::application::registry::{
    ensured, ensured_at, find_slot, handed_out, lease_for, lemma_find_from, lemma_find_same_keys,
    load_cancelled, name_views, AcquireOutcome, LoadPermit, PreparedSystemBatch, RegistryView,
    StateView, SystemDsoLease, SystemDsoRegistry, WaitHandle,
};
use crate::application::registry_batch::{lemma_find_pushed, lemma_handed_out_keys};
use crate::application::resolver::{
    append_leases, backend, backend_error, drop_loads, import_from, import_leases, is_unresolved,
    lemma_first_import, lemma_first_load, load_from, load_permits, permits_dropped, swap_removed,
    take_import, take_load, taking_leaves_the_others, unresolved, ResolverAuthorities,
    SystemCandidatePermit,
};
use crate::application::system_paths::{
    named_from, names_find_the_first_library, SystemLibraryEntry, SystemLibraryPaths,
};
use crate::application::vfs_reader::{
    changed, identity_from_snapshot, snapshot_identity, source_changed, FileSnapshotId,
};
use crate::dynamic_linker::artifact::{
    bad_name, is_name, ArtifactIdentity, ArtifactIdentityView, DependencyName, ImageOwnership,
    LinkDomainId,
};
use crate::error::{LoadError, LoadResult};
use vstd::prelude::*;

verus! {

/// A system library that this launch loads first.
pub struct PackageCandidate {
    pub soname: DependencyName,
    pub identity: ArtifactIdentity,
    pub snapshot: FileSnapshotId,
    pub permit: LoadPermit,
}

/// What to do for a dependency of a package.
pub enum PackageStep<D> {
    /// Open this image of the package, then tell its snapshot.
    OpenPrivate(usize),
    /// Open this system library, then tell its snapshot. A permit comes with one
    /// that is loaded for the first time.
    OpenSystem { entry: &'static SystemLibraryEntry, permit: Option<LoadPermit> },
    /// Import a ready library.
    Import(D),
    /// Another launch is constructing the library: wait, then ask again.
    Wait(WaitHandle),
}

/// Resolves the dependencies of one package.
pub struct PackageArtifactResolver<'a, D> {
    pub package: &'a ApplicationPackageManifest,
    pub catalog: &'a SystemLibraryPaths,
    pub domain: LinkDomainId,
    pub root_identity: ArtifactIdentity,
    /// The package's own images that were opened, each with its position.
    pub opened_private: Vec<(ArtifactIdentity, usize)>,
    pub batch_loads: Vec<(DependencyName, LoadPermit)>,
    pub batch_imports: Vec<(DependencyName, SystemDsoLease, D)>,
    pub candidates: Vec<PackageCandidate>,
    pub leases: Vec<SystemDsoLease>,
    /// The ready libraries that this launch has leased.
    pub imported_sonames: Vec<DependencyName>,
    /// The images that were answered with, each with its owner, in order.
    pub answers: Vec<(ArtifactIdentity, ImageOwnership)>,
}

/// The first answer from `from` on with this identity.
pub open spec fn answered_from(
    answers: Seq<(ArtifactIdentity, ImageOwnership)>,
    identity: ArtifactIdentityView,
    from: int,
) -> Option<int>
    decreases answers.len() - from,
{
    if from >= answers.len() {
        None
    } else if answers[from].0@ == identity {
        Some(from)
    } else {
        answered_from(answers, identity, from + 1)
    }
}

/// Whether one more image was answered with.
pub open spec fn answered(
    before: Seq<(ArtifactIdentity, ImageOwnership)>,
    after: Seq<(ArtifactIdentity, ImageOwnership)>,
    identity: ArtifactIdentityView,
    ownership: ImageOwnership,
) -> bool {
    &&& after.len() == before.len() + 1
    &&& after.drop_last() == before
    &&& after.last().0@ == identity
    &&& after.last().1 == ownership
}

/// The first opened image from `from` on with this identity.
pub open spec fn opened_from(
    opened: Seq<(ArtifactIdentity, usize)>,
    identity: ArtifactIdentityView,
    from: int,
) -> Option<int>
    decreases opened.len() - from,
{
    if from >= opened.len() {
        None
    } else if opened[from].0@ == identity {
        Some(from)
    } else {
        opened_from(opened, identity, from + 1)
    }
}

/// The first opening from `from` on of this image.
pub open spec fn opening_from(opened: Seq<(ArtifactIdentity, usize)>, image: usize, from: int) -> Option<
    int,
>
    decreases opened.len() - from,
{
    if from >= opened.len() {
        None
    } else if opened[from].1 == image {
        Some(from)
    } else {
        opening_from(opened, image, from + 1)
    }
}

/// The first candidate from `from` on with this name.
pub open spec fn candidate_from(candidates: Seq<PackageCandidate>, soname: Seq<u8>, from: int) -> Option<
    int,
>
    decreases candidates.len() - from,
{
    if from >= candidates.len() {
        None
    } else if candidates[from].soname@ == soname {
        Some(from)
    } else {
        candidate_from(candidates, soname, from + 1)
    }
}

/// How a system library was opened, with the launch before and after: one that came
/// with a permit is now this launch's to publish; one without is known already, and
/// must be the same file.
pub open spec fn system_opened_as<D>(
    before: PackageArtifactResolver<D>,
    after: PackageArtifactResolver<D>,
    needed: Seq<u8>,
    entry: SystemLibraryEntry,
    permit: Option<LoadPermit>,
    snapshot: FileSnapshotId,
    r: LoadResult<ArtifactIdentity>,
) -> bool {
    let identity = snapshot_identity(
        snapshot,
        match entry.build_id {
            Some(id) => Some(id@),
            None => None,
        },
    );
    match permit {
        Some(granted) => {
            &&& r matches Ok(known) && known@ == identity
            &&& after.candidates@.len() == before.candidates@.len() + 1
            &&& after.candidates@.drop_last() == before.candidates@
            &&& after.candidates@.last().soname@ == needed
            &&& after.candidates@.last().identity@ == identity
            &&& after.candidates@.last().snapshot == snapshot
            &&& after.candidates@.last().permit == granted
            &&& answered(
                before.answers@,
                after.answers@,
                identity,
                ImageOwnership::SystemCandidate,
            )
            &&& after == (PackageArtifactResolver {
                candidates: after.candidates,
                answers: after.answers,
                ..before
            })
        },
        None => {
            &&& after == before
            &&& match candidate_from(before.candidates@, needed, 0) {
                Some(i) => if before.candidates@[i].snapshot == snapshot {
                    r matches Ok(known) && known@ == identity
                } else {
                    r == Err::<ArtifactIdentity, LoadError>(changed())
                },
                None => r == Err::<ArtifactIdentity, LoadError>(backend()),
            }
        },
    }
}

/// The system libraries that a package declares, as names.
pub fn system_names(package: &ApplicationPackageManifest) -> (r: LoadResult<Vec<DependencyName>>)
    ensures
        if forall|i: int|
            0 <= i < package.system_sonames@.len() ==> is_name(
                (#[trigger] package.system_sonames@[i])@,
            ) {
            r matches Ok(names) && names@.len() == package.system_sonames@.len() && forall|i: int|
                0 <= i < names@.len() ==> (#[trigger] names@[i])@ == package.system_sonames@[i]@
        } else {
            r == Err::<Vec<DependencyName>, LoadError>(bad_name())
        },
{
    let mut names: Vec<DependencyName> = Vec::new();
    let mut index: usize = 0;
    while index < package.system_sonames.len()
        invariant
            index <= package.system_sonames@.len(),
            names@.len() == index,
            forall|i: int|
                0 <= i < index ==> is_name((#[trigger] package.system_sonames@[i])@)
                    && names@[i]@ == package.system_sonames@[i]@,
        decreases package.system_sonames@.len() - index,
    {
        let ghost text = package.system_sonames@[index as int]@;
        match DependencyName::from_bytes(package.system_sonames[index].as_slice()) {
            Ok(name) => {
                assert(is_name(text));
                names.push(name);
            },
            Err(error) => {
                assert(!is_name(text));
                return Err(error);
            },
        }
        index = index + 1;
    }
    Ok(names)
}

impl<'a, D> PackageArtifactResolver<'a, D> {
    /// Starts with the system libraries that were acquired for the package.
    pub fn new(
        package: &'a ApplicationPackageManifest,
        catalog: &'a SystemLibraryPaths,
        root_identity: &ArtifactIdentity,
        domain: LinkDomainId,
        batch: PreparedSystemBatch<D>,
    ) -> (r: Self)
        ensures
            r.package == package,
            r.catalog == catalog,
            r.root_identity@ == root_identity@,
            r.domain == domain,
            r.batch_loads == batch.loads,
            r.batch_imports == batch.imports,
            r.opened_private@.len() == 0,
            r.candidates@.len() == 0,
            r.leases@.len() == 0,
            r.imported_sonames@.len() == 0,
            r.answers@.len() == 0,
    {
        PackageArtifactResolver {
            package,
            catalog,
            domain,
            root_identity: root_identity.clone(),
            opened_private: Vec::new(),
            batch_loads: batch.loads,
            batch_imports: batch.imports,
            candidates: Vec::new(),
            leases: Vec::new(),
            imported_sonames: Vec::new(),
            answers: Vec::new(),
        }
    }

    /// Whether every image that was opened is one of the package.
    pub open spec fn wf(self) -> bool {
        forall|i: int|
            0 <= i < self.opened_private@.len() ==> (#[trigger] self.opened_private@[i]).1
                < self.package.private_images@.len()
    }

    /// What the package says of the image with this identity: of the root, or of an
    /// image that was opened.
    pub open spec fn entry_of(self, requester: ArtifactIdentityView) -> Option<PackageImageEntry> {
        if requester == self.root_identity@ {
            Some(self.package.root)
        } else {
            match opened_from(self.opened_private@, requester, 0) {
                Some(i) => Some(
                    self.package.private_images@[self.opened_private@[i].1 as int],
                ),
                None => None,
            }
        }
    }

    /// What the package says of the image with this identity.
    pub fn requester_entry(&self, requester: &ArtifactIdentity) -> (r: Option<
        &'a PackageImageEntry,
    >)
        requires
            self.wf(),
        ensures
            match self.entry_of(requester@) {
                Some(entry) => r matches Some(found) && *found == entry,
                None => r is None,
            },
    {
        if requester.same(&self.root_identity) {
            return Some(&self.package.root);
        }
        let mut index: usize = 0;
        while index < self.opened_private.len()
            invariant
                self.wf(),
                requester@ != self.root_identity@,
                index <= self.opened_private@.len(),
                opened_from(self.opened_private@, requester@, 0) == opened_from(
                    self.opened_private@,
                    requester@,
                    index as int,
                ),
            decreases self.opened_private@.len() - index,
        {
            if self.opened_private[index].0.same(requester) {
                assert(self.opened_private@[index as int].1 < self.package.private_images@.len());
                return Some(&self.package.private_images[self.opened_private[index].1]);
            }
            index = index + 1;
        }
        None
    }

    fn find_candidate(&self, soname: &DependencyName) -> (r: Option<usize>)
        ensures
            match candidate_from(self.candidates@, soname@, 0) {
                Some(i) => r matches Some(found) && found == i && i < self.candidates@.len(),
                None => r is None,
            },
    {
        let mut index: usize = 0;
        while index < self.candidates.len()
            invariant
                index <= self.candidates@.len(),
                candidate_from(self.candidates@, soname@, 0) == candidate_from(
                    self.candidates@,
                    soname@,
                    index as int,
                ),
            decreases self.candidates@.len() - index,
        {
            if self.candidates[index].soname.same(soname) {
                return Some(index);
            }
            index = index + 1;
        }
        None
    }

    fn was_imported(&self, soname: &DependencyName) -> (r: bool)
        ensures
            r == name_views(self.imported_sonames@).contains(soname@),
    {
        let ghost names = name_views(self.imported_sonames@);
        let mut index: usize = 0;
        while index < self.imported_sonames.len()
            invariant
                names == name_views(self.imported_sonames@),
                index <= self.imported_sonames@.len(),
                forall|i: int| 0 <= i < index ==> #[trigger] names[i] != soname@,
            decreases self.imported_sonames@.len() - index,
        {
            assert(names[index as int] == self.imported_sonames@[index as int]@);
            if self.imported_sonames[index].same(soname) {
                return true;
            }
            index = index + 1;
        }
        false
    }

    /// Checks an image of the package that was opened, and gives its identity. An
    /// image that is opened again must be the same file.
    pub fn private_opened(&mut self, image: usize, snapshot: &FileSnapshotId) -> (r: LoadResult<
        ArtifactIdentity,
    >)
        requires
            old(self).wf(),
            image < old(self).package.private_images@.len(),
        ensures
            final(self).wf(),
            ({
                let identity = snapshot_identity(
                    *snapshot,
                    Some(old(self).package.private_images@[image as int].build_id@),
                );
                match opening_from(old(self).opened_private@, image, 0) {
                    Some(i) => *final(self) == *old(self) && if old(self).opened_private@[i].0@
                        == identity {
                        r matches Ok(known) && known@ == identity
                    } else {
                        r == Err::<ArtifactIdentity, LoadError>(changed())
                    },
                    None => {
                        &&& r matches Ok(known) && known@ == identity
                        &&& final(self).opened_private@.len() == old(self).opened_private@.len()
                            + 1
                        &&& final(self).opened_private@.drop_last() == old(self).opened_private@
                        &&& final(self).opened_private@.last().0@ == identity
                        &&& final(self).opened_private@.last().1 == image
                        &&& answered(
                            old(self).answers@,
                            final(self).answers@,
                            identity,
                            ImageOwnership::SessionPrivate,
                        )
                        &&& *final(self) == (PackageArtifactResolver {
                            opened_private: final(self).opened_private,
                            answers: final(self).answers,
                            ..*old(self)
                        })
                    },
                }
            }),
    {
        let fresh: ArtifactIdentity = identity_from_snapshot(
            snapshot,
            Some(self.package.private_images[image].build_id.as_slice()),
        );
        let mut index: usize = 0;
        while index < self.opened_private.len()
            invariant
                *self == *old(self),
                fresh@ == snapshot_identity(
                    *snapshot,
                    Some(old(self).package.private_images@[image as int].build_id@),
                ),
                old(self).wf(),
                index <= self.opened_private@.len(),
                opening_from(self.opened_private@, image, 0) == opening_from(
                    self.opened_private@,
                    image,
                    index as int,
                ),
            decreases self.opened_private@.len() - index,
        {
            if self.opened_private[index].1 == image {
                if !self.opened_private[index].0.same(&fresh) {
                    return Err(source_changed());
                }
                return Ok(fresh);
            }
            index = index + 1;
        }
        self.opened_private.push((fresh.clone(), image));
        self.answers.push((fresh.clone(), ImageOwnership::SessionPrivate));
        assert(self.answers@.drop_last() =~= old(self).answers@);
        assert(self.opened_private@.drop_last() =~= old(self).opened_private@);
        assert forall|i: int| 0 <= i < self.opened_private@.len() implies (
        #[trigger] self.opened_private@[i]).1 < self.package.private_images@.len() by {
            if i < old(self).opened_private@.len() {
                assert(self.opened_private@[i] == old(self).opened_private@[i]);
            }
        }
        Ok(fresh)
    }

    /// Checks a system library that was opened, and gives its identity. One that is
    /// opened again must be the same file; one that came with a permit is now this
    /// launch's to publish.
    pub fn system_opened(
        &mut self,
        needed: &DependencyName,
        entry: &'static SystemLibraryEntry,
        permit: Option<LoadPermit>,
        snapshot: &FileSnapshotId,
    ) -> (r: LoadResult<ArtifactIdentity>)
        ensures
            system_opened_as(*old(self), *final(self), needed@, *entry, permit, *snapshot, r),
    {
        let identity: ArtifactIdentity = identity_from_snapshot(snapshot, entry.build_id);
        match permit {
            Some(permit) => {
                let claim = PackageCandidate {
                    soname: needed.clone(),
                    identity: identity.clone(),
                    snapshot: *snapshot,
                    permit,
                };
                self.candidates.push(claim);
                self.answers.push((identity.clone(), ImageOwnership::SystemCandidate));
                assert(self.answers@.drop_last() =~= old(self).answers@);
                assert(self.candidates@.drop_last() =~= old(self).candidates@);
                Ok(identity)
            },
            None => match self.find_candidate(needed) {
                Some(index) => {
                    if self.candidates[index].snapshot != *snapshot {
                        Err(source_changed())
                    } else {
                        Ok(identity)
                    }
                },
                None => Err(backend_error()),
            },
        }
    }
}

impl<'a, D> PackageArtifactResolver<'a, D> {
    /// Notes the identity of a ready library that was imported.
    pub fn library_imported(&mut self, identity: &ArtifactIdentity)
        ensures
            answered(
                old(self).answers@,
                final(self).answers@,
                identity@,
                ImageOwnership::ExternalReady,
            ),
            *final(self) == (PackageArtifactResolver { answers: final(self).answers, ..*old(self) }),
    {
        self.answers.push((identity.clone(), ImageOwnership::ExternalReady));
        assert(self.answers@.drop_last() =~= old(self).answers@);
    }

    /// Who owns the image with this identity: the launch the root, and every other
    /// image whoever its first answer said. An image that no answer named is one of
    /// the launch, of which the package then says nothing.
    pub open spec fn owner_of(self, requester: ArtifactIdentityView) -> ImageOwnership {
        if requester == self.root_identity@ {
            ImageOwnership::SessionPrivate
        } else {
            match answered_from(self.answers@, requester, 0) {
                Some(i) => self.answers@[i].1,
                None => ImageOwnership::SessionPrivate,
            }
        }
    }

    /// Who owns the image with this identity.
    pub fn ownership_of(&self, requester: &ArtifactIdentity) -> (r: ImageOwnership)
        ensures
            r == self.owner_of(requester@),
    {
        if requester.same(&self.root_identity) {
            return ImageOwnership::SessionPrivate;
        }
        let mut index: usize = 0;
        while index < self.answers.len()
            invariant
                requester@ != self.root_identity@,
                index <= self.answers@.len(),
                answered_from(self.answers@, requester@, 0) == answered_from(
                    self.answers@,
                    requester@,
                    index as int,
                ),
            decreases self.answers@.len() - index,
        {
            if self.answers[index].0.same(requester) {
                return self.answers[index].1;
            }
            index = index + 1;
        }
        ImageOwnership::SessionPrivate
    }
}

proof fn lemma_answered_from(
    before: Seq<(ArtifactIdentity, ImageOwnership)>,
    after: Seq<(ArtifactIdentity, ImageOwnership)>,
    identity: ArtifactIdentityView,
    from: int,
)
    requires
        after.len() == before.len() + 1,
        after.drop_last() == before,
        0 <= from <= before.len(),
    ensures
        answered_from(after, identity, from) == (match answered_from(before, identity, from) {
            Some(i) => Some(i),
            None => if after.last().0@ == identity {
                Some(before.len() as int)
            } else {
                None
            },
        }),
        answered_from(before, identity, from) matches Some(i) ==> from <= i < before.len()
            && after[i] == before[i],
    decreases before.len() - from,
{
    if from < before.len() {
        assert(after.drop_last()[from] == after[from]);
        lemma_answered_from(before, after, identity, from + 1);
    } else {
        assert(answered_from(after, identity, from + 1) is None);
    }
}

/// The first answer decides who owns an image: no later answer changes the owner of
/// an image that is known, and one that is not known gets the owner of its answer.
pub proof fn first_answers_decide_the_owner<D>(
    before: PackageArtifactResolver<D>,
    after: PackageArtifactResolver<D>,
    identity: ArtifactIdentityView,
    ownership: ImageOwnership,
    requester: ArtifactIdentityView,
)
    requires
        after.root_identity@ == before.root_identity@,
        answered(before.answers@, after.answers@, identity, ownership),
    ensures
        requester == before.root_identity@ || requester != identity || answered_from(
            before.answers@,
            requester,
            0,
        ) is Some ==> after.owner_of(requester) == before.owner_of(requester),
        identity != before.root_identity@ && answered_from(before.answers@, identity, 0) is None
            ==> after.owner_of(identity) == ownership,
{
    lemma_answered_from(before.answers@, after.answers@, requester, 0);
    lemma_answered_from(before.answers@, after.answers@, identity, 0);
}

/// How a system library is resolved for a package.
pub enum PackageCase {
    /// It is no system library.
    Unknown,
    /// This launch has it open.
    Again,
    FirstLoad(int),
    FirstImport(int),
    /// This launch has leased it.
    Imported,
    /// The registry is asked.
    Ask,
}

/// How the system library `needed` is resolved.
pub open spec fn package_case<D>(resolver: PackageArtifactResolver<D>, needed: Seq<u8>) -> PackageCase {
    if named_from(resolver.catalog.entries@, needed, 0) is None {
        PackageCase::Unknown
    } else if candidate_from(resolver.candidates@, needed, 0) is Some {
        PackageCase::Again
    } else {
        match load_from(resolver.batch_loads@, needed, 0) {
            Some(i) => PackageCase::FirstLoad(i),
            None => match import_from(resolver.batch_imports@, needed, 0) {
                Some(i) => PackageCase::FirstImport(i),
                None => if name_views(resolver.imported_sonames@).contains(needed) {
                    PackageCase::Imported
                } else {
                    PackageCase::Ask
                },
            },
        }
    }
}

/// Whether a step resolves the system library `needed`, with the launch and the
/// registry before and after.
pub open spec fn system_resolved<D: Clone>(
    before: PackageArtifactResolver<D>,
    after: PackageArtifactResolver<D>,
    registry: RegistryView<D>,
    registry_after: RegistryView<D>,
    needed: Seq<u8>,
    r: LoadResult<PackageStep<D>>,
) -> bool {
    let entry = before.catalog.entries@[named_from(before.catalog.entries@, needed, 0)->0];
    match package_case(before, needed) {
        PackageCase::Unknown => {
            &&& r == Err::<PackageStep<D>, LoadError>(backend())
            &&& after == before
            &&& registry_after == registry
        },
        PackageCase::Again => {
            &&& r matches Ok(PackageStep::OpenSystem { entry: found, permit }) && *found == entry
                && permit is None
            &&& after == before
            &&& registry_after == registry
        },
        PackageCase::FirstLoad(i) => {
            &&& r matches Ok(PackageStep::OpenSystem { entry: found, permit }) && *found == entry
                && permit == Some(before.batch_loads@[i].1)
            &&& after.batch_loads@ == swap_removed(before.batch_loads@, i)
            &&& after == (PackageArtifactResolver { batch_loads: after.batch_loads, ..before })
            &&& registry_after == registry
        },
        PackageCase::FirstImport(i) => {
            &&& r == Ok::<PackageStep<D>, LoadError>(
                PackageStep::Import(before.batch_imports@[i].2),
            )
            &&& after.batch_imports@ == swap_removed(before.batch_imports@, i)
            &&& after.leases@ == before.leases@.push(before.batch_imports@[i].1)
            &&& name_views(after.imported_sonames@) == name_views(before.imported_sonames@).push(
                needed,
            )
            &&& after == (PackageArtifactResolver {
                batch_imports: after.batch_imports,
                leases: after.leases,
                imported_sonames: after.imported_sonames,
                ..before
            })
            &&& registry_after == registry
        },
        PackageCase::Imported => {
            &&& after == before
            &&& registry_after == registry
            &&& match find_slot(registry.slots, before.domain, needed) {
                Some(i) => match registry.slots[i].state {
                    StateView::Ready { leases, backing } => r matches Ok(
                        PackageStep::Import(descriptor),
                    ) && cloned::<D>(backing.descriptor, descriptor),
                    _ => r == Err::<PackageStep<D>, LoadError>(backend()),
                },
                None => r == Err::<PackageStep<D>, LoadError>(backend()),
            }
        },
        PackageCase::Ask => {
            let known = RegistryView {
                slots: ensured(registry.slots, before.domain, needed),
                ..registry
            };
            let i = ensured_at(registry.slots, before.domain, needed);
            match known.slots[i].state {
                StateView::Ready { leases, backing } => {
                    &&& r matches Ok(PackageStep::Import(descriptor)) && cloned::<D>(
                        backing.descriptor,
                        descriptor,
                    )
                    &&& after.leases@.len() == before.leases@.len() + 1
                    &&& after.leases@.drop_last() == before.leases@
                    &&& after.leases@.last()@ == lease_for(known, i)
                    &&& name_views(after.imported_sonames@) == name_views(
                        before.imported_sonames@,
                    ).push(needed)
                    &&& after == (PackageArtifactResolver {
                        leases: after.leases,
                        imported_sonames: after.imported_sonames,
                        ..before
                    })
                    &&& registry_after == handed_out(known, i)
                },
                StateView::Vacant | StateView::Failed => {
                    &&& r == Err::<PackageStep<D>, LoadError>(backend())
                    &&& after == before
                    &&& registry_after == load_cancelled(
                        handed_out(known, i),
                        crate::application::registry::permit_for(known, i),
                    )
                },
                _ => {
                    &&& r == Ok::<PackageStep<D>, LoadError>(
                        PackageStep::Wait(
                            WaitHandle {
                                slot: i as usize,
                                generation: known.slots[i].generation,
                                observed: known.slots[i].signal,
                            },
                        ),
                    )
                    &&& after == before
                    &&& registry_after == known
                },
            }
        },
    }
}

impl<'a, D: Clone> PackageArtifactResolver<'a, D> {
    /// Resolves a declared system library: by opening again what this launch loads,
    /// by opening what it is to load, by importing what was acquired for it, or, for
    /// one that was not acquired, by asking the registry. A library that nothing
    /// provides is not loaded on the way: its permit goes back.
    pub fn resolve_system(&mut self, registry: &mut SystemDsoRegistry<D>, needed: &DependencyName) -> (r:
        LoadResult<PackageStep<D>>)
        ensures
            system_resolved(*old(self), *final(self), old(registry)@, final(registry)@, needed@, r),
    {
        let entry: &'static SystemLibraryEntry = match self.catalog.resolve(needed.as_bytes()) {
            Some(entry) => entry,
            None => return Err(backend_error()),
        };
        if self.find_candidate(needed).is_some() {
            return Ok(PackageStep::OpenSystem { entry, permit: None });
        }
        if let Some(permit) = take_load(&mut self.batch_loads, needed) {
            return Ok(PackageStep::OpenSystem { entry, permit: Some(permit) });
        }
        if let Some((lease, descriptor)) = take_import(&mut self.batch_imports, needed) {
            self.leases.push(lease);
            self.imported_sonames.push(needed.clone());
            assert(name_views(self.imported_sonames@) =~= name_views(
                old(self).imported_sonames@,
            ).push(needed@));
            return Ok(PackageStep::Import(descriptor));
        }
        if self.was_imported(needed) {
            return match registry.descriptor(self.domain, needed) {
                Some(descriptor) => Ok(PackageStep::Import(descriptor)),
                None => Err(backend_error()),
            };
        }
        let ghost before = registry@;
        let outcome = registry.acquire_or_begin_load(self.domain, needed.clone());
        proof {
            lemma_asked_slot(before, self.domain, needed@);
        }
        match outcome {
            AcquireOutcome::Lease(lease) => match registry.descriptor(self.domain, needed) {
                Some(descriptor) => {
                    self.leases.push(lease);
                    self.imported_sonames.push(needed.clone());
                    assert(name_views(self.imported_sonames@) =~= name_views(
                        old(self).imported_sonames@,
                    ).push(needed@));
                    assert(self.leases@.drop_last() =~= old(self).leases@);
                    Ok(PackageStep::Import(descriptor))
                },
                None => Err(backend_error()),
            },
            AcquireOutcome::Pending(handle) => Ok(PackageStep::Wait(handle)),
            AcquireOutcome::Permit(permit) => {
                registry.cancel_load(permit);
                Err(backend_error())
            },
        }
    }

    /// Resolves a dependency. A system library resolves within the system alone. An
    /// image of the package needs what the package declares for it.
    pub fn resolve(
        &mut self,
        registry: &mut SystemDsoRegistry<D>,
        requester: &ArtifactIdentity,
        ownership: ImageOwnership,
        needed: &DependencyName,
    ) -> (r: LoadResult<PackageStep<D>>)
        requires
            old(self).wf(),
        ensures
            final(self).wf(),
            if ownership != ImageOwnership::SessionPrivate {
                system_resolved(
                    *old(self),
                    *final(self),
                    old(registry)@,
                    final(registry)@,
                    needed@,
                    r,
                ) && !(r matches Ok(PackageStep::OpenPrivate(_)))
            } else {
                match old(self).entry_of(requester@) {
                    None => r == Err::<PackageStep<D>, LoadError>(backend()) && *final(self)
                        == *old(self) && final(registry)@ == old(registry)@,
                    Some(entry) => match edge_from(entry.needed@, needed@, 0) {
                        None => (r matches Err(error) && is_unresolved(error, needed@))
                            && *final(self) == *old(self) && final(registry)@ == old(registry)@,
                        Some(e) => match entry.needed@[e].source {
                            DependencySource::PackagePrivate => {
                                &&& *final(self) == *old(self)
                                &&& final(registry)@ == old(registry)@
                                &&& match private_from(
                                    old(self).package.private_images@,
                                    needed@,
                                    0,
                                ) {
                                    Some(i) => r matches Ok(PackageStep::OpenPrivate(image))
                                        && image == i && i < old(self).package.private_images@.len(),
                                    None => r == Err::<PackageStep<D>, LoadError>(backend()),
                                }
                            },
                            DependencySource::System => system_resolved(
                                *old(self),
                                *final(self),
                                old(registry)@,
                                final(registry)@,
                                needed@,
                                r,
                            ),
                        },
                    },
                }
            },
    {
        if ownership != ImageOwnership::SessionPrivate {
            return self.resolve_system(registry, needed);
        }
        let entry: &PackageImageEntry = match self.requester_entry(requester) {
            Some(entry) => entry,
            None => return Err(backend_error()),
        };
        let source: DependencySource = match find_edge(entry, needed.as_bytes()) {
            Some(edge) => edge.source,
            None => return Err(unresolved(needed)),
        };
        match source {
            DependencySource::PackagePrivate => match find_private_image(
                self.package,
                needed.as_bytes(),
            ) {
                Some(image) => Ok(PackageStep::OpenPrivate(image)),
                None => Err(backend_error()),
            },
            DependencySource::System => self.resolve_system(registry, needed),
        }
    }
}

proof fn lemma_asked_slot<D>(view: RegistryView<D>, domain: LinkDomainId, needed: Seq<u8>)
    ensures
        ({
            let known = RegistryView { slots: ensured(view.slots, domain, needed), ..view };
            let i = ensured_at(view.slots, domain, needed);
            &&& 0 <= i < known.slots.len()
            &&& find_slot(handed_out(known, i).slots, domain, needed) == Some(i)
        }),
{
    let known = RegistryView { slots: ensured(view.slots, domain, needed), ..view };
    let i = ensured_at(view.slots, domain, needed);
    lemma_find_from(view.slots, domain, needed, 0);
    lemma_find_pushed(
        view.slots,
        crate::application::registry::fresh_slot(domain, needed),
        domain,
        needed,
        0,
    );
    lemma_handed_out_keys(known, i);
    lemma_find_same_keys(known.slots, handed_out(known, i).slots, domain, needed, 0);
}

impl<'a, D> PackageArtifactResolver<'a, D> {
    /// Cancels the loads that were acquired for the launch and that nothing asked
    /// for. What was claimed goes with [`Self::finish_resolution`].
    pub fn close(self, registry: &mut SystemDsoRegistry<D>)
        ensures
            final(registry)@ == permits_dropped(
                old(registry)@,
                load_permits(self.batch_loads@),
                self.batch_loads@.len() as int,
            ),
    {
        drop_loads(registry, self.batch_loads);
    }

    /// Hands over what the launch has of the registry. The leases of libraries that
    /// nothing asked for are among it.
    pub fn finish_resolution(&mut self) -> (r: ResolverAuthorities)
        ensures
            final(self).candidates@.len() == 0,
            final(self).leases@.len() == 0,
            final(self).batch_imports@.len() == 0,
            *final(self) == (PackageArtifactResolver {
                candidates: final(self).candidates,
                leases: final(self).leases,
                batch_imports: final(self).batch_imports,
                ..*old(self)
            }),
            r.system_images@.len() == 0,
            r.leases@ == old(self).leases@ + import_leases(old(self).batch_imports@),
            r.permits@.len() == old(self).candidates@.len(),
            forall|i: int|
                0 <= i < r.permits@.len() ==> {
                    &&& (#[trigger] r.permits@[i]).key == old(self).candidates@[i].soname
                    &&& r.permits@[i].identity == old(self).candidates@[i].identity
                    &&& r.permits@[i].permit == old(self).candidates@[i].permit
                },
    {
        let mut candidates: Vec<PackageCandidate> = Vec::new();
        core::mem::swap(&mut self.candidates, &mut candidates);
        let ghost claims = candidates@;
        let mut permits: Vec<SystemCandidatePermit> = Vec::new();
        assert(candidates@ =~= claims.subrange(0, claims.len() as int));
        while candidates.len() > 0
            invariant
                permits@.len() <= claims.len(),
                candidates@ == claims.subrange(permits@.len() as int, claims.len() as int),
                forall|i: int|
                    0 <= i < permits@.len() ==> {
                        &&& (#[trigger] permits@[i]).key == claims[i].soname
                        &&& permits@[i].identity == claims[i].identity
                        &&& permits@[i].permit == claims[i].permit
                    },
            decreases candidates@.len(),
        {
            let ghost done = permits@.len() as int;
            let claim: PackageCandidate = candidates.remove(0);
            assert(claim == claims[done]);
            permits.push(
                SystemCandidatePermit {
                    key: claim.soname,
                    identity: claim.identity,
                    permit: claim.permit,
                },
            );
            assert(candidates@ =~= claims.subrange(done + 1, claims.len() as int));
        }
        let mut leases: Vec<SystemDsoLease> = Vec::new();
        core::mem::swap(&mut self.leases, &mut leases);
        let mut imports: Vec<(DependencyName, SystemDsoLease, D)> = Vec::new();
        core::mem::swap(&mut self.batch_imports, &mut imports);
        append_leases(&mut leases, imports);
        ResolverAuthorities { permits, leases, system_images: Vec::new() }
    }
}

proof fn lemma_first_answer(
    answers: Seq<(ArtifactIdentity, ImageOwnership)>,
    identity: ArtifactIdentityView,
    from: int,
)
    requires
        0 <= from <= answers.len(),
    ensures
        match answered_from(answers, identity, from) {
            Some(i) => from <= i < answers.len() && answers[i].0@ == identity && forall|j: int|
                from <= j < i ==> (#[trigger] answers[j]).0@ != identity,
            None => forall|j: int|
                from <= j < answers.len() ==> (#[trigger] answers[j]).0@ != identity,
        },
    decreases answers.len() - from,
{
    if from < answers.len() {
        lemma_first_answer(answers, identity, from + 1);
    }
}

proof fn lemma_first_opened(
    opened: Seq<(ArtifactIdentity, usize)>,
    identity: ArtifactIdentityView,
    from: int,
)
    requires
        0 <= from <= opened.len(),
    ensures
        match opened_from(opened, identity, from) {
            Some(i) => from <= i < opened.len() && opened[i].0@ == identity && forall|j: int|
                from <= j < i ==> (#[trigger] opened[j]).0@ != identity,
            None => forall|j: int|
                from <= j < opened.len() ==> (#[trigger] opened[j]).0@ != identity,
        },
    decreases opened.len() - from,
{
    if from < opened.len() {
        lemma_first_opened(opened, identity, from + 1);
    }
}

/// An image that was opened is found at its first opening.
pub proof fn images_are_found_where_they_were_opened(
    opened: Seq<(ArtifactIdentity, usize)>,
    image: usize,
    from: int,
)
    requires
        0 <= from <= opened.len(),
    ensures
        match opening_from(opened, image, from) {
            Some(i) => from <= i < opened.len() && opened[i].1 == image && forall|j: int|
                from <= j < i ==> (#[trigger] opened[j]).1 != image,
            None => forall|j: int| from <= j < opened.len() ==> (#[trigger] opened[j]).1 != image,
        },
    decreases opened.len() - from,
{
    if from < opened.len() {
        images_are_found_where_they_were_opened(opened, image, from + 1);
    }
}

/// A name finds the first library that the launch has open under it.
pub proof fn names_find_the_first_candidate(
    candidates: Seq<PackageCandidate>,
    soname: Seq<u8>,
    from: int,
)
    requires
        0 <= from <= candidates.len(),
    ensures
        match candidate_from(candidates, soname, from) {
            Some(i) => from <= i < candidates.len() && candidates[i].soname@ == soname
                && forall|j: int|
                from <= j < i ==> (#[trigger] candidates[j]).soname@ != soname,
            None => forall|j: int|
                from <= j < candidates.len() ==> (#[trigger] candidates[j]).soname@ != soname,
        },
    decreases candidates.len() - from,
{
    if from < candidates.len() {
        names_find_the_first_candidate(candidates, soname, from + 1);
    }
}

/// The image with the identity of the root is the root of the package. Any other one is
/// the image of the package that was opened first under that identity, and nothing is
/// known of one that was not opened.
pub proof fn requesters_are_found_by_their_identity<D>(
    resolver: PackageArtifactResolver<D>,
    requester: ArtifactIdentityView,
)
    ensures
        match resolver.entry_of(requester) {
            Some(entry) => {
                ||| requester == resolver.root_identity@ && entry == resolver.package.root
                ||| requester != resolver.root_identity@ && exists|i: int|
                    0 <= i < resolver.opened_private@.len() && (
                    #[trigger] resolver.opened_private@[i]).0@ == requester && entry
                        == resolver.package.private_images@[resolver.opened_private@[i].1 as int]
                        && forall|j: int|
                        0 <= j < i ==> (#[trigger] resolver.opened_private@[j]).0@ != requester
            },
            None => requester != resolver.root_identity@ && forall|i: int|
                0 <= i < resolver.opened_private@.len() ==> (
                #[trigger] resolver.opened_private@[i]).0@ != requester,
        },
{
    lemma_first_opened(resolver.opened_private@, requester, 0);
    if let Some(i) = opened_from(resolver.opened_private@, requester, 0) {
        assert(resolver.opened_private@[i].0@ == requester);
    }
}

/// The root is an image of the launch. So is every image that no answer has named, and
/// every other one is whose its first answer says.
pub proof fn owners_are_those_of_the_first_answer<D>(
    resolver: PackageArtifactResolver<D>,
    requester: ArtifactIdentityView,
)
    ensures
        requester == resolver.root_identity@ ==> resolver.owner_of(requester) is SessionPrivate,
        (forall|i: int|
            0 <= i < resolver.answers@.len() ==> (#[trigger] resolver.answers@[i]).0@ != requester)
            ==> resolver.owner_of(requester) is SessionPrivate,
        forall|i: int|
            0 <= i < resolver.answers@.len() && (#[trigger] resolver.answers@[i]).0@ == requester
                && requester != resolver.root_identity@ && (forall|j: int|
                0 <= j < i ==> (#[trigger] resolver.answers@[j]).0@ != requester)
                ==> resolver.owner_of(requester) == resolver.answers@[i].1,
{
    lemma_first_answer(resolver.answers@, requester, 0);
}

/// A system library is resolved for a package under its own name. One that is to be opened is
/// the first of the catalog with that name, with the permit that was acquired for it, or
/// without one where the launch has it open. One that is imported was acquired under its
/// name, and its lease is kept, or is ready in its slot of the registry. One that is waited
/// for is in flight. A failure takes nothing from the launch.
#[verifier::spinoff_prover]
#[verifier::rlimit(40)]
pub proof fn package_libraries_are_resolved_by_name<D: Clone>(
    before: PackageArtifactResolver<D>,
    after: PackageArtifactResolver<D>,
    registry: RegistryView<D>,
    registry_after: RegistryView<D>,
    needed: Seq<u8>,
    r: LoadResult<PackageStep<D>>,
)
    requires
        system_resolved(before, after, registry, registry_after, needed, r),
    ensures
        match r {
            Ok(PackageStep::OpenSystem { entry, permit }) => {
                &&& exists|c: int|
                    0 <= c < before.catalog.entries@.len() && *entry
                        == #[trigger] before.catalog.entries@[c] && entry.soname@ == needed
                        && forall|j: int|
                        0 <= j < c ==> (#[trigger] before.catalog.entries@[j]).soname@ != needed
                &&& registry_after == registry
                &&& after.leases == before.leases
                &&& match permit {
                    Some(granted) => {
                        &&& after.batch_loads@.len() == before.batch_loads@.len() - 1
                        &&& exists|i: int|
                            0 <= i < before.batch_loads@.len() && (
                            #[trigger] before.batch_loads@[i]).0@ == needed
                                && before.batch_loads@[i].1 == granted
                        &&& forall|i: int|
                            0 <= i < before.candidates@.len() ==> (
                            #[trigger] before.candidates@[i]).soname@ != needed
                    },
                    None => {
                        &&& after == before
                        &&& exists|i: int|
                            0 <= i < before.candidates@.len() && (
                            #[trigger] before.candidates@[i]).soname@ == needed
                    },
                }
            },
            Ok(PackageStep::Import(descriptor)) => {
                &&& after.batch_loads == before.batch_loads
                &&& forall|i: int|
                    0 <= i < before.batch_loads@.len() ==> (
                    #[trigger] before.batch_loads@[i]).0@ != needed
                &&& {
                    ||| exists|i: int|
                        0 <= i < before.batch_imports@.len() && (
                        #[trigger] before.batch_imports@[i]).0@ == needed
                            && before.batch_imports@[i].2 == descriptor && after.leases@
                            == before.leases@.push(before.batch_imports@[i].1)
                    ||| exists|i: int|
                        0 <= i < registry.slots.len() && (#[trigger] registry.slots[i]).domain
                            == before.domain && registry.slots[i].soname == needed && (
                        registry.slots[i].state matches StateView::Ready { backing, .. }
                            && cloned::<
                            D,
                        >(backing.descriptor, descriptor))
                }
            },
            Ok(PackageStep::Wait(handle)) => {
                &&& after == before
                &&& exists|i: int|
                    0 <= i < registry.slots.len() && i as usize == handle.slot && (
                    #[trigger] registry.slots[i]).domain == before.domain
                        && registry.slots[i].soname == needed && handle.generation
                        == registry.slots[i].generation && handle.observed
                        == registry.slots[i].signal && !(registry.slots[i].state is Ready) && !(
                    registry.slots[i].state is Vacant) && !(registry.slots[i].state is Failed)
            },
            Ok(PackageStep::OpenPrivate(_)) => false,
            Err(_) => after == before,
        },
{
    let entries = before.catalog.entries@;
    names_find_the_first_library(entries, needed, 0);
    names_find_the_first_candidate(before.candidates@, needed, 0);
    lemma_first_load(before.batch_loads@, needed, 0);
    lemma_first_import(before.batch_imports@, needed, 0);
    lemma_find_from(registry.slots, before.domain, needed, 0);
    match package_case(before, needed) {
        PackageCase::FirstLoad(i) => {
            taking_leaves_the_others(before.batch_loads@, i);
            assert(before.batch_loads@[i].0@ == needed);
        },
        PackageCase::FirstImport(i) => {
            assert(before.batch_imports@[i].0@ == needed);
        },
        PackageCase::Again => {
            let i = candidate_from(before.candidates@, needed, 0)->0;
            assert(before.candidates@[i].soname@ == needed);
        },
        PackageCase::Imported | PackageCase::Ask => {
            if let Some(i) = find_slot(registry.slots, before.domain, needed) {
                assert(registry.slots[i].soname == needed);
            }
        },
        PackageCase::Unknown => {},
    }
    if let Some(c) = named_from(entries, needed, 0) {
        assert(entries[c].soname@ == needed);
    }
}

} // verus!
