//! Resolving the dependencies of a launch.

use blueos_loader::address::TargetAddr;
use blueos_loader::application::loader::{hand_off, system_fini_plans, LinkedImage};
use blueos_loader::application::package::{
    ApplicationPackageManifest, DeclaredDependency, DependencySource, PackageImageEntry,
};
use blueos_loader::application::package_resolver::{
    system_names, PackageArtifactResolver, PackageStep,
};
use blueos_loader::application::registry::{
    AcquireBatchOutcome, AcquireOutcome, PreparedSystemBatch, SystemDsoRegistry,
};
use blueos_loader::application::resolver::{
    DescribesArtifact, NamespaceArtifactResolver, NamespaceLoadPlan, PlannedEdge, PlannedImage,
    Resolution, SystemCandidatePermit,
};
use blueos_loader::application::system_paths::{SystemLibraryEntry, SystemLibraryPaths};
use blueos_loader::application::vfs_reader::{identity_from_snapshot, FileSnapshotId};
use blueos_loader::dynamic_linker::artifact::{
    ArtifactIdentity, ArtifactIdentityView, DependencyName, ImageId, ImageOwnership, LinkDomainId,
};
use blueos_loader::dynamic_linker::lifecycle::{FiniPlan, LifecycleEntry};
use blueos_loader::error::LoadErrorKind;
use blueos_loader::memory::{AllocationLease, ImageAllocation};

const LIBRARIES: &[SystemLibraryEntry] = &[SystemLibraryEntry {
    soname: b"libc.so",
    path: "/system/lib/libc.so",
    build_id: None,
    keep_cached: true,
}];

/// What the registry keeps of a library.
#[derive(Clone, Debug)]
struct Library(ArtifactIdentity);

impl DescribesArtifact for Library {
    fn artifact(&self) -> ArtifactIdentityView {
        unreachable!()
    }

    fn identity(&self) -> &ArtifactIdentity {
        &self.0
    }
}

fn name(text: &str) -> DependencyName {
    DependencyName::from_bytes(text.as_bytes()).expect("valid name")
}

fn snapshot(inode: u64) -> FileSnapshotId {
    FileSnapshotId { fs_instance: 1, inode, content_generation: 1, len: 64 }
}

fn identity(inode: u64) -> ArtifactIdentity {
    identity_from_snapshot(&snapshot(inode), None)
}

fn batch(
    registry: &mut SystemDsoRegistry<Library>,
    domain: LinkDomainId,
    names: &[DependencyName],
) -> PreparedSystemBatch<Library> {
    match registry.acquire_batch(domain, names) {
        AcquireBatchOutcome::Acquired(batch) => batch,
        AcquireBatchOutcome::Pending(_) => panic!("expected a batch"),
    }
}

/// Loads a library for the first time and hands it to the registry.
fn make_ready(registry: &mut SystemDsoRegistry<Library>, domain: LinkDomainId, soname: &str, inode: u64) {
    let AcquireOutcome::Permit(permit) = registry.acquire_or_begin_load(domain, name(soname)) else {
        panic!("expected permit");
    };
    let permits = vec![SystemCandidatePermit { key: name(soname), identity: identity(inode), permit }];
    let images = vec![LinkedImage {
        owner: ImageId::new(1),
        ownership: ImageOwnership::SystemCandidate,
        soname: Some(name(soname)),
        descriptor: Library(identity(inode)),
        dependency_names: Vec::new(),
        scc_members: Vec::new(),
        keep_cached: true,
    }];
    let fini = FiniPlan(vec![
        LifecycleEntry::new(ImageId::new(0), TargetAddr::new(0x8)),
        LifecycleEntry::new(ImageId::new(1), TargetAddr::new(0x10)),
    ]);
    let plans = system_fini_plans(&images, &fini);
    assert_eq!(plans.len(), 1);
    assert_eq!(plans[0].owner, ImageId::new(1));
    let memory = vec![AllocationLease::new(ImageAllocation::new(TargetAddr::new(0x1000), 16, 8))];
    let batch = match hand_off(registry, permits, &images, &plans, memory) {
        Ok(batch) => batch,
        Err(error) => panic!("{:?}", error),
    };
    for own in registry.finish_initialization_batch(batch).expect("ready") {
        registry.release_lease(own);
    }
}

#[test]
fn libraries_are_handed_off_with_their_memory() {
    let domain = LinkDomainId::new(1);
    let mut registry = SystemDsoRegistry::default();
    make_ready(&mut registry, domain, "libc.so", 7);
    assert!(registry.descriptor(domain, &name("libc.so")).is_some());
    let plan = registry.fini_plan(domain, &name("libc.so")).expect("plan");
    assert_eq!(plan.entries(), &[LifecycleEntry::new(ImageId::new(1), TargetAddr::new(0x10))][..]);
    // Without memory for it a library is not handed off, and its load is over.
    let AcquireOutcome::Permit(permit) = registry.acquire_or_begin_load(domain, name("libm.so"))
    else {
        panic!("expected permit");
    };
    let permits = vec![SystemCandidatePermit { key: name("libm.so"), identity: identity(8), permit }];
    match hand_off(&mut registry, permits, &Vec::new(), &Vec::new(), Vec::new()) {
        Ok(_) => panic!("expected a failure"),
        Err(error) => assert_eq!(error.kind(), LoadErrorKind::Backend),
    }
    assert!(matches!(
        registry.acquire_or_begin_load(domain, name("libm.so")),
        AcquireOutcome::Permit(_)
    ));
}

fn planned(inode: u64, path: &str, system_key: Option<&str>) -> PlannedImage {
    PlannedImage {
        path: path.to_string(),
        identity: identity(inode),
        snapshot: snapshot(inode),
        system_key: system_key.map(name),
    }
}

fn plan() -> NamespaceLoadPlan {
    NamespaceLoadPlan {
        images: vec![
            planned(1, "/app/main", None),
            planned(2, "/app/lib/libown.so", None),
            planned(7, "/system/lib/libc.so", Some("libc.so")),
        ],
        edges: vec![
            PlannedEdge { requester: 0, request: name("libown.so"), provider: 1 },
            PlannedEdge { requester: 0, request: name("libc.so"), provider: 2 },
            PlannedEdge { requester: 1, request: name("libc.so"), provider: 2 },
        ],
        root: 0,
        system_keys: vec![name("libc.so")],
    }
}

#[test]
fn plans_decide_every_dependency() {
    let domain = LinkDomainId::new(1);
    let mut registry = SystemDsoRegistry::default();
    let claims = batch(&mut registry, domain, &[name("libc.so")]);
    let mut resolver = NamespaceArtifactResolver::new(plan(), claims);
    assert!(resolver.root_artifact(&snapshot(1)).expect("root").same(&identity(1)));
    assert_eq!(
        resolver.root_artifact(&snapshot(9)).unwrap_err().kind(),
        LoadErrorKind::SourceChanged
    );
    match resolver.resolve(&mut registry, &identity(1), &name("libown.so")) {
        Ok(Resolution::Open { provider, ownership, permit }) => {
            assert_eq!(provider, 1);
            assert_eq!(ownership, ImageOwnership::SessionPrivate);
            assert!(permit.is_none());
        }
        _ => panic!("expected an image of the plan"),
    }
    match resolver.resolve(&mut registry, &identity(1), &name("libc.so")) {
        Ok(Resolution::Open { provider, ownership, permit }) => {
            assert_eq!(ownership, ImageOwnership::SystemCandidate);
            assert!(resolver.opened(provider, &snapshot(7)).is_ok());
            resolver.claim(provider, permit.expect("first load"));
        }
        _ => panic!("expected a first load"),
    }
    // The second image gets the same library without a permit.
    match resolver.resolve(&mut registry, &identity(2), &name("libc.so")) {
        Ok(Resolution::Open { permit, .. }) => assert!(permit.is_none()),
        _ => panic!("expected the same image"),
    }
    assert!(resolver.resolve(&mut registry, &identity(1), &name("libm.so")).is_err());
    assert!(resolver.resolve(&mut registry, &identity(9), &name("libc.so")).is_err());
    let authorities = resolver.finish_resolution();
    assert_eq!(authorities.permits.len(), 1);
    assert!(authorities.leases.is_empty());
    authorities.abandon(&mut registry);
    resolver.close(&mut registry);
    // Nothing is left: the next launch loads it again.
    assert!(matches!(
        registry.acquire_or_begin_load(domain, name("libc.so")),
        AcquireOutcome::Permit(_)
    ));
}

#[test]
fn ready_libraries_are_imported() {
    let domain = LinkDomainId::new(1);
    let mut registry = SystemDsoRegistry::default();
    make_ready(&mut registry, domain, "libc.so", 7);
    let claims = batch(&mut registry, domain, &[name("libc.so")]);
    assert_eq!(registry.lease_count(domain, &name("libc.so")), Some(1));
    let mut resolver = NamespaceArtifactResolver::new(plan(), claims);
    match resolver.resolve(&mut registry, &identity(1), &name("libc.so")) {
        Ok(Resolution::Import(library)) => assert!(library.0.same(&identity(7))),
        _ => panic!("expected an import"),
    }
    match resolver.resolve(&mut registry, &identity(2), &name("libc.so")) {
        Ok(Resolution::Import(library)) => assert!(library.0.same(&identity(7))),
        _ => panic!("expected an import"),
    }
    let authorities = resolver.finish_resolution();
    assert_eq!(authorities.leases.len(), 1);
    authorities.abandon(&mut registry);
    resolver.close(&mut registry);
    assert_eq!(registry.lease_count(domain, &name("libc.so")), Some(0));
}

fn package() -> ApplicationPackageManifest {
    let dependency = |text: &str, source| DeclaredDependency {
        soname: text.as_bytes().to_vec(),
        source,
    };
    ApplicationPackageManifest {
        root: PackageImageEntry {
            path: "/app/main".to_string(),
            soname: None,
            build_id: Vec::new(),
            needed: vec![
                dependency("libown.so", DependencySource::PackagePrivate),
                dependency("libc.so", DependencySource::System),
                dependency("libz.so", DependencySource::System),
            ],
        },
        private_images: vec![PackageImageEntry {
            path: "/app/lib/libown.so".to_string(),
            soname: Some(b"libown.so".to_vec()),
            build_id: Vec::new(),
            needed: vec![dependency("libc.so", DependencySource::System)],
        }],
        system_sonames: vec![b"libc.so".to_vec()],
        profile: "riscv64-vivo-blueos".to_string(),
    }
}

#[test]
fn packages_are_resolved_as_they_declare() {
    let domain = LinkDomainId::new(1);
    let mut registry = SystemDsoRegistry::<Library>::default();
    let package = package();
    let catalog = SystemLibraryPaths::new(LIBRARIES);
    let names = system_names(&package).expect("names");
    assert_eq!(names.len(), 1);
    let claims = batch(&mut registry, domain, &names);
    let root = identity_from_snapshot(&snapshot(1), Some(&[]));
    let mut resolver = PackageArtifactResolver::new(&package, &catalog, &root, domain, claims);
    let private = ImageOwnership::SessionPrivate;
    match resolver.resolve(&mut registry, &root, private, &name("libown.so")) {
        Ok(PackageStep::OpenPrivate(image)) => assert_eq!(image, 0),
        _ => panic!("expected an image of the package"),
    }
    let own = resolver.private_opened(0, &snapshot(2)).expect("opened");
    assert_eq!(resolver.requester_entry(&own).expect("entry").path, "/app/lib/libown.so");
    match resolver.resolve(&mut registry, &own, private, &name("libc.so")) {
        Ok(PackageStep::OpenSystem { entry, permit }) => {
            assert_eq!(entry.path, "/system/lib/libc.so");
            assert!(permit.is_some());
            resolver
                .system_opened(&name("libc.so"), entry, permit, &snapshot(7))
                .expect("opened");
        }
        _ => panic!("expected a system library"),
    }
    match resolver.resolve(&mut registry, &root, private, &name("libc.so")) {
        Ok(PackageStep::OpenSystem { permit, .. }) => assert!(permit.is_none()),
        _ => panic!("expected the same library"),
    }
    // Not in the catalog, not declared, and never from a system library.
    assert!(resolver.resolve(&mut registry, &root, private, &name("libz.so")).is_err());
    assert!(resolver.resolve(&mut registry, &own, private, &name("libown.so")).is_err());
    assert!(resolver
        .resolve(&mut registry, &root, ImageOwnership::SystemCandidate, &name("libown.so"))
        .is_err());
    let authorities = resolver.finish_resolution();
    assert_eq!(authorities.permits.len(), 1);
    authorities.abandon(&mut registry);
    resolver.close(&mut registry);
    assert!(matches!(
        registry.acquire_or_begin_load(domain, name("libc.so")),
        AcquireOutcome::Permit(_)
    ));
}

#[test]
fn libraries_under_construction_are_waited_for() {
    let domain = LinkDomainId::new(1);
    let mut registry = SystemDsoRegistry::<Library>::default();
    let package = package();
    let catalog = SystemLibraryPaths::new(LIBRARIES);
    let held = registry.acquire_or_begin_load(domain, name("libc.so"));
    assert!(matches!(held, AcquireOutcome::Permit(_)));
    let empty = PreparedSystemBatch { loads: Vec::new(), imports: Vec::new() };
    let root = identity(1);
    let mut resolver = PackageArtifactResolver::new(&package, &catalog, &root, domain, empty);
    match resolver.resolve_system(&mut registry, &name("libc.so")) {
        Ok(PackageStep::Wait(handle)) => assert!(!registry.is_resolved(&handle)),
        _ => panic!("expected to wait"),
    }
    resolver.close(&mut registry);
}

#[test]
fn libraries_are_leased_once() {
    let domain = LinkDomainId::new(1);
    let mut registry = SystemDsoRegistry::default();
    make_ready(&mut registry, domain, "libc.so", 7);
    let package = package();
    let catalog = SystemLibraryPaths::new(LIBRARIES);
    let names = system_names(&package).expect("names");
    let claims = batch(&mut registry, domain, &names);
    let root = identity(1);
    let mut resolver = PackageArtifactResolver::new(&package, &catalog, &root, domain, claims);
    assert_eq!(registry.lease_count(domain, &name("libc.so")), Some(1));
    for _ in 0..3 {
        match resolver.resolve_system(&mut registry, &name("libc.so")) {
            Ok(PackageStep::Import(library)) => assert!(library.0.same(&identity(7))),
            _ => panic!("expected an import"),
        }
        assert_eq!(registry.lease_count(domain, &name("libc.so")), Some(1));
    }
    assert_eq!(resolver.finish_resolution().leases.len(), 1);
}

#[test]
fn libraries_that_change_while_they_are_loaded_are_refused() {
    let domain = LinkDomainId::new(1);
    let mut registry = SystemDsoRegistry::<Library>::default();
    let package = package();
    let catalog = SystemLibraryPaths::new(LIBRARIES);
    let names = system_names(&package).expect("names");
    let claims = batch(&mut registry, domain, &names);
    let root = identity(1);
    let mut resolver = PackageArtifactResolver::new(&package, &catalog, &root, domain, claims);
    let Ok(PackageStep::OpenSystem { entry, permit }) =
        resolver.resolve_system(&mut registry, &name("libc.so"))
    else {
        panic!("expected a system library");
    };
    resolver.system_opened(&name("libc.so"), entry, permit, &snapshot(7)).expect("opened");
    assert!(resolver.system_opened(&name("libc.so"), entry, None, &snapshot(7)).is_ok());
    let changed = resolver.system_opened(&name("libc.so"), entry, None, &snapshot(8));
    assert_eq!(changed.unwrap_err().kind(), LoadErrorKind::SourceChanged);
    // A library that the catalog does not have takes nothing.
    assert!(resolver.resolve_system(&mut registry, &name("libz.so")).is_err());
    assert_eq!(resolver.finish_resolution().permits.len(), 1);
}

#[test]
fn first_answers_say_who_owns_an_image() {
    let domain = LinkDomainId::new(1);
    let mut registry = SystemDsoRegistry::<Library>::default();
    let package = package();
    let catalog = SystemLibraryPaths::new(LIBRARIES);
    let claims = batch(&mut registry, domain, &system_names(&package).expect("names"));
    let root = identity_from_snapshot(&snapshot(1), Some(&[]));
    let mut resolver = PackageArtifactResolver::new(&package, &catalog, &root, domain, claims);
    let private = ImageOwnership::SessionPrivate;
    assert_eq!(resolver.ownership_of(&root), private);
    // Nothing is known of an image that no answer named.
    assert_eq!(resolver.ownership_of(&identity(7)), private);
    let own = resolver.private_opened(0, &snapshot(2)).expect("opened");
    assert_eq!(resolver.ownership_of(&own), private);
    let Ok(PackageStep::OpenSystem { entry, permit }) =
        resolver.resolve(&mut registry, &own, private, &name("libc.so"))
    else {
        panic!("expected a system library");
    };
    let system =
        resolver.system_opened(&name("libc.so"), entry, permit, &snapshot(7)).expect("opened");
    assert_eq!(resolver.ownership_of(&system), ImageOwnership::SystemCandidate);
    // A system library never sees an image of the package.
    let owner = resolver.ownership_of(&system);
    assert!(resolver.resolve(&mut registry, &system, owner, &name("libown.so")).is_err());
    resolver.library_imported(&identity(9));
    assert_eq!(resolver.ownership_of(&identity(9)), ImageOwnership::ExternalReady);
    // Later answers change nothing.
    resolver.library_imported(&system);
    resolver.library_imported(&own);
    resolver.library_imported(&root);
    assert_eq!(resolver.ownership_of(&system), ImageOwnership::SystemCandidate);
    assert_eq!(resolver.ownership_of(&own), private);
    assert_eq!(resolver.ownership_of(&root), private);
}
