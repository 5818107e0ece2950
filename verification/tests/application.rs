//! Paths, packages and what becomes of an application that ends.

use blueos_loader::address::TargetAddr;
use blueos_loader::application::package::{
    find_edge, find_private_image, find_root, profile_for, target_board,
    ApplicationPackageManifest, DeclaredDependency, DependencySource, PackageImageEntry, TargetBoard,
};
use blueos_loader::application::path::{
    has_separator, join_path, normalize_path, parent_dir, starts_at_root,
};
use blueos_loader::application::publication::KernelLinkReceipt;
use blueos_loader::application::reaper::{
    keep_cached, reap, reap_decision, resolve_import, unload_actions, GroupPhase, ReapDecision,
    ReapReport, UnloadAction,
};
use blueos_loader::application::registry::{
    AcquireOutcome, QuiescenceResolution, SystemCandidateBacking, SystemDsoLease,
    SystemDsoRegistry, SystemUnloadBacking,
};
use blueos_loader::application::seed::parent_directories;
use blueos_loader::application::start_info::{AT_ENTRY, AT_NULL, AT_PHDR};
use blueos_loader::application::system_paths::{SystemLibraryEntry, SystemLibraryPaths};
use blueos_loader::application::vfs_reader::{
    check_generation, identity_from_snapshot, map_error, FileFault, FileSnapshotId,
};
use blueos_loader::dynamic_linker::artifact::{DependencyName, ImageId, LinkDomainId};
use blueos_loader::dynamic_linker::lifecycle::{FiniPlan, LifecycleEntry};
use blueos_loader::error::{ErrorContext, LoadErrorKind};
use blueos_loader::identity::{ElfMachine, ElfType};
use blueos_loader::memory::{AllocationLease, ImageAllocation};

const LIBRARIES: &[SystemLibraryEntry] = &[
    SystemLibraryEntry {
        soname: b"libc.so",
        path: "/system/lib/libc.so",
        build_id: None,
        keep_cached: true,
    },
    SystemLibraryEntry {
        soname: b"libm.so",
        path: "/system/lib/libm.so",
        build_id: Some(b"m1"),
        keep_cached: false,
    },
];

fn name(text: &[u8]) -> DependencyName {
    DependencyName::from_bytes(text).expect("valid name")
}

fn lease_of(base: u64) -> AllocationLease {
    AllocationLease::new(ImageAllocation::new(TargetAddr::new(base), 0x100, 8))
}

#[test]
fn paths_are_normalized() {
    assert_eq!(normalize_path("/a/./b/../c").as_deref(), Some("/a/c"));
    assert_eq!(normalize_path("//a//b/").as_deref(), Some("/a/b"));
    assert_eq!(normalize_path("/"), Some("/".to_string()));
    let once = normalize_path("/x/../y/./z").expect("normal");
    assert_eq!(normalize_path(&once), Some(once.clone()));
    assert_eq!(join_path("/a/b", "../c").as_deref(), Some("/a/c"));
    assert_eq!(join_path("/a/b", "c/d").as_deref(), Some("/a/b/c/d"));
    assert_eq!(parent_dir("/a/b").as_deref(), Some("/a"));
    assert_eq!(parent_dir("/a").as_deref(), Some("/"));
    assert_eq!(parent_dir("/a/b/").as_deref(), Some("/a"));
    assert_eq!(parent_dir("/a/./b").as_deref(), Some("/a/."));
    assert_eq!(parent_dir("/a//b").as_deref(), Some("/a/"));
    assert_eq!(parent_dir("/"), None);
    assert!(starts_at_root("/a") && !starts_at_root("a"));
    assert!(has_separator("a/b") && !has_separator("ab"));
}

#[test]
fn directories_are_made_outermost_first() {
    assert_eq!(parent_directories("/system/lib/libc.so"), vec!["/system", "/system/lib"]);
    assert_eq!(parent_directories("/init"), Vec::<String>::new());
    assert_eq!(parent_directories("bin/sh"), vec!["bin"]);
}

#[test]
fn libraries_are_found_by_name_and_by_path() {
    let catalog = SystemLibraryPaths::new(LIBRARIES);
    assert_eq!(catalog.resolve_name(b"libm.so").expect("found").path, "/system/lib/libm.so");
    assert_eq!(catalog.resolve(b"libm.so").expect("found").build_id, Some(b"m1".as_slice()));
    assert!(catalog.resolve_name(b"libz.so").is_none());
    assert_eq!(
        catalog.resolve_path("/system/lib/libc.so").expect("found").soname,
        b"libc.so".as_slice()
    );
    assert!(catalog.resolve_path("/app/libc.so").is_none());
    assert!(keep_cached(&catalog, &name(b"libc.so")));
    assert!(!keep_cached(&catalog, &name(b"libm.so")));
    assert!(keep_cached(&catalog, &name(b"libz.so")));
}

fn image(path: &str, soname: Option<&[u8]>, needed: Vec<DeclaredDependency>) -> PackageImageEntry {
    PackageImageEntry {
        path: path.to_string(),
        soname: soname.map(|text| text.to_vec()),
        build_id: Vec::new(),
        needed,
    }
}

#[test]
fn packages_declare_their_dependencies() {
    let package = ApplicationPackageManifest {
        root: image(
            "/app/main",
            None,
            vec![
                DeclaredDependency {
                    soname: b"libown.so".to_vec(),
                    source: DependencySource::PackagePrivate,
                },
                DeclaredDependency {
                    soname: b"libc.so".to_vec(),
                    source: DependencySource::System,
                },
            ],
        ),
        private_images: vec![image("/app/lib/libown.so", Some(b"libown.so"), Vec::new())],
        system_sonames: vec![b"libc.so".to_vec()],
        profile: "riscv64-vivo-blueos".to_string(),
    };
    assert_eq!(find_private_image(&package, b"libown.so"), Some(0));
    assert_eq!(find_private_image(&package, b"libc.so"), None);
    assert_eq!(
        find_edge(&package.root, b"libc.so").expect("declared").source,
        DependencySource::System
    );
    assert!(find_edge(&package.root, b"libm.so").is_none());
    let profile = profile_for(&package).expect("known profile");
    assert_eq!(profile.machine(), ElfMachine::Riscv);
    assert_eq!(profile.elf_type(), ElfType::Dyn);
    let packages = vec![package];
    assert!(find_root(&packages, "/app/main").is_some());
    assert!(find_root(&packages, "/app/other").is_none());
    assert_eq!(target_board("aarch64-vivo-blueos"), Some(TargetBoard::Aarch64));
    assert_eq!(target_board("x86_64"), None);
}

#[test]
fn snapshots_identify_their_content() {
    let first = FileSnapshotId { fs_instance: 1, inode: 2, content_generation: 3, len: 4 };
    let second = FileSnapshotId { content_generation: 4, ..first };
    assert!(check_generation(&first, &first).is_ok());
    assert_eq!(
        check_generation(&first, &second).unwrap_err().kind(),
        LoadErrorKind::SourceChanged
    );
    let identity = identity_from_snapshot(&first, None);
    assert_eq!(identity.generation(), 3);
    assert!(identity.same(&identity_from_snapshot(&first, None)));
    assert!(!identity.same(&identity_from_snapshot(&second, None)));
    assert!(!identity.same(&identity_from_snapshot(&first, Some(b"id"))));
    let error = map_error(FileFault::NoData, 8, 16, 20);
    assert_eq!(error.kind(), LoadErrorKind::OutOfBounds);
    assert_eq!(*error.context(), ErrorContext::FileRange { offset: 8, len: 16, file_len: 20 });
    assert_eq!(map_error(FileFault::Io, 0, 0, 0).kind(), LoadErrorKind::Io);
    assert_eq!(map_error(FileFault::Overflow, 0, 0, 0).kind(), LoadErrorKind::IntegerOverflow);
    assert_eq!(map_error(FileFault::Other, 0, 0, 0).kind(), LoadErrorKind::Backend);
}

#[test]
fn only_empty_groups_are_reaped() {
    assert_eq!(reap_decision(GroupPhase::New, true, false), ReapDecision::Recycle);
    assert_eq!(reap_decision(GroupPhase::Reaped, true, true), ReapDecision::Done);
    assert_eq!(reap_decision(GroupPhase::Linked, false, false), ReapDecision::NotYet);
    assert_eq!(
        reap_decision(GroupPhase::Linked, true, false),
        ReapDecision::Reap { begin_exit: true, skip_fini: true }
    );
    assert_eq!(reap_decision(GroupPhase::Draining, false, true), ReapDecision::NotYet);
    assert_eq!(
        reap_decision(GroupPhase::Draining, true, true),
        ReapDecision::Reap { begin_exit: false, skip_fini: false }
    );
}

#[test]
fn reports_count_what_was_held() {
    let receipt = KernelLinkReceipt {
        private_allocations: vec![lease_of(0x1000), lease_of(0x2000)],
        system_allocations: vec![lease_of(0x3000)],
    };
    let held = reap(receipt, Vec::new());
    assert_eq!(held.report, ReapReport { private_images: 2, imported_dsos: 0 });
    assert_eq!(held.release.len(), 2);
    assert!(held.imports.is_empty());
    assert_eq!(ReapReport::default(), ReapReport { private_images: 0, imported_dsos: 0 });
}

/// Makes a library ready and returns its lease.
fn ready(
    registry: &mut SystemDsoRegistry<u32>,
    domain: LinkDomainId,
    soname: &[u8],
    keep_cached: bool,
) -> SystemDsoLease {
    let AcquireOutcome::Permit(permit) = registry.acquire_or_begin_load(domain, name(soname)) else {
        panic!("expected permit");
    };
    let relocated = registry.publish_relocated(permit).expect("relocated");
    let backing = SystemCandidateBacking {
        descriptor: 1,
        fini_plan: FiniPlan(vec![LifecycleEntry::new(ImageId::new(1), TargetAddr::new(0x1010))]),
        allocation: lease_of(0x1000),
        dependency_names: Vec::new(),
        dependencies: Vec::new(),
        scc_members: Vec::new(),
        keep_cached,
    };
    let batch = registry.publish_relocated_batch(vec![relocated], vec![backing]).expect("batch");
    registry.finish_initialization_batch(batch).expect("ready").remove(0)
}

#[test]
fn unused_libraries_stay_or_go_as_the_catalog_says() {
    let catalog = SystemLibraryPaths::new(LIBRARIES);
    let domain = LinkDomainId::new(1);
    let mut registry = SystemDsoRegistry::default();
    let kept = ready(&mut registry, domain, b"libc.so", true);
    assert!(matches!(
        resolve_import(&mut registry, &catalog, kept),
        Some(QuiescenceResolution::KeptCached)
    ));
    let gone = ready(&mut registry, domain, b"libm.so", false);
    let AcquireOutcome::Lease(other) = registry.acquire_or_begin_load(domain, name(b"libm.so"))
    else {
        panic!("expected lease");
    };
    // Somebody else uses it.
    assert!(resolve_import(&mut registry, &catalog, gone).is_none());
    let Some(QuiescenceResolution::Unloaded(mut batch)) =
        resolve_import(&mut registry, &catalog, other)
    else {
        panic!("expected a batch");
    };
    let actions = unload_actions(batch.take_backings());
    assert_eq!(actions.len(), 2);
    assert!(matches!(actions[0], UnloadAction::Call(entry) if entry.function().get() == 0x1010));
    assert!(matches!(&actions[1], UnloadAction::Release(lease)
        if lease.allocation().base().get() == 0x1000));
    assert!(registry.finish_unload(batch).is_ok());
}

#[test]
fn destructors_come_before_releases() {
    let domain = LinkDomainId::new(1);
    let mut registry = SystemDsoRegistry::default();
    let used = ready(&mut registry, domain, b"libc.so", true);
    let entry = |function: u64| LifecycleEntry::new(ImageId::new(1), TargetAddr::new(function));
    let backings = vec![
        SystemUnloadBacking {
            soname: name(b"liba.so"),
            fini_plan: FiniPlan(vec![entry(1), entry(2)]),
            allocation: lease_of(0x1000),
            dependencies: vec![used],
        },
        SystemUnloadBacking {
            soname: name(b"libb.so"),
            fini_plan: FiniPlan(vec![entry(3)]),
            allocation: lease_of(0x2000),
            dependencies: Vec::new(),
        },
    ];
    let shown: Vec<u64> = unload_actions(backings)
        .iter()
        .map(|action| match action {
            UnloadAction::Call(entry) => entry.function().get(),
            UnloadAction::Release(lease) => lease.allocation().base().get(),
            UnloadAction::Drop(_) => 0,
        })
        .collect();
    assert_eq!(shown, vec![1, 2, 3, 0x1000, 0, 0x2000]);
}

#[test]
fn auxiliary_vector_keys_have_their_numbers() {
    assert_eq!((AT_NULL, AT_PHDR, AT_ENTRY), (0, 3, 9));
}
