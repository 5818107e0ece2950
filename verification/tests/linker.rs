//! Linking several images.

use blueos_loader::address::{FileRange, TargetAddr, TargetRange};
use blueos_loader::application::group::{GroupState, ThreadGroupBackend};
use blueos_loader::application::library_groups::library_relations;
use blueos_loader::application::launch::LaunchedApplication;
use blueos_loader::application::manager::{
    ApplicationLaunchError, ApplicationManager, ExecutionModel, OwnedLaunchRequest,
};
use blueos_loader::application::publication::KernelLinkReceipt;
use blueos_loader::application::registry::SystemDsoRegistry;
use blueos_loader::dynamic_linker::artifact::{
    ArtifactIdentity, ArtifactResolver, ArtifactRole, BuildId, DependencyName, DependencyRequest,
    FileIdentity, ImageId, ImageOwnership, LinkDomainId, ResolvedArtifact,
};
use blueos_loader::dynamic_linker::graph::DependencyGraph;
use blueos_loader::dynamic_linker::lifecycle::{
    build, ordered_images, FiniPlan, InitPlan, LifecycleImage,
};
use blueos_loader::dynamic_linker::metadata::{
    ImageLifecycleMetadata, ProgramHeaderRuntimeInfo, RelocationTables, RuntimeDynamicInfo,
    RuntimeImageMetadata,
};
use blueos_loader::dynamic_linker::order::dependency_groups;
use blueos_loader::dynamic_linker::publish::{
    build_manifest, image_span, LinkContext, LinkMapImage, LinkProduct,
};
use blueos_loader::dynamic_linker::scope::{ScopeSet, SymbolRegionKind, SymbolScope};
use blueos_loader::dynamic_linker::runtime::{load_runtime, RuntimeDecoder, RuntimeTerms};
use blueos_loader::dynamic_linker::session::{BuildingSession, DynamicLinker, LoadMetrics};
use blueos_loader::dynamic_linker::symbol::{
    SymbolBinding, SymbolDefinition, SymbolEntry, SymbolTable, SymbolType, SymbolVisibility,
};
use blueos_loader::elf::{LoadSegmentInfo, EM_RISCV, ET_DYN, PF_R, PF_X, PT_LOAD};
use blueos_loader::error::{ErrorContext, LoadError, LoadErrorKind, LoadResult, LoadStage};
use blueos_loader::identity::{ElfType, LoadLimits, LoadPolicy, LoadProfile, SessionLimits};
use blueos_loader::image::loaded::{LoadedRegion, MappedState, MappedView};
use blueos_loader::memory::{
    AllocationLease, AllocationOffset, AllocationRequest, ImageAllocation, ImageBytes, ImageMemory,
    Placement,
};
use blueos_loader::permissions::MemoryPermissions;
use blueos_loader::reader::SliceElfReader;
use blueos_loader::relocation::riscv::Riscv64Relocator;
use blueos_loader::virtual_memory::{VirtualMemory, VIRTUAL_BASE};

fn name(text: &str) -> DependencyName {
    DependencyName::from_bytes(text.as_bytes()).expect("valid name")
}

fn identity(text: &str) -> ArtifactIdentity {
    ArtifactIdentity::new(FileIdentity::from_bytes(text.as_bytes()), 1, None)
}

fn limits() -> SessionLimits {
    SessionLimits::new(8, 16, 4, 32, LoadLimits::default_limits())
}

fn graph(sonames: &[&str]) -> DependencyGraph {
    let mut graph = DependencyGraph::new(limits());
    graph
        .insert_root(identity("app"), None, ImageOwnership::SessionPrivate)
        .expect("root");
    for (index, soname) in sonames.iter().enumerate() {
        graph
            .insert_dependency(
                ImageId::new(0),
                &name(soname),
                index as u16,
                identity(soname),
                Some(name(soname)),
                ImageOwnership::SystemCandidate,
            )
            .expect("dependency");
    }
    graph
}

fn symbol(text: &str, value: u64, binding: SymbolBinding, visibility: SymbolVisibility) -> SymbolEntry {
    SymbolEntry {
        name: text.as_bytes().to_vec(),
        value: TargetAddr::new(value),
        size: 4,
        binding,
        symbol_type: SymbolType::Func,
        visibility,
        definition: SymbolDefinition::Defined,
    }
}

#[test]
fn names_are_plain_and_terminated() {
    assert_eq!(DependencyName::from_terminated(b"libc.so\0").unwrap().as_bytes(), b"libc.so");
    assert!(DependencyName::from_terminated(b"libc.so\0junk").is_err());
    assert!(DependencyName::from_terminated(b"libc.so").is_err());
    assert!(DependencyName::from_terminated(b"\0").is_err());
    assert!(name("liba").precedes(&name("libb")));
    assert!(name("liba").same(&name("liba")));
}

#[test]
fn identities_have_a_generation() {
    let first = identity("libc");
    let second = ArtifactIdentity::new(FileIdentity::from_bytes(b"libc"), 2, None);
    let built = ArtifactIdentity::new(
        FileIdentity::from_bytes(b"libc"),
        1,
        Some(BuildId::from_bytes(b"id")),
    );
    assert!(first.same(&identity("libc")));
    assert!(!first.same(&second));
    assert!(!first.same(&built));
    assert_eq!(second.generation(), 2);
    assert!(built.build_id().is_some());
}

#[test]
fn providers_come_before_requesters() {
    // 0 needs 1 and 2, 1 needs 2, 2 and 3 need each other.
    let groups = dependency_groups(4, &vec![(0, 1), (0, 2), (1, 2), (2, 3), (3, 2)]);
    assert_eq!(groups, vec![vec![2, 3], vec![1], vec![0]]);
    assert_eq!(dependency_groups(0, &Vec::new()), Vec::<Vec<u32>>::new());
    let mut graph = graph(&["liba", "libb"]);
    graph.link_existing(ImageId::new(1), ImageId::new(2), 0).expect("edge");
    let order: Vec<u32> = ordered_images(&graph).iter().map(|id| id.get()).collect();
    assert_eq!(order, vec![2, 1, 0]);
}

#[test]
fn graphs_know_their_images() {
    let mut graph = graph(&["liba"]);
    assert_eq!(graph.image_count(), 2);
    assert_eq!(graph.edge_count(), 1);
    assert_eq!(graph.find_identity(&identity("liba")), Some(ImageId::new(1)));
    assert_eq!(graph.find_identity(&identity("libz")), None);
    assert_eq!(graph.node(ImageId::new(1)).expect("node").depth(), 1);
    // The same artifact is linked, not loaded again.
    let again = graph.insert_dependency(
        ImageId::new(0),
        &name("liba"),
        1,
        identity("liba"),
        Some(name("liba")),
        ImageOwnership::SystemCandidate,
    );
    assert_eq!(again, Ok(ImageId::new(1)));
    assert_eq!(graph.image_count(), 2);
    assert_eq!(graph.edge_count(), 2);
    // Another artifact of that name is refused.
    let other = graph.insert_dependency(
        ImageId::new(0),
        &name("liba"),
        2,
        identity("other"),
        Some(name("liba")),
        ImageOwnership::SystemCandidate,
    );
    assert_eq!(other.unwrap_err().kind(), LoadErrorKind::IdentityConflict);
    // So is a requester that is not there.
    assert!(graph
        .insert_dependency(
            ImageId::new(9),
            &name("libb"),
            0,
            identity("libb"),
            Some(name("libb")),
            ImageOwnership::SystemCandidate,
        )
        .is_err());
}

#[test]
fn strong_symbols_win_and_protected_ones_stay() {
    let graph = graph(&["liba", "libb"]);
    let app = SymbolTable { entries: Vec::new() };
    let first = SymbolTable {
        entries: vec![
            symbol("shared", 0x1001, SymbolBinding::Weak, SymbolVisibility::Default),
            symbol("own", 0x1100, SymbolBinding::Global, SymbolVisibility::Protected),
            symbol("hidden", 0x1200, SymbolBinding::Global, SymbolVisibility::Hidden),
        ],
    };
    let second = SymbolTable {
        entries: vec![
            symbol("shared", 0x2001, SymbolBinding::Global, SymbolVisibility::Default),
            symbol("own", 0x2100, SymbolBinding::Global, SymbolVisibility::Default),
        ],
    };
    let tables = vec![&app, &first, &second];
    let scopes = ScopeSet::freeze(&graph, &tables).expect("scopes");
    let found = scopes.resolve_name(&tables, ImageId::new(0), b"shared").expect("found");
    assert_eq!(found.owner(), ImageId::new(2));
    assert_eq!(found.address().get(), 0x2001);
    assert_eq!(found.canonical().get(), 0x2000);
    assert_eq!(found.region(), SymbolRegionKind::Executable);
    let own = scopes.resolve_name(&tables, ImageId::new(1), b"own").expect("found");
    assert_eq!(own.address().get(), 0x1100);
    assert!(scopes.resolve_name(&tables, ImageId::new(0), b"hidden").is_none());
    assert!(scopes.resolve_name(&tables, ImageId::new(0), b"absent").is_none());
    assert_eq!(
        scopes.resolve_index(&tables, ImageId::new(1), 2).expect("found").address().get(),
        0x1200
    );
    assert!(scopes.resolve_index(&tables, ImageId::new(1), 3).is_none());
    assert_eq!(scopes.system().ordered_images(), &[ImageId::new(1), ImageId::new(2)]);
    assert!(ScopeSet::freeze(&graph, &vec![&app]).is_err());
}

fn region(base: u64, vaddr: u64, len: u64, offset: u64, permissions: MemoryPermissions) -> LoadedRegion {
    LoadedRegion::new(
        TargetRange::new(TargetAddr::new(vaddr), len),
        TargetRange::new(TargetAddr::new(base + vaddr), len),
        FileRange::new(0, 0),
        offset,
        permissions,
    )
}

fn code_and_data(base: u64) -> (Vec<LoadedRegion>, Vec<LoadSegmentInfo>) {
    let code = MemoryPermissions::read().bitor(MemoryPermissions::execute());
    let data = MemoryPermissions::read().bitor(MemoryPermissions::write());
    (
        vec![region(base, 0, 0x100, 0, code), region(base, 0x100, 0x100, 0x100, data)],
        vec![
            LoadSegmentInfo::new(0, FileRange::new(0, 0), TargetAddr::new(0), 0x100, 1, code),
            LoadSegmentInfo::new(1, FileRange::new(0, 0), TargetAddr::new(0x100), 0x100, 1, data),
        ],
    )
}

#[test]
fn constructors_run_providers_first_and_destructors_last() {
    let mut memory = VirtualMemory::default();
    memory
        .allocate_image(AllocationRequest::new(Placement::Anywhere, 0x200, 0x1000))
        .expect("memory");
    let words = [VIRTUAL_BASE + 0x10, 0, u64::MAX, VIRTUAL_BASE + 0x20];
    for (index, value) in words.iter().enumerate() {
        memory
            .write(AllocationOffset::new(0x100 + 8 * index as u64), &value.to_le_bytes())
            .expect("write");
    }
    let (regions, segments) = code_and_data(VIRTUAL_BASE);
    let array = TargetRange::new(TargetAddr::new(0x100), 32);
    let whole = ImageLifecycleMetadata::new(
        Some(TargetAddr::new(0x4)),
        Some(TargetAddr::new(0x8)),
        None,
        Some(array),
        Some(array),
    );
    let graph = graph(&["liba"]);
    let profile = LoadProfile::riscv64(ElfType::Dyn);
    let images: Vec<LifecycleImage<'_, VirtualMemory>> = (0..2)
        .map(|id| {
            LifecycleImage::new(
                ImageId::new(id),
                &memory,
                &regions,
                &segments,
                whole,
                TargetAddr::new(VIRTUAL_BASE),
            )
        })
        .collect();
    let (init, fini) = build(&graph, &images, &profile).expect("plans");
    let shown = |entries: &[blueos_loader::dynamic_linker::lifecycle::LifecycleEntry]| {
        entries
            .iter()
            .map(|entry| (entry.owner().get(), entry.function().get() - VIRTUAL_BASE))
            .collect::<Vec<(u32, u64)>>()
    };
    assert_eq!(
        shown(init.entries()),
        vec![(1, 0x4), (1, 0x10), (1, 0x20), (0, 0x4), (0, 0x10), (0, 0x20)]
    );
    assert_eq!(
        shown(fini.entries()),
        vec![(0, 0x20), (0, 0x10), (0, 0x8), (1, 0x20), (1, 0x10), (1, 0x8)]
    );
    // A function outside the code is refused.
    memory
        .write(AllocationOffset::new(0x100), &(VIRTUAL_BASE + 0x110).to_le_bytes())
        .expect("write");
    let broken = vec![
        LifecycleImage::new(
            ImageId::new(0),
            &memory,
            &regions,
            &segments,
            whole,
            TargetAddr::new(VIRTUAL_BASE),
        ),
        LifecycleImage::new(
            ImageId::new(1),
            &memory,
            &regions,
            &segments,
            whole,
            TargetAddr::new(VIRTUAL_BASE),
        ),
    ];
    assert_eq!(build(&graph, &broken, &profile).unwrap_err().kind(), LoadErrorKind::BadElf);
}

fn put(file: &mut [u8], at: usize, bytes: &[u8]) {
    file[at..at + bytes.len()].copy_from_slice(bytes);
}

/// A shared object of one segment that takes up `memory_size` bytes.
fn shared_object(memory_size: u64) -> &'static [u8] {
    let mut file = vec![0u8; 0x200];
    put(&mut file, 0, b"\x7fELF\x02\x01\x01");
    put(&mut file, 16, &ET_DYN.to_le_bytes());
    put(&mut file, 18, &EM_RISCV.to_le_bytes());
    put(&mut file, 20, &1u32.to_le_bytes());
    put(&mut file, 24, &0x180u64.to_le_bytes());
    put(&mut file, 32, &64u64.to_le_bytes());
    put(&mut file, 52, &64u16.to_le_bytes());
    put(&mut file, 54, &56u16.to_le_bytes());
    put(&mut file, 56, &1u16.to_le_bytes());
    put(&mut file, 58, &64u16.to_le_bytes());
    put(&mut file, 64, &PT_LOAD.to_le_bytes());
    put(&mut file, 68, &(PF_R | PF_X).to_le_bytes());
    put(&mut file, 96, &0x200u64.to_le_bytes());
    put(&mut file, 104, &memory_size.to_le_bytes());
    put(&mut file, 112, &0x1000u64.to_le_bytes());
    put(&mut file, 0x180, &[0x13, 0, 0, 0]);
    Box::leak(file.into_boxed_slice())
}

/// Finds every library, except those that are said to be missing.
struct Libraries {
    asked: Vec<(Vec<u8>, LinkDomainId)>,
    missing: Vec<u8>,
}

impl ArtifactResolver for Libraries {
    type Reader = SliceElfReader<'static>;

    fn answers(
        &self,
        _after: Self,
        _request: DependencyRequest,
        _answer: LoadResult<ResolvedArtifact<Self::Reader>>,
    ) -> bool {
        unreachable!()
    }

    fn resolve(&mut self, request: &DependencyRequest) -> LoadResult<ResolvedArtifact<Self::Reader>> {
        let needed = request.needed().as_bytes().to_vec();
        self.asked.push((needed.clone(), request.domain()));
        if needed == self.missing {
            return Err(LoadError::new(LoadErrorKind::Io, ErrorContext::Nothing));
        }
        let size = if needed == b"liba" { 0x1200 } else { 0x2200 };
        Ok(ResolvedArtifact::new(
            ArtifactIdentity::new(FileIdentity::from_bytes(&needed), 1, None),
            ImageOwnership::SystemCandidate,
            SliceElfReader::new(shared_object(size)),
        ))
    }
}

/// Decodes the root, then liba, which needs libb, then libb, which needs liba.
struct Decoded(Vec<ArtifactRole>);

impl RuntimeDecoder for Decoded {
    fn decodes(
        &self,
        _after: Self,
        _mapped: MappedView,
        _content: ImageBytes,
        _terms: RuntimeTerms,
        _outcome: LoadResult<RuntimeImageMetadata>,
    ) -> bool {
        unreachable!()
    }

    fn decode<M: ImageMemory>(
        &mut self,
        memory: &M,
        mapped: &MappedState,
        terms: &RuntimeTerms,
    ) -> LoadResult<RuntimeImageMetadata> {
        self.0.push(terms.role);
        // The image is in memory when it is decoded.
        assert_eq!(memory.read(AllocationOffset::new(0x180), 4), Ok(vec![0x13, 0, 0, 0]));
        assert_eq!(mapped.regions().len(), 1);
        let (soname, needed) = match self.0.len() {
            1 => (None, "liba"),
            2 => (Some("liba"), "libb"),
            _ => (Some("libb"), "liba"),
        };
        Ok(RuntimeImageMetadata::new(
            RuntimeDynamicInfo::empty(),
            vec![name(needed)],
            soname.map(name),
            SymbolTable::empty(),
            RelocationTables::empty(),
            ImageLifecycleMetadata::empty(),
            ProgramHeaderRuntimeInfo,
        ))
    }
}

fn root() -> ResolvedArtifact<SliceElfReader<'static>> {
    ResolvedArtifact::new(
        identity("app"),
        ImageOwnership::SessionPrivate,
        SliceElfReader::new(shared_object(0x200)),
    )
}

fn begun(decoder: &mut Decoded) -> (BuildingSession, VirtualMemory) {
    let linker = DynamicLinker::new(Riscv64Relocator, LoadPolicy::phase0());
    let profile = LoadProfile::riscv64(ElfType::Dyn);
    let memory = VirtualMemory::default();
    match linker.begin(root(), profile, LinkDomainId::new(3), limits(), memory, decoder) {
        (Ok(session), memory) => (session, memory),
        (Err(failed), _) => panic!("{:?}", failed.error),
    }
}

#[test]
fn sessions_load_every_dependency_once() {
    let mut decoder = Decoded(Vec::new());
    let mut libraries = Libraries { asked: Vec::new(), missing: Vec::new() };
    let (mut session, memory) = begun(&mut decoder);
    let (closed, memory) = session.close_dependencies(&mut libraries, memory, &mut decoder);
    assert_eq!(closed, Ok(()));
    assert_eq!(session.graph.image_count(), 3);
    assert_eq!(session.graph.edge_count(), 3);
    assert_eq!(
        decoder.0,
        vec![
            ArtifactRole::ExecutableRoot,
            ArtifactRole::SharedObject,
            ArtifactRole::SharedObject
        ]
    );
    // The resolver is asked for every needed name, in the domain of the session.
    let domain = LinkDomainId::new(3);
    assert_eq!(
        libraries.asked,
        vec![(b"liba".to_vec(), domain), (b"libb".to_vec(), domain), (b"liba".to_vec(), domain)]
    );
    // The root is where its allocation is.
    let image = &session.state.images[0];
    assert_eq!(image.state.load_bias().get(), VIRTUAL_BASE);
    assert_eq!(image.state.runtime_entry().get(), VIRTUAL_BASE + 0x180);
    assert_eq!(image.state.regions().len(), 1);
    // Closing a closed session does nothing.
    let (closed, _) = session.close_dependencies(&mut libraries, memory, &mut decoder);
    assert_eq!(closed, Ok(()));
    assert_eq!(libraries.asked.len() as u64, session.metrics.resolver_calls());
    assert_eq!(session.metrics.images(), 3);
    assert_eq!(session.metrics.max_depth(), 2);
    let scoped = match session.freeze_scopes() {
        Ok(scoped) => scoped,
        Err(failed) => panic!("{:?}", failed.error),
    };
    // What was allocated last is given up first.
    let sizes: Vec<u64> = scoped.abandon().iter().map(|lease| lease.allocation().len()).collect();
    assert_eq!(sizes, vec![0x3000, 0x2000, 0x1000]);
}

#[test]
fn sessions_fail_when_a_library_is_missing() {
    let mut decoder = Decoded(Vec::new());
    let mut libraries = Libraries { asked: Vec::new(), missing: b"libb".to_vec() };
    let (mut session, memory) = begun(&mut decoder);
    let (closed, memory) = session.close_dependencies(&mut libraries, memory, &mut decoder);
    let error = closed.unwrap_err();
    assert_eq!(error.kind(), LoadErrorKind::Io);
    assert_eq!(error.stage(), Some(LoadStage::Discover));
    assert_eq!(session.abandon().len(), 2);
    // A machine that the linker does not serve is refused at once.
    let linker = DynamicLinker::new(Riscv64Relocator, LoadPolicy::phase0());
    let arm = LoadProfile::arm_thumb_soft_float(ElfType::Dyn);
    match linker.begin(root(), arm, LinkDomainId::new(1), limits(), memory, &mut decoder).0 {
        Ok(_) => panic!("expected a failure"),
        Err(failed) => {
            assert_eq!(failed.error.kind(), LoadErrorKind::UnsupportedByProfile);
            assert!(failed.abandoned.is_empty());
        }
    }
}

#[test]
fn images_that_cannot_be_loaded_leave_nothing() {
    let mut decoder = Decoded(Vec::new());
    let terms = RuntimeTerms {
        profile: LoadProfile::riscv64(ElfType::Dyn),
        role: ArtifactRole::SharedObject,
        policy: LoadPolicy::phase0(),
        limits: LoadLimits::default_limits(),
    };
    let reader = SliceElfReader::new(b"no elf");
    let (loaded, memory) = load_runtime(reader, &terms, VirtualMemory::default(), &mut decoder);
    let error = match loaded {
        Ok(_) => panic!("expected a failure"),
        Err(error) => error,
    };
    assert_eq!(error.kind(), LoadErrorKind::BadElf);
    assert_eq!(error.stage(), Some(LoadStage::Admit));
    assert!(memory.allocation().is_err());
    // A file for another machine is refused as well.
    let arm = RuntimeTerms { profile: LoadProfile::arm_thumb_soft_float(ElfType::Dyn), ..terms };
    let reader = SliceElfReader::new(shared_object(0x200));
    let (loaded, memory) = load_runtime(reader, &arm, memory, &mut decoder);
    assert_eq!(loaded.err().map(|error| error.kind()), Some(LoadErrorKind::UnsupportedByProfile));
    assert!(memory.allocation().is_err());
    assert!(decoder.0.is_empty());
}

#[test]
fn open_sessions_have_no_scopes() {
    let mut decoder = Decoded(Vec::new());
    let (session, _) = begun(&mut decoder);
    match session.freeze_scopes() {
        Ok(_) => panic!("expected a failure"),
        Err(failed) => assert_eq!(failed.abandoned.len(), 1),
    }
}

#[test]
fn link_maps_name_every_image() {
    let graph = graph(&["liba"]);
    let (app, _) = code_and_data(0x1_0000);
    let (library, _) = code_and_data(0x2_0000);
    assert_eq!(image_span(&app), Ok(TargetRange::new(TargetAddr::new(0x1_0000), 0x200)));
    assert!(image_span(&Vec::new()).is_err());
    let images = vec![
        LinkMapImage::new(
            ImageId::new(0),
            TargetAddr::new(0x1_0000),
            TargetAddr::new(0x1_0010),
            &app,
        ),
        LinkMapImage::new(
            ImageId::new(1),
            TargetAddr::new(0x2_0000),
            TargetAddr::new(0x2_0010),
            &library,
        ),
    ];
    let manifest = build_manifest(&graph, &images).unwrap_or_else(|error| panic!("{:?}", error));
    assert_eq!(manifest.entry().get(), 0x1_0010);
    let map = manifest.link_map();
    assert_eq!(map.len(), 2);
    assert_eq!(map[0].entry(), Some(TargetAddr::new(0x1_0010)));
    assert_eq!(map[1].entry(), None);
    assert_eq!(map[1].soname().expect("name").as_bytes(), b"liba");
    assert_eq!(map[1].map_span().start().get(), 0x2_0000);
    // A link without its root has no entry.
    let headless = vec![LinkMapImage::new(
        ImageId::new(1),
        TargetAddr::new(0x2_0000),
        TargetAddr::new(0x2_0010),
        &library,
    )];
    assert!(build_manifest(&graph, &headless).is_err());
}

#[test]
fn libraries_know_their_group_and_what_they_need() {
    // liba and libb need each other, libb needs libc twice, libc needs nothing.
    let mut graph = graph(&["liba", "libb", "libc"]);
    for (requester, provider) in [(1, 2), (2, 1), (2, 3), (2, 3)] {
        graph
            .link_existing(ImageId::new(requester), ImageId::new(provider), 0)
            .expect("edge");
    }
    let text = |names: &[DependencyName]| -> Vec<String> {
        names
            .iter()
            .map(|name| String::from_utf8(name.as_bytes().to_vec()).expect("text"))
            .collect()
    };
    let relations = library_relations(&graph);
    assert_eq!(relations.len(), 4);
    assert_eq!(text(&relations[0].dependency_names), vec!["liba", "libb", "libc"]);
    assert!(relations[0].scc_members.is_empty());
    assert!(relations[1].dependency_names.is_empty());
    assert_eq!(text(&relations[1].scc_members), vec!["liba", "libb"]);
    assert_eq!(text(&relations[2].dependency_names), vec!["libc"]);
    assert_eq!(text(&relations[2].scc_members), vec!["liba", "libb"]);
    assert!(relations[3].dependency_names.is_empty());
    assert_eq!(text(&relations[3].scc_members), vec!["libc"]);
}

#[test]
fn links_are_taken_out_of_their_group_once() {
    let mut group = ThreadGroupBackend::new().create_group();
    assert!(group.take_link_product().is_none());
    let images = graph(&[]);
    let scopes = ScopeSet {
        application: SymbolScope { ordered_images: Vec::new() },
        system: SymbolScope { ordered_images: Vec::new() },
        per_image: Vec::new(),
    };
    let metrics = LoadMetrics {
        resolver_calls: 0,
        images: 1,
        edges: 0,
        max_depth: 0,
        symbol_lookups: 0,
        hash_probes: 0,
        relocation_operations: 0,
        protection_ranges: 0,
        cache_ranges: 0,
    };
    let product = LinkProduct::new(
        LinkContext::new(images, scopes, Vec::new()),
        TargetAddr::new(0x40),
        InitPlan(Vec::new()),
        FiniPlan(Vec::new()),
        Vec::new(),
        metrics,
        KernelLinkReceipt { private_allocations: Vec::new(), system_allocations: Vec::new() },
    );
    group.install_link_product(product).expect("linked");
    assert_eq!(group.state(), GroupState::Linked);
    let taken = group.take_link_product().expect("a link");
    assert_eq!(taken.entry().get(), 0x40);
    assert_eq!(group.state(), GroupState::New);
    assert!(group.take_link_product().is_none());
    // The same through the table of applications.
    let mut manager = ApplicationManager::new();
    let request = OwnedLaunchRequest::new(ExecutionModel::ThreadGroup, b"app".to_vec());
    let handle = manager.launch(request, |_| Ok(())).expect("launched");
    assert!(manager.install_link_product(handle, taken).is_ok());
    assert_eq!(manager.group(handle).expect("group").state(), GroupState::Linked);
    assert_eq!(manager.take_link_product(handle).expect("a link").entry().get(), 0x40);
    assert!(manager.take_link_product(handle).is_none());
    // A link that is refused comes back, and a launch that is cancelled with it gives
    // the memory of its images back.
    let refused = |entry: u64| {
        LinkProduct::new(
            LinkContext::new(
                graph(&[]),
                ScopeSet {
                    application: SymbolScope { ordered_images: Vec::new() },
                    system: SymbolScope { ordered_images: Vec::new() },
                    per_image: Vec::new(),
                },
                Vec::new(),
            ),
            TargetAddr::new(entry),
            InitPlan(Vec::new()),
            FiniPlan(Vec::new()),
            Vec::new(),
            metrics,
            KernelLinkReceipt {
                private_allocations: vec![AllocationLease::new(ImageAllocation::new(
                    TargetAddr::new(0x7000),
                    16,
                    8,
                ))],
                system_allocations: Vec::new(),
            },
        )
    };
    assert!(manager.install_link_product(handle, refused(0x50)).is_ok());
    let Err(back) = manager.install_link_product(handle, refused(0x60)) else {
        panic!("expected a refusal");
    };
    assert_eq!(back.error, ApplicationLaunchError::PrepareFailed);
    assert_eq!(back.product.entry().get(), 0x60);
    let mut registry = SystemDsoRegistry::<u32>::new();
    let memory = LaunchedApplication::new(handle).cancel(&mut registry, Some(back.product));
    assert_eq!(memory.len(), 1);
    assert_eq!(memory[0].allocation().base().get(), 0x7000);
    manager.release(handle).expect("released");
    let Err(stale) = manager.install_link_product(handle, refused(0x70)) else {
        panic!("expected a refusal");
    };
    assert_eq!(stale.error, ApplicationLaunchError::StaleGeneration);
}
