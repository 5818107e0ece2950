//! From an admitted artifact to a sealed image.

use blueos_loader::address::{TargetAddr, TargetRange};
use blueos_loader::cache::CodeCache;
use blueos_loader::elf::{
    ElfHeaderInfo, DT_NEEDED, DT_NULL, DT_RELA, DT_RELAENT, DT_RELASZ, PF_R, PF_W, PF_X,
    PT_DYNAMIC, PT_GNU_RELRO, PT_INTERP, PT_LOAD, R_RISCV_64, R_RISCV_RELATIVE,
};
use blueos_loader::error::{LoadError, LoadErrorKind, LoadResult, LoadStage};
use blueos_loader::identity::{ElfClass, ElfData, ElfMachine, EntryMode};
use blueos_loader::image::parser::ImageLoader;
use blueos_loader::image::prepare::prepare_image;
use blueos_loader::image::protection::{PreparedProtectionPlan, ProtectionCapabilities, ProtectionLevel};
use blueos_loader::limits::LoadLimits;
use blueos_loader::memory::{
    AllocationOffset, AllocationRequest, ImageMemory, MutationProgress, Placement,
};
use blueos_loader::memory_mapper::MemoryMapper;
use blueos_loader::permissions::MemoryPermissions;
use blueos_loader::reader::{ElfReader, SliceElfReader};
use blueos_loader::relocation::arm::ArmRelocator;
use blueos_loader::relocation::riscv::Riscv64Relocator;
use blueos_loader::request::{AdmittedArtifact, ArtifactProfile, ArtifactRequest, ExpectedElfType};
use blueos_loader::virtual_memory::{bytes_needed, VirtualMemory, FRESH_BYTE, VIRTUAL_BASE};

#[derive(Default)]
struct Notes(Vec<TargetRange>);

impl CodeCache for Notes {
    fn visible(&self, _range: TargetRange) -> bool {
        true
    }

    fn accepts(&self, _range: TargetRange) -> bool {
        true
    }

    fn refuses(&self, _range: TargetRange, _error: LoadError) -> bool {
        true
    }

    fn synchronize(&mut self, runtime_range: TargetRange) -> LoadResult<()> {
        self.0.push(runtime_range);
        Ok(())
    }
}

fn put(file: &mut [u8], at: usize, bytes: &[u8]) {
    file[at..at + bytes.len()].copy_from_slice(bytes);
}

fn word(file: &mut [u8], at: usize, value: u64) {
    put(file, at, &value.to_le_bytes());
}

/// Writes program header `index`: type, flags, offset, address, file size, memory
/// size and alignment.
fn segment(file: &mut [u8], index: usize, fields: [u64; 7]) {
    let at = 64 + 56 * index;
    put(file, at, &(fields[0] as u32).to_le_bytes());
    put(file, at + 4, &(fields[1] as u32).to_le_bytes());
    word(file, at + 8, fields[2]);
    word(file, at + 16, fields[3]);
    word(file, at + 32, fields[4]);
    word(file, at + 40, fields[5]);
    word(file, at + 48, fields[6]);
}

const RX: u64 = (PF_R | PF_X) as u64;

const RW: u64 = (PF_R | PF_W) as u64;

/// Code up to 0x200, data from 0x1200 on whose first 0x80 bytes are read-only
/// after relocation. The word at 0x12c0 is relocated.
fn artifact_file() -> Vec<u8> {
    let mut file = vec![0u8; 0x300];
    segment(&mut file, 0, [PT_LOAD as u64, RX, 0, 0, 0x200, 0x200, 0x1000]);
    segment(&mut file, 1, [PT_LOAD as u64, RW, 0x200, 0x1200, 0x100, 0x180, 0x1000]);
    segment(&mut file, 2, [PT_DYNAMIC as u64, RW, 0x200, 0x1200, 0x40, 0x40, 8]);
    segment(&mut file, 3, [PT_GNU_RELRO as u64, PF_R as u64, 0x200, 0x1200, 0x80, 0x80, 1]);
    word(&mut file, 0x200, DT_RELA);
    word(&mut file, 0x208, 0x1280);
    word(&mut file, 0x210, DT_RELASZ);
    word(&mut file, 0x218, 24);
    word(&mut file, 0x220, DT_RELAENT);
    word(&mut file, 0x228, 24);
    word(&mut file, 0x230, DT_NULL);
    word(&mut file, 0x280, 0x12c0);
    word(&mut file, 0x288, R_RISCV_RELATIVE as u64);
    word(&mut file, 0x290, 0x180);
    file
}

fn admitted(file: &[u8]) -> AdmittedArtifact<SliceElfReader<'_>> {
    let profile = ArtifactProfile::new(
        ElfClass::Elf64,
        ElfData::Little,
        ElfMachine::Riscv,
        EntryMode::Compressed,
        0x1000,
    );
    AdmittedArtifact::new(
        SliceElfReader::new(file),
        ElfHeaderInfo {
            class: ElfClass::Elf64,
            endian: ElfData::Little,
            machine: ElfMachine::Riscv,
            entry: 0x180,
            program_header_offset: 64,
            program_header_entry_size: 56,
            program_header_count: 4,
        },
        ArtifactRequest::new(ExpectedElfType::Dyn, profile, LoadLimits::phase0_mcu()),
        file.len() as u64,
    )
}

fn failure(file: &[u8]) -> (Option<LoadStage>, LoadErrorKind) {
    let mut cache = Notes::default();
    match prepare_image(admitted(file), VirtualMemory::default(), &mut cache, &Riscv64Relocator) {
        Ok(_) => panic!("expected a failure"),
        Err(failed) => {
            assert!(failed.memory.allocation.is_none());
            (failed.error.stage(), failed.error.kind())
        }
    }
}

#[test]
fn artifacts_are_relocated_and_sealed() {
    let file = artifact_file();
    let mut cache = Notes::default();
    let image = match prepare_image(
        admitted(&file),
        VirtualMemory::default(),
        &mut cache,
        &Riscv64Relocator,
    ) {
        Ok(image) => image,
        Err(failed) => panic!("{:?}", failed.error),
    };
    let sealed = image.state();
    assert_eq!(sealed.load_bias().get(), VIRTUAL_BASE);
    assert_eq!(sealed.entry().get(), VIRTUAL_BASE + 0x180);
    assert_eq!(sealed.canonical_entry().get(), VIRTUAL_BASE + 0x180);
    assert_eq!(sealed.entry_instruction_span(), 2);
    assert_eq!(sealed.protection(), ProtectionLevel::LogicalOnly);
    let memory = image.transaction.memory();
    let relocated = memory.read(AllocationOffset::new(0x12c0), 8).unwrap();
    assert_eq!(relocated, (VIRTUAL_BASE + 0x180).to_le_bytes().to_vec());
    // The data beyond the file is zero.
    assert_eq!(memory.read(AllocationOffset::new(0x1300), 0x80), Ok(vec![0; 0x80]));
    // The parts follow one another, and no part is writable and executable.
    let parts = sealed.seal_plan().ranges();
    let mut next = VIRTUAL_BASE;
    for part in parts {
        assert_eq!(part.runtime_range().start().get(), next);
        next = part.runtime_range().end().unwrap().get();
        let open = MemoryPermissions::write().bitor(MemoryPermissions::execute());
        assert!(!part.permissions().contains(open));
    }
    assert_eq!(next, VIRTUAL_BASE + sealed.allocation().len());
    // What is read-only after relocation cannot be written.
    let protected = parts
        .iter()
        .find(|part| part.runtime_range().contains_span(TargetAddr::new(VIRTUAL_BASE + 0x1200), 0x80))
        .expect("a part");
    assert_eq!(protected.permissions(), MemoryPermissions::read());
    // Only the code was made visible.
    assert_eq!(cache.0, vec![TargetRange::new(TargetAddr::new(VIRTUAL_BASE), 0x200)]);
    assert_eq!(sealed.cache_sync().ranges(), cache.0.as_slice());
    assert_eq!(sealed.protections().ranges().len(), parts.len());
    // Whoever gives the image up gets empty memory back.
    let left = image.abandon();
    assert!(left.allocation.is_none());
}

#[test]
fn faulty_artifacts_fail_in_their_stage() {
    let mut interpreted = artifact_file();
    segment(&mut interpreted, 3, [PT_INTERP as u64, PF_R as u64, 0x100, 0x100, 8, 8, 1]);
    assert_eq!(
        failure(&interpreted),
        (Some(LoadStage::Validate), LoadErrorKind::UnsupportedByProfile)
    );
    let mut long = artifact_file();
    segment(&mut long, 1, [PT_LOAD as u64, RW, 0x200, 0x1200, 0x101, 0x180, 0x1000]);
    assert_eq!(failure(&long).1, LoadErrorKind::OutOfBounds);
    let mut needy = artifact_file();
    word(&mut needy, 0x210, DT_NEEDED);
    assert_eq!(failure(&needy).0, Some(LoadStage::Metadata));
    let mut symbolic = artifact_file();
    word(&mut symbolic, 0x288, R_RISCV_64 as u64);
    assert_eq!(failure(&symbolic).0, Some(LoadStage::Relocate));
    let mut outside = artifact_file();
    word(&mut outside, 0x280, 0x4000);
    assert_eq!(failure(&outside).0, Some(LoadStage::Relocate));
}

#[test]
fn relocators_serve_their_machine() {
    let file = artifact_file();
    let mut cache = Notes::default();
    match prepare_image(admitted(&file), VirtualMemory::default(), &mut cache, &ArmRelocator) {
        Ok(_) => panic!("expected a failure"),
        Err(failed) => assert_eq!(failed.error.stage(), Some(LoadStage::Relocate)),
    }
    assert!(cache.0.is_empty());
}

#[test]
fn changed_files_are_noticed() {
    let file = artifact_file();
    let mut artifact = admitted(&file);
    assert!(artifact.ensure_snapshot().is_ok());
    artifact.file_len += 1;
    assert_eq!(artifact.ensure_snapshot().unwrap_err().kind(), LoadErrorKind::SourceChanged);
}

#[test]
fn stages_can_be_taken_one_by_one() {
    let file = artifact_file();
    let planned = match ImageLoader::new().plan(admitted(&file)) {
        Ok(planned) => planned,
        Err(error) => panic!("{:?}", error),
    };
    let layout = planned.layout();
    assert_eq!(layout.image_span(), 0x2000);
    assert_eq!(layout.max_align(), 0x1000);
    assert_eq!(layout.aligned_min_vaddr(), TargetAddr::new(0));
    assert_eq!(layout.segments().len(), 2);
    let found = layout
        .locate_vaddr_range(TargetAddr::new(0x1210), 8, MemoryPermissions::write())
        .unwrap();
    assert_eq!((found.segment_index(), found.offset_in_segment()), (1, 0x10));
    assert!(layout
        .locate_vaddr_range(TargetAddr::new(0x1f8), 0x10, MemoryPermissions::read())
        .is_err());
    assert_eq!(
        layout.load_bias_for(TargetAddr::new(0x5000), ExpectedElfType::Dyn),
        Ok(TargetAddr::new(0x5000))
    );
    assert!(layout.load_bias_for(TargetAddr::new(0x5000), ExpectedElfType::Exec).is_err());
    let reserved = match planned.reserve(VirtualMemory::default()) {
        Ok(reserved) => reserved,
        Err(failed) => panic!("{:?}", failed.error),
    };
    assert_eq!(
        reserved.transaction.memory().read(AllocationOffset::new(0x200), 4),
        Ok(vec![FRESH_BYTE; 4])
    );
    assert_eq!(reserved.transaction.progress, MutationProgress::Reserved);
    let mapped = match reserved.copy_and_zero() {
        Ok(mapped) => mapped,
        Err(failed) => panic!("{:?}", failed.error),
    };
    // Memory of its own holds nothing between the segments.
    assert_eq!(
        mapped.transaction.memory().read(AllocationOffset::new(0x200), 4),
        Ok(vec![0; 4])
    );
    let state = mapped.state();
    assert_eq!(state.regions().len(), 2);
    assert_eq!(
        state.runtime_address(TargetAddr::new(0x180), 4, MemoryPermissions::execute()),
        Ok(TargetAddr::new(VIRTUAL_BASE + 0x180))
    );
    assert!(state
        .locate_vaddr(TargetAddr::new(0x180), 4, MemoryPermissions::write())
        .is_err());
    // Granules that two parts share cannot be protected.
    let plan = blueos_loader::image::seal::SealPlan::build(state).unwrap();
    let allocation = *state.allocation();
    assert!(PreparedProtectionPlan::build(&allocation, &plan, ProtectionCapabilities::new(1, 16))
        .is_ok());
    assert!(PreparedProtectionPlan::build(
        &allocation,
        &plan,
        ProtectionCapabilities::new(0x1000, 16)
    )
    .is_err());
    assert!(PreparedProtectionPlan::build(&allocation, &plan, ProtectionCapabilities::new(1, 1))
        .is_err());
}

#[test]
fn memory_gives_back_what_was_written() {
    let mut memory = MemoryMapper::new(None);
    assert_eq!(memory.allocation().unwrap_err().kind(), LoadErrorKind::NotAllocated);
    let lease = memory
        .allocate_image(AllocationRequest::new(Placement::Anywhere, 0x100, 0x1000))
        .expect("memory");
    assert_eq!(lease.allocation().base().get() % 0x1000, 0);
    // The bytes lie where the allocation says.
    let base = memory.storage.as_ptr() as usize as u64 + memory.skipped as u64;
    assert_eq!(lease.allocation().base().get(), base);
    memory.write(AllocationOffset::new(0x10), &[1, 2, 3]).expect("write");
    memory.zero(AllocationOffset::new(0x11), 1).expect("zero");
    assert_eq!(memory.read(AllocationOffset::new(0xf), 5), Ok(vec![0, 1, 0, 3, 0]));
    assert!(memory.write(AllocationOffset::new(0xfe), &[1, 2, 3]).is_err());
    assert!(memory.read(AllocationOffset::new(0x100), 1).is_err());
    assert_eq!(
        memory.image_span(AllocationOffset::new(0x20), 4),
        Ok(TargetAddr::new(base + 0x20))
    );
    // One image at a time.
    assert!(memory
        .allocate_image(AllocationRequest::new(Placement::Anywhere, 0x100, 0x1000))
        .is_err());
    memory.abort_image(lease, MutationProgress::BytesModified);
    assert!(memory.allocation().is_err());
    assert!(memory
        .allocate_image(AllocationRequest::new(Placement::Anywhere, 0x100, 3))
        .is_err());
}

#[test]
fn mappers_adopt_the_storage_that_they_need() {
    let request = AllocationRequest::new(Placement::Anywhere, 0x100, 0x1000);
    let mut memory = MemoryMapper::new(None);
    assert_eq!(memory.storage_needed(&request), Some(0x10ff));
    assert_eq!(
        memory.storage_needed(&AllocationRequest::new(Placement::Anywhere, 0x100, 3)),
        None
    );
    // No storage, or storage at the end of all addresses.
    let error = memory.adopt_storage(request, None).unwrap_err();
    assert_eq!((error.stage(), error.kind()), (None, LoadErrorKind::OutOfMemory));
    let error = memory.adopt_storage(request, Some((vec![0; 0x10ff], u64::MAX))).unwrap_err();
    assert_eq!(error.kind(), LoadErrorKind::OutOfMemory);
    assert!(memory.allocation().is_err());
    // The image starts at the first aligned address.
    let lease = memory.adopt_storage(request, Some((vec![0; 0x10ff], 0x7ff1))).expect("storage");
    assert_eq!(lease.allocation().base().get(), 0x8000);
    assert_eq!((lease.allocation().len(), memory.skipped), (0x100, 0xf));
    assert_eq!(memory.read(AllocationOffset::new(0xff), 1), Ok(vec![0]));
    // One image at a time.
    assert_eq!(memory.storage_needed(&request), None);
    assert!(memory.adopt_storage(request, None).is_err());
}

#[test]
fn virtual_memory_adopts_the_bytes_that_it_needs() {
    let request = AllocationRequest::new(Placement::Anywhere, 0x20, 0x10);
    assert_eq!(bytes_needed(&request), Some(0x20));
    let endless = AllocationRequest::new(Placement::Anywhere, u64::MAX, 0x10);
    assert_eq!(bytes_needed(&endless), None);
    let mut memory = VirtualMemory::default();
    let error = memory.adopt_bytes(request, None).unwrap_err();
    assert_eq!(
        (error.stage(), error.kind()),
        (Some(LoadStage::Allocate), LoadErrorKind::OutOfMemory)
    );
    assert!(memory.adopt_bytes(endless, Some(Vec::new())).is_err());
    let lease = memory.adopt_bytes(request, Some(Vec::new())).expect("bytes");
    assert_eq!(lease.allocation().base().get(), VIRTUAL_BASE);
    assert_eq!(memory.read(AllocationOffset::new(0), 0x20), Ok(vec![FRESH_BYTE; 0x20]));
}

#[test]
fn readers_stay_in_their_bytes() {
    let reader = SliceElfReader::new(&[1, 2, 3, 4]);
    assert_eq!(reader.len(), Ok(4));
    assert_eq!(reader.read_exact_at(1, 2), Ok(vec![2, 3]));
    assert_eq!(reader.read_exact_at(4, 0), Ok(Vec::new()));
    assert!(reader.read_exact_at(3, 2).is_err());
    assert!(reader.read_exact_at(u64::MAX, 1).is_err());
}
