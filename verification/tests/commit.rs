//! Committing a sealed image, and the parts of parsing that need no file.

use blueos_loader::address::{TargetAddr, TargetRange};
use blueos_loader::cache::CodeCache;
use blueos_loader::elf::{
    ElfHeaderInfo, DT_FLAGS, DT_NULL, DT_RELA, DT_RELAENT, DT_RELASZ,
    DT_TEXTREL, PF_R, PF_X, PT_DYNAMIC, PT_LOAD,
};
use blueos_loader::error::{
    ErrorContext, LoadError, LoadErrorKind, LoadResult, LoadStage, ProgramHeaderField,
};
use blueos_loader::identity::{
    ElfClass, ElfData, ElfMachine, ElfType, EntryMode, LoadLimits as RequestLimits, LoadProfile,
    LoadRequest,
};
use blueos_loader::image::admission::admit_image;
use blueos_loader::image::parser::{read_program_header, ImageLoader, ParsedImage};
use blueos_loader::image::prepare::prepare_image;
use blueos_loader::image::protection::{
    ImageProtectionMemory, PreparedProtectionPlan, ProtectionBatch, ProtectionBehavior,
    ProtectionCapabilities, ProtectionLevel, ProtectionRecord,
};
use blueos_loader::image::records::{
    collect_tags, decode_dynamic_entry, decode_relocation_entry, RelocationAddend,
    RelocationTableKind, TagRules,
};
use blueos_loader::image::sealed::{ImageCommitMemory, SealedState};
use blueos_loader::limits::LoadLimits;
use blueos_loader::memory::{
    AllocationId, AllocationLease, AllocationOffset, AllocationRequest, ImageAllocation, ImageBytes,
    ImageMemory, MemoryNumber, MutationProgress, Placement, TargetLocation,
};
use blueos_loader::memory_mapper::image_base;
use blueos_loader::permissions::MemoryPermissions;
use blueos_loader::reader::SliceElfReader;
use blueos_loader::relocation::riscv::Riscv64Relocator;
use blueos_loader::request::{AdmittedArtifact, ArtifactProfile, ArtifactRequest, ExpectedElfType};
use blueos_loader::virtual_memory::VirtualMemory;

struct Silent;

impl CodeCache for Silent {
    fn visible(&self, _range: TargetRange) -> bool {
        true
    }

    fn accepts(&self, _range: TargetRange) -> bool {
        true
    }

    fn refuses(&self, _range: TargetRange, _error: LoadError) -> bool {
        true
    }

    fn synchronize(&mut self, _runtime_range: TargetRange) -> LoadResult<()> {
        Ok(())
    }
}

/// Memory that takes over what is committed to it.
#[derive(Default)]
struct Owner {
    memory: VirtualMemory,
    refuses: bool,
    hardware: bool,
    committed: Vec<AllocationLease>,
}

impl ImageMemory for Owner {
    fn current(&self) -> Option<ImageAllocation> {
        unreachable!()
    }

    fn content(&self) -> ImageBytes {
        unreachable!()
    }

    fn source(&self) -> MemoryNumber {
        unreachable!()
    }

    fn reliable(&self) -> bool {
        unreachable!()
    }

    fn allocates(
        &self,
        _after: Self,
        _request: AllocationRequest,
        _answer: LoadResult<AllocationLease>,
    ) -> bool {
        unreachable!()
    }

    fn allocate_image(&mut self, request: AllocationRequest) -> LoadResult<AllocationLease> {
        self.memory.allocate_image(request)
    }

    fn abort_image(&mut self, allocation: AllocationLease, progress: MutationProgress) {
        self.memory.abort_image(allocation, progress)
    }

    fn release_committed(&mut self, allocation: AllocationLease) {
        self.memory.release_committed(allocation)
    }

    fn allocation(&self) -> LoadResult<ImageAllocation> {
        self.memory.allocation()
    }

    fn image_span(&self, offset: AllocationOffset, len: u64) -> LoadResult<TargetAddr> {
        self.memory.image_span(offset, len)
    }

    fn validate_access(
        &self,
        offset: AllocationOffset,
        len: u64,
        permissions: MemoryPermissions,
    ) -> LoadResult<()> {
        self.memory.validate_access(offset, len, permissions)
    }

    fn write(&mut self, offset: AllocationOffset, data: &[u8]) -> LoadResult<()> {
        self.memory.write(offset, data)
    }

    fn zero(&mut self, offset: AllocationOffset, len: u64) -> LoadResult<()> {
        self.memory.zero(offset, len)
    }

    fn read(&self, offset: AllocationOffset, count: usize) -> LoadResult<Vec<u8>> {
        self.memory.read(offset, count)
    }
}

impl ProtectionBehavior for Owner {
    fn protects(
        &self,
        _after: Self,
        _offset: AllocationOffset,
        _len: u64,
        _permissions: MemoryPermissions,
        _outcome: LoadResult<ProtectionLevel>,
    ) -> bool {
        unreachable!()
    }
}

impl ImageProtectionMemory for Owner {
    fn capabilities(&self) -> ProtectionCapabilities {
        unreachable!()
    }

    fn capabilities_are_kept(&self, _other: &Self) {
        unreachable!()
    }

    fn protect(
        &mut self,
        offset: AllocationOffset,
        len: u64,
        permissions: MemoryPermissions,
    ) -> LoadResult<ProtectionLevel> {
        let level = self.memory.protect(offset, len, permissions)?;
        Ok(if self.hardware { ProtectionLevel::HardwareEnforced } else { level })
    }

    fn protection_capabilities(&self) -> ProtectionCapabilities {
        self.memory.protection_capabilities()
    }

    fn validate_protection_aliases(
        &self,
        allocation: &ImageAllocation,
        prepared: &PreparedProtectionPlan,
    ) -> LoadResult<()> {
        self.memory.validate_protection_aliases(allocation, prepared)
    }
}

impl ImageCommitMemory for Owner {
    type PreparedInstall = u64;

    type CommitReceipt = (u64, u64);

    fn prepared_for(_allocation: ImageAllocation, _sealed: SealedState, _install: u64) -> bool {
        unreachable!()
    }

    fn committed_as(
        _install: u64,
        _sealed: SealedState,
        _lease: AllocationLease,
        _receipt: (u64, u64),
    ) -> bool {
        unreachable!()
    }

    fn prepare_install(&mut self, allocation: &ImageAllocation, _sealed: &SealedState) -> LoadResult<u64> {
        if self.refuses {
            return Err(LoadError::new(LoadErrorKind::Backend, ErrorContext::Nothing));
        }
        Ok(allocation.base().get())
    }

    fn commit_install(&mut self, prepared: u64, sealed: SealedState, lease: AllocationLease) -> (u64, u64) {
        self.committed.push(lease);
        (prepared, sealed.entry().get())
    }
}

/// A file of one executable segment.
fn file() -> Vec<u8> {
    let mut bytes = vec![0u8; 0x200];
    bytes[64] = 1;
    bytes[68] = (PF_R | PF_X) as u8;
    bytes[96..104].copy_from_slice(&0x200u64.to_le_bytes());
    bytes[104..112].copy_from_slice(&0x200u64.to_le_bytes());
    bytes[112..120].copy_from_slice(&0x1000u64.to_le_bytes());
    bytes
}

fn header(count: u16) -> ElfHeaderInfo {
    ElfHeaderInfo {
        class: ElfClass::Elf64,
        endian: ElfData::Little,
        machine: ElfMachine::Riscv,
        entry: 0x100,
        program_header_offset: 64,
        program_header_entry_size: 56,
        program_header_count: count,
    }
}

fn admitted(bytes: &[u8]) -> AdmittedArtifact<SliceElfReader<'_>> {
    let profile = ArtifactProfile::new(
        ElfClass::Elf64,
        ElfData::Little,
        ElfMachine::Riscv,
        EntryMode::Compressed,
        0x1000,
    );
    AdmittedArtifact::new(
        SliceElfReader::new(bytes),
        header(1),
        ArtifactRequest::new(ExpectedElfType::Dyn, profile, LoadLimits::phase0_mcu()),
        bytes.len() as u64,
    )
}

#[test]
fn sealed_images_are_committed_with_their_lease() {
    let bytes = file();
    let image = match prepare_image(admitted(&bytes), Owner::default(), &mut Silent, &Riscv64Relocator) {
        Ok(image) => image,
        Err(failed) => panic!("{:?}", failed.error),
    };
    let base = image.state().allocation().base().get();
    let ready = match image.prepare_commit() {
        Ok(ready) => ready,
        Err(failed) => panic!("{:?}", failed.error),
    };
    let (receipt, owner) = ready.commit();
    assert_eq!(receipt, (base, base + 0x100));
    assert_eq!(owner.committed.len(), 1);
    assert_eq!(owner.committed[0].allocation().base().get(), base);
    // The committed image stays.
    assert!(owner.memory.allocation.is_some());
}

#[test]
fn refused_images_are_given_up() {
    let bytes = file();
    let refusing = Owner { refuses: true, ..Owner::default() };
    let image = match prepare_image(admitted(&bytes), refusing, &mut Silent, &Riscv64Relocator) {
        Ok(image) => image,
        Err(failed) => panic!("{:?}", failed.error),
    };
    match image.prepare_commit() {
        Ok(_) => panic!("expected a failure"),
        Err(failed) => {
            assert_eq!(failed.error.stage(), Some(LoadStage::Publish));
            assert!(failed.memory.memory.allocation.is_none());
        }
    }
    let image = match prepare_image(admitted(&bytes), Owner::default(), &mut Silent, &Riscv64Relocator) {
        Ok(image) => image,
        Err(failed) => panic!("{:?}", failed.error),
    };
    match image.prepare_commit() {
        Ok(ready) => assert!(ready.abandon().memory.allocation.is_none()),
        Err(failed) => panic!("{:?}", failed.error),
    }
}

/// A file of `len` bytes whose program headers, at 64, are these segments: type, address,
/// size in the file and size in memory.
fn segments(len: usize, segments: &[(u32, u64, u64, u64)]) -> Vec<u8> {
    let mut bytes = vec![0u8; len];
    for (index, (kind, vaddr, file_size, memory_size)) in segments.iter().enumerate() {
        let at = 64 + 56 * index;
        bytes[at..at + 4].copy_from_slice(&kind.to_le_bytes());
        bytes[at + 4] = (PF_R | PF_X) as u8;
        bytes[at + 16..at + 24].copy_from_slice(&vaddr.to_le_bytes());
        bytes[at + 32..at + 40].copy_from_slice(&file_size.to_le_bytes());
        bytes[at + 40..at + 48].copy_from_slice(&memory_size.to_le_bytes());
        bytes[at + 48..at + 56].copy_from_slice(&0x1000u64.to_le_bytes());
    }
    bytes
}

fn parse(bytes: &[u8], header: ElfHeaderInfo) -> LoadResult<ParsedImage> {
    let mut artifact = admitted(bytes);
    artifact.header = header;
    ImageLoader::new().inspect(&artifact)
}

#[test]
fn program_headers_are_parsed() {
    let bytes = segments(0x200, &[(PT_LOAD, 0, 0x100, 0x200), (PT_DYNAMIC, 0x40, 0x10, 0x10)]);
    let parsed = parse(&bytes, header(2)).expect("two segments");
    assert_eq!(parsed.load_segments().len(), 1);
    assert_eq!(parsed.load_segments()[0].memory_size(), 0x200);
    assert_eq!(parsed.dynamic().expect("dynamic").vaddr(), TargetAddr::new(0x40));
    // Two dynamic tables are one too many, and a file must hold its segments.
    let twice = segments(0x200, &[(PT_DYNAMIC, 0, 0, 0), (PT_DYNAMIC, 0, 0, 0)]);
    assert_eq!(parse(&twice, header(2)).err().expect("twice").kind(), LoadErrorKind::BadElf);
    assert!(parse(&segments(0x200, &[(PT_LOAD, 0, 0x201, 0x201)]), header(1)).is_err());
}

#[test]
fn the_first_unreadable_header_decides() {
    let bytes = segments(0x200, &[(PT_LOAD, 0, 0x100, 0x200)]);
    // The second header has no offset.
    let mut far = header(2);
    far.program_header_offset = u64::MAX - 0x20;
    let error = parse(&bytes, far).err().expect("beyond the file");
    assert_eq!(error.stage(), Some(LoadStage::Parse));
    far.program_header_entry_size = 0;
    assert_eq!(parse(&bytes, far).err().expect("no entry").stage(), Some(LoadStage::Parse));
    let overflow = read_program_header(
        &SliceElfReader::new(&bytes),
        &ElfHeaderInfo { program_header_offset: u64::MAX, ..header(2) },
        1,
        ElfClass::Elf64,
        ElfData::Little,
        LoadStage::Inspect,
    );
    assert_eq!(
        overflow.err().expect("no such offset"),
        LoadError::new(
            LoadErrorKind::BadElf,
            ErrorContext::ProgramHeader { index: 1, field: ProgramHeaderField::FileRange, value: 0 },
        )
        .at_stage(LoadStage::Inspect)
    );
    // An entry that is too small lacks a field.
    let mut small = header(1);
    small.program_header_entry_size = 3;
    let error = parse(&bytes, small).err().expect("too small");
    assert_eq!(
        error,
        LoadError::new(
            LoadErrorKind::OutOfBounds,
            ErrorContext::FileRange { offset: 0, len: 4, file_len: 3 },
        )
        .at_stage(LoadStage::Parse)
    );
}

#[test]
fn a_fault_before_an_unreadable_header_decides() {
    // The file ends after the first header.
    let sound = segments(120, &[(PT_LOAD, 0, 0x40, 0x40)]);
    let beyond = parse(&sound, header(2)).err().expect("one header");
    let faulty = segments(120, &[(PT_LOAD, 0, 0x201, 0x201)]);
    let fault = parse(&faulty, header(2)).err().expect("a faulty header");
    assert_eq!(parse(&faulty, header(1)).err().expect("the same"), fault);
    assert_ne!(beyond, fault);
}

#[test]
fn admitted_images_are_inspected() {
    let request = LoadRequest::new(LoadProfile::riscv64(ElfType::Dyn), RequestLimits::default_limits());
    let bytes = file();
    let admitted = match admit_image(SliceElfReader::new(&bytes), header(1), request) {
        Ok(admitted) => admitted,
        Err(error) => panic!("{:?}", error),
    };
    assert!(admitted.inspect().is_ok());
    // A file that does not hold its segment.
    let short = segments(0x200, &[(PT_LOAD, 0, 0x201, 0x201)]);
    let admitted = match admit_image(SliceElfReader::new(&short), header(1), request) {
        Ok(admitted) => admitted,
        Err(error) => panic!("{:?}", error),
    };
    assert!(admitted.inspect().is_err());
    let tight = LoadRequest::new(
        LoadProfile::riscv64(ElfType::Dyn),
        RequestLimits::new(0x1ff, 1, 1, 0x1000, 0x1000, 1, 1, 1, 1),
    );
    let error = admit_image(SliceElfReader::new(&bytes), header(1), tight).err().expect("too long");
    assert_eq!((error.stage(), error.kind()), (Some(LoadStage::Admit), LoadErrorKind::ResourceLimit));
}

#[test]
fn tags_are_collected_up_to_the_end() {
    let entries = vec![(DT_RELA, 0x100), (DT_RELASZ, 48), (DT_RELAENT, 24), (DT_NULL, 0), (DT_RELA, 1)];
    let tags = collect_tags(TagRules::Closed, &entries, 16, 80).expect("tags");
    assert_eq!(tags.rela().address(), Some(0x100));
    assert_eq!(tags.rela().byte_len(), Some(48));
    assert_eq!(tags.rela().entry_size(), Some(24));
    assert_eq!(tags.rel().address(), None);
    // A tag twice, no end, too many entries, and a text relocation.
    assert!(collect_tags(TagRules::Closed, &vec![(DT_RELA, 1), (DT_RELA, 2), (DT_NULL, 0)], 16, 48).is_err());
    assert!(collect_tags(TagRules::Closed, &vec![(DT_RELA, 1)], 16, 16).is_err());
    assert!(collect_tags(TagRules::Closed, &entries, 2, 80).is_err());
    assert!(collect_tags(TagRules::Closed, &vec![(DT_TEXTREL, 0), (DT_NULL, 0)], 16, 32).is_err());
    let flags = collect_tags(TagRules::Summarize, &vec![(DT_FLAGS, 8), (DT_NULL, 0)], 16, 32).expect("tags");
    assert_eq!(flags.features.flags(), Some(8));
}

#[test]
fn table_entries_are_decoded() {
    let mut bytes = [0u8; 24];
    bytes[0..8].copy_from_slice(&0x1000u64.to_le_bytes());
    bytes[8..16].copy_from_slice(&0x5_0000_0003u64.to_le_bytes());
    bytes[16..24].copy_from_slice(&(-8i64).to_le_bytes());
    let record = decode_relocation_entry(
        &bytes,
        ElfClass::Elf64,
        ElfData::Little,
        RelocationTableKind::Rela,
    )
    .expect("record");
    assert_eq!(record.offset(), TargetAddr::new(0x1000));
    assert_eq!((record.raw_type(), record.symbol_index()), (3, 5));
    assert_eq!(record.addend(), RelocationAddend::Explicit(-8));
    let error = decode_relocation_entry(
        &bytes[..20],
        ElfClass::Elf64,
        ElfData::Little,
        RelocationTableKind::Rela,
    )
    .unwrap_err();
    assert_eq!(*error.context(), ErrorContext::FileRange { offset: 16, len: 8, file_len: 20 });
    assert_eq!(
        decode_dynamic_entry(&bytes, ElfClass::Elf64, ElfData::Little),
        Ok((0x1000, 0x5_0000_0003))
    );
    assert!(decode_dynamic_entry(&bytes[..4], ElfClass::Elf32, ElfData::Little).is_err());
}

fn request_at(offset: u64, len: u64) -> ProtectionRecord {
    let range = TargetRange::new(TargetAddr::new(0x1000 + offset), len);
    ProtectionRecord {
        location: TargetLocation { allocation: AllocationId::new(1), offset },
        requested_range: range,
        applied_range: range,
        permissions: MemoryPermissions::read(),
        level: ProtectionLevel::LogicalOnly,
    }
}

fn levels(batch: &ProtectionBatch) -> Vec<ProtectionLevel> {
    batch.records().iter().map(|record| record.level()).collect()
}

#[test]
fn protection_records_the_level_of_every_request() {
    let mut owner = Owner { hardware: true, ..Owner::default() };
    owner.allocate_image(AllocationRequest::new(Placement::Anywhere, 32, 8)).expect("allocation");
    let mut batch = ProtectionBatch::new(vec![request_at(0, 16), request_at(16, 16)]);
    assert_eq!(owner.apply_protection(&mut batch), Ok(()));
    assert_eq!(levels(&batch), vec![ProtectionLevel::HardwareEnforced; 2]);
}

#[test]
fn the_first_refused_protection_ends_a_batch() {
    let mut owner = Owner { hardware: true, ..Owner::default() };
    owner.allocate_image(AllocationRequest::new(Placement::Anywhere, 32, 8)).expect("allocation");
    let mut batch =
        ProtectionBatch::new(vec![request_at(0, 16), request_at(24, 16), request_at(16, 8)]);
    assert!(owner.apply_protection(&mut batch).is_err());
    assert_eq!(
        levels(&batch),
        vec![
            ProtectionLevel::HardwareEnforced,
            ProtectionLevel::LogicalOnly,
            ProtectionLevel::LogicalOnly,
        ]
    );
}

#[test]
fn images_start_at_the_first_aligned_address() {
    assert_eq!(image_base(0x1001, 16, 8), Some(0x1008));
    assert_eq!(image_base(0x1008, 16, 8), Some(0x1008));
    assert_eq!(image_base(u64::MAX, 16, 8), None);
    assert_eq!(image_base(u64::MAX - 15, 16, 8), None);
    assert_eq!(image_base(u64::MAX - 15, 15, 8), Some(u64::MAX - 15));
}
