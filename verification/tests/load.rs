//! Loading whole ELF files.

use blueos_loader::address::{TargetAddr, TargetRange};
use blueos_loader::cache::CodeCache;
use blueos_loader::elf::{
    ElfHeaderInfo, DT_NULL, DT_RELA, DT_RELAENT, DT_RELASZ, EM_RISCV, ET_DYN, ET_EXEC, PF_R, PF_W, PF_X,
    PT_DYNAMIC, PT_LOAD, R_RISCV_RELATIVE,
};
use blueos_loader::error::{ErrorContext, LoadError, LoadErrorKind, LoadResult, LoadStage};
use blueos_loader::identity::{
    ElfClass, ElfData, ElfMachine, EntryMode, LoadLimits, LoadRequest,
};
use blueos_loader::image::admission::admit_image;
use blueos_loader::load::{
    build_memory_layout, compatibility_error, copy_content_to_memory, dynamic_load_profile,
    header_for, load_allocated, load_dyn_elf, load_elf, read_elf,
};
use blueos_loader::memory::{AllocationOffset, AllocationRequest, ImageMemory, Placement};
use blueos_loader::memory_mapper::{
    MappingModeKind, MemoryMapper, MemoryRegion, Result as TextResult,
};
use blueos_loader::permissions::MemoryPermissions;
use blueos_loader::reader::SliceElfReader;
use blueos_loader::request::ArtifactProfile;

/// A cache that notes what it is asked for.
#[derive(Default)]
struct Notes {
    ranges: Vec<TargetRange>,
    broken: bool,
}

impl CodeCache for Notes {
    fn visible(&self, _range: TargetRange) -> bool {
        true
    }

    fn accepts(&self, _range: TargetRange) -> bool {
        true
    }

    fn refuses(&self, _range: TargetRange, _error: LoadError) -> bool {
        true
    }

    fn synchronize(&mut self, runtime_range: TargetRange) -> LoadResult<()> {
        if self.broken {
            return Err(LoadError::new(LoadErrorKind::Backend, ErrorContext::Nothing));
        }
        self.ranges.push(runtime_range);
        Ok(())
    }
}

struct Segment {
    kind: u32,
    flags: u32,
    offset: u64,
    vaddr: u64,
    file_size: u64,
    memory_size: u64,
    align: u64,
}

fn load(flags: u32, offset: u64, vaddr: u64, file_size: u64, memory_size: u64) -> Segment {
    Segment { kind: PT_LOAD, flags, offset, vaddr, file_size, memory_size, align: 0x1000 }
}

fn put(file: &mut [u8], at: usize, bytes: &[u8]) {
    file[at..at + bytes.len()].copy_from_slice(bytes);
}

fn word(file: &mut [u8], at: usize, value: u64) {
    put(file, at, &value.to_le_bytes());
}

/// A 64-bit little-endian file of this many bytes.
fn elf(kind: u16, machine: u16, entry: u64, segments: &[Segment], len: usize) -> Vec<u8> {
    let mut file = vec![0u8; len];
    put(&mut file, 0, b"\x7fELF\x02\x01\x01");
    put(&mut file, 16, &kind.to_le_bytes());
    put(&mut file, 18, &machine.to_le_bytes());
    put(&mut file, 20, &1u32.to_le_bytes());
    word(&mut file, 24, entry);
    word(&mut file, 32, 64);
    put(&mut file, 52, &64u16.to_le_bytes());
    put(&mut file, 54, &56u16.to_le_bytes());
    put(&mut file, 56, &(segments.len() as u16).to_le_bytes());
    put(&mut file, 58, &64u16.to_le_bytes());
    for (index, segment) in segments.iter().enumerate() {
        let at = 64 + 56 * index;
        put(&mut file, at, &segment.kind.to_le_bytes());
        put(&mut file, at + 4, &segment.flags.to_le_bytes());
        word(&mut file, at + 8, segment.offset);
        word(&mut file, at + 16, segment.vaddr);
        word(&mut file, at + 24, segment.vaddr);
        word(&mut file, at + 32, segment.file_size);
        word(&mut file, at + 40, segment.memory_size);
        word(&mut file, at + 48, segment.align);
    }
    file
}

/// Code at 0x100, data from 0x1200 on with one relocated word at 0x12c0.
fn shared_object() -> Vec<u8> {
    let mut file = elf(
        ET_DYN,
        EM_RISCV,
        0x180,
        &[
            load(PF_R | PF_X, 0, 0, 0x200, 0x200),
            load(PF_R | PF_W, 0x200, 0x1200, 0x100, 0x180),
            Segment {
                kind: PT_DYNAMIC,
                flags: PF_R | PF_W,
                offset: 0x200,
                vaddr: 0x1200,
                file_size: 0x40,
                memory_size: 0x40,
                align: 8,
            },
        ],
        0x300,
    );
    put(&mut file, 0x180, &[0x13, 0, 0, 0]);
    word(&mut file, 0x200, DT_RELA);
    word(&mut file, 0x208, 0x1280);
    word(&mut file, 0x210, DT_RELASZ);
    word(&mut file, 0x218, 24);
    word(&mut file, 0x220, DT_RELAENT);
    word(&mut file, 0x228, 24);
    word(&mut file, 0x230, DT_NULL);
    word(&mut file, 0x280, 0x12c0);
    word(&mut file, 0x288, R_RISCV_RELATIVE as u64);
    word(&mut file, 0x290, 0x180);
    file
}

fn read_word(mapper: &MemoryMapper, offset: u64) -> u64 {
    let bytes = mapper.read(AllocationOffset::new(offset), 8).expect("readable");
    u64::from_le_bytes(bytes.try_into().expect("eight bytes"))
}

#[test]
fn shared_objects_are_copied_and_relocated() {
    let mut mapper = MemoryMapper::new(None);
    let mut cache = Notes::default();
    let file = shared_object();
    load_elf(&file, &mut mapper, &mut cache).expect("loads");
    let allocation = mapper.allocation().expect("allocated");
    let base = allocation.base().get();
    assert_eq!(base % 0x1000, 0);
    assert_eq!(mapper.mode_kind(), MappingModeKind::Allocated);
    assert_eq!(mapper.entry(), 0x180);
    assert_eq!(mapper.real_entry(), Ok(base as usize + 0x180));
    // The code is there, the word holds its address, and the rest of the data is
    // zero.
    assert_eq!(mapper.read(AllocationOffset::new(0x180), 4), Ok(vec![0x13, 0, 0, 0]));
    assert_eq!(read_word(&mapper, 0x12c0), base + 0x180);
    assert_eq!(read_word(&mapper, 0x1300), 0);
    // Only the code was made visible.
    assert_eq!(cache.ranges.len(), 1);
    assert_eq!(cache.ranges[0].start().get(), base);
    assert_eq!(cache.ranges[0].len(), 0x200);
}

#[test]
fn garbage_is_not_parsed() {
    let mut mapper = MemoryMapper::new(None);
    let mut cache = Notes::default();
    assert_eq!(
        load_elf(b"not an ELF file", &mut mapper, &mut cache),
        Err("Unable to parse the buffer")
    );
    assert_eq!(load_elf(&[], &mut mapper, &mut cache), Err("Unable to parse the buffer"));
    assert!(cache.ranges.is_empty());
}

#[test]
fn headers_belong_to_a_profile() {
    let file = shared_object();
    let profile = |class: ElfClass, machine: ElfMachine| {
        ArtifactProfile::new(class, ElfData::Little, machine, EntryMode::Compressed, 4096)
    };
    let header = header_for(&file, &profile(ElfClass::Elf64, ElfMachine::Riscv)).expect("header");
    assert_eq!(header.entry(), 0x180);
    assert_eq!(header.program_header_offset(), 64);
    assert_eq!(header.program_header_count(), 3);
    assert_eq!(header_for(&file, &profile(ElfClass::Elf32, ElfMachine::Riscv)), None);
    assert_eq!(header_for(&file, &profile(ElfClass::Elf64, ElfMachine::Arm)), None);
    assert_eq!(header_for(b"no elf", &profile(ElfClass::Elf64, ElfMachine::Riscv)), None);
}

#[test]
fn other_file_types_are_refused() {
    let mut mapper = MemoryMapper::new(None);
    let mut cache = Notes::default();
    let file = elf(1, EM_RISCV, 0, &[], 64);
    assert_eq!(load_elf(&file, &mut mapper, &mut cache), Err("Unsupported ELF type"));
}

#[test]
fn file_types_need_their_mapping_mode() {
    let mut cache = Notes::default();
    let mut fixed = MemoryMapper::new(Some(Vec::new()));
    assert_eq!(
        load_elf(&shared_object(), &mut fixed, &mut cache),
        Err("ET_DYN requires Allocated mapping mode")
    );
    let mut allocated = MemoryMapper::new(None);
    let program = elf(ET_EXEC, EM_RISCV, 0x1000, &[], 64);
    assert_eq!(
        load_elf(&program, &mut allocated, &mut cache),
        Err("ET_EXEC requires Fixed mapping mode")
    );
}

#[test]
fn faults_are_reported_by_stage() {
    let mut cache = Notes::default();
    // Two segments that meet.
    let overlapping = elf(
        ET_DYN,
        EM_RISCV,
        0x180,
        &[
            load(PF_R | PF_X, 0, 0, 0x200, 0x2000),
            load(PF_R | PF_W, 0x200, 0x1200, 0x100, 0x100),
        ],
        0x300,
    );
    let mut mapper = MemoryMapper::new(None);
    assert_eq!(
        load_elf(&overlapping, &mut mapper, &mut cache),
        Err("Unable to plan dynamic ELF")
    );
    // An empty segment in between hides nothing.
    let hidden = elf(
        ET_DYN,
        EM_RISCV,
        0x180,
        &[
            load(PF_R | PF_X, 0, 0, 0x200, 0x2000),
            load(PF_R, 0, 0x1000, 0, 0),
            load(PF_R | PF_W, 0x200, 0x1200, 0x100, 0x100),
        ],
        0x300,
    );
    assert_eq!(load_elf(&hidden, &mut mapper, &mut cache), Err("Unable to plan dynamic ELF"));
    // A segment that is writable and executable.
    let open = elf(ET_DYN, EM_RISCV, 0x180, &[load(PF_R | PF_W | PF_X, 0, 0, 0x200, 0x200)], 0x300);
    assert_eq!(load_elf(&open, &mut mapper, &mut cache), Err("Unable to plan dynamic ELF"));
    // A relocation that no machine has.
    let mut odd = shared_object();
    word(&mut odd, 0x288, 0xff);
    assert_eq!(load_elf(&odd, &mut mapper, &mut cache), Err("Unable to relocate dynamic ELF"));
    // A cache that fails.
    let mut broken = Notes { ranges: Vec::new(), broken: true };
    assert_eq!(
        load_elf(&shared_object(), &mut mapper, &mut broken),
        Err("Unable to synchronize dynamic ELF")
    );
    // The mapper has nothing of all that.
    assert!(mapper.allocation().is_err());
    assert_eq!(
        compatibility_error(
            LoadError::new(LoadErrorKind::Backend, ErrorContext::Nothing).at_stage(LoadStage::Seal)
        ),
        "Unable to seal dynamic ELF"
    );
}

#[test]
fn programs_are_written_to_their_addresses() {
    let mut cache = Notes::default();
    let mut program = elf(
        ET_EXEC,
        EM_RISCV,
        0x8000_0010,
        &[
            load(PF_R | PF_X, 0x200, 0x8000_0000, 0x20, 0x20),
            load(PF_R | PF_W, 0x220, 0x8000_1000, 4, 0x10),
        ],
        0x300,
    );
    put(&mut program, 0x210, &[1, 2, 3, 4]);
    put(&mut program, 0x220, &[5, 6, 7, 8]);
    let everything = MemoryPermissions::read()
        .bitor(MemoryPermissions::write())
        .bitor(MemoryPermissions::execute());
    let mut mapper =
        MemoryMapper::new(Some(vec![MemoryRegion::new(0x8000_0000, 0x8000_2000, everything)]));
    load_elf(&program, &mut mapper, &mut cache).expect("loads");
    assert_eq!(mapper.real_entry(), Ok(0x8000_0010));
    assert_eq!(mapper.virtual_start, 0x8000_0000);
    assert_eq!(mapper.virtual_end, 0x8000_1010);
    let writes: Vec<(u64, &[u8])> =
        mapper.fixed_writes().iter().map(|write| (write.address, write.bytes.as_slice())).collect();
    assert_eq!(writes.len(), 2);
    assert_eq!(writes[0].0, 0x8000_0000);
    assert_eq!(&writes[0].1[0x10..0x14], &[1, 2, 3, 4]);
    assert_eq!(writes[1], (0x8000_1000, [5u8, 6, 7, 8].as_slice()));
    // A region that is too small refuses the second segment.
    let mut small =
        MemoryMapper::new(Some(vec![MemoryRegion::new(0x8000_0000, 0x8000_1000, everything)]));
    assert_eq!(
        load_elf(&program, &mut small, &mut cache),
        Err("Address span is outside authorized regions")
    );
    // A segment that the file does not hold is refused too.
    let cut = elf(
        ET_EXEC,
        EM_RISCV,
        0x8000_0000,
        &[load(PF_R | PF_X, 0x200, 0x8000_0000, 0x400, 0x400)],
        0x300,
    );
    let mut roomy =
        MemoryMapper::new(Some(vec![MemoryRegion::new(0x8000_0000, 0x8000_1000, everything)]));
    assert_eq!(load_elf(&cut, &mut roomy, &mut cache), Err("Invalid indices to the buffer"));
}

#[test]
fn programs_are_laid_out_up_to_an_endless_segment() {
    let everything = MemoryPermissions::read()
        .bitor(MemoryPermissions::write())
        .bitor(MemoryPermissions::execute());
    let endless = elf(
        ET_EXEC,
        EM_RISCV,
        0x8000_0000,
        &[
            load(PF_R | PF_X, 0x200, 0x8000_0000, 0x20, 0x20),
            load(PF_R | PF_W, 0x220, 0xffff_ffff_ffff_fff0, 4, 0x20),
            load(PF_R | PF_W, 0x220, 0x9000_0000, 4, 0x10),
        ],
        0x300,
    );
    let mut cache = Notes::default();
    // The mode is looked at first.
    let mut allocated = MemoryMapper::new(None);
    assert_eq!(
        load_elf(&endless, &mut allocated, &mut cache),
        Err("ET_EXEC requires Fixed mapping mode")
    );
    assert_eq!(allocated.virtual_end, 0);
    // Then the layout, which takes over what comes before; nothing is written.
    let mut mapper =
        MemoryMapper::new(Some(vec![MemoryRegion::new(0x8000_0000, 0x8000_2000, everything)]));
    assert_eq!(
        load_elf(&endless, &mut mapper, &mut cache),
        Err("Program header range has no end")
    );
    assert_eq!(mapper.virtual_start, 0x8000_0000);
    assert_eq!(mapper.virtual_end, 0x8000_0020);
    assert_eq!(mapper.entry(), 0);
    assert!(mapper.fixed_writes().is_empty());
    let file = read_elf(&endless).expect("a file");
    let mut same = MemoryMapper::new(None);
    assert_eq!(build_memory_layout(&file, &mut same), Err("Program header range has no end"));
    assert_eq!((same.virtual_start, same.virtual_end), (0x8000_0000, 0x8000_0020));
}

#[test]
fn programs_are_written_up_to_a_fault() {
    let everything = MemoryPermissions::read()
        .bitor(MemoryPermissions::write())
        .bitor(MemoryPermissions::execute());
    let mut program = elf(
        ET_EXEC,
        EM_RISCV,
        0x8000_0000,
        &[
            load(PF_R | PF_X, 0x200, 0x8000_0000, 4, 4),
            load(PF_R | PF_W, 0x204, 0x9000_0000, 4, 4),
            load(PF_R | PF_W, 0x208, 0x8000_0100, 4, 4),
        ],
        0x300,
    );
    put(&mut program, 0x200, &[1, 2, 3, 4]);
    let mut cache = Notes::default();
    let mut mapper =
        MemoryMapper::new(Some(vec![MemoryRegion::new(0x8000_0000, 0x8000_2000, everything)]));
    assert_eq!(
        load_elf(&program, &mut mapper, &mut cache),
        Err("Address span is outside authorized regions")
    );
    // What came before the fault stays written, and the layout is taken over.
    assert_eq!(mapper.fixed_writes().len(), 1);
    assert_eq!(mapper.fixed_writes()[0].address, 0x8000_0000);
    assert_eq!(mapper.fixed_writes()[0].bytes, vec![1, 2, 3, 4]);
    assert_eq!(mapper.entry(), 0x8000_0000);
    // File bytes without an end are found when their turn comes.
    let endless = elf(
        ET_EXEC,
        EM_RISCV,
        0x8000_0000,
        &[
            load(PF_R | PF_X, 0x200, 0x8000_0000, 4, 4),
            load(PF_R | PF_W, 0xffff_ffff_ffff_fff0, 0x8000_0100, 0x20, 0x20),
        ],
        0x300,
    );
    let file = read_elf(&endless).expect("a file");
    let mut fixed =
        MemoryMapper::new(Some(vec![MemoryRegion::new(0x8000_0000, 0x8000_2000, everything)]));
    assert_eq!(
        copy_content_to_memory(&endless, &file, &mut fixed),
        Err("Program header range has no end")
    );
    assert_eq!(fixed.fixed_writes().len(), 1);
}

#[test]
fn program_headers_beyond_the_buffer_fail_inspection() {
    let mut cache = Notes::default();
    let mut mapper = MemoryMapper::new(None);
    let file = shared_object();
    let described = read_elf(&file).expect("a file");
    // The three headers end at 0xe8.
    assert_eq!(
        load_dyn_elf(&file[..0x80], &described, &mut mapper, &mut cache),
        Err("Unable to inspect dynamic ELF")
    );
    assert!(mapper.allocation().is_err());
    assert!(cache.ranges.is_empty());
}

/// Plans a shared object, and loads it into memory that was granted for the plan.
fn load_granted(file: &[u8], cache: &mut Notes) -> TextResult<MemoryMapper> {
    let elf = read_elf(file).expect("an ELF file");
    let (profile, class, machine) = dynamic_load_profile(&elf).expect("a profile");
    let limits = LoadLimits::default_limits();
    let header = ElfHeaderInfo {
        class,
        endian: profile.endian(),
        machine,
        entry: elf.entry,
        program_header_offset: elf.program_header_offset,
        program_header_entry_size: elf.program_header_entry_size,
        program_header_count: elf.program_header_count,
    };
    let admitted =
        match admit_image(SliceElfReader::new(file), header, LoadRequest::new(profile, limits)) {
            Ok(admitted) => admitted,
            Err(error) => panic!("{:?}", error),
        };
    let planned = match admitted.inspect() {
        Ok(inspected) => match inspected.plan() {
            Ok(planned) => planned,
            Err(error) => panic!("{:?}", error),
        },
        Err(error) => panic!("{:?}", error),
    };
    match planned.allocate(MemoryMapper::new(None)) {
        Ok(allocated) => load_allocated(allocated, &elf, &limits, cache),
        Err(failed) => panic!("{:?}", failed.error),
    }
}

#[test]
fn granted_images_are_loaded() {
    let mut cache = Notes::default();
    let mapper = match load_granted(&shared_object(), &mut cache) {
        Ok(mapper) => mapper,
        Err(text) => panic!("{}", text),
    };
    let base = mapper.allocation().expect("allocated").base().get();
    assert_eq!(mapper.entry(), 0x180);
    assert_eq!(mapper.real_entry(), Ok(base as usize + 0x180));
    assert_eq!(mapper.read(AllocationOffset::new(0x180), 4), Ok(vec![0x13, 0, 0, 0]));
    assert_eq!(read_word(&mapper, 0x12c0), base + 0x180);
    assert_eq!(cache.ranges, vec![TargetRange::new(TargetAddr::new(base), 0x200)]);
}

#[test]
fn granted_images_fail_in_their_stage() {
    let mut odd = shared_object();
    word(&mut odd, 0x288, 0xff);
    assert_eq!(
        load_granted(&odd, &mut Notes::default()).err(),
        Some("Unable to relocate dynamic ELF")
    );
    let mut broken = Notes { ranges: Vec::new(), broken: true };
    assert_eq!(
        load_granted(&shared_object(), &mut broken).err(),
        Some("Unable to synchronize dynamic ELF")
    );
}

#[test]
fn fixed_memory_keeps_what_it_held() {
    let everything = MemoryPermissions::read()
        .bitor(MemoryPermissions::write())
        .bitor(MemoryPermissions::execute());
    let mut mapper = MemoryMapper::new(Some(vec![MemoryRegion::new(0x4000, 0x5000, everything)]));
    mapper.hold(0x4000, vec![1, 2, 3, 4]);
    mapper.write_slice_at(0x4001, &[9]).expect("inside");
    assert_eq!(mapper.region_bytes(0x4000, 5), vec![1, 9, 3, 4, 0]);
    assert_eq!(mapper.region_bytes(0x3fff, 2), vec![0, 1]);
    let range = TargetRange::new(TargetAddr::new(0x4000), 5);
    let lease = mapper
        .allocate_image(AllocationRequest::new(Placement::Fixed(range), 5, 1))
        .expect("authorized");
    assert_eq!(lease.allocation().base().get(), 0x4000);
    assert_eq!(mapper.read(AllocationOffset::new(0), 5), Ok(vec![1, 9, 3, 4, 0]));
    // Outside of the regions nothing is lent.
    let mut other = MemoryMapper::new(Some(vec![MemoryRegion::new(0x4000, 0x4004, everything)]));
    assert!(other.allocate_image(AllocationRequest::new(Placement::Fixed(range), 5, 1)).is_err());
}
