//! The stages of an image, each made of what it holds.

use blueos_loader::address::{FileRange, TargetAddr, TargetRange};
use blueos_loader::elf::{ElfHeaderInfo, LoadSegmentInfo};
use blueos_loader::error::{LoadErrorKind, LoadStage};
use blueos_loader::identity::{
    ElfClass, ElfData, ElfMachine, ElfType, LoadLimits, LoadProfile, LoadRequest,
};
use blueos_loader::image::inspect::{InspectedImage, StackKind};
use blueos_loader::image::loaded::LoadedRegion;
use blueos_loader::image::plan::PlannedImage;
use blueos_loader::memory::AllocationOffset;
use blueos_loader::permissions::MemoryPermissions;

fn request() -> LoadRequest {
    LoadRequest::new(LoadProfile::riscv64(ElfType::Dyn), LoadLimits::default_limits())
}

fn header() -> ElfHeaderInfo {
    ElfHeaderInfo {
        class: ElfClass::Elf64,
        endian: ElfData::Little,
        machine: ElfMachine::Riscv,
        entry: 0x1100,
        program_header_offset: 64,
        program_header_entry_size: 56,
        program_header_count: 2,
    }
}

fn segment(index: u16, vaddr: u64, len: u64, permissions: MemoryPermissions) -> LoadSegmentInfo {
    LoadSegmentInfo::new(
        index,
        FileRange::new(vaddr % 0x1000, 0),
        TargetAddr::new(vaddr),
        len,
        0x1000,
        permissions,
    )
}

#[test]
fn inspected_images_are_planned() {
    let code = MemoryPermissions::read().bitor(MemoryPermissions::execute());
    let data = MemoryPermissions::read().bitor(MemoryPermissions::write());
    let image = InspectedImage::new(
        "reader",
        request(),
        header(),
        vec![segment(1, 0x3000, 0x10, data), segment(0, 0x1000, 0x200, code)],
        None,
        Some(TargetRange::new(TargetAddr::new(0x3000), 0x10)),
        StackKind::NonExecutable,
        None,
        None,
    );
    assert_eq!(image.reader, "reader");
    assert_eq!(image.load_segments.len(), 2);
    assert_eq!(image.stack, StackKind::NonExecutable);
    let plan = image.plan().expect("planned");
    assert_eq!(plan.reader, "reader");
    assert_eq!(plan.aligned_min_vaddr.get(), 0x1000);
    assert_eq!(plan.aligned_max_vaddr.get(), 0x4000);
    assert_eq!(plan.image_span, 0x3000);
    assert_eq!(plan.max_align, 0x1000);
    assert_eq!(plan.entry_vaddr.get(), 0x1100);
    assert_eq!(plan.load_segments[0].vaddr().get(), 0x1000);
    assert_eq!(plan.relro.map(|range| range.len()), Some(0x10));
}

#[test]
fn planned_images_ask_for_their_span() {
    let planned = |span: u64| {
        PlannedImage::new(
            (),
            request(),
            TargetAddr::new(0x1000),
            TargetAddr::new(0x1000 + span),
            span,
            0x2000,
            TargetAddr::new(0x1000),
            TargetAddr::new(0x1000),
            Vec::new(),
            None,
            None,
            StackKind::NotDeclared,
            None,
            None,
        )
    };
    let asked = planned(0x3000).allocation_request().expect("a request");
    assert_eq!(asked.size(), 0x3000);
    assert_eq!(asked.align(), 0x2000);
    let error = planned(0).allocation_request().unwrap_err();
    assert_eq!(error.kind(), LoadErrorKind::IncorrectLayout);
    assert_eq!(error.stage(), Some(LoadStage::Allocate));
}

#[test]
fn loaded_regions_tell_their_places() {
    let region = LoadedRegion::new(
        TargetRange::new(TargetAddr::new(0x1000), 0x200),
        TargetRange::new(TargetAddr::new(0x9000), 0x200),
        FileRange::new(0x40, 0x100),
        0x80,
        MemoryPermissions::read(),
    );
    assert_eq!(region.vaddr_range().start().get(), 0x1000);
    assert_eq!(region.runtime_range().start().get(), 0x9000);
    assert_eq!(region.file_range(), FileRange::new(0x40, 0x100));
    assert_eq!(region.allocation_offset(), AllocationOffset::new(0x80));
    assert_eq!(region.logical_permissions(), MemoryPermissions::read());
}
