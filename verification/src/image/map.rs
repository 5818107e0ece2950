//! Mapping and decoding an allocated image.

use crate::address::{TargetAddr, TargetRange};
use crate::elf::LoadSegmentInfo;
use crate::error::{claim, claim_at, LoadError, LoadResult, LoadStage};
use crate::identity::{ElfType, LoadRequest};
use crate::image::decode::DecodedImage;
use crate::image::layout::{
    lemma_occupied, occupied, segment_layout, ImageLayout, LayoutView, SegmentLayout,
};
use crate::image::loaded::{
    copied_as, fill_regions, given_up, image_fits, lemma_image_within, loaded_content, map_layout,
    mapped_spec, mapping_adds_the_load_bias, preflight_targets, regions_within, MappedState,
    MappedView,
};
use crate::image::plan::{
    stage_outcome, AllocatedImage, PlannedImage, PlannedView, StageFailure, StageResult,
};
use crate::image::records::{RelocationRecord, RelocationTableKind, TagRules};
use crate::image::tables::{
    both_tables, decode_dynamic_tags, decode_relocation_table, dynamic_tags_spec,
    relocation_table_spec, TableLimits,
};
use crate::limits::LoadLimits;
use crate::memory::{ready, ImageAllocation, ImageLoadTransaction, ImageMemory};
use crate::reader::ElfReader;
use crate::request::{ArtifactProfile, ArtifactRequest, ExpectedElfType};
use vstd::prelude::*;

verus! {

/// The largest quota of 32 bits that is at most `quota`.
pub open spec fn narrowed(quota: u64) -> u32 {
    if quota <= u32::MAX {
        quota as u32
    } else {
        u32::MAX
    }
}

fn narrow(quota: u64) -> (r: u32)
    ensures
        r == narrowed(quota),
{
    if quota <= u32::MAX as u64 {
        quota as u32
    } else {
        u32::MAX
    }
}

/// The artifact request that stands for a load request.
pub open spec fn artifact_request_spec(request: LoadRequest) -> ArtifactRequest {
    ArtifactRequest {
        expected: if request.profile.elf_type == ElfType::Dyn {
            ExpectedElfType::Dyn
        } else {
            ExpectedElfType::Exec
        },
        profile: ArtifactProfile {
            class: request.profile.class,
            endian: request.profile.endian,
            machine: request.profile.machine,
            entry_mode: request.profile.entry_mode_spec(),
            minimum_image_alignment: 1,
        },
        limits: LoadLimits {
            max_file_len: request.limits.max_file_len,
            max_program_headers: request.limits.max_program_headers,
            max_load_segments: request.limits.max_load_segments,
            max_image_span: request.limits.max_image_span,
            max_segment_alignment: request.limits.max_segment_alignment,
            max_layout_bytes: 0x10_0000,
            max_dynamic_entries: narrowed(request.limits.max_dynamic_entries),
            max_relocations: narrowed(request.limits.max_relocations),
            max_runtime_metadata_bytes: request.limits.max_runtime_metadata_bytes,
            max_relocation_operation_bytes: request.limits.max_relocation_operation_bytes,
        },
    }
}

/// Restates a load request as an artifact request.
pub fn artifact_request(request: &LoadRequest) -> (r: ArtifactRequest)
    ensures
        r == artifact_request_spec(*request),
{
    let profile = request.profile();
    let limits = request.limits();
    let expected = if profile.elf_type() == ElfType::Dyn {
        ExpectedElfType::Dyn
    } else {
        ExpectedElfType::Exec
    };
    ArtifactRequest::new(
        expected,
        ArtifactProfile::new(
            profile.class(),
            profile.endian(),
            profile.machine(),
            profile.entry_mode(),
            1,
        ),
        LoadLimits::new(limits.max_file_len, limits.max_program_headers).with_image_limits(
            limits.max_load_segments,
            limits.max_image_span,
        ).with_layout_limits(limits.max_segment_alignment, 0x10_0000).with_runtime_limits(
            narrow(limits.max_dynamic_entries),
            narrow(limits.max_relocations),
        ).with_runtime_memory_limits(
            limits.max_runtime_metadata_bytes,
            limits.max_relocation_operation_bytes,
        ),
    )
}

/// The layout of a planned image: its segments that take up memory.
pub open spec fn plan_layout_spec(plan: PlannedView) -> LayoutView {
    LayoutView {
        aligned_min_vaddr: plan.aligned_min_vaddr,
        aligned_max_vaddr: plan.aligned_max_vaddr,
        image_span: plan.image_span,
        max_align: plan.max_align,
        entry_vaddr: plan.entry_vaddr,
        canonical_entry_vaddr: plan.canonical_entry_vaddr,
        segments: occupied(plan.found.load_segments, plan.found.load_segments.len() as int),
        relro: plan.found.relro,
    }
}

fn layout_of(segment: &LoadSegmentInfo) -> (r: SegmentLayout)
    ensures
        r == segment_layout(*segment),
{
    SegmentLayout {
        source_index: segment.index(),
        vaddr_range: TargetRange::new(segment.vaddr(), segment.memory_size()),
        file_range: segment.file_range(),
        align: if segment.align() <= 1 {
            1
        } else {
            segment.align()
        },
        permissions: segment.permissions(),
    }
}

/// The layout of a planned image.
pub fn plan_layout<R>(plan: &PlannedImage<R>) -> (r: ImageLayout)
    ensures
        r@ == plan_layout_spec(plan@),
{
    let mut segments: Vec<SegmentLayout> = Vec::new();
    let mut index: usize = 0;
    while index < plan.load_segments.len()
        invariant
            index <= plan.load_segments@.len(),
            segments@ == occupied(plan.load_segments@, index as int),
        decreases plan.load_segments@.len() - index,
    {
        if plan.load_segments[index].memory_size() != 0 {
            segments.push(layout_of(&plan.load_segments[index]));
        }
        index = index + 1;
    }
    ImageLayout {
        aligned_min_vaddr: plan.aligned_min_vaddr,
        aligned_max_vaddr: plan.aligned_max_vaddr,
        image_span: plan.image_span,
        max_align: plan.max_align,
        entry_vaddr: plan.entry_vaddr,
        canonical_entry_vaddr: plan.canonical_entry_vaddr,
        segments,
        relro: plan.relro,
    }
}

/// An image in memory.
pub struct MappedImage<R, M> {
    pub reader: R,
    pub transaction: ImageLoadTransaction<M>,
    pub request: LoadRequest,
    pub mapped: MappedState,
}

impl<R, M> MappedImage<R, M> {
    /// An image that is mapped like this.
    #[inline]
    pub fn new(
        reader: R,
        transaction: ImageLoadTransaction<M>,
        request: LoadRequest,
        mapped: MappedState,
    ) -> (r: Self)
        ensures
            r == (MappedImage {
                reader,
                transaction,
                request,
                mapped,
            }),
    {
        MappedImage {
            reader,
            transaction,
            request,
            mapped,
        }
    }
}

/// The mapped state of an image with this plan.
pub open spec fn plan_mapped(
    plan: PlannedView,
    request: LoadRequest,
    allocation: ImageAllocation,
    load_bias: TargetAddr,
) -> LoadResult<MappedView> {
    mapped_spec(
        artifact_request_spec(request),
        plan.found.dynamic,
        plan_layout_spec(plan),
        allocation,
        load_bias,
    )
}

impl<R: ElfReader, M: ImageMemory> AllocatedImage<R, M> {
    /// Copies the segments into memory and clears the rest. On failure the image
    /// is given up.
    pub fn map(self) -> (r: StageResult<MappedImage<R, M>, M>)
        requires
            self.transaction.active(),
        ensures
            match r {
                Err(failed) => given_up(failed.memory) && failed.error.stage is Some,
                Ok(image) => {
                    &&& plan_mapped(
                        self.plan@,
                        self.plan.request,
                        self.transaction.pending->0.allocation,
                        self.load_bias,
                    ) == Ok::<MappedView, LoadError>(image.mapped@)
                    &&& image.reader == self.reader
                    &&& image.request == self.plan.request
                    &&& image.transaction.pending == self.transaction.pending
                    &&& image.transaction.memory.current() == self.transaction.memory.current()
                    &&& image.transaction.memory.content() == loaded_content(
                        self.transaction.memory.content(),
                        image.mapped@,
                        self.reader.bytes(),
                    )
                    &&& image.transaction.memory.content().len()
                        == self.transaction.memory.content().len()
                    &&& self.transaction.memory.reliable() ==> image.transaction.memory.reliable()
                    &&& image.transaction.memory.source() == self.transaction.memory.source()
                },
            },
            match plan_mapped(
                self.plan@,
                self.plan.request,
                self.transaction.pending->0.allocation,
                self.load_bias,
            ) {
                Err(error) => r matches Err(failed) && failed.error == error,
                Ok(view) => self.reader.reliable() && ready(self.transaction.memory)
                    && self.reader.bytes().len() <= u64::MAX ==> {
                    let content_len = self.transaction.memory.content().len();
                    &&& copied_as(view, content_len, self.reader.bytes().len(), stage_outcome(r))
                    &&& image_fits(view, content_len, self.reader.bytes().len()) ==> r is Ok
                },
            },
    {
        let mut transaction = self.transaction;
        let layout = plan_layout(&self.plan);
        let allocation: ImageAllocation = *transaction.allocation();
        let mapped = match map_layout(
            &artifact_request(&self.plan.request),
            self.plan.dynamic,
            &layout,
            allocation,
            self.load_bias,
        ) {
            Ok(mapped) => mapped,
            Err(error) => return Err(StageFailure { error, memory: transaction.finish() }),
        };
        proof {
            if image_fits(
                mapped@,
                transaction.memory.content().len(),
                self.reader.bytes().len(),
            ) {
                lemma_image_within(
                    mapped@,
                    transaction.memory.content().len(),
                    self.reader.bytes().len(),
                );
            }
        }
        match preflight_targets(&mapped, transaction.memory()) {
            Ok(_) => {},
            Err(error) => return Err(StageFailure { error, memory: transaction.finish() }),
        }
        transaction.mark_bytes_modified();
        match claim_at(
            fill_regions(&self.reader, &mapped, &mut transaction.memory),
            LoadStage::Mapping,
        ) {
            Ok(_) => Ok(MappedImage::new(self.reader, transaction, self.plan.request, mapped)),
            Err(error) => Err(StageFailure { error, memory: transaction.finish() }),
        }
    }
}

/// The quotas of an image's relocation tables.
pub open spec fn image_tables(request: LoadRequest) -> TableLimits {
    TableLimits { max_relocations: request.limits.max_relocations, max_record_bytes: None }
}

/// The relocations of a mapped image.
pub open spec fn image_relocations(request: LoadRequest, mapped: MappedView, content: Seq<u8>) -> LoadResult<
    Seq<RelocationRecord>,
> {
    let profile = request.profile;
    match mapped.dynamic {
        None => Ok(Seq::empty()),
        Some(dynamic) => match claim(
            dynamic_tags_spec(
                TagRules::Closed,
                content,
                mapped.regions,
                dynamic,
                profile.class,
                profile.endian,
                request.limits.max_dynamic_entries,
            ),
            LoadStage::Decode,
        ) {
            Err(error) => Err(error),
            Ok(tags) => claim(
                both_tables(
                    TagRules::Closed,
                    content,
                    mapped.regions,
                    tags,
                    profile.class,
                    profile.endian,
                    image_tables(request),
                ),
                LoadStage::Decode,
            ),
        },
    }
}

impl<R: ElfReader, M: ImageMemory> MappedImage<R, M> {
    fn decode_records(&self) -> (r: LoadResult<Vec<RelocationRecord>>)
        ensures
            r matches Ok(records) ==> image_relocations(
                self.request,
                self.mapped@,
                self.transaction.memory.content(),
            ) == Ok::<Seq<RelocationRecord>, LoadError>(records@),
            self.mapped@.dynamic is None ==> r is Ok,
            ready(self.transaction.memory) && regions_within(
                self.mapped@.regions,
                self.transaction.memory.content().len(),
            ) ==> match image_relocations(
                self.request,
                self.mapped@,
                self.transaction.memory.content(),
            ) {
                Ok(_) => r is Ok,
                Err(error) => r == Err::<Vec<RelocationRecord>, LoadError>(error),
            },
    {
        let mut relocations: Vec<RelocationRecord> = Vec::new();
        if let Some(dynamic) = self.mapped.dynamic() {
            let class = self.request.profile().class();
            let endian = self.request.profile().endian();
            let tables = TableLimits {
                max_relocations: self.request.limits().max_relocations,
                max_record_bytes: None,
            };
            let tags = claim_at(
                decode_dynamic_tags(
                    TagRules::Closed,
                    self.transaction.memory(),
                    &self.mapped.regions,
                    &dynamic,
                    class,
                    endian,
                    self.request.limits().max_dynamic_entries,
                ),
                LoadStage::Decode,
            )?;
            claim_at(
                decode_relocation_table(
                    TagRules::Closed,
                    self.transaction.memory(),
                    &self.mapped.regions,
                    tags.rel(),
                    RelocationTableKind::Rel,
                    class,
                    endian,
                    &tables,
                    &mut relocations,
                ),
                LoadStage::Decode,
            )?;
            let ghost rel = relocations@;
            assert(rel =~= relocation_table_spec(
                TagRules::Closed,
                self.transaction.memory.content(),
                self.mapped@.regions,
                tags.rel,
                RelocationTableKind::Rel,
                class,
                endian,
                tables,
                0,
            )->Ok_0);
            claim_at(
                decode_relocation_table(
                    TagRules::Closed,
                    self.transaction.memory(),
                    &self.mapped.regions,
                    tags.rela(),
                    RelocationTableKind::Rela,
                    class,
                    endian,
                    &tables,
                    &mut relocations,
                ),
                LoadStage::Decode,
            )?;
        }
        Ok(relocations)
    }

    /// Reads the relocations of the image. On failure the image is given up.
    pub fn decode(self) -> (r: StageResult<DecodedImage<R, M>, M>)
        requires
            self.transaction.active(),
        ensures
            match r {
                Err(failed) => given_up(failed.memory),
                Ok(image) => {
                    &&& image.reader == self.reader
                    &&& image.transaction == self.transaction
                    &&& image.request == self.request
                    &&& image.mapped == self.mapped
                    &&& image_relocations(
                        self.request,
                        self.mapped@,
                        self.transaction.memory.content(),
                    ) == Ok::<Seq<RelocationRecord>, LoadError>(image.relocations@)
                },
            },
            ready(self.transaction.memory) && regions_within(
                self.mapped@.regions,
                self.transaction.memory.content().len(),
            ) ==> match image_relocations(
                self.request,
                self.mapped@,
                self.transaction.memory.content(),
            ) {
                Ok(_) => r is Ok,
                Err(error) => r matches Err(failed) && failed.error == error,
            },
    {
        match self.decode_records() {
            Ok(relocations) => Ok(
                DecodedImage {
                    reader: self.reader,
                    transaction: self.transaction,
                    request: self.request,
                    mapped: self.mapped,
                    relocations,
                },
            ),
            Err(error) => Err(StageFailure { error, memory: self.transaction.finish() }),
        }
    }
}

/// Every segment of a plan that takes up memory has its region in the mapped image: at
/// the load bias plus its address, as far from the start of the allocation as from the
/// lowest address of the plan, and with its bytes of the file.
pub proof fn planned_segments_are_mapped(
    plan: PlannedView,
    request: LoadRequest,
    allocation: ImageAllocation,
    load_bias: TargetAddr,
    mapped: MappedView,
    segment: LoadSegmentInfo,
) -> (k: int)
    requires
        plan_mapped(plan, request, allocation, load_bias) == Ok::<MappedView, LoadError>(mapped),
        plan.found.load_segments.contains(segment),
        segment.memory_size != 0,
    ensures
        0 <= k < mapped.regions.len(),
        mapped.regions[k].vaddr_range.start == segment.vaddr,
        mapped.regions[k].vaddr_range.len == segment.memory_size,
        mapped.regions[k].runtime_range.start.0 == load_bias.0 + segment.vaddr.0,
        mapped.regions[k].allocation_offset + plan.aligned_min_vaddr.0 == segment.vaddr.0,
        mapped.regions[k].file_range == segment.file_range,
        mapped.regions[k].logical_permissions == segment.permissions,
        mapped.entry.0 == load_bias.0 + plan.entry_vaddr.0,
        mapped.canonical_entry.0 == load_bias.0 + plan.canonical_entry_vaddr.0,
{
    let loads = plan.found.load_segments;
    let layout = plan_layout_spec(plan);
    lemma_occupied(loads, loads.len() as int);
    let i = choose|i: int| 0 <= i < loads.len() && loads[i] == segment;
    assert(loads[i].memory_size != 0);
    let part = segment_layout(segment);
    assert(layout.segments.contains(part));
    let k = choose|k: int| 0 <= k < layout.segments.len() && layout.segments[k] == part;
    mapping_adds_the_load_bias(
        artifact_request_spec(request),
        plan.found.dynamic,
        layout,
        allocation,
        load_bias,
        mapped,
    );
    assert(mapped.regions[k].vaddr_range == layout.segments[k].vaddr_range);
    k
}

} // verus!
