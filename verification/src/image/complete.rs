//! What a plan promises: an artifact that was planned can be loaded.

use crate::address::TargetAddr;
use crate::elf::{ElfHeaderInfo, LoadSegmentInfo, ProgramHeaderFields};
use crate::error::LoadError;
use crate::identity::{ElfMachine, LoadPolicy, LoadRequest};
use crate::image::admission::{first_inspect_fault, inspect_spec, Inspection};
use crate::image::inspect::{
    first_meeting, image_plan, lemma_in_turn, segment_range, span_high, span_low,
    spans_cover_their_segments,
};
use crate::image::layout::{
    layout_spec, layouts_are_sound, load_bias_spec, occupied, LayoutView, SegmentLayout,
};
use crate::image::loaded::{
    all_apart, image_fits, lemma_regions_spec, mapped_spec, region_fits, region_spec,
    regions_apart, regions_spec, regions_within,
    LoadedRegion, MappedView,
};
use crate::image::map::{plan_layout_spec, plan_mapped};
use crate::image::parser::{first_fault, parse_spec, segments_of, ParsedView};
use crate::image::plan::{bias_spec, request_spec, PlannedView};
use crate::image::protection::{
    protection_plans_are_sound, protection_spec, record_sound, records_within,
    ProtectionCapabilities, ProtectionRecord,
};
use crate::image::seal::{
    in_place, mapped_layouts_are_in_place, part_in_place, region_in_place, regions_in_order,
    seal_plans_tile_the_image, seal_spec,
};
use crate::memory::{AllocationRequest, ImageAllocation};
use crate::permissions::MemoryPermissions;
use crate::request::ArtifactRequest;
use crate::sort::{sorted, sorting_is_a_sorted_permutation, sorting_keeps_the_items};
use vstd::prelude::*;

verus! {

/// Whether the file bytes of every segment lie in a file of this size.
pub open spec fn segments_in_file(segments: Seq<LoadSegmentInfo>, file_len: u64) -> bool {
    forall|i: int|
        0 <= i < segments.len() ==> (#[trigger] segments[i]).file_range.limit() <= file_len
}

/// Whether the file bytes of every layout lie in a file of this size.
pub open spec fn layouts_in_file(segments: Seq<SegmentLayout>, file_len: u64) -> bool {
    forall|i: int|
        0 <= i < segments.len() ==> (#[trigger] segments[i]).file_range.limit() <= file_len
}

proof fn lemma_parsed_in_file(headers: Seq<ProgramHeaderFields>, k: int, file_len: u64)
    requires
        0 <= k <= headers.len(),
        first_fault(headers, k, file_len) is Ok,
    ensures
        segments_in_file(segments_of(headers, k), file_len),
    decreases k,
{
    if k > 0 {
        lemma_parsed_in_file(headers, k - 1, file_len);
        let before = segments_of(headers, k - 1);
        let after = segments_of(headers, k);
        assert forall|i: int| 0 <= i < after.len() implies (
        #[trigger] after[i]).file_range.limit() <= file_len by {
            if i < before.len() {
                assert(after[i] == before[i]);
            }
        }
    }
}

/// The layouts of segments have the file bytes of those segments.
pub proof fn lemma_occupied_in_file(segments: Seq<LoadSegmentInfo>, k: int, file_len: u64)
    requires
        0 <= k <= segments.len(),
        segments_in_file(segments, file_len),
    ensures
        layouts_in_file(occupied(segments, k), file_len),
    decreases k,
{
    if k > 0 {
        lemma_occupied_in_file(segments, k - 1, file_len);
        let before = occupied(segments, k - 1);
        let after = occupied(segments, k);
        assert(segments[k - 1].file_range.limit() <= file_len);
        assert forall|i: int| 0 <= i < after.len() implies (
        #[trigger] after[i]).file_range.limit() <= file_len by {
            if i < before.len() {
                assert(after[i] == before[i]);
            }
        }
    }
}

/// Sorting layouts keeps their file bytes.
pub proof fn lemma_sorted_in_file(segments: Seq<SegmentLayout>, file_len: u64)
    requires
        layouts_in_file(segments, file_len),
    ensures
        layouts_in_file(sorted(segments), file_len),
{
    let ordered = sorted(segments);
    assert forall|i: int| 0 <= i < ordered.len() implies (
    #[trigger] ordered[i]).file_range.limit() <= file_len by {
        sorting_keeps_the_items(segments, ordered[i]);
        assert(ordered.contains(ordered[i]));
        let j = choose|j: int| 0 <= j < segments.len() && segments[j] == ordered[i];
        assert(segments[j].file_range.limit() <= file_len);
    }
}

/// Every segment has a region wherever the end of the image is an address.
pub proof fn lemma_regions_exist(
    layout: LayoutView,
    k: int,
    base: TargetAddr,
    load_bias: TargetAddr,
)
    requires
        0 <= k <= layout.segments.len(),
        load_bias.0 + layout.aligned_min_vaddr.0 == base.0,
        base.0 + layout.image_span <= u64::MAX,
        layout.aligned_min_vaddr.0 + layout.image_span == layout.aligned_max_vaddr.0,
        forall|i: int|
            0 <= i < layout.segments.len() ==> {
                &&& layout.aligned_min_vaddr.0 <= (
                #[trigger] layout.segments[i]).vaddr_range.start.0
                &&& layout.segments[i].vaddr_range.limit() <= layout.aligned_max_vaddr.0
            },
    ensures
        regions_spec(layout.segments, k, layout.aligned_min_vaddr, load_bias) is Ok,
    decreases k,
{
    if k > 0 {
        lemma_regions_exist(layout, k - 1, base, load_bias);
        assert(layout.aligned_min_vaddr.0 <= layout.segments[k - 1].vaddr_range.start.0);
    }
}

/// Every planned artifact can be mapped, wherever the end of its image is an
/// address and the allocation gives it a load bias: its regions exist, they are in
/// place, and so is its seal plan.
pub proof fn planned_artifacts_can_be_mapped(
    parsed: ParsedView,
    request: ArtifactRequest,
    layout: LayoutView,
    allocation: ImageAllocation,
    load_bias: TargetAddr,
)
    requires
        layout_spec(parsed, request.profile, request.limits) == Ok::<LayoutView, LoadError>(layout),
        load_bias_spec(layout, allocation.base, request.expected) == Ok::<TargetAddr, LoadError>(
            load_bias,
        ),
        allocation.base.0 + layout.image_span <= u64::MAX,
    ensures
        mapped_spec(request, parsed.dynamic, layout, allocation, load_bias) is Ok,
        in_place(mapped_spec(request, parsed.dynamic, layout, allocation, load_bias)->Ok_0),
        seal_spec(
            mapped_spec(request, parsed.dynamic, layout, allocation, load_bias)->Ok_0,
        ) is Ok,
{
    layouts_are_sound(parsed, request.profile, request.limits, layout);
    let n = layout.segments.len() as int;
    lemma_regions_exist(layout, n, allocation.base, load_bias);
    let entry = layout.canonical_entry_vaddr;
    let span = request.profile.entry_mode.instruction_spec();
    let i = choose|i: int|
        0 <= i < layout.segments.len() && (#[trigger] layout.segments[i]).serves(
            entry,
            span,
            MemoryPermissions::spec_execute(),
        );
    assert(layout.segments[i].vaddr_range.limit() <= layout.aligned_max_vaddr.0);
    assert(entry.0 + span <= layout.aligned_max_vaddr.0);
    assert(layout.entry_vaddr.0 <= entry.0 + 1);
    let mapped = mapped_spec(request, parsed.dynamic, layout, allocation, load_bias)->Ok_0;
    mapped_layouts_are_in_place(parsed, request, layout, allocation, load_bias, mapped);
    seal_plans_tile_the_image(mapped);
}

/// A planned artifact fits its memory and its file: copying it cannot leave either.
pub proof fn planned_artifacts_fit(
    header: ElfHeaderInfo,
    headers: Seq<ProgramHeaderFields>,
    file_len: u64,
    parsed: ParsedView,
    request: ArtifactRequest,
    layout: LayoutView,
    allocation: ImageAllocation,
    load_bias: TargetAddr,
    mapped: MappedView,
)
    requires
        parse_spec(header, headers, file_len) == Ok::<ParsedView, LoadError>(parsed),
        layout_spec(parsed, request.profile, request.limits) == Ok::<LayoutView, LoadError>(layout),
        load_bias_spec(layout, allocation.base, request.expected) == Ok::<TargetAddr, LoadError>(
            load_bias,
        ),
        mapped_spec(request, parsed.dynamic, layout, allocation, load_bias) == Ok::<
            MappedView,
            LoadError,
        >(mapped),
        allocation.base.0 + layout.image_span <= u64::MAX,
        layout.image_span <= allocation.len,
    ensures
        image_fits(mapped, allocation.len as nat, file_len as nat),
{
    mapped_layouts_are_in_place(parsed, request, layout, allocation, load_bias, mapped);
    lemma_parsed_in_file(headers, headers.len() as int, file_len);
    let loads = parsed.load_segments;
    lemma_occupied_in_file(loads, loads.len() as int, file_len);
    lemma_sorted_in_file(occupied(loads, loads.len() as int), file_len);
    lemma_regions_spec(
        layout.segments,
        layout.segments.len() as int,
        layout.aligned_min_vaddr,
        load_bias,
    );
    assert forall|i: int| 0 <= i < mapped.regions.len() implies region_fits(
        #[trigger] mapped.regions[i],
        allocation.len as nat,
        file_len as nat,
    ) by {
        assert(region_in_place(mapped, mapped.regions[i]));
        assert(layout.segments[i].file_range.limit() <= file_len);
        assert(region_spec(layout.segments[i], layout.aligned_min_vaddr, load_bias) == Ok::<
            LoadedRegion,
            LoadError,
        >(mapped.regions[i]));
    }
}

/// The granules of a sealed image lie in its memory.
pub proof fn protected_granules_lie_in_memory(
    mapped: MappedView,
    capabilities: ProtectionCapabilities,
    records: Seq<ProtectionRecord>,
)
    requires
        in_place(mapped),
        protection_spec(mapped.allocation, seal_spec(mapped)->Ok_0, capabilities) == Ok::<
            Seq<ProtectionRecord>,
            LoadError,
        >(records),
    ensures
        records_within(records, mapped.allocation.len as nat),
{
    let parts = seal_spec(mapped)->Ok_0;
    seal_plans_tile_the_image(mapped);
    protection_plans_are_sound(
        mapped.allocation,
        capabilities.granule,
        parts,
        parts.len() as int,
    );
    assert forall|i: int| 0 <= i < records.len() implies (
    #[trigger] records[i]).location.offset + records[i].applied_range.len
        <= mapped.allocation.len by {
        assert(record_sound(mapped.allocation, capabilities.granule, parts[i], records[i]));
        assert(part_in_place(mapped, parts[i]));
    }
}

proof fn lemma_inspected_in_file(
    headers: Seq<ProgramHeaderFields>,
    k: int,
    file_len: u64,
    machine: ElfMachine,
    policy: LoadPolicy,
)
    requires
        0 <= k <= headers.len(),
        first_inspect_fault(headers, k, file_len, machine, policy) is Ok,
    ensures
        segments_in_file(segments_of(headers, k), file_len),
        segments_filled(segments_of(headers, k)),
    decreases k,
{
    if k > 0 {
        lemma_inspected_in_file(headers, k - 1, file_len, machine, policy);
        let before = segments_of(headers, k - 1);
        let after = segments_of(headers, k);
        assert forall|i: int| 0 <= i < after.len() implies (
        #[trigger] after[i]).file_range.limit() <= file_len && after[i].file_range.len
            <= after[i].memory_size by {
            if i < before.len() {
                assert(after[i] == before[i]);
            }
        }
    }
}

/// Whether no segment has more bytes in the file than in memory.
pub open spec fn segments_filled(segments: Seq<LoadSegmentInfo>) -> bool {
    forall|i: int|
        0 <= i < segments.len() ==> (#[trigger] segments[i]).file_range.len
            <= segments[i].memory_size
}

/// Every layout of a segment that takes up memory is that of some segment.
proof fn lemma_occupied_source(segments: Seq<LoadSegmentInfo>, k: int, i: int) -> (j: int)
    requires
        0 <= k <= segments.len(),
        0 <= i < occupied(segments, k).len(),
    ensures
        0 <= j < k,
        occupied(segments, k)[i].vaddr_range == segment_range(segments[j]),
        occupied(segments, k)[i].file_range == segments[j].file_range,
        segments[j].memory_size != 0,
    decreases k,
{
    if segments[k - 1].memory_size != 0 && i == occupied(segments, k - 1).len() {
        k - 1
    } else {
        lemma_occupied_source(segments, k - 1, i)
    }
}

/// The layouts of segments that take up memory come in the order of the segments.
proof fn lemma_occupied_order(segments: Seq<LoadSegmentInfo>, k: int)
    requires
        0 <= k <= segments.len(),
        crate::sort::ascending(segments),
        first_meeting(segments, segments.len() as int) is None,
    ensures
        forall|a: int, b: int|
            0 <= a < b < occupied(segments, k).len() ==> (#[trigger] occupied(
                segments,
                k,
            )[a]).vaddr_range.limit() <= (#[trigger] occupied(segments, k)[b]).vaddr_range.start.0,
    decreases k,
{
    if k > 0 {
        lemma_occupied_order(segments, k - 1);
        lemma_in_turn(segments, segments.len() as int);
        let before = occupied(segments, k - 1);
        let after = occupied(segments, k);
        assert forall|a: int, b: int| 0 <= a < b < after.len() implies (
        #[trigger] after[a]).vaddr_range.limit() <= (#[trigger] after[b]).vaddr_range.start.0 by {
            assert(after[a] == before[a]);
            if b < before.len() {
                assert(after[b] == before[b]);
            } else {
                let j = lemma_occupied_source(segments, k - 1, a);
                assert(segment_range(segments[j]).limit() <= segments[k - 1].vaddr.0);
            }
        }
    }
}

/// An inspected and planned image fits its memory and its file: copying it cannot
/// leave either, and its regions lie in order where the load bias puts them, no two of
/// them sharing memory. So its seal plan tiles it.
pub proof fn planned_images_fit(
    request: LoadRequest,
    header: ElfHeaderInfo,
    headers: Seq<ProgramHeaderFields>,
    file_len: u64,
    policy: LoadPolicy,
    found: Inspection,
    plan: PlannedView,
    asked: AllocationRequest,
    allocation: ImageAllocation,
    load_bias: TargetAddr,
    mapped: MappedView,
)
    requires
        inspect_spec(request, header.machine, headers, file_len, policy) == Ok::<
            Inspection,
            LoadError,
        >(found),
        image_plan(request, header, found) == Ok::<PlannedView, LoadError>(plan),
        request_spec(plan, request.profile.elf_type) == Ok::<AllocationRequest, LoadError>(asked),
        bias_spec(plan, asked, request.profile.class, allocation) == Ok::<TargetAddr, LoadError>(
            load_bias,
        ),
        plan_mapped(plan, request, allocation, load_bias) == Ok::<MappedView, LoadError>(mapped),
    ensures
        image_fits(mapped, allocation.len as nat, file_len as nat),
        regions_within(mapped.regions, mapped.image_span as nat),
        all_apart(mapped),
        in_place(mapped),
{
    let n = headers.len() as int;
    lemma_inspected_in_file(headers, n, file_len, header.machine, policy);
    let loads = found.load_segments;
    let segments = sorted(loads);
    sorting_is_a_sorted_permutation(loads);
    spans_cover_their_segments(segments);
    assert forall|j: int| 0 <= j < segments.len() implies (
    #[trigger] segments[j]).file_range.limit() <= file_len && segments[j].file_range.len
        <= segments[j].memory_size by {
        sorting_keeps_the_items(loads, segments[j]);
        assert(segments.contains(segments[j]));
        let i = choose|i: int| 0 <= i < loads.len() && loads[i] == segments[j];
        assert(loads[i].file_range.limit() <= file_len);
    }
    let layout = plan_layout_spec(plan);
    lemma_regions_spec(
        layout.segments,
        layout.segments.len() as int,
        layout.aligned_min_vaddr,
        load_bias,
    );
    assert forall|i: int| 0 <= i < mapped.regions.len() implies region_fits(
        #[trigger] mapped.regions[i],
        allocation.len as nat,
        file_len as nat,
    ) && mapped.regions[i].allocation_offset + mapped.regions[i].vaddr_range.len
        <= mapped.image_span by {
        assert(region_spec(layout.segments[i], layout.aligned_min_vaddr, load_bias) == Ok::<
            LoadedRegion,
            LoadError,
        >(mapped.regions[i]));
        let j = lemma_occupied_source(segments, segments.len() as int, i);
        assert(span_low(segments) <= segments[j].vaddr.0);
        assert(segment_range(segments[j]).limit() <= span_high(segments));
    }
    lemma_occupied_order(segments, segments.len() as int);
    assert forall|a: int, b: int| 0 <= a < b < mapped.regions.len() implies regions_apart(
        #[trigger] mapped.regions[a],
        #[trigger] mapped.regions[b],
    ) by {
        let low = layout.aligned_min_vaddr;
        assert(region_spec(layout.segments[a], low, load_bias) == Ok::<LoadedRegion, LoadError>(
            mapped.regions[a],
        ));
        assert(region_spec(layout.segments[b], low, load_bias) == Ok::<LoadedRegion, LoadError>(
            mapped.regions[b],
        ));
        assert(layout.segments[a].vaddr_range.limit() <= layout.segments[b].vaddr_range.start.0);
    }
    assert(mapped.allocation.base.0 + mapped.image_span <= u64::MAX);
    assert(mapped.relro matches Some(relro) ==> relro.bounded());
    assert forall|i: int| 0 <= i < mapped.regions.len() implies region_in_place(
        mapped,
        #[trigger] mapped.regions[i],
    ) by {
        assert(region_spec(layout.segments[i], layout.aligned_min_vaddr, load_bias) == Ok::<
            LoadedRegion,
            LoadError,
        >(mapped.regions[i]));
        let j = lemma_occupied_source(segments, segments.len() as int, i);
        assert(segments[j].memory_size != 0);
        assert(region_fits(mapped.regions[i], allocation.len as nat, file_len as nat));
    }
    assert forall|a: int, b: int| 0 <= a < b < mapped.regions.len() implies regions_in_order(
        #[trigger] mapped.regions[a],
        #[trigger] mapped.regions[b],
    ) by {
        let low = layout.aligned_min_vaddr;
        assert(region_spec(layout.segments[a], low, load_bias) == Ok::<LoadedRegion, LoadError>(
            mapped.regions[a],
        ));
        assert(region_spec(layout.segments[b], low, load_bias) == Ok::<LoadedRegion, LoadError>(
            mapped.regions[b],
        ));
        assert(layout.segments[a].vaddr_range.limit() <= layout.segments[b].vaddr_range.start.0);
    }
}

} // verus!
