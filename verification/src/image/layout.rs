//! The memory layout of a parsed image.

use crate::address::{claim_range, range_at, FileRange, TargetAddr, TargetRange};
use crate::arith::{floor_to, is_power_of_two, lemma_ceil_to, lemma_floor_to, power_of_two};
use crate::elf::{DynamicSegmentInfo, ElfHeaderInfo, LoadSegmentInfo, ProgramHeaderFields};
use crate::error::{
    claim, claim_at, fail_at, failure, ErrorContext, LimitKind, LoadError, LoadErrorKind,
    LoadResult, LoadStage, ProgramHeaderField,
};
use crate::image::features::{ArtifactFeaturePolicy, Phase0ArtifactPolicy};
use crate::image::parser::{
    headers_in, parse_spec, parsed_segments_are_loadable_headers, table_readable, unparsed,
    ImageLoader, ParsedImage, ParsedView,
};
use crate::limits::{over_limit, LoadLimits};
use crate::memory::{AllocationRequest, Placement};
use crate::permissions::MemoryPermissions;
use crate::reader::ElfReader;
use crate::request::{AdmittedArtifact, ArtifactProfile, ExpectedElfType};
use crate::sort::{ascending, sort_by_rank, sorted, sorting_is_a_sorted_permutation, Ranked};
use vstd::prelude::*;

verus! {

/// One loadable segment with its final alignment.
#[derive(Clone, Copy, Debug, PartialEq, Eq, Structural)]
pub struct SegmentLayout {
    pub source_index: u16,
    pub vaddr_range: TargetRange,
    pub file_range: FileRange,
    pub align: u64,
    pub permissions: MemoryPermissions,
}

impl SegmentLayout {
    /// Whether the segment holds the `len` addresses from `vaddr` on and allows
    /// `permissions`.
    pub open spec fn serves(self, vaddr: TargetAddr, len: u64, permissions: MemoryPermissions) -> bool {
        self.vaddr_range.holds(vaddr, len) && self.permissions.covers(permissions)
    }

    #[inline]
    pub fn source_index(&self) -> (r: u16)
        ensures
            r == self.source_index,
    {
        self.source_index
    }

    #[inline]
    pub fn vaddr_range(&self) -> (r: TargetRange)
        ensures
            r == self.vaddr_range,
    {
        self.vaddr_range
    }

    #[inline]
    pub fn file_range(&self) -> (r: FileRange)
        ensures
            r == self.file_range,
    {
        self.file_range
    }

    #[inline]
    pub fn align(&self) -> (r: u64)
        ensures
            r == self.align,
    {
        self.align
    }

    #[inline]
    pub fn permissions(&self) -> (r: MemoryPermissions)
        ensures
            r == self.permissions,
    {
        self.permissions
    }
}

impl Ranked for SegmentLayout {
    open spec fn rank(self) -> int {
        self.vaddr_range.start.0 as int
    }

    fn rank_of(self) -> (r: u64) {
        self.vaddr_range.start().get()
    }
}

/// Where the segments of an image go.
pub struct ImageLayout {
    pub aligned_min_vaddr: TargetAddr,
    pub aligned_max_vaddr: TargetAddr,
    pub image_span: u64,
    pub max_align: u64,
    pub entry_vaddr: TargetAddr,
    pub canonical_entry_vaddr: TargetAddr,
    pub segments: Vec<SegmentLayout>,
    pub relro: Option<TargetRange>,
}

/// The contents of an image layout.
#[verifier::ext_equal]
pub struct LayoutView {
    pub aligned_min_vaddr: TargetAddr,
    pub aligned_max_vaddr: TargetAddr,
    pub image_span: u64,
    pub max_align: u64,
    pub entry_vaddr: TargetAddr,
    pub canonical_entry_vaddr: TargetAddr,
    pub segments: Seq<SegmentLayout>,
    pub relro: Option<TargetRange>,
}

impl View for ImageLayout {
    type V = LayoutView;

    open spec fn view(&self) -> LayoutView {
        LayoutView {
            aligned_min_vaddr: self.aligned_min_vaddr,
            aligned_max_vaddr: self.aligned_max_vaddr,
            image_span: self.image_span,
            max_align: self.max_align,
            entry_vaddr: self.entry_vaddr,
            canonical_entry_vaddr: self.canonical_entry_vaddr,
            segments: self.segments@,
            relro: self.relro,
        }
    }
}

/// A place inside a segment.
#[derive(Clone, Copy, Debug, PartialEq, Eq, Structural)]
pub struct SegmentLocation {
    pub segment_index: usize,
    pub offset_in_segment: u64,
}

impl SegmentLocation {
    #[inline]
    pub fn segment_index(self) -> (r: usize)
        ensures
            r == self.segment_index,
    {
        self.segment_index
    }

    #[inline]
    pub fn offset_in_segment(self) -> (r: u64)
        ensures
            r == self.offset_in_segment,
    {
        self.offset_in_segment
    }
}

/// The first segment from `from` on that serves the request.
pub open spec fn first_serving(
    segments: Seq<SegmentLayout>,
    from: int,
    vaddr: TargetAddr,
    len: u64,
    permissions: MemoryPermissions,
) -> Option<int>
    decreases segments.len() - from,
{
    if from >= segments.len() {
        None
    } else if segments[from].serves(vaddr, len, permissions) {
        Some(from)
    } else {
        first_serving(segments, from + 1, vaddr, len, permissions)
    }
}

/// Whether some segment serves the request.
pub open spec fn served(
    segments: Seq<SegmentLayout>,
    vaddr: TargetAddr,
    len: u64,
    permissions: MemoryPermissions,
) -> bool {
    exists|i: int|
        0 <= i < segments.len() && (#[trigger] segments[i]).serves(vaddr, len, permissions)
}

proof fn lemma_first_serving(
    segments: Seq<SegmentLayout>,
    from: int,
    vaddr: TargetAddr,
    len: u64,
    permissions: MemoryPermissions,
)
    requires
        0 <= from <= segments.len(),
    ensures
        match first_serving(segments, from, vaddr, len, permissions) {
            Some(i) => from <= i < segments.len() && segments[i].serves(vaddr, len, permissions),
            None => forall|i: int|
                from <= i < segments.len() ==> !(#[trigger] segments[i]).serves(
                    vaddr,
                    len,
                    permissions,
                ),
        },
    decreases segments.len() - from,
{
    if from < segments.len() && !segments[from].serves(vaddr, len, permissions) {
        lemma_first_serving(segments, from + 1, vaddr, len, permissions);
    }
}

fn find_serving(
    segments: &Vec<SegmentLayout>,
    vaddr: TargetAddr,
    len: u64,
    permissions: MemoryPermissions,
) -> (r: Option<usize>)
    ensures
        match r {
            Some(i) => first_serving(segments@, 0, vaddr, len, permissions) == Some(i as int) && i
                < segments@.len() && segments@[i as int].serves(vaddr, len, permissions),
            None => first_serving(segments@, 0, vaddr, len, permissions) is None,
        },
        r is Some <==> served(segments@, vaddr, len, permissions),
{
    let mut index: usize = 0;
    proof {
        lemma_first_serving(segments@, 0, vaddr, len, permissions);
    }
    while index < segments.len()
        invariant
            index <= segments@.len(),
            first_serving(segments@, 0, vaddr, len, permissions) == first_serving(
                segments@,
                index as int,
                vaddr,
                len,
                permissions,
            ),
        decreases segments@.len() - index,
    {
        let segment = segments[index];
        if segment.vaddr_range.contains_span(vaddr, len) && segment.permissions.contains(
            permissions,
        ) {
            return Some(index);
        }
        index = index + 1;
    }
    None
}

/// The allocation that a laid out image needs.
pub open spec fn allocation_for(layout: LayoutView, expected: ExpectedElfType) -> AllocationRequest {
    AllocationRequest {
        placement: match expected {
            ExpectedElfType::Dyn => Placement::Anywhere,
            ExpectedElfType::Exec => Placement::Fixed(
                TargetRange { start: layout.aligned_min_vaddr, len: layout.image_span },
            ),
        },
        size: layout.image_span,
        align: layout.max_align,
    }
}

impl ImageLayout {
    #[inline]
    pub fn aligned_min_vaddr(&self) -> (r: TargetAddr)
        ensures
            r == self@.aligned_min_vaddr,
    {
        self.aligned_min_vaddr
    }

    #[inline]
    pub fn aligned_max_vaddr(&self) -> (r: TargetAddr)
        ensures
            r == self@.aligned_max_vaddr,
    {
        self.aligned_max_vaddr
    }

    #[inline]
    pub fn image_span(&self) -> (r: u64)
        ensures
            r == self@.image_span,
    {
        self.image_span
    }

    #[inline]
    pub fn max_align(&self) -> (r: u64)
        ensures
            r == self@.max_align,
    {
        self.max_align
    }

    #[inline]
    pub fn entry_vaddr(&self) -> (r: TargetAddr)
        ensures
            r == self@.entry_vaddr,
    {
        self.entry_vaddr
    }

    #[inline]
    pub fn canonical_entry_vaddr(&self) -> (r: TargetAddr)
        ensures
            r == self@.canonical_entry_vaddr,
    {
        self.canonical_entry_vaddr
    }

    #[inline]
    pub fn segments(&self) -> (r: &[SegmentLayout])
        ensures
            r@ == self@.segments,
    {
        self.segments.as_slice()
    }

    #[inline]
    pub fn relro(&self) -> (r: Option<TargetRange>)
        ensures
            r == self@.relro,
    {
        self.relro
    }

    /// The distance from the linked to the mapped address of the image.
    pub fn load_bias_for(&self, mapped_base: TargetAddr, expected_elf_type: ExpectedElfType) -> (r:
        LoadResult<TargetAddr>)
        ensures
            r == load_bias_spec(self@, mapped_base, expected_elf_type),
    {
        match expected_elf_type {
            ExpectedElfType::Dyn => {
                let bias: u64 = claim_range(
                    mapped_base.checked_sub(self.aligned_min_vaddr),
                    LoadStage::Plan,
                )?;
                Ok(TargetAddr::new(bias))
            },
            ExpectedElfType::Exec => {
                if mapped_base == self.aligned_min_vaddr {
                    Ok(TargetAddr::new(0))
                } else {
                    Err(
                        fail_at(
                            LoadStage::Plan,
                            LoadErrorKind::OutOfBounds,
                            ErrorContext::TargetRange {
                                start: mapped_base,
                                len: self.image_span,
                                align: 0,
                            },
                        ),
                    )
                }
            },
        }
    }

    /// The allocation that the image needs.
    pub fn allocation_request(&self, expected_elf_type: ExpectedElfType) -> (r: AllocationRequest)
        ensures
            r == allocation_for(self@, expected_elf_type),
    {
        let placement = match expected_elf_type {
            ExpectedElfType::Dyn => Placement::Anywhere,
            ExpectedElfType::Exec => Placement::Fixed(
                TargetRange::new(self.aligned_min_vaddr, self.image_span),
            ),
        };
        AllocationRequest::new(placement, self.image_span, self.max_align)
    }

    /// The segment that holds a range of virtual addresses.
    pub fn locate_vaddr_range(
        &self,
        vaddr: TargetAddr,
        len: u64,
        permissions: MemoryPermissions,
    ) -> (r: LoadResult<SegmentLocation>)
        ensures
            match first_serving(self@.segments, 0, vaddr, len, permissions) {
                Some(i) => r == Ok::<SegmentLocation, LoadError>(
                    SegmentLocation {
                        segment_index: i as usize,
                        offset_in_segment: (vaddr.0
                            - self@.segments[i].vaddr_range.start.0) as u64,
                    },
                ),
                None => r == Err::<SegmentLocation, LoadError>(
                    failure(
                        LoadStage::Plan,
                        LoadErrorKind::OutOfBounds,
                        ErrorContext::TargetRange { start: vaddr, len, align: 0 },
                    ),
                ),
            },
            r is Ok <==> served(self@.segments, vaddr, len, permissions),
    {
        match find_serving(&self.segments, vaddr, len, permissions) {
            Some(index) => Ok(
                SegmentLocation {
                    segment_index: index,
                    offset_in_segment: vaddr.get() - self.segments[index].vaddr_range.start().get(),
                },
            ),
            None => Err(
                fail_at(
                    LoadStage::Plan,
                    LoadErrorKind::OutOfBounds,
                    ErrorContext::TargetRange { start: vaddr, len, align: 0 },
                ),
            ),
        }
    }
}

pub open spec fn load_bias_spec(
    layout: LayoutView,
    mapped_base: TargetAddr,
    expected: ExpectedElfType,
) -> LoadResult<TargetAddr> {
    match expected {
        ExpectedElfType::Dyn => match range_at(
            mapped_base.sub_spec(layout.aligned_min_vaddr),
            LoadStage::Plan,
        ) {
            Ok(bias) => Ok(TargetAddr(bias)),
            Err(error) => Err(error),
        },
        ExpectedElfType::Exec => if mapped_base == layout.aligned_min_vaddr {
            Ok(TargetAddr(0))
        } else {
            Err(
                failure(
                    LoadStage::Plan,
                    LoadErrorKind::OutOfBounds,
                    ErrorContext::TargetRange {
                        start: mapped_base,
                        len: layout.image_span,
                        align: 0,
                    },
                ),
            )
        },
    }
}

/// A program header that planning rejects.
pub open spec fn rejected(
    kind: LoadErrorKind,
    index: u16,
    field: ProgramHeaderField,
    value: u64,
) -> LoadError {
    failure(LoadStage::Plan, kind, ErrorContext::ProgramHeader { index, field, value })
}

/// The alignment that a declared alignment stands for.
pub open spec fn normal_align(align: u64) -> u64 {
    if align <= 1 {
        1
    } else {
        align
    }
}

/// What is wrong with one loadable segment.
pub open spec fn segment_fault(segment: LoadSegmentInfo, limits: LoadLimits) -> LoadResult<()> {
    let align = normal_align(segment.align);
    let range = TargetRange { start: segment.vaddr, len: segment.memory_size };
    if segment.file_range.len > segment.memory_size {
        Err(
            rejected(
                LoadErrorKind::BadElf,
                segment.index,
                ProgramHeaderField::FileRange,
                segment.file_range.len,
            ),
        )
    } else if segment.memory_size == 0 {
        Ok(())
    } else if !power_of_two(align as int) {
        Err(
            rejected(
                LoadErrorKind::InvalidAlignment,
                segment.index,
                ProgramHeaderField::Align,
                align,
            ),
        )
    } else if align > limits.max_segment_alignment {
        Err(
            over_limit(
                LoadStage::Plan,
                LimitKind::SegmentAlignment,
                align,
                limits.max_segment_alignment,
            ),
        )
    } else if segment.file_range.offset % align != segment.vaddr.0 % align {
        Err(
            rejected(
                LoadErrorKind::BadElf,
                segment.index,
                ProgramHeaderField::Align,
                align,
            ),
        )
    } else if !range.bounded() {
        Err(crate::address::range_overflow(range.start, range.len).at_spec(LoadStage::Plan))
    } else if segment.permissions.writable() && segment.permissions.executable() {
        Err(
            rejected(
                LoadErrorKind::PermissionConflict,
                segment.index,
                ProgramHeaderField::VirtualRange,
                segment.vaddr.0,
            ),
        )
    } else {
        Ok(())
    }
}

/// What is wrong with the first faulty one of the first `k` segments.
pub open spec fn first_segment_fault(
    segments: Seq<LoadSegmentInfo>,
    k: int,
    limits: LoadLimits,
) -> LoadResult<()>
    decreases k,
{
    if k <= 0 {
        Ok(())
    } else {
        match first_segment_fault(segments, k - 1, limits) {
            Err(error) => Err(error),
            Ok(_) => segment_fault(segments[k - 1], limits),
        }
    }
}

/// The layout of one segment that takes up memory.
pub open spec fn segment_layout(segment: LoadSegmentInfo) -> SegmentLayout {
    SegmentLayout {
        source_index: segment.index,
        vaddr_range: TargetRange { start: segment.vaddr, len: segment.memory_size },
        file_range: segment.file_range,
        align: normal_align(segment.align),
        permissions: segment.permissions,
    }
}

/// The layouts of those of the first `k` segments that take up memory.
pub open spec fn occupied(segments: Seq<LoadSegmentInfo>, k: int) -> Seq<SegmentLayout>
    decreases k,
{
    if k <= 0 {
        Seq::empty()
    } else if segments[k - 1].memory_size == 0 {
        occupied(segments, k - 1)
    } else {
        occupied(segments, k - 1).push(segment_layout(segments[k - 1]))
    }
}

/// The first of the segments behind number 0 and before number `k` that meets
/// its predecessor.
pub open spec fn first_overlap(segments: Seq<SegmentLayout>, k: int) -> Option<int>
    decreases k,
{
    if k <= 1 {
        None
    } else {
        match first_overlap(segments, k - 1) {
            Some(i) => Some(i),
            None => if segments[k - 2].vaddr_range.meets(segments[k - 1].vaddr_range) {
                Some(k - 1)
            } else {
                None
            },
        }
    }
}

/// The largest alignment of the first `k` segments.
pub open spec fn largest_align(segments: Seq<SegmentLayout>, k: int) -> u64
    decreases k,
{
    if k <= 0 {
        1
    } else if segments[k - 1].align > largest_align(segments, k - 1) {
        segments[k - 1].align
    } else {
        largest_align(segments, k - 1)
    }
}

/// The highest end of the first `k` segments.
pub open spec fn highest_end(segments: Seq<SegmentLayout>, k: int) -> int
    decreases k,
{
    if k <= 0 {
        0
    } else if segments[k - 1].vaddr_range.limit() > highest_end(segments, k - 1) {
        segments[k - 1].vaddr_range.limit()
    } else {
        highest_end(segments, k - 1)
    }
}

/// The bytes that the descriptions of `count` segments take.
pub open spec fn layout_bytes_spec(count: nat) -> u64 {
    let bytes = count * (vstd::layout::size_of::<LoadSegmentInfo>() + vstd::layout::size_of::<
        SegmentLayout,
    >());
    if bytes <= usize::MAX {
        bytes as u64
    } else {
        u64::MAX
    }
}

/// What is wrong with a dynamic segment among these segments.
pub open spec fn dynamic_fault(
    dynamic: DynamicSegmentInfo,
    segments: Seq<SegmentLayout>,
) -> LoadResult<()> {
    let size = dynamic.file_range.len;
    if size == 0 || size > dynamic.memory_size {
        Err(
            rejected(
                LoadErrorKind::BadElf,
                dynamic.index,
                ProgramHeaderField::FileRange,
                size,
            ),
        )
    } else {
        match first_serving(
            segments,
            0,
            dynamic.vaddr,
            dynamic.memory_size,
            MemoryPermissions::spec_read(),
        ) {
            None => Err(
                rejected(
                    LoadErrorKind::OutOfBounds,
                    dynamic.index,
                    ProgramHeaderField::VirtualRange,
                    dynamic.vaddr.0,
                ),
            ),
            Some(i) => {
                let offset = dynamic.vaddr.0 - segments[i].vaddr_range.start.0;
                if segments[i].file_range.offset + offset == dynamic.file_range.offset && offset
                    + size <= segments[i].file_range.len {
                    Ok(())
                } else {
                    Err(
                        rejected(
                            LoadErrorKind::OutOfBounds,
                            dynamic.index,
                            ProgramHeaderField::FileRange,
                            dynamic.file_range.offset,
                        ),
                    )
                }
            },
        }
    }
}

/// What is wrong with the entry, the read-only-after-relocation range or the
/// dynamic segment of an image with these segments.
pub open spec fn contents_fault(
    parsed: ParsedView,
    profile: ArtifactProfile,
    segments: Seq<SegmentLayout>,
) -> LoadResult<()> {
    let entry = TargetAddr(profile.entry_mode.canonical_spec(parsed.header.entry));
    let entry_span = profile.entry_mode.instruction_spec();
    if !served(segments, entry, entry_span, MemoryPermissions::spec_execute()) {
        Err(
            failure(
                LoadStage::Plan,
                LoadErrorKind::PermissionConflict,
                ErrorContext::TargetRange { start: entry, len: entry_span, align: 0 },
            ),
        )
    } else if parsed.relro is Some && !served(
        segments,
        parsed.relro->0.start,
        parsed.relro->0.len,
        MemoryPermissions::spec_write(),
    ) {
        Err(
            failure(
                LoadStage::Plan,
                LoadErrorKind::PermissionConflict,
                ErrorContext::TargetRange {
                    start: parsed.relro->0.start,
                    len: parsed.relro->0.len,
                    align: 0,
                },
            ),
        )
    } else if parsed.dynamic is Some {
        dynamic_fault(parsed.dynamic->0, segments)
    } else {
        Ok(())
    }
}

/// The layout of an image with these segments in address order.
pub open spec fn placed(
    parsed: ParsedView,
    profile: ArtifactProfile,
    limits: LoadLimits,
    segments: Seq<SegmentLayout>,
) -> LoadResult<LayoutView> {
    let n = segments.len() as int;
    let own_align = largest_align(segments, n);
    let max_align = if own_align > profile.minimum_image_alignment {
        own_align
    } else {
        profile.minimum_image_alignment
    };
    let low = TargetAddr(floor_to(segments[0].vaddr_range.start.0 as int, max_align as int) as u64);
    match range_at(TargetAddr(highest_end(segments, n) as u64).align_up_spec(max_align), LoadStage::Plan) {
        Err(error) => Err(error),
        Ok(high) => {
            let span = (high.0 - low.0) as u64;
            if span > limits.max_image_span {
                Err(over_limit(LoadStage::Plan, LimitKind::ImageSpan, span, limits.max_image_span))
            } else {
                match contents_fault(parsed, profile, segments) {
                    Err(error) => Err(error),
                    Ok(_) => Ok(
                        LayoutView {
                            aligned_min_vaddr: low,
                            aligned_max_vaddr: high,
                            image_span: span,
                            max_align,
                            entry_vaddr: TargetAddr(parsed.header.entry),
                            canonical_entry_vaddr: TargetAddr(
                                profile.entry_mode.canonical_spec(parsed.header.entry),
                            ),
                            segments,
                            relro: parsed.relro,
                        },
                    ),
                }
            }
        },
    }
}

/// The layout of a parsed image.
pub open spec fn layout_spec(
    parsed: ParsedView,
    profile: ArtifactProfile,
    limits: LoadLimits,
) -> LoadResult<LayoutView> {
    let loads = parsed.load_segments;
    let n = loads.len() as int;
    let segments = sorted(occupied(loads, n));
    let bytes = layout_bytes_spec(loads.len());
    if loads.len() > limits.max_load_segments {
        Err(
            over_limit(
                LoadStage::Plan,
                LimitKind::LoadSegmentCount,
                loads.len() as u64,
                limits.max_load_segments as u64,
            ),
        )
    } else if bytes > limits.max_layout_bytes {
        Err(over_limit(LoadStage::Plan, LimitKind::LayoutBytes, bytes, limits.max_layout_bytes))
    } else if first_segment_fault(loads, n, limits) is Err {
        Err(first_segment_fault(loads, n, limits)->Err_0)
    } else if segments.len() == 0 {
        Err(failure(LoadStage::Plan, LoadErrorKind::BadElf, ErrorContext::Nothing))
    } else if first_overlap(segments, segments.len() as int) is Some {
        let second = segments[first_overlap(segments, segments.len() as int)->0];
        Err(
            rejected(
                LoadErrorKind::BadElf,
                second.source_index,
                ProgramHeaderField::VirtualRange,
                second.vaddr_range.start.0,
            ),
        )
    } else if !power_of_two(profile.minimum_image_alignment as int) {
        Err(
            failure(
                LoadStage::Plan,
                LoadErrorKind::InvalidAlignment,
                ErrorContext::Allocation {
                    base: TargetAddr(0),
                    len: 0,
                    align: profile.minimum_image_alignment,
                },
            ),
        )
    } else {
        placed(parsed, profile, limits, segments)
    }
}

/// What planning guarantees of a segment.
pub open spec fn sound_segment(segment: SegmentLayout) -> bool {
    &&& segment.vaddr_range.bounded()
    &&& segment.vaddr_range.len > 0
    &&& segment.file_range.len <= segment.vaddr_range.len
    &&& power_of_two(segment.align as int)
    &&& segment.file_range.offset % segment.align == segment.vaddr_range.start.0 % segment.align
    &&& !(segment.permissions.writable() && segment.permissions.executable())
}

/// Whether all of the segments are sound.
pub open spec fn all_sound(segments: Seq<SegmentLayout>) -> bool {
    forall|i: int| 0 <= i < segments.len() ==> sound_segment(#[trigger] segments[i])
}

proof fn lemma_occupied_sound(loads: Seq<LoadSegmentInfo>, k: int, limits: LoadLimits)
    requires
        0 <= k <= loads.len(),
        first_segment_fault(loads, k, limits) is Ok,
    ensures
        all_sound(occupied(loads, k)),
        occupied(loads, k).len() <= k,
    decreases k,
{
    if k > 0 {
        lemma_occupied_sound(loads, k - 1, limits);
    }
}

proof fn lemma_sorted_sound(items: Seq<SegmentLayout>)
    requires
        all_sound(items),
    ensures
        all_sound(sorted(items)),
        ascending(sorted(items)),
        sorted(items).len() == items.len(),
{
    sorting_is_a_sorted_permutation(items);
    let s = sorted(items);
    s.to_multiset_ensures();
    items.to_multiset_ensures();
    assert forall|i: int| 0 <= i < s.len() implies sound_segment(#[trigger] s[i]) by {
        assert(s.contains(s[i]));
        assert(s.to_multiset().count(s[i]) > 0);
        assert(items.contains(s[i]));
    }
}

proof fn lemma_first_segment_fault(loads: Seq<LoadSegmentInfo>, k: int, limits: LoadLimits)
    requires
        0 <= k <= loads.len(),
        first_segment_fault(loads, k, limits) is Err,
    ensures
        first_segment_fault(loads, loads.len() as int, limits) == first_segment_fault(
            loads,
            k,
            limits,
        ),
    decreases loads.len() - k,
{
    if k < loads.len() {
        lemma_first_segment_fault(loads, k + 1, limits);
    }
}

proof fn lemma_first_overlap(segments: Seq<SegmentLayout>, k: int)
    requires
        0 <= k <= segments.len(),
    ensures
        first_overlap(segments, k) is Some ==> first_overlap(segments, segments.len() as int)
            == first_overlap(segments, k),
        first_overlap(segments, k) matches Some(i) ==> 0 < i < k,
        first_overlap(segments, k) is None ==> forall|i: int|
            0 < i < k ==> !segments[i - 1].vaddr_range.meets((#[trigger] segments[i]).vaddr_range),
    decreases segments.len() - k,
{
    lemma_overlap_found(segments, k);
    if k < segments.len() {
        lemma_first_overlap(segments, k + 1);
    }
}

proof fn lemma_overlap_found(segments: Seq<SegmentLayout>, k: int)
    requires
        0 <= k <= segments.len(),
    ensures
        first_overlap(segments, k) matches Some(i) ==> 0 < i < k,
        first_overlap(segments, k) is None ==> forall|i: int|
            0 < i < k ==> !segments[i - 1].vaddr_range.meets((#[trigger] segments[i]).vaddr_range),
    decreases k,
{
    if k > 1 {
        lemma_overlap_found(segments, k - 1);
    }
}

proof fn lemma_largest_align(segments: Seq<SegmentLayout>, k: int)
    requires
        0 <= k <= segments.len(),
        all_sound(segments),
    ensures
        power_of_two(largest_align(segments, k) as int),
        forall|i: int| 0 <= i < k ==> (#[trigger] segments[i]).align <= largest_align(segments, k),
    decreases k,
{
    if k > 0 {
        lemma_largest_align(segments, k - 1);
    }
}

proof fn lemma_highest_end(segments: Seq<SegmentLayout>, k: int)
    requires
        0 <= k <= segments.len(),
        all_sound(segments),
    ensures
        0 <= highest_end(segments, k) <= u64::MAX,
        forall|i: int|
            0 <= i < k ==> (#[trigger] segments[i]).vaddr_range.limit() <= highest_end(segments, k),
    decreases k,
{
    if k > 0 {
        lemma_highest_end(segments, k - 1);
    }
}

pub fn planning_error(kind: LoadErrorKind, index: u16, field: ProgramHeaderField, value: u64) -> (r:
    LoadError)
    ensures
        r == rejected(kind, index, field, value),
{
    fail_at(LoadStage::Plan, kind, ErrorContext::ProgramHeader { index, field, value })
}

pub fn normalize_alignment(align: u64, index: u16) -> (r: LoadResult<u64>)
    ensures
        power_of_two(normal_align(align) as int) ==> r == Ok::<u64, LoadError>(normal_align(align)),
        !power_of_two(normal_align(align) as int) ==> r == Err::<u64, LoadError>(
            rejected(
                LoadErrorKind::InvalidAlignment,
                index,
                ProgramHeaderField::Align,
                normal_align(align),
            ),
        ),
{
    if align <= 1 {
        Ok(1)
    } else if is_power_of_two(align) {
        Ok(align)
    } else {
        Err(
            planning_error(
                LoadErrorKind::InvalidAlignment,
                index,
                ProgramHeaderField::Align,
                align,
            ),
        )
    }
}

/// Checks one loadable segment. One without memory has no layout.
fn lay_out_segment(segment: &LoadSegmentInfo, limits: &LoadLimits) -> (r: LoadResult<
    Option<SegmentLayout>,
>)
    ensures
        match segment_fault(*segment, *limits) {
            Err(error) => r == Err::<Option<SegmentLayout>, LoadError>(error),
            Ok(_) => r == Ok::<Option<SegmentLayout>, LoadError>(
                if segment.memory_size == 0 {
                    None
                } else {
                    Some(segment_layout(*segment))
                },
            ),
        },
{
    if segment.file_range().len() > segment.memory_size() {
        return Err(
            planning_error(
                LoadErrorKind::BadElf,
                segment.index(),
                ProgramHeaderField::FileRange,
                segment.file_range().len(),
            ),
        );
    }
    if segment.memory_size() == 0 {
        return Ok(None);
    }
    let align: u64 = normalize_alignment(segment.align(), segment.index())?;
    limits.check_segment_alignment(align)?;
    if segment.file_range().offset() % align != segment.vaddr().get() % align {
        return Err(
            planning_error(
                LoadErrorKind::BadElf,
                segment.index(),
                ProgramHeaderField::Align,
                align,
            ),
        );
    }
    let vaddr_range = TargetRange::new(segment.vaddr(), segment.memory_size());
    claim_range(vaddr_range.end(), LoadStage::Plan)?;
    if segment.permissions().contains(MemoryPermissions::write()) && segment.permissions().contains(
        MemoryPermissions::execute(),
    ) {
        return Err(
            planning_error(
                LoadErrorKind::PermissionConflict,
                segment.index(),
                ProgramHeaderField::VirtualRange,
                segment.vaddr().get(),
            ),
        );
    }
    Ok(
        Some(
            SegmentLayout {
                source_index: segment.index(),
                vaddr_range,
                file_range: segment.file_range(),
                align,
                permissions: segment.permissions(),
            },
        ),
    )
}

fn validate_dynamic_segment(dynamic: DynamicSegmentInfo, segments: &Vec<SegmentLayout>) -> (r:
    LoadResult<()>)
    requires
        all_sound(segments@),
    ensures
        r == dynamic_fault(dynamic, segments@),
{
    if dynamic.file_range().is_empty() || dynamic.file_range().len() > dynamic.memory_size() {
        return Err(
            planning_error(
                LoadErrorKind::BadElf,
                dynamic.index(),
                ProgramHeaderField::FileRange,
                dynamic.file_range().len(),
            ),
        );
    }
    let segment = match find_serving(
        segments,
        dynamic.vaddr(),
        dynamic.memory_size(),
        MemoryPermissions::read(),
    ) {
        Some(index) => segments[index],
        None => return Err(
            planning_error(
                LoadErrorKind::OutOfBounds,
                dynamic.index(),
                ProgramHeaderField::VirtualRange,
                dynamic.vaddr().get(),
            ),
        ),
    };
    let offset: u64 = dynamic.vaddr().get() - segment.vaddr_range().start().get();
    let expected_file_offset: Option<u64> = segment.file_range().offset().checked_add(offset);
    let file_end: Option<u64> = offset.checked_add(dynamic.file_range().len());
    if let (Some(file_offset), Some(end)) = (expected_file_offset, file_end) {
        if file_offset == dynamic.file_range().offset() && end <= segment.file_range().len() {
            return Ok(());
        }
    }
    Err(
        planning_error(
            LoadErrorKind::OutOfBounds,
            dynamic.index(),
            ProgramHeaderField::FileRange,
            dynamic.file_range().offset(),
        ),
    )
}

fn layout_bytes(count: usize) -> (r: u64)
    ensures
        r == layout_bytes_spec(count as nat),
{
    let source: usize = core::mem::size_of::<LoadSegmentInfo>();
    let target: usize = core::mem::size_of::<SegmentLayout>();
    let entry: usize = match source.checked_add(target) {
        Some(entry) => entry,
        None => {
            proof {
                let each = source + target;
                if count > 0 {
                    assert(count * each >= each) by (nonlinear_arith)
                        requires
                            count >= 1,
                            each >= 0,
                    ;
                }
            }
            return if count == 0 {
                0
            } else {
                u64::MAX
            };
        },
    };
    match count.checked_mul(entry) {
        Some(bytes) => bytes as u64,
        None => u64::MAX,
    }
}

/// Builds image layouts.
#[derive(Clone, Copy, Debug, PartialEq, Eq, Structural)]
pub struct ImageLayoutBuilder;

impl ImageLayoutBuilder {
    /// Lays out the segments of a parsed image in address order.
    pub fn build(parsed: &ParsedImage, profile: &ArtifactProfile, limits: &LoadLimits) -> (r:
        LoadResult<ImageLayout>)
        ensures
            match layout_spec(parsed@, *profile, *limits) {
                Ok(view) => r is Ok && r->Ok_0@ == view,
                Err(error) => r == Err::<ImageLayout, LoadError>(error),
            },
    {
        limits.check_load_segment_count(parsed.load_segments.len())?;
        limits.check_layout_bytes(layout_bytes(parsed.load_segments.len()))?;
        let mut unordered: Vec<SegmentLayout> = Vec::new();
        let mut index: usize = 0;
        while index < parsed.load_segments.len()
            invariant
                index <= parsed.load_segments@.len(),
                parsed.load_segments@.len() <= limits.max_load_segments,
                layout_bytes_spec(parsed.load_segments@.len()) <= limits.max_layout_bytes,
                unordered@ == occupied(parsed.load_segments@, index as int),
                first_segment_fault(parsed.load_segments@, index as int, *limits) is Ok,
            decreases parsed.load_segments@.len() - index,
        {
            match lay_out_segment(&parsed.load_segments[index], limits) {
                Err(error) => {
                    proof {
                        lemma_first_segment_fault(parsed.load_segments@, index + 1, *limits);
                    }
                    return Err(error);
                },
                Ok(None) => {},
                Ok(Some(segment)) => {
                    unordered.push(segment);
                },
            }
            index = index + 1;
        }
        proof {
            lemma_occupied_sound(
                parsed.load_segments@,
                parsed.load_segments@.len() as int,
                *limits,
            );
            lemma_sorted_sound(unordered@);
        }
        if unordered.len() == 0 {
            return Err(fail_at(LoadStage::Plan, LoadErrorKind::BadElf, ErrorContext::Nothing));
        }
        let segments = sort_by_rank(&unordered);
        ImageLayoutBuilder::check_overlaps(&segments)?;
        ImageLayoutBuilder::place(parsed, profile, limits, segments)
    }

    fn check_overlaps(segments: &Vec<SegmentLayout>) -> (r: LoadResult<()>)
        ensures
            r == (match first_overlap(segments@, segments@.len() as int) {
                Some(i) => Err::<(), LoadError>(
                    rejected(
                        LoadErrorKind::BadElf,
                        segments@[i].source_index,
                        ProgramHeaderField::VirtualRange,
                        segments@[i].vaddr_range.start.0,
                    ),
                ),
                None => Ok::<(), LoadError>(()),
            }),
    {
        let mut index: usize = 1;
        while index < segments.len()
            invariant
                1 <= index,
                index <= segments@.len() || index == 1,
                first_overlap(segments@, index as int) is None,
            decreases segments@.len() - index,
        {
            if segments[index - 1].vaddr_range.overlaps(segments[index].vaddr_range) {
                proof {
                    lemma_first_overlap(segments@, index + 1);
                }
                return Err(
                    planning_error(
                        LoadErrorKind::BadElf,
                        segments[index].source_index,
                        ProgramHeaderField::VirtualRange,
                        segments[index].vaddr_range.start().get(),
                    ),
                );
            }
            index = index + 1;
        }
        Ok(())
    }

    fn place(
        parsed: &ParsedImage,
        profile: &ArtifactProfile,
        limits: &LoadLimits,
        segments: Vec<SegmentLayout>,
    ) -> (r: LoadResult<ImageLayout>)
        requires
            segments@.len() > 0,
            all_sound(segments@),
        ensures
            !power_of_two(profile.minimum_image_alignment as int) ==> r == Err::<
                ImageLayout,
                LoadError,
            >(
                failure(
                    LoadStage::Plan,
                    LoadErrorKind::InvalidAlignment,
                    ErrorContext::Allocation {
                        base: TargetAddr(0),
                        len: 0,
                        align: profile.minimum_image_alignment,
                    },
                ),
            ),
            power_of_two(profile.minimum_image_alignment as int) ==> match placed(
                parsed@,
                *profile,
                *limits,
                segments@,
            ) {
                Ok(view) => r is Ok && r->Ok_0@ == view,
                Err(error) => r == Err::<ImageLayout, LoadError>(error),
            },
    {
        let mut own_align: u64 = 1;
        let mut max_vaddr: u64 = 0;
        let mut index: usize = 0;
        while index < segments.len()
            invariant
                index <= segments@.len(),
                all_sound(segments@),
                own_align == largest_align(segments@, index as int),
                max_vaddr == highest_end(segments@, index as int),
            decreases segments@.len() - index,
        {
            let segment = segments[index];
            assert(sound_segment(segments@[index as int]));
            if segment.align > own_align {
                own_align = segment.align;
            }
            let end: u64 = segment.vaddr_range.start().get() + segment.vaddr_range.len();
            if end > max_vaddr {
                max_vaddr = end;
            }
            index = index + 1;
        }
        let profile_align: u64 = profile.minimum_image_alignment();
        if !is_power_of_two(profile_align) {
            return Err(
                fail_at(
                    LoadStage::Plan,
                    LoadErrorKind::InvalidAlignment,
                    ErrorContext::Allocation {
                        base: TargetAddr::new(0),
                        len: 0,
                        align: profile_align,
                    },
                ),
            );
        }
        let max_align: u64 = if own_align > profile_align {
            own_align
        } else {
            profile_align
        };
        let min_vaddr: TargetAddr = segments[0].vaddr_range.start();
        proof {
            lemma_largest_align(segments@, segments@.len() as int);
            lemma_highest_end(segments@, segments@.len() as int);
            assert(sound_segment(segments@[0]));
            assert(power_of_two(max_align as int));
            lemma_floor_to(min_vaddr.0 as int, max_align as int);
            lemma_ceil_to(max_vaddr as int, max_align as int);
        }
        let low: TargetAddr = claim_range(min_vaddr.align_down(max_align), LoadStage::Plan)?;
        let high: TargetAddr = claim_range(
            TargetAddr::new(max_vaddr).align_up(max_align),
            LoadStage::Plan,
        )?;
        let image_span: u64 = claim_range(high.checked_sub(low), LoadStage::Plan)?;
        limits.check_image_span(image_span)?;
        ImageLayoutBuilder::check_contents(parsed, profile, &segments)?;
        Ok(
            ImageLayout {
                aligned_min_vaddr: low,
                aligned_max_vaddr: high,
                image_span,
                max_align,
                entry_vaddr: TargetAddr::new(parsed.header.entry()),
                canonical_entry_vaddr: TargetAddr::new(
                    profile.entry_mode().canonical_entry(parsed.header.entry()),
                ),
                segments,
                relro: parsed.relro,
            },
        )
    }

    fn check_contents(
        parsed: &ParsedImage,
        profile: &ArtifactProfile,
        segments: &Vec<SegmentLayout>,
    ) -> (r: LoadResult<()>)
        requires
            all_sound(segments@),
        ensures
            r == contents_fault(parsed@, *profile, segments@),
    {
        let canonical_entry_vaddr = TargetAddr::new(
            profile.entry_mode().canonical_entry(parsed.header.entry()),
        );
        let entry_span: u64 = profile.entry_mode().minimum_instruction_size();
        if find_serving(
            segments,
            canonical_entry_vaddr,
            entry_span,
            MemoryPermissions::execute(),
        ).is_none() {
            return Err(
                fail_at(
                    LoadStage::Plan,
                    LoadErrorKind::PermissionConflict,
                    ErrorContext::TargetRange {
                        start: canonical_entry_vaddr,
                        len: entry_span,
                        align: 0,
                    },
                ),
            );
        }
        if let Some(relro) = parsed.relro {
            if find_serving(
                segments,
                relro.start(),
                relro.len(),
                MemoryPermissions::write(),
            ).is_none() {
                return Err(
                    fail_at(
                        LoadStage::Plan,
                        LoadErrorKind::PermissionConflict,
                        ErrorContext::TargetRange {
                            start: relro.start(),
                            len: relro.len(),
                            align: 0,
                        },
                    ),
                );
            }
        }
        if let Some(dynamic) = parsed.dynamic {
            return validate_dynamic_segment(dynamic, segments);
        }
        Ok(())
    }
}

/// What every layout guarantees: the segments are sound, stand in address order
/// without overlap and lie inside the aligned span, whose bounds are multiples of
/// an alignment that is at least that of every segment; the entry is
/// executable and the read-only-after-relocation range is writable while loading.
#[verifier::spinoff_prover]
#[verifier::rlimit(60)]
pub proof fn layouts_are_sound(
    parsed: ParsedView,
    profile: ArtifactProfile,
    limits: LoadLimits,
    layout: LayoutView,
)
    requires
        layout_spec(parsed, profile, limits) == Ok::<LayoutView, LoadError>(layout),
    ensures
        all_sound(layout.segments),
        layout.segments.len() > 0,
        power_of_two(layout.max_align as int),
        layout.max_align >= profile.minimum_image_alignment,
        layout.aligned_min_vaddr.0 % layout.max_align == 0,
        layout.aligned_max_vaddr.0 % layout.max_align == 0,
        layout.aligned_min_vaddr.0 + layout.image_span == layout.aligned_max_vaddr.0,
        layout.image_span <= limits.max_image_span,
        forall|i: int|
            0 <= i < layout.segments.len() ==> {
                &&& layout.aligned_min_vaddr.0 <= (
                #[trigger] layout.segments[i]).vaddr_range.start.0
                &&& layout.segments[i].vaddr_range.limit() <= layout.aligned_max_vaddr.0
                &&& layout.segments[i].align <= layout.max_align
            },
        forall|i: int, j: int|
            0 <= i < j < layout.segments.len() ==> (
            #[trigger] layout.segments[i]).vaddr_range.limit() <= (
            #[trigger] layout.segments[j]).vaddr_range.start.0,
        served(
            layout.segments,
            layout.canonical_entry_vaddr,
            profile.entry_mode.instruction_spec(),
            MemoryPermissions::spec_execute(),
        ),
        layout.relro matches Some(relro) ==> served(
            layout.segments,
            relro.start,
            relro.len,
            MemoryPermissions::spec_write(),
        ),
{
    let loads = parsed.load_segments;
    let n = loads.len() as int;
    lemma_occupied_sound(loads, n, limits);
    lemma_sorted_sound(occupied(loads, n));
    let s = sorted(occupied(loads, n));
    let m = s.len() as int;
    lemma_largest_align(s, m);
    lemma_highest_end(s, m);
    lemma_first_overlap(s, m);
    assert(sound_segment(s[0]));
    lemma_floor_to(s[0].vaddr_range.start.0 as int, layout.max_align as int);
    lemma_ceil_to(highest_end(s, m), layout.max_align as int);
    assert forall|i: int, j: int| 0 <= i < j < s.len() implies (
    #[trigger] s[i]).vaddr_range.limit() <= (#[trigger] s[j]).vaddr_range.start.0 by {
        assert(sound_segment(s[i]) && sound_segment(s[i + 1]));
        assert(!s[i + 1 - 1].vaddr_range.meets(s[i + 1].vaddr_range));
        assert(s[i].rank() <= s[i + 1].rank());
        if i + 1 < j {
            assert(s[i + 1].rank() <= s[j].rank());
        }
    }
    assert forall|i: int| 0 <= i < s.len() implies layout.aligned_min_vaddr.0 <= (
    #[trigger] s[i]).vaddr_range.start.0 by {
        if i > 0 {
            assert(s[0].rank() <= s[i].rank());
        }
    }
}

/// An artifact whose layout is planned.
pub struct PlannedArtifact<R> {
    pub artifact: AdmittedArtifact<R>,
    pub parsed: ParsedImage,
    pub layout: ImageLayout,
}

impl<R> PlannedArtifact<R> {
    #[inline]
    pub fn artifact(&self) -> (r: &AdmittedArtifact<R>)
        ensures
            *r == self.artifact,
    {
        &self.artifact
    }

    #[inline]
    pub fn parsed(&self) -> (r: &ParsedImage)
        ensures
            *r == self.parsed,
    {
        &self.parsed
    }

    #[inline]
    pub fn layout(&self) -> (r: &ImageLayout)
        ensures
            *r == self.layout,
    {
        &self.layout
    }

    pub fn into_parts(self) -> (r: (AdmittedArtifact<R>, ParsedImage, ImageLayout))
        ensures
            r == (self.artifact, self.parsed, self.layout),
    {
        (self.artifact, self.parsed, self.layout)
    }
}

/// The plan of a parsed image under a feature policy.
pub open spec fn plan_spec<P: ArtifactFeaturePolicy>(
    parsed: ParsedView,
    profile: ArtifactProfile,
    limits: LoadLimits,
    policy: P,
) -> LoadResult<LayoutView> {
    match claim(policy.program_verdict(parsed.features), LoadStage::Plan) {
        Err(error) => Err(error),
        Ok(_) => layout_spec(parsed, profile, limits),
    }
}

/// The plan of an artifact whose program headers can be read.
pub open spec fn artifact_plan<R: ElfReader, P: ArtifactFeaturePolicy>(
    artifact: AdmittedArtifact<R>,
    policy: P,
) -> LoadResult<LayoutView> {
    let header = artifact.header;
    let headers = headers_in(
        artifact.reader.bytes(),
        header.program_header_offset as int,
        header.program_header_entry_size as int,
        header.program_header_count as int,
        header.class,
        header.endian,
    );
    match parse_spec(header, headers, artifact.file_len) {
        Err(error) => Err(error),
        Ok(parsed) => plan_spec(
            parsed,
            artifact.request.profile,
            artifact.request.limits,
            policy,
        ),
    }
}

/// Plans a parsed image under a feature policy.
pub fn plan_parsed<P: ArtifactFeaturePolicy>(
    parsed: &ParsedImage,
    profile: &ArtifactProfile,
    limits: &LoadLimits,
    policy: &P,
) -> (r: LoadResult<ImageLayout>)
    ensures
        match plan_spec(parsed@, *profile, *limits, *policy) {
            Ok(view) => r is Ok && r->Ok_0@ == view,
            Err(error) => r == Err::<ImageLayout, LoadError>(error),
        },
{
    claim_at(policy.validate_program_features(parsed.program_features()), LoadStage::Plan)?;
    ImageLayoutBuilder::build(parsed, profile, limits)
}

impl ImageLoader {
    pub fn plan<R: ElfReader>(&self, admitted: AdmittedArtifact<R>) -> (r: LoadResult<
        PlannedArtifact<R>,
    >)
        ensures
            r matches Ok(planned) ==> {
                &&& planned.artifact == admitted
                &&& is_parse_of(planned.parsed@, admitted)
                &&& plan_spec(
                    planned.parsed@,
                    admitted.request.profile,
                    admitted.request.limits,
                    Phase0ArtifactPolicy,
                ) == Ok::<LayoutView, LoadError>(planned.layout@)
            },
            admitted.reader.reliable() && table_readable(
                admitted.header,
                admitted.header.class,
                admitted.reader.bytes().len(),
            ) ==> match artifact_plan(admitted, Phase0ArtifactPolicy) {
                Ok(_) => r is Ok,
                Err(error) => r == Err::<PlannedArtifact<R>, LoadError>(error),
            },
            admitted.reader.bytes().len() <= u64::MAX && !table_readable(
                admitted.header,
                admitted.header.class,
                admitted.reader.bytes().len(),
            ) ==> (r matches Err(error) && (error.stage == Some(LoadStage::Parse) || error.stage
                == Some(LoadStage::Validate))),
            admitted.reader.reliable() && admitted.reader.bytes().len() <= u64::MAX ==> unparsed(
                admitted,
                r,
            ),
    {
        self.plan_with_policy(admitted, &Phase0ArtifactPolicy)
    }

    /// Reads, parses and lays out an admitted artifact.
    pub fn plan_with_policy<R: ElfReader, P: ArtifactFeaturePolicy>(
        &self,
        admitted: AdmittedArtifact<R>,
        policy: &P,
    ) -> (r: LoadResult<PlannedArtifact<R>>)
        ensures
            r matches Ok(planned) ==> {
                &&& planned.artifact == admitted
                &&& is_parse_of(planned.parsed@, admitted)
                &&& plan_spec(
                    planned.parsed@,
                    admitted.request.profile,
                    admitted.request.limits,
                    *policy,
                ) == Ok::<LayoutView, LoadError>(planned.layout@)
            },
            admitted.reader.reliable() && table_readable(
                admitted.header,
                admitted.header.class,
                admitted.reader.bytes().len(),
            ) ==> match artifact_plan(admitted, *policy) {
                Ok(_) => r is Ok,
                Err(error) => r == Err::<PlannedArtifact<R>, LoadError>(error),
            },
            admitted.reader.bytes().len() <= u64::MAX && !table_readable(
                admitted.header,
                admitted.header.class,
                admitted.reader.bytes().len(),
            ) ==> (r matches Err(error) && (error.stage == Some(LoadStage::Parse) || error.stage
                == Some(LoadStage::Validate))),
            admitted.reader.reliable() && admitted.reader.bytes().len() <= u64::MAX ==> unparsed(
                admitted,
                r,
            ),
    {
        let parsed = self.inspect(&admitted)?;
        let layout = plan_parsed(
            &parsed,
            admitted.request.profile(),
            admitted.request.limits(),
            policy,
        )?;
        Ok(PlannedArtifact { artifact: admitted, parsed, layout })
    }
}

/// Whether `parsed` is what the program headers of the artifact say.
pub open spec fn is_parse_of<R: ElfReader>(parsed: ParsedView, artifact: AdmittedArtifact<R>) -> bool {
    let header = artifact.header;
    let headers = headers_in(
        artifact.reader.bytes(),
        header.program_header_offset as int,
        header.program_header_entry_size as int,
        header.program_header_count as int,
        header.class,
        header.endian,
    );
    parse_spec(header, headers, artifact.file_len) == Ok::<ParsedView, LoadError>(parsed)
}

/// Whether a part of a layout is that of a segment: at its addresses, with its bytes of
/// the file and its permissions.
pub open spec fn lays_out(part: SegmentLayout, segment: LoadSegmentInfo) -> bool {
    &&& part.source_index == segment.index
    &&& part.vaddr_range.start == segment.vaddr
    &&& part.vaddr_range.len == segment.memory_size
    &&& part.file_range == segment.file_range
    &&& part.permissions == segment.permissions
}

pub proof fn lemma_occupied(segments: Seq<LoadSegmentInfo>, k: int)
    requires
        0 <= k <= segments.len(),
    ensures
        forall|i: int|
            0 <= i < k && (#[trigger] segments[i]).memory_size != 0 ==> occupied(
                segments,
                k,
            ).contains(segment_layout(segments[i])),
    decreases k,
{
    if k > 0 {
        lemma_occupied(segments, k - 1);
        let before = occupied(segments, k - 1);
        let all = occupied(segments, k);
        if segments[k - 1].memory_size != 0 {
            assert(all[before.len() as int] == segment_layout(segments[k - 1]));
            assert forall|i: int| 0 <= i < k && (#[trigger] segments[i]).memory_size != 0 implies
                all.contains(segment_layout(segments[i])) by {
                if i < k - 1 {
                    let j = choose|j: int|
                        0 <= j < before.len() && before[j] == segment_layout(segments[i]);
                    assert(all[j] == segment_layout(segments[i]));
                }
            }
        }
    }
}

proof fn lemma_occupant(segments: Seq<LoadSegmentInfo>, k: int, j: int) -> (i: int)
    requires
        0 <= k <= segments.len(),
        0 <= j < occupied(segments, k).len(),
    ensures
        0 <= i < k,
        segments[i].memory_size != 0,
        occupied(segments, k)[j] == segment_layout(segments[i]),
    decreases k,
{
    if segments[k - 1].memory_size != 0 && j == occupied(segments, k - 1).len() {
        k - 1
    } else {
        lemma_occupant(segments, k - 1, j)
    }
}

proof fn lemma_no_segment_fault(
    segments: Seq<LoadSegmentInfo>,
    k: int,
    limits: LoadLimits,
    i: int,
)
    requires
        0 <= i < k,
        first_segment_fault(segments, k, limits) is Ok,
    ensures
        segment_fault(segments[i], limits) is Ok,
    decreases k,
{
    if i < k - 1 {
        lemma_no_segment_fault(segments, k - 1, limits, i);
    }
}

/// A layout has a part for every loadable segment that takes up memory, and no other. No
/// segment has more bytes in the file than in memory, none may be both written and
/// executed, and the alignment of each divides the distance from its place in the
/// file to its address.
pub proof fn layouts_have_their_segments(
    parsed: ParsedView,
    profile: ArtifactProfile,
    limits: LoadLimits,
    layout: LayoutView,
)
    requires
        layout_spec(parsed, profile, limits) == Ok::<LayoutView, LoadError>(layout),
    ensures
        forall|i: int|
            0 <= i < parsed.load_segments.len() ==> (
            #[trigger] parsed.load_segments[i]).file_range.len
                <= parsed.load_segments[i].memory_size,
        forall|i: int|
            0 <= i < parsed.load_segments.len() && (
            #[trigger] parsed.load_segments[i]).memory_size != 0 ==> {
                let segment = parsed.load_segments[i];
                &&& !(segment.permissions.writable() && segment.permissions.executable())
                &&& segment.align > 1 ==> segment.file_range.offset % segment.align
                    == segment.vaddr.0 % segment.align
                &&& exists|j: int|
                    0 <= j < layout.segments.len() && lays_out(
                        #[trigger] layout.segments[j],
                        segment,
                    )
            },
        forall|j: int|
            0 <= j < layout.segments.len() ==> exists|i: int|
                0 <= i < parsed.load_segments.len() && parsed.load_segments[i].memory_size != 0
                    && lays_out(#[trigger] layout.segments[j], #[trigger] parsed.load_segments[i]),
{
    let loads = parsed.load_segments;
    let n = loads.len() as int;
    let parts = occupied(loads, n);
    lemma_occupied(loads, n);
    sorting_is_a_sorted_permutation(parts);
    parts.to_multiset_ensures();
    layout.segments.to_multiset_ensures();
    assert(layout.segments == sorted(parts));
    assert forall|i: int| 0 <= i < n implies (#[trigger] loads[i]).file_range.len
        <= loads[i].memory_size by {
        lemma_no_segment_fault(loads, n, limits, i);
    }
    assert forall|i: int| 0 <= i < n && (#[trigger] loads[i]).memory_size != 0 implies {
        let segment = loads[i];
        &&& !(segment.permissions.writable() && segment.permissions.executable())
        &&& segment.align > 1 ==> segment.file_range.offset % segment.align == segment.vaddr.0
            % segment.align
        &&& exists|j: int|
            0 <= j < layout.segments.len() && lays_out(#[trigger] layout.segments[j], segment)
    } by {
        lemma_no_segment_fault(loads, n, limits, i);
        let part = segment_layout(loads[i]);
        assert(parts.contains(part));
        assert(parts.to_multiset().count(part) > 0);
        assert(layout.segments.contains(part));
        let j = choose|j: int| 0 <= j < layout.segments.len() && layout.segments[j] == part;
        assert(lays_out(layout.segments[j], loads[i]));
    }
    assert forall|j: int| 0 <= j < layout.segments.len() implies exists|i: int|
        0 <= i < n && loads[i].memory_size != 0 && lays_out(
            #[trigger] layout.segments[j],
            #[trigger] loads[i],
        ) by {
        let part = layout.segments[j];
        assert(layout.segments.contains(part));
        assert(layout.segments.to_multiset().count(part) > 0);
        assert(parts.contains(part));
        let q = choose|q: int| 0 <= q < parts.len() && parts[q] == part;
        let i = lemma_occupant(loads, n, q);
        assert(lays_out(layout.segments[j], loads[i]));
    }
}

/// A layout keeps the entry of its header. The first instruction stands there, or one
/// byte before where the mode of the entry is Thumb and its lowest bit is set.
pub proof fn layouts_keep_the_entry(
    parsed: ParsedView,
    profile: ArtifactProfile,
    limits: LoadLimits,
    layout: LayoutView,
)
    requires
        layout_spec(parsed, profile, limits) == Ok::<LayoutView, LoadError>(layout),
    ensures
        layout.entry_vaddr.0 == parsed.header.entry,
        layout.canonical_entry_vaddr.0 == if profile.entry_mode is Thumb && parsed.header.entry % 2
            == 1 {
            parsed.header.entry - 1
        } else {
            parsed.header.entry as int
        },
        layout.relro == parsed.relro,
{
}

/// Every loadable program header (one of type 1) that takes up memory has its part of the
/// layout, with its addresses and its bytes of the file.
pub proof fn laid_out_headers_have_their_part(
    header: ElfHeaderInfo,
    headers: Seq<ProgramHeaderFields>,
    file_len: u64,
    parsed: ParsedView,
    profile: ArtifactProfile,
    limits: LoadLimits,
    layout: LayoutView,
    h: int,
) -> (k: int)
    requires
        headers.len() <= 0x1_0000,
        parse_spec(header, headers, file_len) == Ok::<ParsedView, LoadError>(parsed),
        layout_spec(parsed, profile, limits) == Ok::<LayoutView, LoadError>(layout),
        0 <= h < headers.len(),
        headers[h].program_type == 1,
        headers[h].memory_size > 0,
    ensures
        0 <= k < layout.segments.len(),
        layout.segments[k].source_index == h,
        layout.segments[k].vaddr_range.start.0 == headers[h].vaddr,
        layout.segments[k].vaddr_range.len == headers[h].memory_size,
        layout.segments[k].file_range.offset == headers[h].file_offset,
        layout.segments[k].file_range.len == headers[h].file_size,
        headers[h].file_size <= headers[h].memory_size,
{
    parsed_segments_are_loadable_headers(header, headers, file_len, parsed);
    let s = choose|s: int|
        0 <= s < parsed.load_segments.len() && (#[trigger] parsed.load_segments[s]).index == h;
    let segment = parsed.load_segments[s];
    layouts_have_their_segments(parsed, profile, limits, layout);
    assert(segment.memory_size != 0);
    let k = choose|k: int|
        0 <= k < layout.segments.len() && lays_out(#[trigger] layout.segments[k], segment);
    k
}

proof fn lemma_bounds_reached(segments: Seq<SegmentLayout>, k: int) -> (found: (int, int))
    requires
        0 <= k <= segments.len(),
    ensures
        -1 <= found.0 < k,
        -1 <= found.1 < k,
        largest_align(segments, k) == if found.0 < 0 {
            1
        } else {
            segments[found.0].align
        },
        highest_end(segments, k) == if found.1 < 0 {
            0
        } else {
            segments[found.1].vaddr_range.start.0 + segments[found.1].vaddr_range.len
        },
    decreases k,
{
    if k <= 0 {
        (-1, -1)
    } else {
        let before = lemma_bounds_reached(segments, k - 1);
        (
            if segments[k - 1].align > largest_align(segments, k - 1) {
                k - 1
            } else {
                before.0
            },
            if segments[k - 1].vaddr_range.limit() > highest_end(segments, k - 1) {
                k - 1
            } else {
                before.1
            },
        )
    }
}

/// A layout is no larger than its segments need: it starts less than one alignment below the
/// first of them and ends less than one above the end of one of them. The alignment is that
/// of a segment, if not the least one of the profile.
#[verifier::spinoff_prover]
pub proof fn layouts_are_no_larger_than_needed(
    parsed: ParsedView,
    profile: ArtifactProfile,
    limits: LoadLimits,
    layout: LayoutView,
) -> (last: int)
    requires
        layout_spec(parsed, profile, limits) == Ok::<LayoutView, LoadError>(layout),
    ensures
        0 <= last < layout.segments.len(),
        layout.segments[0].vaddr_range.start.0 < layout.aligned_min_vaddr.0 + layout.max_align,
        layout.aligned_max_vaddr.0 < layout.segments[last].vaddr_range.start.0
            + layout.segments[last].vaddr_range.len + layout.max_align,
        layout.max_align == 1 || layout.max_align == profile.minimum_image_alignment || exists|
            i: int,
        |
            0 <= i < layout.segments.len() && (#[trigger] layout.segments[i]).align
                == layout.max_align,
        layout.segments.len() <= parsed.load_segments.len(),
        parsed.load_segments.len() <= limits.max_load_segments,
{
    let segments = layout.segments;
    let n = segments.len() as int;
    layouts_are_sound(parsed, profile, limits, layout);
    let (a, b) = lemma_bounds_reached(segments, n);
    lemma_highest_end(segments, n);
    lemma_floor_to(segments[0].vaddr_range.start.0 as int, layout.max_align as int);
    lemma_ceil_to(highest_end(segments, n), layout.max_align as int);
    lemma_occupied_sound(parsed.load_segments, parsed.load_segments.len() as int, limits);
    sorting_is_a_sorted_permutation(occupied(parsed.load_segments, parsed.load_segments.len() as int));
    assert(sound_segment(segments[0]));
    if a >= 0 {
        assert(segments[a].align == largest_align(segments, n));
    }
    b
}

/// The first instruction of an image lies in a segment that can be executed: two bytes of
/// it, or four where instructions have four. What is to be read only once the image is
/// relocated lies in a segment that can be written until then. The dynamic entries lie in
/// one that can be read, at the place of the file that their header gives.
#[verifier::spinoff_prover]
pub proof fn laid_out_contents_can_be_used(
    parsed: ParsedView,
    profile: ArtifactProfile,
    limits: LoadLimits,
    layout: LayoutView,
)
    requires
        layout_spec(parsed, profile, limits) == Ok::<LayoutView, LoadError>(layout),
    ensures
        exists|i: int|
            0 <= i < layout.segments.len() && (
            #[trigger] layout.segments[i]).permissions.executable()
                && layout.segments[i].vaddr_range.start.0 <= layout.canonical_entry_vaddr.0
                && layout.canonical_entry_vaddr.0 + (if profile.entry_mode is Word {
                4int
            } else {
                2int
            }) <= layout.segments[i].vaddr_range.start.0 + layout.segments[i].vaddr_range.len,
        layout.relro == parsed.relro,
        parsed.relro matches Some(relro) ==> exists|i: int|
            0 <= i < layout.segments.len() && (
            #[trigger] layout.segments[i]).permissions.writable()
                && layout.segments[i].vaddr_range.start.0 <= relro.start.0 && relro.start.0
                + relro.len <= layout.segments[i].vaddr_range.start.0
                + layout.segments[i].vaddr_range.len,
        parsed.dynamic matches Some(dynamic) ==> dynamic.file_range.len > 0
            && dynamic.file_range.len <= dynamic.memory_size && exists|i: int|
            0 <= i < layout.segments.len() && (
            #[trigger] layout.segments[i]).permissions.readable()
                && layout.segments[i].vaddr_range.start.0 <= dynamic.vaddr.0 && dynamic.vaddr.0
                + dynamic.memory_size <= layout.segments[i].vaddr_range.start.0
                + layout.segments[i].vaddr_range.len && dynamic.file_range.offset
                == layout.segments[i].file_range.offset + (dynamic.vaddr.0
                - layout.segments[i].vaddr_range.start.0),
{
    let segments = layout.segments;
    let entry = layout.canonical_entry_vaddr;
    let span = profile.entry_mode.instruction_spec();
    let i = choose|i: int|
        0 <= i < segments.len() && (#[trigger] segments[i]).serves(
            entry,
            span,
            MemoryPermissions::spec_execute(),
        );
    assert(segments[i].serves(entry, span, MemoryPermissions::spec_execute()));
    assert(segments[i].permissions.executable());
    if let Some(relro) = parsed.relro {
        let j = choose|j: int|
            0 <= j < segments.len() && (#[trigger] segments[j]).serves(
                relro.start,
                relro.len,
                MemoryPermissions::spec_write(),
            );
        assert(segments[j].serves(relro.start, relro.len, MemoryPermissions::spec_write()));
        assert(segments[j].permissions.writable());
    }
    if let Some(dynamic) = parsed.dynamic {
        lemma_first_serving(
            layout.segments,
            0,
            dynamic.vaddr,
            dynamic.memory_size,
            MemoryPermissions::spec_read(),
        );
    }
}

/// A segment is accepted exactly if it has no more bytes in the file than in memory and, where
/// it takes up memory, its alignment is a power of two within the quota, its place in the
/// file and its address agree by it, it ends within the address space, and it is not to be
/// both written and executed. An alignment of 0 is one of 1.
pub proof fn sound_segments_are_accepted(segment: LoadSegmentInfo, limits: LoadLimits)
    ensures
        ({
            let align = if segment.align == 0 {
                1u64
            } else {
                segment.align
            };
            segment_fault(segment, limits) is Ok <==> {
                &&& segment.file_range.len <= segment.memory_size
                &&& segment.memory_size > 0 ==> {
                    &&& power_of_two(align as int)
                    &&& align <= limits.max_segment_alignment
                    &&& segment.file_range.offset % align == segment.vaddr.0 % align
                    &&& segment.vaddr.0 + segment.memory_size <= u64::MAX
                    &&& !(segment.permissions.writable() && segment.permissions.executable())
                }
            }
        }),
{
}

/// Segments of which each ends before the next one starts do not overlap.
pub proof fn segments_in_turn_do_not_overlap(segments: Seq<SegmentLayout>, k: int)
    requires
        0 <= k <= segments.len(),
        forall|i: int|
            0 < i < k ==> segments[i - 1].vaddr_range.start.0 + segments[i - 1].vaddr_range.len <= (
            #[trigger] segments[i]).vaddr_range.start.0 && segments[i].vaddr_range.start.0
                + segments[i].vaddr_range.len <= u64::MAX,
        k > 0 ==> segments[0].vaddr_range.start.0 + segments[0].vaddr_range.len <= u64::MAX,
    ensures
        first_overlap(segments, k) is None,
    decreases k,
{
    if k > 1 {
        segments_in_turn_do_not_overlap(segments, k - 1);
        assert(segments[k - 1].vaddr_range.start.0 + segments[k - 1].vaddr_range.len <= u64::MAX);
        if k > 2 {
            assert(segments[k - 2].vaddr_range.start.0 + segments[k - 2].vaddr_range.len
                <= u64::MAX);
        }
    }
}

/// The contents of an image are accepted if its first instruction lies in a segment that can
/// be executed, its range that is read only in the end in one that can be written, and it has
/// no dynamic entries.
pub proof fn usable_contents_are_accepted(
    parsed: ParsedView,
    profile: ArtifactProfile,
    segments: Seq<SegmentLayout>,
    i: int,
    j: int,
)
    requires
        0 <= i < segments.len(),
        segments[i].permissions.executable(),
        segments[i].vaddr_range.start.0 + segments[i].vaddr_range.len <= u64::MAX,
        segments[i].vaddr_range.start.0 <= profile.entry_mode.canonical_spec(parsed.header.entry),
        profile.entry_mode.canonical_spec(parsed.header.entry) + (if profile.entry_mode is Word {
            4int
        } else {
            2int
        }) <= segments[i].vaddr_range.start.0 + segments[i].vaddr_range.len,
        parsed.relro matches Some(relro) ==> 0 <= j < segments.len()
            && segments[j].permissions.writable() && segments[j].vaddr_range.start.0
            + segments[j].vaddr_range.len <= u64::MAX && segments[j].vaddr_range.start.0
            <= relro.start.0 && relro.start.0 + relro.len <= segments[j].vaddr_range.start.0
            + segments[j].vaddr_range.len,
        parsed.dynamic is None,
    ensures
        contents_fault(parsed, profile, segments) is Ok,
{
    assert(segments[i].serves(
        TargetAddr(profile.entry_mode.canonical_spec(parsed.header.entry)),
        profile.entry_mode.instruction_spec(),
        MemoryPermissions::spec_execute(),
    ));
    if let Some(relro) = parsed.relro {
        assert(segments[j].serves(relro.start, relro.len, MemoryPermissions::spec_write()));
    }
}

} // verus!
