//! Copying the segments of a planned artifact into its memory.

use crate::address::{claim_range, range_at, range_overflow, FileRange, TargetAddr, TargetRange};
use crate::elf::DynamicSegmentInfo;
use crate::error::{
    claim_at, fail_at, failure, ErrorContext, LoadError, LoadErrorKind, LoadResult, LoadStage,
};
use crate::image::layout::{
    allocation_for, load_bias_spec, ImageLayout, LayoutView, PlannedArtifact, SegmentLayout,
};
use crate::image::parser::{ImageLoader, ParsedImage};
use crate::image::plan::{stage_outcome, StageFailure, StageResult};
use crate::memory::{
    bytes_modified, overwritten, ready, zeros, AllocationId, AllocationLease, AllocationOffset,
    AllocationOwnership, ImageAllocation, ImageLoadTransaction, ImageMemory, MutationProgress,
    TargetLocation,
};
use crate::permissions::MemoryPermissions;
use crate::reader::ElfReader;
use crate::request::{changed_source, AdmittedArtifact, ArtifactRequest, ExpectedElfType};
use vstd::prelude::*;

verus! {

/// How many bytes are copied at a time.
pub const COPY_BUFFER_SIZE: u64 = 512;

/// One segment in memory.
#[derive(Clone, Copy, Debug, PartialEq, Eq, Structural)]
pub struct LoadedRegion {
    pub vaddr_range: TargetRange,
    pub runtime_range: TargetRange,
    pub file_range: FileRange,
    pub allocation_offset: u64,
    pub logical_permissions: MemoryPermissions,
}

impl LoadedRegion {
    /// A segment of the file with these places and permissions.
    #[inline]
    pub fn new(
        vaddr_range: TargetRange,
        runtime_range: TargetRange,
        file_range: FileRange,
        allocation_offset: u64,
        logical_permissions: MemoryPermissions,
    ) -> (r: Self)
        ensures
            r == (LoadedRegion {
                vaddr_range,
                runtime_range,
                file_range,
                allocation_offset,
                logical_permissions,
            }),
    {
        LoadedRegion {
            vaddr_range,
            runtime_range,
            file_range,
            allocation_offset,
            logical_permissions,
        }
    }

    /// Whether the region holds the `len` addresses from `vaddr` on and allows
    /// `permissions`.
    pub open spec fn serves(self, vaddr: TargetAddr, len: u64, permissions: MemoryPermissions) -> bool {
        self.vaddr_range.holds(vaddr, len) && self.logical_permissions.covers(permissions)
    }

    #[inline]
    pub fn vaddr_range(&self) -> (r: TargetRange)
        ensures
            r == self.vaddr_range,
    {
        self.vaddr_range
    }

    #[inline]
    pub fn runtime_range(&self) -> (r: TargetRange)
        ensures
            r == self.runtime_range,
    {
        self.runtime_range
    }

    #[inline]
    pub fn file_range(&self) -> (r: FileRange)
        ensures
            r == self.file_range,
    {
        self.file_range
    }

    #[inline]
    pub fn logical_permissions(&self) -> (r: MemoryPermissions)
        ensures
            r == self.logical_permissions,
    {
        self.logical_permissions
    }

    /// Where the region starts in the allocation.
    #[inline]
    pub fn allocation_offset(&self) -> (r: AllocationOffset)
        ensures
            r == AllocationOffset(self.allocation_offset),
    {
        AllocationOffset::new(self.allocation_offset)
    }

    #[inline]
    pub fn location(&self, allocation: AllocationId) -> (r: TargetLocation)
        ensures
            r == (TargetLocation { allocation, offset: self.allocation_offset }),
    {
        TargetLocation::new(allocation, self.allocation_offset)
    }
}

/// An artifact in memory.
pub struct MappedState {
    pub request: ArtifactRequest,
    pub allocation: ImageAllocation,
    pub image_span: u64,
    pub load_bias: TargetAddr,
    pub entry: TargetAddr,
    pub canonical_entry: TargetAddr,
    pub regions: Vec<LoadedRegion>,
    pub dynamic: Option<DynamicSegmentInfo>,
    pub relro: Option<TargetRange>,
}

/// The contents of a mapped state.
#[verifier::ext_equal]
pub struct MappedView {
    pub request: ArtifactRequest,
    pub allocation: ImageAllocation,
    pub image_span: u64,
    pub load_bias: TargetAddr,
    pub entry: TargetAddr,
    pub canonical_entry: TargetAddr,
    pub regions: Seq<LoadedRegion>,
    pub dynamic: Option<DynamicSegmentInfo>,
    pub relro: Option<TargetRange>,
}

impl View for MappedState {
    type V = MappedView;

    open spec fn view(&self) -> MappedView {
        MappedView {
            request: self.request,
            allocation: self.allocation,
            image_span: self.image_span,
            load_bias: self.load_bias,
            entry: self.entry,
            canonical_entry: self.canonical_entry,
            regions: self.regions@,
            dynamic: self.dynamic,
            relro: self.relro,
        }
    }
}

/// The first region from `from` on that serves the request.
pub open spec fn first_region(
    regions: Seq<LoadedRegion>,
    from: int,
    vaddr: TargetAddr,
    len: u64,
    permissions: MemoryPermissions,
) -> Option<int>
    decreases regions.len() - from,
{
    if from >= regions.len() {
        None
    } else if regions[from].serves(vaddr, len, permissions) {
        Some(from)
    } else {
        first_region(regions, from + 1, vaddr, len, permissions)
    }
}

/// Where a range of virtual addresses lies in its allocation.
pub open spec fn locate_spec(
    mapped: MappedView,
    stage: LoadStage,
    vaddr: TargetAddr,
    len: u64,
    permissions: MemoryPermissions,
) -> LoadResult<TargetLocation> {
    match first_region(mapped.regions, 0, vaddr, len, permissions) {
        None => Err(
            failure(
                stage,
                LoadErrorKind::OutOfBounds,
                ErrorContext::TargetRange { start: vaddr, len, align: 0 },
            ),
        ),
        Some(i) => range_at(
            (TargetLocation {
                allocation: mapped.allocation.id,
                offset: mapped.regions[i].allocation_offset,
            }).add_spec((vaddr.0 - mapped.regions[i].vaddr_range.start.0) as u64),
            stage,
        ),
    }
}

impl MappedState {
    #[inline]
    pub fn request(&self) -> (r: &ArtifactRequest)
        ensures
            *r == self@.request,
    {
        &self.request
    }

    #[inline]
    pub fn allocation(&self) -> (r: &ImageAllocation)
        ensures
            *r == self@.allocation,
    {
        &self.allocation
    }

    #[inline]
    pub fn image_span(&self) -> (r: u64)
        ensures
            r == self@.image_span,
    {
        self.image_span
    }

    #[inline]
    pub fn load_bias(&self) -> (r: TargetAddr)
        ensures
            r == self@.load_bias,
    {
        self.load_bias
    }

    #[inline]
    pub fn regions(&self) -> (r: &[LoadedRegion])
        ensures
            r@ == self@.regions,
    {
        self.regions.as_slice()
    }

    #[inline]
    pub fn entry(&self) -> (r: TargetAddr)
        ensures
            r == self@.entry,
    {
        self.entry
    }

    #[inline]
    pub fn canonical_entry(&self) -> (r: TargetAddr)
        ensures
            r == self@.canonical_entry,
    {
        self.canonical_entry
    }

    #[inline]
    pub fn dynamic(&self) -> (r: Option<DynamicSegmentInfo>)
        ensures
            r == self@.dynamic,
    {
        self.dynamic
    }

    #[inline]
    pub fn relro(&self) -> (r: Option<TargetRange>)
        ensures
            r == self@.relro,
    {
        self.relro
    }

    pub fn locate_vaddr(&self, vaddr: TargetAddr, len: u64, permissions: MemoryPermissions) -> (r:
        LoadResult<TargetLocation>)
        ensures
            r == locate_spec(self@, LoadStage::Mapping, vaddr, len, permissions),
    {
        self.locate_vaddr_at(LoadStage::Mapping, vaddr, len, permissions)
    }

    /// Finds a range of virtual addresses on behalf of `stage`.
    pub fn locate_vaddr_at(
        &self,
        stage: LoadStage,
        vaddr: TargetAddr,
        len: u64,
        permissions: MemoryPermissions,
    ) -> (r: LoadResult<TargetLocation>)
        ensures
            r == locate_spec(self@, stage, vaddr, len, permissions),
    {
        let mut index: usize = 0;
        while index < self.regions.len()
            invariant
                index <= self.regions@.len(),
                first_region(self.regions@, 0, vaddr, len, permissions) == first_region(
                    self.regions@,
                    index as int,
                    vaddr,
                    len,
                    permissions,
                ),
            decreases self.regions@.len() - index,
        {
            let region = self.regions[index];
            if region.vaddr_range.contains_span(vaddr, len) && region.logical_permissions.contains(
                permissions,
            ) {
                let offset: u64 = claim_range(
                    vaddr.checked_sub(region.vaddr_range.start()),
                    stage,
                )?;
                return claim_range(
                    region.location(self.allocation.id()).checked_add(offset),
                    stage,
                );
            }
            index = index + 1;
        }
        Err(
            fail_at(
                stage,
                LoadErrorKind::OutOfBounds,
                ErrorContext::TargetRange { start: vaddr, len, align: 0 },
            ),
        )
    }

    /// The address at which a range of virtual addresses is mapped.
    pub fn runtime_address(&self, vaddr: TargetAddr, len: u64, permissions: MemoryPermissions) -> (r:
        LoadResult<TargetAddr>)
        ensures
            r == (match locate_spec(self@, LoadStage::Mapping, vaddr, len, permissions) {
                Err(error) => Err::<TargetAddr, LoadError>(error),
                Ok(_) => range_at(self@.load_bias.add_spec(vaddr.0), LoadStage::Mapping),
            }),
    {
        self.locate_vaddr(vaddr, len, permissions)?;
        claim_range(self.load_bias.checked_add(vaddr.get()), LoadStage::Mapping)
    }
}

/// The region of one segment.
pub open spec fn region_spec(
    segment: SegmentLayout,
    low: TargetAddr,
    load_bias: TargetAddr,
) -> LoadResult<LoadedRegion> {
    let start = segment.vaddr_range.start;
    match range_at(start.sub_spec(low), LoadStage::Mapping) {
        Err(error) => Err(error),
        Ok(allocation_offset) => match range_at(load_bias.add_spec(start.0), LoadStage::Mapping) {
            Err(error) => Err(error),
            Ok(runtime_start) => {
                let runtime_range = TargetRange {
                    start: runtime_start,
                    len: segment.vaddr_range.len,
                };
                if runtime_range.bounded() {
                    Ok(
                        LoadedRegion {
                            vaddr_range: segment.vaddr_range,
                            runtime_range,
                            file_range: segment.file_range,
                            allocation_offset,
                            logical_permissions: segment.permissions,
                        },
                    )
                } else {
                    Err(
                        range_overflow(runtime_range.start, runtime_range.len).at_spec(
                            LoadStage::Mapping,
                        ),
                    )
                }
            },
        },
    }
}

/// The regions of the first `k` segments, or the failure of the first that has
/// none.
pub open spec fn regions_spec(
    segments: Seq<SegmentLayout>,
    k: int,
    low: TargetAddr,
    load_bias: TargetAddr,
) -> LoadResult<Seq<LoadedRegion>>
    decreases k,
{
    if k <= 0 {
        Ok(Seq::empty())
    } else {
        match regions_spec(segments, k - 1, low, load_bias) {
            Err(error) => Err(error),
            Ok(regions) => match region_spec(segments[k - 1], low, load_bias) {
                Err(error) => Err(error),
                Ok(region) => Ok(regions.push(region)),
            },
        }
    }
}

/// The mapped state of a laid out artifact.
pub open spec fn mapped_spec(
    request: ArtifactRequest,
    dynamic: Option<DynamicSegmentInfo>,
    layout: LayoutView,
    allocation: ImageAllocation,
    load_bias: TargetAddr,
) -> LoadResult<MappedView> {
    match regions_spec(
        layout.segments,
        layout.segments.len() as int,
        layout.aligned_min_vaddr,
        load_bias,
    ) {
        Err(error) => Err(error),
        Ok(regions) => match range_at(load_bias.add_spec(layout.entry_vaddr.0), LoadStage::Mapping) {
            Err(error) => Err(error),
            Ok(entry) => match range_at(
                load_bias.add_spec(layout.canonical_entry_vaddr.0),
                LoadStage::Mapping,
            ) {
                Err(error) => Err(error),
                Ok(canonical_entry) => Ok(
                    MappedView {
                        request,
                        allocation,
                        image_span: layout.image_span,
                        load_bias,
                        entry,
                        canonical_entry,
                        regions,
                        dynamic,
                        relro: layout.relro,
                    },
                ),
            },
        },
    }
}

proof fn lemma_regions_fault(
    segments: Seq<SegmentLayout>,
    k: int,
    low: TargetAddr,
    load_bias: TargetAddr,
)
    requires
        0 <= k <= segments.len(),
        regions_spec(segments, k, low, load_bias) is Err,
    ensures
        regions_spec(segments, segments.len() as int, low, load_bias) == regions_spec(
            segments,
            k,
            low,
            load_bias,
        ),
    decreases segments.len() - k,
{
    if k < segments.len() {
        lemma_regions_fault(segments, k + 1, low, load_bias);
    }
}

/// Every segment has its region.
pub proof fn lemma_regions_spec(
    segments: Seq<SegmentLayout>,
    k: int,
    low: TargetAddr,
    load_bias: TargetAddr,
)
    requires
        0 <= k <= segments.len(),
        regions_spec(segments, k, low, load_bias) is Ok,
    ensures
        regions_spec(segments, k, low, load_bias)->Ok_0.len() == k,
        forall|i: int|
            0 <= i < k ==> region_spec(segments[i], low, load_bias) == Ok::<
                LoadedRegion,
                LoadError,
            >(#[trigger] regions_spec(segments, k, low, load_bias)->Ok_0[i]),
    decreases k,
{
    if k > 0 {
        lemma_regions_spec(segments, k - 1, low, load_bias);
    }
}

fn region_of(segment: &SegmentLayout, low: TargetAddr, load_bias: TargetAddr) -> (r: LoadResult<
    LoadedRegion,
>)
    ensures
        r == region_spec(*segment, low, load_bias),
        r matches Err(error) ==> error.stage == Some(LoadStage::Mapping),
{
    let allocation_offset: u64 = claim_range(
        segment.vaddr_range().start().checked_sub(low),
        LoadStage::Mapping,
    )?;
    let runtime_start: TargetAddr = claim_range(
        load_bias.checked_add(segment.vaddr_range().start().get()),
        LoadStage::Mapping,
    )?;
    let runtime_range = TargetRange::new(runtime_start, segment.vaddr_range().len());
    claim_range(runtime_range.end(), LoadStage::Mapping)?;
    Ok(
        LoadedRegion::new(
            segment.vaddr_range(),
            runtime_range,
            segment.file_range(),
            allocation_offset,
            segment.permissions(),
        ),
    )
}

/// Works out where the segments of a laid out artifact go in its allocation.
pub fn map_layout(
    request: &ArtifactRequest,
    dynamic: Option<DynamicSegmentInfo>,
    layout: &ImageLayout,
    allocation: ImageAllocation,
    load_bias: TargetAddr,
) -> (r: LoadResult<MappedState>)
    ensures
        match mapped_spec(*request, dynamic, layout@, allocation, load_bias) {
            Ok(view) => r is Ok && r->Ok_0@ == view,
            Err(error) => r == Err::<MappedState, LoadError>(error),
        },
        r matches Err(error) ==> error.stage == Some(LoadStage::Mapping),
{
    let low: TargetAddr = layout.aligned_min_vaddr();
    let mut regions: Vec<LoadedRegion> = Vec::new();
    let mut index: usize = 0;
    while index < layout.segments.len()
        invariant
            index <= layout.segments@.len(),
            low == layout.aligned_min_vaddr,
            regions_spec(layout.segments@, index as int, low, load_bias) == Ok::<
                Seq<LoadedRegion>,
                LoadError,
            >(regions@),
        decreases layout.segments@.len() - index,
    {
        match region_of(&layout.segments[index], low, load_bias) {
            Ok(region) => {
                regions.push(region);
            },
            Err(error) => {
                proof {
                    assert(regions_spec(layout.segments@, index + 1, low, load_bias) is Err);
                    lemma_regions_fault(layout.segments@, index + 1, low, load_bias);
                }
                return Err(error);
            },
        }
        index = index + 1;
    }
    let entry: TargetAddr = claim_range(
        load_bias.checked_add(layout.entry_vaddr().get()),
        LoadStage::Mapping,
    )?;
    let canonical_entry: TargetAddr = claim_range(
        load_bias.checked_add(layout.canonical_entry_vaddr().get()),
        LoadStage::Mapping,
    )?;
    Ok(
        MappedState {
            request: *request,
            allocation,
            image_span: layout.image_span(),
            load_bias,
            entry,
            canonical_entry,
            regions,
            dynamic,
            relro: layout.relro(),
        },
    )
}

/// The bytes of a file range.
pub open spec fn file_bytes(bytes: Seq<u8>, range: FileRange) -> Seq<u8> {
    if range.len == 0 {
        Seq::empty()
    } else {
        bytes.subrange(range.offset as int, range.limit())
    }
}

/// How many bytes of a region do not come from the file.
pub open spec fn bss_len(region: LoadedRegion) -> int {
    region.vaddr_range.len - region.file_range.len
}

/// Memory after one region was filled. Borrowed memory is not known to be zero,
/// so the part without file bytes is cleared.
pub open spec fn region_filled(
    content: Seq<u8>,
    region: LoadedRegion,
    bytes: Seq<u8>,
    borrowed: bool,
) -> Seq<u8> {
    let copied = overwritten(
        content,
        region.allocation_offset as int,
        file_bytes(bytes, region.file_range),
    );
    if borrowed {
        overwritten(
            copied,
            region.allocation_offset + region.file_range.len,
            zeros(bss_len(region) as nat),
        )
    } else {
        copied
    }
}

/// Memory after the first `k` regions were filled.
pub open spec fn regions_filled(
    content: Seq<u8>,
    regions: Seq<LoadedRegion>,
    k: int,
    bytes: Seq<u8>,
    borrowed: bool,
) -> Seq<u8>
    decreases k,
{
    if k <= 0 {
        content
    } else {
        region_filled(
            regions_filled(content, regions, k - 1, bytes, borrowed),
            regions[k - 1],
            bytes,
            borrowed,
        )
    }
}

/// Memory after an image was copied into it.
pub open spec fn loaded_content(content: Seq<u8>, mapped: MappedView, bytes: Seq<u8>) -> Seq<u8> {
    let borrowed = mapped.allocation.ownership == AllocationOwnership::BorrowedFixed;
    let start = if borrowed {
        content
    } else {
        overwritten(content, 0, zeros(mapped.image_span as nat))
    };
    regions_filled(start, mapped.regions, mapped.regions.len() as int, bytes, borrowed)
}

/// Whether a region lies in memory, its file bytes in the file, and its file
/// bytes in the region.
pub open spec fn region_fits(region: LoadedRegion, content_len: nat, file_len: nat) -> bool {
    &&& region.allocation_offset + region.vaddr_range.len <= content_len
    &&& region.file_range.len <= region.vaddr_range.len
    &&& region.file_range.limit() <= file_len
}

/// Whether all of an image lies in memory of this size, and all it needs in a file
/// of this size.
pub open spec fn image_fits(mapped: MappedView, content_len: nat, file_len: nat) -> bool {
    &&& mapped.image_span <= content_len
    &&& file_len <= u64::MAX
    &&& forall|i: int|
        0 <= i < mapped.regions.len() ==> region_fits(
            #[trigger] mapped.regions[i],
            content_len,
            file_len,
        )
}

/// Whether memory of this size has room for what is written of an image: for all of
/// its span where the memory is its own, else for every region.
pub open spec fn targets_fit(mapped: MappedView, content_len: nat) -> bool {
    if mapped.allocation.ownership == AllocationOwnership::Owned {
        mapped.image_span <= content_len
    } else {
        regions_within(mapped.regions, content_len)
    }
}

/// Whether the file bytes of a region lie in a file of this size, and their place in
/// memory of this size.
pub open spec fn region_copies(region: LoadedRegion, content_len: nat, file_len: nat) -> bool {
    region.file_range.len == 0 || (region.file_range.limit() <= file_len
        && region.allocation_offset + region.file_range.len <= content_len)
}

/// Whether a region can be filled. In borrowed memory what is behind its file bytes
/// is cleared.
pub open spec fn region_fills(
    region: LoadedRegion,
    borrowed: bool,
    content_len: nat,
    file_len: nat,
) -> bool {
    &&& region_copies(region, content_len, file_len)
    &&& borrowed ==> region.file_range.len <= region.vaddr_range.len && region.allocation_offset
        + region.vaddr_range.len <= content_len
}

/// The failure of a region with more file bytes than it has room for.
pub open spec fn overlong(region: LoadedRegion) -> LoadError {
    failure(
        LoadStage::Mapping,
        LoadErrorKind::OutOfBounds,
        ErrorContext::TargetRange {
            start: region.vaddr_range.start,
            len: region.vaddr_range.len,
            align: 0,
        },
    )
}

/// Whether a region that cannot be filled fails as it must: one whose file bytes were
/// copied but are too many has a failure of its own; otherwise the reader or the
/// memory says why.
pub open spec fn fails_to_fill<T>(
    region: LoadedRegion,
    borrowed: bool,
    content_len: nat,
    file_len: nat,
    r: LoadResult<T>,
) -> bool {
    if borrowed && region_copies(region, content_len, file_len) && region.file_range.len
        > region.vaddr_range.len {
        r == Err::<T, LoadError>(overlong(region))
    } else {
        r matches Err(error) && error.stage == Some(LoadStage::Mapping)
    }
}

/// The first region from `from` on that cannot be filled.
pub open spec fn first_unfilled(
    regions: Seq<LoadedRegion>,
    from: int,
    borrowed: bool,
    content_len: nat,
    file_len: nat,
) -> Option<int>
    decreases regions.len() - from,
{
    if from >= regions.len() {
        None
    } else if !region_fills(regions[from], borrowed, content_len, file_len) {
        Some(from)
    } else {
        first_unfilled(regions, from + 1, borrowed, content_len, file_len)
    }
}

/// What comes of filling an image in memory of this size from a file of this size: the
/// first region that cannot be filled decides.
pub open spec fn filled_as<T>(
    mapped: MappedView,
    content_len: nat,
    file_len: nat,
    r: LoadResult<T>,
) -> bool {
    let borrowed = mapped.allocation.ownership == AllocationOwnership::BorrowedFixed;
    if !borrowed && mapped.image_span > content_len {
        r matches Err(error) && error.stage == Some(LoadStage::Mapping)
    } else {
        match first_unfilled(mapped.regions, 0, borrowed, content_len, file_len) {
            Some(k) => fails_to_fill(mapped.regions[k], borrowed, content_len, file_len, r),
            None => r is Ok,
        }
    }
}

/// What comes of copying an image into memory: the memory is asked first, then the
/// image is filled.
pub open spec fn copied_as<T>(
    mapped: MappedView,
    content_len: nat,
    file_len: nat,
    r: LoadResult<T>,
) -> bool {
    if !targets_fit(mapped, content_len) {
        r matches Err(error) && error.stage == Some(LoadStage::Mapping)
    } else {
        filled_as(mapped, content_len, file_len, r)
    }
}

/// An image that fits can be filled.
proof fn lemma_fitting_fills(mapped: MappedView, content_len: nat, file_len: nat, from: int)
    requires
        image_fits(mapped, content_len, file_len),
        0 <= from,
    ensures
        targets_fit(mapped, content_len),
        first_unfilled(
            mapped.regions,
            from,
            mapped.allocation.ownership == AllocationOwnership::BorrowedFixed,
            content_len,
            file_len,
        ) is None,
    decreases mapped.regions.len() - from,
{
    lemma_image_within(mapped, content_len, file_len);
    if from < mapped.regions.len() {
        assert(region_fits(mapped.regions[from], content_len, file_len));
        lemma_fitting_fills(mapped, content_len, file_len, from + 1);
    }
}

/// Whether every region lies in memory of this size.
pub open spec fn regions_within(regions: Seq<LoadedRegion>, len: nat) -> bool {
    forall|i: int|
        0 <= i < regions.len() ==> (#[trigger] regions[i]).allocation_offset
            + regions[i].vaddr_range.len <= len
}

/// Whether two regions share no byte of memory.
pub open spec fn regions_apart(a: LoadedRegion, b: LoadedRegion) -> bool {
    ||| a.allocation_offset + a.vaddr_range.len <= b.allocation_offset
    ||| b.allocation_offset + b.vaddr_range.len <= a.allocation_offset
}

/// Whether no two regions of an image share memory.
pub open spec fn all_apart(mapped: MappedView) -> bool {
    forall|a: int, b: int|
        0 <= a < b < mapped.regions.len() ==> regions_apart(
            #[trigger] mapped.regions[a],
            #[trigger] mapped.regions[b],
        )
}

/// What memory holds where region `i` is: the bytes of its file range, then
/// zeros.
pub open spec fn region_holds(content: Seq<u8>, region: LoadedRegion, bytes: Seq<u8>) -> bool {
    let start = region.allocation_offset as int;
    &&& content.subrange(start, start + region.file_range.len) == file_bytes(
        bytes,
        region.file_range,
    )
    &&& content.subrange(start + region.file_range.len, start + region.vaddr_range.len) == zeros(
        bss_len(region) as nat,
    )
}

/// The byte that a region has at an offset of the allocation: one of its file, or
/// zero behind them.
pub open spec fn region_byte(region: LoadedRegion, bytes: Seq<u8>, offset: int) -> u8 {
    let at = offset - region.allocation_offset;
    if at < region.file_range.len {
        bytes[region.file_range.offset + at]
    } else {
        0
    }
}

/// Whether the bytes of a region are zero.
spec fn region_clear(content: Seq<u8>, region: LoadedRegion) -> bool {
    forall|i: int|
        region.allocation_offset <= i < region.allocation_offset + region.vaddr_range.len ==> (
        #[trigger] content[i]) == 0
}

proof fn lemma_regions_filled(
    content: Seq<u8>,
    regions: Seq<LoadedRegion>,
    k: int,
    bytes: Seq<u8>,
    borrowed: bool,
)
    requires
        0 <= k <= regions.len(),
        forall|i: int|
            0 <= i < regions.len() ==> region_fits(#[trigger] regions[i], content.len(), bytes.len()),
        forall|i: int, j: int|
            0 <= i < j < regions.len() ==> regions_apart(
                #[trigger] regions[i],
                #[trigger] regions[j],
            ),
        !borrowed ==> forall|i: int|
            0 <= i < regions.len() ==> region_clear(content, #[trigger] regions[i]),
    ensures
        regions_filled(content, regions, k, bytes, borrowed).len() == content.len(),
        forall|i: int|
            0 <= i < k ==> region_holds(
                regions_filled(content, regions, k, bytes, borrowed),
                #[trigger] regions[i],
                bytes,
            ),
        !borrowed ==> forall|i: int|
            k <= i < regions.len() ==> region_clear(
                regions_filled(content, regions, k, bytes, borrowed),
                #[trigger] regions[i],
            ),
    decreases k,
{
    if k > 0 {
        lemma_regions_filled(content, regions, k - 1, bytes, borrowed);
        let before = regions_filled(content, regions, k - 1, bytes, borrowed);
        let after = regions_filled(content, regions, k, bytes, borrowed);
        let region = regions[k - 1];
        assert(region_fits(region, content.len(), bytes.len()));
        assert(after.len() == content.len());
        assert(region_holds(after, region, bytes)) by {
            let start = region.allocation_offset as int;
            let mid = start + region.file_range.len;
            assert(after.subrange(start, mid) =~= file_bytes(bytes, region.file_range));
            if !borrowed {
                assert(region_clear(before, region));
            }
            assert(after.subrange(mid, start + region.vaddr_range.len) =~= zeros(
                bss_len(region) as nat,
            ));
        }
        assert forall|i: int| 0 <= i < k - 1 implies region_holds(
            after,
            #[trigger] regions[i],
            bytes,
        ) by {
            let other = regions[i];
            assert(regions_apart(regions[i], regions[k - 1]));
            assert(region_fits(other, content.len(), bytes.len()));
            assert(region_holds(before, other, bytes));
            let start = other.allocation_offset as int;
            let mid = start + other.file_range.len;
            assert(after.subrange(start, mid) =~= before.subrange(start, mid));
            assert(after.subrange(mid, start + other.vaddr_range.len) =~= before.subrange(
                mid,
                start + other.vaddr_range.len,
            ));
        }
        if !borrowed {
            assert forall|i: int| k <= i < regions.len() implies region_clear(
                after,
                #[trigger] regions[i],
            ) by {
                assert(regions_apart(regions[k - 1], regions[i]));
                assert(region_fits(regions[i], content.len(), bytes.len()));
                assert(region_clear(before, regions[i]));
            }
        }
    }
}

/// After loading, every region that shares no memory with another holds the bytes
/// of its file range followed by zeros.
pub proof fn loading_fills_every_region(content: Seq<u8>, mapped: MappedView, bytes: Seq<u8>)
    requires
        forall|i: int|
            0 <= i < mapped.regions.len() ==> region_fits(
                #[trigger] mapped.regions[i],
                content.len(),
                bytes.len(),
            ),
        forall|i: int, j: int|
            0 <= i < j < mapped.regions.len() ==> regions_apart(
                #[trigger] mapped.regions[i],
                #[trigger] mapped.regions[j],
            ),
        mapped.allocation.ownership == AllocationOwnership::Owned ==> forall|i: int|
            0 <= i < mapped.regions.len() ==> (#[trigger] mapped.regions[i]).allocation_offset
                + mapped.regions[i].vaddr_range.len <= mapped.image_span,
    ensures
        loaded_content(content, mapped, bytes).len() == content.len(),
        forall|i: int|
            0 <= i < mapped.regions.len() ==> region_holds(
                loaded_content(content, mapped, bytes),
                #[trigger] mapped.regions[i],
                bytes,
            ),
{
    let borrowed = mapped.allocation.ownership == AllocationOwnership::BorrowedFixed;
    let start = if borrowed {
        content
    } else {
        overwritten(content, 0, zeros(mapped.image_span as nat))
    };
    if !borrowed {
        assert forall|i: int| 0 <= i < mapped.regions.len() implies region_clear(
            start,
            #[trigger] mapped.regions[i],
        ) by {
            assert(region_fits(mapped.regions[i], content.len(), bytes.len()));
        }
    }
    lemma_regions_filled(start, mapped.regions, mapped.regions.len() as int, bytes, borrowed);
}

/// A region that holds its bytes has each of them in its place.
pub proof fn lemma_region_byte(content: Seq<u8>, region: LoadedRegion, bytes: Seq<u8>, offset: int)
    requires
        region_fits(region, content.len(), bytes.len()),
        region_holds(content, region, bytes),
        region.allocation_offset <= offset < region.allocation_offset + region.vaddr_range.len,
    ensures
        content[offset] == region_byte(region, bytes, offset),
{
    let start = region.allocation_offset as int;
    let middle = start + region.file_range.len;
    if offset < middle {
        assert(content.subrange(start, middle)[offset - start] == content[offset]);
    } else {
        let rest = content.subrange(middle, start + region.vaddr_range.len);
        assert(rest[offset - middle] == content[offset]);
    }
}

/// An artifact whose memory is allocated.
pub struct ReservedState<R> {
    pub artifact: AdmittedArtifact<R>,
    pub parsed: ParsedImage,
    pub layout: ImageLayout,
    pub allocation: ImageAllocation,
    pub load_bias: TargetAddr,
}

impl<R> ReservedState<R> {
    pub fn into_parts(self) -> (r: (
        AdmittedArtifact<R>,
        ParsedImage,
        ImageLayout,
        ImageAllocation,
        TargetAddr,
    ))
        ensures
            r == (self.artifact, self.parsed, self.layout, self.allocation, self.load_bias),
    {
        (self.artifact, self.parsed, self.layout, self.allocation, self.load_bias)
    }
}

/// An image between two stages.
pub struct StagedImage<M, S> {
    pub transaction: ImageLoadTransaction<M>,
    pub state: S,
}

pub type MappedImage<M> = StagedImage<M, MappedState>;

impl<M: ImageMemory, S> StagedImage<M, S> {
    #[inline]
    pub fn new(transaction: ImageLoadTransaction<M>, state: S) -> (r: Self)
        ensures
            r == (StagedImage { transaction, state }),
    {
        StagedImage { transaction, state }
    }

    #[inline]
    pub fn state(&self) -> (r: &S)
        ensures
            *r == self.state,
    {
        &self.state
    }

    pub fn into_parts(self) -> (r: (ImageLoadTransaction<M>, S))
        ensures
            r == (self.transaction, self.state),
    {
        (self.transaction, self.state)
    }

    /// Gives the image up and hands its memory back.
    pub fn abandon(self) -> (r: M)
        ensures
            self.transaction.active() ==> r.current() is None,
    {
        self.transaction.finish()
    }
}

/// Whether memory held nothing new after a failed stage.
pub open spec fn given_up<M: ImageMemory>(memory: M) -> bool {
    memory.current() is None
}

/// Whether a failure to allocate the memory of an artifact is what came of asking for
/// it: the memory refused the request, or gave an allocation without a load bias.
pub open spec fn unreserved<M: ImageMemory>(
    layout: LayoutView,
    expected: ExpectedElfType,
    memory: M,
    error: LoadError,
) -> bool {
    exists|after: M, answer: LoadResult<AllocationLease>|
        #[trigger] memory.allocates(after, allocation_for(layout, expected), answer)
            && match answer {
            Err(refusal) => error == refusal.claimed_by(LoadStage::Allocate),
            Ok(lease) => load_bias_spec(layout, lease.allocation.base, expected) == Err::<
                TargetAddr,
                LoadError,
            >(error),
        }
}

impl<R: ElfReader> PlannedArtifact<R> {
    /// Allocates the memory of a planned artifact. On failure the memory holds
    /// nothing new.
    pub fn reserve<M: ImageMemory>(self, memory: M) -> (r: StageResult<
        StagedImage<M, ReservedState<R>>,
        M,
    >)
        ensures
            match r {
                Ok(image) => {
                    &&& image.transaction.active()
                    &&& image.transaction.progress == MutationProgress::Reserved
                    &&& image.transaction.memory.current() == Some(image.state.allocation)
                    &&& image.transaction.pending->0.allocation == image.state.allocation
                    &&& image.state.artifact == self.artifact
                    &&& image.state.parsed == self.parsed
                    &&& image.state.layout == self.layout
                    &&& load_bias_spec(
                        self.layout@,
                        image.state.allocation.base,
                        self.artifact.request.expected,
                    ) == Ok::<TargetAddr, LoadError>(image.state.load_bias)
                    &&& image.transaction.memory.content().len() == image.state.allocation.len
                    &&& image.state.allocation.base.0 + image.state.allocation.len <= u64::MAX
                    &&& image.state.allocation.len >= self.layout@.image_span
                    &&& memory.reliable() ==> image.transaction.memory.reliable()
                    &&& image.transaction.memory.source() == memory.source()
                    &&& memory.allocates(
                        image.transaction.memory,
                        allocation_for(self.layout@, self.artifact.request.expected),
                        Ok(image.transaction.pending->0),
                    )
                },
                Err(failed) => {
                    &&& given_up(failed.memory) || failed.memory.current() == memory.current()
                    &&& unreserved(
                        self.layout@,
                        self.artifact.request.expected,
                        memory,
                        failed.error,
                    )
                },
            },
    {
        let mut memory = memory;
        let expected: ExpectedElfType = self.artifact.request.expected;
        let request = self.layout.allocation_request(expected);
        let ghost given = memory;
        let answer = memory.allocate_image(request);
        assert(given.allocates(memory, request, answer));
        let lease = match claim_at(answer, LoadStage::Allocate) {
            Ok(lease) => lease,
            Err(error) => return Err(StageFailure { error, memory }),
        };
        let allocation: ImageAllocation = *lease.allocation();
        let bias = self.layout.load_bias_for(allocation.base(), expected);
        let transaction = ImageLoadTransaction::new(memory, lease);
        match bias {
            Ok(load_bias) => Ok(
                StagedImage {
                    transaction,
                    state: ReservedState {
                        artifact: self.artifact,
                        parsed: self.parsed,
                        layout: self.layout,
                        allocation,
                        load_bias,
                    },
                },
            ),
            Err(error) => Err(StageFailure { error, memory: transaction.finish() }),
        }
    }
}

/// Copies a file range to `target`, one buffer at a time. The file offset of a buffer
/// exists in every file whose size is a number of 64 bits, since the buffers before it
/// were read; otherwise the copy fails with an overflow.
pub fn copy_file_range<R: ElfReader, M: ImageMemory>(
    reader: &R,
    file_range: FileRange,
    target: TargetLocation,
    memory: &mut M,
) -> (r: LoadResult<()>)
    ensures
        final(memory).current() == old(memory).current(),
        final(memory).content().len() == old(memory).content().len(),
        old(memory).reliable() ==> final(memory).reliable(),
        final(memory).source() == old(memory).source(),
        reader.reliable() && ready(*old(memory)) && file_range.limit() <= reader.bytes().len()
            <= u64::MAX && target.offset + file_range.len <= old(memory).content().len() ==> r
            is Ok,
        r matches Err(error) ==> error.stage == Some(LoadStage::Mapping),
        file_range.len == 0 ==> r is Ok,
        r is Ok ==> file_range.limit() <= reader.bytes().len() || file_range.len == 0,
        r is Ok ==> target.offset + file_range.len <= old(memory).content().len() || file_range.len
            == 0,
        r is Ok ==> final(memory).content() == overwritten(
            old(memory).content(),
            target.offset as int,
            file_bytes(reader.bytes(), file_range),
        ),
{
    let mut copied: u64 = 0;
    assert(memory.content() =~= overwritten(
        old(memory).content(),
        target.offset as int,
        file_bytes(reader.bytes(), FileRange { offset: file_range.offset, len: 0 }),
    ));
    while copied < file_range.len()
        invariant
            copied <= file_range.len,
            copied > 0 ==> file_range.offset + copied <= reader.bytes().len(),
            copied > 0 ==> target.offset + copied <= old(memory).content().len(),
            old(memory).reliable() ==> memory.reliable(),
            memory.source() == old(memory).source(),
            memory.current() == old(memory).current(),
            memory.content().len() == old(memory).content().len(),
            memory.content() == overwritten(
                old(memory).content(),
                target.offset as int,
                file_bytes(
                    reader.bytes(),
                    FileRange { offset: file_range.offset, len: copied },
                ),
            ),
        decreases file_range.len - copied,
    {
        let remaining: u64 = file_range.len() - copied;
        let chunk_len: u64 = if remaining < COPY_BUFFER_SIZE {
            remaining
        } else {
            COPY_BUFFER_SIZE
        };
        let from: u64 = match file_range.offset().checked_add(copied) {
            Some(from) => from,
            None => return Err(
                fail_at(
                    LoadStage::Mapping,
                    LoadErrorKind::IntegerOverflow,
                    ErrorContext::FileRange {
                        offset: file_range.offset(),
                        len: file_range.len(),
                        file_len: 0,
                    },
                ),
            ),
        };
        let chunk = claim_at(reader.read_exact_at(from, chunk_len as usize), LoadStage::Mapping)?;
        let to = claim_range(target.checked_add(copied), LoadStage::Mapping)?;
        claim_at(
            memory.write(AllocationOffset::new(to.offset()), chunk.as_slice()),
            LoadStage::Mapping,
        )?;
        proof {
            assert(memory.content() =~= overwritten(
                old(memory).content(),
                target.offset as int,
                file_bytes(
                    reader.bytes(),
                    FileRange { offset: file_range.offset, len: (copied + chunk_len) as u64 },
                ),
            ));
        }
        copied = copied + chunk_len;
    }
    Ok(())
}

/// Checks that every region can be written and used.
pub fn preflight_targets<M: ImageMemory>(mapped: &MappedState, memory: &M) -> (r: LoadResult<()>)
    ensures
        r is Ok && mapped@.allocation.ownership == AllocationOwnership::Owned ==> mapped@.image_span
            <= memory.content().len(),
        r is Ok && mapped@.allocation.ownership == AllocationOwnership::BorrowedFixed ==> forall|
            i: int,
        |
            0 <= i < mapped@.regions.len() ==> (#[trigger] mapped@.regions[i]).allocation_offset
                + mapped@.regions[i].vaddr_range.len <= memory.content().len(),
        ready(*memory) && mapped@.image_span <= memory.content().len() && regions_within(
            mapped@.regions,
            memory.content().len(),
        ) ==> r is Ok,
        ready(*memory) ==> (r is Ok <==> targets_fit(mapped@, memory.content().len())),
        r matches Err(error) ==> error.stage == Some(LoadStage::Mapping),
{
    if mapped.allocation.ownership() == AllocationOwnership::Owned {
        return claim_at(
            memory.validate_access(
                AllocationOffset::new(0),
                mapped.image_span(),
                MemoryPermissions::write(),
            ),
            LoadStage::Mapping,
        );
    }
    let mut index: usize = 0;
    while index < mapped.regions.len()
        invariant
            index <= mapped.regions@.len(),
            mapped@.allocation.ownership != AllocationOwnership::Owned,
            forall|i: int|
                0 <= i < index ==> (#[trigger] mapped@.regions[i]).allocation_offset
                    + mapped@.regions[i].vaddr_range.len <= memory.content().len(),
        decreases mapped.regions@.len() - index,
    {
        let region = mapped.regions[index];
        assert(region == mapped@.regions[index as int]);
        let offset = AllocationOffset::new(region.allocation_offset);
        claim_at(
            memory.validate_access(offset, region.vaddr_range().len(), MemoryPermissions::write()),
            LoadStage::Mapping,
        )?;
        claim_at(
            memory.validate_access(
                offset,
                region.vaddr_range().len(),
                region.logical_permissions(),
            ),
            LoadStage::Mapping,
        )?;
        index = index + 1;
    }
    Ok(())
}

/// An image that fits has its regions in memory.
pub proof fn lemma_image_within(mapped: MappedView, content_len: nat, file_len: nat)
    requires
        image_fits(mapped, content_len, file_len),
    ensures
        regions_within(mapped.regions, content_len),
{
    assert forall|i: int| 0 <= i < mapped.regions.len() implies (
    #[trigger] mapped.regions[i]).allocation_offset + mapped.regions[i].vaddr_range.len
        <= content_len by {
        assert(region_fits(mapped.regions[i], content_len, file_len));
    }
}

/// Fills one region from the file.
fn fill_region<R: ElfReader, M: ImageMemory>(
    reader: &R,
    region: &LoadedRegion,
    allocation: &ImageAllocation,
    memory: &mut M,
) -> (r: LoadResult<()>)
    ensures
        final(memory).current() == old(memory).current(),
        final(memory).content().len() == old(memory).content().len(),
        old(memory).reliable() ==> final(memory).reliable(),
        final(memory).source() == old(memory).source(),
        reader.reliable() && ready(*old(memory)) && region_fits(
            *region,
            old(memory).content().len(),
            reader.bytes().len(),
        ) && reader.bytes().len() <= u64::MAX ==> r is Ok,
        r matches Err(error) ==> error.stage == Some(LoadStage::Mapping),
        reader.reliable() && ready(*old(memory)) && reader.bytes().len() <= u64::MAX ==> {
            let borrowed = allocation.ownership == AllocationOwnership::BorrowedFixed;
            let content_len = old(memory).content().len();
            let file_len = reader.bytes().len();
            if region_fills(*region, borrowed, content_len, file_len) {
                r is Ok
            } else {
                fails_to_fill(*region, borrowed, content_len, file_len, r)
            }
        },
        r is Ok ==> region.file_range.limit() <= reader.bytes().len() || region.file_range.len == 0,
        r is Ok ==> final(memory).content() == region_filled(
            old(memory).content(),
            *region,
            reader.bytes(),
            allocation.ownership == AllocationOwnership::BorrowedFixed,
        ),
        r is Ok && allocation.ownership == AllocationOwnership::BorrowedFixed
            ==> region.file_range.len <= region.vaddr_range.len,
{
    let location = region.location(allocation.id());
    copy_file_range(reader, region.file_range(), location, memory)?;
    if allocation.ownership() == AllocationOwnership::BorrowedFixed {
        let bss: u64 = match region.vaddr_range().len().checked_sub(region.file_range().len()) {
            Some(bss) => bss,
            None => return Err(
                fail_at(
                    LoadStage::Mapping,
                    LoadErrorKind::OutOfBounds,
                    ErrorContext::TargetRange {
                        start: region.vaddr_range().start(),
                        len: region.vaddr_range().len(),
                        align: 0,
                    },
                ),
            ),
        };
        let end = claim_range(
            location.checked_add(region.file_range().len()),
            LoadStage::Mapping,
        )?;
        claim_at(memory.zero(AllocationOffset::new(end.offset()), bss), LoadStage::Mapping)?;
    }
    Ok(())
}

/// Fills every region of a mapped image.
pub fn fill_regions<R: ElfReader, M: ImageMemory>(
    reader: &R,
    mapped: &MappedState,
    memory: &mut M,
) -> (r: LoadResult<()>)
    ensures
        final(memory).current() == old(memory).current(),
        final(memory).content().len() == old(memory).content().len(),
        old(memory).reliable() ==> final(memory).reliable(),
        final(memory).source() == old(memory).source(),
        reader.reliable() && ready(*old(memory)) && image_fits(
            mapped@,
            old(memory).content().len(),
            reader.bytes().len(),
        ) ==> r is Ok,
        r matches Err(error) ==> error.stage == Some(LoadStage::Mapping),
        reader.reliable() && ready(*old(memory)) && reader.bytes().len() <= u64::MAX ==> filled_as(
            mapped@,
            old(memory).content().len(),
            reader.bytes().len(),
            r,
        ),
        r is Ok ==> final(memory).content() == loaded_content(
            old(memory).content(),
            mapped@,
            reader.bytes(),
        ),
{
    let ghost borrowed = mapped@.allocation.ownership == AllocationOwnership::BorrowedFixed;
    proof {
        if image_fits(mapped@, memory.content().len(), reader.bytes().len()) {
            lemma_fitting_fills(mapped@, memory.content().len(), reader.bytes().len(), 0);
        }
    }
    if mapped.allocation.ownership() == AllocationOwnership::Owned {
        claim_at(memory.zero(AllocationOffset::new(0), mapped.image_span()), LoadStage::Mapping)?;
    }
    let ghost start = memory.content();
    let mut index: usize = 0;
    while index < mapped.regions.len()
        invariant
            index <= mapped.regions@.len(),
            borrowed == (mapped@.allocation.ownership == AllocationOwnership::BorrowedFixed),
            old(memory).reliable() ==> memory.reliable(),
            memory.source() == old(memory).source(),
            memory.current() == old(memory).current(),
            memory.content().len() == old(memory).content().len(),
            !borrowed && ready(*old(memory)) ==> mapped@.image_span <= memory.content().len(),
            first_unfilled(
                mapped@.regions,
                0,
                borrowed,
                memory.content().len(),
                reader.bytes().len(),
            ) == first_unfilled(
                mapped@.regions,
                index as int,
                borrowed,
                memory.content().len(),
                reader.bytes().len(),
            ) || !(reader.reliable() && ready(*old(memory)) && reader.bytes().len() <= u64::MAX),
            image_fits(mapped@, memory.content().len(), reader.bytes().len()) ==> first_unfilled(
                mapped@.regions,
                0,
                borrowed,
                memory.content().len(),
                reader.bytes().len(),
            ) is None,
            memory.content() == regions_filled(
                start,
                mapped@.regions,
                index as int,
                reader.bytes(),
                borrowed,
            ),
        decreases mapped.regions@.len() - index,
    {
        assert(mapped.regions@[index as int] == mapped@.regions[index as int]);
        fill_region(reader, &mapped.regions[index], &mapped.allocation, memory)?;
        index = index + 1;
    }
    Ok(())
}

impl ImageLoader {
    /// Copies the segments of a reserved artifact into its memory and clears the
    /// rest.
    pub fn copy_and_zero<R: ElfReader, M: ImageMemory>(
        &self,
        reserved: ReservedState<R>,
        transaction: &mut ImageLoadTransaction<M>,
    ) -> (r: LoadResult<MappedState>)
        ensures
            final(transaction).pending == old(transaction).pending,
            final(transaction).memory.current() == old(transaction).memory.current(),
            match mapped_spec(
                reserved.artifact.request,
                reserved.parsed@.dynamic,
                reserved.layout@,
                reserved.allocation,
                reserved.load_bias,
            ) {
                Err(error) => r == Err::<MappedState, LoadError>(error) && *final(transaction)
                    == *old(transaction),
                Ok(view) => {
                    &&& r matches Ok(mapped) ==> {
                        &&& mapped@ == view
                        &&& reserved.artifact.reader.bytes().len() == reserved.artifact.file_len
                        &&& final(transaction).progress == bytes_modified(
                            old(transaction).progress,
                        )
                        &&& final(transaction).memory.content() == loaded_content(
                            old(transaction).memory.content(),
                            view,
                            reserved.artifact.reader.bytes(),
                        )
                    }
                    &&& reserved.artifact.reader.reliable() ==> {
                        let file_len = reserved.artifact.reader.bytes().len();
                        &&& file_len != reserved.artifact.file_len ==> r == Err::<
                            MappedState,
                            LoadError,
                        >(changed_source()) && *final(transaction) == *old(transaction)
                        &&& file_len == reserved.artifact.file_len && ready(
                            old(transaction).memory,
                        ) ==> {
                            let content_len = old(transaction).memory.content().len();
                            &&& copied_as(view, content_len, file_len, r)
                            &&& if targets_fit(view, content_len) {
                                final(transaction).progress == bytes_modified(
                                    old(transaction).progress,
                                )
                            } else {
                                *final(transaction) == *old(transaction)
                            }
                        }
                        &&& file_len == reserved.artifact.file_len && ready(
                            old(transaction).memory,
                        ) && image_fits(view, old(transaction).memory.content().len(), file_len)
                            ==> r is Ok
                    }
                },
            },
            r matches Err(error) ==> error.stage is Some,
            final(transaction).progress == old(transaction).progress || final(transaction).progress
                == bytes_modified(old(transaction).progress),
            old(transaction).memory.reliable() ==> final(transaction).memory.reliable(),
            final(transaction).memory.source() == old(transaction).memory.source(),
            final(transaction).memory.content().len() == old(transaction).memory.content().len(),
    {
        let (artifact, parsed, layout, allocation, load_bias) = reserved.into_parts();
        let mapped = map_layout(
            &artifact.request,
            parsed.dynamic(),
            &layout,
            allocation,
            load_bias,
        )?;
        artifact.ensure_snapshot()?;
        proof {
            if image_fits(
                mapped@,
                transaction.memory.content().len(),
                artifact.reader.bytes().len(),
            ) {
                lemma_image_within(
                    mapped@,
                    transaction.memory.content().len(),
                    artifact.reader.bytes().len(),
                );
            }
        }
        preflight_targets(&mapped, transaction.memory())?;
        transaction.mark_bytes_modified();
        fill_regions(&artifact.reader, &mapped, &mut transaction.memory)?;
        artifact.ensure_snapshot()?;
        Ok(mapped)
    }
}

impl<M: ImageMemory, R: ElfReader> StagedImage<M, ReservedState<R>> {
    /// Copies the artifact into its memory. On failure the image is given up.
    pub fn copy_and_zero(self) -> (r: StageResult<MappedImage<M>, M>)
        requires
            self.transaction.active(),
        ensures
            match r {
                Err(failed) => given_up(failed.memory) && failed.error.stage is Some,
                Ok(image) => {
                    let view = mapped_spec(
                        self.state.artifact.request,
                        self.state.parsed@.dynamic,
                        self.state.layout@,
                        self.state.allocation,
                        self.state.load_bias,
                    );
                    &&& view == Ok::<MappedView, LoadError>(image.state@)
                    &&& image.transaction.pending == self.transaction.pending
                    &&& image.transaction.memory.current() == self.transaction.memory.current()
                    &&& image.transaction.memory.content() == loaded_content(
                        self.transaction.memory.content(),
                        image.state@,
                        self.state.artifact.reader.bytes(),
                    )
                    &&& image.transaction.memory.content().len()
                        == self.transaction.memory.content().len()
                    &&& self.transaction.memory.reliable() ==> image.transaction.memory.reliable()
                    &&& image.transaction.memory.source() == self.transaction.memory.source()
                },
            },
            match mapped_spec(
                self.state.artifact.request,
                self.state.parsed@.dynamic,
                self.state.layout@,
                self.state.allocation,
                self.state.load_bias,
            ) {
                Err(error) => r matches Err(failed) && failed.error == error,
                Ok(view) => self.state.artifact.reader.reliable() ==> {
                    let file_len = self.state.artifact.reader.bytes().len();
                    &&& file_len != self.state.artifact.file_len ==> (r matches Err(failed)
                        && failed.error == changed_source())
                    &&& file_len == self.state.artifact.file_len && ready(self.transaction.memory)
                        ==> copied_as(
                        view,
                        self.transaction.memory.content().len(),
                        file_len,
                        stage_outcome(r),
                    )
                    &&& file_len == self.state.artifact.file_len && ready(self.transaction.memory)
                        && image_fits(view, self.transaction.memory.content().len(), file_len)
                        ==> r is Ok
                },
            },
    {
        let (mut transaction, reserved) = self.into_parts();
        match ImageLoader::new().copy_and_zero(reserved, &mut transaction) {
            Ok(mapped) => Ok(StagedImage::new(transaction, mapped)),
            Err(error) => Err(StageFailure { error, memory: transaction.finish() }),
        }
    }
}

/// Mapping an artifact moves all of it by the load bias: its entry is the load bias plus
/// the linked entry, with the mode bit if that has it, and every segment has a region
/// that starts at the load bias plus its linked address. In the allocation a region lies
/// as far from the start as its address from the lowest one of the layout, and it keeps
/// its bytes of the file and its permissions.
pub proof fn mapping_adds_the_load_bias(
    request: ArtifactRequest,
    dynamic: Option<DynamicSegmentInfo>,
    layout: LayoutView,
    allocation: ImageAllocation,
    load_bias: TargetAddr,
    mapped: MappedView,
)
    requires
        mapped_spec(request, dynamic, layout, allocation, load_bias) == Ok::<
            MappedView,
            LoadError,
        >(mapped),
    ensures
        mapped.load_bias == load_bias,
        mapped.allocation == allocation,
        mapped.image_span == layout.image_span,
        mapped.dynamic == dynamic,
        mapped.relro == layout.relro,
        mapped.entry.0 == load_bias.0 + layout.entry_vaddr.0,
        mapped.canonical_entry.0 == load_bias.0 + layout.canonical_entry_vaddr.0,
        mapped.regions.len() == layout.segments.len(),
        forall|i: int|
            0 <= i < mapped.regions.len() ==> {
                let region = #[trigger] mapped.regions[i];
                let segment = layout.segments[i];
                &&& region.vaddr_range == segment.vaddr_range
                &&& region.runtime_range.start.0 == load_bias.0 + segment.vaddr_range.start.0
                &&& region.runtime_range.len == segment.vaddr_range.len
                &&& region.runtime_range.start.0 + region.runtime_range.len <= u64::MAX
                &&& region.allocation_offset + layout.aligned_min_vaddr.0
                    == segment.vaddr_range.start.0
                &&& region.file_range == segment.file_range
                &&& region.logical_permissions == segment.permissions
            },
{
    lemma_regions_spec(
        layout.segments,
        layout.segments.len() as int,
        layout.aligned_min_vaddr,
        load_bias,
    );
}

} // verus!
