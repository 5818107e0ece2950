//! The final protection of a loaded image.

use crate::address::{claim_range, range_at, range_overflow, TargetAddr, TargetRange};
use crate::error::{
    fail_at, failure, ErrorContext, LoadError, LoadErrorKind, LoadResult, LoadStage,
};
use crate::image::layout::{
    layout_spec, layouts_are_sound, load_bias_spec, sound_segment, LayoutView,
};
use crate::image::loaded::{
    first_region, lemma_regions_spec, locate_spec, mapped_spec, region_spec, regions_apart,
    LoadedRegion, MappedState, MappedView,
};
use crate::image::parser::ParsedView;
use crate::memory::{ImageAllocation, TargetLocation};
use crate::permissions::{nothing_is_covered, without_write, MemoryPermissions};
use crate::request::ArtifactRequest;
use vstd::prelude::*;

verus! {

/// A part of an image with one set of permissions.
#[derive(Clone, Copy, Debug, PartialEq, Eq, Structural)]
pub struct SealRange {
    pub location: TargetLocation,
    pub runtime_range: TargetRange,
    pub permissions: MemoryPermissions,
}

impl SealRange {
    /// The offset behind the part.
    pub open spec fn offset_end(self) -> int {
        self.location.offset + self.runtime_range.len
    }

    #[inline]
    pub fn location(&self) -> (r: TargetLocation)
        ensures
            r == self.location,
    {
        self.location
    }

    #[inline]
    pub fn runtime_range(&self) -> (r: TargetRange)
        ensures
            r == self.runtime_range,
    {
        self.runtime_range
    }

    #[inline]
    pub fn permissions(&self) -> (r: MemoryPermissions)
        ensures
            r == self.permissions,
    {
        self.permissions
    }
}

/// The parts of an image and their final permissions.
pub struct SealPlan {
    pub ranges: Vec<SealRange>,
}

/// The failure of a plan that cannot be held.
pub open spec fn seal_overflow() -> LoadError {
    failure(LoadStage::Seal, LoadErrorKind::OutOfMemory, ErrorContext::Nothing)
}

/// Whether `next` continues `previous` with the same permissions.
pub open spec fn continues(previous: SealRange, next: SealRange) -> bool {
    &&& previous.permissions == next.permissions
    &&& previous.location.allocation == next.location.allocation
    &&& previous.offset_end() == next.location.offset
    &&& previous.runtime_range.limit() == next.runtime_range.start.0
}

/// `ranges` with one more part, which is joined to the last one if it continues
/// it.
pub open spec fn appended(ranges: Seq<SealRange>, next: SealRange) -> LoadResult<Seq<SealRange>> {
    if ranges.len() == 0 {
        Ok(ranges.push(next))
    } else {
        let previous = ranges.last();
        if !previous.runtime_range.bounded() {
            Err(
                range_overflow(previous.runtime_range.start, previous.runtime_range.len).at_spec(
                    LoadStage::Seal,
                ),
            )
        } else if !continues(previous, next) {
            Ok(ranges.push(next))
        } else if previous.runtime_range.len + next.runtime_range.len > u64::MAX {
            Err(seal_overflow())
        } else {
            Ok(
                ranges.drop_last().push(
                    SealRange {
                        runtime_range: TargetRange {
                            start: previous.runtime_range.start,
                            len: (previous.runtime_range.len + next.runtime_range.len) as u64,
                        },
                        ..previous
                    },
                ),
            )
        }
    }
}

/// `ranges` with a part at `location` that is mapped from `start` on.
pub open spec fn part_appended(
    ranges: Seq<SealRange>,
    location: TargetLocation,
    start: LoadResult<TargetAddr>,
    len: u64,
    permissions: MemoryPermissions,
) -> LoadResult<Seq<SealRange>> {
    match start {
        Err(error) => Err(error),
        Ok(start) => {
            let runtime_range = TargetRange { start, len };
            if !runtime_range.bounded() {
                Err(range_overflow(start, len).at_spec(LoadStage::Seal))
            } else {
                appended(ranges, SealRange { location, runtime_range, permissions })
            }
        },
    }
}

/// `ranges` with the part for a range of virtual addresses.
pub open spec fn vaddr_appended(
    mapped: MappedView,
    ranges: Seq<SealRange>,
    vaddr: int,
    len: int,
    permissions: MemoryPermissions,
) -> LoadResult<Seq<SealRange>> {
    let vaddr = TargetAddr(vaddr as u64);
    let len = len as u64;
    if len == 0 {
        Ok(ranges)
    } else {
        match locate_spec(mapped, LoadStage::Seal, vaddr, len, MemoryPermissions::spec_none()) {
            Err(error) => Err(error),
            Ok(location) => part_appended(
                ranges,
                location,
                range_at(mapped.load_bias.add_spec(vaddr.0), LoadStage::Seal),
                len,
                permissions,
            ),
        }
    }
}

/// `ranges` with an inaccessible part that no region covers.
pub open spec fn gap_appended(
    mapped: MappedView,
    ranges: Seq<SealRange>,
    offset: int,
    len: int,
) -> LoadResult<Seq<SealRange>> {
    let offset = offset as u64;
    let len = len as u64;
    if len == 0 {
        Ok(ranges)
    } else {
        part_appended(
            ranges,
            TargetLocation { allocation: mapped.allocation.id, offset },
            range_at(mapped.allocation.base.add_spec(offset), LoadStage::Seal),
            len,
            MemoryPermissions::spec_none(),
        )
    }
}

/// The larger of two numbers.
pub open spec fn larger(a: int, b: int) -> int {
    if a >= b {
        a
    } else {
        b
    }
}

/// The smaller of two numbers.
pub open spec fn smaller(a: int, b: int) -> int {
    if a <= b {
        a
    } else {
        b
    }
}

/// `ranges` with the parts of one region. The part that is read-only after
/// relocation loses its write permission.
pub open spec fn region_appended(
    mapped: MappedView,
    ranges: Seq<SealRange>,
    region: LoadedRegion,
) -> LoadResult<Seq<SealRange>> {
    let source = region.vaddr_range;
    let start = source.start.0 as int;
    let permissions = region.logical_permissions;
    if mapped.relro is Some && mapped.relro->0.meets(source) {
        let relro = mapped.relro->0;
        if !source.bounded() {
            Err(range_overflow(source.start, source.len).at_spec(LoadStage::Seal))
        } else if !relro.bounded() {
            Err(range_overflow(relro.start, relro.len).at_spec(LoadStage::Seal))
        } else {
            let from = larger(start, relro.start.0 as int);
            let to = smaller(source.limit(), relro.limit());
            match vaddr_appended(mapped, ranges, start, from - start, permissions) {
                Err(error) => Err(error),
                Ok(ranges) => match vaddr_appended(
                    mapped,
                    ranges,
                    from,
                    to - from,
                    permissions.less(MemoryPermissions::spec_write()),
                ) {
                    Err(error) => Err(error),
                    Ok(ranges) => vaddr_appended(
                        mapped,
                        ranges,
                        to,
                        source.limit() - to,
                        permissions,
                    ),
                },
            }
        }
    } else {
        vaddr_appended(mapped, ranges, start, source.len as int, permissions)
    }
}

/// The offset of a mapped address in the allocation.
pub open spec fn offset_of(mapped: MappedView, address: TargetAddr) -> LoadResult<u64> {
    range_at(address.sub_spec(mapped.allocation.base), LoadStage::Seal)
}

/// The offset behind a region.
pub open spec fn region_end(mapped: MappedView, region: LoadedRegion) -> LoadResult<u64> {
    match range_at(region.runtime_range.end_spec(), LoadStage::Seal) {
        Err(error) => Err(error),
        Ok(end) => offset_of(mapped, end),
    }
}

/// The parts of the gap before a region and of the region itself.
pub open spec fn region_sealed(
    mapped: MappedView,
    ranges: Seq<SealRange>,
    cursor: u64,
    region: LoadedRegion,
) -> LoadResult<(Seq<SealRange>, u64)> {
    match offset_of(mapped, region.runtime_range.start) {
        Err(error) => Err(error),
        Ok(offset) => if offset < cursor {
            Err(
                failure(
                    LoadStage::Seal,
                    LoadErrorKind::OutOfBounds,
                    ErrorContext::TargetRange {
                        start: region.runtime_range.start,
                        len: region.runtime_range.len,
                        align: 0,
                    },
                ),
            )
        } else {
            match gap_appended(mapped, ranges, cursor as int, offset - cursor) {
                Err(error) => Err(error),
                Ok(ranges) => match region_appended(mapped, ranges, region) {
                    Err(error) => Err(error),
                    Ok(ranges) => match region_end(mapped, region) {
                        Err(error) => Err(error),
                        Ok(end) => Ok((ranges, end)),
                    },
                },
            }
        },
    }
}

/// The parts of the first `k` regions and of the gaps before them, and the
/// offset behind them.
pub open spec fn regions_sealed(mapped: MappedView, k: int) -> LoadResult<(Seq<SealRange>, u64)>
    decreases k,
{
    if k <= 0 {
        Ok((Seq::empty(), 0))
    } else {
        match regions_sealed(mapped, k - 1) {
            Err(error) => Err(error),
            Ok((ranges, cursor)) => region_sealed(mapped, ranges, cursor, mapped.regions[k - 1]),
        }
    }
}

/// The parts of an image and their final permissions.
pub open spec fn seal_spec(mapped: MappedView) -> LoadResult<Seq<SealRange>> {
    match regions_sealed(mapped, mapped.regions.len() as int) {
        Err(error) => Err(error),
        Ok((ranges, cursor)) => if mapped.image_span < cursor {
            Err(
                failure(
                    LoadStage::Seal,
                    LoadErrorKind::OutOfBounds,
                    ErrorContext::MemoryAccess {
                        allocation_base: mapped.allocation.base,
                        allocation_len: mapped.allocation.len,
                        allocation_align: mapped.allocation.align,
                        offset: cursor,
                        len: mapped.image_span,
                    },
                ),
            )
        } else {
            gap_appended(mapped, ranges, cursor as int, mapped.image_span - cursor)
        },
    }
}

proof fn lemma_regions_sealed(mapped: MappedView, k: int)
    requires
        0 <= k <= mapped.regions.len(),
        regions_sealed(mapped, k) is Err,
    ensures
        seal_spec(mapped) is Err,
        seal_spec(mapped)->Err_0 == regions_sealed(mapped, k)->Err_0,
    decreases mapped.regions.len() - k,
{
    if k < mapped.regions.len() {
        assert(regions_sealed(mapped, k + 1) == Err::<(Seq<SealRange>, u64), LoadError>(
            regions_sealed(mapped, k)->Err_0,
        ));
        lemma_regions_sealed(mapped, k + 1);
    }
}

/// Whether `r` is `ranges` after the part `spec` says.
pub open spec fn append_outcome(
    r: LoadResult<()>,
    ranges: Seq<SealRange>,
    expected: LoadResult<Seq<SealRange>>,
) -> bool {
    match expected {
        Ok(after) => r is Ok && ranges == after,
        Err(error) => r == Err::<(), LoadError>(error),
    }
}

fn append_seal_range(ranges: &mut Vec<SealRange>, next: SealRange) -> (r: LoadResult<()>)
    ensures
        append_outcome(r, final(ranges)@, appended(old(ranges)@, next)),
{
    let count: usize = ranges.len();
    if count > 0 {
        let previous: SealRange = ranges[count - 1];
        let location_end: Option<u64> = previous.location.offset().checked_add(
            previous.runtime_range.len(),
        );
        let runtime_end: TargetAddr = claim_range(previous.runtime_range.end(), LoadStage::Seal)?;
        if previous.permissions == next.permissions && previous.location.allocation()
            == next.location.allocation() && location_end == Some(next.location.offset())
            && runtime_end == next.runtime_range.start() {
            let merged_len: u64 = match previous.runtime_range.len().checked_add(
                next.runtime_range.len(),
            ) {
                Some(merged_len) => merged_len,
                None => return Err(
                    fail_at(LoadStage::Seal, LoadErrorKind::OutOfMemory, ErrorContext::Nothing),
                ),
            };
            let merged = SealRange {
                location: previous.location,
                runtime_range: TargetRange::new(previous.runtime_range.start(), merged_len),
                permissions: previous.permissions,
            };
            ranges.set(count - 1, merged);
            assert(ranges@ =~= old(ranges)@.drop_last().push(merged));
            return Ok(());
        }
    }
    ranges.push(next);
    Ok(())
}

fn append_range(
    mapped: &MappedState,
    ranges: &mut Vec<SealRange>,
    vaddr: TargetAddr,
    len: u64,
    permissions: MemoryPermissions,
) -> (r: LoadResult<()>)
    ensures
        append_outcome(
            r,
            final(ranges)@,
            vaddr_appended(mapped@, old(ranges)@, vaddr.0 as int, len as int, permissions),
        ),
{
    if len == 0 {
        return Ok(());
    }
    let location = mapped.locate_vaddr_at(LoadStage::Seal, vaddr, len, MemoryPermissions::none())?;
    let start: TargetAddr = claim_range(
        mapped.load_bias().checked_add(vaddr.get()),
        LoadStage::Seal,
    )?;
    let runtime_range = TargetRange::new(start, len);
    claim_range(runtime_range.end(), LoadStage::Seal)?;
    append_seal_range(ranges, SealRange { location, runtime_range, permissions })
}

fn append_allocation_range(
    mapped: &MappedState,
    ranges: &mut Vec<SealRange>,
    offset: u64,
    len: u64,
) -> (r: LoadResult<()>)
    ensures
        append_outcome(
            r,
            final(ranges)@,
            gap_appended(mapped@, old(ranges)@, offset as int, len as int),
        ),
{
    if len == 0 {
        return Ok(());
    }
    let location = TargetLocation::new(mapped.allocation().id(), offset);
    let start: TargetAddr = claim_range(
        mapped.allocation().base().checked_add(offset),
        LoadStage::Seal,
    )?;
    let runtime_range = TargetRange::new(start, len);
    claim_range(runtime_range.end(), LoadStage::Seal)?;
    append_seal_range(
        ranges,
        SealRange { location, runtime_range, permissions: MemoryPermissions::none() },
    )
}

fn append_region(mapped: &MappedState, ranges: &mut Vec<SealRange>, region: &LoadedRegion) -> (r:
    LoadResult<()>)
    ensures
        append_outcome(r, final(ranges)@, region_appended(mapped@, old(ranges)@, *region)),
{
    let source: TargetRange = region.vaddr_range();
    let permissions: MemoryPermissions = region.logical_permissions();
    if let Some(relro) = mapped.relro() {
        if relro.overlaps(source) {
            let source_end: TargetAddr = claim_range(source.end(), LoadStage::Seal)?;
            let relro_end: TargetAddr = claim_range(relro.end(), LoadStage::Seal)?;
            let from: u64 = if source.start().get() >= relro.start().get() {
                source.start().get()
            } else {
                relro.start().get()
            };
            let to: u64 = if source_end.get() <= relro_end.get() {
                source_end.get()
            } else {
                relro_end.get()
            };
            append_range(
                mapped,
                ranges,
                source.start(),
                from - source.start().get(),
                permissions,
            )?;
            append_range(
                mapped,
                ranges,
                TargetAddr::new(from),
                to - from,
                permissions.without(MemoryPermissions::write()),
            )?;
            return append_range(
                mapped,
                ranges,
                TargetAddr::new(to),
                source_end.get() - to,
                permissions,
            );
        }
    }
    append_range(mapped, ranges, source.start(), source.len(), permissions)
}

/// Appends the gap before a region and the region, and returns the offset behind
/// it.
fn append_loaded(
    mapped: &MappedState,
    ranges: &mut Vec<SealRange>,
    cursor: u64,
    region: &LoadedRegion,
) -> (r: LoadResult<u64>)
    ensures
        match region_sealed(mapped@, old(ranges)@, cursor, *region) {
            Ok((after, end)) => r == Ok::<u64, LoadError>(end) && final(ranges)@ == after,
            Err(error) => r == Err::<u64, LoadError>(error),
        },
{
    let base: TargetAddr = mapped.allocation().base();
    let offset: u64 = claim_range(
        region.runtime_range().start().checked_sub(base),
        LoadStage::Seal,
    )?;
    let gap: u64 = match offset.checked_sub(cursor) {
        Some(gap) => gap,
        None => return Err(
            fail_at(
                LoadStage::Seal,
                LoadErrorKind::OutOfBounds,
                ErrorContext::TargetRange {
                    start: region.runtime_range().start(),
                    len: region.runtime_range().len(),
                    align: 0,
                },
            ),
        ),
    };
    append_allocation_range(mapped, ranges, cursor, gap)?;
    append_region(mapped, ranges, region)?;
    let end: TargetAddr = claim_range(region.runtime_range().end(), LoadStage::Seal)?;
    claim_range(end.checked_sub(base), LoadStage::Seal)
}

impl SealPlan {
    #[inline]
    pub fn ranges(&self) -> (r: &[SealRange])
        ensures
            r@ == self.ranges@,
    {
        self.ranges.as_slice()
    }

    /// Splits a mapped image into parts with one set of permissions each.
    pub fn build(mapped: &MappedState) -> (r: LoadResult<Self>)
        ensures
            match seal_spec(mapped@) {
                Ok(ranges) => r is Ok && r->Ok_0.ranges@ == ranges,
                Err(error) => r == Err::<SealPlan, LoadError>(error),
            },
    {
        let mut ranges: Vec<SealRange> = Vec::new();
        let mut cursor: u64 = 0;
        let mut index: usize = 0;
        while index < mapped.regions.len()
            invariant
                index <= mapped.regions@.len(),
                regions_sealed(mapped@, index as int) == Ok::<(Seq<SealRange>, u64), LoadError>(
                    (ranges@, cursor),
                ),
            decreases mapped.regions@.len() - index,
        {
            match append_loaded(mapped, &mut ranges, cursor, &mapped.regions[index]) {
                Ok(end) => {
                    cursor = end;
                },
                Err(error) => {
                    proof {
                        assert(regions_sealed(mapped@, index + 1) is Err);
                        lemma_regions_sealed(mapped@, index + 1);
                    }
                    return Err(error);
                },
            }
            index = index + 1;
        }
        let rest: u64 = match mapped.image_span().checked_sub(cursor) {
            Some(rest) => rest,
            None => return Err(
                fail_at(
                    LoadStage::Seal,
                    LoadErrorKind::OutOfBounds,
                    ErrorContext::MemoryAccess {
                        allocation_base: mapped.allocation().base(),
                        allocation_len: mapped.allocation().len(),
                        allocation_align: mapped.allocation().align(),
                        offset: cursor,
                        len: mapped.image_span(),
                    },
                ),
            ),
        };
        append_allocation_range(mapped, &mut ranges, cursor, rest)?;
        Ok(SealPlan { ranges })
    }
}

/// Whether the regions of a mapped image stand in order, do not overlap, and lie
/// where the load bias and the allocation put them.
pub open spec fn in_place(mapped: MappedView) -> bool {
    &&& mapped.allocation.base.0 + mapped.image_span <= u64::MAX
    &&& mapped.relro matches Some(relro) ==> relro.bounded()
    &&& forall|i: int| 0 <= i < mapped.regions.len() ==> region_in_place(mapped, #[trigger] mapped.regions[i])
    &&& forall|i: int, j: int|
        0 <= i < j < mapped.regions.len() ==> regions_in_order(
            #[trigger] mapped.regions[i],
            #[trigger] mapped.regions[j],
        )
}

/// Whether a region lies where the load bias and the allocation put it.
pub open spec fn region_in_place(mapped: MappedView, region: LoadedRegion) -> bool {
    &&& region.vaddr_range.len > 0
    &&& region.vaddr_range.bounded()
    &&& region.runtime_range.len == region.vaddr_range.len
    &&& region.runtime_range.start.0 == mapped.load_bias.0 + region.vaddr_range.start.0
    &&& region.runtime_range.start.0 == mapped.allocation.base.0 + region.allocation_offset
    &&& region.allocation_offset + region.vaddr_range.len <= mapped.image_span
}

/// Whether region `a` lies before region `b`.
pub open spec fn regions_in_order(a: LoadedRegion, b: LoadedRegion) -> bool {
    &&& a.vaddr_range.limit() <= b.vaddr_range.start.0
    &&& a.allocation_offset + a.vaddr_range.len <= b.allocation_offset
}

/// Whether an offset lies in a region.
pub open spec fn in_region(region: LoadedRegion, offset: int) -> bool {
    region.allocation_offset <= offset < region.allocation_offset + region.vaddr_range.len
}

/// The permissions that a region grants at an offset: its own, without write
/// access where it is read-only after relocation.
pub open spec fn region_grants(mapped: MappedView, region: LoadedRegion, offset: int) -> MemoryPermissions {
    let vaddr = region.vaddr_range.start.0 + (offset - region.allocation_offset);
    if mapped.relro is Some && mapped.relro->0.has(vaddr) {
        region.logical_permissions.less(MemoryPermissions::spec_write())
    } else {
        region.logical_permissions
    }
}

/// Whether `permissions` is what a sealed image grants at an offset: what its
/// region grants, or nothing where no region is.
pub open spec fn granted(mapped: MappedView, offset: int, permissions: MemoryPermissions) -> bool {
    ||| exists|i: int|
        0 <= i < mapped.regions.len() && in_region(#[trigger] mapped.regions[i], offset)
            && permissions == region_grants(mapped, mapped.regions[i], offset)
    ||| permissions == MemoryPermissions::spec_none() && forall|i: int|
        0 <= i < mapped.regions.len() ==> !in_region(#[trigger] mapped.regions[i], offset)
}

/// Whether a part lies at `offset` of the allocation.
pub open spec fn part_in_place(mapped: MappedView, part: SealRange) -> bool {
    &&& part.location.allocation == mapped.allocation.id
    &&& part.runtime_range.len > 0
    &&& part.runtime_range.start.0 == mapped.allocation.base.0 + part.location.offset
    &&& part.offset_end() <= mapped.image_span
}

/// Whether every byte of a part has the permissions of the part.
pub open spec fn part_granted(mapped: MappedView, part: SealRange) -> bool {
    forall|offset: int|
        part.location.offset <= offset < part.offset_end() ==> #[trigger] granted(
            mapped,
            offset,
            part.permissions,
        )
}

/// Whether the parts follow each other from offset 0 to `end` without gap or
/// overlap, each where it belongs and with the permissions it needs.
pub open spec fn tiles(mapped: MappedView, ranges: Seq<SealRange>, end: int) -> bool {
    &&& forall|i: int|
        0 <= i < ranges.len() ==> part_in_place(mapped, #[trigger] ranges[i]) && part_granted(
            mapped,
            ranges[i],
        )
    &&& ranges.len() == 0 ==> end == 0
    &&& ranges.len() > 0 ==> ranges[0].location.offset == 0 && ranges.last().offset_end() == end
    &&& forall|i: int|
        0 < i < ranges.len() ==> ranges[i - 1].offset_end() == (
        #[trigger] ranges[i]).location.offset
}

proof fn lemma_appended_tiles(mapped: MappedView, ranges: Seq<SealRange>, end: int, next: SealRange)
    requires
        in_place(mapped),
        tiles(mapped, ranges, end),
        part_in_place(mapped, next),
        part_granted(mapped, next),
        next.location.offset == end,
    ensures
        appended(ranges, next) is Ok,
        tiles(mapped, appended(ranges, next)->Ok_0, end + next.runtime_range.len),
{
    let after = appended(ranges, next)->Ok_0;
    if ranges.len() > 0 {
        let previous = ranges.last();
        let last = ranges.len() - 1;
        assert(part_in_place(mapped, ranges[last]));
        if continues(previous, next) {
            let merged = after.last();
            assert(after =~= ranges.drop_last().push(merged));
            assert(part_granted(mapped, merged)) by {
                assert forall|offset: int|
                    merged.location.offset <= offset < merged.offset_end() implies #[trigger] granted(
                    mapped,
                    offset,
                    merged.permissions,
                ) by {
                    assert(part_granted(mapped, ranges[last]));
                    if offset < previous.offset_end() {
                        assert(granted(mapped, offset, previous.permissions));
                    } else {
                        assert(granted(mapped, offset, next.permissions));
                    }
                }
            }
            assert forall|i: int| 0 <= i < after.len() implies part_in_place(
                mapped,
                #[trigger] after[i],
            ) && part_granted(mapped, after[i]) by {
                if i < last {
                    assert(after[i] == ranges[i]);
                }
            }
            assert forall|i: int| 0 < i < after.len() implies after[i - 1].offset_end() == (
            #[trigger] after[i]).location.offset by {
                assert(after[i - 1] == ranges[i - 1]);
                assert(ranges[i - 1].offset_end() == ranges[i].location.offset);
            }
            if last > 0 {
                assert(after[0] == ranges[0]);
            }
        } else {
            assert(after == ranges.push(next));
            assert forall|i: int| 0 < i < after.len() implies after[i - 1].offset_end() == (
            #[trigger] after[i]).location.offset by {
                if i < ranges.len() {
                    assert(ranges[i - 1].offset_end() == ranges[i].location.offset);
                }
            }
        }
    }
}

/// The one region that holds a range of addresses is the one that is found.
proof fn lemma_first_region(mapped: MappedView, from: int, k: int, vaddr: TargetAddr, len: u64)
    requires
        in_place(mapped),
        0 <= from <= k < mapped.regions.len(),
        len > 0,
        mapped.regions[k].vaddr_range.holds(vaddr, len),
    ensures
        first_region(mapped.regions, from, vaddr, len, MemoryPermissions::spec_none()) == Some(k),
    decreases k - from,
{
    nothing_is_covered(mapped.regions[k].logical_permissions);
    if from < k {
        assert(regions_in_order(mapped.regions[from], mapped.regions[k]));
        lemma_first_region(mapped, from + 1, k, vaddr, len);
    }
}

proof fn lemma_vaddr_tiles(
    mapped: MappedView,
    ranges: Seq<SealRange>,
    k: int,
    vaddr: int,
    len: int,
    permissions: MemoryPermissions,
)
    requires
        in_place(mapped),
        0 <= k < mapped.regions.len(),
        mapped.regions[k].vaddr_range.start.0 <= vaddr,
        0 <= len,
        vaddr + len <= mapped.regions[k].vaddr_range.limit(),
        tiles(
            mapped,
            ranges,
            mapped.regions[k].allocation_offset + (vaddr - mapped.regions[k].vaddr_range.start.0),
        ),
        forall|v: int|
            #![trigger region_grants(mapped, mapped.regions[k], mapped.regions[k].allocation_offset + (v - mapped.regions[k].vaddr_range.start.0))]
            vaddr <= v < vaddr + len ==> permissions == region_grants(
                mapped,
                mapped.regions[k],
                mapped.regions[k].allocation_offset + (v - mapped.regions[k].vaddr_range.start.0),
            ),
    ensures
        vaddr_appended(mapped, ranges, vaddr, len, permissions) is Ok,
        tiles(
            mapped,
            vaddr_appended(mapped, ranges, vaddr, len, permissions)->Ok_0,
            mapped.regions[k].allocation_offset + (vaddr - mapped.regions[k].vaddr_range.start.0)
                + len,
        ),
{
    let region = mapped.regions[k];
    assert(region_in_place(mapped, region));
    let offset = region.allocation_offset + (vaddr - region.vaddr_range.start.0);
    if len > 0 {
        lemma_first_region(mapped, 0, k, TargetAddr(vaddr as u64), len as u64);
        let next = SealRange {
            location: TargetLocation {
                allocation: mapped.allocation.id,
                offset: offset as u64,
            },
            runtime_range: TargetRange {
                start: TargetAddr((mapped.load_bias.0 + vaddr) as u64),
                len: len as u64,
            },
            permissions,
        };
        assert(part_granted(mapped, next)) by {
            assert forall|o: int|
                next.location.offset <= o < next.offset_end() implies #[trigger] granted(
                mapped,
                o,
                permissions,
            ) by {
                let v = vaddr + (o - offset);
                assert(o == region.allocation_offset + (v - region.vaddr_range.start.0));
                assert(permissions == region_grants(
                    mapped,
                    region,
                    region.allocation_offset + (v - region.vaddr_range.start.0),
                ));
                assert(in_region(mapped.regions[k], o));
            }
        }
        lemma_appended_tiles(mapped, ranges, offset, next);
    }
}

proof fn lemma_gap_tiles(mapped: MappedView, ranges: Seq<SealRange>, from: int, to: int)
    requires
        in_place(mapped),
        0 <= from <= to <= mapped.image_span,
        tiles(mapped, ranges, from),
        forall|i: int, o: int|
            0 <= i < mapped.regions.len() && from <= o < to ==> !(#[trigger] in_region(
                mapped.regions[i],
                o,
            )),
    ensures
        gap_appended(mapped, ranges, from, to - from) is Ok,
        tiles(mapped, gap_appended(mapped, ranges, from, to - from)->Ok_0, to),
{
    if from < to {
        let next = SealRange {
            location: TargetLocation { allocation: mapped.allocation.id, offset: from as u64 },
            runtime_range: TargetRange {
                start: TargetAddr((mapped.allocation.base.0 + from) as u64),
                len: (to - from) as u64,
            },
            permissions: MemoryPermissions::spec_none(),
        };
        assert(part_granted(mapped, next)) by {
            assert forall|o: int|
                next.location.offset <= o < next.offset_end() implies #[trigger] granted(
                mapped,
                o,
                MemoryPermissions::spec_none(),
            ) by {
                assert forall|i: int| 0 <= i < mapped.regions.len() implies !in_region(
                    #[trigger] mapped.regions[i],
                    o,
                ) by {}
            }
        }
        lemma_appended_tiles(mapped, ranges, from, next);
    }
}

proof fn lemma_region_tiles(mapped: MappedView, ranges: Seq<SealRange>, k: int)
    requires
        in_place(mapped),
        0 <= k < mapped.regions.len(),
        tiles(mapped, ranges, mapped.regions[k].allocation_offset as int),
    ensures
        region_appended(mapped, ranges, mapped.regions[k]) is Ok,
        tiles(
            mapped,
            region_appended(mapped, ranges, mapped.regions[k])->Ok_0,
            mapped.regions[k].allocation_offset + mapped.regions[k].vaddr_range.len,
        ),
{
    let region = mapped.regions[k];
    assert(region_in_place(mapped, region));
    let source = region.vaddr_range;
    let start = source.start.0 as int;
    let permissions = region.logical_permissions;
    if mapped.relro is Some && mapped.relro->0.meets(source) {
        let relro = mapped.relro->0;
        let from = larger(start, relro.start.0 as int);
        let to = smaller(source.limit(), relro.limit());
        lemma_vaddr_tiles(mapped, ranges, k, start, from - start, permissions);
        let first = vaddr_appended(mapped, ranges, start, from - start, permissions)->Ok_0;
        let sealed = permissions.less(MemoryPermissions::spec_write());
        lemma_vaddr_tiles(mapped, first, k, from, to - from, sealed);
        let second = vaddr_appended(mapped, first, from, to - from, sealed)->Ok_0;
        lemma_vaddr_tiles(mapped, second, k, to, source.limit() - to, permissions);
    } else {
        lemma_vaddr_tiles(mapped, ranges, k, start, source.len as int, permissions);
    }
}

proof fn lemma_regions_tile(mapped: MappedView, k: int)
    requires
        in_place(mapped),
        0 <= k <= mapped.regions.len(),
    ensures
        regions_sealed(mapped, k) matches Ok((ranges, cursor)) && tiles(
            mapped,
            ranges,
            cursor as int,
        ) && cursor <= mapped.image_span && (k == 0 ==> cursor == 0) && (k > 0 ==> cursor
            == mapped.regions[k - 1].allocation_offset + mapped.regions[k - 1].vaddr_range.len),
    decreases k,
{
    if k > 0 {
        lemma_regions_tile(mapped, k - 1);
        let (ranges, cursor) = regions_sealed(mapped, k - 1)->Ok_0;
        let region = mapped.regions[k - 1];
        assert(region_in_place(mapped, region));
        if k > 1 {
            assert(regions_in_order(mapped.regions[k - 2], mapped.regions[k - 1]));
        }
        assert forall|i: int, o: int|
            0 <= i < mapped.regions.len() && cursor <= o < region.allocation_offset implies !(
        #[trigger] in_region(mapped.regions[i], o)) by {
            if i < k - 2 {
                assert(regions_in_order(mapped.regions[i], mapped.regions[k - 2]));
            }
            if i > k - 1 {
                assert(regions_in_order(mapped.regions[k - 1], mapped.regions[i]));
            }
        }
        lemma_gap_tiles(mapped, ranges, cursor as int, region.allocation_offset as int);
        let padded = gap_appended(
            mapped,
            ranges,
            cursor as int,
            region.allocation_offset - cursor,
        )->Ok_0;
        lemma_region_tiles(mapped, padded, k - 1);
    }
}

/// The plan of an image whose regions are in place exists. Its parts follow each
/// other without gap or overlap from the start to the end of the image, and every
/// byte has the permissions of its region, less write access where it is
/// read-only after relocation, or none at all where no region is.
pub proof fn seal_plans_tile_the_image(mapped: MappedView)
    requires
        in_place(mapped),
    ensures
        seal_spec(mapped) is Ok,
        tiles(mapped, seal_spec(mapped)->Ok_0, mapped.image_span as int),
{
    let n = mapped.regions.len() as int;
    lemma_regions_tile(mapped, n);
    let (ranges, cursor) = regions_sealed(mapped, n)->Ok_0;
    assert forall|i: int, o: int|
        0 <= i < mapped.regions.len() && cursor <= o < mapped.image_span implies !(
    #[trigger] in_region(mapped.regions[i], o)) by {
        if i < n - 1 {
            assert(regions_in_order(mapped.regions[i], mapped.regions[n - 1]));
        }
    }
    lemma_gap_tiles(mapped, ranges, cursor as int, mapped.image_span as int);
}

/// An image without a writable and executable region has no writable and
/// executable part after sealing.
pub proof fn sealing_keeps_write_and_execute_apart(mapped: MappedView, k: int)
    requires
        in_place(mapped),
        forall|i: int|
            0 <= i < mapped.regions.len() ==> !((
            #[trigger] mapped.regions[i]).logical_permissions.writable()
                && mapped.regions[i].logical_permissions.executable()),
        0 <= k < seal_spec(mapped)->Ok_0.len(),
    ensures
        !(seal_spec(mapped)->Ok_0[k].permissions.writable()
            && seal_spec(mapped)->Ok_0[k].permissions.executable()),
{
    seal_plans_tile_the_image(mapped);
    let part = seal_spec(mapped)->Ok_0[k];
    let offset = part.location.offset as int;
    assert(part_in_place(mapped, part) && part_granted(mapped, part));
    assert(granted(mapped, offset, part.permissions));
    assert(!MemoryPermissions::spec_none().writable()) by {
        assert(0u8 & 2 != 2) by (bit_vector);
    }
    if exists|i: int|
        0 <= i < mapped.regions.len() && in_region(#[trigger] mapped.regions[i], offset)
            && part.permissions == region_grants(mapped, mapped.regions[i], offset) {
        let i = choose|i: int|
            0 <= i < mapped.regions.len() && in_region(#[trigger] mapped.regions[i], offset)
                && part.permissions == region_grants(mapped, mapped.regions[i], offset);
        without_write(mapped.regions[i].logical_permissions);
    }
}

/// A byte that is read-only after relocation is not writable after sealing.
pub proof fn sealing_protects_relocated_data(mapped: MappedView, i: int, k: int, offset: int)
    requires
        in_place(mapped),
        0 <= i < mapped.regions.len(),
        in_region(mapped.regions[i], offset),
        mapped.relro is Some,
        mapped.relro->0.has(
            mapped.regions[i].vaddr_range.start.0 + (offset - mapped.regions[i].allocation_offset),
        ),
        0 <= k < seal_spec(mapped)->Ok_0.len(),
        seal_spec(mapped)->Ok_0[k].location.offset <= offset,
        offset < seal_spec(mapped)->Ok_0[k].offset_end(),
    ensures
        !seal_spec(mapped)->Ok_0[k].permissions.writable(),
{
    seal_plans_tile_the_image(mapped);
    let part = seal_spec(mapped)->Ok_0[k];
    assert(part_in_place(mapped, part) && part_granted(mapped, part));
    assert(granted(mapped, offset, part.permissions));
    without_write(mapped.regions[i].logical_permissions);
    if part.permissions != region_grants(mapped, mapped.regions[i], offset) {
        let j = choose|j: int|
            0 <= j < mapped.regions.len() && in_region(#[trigger] mapped.regions[j], offset)
                && part.permissions == region_grants(mapped, mapped.regions[j], offset);
        if i < j {
            assert(regions_in_order(mapped.regions[i], mapped.regions[j]));
        } else {
            assert(regions_in_order(mapped.regions[j], mapped.regions[i]));
        }
    }
}

/// The regions of a laid out image are in place in every allocation whose end is
/// an address, and share no memory. So the image is loaded region by region, and
/// its seal plan tiles it.
pub proof fn mapped_layouts_are_in_place(
    parsed: ParsedView,
    request: ArtifactRequest,
    layout: LayoutView,
    allocation: ImageAllocation,
    load_bias: TargetAddr,
    mapped: MappedView,
)
    requires
        layout_spec(parsed, request.profile, request.limits) == Ok::<LayoutView, LoadError>(layout),
        load_bias_spec(layout, allocation.base, request.expected) == Ok::<TargetAddr, LoadError>(
            load_bias,
        ),
        mapped_spec(request, parsed.dynamic, layout, allocation, load_bias) == Ok::<
            MappedView,
            LoadError,
        >(mapped),
        allocation.base.0 + layout.image_span <= u64::MAX,
    ensures
        in_place(mapped),
        forall|i: int|
            0 <= i < mapped.regions.len() ==> (
            #[trigger] mapped.regions[i]).file_range.len <= mapped.regions[i].vaddr_range.len,
        forall|i: int, j: int|
            0 <= i < j < mapped.regions.len() ==> regions_apart(
                #[trigger] mapped.regions[i],
                #[trigger] mapped.regions[j],
            ),
        forall|i: int|
            0 <= i < mapped.regions.len() ==> !((
            #[trigger] mapped.regions[i]).logical_permissions.writable()
                && mapped.regions[i].logical_permissions.executable()),
{
    layouts_are_sound(parsed, request.profile, request.limits, layout);
    let n = layout.segments.len() as int;
    lemma_regions_spec(layout.segments, n, layout.aligned_min_vaddr, load_bias);
    assert forall|i: int| 0 <= i < mapped.regions.len() implies region_in_place(
        mapped,
        #[trigger] mapped.regions[i],
    ) by {
        assert(sound_segment(layout.segments[i]));
        assert(region_spec(layout.segments[i], layout.aligned_min_vaddr, load_bias) == Ok::<
            LoadedRegion,
            LoadError,
        >(mapped.regions[i]));
    }
    assert forall|i: int, j: int| 0 <= i < j < mapped.regions.len() implies regions_in_order(
        #[trigger] mapped.regions[i],
        #[trigger] mapped.regions[j],
    ) by {
        assert(region_spec(layout.segments[i], layout.aligned_min_vaddr, load_bias) == Ok::<
            LoadedRegion,
            LoadError,
        >(mapped.regions[i]));
        assert(region_spec(layout.segments[j], layout.aligned_min_vaddr, load_bias) == Ok::<
            LoadedRegion,
            LoadError,
        >(mapped.regions[j]));
        assert(sound_segment(layout.segments[i]) && sound_segment(layout.segments[j]));
        assert(layout.segments[i].vaddr_range.limit() <= layout.segments[j].vaddr_range.start.0);
    }
    assert forall|i: int| 0 <= i < mapped.regions.len() implies (
    #[trigger] mapped.regions[i]).file_range.len <= mapped.regions[i].vaddr_range.len && !(
    mapped.regions[i].logical_permissions.writable()
        && mapped.regions[i].logical_permissions.executable()) by {
        assert(sound_segment(layout.segments[i]));
        assert(region_spec(layout.segments[i], layout.aligned_min_vaddr, load_bias) == Ok::<
            LoadedRegion,
            LoadError,
        >(mapped.regions[i]));
    }
    assert forall|i: int, j: int| 0 <= i < j < mapped.regions.len() implies regions_apart(
        #[trigger] mapped.regions[i],
        #[trigger] mapped.regions[j],
    ) by {
        assert(regions_in_order(mapped.regions[i], mapped.regions[j]));
    }
}

/// After sealing, every byte of a region can be read and executed as the region says. It
/// can be written where the region says so and it is not read-only after relocation.
pub proof fn sealed_bytes_have_their_permissions(mapped: MappedView, i: int, k: int, offset: int)
    requires
        in_place(mapped),
        0 <= i < mapped.regions.len(),
        0 <= k < seal_spec(mapped)->Ok_0.len(),
        mapped.regions[i].allocation_offset <= offset < mapped.regions[i].allocation_offset
            + mapped.regions[i].vaddr_range.len,
        ({
            let part = seal_spec(mapped)->Ok_0[k];
            part.location.offset <= offset < part.location.offset + part.runtime_range.len
        }),
    ensures
        ({
            let part = seal_spec(mapped)->Ok_0[k];
            let own = mapped.regions[i].logical_permissions;
            let vaddr = mapped.regions[i].vaddr_range.start.0 + (offset
                - mapped.regions[i].allocation_offset);
            let kept = mapped.relro matches Some(relro) && relro.start.0 <= vaddr < relro.start.0
                + relro.len;
            &&& part.runtime_range.start.0 - part.location.offset == mapped.allocation.base.0
            &&& part.permissions.readable() == own.readable()
            &&& part.permissions.executable() == own.executable()
            &&& part.permissions.writable() == (own.writable() && !kept)
        }),
{
    seal_plans_tile_the_image(mapped);
    let part = seal_spec(mapped)->Ok_0[k];
    assert(part_in_place(mapped, part) && part_granted(mapped, part));
    assert(granted(mapped, offset, part.permissions));
    without_write(mapped.regions[i].logical_permissions);
    assert(in_region(mapped.regions[i], offset));
    if part.permissions != region_grants(mapped, mapped.regions[i], offset) {
        let j = choose|j: int|
            0 <= j < mapped.regions.len() && in_region(#[trigger] mapped.regions[j], offset)
                && part.permissions == region_grants(mapped, mapped.regions[j], offset);
        if i < j {
            assert(regions_in_order(mapped.regions[i], mapped.regions[j]));
        } else {
            assert(regions_in_order(mapped.regions[j], mapped.regions[i]));
        }
    }
}

/// After sealing, nothing can be done with a byte that no region has.
pub proof fn sealed_gaps_are_inaccessible(mapped: MappedView, k: int, offset: int)
    requires
        in_place(mapped),
        0 <= k < seal_spec(mapped)->Ok_0.len(),
        forall|i: int|
            0 <= i < mapped.regions.len() ==> !((
            #[trigger] mapped.regions[i]).allocation_offset <= offset
                < mapped.regions[i].allocation_offset + mapped.regions[i].vaddr_range.len),
        ({
            let part = seal_spec(mapped)->Ok_0[k];
            part.location.offset <= offset < part.location.offset + part.runtime_range.len
        }),
    ensures
        seal_spec(mapped)->Ok_0[k].permissions.bits == 0,
{
    seal_plans_tile_the_image(mapped);
    let part = seal_spec(mapped)->Ok_0[k];
    assert(part_in_place(mapped, part) && part_granted(mapped, part));
    assert(granted(mapped, offset, part.permissions));
}

} // verus!
