//! The plan of an inspected image.

use crate::address::{claim_range, range_at, FileRange, TargetAddr, TargetRange};
use crate::arith::{lemma_ceil_to, lemma_floor_to, power_of_two};
use crate::elf::{DynamicSegmentInfo, ElfHeaderInfo, LoadSegmentInfo};
use crate::error::{
    claim_at, fail_at, failure, ErrorContext, LimitKind, LoadError, LoadErrorKind, LoadResult,
    LoadStage, ProgramHeaderField,
};
use crate::identity::{clear_mode_bit, ElfMachine, LoadLimits, LoadRequest};
use crate::image::admission::Inspection;
use crate::image::layout::{normal_align, normalize_alignment, planning_error, rejected};
use crate::image::plan::{PlannedImage, PlannedView};
use crate::limits::over_limit;
use crate::permissions::MemoryPermissions;
use crate::sort::{sort_by_rank, sorted, sorting_is_a_sorted_permutation, Ranked};
use vstd::prelude::*;

verus! {

/// What an image says about its stack.
#[derive(Clone, Copy, Debug, PartialEq, Eq, Structural)]
pub enum StackKind {
    NotDeclared,
    NonExecutable,
    Executable,
}

/// An image whose program headers were accepted.
pub struct InspectedImage<R> {
    pub reader: R,
    pub request: LoadRequest,
    pub header: ElfHeaderInfo,
    pub load_segments: Vec<LoadSegmentInfo>,
    pub dynamic: Option<DynamicSegmentInfo>,
    pub relro: Option<TargetRange>,
    pub stack: StackKind,
    pub interpreter: Option<FileRange>,
    pub tls: Option<TargetRange>,
}

impl<R> InspectedImage<R> {
    /// What the program headers say.
    pub open spec fn found(self) -> Inspection {
        Inspection {
            load_segments: self.load_segments@,
            dynamic: self.dynamic,
            relro: self.relro,
            stack: self.stack,
            interpreter: self.interpreter,
            tls: self.tls,
        }
    }
}

impl Ranked for LoadSegmentInfo {
    open spec fn rank(self) -> int {
        self.vaddr.0 as int
    }

    fn rank_of(self) -> (r: u64) {
        self.vaddr.get()
    }
}

/// The virtual addresses of a segment.
pub open spec fn segment_range(segment: LoadSegmentInfo) -> TargetRange {
    TargetRange { start: segment.vaddr, len: segment.memory_size }
}

/// What is wrong with one loadable segment. One without memory is not looked at.
pub open spec fn load_fault(segment: LoadSegmentInfo, limits: LoadLimits) -> LoadResult<()> {
    let align = normal_align(segment.align);
    if segment.memory_size == 0 {
        Ok(())
    } else if !power_of_two(align as int) {
        Err(
            rejected(
                LoadErrorKind::InvalidAlignment,
                segment.index,
                ProgramHeaderField::Align,
                align,
            ),
        )
    } else if align > limits.max_segment_alignment {
        Err(
            over_limit(
                LoadStage::Plan,
                LimitKind::SegmentAlignment,
                align,
                limits.max_segment_alignment,
            ),
        )
    } else if segment.file_range.offset % align != segment.vaddr.0 % align {
        Err(
            rejected(
                LoadErrorKind::BadElf,
                segment.index,
                ProgramHeaderField::Align,
                align,
            ),
        )
    } else if segment.permissions.writable() && segment.permissions.executable() {
        Err(
            rejected(
                LoadErrorKind::PermissionConflict,
                segment.index,
                ProgramHeaderField::VirtualRange,
                segment.vaddr.0,
            ),
        )
    } else {
        Ok(())
    }
}

/// What is wrong with the first faulty one of the first `k` segments.
pub open spec fn first_load_fault(
    segments: Seq<LoadSegmentInfo>,
    k: int,
    limits: LoadLimits,
) -> LoadResult<()>
    decreases k,
{
    if k <= 0 {
        Ok(())
    } else {
        match first_load_fault(segments, k - 1, limits) {
            Err(error) => Err(error),
            Ok(_) => load_fault(segments[k - 1], limits),
        }
    }
}

/// Whether one of the first `k` segments takes up memory.
pub open spec fn some_memory(segments: Seq<LoadSegmentInfo>, k: int) -> bool {
    exists|i: int| 0 <= i < k && (#[trigger] segments[i]).memory_size != 0
}

/// The last of the first `k` segments that takes up memory.
pub open spec fn last_occupied(segments: Seq<LoadSegmentInfo>, k: int) -> Option<int>
    decreases k,
{
    if k <= 0 {
        None
    } else if segments[k - 1].memory_size != 0 {
        Some(k - 1)
    } else {
        last_occupied(segments, k - 1)
    }
}

/// The first of the first `k` segments that meets the last one before it that takes
/// up memory.
pub open spec fn first_meeting(segments: Seq<LoadSegmentInfo>, k: int) -> Option<int>
    decreases k,
{
    if k <= 0 {
        None
    } else {
        match first_meeting(segments, k - 1) {
            Some(i) => Some(i),
            None => match last_occupied(segments, k - 1) {
                Some(p) => if segment_range(segments[p]).meets(segment_range(segments[k - 1])) {
                    Some(k - 1)
                } else {
                    None
                },
                None => None,
            },
        }
    }
}

/// Whether no two segments share an address.
pub open spec fn segments_apart(segments: Seq<LoadSegmentInfo>) -> bool {
    forall|i: int, j: int|
        0 <= i < j < segments.len() ==> !segment_range(#[trigger] segments[i]).meets(
            segment_range(#[trigger] segments[j]),
        )
}

/// The largest declared alignment of the first `k` segments.
pub open spec fn declared_align(segments: Seq<LoadSegmentInfo>, k: int) -> u64
    decreases k,
{
    if k <= 0 {
        0
    } else if segments[k - 1].align > declared_align(segments, k - 1) {
        segments[k - 1].align
    } else {
        declared_align(segments, k - 1)
    }
}

/// The highest end of the first `k` segments, or the failure of the first whose
/// end is no address.
pub open spec fn top_of(segments: Seq<LoadSegmentInfo>, k: int) -> LoadResult<TargetAddr>
    decreases k,
{
    if k <= 0 {
        Ok(TargetAddr(0))
    } else {
        match top_of(segments, k - 1) {
            Err(error) => Err(error),
            Ok(top) => match range_at(segment_range(segments[k - 1]).end_spec(), LoadStage::Plan) {
                Err(error) => Err(error),
                Ok(end) => Ok(
                    if end.0 > top.0 {
                        end
                    } else {
                        top
                    },
                ),
            },
        }
    }
}

/// Whether some segment allows `permissions` on the `len` addresses from `vaddr`
/// on.
pub open spec fn provides(
    segments: Seq<LoadSegmentInfo>,
    vaddr: TargetAddr,
    len: u64,
    permissions: MemoryPermissions,
) -> bool {
    exists|i: int|
        0 <= i < segments.len() && segment_range(#[trigger] segments[i]).holds(vaddr, len)
            && segments[i].permissions.covers(permissions)
}

/// The address of the first instruction behind an entry value.
pub open spec fn canonical_spec(entry: TargetAddr, machine: ElfMachine) -> TargetAddr {
    if machine == ElfMachine::Arm {
        TargetAddr(clear_mode_bit(entry.0))
    } else {
        entry
    }
}

/// What is wrong with the entry or the read-only-after-relocation range.
pub open spec fn reach_fault(
    header: ElfHeaderInfo,
    relro: Option<TargetRange>,
    segments: Seq<LoadSegmentInfo>,
) -> LoadResult<()> {
    let entry = canonical_spec(TargetAddr(header.entry), header.machine);
    if !provides(segments, entry, 1, MemoryPermissions::spec_execute()) {
        Err(
            failure(
                LoadStage::Plan,
                LoadErrorKind::PermissionConflict,
                ErrorContext::TargetRange { start: entry, len: 1, align: 0 },
            ),
        )
    } else if relro is Some && !provides(
        segments,
        relro->0.start,
        relro->0.len,
        MemoryPermissions::spec_write(),
    ) {
        Err(
            failure(
                LoadStage::Plan,
                LoadErrorKind::PermissionConflict,
                ErrorContext::TargetRange { start: relro->0.start, len: relro->0.len, align: 0 },
            ),
        )
    } else {
        Ok(())
    }
}

/// The aligned span of segments in address order.
pub open spec fn span_of(segments: Seq<LoadSegmentInfo>) -> LoadResult<(TargetAddr, TargetAddr)> {
    let n = segments.len() as int;
    let align = declared_align(segments, n);
    match top_of(segments, n) {
        Err(error) => Err(error),
        Ok(top) => match range_at(segments[0].vaddr.align_down_spec(align), LoadStage::Plan) {
            Err(error) => Err(error),
            Ok(low) => match range_at(top.align_up_spec(align), LoadStage::Plan) {
                Err(error) => Err(error),
                Ok(high) => Ok((low, high)),
            },
        },
    }
}

/// The lower bound of the aligned span.
pub open spec fn span_low(segments: Seq<LoadSegmentInfo>) -> u64 {
    match span_of(segments) {
        Ok((low, _)) => low.0,
        Err(_) => 0,
    }
}

/// The upper bound of the aligned span.
pub open spec fn span_high(segments: Seq<LoadSegmentInfo>) -> u64 {
    match span_of(segments) {
        Ok((_, high)) => high.0,
        Err(_) => 0,
    }
}

/// The plan of an inspected image.
pub open spec fn image_plan(
    request: LoadRequest,
    header: ElfHeaderInfo,
    found: Inspection,
) -> LoadResult<PlannedView> {
    let loads = found.load_segments;
    let n = loads.len() as int;
    let segments = sorted(loads);
    if first_load_fault(loads, n, request.limits) is Err {
        Err(first_load_fault(loads, n, request.limits)->Err_0)
    } else if !some_memory(loads, n) {
        Err(failure(LoadStage::Plan, LoadErrorKind::BadElf, ErrorContext::Nothing))
    } else if first_meeting(segments, n) is Some {
        let second = segments[first_meeting(segments, n)->0];
        Err(
            rejected(
                LoadErrorKind::BadElf,
                second.index,
                ProgramHeaderField::VirtualRange,
                second.vaddr.0,
            ),
        )
    } else {
        match span_of(segments) {
            Err(error) => Err(error),
            Ok((low, high)) => if high.0 - low.0 > request.limits.max_image_span {
                Err(
                    over_limit(
                        LoadStage::Plan,
                        LimitKind::ImageSpan,
                        (high.0 - low.0) as u64,
                        request.limits.max_image_span,
                    ),
                )
            } else {
                match reach_fault(header, found.relro, segments) {
                    Err(error) => Err(error),
                    Ok(_) => Ok(
                        PlannedView {
                            aligned_min_vaddr: low,
                            aligned_max_vaddr: high,
                            image_span: (high.0 - low.0) as u64,
                            max_align: declared_align(segments, n),
                            entry_vaddr: TargetAddr(header.entry),
                            canonical_entry_vaddr: canonical_spec(
                                TargetAddr(header.entry),
                                header.machine,
                            ),
                            found: Inspection { load_segments: segments, ..found },
                        },
                    ),
                }
            },
        }
    }
}

proof fn lemma_first_load_fault(segments: Seq<LoadSegmentInfo>, k: int, limits: LoadLimits)
    requires
        0 <= k <= segments.len(),
        first_load_fault(segments, k, limits) is Err,
    ensures
        first_load_fault(segments, segments.len() as int, limits) == first_load_fault(
            segments,
            k,
            limits,
        ),
    decreases segments.len() - k,
{
    if k < segments.len() {
        lemma_first_load_fault(segments, k + 1, limits);
    }
}

proof fn lemma_first_meeting(segments: Seq<LoadSegmentInfo>, k: int)
    requires
        0 <= k <= segments.len(),
        first_meeting(segments, k) is Some,
    ensures
        first_meeting(segments, segments.len() as int) == first_meeting(segments, k),
    decreases segments.len() - k,
{
    if k < segments.len() {
        lemma_first_meeting(segments, k + 1);
    }
}

proof fn lemma_last_occupied(segments: Seq<LoadSegmentInfo>, k: int)
    requires
        0 <= k <= segments.len(),
    ensures
        match last_occupied(segments, k) {
            Some(p) => 0 <= p < k && segments[p].memory_size != 0 && forall|i: int|
                p < i < k ==> (#[trigger] segments[i]).memory_size == 0,
            None => forall|i: int| 0 <= i < k ==> (#[trigger] segments[i]).memory_size == 0,
        },
    decreases k,
{
    if k > 0 {
        lemma_last_occupied(segments, k - 1);
    }
}

/// Of segments in address order that pass the check, one that takes up memory ends
/// before the next one begins.
pub proof fn lemma_in_turn(segments: Seq<LoadSegmentInfo>, k: int)
    requires
        0 <= k <= segments.len(),
        crate::sort::ascending(segments),
        first_meeting(segments, k) is None,
    ensures
        forall|i: int, j: int|
            0 <= i < j < k && segments[i].memory_size != 0 && segments[j].memory_size != 0
                ==> segment_range(#[trigger] segments[i]).limit() <= (
            #[trigger] segments[j]).vaddr.0 && segment_range(segments[j]).bounded(),
    decreases k,
{
    if k > 0 {
        lemma_in_turn(segments, k - 1);
        lemma_last_occupied(segments, k - 1);
        let last = segments[k - 1];
        assert forall|i: int, j: int|
            0 <= i < j < k && segments[i].memory_size != 0 && segments[j].memory_size
                != 0 implies segment_range(#[trigger] segments[i]).limit() <= (
        #[trigger] segments[j]).vaddr.0 && segment_range(segments[j]).bounded() by {
            if j == k - 1 {
                let p = last_occupied(segments, k - 1)->0;
                assert(segments[p].rank() <= last.rank());
                assert(!segment_range(segments[p]).meets(segment_range(last)));
                if i < p {
                    assert(segment_range(segments[i]).limit() <= segments[p].vaddr.0);
                }
            }
        }
    }
}

proof fn lemma_top_of(segments: Seq<LoadSegmentInfo>, k: int)
    requires
        0 <= k <= segments.len(),
        top_of(segments, k) is Err,
    ensures
        top_of(segments, segments.len() as int) == top_of(segments, k),
    decreases segments.len() - k,
{
    if k < segments.len() {
        lemma_top_of(segments, k + 1);
    }
}

proof fn lemma_top_covers(segments: Seq<LoadSegmentInfo>, k: int)
    requires
        0 <= k <= segments.len(),
        top_of(segments, k) is Ok,
    ensures
        forall|i: int|
            0 <= i < k ==> segment_range(#[trigger] segments[i]).limit()
                <= (top_of(segments, k)->Ok_0).0,
    decreases k,
{
    if k > 0 {
        lemma_top_covers(segments, k - 1);
    }
}

/// Checks one loadable segment.
fn check_segment(segment: &LoadSegmentInfo, limits: &LoadLimits) -> (r: LoadResult<()>)
    ensures
        r == load_fault(*segment, *limits),
{
    if segment.memory_size() == 0 {
        return Ok(());
    }
    let align: u64 = normalize_alignment(segment.align(), segment.index())?;
    claim_at(limits.check_segment_alignment(align), LoadStage::Plan)?;
    if segment.file_range().offset() % align != segment.vaddr().get() % align {
        return Err(
            planning_error(
                LoadErrorKind::BadElf,
                segment.index(),
                ProgramHeaderField::Align,
                align,
            ),
        );
    }
    if segment.permissions().contains(MemoryPermissions::write()) && segment.permissions().contains(
        MemoryPermissions::execute(),
    ) {
        return Err(
            planning_error(
                LoadErrorKind::PermissionConflict,
                segment.index(),
                ProgramHeaderField::VirtualRange,
                segment.vaddr().get(),
            ),
        );
    }
    Ok(())
}

fn check_segments(segments: &Vec<LoadSegmentInfo>, limits: &LoadLimits) -> (r: LoadResult<()>)
    ensures
        r == (match first_load_fault(segments@, segments@.len() as int, *limits) {
            Err(error) => Err::<(), LoadError>(error),
            Ok(_) => if some_memory(segments@, segments@.len() as int) {
                Ok::<(), LoadError>(())
            } else {
                Err::<(), LoadError>(
                    failure(LoadStage::Plan, LoadErrorKind::BadElf, ErrorContext::Nothing),
                )
            },
        }),
{
    let mut occupied: bool = false;
    let mut index: usize = 0;
    while index < segments.len()
        invariant
            index <= segments@.len(),
            first_load_fault(segments@, index as int, *limits) is Ok,
            occupied == some_memory(segments@, index as int),
        decreases segments@.len() - index,
    {
        match check_segment(&segments[index], limits) {
            Ok(_) => {},
            Err(error) => {
                proof {
                    lemma_first_load_fault(segments@, index + 1, *limits);
                }
                return Err(error);
            },
        }
        if segments[index].memory_size() != 0 {
            occupied = true;
        }
        index = index + 1;
    }
    if !occupied {
        return Err(fail_at(LoadStage::Plan, LoadErrorKind::BadElf, ErrorContext::Nothing));
    }
    Ok(())
}

fn check_meetings(segments: &Vec<LoadSegmentInfo>) -> (r: LoadResult<()>)
    ensures
        r == (match first_meeting(segments@, segments@.len() as int) {
            Some(i) => Err::<(), LoadError>(
                rejected(
                    LoadErrorKind::BadElf,
                    segments@[i].index,
                    ProgramHeaderField::VirtualRange,
                    segments@[i].vaddr.0,
                ),
            ),
            None => Ok::<(), LoadError>(()),
        }),
{
    let mut previous: Option<usize> = None;
    let mut index: usize = 0;
    while index < segments.len()
        invariant
            index <= segments@.len(),
            first_meeting(segments@, index as int) is None,
            match previous {
                Some(p) => p < index && last_occupied(segments@, index as int) == Some(p as int),
                None => last_occupied(segments@, index as int) is None,
            },
        decreases segments@.len() - index,
    {
        let segment = segments[index];
        if let Some(p) = previous {
            let before = segments[p];
            let range1 = TargetRange::new(before.vaddr(), before.memory_size());
            let range2 = TargetRange::new(segment.vaddr(), segment.memory_size());
            if range1.overlaps(range2) {
                proof {
                    lemma_first_meeting(segments@, index + 1);
                }
                return Err(
                    planning_error(
                        LoadErrorKind::BadElf,
                        segment.index(),
                        ProgramHeaderField::VirtualRange,
                        segment.vaddr().get(),
                    ),
                );
            }
        }
        if segment.memory_size() != 0 {
            previous = Some(index);
        }
        index = index + 1;
    }
    Ok(())
}

fn provided(
    segments: &Vec<LoadSegmentInfo>,
    vaddr: TargetAddr,
    len: u64,
    permissions: MemoryPermissions,
) -> (r: bool)
    ensures
        r == provides(segments@, vaddr, len, permissions),
{
    let mut index: usize = 0;
    while index < segments.len()
        invariant
            index <= segments@.len(),
            forall|i: int|
                0 <= i < index ==> !(segment_range(#[trigger] segments@[i]).holds(vaddr, len)
                    && segments@[i].permissions.covers(permissions)),
        decreases segments@.len() - index,
    {
        let segment = segments[index];
        if segment.permissions().contains(permissions) && TargetRange::new(
            segment.vaddr(),
            segment.memory_size(),
        ).contains_span(vaddr, len) {
            assert(segment_range(segments@[index as int]).holds(vaddr, len));
            return true;
        }
        index = index + 1;
    }
    false
}

fn canonical_entry(entry: TargetAddr, machine: ElfMachine) -> (r: TargetAddr)
    ensures
        r == canonical_spec(entry, machine),
{
    if machine == ElfMachine::Arm {
        TargetAddr::new(entry.get() - entry.get() % 2)
    } else {
        entry
    }
}

fn check_reach(
    header: &ElfHeaderInfo,
    relro: Option<TargetRange>,
    segments: &Vec<LoadSegmentInfo>,
) -> (r: LoadResult<()>)
    ensures
        r == reach_fault(*header, relro, segments@),
{
    let canonical_entry_vaddr = canonical_entry(TargetAddr::new(header.entry()), header.machine());
    if !provided(segments, canonical_entry_vaddr, 1, MemoryPermissions::execute()) {
        return Err(
            fail_at(
                LoadStage::Plan,
                LoadErrorKind::PermissionConflict,
                ErrorContext::TargetRange { start: canonical_entry_vaddr, len: 1, align: 0 },
            ),
        );
    }
    if let Some(relro) = relro {
        if !provided(segments, relro.start(), relro.len(), MemoryPermissions::write()) {
            return Err(
                fail_at(
                    LoadStage::Plan,
                    LoadErrorKind::PermissionConflict,
                    ErrorContext::TargetRange { start: relro.start(), len: relro.len(), align: 0 },
                ),
            );
        }
    }
    Ok(())
}

fn aligned_span(segments: &Vec<LoadSegmentInfo>) -> (r: LoadResult<(TargetAddr, TargetAddr, u64)>)
    requires
        segments@.len() > 0,
    ensures
        match span_of(segments@) {
            Ok((low, high)) => r == Ok::<(TargetAddr, TargetAddr, u64), LoadError>(
                (low, high, declared_align(segments@, segments@.len() as int)),
            ),
            Err(error) => r == Err::<(TargetAddr, TargetAddr, u64), LoadError>(error),
        },
{
    let mut max_align: u64 = 0;
    let mut top: TargetAddr = TargetAddr::new(0);
    let mut index: usize = 0;
    while index < segments.len()
        invariant
            index <= segments@.len(),
            max_align == declared_align(segments@, index as int),
            top_of(segments@, index as int) == Ok::<TargetAddr, LoadError>(top),
        decreases segments@.len() - index,
    {
        let segment = segments[index];
        if segment.align() > max_align {
            max_align = segment.align();
        }
        match claim_range(segment.vaddr().checked_add(segment.memory_size()), LoadStage::Plan) {
            Ok(end) => {
                if end.get() > top.get() {
                    top = end;
                }
            },
            Err(error) => {
                proof {
                    assert(top_of(segments@, index + 1) is Err);
                    lemma_top_of(segments@, index + 1);
                }
                return Err(error);
            },
        }
        index = index + 1;
    }
    let low: TargetAddr = claim_range(segments[0].vaddr().align_down(max_align), LoadStage::Plan)?;
    let high: TargetAddr = claim_range(top.align_up(max_align), LoadStage::Plan)?;
    Ok((low, high, max_align))
}

/// The aligned span of segments in address order holds every segment.
pub proof fn spans_cover_their_segments(segments: Seq<LoadSegmentInfo>)
    requires
        span_of(segments) is Ok,
        segments.len() > 0,
        crate::sort::ascending(segments),
    ensures
        span_low(segments) <= span_high(segments),
        forall|i: int|
            0 <= i < segments.len() ==> {
                &&& span_low(segments) <= (#[trigger] segments[i]).vaddr.0
                &&& segment_range(segments[i]).limit() <= span_high(segments)
            },
{
    let n = segments.len() as int;
    let align = declared_align(segments, n) as int;
    let top = top_of(segments, n)->Ok_0;
    lemma_top_covers(segments, n);
    lemma_floor_to(segments[0].vaddr.0 as int, align);
    lemma_ceil_to(top.0 as int, align);
    assert(segment_range(segments[0]).limit() <= top.0);
    assert forall|i: int| 0 <= i < segments.len() implies segments[0].vaddr.0 <= (
    #[trigger] segments[i]).vaddr.0 by {
        if i > 0 {
            assert(segments[0].rank() <= segments[i].rank());
        }
    }
}

/// No two segments of a planned image share an address.
pub proof fn planned_segments_are_apart(
    request: LoadRequest,
    header: ElfHeaderInfo,
    found: Inspection,
    plan: PlannedView,
)
    requires
        image_plan(request, header, found) == Ok::<PlannedView, LoadError>(plan),
    ensures
        segments_apart(plan.found.load_segments),
{
    let segments = sorted(found.load_segments);
    sorting_is_a_sorted_permutation(found.load_segments);
    lemma_in_turn(segments, segments.len() as int);
    lemma_top_covers(segments, segments.len() as int);
}

impl<R> InspectedImage<R> {
    /// An image with these program headers.
    #[inline]
    pub fn new(
        reader: R,
        request: LoadRequest,
        header: ElfHeaderInfo,
        load_segments: Vec<LoadSegmentInfo>,
        dynamic: Option<DynamicSegmentInfo>,
        relro: Option<TargetRange>,
        stack: StackKind,
        interpreter: Option<FileRange>,
        tls: Option<TargetRange>,
    ) -> (r: Self)
        ensures
            r == (InspectedImage {
                reader,
                request,
                header,
                load_segments,
                dynamic,
                relro,
                stack,
                interpreter,
                tls,
            }),
    {
        InspectedImage {
            reader,
            request,
            header,
            load_segments,
            dynamic,
            relro,
            stack,
            interpreter,
            tls,
        }
    }

    /// Orders the segments by address and works out the span of the image.
    pub fn plan(self) -> (r: LoadResult<PlannedImage<R>>)
        ensures
            match image_plan(self.request, self.header, self.found()) {
                Ok(view) => r is Ok && r->Ok_0@ == view && r->Ok_0.reader == self.reader
                    && r->Ok_0.request == self.request,
                Err(error) => r == Err::<PlannedImage<R>, LoadError>(error),
            },
            r matches Ok(image) ==> segments_apart(image.load_segments@),
    {
        check_segments(&self.load_segments, self.request.limits())?;
        let segments = sort_by_rank(&self.load_segments);
        proof {
            sorting_is_a_sorted_permutation(self.load_segments@);
        }
        check_meetings(&segments)?;
        let (low, high, max_align) = aligned_span(&segments)?;
        proof {
            spans_cover_their_segments(segments@);
            lemma_in_turn(segments@, segments@.len() as int);
        }
        let image_span: u64 = claim_range(high.checked_sub(low), LoadStage::Plan)?;
        claim_at(self.request.limits().check_image_span(image_span), LoadStage::Plan)?;
        check_reach(&self.header, self.relro, &segments)?;
        let entry_vaddr = TargetAddr::new(self.header.entry());
        Ok(
            PlannedImage::new(
                self.reader,
                self.request,
                low,
                high,
                image_span,
                max_align,
                entry_vaddr,
                canonical_entry(entry_vaddr, self.header.machine()),
                segments,
                self.dynamic,
                self.relro,
                self.stack,
                self.interpreter,
                self.tls,
            ),
        )
    }
}

proof fn lemma_no_load_fault(
    segments: Seq<LoadSegmentInfo>,
    k: int,
    limits: LoadLimits,
    i: int,
)
    requires
        0 <= i < k,
        first_load_fault(segments, k, limits) is Ok,
    ensures
        load_fault(segments[i], limits) is Ok,
    decreases k,
{
    if i < k - 1 {
        lemma_no_load_fault(segments, k - 1, limits, i);
    }
}

/// A plan has the segments of its image in the order of their addresses, and its entry.
/// The first instruction stands there, or one byte before where the machine is a 32-bit
/// Arm and the lowest bit of the entry is set. No segment that takes up memory may be
/// both written and executed, and the alignment of each divides the distance from its
/// place in the file to its address.
pub proof fn plans_keep_their_segments(
    request: LoadRequest,
    header: ElfHeaderInfo,
    found: Inspection,
    plan: PlannedView,
)
    requires
        image_plan(request, header, found) == Ok::<PlannedView, LoadError>(plan),
    ensures
        plan.entry_vaddr.0 == header.entry,
        plan.canonical_entry_vaddr.0 == if header.machine is Arm && header.entry % 2 == 1 {
            header.entry - 1
        } else {
            header.entry as int
        },
        plan.found.relro == found.relro,
        plan.found.dynamic == found.dynamic,
        plan.found.load_segments.len() == found.load_segments.len(),
        forall|i: int|
            0 <= i < found.load_segments.len() ==> plan.found.load_segments.contains(
                #[trigger] found.load_segments[i],
            ),
        forall|i: int|
            0 <= i < plan.found.load_segments.len() ==> found.load_segments.contains(
                #[trigger] plan.found.load_segments[i],
            ),
        forall|i: int, j: int|
            0 <= i < j < plan.found.load_segments.len() ==> (
            #[trigger] plan.found.load_segments[i]).vaddr.0 <= (
            #[trigger] plan.found.load_segments[j]).vaddr.0,
        forall|i: int|
            0 <= i < found.load_segments.len() && (#[trigger] found.load_segments[i]).memory_size
                != 0 ==> {
                let segment = found.load_segments[i];
                &&& !(segment.permissions.writable() && segment.permissions.executable())
                &&& segment.align > 1 ==> segment.file_range.offset % segment.align
                    == segment.vaddr.0 % segment.align
            },
{
    let loads = found.load_segments;
    let n = loads.len() as int;
    let segments = sorted(loads);
    sorting_is_a_sorted_permutation(loads);
    loads.to_multiset_ensures();
    segments.to_multiset_ensures();
    assert forall|i: int| 0 <= i < n implies segments.contains(#[trigger] loads[i]) by {
        assert(loads.contains(loads[i]));
        assert(loads.to_multiset().count(loads[i]) > 0);
        assert(segments.to_multiset().count(loads[i]) > 0);
    }
    assert forall|i: int| 0 <= i < segments.len() implies loads.contains(#[trigger] segments[i]) by {
        assert(segments.contains(segments[i]));
        assert(segments.to_multiset().count(segments[i]) > 0);
        assert(loads.to_multiset().count(segments[i]) > 0);
    }
    assert forall|i: int, j: int| 0 <= i < j < segments.len() implies (
    #[trigger] segments[i]).vaddr.0 <= (#[trigger] segments[j]).vaddr.0 by {
        assert(segments[i].rank() <= segments[j].rank());
    }
    assert forall|i: int| 0 <= i < n && (#[trigger] loads[i]).memory_size != 0 implies {
        let segment = loads[i];
        &&& !(segment.permissions.writable() && segment.permissions.executable())
        &&& segment.align > 1 ==> segment.file_range.offset % segment.align == segment.vaddr.0
            % segment.align
    } by {
        lemma_no_load_fault(loads, n, request.limits, i);
    }
}

proof fn lemma_plan_bounds_reached(segments: Seq<LoadSegmentInfo>, k: int) -> (found: (int, int))
    requires
        0 <= k <= segments.len(),
        top_of(segments, k) is Ok,
    ensures
        -1 <= found.0 < k,
        -1 <= found.1 < k,
        declared_align(segments, k) == if found.0 < 0 {
            0
        } else {
            segments[found.0].align
        },
        (top_of(segments, k)->Ok_0).0 == if found.1 < 0 {
            0
        } else {
            segments[found.1].vaddr.0 + segments[found.1].memory_size
        },
        forall|i: int|
            0 <= i < k ==> (#[trigger] segments[i]).align <= declared_align(segments, k),
    decreases k,
{
    if k <= 0 {
        (-1, -1)
    } else {
        let before = lemma_plan_bounds_reached(segments, k - 1);
        let top = top_of(segments, k - 1)->Ok_0;
        (
            if segments[k - 1].align > declared_align(segments, k - 1) {
                k - 1
            } else {
                before.0
            },
            if segments[k - 1].vaddr.0 + segments[k - 1].memory_size > top.0 {
                k - 1
            } else {
                before.1
            },
        )
    }
}

/// A plan encloses its segments, from a multiple of their largest alignment to another, and
/// is no larger than they need: it starts less than one alignment below the first of them
/// and ends less than one above the end of one of them. Its first instruction lies in a
/// segment that can be executed, and what is read only once the image is relocated in one
/// that can be written until then.
#[verifier::spinoff_prover]
#[verifier::rlimit(40)]
pub proof fn plans_enclose_their_segments(
    request: LoadRequest,
    header: ElfHeaderInfo,
    found: Inspection,
    plan: PlannedView,
) -> (last: int)
    requires
        image_plan(request, header, found) == Ok::<PlannedView, LoadError>(plan),
    ensures
        0 <= last < plan.found.load_segments.len(),
        plan.aligned_min_vaddr.0 + plan.image_span == plan.aligned_max_vaddr.0,
        plan.image_span <= request.limits.max_image_span,
        plan.aligned_min_vaddr.0 % plan.max_align == 0,
        plan.aligned_max_vaddr.0 % plan.max_align == 0,
        forall|i: int|
            0 <= i < plan.found.load_segments.len() ==> {
                let segment = #[trigger] plan.found.load_segments[i];
                &&& plan.aligned_min_vaddr.0 <= segment.vaddr.0
                &&& segment.vaddr.0 + segment.memory_size <= plan.aligned_max_vaddr.0
                &&& segment.align <= plan.max_align
            },
        exists|i: int|
            0 <= i < plan.found.load_segments.len() && (
            #[trigger] plan.found.load_segments[i]).align == plan.max_align,
        plan.found.load_segments[0].vaddr.0 < plan.aligned_min_vaddr.0 + plan.max_align,
        plan.aligned_max_vaddr.0 < plan.found.load_segments[last].vaddr.0
            + plan.found.load_segments[last].memory_size + plan.max_align,
        exists|i: int|
            0 <= i < plan.found.load_segments.len() && (
            #[trigger] plan.found.load_segments[i]).permissions.executable()
                && plan.found.load_segments[i].vaddr.0 <= plan.canonical_entry_vaddr.0
                && plan.canonical_entry_vaddr.0 < plan.found.load_segments[i].vaddr.0
                + plan.found.load_segments[i].memory_size,
        found.relro matches Some(relro) ==> exists|i: int|
            0 <= i < plan.found.load_segments.len() && (
            #[trigger] plan.found.load_segments[i]).permissions.writable()
                && plan.found.load_segments[i].vaddr.0 <= relro.start.0 && relro.start.0 + relro.len
                <= plan.found.load_segments[i].vaddr.0 + plan.found.load_segments[i].memory_size,
{
    let segments = plan.found.load_segments;
    let n = segments.len() as int;
    sorting_is_a_sorted_permutation(found.load_segments);
    spans_cover_their_segments(segments);
    let (a, b) = lemma_plan_bounds_reached(segments, n);
    let top = top_of(segments, n)->Ok_0;
    crate::arith::lemma_power_of_two_positive(plan.max_align as int);
    lemma_floor_to(segments[0].vaddr.0 as int, plan.max_align as int);
    lemma_ceil_to(top.0 as int, plan.max_align as int);
    assert(segments[a].align == plan.max_align);
    if b < 0 {
        0
    } else {
        b
    }
}

/// A segment is accepted exactly if, where it takes up memory, its alignment is a power of two
/// within the quota, its place in the file and its address agree by it, and it is not to be
/// both written and executed. An alignment of 0 is one of 1.
pub proof fn sound_segments_are_accepted(segment: LoadSegmentInfo, limits: LoadLimits)
    ensures
        ({
            let align = if segment.align == 0 {
                1u64
            } else {
                segment.align
            };
            load_fault(segment, limits) is Ok <==> (segment.memory_size > 0 ==> {
                &&& crate::arith::power_of_two(align as int)
                &&& align <= limits.max_segment_alignment
                &&& segment.file_range.offset % align == segment.vaddr.0 % align
                &&& !(segment.permissions.writable() && segment.permissions.executable())
            })
        }),
{
}

/// An image is entered at its first instruction where some segment that can be executed holds
/// it, and what is read only in the end has to lie in one that can be written.
pub proof fn entries_in_executable_segments_are_accepted(
    header: ElfHeaderInfo,
    relro: Option<TargetRange>,
    segments: Seq<LoadSegmentInfo>,
    i: int,
    j: int,
)
    requires
        0 <= i < segments.len(),
        segments[i].permissions.executable(),
        segments[i].vaddr.0 + segments[i].memory_size <= u64::MAX,
        ({
            let entry = if header.machine is Arm && header.entry % 2 == 1 {
                header.entry - 1
            } else {
                header.entry as int
            };
            segments[i].vaddr.0 <= entry < segments[i].vaddr.0 + segments[i].memory_size
        }),
        relro matches Some(range) ==> 0 <= j < segments.len() && segments[j].permissions.writable()
            && segments[j].vaddr.0 + segments[j].memory_size <= u64::MAX && segments[j].vaddr.0
            <= range.start.0 && range.start.0 + range.len <= segments[j].vaddr.0
            + segments[j].memory_size,
    ensures
        reach_fault(header, relro, segments) is Ok,
{
    let entry = canonical_spec(TargetAddr(header.entry), header.machine);
    assert(segment_range(segments[i]).holds(entry, 1));
    assert(provides(segments, entry, 1, MemoryPermissions::spec_execute()));
    if let Some(range) = relro {
        assert(segment_range(segments[j]).holds(range.start, range.len));
        assert(provides(segments, range.start, range.len, MemoryPermissions::spec_write()));
    }
}

/// Segments in address order that share no address are accepted, whether they take up memory
/// or not.
pub proof fn segments_apart_do_not_meet(segments: Seq<LoadSegmentInfo>, k: int)
    requires
        0 <= k <= segments.len(),
        forall|i: int|
            0 <= i < k ==> (#[trigger] segments[i]).vaddr.0 + segments[i].memory_size <= u64::MAX,
        forall|i: int, j: int|
            0 <= i < j < k ==> (#[trigger] segments[i]).vaddr.0 + segments[i].memory_size <= (
            #[trigger] segments[j]).vaddr.0,
    ensures
        first_meeting(segments, k) is None,
    decreases k,
{
    if k > 0 {
        segments_apart_do_not_meet(segments, k - 1);
        lemma_last_occupied(segments, k - 1);
        if let Some(p) = last_occupied(segments, k - 1) {
            assert(segments[p].vaddr.0 + segments[p].memory_size <= segments[k - 1].vaddr.0);
        }
    }
}

} // verus!
