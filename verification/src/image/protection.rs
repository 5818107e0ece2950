//! Protection ranges and the memory that enforces them.

use crate::address::{claim_range, range_overflow, TargetAddr, TargetRange};
use crate::arith::{
    ceil_to, floor_to, is_power_of_two, lemma_ceil_to, lemma_floor_to, lemma_multiples_apart,
    lemma_power_of_two_positive, power_of_two,
};
use crate::error::{
    claim_at, fail_at, failure, ErrorContext, LimitKind, LoadError, LoadErrorKind, LoadResult,
    LoadStage,
};
use crate::image::seal::{SealPlan, SealRange};
use crate::limits::over_limit;
use crate::memory::{placed, AllocationOffset, ImageAllocation, ImageMemory, TargetLocation};
use crate::permissions::MemoryPermissions;
use vstd::prelude::*;

verus! {

#[derive(Clone, Copy, Debug, PartialEq, Eq, Structural)]
pub enum ProtectionLevel {
    HardwareEnforced,
    LogicalOnly,
}

/// What a memory can protect.
#[derive(Clone, Copy, Debug, PartialEq, Eq, Structural)]
pub struct ProtectionCapabilities {
    pub granule: u64,
    pub max_ranges: usize,
}

impl ProtectionCapabilities {
    pub fn new(granule: u64, max_ranges: usize) -> (r: Self)
        ensures
            r == (ProtectionCapabilities { granule, max_ranges }),
    {
        ProtectionCapabilities { granule, max_ranges }
    }

    #[inline]
    pub fn granule(self) -> (r: u64)
        ensures
            r == self.granule,
    {
        self.granule
    }

    #[inline]
    pub fn max_ranges(self) -> (r: usize)
        ensures
            r == self.max_ranges,
    {
        self.max_ranges
    }
}

/// One protection request and the level at which it is enforced.
///
/// A prepared request starts as logical only. The memory raises the level after
/// the protection has changed, so that sealing cannot run out of memory half way.
#[derive(Clone, Copy, Debug, PartialEq, Eq, Structural)]
pub struct ProtectionRecord {
    pub location: TargetLocation,
    pub requested_range: TargetRange,
    pub applied_range: TargetRange,
    pub permissions: MemoryPermissions,
    pub level: ProtectionLevel,
}

impl ProtectionRecord {
    /// The record with another level.
    pub open spec fn leveled(self, level: ProtectionLevel) -> Self {
        ProtectionRecord { level, ..self }
    }

    #[inline]
    pub fn location(&self) -> (r: TargetLocation)
        ensures
            r == self.location,
    {
        self.location
    }

    #[inline]
    pub fn requested_range(&self) -> (r: TargetRange)
        ensures
            r == self.requested_range,
    {
        self.requested_range
    }

    #[inline]
    pub fn applied_range(&self) -> (r: TargetRange)
        ensures
            r == self.applied_range,
    {
        self.applied_range
    }

    #[inline]
    pub fn permissions(&self) -> (r: MemoryPermissions)
        ensures
            r == self.permissions,
    {
        self.permissions
    }

    #[inline]
    pub fn level(&self) -> (r: ProtectionLevel)
        ensures
            r == self.level,
    {
        self.level
    }

    fn record_level(&mut self, level: ProtectionLevel)
        ensures
            *final(self) == old(self).leveled(level),
    {
        self.level = level;
    }
}

/// The requests of a prepared plan while a memory applies them.
///
/// The memory can inspect every request and record its level, but cannot replace,
/// remove or add one.
pub struct ProtectionBatch {
    records: Vec<ProtectionRecord>,
}

/// Whether two lists of records differ in nothing but their levels.
pub open spec fn same_requests(a: Seq<ProtectionRecord>, b: Seq<ProtectionRecord>) -> bool {
    &&& a.len() == b.len()
    &&& forall|i: int| 0 <= i < a.len() ==> b[i] == (#[trigger] a[i]).leveled(b[i].level)
}

impl View for ProtectionBatch {
    type V = Seq<ProtectionRecord>;

    closed spec fn view(&self) -> Seq<ProtectionRecord> {
        self.records@
    }
}

impl ProtectionBatch {
    pub fn new(records: Vec<ProtectionRecord>) -> (r: Self)
        ensures
            r@ == records@,
    {
        ProtectionBatch { records }
    }

    pub fn records(&self) -> (r: &[ProtectionRecord])
        ensures
            r@ == self@,
    {
        self.records.as_slice()
    }

    /// Records the level of one request. An index without a request is refused.
    pub fn record_level(&mut self, index: usize, level: ProtectionLevel) -> (r: bool)
        ensures
            r == (index < old(self)@.len()),
            r ==> final(self)@ == old(self)@.update(
                index as int,
                old(self)@[index as int].leveled(level),
            ),
            !r ==> final(self)@ == old(self)@,
            same_requests(old(self)@, final(self)@),
    {
        if index >= self.records.len() {
            return false;
        }
        let mut record: ProtectionRecord = self.records[index];
        record.record_level(level);
        self.records.set(index, record);
        true
    }

    pub fn into_records(self) -> (r: Vec<ProtectionRecord>)
        ensures
            r@ == self@,
    {
        self.records
    }
}

/// The protections that a memory has applied.
pub struct AppliedProtectionSet {
    pub ranges: Vec<ProtectionRecord>,
}

/// The level of a set: enforced by hardware if every range is.
pub open spec fn set_level(ranges: Seq<ProtectionRecord>) -> ProtectionLevel {
    if forall|i: int|
        0 <= i < ranges.len() ==> (#[trigger] ranges[i]).level == ProtectionLevel::HardwareEnforced {
        ProtectionLevel::HardwareEnforced
    } else {
        ProtectionLevel::LogicalOnly
    }
}

impl AppliedProtectionSet {
    pub fn new(ranges: Vec<ProtectionRecord>) -> (r: Self)
        ensures
            r.ranges@ == ranges@,
    {
        AppliedProtectionSet { ranges }
    }

    #[inline]
    pub fn ranges(&self) -> (r: &[ProtectionRecord])
        ensures
            r@ == self.ranges@,
    {
        self.ranges.as_slice()
    }

    pub fn level(&self) -> (r: ProtectionLevel)
        ensures
            r == set_level(self.ranges@),
    {
        let mut index: usize = 0;
        while index < self.ranges.len()
            invariant
                index <= self.ranges@.len(),
                forall|i: int|
                    0 <= i < index ==> (#[trigger] self.ranges@[i]).level
                        == ProtectionLevel::HardwareEnforced,
            decreases self.ranges@.len() - index,
        {
            if self.ranges[index].level() != ProtectionLevel::HardwareEnforced {
                assert(self.ranges@[index as int].level != ProtectionLevel::HardwareEnforced);
                return ProtectionLevel::LogicalOnly;
            }
            index = index + 1;
        }
        ProtectionLevel::HardwareEnforced
    }
}

/// A protection plan that fits the granules of a memory.
pub struct PreparedProtectionPlan {
    pub ranges: Vec<ProtectionRecord>,
}

/// The failure of a plan that a memory cannot protect.
pub open spec fn unprotectable(allocation: ImageAllocation) -> LoadError {
    failure(
        LoadStage::Seal,
        LoadErrorKind::Backend,
        ErrorContext::Allocation {
            base: allocation.base,
            len: allocation.len,
            align: allocation.align,
        },
    )
}

/// A protection whose granules run over those of its predecessor.
pub open spec fn protection_conflict(range: TargetRange) -> LoadError {
    failure(
        LoadStage::Seal,
        LoadErrorKind::PermissionConflict,
        ErrorContext::TargetRange { start: range.start, len: range.len, align: 0 },
    )
}

/// The granules that a requested range touches.
pub open spec fn granules(range: TargetRange, granule: u64) -> TargetRange {
    let start = floor_to(range.start.0 as int, granule as int);
    let end = ceil_to(range.limit(), granule as int);
    TargetRange { start: TargetAddr(start as u64), len: (end - start) as u64 }
}

/// The protection record of one part of an image.
pub open spec fn record_spec(
    allocation: ImageAllocation,
    granule: u64,
    part: SealRange,
    previous: Option<ProtectionRecord>,
) -> LoadResult<ProtectionRecord> {
    let requested = part.runtime_range;
    let applied = granules(requested, granule);
    if !requested.bounded() {
        Err(range_overflow(requested.start, requested.len).at_spec(LoadStage::Seal))
    } else if requested.limit() + granule - 1 > u64::MAX {
        Err(
            range_overflow(TargetAddr(requested.limit() as u64), (granule - 1) as u64).at_spec(
                LoadStage::Seal,
            ),
        )
    } else if applied.start.0 < allocation.base.0 || applied.limit() > allocation.base.0
        + allocation.len {
        Err(unprotectable(allocation))
    } else if part.location.offset < requested.start.0 - applied.start.0 {
        Err(unprotectable(allocation))
    } else if previous is Some && previous->0.applied_range.meets(applied)
        && previous->0.permissions != part.permissions {
        Err(protection_conflict(applied))
    } else {
        Ok(
            ProtectionRecord {
                location: TargetLocation {
                    allocation: part.location.allocation,
                    offset: (part.location.offset - (requested.start.0
                        - applied.start.0)) as u64,
                },
                requested_range: requested,
                applied_range: applied,
                permissions: part.permissions,
                level: ProtectionLevel::LogicalOnly,
            },
        )
    }
}

/// The last of some records.
pub open spec fn last_record(records: Seq<ProtectionRecord>) -> Option<ProtectionRecord> {
    if records.len() == 0 {
        None
    } else {
        Some(records.last())
    }
}

/// The records of the first `k` parts, or the failure of the first that has none.
pub open spec fn records_spec(
    allocation: ImageAllocation,
    granule: u64,
    parts: Seq<SealRange>,
    k: int,
) -> LoadResult<Seq<ProtectionRecord>>
    decreases k,
{
    if k <= 0 {
        Ok(Seq::empty())
    } else {
        match records_spec(allocation, granule, parts, k - 1) {
            Err(error) => Err(error),
            Ok(records) => match record_spec(
                allocation,
                granule,
                parts[k - 1],
                last_record(records),
            ) {
                Err(error) => Err(error),
                Ok(record) => Ok(records.push(record)),
            },
        }
    }
}

/// The protection plan of an image for a memory.
pub open spec fn protection_spec(
    allocation: ImageAllocation,
    parts: Seq<SealRange>,
    capabilities: ProtectionCapabilities,
) -> LoadResult<Seq<ProtectionRecord>> {
    if !power_of_two(capabilities.granule as int) {
        Err(unprotectable(allocation))
    } else if parts.len() > capabilities.max_ranges {
        Err(
            over_limit(
                LoadStage::Seal,
                LimitKind::ProtectionRangeCount,
                parts.len() as u64,
                capabilities.max_ranges as u64,
            ),
        )
    } else if allocation.base.0 + allocation.len > u64::MAX {
        Err(range_overflow(allocation.base, allocation.len).at_spec(LoadStage::Seal))
    } else {
        records_spec(allocation, capabilities.granule, parts, parts.len() as int)
    }
}

proof fn lemma_records_fault(
    allocation: ImageAllocation,
    granule: u64,
    parts: Seq<SealRange>,
    k: int,
)
    requires
        0 <= k <= parts.len(),
        records_spec(allocation, granule, parts, k) is Err,
    ensures
        records_spec(allocation, granule, parts, parts.len() as int) == records_spec(
            allocation,
            granule,
            parts,
            k,
        ),
    decreases parts.len() - k,
{
    if k < parts.len() {
        lemma_records_fault(allocation, granule, parts, k + 1);
    }
}

fn protection_backend_error(allocation: &ImageAllocation) -> (r: LoadError)
    ensures
        r == unprotectable(*allocation),
{
    fail_at(
        LoadStage::Seal,
        LoadErrorKind::Backend,
        ErrorContext::Allocation {
            base: allocation.base(),
            len: allocation.len(),
            align: allocation.align(),
        },
    )
}

fn record_for(
    allocation: &ImageAllocation,
    allocation_end: TargetAddr,
    granule: u64,
    part: &SealRange,
    previous: Option<ProtectionRecord>,
) -> (r: LoadResult<ProtectionRecord>)
    requires
        power_of_two(granule as int),
        allocation_end.0 == allocation.base.0 + allocation.len,
    ensures
        r == record_spec(*allocation, granule, *part, previous),
{
    let requested: TargetRange = part.runtime_range();
    proof {
        lemma_power_of_two_positive(granule as int);
        lemma_floor_to(requested.start.0 as int, granule as int);
        if requested.bounded() {
            lemma_ceil_to(requested.limit(), granule as int);
        }
    }
    let requested_end: TargetAddr = claim_range(requested.end(), LoadStage::Seal)?;
    let applied_start: TargetAddr = claim_range(
        requested.start().align_down(granule),
        LoadStage::Seal,
    )?;
    let applied_end: TargetAddr = claim_range(requested_end.align_up(granule), LoadStage::Seal)?;
    if applied_start.get() < allocation.base().get() || applied_end.get() > allocation_end.get() {
        return Err(protection_backend_error(allocation));
    }
    let prefix: u64 = requested.start().get() - applied_start.get();
    let applied_offset: u64 = match part.location().offset().checked_sub(prefix) {
        Some(applied_offset) => applied_offset,
        None => return Err(protection_backend_error(allocation)),
    };
    let applied_range = TargetRange::new(applied_start, applied_end.get() - applied_start.get());
    if let Some(previous) = previous {
        if previous.applied_range.overlaps(applied_range) && previous.permissions
            != part.permissions() {
            return Err(
                fail_at(
                    LoadStage::Seal,
                    LoadErrorKind::PermissionConflict,
                    ErrorContext::TargetRange {
                        start: applied_range.start(),
                        len: applied_range.len(),
                        align: 0,
                    },
                ),
            );
        }
    }
    Ok(
        ProtectionRecord {
            location: TargetLocation::new(part.location().allocation(), applied_offset),
            requested_range: requested,
            applied_range,
            permissions: part.permissions(),
            level: ProtectionLevel::LogicalOnly,
        },
    )
}

impl PreparedProtectionPlan {
    /// Rounds the parts of an image to the granules of a memory.
    pub fn build(
        allocation: &ImageAllocation,
        logical: &SealPlan,
        capabilities: ProtectionCapabilities,
    ) -> (r: LoadResult<Self>)
        ensures
            match protection_spec(*allocation, logical.ranges@, capabilities) {
                Ok(records) => r is Ok && r->Ok_0.ranges@ == records,
                Err(error) => r == Err::<PreparedProtectionPlan, LoadError>(error),
            },
    {
        let granule: u64 = capabilities.granule();
        if !is_power_of_two(granule) {
            return Err(protection_backend_error(allocation));
        }
        if logical.ranges.len() > capabilities.max_ranges() {
            return Err(
                fail_at(
                    LoadStage::Seal,
                    LoadErrorKind::ResourceLimit,
                    ErrorContext::Limit {
                        resource: LimitKind::ProtectionRangeCount,
                        actual: logical.ranges.len() as u64,
                        maximum: capabilities.max_ranges() as u64,
                    },
                ),
            );
        }
        let allocation_end: TargetAddr = claim_range(
            allocation.base().checked_add(allocation.len()),
            LoadStage::Seal,
        )?;
        let mut ranges: Vec<ProtectionRecord> = Vec::new();
        let mut index: usize = 0;
        while index < logical.ranges.len()
            invariant
                index <= logical.ranges@.len(),
                granule == capabilities.granule,
                power_of_two(granule as int),
                logical.ranges@.len() <= capabilities.max_ranges,
                allocation_end.0 == allocation.base.0 + allocation.len,
                records_spec(*allocation, granule, logical.ranges@, index as int) == Ok::<
                    Seq<ProtectionRecord>,
                    LoadError,
                >(ranges@),
            decreases logical.ranges@.len() - index,
        {
            let previous: Option<ProtectionRecord> = if ranges.len() == 0 {
                None
            } else {
                Some(ranges[ranges.len() - 1])
            };
            assert(previous == last_record(ranges@));
            match record_for(
                allocation,
                allocation_end,
                granule,
                &logical.ranges[index],
                previous,
            ) {
                Ok(record) => {
                    ranges.push(record);
                },
                Err(error) => {
                    proof {
                        assert(records_spec(*allocation, granule, logical.ranges@, index + 1)
                            is Err);
                        lemma_records_fault(*allocation, granule, logical.ranges@, index + 1);
                    }
                    return Err(error);
                },
            }
            index = index + 1;
        }
        Ok(PreparedProtectionPlan { ranges })
    }

    /// Prepares the protection of an image and lets the memory check it.
    pub fn prepare<M: ImageProtectionMemory>(
        memory: &M,
        allocation: &ImageAllocation,
        logical: &SealPlan,
    ) -> (r: LoadResult<Self>)
        ensures
            match protection_spec(*allocation, logical.ranges@, memory.capabilities()) {
                Ok(records) => {
                    &&& r matches Ok(prepared) ==> prepared.ranges@ == records && records_within(
                        records,
                        memory.content().len(),
                    )
                    &&& memory.reliable() && placed(memory.current()) && memory.current() == Some(
                        *allocation,
                    ) && records_within(records, memory.content().len()) ==> r is Ok
                },
                Err(error) => r == Err::<PreparedProtectionPlan, LoadError>(error),
            },
    {
        let prepared = PreparedProtectionPlan::build(
            allocation,
            logical,
            memory.protection_capabilities(),
        )?;
        claim_at(memory.validate_protection_aliases(allocation, &prepared), LoadStage::Seal)?;
        let mut index: usize = 0;
        while index < prepared.ranges.len()
            invariant
                index <= prepared.ranges@.len(),
                records_within(
                    prepared.ranges@.subrange(0, index as int),
                    memory.content().len(),
                ),
                protection_spec(*allocation, logical.ranges@, memory.capabilities()) == Ok::<
                    Seq<ProtectionRecord>,
                    LoadError,
                >(prepared.ranges@),
            decreases prepared.ranges@.len() - index,
        {
            let record = prepared.ranges[index];
            let ghost whole = prepared.ranges@;
            assert(record == whole[index as int]);
            claim_at(
                memory.validate_access(
                    AllocationOffset::new(record.location().offset()),
                    record.applied_range().len(),
                    record.permissions(),
                ),
                LoadStage::Seal,
            )?;
            assert(whole.subrange(0, index + 1) =~= whole.subrange(0, index as int).push(record));
            assert(records_within(
                whole.subrange(0, index as int).push(record),
                memory.content().len(),
            )) by {
                let some = whole.subrange(0, index as int);
                assert forall|i: int| 0 <= i < some.push(record).len() implies (
                #[trigger] some.push(record)[i]).location.offset
                    + some.push(record)[i].applied_range.len <= memory.content().len() by {
                    if i < index {
                        assert(some.push(record)[i] == some[i]);
                    }
                }
            }
            index = index + 1;
        }
        assert(prepared.ranges@.subrange(0, index as int) =~= prepared.ranges@);
        Ok(prepared)
    }

    pub fn into_ranges(self) -> (r: Vec<ProtectionRecord>)
        ensures
            r@ == self.ranges@,
    {
        self.ranges
    }

    #[inline]
    pub fn ranges(&self) -> (r: &[ProtectionRecord])
        ensures
            r@ == self.ranges@,
    {
        self.ranges.as_slice()
    }
}

/// Whether the granules of every record lie in memory of this size.
pub open spec fn records_within(records: Seq<ProtectionRecord>, len: nat) -> bool {
    forall|i: int|
        0 <= i < records.len() ==> (#[trigger] records[i]).location.offset
            + records[i].applied_range.len <= len
}

/// How a memory answers requests for protection.
pub trait ProtectionBehavior: ImageMemory {
    /// Whether a request for protection can leave the memory as `after` with this
    /// outcome.
    spec fn protects(
        &self,
        after: Self,
        offset: AllocationOffset,
        len: u64,
        permissions: MemoryPermissions,
        outcome: LoadResult<ProtectionLevel>,
    ) -> bool;
}

/// Whether the states are those of a memory that protects the first requests one
/// after the other, from the first state to the last, and gives each the level that
/// its record holds.
pub open spec fn protected_in_order<M: ProtectionBehavior>(
    states: Seq<M>,
    records: Seq<ProtectionRecord>,
) -> bool {
    forall|i: int|
        0 <= i < states.len() - 1 ==> (#[trigger] states[i]).protects(
            states[i + 1],
            AllocationOffset(records[i].location.offset),
            records[i].applied_range.len,
            records[i].permissions,
            Ok(records[i].level),
        )
}

/// Whether these states lead a memory from `before` to `after` while it applies
/// `requests`, which leaves `records` and gives this outcome: every request got a
/// level, or the first that failed gave the error and the requests from there on
/// keep their records.
pub open spec fn applied_through<M: ProtectionBehavior>(
    states: Seq<M>,
    before: M,
    after: M,
    requests: Seq<ProtectionRecord>,
    records: Seq<ProtectionRecord>,
    outcome: LoadResult<()>,
) -> bool {
    let done = states.len() - 1;
    &&& 0 <= done <= requests.len()
    &&& states[0] == before
    &&& same_requests(requests, records)
    &&& protected_in_order(states, records)
    &&& match outcome {
        Ok(_) => done == requests.len() && states[done] == after,
        Err(error) => {
            &&& done < requests.len()
            &&& states[done].protects(
                after,
                AllocationOffset(requests[done].location.offset),
                requests[done].applied_range.len,
                requests[done].permissions,
                Err(error),
            )
            &&& forall|i: int| done <= i < requests.len() ==> records[i] == #[trigger] requests[i]
        },
    }
}

/// Memory that can restrict the access to parts of its image.
pub trait ImageProtectionMemory: ProtectionBehavior {
    spec fn capabilities(&self) -> ProtectionCapabilities;

    /// Memory keeps its capabilities, whatever is allocated or written.
    proof fn capabilities_are_kept(&self, other: &Self)
        requires
            self.source() == other.source(),
        ensures
            self.capabilities() == other.capabilities(),
    ;

    fn protect(
        &mut self,
        offset: AllocationOffset,
        len: u64,
        permissions: MemoryPermissions,
    ) -> (r: LoadResult<ProtectionLevel>)
        ensures
            old(self).protects(*final(self), offset, len, permissions, r),
            final(self).current() == old(self).current(),
            final(self).content() == old(self).content(),
            old(self).reliable() ==> final(self).reliable(),
            final(self).source() == old(self).source(),
            old(self).reliable() && placed(old(self).current()) && offset.0 + len
                <= old(self).content().len() ==> r is Ok,
    ;

    fn protection_capabilities(&self) -> (r: ProtectionCapabilities)
        ensures
            r == self.capabilities(),
    ;

    fn validate_protection_aliases(
        &self,
        allocation: &ImageAllocation,
        prepared: &PreparedProtectionPlan,
    ) -> (r: LoadResult<()>)
        ensures
            self.reliable() && self.current() == Some(*allocation) ==> r is Ok,
    ;

    /// Applies every request of a batch in order and records its level. The first
    /// request that fails ends it.
    fn apply_protection(&mut self, batch: &mut ProtectionBatch) -> (r: LoadResult<()>)
        ensures
            exists|states: Seq<Self>| #[trigger]
                applied_through(
                    states,
                    *old(self),
                    *final(self),
                    old(batch)@,
                    final(batch)@,
                    r,
                ),
            final(self).current() == old(self).current(),
            final(self).content() == old(self).content(),
            same_requests(old(batch)@, final(batch)@),
            old(self).reliable() ==> final(self).reliable(),
            final(self).source() == old(self).source(),
            old(self).reliable() && placed(old(self).current()) && records_within(
                old(batch)@,
                old(self).content().len(),
            ) ==> r is Ok,
    {
        let mut index: usize = 0;
        let ghost mut states: Seq<Self> = seq![*self];
        while index < batch.records().len()
            invariant
                index <= batch@.len(),
                self.current() == old(self).current(),
                self.content() == old(self).content(),
                same_requests(old(batch)@, batch@),
                old(self).reliable() ==> self.reliable(),
                self.source() == old(self).source(),
                states.len() == index + 1,
                states[0] == *old(self),
                states[index as int] == *self,
                protected_in_order(states, batch@),
                forall|i: int|
                    index <= i < batch@.len() ==> batch@[i] == #[trigger] old(batch)@[i],
            decreases batch@.len() - index,
        {
            let record = batch.records()[index];
            assert(record == old(batch)@[index as int].leveled(batch@[index as int].level));
            let answer = self.protect(
                AllocationOffset::new(record.location().offset()),
                record.applied_range().len(),
                record.permissions(),
            );
            let level = match answer {
                Ok(level) => level,
                Err(error) => {
                    assert(applied_through(
                        states,
                        *old(self),
                        *self,
                        old(batch)@,
                        batch@,
                        Err(error),
                    ));
                    return Err(error);
                },
            };
            let ghost before = batch@;
            batch.record_level(index, level);
            proof {
                assert forall|i: int| 0 <= i < old(batch)@.len() implies batch@[i] == (
                #[trigger] old(batch)@[i]).leveled(batch@[i].level) by {
                    assert(before[i] == old(batch)@[i].leveled(before[i].level));
                    assert(batch@[i] == before[i].leveled(batch@[i].level));
                }
                let earlier = states;
                states = states.push(*self);
                assert forall|i: int| 0 <= i < states.len() - 1 implies (
                #[trigger] states[i]).protects(
                    states[i + 1],
                    AllocationOffset(batch@[i].location.offset),
                    batch@[i].applied_range.len,
                    batch@[i].permissions,
                    Ok(batch@[i].level),
                ) by {
                    if i < index {
                        assert(states[i] == earlier[i] && states[i + 1] == earlier[i + 1]);
                        assert(batch@[i] == before[i]);
                    }
                }
            }
            index = index + 1;
        }
        assert(applied_through(states, *old(self), *self, old(batch)@, batch@, Ok(())));
        Ok(())
    }
}

proof fn lemma_record_sound(
    allocation: ImageAllocation,
    granule: u64,
    part: SealRange,
    previous: Option<ProtectionRecord>,
)
    requires
        power_of_two(granule as int),
        record_spec(allocation, granule, part, previous) is Ok,
    ensures
        record_sound(allocation, granule, part, record_spec(allocation, granule, part, previous)->Ok_0),
{
    let requested = part.runtime_range;
    lemma_power_of_two_positive(granule as int);
    lemma_floor_to(requested.start.0 as int, granule as int);
    lemma_ceil_to(requested.limit(), granule as int);
}

/// Whether a record protects all of a part, whole granules inside the allocation
/// only, with the permissions of the part.
pub open spec fn record_sound(
    allocation: ImageAllocation,
    granule: u64,
    part: SealRange,
    record: ProtectionRecord,
) -> bool {
    &&& record.requested_range == part.runtime_range
    &&& record.permissions == part.permissions
    &&& record.level == ProtectionLevel::LogicalOnly
    &&& record.applied_range.start.0 <= part.runtime_range.start.0
    &&& part.runtime_range.limit() <= record.applied_range.limit()
    &&& record.applied_range.start.0 as int % granule as int == 0
    &&& record.applied_range.limit() % granule as int == 0
    &&& allocation.base.0 <= record.applied_range.start.0
    &&& record.applied_range.limit() <= allocation.base.0 + allocation.len
    &&& record.location.offset - part.location.offset == record.applied_range.start.0
        - part.runtime_range.start.0
}

/// Every record of a protection plan covers its part with whole granules of the
/// allocation, and neighbours that share a granule agree on its permissions.
#[verifier::spinoff_prover]
#[verifier::rlimit(50)]
pub proof fn protection_plans_are_sound(
    allocation: ImageAllocation,
    granule: u64,
    parts: Seq<SealRange>,
    k: int,
)
    requires
        power_of_two(granule as int),
        0 <= k <= parts.len(),
        records_spec(allocation, granule, parts, k) is Ok,
    ensures
        records_spec(allocation, granule, parts, k)->Ok_0.len() == k,
        forall|i: int|
            0 <= i < k ==> record_sound(
                allocation,
                granule,
                parts[i],
                #[trigger] records_spec(allocation, granule, parts, k)->Ok_0[i],
            ),
        forall|i: int|
            0 < i < k && records_spec(allocation, granule, parts, k)->Ok_0[i
                - 1].applied_range.meets(
                (#[trigger] records_spec(allocation, granule, parts, k)->Ok_0[i]).applied_range,
            ) ==> records_spec(allocation, granule, parts, k)->Ok_0[i - 1].permissions
                == records_spec(allocation, granule, parts, k)->Ok_0[i].permissions,
    decreases k,
{
    if k > 0 {
        protection_plans_are_sound(allocation, granule, parts, k - 1);
        let before = records_spec(allocation, granule, parts, k - 1)->Ok_0;
        let records = records_spec(allocation, granule, parts, k)->Ok_0;
        lemma_record_sound(allocation, granule, parts[k - 1], last_record(before));
        assert forall|i: int| 0 <= i < k implies record_sound(
            allocation,
            granule,
            parts[i],
            #[trigger] records[i],
        ) by {
            if i < k - 1 {
                assert(records[i] == before[i]);
            }
        }
        assert forall|i: int|
            0 < i < k && records[i - 1].applied_range.meets(
                (#[trigger] records[i]).applied_range,
            ) implies records[i - 1].permissions == records[i].permissions by {
            if i < k - 1 {
                assert(records[i] == before[i]);
                assert(records[i - 1] == before[i - 1]);
            }
        }
    }
}

/// A record protects no more than it has to: its range starts less than one granule below the
/// part and ends less than one above it.
pub proof fn records_protect_no_more_than_needed(
    allocation: ImageAllocation,
    granule: u64,
    part: SealRange,
    previous: Option<ProtectionRecord>,
    record: ProtectionRecord,
)
    requires
        power_of_two(granule as int),
        record_spec(allocation, granule, part, previous) == Ok::<ProtectionRecord, LoadError>(
            record,
        ),
    ensures
        record.applied_range.start.0 <= part.runtime_range.start.0
            < record.applied_range.start.0 + granule,
        part.runtime_range.start.0 + part.runtime_range.len <= record.applied_range.start.0
            + record.applied_range.len < part.runtime_range.start.0 + part.runtime_range.len
            + granule,
        record.permissions == part.permissions,
        record.location.allocation == part.location.allocation,
{
    lemma_power_of_two_positive(granule as int);
    lemma_floor_to(part.runtime_range.start.0 as int, granule as int);
    lemma_ceil_to(part.runtime_range.limit(), granule as int);
}

/// A part that consists of whole granules of the allocation can be protected as it is, behind
/// a part that ends before it starts.
pub proof fn whole_granules_can_be_protected(
    allocation: ImageAllocation,
    granule: u64,
    part: SealRange,
    previous: Option<ProtectionRecord>,
)
    requires
        power_of_two(granule as int),
        part.runtime_range.start.0 % granule == 0,
        (part.runtime_range.start.0 + part.runtime_range.len) % (granule as int) == 0,
        part.runtime_range.start.0 + part.runtime_range.len + granule - 1 <= u64::MAX,
        allocation.base.0 <= part.runtime_range.start.0,
        part.runtime_range.start.0 + part.runtime_range.len <= allocation.base.0 + allocation.len,
        previous matches Some(record) ==> record.applied_range.start.0 + record.applied_range.len
            <= part.runtime_range.start.0,
    ensures
        record_spec(allocation, granule, part, previous) matches Ok(record)
            && record.applied_range == part.runtime_range && record.requested_range
            == part.runtime_range && record.location.offset == part.location.offset,
{
    let start = part.runtime_range.start.0 as int;
    let end = part.runtime_range.limit();
    lemma_power_of_two_positive(granule as int);
    lemma_ceil_to(end, granule as int);
    lemma_multiples_apart(end, ceil_to(end, granule as int), granule as int);
}

/// A set is enforced by hardware exactly if every one of its ranges is.
pub proof fn sets_are_as_strong_as_their_weakest_range(ranges: Seq<ProtectionRecord>, i: int)
    requires
        0 <= i < ranges.len(),
    ensures
        ranges[i].level is LogicalOnly ==> set_level(ranges) is LogicalOnly,
        (forall|j: int|
            0 <= j < ranges.len() ==> (#[trigger] ranges[j]).level is HardwareEnforced)
            ==> set_level(ranges) is HardwareEnforced,
{
}

} // verus!
