//! Image memory that exists only in the loader: one image at a time, in a vector.
//!
//! Images are placed from a fixed address on. The addresses mean nothing to the
//! machine, so nothing of such an image is ever run.

use crate::address::TargetAddr;
use crate::arith::{
    ceil_to, lemma_ceil_to, lemma_power_of_two_gap, lemma_power_of_two_positive, power_of_two,
};
use crate::error::{
    failure, fail_at, unclaimed, ErrorContext, LoadError, LoadErrorKind, LoadResult, LoadStage,
};
use crate::image::protection::{
    ImageProtectionMemory, PreparedProtectionPlan, ProtectionBehavior, ProtectionCapabilities,
    ProtectionLevel,
};
use crate::memory::{
    overwritten, zeros, AllocationId, AllocationLease, AllocationOffset, AllocationOwnership,
    AllocationRequest, ImageAllocation, ImageMemory, MutationProgress,
};
use crate::permissions::MemoryPermissions;
use vstd::prelude::*;

verus! {

/// Where images are placed.
pub const VIRTUAL_BASE: u64 = 0x4000_0000;

/// What fresh memory holds.
pub const FRESH_BYTE: u8 = 0xa5;

/// Memory for one image.
#[derive(Debug)]
pub struct VirtualMemory {
    pub allocation: Option<ImageAllocation>,
    pub bytes: Vec<u8>,
}

impl Default for VirtualMemory {
    fn default() -> (r: Self)
        ensures
            r.allocation is None,
            r.bytes@.len() == 0,
    {
        VirtualMemory { allocation: None, bytes: Vec::new() }
    }
}

/// The failure of an allocation for which there is no memory.
pub open spec fn exhausted() -> LoadError {
    failure(LoadStage::Allocate, LoadErrorKind::OutOfMemory, ErrorContext::Nothing)
}

fn oom() -> (r: LoadError)
    ensures
        r == exhausted(),
{
    fail_at(LoadStage::Allocate, LoadErrorKind::OutOfMemory, ErrorContext::Nothing)
}

impl VirtualMemory {
    /// Whether the `len` bytes from `offset` on are part of the image.
    pub open spec fn reachable(self, offset: AllocationOffset, len: int) -> bool {
        &&& self.allocation matches Some(allocation) && offset.0 + len <= allocation.len
            && allocation.base.0 + offset.0 <= u64::MAX
        &&& offset.0 + len <= self.bytes@.len()
    }

    /// The failure of an access outside the image.
    pub open spec fn fault(self, offset: AllocationOffset, len: u64) -> LoadError {
        unclaimed(
            LoadErrorKind::Backend,
            match self.allocation {
                Some(allocation) => ErrorContext::MemoryAccess {
                    allocation_base: allocation.base,
                    allocation_len: allocation.len,
                    allocation_align: allocation.align,
                    offset: offset.0,
                    len,
                },
                None => ErrorContext::MemoryAccess {
                    allocation_base: TargetAddr(0),
                    allocation_len: 0,
                    allocation_align: 0,
                    offset: offset.0,
                    len,
                },
            },
        )
    }

    fn memory_error(&self, offset: AllocationOffset, len: u64) -> (r: LoadError)
        ensures
            r == self.fault(offset, len),
    {
        let context: ErrorContext = match &self.allocation {
            Some(allocation) => ErrorContext::MemoryAccess {
                allocation_base: allocation.base(),
                allocation_len: allocation.len(),
                allocation_align: allocation.align(),
                offset: offset.value(),
                len,
            },
            None => ErrorContext::MemoryAccess {
                allocation_base: TargetAddr::new(0),
                allocation_len: 0,
                allocation_align: 0,
                offset: offset.value(),
                len,
            },
        };
        LoadError::new(LoadErrorKind::Backend, context)
    }
}

/// The allocation that a request is given, if its bytes could be reserved.
pub open spec fn renewed(request: AllocationRequest, reserved: bool) -> LoadResult<
    ImageAllocation,
> {
    match TargetAddr(VIRTUAL_BASE).align_up_spec(request.align) {
        Err(error) => Err(error.at_spec(LoadStage::Allocate)),
        Ok(base) => if reserved && request.size <= isize::MAX {
            Ok(
                ImageAllocation {
                    id: AllocationId(1),
                    base,
                    len: request.size,
                    align: request.align,
                    ownership: AllocationOwnership::Owned,
                },
            )
        } else {
            Err(exhausted())
        },
    }
}

/// Whether memory holds a fresh image in an allocation.
pub open spec fn renewed_in(memory: VirtualMemory, allocation: ImageAllocation) -> bool {
    &&& memory.allocation == Some(allocation)
    &&& memory.bytes@ == Seq::new(allocation.len as nat, |i: int| FRESH_BYTE)
}

/// How many bytes a request needs, if a vector can have so many.
pub fn bytes_needed(request: &AllocationRequest) -> (r: Option<usize>)
    ensures
        r == (if request.size <= isize::MAX {
            Some(request.size as usize)
        } else {
            None
        }),
{
    if request.size() <= isize::MAX as u64 {
        Some(request.size() as usize)
    } else {
        None
    }
}

proof fn lemma_addresses_exist(request: AllocationRequest)
    requires
        request.size <= isize::MAX,
        TargetAddr(VIRTUAL_BASE).align_up_spec(request.align) is Ok,
    ensures
        TargetAddr(VIRTUAL_BASE).align_up_spec(request.align)->Ok_0.0 + request.size <= u64::MAX,
{
    let align = request.align as int;
    let base = ceil_to(VIRTUAL_BASE as int, align);
    lemma_power_of_two_positive(align);
    lemma_ceil_to(VIRTUAL_BASE as int, align);
    assert(power_of_two(0x8000_0000_0000_0000)) by {
        reveal_with_fuel(power_of_two, 65);
    }
    lemma_power_of_two_gap(align, 0x8000_0000_0000_0000);
    if align > VIRTUAL_BASE {
        assert(base == align) by (nonlinear_arith)
            requires
                base % align == 0,
                0 < base,
                base < 2 * align,
                align > 0,
        ;
    }
}

impl VirtualMemory {
    /// Replaces the image by a fresh one in bytes that were reserved for it, at the
    /// first aligned address. There may be none.
    pub fn adopt_bytes(&mut self, request: AllocationRequest, reserved: Option<Vec<u8>>) -> (r:
        LoadResult<AllocationLease>)
        requires
            reserved matches Some(bytes) ==> bytes@.len() == 0,
        ensures
            match renewed(request, reserved is Some) {
                Ok(allocation) => {
                    &&& r == Ok::<AllocationLease, LoadError>(AllocationLease { allocation })
                    &&& renewed_in(*final(self), allocation)
                    &&& allocation.base.0 + allocation.len <= u64::MAX
                },
                Err(error) => r == Err::<AllocationLease, LoadError>(error) && *final(self) == *old(
                    self,
                ),
            },
    {
        let base: TargetAddr = match TargetAddr::new(VIRTUAL_BASE).align_up(request.align()) {
            Ok(base) => base,
            Err(error) => return Err(error.at(LoadStage::Allocate)),
        };
        let len: usize = match bytes_needed(&request) {
            Some(len) => len,
            None => return Err(oom()),
        };
        let mut bytes: Vec<u8> = match reserved {
            Some(bytes) => bytes,
            None => return Err(oom()),
        };
        proof {
            lemma_addresses_exist(request);
        }
        bytes.resize(len, FRESH_BYTE);
        let allocation = ImageAllocation::with_identity(
            AllocationId::new(1),
            base,
            request.size(),
            request.align(),
            AllocationOwnership::Owned,
        );
        assert(bytes@ =~= Seq::new(request.size as nat, |i: int| FRESH_BYTE));
        self.bytes = bytes;
        self.allocation = Some(allocation);
        Ok(AllocationLease::new(allocation))
    }
}

impl ImageMemory for VirtualMemory {
    open spec fn current(&self) -> Option<ImageAllocation> {
        self.allocation
    }

    open spec fn content(&self) -> Seq<u8> {
        self.bytes@
    }

    open spec fn source(&self) -> int {
        0
    }

    /// All of the image is there.
    open spec fn reliable(&self) -> bool {
        self.allocation matches Some(allocation) ==> self.bytes@.len() == allocation.len
    }

    /// The image is replaced by a fresh one of the requested size, at the first aligned
    /// address, unless memory runs out.
    open spec fn allocates(
        &self,
        after: Self,
        request: AllocationRequest,
        answer: LoadResult<AllocationLease>,
    ) -> bool {
        exists|reserved: bool|
            match #[trigger] renewed(request, reserved) {
                Ok(allocation) => answer == Ok::<AllocationLease, LoadError>(
                    AllocationLease { allocation },
                ) && renewed_in(after, allocation),
                Err(error) => answer == Err::<AllocationLease, LoadError>(error) && after == *self,
            }
    }

    /// Replaces the image by a fresh one of the requested size, at the first aligned
    /// address.
    fn allocate_image(&mut self, request: AllocationRequest) -> (r: LoadResult<AllocationLease>) {
        let mut bytes: Vec<u8> = Vec::new();
        let reserved: bool = match bytes_needed(&request) {
            Some(len) => bytes.try_reserve(len).is_ok(),
            None => false,
        };
        let ghost given = renewed(request, reserved);
        let answer = self.adopt_bytes(
            request,
            if reserved {
                Some(bytes)
            } else {
                None
            },
        );
        assert(given == renewed(request, reserved));
        answer
    }

    fn abort_image(&mut self, allocation: AllocationLease, progress: MutationProgress)
        ensures
            final(self).bytes@.len() == 0,
    {
        self.allocation = None;
        self.bytes.clear();
    }

    fn release_committed(&mut self, allocation: AllocationLease)
        ensures
            final(self).bytes@.len() == 0,
    {
        self.allocation = None;
        self.bytes.clear();
    }

    fn allocation(&self) -> (r: LoadResult<ImageAllocation>)
        ensures
            match self.allocation {
                Some(allocation) => r == Ok::<ImageAllocation, LoadError>(allocation),
                None => r == Err::<ImageAllocation, LoadError>(
                    self.fault(AllocationOffset(0), 0),
                ),
            },
    {
        match &self.allocation {
            Some(allocation) => Ok(*allocation),
            None => Err(self.memory_error(AllocationOffset::new(0), 0)),
        }
    }

    fn image_span(&self, offset: AllocationOffset, len: u64) -> (r: LoadResult<TargetAddr>)
        ensures
            if self.reachable(offset, len as int) {
                r == Ok::<TargetAddr, LoadError>(
                    TargetAddr(((self.allocation->0).base.0 + offset.0) as u64),
                )
            } else {
                r == Err::<TargetAddr, LoadError>(self.fault(offset, len))
            },
    {
        if let Some(allocation) = &self.allocation {
            if let Some(end) = offset.value().checked_add(len) {
                if end <= allocation.len() && end <= self.bytes.len() as u64 {
                    if let Ok(address) = allocation.base().checked_add(offset.value()) {
                        return Ok(address);
                    }
                }
            }
        }
        Err(self.memory_error(offset, len))
    }

    fn validate_access(
        &self,
        offset: AllocationOffset,
        len: u64,
        permissions: MemoryPermissions,
    ) -> (r: LoadResult<()>)
        ensures
            if self.reachable(offset, len as int) {
                r is Ok
            } else {
                r == Err::<(), LoadError>(self.fault(offset, len))
            },
    {
        self.image_span(offset, len)?;
        Ok(())
    }

    fn write(&mut self, offset: AllocationOffset, data: &[u8]) -> (r: LoadResult<()>)
        ensures
            if old(self).reachable(offset, data@.len() as int) {
                r is Ok && final(self).allocation == old(self).allocation
            } else {
                r == Err::<(), LoadError>(old(self).fault(offset, data@.len() as u64))
                    && *final(self) == *old(self)
            },
    {
        self.image_span(offset, data.len() as u64)?;
        let size: usize = self.bytes.len();
        assert(offset.0 + data@.len() <= size);
        let start: usize = offset.value() as usize;
        let ghost before = self.bytes@;
        let mut index: usize = 0;
        assert(self.bytes@ =~= overwritten(before, start as int, data@.subrange(0, 0)));
        while index < data.len()
            invariant
                start + data@.len() <= before.len() == size,
                index <= data@.len(),
                self.allocation == old(self).allocation,
                self.bytes@ == overwritten(
                    before,
                    start as int,
                    data@.subrange(0, index as int),
                ),
            decreases data@.len() - index,
        {
            self.bytes.set(start + index, data[index]);
            assert(self.bytes@ =~= overwritten(
                before,
                start as int,
                data@.subrange(0, index + 1),
            ));
            index = index + 1;
        }
        assert(data@.subrange(0, index as int) =~= data@);
        Ok(())
    }

    fn zero(&mut self, offset: AllocationOffset, len: u64) -> (r: LoadResult<()>)
        ensures
            if old(self).reachable(offset, len as int) {
                r is Ok && final(self).allocation == old(self).allocation
            } else {
                r == Err::<(), LoadError>(old(self).fault(offset, len)) && *final(self) == *old(self)
            },
    {
        self.image_span(offset, len)?;
        let size: usize = self.bytes.len();
        let count: usize = len as usize;
        assert(count == len && len <= size);
        let mut blank: Vec<u8> = Vec::new();
        blank.resize(count, 0);
        assert(blank@ =~= zeros(len as nat));
        self.write(offset, blank.as_slice())
    }

    fn read(&self, offset: AllocationOffset, count: usize) -> (r: LoadResult<Vec<u8>>)
        ensures
            if self.reachable(offset, count as int) {
                r is Ok
            } else {
                r == Err::<Vec<u8>, LoadError>(self.fault(offset, count as u64))
            },
    {
        self.image_span(offset, count as u64)?;
        let size: usize = self.bytes.len();
        assert(offset.0 + count <= size);
        let start: usize = offset.value() as usize;
        Ok(crate::bytes::copy_range(self.bytes.as_slice(), start, start + count))
    }
}

impl ProtectionBehavior for VirtualMemory {
    /// Protection changes nothing here: it is logical only, within the image.
    open spec fn protects(
        &self,
        after: Self,
        offset: AllocationOffset,
        len: u64,
        permissions: MemoryPermissions,
        outcome: LoadResult<ProtectionLevel>,
    ) -> bool {
        &&& after == *self
        &&& outcome == (if self.reachable(offset, len as int) {
            Ok::<ProtectionLevel, LoadError>(ProtectionLevel::LogicalOnly)
        } else {
            Err(self.fault(offset, len))
        })
    }
}

impl ImageProtectionMemory for VirtualMemory {
    open spec fn capabilities(&self) -> ProtectionCapabilities {
        ProtectionCapabilities { granule: 1, max_ranges: usize::MAX }
    }

    proof fn capabilities_are_kept(&self, other: &Self) {
    }

    fn protect(
        &mut self,
        offset: AllocationOffset,
        len: u64,
        permissions: MemoryPermissions,
    ) -> (r: LoadResult<ProtectionLevel>)
        ensures
            *final(self) == *old(self),
            if old(self).reachable(offset, len as int) {
                r == Ok::<ProtectionLevel, LoadError>(ProtectionLevel::LogicalOnly)
            } else {
                r == Err::<ProtectionLevel, LoadError>(old(self).fault(offset, len))
            },
    {
        let outcome: LoadResult<ProtectionLevel> = match self.image_span(offset, len) {
            Ok(_) => Ok(ProtectionLevel::LogicalOnly),
            Err(error) => Err(error),
        };
        assert(self.protects(*self, offset, len, permissions, outcome));
        outcome
    }

    fn protection_capabilities(&self) -> (r: ProtectionCapabilities) {
        ProtectionCapabilities::new(1, usize::MAX)
    }

    fn validate_protection_aliases(
        &self,
        allocation: &ImageAllocation,
        prepared: &PreparedProtectionPlan,
    ) -> (r: LoadResult<()>)
        ensures
            r is Ok,
    {
        Ok(())
    }
}

/// The image of a request lies at the first multiple of its alignment from the base on,
/// with the size that was asked for.
pub proof fn allocations_are_what_was_asked_for(
    request: AllocationRequest,
    reserved: bool,
    allocation: ImageAllocation,
)
    requires
        renewed(request, reserved) == Ok::<ImageAllocation, LoadError>(allocation),
    ensures
        reserved,
        allocation.len == request.size,
        allocation.align == request.align,
        allocation.base.0 % request.align == 0,
        VIRTUAL_BASE <= allocation.base.0 < VIRTUAL_BASE + request.align,
{
    crate::arith::lemma_power_of_two_positive(request.align as int);
    crate::arith::lemma_ceil_to(VIRTUAL_BASE as int, request.align as int);
}

} // verus!
