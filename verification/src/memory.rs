//! Image allocations and the memory that holds them.

use crate::address::{RangeError, RangeResult, TargetAddr, TargetRange};
use crate::error::{
    unclaimed, ErrorContext, LoadError, LoadErrorKind, LoadResult, LoadStage,
};
use crate::permissions::MemoryPermissions;
use vstd::prelude::*;

verus! {

/// Where an image wants its memory to come from.
#[derive(Clone, Copy, Debug, PartialEq, Eq, Structural)]
pub enum Placement {
    /// Any suitably aligned address.
    Anywhere,
    /// Exactly this virtual range.
    Fixed(TargetRange),
}

#[derive(Clone, Copy, Debug, PartialEq, Eq, Structural)]
pub struct AllocationId(pub u64);

impl AllocationId {
    #[inline]
    pub fn new(value: u64) -> (r: Self)
        ensures
            r == AllocationId(value),
    {
        AllocationId(value)
    }

    #[inline]
    pub fn value(self) -> (r: u64)
        ensures
            r == self.0,
    {
        self.0
    }
}

#[derive(Clone, Copy, Debug, PartialEq, Eq, Structural)]
pub enum AllocationOwnership {
    Owned,
    BorrowedFixed,
}

#[derive(Clone, Copy, Debug, PartialEq, Eq, Structural)]
pub struct AllocationRequest {
    pub placement: Placement,
    pub size: u64,
    pub align: u64,
}

impl AllocationRequest {
    #[inline]
    pub fn new(placement: Placement, size: u64, align: u64) -> (r: Self)
        ensures
            r == (AllocationRequest { placement, size, align }),
    {
        AllocationRequest { placement, size, align }
    }

    #[inline]
    pub fn placement(&self) -> (r: Placement)
        ensures
            r == self.placement,
    {
        self.placement
    }

    #[inline]
    pub fn size(&self) -> (r: u64)
        ensures
            r == self.size,
    {
        self.size
    }

    #[inline]
    pub fn align(&self) -> (r: u64)
        ensures
            r == self.align,
    {
        self.align
    }
}

/// The target memory of one image.
#[derive(Clone, Copy, Debug, PartialEq, Eq, Structural)]
pub struct ImageAllocation {
    pub id: AllocationId,
    pub base: TargetAddr,
    pub len: u64,
    pub align: u64,
    pub ownership: AllocationOwnership,
}

impl ImageAllocation {
    #[inline]
    pub fn new(base: TargetAddr, len: u64, align: u64) -> (r: Self)
        ensures
            r == (ImageAllocation {
                id: AllocationId(0),
                base,
                len,
                align,
                ownership: AllocationOwnership::Owned,
            }),
    {
        ImageAllocation::with_identity(
            AllocationId::new(0),
            base,
            len,
            align,
            AllocationOwnership::Owned,
        )
    }

    #[inline]
    pub fn with_identity(
        id: AllocationId,
        base: TargetAddr,
        len: u64,
        align: u64,
        ownership: AllocationOwnership,
    ) -> (r: Self)
        ensures
            r == (ImageAllocation { id, base, len, align, ownership }),
    {
        ImageAllocation { id, base, len, align, ownership }
    }

    #[inline]
    pub fn id(&self) -> (r: AllocationId)
        ensures
            r == self.id,
    {
        self.id
    }

    #[inline]
    pub fn base(&self) -> (r: TargetAddr)
        ensures
            r == self.base,
    {
        self.base
    }

    #[inline]
    pub fn len(&self) -> (r: u64)
        ensures
            r == self.len,
    {
        self.len
    }

    #[inline]
    pub fn is_empty(&self) -> (r: bool)
        ensures
            r == (self.len == 0),
    {
        self.len == 0
    }

    #[inline]
    pub fn align(&self) -> (r: u64)
        ensures
            r == self.align,
    {
        self.align
    }

    #[inline]
    pub fn ownership(&self) -> (r: AllocationOwnership)
        ensures
            r == self.ownership,
    {
        self.ownership
    }
}

/// The unique authority to abort or commit one image allocation.
///
/// A memory creates a lease together with the allocation it records. The lease
/// is never copied and is handed over exactly once: back to the memory on abort,
/// or into the committed owner.
#[must_use]
#[derive(Debug)]
pub struct AllocationLease {
    pub allocation: ImageAllocation,
}

impl AllocationLease {
    #[inline]
    pub fn new(allocation: ImageAllocation) -> (r: Self)
        ensures
            r.allocation == allocation,
    {
        AllocationLease { allocation }
    }

    #[inline]
    pub fn allocation(&self) -> (r: &ImageAllocation)
        ensures
            *r == self.allocation,
    {
        &self.allocation
    }
}

/// How far an image load has changed its memory.
#[derive(Clone, Copy, Debug, PartialEq, Eq, Structural, PartialOrd, Ord)]
pub enum MutationProgress {
    Reserved,
    BytesModified,
    ProtectionModified,
}

/// An offset into an image allocation.
#[derive(Clone, Copy, Debug, PartialEq, Eq, Structural, PartialOrd)]
pub struct AllocationOffset(pub u64);

/// The context of an access whose allocation is not known.
pub open spec fn unplaced_access(offset: u64, len: u64) -> ErrorContext {
    ErrorContext::MemoryAccess {
        allocation_base: TargetAddr(0),
        allocation_len: 0,
        allocation_align: 0,
        offset,
        len,
    }
}

fn unplaced(offset: u64, len: u64) -> (r: ErrorContext)
    ensures
        r == unplaced_access(offset, len),
{
    ErrorContext::MemoryAccess {
        allocation_base: TargetAddr::new(0),
        allocation_len: 0,
        allocation_align: 0,
        offset,
        len,
    }
}

impl AllocationOffset {
    pub open spec fn add_spec(self, value: u64) -> LoadResult<AllocationOffset> {
        if self.0 + value <= u64::MAX {
            Ok(AllocationOffset((self.0 + value) as u64))
        } else {
            Err(unclaimed(LoadErrorKind::IntegerOverflow, unplaced_access(self.0, value)))
        }
    }

    #[inline]
    pub fn new(offset: u64) -> (r: Self)
        ensures
            r == AllocationOffset(offset),
    {
        AllocationOffset(offset)
    }

    #[inline]
    pub fn value(&self) -> (r: u64)
        ensures
            r == self.0,
    {
        self.0
    }

    pub fn checked_add(self, value: u64) -> (r: LoadResult<Self>)
        ensures
            r == self.add_spec(value),
    {
        match self.0.checked_add(value) {
            Some(offset) => Ok(AllocationOffset(offset)),
            None => Err(LoadError::new(LoadErrorKind::IntegerOverflow, unplaced(self.0, value))),
        }
    }
}

/// A place in a named allocation.
#[derive(Clone, Copy, Debug, PartialEq, Eq, Structural)]
pub struct TargetLocation {
    pub allocation: AllocationId,
    pub offset: u64,
}

impl TargetLocation {
    pub open spec fn add_spec(self, value: u64) -> RangeResult<TargetLocation> {
        if self.offset + value <= u64::MAX {
            Ok(
                TargetLocation {
                    allocation: self.allocation,
                    offset: (self.offset + value) as u64,
                },
            )
        } else {
            Err(
                RangeError {
                    kind: LoadErrorKind::IntegerOverflow,
                    context: unplaced_access(self.offset, value),
                },
            )
        }
    }

    #[inline]
    pub fn new(allocation: AllocationId, offset: u64) -> (r: Self)
        ensures
            r == (TargetLocation { allocation, offset }),
    {
        TargetLocation { allocation, offset }
    }

    #[inline]
    pub fn allocation(self) -> (r: AllocationId)
        ensures
            r == self.allocation,
    {
        self.allocation
    }

    #[inline]
    pub fn offset(self) -> (r: u64)
        ensures
            r == self.offset,
    {
        self.offset
    }

    pub fn checked_add(self, value: u64) -> (r: RangeResult<Self>)
        ensures
            r == self.add_spec(value),
    {
        match self.offset.checked_add(value) {
            Some(offset) => Ok(TargetLocation { allocation: self.allocation, offset }),
            None => Err(
                RangeError::new(LoadErrorKind::IntegerOverflow, unplaced(self.offset, value)),
            ),
        }
    }
}

/// `content` with `data` in place of the bytes from `offset` on.
pub open spec fn overwritten(content: Seq<u8>, offset: int, data: Seq<u8>) -> Seq<u8> {
    Seq::new(
        content.len(),
        |i: int|
            if offset <= i < offset + data.len() {
                data[i - offset]
            } else {
                content[i]
            },
    )
}

/// `len` zero bytes.
pub open spec fn zeros(len: nat) -> Seq<u8> {
    Seq::new(len, |i: int| 0u8)
}

/// Whether there is an allocation, and every address of it exists.
pub open spec fn placed(allocation: Option<ImageAllocation>) -> bool {
    allocation matches Some(own) && own.base.0 + own.len <= u64::MAX
}

/// Whether an allocation has the addresses and the room that were asked for.
pub open spec fn meets(allocation: ImageAllocation, request: AllocationRequest) -> bool {
    &&& allocation.base.0 + allocation.len <= u64::MAX
    &&& allocation.len >= request.size || (request.placement matches Placement::Fixed(range)
        && allocation.len == range.len)
}

/// The bytes of an allocation, as specifications see them.
pub type ImageBytes = Seq<u8>;

/// The number of a memory, as specifications see it.
pub type MemoryNumber = int;

/// Memory for images. Reads and writes go to the image that was allocated last;
/// whether an earlier one stays beside it is up to the memory.
pub trait ImageMemory: Sized {
    /// The allocation that was made last.
    spec fn current(&self) -> Option<ImageAllocation>;

    /// The bytes of that allocation.
    spec fn content(&self) -> ImageBytes;

    /// Which memory this is. It stays the same whatever is allocated or written.
    spec fn source(&self) -> MemoryNumber;

    /// Whether every access within the content of an allocation succeeds, now and
    /// in later allocations, as long as its addresses exist.
    spec fn reliable(&self) -> bool;

    /// Whether the memory may give this answer to a request, and be as `after` then.
    spec fn allocates(
        &self,
        after: Self,
        request: AllocationRequest,
        answer: LoadResult<AllocationLease>,
    ) -> bool;

    /// Allocates or borrows the requested range. A failure leaves no allocation
    /// behind.
    fn allocate_image(&mut self, request: AllocationRequest) -> (r: LoadResult<AllocationLease>)
        ensures
            old(self).allocates(*final(self), request, r),
            match r {
                Ok(lease) => {
                    &&& final(self).current() == Some(lease.allocation)
                    &&& final(self).content().len() == lease.allocation.len
                    &&& meets(lease.allocation, request)
                    &&& old(self).reliable() ==> final(self).reliable()
                    &&& final(self).source() == old(self).source()
                },
                Err(error) => {
                    &&& final(self).current() == old(self).current()
                    &&& final(self).content() == old(self).content()
                    &&& error.stage is None || error.stage == Some(LoadStage::Allocate)
                },
            },
    ;

    /// Gives up an uncommitted image.
    fn abort_image(&mut self, allocation: AllocationLease, progress: MutationProgress)
        ensures
            final(self).current() is None,
    ;

    /// Releases a committed image whose owner ended its lifetime.
    fn release_committed(&mut self, allocation: AllocationLease)
        ensures
            final(self).current() is None,
    ;

    fn allocation(&self) -> (r: LoadResult<ImageAllocation>)
        ensures
            r matches Ok(allocation) ==> self.current() == Some(allocation),
    ;

    /// The address of the `len` bytes from `offset` on, if they lie in the
    /// allocation.
    fn image_span(&self, offset: AllocationOffset, len: u64) -> (r: LoadResult<TargetAddr>)
        ensures
            r matches Ok(address) ==> {
                &&& self.current() is Some
                &&& offset.0 + len <= self.content().len()
                &&& address.0 == self.current()->0.base.0 + offset.0
            },
            self.reliable() && placed(self.current()) && offset.0 + len <= self.content().len()
                ==> r is Ok,
    ;

    /// Whether the `len` bytes from `offset` on may be accessed as `permissions`
    /// says. Which stage a failed access belongs to is for the caller to say.
    fn validate_access(
        &self,
        offset: AllocationOffset,
        len: u64,
        permissions: MemoryPermissions,
    ) -> (r: LoadResult<()>)
        ensures
            r is Ok ==> offset.0 + len <= self.content().len(),
            r matches Err(error) ==> error.stage is None,
            self.reliable() && placed(self.current()) && offset.0 + len <= self.content().len()
                ==> r is Ok,
    ;

    fn write(&mut self, offset: AllocationOffset, data: &[u8]) -> (r: LoadResult<()>)
        ensures
            final(self).current() == old(self).current(),
            final(self).content().len() == old(self).content().len(),
            old(self).reliable() ==> final(self).reliable(),
            final(self).source() == old(self).source(),
            old(self).reliable() && placed(old(self).current()) && offset.0 + data@.len()
                <= old(self).content().len() ==> r is Ok,
            r is Ok ==> offset.0 + data@.len() <= old(self).content().len(),
            r matches Err(error) ==> error.stage is None,
            r is Ok ==> final(self).content() == overwritten(
                old(self).content(),
                offset.0 as int,
                data@,
            ),
    ;

    fn zero(&mut self, offset: AllocationOffset, len: u64) -> (r: LoadResult<()>)
        ensures
            final(self).current() == old(self).current(),
            final(self).content().len() == old(self).content().len(),
            old(self).reliable() ==> final(self).reliable(),
            final(self).source() == old(self).source(),
            old(self).reliable() && placed(old(self).current()) && offset.0 + len
                <= old(self).content().len() ==> r is Ok,
            r is Ok ==> offset.0 + len <= old(self).content().len(),
            r matches Err(error) ==> error.stage is None,
            r is Ok ==> final(self).content() == overwritten(
                old(self).content(),
                offset.0 as int,
                zeros(len as nat),
            ),
    ;

    fn read(&self, offset: AllocationOffset, count: usize) -> (r: LoadResult<Vec<u8>>)
        ensures
            r matches Ok(data) ==> {
                &&& offset.0 + count <= self.content().len()
                &&& data@ == self.content().subrange(offset.0 as int, offset.0 + count)
            },
            self.reliable() && placed(self.current()) && offset.0 + count <= self.content().len()
                ==> r is Ok,
    ;
}

/// Whether memory holds all of an image, at addresses that exist, and every access
/// within it succeeds.
pub open spec fn ready<M: ImageMemory>(memory: M) -> bool {
    &&& memory.reliable()
    &&& placed(memory.current())
    &&& memory.content().len() == (memory.current()->0).len
}

/// What is read where something was written is what was written.
pub proof fn write_read_back(content: Seq<u8>, offset: int, data: Seq<u8>)
    requires
        0 <= offset,
        offset + data.len() <= content.len(),
    ensures
        overwritten(content, offset, data).len() == content.len(),
        overwritten(content, offset, data).subrange(offset, offset + data.len()) == data,
{
    assert(overwritten(content, offset, data).subrange(offset, offset + data.len()) =~= data);
}

/// Writing leaves every byte outside the written range as it was.
pub proof fn write_stays_in_range(content: Seq<u8>, offset: int, data: Seq<u8>, other: int, len: int)
    requires
        0 <= offset,
        offset + data.len() <= content.len(),
        0 <= other,
        0 <= len,
        other + len <= content.len(),
        other + len <= offset || offset + data.len() <= other,
    ensures
        overwritten(content, offset, data).subrange(other, other + len) == content.subrange(
            other,
            other + len,
        ),
{
    assert(overwritten(content, offset, data).subrange(other, other + len) =~= content.subrange(
        other,
        other + len,
    ));
}

/// The progress of a load whose bytes are written.
pub open spec fn bytes_modified(progress: MutationProgress) -> MutationProgress {
    if progress == MutationProgress::Reserved {
        MutationProgress::BytesModified
    } else {
        progress
    }
}

/// An image load between its allocation and its commit.
pub struct ImageLoadTransaction<M> {
    pub memory: M,
    pub pending: Option<AllocationLease>,
    pub progress: MutationProgress,
}

impl<M: ImageMemory> ImageLoadTransaction<M> {
    /// Whether the transaction still owns its lease.
    pub open spec fn active(self) -> bool {
        self.pending is Some
    }

    #[inline]
    pub fn new(memory: M, lease: AllocationLease) -> (r: Self)
        ensures
            r == (ImageLoadTransaction {
                memory,
                pending: Some(lease),
                progress: MutationProgress::Reserved,
            }),
    {
        ImageLoadTransaction {
            memory,
            pending: Some(lease),
            progress: MutationProgress::Reserved,
        }
    }

    #[inline]
    pub fn allocation(&self) -> (r: &ImageAllocation)
        requires
            self.active(),
        ensures
            *r == self.pending->0.allocation,
    {
        match &self.pending {
            Some(lease) => lease.allocation(),
            None => vstd::pervasive::unreached(),
        }
    }

    #[inline]
    pub fn memory(&self) -> (r: &M)
        ensures
            *r == self.memory,
    {
        &self.memory
    }

    #[inline]
    pub fn mark_bytes_modified(&mut self)
        ensures
            *final(self) == (ImageLoadTransaction {
                progress: bytes_modified(old(self).progress),
                ..*old(self)
            }),
    {
        if self.progress == MutationProgress::Reserved {
            self.progress = MutationProgress::BytesModified;
        }
    }

    #[inline]
    pub fn mark_protection_modified(&mut self)
        ensures
            *final(self) == (ImageLoadTransaction {
                progress: MutationProgress::ProtectionModified,
                ..*old(self)
            }),
    {
        self.progress = MutationProgress::ProtectionModified;
    }

    #[inline]
    pub fn take_lease(&mut self) -> (r: AllocationLease)
        requires
            old(self).active(),
        ensures
            Some(r) == old(self).pending,
            *final(self) == (ImageLoadTransaction { pending: None, ..*old(self) }),
    {
        match self.pending.take() {
            Some(lease) => lease,
            None => vstd::pervasive::unreached(),
        }
    }

    /// Ends the transaction. An image that was not committed is given up.
    pub fn finish(self) -> (r: M)
        ensures
            self.active() ==> r.current() is None,
            !self.active() ==> r == self.memory,
    {
        let mut memory = self.memory;
        match self.pending {
            Some(lease) => {
                memory.abort_image(lease, self.progress);
            },
            None => {},
        }
        memory
    }
}

} // verus!
