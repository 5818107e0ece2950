//! The memory of a loaded program: allocated storage or fixed regions.

use crate::address::{TargetAddr, TargetRange};
use crate::arith::{
    ceil_to, is_power_of_two, lemma_ceil_to, lemma_power_of_two_positive, power_of_two,
};
use crate::bytes::{copy_bytes, copy_range};
use crate::error::{
    claim_at, failure, unclaimed, ErrorContext, LoadError, LoadErrorKind, LoadResult, LoadStage,
};
use crate::image::protection::{
    unprotectable, ImageProtectionMemory, PreparedProtectionPlan, ProtectionBehavior,
    ProtectionCapabilities, ProtectionLevel,
};
use crate::memory::{
    overwritten, zeros, AllocationId, AllocationLease, AllocationOffset, AllocationOwnership,
    AllocationRequest, ImageAllocation, ImageMemory, MutationProgress, Placement,
};
use crate::permissions::MemoryPermissions;
use vstd::prelude::*;

verus! {

pub type Result<T> = core::result::Result<T, &'static str>;

/// Whether a result is the failure with this message.
pub open spec fn failed_with<T>(r: Result<T>, message: Seq<char>) -> bool {
    r matches Err(found) && found@ == message
}

/// A range of machine addresses that a program may use.
#[derive(Clone, Copy, Debug, PartialEq, Eq, Structural)]
pub struct MemoryRegion {
    pub start: usize,
    pub end: usize,
    pub permissions: MemoryPermissions,
}

impl MemoryRegion {
    /// Whether the region holds `size` bytes from `start` on and allows
    /// `requested`.
    pub open spec fn allows(self, start: usize, size: usize, requested: MemoryPermissions) -> bool {
        &&& self.start < self.end
        &&& self.start <= start
        &&& start + size <= self.end
        &&& self.permissions.covers(requested)
    }

    /// Authorizes a fixed address range. The caller vouches for the range being
    /// mapped, with these permissions, for as long as a mapper uses it.
    pub fn new(start: usize, end: usize, permissions: MemoryPermissions) -> (r: Self)
        ensures
            r == (MemoryRegion { start, end, permissions }),
    {
        MemoryRegion { start, end, permissions }
    }
}

/// Where a mapper takes its memory from.
pub enum MappingMode {
    Allocated,
    Fixed(Vec<MemoryRegion>),
}

/// Which mode a mapper is in.
#[derive(Clone, Copy, Debug, PartialEq, Eq, Structural)]
pub enum MappingModeKind {
    Allocated,
    Fixed,
}

/// Bytes that belong at a fixed address.
pub struct FixedWrite {
    pub address: u64,
    pub bytes: Vec<u8>,
}

/// The memory of one program.
///
/// In allocated mode the image lies in storage of the mapper. In fixed mode it
/// lies in regions that the mapper does not own: the mapper keeps a copy of the
/// image and the list of the writes that make it up. What the regions held before
/// is what the mapper was told of them; a byte that it was told nothing of, and that
/// nothing wrote, is zero in the copy.
pub struct MemoryMapper {
    pub virtual_entry: usize,
    pub virtual_start: usize,
    pub virtual_end: usize,
    pub storage: Vec<u8>,
    pub skipped: usize,
    pub mode: MappingMode,
    pub allocation: Option<ImageAllocation>,
    pub writes: Vec<FixedWrite>,
    /// What the fixed regions held before.
    pub held: Vec<FixedWrite>,
    pub poisoned: bool,
}

/// The byte at an address after the first `k` entries of a list were written, each
/// over those before, to memory that held `otherwise` there.
pub open spec fn byte_at(log: Seq<FixedWrite>, k: int, address: int, otherwise: u8) -> u8
    decreases k,
{
    if k <= 0 {
        otherwise
    } else if log[k - 1].address <= address < log[k - 1].address + log[k - 1].bytes@.len() {
        log[k - 1].bytes@[address - log[k - 1].address]
    } else {
        byte_at(log, k - 1, address, otherwise)
    }
}

/// Writes the entries of a list over the bytes from `start` on.
fn overlay(bytes: &mut Vec<u8>, start: u64, log: &Vec<FixedWrite>)
    requires
        start + old(bytes)@.len() <= u64::MAX,
    ensures
        final(bytes)@ == Seq::new(
            old(bytes)@.len(),
            |i: int| byte_at(log@, log@.len() as int, start + i, old(bytes)@[i]),
        ),
{
    let ghost before = bytes@;
    let mut k: usize = 0;
    while k < log.len()
        invariant
            k <= log@.len(),
            start + before.len() <= u64::MAX,
            bytes@.len() == before.len(),
            forall|i: int|
                0 <= i < before.len() ==> #[trigger] bytes@[i] == byte_at(
                    log@,
                    k as int,
                    start + i,
                    before[i],
                ),
        decreases log@.len() - k,
    {
        let from: u64 = log[k].address;
        let mut at: usize = 0;
        while at < bytes.len()
            invariant
                k < log@.len(),
                from == log@[k as int].address,
                start + before.len() <= u64::MAX,
                at <= bytes@.len() == before.len(),
                forall|i: int|
                    0 <= i < at ==> #[trigger] bytes@[i] == byte_at(
                        log@,
                        k + 1,
                        start + i,
                        before[i],
                    ),
                forall|i: int|
                    at <= i < before.len() ==> #[trigger] bytes@[i] == byte_at(
                        log@,
                        k as int,
                        start + i,
                        before[i],
                    ),
            decreases bytes@.len() - at,
        {
            let address: u64 = start + at as u64;
            if address >= from && address - from < log[k].bytes.len() as u64 {
                let value: u8 = log[k].bytes[(address - from) as usize];
                bytes.set(at, value);
            }
            at = at + 1;
        }
        k = k + 1;
    }
    assert(bytes@ =~= Seq::new(
        before.len(),
        |i: int| byte_at(log@, log@.len() as int, start + i, before[i]),
    ));
}

/// Whether some region allows an access.
pub open spec fn authorized(
    regions: Seq<MemoryRegion>,
    start: usize,
    size: usize,
    requested: MemoryPermissions,
) -> bool {
    exists|i: int| 0 <= i < regions.len() && (#[trigger] regions[i]).allows(start, size, requested)
}

impl MemoryMapper {
    /// Whether the storage holds all of the allocation.
    pub open spec fn backed(&self) -> bool {
        self.allocation matches Some(allocation) && self.skipped + allocation.len
            <= self.storage@.len()
    }

    /// The bytes of the image.
    pub open spec fn image(&self) -> Seq<u8> {
        if self.backed() {
            self.storage@.subrange(
                self.skipped as int,
                self.skipped + (self.allocation->0).len,
            )
        } else {
            Seq::empty()
        }
    }

    /// The failure of an access outside the allocation.
    pub open spec fn access_fault(&self, offset: AllocationOffset, len: u64) -> LoadError {
        match self.allocation {
            Some(allocation) => unclaimed(
                LoadErrorKind::Backend,
                ErrorContext::MemoryAccess {
                    allocation_base: allocation.base,
                    allocation_len: allocation.len,
                    allocation_align: allocation.align,
                    offset: offset.0,
                    len,
                },
            ),
            None => unclaimed(
                LoadErrorKind::NotAllocated,
                ErrorContext::Allocation { base: TargetAddr(0), len: 0, align: 0 },
            ),
        }
    }

    /// Whether an access lies in the image and its address exists.
    pub open spec fn reachable(&self, offset: AllocationOffset, len: u64) -> bool {
        self.backed() && offset.0 + len <= (self.allocation->0).len
            && (self.allocation->0).base.0 + offset.0 <= u64::MAX
    }

    #[inline]
    pub fn new(regions: Option<Vec<MemoryRegion>>) -> (r: Self)
        ensures
            r.virtual_entry == 0,
            r.virtual_start == usize::MAX,
            r.virtual_end == 0,
            r.storage@.len() == 0,
            r.allocation is None,
            r.writes@.len() == 0,
            r.held@.len() == 0,
            !r.poisoned,
            match regions {
                Some(regions) => r.mode == MappingMode::Fixed(regions),
                None => r.mode is Allocated,
            },
    {
        MemoryMapper {
            virtual_entry: 0,
            virtual_start: usize::MAX,
            virtual_end: 0,
            storage: Vec::new(),
            skipped: 0,
            mode: match regions {
                Some(regions) => MappingMode::Fixed(regions),
                None => MappingMode::Allocated,
            },
            allocation: None,
            writes: Vec::new(),
            held: Vec::new(),
            poisoned: false,
        }
    }

    #[inline]
    pub fn mapping_mode(&self) -> (r: &MappingMode)
        ensures
            *r == self.mode,
    {
        &self.mode
    }

    pub fn mode_kind(&self) -> (r: MappingModeKind)
        ensures
            r == (if self.mode is Allocated {
                MappingModeKind::Allocated
            } else {
                MappingModeKind::Fixed
            }),
    {
        match &self.mode {
            MappingMode::Allocated => MappingModeKind::Allocated,
            MappingMode::Fixed(_) => MappingModeKind::Fixed,
        }
    }

    /// Whether a position-independent image can be loaded.
    pub fn can_load_dynamic_image(&self) -> (r: bool)
        ensures
            r == (self.mode is Allocated),
    {
        match &self.mode {
            MappingMode::Allocated => true,
            MappingMode::Fixed(_) => false,
        }
    }

    /// The writes that put the image into its fixed regions, in order.
    pub fn fixed_writes(&self) -> (r: &Vec<FixedWrite>)
        ensures
            *r == self.writes,
    {
        &self.writes
    }

    /// What fixed regions hold from `start` on: what was written there, over what they
    /// held before.
    pub open spec fn region_content(&self, start: int, len: nat) -> Seq<u8> {
        Seq::new(
            len,
            |i: int|
                byte_at(
                    self.writes@,
                    self.writes@.len() as int,
                    start + i,
                    byte_at(self.held@, self.held@.len() as int, start + i, 0),
                ),
        )
    }

    /// Tells the mapper what fixed memory held before anything was written.
    pub fn hold(&mut self, address: u64, bytes: Vec<u8>)
        ensures
            final(self).held@ == old(self).held@.push(FixedWrite { address, bytes }),
            *final(self) == (MemoryMapper { held: final(self).held, ..*old(self) }),
    {
        self.held.push(FixedWrite { address, bytes });
    }

    /// What fixed regions hold.
    pub fn region_bytes(&self, start: u64, len: usize) -> (r: Vec<u8>)
        requires
            start + len <= u64::MAX,
        ensures
            r@ == self.region_content(start as int, len as nat),
    {
        let mut bytes: Vec<u8> = Vec::new();
        bytes.resize(len, 0);
        overlay(&mut bytes, start, &self.held);
        overlay(&mut bytes, start, &self.writes);
        assert(bytes@ =~= self.region_content(start as int, len as nat));
        bytes
    }

    /// The first byte of the image that was written.
    pub fn update_start(&mut self, start: usize)
        ensures
            *final(self) == (MemoryMapper {
                virtual_start: if start < old(self).virtual_start {
                    start
                } else {
                    old(self).virtual_start
                },
                ..*old(self)
            }),
    {
        if start < self.virtual_start {
            self.virtual_start = start;
        }
    }

    /// The byte behind the image.
    pub fn update_end(&mut self, end: usize)
        ensures
            *final(self) == (MemoryMapper {
                virtual_end: if end > old(self).virtual_end {
                    end
                } else {
                    old(self).virtual_end
                },
                ..*old(self)
            }),
    {
        if end > self.virtual_end {
            self.virtual_end = end;
        }
    }

    pub fn set_entry(&mut self, entry: usize)
        ensures
            *final(self) == (MemoryMapper { virtual_entry: entry, ..*old(self) }),
    {
        self.virtual_entry = entry;
    }

    /// Takes over the addresses of an image that was loaded into the storage.
    pub fn install_loaded_image(&mut self, load_bias: TargetAddr, runtime_entry: TargetAddr) -> (r:
        LoadResult<()>)
        ensures
            match install_spec(old(self).allocation, load_bias, runtime_entry) {
                Ok((start, end, entry)) => r is Ok && *final(self) == (MemoryMapper {
                    virtual_start: start as usize,
                    virtual_end: end as usize,
                    virtual_entry: entry as usize,
                    ..*old(self)
                }),
                Err(error) => r == Err::<(), LoadError>(error) && *final(self) == partly_installed(
                    *old(self),
                    load_bias,
                    runtime_entry,
                ),
            },
    {
        let allocation: ImageAllocation = self.allocation()?;
        let virtual_start: u64 = match allocation.base().checked_sub(load_bias) {
            Ok(start) => start,
            Err(error) => return Err(error.unstaged()),
        };
        let virtual_end: u64 = match TargetAddr::new(virtual_start).checked_add(allocation.len()) {
            Ok(end) => end.get(),
            Err(error) => return Err(error.unstaged()),
        };
        let virtual_entry: u64 = match runtime_entry.checked_sub(load_bias) {
            Ok(entry) => entry,
            Err(error) => return Err(error.unstaged()),
        };
        if virtual_start > usize::MAX as u64 {
            return Err(compatibility_install_error(allocation));
        }
        self.virtual_start = virtual_start as usize;
        if virtual_end > usize::MAX as u64 {
            return Err(compatibility_install_error(allocation));
        }
        self.virtual_end = virtual_end as usize;
        if virtual_entry > usize::MAX as u64 {
            return Err(compatibility_install_error(allocation));
        }
        self.virtual_entry = virtual_entry as usize;
        Ok(())
    }

    #[inline]
    pub fn entry(&self) -> (r: usize)
        ensures
            r == self.virtual_entry,
    {
        self.virtual_entry
    }

    /// The machine address of the entry.
    pub fn real_entry(&self) -> (r: Result<usize>)
        ensures
            match self.mode {
                MappingMode::Allocated => is_real_address(*self, self.virtual_entry, r),
                MappingMode::Fixed(regions) => if authorized(
                    regions@,
                    self.virtual_entry,
                    1,
                    MemoryPermissions::spec_execute(),
                ) {
                    r == Ok::<usize, &'static str>(self.virtual_entry)
                } else {
                    failed_with(r, "Address span is outside authorized regions"@)
                },
            },
    {
        match &self.mode {
            MappingMode::Allocated => self.inner_real_address(self.virtual_entry),
            MappingMode::Fixed(_) => {
                self.validate_fixed_span(self.virtual_entry, 1, MemoryPermissions::execute())?;
                Ok(self.virtual_entry)
            },
        }
    }

    /// Checks an access against the fixed regions.
    pub fn validate_fixed_span(&self, start: usize, size: usize, requested: MemoryPermissions) -> (r:
        Result<()>)
        ensures
            match self.mode {
                MappingMode::Allocated => failed_with(r, "Fixed span requires a fixed mapper"@),
                MappingMode::Fixed(regions) => if authorized(regions@, start, size, requested) {
                    r is Ok
                } else {
                    failed_with(r, "Address span is outside authorized regions"@)
                },
            },
    {
        let regions: &Vec<MemoryRegion> = match &self.mode {
            MappingMode::Fixed(regions) => regions,
            MappingMode::Allocated => return Err("Fixed span requires a fixed mapper"),
        };
        let mut index: usize = 0;
        while index < regions.len()
            invariant
                index <= regions@.len(),
                self.mode == MappingMode::Fixed(*regions),
                forall|i: int|
                    0 <= i < index ==> !(#[trigger] regions@[i]).allows(start, size, requested),
            decreases regions@.len() - index,
        {
            let region = regions[index];
            if region.start < region.end && start >= region.start && start <= region.end && size
                <= region.end - start && region.permissions.contains(requested) {
                assert(regions@[index as int].allows(start, size, requested));
                return Ok(());
            }
            index = index + 1;
        }
        Err("Address span is outside authorized regions")
    }

    fn inner_real_offset(&self, vaddr: usize) -> (r: Result<usize>)
        ensures
            if self.virtual_start <= vaddr < self.virtual_end {
                r == Ok::<usize, &'static str>((vaddr - self.virtual_start) as usize)
            } else {
                failed_with(r, "The virtual address is in an illegal memory region"@)
            },
    {
        if vaddr < self.virtual_start || vaddr >= self.virtual_end {
            return Err("The virtual address is in an illegal memory region");
        }
        Ok(vaddr - self.virtual_start)
    }

    fn inner_real_address(&self, vaddr: usize) -> (r: Result<usize>)
        requires
            self.mode is Allocated,
        ensures
            is_real_address(*self, vaddr, r),
    {
        let offset: usize = self.inner_real_offset(vaddr)?;
        match &self.allocation {
            Some(allocation) => {
                if offset as u64 >= allocation.len() {
                    return Err("The offset is beyond the allocated memory region");
                }
                match allocation.base().checked_add(offset as u64) {
                    Ok(address) => {
                        if address.get() <= usize::MAX as u64 {
                            Ok(address.get() as usize)
                        } else {
                            Err("Memory not allocated yet")
                        }
                    },
                    Err(_) => Err("Memory not allocated yet"),
                }
            },
            None => Err("The offset is beyond the allocated memory region"),
        }
    }

    /// Writes bytes to a fixed address.
    pub fn write_slice_at(&mut self, vaddr: usize, data: &[u8]) -> (r: Result<()>)
        ensures
            match old(self).mode {
                MappingMode::Allocated => failed_with(r, "Fixed span requires a fixed mapper"@)
                    && *final(self) == *old(self),
                MappingMode::Fixed(regions) => if data@.len() <= usize::MAX && authorized(
                    regions@,
                    vaddr,
                    data@.len() as usize,
                    MemoryPermissions::spec_write(),
                ) {
                    &&& r is Ok
                    &&& final(self).writes@.len() == old(self).writes@.len() + 1
                    &&& final(self).writes@.drop_last() == old(self).writes@
                    &&& final(self).writes@.last().address == vaddr
                    &&& final(self).writes@.last().bytes@ == data@
                    &&& *final(self) == (MemoryMapper {
                        writes: final(self).writes,
                        ..*old(self)
                    })
                } else {
                    failed_with(r, "Address span is outside authorized regions"@) && *final(self)
                        == *old(self)
                },
            },
    {
        self.validate_fixed_span(vaddr, data.len(), MemoryPermissions::write())?;
        let write = FixedWrite { address: vaddr as u64, bytes: copy_bytes(data) };
        self.writes.push(write);
        assert(self.writes@.drop_last() =~= old(self).writes@);
        Ok(())
    }

    fn note_fixed_write(&mut self, offset: u64, data: &[u8])
        requires
            old(self).allocation is Some,
            (old(self).allocation->0).base.0 + offset <= u64::MAX,
        ensures
            *final(self) == (MemoryMapper { writes: final(self).writes, ..*old(self) }),
            match old(self).mode {
                MappingMode::Allocated => final(self).writes@ == old(self).writes@,
                MappingMode::Fixed(_) => final(self).writes@.len() == old(self).writes@.len() + 1
                    && final(self).writes@.drop_last() == old(self).writes@
                    && final(self).writes@.last().address == (old(self).allocation->0).base.0
                    + offset && final(self).writes@.last().bytes@ == data@,
            },
    {
        let fixed: bool = match &self.mode {
            MappingMode::Allocated => false,
            MappingMode::Fixed(_) => true,
        };
        if fixed {
            let base: u64 = match &self.allocation {
                Some(allocation) => allocation.base().get(),
                None => 0,
            };
            let write = FixedWrite { address: base + offset, bytes: copy_bytes(data) };
            self.writes.push(write);
            assert(self.writes@.drop_last() =~= old(self).writes@);
        }
    }

    fn store(&mut self, offset: AllocationOffset, data: &[u8]) -> (r: LoadResult<()>)
        ensures
            final(self).allocation == old(self).allocation,
            final(self).mode == old(self).mode,
            final(self).backed() == old(self).backed(),
            old(self).reachable(offset, data@.len() as u64) && data@.len() <= u64::MAX ==> r is Ok
                && final(self).image() == overwritten(old(self).image(), offset.0 as int, data@),
            !(old(self).reachable(offset, data@.len() as u64) && data@.len() <= u64::MAX) ==> r
                == Err::<(), LoadError>(old(self).access_fault(offset, data@.len() as u64))
                && *final(self) == *old(self),
    {
        self.image_span(offset, data.len() as u64)?;
        let size: usize = self.storage.len();
        let start: usize = self.skipped + offset.value() as usize;
        let ghost before = self.storage@;
        let mut index: usize = 0;
        while index < data.len()
            invariant
                index <= data@.len(),
                start == old(self).skipped + offset.0,
                old(self).reachable(offset, data@.len() as u64),
                start + data@.len() <= before.len() == size,
                before == old(self).storage@,
                self.storage@.len() == before.len(),
                *self == (MemoryMapper { storage: self.storage, ..*old(self) }),
                forall|i: int|
                    0 <= i < before.len() ==> (#[trigger] self.storage@[i]) == (if start <= i
                        < start + index {
                        data@[i - start]
                    } else {
                        before[i]
                    }),
            decreases data@.len() - index,
        {
            self.storage.set(start + index, data[index]);
            index = index + 1;
        }
        proof {
            assert(self.image() =~= overwritten(old(self).image(), offset.0 as int, data@));
        }
        let ghost stored = self.image();
        self.note_fixed_write(offset.value(), data);
        assert(self.image() == stored);
        Ok(())
    }
}

/// What a mapper takes over from a loaded image: the linked start, end and entry.
pub open spec fn install_spec(
    allocation: Option<ImageAllocation>,
    load_bias: TargetAddr,
    runtime_entry: TargetAddr,
) -> LoadResult<(u64, u64, u64)> {
    match allocation {
        None => Err(
            unclaimed(
                LoadErrorKind::NotAllocated,
                ErrorContext::Allocation { base: TargetAddr(0), len: 0, align: 0 },
            ),
        ),
        Some(allocation) => match allocation.base.sub_spec(load_bias) {
            Err(error) => Err(error.unstaged_spec()),
            Ok(start) => match TargetAddr(start).add_spec(allocation.len) {
                Err(error) => Err(error.unstaged_spec()),
                Ok(end) => match runtime_entry.sub_spec(load_bias) {
                    Err(error) => Err(error.unstaged_spec()),
                    Ok(entry) => if start > usize::MAX || end.0 > usize::MAX || entry
                        > usize::MAX {
                        Err(
                            unclaimed(
                                LoadErrorKind::Backend,
                                ErrorContext::Allocation {
                                    base: allocation.base,
                                    len: allocation.len,
                                    align: allocation.align,
                                },
                            ),
                        )
                    } else {
                        Ok((start, end.0, entry))
                    },
                },
            },
        },
    }
}

/// The mapper after an image was refused: the linked start and end are taken over as
/// far as they are known and fit the machine.
pub open spec fn partly_installed(
    mapper: MemoryMapper,
    load_bias: TargetAddr,
    runtime_entry: TargetAddr,
) -> MemoryMapper {
    match mapper.allocation {
        None => mapper,
        Some(allocation) => match allocation.base.sub_spec(load_bias) {
            Err(_) => mapper,
            Ok(start) => match TargetAddr(start).add_spec(allocation.len) {
                Err(_) => mapper,
                Ok(end) => if runtime_entry.sub_spec(load_bias) is Err || start > usize::MAX {
                    mapper
                } else if end.0 > usize::MAX {
                    MemoryMapper { virtual_start: start as usize, ..mapper }
                } else {
                    MemoryMapper {
                        virtual_start: start as usize,
                        virtual_end: end.0 as usize,
                        ..mapper
                    }
                },
            },
        },
    }
}

/// Whether `r` is the machine address of a virtual address in allocated storage.
pub open spec fn is_real_address(mapper: MemoryMapper, vaddr: usize, r: Result<usize>) -> bool {
    let offset = vaddr - mapper.virtual_start;
    if !(mapper.virtual_start <= vaddr < mapper.virtual_end) {
        failed_with(r, "The virtual address is in an illegal memory region"@)
    } else if mapper.allocation is None || offset >= (mapper.allocation->0).len {
        failed_with(r, "The offset is beyond the allocated memory region"@)
    } else if (mapper.allocation->0).base.0 + offset > usize::MAX {
        failed_with(r, "Memory not allocated yet"@)
    } else {
        r == Ok::<usize, &'static str>(((mapper.allocation->0).base.0 + offset) as usize)
    }
}

/// The address at which the bytes of a vector start, as `Vec::as_ptr` gives it.
/// It is what the allocator chose, so nothing is claimed of it; it stays the same
/// as long as the vector is not resized.
#[verifier::external_body]
fn storage_address(storage: &Vec<u8>) -> u64 {
    storage.as_ptr() as usize as u64
}

/// The failure of a request that the mapper cannot serve.
pub open spec fn unservable(request: AllocationRequest) -> LoadError {
    unclaimed(
        LoadErrorKind::Backend,
        ErrorContext::Allocation {
            base: TargetAddr(0),
            len: request.size,
            align: request.align,
        },
    )
}

fn allocation_error(request: &AllocationRequest) -> (r: LoadError)
    ensures
        r == unservable(*request),
{
    LoadError::new(
        LoadErrorKind::Backend,
        ErrorContext::Allocation {
            base: TargetAddr::new(0),
            len: request.size(),
            align: request.align(),
        },
    )
}

fn compatibility_install_error(allocation: ImageAllocation) -> (r: LoadError)
    ensures
        r == unclaimed(
            LoadErrorKind::Backend,
            ErrorContext::Allocation {
                base: allocation.base,
                len: allocation.len,
                align: allocation.align,
            },
        ),
{
    LoadError::new(
        LoadErrorKind::Backend,
        ErrorContext::Allocation {
            base: allocation.base(),
            len: allocation.len(),
            align: allocation.align(),
        },
    )
}

/// Whether a request can be served from storage of the mapper.
pub open spec fn storable(request: AllocationRequest) -> bool {
    &&& request.size > 0
    &&& power_of_two(request.align as int)
    &&& request.size + request.align - 1 <= isize::MAX
}

/// Whether a mapper accepts a request. Memory may still run out.
pub open spec fn accepts(mapper: MemoryMapper, request: AllocationRequest) -> bool {
    match (mapper.mode, request.placement) {
        (MappingMode::Allocated, Placement::Anywhere) => mapper.storage@.len() == 0
            && mapper.allocation is None && storable(request),
        (MappingMode::Fixed(regions), Placement::Fixed(range)) => mapper.allocation is None
            && !mapper.poisoned && range.start.0 <= usize::MAX && range.len <= usize::MAX
            && authorized(
            regions@,
            range.start.0 as usize,
            range.len as usize,
            MemoryPermissions::spec_none(),
        ),
        _ => false,
    }
}

/// Where an image of `size` bytes lies in storage at `address`: at the first multiple
/// of `align`, if the image ends within the address space.
pub open spec fn base_spec(address: u64, size: usize, align: usize) -> Option<u64> {
    if address + align - 1 <= u64::MAX && ceil_to(address as int, align as int) + size <= u64::MAX {
        Some(ceil_to(address as int, align as int) as u64)
    } else {
        None
    }
}

/// Finds the place of an image in storage at `address`.
pub fn image_base(address: u64, size: usize, align: usize) -> (r: Option<u64>)
    requires
        power_of_two(align as int),
    ensures
        r == base_spec(address, size, align),
{
    proof {
        lemma_power_of_two_positive(align as int);
        lemma_ceil_to(address as int, align as int);
    }
    let base: TargetAddr = match TargetAddr::new(address).align_up(align as u64) {
        Ok(base) => base,
        Err(_) => return None,
    };
    if base.checked_add(size as u64).is_err() {
        return None;
    }
    Some(base.get())
}

/// The failure of a request for which there is no memory.
pub open spec fn exhausted(request: AllocationRequest) -> LoadError {
    unclaimed(
        LoadErrorKind::OutOfMemory,
        ErrorContext::Allocation {
            base: TargetAddr(0),
            len: request.size,
            align: request.align,
        },
    )
}

fn exhausted_error(request: &AllocationRequest) -> (r: LoadError)
    ensures
        r == exhausted(*request),
{
    LoadError::new(
        LoadErrorKind::OutOfMemory,
        ErrorContext::Allocation {
            base: TargetAddr::new(0),
            len: request.size(),
            align: request.align(),
        },
    )
}

/// Makes storage of this many bytes, all zero, and tells its address. There is none
/// where the allocator has no memory; it decides on the address, too.
fn zeroed_storage(total: usize) -> (r: Option<(Vec<u8>, u64)>)
    ensures
        r matches Some((storage, address)) ==> storage@ == zeros(total as nat),
{
    let mut storage: Vec<u8> = Vec::new();
    if storage.try_reserve(total).is_err() {
        return None;
    }
    storage.resize(total, 0);
    assert(storage@ =~= zeros(total as nat));
    let address: u64 = storage_address(&storage);
    Some((storage, address))
}

/// What comes of a request for storage of the mapper, given what the allocator
/// answered: the storage and its address.
pub open spec fn adopted(
    mapper: MemoryMapper,
    request: AllocationRequest,
    reserved: Option<(Vec<u8>, u64)>,
) -> LoadResult<(usize, ImageAllocation)> {
    if !(request.placement is Anywhere) || !accepts(mapper, request) {
        Err(unservable(request))
    } else {
        match reserved {
            Some((storage, address)) => match base_spec(
                address,
                request.size as usize,
                request.align as usize,
            ) {
                Some(base) => Ok(
                    (
                        (base - address) as usize,
                        ImageAllocation {
                            id: AllocationId(0),
                            base: TargetAddr(base),
                            len: request.size,
                            align: request.align,
                            ownership: AllocationOwnership::Owned,
                        },
                    ),
                ),
                None => Err(exhausted(request)),
            },
            None => Err(exhausted(request)),
        }
    }
}

impl MemoryMapper {
    /// How much storage a request needs that the mapper serves from storage of its own.
    pub fn storage_needed(&self, request: &AllocationRequest) -> (r: Option<usize>)
        ensures
            r == (if request.placement is Anywhere && accepts(*self, *request) {
                Some((request.size + request.align - 1) as usize)
            } else {
                None
            }),
    {
        match request.placement() {
            Placement::Anywhere => {},
            Placement::Fixed(_) => return None,
        }
        if !self.can_load_dynamic_image() || self.storage.len() > 0 || self.allocation.is_some() {
            return None;
        }
        if request.size() == 0 || !is_power_of_two(request.align()) || request.size()
            > isize::MAX as u64 || request.align() - 1 > isize::MAX as u64 - request.size() {
            return None;
        }
        Some(request.size() as usize + (request.align() - 1) as usize)
    }

    /// Puts an image into storage that was made for it, at an address that the
    /// allocator chose. There may be none.
    pub fn adopt_storage(
        &mut self,
        request: AllocationRequest,
        reserved: Option<(Vec<u8>, u64)>,
    ) -> (r: LoadResult<AllocationLease>)
        requires
            request.placement is Anywhere && accepts(*old(self), request) ==> (reserved matches Some(
                (storage, address),
            ) ==> storage@ == zeros((request.size + request.align - 1) as nat)),
        ensures
            match adopted(*old(self), request, reserved) {
                Ok((skipped, allocation)) => {
                    &&& r == Ok::<AllocationLease, LoadError>(AllocationLease { allocation })
                    &&& *final(self) == (MemoryMapper {
                        storage: (reserved->0).0,
                        skipped,
                        allocation: Some(allocation),
                        ..*old(self)
                    })
                    &&& final(self).backed()
                    &&& final(self).image() == zeros(request.size as nat)
                    &&& allocation.base.0 % request.align == 0
                    &&& allocation.base.0 + request.size <= u64::MAX
                },
                Err(error) => r == Err::<AllocationLease, LoadError>(error) && *final(self) == *old(
                    self,
                ),
            },
    {
        if self.storage_needed(&request).is_none() {
            return Err(allocation_error(&request));
        }
        let (storage, address) = match reserved {
            Some(reserved) => reserved,
            None => return Err(exhausted_error(&request)),
        };
        proof {
            lemma_power_of_two_positive(request.align as int);
            lemma_ceil_to(address as int, request.align as int);
        }
        let base: u64 = match image_base(
            address,
            request.size() as usize,
            request.align() as usize,
        ) {
            Some(base) => base,
            None => return Err(exhausted_error(&request)),
        };
        let allocation = ImageAllocation::new(
            TargetAddr::new(base),
            request.size(),
            request.align(),
        );
        self.storage = storage;
        self.skipped = (base - address) as usize;
        self.allocation = Some(allocation);
        assert(self.image() =~= zeros(request.size as nat));
        Ok(AllocationLease::new(allocation))
    }

    /// Borrows a span of the fixed regions for an image.
    fn borrow_span(&mut self, request: AllocationRequest, range: TargetRange) -> (r: LoadResult<
        AllocationLease,
    >)
        requires
            request.placement == Placement::Fixed(range),
        ensures
            if accepts(*old(self), request) {
                let allocation = fixed_allocation(range, request.align);
                &&& r == Ok::<AllocationLease, LoadError>(AllocationLease { allocation })
                &&& final(self).allocation == Some(allocation)
                &&& final(self).backed()
                &&& final(self).image() == old(self).region_content(
                    range.start.0 as int,
                    range.len as nat,
                )
                &&& *final(self) == (MemoryMapper {
                    storage: final(self).storage,
                    skipped: 0,
                    allocation: Some(allocation),
                    ..*old(self)
                })
            } else {
                r == Err::<AllocationLease, LoadError>(unservable(request)) && *final(self)
                    == *old(self)
            },
    {
        if self.can_load_dynamic_image() || self.allocation.is_some() || self.poisoned
            || range.start().get() > usize::MAX as u64 || range.len() > usize::MAX as u64 {
            return Err(allocation_error(&request));
        }
        let start: usize = range.start().get() as usize;
        let len: usize = range.len() as usize;
        if self.validate_fixed_span(start, len, MemoryPermissions::none()).is_err() {
            return Err(allocation_error(&request));
        }
        let copy: Vec<u8> = self.region_bytes(start as u64, len);
        let allocation = ImageAllocation::with_identity(
            AllocationId::new(0),
            range.start(),
            range.len(),
            request.align(),
            AllocationOwnership::BorrowedFixed,
        );
        self.storage = copy;
        self.skipped = 0;
        self.allocation = Some(allocation);
        assert(self.image() =~= old(self).region_content(
            range.start.0 as int,
            range.len as nat,
        ));
        Ok(AllocationLease::new(allocation))
    }
}

/// The allocation of a span that is borrowed from fixed regions.
pub open spec fn fixed_allocation(range: TargetRange, align: u64) -> ImageAllocation {
    ImageAllocation {
        id: AllocationId(0),
        base: range.start,
        len: range.len,
        align,
        ownership: AllocationOwnership::BorrowedFixed,
    }
}

impl ImageMemory for MemoryMapper {
    open spec fn current(&self) -> Option<ImageAllocation> {
        self.allocation
    }

    open spec fn content(&self) -> Seq<u8> {
        self.image()
    }

    /// Memory of its own, or memory of others.
    open spec fn source(&self) -> int {
        if self.mode is Allocated {
            0
        } else {
            1
        }
    }

    /// The storage holds all of the image.
    open spec fn reliable(&self) -> bool {
        self.allocation is Some ==> self.backed()
    }

    /// A request that the mapper does not accept is refused. A span of fixed regions
    /// that it accepts is borrowed; storage that it accepts fails only for want of
    /// memory.
    open spec fn allocates(
        &self,
        after: Self,
        request: AllocationRequest,
        answer: LoadResult<AllocationLease>,
    ) -> bool {
        if !accepts(*self, request) {
            &&& answer == Err::<AllocationLease, LoadError>(unservable(request))
            &&& after == *self
        } else {
            match request.placement {
                Placement::Anywhere => exists|reserved: Option<(Vec<u8>, u64)>|
                    match #[trigger] adopted(*self, request, reserved) {
                        Ok((skipped, allocation)) => {
                            &&& answer == Ok::<AllocationLease, LoadError>(
                                AllocationLease { allocation },
                            )
                            &&& after == (MemoryMapper {
                                storage: (reserved->0).0,
                                skipped,
                                allocation: Some(allocation),
                                ..*self
                            })
                            &&& after.backed()
                            &&& after.image() == zeros(request.size as nat)
                            &&& allocation.base.0 % request.align == 0
                        },
                        Err(error) => answer == Err::<AllocationLease, LoadError>(error) && after
                            == *self,
                    },
                Placement::Fixed(range) => {
                    let allocation = fixed_allocation(range, request.align);
                    &&& answer == Ok::<AllocationLease, LoadError>(AllocationLease { allocation })
                    &&& after.backed()
                    &&& after.image() == self.region_content(
                        range.start.0 as int,
                        range.len as nat,
                    )
                    &&& after == (MemoryMapper {
                        storage: after.storage,
                        skipped: 0,
                        allocation: Some(allocation),
                        ..*self
                    })
                },
            }
        }
    }

    fn allocate_image(&mut self, request: AllocationRequest) -> (r: LoadResult<AllocationLease>)
    {
        match request.placement() {
            Placement::Anywhere => {
                let reserved: Option<(Vec<u8>, u64)> = match self.storage_needed(&request) {
                    Some(total) => zeroed_storage(total),
                    None => None,
                };
                let ghost given = reserved;
                let answer = self.adopt_storage(request, reserved);
                assert(adopted(*old(self), request, given) == adopted(
                    *old(self),
                    request,
                    given,
                ));
                answer
            },
            Placement::Fixed(range) => self.borrow_span(request, range),
        }
    }

    fn abort_image(&mut self, allocation: AllocationLease, progress: MutationProgress)
        ensures
            final(self).mode == old(self).mode,
            final(self).poisoned == (old(self).poisoned || (old(self).mode is Fixed && progress
                != MutationProgress::Reserved)),
            final(self).storage@.len() == 0,
    {
        let fixed: bool = !self.can_load_dynamic_image();
        if fixed && progress != MutationProgress::Reserved {
            self.poisoned = true;
        }
        self.storage.clear();
        self.skipped = 0;
        self.allocation = None;
    }

    fn release_committed(&mut self, allocation: AllocationLease)
        ensures
            final(self).mode == old(self).mode,
            final(self).poisoned == old(self).poisoned,
            final(self).storage@.len() == 0,
    {
        self.storage.clear();
        self.skipped = 0;
        self.allocation = None;
    }

    fn allocation(&self) -> (r: LoadResult<ImageAllocation>)
        ensures
            match self.allocation {
                Some(allocation) => r == Ok::<ImageAllocation, LoadError>(allocation),
                None => r == Err::<ImageAllocation, LoadError>(
                    unclaimed(
                        LoadErrorKind::NotAllocated,
                        ErrorContext::Allocation { base: TargetAddr(0), len: 0, align: 0 },
                    ),
                ),
            },
    {
        match &self.allocation {
            Some(allocation) => Ok(*allocation),
            None => Err(
                LoadError::new(
                    LoadErrorKind::NotAllocated,
                    ErrorContext::Allocation { base: TargetAddr::new(0), len: 0, align: 0 },
                ),
            ),
        }
    }

    fn image_span(&self, offset: AllocationOffset, len: u64) -> (r: LoadResult<TargetAddr>)
        ensures
            self.reachable(offset, len) ==> r == Ok::<TargetAddr, LoadError>(
                TargetAddr(((self.allocation->0).base.0 + offset.0) as u64),
            ),
            !self.reachable(offset, len) ==> r == Err::<TargetAddr, LoadError>(
                self.access_fault(offset, len),
            ),
    {
        let allocation: ImageAllocation = self.allocation()?;
        let in_image: bool = match offset.value().checked_add(len) {
            Some(end) => end <= allocation.len(),
            None => false,
        };
        let backed: bool = self.skipped <= self.storage.len() && allocation.len() <= (
        self.storage.len() - self.skipped) as u64;
        if in_image && backed {
            if let Ok(address) = allocation.base().checked_add(offset.value()) {
                return Ok(address);
            }
        }
        Err(
            LoadError::new(
                LoadErrorKind::Backend,
                ErrorContext::MemoryAccess {
                    allocation_base: allocation.base(),
                    allocation_len: allocation.len(),
                    allocation_align: allocation.align(),
                    offset: offset.value(),
                    len,
                },
            ),
        )
    }

    fn validate_access(
        &self,
        offset: AllocationOffset,
        len: u64,
        permissions: MemoryPermissions,
    ) -> (r: LoadResult<()>)
        ensures
            r is Ok <==> self.reachable(offset, len),
            r matches Err(error) ==> error == self.access_fault(offset, len),
    {
        self.image_span(offset, len)?;
        Ok(())
    }

    fn write(&mut self, offset: AllocationOffset, data: &[u8]) -> (r: LoadResult<()>)
        ensures
            r is Ok <==> old(self).reachable(offset, data@.len() as u64) && data@.len()
                <= u64::MAX,
            r is Err ==> *final(self) == *old(self),
    {
        self.store(offset, data)
    }

    fn zero(&mut self, offset: AllocationOffset, len: u64) -> (r: LoadResult<()>)
        ensures
            r is Ok <==> old(self).reachable(offset, len),
            r is Err ==> *final(self) == *old(self),
    {
        self.image_span(offset, len)?;
        let size: usize = self.storage.len();
        let count: usize = len as usize;
        assert(count == len && len <= size);
        let mut blank: Vec<u8> = Vec::new();
        blank.resize(count, 0);
        assert(blank@ =~= zeros(len as nat));
        self.store(offset, blank.as_slice())
    }

    fn read(&self, offset: AllocationOffset, count: usize) -> (r: LoadResult<Vec<u8>>)
        ensures
            r is Ok <==> self.reachable(offset, count as u64),
            r matches Err(error) ==> error == self.access_fault(offset, count as u64),
    {
        self.image_span(offset, count as u64)?;
        let size: usize = self.storage.len();
        assert(self.skipped + offset.0 + count <= size);
        let start: usize = self.skipped + offset.value() as usize;
        let data = copy_range(self.storage.as_slice(), start, start + count);
        assert(data@ =~= self.image().subrange(offset.0 as int, offset.0 + count));
        Ok(data)
    }
}

impl ProtectionBehavior for MemoryMapper {
    /// Protection changes nothing here: it is logical only, within the image.
    open spec fn protects(
        &self,
        after: Self,
        offset: AllocationOffset,
        len: u64,
        permissions: MemoryPermissions,
        outcome: LoadResult<ProtectionLevel>,
    ) -> bool {
        &&& after == *self
        &&& outcome == (if self.reachable(offset, len) {
            Ok::<ProtectionLevel, LoadError>(ProtectionLevel::LogicalOnly)
        } else {
            Err(self.access_fault(offset, len))
        })
    }
}

impl ImageProtectionMemory for MemoryMapper {
    open spec fn capabilities(&self) -> ProtectionCapabilities {
        ProtectionCapabilities { granule: 1, max_ranges: usize::MAX }
    }

    proof fn capabilities_are_kept(&self, other: &Self) {
    }

    fn protect(
        &mut self,
        offset: AllocationOffset,
        len: u64,
        permissions: MemoryPermissions,
    ) -> (r: LoadResult<ProtectionLevel>)
        ensures
            *final(self) == *old(self),
            old(self).reachable(offset, len) ==> r == Ok::<ProtectionLevel, LoadError>(
                ProtectionLevel::LogicalOnly,
            ),
            !old(self).reachable(offset, len) ==> r == Err::<ProtectionLevel, LoadError>(
                old(self).access_fault(offset, len),
            ),
    {
        let outcome: LoadResult<ProtectionLevel> = match self.image_span(offset, len) {
            Ok(_) => Ok(ProtectionLevel::LogicalOnly),
            Err(error) => Err(error),
        };
        assert(self.protects(*self, offset, len, permissions, outcome));
        outcome
    }

    fn protection_capabilities(&self) -> (r: ProtectionCapabilities) {
        ProtectionCapabilities::new(1, usize::MAX)
    }

    fn validate_protection_aliases(
        &self,
        allocation: &ImageAllocation,
        prepared: &PreparedProtectionPlan,
    ) -> (r: LoadResult<()>)
        ensures
            r is Ok <==> self.allocation == Some(*allocation),
            r is Err ==> r == Err::<(), LoadError>(
                if self.allocation is Some {
                    unprotectable(*allocation)
                } else {
                    failure(
                        LoadStage::Seal,
                        LoadErrorKind::NotAllocated,
                        ErrorContext::Allocation { base: TargetAddr(0), len: 0, align: 0 },
                    )
                },
            ),
    {
        let actual: ImageAllocation = claim_at(self.allocation(), LoadStage::Seal)?;
        if actual == *allocation {
            return Ok(());
        }
        Err(
            LoadError::new(
                LoadErrorKind::Backend,
                ErrorContext::Allocation {
                    base: allocation.base(),
                    len: allocation.len(),
                    align: allocation.align(),
                },
            ).at_stage(LoadStage::Seal),
        )
    }
}

/// What was written to an address last is what it holds, and what it held before where
/// nothing was written.
pub proof fn the_last_write_stays(log: Seq<FixedWrite>, k: int, address: int, otherwise: u8, i: int)
    requires
        0 <= k <= log.len(),
        -1 <= i < k,
        forall|j: int|
            i < j < k ==> !((#[trigger] log[j]).address <= address < log[j].address
                + log[j].bytes@.len()),
        i >= 0 ==> log[i].address <= address < log[i].address + log[i].bytes@.len(),
    ensures
        byte_at(log, k, address, otherwise) == if i >= 0 {
            log[i].bytes@[address - log[i].address]
        } else {
            otherwise
        },
    decreases k,
{
    if k > 0 && i < k - 1 {
        assert(!(log[k - 1].address <= address < log[k - 1].address + log[k - 1].bytes@.len()));
        the_last_write_stays(log, k - 1, address, otherwise, i);
    }
}

/// An image in storage of the mapper starts at the first multiple of its alignment in the
/// storage, which has room for all of it.
pub proof fn images_are_aligned_in_their_storage(
    mapper: MemoryMapper,
    request: AllocationRequest,
    storage: Vec<u8>,
    address: u64,
    skipped: usize,
    allocation: ImageAllocation,
)
    requires
        adopted(mapper, request, Some((storage, address))) == Ok::<
            (usize, ImageAllocation),
            LoadError,
        >((skipped, allocation)),
    ensures
        mapper.allocation is None,
        allocation.base.0 == address + skipped,
        allocation.base.0 % request.align == 0,
        skipped < request.align,
        allocation.len == request.size,
        allocation.align == request.align,
        request.size > 0,
        allocation.base.0 + allocation.len <= u64::MAX,
        storage@.len() >= request.size + request.align - 1 ==> skipped + allocation.len
            <= storage@.len(),
{
    lemma_power_of_two_positive(request.align as int);
    lemma_ceil_to(address as int, request.align as int);
}

/// A mapper takes an image over at the addresses that it is linked for: its start, its end
/// and its entry are those in memory without the load bias.
pub proof fn images_are_taken_over_as_linked(
    allocation: ImageAllocation,
    load_bias: TargetAddr,
    runtime_entry: TargetAddr,
    start: u64,
    end: u64,
    entry: u64,
)
    requires
        install_spec(Some(allocation), load_bias, runtime_entry) == Ok::<
            (u64, u64, u64),
            LoadError,
        >((start, end, entry)),
    ensures
        start + load_bias.0 == allocation.base.0,
        end == start + allocation.len,
        entry + load_bias.0 == runtime_entry.0,
        end <= usize::MAX,
        entry <= usize::MAX,
{
}

/// The machine address of a virtual address is as far from the start of the memory as the
/// virtual address is from the start of the image, and lies in the memory.
pub proof fn machine_addresses_keep_their_distance(
    mapper: MemoryMapper,
    vaddr: usize,
    r: Result<usize>,
)
    requires
        is_real_address(mapper, vaddr, r),
    ensures
        match r {
            Ok(address) => {
                &&& mapper.allocation is Some
                &&& mapper.virtual_start <= vaddr < mapper.virtual_end
                &&& address - (mapper.allocation->0).base.0 == vaddr - mapper.virtual_start
                &&& address < (mapper.allocation->0).base.0 + (mapper.allocation->0).len
            },
            Err(_) => {
                ||| vaddr < mapper.virtual_start
                ||| vaddr >= mapper.virtual_end
                ||| mapper.allocation is None
                ||| vaddr - mapper.virtual_start >= (mapper.allocation->0).len
                ||| (mapper.allocation->0).base.0 + (vaddr - mapper.virtual_start) > usize::MAX
            },
        },
{
}

/// Fixed memory is accepted only within one of the regions that the mapper was given, and
/// only as long as nothing is mapped.
pub proof fn fixed_memory_lies_in_a_region(mapper: MemoryMapper, request: AllocationRequest)
    requires
        accepts(mapper, request),
    ensures
        mapper.allocation is None,
        match request.placement {
            Placement::Anywhere => mapper.mode is Allocated && request.size > 0,
            Placement::Fixed(range) => mapper.mode is Fixed && exists|i: int|
                0 <= i < (mapper.mode->Fixed_0)@.len() && (
                #[trigger] (mapper.mode->Fixed_0)@[i]).start <= range.start.0 && range.start.0
                    + range.len <= (mapper.mode->Fixed_0)@[i].end,
        },
{
}

} // verus!
