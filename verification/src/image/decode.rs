//! Relocating, synchronizing and sealing a decoded image.

use crate::address::TargetAddr;
use crate::cache::{
    all_accepted, all_visible, cache_refused, synchronize_all, CacheSyncOutcome, CodeCache,
};
use crate::error::{claim, claim_at, LoadError, LoadStage};
use crate::identity::LoadRequest;
use crate::image::loaded::{given_up, regions_within, MappedState};
use crate::image::plan::{StageFailure, StageResult};
use crate::image::protection::{
    protection_spec, records_within, same_requests, AppliedProtectionSet, ImageProtectionMemory,
    PreparedProtectionPlan, ProtectionBatch,
};
use crate::image::records::RelocationRecord;
use crate::image::seal::{seal_spec, SealPlan, SealRange};
use crate::image::sealed::{executable_ranges, executable_spec};
use crate::memory::{ready, ImageLoadTransaction, ImageMemory};
use crate::relocation::apply::{operations_done, relocate, relocation_plan, RelocationTarget};
use crate::relocation::ArchRelocator;
use vstd::prelude::*;

verus! {

/// An image whose relocations are known.
#[must_use]
pub struct DecodedImage<R, M> {
    pub reader: R,
    pub transaction: ImageLoadTransaction<M>,
    pub request: LoadRequest,
    pub mapped: MappedState,
    pub relocations: Vec<RelocationRecord>,
}

/// An image that is relocated.
#[must_use]
pub struct RelocatedImage<R, M> {
    pub reader: R,
    pub transaction: ImageLoadTransaction<M>,
    pub request: LoadRequest,
    pub mapped: MappedState,
    pub relocations: Vec<RelocationRecord>,
}

/// An image whose code is visible to instruction fetch.
#[must_use]
pub struct CachedImage<R, M> {
    pub reader: R,
    pub transaction: ImageLoadTransaction<M>,
    pub request: LoadRequest,
    pub mapped: MappedState,
    pub relocations: Vec<RelocationRecord>,
    pub cache_sync: CacheSyncOutcome,
}

/// An image in its final protection.
#[must_use]
pub struct SealedImage<R, M> {
    pub reader: R,
    pub transaction: ImageLoadTransaction<M>,
    pub request: LoadRequest,
    pub mapped: MappedState,
    pub relocations: Vec<RelocationRecord>,
    pub cache_sync: CacheSyncOutcome,
    pub seal_plan: SealPlan,
    pub protections: AppliedProtectionSet,
}

/// What relocating an image asks for.
pub open spec fn image_target(request: LoadRequest, load_bias: TargetAddr) -> RelocationTarget {
    RelocationTarget {
        machine: request.profile.machine,
        class: request.profile.class,
        endian: request.profile.endian,
        load_bias,
        max_operation_bytes: request.limits.max_relocation_operation_bytes,
    }
}

impl<R, M: ImageMemory> DecodedImage<R, M> {
    /// Relocates the image in its memory. On failure the image is given up.
    pub fn relocation<A: ArchRelocator>(self, relocator: A) -> (r: StageResult<
        RelocatedImage<R, M>,
        M,
    >)
        requires
            self.transaction.active(),
        ensures
            match r {
                Err(failed) => given_up(failed.memory),
                Ok(image) => {
                    let target = image_target(self.request, self.mapped@.load_bias);
                    let plan = relocation_plan(
                        self.relocations@,
                        relocator,
                        target,
                        self.mapped@.regions,
                        self.transaction.memory.content(),
                    );
                    &&& plan is Ok
                    &&& image.reader == self.reader
                    &&& image.request == self.request
                    &&& image.mapped == self.mapped
                    &&& image.relocations == self.relocations
                    &&& image.transaction.pending == self.transaction.pending
                    &&& image.transaction.memory.current() == self.transaction.memory.current()
                    &&& image.transaction.memory.content() == operations_done(
                        self.transaction.memory.content(),
                        plan->Ok_0,
                        plan->Ok_0.len() as int,
                        target.word(),
                    )
                    &&& image.transaction.memory.content().len()
                        == self.transaction.memory.content().len()
                    &&& self.transaction.memory.reliable() ==> image.transaction.memory.reliable()
                    &&& image.transaction.memory.source() == self.transaction.memory.source()
                },
            },
            ready(self.transaction.memory) && regions_within(
                self.mapped@.regions,
                self.transaction.memory.content().len(),
            ) ==> match claim(
                relocation_plan(
                    self.relocations@,
                    relocator,
                    image_target(self.request, self.mapped@.load_bias),
                    self.mapped@.regions,
                    self.transaction.memory.content(),
                ),
                LoadStage::Relocate,
            ) {
                Ok(_) => r is Ok,
                Err(error) => r matches Err(failed) && failed.error == error,
            },
    {
        let mut transaction = self.transaction;
        let target = RelocationTarget {
            machine: self.request.profile().machine(),
            class: self.request.profile().class(),
            endian: self.request.profile().endian(),
            load_bias: self.mapped.load_bias(),
            max_operation_bytes: self.request.limits().max_relocation_operation_bytes,
        };
        transaction.mark_bytes_modified();
        let outcome = relocate(
            &self.relocations,
            &relocator,
            &target,
            &self.mapped.regions,
            &mut transaction.memory,
        );
        match outcome {
            Ok(_) => Ok(
                RelocatedImage {
                    reader: self.reader,
                    transaction,
                    request: self.request,
                    mapped: self.mapped,
                    relocations: self.relocations,
                },
            ),
            Err(error) => Err(StageFailure { error, memory: transaction.finish() }),
        }
    }
}

impl<R, M: ImageMemory> RelocatedImage<R, M> {
    /// Makes the code of the image visible. On failure the image is given up.
    pub fn cache<C: CodeCache>(self, cache: &mut C) -> (r: StageResult<CachedImage<R, M>, M>)
        requires
            self.transaction.active(),
        ensures
            match r {
                Err(failed) => given_up(failed.memory),
                Ok(image) => {
                    let ranges = seal_spec(self.mapped@);
                    &&& ranges is Ok
                    &&& image.reader == self.reader
                    &&& image.transaction == self.transaction
                    &&& image.request == self.request
                    &&& image.mapped == self.mapped
                    &&& image.relocations == self.relocations
                    &&& image.cache_sync.ranges@ == executable_spec(
                        ranges->Ok_0,
                        ranges->Ok_0.len() as int,
                    )
                    &&& all_visible(
                        *final(cache),
                        executable_spec(ranges->Ok_0, ranges->Ok_0.len() as int),
                    )
                },
            },
            match seal_spec(self.mapped@) {
                Err(error) => r matches Err(failed) && failed.error == error,
                Ok(ranges) => {
                    let executable = executable_spec(ranges, ranges.len() as int);
                    &&& r matches Err(failed) ==> cache_refused(
                        *old(cache),
                        executable,
                        failed.error,
                    )
                    &&& all_accepted(*old(cache), executable) ==> r is Ok
                },
            },
    {
        let plan = match SealPlan::build(&self.mapped) {
            Ok(plan) => plan,
            Err(error) => return Err(StageFailure { error, memory: self.transaction.finish() }),
        };
        match synchronize_all(cache, executable_ranges(&plan)) {
            Ok(cache_sync) => Ok(
                CachedImage {
                    reader: self.reader,
                    transaction: self.transaction,
                    request: self.request,
                    mapped: self.mapped,
                    relocations: self.relocations,
                    cache_sync,
                },
            ),
            Err(error) => Err(StageFailure { error, memory: self.transaction.finish() }),
        }
    }
}

impl<R, M: ImageProtectionMemory> CachedImage<R, M> {
    #[inline]
    pub fn cache_sync(&self) -> (r: &CacheSyncOutcome)
        ensures
            *r == self.cache_sync,
    {
        &self.cache_sync
    }

    /// Gives every part of the image its final permissions. On failure the image
    /// is given up.
    pub fn seal(self) -> (r: StageResult<SealedImage<R, M>, M>)
        requires
            self.transaction.active(),
        ensures
            match r {
                Err(failed) => given_up(failed.memory),
                Ok(image) => {
                    let ranges = seal_spec(self.mapped@);
                    let records = protection_spec(
                        self.transaction.pending->0.allocation,
                        ranges->Ok_0,
                        self.transaction.memory.capabilities(),
                    );
                    &&& ranges == Ok::<Seq<SealRange>, LoadError>(image.seal_plan.ranges@)
                    &&& records is Ok
                    &&& same_requests(records->Ok_0, image.protections.ranges@)
                    &&& image.mapped == self.mapped
                    &&& image.request == self.request
                    &&& image.transaction.pending == self.transaction.pending
                    &&& image.transaction.memory.current() == self.transaction.memory.current()
                    &&& image.transaction.memory.content() == self.transaction.memory.content()
                    &&& image.transaction.memory.source() == self.transaction.memory.source()
                    &&& self.transaction.memory.reliable() ==> image.transaction.memory.reliable()
                },
            },
            match seal_spec(self.mapped@) {
                Err(error) => r matches Err(failed) && failed.error == error,
                Ok(ranges) => match protection_spec(
                    self.transaction.pending->0.allocation,
                    ranges,
                    self.transaction.memory.capabilities(),
                ) {
                    Err(error) => r matches Err(failed) && failed.error == error,
                    Ok(records) => ready(self.transaction.memory)
                        && self.transaction.memory.current() == Some(
                        self.transaction.pending->0.allocation,
                    ) && records_within(records, self.transaction.memory.content().len()) ==> r
                        is Ok,
                },
            },
    {
        let mut transaction = self.transaction;
        let seal_plan = match SealPlan::build(&self.mapped) {
            Ok(plan) => plan,
            Err(error) => return Err(StageFailure { error, memory: transaction.finish() }),
        };
        let prepared = match PreparedProtectionPlan::prepare(
            transaction.memory(),
            transaction.allocation(),
            &seal_plan,
        ) {
            Ok(prepared) => prepared,
            Err(error) => return Err(StageFailure { error, memory: transaction.finish() }),
        };
        let mut batch = ProtectionBatch::new(prepared.into_ranges());
        transaction.mark_protection_modified();
        let applied = claim_at(transaction.memory.apply_protection(&mut batch), LoadStage::Seal);
        match applied {
            Ok(_) => Ok(
                SealedImage {
                    reader: self.reader,
                    transaction,
                    request: self.request,
                    mapped: self.mapped,
                    relocations: self.relocations,
                    cache_sync: self.cache_sync,
                    seal_plan,
                    protections: AppliedProtectionSet::new(batch.into_records()),
                },
            ),
            Err(error) => Err(StageFailure { error, memory: transaction.finish() }),
        }
    }
}

impl<R, M: ImageMemory> SealedImage<R, M> {
    /// Ends the load: the memory with the image in it, its load bias and its
    /// entry.
    pub fn into_loaded_parts(self) -> (r: (M, TargetAddr, TargetAddr))
        requires
            self.transaction.active(),
        ensures
            r.0 == self.transaction.memory,
            r.1 == self.mapped@.load_bias,
            r.2 == self.mapped@.entry,
    {
        let mut transaction = self.transaction;
        let _lease = transaction.take_lease();
        (transaction.finish(), self.mapped.load_bias(), self.mapped.entry())
    }
}

} // verus!
