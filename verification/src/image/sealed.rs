//! Relocating, sealing and committing an artifact.

use crate::address::{TargetAddr, TargetRange};
use crate::cache::{
    all_accepted, all_visible, cache_refused, synchronize_all, CacheSyncOutcome, CodeCache,
};
use crate::error::{claim, claim_at, LoadError, LoadResult, LoadStage};
use crate::image::loaded::{given_up, regions_within, MappedState, MappedView, StagedImage};
use crate::image::metadata::{RuntimeImageMetadata, RuntimeState};
use crate::image::plan::{StageFailure, StageResult};
use crate::image::protection::{
    protection_spec, records_within, same_requests, set_level, AppliedProtectionSet, ImageProtectionMemory,
    PreparedProtectionPlan, ProtectionBatch, ProtectionLevel,
};
use crate::image::seal::{seal_spec, SealPlan, SealRange};
use crate::memory::{
    ready, AllocationLease, ImageAllocation, ImageLoadTransaction, ImageMemory, MutationProgress,
};
use crate::permissions::MemoryPermissions;
use crate::relocation::apply::{operations_done, relocate, relocation_plan, RelocationTarget};
use crate::relocation::ArchRelocator;
use crate::sort::{are_places, lemma_next_place};
use vstd::prelude::*;

verus! {

/// An artifact whose memory is relocated.
pub struct RelocatedState {
    pub mapped: MappedState,
    pub metadata: RuntimeImageMetadata,
}

impl RelocatedState {
    pub fn into_parts(self) -> (r: (MappedState, RuntimeImageMetadata))
        ensures
            r == (self.mapped, self.metadata),
    {
        (self.mapped, self.metadata)
    }
}

/// What relocating a mapped artifact asks for.
pub open spec fn relocation_target(mapped: MappedView) -> RelocationTarget {
    RelocationTarget {
        machine: mapped.request.profile.machine,
        class: mapped.request.profile.class,
        endian: mapped.request.profile.endian,
        load_bias: mapped.load_bias,
        max_operation_bytes: mapped.request.limits.max_relocation_operation_bytes,
    }
}

impl<M: ImageMemory> StagedImage<M, RuntimeState> {
    /// Relocates the image in its memory. On failure the image is given up.
    pub fn relocate<A: ArchRelocator>(self, relocator: &A) -> (r: StageResult<
        StagedImage<M, RelocatedState>,
        M,
    >)
        requires
            self.transaction.active(),
        ensures
            match r {
                Err(failed) => given_up(failed.memory),
                Ok(image) => {
                    let target = relocation_target(self.state.mapped@);
                    let plan = relocation_plan(
                        self.state.metadata.relocations@,
                        *relocator,
                        target,
                        self.state.mapped@.regions,
                        self.transaction.memory.content(),
                    );
                    &&& plan is Ok
                    &&& image.transaction.pending == self.transaction.pending
                    &&& image.transaction.memory.current() == self.transaction.memory.current()
                    &&& image.transaction.memory.content() == operations_done(
                        self.transaction.memory.content(),
                        plan->Ok_0,
                        plan->Ok_0.len() as int,
                        target.word(),
                    )
                    &&& image.state.mapped == self.state.mapped
                    &&& image.state.metadata == self.state.metadata
                    &&& image.transaction.memory.content().len()
                        == self.transaction.memory.content().len()
                    &&& self.transaction.memory.reliable() ==> image.transaction.memory.reliable()
                    &&& image.transaction.memory.source() == self.transaction.memory.source()
                },
            },
            ready(self.transaction.memory) && regions_within(
                self.state.mapped@.regions,
                self.transaction.memory.content().len(),
            ) ==> match claim(
                relocation_plan(
                    self.state.metadata.relocations@,
                    *relocator,
                    relocation_target(self.state.mapped@),
                    self.state.mapped@.regions,
                    self.transaction.memory.content(),
                ),
                LoadStage::Relocate,
            ) {
                Ok(_) => r is Ok,
                Err(error) => r matches Err(failed) && failed.error == error,
            },
    {
        let (mut transaction, runtime) = self.into_parts();
        let (mapped, metadata) = runtime.into_parts();
        let target = RelocationTarget {
            machine: mapped.request.profile.machine,
            class: mapped.request.profile().class(),
            endian: mapped.request.profile().endian(),
            load_bias: mapped.load_bias(),
            max_operation_bytes: mapped.request.limits().max_relocation_operation_bytes,
        };
        transaction.mark_bytes_modified();
        let outcome = relocate(
            &metadata.relocations,
            relocator,
            &target,
            &mapped.regions,
            &mut transaction.memory,
        );
        match outcome {
            Ok(_) => Ok(StagedImage::new(transaction, RelocatedState { mapped, metadata })),
            Err(error) => Err(StageFailure { error, memory: transaction.finish() }),
        }
    }
}

/// The mapped ranges of those of the first `k` parts that are executable.
pub open spec fn executable_spec(ranges: Seq<SealRange>, k: int) -> Seq<TargetRange>
    decreases k,
{
    if k <= 0 {
        Seq::empty()
    } else if ranges[k - 1].permissions.executable() {
        executable_spec(ranges, k - 1).push(ranges[k - 1].runtime_range)
    } else {
        executable_spec(ranges, k - 1)
    }
}

/// The mapped ranges of the executable parts.
pub fn executable_ranges(plan: &SealPlan) -> (r: Vec<TargetRange>)
    ensures
        r@ == executable_spec(plan.ranges@, plan.ranges@.len() as int),
{
    let mut executable: Vec<TargetRange> = Vec::new();
    let mut index: usize = 0;
    while index < plan.ranges.len()
        invariant
            index <= plan.ranges@.len(),
            executable@ == executable_spec(plan.ranges@, index as int),
        decreases plan.ranges@.len() - index,
    {
        let range = plan.ranges[index];
        if range.permissions().contains(MemoryPermissions::execute()) {
            executable.push(range.runtime_range());
        }
        index = index + 1;
    }
    executable
}

/// An artifact in its final protection.
pub struct SealedState {
    pub mapped: MappedState,
    pub metadata: RuntimeImageMetadata,
    pub seal_plan: SealPlan,
    pub protections: AppliedProtectionSet,
    pub cache_sync: CacheSyncOutcome,
}

pub type PreparedImage<M> = StagedImage<M, SealedState>;

impl SealedState {
    #[inline]
    pub fn allocation(&self) -> (r: &ImageAllocation)
        ensures
            *r == self.mapped@.allocation,
    {
        self.mapped.allocation()
    }

    #[inline]
    pub fn entry(&self) -> (r: TargetAddr)
        ensures
            r == self.mapped@.entry,
    {
        self.mapped.entry()
    }

    #[inline]
    pub fn canonical_entry(&self) -> (r: TargetAddr)
        ensures
            r == self.mapped@.canonical_entry,
    {
        self.mapped.canonical_entry()
    }

    #[inline]
    pub fn entry_instruction_span(&self) -> (r: u64)
        ensures
            r == self.mapped@.request.profile.entry_mode.instruction_spec(),
    {
        self.mapped.request().profile().entry_mode().minimum_instruction_size()
    }

    #[inline]
    pub fn load_bias(&self) -> (r: TargetAddr)
        ensures
            r == self.mapped@.load_bias,
    {
        self.mapped.load_bias()
    }

    #[inline]
    pub fn protection(&self) -> (r: ProtectionLevel)
        ensures
            r == set_level(self.protections.ranges@),
    {
        self.protections.level()
    }

    #[inline]
    pub fn protections(&self) -> (r: &AppliedProtectionSet)
        ensures
            *r == self.protections,
    {
        &self.protections
    }

    #[inline]
    pub fn cache_sync(&self) -> (r: &CacheSyncOutcome)
        ensures
            *r == self.cache_sync,
    {
        &self.cache_sync
    }

    #[inline]
    pub fn seal_plan(&self) -> (r: &SealPlan)
        ensures
            *r == self.seal_plan,
    {
        &self.seal_plan
    }

    #[inline]
    pub fn metadata(&self) -> (r: &RuntimeImageMetadata)
        ensures
            *r == self.metadata,
    {
        &self.metadata
    }
}

impl RelocatedState {
    /// Gives every part of the image its final permissions and makes its code
    /// visible.
    pub fn seal<M: ImageProtectionMemory, C: CodeCache>(
        self,
        transaction: &mut ImageLoadTransaction<M>,
        cache: &mut C,
    ) -> (r: LoadResult<SealedState>)
        ensures
            final(transaction).pending == old(transaction).pending,
            final(transaction).memory.current() == old(transaction).memory.current(),
            final(transaction).memory.content() == old(transaction).memory.content(),
            match seal_spec(self.mapped@) {
                Err(error) => r == Err::<SealedState, LoadError>(error),
                Ok(ranges) => match protection_spec(
                    self.mapped@.allocation,
                    ranges,
                    old(transaction).memory.capabilities(),
                ) {
                    Err(error) => r == Err::<SealedState, LoadError>(error),
                    Ok(records) => {
                        &&& r matches Ok(sealed) ==> {
                            &&& sealed.mapped == self.mapped
                            &&& sealed.metadata == self.metadata
                            &&& sealed.seal_plan.ranges@ == ranges
                            &&& same_requests(records, sealed.protections.ranges@)
                            &&& sealed.cache_sync.ranges@ == executable_spec(
                                ranges,
                                ranges.len() as int,
                            )
                            &&& all_visible(
                                *final(cache),
                                executable_spec(ranges, ranges.len() as int),
                            )
                            &&& ranges.len() > 0 ==> final(transaction).progress
                                == MutationProgress::ProtectionModified
                        }
                        &&& ready(old(transaction).memory) && old(transaction).memory.current()
                            == Some(self.mapped@.allocation) && records_within(
                            records,
                            old(transaction).memory.content().len(),
                        ) ==> {
                            let executable = executable_spec(ranges, ranges.len() as int);
                            &&& r matches Err(error) ==> cache_refused(
                                *old(cache),
                                executable,
                                error,
                            )
                            &&& all_accepted(*old(cache), executable) ==> r is Ok
                        }
                    },
                },
            },
    {
        let (mapped, metadata) = self.into_parts();
        let seal_plan = SealPlan::build(&mapped)?;
        let prepared = PreparedProtectionPlan::prepare(
            transaction.memory(),
            mapped.allocation(),
            &seal_plan,
        )?;
        let executable = executable_ranges(&seal_plan);
        let cache_sync = synchronize_all(cache, executable)?;
        if seal_plan.ranges.len() > 0 {
            transaction.mark_protection_modified();
        }
        let mut batch = ProtectionBatch::new(prepared.into_ranges());
        claim_at(transaction.memory.apply_protection(&mut batch), LoadStage::Seal)?;
        let protections = AppliedProtectionSet::new(batch.into_records());
        Ok(SealedState { mapped, metadata, seal_plan, protections, cache_sync })
    }
}

impl<M: ImageProtectionMemory> StagedImage<M, RelocatedState> {
    /// Seals the image. On failure the image is given up.
    pub fn seal<C: CodeCache>(self, cache: &mut C) -> (r: StageResult<PreparedImage<M>, M>)
        requires
            self.transaction.active(),
        ensures
            match r {
                Err(failed) => given_up(failed.memory),
                Ok(image) => {
                    &&& seal_spec(self.state.mapped@) == Ok::<Seq<SealRange>, LoadError>(
                        image.state.seal_plan.ranges@,
                    )
                    &&& image.state.mapped == self.state.mapped
                    &&& image.state.metadata == self.state.metadata
                    &&& image.transaction.pending == self.transaction.pending
                    &&& image.transaction.memory.current() == self.transaction.memory.current()
                    &&& image.transaction.memory.content() == self.transaction.memory.content()
                    &&& all_visible(
                        *final(cache),
                        executable_spec(
                            image.state.seal_plan.ranges@,
                            image.state.seal_plan.ranges@.len() as int,
                        ),
                    )
                },
            },
            match seal_spec(self.state.mapped@) {
                Err(error) => r matches Err(failed) && failed.error == error,
                Ok(ranges) => match protection_spec(
                    self.state.mapped@.allocation,
                    ranges,
                    self.transaction.memory.capabilities(),
                ) {
                    Err(error) => r matches Err(failed) && failed.error == error,
                    Ok(records) => ready(self.transaction.memory)
                        && self.transaction.memory.current() == Some(self.state.mapped@.allocation)
                        && records_within(records, self.transaction.memory.content().len()) ==> {
                        let executable = executable_spec(ranges, ranges.len() as int);
                        &&& r matches Err(failed) ==> cache_refused(
                            *old(cache),
                            executable,
                            failed.error,
                        )
                        &&& all_accepted(*old(cache), executable) ==> r is Ok
                    },
                },
            },
    {
        let (mut transaction, relocated) = self.into_parts();
        match relocated.seal(&mut transaction, cache) {
            Ok(sealed) => Ok(StagedImage::new(transaction, sealed)),
            Err(error) => Err(StageFailure { error, memory: transaction.finish() }),
        }
    }
}

/// Memory that can take over a sealed image for good.
///
/// `prepare_install` does everything that can fail. `commit_install` only moves
/// what was prepared, and the unique lease, to the committed owner.
pub trait ImageCommitMemory: ImageProtectionMemory {
    type PreparedInstall;

    type CommitReceipt;

    /// Whether `install` was prepared for a sealed image in an allocation.
    spec fn prepared_for(
        allocation: ImageAllocation,
        sealed: SealedState,
        install: Self::PreparedInstall,
    ) -> bool;

    /// Whether `receipt` is for this installation, image and lease.
    spec fn committed_as(
        install: Self::PreparedInstall,
        sealed: SealedState,
        lease: AllocationLease,
        receipt: Self::CommitReceipt,
    ) -> bool;

    fn prepare_install(&mut self, allocation: &ImageAllocation, sealed: &SealedState) -> (r:
        LoadResult<Self::PreparedInstall>)
        ensures
            final(self).current() == old(self).current(),
            final(self).content() == old(self).content(),
            r matches Ok(install) ==> Self::prepared_for(*allocation, *sealed, install),
    ;

    fn commit_install(
        &mut self,
        prepared: Self::PreparedInstall,
        sealed: SealedState,
        lease: AllocationLease,
    ) -> (r: Self::CommitReceipt)
        ensures
            final(self).content() == old(self).content(),
            Self::committed_as(prepared, sealed, lease, r),
    ;
}

/// A sealed image whose installation cannot fail any more.
#[must_use]
pub struct ReadyImageCommit<M: ImageCommitMemory> {
    pub transaction: ImageLoadTransaction<M>,
    pub sealed: SealedState,
    pub install: M::PreparedInstall,
}

impl<M: ImageCommitMemory> StagedImage<M, SealedState> {
    /// Prepares the installation. On failure the image is given up.
    pub fn prepare_commit(self) -> (r: StageResult<ReadyImageCommit<M>, M>)
        requires
            self.transaction.active(),
        ensures
            match r {
                Err(failed) => given_up(failed.memory),
                Ok(ready) => {
                    &&& ready.sealed == self.state
                    &&& M::prepared_for(
                        self.transaction.pending->0.allocation,
                        self.state,
                        ready.install,
                    )
                    &&& ready.transaction.pending == self.transaction.pending
                    &&& ready.transaction.memory.current() == self.transaction.memory.current()
                    &&& ready.transaction.memory.content() == self.transaction.memory.content()
                },
            },
    {
        let (mut transaction, sealed) = self.into_parts();
        let allocation: ImageAllocation = *transaction.allocation();
        match claim_at(
            transaction.memory.prepare_install(&allocation, &sealed),
            LoadStage::Publish,
        ) {
            Ok(install) => Ok(ReadyImageCommit { transaction, sealed, install }),
            Err(error) => Err(StageFailure { error, memory: transaction.finish() }),
        }
    }
}

impl<M: ImageCommitMemory> ReadyImageCommit<M> {
    /// Hands the image and its lease to the committed owner.
    pub fn commit(self) -> (r: (M::CommitReceipt, M))
        requires
            self.transaction.active(),
        ensures
            r.1.content() == self.transaction.memory.content(),
            M::committed_as(self.install, self.sealed, self.transaction.pending->0, r.0),
    {
        let ReadyImageCommit { transaction, sealed, install } = self;
        let mut transaction = transaction;
        let lease = transaction.take_lease();
        let receipt = transaction.memory.commit_install(install, sealed, lease);
        (receipt, transaction.finish())
    }

    /// Gives the image up instead.
    pub fn abandon(self) -> (r: M)
        requires
            self.transaction.active(),
        ensures
            given_up(r),
    {
        self.transaction.finish()
    }
}

/// The ranges that instruction fetch has to see are those of the executable parts, all of
/// them and in their order.
pub proof fn executable_parts_are_made_visible(ranges: Seq<SealRange>, k: int) -> (places: Seq<int>)
    requires
        0 <= k <= ranges.len(),
    ensures
        are_places(places, k, |i: int| ranges[i].permissions.bits & 4 == 4),
        executable_spec(ranges, k).len() == places.len(),
        forall|j: int|
            0 <= j < places.len() ==> executable_spec(ranges, k)[j]
                == ranges[#[trigger] places[j]].runtime_range,
    decreases k,
{
    let wanted = |i: int| ranges[i].permissions.bits & 4 == 4;
    if k <= 0 {
        Seq::empty()
    } else {
        let before = executable_parts_are_made_visible(ranges, k - 1);
        lemma_next_place(before, k - 1, wanted)
    }
}

} // verus!
