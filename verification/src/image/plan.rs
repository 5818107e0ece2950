//! The memory of a planned image.

use crate::address::{claim_range, range_at, FileRange, TargetAddr, TargetRange};
use crate::arith::{is_power_of_two, lemma_power_of_two_positive, power_of_two};
use crate::elf::{DynamicSegmentInfo, LoadSegmentInfo};
use crate::error::{
    claim_at, fail_at, failure, ErrorContext, LoadError, LoadErrorKind, LoadResult, LoadStage,
};
use crate::identity::{ElfClass, ElfType, LoadRequest};
use crate::image::admission::Inspection;
use crate::image::inspect::StackKind;
use crate::memory::{
    ready, AllocationLease, AllocationRequest, ImageAllocation, ImageLoadTransaction, ImageMemory,
    MutationProgress, Placement,
};
use vstd::prelude::*;

verus! {

/// An image whose span is known.
pub struct PlannedImage<R> {
    pub reader: R,
    pub request: LoadRequest,
    pub aligned_min_vaddr: TargetAddr,
    pub aligned_max_vaddr: TargetAddr,
    pub image_span: u64,
    pub max_align: u64,
    pub entry_vaddr: TargetAddr,
    pub canonical_entry_vaddr: TargetAddr,
    pub load_segments: Vec<LoadSegmentInfo>,
    pub dynamic: Option<DynamicSegmentInfo>,
    pub relro: Option<TargetRange>,
    pub stack: StackKind,
    pub interpreter: Option<FileRange>,
    pub tls: Option<TargetRange>,
}

/// The contents of a plan.
#[verifier::ext_equal]
pub struct PlannedView {
    pub aligned_min_vaddr: TargetAddr,
    pub aligned_max_vaddr: TargetAddr,
    pub image_span: u64,
    pub max_align: u64,
    pub entry_vaddr: TargetAddr,
    pub canonical_entry_vaddr: TargetAddr,
    pub found: Inspection,
}

impl<R> View for PlannedImage<R> {
    type V = PlannedView;

    open spec fn view(&self) -> PlannedView {
        PlannedView {
            aligned_min_vaddr: self.aligned_min_vaddr,
            aligned_max_vaddr: self.aligned_max_vaddr,
            image_span: self.image_span,
            max_align: self.max_align,
            entry_vaddr: self.entry_vaddr,
            canonical_entry_vaddr: self.canonical_entry_vaddr,
            found: Inspection {
                load_segments: self.load_segments@,
                dynamic: self.dynamic,
                relro: self.relro,
                stack: self.stack,
                interpreter: self.interpreter,
                tls: self.tls,
            },
        }
    }
}

/// An image with memory of its own.
pub struct AllocatedImage<R, M> {
    pub reader: R,
    pub transaction: ImageLoadTransaction<M>,
    pub load_bias: TargetAddr,
    pub plan: PlannedImage<()>,
}

impl<R, M> AllocatedImage<R, M> {
    /// An image with the memory of this transaction.
    #[inline]
    pub fn new(
        reader: R,
        transaction: ImageLoadTransaction<M>,
        load_bias: TargetAddr,
        plan: PlannedImage<()>,
    ) -> (r: Self)
        ensures
            r == (AllocatedImage {
                reader,
                transaction,
                load_bias,
                plan,
            }),
    {
        AllocatedImage {
            reader,
            transaction,
            load_bias,
            plan,
        }
    }
}

/// The allocation that a plan asks for.
pub open spec fn request_spec(plan: PlannedView, elf_type: ElfType) -> LoadResult<
    AllocationRequest,
> {
    let context = ErrorContext::TargetRange {
        start: plan.aligned_min_vaddr,
        len: plan.image_span,
        align: plan.max_align,
    };
    if elf_type != ElfType::Dyn {
        Err(
            failure(
                LoadStage::Allocate,
                LoadErrorKind::UnsupportedByProfile,
                ErrorContext::Nothing,
            ),
        )
    } else if plan.image_span == 0 {
        Err(failure(LoadStage::Allocate, LoadErrorKind::IncorrectLayout, context))
    } else if !power_of_two(plan.max_align as int) {
        Err(failure(LoadStage::Allocate, LoadErrorKind::InvalidAlignment, context))
    } else {
        Ok(
            AllocationRequest {
                placement: Placement::Anywhere,
                size: plan.image_span,
                align: plan.max_align,
            },
        )
    }
}

/// Whether an allocation is what was asked for, and addressable on the target.
pub open spec fn fits(
    allocation: ImageAllocation,
    request: AllocationRequest,
    class: ElfClass,
) -> bool {
    let end = allocation.base.0 + allocation.len;
    &&& allocation.len == request.size
    &&& allocation.align == request.align
    &&& allocation.base.0 % request.align == 0
    &&& end <= u64::MAX
    &&& class == ElfClass::Elf32 ==> end <= u32::MAX
}

/// Checks an allocation against its request.
pub fn validate_allocation(
    allocation: &ImageAllocation,
    request: &AllocationRequest,
    class: ElfClass,
) -> (r: LoadResult<()>)
    requires
        request.align > 0,
    ensures
        r == (if fits(*allocation, *request, class) {
            Ok::<(), LoadError>(())
        } else {
            Err::<(), LoadError>(
                failure(
                    LoadStage::Allocate,
                    LoadErrorKind::Backend,
                    ErrorContext::Allocation {
                        base: allocation.base,
                        len: allocation.len,
                        align: allocation.align,
                    },
                ),
            )
        }),
{
    let base: TargetAddr = allocation.base();
    let aligned: bool = base.get() % request.align() == 0;
    let target_width_valid: bool = match base.checked_add(allocation.len()) {
        Ok(end) => match class {
            ElfClass::Elf32 => end.get() <= u32::MAX as u64,
            ElfClass::Elf64 => true,
        },
        Err(_) => false,
    };
    if allocation.len() == request.size() && allocation.align() == request.align() && aligned
        && target_width_valid {
        return Ok(());
    }
    Err(
        fail_at(
            LoadStage::Allocate,
            LoadErrorKind::Backend,
            ErrorContext::Allocation { base, len: allocation.len(), align: allocation.align() },
        ),
    )
}

/// What a stage that failed hands back: its error and the memory, which holds no
/// image any more.
pub struct StageFailure<M> {
    pub error: LoadError,
    pub memory: M,
}

pub type StageResult<T, M> = core::result::Result<T, StageFailure<M>>;

/// What a stage came to, without the memory that a failure hands back.
pub open spec fn stage_outcome<T, M>(r: StageResult<T, M>) -> LoadResult<T> {
    match r {
        Ok(value) => Ok(value),
        Err(failed) => Err(failed.error),
    }
}

/// The bias of a plan in an allocation, or why the allocation cannot be used.
pub open spec fn bias_spec(
    plan: PlannedView,
    request: AllocationRequest,
    class: ElfClass,
    allocation: ImageAllocation,
) -> LoadResult<TargetAddr> {
    if !fits(allocation, request, class) {
        Err(
            failure(
                LoadStage::Allocate,
                LoadErrorKind::Backend,
                ErrorContext::Allocation {
                    base: allocation.base,
                    len: allocation.len,
                    align: allocation.align,
                },
            ),
        )
    } else {
        match range_at(allocation.base.sub_spec(plan.aligned_min_vaddr), LoadStage::Allocate) {
            Ok(bias) => Ok(TargetAddr(bias)),
            Err(error) => Err(error),
        }
    }
}

/// Whether a failure to allocate the memory of a plan is what came of asking for it:
/// the memory refused the request, or gave an allocation that cannot be used.
pub open spec fn unallocated<M: ImageMemory>(
    plan: PlannedView,
    asked: AllocationRequest,
    class: ElfClass,
    memory: M,
    error: LoadError,
) -> bool {
    exists|after: M, answer: LoadResult<AllocationLease>|
        #[trigger] memory.allocates(after, asked, answer) && match answer {
            Err(refusal) => error == refusal.claimed_by(LoadStage::Allocate),
            Ok(lease) => bias_spec(plan, asked, class, lease.allocation) == Err::<
                TargetAddr,
                LoadError,
            >(error),
        }
}

impl<R> PlannedImage<R> {
    /// An image with this span.
    #[inline]
    pub fn new(
        reader: R,
        request: LoadRequest,
        aligned_min_vaddr: TargetAddr,
        aligned_max_vaddr: TargetAddr,
        image_span: u64,
        max_align: u64,
        entry_vaddr: TargetAddr,
        canonical_entry_vaddr: TargetAddr,
        load_segments: Vec<LoadSegmentInfo>,
        dynamic: Option<DynamicSegmentInfo>,
        relro: Option<TargetRange>,
        stack: StackKind,
        interpreter: Option<FileRange>,
        tls: Option<TargetRange>,
    ) -> (r: Self)
        ensures
            r == (PlannedImage {
                reader,
                request,
                aligned_min_vaddr,
                aligned_max_vaddr,
                image_span,
                max_align,
                entry_vaddr,
                canonical_entry_vaddr,
                load_segments,
                dynamic,
                relro,
                stack,
                interpreter,
                tls,
            }),
    {
        PlannedImage {
            reader,
            request,
            aligned_min_vaddr,
            aligned_max_vaddr,
            image_span,
            max_align,
            entry_vaddr,
            canonical_entry_vaddr,
            load_segments,
            dynamic,
            relro,
            stack,
            interpreter,
            tls,
        }
    }

    pub fn allocation_request(&self) -> (r: LoadResult<AllocationRequest>)
        ensures
            r == request_spec(self@, self.request.profile.elf_type),
    {
        if self.request.profile().elf_type() != ElfType::Dyn {
            return Err(
                fail_at(
                    LoadStage::Allocate,
                    LoadErrorKind::UnsupportedByProfile,
                    ErrorContext::Nothing,
                ),
            );
        }
        let size: u64 = self.image_span;
        let align: u64 = self.max_align;
        if size == 0 {
            return Err(
                fail_at(
                    LoadStage::Allocate,
                    LoadErrorKind::IncorrectLayout,
                    ErrorContext::TargetRange { start: self.aligned_min_vaddr, len: size, align },
                ),
            );
        }
        if !is_power_of_two(align) {
            return Err(
                fail_at(
                    LoadStage::Allocate,
                    LoadErrorKind::InvalidAlignment,
                    ErrorContext::TargetRange { start: self.aligned_min_vaddr, len: size, align },
                ),
            );
        }
        Ok(AllocationRequest::new(Placement::Anywhere, size, align))
    }

    /// The bias of the image in an allocation that was made for it.
    pub fn load_bias(&self, request: &AllocationRequest, allocation: &ImageAllocation) -> (r:
        LoadResult<TargetAddr>)
        requires
            request.align > 0,
        ensures
            r == bias_spec(self@, *request, self.request.profile.class, *allocation),
    {
        validate_allocation(allocation, request, self.request.profile().class())?;
        let bias: u64 = claim_range(
            allocation.base().checked_sub(self.aligned_min_vaddr),
            LoadStage::Allocate,
        )?;
        Ok(TargetAddr::new(bias))
    }

    /// Allocates the memory of the image. On failure the memory holds nothing.
    pub fn allocate<M: ImageMemory>(self, memory: M) -> (r: StageResult<AllocatedImage<R, M>, M>)
        ensures
            match r {
                Ok(image) => {
                    let request = request_spec(self@, self.request.profile.elf_type);
                    &&& request is Ok
                    &&& image.transaction.active()
                    &&& image.transaction.progress == MutationProgress::Reserved
                    &&& image.transaction.memory.current() == Some(
                        image.transaction.pending->0.allocation,
                    )
                    &&& bias_spec(
                        self@,
                        request->Ok_0,
                        self.request.profile.class,
                        image.transaction.pending->0.allocation,
                    ) == Ok::<TargetAddr, LoadError>(image.load_bias)
                    &&& image.plan@ == self@
                    &&& image.plan.request == self.request
                    &&& image.reader == self.reader
                    &&& memory.reliable() ==> ready(image.transaction.memory)
                    &&& image.transaction.memory.source() == memory.source()
                    &&& memory.allocates(
                        image.transaction.memory,
                        request->Ok_0,
                        Ok(image.transaction.pending->0),
                    )
                },
                Err(failed) => {
                    &&& failed.memory.current() is None || failed.memory.current()
                        == memory.current()
                    &&& failed.error.stage == Some(LoadStage::Allocate)
                    &&& request_spec(self@, self.request.profile.elf_type) matches Ok(asked)
                        ==> unallocated(
                        self@,
                        asked,
                        self.request.profile.class,
                        memory,
                        failed.error,
                    )
                },
            },
            request_spec(self@, self.request.profile.elf_type) matches Err(error) ==> r matches Err(
                failed,
            ) && failed.error == error && failed.memory == memory,
    {
        let mut memory = memory;
        let request = match self.allocation_request() {
            Ok(request) => request,
            Err(error) => return Err(StageFailure { error, memory }),
        };
        proof {
            lemma_power_of_two_positive(request.align as int);
        }
        let ghost given = memory;
        let answer = memory.allocate_image(request);
        assert(given.allocates(memory, request, answer));
        let lease = match claim_at(answer, LoadStage::Allocate) {
            Ok(lease) => lease,
            Err(error) => return Err(StageFailure { error, memory }),
        };
        let bias = self.load_bias(&request, lease.allocation());
        let transaction = ImageLoadTransaction::new(memory, lease);
        match bias {
            Ok(load_bias) => Ok(
                AllocatedImage::new(
                    self.reader,
                    transaction,
                    load_bias,
                    PlannedImage::new(
                        (),
                        self.request,
                        self.aligned_min_vaddr,
                        self.aligned_max_vaddr,
                        self.image_span,
                        self.max_align,
                        self.entry_vaddr,
                        self.canonical_entry_vaddr,
                        self.load_segments,
                        self.dynamic,
                        self.relro,
                        self.stack,
                        self.interpreter,
                        self.tls,
                    ),
                ),
            ),
            Err(error) => Err(StageFailure { error, memory: transaction.finish() }),
        }
    }
}

/// A plan asks for memory of its span and its alignment, which is a power of two. An
/// allocation that is used has both, and starts at a multiple of the alignment. The load
/// bias is the distance from the addresses of the plan to those of the allocation.
pub proof fn plans_get_the_memory_that_they_ask_for(
    plan: PlannedView,
    elf_type: ElfType,
    class: ElfClass,
    request: AllocationRequest,
    allocation: ImageAllocation,
    bias: TargetAddr,
)
    requires
        request_spec(plan, elf_type) == Ok::<AllocationRequest, LoadError>(request),
        bias_spec(plan, request, class, allocation) == Ok::<TargetAddr, LoadError>(bias),
    ensures
        elf_type is Dyn,
        request.placement is Anywhere,
        request.size == plan.image_span,
        request.align == plan.max_align,
        plan.image_span > 0,
        allocation.len == plan.image_span,
        allocation.align == plan.max_align,
        allocation.base.0 % plan.max_align == 0,
        bias.0 + plan.aligned_min_vaddr.0 == allocation.base.0,
        allocation.base.0 + allocation.len <= u64::MAX,
        class is Elf32 ==> allocation.base.0 + allocation.len <= 0xffff_ffff,
{
}

} // verus!
