//! The order in which the images of a link start and end.
//!
//! Relocation leaves the final function addresses in the arrays of the images.
//! They are read back, each address is checked against the executable segments of
//! its own image, and the constructors are put in dependency-first order, the
//! destructors in the reverse image order. Nothing here calls a function.

use crate::address::{TargetAddr, TargetRange};
use crate::bytes::word_at;
use crate::dynamic_linker::artifact::ImageId;
use crate::dynamic_linker::graph::{
    edge_pairs, id_group, id_groups, lemma_reached_is_needed, lemma_requester_reaches_provider,
    needs,
    DependencyGraph,
};
use crate::dynamic_linker::metadata::ImageLifecycleMetadata;
use crate::dynamic_linker::order::{
    dependency_groups_spec, everything_needed_comes_first, in_some_group, is_dependency_order,
};
use crate::dynamic_linker::reach::{
    closed_graph, lemma_reach_edge, lemma_reach_refl, mutual, reach, Adjacency,
};
use crate::elf::LoadSegmentInfo;
use crate::error::{
    claim, claim_at, fail_at, failure, ErrorContext, LoadError, LoadErrorKind, LoadResult,
    LoadStage,
};
use crate::identity::{EntryMode, LoadProfile};
use crate::image::loaded::{regions_within, LoadedRegion};
use crate::image::tables::{
    found_addresses_keep_their_distance, lemma_offset_within, lies_at, locate_offset, offset_spec,
};
use crate::memory::{ready, AllocationOffset, ImageMemory};
use crate::permissions::MemoryPermissions;
use crate::relocation::{TargetWord, WordWidth};
use vstd::prelude::*;

verus! {

/// A function to call, and the image that has to outlive the call.
#[derive(Clone, Copy, Debug, PartialEq, Eq, Structural)]
pub struct LifecycleEntry {
    pub owner: ImageId,
    pub function: TargetAddr,
}

impl LifecycleEntry {
    #[inline]
    pub fn new(owner: ImageId, function: TargetAddr) -> (r: Self)
        ensures
            r == (LifecycleEntry { owner, function }),
    {
        LifecycleEntry { owner, function }
    }

    #[inline]
    pub fn owner(&self) -> (r: ImageId)
        ensures
            r == self.owner,
    {
        self.owner
    }

    #[inline]
    pub fn function(&self) -> (r: TargetAddr)
        ensures
            r == self.function,
    {
        self.function
    }
}

/// The constructors in the order in which they run.
#[derive(Debug)]
pub struct InitPlan(pub Vec<LifecycleEntry>);

impl InitPlan {
    #[inline]
    pub fn entries(&self) -> (r: &[LifecycleEntry])
        ensures
            r@ == self.0@,
    {
        self.0.as_slice()
    }

    #[inline]
    pub fn len(&self) -> (r: usize)
        ensures
            r == self.0@.len(),
    {
        self.0.len()
    }

    #[inline]
    pub fn is_empty(&self) -> (r: bool)
        ensures
            r == (self.0@.len() == 0),
    {
        self.0.len() == 0
    }
}

/// The destructors in the order in which they run.
#[derive(Debug)]
pub struct FiniPlan(pub Vec<LifecycleEntry>);

impl FiniPlan {
    #[inline]
    pub fn entries(&self) -> (r: &[LifecycleEntry])
        ensures
            r@ == self.0@,
    {
        self.0.as_slice()
    }

    #[inline]
    pub fn len(&self) -> (r: usize)
        ensures
            r == self.0@.len(),
    {
        self.0.len()
    }

    #[inline]
    pub fn is_empty(&self) -> (r: bool)
        ensures
            r == (self.0@.len() == 0),
    {
        self.0.len() == 0
    }
}

/// What the plans need of one relocated image.
pub struct LifecycleImage<'a, M> {
    pub image_id: ImageId,
    pub memory: &'a M,
    pub regions: &'a Vec<LoadedRegion>,
    pub load_segments: &'a Vec<LoadSegmentInfo>,
    pub lifecycle: ImageLifecycleMetadata,
    pub load_bias: TargetAddr,
}

/// What an image contributes to the plans.
pub struct LifecycleView {
    pub image_id: ImageId,
    pub content: Seq<u8>,
    pub regions: Seq<LoadedRegion>,
    pub load_segments: Seq<LoadSegmentInfo>,
    pub lifecycle: ImageLifecycleMetadata,
    pub load_bias: TargetAddr,
}

impl<'a, M: ImageMemory> LifecycleImage<'a, M> {
    pub open spec fn facts(self) -> LifecycleView {
        LifecycleView {
            image_id: self.image_id,
            content: self.memory.content(),
            regions: self.regions@,
            load_segments: self.load_segments@,
            lifecycle: self.lifecycle,
            load_bias: self.load_bias,
        }
    }

    pub fn new(
        image_id: ImageId,
        memory: &'a M,
        regions: &'a Vec<LoadedRegion>,
        load_segments: &'a Vec<LoadSegmentInfo>,
        lifecycle: ImageLifecycleMetadata,
        load_bias: TargetAddr,
    ) -> (r: Self)
        ensures
            r.facts() == (LifecycleView {
                image_id,
                content: memory.content(),
                regions: regions@,
                load_segments: load_segments@,
                lifecycle,
                load_bias,
            }),
    {
        LifecycleImage { image_id, memory, regions, load_segments, lifecycle, load_bias }
    }

    #[inline]
    pub fn image_id(&self) -> (r: ImageId)
        ensures
            r == self.facts().image_id,
    {
        self.image_id
    }
}

/// How functions and array words are read.
#[derive(Clone, Copy, Debug, PartialEq, Eq, Structural)]
pub struct Decode {
    pub target_word: TargetWord,
    pub mode: EntryMode,
}

impl Decode {
    pub open spec fn profile_spec(profile: LoadProfile) -> Self {
        Decode {
            target_word: TargetWord {
                width: WordWidth::class_spec(profile.class),
                endian: profile.endian,
            },
            mode: profile.entry_mode_spec(),
        }
    }

    pub fn for_profile(profile: &LoadProfile) -> (r: Self)
        ensures
            r == Self::profile_spec(*profile),
    {
        Decode {
            target_word: TargetWord::new(
                WordWidth::for_elf_class(profile.class()),
                profile.endian(),
            ),
            mode: profile.entry_mode(),
        }
    }
}

/// The failure of the plans for `kind`.
pub open spec fn lifecycle_failure(kind: LoadErrorKind) -> LoadError {
    failure(LoadStage::LinkSeal, kind, ErrorContext::Nothing)
}

fn lifecycle_error(kind: LoadErrorKind) -> (r: LoadError)
    ensures
        r == lifecycle_failure(kind),
{
    fail_at(LoadStage::LinkSeal, kind, ErrorContext::Nothing)
}

/// The failure of a function that lies in no executable segment.
pub open spec fn function_failure(function: TargetAddr) -> LoadError {
    failure(
        LoadStage::LinkSeal,
        LoadErrorKind::BadElf,
        ErrorContext::TargetRange { start: function, len: 0, align: 0 },
    )
}

fn function_error(function: TargetAddr) -> (r: LoadError)
    ensures
        r == function_failure(function),
{
    fail_at(
        LoadStage::LinkSeal,
        LoadErrorKind::BadElf,
        ErrorContext::TargetRange { start: function, len: 0, align: 0 },
    )
}

/// Whether segment `i` is executable and holds a whole instruction at `canonical`.
pub open spec fn executes(
    load_segments: Seq<LoadSegmentInfo>,
    regions: Seq<LoadedRegion>,
    i: int,
    canonical: TargetAddr,
    instruction: u64,
) -> bool {
    load_segments[i].permissions.covers(MemoryPermissions::spec_execute())
        && regions[i].runtime_range.holds(canonical, instruction)
}

/// What is wrong with a function of an image, if anything.
pub open spec fn function_fault(
    mode: EntryMode,
    load_segments: Seq<LoadSegmentInfo>,
    regions: Seq<LoadedRegion>,
    function: TargetAddr,
) -> Option<LoadError> {
    if mode == EntryMode::Thumb && function.0 % 2 == 0 {
        Some(function_failure(function))
    } else if load_segments.len() != regions.len() {
        Some(lifecycle_failure(LoadErrorKind::BadElf))
    } else if exists|i: int|
        0 <= i < regions.len() && #[trigger] executes(
            load_segments,
            regions,
            i,
            TargetAddr(mode.canonical_spec(function.0)),
            mode.instruction_spec(),
        ) {
        None
    } else {
        Some(function_failure(function))
    }
}

/// Checks that a function has its mode bit where the machine asks for one, and
/// that a whole instruction of it lies in an executable segment of the image.
pub fn validate_function(
    mode: EntryMode,
    load_segments: &Vec<LoadSegmentInfo>,
    regions: &Vec<LoadedRegion>,
    function: TargetAddr,
) -> (r: LoadResult<()>)
    ensures
        match function_fault(mode, load_segments@, regions@, function) {
            Some(error) => r == Err::<(), LoadError>(error),
            None => r is Ok,
        },
{
    if mode.is_thumb() && function.get() % 2 == 0 {
        return Err(function_error(function));
    }
    if load_segments.len() != regions.len() {
        return Err(lifecycle_error(LoadErrorKind::BadElf));
    }
    let canonical: TargetAddr = TargetAddr::new(mode.canonical_entry(function.get()));
    let instruction: u64 = mode.minimum_instruction_size();
    let mut index: usize = 0;
    while index < regions.len()
        invariant
            index <= regions@.len() == load_segments@.len(),
            forall|i: int|
                0 <= i < index ==> !#[trigger] executes(
                    load_segments@,
                    regions@,
                    i,
                    canonical,
                    instruction,
                ),
            canonical == TargetAddr(mode.canonical_spec(function.0)),
            instruction == mode.instruction_spec(),
            !(mode == EntryMode::Thumb && function.0 % 2 == 0),
        decreases regions@.len() - index,
    {
        if load_segments[index].permissions().contains(MemoryPermissions::execute())
            && regions[index].runtime_range().contains_span(canonical, instruction) {
            assert(executes(load_segments@, regions@, index as int, canonical, instruction));
            return Ok(());
        }
        index = index + 1;
    }
    Err(function_error(function))
}

/// The plan entry of a direct entry point, which is given by its virtual address.
pub open spec fn direct_spec(mode: EntryMode, image: LifecycleView, direct: Option<TargetAddr>) -> LoadResult<
    Seq<LifecycleEntry>,
> {
    match direct {
        None => Ok(Seq::empty()),
        Some(vaddr) => if image.load_bias.0 + vaddr.0 > u64::MAX {
            Err(lifecycle_failure(LoadErrorKind::IntegerOverflow))
        } else {
            let function = TargetAddr((image.load_bias.0 + vaddr.0) as u64);
            match function_fault(mode, image.load_segments, image.regions, function) {
                Some(error) => Err(error),
                None => Ok(seq![LifecycleEntry { owner: image.image_id, function }]),
            }
        },
    }
}

fn emit_direct<M: ImageMemory>(
    mode: EntryMode,
    image: &LifecycleImage<'_, M>,
    direct: Option<TargetAddr>,
    plan: &mut Vec<LifecycleEntry>,
) -> (r: LoadResult<()>)
    ensures
        match direct_spec(mode, image.facts(), direct) {
            Ok(entries) => r is Ok && final(plan)@ == old(plan)@ + entries,
            Err(error) => r == Err::<(), LoadError>(error),
        },
{
    let vaddr: TargetAddr = match direct {
        Some(vaddr) => vaddr,
        None => {
            assert(plan@ + Seq::<LifecycleEntry>::empty() =~= plan@);
            return Ok(());
        },
    };
    let function: TargetAddr = match image.load_bias.checked_add(vaddr.get()) {
        Ok(function) => function,
        Err(_) => return Err(lifecycle_error(LoadErrorKind::IntegerOverflow)),
    };
    validate_function(mode, image.load_segments, image.regions, function)?;
    plan.push(LifecycleEntry::new(image.image_id, function));
    assert(plan@ =~= old(plan)@ + seq![
        LifecycleEntry { owner: image.image_id, function },
    ]);
    Ok(())
}

/// The plan entry of an array word. Zero and the largest word name no function.
pub open spec fn word_entry(
    decode: Decode,
    image_id: ImageId,
    load_segments: Seq<LoadSegmentInfo>,
    regions: Seq<LoadedRegion>,
    value: u64,
) -> LoadResult<Seq<LifecycleEntry>> {
    if value == 0 || value == decode.target_word.width.maximum_spec() {
        Ok(Seq::empty())
    } else {
        match function_fault(decode.mode, load_segments, regions, TargetAddr(value)) {
            Some(error) => Err(error),
            None => Ok(seq![LifecycleEntry { owner: image_id, function: TargetAddr(value) }]),
        }
    }
}

/// Adds what an array word names to a plan.
pub fn emit_word(
    decode: Decode,
    image_id: ImageId,
    load_segments: &Vec<LoadSegmentInfo>,
    regions: &Vec<LoadedRegion>,
    value: u64,
    plan: &mut Vec<LifecycleEntry>,
) -> (r: LoadResult<()>)
    ensures
        match word_entry(decode, image_id, load_segments@, regions@, value) {
            Ok(entries) => r is Ok && final(plan)@ == old(plan)@ + entries,
            Err(error) => r == Err::<(), LoadError>(error) && final(plan)@ == old(plan)@,
        },
{
    if value == 0 || value == decode.target_word.width().maximum() {
        assert(plan@ + Seq::<LifecycleEntry>::empty() =~= plan@);
        return Ok(());
    }
    let function: TargetAddr = TargetAddr::new(value);
    validate_function(decode.mode, load_segments, regions, function)?;
    plan.push(LifecycleEntry::new(image_id, function));
    assert(plan@ =~= old(plan)@ + seq![LifecycleEntry { owner: image_id, function }]);
    Ok(())
}

/// Where slot `index` of an array lies in the allocation.
pub open spec fn slot_offset(
    decode: Decode,
    regions: Seq<LoadedRegion>,
    range: TargetRange,
    index: int,
) -> LoadResult<AllocationOffset> {
    let width = decode.target_word.width.bytes_spec();
    if range.start.0 + index * width > u64::MAX {
        Err(lifecycle_failure(LoadErrorKind::IntegerOverflow))
    } else {
        claim(
            offset_spec(
                regions,
                TargetAddr((range.start.0 + index * width) as u64),
                width,
                MemoryPermissions::spec_none(),
            ),
            LoadStage::LinkSeal,
        )
    }
}

/// How many words an array holds.
pub open spec fn slot_count(decode: Decode, range: TargetRange) -> int {
    range.len as int / decode.target_word.width.bytes_spec() as int
}

/// The slot that is read as number `k`.
pub open spec fn slot_at(decode: Decode, range: TargetRange, k: int, reverse: bool) -> int {
    if reverse {
        slot_count(decode, range) - 1 - k
    } else {
        k
    }
}

/// What slot `index` of an array names.
pub open spec fn slot_entry(
    decode: Decode,
    image: LifecycleView,
    range: TargetRange,
    index: int,
) -> LoadResult<Seq<LifecycleEntry>> {
    match slot_offset(decode, image.regions, range, index) {
        Err(error) => Err(error),
        Ok(offset) => word_entry(
            decode,
            image.image_id,
            image.load_segments,
            image.regions,
            decode.target_word.held(image.content, offset) as u64,
        ),
    }
}

/// One list of entries behind another, if both are there.
pub open spec fn chained(
    first: LoadResult<Seq<LifecycleEntry>>,
    second: LoadResult<Seq<LifecycleEntry>>,
) -> LoadResult<Seq<LifecycleEntry>> {
    match first {
        Err(error) => Err(error),
        Ok(before) => match second {
            Err(error) => Err(error),
            Ok(after) => Ok(before + after),
        },
    }
}

/// What the first `k` slots that are read of an array name.
pub open spec fn slots_spec(
    decode: Decode,
    image: LifecycleView,
    range: TargetRange,
    reverse: bool,
    k: int,
) -> LoadResult<Seq<LifecycleEntry>>
    decreases k,
{
    if k <= 0 {
        Ok(Seq::empty())
    } else {
        chained(
            slots_spec(decode, image, range, reverse, k - 1),
            slot_entry(decode, image, range, slot_at(decode, range, k - 1, reverse)),
        )
    }
}

/// What an array names.
pub open spec fn array_spec(
    decode: Decode,
    image: LifecycleView,
    range: Option<TargetRange>,
    reverse: bool,
) -> LoadResult<Seq<LifecycleEntry>> {
    match range {
        None => Ok(Seq::empty()),
        Some(range) => slots_spec(decode, image, range, reverse, slot_count(decode, range)),
    }
}

proof fn lemma_slots_fail(
    decode: Decode,
    image: LifecycleView,
    range: TargetRange,
    reverse: bool,
    k: int,
    n: int,
)
    requires
        0 <= k <= n,
        slots_spec(decode, image, range, reverse, k) is Err,
    ensures
        slots_spec(decode, image, range, reverse, n) == slots_spec(decode, image, range, reverse, k),
    decreases n,
{
    if k < n {
        lemma_slots_fail(decode, image, range, reverse, k, n - 1);
    }
}

/// Whether the words of an image can be read: its memory answers, and its regions
/// lie in it.
pub open spec fn legible<M: ImageMemory>(image: LifecycleImage<'_, M>) -> bool {
    &&& ready(*image.memory)
    &&& regions_within(image.regions@, image.memory.content().len())
}

/// Reads the words of an array and adds what they name to a plan.
fn read_array<M: ImageMemory>(
    decode: Decode,
    image: &LifecycleImage<'_, M>,
    range: Option<TargetRange>,
    reverse: bool,
    plan: &mut Vec<LifecycleEntry>,
) -> (r: LoadResult<()>)
    ensures
        r is Ok ==> array_spec(decode, image.facts(), range, reverse) is Ok && final(plan)@ == old(
            plan,
        )@ + array_spec(decode, image.facts(), range, reverse)->Ok_0,
        legible(*image) ==> match array_spec(decode, image.facts(), range, reverse) {
            Ok(_) => r is Ok,
            Err(error) => r == Err::<(), LoadError>(error),
        },
{
    let array: TargetRange = match range {
        Some(array) => array,
        None => {
            assert(plan@ + Seq::<LifecycleEntry>::empty() =~= plan@);
            return Ok(());
        },
    };
    let ghost facts = image.facts();
    let width: u64 = decode.target_word.width().bytes();
    let count: u64 = array.len() / width;
    let mut slot: u64 = 0;
    assert(plan@ + Seq::<LifecycleEntry>::empty() =~= plan@);
    while slot < count
        invariant
            slot <= count,
            facts == image.facts(),
            range == Some(array),
            width == decode.target_word.width.bytes_spec(),
            count == array.len / width,
            count == slot_count(decode, array),
            slots_spec(decode, facts, array, reverse, slot as int) is Ok,
            plan@ == old(plan)@ + slots_spec(decode, facts, array, reverse, slot as int)->Ok_0,
        decreases count - slot,
    {
        let index: u64 = if reverse {
            count - 1 - slot
        } else {
            slot
        };
        assert(index * width <= array.len && index * width <= u64::MAX) by (nonlinear_arith)
            requires
                index < count,
                count == array.len / width,
                width == 4 || width == 8,
        ;
        let delta: u64 = index * width;
        proof {
            assert(index == slot_at(decode, array, slot as int, reverse));
            if slots_spec(decode, facts, array, reverse, slot + 1) is Err {
                lemma_slots_fail(decode, facts, array, reverse, slot + 1, count as int);
            }
            if legible(*image) && array.start.0 + delta <= u64::MAX {
                lemma_offset_within(
                    image.regions@,
                    TargetAddr((array.start.0 + delta) as u64),
                    width,
                    MemoryPermissions::spec_none(),
                    image.memory.content().len(),
                );
            }
        }
        let vaddr: TargetAddr = match array.start().checked_add(delta) {
            Ok(vaddr) => vaddr,
            Err(_) => return Err(lifecycle_error(LoadErrorKind::IntegerOverflow)),
        };
        let offset: AllocationOffset = claim_at(
            locate_offset(image.regions, vaddr, width, MemoryPermissions::none()),
            LoadStage::LinkSeal,
        )?;
        let value: u64 = claim_at(
            decode.target_word.read(image.memory, offset),
            LoadStage::LinkSeal,
        )?;
        let ghost before = plan@;
        emit_word(decode, image.image_id, image.load_segments, image.regions, value, plan)?;
        proof {
            let so_far = slots_spec(decode, facts, array, reverse, slot as int)->Ok_0;
            let entries = slot_entry(decode, facts, array, index as int)->Ok_0;
            assert(old(plan)@ + so_far + entries =~= old(plan)@ + (so_far + entries));
        }
        slot = slot + 1;
    }
    Ok(())
}

/// The constructors of one image: its direct entry point, then its array.
pub open spec fn image_init(decode: Decode, image: LifecycleView) -> LoadResult<Seq<LifecycleEntry>> {
    chained(
        direct_spec(decode.mode, image, image.lifecycle.init),
        array_spec(decode, image, image.lifecycle.init_array, false),
    )
}

/// The destructors of one image: its array from the end, then its direct entry
/// point.
pub open spec fn image_fini(decode: Decode, image: LifecycleView) -> LoadResult<Seq<LifecycleEntry>> {
    chained(
        array_spec(decode, image, image.lifecycle.fini_array, true),
        direct_spec(decode.mode, image, image.lifecycle.fini),
    )
}

/// What runs before every constructor of the first `k` images: the root's own
/// array. No other image may have one.
pub open spec fn preinits(decode: Decode, images: Seq<LifecycleView>, k: int) -> LoadResult<
    Seq<LifecycleEntry>,
>
    decreases k,
{
    if k <= 0 {
        Ok(Seq::empty())
    } else {
        let image = images[k - 1];
        chained(
            preinits(decode, images, k - 1),
            if image.image_id.0 == 0 {
                array_spec(decode, image, image.lifecycle.preinit_array, false)
            } else if image.lifecycle.preinit_array is Some {
                Err(lifecycle_failure(LoadErrorKind::UnsupportedByProfile))
            } else {
                Ok(Seq::empty())
            },
        )
    }
}

/// The constructors of the first `k` images of `order`.
pub open spec fn inits(decode: Decode, images: Seq<LifecycleView>, order: Seq<u32>, k: int) -> LoadResult<
    Seq<LifecycleEntry>,
>
    decreases k,
{
    if k <= 0 {
        Ok(Seq::empty())
    } else {
        chained(
            inits(decode, images, order, k - 1),
            if order[k - 1] < images.len() {
                image_init(decode, images[order[k - 1] as int])
            } else {
                Err(lifecycle_failure(LoadErrorKind::BadElf))
            },
        )
    }
}

/// The destructors of the last `k` images of `order`, the last image first.
pub open spec fn finis(decode: Decode, images: Seq<LifecycleView>, order: Seq<u32>, k: int) -> LoadResult<
    Seq<LifecycleEntry>,
>
    decreases k,
{
    if k <= 0 {
        Ok(Seq::empty())
    } else {
        let id = order[order.len() - k];
        chained(
            finis(decode, images, order, k - 1),
            if id < images.len() {
                image_fini(decode, images[id as int])
            } else {
                Err(lifecycle_failure(LoadErrorKind::BadElf))
            },
        )
    }
}

/// The members of the first `k` groups, group by group.
pub open spec fn flattened(groups: Seq<Seq<u32>>, k: int) -> Seq<u32>
    decreases k,
{
    if k <= 0 {
        Seq::empty()
    } else {
        flattened(groups, k - 1) + groups[k - 1]
    }
}

/// The images of a graph in dependency-first order.
pub open spec fn start_order(graph: DependencyGraph) -> Seq<u32> {
    let groups = dependency_groups_spec(edge_pairs(graph.edges@), graph.nodes@.len());
    flattened(groups, groups.len() as int)
}

/// Flattens the groups of the dependency order.
pub fn ordered_images(graph: &DependencyGraph) -> (r: Vec<ImageId>)
    requires
        graph.wf(),
    ensures
        id_group(r@) == start_order(*graph),
{
    let groups: Vec<Vec<ImageId>> = graph.dependency_order();
    let ghost plain = id_groups(groups@);
    let mut ordered: Vec<ImageId> = Vec::new();
    let mut group: usize = 0;
    assert(id_group(ordered@) =~= flattened(plain, 0));
    while group < groups.len()
        invariant
            group <= groups@.len(),
            plain == id_groups(groups@),
            id_group(ordered@) == flattened(plain, group as int),
        decreases groups@.len() - group,
    {
        let ghost before = ordered@;
        let mut member: usize = 0;
        assert(ordered@ =~= before + groups@[group as int]@.subrange(0, 0));
        while member < groups[group].len()
            invariant
                group < groups@.len(),
                member <= groups@[group as int]@.len(),
                ordered@ == before + groups@[group as int]@.subrange(0, member as int),
            decreases groups@[group as int]@.len() - member,
        {
            ordered.push(groups[group][member]);
            assert(ordered@ =~= before + groups@[group as int]@.subrange(0, member + 1));
            member = member + 1;
        }
        assert(groups@[group as int]@.subrange(0, member as int) =~= groups@[group as int]@);
        assert(id_group(ordered@) =~= id_group(before) + plain[group as int]);
        group = group + 1;
    }
    ordered
}

/// What each image contributes.
pub open spec fn all_facts<M: ImageMemory>(images: Seq<LifecycleImage<'_, M>>) -> Seq<LifecycleView> {
    Seq::new(images.len(), |i: int| images[i].facts())
}

proof fn lemma_preinits_fail(decode: Decode, images: Seq<LifecycleView>, k: int, n: int)
    requires
        0 <= k <= n,
        preinits(decode, images, k) is Err,
    ensures
        preinits(decode, images, n) == preinits(decode, images, k),
    decreases n,
{
    if k < n {
        lemma_preinits_fail(decode, images, k, n - 1);
    }
}

proof fn lemma_inits_fail(
    decode: Decode,
    images: Seq<LifecycleView>,
    order: Seq<u32>,
    k: int,
    n: int,
)
    requires
        0 <= k <= n,
    ensures
        inits(decode, images, order, k) is Err ==> inits(decode, images, order, n) == inits(
            decode,
            images,
            order,
            k,
        ),
        finis(decode, images, order, k) is Err ==> finis(decode, images, order, n) == finis(
            decode,
            images,
            order,
            k,
        ),
    decreases n,
{
    if k < n {
        lemma_inits_fail(decode, images, order, k, n - 1);
    }
}

/// What `build` returns: the failure of the first part that has one, or both
/// plans.
pub open spec fn planned(
    decode: Decode,
    images: Seq<LifecycleView>,
    order: Seq<u32>,
) -> LoadResult<(Seq<LifecycleEntry>, Seq<LifecycleEntry>)> {
    match chained(
        preinits(decode, images, images.len() as int),
        inits(decode, images, order, order.len() as int),
    ) {
        Err(error) => Err(error),
        Ok(init) => match finis(decode, images, order, order.len() as int) {
            Err(error) => Err(error),
            Ok(fini) => Ok((init, fini)),
        },
    }
}

/// The constructors and destructors of a link.
///
/// The root's own early array runs first. Then every image, its providers before
/// it, runs its direct entry point and its array. The destructors take the images
/// in the reverse order, and in each the array from its end and then the direct
/// entry point.
#[verifier::spinoff_prover]
#[verifier::rlimit(60)]
pub fn build<M: ImageMemory>(
    graph: &DependencyGraph,
    images: &Vec<LifecycleImage<'_, M>>,
    profile: &LoadProfile,
) -> (r: LoadResult<(InitPlan, FiniPlan)>)
    requires
        graph.wf(),
    ensures
        r matches Ok(plans) ==> planned(
            Decode::profile_spec(*profile),
            all_facts(images@),
            start_order(*graph),
        ) == Ok::<_, LoadError>(((plans.0).0@, (plans.1).0@)),
        (forall|i: int| 0 <= i < images@.len() ==> legible(#[trigger] images@[i])) ==> match planned(
            Decode::profile_spec(*profile),
            all_facts(images@),
            start_order(*graph),
        ) {
            Ok(_) => r is Ok,
            Err(error) => r == Err::<(InitPlan, FiniPlan), LoadError>(error),
        },
{
    let decode: Decode = Decode::for_profile(profile);
    let ordered: Vec<ImageId> = ordered_images(graph);
    let ghost order = start_order(*graph);
    let ghost facts = all_facts(images@);

    let mut init: Vec<LifecycleEntry> = Vec::new();
    let mut index: usize = 0;
    while index < images.len()
        invariant
            index <= images@.len(),
            facts == all_facts(images@),
            order == start_order(*graph),
            decode == Decode::profile_spec(*profile),
            preinits(decode, facts, index as int) is Ok,
            init@ == preinits(decode, facts, index as int)->Ok_0,
        decreases images@.len() - index,
    {
        let image: &LifecycleImage<'_, M> = &images[index];
        assert(facts[index as int] == image.facts());
        proof {
            if preinits(decode, facts, index + 1) is Err {
                lemma_preinits_fail(decode, facts, index + 1, facts.len() as int);
            }
        }
        if image.image_id.get() == 0 {
            read_array(decode, image, image.lifecycle.preinit_array(), false, &mut init)?;
        } else if image.lifecycle.preinit_array().is_some() {
            return Err(lifecycle_error(LoadErrorKind::UnsupportedByProfile));
        } else {
            assert(init@ + Seq::<LifecycleEntry>::empty() =~= init@);
        }
        index = index + 1;
    }
    let ghost early = init@;

    let mut at: usize = 0;
    assert(early + Seq::<LifecycleEntry>::empty() =~= early);
    while at < ordered.len()
        invariant
            at <= ordered@.len() == order.len(),
            id_group(ordered@) == order,
            facts == all_facts(images@),
            order == start_order(*graph),
            decode == Decode::profile_spec(*profile),
            preinits(decode, facts, facts.len() as int) == Ok::<_, LoadError>(early),
            inits(decode, facts, order, at as int) is Ok,
            init@ == early + inits(decode, facts, order, at as int)->Ok_0,
        decreases ordered@.len() - at,
    {
        let id: usize = ordered[at].get() as usize;
        assert(order[at as int] == id);
        proof {
            lemma_inits_fail(decode, facts, order, at + 1, order.len() as int);
        }
        if id >= images.len() {
            return Err(lifecycle_error(LoadErrorKind::BadElf));
        }
        let image: &LifecycleImage<'_, M> = &images[id];
        assert(facts[id as int] == image.facts());
        let ghost before = init@;
        emit_direct(decode.mode, image, image.lifecycle.init(), &mut init)?;
        read_array(decode, image, image.lifecycle.init_array(), false, &mut init)?;
        proof {
            let so_far = inits(decode, facts, order, at as int)->Ok_0;
            let direct = direct_spec(decode.mode, image.facts(), image.lifecycle.init)->Ok_0;
            let array = array_spec(
                decode,
                image.facts(),
                image.lifecycle.init_array,
                false,
            )->Ok_0;
            assert(early + so_far + direct + array =~= early + (so_far + (direct + array)));
        }
        at = at + 1;
    }

    let mut fini: Vec<LifecycleEntry> = Vec::new();
    let mut left: usize = ordered.len();
    while left > 0
        invariant
            left <= ordered@.len() == order.len(),
            id_group(ordered@) == order,
            facts == all_facts(images@),
            order == start_order(*graph),
            decode == Decode::profile_spec(*profile),
            chained(
                preinits(decode, facts, facts.len() as int),
                inits(decode, facts, order, order.len() as int),
            ) == Ok::<_, LoadError>(init@),
            finis(decode, facts, order, order.len() - left) is Ok,
            fini@ == finis(decode, facts, order, order.len() - left)->Ok_0,
        decreases left,
    {
        left = left - 1;
        let id: usize = ordered[left].get() as usize;
        assert(order[left as int] == id);
        proof {
            assert(order[order.len() - (order.len() - left)] == id);
            lemma_inits_fail(decode, facts, order, order.len() - left, order.len() as int);
        }
        if id >= images.len() {
            return Err(lifecycle_error(LoadErrorKind::BadElf));
        }
        let image: &LifecycleImage<'_, M> = &images[id];
        assert(facts[id as int] == image.facts());
        let ghost so_far = fini@;
        read_array(decode, image, image.lifecycle.fini_array(), true, &mut fini)?;
        emit_direct(decode.mode, image, image.lifecycle.fini(), &mut fini)?;
        proof {
            let array = array_spec(
                decode,
                image.facts(),
                image.lifecycle.fini_array,
                true,
            )->Ok_0;
            let direct = direct_spec(decode.mode, image.facts(), image.lifecycle.fini)->Ok_0;
            assert(so_far + array + direct =~= so_far + (array + direct));
        }
    }
    Ok((InitPlan(init), FiniPlan(fini)))
}

proof fn lemma_owned_slots(
    decode: Decode,
    image: LifecycleView,
    range: TargetRange,
    reverse: bool,
    k: int,
)
    ensures
        slots_spec(decode, image, range, reverse, k) matches Ok(entries) ==> owned_by(
            entries,
            image.image_id,
        ),
    decreases k,
{
    if k > 0 {
        lemma_owned_slots(decode, image, range, reverse, k - 1);
    }
}

/// Whether every entry belongs to `owner`.
pub open spec fn owned_by(entries: Seq<LifecycleEntry>, owner: ImageId) -> bool {
    forall|a: int| 0 <= a < entries.len() ==> (#[trigger] entries[a]).owner == owner
}

proof fn lemma_owned_image(decode: Decode, image: LifecycleView)
    ensures
        image_init(decode, image) matches Ok(entries) ==> owned_by(entries, image.image_id),
        image_fini(decode, image) matches Ok(entries) ==> owned_by(entries, image.image_id),
{
    if let Some(range) = image.lifecycle.init_array {
        lemma_owned_slots(decode, image, range, false, slot_count(decode, range));
    }
    if let Some(range) = image.lifecycle.fini_array {
        lemma_owned_slots(decode, image, range, true, slot_count(decode, range));
    }
}

/// Whether the image at `position` of `order` owns `entry`.
pub open spec fn placed_at(
    images: Seq<LifecycleView>,
    order: Seq<u32>,
    entry: LifecycleEntry,
    position: int,
) -> bool {
    &&& 0 <= position < order.len()
    &&& order[position] < images.len()
    &&& entry.owner == images[order[position] as int].image_id
}

/// Whether an image at a position from `low` up to `high` owns `entry`.
spec fn placed_within(
    images: Seq<LifecycleView>,
    order: Seq<u32>,
    entry: LifecycleEntry,
    low: int,
    high: int,
) -> bool {
    exists|p: int| low <= p < high && #[trigger] placed_at(images, order, entry, p)
}

/// Whether the image of `first` is no later in the order than that of `second`.
spec fn placed_in_order(
    images: Seq<LifecycleView>,
    order: Seq<u32>,
    first: LifecycleEntry,
    second: LifecycleEntry,
) -> bool {
    exists|p: int, q: int|
        p <= q && #[trigger] placed_at(images, order, first, p) && #[trigger] placed_at(
            images,
            order,
            second,
            q,
        )
}

proof fn lemma_inits_placed(decode: Decode, images: Seq<LifecycleView>, order: Seq<u32>, k: int)
    requires
        0 <= k <= order.len(),
    ensures
        inits(decode, images, order, k) matches Ok(entries) ==> {
            &&& forall|a: int|
                0 <= a < entries.len() ==> placed_within(images, order, #[trigger] entries[a], 0, k)
            &&& forall|a: int, b: int|
                0 <= a < b < entries.len() ==> placed_in_order(
                    images,
                    order,
                    #[trigger] entries[a],
                    #[trigger] entries[b],
                )
        },
    decreases k,
{
    if k > 0 {
        lemma_inits_placed(decode, images, order, k - 1);
        if let Ok(entries) = inits(decode, images, order, k) {
            let before = inits(decode, images, order, k - 1)->Ok_0;
            let image = images[order[k - 1] as int];
            lemma_owned_image(decode, image);
            let last = image_init(decode, image)->Ok_0;
            assert(entries == before + last);
            assert forall|a: int| 0 <= a < entries.len() implies placed_within(
                images,
                order,
                #[trigger] entries[a],
                0,
                k,
            ) by {
                if a < before.len() {
                    assert(placed_within(images, order, before[a], 0, k - 1));
                } else {
                    assert(entries[a] == last[a - before.len()]);
                    assert(placed_at(images, order, entries[a], k - 1));
                }
            }
            assert forall|a: int, b: int| 0 <= a < b < entries.len() implies placed_in_order(
                images,
                order,
                #[trigger] entries[a],
                #[trigger] entries[b],
            ) by {
                if b < before.len() {
                    assert(placed_in_order(images, order, before[a], before[b]));
                } else {
                    assert(entries[b] == last[b - before.len()]);
                    assert(placed_at(images, order, entries[b], k - 1));
                    assert(placed_within(images, order, entries[a], 0, k));
                }
            }
        }
    }
}

proof fn lemma_finis_placed(decode: Decode, images: Seq<LifecycleView>, order: Seq<u32>, k: int)
    requires
        0 <= k <= order.len(),
    ensures
        finis(decode, images, order, k) matches Ok(entries) ==> {
            &&& forall|a: int|
                0 <= a < entries.len() ==> placed_within(
                    images,
                    order,
                    #[trigger] entries[a],
                    order.len() - k,
                    order.len() as int,
                )
            &&& forall|a: int, b: int|
                0 <= a < b < entries.len() ==> placed_in_order(
                    images,
                    order,
                    #[trigger] entries[b],
                    #[trigger] entries[a],
                )
        },
    decreases k,
{
    if k > 0 {
        lemma_finis_placed(decode, images, order, k - 1);
        if let Ok(entries) = finis(decode, images, order, k) {
            let before = finis(decode, images, order, k - 1)->Ok_0;
            let at = order.len() - k;
            let n = order.len() as int;
            let image = images[order[at] as int];
            lemma_owned_image(decode, image);
            let last = image_fini(decode, image)->Ok_0;
            assert(entries == before + last);
            assert forall|a: int| 0 <= a < entries.len() implies placed_within(
                images,
                order,
                #[trigger] entries[a],
                at,
                n,
            ) by {
                if a < before.len() {
                    assert(placed_within(images, order, before[a], at + 1, n));
                } else {
                    assert(entries[a] == last[a - before.len()]);
                    assert(placed_at(images, order, entries[a], at));
                }
            }
            assert forall|a: int, b: int| 0 <= a < b < entries.len() implies placed_in_order(
                images,
                order,
                #[trigger] entries[b],
                #[trigger] entries[a],
            ) by {
                if b < before.len() {
                    assert(placed_in_order(images, order, before[b], before[a]));
                } else {
                    assert(entries[b] == last[b - before.len()]);
                    assert(placed_at(images, order, entries[b], at));
                    assert(placed_within(images, order, entries[a], at, n));
                }
            }
        }
    }
}

/// Whether position `p` of the flattened groups is member `i` of group `g`.
spec fn member_at(groups: Seq<Seq<u32>>, flat: Seq<u32>, p: int, g: int, i: int) -> bool {
    0 <= g < groups.len() && 0 <= i < groups[g].len() && flat[p] == groups[g][i]
}

proof fn lemma_flattened(groups: Seq<Seq<u32>>, k: int, p: int) -> (found: (int, int))
    requires
        0 <= k <= groups.len(),
        0 <= p < flattened(groups, k).len(),
    ensures
        member_at(groups, flattened(groups, k), p, found.0, found.1),
        0 <= found.0 < k,
        flattened(groups, found.0).len() <= p < flattened(groups, found.0 + 1).len(),
        p == flattened(groups, found.0).len() + found.1,
    decreases k,
{
    if p < flattened(groups, k - 1).len() {
        let found = lemma_flattened(groups, k - 1, p);
        found
    } else {
        (k - 1, p - flattened(groups, k - 1).len())
    }
}

proof fn lemma_flattened_grows(groups: Seq<Seq<u32>>, j: int, k: int)
    requires
        0 <= j <= k <= groups.len(),
    ensures
        flattened(groups, j).len() <= flattened(groups, k).len(),
    decreases k - j,
{
    if j < k {
        lemma_flattened_grows(groups, j, k - 1);
    }
}

/// A provider comes before its requester in the flattened dependency order,
/// unless both are on one cycle.
pub proof fn earlier_images_need_no_later_ones(
    adj: Adjacency,
    groups: Seq<Seq<u32>>,
    p: int,
    q: int,
)
    requires
        closed_graph(adj),
        is_dependency_order(adj, groups),
        0 <= p <= q < flattened(groups, groups.len() as int).len(),
    ensures
        ({
            let order = flattened(groups, groups.len() as int);
            reach(adj, order[p] as int, order[q] as int) ==> mutual(
                adj,
                order[p] as int,
                order[q] as int,
            )
        }),
{
    let n = groups.len() as int;
    let order = flattened(groups, n);
    let (g, i) = lemma_flattened(groups, n, p);
    let (h, j) = lemma_flattened(groups, n, q);
    if h < g {
        lemma_flattened_grows(groups, h + 1, g);
        assert(false);
    }
    if reach(adj, order[p] as int, order[q] as int) {
        everything_needed_comes_first(adj, groups, g, i, h, j);
        assert(mutual(adj, groups[g][i] as int, groups[h][j] as int));
    }
}

/// A constructor that runs earlier belongs to an image that does not need the
/// image of a later one, unless both are on one cycle.
pub proof fn constructors_run_providers_first(
    adj: Adjacency,
    groups: Seq<Seq<u32>>,
    decode: Decode,
    images: Seq<LifecycleView>,
    a: int,
    b: int,
)
    requires
        closed_graph(adj),
        is_dependency_order(adj, groups),
        forall|i: int| 0 <= i < images.len() ==> (#[trigger] images[i]).image_id.0 == i,
        ({
            let order = flattened(groups, groups.len() as int);
            inits(decode, images, order, order.len() as int) matches Ok(entries) && 0 <= a < b
                < entries.len()
        }),
    ensures
        ({
            let order = flattened(groups, groups.len() as int);
            let entries = inits(decode, images, order, order.len() as int)->Ok_0;
            let first = entries[a].owner.0 as int;
            let second = entries[b].owner.0 as int;
            reach(adj, first, second) ==> mutual(adj, first, second)
        }),
{
    let order = flattened(groups, groups.len() as int);
    let entries = inits(decode, images, order, order.len() as int)->Ok_0;
    lemma_inits_placed(decode, images, order, order.len() as int);
    assert(placed_in_order(images, order, entries[a], entries[b]));
    let (p, q) = choose|p: int, q: int|
        p <= q && #[trigger] placed_at(images, order, entries[a], p) && #[trigger] placed_at(
            images,
            order,
            entries[b],
            q,
        );
    assert(images[order[p] as int].image_id.0 == order[p]);
    assert(images[order[q] as int].image_id.0 == order[q]);
    earlier_images_need_no_later_ones(adj, groups, p, q);
}

/// A destructor that runs earlier belongs to an image that the image of a later one
/// does not need, unless both are on one cycle.
pub proof fn destructors_run_requesters_first(
    adj: Adjacency,
    groups: Seq<Seq<u32>>,
    decode: Decode,
    images: Seq<LifecycleView>,
    a: int,
    b: int,
)
    requires
        closed_graph(adj),
        is_dependency_order(adj, groups),
        forall|i: int| 0 <= i < images.len() ==> (#[trigger] images[i]).image_id.0 == i,
        ({
            let order = flattened(groups, groups.len() as int);
            finis(decode, images, order, order.len() as int) matches Ok(entries) && 0 <= a < b
                < entries.len()
        }),
    ensures
        ({
            let order = flattened(groups, groups.len() as int);
            let entries = finis(decode, images, order, order.len() as int)->Ok_0;
            let first = entries[a].owner.0 as int;
            let second = entries[b].owner.0 as int;
            reach(adj, second, first) ==> mutual(adj, second, first)
        }),
{
    let order = flattened(groups, groups.len() as int);
    let entries = finis(decode, images, order, order.len() as int)->Ok_0;
    lemma_finis_placed(decode, images, order, order.len() as int);
    assert(placed_in_order(images, order, entries[b], entries[a]));
    let (p, q) = choose|p: int, q: int|
        q <= p && #[trigger] placed_at(images, order, entries[a], p) && #[trigger] placed_at(
            images,
            order,
            entries[b],
            q,
        );
    assert(images[order[p] as int].image_id.0 == order[p]);
    assert(images[order[q] as int].image_id.0 == order[q]);
    earlier_images_need_no_later_ones(adj, groups, q, p);
}

/// A function that is planned lies in an executable segment of its image, with room for a
/// whole instruction: two bytes, or four where the instructions have that size. It has
/// its mode bit where the mode is Thumb, and the instruction stands one byte before.
pub proof fn planned_functions_can_be_executed(
    mode: EntryMode,
    load_segments: Seq<LoadSegmentInfo>,
    regions: Seq<LoadedRegion>,
    function: TargetAddr,
)
    requires
        function_fault(mode, load_segments, regions, function) is None,
    ensures
        mode is Thumb ==> function.0 % 2 == 1,
        ({
            let start = if mode is Thumb {
                function.0 - 1
            } else {
                function.0 as int
            };
            let size = if mode is Word {
                4int
            } else {
                2int
            };
            exists|i: int|
                0 <= i < regions.len() && i < load_segments.len() && (
                #[trigger] load_segments[i]).permissions.bits & 4 == 4
                    && regions[i].runtime_range.start.0 <= start && start + size
                    <= regions[i].runtime_range.start.0 + regions[i].runtime_range.len
        }),
{
    let i = choose|i: int|
        0 <= i < regions.len() && #[trigger] executes(
            load_segments,
            regions,
            i,
            TargetAddr(mode.canonical_spec(function.0)),
            mode.instruction_spec(),
        );
    assert(load_segments[i].permissions.bits & 4 == 4);
}

/// The word at a place of memory.
pub open spec fn array_word(decode: Decode, content: Seq<u8>, at: int) -> u64 {
    if decode.target_word.width is U32 {
        word_at(content, at, 4, decode.target_word.endian) as u64
    } else {
        word_at(content, at, 8, decode.target_word.endian) as u64
    }
}

/// Whether a word names a function: it is neither zero nor the largest word.
pub open spec fn names_function(decode: Decode, word: u64) -> bool {
    word != 0 && word != if decode.target_word.width is U32 {
        0xffff_ffffu64
    } else {
        0xffff_ffff_ffff_ffffu64
    }
}

/// The address of the word of an array that is read as number `r`, from the first to the
/// last or from the last to the first.
pub open spec fn read_address(decode: Decode, range: TargetRange, reverse: bool, r: int) -> u64 {
    if decode.target_word.width is U32 {
        let last = range.len as int / 4 - 1;
        (range.start.0 + 4 * (if reverse {
            last - r
        } else {
            r
        })) as u64
    } else {
        let last = range.len as int / 8 - 1;
        (range.start.0 + 8 * (if reverse {
            last - r
        } else {
            r
        })) as u64
    }
}

/// The words of an array are read one after the other, or from the last to the first.
/// Those that name a function are the functions of the array, in the order in which they
/// are read. A word of the array lies in memory as far from the start of its region as
/// its address from that of the region.
pub proof fn array_functions_keep_their_order(
    decode: Decode,
    image: LifecycleView,
    range: TargetRange,
    reverse: bool,
    k: int,
) -> (read: (Seq<int>, Seq<int>))
    requires
        0 <= k <= range.len as int / (if decode.target_word.width is U32 {
            4int
        } else {
            8int
        }),
        slots_spec(decode, image, range, reverse, k) is Ok,
    ensures
        read.0.len() == k,
        forall|r: int|
            0 <= r < k ==> lies_at(
                image.regions,
                read_address(decode, range, reverse, r),
                if decode.target_word.width is U32 {
                    4
                } else {
                    8
                },
                #[trigger] read.0[r],
            ),
        forall|j: int|
            0 <= j < read.1.len() ==> 0 <= #[trigger] read.1[j] < k && names_function(
                decode,
                array_word(decode, image.content, read.0[read.1[j]]),
            ),
        forall|i: int, j: int|
            0 <= i < j < read.1.len() ==> #[trigger] read.1[i] < #[trigger] read.1[j],
        forall|r: int|
            0 <= r < k && names_function(
                decode,
                array_word(decode, image.content, #[trigger] read.0[r]),
            )
                ==> read.1.contains(r),
        slots_spec(decode, image, range, reverse, k)->Ok_0.len() == read.1.len(),
        forall|j: int|
            0 <= j < read.1.len() ==> slots_spec(decode, image, range, reverse, k)->Ok_0[j] == (
            LifecycleEntry {
                owner: image.image_id,
                function: TargetAddr(
                    array_word(decode, image.content, read.0[#[trigger] read.1[j]]),
                ),
            }),
    decreases k,
{
    let width = if decode.target_word.width is U32 {
        4int
    } else {
        8int
    };
    if k <= 0 {
        (Seq::empty(), Seq::empty())
    } else {
        let (before, found) = array_functions_keep_their_order(
            decode,
            image,
            range,
            reverse,
            k - 1,
        );
        let slot = slot_at(decode, range, k - 1, reverse);
        let offset = slot_offset(decode, image.regions, range, slot)->Ok_0;
        let address = (range.start.0 + slot * width) as u64;
        found_addresses_keep_their_distance(
            image.regions,
            TargetAddr(address),
            width as u64,
            MemoryPermissions::spec_none(),
        );
        assert(lies_at(image.regions, address, width as u64, offset.0 as int));
        let words = before.push(offset.0 as int);
        let word = array_word(decode, image.content, offset.0 as int);
        let named = names_function(decode, word);
        let places = if named {
            found.push(k - 1)
        } else {
            found
        };
        let entries = slots_spec(decode, image, range, reverse, k)->Ok_0;
        let first = slots_spec(decode, image, range, reverse, k - 1)->Ok_0;
        let own = slot_entry(decode, image, range, slot)->Ok_0;
        assert(entries == first + own);
        assert(own == if named {
            seq![LifecycleEntry { owner: image.image_id, function: TargetAddr(word) }]
        } else {
            Seq::empty()
        });
        assert forall|j: int| 0 <= j < places.len() implies 0 <= #[trigger] places[j] < k
            && names_function(decode, array_word(decode, image.content, words[places[j]]))
            && entries[j] == (LifecycleEntry {
            owner: image.image_id,
            function: TargetAddr(array_word(decode, image.content, words[places[j]])),
        }) by {
            if j < found.len() {
                assert(places[j] == found[j]);
                assert(entries[j] == first[j]);
                assert(words[found[j]] == before[found[j]]);
            } else {
                assert(entries[j] == own[0]);
            }
        }
        assert forall|r: int|
            0 <= r < k && names_function(
                decode,
                array_word(decode, image.content, #[trigger] words[r]),
            ) implies places.contains(r) by {
            if r < k - 1 {
                assert(words[r] == before[r]);
                let j = choose|j: int| 0 <= j < found.len() && found[j] == r;
                assert(places[j] == r);
            } else {
                assert(places[found.len() as int] == r);
            }
        }
        assert(address == read_address(decode, range, reverse, k - 1));
        assert forall|r: int| 0 <= r < k implies lies_at(
            image.regions,
            read_address(decode, range, reverse, r),
            width as u64,
            #[trigger] words[r],
        ) by {
            if r < k - 1 {
                assert(words[r] == before[r]);
            }
        }
        (words, places)
    }
}

/// The constructors of an image are its own entry point, at the load bias plus its
/// address, and then those of its array from the first to the last.
pub proof fn constructors_start_with_the_entry_point(
    decode: Decode,
    image: LifecycleView,
    entries: Seq<LifecycleEntry>,
)
    requires
        image_init(decode, image) == Ok::<Seq<LifecycleEntry>, LoadError>(entries),
    ensures
        ({
            let first = if image.lifecycle.init is Some {
                1int
            } else {
                0int
            };
            let rest = entries.subrange(first, entries.len() as int);
            &&& first <= entries.len()
            &&& image.lifecycle.init matches Some(vaddr) ==> entries[0].owner == image.image_id
                && entries[0].function.0 == image.load_bias.0 + vaddr.0
            &&& match image.lifecycle.init_array {
                Some(range) => {
                    let width = if decode.target_word.width is U32 {
                        4int
                    } else {
                        8int
                    };
                    slots_spec(decode, image, range, false, range.len as int / width) == Ok::<
                        Seq<LifecycleEntry>,
                        LoadError,
                    >(rest)
                },
                None => rest.len() == 0,
            }
        }),
{
    let direct = direct_spec(decode.mode, image, image.lifecycle.init)->Ok_0;
    let array = array_spec(decode, image, image.lifecycle.init_array, false)->Ok_0;
    assert(entries == direct + array);
    assert(entries.subrange(direct.len() as int, entries.len() as int) =~= array);
}

/// The destructors of an image are those of its array from the last to the first, and
/// then its own exit point, at the load bias plus its address.
pub proof fn destructors_end_with_the_exit_point(
    decode: Decode,
    image: LifecycleView,
    entries: Seq<LifecycleEntry>,
)
    requires
        image_fini(decode, image) == Ok::<Seq<LifecycleEntry>, LoadError>(entries),
    ensures
        ({
            let last = if image.lifecycle.fini is Some {
                entries.len() - 1
            } else {
                entries.len() as int
            };
            let rest = entries.subrange(0, last);
            &&& 0 <= last
            &&& image.lifecycle.fini matches Some(vaddr) ==> entries[last].owner == image.image_id
                && entries[last].function.0 == image.load_bias.0 + vaddr.0
            &&& match image.lifecycle.fini_array {
                Some(range) => {
                    let width = if decode.target_word.width is U32 {
                        4int
                    } else {
                        8int
                    };
                    slots_spec(decode, image, range, true, range.len as int / width) == Ok::<
                        Seq<LifecycleEntry>,
                        LoadError,
                    >(rest)
                },
                None => rest.len() == 0,
            }
        }),
{
    let array = array_spec(decode, image, image.lifecycle.fini_array, true)->Ok_0;
    let direct = direct_spec(decode.mode, image, image.lifecycle.fini)->Ok_0;
    assert(entries == array + direct);
    assert(entries.subrange(0, array.len() as int) =~= array);
}

/// The constructors of a link run image by image in the order of the images: those of
/// image number `i` of the order stand between cut `i` and cut `i + 1`.
pub proof fn constructors_run_image_by_image(
    decode: Decode,
    images: Seq<LifecycleView>,
    order: Seq<u32>,
    k: int,
) -> (cuts: Seq<int>)
    requires
        0 <= k <= order.len(),
        inits(decode, images, order, k) is Ok,
    ensures
        ({
            let entries = inits(decode, images, order, k)->Ok_0;
            &&& cuts.len() == k + 1
            &&& cuts[0] == 0
            &&& cuts[k] == entries.len()
            &&& forall|i: int|
                0 <= i < k ==> 0 <= #[trigger] cuts[i] <= cuts[i + 1] <= entries.len() && order[i]
                    < images.len() && image_init(decode, images[order[i] as int]) == Ok::<
                    Seq<LifecycleEntry>,
                    LoadError,
                >(entries.subrange(cuts[i], cuts[i + 1]))
        }),
    decreases k,
{
    if k <= 0 {
        seq![0int]
    } else {
        let before = constructors_run_image_by_image(decode, images, order, k - 1);
        let first = inits(decode, images, order, k - 1)->Ok_0;
        let entries = inits(decode, images, order, k)->Ok_0;
        let own = image_init(decode, images[order[k - 1] as int])->Ok_0;
        let cuts = before.push(entries.len() as int);
        assert(entries == first + own);
        assert(entries.subrange(first.len() as int, entries.len() as int) =~= own);
        assert forall|i: int| 0 <= i < k implies 0 <= #[trigger] cuts[i] <= cuts[i + 1]
            <= entries.len() && order[i] < images.len() && image_init(
            decode,
            images[order[i] as int],
        ) == Ok::<Seq<LifecycleEntry>, LoadError>(entries.subrange(cuts[i], cuts[i + 1])) by {
            if i < k - 1 {
                assert(cuts[i] == before[i]);
                assert(cuts[i + 1] == before[i + 1]);
                assert(entries.subrange(cuts[i], cuts[i + 1]) =~= first.subrange(
                    before[i],
                    before[i + 1],
                ));
            }
        }
        cuts
    }
}

/// The destructors of a link run image by image, from the last image of the order to the
/// first: those of image number `i` from the end stand between cut `i` and cut `i + 1`.
pub proof fn destructors_run_image_by_image(
    decode: Decode,
    images: Seq<LifecycleView>,
    order: Seq<u32>,
    k: int,
) -> (cuts: Seq<int>)
    requires
        0 <= k <= order.len(),
        finis(decode, images, order, k) is Ok,
    ensures
        ({
            let entries = finis(decode, images, order, k)->Ok_0;
            let n = order.len() as int;
            &&& cuts.len() == k + 1
            &&& cuts[0] == 0
            &&& cuts[k] == entries.len()
            &&& forall|i: int|
                0 <= i < k ==> 0 <= #[trigger] cuts[i] <= cuts[i + 1] <= entries.len() && order[n
                    - 1 - i] < images.len() && image_fini(
                    decode,
                    images[order[n - 1 - i] as int],
                ) == Ok::<Seq<LifecycleEntry>, LoadError>(
                    entries.subrange(cuts[i], cuts[i + 1]),
                )
        }),
    decreases k,
{
    if k <= 0 {
        seq![0int]
    } else {
        let n = order.len() as int;
        let before = destructors_run_image_by_image(decode, images, order, k - 1);
        let first = finis(decode, images, order, k - 1)->Ok_0;
        let entries = finis(decode, images, order, k)->Ok_0;
        let own = image_fini(decode, images[order[n - k] as int])->Ok_0;
        let cuts = before.push(entries.len() as int);
        assert(entries == first + own);
        assert(entries.subrange(first.len() as int, entries.len() as int) =~= own);
        assert forall|i: int| 0 <= i < k implies 0 <= #[trigger] cuts[i] <= cuts[i + 1]
            <= entries.len() && order[n - 1 - i] < images.len() && image_fini(
            decode,
            images[order[n - 1 - i] as int],
        ) == Ok::<Seq<LifecycleEntry>, LoadError>(entries.subrange(cuts[i], cuts[i + 1])) by {
            if i < k - 1 {
                assert(cuts[i] == before[i]);
                assert(cuts[i + 1] == before[i + 1]);
                assert(entries.subrange(cuts[i], cuts[i + 1]) =~= first.subrange(
                    before[i],
                    before[i + 1],
                ));
            }
        }
        cuts
    }
}

/// Before the constructors of a link runs the early array of its root, from the first
/// word to the last. No other image has one.
pub proof fn early_arrays_belong_to_the_root(
    decode: Decode,
    images: Seq<LifecycleView>,
    k: int,
)
    requires
        0 <= k <= images.len(),
        forall|i: int| 0 <= i < images.len() ==> (#[trigger] images[i]).image_id.0 == i,
        preinits(decode, images, k) is Ok,
    ensures
        forall|i: int| 1 <= i < k ==> (#[trigger] images[i]).lifecycle.preinit_array is None,
        ({
            let entries = preinits(decode, images, k)->Ok_0;
            if k > 0 && images[0].lifecycle.preinit_array is Some {
                let range = images[0].lifecycle.preinit_array->0;
                let width = if decode.target_word.width is U32 {
                    4int
                } else {
                    8int
                };
                slots_spec(decode, images[0], range, false, range.len as int / width) == Ok::<
                    Seq<LifecycleEntry>,
                    LoadError,
                >(entries)
            } else {
                entries.len() == 0
            }
        }),
    decreases k,
{
    if k > 0 {
        early_arrays_belong_to_the_root(decode, images, k - 1);
        let before = preinits(decode, images, k - 1)->Ok_0;
        let entries = preinits(decode, images, k)->Ok_0;
        assert(images[k - 1].image_id.0 == k - 1);
        if k > 1 {
            assert(entries =~= before);
        } else {
            let own = array_spec(decode, images[0], images[0].lifecycle.preinit_array, false)->Ok_0;
            assert(entries =~= own);
        }
    }
}

/// The plans of a link are its early array with its constructors behind it, and its
/// destructors.
pub proof fn plans_start_early(
    decode: Decode,
    images: Seq<LifecycleView>,
    order: Seq<u32>,
    init: Seq<LifecycleEntry>,
    fini: Seq<LifecycleEntry>,
)
    requires
        planned(decode, images, order) == Ok::<
            (Seq<LifecycleEntry>, Seq<LifecycleEntry>),
            LoadError,
        >((init, fini)),
    ensures
        ({
            let early = preinits(decode, images, images.len() as int);
            let starts = inits(decode, images, order, order.len() as int);
            &&& early is Ok
            &&& starts is Ok
            &&& init.len() == early->Ok_0.len() + starts->Ok_0.len()
            &&& forall|a: int|
                0 <= a < early->Ok_0.len() ==> #[trigger] init[a] == early->Ok_0[a]
            &&& forall|a: int|
                early->Ok_0.len() <= a < init.len() ==> #[trigger] init[a] == starts->Ok_0[a
                    - early->Ok_0.len()]
            &&& finis(decode, images, order, order.len() as int) == Ok::<
                Seq<LifecycleEntry>,
                LoadError,
            >(fini)
        }),
{
}

/// An image starts after the images that it needs, unless they need it in turn: where a
/// provider stands behind its requester in the order of the images, it needs it.
pub proof fn images_start_after_their_providers(
    graph: DependencyGraph,
    groups: Seq<Seq<u32>>,
    e: int,
    p: int,
    q: int,
)
    requires
        graph.wf(),
        is_dependency_order(graph.successors(), groups),
        0 <= e < graph.edges@.len(),
        0 <= p < flattened(groups, groups.len() as int).len(),
        0 <= q < flattened(groups, groups.len() as int).len(),
        flattened(groups, groups.len() as int)[p] == graph.edges@[e].provider.0,
        flattened(groups, groups.len() as int)[q] == graph.edges@[e].requester.0,
    ensures
        p <= q || needs(
            graph.edges@,
            graph.edges@[e].provider.0 as int,
            graph.edges@[e].requester.0 as int,
        ),
{
    let adj = graph.successors();
    let provider = graph.edges@[e].provider.0 as int;
    let requester = graph.edges@[e].requester.0 as int;
    lemma_requester_reaches_provider(graph, e);
    if q < p {
        lemma_reach_edge(adj, requester, provider);
        earlier_images_need_no_later_ones(adj, groups, q, p);
        lemma_reached_is_needed(graph, provider, requester);
    }
}

/// Every image has one place in the order of the images.
pub proof fn every_image_starts_once(adj: Adjacency, groups: Seq<Seq<u32>>)
    requires
        is_dependency_order(adj, groups),
    ensures
        forall|u: u32|
            u < adj.len() ==> #[trigger] flattened(groups, groups.len() as int).contains(u),
        forall|p: int, q: int|
            0 <= p < q < flattened(groups, groups.len() as int).len() ==> (#[trigger] flattened(
                groups,
                groups.len() as int,
            )[p]) != (#[trigger] flattened(groups, groups.len() as int)[q]),
{
    let n = groups.len() as int;
    let order = flattened(groups, n);
    assert forall|u: u32| u < adj.len() implies #[trigger] order.contains(u) by {
        assert(in_some_group(groups, u as int));
        let (g, i) = choose|g: int, i: int|
            0 <= g < groups.len() && 0 <= i < groups[g].len() && #[trigger] groups[g][i] == u;
        lemma_member_place(groups, n, g, i);
    }
    assert forall|p: int, q: int| 0 <= p < q < order.len() implies (#[trigger] order[p]) != (
    #[trigger] order[q]) by {
        let (g, i) = lemma_flattened(groups, n, p);
        let (h, j) = lemma_flattened(groups, n, q);
        if order[p] == order[q] {
            lemma_reach_refl(adj, order[p] as int);
            assert(mutual(adj, groups[g][i] as int, groups[h][j] as int));
            assert(g == h && i == j);
        }
    }
}

proof fn lemma_member_place(groups: Seq<Seq<u32>>, k: int, g: int, i: int)
    requires
        0 <= g < k <= groups.len(),
        0 <= i < groups[g].len(),
    ensures
        flattened(groups, k).contains(groups[g][i]),
    decreases k,
{
    let before = flattened(groups, k - 1);
    let all = flattened(groups, k);
    if g == k - 1 {
        assert(all[before.len() + i] == groups[g][i]);
    } else {
        lemma_member_place(groups, k - 1, g, i);
        let p = choose|p: int| 0 <= p < before.len() && before[p] == groups[g][i];
        assert(all[p] == groups[g][i]);
    }
}

} // verus!
