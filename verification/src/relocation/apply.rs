//! Relative relocation of an image in memory.

use crate::address::TargetAddr;
use crate::bytes::{word_at, word_round_trip};
use crate::error::{
    claim, claim_at, unclaimed, ErrorContext, HeaderField, LimitKind, LoadError, LoadErrorKind,
    LoadResult, LoadStage,
};
use crate::identity::{limit_failure, ElfClass, ElfData, ElfMachine};
use crate::image::loaded::{regions_within, LoadedRegion};
use crate::image::records::{RelocationAddend, RelocationRecord};
use crate::image::tables::{
    found_addresses_keep_their_distance, lemma_offset_within, locate_offset,
    mapped_ranges_are_found, offset_spec,
};
use crate::memory::{ready, AllocationOffset, ImageMemory};
use crate::permissions::MemoryPermissions;
use crate::relocation::{
    words_are_independent, words_read_back, AddendEncoding, ArchRelocator, RelocationOperation,
    TargetWord, WordWidth,
};
use crate::sort::{ascending, sort_by_rank, sorted, sorting_is_a_sorted_permutation, Ranked};
use vstd::prelude::*;

verus! {

impl Ranked for RelocationOperation {
    open spec fn rank(self) -> int {
        self.offset.0 as int
    }

    fn rank_of(self) -> (r: u64) {
        self.offset.value()
    }
}

/// A relocation that cannot be done.
pub open spec fn bad_relocation(record: RelocationRecord, kind: LoadErrorKind) -> LoadError {
    unclaimed(
        kind,
        ErrorContext::Relocation {
            offset: record.offset,
            raw_type: record.raw_type,
            symbol_index: record.symbol_index,
        },
    )
}

fn relocation_error(record: RelocationRecord, kind: LoadErrorKind) -> (r: LoadError)
    ensures
        r == bad_relocation(record, kind),
{
    LoadError::new(
        kind,
        ErrorContext::Relocation {
            offset: record.offset(),
            raw_type: record.raw_type(),
            symbol_index: record.symbol_index(),
        },
    )
}

/// Why a relocator cannot relocate images of this machine and class.
pub open spec fn relocator_fault<A: ArchRelocator>(
    relocator: A,
    machine: ElfMachine,
    class: ElfClass,
) -> LoadResult<()> {
    if relocator.target_machine() != machine {
        Err(
            unclaimed(
                LoadErrorKind::UnsupportedByProfile,
                ErrorContext::HeaderField {
                    field: HeaderField::Machine,
                    value: relocator.target_machine().number(),
                },
            ),
        )
    } else if relocator.target_class() != class {
        Err(
            unclaimed(
                LoadErrorKind::UnsupportedByProfile,
                ErrorContext::HeaderField {
                    field: HeaderField::Class,
                    value: relocator.target_class().number(),
                },
            ),
        )
    } else {
        Ok(())
    }
}

/// Checks that a relocator is the one of this machine and class.
pub fn validate_relocator<A: ArchRelocator>(relocator: &A, machine: ElfMachine, class: ElfClass) -> (r:
    LoadResult<()>)
    ensures
        r == relocator_fault(*relocator, machine, class),
{
    if relocator.machine() == machine && relocator.class() == class {
        return Ok(());
    }
    let (field, value) = if relocator.machine() != machine {
        (HeaderField::Machine, u64::from(relocator.machine()))
    } else {
        (HeaderField::Class, u64::from(relocator.class()))
    };
    Err(
        LoadError::new(
            LoadErrorKind::UnsupportedByProfile,
            ErrorContext::HeaderField { field, value },
        ),
    )
}

/// Where a relocated word goes.
pub open spec fn place_spec(
    record: RelocationRecord,
    word: TargetWord,
    regions: Seq<LoadedRegion>,
) -> LoadResult<AllocationOffset> {
    match offset_spec(
        regions,
        record.offset,
        word.width.bytes_spec(),
        MemoryPermissions::spec_none(),
    ) {
        Ok(offset) => Ok(offset),
        Err(_) => Err(bad_relocation(record, LoadErrorKind::OutOfBounds)),
    }
}

/// The addend of a relative relocation. An implicit one is the word in place.
pub open spec fn addend_spec<A: ArchRelocator>(
    record: RelocationRecord,
    relocator: A,
    word: TargetWord,
    regions: Seq<LoadedRegion>,
    content: Seq<u8>,
) -> LoadResult<int> {
    if record.raw_type != relocator.relative_code() || record.symbol_index != 0 {
        Err(bad_relocation(record, LoadErrorKind::UnsupportedByProfile))
    } else {
        match (relocator.encoding(), record.addend) {
            (AddendEncoding::Explicit, RelocationAddend::Explicit(value)) => Ok(value as int),
            (AddendEncoding::Implicit, RelocationAddend::Implicit) => match place_spec(
                record,
                word,
                regions,
            ) {
                Ok(offset) => Ok(word.held(content, offset) as int),
                Err(error) => Err(error),
            },
            _ => Err(bad_relocation(record, LoadErrorKind::UnsupportedByProfile)),
        }
    }
}

/// The relocated word for an addend: the load bias plus the addend, if it fits.
pub open spec fn relocated_spec(
    record: RelocationRecord,
    word: TargetWord,
    regions: Seq<LoadedRegion>,
    load_bias: TargetAddr,
    addend: int,
) -> LoadResult<RelocationOperation> {
    match place_spec(record, word, regions) {
        Err(error) => Err(error),
        Ok(offset) => {
            let result = load_bias.0 + addend;
            if 0 <= result <= word.width.maximum_spec() {
                Ok(RelocationOperation { offset, value: result as u64, record })
            } else {
                Err(bad_relocation(record, LoadErrorKind::IntegerOverflow))
            }
        },
    }
}

/// The relocated word for a relocation of an image with this memory.
pub open spec fn operation_spec<A: ArchRelocator>(
    record: RelocationRecord,
    relocator: A,
    word: TargetWord,
    regions: Seq<LoadedRegion>,
    load_bias: TargetAddr,
    content: Seq<u8>,
) -> LoadResult<RelocationOperation> {
    match addend_spec(record, relocator, word, regions, content) {
        Err(error) => Err(error),
        Ok(addend) => relocated_spec(record, word, regions, load_bias, addend),
    }
}

fn place_of(record: RelocationRecord, word: TargetWord, regions: &Vec<LoadedRegion>) -> (r:
    LoadResult<AllocationOffset>)
    ensures
        r == place_spec(record, word, regions@),
{
    match locate_offset(regions, record.offset(), word.width().bytes(), MemoryPermissions::none()) {
        Ok(offset) => Ok(offset),
        Err(_) => Err(relocation_error(record, LoadErrorKind::OutOfBounds)),
    }
}

/// Works out a relocated word from its addend.
pub fn relocated_word(
    record: RelocationRecord,
    word: TargetWord,
    regions: &Vec<LoadedRegion>,
    load_bias: TargetAddr,
    addend: i128,
) -> (r: LoadResult<RelocationOperation>)
    requires
        -0x1_0000_0000_0000_0000 <= addend <= 0x1_0000_0000_0000_0000,
    ensures
        r == relocated_spec(record, word, regions@, load_bias, addend as int),
{
    let offset = place_of(record, word, regions)?;
    let result: i128 = load_bias.get() as i128 + addend;
    if result < 0 || result > word.width().maximum() as i128 {
        return Err(relocation_error(record, LoadErrorKind::IntegerOverflow));
    }
    Ok(RelocationOperation::new(offset, result as u64, record))
}

/// Works out the relocated word of one relocation.
pub fn preflight_relative<M: ImageMemory, A: ArchRelocator>(
    record: RelocationRecord,
    relocator: &A,
    word: TargetWord,
    regions: &Vec<LoadedRegion>,
    load_bias: TargetAddr,
    memory: &M,
) -> (r: LoadResult<RelocationOperation>)
    ensures
        match operation_spec(record, *relocator, word, regions@, load_bias, memory.content()) {
            Ok(operation) => r matches Ok(found) ==> found == operation,
            Err(error) => r matches Err(found) && (relocator.encoding() == AddendEncoding::Explicit
                ==> found == error),
        },
        relocator.encoding() == AddendEncoding::Explicit || (ready(*memory) && regions_within(
            regions@,
            memory.content().len(),
        )) ==> r == operation_spec(
            record,
            *relocator,
            word,
            regions@,
            load_bias,
            memory.content(),
        ),
{
    proof {
        if regions_within(regions@, memory.content().len()) {
            lemma_offset_within(
                regions@,
                record.offset,
                word.width.bytes_spec(),
                MemoryPermissions::spec_none(),
                memory.content().len(),
            );
        }
    }
    if record.raw_type() != relocator.relative_type() || record.symbol_index() != 0 {
        return Err(relocation_error(record, LoadErrorKind::UnsupportedByProfile));
    }
    let addend: i128 = match (relocator.addend_encoding(), record.addend()) {
        (AddendEncoding::Explicit, RelocationAddend::Explicit(value)) => value as i128,
        (AddendEncoding::Implicit, RelocationAddend::Implicit) => {
            let offset = place_of(record, word, regions)?;
            word.read(memory, offset)? as i128
        },
        _ => return Err(relocation_error(record, LoadErrorKind::UnsupportedByProfile)),
    };
    relocated_word(record, word, regions, load_bias, addend)
}

/// The relocated words of the first `k` relocations, or the failure of the first
/// that has none.
pub open spec fn operations_spec<A: ArchRelocator>(
    records: Seq<RelocationRecord>,
    k: int,
    relocator: A,
    word: TargetWord,
    regions: Seq<LoadedRegion>,
    load_bias: TargetAddr,
    content: Seq<u8>,
) -> LoadResult<Seq<RelocationOperation>>
    decreases k,
{
    if k <= 0 {
        Ok(Seq::empty())
    } else {
        match operations_spec(records, k - 1, relocator, word, regions, load_bias, content) {
            Err(error) => Err(error),
            Ok(operations) => match operation_spec(
                records[k - 1],
                relocator,
                word,
                regions,
                load_bias,
                content,
            ) {
                Err(error) => Err(error),
                Ok(operation) => Ok(operations.push(operation)),
            },
        }
    }
}

/// What is wrong with the first of the operations before number `k` that overlaps
/// its predecessor.
pub open spec fn clash_spec(operations: Seq<RelocationOperation>, k: int, word: TargetWord) -> LoadResult<
    (),
>
    decreases k,
{
    if k <= 1 {
        Ok(())
    } else {
        match clash_spec(operations, k - 1, word) {
            Err(error) => Err(error),
            Ok(_) => {
                let end = operations[k - 2].offset.0 + word.width.bytes_spec();
                if end > u64::MAX {
                    Err(bad_relocation(operations[k - 2].record, LoadErrorKind::IntegerOverflow))
                } else if operations[k - 1].offset.0 < end {
                    Err(bad_relocation(operations[k - 1].record, LoadErrorKind::BadElf))
                } else {
                    Ok(())
                }
            },
        }
    }
}

proof fn lemma_clash_settled(operations: Seq<RelocationOperation>, k: int, word: TargetWord)
    requires
        0 <= k <= operations.len(),
        clash_spec(operations, k, word) is Err,
    ensures
        clash_spec(operations, operations.len() as int, word) == clash_spec(operations, k, word),
    decreases operations.len() - k,
{
    if k < operations.len() {
        lemma_clash_settled(operations, k + 1, word);
    }
}

/// Checks that no relocated word overlaps another.
pub fn check_clashes(operations: &Vec<RelocationOperation>, word: TargetWord) -> (r: LoadResult<()>)
    ensures
        r == clash_spec(operations@, operations@.len() as int, word),
{
    let mut index: usize = 1;
    while index < operations.len()
        invariant
            1 <= index,
            index <= operations@.len() || index == 1,
            clash_spec(operations@, index as int, word) is Ok,
        decreases operations@.len() - index,
    {
        let before = operations[index - 1];
        let after = operations[index];
        let end: u64 = match before.offset().value().checked_add(word.width().bytes()) {
            Some(end) => end,
            None => {
                proof {
                    lemma_clash_settled(operations@, index + 1, word);
                }
                return Err(relocation_error(before.record(), LoadErrorKind::IntegerOverflow));
            },
        };
        if after.offset().value() < end {
            proof {
                lemma_clash_settled(operations@, index + 1, word);
            }
            return Err(relocation_error(after.record(), LoadErrorKind::BadElf));
        }
        index = index + 1;
    }
    Ok(())
}

/// Memory after the first `k` operations.
pub open spec fn operations_done(
    content: Seq<u8>,
    operations: Seq<RelocationOperation>,
    k: int,
    word: TargetWord,
) -> Seq<u8>
    decreases k,
{
    if k <= 0 {
        content
    } else {
        word.stored(
            operations_done(content, operations, k - 1, word),
            operations[k - 1].offset,
            operations[k - 1].value,
        )
    }
}

/// The bytes that `count` relocated words take while they are planned.
pub open spec fn operation_bytes_spec(count: nat) -> u64 {
    let bytes = count * vstd::layout::size_of::<RelocationOperation>();
    if bytes <= usize::MAX {
        bytes as u64
    } else {
        u64::MAX
    }
}

fn operation_bytes(count: usize) -> (r: u64)
    ensures
        r == operation_bytes_spec(count as nat),
{
    match count.checked_mul(core::mem::size_of::<RelocationOperation>()) {
        Some(bytes) => bytes as u64,
        None => u64::MAX,
    }
}

/// What relocating an image asks for.
#[derive(Clone, Copy, Debug, PartialEq, Eq, Structural)]
pub struct RelocationTarget {
    pub machine: ElfMachine,
    pub class: ElfClass,
    pub endian: ElfData,
    pub load_bias: TargetAddr,
    pub max_operation_bytes: u64,
}

impl RelocationTarget {
    pub open spec fn word(self) -> TargetWord {
        TargetWord { width: WordWidth::class_spec(self.class), endian: self.endian }
    }
}

/// What keeps an image from being relocated before any relocation is looked at.
pub open spec fn entry_fault<A: ArchRelocator>(
    relocator: A,
    target: RelocationTarget,
    count: nat,
) -> LoadResult<()> {
    if relocator_fault(relocator, target.machine, target.class) is Err {
        relocator_fault(relocator, target.machine, target.class)
    } else if operation_bytes_spec(count) > target.max_operation_bytes {
        Err(
            limit_failure(
                LimitKind::RelocationOperationBytes,
                operation_bytes_spec(count),
                target.max_operation_bytes,
            ),
        )
    } else {
        Ok(())
    }
}

/// The relocated words of an image in the order in which they are written.
pub open spec fn relocation_plan<A: ArchRelocator>(
    records: Seq<RelocationRecord>,
    relocator: A,
    target: RelocationTarget,
    regions: Seq<LoadedRegion>,
    content: Seq<u8>,
) -> LoadResult<Seq<RelocationOperation>> {
    let n = records.len() as int;
    if entry_fault(relocator, target, records.len()) is Err {
        Err(entry_fault(relocator, target, records.len())->Err_0)
    } else {
        match operations_spec(
            records,
            n,
            relocator,
            target.word(),
            regions,
            target.load_bias,
            content,
        ) {
            Err(error) => Err(error),
            Ok(operations) => {
                let ordered = sorted(operations);
                match clash_spec(ordered, ordered.len() as int, target.word()) {
                    Err(error) => Err(error),
                    Ok(_) => Ok(ordered),
                }
            },
        }
    }
}

/// Plans the relocation of an image.
pub fn plan_relocation<M: ImageMemory, A: ArchRelocator>(
    records: &Vec<RelocationRecord>,
    relocator: &A,
    target: &RelocationTarget,
    regions: &Vec<LoadedRegion>,
    memory: &M,
) -> (r: LoadResult<Vec<RelocationOperation>>)
    ensures
        r matches Ok(operations) ==> relocation_plan(
            records@,
            *relocator,
            *target,
            regions@,
            memory.content(),
        ) == Ok::<Seq<RelocationOperation>, LoadError>(operations@),
        entry_fault(*relocator, *target, records@.len()) matches Err(error) ==> r == Err::<
            Vec<RelocationOperation>,
            LoadError,
        >(error),
        relocator.encoding() == AddendEncoding::Explicit || (ready(*memory) && regions_within(
            regions@,
            memory.content().len(),
        )) ==> match relocation_plan(
            records@,
            *relocator,
            *target,
            regions@,
            memory.content(),
        ) {
            Ok(_) => r is Ok,
            Err(error) => r == Err::<Vec<RelocationOperation>, LoadError>(error),
        },
{
    validate_relocator(relocator, target.machine, target.class)?;
    let bytes: u64 = operation_bytes(records.len());
    if bytes > target.max_operation_bytes {
        return Err(
            LoadError::new(
                LoadErrorKind::ResourceLimit,
                ErrorContext::Limit {
                    resource: LimitKind::RelocationOperationBytes,
                    actual: bytes,
                    maximum: target.max_operation_bytes,
                },
            ),
        );
    }
    let word = TargetWord::new(WordWidth::for_elf_class(target.class), target.endian);
    let mut operations: Vec<RelocationOperation> = Vec::new();
    let mut index: usize = 0;
    while index < records.len()
        invariant
            index <= records@.len(),
            word == target.word(),
            entry_fault(*relocator, *target, records@.len()) is Ok,
            operations_spec(
                records@,
                index as int,
                *relocator,
                word,
                regions@,
                target.load_bias,
                memory.content(),
            ) == Ok::<Seq<RelocationOperation>, LoadError>(operations@),
        decreases records@.len() - index,
    {
        match preflight_relative(
            records[index],
            relocator,
            word,
            regions,
            target.load_bias,
            memory,
        ) {
            Ok(operation) => {
                operations.push(operation);
            },
            Err(error) => {
                proof {
                    if relocator.encoding() == AddendEncoding::Explicit || (ready(*memory)
                        && regions_within(regions@, memory.content().len())) {
                        lemma_operations_settled(
                            records@,
                            index + 1,
                            *relocator,
                            word,
                            regions@,
                            target.load_bias,
                            memory.content(),
                        );
                    }
                }
                return Err(error);
            },
        }
        index = index + 1;
    }
    let ordered = sort_by_rank(&operations);
    check_clashes(&ordered, word)?;
    Ok(ordered)
}

proof fn lemma_operations_settled<A: ArchRelocator>(
    records: Seq<RelocationRecord>,
    k: int,
    relocator: A,
    word: TargetWord,
    regions: Seq<LoadedRegion>,
    load_bias: TargetAddr,
    content: Seq<u8>,
)
    requires
        0 <= k <= records.len(),
        operations_spec(records, k, relocator, word, regions, load_bias, content) is Err,
    ensures
        operations_spec(
            records,
            records.len() as int,
            relocator,
            word,
            regions,
            load_bias,
            content,
        ) == operations_spec(records, k, relocator, word, regions, load_bias, content),
    decreases records.len() - k,
{
    if k < records.len() {
        lemma_operations_settled(records, k + 1, relocator, word, regions, load_bias, content);
    }
}

/// Whether every relocated word fits its bytes, and its bytes lie in memory of this
/// size.
pub open spec fn words_within(operations: Seq<RelocationOperation>, word: TargetWord, len: nat) -> bool {
    forall|i: int|
        0 <= i < operations.len() ==> (#[trigger] operations[i]).offset.0 + word.width.bytes_spec()
            <= len && operations[i].value <= word.width.maximum_spec()
}

/// The words of a plan lie in memory if all regions do.
pub proof fn lemma_plan_within<A: ArchRelocator>(
    records: Seq<RelocationRecord>,
    relocator: A,
    target: RelocationTarget,
    regions: Seq<LoadedRegion>,
    content: Seq<u8>,
    plan: Seq<RelocationOperation>,
)
    requires
        relocation_plan(records, relocator, target, regions, content) == Ok::<
            Seq<RelocationOperation>,
            LoadError,
        >(plan),
        regions_within(regions, content.len()),
    ensures
        words_within(plan, target.word(), content.len()),
{
    let word = target.word();
    let n = records.len() as int;
    let operations = operations_spec(
        records,
        n,
        relocator,
        word,
        regions,
        target.load_bias,
        content,
    )->Ok_0;
    lemma_operation_values(records, n, relocator, word, regions, target.load_bias, content);
    sorting_is_a_sorted_permutation(operations);
    operations.to_multiset_ensures();
    plan.to_multiset_ensures();
    assert forall|k: int| 0 <= k < plan.len() implies (#[trigger] plan[k]).offset.0
        + word.width.bytes_spec() <= content.len() && plan[k].value
        <= word.width.maximum_spec() by {
        assert(plan.contains(plan[k]));
        assert(plan.to_multiset().count(plan[k]) > 0);
        assert(operations.contains(plan[k]));
        let j = choose|j: int| 0 <= j < operations.len() && operations[j] == plan[k];
        assert(operation_spec(records[j], relocator, word, regions, target.load_bias, content)
            == Ok::<RelocationOperation, LoadError>(operations[j]));
        lemma_offset_within(
            regions,
            records[j].offset,
            word.width.bytes_spec(),
            MemoryPermissions::spec_none(),
            content.len(),
        );
    }
}

/// Relocates an image in memory.
pub fn relocate<M: ImageMemory, A: ArchRelocator>(
    records: &Vec<RelocationRecord>,
    relocator: &A,
    target: &RelocationTarget,
    regions: &Vec<LoadedRegion>,
    memory: &mut M,
) -> (r: LoadResult<()>)
    ensures
        final(memory).current() == old(memory).current(),
        final(memory).content().len() == old(memory).content().len(),
        old(memory).reliable() ==> final(memory).reliable(),
        final(memory).source() == old(memory).source(),
        ready(*old(memory)) && regions_within(regions@, old(memory).content().len()) ==> match claim(
            relocation_plan(records@, *relocator, *target, regions@, old(memory).content()),
            LoadStage::Relocate,
        ) {
            Ok(_) => r is Ok,
            Err(error) => r == Err::<(), LoadError>(error),
        },
        r is Ok ==> {
            let plan = relocation_plan(
                records@,
                *relocator,
                *target,
                regions@,
                old(memory).content(),
            );
            &&& plan is Ok
            &&& final(memory).content() == operations_done(
                old(memory).content(),
                plan->Ok_0,
                plan->Ok_0.len() as int,
                target.word(),
            )
            &&& forall|i: int|
                0 <= i < plan->Ok_0.len() ==> (#[trigger] plan->Ok_0[i]).offset.0
                    + target.word().width.bytes_spec() <= old(memory).content().len()
        },
        claim(entry_fault(*relocator, *target, records@.len()), LoadStage::Relocate) matches Err(
            error,
        ) ==> r == Err::<(), LoadError>(error) && *final(memory) == *old(memory),
{
    let operations = claim_at(
        plan_relocation(records, relocator, target, regions, memory),
        LoadStage::Relocate,
    )?;
    let word = TargetWord::new(WordWidth::for_elf_class(target.class), target.endian);
    let ghost safe = ready(*memory) && regions_within(regions@, memory.content().len());
    proof {
        if safe {
            lemma_plan_within(
                records@,
                *relocator,
                *target,
                regions@,
                memory.content(),
                operations@,
            );
        }
    }
    let mut index: usize = 0;
    while index < operations.len()
        invariant
            index <= operations@.len(),
            word == target.word(),
            entry_fault(*relocator, *target, records@.len()) is Ok,
            old(memory).reliable() ==> memory.reliable(),
            memory.source() == old(memory).source(),
            safe == (ready(*old(memory)) && regions_within(
                regions@,
                old(memory).content().len(),
            )),
            safe ==> words_within(operations@, word, old(memory).content().len()),
            safe ==> relocation_plan(
                records@,
                *relocator,
                *target,
                regions@,
                old(memory).content(),
            ) is Ok,
            memory.current() == old(memory).current(),
            memory.content().len() == old(memory).content().len(),
            memory.content() == operations_done(
                old(memory).content(),
                operations@,
                index as int,
                word,
            ),
            forall|i: int|
                0 <= i < index ==> (#[trigger] operations@[i]).offset.0 + word.width.bytes_spec()
                    <= old(memory).content().len(),
        decreases operations@.len() - index,
    {
        let operation = operations[index];
        claim_at(
            word.write(memory, operation.offset(), operation.value()),
            LoadStage::Relocate,
        )?;
        index = index + 1;
    }
    Ok(())
}

/// Whether two relocated words share no byte.
pub open spec fn words_apart(
    a: RelocationOperation,
    b: RelocationOperation,
    word: TargetWord,
) -> bool {
    a.offset.0 + word.width.bytes_spec() <= b.offset.0
}

proof fn lemma_no_clash(operations: Seq<RelocationOperation>, k: int, word: TargetWord)
    requires
        0 <= k <= operations.len(),
        ascending(operations),
        clash_spec(operations, k, word) is Ok,
    ensures
        forall|i: int, j: int|
            0 <= i < j < k ==> words_apart(
                #[trigger] operations[i],
                #[trigger] operations[j],
                word,
            ),
    decreases k,
{
    if k > 1 {
        lemma_no_clash(operations, k - 1, word);
        assert forall|i: int, j: int| 0 <= i < j < k implies words_apart(
            #[trigger] operations[i],
            #[trigger] operations[j],
            word,
        ) by {
            if j == k - 1 && i < k - 2 {
                assert(words_apart(operations[i], operations[k - 2], word));
                assert(operations[k - 2].rank() <= operations[k - 1].rank());
            }
        }
    }
}

proof fn lemma_operations_done(
    content: Seq<u8>,
    operations: Seq<RelocationOperation>,
    k: int,
    word: TargetWord,
)
    requires
        0 <= k <= operations.len(),
        forall|i: int, j: int|
            0 <= i < j < operations.len() ==> words_apart(
                #[trigger] operations[i],
                #[trigger] operations[j],
                word,
            ),
        forall|i: int|
            0 <= i < operations.len() ==> (#[trigger] operations[i]).offset.0
                + word.width.bytes_spec() <= content.len() && operations[i].value
                <= word.width.maximum_spec(),
    ensures
        operations_done(content, operations, k, word).len() == content.len(),
        forall|i: int|
            0 <= i < k ==> word.held(
                operations_done(content, operations, k, word),
                (#[trigger] operations[i]).offset,
            ) == operations[i].value,
    decreases k,
{
    if k > 0 {
        lemma_operations_done(content, operations, k - 1, word);
        let before = operations_done(content, operations, k - 1, word);
        let last = operations[k - 1];
        words_read_back(word, before, last.offset, last.value);
        assert forall|i: int| 0 <= i < k implies word.held(
            operations_done(content, operations, k, word),
            (#[trigger] operations[i]).offset,
        ) == operations[i].value by {
            if i < k - 1 {
                assert(words_apart(operations[i], operations[k - 1], word));
                words_are_independent(
                    word,
                    before,
                    last.offset,
                    last.value,
                    operations[i].offset,
                );
            }
        }
    }
}

proof fn lemma_operation_values<A: ArchRelocator>(
    records: Seq<RelocationRecord>,
    k: int,
    relocator: A,
    word: TargetWord,
    regions: Seq<LoadedRegion>,
    load_bias: TargetAddr,
    content: Seq<u8>,
)
    requires
        0 <= k <= records.len(),
        operations_spec(records, k, relocator, word, regions, load_bias, content) is Ok,
    ensures
        operations_spec(records, k, relocator, word, regions, load_bias, content)->Ok_0.len() == k,
        forall|i: int|
            0 <= i < k ==> operation_spec(
                records[i],
                relocator,
                word,
                regions,
                load_bias,
                content,
            ) == Ok::<RelocationOperation, LoadError>(
                #[trigger] operations_spec(
                    records,
                    k,
                    relocator,
                    word,
                    regions,
                    load_bias,
                    content,
                )->Ok_0[i],
            ),
    decreases k,
{
    if k > 0 {
        lemma_operation_values(records, k - 1, relocator, word, regions, load_bias, content);
    }
}

/// After relocation, the word at the place of every relocation is the load bias
/// plus the addend of the relocation.
pub proof fn relocation_adds_the_load_bias<A: ArchRelocator>(
    records: Seq<RelocationRecord>,
    relocator: A,
    target: RelocationTarget,
    regions: Seq<LoadedRegion>,
    content: Seq<u8>,
    plan: Seq<RelocationOperation>,
    i: int,
)
    requires
        relocation_plan(records, relocator, target, regions, content) == Ok::<
            Seq<RelocationOperation>,
            LoadError,
        >(plan),
        forall|k: int|
            0 <= k < plan.len() ==> (#[trigger] plan[k]).offset.0
                + target.word().width.bytes_spec() <= content.len(),
        0 <= i < records.len(),
    ensures
        addend_spec(records[i], relocator, target.word(), regions, content) is Ok,
        place_spec(records[i], target.word(), regions) is Ok,
        target.word().held(
            operations_done(content, plan, plan.len() as int, target.word()),
            place_spec(records[i], target.word(), regions)->Ok_0,
        ) == target.load_bias.0 + addend_spec(
            records[i],
            relocator,
            target.word(),
            regions,
            content,
        )->Ok_0,
{
    let word = target.word();
    let n = records.len() as int;
    let operations = operations_spec(
        records,
        n,
        relocator,
        word,
        regions,
        target.load_bias,
        content,
    )->Ok_0;
    lemma_operation_values(records, n, relocator, word, regions, target.load_bias, content);
    sorting_is_a_sorted_permutation(operations);
    operations.to_multiset_ensures();
    plan.to_multiset_ensures();
    lemma_no_clash(plan, plan.len() as int, word);
    assert forall|k: int| 0 <= k < plan.len() implies (#[trigger] plan[k]).offset.0
        + word.width.bytes_spec() <= content.len() && plan[k].value
        <= word.width.maximum_spec() by {
        assert(plan.contains(plan[k]));
        assert(plan.to_multiset().count(plan[k]) > 0);
        assert(operations.contains(plan[k]));
        let j = choose|j: int| 0 <= j < operations.len() && operations[j] == plan[k];
        assert(operation_spec(records[j], relocator, word, regions, target.load_bias, content)
            == Ok::<RelocationOperation, LoadError>(operations[j]));
    }
    lemma_operations_done(content, plan, plan.len() as int, word);
    let operation = operations[i];
    assert(operation_spec(records[i], relocator, word, regions, target.load_bias, content) == Ok::<
        RelocationOperation,
        LoadError,
    >(operation));
    assert(operations.contains(operation));
    assert(operations.to_multiset().count(operation) > 0);
    assert(plan.contains(operation));
    let k = choose|k: int| 0 <= k < plan.len() && plan[k] == operation;
    assert(word.held(operations_done(content, plan, plan.len() as int, word), plan[k].offset)
        == plan[k].value);
}

/// Relocating an image adds the load bias to a word for every record, and to nothing
/// else. Each record is a relative relocation without a symbol. Its word has four bytes
/// in a 32-bit image and eight in a 64-bit one, and lies in a region, as far from the
/// start of its memory as its address from that of the region. Afterwards it is the
/// load bias plus the addend that the record holds, or, where the record holds none,
/// plus the word that the image held there before.
pub proof fn relocated_words_are_biased<A: ArchRelocator>(
    records: Seq<RelocationRecord>,
    relocator: A,
    target: RelocationTarget,
    regions: Seq<LoadedRegion>,
    before: Seq<u8>,
    plan: Seq<RelocationOperation>,
    i: int,
)
    requires
        relocation_plan(records, relocator, target, regions, before) == Ok::<
            Seq<RelocationOperation>,
            LoadError,
        >(plan),
        regions_within(regions, before.len()),
        0 <= i < records.len(),
    ensures
        relocator.target_machine() == target.machine,
        relocator.target_class() == target.class,
        records[i].raw_type == relocator.relative_code(),
        records[i].symbol_index == 0,
        (records[i].addend is Implicit) == (relocator.encoding() is Implicit),
        ({
            let after = operations_done(before, plan, plan.len() as int, target.word());
            let width = if target.class is Elf32 {
                4int
            } else {
                8int
            };
            exists|k: int|
                0 <= k < regions.len() && {
                    let start = (#[trigger] regions[k]).vaddr_range.start.0;
                    let at = regions[k].allocation_offset + (records[i].offset.0 - start);
                    &&& start <= records[i].offset.0
                    &&& records[i].offset.0 + width <= start + regions[k].vaddr_range.len
                    &&& word_at(after, at, width, target.endian) == target.load_bias.0 + (
                    match records[i].addend {
                        RelocationAddend::Explicit(value) => value as int,
                        RelocationAddend::Implicit => word_at(
                            before,
                            at,
                            width,
                            target.endian,
                        ) as int,
                    })
                }
        }),
{
    let word = target.word();
    lemma_plan_within(records, relocator, target, regions, before, plan);
    relocation_adds_the_load_bias(records, relocator, target, regions, before, plan, i);
    found_addresses_keep_their_distance(
        regions,
        records[i].offset,
        word.width.bytes_spec(),
        MemoryPermissions::spec_none(),
    );
    let place = place_spec(records[i], word, regions)->Ok_0;
    let k = choose|k: int|
        0 <= k < regions.len() && (#[trigger] regions[k]).vaddr_range.start.0
            <= records[i].offset.0 && records[i].offset.0 + word.width.bytes_spec()
            <= regions[k].vaddr_range.start.0 + regions[k].vaddr_range.len && place.0
            - regions[k].allocation_offset == records[i].offset.0
            - regions[k].vaddr_range.start.0;
    assert(place.0 == regions[k].allocation_offset + (records[i].offset.0
        - regions[k].vaddr_range.start.0));
}

/// Relocating an image changes no byte but those of the words that its records name.
pub proof fn relocation_keeps_other_bytes<A: ArchRelocator>(
    records: Seq<RelocationRecord>,
    relocator: A,
    target: RelocationTarget,
    regions: Seq<LoadedRegion>,
    before: Seq<u8>,
    plan: Seq<RelocationOperation>,
    at: int,
)
    requires
        relocation_plan(records, relocator, target, regions, before) == Ok::<
            Seq<RelocationOperation>,
            LoadError,
        >(plan),
        regions_within(regions, before.len()),
        0 <= at < before.len(),
        forall|i: int, k: int|
            0 <= i < records.len() && 0 <= k < regions.len() ==> {
                let place = (#[trigger] regions[k]).allocation_offset + (
                (#[trigger] records[i]).offset.0 - regions[k].vaddr_range.start.0);
                !(place <= at < place + 8)
            },
    ensures
        operations_done(before, plan, plan.len() as int, target.word()).len() == before.len(),
        operations_done(before, plan, plan.len() as int, target.word())[at] == before[at],
{
    let word = target.word();
    lemma_plan_within(records, relocator, target, regions, before, plan);
    if relocated_at(plan, word, at) {
        let (i, k) = lemma_relocated_record(
            records,
            relocator,
            target,
            regions,
            before,
            plan,
            at,
        );
        assert(records[i].offset.0 == records[i].offset.0 && regions[k].allocation_offset
            == regions[k].allocation_offset);
    }
    relocation_touches_only_its_words(before, plan, word, at);
}

/// Whether a relocated word covers this byte.
pub open spec fn relocated_at(plan: Seq<RelocationOperation>, word: TargetWord, at: int) -> bool {
    exists|i: int|
        0 <= i < plan.len() && (#[trigger] plan[i]).offset.0 <= at < plan[i].offset.0
            + word.width.bytes_spec()
}

proof fn lemma_untouched(
    content: Seq<u8>,
    plan: Seq<RelocationOperation>,
    k: int,
    word: TargetWord,
    at: int,
)
    requires
        0 <= k <= plan.len(),
        words_within(plan, word, content.len()),
        0 <= at < content.len(),
        !relocated_at(plan, word, at),
    ensures
        operations_done(content, plan, k, word).len() == content.len(),
        operations_done(content, plan, k, word)[at] == content[at],
    decreases k,
{
    if k > 0 {
        lemma_untouched(content, plan, k - 1, word, at);
        let before = operations_done(content, plan, k - 1, word);
        let last = plan[k - 1];
        words_read_back(word, before, last.offset, last.value);
        word.lemma_fits(last.value);
        word_round_trip(last.value as nat, word.width.bytes_spec() as nat, word.endian);
    }
}

/// Relocation leaves every byte as it was that no relocated word covers.
pub proof fn relocation_touches_only_its_words(
    content: Seq<u8>,
    plan: Seq<RelocationOperation>,
    word: TargetWord,
    at: int,
)
    requires
        words_within(plan, word, content.len()),
        0 <= at < content.len(),
        !relocated_at(plan, word, at),
    ensures
        operations_done(content, plan, plan.len() as int, word).len() == content.len(),
        operations_done(content, plan, plan.len() as int, word)[at] == content[at],
{
    lemma_untouched(content, plan, plan.len() as int, word, at);
}

pub proof fn lemma_operations_keep_length(
    content: Seq<u8>,
    plan: Seq<RelocationOperation>,
    k: int,
    word: TargetWord,
)
    requires
        0 <= k <= plan.len(),
        words_within(plan, word, content.len()),
    ensures
        operations_done(content, plan, k, word).len() == content.len(),
    decreases k,
{
    if k > 0 {
        lemma_operations_keep_length(content, plan, k - 1, word);
        let last = plan[k - 1];
        words_read_back(
            word,
            operations_done(content, plan, k - 1, word),
            last.offset,
            last.value,
        );
    }
}

/// A byte that a relocated word covers lies in the word that some record names in some
/// region.
pub proof fn lemma_relocated_record<A: ArchRelocator>(
    records: Seq<RelocationRecord>,
    relocator: A,
    target: RelocationTarget,
    regions: Seq<LoadedRegion>,
    before: Seq<u8>,
    plan: Seq<RelocationOperation>,
    at: int,
) -> (found: (int, int))
    requires
        relocation_plan(records, relocator, target, regions, before) == Ok::<
            Seq<RelocationOperation>,
            LoadError,
        >(plan),
        relocated_at(plan, target.word(), at),
    ensures
        0 <= found.0 < records.len(),
        0 <= found.1 < regions.len(),
        ({
            let region = regions[found.1];
            let place = region.allocation_offset + (records[found.0].offset.0
                - region.vaddr_range.start.0);
            place <= at < place + target.word().width.bytes_spec()
        }),
{
    let word = target.word();
    let n = records.len() as int;
    let operations = operations_spec(
        records,
        n,
        relocator,
        word,
        regions,
        target.load_bias,
        before,
    )->Ok_0;
    lemma_operation_values(records, n, relocator, word, regions, target.load_bias, before);
    sorting_is_a_sorted_permutation(operations);
    operations.to_multiset_ensures();
    plan.to_multiset_ensures();
    let q = choose|q: int|
        0 <= q < plan.len() && (#[trigger] plan[q]).offset.0 <= at < plan[q].offset.0
            + word.width.bytes_spec();
    assert(plan.contains(plan[q]));
    assert(plan.to_multiset().count(plan[q]) > 0);
    assert(operations.contains(plan[q]));
    let j = choose|j: int| 0 <= j < operations.len() && operations[j] == plan[q];
    assert(operation_spec(records[j], relocator, word, regions, target.load_bias, before) == Ok::<
        RelocationOperation,
        LoadError,
    >(operations[j]));
    found_addresses_keep_their_distance(
        regions,
        records[j].offset,
        word.width.bytes_spec(),
        MemoryPermissions::spec_none(),
    );
    let k = choose|k: int|
        0 <= k < regions.len() && (#[trigger] regions[k]).vaddr_range.start.0
            <= records[j].offset.0 && records[j].offset.0 + word.width.bytes_spec()
            <= regions[k].vaddr_range.start.0 + regions[k].vaddr_range.len
            && operations[j].offset.0 - regions[k].allocation_offset == records[j].offset.0
            - regions[k].vaddr_range.start.0;
    (j, k)
}

/// A relative relocation without a symbol, with an addend of the kind that its machine has,
/// can be done where its word lies in a region and the load bias plus the addend fits into
/// the word: four bytes in a 32-bit image, eight in a 64-bit one.
pub proof fn relative_records_can_be_relocated<A: ArchRelocator>(
    record: RelocationRecord,
    relocator: A,
    word: TargetWord,
    regions: Seq<LoadedRegion>,
    load_bias: TargetAddr,
    content: Seq<u8>,
    k: int,
)
    requires
        record.raw_type == relocator.relative_code(),
        record.symbol_index == 0,
        0 <= k < regions.len(),
        regions[k].vaddr_range.start.0 <= record.offset.0,
        record.offset.0 + (if word.width is U32 {
            4int
        } else {
            8int
        }) <= regions[k].vaddr_range.start.0 + regions[k].vaddr_range.len,
        regions[k].vaddr_range.start.0 + regions[k].vaddr_range.len <= u64::MAX,
        forall|i: int|
            0 <= i < regions.len() ==> (#[trigger] regions[i]).allocation_offset
                + regions[i].vaddr_range.len <= u64::MAX,
    ensures
        place_spec(record, word, regions) is Ok,
        ({
            let highest = if word.width is U32 {
                0xffff_ffffint
            } else {
                0xffff_ffff_ffff_ffffint
            };
            match record.addend {
                RelocationAddend::Explicit(value) => operation_spec(
                    record,
                    relocator,
                    word,
                    regions,
                    load_bias,
                    content,
                ) is Ok <==> relocator.encoding() is Explicit
                    && 0 <= load_bias.0 + value <= highest,
                RelocationAddend::Implicit => operation_spec(
                    record,
                    relocator,
                    word,
                    regions,
                    load_bias,
                    content,
                ) is Ok <==> relocator.encoding() is Implicit && load_bias.0 + word.held(
                    content,
                    place_spec(record, word, regions)->Ok_0,
                ) <= highest,
            }
        }),
{
    let none = MemoryPermissions::spec_none();
    crate::permissions::nothing_is_covered(regions[k].logical_permissions);
    mapped_ranges_are_found(regions, record.offset, word.width.bytes_spec(), none, k);
}

/// Words of which each ends before the next one starts do not clash.
pub proof fn words_apart_do_not_clash(
    operations: Seq<RelocationOperation>,
    k: int,
    word: TargetWord,
)
    requires
        0 <= k <= operations.len(),
        forall|i: int|
            0 < i < k ==> operations[i - 1].offset.0 + (if word.width is U32 {
                4int
            } else {
                8int
            }) <= (#[trigger] operations[i]).offset.0,
    ensures
        clash_spec(operations, k, word) is Ok,
    decreases k,
{
    if k > 1 {
        words_apart_do_not_clash(operations, k - 1, word);
        assert(operations[k - 2].offset.0 + word.width.bytes_spec() <= operations[k - 1].offset.0);
    }
}

} // verus!
