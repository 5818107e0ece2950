//! Finding the dynamic table and the relocation tables of an image in memory.

use crate::address::TargetAddr;
use crate::bytes::word_at;
use crate::elf::{DynamicSegmentInfo, DT_NULL};
use crate::error::{unclaimed, ErrorContext, LimitKind, LoadError, LoadErrorKind, LoadResult};
use crate::identity::{limit_failure, ElfClass, ElfData};
use crate::image::loaded::{first_region, regions_within, LoadedRegion};
use crate::image::records::{
    dynamic_entry_len, dynamic_entry_size, dynamic_error, entries_in, extent_spec, first_symbolic,
    lemma_no_symbols, malformed_tag, read_relocations, read_tags, refused_record,
    relocation_tables_are_whole, relocations_are_read_from_their_words, relocations_in,
    table_extent, table_tag, table_tag_spec, tags_spec, DynamicTags, RelocationAddend,
    RelocationRecord,
    RelocationTableKind, RelocationTableTags, TableExtent, TagRules,
};
use crate::memory::{ready, AllocationOffset, ImageMemory};
use crate::permissions::MemoryPermissions;
use vstd::prelude::*;

verus! {

/// The failure of a range of virtual addresses that no region holds.
pub open spec fn unmapped(vaddr: TargetAddr, len: u64) -> LoadError {
    unclaimed(
        LoadErrorKind::OutOfBounds,
        ErrorContext::TargetRange { start: vaddr, len, align: 0 },
    )
}

fn unmapped_error(vaddr: TargetAddr, len: u64) -> (r: LoadError)
    ensures
        r == unmapped(vaddr, len),
{
    LoadError::new(
        LoadErrorKind::OutOfBounds,
        ErrorContext::TargetRange { start: vaddr, len, align: 0 },
    )
}

/// Where a range of virtual addresses lies in the allocation.
pub open spec fn offset_spec(
    regions: Seq<LoadedRegion>,
    vaddr: TargetAddr,
    len: u64,
    permissions: MemoryPermissions,
) -> LoadResult<AllocationOffset> {
    match first_region(regions, 0, vaddr, len, permissions) {
        None => Err(unmapped(vaddr, len)),
        Some(i) => AllocationOffset(regions[i].allocation_offset).add_spec(
            (vaddr.0 - regions[i].vaddr_range.start.0) as u64,
        ),
    }
}

/// Finds a range of virtual addresses in the allocation.
pub fn locate_offset(
    regions: &Vec<LoadedRegion>,
    vaddr: TargetAddr,
    len: u64,
    permissions: MemoryPermissions,
) -> (r: LoadResult<AllocationOffset>)
    ensures
        r == offset_spec(regions@, vaddr, len, permissions),
{
    let mut index: usize = 0;
    while index < regions.len()
        invariant
            index <= regions@.len(),
            first_region(regions@, 0, vaddr, len, permissions) == first_region(
                regions@,
                index as int,
                vaddr,
                len,
                permissions,
            ),
        decreases regions@.len() - index,
    {
        let region = regions[index];
        if region.vaddr_range.contains_span(vaddr, len) && region.logical_permissions.contains(
            permissions,
        ) {
            return AllocationOffset::new(region.allocation_offset).checked_add(
                vaddr.get() - region.vaddr_range.start().get(),
            );
        }
        index = index + 1;
    }
    Err(unmapped_error(vaddr, len))
}

/// Where the dynamic table lies: in the first region from `from` on whose file
/// bytes are those of the dynamic segment. If `whole`, all of them have to be.
pub open spec fn dynamic_offset(
    regions: Seq<LoadedRegion>,
    dynamic: DynamicSegmentInfo,
    from: int,
    permissions: MemoryPermissions,
    whole: bool,
) -> LoadResult<AllocationOffset>
    decreases regions.len() - from,
{
    let len = dynamic.file_range.len;
    if from >= regions.len() {
        Err(unmapped(dynamic.vaddr, len))
    } else {
        let region = regions[from];
        let offset = dynamic.vaddr.0 - region.vaddr_range.start.0;
        if !region.serves(dynamic.vaddr, len, permissions) {
            dynamic_offset(regions, dynamic, from + 1, permissions, whole)
        } else if region.file_range.offset + offset > u64::MAX {
            Err(malformed_tag(DT_NULL, dynamic.file_range.offset))
        } else if region.file_range.offset + offset == dynamic.file_range.offset && (!whole
            || offset + len <= region.file_range.len) {
            offset_spec(regions, dynamic.vaddr, len, permissions)
        } else {
            dynamic_offset(regions, dynamic, from + 1, permissions, whole)
        }
    }
}

/// Finds the dynamic table.
pub fn locate_file_backed_dynamic(
    regions: &Vec<LoadedRegion>,
    dynamic: &DynamicSegmentInfo,
    permissions: MemoryPermissions,
    whole: bool,
) -> (r: LoadResult<AllocationOffset>)
    ensures
        r == dynamic_offset(regions@, *dynamic, 0, permissions, whole),
{
    let len: u64 = dynamic.file_range().len();
    let mut index: usize = 0;
    while index < regions.len()
        invariant
            index <= regions@.len(),
            len == dynamic.file_range.len,
            dynamic_offset(regions@, *dynamic, 0, permissions, whole) == dynamic_offset(
                regions@,
                *dynamic,
                index as int,
                permissions,
                whole,
            ),
        decreases regions@.len() - index,
    {
        let region = regions[index];
        if region.vaddr_range().contains_span(dynamic.vaddr(), len)
            && region.logical_permissions().contains(permissions) {
            let offset: u64 = dynamic.vaddr().get() - region.vaddr_range().start().get();
            let expected_file_offset: u64 = match region.file_range().offset().checked_add(offset) {
                Some(expected) => expected,
                None => return Err(dynamic_error(DT_NULL, dynamic.file_range().offset())),
            };
            let backed: bool = match offset.checked_add(len) {
                Some(end) => end <= region.file_range().len(),
                None => false,
            };
            if expected_file_offset == dynamic.file_range().offset() && (!whole || backed) {
                return locate_offset(regions, dynamic.vaddr(), len, permissions);
            }
        }
        index = index + 1;
    }
    Err(unmapped_error(dynamic.vaddr(), len))
}

/// What is wrong with the size of a dynamic segment.
pub open spec fn dynamic_shape(dynamic: DynamicSegmentInfo, class: ElfClass) -> LoadResult<()> {
    let len = dynamic.file_range.len;
    if len == 0 || len % dynamic_entry_len(class) != 0 || len > dynamic.memory_size {
        Err(malformed_tag(DT_NULL, len))
    } else {
        Ok(())
    }
}

pub fn check_dynamic_shape(dynamic: &DynamicSegmentInfo, class: ElfClass) -> (r: LoadResult<()>)
    ensures
        r == dynamic_shape(*dynamic, class),
{
    let len: u64 = dynamic.file_range().len();
    if dynamic.file_range().is_empty() || len % dynamic_entry_size(class) != 0 || len
        > dynamic.memory_size() {
        return Err(dynamic_error(DT_NULL, len));
    }
    Ok(())
}

/// A range that is found lies in memory if all regions do.
pub proof fn lemma_offset_within(
    regions: Seq<LoadedRegion>,
    vaddr: TargetAddr,
    len: u64,
    permissions: MemoryPermissions,
    size: nat,
)
    requires
        regions_within(regions, size),
    ensures
        offset_spec(regions, vaddr, len, permissions) matches Ok(offset) ==> offset.0 + len <= size,
{
    lemma_first_region(regions, 0, vaddr, len, permissions);
}

/// Virtual addresses keep their distance in memory: those that are found lie in some
/// region, as far from the start of its memory as from its first address.
pub proof fn found_addresses_keep_their_distance(
    regions: Seq<LoadedRegion>,
    vaddr: TargetAddr,
    len: u64,
    permissions: MemoryPermissions,
)
    ensures
        offset_spec(regions, vaddr, len, permissions) matches Ok(offset) ==> exists|k: int|
            0 <= k < regions.len() && (#[trigger] regions[k]).vaddr_range.start.0 <= vaddr.0
                && vaddr.0 + len <= regions[k].vaddr_range.start.0 + regions[k].vaddr_range.len
                && offset.0 - regions[k].allocation_offset == vaddr.0
                - regions[k].vaddr_range.start.0,
{
    lemma_first_region(regions, 0, vaddr, len, permissions);
    if let Some(k) = first_region(regions, 0, vaddr, len, permissions) {
        assert(regions[k].serves(vaddr, len, permissions));
    }
}

proof fn lemma_first_region(
    regions: Seq<LoadedRegion>,
    from: int,
    vaddr: TargetAddr,
    len: u64,
    permissions: MemoryPermissions,
)
    requires
        0 <= from <= regions.len(),
    ensures
        first_region(regions, from, vaddr, len, permissions) matches Some(i) ==> from <= i
            < regions.len() && regions[i].serves(vaddr, len, permissions),
    decreases regions.len() - from,
{
    if from < regions.len() {
        lemma_first_region(regions, from + 1, vaddr, len, permissions);
    }
}

proof fn lemma_dynamic_within(
    regions: Seq<LoadedRegion>,
    dynamic: DynamicSegmentInfo,
    from: int,
    permissions: MemoryPermissions,
    whole: bool,
    size: nat,
)
    requires
        regions_within(regions, size),
        0 <= from <= regions.len(),
    ensures
        dynamic_offset(regions, dynamic, from, permissions, whole) matches Ok(offset)
            ==> offset.0 + dynamic.file_range.len <= size,
    decreases regions.len() - from,
{
    lemma_offset_within(regions, dynamic.vaddr, dynamic.file_range.len, permissions, size);
    if from < regions.len() {
        lemma_dynamic_within(regions, dynamic, from + 1, permissions, whole, size);
    }
}

/// The permissions that a table has to be readable with under these rules.
pub open spec fn table_permissions(rules: TagRules) -> MemoryPermissions {
    match rules {
        TagRules::Summarize => MemoryPermissions::spec_read(),
        TagRules::Closed => MemoryPermissions::spec_none(),
    }
}

fn permissions_for(rules: TagRules) -> (r: MemoryPermissions)
    ensures
        r == table_permissions(rules),
{
    match rules {
        TagRules::Summarize => MemoryPermissions::read(),
        TagRules::Closed => MemoryPermissions::none(),
    }
}

/// The entries of the dynamic table in memory.
pub open spec fn dynamic_entries(
    content: Seq<u8>,
    offset: AllocationOffset,
    dynamic: DynamicSegmentInfo,
    class: ElfClass,
    endian: ElfData,
) -> Seq<(u64, u64)> {
    entries_in(
        content,
        offset.0 as int,
        (dynamic.file_range.len / dynamic_entry_len(class)) as int,
        class,
        endian,
    )
}

fn check_table_access<M: ImageMemory>(
    rules: TagRules,
    memory: &M,
    offset: AllocationOffset,
    len: u64,
) -> (r: LoadResult<()>)
    ensures
        r is Ok ==> offset.0 + len <= memory.content().len(),
        ready(*memory) && offset.0 + len <= memory.content().len() ==> r is Ok,
{
    match rules {
        TagRules::Summarize => memory.validate_access(offset, len, MemoryPermissions::read()),
        TagRules::Closed => {
            memory.image_span(offset, len)?;
            Ok(())
        },
    }
}

/// What the dynamic table in memory says.
pub open spec fn dynamic_tags_spec(
    rules: TagRules,
    content: Seq<u8>,
    regions: Seq<LoadedRegion>,
    dynamic: DynamicSegmentInfo,
    class: ElfClass,
    endian: ElfData,
    max_entries: u64,
) -> LoadResult<DynamicTags> {
    match dynamic_shape(dynamic, class) {
        Err(error) => Err(error),
        Ok(_) => match dynamic_offset(
            regions,
            dynamic,
            0,
            table_permissions(rules),
            rules == TagRules::Summarize,
        ) {
            Err(error) => Err(error),
            Ok(offset) => tags_spec(
                rules,
                dynamic_entries(content, offset, dynamic, class, endian),
                max_entries,
                dynamic.file_range.len,
            ),
        },
    }
}

/// Finds and reads the dynamic table.
pub fn decode_dynamic_tags<M: ImageMemory>(
    rules: TagRules,
    memory: &M,
    regions: &Vec<LoadedRegion>,
    dynamic: &DynamicSegmentInfo,
    class: ElfClass,
    endian: ElfData,
    max_entries: u64,
) -> (r: LoadResult<DynamicTags>)
    ensures
        dynamic_shape(*dynamic, class) matches Err(error) ==> r == Err::<DynamicTags, LoadError>(
            error,
        ),
        r matches Ok(tags) ==> dynamic_tags_spec(
            rules,
            memory.content(),
            regions@,
            *dynamic,
            class,
            endian,
            max_entries,
        ) == Ok::<DynamicTags, LoadError>(tags),
        ready(*memory) && regions_within(regions@, memory.content().len()) ==> r
            == dynamic_tags_spec(
            rules,
            memory.content(),
            regions@,
            *dynamic,
            class,
            endian,
            max_entries,
        ),
{
    check_dynamic_shape(dynamic, class)?;
    let whole: bool = rules == TagRules::Summarize;
    let offset = locate_file_backed_dynamic(regions, dynamic, permissions_for(rules), whole)?;
    proof {
        if regions_within(regions@, memory.content().len()) {
            lemma_dynamic_within(
                regions@,
                *dynamic,
                0,
                table_permissions(rules),
                whole,
                memory.content().len(),
            );
        }
    }
    check_table_access(rules, memory, offset, dynamic.file_range().len())?;
    read_tags(rules, memory, offset, dynamic.file_range().len(), class, endian, max_entries)
}

/// The quotas of the relocation tables.
#[derive(Clone, Copy, Debug, PartialEq, Eq, Structural)]
pub struct TableLimits {
    pub max_relocations: u64,
    pub max_record_bytes: Option<u64>,
}

/// The bytes that `count` relocation records take.
pub open spec fn record_bytes_spec(count: nat) -> u64 {
    let bytes = count * vstd::layout::size_of::<RelocationRecord>();
    if bytes <= u64::MAX {
        bytes as u64
    } else {
        u64::MAX
    }
}

fn record_bytes(count: u64) -> (r: u64)
    ensures
        r == record_bytes_spec(count as nat),
{
    match count.checked_mul(core::mem::size_of::<RelocationRecord>() as u64) {
        Some(bytes) => bytes,
        None => u64::MAX,
    }
}

/// What of a relocation table is to be read behind `existing` records.
pub open spec fn table_spec(
    tags: RelocationTableTags,
    kind: RelocationTableKind,
    class: ElfClass,
    existing: nat,
    limits: TableLimits,
) -> LoadResult<Option<TableExtent>> {
    let tag = table_tag_spec(kind);
    match extent_spec(tags, kind, class) {
        Err(error) => Err(error),
        Ok(None) => Ok(None),
        Ok(Some(extent)) => {
            let total = existing + extent.count;
            if total > u64::MAX {
                Err(malformed_tag(tag, extent.count))
            } else if total > limits.max_relocations {
                Err(
                    limit_failure(
                        LimitKind::RelocationCount,
                        total as u64,
                        limits.max_relocations,
                    ),
                )
            } else if limits.max_record_bytes is Some && record_bytes_spec(total as nat)
                > limits.max_record_bytes->0 {
                Err(
                    limit_failure(
                        LimitKind::RuntimeMetadataBytes,
                        record_bytes_spec(total as nat),
                        limits.max_record_bytes->0,
                    ),
                )
            } else if extent.count > usize::MAX {
                Err(malformed_tag(tag, extent.count))
            } else {
                Ok(Some(extent))
            }
        },
    }
}

fn over_quota(resource: LimitKind, actual: u64, maximum: u64) -> (r: LoadError)
    ensures
        r == limit_failure(resource, actual, maximum),
{
    LoadError::new(
        LoadErrorKind::ResourceLimit,
        ErrorContext::Limit { resource, actual, maximum },
    )
}

/// Checks a relocation table against the quotas.
pub fn plan_table(
    tags: &RelocationTableTags,
    kind: RelocationTableKind,
    class: ElfClass,
    existing: usize,
    limits: &TableLimits,
) -> (r: LoadResult<Option<TableExtent>>)
    ensures
        r == table_spec(*tags, kind, class, existing as nat, *limits),
{
    let extent: TableExtent = match table_extent(tags, kind, class)? {
        Some(extent) => extent,
        None => return Ok(None),
    };
    let tag: u64 = table_tag(kind);
    let total: u64 = match (existing as u64).checked_add(extent.count) {
        Some(total) => total,
        None => return Err(dynamic_error(tag, extent.count)),
    };
    if total > limits.max_relocations {
        return Err(over_quota(LimitKind::RelocationCount, total, limits.max_relocations));
    }
    if let Some(max_record_bytes) = limits.max_record_bytes {
        let bytes: u64 = record_bytes(total);
        if bytes > max_record_bytes {
            return Err(over_quota(LimitKind::RuntimeMetadataBytes, bytes, max_record_bytes));
        }
    }
    if extent.count > usize::MAX as u64 {
        return Err(dynamic_error(tag, extent.count));
    }
    Ok(Some(extent))
}

/// The relocations of a table in memory, of which none may name a symbol.
pub open spec fn relocation_table_spec(
    rules: TagRules,
    content: Seq<u8>,
    regions: Seq<LoadedRegion>,
    tags: RelocationTableTags,
    kind: RelocationTableKind,
    class: ElfClass,
    endian: ElfData,
    limits: TableLimits,
    existing: nat,
) -> LoadResult<Seq<RelocationRecord>> {
    match table_spec(tags, kind, class, existing, limits) {
        Err(error) => Err(error),
        Ok(None) => Ok(Seq::empty()),
        Ok(Some(extent)) => if extent.byte_len == 0 {
            Ok(Seq::empty())
        } else {
            match offset_spec(
                regions,
                TargetAddr(extent.address),
                extent.byte_len,
                table_permissions(rules),
            ) {
                Err(error) => Err(error),
                Ok(offset) => {
                    let found = relocations_in(
                        content,
                        offset.0 as int,
                        extent.count as int,
                        class,
                        endian,
                        kind,
                    );
                    match first_symbolic(found, 0) {
                        Some(i) => Err(refused_record(found[i])),
                        None => Ok(found),
                    }
                },
            }
        },
    }
}

/// The relocations of both tables that a dynamic table names.
pub open spec fn both_tables(
    rules: TagRules,
    content: Seq<u8>,
    regions: Seq<LoadedRegion>,
    tags: DynamicTags,
    class: ElfClass,
    endian: ElfData,
    limits: TableLimits,
) -> LoadResult<Seq<RelocationRecord>> {
    match relocation_table_spec(
        rules,
        content,
        regions,
        tags.rel,
        RelocationTableKind::Rel,
        class,
        endian,
        limits,
        0,
    ) {
        Err(error) => Err(error),
        Ok(rel) => match relocation_table_spec(
            rules,
            content,
            regions,
            tags.rela,
            RelocationTableKind::Rela,
            class,
            endian,
            limits,
            rel.len(),
        ) {
            Err(error) => Err(error),
            Ok(rela) => Ok(rel + rela),
        },
    }
}

/// Finds and reads a relocation table behind the records that are already there.
pub fn decode_relocation_table<M: ImageMemory>(
    rules: TagRules,
    memory: &M,
    regions: &Vec<LoadedRegion>,
    tags: &RelocationTableTags,
    kind: RelocationTableKind,
    class: ElfClass,
    endian: ElfData,
    limits: &TableLimits,
    records: &mut Vec<RelocationRecord>,
) -> (r: LoadResult<()>)
    ensures
        table_spec(*tags, kind, class, old(records)@.len(), *limits) matches Err(error) ==> r
            == Err::<(), LoadError>(error) && final(records)@ == old(records)@,
        ({
            let found = relocation_table_spec(
                rules,
                memory.content(),
                regions@,
                *tags,
                kind,
                class,
                endian,
                *limits,
                old(records)@.len(),
            );
            &&& r is Ok ==> found is Ok && final(records)@ == old(records)@ + found->Ok_0
            &&& ready(*memory) && regions_within(regions@, memory.content().len()) ==> match found {
                Ok(_) => r is Ok,
                Err(error) => r == Err::<(), LoadError>(error),
            }
        }),
{
    let extent: TableExtent = match plan_table(tags, kind, class, records.len(), limits)? {
        Some(extent) => extent,
        None => {
            assert(records@ =~= old(records)@ + Seq::<RelocationRecord>::empty());
            return Ok(());
        },
    };
    if extent.byte_len == 0 {
        assert(records@ =~= old(records)@ + Seq::<RelocationRecord>::empty());
        return Ok(());
    }
    let offset = locate_offset(
        regions,
        TargetAddr::new(extent.address),
        extent.byte_len,
        permissions_for(rules),
    )?;
    proof {
        if regions_within(regions@, memory.content().len()) {
            lemma_offset_within(
                regions@,
                TargetAddr(extent.address),
                extent.byte_len,
                table_permissions(rules),
                memory.content().len(),
            );
        }
        lemma_no_symbols(
            relocations_in(
                memory.content(),
                offset.0 as int,
                extent.count as int,
                class,
                endian,
                kind,
            ),
            0,
        );
    }
    check_table_access(rules, memory, offset, extent.byte_len)?;
    read_relocations(memory, offset, &extent, class, endian, kind, records)
}

/// Where a table of an image lies in memory: in some region, as far from the start of its
/// memory as its address from that of the region.
pub open spec fn lies_at(regions: Seq<LoadedRegion>, address: u64, len: u64, at: int) -> bool {
    exists|k: int|
        0 <= k < regions.len() && (#[trigger] regions[k]).vaddr_range.start.0 <= address && address
            + len <= regions[k].vaddr_range.start.0 + regions[k].vaddr_range.len && at
            - regions[k].allocation_offset == address - regions[k].vaddr_range.start.0
}

/// What is read of a relocation table is all of it: there are as many relocations as its
/// size says, and relocation `i` is read from the words at its place.
pub proof fn relocation_tables_are_read_whole(
    rules: TagRules,
    content: Seq<u8>,
    regions: Seq<LoadedRegion>,
    tags: RelocationTableTags,
    kind: RelocationTableKind,
    class: ElfClass,
    endian: ElfData,
    limits: TableLimits,
    existing: nat,
    records: Seq<RelocationRecord>,
) -> (at: int)
    requires
        relocation_table_spec(
            rules,
            content,
            regions,
            tags,
            kind,
            class,
            endian,
            limits,
            existing,
        ) == Ok::<Seq<RelocationRecord>, LoadError>(records),
        regions_within(regions, content.len()),
    ensures
        ({
            let width = if class is Elf32 {
                4int
            } else {
                8int
            };
            let size = if kind is Rel {
                2 * width
            } else {
                3 * width
            };
            &&& tags.byte_len is None ==> records.len() == 0
            &&& tags.byte_len matches Some(len) ==> records.len() * size == len
            &&& records.len() > 0 ==> tags.address is Some && tags.byte_len is Some && lies_at(
                regions,
                tags.address->0,
                tags.byte_len->0,
                at,
            ) && 0 <= at && at + records.len() * size <= content.len()
            &&& forall|i: int|
                0 <= i < records.len() ==> {
                    let record = #[trigger] records[i];
                    let place = at + i * size;
                    let info = word_at(content, place + width, width, endian);
                    &&& record.offset.0 == word_at(content, place, width, endian)
                    &&& info == record.raw_type
                    &&& record.symbol_index == 0
                    &&& record.addend is Implicit <==> kind is Rel
                    &&& record.addend matches RelocationAddend::Explicit(value) ==> {
                        let word = word_at(content, place + 2 * width, width, endian);
                        value == word || value + (if class is Elf32 {
                            0x1_0000_0000int
                        } else {
                            0x1_0000_0000_0000_0000int
                        }) == word
                    }
                }
        }),
{
    let width = if class is Elf32 {
        4int
    } else {
        8int
    };
    let size = if kind is Rel {
        2 * width
    } else {
        3 * width
    };
    relocation_tables_are_whole(tags, kind, class);
    match extent_spec(tags, kind, class)->Ok_0 {
        None => 0,
        Some(extent) => if extent.byte_len == 0 {
            assert(records.len() * size == 0);
            0
        } else {
            let permissions = table_permissions(rules);
            let offset = offset_spec(
                regions,
                TargetAddr(extent.address),
                extent.byte_len,
                permissions,
            )->Ok_0;
            found_addresses_keep_their_distance(
                regions,
                TargetAddr(extent.address),
                extent.byte_len,
                permissions,
            );
            lemma_offset_within(
                regions,
                TargetAddr(extent.address),
                extent.byte_len,
                permissions,
                content.len(),
            );
            let at = offset.0 as int;
            let count = extent.count as int;
            assert(records == relocations_in(content, at, count, class, endian, kind));
            lemma_no_symbols(records, 0);
            assert forall|i: int| 0 <= i < records.len() implies {
                let record = #[trigger] records[i];
                let place = at + i * size;
                let info = word_at(content, place + width, width, endian);
                &&& record.offset.0 == word_at(content, place, width, endian)
                &&& info == record.raw_type
                &&& record.symbol_index == 0
                &&& record.addend is Implicit <==> kind is Rel
                &&& record.addend matches RelocationAddend::Explicit(value) ==> {
                    let word = word_at(content, place + 2 * width, width, endian);
                    value == word || value + (if class is Elf32 {
                        0x1_0000_0000int
                    } else {
                        0x1_0000_0000_0000_0000int
                    }) == word
                }
            } by {
                assert((i + 1) * size <= count * size) by (nonlinear_arith)
                    requires
                        i + 1 <= count,
                        size > 0,
                ;
                relocations_are_read_from_their_words(
                    content,
                    at,
                    count,
                    class,
                    endian,
                    kind,
                    i,
                );
                assert(records[i].symbol_index == 0);
            }
            at
        },
    }
}

/// The relocations of an image are those of its table without addends, and then those of
/// its table with addends.
pub proof fn both_tables_are_read(
    rules: TagRules,
    content: Seq<u8>,
    regions: Seq<LoadedRegion>,
    tags: DynamicTags,
    class: ElfClass,
    endian: ElfData,
    limits: TableLimits,
    records: Seq<RelocationRecord>,
) -> (split: int)
    requires
        both_tables(rules, content, regions, tags, class, endian, limits) == Ok::<
            Seq<RelocationRecord>,
            LoadError,
        >(records),
    ensures
        0 <= split <= records.len(),
        relocation_table_spec(
            rules,
            content,
            regions,
            tags.rel,
            RelocationTableKind::Rel,
            class,
            endian,
            limits,
            0,
        ) == Ok::<Seq<RelocationRecord>, LoadError>(records.subrange(0, split)),
        relocation_table_spec(
            rules,
            content,
            regions,
            tags.rela,
            RelocationTableKind::Rela,
            class,
            endian,
            limits,
            split as nat,
        ) == Ok::<Seq<RelocationRecord>, LoadError>(
            records.subrange(split, records.len() as int),
        ),
{
    let rel = relocation_table_spec(
        rules,
        content,
        regions,
        tags.rel,
        RelocationTableKind::Rel,
        class,
        endian,
        limits,
        0,
    )->Ok_0;
    let split = rel.len() as int;
    let rela = relocation_table_spec(
        rules,
        content,
        regions,
        tags.rela,
        RelocationTableKind::Rela,
        class,
        endian,
        limits,
        rel.len(),
    )->Ok_0;
    assert(records.subrange(0, split) =~= rel);
    assert(records.subrange(split, records.len() as int) =~= rela);
    split
}

/// A range of addresses that lies in a region with the permissions is found.
pub proof fn mapped_ranges_are_found(
    regions: Seq<LoadedRegion>,
    vaddr: TargetAddr,
    len: u64,
    permissions: MemoryPermissions,
    k: int,
)
    requires
        0 <= k < regions.len(),
        regions[k].vaddr_range.start.0 <= vaddr.0,
        vaddr.0 + len <= regions[k].vaddr_range.start.0 + regions[k].vaddr_range.len,
        regions[k].vaddr_range.start.0 + regions[k].vaddr_range.len <= u64::MAX,
        regions[k].logical_permissions.covers(permissions),
        forall|i: int|
            0 <= i < regions.len() ==> (#[trigger] regions[i]).allocation_offset
                + regions[i].vaddr_range.len <= u64::MAX,
    ensures
        offset_spec(regions, vaddr, len, permissions) is Ok,
{
    assert(regions[k].serves(vaddr, len, permissions));
    lemma_region_found(regions, 0, vaddr, len, permissions, k);
    lemma_first_region(regions, 0, vaddr, len, permissions);
    let i = first_region(regions, 0, vaddr, len, permissions)->0;
    assert(regions[i].allocation_offset + regions[i].vaddr_range.len <= u64::MAX);
}

proof fn lemma_region_found(
    regions: Seq<LoadedRegion>,
    from: int,
    vaddr: TargetAddr,
    len: u64,
    permissions: MemoryPermissions,
    k: int,
)
    requires
        0 <= from <= k < regions.len(),
        regions[k].serves(vaddr, len, permissions),
    ensures
        first_region(regions, from, vaddr, len, permissions) is Some,
    decreases k - from,
{
    if from < k {
        lemma_region_found(regions, from + 1, vaddr, len, permissions, k);
    }
}

} // verus!
