//! Dynamic table entries and relocation records in image memory.

use crate::address::TargetAddr;
use crate::bytes::{first_short, lemma_word_bounds, read_u32, read_u64, word_at};
use crate::elf::{
    tag_class, classify_tag, DynamicTagClass, DF_TEXTREL, DT_NULL, DT_REL, DT_RELA, DT_RELAENT,
    DT_RELASZ, DT_RELENT, DT_RELSZ,
};
use crate::error::{unclaimed, ErrorContext, LimitKind, LoadError, LoadErrorKind, LoadResult};
use crate::identity::{limit_failure, ElfClass, ElfData};
use crate::image::features::DynamicFeatureSummary;
use crate::memory::{ready, AllocationOffset, ImageMemory};
use vstd::prelude::*;

verus! {

#[derive(Clone, Copy, Debug, PartialEq, Eq, Structural)]
pub enum RelocationAddend {
    Implicit,
    Explicit(i64),
}

/// One relocation.
#[derive(Clone, Copy, Debug, PartialEq, Eq, Structural)]
pub struct RelocationRecord {
    pub offset: TargetAddr,
    pub raw_type: u32,
    pub symbol_index: u32,
    pub addend: RelocationAddend,
}

impl RelocationRecord {
    #[inline]
    pub fn new(offset: TargetAddr, raw_type: u32, symbol_index: u32, addend: RelocationAddend) -> (r:
        Self)
        ensures
            r == (RelocationRecord { offset, raw_type, symbol_index, addend }),
    {
        RelocationRecord { offset, raw_type, symbol_index, addend }
    }

    #[inline]
    pub fn offset(&self) -> (r: TargetAddr)
        ensures
            r == self.offset,
    {
        self.offset
    }

    #[inline]
    pub fn raw_type(&self) -> (r: u32)
        ensures
            r == self.raw_type,
    {
        self.raw_type
    }

    #[inline]
    pub fn symbol_index(&self) -> (r: u32)
        ensures
            r == self.symbol_index,
    {
        self.symbol_index
    }

    #[inline]
    pub fn addend(&self) -> (r: RelocationAddend)
        ensures
            r == self.addend,
    {
        self.addend
    }
}

#[derive(Clone, Copy, Debug, PartialEq, Eq, Structural)]
pub enum RelocationTableKind {
    Rel,
    Rela,
}

/// Where the dynamic table says a relocation table is.
#[derive(Clone, Copy, Debug, PartialEq, Eq, Structural)]
pub struct RelocationTableTags {
    pub address: Option<u64>,
    pub byte_len: Option<u64>,
    pub entry_size: Option<u64>,
}

impl RelocationTableTags {
    pub open spec fn nothing() -> Self {
        RelocationTableTags { address: None, byte_len: None, entry_size: None }
    }

    #[inline]
    pub fn address(&self) -> (r: Option<u64>)
        ensures
            r == self.address,
    {
        self.address
    }

    #[inline]
    pub fn byte_len(&self) -> (r: Option<u64>)
        ensures
            r == self.byte_len,
    {
        self.byte_len
    }

    #[inline]
    pub fn entry_size(&self) -> (r: Option<u64>)
        ensures
            r == self.entry_size,
    {
        self.entry_size
    }

    #[inline]
    pub fn address_mut(&mut self) -> (r: &mut Option<u64>)
        ensures
            *r == old(self).address,
            *final(self) == (RelocationTableTags { address: *final(r), ..*old(self) }),
    {
        &mut self.address
    }

    #[inline]
    pub fn byte_len_mut(&mut self) -> (r: &mut Option<u64>)
        ensures
            *r == old(self).byte_len,
            *final(self) == (RelocationTableTags { byte_len: *final(r), ..*old(self) }),
    {
        &mut self.byte_len
    }

    #[inline]
    pub fn entry_size_mut(&mut self) -> (r: &mut Option<u64>)
        ensures
            *r == old(self).entry_size,
            *final(self) == (RelocationTableTags { entry_size: *final(r), ..*old(self) }),
    {
        &mut self.entry_size
    }
}

impl Default for RelocationTableTags {
    fn default() -> (r: Self)
        ensures
            r == Self::nothing(),
    {
        RelocationTableTags { address: None, byte_len: None, entry_size: None }
    }
}

/// What a dynamic table says.
#[derive(Clone, Copy, Debug, PartialEq, Eq)]
pub struct DynamicTags {
    pub rel: RelocationTableTags,
    pub rela: RelocationTableTags,
    pub features: DynamicFeatureSummary,
}

impl DynamicTags {
    pub open spec fn nothing() -> Self {
        DynamicTags {
            rel: RelocationTableTags::nothing(),
            rela: RelocationTableTags::nothing(),
            features: DynamicFeatureSummary::nothing(),
        }
    }

    #[inline]
    pub fn rel(&self) -> (r: &RelocationTableTags)
        ensures
            *r == self.rel,
    {
        &self.rel
    }

    #[inline]
    pub fn rela(&self) -> (r: &RelocationTableTags)
        ensures
            *r == self.rela,
    {
        &self.rela
    }

    #[inline]
    pub fn rel_mut(&mut self) -> (r: &mut RelocationTableTags)
        ensures
            *r == old(self).rel,
            *final(self) == (DynamicTags { rel: *final(r), ..*old(self) }),
    {
        &mut self.rel
    }

    #[inline]
    pub fn rela_mut(&mut self) -> (r: &mut RelocationTableTags)
        ensures
            *r == old(self).rela,
            *final(self) == (DynamicTags { rela: *final(r), ..*old(self) }),
    {
        &mut self.rela
    }
}

impl Default for DynamicTags {
    fn default() -> (r: Self)
        ensures
            r == Self::nothing(),
    {
        DynamicTags {
            rel: RelocationTableTags::default(),
            rela: RelocationTableTags::default(),
            features: DynamicFeatureSummary::default(),
        }
    }
}

/// What happens to tags that are not about relocation tables.
#[derive(Clone, Copy, Debug, PartialEq, Eq, Structural)]
pub enum TagRules {
    /// They are recorded for a policy to judge.
    Summarize,
    /// Text relocations are refused, everything else is passed over.
    Closed,
}

/// A malformed dynamic table.
pub open spec fn malformed_tag(tag: u64, value: u64) -> LoadError {
    unclaimed(LoadErrorKind::BadElf, ErrorContext::DynamicTag { tag, value })
}

/// A dynamic tag that asks for something unsupported.
pub open spec fn refused_tag(tag: u64, value: u64) -> LoadError {
    unclaimed(LoadErrorKind::UnsupportedByProfile, ErrorContext::DynamicTag { tag, value })
}

/// A relocation that asks for something unsupported.
pub open spec fn refused_record(record: RelocationRecord) -> LoadError {
    unclaimed(
        LoadErrorKind::UnsupportedByProfile,
        ErrorContext::Relocation {
            offset: record.offset,
            raw_type: record.raw_type,
            symbol_index: record.symbol_index,
        },
    )
}

pub fn dynamic_error(tag: u64, value: u64) -> (r: LoadError)
    ensures
        r == malformed_tag(tag, value),
{
    LoadError::new(LoadErrorKind::BadElf, ErrorContext::DynamicTag { tag, value })
}

pub fn unsupported_dynamic(tag: u64, value: u64) -> (r: LoadError)
    ensures
        r == refused_tag(tag, value),
{
    LoadError::new(LoadErrorKind::UnsupportedByProfile, ErrorContext::DynamicTag { tag, value })
}

pub fn unsupported_relocation(record: RelocationRecord) -> (r: LoadError)
    ensures
        r == refused_record(record),
{
    LoadError::new(
        LoadErrorKind::UnsupportedByProfile,
        ErrorContext::Relocation {
            offset: record.offset(),
            raw_type: record.raw_type(),
            symbol_index: record.symbol_index(),
        },
    )
}

/// A slot after its tag was seen: a second time is an error.
pub open spec fn once(slot: Option<u64>, tag: u64, value: u64) -> LoadResult<Option<u64>> {
    if slot is Some {
        Err(malformed_tag(tag, value))
    } else {
        Ok(Some(value))
    }
}

fn set_once(slot: &mut Option<u64>, tag: u64, value: u64) -> (r: LoadResult<()>)
    ensures
        match once(*old(slot), tag, value) {
            Ok(after) => r is Ok && *final(slot) == after,
            Err(error) => r == Err::<(), LoadError>(error),
        },
{
    let taken: bool = slot.is_some();
    *slot = Some(value);
    if taken {
        Err(dynamic_error(tag, value))
    } else {
        Ok(())
    }
}

/// Which slot of a relocation table a tag fills.
pub open spec fn table_after(
    table: RelocationTableTags,
    tag: u64,
    value: u64,
    address: u64,
    byte_len: u64,
) -> LoadResult<RelocationTableTags> {
    if tag == address {
        match once(table.address, tag, value) {
            Ok(slot) => Ok(RelocationTableTags { address: slot, ..table }),
            Err(error) => Err(error),
        }
    } else if tag == byte_len {
        match once(table.byte_len, tag, value) {
            Ok(slot) => Ok(RelocationTableTags { byte_len: slot, ..table }),
            Err(error) => Err(error),
        }
    } else {
        match once(table.entry_size, tag, value) {
            Ok(slot) => Ok(RelocationTableTags { entry_size: slot, ..table }),
            Err(error) => Err(error),
        }
    }
}

/// The feature summary after a tag that is not about relocation tables.
pub open spec fn features_after(
    features: DynamicFeatureSummary,
    tag: u64,
    value: u64,
) -> LoadResult<DynamicFeatureSummary> {
    match tag_class(tag) {
        DynamicTagClass::Flags => match once(features.flags, tag, value) {
            Ok(slot) => Ok(DynamicFeatureSummary { flags: slot, ..features }),
            Err(error) => Err(error),
        },
        DynamicTagClass::Flags1 => match once(features.flags_1, tag, value) {
            Ok(slot) => Ok(DynamicFeatureSummary { flags_1: slot, ..features }),
            Err(error) => Err(error),
        },
        DynamicTagClass::Metadata => Ok(features),
        _ => Ok(features.observed(tag, value)),
    }
}

/// Whether the closed rules refuse a tag.
pub open spec fn text_relocation(tag: u64, value: u64) -> bool {
    tag_class(tag) == DynamicTagClass::TextRelocation || (tag_class(tag) == DynamicTagClass::Flags
        && value & DF_TEXTREL != 0)
}

/// The tags after one more entry.
pub open spec fn tags_after(rules: TagRules, tags: DynamicTags, tag: u64, value: u64) -> LoadResult<
    DynamicTags,
> {
    if tag == DT_REL || tag == DT_RELSZ || tag == DT_RELENT {
        match table_after(tags.rel, tag, value, DT_REL, DT_RELSZ) {
            Ok(rel) => Ok(DynamicTags { rel, ..tags }),
            Err(error) => Err(error),
        }
    } else if tag == DT_RELA || tag == DT_RELASZ || tag == DT_RELAENT {
        match table_after(tags.rela, tag, value, DT_RELA, DT_RELASZ) {
            Ok(rela) => Ok(DynamicTags { rela, ..tags }),
            Err(error) => Err(error),
        }
    } else {
        match rules {
            TagRules::Summarize => match features_after(tags.features, tag, value) {
                Ok(features) => Ok(DynamicTags { features, ..tags }),
                Err(error) => Err(error),
            },
            TagRules::Closed => if text_relocation(tag, value) {
                Err(refused_tag(tag, value))
            } else {
                Ok(tags)
            },
        }
    }
}

/// Takes one entry into the tags.
pub fn accept_dynamic_tag(rules: TagRules, tags: &mut DynamicTags, tag: u64, value: u64) -> (r:
    LoadResult<()>)
    ensures
        match tags_after(rules, *old(tags), tag, value) {
            Ok(after) => r is Ok && *final(tags) == after,
            Err(error) => r == Err::<(), LoadError>(error),
        },
{
    if tag == DT_REL {
        return set_once(&mut tags.rel.address, tag, value);
    }
    if tag == DT_RELSZ {
        return set_once(&mut tags.rel.byte_len, tag, value);
    }
    if tag == DT_RELENT {
        return set_once(&mut tags.rel.entry_size, tag, value);
    }
    if tag == DT_RELA {
        return set_once(&mut tags.rela.address, tag, value);
    }
    if tag == DT_RELASZ {
        return set_once(&mut tags.rela.byte_len, tag, value);
    }
    if tag == DT_RELAENT {
        return set_once(&mut tags.rela.entry_size, tag, value);
    }
    let class = classify_tag(tag);
    match rules {
        TagRules::Summarize => match class {
            DynamicTagClass::Flags => set_once(&mut tags.features.flags, tag, value),
            DynamicTagClass::Flags1 => set_once(&mut tags.features.flags_1, tag, value),
            DynamicTagClass::Metadata => Ok(()),
            _ => {
                tags.features.observe_extended(tag, value);
                Ok(())
            },
        },
        TagRules::Closed => {
            if class == DynamicTagClass::TextRelocation || (class == DynamicTagClass::Flags && value
                & DF_TEXTREL != 0) {
                Err(unsupported_dynamic(tag, value))
            } else {
                Ok(())
            }
        },
    }
}

/// The size of one dynamic table entry.
pub open spec fn dynamic_entry_len(class: ElfClass) -> u64 {
    match class {
        ElfClass::Elf32 => 8,
        ElfClass::Elf64 => 16,
    }
}

pub fn dynamic_entry_size(class: ElfClass) -> (r: u64)
    ensures
        r == dynamic_entry_len(class),
{
    match class {
        ElfClass::Elf32 => 8,
        ElfClass::Elf64 => 16,
    }
}

/// The size of one relocation.
pub open spec fn relocation_entry_len(class: ElfClass, kind: RelocationTableKind) -> u64 {
    match (class, kind) {
        (ElfClass::Elf32, RelocationTableKind::Rel) => 8,
        (ElfClass::Elf32, RelocationTableKind::Rela) => 12,
        (ElfClass::Elf64, RelocationTableKind::Rel) => 16,
        (ElfClass::Elf64, RelocationTableKind::Rela) => 24,
    }
}

pub fn relocation_entry_size(class: ElfClass, kind: RelocationTableKind) -> (r: u64)
    ensures
        r == relocation_entry_len(class, kind),
{
    match (class, kind) {
        (ElfClass::Elf32, RelocationTableKind::Rel) => 8,
        (ElfClass::Elf32, RelocationTableKind::Rela) => 12,
        (ElfClass::Elf64, RelocationTableKind::Rel) => 16,
        (ElfClass::Elf64, RelocationTableKind::Rela) => 24,
    }
}

/// The tag and value of a dynamic table entry.
pub open spec fn dynamic_entry_of(bytes: Seq<u8>, class: ElfClass, endian: ElfData) -> (u64, u64) {
    match class {
        ElfClass::Elf32 => (
            word_at(bytes, 0, 4, endian) as u64,
            word_at(bytes, 4, 4, endian) as u64,
        ),
        ElfClass::Elf64 => (
            word_at(bytes, 0, 8, endian) as u64,
            word_at(bytes, 8, 8, endian) as u64,
        ),
    }
}

/// The words of a dynamic table entry, by offset and width.
pub open spec fn dynamic_entry_words(class: ElfClass) -> Seq<(usize, u64)> {
    match class {
        ElfClass::Elf32 => seq![(0, 4), (4, 4)],
        ElfClass::Elf64 => seq![(0, 8), (8, 8)],
    }
}

pub fn decode_dynamic_entry(bytes: &[u8], class: ElfClass, endian: ElfData) -> (r: LoadResult<
    (u64, u64),
>)
    ensures
        r is Ok <==> bytes@.len() >= dynamic_entry_len(class),
        match first_short(dynamic_entry_words(class), bytes@.len()) {
            Some(error) => r == Err::<(u64, u64), LoadError>(error),
            None => r == Ok::<(u64, u64), LoadError>(dynamic_entry_of(bytes@, class, endian)),
        },
{
    proof {
        reveal_with_fuel(first_short, 3);
    }
    match class {
        ElfClass::Elf32 => {
            let tag: u64 = read_u32(bytes, 0, endian)? as u64;
            let value: u64 = read_u32(bytes, 4, endian)? as u64;
            Ok((tag, value))
        },
        ElfClass::Elf64 => {
            let tag: u64 = read_u64(bytes, 0, endian)?;
            let value: u64 = read_u64(bytes, 8, endian)?;
            Ok((tag, value))
        },
    }
}

/// The signed number that a word of `width` bytes stands for.
pub open spec fn signed_value(word: nat, width: nat) -> int {
    let half: int = if width == 4 {
        0x8000_0000
    } else {
        0x8000_0000_0000_0000
    };
    if word < half {
        word as int
    } else {
        word - 2 * half
    }
}

/// The relocation that the bytes of one table entry denote.
pub open spec fn relocation_of(
    bytes: Seq<u8>,
    class: ElfClass,
    endian: ElfData,
    kind: RelocationTableKind,
) -> RelocationRecord {
    let width: nat = match class {
        ElfClass::Elf32 => 4,
        ElfClass::Elf64 => 8,
    };
    let offset = word_at(bytes, 0, width as int, endian);
    let info = word_at(bytes, width as int, width as int, endian);
    let addend = match kind {
        RelocationTableKind::Rel => RelocationAddend::Implicit,
        RelocationTableKind::Rela => RelocationAddend::Explicit(
            signed_value(word_at(bytes, 2 * width as int, width as int, endian), width) as i64,
        ),
    };
    let (raw_type, symbol_index) = match class {
        ElfClass::Elf32 => (info % 0x100, info / 0x100),
        ElfClass::Elf64 => (info % 0x1_0000_0000, info / 0x1_0000_0000),
    };
    RelocationRecord {
        offset: TargetAddr(offset as u64),
        raw_type: raw_type as u32,
        symbol_index: symbol_index as u32,
        addend,
    }
}

fn signed_u32(word: u32) -> (r: i64)
    ensures
        r == signed_value(word as nat, 4),
{
    if word < 0x8000_0000 {
        word as i64
    } else {
        word as i64 - 0x1_0000_0000
    }
}

fn signed_u64(word: u64) -> (r: i64)
    ensures
        r == signed_value(word as nat, 8),
{
    if word < 0x8000_0000_0000_0000 {
        word as i64
    } else {
        (word - 0x8000_0000_0000_0000) as i64 - 0x7fff_ffff_ffff_ffff - 1
    }
}

/// The words of a relocation table entry, by offset and width.
pub open spec fn relocation_words(class: ElfClass, kind: RelocationTableKind) -> Seq<(usize, u64)> {
    match (class, kind) {
        (ElfClass::Elf32, RelocationTableKind::Rel) => seq![(0, 4), (4, 4)],
        (ElfClass::Elf32, RelocationTableKind::Rela) => seq![(0, 4), (4, 4), (8, 4)],
        (ElfClass::Elf64, RelocationTableKind::Rel) => seq![(0, 8), (8, 8)],
        (ElfClass::Elf64, RelocationTableKind::Rela) => seq![(0, 8), (8, 8), (16, 8)],
    }
}

pub fn decode_relocation_entry(
    bytes: &[u8],
    class: ElfClass,
    endian: ElfData,
    kind: RelocationTableKind,
) -> (r: LoadResult<RelocationRecord>)
    ensures
        r is Ok <==> bytes@.len() >= relocation_entry_len(class, kind),
        match first_short(relocation_words(class, kind), bytes@.len()) {
            Some(error) => r == Err::<RelocationRecord, LoadError>(error),
            None => r == Ok::<RelocationRecord, LoadError>(
                relocation_of(bytes@, class, endian, kind),
            ),
        },
{
    proof {
        reveal_with_fuel(first_short, 4);
    }
    match class {
        ElfClass::Elf32 => {
            let offset: u32 = read_u32(bytes, 0, endian)?;
            let info: u32 = read_u32(bytes, 4, endian)?;
            let addend = match kind {
                RelocationTableKind::Rel => RelocationAddend::Implicit,
                RelocationTableKind::Rela => RelocationAddend::Explicit(
                    signed_u32(read_u32(bytes, 8, endian)?),
                ),
            };
            Ok(RelocationRecord::new(TargetAddr::new(offset as u64), info % 256, info / 256, addend))
        },
        ElfClass::Elf64 => {
            let offset: u64 = read_u64(bytes, 0, endian)?;
            let info: u64 = read_u64(bytes, 8, endian)?;
            let addend = match kind {
                RelocationTableKind::Rel => RelocationAddend::Implicit,
                RelocationTableKind::Rela => RelocationAddend::Explicit(
                    signed_u64(read_u64(bytes, 16, endian)?),
                ),
            };
            Ok(
                RelocationRecord::new(
                    TargetAddr::new(offset),
                    (info % 0x1_0000_0000) as u32,
                    (info / 0x1_0000_0000) as u32,
                    addend,
                ),
            )
        },
    }
}

/// The tags of the first `k` entries, and whether the table ended among them.
pub open spec fn tags_upto(
    rules: TagRules,
    entries: Seq<(u64, u64)>,
    k: int,
    max_entries: u64,
) -> LoadResult<(DynamicTags, bool)>
    decreases k,
{
    if k <= 0 {
        Ok((DynamicTags::nothing(), false))
    } else {
        match tags_upto(rules, entries, k - 1, max_entries) {
            Err(error) => Err(error),
            Ok((tags, true)) => Ok((tags, true)),
            Ok((tags, false)) => {
                let (tag, value) = entries[k - 1];
                if k > max_entries {
                    Err(limit_failure(LimitKind::DynamicEntryCount, k as u64, max_entries))
                } else if tag == DT_NULL {
                    Ok((tags, true))
                } else {
                    match tags_after(rules, tags, tag, value) {
                        Ok(after) => Ok((after, false)),
                        Err(error) => Err(error),
                    }
                }
            },
        }
    }
}

/// What a dynamic table of these entries, which takes `byte_len` bytes, says. It
/// has to end with a null entry.
pub open spec fn tags_spec(
    rules: TagRules,
    entries: Seq<(u64, u64)>,
    max_entries: u64,
    byte_len: u64,
) -> LoadResult<DynamicTags> {
    match tags_upto(rules, entries, entries.len() as int, max_entries) {
        Err(error) => Err(error),
        Ok((tags, true)) => Ok(tags),
        Ok((_, false)) => Err(malformed_tag(DT_NULL, byte_len)),
    }
}

proof fn lemma_tags_settled(rules: TagRules, entries: Seq<(u64, u64)>, k: int, max_entries: u64)
    requires
        0 <= k <= entries.len(),
        tags_upto(rules, entries, k, max_entries) is Err || tags_upto(
            rules,
            entries,
            k,
            max_entries,
        ) matches Ok((_, true)),
    ensures
        tags_upto(rules, entries, entries.len() as int, max_entries) == tags_upto(
            rules,
            entries,
            k,
            max_entries,
        ),
    decreases entries.len() - k,
{
    if k < entries.len() {
        lemma_tags_settled(rules, entries, k + 1, max_entries);
    }
}

/// Takes entry number `index` into the tags, and says whether the table ended.
fn step_tags(
    rules: TagRules,
    tags: &mut DynamicTags,
    index: u64,
    entry: (u64, u64),
    max_entries: u64,
    Ghost(entries): Ghost<Seq<(u64, u64)>>,
) -> (r: LoadResult<bool>)
    requires
        index < entries.len(),
        index < max_entries,
        entries[index as int] == entry,
        tags_upto(rules, entries, index as int, max_entries) == Ok::<
            (DynamicTags, bool),
            LoadError,
        >((*old(tags), false)),
    ensures
        match tags_upto(rules, entries, index + 1, max_entries) {
            Ok((after, ended)) => r == Ok::<bool, LoadError>(ended) && *final(tags) == after,
            Err(error) => r == Err::<bool, LoadError>(error),
        },
{
    let (tag, value) = entry;
    if tag == DT_NULL {
        return Ok(true);
    }
    accept_dynamic_tag(rules, tags, tag, value)?;
    Ok(false)
}

fn check_entry_count(actual: u64, max_entries: u64) -> (r: LoadResult<()>)
    ensures
        r == (if actual <= max_entries {
            Ok::<(), LoadError>(())
        } else {
            Err::<(), LoadError>(limit_failure(LimitKind::DynamicEntryCount, actual, max_entries))
        }),
{
    if actual <= max_entries {
        return Ok(());
    }
    Err(
        LoadError::new(
            LoadErrorKind::ResourceLimit,
            ErrorContext::Limit {
                resource: LimitKind::DynamicEntryCount,
                actual,
                maximum: max_entries,
            },
        ),
    )
}

/// Collects the tags of entries that are already decoded.
pub fn collect_tags(
    rules: TagRules,
    entries: &Vec<(u64, u64)>,
    max_entries: u64,
    byte_len: u64,
) -> (r: LoadResult<DynamicTags>)
    ensures
        r == tags_spec(rules, entries@, max_entries, byte_len),
{
    let mut tags = DynamicTags::default();
    let mut index: usize = 0;
    while index < entries.len()
        invariant
            index <= entries@.len(),
            tags_upto(rules, entries@, index as int, max_entries) == Ok::<
                (DynamicTags, bool),
                LoadError,
            >((tags, false)),
        decreases entries@.len() - index,
    {
        match check_entry_count(index as u64 + 1, max_entries) {
            Ok(_) => {},
            Err(error) => {
                proof {
                    assert(tags_upto(rules, entries@, index + 1, max_entries) is Err);
                    lemma_tags_settled(rules, entries@, index + 1, max_entries);
                }
                return Err(error);
            },
        }
        let outcome = step_tags(
            rules,
            &mut tags,
            index as u64,
            entries[index],
            max_entries,
            Ghost(entries@),
        );
        match outcome {
            Ok(false) => {},
            Ok(true) => {
                proof {
                    lemma_tags_settled(rules, entries@, index + 1, max_entries);
                }
                return Ok(tags);
            },
            Err(error) => {
                proof {
                    lemma_tags_settled(rules, entries@, index + 1, max_entries);
                }
                return Err(error);
            },
        }
        index = index + 1;
    }
    Err(dynamic_error(DT_NULL, byte_len))
}

/// The dynamic table entries that memory holds from `offset` on.
pub open spec fn entries_in(
    content: Seq<u8>,
    offset: int,
    count: int,
    class: ElfClass,
    endian: ElfData,
) -> Seq<(u64, u64)> {
    let size = dynamic_entry_len(class) as int;
    Seq::new(
        count as nat,
        |i: int|
            dynamic_entry_of(
                content.subrange(offset + i * size, offset + (i + 1) * size),
                class,
                endian,
            ),
    )
}

/// Reads and collects the tags of a dynamic table, entry by entry.
pub fn read_tags<M: ImageMemory>(
    rules: TagRules,
    memory: &M,
    offset: AllocationOffset,
    byte_len: u64,
    class: ElfClass,
    endian: ElfData,
    max_entries: u64,
) -> (r: LoadResult<DynamicTags>)
    requires
        byte_len % dynamic_entry_len(class) == 0,
    ensures
        r matches Ok(tags) ==> tags_spec(
            rules,
            entries_in(
                memory.content(),
                offset.0 as int,
                (byte_len / dynamic_entry_len(class)) as int,
                class,
                endian,
            ),
            max_entries,
            byte_len,
        ) == Ok::<DynamicTags, LoadError>(tags),
        ready(*memory) && offset.0 + byte_len
            <= memory.content().len() ==> r == tags_spec(
            rules,
            entries_in(
                memory.content(),
                offset.0 as int,
                (byte_len / dynamic_entry_len(class)) as int,
                class,
                endian,
            ),
            max_entries,
            byte_len,
        ),
{
    let entry_size: u64 = dynamic_entry_size(class);
    let entry_count: u64 = byte_len / entry_size;
    let ghost entries = entries_in(
        memory.content(),
        offset.0 as int,
        entry_count as int,
        class,
        endian,
    );
    let mut tags = DynamicTags::default();
    let mut index: u64 = 0;
    while index < entry_count
        invariant
            index <= entry_count,
            entry_count == byte_len / entry_size,
            entry_size == dynamic_entry_len(class),
            entries == entries_in(
                memory.content(),
                offset.0 as int,
                entry_count as int,
                class,
                endian,
            ),
            tags_upto(rules, entries, index as int, max_entries) == Ok::<
                (DynamicTags, bool),
                LoadError,
            >((tags, false)),
        decreases entry_count - index,
    {
        match check_entry_count(index + 1, max_entries) {
            Ok(_) => {},
            Err(error) => {
                proof {
                    assert(tags_upto(rules, entries, index + 1, max_entries) is Err);
                    lemma_tags_settled(rules, entries, index + 1, max_entries);
                }
                return Err(error);
            },
        }
        assert(index * entry_size + entry_size <= byte_len) by (nonlinear_arith)
            requires
                index < byte_len / entry_size,
                entry_size == 8 || entry_size == 16,
        ;
        let current = offset.checked_add(index * entry_size)?;
        let raw = memory.read(current, entry_size as usize)?;
        let entry = decode_dynamic_entry(raw.as_slice(), class, endian)?;
        proof {
            assert((index + 1) * entry_size == index * entry_size + entry_size)
                by (nonlinear_arith);
            assert(entries[index as int] == entry);
        }
        match step_tags(rules, &mut tags, index, entry, max_entries, Ghost(entries)) {
            Ok(false) => {},
            Ok(true) => {
                proof {
                    lemma_tags_settled(rules, entries, index + 1, max_entries);
                }
                return Ok(tags);
            },
            Err(error) => {
                proof {
                    lemma_tags_settled(rules, entries, index + 1, max_entries);
                }
                return Err(error);
            },
        }
        index = index + 1;
    }
    Err(dynamic_error(DT_NULL, byte_len))
}

/// The tag that a relocation table is reported under.
pub open spec fn table_tag_spec(kind: RelocationTableKind) -> u64 {
    match kind {
        RelocationTableKind::Rel => DT_REL,
        RelocationTableKind::Rela => DT_RELA,
    }
}

/// The address, the size and the number of entries of a relocation table.
#[derive(Clone, Copy, Debug, PartialEq, Eq, Structural)]
pub struct TableExtent {
    pub address: u64,
    pub byte_len: u64,
    pub count: u64,
}

/// The extent of a relocation table, if there is one.
pub open spec fn extent_spec(
    tags: RelocationTableTags,
    kind: RelocationTableKind,
    class: ElfClass,
) -> LoadResult<Option<TableExtent>> {
    let tag = table_tag_spec(kind);
    let size = relocation_entry_len(class, kind);
    match (tags.address, tags.byte_len, tags.entry_size) {
        (None, None, None) => Ok(None),
        (Some(address), Some(byte_len), Some(entry_size)) => if entry_size == size && byte_len
            % size == 0 {
            Ok(Some(TableExtent { address, byte_len, count: byte_len / size }))
        } else {
            Err(malformed_tag(tag, entry_size))
        },
        _ => Err(malformed_tag(tag, 0)),
    }
}

pub fn table_tag(kind: RelocationTableKind) -> (r: u64)
    ensures
        r == table_tag_spec(kind),
{
    match kind {
        RelocationTableKind::Rel => DT_REL,
        RelocationTableKind::Rela => DT_RELA,
    }
}

pub fn table_extent(tags: &RelocationTableTags, kind: RelocationTableKind, class: ElfClass) -> (r:
    LoadResult<Option<TableExtent>>)
    ensures
        r == extent_spec(*tags, kind, class),
{
    let absent: bool = tags.address().is_none() && tags.byte_len().is_none()
        && tags.entry_size().is_none();
    if absent {
        return Ok(None);
    }
    let tag: u64 = table_tag(kind);
    match (tags.address(), tags.byte_len(), tags.entry_size()) {
        (Some(address), Some(byte_len), Some(entry_size)) => {
            if entry_size != relocation_entry_size(class, kind) || byte_len % entry_size != 0 {
                return Err(dynamic_error(tag, entry_size));
            }
            Ok(Some(TableExtent { address, byte_len, count: byte_len / entry_size }))
        },
        _ => Err(dynamic_error(tag, 0)),
    }
}

/// The relocations that memory holds from `offset` on.
pub open spec fn relocations_in(
    content: Seq<u8>,
    offset: int,
    count: int,
    class: ElfClass,
    endian: ElfData,
    kind: RelocationTableKind,
) -> Seq<RelocationRecord> {
    let size = relocation_entry_len(class, kind) as int;
    Seq::new(
        count as nat,
        |i: int|
            relocation_of(
                content.subrange(offset + i * size, offset + (i + 1) * size),
                class,
                endian,
                kind,
            ),
    )
}

/// Whether no relocation names a symbol.
pub open spec fn without_symbols(records: Seq<RelocationRecord>) -> bool {
    forall|i: int| 0 <= i < records.len() ==> (#[trigger] records[i]).symbol_index == 0
}

/// The first relocation from `from` on that names a symbol.
pub open spec fn first_symbolic(records: Seq<RelocationRecord>, from: int) -> Option<int>
    decreases records.len() - from,
{
    if from >= records.len() {
        None
    } else if records[from].symbol_index != 0 {
        Some(from)
    } else {
        first_symbolic(records, from + 1)
    }
}

/// No relocation from `from` on names a symbol exactly if there is no first one
/// that does.
pub proof fn lemma_no_symbols(records: Seq<RelocationRecord>, from: int)
    requires
        0 <= from <= records.len(),
    ensures
        first_symbolic(records, from) is None <==> forall|i: int|
            from <= i < records.len() ==> (#[trigger] records[i]).symbol_index == 0,
    decreases records.len() - from,
{
    if from < records.len() {
        lemma_no_symbols(records, from + 1);
    }
}

/// Refuses a relocation that names a symbol.
pub fn check_relative(record: RelocationRecord) -> (r: LoadResult<()>)
    ensures
        r == (if record.symbol_index == 0 {
            Ok::<(), LoadError>(())
        } else {
            Err::<(), LoadError>(refused_record(record))
        }),
{
    if record.symbol_index() != 0 {
        return Err(unsupported_relocation(record));
    }
    Ok(())
}

/// Reads a relocation table behind the records that are already there.
pub fn read_relocations<M: ImageMemory>(
    memory: &M,
    offset: AllocationOffset,
    extent: &TableExtent,
    class: ElfClass,
    endian: ElfData,
    kind: RelocationTableKind,
    records: &mut Vec<RelocationRecord>,
) -> (r: LoadResult<()>)
    requires
        extent.count == extent.byte_len / relocation_entry_len(class, kind),
    ensures
        r is Ok ==> {
            let found = relocations_in(
                memory.content(),
                offset.0 as int,
                extent.count as int,
                class,
                endian,
                kind,
            );
            &&& final(records)@ == old(records)@ + found
            &&& without_symbols(found)
        },
        ready(*memory) && offset.0 + extent.byte_len
            <= memory.content().len() ==> {
            let found = relocations_in(
                memory.content(),
                offset.0 as int,
                extent.count as int,
                class,
                endian,
                kind,
            );
            r == (match first_symbolic(found, 0) {
                Some(i) => Err::<(), LoadError>(refused_record(found[i])),
                None => Ok(()),
            })
        },
{
    let entry_size: u64 = relocation_entry_size(class, kind);
    let ghost found = relocations_in(
        memory.content(),
        offset.0 as int,
        extent.count as int,
        class,
        endian,
        kind,
    );
    let mut index: u64 = 0;
    proof {
        assert(records@ =~= old(records)@ + found.subrange(0, 0));
    }
    while index < extent.count
        invariant
            index <= extent.count,
            extent.count == extent.byte_len / entry_size,
            entry_size == relocation_entry_len(class, kind),
            found == relocations_in(
                memory.content(),
                offset.0 as int,
                extent.count as int,
                class,
                endian,
                kind,
            ),
            records@ == old(records)@ + found.subrange(0, index as int),
            without_symbols(found.subrange(0, index as int)),
            first_symbolic(found, 0) == first_symbolic(found, index as int),
        decreases extent.count - index,
    {
        assert(index * entry_size + entry_size <= extent.byte_len) by (nonlinear_arith)
            requires
                index < extent.byte_len / entry_size,
                8 <= entry_size <= 24,
        ;
        let entry_offset = offset.checked_add(index * entry_size)?;
        let raw = memory.read(entry_offset, entry_size as usize)?;
        let record = decode_relocation_entry(raw.as_slice(), class, endian, kind)?;
        proof {
            assert((index + 1) * entry_size == index * entry_size + entry_size)
                by (nonlinear_arith);
            assert(found[index as int] == record);
        }
        check_relative(record)?;
        proof {
            let next = found.subrange(0, index + 1);
            assert(next =~= found.subrange(0, index as int).push(record));
            assert forall|i: int| 0 <= i < next.len() implies (
            #[trigger] next[i]).symbol_index == 0 by {
                if i < index {
                    assert(next[i] == found.subrange(0, index as int)[i]);
                }
            }
            assert(old(records)@ + next =~= records@.push(record));
        }
        records.push(record);
        index = index + 1;
    }
    assert(found.subrange(0, index as int) =~= found);
    Ok(())
}

/// A relocation is what its words in memory say: the address of its place, then a word
/// with its type in the lowest byte (or, in a 64-bit table, the lower half) and its
/// symbol above, and then, in a table with addends, its signed addend.
pub proof fn relocations_are_read_from_their_words(
    content: Seq<u8>,
    offset: int,
    count: int,
    class: ElfClass,
    endian: ElfData,
    kind: RelocationTableKind,
    i: int,
)
    requires
        0 <= offset,
        0 <= i < count,
        ({
            let width = if class is Elf32 {
                4int
            } else {
                8int
            };
            let size = if kind is Rel {
                2 * width
            } else {
                3 * width
            };
            offset + (i + 1) * size <= content.len()
        }),
    ensures
        ({
            let width = if class is Elf32 {
                4int
            } else {
                8int
            };
            let size = if kind is Rel {
                2 * width
            } else {
                3 * width
            };
            let at = offset + i * size;
            let record = relocations_in(content, offset, count, class, endian, kind)[i];
            let info = word_at(content, at + width, width, endian);
            &&& record.offset.0 == word_at(content, at, width, endian)
            &&& class is Elf32 ==> info == record.symbol_index * 0x100 + record.raw_type
                && record.raw_type < 0x100
            &&& class is Elf64 ==> info == record.symbol_index * 0x1_0000_0000 + record.raw_type
            &&& match record.addend {
                RelocationAddend::Implicit => kind is Rel,
                RelocationAddend::Explicit(value) => {
                    let word = word_at(content, at + 2 * width, width, endian);
                    let half: int = if class is Elf32 {
                        0x8000_0000
                    } else {
                        0x8000_0000_0000_0000
                    };
                    &&& kind is Rela
                    &&& -half <= value < half
                    &&& value == word || value + 2 * half == word
                },
            }
        }),
{
    let width = if class is Elf32 {
        4int
    } else {
        8int
    };
    let size = if kind is Rel {
        2 * width
    } else {
        3 * width
    };
    assert(size == relocation_entry_len(class, kind));
    let at = offset + i * size;
    assert(offset + (i + 1) * size == at + size) by (nonlinear_arith)
        requires
            at == offset + i * size,
    ;
    assert(0 <= i * size) by (nonlinear_arith)
        requires
            0 <= i,
            0 <= size,
    ;
    let own = content.subrange(at, at + size);
    assert(own.subrange(0, width) =~= content.subrange(at, at + width));
    assert(own.subrange(width, 2 * width) =~= content.subrange(at + width, at + 2 * width));
    lemma_word_bounds(content, at, endian);
    lemma_word_bounds(content, at + width, endian);
    if kind is Rela {
        assert(own.subrange(2 * width, 3 * width) =~= content.subrange(
            at + 2 * width,
            at + 3 * width,
        ));
        lemma_word_bounds(content, at + 2 * width, endian);
    }
}

/// An entry of a dynamic table is what its two words in memory say: its tag and its
/// value.
pub proof fn dynamic_entries_are_read_from_their_words(
    content: Seq<u8>,
    offset: int,
    count: int,
    class: ElfClass,
    endian: ElfData,
    i: int,
)
    requires
        0 <= offset,
        0 <= i < count,
        ({
            let width = if class is Elf32 {
                4int
            } else {
                8int
            };
            offset + (i + 1) * (2 * width) <= content.len()
        }),
    ensures
        ({
            let width = if class is Elf32 {
                4int
            } else {
                8int
            };
            let at = offset + i * (2 * width);
            let entry = entries_in(content, offset, count, class, endian)[i];
            &&& entry.0 == word_at(content, at, width, endian)
            &&& entry.1 == word_at(content, at + width, width, endian)
        }),
{
    let width = if class is Elf32 {
        4int
    } else {
        8int
    };
    let size = 2 * width;
    let at = offset + i * size;
    assert(offset + (i + 1) * size == at + size) by (nonlinear_arith)
        requires
            at == offset + i * size,
    ;
    assert(0 <= i * size) by (nonlinear_arith)
        requires
            0 <= i,
            0 <= size,
    ;
    let own = content.subrange(at, at + size);
    assert(own.subrange(0, width) =~= content.subrange(at, at + width));
    assert(own.subrange(width, 2 * width) =~= content.subrange(at + width, at + 2 * width));
    lemma_word_bounds(content, at, endian);
    lemma_word_bounds(content, at + width, endian);
}

/// Whether a slot has the value of the only one of the first `k` entries with a tag, or
/// nothing where there is none.
pub open spec fn slot_of(slot: Option<u64>, entries: Seq<(u64, u64)>, k: int, tag: u64) -> bool {
    match slot {
        Some(value) => {
            &&& exists|i: int| 0 <= i < k && #[trigger] entries[i] == (tag, value)
            &&& forall|i: int| 0 <= i < k
                && (#[trigger] entries[i]).0 == tag ==> entries[i].1 == value
            &&& forall|i: int, j: int|
                0 <= i < j < k ==> !((#[trigger] entries[i]).0 == tag && (#[trigger] entries[j]).0
                    == tag)
        },
        None => forall|i: int| 0 <= i < k ==> (#[trigger] entries[i]).0 != tag,
    }
}

proof fn lemma_slot(
    before: Option<u64>,
    after: Option<u64>,
    entries: Seq<(u64, u64)>,
    k: int,
    tag: u64,
)
    requires
        0 <= k < entries.len(),
        slot_of(before, entries, k, tag),
        entries[k].0 == tag ==> before is None && after == Some(entries[k].1),
        entries[k].0 != tag ==> after == before,
    ensures
        slot_of(after, entries, k + 1, tag),
{
    if entries[k].0 == tag {
        assert(entries[k] == (tag, entries[k].1));
    } else if before is Some {
        let i = choose|i: int| 0 <= i < k && #[trigger] entries[i] == (tag, before->0);
        assert(entries[i] == (tag, before->0));
    }
}

proof fn lemma_tags_slots(
    rules: TagRules,
    entries: Seq<(u64, u64)>,
    k: int,
    max_entries: u64,
) -> (end: int)
    requires
        0 <= k <= entries.len(),
        tags_upto(rules, entries, k, max_entries) is Ok,
    ensures
        ({
            let (tags, ended) = tags_upto(rules, entries, k, max_entries)->Ok_0;
            &&& 0 <= end <= k
            &&& if ended {
                end < k && entries[end].0 == 0 && end < max_entries
            } else {
                end == k
            }
            &&& forall|i: int| 0 <= i < end ==> (#[trigger] entries[i]).0 != 0
            &&& slot_of(tags.rel.address, entries, end, 17)
            &&& slot_of(tags.rel.byte_len, entries, end, 18)
            &&& slot_of(tags.rel.entry_size, entries, end, 19)
            &&& slot_of(tags.rela.address, entries, end, 7)
            &&& slot_of(tags.rela.byte_len, entries, end, 8)
            &&& slot_of(tags.rela.entry_size, entries, end, 9)
        }),
    decreases k,
{
    if k <= 0 {
        0
    } else {
        let end = lemma_tags_slots(rules, entries, k - 1, max_entries);
        let (before, ended) = tags_upto(rules, entries, k - 1, max_entries)->Ok_0;
        let (after, now) = tags_upto(rules, entries, k, max_entries)->Ok_0;
        if ended || now {
            end
        } else {
            lemma_slot(before.rel.address, after.rel.address, entries, k - 1, 17);
            lemma_slot(before.rel.byte_len, after.rel.byte_len, entries, k - 1, 18);
            lemma_slot(before.rel.entry_size, after.rel.entry_size, entries, k - 1, 19);
            lemma_slot(before.rela.address, after.rela.address, entries, k - 1, 7);
            lemma_slot(before.rela.byte_len, after.rela.byte_len, entries, k - 1, 8);
            lemma_slot(before.rela.entry_size, after.rela.entry_size, entries, k - 1, 9);
            k
        }
    }
}

/// The tags of a dynamic table are those of its entries before the first null entry, and
/// each has one value: 17, 18 and 19 are the address, the size and the entry size of the
/// relocations without addends, and 7, 8 and 9 those of the relocations with addends.
pub proof fn tags_are_those_of_the_entries(
    rules: TagRules,
    entries: Seq<(u64, u64)>,
    max_entries: u64,
    byte_len: u64,
) -> (end: int)
    requires
        tags_spec(rules, entries, max_entries, byte_len) is Ok,
    ensures
        ({
            let tags = tags_spec(rules, entries, max_entries, byte_len)->Ok_0;
            &&& 0 <= end < entries.len()
            &&& end < max_entries
            &&& entries[end].0 == 0
            &&& forall|i: int| 0 <= i < end ==> (#[trigger] entries[i]).0 != 0
            &&& slot_of(tags.rel.address, entries, end, 17)
            &&& slot_of(tags.rel.byte_len, entries, end, 18)
            &&& slot_of(tags.rel.entry_size, entries, end, 19)
            &&& slot_of(tags.rela.address, entries, end, 7)
            &&& slot_of(tags.rela.byte_len, entries, end, 8)
            &&& slot_of(tags.rela.entry_size, entries, end, 9)
        }),
{
    lemma_tags_slots(rules, entries, entries.len() as int, max_entries)
}

/// A relocation table has all of its three tags or none of them. Its entries have the
/// size that the class and the kind of the table ask for, and fill it.
pub proof fn relocation_tables_are_whole(
    tags: RelocationTableTags,
    kind: RelocationTableKind,
    class: ElfClass,
)
    ensures
        match extent_spec(tags, kind, class) {
            Ok(Some(extent)) => {
                let width = if class is Elf32 {
                    4int
                } else {
                    8int
                };
                let size = if kind is Rel {
                    2 * width
                } else {
                    3 * width
                };
                &&& tags.address == Some(extent.address)
                &&& tags.byte_len == Some(extent.byte_len)
                &&& tags.entry_size is Some && tags.entry_size->0 == size
                &&& extent.count * size == extent.byte_len
            },
            Ok(None) => tags.address is None && tags.byte_len is None && tags.entry_size is None,
            Err(_) => true,
        },
{
    let size = relocation_entry_len(class, kind) as int;
    if let Some(len) = tags.byte_len {
        if len as int % size == 0 {
            assert((len as int / size) * size == len) by (nonlinear_arith)
                requires
                    size > 0,
                    len as int % size == 0,
            ;
        }
    }
}

/// A table of relocations has an extent exactly if all three of its tags are there, its entries
/// have the size that they have in a file of its class, and its size is a multiple of that.
/// It is absent if none of the tags is there.
pub proof fn relocation_tables_are_accepted_by_their_tags(
    tags: RelocationTableTags,
    kind: RelocationTableKind,
    class: ElfClass,
)
    ensures
        ({
            let width = if class is Elf32 {
                4int
            } else {
                8int
            };
            let size = if kind is Rel {
                2 * width
            } else {
                3 * width
            };
            match extent_spec(tags, kind, class) {
                Ok(None) => tags.address is None && tags.byte_len is None && tags.entry_size
                    is None,
                Ok(Some(extent)) => {
                    &&& tags.address == Some(extent.address)
                    &&& tags.byte_len == Some(extent.byte_len)
                    &&& tags.entry_size is Some && tags.entry_size->0 == size
                    &&& extent.count * size == extent.byte_len
                },
                Err(_) => {
                    &&& tags.address is Some || tags.byte_len is Some || tags.entry_size is Some
                    &&& tags.address is None || tags.byte_len is None || tags.entry_size is None
                        || tags.entry_size->0 != size || tags.byte_len->0 as int % size != 0
                },
            }
        }),
{
}

/// Under the closed rules an entry is taken unless it speaks of text relocations, or it is the
/// second one of its tag that speaks of a relocation table.
pub proof fn closed_rules_refuse_text_relocations(tags: DynamicTags, tag: u64, value: u64)
    ensures
        tags_after(TagRules::Closed, tags, tag, value) is Ok <==> if tag == 17 {
            tags.rel.address is None
        } else if tag == 18 {
            tags.rel.byte_len is None
        } else if tag == 19 {
            tags.rel.entry_size is None
        } else if tag == 7 {
            tags.rela.address is None
        } else if tag == 8 {
            tags.rela.byte_len is None
        } else if tag == 9 {
            tags.rela.entry_size is None
        } else {
            tag != 22 && !(tag == 30 && value / 4 % 2 == 1)
        },
{
    assert(value & 4 != 0 <==> value / 4 % 2 == 1) by (bit_vector);
}

} // verus!
