//! Target words, architecture relocators and the relocation of images.

pub mod aarch64;
pub mod apply;
pub mod arm;
pub mod riscv;

use crate::bytes::{read_u32, read_u64, word_at, word_bytes, word_round_trip, write_word};
use crate::error::{unclaimed, ErrorContext, LoadError, LoadErrorKind, LoadResult};
use crate::identity::{ElfClass, ElfData, ElfMachine};
use crate::image::records::RelocationRecord;
use crate::memory::{overwritten, ready, unplaced_access, AllocationOffset, ImageMemory};
use crate::address::TargetAddr;
use vstd::prelude::*;

verus! {

#[derive(Clone, Copy, Debug, PartialEq, Eq, Structural)]
pub enum WordWidth {
    U32,
    U64,
}

impl WordWidth {
    pub open spec fn class_spec(class: ElfClass) -> Self {
        match class {
            ElfClass::Elf32 => WordWidth::U32,
            ElfClass::Elf64 => WordWidth::U64,
        }
    }

    pub open spec fn bytes_spec(self) -> u64 {
        match self {
            WordWidth::U32 => 4,
            WordWidth::U64 => 8,
        }
    }

    pub open spec fn maximum_spec(self) -> u64 {
        match self {
            WordWidth::U32 => 0xffff_ffff,
            WordWidth::U64 => u64::MAX,
        }
    }

    #[inline]
    pub fn for_elf_class(class: ElfClass) -> (r: Self)
        ensures
            r == Self::class_spec(class),
    {
        match class {
            ElfClass::Elf32 => WordWidth::U32,
            ElfClass::Elf64 => WordWidth::U64,
        }
    }

    #[inline]
    pub fn bytes(self) -> (r: u64)
        ensures
            r == self.bytes_spec(),
    {
        match self {
            WordWidth::U32 => 4,
            WordWidth::U64 => 8,
        }
    }

    #[inline]
    pub fn maximum(self) -> (r: u64)
        ensures
            r == self.maximum_spec(),
    {
        match self {
            WordWidth::U32 => u32::MAX as u64,
            WordWidth::U64 => u64::MAX,
        }
    }
}

/// Where the addend of a relocation is kept.
#[derive(Clone, Copy, Debug, PartialEq, Eq, Structural)]
pub enum AddendEncoding {
    Implicit,
    Explicit,
}

/// What a relocation type asks for.
#[derive(Clone, Copy, Debug, PartialEq, Eq, Structural)]
pub enum RelocationKind {
    Relative,
    Absolute,
    GlobalData,
    JumpSlot,
}

/// A word of the target machine.
#[derive(Clone, Copy, Debug, PartialEq, Eq, Structural)]
pub struct TargetWord {
    pub width: WordWidth,
    pub endian: ElfData,
}

impl TargetWord {
    /// The word that memory holds at `offset`.
    pub open spec fn held(self, content: Seq<u8>, offset: AllocationOffset) -> nat {
        word_at(content, offset.0 as int, self.width.bytes_spec() as int, self.endian)
    }

    /// Memory with `value` at `offset`.
    pub open spec fn stored(self, content: Seq<u8>, offset: AllocationOffset, value: u64) -> Seq<u8> {
        overwritten(
            content,
            offset.0 as int,
            word_bytes(value as nat, self.width.bytes_spec() as nat, self.endian),
        )
    }

    #[inline]
    pub fn new(width: WordWidth, endian: ElfData) -> (r: Self)
        ensures
            r == (TargetWord { width, endian }),
    {
        TargetWord { width, endian }
    }

    #[inline]
    pub fn width(self) -> (r: WordWidth)
        ensures
            r == self.width,
    {
        self.width
    }

    #[inline]
    pub fn endian(self) -> (r: ElfData)
        ensures
            r == self.endian,
    {
        self.endian
    }

    pub fn read<M: ImageMemory>(self, memory: &M, offset: AllocationOffset) -> (r: LoadResult<u64>)
        ensures
            r matches Ok(value) ==> value == self.held(memory.content(), offset) && offset.0
                + self.width.bytes_spec() <= memory.content().len(),
            ready(*memory) && offset.0 + self.width.bytes_spec()
                <= memory.content().len() ==> r is Ok,
    {
        let len: usize = self.width.bytes() as usize;
        let bytes = memory.read(offset, len)?;
        proof {
            assert(bytes@.subrange(0, len as int) =~= bytes@);
        }
        match self.width {
            WordWidth::U32 => Ok(read_u32(bytes.as_slice(), 0, self.endian)? as u64),
            WordWidth::U64 => read_u64(bytes.as_slice(), 0, self.endian),
        }
    }

    pub fn write<M: ImageMemory>(self, memory: &mut M, offset: AllocationOffset, value: u64) -> (r:
        LoadResult<()>)
        ensures
            final(memory).current() == old(memory).current(),
            final(memory).content().len() == old(memory).content().len(),
            old(memory).reliable() ==> final(memory).reliable(),
            final(memory).source() == old(memory).source(),
            ready(*old(memory)) && value
                <= self.width.maximum_spec() && offset.0 + self.width.bytes_spec()
                <= old(memory).content().len() ==> r is Ok,
            value > self.width.maximum_spec() ==> r == Err::<(), LoadError>(
                unclaimed(
                    LoadErrorKind::IntegerOverflow,
                    unplaced_access(offset.0, self.width.bytes_spec()),
                ),
            ) && final(memory).content() == old(memory).content(),
            r is Ok ==> offset.0 + self.width.bytes_spec() <= old(memory).content().len(),
            r is Ok ==> final(memory).content() == self.stored(
                old(memory).content(),
                offset,
                value,
            ),
    {
        if value > self.width.maximum() {
            return Err(
                LoadError::new(
                    LoadErrorKind::IntegerOverflow,
                    ErrorContext::MemoryAccess {
                        allocation_base: TargetAddr::new(0),
                        allocation_len: 0,
                        allocation_align: 0,
                        offset: offset.value(),
                        len: self.width.bytes(),
                    },
                ),
            );
        }
        let bytes = write_word(value, self.width.bytes() as usize, self.endian);
        proof {
            self.lemma_fits(value);
            word_round_trip(value as nat, self.width.bytes_spec() as nat, self.endian);
        }
        memory.write(offset, bytes.as_slice())
    }

    /// A word of at most the maximum fits its bytes.
    pub(crate) proof fn lemma_fits(self, value: u64)
        requires
            value <= self.width.maximum_spec(),
        ensures
            value < vstd::arithmetic::power::pow(256, self.width.bytes_spec() as nat),
    {
        vstd::arithmetic::power::lemma_pow1(256);
        vstd::arithmetic::power::lemma_pow_adds(256, 1, 1);
        vstd::arithmetic::power::lemma_pow_adds(256, 2, 2);
        vstd::arithmetic::power::lemma_pow_adds(256, 4, 4);
        let one = vstd::arithmetic::power::pow(256, 1);
        let two = vstd::arithmetic::power::pow(256, 2);
        let four = vstd::arithmetic::power::pow(256, 4);
        assert(one * one == 0x1_0000) by (nonlinear_arith)
            requires
                one == 256,
        ;
        assert(two * two == 0x1_0000_0000) by (nonlinear_arith)
            requires
                two == 0x1_0000,
        ;
        assert(four * four == 0x1_0000_0000_0000_0000) by (nonlinear_arith)
            requires
                four == 0x1_0000_0000,
        ;
    }
}

/// A word reads as the value that was written last.
pub proof fn words_read_back(
    word: TargetWord,
    content: Seq<u8>,
    offset: AllocationOffset,
    value: u64,
)
    requires
        value <= word.width.maximum_spec(),
        offset.0 + word.width.bytes_spec() <= content.len(),
    ensures
        word.held(word.stored(content, offset, value), offset) == value,
        word.stored(content, offset, value).len() == content.len(),
{
    word.lemma_fits(value);
    let width = word.width.bytes_spec();
    word_round_trip(value as nat, width as nat, word.endian);
    crate::memory::write_read_back(
        content,
        offset.0 as int,
        word_bytes(value as nat, width as nat, word.endian),
    );
}

/// Writing a word leaves the words that do not overlap it as they were.
pub proof fn words_are_independent(
    word: TargetWord,
    content: Seq<u8>,
    offset: AllocationOffset,
    value: u64,
    other: AllocationOffset,
)
    requires
        value <= word.width.maximum_spec(),
        offset.0 + word.width.bytes_spec() <= content.len(),
        other.0 + word.width.bytes_spec() <= content.len(),
        offset.0 + word.width.bytes_spec() <= other.0 || other.0 + word.width.bytes_spec()
            <= offset.0,
    ensures
        word.held(word.stored(content, offset, value), other) == word.held(content, other),
{
    word.lemma_fits(value);
    let width = word.width.bytes_spec();
    word_round_trip(value as nat, width as nat, word.endian);
    crate::memory::write_stays_in_range(
        content,
        offset.0 as int,
        word_bytes(value as nat, width as nat, word.endian),
        other.0 as int,
        width as int,
    );
}

/// One relocated word.
#[derive(Clone, Copy, Debug, PartialEq, Eq, Structural)]
pub struct RelocationOperation {
    pub offset: AllocationOffset,
    pub value: u64,
    pub record: RelocationRecord,
}

impl RelocationOperation {
    #[inline]
    pub fn new(offset: AllocationOffset, value: u64, record: RelocationRecord) -> (r: Self)
        ensures
            r == (RelocationOperation { offset, value, record }),
    {
        RelocationOperation { offset, value, record }
    }

    #[inline]
    pub fn offset(&self) -> (r: AllocationOffset)
        ensures
            r == self.offset,
    {
        self.offset
    }

    #[inline]
    pub fn value(&self) -> (r: u64)
        ensures
            r == self.value,
    {
        self.value
    }

    #[inline]
    pub fn record(&self) -> (r: RelocationRecord)
        ensures
            r == self.record,
    {
        self.record
    }
}

/// What the relocations of one architecture mean.
pub trait ArchRelocator {
    spec fn target_machine(&self) -> ElfMachine;

    spec fn target_class(&self) -> ElfClass;

    spec fn relative_code(&self) -> u32;

    spec fn encoding(&self) -> AddendEncoding;

    spec fn kind_of(&self, raw_type: u32) -> Option<RelocationKind>;

    fn machine(&self) -> (r: ElfMachine)
        ensures
            r == self.target_machine(),
    ;

    fn class(&self) -> (r: ElfClass)
        ensures
            r == self.target_class(),
    ;

    fn relative_type(&self) -> (r: u32)
        ensures
            r == self.relative_code(),
    ;

    fn addend_encoding(&self) -> (r: AddendEncoding)
        ensures
            r == self.encoding(),
    ;

    fn classify_relocation(&self, raw_type: u32) -> (r: Option<RelocationKind>)
        ensures
            r == self.kind_of(raw_type),
    ;
}

} // verus!
