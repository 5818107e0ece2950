//! What an ELF parser can count where machine addresses have 32 bits.
//!
//! The parser that reads whole files follows the dynamic segment to the GNU hash
//! table and to the relocations, and adds up what it finds there as machine
//! addresses. It also lists the sections, the dynamic entries and the strings of a
//! file. Where addresses have 32 bits, the numbers of a malformed file may not fit,
//! and a list may need more bytes than half of the addresses. Such a file is told
//! apart here, before the parser sees it. Every number that does not fit lies far
//! outside the file, and every list that does not fit comes from a table of more than
//! a hundred million bytes.

use crate::bytes::{copy_range, read_u16, read_u32, read_u64, word_at};
use crate::elf::{
    program_header_size, ProgramHeaderFields, DT_GNU_HASH, DT_JMPREL, DT_PLTREL, DT_PLTRELSZ,
    DT_REL, DT_RELA, DT_RELASZ, DT_RELSZ, DT_STRSZ, DT_STRTAB, ELFCLASS32, ELFCLASS64, ELFDATA2LSB, ELFDATA2MSB,
    PT_DYNAMIC, PT_LOAD,
};
use crate::identity::{ElfClass, ElfData};
use crate::image::parser::headers_in;
use vstd::prelude::*;

verus! {

/// The number of addresses of 32 bits.
pub const ADDRESSES: u64 = 0x1_0000_0000;

/// The longest run of bytes in an address space of 32 bits.
pub const LONGEST_FILE: u64 = 0x7fff_ffff;

/// The most strings of a table that a list can hold in an address space of 32 bits.
/// A listed string takes 12 bytes, and a list that grows doubles.
pub const MOST_STRINGS: u64 = 0x800_0000;

/// The most sections, of 64 bytes in memory, that such a list can hold.
pub const MOST_SECTIONS: u64 = 0x1ff_ffff;

/// The most dynamic entries, of 16 bytes in memory, that such a list can hold.
pub const MOST_ENTRIES: u64 = 0x7ff_ffff;

pub const SHT_SYMTAB: u64 = 2;

/// The section number that stands for the link of the first section.
pub const SHN_XINDEX: u64 = 0xffff;

pub const EM_MIPS: u16 = 8;

/// A number as an address of 32 bits holds it.
pub open spec fn narrow(value: int) -> int {
    value % (ADDRESSES as int)
}

/// The size of an entry of the dynamic segment.
pub open spec fn dynamic_size(class: ElfClass) -> int {
    match class {
        ElfClass::Elf32 => 8,
        ElfClass::Elf64 => 16,
    }
}

/// The tags and values of the `count` entries of a dynamic segment at `start`.
pub open spec fn dynamic_entries(
    bytes: Seq<u8>,
    start: int,
    count: int,
    class: ElfClass,
    endian: ElfData,
) -> Seq<(u64, u64)> {
    let size = dynamic_size(class);
    Seq::new(
        count as nat,
        |i: int|
            (
                word_at(bytes, start + i * size, size / 2, endian) as u64,
                word_at(bytes, start + i * size + size / 2, size / 2, endian) as u64,
            ),
    )
}

/// Where the entries end: at the first one from `from` on without a tag.
pub open spec fn entries_end(entries: Seq<(u64, u64)>, from: int) -> int
    decreases entries.len() - from,
{
    if from >= entries.len() {
        entries.len() as int
    } else if entries[from].0 == 0 {
        from
    } else {
        entries_end(entries, from + 1)
    }
}

/// The value of the last of the first `k` entries with a tag.
pub open spec fn last_value(entries: Seq<(u64, u64)>, k: int, tag: u64) -> Option<u64>
    decreases k,
{
    if k <= 0 {
        None
    } else if entries[k - 1].0 == tag {
        Some(entries[k - 1].1)
    } else {
        last_value(entries, k - 1, tag)
    }
}

/// The file offset of an address: that of the first loadable segment from `from` on
/// that holds it.
pub open spec fn offset_of(headers: Seq<ProgramHeaderFields>, from: int, address: u64) -> Option<u64>
    decreases headers.len() - from,
{
    if from >= headers.len() {
        None
    } else if headers[from].program_type == PT_LOAD && address >= headers[from].vaddr && address
        - headers[from].vaddr < headers[from].memory_size {
        let offset = headers[from].file_offset + (address - headers[from].vaddr);
        if offset <= u64::MAX {
            Some(offset as u64)
        } else {
            None
        }
    } else {
        offset_of(headers, from + 1, address)
    }
}

/// The first dynamic segment from `from` on.
pub open spec fn dynamic_from(headers: Seq<ProgramHeaderFields>, from: int) -> Option<int>
    decreases headers.len() - from,
{
    if from >= headers.len() {
        None
    } else if headers[from].program_type == PT_DYNAMIC {
        Some(from)
    } else {
        dynamic_from(headers, from + 1)
    }
}

/// The offset that a tag with an address gives, or the start of the file.
pub open spec fn table_offset(headers: Seq<ProgramHeaderFields>, value: Option<u64>) -> int {
    match value {
        Some(address) => match offset_of(headers, 0, address) {
            Some(offset) => narrow(offset as int),
            None => 0,
        },
        None => 0,
    }
}

/// The size that a tag gives, or none.
pub open spec fn table_size(value: Option<u64>) -> int {
    match value {
        Some(size) => narrow(size as int),
        None => 0,
    }
}

/// The largest of `count` words from `start` on.
pub open spec fn largest_word(bytes: Seq<u8>, start: int, count: int, endian: ElfData) -> int
    decreases count,
{
    if count <= 0 {
        0
    } else {
        let before = largest_word(bytes, start, count - 1, endian);
        let own = word_at(bytes, start + (count - 1) * 4, 4, endian) as int;
        if own > before {
            own
        } else {
            before
        }
    }
}

/// Whether the places in a GNU hash table are addresses of 32 bits, and the symbols
/// that its chains lead to have such numbers.
pub open spec fn hash_fits(bytes: Seq<u8>, at: int, class: ElfClass, endian: ElfData) -> bool {
    if at + 12 > bytes.len() {
        true
    } else {
        let buckets = word_at(bytes, at, 4, endian) as int;
        let first = word_at(bytes, at + 4, 4, endian) as int;
        let bloom = word_at(bytes, at + 8, 4, endian) as int;
        let chains = at + 16 + bloom * (dynamic_size(class) / 2);
        if buckets == 0 || first == 0 || bloom == 0 {
            true
        } else if chains >= ADDRESSES {
            false
        } else if chains + buckets * 4 > bytes.len() {
            true
        } else {
            let last = largest_word(bytes, chains, buckets, endian);
            last < first || (chains + buckets * 4 + (last - first) * 4 < ADDRESSES && last
                + bytes.len() < ADDRESSES)
        }
    }
}

/// The size of a relocation of a 64-bit file.
pub open spec fn relocation_size(rela: bool) -> int {
    if rela {
        24
    } else {
        16
    }
}

/// The symbol number of a relocation of a 64-bit file. In a little-endian file for
/// MIPS it stands in the lower half of its word.
pub open spec fn relocation_symbol(bytes: Seq<u8>, at: int, endian: ElfData, mips: bool) -> int {
    if endian == ElfData::Little && !mips {
        word_at(bytes, at + 12, 4, endian) as int
    } else {
        word_at(bytes, at + 8, 4, endian) as int
    }
}

/// Whether there is a number after every symbol number of a relocation table.
pub open spec fn symbols_fit(
    bytes: Seq<u8>,
    start: int,
    size: int,
    rela: bool,
    endian: ElfData,
    mips: bool,
) -> bool {
    start + size <= bytes.len() ==> forall|i: int|
        0 <= i < size / relocation_size(rela) ==> #[trigger] relocation_symbol(
            bytes,
            start + i * relocation_size(rela),
            endian,
            mips,
        ) + 1 < ADDRESSES
}

/// How many strings of a table end among its first `k` bytes. A string ends at a zero
/// byte or at the end of the table.
pub open spec fn strings_in(bytes: Seq<u8>, start: int, size: int, k: int) -> int
    decreases k,
{
    if k <= 0 {
        0
    } else if bytes[start + k - 1] == 0 || k == size {
        strings_in(bytes, start, size, k - 1) + 1
    } else {
        strings_in(bytes, start, size, k - 1)
    }
}

/// Whether a list can hold the strings of a table.
pub open spec fn strings_fit(bytes: Seq<u8>, start: int, size: int) -> bool {
    start + size <= bytes.len() ==> strings_in(bytes, start, size, size) <= MOST_STRINGS
}

/// The size of a section header.
pub open spec fn section_size(class: ElfClass) -> int {
    match class {
        ElfClass::Elf32 => 40,
        ElfClass::Elf64 => 64,
    }
}

/// What the header of a section says of it.
#[derive(Clone, Copy)]
pub struct Section {
    pub kind: u64,
    pub offset: u64,
    pub size: u64,
    pub link: u64,
}

/// The section whose header stands at a place, its offset and size as addresses of 32
/// bits hold them.
pub open spec fn section_at(bytes: Seq<u8>, at: int, class: ElfClass, endian: ElfData) -> Section {
    match class {
        ElfClass::Elf32 => Section {
            kind: word_at(bytes, at + 4, 4, endian) as u64,
            offset: word_at(bytes, at + 16, 4, endian) as u64,
            size: word_at(bytes, at + 20, 4, endian) as u64,
            link: word_at(bytes, at + 24, 4, endian) as u64,
        },
        ElfClass::Elf64 => Section {
            kind: word_at(bytes, at + 4, 4, endian) as u64,
            offset: narrow(word_at(bytes, at + 24, 8, endian) as int) as u64,
            size: narrow(word_at(bytes, at + 32, 8, endian) as int) as u64,
            link: word_at(bytes, at + 40, 4, endian) as u64,
        },
    }
}

/// The `count` sections whose headers stand from `start` on.
pub open spec fn sections_in(
    bytes: Seq<u8>,
    start: int,
    count: int,
    class: ElfClass,
    endian: ElfData,
) -> Seq<Section> {
    Seq::new(
        count as nat,
        |i: int| section_at(bytes, start + i * section_size(class), class, endian),
    )
}

/// The last symbol table among the first `k` sections.
pub open spec fn last_symbols(sections: Seq<Section>, k: int) -> Option<int>
    decreases k,
{
    if k <= 0 {
        None
    } else if sections[k - 1].kind == SHT_SYMTAB {
        Some(k - 1)
    } else {
        last_symbols(sections, k - 1)
    }
}

/// Whether a list can hold the strings of the section with a number.
pub open spec fn section_strings_fit(bytes: Seq<u8>, sections: Seq<Section>, index: int) -> bool {
    let own = if index == SHN_XINDEX && sections.len() > 0 {
        sections[0].link as int
    } else {
        index
    };
    own < sections.len() ==> strings_fit(
        bytes,
        sections[own].offset as int,
        sections[own].size as int,
    )
}

/// Whether lists can hold the sections whose headers stand from `start` on, the
/// strings that name them and the strings that name the symbols of the last symbol
/// table. There are `given` sections, or as many as the first one's size says; none
/// where `start` is zero or outside of the file.
pub open spec fn sections_fit(
    bytes: Seq<u8>,
    start: int,
    given: int,
    names: int,
    class: ElfClass,
    endian: ElfData,
) -> bool {
    let size = section_size(class);
    if start == 0 || start + size > bytes.len() {
        true
    } else {
        let count = if given == 0 {
            section_at(bytes, start, class, endian).size as int
        } else {
            given
        };
        let listed = if count == 0 {
            1
        } else {
            count
        };
        let sections = sections_in(bytes, start, listed, class, endian);
        count * size <= bytes.len() ==> {
            &&& count <= MOST_SECTIONS
            &&& start + listed * size <= bytes.len() ==> {
                &&& section_strings_fit(bytes, sections, names)
                &&& last_symbols(sections, listed) matches Some(symbols) ==> section_strings_fit(
                    bytes,
                    sections,
                    sections[symbols].link as int,
                )
            }
        }
    }
}

/// Whether the numbers in the tables that some dynamic entries name fit, and a list
/// can hold the strings that they name.
pub open spec fn dynamic_fits(
    bytes: Seq<u8>,
    headers: Seq<ProgramHeaderFields>,
    entries: Seq<(u64, u64)>,
    class: ElfClass,
    endian: ElfData,
    machine: u16,
) -> bool {
    let k = entries_end(entries, 0);
    let mips = machine == EM_MIPS && endian == ElfData::Little;
    &&& strings_fit(
        bytes,
        table_offset(headers, last_value(entries, k, DT_STRTAB)),
        table_size(last_value(entries, k, DT_STRSZ)),
    )
    &&& last_value(entries, k, DT_GNU_HASH) matches Some(address) ==> offset_of(
        headers,
        0,
        address,
    ) matches Some(offset) ==> hash_fits(bytes, narrow(offset as int), class, endian)
    &&& class == ElfClass::Elf64 ==> {
        &&& symbols_fit(
            bytes,
            table_offset(headers, last_value(entries, k, DT_RELA)),
            table_size(last_value(entries, k, DT_RELASZ)),
            true,
            endian,
            mips,
        )
        &&& symbols_fit(
            bytes,
            table_offset(headers, last_value(entries, k, DT_REL)),
            table_size(last_value(entries, k, DT_RELSZ)),
            false,
            endian,
            mips,
        )
        &&& symbols_fit(
            bytes,
            table_offset(headers, last_value(entries, k, DT_JMPREL)),
            table_size(last_value(entries, k, DT_PLTRELSZ)),
            last_value(entries, k, DT_PLTREL) == Some(DT_RELA),
            endian,
            mips,
        )
    }
}

/// Whether the numbers in the tables of a file with these program headers fit, and a
/// list can hold its dynamic entries.
pub open spec fn segments_fit(
    bytes: Seq<u8>,
    headers: Seq<ProgramHeaderFields>,
    class: ElfClass,
    endian: ElfData,
    machine: u16,
) -> bool {
    match dynamic_from(headers, 0) {
        None => true,
        Some(d) => {
            let start = narrow(headers[d].file_offset as int);
            let size = narrow(headers[d].file_size as int);
            start + size <= bytes.len() ==> size / dynamic_size(class) <= MOST_ENTRIES
                && dynamic_fits(
                bytes,
                headers,
                dynamic_entries(bytes, start, size / dynamic_size(class), class, endian),
                class,
                endian,
                machine,
            )
        },
    }
}

/// Whether the numbers in the tables of a file of a class and a byte order fit.
pub open spec fn file_fits(bytes: Seq<u8>, class: ElfClass, endian: ElfData) -> bool {
    let machine = word_at(bytes, 18, 2, endian) as u16;
    let size = program_header_size(class) as int;
    let (length, start, sections) = match class {
        ElfClass::Elf32 => (
            52int,
            word_at(bytes, 28, 4, endian) as int,
            word_at(bytes, 32, 4, endian) as int,
        ),
        ElfClass::Elf64 => (
            64int,
            narrow(word_at(bytes, 32, 8, endian) as int),
            narrow(word_at(bytes, 40, 8, endian) as int),
        ),
    };
    let count = word_at(bytes, length - 8, 2, endian) as int;
    bytes.len() >= length && start + count * size <= bytes.len() ==> segments_fit(
        bytes,
        headers_in(bytes, start, size, count, class, endian),
        class,
        endian,
        machine,
    ) && sections_fit(
        bytes,
        sections,
        word_at(bytes, length - 4, 2, endian) as int,
        word_at(bytes, length - 2, 2, endian) as int,
        class,
        endian,
    )
}

/// Whether the numbers in the tables of a file fit in addresses of 32 bits, and lists
/// there can hold its sections, dynamic entries and strings. What has no class or no
/// byte order has no tables.
pub open spec fn table_numbers_fit(bytes: Seq<u8>) -> bool {
    &&& bytes.len() < ADDRESSES
    &&& bytes.len() >= 16 && bytes[4] == ELFCLASS32 && bytes[5] == ELFDATA2LSB ==> file_fits(
        bytes,
        ElfClass::Elf32,
        ElfData::Little,
    )
    &&& bytes.len() >= 16 && bytes[4] == ELFCLASS32 && bytes[5] == ELFDATA2MSB ==> file_fits(
        bytes,
        ElfClass::Elf32,
        ElfData::Big,
    )
    &&& bytes.len() >= 16 && bytes[4] == ELFCLASS64 && bytes[5] == ELFDATA2LSB ==> file_fits(
        bytes,
        ElfClass::Elf64,
        ElfData::Little,
    )
    &&& bytes.len() >= 16 && bytes[4] == ELFCLASS64 && bytes[5] == ELFDATA2MSB ==> file_fits(
        bytes,
        ElfClass::Elf64,
        ElfData::Big,
    )
}

fn word32(bytes: &[u8], at: u64, endian: ElfData) -> (r: u64)
    requires
        at + 4 <= bytes@.len(),
    ensures
        r == word_at(bytes@, at as int, 4, endian),
        r < ADDRESSES,
{
    match read_u32(bytes, at as usize, endian) {
        Ok(word) => word as u64,
        Err(_) => 0,
    }
}

fn word64(bytes: &[u8], at: u64, endian: ElfData) -> (r: u64)
    requires
        at + 8 <= bytes@.len(),
    ensures
        r == word_at(bytes@, at as int, 8, endian),
{
    match read_u64(bytes, at as usize, endian) {
        Ok(word) => word,
        Err(_) => 0,
    }
}

fn word16(bytes: &[u8], at: usize, endian: ElfData) -> (r: u16)
    requires
        at + 2 <= bytes@.len(),
    ensures
        r == word_at(bytes@, at as int, 2, endian),
{
    match read_u16(bytes, at, endian) {
        Ok(word) => word,
        Err(_) => 0,
    }
}

fn check_hash(bytes: &[u8], at: u64, class: ElfClass, endian: ElfData) -> (r: bool)
    requires
        bytes@.len() < ADDRESSES,
        at < ADDRESSES,
    ensures
        r == hash_fits(bytes@, at as int, class, endian),
{
    let len: u64 = bytes.len() as u64;
    if at + 12 > len {
        return true;
    }
    let buckets: u64 = word32(bytes, at, endian);
    let first: u64 = word32(bytes, at + 4, endian);
    let bloom: u64 = word32(bytes, at + 8, endian);
    if buckets == 0 || first == 0 || bloom == 0 {
        return true;
    }
    let chains: u64 = at + 16 + match class {
        ElfClass::Elf32 => bloom * 4,
        ElfClass::Elf64 => bloom * 8,
    };
    if chains >= ADDRESSES {
        return false;
    }
    if chains + buckets * 4 > len {
        return true;
    }
    let mut last: u64 = 0;
    let mut index: u64 = 0;
    while index < buckets
        invariant
            index <= buckets,
            chains + buckets * 4 <= len,
            len == bytes@.len(),
            last < ADDRESSES,
            last == largest_word(bytes@, chains as int, index as int, endian),
        decreases buckets - index,
    {
        let own: u64 = word32(bytes, chains + index * 4, endian);
        if own > last {
            last = own;
        }
        index = index + 1;
    }
    last < first || (chains + buckets * 4 + (last - first) * 4 < ADDRESSES && last + len
        < ADDRESSES)
}

fn check_symbols(
    bytes: &[u8],
    start: u64,
    size: u64,
    rela: bool,
    endian: ElfData,
    mips: bool,
) -> (r: bool)
    requires
        bytes@.len() < ADDRESSES,
        start < ADDRESSES,
        size < ADDRESSES,
    ensures
        r == symbols_fit(bytes@, start as int, size as int, rela, endian, mips),
{
    if start + size > bytes.len() as u64 {
        return true;
    }
    let each: u64 = if rela {
        24
    } else {
        16
    };
    let count: u64 = size / each;
    let place: u64 = if endian == ElfData::Little && !mips {
        12
    } else {
        8
    };
    let mut index: u64 = 0;
    assert(count * each <= size) by (nonlinear_arith)
        requires
            each > 0,
            count == size / each,
    ;
    while index < count
        invariant
            index <= count,
            each == relocation_size(rela),
            count * each <= size,
            size < ADDRESSES,
            start < ADDRESSES,
            start + size <= bytes@.len(),
            place == if endian == ElfData::Little && !mips {
                12int
            } else {
                8int
            },
            forall|i: int|
                0 <= i < index ==> #[trigger] relocation_symbol(
                    bytes@,
                    start + i * relocation_size(rela),
                    endian,
                    mips,
                ) + 1 < ADDRESSES,
        decreases count - index,
    {
        assert(index * each + each <= count * each) by (nonlinear_arith)
            requires
                index + 1 <= count,
                each > 0,
        ;
        let symbol: u64 = word32(bytes, start + index * each + place, endian);
        assert(symbol == relocation_symbol(
            bytes@,
            start + index * relocation_size(rela),
            endian,
            mips,
        ));
        if symbol + 1 >= ADDRESSES {
            return false;
        }
        index = index + 1;
    }
    true
}

fn check_strings(bytes: &[u8], start: u64, size: u64) -> (r: bool)
    requires
        bytes@.len() < ADDRESSES,
        start < ADDRESSES,
        size < ADDRESSES,
    ensures
        r == strings_fit(bytes@, start as int, size as int),
{
    if start + size > bytes.len() as u64 {
        return true;
    }
    let mut ended: u64 = 0;
    let mut index: u64 = 0;
    while index < size
        invariant
            index <= size,
            ended <= index,
            start < ADDRESSES,
            size < ADDRESSES,
            start + size <= bytes@.len(),
            ended == strings_in(bytes@, start as int, size as int, index as int),
        decreases size - index,
    {
        if bytes[(start + index) as usize] == 0 || index + 1 == size {
            ended = ended + 1;
        }
        index = index + 1;
    }
    ended <= MOST_STRINGS
}

fn read_section(bytes: &[u8], at: u64, class: ElfClass, endian: ElfData) -> (r: Section)
    requires
        at + section_size(class) <= bytes@.len() < ADDRESSES,
    ensures
        r == section_at(bytes@, at as int, class, endian),
        r.offset < ADDRESSES,
        r.size < ADDRESSES,
        r.link < ADDRESSES,
{
    match class {
        ElfClass::Elf32 => Section {
            kind: word32(bytes, at + 4, endian),
            offset: word32(bytes, at + 16, endian),
            size: word32(bytes, at + 20, endian),
            link: word32(bytes, at + 24, endian),
        },
        ElfClass::Elf64 => Section {
            kind: word32(bytes, at + 4, endian),
            offset: word64(bytes, at + 24, endian) % ADDRESSES,
            size: word64(bytes, at + 32, endian) % ADDRESSES,
            link: word32(bytes, at + 40, endian),
        },
    }
}

fn check_section_strings(bytes: &[u8], sections: &Vec<Section>, index: u64) -> (r: bool)
    requires
        bytes@.len() < ADDRESSES,
        forall|i: int|
            0 <= i < sections@.len() ==> (#[trigger] sections@[i]).offset < ADDRESSES
                && sections@[i].size < ADDRESSES,
    ensures
        r == section_strings_fit(bytes@, sections@, index as int),
{
    let own: u64 = if index == SHN_XINDEX && sections.len() > 0 {
        sections[0].link
    } else {
        index
    };
    if own >= sections.len() as u64 {
        return true;
    }
    let section = sections[own as usize];
    check_strings(bytes, section.offset, section.size)
}

fn check_sections(
    bytes: &[u8],
    start: u64,
    given: u64,
    names: u64,
    class: ElfClass,
    endian: ElfData,
) -> (r: bool)
    requires
        bytes@.len() < ADDRESSES,
        start < ADDRESSES,
        given <= 0xffff,
    ensures
        r == sections_fit(bytes@, start as int, given as int, names as int, class, endian),
{
    let len: u64 = bytes.len() as u64;
    let each: u64 = match class {
        ElfClass::Elf32 => 40,
        ElfClass::Elf64 => 64,
    };
    if start == 0 || start + each > len {
        return true;
    }
    let count: u64 = if given == 0 {
        read_section(bytes, start, class, endian).size
    } else {
        given
    };
    assert(count * each <= ADDRESSES * 64) by (nonlinear_arith)
        requires
            count <= ADDRESSES,
            each <= 64,
    ;
    if count * each > len {
        return true;
    }
    if count > MOST_SECTIONS {
        return false;
    }
    let listed: u64 = if count == 0 {
        1
    } else {
        count
    };
    assert(listed * each <= ADDRESSES * 64) by (nonlinear_arith)
        requires
            listed <= ADDRESSES,
            each <= 64,
    ;
    if start + listed * each > len {
        return true;
    }
    let ghost whole = sections_in(bytes@, start as int, listed as int, class, endian);
    let mut sections: Vec<Section> = Vec::new();
    let mut index: u64 = 0;
    while index < listed
        invariant
            index <= listed <= MOST_SECTIONS,
            each == section_size(class),
            start + listed * each <= bytes@.len() < ADDRESSES,
            whole == sections_in(bytes@, start as int, listed as int, class, endian),
            sections@ == whole.subrange(0, index as int),
            forall|i: int|
                0 <= i < sections@.len() ==> (#[trigger] sections@[i]).offset < ADDRESSES
                    && sections@[i].size < ADDRESSES,
        decreases listed - index,
    {
        assert(index * each + each <= listed * each) by (nonlinear_arith)
            requires
                index + 1 <= listed,
                each > 0,
        ;
        let section = read_section(bytes, start + index * each, class, endian);
        assert(section == whole[index as int]);
        sections.push(section);
        assert(sections@ =~= whole.subrange(0, index + 1));
        index = index + 1;
    }
    assert(sections@ =~= whole);
    if !check_section_strings(bytes, &sections, names) {
        return false;
    }
    let mut left: usize = sections.len();
    while left > 0
        invariant
            left <= sections@.len(),
            last_symbols(sections@, sections@.len() as int) == last_symbols(
                sections@,
                left as int,
            ),
            sections@ == whole,
            whole == sections_in(bytes@, start as int, listed as int, class, endian),
            whole.len() == listed,
            bytes@.len() < ADDRESSES,
            each == section_size(class),
            start > 0,
            start + listed * each <= bytes@.len(),
            start + each <= bytes@.len(),
            count * each <= bytes@.len(),
            count <= MOST_SECTIONS,
            count == if given == 0 {
                section_at(bytes@, start as int, class, endian).size
            } else {
                given
            },
            listed == if count == 0 {
                1
            } else {
                count
            },
            section_strings_fit(bytes@, sections@, names as int),
            forall|i: int|
                0 <= i < sections@.len() ==> (#[trigger] sections@[i]).offset < ADDRESSES
                    && sections@[i].size < ADDRESSES,
        decreases left,
    {
        if sections[left - 1].kind == SHT_SYMTAB {
            return check_section_strings(bytes, &sections, sections[left - 1].link);
        }
        left = left - 1;
    }
    true
}

fn find_offset(headers: &Vec<ProgramHeaderFields>, address: u64) -> (r: Option<u64>)
    ensures
        r == offset_of(headers@, 0, address),
{
    let mut index: usize = 0;
    while index < headers.len()
        invariant
            index <= headers@.len(),
            offset_of(headers@, 0, address) == offset_of(headers@, index as int, address),
        decreases headers@.len() - index,
    {
        let ph = headers[index];
        if ph.program_type == PT_LOAD && address >= ph.vaddr && address - ph.vaddr
            < ph.memory_size {
            return ph.file_offset.checked_add(address - ph.vaddr);
        }
        index = index + 1;
    }
    None
}

fn find_value(entries: &Vec<(u64, u64)>, tag: u64) -> (r: Option<u64>)
    ensures
        r == last_value(entries@, entries@.len() as int, tag),
{
    let mut left: usize = entries.len();
    while left > 0
        invariant
            left <= entries@.len(),
            last_value(entries@, entries@.len() as int, tag) == last_value(
                entries@,
                left as int,
                tag,
            ),
        decreases left,
    {
        if entries[left - 1].0 == tag {
            return Some(entries[left - 1].1);
        }
        left = left - 1;
    }
    None
}

fn find_table(headers: &Vec<ProgramHeaderFields>, value: Option<u64>) -> (r: u64)
    ensures
        r == table_offset(headers@, value),
        r < ADDRESSES,
{
    match value {
        Some(address) => match find_offset(headers, address) {
            Some(offset) => offset % ADDRESSES,
            None => 0,
        },
        None => 0,
    }
}

fn find_size(value: Option<u64>) -> (r: u64)
    ensures
        r == table_size(value),
        r < ADDRESSES,
{
    match value {
        Some(size) => size % ADDRESSES,
        None => 0,
    }
}

proof fn lemma_last_value(entries: Seq<(u64, u64)>, k: int, tag: u64)
    requires
        0 <= k <= entries.len(),
    ensures
        last_value(entries.subrange(0, k), k, tag) == last_value(entries, k, tag),
    decreases k,
{
    if k > 0 {
        lemma_last_value(entries, k - 1, tag);
        lemma_last_value(entries.subrange(0, k), k - 1, tag);
        assert(entries.subrange(0, k).subrange(0, k - 1) =~= entries.subrange(0, k - 1));
    }
}

fn check_dynamic(
    bytes: &[u8],
    headers: &Vec<ProgramHeaderFields>,
    entries: &Vec<(u64, u64)>,
    class: ElfClass,
    endian: ElfData,
    machine: u16,
    whole: Ghost<Seq<(u64, u64)>>,
) -> (r: bool)
    requires
        bytes@.len() < ADDRESSES,
        0 <= entries_end(whole@, 0) <= whole@.len(),
        entries@ == whole@.subrange(0, entries_end(whole@, 0)),
    ensures
        r == dynamic_fits(bytes@, headers@, whole@, class, endian, machine),
{
    proof {
        let k = entries_end(whole@, 0);
        lemma_last_value(whole@, k, DT_STRTAB);
        lemma_last_value(whole@, k, DT_STRSZ);
        lemma_last_value(whole@, k, DT_GNU_HASH);
        lemma_last_value(whole@, k, DT_RELA);
        lemma_last_value(whole@, k, DT_RELASZ);
        lemma_last_value(whole@, k, DT_REL);
        lemma_last_value(whole@, k, DT_RELSZ);
        lemma_last_value(whole@, k, DT_JMPREL);
        lemma_last_value(whole@, k, DT_PLTRELSZ);
        lemma_last_value(whole@, k, DT_PLTREL);
    }
    let mips: bool = machine == EM_MIPS && endian == ElfData::Little;
    if !check_strings(
        bytes,
        find_table(headers, find_value(entries, DT_STRTAB)),
        find_size(find_value(entries, DT_STRSZ)),
    ) {
        return false;
    }
    if let Some(address) = find_value(entries, DT_GNU_HASH) {
        if let Some(offset) = find_offset(headers, address) {
            if !check_hash(bytes, offset % ADDRESSES, class, endian) {
                return false;
            }
        }
    }
    if class == ElfClass::Elf32 {
        return true;
    }
    let plt_rela: bool = match find_value(entries, DT_PLTREL) {
        Some(kind) => kind == DT_RELA,
        None => false,
    };
    check_symbols(
        bytes,
        find_table(headers, find_value(entries, DT_RELA)),
        find_size(find_value(entries, DT_RELASZ)),
        true,
        endian,
        mips,
    ) && check_symbols(
        bytes,
        find_table(headers, find_value(entries, DT_REL)),
        find_size(find_value(entries, DT_RELSZ)),
        false,
        endian,
        mips,
    ) && check_symbols(
        bytes,
        find_table(headers, find_value(entries, DT_JMPREL)),
        find_size(find_value(entries, DT_PLTRELSZ)),
        plt_rela,
        endian,
        mips,
    )
}

proof fn lemma_entries_end(entries: Seq<(u64, u64)>, from: int)
    requires
        0 <= from <= entries.len(),
    ensures
        from <= entries_end(entries, from) <= entries.len(),
    decreases entries.len() - from,
{
    if from < entries.len() && entries[from].0 != 0 {
        lemma_entries_end(entries, from + 1);
    }
}

fn check_segments(
    bytes: &[u8],
    headers: &Vec<ProgramHeaderFields>,
    class: ElfClass,
    endian: ElfData,
    machine: u16,
) -> (r: bool)
    requires
        bytes@.len() < ADDRESSES,
    ensures
        r == segments_fit(bytes@, headers@, class, endian, machine),
{
    let mut at: usize = 0;
    while at < headers.len() && headers[at].program_type != PT_DYNAMIC
        invariant
            at <= headers@.len(),
            dynamic_from(headers@, 0) == dynamic_from(headers@, at as int),
        decreases headers@.len() - at,
    {
        at = at + 1;
    }
    if at >= headers.len() {
        return true;
    }
    let start: u64 = headers[at].file_offset % ADDRESSES;
    let size: u64 = headers[at].file_size % ADDRESSES;
    if start + size > bytes.len() as u64 {
        return true;
    }
    let each: u64 = match class {
        ElfClass::Elf32 => 8,
        ElfClass::Elf64 => 16,
    };
    let count: u64 = size / each;
    if count > MOST_ENTRIES {
        return false;
    }
    let ghost whole = dynamic_entries(
        bytes@,
        start as int,
        size as int / dynamic_size(class),
        class,
        endian,
    );
    let mut entries: Vec<(u64, u64)> = Vec::new();
    let mut index: u64 = 0;
    assert(count * each <= size) by (nonlinear_arith)
        requires
            each > 0,
            count == size / each,
    ;
    proof {
        lemma_entries_end(whole, 0);
    }
    while index < count
        invariant_except_break
            entries_end(whole, 0) == entries_end(whole, index as int),
        invariant
            index <= count,
            whole.len() == count,
            whole == dynamic_entries(
                bytes@,
                start as int,
                size as int / dynamic_size(class),
                class,
                endian,
            ),
            each == dynamic_size(class),
            count * each <= size,
            start + size <= bytes@.len() < ADDRESSES,
            entries@ == whole.subrange(0, index as int),
        ensures
            entries_end(whole, 0) == index,
        decreases count - index,
    {
        assert(index * each + each <= count * each) by (nonlinear_arith)
            requires
                index + 1 <= count,
                each > 0,
        ;
        let place: u64 = start + index * each;
        let entry: (u64, u64) = match class {
            ElfClass::Elf32 => (word32(bytes, place, endian), word32(bytes, place + 4, endian)),
            ElfClass::Elf64 => (word64(bytes, place, endian), word64(bytes, place + 8, endian)),
        };
        assert(entry == whole[index as int]);
        if entry.0 == 0 {
            break;
        }
        entries.push(entry);
        assert(entries@ =~= whole.subrange(0, index + 1));
        index = index + 1;
    }
    check_dynamic(bytes, headers, &entries, class, endian, machine, Ghost(whole))
}

fn check_file(bytes: &[u8], class: ElfClass, endian: ElfData) -> (r: bool)
    requires
        16 <= bytes@.len() < ADDRESSES,
    ensures
        r == file_fits(bytes@, class, endian),
{
    let len: u64 = bytes.len() as u64;
    let (length, start, sections, size): (usize, u64, u64, u64) = match class {
        ElfClass::Elf32 => {
            if len < 52 {
                return true;
            }
            (52, word32(bytes, 28, endian), word32(bytes, 32, endian), 32)
        },
        ElfClass::Elf64 => {
            if len < 64 {
                return true;
            }
            (
                64,
                word64(bytes, 32, endian) % ADDRESSES,
                word64(bytes, 40, endian) % ADDRESSES,
                56,
            )
        },
    };
    let count: u64 = word16(bytes, length - 8, endian) as u64;
    assert(size == program_header_size(class));
    if start + count * size > len {
        return true;
    }
    let machine: u16 = word16(bytes, 18, endian);
    let ghost wanted = headers_in(
        bytes@,
        start as int,
        size as int,
        count as int,
        class,
        endian,
    );
    let mut headers: Vec<ProgramHeaderFields> = Vec::new();
    let mut index: u64 = 0;
    while index < count
        invariant
            index <= count <= 0xffff,
            size == program_header_size(class),
            start + count * size <= len,
            len == bytes@.len(),
            len < ADDRESSES,
            wanted == headers_in(
                bytes@,
                start as int,
                size as int,
                count as int,
                class,
                endian,
            ),
            headers@ == wanted.subrange(0, index as int),
        decreases count - index,
    {
        assert(index * size + size <= count * size && (index + 1) * size == index * size + size)
            by (nonlinear_arith)
            requires
                index + 1 <= count,
                size > 0,
        ;
        let place: u64 = start + index * size;
        let raw = copy_range(bytes, place as usize, (place + size) as usize);
        match ProgramHeaderFields::decode(raw.as_slice(), class, endian) {
            Ok(header) => {
                assert(header == wanted[index as int]);
                headers.push(header);
            },
            Err(_) => {
                assert(false);
            },
        }
        assert(headers@ =~= wanted.subrange(0, index + 1));
        index = index + 1;
    }
    assert(headers@ =~= wanted);
    check_segments(bytes, &headers, class, endian, machine) && check_sections(
        bytes,
        sections,
        word16(bytes, length - 4, endian) as u64,
        word16(bytes, length - 2, endian) as u64,
        class,
        endian,
    )
}

/// Whether the numbers in the tables of a file fit in addresses of 32 bits, and lists
/// there can hold its sections, dynamic entries and strings.
pub fn check_tables(bytes: &[u8]) -> (r: bool)
    ensures
        r == table_numbers_fit(bytes@),
{
    if bytes.len() as u64 >= ADDRESSES {
        return false;
    }
    if bytes.len() < 16 {
        return true;
    }
    let class = if bytes[4] == ELFCLASS32 {
        ElfClass::Elf32
    } else if bytes[4] == ELFCLASS64 {
        ElfClass::Elf64
    } else {
        return true;
    };
    let endian = if bytes[5] == ELFDATA2LSB {
        ElfData::Little
    } else if bytes[5] == ELFDATA2MSB {
        ElfData::Big
    } else {
        return true;
    };
    check_file(bytes, class, endian)
}

/// A hash table that lies in the file fits: only one that leads out of the file is
/// refused.
pub proof fn tables_within_the_file_fit(bytes: Seq<u8>, at: int, class: ElfClass, endian: ElfData)
    requires
        bytes.len() <= LONGEST_FILE,
        0 <= at,
        at + 12 <= bytes.len(),
        ({
            let buckets = word_at(bytes, at, 4, endian) as int;
            let first = word_at(bytes, at + 4, 4, endian) as int;
            let bloom = word_at(bytes, at + 8, 4, endian) as int;
            let chains = at + 16 + bloom * (dynamic_size(class) / 2);
            let last = largest_word(bytes, chains, buckets, endian);
            &&& chains + buckets * 4 <= bytes.len()
            &&& last >= first ==> chains + buckets * 4 + (last - first) * 4 <= bytes.len()
            &&& last <= bytes.len()
        }),
    ensures
        hash_fits(bytes, at, class, endian),
{
}

proof fn lemma_strings_in(bytes: Seq<u8>, start: int, size: int, k: int)
    requires
        0 <= k,
    ensures
        0 <= strings_in(bytes, start, size, k) <= k,
    decreases k,
{
    if k > 0 {
        lemma_strings_in(bytes, start, size, k - 1);
    }
}

/// A string table of no more bytes than a list can hold strings fits.
pub proof fn short_string_tables_fit(bytes: Seq<u8>, start: int, size: int)
    requires
        0 <= size <= MOST_STRINGS,
    ensures
        strings_fit(bytes, start, size),
{
    lemma_strings_in(bytes, start, size, size);
}

} // verus!
