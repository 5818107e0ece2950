//! Files whose tables hold numbers that no 32-bit address can hold.

use blueos_loader::elf::{
    DT_NULL, DT_RELA, DT_RELASZ, DT_STRSZ, DT_STRTAB, EM_RISCV, ET_DYN, PF_R, PF_W, PT_DYNAMIC, PT_LOAD,
};
use blueos_loader::load::read_elf;
use blueos_loader::parser_limits::check_tables;

const DT_GNU_HASH: u64 = 0x6fff_fef5;

fn put(file: &mut [u8], at: usize, bytes: &[u8]) {
    file[at..at + bytes.len()].copy_from_slice(bytes);
}

fn word(file: &mut [u8], at: usize, value: u64) {
    put(file, at, &value.to_le_bytes());
}

fn half(file: &mut [u8], at: usize, value: u32) {
    put(file, at, &value.to_le_bytes());
}

/// A 64-bit file with one segment and these dynamic entries at 0x100.
fn file(entries: &[(u64, u64)]) -> Vec<u8> {
    let mut file = vec![0u8; 0x300];
    put(&mut file, 0, b"\x7fELF\x02\x01\x01");
    put(&mut file, 16, &ET_DYN.to_le_bytes());
    put(&mut file, 18, &EM_RISCV.to_le_bytes());
    half(&mut file, 20, 1);
    word(&mut file, 32, 64);
    put(&mut file, 52, &64u16.to_le_bytes());
    put(&mut file, 54, &56u16.to_le_bytes());
    put(&mut file, 56, &2u16.to_le_bytes());
    put(&mut file, 58, &64u16.to_le_bytes());
    for (index, (kind, offset, size)) in
        [(PT_LOAD, 0u64, 0x300u64), (PT_DYNAMIC, 0x100, 0x80)].into_iter().enumerate()
    {
        let at = 64 + 56 * index;
        half(&mut file, at, kind);
        half(&mut file, at + 4, PF_R | PF_W);
        word(&mut file, at + 8, offset);
        word(&mut file, at + 16, offset);
        word(&mut file, at + 24, offset);
        word(&mut file, at + 32, size);
        word(&mut file, at + 40, size);
        word(&mut file, at + 48, 8);
    }
    // The header tables end at 0xb0, before the dynamic segment.
    for (index, (tag, value)) in entries.iter().enumerate() {
        word(&mut file, 0x100 + 16 * index, *tag);
        word(&mut file, 0x108 + 16 * index, *value);
    }
    word(&mut file, 0x100 + 16 * entries.len(), DT_NULL);
    file
}

/// A hash table at 0x200 with one bucket that starts with this symbol.
fn hashed(bloom: u32, symbol: u32) -> Vec<u8> {
    let mut file = file(&[(DT_GNU_HASH, 0x200)]);
    half(&mut file, 0x200, 1);
    half(&mut file, 0x204, 1);
    half(&mut file, 0x208, bloom);
    half(&mut file, 0x20c, 6);
    // One word of the filter, then the bucket.
    half(&mut file, 0x218, symbol);
    file
}

#[test]
fn ordinary_tables_fit() {
    assert!(check_tables(b"no file"));
    assert!(check_tables(&file(&[])));
    assert!(check_tables(&hashed(1, 1)));
    let mut relocated = file(&[(DT_RELA, 0x200), (DT_RELASZ, 24)]);
    word(&mut relocated, 0x208, 5 << 32 | 2);
    assert!(check_tables(&relocated));
    assert!(read_elf(&file(&[])).is_some());
}

#[test]
fn filters_beyond_every_address_do_not_fit() {
    // The filter alone would fill the address space.
    let huge = hashed(0x4000_0000, 1);
    assert!(!check_tables(&huge));
    assert!(read_elf(&huge).is_none());
    assert!(check_tables(&hashed(0x1000_0000, 1)));
}

#[test]
fn chains_beyond_every_address_do_not_fit() {
    assert!(!check_tables(&hashed(1, 0xffff_ffff)));
    assert!(!check_tables(&hashed(1, 0x4000_0000)));
    assert!(check_tables(&hashed(1, 0x1000_0000)));
    assert!(read_elf(&hashed(1, 0xffff_ffff)).is_none());
}

#[test]
fn symbol_numbers_without_a_next_do_not_fit() {
    let mut relocated = file(&[(DT_RELA, 0x200), (DT_RELASZ, 24)]);
    word(&mut relocated, 0x208, 0xffff_ffff << 32 | 2);
    assert!(!check_tables(&relocated));
    assert!(read_elf(&relocated).is_none());
    word(&mut relocated, 0x208, 0xffff_fffe << 32 | 2);
    assert!(check_tables(&relocated));
}

#[test]
fn long_files_fit() {
    let mut long = vec![0u8; 0x800_0001];
    assert!(check_tables(&long));
    let short = file(&[]);
    put(&mut long, 0, &short);
    assert!(check_tables(&long));
}

/// A file with two sections at 0x200: one without strings, and one with `size` of them
/// from 0x300 on.
fn named(size: u64) -> Vec<u8> {
    let mut named = file(&[]);
    named.resize(0x300 + size as usize, 0);
    word(&mut named, 40, 0x200);
    put(&mut named, 60, &2u16.to_le_bytes());
    word(&mut named, 0x240 + 24, 0x300);
    word(&mut named, 0x240 + 32, size);
    named
}

#[test]
fn tables_of_too_many_strings_do_not_fit() {
    // Nothing names the second section as a string table.
    let mut most = named(0x800_0001);
    assert!(check_tables(&most));
    put(&mut most, 62, &1u16.to_le_bytes());
    assert!(!check_tables(&most));
    // One string less: the last byte belongs to the string before it.
    most[0x300] = b'a';
    assert!(check_tables(&most));
}

#[test]
fn string_tables_are_found_by_their_links() {
    let mut named = named(0x800_0001);
    // The section number that stands for the link of the first section.
    put(&mut named, 62, &0xffffu16.to_le_bytes());
    assert!(check_tables(&named));
    half(&mut named, 0x200 + 40, 1);
    assert!(!check_tables(&named));
    // The strings of a symbol table.
    put(&mut named, 62, &0u16.to_le_bytes());
    assert!(check_tables(&named));
    half(&mut named, 0x200 + 4, 2);
    assert!(!check_tables(&named));
}

#[test]
fn dynamic_strings_are_counted() {
    let size = 0x800_0001u64;
    let mut named = file(&[(DT_STRTAB, 0x2ff), (DT_STRSZ, size)]);
    named.resize(0x2ff + size as usize, 0);
    assert!(!check_tables(&named));
    word(&mut named, 0x118, size - 1);
    assert!(check_tables(&named));
}
