//! Byte strings and fixed-width words in either byte order.

use crate::error::{ErrorContext, LoadError, LoadErrorKind, LoadResult};
use crate::identity::ElfData;
use vstd::prelude::*;

verus! {

/// The number that `bytes` denote, least significant byte first.
pub open spec fn le_value(bytes: Seq<u8>) -> nat
    decreases bytes.len(),
{
    if bytes.len() == 0 {
        0
    } else {
        bytes[0] as nat + 256 * le_value(bytes.drop_first())
    }
}

/// The number that `bytes` denote in the byte order `endian`.
pub open spec fn word_value(bytes: Seq<u8>, endian: ElfData) -> nat {
    match endian {
        ElfData::Little => le_value(bytes),
        ElfData::Big => le_value(bytes.reverse()),
    }
}

/// The word of `width` bytes at `offset`.
pub open spec fn word_at(bytes: Seq<u8>, offset: int, width: int, endian: ElfData) -> nat {
    word_value(bytes.subrange(offset, offset + width), endian)
}

/// The failure of a word that does not lie inside its buffer.
pub open spec fn short_buffer(offset: usize, width: u64, len: nat) -> LoadError {
    LoadError {
        stage: None,
        kind: LoadErrorKind::OutOfBounds,
        context: ErrorContext::FileRange { offset: offset as u64, len: width, file_len: len as u64 },
    }
}

/// The failure of the first of some words, given by offset and width, that bytes
/// of this length do not hold.
pub open spec fn first_short(words: Seq<(usize, u64)>, len: nat) -> Option<LoadError>
    decreases words.len(),
{
    if words.len() == 0 {
        None
    } else if words[0].0 + words[0].1 > len {
        Some(short_buffer(words[0].0, words[0].1, len))
    } else {
        first_short(words.drop_first(), len)
    }
}

pub fn bytes_equal(a: &[u8], b: &[u8]) -> (r: bool)
    ensures
        r == (a@ == b@),
{
    if a.len() != b.len() {
        return false;
    }
    let mut index: usize = 0;
    while index < a.len()
        invariant
            index <= a.len(),
            a.len() == b.len(),
            forall|i: int| 0 <= i < index ==> a@[i] == b@[i],
        decreases a.len() - index,
    {
        if a[index] != b[index] {
            assert(a@[index as int] != b@[index as int]);
            return false;
        }
        index = index + 1;
    }
    assert(a@ =~= b@);
    true
}

/// The bytes from `from` up to `to`.
pub fn copy_range(source: &[u8], from: usize, to: usize) -> (r: Vec<u8>)
    requires
        from <= to <= source.len(),
    ensures
        r@ == source@.subrange(from as int, to as int),
{
    let mut copy: Vec<u8> = Vec::new();
    let mut index: usize = from;
    while index < to
        invariant
            from <= index <= to <= source.len(),
            copy@ =~= source@.subrange(from as int, index as int),
        decreases to - index,
    {
        copy.push(source[index]);
        index = index + 1;
    }
    copy
}

pub fn copy_bytes(source: &[u8]) -> (r: Vec<u8>)
    ensures
        r@ == source@,
{
    let copy = copy_range(source, 0, source.len());
    assert(copy@ =~= source@);
    copy
}

/// Whether byte string `a` comes before `b`: at the first position where they
/// differ `a` has the smaller byte, or `a` is a proper prefix of `b`.
pub open spec fn bytes_before(a: Seq<u8>, b: Seq<u8>) -> bool
    decreases a.len(),
{
    if b.len() == 0 {
        false
    } else if a.len() == 0 {
        true
    } else if a[0] != b[0] {
        a[0] < b[0]
    } else {
        bytes_before(a.drop_first(), b.drop_first())
    }
}

proof fn lemma_before_same_prefix(a: Seq<u8>, b: Seq<u8>, n: nat)
    requires
        n <= a.len(),
        n <= b.len(),
        forall|i: int| 0 <= i < n ==> a[i] == b[i],
    ensures
        bytes_before(a, b) == bytes_before(a.skip(n as int), b.skip(n as int)),
    decreases n,
{
    if n == 0 {
        assert(a.skip(0) =~= a);
        assert(b.skip(0) =~= b);
    } else {
        let (a1, b1) = (a.drop_first(), b.drop_first());
        lemma_before_same_prefix(a1, b1, (n - 1) as nat);
        assert(a1.skip(n - 1) =~= a.skip(n as int));
        assert(b1.skip(n - 1) =~= b.skip(n as int));
    }
}

pub fn bytes_precede(a: &[u8], b: &[u8]) -> (r: bool)
    ensures
        r == bytes_before(a@, b@),
{
    let mut index: usize = 0;
    while index < a.len() && index < b.len()
        invariant
            index <= a.len(),
            index <= b.len(),
            forall|i: int| 0 <= i < index ==> a@[i] == b@[i],
        decreases a.len() - index,
    {
        if a[index] != b[index] {
            proof {
                lemma_before_same_prefix(a@, b@, index as nat);
            }
            return a[index] < b[index];
        }
        index = index + 1;
    }
    proof {
        lemma_before_same_prefix(a@, b@, index as nat);
    }
    index < b.len()
}

/// Of two different byte strings exactly one comes first; none precedes itself.
pub proof fn byte_order_is_total(a: Seq<u8>, b: Seq<u8>)
    ensures
        a != b ==> (bytes_before(a, b) != bytes_before(b, a)),
        a == b ==> !bytes_before(a, b),
    decreases a.len(),
{
    if a.len() > 0 && b.len() > 0 && a[0] == b[0] {
        byte_order_is_total(a.drop_first(), b.drop_first());
        if a.drop_first() == b.drop_first() {
            assert(a =~= seq![a[0]] + a.drop_first());
            assert(b =~= seq![b[0]] + b.drop_first());
        }
    } else if a.len() == 0 && b.len() == 0 {
        assert(a =~= b);
    }
}

/// The byte order is transitive.
pub proof fn byte_order_is_transitive(a: Seq<u8>, b: Seq<u8>, c: Seq<u8>)
    requires
        bytes_before(a, b),
        bytes_before(b, c),
    ensures
        bytes_before(a, c),
    decreases a.len(),
{
    if a.len() > 0 && a[0] == b[0] && b[0] == c[0] {
        byte_order_is_transitive(a.drop_first(), b.drop_first(), c.drop_first());
    }
}

proof fn lemma_le4(b: Seq<u8>)
    requires
        b.len() == 4,
    ensures
        le_value(b) == b[0] + 256 * b[1] + 65536 * b[2] + 16777216 * b[3],
{
    reveal_with_fuel(le_value, 5);
    let b1 = b.drop_first();
    let b2 = b1.drop_first();
    let b3 = b2.drop_first();
    assert(b1[0] == b[1] && b2[0] == b[2] && b3[0] == b[3]);
    assert(b3.drop_first().len() == 0);
}

proof fn lemma_le_append(a: Seq<u8>, b: Seq<u8>)
    requires
        a.len() == 4,
    ensures
        le_value(a + b) == le_value(a) + 0x1_0000_0000 * le_value(b),
{
    lemma_le4(a);
    let s = a + b;
    reveal_with_fuel(le_value, 5);
    let s1 = s.drop_first();
    let s2 = s1.drop_first();
    let s3 = s2.drop_first();
    let s4 = s3.drop_first();
    assert(s[0] == a[0] && s1[0] == a[1] && s2[0] == a[2] && s3[0] == a[3]);
    assert(s4 =~= b);
}

fn word32(b0: u8, b1: u8, b2: u8, b3: u8) -> (r: u32)
    ensures
        r == b0 + 256 * b1 + 65536 * b2 + 16777216 * b3,
{
    b0 as u32 + 256 * (b1 as u32) + 65536 * (b2 as u32) + 16777216 * (b3 as u32)
}

fn read_u16_at(bytes: &[u8], offset: usize, endian: ElfData) -> (r: u16)
    requires
        offset + 2 <= bytes.len(),
    ensures
        r == word_at(bytes@, offset as int, 2, endian),
{
    let first: u8 = bytes[offset];
    let second: u8 = bytes[offset + 1];
    proof {
        let word = bytes@.subrange(offset as int, offset + 2);
        let turned = word.reverse();
        reveal_with_fuel(le_value, 3);
        assert(word.drop_first()[0] == word[1]);
        assert(turned[0] == word[1] && turned[1] == word[0]);
        assert(turned.drop_first()[0] == turned[1]);
        assert(word.drop_first().drop_first().len() == 0);
        assert(turned.drop_first().drop_first().len() == 0);
    }
    match endian {
        ElfData::Little => first as u16 + 256 * (second as u16),
        ElfData::Big => second as u16 + 256 * (first as u16),
    }
}

fn read_u32_at(bytes: &[u8], offset: usize, endian: ElfData) -> (r: u32)
    requires
        offset + 4 <= bytes.len(),
    ensures
        r == word_at(bytes@, offset as int, 4, endian),
{
    let b0: u8 = bytes[offset];
    let b1: u8 = bytes[offset + 1];
    let b2: u8 = bytes[offset + 2];
    let b3: u8 = bytes[offset + 3];
    proof {
        let word = bytes@.subrange(offset as int, offset + 4);
        lemma_le4(word);
        lemma_le4(word.reverse());
    }
    match endian {
        ElfData::Little => word32(b0, b1, b2, b3),
        ElfData::Big => word32(b3, b2, b1, b0),
    }
}

/// Reads the 16-bit word at `offset`.
pub fn read_u16(bytes: &[u8], offset: usize, endian: ElfData) -> (r: LoadResult<u16>)
    ensures
        offset + 2 <= bytes.len() ==> r is Ok && r->Ok_0 == word_at(
            bytes@,
            offset as int,
            2,
            endian,
        ),
        offset + 2 > bytes.len() ==> r == Err::<u16, LoadError>(
            short_buffer(offset, 2, bytes@.len()),
        ),
{
    if bytes.len() < 2 || offset > bytes.len() - 2 {
        return Err(word_error(bytes, offset, 2));
    }
    Ok(read_u16_at(bytes, offset, endian))
}

fn word_error(bytes: &[u8], offset: usize, width: u64) -> (r: LoadError)
    ensures
        r == short_buffer(offset, width, bytes@.len()),
{
    LoadError::new(
        LoadErrorKind::OutOfBounds,
        ErrorContext::FileRange {
            offset: offset as u64,
            len: width,
            file_len: bytes.len() as u64,
        },
    )
}

/// Reads the 32-bit word at `offset`.
pub fn read_u32(bytes: &[u8], offset: usize, endian: ElfData) -> (r: LoadResult<u32>)
    ensures
        offset + 4 <= bytes.len() ==> r is Ok && r->Ok_0 == word_at(
            bytes@,
            offset as int,
            4,
            endian,
        ),
        offset + 4 > bytes.len() ==> r == Err::<u32, LoadError>(
            short_buffer(offset, 4, bytes@.len()),
        ),
{
    if bytes.len() < 4 || offset > bytes.len() - 4 {
        return Err(word_error(bytes, offset, 4));
    }
    Ok(read_u32_at(bytes, offset, endian))
}

/// Reads the 64-bit word at `offset`.
pub fn read_u64(bytes: &[u8], offset: usize, endian: ElfData) -> (r: LoadResult<u64>)
    ensures
        offset + 8 <= bytes.len() ==> r is Ok && r->Ok_0 == word_at(
            bytes@,
            offset as int,
            8,
            endian,
        ),
        offset + 8 > bytes.len() ==> r == Err::<u64, LoadError>(
            short_buffer(offset, 8, bytes@.len()),
        ),
{
    if bytes.len() < 8 || offset > bytes.len() - 8 {
        return Err(word_error(bytes, offset, 8));
    }
    let low: u32 = read_u32_at(bytes, offset, endian);
    let high: u32 = read_u32_at(bytes, offset + 4, endian);
    proof {
        let word = bytes@.subrange(offset as int, offset + 8);
        let front = bytes@.subrange(offset as int, offset + 4);
        let back = bytes@.subrange(offset + 4, offset + 8);
        assert(word =~= front + back);
        lemma_le_append(front, back);
        assert(word.reverse() =~= back.reverse() + front.reverse());
        lemma_le_append(back.reverse(), front.reverse());
    }
    match endian {
        ElfData::Little => Ok(low as u64 + 0x1_0000_0000 * (high as u64)),
        ElfData::Big => Ok(high as u64 + 0x1_0000_0000 * (low as u64)),
    }
}

/// The `width` bytes that denote `value`, least significant byte first.
pub open spec fn le_bytes(value: nat, width: nat) -> Seq<u8>
    decreases width,
{
    if width == 0 {
        Seq::empty()
    } else {
        seq![(value % 256) as u8] + le_bytes(value / 256, (width - 1) as nat)
    }
}

/// The `width` bytes that denote `value` in the byte order `endian`.
pub open spec fn word_bytes(value: nat, width: nat, endian: ElfData) -> Seq<u8> {
    match endian {
        ElfData::Little => le_bytes(value, width),
        ElfData::Big => le_bytes(value, width).reverse(),
    }
}

/// Writes `value` as `width` bytes in the byte order `endian`.
pub fn write_word(value: u64, width: usize, endian: ElfData) -> (r: Vec<u8>)
    ensures
        r@ == word_bytes(value as nat, width as nat, endian),
{
    let mut little: Vec<u8> = Vec::new();
    let mut rest: u64 = value;
    let mut written: usize = 0;
    while written < width
        invariant
            written <= width,
            little@.len() == written,
            little@ + le_bytes(rest as nat, (width - written) as nat) =~= le_bytes(
                value as nat,
                width as nat,
            ),
        decreases width - written,
    {
        let ghost before = little@;
        little.push((rest % 256) as u8);
        proof {
            let tail = le_bytes((rest / 256) as nat, (width - written - 1) as nat);
            assert(before + (seq![(rest as nat % 256) as u8] + tail) =~= little@ + tail);
        }
        rest = rest / 256;
        written = written + 1;
    }
    assert(little@ =~= le_bytes(value as nat, width as nat));
    match endian {
        ElfData::Little => little,
        ElfData::Big => {
            let mut turned: Vec<u8> = Vec::new();
            let mut index: usize = little.len();
            while index > 0
                invariant
                    index <= little@.len(),
                    little@.len() == width,
                    turned@.len() == width - index,
                    forall|i: int| 0 <= i < turned@.len() ==> turned@[i] == little@[width - 1 - i],
                decreases index,
            {
                index = index - 1;
                turned.push(little[index]);
            }
            assert(turned@ =~= little@.reverse());
            turned
        },
    }
}

proof fn lemma_le_round_trip(value: nat, width: nat)
    requires
        value < vstd::arithmetic::power::pow(256, width),
    ensures
        le_bytes(value, width).len() == width,
        le_value(le_bytes(value, width)) == value,
    decreases width,
{
    if width == 0 {
        vstd::arithmetic::power::lemma_pow0(256);
    } else {
        let rest = (width - 1) as nat;
        vstd::arithmetic::power::lemma_pow_adds(256, 1, rest);
        vstd::arithmetic::power::lemma_pow1(256);
        assert(value / 256 < vstd::arithmetic::power::pow(256, rest));
        lemma_le_round_trip(value / 256, rest);
        let bytes = le_bytes(value, width);
        assert(bytes.drop_first() =~= le_bytes(value / 256, rest));
        assert(bytes[0] == (value % 256) as u8);
    }
}

/// Reading back the bytes that a word was written as gives the word, in either
/// byte order, for every value that fits the width.
pub proof fn word_round_trip(value: nat, width: nat, endian: ElfData)
    requires
        value < vstd::arithmetic::power::pow(256, width),
    ensures
        word_bytes(value, width, endian).len() == width,
        word_value(word_bytes(value, width, endian), endian) == value,
{
    lemma_le_round_trip(value, width);
    let little = le_bytes(value, width);
    assert(little.reverse().reverse() =~= little);
}

proof fn lemma_le2(b: Seq<u8>)
    requires
        b.len() == 2,
    ensures
        le_value(b) == b[0] + 256 * b[1],
{
    reveal_with_fuel(le_value, 3);
    let b1 = b.drop_first();
    assert(b1[0] == b[1]);
}

/// A word of two bytes counts its bytes by their places: in a little-endian word the
/// first byte counts least, in a big-endian one the last.
pub proof fn short_words_are_positional(bytes: Seq<u8>, offset: int)
    requires
        0 <= offset,
        offset + 2 <= bytes.len(),
    ensures
        word_at(bytes, offset, 2, ElfData::Little) == bytes[offset] + 256 * bytes[offset + 1],
        word_at(bytes, offset, 2, ElfData::Big) == 256 * bytes[offset] + bytes[offset + 1],
{
    let own = bytes.subrange(offset, offset + 2);
    lemma_le2(own);
    lemma_le2(own.reverse());
}

/// A word of four bytes counts its bytes by their places.
pub proof fn words_are_positional(bytes: Seq<u8>, offset: int)
    requires
        0 <= offset,
        offset + 4 <= bytes.len(),
    ensures
        word_at(bytes, offset, 4, ElfData::Little) == bytes[offset] + 0x100 * bytes[offset + 1]
            + 0x1_0000 * bytes[offset + 2] + 0x100_0000 * bytes[offset + 3],
        word_at(bytes, offset, 4, ElfData::Big) == 0x100_0000 * bytes[offset] + 0x1_0000
            * bytes[offset + 1] + 0x100 * bytes[offset + 2] + bytes[offset + 3],
{
    let own = bytes.subrange(offset, offset + 4);
    lemma_le4(own);
    lemma_le4(own.reverse());
}

/// A word of eight bytes is made of two of four: in a little-endian word the first one
/// counts least, in a big-endian one the last.
pub proof fn long_words_are_positional(bytes: Seq<u8>, offset: int)
    requires
        0 <= offset,
        offset + 8 <= bytes.len(),
    ensures
        word_at(bytes, offset, 8, ElfData::Little) == word_at(bytes, offset, 4, ElfData::Little)
            + 0x1_0000_0000 * word_at(bytes, offset + 4, 4, ElfData::Little),
        word_at(bytes, offset, 8, ElfData::Big) == 0x1_0000_0000 * word_at(
            bytes,
            offset,
            4,
            ElfData::Big,
        ) + word_at(bytes, offset + 4, 4, ElfData::Big),
{
    let own = bytes.subrange(offset, offset + 8);
    let first = bytes.subrange(offset, offset + 4);
    let second = bytes.subrange(offset + 4, offset + 8);
    assert(own =~= first + second);
    lemma_le_append(first, second);
    assert(own.reverse() =~= second.reverse() + first.reverse());
    lemma_le_append(second.reverse(), first.reverse());
}

/// A word is less than the number of words of its size.
pub proof fn lemma_word_bounds(bytes: Seq<u8>, offset: int, endian: ElfData)
    requires
        0 <= offset,
        offset + 4 <= bytes.len(),
    ensures
        word_at(bytes, offset, 4, endian) < 0x1_0000_0000,
        offset + 8 <= bytes.len() ==> word_at(bytes, offset, 8, endian) < 0x1_0000_0000_0000_0000,
{
    words_are_positional(bytes, offset);
    if offset + 8 <= bytes.len() {
        long_words_are_positional(bytes, offset);
        words_are_positional(bytes, offset + 4);
    }
}

/// Of two byte strings the one with the smaller byte where they first differ comes first, and
/// a string comes before every longer one that starts with it.
pub proof fn byte_order_is_told_by_the_first_difference(a: Seq<u8>, b: Seq<u8>, n: int)
    requires
        0 <= n <= a.len(),
        n <= b.len(),
        forall|i: int| 0 <= i < n ==> a[i] == b[i],
    ensures
        n < a.len() && n < b.len() && a[n] < b[n] ==> bytes_before(a, b) && !bytes_before(b, a),
        n == a.len() && n < b.len() ==> bytes_before(a, b) && !bytes_before(b, a),
        n == a.len() && n == b.len() ==> !bytes_before(a, b),
{
    lemma_before_same_prefix(a, b, n as nat);
    lemma_before_same_prefix(b, a, n as nat);
    if n < a.len() {
        assert(a.skip(n)[0] == a[n]);
    }
    if n < b.len() {
        assert(b.skip(n)[0] == b[n]);
    }
}

} // verus!
