//! Reading sample images that are written as hexadecimal text.

use crate::bytes::copy_range;
use vstd::prelude::*;

verus! {

/// Whether a byte is a hexadecimal digit.
pub open spec fn is_hex(value: u8) -> bool {
    0x30 <= value <= 0x39 || 0x41 <= value <= 0x46 || 0x61 <= value <= 0x66
}

/// The value of a hexadecimal digit, and 0 of any other byte.
pub open spec fn hex_value(value: u8) -> u8 {
    if 0x30 <= value <= 0x39 {
        (value - 0x30) as u8
    } else if 0x61 <= value <= 0x66 {
        (value - 0x61 + 10) as u8
    } else if 0x41 <= value <= 0x46 {
        (value - 0x41 + 10) as u8
    } else {
        0
    }
}

/// The value of a hexadecimal digit, and 0 of any other byte.
pub fn hex_digit(value: u8) -> (r: u8)
    ensures
        r == hex_value(value),
        r < 16,
{
    if 0x30 <= value && value <= 0x39 {
        value - 0x30
    } else if 0x61 <= value && value <= 0x66 {
        value - 0x61 + 10
    } else if 0x41 <= value && value <= 0x46 {
        value - 0x41 + 10
    } else {
        0
    }
}

/// `input` without `last` at its end.
pub open spec fn without_suffix(input: Seq<u8>, last: u8) -> Seq<u8> {
    if input.len() > 0 && input.last() == last {
        input.drop_last()
    } else {
        input
    }
}

/// `input` without its line end.
pub open spec fn trimmed(input: Seq<u8>) -> Seq<u8> {
    without_suffix(without_suffix(input, 0x0a), 0x0d)
}

/// Whether text stands for bytes.
pub open spec fn is_hex_text(text: Seq<u8>) -> bool {
    text.len() % 2 == 0 && forall|i: int| 0 <= i < text.len() ==> is_hex(#[trigger] text[i])
}

/// The bytes that a sample stands for: those that its digits spell, two for each
/// byte, or its own where it is no hexadecimal text.
pub open spec fn decoded(input: Seq<u8>) -> Seq<u8> {
    let text = trimmed(input);
    if is_hex_text(text) {
        Seq::new(
            text.len() / 2,
            |i: int| (16 * hex_value(text[2 * i]) + hex_value(text[2 * i + 1])) as u8,
        )
    } else {
        text
    }
}

/// The bytes that a sample stands for.
pub fn decode_hex_corpus(input: &[u8]) -> (r: Vec<u8>)
    ensures
        r@ == decoded(input@),
{
    let mut len: usize = input.len();
    if len > 0 && input[len - 1] == 0x0a {
        len = len - 1;
    }
    assert(input@.subrange(0, len as int) =~= without_suffix(input@, 0x0a));
    let ghost line = without_suffix(input@, 0x0a);
    if len > 0 && input[len - 1] == 0x0d {
        len = len - 1;
    }
    let ghost text = trimmed(input@);
    assert(input@.subrange(0, len as int) =~= text);
    let mut hex: bool = len % 2 == 0;
    let mut index: usize = 0;
    while index < len
        invariant
            index <= len <= input@.len(),
            text == input@.subrange(0, len as int),
            hex == (len % 2 == 0 && forall|i: int| 0 <= i < index ==> is_hex(#[trigger] text[i])),
        decreases len - index,
    {
        let value: u8 = input[index];
        assert(text[index as int] == value);
        let digit: bool = (0x30 <= value && value <= 0x39) || (0x41 <= value && value <= 0x46)
            || (0x61 <= value && value <= 0x66);
        hex = hex && digit;
        index = index + 1;
    }
    if !hex {
        return copy_range(input, 0, len);
    }
    assert(is_hex_text(text));
    let ghost whole = decoded(input@);
    let mut out: Vec<u8> = Vec::new();
    let mut at: usize = 0;
    assert(out@ =~= whole.subrange(0, 0));
    while at < len
        invariant
            at <= len <= input@.len(),
            at % 2 == 0,
            len % 2 == 0,
            text == input@.subrange(0, len as int),
            text == trimmed(input@),
            is_hex_text(text),
            whole == decoded(input@),
            out@ == whole.subrange(0, at as int / 2),
        decreases len - at,
    {
        let high: u8 = hex_digit(input[at]);
        let low: u8 = hex_digit(input[at + 1]);
        let ghost i = at as int / 2;
        assert(text[2 * i] == input@[at as int] && text[2 * i + 1] == input@[at + 1]);
        out.push(16 * high + low);
        assert(whole[i] == 16 * high + low);
        assert(out@ =~= whole.subrange(0, i + 1));
        at = at + 2;
    }
    assert(whole.subrange(0, at as int / 2) =~= whole);
    out
}

/// Two digits for each byte.
pub open spec fn encoded(bytes: Seq<u8>) -> Seq<u8> {
    Seq::new(
        2 * bytes.len(),
        |i: int|
            {
                let digit: u8 = if i % 2 == 0 {
                    bytes[i / 2] / 16
                } else {
                    (bytes[i / 2] % 16) as u8
                };
                if digit < 10 {
                    (0x30 + digit) as u8
                } else {
                    (0x61 + digit - 10) as u8
                }
            },
    )
}

/// Bytes that are written as digits are read back.
pub proof fn digits_read_back(bytes: Seq<u8>)
    ensures
        decoded(encoded(bytes)) == bytes,
{
    let text = encoded(bytes);
    if text.len() > 0 {
        assert(is_hex(text[text.len() - 1]));
    }
    assert(trimmed(text) == text);
    assert(is_hex_text(text));
    assert forall|i: int| 0 <= i < bytes.len() implies #[trigger] decoded(text)[i] == bytes[i] by {
        assert((2 * i) / 2 == i && (2 * i) % 2 == 0 && (2 * i + 1) / 2 == i && (2 * i + 1) % 2
            == 1);
        assert(hex_value(text[2 * i]) == bytes[i] / 16);
        assert(hex_value(text[2 * i + 1]) == bytes[i] % 16);
    }
    assert(decoded(text) =~= bytes);
}

} // verus!
