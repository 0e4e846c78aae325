//! Lower-case hexadecimal rendering of bytes.

use vstd::prelude::*;
use crate::text::push_char;

verus! {

/// The lower-case hexadecimal digit of a value in 0..16.
pub open spec fn hex_digit(v: int) -> char {
    if v < 10 {
        (48 + v) as char
    } else {
        (87 + v) as char
    }
}

/// The lower-case hexadecimal rendering of bytes: two digits per byte, high nibble first.
pub open spec fn hex_of(bytes: Seq<u8>) -> Seq<char> {
    Seq::new(
        2 * bytes.len(),
        |i: int|
            if i % 2 == 0 {
                hex_digit(bytes[i / 2] as int / 16)
            } else {
                hex_digit(bytes[i / 2] as int % 16)
            },
    )
}

fn hex_digit_char(v: u8) -> (c: char)
    requires
        v < 16,
    ensures
        c == hex_digit(v as int),
{
    if v < 10 {
        (48u8 + v) as char
    } else {
        (97u8 + (v - 10)) as char
    }
}

/// Renders bytes as a lower-case hexadecimal string, two digits per byte.
pub fn bytes_to_hex_string(bytes: &[u8]) -> (s: String)
    ensures
        s@ == hex_of(bytes@),
{
    let mut s = String::new();
    for i in 0..bytes.len()
        invariant
            s@ =~= hex_of(bytes@.subrange(0, i as int)),
    {
        let b = bytes[i];
        push_char(&mut s, hex_digit_char(b / 16));
        push_char(&mut s, hex_digit_char(b % 16));
        assert(s@ =~= hex_of(bytes@.subrange(0, i + 1)));
    }
    assert(bytes@.subrange(0, bytes@.len() as int) =~= bytes@);
    s
}

/// The lower-case hexadecimal digits, in the order of the values they stand for.
pub open spec fn hex_alphabet() -> Seq<char> {
    "0123456789abcdef"@
}

/// Each byte is rendered as two digits of the alphabet `0123456789abcdef`: the digit of its
/// high four bits, then the digit of its low four bits.
pub proof fn lemma_hex_digits(bytes: Seq<u8>)
    ensures
        hex_of(bytes).len() == 2 * bytes.len(),
        forall|i: int|
            0 <= i < bytes.len() ==> {
                &&& hex_of(bytes)[2 * i] == hex_alphabet()[#[trigger] bytes[i] as int / 16]
                &&& hex_of(bytes)[2 * i + 1] == hex_alphabet()[bytes[i] as int % 16]
            },
{
    reveal_strlit("0123456789abcdef");
    assert forall|i: int| 0 <= i < bytes.len() implies {
        &&& hex_of(bytes)[2 * i] == hex_alphabet()[#[trigger] bytes[i] as int / 16]
        &&& hex_of(bytes)[2 * i + 1] == hex_alphabet()[bytes[i] as int % 16]
    } by {
        assert((2 * i) / 2 == i && (2 * i) % 2 == 0);
        assert((2 * i + 1) / 2 == i && (2 * i + 1) % 2 == 1);
    }
}

} // verus!
