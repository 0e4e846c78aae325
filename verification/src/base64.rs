//! Base64 encoding and decoding with the standard alphabet and `=` padding (RFC 4648).

use vstd::prelude::*;
use crate::text::{chars_of, push_char};

verus! {

// ---------------------------------------------------------------------------
// The alphabet
// ---------------------------------------------------------------------------

/// The symbol for a 6-bit value: `A`-`Z`, `a`-`z`, `0`-`9`, `+`, `/`.
pub open spec fn b64_symbol(v: int) -> char {
    if v < 26 {
        (65 + v) as char
    } else if v < 52 {
        (97 + (v - 26)) as char
    } else if v < 62 {
        (48 + (v - 52)) as char
    } else if v == 62 {
        '+'
    } else {
        '/'
    }
}

/// The 6-bit value of an alphabet symbol, or `None` for any other character.
pub open spec fn symbol_value(c: char) -> Option<int> {
    if 'A' <= c && c <= 'Z' {
        Some(c as int - 65)
    } else if 'a' <= c && c <= 'z' {
        Some(c as int - 97 + 26)
    } else if '0' <= c && c <= '9' {
        Some(c as int - 48 + 52)
    } else if c == '+' {
        Some(62)
    } else if c == '/' {
        Some(63)
    } else {
        None
    }
}

/// A character that the decoder accepts: an alphabet symbol or the padding `=`.
pub open spec fn is_base64_char(c: char) -> bool {
    c == '=' || symbol_value(c) is Some
}

// ---------------------------------------------------------------------------
// Encoding
// ---------------------------------------------------------------------------

/// The four characters that encode a group of one to three bytes; missing bytes count as
/// zero, and the characters that stand only for missing bytes are `=`.
pub open spec fn encode_group(g: Seq<u8>) -> Seq<char> {
    let b0 = g[0] as int;
    let b1 = if g.len() > 1 { g[1] as int } else { 0 };
    let b2 = if g.len() > 2 { g[2] as int } else { 0 };
    seq![
        b64_symbol(b0 / 4),
        b64_symbol((b0 % 4) * 16 + b1 / 16),
        if g.len() > 1 { b64_symbol((b1 % 16) * 4 + b2 / 64) } else { '=' },
        if g.len() > 2 { b64_symbol(b2 % 64) } else { '=' },
    ]
}

/// The Base64 encoding of a byte sequence, three bytes to four characters.
pub open spec fn base64_encode_spec(data: Seq<u8>) -> Seq<char>
    decreases data.len(),
{
    if data.len() == 0 {
        seq![]
    } else if data.len() <= 3 {
        encode_group(data)
    } else {
        encode_group(data.take(3)) + base64_encode_spec(data.skip(3))
    }
}

fn symbol(v: u32) -> (c: char)
    requires
        v < 64,
    ensures
        c == b64_symbol(v as int),
{
    let v = v as u8;
    if v < 26 {
        (65u8 + v) as char
    } else if v < 52 {
        (97u8 + (v - 26)) as char
    } else if v < 62 {
        (48u8 + (v - 52)) as char
    } else if v == 62 {
        '+'
    } else {
        '/'
    }
}

proof fn lemma_sextets(b0: u8, b1: u8, b2: u8)
    ensures
        ({
            let buf = ((b0 as u32) << 16u32) | ((b1 as u32) << 8u32) | (b2 as u32);
            &&& (buf >> 18u32) & 0x3fu32 == b0 / 4
            &&& (buf >> 12u32) & 0x3fu32 == (b0 % 4) * 16 + b1 / 16
            &&& (buf >> 6u32) & 0x3fu32 == (b1 % 16) * 4 + b2 / 64
            &&& buf & 0x3fu32 == b2 % 64
        }),
{
    assert(((((b0 as u32) << 16u32) | ((b1 as u32) << 8u32) | (b2 as u32)) >> 18u32) & 0x3fu32
        == (b0 as u32) / 4) by (bit_vector);
    assert(((((b0 as u32) << 16u32) | ((b1 as u32) << 8u32) | (b2 as u32)) >> 12u32) & 0x3fu32
        == ((b0 as u32) % 4) * 16 + (b1 as u32) / 16) by (bit_vector);
    assert(((((b0 as u32) << 16u32) | ((b1 as u32) << 8u32) | (b2 as u32)) >> 6u32) & 0x3fu32
        == ((b1 as u32) % 16) * 4 + (b2 as u32) / 64) by (bit_vector);
    assert((((b0 as u32) << 16u32) | ((b1 as u32) << 8u32) | (b2 as u32)) & 0x3fu32 == (b2 as u32)
        % 64) by (bit_vector);
}

/// Encodes bytes as Base64, with `=` padding on the last group.
pub fn base64_encode(input: &[u8]) -> (result: String)
    ensures
        result@ == base64_encode_spec(input@),
{
    let mut result = String::new();
    let len = input.len();
    let mut i: usize = 0;
    assert(input@.skip(0) =~= input@);
    while i < len
        invariant
            len == input@.len(),
            i <= len,
            base64_encode_spec(input@) =~= result@ + base64_encode_spec(input@.skip(i as int)),
        decreases len - i,
    {
        let n = if len - i < 3 { len - i } else { 3 };
        let b0 = input[i];
        let b1 = if n > 1 { input[i + 1] } else { 0 };
        let b2 = if n > 2 { input[i + 2] } else { 0 };

        let mut buf: u32 = 0;
        buf |= (b0 as u32) << 16;
        buf |= (b1 as u32) << 8;
        buf |= b2 as u32;
        proof {
            assert(0u32 | ((b0 as u32) << 16u32) == ((b0 as u32) << 16u32)) by (bit_vector);
            lemma_sextets(b0, b1, b2);
        }

        let indices = [(buf >> 18) & 0x3F, (buf >> 12) & 0x3F, (buf >> 6) & 0x3F, buf & 0x3F];

        let ghost rest = input@.skip(i as int);
        let ghost group = if rest.len() <= 3 { rest } else { rest.take(3) };
        assert(group =~= input@.subrange(i as int, i + n));
        assert(group.len() == n);

        push_char(&mut result, symbol(indices[0]));
        push_char(&mut result, symbol(indices[1]));
        if n > 1 {
            push_char(&mut result, symbol(indices[2]));
        } else {
            push_char(&mut result, '=');
        }
        if n > 2 {
            push_char(&mut result, symbol(indices[3]));
        } else {
            push_char(&mut result, '=');
        }
        assert(result@.skip(result@.len() - 4) =~= encode_group(group));

        if len - i <= 3 {
            assert(input@.skip(len as int) =~= Seq::<u8>::empty());
        } else {
            assert(rest.skip(3) =~= input@.skip(i + 3));
        }
        i = i + n;
    }
    assert(input@.skip(len as int) =~= Seq::<u8>::empty());
    result
}

// ---------------------------------------------------------------------------
// Decoding
// ---------------------------------------------------------------------------

/// Whether position `k` of a group holds the padding `=`.
pub open spec fn is_pad_at(g: Seq<char>, k: int) -> bool {
    k < g.len() && g[k] == '='
}

/// The 6-bit value that position `k` of a group contributes: the symbol's value, and zero
/// for `=` and for the positions past the end of a short group.
pub open spec fn group_value(g: Seq<char>, k: int) -> int {
    if k < g.len() && g[k] != '=' {
        match symbol_value(g[k]) {
            Some(v) => v,
            None => 0,
        }
    } else {
        0
    }
}

/// The number of `=` among the (at most four) characters of a group.
pub open spec fn pad_count(g: Seq<char>) -> int {
    (if is_pad_at(g, 0) { 1int } else { 0int }) + (if is_pad_at(g, 1) { 1int } else { 0int }) + (
    if is_pad_at(g, 2) { 1int } else { 0int }) + (if is_pad_at(g, 3) { 1int } else { 0int })
}

/// The bytes decoded from a group of up to four characters: the four 6-bit values form a
/// 24-bit number whose three bytes are kept, less one byte for each `=` in the group.
pub open spec fn decode_group(g: Seq<char>) -> Seq<u8> {
    let buf = group_value(g, 0) * 0x40000 + group_value(g, 1) * 0x1000 + group_value(g, 2) * 0x40
        + group_value(g, 3);
    let bytes = seq![(buf / 0x1_0000) as u8, ((buf / 0x100) % 0x100) as u8, (buf % 0x100) as u8];
    let n = 3 - pad_count(g);
    if n <= 0 {
        seq![]
    } else {
        bytes.take(n)
    }
}

/// The bytes decoded from a character sequence, group by group of four characters (the
/// last group may be shorter).
pub open spec fn decode_groups(cs: Seq<char>) -> Seq<u8>
    decreases cs.len(),
{
    if cs.len() == 0 {
        seq![]
    } else if cs.len() <= 4 {
        decode_group(cs)
    } else {
        decode_group(cs.take(4)) + decode_groups(cs.skip(4))
    }
}

/// The first character that is neither an alphabet symbol nor `=`, if any.
pub open spec fn first_invalid(cs: Seq<char>) -> Option<char>
    decreases cs.len(),
{
    if cs.len() == 0 {
        None
    } else if !is_base64_char(cs[0]) {
        Some(cs[0])
    } else {
        first_invalid(cs.drop_first())
    }
}

/// The message reported for a character outside the Base64 alphabet.
pub open spec fn invalid_char_message(c: char) -> Seq<char> {
    "Caractere inválido encontrado: "@ + seq![c]
}

/// What decoding a character sequence gives: the decoded bytes, or the message naming the
/// first character that is neither an alphabet symbol nor `=`.
pub open spec fn base64_decode_spec(cs: Seq<char>) -> Result<Seq<u8>, Seq<char>> {
    match first_invalid(cs) {
        Some(c) => Err(invalid_char_message(c)),
        None => Ok(decode_groups(cs)),
    }
}

/// A decoding result, with the bytes and the message taken by their views.
pub open spec fn decoded_view(r: Result<Vec<u8>, String>) -> Result<Seq<u8>, Seq<char>> {
    match r {
        Ok(v) => Ok(v@),
        Err(e) => Err(e@),
    }
}

fn symbol_index(c: char) -> (r: Option<u32>)
    ensures
        match symbol_value(c) {
            Some(v) => r == Some(v as u32),
            None => r is None,
        },
{
    if 'A' <= c && c <= 'Z' {
        Some((c as u32) - 65)
    } else if 'a' <= c && c <= 'z' {
        Some((c as u32) - 97 + 26)
    } else if '0' <= c && c <= '9' {
        Some((c as u32) - 48 + 52)
    } else if c == '+' {
        Some(62)
    } else if c == '/' {
        Some(63)
    } else {
        None
    }
}

/// The 24-bit value accumulated from the first `k` group indices (-1 marks `=`).
spec fn acc_buf(ix: Seq<i32>, k: int) -> int
    decreases k,
{
    if k <= 0 {
        0
    } else {
        acc_buf(ix, k - 1) * 64 + (if ix[k - 1] >= 0 { ix[k - 1] as int } else { 0 })
    }
}

/// The number of `=` marks among the first `k` group indices.
spec fn acc_pads(ix: Seq<i32>, k: int) -> int
    decreases k,
{
    if k <= 0 {
        0
    } else {
        acc_pads(ix, k - 1) + (if ix[k - 1] < 0 { 1int } else { 0int })
    }
}

/// The index recorded for position `k` of a group: the symbol value, -1 for `=`, and 0 past
/// the end of a short group.
spec fn group_index(g: Seq<char>, k: int) -> i32 {
    if k < g.len() {
        if g[k] == '=' {
            -1i32
        } else {
            match symbol_value(g[k]) {
                Some(v) => v as i32,
                None => 0,
            }
        }
    } else {
        0
    }
}

proof fn lemma_shift_in(buf: u32, v: u32)
    requires
        buf < 0x40000,
        v < 64,
    ensures
        (buf << 6u32) | v == buf * 64 + v,
        buf << 6u32 == buf * 64,
{
    assert((buf << 6u32) | v == buf * 64 + v) by (bit_vector)
        requires
            buf < 0x40000u32,
            v < 64u32,
    ;
    assert(buf << 6u32 == buf * 64) by (bit_vector)
        requires
            buf < 0x40000u32,
    ;
}

proof fn lemma_out_bytes(buf: u32)
    requires
        buf < 0x100_0000,
    ensures
        ((buf >> 16u32) & 0xffu32) as u8 == (buf / 0x1_0000) as u8,
        ((buf >> 8u32) & 0xffu32) as u8 == ((buf / 0x100) % 0x100) as u8,
        (buf & 0xffu32) as u8 == (buf % 0x100) as u8,
{
    assert((buf >> 16u32) & 0xffu32 == buf / 0x1_0000u32) by (bit_vector)
        requires
            buf < 0x100_0000u32,
    ;
    assert((buf >> 8u32) & 0xffu32 == (buf / 0x100u32) % 0x100u32) by (bit_vector);
    assert(buf & 0xffu32 == buf % 0x100u32) by (bit_vector);
}

proof fn lemma_group_from_indices(g: Seq<char>, ix: Seq<i32>)
    requires
        1 <= g.len() <= 4,
        ix.len() == 4,
        forall|k: int| 0 <= k < g.len() ==> is_base64_char(#[trigger] g[k]),
        forall|k: int| 0 <= k < 4 ==> #[trigger] ix[k] == group_index(g, k),
    ensures
        acc_buf(ix, 4) == group_value(g, 0) * 0x40000 + group_value(g, 1) * 0x1000 + group_value(g, 2)
            * 0x40 + group_value(g, 3),
        acc_pads(ix, 4) == pad_count(g),
{
    reveal_with_fuel(acc_buf, 5);
    reveal_with_fuel(acc_pads, 5);
}

proof fn lemma_first_invalid_at(cs: Seq<char>, p: int)
    requires
        0 <= p < cs.len(),
        forall|k: int| 0 <= k < p ==> is_base64_char(#[trigger] cs[k]),
        !is_base64_char(cs[p]),
    ensures
        first_invalid(cs) == Some(cs[p]),
    decreases p,
{
    if p > 0 {
        lemma_first_invalid_at(cs.drop_first(), p - 1);
    }
}

proof fn lemma_first_invalid_none(cs: Seq<char>)
    requires
        forall|k: int| 0 <= k < cs.len() ==> is_base64_char(#[trigger] cs[k]),
    ensures
        first_invalid(cs) is None,
    decreases cs.len(),
{
    if cs.len() > 0 {
        lemma_first_invalid_none(cs.drop_first());
    }
}

/// Decodes a sequence of Base64 characters.
pub fn decode_chars(cs: &[char]) -> (res: Result<Vec<u8>, String>)
    ensures
        decoded_view(res) == base64_decode_spec(cs@),
{
    let n = cs.len();
    let mut bytes: Vec<u8> = Vec::new();
    let mut i: usize = 0;
    assert(cs@.skip(0) =~= cs@);
    while i < n
        invariant
            n == cs@.len(),
            i <= n,
            forall|k: int| 0 <= k < i ==> is_base64_char(#[trigger] cs@[k]),
            decode_groups(cs@) == bytes@ + decode_groups(cs@.skip(i as int)),
        decreases n - i,
    {
        let m = if n - i < 4 { n - i } else { 4 };
        let ghost g = cs@.subrange(i as int, i + m);
        let mut indices: [i32; 4] = [0, 0, 0, 0];
        for k in 0..m
            invariant
                n == cs@.len(),
                i + m <= n,
                m <= 4,
                g == cs@.subrange(i as int, i + m),
                forall|q: int| 0 <= q < i + k ==> is_base64_char(#[trigger] cs@[q]),
                forall|q: int| 0 <= q < k ==> #[trigger] indices@[q] == group_index(g, q),
                forall|q: int| k <= q < 4 ==> #[trigger] indices@[q] == 0,
        {
            let ch = cs[i + k];
            if ch == '=' {
                indices[k] = -1;
            } else {
                match symbol_index(ch) {
                    Some(pos) => {
                        indices[k] = pos as i32;
                    },
                    None => {
                        proof {
                            lemma_first_invalid_at(cs@, (i + k) as int);
                        }
                        let mut msg = "Caractere inválido encontrado: ".to_owned();
                        push_char(&mut msg, ch);
                        assert(msg@ =~= invalid_char_message(ch));
                        return Err(msg);
                    },
                }
            }
        }

        let mut buf: u32 = 0;
        let mut bytes_to_add: i32 = 3;
        for k in 0..4
            invariant
                forall|q: int| 0 <= q < 4 ==> #[trigger] indices@[q] >= -1 && indices@[q] < 64,
                buf == acc_buf(indices@, k as int),
                buf < shift_bound(k as int),
                0 <= acc_pads(indices@, k as int) <= k,
                bytes_to_add == 3 - acc_pads(indices@, k as int),
        {
            proof {
                lemma_shift_in(buf, if indices@[k as int] >= 0 { indices@[k as int] as u32 } else { 0 });
            }
            if indices[k] >= 0 {
                buf = (buf << 6) | (indices[k] as u32);
            } else {
                buf <<= 6;
                bytes_to_add -= 1;
            }
        }
        proof {
            lemma_group_from_indices(g, indices@);
            lemma_out_bytes(buf);
        }

        let ghost before = bytes@;
        if bytes_to_add >= 1 {
            bytes.push(((buf >> 16) & 0xFF) as u8);
        }
        if bytes_to_add >= 2 {
            bytes.push(((buf >> 8) & 0xFF) as u8);
        }
        if bytes_to_add >= 3 {
            bytes.push((buf & 0xFF) as u8);
        }
        assert(bytes@ =~= before + decode_group(g));
        let ghost rest = cs@.skip(i as int);
        if n - i <= 4 {
            assert(rest =~= g);
            assert(cs@.skip(i + m) =~= Seq::<char>::empty());
        } else {
            assert(rest.take(4) =~= g);
            assert(rest.skip(4) =~= cs@.skip(i + m));
        }
        i = i + m;
    }
    proof {
        lemma_first_invalid_none(cs@);
    }
    assert(cs@.skip(n as int) =~= Seq::<char>::empty());
    Ok(bytes)
}

/// 64 to the power `k`, for `k` up to 4.
spec fn shift_bound(k: int) -> int {
    if k <= 0 {
        1
    } else if k == 1 {
        0x40
    } else if k == 2 {
        0x1000
    } else if k == 3 {
        0x40000
    } else {
        0x100_0000
    }
}

/// Decodes a Base64 string; fails on the first character that is neither an alphabet
/// symbol nor `=`.
pub fn base64_decode(encoded: &str) -> (res: Result<Vec<u8>, String>)
    ensures
        decoded_view(res) == base64_decode_spec(encoded@),
{
    let encoded_chars = chars_of(encoded);
    decode_chars(encoded_chars.as_slice())
}

// ---------------------------------------------------------------------------
// Laws
// ---------------------------------------------------------------------------

proof fn lemma_symbol_roundtrip(v: int)
    requires
        0 <= v < 64,
    ensures
        symbol_value(b64_symbol(v)) == Some(v),
        b64_symbol(v) != '=',
{
}

proof fn lemma_bytes_roundtrip(b0: u8, b1: u8, b2: u8)
    ensures
        ({
            let buf = (b0 as int / 4) * 0x40000 + ((b0 as int % 4) * 16 + b1 as int / 16) * 0x1000 + ((
            b1 as int % 16) * 4 + b2 as int / 64) * 0x40 + b2 as int % 64;
            &&& buf / 0x1_0000 == b0 as int
            &&& (buf / 0x100) % 0x100 == b1 as int
            &&& buf % 0x100 == b2 as int
        }),
{
    let x0 = b0 as u32;
    let x1 = b1 as u32;
    let x2 = b2 as u32;
    assert(((x0 / 4) * 0x40000 + ((x0 % 4) * 16 + x1 / 16) * 0x1000 + ((x1 % 16) * 4 + x2 / 64) * 0x40
        + x2 % 64) / 0x1_0000 == x0 && (((x0 / 4) * 0x40000 + ((x0 % 4) * 16 + x1 / 16) * 0x1000 + ((
    x1 % 16) * 4 + x2 / 64) * 0x40 + x2 % 64) / 0x100) % 0x100 == x1 && ((x0 / 4) * 0x40000 + ((x0
        % 4) * 16 + x1 / 16) * 0x1000 + ((x1 % 16) * 4 + x2 / 64) * 0x40 + x2 % 64) % 0x100 == x2)
        by (bit_vector)
        requires
            x0 < 256,
            x1 < 256,
            x2 < 256,
    ;
}

proof fn lemma_group_roundtrip(g: Seq<u8>)
    requires
        1 <= g.len() <= 3,
    ensures
        encode_group(g).len() == 4,
        forall|k: int| 0 <= k < 4 ==> is_base64_char(#[trigger] encode_group(g)[k]),
        decode_group(encode_group(g)) == g,
{
    let e = encode_group(g);
    let b0 = g[0];
    let b1: u8 = if g.len() > 1 { g[1] } else { 0 };
    let b2: u8 = if g.len() > 2 { g[2] } else { 0 };
    let s0 = b0 as int / 4;
    let s1 = (b0 as int % 4) * 16 + b1 as int / 16;
    let s2 = (b1 as int % 16) * 4 + b2 as int / 64;
    let s3 = b2 as int % 64;
    lemma_symbol_roundtrip(s0);
    lemma_symbol_roundtrip(s1);
    lemma_symbol_roundtrip(s2);
    lemma_symbol_roundtrip(s3);
    lemma_bytes_roundtrip(b0, b1, b2);
    assert(group_value(e, 0) == s0);
    assert(group_value(e, 1) == s1);
    if g.len() == 1 {
        assert(pad_count(e) == 2);
        assert(b1 == 0 && b2 == 0);
    } else if g.len() == 2 {
        assert(group_value(e, 2) == s2);
        assert(pad_count(e) == 1);
        assert(b2 == 0);
    } else {
        assert(group_value(e, 2) == s2);
        assert(group_value(e, 3) == s3);
        assert(pad_count(e) == 0);
    }
    assert(decode_group(e) =~= g);
}

/// Every character of a Base64 encoding is an alphabet symbol or `=`, and an encoding has
/// four characters for every started group of three bytes.
pub proof fn lemma_base64_encode_shape(data: Seq<u8>)
    ensures
        base64_encode_spec(data).len() == 4 * ((data.len() + 2) / 3),
        forall|k: int|
            0 <= k < base64_encode_spec(data).len() ==> is_base64_char(
                #[trigger] base64_encode_spec(data)[k],
            ),
    decreases data.len(),
{
    if data.len() == 0 {
    } else if data.len() <= 3 {
        lemma_group_roundtrip(data);
    } else {
        let g = data.take(3);
        let rest = data.skip(3);
        lemma_group_roundtrip(g);
        lemma_base64_encode_shape(rest);
        let e = base64_encode_spec(data);
        assert(e == encode_group(g) + base64_encode_spec(rest));
        assert forall|k: int| 0 <= k < e.len() implies is_base64_char(#[trigger] e[k]) by {
            if k < 4 {
                assert(e[k] == encode_group(g)[k]);
            } else {
                assert(e[k] == base64_encode_spec(rest)[k - 4]);
            }
        }
    }
}

/// Decoding gives back what was encoded: for every byte sequence, decoding its Base64
/// encoding succeeds with exactly those bytes.
pub proof fn lemma_base64_roundtrip(data: Seq<u8>)
    ensures
        base64_decode_spec(base64_encode_spec(data)) == Ok::<Seq<u8>, Seq<char>>(data),
{
    lemma_base64_encode_shape(data);
    lemma_first_invalid_none(base64_encode_spec(data));
    lemma_decode_groups_encode(data);
}

proof fn lemma_decode_groups_encode(data: Seq<u8>)
    ensures
        decode_groups(base64_encode_spec(data)) == data,
    decreases data.len(),
{
    if data.len() == 0 {
    } else if data.len() <= 3 {
        lemma_group_roundtrip(data);
    } else {
        let g = data.take(3);
        let rest = data.skip(3);
        lemma_group_roundtrip(g);
        lemma_base64_encode_shape(rest);
        lemma_decode_groups_encode(rest);
        let e = base64_encode_spec(data);
        assert(e.take(4) =~= encode_group(g));
        assert(e.skip(4) =~= base64_encode_spec(rest));
        assert(data =~= g + rest);
    }
}

/// Decoding yields at most three bytes for every started group of four characters, and so
/// never more than two bytes beyond the number of characters.
pub proof fn lemma_decode_groups_len(cs: Seq<char>)
    ensures
        decode_groups(cs).len() <= cs.len() + 2,
    decreases cs.len(),
{
    if cs.len() > 4 {
        lemma_decode_groups_len(cs.skip(4));
    }
}

/// The Base64 alphabet, in the order of the 6-bit values it stands for.
pub open spec fn base64_alphabet() -> Seq<char> {
    "ABCDEFGHIJKLMNOPQRSTUVWXYZabcdefghijklmnopqrstuvwxyz0123456789+/"@
}

/// The symbol for each 6-bit value is the character at that place in the alphabet.
pub proof fn lemma_symbol_alphabet(v: int)
    requires
        0 <= v < 64,
    ensures
        base64_alphabet().len() == 64,
        b64_symbol(v) == base64_alphabet()[v],
{
    reveal_strlit("ABCDEFGHIJKLMNOPQRSTUVWXYZabcdefghijklmnopqrstuvwxyz0123456789+/");
}

/// Byte `k` of `data`, or zero past its end.
pub open spec fn byte_or_zero(data: Seq<u8>, k: int) -> int {
    if 0 <= k < data.len() {
        data[k] as int
    } else {
        0
    }
}

/// The 24-bit number that the `g`-th group of three bytes forms, most significant byte
/// first, with missing bytes as zero bits.
pub open spec fn group_number(data: Seq<u8>, g: int) -> int {
    byte_or_zero(data, 3 * g) * 0x1_0000 + byte_or_zero(data, 3 * g + 1) * 0x100 + byte_or_zero(
        data,
        3 * g + 2,
    )
}

proof fn lemma_group_number_sextets(b0: u8, b1: u8, b2: u8)
    ensures
        ({
            let n = b0 as int * 0x1_0000 + b1 as int * 0x100 + b2 as int;
            &&& n / 0x40000 == b0 as int / 4
            &&& (n / 0x1000) % 64 == (b0 as int % 4) * 16 + b1 as int / 16
            &&& (n / 64) % 64 == (b1 as int % 16) * 4 + b2 as int / 64
            &&& n % 64 == b2 as int % 64
        }),
{
    let x0 = b0 as u32;
    let x1 = b1 as u32;
    let x2 = b2 as u32;
    assert((x0 * 0x1_0000 + x1 * 0x100 + x2) / 0x40000 == x0 / 4 && ((x0 * 0x1_0000 + x1 * 0x100
        + x2) / 0x1000) % 64 == (x0 % 4) * 16 + x1 / 16 && ((x0 * 0x1_0000 + x1 * 0x100 + x2) / 64)
        % 64 == (x1 % 16) * 4 + x2 / 64 && (x0 * 0x1_0000 + x1 * 0x100 + x2) % 64 == x2 % 64)
        by (bit_vector)
        requires
            x0 < 256,
            x1 < 256,
            x2 < 256,
    ;
}

proof fn lemma_encode_at(data: Seq<u8>, g: int)
    requires
        0 <= g < (data.len() + 2) / 3,
    ensures
        4 * g + 4 <= base64_encode_spec(data).len(),
        base64_encode_spec(data).subrange(4 * g, 4 * g + 4) == encode_group(
            data.subrange(3 * g, if 3 * g + 3 <= data.len() { 3 * g + 3 } else { data.len() as int }),
        ),
    decreases g,
{
    lemma_base64_encode_shape(data);
    let enc = base64_encode_spec(data);
    if data.len() <= 3 {
        assert(g == 0);
        assert(data.subrange(0, data.len() as int) =~= data);
        assert(enc.subrange(0, 4) =~= enc);
    } else {
        let rest = data.skip(3);
        lemma_group_roundtrip(data.take(3));
        assert(enc == encode_group(data.take(3)) + base64_encode_spec(rest));
        if g == 0 {
            assert(enc.subrange(0, 4) =~= encode_group(data.take(3)));
            assert(data.subrange(0, 3) =~= data.take(3));
        } else {
            lemma_encode_at(rest, g - 1);
            assert(enc.subrange(4 * g, 4 * g + 4) =~= base64_encode_spec(rest).subrange(
                4 * (g - 1),
                4 * (g - 1) + 4,
            ));
            let hi = if 3 * g + 3 <= data.len() { 3 * g + 3 } else { data.len() as int };
            assert(rest.subrange(3 * (g - 1), hi - 3) =~= data.subrange(3 * g, hi));
        }
    }
}

/// Base64 per RFC 4648: an encoding has four characters for every started group of three
/// bytes. The `g`-th group's bytes, with missing bytes as zero bits, form a 24-bit number
/// whose four 6-bit parts, most significant first, select characters of the alphabet; the
/// third and fourth characters are `=` where the group has no second or third byte.
pub proof fn lemma_base64_encode_groups(data: Seq<u8>)
    ensures
        base64_encode_spec(data).len() == 4 * ((data.len() + 2) / 3),
        forall|g: int|
            0 <= g < (data.len() + 2) / 3 ==> {
                let e = base64_encode_spec(data);
                let n = #[trigger] group_number(data, g);
                &&& e[4 * g] == base64_alphabet()[n / 0x40000]
                &&& e[4 * g + 1] == base64_alphabet()[(n / 0x1000) % 64]
                &&& e[4 * g + 2] == if 3 * g + 1 < data.len() {
                    base64_alphabet()[(n / 64) % 64]
                } else {
                    '='
                }
                &&& e[4 * g + 3] == if 3 * g + 2 < data.len() {
                    base64_alphabet()[n % 64]
                } else {
                    '='
                }
            },
{
    lemma_base64_encode_shape(data);
    assert forall|g: int| 0 <= g < (data.len() + 2) / 3 implies {
        let e = base64_encode_spec(data);
        let n = #[trigger] group_number(data, g);
        &&& e[4 * g] == base64_alphabet()[n / 0x40000]
        &&& e[4 * g + 1] == base64_alphabet()[(n / 0x1000) % 64]
        &&& e[4 * g + 2] == if 3 * g + 1 < data.len() {
            base64_alphabet()[(n / 64) % 64]
        } else {
            '='
        }
        &&& e[4 * g + 3] == if 3 * g + 2 < data.len() {
            base64_alphabet()[n % 64]
        } else {
            '='
        }
    } by {
        let e = base64_encode_spec(data);
        let hi = if 3 * g + 3 <= data.len() { 3 * g + 3 } else { data.len() as int };
        let grp = data.subrange(3 * g, hi);
        lemma_encode_at(data, g);
        let eg = encode_group(grp);
        assert(e[4 * g] == eg[0]);
        assert(e[4 * g + 1] == eg[1]);
        assert(e[4 * g + 2] == eg[2]);
        assert(e[4 * g + 3] == eg[3]);
        let b0 = data[3 * g];
        let b1: u8 = if 3 * g + 1 < data.len() { data[3 * g + 1] } else { 0 };
        let b2: u8 = if 3 * g + 2 < data.len() { data[3 * g + 2] } else { 0 };
        assert(grp[0] == b0);
        lemma_group_number_sextets(b0, b1, b2);
        let n = group_number(data, g);
        assert(n == b0 as int * 0x1_0000 + b1 as int * 0x100 + b2 as int);
        lemma_symbol_alphabet(b0 as int / 4);
        lemma_symbol_alphabet((b0 as int % 4) * 16 + b1 as int / 16);
        lemma_symbol_alphabet((b1 as int % 16) * 4 + b2 as int / 64);
        lemma_symbol_alphabet(b2 as int % 64);
    }
}

/// The value the decoder reads for a character is its place in the alphabet, and a
/// character outside the alphabet has none.
pub proof fn lemma_symbol_value_alphabet(c: char)
    ensures
        match symbol_value(c) {
            Some(v) => 0 <= v < 64 && base64_alphabet()[v] == c,
            None => forall|v: int| 0 <= v < 64 ==> base64_alphabet()[v] != c,
        },
{
    match symbol_value(c) {
        Some(v) => {
            lemma_symbol_alphabet(v);
            assert(b64_symbol(v) == c);
        },
        None => {
            assert forall|v: int| 0 <= v < 64 implies base64_alphabet()[v] != c by {
                lemma_symbol_alphabet(v);
                lemma_symbol_roundtrip(v);
            }
        },
    }
}

/// A character the decoder accepts: `=`, or a character of the alphabet.
pub open spec fn in_alphabet_or_pad(c: char) -> bool {
    c == '=' || exists|v: int| 0 <= v < 64 && base64_alphabet()[v] == c
}

proof fn lemma_accepted_char(c: char)
    ensures
        is_base64_char(c) == in_alphabet_or_pad(c),
{
    lemma_symbol_value_alphabet(c);
    if let Some(v) = symbol_value(c) {
        assert(0 <= v < 64 && base64_alphabet()[v] == c);
    }
}

/// Decoding fails exactly at the first character that is neither `=` nor in the alphabet,
/// with the message naming that character.
pub proof fn lemma_base64_decode_error(cs: Seq<char>, j: int)
    requires
        0 <= j < cs.len(),
        !in_alphabet_or_pad(cs[j]),
        forall|k: int| 0 <= k < j ==> in_alphabet_or_pad(#[trigger] cs[k]),
    ensures
        base64_decode_spec(cs) == Err::<Seq<u8>, Seq<char>>(
            "Caractere inválido encontrado: "@ + seq![cs[j]],
        ),
{
    lemma_accepted_char(cs[j]);
    assert forall|k: int| 0 <= k < j implies is_base64_char(#[trigger] cs[k]) by {
        lemma_accepted_char(cs[k]);
    }
    lemma_first_invalid_at(cs, j);
}

/// Decoding succeeds on every sequence of alphabet characters and `=`, with the bytes
/// decoded group by group of four characters.
pub proof fn lemma_base64_decode_ok(cs: Seq<char>)
    requires
        forall|k: int| 0 <= k < cs.len() ==> in_alphabet_or_pad(#[trigger] cs[k]),
    ensures
        base64_decode_spec(cs) == Ok::<Seq<u8>, Seq<char>>(decode_groups(cs)),
        cs.len() > 4 ==> decode_groups(cs) == decode_groups(cs.take(4)) + decode_groups(cs.skip(4)),
{
    assert forall|k: int| 0 <= k < cs.len() implies is_base64_char(#[trigger] cs[k]) by {
        lemma_accepted_char(cs[k]);
    }
    lemma_first_invalid_none(cs);
}

/// One group of up to four accepted characters: their alphabet places (`v0` .. `v3`, zero for
/// `=` and for missing characters) form a 24-bit number, most significant first, whose three
/// bytes are decoded, less one byte for each `=` in the group.
pub proof fn lemma_decode_group(g: Seq<char>, v0: int, v1: int, v2: int, v3: int)
    requires
        1 <= g.len() <= 4,
        forall|k: int| 0 <= k < g.len() ==> in_alphabet_or_pad(#[trigger] g[k]),
        0 <= v0 < 64 && 0 <= v1 < 64 && 0 <= v2 < 64 && 0 <= v3 < 64,
        if g[0] != '=' { base64_alphabet()[v0] == g[0] } else { v0 == 0 },
        if 1 < g.len() && g[1] != '=' { base64_alphabet()[v1] == g[1] } else { v1 == 0 },
        if 2 < g.len() && g[2] != '=' { base64_alphabet()[v2] == g[2] } else { v2 == 0 },
        if 3 < g.len() && g[3] != '=' { base64_alphabet()[v3] == g[3] } else { v3 == 0 },
    ensures
        ({
            let n = v0 * 0x40000 + v1 * 0x1000 + v2 * 0x40 + v3;
            let pads = (if g[0] == '=' { 1int } else { 0int }) + (if 1 < g.len() && g[1] == '=' {
                1int
            } else {
                0int
            }) + (if 2 < g.len() && g[2] == '=' { 1int } else { 0int }) + (if 3 < g.len() && g[3]
                == '=' {
                1int
            } else {
                0int
            });
            let bytes = seq![(n / 0x1_0000) as u8, ((n / 0x100) % 0x100) as u8, (n % 0x100) as u8];
            decode_group(g) == if pads >= 3 {
                Seq::<u8>::empty()
            } else {
                bytes.take(3 - pads)
            }
        }),
{
    if g[0] != '=' {
        lemma_group_value_at(g, 0, v0);
    }
    if 1 < g.len() && g[1] != '=' {
        lemma_group_value_at(g, 1, v1);
    }
    if 2 < g.len() && g[2] != '=' {
        lemma_group_value_at(g, 2, v2);
    }
    if 3 < g.len() && g[3] != '=' {
        lemma_group_value_at(g, 3, v3);
    }
}

proof fn lemma_group_value_at(g: Seq<char>, k: int, v: int)
    requires
        0 <= k < g.len(),
        g[k] != '=',
        0 <= v < 64,
        base64_alphabet()[v] == g[k],
    ensures
        group_value(g, k) == v,
{
    lemma_symbol_alphabet(v);
    lemma_symbol_roundtrip(v);
}

} // verus!
