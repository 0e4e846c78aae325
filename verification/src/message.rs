//! Authenticated messages: the Base64 of a text, a colon, and the hexadecimal SHA-256 of the
//! key followed by the text.

use vstd::prelude::*;
use vstd::utf8::*;
use crate::base64::{
    base64_decode_spec,
    base64_encode,
    base64_encode_spec,
    decode_chars,
    is_base64_char,
    lemma_base64_encode_shape,
    lemma_base64_roundtrip,
};
use crate::hex::{bytes_to_hex_string, hex_of};
use crate::sha256::{sha256, sha256_spec};
use crate::text::{chars_equal, chars_of, lemma_encode_utf8_concat, push_char, string_from_utf8};

verus! {

// ---------------------------------------------------------------------------
// The format
// ---------------------------------------------------------------------------

/// The authentication code of a text under a key: the lower-case hexadecimal SHA-256 of the
/// UTF-8 encoding of the key followed by the text.
pub open spec fn mac_hex(key: Seq<char>, text: Seq<char>) -> Seq<char> {
    hex_of(sha256_spec(encode_utf8(key + text)))
}

/// The authenticated message of a text: `base64(text):mac`.
pub open spec fn encode_message_spec(text: Seq<char>, key: Seq<char>) -> Seq<char> {
    base64_encode_spec(encode_utf8(text)) + seq![':'] + mac_hex(key, text)
}

/// The number of colons in a character sequence.
pub open spec fn colon_count(s: Seq<char>) -> nat
    decreases s.len(),
{
    if s.len() == 0 {
        0
    } else {
        colon_count(s.drop_last()) + if s.last() == ':' {
            1nat
        } else {
            0nat
        }
    }
}

/// The position of a colon (the only one, where there is exactly one).
pub open spec fn colon_position(s: Seq<char>) -> int {
    choose|p: int| 0 <= p < s.len() && s[p] == ':'
}

/// The message for input that is not made of exactly two parts around one colon.
pub open spec fn format_error() -> Seq<char> {
    "Formato inválido: A mensagem deve estar no formato 'conteudoBase64:hmacHex'"@
}

/// The prefix of the message for content that is not valid Base64.
pub open spec fn base64_error_prefix() -> Seq<char> {
    "Erro ao decodificar Base64: "@
}

/// The message for content whose bytes are not valid UTF-8.
pub open spec fn utf8_error() -> Seq<char> {
    "Erro ao converter bytes decodificados para UTF-8"@
}

/// The message for a text whose authentication code does not match.
pub open spec fn auth_error() -> Seq<char> {
    "Autenticação falhou: A mensagem pode ter sido adulterada"@
}

/// What checking and decoding an authenticated message under a key gives: the text, or the
/// message of the first check that fails (format, Base64, UTF-8, authentication code).
pub open spec fn decode_message_spec(m: Seq<char>, key: Seq<char>) -> Result<Seq<char>, Seq<char>> {
    if colon_count(m) != 1 {
        Err(format_error())
    } else {
        let p = colon_position(m);
        let content = m.take(p);
        let mac = m.skip(p + 1);
        match base64_decode_spec(content) {
            Err(e) => Err(base64_error_prefix() + e),
            Ok(bytes) => {
                if !valid_utf8(bytes) {
                    Err(utf8_error())
                } else {
                    let text = decode_utf8(bytes);
                    if mac_hex(key, text) != mac {
                        Err(auth_error())
                    } else {
                        Ok(text)
                    }
                }
            },
        }
    }
}

/// The number of bytes that checking a message hashes: the UTF-8 bytes of the key and of the
/// decoded text, for a message that gets as far as the authentication check; zero for one
/// that is refused before it.
pub open spec fn hashed_len(m: Seq<char>, key: Seq<char>) -> nat {
    if colon_count(m) != 1 {
        0
    } else {
        match base64_decode_spec(m.take(colon_position(m))) {
            Ok(bytes) => if valid_utf8(bytes) {
                encode_utf8(key).len() + bytes.len()
            } else {
                0
            },
            Err(_) => 0,
        }
    }
}

/// A string result taken by its view.
pub open spec fn string_result_view(r: Result<String, String>) -> Result<Seq<char>, Seq<char>> {
    match r {
        Ok(s) => Ok(s@),
        Err(e) => Err(e@),
    }
}

// ---------------------------------------------------------------------------
// Encoding and decoding
// ---------------------------------------------------------------------------

fn concat_bytes(a: &[u8], b: &[u8]) -> (r: Vec<u8>)
    ensures
        r@ == a@ + b@,
{
    let mut r: Vec<u8> = Vec::new();
    for i in 0..a.len()
        invariant
            r@ =~= a@.take(i as int),
    {
        r.push(a[i]);
    }
    assert(a@.take(a@.len() as int) =~= a@);
    for i in 0..b.len()
        invariant
            r@ =~= a@ + b@.take(i as int),
    {
        r.push(b[i]);
    }
    assert(b@.take(b@.len() as int) =~= b@);
    r
}

/// Encodes a text as an authenticated message: the Base64 of its UTF-8 bytes, a colon, and
/// the hexadecimal SHA-256 of the key followed by the text.
pub fn codificar_mensagem_autenticada(texto: &str, chave: &str) -> (r: String)
    requires
        (encode_utf8(chave@).len() + encode_utf8(texto@).len()) * 8 <= usize::MAX,
    ensures
        r@ == encode_message_spec(texto@, chave@),
{
    let texto_bytes = texto.as_bytes();
    let mut conteudo_codificado = base64_encode(texto_bytes);

    let hmac_input = concat_bytes(chave.as_bytes(), texto_bytes);
    proof {
        lemma_encode_utf8_concat(chave@, texto@);
    }
    let hmac = sha256(hmac_input.as_slice());
    let hmac_hex = bytes_to_hex_string(&hmac);

    push_char(&mut conteudo_codificado, ':');
    conteudo_codificado.append(hmac_hex.as_str());
    conteudo_codificado
}

proof fn lemma_colon_count_take(s: Seq<char>, i: int)
    requires
        0 <= i < s.len(),
    ensures
        colon_count(s.take(i + 1)) == colon_count(s.take(i)) + if s[i] == ':' {
            1nat
        } else {
            0nat
        },
{
    assert(s.take(i + 1).drop_last() =~= s.take(i));
}

proof fn lemma_colon_count_pos(s: Seq<char>, p: int)
    requires
        0 <= p < s.len(),
        s[p] == ':',
    ensures
        colon_count(s) >= 1,
    decreases s.len(),
{
    if p < s.len() - 1 {
        lemma_colon_count_pos(s.drop_last(), p);
    }
}

proof fn lemma_colon_unique(s: Seq<char>, p: int, q: int)
    requires
        0 <= p < q < s.len(),
        s[p] == ':',
        s[q] == ':',
    ensures
        colon_count(s) >= 2,
    decreases s.len(),
{
    if q == s.len() - 1 {
        lemma_colon_count_pos(s.drop_last(), p);
    } else {
        lemma_colon_unique(s.drop_last(), p, q);
    }
}

proof fn lemma_colon_position(s: Seq<char>, p: int)
    requires
        colon_count(s) == 1,
        0 <= p < s.len(),
        s[p] == ':',
    ensures
        colon_position(s) == p,
{
    let q = colon_position(s);
    if q < p {
        lemma_colon_unique(s, q, p);
    } else if q > p {
        lemma_colon_unique(s, p, q);
    }
}

proof fn lemma_colon_count_concat(a: Seq<char>, b: Seq<char>)
    ensures
        colon_count(a + b) == colon_count(a) + colon_count(b),
    decreases b.len(),
{
    if b.len() == 0 {
        assert(a + b =~= a);
    } else {
        lemma_colon_count_concat(a, b.drop_last());
        assert((a + b).drop_last() =~= a + b.drop_last());
    }
}

proof fn lemma_colon_count_none(s: Seq<char>)
    requires
        forall|k: int| 0 <= k < s.len() ==> #[trigger] s[k] != ':',
    ensures
        colon_count(s) == 0,
    decreases s.len(),
{
    if s.len() > 0 {
        lemma_colon_count_none(s.drop_last());
    }
}

fn copy_chars(s: &[char], from: usize, to: usize) -> (r: Vec<char>)
    requires
        from <= to <= s@.len(),
    ensures
        r@ == s@.subrange(from as int, to as int),
{
    let mut r: Vec<char> = Vec::new();
    for i in from..to
        invariant
            to <= s@.len(),
            r@ =~= s@.subrange(from as int, i as int),
    {
        r.push(s[i]);
    }
    r
}

/// Checks and decodes an authenticated message under a key: it must hold exactly one colon,
/// the part before it must be Base64 of UTF-8 text, and the part after it must be the
/// hexadecimal SHA-256 of the key followed by that text.
pub fn decodificar_mensagem_autenticada(mensagem_codificada: &str, chave: &str) -> (r: Result<
    String,
    String,
>)
    requires
        hashed_len(mensagem_codificada@, chave@) * 8 <= usize::MAX,
    ensures
        string_result_view(r) == decode_message_spec(mensagem_codificada@, chave@),
{
    let m = chars_of(mensagem_codificada);
    let n = m.len();

    // Split around the colons.
    let mut colons: usize = 0;
    let mut pos: usize = 0;
    for i in 0..n
        invariant
            n == m@.len(),
            colons == colon_count(m@.take(i as int)),
            colons <= i,
            colons > 0 ==> pos < i && m@[pos as int] == ':',
    {
        proof {
            lemma_colon_count_take(m@, i as int);
        }
        if m[i] == ':' {
            if colons == 0 {
                pos = i;
            }
            colons = colons + 1;
        }
    }
    assert(m@.take(n as int) =~= m@);
    if colons != 1 {
        return Err(
            "Formato inválido: A mensagem deve estar no formato 'conteudoBase64:hmacHex'".to_owned(),
        );
    }
    proof {
        lemma_colon_position(m@, pos as int);
    }

    let conteudo_base64 = copy_chars(m.as_slice(), 0, pos);
    let hmac_recebido = copy_chars(m.as_slice(), pos + 1, n);
    assert(conteudo_base64@ =~= m@.take(pos as int));
    assert(hmac_recebido@ =~= m@.skip(pos + 1));

    // Decode the content.
    let bytes_decodificados = match decode_chars(conteudo_base64.as_slice()) {
        Ok(bytes) => bytes,
        Err(e) => {
            let mut msg = "Erro ao decodificar Base64: ".to_owned();
            msg.append(e.as_str());
            return Err(msg);
        },
    };

    let texto_original = match string_from_utf8(bytes_decodificados.clone()) {
        Some(s) => s,
        None => {
            return Err("Erro ao converter bytes decodificados para UTF-8".to_owned());
        },
    };
    proof {
        encode_utf8_decode_utf8(texto_original@);
        lemma_encode_utf8_concat(chave@, texto_original@);
    }

    // Check the authentication code.
    let hmac_input = concat_bytes(chave.as_bytes(), texto_original.as_str().as_bytes());
    let hmac_calculado = sha256(hmac_input.as_slice());
    let hmac_calculado_hex = bytes_to_hex_string(&hmac_calculado);
    let calculado = chars_of(hmac_calculado_hex.as_str());

    if !chars_equal(calculado.as_slice(), hmac_recebido.as_slice()) {
        return Err("Autenticação falhou: A mensagem pode ter sido adulterada".to_owned());
    }

    Ok(texto_original)
}

// ---------------------------------------------------------------------------
// Laws
// ---------------------------------------------------------------------------

proof fn lemma_single_colon(b: Seq<char>, mac: Seq<char>)
    requires
        forall|k: int| 0 <= k < b.len() ==> #[trigger] b[k] != ':',
        forall|k: int| 0 <= k < mac.len() ==> #[trigger] mac[k] != ':',
    ensures
        colon_count(b + seq![':'] + mac) == 1,
        colon_position(b + seq![':'] + mac) == b.len(),
{
    let m = b + seq![':'] + mac;
    lemma_colon_count_none(b);
    lemma_colon_count_none(mac);
    lemma_colon_count_concat(b, seq![':']);
    lemma_colon_count_concat(b + seq![':'], mac);
    assert(colon_count(seq![':']) == 1) by {
        let one = seq![':'];
        assert(one.drop_last() =~= Seq::<char>::empty());
        assert(colon_count(Seq::<char>::empty()) == 0);
        assert(one.last() == ':');
    }
    assert(m[b.len() as int] == ':');
    lemma_colon_position(m, b.len() as int);
}

proof fn lemma_hex_no_colon(bytes: Seq<u8>)
    ensures
        forall|k: int| 0 <= k < hex_of(bytes).len() ==> #[trigger] hex_of(bytes)[k] != ':',
{
}

proof fn lemma_encoded_colon(text: Seq<char>, key: Seq<char>)
    ensures
        colon_count(encode_message_spec(text, key)) == 1,
        colon_position(encode_message_spec(text, key)) == base64_encode_spec(encode_utf8(text)).len(),
{
    let b = base64_encode_spec(encode_utf8(text));
    lemma_base64_encode_shape(encode_utf8(text));
    assert forall|k: int| 0 <= k < b.len() implies #[trigger] b[k] != ':' by {
        assert(is_base64_char(b[k]));
    }
    lemma_hex_no_colon(sha256_spec(encode_utf8(key + text)));
    lemma_single_colon(b, mac_hex(key, text));
}

/// A message made by the encoder is accepted by the decoder under the same key, which gives
/// back the original text.
pub proof fn lemma_message_roundtrip(text: Seq<char>, key: Seq<char>)
    ensures
        decode_message_spec(encode_message_spec(text, key), key) == Ok::<Seq<char>, Seq<char>>(text),
        hashed_len(encode_message_spec(text, key), key) == encode_utf8(key).len() + encode_utf8(
            text,
        ).len(),
{
    let bytes = encode_utf8(text);
    let b = base64_encode_spec(bytes);
    let mac = mac_hex(key, text);
    let m = encode_message_spec(text, key);
    lemma_encoded_colon(text, key);
    assert(m.take(b.len() as int) =~= b);
    assert(m.skip(b.len() + 1int) =~= mac);
    lemma_base64_roundtrip(bytes);
    encode_utf8_valid_utf8(text);
    encode_utf8_decode_utf8(text);
}

/// The authentication code covers the whole key and the whole text: it is the hexadecimal
/// SHA-256 of the key's UTF-8 bytes followed by the text's UTF-8 bytes.
pub proof fn lemma_mac_covers_key_and_text(key: Seq<char>, text: Seq<char>)
    ensures
        mac_hex(key, text) == hex_of(sha256_spec(encode_utf8(key) + encode_utf8(text))),
{
    lemma_encode_utf8_concat(key, text);
}

/// An encoded message is the Base64 of the text's UTF-8 bytes, one colon, and the
/// hexadecimal SHA-256 of the key's UTF-8 bytes followed by the text's.
pub proof fn lemma_encoded_message(text: Seq<char>, key: Seq<char>)
    ensures
        encode_message_spec(text, key) == base64_encode_spec(encode_utf8(text)) + seq![':'] + hex_of(
            sha256_spec(encode_utf8(key) + encode_utf8(text)),
        ),
{
    lemma_mac_covers_key_and_text(key, text);
}

proof fn lemma_colon_exists(s: Seq<char>)
    requires
        colon_count(s) >= 1,
    ensures
        exists|p: int| 0 <= p < s.len() && s[p] == ':',
{
    if forall|p: int| 0 <= p < s.len() ==> s[p] != ':' {
        assert forall|k: int| 0 <= k < s.len() implies #[trigger] s[k] != ':' by {
        }
        lemma_colon_count_none(s);
    }
}

proof fn lemma_split_at_only_colon(m: Seq<char>, p: int)
    requires
        0 <= p < m.len(),
        m[p] == ':',
        forall|q: int| 0 <= q < m.len() && q != p ==> m[q] != ':',
    ensures
        colon_count(m) == 1,
        colon_position(m) == p,
{
    let b = m.take(p);
    let mac = m.skip(p + 1);
    assert forall|k: int| 0 <= k < b.len() implies #[trigger] b[k] != ':' by {
        assert(b[k] == m[k]);
    }
    assert forall|k: int| 0 <= k < mac.len() implies #[trigger] mac[k] != ':' by {
        assert(mac[k] == m[p + 1 + k]);
    }
    assert(m =~= b + seq![':'] + mac);
    lemma_single_colon(b, mac);
}

/// The decoder accepts only a message with exactly one colon, whose first part is the
/// Base64 of the text's UTF-8 bytes and whose second part is, in full, the hexadecimal
/// SHA-256 of the key's UTF-8 bytes followed by the text's.
pub proof fn lemma_decode_accepts_only_exact_mac(m: Seq<char>, key: Seq<char>, text: Seq<char>)
    requires
        decode_message_spec(m, key) == Ok::<Seq<char>, Seq<char>>(text),
    ensures
        exists|p: int| 0 <= p < m.len() && m[p] == ':',
        forall|p: int|
            0 <= p < m.len() && m[p] == ':' ==> {
                &&& forall|q: int| 0 <= q < m.len() && q != p ==> m[q] != ':'
                &&& base64_decode_spec(m.take(p)) == Ok::<Seq<u8>, Seq<char>>(encode_utf8(text))
                &&& m.skip(p + 1) == hex_of(sha256_spec(encode_utf8(key) + encode_utf8(text)))
            },
{
    lemma_colon_exists(m);
    let p0 = colon_position(m);
    assert(0 <= p0 < m.len() && m[p0] == ':');
    let bytes = match base64_decode_spec(m.take(p0)) {
        Ok(b) => b,
        Err(_) => seq![],
    };
    assert(base64_decode_spec(m.take(p0)) == Ok::<Seq<u8>, Seq<char>>(bytes));
    assert(valid_utf8(bytes));
    assert(text == decode_utf8(bytes));
    decode_utf8_encode_utf8(bytes);
    lemma_mac_covers_key_and_text(key, text);
    assert forall|p: int| 0 <= p < m.len() && m[p] == ':' implies {
        &&& forall|q: int| 0 <= q < m.len() && q != p ==> m[q] != ':'
        &&& base64_decode_spec(m.take(p)) == Ok::<Seq<u8>, Seq<char>>(encode_utf8(text))
        &&& m.skip(p + 1) == hex_of(sha256_spec(encode_utf8(key) + encode_utf8(text)))
    } by {
        if p < p0 {
            lemma_colon_unique(m, p, p0);
        } else if p > p0 {
            lemma_colon_unique(m, p0, p);
        }
        assert forall|q: int| 0 <= q < m.len() && q != p implies m[q] != ':' by {
            if m[q] == ':' {
                if q < p {
                    lemma_colon_unique(m, q, p);
                } else {
                    lemma_colon_unique(m, p, q);
                }
            }
        }
    }
}

/// A message with exactly one colon, whose first part decodes from Base64 to UTF-8 bytes,
/// is refused as tampered whenever its second part is not, in full, the hexadecimal SHA-256
/// of the key's UTF-8 bytes followed by those bytes.
pub proof fn lemma_decode_rejects_wrong_mac(m: Seq<char>, key: Seq<char>, p: int, bytes: Seq<u8>)
    requires
        0 <= p < m.len(),
        m[p] == ':',
        forall|q: int| 0 <= q < m.len() && q != p ==> m[q] != ':',
        base64_decode_spec(m.take(p)) == Ok::<Seq<u8>, Seq<char>>(bytes),
        valid_utf8(bytes),
        m.skip(p + 1) != hex_of(sha256_spec(encode_utf8(key) + bytes)),
    ensures
        decode_message_spec(m, key) == Err::<Seq<char>, Seq<char>>(
            "Autenticação falhou: A mensagem pode ter sido adulterada"@,
        ),
{
    lemma_split_at_only_colon(m, p);
    let text = decode_utf8(bytes);
    decode_utf8_encode_utf8(bytes);
    lemma_mac_covers_key_and_text(key, text);
}

/// A message with no colon is refused for its format.
pub proof fn lemma_decode_no_colon(m: Seq<char>, key: Seq<char>)
    requires
        forall|q: int| 0 <= q < m.len() ==> #[trigger] m[q] != ':',
    ensures
        decode_message_spec(m, key) == Err::<Seq<char>, Seq<char>>(
            "Formato inválido: A mensagem deve estar no formato 'conteudoBase64:hmacHex'"@,
        ),
{
    lemma_colon_count_none(m);
}

/// A message with two colons or more is refused for its format.
pub proof fn lemma_decode_two_colons(m: Seq<char>, key: Seq<char>, p: int, q: int)
    requires
        0 <= p < q < m.len(),
        m[p] == ':',
        m[q] == ':',
    ensures
        decode_message_spec(m, key) == Err::<Seq<char>, Seq<char>>(
            "Formato inválido: A mensagem deve estar no formato 'conteudoBase64:hmacHex'"@,
        ),
{
    lemma_colon_unique(m, p, q);
}

/// A message with one colon whose first part is not Base64 is refused with the decoder's
/// message behind the prefix `Erro ao decodificar Base64: `.
pub proof fn lemma_decode_bad_base64(m: Seq<char>, key: Seq<char>, p: int, e: Seq<char>)
    requires
        0 <= p < m.len(),
        m[p] == ':',
        forall|q: int| 0 <= q < m.len() && q != p ==> m[q] != ':',
        base64_decode_spec(m.take(p)) == Err::<Seq<u8>, Seq<char>>(e),
    ensures
        decode_message_spec(m, key) == Err::<Seq<char>, Seq<char>>(
            "Erro ao decodificar Base64: "@ + e,
        ),
{
    lemma_split_at_only_colon(m, p);
}

/// A message with one colon whose first part decodes to bytes that are not UTF-8 is refused
/// for its encoding, whatever follows the colon.
pub proof fn lemma_decode_bad_utf8(m: Seq<char>, key: Seq<char>, p: int, bytes: Seq<u8>)
    requires
        0 <= p < m.len(),
        m[p] == ':',
        forall|q: int| 0 <= q < m.len() && q != p ==> m[q] != ':',
        base64_decode_spec(m.take(p)) == Ok::<Seq<u8>, Seq<char>>(bytes),
        !valid_utf8(bytes),
    ensures
        decode_message_spec(m, key) == Err::<Seq<char>, Seq<char>>(
            "Erro ao converter bytes decodificados para UTF-8"@,
        ),
{
    lemma_split_at_only_colon(m, p);
}

/// A message with one colon, whose first part decodes to the UTF-8 bytes of a text and whose
/// second part is the hexadecimal SHA-256 of the key's UTF-8 bytes followed by those bytes,
/// is accepted with that text.
pub proof fn lemma_decode_accepts_exact_mac(m: Seq<char>, key: Seq<char>, p: int, text: Seq<char>)
    requires
        0 <= p < m.len(),
        m[p] == ':',
        forall|q: int| 0 <= q < m.len() && q != p ==> m[q] != ':',
        base64_decode_spec(m.take(p)) == Ok::<Seq<u8>, Seq<char>>(encode_utf8(text)),
        m.skip(p + 1) == hex_of(sha256_spec(encode_utf8(key) + encode_utf8(text))),
    ensures
        decode_message_spec(m, key) == Ok::<Seq<char>, Seq<char>>(text),
{
    lemma_split_at_only_colon(m, p);
    encode_utf8_valid_utf8(text);
    encode_utf8_decode_utf8(text);
    lemma_mac_covers_key_and_text(key, text);
}

} // verus!
