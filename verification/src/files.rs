//! The hash of a file's contents and the path where files are looked up.

use vstd::prelude::*;
use std::path::PathBuf;
use crate::hex::hex_of;
use crate::sha256::{sha256, sha256_spec};
use crate::text::chars_of;
use crate::hex::bytes_to_hex_string;

verus! {

/// The directory in which files are looked up by name.
pub const BASE_PATH: &'static str =
    "C:\\Users\\YujiKiyota\\OneDrive\\Área de Trabalho\\Faculdade\\Quinto Periodo\\Cripto\\marco-19\\arquivos";

/// std's owned filesystem path, carried through as an opaque value.
#[verifier::external_type_specification]
#[verifier::external_body]
pub struct ExPathBuf(std::path::PathBuf);

/// The text of a path: the characters of `Path::to_string_lossy`, which are exactly the
/// path's characters for a path built from strings.
pub uninterp spec fn path_text(p: PathBuf) -> Seq<char>;

/// Creates a path from a string (`PathBuf::from`).
///
/// std documents the conversion as copying the string into the path, so the path's text is
/// the string.
#[verifier::external_body]
fn path_from(s: &str) -> (p: PathBuf)
    ensures
        path_text(p) == s@,
{
    PathBuf::from(s)
}

/// A file name that a path takes as one ordinary component on every platform: not empty, not
/// `.` or `..`, and free of the separators `/` and `\` and of the drive marker `:`.
pub open spec fn is_plain_component(s: Seq<char>) -> bool {
    &&& s.len() > 0
    &&& s != seq!['.']
    &&& s != seq!['.', '.']
    &&& forall|i: int| 0 <= i < s.len() ==> #[trigger] s[i] != '/' && s[i] != '\\' && s[i] != ':'
}

/// A path separator on some platform.
pub open spec fn is_separator(c: char) -> bool {
    c == '/' || c == '\\'
}

/// A path text after which std appends a pushed relative name behind one separator: it is
/// not empty; it does not end with a separator or with `:` (as a bare drive `C:` does, to
/// which std appends with no separator); and it does not begin with two separators (as the
/// network, device and verbatim prefixes `\\server`, `\\.\` and `\\?\` do, which std
/// re-reads or rebuilds after a push).
pub open spec fn appends_after_separator(t: Seq<char>) -> bool {
    &&& t.len() > 0
    &&& !is_separator(t.last())
    &&& t.last() != ':'
    &&& !(t.len() >= 2 && is_separator(t[0]) && is_separator(t[1]))
}

/// `p` is `base`, one separator (`/` or `\`, whichever the platform uses), and `name`.
pub open spec fn is_joined(p: Seq<char>, base: Seq<char>, name: Seq<char>) -> bool {
    p == base + seq!['/'] + name || p == base + seq!['\\'] + name
}

/// Extends a path by one component (`PathBuf::push`).
///
/// std documents that pushing a relative path without a prefix appends it to the path,
/// with the platform's main separator in between where the path does not already end with
/// one. The contract states that for a plain file name and a path text that
/// `appends_after_separator` admits. What the push gives for other paths (bare drives,
/// network, device and verbatim prefixes, trailing separators) is left unsaid: it depends on
/// the platform.
#[verifier::external_body]
fn path_push(path: &mut PathBuf, component: &str)
    ensures
        is_plain_component(component@) && appends_after_separator(path_text(*old(path)))
            ==> is_joined(path_text(*final(path)), path_text(*old(path)), component@),
{
    path.push(component);
}

/// The path of a file with the given name in the base directory.
pub fn Caminho(nomeArquivo: &str) -> (caminho: PathBuf)
    ensures
        is_plain_component(nomeArquivo@) ==> is_joined(path_text(caminho), BASE_PATH@, nomeArquivo@),
{
    proof {
        reveal_strlit(
            "C:\\Users\\YujiKiyota\\OneDrive\\Área de Trabalho\\Faculdade\\Quinto Periodo\\Cripto\\marco-19\\arquivos",
        );
    }
    let mut caminho = path_from(BASE_PATH);
    path_push(&mut caminho, nomeArquivo);
    caminho
}

/// The SHA-256 digest of a file's contents.
pub fn calculoHash(conteudo: &[u8]) -> (hash: [u8; 32])
    requires
        conteudo@.len() * 8 <= usize::MAX,
    ensures
        hash@ == sha256_spec(conteudo@),
{
    sha256(conteudo)
}

/// ASCII lower case of a character; other characters are unchanged.
pub open spec fn ascii_lower(c: char) -> char {
    if 'A' <= c && c <= 'Z' {
        ((c as u32) + 32) as char
    } else {
        c
    }
}

/// Equality of two character sequences up to ASCII case.
pub open spec fn eq_ignore_ascii_case(a: Seq<char>, b: Seq<char>) -> bool {
    a.len() == b.len() && forall|i: int| 0 <= i < a.len() ==> ascii_lower(#[trigger] a[i]) == ascii_lower(b[i])
}

fn to_ascii_lower(c: char) -> (r: char)
    ensures
        r == ascii_lower(c),
{
    if 'A' <= c && c <= 'Z' {
        let u = (c as u32) as u8 + 32;
        u as char
    } else {
        c
    }
}

/// Whether a digest matches an expected hexadecimal string, ignoring ASCII case.
pub fn verificar_hash(hash: &[u8; 32], hash_esperado: &str) -> (r: bool)
    ensures
        r == eq_ignore_ascii_case(hex_of(hash@), hash_esperado@),
{
    let calculado_str = bytes_to_hex_string(hash);
    let a = chars_of(calculado_str.as_str());
    let b = chars_of(hash_esperado);
    if a.len() != b.len() {
        return false;
    }
    for i in 0..a.len()
        invariant
            a@ == hex_of(hash@),
            b@ == hash_esperado@,
            a@.len() == b@.len(),
            forall|k: int| 0 <= k < i ==> ascii_lower(#[trigger] a@[k]) == ascii_lower(b@[k]),
    {
        if to_ascii_lower(a[i]) != to_ascii_lower(b[i]) {
            return false;
        }
    }
    true
}

/// The upper-case ASCII letters.
pub open spec fn ascii_upper_letters() -> Seq<char> {
    "ABCDEFGHIJKLMNOPQRSTUVWXYZ"@
}

/// The lower-case ASCII letters, in the same order.
pub open spec fn ascii_lower_letters() -> Seq<char> {
    "abcdefghijklmnopqrstuvwxyz"@
}

/// ASCII lower case maps each upper-case ASCII letter to the lower-case letter at the same
/// place in the alphabet, and leaves every other character as it is.
pub proof fn lemma_ascii_lower(c: char)
    ensures
        forall|k: int|
            0 <= k < 26 ==> ascii_lower(#[trigger] ascii_upper_letters()[k])
                == ascii_lower_letters()[k],
        (forall|k: int| 0 <= k < 26 ==> #[trigger] ascii_upper_letters()[k] != c) ==> ascii_lower(c)
            == c,
{
    reveal_strlit("ABCDEFGHIJKLMNOPQRSTUVWXYZ");
    reveal_strlit("abcdefghijklmnopqrstuvwxyz");
    assert forall|k: int| 0 <= k < 26 implies ascii_lower(#[trigger] ascii_upper_letters()[k])
        == ascii_lower_letters()[k] by {
        assert(ascii_upper_letters()[k] == (65 + k) as char);
        assert(ascii_lower_letters()[k] == (97 + k) as char);
    }
    if 'A' <= c && c <= 'Z' {
        let k = c as int - 65;
        assert(ascii_upper_letters()[k] == c);
    }
}

/// Equality up to ASCII case holds exactly when the two sequences have the same length and
/// agree at every position, the first included, once both are in ASCII lower case: a
/// difference in length, or at any one position other than in ASCII case, refuses the match.
/// It is reflexive and symmetric.
pub proof fn lemma_eq_ignore_ascii_case(a: Seq<char>, b: Seq<char>)
    ensures
        eq_ignore_ascii_case(a, a),
        eq_ignore_ascii_case(a, b) == eq_ignore_ascii_case(b, a),
        a.len() != b.len() ==> !eq_ignore_ascii_case(a, b),
        forall|i: int|
            0 <= i < a.len() && i < b.len() && ascii_lower(#[trigger] a[i]) != ascii_lower(b[i])
                ==> !eq_ignore_ascii_case(a, b),
        a.len() == b.len() && (forall|i: int|
            0 <= i < a.len() ==> ascii_lower(#[trigger] a[i]) == ascii_lower(b[i]))
            ==> eq_ignore_ascii_case(a, b),
{
}

/// A digest is confirmed against an expected string only when the string has exactly the
/// length of the digest's lower-case hexadecimal rendering and each of its characters is the
/// rendering's character there or that character's ASCII upper case.
pub proof fn lemma_verificar_hash(hash: Seq<u8>, expected: Seq<char>)
    ensures
        eq_ignore_ascii_case(hex_of(hash), expected) ==> expected.len() == 2 * hash.len(),
        forall|i: int|
            0 <= i < expected.len() && i < hex_of(hash).len() && ascii_lower(#[trigger] expected[i])
                != ascii_lower(hex_of(hash)[i]) ==> !eq_ignore_ascii_case(hex_of(hash), expected),
{
}

} // verus!
