use vstd::prelude::*;

use base64::Engine;
use sha2::Digest;

verus! {

/// The SHA-256 digest of `data`.
pub uninterp spec fn sha256(data: Seq<u8>) -> Seq<u8>;

/// Calls `sha2::Sha256::digest`. Trusted: the result is the SHA-256 digest of
/// `data`, named `sha256`, and is 32 bytes long (the digest's output size).
#[verifier::external_body]
fn sha256_digest(data: &[u8]) -> (digest: Vec<u8>)
    ensures
        digest@ == sha256(data@),
        digest@.len() == 32,
{
    sha2::Sha256::digest(data).to_vec()
}

/// The character of the standard base64 alphabet for the 6-bit value `v`.
pub open spec fn base64_char(v: int) -> char {
    if v < 26 {
        (65 + v) as char
    } else if v < 52 {
        (97 + v - 26) as char
    } else if v < 62 {
        (48 + v - 52) as char
    } else if v == 62 {
        '+'
    } else {
        '/'
    }
}

/// Standard base64 with padding (RFC 4648): every three bytes become four
/// characters; a final one or two bytes are padded with `=`.
pub open spec fn base64_standard(d: Seq<u8>) -> Seq<char>
    decreases d.len(),
{
    let b0 = d[0] as int;
    let b1 = d[1] as int;
    let b2 = d[2] as int;
    if d.len() == 0 {
        Seq::empty()
    } else if d.len() == 1 {
        seq![base64_char(b0 / 4), base64_char((b0 % 4) * 16), '=', '=']
    } else if d.len() == 2 {
        seq![
            base64_char(b0 / 4),
            base64_char((b0 % 4) * 16 + b1 / 16),
            base64_char((b1 % 16) * 4),
            '=',
        ]
    } else {
        seq![
            base64_char(b0 / 4),
            base64_char((b0 % 4) * 16 + b1 / 16),
            base64_char((b1 % 16) * 4 + b2 / 64),
            base64_char(b2 % 64),
        ] + base64_standard(d.subrange(3, d.len() as int))
    }
}

/// Calls `base64::engine::general_purpose::STANDARD.encode`. Trusted: the
/// result is the standard, padded base64 encoding of `data`. The engine panics
/// when the encoded length overflows `usize`, which `requires` rules out.
#[verifier::external_body]
fn base64_encode(data: &[u8]) -> (text: String)
    requires
        data@.len() / 3 * 4 + 4 <= usize::MAX,
    ensures
        text@ == base64_standard(data@),
{
    base64::engine::general_purpose::STANDARD.encode(data)
}

/// The SRI hash of `text`: `sha256-` followed by the base64 of the SHA-256
/// digest of its UTF-8 bytes.
pub open spec fn sri_hash(text: Seq<char>) -> Seq<char> {
    "sha256-"@ + base64_standard(sha256(vstd::utf8::encode_utf8(text)))
}

/// Standard base64 turns every started group of three bytes into four characters.
proof fn lemma_base64_len(d: Seq<u8>)
    ensures
        base64_standard(d).len() == (d.len() + 2) / 3 * 4,
    decreases d.len(),
{
    if d.len() > 2 {
        lemma_base64_len(d.subrange(3, d.len() as int));
    }
}

/// Compute the SRI hash of FOMOD XML content, returned as `sha256-<base64>`:
/// `sha256-` and the 44 characters of the padded base64 of the 32-byte digest.
pub fn hash_xml(xml: &str) -> (hash: String)
    ensures
        hash@ == sri_hash(xml@),
        hash@.len() == 51,
{
    let digest = sha256_digest(xml.as_bytes());
    let encoded = base64_encode(digest.as_slice());
    proof {
        lemma_base64_len(digest@);
        reveal_strlit("sha256-");
    }
    let mut out = String::from_str("sha256-");
    out.append(encoded.as_str());
    out
}

} // verus!

verus! {

/// The standard base64 alphabet: `A`–`Z` for 0–25, `a`–`z` for 26–51,
/// `0`–`9` for 52–61, then `+` and `/`; within each run consecutive values
/// give consecutive characters.
pub proof fn lemma_base64_alphabet(v: int)
    ensures
        base64_char(0) == 'A' && base64_char(25) == 'Z',
        base64_char(26) == 'a' && base64_char(51) == 'z',
        base64_char(52) == '0' && base64_char(61) == '9',
        base64_char(62) == '+' && base64_char(63) == '/',
        (0 <= v < 25 || 26 <= v < 51 || 52 <= v < 61) ==> base64_char(v + 1) as u32 == base64_char(v) as u32 + 1,
{
}

/// Base64 encodes each group of three bytes on its own: the encoding of
/// whole groups followed by more bytes is the two encodings joined.
pub proof fn lemma_base64_concat(a: Seq<u8>, b: Seq<u8>)
    requires
        a.len() % 3 == 0,
    ensures
        base64_standard(a + b) == base64_standard(a) + base64_standard(b),
    decreases a.len(),
{
    if a.len() == 0 {
        assert(a + b =~= b);
        assert(base64_standard(a) + base64_standard(b) =~= base64_standard(b));
    } else {
        let t = a.subrange(3, a.len() as int);
        lemma_base64_concat(t, b);
        assert((a + b).subrange(3, (a + b).len() as int) =~= t + b);
        assert((a + b)[0] == a[0] && (a + b)[1] == a[1] && (a + b)[2] == a[2]);
        let head = seq![
            base64_char(a[0] as int / 4),
            base64_char((a[0] as int % 4) * 16 + a[1] as int / 16),
            base64_char((a[1] as int % 16) * 4 + a[2] as int / 64),
            base64_char(a[2] as int % 64),
        ];
        assert(base64_standard(a + b) == head + base64_standard(t + b));
        assert(base64_standard(a) == head + base64_standard(t));
        assert(head + (base64_standard(t) + base64_standard(b)) =~= (head + base64_standard(t)) + base64_standard(b));
    }
}

} // verus!
