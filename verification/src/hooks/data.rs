//! The data helpers hook scripts get: hashing, base64, and values handed
//! back in a stable order.
use vstd::prelude::*;
use sha2::Digest;
use base64::Engine;
use crate::json::Json;
use crate::text::{chars_of, eq_ignore_case_chars, push_char, push_str, trim, trim_chars, string_of};

verus! {

/// A value with every object's keys in ascending order: objects always
/// keep them so, so the value comes back as it was.
pub fn sorted(value: Json) -> (r: Json)
    ensures
        r@ == value@,
{
    value
}

/// The lowercase hexadecimal digit for `d`.
pub open spec fn hex_digit(d: u8) -> char {
    if d < 10 {
        ((48 + d) as u8) as char
    } else {
        ((87 + d) as u8) as char
    }
}

/// Bytes as lowercase hexadecimal, two digits each.
pub open spec fn hex_spec(bytes: Seq<u8>) -> Seq<char>
    decreases bytes.len(),
{
    if bytes.len() == 0 {
        Seq::empty()
    } else {
        hex_spec(bytes.drop_last()) + seq![hex_digit(bytes.last() / 16), hex_digit(bytes.last() % 16)]
    }
}

fn digit(d: u8) -> (r: char)
    requires
        d < 16,
    ensures
        r == hex_digit(d),
{
    if d < 10 {
        (48u8 + d) as char
    } else {
        (87u8 + d) as char
    }
}

/// Bytes as lowercase hexadecimal.
pub fn hex(bytes: &[u8]) -> (r: String)
    ensures
        r@ == hex_spec(bytes@),
{
    let mut out = String::new();
    let mut i: usize = 0;
    while i < bytes.len()
        invariant
            i <= bytes@.len(),
            out@ == hex_spec(bytes@.take(i as int)),
        decreases bytes@.len() - i,
    {
        let b = bytes[i];
        assert(bytes@.take(i + 1).drop_last() =~= bytes@.take(i as int));
        push_char(&mut out, digit(b / 16));
        push_char(&mut out, digit(b % 16));
        i = i + 1;
    }
    assert(bytes@.take(bytes@.len() as int) =~= bytes@);
    out
}

/// The SHA-256 digest `sha2` computes of some bytes.
pub uninterp spec fn sha256_digest(data: Seq<u8>) -> Seq<u8>;

/// `sha2::Sha256::digest`: the contract claims only that the 32-byte
/// digest is a function of the bytes, named `sha256_digest`.
#[verifier::external_body]
fn sha256(data: &[u8]) -> (r: Vec<u8>)
    ensures
        r@ == sha256_digest(data@),
        r@.len() == 32,
{
    sha2::Sha256::digest(data).to_vec()
}

/// The hash hook scripts ask for: SHA-256 in lowercase hexadecimal; any
/// other algorithm named is refused.
pub fn hash(text: &[u8], algorithm: Option<&str>) -> (r: Result<String, String>)
    ensures
        match algorithm {
            Some(name) => !crate::text::eq_ignore_case(name@, "sha256"@) ==> r is Err,
            None => true,
        },
        (match algorithm {
            Some(name) => crate::text::eq_ignore_case(name@, "sha256"@),
            None => true,
        }) ==> (r matches Ok(h) && h@ == hex_spec(sha256_digest(text@))),
{
    if let Some(name) = algorithm {
        if !eq_ignore_case_chars(chars_of(name).as_slice(), chars_of("sha256").as_slice()) {
            let mut message = String::from_str("unknown hash \"");
            push_str(&mut message, name);
            push_str(&mut message, "\", only sha256 is supported");
            return Err(message);
        }
    }
    let digest = sha256(text);
    Ok(hex(digest.as_slice()))
}

/// The character of the standard base64 alphabet for a 6-bit value:
/// `A`-`Z`, `a`-`z`, `0`-`9`, `+`, `/`.
pub open spec fn b64_char(v: int) -> char {
    if v < 26 {
        (65 + v) as char
    } else if v < 52 {
        (97 + (v - 26)) as char
    } else if v < 62 {
        (48 + (v - 52)) as char
    } else if v == 62 {
        '+'
    } else {
        '/'
    }
}

/// Standard base64 with padding (RFC 4648, section 4) of some bytes: each
/// three bytes become four characters of six bits each, a last one or two
/// bytes two or three characters and then `=` up to four.
pub open spec fn b64(s: Seq<u8>) -> Seq<char>
    decreases s.len(),
{
    if s.len() == 0 {
        Seq::empty()
    } else if s.len() == 1 {
        seq![b64_char((s[0] as int) / 4), b64_char(((s[0] as int) % 4) * 16), '=', '=']
    } else if s.len() == 2 {
        seq![
            b64_char((s[0] as int) / 4),
            b64_char(((s[0] as int) % 4) * 16 + (s[1] as int) / 16),
            b64_char(((s[1] as int) % 16) * 4),
            '=',
        ]
    } else {
        seq![
            b64_char((s[0] as int) / 4),
            b64_char(((s[0] as int) % 4) * 16 + (s[1] as int) / 16),
            b64_char(((s[1] as int) % 16) * 4 + (s[2] as int) / 64),
            b64_char((s[2] as int) % 64),
        ] + b64(s.skip(3))
    }
}

/// `base64::engine::general_purpose::STANDARD.encode`: the text is the
/// standard padded base64 of the bytes. The engine panics where the
/// encoded length overflows, which the bound on the input rules out.
#[verifier::external_body]
pub fn base64_encode(data: &[u8]) -> (r: String)
    requires
        data@.len() <= usize::MAX / 4,
    ensures
        r@ == b64(data@),
{
    base64::engine::general_purpose::STANDARD.encode(data)
}

/// `base64::engine::general_purpose::STANDARD.decode`, whose configuration
/// requires canonical padding and zero trailing bits: it gives back the
/// bytes whose standard padded base64 the text is, and fails, with the
/// decoder's message, exactly where the text is no such encoding.
#[verifier::external_body]
fn base64_decode_raw(text: &str) -> (r: Result<Vec<u8>, String>)
    ensures
        r matches Ok(v) ==> b64(v@) == text@,
        r is Err ==> forall|b: Seq<u8>| b64(b) != text@,
{
    base64::engine::general_purpose::STANDARD.decode(text).map_err(|error| format!("{error}"))
}

/// The bytes a base64 text holds, white space at either end ignored; the
/// error carries the decoder's message.
pub fn base64_decode(text: &str) -> (r: Result<Vec<u8>, String>)
    ensures
        r matches Ok(v) ==> b64(v@) == trim(text@),
        r is Err ==> forall|b: Seq<u8>| b64(b) != trim(text@),
        r matches Err(m) ==> exists|e: Seq<char>| m@ == "not valid base64: "@ + e,
{
    let trimmed = string_of(trim_chars(chars_of(text).as_slice()).as_slice());
    match base64_decode_raw(trimmed.as_str()) {
        Ok(v) => Ok(v),
        Err(e) => {
            let mut message = String::from_str("not valid base64: ");
            push_str(&mut message, e.as_str());
            Err(message)
        },
    }
}

} // verus!
