//! Byte and text codecs the engine relies on: UTF-8, base64, MD5 and
//! hexadecimal rendering.
//!
//! UTF-8 validation, base64 decoding and the MD5 digest are not proved here;
//! each is reached through one function of this module whose contract is
//! taken on trust.

use vstd::prelude::*;
use vstd::string::StringSliceAdditionalSpecFns;
use vstd::utf8::{decode_utf8, valid_utf8};

verus! {

/// `String::push` appends exactly one character at the end of the string.
pub assume_specification[ String::push ](s: &mut String, c: char)
    ensures
        final(s)@ == old(s)@.push(c),
;

/// The error of `std::str::from_utf8`. Nothing is read from it.
#[verifier::external_type_specification]
#[verifier::external_body]
pub struct ExUtf8Error(std::str::Utf8Error);

/// The error of `base64::decode`. Nothing is read from it.
#[verifier::external_type_specification]
#[verifier::external_body]
pub struct ExBase64DecodeError(base64::DecodeError);

/// How many bytes short of the largest length a base64 text must stay, so
/// that the decoder can count its chunks of eight without overflow.
pub const DECODER_HEADROOM: usize = 7;

/// The bytes that `base64::decode` yields for `text` (standard alphabet, with
/// padding), or `None` where it reports an error.
pub uninterp spec fn base64_decoding(text: Seq<char>) -> Option<Seq<u8>>;

/// The bytes of the MD5 digest that `md5::compute` yields for `data`.
pub uninterp spec fn md5_sum(data: Seq<u8>) -> Seq<u8>;

/// The MD5 digest of `data` as the sixteen bytes it always has.
pub open spec fn md5_of(data: Seq<u8>) -> Seq<u8> {
    Seq::new(16, |i: int| md5_sum(data)[i])
}

/// The text that `String::from_utf8_lossy` yields for bytes that are not valid
/// UTF-8, each malformed run replaced by U+FFFD.
pub uninterp spec fn utf8_replaced(bytes: Seq<u8>) -> Seq<char>;

/// Lossy UTF-8 decoding: the exact text for valid input, the repaired text
/// otherwise.
pub open spec fn lossy_text(bytes: Seq<u8>) -> Seq<char> {
    if valid_utf8(bytes) {
        decode_utf8(bytes)
    } else {
        utf8_replaced(bytes)
    }
}

/// Calls `std::str::from_utf8`. Trusted: it succeeds exactly on valid UTF-8
/// and then returns the text those bytes encode.
#[verifier::external_body]
pub(crate) fn utf8_text(bytes: &[u8]) -> (res: Result<&str, std::str::Utf8Error>)
    ensures
        res is Ok <==> valid_utf8(bytes@),
        res is Ok ==> res->Ok_0@ == decode_utf8(bytes@),
{
    std::str::from_utf8(bytes)
}

/// Calls `String::from_utf8_lossy`. Trusted: valid UTF-8 is decoded as it
/// stands; for anything else the result is the repaired text, which depends on
/// the bytes alone.
#[verifier::external_body]
pub(crate) fn utf8_text_lossy(bytes: &[u8]) -> (out: String)
    ensures
        valid_utf8(bytes@) ==> out@ == decode_utf8(bytes@),
        !valid_utf8(bytes@) ==> out@ == utf8_replaced(bytes@),
{
    String::from_utf8_lossy(bytes).into_owned()
}

/// Calls `base64::decode`. Trusted: the outcome depends on the text alone. The
/// length bound keeps the decoder's own size arithmetic, which would stop the
/// process on overflow, within range.
#[verifier::external_body]
pub(crate) fn base64_decode(text: &str) -> (res: Result<Vec<u8>, base64::DecodeError>)
    requires
        text.spec_bytes().len() + DECODER_HEADROOM <= usize::MAX,
    ensures
        res is Ok <==> base64_decoding(text@) is Some,
        res is Ok ==> res->Ok_0@ == base64_decoding(text@)->Some_0,
{
    base64::decode(text)
}

/// Calls `md5::compute` and returns the sixteen bytes of the digest. Trusted:
/// the digest depends on the data alone.
#[verifier::external_body]
fn md5_compute(data: &[u8]) -> (digest: [u8; 16])
    ensures
        digest@ == md5_sum(data@),
{
    md5::compute(data).0
}

/// The MD5 digest of `data`.
pub fn md5_digest(data: &[u8]) -> (digest: [u8; 16])
    ensures
        digest@ == md5_of(data@),
{
    let digest = md5_compute(data);
    assert(digest@ =~= md5_of(data@));
    digest
}

/// The lowercase hexadecimal digit for a value below sixteen.
pub open spec fn hex_digit(nibble: int) -> char {
    if nibble < 10 {
        (48 + nibble) as char
    } else {
        (87 + nibble) as char
    }
}

/// Lowercase hexadecimal rendering: two digits per byte, high nibble first.
pub open spec fn lower_hex(bytes: Seq<u8>) -> Seq<char> {
    Seq::new(
        (2 * bytes.len()) as nat,
        |i: int|
            hex_digit(
                if i % 2 == 0 {
                    bytes[i / 2] as int / 16
                } else {
                    bytes[i / 2] as int % 16
                },
            ),
    )
}

/// The lowercase hexadecimal digit for a value below sixteen.
fn hex_digit_char(nibble: u8) -> (c: char)
    requires
        nibble < 16,
    ensures
        c == hex_digit(nibble as int),
{
    let code: u8 = if nibble < 10 {
        48 + nibble
    } else {
        87 + nibble
    };
    code as char
}

/// Renders bytes as lowercase hexadecimal text.
pub fn to_lower_hex(bytes: &[u8]) -> (out: String)
    ensures
        out@ == lower_hex(bytes@),
{
    let mut out = String::new();
    let mut i: usize = 0;
    while i < bytes.len()
        invariant
            i <= bytes.len(),
            out@ == lower_hex(bytes@.take(i as int)),
        decreases bytes.len() - i,
    {
        let b: u8 = bytes[i];
        out.push(hex_digit_char(b / 16));
        out.push(hex_digit_char(b % 16));
        i += 1;
        assert(out@ =~= lower_hex(bytes@.take(i as int)));
    }
    assert(bytes@.take(i as int) =~= bytes@);
    out
}

} // verus!
