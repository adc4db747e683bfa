//! Byte codecs used by the history snapshot: hex text, SHA-256 digests,
//! base64 text and UTF-8 text.
use vstd::prelude::*;
use vstd::utf8::decode_utf8;
use vstd::utf8::valid_utf8;
use base64::Engine;
use sha2::Digest;

verus! {

/// The sixteen lower-case hex digits, by value.
pub open spec fn hex_digits() -> Seq<char> {
    seq!['0', '1', '2', '3', '4', '5', '6', '7', '8', '9', 'a', 'b', 'c', 'd', 'e', 'f']
}

/// Lower-case hex text of `b`: two digits per byte, high half first.
pub open spec fn hex_of(b: Seq<u8>) -> Seq<char>
    decreases b.len(),
{
    if b.len() == 0 {
        Seq::empty()
    } else {
        hex_of(b.drop_last()) + seq![
            hex_digits()[b.last() as int / 16],
            hex_digits()[b.last() as int % 16],
        ]
    }
}

/// Hex text has two digits per byte.
pub proof fn lemma_hex_len(b: Seq<u8>)
    ensures
        hex_of(b).len() == 2 * b.len(),
    decreases b.len(),
{
    if b.len() > 0 {
        lemma_hex_len(b.drop_last());
    }
}

/// The SHA-256 digest of a byte sequence.
pub uninterp spec fn sha256_of(b: Seq<u8>) -> Seq<u8>;

/// The padded, standard-alphabet base64 text of a byte sequence.
pub uninterp spec fn base64_of(b: Seq<u8>) -> Seq<char>;

/// What standard base64 decoding makes of a text: `None` where it is refused.
pub uninterp spec fn base64_decoded(s: Seq<char>) -> Option<Seq<u8>>;

/// The key under which content is addressed: hex text of its SHA-256 digest.
pub open spec fn content_key(b: Seq<u8>) -> Seq<char> {
    hex_of(sha256_of(b))
}

#[verifier::external_type_specification]
#[verifier::external_body]
pub struct ExDecodeError(base64::DecodeError);

/// Relies on `hex::encode`: each byte becomes two lower-case digits, in order.
#[verifier::external_body]
pub(crate) fn hex_encode(b: &[u8]) -> (r: String)
    ensures
        r@ == hex_of(b@),
{
    hex::encode(b)
}

/// Relies on `sha2::Sha256::digest`: the 32-byte SHA-256 digest of the input.
#[verifier::external_body]
pub(crate) fn sha256(b: &[u8]) -> (r: Vec<u8>)
    ensures
        r@ == sha256_of(b@),
        r@.len() == 32,
{
    sha2::Sha256::digest(b).to_vec()
}

/// Relies on the `encode` of base64's `STANDARD` engine, which panics only
/// where the length of the output would overflow `usize`, and whose output
/// the engine's `decode` turns back into the input.
#[verifier::external_body]
fn base64_encode(b: &[u8]) -> (r: String)
    requires
        b@.len() <= usize::MAX / 2,
    ensures
        r@ == base64_of(b@),
        base64_decoded(r@) == Some(b@),
{
    base64::engine::general_purpose::STANDARD.encode(b)
}

/// Relies on the `decode` of base64's `STANDARD` engine: its outcome is a
/// function of the text alone.
#[verifier::external_body]
fn base64_decode(s: &str) -> (r: Result<Vec<u8>, base64::DecodeError>)
    ensures
        r is Ok <==> base64_decoded(s@) is Some,
        r is Ok ==> base64_decoded(s@) == Some(r->Ok_0@),
{
    base64::engine::general_purpose::STANDARD.decode(s)
}

/// Relies on `std::str::from_utf8`: it accepts exactly the valid UTF-8
/// sequences, and the text it gives back is their decoding.
#[verifier::external_body]
fn utf8_text(b: &[u8]) -> (r: Option<String>)
    ensures
        r is Some <==> valid_utf8(b@),
        r is Some ==> r->Some_0@ == decode_utf8(b@),
{
    match std::str::from_utf8(b) {
        Ok(s) => Some(s.to_string()),
        Err(_) => None,
    }
}

/// Standard padded base64 text of `content`.
pub fn encode_base64(content: &[u8]) -> (r: String)
    requires
        content@.len() <= usize::MAX / 2,
    ensures
        r@ == base64_of(content@),
        base64_decoded(r@) == Some(content@),
{
    base64_encode(content)
}

/// The bytes that a standard base64 text stands for, or `None` where the
/// text is not accepted.
pub fn decode_base64(text: &str) -> (r: Option<Vec<u8>>)
    ensures
        r is Some <==> base64_decoded(text@) is Some,
        r is Some ==> base64_decoded(text@) == Some(r->Some_0@),
{
    match base64_decode(text) {
        Ok(bytes) => Some(bytes),
        Err(_) => None,
    }
}

/// The text that `content` encodes, where it is valid UTF-8.
pub fn decode_text(content: &[u8]) -> (r: Option<String>)
    ensures
        r is Some <==> valid_utf8(content@),
        r is Some ==> r->Some_0@ == decode_utf8(content@),
{
    utf8_text(content)
}

} // verus!
