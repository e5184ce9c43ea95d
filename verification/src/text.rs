//! Conversions between the text of keys and values and their stored bytes.
//!
//! Keys and values are handed to the store as text and written to the log as
//! their UTF-8 bytes; bytes read back from the log are decoded lossily, so a
//! record whose payload is not valid UTF-8 yields replacement characters
//! rather than an error.

use vstd::prelude::*;
use vstd::string::StrSliceExecFns;
use vstd::utf8::decode_utf8;
use vstd::utf8::encode_utf8;
use vstd::utf8::encode_utf8_decode_utf8;
use vstd::utf8::encode_utf8_valid_utf8;
use vstd::utf8::valid_utf8;

verus! {

/// The text that lossy UTF-8 decoding yields for a byte sequence: a function
/// of the bytes alone, left uninterpreted. Where the bytes are valid UTF-8 it
/// agrees with `decode_utf8`; that fact is stated at the decoding call.
pub uninterp spec fn lossy_decode(bytes: Seq<u8>) -> Seq<char>;

/// The text a stored byte sequence is read as: the UTF-8 decoding where the
/// bytes are valid, the lossy decoding otherwise.
pub open spec fn text_of(bytes: Seq<u8>) -> Seq<char> {
    if valid_utf8(bytes) {
        decode_utf8(bytes)
    } else {
        lossy_decode(bytes)
    }
}

/// Relies on `String::from_utf8_lossy`: the result depends on the bytes
/// alone, and bytes that are valid UTF-8 decode, as documented, to exactly
/// the text they encode, with no replacement.
#[verifier::external_body]
pub(crate) fn decode_text(bytes: &[u8]) -> (r: String)
    ensures
        r@ == lossy_decode(bytes@),
        valid_utf8(bytes@) ==> r@ == decode_utf8(bytes@),
{
    String::from_utf8_lossy(bytes).into_owned()
}

/// The UTF-8 bytes of a string.
pub(crate) fn encode_text(s: &str) -> (r: Vec<u8>)
    ensures
        r@ == encode_utf8(s@),
{
    s.as_bytes_vec()
}

/// The bytes a text encodes to are valid UTF-8 and read back as that text.
pub proof fn lemma_text_roundtrip(s: Seq<char>)
    ensures
        valid_utf8(encode_utf8(s)),
        text_of(encode_utf8(s)) == s,
{
    encode_utf8_valid_utf8(s);
    encode_utf8_decode_utf8(s);
}

/// The empty text encodes to the empty byte sequence.
pub proof fn lemma_empty_text()
    ensures
        encode_utf8(Seq::<char>::empty()) == Seq::<u8>::empty(),
{
    assert(encode_utf8(Seq::<char>::empty()) =~= Seq::<u8>::empty());
}

} // verus!
