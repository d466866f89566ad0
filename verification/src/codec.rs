//! The obfuscation codec: a reversible, byte-wise XOR transform applied to
//! every wire byte before transmission and after reception. It provides no
//! confidentiality or integrity; it is a plain involution on bytes.

use vstd::prelude::*;
use vstd::string::StringSliceAdditionalSpecFns;
use vstd::utf8::{decode_utf8, valid_utf8};

verus! {

/// The key XOR-ed into every wire byte, in both directions.
pub const WIRE_KEY: u8 = 0x11;

/// The byte-wise obfuscation transform.
pub open spec fn xform_byte(b: u8) -> u8 {
    b ^ WIRE_KEY
}

/// The obfuscation transform applied to a whole byte sequence.
pub open spec fn xform(b: Seq<u8>) -> Seq<u8> {
    b.map_values(|x: u8| xform_byte(x))
}

/// Obfuscated bytes that do not decode to valid text.
#[derive(Clone, Copy, PartialEq, Eq, Structural, Debug)]
pub struct DecodeError;

pub fn encode_byte(b: u8) -> (r: u8)
    ensures
        r == xform_byte(b),
{
    b ^ WIRE_KEY
}

pub fn decode_byte(b: u8) -> (r: u8)
    ensures
        r == xform_byte(b),
{
    b ^ WIRE_KEY
}

/// Obfuscates the text of a wire message for transmission.
pub fn encode(string: &String) -> (r: Vec<u8>)
    ensures
        r@ == xform(vstd::utf8::encode_utf8(string@)),
{
    let bytes: &[u8] = string.as_str().as_bytes();
    let mut encoded_bytes: Vec<u8> = Vec::with_capacity(bytes.len());
    let mut i: usize = 0;
    while i < bytes.len()
        invariant
            i <= bytes@.len(),
            encoded_bytes@ == xform(bytes@.subrange(0, i as int)),
        decreases bytes@.len() - i,
    {
        encoded_bytes.push(encode_byte(bytes[i]));
        i = i + 1;
        proof {
            assert(bytes@.subrange(0, i as int).drop_last() == bytes@.subrange(0, i - 1));
            assert(encoded_bytes@ =~= xform(bytes@.subrange(0, i as int)));
        }
    }
    proof {
        assert(bytes@.subrange(0, bytes@.len() as int) =~= bytes@);
    }
    encoded_bytes
}

/// Relies on `String::from_utf8`: it returns a string exactly when the bytes
/// are valid UTF-8, and then the string's characters are their decoding.
#[verifier::external_body]
fn string_from_utf8(v: Vec<u8>) -> (r: Option<String>)
    ensures
        r is Some <==> valid_utf8(v@),
        r matches Some(s) ==> s@ == decode_utf8(v@),
{
    String::from_utf8(v).ok()
}

/// Un-obfuscates a received datagram and interprets the result as text.
/// Fails exactly when the transformed bytes are not valid text; the caller
/// is expected to drop such a packet and continue.
pub fn decode(buf: &[u8]) -> (r: Result<String, DecodeError>)
    ensures
        r is Ok <==> valid_utf8(xform(buf@)),
        r matches Ok(s) ==> s@ == decode_utf8(xform(buf@)),
{
    let mut vec: Vec<u8> = Vec::with_capacity(buf.len());
    let mut i: usize = 0;
    while i < buf.len()
        invariant
            i <= buf@.len(),
            vec@ == xform(buf@.subrange(0, i as int)),
        decreases buf@.len() - i,
    {
        vec.push(decode_byte(buf[i]));
        i = i + 1;
        proof {
            assert(buf@.subrange(0, i as int).drop_last() == buf@.subrange(0, i - 1));
            assert(vec@ =~= xform(buf@.subrange(0, i as int)));
        }
    }
    proof {
        assert(buf@.subrange(0, buf@.len() as int) =~= buf@);
    }
    match string_from_utf8(vec) {
        Some(s) => Ok(s),
        None => Err(DecodeError),
    }
}

/// The transform is its own inverse: decoding an encoded byte sequence (or
/// encoding a decoded one) gives the original bytes back, for every byte
/// sequence including the empty one.
pub proof fn lemma_codec_involution(b: Seq<u8>)
    ensures
        xform(xform(b)) == b,
{
    assert forall|i: int| 0 <= i < b.len() implies xform(xform(b))[i] == b[i] by {
        let x = b[i];
        assert((x ^ 0x11) ^ 0x11 == x) by (bit_vector);
    }
    assert(xform(xform(b)) =~= b);
}

/// Round trip through the codec at the text level: obfuscating a text's bytes
/// and un-obfuscating them yields bytes that are again valid text, and they
/// decode to the original characters.
pub proof fn lemma_text_round_trip(s: Seq<char>)
    ensures
        valid_utf8(xform(xform(vstd::utf8::encode_utf8(s)))),
        decode_utf8(xform(xform(vstd::utf8::encode_utf8(s)))) == s,
{
    let bytes = vstd::utf8::encode_utf8(s);
    lemma_codec_involution(bytes);
    broadcast use vstd::utf8::encode_utf8_valid_utf8, vstd::utf8::encode_utf8_decode_utf8;

    assert(valid_utf8(bytes));
    assert(decode_utf8(bytes) == s);
}

} // verus!
