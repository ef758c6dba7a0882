//! The HC1 decoding pipeline: envelope, Base45, zlib, COSE_Sign1, claims, lines.

use vstd::prelude::*;
use vstd::string::StringSliceAdditionalSpecFns;
use crate::b45::{base45_bytes, base45_decode, base45_text, base45_valid, lemma_base45_round_trip};
use crate::cbor::{Cbor, CborValue, decode_whole, model, parse_whole};
use crate::printer::{is_scalar, lemma_map_with_scalar_key_prints, lines_of, lines_view, print_value};

verus! {

/// Why a certificate could not be decoded, by the stage that failed.
#[derive(Debug, Clone, Copy, PartialEq, Eq, Structural)]
pub enum DecodeError {
    /// The text does not start with `HC1:`.
    NotAnHC1Certificate,
    /// The text after the prefix is not well-formed Base45.
    Base45Malformed,
    /// The Base45 bytes are not a zlib stream.
    InflateError,
    /// The inflated bytes are not one CBOR array of four items, tagged 18 or not.
    CoseStructureError,
    /// The third item of the COSE array is not a byte string.
    PayloadNotBytes,
    /// The payload is not one CBOR item.
    ClaimCborError,
}

/// A COSE_Sign1 message: protected headers, unprotected headers, payload and
/// signature, the headers kept undecoded.
pub struct CoseSign1 {
    pub alg: CborValue,
    pub kid: CborValue,
    pub payload: Vec<u8>,
    pub signature: CborValue,
}

/// `HC1:`
pub open spec fn hc1_prefix() -> Seq<u8> {
    seq![72u8, 67u8, 49u8, 58u8]
}

/// The text after the `HC1:` prefix, if it is there.
pub open spec fn after_prefix(s: Seq<u8>) -> Option<Seq<u8>> {
    if s.len() >= 4 && s.subrange(0, 4) == hc1_prefix() {
        Some(s.subrange(4, s.len() as int))
    } else {
        None
    }
}

/// What a zlib stream (RFC 1950) inflates to, or `None` when it is not one.
pub uninterp spec fn inflated(z: Seq<u8>) -> Option<Seq<u8>>;

/// Relies on miniz_oxide::inflate::decompress_to_vec_zlib: it checks the zlib
/// header, inflates the DEFLATE stream and checks its Adler-32 checksum,
/// giving the data or an error (a bad header, block or checksum, or a
/// premature end). Two bytes at least keep its first output buffer non-empty.
#[verifier::external_body]
fn zlib_decompress(z: &[u8]) -> (r: Option<Vec<u8>>)
    requires
        z@.len() >= 2,
    ensures
        match r {
            Some(v) => inflated(z@) == Some(v@),
            None => inflated(z@).is_none(),
        },
{
    miniz_oxide::inflate::decompress_to_vec_zlib(z).ok()
}

/// What a zlib stream inflates to; a stream of fewer than two bytes has no
/// header and inflates to nothing.
pub open spec fn inflate_zlib(z: Seq<u8>) -> Option<Seq<u8>> {
    if z.len() < 2 {
        None
    } else {
        inflated(z)
    }
}

/// Inflates a zlib stream, checking its header and its checksum.
pub fn inflate(z: &[u8]) -> (r: Option<Vec<u8>>)
    ensures
        match r {
            Some(v) => inflate_zlib(z@) == Some(v@),
            None => inflate_zlib(z@).is_none(),
        },
{
    if z.len() < 2 {
        return None;
    }
    zlib_decompress(z)
}

/// A COSE item with a tag 18 around it taken off.
pub open spec fn untagged(c: Cbor) -> Cbor {
    match c {
        Cbor::Tag(t, b) => if t == 18 {
            *b
        } else {
            c
        },
        _ => c,
    }
}

/// The four items of the COSE_Sign1 array that makes up `s`.
pub open spec fn cose_items(s: Seq<u8>) -> Option<Seq<Cbor>> {
    match parse_whole(s) {
        Some(c) => match untagged(c) {
            Cbor::Array(items) => if items.len() == 4 {
                Some(items)
            } else {
                None
            },
            _ => None,
        },
        None => None,
    }
}

/// The payload bytes of the COSE_Sign1 message that makes up `s`.
pub open spec fn cose_payload(s: Seq<u8>) -> Result<Seq<u8>, DecodeError> {
    match cose_items(s) {
        None => Err(DecodeError::CoseStructureError),
        Some(items) => match items[2] {
            Cbor::Bytes(p) => Ok(p),
            _ => Err(DecodeError::PayloadNotBytes),
        },
    }
}

/// The claim tree in a payload.
pub open spec fn claims(p: Seq<u8>) -> Result<Cbor, DecodeError> {
    match parse_whole(p) {
        Some(c) => Ok(c),
        None => Err(DecodeError::ClaimCborError),
    }
}

/// The printed claims of an inflated COSE_Sign1 message.
pub open spec fn report_of_inflated(z: Seq<u8>) -> Result<Seq<Seq<u8>>, DecodeError> {
    match cose_payload(z) {
        Err(e) => Err(e),
        Ok(p) => match claims(p) {
            Err(e) => Err(e),
            Ok(c) => Ok(lines_of(c, 0)),
        },
    }
}

/// The printed claims of an HC1 certificate text, or the first stage that fails.
pub open spec fn report_of(input: Seq<u8>) -> Result<Seq<Seq<u8>>, DecodeError> {
    match after_prefix(input) {
        None => Err(DecodeError::NotAnHC1Certificate),
        Some(t) => if !base45_valid(t) {
            Err(DecodeError::Base45Malformed)
        } else {
            match inflate_zlib(base45_bytes(t)) {
                None => Err(DecodeError::InflateError),
                Some(z) => report_of_inflated(z),
            }
        },
    }
}

/// The text after the `HC1:` prefix.
pub fn strip_hc1_prefix(input: &[u8]) -> (r: Result<Vec<u8>, DecodeError>)
    ensures
        match r {
            Ok(t) => after_prefix(input@) == Some(t@),
            Err(e) => after_prefix(input@).is_none() && e == DecodeError::NotAnHC1Certificate,
        },
{
    if input.len() < 4 || input[0] != 72 || input[1] != 67 || input[2] != 49 || input[3] != 58 {
        proof {
            if input@.len() >= 4 && input@.subrange(0, 4) == hc1_prefix() {
                assert(input@.subrange(0, 4)[0] == input@[0]);
                assert(input@.subrange(0, 4)[1] == input@[1]);
                assert(input@.subrange(0, 4)[2] == input@[2]);
                assert(input@.subrange(0, 4)[3] == input@[3]);
            }
        }
        return Err(DecodeError::NotAnHC1Certificate);
    }
    assert(input@.subrange(0, 4) =~= hc1_prefix());
    let mut t: Vec<u8> = Vec::new();
    let mut i: usize = 4;
    while i < input.len()
        invariant
            4 <= i <= input.len(),
            t@ == input@.subrange(4, i as int),
        decreases input.len() - i,
    {
        t.push(input[i]);
        i += 1;
        assert(t@ =~= input@.subrange(4, i as int));
    }
    Ok(t)
}

/// Reads the COSE_Sign1 message that makes up `data`, tagged 18 or not.
pub fn parse_cose(data: &[u8]) -> (r: Result<CoseSign1, DecodeError>)
    ensures
        match r {
            Ok(c) => cose_payload(data@) == Ok::<Seq<u8>, DecodeError>(c.payload@) && cose_items(data@) == Some(
                seq![model(c.alg), model(c.kid), Cbor::Bytes(c.payload@), model(c.signature)],
            ),
            Err(e) => cose_payload(data@) == Err::<Seq<u8>, DecodeError>(e),
        },
{
    let v = match decode_whole(data) {
        Some(v) => v,
        None => return Err(DecodeError::CoseStructureError),
    };
    let body = match v {
        CborValue::Tag(t, b) => if t == 18 {
            *b
        } else {
            CborValue::Tag(t, b)
        },
        other => other,
    };
    assert(model(body) == untagged(parse_whole(data@).unwrap()));
    match body {
        CborValue::Array(mut items) => {
            if items.len() != 4 {
                proof {
                    crate::cbor::lemma_model_list_length(items@);
                }
                return Err(DecodeError::CoseStructureError);
            }
            let ghost all = items@;
            proof {
                crate::cbor::lemma_model_list_length(all);
                crate::cbor::lemma_model_list_index(all, 0);
                crate::cbor::lemma_model_list_index(all, 1);
                crate::cbor::lemma_model_list_index(all, 2);
                crate::cbor::lemma_model_list_index(all, 3);
            }
            let signature = items.pop().unwrap();
            let payload = items.pop().unwrap();
            let kid = items.pop().unwrap();
            let alg = items.pop().unwrap();
            match payload {
                CborValue::Bytes(p) => {
                    let c = CoseSign1 { alg, kid, payload: p, signature };
                    assert(crate::cbor::model_list(all, all.len()) =~= seq![
                        model(c.alg),
                        model(c.kid),
                        Cbor::Bytes(c.payload@),
                        model(c.signature),
                    ]);
                    Ok(c)
                },
                _ => Err(DecodeError::PayloadNotBytes),
            }
        },
        _ => Err(DecodeError::CoseStructureError),
    }
}

/// Reads the claim tree that makes up a payload.
pub fn decode_claims(payload: &[u8]) -> (r: Result<CborValue, DecodeError>)
    ensures
        match r {
            Ok(v) => claims(payload@) == Ok::<Cbor, DecodeError>(model(v)),
            Err(e) => claims(payload@) == Err::<Cbor, DecodeError>(e),
        },
{
    match decode_whole(payload) {
        Some(v) => Ok(v),
        None => Err(DecodeError::ClaimCborError),
    }
}

/// Prints the claims of an inflated COSE_Sign1 message.
pub fn decode_inflated(data: &[u8]) -> (r: Result<Vec<Vec<u8>>, DecodeError>)
    ensures
        match r {
            Ok(lines) => report_of_inflated(data@) == Ok::<Seq<Seq<u8>>, DecodeError>(lines_view(lines@)),
            Err(e) => report_of_inflated(data@) == Err::<Seq<Seq<u8>>, DecodeError>(e),
        },
{
    let cose = parse_cose(data)?;
    let claims = decode_claims(cose.payload.as_slice())?;
    Ok(print_value(&claims, 0))
}

/// Decodes an HC1 certificate text into the printed lines of its claims.
pub fn decode(input: &str) -> (r: Result<Vec<Vec<u8>>, DecodeError>)
    ensures
        match r {
            Ok(lines) => report_of(input.spec_bytes()) == Ok::<Seq<Seq<u8>>, DecodeError>(lines_view(lines@)),
            Err(e) => report_of(input.spec_bytes()) == Err::<Seq<Seq<u8>>, DecodeError>(e),
        },
{
    let text = strip_hc1_prefix(input.as_bytes())?;
    let raw = match base45_decode(text.as_slice()) {
        Some(raw) => raw,
        None => return Err(DecodeError::Base45Malformed),
    };
    let inflated = match inflate(raw.as_slice()) {
        Some(z) => z,
        None => return Err(DecodeError::InflateError),
    };
    decode_inflated(inflated.as_slice())
}


/// A certificate text made of `HC1:` and the Base45 text of a zlib stream
/// that inflates to a COSE_Sign1 message, whose payload is a map with a pair
/// keyed by an integer or a text string, decodes and prints at least one line.
pub proof fn lemma_certificate_prints(z: Seq<u8>, pairs: Seq<(Cbor, Cbor)>, k: int)
    requires
        inflate_zlib(z) is Some,
        cose_payload(inflate_zlib(z).unwrap()) is Ok,
        parse_whole(cose_payload(inflate_zlib(z).unwrap())->Ok_0) == Some(Cbor::Mapping(pairs)),
        0 <= k < pairs.len(),
        is_scalar(pairs[k].0),
    ensures
        report_of(hc1_prefix() + base45_text(z)) is Ok,
        report_of(hc1_prefix() + base45_text(z))->Ok_0.len() >= 1,
{
    let input = hc1_prefix() + base45_text(z);
    assert(input.subrange(0, 4) =~= hc1_prefix());
    assert(input.subrange(4, input.len() as int) =~= base45_text(z));
    lemma_base45_round_trip(z);
    lemma_map_with_scalar_key_prints(pairs, 0, k);
}


/// A COSE array, tagged 18 or not, whose length is not four is refused as
/// out of shape.
pub proof fn lemma_cose_needs_four_items(z: Seq<u8>, items: Seq<Cbor>)
    requires
        parse_whole(z) == Some(Cbor::Array(items)) || parse_whole(z) == Some(
            Cbor::Tag(18, Box::new(Cbor::Array(items))),
        ),
        items.len() != 4,
    ensures
        cose_payload(z) == Err::<Seq<u8>, DecodeError>(DecodeError::CoseStructureError),
{
}

/// A COSE payload that is not a byte string is refused as such.
pub proof fn lemma_payload_must_be_bytes(z: Seq<u8>, items: Seq<Cbor>)
    requires
        cose_items(z) == Some(items),
        !(items[2] is Bytes),
    ensures
        cose_payload(z) == Err::<Seq<u8>, DecodeError>(DecodeError::PayloadNotBytes),
{
}

/// Base45 text whose length is 1 modulo 3 makes a certificate malformed.
pub proof fn lemma_base45_length_rejected(t: Seq<u8>)
    requires
        t.len() % 3 == 1,
    ensures
        report_of(hc1_prefix() + t) == Err::<Seq<Seq<u8>>, DecodeError>(DecodeError::Base45Malformed),
{
    let input = hc1_prefix() + t;
    assert(input.subrange(0, 4) =~= hc1_prefix());
    assert(input.subrange(4, input.len() as int) =~= t);
    crate::b45::lemma_length_one_mod_three(t);
}

} // verus!
