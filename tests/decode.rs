use std::collections::BTreeMap;

use dcc_decode::b45::{base45_decode, base45_encode};
use dcc_decode::cbor::{decode_whole, CborValue};
use dcc_decode::pipeline::{decode, decode_inflated, inflate, parse_cose, strip_hc1_prefix, DecodeError};
use dcc_decode::printer::print_value;

fn adler32(data: &[u8]) -> u32 {
    let mut a: u32 = 1;
    let mut b: u32 = 0;
    for &x in data {
        a = (a + x as u32) % 65521;
        b = (b + a) % 65521;
    }
    (b << 16) | a
}

/// A zlib stream holding `data` in one stored block.
fn zlib_stored(data: &[u8]) -> Vec<u8> {
    assert!(data.len() < 65536);
    let mut out = vec![0x78, 0x01, 0x01];
    let len = data.len() as u16;
    out.extend_from_slice(&len.to_le_bytes());
    out.extend_from_slice(&(!len).to_le_bytes());
    out.extend_from_slice(data);
    out.extend_from_slice(&adler32(data).to_be_bytes());
    out
}

fn certificate(cose: &[u8]) -> String {
    let text = base45_encode(&zlib_stored(cose));
    format!("HC1:{}", String::from_utf8(text).unwrap())
}

fn cose_with_payload(payload: &[u8]) -> Vec<u8> {
    let mut out = vec![0x84, 0x40, 0xA0];
    assert!(payload.len() < 24);
    out.push(0x40 + payload.len() as u8);
    out.extend_from_slice(payload);
    out.push(0x40);
    out
}

fn text_lines(lines: Vec<Vec<u8>>) -> Vec<String> {
    lines.into_iter().map(|l| String::from_utf8(l).unwrap()).collect()
}

const NESTED: [u8; 21] = [
    0xA1, 0x39, 0x01, 0x03, 0xA1, 0x01, 0xA1, 0x61, 0x76, 0x81, 0xA2, 0x62, 0x64, 0x6E, 0x02, 0x62,
    0x73, 0x64, 0x02, 0x00, 0x00,
];

#[test]
fn minimal_round_trip_prints_nothing() {
    let input = certificate(&[0x84, 0x40, 0xA0, 0x41, 0xA0, 0x40]);
    assert_eq!(decode(&input), Ok(vec![]));
}

#[test]
fn single_scalar_claim() {
    let input = certificate(&cose_with_payload(&[0xA1, 0x01, 0x62, 0x44, 0x45]));
    let lines = text_lines(decode(&input).unwrap());
    assert_eq!(lines, vec!["1: DE".to_string()]);
}

#[test]
fn nested_map() {
    let payload = &NESTED[..19];
    let mut cose = vec![0x84, 0x40, 0xA0, 0x53];
    cose.extend_from_slice(payload);
    cose.push(0x40);
    let lines = text_lines(decode(&certificate(&cose)).unwrap());
    assert_eq!(
        lines.join("\n") + "\n",
        "-260:\n  1:\n    v:\n      0:\n        dn: 2\n        sd: 2\n"
    );
}

#[test]
fn tagged_cose_prints_as_untagged() {
    let mut cose = vec![0xD2];
    cose.extend_from_slice(&cose_with_payload(&[0xA1, 0x01, 0x62, 0x44, 0x45]));
    let lines = text_lines(decode(&certificate(&cose)).unwrap());
    assert_eq!(lines, vec!["1: DE".to_string()]);
}

#[test]
fn missing_prefix() {
    assert_eq!(decode("HELLO"), Err(DecodeError::NotAnHC1Certificate));
    assert_eq!(decode("hc1:00"), Err(DecodeError::NotAnHC1Certificate));
    assert_eq!(decode(""), Err(DecodeError::NotAnHC1Certificate));
}

#[test]
fn corrupt_base45() {
    assert_eq!(decode("HC1:!!!"), Err(DecodeError::Base45Malformed));
}

#[test]
fn base45_length_one_mod_three_is_malformed() {
    assert_eq!(decode("HC1:A"), Err(DecodeError::Base45Malformed));
    assert_eq!(decode("HC1:ABCD"), Err(DecodeError::Base45Malformed));
    assert_eq!(base45_decode(b"ABCDEFG"), None);
}

#[test]
fn base45_known_text() {
    assert_eq!(base45_decode(b"%69 VD92EX0"), Some(b"Hello!!".to_vec()));
    assert_eq!(base45_encode(b"Hello!!"), b"%69 VD92EX0".to_vec());
    assert_eq!(base45_encode(b"AB"), b"BB8".to_vec());
    assert_eq!(base45_decode(b"BB8"), Some(b"AB".to_vec()));
    assert_eq!(base45_decode(b""), Some(vec![]));
}

#[test]
fn base45_value_limits() {
    // 44 + 45 * 44 is above one byte; the final pair must fit in one.
    assert_eq!(base45_decode(b"::"), None);
    assert_eq!(base45_decode(b"U5"), Some(vec![255]));
    // 44 + 45 * 44 + 2025 * 44 is above two bytes.
    assert_eq!(base45_decode(b":::"), None);
    assert_eq!(base45_decode(b"FGW"), Some(vec![255, 255]));
    assert_eq!(base45_decode(b"ab"), None);
}

#[test]
fn base45_round_trip() {
    let samples: Vec<Vec<u8>> = vec![
        vec![],
        vec![0],
        vec![255],
        vec![0, 0],
        vec![255, 255, 255],
        (0..=255u8).collect(),
    ];
    for b in samples {
        assert_eq!(base45_decode(&base45_encode(&b)), Some(b));
    }
}

#[test]
fn strip_prefix_keeps_suffix() {
    assert_eq!(strip_hc1_prefix(b"HC1:XYZ"), Ok(b"XYZ".to_vec()));
    assert_eq!(strip_hc1_prefix(b"HC1:"), Ok(vec![]));
    assert_eq!(strip_hc1_prefix(b"HC2:XYZ"), Err(DecodeError::NotAnHC1Certificate));
}

#[test]
fn bad_zlib_is_inflate_error() {
    let text = base45_encode(&[1, 2, 3, 4, 5, 6]);
    let input = format!("HC1:{}", String::from_utf8(text).unwrap());
    assert_eq!(decode(&input), Err(DecodeError::InflateError));
    let mut z = zlib_stored(&[0x84, 0x40, 0xA0, 0x40, 0x40]);
    let n = z.len();
    z[n - 1] ^= 1;
    let input = format!("HC1:{}", String::from_utf8(base45_encode(&z)).unwrap());
    assert_eq!(decode(&input), Err(DecodeError::InflateError));
}

#[test]
fn cose_array_of_three_is_refused() {
    assert_eq!(decode(&certificate(&[0x83, 0x40, 0xA0, 0x40])), Err(DecodeError::CoseStructureError));
    assert_eq!(decode(&certificate(&[0x85, 0x40, 0xA0, 0x40, 0x40, 0x40])), Err(DecodeError::CoseStructureError));
    assert_eq!(decode(&certificate(&[0xA0])), Err(DecodeError::CoseStructureError));
    assert_eq!(decode(&certificate(&[0x84, 0x40, 0xA0])), Err(DecodeError::CoseStructureError));
}

#[test]
fn payload_must_be_bytes() {
    assert_eq!(decode(&certificate(&[0x84, 0x40, 0xA0, 0x61, 0x41, 0x40])), Err(DecodeError::PayloadNotBytes));
    assert_eq!(decode(&certificate(&[0x84, 0x40, 0xA0, 0x01, 0x40])), Err(DecodeError::PayloadNotBytes));
    assert_eq!(decode(&certificate(&[0x84, 0x40, 0xA0, 0xF6, 0x40])), Err(DecodeError::PayloadNotBytes));
}

#[test]
fn bad_claims_are_claim_errors() {
    assert_eq!(decode(&certificate(&cose_with_payload(&[0xFF]))), Err(DecodeError::ClaimCborError));
    assert_eq!(decode(&certificate(&cose_with_payload(&[0x01, 0x02]))), Err(DecodeError::ClaimCborError));
    assert_eq!(decode(&certificate(&cose_with_payload(&[0x62, 0xFF, 0xFE]))), Err(DecodeError::ClaimCborError));
    assert_eq!(decode(&certificate(&cose_with_payload(&[0x82, 0x01]))), Err(DecodeError::ClaimCborError));
}

#[test]
fn parse_cose_keeps_fields() {
    let c = parse_cose(&[0xD2, 0x84, 0x41, 0x07, 0xA0, 0x42, 0x01, 0x02, 0x41, 0x09]).unwrap();
    assert_eq!(c.payload, vec![1, 2]);
    assert!(matches!(c.alg, CborValue::Bytes(ref b) if b == &vec![7]));
    assert!(matches!(c.signature, CborValue::Bytes(ref b) if b == &vec![9]));
    assert!(matches!(c.kid, CborValue::Mapping(ref m) if m.is_empty()));
}

#[test]
fn decode_inflated_prints_claims() {
    let lines = text_lines(decode_inflated(&cose_with_payload(&[0xA1, 0x04, 0x1A, 0x60, 0x00, 0x00, 0x00])).unwrap());
    assert_eq!(lines, vec!["4: 1610612736".to_string()]);
}

#[test]
fn scalar_map_prints_one_line_per_pair_in_order() {
    // {3: "c", "a": -1, 1: 2, "z": "y"}, in that order
    let bytes = [0xA4, 0x03, 0x61, 0x63, 0x61, 0x61, 0x20, 0x01, 0x02, 0x61, 0x7A, 0x61, 0x79];
    let v = decode_whole(&bytes).unwrap();
    assert_eq!(text_lines(print_value(&v, 0)), vec!["3: c", "a: -1", "1: 2", "z: y"]);
}

#[test]
fn array_headers_count_from_zero() {
    // ["a", [], {1: 1}, 7]
    let bytes = [0x84, 0x61, 0x61, 0x80, 0xA1, 0x01, 0x01, 0x07];
    let v = decode_whole(&bytes).unwrap();
    assert_eq!(text_lines(print_value(&v, 0)), vec!["0:", "  a", "1:", "2:", "  1: 1", "3:", "  7"]);
}

#[test]
fn indentation_follows_depth() {
    // [[[5]]]
    let v = decode_whole(&[0x81, 0x81, 0x81, 0x05]).unwrap();
    assert_eq!(text_lines(print_value(&v, 0)), vec!["0:", "  0:", "    0:", "      5"]);
}

#[test]
fn empty_containers_print_nothing() {
    assert!(print_value(&decode_whole(&[0xA0]).unwrap(), 0).is_empty());
    assert!(print_value(&decode_whole(&[0x80]).unwrap(), 0).is_empty());
    // {1: {}} prints only its key
    assert_eq!(text_lines(print_value(&decode_whole(&[0xA1, 0x01, 0xA0]).unwrap(), 0)), vec!["1:"]);
}

#[test]
fn other_values_are_skipped() {
    // {h'01': 1, true: 2, 1: h'02', 2: true, 3: null, 4: 1.5}
    let bytes = [
        0xA6, 0x41, 0x01, 0x01, 0xF5, 0x02, 0x01, 0x42, 0x02, 0x00, 0x02, 0xF5, 0x03, 0xF6, 0x04, 0xF9, 0x3E,
        0x00,
    ];
    let v = decode_whole(&bytes).unwrap();
    assert_eq!(text_lines(print_value(&v, 0)), vec!["1:", "2:", "3:", "4:"]);
    assert!(print_value(&decode_whole(&[0x41, 0x01]).unwrap(), 0).is_empty());
    assert!(print_value(&decode_whole(&[0xF4]).unwrap(), 0).is_empty());
}

#[test]
fn integers_print_in_decimal() {
    let v = decode_whole(&[0x3B, 0xFF, 0xFF, 0xFF, 0xFF, 0xFF, 0xFF, 0xFF, 0xFF]).unwrap();
    assert_eq!(text_lines(print_value(&v, 0)), vec!["-18446744073709551616"]);
    let v = decode_whole(&[0x1B, 0xFF, 0xFF, 0xFF, 0xFF, 0xFF, 0xFF, 0xFF, 0xFF]).unwrap();
    assert_eq!(text_lines(print_value(&v, 0)), vec!["18446744073709551615"]);
    let v = decode_whole(&[0x00]).unwrap();
    assert_eq!(text_lines(print_value(&v, 0)), vec!["0"]);
    let v = decode_whole(&[0x38, 0x63]).unwrap();
    assert_eq!(text_lines(print_value(&v, 0)), vec!["-100"]);
}

#[test]
fn cbor_items_decode() {
    assert!(matches!(decode_whole(&[0xD8, 0x20, 0x01]), Some(CborValue::Tag(32, _))));
    assert!(matches!(decode_whole(&[0xF9, 0x3C, 0x00]), Some(CborValue::FloatBits(0x3C00))));
    assert!(matches!(decode_whole(&[0xF7]), Some(CborValue::Simple(23))));
    assert!(matches!(decode_whole(&[0xF8, 0x20]), Some(CborValue::Simple(32))));
    assert!(matches!(decode_whole(&[0xF4]), Some(CborValue::Bool(false))));
    assert!(matches!(decode_whole(&[0xF6]), Some(CborValue::Null)));
    assert!(decode_whole(&[]).is_none());
    assert!(decode_whole(&[0x1C]).is_none());
    assert!(decode_whole(&[0x19, 0x01]).is_none());
    assert!(decode_whole(&[0x9B, 0xFF, 0xFF, 0xFF, 0xFF, 0xFF, 0xFF, 0xFF, 0xFF]).is_none());
}

#[test]
fn reads_what_serde_cbor_writes() {
    let mut m = BTreeMap::new();
    m.insert(serde_cbor::Value::Integer(1), serde_cbor::Value::Text("DE".to_string()));
    m.insert(
        serde_cbor::Value::Text("list".to_string()),
        serde_cbor::Value::Array(vec![serde_cbor::Value::Integer(-7), serde_cbor::Value::Bytes(vec![1])]),
    );
    let bytes = serde_cbor::to_vec(&serde_cbor::Value::Map(m)).unwrap();
    let v = decode_whole(&bytes).unwrap();
    assert_eq!(text_lines(print_value(&v, 0)), vec!["1: DE", "list:", "  0:", "    -7", "  1:"]);
}

#[test]
fn nested_claims_through_decode_whole() {
    let v = decode_whole(&NESTED[..19]).unwrap();
    assert_eq!(
        text_lines(print_value(&v, 0)),
        vec!["-260:", "  1:", "    v:", "      0:", "        dn: 2", "        sd: 2"]
    );
    assert!(decode_whole(&NESTED).is_none());
}

#[test]
fn inflates_huffman_coded_stream() {
    let z = [120, 156, 203, 72, 205, 201, 201, 87, 200, 64, 39, 1, 104, 3, 8, 177];
    assert_eq!(inflate(&z), Some(b"hello hello hello hello".to_vec()));
}

#[test]
fn compressed_certificate_decodes() {
    let z = [120, 218, 107, 113, 88, 224, 186, 144, 49, 201, 197, 213, 1, 0, 21, 62, 3, 119];
    let input = format!("HC1:{}", String::from_utf8(base45_encode(&z)).unwrap());
    assert_eq!(text_lines(decode(&input).unwrap()), vec!["1: DE".to_string()]);
}

#[test]
fn inflate_checks_header_and_checksum() {
    let good = zlib_stored(b"abc");
    assert_eq!(inflate(&good), Some(b"abc".to_vec()));
    let mut bad_check = good.clone();
    bad_check[1] = 0x02;
    assert_eq!(inflate(&bad_check), None);
    let mut bad_method = good.clone();
    bad_method[0] = 0x79;
    assert_eq!(inflate(&bad_method), None);
    let mut dict = good.clone();
    dict[1] = 0x20;
    assert_eq!(inflate(&dict), None);
    let mut bad_sum = good.clone();
    let n = bad_sum.len();
    bad_sum[n - 1] ^= 1;
    assert_eq!(inflate(&bad_sum), None);
    assert_eq!(inflate(&good[..good.len() - 2]), None);
    assert_eq!(inflate(&good[..5]), None);
    assert_eq!(inflate(&[0x78]), None);
}


#[test]
fn indefinite_lengths_decode() {
    // (_ h'01', h'0203')
    assert!(matches!(decode_whole(&[0x5F, 0x41, 0x01, 0x42, 0x02, 0x03, 0xFF]), Some(CborValue::Bytes(ref b)) if b == &vec![1, 2, 3]));
    // (_ "D", "E")
    let v = decode_whole(&[0x7F, 0x61, 0x44, 0x61, 0x45, 0xFF]).unwrap();
    assert_eq!(text_lines(print_value(&v, 0)), vec!["DE"]);
    // {_ 1: [_ 2, 3]}
    let v = decode_whole(&[0xBF, 0x01, 0x9F, 0x02, 0x03, 0xFF, 0xFF]).unwrap();
    assert_eq!(text_lines(print_value(&v, 0)), vec!["1:", "  0:", "    2", "  1:", "    3"]);
    // [_ ]
    assert!(print_value(&decode_whole(&[0x9F, 0xFF]).unwrap(), 0).is_empty());
}

#[test]
fn indefinite_lengths_refused_when_malformed() {
    // missing break
    assert!(decode_whole(&[0x9F, 0x01]).is_none());
    assert!(decode_whole(&[0xBF, 0x01, 0x02]).is_none());
    // a map closed between a key and its value
    assert!(decode_whole(&[0xBF, 0x01, 0xFF]).is_none());
    // a text chunk inside a byte string
    assert!(decode_whole(&[0x5F, 0x61, 0x41, 0xFF]).is_none());
    // a chunk of indefinite length inside a string
    assert!(decode_whole(&[0x5F, 0x5F, 0xFF, 0xFF]).is_none());
    // a lone break, and an integer of indefinite length
    assert!(decode_whole(&[0xFF]).is_none());
    assert!(decode_whole(&[0x1F]).is_none());
}

#[test]
fn printing_at_a_level_indents_every_line() {
    // {1: "DE", "a": -3}
    let v = decode_whole(&[0xA2, 0x01, 0x62, 0x44, 0x45, 0x61, 0x61, 0x22]).unwrap();
    assert_eq!(text_lines(print_value(&v, 2)), vec!["    1: DE", "    a: -3"]);
    // ["x", [7]]
    let v = decode_whole(&[0x82, 0x61, 0x78, 0x81, 0x07]).unwrap();
    assert_eq!(text_lines(print_value(&v, 1)), vec!["  0:", "    x", "  1:", "    0:", "      7"]);
    assert!(print_value(&decode_whole(&[0xA0]).unwrap(), 3).is_empty());
    assert!(print_value(&decode_whole(&[0x80]).unwrap(), 3).is_empty());
}

#[test]
fn real_zlib_stream_with_bad_checksum_is_refused() {
    let mut z = vec![120, 218, 107, 113, 88, 224, 186, 144, 49, 201, 197, 213, 1, 0, 21, 62, 3, 119];
    assert!(inflate(&z).is_some());
    z[17] ^= 0x10;
    assert_eq!(inflate(&z), None);
    let input = format!("HC1:{}", String::from_utf8(base45_encode(&z)).unwrap());
    assert_eq!(decode(&input), Err(DecodeError::InflateError));
}
