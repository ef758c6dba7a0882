//! Base45 (RFC 9285) over bytes, with the encoding and decoding laws.

use vstd::prelude::*;

verus! {

/// Value of a Base45 digit, or -1 for a byte outside the alphabet
/// `0-9 A-Z space $ % * + - . / :` (compared by ASCII code).
pub open spec fn digit_value(b: u8) -> int {
    if 48 <= b <= 57 {
        b - 48
    } else if 65 <= b <= 90 {
        b - 65 + 10
    } else if b == 32 {
        36
    } else if b == 36 {
        37
    } else if b == 37 {
        38
    } else if b == 42 {
        39
    } else if b == 43 {
        40
    } else if b == 45 {
        41
    } else if b == 46 {
        42
    } else if b == 47 {
        43
    } else if b == 58 {
        44
    } else {
        -1
    }
}

/// The ASCII code of the digit for a value in `0..45`.
pub open spec fn digit_byte(n: int) -> u8 {
    if n < 10 {
        (48 + n) as u8
    } else if n < 36 {
        (65 + n - 10) as u8
    } else if n == 36 {
        32
    } else if n == 37 {
        36
    } else if n == 38 {
        37
    } else if n == 39 {
        42
    } else if n == 40 {
        43
    } else if n == 41 {
        45
    } else if n == 42 {
        46
    } else if n == 43 {
        47
    } else {
        58
    }
}

pub open spec fn pair_value(s: Seq<u8>, i: int) -> int {
    digit_value(s[i]) + 45 * digit_value(s[i + 1])
}

pub open spec fn triple_value(s: Seq<u8>, i: int) -> int {
    digit_value(s[i]) + 45 * digit_value(s[i + 1]) + 2025 * digit_value(s[i + 2])
}

/// Whether `s` is read as Base45: every byte is a digit, the length is not
/// 1 modulo 3, and every full chunk of three is below 65536. When `strict`,
/// a final chunk of two must also be below 256.
pub open spec fn chunks_ok(s: Seq<u8>, strict: bool) -> bool
    decreases s.len(),
{
    if s.len() == 0 {
        true
    } else if s.len() == 1 {
        false
    } else if s.len() == 2 {
        digit_value(s[0]) >= 0 && digit_value(s[1]) >= 0 && (strict ==> pair_value(s, 0) < 256)
    } else {
        digit_value(s[0]) >= 0 && digit_value(s[1]) >= 0 && digit_value(s[2]) >= 0
            && triple_value(s, 0) < 65536 && chunks_ok(s.subrange(3, s.len() as int), strict)
    }
}

/// Well-formed Base45 text.
pub open spec fn base45_valid(s: Seq<u8>) -> bool {
    chunks_ok(s, true)
}

/// The bytes that Base45 text stands for: two big-endian bytes for each
/// chunk of three digits, the low byte of the value of a final chunk of two.
pub open spec fn base45_bytes(s: Seq<u8>) -> Seq<u8>
    decreases s.len(),
{
    if s.len() < 2 {
        Seq::empty()
    } else if s.len() == 2 {
        seq![(pair_value(s, 0) % 256) as u8]
    } else {
        seq![(triple_value(s, 0) / 256) as u8, (triple_value(s, 0) % 256) as u8]
            + base45_bytes(s.subrange(3, s.len() as int))
    }
}

/// The Base45 text of some bytes: each pair of bytes, read big-endian, as
/// three digits from the least significant; a final single byte as two.
pub open spec fn base45_text(b: Seq<u8>) -> Seq<u8>
    decreases b.len(),
{
    if b.len() == 0 {
        Seq::empty()
    } else if b.len() == 1 {
        seq![digit_byte((b[0] as int) % 45), digit_byte((b[0] as int) / 45)]
    } else {
        let v = 256 * (b[0] as int) + (b[1] as int);
        seq![digit_byte(v % 45), digit_byte((v / 45) % 45), digit_byte(v / 2025)]
            + base45_text(b.subrange(2, b.len() as int))
    }
}

pub assume_specification[ ::base45::alphabet::decode ](v: u8) -> (r: Option<u8>)
    ensures
        digit_value(v) >= 0 ==> r == Some(digit_value(v) as u8),
        digit_value(v) < 0 ==> r.is_none(),
;

/// Relies on base45::decode: it reads chunks as `chunks_ok(_, false)` says
/// and keeps only the low byte of a final chunk of two.
#[verifier::external_body]
fn decode_chunks(s: &[u8]) -> (r: Option<Vec<u8>>)
    ensures
        r.is_some() == chunks_ok(s@, false),
        r.is_some() ==> r.unwrap()@ == base45_bytes(s@),
{
    ::base45::decode(s).ok()
}

/// Relies on base45::encode: the digits of each pair of bytes, then of a
/// final single byte.
#[verifier::external_body]
fn encode_chunks(b: &[u8]) -> (r: Vec<u8>)
    ensures
        r@ == base45_text(b@),
{
    ::base45::encode(b).into_bytes()
}

proof fn lemma_last_pair_digits(s: Seq<u8>, strict: bool)
    requires
        chunks_ok(s, strict),
    ensures
        s.len() % 3 == 2 ==> digit_value(s[s.len() - 2]) >= 0 && digit_value(s[s.len() - 1]) >= 0,
    decreases s.len(),
{
    if s.len() > 2 {
        let t = s.subrange(3, s.len() as int);
        lemma_last_pair_digits(t, strict);
        if s.len() % 3 == 2 {
            assert(t[t.len() - 2] == s[s.len() - 2]);
            assert(t[t.len() - 1] == s[s.len() - 1]);
        }
    }
}

proof fn lemma_strict_from_last_pair(s: Seq<u8>)
    requires
        chunks_ok(s, false),
        s.len() % 3 == 2 ==> pair_value(s, s.len() - 2) < 256,
    ensures
        chunks_ok(s, true),
    decreases s.len(),
{
    if s.len() > 2 {
        let t = s.subrange(3, s.len() as int);
        if s.len() % 3 == 2 {
            assert(t[t.len() - 2] == s[s.len() - 2]);
            assert(t[t.len() - 1] == s[s.len() - 1]);
        }
        lemma_strict_from_last_pair(t);
    }
}

proof fn lemma_strict_has_last_pair(s: Seq<u8>)
    requires
        chunks_ok(s, true),
    ensures
        chunks_ok(s, false),
        s.len() % 3 == 2 ==> pair_value(s, s.len() - 2) < 256,
    decreases s.len(),
{
    if s.len() > 2 {
        let t = s.subrange(3, s.len() as int);
        lemma_strict_has_last_pair(t);
        if s.len() % 3 == 2 {
            assert(t[t.len() - 2] == s[s.len() - 2]);
            assert(t[t.len() - 1] == s[s.len() - 1]);
        }
    }
}

/// Decodes Base45 text; fails exactly on text that is not `base45_valid`.
pub fn base45_decode(s: &[u8]) -> (r: Option<Vec<u8>>)
    ensures
        r.is_some() == base45_valid(s@),
        r.is_some() ==> r.unwrap()@ == base45_bytes(s@),
{
    let n = s.len();
    if n % 3 == 2 {
        let lo = ::base45::alphabet::decode(s[n - 2]);
        let hi = ::base45::alphabet::decode(s[n - 1]);
        if let (Some(lo), Some(hi)) = (lo, hi) {
            if lo as u32 + 45 * hi as u32 >= 256 {
                proof {
                    if base45_valid(s@) {
                        lemma_strict_has_last_pair(s@);
                    }
                }
                return None;
            }
        }
    }
    let r = decode_chunks(s);
    proof {
        if r.is_some() {
            lemma_last_pair_digits(s@, false);
            lemma_strict_from_last_pair(s@);
        } else if base45_valid(s@) {
            lemma_strict_has_last_pair(s@);
        }
    }
    r
}

/// Encodes bytes as Base45 text.
pub fn base45_encode(b: &[u8]) -> (r: Vec<u8>)
    ensures
        r@ == base45_text(b@),
{
    encode_chunks(b)
}

proof fn lemma_digit_round_trip(n: int)
    requires
        0 <= n < 45,
    ensures
        digit_value(digit_byte(n)) == n,
{
}

/// Decoding the Base45 text of any bytes gives those bytes back, and the
/// text is well-formed.
pub proof fn lemma_base45_round_trip(b: Seq<u8>)
    ensures
        base45_valid(base45_text(b)),
        base45_bytes(base45_text(b)) == b,
    decreases b.len(),
{
    let s = base45_text(b);
    if b.len() == 1 {
        lemma_digit_round_trip((b[0] as int) % 45);
        lemma_digit_round_trip((b[0] as int) / 45);
        assert(base45_bytes(s) =~= b);
    } else if b.len() >= 2 {
        let v = 256 * (b[0] as int) + (b[1] as int);
        let rest = b.subrange(2, b.len() as int);
        lemma_digit_round_trip(v % 45);
        lemma_digit_round_trip((v / 45) % 45);
        assert(0 <= v < 65536);
        assert(v / 2025 < 45) by (nonlinear_arith) requires 0 <= v < 65536;
        lemma_digit_round_trip(v / 2025);
        assert(v % 45 + 45 * ((v / 45) % 45) + 2025 * (v / 2025) == v) by (nonlinear_arith)
            requires 0 <= v;
        lemma_base45_round_trip(rest);
        assert(s.subrange(3, s.len() as int) =~= base45_text(rest));
        assert(triple_value(s, 0) == v);
        assert(base45_bytes(s) =~= b);
    }
}


/// Text whose length is 1 modulo 3 is not Base45.
pub proof fn lemma_length_one_mod_three(s: Seq<u8>)
    requires
        s.len() % 3 == 1,
    ensures
        !base45_valid(s),
        !chunks_ok(s, false),
    decreases s.len(),
{
    if s.len() > 3 {
        lemma_length_one_mod_three(s.subrange(3, s.len() as int));
    }
}

} // verus!
