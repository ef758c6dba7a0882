//! CBOR (RFC 8949) items, of definite or indefinite length, decoded into a tree whose maps
//! keep the order of their pairs.

use vstd::prelude::*;

verus! {

/// The mathematical form of a CBOR item.
pub enum Cbor {
    Int(int),
    Bytes(Seq<u8>),
    Text(Seq<u8>),
    Array(Seq<Cbor>),
    Mapping(Seq<(Cbor, Cbor)>),
    Tag(nat, Box<Cbor>),
    Bool(bool),
    Null,
    /// A simple value other than `false`, `true` and `null`.
    Simple(nat),
    /// A floating-point item, as the bits of its encoding.
    FloatBits(nat),
}

/// A decoded CBOR item.
pub enum CborValue {
    Integer(i128),
    Bytes(Vec<u8>),
    /// A text string, as its UTF-8 bytes.
    Text(Vec<u8>),
    Array(Vec<CborValue>),
    /// Key and value pairs, in the order in which they were encoded.
    Mapping(Vec<(CborValue, CborValue)>),
    Tag(u64, Box<CborValue>),
    Bool(bool),
    Null,
    Simple(u8),
    FloatBits(u64),
}

pub open spec fn model(v: CborValue) -> Cbor
    decreases v,
{
    match v {
        CborValue::Integer(n) => Cbor::Int(n as int),
        CborValue::Bytes(b) => Cbor::Bytes(b@),
        CborValue::Text(t) => Cbor::Text(t@),
        CborValue::Array(a) => Cbor::Array(model_list(a@, a@.len())),
        CborValue::Mapping(m) => Cbor::Mapping(model_pairs(m@, m@.len())),
        CborValue::Tag(t, b) => Cbor::Tag(t as nat, Box::new(model(*b))),
        CborValue::Bool(b) => Cbor::Bool(b),
        CborValue::Null => Cbor::Null,
        CborValue::Simple(n) => Cbor::Simple(n as nat),
        CborValue::FloatBits(n) => Cbor::FloatBits(n as nat),
    }
}

/// The models of the first `n` items of `s`.
pub open spec fn model_list(s: Seq<CborValue>, n: nat) -> Seq<Cbor>
    decreases s, n,
{
    if n == 0 || n > s.len() {
        Seq::empty()
    } else {
        model_list(s, (n - 1) as nat).push(model(s[n - 1]))
    }
}

/// The models of the first `n` pairs of `s`.
pub open spec fn model_pairs(s: Seq<(CborValue, CborValue)>, n: nat) -> Seq<(Cbor, Cbor)>
    decreases s, n,
{
    if n == 0 || n > s.len() {
        Seq::empty()
    } else {
        model_pairs(s, (n - 1) as nat).push((model(s[n - 1].0), model(s[n - 1].1)))
    }
}


/// Whether bytes are well-formed UTF-8.
pub uninterp spec fn utf8_valid(b: Seq<u8>) -> bool;

/// Relies on std::str::from_utf8: it succeeds exactly on well-formed UTF-8.
#[verifier::external_body]
fn is_utf8(b: &[u8]) -> (r: bool)
    ensures
        r == utf8_valid(b@),
{
    std::str::from_utf8(b).is_ok()
}

/// How many bytes follow the initial byte to hold the argument, for the
/// low five bits `info` of that byte; -1 where there is no argument
/// (reserved values, and the indefinite lengths).
pub open spec fn arg_size(info: int) -> int {
    if info < 24 {
        0
    } else if info == 24 {
        1
    } else if info == 25 {
        2
    } else if info == 26 {
        4
    } else if info == 27 {
        8
    } else {
        -1
    }
}

/// The first `n` bytes of `t`, read as a big-endian number.
pub open spec fn be_value(t: Seq<u8>, n: nat) -> nat
    decreases n,
{
    if n == 0 || n > t.len() {
        0
    } else {
        (be_value(t, (n - 1) as nat) * 256 + t[n - 1]) as nat
    }
}

/// The head of the item at `pos`: its major type, its argument and where
/// its content starts.
pub open spec fn head(s: Seq<u8>, pos: int) -> Option<(int, nat, int)> {
    if 0 <= pos < s.len() {
        let info = s[pos] % 32;
        let k = arg_size(info as int);
        if k < 0 || pos + 1 + k > s.len() {
            None
        } else if k == 0 {
            Some(((s[pos] / 32) as int, info as nat, pos + 1))
        } else {
            Some(((s[pos] / 32) as int, be_value(s.subrange(pos + 1, pos + 1 + k), k as nat), pos + 1 + k))
        }
    } else {
        None
    }
}

/// The item encoded at `pos`, and where it ends.
pub open spec fn parse_at(s: Seq<u8>, pos: int) -> Option<(Cbor, int)>
    decreases s.len() - pos, 0int,
{
    match head(s, pos) {
        None => if indefinite(s, pos) {
            let major = s[pos] / 32;
            if major == 2 {
                match parse_chunks(s, pos + 1, 2) {
                    Some((b, q)) => Some((Cbor::Bytes(b), q)),
                    None => None,
                }
            } else if major == 3 {
                match parse_chunks(s, pos + 1, 3) {
                    Some((t, q)) => Some((Cbor::Text(t), q)),
                    None => None,
                }
            } else if major == 4 {
                match parse_until_break(s, pos + 1) {
                    Some((items, q)) => Some((Cbor::Array(items), q)),
                    None => None,
                }
            } else {
                match parse_pairs_until_break(s, pos + 1) {
                    Some((pairs, q)) => Some((Cbor::Mapping(pairs), q)),
                    None => None,
                }
            }
        } else {
            None
        },
        Some((major, arg, p)) => {
            if major == 0 {
                Some((Cbor::Int(arg as int), p))
            } else if major == 1 {
                Some((Cbor::Int(-1 - arg), p))
            } else if major == 2 || major == 3 {
                if p + arg <= s.len() {
                    let b = s.subrange(p, p + arg);
                    if major == 2 {
                        Some((Cbor::Bytes(b), p + arg))
                    } else if utf8_valid(b) {
                        Some((Cbor::Text(b), p + arg))
                    } else {
                        None
                    }
                } else {
                    None
                }
            } else if major == 4 {
                match parse_list(s, p, arg) {
                    Some((items, q)) => Some((Cbor::Array(items), q)),
                    None => None,
                }
            } else if major == 5 {
                match parse_pairs(s, p, arg) {
                    Some((pairs, q)) => Some((Cbor::Mapping(pairs), q)),
                    None => None,
                }
            } else if major == 6 {
                match parse_at(s, p) {
                    Some((v, q)) => Some((Cbor::Tag(arg, Box::new(v)), q)),
                    None => None,
                }
            } else {
                let info = s[pos] % 32;
                if info == 20 {
                    Some((Cbor::Bool(false), p))
                } else if info == 21 {
                    Some((Cbor::Bool(true), p))
                } else if info == 22 {
                    Some((Cbor::Null, p))
                } else if info <= 24 {
                    Some((Cbor::Simple(arg), p))
                } else {
                    Some((Cbor::FloatBits(arg), p))
                }
            }
        },
    }
}

/// `n` items, one after the other from `pos`, and where the last ends.
/// (Every item takes at least its initial byte.)
pub open spec fn parse_list(s: Seq<u8>, pos: int, n: nat) -> Option<(Seq<Cbor>, int)>
    decreases s.len() - pos, 1int, n,
{
    if n == 0 {
        Some((Seq::empty(), pos))
    } else {
        match parse_at(s, pos) {
            Some((v, q)) => {
                if q <= pos || q > s.len() {
                    None
                } else {
                    match parse_list(s, q, (n - 1) as nat) {
                        Some((rest, r)) => Some((seq![v] + rest, r)),
                        None => None,
                    }
                }
            },
            None => None,
        }
    }
}

/// `n` pairs of items, key then value, from `pos`, and where the last ends.
pub open spec fn parse_pairs(s: Seq<u8>, pos: int, n: nat) -> Option<(Seq<(Cbor, Cbor)>, int)>
    decreases s.len() - pos, 1int, n,
{
    if n == 0 {
        Some((Seq::empty(), pos))
    } else {
        match parse_at(s, pos) {
            Some((k, q)) => {
                if q <= pos || q > s.len() {
                    None
                } else {
                    match parse_at(s, q) {
                        Some((v, r)) => {
                            if r <= q || r > s.len() {
                                None
                            } else {
                                match parse_pairs(s, r, (n - 1) as nat) {
                                    Some((rest, e)) => Some((seq![(k, v)] + rest, e)),
                                    None => None,
                                }
                            }
                        },
                        None => None,
                    }
                }
            },
            None => None,
        }
    }
}

/// The initial byte at `pos` opens a string, array or map of indefinite length.
pub open spec fn indefinite(s: Seq<u8>, pos: int) -> bool {
    0 <= pos < s.len() && s[pos] % 32 == 31 && 2 <= s[pos] / 32 <= 5
}

/// The break byte that closes an item of indefinite length.
pub open spec fn is_break(s: Seq<u8>, pos: int) -> bool {
    0 <= pos < s.len() && s[pos] == 0xFF
}

/// The chunks of a string of indefinite length from `pos` to its break:
/// definite strings of major type `major` (text ones each well-formed
/// UTF-8), joined; and where the break ends.
pub open spec fn parse_chunks(s: Seq<u8>, pos: int, major: int) -> Option<(Seq<u8>, int)>
    decreases s.len() - pos, 1int, 0nat,
{
    if is_break(s, pos) {
        Some((Seq::empty(), pos + 1))
    } else {
        match head(s, pos) {
            Some((m, n, p)) => if m == major && p + n <= s.len() && (major == 3 ==> utf8_valid(
                s.subrange(p, p + n),
            )) {
                match parse_chunks(s, p + n, major) {
                    Some((rest, r)) => Some((s.subrange(p, p + n) + rest, r)),
                    None => None,
                }
            } else {
                None
            },
            None => None,
        }
    }
}

/// Items from `pos` up to a break, and where the break ends.
pub open spec fn parse_until_break(s: Seq<u8>, pos: int) -> Option<(Seq<Cbor>, int)>
    decreases s.len() - pos, 1int, 0nat,
{
    if pos < 0 || pos >= s.len() {
        None
    } else if is_break(s, pos) {
        Some((Seq::empty(), pos + 1))
    } else {
        match parse_at(s, pos) {
            Some((v, q)) => {
                if q <= pos || q > s.len() {
                    None
                } else {
                    match parse_until_break(s, q) {
                        Some((rest, r)) => Some((seq![v] + rest, r)),
                        None => None,
                    }
                }
            },
            None => None,
        }
    }
}

/// Pairs of items, key then value, from `pos` up to a break, and where the
/// break ends.
pub open spec fn parse_pairs_until_break(s: Seq<u8>, pos: int) -> Option<(Seq<(Cbor, Cbor)>, int)>
    decreases s.len() - pos, 1int, 0nat,
{
    if pos < 0 || pos >= s.len() {
        None
    } else if is_break(s, pos) {
        Some((Seq::empty(), pos + 1))
    } else {
        match parse_at(s, pos) {
            Some((k, q)) => {
                if q <= pos || q > s.len() {
                    None
                } else {
                    match parse_at(s, q) {
                        Some((v, r)) => {
                            if r <= q || r > s.len() {
                                None
                            } else {
                                match parse_pairs_until_break(s, r) {
                                    Some((rest, e)) => Some((seq![(k, v)] + rest, e)),
                                    None => None,
                                }
                            }
                        },
                        None => None,
                    }
                }
            },
            None => None,
        }
    }
}

/// The item that makes up all of `s`, if there is one.
pub open spec fn parse_whole(s: Seq<u8>) -> Option<Cbor> {
    match parse_at(s, 0) {
        Some((v, q)) => if q == s.len() {
            Some(v)
        } else {
            None
        },
        None => None,
    }
}


pub open spec fn byte_power(n: nat) -> nat
    decreases n,
{
    if n == 0 {
        1
    } else {
        256 * byte_power((n - 1) as nat)
    }
}

proof fn lemma_be_value_bound(t: Seq<u8>, n: nat)
    requires
        n <= t.len(),
    ensures
        be_value(t, n) < byte_power(n),
    decreases n,
{
    if n > 0 {
        lemma_be_value_bound(t, (n - 1) as nat);
        let a = be_value(t, (n - 1) as nat);
        let b = byte_power((n - 1) as nat);
        assert(a * 256 + t[n - 1] < 256 * b) by (nonlinear_arith)
            requires a < b, t[n - 1] < 256;
    }
}

proof fn lemma_byte_power_small(n: nat)
    requires
        n < 8,
    ensures
        byte_power(n) <= 0x100_0000_0000_0000,
{
    reveal_with_fuel(byte_power, 8);
}

/// Reads the head of the item at `pos`.
fn read_head(s: &[u8], pos: usize) -> (r: Option<(u8, u64, usize)>)
    ensures
        match r {
            Some((major, arg, p)) => head(s@, pos as int) == Some((major as int, arg as nat, p as int)),
            None => head(s@, pos as int).is_none(),
        },
{
    if pos >= s.len() {
        return None;
    }
    let b = s[pos];
    let info = b % 32;
    let k: usize = if info < 24 {
        0
    } else if info == 24 {
        1
    } else if info == 25 {
        2
    } else if info == 26 {
        4
    } else if info == 27 {
        8
    } else {
        return None;
    };
    if k > s.len() - pos - 1 {
        return None;
    }
    if k == 0 {
        return Some((b / 32, info as u64, pos + 1));
    }
    let ghost t = s@.subrange(pos + 1, pos + 1 + k);
    let mut acc: u64 = 0;
    let mut i: usize = 0;
    while i < k
        invariant
            i <= k <= 8,
            pos + 1 + k <= s.len(),
            t == s@.subrange(pos + 1, pos + 1 + k),
            acc == be_value(t, i as nat),
        decreases k - i,
    {
        proof {
            lemma_be_value_bound(t, i as nat);
            lemma_byte_power_small(i as nat);
        }
        acc = acc * 256 + s[pos + 1 + i] as u64;
        i += 1;
        assert(t[i - 1] == s@[pos + i]);
    }
    Some((b / 32, acc, pos + 1 + k))
}

fn copy_range(s: &[u8], from: usize, to: usize) -> (r: Vec<u8>)
    requires
        from <= to <= s.len(),
    ensures
        r@ == s@.subrange(from as int, to as int),
{
    let mut r: Vec<u8> = Vec::new();
    let mut i = from;
    while i < to
        invariant
            from <= i <= to <= s.len(),
            r@ == s@.subrange(from as int, i as int),
        decreases to - i,
    {
        r.push(s[i]);
        i += 1;
        assert(r@ =~= s@.subrange(from as int, i as int));
    }
    r
}

proof fn lemma_model_list_prefix(s: Seq<CborValue>, t: Seq<CborValue>, n: nat)
    requires
        n <= s.len(),
        n <= t.len(),
        forall|i: int| 0 <= i < n ==> s[i] == t[i],
    ensures
        model_list(s, n) == model_list(t, n),
    decreases n,
{
    if n > 0 {
        lemma_model_list_prefix(s, t, (n - 1) as nat);
    }
}

proof fn lemma_model_pairs_prefix(s: Seq<(CborValue, CborValue)>, t: Seq<(CborValue, CborValue)>, n: nat)
    requires
        n <= s.len(),
        n <= t.len(),
        forall|i: int| 0 <= i < n ==> s[i] == t[i],
    ensures
        model_pairs(s, n) == model_pairs(t, n),
    decreases n,
{
    if n > 0 {
        lemma_model_pairs_prefix(s, t, (n - 1) as nat);
    }
}

pub open spec fn prepend<T>(pre: Seq<T>, r: Option<(Seq<T>, int)>) -> Option<(Seq<T>, int)> {
    match r {
        Some((rest, e)) => Some((pre + rest, e)),
        None => None,
    }
}

/// The model of a list of items holds the model of each item at its place.
pub proof fn lemma_model_list_index(s: Seq<CborValue>, i: int)
    requires
        0 <= i < s.len(),
    ensures
        model_list(s, s.len()).len() == s.len(),
        model_list(s, s.len())[i] == model(s[i]),
{
    lemma_model_list_len_index(s, s.len(), i);
}

proof fn lemma_model_list_len_index(s: Seq<CborValue>, n: nat, i: int)
    requires
        0 <= i < n <= s.len(),
    ensures
        model_list(s, n).len() == n,
        model_list(s, n)[i] == model(s[i]),
    decreases n,
{
    if n > 1 {
        lemma_model_list_len_index(s, (n - 1) as nat, if i < n - 1 { i } else { 0 });
    } else {
        assert(model_list(s, 0) == Seq::<Cbor>::empty());
    }
}

/// The models of all items of `s` are as many as the items.
pub proof fn lemma_model_list_length(s: Seq<CborValue>)
    ensures
        model_list(s, s.len()).len() == s.len(),
{
    if s.len() > 0 {
        lemma_model_list_index(s, 0);
    }
}

/// The model of a list of pairs holds the models of each pair at its place.
pub proof fn lemma_model_pairs_index(s: Seq<(CborValue, CborValue)>, i: int)
    requires
        0 <= i < s.len(),
    ensures
        model_pairs(s, s.len()).len() == s.len(),
        model_pairs(s, s.len())[i] == (model(s[i].0), model(s[i].1)),
{
    lemma_model_pairs_len_index(s, s.len(), i);
}

proof fn lemma_model_pairs_len_index(s: Seq<(CborValue, CborValue)>, n: nat, i: int)
    requires
        0 <= i < n <= s.len(),
    ensures
        model_pairs(s, n).len() == n,
        model_pairs(s, n)[i] == (model(s[i].0), model(s[i].1)),
    decreases n,
{
    if n > 1 {
        lemma_model_pairs_len_index(s, (n - 1) as nat, if i < n - 1 { i } else { 0 });
    } else {
        assert(model_pairs(s, 0) == Seq::<(Cbor, Cbor)>::empty());
    }
}

/// Decodes the item at `pos`, and says where it ends.
pub fn decode_at(s: &[u8], pos: usize) -> (r: Option<(CborValue, usize)>)
    ensures
        match r {
            Some((v, q)) => parse_at(s@, pos as int) == Some((model(v), q as int)),
            None => parse_at(s@, pos as int).is_none(),
        },
    decreases s@.len() - pos, 0int,
{
    let h = read_head(s, pos);
    match h {
        None => {
            if pos < s.len() && s[pos] % 32 == 31 && s[pos] / 32 >= 2 && s[pos] / 32 <= 5 {
                let major = s[pos] / 32;
                if major == 2 {
                    match decode_chunks(s, pos + 1, 2) {
                        Some((b, q)) => Some((CborValue::Bytes(b), q)),
                        None => None,
                    }
                } else if major == 3 {
                    match decode_chunks(s, pos + 1, 3) {
                        Some((t, q)) => Some((CborValue::Text(t), q)),
                        None => None,
                    }
                } else if major == 4 {
                    match decode_until_break(s, pos + 1) {
                        Some((items, q)) => Some((CborValue::Array(items), q)),
                        None => None,
                    }
                } else {
                    match decode_pairs_until_break(s, pos + 1) {
                        Some((pairs, q)) => Some((CborValue::Mapping(pairs), q)),
                        None => None,
                    }
                }
            } else {
                None
            }
        },
        Some((major, arg, p)) => {
            if major == 0 {
                Some((CborValue::Integer(arg as i128), p))
            } else if major == 1 {
                Some((CborValue::Integer(-1 - arg as i128), p))
            } else if major == 2 || major == 3 {
                if arg as u128 > (s.len() - p) as u128 {
                    return None;
                }
                let e = p + arg as usize;
                let b = copy_range(s, p, e);
                if major == 2 {
                    Some((CborValue::Bytes(b), e))
                } else if is_utf8(b.as_slice()) {
                    Some((CborValue::Text(b), e))
                } else {
                    None
                }
            } else if major == 4 {
                match decode_list(s, p, arg) {
                    Some((items, q)) => Some((CborValue::Array(items), q)),
                    None => None,
                }
            } else if major == 5 {
                match decode_pairs(s, p, arg) {
                    Some((pairs, q)) => Some((CborValue::Mapping(pairs), q)),
                    None => None,
                }
            } else if major == 6 {
                match decode_at(s, p) {
                    Some((v, q)) => Some((CborValue::Tag(arg, Box::new(v)), q)),
                    None => None,
                }
            } else {
                let info = s[pos] % 32;
                if info == 20 {
                    Some((CborValue::Bool(false), p))
                } else if info == 21 {
                    Some((CborValue::Bool(true), p))
                } else if info == 22 {
                    Some((CborValue::Null, p))
                } else if info <= 24 {
                    proof {
                        if info == 24 {
                            lemma_be_value_bound(s@.subrange(pos + 1, pos + 2), 1);
                            reveal_with_fuel(byte_power, 2);
                        }
                    }
                    Some((CborValue::Simple(arg as u8), p))
                } else {
                    Some((CborValue::FloatBits(arg), p))
                }
            }
        },
    }
}

/// Decodes `n` items, one after the other from `p`.
fn decode_list(s: &[u8], p: usize, n: u64) -> (r: Option<(Vec<CborValue>, usize)>)
    requires
        p <= s.len(),
    ensures
        match r {
            Some((items, q)) => parse_list(s@, p as int, n as nat) == Some((model_list(items@, items@.len()), q as int)),
            None => parse_list(s@, p as int, n as nat).is_none(),
        },
    decreases s@.len() - p, 1int, n,
{
    let mut items: Vec<CborValue> = Vec::new();
    let mut cur = p;
    let mut i: u64 = 0;
    while i < n
        invariant
            p <= cur <= s.len(),
            i <= n,
            parse_list(s@, p as int, n as nat) == prepend(
                model_list(items@, items@.len()),
                parse_list(s@, cur as int, (n - i) as nat),
            ),
        decreases n - i,
    {
        match decode_at(s, cur) {
            None => return None,
            Some((v, q)) => {
                if q <= cur || q > s.len() {
                    return None;
                }
                let ghost old_items = items@;
                items.push(v);
                proof {
                    lemma_model_list_prefix(old_items, items@, old_items.len());
                    let m = model_list(old_items, old_items.len());
                    let rest = parse_list(s@, q as int, (n - i - 1) as nat);
                    if let Some((tail, e)) = rest {
                        assert(m + (seq![model(v)] + tail) =~= m.push(model(v)) + tail);
                    }
                }
                cur = q;
                i += 1;
            },
        }
    }
    proof {
        let m = model_list(items@, items@.len());
        assert(m + Seq::empty() =~= m);
    }
    Some((items, cur))
}

/// Decodes `n` pairs of items, key then value, from `p`.
fn decode_pairs(s: &[u8], p: usize, n: u64) -> (r: Option<(Vec<(CborValue, CborValue)>, usize)>)
    requires
        p <= s.len(),
    ensures
        match r {
            Some((pairs, q)) => parse_pairs(s@, p as int, n as nat) == Some((model_pairs(pairs@, pairs@.len()), q as int)),
            None => parse_pairs(s@, p as int, n as nat).is_none(),
        },
    decreases s@.len() - p, 1int, n,
{
    let mut pairs: Vec<(CborValue, CborValue)> = Vec::new();
    let mut cur = p;
    let mut i: u64 = 0;
    while i < n
        invariant
            p <= cur <= s.len(),
            i <= n,
            parse_pairs(s@, p as int, n as nat) == prepend(
                model_pairs(pairs@, pairs@.len()),
                parse_pairs(s@, cur as int, (n - i) as nat),
            ),
        decreases n - i,
    {
        match decode_at(s, cur) {
            None => return None,
            Some((k, q)) => {
                if q <= cur || q > s.len() {
                    return None;
                }
                match decode_at(s, q) {
                    None => return None,
                    Some((v, e)) => {
                        if e <= q || e > s.len() {
                            return None;
                        }
                        let ghost old_pairs = pairs@;
                        let ghost kv = (model(k), model(v));
                        pairs.push((k, v));
                        proof {
                            lemma_model_pairs_prefix(old_pairs, pairs@, old_pairs.len());
                            let m = model_pairs(old_pairs, old_pairs.len());
                            let rest = parse_pairs(s@, e as int, (n - i - 1) as nat);
                            if let Some((tail, f)) = rest {
                                assert(m + (seq![kv] + tail) =~= m.push(kv) + tail);
                            }
                        }
                        cur = e;
                        i += 1;
                    },
                }
            },
        }
    }
    proof {
        let m = model_pairs(pairs@, pairs@.len());
        assert(m + Seq::empty() =~= m);
    }
    Some((pairs, cur))
}

/// Decodes the chunks of a string of indefinite length, from `p` to its break.
fn decode_chunks(s: &[u8], p: usize, major: u8) -> (r: Option<(Vec<u8>, usize)>)
    requires
        p <= s.len(),
    ensures
        match r {
            Some((b, q)) => parse_chunks(s@, p as int, major as int) == Some((b@, q as int)),
            None => parse_chunks(s@, p as int, major as int).is_none(),
        },
{
    let mut out: Vec<u8> = Vec::new();
    let mut cur = p;
    loop
        invariant
            p <= cur <= s.len(),
            parse_chunks(s@, p as int, major as int) == prepend(out@, parse_chunks(s@, cur as int, major as int)),
        decreases s.len() - cur,
    {
        if cur < s.len() && s[cur] == 0xFF {
            assert(out@ + Seq::empty() =~= out@);
            return Some((out, cur + 1));
        }
        match read_head(s, cur) {
            None => return None,
            Some((m, n, q)) => {
                if m != major || n as u128 > (s.len() - q) as u128 {
                    return None;
                }
                let e = q + n as usize;
                let mut chunk = copy_range(s, q, e);
                if major == 3 && !is_utf8(chunk.as_slice()) {
                    return None;
                }
                let ghost before = out@;
                let ghost piece = chunk@;
                out.append(&mut chunk);
                proof {
                    if let Some((rest, f)) = parse_chunks(s@, e as int, major as int) {
                        assert(before + (piece + rest) =~= (before + piece) + rest);
                    }
                }
                cur = e;
            },
        }
    }
}

/// Decodes items from `p` up to a break.
fn decode_until_break(s: &[u8], p: usize) -> (r: Option<(Vec<CborValue>, usize)>)
    requires
        p <= s.len(),
    ensures
        match r {
            Some((items, q)) => parse_until_break(s@, p as int) == Some((model_list(items@, items@.len()), q as int)),
            None => parse_until_break(s@, p as int).is_none(),
        },
    decreases s@.len() - p, 1int, 0int,
{
    let mut items: Vec<CborValue> = Vec::new();
    let mut cur = p;
    loop
        invariant
            p <= cur <= s.len(),
            parse_until_break(s@, p as int) == prepend(
                model_list(items@, items@.len()),
                parse_until_break(s@, cur as int),
            ),
        decreases s.len() - cur,
    {
        if cur >= s.len() {
            return None;
        }
        if s[cur] == 0xFF {
            proof {
                let m = model_list(items@, items@.len());
                assert(m + Seq::empty() =~= m);
            }
            return Some((items, cur + 1));
        }
        match decode_at(s, cur) {
            None => return None,
            Some((v, q)) => {
                if q <= cur || q > s.len() {
                    return None;
                }
                let ghost old_items = items@;
                items.push(v);
                proof {
                    lemma_model_list_prefix(old_items, items@, old_items.len());
                    let m = model_list(old_items, old_items.len());
                    if let Some((tail, e)) = parse_until_break(s@, q as int) {
                        assert(m + (seq![model(v)] + tail) =~= m.push(model(v)) + tail);
                    }
                }
                cur = q;
            },
        }
    }
}

/// Decodes pairs of items, key then value, from `p` up to a break.
fn decode_pairs_until_break(s: &[u8], p: usize) -> (r: Option<(Vec<(CborValue, CborValue)>, usize)>)
    requires
        p <= s.len(),
    ensures
        match r {
            Some((pairs, q)) => parse_pairs_until_break(s@, p as int) == Some((model_pairs(pairs@, pairs@.len()), q as int)),
            None => parse_pairs_until_break(s@, p as int).is_none(),
        },
    decreases s@.len() - p, 1int, 0int,
{
    let mut pairs: Vec<(CborValue, CborValue)> = Vec::new();
    let mut cur = p;
    loop
        invariant
            p <= cur <= s.len(),
            parse_pairs_until_break(s@, p as int) == prepend(
                model_pairs(pairs@, pairs@.len()),
                parse_pairs_until_break(s@, cur as int),
            ),
        decreases s.len() - cur,
    {
        if cur >= s.len() {
            return None;
        }
        if s[cur] == 0xFF {
            proof {
                let m = model_pairs(pairs@, pairs@.len());
                assert(m + Seq::empty() =~= m);
            }
            return Some((pairs, cur + 1));
        }
        match decode_at(s, cur) {
            None => return None,
            Some((k, q)) => {
                if q <= cur || q > s.len() {
                    return None;
                }
                match decode_at(s, q) {
                    None => return None,
                    Some((v, e)) => {
                        if e <= q || e > s.len() {
                            return None;
                        }
                        let ghost old_pairs = pairs@;
                        let ghost kv = (model(k), model(v));
                        pairs.push((k, v));
                        proof {
                            lemma_model_pairs_prefix(old_pairs, pairs@, old_pairs.len());
                            let m = model_pairs(old_pairs, old_pairs.len());
                            if let Some((tail, f)) = parse_pairs_until_break(s@, e as int) {
                                assert(m + (seq![kv] + tail) =~= m.push(kv) + tail);
                            }
                        }
                        cur = e;
                    },
                }
            },
        }
    }
}

/// Decodes the item that makes up all of `s`.
pub fn decode_whole(s: &[u8]) -> (r: Option<CborValue>)
    ensures
        match r {
            Some(v) => parse_whole(s@) == Some(model(v)),
            None => parse_whole(s@).is_none(),
        },
{
    match decode_at(s, 0) {
        Some((v, q)) => if q == s.len() {
            Some(v)
        } else {
            None
        },
        None => None,
    }
}

} // verus!
