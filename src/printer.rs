//! The indented text form of a claim tree.

use vstd::prelude::*;
use crate::cbor::{Cbor, CborValue, lemma_model_list_index, lemma_model_pairs_index, model, model_list, model_pairs};

verus! {

/// `2 * level` spaces.
pub open spec fn indent(level: nat) -> Seq<u8> {
    Seq::new(2 * level, |i: int| 32u8)
}

/// The decimal digits of `n`.
pub open spec fn nat_text(n: nat) -> Seq<u8>
    decreases n,
{
    if n < 10 {
        seq![(48 + n) as u8]
    } else {
        nat_text(n / 10).push((48 + n % 10) as u8)
    }
}

/// `n` in decimal, with a leading `-` when negative.
pub open spec fn int_text(n: int) -> Seq<u8> {
    if n < 0 {
        seq![45u8] + nat_text((-n) as nat)
    } else {
        nat_text(n as nat)
    }
}

/// Integers and text strings print on one line.
pub open spec fn is_scalar(c: Cbor) -> bool {
    c is Int || c is Text
}

pub open spec fn scalar_text(c: Cbor) -> Seq<u8> {
    match c {
        Cbor::Int(n) => int_text(n),
        Cbor::Text(t) => t,
        _ => Seq::empty(),
    }
}

/// `": "`
pub open spec fn colon_space() -> Seq<u8> {
    seq![58u8, 32u8]
}

/// `":"`
pub open spec fn colon() -> Seq<u8> {
    seq![58u8]
}

/// The lines that print `v` at nesting `level`: a map pair by pair, in order,
/// skipping pairs whose key is not a scalar; an array element by element under
/// its index; a scalar as itself; anything else as nothing.
pub open spec fn lines_of(v: Cbor, level: nat) -> Seq<Seq<u8>>
    decreases v, 0nat,
{
    match v {
        Cbor::Mapping(pairs) => map_lines(pairs, level, pairs.len()),
        Cbor::Array(items) => array_lines(items, level, items.len()),
        Cbor::Int(_) => seq![indent(level) + scalar_text(v)],
        Cbor::Text(_) => seq![indent(level) + scalar_text(v)],
        _ => Seq::empty(),
    }
}

/// The lines of the first `n` pairs of a map at `level`.
pub open spec fn map_lines(pairs: Seq<(Cbor, Cbor)>, level: nat, n: nat) -> Seq<Seq<u8>>
    decreases pairs, n,
{
    if n == 0 || n > pairs.len() {
        Seq::empty()
    } else {
        let k = pairs[n - 1].0;
        let v = pairs[n - 1].1;
        map_lines(pairs, level, (n - 1) as nat) + if !is_scalar(k) {
            Seq::empty()
        } else if is_scalar(v) {
            seq![indent(level) + scalar_text(k) + colon_space() + scalar_text(v)]
        } else {
            seq![indent(level) + scalar_text(k) + colon()] + lines_of(v, level + 1)
        }
    }
}

/// The lines of the first `n` elements of an array at `level`.
pub open spec fn array_lines(items: Seq<Cbor>, level: nat, n: nat) -> Seq<Seq<u8>>
    decreases items, n,
{
    if n == 0 || n > items.len() {
        Seq::empty()
    } else {
        array_lines(items, level, (n - 1) as nat) + seq![indent(level) + nat_text((n - 1) as nat) + colon()]
            + lines_of(items[n - 1], level + 1)
    }
}

pub open spec fn lines_view(out: Seq<Vec<u8>>) -> Seq<Seq<u8>> {
    Seq::new(out.len(), |i: int| out[i]@)
}

fn push_digits(n: u128, out: &mut Vec<u8>)
    ensures
        final(out)@ == old(out)@ + nat_text(n as nat),
    decreases n,
{
    if n >= 10 {
        push_digits(n / 10, out);
    }
    out.push((48 + n % 10) as u8);
    assert(final(out)@ =~= old(out)@ + nat_text(n as nat));
}

fn push_int(n: i128, out: &mut Vec<u8>)
    ensures
        final(out)@ == old(out)@ + int_text(n as int),
{
    if n < 0 {
        out.push(45);
        let m: u128 = (-(n + 1)) as u128 + 1;
        push_digits(m, out);
        assert(final(out)@ =~= old(out)@ + int_text(n as int));
    } else {
        push_digits(n as u128, out);
    }
}

fn push_all(src: &Vec<u8>, out: &mut Vec<u8>)
    ensures
        final(out)@ == old(out)@ + src@,
{
    let mut i: usize = 0;
    while i < src.len()
        invariant
            i <= src.len(),
            out@ == old(out)@ + src@.subrange(0, i as int),
        decreases src.len() - i,
    {
        out.push(src[i]);
        i += 1;
        assert(out@ =~= old(out)@ + src@.subrange(0, i as int));
    }
    assert(src@.subrange(0, src@.len() as int) =~= src@);
}

fn scalar_of(v: &CborValue) -> (r: Option<Vec<u8>>)
    ensures
        r.is_some() == is_scalar(model(*v)),
        r.is_some() ==> r.unwrap()@ == scalar_text(model(*v)),
{
    match v {
        CborValue::Integer(n) => {
            let mut t: Vec<u8> = Vec::new();
            push_int(*n, &mut t);
            assert(t@ =~= int_text(*n as int));
            Some(t)
        },
        CborValue::Text(t) => Some(t.clone()),
        _ => None,
    }
}

fn line(indent: &Vec<u8>, parts: &Vec<u8>, tail: &Vec<u8>) -> (r: Vec<u8>)
    ensures
        r@ == indent@ + parts@ + tail@,
{
    let mut r: Vec<u8> = Vec::new();
    push_all(indent, &mut r);
    push_all(parts, &mut r);
    push_all(tail, &mut r);
    assert(r@ =~= indent@ + parts@ + tail@);
    r
}

fn deeper(ind: &Vec<u8>, Ghost(level): Ghost<nat>) -> (r: Vec<u8>)
    requires
        ind@ == indent(level),
    ensures
        r@ == indent(level + 1),
{
    let mut r = ind.clone();
    assert(r@ == ind@);
    r.push(32);
    r.push(32);
    assert(r@ =~= indent(level + 1));
    r
}

fn print_into(v: &CborValue, ind: &Vec<u8>, Ghost(level): Ghost<nat>, out: &mut Vec<Vec<u8>>)
    requires
        ind@ == indent(level),
    ensures
        lines_view(final(out)@) == lines_view(old(out)@) + lines_of(model(*v), level),
    decreases v,
{
    match v {
        CborValue::Mapping(pairs) => {
            let inner = deeper(ind, Ghost(level));
            let mut i: usize = 0;
            while i < pairs.len()
                invariant
                    i <= pairs.len(),
                    *v == CborValue::Mapping(*pairs),
                    ind@ == indent(level),
                    inner@ == indent(level + 1),
                    lines_view(out@) == lines_view(old(out)@) + map_lines(
                        model_pairs(pairs@, pairs@.len()),
                        level,
                        i as nat,
                    ),
                decreases pairs.len() - i,
            {
                let ghost before = lines_view(out@);
                let ghost ms = model_pairs(pairs@, pairs@.len());
                proof {
                    lemma_model_pairs_index(pairs@, i as int);
                }
                let k = &pairs[i].0;
                let val = &pairs[i].1;
                proof {
                    broadcast use vstd::std_specs::vec::axiom_vec_decreases_to_view;
                    broadcast use vstd::seq::axiom_seq_index_decreases;
                    assert(*v == CborValue::Mapping(*pairs));
                    assert(decreases_to!(*v => v->Mapping_0));
                    assert(decreases_to!(*pairs => pairs@));
                    assert(decreases_to!(pairs@ => pairs@[i as int]));
                    assert(decreases_to!(*v => pairs@[i as int].1));
                }
                match scalar_of(k) {
                    None => {},
                    Some(kt) => {
                        match scalar_of(val) {
                            Some(vt) => {
                                let mut tail: Vec<u8> = vec![58, 32];
                                push_all(&vt, &mut tail);
                                let l = line(ind, &kt, &tail);
                                out.push(l);
                                proof {
                                    assert(tail@ =~= colon_space() + scalar_text(ms[i as int].1));
                                    assert(l@ =~= indent(level) + scalar_text(ms[i as int].0) + colon_space()
                                        + scalar_text(ms[i as int].1));
                                    assert(lines_view(out@) =~= before.push(l@));
                                }
                            },
                            None => {
                                let l = line(ind, &kt, &vec![58]);
                                out.push(l);
                                proof {
                                    assert(l@ =~= indent(level) + scalar_text(ms[i as int].0) + colon());
                                    assert(lines_view(out@) =~= before.push(l@));
                                }
                                print_into(val, &inner, Ghost(level + 1), out);
                            },
                        }
                    },
                }
                assert(lines_view(out@) =~= lines_view(old(out)@) + map_lines(ms, level, (i + 1) as nat));
                i += 1;
            }
            proof {
                if pairs.len() > 0 {
                    lemma_model_pairs_index(pairs@, 0);
                }
            }
        },
        CborValue::Array(items) => {
            let inner = deeper(ind, Ghost(level));
            let mut i: usize = 0;
            while i < items.len()
                invariant
                    i <= items.len(),
                    *v == CborValue::Array(*items),
                    ind@ == indent(level),
                    inner@ == indent(level + 1),
                    lines_view(out@) == lines_view(old(out)@) + array_lines(
                        model_list(items@, items@.len()),
                        level,
                        i as nat,
                    ),
                decreases items.len() - i,
            {
                let ghost ms = model_list(items@, items@.len());
                proof {
                    lemma_model_list_index(items@, i as int);
                }
                let ghost before = lines_view(out@);
                let mut num: Vec<u8> = Vec::new();
                push_digits(i as u128, &mut num);
                assert(num@ =~= nat_text(i as nat));
                let l = line(ind, &num, &vec![58]);
                out.push(l);
                proof {
                    assert(l@ =~= indent(level) + nat_text(i as nat) + colon());
                    assert(lines_view(out@) =~= before.push(l@));
                    broadcast use vstd::std_specs::vec::axiom_vec_decreases_to_view;
                    broadcast use vstd::seq::axiom_seq_index_decreases;
                    assert(*v == CborValue::Array(*items));
                    assert(decreases_to!(*v => v->Array_0));
                    assert(decreases_to!(*items => items@));
                    assert(decreases_to!(*v => items@[i as int]));
                }
                print_into(&items[i], &inner, Ghost(level + 1), out);
                assert(lines_view(out@) =~= lines_view(old(out)@) + array_lines(ms, level, (i + 1) as nat));
                i += 1;
            }
            proof {
                if items.len() > 0 {
                    lemma_model_list_index(items@, 0);
                }
            }
        },
        CborValue::Integer(_) | CborValue::Text(_) => {
            let t = scalar_of(v);
            if let Some(t) = t {
                let l = line(ind, &t, &Vec::new());
                out.push(l);
                assert(lines_view(out@) =~= lines_view(old(out)@) + lines_of(model(*v), level));
            }
        },
        _ => {},
    }
}

/// The lines that print `v` at nesting `level`.
pub fn print_value(v: &CborValue, level: usize) -> (r: Vec<Vec<u8>>)
    ensures
        lines_view(r@) == lines_of(model(*v), level as nat),
{
    let mut ind: Vec<u8> = Vec::new();
    let mut i: usize = 0;
    while i < level
        invariant
            i <= level,
            ind@ == indent(i as nat),
        decreases level - i,
    {
        ind = deeper(&ind, Ghost(i as nat));
        i += 1;
    }
    let mut out: Vec<Vec<u8>> = Vec::new();
    print_into(v, &ind, Ghost(level as nat), &mut out);
    assert(lines_view(Seq::<Vec<u8>>::empty()) =~= Seq::empty());
    assert(lines_view(out@) =~= lines_of(model(*v), level as nat));
    out
}


/// A line that starts with `2 * level` spaces.
pub open spec fn indented(l: Seq<u8>, level: nat) -> bool {
    l.len() >= 2 * level && forall|j: int| 0 <= j < 2 * level ==> l[j] == 32u8
}

proof fn lemma_indent_then(x: Seq<u8>, level: nat)
    ensures
        indented(indent(level) + x, level),
{
    let l = indent(level) + x;
    assert forall|j: int| 0 <= j < 2 * level implies l[j] == 32u8 by {
        assert(l[j] == indent(level)[j]);
    }
}

/// Every line that prints a value at nesting `level` starts with `2 * level`
/// spaces; the lines of a map's or an array's children start with two more.
pub proof fn lemma_lines_indented(v: Cbor, level: nat)
    ensures
        forall|i: int| 0 <= i < lines_of(v, level).len() ==> indented(#[trigger] lines_of(v, level)[i], level),
    decreases v, 0nat,
{
    match v {
        Cbor::Mapping(pairs) => {
            lemma_map_lines_indented(pairs, level, pairs.len());
            assert(lines_of(v, level) == map_lines(pairs, level, pairs.len()));
        },
        Cbor::Array(items) => {
            lemma_array_lines_indented(items, level, items.len());
            assert(lines_of(v, level) == array_lines(items, level, items.len()));
        },
        Cbor::Int(_) => {
            lemma_indent_then(scalar_text(v), level);
            assert(lines_of(v, level)[0] == indent(level) + scalar_text(v));
        },
        Cbor::Text(_) => {
            lemma_indent_then(scalar_text(v), level);
            assert(lines_of(v, level)[0] == indent(level) + scalar_text(v));
        },
        _ => {},
    }
}

proof fn lemma_map_lines_indented(pairs: Seq<(Cbor, Cbor)>, level: nat, n: nat)
    ensures
        forall|i: int| 0 <= i < map_lines(pairs, level, n).len() ==> indented(#[trigger] map_lines(pairs, level, n)[i], level),
    decreases pairs, n,
{
    if n > 0 && n <= pairs.len() {
        let k = pairs[n - 1].0;
        let v = pairs[n - 1].1;
        lemma_map_lines_indented(pairs, level, (n - 1) as nat);
        lemma_lines_indented(v, level + 1);
        let prev = map_lines(pairs, level, (n - 1) as nat);
        let ls = map_lines(pairs, level, n);
        let flat = indent(level) + scalar_text(k) + colon_space() + scalar_text(v);
        let open = indent(level) + scalar_text(k) + colon();
        assert(flat =~= indent(level) + (scalar_text(k) + colon_space() + scalar_text(v)));
        assert(open =~= indent(level) + (scalar_text(k) + colon()));
        lemma_indent_then(scalar_text(k) + colon_space() + scalar_text(v), level);
        lemma_indent_then(scalar_text(k) + colon(), level);
        assert forall|i: int| 0 <= i < ls.len() implies indented(#[trigger] ls[i], level) by {
            if i < prev.len() {
                assert(ls[i] == prev[i]);
            } else if is_scalar(v) {
                assert(ls[i] == flat);
            } else if i == prev.len() {
                assert(ls[i] == open);
            } else {
                let c = lines_of(v, level + 1);
                assert(ls[i] == c[i - prev.len() - 1]);
                assert(indented(c[i - prev.len() - 1], level + 1));
            }
        }
    }
}

proof fn lemma_array_lines_indented(items: Seq<Cbor>, level: nat, n: nat)
    ensures
        forall|i: int| 0 <= i < array_lines(items, level, n).len() ==> indented(#[trigger] array_lines(items, level, n)[i], level),
    decreases items, n,
{
    if n > 0 && n <= items.len() {
        lemma_array_lines_indented(items, level, (n - 1) as nat);
        lemma_lines_indented(items[n - 1], level + 1);
        let prev = array_lines(items, level, (n - 1) as nat);
        let ls = array_lines(items, level, n);
        let head = indent(level) + nat_text((n - 1) as nat) + colon();
        assert(head =~= indent(level) + (nat_text((n - 1) as nat) + colon()));
        lemma_indent_then(nat_text((n - 1) as nat) + colon(), level);
        assert forall|i: int| 0 <= i < ls.len() implies indented(#[trigger] ls[i], level) by {
            if i < prev.len() {
                assert(ls[i] == prev[i]);
            } else if i == prev.len() {
                assert(ls[i] == head);
            } else {
                let c = lines_of(items[n - 1], level + 1);
                assert(ls[i] == c[i - prev.len() - 1]);
                assert(indented(c[i - prev.len() - 1], level + 1));
            }
        }
    }
}

/// A map whose keys and values are all integers or text strings prints as
/// one line per pair, in the order of the pairs: the key, `: ` and the value.
pub proof fn lemma_scalar_map_lines(pairs: Seq<(Cbor, Cbor)>, level: nat)
    requires
        forall|i: int| 0 <= i < pairs.len() ==> is_scalar((#[trigger] pairs[i]).0) && is_scalar(pairs[i].1),
    ensures
        lines_of(Cbor::Mapping(pairs), level) == Seq::new(
            pairs.len(),
            |i: int| indent(level) + scalar_text(pairs[i].0) + colon_space() + scalar_text(pairs[i].1),
        ),
{
    lemma_scalar_map_prefix(pairs, level, pairs.len());
}

proof fn lemma_scalar_map_prefix(pairs: Seq<(Cbor, Cbor)>, level: nat, n: nat)
    requires
        n <= pairs.len(),
        forall|i: int| 0 <= i < pairs.len() ==> is_scalar((#[trigger] pairs[i]).0) && is_scalar(pairs[i].1),
    ensures
        map_lines(pairs, level, n) == Seq::new(
            n,
            |i: int| indent(level) + scalar_text(pairs[i].0) + colon_space() + scalar_text(pairs[i].1),
        ),
    decreases n,
{
    if n > 0 {
        lemma_scalar_map_prefix(pairs, level, (n - 1) as nat);
        assert(is_scalar(pairs[n - 1].0));
        assert(map_lines(pairs, level, n) =~= Seq::new(
            n,
            |i: int| indent(level) + scalar_text(pairs[i].0) + colon_space() + scalar_text(pairs[i].1),
        ));
    } else {
        assert(map_lines(pairs, level, n) =~= Seq::empty());
    }
}

/// Lines at nesting `level` whose indentation is exactly `2 * level`.
pub open spec fn at_level(level: nat) -> spec_fn(Seq<u8>) -> bool {
    |l: Seq<u8>| l.len() > 2 * level && l[2 * level as int] != 32u8
}

proof fn lemma_nat_text_digit(n: nat)
    ensures
        nat_text(n).len() >= 1,
        48 <= nat_text(n)[0] <= 57,
    decreases n,
{
    if n >= 10 {
        lemma_nat_text_digit(n / 10);
    }
}

/// An array of `N` elements prints exactly `N` lines of its own indentation,
/// in order the headers `0:` to `N-1:`; every other line it prints is
/// indented at least two spaces further.
pub proof fn lemma_array_headers(items: Seq<Cbor>, level: nat)
    ensures
        lines_of(Cbor::Array(items), level).filter(at_level(level)) == Seq::new(
            items.len(),
            |i: int| indent(level) + nat_text(i as nat) + colon(),
        ),
        forall|i: int|
            0 <= i < lines_of(Cbor::Array(items), level).len() && !at_level(level)(
                #[trigger] lines_of(Cbor::Array(items), level)[i],
            ) ==> indented(lines_of(Cbor::Array(items), level)[i], level + 1),
{
    lemma_array_headers_prefix(items, level, items.len());
    lemma_array_lines_split(items, level, items.len());
    assert(lines_of(Cbor::Array(items), level) == array_lines(items, level, items.len()));
}

proof fn lemma_array_lines_split(items: Seq<Cbor>, level: nat, n: nat)
    ensures
        forall|i: int|
            0 <= i < array_lines(items, level, n).len() ==> at_level(level)(
                #[trigger] array_lines(items, level, n)[i],
            ) || indented(array_lines(items, level, n)[i], level + 1),
    decreases n,
{
    if n > 0 && n <= items.len() {
        lemma_array_lines_split(items, level, (n - 1) as nat);
        lemma_lines_indented(items[n - 1], level + 1);
        lemma_nat_text_digit((n - 1) as nat);
        let prev = array_lines(items, level, (n - 1) as nat);
        let ls = array_lines(items, level, n);
        let head = indent(level) + nat_text((n - 1) as nat) + colon();
        assert(head[2 * level as int] == nat_text((n - 1) as nat)[0]);
        assert forall|i: int| 0 <= i < ls.len() implies at_level(level)(#[trigger] ls[i]) || indented(
            ls[i],
            level + 1,
        ) by {
            if i < prev.len() {
                assert(ls[i] == prev[i]);
            } else if i == prev.len() {
                assert(ls[i] == head);
            } else {
                let c = lines_of(items[n - 1], level + 1);
                assert(ls[i] == c[i - prev.len() - 1]);
            }
        }
    }
}

proof fn lemma_array_headers_prefix(items: Seq<Cbor>, level: nat, n: nat)
    requires
        n <= items.len(),
    ensures
        array_lines(items, level, n).filter(at_level(level)) == Seq::new(
            n,
            |i: int| indent(level) + nat_text(i as nat) + colon(),
        ),
    decreases n,
{
    broadcast use vstd::seq::Seq::filter_distributes_over_add;
    let pred = at_level(level);
    if n == 0 {
        assert(array_lines(items, level, n) =~= Seq::empty());
        reveal(Seq::filter);
        assert(Seq::<Seq<u8>>::empty().filter(pred) =~= Seq::empty());
        assert(Seq::<Seq<u8>>::empty().filter(pred) =~= Seq::new(
            n,
            |i: int| indent(level) + nat_text(i as nat) + colon(),
        ));
    } else {
        lemma_array_headers_prefix(items, level, (n - 1) as nat);
        let head = indent(level) + nat_text((n - 1) as nat) + colon();
        let children = lines_of(items[n - 1], level + 1);
        lemma_nat_text_digit((n - 1) as nat);
        assert(head[2 * level as int] == nat_text((n - 1) as nat)[0]);
        assert(pred(head));
        reveal(Seq::filter);
        assert(seq![head].filter(pred) =~= seq![head]) by {
            assert(seq![head].drop_last() =~= Seq::<Seq<u8>>::empty());
        }
        lemma_lines_indented(items[n - 1], level + 1);
        assert(children.all(|x: Seq<u8>| !pred(x))) by {
            assert forall|i: int| 0 <= i < children.len() implies !pred(#[trigger] children[i]) by {
                assert(indented(children[i], level + 1));
                assert(children[i][2 * level as int] == 32u8);
            }
        }
        children.lemma_all_neg_filter_empty(pred);
        assert(children.filter(pred) =~= Seq::empty());
        let prev = array_lines(items, level, (n - 1) as nat);
        assert(array_lines(items, level, n) == prev + seq![head] + children);
        assert((prev + seq![head] + children).filter(pred) == (prev + seq![head]).filter(pred) + children.filter(pred));
        assert((prev + seq![head]).filter(pred) == prev.filter(pred) + seq![head].filter(pred));
        assert(array_lines(items, level, n).filter(pred) =~= Seq::new(
            n,
            |i: int| indent(level) + nat_text(i as nat) + colon(),
        ));
    }
}

/// An empty map or an empty array prints no line.
pub proof fn lemma_empty_containers(level: nat)
    ensures
        lines_of(Cbor::Mapping(Seq::empty()), level) == Seq::<Seq<u8>>::empty(),
        lines_of(Cbor::Array(Seq::empty()), level) == Seq::<Seq<u8>>::empty(),
{
}

/// A map with a pair whose key is an integer or a text string prints at
/// least one line.
pub proof fn lemma_map_with_scalar_key_prints(pairs: Seq<(Cbor, Cbor)>, level: nat, k: int)
    requires
        0 <= k < pairs.len(),
        is_scalar(pairs[k].0),
    ensures
        lines_of(Cbor::Mapping(pairs), level).len() >= 1,
{
    lemma_map_lines_nonempty(pairs, level, pairs.len(), k);
}

proof fn lemma_map_lines_nonempty(pairs: Seq<(Cbor, Cbor)>, level: nat, n: nat, k: int)
    requires
        0 <= k < n <= pairs.len(),
        is_scalar(pairs[k].0),
    ensures
        map_lines(pairs, level, n).len() >= 1,
    decreases n,
{
    if k < n - 1 {
        lemma_map_lines_nonempty(pairs, level, (n - 1) as nat, k);
    }
}


/// Each line with `2 * a` more spaces in front.
pub open spec fn shifted(ls: Seq<Seq<u8>>, a: nat) -> Seq<Seq<u8>> {
    ls.map_values(|l: Seq<u8>| indent(a) + l)
}

proof fn lemma_indent_add(a: nat, b: nat)
    ensures
        indent(a + b) == indent(a) + indent(b),
{
    assert(indent(a + b) =~= indent(a) + indent(b));
}

proof fn lemma_shifted_add(x: Seq<Seq<u8>>, y: Seq<Seq<u8>>, a: nat)
    ensures
        shifted(x + y, a) == shifted(x, a) + shifted(y, a),
{
    assert(shifted(x + y, a) =~= shifted(x, a) + shifted(y, a));
}

/// Printing a value `a` levels deeper puts `2 * a` more spaces in front of
/// each of its lines and changes nothing else; so every line stands at twice
/// the number of maps and arrays around it, counted from the printed level.
pub proof fn lemma_lines_shift(v: Cbor, a: nat, b: nat)
    ensures
        lines_of(v, a + b) == shifted(lines_of(v, b), a),
    decreases v, 0nat,
{
    lemma_indent_add(a, b);
    match v {
        Cbor::Mapping(pairs) => {
            lemma_map_lines_shift(pairs, a, b, pairs.len());
        },
        Cbor::Array(items) => {
            lemma_array_lines_shift(items, a, b, items.len());
        },
        Cbor::Int(_) => {
            assert(indent(a + b) + scalar_text(v) =~= indent(a) + (indent(b) + scalar_text(v)));
            assert(lines_of(v, a + b) =~= shifted(lines_of(v, b), a));
        },
        Cbor::Text(_) => {
            assert(indent(a + b) + scalar_text(v) =~= indent(a) + (indent(b) + scalar_text(v)));
            assert(lines_of(v, a + b) =~= shifted(lines_of(v, b), a));
        },
        _ => {
            assert(lines_of(v, a + b) =~= shifted(lines_of(v, b), a));
        },
    }
}

proof fn lemma_map_lines_shift(pairs: Seq<(Cbor, Cbor)>, a: nat, b: nat, n: nat)
    ensures
        map_lines(pairs, a + b, n) == shifted(map_lines(pairs, b, n), a),
    decreases pairs, n,
{
    lemma_indent_add(a, b);
    if n == 0 || n > pairs.len() {
        assert(map_lines(pairs, a + b, n) =~= shifted(map_lines(pairs, b, n), a));
    } else {
        let k = pairs[n - 1].0;
        let v = pairs[n - 1].1;
        lemma_map_lines_shift(pairs, a, b, (n - 1) as nat);
        let prev = map_lines(pairs, b, (n - 1) as nat);
        let extra = if !is_scalar(k) {
            Seq::<Seq<u8>>::empty()
        } else if is_scalar(v) {
            seq![indent(b) + scalar_text(k) + colon_space() + scalar_text(v)]
        } else {
            seq![indent(b) + scalar_text(k) + colon()] + lines_of(v, b + 1)
        };
        assert(map_lines(pairs, b, n) == prev + extra);
        lemma_shifted_add(prev, extra, a);
        if !is_scalar(k) {
            assert(shifted(extra, a) =~= Seq::<Seq<u8>>::empty());
        } else if is_scalar(v) {
            assert(indent(a + b) + scalar_text(k) + colon_space() + scalar_text(v) =~= indent(a) + (
            indent(b) + scalar_text(k) + colon_space() + scalar_text(v)));
            assert(shifted(extra, a) =~= seq![indent(a + b) + scalar_text(k) + colon_space() + scalar_text(v)]);
        } else {
            lemma_lines_shift(v, a, b + 1);
            assert(a + (b + 1) == (a + b) + 1);
            let head = seq![indent(b) + scalar_text(k) + colon()];
            lemma_shifted_add(head, lines_of(v, b + 1), a);
            assert(indent(a + b) + scalar_text(k) + colon() =~= indent(a) + (indent(b) + scalar_text(k) + colon()));
            assert(shifted(head, a) =~= seq![indent(a + b) + scalar_text(k) + colon()]);
        }
        assert(map_lines(pairs, a + b, n) == map_lines(pairs, a + b, (n - 1) as nat) + shifted(extra, a));
    }
}

proof fn lemma_array_lines_shift(items: Seq<Cbor>, a: nat, b: nat, n: nat)
    ensures
        array_lines(items, a + b, n) == shifted(array_lines(items, b, n), a),
    decreases items, n,
{
    lemma_indent_add(a, b);
    if n == 0 || n > items.len() {
        assert(array_lines(items, a + b, n) =~= shifted(array_lines(items, b, n), a));
    } else {
        lemma_array_lines_shift(items, a, b, (n - 1) as nat);
        lemma_lines_shift(items[n - 1], a, b + 1);
        assert(a + (b + 1) == (a + b) + 1);
        let prev = array_lines(items, b, (n - 1) as nat);
        let head = seq![indent(b) + nat_text((n - 1) as nat) + colon()];
        let kids = lines_of(items[n - 1], b + 1);
        lemma_shifted_add(prev + head, kids, a);
        lemma_shifted_add(prev, head, a);
        assert(indent(a + b) + nat_text((n - 1) as nat) + colon() =~= indent(a) + (indent(b) + nat_text(
            (n - 1) as nat,
        ) + colon()));
        assert(shifted(head, a) =~= seq![indent(a + b) + nat_text((n - 1) as nat) + colon()]);
    }
}

} // verus!
