//! What reading gives back of writing: decoding the oxdbin encoding of a
//! value gives the value back, wherever in a buffer the encoding stands.
use vstd::prelude::*;
use vstd::utf8::encode_utf8;
use vstd::utf8::valid_utf8;

use crate::oxdbin::basebin::has_no_null;
use crate::oxdbin::basebin::lemma_entries_have_no_null;
use crate::oxdbin::basebin::lemma_items_have_no_null;
use crate::oxdbin::basebin::spec_decode;
use crate::oxdbin::basebin::spec_decode_items;
use crate::oxdbin::basebin::spec_decode_pairs;
use crate::oxdbin::basebin::spec_encode;
use crate::oxdbin::basebin::spec_encode_entries;
use crate::oxdbin::basebin::spec_encode_items;
use crate::oxdbin::basebin::spec_encode_n;
use crate::oxdbin::basebin::spec_encode_str;
use crate::oxdbin::basebin::spec_find_key;
use crate::oxdbin::basebin::spec_map_of_pairs;
use crate::oxdbin::bigendian::be32;
use crate::oxdbin::bigendian::be64;
use crate::oxdbin::bigendian::lemma_be32_roundtrip;
use crate::oxdbin::bigendian::lemma_be64_roundtrip;
use crate::oxdbin::bigendian::read_be32;
use crate::oxdbin::bigendian::read_be64;
use crate::oxdbin::value::SpecValue;

verus! {

broadcast use {vstd::utf8::encode_utf8_valid_utf8, vstd::utf8::encode_utf8_decode_utf8};

/// The values that decoding gives back unchanged: no `Null`, floats whose
/// exponent field is not all ones (neither infinite nor NaN),
/// strings, arrays and maps whose lengths fit the 32-bit size field, and
/// maps in which no key occurs twice.
pub open spec fn encodes_faithfully(v: SpecValue) -> bool
    decreases v,
{
    match v {
        SpecValue::Null => false,
        SpecValue::Bool(_) => true,
        SpecValue::Int(_) => true,
        SpecValue::Float(bits) => (bits >> 52u64) & 0x7ffu64 != 0x7ffu64,
        SpecValue::Str(cs) => str_fits(cs),
        SpecValue::Array(items) => items.len() <= u32::MAX && items_encode_faithfully(items),
        SpecValue::Object(entries) => entries.len() <= u32::MAX && entries_encode_faithfully(
            entries,
        ) && keys_distinct(entries),
    }
}

/// The UTF-8 length of `cs` fits the 32-bit size field.
pub open spec fn str_fits(cs: Seq<char>) -> bool {
    encode_utf8(cs).len() <= u32::MAX
}

/// Each item of `items` encodes faithfully.
pub open spec fn items_encode_faithfully(items: Seq<SpecValue>) -> bool
    decreases items,
{
    if items.len() == 0 {
        true
    } else {
        items_encode_faithfully(items.subrange(0, items.len() - 1)) && encodes_faithfully(
            items[items.len() - 1],
        )
    }
}

/// Each key of `entries` fits and each value encodes faithfully.
pub open spec fn entries_encode_faithfully(entries: Seq<(Seq<char>, SpecValue)>) -> bool
    decreases entries,
{
    if entries.len() == 0 {
        true
    } else {
        entries_encode_faithfully(entries.subrange(0, entries.len() - 1)) && str_fits(
            entries[entries.len() - 1].0,
        ) && encodes_faithfully(entries[entries.len() - 1].1)
    }
}

/// No two entries share a key.
pub open spec fn keys_distinct(entries: Seq<(Seq<char>, SpecValue)>) -> bool {
    forall|i: int, j: int|
        0 <= i < j < entries.len() ==> #[trigger] entries[i].0 != #[trigger] entries[j].0
}

// ---------------------------------------------------------------------------
// Facts about the pieces
// ---------------------------------------------------------------------------
proof fn lemma_items_faithful_each(items: Seq<SpecValue>)
    requires
        items_encode_faithfully(items),
    ensures
        forall|i: int| 0 <= i < items.len() ==> #[trigger] encodes_faithfully(items[i]),
    decreases items.len(),
{
    if items.len() > 0 {
        let front = items.subrange(0, items.len() - 1);
        assert(items_encode_faithfully(items) == (items_encode_faithfully(front)
            && encodes_faithfully(items[items.len() - 1])));
        lemma_items_faithful_each(front);
        assert forall|i: int| 0 <= i < items.len() implies #[trigger] encodes_faithfully(
            items[i],
        ) by {
            if i < front.len() {
                assert(front[i] == items[i]);
            }
        }
    }
}

proof fn lemma_entries_faithful_each(entries: Seq<(Seq<char>, SpecValue)>)
    requires
        entries_encode_faithfully(entries),
    ensures
        forall|i: int|
            0 <= i < entries.len() ==> str_fits(#[trigger] entries[i].0) && encodes_faithfully(
                entries[i].1,
            ),
    decreases entries.len(),
{
    if entries.len() > 0 {
        let front = entries.subrange(0, entries.len() - 1);
        assert(entries_encode_faithfully(entries) == (entries_encode_faithfully(front) && str_fits(
            entries[entries.len() - 1].0,
        ) && encodes_faithfully(entries[entries.len() - 1].1)));
        lemma_entries_faithful_each(front);
        assert forall|i: int| 0 <= i < entries.len() implies str_fits(#[trigger] entries[i].0)
            && encodes_faithfully(entries[i].1) by {
            if i < front.len() {
                assert(front[i] == entries[i]);
            }
        }
    }
}

/// The encoding of a sequence of items splits at any point.
proof fn lemma_encode_items_append(a: Seq<SpecValue>, b: Seq<SpecValue>)
    ensures
        spec_encode_items(a + b) == spec_encode_items(a) + spec_encode_items(b),
    decreases b.len(),
{
    if b.len() == 0 {
        assert(a + b =~= a);
        assert(spec_encode_items(b) == Seq::<u8>::empty());
        assert(spec_encode_items(a) + spec_encode_items(b) =~= spec_encode_items(a));
    } else {
        let bf = b.subrange(0, b.len() - 1);
        lemma_encode_items_append(a, bf);
        let ab = a + b;
        assert(ab.subrange(0, ab.len() - 1) =~= a + bf);
        assert(ab[ab.len() - 1] == b[b.len() - 1]);
        assert(spec_encode_items(ab) == spec_encode_items(ab.subrange(0, ab.len() - 1))
            + spec_encode(ab[ab.len() - 1]));
        assert(spec_encode_items(b) == spec_encode_items(bf) + spec_encode(b[b.len() - 1]));
        assert(spec_encode_items(ab) =~= spec_encode_items(a) + spec_encode_items(b));
    }
}

/// The encoding of a sequence of entries splits at any point.
proof fn lemma_encode_entries_append(
    a: Seq<(Seq<char>, SpecValue)>,
    b: Seq<(Seq<char>, SpecValue)>,
)
    ensures
        spec_encode_entries(a + b) == spec_encode_entries(a) + spec_encode_entries(b),
    decreases b.len(),
{
    if b.len() == 0 {
        assert(a + b =~= a);
        assert(spec_encode_entries(b) == Seq::<u8>::empty());
        assert(spec_encode_entries(a) + spec_encode_entries(b) =~= spec_encode_entries(a));
    } else {
        let bf = b.subrange(0, b.len() - 1);
        lemma_encode_entries_append(a, bf);
        let ab = a + b;
        assert(ab.subrange(0, ab.len() - 1) =~= a + bf);
        assert(ab[ab.len() - 1] == b[b.len() - 1]);
        assert(spec_encode_entries(ab) == spec_encode_entries(ab.subrange(0, ab.len() - 1))
            + spec_encode_str(ab[ab.len() - 1].0) + spec_encode(ab[ab.len() - 1].1));
        assert(spec_encode_entries(b) == spec_encode_entries(bf) + spec_encode_str(
            b[b.len() - 1].0,
        ) + spec_encode(b[b.len() - 1].1));
        assert(spec_encode_entries(ab) =~= spec_encode_entries(a) + spec_encode_entries(b));
    }
}

/// The encoding of items, split off at the first item.
proof fn lemma_encode_items_first(items: Seq<SpecValue>)
    requires
        items.len() > 0,
    ensures
        spec_encode_items(items) == spec_encode(items[0]) + spec_encode_items(
            items.subrange(1, items.len() as int),
        ),
{
    let head = seq![items[0]];
    let tail = items.subrange(1, items.len() as int);
    assert(head + tail =~= items);
    lemma_encode_items_append(head, tail);
    assert(head.subrange(0, 0) =~= Seq::<SpecValue>::empty());
    assert(spec_encode_items(head) == spec_encode_items(head.subrange(0, 0)) + spec_encode(
        head[0],
    ));
    assert(spec_encode_items(head) =~= spec_encode(items[0]));
}

/// The encoding of entries, split off at the first entry.
proof fn lemma_encode_entries_first(entries: Seq<(Seq<char>, SpecValue)>)
    requires
        entries.len() > 0,
    ensures
        spec_encode_entries(entries) == spec_encode_str(entries[0].0) + spec_encode(entries[0].1)
            + spec_encode_entries(entries.subrange(1, entries.len() as int)),
{
    let head = seq![entries[0]];
    let tail = entries.subrange(1, entries.len() as int);
    assert(head + tail =~= entries);
    lemma_encode_entries_append(head, tail);
    assert(head.subrange(0, 0) =~= Seq::<(Seq<char>, SpecValue)>::empty());
    assert(spec_encode_entries(head) == spec_encode_entries(head.subrange(0, 0))
        + spec_encode_str(head[0].0) + spec_encode(head[0].1));
    assert(spec_encode_entries(head) =~= spec_encode_str(entries[0].0) + spec_encode(
        entries[0].1,
    ));
}

/// Reading the four bytes that `be32(x)` wrote at `s[at..]` gives `x`.
proof fn lemma_read_be32_at(s: Seq<u8>, at: int, x: u32)
    requires
        0 <= at,
        at + 4 <= s.len(),
        s.subrange(at, at + 4) == be32(x),
    ensures
        read_be32(s, at) == x,
{
    lemma_be32_roundtrip(x);
    assert(s[at] == s.subrange(at, at + 4)[0]);
    assert(s[at + 1] == s.subrange(at, at + 4)[1]);
    assert(s[at + 2] == s.subrange(at, at + 4)[2]);
    assert(s[at + 3] == s.subrange(at, at + 4)[3]);
}

/// Reading the eight bytes that `be64(x)` wrote at `s[at..]` gives `x`.
proof fn lemma_read_be64_at(s: Seq<u8>, at: int, x: u64)
    requires
        0 <= at,
        at + 8 <= s.len(),
        s.subrange(at, at + 8) == be64(x),
    ensures
        read_be64(s, at) == x,
{
    lemma_be64_roundtrip(x);
    let w = s.subrange(at, at + 8);
    assert(s[at] == w[0]);
    assert(s[at + 1] == w[1]);
    assert(s[at + 2] == w[2]);
    assert(s[at + 3] == w[3]);
    assert(s[at + 4] == w[4]);
    assert(s[at + 5] == w[5]);
    assert(s[at + 6] == w[6]);
    assert(s[at + 7] == w[7]);
}

/// An `i64` survives the trip through its two's complement bits.
proof fn lemma_i64_bits(i: i64)
    ensures
        (i as u64) as i64 == i,
{
    assert((i as u64) as i64 == i) by (bit_vector);
}

/// Where `whole` stands at `s[pos..]`, so does any of its slices.
proof fn lemma_sub_of_sub(s: Seq<u8>, pos: int, whole: Seq<u8>, from: int, to: int)
    requires
        0 <= pos,
        pos + whole.len() <= s.len(),
        s.subrange(pos, pos + whole.len()) == whole,
        0 <= from <= to <= whole.len(),
    ensures
        s.subrange(pos + from, pos + to) == whole.subrange(from, to),
{
    assert(s.subrange(pos + from, pos + to) =~= whole.subrange(from, to)) by {
        assert forall|k: int| 0 <= k < to - from implies s.subrange(pos + from, pos + to)[k]
            == whole.subrange(from, to)[k] by {
            assert(s[pos + from + k] == s.subrange(pos, pos + whole.len())[from + k]);
        }
    }
}

/// Where no entry has key `k`, the search for it ends at the end.
proof fn lemma_find_absent(entries: Seq<(Seq<char>, SpecValue)>, k: Seq<char>, from: int)
    requires
        0 <= from <= entries.len(),
        forall|i: int| from <= i < entries.len() ==> #[trigger] entries[i].0 != k,
    ensures
        spec_find_key(entries, k, from) == entries.len(),
    decreases entries.len() - from,
{
    if from < entries.len() {
        lemma_find_absent(entries, k, from + 1);
    }
}

/// Inserting pairs with distinct keys, in order, into an empty map gives
/// the pairs back.
proof fn lemma_map_of_distinct_pairs(pairs: Seq<(Seq<char>, SpecValue)>)
    requires
        keys_distinct(pairs),
    ensures
        spec_map_of_pairs(pairs) == pairs,
    decreases pairs.len(),
{
    if pairs.len() == 0 {
        assert(spec_map_of_pairs(pairs) =~= pairs);
    } else {
        let front = pairs.subrange(0, pairs.len() - 1);
        let last = pairs[pairs.len() - 1];
        assert forall|i: int, j: int| 0 <= i < j < front.len() implies #[trigger] front[i].0
            != #[trigger] front[j].0 by {
            assert(front[i] == pairs[i]);
            assert(front[j] == pairs[j]);
        }
        lemma_map_of_distinct_pairs(front);
        assert forall|i: int| 0 <= i < front.len() implies #[trigger] front[i].0 != last.0 by {
            assert(front[i] == pairs[i]);
            assert(pairs[i].0 != pairs[pairs.len() - 1].0);
        }
        lemma_find_absent(front, last.0, 0);
        assert(spec_map_of_pairs(pairs) == crate::oxdbin::basebin::spec_insert(
            spec_map_of_pairs(front),
            last.0,
            last.1,
        ));
        assert(front.push(last) =~= pairs);
    }
}

/// A faithfully encodable value holds no `Null`, so the writer accepts it.
pub proof fn lemma_faithful_has_no_null(v: SpecValue)
    requires
        encodes_faithfully(v),
    ensures
        has_no_null(v),
    decreases v,
{
    match v {
        SpecValue::Array(items) => {
            lemma_items_faithful_each(items);
            assert forall|i: int| 0 <= i < items.len() implies #[trigger] has_no_null(items[i]) by {
                assert(decreases_to!(v => v->Array_0[i]));
                lemma_faithful_has_no_null(items[i]);
            }
            lemma_items_have_no_null(items);
        },
        SpecValue::Object(entries) => {
            lemma_entries_faithful_each(entries);
            assert forall|i: int| 0 <= i < entries.len() implies #[trigger] has_no_null(
                entries[i].1,
            ) by {
                assert(str_fits(entries[i].0));
                assert(decreases_to!(v => v->Object_0[i].1));
                lemma_faithful_has_no_null(entries[i].1);
            }
            lemma_entries_have_no_null(entries);
        },
        _ => {},
    }
}

/// Where the search for `k` ends at the end, no entry has key `k`.
proof fn lemma_find_end_absent(entries: Seq<(Seq<char>, SpecValue)>, k: Seq<char>, from: int)
    requires
        0 <= from <= entries.len(),
        spec_find_key(entries, k, from) == entries.len(),
    ensures
        forall|i: int| from <= i < entries.len() ==> #[trigger] entries[i].0 != k,
    decreases entries.len() - from,
{
    if from < entries.len() {
        lemma_find_end_absent(entries, k, from + 1);
    }
}

/// Where the search for `k` stops before the end, it stops at an entry with key `k`.
proof fn lemma_find_found(entries: Seq<(Seq<char>, SpecValue)>, k: Seq<char>, from: int)
    requires
        0 <= from <= entries.len(),
    ensures
        spec_find_key(entries, k, from) <= entries.len(),
        spec_find_key(entries, k, from) < entries.len() ==> {
            let at = spec_find_key(entries, k, from);
            0 <= at && entries[at].0 == k
        },
    decreases entries.len() - from,
{
    if from < entries.len() {
        lemma_find_found(entries, k, from + 1);
    }
}

/// A map built by inserting pairs holds each key once.
pub proof fn lemma_map_of_pairs_keys_distinct(pairs: Seq<(Seq<char>, SpecValue)>)
    ensures
        keys_distinct(spec_map_of_pairs(pairs)),
    decreases pairs.len(),
{
    if pairs.len() > 0 {
        let front = pairs.subrange(0, pairs.len() - 1);
        let last = pairs[pairs.len() - 1];
        lemma_map_of_pairs_keys_distinct(front);
        let m = spec_map_of_pairs(front);
        assert(spec_map_of_pairs(pairs) == crate::oxdbin::basebin::spec_insert(m, last.0, last.1));
        let at = spec_find_key(m, last.0, 0);
        lemma_find_found(m, last.0, 0);
        if at < m.len() {
            let n = m.update(at, (last.0, last.1));
            assert forall|i: int, j: int| 0 <= i < j < n.len() implies #[trigger] n[i].0
                != #[trigger] n[j].0 by {
                assert(n[i].0 == m[i].0);
                assert(n[j].0 == m[j].0);
            }
        } else {
            lemma_find_end_absent(m, last.0, 0);
            let n = m.push((last.0, last.1));
            assert forall|i: int, j: int| 0 <= i < j < n.len() implies #[trigger] n[i].0
                != #[trigger] n[j].0 by {
                if j < m.len() {
                    assert(n[i] == m[i]);
                    assert(n[j] == m[j]);
                } else {
                    assert(n[i] == m[i]);
                }
            }
        }
    }
}

// ---------------------------------------------------------------------------
// The laws
// ---------------------------------------------------------------------------
/// Decoding the encoding of a faithfully encodable value gives the value
/// back, and the position just after its encoding, wherever in a buffer the
/// encoding stands.
pub proof fn lemma_decode_encode(v: SpecValue, s: Seq<u8>, pos: int)
    requires
        encodes_faithfully(v),
        0 <= pos,
        pos + spec_encode(v).len() <= s.len(),
        s.subrange(pos, pos + spec_encode(v).len()) == spec_encode(v),
    ensures
        spec_encode(v).len() >= 1,
        spec_decode(s, pos) == Some((v, pos + spec_encode(v).len())),
    decreases v, 1int,
{
    let e = spec_encode(v);
    let p = pos + 1;
    match v {
        SpecValue::Null => {},
        SpecValue::Bool(b) => {
            assert(s[pos] == e[0]);
            assert(s[p] == e[1]);
        },
        SpecValue::Int(i) => {
            assert(s[pos] == e[0]);
            lemma_sub_of_sub(s, pos, e, 1, 9);
            assert(e.subrange(1, 9) =~= be64(i as u64));
            lemma_read_be64_at(s, p, i as u64);
            lemma_i64_bits(i);
        },
        SpecValue::Float(bits) => {
            assert(s[pos] == e[0]);
            lemma_sub_of_sub(s, pos, e, 1, 9);
            assert(e.subrange(1, 9) =~= be64(bits));
            lemma_read_be64_at(s, p, bits);
        },
        SpecValue::Str(cs) => {
            lemma_decode_encode_str(cs, s, pos);
        },
        SpecValue::Array(items) => {
            let n = items.len();
            assert(s[pos] == e[0]);
            lemma_sub_of_sub(s, pos, e, 1, 5);
            assert(e.subrange(1, 5) =~= be32(n as u32));
            lemma_read_be32_at(s, p, n as u32);
            let body = spec_encode_items(items);
            lemma_sub_of_sub(s, pos, e, 5, e.len() as int);
            assert(e.subrange(5, e.len() as int) =~= body);
            assert(items_encode_faithfully(items));
            lemma_items_faithful_each(items);
            assert(decreases_to!(v => v->Array_0));
            lemma_decode_encode_items(items, s, p + 4);
            assert(spec_decode_items(s, p + 4, read_be32(s, p) as nat) == Some(
                (items, p + 4 + body.len()),
            ));
        },
        SpecValue::Object(entries) => {
            let n = entries.len();
            assert(s[pos] == e[0]);
            lemma_sub_of_sub(s, pos, e, 1, 5);
            assert(e.subrange(1, 5) =~= be32(n as u32));
            lemma_read_be32_at(s, p, n as u32);
            let body = spec_encode_entries(entries);
            lemma_sub_of_sub(s, pos, e, 5, e.len() as int);
            assert(e.subrange(5, e.len() as int) =~= body);
            lemma_entries_faithful_each(entries);
            assert(decreases_to!(v => v->Object_0));
            lemma_decode_encode_pairs(entries, s, p + 4);
            lemma_map_of_distinct_pairs(entries);
            assert(spec_decode_pairs(s, p + 4, read_be32(s, p) as nat) == Some(
                (entries, p + 4 + body.len()),
            ));
        },
    }
}

/// Decoding the encodings of faithfully encodable items, one after the
/// other, gives the items back.
pub proof fn lemma_decode_encode_items(items: Seq<SpecValue>, s: Seq<u8>, pos: int)
    requires
        forall|i: int| 0 <= i < items.len() ==> #[trigger] encodes_faithfully(items[i]),
        0 <= pos,
        pos + spec_encode_items(items).len() <= s.len(),
        s.subrange(pos, pos + spec_encode_items(items).len()) == spec_encode_items(items),
    ensures
        spec_decode_items(s, pos, items.len()) == Some(
            (items, pos + spec_encode_items(items).len()),
        ),
    decreases items, 0int,
{
    if items.len() == 0 {
        assert(spec_encode_items(items) == Seq::<u8>::empty());
        assert(Seq::<SpecValue>::empty() =~= items);
    } else {
        let whole = spec_encode_items(items);
        let first = spec_encode(items[0]);
        let tail = items.subrange(1, items.len() as int);
        let rest = spec_encode_items(tail);
        lemma_encode_items_first(items);
        assert(encodes_faithfully(items[0]));
        lemma_sub_of_sub(s, pos, whole, 0, first.len() as int);
        assert(whole.subrange(0, first.len() as int) =~= first);
        assert(decreases_to!(items => items[0]));
        lemma_decode_encode(items[0], s, pos);
        let q = pos + first.len();
        lemma_sub_of_sub(s, pos, whole, first.len() as int, whole.len() as int);
        assert(whole.subrange(first.len() as int, whole.len() as int) =~= rest);
        assert forall|i: int| 0 <= i < tail.len() implies #[trigger] encodes_faithfully(
            tail[i],
        ) by {
            assert(tail[i] == items[i + 1]);
        }
        lemma_decode_encode_items(tail, s, q);
        assert(seq![items[0]] + tail =~= items);
        assert(spec_decode_items(s, pos, items.len()) == Some(
            (seq![items[0]] + tail, q + rest.len()),
        ));
    }
}

/// Decoding the encoding of a string whose length fits gives the string.
pub proof fn lemma_decode_encode_str(cs: Seq<char>, s: Seq<u8>, pos: int)
    requires
        str_fits(cs),
        0 <= pos,
        pos + spec_encode_str(cs).len() <= s.len(),
        s.subrange(pos, pos + spec_encode_str(cs).len()) == spec_encode_str(cs),
    ensures
        spec_decode(s, pos) == Some((SpecValue::Str(cs), pos + spec_encode_str(cs).len())),
{
    let e = spec_encode_str(cs);
    let p = pos + 1;
    let bytes = encode_utf8(cs);
    let n = bytes.len() as int;
    assert(s[pos] == e[0]);
    lemma_sub_of_sub(s, pos, e, 1, 5);
    assert(e.subrange(1, 5) =~= be32(n as u32));
    lemma_read_be32_at(s, p, n as u32);
    lemma_sub_of_sub(s, pos, e, 5, 5 + n);
    assert(e.subrange(5, 5 + n) =~= bytes);
}

/// Decoding the encodings of entries with fitting keys and faithfully
/// encodable values, one after the other, gives the (key, value) pairs back.
pub proof fn lemma_decode_encode_pairs(
    entries: Seq<(Seq<char>, SpecValue)>,
    s: Seq<u8>,
    pos: int,
)
    requires
        forall|i: int|
            0 <= i < entries.len() ==> str_fits(#[trigger] entries[i].0) && encodes_faithfully(
                entries[i].1,
            ),
        0 <= pos,
        pos + spec_encode_entries(entries).len() <= s.len(),
        s.subrange(pos, pos + spec_encode_entries(entries).len()) == spec_encode_entries(entries),
    ensures
        spec_decode_pairs(s, pos, entries.len()) == Some(
            (entries, pos + spec_encode_entries(entries).len()),
        ),
    decreases entries, 0int,
{
    if entries.len() == 0 {
        assert(spec_encode_entries(entries) == Seq::<u8>::empty());
        assert(Seq::<(Seq<char>, SpecValue)>::empty() =~= entries);
    } else {
        let whole = spec_encode_entries(entries);
        let key = SpecValue::Str(entries[0].0);
        let ke = spec_encode(key);
        let ve = spec_encode(entries[0].1);
        let tail = entries.subrange(1, entries.len() as int);
        let rest = spec_encode_entries(tail);
        lemma_encode_entries_first(entries);
        assert(ke == spec_encode_str(entries[0].0));
        assert(str_fits(entries[0].0));
        lemma_sub_of_sub(s, pos, whole, 0, ke.len() as int);
        assert(whole.subrange(0, ke.len() as int) =~= ke);
        lemma_decode_encode_str(entries[0].0, s, pos);
        let q = pos + ke.len();
        lemma_sub_of_sub(s, pos, whole, ke.len() as int, ke.len() + ve.len() as int);
        assert(whole.subrange(ke.len() as int, ke.len() + ve.len() as int) =~= ve);
        assert(decreases_to!(entries => entries[0]));
        assert(decreases_to!(entries[0] => entries[0].1));
        lemma_decode_encode(entries[0].1, s, q);
        let r = q + ve.len();
        lemma_sub_of_sub(s, pos, whole, ke.len() + ve.len() as int, whole.len() as int);
        assert(whole.subrange(ke.len() + ve.len() as int, whole.len() as int) =~= rest);
        assert forall|i: int| 0 <= i < tail.len() implies str_fits(#[trigger] tail[i].0)
            && encodes_faithfully(tail[i].1) by {
            assert(tail[i] == entries[i + 1]);
        }
        lemma_decode_encode_pairs(tail, s, r);
        assert(seq![entries[0]] + tail =~= entries);
        assert(spec_decode_pairs(s, pos, entries.len()) == Some(
            (seq![(entries[0].0, entries[0].1)] + tail, r + rest.len()),
        ));
    }
}

/// Decoding a whole oxdbin buffer that holds the encoding of a faithfully
/// encodable value gives the value back and stops at the buffer's end.
pub proof fn lemma_decode_of_encode(v: SpecValue)
    requires
        encodes_faithfully(v),
    ensures
        spec_decode(spec_encode(v), 0) == Some((v, spec_encode(v).len() as int)),
{
    let e = spec_encode(v);
    assert(e.subrange(0, e.len() as int) =~= e);
    lemma_decode_encode(v, e, 0);
}

/// A run of deleted bytes written for `total` bytes is skipped in one step:
/// its size field says how many zero bytes follow, and the 5 bytes of
/// identifier and size plus those make `total`.
pub proof fn lemma_skip_of_encode_n(total: nat)
    requires
        5 <= total <= u32::MAX + 5,
    ensures
        spec_encode_n(total).len() == total,
        5 + read_be32(spec_encode_n(total), 1) == total,
{
    let e = spec_encode_n(total);
    assert(e.len() == total);
    assert(e.subrange(0, e.len() as int) =~= e);
    lemma_sub_of_sub(e, 0, e, 1, 5);
    assert(e.subrange(1, 5) =~= be32((total - 5) as u32));
    lemma_read_be32_at(e, 1, (total - 5) as u32);
}

/// A float is written as `f` and the eight big-endian bytes of its bit
/// pattern, whatever the bits (zero, subnormal, infinite or NaN alike).
pub proof fn lemma_encode_float(bits: u64)
    ensures
        spec_encode(SpecValue::Float(bits)) == seq![0x66u8] + be64(bits),
        spec_encode(SpecValue::Float(bits)).len() == 9,
{
}

/// An integer is written as `i` and the eight big-endian bytes of its two's
/// complement bits; a boolean as `t` and 1 or 0.
pub proof fn lemma_encode_int_bool(i: i64, b: bool)
    ensures
        spec_encode(SpecValue::Int(i)) == seq![0x69u8] + be64(i as u64),
        spec_encode(SpecValue::Bool(b)) == seq![0x74u8, if b { 1u8 } else { 0u8 }],
{
}

/// Reading `f` and eight bytes gives the float with those bits exactly when
/// the exponent field of the bits is not all ones, and fails exactly when it
/// is (an infinity or a NaN).
pub proof fn lemma_decode_float(bits: u64)
    ensures
        (bits >> 52u64) & 0x7ffu64 != 0x7ffu64 ==> spec_decode(seq![0x66u8] + be64(bits), 0)
            == Some((SpecValue::Float(bits), 9int)),
        (bits >> 52u64) & 0x7ffu64 == 0x7ffu64 ==> spec_decode(seq![0x66u8] + be64(bits), 0)
            is None,
{
    let s = seq![0x66u8] + be64(bits);
    assert(s.subrange(1, 9) =~= be64(bits));
    lemma_read_be64_at(s, 1, bits);
}

/// A float whose exponent field is not all ones survives a write and a
/// read: decoding its encoding gives it back and ends after 9 bytes.
pub proof fn lemma_float_roundtrip(bits: u64)
    requires
        (bits >> 52u64) & 0x7ffu64 != 0x7ffu64,
    ensures
        spec_decode(spec_encode(SpecValue::Float(bits)), 0) == Some((SpecValue::Float(bits), 9int)),
{
    lemma_encode_float(bits);
    lemma_decode_float(bits);
}

/// Reading `t` and a byte gives true exactly when the byte is 1.
pub proof fn lemma_decode_bool(byte: u8)
    ensures
        spec_decode(seq![0x74u8, byte], 0) == Some((SpecValue::Bool(byte == 1u8), 2int)),
{
}

/// Reading `s`, a 4-byte length and that many bytes gives a string exactly
/// when the bytes are valid UTF-8, and then the string's UTF-8 bytes are
/// those bytes, unchanged, and reading ends after them.
pub proof fn lemma_decode_string_bytes(b: Seq<u8>)
    requires
        b.len() <= u32::MAX,
    ensures
        valid_utf8(b) ==> (spec_decode(seq![0x73u8] + be32(b.len() as u32) + b, 0) matches Some(
            (SpecValue::Str(cs), end),
        ) && encode_utf8(cs) == b && end == 5 + b.len()),
        !valid_utf8(b) ==> spec_decode(seq![0x73u8] + be32(b.len() as u32) + b, 0) is None,
{
    let s = seq![0x73u8] + be32(b.len() as u32) + b;
    assert(s.subrange(1, 5) =~= be32(b.len() as u32));
    lemma_read_be32_at(s, 1, b.len() as u32);
    assert(s.subrange(5, 5 + b.len() as int) =~= b);
    if valid_utf8(b) {
        vstd::utf8::decode_utf8_encode_utf8(b);
    }
}

/// Reading `i` and eight bytes gives the integer whose two's complement
/// bits they are, big-endian, and ends after 9 bytes; writing an integer and
/// reading it back gives it unchanged.
pub proof fn lemma_decode_int(x: u64, i: i64)
    ensures
        spec_decode(seq![0x69u8] + be64(x), 0) == Some((SpecValue::Int(x as i64), 9int)),
        spec_decode(spec_encode(SpecValue::Int(i)), 0) == Some((SpecValue::Int(i), 9int)),
{
    let s = seq![0x69u8] + be64(x);
    assert(s.subrange(1, 9) =~= be64(x));
    lemma_read_be64_at(s, 1, x);
    let t = seq![0x69u8] + be64(i as u64);
    assert(t.subrange(1, 9) =~= be64(i as u64));
    lemma_read_be64_at(t, 1, i as u64);
    lemma_i64_bits(i);
}

/// A string is written as `s`, the byte length of its UTF-8 form (as 32
/// bits), then that UTF-8 form.
pub proof fn lemma_encode_string(cs: Seq<char>)
    ensures
        spec_encode(SpecValue::Str(cs)) == seq![0x73u8] + be32(encode_utf8(cs).len() as u32)
            + encode_utf8(cs),
{
}

} // verus!
