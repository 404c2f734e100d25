//! oxdbin, the binary form of a value: a one-byte type identifier, then a
//! big-endian size where the type has one, then the data.
//!
//! | type   | id  | size        | data                                  |
//! |--------|-----|-------------|---------------------------------------|
//! | string | `s` | 4 bytes     | the UTF-8 bytes                       |
//! | int    | `i` | none        | 8 bytes, two's complement             |
//! | float  | `f` | none        | 8 bytes, IEEE-754 binary64 bits       |
//! | bool   | `t` | none        | 1 byte, 1 for true                    |
//! | vector | `v` | 4 bytes     | that many encoded values              |
//! | map    | `m` | 4 bytes     | that many (string key, value) pairs   |
//! | delete | `n` | 4 bytes     | that many zero bytes                  |
use vstd::prelude::*;
use vstd::utf8::decode_utf8;
use vstd::utf8::encode_utf8;
use vstd::utf8::valid_utf8;

use crate::oxdbin::bigendian::be32;
use crate::oxdbin::bigendian::be64;
use crate::oxdbin::bigendian::get_be32;
use crate::oxdbin::bigendian::get_be64;
use crate::oxdbin::bigendian::push_be32;
use crate::oxdbin::bigendian::push_be64;
use crate::oxdbin::bigendian::push_bytes;
use crate::oxdbin::bigendian::push_zeros;
use crate::oxdbin::bigendian::read_be32;
use crate::oxdbin::bigendian::read_be64;
use crate::oxdbin::value::SpecValue;
use crate::oxdbin::value::Value;
use crate::oxdbin::value::entry_views_of;
use crate::oxdbin::value::lemma_entry_views_of;
use crate::oxdbin::value::lemma_views_of;
use crate::oxdbin::value::views_of;

verus! {

/// Type identifier of a string (`s`).
pub const TAG_STR: u8 = 0x73;

/// Type identifier of an integer (`i`).
pub const TAG_INT: u8 = 0x69;

/// Type identifier of a float (`f`).
pub const TAG_FLOAT: u8 = 0x66;

/// Type identifier of a boolean (`t`).
pub const TAG_BOOL: u8 = 0x74;

/// Type identifier of a vector (`v`).
pub const TAG_VEC: u8 = 0x76;

/// Type identifier of a map (`m`).
pub const TAG_MAP: u8 = 0x6d;

/// Type identifier of a run of deleted bytes (`n`).
pub const TAG_DEL: u8 = 0x6e;

// ---------------------------------------------------------------------------
// The format, as mathematics
// ---------------------------------------------------------------------------
/// A binary64 bit pattern is finite when its exponent field is not all ones
/// (all ones is an infinity or a NaN).
pub open spec fn is_finite_bits(bits: u64) -> bool {
    (bits >> 52u64) & 0x7ffu64 != 0x7ffu64
}

/// The encoding of a string: `s`, the byte length (truncated to 32 bits, as
/// the writer does), the UTF-8 bytes.
pub open spec fn spec_encode_str(cs: Seq<char>) -> Seq<u8> {
    seq![TAG_STR] + be32(encode_utf8(cs).len() as u32) + encode_utf8(cs)
}

/// The oxdbin encoding of `v`. (`Null` has none; the writer refuses it.)
pub open spec fn spec_encode(v: SpecValue) -> Seq<u8>
    decreases v,
{
    match v {
        SpecValue::Null => Seq::empty(),
        SpecValue::Bool(b) => seq![
            TAG_BOOL,
            if b {
                1u8
            } else {
                0u8
            },
        ],
        SpecValue::Int(i) => seq![TAG_INT] + be64(i as u64),
        SpecValue::Float(bits) => seq![TAG_FLOAT] + be64(bits),
        SpecValue::Str(cs) => spec_encode_str(cs),
        SpecValue::Array(items) => seq![TAG_VEC] + be32(items.len() as u32) + spec_encode_items(
            items,
        ),
        SpecValue::Object(entries) => seq![TAG_MAP] + be32(entries.len() as u32)
            + spec_encode_entries(entries),
    }
}

/// The encodings of `items`, one after the other.
pub open spec fn spec_encode_items(items: Seq<SpecValue>) -> Seq<u8>
    decreases items,
{
    if items.len() == 0 {
        Seq::empty()
    } else {
        spec_encode_items(items.subrange(0, items.len() - 1)) + spec_encode(
            items[items.len() - 1],
        )
    }
}

/// For each entry, the encoding of its key as a string, then that of its value.
pub open spec fn spec_encode_entries(entries: Seq<(Seq<char>, SpecValue)>) -> Seq<u8>
    decreases entries,
{
    if entries.len() == 0 {
        Seq::empty()
    } else {
        spec_encode_entries(entries.subrange(0, entries.len() - 1)) + spec_encode_str(
            entries[entries.len() - 1].0,
        ) + spec_encode(entries[entries.len() - 1].1)
    }
}

/// `v` holds no `Null` anywhere: the values that the writer accepts.
pub open spec fn has_no_null(v: SpecValue) -> bool
    decreases v,
{
    match v {
        SpecValue::Null => false,
        SpecValue::Array(items) => items_have_no_null(items),
        SpecValue::Object(entries) => entries_have_no_null(entries),
        _ => true,
    }
}

/// No item of `items` holds a `Null`.
pub open spec fn items_have_no_null(items: Seq<SpecValue>) -> bool
    decreases items,
{
    if items.len() == 0 {
        true
    } else {
        items_have_no_null(items.subrange(0, items.len() - 1)) && has_no_null(
            items[items.len() - 1],
        )
    }
}

/// No value of `entries` holds a `Null`.
pub open spec fn entries_have_no_null(entries: Seq<(Seq<char>, SpecValue)>) -> bool
    decreases entries,
{
    if entries.len() == 0 {
        true
    } else {
        entries_have_no_null(entries.subrange(0, entries.len() - 1)) && has_no_null(
            entries[entries.len() - 1].1,
        )
    }
}

/// `items_have_no_null` holds exactly when it holds of each item.
pub proof fn lemma_items_have_no_null(items: Seq<SpecValue>)
    ensures
        items_have_no_null(items) <==> forall|i: int|
            0 <= i < items.len() ==> #[trigger] has_no_null(items[i]),
    decreases items.len(),
{
    if items.len() > 0 {
        let front = items.subrange(0, items.len() - 1);
        lemma_items_have_no_null(front);
        if items_have_no_null(items) {
            assert forall|i: int| 0 <= i < items.len() implies #[trigger] has_no_null(items[i]) by {
                if i < front.len() {
                    assert(front[i] == items[i]);
                }
            }
        }
        if forall|i: int| 0 <= i < items.len() ==> #[trigger] has_no_null(items[i]) {
            assert forall|i: int| 0 <= i < front.len() implies #[trigger] has_no_null(front[i]) by {
                assert(front[i] == items[i]);
            }
            assert(has_no_null(items[items.len() - 1]));
        }
    }
}

/// `entries_have_no_null` holds exactly when it holds of each entry.
pub proof fn lemma_entries_have_no_null(entries: Seq<(Seq<char>, SpecValue)>)
    ensures
        entries_have_no_null(entries) <==> forall|i: int|
            0 <= i < entries.len() ==> #[trigger] has_no_null(entries[i].1),
    decreases entries.len(),
{
    if entries.len() > 0 {
        let front = entries.subrange(0, entries.len() - 1);
        lemma_entries_have_no_null(front);
        if entries_have_no_null(entries) {
            assert forall|i: int| 0 <= i < entries.len() implies #[trigger] has_no_null(
                entries[i].1,
            ) by {
                if i < front.len() {
                    assert(front[i] == entries[i]);
                }
            }
        }
        if forall|i: int| 0 <= i < entries.len() ==> #[trigger] has_no_null(entries[i].1) {
            assert forall|i: int| 0 <= i < front.len() implies #[trigger] has_no_null(
                front[i].1,
            ) by {
                assert(front[i] == entries[i]);
            }
            assert(has_no_null(entries[entries.len() - 1].1));
        }
    }
}

/// The index of the first entry whose key is `k`, searching from `from`;
/// `entries.len()` when there is none.
pub open spec fn spec_find_key(entries: Seq<(Seq<char>, SpecValue)>, k: Seq<char>, from: int) -> int
    decreases entries.len() - from,
{
    if from < 0 || from >= entries.len() {
        entries.len() as int
    } else if entries[from].0 == k {
        from
    } else {
        spec_find_key(entries, k, from + 1)
    }
}

/// Map insertion: the value of an existing key is replaced in place, a new
/// key goes at the end.
pub open spec fn spec_insert(entries: Seq<(Seq<char>, SpecValue)>, k: Seq<char>, v: SpecValue) -> Seq<
    (Seq<char>, SpecValue),
> {
    let at = spec_find_key(entries, k, 0);
    if at < entries.len() {
        entries.update(at, (k, v))
    } else {
        entries.push((k, v))
    }
}

/// The map built by inserting `pairs` in order into an empty map.
pub open spec fn spec_map_of_pairs(pairs: Seq<(Seq<char>, SpecValue)>) -> Seq<
    (Seq<char>, SpecValue),
>
    decreases pairs.len(),
{
    if pairs.len() == 0 {
        Seq::empty()
    } else {
        let last = pairs[pairs.len() - 1];
        spec_insert(spec_map_of_pairs(pairs.subrange(0, pairs.len() - 1)), last.0, last.1)
    }
}

/// Decoding the value that starts at `s[pos]`: the value and the position
/// just after it, or `None` where the reader fails (a byte missing, an
/// unknown type identifier, a string that is not UTF-8, a float that is
/// infinite or NaN, a map key that is not a string).
pub open spec fn spec_decode(s: Seq<u8>, pos: int) -> Option<(SpecValue, int)>
    decreases s.len() - pos, 0int,
{
    if pos < 0 || pos >= s.len() {
        None
    } else {
        let tag = s[pos];
        let p = pos + 1;
        if tag == TAG_STR {
            if p + 4 > s.len() {
                None
            } else {
                let n = read_be32(s, p) as int;
                let q = p + 4;
                if q + n > s.len() {
                    None
                } else {
                    let bytes = s.subrange(q, q + n);
                    if valid_utf8(bytes) {
                        Some((SpecValue::Str(decode_utf8(bytes)), q + n))
                    } else {
                        None
                    }
                }
            }
        } else if tag == TAG_INT {
            if p + 8 > s.len() {
                None
            } else {
                Some((SpecValue::Int(read_be64(s, p) as i64), p + 8))
            }
        } else if tag == TAG_FLOAT {
            if p + 8 > s.len() {
                None
            } else if is_finite_bits(read_be64(s, p)) {
                Some((SpecValue::Float(read_be64(s, p)), p + 8))
            } else {
                None
            }
        } else if tag == TAG_BOOL {
            if p >= s.len() {
                None
            } else {
                Some((SpecValue::Bool(s[p] == 1u8), p + 1))
            }
        } else if tag == TAG_VEC {
            if p + 4 > s.len() {
                None
            } else {
                match spec_decode_items(s, p + 4, read_be32(s, p) as nat) {
                    Some((items, q)) => Some((SpecValue::Array(items), q)),
                    None => None,
                }
            }
        } else if tag == TAG_MAP {
            if p + 4 > s.len() {
                None
            } else {
                match spec_decode_pairs(s, p + 4, read_be32(s, p) as nat) {
                    Some((pairs, q)) => Some((SpecValue::Object(spec_map_of_pairs(pairs)), q)),
                    None => None,
                }
            }
        } else {
            None
        }
    }
}

/// Decoding `n` values one after the other from `s[pos]`.
/// (The test that each value ends after it starts and within `s` never
/// fails, by [`lemma_decode_bounds`]; it makes the recursion visibly
/// well-founded.)
pub open spec fn spec_decode_items(s: Seq<u8>, pos: int, n: nat) -> Option<(Seq<SpecValue>, int)>
    decreases s.len() - pos, n + 1,
{
    if n == 0 {
        Some((Seq::empty(), pos))
    } else if pos < 0 || pos >= s.len() {
        None
    } else {
        match spec_decode(s, pos) {
            None => None,
            Some((v, q)) => if q <= pos || q > s.len() {
                None
            } else {
                match spec_decode_items(s, q, (n - 1) as nat) {
                    None => None,
                    Some((rest, r)) => Some((seq![v] + rest, r)),
                }
            },
        }
    }
}

/// Decoding `n` (key, value) pairs one after the other from `s[pos]`; each
/// key must decode to a string.
pub open spec fn spec_decode_pairs(s: Seq<u8>, pos: int, n: nat) -> Option<
    (Seq<(Seq<char>, SpecValue)>, int),
>
    decreases s.len() - pos, n + 1,
{
    if n == 0 {
        Some((Seq::empty(), pos))
    } else if pos < 0 || pos >= s.len() {
        None
    } else {
        match spec_decode(s, pos) {
            Some((SpecValue::Str(k), q)) => if q <= pos || q >= s.len() {
                None
            } else {
                match spec_decode(s, q) {
                    None => None,
                    Some((v, r)) => if r <= q || r > s.len() {
                        None
                    } else {
                        match spec_decode_pairs(s, r, (n - 1) as nat) {
                            None => None,
                            Some((rest, t)) => Some((seq![(k, v)] + rest, t)),
                        }
                    },
                }
            },
            _ => None,
        }
    }
}

/// Decoding `n` values ends no earlier than it starts and within `s`.
pub proof fn lemma_decode_items_bounds(s: Seq<u8>, pos: int, n: nat)
    requires
        0 <= pos <= s.len(),
    ensures
        spec_decode_items(s, pos, n) matches Some((_, r)) ==> pos <= r <= s.len(),
    decreases n,
{
    if n > 0 && pos < s.len() {
        if let Some((_, q)) = spec_decode(s, pos) {
            if pos < q <= s.len() {
                lemma_decode_items_bounds(s, q, (n - 1) as nat);
            }
        }
    }
}

/// Decoding `n` pairs ends no earlier than it starts and within `s`.
pub proof fn lemma_decode_pairs_bounds(s: Seq<u8>, pos: int, n: nat)
    requires
        0 <= pos <= s.len(),
    ensures
        spec_decode_pairs(s, pos, n) matches Some((_, r)) ==> pos <= r <= s.len(),
    decreases n,
{
    if n > 0 && pos < s.len() {
        if let Some((SpecValue::Str(_), q)) = spec_decode(s, pos) {
            if pos < q < s.len() {
                if let Some((_, r)) = spec_decode(s, q) {
                    if q < r <= s.len() {
                        lemma_decode_pairs_bounds(s, r, (n - 1) as nat);
                    }
                }
            }
        }
    }
}

/// A decoded value ends after it starts and within `s`: every value takes
/// at least its type identifier byte. (So the position tests in
/// [`spec_decode_items`] and [`spec_decode_pairs`] never fail.)
pub proof fn lemma_decode_bounds(s: Seq<u8>, pos: int)
    ensures
        spec_decode(s, pos) matches Some((_, q)) ==> pos < q <= s.len(),
{
    if 0 <= pos < s.len() {
        let p = pos + 1;
        if p + 4 <= s.len() {
            lemma_decode_items_bounds(s, p + 4, read_be32(s, p) as nat);
            lemma_decode_pairs_bounds(s, p + 4, read_be32(s, p) as nat);
        }
    }
}

/// The encoding of a run of deleted bytes that spans `total` bytes: `n`, the
/// number of zero bytes (truncated to 32 bits), then the zero bytes.
pub open spec fn spec_encode_n(total: nat) -> Seq<u8>
    recommends
        total >= 5,
{
    seq![TAG_DEL] + be32((total - 5) as u32) + Seq::new((total - 5) as nat, |_i: int| 0u8)
}


// ---------------------------------------------------------------------------
// Writer
// ---------------------------------------------------------------------------
/// Appends the encoding of the string `s`.
fn encode_str_into(s: &String, out: &mut Vec<u8>)
    ensures
        final(out)@ == old(out)@ + spec_encode_str(s@),
{
    let bytes = s.as_str().as_bytes();
    out.push(TAG_STR);
    push_be32(out, #[verifier::truncate] (bytes.len() as u32));
    push_bytes(out, bytes);
    assert(out@ =~= old(out)@ + spec_encode_str(s@));
}

/// Appends the oxdbin encoding of `v`.
fn encode_into(v: &Value, out: &mut Vec<u8>)
    requires
        has_no_null(v@),
    ensures
        final(out)@ == old(out)@ + spec_encode(v@),
    decreases v@, 1int,
{
    match v {
        Value::Null => {
            proof {
                assert(false);
            }
        },
        Value::Bool(b) => {
            out.push(TAG_BOOL);
            out.push(
                if *b {
                    1u8
                } else {
                    0u8
                },
            );
            assert(out@ =~= old(out)@ + spec_encode(v@));
        },
        Value::Int(i) => {
            out.push(TAG_INT);
            push_be64(out, #[verifier::truncate] (*i as u64));
            assert(out@ =~= old(out)@ + spec_encode(v@));
        },
        Value::Float(bits) => {
            out.push(TAG_FLOAT);
            push_be64(out, *bits);
            assert(out@ =~= old(out)@ + spec_encode(v@));
        },
        Value::Str(s) => {
            encode_str_into(s, out);
        },
        Value::Array(items) => {
            let ghost iv = views_of(items@);
            proof {
                assert(v@ == SpecValue::Array(iv));
                assert(has_no_null(SpecValue::Array(iv)) == items_have_no_null(iv));
                lemma_views_of(items@);
                assert(decreases_to!(v@ => v@->Array_0));
            }
            out.push(TAG_VEC);
            push_be32(out, #[verifier::truncate] (items.len() as u32));
            encode_items_into(items, out);
            assert(out@ =~= old(out)@ + spec_encode(v@));
        },
        Value::Object(entries) => {
            let ghost ev = entry_views_of(entries@);
            proof {
                assert(v@ == SpecValue::Object(ev));
                assert(has_no_null(SpecValue::Object(ev)) == entries_have_no_null(ev));
                lemma_entry_views_of(entries@);
                assert(decreases_to!(v@ => v@->Object_0));
            }
            out.push(TAG_MAP);
            push_be32(out, #[verifier::truncate] (entries.len() as u32));
            encode_entries_into(entries, out);
            assert(out@ =~= old(out)@ + spec_encode(v@));
        },
    }
}

/// Appends the encodings of `items`, one after the other.
fn encode_items_into(items: &Vec<Value>, out: &mut Vec<u8>)
    requires
        items_have_no_null(views_of(items@)),
    ensures
        final(out)@ == old(out)@ + spec_encode_items(views_of(items@)),
    decreases views_of(items@), 0int,
{
    let ghost iv = views_of(items@);
    proof {
        lemma_views_of(items@);
        lemma_items_have_no_null(iv);
    }
    let ghost start = out@;
    let n = items.len();
    let mut i: usize = 0;
    while i < n
        invariant
            n == items@.len(),
            i <= n,
            iv == views_of(items@),
            iv.len() == n,
            forall|j: int| 0 <= j < n ==> #[trigger] iv[j] == items@[j]@,
            forall|j: int| 0 <= j < n ==> #[trigger] has_no_null(iv[j]),
            out@ == start + spec_encode_items(iv.subrange(0, i as int)),
        decreases n - i,
    {
        proof {
            assert(iv[i as int] == items@[i as int]@);
            assert(has_no_null(iv[i as int]));
            assert(decreases_to!(iv => iv[i as int]));
        }
        encode_into(&items[i], out);
        proof {
            let next = iv.subrange(0, i + 1);
            assert(next.subrange(0, i as int) =~= iv.subrange(0, i as int));
            assert(spec_encode_items(next) == spec_encode_items(next.subrange(0, i as int))
                + spec_encode(next[i as int]));
        }
        i = i + 1;
    }
    assert(iv.subrange(0, n as int) =~= iv);
}

/// Appends, for each entry, the encoding of its key as a string, then that
/// of its value.
fn encode_entries_into(entries: &Vec<(String, Value)>, out: &mut Vec<u8>)
    requires
        entries_have_no_null(entry_views_of(entries@)),
    ensures
        final(out)@ == old(out)@ + spec_encode_entries(entry_views_of(entries@)),
    decreases entry_views_of(entries@), 0int,
{
    let ghost ev = entry_views_of(entries@);
    proof {
        lemma_entry_views_of(entries@);
        lemma_entries_have_no_null(ev);
    }
    let ghost start = out@;
    let n = entries.len();
    let mut i: usize = 0;
    while i < n
        invariant
            n == entries@.len(),
            i <= n,
            ev == entry_views_of(entries@),
            ev.len() == n,
            forall|j: int|
                0 <= j < n ==> #[trigger] ev[j] == (entries@[j].0@, entries@[j].1@),
            forall|j: int| 0 <= j < n ==> #[trigger] has_no_null(ev[j].1),
            out@ == start + spec_encode_entries(ev.subrange(0, i as int)),
        decreases n - i,
    {
        let entry = &entries[i];
        proof {
            assert(ev[i as int] == (entries@[i as int].0@, entries@[i as int].1@));
            assert(has_no_null(ev[i as int].1));
            assert(decreases_to!(ev => ev[i as int]));
            assert(decreases_to!(ev[i as int] => ev[i as int].1));
        }
        encode_str_into(&entry.0, out);
        encode_into(&entry.1, out);
        proof {
            let next = ev.subrange(0, i + 1);
            assert(next.subrange(0, i as int) =~= ev.subrange(0, i as int));
            assert(spec_encode_entries(next) == spec_encode_entries(next.subrange(0, i as int))
                + spec_encode_str(next[i as int].0) + spec_encode(next[i as int].1));
        }
        i = i + 1;
    }
    assert(ev.subrange(0, n as int) =~= ev);
}

/// Encodes `data` in oxdbin.
///
/// The writer refuses `Null` (at any depth); lengths are written as 32 bits,
/// truncated as a cast truncates.
pub fn encode(data: &Value) -> (bytes: Vec<u8>)
    requires
        has_no_null(data@),
    ensures
        bytes@ == spec_encode(data@),
{
    let mut bytes: Vec<u8> = Vec::new();
    encode_into(data, &mut bytes);
    assert(bytes@ =~= spec_encode(data@));
    bytes
}

// ---------------------------------------------------------------------------
// Reader
// ---------------------------------------------------------------------------
/// `pre` put in front of the items of a decoding result.
pub open spec fn prepend_items(pre: Seq<SpecValue>, r: Option<(Seq<SpecValue>, int)>) -> Option<
    (Seq<SpecValue>, int),
> {
    match r {
        Some((rest, t)) => Some((pre + rest, t)),
        None => None,
    }
}

/// `pre` put in front of the pairs of a decoding result.
pub open spec fn prepend_pairs(
    pre: Seq<(Seq<char>, SpecValue)>,
    r: Option<(Seq<(Seq<char>, SpecValue)>, int)>,
) -> Option<(Seq<(Seq<char>, SpecValue)>, int)> {
    match r {
        Some((rest, t)) => Some((pre + rest, t)),
        None => None,
    }
}

proof fn lemma_prepend_items_push(
    pre: Seq<SpecValue>,
    v: SpecValue,
    r: Option<(Seq<SpecValue>, int)>,
)
    ensures
        prepend_items(pre, prepend_items(seq![v], r)) == prepend_items(pre.push(v), r),
{
    if let Some((rest, t)) = r {
        assert(pre + (seq![v] + rest) =~= pre.push(v) + rest);
    }
}

proof fn lemma_prepend_pairs_push(
    pre: Seq<(Seq<char>, SpecValue)>,
    kv: (Seq<char>, SpecValue),
    r: Option<(Seq<(Seq<char>, SpecValue)>, int)>,
)
    ensures
        prepend_pairs(pre, prepend_pairs(seq![kv], r)) == prepend_pairs(pre.push(kv), r),
{
    if let Some((rest, t)) = r {
        assert(pre + (seq![kv] + rest) =~= pre.push(kv) + rest);
    }
}

/// Turns `bytes` into a `String` when they are UTF-8.
///
/// Calls `String::from_utf8`, which (by its documentation) fails exactly
/// when the bytes are not valid UTF-8 and otherwise keeps the very bytes as
/// the string's contents; the contract says so in vstd's terms of UTF-8.
#[verifier::external_body]
fn string_from_utf8(bytes: Vec<u8>) -> (res: Option<String>)
    ensures
        res.is_some() == valid_utf8(bytes@),
        res matches Some(s) ==> encode_utf8(s@) == bytes@,
{
    String::from_utf8(bytes).ok()
}

/// A copy of `data[from..to]`.
fn copy_range(data: &[u8], from: usize, to: usize) -> (res: Vec<u8>)
    requires
        from <= to <= data@.len(),
    ensures
        res@ == data@.subrange(from as int, to as int),
{
    let mut res: Vec<u8> = Vec::new();
    let mut i = from;
    while i < to
        invariant
            from <= i <= to,
            to <= data@.len(),
            res@ == data@.subrange(from as int, i as int),
        decreases to - i,
    {
        res.push(data[i]);
        i = i + 1;
        assert(res@ =~= data@.subrange(from as int, i as int));
    }
    res
}

/// Whether a binary64 bit pattern is finite.
fn bits_are_finite(bits: u64) -> (finite: bool)
    ensures
        finite == is_finite_bits(bits),
{
    (bits >> 52u64) & 0x7ffu64 != 0x7ffu64
}

/// Decodes the value that starts at `data[pos]`: the value and the position
/// just after it, or `None` exactly where [`decode`] would fail.
pub fn try_decode(data: &[u8], pos: usize) -> (res: Option<(Value, usize)>)
    ensures
        match res {
            Some((v, q)) => spec_decode(data@, pos as int) == Some((v@, q as int)),
            None => spec_decode(data@, pos as int) is None,
        },
        res matches Some((v, q)) ==> pos < q <= data@.len(),
    decreases data@.len() - pos,
{
    if pos >= data.len() {
        return None;
    }
    let tag = data[pos];
    let p = pos + 1;
    if tag == TAG_STR {
        if data.len() - p < 4 {
            return None;
        }
        let n = get_be32(data, p) as usize;
        let q = p + 4;
        if data.len() - q < n {
            return None;
        }
        let bytes = copy_range(data, q, q + n);
        match string_from_utf8(bytes) {
            Some(s) => {
                proof {
                    vstd::utf8::encode_utf8_decode_utf8(s@);
                }
                Some((Value::Str(s), q + n))
            },
            None => None,
        }
    } else if tag == TAG_INT {
        if data.len() - p < 8 {
            return None;
        }
        let x = get_be64(data, p);
        Some((Value::Int(#[verifier::truncate] (x as i64)), p + 8))
    } else if tag == TAG_FLOAT {
        if data.len() - p < 8 {
            return None;
        }
        let bits = get_be64(data, p);
        if bits_are_finite(bits) {
            Some((Value::Float(bits), p + 8))
        } else {
            None
        }
    } else if tag == TAG_BOOL {
        if p >= data.len() {
            return None;
        }
        Some((Value::Bool(data[p] == 1u8), p + 1))
    } else if tag == TAG_VEC {
        if data.len() - p < 4 {
            return None;
        }
        let count = get_be32(data, p);
        match decode_items(data, p + 4, count) {
            Some((items, q)) => {
                proof {
                    assert(Value::Array(items)@ == SpecValue::Array(views_of(items@)));
                }
                Some((Value::Array(items), q))
            },
            None => None,
        }
    } else if tag == TAG_MAP {
        if data.len() - p < 4 {
            return None;
        }
        let count = get_be32(data, p);
        match decode_map(data, p + 4, count) {
            Some((entries, q)) => {
                proof {
                    assert(Value::Object(entries)@ == SpecValue::Object(entry_views_of(entries@)));
                }
                Some((Value::Object(entries), q))
            },
            None => None,
        }
    } else {
        None
    }
}

/// Decodes `count` values one after the other from `data[pos]`.
fn decode_items(data: &[u8], pos: usize, count: u32) -> (res: Option<(Vec<Value>, usize)>)
    requires
        pos <= data@.len(),
    ensures
        match res {
            Some((items, q)) => spec_decode_items(data@, pos as int, count as nat) == Some(
                (views_of(items@), q as int),
            ),
            None => spec_decode_items(data@, pos as int, count as nat) is None,
        },
        res matches Some((items, q)) ==> pos <= q <= data@.len(),
    decreases data@.len() - pos + 1,
{
    let ghost s = data@;
    let mut items: Vec<Value> = Vec::new();
    let mut q = pos;
    let mut k: u32 = 0;
    proof {
        assert(views_of(items@) =~= Seq::<SpecValue>::empty());
        assert(prepend_items(Seq::empty(), spec_decode_items(s, pos as int, count as nat))
            == spec_decode_items(s, pos as int, count as nat)) by {
            if let Some((rest, t)) = spec_decode_items(s, pos as int, count as nat) {
                assert(Seq::<SpecValue>::empty() + rest =~= rest);
            }
        }
    }
    while k < count
        invariant
            s == data@,
            k <= count,
            pos <= q <= s.len(),
            spec_decode_items(s, pos as int, count as nat) == prepend_items(
                views_of(items@),
                spec_decode_items(s, q as int, (count - k) as nat),
            ),
        decreases count - k,
    {
        let ghost m = (count - k) as nat;
        if q >= data.len() {
            return None;
        }
        match try_decode(data, q) {
            None => {
                return None;
            },
            Some((v, q2)) => {
                proof {
                    assert(spec_decode_items(s, q as int, m) == prepend_items(
                        seq![v@],
                        spec_decode_items(s, q2 as int, (m - 1) as nat),
                    ));
                    lemma_prepend_items_push(
                        views_of(items@),
                        v@,
                        spec_decode_items(s, q2 as int, (m - 1) as nat),
                    );
                    let old_items = items@;
                    assert(old_items.push(v).subrange(0, old_items.len() as int) =~= old_items);
                    assert(views_of(old_items.push(v)) == views_of(old_items).push(v@));
                }
                items.push(v);
                q = q2;
                k = k + 1;
            },
        }
    }
    proof {
        assert(views_of(items@) + Seq::<SpecValue>::empty() =~= views_of(items@));
    }
    Some((items, q))
}

/// Inserts `key` with `value` into `map`: an existing key gets the new value
/// in place, a new key goes at the end.
fn map_insert(map: &mut Vec<(String, Value)>, key: String, value: Value)
    ensures
        entry_views_of(final(map)@) == spec_insert(entry_views_of(old(map)@), key@, value@),
{
    let ghost ev = entry_views_of(map@);
    proof {
        lemma_entry_views_of(map@);
    }
    let n = map.len();
    let mut i: usize = 0;
    while i < n
        invariant
            n == map@.len(),
            i <= n,
            map@ == old(map)@,
            ev == entry_views_of(old(map)@),
            ev.len() == n,
            forall|j: int| 0 <= j < n ==> #[trigger] ev[j] == (map@[j].0@, map@[j].1@),
            spec_find_key(ev, key@, 0) == spec_find_key(ev, key@, i as int),
        decreases n - i,
    {
        if map[i].0 == key {
            let ghost before = map@;
            let ghost kv = (key@, value@);
            map.set(i, (key, value));
            proof {
                assert(ev[i as int].0 == kv.0);
                lemma_entry_views_of(map@);
                assert(entry_views_of(map@) =~= ev.update(i as int, kv));
            }
            return;
        }
        i = i + 1;
    }
    let ghost kv = (key@, value@);
    let ghost before = map@;
    map.push((key, value));
    proof {
        assert(map@.subrange(0, before.len() as int) =~= before);
        assert(entry_views_of(map@) == entry_views_of(before).push(kv));
    }
}

/// Decodes `count` (key, value) pairs from `data[pos]` and inserts them in
/// order into a new map.
fn decode_map(data: &[u8], pos: usize, count: u32) -> (res: Option<(Vec<(String, Value)>, usize)>)
    requires
        pos <= data@.len(),
    ensures
        match res {
            Some((entries, q)) => match spec_decode_pairs(data@, pos as int, count as nat) {
                Some((pairs, t)) => entry_views_of(entries@) == spec_map_of_pairs(pairs) && t
                    == q,
                None => false,
            },
            None => spec_decode_pairs(data@, pos as int, count as nat) is None,
        },
        res matches Some((entries, q)) ==> pos <= q <= data@.len(),
    decreases data@.len() - pos + 1,
{
    let ghost s = data@;
    let mut map: Vec<(String, Value)> = Vec::new();
    let ghost mut pairs: Seq<(Seq<char>, SpecValue)> = Seq::empty();
    let mut q = pos;
    let mut k: u32 = 0;
    proof {
        assert(entry_views_of(map@) =~= spec_map_of_pairs(pairs));
        assert(prepend_pairs(pairs, spec_decode_pairs(s, pos as int, count as nat))
            == spec_decode_pairs(s, pos as int, count as nat)) by {
            if let Some((rest, t)) = spec_decode_pairs(s, pos as int, count as nat) {
                assert(pairs + rest =~= rest);
            }
        }
    }
    while k < count
        invariant
            s == data@,
            k <= count,
            pos <= q <= s.len(),
            entry_views_of(map@) == spec_map_of_pairs(pairs),
            spec_decode_pairs(s, pos as int, count as nat) == prepend_pairs(
                pairs,
                spec_decode_pairs(s, q as int, (count - k) as nat),
            ),
        decreases count - k,
    {
        let ghost m = (count - k) as nat;
        if q >= data.len() {
            return None;
        }
        let (key, q1) = match try_decode(data, q) {
            Some((Value::Str(key), q1)) => (key, q1),
            _ => {
                return None;
            },
        };
        if q1 >= data.len() {
            return None;
        }
        let (value, q2) = match try_decode(data, q1) {
            Some((value, q2)) => (value, q2),
            None => {
                return None;
            },
        };
        proof {
            let kv = (key@, value@);
            assert(spec_decode_pairs(s, q as int, m) == prepend_pairs(
                seq![kv],
                spec_decode_pairs(s, q2 as int, (m - 1) as nat),
            ));
            lemma_prepend_pairs_push(pairs, kv, spec_decode_pairs(s, q2 as int, (m - 1) as nat));
            assert(pairs.push(kv).subrange(0, pairs.len() as int) =~= pairs);
            assert(spec_map_of_pairs(pairs.push(kv)) == spec_insert(
                spec_map_of_pairs(pairs),
                kv.0,
                kv.1,
            ));
        }
        map_insert(&mut map, key, value);
        proof {
            pairs = pairs.push((key@, value@));
        }
        q = q2;
        k = k + 1;
    }
    proof {
        assert(pairs + Seq::<(Seq<char>, SpecValue)>::empty() =~= pairs);
    }
    Some((map, q))
}

/// Decodes the value that starts at `data[pos]`: the value and the position
/// just after it.
pub fn decode(data: &[u8], pos: usize) -> (res: (Value, usize))
    requires
        spec_decode(data@, pos as int) is Some,
    ensures
        spec_decode(data@, pos as int) == Some((res.0@, res.1 as int)),
{
    match try_decode(data, pos) {
        Some(res) => res,
        None => {
            proof {
                assert(false);
            }
            (Value::Null, pos)
        },
    }
}

/// Encodes a run of deleted bytes that spans `totbytelen` bytes in all:
/// the identifier `n`, the 4-byte count of zero bytes, then that many zeros.
pub fn encode_n(totbytelen: usize) -> (bytes: Vec<u8>)
    requires
        totbytelen >= 5,
    ensures
        bytes@ == spec_encode_n(totbytelen as nat),
        bytes@.len() == totbytelen,
        bytes@[0] == 0x6eu8,
        bytes@.subrange(1, 5) == be32((totbytelen - 5) as u32),
        forall|i: int| 5 <= i < totbytelen ==> #[trigger] bytes@[i] == 0u8,
{
    let datalen = totbytelen - 5;
    let mut result: Vec<u8> = Vec::new();
    result.push(TAG_DEL);
    push_be32(&mut result, #[verifier::truncate] (datalen as u32));
    push_zeros(&mut result, datalen);
    assert(result@ =~= spec_encode_n(totbytelen as nat));
    result
}

/// Skips a run of deleted bytes whose identifier stands at `data_bytes[pos]`:
/// returns its value, always 0, and the position just after it (the 5 bytes
/// of identifier and count, then the count of bytes). The identifier byte
/// itself is not examined.
pub fn decode_n(data_bytes: &[u8], pos: usize) -> (res: (i32, usize))
    requires
        pos + 5 <= data_bytes@.len(),
        pos + 5 + read_be32(data_bytes@, pos + 1) <= usize::MAX,
    ensures
        res.0 == 0,
        res.1 == pos + 5 + read_be32(data_bytes@, pos + 1),
{
    let bdsize_len: usize = 5;
    let length = get_be32(data_bytes, pos + 1) as usize;
    let value: i32 = 0;
    (value, pos + bdsize_len + length)
}

} // verus!
