use vstd::prelude::*;
use vstd::utf8::{decode_utf8_encode_utf8, encode_utf8};

use vstd::arithmetic::div_mod::lemma_fundamental_div_mod;

use crate::model::{
    decode, is_known_tag, latin1, nul_index, parse_items, parse_name, parse_payload, parse_top, parse_value,
    u32_le, u64_le, DecodeError, ValueModel, MAX_DEPTH,
};
use crate::wire::{
    encode_document, encode_items, encode_payload, expected, expected_items, expected_values,
    items_ok, encode_sized, tag_of, u32_bytes, u64_bytes, wire_ok, WireValue,
};
use crate::text::base64_of;

verus! {

/// A String field of declared length `L` decodes to text whose UTF-8 encoding is
/// exactly the `L - 1` bytes before the sentinel.
pub proof fn lemma_string_drops_sentinel(d: Seq<u8>, end: int, p: int, depth: nat)
    requires
        0 <= p,
        end <= d.len(),
        parse_value(d, end, p, 0x02, depth) is Ok,
    ensures
        ({
            let (m, q) = parse_value(d, end, p, 0x02, depth)->Ok_0;
            &&& m is Str
            &&& encode_utf8(m->Str_0) == d.subrange(p + 4, p + 4 + u32_le(d, p) - 1)
            &&& encode_utf8(m->Str_0).len() == u32_le(d, p) - 1
            &&& q == p + 4 + u32_le(d, p)
        }),
{
    let b = d.subrange(p + 4, p + 4 + u32_le(d, p) - 1);
    decode_utf8_encode_utf8(b);
}

/// A Binary field of declared length `L` decodes to the base64 text of the `L - 1`
/// bytes before the sentinel.
pub proof fn lemma_binary_drops_sentinel(d: Seq<u8>, end: int, p: int, depth: nat)
    requires
        0 <= p,
        end <= d.len(),
        parse_value(d, end, p, 0x05, depth) is Ok,
    ensures
        ({
            let (m, q) = parse_value(d, end, p, 0x05, depth)->Ok_0;
            let b = d.subrange(p + 4, p + 4 + u32_le(d, p) - 1);
            &&& m == ValueModel::Binary(base64_of(b))
            &&& b.len() == u32_le(d, p) - 1
            &&& q == p + 4 + u32_le(d, p)
        }),
{
}

/// The elements of a decoded Array are the values of its fields, in the order in
/// which they stand on the wire; the names beside them play no part.
pub proof fn lemma_array_keeps_wire_order(d: Seq<u8>, end: int, p: int, depth: nat)
    requires
        parse_value(d, end, p, 0x04, depth) is Ok,
    ensures
        depth > 0,
        ({
            let (m, q) = parse_value(d, end, p, 0x04, depth)->Ok_0;
            let (items, q2) = parse_items(d, end, p + 4, (depth - 1) as nat)->Ok_0;
            &&& parse_items(d, end, p + 4, (depth - 1) as nat) is Ok
            &&& q == q2
            &&& m is Array
            &&& m->Array_0.len() == items.len()
            &&& forall|i: int| 0 <= i < items.len() ==> #[trigger] m->Array_0[i] == items[i].1
        }),
{
}

/// An Object whose sub-length header is followed at once by the 0x00 terminator
/// decodes to the empty mapping.
pub proof fn lemma_empty_object(d: Seq<u8>, end: int, p: int, depth: nat)
    requires
        depth > 0,
        0 <= p,
        p + 5 <= end <= d.len(),
        d[p + 4] == 0,
    ensures
        parse_value(d, end, p, 0x03, depth) == Ok::<(ValueModel, int), DecodeError>(
            (ValueModel::Object(Seq::empty()), p + 5),
        ),
{
}

/// Where the top-level fields reach the declared length exactly, the document
/// closes there without error.
pub proof fn lemma_exact_length_completes(d: Seq<u8>, end: int, length: int, p: int)
    requires
        0 <= p < end <= d.len(),
        is_known_tag(d[p]),
        parse_name(d, end, p + 1) is Ok,
        parse_value(d, end, parse_name(d, end, p + 1)->Ok_0.1, d[p], MAX_DEPTH as nat) is Ok,
        parse_value(d, end, parse_name(d, end, p + 1)->Ok_0.1, d[p], MAX_DEPTH as nat)->Ok_0.1 == length,
        p < length <= end,
    ensures
        parse_top(d, end, length, length) == Ok::<(Seq<(Seq<char>, ValueModel)>, int), DecodeError>(
            (Seq::empty(), length),
        ),
        parse_top(d, end, length, p) == Ok::<(Seq<(Seq<char>, ValueModel)>, int), DecodeError>(
            (seq![(parse_name(d, end, p + 1)->Ok_0.0, parse_value(d, end, parse_name(d, end, p + 1)->Ok_0.1, d[p], MAX_DEPTH as nat)->Ok_0.0)], length),
        ),
{
    let q = parse_name(d, end, p + 1)->Ok_0.1;
    let v = parse_value(d, end, q, d[p], MAX_DEPTH as nat)->Ok_0.0;
    let name = parse_name(d, end, p + 1)->Ok_0.0;
    assert(seq![(name, v)] + Seq::<(Seq<char>, ValueModel)>::empty() =~= seq![(name, v)]);
}

/// A buffer too short to hold the u32 total length yields no document.
pub proof fn lemma_short_buffer_is_bounds_error(d: Seq<u8>)
    requires
        d.len() < 4,
    ensures
        decode(d) == Err::<ValueModel, DecodeError>(DecodeError::Bounds),
{
}

/// A declared length that ends past the buffer, with fields that run on to the
/// buffer's end, yields a bounds error and no document.
pub proof fn lemma_read_past_end_is_bounds_error(d: Seq<u8>, length: int, p: int)
    requires
        p == d.len(),
        length > p,
    ensures
        parse_top(d, d.len() as int, length, p) == Err::<(Seq<(Seq<char>, ValueModel)>, int), DecodeError>(
            DecodeError::Bounds,
        ),
{
}


/// Where `d` holds `e` from `p` on, it holds the slice `e[off..off + len]` from `p + off` on.
proof fn lemma_window(d: Seq<u8>, p: int, e: Seq<u8>, off: int, len: int)
    requires
        0 <= p,
        p + e.len() <= d.len(),
        d.subrange(p, p + e.len()) == e,
        0 <= off,
        0 <= len,
        off + len <= e.len(),
    ensures
        d.subrange(p + off, p + off + len) == e.subrange(off, off + len),
{
    assert forall|k: int| 0 <= k < len implies #[trigger] d.subrange(p + off, p + off + len)[k] == e.subrange(off, off + len)[k] by {
        assert(d.subrange(p, p + e.len())[off + k] == d[p + off + k]);
    }
    assert(d.subrange(p + off, p + off + len) =~= e.subrange(off, off + len));
}

proof fn lemma_u32_bytes(d: Seq<u8>, p: int, n: u32)
    requires
        0 <= p,
        p + 4 <= d.len(),
        d.subrange(p, p + 4) == u32_bytes(n),
    ensures
        u32_le(d, p) == n,
{
    let n1 = n / 0x100;
    let n2 = n1 / 0x100;
    let n3 = n2 / 0x100;
    assert(d[p] == d.subrange(p, p + 4)[0]);
    assert(d[p + 1] == d.subrange(p, p + 4)[1]);
    assert(d[p + 2] == d.subrange(p, p + 4)[2]);
    assert(d[p + 3] == d.subrange(p, p + 4)[3]);
    lemma_fundamental_div_mod(n as int, 0x100);
    lemma_fundamental_div_mod(n1 as int, 0x100);
    lemma_fundamental_div_mod(n2 as int, 0x100);
    assert(n3 < 0x100);
}

proof fn lemma_u64_bytes(d: Seq<u8>, p: int, x: u64)
    requires
        0 <= p,
        p + 8 <= d.len(),
        d.subrange(p, p + 8) == u64_bytes(x),
    ensures
        u64_le(d, p) == x,
{
    let lo = (x % 0x1_0000_0000) as u32;
    let hi = (x / 0x1_0000_0000) as u32;
    assert(d.subrange(p, p + 4) =~= u32_bytes(lo)) by {
        assert(d.subrange(p, p + 4) =~= d.subrange(p, p + 8).subrange(0, 4));
    }
    assert(d.subrange(p + 4, p + 8) =~= u32_bytes(hi)) by {
        assert(d.subrange(p + 4, p + 8) =~= d.subrange(p, p + 8).subrange(4, 8));
    }
    lemma_u32_bytes(d, p, lo);
    lemma_u32_bytes(d, p + 4, hi);
    lemma_fundamental_div_mod(x as int, 0x1_0000_0000);
}

proof fn lemma_nul_index(d: Seq<u8>, end: int, p: int, z: int)
    requires
        p <= z < end,
        d[z] == 0,
        forall|i: int| p <= i < z ==> d[i] != 0,
    ensures
        nul_index(d, end, p) == z,
    decreases z - p,
{
    if p < z {
        lemma_nul_index(d, end, p + 1, z);
    }
}

proof fn lemma_values_of_items(items: Seq<(Seq<u8>, WireValue)>)
    ensures
        expected_items(items).map_values(|e: (Seq<char>, ValueModel)| e.1) == expected_values(items),
    decreases items.len(),
{
    if items.len() > 0 {
        lemma_values_of_items(items.drop_first());
        assert(expected_items(items).map_values(|e: (Seq<char>, ValueModel)| e.1) =~= expected_values(items));
    } else {
        assert(expected_items(items).map_values(|e: (Seq<char>, ValueModel)| e.1) =~= expected_values(items));
    }
}

/// A length-prefixed payload as the encoder writes it reads back as its bytes.
proof fn lemma_sized_round_trip(d: Seq<u8>, end: int, p: int, b: Seq<u8>)
    requires
        0 <= p,
        b.len() + 1 <= u32::MAX,
        p + encode_sized(b).len() <= end <= d.len(),
        d.subrange(p, p + encode_sized(b).len()) == encode_sized(b),
    ensures
        parse_payload(d, end, p) == Ok::<(Seq<u8>, int), DecodeError>((b, p + encode_sized(b).len())),
{
    let e = encode_sized(b);
    lemma_window(d, p, e, 0, 4);
    assert(e.subrange(0, 4) =~= u32_bytes((b.len() + 1) as u32));
    lemma_u32_bytes(d, p, (b.len() + 1) as u32);
    lemma_window(d, p, e, 4, b.len() as int);
    assert(e.subrange(4, 4 + b.len() as int) =~= b);
}

proof fn lemma_scalar_round_trip(d: Seq<u8>, end: int, p: int, w: WireValue, depth: nat)
    requires
        w is Double || w is Int || w is Int64 || w is Bool || w is Null,
        0 <= p,
        p + encode_payload(w).len() <= end <= d.len(),
        d.subrange(p, p + encode_payload(w).len()) == encode_payload(w),
    ensures
        parse_value(d, end, p, tag_of(w), depth) == Ok::<(ValueModel, int), DecodeError>(
            (expected(w), p + encode_payload(w).len()),
        ),
{
    let e = encode_payload(w);
    match w {
        WireValue::Double(x) => {
            lemma_u64_bytes(d, p, x);
        },
        WireValue::Int(x) => {
            lemma_u32_bytes(d, p, x as u32);
            assert((x as u32) as i32 == x) by (bit_vector);
        },
        WireValue::Int64(x) => {
            lemma_u64_bytes(d, p, x as u64);
            assert((x as u64) as i64 == x) by (bit_vector);
        },
        WireValue::Bool(b) => {
            assert(d.subrange(p, p + 1)[0] == d[p]);
        },
        _ => {},
    }
}

proof fn lemma_value_round_trip(d: Seq<u8>, end: int, p: int, w: WireValue, depth: nat)
    requires
        wire_ok(w, depth),
        0 <= p,
        p + encode_payload(w).len() <= end <= d.len(),
        d.subrange(p, p + encode_payload(w).len()) == encode_payload(w),
    ensures
        parse_value(d, end, p, tag_of(w), depth) == Ok::<(ValueModel, int), DecodeError>(
            (expected(w), p + encode_payload(w).len()),
        ),
    decreases w,
{
    let e = encode_payload(w);
    match w {
        WireValue::Str(b) => {
            lemma_sized_round_trip(d, end, p, b);
        },
        WireValue::Binary(b) => {
            lemma_sized_round_trip(d, end, p, b);
        },
        WireValue::Object(items) => {
            let body = encode_items(items);
            lemma_window(d, p, e, 4, body.len() as int);
            assert(e.subrange(4, 4 + body.len() as int) =~= body);
            lemma_items_round_trip(d, end, p + 4, items, (depth - 1) as nat);
        },
        WireValue::Array(items) => {
            let body = encode_items(items);
            lemma_window(d, p, e, 4, body.len() as int);
            assert(e.subrange(4, 4 + body.len() as int) =~= body);
            lemma_items_round_trip(d, end, p + 4, items, (depth - 1) as nat);
            lemma_values_of_items(items);
        },
        _ => {
            lemma_scalar_round_trip(d, end, p, w, depth);
        },
    }
}

/// The parts of one encoded field at `p`, followed by `rest`.
proof fn lemma_field_parts(d: Seq<u8>, end: int, p: int, name: Seq<u8>, w: WireValue, rest: Seq<u8>)
    requires
        0 <= p,
        p + 2 + name.len() + encode_payload(w).len() + rest.len() <= end <= d.len(),
        d.subrange(p, p + 2 + name.len() + encode_payload(w).len() + rest.len()) == seq![tag_of(w)] + name
            + seq![0u8] + encode_payload(w) + rest,
        forall|j: int| 0 <= j < name.len() ==> name[j] != 0,
    ensures
        d[p] == tag_of(w),
        parse_name(d, end, p + 1) == Ok::<(Seq<char>, int), DecodeError>(
            (latin1(name), p + 2 + name.len()),
        ),
        d.subrange(p + 2 + name.len(), p + 2 + name.len() + encode_payload(w).len()) == encode_payload(w),
        d.subrange(p + 2 + name.len() + encode_payload(w).len(), p + 2 + name.len() + encode_payload(w).len() + rest.len()) == rest,
{
    let e = seq![tag_of(w)] + name + seq![0u8] + encode_payload(w) + rest;
    let q = p + 2 + name.len();
    let r = q + encode_payload(w).len();
    assert forall|i: int| 0 <= i < e.len() implies d[p + i] == e[i] by {
        assert(d.subrange(p, p + e.len())[i] == d[p + i]);
    }
    assert(d[p] == e[0]);
    assert forall|i: int| p + 1 <= i < q - 1 implies d[i] != 0 by {
        assert(d[i] == e[i - p]);
        assert(e[i - p] == name[i - p - 1]);
    }
    assert(d[q - 1] == e[q - 1 - p]);
    lemma_nul_index(d, end, p + 1, q - 1);
    lemma_window(d, p, e, 1, name.len() as int);
    assert(e.subrange(1, 1 + name.len() as int) =~= name);
    lemma_window(d, p, e, q - p, encode_payload(w).len() as int);
    assert(e.subrange(q - p, r - p) =~= encode_payload(w));
    lemma_window(d, p, e, r - p, rest.len() as int);
    assert(e.subrange(r - p, r - p + rest.len()) =~= rest);
}

proof fn lemma_items_round_trip(d: Seq<u8>, end: int, p: int, items: Seq<(Seq<u8>, WireValue)>, depth: nat)
    requires
        items_ok(items, depth),
        0 <= p,
        p + encode_items(items).len() <= end <= d.len(),
        d.subrange(p, p + encode_items(items).len()) == encode_items(items),
    ensures
        parse_items(d, end, p, depth) == Ok::<(Seq<(Seq<char>, ValueModel)>, int), DecodeError>(
            (expected_items(items), p + encode_items(items).len()),
        ),
    decreases items,
{
    if items.len() == 0 {
        assert(d[p] == d.subrange(p, p + 1)[0]);
    } else {
        let name = items[0].0;
        let w = items[0].1;
        let rest = encode_items(items.drop_first());
        lemma_field_parts(d, end, p, name, w, rest);
        let q = p + 2 + name.len();
        lemma_value_round_trip(d, end, q, w, depth);
        let r = q + encode_payload(w).len();
        lemma_items_round_trip(d, end, r, items.drop_first(), depth);
    }
}

proof fn lemma_top_round_trip(d: Seq<u8>, p: int, fields: Seq<(Seq<u8>, WireValue)>)
    requires
        items_ok(fields, MAX_DEPTH as nat),
        0 <= p,
        p + encode_items(fields).len() == d.len(),
        d.subrange(p, d.len() as int) == encode_items(fields),
    ensures
        parse_top(d, d.len() as int, d.len() as int, p) == Ok::<(Seq<(Seq<char>, ValueModel)>, int), DecodeError>(
            (expected_items(fields), d.len() as int),
        ),
    decreases fields,
{
    if fields.len() == 0 {
        assert(d[p] == d.subrange(p, p + 1)[0]);
    } else {
        let name = fields[0].0;
        let w = fields[0].1;
        let rest = encode_items(fields.drop_first());
        lemma_field_parts(d, d.len() as int, p, name, w, rest);
        let q = p + 2 + name.len();
        lemma_value_round_trip(d, d.len() as int, q, w, MAX_DEPTH as nat);
        let r = q + encode_payload(w).len();
        lemma_top_round_trip(d, r, fields.drop_first());
    }
}

/// Decoding the buffer that the encoder writes for well-formed fields gives back
/// those fields, in order, each in its decoded form.
pub proof fn lemma_round_trip(fields: Seq<(Seq<u8>, WireValue)>)
    requires
        items_ok(fields, MAX_DEPTH as nat),
        encode_items(fields).len() + 4 <= u32::MAX,
    ensures
        decode(encode_document(fields)) == Ok::<ValueModel, DecodeError>(ValueModel::Object(expected_items(fields))),
{
    let d = encode_document(fields);
    let n = (encode_items(fields).len() + 4) as u32;
    assert(d.subrange(0, 4) =~= u32_bytes(n));
    lemma_u32_bytes(d, 0, n);
    assert(d.subrange(4, d.len() as int) =~= encode_items(fields));
    lemma_top_round_trip(d, 4, fields);
}

} // verus!
