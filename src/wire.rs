use vstd::prelude::*;
use vstd::utf8::{decode_utf8, valid_utf8};

use crate::model::{latin1, ValueModel};
use crate::text::base64_of;

verus! {

/// A field value as an encoder writes it: text and binary payloads as raw bytes,
/// compound values as named fields.
pub enum WireValue {
    Double(u64),
    Str(Seq<u8>),
    Object(Seq<(Seq<u8>, WireValue)>),
    Array(Seq<(Seq<u8>, WireValue)>),
    Binary(Seq<u8>),
    Bool(bool),
    Null,
    Int(i32),
    Int64(i64),
}

pub open spec fn u32_bytes(n: u32) -> Seq<u8> {
    let n1 = n / 0x100;
    let n2 = n1 / 0x100;
    let n3 = n2 / 0x100;
    seq![(n % 0x100) as u8, (n1 % 0x100) as u8, (n2 % 0x100) as u8, n3 as u8]
}

pub open spec fn u64_bytes(n: u64) -> Seq<u8> {
    u32_bytes((n % 0x1_0000_0000) as u32) + u32_bytes((n / 0x1_0000_0000) as u32)
}

pub open spec fn tag_of(w: WireValue) -> u8 {
    match w {
        WireValue::Double(_) => 0x01,
        WireValue::Str(_) => 0x02,
        WireValue::Object(_) => 0x03,
        WireValue::Array(_) => 0x04,
        WireValue::Binary(_) => 0x05,
        WireValue::Bool(_) => 0x08,
        WireValue::Null => 0x0A,
        WireValue::Int(_) => 0x10,
        WireValue::Int64(_) => 0x12,
    }
}

/// A length-prefixed payload with its trailing sentinel byte.
pub open spec fn encode_sized(b: Seq<u8>) -> Seq<u8> {
    u32_bytes((b.len() + 1) as u32) + b + seq![0u8]
}

/// The bytes of a value, after its tag and name.
pub open spec fn encode_payload(w: WireValue) -> Seq<u8>
    decreases w,
{
    match w {
        WireValue::Double(x) => u64_bytes(x),
        WireValue::Str(b) => encode_sized(b),
        WireValue::Object(items) => u32_bytes((encode_items(items).len() + 4) as u32) + encode_items(items),
        WireValue::Array(items) => u32_bytes((encode_items(items).len() + 4) as u32) + encode_items(items),
        WireValue::Binary(b) => encode_sized(b),
        WireValue::Bool(b) => seq![if b { 1u8 } else { 0u8 }],
        WireValue::Null => Seq::empty(),
        WireValue::Int(x) => u32_bytes(x as u32),
        WireValue::Int64(x) => u64_bytes(x as u64),
    }
}

/// Each field as tag, NUL-terminated name and payload, then a 0x00 terminator.
pub open spec fn encode_items(items: Seq<(Seq<u8>, WireValue)>) -> Seq<u8>
    decreases items,
{
    if items.len() == 0 {
        seq![0u8]
    } else {
        seq![tag_of(items[0].1)] + items[0].0 + seq![0u8] + encode_payload(items[0].1) + encode_items(
            items.drop_first(),
        )
    }
}

/// A whole buffer: the u32 total length, counted from the start, then the fields.
pub open spec fn encode_document(fields: Seq<(Seq<u8>, WireValue)>) -> Seq<u8> {
    u32_bytes((encode_items(fields).len() + 4) as u32) + encode_items(fields)
}

/// What the decoder makes of `w`.
pub open spec fn expected(w: WireValue) -> ValueModel
    decreases w,
{
    match w {
        WireValue::Double(x) => ValueModel::Double(x),
        WireValue::Str(b) => ValueModel::Str(decode_utf8(b)),
        WireValue::Object(items) => ValueModel::Object(expected_items(items)),
        WireValue::Array(items) => ValueModel::Array(expected_values(items)),
        WireValue::Binary(b) => ValueModel::Binary(base64_of(b)),
        WireValue::Bool(b) => ValueModel::Bool(b),
        WireValue::Null => ValueModel::Null,
        WireValue::Int(x) => ValueModel::Int(x),
        WireValue::Int64(x) => ValueModel::Int64(x),
    }
}

pub open spec fn expected_items(items: Seq<(Seq<u8>, WireValue)>) -> Seq<(Seq<char>, ValueModel)>
    decreases items,
{
    if items.len() == 0 {
        Seq::empty()
    } else {
        seq![(latin1(items[0].0), expected(items[0].1))] + expected_items(items.drop_first())
    }
}

pub open spec fn expected_values(items: Seq<(Seq<u8>, WireValue)>) -> Seq<ValueModel>
    decreases items,
{
    if items.len() == 0 {
        Seq::empty()
    } else {
        seq![expected(items[0].1)] + expected_values(items.drop_first())
    }
}

/// `w` can be written and read back: text is UTF-8, lengths fit their headers,
/// names hold no NUL, and compound values nest at most `depth` deep.
pub open spec fn wire_ok(w: WireValue, depth: nat) -> bool
    decreases w,
{
    match w {
        WireValue::Str(b) => valid_utf8(b) && b.len() + 1 <= u32::MAX,
        WireValue::Binary(b) => b.len() + 1 <= u32::MAX && 4 * ((b.len() + 2) / 3) <= usize::MAX,
        WireValue::Object(items) => depth > 0 && items_ok(items, (depth - 1) as nat),
        WireValue::Array(items) => depth > 0 && items_ok(items, (depth - 1) as nat),
        _ => true,
    }
}

pub open spec fn items_ok(items: Seq<(Seq<u8>, WireValue)>, depth: nat) -> bool
    decreases items,
{
    if items.len() == 0 {
        true
    } else {
        (forall|j: int| 0 <= j < items[0].0.len() ==> items[0].0[j] != 0) && wire_ok(items[0].1, depth)
            && items_ok(items.drop_first(), depth)
    }
}

} // verus!
