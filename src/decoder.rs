use vstd::prelude::*;
use vstd::utf8::{decode_utf8, valid_utf8};

use crate::model::{
    is_known_tag, latin1, nul_index, parse_items, parse_name, parse_top, decode, parse_payload, parse_value, u32_le,
    u64_le, DecodeError, ValueModel, MAX_DEPTH,
};
use crate::text::{base64_of, encode_base64, push_char, text_from_utf8};

verus! {

/// One decoded value, as the decoder hands it out.
#[derive(Debug, PartialEq)]
pub enum FieldValue {
    /// The IEEE-754 bit pattern of a double.
    Double(u64),
    String(String),
    /// Named fields in the order in which they were decoded.
    Object(Vec<(String, FieldValue)>),
    Array(Vec<FieldValue>),
    Bool(bool),
    Int(i32),
    Int64(i64),
    /// Base64 text of the payload bytes.
    Binary(String),
    /// The end-marker: the tag named no field kind.
    Unknown,
    Null,
}

/// `v` is the executable form of `m`.
pub open spec fn agrees(v: FieldValue, m: ValueModel) -> bool
    decreases m,
{
    match m {
        ValueModel::Double(x) => v is Double && v->Double_0 == x,
        ValueModel::Str(s) => v is String && v->String_0@ == s,
        ValueModel::Object(items) => v is Object && v->Object_0@.len() == items.len() && forall|i: int|
            0 <= i < items.len() ==> (#[trigger] v->Object_0@[i]).0@ == items[i].0 && agrees(
                v->Object_0@[i].1,
                items[i].1,
            ),
        ValueModel::Array(items) => v is Array && v->Array_0@.len() == items.len() && forall|i: int|
            0 <= i < items.len() ==> agrees(#[trigger] v->Array_0@[i], items[i]),
        ValueModel::Bool(b) => v is Bool && v->Bool_0 == b,
        ValueModel::Int(x) => v is Int && v->Int_0 == x,
        ValueModel::Int64(x) => v is Int64 && v->Int64_0 == x,
        ValueModel::Binary(s) => v is Binary && v->Binary_0@ == s,
        ValueModel::Null => v is Null,
        ValueModel::Unknown => v is Unknown,
    }
}

/// Each entry of `v` is the executable form of the entry of `m` at the same place.
pub open spec fn entries_agree(v: Seq<(String, FieldValue)>, m: Seq<(Seq<char>, ValueModel)>) -> bool {
    v.len() == m.len() && forall|i: int| 0 <= i < m.len() ==> (#[trigger] v[i]).0@ == m[i].0 && agrees(v[i].1, m[i].1)
}

/// `r` with `acc` put in front of the entries it holds.
pub open spec fn prepend_entries<T>(acc: Seq<(Seq<char>, ValueModel)>, r: Result<(Seq<(Seq<char>, ValueModel)>, T), DecodeError>) -> Result<(Seq<(Seq<char>, ValueModel)>, T), DecodeError> {
    match r {
        Ok((rest, t)) => Ok((acc + rest, t)),
        Err(e) => Err(e),
    }
}

proof fn lemma_prepend_step<T>(acc: Seq<(Seq<char>, ValueModel)>, x: (Seq<char>, ValueModel), r: Result<(Seq<(Seq<char>, ValueModel)>, T), DecodeError>)
    ensures
        prepend_entries(acc, prepend_entries(seq![x], r)) == prepend_entries(acc.push(x), r),
{
    match r {
        Ok((rest, t)) => {
            assert(acc + (seq![x] + rest) =~= acc.push(x) + rest);
        },
        Err(_) => {},
    }
}

/// A bounds-checked reader over a byte buffer.
pub struct Decoder<'a> {
    pub cursor: usize,
    pub data: &'a Vec<u8>,
    /// Reads stop here: the end of the buffer or of the declared document.
    pub limit: usize,
}

impl<'a> Decoder<'a> {
    pub open spec fn wf(&self) -> bool {
        self.cursor <= self.limit <= self.data@.len()
    }

    pub open spec fn same_input(&self, other: &Self) -> bool {
        self.data == other.data && self.limit == other.limit && self.wf() && other.cursor <= self.cursor
    }

    pub fn new(contents: &'a Vec<u8>) -> (r: Self)
        ensures
            r.cursor == 0,
            r.data == contents,
            r.limit == contents@.len(),
            r.wf(),
    {
        Decoder { cursor: 0, data: contents, limit: contents.len() }
    }

    /// Reads the next `size` bytes and moves past them.
    pub fn read_bytes(&mut self, size: usize) -> (r: Result<&'a [u8], DecodeError>)
        requires
            old(self).wf(),
        ensures
            final(self).same_input(old(self)),
            old(self).cursor + size <= old(self).limit ==> r is Ok && r->Ok_0@ == old(self).data@.subrange(
                old(self).cursor as int,
                old(self).cursor + size,
            ) && final(self).cursor == old(self).cursor + size,
            old(self).cursor + size > old(self).limit ==> r == Err::<&'a [u8], DecodeError>(
                DecodeError::Bounds,
            ) && final(self).cursor == old(self).cursor,
    {
        if size > self.limit - self.cursor {
            return Err(DecodeError::Bounds);
        }
        let end = self.cursor + size;
        let bytes = vstd::slice::slice_subrange(self.data.as_slice(), self.cursor, end);
        self.cursor = end;
        Ok(bytes)
    }

    pub fn read_u8(&mut self) -> (r: Result<u8, DecodeError>)
        requires
            old(self).wf(),
        ensures
            final(self).same_input(old(self)),
            old(self).cursor < old(self).limit ==> r == Ok::<u8, DecodeError>(old(self).data@[old(self).cursor as int])
                && final(self).cursor == old(self).cursor + 1,
            old(self).cursor >= old(self).limit ==> r == Err::<u8, DecodeError>(DecodeError::Bounds),
    {
        match self.read_bytes(1) {
            Ok(b) => Ok(b[0]),
            Err(e) => Err(e),
        }
    }

    pub fn read_u32(&mut self) -> (r: Result<u32, DecodeError>)
        requires
            old(self).wf(),
        ensures
            final(self).same_input(old(self)),
            old(self).cursor + 4 <= old(self).limit ==> r == Ok::<u32, DecodeError>(u32_le(old(self).data@, old(self).cursor as int))
                && final(self).cursor == old(self).cursor + 4,
            old(self).cursor + 4 > old(self).limit ==> r == Err::<u32, DecodeError>(DecodeError::Bounds),
    {
        match self.read_bytes(4) {
            Ok(b) => Ok(b[0] as u32 + (b[1] as u32) * 0x100 + (b[2] as u32) * 0x1_0000 + (b[3] as u32) * 0x100_0000),
            Err(e) => Err(e),
        }
    }

    fn read_u64(&mut self) -> (r: Result<u64, DecodeError>)
        requires
            old(self).wf(),
        ensures
            final(self).same_input(old(self)),
            old(self).cursor + 8 <= old(self).limit ==> r == Ok::<u64, DecodeError>(u64_le(old(self).data@, old(self).cursor as int))
                && final(self).cursor == old(self).cursor + 8,
            old(self).cursor + 8 > old(self).limit ==> r == Err::<u64, DecodeError>(DecodeError::Bounds),
    {
        if self.limit - self.cursor < 8 {
            return Err(DecodeError::Bounds);
        }
        let lo = self.read_u32();
        let hi = self.read_u32();
        match (lo, hi) {
            (Ok(lo), Ok(hi)) => Ok(lo as u64 + (hi as u64) * 0x1_0000_0000),
            _ => Err(DecodeError::Bounds),
        }
    }

    pub fn read_i32(&mut self) -> (r: Result<i32, DecodeError>)
        requires
            old(self).wf(),
        ensures
            final(self).same_input(old(self)),
            old(self).cursor + 4 <= old(self).limit ==> r == Ok::<i32, DecodeError>(u32_le(old(self).data@, old(self).cursor as int) as i32)
                && final(self).cursor == old(self).cursor + 4,
            old(self).cursor + 4 > old(self).limit ==> r == Err::<i32, DecodeError>(DecodeError::Bounds),
    {
        match self.read_u32() {
            Ok(x) => Ok(x as i32),
            Err(e) => Err(e),
        }
    }

    pub fn read_i64(&mut self) -> (r: Result<i64, DecodeError>)
        requires
            old(self).wf(),
        ensures
            final(self).same_input(old(self)),
            old(self).cursor + 8 <= old(self).limit ==> r == Ok::<i64, DecodeError>(u64_le(old(self).data@, old(self).cursor as int) as i64)
                && final(self).cursor == old(self).cursor + 8,
            old(self).cursor + 8 > old(self).limit ==> r == Err::<i64, DecodeError>(DecodeError::Bounds),
    {
        match self.read_u64() {
            Ok(x) => Ok(x as i64),
            Err(e) => Err(e),
        }
    }

    /// Reads a double as its IEEE-754 bit pattern.
    pub fn read_double(&mut self) -> (r: Result<u64, DecodeError>)
        requires
            old(self).wf(),
        ensures
            final(self).same_input(old(self)),
            old(self).cursor + 8 <= old(self).limit ==> r == Ok::<u64, DecodeError>(u64_le(old(self).data@, old(self).cursor as int))
                && final(self).cursor == old(self).cursor + 8,
            old(self).cursor + 8 > old(self).limit ==> r == Err::<u64, DecodeError>(DecodeError::Bounds),
    {
        self.read_u64()
    }

    pub fn read_bool(&mut self) -> (r: Result<bool, DecodeError>)
        requires
            old(self).wf(),
        ensures
            final(self).same_input(old(self)),
            old(self).cursor < old(self).limit ==> r == Ok::<bool, DecodeError>(old(self).data@[old(self).cursor as int] == 1)
                && final(self).cursor == old(self).cursor + 1,
            old(self).cursor >= old(self).limit ==> r == Err::<bool, DecodeError>(DecodeError::Bounds),
    {
        match self.read_u8() {
            Ok(b) => Ok(b == 1),
            Err(e) => Err(e),
        }
    }

    /// Reads a NUL-terminated name; each byte stands for the character of the same code point.
    pub fn read_string_uknl(&mut self) -> (r: Result<String, DecodeError>)
        requires
            old(self).wf(),
        ensures
            final(self).same_input(old(self)),
            match parse_name(old(self).data@, old(self).limit as int, old(self).cursor as int) {
                Ok((name, q)) => r is Ok && r->Ok_0@ == name && final(self).cursor == q,
                Err(e) => r == Err::<String, DecodeError>(e),
            },
    {
        let start = self.cursor;
        let mut i: usize = self.cursor;
        while i < self.limit && self.data[i] != 0
            invariant
                self.wf(),
                start == self.cursor,
                start <= i <= self.limit,
                nul_index(self.data@, self.limit as int, start as int) == nul_index(self.data@, self.limit as int, i as int),
            decreases self.limit - i,
        {
            i = i + 1;
        }
        if i >= self.limit {
            return Err(DecodeError::Bounds);
        }
        let mut name = String::new();
        let mut j: usize = start;
        while j < i
            invariant
                self.wf(),
                start <= j <= i < self.limit,
                name@ == latin1(self.data@.subrange(start as int, j as int)),
            decreases i - j,
        {
            let b = self.data[j];
            push_char(&mut name, b as char);
            proof {
                assert(latin1(self.data@.subrange(start as int, j + 1)) =~= latin1(
                    self.data@.subrange(start as int, j as int),
                ).push(b as char));
            }
            j = j + 1;
        }
        self.cursor = i + 1;
        Ok(name)
    }

    /// Reads a u32 length and that many bytes, and gives them without the last one.
    fn read_payload(&mut self) -> (r: Result<&'a [u8], DecodeError>)
        requires
            old(self).wf(),
        ensures
            final(self).same_input(old(self)),
            match parse_payload(old(self).data@, old(self).limit as int, old(self).cursor as int) {
                Ok((b, q)) => r is Ok && r->Ok_0@ == b && final(self).cursor == q,
                Err(e) => r == Err::<&'a [u8], DecodeError>(e),
            },
    {
        let n = match self.read_u32() {
            Ok(n) => n,
            Err(e) => return Err(e),
        };
        if n == 0 {
            return Err(DecodeError::LengthUnderflow);
        }
        match self.read_bytes(n as usize) {
            Ok(bytes) => {
                let body = vstd::slice::slice_subrange(bytes, 0, n as usize - 1);
                proof {
                    assert(body@ =~= old(self).data@.subrange(old(self).cursor + 4, old(self).cursor + 4 + n - 1));
                }
                Ok(body)
            },
            Err(e) => Err(e),
        }
    }

    /// Reads a String payload: its bytes but the trailing sentinel, as UTF-8 text.
    pub fn read_string(&mut self) -> (r: Result<String, DecodeError>)
        requires
            old(self).wf(),
        ensures
            final(self).same_input(old(self)),
            match parse_payload(old(self).data@, old(self).limit as int, old(self).cursor as int) {
                Ok((b, q)) => if valid_utf8(b) {
                    r is Ok && r->Ok_0@ == decode_utf8(b) && final(self).cursor == q
                } else {
                    r == Err::<String, DecodeError>(DecodeError::Encoding)
                },
                Err(e) => r == Err::<String, DecodeError>(e),
            },
    {
        match self.read_payload() {
            Ok(b) => match text_from_utf8(b) {
                Some(s) => Ok(s),
                None => Err(DecodeError::Encoding),
            },
            Err(e) => Err(e),
        }
    }

    /// Reads a Binary payload: its bytes but the trailing sentinel, as base64 text.
    pub fn read_binary(&mut self) -> (r: Result<String, DecodeError>)
        requires
            old(self).wf(),
        ensures
            final(self).same_input(old(self)),
            match parse_payload(old(self).data@, old(self).limit as int, old(self).cursor as int) {
                Ok((b, q)) => if 4 * ((b.len() + 2) / 3) > usize::MAX {
                    r == Err::<String, DecodeError>(DecodeError::Bounds)
                } else {
                    r is Ok && r->Ok_0@ == base64_of(b) && final(self).cursor == q
                },
                Err(e) => r == Err::<String, DecodeError>(e),
            },
    {
        match self.read_payload() {
            Ok(b) => {
                let n = b.len();
                let groups: usize = if n % 3 == 0 { n / 3 } else { n / 3 + 1 };
                proof {
                    assert(groups == (n + 2) / 3);
                }
                if groups > usize::MAX / 4 {
                    proof {
                        assert(4 * groups > usize::MAX) by (nonlinear_arith)
                            requires groups > usize::MAX / 4;
                    }
                    return Err(DecodeError::Bounds);
                }
                proof {
                    assert(4 * groups <= usize::MAX) by (nonlinear_arith)
                        requires groups <= usize::MAX / 4;
                }
                Ok(encode_base64(b))
            },
            Err(e) => Err(e),
        }
    }

    /// Decodes the payload of a field of type `field_type`; `depth` more compound
    /// values may open inside it. A tag of no field kind gives the end-marker.
    pub fn get_value_from(&mut self, field_type: u8, depth: usize) -> (r: Result<FieldValue, DecodeError>)
        requires
            old(self).wf(),
        ensures
            final(self).same_input(old(self)),
            match parse_value(old(self).data@, old(self).limit as int, old(self).cursor as int, field_type, depth as nat) {
                Ok((m, q)) => r is Ok && agrees(r->Ok_0, m) && final(self).cursor == q,
                Err(e) => r == Err::<FieldValue, DecodeError>(e),
            },
        decreases depth, 2int,
    {
        match field_type {
            0x01 => match self.read_double() {
                Ok(x) => Ok(FieldValue::Double(x)),
                Err(e) => Err(e),
            },
            0x02 => match self.read_string() {
                Ok(x) => Ok(FieldValue::String(x)),
                Err(e) => Err(e),
            },
            0x03 => match self.read_object(depth) {
                Ok(x) => Ok(FieldValue::Object(x)),
                Err(e) => Err(e),
            },
            0x04 => match self.read_array(depth) {
                Ok(x) => Ok(FieldValue::Array(x)),
                Err(e) => Err(e),
            },
            0x05 => match self.read_binary() {
                Ok(x) => Ok(FieldValue::Binary(x)),
                Err(e) => Err(e),
            },
            0x08 => match self.read_bool() {
                Ok(x) => Ok(FieldValue::Bool(x)),
                Err(e) => Err(e),
            },
            0x0A => Ok(FieldValue::Null),
            0x10 => match self.read_i32() {
                Ok(x) => Ok(FieldValue::Int(x)),
                Err(e) => Err(e),
            },
            0x12 => match self.read_i64() {
                Ok(x) => Ok(FieldValue::Int64(x)),
                Err(e) => Err(e),
            },
            _ => Ok(FieldValue::Unknown),
        }
    }

    /// Decodes the fields of a compound value up to and past its 0x00 terminator.
    fn read_entries(&mut self, depth: usize) -> (r: Result<Vec<(String, FieldValue)>, DecodeError>)
        requires
            old(self).wf(),
        ensures
            final(self).same_input(old(self)),
            match parse_items(old(self).data@, old(self).limit as int, old(self).cursor as int, depth as nat) {
                Ok((items, q)) => r is Ok && entries_agree(r->Ok_0@, items) && final(self).cursor == q,
                Err(e) => r == Err::<Vec<(String, FieldValue)>, DecodeError>(e),
            },
        decreases depth, 3int,
    {
        let ghost d = self.data@;
        let ghost lim = self.limit as int;
        let ghost start = self.cursor as int;
        let mut items: Vec<(String, FieldValue)> = Vec::new();
        let ghost mut acc: Seq<(Seq<char>, ValueModel)> = Seq::empty();
        loop
            invariant
                self.wf(),
                self.data == old(self).data,
                self.limit == old(self).limit,
                d == self.data@,
                lim == self.limit,
                start == old(self).cursor,
                start <= self.cursor,
                entries_agree(items@, acc),
                parse_items(d, lim, start, depth as nat) == prepend_entries(
                    acc,
                    parse_items(d, lim, self.cursor as int, depth as nat),
                ),
            decreases self.limit - self.cursor,
        {
            let ghost p = self.cursor as int;
            let tag = match self.read_u8() {
                Ok(t) => t,
                Err(e) => return Err(e),
            };
            if tag == 0 {
                proof {
                    assert(acc + Seq::<(Seq<char>, ValueModel)>::empty() =~= acc);
                }
                return Ok(items);
            }
            let name = match self.read_string_uknl() {
                Ok(n) => n,
                Err(e) => return Err(e),
            };
            let ghost q = self.cursor as int;
            let ghost m = parse_value(d, lim, q, tag, depth as nat)->Ok_0.0;
            let v = match self.get_value_from(tag, depth) {
                Ok(v) => v,
                Err(e) => return Err(e),
            };
            if let FieldValue::Unknown = v {
                return Err(DecodeError::UnknownField);
            }
            proof {
                lemma_prepend_step(acc, (name@, m), parse_items(d, lim, self.cursor as int, depth as nat));
            }
            let ghost entry = (name@, m);
            items.push((name, v));
            proof {
                acc = acc.push(entry);
            }
        }
    }

    /// Decodes an Object payload: a u32 sub-length, then named fields up to a 0x00 tag.
    pub fn read_object(&mut self, depth: usize) -> (r: Result<Vec<(String, FieldValue)>, DecodeError>)
        requires
            old(self).wf(),
        ensures
            final(self).same_input(old(self)),
            match parse_value(old(self).data@, old(self).limit as int, old(self).cursor as int, 0x03, depth as nat) {
                Ok((m, q)) => m is Object && r is Ok && entries_agree(r->Ok_0@, m->Object_0) && final(self).cursor == q,
                Err(e) => r == Err::<Vec<(String, FieldValue)>, DecodeError>(e),
            },
        decreases depth, 1int,
    {
        if depth == 0 {
            return Err(DecodeError::DepthExceeded);
        }
        match self.read_u32() {
            Ok(_) => {},
            Err(e) => return Err(e),
        }
        self.read_entries(depth - 1)
    }

    /// Decodes an Array payload: a u32 sub-length, then fields up to a 0x00 tag, whose
    /// names are read and dropped; the elements keep their order on the wire.
    pub fn read_array(&mut self, depth: usize) -> (r: Result<Vec<FieldValue>, DecodeError>)
        requires
            old(self).wf(),
        ensures
            final(self).same_input(old(self)),
            match parse_value(old(self).data@, old(self).limit as int, old(self).cursor as int, 0x04, depth as nat) {
                Ok((m, q)) => m is Array && r is Ok && r->Ok_0@.len() == m->Array_0.len() && (forall|i: int|
                    0 <= i < m->Array_0.len() ==> agrees(#[trigger] r->Ok_0@[i], m->Array_0[i])) && final(self).cursor == q,
                Err(e) => r == Err::<Vec<FieldValue>, DecodeError>(e),
            },
        decreases depth, 1int,
    {
        if depth == 0 {
            return Err(DecodeError::DepthExceeded);
        }
        match self.read_u32() {
            Ok(_) => {},
            Err(e) => return Err(e),
        }
        let inner = depth - 1;
        let ghost d = self.data@;
        let ghost lim = self.limit as int;
        let ghost start = self.cursor as int;
        let mut values: Vec<FieldValue> = Vec::new();
        let ghost mut acc: Seq<(Seq<char>, ValueModel)> = Seq::empty();
        loop
            invariant
                self.wf(),
                self.data == old(self).data,
                self.limit == old(self).limit,
                d == self.data@,
                lim == self.limit,
                start == old(self).cursor + 4,
                start <= self.cursor,
                inner == depth - 1,
                values@.len() == acc.len(),
                forall|i: int| 0 <= i < acc.len() ==> agrees(#[trigger] values@[i], acc[i].1),
                parse_items(d, lim, start, inner as nat) == prepend_entries(
                    acc,
                    parse_items(d, lim, self.cursor as int, inner as nat),
                ),
            decreases self.limit - self.cursor,
        {
            let tag = match self.read_u8() {
                Ok(t) => t,
                Err(e) => return Err(e),
            };
            if tag == 0 {
                proof {
                    assert(acc + Seq::<(Seq<char>, ValueModel)>::empty() =~= acc);
                }
                return Ok(values);
            }
            let name = match self.read_string_uknl() {
                Ok(n) => n,
                Err(e) => return Err(e),
            };
            let ghost q = self.cursor as int;
            let ghost m = parse_value(d, lim, q, tag, inner as nat)->Ok_0.0;
            let v = match self.get_value_from(tag, inner) {
                Ok(v) => v,
                Err(e) => return Err(e),
            };
            if let FieldValue::Unknown = v {
                return Err(DecodeError::UnknownField);
            }
            proof {
                lemma_prepend_step(acc, (name@, m), parse_items(d, lim, self.cursor as int, inner as nat));
            }
            values.push(v);
            proof {
                acc = acc.push((name@, m));
            }
        }
    }
}


/// Whether `tag` names a field kind.
pub fn known_tag(tag: u8) -> (r: bool)
    ensures
        r == is_known_tag(tag),
{
    tag == 0x01 || tag == 0x02 || tag == 0x03 || tag == 0x04 || tag == 0x05 || tag == 0x08
        || tag == 0x0A || tag == 0x10 || tag == 0x12
}

/// Decodes a whole buffer into an Object of its top-level fields, in the order in
/// which they stand.
pub fn decode_contents(contents: &Vec<u8>) -> (r: Result<FieldValue, DecodeError>)
    ensures
        match decode(contents@) {
            Ok(m) => r is Ok && agrees(r->Ok_0, m),
            Err(e) => r == Err::<FieldValue, DecodeError>(e),
        },
{
    let mut decoder = Decoder::new(contents);
    let length = match decoder.read_u32() {
        Ok(n) => n as usize,
        Err(e) => return Err(e),
    };
    if length < 4 {
        return Err(DecodeError::Bounds);
    }
    if length < contents.len() {
        decoder.limit = length;
    }
    let ghost d = contents@;
    let ghost lim = decoder.limit as int;
    let mut fields: Vec<(String, FieldValue)> = Vec::new();
    let ghost mut acc: Seq<(Seq<char>, ValueModel)> = Seq::empty();
    loop
        invariant
            decoder.wf(),
            decoder.data == contents,
            d == contents@,
            lim == decoder.limit,
            lim == (if length < d.len() { length as int } else { d.len() as int }),
            length == u32_le(d, 0),
            4 <= length,
            4 <= decoder.cursor,
            entries_agree(fields@, acc),
            parse_top(d, lim, length as int, 4) == prepend_entries(
                acc,
                parse_top(d, lim, length as int, decoder.cursor as int),
            ),
        decreases decoder.limit - decoder.cursor,
    {
        if decoder.cursor == length {
            proof {
                assert(acc + Seq::<(Seq<char>, ValueModel)>::empty() =~= acc);
            }
            return Ok(FieldValue::Object(fields));
        }
        let tag = match decoder.read_u8() {
            Ok(t) => t,
            Err(e) => return Err(e),
        };
        if !known_tag(tag) {
            if decoder.cursor == length {
                proof {
                    assert(acc + Seq::<(Seq<char>, ValueModel)>::empty() =~= acc);
                }
                return Ok(FieldValue::Object(fields));
            }
            return Err(DecodeError::UnknownField);
        }
        let name = match decoder.read_string_uknl() {
            Ok(n) => n,
            Err(e) => return Err(e),
        };
        let ghost q = decoder.cursor as int;
        let ghost m = parse_value(d, lim, q, tag, MAX_DEPTH as nat)->Ok_0.0;
        let v = match decoder.get_value_from(tag, MAX_DEPTH) {
            Ok(v) => v,
            Err(e) => return Err(e),
        };
        proof {
            lemma_prepend_step(acc, (name@, m), parse_top(d, lim, length as int, decoder.cursor as int));
        }
        let ghost entry = (name@, m);
        fields.push((name, v));
        proof {
            acc = acc.push(entry);
        }
    }
}


/// Decodes the Object payload at `pos` (an Array payload, with `is_array`) and tells
/// whether its declared sub-length equals the bytes that decoding it took, the
/// header and the 0x00 terminator included.
pub fn sub_length_matches(contents: &Vec<u8>, pos: usize, is_array: bool) -> (r: Result<bool, DecodeError>)
    ensures
        match parse_value(contents@, contents@.len() as int, pos as int, if is_array { 0x04u8 } else { 0x03u8 }, MAX_DEPTH as nat) {
            Ok((_, q)) => r == Ok::<bool, DecodeError>(u32_le(contents@, pos as int) as int == q - pos),
            Err(e) => r == Err::<bool, DecodeError>(e),
        },
{
    if pos > contents.len() {
        return Err(DecodeError::Bounds);
    }
    let mut decoder = Decoder::new(contents);
    decoder.cursor = pos;
    let decoded = if is_array {
        match decoder.read_array(MAX_DEPTH) {
            Ok(_) => Ok(()),
            Err(e) => Err(e),
        }
    } else {
        match decoder.read_object(MAX_DEPTH) {
            Ok(_) => Ok(()),
            Err(e) => Err(e),
        }
    };
    if let Err(e) = decoded {
        return Err(e);
    }
    let consumed = decoder.cursor - pos;
    let mut header = Decoder::new(contents);
    header.cursor = pos;
    match header.read_u32() {
        Ok(declared) => Ok(declared as usize == consumed),
        Err(e) => Err(e),
    }
}

} // verus!
