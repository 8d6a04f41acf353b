use vstd::prelude::*;
use vstd::utf8::{decode_utf8, valid_utf8};

use crate::text::base64_of;

verus! {

/// The ways in which decoding a buffer can fail.
#[derive(Debug, Clone, Copy, PartialEq, Eq, Structural)]
pub enum DecodeError {
    /// A read reached past the end of the buffer or of the declared document.
    Bounds,
    /// A string payload is not valid UTF-8 text.
    Encoding,
    /// A type tag that no field kind has, where a field had to stand.
    UnknownField,
    /// A declared payload length leaves no room for its trailing sentinel byte.
    LengthUnderflow,
    /// Compound values are nested deeper than the decoder accepts.
    DepthExceeded,
}

/// How many compound values may be nested inside one another.
pub const MAX_DEPTH: usize = 128;

/// The mathematical value of one decoded field.
pub enum ValueModel {
    /// The IEEE-754 bit pattern of a double.
    Double(u64),
    Str(Seq<char>),
    Object(Seq<(Seq<char>, ValueModel)>),
    Array(Seq<ValueModel>),
    Bool(bool),
    Int(i32),
    Int64(i64),
    /// Base64 text of the payload bytes.
    Binary(Seq<char>),
    Null,
    /// The end-marker: the tag named no field kind.
    Unknown,
}

pub open spec fn u32_le(d: Seq<u8>, p: int) -> u32 {
    (d[p] as int + d[p + 1] as int * 0x100 + d[p + 2] as int * 0x1_0000 + d[p + 3] as int
        * 0x100_0000) as u32
}

pub open spec fn u64_le(d: Seq<u8>, p: int) -> u64 {
    (u32_le(d, p) as int + u32_le(d, p + 4) as int * 0x1_0000_0000) as u64
}

pub open spec fn is_known_tag(tag: u8) -> bool {
    tag == 0x01 || tag == 0x02 || tag == 0x03 || tag == 0x04 || tag == 0x05 || tag == 0x08
        || tag == 0x0A || tag == 0x10 || tag == 0x12
}

/// Index of the first NUL byte in `d[p..end]`, or `end` where there is none.
pub open spec fn nul_index(d: Seq<u8>, end: int, p: int) -> int
    decreases end - p,
{
    if p >= end {
        end
    } else if d[p] == 0 {
        p
    } else {
        nul_index(d, end, p + 1)
    }
}

/// Each byte read as the character of the same code point.
pub open spec fn latin1(b: Seq<u8>) -> Seq<char> {
    b.map_values(|x: u8| x as char)
}

/// A NUL-terminated name starting at `p`, and the position after its NUL.
pub open spec fn parse_name(d: Seq<u8>, end: int, p: int) -> Result<(Seq<char>, int), DecodeError> {
    let z = nul_index(d, end, p);
    if z < p || z >= end {
        Err(DecodeError::Bounds)
    } else {
        Ok((latin1(d.subrange(p, z)), z + 1))
    }
}

/// A length-prefixed payload at `p` without its trailing sentinel byte.
pub open spec fn parse_payload(d: Seq<u8>, end: int, p: int) -> Result<(Seq<u8>, int), DecodeError> {
    if p < 0 || p + 4 > end {
        Err(DecodeError::Bounds)
    } else {
        let n = u32_le(d, p) as int;
        if n == 0 {
            Err(DecodeError::LengthUnderflow)
        } else if p + 4 + n > end {
            Err(DecodeError::Bounds)
        } else {
            Ok((d.subrange(p + 4, p + 4 + n - 1), p + 4 + n))
        }
    }
}

pub open spec fn parse_fixed(d: Seq<u8>, end: int, p: int, tag: u8) -> Result<(ValueModel, int), DecodeError> {
    let w: int = if tag == 0x01 || tag == 0x12 { 8 } else if tag == 0x10 { 4 } else if tag == 0x08 { 1 } else { 0 };
    if p < 0 || p + w > end {
        Err(DecodeError::Bounds)
    } else {
        let v = if tag == 0x01 {
            ValueModel::Double(u64_le(d, p))
        } else if tag == 0x12 {
            ValueModel::Int64(u64_le(d, p) as i64)
        } else if tag == 0x10 {
            ValueModel::Int(u32_le(d, p) as i32)
        } else if tag == 0x08 {
            ValueModel::Bool(d[p] == 1)
        } else if tag == 0x0A {
            ValueModel::Null
        } else {
            ValueModel::Unknown
        };
        Ok((v, p + w))
    }
}

/// The payload of a field of type `tag` whose payload starts at `p`.
pub open spec fn parse_value(d: Seq<u8>, end: int, p: int, tag: u8, depth: nat) -> Result<(ValueModel, int), DecodeError>
    decreases depth, end - p, 0int,
{
    if tag == 0x02 {
        match parse_payload(d, end, p) {
            Err(e) => Err(e),
            Ok((b, q)) => if valid_utf8(b) {
                Ok((ValueModel::Str(decode_utf8(b)), q))
            } else {
                Err(DecodeError::Encoding)
            },
        }
    } else if tag == 0x05 {
        match parse_payload(d, end, p) {
            Err(e) => Err(e),
            Ok((b, q)) => if 4 * ((b.len() + 2) / 3) > usize::MAX {
                Err(DecodeError::Bounds)
            } else {
                Ok((ValueModel::Binary(base64_of(b)), q))
            },
        }
    } else if tag == 0x03 || tag == 0x04 {
        if depth == 0 {
            Err(DecodeError::DepthExceeded)
        } else if p < 0 || p + 4 > end {
            Err(DecodeError::Bounds)
        } else {
            match parse_items(d, end, p + 4, (depth - 1) as nat) {
                Err(e) => Err(e),
                Ok((items, q)) => if tag == 0x03 {
                    Ok((ValueModel::Object(items), q))
                } else {
                    Ok((ValueModel::Array(items.map_values(|e: (Seq<char>, ValueModel)| e.1)), q))
                },
            }
        }
    } else {
        parse_fixed(d, end, p, tag)
    }
}

/// The fields of a compound value starting at `p`, up to and past its 0x00 terminator.
pub open spec fn parse_items(d: Seq<u8>, end: int, p: int, depth: nat) -> Result<(Seq<(Seq<char>, ValueModel)>, int), DecodeError>
    decreases depth, end - p, 1int,
{
    if p < 0 || p >= end {
        Err(DecodeError::Bounds)
    } else if d[p] == 0 {
        Ok((Seq::empty(), p + 1))
    } else {
        match parse_name(d, end, p + 1) {
            Err(e) => Err(e),
            Ok((name, q)) => {
                if q <= p || q > end {
                    Err(DecodeError::Bounds)
                } else {
                    match parse_value(d, end, q, d[p], depth) {
                        Err(e) => Err(e),
                        Ok((v, r)) => if v is Unknown {
                            Err(DecodeError::UnknownField)
                        } else if r <= p || r > end {
                            Err(DecodeError::Bounds)
                        } else {
                            match parse_items(d, end, r, depth) {
                                Err(e) => Err(e),
                                Ok((rest, s)) => Ok((seq![(name, v)] + rest, s)),
                            }
                        },
                    }
                }
            },
        }
    }
}


/// The top-level fields from `p` on, and where they end; the document ends where
/// a field would start at offset `length`, or where a tag of no field kind ends there.
pub open spec fn parse_top(d: Seq<u8>, end: int, length: int, p: int) -> Result<(Seq<(Seq<char>, ValueModel)>, int), DecodeError>
    decreases end - p,
{
    if p == length {
        Ok((Seq::empty(), p))
    } else if p < 0 || p >= end {
        Err(DecodeError::Bounds)
    } else if !is_known_tag(d[p]) {
        if p + 1 == length {
            Ok((Seq::empty(), p + 1))
        } else {
            Err(DecodeError::UnknownField)
        }
    } else {
        match parse_name(d, end, p + 1) {
            Err(e) => Err(e),
            Ok((name, q)) => match parse_value(d, end, q, d[p], MAX_DEPTH as nat) {
                Err(e) => Err(e),
                Ok((v, r)) => if r <= p || r > end {
                    Err(DecodeError::Bounds)
                } else {
                    match parse_top(d, end, length, r) {
                        Err(e) => Err(e),
                        Ok((rest, s)) => Ok((seq![(name, v)] + rest, s)),
                    }
                },
            },
        }
    }
}

/// The document that a whole buffer holds: a u32 total length, counted from the
/// buffer's start, then top-level fields, read no further than that length.
pub open spec fn decode(d: Seq<u8>) -> Result<ValueModel, DecodeError> {
    if d.len() < 4 {
        Err(DecodeError::Bounds)
    } else {
        let length = u32_le(d, 0) as int;
        if length < 4 {
            Err(DecodeError::Bounds)
        } else {
            let end = if length < d.len() { length } else { d.len() as int };
            match parse_top(d, end, length, 4) {
                Ok((items, _)) => Ok(ValueModel::Object(items)),
                Err(e) => Err(e),
            }
        }
    }
}

} // verus!
