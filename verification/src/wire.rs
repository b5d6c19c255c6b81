//! The FastRPC wire format, stated as mathematical functions on byte
//! sequences.
//!
//! A value starts with a tag byte. Its upper five bits give the major type,
//! its lower three bits a width or a flag. Every function here takes the
//! whole buffer and an offset into it, and yields either what stands at
//! that offset together with the offset just behind it, or the failure that
//! a decoder has to report.
use vstd::prelude::*;
use vstd::utf8::{decode_utf8, valid_utf8};
use crate::cursor::truncated;
use crate::error::DecodeError;
use crate::value::{field_map, RpcModel, ValueModel};

verus! {

/// Major type of the legacy 32-bit integer.
pub const MAJOR_INT32: u8 = 1;

/// Major type of a boolean.
pub const MAJOR_BOOL: u8 = 2;

/// Major type of a double.
pub const MAJOR_DOUBLE: u8 = 3;

/// Major type of a text.
pub const MAJOR_TEXT: u8 = 4;

/// Major type of a datetime.
pub const MAJOR_DATETIME: u8 = 5;

/// Major type of a binary.
pub const MAJOR_BINARY: u8 = 6;

/// Major type of a non-negative integer of one to eight bytes.
pub const MAJOR_POSITIVE: u8 = 7;

/// Major type of a negated integer of one to eight bytes.
pub const MAJOR_NEGATIVE: u8 = 8;

/// Major type of a struct.
pub const MAJOR_STRUCT: u8 = 10;

/// Major type of an array.
pub const MAJOR_ARRAY: u8 = 11;

/// Major type of the null value.
pub const MAJOR_NULL: u8 = 12;

/// Major type of a method call envelope.
pub const MAJOR_CALL: u8 = 13;

/// Major type of a success response envelope.
pub const MAJOR_SUCCESS: u8 = 14;

/// Major type of a fault response envelope.
pub const MAJOR_FAULT: u8 = 15;

/// The upper five bits of a tag byte.
pub open spec fn tag_major(tag: u8) -> u8 {
    tag / 8
}

/// The lower three bits of a tag byte.
pub open spec fn tag_minor(tag: u8) -> u8 {
    tag % 8
}

/// The number that `bytes` spell in little-endian order: the sum of
/// `bytes[i] * 256^i`.
pub open spec fn le_value(bytes: Seq<u8>) -> nat
    decreases bytes.len(),
{
    if bytes.len() == 0 {
        0
    } else {
        bytes[0] as nat + 256 * le_value(bytes.skip(1))
    }
}

/// `256^k`.
pub open spec fn pow256(k: nat) -> nat
    decreases k,
{
    if k == 0 {
        1
    } else {
        256 * pow256((k - 1) as nat)
    }
}

/// An unsigned field of `width` bytes at `pos`. All `width` bytes are
/// consumed; the first `cap` of them carry the number.
pub open spec fn wire_uint(data: Seq<u8>, pos: int, width: int, cap: int) -> Result<
    (nat, int),
    DecodeError,
> {
    if pos + width > data.len() {
        Err(truncated(data, pos, width))
    } else {
        let used = if width < cap {
            width
        } else {
            cap
        };
        Ok((le_value(data.subrange(pos, pos + used)), pos + width))
    }
}

/// The signed number whose 32-bit two's complement pattern is `v`.
pub open spec fn signed32(v: nat) -> int {
    if v < 0x8000_0000 {
        v as int
    } else {
        v - 0x1_0000_0000
    }
}

/// The signed number whose 64-bit two's complement pattern is `v`.
pub open spec fn signed64(v: nat) -> int {
    if v < 0x8000_0000_0000_0000 {
        v as int
    } else {
        v - 0x1_0000_0000_0000_0000
    }
}

/// The negation of [`signed64`], wrapped into the 64-bit range: magnitudes
/// up to `2^63` give `-v`, larger ones wrap around as two's complement
/// negation does.
pub open spec fn negated64(v: nat) -> int {
    if v <= 0x8000_0000_0000_0000 {
        -(v as int)
    } else {
        0x1_0000_0000_0000_0000 - v
    }
}

/// A byte string at `pos`: a length field of `width` bytes, then that many
/// bytes.
pub open spec fn wire_blob(data: Seq<u8>, pos: int, width: int) -> Result<
    (Seq<u8>, int),
    DecodeError,
> {
    match wire_uint(data, pos, width, 8) {
        Err(e) => Err(e),
        Ok((len, start)) => if start + len > data.len() {
            Err(truncated(data, start, len as int))
        } else {
            Ok((data.subrange(start, start + len), start + len))
        },
    }
}

/// A name at `pos`: one length byte, then that many bytes of UTF-8.
pub open spec fn wire_name(data: Seq<u8>, pos: int) -> Result<(Seq<char>, int), DecodeError> {
    match wire_blob(data, pos, 1) {
        Err(e) => Err(e),
        Ok((bytes, next)) => if valid_utf8(bytes) {
            Ok((decode_utf8(bytes), next))
        } else {
            Err(DecodeError::InvalidEncoding { position: (pos + 1) as usize })
        },
    }
}

/// The value at `pos`, where structs and arrays may be nested `depth`
/// levels deep.
pub open spec fn wire_value(data: Seq<u8>, pos: int, depth: nat) -> Result<
    (ValueModel, int),
    DecodeError,
>
    decreases depth, 0nat,
{
    if pos >= data.len() {
        Err(truncated(data, pos, 1))
    } else {
        let tag = data[pos];
        let major = tag_major(tag);
        let minor = tag_minor(tag);
        if major == MAJOR_INT32 {
            match wire_uint(data, pos + 1, minor as int, 4) {
                Err(e) => Err(e),
                Ok((v, next)) => Ok((ValueModel::Integer(signed32(v)), next)),
            }
        } else if major == MAJOR_BOOL {
            Ok((ValueModel::Bool(tag % 2 == 1), pos + 1))
        } else if major == MAJOR_DOUBLE {
            match wire_uint(data, pos + 1, 8, 8) {
                Err(e) => Err(e),
                Ok((v, next)) => Ok((ValueModel::Double(v as u64), next)),
            }
        } else if major == MAJOR_TEXT {
            match wire_blob(data, pos + 1, minor + 1) {
                Err(e) => Err(e),
                Ok((bytes, next)) => if valid_utf8(bytes) {
                    Ok((ValueModel::Text(decode_utf8(bytes)), next))
                } else {
                    Err(DecodeError::InvalidEncoding { position: (next - bytes.len()) as usize })
                },
            }
        } else if major == MAJOR_DATETIME {
            Err(DecodeError::Unsupported { position: pos as usize, tag })
        } else if major == MAJOR_BINARY {
            match wire_blob(data, pos + 1, minor + 1) {
                Err(e) => Err(e),
                Ok((bytes, next)) => Ok((ValueModel::Binary(bytes), next)),
            }
        } else if major == MAJOR_POSITIVE {
            match wire_uint(data, pos + 1, minor + 1, 8) {
                Err(e) => Err(e),
                Ok((v, next)) => Ok((ValueModel::Integer(signed64(v)), next)),
            }
        } else if major == MAJOR_NEGATIVE {
            match wire_uint(data, pos + 1, minor + 1, 8) {
                Err(e) => Err(e),
                Ok((v, next)) => Ok((ValueModel::Integer(negated64(v)), next)),
            }
        } else if major == MAJOR_STRUCT {
            if depth == 0 {
                Err(DecodeError::NestingTooDeep { position: pos as usize })
            } else {
                match wire_uint(data, pos + 1, minor + 1, 8) {
                    Err(e) => Err(e),
                    Ok((count, start)) => match wire_fields(
                        data,
                        start,
                        count,
                        (depth - 1) as nat,
                        Seq::empty(),
                    ) {
                        Err(e) => Err(e),
                        Ok((fields, next)) => Ok((ValueModel::Struct(field_map(fields)), next)),
                    },
                }
            }
        } else if major == MAJOR_ARRAY {
            if depth == 0 {
                Err(DecodeError::NestingTooDeep { position: pos as usize })
            } else {
                match wire_uint(data, pos + 1, minor + 1, 8) {
                    Err(e) => Err(e),
                    Ok((count, start)) => match wire_items(
                        data,
                        start,
                        count,
                        (depth - 1) as nat,
                        Seq::empty(),
                    ) {
                        Err(e) => Err(e),
                        Ok((items, next)) => Ok((ValueModel::Array(items), next)),
                    },
                }
            }
        } else if major == MAJOR_NULL {
            Ok((ValueModel::Null, pos + 1))
        } else {
            Err(DecodeError::UnknownTag { position: pos as usize, tag })
        }
    }
}

/// `count` values in a row, starting at `pos`, appended in their order to
/// the values `done` that were read before them.
pub open spec fn wire_items(
    data: Seq<u8>,
    pos: int,
    count: nat,
    depth: nat,
    done: Seq<ValueModel>,
) -> Result<(Seq<ValueModel>, int), DecodeError>
    decreases depth, count + 1,
{
    if count == 0 {
        Ok((done, pos))
    } else {
        match wire_value(data, pos, depth) {
            Err(e) => Err(e),
            Ok((item, next)) => wire_items(data, next, (count - 1) as nat, depth, done.push(item)),
        }
    }
}

/// `count` fields in a row, starting at `pos`, each a name followed by a
/// value, appended in their order to the fields `done` that were read
/// before them.
pub open spec fn wire_fields(
    data: Seq<u8>,
    pos: int,
    count: nat,
    depth: nat,
    done: Seq<(Seq<char>, ValueModel)>,
) -> Result<(Seq<(Seq<char>, ValueModel)>, int), DecodeError>
    decreases depth, count + 1,
{
    if count == 0 {
        Ok((done, pos))
    } else {
        match wire_name(data, pos) {
            Err(e) => Err(e),
            Ok((name, at)) => match wire_value(data, at, depth) {
                Err(e) => Err(e),
                Ok((value, next)) => wire_fields(
                    data,
                    next,
                    (count - 1) as nat,
                    depth,
                    done.push((name, value)),
                ),
            },
        }
    }
}

/// The four bytes that may open a message.
pub open spec fn magic() -> Seq<u8> {
    seq![0xCAu8, 0x11u8, 0x02u8, 0x00u8]
}

/// Offset of the envelope tag: 4 where the buffer starts with the magic
/// header, 0 where it does not.
pub open spec fn envelope_start(data: Seq<u8>) -> int {
    if data.len() >= 4 && data.subrange(0, 4) == magic() {
        4
    } else {
        0
    }
}

/// The envelope whose tag stands at `pos`. Bytes behind the envelope are
/// not looked at.
pub open spec fn wire_rpc(data: Seq<u8>, pos: int, depth: nat) -> Result<RpcModel, DecodeError> {
    if pos >= data.len() {
        Err(truncated(data, pos, 1))
    } else {
        let tag = data[pos];
        let major = tag_major(tag);
        if major == MAJOR_CALL {
            match wire_name(data, pos + 1) {
                Err(e) => Err(e),
                Ok((method, at)) => match wire_value(data, at, depth) {
                    Err(e) => Err(e),
                    Ok((argument, _)) => Ok(RpcModel::Call(method, argument)),
                },
            }
        } else if major == MAJOR_SUCCESS {
            match wire_value(data, pos + 1, depth) {
                Err(e) => Err(e),
                Ok((result, _)) => Ok(RpcModel::Success(result)),
            }
        } else if major == MAJOR_FAULT {
            Err(DecodeError::Unsupported { position: pos as usize, tag })
        } else {
            Err(DecodeError::UnknownEnvelopeTag { position: pos as usize, tag })
        }
    }
}

/// The message that a whole buffer holds: an optional magic header, then
/// one envelope.
pub open spec fn wire_message(data: Seq<u8>, depth: nat) -> Result<RpcModel, DecodeError> {
    wire_rpc(data, envelope_start(data), depth)
}

} // verus!
