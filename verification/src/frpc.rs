//! Decoding of FastRPC messages.
use vstd::prelude::*;
use crate::cursor::ByteCursor;
use crate::text::utf8_text;
use crate::value::{field_map, within_depth, ValueModel};
use crate::value_lemmas::lemma_array_model;
pub use crate::error::DecodeError;
pub use crate::value::{StructFields, Value, RPC};
use crate::wire_lemmas::{
    lemma_message_depth_suffices, lemma_value_advances, lemma_value_within_depth,
};
use crate::wire::{
    envelope_start, le_value, pow256, wire_blob, wire_fields, wire_items, wire_message, wire_name,
    wire_rpc, wire_uint, wire_value, MAJOR_ARRAY, MAJOR_BINARY, MAJOR_BOOL, MAJOR_CALL,
    MAJOR_DATETIME, MAJOR_DOUBLE, MAJOR_FAULT, MAJOR_INT32, MAJOR_NEGATIVE, MAJOR_NULL,
    MAJOR_POSITIVE, MAJOR_STRUCT, MAJOR_SUCCESS, MAJOR_TEXT,
};

verus! {

/// The number that at most eight bytes spell in little-endian order.
fn le_number(bytes: &[u8]) -> (value: u64)
    requires
        bytes@.len() <= 8,
    ensures
        value == le_value(bytes@),
        value < pow256(bytes@.len()),
{
    let mut value: u64 = 0;
    let mut i: usize = bytes.len();
    proof {
        reveal_with_fuel(pow256, 9);
        assert(bytes@.skip(i as int).len() == 0);
    }
    while i > 0
        invariant
            i <= bytes@.len() <= 8,
            value == le_value(bytes@.skip(i as int)),
            value < pow256((bytes@.len() - i) as nat),
        decreases i,
    {
        i -= 1;
        proof {
            reveal_with_fuel(pow256, 9);
            assert(bytes@.skip(i as int).skip(1) =~= bytes@.skip(i + 1));
        }
        value = value * 256 + bytes[i] as u64;
    }
    assert(bytes@.skip(0) =~= bytes@);
    value
}

/// Reads an unsigned little-endian field of `len` bytes and returns it as a
/// 64-bit number. Of a field wider than eight bytes only the first eight
/// carry the number; the cursor still moves past all of them.
pub fn decode_u64(cursor: &mut ByteCursor, len: usize) -> (r: Result<u64, DecodeError>)
    ensures
        final(cursor).bytes() == old(cursor).bytes(),
        match wire_uint(old(cursor).bytes(), old(cursor).offset() as int, len as int, 8) {
            Ok((value, next)) => r == Ok::<u64, DecodeError>(value as u64) && value <= u64::MAX
                && final(cursor).offset() == next,
            Err(e) => r == Err::<u64, DecodeError>(e),
        },
{
    match cursor.take(len as u64) {
        Ok(field) => {
            let used: usize = if len < 8 {
                len
            } else {
                8
            };
            let value = le_number(vstd::slice::slice_subrange(field, 0, used));
            proof {
                reveal_with_fuel(pow256, 9);
                let at = old(cursor).offset() as int;
                assert(field@.subrange(0, used as int) =~= old(cursor).bytes().subrange(
                    at,
                    at + used,
                ));
            }
            Ok(value)
        },
        Err(e) => Err(e),
    }
}

/// Reads an unsigned little-endian field of `len` bytes and returns it as a
/// 32-bit number. Of a field wider than four bytes only the first four
/// carry the number; the cursor still moves past all of them.
pub fn decode_u32(cursor: &mut ByteCursor, len: usize) -> (r: Result<u32, DecodeError>)
    ensures
        final(cursor).bytes() == old(cursor).bytes(),
        match wire_uint(old(cursor).bytes(), old(cursor).offset() as int, len as int, 4) {
            Ok((value, next)) => r == Ok::<u32, DecodeError>(value as u32) && value <= u32::MAX
                && final(cursor).offset() == next,
            Err(e) => r == Err::<u32, DecodeError>(e),
        },
{
    match cursor.take(len as u64) {
        Ok(field) => {
            let used: usize = if len < 4 {
                len
            } else {
                4
            };
            let value = le_number(vstd::slice::slice_subrange(field, 0, used));
            proof {
                reveal_with_fuel(pow256, 9);
                let at = old(cursor).offset() as int;
                assert(field@.subrange(0, used as int) =~= old(cursor).bytes().subrange(
                    at,
                    at + used,
                ));
            }
            Ok(value as u32)
        },
        Err(e) => Err(e),
    }
}

/// Reads a byte string: a length field of `width` bytes, then that many
/// bytes, which are returned.
fn decode_blob<'a>(cursor: &mut ByteCursor<'a>, width: usize) -> (r: Result<&'a [u8], DecodeError>)
    ensures
        final(cursor).bytes() == old(cursor).bytes(),
        match wire_blob(old(cursor).bytes(), old(cursor).offset() as int, width as int) {
            Ok((bytes, next)) => r matches Ok(s) && s@ == bytes && final(cursor).offset() == next,
            Err(e) => r == Err::<&[u8], DecodeError>(e),
        },
{
    match decode_u64(cursor, width) {
        Ok(len) => cursor.take(len),
        Err(e) => Err(e),
    }
}

/// Reads a name: one length byte, then that many bytes, which must be
/// UTF-8.
pub fn decode_name<'a>(cursor: &mut ByteCursor<'a>) -> (r: Result<&'a str, DecodeError>)
    ensures
        final(cursor).bytes() == old(cursor).bytes(),
        match wire_name(old(cursor).bytes(), old(cursor).offset() as int) {
            Ok((name, next)) => r matches Ok(s) && s@ == name && final(cursor).offset() == next,
            Err(e) => r == Err::<&str, DecodeError>(e),
        },
{
    match decode_blob(cursor, 1) {
        Ok(bytes) => match utf8_text(bytes) {
            Some(name) => Ok(name),
            None => Err(
                DecodeError::InvalidEncoding { position: cursor.position() - bytes.len() },
            ),
        },
        Err(e) => Err(e),
    }
}

/// Reads `count` values in a row.
fn decode_items(cursor: &mut ByteCursor, count: u64, max_depth: usize) -> (r: Result<
    Vec<Value>,
    DecodeError,
>)
    ensures
        final(cursor).bytes() == old(cursor).bytes(),
        match wire_items(
            old(cursor).bytes(),
            old(cursor).offset() as int,
            count as nat,
            max_depth as nat,
            Seq::empty(),
        ) {
            Ok((models, next)) => r matches Ok(items) && Value::Array(items)@
                == ValueModel::Array(models) && final(cursor).offset() == next,
            Err(e) => r == Err::<Vec<Value>, DecodeError>(e),
        },
    decreases max_depth, 1nat,
{
    let ghost data = cursor.bytes();
    let ghost start = cursor.offset() as int;
    let ghost mut done: Seq<ValueModel> = Seq::empty();
    let mut items: Vec<Value> = Vec::new();
    let mut i: u64 = 0;
    while i < count
        invariant
            i <= count,
            cursor.bytes() == data,
            data == old(cursor).bytes(),
            start == old(cursor).offset(),
            done.len() == items@.len(),
            forall|k: int| 0 <= k < done.len() ==> (#[trigger] items@[k])@ == done[k],
            wire_items(data, cursor.offset() as int, (count - i) as nat, max_depth as nat, done)
                == wire_items(data, start, count as nat, max_depth as nat, Seq::empty()),
        decreases count - i,
    {
        match decode_value(cursor, max_depth) {
            Ok(item) => {
                proof {
                    done = done.push(item@);
                }
                items.push(item);
            },
            Err(e) => {
                return Err(e);
            },
        }
        i += 1;
    }
    proof {
        lemma_array_model(items);
        assert(Value::Array(items)@->Array_0 =~= done);
    }
    Ok(items)
}

/// Reads `count` fields in a row, each a name followed by a value. A field
/// replaces an earlier one of the same name.
fn decode_fields(cursor: &mut ByteCursor, count: u64, max_depth: usize) -> (r: Result<
    StructFields,
    DecodeError,
>)
    ensures
        final(cursor).bytes() == old(cursor).bytes(),
        match wire_fields(
            old(cursor).bytes(),
            old(cursor).offset() as int,
            count as nat,
            max_depth as nat,
            Seq::empty(),
        ) {
            Ok((list, next)) => r matches Ok(fields) && fields@ == field_map(list)
                && final(cursor).offset() == next,
            Err(e) => r == Err::<StructFields, DecodeError>(e),
        },
    decreases max_depth, 1nat,
{
    let ghost data = cursor.bytes();
    let ghost start = cursor.offset() as int;
    let ghost mut done: Seq<(Seq<char>, ValueModel)> = Seq::empty();
    let mut fields = StructFields::new();
    let mut i: u64 = 0;
    while i < count
        invariant
            i <= count,
            cursor.bytes() == data,
            data == old(cursor).bytes(),
            start == old(cursor).offset(),
            fields@ == field_map(done),
            wire_fields(data, cursor.offset() as int, (count - i) as nat, max_depth as nat, done)
                == wire_fields(data, start, count as nat, max_depth as nat, Seq::empty()),
        decreases count - i,
    {
        let name = match decode_name(cursor) {
            Ok(name) => name,
            Err(e) => {
                return Err(e);
            },
        };
        let value = match decode_value(cursor, max_depth) {
            Ok(value) => value,
            Err(e) => {
                return Err(e);
            },
        };
        proof {
            let field = (name@, value@);
            assert(done.push(field).drop_last() =~= done);
            done = done.push(field);
        }
        fields.insert(name.to_owned(), value);
        i += 1;
    }
    Ok(fields)
}

/// Decodes the value at the cursor and moves the cursor past it. Structs
/// and arrays may be nested `max_depth` levels deep; a value that goes
/// deeper is refused with [`DecodeError::NestingTooDeep`].
///
/// Some choices that the format leaves open:
///
/// * A datetime is refused with [`DecodeError::Unsupported`]: the layout of
///   its payload is not settled, so nothing is read of it.
/// * A double is returned as the 64 bits of its payload.
/// * A wide integer whose magnitude does not fit in 63 bits wraps around
///   as two's complement does.
/// * A legacy integer whose tag asks for more than four bytes takes that
///   many bytes; the first four carry the number.
///
/// After a failure the cursor must not be used again.
pub fn decode_value(cursor: &mut ByteCursor, max_depth: usize) -> (r: Result<Value, DecodeError>)
    ensures
        final(cursor).bytes() == old(cursor).bytes(),
        match wire_value(old(cursor).bytes(), old(cursor).offset() as int, max_depth as nat) {
            Ok((model, next)) => r matches Ok(value) && value@ == model && final(cursor).offset()
                == next,
            Err(e) => r == Err::<Value, DecodeError>(e),
        },
        r is Ok ==> old(cursor).offset() < final(cursor).offset() <= old(cursor).bytes().len(),
        r matches Ok(value) ==> within_depth(value@, max_depth as nat),
    decreases max_depth, 0nat,
{
    proof {
        lemma_value_advances(cursor.bytes(), cursor.offset() as int, max_depth as nat);
        lemma_value_within_depth(cursor.bytes(), cursor.offset() as int, max_depth as nat);
    }
    let at = cursor.position();
    let tag = match cursor.read_byte() {
        Ok(tag) => tag,
        Err(e) => {
            return Err(e);
        },
    };
    let major = tag >> 3;
    let minor = (tag & 7) as usize;
    proof {
        assert(tag >> 3 == tag / 8) by (bit_vector);
        assert(tag & 7 == tag % 8) by (bit_vector);
        assert((tag & 1 == 1) == (tag % 2 == 1)) by (bit_vector);
    }
    if major == MAJOR_INT32 {
        match decode_u32(cursor, minor) {
            Ok(v) => {
                let wide = v as i64;
                Ok(
                    Value::Integer(
                        if wide >= 0x8000_0000 {
                            wide - 0x1_0000_0000
                        } else {
                            wide
                        },
                    ),
                )
            },
            Err(e) => Err(e),
        }
    } else if major == MAJOR_BOOL {
        Ok(Value::Bool(tag & 1 == 1))
    } else if major == MAJOR_DOUBLE {
        match decode_u64(cursor, 8) {
            Ok(bits) => Ok(Value::Double(bits)),
            Err(e) => Err(e),
        }
    } else if major == MAJOR_TEXT {
        match decode_blob(cursor, minor + 1) {
            Ok(bytes) => match utf8_text(bytes) {
                Some(text) => Ok(Value::Text(text.to_owned())),
                None => Err(
                    DecodeError::InvalidEncoding { position: cursor.position() - bytes.len() },
                ),
            },
            Err(e) => Err(e),
        }
    } else if major == MAJOR_DATETIME {
        Err(DecodeError::Unsupported { position: at, tag })
    } else if major == MAJOR_BINARY {
        match decode_blob(cursor, minor + 1) {
            Ok(bytes) => Ok(Value::Binary(vstd::slice::slice_to_vec(bytes))),
            Err(e) => Err(e),
        }
    } else if major == MAJOR_POSITIVE {
        match decode_u64(cursor, minor + 1) {
            Ok(v) => Ok(
                Value::Integer(
                    if v < 0x8000_0000_0000_0000 {
                        v as i64
                    } else {
                        (v - 0x8000_0000_0000_0000) as i64 + i64::MIN
                    },
                ),
            ),
            Err(e) => Err(e),
        }
    } else if major == MAJOR_NEGATIVE {
        match decode_u64(cursor, minor + 1) {
            Ok(v) => Ok(
                Value::Integer(
                    if v < 0x8000_0000_0000_0000 {
                        -(v as i64)
                    } else if v == 0x8000_0000_0000_0000 {
                        i64::MIN
                    } else {
                        (u64::MAX - v) as i64 + 1
                    },
                ),
            ),
            Err(e) => Err(e),
        }
    } else if major == MAJOR_STRUCT {
        if max_depth == 0 {
            return Err(DecodeError::NestingTooDeep { position: at });
        }
        match decode_u64(cursor, minor + 1) {
            Ok(count) => match decode_fields(cursor, count, max_depth - 1) {
                Ok(fields) => Ok(Value::Struct(fields)),
                Err(e) => Err(e),
            },
            Err(e) => Err(e),
        }
    } else if major == MAJOR_ARRAY {
        if max_depth == 0 {
            return Err(DecodeError::NestingTooDeep { position: at });
        }
        match decode_u64(cursor, minor + 1) {
            Ok(count) => match decode_items(cursor, count, max_depth - 1) {
                Ok(items) => Ok(Value::Array(items)),
                Err(e) => Err(e),
            },
            Err(e) => Err(e),
        }
    } else if major == MAJOR_NULL {
        Ok(Value::Null)
    } else {
        Err(DecodeError::UnknownTag { position: at, tag })
    }
}

/// Decodes the envelope whose tag stands at the cursor: a call with its
/// method name and argument, or a success response with its result. Bytes
/// behind the envelope are left unread.
///
/// A fault response is refused with [`DecodeError::Unsupported`]: the
/// layout of its code and message is not settled, so nothing is read of it.
pub fn decode_rpc(cursor: &mut ByteCursor, max_depth: usize) -> (r: Result<RPC, DecodeError>)
    ensures
        final(cursor).bytes() == old(cursor).bytes(),
        match wire_rpc(old(cursor).bytes(), old(cursor).offset() as int, max_depth as nat) {
            Ok(model) => r matches Ok(rpc) && rpc@ == model,
            Err(e) => r == Err::<RPC, DecodeError>(e),
        },
        r matches Ok(RPC::Call(_, argument)) ==> within_depth(argument@, max_depth as nat),
        r matches Ok(RPC::Success(result)) ==> within_depth(result@, max_depth as nat),
{
    let at = cursor.position();
    let tag = match cursor.read_byte() {
        Ok(tag) => tag,
        Err(e) => {
            return Err(e);
        },
    };
    let major = tag >> 3;
    proof {
        assert(tag >> 3 == tag / 8) by (bit_vector);
    }
    if major == MAJOR_CALL {
        let method = match decode_name(cursor) {
            Ok(name) => name,
            Err(e) => {
                return Err(e);
            },
        };
        match decode_value(cursor, max_depth) {
            Ok(argument) => Ok(RPC::Call(method.to_owned(), argument)),
            Err(e) => Err(e),
        }
    } else if major == MAJOR_SUCCESS {
        match decode_value(cursor, max_depth) {
            Ok(result) => Ok(RPC::Success(result)),
            Err(e) => Err(e),
        }
    } else if major == MAJOR_FAULT {
        Err(DecodeError::Unsupported { position: at, tag })
    } else {
        Err(DecodeError::UnknownEnvelopeTag { position: at, tag })
    }
}

/// Whether `data` starts with the magic header `CA 11 02 00`.
fn has_magic(data: &[u8]) -> (yes: bool)
    ensures
        envelope_start(data@) == if yes {
            4int
        } else {
            0int
        },
{
    let yes = data.len() >= 4 && data[0] == 0xCA && data[1] == 0x11 && data[2] == 0x02 && data[3]
        == 0x00;
    proof {
        if data@.len() >= 4 {
            let head = data@.subrange(0, 4);
            if yes {
                assert(head =~= crate::wire::magic());
            } else {
                assert(head[0] == data@[0] && head[1] == data@[1] && head[2] == data@[2]
                    && head[3] == data@[3]);
            }
        }
    }
    yes
}

/// Decodes the message in `data`, refusing structs and arrays that are
/// nested more than `max_depth` levels deep. This is the entry point for
/// input from an untrusted sender: the depth of the recursion, and with it
/// the stack that decoding needs, is bounded by `max_depth`.
///
/// The magic header is skipped where it is present and not missed where it
/// is absent. Bytes behind the envelope are ignored.
pub fn decode_with_max_depth(data: &[u8], max_depth: usize) -> (r: Result<RPC, DecodeError>)
    ensures
        match wire_message(data@, max_depth as nat) {
            Ok(model) => r matches Ok(rpc) && rpc@ == model,
            Err(e) => r == Err::<RPC, DecodeError>(e),
        },
        r matches Ok(RPC::Call(_, argument)) ==> within_depth(argument@, max_depth as nat),
        r matches Ok(RPC::Success(result)) ==> within_depth(result@, max_depth as nat),
{
    let mut cursor = ByteCursor::new(data);
    if has_magic(data) {
        let _ = cursor.take(4);
    }
    decode_rpc(&mut cursor, max_depth)
}

/// Decodes the message in `data` with no limit on nesting other than the
/// length of the buffer, which no value can exceed: each level takes at
/// least its tag byte.
pub fn decode(data: &[u8]) -> (r: Result<RPC, DecodeError>)
    ensures
        match wire_message(data@, data@.len()) {
            Ok(model) => r matches Ok(rpc) && rpc@ == model,
            Err(e) => r == Err::<RPC, DecodeError>(e),
        },
        !(r matches Err(DecodeError::NestingTooDeep { .. })),
{
    proof {
        lemma_message_depth_suffices(data@);
    }
    decode_with_max_depth(data, data.len())
}

} // verus!
