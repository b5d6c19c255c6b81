//! Facts about the wire format that hold of every buffer.
use vstd::prelude::*;
use crate::cursor::truncated;
use crate::error::DecodeError;
use crate::value::{distinct_names, field_map, within_depth, ValueModel};
use crate::value_lemmas::{
    lemma_field_map_has, lemma_field_map_value, lemma_field_order_irrelevant,
};
use crate::wire::{
    envelope_start, tag_major, tag_minor, wire_fields, wire_items, wire_message, wire_name,
    wire_uint, wire_value, MAJOR_ARRAY, MAJOR_CALL, MAJOR_STRUCT, MAJOR_SUCCESS,
};

verus! {

/// Whether an outcome is the refusal of a value that is nested too deeply.
pub open spec fn too_deep<T>(r: Result<T, DecodeError>) -> bool {
    r matches Err(DecodeError::NestingTooDeep { .. })
}

/// A value takes at least its tag byte and never reaches past the end of
/// the buffer.
pub proof fn lemma_value_advances(data: Seq<u8>, pos: int, depth: nat)
    requires
        0 <= pos,
    ensures
        wire_value(data, pos, depth) matches Ok((_, next)) ==> pos < next <= data.len(),
    decreases depth, 0nat,
{
    if pos < data.len() && depth > 0 {
        let tag = data[pos];
        let width = tag_minor(tag) + 1;
        match wire_uint(data, pos + 1, width, 8) {
            Ok((count, start)) => {
                if tag_major(tag) == MAJOR_STRUCT {
                    lemma_fields_advance(data, start, count, (depth - 1) as nat, Seq::empty());
                } else if tag_major(tag) == MAJOR_ARRAY {
                    lemma_items_advance(data, start, count, (depth - 1) as nat, Seq::empty());
                }
            },
            Err(_) => {},
        }
    }
}

/// A row of values never ends before it starts, nor past the end of the
/// buffer.
pub proof fn lemma_items_advance(
    data: Seq<u8>,
    pos: int,
    count: nat,
    depth: nat,
    done: Seq<ValueModel>,
)
    requires
        0 <= pos <= data.len(),
    ensures
        wire_items(data, pos, count, depth, done) matches Ok((_, next)) ==> pos <= next
            <= data.len(),
    decreases depth, count + 1,
{
    if count > 0 {
        lemma_value_advances(data, pos, depth);
        match wire_value(data, pos, depth) {
            Ok((item, next)) => {
                lemma_items_advance(data, next, (count - 1) as nat, depth, done.push(item));
            },
            Err(_) => {},
        }
    }
}

/// A row of fields never ends before it starts, nor past the end of the
/// buffer.
pub proof fn lemma_fields_advance(
    data: Seq<u8>,
    pos: int,
    count: nat,
    depth: nat,
    done: Seq<(Seq<char>, ValueModel)>,
)
    requires
        0 <= pos <= data.len(),
    ensures
        wire_fields(data, pos, count, depth, done) matches Ok((_, next)) ==> pos <= next
            <= data.len(),
    decreases depth, count + 1,
{
    if count > 0 {
        match wire_name(data, pos) {
            Ok((name, at)) => {
                lemma_value_advances(data, at, depth);
                match wire_value(data, at, depth) {
                    Ok((value, next)) => {
                        lemma_fields_advance(
                            data,
                            next,
                            (count - 1) as nat,
                            depth,
                            done.push((name, value)),
                        );
                    },
                    Err(_) => {},
                }
            },
            Err(_) => {},
        }
    }
}

/// A decoded value is nested no deeper than the limit it was decoded
/// under.
pub proof fn lemma_value_within_depth(data: Seq<u8>, pos: int, depth: nat)
    ensures
        wire_value(data, pos, depth) matches Ok((value, _)) ==> within_depth(value, depth),
    decreases depth, 0nat,
{
    if pos < data.len() && depth > 0 {
        let tag = data[pos];
        let width = tag_minor(tag) + 1;
        let below = (depth - 1) as nat;
        match wire_uint(data, pos + 1, width, 8) {
            Ok((count, start)) => {
                if tag_major(tag) == MAJOR_STRUCT {
                    lemma_fields_within_depth(data, start, count, below, Seq::empty());
                    match wire_fields(data, start, count, below, Seq::empty()) {
                        Ok((list, _)) => {
                            assert forall|name: Seq<char>|
                                field_map(list).contains_key(name) implies within_depth(
                                #[trigger] field_map(list)[name],
                                below,
                            ) by {
                                lemma_field_map_has(list, name);
                                lemma_field_map_value(list, name);
                                let field = (name, field_map(list)[name]);
                                let i = choose|i: int| 0 <= i < list.len() && list[i] == field;
                                assert(within_depth(list[i].1, below));
                            }
                        },
                        Err(_) => {},
                    }
                } else if tag_major(tag) == MAJOR_ARRAY {
                    lemma_items_within_depth(data, start, count, below, Seq::empty());
                }
            },
            Err(_) => {},
        }
    }
}

/// [`lemma_value_within_depth`] for a row of values.
pub proof fn lemma_items_within_depth(
    data: Seq<u8>,
    pos: int,
    count: nat,
    depth: nat,
    done: Seq<ValueModel>,
)
    requires
        forall|i: int| 0 <= i < done.len() ==> within_depth(#[trigger] done[i], depth),
    ensures
        wire_items(data, pos, count, depth, done) matches Ok((items, _)) ==> forall|i: int|
            0 <= i < items.len() ==> within_depth(#[trigger] items[i], depth),
    decreases depth, count + 1,
{
    if count > 0 {
        lemma_value_within_depth(data, pos, depth);
        match wire_value(data, pos, depth) {
            Ok((item, next)) => {
                lemma_items_within_depth(data, next, (count - 1) as nat, depth, done.push(item));
            },
            Err(_) => {},
        }
    }
}

/// [`lemma_value_within_depth`] for a row of fields.
pub proof fn lemma_fields_within_depth(
    data: Seq<u8>,
    pos: int,
    count: nat,
    depth: nat,
    done: Seq<(Seq<char>, ValueModel)>,
)
    requires
        forall|i: int| 0 <= i < done.len() ==> within_depth((#[trigger] done[i]).1, depth),
    ensures
        wire_fields(data, pos, count, depth, done) matches Ok((list, _)) ==> forall|i: int|
            0 <= i < list.len() ==> within_depth((#[trigger] list[i]).1, depth),
    decreases depth, count + 1,
{
    if count > 0 {
        match wire_name(data, pos) {
            Ok((name, at)) => {
                lemma_value_within_depth(data, at, depth);
                match wire_value(data, at, depth) {
                    Ok((value, next)) => {
                        lemma_fields_within_depth(
                            data,
                            next,
                            (count - 1) as nat,
                            depth,
                            done.push((name, value)),
                        );
                    },
                    Err(_) => {},
                }
            },
            Err(_) => {},
        }
    }
}

/// Raising the depth limit changes nothing for a value that the lower
/// limit did not refuse as too deep.
pub proof fn lemma_value_depth_monotonic(data: Seq<u8>, pos: int, depth: nat, more: nat)
    requires
        depth <= more,
        !too_deep(wire_value(data, pos, depth)),
    ensures
        wire_value(data, pos, more) == wire_value(data, pos, depth),
    decreases depth, 0nat,
{
    if pos < data.len() && depth > 0 {
        let tag = data[pos];
        let width = tag_minor(tag) + 1;
        match wire_uint(data, pos + 1, width, 8) {
            Ok((count, start)) => {
                if tag_major(tag) == MAJOR_STRUCT {
                    lemma_fields_depth_monotonic(
                        data,
                        start,
                        count,
                        (depth - 1) as nat,
                        (more - 1) as nat,
                        Seq::empty(),
                    );
                } else if tag_major(tag) == MAJOR_ARRAY {
                    lemma_items_depth_monotonic(
                        data,
                        start,
                        count,
                        (depth - 1) as nat,
                        (more - 1) as nat,
                        Seq::empty(),
                    );
                }
            },
            Err(_) => {},
        }
    }
}

/// [`lemma_value_depth_monotonic`] for a row of values.
pub proof fn lemma_items_depth_monotonic(
    data: Seq<u8>,
    pos: int,
    count: nat,
    depth: nat,
    more: nat,
    done: Seq<ValueModel>,
)
    requires
        depth <= more,
        !too_deep(wire_items(data, pos, count, depth, done)),
    ensures
        wire_items(data, pos, count, more, done) == wire_items(data, pos, count, depth, done),
    decreases depth, count + 1,
{
    if count > 0 {
        lemma_value_depth_monotonic(data, pos, depth, more);
        match wire_value(data, pos, depth) {
            Ok((item, next)) => {
                lemma_items_depth_monotonic(
                    data,
                    next,
                    (count - 1) as nat,
                    depth,
                    more,
                    done.push(item),
                );
            },
            Err(_) => {},
        }
    }
}

/// [`lemma_value_depth_monotonic`] for a row of fields.
pub proof fn lemma_fields_depth_monotonic(
    data: Seq<u8>,
    pos: int,
    count: nat,
    depth: nat,
    more: nat,
    done: Seq<(Seq<char>, ValueModel)>,
)
    requires
        depth <= more,
        !too_deep(wire_fields(data, pos, count, depth, done)),
    ensures
        wire_fields(data, pos, count, more, done) == wire_fields(data, pos, count, depth, done),
    decreases depth, count + 1,
{
    if count > 0 {
        match wire_name(data, pos) {
            Ok((name, at)) => {
                lemma_value_depth_monotonic(data, at, depth, more);
                match wire_value(data, at, depth) {
                    Ok((value, next)) => {
                        lemma_fields_depth_monotonic(
                            data,
                            next,
                            (count - 1) as nat,
                            depth,
                            more,
                            done.push((name, value)),
                        );
                    },
                    Err(_) => {},
                }
            },
            Err(_) => {},
        }
    }
}

/// A depth limit as large as the rest of the buffer is never hit: every
/// level of nesting takes at least one byte.
pub proof fn lemma_value_depth_suffices(data: Seq<u8>, pos: int, depth: nat)
    requires
        0 <= pos,
        pos + depth >= data.len(),
    ensures
        !too_deep(wire_value(data, pos, depth)),
    decreases depth, 0nat,
{
    if pos < data.len() {
        let tag = data[pos];
        let width = tag_minor(tag) + 1;
        match wire_uint(data, pos + 1, width, 8) {
            Ok((count, start)) => {
                if tag_major(tag) == MAJOR_STRUCT {
                    lemma_fields_depth_suffices(
                        data,
                        start,
                        count,
                        (depth - 1) as nat,
                        Seq::empty(),
                    );
                } else if tag_major(tag) == MAJOR_ARRAY {
                    lemma_items_depth_suffices(
                        data,
                        start,
                        count,
                        (depth - 1) as nat,
                        Seq::empty(),
                    );
                }
            },
            Err(_) => {},
        }
    }
}

/// [`lemma_value_depth_suffices`] for a row of values.
pub proof fn lemma_items_depth_suffices(
    data: Seq<u8>,
    pos: int,
    count: nat,
    depth: nat,
    done: Seq<ValueModel>,
)
    requires
        0 <= pos,
        pos + depth >= data.len(),
    ensures
        !too_deep(wire_items(data, pos, count, depth, done)),
    decreases depth, count + 1,
{
    if count > 0 {
        lemma_value_depth_suffices(data, pos, depth);
        lemma_value_advances(data, pos, depth);
        match wire_value(data, pos, depth) {
            Ok((item, next)) => {
                lemma_items_depth_suffices(data, next, (count - 1) as nat, depth, done.push(item));
            },
            Err(_) => {},
        }
    }
}

/// [`lemma_value_depth_suffices`] for a row of fields.
pub proof fn lemma_fields_depth_suffices(
    data: Seq<u8>,
    pos: int,
    count: nat,
    depth: nat,
    done: Seq<(Seq<char>, ValueModel)>,
)
    requires
        0 <= pos,
        pos + depth >= data.len(),
    ensures
        !too_deep(wire_fields(data, pos, count, depth, done)),
    decreases depth, count + 1,
{
    if count > 0 {
        match wire_name(data, pos) {
            Ok((name, at)) => {
                lemma_value_depth_suffices(data, at, depth);
                lemma_value_advances(data, at, depth);
                match wire_value(data, at, depth) {
                    Ok((value, next)) => {
                        lemma_fields_depth_suffices(
                            data,
                            next,
                            (count - 1) as nat,
                            depth,
                            done.push((name, value)),
                        );
                    },
                    Err(_) => {},
                }
            },
            Err(_) => {},
        }
    }
}

/// Raising the depth limit changes nothing for a message that the lower
/// limit did not refuse as too deep: a limit only ever turns an outcome
/// into that refusal.
pub proof fn lemma_message_depth_monotonic(data: Seq<u8>, depth: nat, more: nat)
    requires
        depth <= more,
        !too_deep(wire_message(data, depth)),
    ensures
        wire_message(data, more) == wire_message(data, depth),
{
    let pos = envelope_start(data);
    if pos < data.len() {
        if tag_major(data[pos]) == MAJOR_CALL {
            match wire_name(data, pos + 1) {
                Ok((_, at)) => {
                    lemma_value_depth_monotonic(data, at, depth, more);
                },
                Err(_) => {},
            }
        } else if tag_major(data[pos]) == MAJOR_SUCCESS {
            lemma_value_depth_monotonic(data, pos + 1, depth, more);
        }
    }
}

/// With the length of the buffer as its depth limit, a message is never
/// refused as too deep.
pub proof fn lemma_message_depth_suffices(data: Seq<u8>)
    ensures
        !too_deep(wire_message(data, data.len())),
{
    let pos = envelope_start(data);
    if pos < data.len() {
        if tag_major(data[pos]) == MAJOR_CALL {
            match wire_name(data, pos + 1) {
                Ok((_, at)) => {
                    lemma_value_depth_suffices(data, at, data.len());
                },
                Err(_) => {},
            }
        } else if tag_major(data[pos]) == MAJOR_SUCCESS {
            lemma_value_depth_suffices(data, pos + 1, data.len());
        }
    }
}

/// Decoding a struct is independent of the order of its fields: where two
/// buffers hold rows of fields with the same names and values, the first
/// row each name once, the structs decoded from them are equal.
pub proof fn lemma_struct_order_irrelevant(
    data_a: Seq<u8>,
    pos_a: int,
    data_b: Seq<u8>,
    pos_b: int,
    count: nat,
    depth: nat,
)
    requires
        wire_fields(data_a, pos_a, count, depth, Seq::empty()) is Ok,
        wire_fields(data_b, pos_b, count, depth, Seq::empty()) is Ok,
        ({
            let a = wire_fields(data_a, pos_a, count, depth, Seq::empty())->Ok_0.0;
            let b = wire_fields(data_b, pos_b, count, depth, Seq::empty())->Ok_0.0;
            &&& distinct_names(a)
            &&& forall|field: (Seq<char>, ValueModel)| a.contains(field) <==> b.contains(field)
        }),
    ensures
        ValueModel::Struct(
            field_map(wire_fields(data_a, pos_a, count, depth, Seq::empty())->Ok_0.0),
        ) == ValueModel::Struct(
            field_map(wire_fields(data_b, pos_b, count, depth, Seq::empty())->Ok_0.0),
        ),
{
    lemma_field_order_irrelevant(
        wire_fields(data_a, pos_a, count, depth, Seq::empty())->Ok_0.0,
        wire_fields(data_b, pos_b, count, depth, Seq::empty())->Ok_0.0,
    );
}

/// A struct that declares more fields than the buffer holds is refused as
/// truncated: where `held` fields fill the buffer to its very end, asking
/// for more than `held` fails at the end of the buffer, one byte short.
pub proof fn lemma_declared_count_too_large(
    data: Seq<u8>,
    pos: int,
    held: nat,
    declared: nat,
    depth: nat,
    done: Seq<(Seq<char>, ValueModel)>,
)
    requires
        0 <= pos <= data.len(),
        held < declared,
        wire_fields(data, pos, held, depth, done) matches Ok((_, end)) && end == data.len(),
    ensures
        wire_fields(data, pos, declared, depth, done) == Err::<
            (Seq<(Seq<char>, ValueModel)>, int),
            DecodeError,
        >(truncated(data, data.len() as int, 1)),
    decreases held,
{
    if held > 0 {
        match wire_name(data, pos) {
            Ok((name, at)) => {
                lemma_value_advances(data, at, depth);
                match wire_value(data, at, depth) {
                    Ok((value, next)) => {
                        lemma_declared_count_too_large(
                            data,
                            next,
                            (held - 1) as nat,
                            (declared - 1) as nat,
                            depth,
                            done.push((name, value)),
                        );
                    },
                    Err(_) => {},
                }
            },
            Err(_) => {},
        }
    }
}

} // verus!
