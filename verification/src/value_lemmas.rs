//! Facts about the models of structs and arrays.
use vstd::prelude::*;
use crate::value::{distinct_names, field_map, has_name, Value, ValueModel};

verus! {

/// The model of an array is made of the models of its items, in their
/// order.
pub proof fn lemma_array_model(items: Vec<Value>)
    ensures
        Value::Array(items)@ is Array,
        Value::Array(items)@->Array_0.len() == items@.len(),
        forall|k: int|
            0 <= k < items@.len() ==> Value::Array(items)@->Array_0[k] == (#[trigger] items@[k])@,
{
    let models = Seq::new(items@.len(), |i: int| items@[i]@);
    assert(forall|k: int| 0 <= k < models.len() ==> (#[trigger] items@[k])@ == models[k]);
    assert(Value::Array(items)@->Array_0 =~= models);
}

/// The names of a field list are the keys of its mapping.
pub proof fn lemma_field_map_has(fields: Seq<(Seq<char>, ValueModel)>, name: Seq<char>)
    ensures
        field_map(fields).contains_key(name) <==> has_name(fields, name),
    decreases fields.len(),
{
    if fields.len() > 0 {
        let front = fields.drop_last();
        lemma_field_map_has(front, name);
        if has_name(front, name) {
            let i = choose|i: int| 0 <= i < front.len() && (#[trigger] front[i]).0 == name;
            assert(fields[i] == front[i]);
        }
        if has_name(fields, name) {
            let i = choose|i: int| 0 <= i < fields.len() && (#[trigger] fields[i]).0 == name;
            if i < front.len() {
                assert(front[i] == fields[i]);
            }
        }
        if fields.last().0 == name {
            assert(fields[fields.len() - 1].0 == name);
        }
    }
}

/// In a list where every name occurs once, looking a name up in the
/// mapping gives the value that stands beside that name in the list,
/// wherever in the list it stands.
pub proof fn lemma_field_map_lookup(fields: Seq<(Seq<char>, ValueModel)>, i: int)
    requires
        distinct_names(fields),
        0 <= i < fields.len(),
    ensures
        field_map(fields).contains_key(fields[i].0),
        field_map(fields)[fields[i].0] == fields[i].1,
    decreases fields.len(),
{
    if i < fields.len() - 1 {
        let front = fields.drop_last();
        assert(front[i] == fields[i]);
        lemma_field_map_lookup(front, i);
        assert(fields[i].0 != fields[fields.len() - 1].0);
    }
}

/// A list where every name occurs once denotes a mapping with as many keys
/// as the list has fields.
pub proof fn lemma_field_map_len(fields: Seq<(Seq<char>, ValueModel)>)
    requires
        distinct_names(fields),
    ensures
        field_map(fields).dom().finite(),
        field_map(fields).dom().len() == fields.len(),
    decreases fields.len(),
{
    if fields.len() > 0 {
        let front = fields.drop_last();
        let last = fields.last();
        lemma_field_map_len(front);
        lemma_field_map_has(front, last.0);
        if has_name(front, last.0) {
            let i = choose|i: int| 0 <= i < front.len() && (#[trigger] front[i]).0 == last.0;
            assert(fields[i] == front[i]);
        }
        assert(field_map(fields).dom() =~= field_map(front).dom().insert(last.0));
    }
}

/// Replacing the value of the field at index `k` of a list where every
/// name occurs once has the effect of a map insertion.
pub proof fn lemma_field_map_update(fields: Seq<(Seq<char>, ValueModel)>, k: int, value: ValueModel)
    requires
        0 <= k < fields.len(),
        distinct_names(fields),
    ensures
        field_map(fields.update(k, (fields[k].0, value))) == field_map(fields).insert(
            fields[k].0,
            value,
        ),
    decreases fields.len(),
{
    let updated = fields.update(k, (fields[k].0, value));
    if k == fields.len() - 1 {
        assert(updated.drop_last() =~= fields.drop_last());
        assert(field_map(updated) =~= field_map(fields).insert(fields[k].0, value));
    } else {
        lemma_field_map_update(fields.drop_last(), k, value);
        assert(updated.drop_last() =~= fields.drop_last().update(k, (fields[k].0, value)));
        assert(fields.drop_last()[k] == fields[k]);
        assert(updated.last() == fields.last());
        assert(fields.last().0 != fields[k].0);
        assert(field_map(updated) =~= field_map(fields).insert(fields[k].0, value));
    }
}

/// Looking a name up in the mapping of a field list gives the value of
/// some field of that name.
pub proof fn lemma_field_map_value(fields: Seq<(Seq<char>, ValueModel)>, name: Seq<char>)
    requires
        has_name(fields, name),
    ensures
        field_map(fields).contains_key(name),
        fields.contains((name, field_map(fields)[name])),
    decreases fields.len(),
{
    lemma_field_map_has(fields, name);
    let last = fields.last();
    if last.0 == name {
        assert(fields[fields.len() - 1] == (name, field_map(fields)[name]));
    } else {
        let front = fields.drop_last();
        let i = choose|i: int| 0 <= i < fields.len() && (#[trigger] fields[i]).0 == name;
        assert(front[i] == fields[i]);
        lemma_field_map_value(front, name);
        let j = choose|j: int|
            0 <= j < front.len() && front[j] == (name, field_map(front)[name]);
        assert(fields[j] == front[j]);
    }
}

/// The mapping of a struct does not depend on the order of its fields: two
/// field lists that hold the same fields, the first of them each name
/// once, denote the same mapping, so that every lookup gives the same
/// answer on both.
pub proof fn lemma_field_order_irrelevant(
    a: Seq<(Seq<char>, ValueModel)>,
    b: Seq<(Seq<char>, ValueModel)>,
)
    requires
        distinct_names(a),
        forall|field: (Seq<char>, ValueModel)| a.contains(field) <==> b.contains(field),
    ensures
        field_map(a) == field_map(b),
{
    assert forall|name: Seq<char>| field_map(a).contains_key(name) <==> field_map(
        b,
    ).contains_key(name) by {
        lemma_field_map_has(a, name);
        lemma_field_map_has(b, name);
        if has_name(a, name) {
            let i = choose|i: int| 0 <= i < a.len() && (#[trigger] a[i]).0 == name;
            assert(a.contains(a[i]));
            let j = choose|j: int| 0 <= j < b.len() && b[j] == a[i];
            assert(b[j].0 == name);
        }
        if has_name(b, name) {
            let j = choose|j: int| 0 <= j < b.len() && (#[trigger] b[j]).0 == name;
            assert(b.contains(b[j]));
            let i = choose|i: int| 0 <= i < a.len() && a[i] == b[j];
            assert(a[i].0 == name);
        }
    }
    assert forall|name: Seq<char>| field_map(a).contains_key(name) implies field_map(a)[name]
        == field_map(b)[name] by {
        lemma_field_map_has(b, name);
        lemma_field_map_value(b, name);
        let field = (name, field_map(b)[name]);
        assert(a.contains(field));
        let i = choose|i: int| 0 <= i < a.len() && a[i] == field;
        lemma_field_map_lookup(a, i);
    }
    assert(field_map(a) =~= field_map(b));
}

} // verus!
