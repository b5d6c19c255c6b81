//! The decoded value tree and its mathematical model.
use vstd::prelude::*;
use vstd::set_lib::lemma_subset_equality;
use vstd::std_specs::cmp::PartialEqSpecImpl;
use crate::text::{same_bytes, same_text};
use crate::value_lemmas::{
    lemma_array_model, lemma_field_map_has, lemma_field_map_len, lemma_field_map_lookup,
    lemma_field_map_update,
};

verus! {

/// Mathematical model of a decoded [`Value`].
pub ghost enum ValueModel {
    Integer(int),
    Bool(bool),
    /// The 64 bits of an IEEE-754 double.
    Double(u64),
    Text(Seq<char>),
    Datetime,
    Binary(Seq<u8>),
    Struct(Map<Seq<char>, ValueModel>),
    Array(Seq<ValueModel>),
    Null,
}

/// The mapping that a list of named fields denotes when the fields are
/// inserted one after the other: a later field replaces an earlier one of
/// the same name.
pub open spec fn field_map(fields: Seq<(Seq<char>, ValueModel)>) -> Map<Seq<char>, ValueModel>
    decreases fields.len(),
{
    if fields.len() == 0 {
        Map::empty()
    } else {
        field_map(fields.drop_last()).insert(fields.last().0, fields.last().1)
    }
}

/// No two fields of the list bear the same name.
pub open spec fn distinct_names(fields: Seq<(Seq<char>, ValueModel)>) -> bool {
    forall|i: int, j: int| 0 <= i < j < fields.len() ==> fields[i].0 != fields[j].0
}

/// Some field of the list is called `name`.
pub open spec fn has_name(fields: Seq<(Seq<char>, ValueModel)>, name: Seq<char>) -> bool {
    exists|i: int| 0 <= i < fields.len() && (#[trigger] fields[i]).0 == name
}

/// Whether structs and arrays are nested at most `depth` levels deep in
/// `value`: a plain value has no level, a struct or an array has one level
/// more than the deepest of the values it holds.
pub open spec fn within_depth(value: ValueModel, depth: nat) -> bool
    decreases depth,
{
    match value {
        ValueModel::Struct(fields) => depth > 0 && forall|name: Seq<char>|
            fields.contains_key(name) ==> within_depth(#[trigger] fields[name], (depth - 1) as nat),
        ValueModel::Array(items) => depth > 0 && forall|i: int|
            0 <= i < items.len() ==> within_depth(#[trigger] items[i], (depth - 1) as nat),
        _ => true,
    }
}

/// A decoded FastRPC value. A value owns everything below it.
///
/// Two values are equal with `==` if they have the same model: structs are
/// compared as mappings, so the order of their fields does not count.
#[derive(Debug)]
pub enum Value {
    /// A signed integer of up to 64 bits.
    Integer(i64),
    /// A boolean.
    Bool(bool),
    /// A double, held as its 64 bits in IEEE-754 layout. The bits are kept
    /// as they came; turning them into a floating-point number is left to
    /// the caller.
    Double(u64),
    /// A text.
    Text(String),
    /// A datetime. The decoder never yields one: see
    /// [`crate::error::DecodeError::Unsupported`].
    Datetime,
    /// A string of raw bytes.
    Binary(Vec<u8>),
    /// Named fields.
    Struct(StructFields),
    /// Values in a fixed order.
    Array(Vec<Value>),
    /// The null value.
    Null,
}

/// The fields of a struct: a mapping from names to values in which every
/// name occurs once.
///
/// Fields are kept in the order in which their names first came. The order
/// shows in [`StructFields::entry`] and nowhere else: lookup and `==` go by
/// the mapping. Names are compared one by one, so a lookup or an insertion
/// takes time in proportion to the number of fields.
#[derive(Debug)]
pub struct StructFields {
    entries: Vec<(String, Value)>,
}

/// A decoded message envelope.
#[derive(Debug)]
pub enum RPC {
    /// A method call: the method's name and its argument.
    Call(String, Value),
    /// A successful response and its result.
    Success(Value),
    /// A fault response: its code and its message.
    Fault(i32, String),
}

/// Mathematical model of an [`RPC`].
pub ghost enum RpcModel {
    Call(Seq<char>, ValueModel),
    Success(ValueModel),
    Fault(int, Seq<char>),
}

impl View for RPC {
    type V = RpcModel;

    open spec fn view(&self) -> RpcModel {
        match self {
            RPC::Call(method, argument) => RpcModel::Call(method@, argument@),
            RPC::Success(result) => RpcModel::Success(result@),
            RPC::Fault(code, message) => RpcModel::Fault(*code as int, message@),
        }
    }
}

impl View for Value {
    type V = ValueModel;

    open spec fn view(&self) -> ValueModel
        decreases self, 0nat,
    {
        match self {
            Value::Integer(i) => ValueModel::Integer(*i as int),
            Value::Bool(b) => ValueModel::Bool(*b),
            Value::Double(bits) => ValueModel::Double(*bits),
            Value::Text(s) => ValueModel::Text(s@),
            Value::Datetime => ValueModel::Datetime,
            Value::Binary(b) => ValueModel::Binary(b@),
            Value::Struct(fields) => ValueModel::Struct(fields@),
            Value::Array(items) => ValueModel::Array(
                Seq::new(
                    items@.len(),
                    |i: int|
                        if 0 <= i < items@.len() {
                            items@[i]@
                        } else {
                            ValueModel::Null
                        },
                ),
            ),
            Value::Null => ValueModel::Null,
        }
    }
}

impl View for StructFields {
    type V = Map<Seq<char>, ValueModel>;

    open spec fn view(&self) -> Map<Seq<char>, ValueModel>
        decreases self, 1nat,
    {
        field_map(self.pairs())
    }
}

impl StructFields {
    /// The fields as a list of names and values, in the order in which
    /// they are kept.
    pub closed spec fn pairs(&self) -> Seq<(Seq<char>, ValueModel)>
        decreases self, 0nat,
    {
        Seq::new(
            self.entries@.len(),
            |i: int|
                if 0 <= i < self.entries@.len() {
                    (self.entries@[i].0@, self.entries@[i].1@)
                } else {
                    (Seq::empty(), ValueModel::Null)
                },
        )
    }

    #[verifier::type_invariant]
    spec fn names_occur_once(&self) -> bool {
        forall|i: int, j: int|
            0 <= i < j < self.entries@.len() ==> self.entries@[i].0@ != self.entries@[j].0@
    }

    /// An empty collection.
    pub fn new() -> (fields: Self)
        ensures
            fields@ == Map::<Seq<char>, ValueModel>::empty(),
            fields.pairs() == Seq::<(Seq<char>, ValueModel)>::empty(),
    {
        let fields = StructFields { entries: Vec::new() };
        assert(fields.pairs() =~= Seq::empty());
        fields
    }

    /// Number of fields, which is the number of names.
    pub fn len(&self) -> (n: usize)
        ensures
            n == self.pairs().len(),
            n == self@.dom().len(),
            self@.dom().finite(),
            distinct_names(self.pairs()),
    {
        proof {
            use_type_invariant(self);
            lemma_field_map_len(self.pairs());
        }
        self.entries.len()
    }

    /// The field at index `i` in the order in which the fields are kept.
    pub fn entry(&self, i: usize) -> (field: (&str, &Value))
        requires
            i < self.pairs().len(),
        ensures
            field.0@ == self.pairs()[i as int].0,
            field.1@ == self.pairs()[i as int].1,
            self@.contains_key(field.0@),
            self@[field.0@] == field.1@,
    {
        proof {
            use_type_invariant(self);
            lemma_field_map_lookup(self.pairs(), i as int);
        }
        (self.entries[i].0.as_str(), &self.entries[i].1)
    }

    /// Index of the field called `name`, if there is one.
    fn position(&self, name: &str) -> (found: Option<usize>)
        ensures
            match found {
                Some(k) => k < self.pairs().len() && self.pairs()[k as int].0 == name@,
                None => !has_name(self.pairs(), name@),
            },
    {
        let mut k: usize = 0;
        while k < self.entries.len()
            invariant
                k <= self.entries.len(),
                forall|i: int| 0 <= i < k ==> (#[trigger] self.pairs()[i]).0 != name@,
            decreases self.entries.len() - k,
        {
            if same_text(self.entries[k].0.as_str(), name) {
                return Some(k);
            }
            k += 1;
        }
        None
    }

    /// The value of the field called `name`, if there is one.
    pub fn get(&self, name: &str) -> (found: Option<&Value>)
        ensures
            match found {
                Some(value) => self@.contains_key(name@) && value@ == self@[name@],
                None => !self@.contains_key(name@),
            },
    {
        proof {
            use_type_invariant(self);
            lemma_field_map_has(self.pairs(), name@);
        }
        match self.position(name) {
            Some(k) => {
                proof {
                    lemma_field_map_lookup(self.pairs(), k as int);
                }
                Some(&self.entries[k].1)
            },
            None => None,
        }
    }

    /// Adds the field `name`, replacing the value of an existing field of
    /// that name.
    pub fn insert(&mut self, name: String, value: Value)
        ensures
            final(self)@ == old(self)@.insert(name@, value@),
    {
        let found = self.position(name.as_str());
        proof {
            use_type_invariant(&*self);
        }
        let ghost before = self.pairs();
        let ghost added = (name@, value@);
        let mut entries: Vec<(String, Value)> = Vec::new();
        core::mem::swap(&mut self.entries, &mut entries);
        assert(forall|i: int| 0 <= i < before.len() ==> before[i].0 == (#[trigger] entries@[i]).0@);
        match found {
            Some(k) => {
                entries.set(k, (name, value));
                proof {
                    lemma_field_map_update(before, k as int, added.1);
                }
            },
            None => {
                entries.push((name, value));
            },
        }
        core::mem::swap(&mut self.entries, &mut entries);
        proof {
            match found {
                Some(k) => {
                    assert(self.pairs() =~= before.update(k as int, added));
                },
                None => {
                    assert(self.pairs() =~= before.push(added));
                    assert(self.pairs().drop_last() =~= before);
                },
            }
        }
    }

    /// Whether two collections hold the same fields, in whatever order.
    pub fn same_as(&self, other: &StructFields) -> (same: bool)
        ensures
            same == (self@ == other@),
        decreases self,
    {
        proof {
            use_type_invariant(self);
            use_type_invariant(other);
            lemma_field_map_len(self.pairs());
            lemma_field_map_len(other.pairs());
        }
        if self.entries.len() != other.entries.len() {
            return false;
        }
        let mut i: usize = 0;
        while i < self.entries.len()
            invariant
                i <= self.entries@.len() == self.pairs().len(),
                distinct_names(self.pairs()),
                forall|k: int|
                    0 <= k < i ==> other@.contains_key((#[trigger] self.pairs()[k]).0)
                        && other@[self.pairs()[k].0] == self.pairs()[k].1,
            decreases self.entries@.len() - i,
        {
            proof {
                lemma_field_map_lookup(self.pairs(), i as int);
            }
            match other.get(self.entries[i].0.as_str()) {
                Some(value) => {
                    if !self.entries[i].1.same_as(value) {
                        return false;
                    }
                },
                None => {
                    return false;
                },
            }
            i += 1;
        }
        proof {
            assert forall|name: Seq<char>| #[trigger]
                self@.dom().contains(name) implies other@.dom().contains(name) && other@[name]
                == self@[name] by {
                lemma_field_map_has(self.pairs(), name);
                let k = choose|k: int|
                    0 <= k < self.pairs().len() && (#[trigger] self.pairs()[k]).0 == name;
                lemma_field_map_lookup(self.pairs(), k);
            }
            assert(self@.dom().subset_of(other@.dom()));
            lemma_subset_equality(self@.dom(), other@.dom());
            assert(self@ =~= other@);
        }
        true
    }
}

impl Value {
    /// Whether two values are equal. Structs are compared as mappings, so
    /// the order of their fields does not count.
    pub fn same_as(&self, other: &Value) -> (same: bool)
        ensures
            same == (self@ == other@),
        decreases self,
    {
        match (self, other) {
            (Value::Integer(a), Value::Integer(b)) => *a == *b,
            (Value::Bool(a), Value::Bool(b)) => *a == *b,
            (Value::Double(a), Value::Double(b)) => *a == *b,
            (Value::Text(a), Value::Text(b)) => same_text(a.as_str(), b.as_str()),
            (Value::Datetime, Value::Datetime) => true,
            (Value::Binary(a), Value::Binary(b)) => same_bytes(a.as_slice(), b.as_slice()),
            (Value::Struct(a), Value::Struct(b)) => a.same_as(b),
            (Value::Array(a), Value::Array(b)) => same_items(a, b),
            (Value::Null, Value::Null) => true,
            _ => false,
        }
    }
}

/// Whether two arrays hold equal values in the same order.
fn same_items(a: &Vec<Value>, b: &Vec<Value>) -> (same: bool)
    ensures
        same == (Value::Array(*a)@ == Value::Array(*b)@),
    decreases a,
{
    let ghost left = Value::Array(*a)@->Array_0;
    let ghost right = Value::Array(*b)@->Array_0;
    proof {
        lemma_array_model(*a);
        lemma_array_model(*b);
    }
    if a.len() != b.len() {
        assert(left.len() != right.len());
        return false;
    }
    let mut i: usize = 0;
    while i < a.len()
        invariant
            i <= a@.len() == b@.len(),
            left == Value::Array(*a)@->Array_0,
            right == Value::Array(*b)@->Array_0,
            left.len() == a@.len(),
            forall|k: int| 0 <= k < a@.len() ==> left[k] == (#[trigger] a@[k])@,
            forall|k: int| 0 <= k < b@.len() ==> right[k] == (#[trigger] b@[k])@,
            forall|k: int| 0 <= k < i ==> left[k] == right[k],
        decreases a@.len() - i,
    {
        if !a[i].same_as(&b[i]) {
            assert(left[i as int] != right[i as int]);
            return false;
        }
        i += 1;
    }
    assert(left =~= right);
    true
}

impl RPC {
    /// Whether two envelopes are equal.
    pub fn same_as(&self, other: &RPC) -> (same: bool)
        ensures
            same == (self@ == other@),
    {
        match (self, other) {
            (RPC::Call(m, a), RPC::Call(n, b)) => same_text(m.as_str(), n.as_str()) && a.same_as(
                b,
            ),
            (RPC::Success(a), RPC::Success(b)) => a.same_as(b),
            (RPC::Fault(c, m), RPC::Fault(d, n)) => *c == *d && same_text(m.as_str(), n.as_str()),
            _ => false,
        }
    }
}

impl PartialEq for Value {
    fn eq(&self, other: &Value) -> (same: bool) {
        self.same_as(other)
    }
}

impl PartialEqSpecImpl for Value {
    open spec fn obeys_eq_spec() -> bool {
        true
    }

    open spec fn eq_spec(&self, other: &Value) -> bool {
        self@ == other@
    }
}

impl PartialEq for StructFields {
    fn eq(&self, other: &StructFields) -> (same: bool) {
        self.same_as(other)
    }
}

impl PartialEqSpecImpl for StructFields {
    open spec fn obeys_eq_spec() -> bool {
        true
    }

    open spec fn eq_spec(&self, other: &StructFields) -> bool {
        self@ == other@
    }
}

impl PartialEq for RPC {
    fn eq(&self, other: &RPC) -> (same: bool) {
        self.same_as(other)
    }
}

impl PartialEqSpecImpl for RPC {
    open spec fn obeys_eq_spec() -> bool {
        true
    }

    open spec fn eq_spec(&self, other: &RPC) -> bool {
        self@ == other@
    }
}

} // verus!
