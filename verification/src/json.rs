//! Structured values as the plugin protocol carries them (protobuf `Struct` and
//! `Value`), and their conversion to JSON values.
//!
//! Numbers are held as the bits of their IEEE-754 double, so that values can be
//! carried and compared as integers; a number that is infinite or not a number
//! has no JSON form and becomes `null`.
use vstd::prelude::*;

verus! {

/// A protobuf `Value`: the kind of value it holds, if any.
pub struct ProtoValue {
    pub kind: Option<ProtoKind>,
}

/// The kinds of protobuf values.
pub enum ProtoKind {
    NullValue,
    /// A double, by the bits of its IEEE-754 encoding.
    NumberValue(u64),
    StringValue(String),
    BoolValue(bool),
    StructValue(ProtoStruct),
    ListValue(Vec<ProtoValue>),
}

/// A protobuf `Struct`: named values, in key order.
pub struct ProtoStruct {
    pub fields: Vec<(String, ProtoValue)>,
}

/// A JSON value.
pub enum JsonValue {
    Null,
    Bool(bool),
    /// A finite double, by the bits of its IEEE-754 encoding.
    Number(u64),
    String(String),
    Array(Vec<JsonValue>),
    Object(Vec<(String, JsonValue)>),
}

/// Whether the double with these bits is finite: its exponent field is not all ones.
pub open spec fn finite_bits(bits: u64) -> bool {
    (bits >> 52u64) & 0x7ffu64 != 0x7ffu64
}

/// `j` is the JSON form of the protobuf value `v`: a value without a kind and a
/// number that is not finite become `null`, every other kind the JSON value of
/// the same shape.
pub open spec fn value_json(v: ProtoValue, j: JsonValue) -> bool
    decreases v,
{
    match v.kind {
        None => j is Null,
        Some(k) => match k {
            ProtoKind::NullValue => j is Null,
            ProtoKind::NumberValue(bits) => if finite_bits(bits) {
                j == JsonValue::Number(bits)
            } else {
                j is Null
            },
            ProtoKind::StringValue(s) => j matches JsonValue::String(t) && t@ == s@,
            ProtoKind::BoolValue(b) => j == JsonValue::Bool(b),
            ProtoKind::StructValue(st) => j matches JsonValue::Object(entries) && entries.len()
                == st.fields.len() && forall|i: int|
                0 <= i < st.fields.len() ==> #[trigger] entries@[i].0@ == st.fields@[i].0@
                    && value_json(st.fields@[i].1, entries@[i].1),
            ProtoKind::ListValue(items) => j matches JsonValue::Array(js) && js.len()
                == items.len() && forall|i: int|
                0 <= i < items.len() ==> value_json(#[trigger] items@[i], js@[i]),
        },
    }
}

/// `j` is the JSON object of the protobuf struct `s`: the same keys in the same
/// order, each with the JSON form of its value.
pub open spec fn struct_json(s: ProtoStruct, j: JsonValue) -> bool {
    value_json(ProtoValue { kind: Some(ProtoKind::StructValue(s)) }, j)
}

/// The value of the last field named `key`, as a map built from the fields in
/// order holds it.
pub open spec fn lookup(entries: Seq<(String, JsonValue)>, key: Seq<char>) -> Option<JsonValue>
    decreases entries.len(),
{
    if entries.len() == 0 {
        None
    } else if entries.last().0@ == key {
        Some(entries.last().1)
    } else {
        lookup(entries.drop_last(), key)
    }
}

fn is_finite(bits: u64) -> (b: bool)
    ensures
        b == finite_bits(bits),
{
    (bits >> 52u64) & 0x7ffu64 != 0x7ffu64
}

fn copy_string(s: &String) -> (r: String)
    ensures
        r@ == s@,
{
    s.clone()
}

/// The JSON form of a protobuf value.
pub fn to_value(v: &ProtoValue) -> (j: JsonValue)
    ensures
        value_json(*v, j),
    decreases v,
{
    match &v.kind {
        None => JsonValue::Null,
        Some(kind) => match kind {
            ProtoKind::NullValue => JsonValue::Null,
            ProtoKind::NumberValue(bits) => if is_finite(*bits) {
                JsonValue::Number(*bits)
            } else {
                JsonValue::Null
            },
            ProtoKind::StringValue(s) => JsonValue::String(copy_string(s)),
            ProtoKind::BoolValue(b) => JsonValue::Bool(*b),
            ProtoKind::StructValue(s) => to_object(s),
            ProtoKind::ListValue(items) => {
                let mut js: Vec<JsonValue> = Vec::new();
                let mut i: usize = 0;
                while i < items.len()
                    invariant
                        i <= items.len(),
                        js.len() == i,
                        v.kind == Some(ProtoKind::ListValue(*items)),
                        forall|k: int| 0 <= k < i ==> value_json(#[trigger] items@[k], js@[k]),
                    decreases items.len() - i,
                {
                    assert(decreases_to!(v.kind->0->ListValue_0 => v.kind->0->ListValue_0@));
                    let j = to_value(&items[i]);
                    js.push(j);
                    i += 1;
                }
                JsonValue::Array(js)
            },
        },
    }
}

/// The JSON object of a protobuf struct.
pub fn to_object(s: &ProtoStruct) -> (j: JsonValue)
    ensures
        struct_json(*s, j),
    decreases s,
{
    let mut entries: Vec<(String, JsonValue)> = Vec::new();
    let mut i: usize = 0;
    while i < s.fields.len()
        invariant
            i <= s.fields.len(),
            entries.len() == i,
            forall|k: int|
                0 <= k < i ==> #[trigger] entries@[k].0@ == s.fields@[k].0@ && value_json(
                    s.fields@[k].1,
                    entries@[k].1,
                ),
        decreases s.fields.len() - i,
    {
        let (key, value) = &s.fields[i];
        assert(decreases_to!(*s => s.fields@[i as int].1));
        let j = to_value(value);
        entries.push((copy_string(key), j));
        i += 1;
    }
    JsonValue::Object(entries)
}

/// The value of the last entry named `key`.
pub fn get<'a>(entries: &'a Vec<(String, JsonValue)>, key: &str) -> (r: Option<&'a JsonValue>)
    ensures
        match r {
            Some(v) => lookup(entries@, key@) == Some(*v),
            None => lookup(entries@, key@) is None,
        },
{
    let k = String::from_str(key);
    let mut i = entries.len();
    assert(entries@.take(i as int) =~= entries@);
    while i > 0
        invariant
            i <= entries.len(),
            lookup(entries@, key@) == lookup(entries@.take(i as int), key@),
            k@ == key@,
        decreases i,
    {
        let ghost prefix = entries@.take(i as int);
        assert(prefix.drop_last() =~= entries@.take(i - 1));
        assert(prefix.last() == entries@[i - 1]);
        if entries[i - 1].0 == k {
            return Some(&entries[i - 1].1);
        }
        i -= 1;
    }
    None
}

} // verus!
