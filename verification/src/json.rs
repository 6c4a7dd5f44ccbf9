//! A JSON document as the library reads it: the values of a parsed JSON
//! text, with each number kept as the `u64` and `i64` it converts to
//! exactly (if any).  Object members keep their order.

use vstd::prelude::*;


verus! {

/// A JSON number: its value as a `u64` and as an `i64`, where it has one.
pub struct JsonNumber {
    pub as_u64: Option<u64>,
    pub as_i64: Option<i64>,
}

/// A JSON value.
pub enum JsonValue {
    Null,
    Bool(bool),
    Number(JsonNumber),
    Str(String),
    Array(Vec<JsonValue>),
    Object(Vec<(String, JsonValue)>),
}

/// Position of the first member named `key` of an object's members.
pub open spec fn spec_member_index(members: Seq<(String, JsonValue)>, key: Seq<char>) -> Option<int>
    decreases members.len(),
{
    if members.len() == 0 {
        None
    } else if members[0].0@ == key {
        Some(0)
    } else {
        match spec_member_index(members.drop_first(), key) {
            Some(i) => Some(i + 1),
            None => None,
        }
    }
}

/// `value[key]`: the first member named `key` of an object, and `Null` for
/// a missing member or a value that is not an object.
pub open spec fn spec_get(value: JsonValue, key: Seq<char>) -> JsonValue {
    match value {
        JsonValue::Object(members) => match spec_member_index(members@, key) {
            Some(i) => members@[i].1,
            None => JsonValue::Null,
        },
        _ => JsonValue::Null,
    }
}

pub proof fn lemma_member_index(members: Seq<(String, JsonValue)>, key: Seq<char>)
    ensures
        spec_member_index(members, key) matches Some(i) ==> 0 <= i < members.len()
            && members[i].0@ == key && forall|j: int| 0 <= j < i ==> members[j].0@ != key,
        spec_member_index(members, key) is None ==> forall|j: int|
            0 <= j < members.len() ==> members[j].0@ != key,
    decreases members.len(),
{
    if members.len() > 0 && members[0].0@ != key {
        lemma_member_index(members.drop_first(), key);
        assert forall|j: int| 1 <= j < members.len() implies members[j] == members.drop_first()[j - 1] by {}
    }
}

/// The member `key` of `value` (see [`spec_get`]).
pub fn json_get<'a>(value: &'a JsonValue, key: &str) -> (r: &'a JsonValue)
    ensures
        *r == spec_get(*value, key@),
{
    match value {
        JsonValue::Object(members) => {
            let k = String::from_str(key);
            let mut i: usize = 0;
            while i < members.len()
                invariant
                    i <= members@.len(),
                    forall|j: int| 0 <= j < i ==> members@[j].0@ != k@,
                    k@ == key@,
                    *value == JsonValue::Object(*members),
                decreases members@.len() - i,
            {
                if members[i].0 == k {
                    proof {
                        lemma_member_index(members@, key@);
                        assert(spec_member_index(members@, key@) == Some(i as int));
                    }
                    return &members[i].1;
                }
                i += 1;
            }
            proof {
                lemma_member_index(members@, key@);
            }
            &JsonValue::Null
        },
        _ => &JsonValue::Null,
    }
}

/// `Value::as_u64`.
pub open spec fn spec_as_u64(value: JsonValue) -> Option<u64> {
    match value {
        JsonValue::Number(n) => n.as_u64,
        _ => None,
    }
}

/// `Value::as_i64`.
pub open spec fn spec_as_i64(value: JsonValue) -> Option<i64> {
    match value {
        JsonValue::Number(n) => n.as_i64,
        _ => None,
    }
}

pub fn json_as_u64(value: &JsonValue) -> (r: Option<u64>)
    ensures
        r == spec_as_u64(*value),
{
    match value {
        JsonValue::Number(n) => n.as_u64,
        _ => None,
    }
}

pub fn json_as_i64(value: &JsonValue) -> (r: Option<i64>)
    ensures
        r == spec_as_i64(*value),
{
    match value {
        JsonValue::Number(n) => n.as_i64,
        _ => None,
    }
}

/// The strings among the items of an array (`filter_map(as_str)`).
pub open spec fn spec_strings_of(items: Seq<JsonValue>) -> Seq<Seq<char>>
    decreases items.len(),
{
    if items.len() == 0 {
        Seq::empty()
    } else {
        match items.last() {
            JsonValue::Str(s) => spec_strings_of(items.drop_last()).push(s@),
            _ => spec_strings_of(items.drop_last()),
        }
    }
}

pub fn strings_of(items: &Vec<JsonValue>) -> (r: Vec<String>)
    ensures
        r@.map_values(|s: String| s@) == spec_strings_of(items@),
{
    let mut r: Vec<String> = Vec::new();
    let mut i: usize = 0;
    while i < items.len()
        invariant
            i <= items@.len(),
            r@.map_values(|s: String| s@) == spec_strings_of(items@.take(i as int)),
        decreases items@.len() - i,
    {
        assert(items@.take(i + 1).drop_last() =~= items@.take(i as int));
        match &items[i] {
            JsonValue::Str(s) => {
                r.push(s.clone());
                assert(r@.map_values(|s: String| s@) =~= spec_strings_of(items@.take(i + 1)));
            },
            _ => {},
        }
        i += 1;
    }
    assert(items@.take(items@.len() as int) =~= items@);
    r
}

} // verus!
