//! JSON values as the forwarder reads and edits them.
use vstd::prelude::*;

use crate::felt::Felt;
use crate::origin::text_eq;

verus! {

/// A JSON number: an unsigned 64-bit integer, or any other number by its text.
#[derive(Debug, PartialEq)]
pub enum JsonNumber {
    Unsigned(u64),
    Other(String),
}

/// A JSON value. Object members keep their order; a key is looked up at its first member.
#[derive(Debug, PartialEq)]
pub enum JsonValue {
    Null,
    Bool(bool),
    Number(JsonNumber),
    Str(String),
    Array(Vec<JsonValue>),
    Object(Vec<(String, JsonValue)>),
}

/// The text of a string value.
pub open spec fn str_of(v: JsonValue) -> Option<Seq<char>> {
    match v {
        JsonValue::Str(s) => Some(s@),
        _ => None,
    }
}

/// The value of an unsigned integer.
pub open spec fn u64_of(v: JsonValue) -> Option<u64> {
    match v {
        JsonValue::Number(JsonNumber::Unsigned(n)) => Some(n),
        _ => None,
    }
}

/// Position `i` holds the first member named `key`.
pub open spec fn is_first_member(members: Seq<(String, JsonValue)>, key: Seq<char>, i: int) -> bool {
    &&& 0 <= i < members.len()
    &&& members[i].0@ == key
    &&& forall|j: int| 0 <= j < i ==> members[j].0@ != key
}

/// Some member is named `key`.
pub open spec fn has_member(members: Seq<(String, JsonValue)>, key: Seq<char>) -> bool {
    exists|i: int| 0 <= i < members.len() && members[i].0@ == key
}

/// The position of the first member named `key` (meaningful when `has_member`).
pub open spec fn first_member(members: Seq<(String, JsonValue)>, key: Seq<char>) -> int {
    choose|i: int| is_first_member(members, key, i)
}

/// The value of the first member named `key`, if any.
pub open spec fn member_value(members: Seq<(String, JsonValue)>, key: Seq<char>) -> Option<JsonValue> {
    if has_member(members, key) {
        Some(members[first_member(members, key)].1)
    } else {
        None
    }
}

/// The value under `key` when `v` is an object.
pub open spec fn member_of(v: JsonValue, key: Seq<char>) -> Option<JsonValue> {
    match v {
        JsonValue::Object(members) => member_value(members@, key),
        _ => None,
    }
}

/// A member named `key` has a first position.
pub proof fn lemma_first_member(members: Seq<(String, JsonValue)>, key: Seq<char>)
    requires
        has_member(members, key),
    ensures
        is_first_member(members, key, first_member(members, key)),
    decreases members.len(),
{
    let d = members.drop_last();
    if has_member(d, key) {
        lemma_first_member(d, key);
        let q = first_member(d, key);
        assert(is_first_member(members, key, q)) by {
            assert(members[q] == d[q]);
            assert forall|j: int| 0 <= j < q implies members[j].0@ != key by {
                assert(members[j] == d[j]);
            }
        }
    } else {
        let q = members.len() - 1;
        assert(is_first_member(members, key, q)) by {
            let i = choose|i: int| 0 <= i < members.len() && members[i].0@ == key;
            if i < q {
                assert(d[i] == members[i]);
            }
            assert forall|j: int| 0 <= j < q implies members[j].0@ != key by {
                assert(members[j] == d[j]);
                if members[j].0@ == key {
                    assert(has_member(d, key));
                }
            }
        }
    }
}

/// The position of the first member named `key`, if any.
pub fn member_position(members: &Vec<(String, JsonValue)>, key: &str) -> (r: Option<usize>)
    ensures
        r is Some <==> has_member(members@, key@),
        r matches Some(i) ==> i == first_member(members@, key@) && is_first_member(members@, key@, i as int),
{
    let mut i: usize = 0;
    while i < members.len()
        invariant
            i <= members@.len(),
            forall|j: int| 0 <= j < i ==> members@[j].0@ != key@,
        decreases members@.len() - i,
    {
        if text_eq(members[i].0.as_str(), key) {
            proof {
                assert(is_first_member(members@, key@, i as int));
                lemma_first_member(members@, key@);
                let q = first_member(members@, key@);
                if q < i {
                } else if q > i {
                    assert(members@[i as int].0@ != key@);
                }
            }
            return Some(i);
        }
        i = i + 1;
    }
    None
}

/// The value of the first member named `key`, when `value` is an object that has one.
pub fn get_member<'a>(value: &'a JsonValue, key: &str) -> (r: Option<&'a JsonValue>)
    ensures
        match r {
            Some(v) => member_of(*value, key@) == Some(*v),
            None => member_of(*value, key@) is None,
        },
{
    match value {
        JsonValue::Object(members) => match member_position(members, key) {
            Some(i) => Some(&members[i].1),
            None => None,
        },
        _ => None,
    }
}

/// The text of a string value.
pub fn as_str(value: &JsonValue) -> (r: Option<&str>)
    ensures
        match r {
            Some(s) => str_of(*value) == Some(s@),
            None => str_of(*value) is None,
        },
{
    match value {
        JsonValue::Str(s) => Some(s.as_str()),
        _ => None,
    }
}

/// The value of an unsigned 64-bit integer.
pub fn as_u64(value: &JsonValue) -> (r: Option<u64>)
    ensures
        r == u64_of(*value),
{
    match value {
        JsonValue::Number(JsonNumber::Unsigned(n)) => Some(*n),
        _ => None,
    }
}

/// `new` is `old` with the value at position `i` replaced by `value`.
pub open spec fn member_replaced(old: Seq<(String, JsonValue)>, new: Seq<(String, JsonValue)>, i: int, value: JsonValue) -> bool {
    &&& new.len() == old.len()
    &&& 0 <= i < old.len()
    &&& new[i].0 == old[i].0
    &&& new[i].1 == value
    &&& forall|j: int| 0 <= j < old.len() && j != i ==> new[j] == old[j]
}

/// Replaces the value of the member at position `i`, keeping its key and position.
pub fn replace_member_value(members: Vec<(String, JsonValue)>, i: usize, value: JsonValue) -> (r: Vec<(String, JsonValue)>)
    requires
        i < members@.len(),
    ensures
        member_replaced(members@, r@, i as int, value),
{
    let mut members = members;
    let (key, _previous) = members.remove(i);
    members.insert(i, (key, value));
    members
}

/// Takes the value of the member at position `i` out, leaving `JsonValue::Null` in its place.
pub fn take_member_value(members: Vec<(String, JsonValue)>, i: usize) -> (r: (Vec<(String, JsonValue)>, JsonValue))
    requires
        i < members@.len(),
    ensures
        r.1 == members@[i as int].1,
        member_replaced(members@, r.0@, i as int, JsonValue::Null),
{
    let mut members = members;
    let (key, value) = members.remove(i);
    members.insert(i, (key, JsonValue::Null));
    (members, value)
}

/// What deserializing a Starknet field element from the JSON string with text `text` gives:
/// `None` where the text does not encode one.
pub uninterp spec fn felt_of_text(text: Seq<char>) -> Option<Felt>;

/// Deserializes a `starknet_core::types::Felt` with `serde_json::from_value` from the JSON
/// string `text`, and gives it as the library's field element (`None` on a deserialization
/// error). The contract claims only that the result depends on the text alone; how the
/// text is read (a `0x`-prefixed hexadecimal number) is left to that crate.
#[verifier::external_body]
fn felt_from_json_text(text: &str) -> (r: Option<Felt>)
    ensures
        r == felt_of_text(text@),
{
    let value = serde_json::Value::String(text.to_string());
    match serde_json::from_value::<starknet_core::types::Felt>(value) {
        Ok(felt) => {
            let bytes = felt.to_bytes_be();
            let mut hi = [0u8; 16];
            let mut lo = [0u8; 16];
            hi.copy_from_slice(&bytes[..16]);
            lo.copy_from_slice(&bytes[16..]);
            Some(Felt { hi: u128::from_be_bytes(hi), lo: u128::from_be_bytes(lo) })
        },
        Err(_) => None,
    }
}

/// The field element a JSON value encodes. A Starknet field element deserializes from a
/// JSON string only (its `Deserialize` asks for a string, which `serde_json` refuses to read
/// from any other value).
pub open spec fn felt_of_json(v: JsonValue) -> Option<Felt> {
    match v {
        JsonValue::Str(s) => felt_of_text(s@),
        _ => None,
    }
}

/// The field element `value` encodes, if it encodes one.
pub fn felt_from_json(value: &JsonValue) -> (r: Option<Felt>)
    ensures
        r == felt_of_json(*value),
{
    match value {
        JsonValue::Str(s) => felt_from_json_text(s.as_str()),
        _ => None,
    }
}

/// The field element under `key` of an object value, if it has such a member that encodes one.
pub open spec fn member_felt(v: JsonValue, key: Seq<char>) -> Option<Felt> {
    match member_of(v, key) {
        Some(m) => felt_of_json(m),
        None => None,
    }
}

} // verus!
