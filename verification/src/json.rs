//! The JSON documents read by the library, as plain values.
use vstd::prelude::*;

use serde_json::Value;

use crate::text::same_text;

verus! {

/// A JSON value. Numbers keep no payload: nothing in the library reads one.
#[derive(Debug)]
pub enum JsonValue {
    Null,
    Bool(bool),
    Number,
    String(String),
    Array(Vec<JsonValue>),
    /// The members of an object, in document order.
    Object(Vec<JsonMember>),
}

/// A member of a JSON object.
#[derive(Debug)]
pub struct JsonMember {
    pub key: String,
    pub value: JsonValue,
}

/// The value of the first member named `key` among `members`.
pub open spec fn member_value(members: Seq<JsonMember>, key: Seq<char>) -> Option<JsonValue>
    decreases members.len(),
{
    if members.len() == 0 {
        None
    } else if members[0].key@ == key {
        Some(members[0].value)
    } else {
        member_value(members.drop_first(), key)
    }
}

/// The member `key` of `v` when `v` is an object that has one, as
/// `Value::get` gives it.
pub open spec fn json_get(v: JsonValue, key: Seq<char>) -> Option<JsonValue> {
    match v {
        JsonValue::Object(members) => member_value(members@, key),
        _ => None,
    }
}

/// The text of `v` when it is a string.
pub open spec fn json_str(v: JsonValue) -> Option<Seq<char>> {
    match v {
        JsonValue::String(s) => Some(s@),
        _ => None,
    }
}

impl JsonValue {
    /// The member `key` of this value when it is an object that has one.
    pub fn get(&self, key: &str) -> (r: Option<&JsonValue>)
        ensures
            match r {
                Some(v) => json_get(*self, key@) == Some(*v),
                None => json_get(*self, key@) is None,
            },
    {
        match self {
            JsonValue::Object(members) => {
                assert(json_get(*self, key@) == member_value(members@, key@));
                let mut i: usize = 0;
                assert(members@.skip(0) =~= members@);
                while i < members.len()
                    invariant
                        i <= members@.len(),
                        json_get(*self, key@) == member_value(members@, key@),
                        member_value(members@, key@) == member_value(members@.skip(i as int), key@),
                    decreases members@.len() - i,
                {
                    assert(members@.skip(i as int).drop_first() =~= members@.skip(i + 1));
                    assert(members@.skip(i as int)[0] == members@[i as int]);
                    if same_text(members[i].key.as_str(), key) {
                        assert(member_value(members@.skip(i as int), key@) == Some(members@[i as int].value));
                        return Some(&members[i].value);
                    }
                    i = i + 1;
                }
                None
            },
            _ => None,
        }
    }

    /// The text of this value when it is a string.
    pub fn as_str(&self) -> (r: Option<&str>)
        ensures
            match json_str(*self) {
                Some(s) => r matches Some(t) && t@ == s,
                None => r is None,
            },
    {
        match self {
            JsonValue::String(s) => Some(s.as_str()),
            _ => None,
        }
    }
}

/// A `serde_json` value, opaque here.
#[verifier::external_type_specification]
#[verifier::external_body]
pub struct ExValue(Value);

/// A `serde_json` object map, opaque here.
#[verifier::external_type_specification]
#[verifier::external_body]
#[verifier::reject_recursive_types(K)]
#[verifier::reject_recursive_types(V)]
pub struct ExJsonMap<K, V>(serde_json::Map<K, V>);

/// The result of parsing `text` as a JSON document: the value, or the text
/// of the parse error.
pub uninterp spec fn json_document(text: Seq<char>) -> Result<JsonValue, Seq<char>>;

/// Parses `text` as a JSON document (`serde_json::from_str::<Value>`). The
/// result, value or error text (`Error`'s `Display`), is believed to be the
/// named result for `text`.
#[verifier::external_body]
pub(crate) fn parse_json(text: &str) -> (r: Result<JsonValue, String>)
    ensures
        match r {
            Ok(v) => json_document(text@) == Ok::<JsonValue, Seq<char>>(v),
            Err(e) => json_document(text@) == Err::<JsonValue, Seq<char>>(e@),
        },
{
    match serde_json::from_str::<Value>(text) {
        Ok(value) => Ok(json_value_of(&value)),
        Err(error) => Err(error.to_string()),
    }
}

/// The plain form of a `serde_json::Value`, variant for variant. No
/// contract: only `parse_json` calls it, and names the whole result.
#[verifier::external_body]
fn json_value_of(value: &Value) -> JsonValue {
    match value {
        Value::Null => JsonValue::Null,
        Value::Bool(b) => JsonValue::Bool(*b),
        Value::Number(_) => JsonValue::Number,
        Value::String(s) => JsonValue::String(s.clone()),
        Value::Array(items) => JsonValue::Array(json_items_of(items)),
        Value::Object(members) => JsonValue::Object(json_members_of(members)),
    }
}

/// The plain forms of the items of a JSON array, in order.
#[verifier::external_body]
fn json_items_of(items: &Vec<Value>) -> Vec<JsonValue> {
    let mut out = Vec::with_capacity(items.len());
    for item in items {
        out.push(json_value_of(item));
    }
    out
}

/// The plain forms of the members of a JSON object, in the map's order.
#[verifier::external_body]
fn json_members_of(members: &serde_json::Map<String, Value>) -> Vec<JsonMember> {
    let mut out = Vec::with_capacity(members.len());
    for (key, value) in members {
        out.push(JsonMember { key: key.clone(), value: json_value_of(value) });
    }
    out
}


/// Law: looking a key up among the members of an object gives the value of
/// the first member whose key is exactly that key, and nothing when no
/// member has that key.
pub proof fn law_member_value_is_first_with_key(members: Seq<JsonMember>, key: Seq<char>)
    ensures
        member_value(members, key) is None <==> forall|i: int| 0 <= i < members.len() ==> #[trigger] members[i].key@ != key,
        member_value(members, key) matches Some(v) ==> exists|i: int|
            0 <= i < members.len() && #[trigger] members[i].key@ == key && members[i].value == v && forall|j: int|
                0 <= j < i ==> #[trigger] members[j].key@ != key,
    decreases members.len(),
{
    if members.len() > 0 {
        let rest = members.drop_first();
        law_member_value_is_first_with_key(rest, key);
        assert forall|i: int| 0 <= i < rest.len() implies rest[i] == members[i + 1] by {}
        if members[0].key@ == key {
            assert(members[0].key@ == key);
        } else {
            if member_value(rest, key) is None {
                assert forall|i: int| 0 <= i < members.len() implies #[trigger] members[i].key@ != key by {
                    if i > 0 {
                        assert(rest[i - 1].key@ != key);
                    }
                }
            } else {
                let v = member_value(rest, key).unwrap();
                let i = choose|i: int|
                    0 <= i < rest.len() && #[trigger] rest[i].key@ == key && rest[i].value == v && forall|j: int|
                        0 <= j < i ==> #[trigger] rest[j].key@ != key;
                assert(members[i + 1].key@ == key);
                assert forall|j: int| 0 <= j < i + 1 implies #[trigger] members[j].key@ != key by {
                    if j > 0 {
                        assert(rest[j - 1].key@ != key);
                    }
                }
            }
        }
    }
}

/// Law: a lookup on a value gives a member of the value, which must be an
/// object, whose key is exactly the requested key, the first such member.
pub proof fn law_json_get_finds_the_key(v: JsonValue, key: Seq<char>)
    ensures
        json_get(v, key) matches Some(found) ==> v matches JsonValue::Object(members) && exists|i: int|
            0 <= i < members@.len() && #[trigger] members@[i].key@ == key && members@[i].value == found && forall|j: int|
                0 <= j < i ==> #[trigger] members@[j].key@ != key,
        json_get(v, key) is None ==> (v matches JsonValue::Object(members) ==> forall|i: int|
            0 <= i < members@.len() ==> #[trigger] members@[i].key@ != key),
{
    match v {
        JsonValue::Object(members) => law_member_value_is_first_with_key(members@, key),
        _ => {},
    }
}

} // verus!
