use vstd::prelude::*;

verus! {

#[verifier::external_type_specification]
#[verifier::external_body]
pub struct ExJsonValue(serde_json::Value);

/// A JSON value, as far as this library reads one.
#[derive(Debug)]
pub enum JsonValue {
    Null,
    Bool(bool),
    /// A number, with the integer it denotes where that is an integer that fits an `i64`.
    Number(Option<i64>),
    Str(String),
    Array(Vec<JsonValue>),
    /// An object's members, one per key.
    Object(Vec<(String, JsonValue)>),
}

/// The value that a JSON text denotes (`None` where the text is not JSON).
pub uninterp spec fn json_of(text: Seq<char>) -> Option<JsonValue>;

/// Relies on serde_json::from_str::<serde_json::Value>: parses a JSON text; the result
/// depends on the text alone.
#[verifier::external_body]
pub(crate) fn parse_json(text: &str) -> (r: Option<JsonValue>)
    ensures
        r == json_of(text@),
{
    serde_json::from_str::<serde_json::Value>(text).ok().map(json_from_serde)
}

/// Relies on serde_json::Value's variants and serde_json::Number::as_i64: converts a parsed
/// value one for one.
#[verifier::external_body]
fn json_from_serde(v: serde_json::Value) -> JsonValue {
    match v {
        serde_json::Value::Null => JsonValue::Null,
        serde_json::Value::Bool(b) => JsonValue::Bool(b),
        serde_json::Value::Number(n) => JsonValue::Number(n.as_i64()),
        serde_json::Value::String(s) => JsonValue::Str(s),
        serde_json::Value::Array(a) => JsonValue::Array(a.into_iter().map(json_from_serde).collect()),
        serde_json::Value::Object(m) => JsonValue::Object(
            m.into_iter().map(|(k, x)| (k, json_from_serde(x))).collect(),
        ),
    }
}

/// The member of `members` under `key`, if there is one (the first, should keys repeat).
pub open spec fn member(members: Seq<(String, JsonValue)>, key: Seq<char>) -> Option<JsonValue>
    decreases members.len(),
{
    if members.len() == 0 {
        None
    } else if members[0].0@ == key {
        Some(members[0].1)
    } else {
        member(members.drop_first(), key)
    }
}

/// Look up a member of an object by key.
pub fn get_member<'a>(members: &'a Vec<(String, JsonValue)>, key: &str) -> (r: Option<&'a JsonValue>)
    ensures
        r matches Some(v) ==> member(members@, key@) == Some(*v),
        r is None ==> member(members@, key@) is None,
{
    let k = key.to_owned();
    let mut i: usize = 0;
    assert(members@.subrange(0, members@.len() as int) =~= members@);
    while i < members.len()
        invariant
            i <= members@.len(),
            k@ == key@,
            member(members@, key@) == member(members@.subrange(i as int, members@.len() as int), key@),
        decreases members@.len() - i,
    {
        assert(members@.subrange(i as int, members@.len() as int).drop_first()
            =~= members@.subrange(i + 1, members@.len() as int));
        if members[i].0 == k {
            return Some(&members[i].1);
        }
        i = i + 1;
    }
    None
}

} // verus!
