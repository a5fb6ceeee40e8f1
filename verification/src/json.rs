//! JSON values, as `serde_json` holds them.
//!
//! `serde_json::Value` is opaque here. [`tree`] names what a value holds, and
//! each function below says over that name what one `serde_json` function does.

use vstd::prelude::*;

verus! {

/// What a JSON value holds.
#[verifier::ext_equal]
pub ghost enum Json {
    Null,
    Bool(bool),
    Number {
        /// How the number is written, which tells it from every other.
        text: Seq<char>,
        /// The unsigned 64-bit integer that it is, if it is one.
        unsigned: Option<u64>,
    },
    Text(Seq<char>),
    Array(Seq<Json>),
    Object(Map<Seq<char>, Json>),
}

impl Json {
    /// The member of an object with that key.
    pub open spec fn member(self, key: Seq<char>) -> Option<Json> {
        match self {
            Json::Object(m) => if m.contains_key(key) {
                Some(m[key])
            } else {
                None
            },
            _ => None,
        }
    }

    /// The element of an array at that place.
    pub open spec fn element(self, i: int) -> Option<Json> {
        match self {
            Json::Array(a) => if 0 <= i < a.len() {
                Some(a[i])
            } else {
                None
            },
            _ => None,
        }
    }

    /// The unsigned integer that a number is.
    pub open spec fn unsigned(self) -> Option<u64> {
        match self {
            Json::Number { unsigned, .. } => unsigned,
            _ => None,
        }
    }

    /// The unsigned integer in a member.
    pub open spec fn unsigned_member(self, key: Seq<char>) -> Option<u64> {
        match self.member(key) {
            Some(v) => v.unsigned(),
            None => None,
        }
    }
}

/// `serde_json::Value`.
#[verifier::external_type_specification]
#[verifier::external_body]
pub struct ExValue(serde_json::Value);

/// `serde_json::Error`.
#[verifier::external_type_specification]
#[verifier::external_body]
pub struct ExError(serde_json::Error);

/// `serde_json::Map`.
#[verifier::external_type_specification]
#[verifier::external_body]
#[verifier::reject_recursive_types(K)]
#[verifier::reject_recursive_types(V)]
pub struct ExMap<K, V>(serde_json::Map<K, V>);

/// What a value holds: of a number, the text that `Number`'s `Display` gives and
/// what `as_u64` gives.
pub uninterp spec fn tree(v: serde_json::Value) -> Json;

/// What an object's map holds.
pub uninterp spec fn members(m: serde_json::Map<String, serde_json::Value>) -> Map<Seq<char>, Json>;

/// What several values hold.
pub open spec fn trees(vs: Seq<serde_json::Value>) -> Seq<Json> {
    Seq::new(vs.len(), |i: int| tree(vs[i]))
}

/// What a JSON text says, if it is one.
pub uninterp spec fn parsed(raw: Seq<char>) -> Option<Json>;

/// `serde_json::from_str` at `Value`: whether the text is JSON, and what it
/// says, depend on the text alone.
#[verifier::external_body]
pub(crate) fn parse(raw: &str) -> (r: Result<serde_json::Value, serde_json::Error>)
    ensures
        r is Ok <==> parsed(raw@) is Some,
        r matches Ok(v) ==> Some(tree(v)) == parsed(raw@),
{
    serde_json::from_str::<serde_json::Value>(raw)
}

/// `serde_json::Value::get` with a string: the member of an object with that
/// key; `None` where there is none or the value is no object.
#[verifier::external_body]
pub(crate) fn get<'a>(v: &'a serde_json::Value, key: &str) -> (r: Option<&'a serde_json::Value>)
    ensures
        r is Some <==> tree(*v).member(key@) is Some,
        r matches Some(m) ==> Some(tree(*m)) == tree(*v).member(key@),
{
    v.get(key)
}

/// `serde_json::Value::as_u64`: the number, where the value is one that is an
/// unsigned 64-bit integer.
pub assume_specification[ serde_json::Value::as_u64 ](v: &serde_json::Value) -> (r: Option<u64>)
    ensures
        r == tree(*v).unsigned(),
;

/// `serde_json::Value::as_array`: the elements, where the value is an array.
pub assume_specification[ serde_json::Value::as_array ](v: &serde_json::Value) -> (r: Option<
    &Vec<serde_json::Value>,
>)
    ensures
        match tree(*v) {
            Json::Array(a) => r matches Some(vs) && trees(vs@) == a,
            _ => r is None,
        },
;

/// `serde_json::Value::as_object_mut`: the map, where the value is an object;
/// what is done to the map is done to the value.
pub assume_specification[ serde_json::Value::as_object_mut ](v: &mut serde_json::Value) -> (r:
    Option<&mut serde_json::Map<String, serde_json::Value>>)
    ensures
        match tree(*old(v)) {
            Json::Object(m) => {
                &&& r matches Some(o)
                &&& members(*o) == m
                &&& tree(*final(v)) == Json::Object(members(*final(o)))
            },
            _ => r is None && *final(v) == *old(v),
        },
;

/// `serde_json::Map::remove` with a string: takes the member out.
#[verifier::external_body]
pub(crate) fn remove(
    m: &mut serde_json::Map<String, serde_json::Value>,
    key: &str,
) -> (r: Option<serde_json::Value>)
    ensures
        members(*final(m)) == members(*old(m)).remove(key@),
        r is Some <==> members(*old(m)).contains_key(key@),
        r matches Some(v) ==> tree(v) == members(*old(m))[key@],
{
    m.remove(key)
}

/// `serde_json::Map::contains_key` with a string.
#[verifier::external_body]
pub(crate) fn contains_key(m: &serde_json::Map<String, serde_json::Value>, key: &str) -> (r: bool)
    ensures
        r == members(*m).contains_key(key@),
{
    m.contains_key(key)
}

/// `serde_json::Map::insert`: sets the member, whose former value it returns.
pub assume_specification[ serde_json::Map::<String, serde_json::Value>::insert ](
    m: &mut serde_json::Map<String, serde_json::Value>,
    k: String,
    v: serde_json::Value,
) -> (r: Option<serde_json::Value>)
    ensures
        members(*final(m)) == members(*old(m)).insert(k@, tree(v)),
        r is Some <==> members(*old(m)).contains_key(k@),
        r matches Some(w) ==> tree(w) == members(*old(m))[k@],
;

/// `serde_json::Value::Array`: the array with those elements.
#[verifier::external_body]
pub(crate) fn array(items: Vec<serde_json::Value>) -> (r: serde_json::Value)
    ensures
        tree(r) == Json::Array(trees(items@)),
{
    serde_json::Value::Array(items)
}

/// The entries of a JSON object whose values are all unsigned 32-bit integers,
/// in the order of their keys; `None` for any other text.
pub uninterp spec fn parsed_ids(raw: Seq<char>) -> Option<Seq<(Seq<char>, u32)>>;

/// What a list of entries holds.
pub open spec fn entry_views(entries: Seq<(String, u32)>) -> Seq<(Seq<char>, u32)> {
    Seq::new(entries.len(), |i: int| (entries[i].0@, entries[i].1))
}

/// `serde_json::from_str` at `BTreeMap<String, u32>`, its entries collected:
/// whether the text is such an object, and which entries it has, depend on the
/// text alone.
#[verifier::external_body]
pub(crate) fn parse_ids(raw: &str) -> (r: Result<Vec<(String, u32)>, serde_json::Error>)
    ensures
        r is Ok <==> parsed_ids(raw@) is Some,
        r matches Ok(entries) ==> Some(entry_views(entries@)) == parsed_ids(raw@),
{
    let map = serde_json::from_str::<std::collections::BTreeMap<String, u32>>(raw)?;
    Ok(map.into_iter().collect())
}

} // verus!
