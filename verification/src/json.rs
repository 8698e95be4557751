//! JSON text, read by `serde_json`.

use vstd::prelude::*;

verus! {

/// The compact form that `serde_json` writes for a JSON text; nothing for a
/// text that is not JSON.
pub uninterp spec fn compact_form(text: Seq<char>) -> Option<Seq<char>>;

/// `serde_json::to_string` on the value that the text spells: the same value
/// without insignificant white space, a function of the text alone.
#[verifier::external_body]
pub(crate) fn compact_json(text: &str) -> (r: Option<String>)
    ensures
        match r {
            Some(compact) => compact_form(text@) == Some(compact@),
            None => compact_form(text@) is None,
        },
{
    let value: serde_json::Value = serde_json::from_str(text).ok()?;
    serde_json::to_string(&value).ok()
}

/// Whether `serde_json` reads the text as a JSON object.
pub uninterp spec fn object_form(text: Seq<char>) -> bool;

/// `serde_json::Value::is_object` on the value that the text spells, `false`
/// for a text that is not JSON: a function of the text alone.
#[verifier::external_body]
pub(crate) fn is_object(text: &str) -> (r: bool)
    ensures
        r == object_form(text@),
{
    let value: Result<serde_json::Value, serde_json::Error> = serde_json::from_str(text);
    value.is_ok_and(|v| v.is_object())
}

/// The string that `serde_json` finds under a key of a JSON object.
pub uninterp spec fn string_field(text: Seq<char>, key: Seq<char>) -> Option<Seq<char>>;

/// `serde_json::Value::get` and `as_str` on the value that the text spells: the
/// string under a key, nothing where the text is not JSON, the value not an
/// object, or what stands under the key not a string; a function of the text and
/// the key.
#[verifier::external_body]
pub(crate) fn string_under(text: &str, key: &str) -> (r: Option<String>)
    ensures
        match r {
            Some(found) => string_field(text@, key@) == Some(found@),
            None => string_field(text@, key@) is None,
        },
{
    let value: serde_json::Value = serde_json::from_str(text).ok()?;
    Some(value.get(key)?.as_str()?.to_string())
}

/// The compact form of a JSON object after `serde_json` has removed a member of
/// one of its objects.
pub uninterp spec fn without_member(text: Seq<char>, parent: Seq<char>, key: Seq<char>) -> Option<
    Seq<char>,
>;

/// `serde_json::Map::remove` on the object under `parent`: the compact form of
/// the rest, nothing where the text is not JSON or no object stands there. A key
/// that is not there is no failure. A function of the three texts.
#[verifier::external_body]
pub(crate) fn remove_member(text: &str, parent: &str, key: &str) -> (r: Option<String>)
    ensures
        match r {
            Some(rest) => without_member(text@, parent@, key@) == Some(rest@),
            None => without_member(text@, parent@, key@) is None,
        },
{
    let mut value: serde_json::Value = serde_json::from_str(text).ok()?;
    value.get_mut(parent)?.as_object_mut()?.remove(key);
    serde_json::to_string(&value).ok()
}

/// The view of texts and nulls.
pub open spec fn values(v: Seq<Option<String>>) -> Seq<Option<Seq<char>>> {
    v.map_values(|t: Option<String>| crate::protocol::opt(t))
}

/// The compact form of a JSON object after `serde_json` has put a list of
/// strings and nulls under a member of an object inside it.
pub uninterp spec fn with_list(
    text: Seq<char>,
    parent: Seq<char>,
    key: Seq<char>,
    member: Seq<char>,
    list: Seq<Option<Seq<char>>>,
) -> Option<Seq<char>>;

/// `serde_json::Map::insert` of an array into the object under `parent` and
/// `key`: the compact form of the whole, nothing where the text is not JSON or no
/// object stands there. A function of the texts and the list.
#[verifier::external_body]
pub(crate) fn insert_list(
    text: &str,
    parent: &str,
    key: &str,
    member: &str,
    list: &Vec<Option<String>>,
) -> (r: Option<String>)
    ensures
        match r {
            Some(whole) => with_list(text@, parent@, key@, member@, values(list@)) == Some(whole@),
            None => with_list(text@, parent@, key@, member@, values(list@)) is None,
        },
{
    let mut value: serde_json::Value = serde_json::from_str(text).ok()?;
    let array = serde_json::to_value(list).ok()?;
    value.get_mut(parent)?.get_mut(key)?.as_object_mut()?.insert(member.to_string(), array);
    serde_json::to_string(&value).ok()
}

} // verus!
