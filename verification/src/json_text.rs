//! JSON text, read and written by serde_json.

use vstd::prelude::*;

use crate::json::{json_wf, members_set, set_member, Json, JsonValue};

verus! {

#[verifier::external_type_specification]
#[verifier::external_body]
pub struct ExJsonValueOfSerde(serde_json::Value);

#[verifier::external_type_specification]
#[verifier::external_body]
pub struct ExJsonErrorOfSerde(serde_json::Error);

/// The value that `serde_json::from_str` reads from `text`, when it reads one.
pub uninterp spec fn json_text(text: Seq<char>) -> Option<Json>;

/// The message (`Display`) of the error that `serde_json::from_str` reports
/// for `text`.
pub uninterp spec fn json_error_text(text: Seq<char>) -> Seq<char>;

/// The text that `serde_json::to_string_pretty` writes for a value.
pub uninterp spec fn json_pretty_text(v: Json) -> Seq<char>;

/// A value with no numbers anywhere in it.
pub open spec fn no_numbers(v: Json) -> bool
    decreases v, 1int,
{
    match v {
        Json::Number(_) => false,
        Json::Array(items) => items_without_numbers(items),
        Json::Object(members) => members_without_numbers(members),
        _ => true,
    }
}

pub open spec fn items_without_numbers(items: Seq<Json>) -> bool
    decreases items, 0int,
{
    if items.len() == 0 {
        true
    } else {
        items_without_numbers(items.drop_last()) && no_numbers(items.last())
    }
}

pub open spec fn members_without_numbers(members: Seq<(Seq<char>, Json)>) -> bool
    decreases members, 0int,
{
    if members.len() == 0 {
        true
    } else {
        members_without_numbers(members.drop_last()) && no_numbers(members.last().1)
    }
}

/// A `serde_json::Value` as the library's value, member for member and item
/// for item; a number keeps its text.
#[verifier::external_body]
fn library_value(v: serde_json::Value) -> JsonValue {
    match v {
        serde_json::Value::Null => JsonValue::Null,
        serde_json::Value::Bool(b) => JsonValue::Bool(b),
        serde_json::Value::Number(n) => JsonValue::Number(n.to_string()),
        serde_json::Value::String(s) => JsonValue::String(s),
        serde_json::Value::Array(a) => JsonValue::Array(a.into_iter().map(library_value).collect()),
        serde_json::Value::Object(o) => JsonValue::Object(o.into_iter().map(|(k, x)| (k, library_value(x))).collect()),
    }
}

/// The library's value as a `serde_json::Value`, member for member and item
/// for item. A number's text is read back by `str::parse`; the caller keeps
/// numbers out.
#[verifier::external_body]
fn serde_value(v: &JsonValue) -> (r: serde_json::Value)
    requires
        no_numbers(v@),
{
    match v {
        JsonValue::Null => serde_json::Value::Null,
        JsonValue::Bool(b) => serde_json::Value::Bool(*b),
        JsonValue::Number(n) => serde_json::Value::Number(n.parse().unwrap()),
        JsonValue::String(s) => serde_json::Value::String(s.clone()),
        JsonValue::Array(a) => serde_json::Value::Array(a.iter().map(serde_value).collect()),
        JsonValue::Object(o) => serde_json::Value::Object(o.iter().map(|(k, x)| (k.clone(), serde_value(x))).collect()),
    }
}

/// `serde_json::from_str::<serde_json::Value>`: the value that `text` holds,
/// or the message of the error that stops the reading. The result depends
/// on the text alone; its objects hold each key once, as a
/// `serde_json::Map` does.
#[verifier::external_body]
pub fn parse_json_text(text: &str) -> (r: Result<JsonValue, String>)
    ensures
        match r {
            Ok(v) => json_text(text@) == Some(v@) && json_wf(v@),
            Err(m) => json_text(text@) is None && m@ == json_error_text(text@),
        },
{
    match serde_json::from_str::<serde_json::Value>(text) {
        Ok(v) => Ok(library_value(v)),
        Err(e) => Err(e.to_string()),
    }
}

/// `serde_json::to_string_pretty` of a value without numbers, handed over as
/// a `serde_json::Value`. serde_json fails only where a `Serialize` impl
/// fails or a map has keys that are not strings, and the impl for `Value`
/// does neither while writing into a `Vec`: the result is always `Ok`.
#[verifier::external_body]
pub fn pretty_json_text(v: &JsonValue) -> (r: Result<String, serde_json::Error>)
    requires
        no_numbers(v@),
    ensures
        r is Ok,
        r matches Ok(t) ==> t@ == json_pretty_text(v@),
{
    serde_json::to_string_pretty(&serde_value(v))
}

pub proof fn lemma_members_without_numbers(ms: Seq<(Seq<char>, Json)>)
    ensures
        members_without_numbers(ms) <==> forall|i: int| 0 <= i < ms.len() ==> no_numbers(#[trigger] ms[i].1),
    decreases ms.len(),
{
    if ms.len() > 0 {
        let front = ms.drop_last();
        lemma_members_without_numbers(front);
        assert forall|i: int| 0 <= i < front.len() implies front[i] == ms[i] by {}
        if forall|i: int| 0 <= i < ms.len() ==> no_numbers(#[trigger] ms[i].1) {
            assert(no_numbers(ms[ms.len() - 1].1));
            assert forall|i: int| 0 <= i < front.len() implies no_numbers(#[trigger] front[i].1) by {
                assert(no_numbers(ms[i].1));
            }
        }
        if members_without_numbers(ms) {
            assert forall|i: int| 0 <= i < ms.len() implies no_numbers(#[trigger] ms[i].1) by {
                if i < front.len() {
                    assert(no_numbers(front[i].1));
                }
            }
        }
    }
}

pub proof fn lemma_items_without_numbers(items: Seq<Json>)
    ensures
        items_without_numbers(items) <==> forall|i: int| 0 <= i < items.len() ==> no_numbers(#[trigger] items[i]),
    decreases items.len(),
{
    if items.len() > 0 {
        let front = items.drop_last();
        lemma_items_without_numbers(front);
        if forall|i: int| 0 <= i < items.len() ==> no_numbers(#[trigger] items[i]) {
            assert(no_numbers(items[items.len() - 1]));
            assert forall|i: int| 0 <= i < front.len() implies no_numbers(#[trigger] front[i]) by {
                assert(no_numbers(items[i]));
            }
        }
        if items_without_numbers(items) {
            assert forall|i: int| 0 <= i < items.len() implies no_numbers(#[trigger] items[i]) by {
                if i < front.len() {
                    assert(no_numbers(front[i]));
                }
            }
        }
    }
}

proof fn lemma_members_set_no_numbers(ms: Seq<(Seq<char>, Json)>, k: Seq<char>, val: Json)
    requires
        forall|i: int| 0 <= i < ms.len() ==> no_numbers(#[trigger] ms[i].1),
        no_numbers(val),
    ensures
        forall|i: int|
            0 <= i < members_set(ms, k, val).len() ==> no_numbers(#[trigger] members_set(ms, k, val)[i].1),
    decreases ms.len(),
{
    if ms.len() > 0 && ms[0].0 != k {
        let t = ms.drop_first();
        assert forall|i: int| 0 <= i < t.len() implies no_numbers(#[trigger] t[i].1) by {
            assert(t[i] == ms[i + 1]);
        }
        lemma_members_set_no_numbers(t, k, val);
        let r = members_set(ms, k, val);
        assert forall|i: int| 0 <= i < r.len() implies no_numbers(#[trigger] r[i].1) by {
            if i > 0 {
                assert(r[i] == members_set(t, k, val)[i - 1]);
            } else {
                assert(r[0] == ms[0]);
            }
        }
    } else if ms.len() > 0 {
        let r = members_set(ms, k, val);
        assert forall|i: int| 0 <= i < r.len() implies no_numbers(#[trigger] r[i].1) by {
            if i > 0 {
                assert(r[i] == ms[i]);
            }
        }
    }
}

/// Setting a member keeps a value free of numbers.
pub proof fn lemma_set_member_no_numbers(v: Json, k: Seq<char>, val: Json)
    requires
        no_numbers(v),
        no_numbers(val),
    ensures
        no_numbers(set_member(v, k, val)),
{
    match v {
        Json::Null => {
            lemma_members_without_numbers(seq![(k, val)]);
        },
        Json::Object(ms) => {
            lemma_members_without_numbers(ms);
            lemma_members_set_no_numbers(ms, k, val);
            lemma_members_without_numbers(members_set(ms, k, val));
        },
        _ => {},
    }
}

} // verus!
