//! JSON documents as plain values.

use vstd::prelude::*;

use crate::str_map;
use crate::str_map::StrMap;

verus! {

/// A JSON value. A number is kept as the text that the document's reader writes it
/// with, which need not be the one in the document.
#[derive(Debug)]
pub enum Json {
    Null,
    Bool(bool),
    Number(String),
    Text(String),
    Array(Vec<Json>),
    /// The members, in the order in which the document's reader gives them.
    Object(Vec<(String, Json)>),
}

/// What a [`Json`] value is.
#[verifier::ext_equal]
pub enum JsonView {
    Null,
    Bool(bool),
    Number(Seq<char>),
    Text(Seq<char>),
    Array(Seq<JsonView>),
    Object(Seq<(Seq<char>, JsonView)>),
}

pub open spec fn json_view(json: Json) -> JsonView
    decreases json,
{
    match json {
        Json::Null => JsonView::Null,
        Json::Bool(b) => JsonView::Bool(b),
        Json::Number(n) => JsonView::Number(n@),
        Json::Text(s) => JsonView::Text(s@),
        Json::Array(items) => JsonView::Array(
            Seq::new(
                items@.len(),
                |i: int|
                    if 0 <= i < items@.len() {
                        json_view(items@[i])
                    } else {
                        arbitrary()
                    },
            ),
        ),
        Json::Object(members) => JsonView::Object(
            Seq::new(
                members@.len(),
                |i: int|
                    if 0 <= i < members@.len() {
                        (members@[i].0@, json_view(members@[i].1))
                    } else {
                        arbitrary()
                    },
            ),
        ),
    }
}

impl View for Json {
    type V = JsonView;

    open spec fn view(&self) -> JsonView {
        json_view(*self)
    }
}

/// `serde_json::Value`, the JSON value of the crate that reads documents.
#[verifier::external_type_specification]
#[verifier::external_body]
pub struct ExValue(serde_json::Value);

/// What a `serde_json::Value` holds.
pub uninterp spec fn value_holds(value: serde_json::Value) -> JsonView;

/// What `serde_json` makes of a text: the value that it denotes, or the message
/// of the error that it is refused with.
pub uninterp spec fn json_document(text: Seq<char>) -> Result<JsonView, Seq<char>>;

/// `serde_json::from_str`, into a `Value`. The outcome depends on the text alone.
#[verifier::external_body]
fn read_value(text: &str) -> (r: Result<serde_json::Value, String>)
    ensures
        (match r {
            Ok(value) => json_document(text@) == Ok::<JsonView, Seq<char>>(value_holds(value)),
            Err(message) => json_document(text@) == Err::<JsonView, Seq<char>>(message@),
        }),
{
    serde_json::from_str::<serde_json::Value>(text).map_err(|err| err.to_string())
}

/// One level of a `serde_json::Value`.
enum Node {
    Null,
    Bool(bool),
    Number(String),
    Text(String),
    Array(Vec<serde_json::Value>),
    Object(Vec<(String, serde_json::Value)>),
}

/// Takes one level off a `serde_json::Value`: its variant with what the variant
/// holds, a number as its `Display` writes it, and an object's members in the
/// order of its map.
#[verifier::external_body]
fn open_value(value: serde_json::Value) -> (node: Node)
    ensures
        value_holds(value) == (match node {
            Node::Null => JsonView::Null,
            Node::Bool(b) => JsonView::Bool(b),
            Node::Number(n) => JsonView::Number(n@),
            Node::Text(s) => JsonView::Text(s@),
            Node::Array(items) => JsonView::Array(
                items@.map_values(|v: serde_json::Value| value_holds(v)),
            ),
            Node::Object(members) => JsonView::Object(
                members@.map_values(|m: (String, serde_json::Value)| (m.0@, value_holds(m.1))),
            ),
        }),
{
    match value {
        serde_json::Value::Null => Node::Null,
        serde_json::Value::Bool(b) => Node::Bool(b),
        serde_json::Value::Number(n) => Node::Number(n.to_string()),
        serde_json::Value::String(s) => Node::Text(s),
        serde_json::Value::Array(items) => Node::Array(items),
        serde_json::Value::Object(members) => Node::Object(members.into_iter().collect()),
    }
}

fn to_json(value: serde_json::Value) -> (json: Json)
    ensures
        json@ == value_holds(value),
    decreases value_holds(value),
{
    match open_value(value) {
        Node::Null => Json::Null,
        Node::Bool(b) => Json::Bool(b),
        Node::Number(n) => Json::Number(n),
        Node::Text(s) => Json::Text(s),
        Node::Array(items) => {
            let ghost views = items@.map_values(|v: serde_json::Value| value_holds(v));
            let mut out: Vec<Json> = Vec::new();
            for item in it: items
                invariant
                    it.seq() == items@,
                    out@.len() == it.index(),
                    views == items@.map_values(|v: serde_json::Value| value_holds(v)),
                    value_holds(value) == JsonView::Array(views),
                    forall|j: int| 0 <= j < out@.len() ==> (#[trigger] out@[j])@ == views[j],
            {
                assert(views[it.index()] == value_holds(item));
                assert(decreases_to!(value_holds(value) => value_holds(value)->Array_0));
                assert(decreases_to!(views => views[it.index()]));
                out.push(to_json(item));
            }
            let json = Json::Array(out);
            assert(json@->Array_0 =~= views);
            json
        },
        Node::Object(members) => {
            let ghost views = members@.map_values(
                |m: (String, serde_json::Value)| (m.0@, value_holds(m.1)),
            );
            let mut out: Vec<(String, Json)> = Vec::new();
            for member in it: members
                invariant
                    it.seq() == members@,
                    out@.len() == it.index(),
                    views == members@.map_values(
                        |m: (String, serde_json::Value)| (m.0@, value_holds(m.1)),
                    ),
                    value_holds(value) == JsonView::Object(views),
                    forall|j: int|
                        0 <= j < out@.len() ==> (#[trigger] out@[j]).0@ == views[j].0
                            && out@[j].1@ == views[j].1,
            {
                let (key, item) = member;
                assert(views[it.index()] == (key@, value_holds(item)));
                assert(decreases_to!(value_holds(value) => value_holds(value)->Object_0));
                assert(decreases_to!(views => views[it.index()]));
                assert(decreases_to!(views[it.index()] => views[it.index()].1));
                out.push((key, to_json(item)));
            }
            let json = Json::Object(out);
            assert(json@->Object_0 =~= views);
            json
        },
    }
}

/// Reads a JSON document.
pub fn parse_json(text: &str) -> (r: Result<Json, String>)
    ensures
        (match r {
            Ok(json) => json_document(text@) == Ok::<JsonView, Seq<char>>(json@),
            Err(message) => json_document(text@) == Err::<JsonView, Seq<char>>(message@),
        }),
{
    match read_value(text) {
        Ok(value) => Ok(to_json(value)),
        Err(message) => Err(message),
    }
}

/// What `serde_json` makes of a text that is to be an object of strings: the
/// values by their keys, or the message of the error that it is refused with.
pub uninterp spec fn string_table(text: Seq<char>) -> Result<
    Map<Seq<char>, Seq<char>>,
    Seq<char>,
>;

pub open spec fn entry_views(entries: Seq<(String, String)>) -> Seq<(Seq<char>, Seq<char>)> {
    entries.map_values(|e: (String, String)| (e.0@, e.1@))
}

/// `serde_json::from_str`, into a map from strings to strings, which hands each key
/// out once. The outcome depends on the text alone.
#[verifier::external_body]
fn read_string_table(text: &str) -> (r: Result<Vec<(String, String)>, String>)
    ensures
        (match r {
            Ok(entries) => str_map::distinct_keys(entry_views(entries@)) && string_table(text@)
                == Ok::<Map<Seq<char>, Seq<char>>, Seq<char>>(
                str_map::map_of(entry_views(entries@)),
            ),
            Err(message) => string_table(text@) == Err::<Map<Seq<char>, Seq<char>>, Seq<char>>(
                message@,
            ),
        }),
{
    match serde_json::from_str::<std::collections::BTreeMap<String, String>>(text) {
        Ok(map) => Ok(map.into_iter().collect()),
        Err(err) => Err(err.to_string()),
    }
}

/// Reads a JSON object all of whose values are strings.
pub fn parse_string_table(text: &str) -> (r: Result<StrMap<String>, String>)
    ensures
        (match r {
            Ok(map) => string_table(text@) == Ok::<Map<Seq<char>, Seq<char>>, Seq<char>>(
                str_map::map_of(str_map::pairs(map)),
            ),
            Err(message) => string_table(text@) == Err::<Map<Seq<char>, Seq<char>>, Seq<char>>(
                message@,
            ),
        }),
{
    let entries: Vec<(String, String)> = match read_string_table(text) {
        Ok(entries) => entries,
        Err(message) => {
            return Err(message);
        },
    };
    let ghost all = entry_views(entries@);
    let mut out: StrMap<String> = StrMap::new();
    assert(str_map::pairs(out) =~= all.take(0));
    for entry in it: entries
        invariant
            it.seq() == entries@,
            all == entry_views(entries@),
            str_map::distinct_keys(all),
            str_map::pairs(out) == all.take(it.index()),
    {
        let (key, value) = entry;
        proof {
            let i = it.index();
            assert(all[i] == (key@, value@));
            str_map::lemma_put_with_values(out.entries(), |s: String| s@, key@, value);
            str_map::lemma_map_of_keys(all.take(i), key@);
            assert(all.take(i + 1) =~= all.take(i).push(all[i]));
        }
        out.insert(key, value);
    }
    assert(all.take(entries@.len() as int) =~= all);
    Ok(out)
}

/// What a JSON value says is what it holds, its parts in their order.
pub proof fn law_what_a_value_says(
    text: String,
    items: Vec<Json>,
    members: Vec<(String, Json)>,
    b: bool,
    i: int,
)
    ensures
        Json::Null@ == JsonView::Null,
        Json::Bool(b)@ == JsonView::Bool(b),
        Json::Number(text)@ == JsonView::Number(text@),
        Json::Text(text)@ == JsonView::Text(text@),
        Json::Array(items)@ is Array,
        Json::Array(items)@->Array_0.len() == items@.len(),
        0 <= i < items@.len() ==> Json::Array(items)@->Array_0[i] == items@[i]@,
        Json::Object(members)@ is Object,
        Json::Object(members)@->Object_0.len() == members@.len(),
        0 <= i < members@.len() ==> Json::Object(members)@->Object_0[i] == (
            members@[i].0@,
            members@[i].1@,
        ),
{
}

} // verus!
