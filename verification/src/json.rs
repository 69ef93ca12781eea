//! JSON documents as plain values.

use vstd::prelude::*;
use crate::text::same_text;

verus! {

/// A parsed document of `serde_json`. What it holds is named by `json_contents`.
#[verifier::external_type_specification]
#[verifier::external_body]
pub struct ExValue(serde_json::Value);

/// What a JSON value is. A number is known by its value where that is an unsigned
/// integer of 64 bits; the members of an object stand in the order of the parser.
pub enum JsonView {
    Null,
    Bool(bool),
    Number(Option<u64>),
    Text(Seq<char>),
    Array(Seq<JsonView>),
    Object(Seq<(Seq<char>, JsonView)>),
}

/// A JSON value.
#[derive(Debug)]
pub enum JsonValue {
    Null,
    Bool(bool),
    Number(Option<u64>),
    Text(String),
    Array(Vec<JsonValue>),
    Object(Vec<(String, JsonValue)>),
}

impl JsonValue {
    /// What the value is.
    pub open spec fn view(self) -> JsonView
        decreases self,
    {
        match self {
            JsonValue::Null => JsonView::Null,
            JsonValue::Bool(b) => JsonView::Bool(b),
            JsonValue::Number(n) => JsonView::Number(n),
            JsonValue::Text(s) => JsonView::Text(s@),
            JsonValue::Array(items) => JsonView::Array(
                Seq::new(
                    items@.len(),
                    |i: int|
                        if 0 <= i < items@.len() {
                            items@[i].view()
                        } else {
                            JsonView::Null
                        },
                ),
            ),
            JsonValue::Object(members) => JsonView::Object(
                Seq::new(
                    members@.len(),
                    |i: int|
                        if 0 <= i < members@.len() {
                            (members@[i].0@, members@[i].1.view())
                        } else {
                            (seq![], JsonView::Null)
                        },
                ),
            ),
        }
    }
}

/// What a parsed document holds.
pub uninterp spec fn json_contents(value: serde_json::Value) -> JsonView;

/// What `serde_json::from_str` reads in a text: the document, or the message of the error.
pub uninterp spec fn json_document(text: Seq<char>) -> Result<JsonView, Seq<char>>;

/// A value opened one level deep.
enum Layer {
    Null,
    Bool(bool),
    Number(Option<u64>),
    Text(String),
    Array(Vec<serde_json::Value>),
    Object(Vec<(String, serde_json::Value)>),
}

/// What the value holds, told by the values one level down.
spec fn layer_contents(layer: Layer) -> JsonView {
    match layer {
        Layer::Null => JsonView::Null,
        Layer::Bool(b) => JsonView::Bool(b),
        Layer::Number(n) => JsonView::Number(n),
        Layer::Text(s) => JsonView::Text(s@),
        Layer::Array(items) => JsonView::Array(
            Seq::new(items@.len(), |i: int| json_contents(items@[i])),
        ),
        Layer::Object(members) => JsonView::Object(
            Seq::new(members@.len(), |i: int| (members@[i].0@, json_contents(members@[i].1))),
        ),
    }
}

/// `serde_json::from_str` reads a text as a `serde_json::Value`. It succeeds on the
/// texts that are JSON documents, and what it reads depends on the text alone; so does
/// the message of its error, which tells the line and the column.
#[verifier::external_body]
fn parse_text(text: &str) -> (r: Result<serde_json::Value, String>)
    ensures
        match r {
            Ok(value) => json_document(text@) == Ok::<JsonView, Seq<char>>(json_contents(value)),
            Err(message) => json_document(text@) == Err::<JsonView, Seq<char>>(message@),
        },
{
    match serde_json::from_str(text) {
        Ok(value) => Ok(value),
        Err(error) => Err(error.to_string()),
    }
}

/// Takes a `serde_json::Value` apart, one arm for each of its variants:
/// `Number::as_u64` gives the value of a number that is an unsigned integer of
/// 64 bits, and `Map::into_iter` gives the members of an object.
#[verifier::external_body]
fn open_value(value: serde_json::Value) -> (r: Layer)
    ensures
        layer_contents(r) == json_contents(value),
{
    match value {
        serde_json::Value::Null => Layer::Null,
        serde_json::Value::Bool(b) => Layer::Bool(b),
        serde_json::Value::Number(n) => Layer::Number(n.as_u64()),
        serde_json::Value::String(s) => Layer::Text(s),
        serde_json::Value::Array(items) => Layer::Array(items),
        serde_json::Value::Object(members) => Layer::Object(members.into_iter().collect()),
    }
}

/// The plain value that a parsed document holds.
fn plain_value(value: serde_json::Value) -> (r: JsonValue)
    ensures
        r@ == json_contents(value),
    decreases json_contents(value),
{
    match open_value(value) {
        Layer::Null => JsonValue::Null,
        Layer::Bool(b) => JsonValue::Bool(b),
        Layer::Number(n) => JsonValue::Number(n),
        Layer::Text(s) => JsonValue::Text(s),
        Layer::Array(items) => {
            let ghost contents = json_contents(value)->Array_0;
            let mut out: Vec<JsonValue> = Vec::new();
            for item in iter: items
                invariant
                    json_contents(value) == JsonView::Array(contents),
                    contents.len() == iter.seq().len(),
                    forall|i: int|
                        0 <= i < contents.len() ==> contents[i] == json_contents(
                            #[trigger] iter.seq()[i],
                        ),
                    out@.len() == iter.index(),
                    forall|i: int| 0 <= i < out@.len() ==> #[trigger] out@[i]@ == contents[i],
            {
                let ghost k = out@.len() as int;
                assert(json_contents(item) == contents[k]);
                assert(decreases_to!(json_contents(value) => json_contents(value)->Array_0[k]));
                out.push(plain_value(item));
            }
            let r = JsonValue::Array(out);
            assert forall|i: int| 0 <= i < out@.len() implies r@->Array_0[i] == contents[i] by {
                assert(out@[i]@ == contents[i]);
            }
            assert(r@->Array_0 =~= contents);
            r
        },
        Layer::Object(members) => {
            let ghost contents = json_contents(value)->Object_0;
            let mut out: Vec<(String, JsonValue)> = Vec::new();
            for member in iter: members
                invariant
                    json_contents(value) == JsonView::Object(contents),
                    contents.len() == iter.seq().len(),
                    forall|i: int|
                        0 <= i < contents.len() ==> contents[i].0 == (#[trigger] iter.seq()[i]).0@
                            && contents[i].1 == json_contents(iter.seq()[i].1),
                    out@.len() == iter.index(),
                    forall|i: int|
                        0 <= i < out@.len() ==> (#[trigger] out@[i]).0@ == contents[i].0
                            && out@[i].1@ == contents[i].1,
            {
                let ghost k = out@.len() as int;
                assert(json_contents(member.1) == contents[k].1);
                assert(decreases_to!(json_contents(value) => json_contents(value)->Object_0[k].1));
                out.push((member.0, plain_value(member.1)));
            }
            let r = JsonValue::Object(out);
            assert forall|i: int| 0 <= i < out@.len() implies r@->Object_0[i] == contents[i] by {
                assert(out@[i].1@ == contents[i].1);
            }
            assert(r@->Object_0 =~= contents);
            r
        },
    }
}

/// Reads a text as a JSON document, or says why it is none.
pub fn read_json(text: &str) -> (r: Result<JsonValue, String>)
    ensures
        match r {
            Ok(value) => json_document(text@) == Ok::<JsonView, Seq<char>>(value@),
            Err(message) => json_document(text@) == Err::<JsonView, Seq<char>>(message@),
        },
{
    match parse_text(text) {
        Ok(value) => Ok(plain_value(value)),
        Err(message) => Err(message),
    }
}

/// The member of an object with the given key.
pub open spec fn member(members: Seq<(Seq<char>, JsonView)>, key: Seq<char>) -> Option<JsonView>
    decreases members.len(),
{
    if members.len() == 0 {
        None
    } else if members[0].0 == key {
        Some(members[0].1)
    } else {
        member(members.drop_first(), key)
    }
}

/// The views of the members of an object.
pub open spec fn member_views(members: Seq<(String, JsonValue)>) -> Seq<(Seq<char>, JsonView)> {
    Seq::new(members.len(), |i: int| (members[i].0@, members[i].1@))
}

/// The member of an object with the given key.
pub fn find_member<'a>(members: &'a Vec<(String, JsonValue)>, key: &str) -> (r: Option<
    &'a JsonValue,
>)
    ensures
        match r {
            Some(value) => member(member_views(members@), key@) == Some(value@),
            None => member(member_views(members@), key@) is None,
        },
{
    let ghost all = member_views(members@);
    let mut i: usize = 0;
    assert(all.skip(0) =~= all);
    while i < members.len()
        invariant
            all == member_views(members@),
            i <= members@.len(),
            member(all, key@) == member(all.skip(i as int), key@),
        decreases members@.len() - i,
    {
        proof {
            assert(all.skip(i as int)[0] == all[i as int]);
            assert(all.skip(i as int).drop_first() =~= all.skip(i + 1));
        }
        if same_text(members[i].0.as_str(), key) {
            return Some(&members[i].1);
        }
        i = i + 1;
    }
    None
}

/// The view of an object is made of the views of its members.
pub proof fn lemma_object_view(members: Vec<(String, JsonValue)>)
    ensures
        JsonValue::Object(members)@ == JsonView::Object(member_views(members@)),
{
    assert(JsonValue::Object(members)@->Object_0 =~= member_views(members@));
}

/// The value of a number that is an unsigned integer of 64 bits.
pub open spec fn as_u64(value: Option<JsonView>) -> Option<u64> {
    match value {
        Some(JsonView::Number(n)) => n,
        _ => None,
    }
}

} // verus!
