//! JSON documents, as far as the registry's answers and the manifests need them.
use crate::text::same_text;
use vstd::prelude::*;

verus! {

/// A JSON value. Numbers are kept without their value: nothing reads it.
#[derive(Debug)]
pub enum Json {
    Null,
    Bool(bool),
    Number,
    Text(String),
    Array(Vec<Json>),
    Object(Vec<(String, Json)>),
}

/// What a [`Json`] says.
pub enum JsonView {
    Null,
    Bool(bool),
    Number,
    Text(Seq<char>),
    Array(Seq<JsonView>),
    Object(Seq<(Seq<char>, JsonView)>),
}

impl Json {
    pub open spec fn shape(self) -> JsonView
        decreases self,
    {
        match self {
            Json::Null => JsonView::Null,
            Json::Bool(b) => JsonView::Bool(b),
            Json::Number => JsonView::Number,
            Json::Text(text) => JsonView::Text(text@),
            Json::Array(items) => JsonView::Array(
                Seq::new(
                    items@.len(),
                    |i: int|
                        if 0 <= i < items@.len() {
                            items@[i].shape()
                        } else {
                            JsonView::Null
                        },
                ),
            ),
            Json::Object(fields) => JsonView::Object(
                Seq::new(
                    fields@.len(),
                    |i: int|
                        if 0 <= i < fields@.len() {
                            (fields@[i].0@, fields@[i].1.shape())
                        } else {
                            (Seq::empty(), JsonView::Null)
                        },
                ),
            ),
        }
    }
}

impl View for Json {
    type V = JsonView;

    open spec fn view(&self) -> JsonView {
        self.shape()
    }
}

/// The value of the first field with the given key.
pub open spec fn field(fields: Seq<(Seq<char>, JsonView)>, key: Seq<char>) -> Option<JsonView>
    decreases fields.len(),
{
    if fields.len() == 0 {
        None
    } else if fields[0].0 == key {
        Some(fields[0].1)
    } else {
        field(fields.drop_first(), key)
    }
}

impl JsonView {
    /// The field of an object. Nothing else has fields.
    pub open spec fn get(self, key: Seq<char>) -> Option<JsonView> {
        match self {
            JsonView::Object(fields) => field(fields, key),
            _ => None,
        }
    }

    /// The text of a string.
    pub open spec fn text(self) -> Option<Seq<char>> {
        match self {
            JsonView::Text(text) => Some(text),
            _ => None,
        }
    }

    /// The text of the field of an object.
    pub open spec fn get_text(self, key: Seq<char>) -> Option<Seq<char>> {
        match self.get(key) {
            Some(value) => value.text(),
            None => None,
        }
    }
}

/// Whether a value is an object in which the first field with the given key has the
/// given value.
pub open spec fn holds(document: JsonView, key: Seq<char>, value: JsonView) -> bool {
    document is Object && exists|i: int| #[trigger]
        first_with(document->Object_0, key, i) && document->Object_0[i].1 == value
}

/// Whether the field in the given place is the first with the key.
pub open spec fn first_with(fields: Seq<(Seq<char>, JsonView)>, key: Seq<char>, i: int) -> bool {
    &&& 0 <= i < fields.len()
    &&& fields[i].0 == key
    &&& forall|j: int| 0 <= j < i ==> (#[trigger] fields[j]).0 != key
}

proof fn lemma_field(fields: Seq<(Seq<char>, JsonView)>, key: Seq<char>)
    ensures
        match field(fields, key) {
            Some(value) => holds(JsonView::Object(fields), key, value),
            None => forall|i: int| 0 <= i < fields.len() ==> (#[trigger] fields[i]).0 != key,
        },
    decreases fields.len(),
{
    let object = JsonView::Object(fields);
    assert(object->Object_0 == fields);
    if fields.len() > 0 && fields[0].0 != key {
        let rest = fields.drop_first();
        lemma_field(rest, key);
        assert forall|i: int| 0 <= i < rest.len() implies rest[i] == #[trigger] fields[i + 1] by {}
        match field(rest, key) {
            Some(value) => {
                let i = choose|i: int| #[trigger] first_with(rest, key, i) && rest[i].1 == value;
                assert forall|j: int| 0 <= j < i + 1 implies (#[trigger] fields[j]).0 != key by {
                    if j > 0 {
                        assert(rest[j - 1] == fields[j]);
                    }
                }
                assert(first_with(fields, key, i + 1));
                assert(first_with(object->Object_0, key, i + 1));
                assert(object->Object_0[i + 1].1 == value);
            },
            None => {
                assert forall|j: int| 0 <= j < fields.len() implies (#[trigger] fields[j]).0
                    != key by {
                    if j > 0 {
                        assert(rest[j - 1] == fields[j]);
                    }
                }
            },
        }
    } else if fields.len() > 0 {
        assert(first_with(fields, key, 0));
        assert(field(fields, key) == Some(fields[0].1));
        assert(first_with(object->Object_0, key, 0));
        assert(object->Object_0[0].1 == fields[0].1);
        assert(holds(object, key, fields[0].1));
    }
}

/// A field that is asked for is found exactly where the object has one with that key,
/// and it is the first of them.
pub proof fn law_field(document: JsonView, key: Seq<char>, value: JsonView)
    ensures
        document.get(key) == Some(value) <==> holds(document, key, value),
{
    if document is Object {
        let fields = document->Object_0;
        lemma_field(fields, key);
        if holds(document, key, value) {
            let i = choose|i: int| #[trigger] first_with(fields, key, i) && fields[i].1 == value;
            let found = field(fields, key)->0;
            let k = choose|k: int| #[trigger] first_with(fields, key, k) && fields[k].1 == found;
            assert(i == k);
        }
    }
}

/// The text of a field is found exactly where the first field with that key is a text.
pub proof fn law_field_text(document: JsonView, key: Seq<char>, text: Seq<char>)
    ensures
        document.get_text(key) == Some(text) <==> holds(document, key, JsonView::Text(text)),
{
    law_field(document, key, JsonView::Text(text));
}

/// Whether no two fields have the same key.
pub open spec fn unique_fields(fields: Seq<(Seq<char>, JsonView)>) -> bool {
    forall|i: int, j: int| 0 <= i < j < fields.len() ==> (#[trigger] fields[i]).0 != (
    #[trigger] fields[j]).0
}

/// Whether no object in a value has a key twice.
pub open spec fn unique_keys(value: JsonView) -> bool
    decreases value,
{
    match value {
        JsonView::Array(items) => forall|i: int|
            0 <= i < items.len() ==> unique_keys(#[trigger] items[i]),
        JsonView::Object(fields) => unique_fields(fields) && forall|i: int|
            0 <= i < fields.len() ==> unique_keys((#[trigger] fields[i]).1),
        _ => true,
    }
}

/// The text that an optional string holds.
pub open spec fn opt_view(s: Option<String>) -> Option<Seq<char>> {
    match s {
        Some(s) => Some(s@),
        None => None,
    }
}

impl Json {
    pub fn get(&self, key: &str) -> (r: Option<&Json>)
        ensures
            match r {
                Some(value) => self@.get(key@) == Some(value@),
                None => self@.get(key@) is None,
            },
    {
        match self {
            Json::Object(fields) => {
                let ghost all = self@->Object_0;
                let mut i: usize = 0;
                proof {
                    assert(all.skip(0) =~= all);
                }
                while i < fields.len()
                    invariant
                        i <= fields@.len(),
                        self == Json::Object(*fields),
                        self@ == JsonView::Object(all),
                        field(all, key@) == field(all.skip(i as int), key@),
                    decreases fields@.len() - i,
                {
                    proof {
                        assert(all.len() == fields@.len());
                        assert(all[i as int] == (fields@[i as int].0@, fields@[i as int].1@));
                        assert(all.skip(i as int)[0] == all[i as int]);
                        assert(all.skip(i as int).drop_first() =~= all.skip(i + 1));
                    }
                    if same_text(fields[i].0.as_str(), key) {
                        return Some(&fields[i].1);
                    }
                    i += 1;
                }
                None
            },
            _ => None,
        }
    }

    pub fn as_text(&self) -> (r: Option<&String>)
        ensures
            match r {
                Some(text) => self@.text() == Some(text@),
                None => self@.text() is None,
            },
    {
        match self {
            Json::Text(text) => Some(text),
            _ => None,
        }
    }

    /// The text of the field of an object.
    pub fn get_text(&self, key: &str) -> (r: Option<String>)
        ensures
            opt_view(r) == self@.get_text(key@),
    {
        match self.get(key) {
            Some(value) => match value.as_text() {
                Some(text) => Some(text.clone()),
                None => None,
            },
            None => None,
        }
    }
}

/// A value as `serde_json` hands it out.
#[verifier::external_type_specification]
#[verifier::external_body]
pub struct ExValue(serde_json::Value);

/// What a `serde_json::Value` holds.
pub uninterp spec fn value_shape(value: serde_json::Value) -> JsonView;

/// A `serde_json::Value`, opened: what it is, with the values inside it unopened.
enum Opened<'a> {
    Null,
    Bool(bool),
    Number,
    Text(&'a String),
    Array(&'a Vec<serde_json::Value>),
    Object(Vec<(&'a String, &'a serde_json::Value)>),
}

/// The variant that a `serde_json::Value` is. An array has its items in their order,
/// and an object its keys with their values in the order of `serde_json::Map::iter`; a
/// map has no key twice.
#[verifier::external_body]
fn open_value<'a>(value: &'a serde_json::Value) -> (r: Opened<'a>)
    ensures
        match r {
            Opened::Null => value_shape(*value) == JsonView::Null,
            Opened::Bool(b) => value_shape(*value) == JsonView::Bool(b),
            Opened::Number => value_shape(*value) == JsonView::Number,
            Opened::Text(text) => value_shape(*value) == JsonView::Text(text@),
            Opened::Array(items) => value_shape(*value) == JsonView::Array(
                Seq::new(items@.len(), |i: int| value_shape(items@[i])),
            ),
            Opened::Object(fields) => {
                &&& value_shape(*value) == JsonView::Object(
                    Seq::new(fields@.len(), |i: int| (fields@[i].0@, value_shape(*fields@[i].1))),
                )
                &&& forall|i: int, j: int|
                    0 <= i < j < fields@.len() ==> (#[trigger] fields@[i]).0@ != (
                    #[trigger] fields@[j]).0@
            },
        },
{
    match value {
        serde_json::Value::Null => Opened::Null,
        serde_json::Value::Bool(b) => Opened::Bool(*b),
        serde_json::Value::Number(_) => Opened::Number,
        serde_json::Value::String(text) => Opened::Text(text),
        serde_json::Value::Array(items) => Opened::Array(items),
        serde_json::Value::Object(fields) => Opened::Object(fields.iter().collect()),
    }
}

/// Copies a value out of `serde_json`.
fn json_of(value: &serde_json::Value) -> (r: Json)
    ensures
        r@ == value_shape(*value),
        unique_keys(r@),
    decreases value_shape(*value),
{
    match open_value(value) {
        Opened::Null => Json::Null,
        Opened::Bool(b) => Json::Bool(b),
        Opened::Number => Json::Number,
        Opened::Text(text) => Json::Text(text.clone()),
        Opened::Array(items) => {
            let ghost shapes = value_shape(*value)->Array_0;
            let mut out: Vec<Json> = Vec::new();
            let mut i: usize = 0;
            while i < items.len()
                invariant
                    i <= items@.len(),
                    out@.len() == i,
                    value_shape(*value) == JsonView::Array(shapes),
                    shapes == Seq::new(items@.len(), |k: int| value_shape(items@[k])),
                    forall|k: int| 0 <= k < i ==> (#[trigger] out@[k])@ == shapes[k],
                    forall|k: int| 0 <= k < i ==> unique_keys(#[trigger] shapes[k]),
                decreases items@.len() - i,
            {
                proof {
                    let shape = value_shape(*value);
                    assert(shapes[i as int] == value_shape(items@[i as int]));
                    assert(decreases_to!(shape => shape->Array_0));
                    assert(decreases_to!(shapes => shapes[i as int]));
                }
                out.push(json_of(&items[i]));
                i += 1;
            }
            let json = Json::Array(out);
            proof {
                assert(json@->Array_0 =~= shapes);
            }
            json
        },
        Opened::Object(fields) => {
            let ghost shapes = value_shape(*value)->Object_0;
            assert forall|a: int, b: int| 0 <= a < b < shapes.len() implies (#[trigger] shapes[a]).0
                != (#[trigger] shapes[b]).0 by {
                assert(fields@[a].0@ != fields@[b].0@);
            }
            let mut out: Vec<(String, Json)> = Vec::new();
            let mut i: usize = 0;
            while i < fields.len()
                invariant
                    i <= fields@.len(),
                    out@.len() == i,
                    value_shape(*value) == JsonView::Object(shapes),
                    shapes == Seq::new(
                        fields@.len(),
                        |k: int| (fields@[k].0@, value_shape(*fields@[k].1)),
                    ),
                    forall|k: int|
                        0 <= k < i ==> ((#[trigger] out@[k]).0@, out@[k].1@) == shapes[k],
                    forall|k: int| 0 <= k < i ==> unique_keys((#[trigger] shapes[k]).1),
                decreases fields@.len() - i,
            {
                proof {
                    let shape = value_shape(*value);
                    let field = shapes[i as int];
                    assert(field == (fields@[i as int].0@, value_shape(*fields@[i as int].1)));
                    assert(decreases_to!(shape => shape->Object_0));
                    assert(decreases_to!(shapes => shapes[i as int]));
                    assert(decreases_to!(field => field.1));
                }
                out.push((fields[i].0.clone(), json_of(fields[i].1)));
                i += 1;
            }
            let json = Json::Object(out);
            proof {
                assert(json@->Object_0 =~= shapes);
            }
            json
        },
    }
}

/// What `serde_json::from_str` reads from a text as a `serde_json::Value`. There is
/// nothing to read in a text that is no JSON document.
pub uninterp spec fn json_document(text: Seq<char>) -> Option<JsonView>;

/// `serde_json::from_str` to a `serde_json::Value`: the document that the text
/// is, or nothing for a text that is none. What it reads rests on the text alone.
#[verifier::external_body]
fn read_value(text: &str) -> (r: Option<serde_json::Value>)
    ensures
        match r {
            Some(value) => json_document(text@) == Some(value_shape(value)),
            None => json_document(text@) is None,
        },
{
    serde_json::from_str::<serde_json::Value>(text).ok()
}

/// Reads a JSON document. None of its objects has a key twice.
pub fn parse_json(text: &str) -> (r: Option<Json>)
    ensures
        match r {
            Some(json) => json_document(text@) == Some(json@) && unique_keys(json@),
            None => json_document(text@) is None,
        },
{
    match read_value(text) {
        Some(value) => Some(json_of(&value)),
        None => None,
    }
}

} // verus!
