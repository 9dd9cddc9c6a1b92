//! JSON documents as the library reads them.

use vstd::prelude::*;
use crate::text;

verus! {

/// A JSON value. Numbers are told apart from the other kinds and nothing more.
pub enum Json {
    Null,
    Bool(bool),
    Number,
    Text(String),
    Array(Vec<Json>),
    Object(Vec<(String, Json)>),
}

/// What a JSON value is.
pub enum JsonView {
    Null,
    Bool(bool),
    Number,
    Text(Seq<char>),
    Array(Seq<JsonView>),
    Object(Seq<FieldView>),
}

/// What a field of an object is.
pub struct FieldView {
    pub key: Seq<char>,
    pub value: JsonView,
}

impl View for Json {
    type V = JsonView;

    open spec fn view(&self) -> JsonView
        decreases self,
    {
        match self {
            Json::Null => JsonView::Null,
            Json::Bool(b) => JsonView::Bool(*b),
            Json::Number => JsonView::Number,
            Json::Text(s) => JsonView::Text(s@),
            Json::Array(items) => JsonView::Array(
                Seq::new(
                    items@.len(),
                    |i: int|
                        if 0 <= i < items@.len() {
                            items@[i].view()
                        } else {
                            JsonView::Null
                        },
                ),
            ),
            Json::Object(fields) => JsonView::Object(
                Seq::new(
                    fields@.len(),
                    |i: int|
                        if 0 <= i < fields@.len() {
                            FieldView { key: fields@[i].0@, value: fields@[i].1.view() }
                        } else {
                            FieldView { key: Seq::empty(), value: JsonView::Null }
                        },
                ),
            ),
        }
    }
}

/// The value of the first field at or after `i` that is named `key`.
pub open spec fn field_from(fields: Seq<FieldView>, key: Seq<char>, i: int) -> Option<
    JsonView,
>
    decreases fields.len() - i,
{
    if i >= fields.len() {
        None
    } else if fields[i].key == key {
        Some(fields[i].value)
    } else {
        field_from(fields, key, i + 1)
    }
}

/// The value of the field `key`, when `value` is an object that has it.
pub open spec fn field(value: JsonView, key: Seq<char>) -> Option<JsonView> {
    match value {
        JsonView::Object(fields) => field_from(fields, key, 0),
        _ => None,
    }
}

/// The text of a string value.
pub open spec fn text_of(value: Option<JsonView>) -> Option<Seq<char>> {
    match value {
        Some(JsonView::Text(s)) => Some(s),
        _ => None,
    }
}

/// The text of the field `key`, when it is a string.
pub open spec fn field_text(value: JsonView, key: Seq<char>) -> Option<Seq<char>> {
    text_of(field(value, key))
}

/// The texts of the string values among the first `n`.
pub open spec fn texts_among(items: Seq<JsonView>, n: int) -> Seq<Seq<char>>
    decreases n,
{
    if n <= 0 {
        Seq::empty()
    } else {
        match items[n - 1] {
            JsonView::Text(s) => texts_among(items, n - 1).push(s),
            _ => texts_among(items, n - 1),
        }
    }
}

/// The string values of an array; nothing when there is no array.
pub open spec fn strings_of(value: Option<JsonView>) -> Seq<Seq<char>> {
    match value {
        Some(JsonView::Array(items)) => texts_among(items, items.len() as int),
        _ => Seq::empty(),
    }
}

/// What the fields of an object are.
pub open spec fn field_views(fields: Seq<(String, Json)>) -> Seq<FieldView> {
    Seq::new(fields.len(), |i: int| FieldView { key: fields[i].0@, value: fields[i].1@ })
}

/// A value and what it is are of the same kind, and an object holds what its fields are.
pub proof fn lemma_kinds(value: Json)
    ensures
        value is Object <==> value@ is Object,
        value is Object ==> value@->Object_0 == field_views(value->Object_0@),
        value is Text <==> value@ is Text,
        value is Text ==> value@->Text_0 == value->Text_0@,
        value is Array <==> value@ is Array,
        value is Array ==> value@->Array_0.len() == value->Array_0@.len(),
{
    if value is Object {
        assert(value@->Object_0 =~= field_views(value->Object_0@));
    }
}

/// The view of an optional value.
pub open spec fn json_opt(value: Option<&Json>) -> Option<JsonView> {
    match value {
        Some(value) => Some(value@),
        None => None,
    }
}

impl Json {
    /// The value of the field `key`, when this is an object that has it.
    pub fn get(&self, key: &str) -> (r: Option<&Json>)
        ensures
            json_opt(r) == field(self@, key@),
    {
        match self {
            Json::Object(fields) => {
                let ghost all = self@->Object_0;
                proof {
                    lemma_kinds(*self);
                }
                let mut i: usize = 0;
                while i < fields.len()
                    invariant
                        i <= fields@.len(),
                        self@ == JsonView::Object(all),
                        all == field_views(fields@),
                        field_from(all, key@, 0) == field_from(all, key@, i as int),
                    decreases fields@.len() - i,
                {
                    if text::same_text(fields[i].0.as_str(), key) {
                        return Some(&fields[i].1);
                    }
                    i = i + 1;
                }
                None
            },
            _ => None,
        }
    }

    /// The text of a string value.
    pub fn as_str(&self) -> (r: Option<&str>)
        ensures
            text::str_opt(r) == text_of(Some(self@)),
    {
        match self {
            Json::Text(s) => Some(s.as_str()),
            _ => None,
        }
    }

    /// The text of the field `key`, when it is a string.
    pub fn get_text(&self, key: &str) -> (r: Option<String>)
        ensures
            text::text_opt(r) == field_text(self@, key@),
    {
        match self.get(key) {
            Some(value) => match value.as_str() {
                Some(s) => Some(s.to_owned()),
                None => None,
            },
            None => None,
        }
    }
}

/// The string values of an array; nothing when there is no array.
pub fn string_list(value: Option<&Json>) -> (r: Vec<String>)
    ensures
        text::texts(r@) == strings_of(json_opt(value)),
{
    let mut out: Vec<String> = Vec::new();
    assert(text::texts(out@) =~= Seq::<Seq<char>>::empty());
    match value {
        Some(Json::Array(items)) => {
            let ghost all = value->0@->Array_0;
            let mut i: usize = 0;
            while i < items.len()
                invariant
                    i <= items@.len(),
                    all.len() == items@.len(),
                    forall|j: int| 0 <= j < all.len() ==> all[j] == items@[j]@,
                    text::texts(out@) == texts_among(all, i as int),
                decreases items@.len() - i,
            {
                assert(all[i as int] == items@[i as int]@);
                match &items[i] {
                    Json::Text(s) => {
                        let copy = s.clone();
                        proof {
                            text::lemma_texts_push(out@, copy);
                        }
                        out.push(copy);
                    },
                    _ => {},
                }
                i = i + 1;
            }
            out
        },
        _ => out,
    }
}

// ---------------------------------------------------------------------------------------------
// Reading
// ---------------------------------------------------------------------------------------------

/// A JSON value of the `serde_json` crate.
#[verifier::external_type_specification]
#[verifier::external_body]
pub struct ExValue(serde_json::Value);

/// What a `serde_json::Value` holds.
pub uninterp spec fn value_content(value: serde_json::Value) -> JsonView;

/// The value that `serde_json::from_str` reads from a text, when it is JSON.
pub uninterp spec fn json_document(text: Seq<char>) -> Option<JsonView>;

/// `serde_json::from_str` into a `serde_json::Value`: the value that the text stands for, or
/// nothing when the text is not JSON. Which value a text stands for is left to the name.
#[verifier::external_body]
fn parse_value(text: &str) -> (r: Option<serde_json::Value>)
    ensures
        match r {
            Some(value) => json_document(text@) == Some(value_content(value)),
            None => json_document(text@) is None,
        },
{
    serde_json::from_str::<serde_json::Value>(text).ok()
}

/// Moves the content of a `serde_json::Value`, variant by variant, into a [`Json`].
#[verifier::external_body]
fn json_of(value: serde_json::Value) -> (r: Json)
    ensures
        r@ == value_content(value),
{
    match value {
        serde_json::Value::Null => Json::Null,
        serde_json::Value::Bool(b) => Json::Bool(b),
        serde_json::Value::Number(_) => Json::Number,
        serde_json::Value::String(s) => Json::Text(s),
        serde_json::Value::Array(items) => Json::Array(items.into_iter().map(json_of).collect()),
        serde_json::Value::Object(fields) => Json::Object(
            fields.into_iter().map(|(key, item)| (key, json_of(item))).collect(),
        ),
    }
}

/// Reads a JSON text.
pub fn read_json(text: &str) -> (r: Option<Json>)
    ensures
        match r {
            Some(value) => json_document(text@) == Some(value@),
            None => json_document(text@) is None,
        },
{
    match parse_value(text) {
        Some(value) => Some(json_of(value)),
        None => None,
    }
}

/// A field is found by its key: the value is that of the first field with the key, and there is none
/// when no field has it or the value is no object.
pub proof fn law_first_field_with_the_key(fields: Seq<FieldView>, key: Seq<char>, k: int)
    requires
        0 <= k <= fields.len(),
        forall|j: int| 0 <= j < k ==> (#[trigger] fields[j]).key != key,
        k < fields.len() ==> fields[k].key == key,
    ensures
        field(JsonView::Object(fields), key) == (if k < fields.len() {
            Some(fields[k].value)
        } else {
            None
        }),
{
    lemma_field_from(fields, key, k, 0);
}

proof fn lemma_field_from(fields: Seq<FieldView>, key: Seq<char>, k: int, i: int)
    requires
        0 <= i <= k <= fields.len(),
        forall|j: int| 0 <= j < k ==> (#[trigger] fields[j]).key != key,
        k < fields.len() ==> fields[k].key == key,
    ensures
        field_from(fields, key, i) == (if k < fields.len() {
            Some(fields[k].value)
        } else {
            None
        }),
    decreases k - i,
{
    if i < k {
        lemma_field_from(fields, key, k, i + 1);
    }
}

/// The string values of an array are handed out one by one in their order, and what is no string is
/// left out: the last value, when it is a string, is the last text, and else plays no part.
pub proof fn law_strings_of_an_array(items: Seq<JsonView>)
    ensures
        strings_of(Some(JsonView::Array(Seq::empty()))) == Seq::<Seq<char>>::empty(),
        forall|s: Seq<char>|
            strings_of(Some(JsonView::Array(#[trigger] items.push(JsonView::Text(s)))))
                == strings_of(Some(JsonView::Array(items))).push(s),
        forall|other: JsonView|
            other is Text || strings_of(Some(JsonView::Array(#[trigger] items.push(other))))
                == strings_of(Some(JsonView::Array(items))),
{
    assert forall|last: JsonView| texts_among(#[trigger] items.push(last), items.len() as int)
        == texts_among(items, items.len() as int) by {
        lemma_texts_among(items, items.push(last), items.len() as int);
    }
}

proof fn lemma_texts_among(a: Seq<JsonView>, b: Seq<JsonView>, n: int)
    requires
        n <= a.len(),
        n <= b.len(),
        forall|i: int| 0 <= i < n ==> #[trigger] a[i] == b[i],
    ensures
        texts_among(a, n) == texts_among(b, n),
    decreases n,
{
    if n > 0 {
        lemma_texts_among(a, b, n - 1);
        assert(a[n - 1] == b[n - 1]);
    }
}

} // verus!
