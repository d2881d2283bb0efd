//! JSON documents.
use crate::table::{entered, find_key, keys, lemma_slot, lookup, slot, text_keys};
use crate::text::texts;
use vstd::prelude::*;

verus! {

/// A JSON number, as `serde_json` keeps it.
#[verifier::external_type_specification]
#[verifier::external_body]
pub struct ExNumber(serde_json::Number);

/// What `serde_json::Number::as_u64` gives: the number, where it is an integer from zero to
/// `u64::MAX`.
pub uninterp spec fn number_u64(number: serde_json::Number) -> Option<u64>;

/// `serde_json::Number::as_u64` is a function of the number alone.
pub assume_specification[ serde_json::Number::as_u64 ](
    number: &serde_json::Number,
) -> (value: Option<u64>)
    ensures
        value == number_u64(*number),
;

/// `serde_json::Number` derives `Clone`: the clone is the same number.
pub assume_specification[ <serde_json::Number as Clone>::clone ](
    number: &serde_json::Number,
) -> (copy: serde_json::Number)
    ensures
        copy == *number,
;

/// `serde_json::Number::from` on a `u64` makes the number whose `as_u64` is that value.
#[verifier::external_body]
fn number_from(value: u64) -> (number: serde_json::Number)
    ensures
        number_u64(number) == Some(value),
{
    serde_json::Number::from(value)
}

/// A JSON document. The fields of an object stand in the order in which they are gone through.
#[derive(Debug, PartialEq)]
pub enum Json {
    Null,
    Bool(bool),
    Number(serde_json::Number),
    Text(String),
    Array(Vec<Json>),
    Object(Vec<(String, Json)>),
}

/// What a JSON document says. A number that `as_u64` gives is that integer.
pub enum JsonView {
    Null,
    Bool(bool),
    Unsigned(u64),
    OtherNumber(serde_json::Number),
    Text(Seq<char>),
    Array(Seq<JsonView>),
    Object(Seq<(Seq<char>, JsonView)>),
}

/// What the number says.
pub open spec fn number_view(number: serde_json::Number) -> JsonView {
    match number_u64(number) {
        Some(value) => JsonView::Unsigned(value),
        None => JsonView::OtherNumber(number),
    }
}

/// What the document says.
pub open spec fn document(j: Json) -> JsonView
    decreases j,
{
    match j {
        Json::Null => JsonView::Null,
        Json::Bool(b) => JsonView::Bool(b),
        Json::Number(n) => number_view(n),
        Json::Text(s) => JsonView::Text(s@),
        Json::Array(items) => JsonView::Array(
            Seq::new(
                items@.len(),
                |i: int| if 0 <= i < items@.len() { document(items@[i]) } else { JsonView::Null },
            ),
        ),
        Json::Object(fields) => JsonView::Object(
            Seq::new(
                fields@.len(),
                |i: int|
                    if 0 <= i < fields@.len() {
                        (fields@[i].0@, document(fields@[i].1))
                    } else {
                        (Seq::empty(), JsonView::Null)
                    },
            ),
        ),
    }
}

impl View for Json {
    type V = JsonView;

    open spec fn view(&self) -> JsonView {
        document(*self)
    }
}

/// What the documents of a list say.
pub open spec fn views(items: Seq<Json>) -> Seq<JsonView> {
    Seq::new(items.len(), |i: int| items[i]@)
}

/// What the fields of an object say.
pub open spec fn field_views(fields: Seq<(String, Json)>) -> Seq<(Seq<char>, JsonView)> {
    Seq::new(fields.len(), |i: int| (fields[i].0@, fields[i].1@))
}

/// A list says what its documents say.
pub broadcast proof fn lemma_array_view(items: Vec<Json>)
    ensures
        #[trigger] document(Json::Array(items)) == JsonView::Array(views(items@)),
{
    assert(document(Json::Array(items))->Array_0 =~= views(items@));
}

/// An object says what its fields say.
pub broadcast proof fn lemma_object_view(fields: Vec<(String, Json)>)
    ensures
        #[trigger] document(Json::Object(fields)) == JsonView::Object(field_views(fields@)),
{
    assert(document(Json::Object(fields))->Object_0 =~= field_views(fields@));
}

impl JsonView {
    /// The field `key` of an object. No other document has fields.
    pub open spec fn field(self, key: Seq<char>) -> Option<JsonView> {
        match self {
            JsonView::Object(fields) => lookup(fields, key),
            _ => None,
        }
    }

    /// The fields of the object that stands under `key`: none where no object stands there.
    pub open spec fn object_at(self, key: Seq<char>) -> Seq<(Seq<char>, JsonView)> {
        match self.field(key) {
            Some(JsonView::Object(fields)) => fields,
            _ => Seq::empty(),
        }
    }

    /// The text that stands under `key`, where a text stands there.
    pub open spec fn text_at(self, key: Seq<char>) -> Option<Seq<char>> {
        match self.field(key) {
            Some(JsonView::Text(text)) => Some(text),
            _ => None,
        }
    }

    /// The text that stands under `key`, or `otherwise` where no text stands there.
    pub open spec fn text_or(self, key: Seq<char>, otherwise: Seq<char>) -> Seq<char> {
        match self.text_at(key) {
            Some(text) => text,
            None => otherwise,
        }
    }

    /// Whether `true` stands under `key`.
    pub open spec fn flag_at(self, key: Seq<char>) -> bool {
        self.field(key) == Some(JsonView::Bool(true))
    }

    /// The document that stands under `key`, or `otherwise` where nothing stands there.
    pub open spec fn field_or(self, key: Seq<char>, otherwise: JsonView) -> JsonView {
        match self.field(key) {
            Some(value) => value,
            None => otherwise,
        }
    }
}

/// The number of documents that a document consists of, itself included.
pub open spec fn node_count(j: JsonView) -> nat
    decreases j,
{
    match j {
        JsonView::Array(items) => 1 + items_count(items),
        JsonView::Object(fields) => 1 + fields_count(fields),
        _ => 1,
    }
}

/// The number of documents that the documents of a list consist of.
pub open spec fn items_count(items: Seq<JsonView>) -> nat
    decreases items,
{
    if items.len() == 0 {
        0
    } else {
        items_count(items.drop_last()) + node_count(items.last())
    }
}

/// The number of documents that the fields of an object consist of.
pub open spec fn fields_count(fields: Seq<(Seq<char>, JsonView)>) -> nat
    decreases fields,
{
    if fields.len() == 0 {
        0
    } else {
        fields_count(fields.drop_last()) + node_count(fields.last().1)
    }
}

/// A field is a smaller document than all the fields together, or as large.
pub proof fn lemma_field_count(fields: Seq<(Seq<char>, JsonView)>, i: int)
    requires
        0 <= i < fields.len(),
    ensures
        node_count(fields[i].1) <= fields_count(fields),
    decreases fields.len(),
{
    if i < fields.len() - 1 {
        lemma_field_count(fields.drop_last(), i);
    }
}

/// The object under a key of a document is smaller than the document.
pub proof fn lemma_object_at_count(j: JsonView, key: Seq<char>)
    ensures
        fields_count(j.object_at(key)) < node_count(j),
{
    match j {
        JsonView::Object(fields) => {
            lemma_slot(text_keys(fields), key);
            let at = slot(text_keys(fields), key) as int;
            if at < fields.len() {
                lemma_field_count(fields, at);
            }
        },
        _ => {},
    }
}

impl Clone for Json {
    fn clone(&self) -> (copy: Json)
        ensures
            copy@ == self@,
        decreases self,
    {
        broadcast use {lemma_array_view, lemma_object_view};

        match self {
            Json::Null => Json::Null,
            Json::Bool(b) => Json::Bool(*b),
            Json::Number(n) => Json::Number(n.clone()),
            Json::Text(s) => Json::Text(s.clone()),
            Json::Array(items) => {
                let mut out: Vec<Json> = Vec::new();
                let mut i: usize = 0;
                while i < items.len()
                    invariant
                        i <= items@.len(),
                        *self == Json::Array(*items),
                        out@.len() == i,
                        forall|k: int| 0 <= k < i ==> out@[k]@ == #[trigger] items@[k]@,
                    decreases items@.len() - i,
                {
                    proof {
                        assert(decreases_to!(*self => self->Array_0));
                        assert(decreases_to!(*items => items@[i as int]));
                    }
                    out.push(items[i].clone());
                    i += 1;
                }
                assert(views(out@) =~= views(items@));
                Json::Array(out)
            },
            Json::Object(fields) => {
                let mut out: Vec<(String, Json)> = Vec::new();
                let mut i: usize = 0;
                while i < fields.len()
                    invariant
                        i <= fields@.len(),
                        *self == Json::Object(*fields),
                        out@.len() == i,
                        forall|k: int|
                            0 <= k < i ==> out@[k].0@ == (#[trigger] fields@[k]).0@ && out@[k].1@
                                == fields@[k].1@,
                    decreases fields@.len() - i,
                {
                    proof {
                        assert(decreases_to!(*self => self->Object_0));
                        assert(decreases_to!(*fields => fields@[i as int]));
                        assert(decreases_to!(fields@[i as int] => fields@[i as int].1));
                    }
                    out.push((fields[i].0.clone(), fields[i].1.clone()));
                    i += 1;
                }
                assert(field_views(out@) =~= field_views(fields@));
                Json::Object(out)
            },
        }
    }
}

impl Json {
    /// The number `value`.
    pub fn unsigned(value: u64) -> (j: Json)
        ensures
            j@ == JsonView::Unsigned(value),
    {
        Json::Number(number_from(value))
    }

    /// The text `text`.
    pub fn text(text: &str) -> (j: Json)
        ensures
            j@ == JsonView::Text(text@),
    {
        Json::Text(text.to_owned())
    }

    /// The field `key` of an object. No other document has fields.
    pub fn get(&self, key: &str) -> (value: Option<&Json>)
        ensures
            match value {
                Some(value) => self@.field(key@) == Some(value@),
                None => self@.field(key@) is None,
            },
    {
        broadcast use lemma_object_view;

        match self {
            Json::Object(fields) => {
                let at: usize = find_key(fields, key);
                assert(keys(fields@) =~= text_keys(field_views(fields@)));
                if at < fields.len() {
                    Some(&fields[at].1)
                } else {
                    None
                }
            },
            _ => None,
        }
    }

    /// The fields of the object that stands under `key`, where an object stands there.
    pub fn get_object(&self, key: &str) -> (fields: Option<&Vec<(String, Json)>>)
        ensures
            match fields {
                Some(fields) => self@.object_at(key@) == field_views(fields@),
                None => self@.object_at(key@).len() == 0,
            },
    {
        broadcast use lemma_object_view;

        match self.get(key) {
            Some(Json::Object(fields)) => Some(fields),
            _ => None,
        }
    }

    /// The text that stands under `key`, where a text stands there.
    pub fn get_text(&self, key: &str) -> (text: Option<&String>)
        ensures
            match text {
                Some(text) => self@.text_at(key@) == Some(text@),
                None => self@.text_at(key@) is None,
            },
    {
        match self.get(key) {
            Some(Json::Text(text)) => Some(text),
            _ => None,
        }
    }

    /// The text that stands under `key`, or `otherwise` where no text stands there.
    pub fn get_text_or(&self, key: &str, otherwise: &str) -> (text: String)
        ensures
            text@ == self@.text_or(key@, otherwise@),
    {
        match self.get_text(key) {
            Some(text) => text.clone(),
            None => otherwise.to_owned(),
        }
    }

    /// Whether `true` stands under `key`.
    pub fn get_flag(&self, key: &str) -> (flag: bool)
        ensures
            flag == self@.flag_at(key@),
    {
        match self.get(key) {
            Some(Json::Bool(flag)) => *flag,
            _ => false,
        }
    }

    /// The document that stands under `key`, or `otherwise` where nothing stands there.
    pub fn get_or(&self, key: &str, otherwise: Json) -> (value: Json)
        ensures
            value@ == self@.field_or(key@, otherwise@),
    {
        match self.get(key) {
            Some(value) => value.clone(),
            None => otherwise,
        }
    }

    /// The unsigned integer that the document is, where it is one.
    pub fn as_unsigned(&self) -> (value: Option<u64>)
        ensures
            value == (match self@ {
                JsonView::Unsigned(value) => Some(value),
                _ => None,
            }),
    {
        match self {
            Json::Number(number) => number.as_u64(),
            _ => None,
        }
    }
}

/// Puts a field behind the fields of an object.
pub fn put_field(fields: &mut Vec<(String, Json)>, key: &str, value: Json)
    ensures
        field_views(final(fields)@) == field_views(old(fields)@).push((key@, value@)),
{
    let ghost before = field_views(fields@);
    let ghost added = value@;
    fields.push((key.to_owned(), value));
    assert(field_views(fields@) =~= before.push((key@, added)));
}

/// Puts `value` under `key`: in the place of what stood there, or else behind the other fields.
pub fn enter_field(fields: &mut Vec<(String, Json)>, key: &str, value: Json)
    ensures
        field_views(final(fields)@) == entered(field_views(old(fields)@), key@, value@),
{
    let ghost before = field_views(fields@);
    let ghost added = value@;
    let at: usize = find_key(fields, key);
    assert(keys(fields@) =~= text_keys(before));
    proof {
        lemma_slot(text_keys(before), key@);
    }
    if at < fields.len() {
        fields[at].1 = value;
    } else {
        fields.push((key.to_owned(), value));
    }
    assert(field_views(fields@) =~= entered(before, key@, added));
}

/// The texts of a list, as documents.
pub open spec fn text_views(list: Seq<Seq<char>>) -> Seq<JsonView> {
    Seq::new(list.len(), |i: int| JsonView::Text(list[i]))
}

impl Json {
    /// The list of these texts.
    pub fn texts(list: &Vec<String>) -> (j: Json)
        ensures
            j@ == JsonView::Array(text_views(texts(list@))),
    {
        broadcast use lemma_array_view;

        let mut items: Vec<Json> = Vec::new();
        let mut i: usize = 0;
        while i < list.len()
            invariant
                i <= list@.len(),
                items@.len() == i,
                forall|k: int| 0 <= k < i ==> (#[trigger] items@[k])@ == JsonView::Text(list@[k]@),
            decreases list@.len() - i,
        {
            items.push(Json::Text(list[i].clone()));
            i += 1;
        }
        assert(views(items@) =~= text_views(texts(list@)));
        Json::Array(items)
    }

    /// The object with these fields.
    pub fn object(fields: Vec<(String, Json)>) -> (j: Json)
        ensures
            j@ == JsonView::Object(field_views(fields@)),
    {
        broadcast use lemma_object_view;

        Json::Object(fields)
    }

    /// The list of these documents.
    pub fn array(items: Vec<Json>) -> (j: Json)
        ensures
            j@ == JsonView::Array(views(items@)),
    {
        broadcast use lemma_array_view;

        Json::Array(items)
    }
}

} // verus!
