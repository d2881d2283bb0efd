//! What the parts of a document are.
use crate::json::{
    document, field_views, lemma_array_view, lemma_object_view, number_u64, text_views, views, Json,
    JsonView,
};
use crate::table::{lemma_slot, lemma_slot_is, slot, text_keys};
use vstd::prelude::*;

verus! {

/// Whether a field of an object has this key and this value, and none before it has the key.
pub open spec fn is_first_field(
    fields: Seq<(Seq<char>, JsonView)>,
    key: Seq<char>,
    value: JsonView,
    i: int,
) -> bool {
    &&& 0 <= i < fields.len()
    &&& fields[i] == (key, value)
    &&& forall|k: int| 0 <= k < i ==> (#[trigger] fields[k]).0 != key
}

/// A field of an object is the first with its key. There is none where no field has the key, and
/// none in a document that is not an object.
pub proof fn law_field_is_first(j: JsonView, key: Seq<char>)
    ensures
        match j {
            JsonView::Object(fields) => {
                &&& forall|value: JsonView| #[trigger]
                    j.field(key) == Some(value) <==> exists|i: int| #[trigger]
                        is_first_field(fields, key, value, i)
                &&& j.field(key) is None <==> forall|i: int|
                    0 <= i < fields.len() ==> (#[trigger] fields[i]).0 != key
            },
            _ => j.field(key) is None,
        },
{
    match j {
        JsonView::Object(fields) => {
            let names = text_keys(fields);
            let at = slot(names, key) as int;
            lemma_slot(names, key);
            assert forall|k: int| 0 <= k < at implies (#[trigger] fields[k]).0 != key by {
                assert(names[k] == fields[k].0);
            }
            if at < fields.len() {
                assert(names[at] == fields[at].0);
                assert(is_first_field(fields, key, fields[at].1, at));
            } else {
                assert forall|i: int| 0 <= i < fields.len() implies (#[trigger] fields[i]).0
                    != key by {
                    assert(names[i] == fields[i].0);
                }
            }
            assert forall|value: JsonView| #[trigger]
                j.field(key) == Some(value) <==> exists|i: int| #[trigger]
                    is_first_field(fields, key, value, i) by {
                if exists|i: int| #[trigger] is_first_field(fields, key, value, i) {
                    let i = choose|i: int| #[trigger] is_first_field(fields, key, value, i);
                    if i < at {
                        assert(fields[i].0 != key);
                    } else if at < i {
                        assert(fields[at].0 != key);
                    }
                }
            }
        },
        _ => {},
    }
}

/// What stands under a key, taken as an object, a text or a flag, or with something in its stead.
pub proof fn law_taken_from_field(
    j: JsonView,
    key: Seq<char>,
    text: Seq<char>,
    otherwise: JsonView,
)
    ensures
        j.object_at(key) == (match j.field(key) {
            Some(JsonView::Object(fields)) => fields,
            _ => Seq::empty(),
        }),
        j.text_at(key) == (match j.field(key) {
            Some(JsonView::Text(found)) => Some(found),
            _ => None,
        }),
        j.text_or(key, text) == (match j.field(key) {
            Some(JsonView::Text(found)) => found,
            _ => text,
        }),
        j.flag_at(key) == (match j.field(key) {
            Some(JsonView::Bool(flag)) => flag,
            _ => false,
        }),
        j.field_or(key, otherwise) == (match j.field(key) {
            Some(found) => found,
            None => otherwise,
        }),
{
}

/// A document says what it holds: one for one, item for item and field for field.
pub proof fn law_document(j: Json)
    ensures
        match j {
            Json::Null => j@ == JsonView::Null,
            Json::Bool(b) => j@ == JsonView::Bool(b),
            Json::Number(n) => j@ == (match number_u64(n) {
                Some(value) => JsonView::Unsigned(value),
                None => JsonView::OtherNumber(n),
            }),
            Json::Text(s) => j@ == JsonView::Text(s@),
            Json::Array(items) => j@ matches JsonView::Array(list) && list.len() == items@.len()
                && forall|i: int| 0 <= i < items@.len() ==> #[trigger] list[i] == items@[i]@,
            Json::Object(fields) => j@ matches JsonView::Object(list) && list.len()
                == fields@.len() && forall|i: int|
                0 <= i < fields@.len() ==> #[trigger] list[i] == (fields@[i].0@, fields@[i].1@),
        },
{
    match j {
        Json::Array(items) => lemma_array_view(items),
        Json::Object(fields) => lemma_object_view(fields),
        _ => {},
    }
}

/// Lists of documents, of fields and of texts say what their items say, in their order.
pub proof fn law_lists(items: Seq<Json>, fields: Seq<(String, Json)>, list: Seq<Seq<char>>)
    ensures
        views(items).len() == items.len(),
        forall|i: int| 0 <= i < items.len() ==> #[trigger] views(items)[i] == items[i]@,
        field_views(fields).len() == fields.len(),
        forall|i: int|
            0 <= i < fields.len() ==> #[trigger] field_views(fields)[i] == (
                fields[i].0@,
                fields[i].1@,
            ),
        text_views(list).len() == list.len(),
        forall|i: int|
            0 <= i < list.len() ==> #[trigger] text_views(list)[i] == JsonView::Text(list[i]),
{
}

/// Where no key comes twice, each field of an object is found under its key.
pub proof fn lemma_field_at(fields: Seq<(Seq<char>, JsonView)>, i: int)
    requires
        text_keys(fields).no_duplicates(),
        0 <= i < fields.len(),
    ensures
        JsonView::Object(fields).field(fields[i].0) == Some(fields[i].1),
{
    let names = text_keys(fields);
    assert forall|k: int| 0 <= k < i implies names[k] != names[i] by {}
    lemma_slot_is(names, names[i], i);
}

} // verus!
