//! JSON text: reading documents from bytes and writing them, through `serde_json`.
use crate::arrangement::{
    arranged, ascending, law_arranged, law_arranged_keeps_fields, lemma_placed_last, placed,
    text_before,
};
use crate::json::{
    field_views, lemma_array_view, lemma_object_view, node_count, number_view, views, Json,
    JsonView,
};
use crate::table::{lookup, text_keys};
use vstd::prelude::*;

verus! {

/// A document as `serde_json` holds it.
#[verifier::external_type_specification]
#[verifier::external_body]
pub struct ExValue(serde_json::Value);

/// The fields of an object as `serde_json` holds them.
#[verifier::external_type_specification]
#[verifier::external_body]
#[verifier::reject_recursive_types(K)]
#[verifier::reject_recursive_types(V)]
pub struct ExMap<K, V>(serde_json::Map<K, V>);

/// What a `serde_json::Map` holds, in the order in which it goes through its entries.
pub uninterp spec fn map_contents(
    map: serde_json::Map<String, serde_json::Value>,
) -> Seq<(Seq<char>, JsonView)>;

/// What a `serde_json::Value` holds. The fields of an object stand in the order in which
/// its `Map` goes through them.
pub uninterp spec fn value_contents(value: serde_json::Value) -> JsonView;

/// What `serde_json::from_slice` makes of a byte string: the document, or the text of the
/// error.
pub uninterp spec fn json_document(bytes: Seq<u8>) -> Result<JsonView, Seq<char>>;

/// What `serde_json::to_vec` writes for a `Value` with these contents.
pub uninterp spec fn json_text(contents: JsonView) -> Seq<u8>;

/// The outermost layer of a `serde_json::Value`, with its parts still values of that type.
pub enum Layer {
    Null,
    Bool(bool),
    Number(serde_json::Number),
    Text(String),
    Array(Vec<serde_json::Value>),
    Object(serde_json::Map<String, serde_json::Value>),
}

/// What the values of a list hold.
pub open spec fn value_items(items: Seq<serde_json::Value>) -> Seq<JsonView> {
    Seq::new(items.len(), |i: int| value_contents(items[i]))
}

/// What the entries of an object hold.
pub open spec fn value_fields(fields: Seq<(String, serde_json::Value)>) -> Seq<
    (Seq<char>, JsonView),
> {
    Seq::new(fields.len(), |i: int| (fields[i].0@, value_contents(fields[i].1)))
}

/// What a layer holds.
pub open spec fn layer_contents(layer: Layer) -> JsonView {
    match layer {
        Layer::Null => JsonView::Null,
        Layer::Bool(b) => JsonView::Bool(b),
        Layer::Number(n) => number_view(n),
        Layer::Text(s) => JsonView::Text(s@),
        Layer::Array(items) => JsonView::Array(value_items(items@)),
        Layer::Object(map) => JsonView::Object(map_contents(map)),
    }
}

/// The document with the fields of every object arranged.
pub open spec fn canonical(j: JsonView) -> JsonView
    decreases j,
{
    match j {
        JsonView::Array(items) => JsonView::Array(
            Seq::new(
                items.len(),
                |i: int| if 0 <= i < items.len() { canonical(items[i]) } else { JsonView::Null },
            ),
        ),
        JsonView::Object(fields) => JsonView::Object(canonical_object(fields)),
        _ => j,
    }
}

/// The fields arranged, and what stands under them made canonical.
pub open spec fn canonical_object(fields: Seq<(Seq<char>, JsonView)>) -> Seq<(Seq<char>, JsonView)>
    decreases fields,
{
    if fields.len() == 0 {
        Seq::empty()
    } else {
        placed(canonical_object(fields.drop_last()), fields.last().0, canonical(fields.last().1))
    }
}

/// The documents of a list, each made canonical.
pub open spec fn canonical_items(items: Seq<JsonView>) -> Seq<JsonView> {
    Seq::new(items.len(), |i: int| canonical(items[i]))
}

/// The fields of an object, each made canonical.
pub open spec fn canonical_fields(fields: Seq<(Seq<char>, JsonView)>) -> Seq<
    (Seq<char>, JsonView),
> {
    Seq::new(fields.len(), |i: int| (fields[i].0, canonical(fields[i].1)))
}

/// The canonical form of a list has the canonical forms of its documents.
pub proof fn lemma_canonical_array(items: Seq<JsonView>)
    ensures
        canonical(JsonView::Array(items)) == JsonView::Array(canonical_items(items)),
{
    assert(canonical(JsonView::Array(items))->Array_0 =~= canonical_items(items));
}

/// The canonical form of an object is arranged, and has the canonical forms of its fields.
pub proof fn lemma_canonical_object(fields: Seq<(Seq<char>, JsonView)>)
    ensures
        canonical_object(fields) == arranged(canonical_fields(fields)),
    decreases fields.len(),
{
    if fields.len() > 0 {
        lemma_canonical_object(fields.drop_last());
        assert(canonical_fields(fields).drop_last() =~= canonical_fields(fields.drop_last()));
    } else {
        assert(canonical_fields(fields) =~= Seq::empty());
    }
}

/// Whether the keys of every object ascend, at any depth.
pub open spec fn in_order(j: JsonView) -> bool
    decreases j,
{
    match j {
        JsonView::Array(items) => forall|i: int|
            0 <= i < items.len() ==> in_order(#[trigger] items[i]),
        JsonView::Object(fields) => ascending(fields) && forall|i: int|
            0 <= i < fields.len() ==> in_order((#[trigger] fields[i]).1),
        _ => true,
    }
}

/// A document whose objects are in order is its own canonical form: what was read is written with
/// its fields as they stand.
pub proof fn law_in_order_is_canonical(j: JsonView)
    requires
        in_order(j),
    ensures
        canonical(j) == j,
    decreases j,
{
    match j {
        JsonView::Array(items) => {
            lemma_canonical_array(items);
            assert forall|i: int| 0 <= i < items.len() implies canonical(#[trigger] items[i])
                == items[i] by {
                law_in_order_is_canonical(items[i]);
            }
            assert(canonical_items(items) =~= items);
        },
        JsonView::Object(fields) => {
            assert forall|i: int| 0 <= i < fields.len() implies canonical((#[trigger] fields[i]).1)
                == fields[i].1 by {
                law_in_order_is_canonical(fields[i].1);
            }
            lemma_object_in_order(fields);
        },
        _ => {},
    }
}

proof fn lemma_object_in_order(fields: Seq<(Seq<char>, JsonView)>)
    requires
        ascending(fields),
        forall|i: int|
            0 <= i < fields.len() ==> canonical((#[trigger] fields[i]).1) == fields[i].1,
    ensures
        canonical_object(fields) == fields,
    decreases fields.len(),
{
    if fields.len() > 0 {
        let before = fields.drop_last();
        let last = fields.last();
        assert(fields[fields.len() - 1] == last);
        assert forall|i: int| 0 <= i < before.len() implies canonical((#[trigger] before[i]).1)
            == before[i].1 by {
            assert(before[i] == fields[i]);
        }
        lemma_object_in_order(before);
        assert forall|i: int| 0 <= i < before.len() implies text_before(
            (#[trigger] before[i]).0,
            last.0,
        ) by {
            assert(before[i] == fields[i]);
        }
        lemma_placed_last(before, last.0, last.1);
        assert(before.push(last) =~= fields);
    } else {
        assert(canonical_object(fields) =~= fields);
    }
}

/// Where no key of an object comes twice, its canonical form has under each key the canonical form
/// of what stands there.
pub proof fn law_canonical_keeps_fields(fields: Seq<(Seq<char>, JsonView)>, key: Seq<char>)
    requires
        text_keys(fields).no_duplicates(),
    ensures
        canonical(JsonView::Object(fields)).field(key) == (match lookup(fields, key) {
            Some(value) => Some(canonical(value)),
            None => None,
        }),
{
    lemma_canonical_object(fields);
    assert(text_keys(canonical_fields(fields)) =~= text_keys(fields));
    law_arranged_keeps_fields(canonical_fields(fields), key);
}

/// `serde_json::from_slice` on a byte string gives the document that it spells, or the error,
/// whose text is kept. What it gives depends on the bytes alone. Every document that it makes,
/// at any depth, takes up at least one byte of the input.
#[verifier::external_body]
fn read_value(bytes: &[u8]) -> (read: Result<serde_json::Value, String>)
    ensures
        match read {
            Ok(value) => json_document(bytes@) == Ok::<JsonView, Seq<char>>(value_contents(value)),
            Err(message) => json_document(bytes@) == Err::<JsonView, Seq<char>>(message@),
        },
        read matches Ok(value) ==> node_count(value_contents(value)) <= bytes@.len(),
{
    match serde_json::from_slice(bytes) {
        Ok(value) => Ok(value),
        Err(error) => Err(error.to_string()),
    }
}

/// Takes a `serde_json::Value` apart, one variant for one: the layer holds what the value holds.
#[verifier::external_body]
fn open_value(value: serde_json::Value) -> (layer: Layer)
    ensures
        layer_contents(layer) == value_contents(value),
{
    match value {
        serde_json::Value::Null => Layer::Null,
        serde_json::Value::Bool(b) => Layer::Bool(b),
        serde_json::Value::Number(n) => Layer::Number(n),
        serde_json::Value::String(s) => Layer::Text(s),
        serde_json::Value::Array(items) => Layer::Array(items),
        serde_json::Value::Object(map) => Layer::Object(map),
    }
}

/// Puts a `serde_json::Value` together, one variant for one: the value holds what the layer holds.
#[verifier::external_body]
fn close_value(layer: Layer) -> (value: serde_json::Value)
    ensures
        value_contents(value) == layer_contents(layer),
{
    match layer {
        Layer::Null => serde_json::Value::Null,
        Layer::Bool(b) => serde_json::Value::Bool(b),
        Layer::Number(n) => serde_json::Value::Number(n),
        Layer::Text(s) => serde_json::Value::String(s),
        Layer::Array(items) => serde_json::Value::Array(items),
        Layer::Object(map) => serde_json::Value::Object(map),
    }
}

/// `serde_json::Map::into_iter` hands out the entries of the map in its order, which is the
/// ascending order of the keys.
#[verifier::external_body]
fn map_entries(map: serde_json::Map<String, serde_json::Value>) -> (entries: Vec<
    (String, serde_json::Value),
>)
    ensures
        value_fields(entries@) == map_contents(map),
        ascending(value_fields(entries@)),
{
    map.into_iter().collect()
}

/// `serde_json::Map::new` makes a map that holds nothing.
#[verifier::external_body]
fn new_map() -> (map: serde_json::Map<String, serde_json::Value>)
    ensures
        map_contents(map) == Seq::<(Seq<char>, JsonView)>::empty(),
{
    serde_json::Map::new()
}

/// `serde_json::Map::insert` updates the value where the map has the key, and otherwise puts the
/// entry where its key belongs in the ascending order of the keys.
#[verifier::external_body]
fn insert_entry(
    map: &mut serde_json::Map<String, serde_json::Value>,
    key: String,
    value: serde_json::Value,
)
    ensures
        map_contents(*final(map)) == placed(map_contents(*old(map)), key@, value_contents(value)),
{
    map.insert(key, value);
}

/// An error of `serde_json`.
#[verifier::external_type_specification]
#[verifier::external_body]
pub struct ExError(serde_json::Error);

/// `serde_json::to_vec` on a `Value` does not fail, and what it writes depends on what the value
/// holds alone.
#[verifier::external_body]
fn write_value(value: &serde_json::Value) -> (written: Result<Vec<u8>, serde_json::Error>)
    ensures
        written is Ok,
        written->Ok_0@ == json_text(value_contents(*value)),
{
    serde_json::to_vec(value)
}

/// The document that a `serde_json::Value` holds.
fn from_value(value: serde_json::Value) -> (j: Json)
    ensures
        j@ == value_contents(value),
        in_order(j@),
    decreases value_contents(value),
{
    broadcast use {lemma_array_view, lemma_object_view};

    let ghost contents = value_contents(value);
    match open_value(value) {
        Layer::Null => Json::Null,
        Layer::Bool(b) => Json::Bool(b),
        Layer::Number(n) => Json::Number(n),
        Layer::Text(s) => Json::Text(s),
        Layer::Array(items) => {
            let ghost whole = items@;
            let mut out: Vec<Json> = Vec::new();
            for item in it: items
                invariant
                    it.seq() == whole,
                    contents == value_contents(value),
                    contents == JsonView::Array(value_items(whole)),
                    out@.len() == it.index(),
                    forall|k: int|
                        0 <= k < it.index() ==> (#[trigger] out@[k])@ == value_contents(whole[k])
                            && in_order(out@[k]@),
            {
                proof {
                    assert(decreases_to!(contents => contents->Array_0));
                    let parts = contents->Array_0;
                    assert(decreases_to!(parts => parts[it.index() as int]));
                }
                out.push(from_value(item));
            }
            assert(views(out@) =~= value_items(whole));
            assert forall|k: int| 0 <= k < views(out@).len() implies in_order(
                #[trigger] views(out@)[k],
            ) by {
                assert(in_order(out@[k]@));
            }
            Json::Array(out)
        },
        Layer::Object(map) => {
            let fields: Vec<(String, serde_json::Value)> = map_entries(map);
            let ghost whole = fields@;
            let mut out: Vec<(String, Json)> = Vec::new();
            for field in it: fields
                invariant
                    it.seq() == whole,
                    contents == value_contents(value),
                    contents == JsonView::Object(value_fields(whole)),
                    out@.len() == it.index(),
                    forall|k: int|
                        0 <= k < it.index() ==> (#[trigger] out@[k]).0@ == whole[k].0@ && out@[k].1@
                            == value_contents(whole[k].1) && in_order(out@[k].1@),
            {
                proof {
                    assert(decreases_to!(contents => contents->Object_0));
                    let parts = contents->Object_0;
                    let part = parts[it.index() as int];
                    assert(decreases_to!(parts => part));
                    assert(decreases_to!(part => part.1));
                }
                let (key, inner) = field;
                out.push((key, from_value(inner)));
            }
            assert(field_views(out@) =~= value_fields(whole));
            assert forall|k: int| 0 <= k < field_views(out@).len() implies in_order(
                (#[trigger] field_views(out@)[k]).1,
            ) by {
                assert(in_order(out@[k].1@));
            }
            Json::Object(out)
        },
    }
}

/// The `serde_json::Value` that holds a document.
fn to_value(j: &Json) -> (value: serde_json::Value)
    ensures
        value_contents(value) == canonical(j@),
    decreases j,
{
    broadcast use {lemma_array_view, lemma_object_view};
    match j {
        Json::Null => close_value(Layer::Null),
        Json::Bool(b) => close_value(Layer::Bool(*b)),
        Json::Number(n) => close_value(Layer::Number(n.clone())),
        Json::Text(s) => close_value(Layer::Text(s.clone())),
        Json::Array(items) => {
            let mut out: Vec<serde_json::Value> = Vec::new();
            let mut i: usize = 0;
            while i < items.len()
                invariant
                    i <= items@.len(),
                    *j == Json::Array(*items),
                    out@.len() == i,
                    forall|k: int|
                        0 <= k < i ==> value_contents(#[trigger] out@[k]) == canonical(items@[k]@),
                decreases items@.len() - i,
            {
                proof {
                    assert(decreases_to!(*j => j->Array_0));
                    assert(decreases_to!(*items => items@[i as int]));
                }
                out.push(to_value(&items[i]));
                i += 1;
            }
            proof {
                lemma_canonical_array(views(items@));
                assert(value_items(out@) =~= canonical_items(views(items@)));
            }
            close_value(Layer::Array(out))
        },
        Json::Object(fields) => {
            let mut map: serde_json::Map<String, serde_json::Value> = new_map();
            let ghost whole = field_views(fields@);
            let mut i: usize = 0;
            assert(whole.take(0) =~= Seq::empty());
            while i < fields.len()
                invariant
                    i <= fields@.len(),
                    *j == Json::Object(*fields),
                    whole == field_views(fields@),
                    map_contents(map) == canonical_object(whole.take(i as int)),
                decreases fields@.len() - i,
            {
                proof {
                    assert(decreases_to!(*j => j->Object_0));
                    assert(decreases_to!(*fields => fields@[i as int]));
                    assert(decreases_to!(fields@[i as int] => fields@[i as int].1));
                    assert(whole.take(i + 1).drop_last() =~= whole.take(i as int));
                    assert(whole.take(i + 1).last() == whole[i as int]);
                }
                let value: serde_json::Value = to_value(&fields[i].1);
                insert_entry(&mut map, fields[i].0.clone(), value);
                i += 1;
            }
            assert(whole.take(i as int) =~= whole);
            close_value(Layer::Object(map))
        },
    }
}

/// Reads a document from its JSON text. The fields of its objects come in ascending order of their
/// keys.
pub fn decode(bytes: &[u8]) -> (read: Result<Json, String>)
    ensures
        match read {
            Ok(j) => json_document(bytes@) == Ok::<JsonView, Seq<char>>(j@),
            Err(message) => json_document(bytes@) == Err::<JsonView, Seq<char>>(message@),
        },
        read matches Ok(j) ==> node_count(j@) <= bytes@.len() && in_order(j@),
{
    match read_value(bytes) {
        Ok(value) => Ok(from_value(value)),
        Err(message) => Err(message),
    }
}

/// Writes a document as JSON text, the fields of every object in ascending order of their keys.
pub fn encode(j: &Json) -> (bytes: Vec<u8>)
    ensures
        bytes@ == json_text(canonical(j@)),
{
    write_value(&to_value(j)).unwrap()
}

/// The canonical form of a document differs from it only in the order of fields: what is neither a
/// list nor an object stays as it is, and a list stays a list of the canonical forms, in its order.
/// In the canonical form of any document all objects are in order.
pub proof fn law_canonical(j: JsonView)
    ensures
        !(j is Array) && !(j is Object) ==> canonical(j) == j,
        j matches JsonView::Array(items) ==> (canonical(j) matches JsonView::Array(list)
            && list.len() == items.len() && forall|i: int|
            0 <= i < items.len() ==> #[trigger] list[i] == canonical(items[i])),
        j is Object ==> canonical(j) is Object,
        in_order(canonical(j)),
    decreases j,
{
    match j {
        JsonView::Array(items) => {
            lemma_canonical_array(items);
            let list = canonical_items(items);
            assert forall|i: int| 0 <= i < list.len() implies in_order(#[trigger] list[i]) by {
                law_canonical(items[i]);
            }
        },
        JsonView::Object(fields) => {
            lemma_canonical_object(fields);
            let inner = canonical_fields(fields);
            assert forall|i: int| 0 <= i < inner.len() implies in_order(
                (#[trigger] inner[i]).1,
            ) by {
                law_canonical(fields[i].1);
            }
            law_arranged(inner, Seq::empty());
            lemma_arranged_in_order(inner);
        },
        _ => {},
    }
}

proof fn lemma_arranged_in_order(fields: Seq<(Seq<char>, JsonView)>)
    requires
        forall|i: int| 0 <= i < fields.len() ==> in_order((#[trigger] fields[i]).1),
    ensures
        forall|i: int|
            0 <= i < arranged(fields).len() ==> in_order((#[trigger] arranged(fields)[i]).1),
    decreases fields.len(),
{
    if fields.len() > 0 {
        let before = fields.drop_last();
        assert forall|i: int| 0 <= i < before.len() implies in_order((#[trigger] before[i]).1) by {
            assert(before[i] == fields[i]);
        }
        lemma_arranged_in_order(before);
        assert(in_order(fields[fields.len() - 1].1));
        lemma_placed_in_order(arranged(before), fields.last().0, fields.last().1);
    }
}

proof fn lemma_placed_in_order(
    fields: Seq<(Seq<char>, JsonView)>,
    key: Seq<char>,
    value: JsonView,
)
    requires
        in_order(value),
        forall|i: int| 0 <= i < fields.len() ==> in_order((#[trigger] fields[i]).1),
    ensures
        forall|i: int|
            0 <= i < placed(fields, key, value).len() ==> in_order(
                (#[trigger] placed(fields, key, value)[i]).1,
            ),
    decreases fields.len(),
{
    let all = placed(fields, key, value);
    if fields.len() > 0 {
        let rest = fields.drop_first();
        assert forall|i: int| 0 <= i < rest.len() implies in_order((#[trigger] rest[i]).1) by {
            assert(rest[i] == fields[i + 1]);
        }
        lemma_placed_in_order(rest, key, value);
        let behind = placed(rest, key, value);
        assert forall|i: int| 0 <= i < all.len() implies in_order((#[trigger] all[i]).1) by {
            if fields[0].0 == key {
                assert(i > 0 ==> all[i] == rest[i - 1]);
            } else if text_before(key, fields[0].0) {
                assert(i > 0 ==> all[i] == fields[i - 1]);
            } else {
                assert(i > 0 ==> all[i] == behind[i - 1]);
                assert(i == 0 ==> all[i] == fields[0]);
            }
        }
    }
}

} // verus!
