//! The order in which the fields of an object are written.
use crate::json::JsonView;
use crate::table::{lemma_slot, lemma_slot_is, lookup, slot, text_keys};
use vstd::prelude::*;

verus! {

/// Whether the text `a` comes before the text `b`: at the first character in which they differ
/// `a` has the smaller one, or `a` is a proper beginning of `b`.
pub open spec fn text_before(a: Seq<char>, b: Seq<char>) -> bool
    decreases a.len(),
{
    if b.len() == 0 {
        false
    } else if a.len() == 0 {
        true
    } else if a[0] != b[0] {
        a[0] < b[0]
    } else {
        text_before(a.drop_first(), b.drop_first())
    }
}

/// The fields with `value` under `key`: in the place of what stood there, or else before the
/// first field whose key comes later.
pub open spec fn placed(
    fields: Seq<(Seq<char>, JsonView)>,
    key: Seq<char>,
    value: JsonView,
) -> Seq<(Seq<char>, JsonView)>
    decreases fields.len(),
{
    if fields.len() == 0 {
        seq![(key, value)]
    } else if fields[0].0 == key {
        seq![(key, value)] + fields.drop_first()
    } else if text_before(key, fields[0].0) {
        seq![(key, value)] + fields
    } else {
        seq![fields[0]] + placed(fields.drop_first(), key, value)
    }
}

/// The fields in ascending order of their keys. Of several fields with one key the last stays.
pub open spec fn arranged(fields: Seq<(Seq<char>, JsonView)>) -> Seq<(Seq<char>, JsonView)>
    decreases fields.len(),
{
    if fields.len() == 0 {
        fields
    } else {
        placed(arranged(fields.drop_last()), fields.last().0, fields.last().1)
    }
}

/// Of two texts that differ, one comes before the other.
pub proof fn law_texts_are_ordered(a: Seq<char>, b: Seq<char>)
    ensures
        !text_before(a, a),
        text_before(a, b) ==> !text_before(b, a),
        a != b ==> text_before(a, b) || text_before(b, a),
    decreases a.len(),
{
    if a.len() > 0 {
        law_texts_are_ordered(a.drop_first(), b.drop_first());
        if b.len() > 0 && a[0] == b[0] && a.drop_first() == b.drop_first() {
            assert(a =~= seq![a[0]] + a.drop_first());
            assert(b =~= seq![b[0]] + b.drop_first());
        }
    } else if b.len() == 0 {
        assert(a =~= b);
    }
}

/// What comes before a text comes before all that come after that text.
pub proof fn law_order_is_transitive(a: Seq<char>, b: Seq<char>, c: Seq<char>)
    requires
        text_before(a, b),
        text_before(b, c),
    ensures
        text_before(a, c),
    decreases a.len(),
{
    if a.len() > 0 && a[0] == b[0] && b[0] == c[0] {
        law_order_is_transitive(a.drop_first(), b.drop_first(), c.drop_first());
    }
}

/// Whether each key comes before the keys behind it.
pub open spec fn ascending(fields: Seq<(Seq<char>, JsonView)>) -> bool {
    forall|i: int, j: int|
        0 <= i < j < fields.len() ==> text_before(
            (#[trigger] fields[i]).0,
            (#[trigger] fields[j]).0,
        )
}

proof fn lemma_lookup_first(
    first: (Seq<char>, JsonView),
    rest: Seq<(Seq<char>, JsonView)>,
    key: Seq<char>,
)
    ensures
        lookup(seq![first] + rest, key) == if first.0 == key {
            Some(first.1)
        } else {
            lookup(rest, key)
        },
{
    let all = seq![first] + rest;
    let names = text_keys(all);
    assert(names[0] == first.0);
    assert forall|i: int| 0 <= i < rest.len() implies names[i + 1] == #[trigger] text_keys(
        rest,
    )[i] by {}
    lemma_slot(text_keys(rest), key);
    let at = slot(text_keys(rest), key) as int;
    if first.0 == key {
        lemma_slot_is(names, key, 0);
    } else {
        assert forall|i: int| 0 <= i < at + 1 implies names[i] != key by {
            if i > 0 {
                assert(names[i] == text_keys(rest)[i - 1]);
            }
        }
        lemma_slot_is(names, key, at + 1);
    }
}

proof fn lemma_placed(
    fields: Seq<(Seq<char>, JsonView)>,
    key: Seq<char>,
    value: JsonView,
    other: Seq<char>,
)
    requires
        ascending(fields),
    ensures
        ascending(placed(fields, key, value)),
        lookup(placed(fields, key, value), other) == if other == key {
            Some(value)
        } else {
            lookup(fields, other)
        },
        forall|i: int|
            0 <= i < placed(fields, key, value).len() ==> (#[trigger] placed(
                fields,
                key,
                value,
            )[i]).0 == key || exists|k: int|
                0 <= k < fields.len() && (#[trigger] fields[k]).0 == placed(
                    fields,
                    key,
                    value,
                )[i].0,
    decreases fields.len(),
{
    let all = placed(fields, key, value);
    let new = (key, value);
    if fields.len() == 0 {
        assert(all =~= seq![new] + fields);
        lemma_lookup_first(new, fields, other);
    } else {
        let rest = fields.drop_first();
        let first = fields[0];
        assert(fields =~= seq![first] + rest);
        lemma_lookup_first(first, rest, other);
        assert forall|k: int| 0 <= k < rest.len() implies #[trigger] rest[k] == fields[k + 1] by {}
        if first.0 == key {
            lemma_lookup_first(new, rest, other);
        } else if text_before(key, first.0) {
            lemma_lookup_first(new, fields, other);
            assert forall|i: int, j: int| 0 <= i < j < all.len() implies text_before(
                (#[trigger] all[i]).0,
                (#[trigger] all[j]).0,
            ) by {
                assert(all[j] == fields[j - 1]);
                if i == 0 {
                    if j > 1 {
                        law_order_is_transitive(key, fields[0].0, fields[j - 1].0);
                    }
                } else {
                    assert(all[i] == fields[i - 1]);
                }
            }
            assert forall|i: int| 0 <= i < all.len() implies (#[trigger] all[i]).0 == key
                || exists|k: int|
                0 <= k < fields.len() && (#[trigger] fields[k]).0 == all[i].0 by {
                if i > 0 {
                    assert(fields[i - 1].0 == all[i].0);
                }
            }
        } else {
            lemma_placed(rest, key, value, other);
            let behind = placed(rest, key, value);
            lemma_lookup_first(first, behind, other);
            law_texts_are_ordered(key, first.0);
            assert forall|i: int| 0 <= i < behind.len() implies (#[trigger] behind[i]).0 == key
                || exists|k: int|
                1 <= k < fields.len() && (#[trigger] fields[k]).0 == behind[i].0 by {
                if behind[i].0 != key {
                    let k = choose|k: int|
                        0 <= k < rest.len() && (#[trigger] rest[k]).0 == behind[i].0;
                    assert(fields[k + 1].0 == behind[i].0);
                }
            }
            assert forall|i: int, j: int| 0 <= i < j < all.len() implies text_before(
                (#[trigger] all[i]).0,
                (#[trigger] all[j]).0,
            ) by {
                assert(all[j] == behind[j - 1]);
                if i > 0 {
                    assert(all[i] == behind[i - 1]);
                }
            }
            assert forall|i: int| 0 <= i < all.len() implies (#[trigger] all[i]).0 == key
                || exists|k: int|
                0 <= k < fields.len() && (#[trigger] fields[k]).0 == all[i].0 by {
                if i > 0 {
                    assert(all[i] == behind[i - 1]);
                } else {
                    assert(all[0] == fields[0]);
                }
            }
        }
    }
}

/// The value of the last field with this key.
pub open spec fn last_under(fields: Seq<(Seq<char>, JsonView)>, key: Seq<char>) -> Option<JsonView>
    decreases fields.len(),
{
    if fields.len() == 0 {
        None
    } else if fields.last().0 == key {
        Some(fields.last().1)
    } else {
        last_under(fields.drop_last(), key)
    }
}

/// Arranged fields ascend, so that no key comes twice, and have under each key what the last
/// field with that key had.
pub proof fn law_arranged(fields: Seq<(Seq<char>, JsonView)>, key: Seq<char>)
    ensures
        ascending(arranged(fields)),
        lookup(arranged(fields), key) == last_under(fields, key),
    decreases fields.len(),
{
    if fields.len() > 0 {
        let before = fields.drop_last();
        law_arranged(before, key);
        lemma_placed(arranged(before), fields.last().0, fields.last().1, key);
    }
}

/// Where no key comes twice, arranging the fields keeps what stands under each key.
pub proof fn law_arranged_keeps_fields(fields: Seq<(Seq<char>, JsonView)>, key: Seq<char>)
    requires
        text_keys(fields).no_duplicates(),
    ensures
        lookup(arranged(fields), key) == lookup(fields, key),
{
    law_arranged(fields, key);
    lemma_last_is_first(fields, key);
}

proof fn lemma_last_is_first(fields: Seq<(Seq<char>, JsonView)>, key: Seq<char>)
    requires
        text_keys(fields).no_duplicates(),
    ensures
        last_under(fields, key) == lookup(fields, key),
    decreases fields.len(),
{
    if fields.len() > 0 {
        let before = fields.drop_last();
        let names = text_keys(fields);
        assert(text_keys(before) =~= names.drop_last());
        assert forall|i: int, j: int|
            0 <= i < before.len() && 0 <= j < before.len() && i != j implies text_keys(before)[i]
            != text_keys(before)[j] by {
            assert(names[i] != names[j]);
        }
        lemma_last_is_first(before, key);
        lemma_slot(names.drop_last(), key);
        if fields.last().0 == key {
            let at = slot(names.drop_last(), key) as int;
            if at < before.len() {
                assert(names[at] == names[fields.len() - 1]);
            }
        }
    }
}

/// A field whose key comes after all others is placed behind them.
pub proof fn lemma_placed_last(
    fields: Seq<(Seq<char>, JsonView)>,
    key: Seq<char>,
    value: JsonView,
)
    requires
        forall|i: int| 0 <= i < fields.len() ==> text_before((#[trigger] fields[i]).0, key),
    ensures
        placed(fields, key, value) == fields.push((key, value)),
    decreases fields.len(),
{
    if fields.len() > 0 {
        let rest = fields.drop_first();
        law_texts_are_ordered(fields[0].0, key);
        assert forall|i: int| 0 <= i < rest.len() implies text_before(
            (#[trigger] rest[i]).0,
            key,
        ) by {
            assert(rest[i] == fields[i + 1]);
        }
        lemma_placed_last(rest, key, value);
        assert(placed(fields, key, value) =~= fields.push((key, value)));
    } else {
        assert(placed(fields, key, value) =~= fields.push((key, value)));
    }
}

/// A text comes before those that it begins, and of two texts that go the same way up to some place
/// the one with the smaller character there comes first.
pub proof fn law_order_by_first_difference(
    same: Seq<char>,
    a: char,
    b: char,
    rest: Seq<char>,
    other: Seq<char>,
)
    ensures
        text_before(same, same.push(b) + other),
        a < b ==> text_before(same.push(a) + rest, same.push(b) + other),
    decreases same.len(),
{
    let (left, right) = (same.push(a) + rest, same.push(b) + other);
    if same.len() > 0 {
        law_order_by_first_difference(same.drop_first(), a, b, rest, other);
        assert(left.drop_first() =~= same.drop_first().push(a) + rest);
        assert(right.drop_first() =~= same.drop_first().push(b) + other);
        assert(left[0] == same[0] && right[0] == same[0]);
    } else {
        assert(left[0] == a && right[0] == b);
    }
}

} // verus!
