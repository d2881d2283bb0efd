//! Tables: lists of key and value pairs in which a key is found by its first entry.
use crate::text::same_text;
use vstd::prelude::*;

verus! {

/// The first position of `key` in `keys`, or the length of `keys` where it does not occur.
pub open spec fn slot(keys: Seq<Seq<char>>, key: Seq<char>) -> nat
    decreases keys.len(),
{
    if keys.len() == 0 {
        0
    } else {
        let before = slot(keys.drop_last(), key);
        if before < keys.len() - 1 || keys.last() == key {
            before
        } else {
            keys.len()
        }
    }
}

/// The keys of a table of strings.
pub open spec fn keys<T>(table: Seq<(String, T)>) -> Seq<Seq<char>> {
    Seq::new(table.len(), |i: int| table[i].0@)
}

/// The keys of a table of texts.
pub open spec fn text_keys<T>(table: Seq<(Seq<char>, T)>) -> Seq<Seq<char>> {
    Seq::new(table.len(), |i: int| table[i].0)
}

/// The value that stands under `key`, where there is one.
pub open spec fn lookup<T>(table: Seq<(Seq<char>, T)>, key: Seq<char>) -> Option<T> {
    let at = slot(text_keys(table), key) as int;
    if at < table.len() {
        Some(table[at].1)
    } else {
        None
    }
}

/// The table with `value` under `key`: in the place of what stood there, or else behind the rest.
pub open spec fn entered<T>(table: Seq<(Seq<char>, T)>, key: Seq<char>, value: T) -> Seq<
    (Seq<char>, T),
> {
    let at = slot(text_keys(table), key) as int;
    if at < table.len() {
        table.update(at, (key, value))
    } else {
        table.push((key, value))
    }
}

/// What is entered under a key is found there, and nothing else changes.
pub proof fn lemma_entered<T>(
    table: Seq<(Seq<char>, T)>,
    key: Seq<char>,
    value: T,
    other: Seq<char>,
)
    ensures
        lookup(entered(table, key, value), other) == if other == key {
            Some(value)
        } else {
            lookup(table, other)
        },
        text_keys(table).no_duplicates() ==> text_keys(
            entered(table, key, value),
        ).no_duplicates(),
{
    lemma_slot(text_keys(table), key);
    if slot(text_keys(table), key) < table.len() {
        lemma_lookup_update(table, key, value, other);
    } else {
        lemma_lookup_push(table, key, value, other);
        let before = text_keys(table);
        if before.no_duplicates() {
            let after = before.push(key);
            assert forall|i: int, j: int|
                0 <= i < after.len() && 0 <= j < after.len() && i != j implies after[i]
                != after[j] by {
                assert(i < before.len() ==> before.contains(before[i]));
                assert(j < before.len() ==> before.contains(before[j]));
            }
        }
    }
}

/// `slot` is at the first occurrence, and at the length exactly where there is none.
pub proof fn lemma_slot(keys: Seq<Seq<char>>, key: Seq<char>)
    ensures
        slot(keys, key) <= keys.len(),
        slot(keys, key) < keys.len() ==> keys[slot(keys, key) as int] == key,
        forall|i: int| 0 <= i < slot(keys, key) ==> keys[i] != key,
        slot(keys, key) < keys.len() <==> keys.contains(key),
    decreases keys.len(),
{
    if keys.len() > 0 {
        lemma_slot(keys.drop_last(), key);
        let before = slot(keys.drop_last(), key);
        assert forall|i: int| 0 <= i < slot(keys, key) implies keys[i] != key by {
            if i < keys.len() - 1 {
                assert(keys.drop_last()[i] == keys[i]);
            }
        }
        if keys.contains(key) {
            let i = choose|i: int| 0 <= i < keys.len() && keys[i] == key;
            assert(!(i < slot(keys, key)));
        }
    }
}

/// A position that holds `key`, with none before it that does, is the slot of `key`.
pub proof fn lemma_slot_is(keys: Seq<Seq<char>>, key: Seq<char>, at: int)
    requires
        0 <= at <= keys.len(),
        at < keys.len() ==> keys[at] == key,
        forall|i: int| 0 <= i < at ==> keys[i] != key,
    ensures
        slot(keys, key) == at,
{
    lemma_slot(keys, key);
    if slot(keys, key) < at {
        assert(keys[slot(keys, key) as int] != key);
    }
}

/// A key and value put behind a table without that key are found there, and nothing else changes.
pub proof fn lemma_lookup_push<T>(
    table: Seq<(Seq<char>, T)>,
    key: Seq<char>,
    value: T,
    other: Seq<char>,
)
    requires
        slot(text_keys(table), key) >= table.len(),
    ensures
        text_keys(table.push((key, value))) == text_keys(table).push(key),
        lookup(table.push((key, value)), other) == if other == key {
            Some(value)
        } else {
            lookup(table, other)
        },
{
    let more = table.push((key, value));
    assert(text_keys(more) =~= text_keys(table).push(key));
    assert(text_keys(more).drop_last() =~= text_keys(table));
    lemma_slot(text_keys(table), other);
    lemma_slot(text_keys(table), key);
}

/// A value put in the place of the one that stands under its key is found there, and nothing
/// else changes.
pub proof fn lemma_lookup_update<T>(
    table: Seq<(Seq<char>, T)>,
    key: Seq<char>,
    value: T,
    other: Seq<char>,
)
    requires
        slot(text_keys(table), key) < table.len(),
    ensures
        text_keys(table.update(slot(text_keys(table), key) as int, (key, value))) == text_keys(
            table,
        ),
        lookup(table.update(slot(text_keys(table), key) as int, (key, value)), other) == if other
            == key {
            Some(value)
        } else {
            lookup(table, other)
        },
{
    lemma_slot(text_keys(table), key);
    lemma_slot(text_keys(table), other);
    assert(text_keys(table.update(slot(text_keys(table), key) as int, (key, value)))
        =~= text_keys(table));
}

/// Finds `key` in a table: its first position, or the table's length where it does not occur.
pub fn find_key<T>(table: &Vec<(String, T)>, key: &str) -> (at: usize)
    ensures
        at == slot(keys(table@), key@),
        at <= table@.len(),
{
    let mut i: usize = 0;
    while i < table.len()
        invariant
            i <= table@.len(),
            forall|k: int| 0 <= k < i ==> keys(table@)[k] != key@,
        decreases table@.len() - i,
    {
        if same_text(table[i].0.as_str(), key) {
            proof {
                lemma_slot_is(keys(table@), key@, i as int);
            }
            return i;
        }
        i += 1;
    }
    proof {
        lemma_slot_is(keys(table@), key@, i as int);
    }
    i
}

} // verus!
