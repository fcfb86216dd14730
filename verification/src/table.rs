//! Tables from texts to values: rows in the order of their keys, no key twice.

use crate::text::{
    is_before, lemma_before_irreflexive, lemma_before_total, lemma_before_transitive, same_text,
    text_before, texts,
};
use vstd::prelude::*;
use vstd::string::*;

verus! {

/// The table after a value is put under a key: it takes the place of the value that
/// was there, if there was one.
pub open spec fn put<V>(table: Seq<(Seq<char>, V)>, key: Seq<char>, value: V) -> Seq<
    (Seq<char>, V),
>
    decreases table.len(),
{
    if table.len() > 0 && text_before(key, table.last().0) {
        put(table.drop_last(), key, value).push(table.last())
    } else if table.len() > 0 && table.last().0 == key {
        table.drop_last().push((key, value))
    } else {
        table.push((key, value))
    }
}

/// The table that pairs make when they are put into it one after another.
pub open spec fn gathered<V>(pairs: Seq<(Seq<char>, V)>) -> Seq<(Seq<char>, V)>
    decreases pairs.len(),
{
    if pairs.len() == 0 {
        Seq::empty()
    } else {
        put(gathered(pairs.drop_last()), pairs.last().0, pairs.last().1)
    }
}

/// The value of the last pair with that key.
pub open spec fn found<V>(pairs: Seq<(Seq<char>, V)>, key: Seq<char>) -> Option<V>
    decreases pairs.len(),
{
    if pairs.len() == 0 {
        None
    } else if pairs.last().0 == key {
        Some(pairs.last().1)
    } else {
        found(pairs.drop_last(), key)
    }
}

/// The keys of pairs.
pub open spec fn keys<V>(pairs: Seq<(Seq<char>, V)>) -> Seq<Seq<char>> {
    Seq::new(pairs.len(), |i: int| pairs[i].0)
}

/// Each key stands behind those that come before it, so none stands twice.
pub open spec fn ordered<V>(table: Seq<(Seq<char>, V)>) -> bool {
    forall|i: int, j: int|
        0 <= i < j < table.len() ==> text_before(
            (#[trigger] table[i]).0,
            (#[trigger] table[j]).0,
        )
}

/// The pairs with their values looked at through `f`.
pub open spec fn with_values<V, W>(
    pairs: Seq<(Seq<char>, V)>,
    f: spec_fn(V) -> W,
) -> Seq<(Seq<char>, W)> {
    Seq::new(pairs.len(), |i: int| (pairs[i].0, f(pairs[i].1)))
}

/// What rows stand for: the texts of their keys, and their values.
pub open spec fn rows<V>(table: Seq<(String, V)>) -> Seq<(Seq<char>, V)> {
    Seq::new(table.len(), |i: int| (table[i].0@, table[i].1))
}

/// Puts a value under a key.
pub(crate) fn put_row<V>(table: &mut Vec<(String, V)>, key: String, value: V)
    ensures
        rows(final(table)@) == put(rows(old(table)@), key@, value),
{
    let ghost source = rows(table@);
    let mut at: usize = table.len();
    assert(source.take(at as int) =~= source);
    assert(put(source, key@, value) + source.skip(at as int) =~= put(source, key@, value));
    while at > 0 && is_before(key.as_str(), table[at - 1].0.as_str())
        invariant
            at <= table.len(),
            source == rows(table@),
            *old(table) == *table,
            put(source, key@, value) == put(source.take(at as int), key@, value) + source.skip(
                at as int,
            ),
        decreases at,
    {
        proof {
            let part = source.take(at as int);
            assert(part.last() == source[at - 1]);
            assert(part.drop_last() =~= source.take(at - 1));
            assert(put(source.take(at - 1), key@, value).push(source[at - 1]) + source.skip(
                at as int,
            ) =~= put(source.take(at - 1), key@, value) + source.skip(at - 1));
        }
        at -= 1;
    }
    let ghost part = source.take(at as int);
    if at > 0 && same_text(table[at - 1].0.as_str(), key.as_str()) {
        assert(part.last() == source[at - 1]);
        table.set(at - 1, (key, value));
        assert(rows(table@) =~= part.drop_last().push((key@, value)) + source.skip(at as int));
    } else {
        proof {
            if at > 0 {
                assert(part.last() == source[at - 1]);
            }
        }
        table.insert(at, (key, value));
        assert(rows(table@) =~= part.push((key@, value)) + source.skip(at as int));
    }
}

/// Finds the value of a key.
pub(crate) fn find_row<'a, V>(table: &'a Vec<(String, V)>, key: &str) -> (value: Option<&'a V>)
    ensures
        match value {
            Some(value) => found(rows(table@), key@) == Some(*value),
            None => found(rows(table@), key@) is None,
        },
{
    let ghost source = rows(table@);
    let mut at: usize = table.len();
    assert(source.take(at as int) =~= source);
    while at > 0
        invariant
            at <= table.len(),
            source == rows(table@),
            found(source, key@) == found(source.take(at as int), key@),
        decreases at,
    {
        proof {
            assert(source.take(at as int).last() == source[at - 1]);
            assert(source.take(at as int).drop_last() =~= source.take(at - 1));
        }
        if same_text(table[at - 1].0.as_str(), key) {
            return Some(&table[at - 1].1);
        }
        at -= 1;
    }
    None
}

/// Putting a value keeps a table in order, and changes what is found for that key alone.
pub proof fn lemma_put<V>(table: Seq<(Seq<char>, V)>, key: Seq<char>, value: V)
    requires
        ordered(table),
    ensures
        ordered(put(table, key, value)),
        found(put(table, key, value), key) == Some(value),
        forall|other: Seq<char>|
            other != key ==> #[trigger] found(put(table, key, value), other) == found(table, other),
        forall|i: int|
            0 <= i < put(table, key, value).len() ==> (#[trigger] put(table, key, value)[i]).0 == key
                || exists|j: int| 0 <= j < table.len() && table[j] == put(table, key, value)[i],
    decreases table.len(),
{
    let after = put(table, key, value);
    if table.len() > 0 && text_before(key, table.last().0) {
        let front = table.drop_last();
        let inner = put(front, key, value);
        lemma_put(front, key, value);
        assert(after.drop_last() =~= inner);
        lemma_before_irreflexive(key);
        assert forall|other: Seq<char>| other != key implies #[trigger] found(after, other)
            == found(table, other) by {
            assert(found(inner, other) == found(front, other));
        }
        assert forall|i: int| 0 <= i < after.len() implies (#[trigger] after[i]).0 == key
            || exists|j: int| 0 <= j < table.len() && table[j] == after[i] by {
            if i < inner.len() {
                assert(after[i] == inner[i]);
                if inner[i].0 != key {
                    let j = choose|j: int| 0 <= j < front.len() && front[j] == inner[i];
                    assert(table[j] == after[i]);
                }
            } else {
                assert(table[table.len() - 1] == after[i]);
            }
        }
        assert forall|i: int, j: int| 0 <= i < j < after.len() implies text_before(
            (#[trigger] after[i]).0,
            (#[trigger] after[j]).0,
        ) by {
            assert(after[i] == inner[i]);
            if j < inner.len() {
                assert(after[j] == inner[j]);
            } else if inner[i].0 != key {
                let k = choose|k: int| 0 <= k < front.len() && front[k] == inner[i];
                assert(table[k] == inner[i]);
            }
        }
    } else if table.len() > 0 && table.last().0 == key {
        let front = table.drop_last();
        assert(after.drop_last() =~= front);
        assert forall|other: Seq<char>| other != key implies #[trigger] found(after, other)
            == found(table, other) by {
            assert(found(after, other) == found(after.drop_last(), other));
        }
        assert forall|i: int| 0 <= i < after.len() && (#[trigger] after[i]).0 != key implies exists|
            j: int,
        | 0 <= j < table.len() && table[j] == after[i] by {
            assert(table[i] == after[i]);
        }
        assert forall|i: int, j: int| 0 <= i < j < after.len() implies text_before(
            (#[trigger] after[i]).0,
            (#[trigger] after[j]).0,
        ) by {
            assert(after[i] == table[i]);
            assert(after[j].0 == table[j].0);
        }
    } else {
        assert(after.drop_last() =~= table);
        assert forall|i: int| 0 <= i < after.len() && (#[trigger] after[i]).0 != key implies exists|
            j: int,
        | 0 <= j < table.len() && table[j] == after[i] by {
            assert(table[i] == after[i]);
        }
        assert forall|i: int, j: int| 0 <= i < j < after.len() implies text_before(
            (#[trigger] after[i]).0,
            (#[trigger] after[j]).0,
        ) by {
            assert(after[i] == table[i]);
            if j < table.len() {
                assert(after[j] == table[j]);
            } else {
                let last = table.last().0;
                lemma_before_total(last, key);
                if i < table.len() - 1 {
                    assert(table[table.len() - 1].0 == last);
                    lemma_before_transitive(table[i].0, last, key);
                }
            }
        }
    }
}

/// A table is in order, and holds under each key the value that was put there last.
pub proof fn law_table<V>(pairs: Seq<(Seq<char>, V)>)
    ensures
        ordered(gathered(pairs)),
        forall|key: Seq<char>| #[trigger] found(gathered(pairs), key) == found(pairs, key),
    decreases pairs.len(),
{
    if pairs.len() > 0 {
        law_table(pairs.drop_last());
        lemma_put(gathered(pairs.drop_last()), pairs.last().0, pairs.last().1);
        assert forall|key: Seq<char>| #[trigger] found(gathered(pairs), key) == found(pairs, key) by {
            if key != pairs.last().0 {
                assert(found(gathered(pairs.drop_last()), key) == found(pairs.drop_last(), key));
            }
        }
    }
}

/// Looking at the values through `f` and gathering can be done in either order.
pub proof fn lemma_gathered_values<V, W>(pairs: Seq<(Seq<char>, V)>, f: spec_fn(V) -> W)
    ensures
        gathered(with_values(pairs, f)) == with_values(gathered(pairs), f),
    decreases pairs.len(),
{
    if pairs.len() == 0 {
        assert(gathered(with_values(pairs, f)) =~= with_values(gathered(pairs), f));
    } else {
        let front = pairs.drop_last();
        lemma_gathered_values(front, f);
        assert(with_values(pairs, f).drop_last() =~= with_values(front, f));
        lemma_put_values(gathered(front), pairs.last().0, pairs.last().1, f);
    }
}

/// Looking at the values through `f` and putting can be done in either order.
pub proof fn lemma_put_values<V, W>(
    table: Seq<(Seq<char>, V)>,
    key: Seq<char>,
    value: V,
    f: spec_fn(V) -> W,
)
    ensures
        put(with_values(table, f), key, f(value)) == with_values(put(table, key, value), f),
    decreases table.len(),
{
    let seen = with_values(table, f);
    if table.len() > 0 && text_before(key, table.last().0) {
        lemma_put_values(table.drop_last(), key, value, f);
        assert(seen.drop_last() =~= with_values(table.drop_last(), f));
        assert(with_values(put(table, key, value), f) =~= with_values(
            put(table.drop_last(), key, value),
            f,
        ).push(seen.last()));
    } else {
        assert(put(seen, key, f(value)) =~= with_values(put(table, key, value), f));
    }
}

/// Finding a value and looking at it through `f` can be done in either order.
pub proof fn lemma_found_values<V, W>(pairs: Seq<(Seq<char>, V)>, key: Seq<char>, f: spec_fn(V) -> W)
    ensures
        found(with_values(pairs, f), key) == match found(pairs, key) {
            Some(value) => Some(f(value)),
            None => None,
        },
    decreases pairs.len(),
{
    if pairs.len() > 0 {
        lemma_found_values(pairs.drop_last(), key, f);
        assert(with_values(pairs, f).drop_last() =~= with_values(pairs.drop_last(), f));
    }
}

/// Texts as the keys of rows without values.
pub open spec fn bare_rows(list: Seq<Seq<char>>) -> Seq<(Seq<char>, ())> {
    Seq::new(list.len(), |i: int| (list[i], ()))
}

/// The texts in order, each once.
pub open spec fn sorted_distinct(list: Seq<Seq<char>>) -> Seq<Seq<char>> {
    keys(gathered(bare_rows(list)))
}

/// Sorts texts, and drops those that stand there already.
pub(crate) fn sort_distinct(list: Vec<String>) -> (sorted: Vec<String>)
    ensures
        texts(sorted@) == sorted_distinct(texts(list@)),
{
    let ghost source = list@;
    let ghost views = bare_rows(texts(list@));
    let mut table: Vec<(String, ())> = Vec::new();
    assert(rows(table@) =~= gathered(views.take(0)));
    for text in it: list
        invariant
            it.seq() == source,
            views == bare_rows(texts(source)),
            rows(table@) == gathered(views.take(it.index() as int)),
    {
        let ghost upto = views.take(it.index() + 1);
        assert(upto.drop_last() =~= views.take(it.index() as int));
        assert(upto.last() == (text@, ()));
        put_row(&mut table, text, ());
    }
    assert(views.take(views.len() as int) =~= views);
    let ghost ordered_rows = table@;
    let mut sorted: Vec<String> = Vec::new();
    for row in it: table
        invariant
            it.seq() == ordered_rows,
            sorted@.len() == it.index(),
            forall|i: int| 0 <= i < sorted@.len() ==> (#[trigger] sorted@[i])@ == ordered_rows[i].0@,
    {
        sorted.push(row.0);
    }
    assert(texts(sorted@) =~= keys(rows(ordered_rows)));
    sorted
}

/// A key is found exactly if it is one of the keys.
pub proof fn lemma_found_keys<V>(pairs: Seq<(Seq<char>, V)>, key: Seq<char>)
    ensures
        found(pairs, key) is Some <==> keys(pairs).contains(key),
    decreases pairs.len(),
{
    if pairs.len() > 0 {
        let front = pairs.drop_last();
        lemma_found_keys(front, key);
        if pairs.last().0 == key {
            assert(keys(pairs)[pairs.len() - 1] == key);
        } else {
            if keys(front).contains(key) {
                let i = choose|i: int| 0 <= i < front.len() && keys(front)[i] == key;
                assert(keys(pairs)[i] == key);
            }
            if keys(pairs).contains(key) {
                let i = choose|i: int| 0 <= i < pairs.len() && keys(pairs)[i] == key;
                assert(keys(front)[i] == key);
            }
        }
    }
}

/// Sorting without repeats keeps every text, adds none, and puts each behind those that
/// come before it.
pub proof fn law_sorted_distinct(list: Seq<Seq<char>>)
    ensures
        forall|text: Seq<char>| #[trigger] sorted_distinct(list).contains(text) <==> list.contains(text),
        forall|i: int, j: int|
            0 <= i < j < sorted_distinct(list).len() ==> text_before(
                #[trigger] sorted_distinct(list)[i],
                #[trigger] sorted_distinct(list)[j],
            ),
{
    let pairs = bare_rows(list);
    law_table(pairs);
    assert(keys(pairs) =~= list);
    assert forall|text: Seq<char>| #[trigger] sorted_distinct(list).contains(text) <==> list.contains(
        text,
    ) by {
        lemma_found_keys(pairs, text);
        lemma_found_keys(gathered(pairs), text);
        assert(found(gathered(pairs), text) == found(pairs, text));
    }
    assert forall|i: int, j: int| 0 <= i < j < sorted_distinct(list).len() implies text_before(
        #[trigger] sorted_distinct(list)[i],
        #[trigger] sorted_distinct(list)[j],
    ) by {
        assert(text_before(gathered(pairs)[i].0, gathered(pairs)[j].0));
    }
}

/// What is found for a key is the value of the last pair with that key, and nothing is found
/// exactly if no pair has it.
pub proof fn law_found<V>(pairs: Seq<(Seq<char>, V)>, key: Seq<char>)
    ensures
        match found(pairs, key) {
            Some(value) => exists|i: int|
                0 <= i < pairs.len() && #[trigger] pairs[i] == (key, value) && forall|j: int|
                    i < j < pairs.len() ==> (#[trigger] pairs[j]).0 != key,
            None => forall|i: int| 0 <= i < pairs.len() ==> (#[trigger] pairs[i]).0 != key,
        },
    decreases pairs.len(),
{
    if pairs.len() > 0 {
        let front = pairs.drop_last();
        let last = pairs.len() - 1;
        law_found(front, key);
        if pairs.last().0 == key {
            assert(pairs[last] == (key, pairs.last().1));
        } else {
            match found(front, key) {
                Some(value) => {
                    let i = choose|i: int|
                        0 <= i < front.len() && #[trigger] front[i] == (key, value) && forall|
                            j: int,
                        |
                            i < j < front.len() ==> (#[trigger] front[j]).0 != key;
                    assert(pairs[i] == (key, value));
                    assert forall|j: int| i < j < pairs.len() implies (#[trigger] pairs[j]).0
                        != key by {
                        if j < last {
                            assert(front[j] == pairs[j]);
                        }
                    }
                },
                None => {
                    assert forall|i: int| 0 <= i < pairs.len() implies (#[trigger] pairs[i]).0
                        != key by {
                        if i < last {
                            assert(front[i] == pairs[i]);
                        }
                    }
                },
            }
        }
    }
}

/// The rows of a table stand by growing keys, and each holds the last value that was put
/// under its key; every key that was put is there.
pub proof fn law_table_rows<V>(pairs: Seq<(Seq<char>, V)>, at: int, key: Seq<char>)
    ensures
        forall|i: int, j: int|
            0 <= i < j < gathered(pairs).len() ==> text_before(
                (#[trigger] gathered(pairs)[i]).0,
                (#[trigger] gathered(pairs)[j]).0,
            ),
        0 <= at < gathered(pairs).len() ==> found(pairs, gathered(pairs)[at].0) == Some(
            gathered(pairs)[at].1,
        ),
        found(pairs, key) matches Some(value) ==> gathered(pairs).contains((key, value)),
{
    let table = gathered(pairs);
    law_table(pairs);
    if 0 <= at < table.len() {
        law_found(table, table[at].0);
        let value = found(table, table[at].0);
        if value is None {
            assert(table[at].0 != table[at].0);
        } else {
            let i = choose|i: int|
                0 <= i < table.len() && #[trigger] table[i] == (table[at].0, value->Some_0)
                    && forall|j: int| i < j < table.len() ==> (#[trigger] table[j]).0
                    != table[at].0;
            if i < at {
                lemma_before_irreflexive(table[at].0);
            } else if at < i {
                lemma_before_irreflexive(table[at].0);
                assert(text_before(table[at].0, table[i].0));
            }
        }
        assert(found(table, table[at].0) == found(pairs, table[at].0));
    }
    if found(pairs, key) is Some {
        assert(found(table, key) == found(pairs, key));
        law_found(table, key);
    }
}

/// The keys of pairs are their first halves, each in its place, and rows keep their keys and
/// values.
pub proof fn law_rows<V>(pairs: Seq<(Seq<char>, V)>, table: Seq<(String, V)>, at: int)
    ensures
        keys(pairs).len() == pairs.len(),
        0 <= at < pairs.len() ==> keys(pairs)[at] == pairs[at].0,
        rows(table).len() == table.len(),
        0 <= at < table.len() ==> rows(table)[at] == (table[at].0@, table[at].1),
{
}

} // verus!
