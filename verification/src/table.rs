//! Tables of rows: looking rows up, adding them and taking them out.

use vstd::prelude::*;
use crate::text::same;

verus! {

/// What the rows of a table hold.
pub open spec fn rows<T: View>(table: Seq<T>) -> Seq<T::V> {
    table.map_values(|t: T| t@)
}

/// Whether some row passes a test.
pub open spec fn any<V>(rows: Seq<V>, test: spec_fn(V) -> bool) -> bool {
    exists|i: int| 0 <= i < rows.len() && test(#[trigger] rows[i])
}

/// Where the first row that passes a test stands.
pub open spec fn first<V>(rows: Seq<V>, test: spec_fn(V) -> bool) -> Option<int>
    decreases rows.len(),
{
    if rows.len() == 0 {
        None
    } else {
        match first(rows.drop_last(), test) {
            Some(i) => Some(i),
            None => if test(rows.last()) {
                Some(rows.len() - 1)
            } else {
                None
            },
        }
    }
}

/// The rows that pass a test.
pub open spec fn kept<V>(rows: Seq<V>, test: spec_fn(V) -> bool) -> Seq<V>
    decreases rows.len(),
{
    if rows.len() == 0 {
        Seq::empty()
    } else if test(rows.last()) {
        kept(rows.drop_last(), test).push(rows.last())
    } else {
        kept(rows.drop_last(), test)
    }
}

/// How many rows pass a test.
pub open spec fn count<V>(rows: Seq<V>, test: spec_fn(V) -> bool) -> nat {
    kept(rows, test).len()
}

/// The rows with one more, unless it is among them.
pub open spec fn with_row<V>(rows: Seq<V>, row: V) -> Seq<V> {
    if rows.contains(row) {
        rows
    } else {
        rows.push(row)
    }
}

/// Whether no row occurs twice.
pub open spec fn distinct<V>(rows: Seq<V>) -> bool {
    forall|i: int, j: int| 0 <= i < j < rows.len() ==> rows[i] != rows[j]
}

/// An executable test that agrees with a test on what rows hold.
pub open spec fn agrees<T: View, F: Fn(&T) -> bool>(f: F, test: spec_fn(T::V) -> bool) -> bool {
    &&& forall|t: &T| #[trigger] f.requires((t,))
    &&& forall|t: &T, b: bool| #[trigger] f.ensures((t,), b) ==> b == test(t@)
}

pub proof fn lemma_first<V>(rows: Seq<V>, test: spec_fn(V) -> bool)
    ensures
        match first(rows, test) {
            Some(i) => 0 <= i < rows.len() && test(rows[i]) && forall|k: int| 0 <= k < i ==> !test(#[trigger] rows[k]),
            None => forall|k: int| 0 <= k < rows.len() ==> !test(#[trigger] rows[k]),
        },
        first(rows, test) is Some == any(rows, test),
    decreases rows.len(),
{
    if rows.len() > 0 {
        lemma_first(rows.drop_last(), test);
        let init = rows.drop_last();
        match first(rows, test) {
            Some(i) => {
                assert(test(rows[i]));
                assert forall|k: int| 0 <= k < i implies !test(#[trigger] rows[k]) by {
                    assert(init[k] == rows[k]);
                }
            },
            None => {
                assert forall|k: int| 0 <= k < rows.len() implies !test(#[trigger] rows[k]) by {
                    if k < rows.len() - 1 {
                        assert(init[k] == rows[k]);
                    }
                }
            },
        }
    }
}

/// The first row is the one before which none passes.
pub proof fn lemma_first_is<V>(rows: Seq<V>, test: spec_fn(V) -> bool, i: int)
    requires
        0 <= i < rows.len(),
        test(rows[i]),
        forall|k: int| 0 <= k < i ==> !test(#[trigger] rows[k]),
    ensures
        first(rows, test) == Some(i),
{
    lemma_first(rows, test);
}

/// What is kept passes the test and was there, and whatever was there and
/// passes is kept.
pub proof fn lemma_kept<V>(rows: Seq<V>, test: spec_fn(V) -> bool)
    ensures
        forall|v: V| #[trigger] kept(rows, test).contains(v) <==> rows.contains(v) && test(v),
        kept(rows, test).len() <= rows.len(),
        distinct(rows) ==> distinct(kept(rows, test)),
    decreases rows.len(),
{
    if rows.len() > 0 {
        let init = rows.drop_last();
        let last = rows.last();
        lemma_kept(init, test);
        assert forall|v: V| #[trigger] kept(rows, test).contains(v) <==> rows.contains(v) && test(v) by {
            if rows.contains(v) && test(v) {
                let i = choose|i: int| 0 <= i < rows.len() && rows[i] == v;
                if i < rows.len() - 1 {
                    assert(init[i] == v);
                    assert(init.contains(v));
                    assert(kept(init, test).contains(v));
                    let k = choose|k: int| 0 <= k < kept(init, test).len() && kept(init, test)[k] == v;
                    assert(kept(rows, test)[k] == v);
                } else {
                    assert(kept(rows, test)[kept(init, test).len() as int] == v);
                }
            }
            if kept(rows, test).contains(v) {
                let k = choose|k: int| 0 <= k < kept(rows, test).len() && kept(rows, test)[k] == v;
                if k < kept(init, test).len() {
                    assert(kept(init, test)[k] == v);
                    assert(kept(init, test).contains(v));
                    assert(init.contains(v) && test(v));
                    let i = choose|i: int| 0 <= i < init.len() && init[i] == v;
                    assert(rows[i] == v);
                } else {
                    assert(rows[rows.len() - 1] == v);
                }
            }
        }
        if distinct(rows) {
            assert(distinct(init)) by {
                assert forall|i: int, j: int| 0 <= i < j < init.len() implies init[i] != init[j] by {
                    assert(rows[i] != rows[j]);
                }
            }
            assert(distinct(kept(rows, test))) by {
                let k = kept(rows, test);
                assert forall|i: int, j: int| 0 <= i < j < k.len() implies k[i] != k[j] by {
                    if j == kept(init, test).len() {
                        assert(kept(init, test).contains(k[i]));
                        assert(init.contains(k[i]));
                        let p = choose|p: int| 0 <= p < init.len() && init[p] == k[i];
                        assert(rows[p] != rows[rows.len() - 1]);
                    } else {
                        assert(kept(init, test)[i] != kept(init, test)[j]);
                    }
                }
            }
        }
    } else {
        assert(kept(rows, test) =~= Seq::empty());
    }
}

/// Where the first row that passes a test stands.
pub fn find<T: View, F: Fn(&T) -> bool>(table: &[T], f: F, Ghost(test): Ghost<spec_fn(T::V) -> bool>) -> (res: Option<
    usize,
>)
    requires
        agrees(f, test),
    ensures
        match res {
            Some(i) => first(rows(table@), test) == Some(i as int) && i < table@.len() && test(table@[i as int]@),
            None => first(rows(table@), test) is None,
        },
{
    let mut i: usize = 0;
    while i < table.len()
        invariant
            agrees(f, test),
            i <= table@.len(),
            forall|k: int| 0 <= k < i ==> !test(#[trigger] rows(table@)[k]),
        decreases table@.len() - i,
    {
        let hit = f(&table[i]);
        if hit {
            proof {
                lemma_first_is(rows(table@), test, i as int);
            }
            return Some(i);
        }
        i = i + 1;
    }
    proof {
        lemma_first(rows(table@), test);
    }
    None
}

/// Whether some row passes a test.
pub fn has<T: View, F: Fn(&T) -> bool>(table: &[T], f: F, Ghost(test): Ghost<spec_fn(T::V) -> bool>) -> (res: bool)
    requires
        agrees(f, test),
    ensures
        res == any(rows(table@), test),
{
    proof {
        lemma_first(rows(table@), test);
    }
    find(table, f, Ghost(test)).is_some()
}

/// Keep the rows that pass a test.
pub fn retain<T: View, F: Fn(&T) -> bool>(table: &mut Vec<T>, f: F, Ghost(test): Ghost<spec_fn(T::V) -> bool>)
    requires
        agrees(f, test),
    ensures
        rows(final(table)@) == kept(rows(old(table)@), test),
{
    let ghost all = rows(table@);
    let n: usize = table.len();
    let mut done: usize = 0;
    let mut i: usize = 0;
    assert(all.take(0) =~= Seq::<T::V>::empty());
    while done < n
        invariant
            agrees(f, test),
            i <= done <= n,
            all.len() == n,
            table@.len() == i + (n - done),
            rows(table@.take(i as int)) == kept(all.take(done as int), test),
            rows(table@.skip(i as int)) == all.skip(done as int),
        decreases n - done,
    {
        let ghost before = table@;
        proof {
            assert(rows(before.skip(i as int))[0] == all.skip(done as int)[0]);
            assert(before.skip(i as int)[0] == before[i as int]);
            assert(all.take(done + 1).drop_last() =~= all.take(done as int));
            assert(all.take(done + 1).last() == before[i as int]@);
        }
        let keep = f(&table[i]);
        if keep {
            i = i + 1;
            proof {
                assert(rows(table@.take(i as int)) =~= rows(before.take(i - 1)).push(before[i - 1]@));
                assert(rows(table@.skip(i as int)) =~= all.skip(done + 1)) by {
                    assert forall|k: int| 0 <= k < n - done - 1 implies #[trigger] rows(table@.skip(i as int))[k]
                        == all.skip(done + 1)[k] by {
                        assert(rows(before.skip(i - 1))[k + 1] == all.skip(done as int)[k + 1]);
                    }
                }
            }
        } else {
            let _ = table.remove(i);
            proof {
                assert(table@.take(i as int) =~= before.take(i as int));
                assert(rows(table@.skip(i as int)) =~= all.skip(done + 1)) by {
                    assert forall|k: int| 0 <= k < n - done - 1 implies #[trigger] rows(table@.skip(i as int))[k]
                        == all.skip(done + 1)[k] by {
                        assert(rows(before.skip(i as int))[k + 1] == all.skip(done as int)[k + 1]);
                    }
                }
            }
        }
        done = done + 1;
    }
    proof {
        assert(all.take(done as int) =~= all);
        assert(table@.take(i as int) =~= table@);
    }
}

/// Add a row at the end.
pub fn append<T: View>(table: &mut Vec<T>, row: T)
    ensures
        rows(final(table)@) == rows(old(table)@).push(row@),
{
    let ghost before = table@;
    let ghost shown = row@;
    table.push(row);
    assert(rows(table@) =~= rows(before).push(shown));
}

/// Whether a row stands under a key.
pub open spec fn keyed<V>(key: Seq<char>) -> spec_fn((Seq<char>, V)) -> bool {
    |r: (Seq<char>, V)| r.0 == key
}

/// What a table holds under a key, the first of it.
pub open spec fn value_for<V>(rows: Seq<(Seq<char>, V)>, key: Seq<char>) -> Option<V> {
    match first(rows, keyed(key)) {
        Some(i) => Some(rows[i].1),
        None => None,
    }
}

/// A table with something else under a key.
pub open spec fn put_for<V>(rows: Seq<(Seq<char>, V)>, key: Seq<char>, value: V) -> Seq<(Seq<char>, V)> {
    match first(rows, keyed(key)) {
        Some(i) => rows.update(i, (key, value)),
        None => rows.push((key, value)),
    }
}

/// What is put under a key is found there, and nothing else is changed.
pub proof fn law_put_is_found<V>(rows: Seq<(Seq<char>, V)>, key: Seq<char>, value: V, other: Seq<char>)
    ensures
        value_for(put_for(rows, key, value), key) == Some(value),
        other != key ==> value_for(put_for(rows, key, value), other) == value_for(rows, other),
{
    let at_key = keyed::<V>(key);
    let at_other = keyed::<V>(other);
    let after = put_for(rows, key, value);
    lemma_first(rows, at_key);
    lemma_first(rows, at_other);
    lemma_first(after, at_key);
    lemma_first(after, at_other);
    match first(rows, at_key) {
        Some(i) => {
            assert forall|k: int| 0 <= k < i implies !at_key(#[trigger] after[k]) by {
                assert(!at_key(rows[k]));
            }
            lemma_first_is(after, at_key, i);
        },
        None => {
            assert forall|k: int| 0 <= k < rows.len() implies !at_key(#[trigger] after[k]) by {
                assert(!at_key(rows[k]));
            }
            assert(at_key(after[rows.len() as int]));
            lemma_first_is(after, at_key, rows.len() as int);
        },
    }
    if other != key {
        match first(rows, at_other) {
            Some(j) => {
                assert(at_other(rows[j]) && !at_key(rows[j]));
                match first(rows, at_key) {
                    Some(i) => {
                        assert(i != j);
                        assert forall|k: int| 0 <= k < j implies !at_other(#[trigger] after[k]) by {
                            assert(!at_other(rows[k]));
                        }
                    },
                    None => {
                        assert forall|k: int| 0 <= k < j implies !at_other(#[trigger] after[k]) by {
                            assert(!at_other(rows[k]));
                        }
                    },
                }
                lemma_first_is(after, at_other, j);
            },
            None => {
                assert forall|k: int| 0 <= k < after.len() implies !at_other(#[trigger] after[k]) by {
                    if k < rows.len() {
                        assert(!at_other(rows[k]));
                    }
                }
                if let Some(k) = first(after, at_other) {
                    assert(at_other(after[k]));
                }
            },
        }
    }
}

/// Where a key stands in a table.
pub fn find_key<T: View>(table: &[(String, T)], key: &str) -> (res: Option<usize>)
    ensures
        match res {
            Some(i) => first(rows(table@), keyed(key@)) == Some(i as int) && i < table@.len()
                && table@[i as int].0@ == key@,
            None => first(rows(table@), keyed(key@)) is None,
        },
{
    let is_key = |r: &(String, T)| -> (b: bool)
        ensures
            b == (r@.0 == key@),
    {
        same(r.0.as_str(), key)
    };
    find(table, is_key, Ghost(keyed::<T::V>(key@)))
}

/// Put something under a key.
pub fn put<T: View>(table: &mut Vec<(String, T)>, key: &str, value: T)
    ensures
        rows(final(table)@) == put_for(rows(old(table)@), key@, value@),
{
    let ghost before = rows(table@);
    let ghost shown = value@;
    match find_key(table, key) {
        Some(i) => {
            table.set(i, (key.to_owned(), value));
            assert(rows(table@) =~= before.update(i as int, (key@, shown)));
        },
        None => {
            table.push((key.to_owned(), value));
            assert(rows(table@) =~= before.push((key@, shown)));
        },
    }
}

} // verus!
