//! The order of texts: character by character, by code point.

use vstd::prelude::*;
use crate::table::rows;
use crate::text::characters;

verus! {

/// Whether a text comes before another one.
pub open spec fn precedes(a: Seq<char>, b: Seq<char>) -> bool
    decreases a.len(),
{
    if b.len() == 0 {
        false
    } else if a.len() == 0 {
        true
    } else if a[0] != b[0] {
        (a[0] as int) < (b[0] as int)
    } else {
        precedes(a.drop_first(), b.drop_first())
    }
}

/// Of two different texts one comes before the other, and none comes before
/// itself.
pub proof fn lemma_precedes_total(a: Seq<char>, b: Seq<char>)
    ensures
        a == b ==> !precedes(a, b),
        a != b ==> precedes(a, b) != precedes(b, a),
    decreases a.len(),
{
    if a.len() > 0 && b.len() > 0 && a[0] == b[0] {
        lemma_precedes_total(a.drop_first(), b.drop_first());
        if a.drop_first() == b.drop_first() {
            assert(a =~= seq![a[0]] + a.drop_first());
            assert(b =~= seq![b[0]] + b.drop_first());
        }
    } else if a.len() == 0 && b.len() == 0 {
        assert(a =~= b);
    }
}

/// What comes before something that comes before a third comes before that.
pub proof fn lemma_precedes_transitive(a: Seq<char>, b: Seq<char>, c: Seq<char>)
    requires
        precedes(a, b),
        precedes(b, c),
    ensures
        precedes(a, c),
    decreases a.len(),
{
    if a.len() > 0 && b.len() > 0 && c.len() > 0 && a[0] == b[0] && b[0] == c[0] {
        lemma_precedes_transitive(a.drop_first(), b.drop_first(), c.drop_first());
    }
}

/// Whether texts come one after the other, none of them twice.
pub open spec fn ascending(list: Seq<Seq<char>>) -> bool {
    forall|i: int, j: int| 0 <= i < j < list.len() ==> precedes(#[trigger] list[i], #[trigger] list[j])
}

/// There is only one way to put some texts in order.
pub proof fn law_order_is_unique(a: Seq<Seq<char>>, b: Seq<Seq<char>>)
    requires
        ascending(a),
        ascending(b),
        forall|s: Seq<char>| a.contains(s) <==> b.contains(s),
    ensures
        a == b,
    decreases a.len(),
{
    if a.len() == 0 {
        if b.len() > 0 {
            assert(b.contains(b[0]));
            assert(a.contains(b[0]));
        }
        assert(a =~= b);
    } else if b.len() == 0 {
        assert(a.contains(a[0]));
        assert(b.contains(a[0]));
    } else {
        let x = a.last();
        let y = b.last();
        lemma_precedes_total(x, y);
        assert(a[a.len() - 1] == x && b[b.len() - 1] == y);
        assert(a.contains(x) && b.contains(y));
        if x != y {
            assert(b.contains(x) && a.contains(y));
            let i = choose|i: int| 0 <= i < b.len() && b[i] == x;
            let j = choose|j: int| 0 <= j < a.len() && a[j] == y;
            assert(precedes(b[i], b[b.len() - 1]));
            assert(precedes(a[j], a[a.len() - 1]));
        }
        let a1 = a.drop_last();
        let b1 = b.drop_last();
        assert(ascending(a1)) by {
            assert forall|i: int, j: int| 0 <= i < j < a1.len() implies precedes(#[trigger] a1[i], #[trigger] a1[j]) by {
                assert(precedes(a[i], a[j]));
            }
        }
        assert(ascending(b1)) by {
            assert forall|i: int, j: int| 0 <= i < j < b1.len() implies precedes(#[trigger] b1[i], #[trigger] b1[j]) by {
                assert(precedes(b[i], b[j]));
            }
        }
        assert forall|s: Seq<char>| a1.contains(s) <==> b1.contains(s) by {
            if a1.contains(s) {
                let i = choose|i: int| 0 <= i < a1.len() && a1[i] == s;
                assert(a[i] == s);
                assert(precedes(a[i], a[a.len() - 1]));
                lemma_precedes_total(s, x);
                assert(a.contains(s));
                let j = choose|j: int| 0 <= j < b.len() && b[j] == s;
                assert(b1[j] == s);
            }
            if b1.contains(s) {
                let i = choose|i: int| 0 <= i < b1.len() && b1[i] == s;
                assert(b[i] == s);
                assert(precedes(b[i], b[b.len() - 1]));
                lemma_precedes_total(s, y);
                assert(b.contains(s));
                let j = choose|j: int| 0 <= j < a.len() && a[j] == s;
                assert(a1[j] == s);
            }
        }
        law_order_is_unique(a1, b1);
        assert(a =~= a1.push(x));
        assert(b =~= b1.push(y));
    }
}

/// The number of a character.
pub fn code_point(c: char) -> (res: u32)
    ensures
        res == c as int,
{
    c as u32
}

/// Whether a text comes before another one.
pub fn comes_before(a: &str, b: &str) -> (res: bool)
    ensures
        res == precedes(a@, b@),
{
    let x = characters(a);
    let y = characters(b);
    let mut i: usize = 0;
    assert(x@.skip(0) =~= x@);
    assert(y@.skip(0) =~= y@);
    while i < x.len() && i < y.len()
        invariant
            i <= x@.len(),
            i <= y@.len(),
            x@ == a@,
            y@ == b@,
            precedes(x@, y@) == precedes(x@.skip(i as int), y@.skip(i as int)),
        decreases x@.len() - i,
    {
        let c: u32 = code_point(x[i]);
        let d: u32 = code_point(y[i]);
        proof {
            assert(x@.skip(i as int)[0] == x@[i as int]);
            assert(y@.skip(i as int)[0] == y@[i as int]);
            assert(x@.skip(i as int).drop_first() =~= x@.skip(i + 1));
            assert(y@.skip(i as int).drop_first() =~= y@.skip(i + 1));
        }
        if c != d {
            return c < d;
        }
        i = i + 1;
    }
    i < y.len()
}

/// Put a text in its place among others, unless it is there.
pub fn insert_ascending(list: &mut Vec<String>, text: String)
    requires
        ascending(rows(old(list)@)),
    ensures
        ascending(rows(final(list)@)),
        forall|s: Seq<char>| #[trigger] rows(final(list)@).contains(s) <==> rows(old(list)@).contains(s) || s == text@,
        final(list)@.len() <= old(list)@.len() + 1,
{
    let ghost before = rows(list@);
    let mut i: usize = 0;
    while i < list.len() && comes_before(list[i].as_str(), text.as_str())
        invariant
            before == rows(list@),
            i <= list@.len(),
            forall|k: int| 0 <= k < i ==> precedes(#[trigger] before[k], text@),
        decreases list@.len() - i,
    {
        i = i + 1;
    }
    if i < list.len() && !comes_before(text.as_str(), list[i].as_str()) {
        proof {
            lemma_precedes_total(before[i as int], text@);
            assert(before[i as int] == text@);
            assert(before.contains(text@));
        }
        return;
    }
    let ghost shown = text@;
    list.insert(i, text);
    proof {
        let after = rows(list@);
        assert(after =~= before.insert(i as int, shown));
        assert forall|a: int, b: int| 0 <= a < b < after.len() implies precedes(#[trigger] after[a], #[trigger] after[b]) by {
            if a < i && b == i {
                assert(precedes(before[a], shown));
            } else if a == i {
                assert(after[b] == before[b - 1]);
                if b - 1 == i {
                } else {
                    assert(precedes(before[i as int], before[b - 1]));
                    lemma_precedes_transitive(shown, before[i as int], before[b - 1]);
                }
            } else if b < i {
                assert(precedes(before[a], before[b]));
            } else if a < i {
                assert(precedes(before[a], before[b - 1]));
            } else {
                assert(precedes(before[a - 1], before[b - 1]));
            }
        }
        assert forall|s: Seq<char>| #[trigger] after.contains(s) <==> before.contains(s) || s == shown by {
            if after.contains(s) {
                let k = choose|k: int| 0 <= k < after.len() && after[k] == s;
                if k < i {
                    assert(before[k] == s);
                } else if k > i {
                    assert(before[k - 1] == s);
                }
            }
            if before.contains(s) {
                let k = choose|k: int| 0 <= k < before.len() && before[k] == s;
                assert(after[if k < i { k } else { k + 1 }] == s);
            }
            if s == shown {
                assert(after[i as int] == s);
            }
        }
    }
}

proof fn lemma_inserted(list: Seq<Seq<char>>, text: Seq<char>) -> (res: Seq<Seq<char>>)
    requires
        ascending(list),
    ensures
        ascending(res),
        forall|s: Seq<char>| #[trigger] res.contains(s) <==> list.contains(s) || s == text,
    decreases list.len(),
{
    if list.len() == 0 {
        let res = seq![text];
        assert(res[0] == text);
        res
    } else {
        let last = list.last();
        let init = list.drop_last();
        assert(list[list.len() - 1] == last);
        lemma_precedes_total(last, text);
        if last == text {
            list
        } else if precedes(last, text) {
            let res = list.push(text);
            assert forall|i: int, j: int| 0 <= i < j < res.len() implies precedes(#[trigger] res[i], #[trigger] res[j]) by {
                if j == list.len() {
                    if i < list.len() - 1 {
                        assert(precedes(list[i], list[list.len() - 1]));
                        lemma_precedes_transitive(list[i], last, text);
                    }
                } else {
                    assert(precedes(list[i], list[j]));
                }
            }
            assert forall|s: Seq<char>| #[trigger] res.contains(s) <==> list.contains(s) || s == text by {
                lemma_one_more(list, text, s);
            }
            res
        } else {
            assert forall|i: int, j: int| 0 <= i < j < init.len() implies precedes(#[trigger] init[i], #[trigger] init[j]) by {
                assert(precedes(list[i], list[j]));
            }
            let inner = lemma_inserted(init, text);
            let res = inner.push(last);
            assert(list =~= init.push(last));
            assert forall|i: int, j: int| 0 <= i < j < res.len() implies precedes(#[trigger] res[i], #[trigger] res[j]) by {
                if j == inner.len() {
                    assert(inner.contains(inner[i]));
                    if inner[i] != text {
                        let p = choose|p: int| 0 <= p < init.len() && init[p] == inner[i];
                        assert(precedes(list[p], list[list.len() - 1]));
                    }
                } else {
                    assert(precedes(inner[i], inner[j]));
                }
            }
            assert forall|s: Seq<char>| #[trigger] res.contains(s) <==> list.contains(s) || s == text by {
                lemma_one_more(inner, last, s);
                lemma_one_more(init, last, s);
                assert(inner.contains(s) <==> init.contains(s) || s == text);
            }
            res
        }
    }
}

proof fn lemma_one_more(list: Seq<Seq<char>>, last: Seq<char>, s: Seq<char>)
    ensures
        list.push(last).contains(s) <==> list.contains(s) || s == last,
{
    let more = list.push(last);
    if more.contains(s) {
        let i = choose|i: int| 0 <= i < more.len() && more[i] == s;
        if i < list.len() {
            assert(list[i] == s);
        }
    }
    if list.contains(s) {
        let i = choose|i: int| 0 <= i < list.len() && list[i] == s;
        assert(more[i] == s);
    }
    if s == last {
        assert(more[list.len() as int] == s);
    }
}

/// Texts can be put in order.
pub proof fn law_texts_can_be_ordered(items: Seq<Seq<char>>) -> (res: Seq<Seq<char>>)
    ensures
        ascending(res),
        forall|s: Seq<char>| #[trigger] res.contains(s) <==> items.contains(s),
    decreases items.len(),
{
    if items.len() == 0 {
        items
    } else {
        let init = items.drop_last();
        let before = law_texts_can_be_ordered(init);
        let res = lemma_inserted(before, items.last());
        assert(items =~= init.push(items.last()));
        assert forall|s: Seq<char>| #[trigger] res.contains(s) <==> items.contains(s) by {
            lemma_one_more(init, items.last(), s);
            assert(before.contains(s) <==> init.contains(s));
        }
        res
    }
}

/// Texts are ordered as in a dictionary: by the first character in which they
/// differ, and a text comes before those that go on where it ends.
pub proof fn law_texts_are_ordered_as_in_a_dictionary(common: Seq<char>, a: char, b: char, x: Seq<char>, y: Seq<char>)
    ensures
        (a as int) < (b as int) ==> precedes(common + seq![a] + x, common + seq![b] + y),
        (a as int) > (b as int) ==> !precedes(common + seq![a] + x, common + seq![b] + y),
        precedes(common, common + seq![b] + y),
        !precedes(common + seq![b] + y, common),
        !precedes(common, common),
    decreases common.len(),
{
    let p = common + seq![a] + x;
    let q = common + seq![b] + y;
    if common.len() > 0 {
        let rest = common.drop_first();
        law_texts_are_ordered_as_in_a_dictionary(rest, a, b, x, y);
        assert(p.drop_first() =~= rest + seq![a] + x);
        assert(q.drop_first() =~= rest + seq![b] + y);
    } else {
        assert(p[0] == a);
        assert(q[0] == b);
    }
}

} // verus!
