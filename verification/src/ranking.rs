//! Lists in some order, in which whoever came first stays first among equals.

use vstd::prelude::*;
use crate::table::rows;

verus! {

/// Whether a relation orders things, up to ties.
pub open spec fn is_order<V>(before: spec_fn(V, V) -> bool) -> bool {
    &&& forall|a: V, b: V| #[trigger] before(a, b) ==> !before(b, a)
    &&& forall|a: V, b: V, c: V| before(a, c) ==> #[trigger] before(a, b) || #[trigger] before(b, c)
}

/// An executable relation that agrees with a relation on what things hold.
pub open spec fn compares<T: View, F: Fn(&T, &T) -> bool>(f: F, before: spec_fn(T::V, T::V) -> bool) -> bool {
    &&& forall|a: &T, b: &T| #[trigger] f.requires((a, b))
    &&& forall|a: &T, b: &T, r: bool| #[trigger] f.ensures((a, b), r) ==> r == before(a@, b@)
}

/// A list with one more thing in its place: behind everything that it does not
/// come before.
pub open spec fn placed<V>(list: Seq<V>, v: V, before: spec_fn(V, V) -> bool) -> Seq<V>
    decreases list.len(),
{
    if list.len() == 0 {
        seq![v]
    } else if before(v, list.last()) {
        placed(list.drop_last(), v, before).push(list.last())
    } else {
        list.push(v)
    }
}

/// A list put in order.
pub open spec fn ranked<V>(list: Seq<V>, before: spec_fn(V, V) -> bool) -> Seq<V>
    decreases list.len(),
{
    if list.len() == 0 {
        list
    } else {
        placed(ranked(list.drop_last(), before), list.last(), before)
    }
}

/// Whether nothing in a list comes before something that stands earlier.
pub open spec fn in_rank<V>(list: Seq<V>, before: spec_fn(V, V) -> bool) -> bool {
    forall|i: int, j: int| 0 <= i < j < list.len() ==> !before(#[trigger] list[j], #[trigger] list[i])
}

/// Put a thing in its place.
pub fn place<T: View, F: Fn(&T, &T) -> bool>(list: &mut Vec<T>, thing: T, f: F, Ghost(before): Ghost<spec_fn(T::V, T::V) -> bool>)
    requires
        compares(f, before),
    ensures
        rows(final(list)@) == placed(rows(old(list)@), thing@, before),
{
    let ghost all = rows(list@);
    let ghost v = thing@;
    let mut i: usize = list.len();
    assert(all.take(i as int) =~= all);
    assert(placed(all, v, before) =~= placed(all.take(i as int), v, before) + all.skip(i as int));
    let mut moving = i > 0;
    while moving
        invariant
            compares(f, before),
            rows(list@) == all,
            v == thing@,
            i <= all.len(),
            moving ==> i > 0,
            !moving ==> i == 0 || !before(v, all[i - 1]),
            placed(all, v, before) == placed(all.take(i as int), v, before) + all.skip(i as int),
        decreases i, (if moving { 1int } else { 0int }),
    {
        let earlier = f(&thing, &list[i - 1]);
        if earlier {
            proof {
                let front = all.take(i as int);
                assert(front.last() == list@[i - 1]@);
                assert(front.drop_last() =~= all.take(i - 1));
                assert(placed(front, v, before) == placed(all.take(i - 1), v, before).push(all[i - 1]));
                assert(placed(all.take(i - 1), v, before).push(all[i - 1]) + all.skip(i as int) =~= placed(
                    all.take(i - 1),
                    v,
                    before,
                ) + all.skip(i - 1));
            }
            i = i - 1;
            moving = i > 0;
        } else {
            moving = false;
        }
    }
    list.insert(i, thing);
    proof {
        let front = all.take(i as int);
        if i > 0 {
            assert(front.last() == all[i - 1]);
        }
        assert(placed(front, v, before) =~= front.push(v));
        assert(rows(list@) =~= front.push(v) + all.skip(i as int));
    }
}

proof fn lemma_placed<V>(list: Seq<V>, v: V, before: spec_fn(V, V) -> bool)
    requires
        is_order(before),
        in_rank(list, before),
    ensures
        in_rank(placed(list, v, before), before),
        forall|x: V| #[trigger] placed(list, v, before).contains(x) <==> list.contains(x) || x == v,
        placed(list, v, before).len() == list.len() + 1,
    decreases list.len(),
{
    let after = placed(list, v, before);
    if list.len() == 0 {
        assert(after =~= list.push(v));
        assert forall|x: V| #[trigger] after.contains(x) <==> list.contains(x) || x == v by {
            crate::decks::lemma_push_contains(list, v, x);
        }
    } else if before(v, list.last()) {
        let init = list.drop_last();
        let last = list.last();
        let inner = placed(init, v, before);
        assert forall|i: int, j: int| 0 <= i < j < init.len() implies !before(#[trigger] init[j], #[trigger] init[i]) by {
            assert(!before(list[j], list[i]));
        }
        lemma_placed(init, v, before);
        assert(list =~= init.push(last));
        assert forall|i: int, j: int| 0 <= i < j < after.len() implies !before(#[trigger] after[j], #[trigger] after[i]) by {
            if j == inner.len() {
                assert(inner.contains(inner[i]));
                if inner[i] != v {
                    let k = choose|k: int| 0 <= k < init.len() && init[k] == inner[i];
                    assert(!before(list[list.len() - 1], list[k]));
                }
            } else {
                assert(!before(inner[j], inner[i]));
            }
        }
        assert forall|x: V| #[trigger] after.contains(x) <==> list.contains(x) || x == v by {
            crate::decks::lemma_push_contains(inner, last, x);
            crate::decks::lemma_push_contains(init, last, x);
            assert(inner.contains(x) <==> init.contains(x) || x == v);
        }
    } else {
        let last = list.last();
        assert forall|i: int, j: int| 0 <= i < j < after.len() implies !before(#[trigger] after[j], #[trigger] after[i]) by {
            if j == list.len() {
                if i < list.len() - 1 {
                    assert(!before(list[list.len() - 1], list[i]));
                }
                if before(v, list[i]) {
                    assert(before(v, last) || before(last, list[i]));
                }
            } else {
                assert(!before(list[j], list[i]));
            }
        }
        assert forall|x: V| #[trigger] after.contains(x) <==> list.contains(x) || x == v by {
            crate::decks::lemma_push_contains(list, v, x);
        }
    }
}

/// Putting a list in order keeps everything in it.
pub proof fn law_ranked_lists_are_in_order<V>(list: Seq<V>, before: spec_fn(V, V) -> bool)
    requires
        is_order(before),
    ensures
        in_rank(ranked(list, before), before),
        forall|x: V| #[trigger] ranked(list, before).contains(x) <==> list.contains(x),
        ranked(list, before).len() == list.len(),
    decreases list.len(),
{
    if list.len() > 0 {
        let init = list.drop_last();
        law_ranked_lists_are_in_order(init, before);
        lemma_placed(ranked(init, before), list.last(), before);
        assert(list =~= init.push(list.last()));
        assert forall|x: V| #[trigger] ranked(list, before).contains(x) <==> list.contains(x) by {
            crate::decks::lemma_push_contains(init, list.last(), x);
            assert(ranked(init, before).contains(x) <==> init.contains(x));
        }
    }
}

} // verus!
