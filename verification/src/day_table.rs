//! Days of study in the order of the calendar.

use vstd::prelude::*;
use crate::quests::{DayModel, DayStats};

verus! {

/// The sum of some natural numbers.
pub open spec fn tally(s: Seq<nat>) -> nat
    decreases s.len(),
{
    if s.len() == 0 {
        0
    } else {
        tally(s.drop_last()) + s.last()
    }
}

pub proof fn lemma_tally_update(s: Seq<nat>, i: int, v: nat)
    requires
        0 <= i < s.len(),
    ensures
        tally(s.update(i, v)) == tally(s) - s[i] + v,
    decreases s.len(),
{
    let t = s.update(i, v);
    if i == s.len() - 1 {
        assert(t.drop_last() =~= s.drop_last());
    } else {
        assert(t.drop_last() =~= s.drop_last().update(i, v));
        lemma_tally_update(s.drop_last(), i, v);
    }
}

pub proof fn lemma_tally_insert(s: Seq<nat>, i: int, v: nat)
    requires
        0 <= i <= s.len(),
    ensures
        tally(s.insert(i, v)) == tally(s) + v,
    decreases s.len(),
{
    let t = s.insert(i, v);
    if i == s.len() {
        assert(t.drop_last() =~= s);
    } else {
        assert(t.drop_last() =~= s.drop_last().insert(i, v));
        lemma_tally_insert(s.drop_last(), i, v);
    }
}

pub proof fn lemma_tally_prefix(s: Seq<nat>, k: int)
    requires
        0 <= k <= s.len(),
    ensures
        tally(s.take(k)) <= tally(s),
    decreases s.len(),
{
    if k == s.len() {
        assert(s.take(k) =~= s);
    } else {
        assert(s.take(k) =~= s.drop_last().take(k));
        lemma_tally_prefix(s.drop_last(), k);
    }
}

pub proof fn lemma_tally_member(s: Seq<nat>, i: int)
    requires
        0 <= i < s.len(),
    ensures
        s[i] <= tally(s),
    decreases s.len(),
{
    if i < s.len() - 1 {
        lemma_tally_member(s.drop_last(), i);
    }
}

/// The days on which something was studied, in ascending order.
pub struct DayTable {
    pub entries: Vec<(i64, DayStats)>,
}

impl View for DayTable {
    type V = Map<int, DayModel>;

    open spec fn view(&self) -> Map<int, DayModel> {
        Map::new(|d: int| self.has(d), |d: int| self.at(d))
    }
}

impl DayTable {
    pub open spec fn has(self, day: int) -> bool {
        exists|i: int| 0 <= i < self.entries@.len() && #[trigger] self.entries@[i].0 == day
    }

    pub open spec fn at(self, day: int) -> DayModel {
        self.entries@[self.place(day)].1@
    }

    pub open spec fn place(self, day: int) -> int {
        choose|i: int| 0 <= i < self.entries@.len() && #[trigger] self.entries@[i].0 == day
    }

    /// The numbers of reviews of the days.
    pub open spec fn counts(self) -> Seq<nat> {
        self.entries@.map_values(|e: (i64, DayStats)| e.1.reviews as nat)
    }

    /// The days ascend, and each holds a day of study.
    pub open spec fn wf(self) -> bool {
        &&& forall|i: int, j: int|
            0 <= i < j < self.entries@.len() ==> (#[trigger] self.entries@[i]).0 < (#[trigger] self.entries@[j]).0
        &&& forall|i: int|
            0 <= i < self.entries@.len() ==> (#[trigger] self.entries@[i]).1.wf() && self.entries@[i].1.reviews > 0
    }

    /// A day in the table is found where it stands.
    pub proof fn lemma_place(self, i: int)
        requires
            self.wf(),
            0 <= i < self.entries@.len(),
        ensures
            self.has(self.entries@[i].0 as int),
            self.place(self.entries@[i].0 as int) == i,
            self@.dom().contains(self.entries@[i].0 as int),
            self@[self.entries@[i].0 as int] == self.entries@[i].1@,
    {
        let day = self.entries@[i].0 as int;
        assert(self.has(day));
        let k = self.place(day);
        assert(0 <= k < self.entries@.len() && self.entries@[k].0 == day);
        if k < i {
            assert(self.entries@[k].0 < self.entries@[i].0);
        } else if i < k {
            assert(self.entries@[i].0 < self.entries@[k].0);
        }
    }

    /// A table without days.
    pub fn new() -> (res: DayTable)
        ensures
            res.wf(),
            res@ == Map::<int, DayModel>::empty(),
            res.entries@.len() == 0,
    {
        let res = DayTable { entries: Vec::new() };
        assert(res@ =~= Map::<int, DayModel>::empty());
        res
    }

    /// Where a day stands, or where it would have to be put.
    fn search(&self, day: i64) -> (res: (usize, bool))
        requires
            self.wf(),
        ensures
            res.0 <= self.entries@.len(),
            res.1 ==> res.0 < self.entries@.len() && self.entries@[res.0 as int].0 == day,
            !res.1 ==> !self.has(day as int),
            forall|k: int| 0 <= k < res.0 ==> (#[trigger] self.entries@[k]).0 < day,
            forall|k: int| res.0 <= k < self.entries@.len() ==> (#[trigger] self.entries@[k]).0 >= day,
    {
        let mut i: usize = self.entries.len();
        while i > 0 && self.entries[i - 1].0 >= day
            invariant
                self.wf(),
                i <= self.entries@.len(),
                forall|k: int| i <= k < self.entries@.len() ==> (#[trigger] self.entries@[k]).0 >= day,
            decreases i,
        {
            i = i - 1;
        }
        let found = i < self.entries.len() && self.entries[i].0 == day;
        proof {
            assert forall|k: int| 0 <= k < i implies (#[trigger] self.entries@[k]).0 < day by {
                assert(self.entries@[i - 1].0 < day);
                if k < i - 1 {
                    assert(self.entries@[k].0 < self.entries@[i - 1].0);
                }
            }
            if !found && self.has(day as int) {
                let k = self.place(day as int);
                assert(self.entries@[k].0 == day);
                assert(k >= i);
                assert(self.entries@[i as int].0 >= day);
                if i < k {
                    assert(self.entries@[i as int].0 < self.entries@[k].0);
                }
            }
        }
        (i, found)
    }

    /// What was studied on a day.
    pub fn get(&self, day: i64) -> (res: Option<DayStats>)
        requires
            self.wf(),
        ensures
            res is Some <==> self@.dom().contains(day as int),
            res matches Some(s) ==> s@ == self@[day as int] && s.wf() && s.reviews > 0,
    {
        let (i, found) = self.search(day);
        if found {
            proof {
                self.lemma_place(i as int);
            }
            Some(self.entries[i].1)
        } else {
            None
        }
    }

    /// No day has more reviews than all days together.
    pub proof fn lemma_day_in_tally(self, day: int)
        requires
            self.wf(),
        ensures
            self@.dom().contains(day) ==> self@[day].reviews <= tally(self.counts()),
    {
        if self.has(day) {
            let k = self.place(day);
            assert(self.entries@[k].0 == day);
            lemma_tally_member(self.counts(), k);
        }
    }

    /// Set what was studied on a day.
    pub fn set(&mut self, day: i64, stats: DayStats)
        requires
            old(self).wf(),
            stats.wf(),
            stats.reviews > 0,
        ensures
            final(self).wf(),
            final(self)@ == old(self)@.insert(day as int, stats@),
            tally(final(self).counts()) == tally(old(self).counts()) + stats.reviews - (if old(self)@.dom().contains(
                day as int,
            ) {
                old(self)@[day as int].reviews as int
            } else {
                0
            }),
    {
        let (i, found) = self.search(day);
        let ghost before = *self;
        if found {
            proof {
                self.lemma_place(i as int);
                lemma_tally_update(before.counts(), i as int, stats.reviews as nat);
            }
            self.entries.set(i, (day, stats));
            proof {
                assert(self.counts() =~= before.counts().update(i as int, stats.reviews as nat));
                assert(self.wf());
                self.lemma_place(i as int);
                assert forall|d: int| self.has(d) == before.has(d) || d == day by {
                    if self.has(d) {
                        let k = self.place(d);
                        assert(self.entries@[k].0 == d);
                        assert(before.entries@[k].0 == d);
                    }
                    if before.has(d) {
                        let k = before.place(d);
                        assert(before.entries@[k].0 == d);
                        assert(self.entries@[k].0 == d);
                    }
                }
                assert forall|d: int| #[trigger] self@.dom().contains(d) && d != day implies self@[d] == before@[d] by {
                    let k = self.place(d);
                    assert(self.entries@[k].0 == d);
                    assert(before.entries@[k] == self.entries@[k]);
                    before.lemma_place(k);
                }
                assert(self@ =~= before@.insert(day as int, stats@));
            }
        } else {
            proof {
                lemma_tally_insert(before.counts(), i as int, stats.reviews as nat);
            }
            self.entries.insert(i, (day, stats));
            proof {
                assert(self.counts() =~= before.counts().insert(i as int, stats.reviews as nat));
                assert(self.wf());
                assert(self.entries@[i as int].0 == day);
                self.lemma_place(i as int);
                assert forall|d: int| d != day implies self.has(d) == before.has(d) by {
                    if self.has(d) {
                        let k = self.place(d);
                        assert(self.entries@[k].0 == d);
                        assert(before.entries@[if k < i { k } else { k - 1 }].0 == d);
                    }
                    if before.has(d) {
                        let k = before.place(d);
                        assert(before.entries@[k].0 == d);
                        assert(self.entries@[if k < i { k } else { k + 1 }].0 == d);
                    }
                }
                assert forall|d: int| #[trigger] self@.dom().contains(d) && d != day implies self@[d] == before@[d] by {
                    let k = self.place(d);
                    assert(self.entries@[k].0 == d);
                    let b = if k < i { k } else { k - 1 };
                    assert(before.entries@[b] == self.entries@[k]);
                    before.lemma_place(b);
                }
                assert(self@ =~= before@.insert(day as int, stats@));
            }
        }
    }
}

} // verus!
