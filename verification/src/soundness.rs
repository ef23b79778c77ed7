//! Checking what always holds of what is stored, as when it is read back.

use vstd::prelude::*;
use crate::quests::Review;
use crate::store::{decks_differ, has_pair, in_time_order, numbered, respected, DeckModel, DeckRow, NoticeRow, Store};
use crate::table::{distinct, rows};
use crate::text::same;

verus! {

fn are_in_time_order(list: &Vec<Review>) -> (res: bool)
    ensures
        res == in_time_order(list@),
{
    let mut i: usize = 1;
    while i < list.len()
        invariant
            1 <= i,
            i <= list@.len() || list@.len() == 0,
            forall|a: int, b: int| 0 <= a < b < i && b < list@.len() ==> (#[trigger] list@[a]).id < (#[trigger] list@[b]).id,
        decreases list@.len() - i,
    {
        if list[i - 1].id >= list[i].id {
            assert(!in_time_order(list@)) by {
                if in_time_order(list@) {
                    assert(list@[i - 1].id < list@[i as int].id);
                }
            }
            return false;
        }
        assert forall|a: int, b: int| 0 <= a < b < i + 1 implies (#[trigger] list@[a]).id < (#[trigger] list@[b]).id by {
            if b == i && a < i - 1 {
                assert(list@[a].id < list@[i - 1].id);
            }
        }
        i = i + 1;
    }
    true
}

fn are_numbered(list: &Vec<NoticeRow>, next_id: i64) -> (res: bool)
    ensures
        res == numbered(rows(list@), next_id as int),
{
    let ghost all = rows(list@);
    let mut i: usize = 0;
    while i < list.len()
        invariant
            all == rows(list@),
            i <= list@.len(),
            forall|a: int, b: int| 0 <= a < b < i ==> (#[trigger] all[a]).id < (#[trigger] all[b]).id,
            forall|a: int| 0 <= a < i ==> (#[trigger] all[a]).id < next_id,
        decreases list@.len() - i,
    {
        assert(all[i as int].id == list@[i as int].id);
        if list[i].id >= next_id {
            return false;
        }
        if i > 0 {
            assert(all[i - 1].id == list@[i - 1].id);
            if list[i - 1].id >= list[i].id {
                return false;
            }
        }
        assert forall|a: int, b: int| 0 <= a < b < i + 1 implies (#[trigger] all[a]).id < (#[trigger] all[b]).id by {
            if b == i && a < i - 1 {
                assert(all[a].id < all[i - 1].id);
            }
        }
        i = i + 1;
    }
    true
}

/// Whether no two of some decks are the same.
spec fn differ(list: Seq<DeckModel>) -> bool {
    forall|i: int, j: int|
        0 <= i < j < list.len() ==> (#[trigger] list[i]).owner != (#[trigger] list[j]).owner || list[i].id != list[j].id
}

fn decks_are_distinct(list: &Vec<DeckRow>) -> (res: bool)
    ensures
        res == differ(rows(list@)),
{
    let ghost all = rows(list@);
    let mut j: usize = 0;
    while j < list.len()
        invariant
            all == rows(list@),
            j <= list@.len(),
            forall|a: int, b: int|
                0 <= a < b < j ==> (#[trigger] all[a]).owner != (#[trigger] all[b]).owner || all[a].id != all[b].id,
        decreases list@.len() - j,
    {
        let mut i: usize = 0;
        while i < j
            invariant
                all == rows(list@),
                i <= j < list@.len(),
                forall|a: int| 0 <= a < i ==> (#[trigger] all[a]).owner != all[j as int].owner || all[a].id != all[j as int].id,
            decreases j - i,
        {
            assert(all[i as int] == list@[i as int]@ && all[j as int] == list@[j as int]@);
            if same(list[i].owner.as_str(), list[j].owner.as_str()) && same(list[i].id.as_str(), list[j].id.as_str()) {
                return false;
            }
            i = i + 1;
        }
        j = j + 1;
    }
    true
}

fn recipients_are_distinct(list: &Vec<(String, String, String)>) -> (res: bool)
    ensures
        res == distinct(rows(list@)),
{
    let ghost all = rows(list@);
    let mut j: usize = 0;
    while j < list.len()
        invariant
            all == rows(list@),
            j <= list@.len(),
            forall|a: int, b: int| 0 <= a < b < j ==> #[trigger] all[a] != #[trigger] all[b],
        decreases list@.len() - j,
    {
        let mut i: usize = 0;
        while i < j
            invariant
                all == rows(list@),
                i <= j < list@.len(),
                forall|a: int| 0 <= a < i ==> #[trigger] all[a] != all[j as int],
            decreases j - i,
        {
            assert(all[i as int] == list@[i as int]@ && all[j as int] == list@[j as int]@);
            if same(list[i].0.as_str(), list[j].0.as_str()) && same(list[i].1.as_str(), list[j].1.as_str()) && same(
                list[i].2.as_str(),
                list[j].2.as_str(),
            ) {
                assert(all[i as int] == all[j as int]);
                return false;
            }
            i = i + 1;
        }
        j = j + 1;
    }
    true
}

impl Store {
    fn is_respectful(&self) -> (res: bool)
        ensures
            res == respected(self@),
    {
        let ghost m = self@;
        let mut i: usize = 0;
        while i < self.deck_recipients.len()
            invariant
                m == self@,
                i <= self.deck_recipients@.len(),
                forall|k: int|
                    0 <= k < i ==> !m.unsubscriptions.contains(
                        ((#[trigger] m.deck_recipients[k]).2, m.deck_recipients[k].0),
                    ),
            decreases self.deck_recipients@.len() - i,
        {
            let row = &self.deck_recipients[i];
            assert(m.deck_recipients[i as int] == row@);
            if has_pair(&self.unsubscriptions, row.2.as_str(), row.0.as_str()) {
                assert(m.deck_recipients.contains((row.0@, row.1@, row.2@)));
                return false;
            }
            i = i + 1;
        }
        assert forall|owner: Seq<char>, deck: Seq<char>, recipient: Seq<char>| #[trigger]
            m.deck_recipients.contains((owner, deck, recipient)) implies !m.unsubscriptions.contains((recipient, owner)) by {
            let k = choose|k: int| 0 <= k < m.deck_recipients.len() && m.deck_recipients[k] == (owner, deck, recipient);
            assert(!m.unsubscriptions.contains((m.deck_recipients[k].2, m.deck_recipients[k].0)));
        }
        i = 0;
        while i < self.unsubscribed_decks.len()
            invariant
                m == self@,
                i <= self.unsubscribed_decks@.len(),
                forall|k: int|
                    0 <= k < i ==> m.unsubscriptions.contains(
                        ((#[trigger] m.unsubscribed_decks[k]).0, m.unsubscribed_decks[k].1),
                    ),
            decreases self.unsubscribed_decks@.len() - i,
        {
            let row = &self.unsubscribed_decks[i];
            assert(m.unsubscribed_decks[i as int] == row@);
            if !has_pair(&self.unsubscriptions, row.0.as_str(), row.1.as_str()) {
                assert(m.unsubscribed_decks.contains((row.0@, row.1@, row.2@)));
                return false;
            }
            i = i + 1;
        }
        assert forall|recipient: Seq<char>, sender: Seq<char>, deck: Seq<char>| #[trigger]
            m.unsubscribed_decks.contains((recipient, sender, deck)) implies m.unsubscriptions.contains(
            (recipient, sender),
        ) by {
            let k = choose|k: int|
                0 <= k < m.unsubscribed_decks.len() && m.unsubscribed_decks[k] == (recipient, sender, deck);
            assert(m.unsubscriptions.contains((m.unsubscribed_decks[k].0, m.unsubscribed_decks[k].1)));
        }
        true
    }

    /// Whether what is stored is as it always is here.
    pub fn is_sound(&self) -> (res: bool)
        ensures
            res == self.wf(),
    {
        let ghost m = self@;
        let mut i: usize = 0;
        while i < self.reviews.len()
            invariant
                m == self@,
                i <= self.reviews@.len(),
                forall|k: int| 0 <= k < i ==> in_time_order((#[trigger] m.reviews[k]).1),
            decreases self.reviews@.len() - i,
        {
            assert(m.reviews[i as int].1 == self.reviews@[i as int].1@);
            if !are_in_time_order(&self.reviews[i].1) {
                return false;
            }
            i = i + 1;
        }
        let decks = decks_are_distinct(&self.decks);
        let recipients = recipients_are_distinct(&self.deck_recipients);
        assert(decks_differ(m) == (differ(m.decks) && distinct(m.deck_recipients)));
        decks && recipients && are_numbered(&self.notifications, self.next_id) && self.is_respectful()
    }
}

} // verus!
