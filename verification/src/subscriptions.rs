//! What recipients receive: from whom they have unsubscribed, and what they get
//! back when they subscribe again.

use vstd::prelude::*;
use crate::decks::{deck_order, decks_among, decks_of, is_valid_incoming, lemma_push_contains, lists, partners, shared_with, shown_deck, starts_otherwise, valid_incoming_settings, IncomingSettings, ShownDeck};
use crate::feedback::{in_order, lemma_in_order};
use crate::inbox::{change_rows, changed_where, Change};
use crate::order::{ascending, insert_ascending};
use crate::ranking::{placed, ranked};
use crate::sharing::{deck_at, has_deck, lemma_any_next, lemma_no_objection_to, objection_to, shares};
use crate::store::{clock_of, has_pair, respected, sound, DeckModel, DeckRow, NoticeRow, RowModel, Store, StoreError, StoreModel};
use crate::table::{any, append, distinct, has, kept, lemma_kept, put, put_for, retain, rows, with_row};
use crate::text::{same, texts};

verus! {

/// What a recipient wants to receive, and from whom not.
#[derive(Clone, Debug)]
pub struct Settings {
    pub enabled: bool,
    pub unsubscribed_senders: Vec<String>,
}

/// Whether a recipient may unsubscribe from some senders: they are well formed,
/// and the recipient is not among them.
pub open spec fn is_valid_choice(recipient: Seq<char>, senders: Seq<Seq<char>>) -> bool {
    !senders.contains(recipient) && is_valid_incoming(senders)
}

fn copied(list: &Vec<String>) -> (res: Vec<String>)
    ensures
        rows(res@) == rows(list@),
{
    let ghost all = rows(list@);
    let mut res: Vec<String> = Vec::new();
    let mut i: usize = 0;
    assert(rows(res@) =~= all.take(0));
    while i < list.len()
        invariant
            all == rows(list@),
            i <= list@.len(),
            rows(res@) == all.take(i as int),
        decreases list@.len() - i,
    {
        append(&mut res, list[i].clone());
        assert(rows(res@) =~= all.take(i + 1));
        i = i + 1;
    }
    assert(all.take(i as int) =~= all);
    res
}

impl Settings {
    /// Whether a recipient may choose these settings.
    pub fn valid(&self, recipient: &str) -> (res: bool)
        ensures
            res == is_valid_choice(recipient@, rows(self.unsubscribed_senders@)),
    {
        !lists(&self.unsubscribed_senders, recipient) && valid_incoming_settings(
            &IncomingSettings { enabled: self.enabled, muted_senders: copied(&self.unsubscribed_senders) },
        )
    }
}

/// Whether a deck that is switched on is shared by a sender with a recipient.
pub open spec fn shares_enabled(m: StoreModel, sender: Seq<char>, recipient: Seq<char>) -> spec_fn(
    (Seq<char>, Seq<char>, Seq<char>),
) -> bool {
    |r: (Seq<char>, Seq<char>, Seq<char>)|
        r.0 == sender && r.2 == recipient && any(m.decks, enabled_at(sender, r.1))
}

/// Whether a deck is some deck of a player, and switched on.
pub open spec fn enabled_at(owner: Seq<char>, id: Seq<char>) -> spec_fn(DeckModel) -> bool {
    |d: DeckModel| d.owner == owner && d.id == id && d.enabled
}

/// Whether a sender and a recipient are others.
pub open spec fn silence_elsewhere(recipient: Seq<char>, sender: Seq<char>) -> spec_fn(
    (Seq<char>, Seq<char>, Seq<char>, i64),
) -> bool {
    |r: (Seq<char>, Seq<char>, Seq<char>, i64)| !(r.0 == recipient && r.1 == sender)
}

/// Whether a deck is not shared by a sender with a recipient.
pub open spec fn shares_elsewhere(recipient: Seq<char>, sender: Seq<char>) -> spec_fn((Seq<char>, Seq<char>, Seq<char>)) -> bool {
    |r: (Seq<char>, Seq<char>, Seq<char>)| !(r.0 == sender && r.2 == recipient)
}

/// Whether a selection was not taken away from a recipient by a sender.
pub open spec fn taken_elsewhere(recipient: Seq<char>, sender: Seq<char>) -> spec_fn((Seq<char>, Seq<char>, Seq<char>)) -> bool {
    |r: (Seq<char>, Seq<char>, Seq<char>)| !(r.0 == recipient && r.1 == sender)
}

/// Whether a pair is another one.
pub open spec fn other_pair(a: Seq<char>, b: Seq<char>) -> spec_fn((Seq<char>, Seq<char>)) -> bool {
    |r: (Seq<char>, Seq<char>)| !(r.0 == a && r.1 == b)
}

/// A shared deck, as it is remembered for its recipient.
pub open spec fn remembered() -> spec_fn((Seq<char>, Seq<char>, Seq<char>)) -> (Seq<char>, Seq<char>, Seq<char>) {
    |r: (Seq<char>, Seq<char>, Seq<char>)| (r.2, r.0, r.1)
}

/// What is stored after a recipient has unsubscribed from a sender: what was
/// shared is taken away and remembered.
pub open spec fn detached(m: StoreModel, recipient: Seq<char>, sender: Seq<char>) -> StoreModel {
    StoreModel {
        baselines: kept(m.baselines, silence_elsewhere(recipient, sender)),
        unsubscribed_decks: m.unsubscribed_decks + kept(m.deck_recipients, shares(sender, recipient)).map_values(remembered()),
        deck_recipients: kept(m.deck_recipients, shares_elsewhere(recipient, sender)),
        unsubscriptions: m.unsubscriptions.push((recipient, sender)),
        ..m
    }
}

/// Whether a remembered deck of a sender can be given back to a recipient: it
/// is still there.
pub open spec fn restorable(m: StoreModel, recipient: Seq<char>, sender: Seq<char>) -> spec_fn((Seq<char>, Seq<char>, Seq<char>)) -> bool {
    |r: (Seq<char>, Seq<char>, Seq<char>)| r.0 == recipient && r.1 == sender && any(m.decks, deck_at(sender, r.2))
}

/// Shared decks with some that are given back.
pub open spec fn with_restored(
    list: Seq<(Seq<char>, Seq<char>, Seq<char>)>,
    back: Seq<(Seq<char>, Seq<char>, Seq<char>)>,
) -> Seq<(Seq<char>, Seq<char>, Seq<char>)>
    decreases back.len(),
{
    if back.len() == 0 {
        list
    } else {
        let r = back.last();
        with_row(with_restored(list, back.drop_last()), (r.1, r.2, r.0))
    }
}

/// Whether a silence is not of a deck that is given back.
pub open spec fn silence_of_other(row: (Seq<char>, Seq<char>, Seq<char>)) -> spec_fn((Seq<char>, Seq<char>, Seq<char>, i64)) -> bool {
    |r: (Seq<char>, Seq<char>, Seq<char>, i64)| !(r.0 == row.0 && r.1 == row.1 && r.2 == row.2)
}

/// Silences with some decks silenced for a day.
pub open spec fn with_silenced(
    list: Seq<(Seq<char>, Seq<char>, Seq<char>, i64)>,
    back: Seq<(Seq<char>, Seq<char>, Seq<char>)>,
    day: i64,
) -> Seq<(Seq<char>, Seq<char>, Seq<char>, i64)>
    decreases back.len(),
{
    if back.len() == 0 {
        list
    } else {
        let r = back.last();
        kept(with_silenced(list, back.drop_last(), day), silence_of_other(r)).push((r.0, r.1, r.2, day))
    }
}

/// What is stored after a recipient has subscribed to a sender again: what is
/// remembered and still there is shared again, and silent for the day.
pub open spec fn restored(m: StoreModel, recipient: Seq<char>, sender: Seq<char>, day: i64) -> StoreModel {
    let back = kept(m.unsubscribed_decks, restorable(m, recipient, sender));
    StoreModel {
        unsubscriptions: kept(m.unsubscriptions, other_pair(recipient, sender)),
        deck_recipients: with_restored(m.deck_recipients, back),
        baselines: with_silenced(m.baselines, back, day),
        unsubscribed_decks: kept(m.unsubscribed_decks, taken_elsewhere(recipient, sender)),
        ..m
    }
}

/// What is stored after a recipient has unsubscribed from those of some senders
/// to whom the recipient was subscribed.
pub open spec fn all_detached(m: StoreModel, recipient: Seq<char>, senders: Seq<Seq<char>>) -> StoreModel
    decreases senders.len(),
{
    if senders.len() == 0 {
        m
    } else {
        let before = all_detached(m, recipient, senders.drop_last());
        if m.unsubscriptions.contains((recipient, senders.last())) {
            before
        } else {
            detached(before, recipient, senders.last())
        }
    }
}

/// What is stored after a recipient has subscribed again to those of some
/// senders who are not listed.
pub open spec fn all_restored(
    m: StoreModel,
    recipient: Seq<char>,
    senders: Seq<Seq<char>>,
    listed: Seq<Seq<char>>,
    now: int,
) -> StoreModel
    decreases senders.len(),
{
    if senders.len() == 0 {
        m
    } else {
        let before = all_restored(m, recipient, senders.drop_last(), listed, now);
        if listed.contains(senders.last()) {
            before
        } else {
            restored(before, recipient, senders.last(), clock_of(m, senders.last()).day_of(now) as i64)
        }
    }
}

/// Whether a recipient has unsubscribed from a sender.
pub open spec fn has_left(m: StoreModel, recipient: Seq<char>) -> spec_fn(Seq<char>) -> bool {
    |sender: Seq<char>| m.unsubscriptions.contains((recipient, sender))
}

/// Whether a notification announces a deck that its recipient does not want.
pub open spec fn declined(m: StoreModel, recipient: Seq<char>, enabled: bool) -> spec_fn(RowModel) -> bool {
    |r: RowModel|
        r.recipient == recipient && r.kind == "completion"@ && (!enabled || m.unsubscriptions.contains((recipient, r.sender)))
}

/// What is stored after a recipient has chosen what to receive.
pub open spec fn subscribed(m: StoreModel, recipient: Seq<char>, enabled: bool, senders: Seq<Seq<char>>, now: int) -> StoreModel {
    let left = all_detached(m, recipient, senders);
    let back = all_restored(left, recipient, in_order(has_left(m, recipient)), senders, now);
    StoreModel {
        incoming_settings: put_for(back.incoming_settings, recipient, enabled),
        muted_senders: kept(back.muted_senders, starts_otherwise(recipient)),
        notifications: changed_where(back.notifications, declined(back, recipient, enabled), Change::CancelCompletion),
        ..back
    }
}

proof fn lemma_detached(m: StoreModel, recipient: Seq<char>, sender: Seq<char>)
    requires
        sound(m),
    ensures
        sound(detached(m, recipient, sender)),
{
    let after = detached(m, recipient, sender);
    let gone = kept(m.deck_recipients, shares(sender, recipient));
    let noted = gone.map_values(remembered());
    lemma_kept(m.deck_recipients, shares(sender, recipient));
    lemma_kept(m.deck_recipients, shares_elsewhere(recipient, sender));
    assert(respected(after)) by {
        assert forall|owner: Seq<char>, deck: Seq<char>, who: Seq<char>| #[trigger]
            after.deck_recipients.contains((owner, deck, who)) implies !after.unsubscriptions.contains((who, owner)) by {
            let row = (owner, deck, who);
            assert(m.deck_recipients.contains(row));
            assert(shares_elsewhere(recipient, sender)(row));
            lemma_push_contains(m.unsubscriptions, (recipient, sender), (who, owner));
        }
        assert forall|who: Seq<char>, from: Seq<char>, deck: Seq<char>| #[trigger]
            after.unsubscribed_decks.contains((who, from, deck)) implies after.unsubscriptions.contains((who, from)) by {
            let row = (who, from, deck);
            let i = choose|i: int| 0 <= i < after.unsubscribed_decks.len() && after.unsubscribed_decks[i] == row;
            lemma_push_contains(m.unsubscriptions, (recipient, sender), (who, from));
            if i < m.unsubscribed_decks.len() {
                assert(m.unsubscribed_decks[i] == row);
                assert(m.unsubscribed_decks.contains(row));
            } else {
                let k = i - m.unsubscribed_decks.len();
                assert(noted[k] == row);
                assert(gone.contains(gone[k]));
                assert(shares(sender, recipient)(gone[k]));
            }
        }
    }
}

proof fn lemma_with_restored(list: Seq<(Seq<char>, Seq<char>, Seq<char>)>, back: Seq<(Seq<char>, Seq<char>, Seq<char>)>)
    ensures
        distinct(list) ==> distinct(with_restored(list, back)),
        forall|owner: Seq<char>, deck: Seq<char>, who: Seq<char>| #[trigger]
            with_restored(list, back).contains((owner, deck, who)) <==> list.contains((owner, deck, who)) || back.contains(
                (who, owner, deck),
            ),
    decreases back.len(),
{
    if back.len() > 0 {
        let init = back.drop_last();
        let r = back.last();
        let added = (r.1, r.2, r.0);
        let before = with_restored(list, init);
        let after = with_restored(list, back);
        lemma_with_restored(list, init);
        assert(back =~= init.push(r));
        assert forall|owner: Seq<char>, deck: Seq<char>, who: Seq<char>| #[trigger]
            after.contains((owner, deck, who)) <==> list.contains((owner, deck, who)) || back.contains((who, owner, deck)) by {
            lemma_push_contains(init, r, (who, owner, deck));
            lemma_push_contains(before, added, (owner, deck, who));
            assert(before.contains((owner, deck, who)) <==> list.contains((owner, deck, who)) || init.contains(
                (who, owner, deck),
            ));
        }
        if distinct(list) && !before.contains(added) {
            assert forall|i: int, j: int| 0 <= i < j < after.len() implies after[i] != after[j] by {
                if j == before.len() {
                    assert(before.contains(before[i]));
                } else {
                    assert(before[i] != before[j]);
                }
            }
        }
    }
}

proof fn lemma_with_silenced(
    list: Seq<(Seq<char>, Seq<char>, Seq<char>, i64)>,
    back: Seq<(Seq<char>, Seq<char>, Seq<char>)>,
    day: i64,
    row: (Seq<char>, Seq<char>, Seq<char>),
)
    ensures
        back.contains(row) ==> with_silenced(list, back, day).contains((row.0, row.1, row.2, day)),
    decreases back.len(),
{
    if back.len() > 0 {
        let init = back.drop_last();
        let r = back.last();
        let before = with_silenced(list, init, day);
        let others = kept(before, silence_of_other(r));
        let want = (row.0, row.1, row.2, day);
        lemma_with_silenced(list, init, day, row);
        lemma_kept(before, silence_of_other(r));
        lemma_push_contains(others, (r.0, r.1, r.2, day), want);
        assert(back =~= init.push(r));
        lemma_push_contains(init, r, row);
        if back.contains(row) && row != r {
            assert(before.contains(want));
            assert(silence_of_other(r)(want));
            assert(others.contains(want));
        }
    }
}

proof fn lemma_restored(m: StoreModel, recipient: Seq<char>, sender: Seq<char>, day: i64)
    requires
        sound(m),
    ensures
        sound(restored(m, recipient, sender, day)),
{
    let after = restored(m, recipient, sender, day);
    let test = restorable(m, recipient, sender);
    let back = kept(m.unsubscribed_decks, test);
    lemma_kept(m.unsubscribed_decks, test);
    lemma_kept(m.unsubscribed_decks, taken_elsewhere(recipient, sender));
    lemma_kept(m.unsubscriptions, other_pair(recipient, sender));
    lemma_with_restored(m.deck_recipients, back);
    assert(respected(after)) by {
        assert forall|owner: Seq<char>, deck: Seq<char>, who: Seq<char>| #[trigger]
            after.deck_recipients.contains((owner, deck, who)) implies !after.unsubscriptions.contains((who, owner)) by {
            if m.deck_recipients.contains((owner, deck, who)) {
                assert(!m.unsubscriptions.contains((who, owner)));
            } else {
                assert(back.contains((who, owner, deck)));
                assert(test((who, owner, deck)));
                assert(!other_pair(recipient, sender)((who, owner)));
            }
        }
        assert forall|who: Seq<char>, from: Seq<char>, deck: Seq<char>| #[trigger]
            after.unsubscribed_decks.contains((who, from, deck)) implies after.unsubscriptions.contains((who, from)) by {
            assert(m.unsubscribed_decks.contains((who, from, deck)));
            assert(taken_elsewhere(recipient, sender)((who, from, deck)));
            assert(other_pair(recipient, sender)((who, from)));
        }
    }
}

fn has_shared(table: &[(String, String, String)], owner: &str, id: &str, recipient: &str) -> (res: bool)
    ensures
        res == rows(table@).contains((owner@, id@, recipient@)),
{
    let ghost all = rows(table@);
    let ghost row = (owner@, id@, recipient@);
    let mut i: usize = 0;
    while i < table.len()
        invariant
            all == rows(table@),
            row == (owner@, id@, recipient@),
            i <= table@.len(),
            forall|k: int| 0 <= k < i ==> (#[trigger] all[k]) != row,
        decreases table@.len() - i,
    {
        let r = &table[i];
        if same(r.0.as_str(), owner) && same(r.1.as_str(), id) && same(r.2.as_str(), recipient) {
            assert(all[i as int] == row);
            return true;
        }
        assert(all[i as int] == r@);
        i = i + 1;
    }
    false
}

fn give_back(table: &mut Vec<(String, String, String)>, back: &Vec<(String, String, String)>)
    ensures
        rows(final(table)@) == with_restored(rows(old(table)@), rows(back@)),
{
    let ghost before = rows(table@);
    let ghost all = rows(back@);
    let mut i: usize = 0;
    assert(all.take(0) =~= Seq::<(Seq<char>, Seq<char>, Seq<char>)>::empty());
    while i < back.len()
        invariant
            all == rows(back@),
            i <= back@.len(),
            rows(table@) == with_restored(before, all.take(i as int)),
        decreases back@.len() - i,
    {
        let r = &back[i];
        proof {
            assert(all.take(i + 1).drop_last() =~= all.take(i as int));
            assert(all.take(i + 1).last() == r@);
        }
        if !has_shared(table, r.1.as_str(), r.2.as_str(), r.0.as_str()) {
            append(table, (r.1.clone(), r.2.clone(), r.0.clone()));
        }
        i = i + 1;
    }
    assert(all.take(i as int) =~= all);
}

fn silence_all(table: &mut Vec<(String, String, String, i64)>, back: &Vec<(String, String, String)>, day: i64)
    ensures
        rows(final(table)@) == with_silenced(rows(old(table)@), rows(back@), day),
{
    let ghost before = rows(table@);
    let ghost all = rows(back@);
    let mut i: usize = 0;
    assert(all.take(0) =~= Seq::<(Seq<char>, Seq<char>, Seq<char>)>::empty());
    while i < back.len()
        invariant
            all == rows(back@),
            i <= back@.len(),
            rows(table@) == with_silenced(before, all.take(i as int), day),
        decreases back@.len() - i,
    {
        let row = &back[i];
        proof {
            assert(all.take(i + 1).drop_last() =~= all.take(i as int));
            assert(all.take(i + 1).last() == row@);
        }
        let ghost test = silence_of_other(row@);
        let other = |r: &(String, String, String, i64)| -> (b: bool)
            ensures
                b == test(r@),
        {
            !(same(r.0.as_str(), row.0.as_str()) && same(r.1.as_str(), row.1.as_str()) && same(
                r.2.as_str(),
                row.2.as_str(),
            ))
        };
        retain(table, other, Ghost(test));
        append(table, (row.0.clone(), row.1.clone(), row.2.clone(), day));
        i = i + 1;
    }
    assert(all.take(i as int) =~= all);
}

fn remember(table: &mut Vec<(String, String, String)>, shared: &Vec<(String, String, String)>, recipient: &str, sender: &str)
    ensures
        rows(final(table)@) == rows(old(table)@) + kept(rows(shared@), shares(sender@, recipient@)).map_values(remembered()),
{
    let ghost before = rows(table@);
    let ghost all = rows(shared@);
    let ghost test = shares(sender@, recipient@);
    let mut i: usize = 0;
    assert(all.take(0) =~= Seq::<(Seq<char>, Seq<char>, Seq<char>)>::empty());
    assert(rows(table@) =~= before + kept(all.take(0), test).map_values(remembered()));
    while i < shared.len()
        invariant
            all == rows(shared@),
            test == shares(sender@, recipient@),
            i <= shared@.len(),
            rows(table@) == before + kept(all.take(i as int), test).map_values(remembered()),
        decreases shared@.len() - i,
    {
        let r = &shared[i];
        let ghost shown = r@;
        let ghost so_far = kept(all.take(i as int), test);
        proof {
            assert(all.take(i + 1).drop_last() =~= all.take(i as int));
            assert(all.take(i + 1).last() == shown);
        }
        if same(r.0.as_str(), sender) && same(r.2.as_str(), recipient) {
            append(table, (r.2.clone(), r.0.clone(), r.1.clone()));
            assert(before + so_far.push(shown).map_values(remembered()) =~= (before + so_far.map_values(remembered())).push(
                (shown.2, shown.0, shown.1),
            ));
        }
        i = i + 1;
    }
    assert(all.take(i as int) =~= all);
}

impl Store {
    fn restorable_decks(&self, recipient: &str, sender: &str) -> (res: Vec<(String, String, String)>)
        ensures
            rows(res@) == kept(self@.unsubscribed_decks, restorable(self@, recipient@, sender@)),
    {
        let ghost all = self@.unsubscribed_decks;
        let ghost test = restorable(self@, recipient@, sender@);
        let mut res: Vec<(String, String, String)> = Vec::new();
        let mut i: usize = 0;
        assert(all.take(0) =~= Seq::<(Seq<char>, Seq<char>, Seq<char>)>::empty());
        assert(rows(res@) =~= kept(all.take(0), test));
        while i < self.unsubscribed_decks.len()
            invariant
                all == rows(self.unsubscribed_decks@),
                test == restorable(self@, recipient@, sender@),
                i <= self.unsubscribed_decks@.len(),
                rows(res@) == kept(all.take(i as int), test),
            decreases self.unsubscribed_decks@.len() - i,
        {
            let r = &self.unsubscribed_decks[i];
            proof {
                assert(all.take(i + 1).drop_last() =~= all.take(i as int));
                assert(all.take(i + 1).last() == r@);
            }
            if same(r.0.as_str(), recipient) && same(r.1.as_str(), sender) && has_deck(&self.decks, sender, r.2.as_str()) {
                append(&mut res, (r.0.clone(), r.1.clone(), r.2.clone()));
            }
            i = i + 1;
        }
        assert(all.take(i as int) =~= all);
        res
    }

    fn detach(&mut self, recipient: &str, sender: &str)
        ensures
            final(self)@ == detached(old(self)@, recipient@, sender@),
            old(self).wf() ==> final(self).wf(),
    {
        let ghost before = self@;
        proof {
            if sound(before) {
                lemma_detached(before, recipient@, sender@);
            }
        }
        let ghost silence_test = silence_elsewhere(recipient@, sender@);
        let silent = |r: &(String, String, String, i64)| -> (b: bool)
            ensures
                b == silence_test(r@),
        {
            !(same(r.0.as_str(), recipient) && same(r.1.as_str(), sender))
        };
        retain(&mut self.baselines, silent, Ghost(silence_test));
        remember(&mut self.unsubscribed_decks, &self.deck_recipients, recipient, sender);
        let ghost shares_test = shares_elsewhere(recipient@, sender@);
        let elsewhere = |r: &(String, String, String)| -> (b: bool)
            ensures
                b == shares_test(r@),
        {
            !(same(r.0.as_str(), sender) && same(r.2.as_str(), recipient))
        };
        retain(&mut self.deck_recipients, elsewhere, Ghost(shares_test));
        append(&mut self.unsubscriptions, (recipient.to_owned(), sender.to_owned()));
        assert(self@ =~= detached(before, recipient@, sender@));
    }

    fn restore(&mut self, recipient: &str, sender: &str, day: i64)
        ensures
            final(self)@ == restored(old(self)@, recipient@, sender@, day),
            old(self).wf() ==> final(self).wf(),
    {
        let ghost before = self@;
        proof {
            if sound(before) {
                lemma_restored(before, recipient@, sender@, day);
            }
        }
        let back = self.restorable_decks(recipient, sender);
        let ghost pair_test = other_pair(recipient@, sender@);
        let other = |r: &(String, String)| -> (b: bool)
            ensures
                b == pair_test(r@),
        {
            !(same(r.0.as_str(), recipient) && same(r.1.as_str(), sender))
        };
        retain(&mut self.unsubscriptions, other, Ghost(pair_test));
        give_back(&mut self.deck_recipients, &back);
        silence_all(&mut self.baselines, &back, day);
        let ghost taken_test = taken_elsewhere(recipient@, sender@);
        let taken = |r: &(String, String, String)| -> (b: bool)
            ensures
                b == taken_test(r@),
        {
            !(same(r.0.as_str(), recipient) && same(r.1.as_str(), sender))
        };
        retain(&mut self.unsubscribed_decks, taken, Ghost(taken_test));
        assert(self@ =~= restored(before, recipient@, sender@, day));
    }

    fn shares_with(&self, r: &(String, String, String), recipient: &str) -> (res: bool)
        ensures
            res == (r@.2 == recipient@ && any(self@.decks, enabled_at(r@.0, r@.1))),
    {
        let ghost test = enabled_at(r@.0, r@.1);
        let is_it = |d: &DeckRow| -> (b: bool)
            ensures
                b == test(d@),
        {
            same(d.owner.as_str(), r.0.as_str()) && same(d.id.as_str(), r.1.as_str()) && d.enabled
        };
        same(r.2.as_str(), recipient) && has(&self.decks, is_it, Ghost(test))
    }

    /// The senders who share a deck with a recipient, in order.
    pub fn sharing_senders(&self, recipient: &str) -> (res: Vec<String>)
        ensures
            ascending(texts(res@)),
            forall|s: Seq<char>| #[trigger]
                texts(res@).contains(s) <==> s != recipient@ && any(
                    self@.deck_recipients,
                    shares_enabled(self@, s, recipient@),
                ),
    {
        let ghost all = self@.deck_recipients;
        let ghost m = self@;
        let mut list: Vec<String> = Vec::new();
        assert(texts(list@) =~= Seq::<Seq<char>>::empty());
        let mut i: usize = 0;
        while i < self.deck_recipients.len()
            invariant
                m == self@,
                all == rows(self.deck_recipients@),
                i <= self.deck_recipients@.len(),
                ascending(texts(list@)),
                forall|s: Seq<char>| #[trigger]
                    texts(list@).contains(s) <==> s != recipient@ && any(
                        all.take(i as int),
                        shares_enabled(m, s, recipient@),
                    ),
            decreases self.deck_recipients@.len() - i,
        {
            let ghost before = texts(list@);
            let r = &self.deck_recipients[i];
            let ghost shown = r@;
            if self.shares_with(r, recipient) && !same(r.0.as_str(), recipient) {
                assert(rows(list@) =~= before);
                insert_ascending(&mut list, r.0.clone());
                assert(rows(list@) =~= texts(list@));
            }
            proof {
                assert(all[i as int] == shown);
                assert forall|s: Seq<char>| #[trigger]
                    texts(list@).contains(s) <==> s != recipient@ && any(all.take(i + 1), shares_enabled(m, s, recipient@)) by {
                    assert(before.contains(s) <==> s != recipient@ && any(
                        all.take(i as int),
                        shares_enabled(m, s, recipient@),
                    ));
                    lemma_any_next(all, shares_enabled(m, s, recipient@), i as int);
                }
            }
            i = i + 1;
        }
        assert(all.take(i as int) =~= all);
        list
    }

    /// From whom a recipient has unsubscribed, in order.
    pub fn unsubscribed_senders(&self, recipient: &str) -> (res: Vec<String>)
        ensures
            texts(res@) == in_order(has_left(self@, recipient@)),
            ascending(texts(res@)),
            forall|s: Seq<char>| #[trigger]
                texts(res@).contains(s) <==> self@.unsubscriptions.contains((recipient@, s)),
    {
        let res = partners(&self.unsubscriptions, recipient);
        proof {
            lemma_in_order(texts(res@), has_left(self@, recipient@));
        }
        res
    }

    /// Who has unsubscribed from a sender, in order.
    pub fn unsubscribed_recipients(&self, sender: &str) -> (res: Vec<String>)
        ensures
            ascending(texts(res@)),
            forall|r: Seq<char>| #[trigger] texts(res@).contains(r) <==> self@.unsubscriptions.contains((r, sender@)),
    {
        let ghost all = self@.unsubscriptions;
        let mut list: Vec<String> = Vec::new();
        assert(texts(list@) =~= Seq::<Seq<char>>::empty());
        let mut i: usize = 0;
        while i < self.unsubscriptions.len()
            invariant
                all == rows(self.unsubscriptions@),
                i <= self.unsubscriptions@.len(),
                ascending(texts(list@)),
                forall|r: Seq<char>| #[trigger] texts(list@).contains(r) <==> all.take(i as int).contains((r, sender@)),
            decreases self.unsubscriptions@.len() - i,
        {
            let ghost before = texts(list@);
            let pair = &self.unsubscriptions[i];
            let ghost shown = pair@;
            if same(pair.1.as_str(), sender) {
                assert(rows(list@) =~= before);
                insert_ascending(&mut list, pair.0.clone());
                assert(rows(list@) =~= texts(list@));
            }
            proof {
                assert(all.take(i + 1) =~= all.take(i as int).push(shown));
                assert forall|r: Seq<char>| #[trigger]
                    texts(list@).contains(r) <==> all.take(i + 1).contains((r, sender@)) by {
                    assert(before.contains(r) <==> all.take(i as int).contains((r, sender@)));
                    lemma_push_contains(all.take(i as int), shown, (r, sender@));
                }
            }
            i = i + 1;
        }
        assert(all.take(i as int) =~= all);
        list
    }

    fn detach_all(&mut self, recipient: &str, senders: &Vec<String>, previous: &Vec<String>)
        requires
            old(self).wf(),
            forall|s: Seq<char>| #[trigger]
                texts(previous@).contains(s) <==> old(self)@.unsubscriptions.contains((recipient@, s)),
        ensures
            final(self)@ == all_detached(old(self)@, recipient@, rows(senders@)),
            final(self).wf(),
    {
        let ghost start = self@;
        let ghost all = rows(senders@);
        let mut i: usize = 0;
        assert(all.take(0) =~= Seq::<Seq<char>>::empty());
        while i < senders.len()
            invariant
                all == rows(senders@),
                i <= senders@.len(),
                forall|s: Seq<char>| #[trigger]
                    texts(previous@).contains(s) <==> start.unsubscriptions.contains((recipient@, s)),
                self@ == all_detached(start, recipient@, all.take(i as int)),
                self.wf(),
            decreases senders@.len() - i,
        {
            proof {
                assert(all.take(i + 1).drop_last() =~= all.take(i as int));
                assert(all.take(i + 1).last() == senders@[i as int]@);
                assert(texts(previous@) =~= rows(previous@));
            }
            if !lists(previous, senders[i].as_str()) {
                assert(!texts(previous@).contains(senders@[i as int]@));
                self.detach(recipient, senders[i].as_str());
            } else {
                assert(texts(previous@).contains(senders@[i as int]@));
            }
            i = i + 1;
        }
        assert(all.take(i as int) =~= all);
    }

    fn restore_all(&mut self, recipient: &str, senders: &Vec<String>, listed: &Vec<String>, now_ms: i64)
        requires
            old(self).wf(),
            forall|s: Seq<char>| #[trigger]
                texts(senders@).contains(s) ==> clock_of(old(self)@, s).tells_day(now_ms as int),
        ensures
            final(self)@ == all_restored(old(self)@, recipient@, texts(senders@), rows(listed@), now_ms as int),
            final(self).wf(),
    {
        let ghost start = self@;
        let ghost all = texts(senders@);
        let mut i: usize = 0;
        assert(all.take(0) =~= Seq::<Seq<char>>::empty());
        while i < senders.len()
            invariant
                all == texts(senders@),
                i <= senders@.len(),
                forall|s: Seq<char>| #[trigger]
                    texts(senders@).contains(s) ==> clock_of(start, s).tells_day(now_ms as int),
                self@ == all_restored(start, recipient@, all.take(i as int), rows(listed@), now_ms as int),
                self@.clocks == start.clocks,
                self.wf(),
            decreases senders@.len() - i,
        {
            proof {
                assert(all.take(i + 1).drop_last() =~= all.take(i as int));
                assert(all.take(i + 1).last() == senders@[i as int]@);
                assert(all.contains(all[i as int]));
            }
            if !lists(listed, senders[i].as_str()) {
                let clock = self.clock(senders[i].as_str());
                assert(clock == clock_of(start, senders@[i as int]@));
                let day: i64 = clock.day(now_ms);
                self.restore(recipient, senders[i].as_str(), day);
            }
            i = i + 1;
        }
        assert(all.take(i as int) =~= all);
    }

    /// Only the recipient calls this. Remember detached selections so they can
    /// restore them later, without granting access to any additional decks.
    pub fn set_deck_subscriptions(&mut self, recipient: &str, settings: &Settings, now_ms: i64) -> (res: Result<(), StoreError>)
        requires
            old(self).wf(),
            forall|s: Seq<char>| #[trigger]
                old(self)@.unsubscriptions.contains((recipient@, s)) ==> clock_of(old(self)@, s).tells_day(now_ms as int),
        ensures
            match res {
                Ok(()) => is_valid_choice(recipient@, rows(settings.unsubscribed_senders@)) && final(self)@ == subscribed(
                    old(self)@,
                    recipient@,
                    settings.enabled,
                    rows(settings.unsubscribed_senders@),
                    now_ms as int,
                ),
                Err(e) => !is_valid_choice(recipient@, rows(settings.unsubscribed_senders@)) && e
                    == StoreError::InvalidSubscriptions && final(self)@ == old(self)@,
            },
            final(self).wf(),
    {
        if !settings.valid(recipient) {
            return Err(StoreError::InvalidSubscriptions);
        }
        let ghost before = self@;
        let ghost next = rows(settings.unsubscribed_senders@);
        let previous = self.unsubscribed_senders(recipient);
        self.detach_all(recipient, &settings.unsubscribed_senders, &previous);
        proof {
            lemma_detaching_keeps(before, recipient@, next);
            assert forall|s: Seq<char>| #[trigger] texts(previous@).contains(s) implies clock_of(self@, s).tells_day(
                now_ms as int,
            ) by {
                assert(before.unsubscriptions.contains((recipient@, s)));
            }
        }
        self.restore_all(recipient, &previous, &settings.unsubscribed_senders, now_ms);
        let ghost back = self@;
        put(&mut self.incoming_settings, recipient, settings.enabled);
        let other = |r: &(String, String)| -> (b: bool)
            ensures
                b == (r@.0 != recipient@),
        {
            !same(r.0.as_str(), recipient)
        };
        retain(&mut self.muted_senders, other, Ghost(starts_otherwise(recipient@)));
        let enabled = settings.enabled;
        let left = &self.unsubscriptions;
        let ghost test = declined(back, recipient@, enabled);
        let is_declined = |r: &NoticeRow| -> (b: bool)
            ensures
                b == test(r@),
        {
            same(r.recipient.as_str(), recipient) && same(r.kind.as_str(), "completion") && (!enabled || has_pair(
                left,
                recipient,
                r.sender.as_str(),
            ))
        };
        change_rows(&mut self.notifications, is_declined, Ghost(test), Change::CancelCompletion);
        assert(self@ =~= subscribed(before, recipient@, settings.enabled, next, now_ms as int));
        Ok(())
    }
}

proof fn lemma_detaching_keeps(m: StoreModel, recipient: Seq<char>, senders: Seq<Seq<char>>)
    ensures
        all_detached(m, recipient, senders).clocks == m.clocks,
        all_detached(m, recipient, senders).decks == m.decks,
        forall|s: Seq<char>| #[trigger]
            all_detached(m, recipient, senders).unsubscriptions.contains((recipient, s)) <==> m.unsubscriptions.contains(
                (recipient, s),
            ) || senders.contains(s),
    decreases senders.len(),
{
    if senders.len() > 0 {
        let init = senders.drop_last();
        let last = senders.last();
        let before = all_detached(m, recipient, init);
        let after = all_detached(m, recipient, senders);
        lemma_detaching_keeps(m, recipient, init);
        assert(senders =~= init.push(last));
        assert forall|s: Seq<char>| #[trigger] after.unsubscriptions.contains((recipient, s)) <==> m.unsubscriptions.contains(
            (recipient, s),
        ) || senders.contains(s) by {
            lemma_push_contains(init, last, s);
            lemma_push_contains(before.unsubscriptions, (recipient, last), (recipient, s));
            assert(before.unsubscriptions.contains((recipient, s)) <==> m.unsubscriptions.contains((recipient, s))
                || init.contains(s));
        }
    }
}

proof fn lemma_restoring_keeps(m: StoreModel, recipient: Seq<char>, senders: Seq<Seq<char>>, listed: Seq<Seq<char>>, now: int)
    ensures
        forall|s: Seq<char>| #[trigger]
            all_restored(m, recipient, senders, listed, now).unsubscriptions.contains((recipient, s))
                <==> m.unsubscriptions.contains((recipient, s)) && !(senders.contains(s) && !listed.contains(s)),
    decreases senders.len(),
{
    if senders.len() > 0 {
        let init = senders.drop_last();
        let last = senders.last();
        let before = all_restored(m, recipient, init, listed, now);
        let after = all_restored(m, recipient, senders, listed, now);
        lemma_restoring_keeps(m, recipient, init, listed, now);
        lemma_kept(before.unsubscriptions, other_pair(recipient, last));
        assert(senders =~= init.push(last));
        assert forall|s: Seq<char>| #[trigger] after.unsubscriptions.contains((recipient, s)) <==> m.unsubscriptions.contains(
            (recipient, s),
        ) && !(senders.contains(s) && !listed.contains(s)) by {
            lemma_push_contains(init, last, s);
            assert(before.unsubscriptions.contains((recipient, s)) <==> m.unsubscriptions.contains((recipient, s)) && !(
            init.contains(s) && !listed.contains(s)));
            assert(other_pair(recipient, last)((recipient, s)) <==> s != last);
        }
    }
}

/// After a choice a recipient has left exactly the listed senders.
pub proof fn law_the_choice_is_what_was_listed(
    m: StoreModel,
    recipient: Seq<char>,
    enabled: bool,
    senders: Seq<Seq<char>>,
    now: int,
    sender: Seq<char>,
)
    ensures
        subscribed(m, recipient, enabled, senders, now).unsubscriptions.contains((recipient, sender)) <==> senders.contains(
            sender,
        ),
{
    let left = all_detached(m, recipient, senders);
    lemma_detaching_keeps(m, recipient, senders);
    lemma_left_in_order(m, recipient);
    lemma_restoring_keeps(left, recipient, in_order(has_left(m, recipient)), senders, now);
}

proof fn lemma_left_in_order(m: StoreModel, recipient: Seq<char>)
    ensures
        forall|s: Seq<char>| #[trigger]
            in_order(has_left(m, recipient)).contains(s) <==> m.unsubscriptions.contains((recipient, s)),
{
    let pairs = kept(m.unsubscriptions, crate::decks::starts_with(recipient));
    let names = pairs.map_values(|r: (Seq<char>, Seq<char>)| r.1);
    lemma_kept(m.unsubscriptions, crate::decks::starts_with(recipient));
    let list = crate::order::law_texts_can_be_ordered(names);
    assert forall|s: Seq<char>| #[trigger] list.contains(s) <==> has_left(m, recipient)(s) by {
        let pair = (recipient, s);
        if names.contains(s) {
            let i = choose|i: int| 0 <= i < names.len() && names[i] == s;
            assert(pairs.contains(pairs[i]));
            assert(crate::decks::starts_with(recipient)(pairs[i]));
            assert(pairs[i] == pair);
        }
        if m.unsubscriptions.contains(pair) {
            assert(crate::decks::starts_with(recipient)(pair));
            assert(pairs.contains(pair));
            let i = choose|i: int| 0 <= i < pairs.len() && pairs[i] == pair;
            assert(names[i] == s);
        }
    }
    lemma_in_order(list, has_left(m, recipient));
}

/// Nothing is shared with a recipient who has left a sender, and nothing that
/// the sender does can change that: no choice of the sender names the
/// recipient.
pub proof fn law_unsubscribed_recipients_are_left_out(
    m: StoreModel,
    recipient: Seq<char>,
    sender: Seq<char>,
    deck: Seq<char>,
    recipients: Seq<Seq<char>>,
)
    requires
        sound(m),
        m.unsubscriptions.contains((recipient, sender)),
    ensures
        !m.deck_recipients.contains((sender, deck, recipient)),
        recipients.contains(recipient) ==> objection_to(m, sender, recipients) is Some,
{
    if recipients.contains(recipient) && objection_to(m, sender, recipients) is None {
        lemma_no_objection_to(m, sender, recipients);
    }
}

/// A recipient who leaves a sender and comes back gets what was shared and is
/// still there, and nothing more, and it is silent for the day.
pub proof fn law_coming_back_restores_what_was_shared(m: StoreModel, recipient: Seq<char>, sender: Seq<char>, deck: Seq<char>, day: i64)
    requires
        sound(m),
        !m.unsubscriptions.contains((recipient, sender)),
    ensures
        ({
            let after = restored(detached(m, recipient, sender), recipient, sender, day);
            &&& after.deck_recipients.contains((sender, deck, recipient)) <==> m.deck_recipients.contains(
                (sender, deck, recipient),
            ) && any(m.decks, deck_at(sender, deck))
            &&& after.deck_recipients.contains((sender, deck, recipient)) ==> after.baselines.contains(
                (recipient, sender, deck, day),
            )
        }),
{
    let away = detached(m, recipient, sender);
    let after = restored(away, recipient, sender, day);
    let gone = kept(m.deck_recipients, shares(sender, recipient));
    let noted = gone.map_values(remembered());
    let test = restorable(away, recipient, sender);
    let back = kept(away.unsubscribed_decks, test);
    let row = (sender, deck, recipient);
    let note = (recipient, sender, deck);
    lemma_kept(m.deck_recipients, shares(sender, recipient));
    lemma_kept(m.deck_recipients, shares_elsewhere(recipient, sender));
    lemma_kept(away.unsubscribed_decks, test);
    lemma_with_restored(away.deck_recipients, back);
    lemma_with_silenced(away.baselines, back, day, note);
    assert(!shares_elsewhere(recipient, sender)(row));
    assert(!away.deck_recipients.contains(row));
    assert(!m.unsubscribed_decks.contains(note));
    if away.unsubscribed_decks.contains(note) {
        let i = choose|i: int| 0 <= i < away.unsubscribed_decks.len() && away.unsubscribed_decks[i] == note;
        if i < m.unsubscribed_decks.len() {
            assert(m.unsubscribed_decks[i] == note);
        }
        let k = i - m.unsubscribed_decks.len();
        assert(noted[k] == note);
        assert(gone[k] == row);
        assert(gone.contains(row));
    }
    if m.deck_recipients.contains(row) {
        assert(shares(sender, recipient)(row));
        assert(gone.contains(row));
        let k = choose|k: int| 0 <= k < gone.len() && gone[k] == row;
        assert(noted[k] == note);
        assert(away.unsubscribed_decks[m.unsubscribed_decks.len() + k] == note);
    }
}

proof fn lemma_detaching(m: StoreModel, recipient: Seq<char>, senders: Seq<Seq<char>>)
    requires
        respected(m),
    ensures
        forall|owner: Seq<char>, deck: Seq<char>, who: Seq<char>| #[trigger]
            all_detached(m, recipient, senders).deck_recipients.contains((owner, deck, who)) <==> m.deck_recipients.contains(
                (owner, deck, who),
            ) && !(who == recipient && senders.contains(owner)),
        forall|who: Seq<char>, from: Seq<char>, deck: Seq<char>| #[trigger]
            all_detached(m, recipient, senders).unsubscribed_decks.contains((who, from, deck))
                <==> m.unsubscribed_decks.contains((who, from, deck)) || (who == recipient && senders.contains(from)
                && m.deck_recipients.contains((from, deck, recipient))),
    decreases senders.len(),
{
    if senders.len() > 0 {
        let init = senders.drop_last();
        let last = senders.last();
        let before = all_detached(m, recipient, init);
        let after = all_detached(m, recipient, senders);
        lemma_detaching(m, recipient, init);
        assert(senders =~= init.push(last));
        let gone = kept(before.deck_recipients, shares(last, recipient));
        let noted = gone.map_values(remembered());
        lemma_kept(before.deck_recipients, shares(last, recipient));
        lemma_kept(before.deck_recipients, shares_elsewhere(recipient, last));
        assert forall|owner: Seq<char>, deck: Seq<char>, who: Seq<char>| #[trigger]
            after.deck_recipients.contains((owner, deck, who)) <==> m.deck_recipients.contains((owner, deck, who)) && !(who
                == recipient && senders.contains(owner)) by {
            let row = (owner, deck, who);
            lemma_push_contains(init, last, owner);
            assert(before.deck_recipients.contains((owner, deck, who)) <==> m.deck_recipients.contains((owner, deck, who))
                && !(who == recipient && init.contains(owner)));
            assert(shares_elsewhere(recipient, last)(row) <==> !(owner == last && who == recipient));
        }
        assert forall|who: Seq<char>, from: Seq<char>, deck: Seq<char>| #[trigger]
            after.unsubscribed_decks.contains((who, from, deck)) <==> m.unsubscribed_decks.contains((who, from, deck)) || (who
                == recipient && senders.contains(from) && m.deck_recipients.contains((from, deck, recipient))) by {
            let note = (who, from, deck);
            let row = (from, deck, who);
            lemma_push_contains(init, last, from);
            assert(before.unsubscribed_decks.contains((who, from, deck)) <==> m.unsubscribed_decks.contains((who, from, deck))
                || (who == recipient && init.contains(from) && m.deck_recipients.contains((from, deck, recipient))));
            assert(before.deck_recipients.contains((from, deck, who)) <==> m.deck_recipients.contains((from, deck, who))
                && !(who == recipient && init.contains(from)));
            assert(shares(last, recipient)(row) <==> from == last && who == recipient);
            if !m.unsubscriptions.contains((recipient, last)) {
                lemma_joined(before.unsubscribed_decks, noted, note);
                if noted.contains(note) {
                    let k = choose|k: int| 0 <= k < noted.len() && noted[k] == note;
                    assert(gone[k] == row);
                    assert(gone.contains(row));
                }
                if gone.contains(row) {
                    let k = choose|k: int| 0 <= k < gone.len() && gone[k] == row;
                    assert(noted[k] == note);
                }
            }
        }
    }
}

proof fn lemma_joined<V>(a: Seq<V>, b: Seq<V>, v: V)
    ensures
        (a + b).contains(v) <==> a.contains(v) || b.contains(v),
{
    if a.contains(v) {
        let k = choose|k: int| 0 <= k < a.len() && a[k] == v;
        assert((a + b)[k] == v);
    }
    if b.contains(v) {
        let k = choose|k: int| 0 <= k < b.len() && b[k] == v;
        assert((a + b)[a.len() + k] == v);
    }
    if (a + b).contains(v) {
        let k = choose|k: int| 0 <= k < (a + b).len() && (a + b)[k] == v;
        if k < a.len() {
            assert(a[k] == v);
        } else {
            assert(b[k - a.len()] == v);
        }
    }
}

proof fn lemma_restoring(m: StoreModel, recipient: Seq<char>, senders: Seq<Seq<char>>, listed: Seq<Seq<char>>, now: int)
    ensures
        all_restored(m, recipient, senders, listed, now).decks == m.decks,
        forall|owner: Seq<char>, deck: Seq<char>, who: Seq<char>| #[trigger]
            all_restored(m, recipient, senders, listed, now).deck_recipients.contains((owner, deck, who))
                <==> m.deck_recipients.contains((owner, deck, who)) || (who == recipient && senders.contains(owner)
                && !listed.contains(owner) && m.unsubscribed_decks.contains((recipient, owner, deck)) && any(
                m.decks,
                deck_at(owner, deck),
            )),
        forall|who: Seq<char>, from: Seq<char>, deck: Seq<char>| #[trigger]
            all_restored(m, recipient, senders, listed, now).unsubscribed_decks.contains((who, from, deck))
                <==> m.unsubscribed_decks.contains((who, from, deck)) && !(who == recipient && senders.contains(from)
                && !listed.contains(from)),
    decreases senders.len(),
{
    if senders.len() > 0 {
        let init = senders.drop_last();
        let last = senders.last();
        let before = all_restored(m, recipient, init, listed, now);
        let after = all_restored(m, recipient, senders, listed, now);
        lemma_restoring(m, recipient, init, listed, now);
        assert(senders =~= init.push(last));
        let test = restorable(before, recipient, last);
        let back = kept(before.unsubscribed_decks, test);
        lemma_kept(before.unsubscribed_decks, test);
        lemma_kept(before.unsubscribed_decks, taken_elsewhere(recipient, last));
        lemma_with_restored(before.deck_recipients, back);
        assert forall|owner: Seq<char>, deck: Seq<char>, who: Seq<char>| #[trigger]
            after.deck_recipients.contains((owner, deck, who)) <==> m.deck_recipients.contains((owner, deck, who)) || (who
                == recipient && senders.contains(owner) && !listed.contains(owner) && m.unsubscribed_decks.contains(
                (recipient, owner, deck),
            ) && any(m.decks, deck_at(owner, deck))) by {
            let note = (who, owner, deck);
            lemma_push_contains(init, last, owner);
            assert(before.deck_recipients.contains((owner, deck, who)) <==> m.deck_recipients.contains((owner, deck, who))
                || (who == recipient && init.contains(owner) && !listed.contains(owner) && m.unsubscribed_decks.contains(
                (recipient, owner, deck),
            ) && any(m.decks, deck_at(owner, deck))));
            assert(before.unsubscribed_decks.contains((who, owner, deck)) <==> m.unsubscribed_decks.contains(
                (who, owner, deck),
            ) && !(who == recipient && init.contains(owner) && !listed.contains(owner)));
            assert(test(note) <==> who == recipient && owner == last && any(m.decks, deck_at(last, deck)));
            assert(back.contains(note) <==> before.unsubscribed_decks.contains(note) && test(note));
        }
        assert forall|who: Seq<char>, from: Seq<char>, deck: Seq<char>| #[trigger]
            after.unsubscribed_decks.contains((who, from, deck)) <==> m.unsubscribed_decks.contains((who, from, deck)) && !(who
                == recipient && senders.contains(from) && !listed.contains(from)) by {
            let note = (who, from, deck);
            lemma_push_contains(init, last, from);
            assert(before.unsubscribed_decks.contains((who, from, deck)) <==> m.unsubscribed_decks.contains((who, from, deck))
                && !(who == recipient && init.contains(from) && !listed.contains(from)));
            assert(taken_elsewhere(recipient, last)(note) <==> !(who == recipient && from == last));
        }
    }
}

/// What a choice does to what is shared: whoever is listed shares nothing with
/// the recipient, what was shared is remembered, everyone else shares what was
/// shared before and what is remembered and still there, and nothing changes
/// for other recipients.
pub proof fn law_a_choice_moves_what_is_shared(
    m: StoreModel,
    recipient: Seq<char>,
    enabled: bool,
    senders: Seq<Seq<char>>,
    now: int,
    owner: Seq<char>,
    deck: Seq<char>,
    who: Seq<char>,
)
    requires
        respected(m),
    ensures
        ({
            let after = subscribed(m, recipient, enabled, senders, now);
            let shared = m.deck_recipients.contains((owner, deck, who));
            let noted = m.unsubscribed_decks.contains((who, owner, deck));
            &&& after.decks == m.decks
            &&& after.deck_recipients.contains((owner, deck, who)) <==> if who != recipient {
                shared
            } else {
                !senders.contains(owner) && (shared || (noted && any(m.decks, deck_at(owner, deck))))
            }
            &&& after.unsubscribed_decks.contains((who, owner, deck)) <==> if who != recipient {
                noted
            } else {
                senders.contains(owner) && (shared || noted)
            }
        }),
{
    let away = all_detached(m, recipient, senders);
    let left = in_order(has_left(m, recipient));
    lemma_detaching(m, recipient, senders);
    lemma_detaching_keeps(m, recipient, senders);
    lemma_left_in_order(m, recipient);
    lemma_restoring(away, recipient, left, senders, now);
    let back = all_restored(away, recipient, left, senders, now);
    assert(left.contains(owner) <==> m.unsubscriptions.contains((recipient, owner)));
    assert(back.deck_recipients.contains((owner, deck, who)) <==> away.deck_recipients.contains((owner, deck, who)) || (who
        == recipient && left.contains(owner) && !senders.contains(owner) && away.unsubscribed_decks.contains(
        (recipient, owner, deck),
    ) && any(m.decks, deck_at(owner, deck))));
    assert(back.unsubscribed_decks.contains((who, owner, deck)) <==> away.unsubscribed_decks.contains((who, owner, deck)) && !(
    who == recipient && left.contains(owner) && !senders.contains(owner)));
    assert(away.deck_recipients.contains((owner, deck, who)) <==> m.deck_recipients.contains((owner, deck, who)) && !(who
        == recipient && senders.contains(owner)));
    assert(away.unsubscribed_decks.contains((who, owner, deck)) <==> m.unsubscribed_decks.contains((who, owner, deck)) || (
    who == recipient && senders.contains(owner) && m.deck_recipients.contains((owner, deck, recipient))));
}

/// Whoever is shown as a recipient of a deck is one.
pub proof fn law_shown_recipients_are_all(m: StoreModel, owner: Seq<char>, deck: Seq<char>, who: Seq<char>)
    ensures
        in_order(shared_with(m, owner, deck)).contains(who) <==> m.deck_recipients.contains((owner, deck, who)),
{
    let of_deck = |r: (Seq<char>, Seq<char>, Seq<char>)| r.0 == owner && r.1 == deck;
    let found = kept(m.deck_recipients, of_deck);
    let names = found.map_values(|r: (Seq<char>, Seq<char>, Seq<char>)| r.2);
    lemma_kept(m.deck_recipients, of_deck);
    let list = crate::order::law_texts_can_be_ordered(names);
    assert forall|s: Seq<char>| #[trigger] list.contains(s) <==> shared_with(m, owner, deck)(s) by {
        let row = (owner, deck, s);
        if names.contains(s) {
            let i = choose|i: int| 0 <= i < names.len() && names[i] == s;
            assert(found.contains(found[i]));
            assert(of_deck(found[i]));
            assert(found[i] == row);
        }
        if m.deck_recipients.contains(row) {
            assert(of_deck(row));
            assert(found.contains(row));
            let i = choose|i: int| 0 <= i < found.len() && found[i] == row;
            assert(names[i] == s);
        }
    }
    lemma_in_order(list, shared_with(m, owner, deck));
}

/// Whether a deck is shown as another one, but for one recipient less.
pub open spec fn lacks(before: ShownDeck, after: ShownDeck, recipient: Seq<char>) -> bool {
    &&& after.id == before.id
    &&& after.name == before.name
    &&& after.enabled == (before.enabled && after.recipients.len() > 0)
    &&& forall|who: Seq<char>| #[trigger]
        after.recipients.contains(who) <==> before.recipients.contains(who) && who != recipient
}

/// Whether decks are shown as others, but for one recipient less.
pub open spec fn all_lack(before: Seq<ShownDeck>, after: Seq<ShownDeck>, recipient: Seq<char>) -> bool {
    &&& after.len() == before.len()
    &&& forall|i: int| 0 <= i < before.len() ==> lacks(#[trigger] before[i], after[i], recipient)
}

proof fn lemma_placed_alike(a: Seq<ShownDeck>, b: Seq<ShownDeck>, x: ShownDeck, y: ShownDeck, recipient: Seq<char>)
    requires
        all_lack(a, b, recipient),
        lacks(x, y, recipient),
    ensures
        all_lack(placed(a, x, deck_order()), placed(b, y, deck_order()), recipient),
    decreases a.len(),
{
    if a.len() > 0 {
        assert(lacks(a.last(), b.last(), recipient));
        assert(all_lack(a.drop_last(), b.drop_last(), recipient)) by {
            assert forall|i: int| 0 <= i < a.len() - 1 implies lacks(
                #[trigger] a.drop_last()[i],
                b.drop_last()[i],
                recipient,
            ) by {
                assert(lacks(a[i], b[i], recipient));
            }
        }
        lemma_placed_alike(a.drop_last(), b.drop_last(), x, y, recipient);
    }
}

proof fn lemma_ranked_alike(a: Seq<ShownDeck>, b: Seq<ShownDeck>, recipient: Seq<char>)
    requires
        all_lack(a, b, recipient),
    ensures
        all_lack(ranked(a, deck_order()), ranked(b, deck_order()), recipient),
    decreases a.len(),
{
    if a.len() > 0 {
        assert(lacks(a.last(), b.last(), recipient));
        assert(all_lack(a.drop_last(), b.drop_last(), recipient)) by {
            assert forall|i: int| 0 <= i < a.len() - 1 implies lacks(
                #[trigger] a.drop_last()[i],
                b.drop_last()[i],
                recipient,
            ) by {
                assert(lacks(a[i], b[i], recipient));
            }
        }
        lemma_ranked_alike(a.drop_last(), b.drop_last(), recipient);
        lemma_placed_alike(
            ranked(a.drop_last(), deck_order()),
            ranked(b.drop_last(), deck_order()),
            a.last(),
            b.last(),
            recipient,
        );
    }
}

proof fn lemma_left_decks(m: StoreModel, away: StoreModel, list: Seq<DeckModel>, sender: Seq<char>, recipient: Seq<char>)
    requires
        forall|deck: Seq<char>, who: Seq<char>| #[trigger]
            away.deck_recipients.contains((sender, deck, who)) <==> m.deck_recipients.contains((sender, deck, who)) && who
                != recipient,
    ensures
        all_lack(decks_among(m, list, sender), decks_among(away, list, sender), recipient),
    decreases list.len(),
{
    if list.len() > 0 {
        let row = list.last();
        let a = decks_among(m, list.drop_last(), sender);
        let b = decks_among(away, list.drop_last(), sender);
        lemma_left_decks(m, away, list.drop_last(), sender, recipient);
        if row.owner == sender {
            let x = shown_deck(m, row);
            let y = shown_deck(away, row);
            assert forall|who: Seq<char>| #[trigger]
                y.recipients.contains(who) <==> x.recipients.contains(who) && who != recipient by {
                law_shown_recipients_are_all(m, sender, row.id, who);
                law_shown_recipients_are_all(away, sender, row.id, who);
                assert(away.deck_recipients.contains((sender, row.id, who)) <==> m.deck_recipients.contains(
                    (sender, row.id, who),
                ) && who != recipient);
            }
            if y.recipients.len() > 0 {
                assert(y.recipients.contains(y.recipients[0]));
                assert(x.recipients.contains(y.recipients[0]));
            }
            assert(lacks(x, y, recipient));
            assert forall|i: int| 0 <= i < a.push(x).len() implies lacks(#[trigger] a.push(x)[i], b.push(y)[i], recipient) by {
                if i < a.len() {
                    assert(lacks(a[i], b[i], recipient));
                }
            }
        }
    }
}

proof fn lemma_same_decks(m: StoreModel, back: StoreModel, list: Seq<DeckModel>, sender: Seq<char>)
    requires
        forall|i: int, who: Seq<char>|
            0 <= i < list.len() && (#[trigger] list[i]).owner == sender ==> (#[trigger] back.deck_recipients.contains(
                (sender, list[i].id, who),
            ) <==> m.deck_recipients.contains((sender, list[i].id, who))),
    ensures
        decks_among(m, list, sender) == decks_among(back, list, sender),
    decreases list.len(),
{
    if list.len() > 0 {
        let row = list.last();
        let init = list.drop_last();
        assert forall|i: int, who: Seq<char>| 0 <= i < init.len() && (#[trigger] init[i]).owner == sender implies (
        #[trigger] back.deck_recipients.contains((sender, init[i].id, who)) <==> m.deck_recipients.contains(
            (sender, init[i].id, who),
        )) by {
            assert(init[i] == list[i]);
        }
        lemma_same_decks(m, back, init, sender);
        if row.owner == sender {
            assert forall|who: Seq<char>| #[trigger]
                shared_with(back, sender, row.id)(who) == shared_with(m, sender, row.id)(who) by {
                assert(list[list.len() - 1] == row);
                assert(back.deck_recipients.contains((sender, row.id, who)) <==> m.deck_recipients.contains(
                    (sender, row.id, who),
                ));
            }
            assert(shared_with(back, sender, row.id) =~= shared_with(m, sender, row.id));
        }
    }
}

/// A recipient who leaves a sender by one choice, and comes back by the next,
/// changes nothing: while the recipient is away every deck of the sender is
/// shown without the recipient and with everyone else, and afterwards the decks
/// are shown as they were before both.
pub proof fn law_leaving_and_coming_back_restores_the_decks(
    m: StoreModel,
    recipient: Seq<char>,
    sender: Seq<char>,
    enabled: bool,
    senders: Seq<Seq<char>>,
    now: int,
    enabled_again: bool,
    senders_again: Seq<Seq<char>>,
    later: int,
)
    requires
        sound(m),
        !m.unsubscriptions.contains((recipient, sender)),
        senders.contains(sender),
        !senders_again.contains(sender),
    ensures
        ({
            let away = subscribed(m, recipient, enabled, senders, now);
            let back = subscribed(away, recipient, enabled_again, senders_again, later);
            &&& all_lack(decks_of(m, sender), decks_of(away, sender), recipient)
            &&& decks_of(back, sender) == decks_of(m, sender)
        }),
{
    let away = subscribed(m, recipient, enabled, senders, now);
    let back = subscribed(away, recipient, enabled_again, senders_again, later);
    lemma_choosing_respects(m, recipient, enabled, senders, now);
    assert forall|deck: Seq<char>, who: Seq<char>| #[trigger]
        away.deck_recipients.contains((sender, deck, who)) <==> m.deck_recipients.contains((sender, deck, who)) && who
            != recipient by {
        law_a_choice_moves_what_is_shared(m, recipient, enabled, senders, now, sender, deck, who);
    }
    law_a_choice_moves_what_is_shared(m, recipient, enabled, senders, now, sender, sender, sender);
    law_a_choice_moves_what_is_shared(away, recipient, enabled_again, senders_again, later, sender, sender, sender);
    lemma_left_decks(m, away, m.decks, sender, recipient);
    lemma_ranked_alike(decks_among(m, m.decks, sender), decks_among(away, m.decks, sender), recipient);
    assert forall|i: int, who: Seq<char>| 0 <= i < m.decks.len() && (#[trigger] m.decks[i]).owner == sender implies (
    #[trigger] back.deck_recipients.contains((sender, m.decks[i].id, who)) <==> m.deck_recipients.contains(
        (sender, m.decks[i].id, who),
    )) by {
        let deck = m.decks[i].id;
        law_a_choice_moves_what_is_shared(m, recipient, enabled, senders, now, sender, deck, who);
        law_a_choice_moves_what_is_shared(away, recipient, enabled_again, senders_again, later, sender, deck, who);
        assert(deck_at(sender, deck)(m.decks[i]));
        assert(!m.unsubscribed_decks.contains((recipient, sender, deck)));
    }
    lemma_same_decks(m, back, m.decks, sender);
}

proof fn lemma_choosing_respects(m: StoreModel, recipient: Seq<char>, enabled: bool, senders: Seq<Seq<char>>, now: int)
    requires
        sound(m),
    ensures
        respected(subscribed(m, recipient, enabled, senders, now)),
{
    lemma_all_detached(m, recipient, senders);
    let away = all_detached(m, recipient, senders);
    lemma_all_restored(away, recipient, in_order(has_left(m, recipient)), senders, now);
}

proof fn lemma_all_detached(m: StoreModel, recipient: Seq<char>, senders: Seq<Seq<char>>)
    requires
        sound(m),
    ensures
        sound(all_detached(m, recipient, senders)),
    decreases senders.len(),
{
    if senders.len() > 0 {
        lemma_all_detached(m, recipient, senders.drop_last());
        lemma_detached(all_detached(m, recipient, senders.drop_last()), recipient, senders.last());
    }
}

proof fn lemma_all_restored(m: StoreModel, recipient: Seq<char>, senders: Seq<Seq<char>>, listed: Seq<Seq<char>>, now: int)
    requires
        sound(m),
    ensures
        sound(all_restored(m, recipient, senders, listed, now)),
    decreases senders.len(),
{
    if senders.len() > 0 {
        let before = all_restored(m, recipient, senders.drop_last(), listed, now);
        lemma_all_restored(m, recipient, senders.drop_last(), listed, now);
        lemma_restored(before, recipient, senders.last(), clock_of(m, senders.last()).day_of(now) as i64);
    }
}

} // verus!
