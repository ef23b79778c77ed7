//! With whom a player shares decks, and what becomes of decks that are gone.

use vstd::prelude::*;
use crate::calendar::fits;
use crate::decks::{all_different, lemma_push_contains, lists, of_deck, of_other_deck, shared_with, shown_deck, Preference, Snapshot};
use crate::feedback::lemma_in_order;
use crate::inbox::INBOX_AGE_MS;
use crate::order::{ascending, insert_ascending, law_texts_can_be_ordered};
use crate::store::{decks_differ, has_pair, respected, sound, DeckModel, DeckRow, RowModel, Store, StoreError, StoreModel};
use crate::table::{any, append, distinct, has, kept, lemma_kept, retain, rows};
use crate::text::{same, texts};

verus! {

/// Whether a sender shares a deck with a recipient.
pub open spec fn shares(sender: Seq<char>, user: Seq<char>) -> spec_fn((Seq<char>, Seq<char>, Seq<char>)) -> bool {
    |r: (Seq<char>, Seq<char>, Seq<char>)| r.0 == sender && r.2 == user
}

/// Whether a notification announced the deck of a sender to a recipient, at
/// some time or later.
pub open spec fn announced_by(sender: Seq<char>, user: Seq<char>, since: int) -> spec_fn(RowModel) -> bool {
    |r: RowModel|
        r.recipient == user && r.kind == "completion"@ && r.sender == sender && r.sender != ""@ && r.created_at >= since
}

/// Whether a recipient knows of a sender: the sender shares a deck with the
/// recipient, has been announced lately, or has been muted.
pub open spec fn knows_sender(m: StoreModel, user: Seq<char>, sender: Seq<char>, now: int) -> bool {
    sender != user && (any(m.deck_recipients, shares(sender, user)) || any(
        m.notifications,
        announced_by(sender, user, now - INBOX_AGE_MS),
    ) || m.muted_senders.contains((user, sender)))
}

pub proof fn lemma_any_next<V>(all: Seq<V>, test: spec_fn(V) -> bool, i: int)
    requires
        0 <= i < all.len(),
    ensures
        any(all.take(i + 1), test) <==> any(all.take(i), test) || test(all[i]),
{
    let seen = all.take(i);
    let next = all.take(i + 1);
    if any(next, test) {
        let k = choose|k: int| 0 <= k < next.len() && test(#[trigger] next[k]);
        if k < i {
            assert(test(seen[k]));
        }
    }
    if any(seen, test) {
        let k = choose|k: int| 0 <= k < seen.len() && test(#[trigger] seen[k]);
        assert(test(next[k]));
    }
    if test(all[i]) {
        assert(test(next[i]));
    }
}

impl Store {
    fn sharers(&self, user: &str) -> (res: Vec<String>)
        ensures
            ascending(texts(res@)),
            forall|s: Seq<char>| #[trigger]
                texts(res@).contains(s) <==> s != user@ && any(self@.deck_recipients, shares(s, user@)),
    {
        let ghost all = self@.deck_recipients;
        let mut list: Vec<String> = Vec::new();
        assert(texts(list@) =~= Seq::<Seq<char>>::empty());
        let mut i: usize = 0;
        while i < self.deck_recipients.len()
            invariant
                all == rows(self.deck_recipients@),
                i <= self.deck_recipients@.len(),
                ascending(texts(list@)),
                forall|s: Seq<char>| #[trigger]
                    texts(list@).contains(s) <==> s != user@ && any(all.take(i as int), shares(s, user@)),
            decreases self.deck_recipients@.len() - i,
        {
            let ghost before = texts(list@);
            let row = &self.deck_recipients[i];
            let ghost shown = row@;
            if same(row.2.as_str(), user) && !same(row.0.as_str(), user) {
                assert(rows(list@) =~= before);
                insert_ascending(&mut list, row.0.clone());
                assert(rows(list@) =~= texts(list@));
            }
            proof {
                assert(all[i as int] == shown);
                assert forall|s: Seq<char>| #[trigger]
                    texts(list@).contains(s) <==> s != user@ && any(all.take(i + 1), shares(s, user@)) by {
                    assert(before.contains(s) <==> s != user@ && any(all.take(i as int), shares(s, user@)));
                    lemma_any_next(all, shares(s, user@), i as int);
                }
            }
            i = i + 1;
        }
        assert(all.take(i as int) =~= all);
        list
    }

    fn announcers(&self, user: &str, since: i64) -> (res: Vec<String>)
        ensures
            ascending(texts(res@)),
            forall|s: Seq<char>| #[trigger]
                texts(res@).contains(s) <==> s != user@ && any(
                    self@.notifications,
                    announced_by(s, user@, since as int),
                ),
    {
        let ghost all = self@.notifications;
        let mut list: Vec<String> = Vec::new();
        assert(texts(list@) =~= Seq::<Seq<char>>::empty());
        let mut i: usize = 0;
        while i < self.notifications.len()
            invariant
                all == rows(self.notifications@),
                i <= self.notifications@.len(),
                ascending(texts(list@)),
                forall|s: Seq<char>| #[trigger]
                    texts(list@).contains(s) <==> s != user@ && any(
                        all.take(i as int),
                        announced_by(s, user@, since as int),
                    ),
            decreases self.notifications@.len() - i,
        {
            let ghost before = texts(list@);
            let row = &self.notifications[i];
            let ghost shown = row@;
            if same(row.recipient.as_str(), user) && same(row.kind.as_str(), "completion") && !same(row.sender.as_str(), "")
                && !same(row.sender.as_str(), user) && row.created_at >= since {
                assert(rows(list@) =~= before);
                insert_ascending(&mut list, row.sender.clone());
                assert(rows(list@) =~= texts(list@));
            }
            proof {
                assert(all[i as int] == shown);
                assert forall|s: Seq<char>| #[trigger]
                    texts(list@).contains(s) <==> s != user@ && any(
                        all.take(i + 1),
                        announced_by(s, user@, since as int),
                    ) by {
                    assert(before.contains(s) <==> s != user@ && any(
                        all.take(i as int),
                        announced_by(s, user@, since as int),
                    ));
                    lemma_any_next(all, announced_by(s, user@, since as int), i as int);
                }
            }
            i = i + 1;
        }
        assert(all.take(i as int) =~= all);
        list
    }

    /// Return only sender identities that this recipient already knows about.
    /// Persisted mutes remain editable after a sender stops sharing or history expires.
    pub fn known_incoming_senders(&self, user: &str, now_ms: i64) -> (res: Vec<String>)
        requires
            fits(now_ms - INBOX_AGE_MS),
        ensures
            ascending(texts(res@)),
            forall|sender: Seq<char>| #[trigger]
                texts(res@).contains(sender) <==> knows_sender(self@, user@, sender, now_ms as int),
    {
        let sharing = self.sharers(user);
        let announcing = self.announcers(user, now_ms - INBOX_AGE_MS);
        let muted = crate::decks::partners(&self.muted_senders, user);
        let mut list = sharing;
        let ghost first = texts(list@);
        add_all(&mut list, &announcing);
        let ghost second = texts(list@);
        add_others(&mut list, &muted, user);
        proof {
            assert forall|sender: Seq<char>| #[trigger]
                texts(list@).contains(sender) <==> knows_sender(self@, user@, sender, now_ms as int) by {
                assert(second.contains(sender) <==> first.contains(sender) || texts(announcing@).contains(sender));
                assert(texts(muted@).contains(sender) <==> self@.muted_senders.contains((user@, sender)));
            }
        }
        list
    }
}

pub(crate) fn add_all(list: &mut Vec<String>, more: &Vec<String>)
    requires
        ascending(texts(old(list)@)),
    ensures
        ascending(texts(final(list)@)),
        forall|s: Seq<char>| #[trigger]
            texts(final(list)@).contains(s) <==> texts(old(list)@).contains(s) || texts(more@).contains(s),
{
    let ghost start = texts(list@);
    let ghost all = texts(more@);
    let mut i: usize = 0;
    while i < more.len()
        invariant
            all == texts(more@),
            i <= more@.len(),
            ascending(texts(list@)),
            forall|s: Seq<char>| #[trigger]
                texts(list@).contains(s) <==> start.contains(s) || all.take(i as int).contains(s),
        decreases more@.len() - i,
    {
        let ghost before = texts(list@);
        assert(rows(list@) =~= before);
        insert_ascending(list, more[i].clone());
        assert(rows(list@) =~= texts(list@));
        proof {
            assert(all.take(i + 1) =~= all.take(i as int).push(all[i as int]));
            assert forall|s: Seq<char>| #[trigger]
                texts(list@).contains(s) <==> start.contains(s) || all.take(i + 1).contains(s) by {
                assert(before.contains(s) <==> start.contains(s) || all.take(i as int).contains(s));
                lemma_push_contains(all.take(i as int), all[i as int], s);
            }
        }
        i = i + 1;
    }
    assert(all.take(i as int) =~= all);
}

pub(crate) fn add_others(list: &mut Vec<String>, more: &Vec<String>, user: &str)
    requires
        ascending(texts(old(list)@)),
    ensures
        ascending(texts(final(list)@)),
        forall|s: Seq<char>| #[trigger]
            texts(final(list)@).contains(s) <==> texts(old(list)@).contains(s) || (s != user@ && texts(more@).contains(s)),
{
    let ghost start = texts(list@);
    let ghost all = texts(more@);
    let mut i: usize = 0;
    while i < more.len()
        invariant
            all == texts(more@),
            i <= more@.len(),
            ascending(texts(list@)),
            forall|s: Seq<char>| #[trigger]
                texts(list@).contains(s) <==> start.contains(s) || (s != user@ && all.take(i as int).contains(s)),
        decreases more@.len() - i,
    {
        let ghost before = texts(list@);
        if !same(more[i].as_str(), user) {
            assert(rows(list@) =~= before);
            insert_ascending(list, more[i].clone());
            assert(rows(list@) =~= texts(list@));
        }
        proof {
            assert(all.take(i + 1) =~= all.take(i as int).push(all[i as int]));
            assert forall|s: Seq<char>| #[trigger]
                texts(list@).contains(s) <==> start.contains(s) || (s != user@ && all.take(i + 1).contains(s)) by {
                assert(before.contains(s) <==> start.contains(s) || (s != user@ && all.take(i as int).contains(s)));
                lemma_push_contains(all.take(i as int), all[i as int], s);
            }
        }
        i = i + 1;
    }
    assert(all.take(i as int) =~= all);
}

/// Whether two lists have the same members.
pub open spec fn same_members(a: Seq<Seq<char>>, b: Seq<Seq<char>>) -> bool {
    forall|r: Seq<char>| #[trigger] a.contains(r) <==> b.contains(r)
}

fn within(a: &[String], b: &[String]) -> (res: bool)
    ensures
        res == forall|r: Seq<char>| #[trigger] rows(a@).contains(r) ==> rows(b@).contains(r),
{
    let ghost all = rows(a@);
    let mut i: usize = 0;
    while i < a.len()
        invariant
            all == rows(a@),
            i <= a@.len(),
            forall|k: int| 0 <= k < i ==> rows(b@).contains(#[trigger] all[k]),
        decreases a@.len() - i,
    {
        if !lists(b, a[i].as_str()) {
            assert(all.contains(all[i as int]));
            return false;
        }
        i = i + 1;
    }
    proof {
        assert forall|r: Seq<char>| #[trigger] all.contains(r) implies rows(b@).contains(r) by {
            let k = choose|k: int| 0 <= k < all.len() && all[k] == r;
            assert(rows(b@).contains(all[k]));
        }
    }
    true
}

/// Whether a deck is saved as a player wants it.
pub open spec fn is_saved(m: StoreModel, user: Seq<char>, p: Preference) -> spec_fn(DeckModel) -> bool {
    |row: DeckModel|
        row.owner == user && row.id == p.id@ && shown_deck(m, row).enabled == p.enabled && shown_deck(
            m,
            row,
        ).recipients.len() == p.recipients@.len() && same_members(shown_deck(m, row).recipients, rows(p.recipients@))
}

/// Whether what a player wants of a deck is what is saved.
pub open spec fn unchanged(m: StoreModel, user: Seq<char>, p: Preference) -> bool {
    any(m.decks, is_saved(m, user, p))
}

/// Whether a selection that was taken away is of another deck.
pub open spec fn taken_otherwise(sender: Seq<char>, id: Seq<char>) -> spec_fn((Seq<char>, Seq<char>, Seq<char>)) -> bool {
    |r: (Seq<char>, Seq<char>, Seq<char>)| !(r.1 == sender && r.2 == id)
}

/// Decks with one of them switched on or off.
pub open spec fn switched(list: Seq<DeckModel>, owner: Seq<char>, id: Seq<char>, enabled: bool) -> Seq<DeckModel> {
    list.map_values(
        |d: DeckModel|
            if d.owner == owner && d.id == id {
                DeckModel { enabled, ..d }
            } else {
                d
            },
    )
}

/// Rows that share a deck with some recipients.
pub open spec fn shared_rows(owner: Seq<char>, id: Seq<char>, recipients: Seq<Seq<char>>) -> Seq<(Seq<char>, Seq<char>, Seq<char>)> {
    recipients.map_values(|r: Seq<char>| (owner, id, r))
}

/// What is stored after a player has chosen with whom a deck is shared. The
/// choice replaces what recipients could have restored.
pub open spec fn edited(m: StoreModel, user: Seq<char>, p: Preference) -> StoreModel {
    StoreModel {
        unsubscribed_decks: kept(m.unsubscribed_decks, taken_otherwise(user, p.id@)),
        decks: switched(m.decks, user, p.id@, p.enabled),
        deck_recipients: kept(m.deck_recipients, of_other_deck(user, p.id@)) + shared_rows(user, p.id@, rows(p.recipients@)),
        ..m
    }
}

/// What is stored after a player has saved some choices. Decks that are saved
/// as they were are left alone, with what recipients can restore of them.
pub open spec fn preferred(m: StoreModel, user: Seq<char>, preferences: Seq<Preference>) -> StoreModel
    decreases preferences.len(),
{
    if preferences.len() == 0 {
        m
    } else {
        let before = preferred(m, user, preferences.drop_last());
        if unchanged(m, user, preferences.last()) {
            before
        } else {
            edited(before, user, preferences.last())
        }
    }
}

/// Why a deck cannot be shared with some recipients: the first of them who has
/// unsubscribed or is named again.
pub open spec fn objection_to(m: StoreModel, user: Seq<char>, recipients: Seq<Seq<char>>) -> Option<StoreError>
    decreases recipients.len(),
{
    if recipients.len() == 0 {
        None
    } else {
        match objection_to(m, user, recipients.drop_last()) {
            Some(e) => Some(e),
            None => if m.unsubscriptions.contains((recipients.last(), user)) {
                Some(StoreError::Unsubscribed)
            } else if recipients.drop_last().contains(recipients.last()) {
                Some(StoreError::RepeatedRecipient)
            } else {
                None
            },
        }
    }
}

/// Why some choices cannot be saved.
pub open spec fn objection(m: StoreModel, user: Seq<char>, preferences: Seq<Preference>) -> Option<StoreError>
    decreases preferences.len(),
{
    if preferences.len() == 0 {
        None
    } else {
        match objection(m, user, preferences.drop_last()) {
            Some(e) => Some(e),
            None => if unchanged(m, user, preferences.last()) {
                None
            } else {
                objection_to(m, user, rows(preferences.last().recipients@))
            },
        }
    }
}

pub proof fn lemma_no_objection_to(m: StoreModel, user: Seq<char>, recipients: Seq<Seq<char>>)
    requires
        objection_to(m, user, recipients) is None,
    ensures
        all_different(recipients),
        forall|r: Seq<char>| #[trigger] recipients.contains(r) ==> !m.unsubscriptions.contains((r, user)),
    decreases recipients.len(),
{
    if recipients.len() > 0 {
        let init = recipients.drop_last();
        lemma_no_objection_to(m, user, init);
        assert(recipients =~= init.push(recipients.last()));
        assert forall|r: Seq<char>| #[trigger] recipients.contains(r) implies !m.unsubscriptions.contains((r, user)) by {
            lemma_push_contains(init, recipients.last(), r);
        }
        assert forall|i: int, j: int| 0 <= i < j < recipients.len() implies (#[trigger] recipients[i])
            != (#[trigger] recipients[j]) by {
            if j == init.len() {
                assert(init.contains(init[i]));
            } else {
                assert(init[i] != init[j]);
            }
        }
    }
}

proof fn lemma_edited(m: StoreModel, user: Seq<char>, p: Preference)
    requires
        sound(m),
        objection_to(m, user, rows(p.recipients@)) is None,
    ensures
        sound(edited(m, user, p)),
{
    let after = edited(m, user, p);
    let recipients = rows(p.recipients@);
    let others = kept(m.deck_recipients, of_other_deck(user, p.id@));
    let added = shared_rows(user, p.id@, recipients);
    lemma_no_objection_to(m, user, recipients);
    lemma_kept(m.deck_recipients, of_other_deck(user, p.id@));
    lemma_kept(m.unsubscribed_decks, taken_otherwise(user, p.id@));
    assert(distinct(after.deck_recipients)) by {
        let all = after.deck_recipients;
        assert forall|i: int, j: int| 0 <= i < j < all.len() implies all[i] != all[j] by {
            if j < others.len() {
                assert(others[i] != others[j]);
            } else if i < others.len() {
                assert(others.contains(others[i]));
                assert(of_other_deck(user, p.id@)(others[i]));
            } else {
                assert(recipients[i - others.len()] != recipients[j - others.len()]);
            }
        }
    }
    assert(decks_differ(after)) by {
        assert forall|i: int, j: int| 0 <= i < j < after.decks.len() implies (#[trigger] after.decks[i]).owner
            != (#[trigger] after.decks[j]).owner || after.decks[i].id != after.decks[j].id by {
            assert(m.decks[i].owner != m.decks[j].owner || m.decks[i].id != m.decks[j].id);
        }
    }
    assert(respected(after)) by {
        assert forall|owner: Seq<char>, deck: Seq<char>, recipient: Seq<char>| #[trigger]
            after.deck_recipients.contains((owner, deck, recipient)) implies !after.unsubscriptions.contains(
            (recipient, owner),
        ) by {
            let row = (owner, deck, recipient);
            let i = choose|i: int| 0 <= i < after.deck_recipients.len() && after.deck_recipients[i] == row;
            if i < others.len() {
                assert(others[i] == row);
                assert(others.contains(row));
                assert(m.deck_recipients.contains(row));
            } else {
                assert(added[i - others.len()] == row);
                assert(recipients[i - others.len()] == recipient);
                assert(recipients.contains(recipient));
            }
        }
        assert forall|recipient: Seq<char>, sender: Seq<char>, deck: Seq<char>| #[trigger]
            after.unsubscribed_decks.contains((recipient, sender, deck)) implies after.unsubscriptions.contains(
            (recipient, sender),
        ) by {
            assert(m.unsubscribed_decks.contains((recipient, sender, deck)));
        }
    }
}

proof fn lemma_preferred_keeps(m: StoreModel, user: Seq<char>, preferences: Seq<Preference>)
    ensures
        preferred(m, user, preferences).unsubscriptions == m.unsubscriptions,
    decreases preferences.len(),
{
    if preferences.len() > 0 {
        lemma_preferred_keeps(m, user, preferences.drop_last());
    }
}

proof fn lemma_objection_to_depends(m: StoreModel, n: StoreModel, user: Seq<char>, recipients: Seq<Seq<char>>)
    requires
        m.unsubscriptions == n.unsubscriptions,
    ensures
        objection_to(m, user, recipients) == objection_to(n, user, recipients),
    decreases recipients.len(),
{
    if recipients.len() > 0 {
        lemma_objection_to_depends(m, n, user, recipients.drop_last());
    }
}

proof fn lemma_objection_prefix(m: StoreModel, user: Seq<char>, preferences: Seq<Preference>, i: int)
    requires
        objection(m, user, preferences) is None,
        0 <= i <= preferences.len(),
    ensures
        objection(m, user, preferences.take(i)) is None,
    decreases preferences.len() - i,
{
    if i == preferences.len() {
        assert(preferences.take(i) =~= preferences);
    } else {
        lemma_objection_prefix(m, user, preferences, i + 1);
        assert(preferences.take(i + 1).drop_last() =~= preferences.take(i));
    }
}

fn switch_deck(decks: &mut Vec<DeckRow>, owner: &str, id: &str, enabled: bool)
    ensures
        rows(final(decks)@) == switched(rows(old(decks)@), owner@, id@, enabled),
{
    let ghost all = rows(decks@);
    let ghost want = switched(all, owner@, id@, enabled);
    let n: usize = decks.len();
    let mut i: usize = 0;
    while i < n
        invariant
            n == decks@.len() == all.len(),
            want == switched(all, owner@, id@, enabled),
            i <= n,
            forall|k: int| 0 <= k < i ==> (#[trigger] decks@[k])@ == want[k],
            forall|k: int| i <= k < n ==> (#[trigger] decks@[k])@ == all[k],
        decreases n - i,
    {
        assert(decks@[i as int]@ == all[i as int]);
        if same(decks[i].owner.as_str(), owner) && same(decks[i].id.as_str(), id) {
            let row = DeckRow {
                owner: decks[i].owner.clone(),
                id: decks[i].id.clone(),
                name: decks[i].name.clone(),
                enabled,
            };
            decks.set(i, row);
        }
        i = i + 1;
    }
    assert(rows(decks@) =~= want);
}

fn share_with(table: &mut Vec<(String, String, String)>, owner: &str, id: &str, recipients: &[String])
    ensures
        rows(final(table)@) == rows(old(table)@) + shared_rows(owner@, id@, rows(recipients@)),
{
    let ghost before = rows(table@);
    let ghost all = rows(recipients@);
    let mut i: usize = 0;
    assert(rows(table@) =~= before + shared_rows(owner@, id@, all.take(0)));
    while i < recipients.len()
        invariant
            all == rows(recipients@),
            i <= recipients@.len(),
            rows(table@) == before + shared_rows(owner@, id@, all.take(i as int)),
        decreases recipients@.len() - i,
    {
        append(table, (owner.to_owned(), id.to_owned(), recipients[i].clone()));
        proof {
            assert(all.take(i + 1) =~= all.take(i as int).push(all[i as int]));
            assert(rows(table@) =~= before + shared_rows(owner@, id@, all.take(i + 1)));
        }
        i = i + 1;
    }
    assert(all.take(i as int) =~= all);
}

impl Store {
    fn is_unchanged(&self, user: &str, p: &Preference) -> (res: bool)
        ensures
            res == unchanged(self@, user@, *p),
    {
        let ghost test = is_saved(self@, user@, *p);
        let saved = |row: &DeckRow| -> (b: bool)
            ensures
                b == test(row@),
        {
            if same(row.owner.as_str(), user) && same(row.id.as_str(), p.id.as_str()) {
                let deck = self.show_deck(row);
                assert(texts(deck.recipients@) =~= rows(deck.recipients@));
                deck.enabled == p.enabled && deck.recipients.len() == p.recipients.len() && within(
                    &deck.recipients,
                    &p.recipients,
                ) && within(&p.recipients, &deck.recipients)
            } else {
                false
            }
        };
        has(&self.decks, saved, Ghost(test))
    }

    fn objects_to(&self, user: &str, recipients: &[String]) -> (res: Option<StoreError>)
        ensures
            res == objection_to(self@, user@, rows(recipients@)),
    {
        let ghost all = rows(recipients@);
        let mut found: Option<StoreError> = None;
        let mut i: usize = 0;
        assert(all.take(0) =~= Seq::<Seq<char>>::empty());
        while i < recipients.len()
            invariant
                all == rows(recipients@),
                i <= recipients@.len(),
                found == objection_to(self@, user@, all.take(i as int)),
            decreases recipients@.len() - i,
        {
            proof {
                assert(all.take(i + 1).drop_last() =~= all.take(i as int));
                assert(all.take(i + 1).last() == recipients@[i as int]@);
            }
            if found.is_none() {
                if has_pair(&self.unsubscriptions, recipients[i].as_str(), user) {
                    found = Some(StoreError::Unsubscribed);
                } else if is_repeated(recipients, i) {
                    found = Some(StoreError::RepeatedRecipient);
                }
            }
            i = i + 1;
        }
        assert(all.take(i as int) =~= all);
        found
    }

    fn objects(&self, user: &str, preferences: &[Preference]) -> (res: Option<StoreError>)
        ensures
            res == objection(self@, user@, preferences@),
    {
        let mut found: Option<StoreError> = None;
        let mut i: usize = 0;
        assert(preferences@.take(0) =~= Seq::<Preference>::empty());
        while i < preferences.len()
            invariant
                i <= preferences@.len(),
                found == objection(self@, user@, preferences@.take(i as int)),
            decreases preferences@.len() - i,
        {
            proof {
                assert(preferences@.take(i + 1).drop_last() =~= preferences@.take(i as int));
            }
            if found.is_none() && !self.is_unchanged(user, &preferences[i]) {
                found = self.objects_to(user, &preferences[i].recipients);
            }
            i = i + 1;
        }
        assert(preferences@.take(i as int) =~= preferences@);
        found
    }

    fn edit_deck(&mut self, user: &str, p: &Preference)
        ensures
            final(self)@ == edited(old(self)@, user@, *p),
    {
        let ghost before = self@;
        let otherwise = |r: &(String, String, String)| -> (b: bool)
            ensures
                b == taken_otherwise(user@, p.id@)(r@),
        {
            !(same(r.1.as_str(), user) && same(r.2.as_str(), p.id.as_str()))
        };
        retain(&mut self.unsubscribed_decks, otherwise, Ghost(taken_otherwise(user@, p.id@)));
        switch_deck(&mut self.decks, user, p.id.as_str(), p.enabled);
        let other = |r: &(String, String, String)| -> (b: bool)
            ensures
                b == of_other_deck(user@, p.id@)(r@),
        {
            !(same(r.0.as_str(), user) && same(r.1.as_str(), p.id.as_str()))
        };
        retain(&mut self.deck_recipients, other, Ghost(of_other_deck(user@, p.id@)));
        share_with(&mut self.deck_recipients, user, p.id.as_str(), &p.recipients);
        assert(self@ =~= edited(before, user@, *p));
    }

    /// Save with whom a player shares decks. Clients save the whole form,
    /// untouched decks among it: those keep what recipients can restore.
    pub fn set_deck_preferences(&mut self, user: &str, preferences: &[Preference]) -> (res: Result<(), StoreError>)
        requires
            old(self).wf(),
        ensures
            match res {
                Ok(()) => objection(old(self)@, user@, preferences@) is None && final(self)@ == preferred(
                    old(self)@,
                    user@,
                    preferences@,
                ),
                Err(e) => objection(old(self)@, user@, preferences@) == Some(e) && final(self)@ == old(self)@,
            },
            final(self).wf(),
    {
        let ghost before = self@;
        if let Some(e) = self.objects(user, preferences) {
            return Err(e);
        }
        let mut changes: Vec<bool> = Vec::new();
        let mut i: usize = 0;
        while i < preferences.len()
            invariant
                i <= preferences@.len(),
                changes@.len() == i,
                self@ == before,
                forall|k: int| 0 <= k < i ==> #[trigger] changes@[k] == !unchanged(before, user@, preferences@[k]),
            decreases preferences@.len() - i,
        {
            changes.push(!self.is_unchanged(user, &preferences[i]));
            i = i + 1;
        }
        i = 0;
        assert(preferences@.take(0) =~= Seq::<Preference>::empty());
        while i < preferences.len()
            invariant
                i <= preferences@.len(),
                changes@.len() == preferences@.len(),
                forall|k: int|
                    0 <= k < changes@.len() ==> #[trigger] changes@[k] == !unchanged(before, user@, preferences@[k]),
                objection(before, user@, preferences@) is None,
                self@ == preferred(before, user@, preferences@.take(i as int)),
                self.wf(),
            decreases preferences@.len() - i,
        {
            let ghost now = self@;
            let ghost next = preferences@.take(i + 1);
            proof {
                assert(next.drop_last() =~= preferences@.take(i as int));
                assert(next.last() == preferences@[i as int]);
                lemma_objection_prefix(before, user@, preferences@, i + 1);
                lemma_preferred_keeps(before, user@, preferences@.take(i as int));
                lemma_objection_to_depends(before, now, user@, rows(preferences@[i as int].recipients@));
            }
            if changes[i] {
                proof {
                    lemma_edited(now, user@, preferences@[i as int]);
                }
                self.edit_deck(user, &preferences[i]);
            }
            i = i + 1;
        }
        assert(preferences@.take(i as int) =~= preferences@);
        Ok(())
    }
}

fn is_repeated(list: &[String], i: usize) -> (res: bool)
    requires
        i < list@.len(),
    ensures
        res == rows(list@).take(i as int).contains(list@[i as int]@),
{
    let ghost seen = rows(list@).take(i as int);
    let mut k: usize = 0;
    while k < i
        invariant
            seen == rows(list@).take(i as int),
            k <= i < list@.len(),
            forall|a: int| 0 <= a < k ==> (#[trigger] seen[a]) != list@[i as int]@,
        decreases i - k,
    {
        if same(list[k].as_str(), list[i].as_str()) {
            assert(seen[k as int] == list@[i as int]@);
            return true;
        }
        k = k + 1;
    }
    false
}

/// The names of the decks in a catalog.
pub open spec fn catalog_ids(catalog: Seq<Snapshot>) -> Seq<Seq<char>> {
    catalog.map_values(|s: Snapshot| s.id@)
}

/// Whether a deck stays when its owner reports a catalog.
pub open spec fn stays(user: Seq<char>, keep: Seq<Seq<char>>) -> spec_fn(DeckModel) -> bool {
    |d: DeckModel| !(d.owner == user && !keep.contains(d.id))
}

/// Whether a deck is some deck of a player.
pub open spec fn deck_at(owner: Seq<char>, id: Seq<char>) -> spec_fn(DeckModel) -> bool {
    |d: DeckModel| d.owner == owner && d.id == id
}

/// Whether a deck is stored and not in a catalog.
pub open spec fn is_gone(m: StoreModel, user: Seq<char>, keep: Seq<Seq<char>>, id: Seq<char>) -> bool {
    any(m.decks, deck_at(user, id)) && !keep.contains(id)
}

/// Whether a row shares something that is not gone.
pub open spec fn shares_present(m: StoreModel, user: Seq<char>, keep: Seq<Seq<char>>) -> spec_fn((Seq<char>, Seq<char>, Seq<char>)) -> bool {
    |r: (Seq<char>, Seq<char>, Seq<char>)| !(r.0 == user && is_gone(m, user, keep, r.1))
}

/// Whether a selection that was taken away is of a deck that is not gone.
pub open spec fn taken_present(m: StoreModel, user: Seq<char>, keep: Seq<Seq<char>>) -> spec_fn((Seq<char>, Seq<char>, Seq<char>)) -> bool {
    |r: (Seq<char>, Seq<char>, Seq<char>)| !(r.1 == user && is_gone(m, user, keep, r.2))
}

/// Whether a silenced deck is not gone.
pub open spec fn silent_present(m: StoreModel, user: Seq<char>, keep: Seq<Seq<char>>) -> spec_fn((Seq<char>, Seq<char>, Seq<char>, i64)) -> bool {
    |r: (Seq<char>, Seq<char>, Seq<char>, i64)| !(r.1 == user && is_gone(m, user, keep, r.2))
}

/// What is stored after a player has reported a whole catalog: decks that are
/// not in it are gone, with all that is stored of them.
pub open spec fn pruned(m: StoreModel, user: Seq<char>, keep: Seq<Seq<char>>) -> StoreModel {
    StoreModel {
        baselines: kept(m.baselines, silent_present(m, user, keep)),
        unsubscribed_decks: kept(m.unsubscribed_decks, taken_present(m, user, keep)),
        deck_recipients: kept(m.deck_recipients, shares_present(m, user, keep)),
        decks: kept(m.decks, stays(user, keep)),
        ..m
    }
}

proof fn lemma_decks_kept(list: Seq<DeckModel>, test: spec_fn(DeckModel) -> bool)
    requires
        forall|i: int, j: int|
            0 <= i < j < list.len() ==> (#[trigger] list[i]).owner != (#[trigger] list[j]).owner || list[i].id != list[j].id,
    ensures
        forall|i: int, j: int|
            0 <= i < j < kept(list, test).len() ==> (#[trigger] kept(list, test)[i]).owner != (#[trigger] kept(
                list,
                test,
            )[j]).owner || kept(list, test)[i].id != kept(list, test)[j].id,
    decreases list.len(),
{
    if list.len() > 0 {
        let init = list.drop_last();
        assert forall|i: int, j: int| 0 <= i < j < init.len() implies (#[trigger] init[i]).owner != (#[trigger] init[j]).owner
            || init[i].id != init[j].id by {
            assert(list[i].owner != list[j].owner || list[i].id != list[j].id);
        }
        lemma_decks_kept(init, test);
        lemma_kept(init, test);
        let inner = kept(init, test);
        let after = kept(list, test);
        assert forall|i: int, j: int| 0 <= i < j < after.len() implies (#[trigger] after[i]).owner
            != (#[trigger] after[j]).owner || after[i].id != after[j].id by {
            if j == inner.len() {
                assert(inner.contains(inner[i]));
                let p = choose|p: int| 0 <= p < init.len() && init[p] == inner[i];
                assert(list[p].owner != list[list.len() - 1].owner || list[p].id != list[list.len() - 1].id);
            } else {
                assert(inner[i].owner != inner[j].owner || inner[i].id != inner[j].id);
            }
        }
    }
}

proof fn lemma_pruned(m: StoreModel, user: Seq<char>, keep: Seq<Seq<char>>)
    requires
        sound(m),
    ensures
        sound(pruned(m, user, keep)),
{
    let after = pruned(m, user, keep);
    lemma_decks_kept(m.decks, stays(user, keep));
    lemma_kept(m.deck_recipients, shares_present(m, user, keep));
    lemma_kept(m.unsubscribed_decks, taken_present(m, user, keep));
    assert(respected(after)) by {
        assert forall|owner: Seq<char>, deck: Seq<char>, recipient: Seq<char>| #[trigger]
            after.deck_recipients.contains((owner, deck, recipient)) implies !after.unsubscriptions.contains(
            (recipient, owner),
        ) by {
            assert(m.deck_recipients.contains((owner, deck, recipient)));
        }
        assert forall|recipient: Seq<char>, sender: Seq<char>, deck: Seq<char>| #[trigger]
            after.unsubscribed_decks.contains((recipient, sender, deck)) implies after.unsubscriptions.contains(
            (recipient, sender),
        ) by {
            assert(m.unsubscribed_decks.contains((recipient, sender, deck)));
        }
    }
}

fn in_catalog(catalog: &[Snapshot], id: &str) -> (res: bool)
    ensures
        res == catalog_ids(catalog@).contains(id@),
{
    let ghost ids = catalog_ids(catalog@);
    let mut i: usize = 0;
    while i < catalog.len()
        invariant
            ids == catalog_ids(catalog@),
            i <= catalog@.len(),
            forall|k: int| 0 <= k < i ==> (#[trigger] ids[k]) != id@,
        decreases catalog@.len() - i,
    {
        if same(catalog[i].id.as_str(), id) {
            assert(ids[i as int] == id@);
            return true;
        }
        i = i + 1;
    }
    false
}

/// Whether a deck is stored.
pub(crate) fn has_deck(decks: &[DeckRow], owner: &str, id: &str) -> (res: bool)
    ensures
        res == any(rows(decks@), deck_at(owner@, id@)),
{
    let is_it = |d: &DeckRow| -> (b: bool)
        ensures
            b == deck_at(owner@, id@)(d@),
    {
        same(d.owner.as_str(), owner) && same(d.id.as_str(), id)
    };
    has(decks, is_it, Ghost(deck_at(owner@, id@)))
}

impl Store {
    /// A full deck list from the client replaces the stored one, so deleted decks disappear.
    pub fn prune_decks(&mut self, user: &str, catalog: &[Snapshot])
        requires
            old(self).wf(),
        ensures
            final(self)@ == pruned(old(self)@, user@, catalog_ids(catalog@)),
            final(self).wf(),
    {
        let ghost m = self@;
        let ghost keep = catalog_ids(catalog@);
        proof {
            lemma_pruned(m, user@, keep);
        }
        let decks = &self.decks;
        let ghost silent_test = silent_present(m, user@, keep);
        let silent = |r: &(String, String, String, i64)| -> (b: bool)
            ensures
                b == silent_test(r@),
        {
            !(same(r.1.as_str(), user) && has_deck(decks, user, r.2.as_str()) && !in_catalog(catalog, r.2.as_str()))
        };
        retain(&mut self.baselines, silent, Ghost(silent_test));
        let ghost taken_test = taken_present(m, user@, keep);
        let taken = |r: &(String, String, String)| -> (b: bool)
            ensures
                b == taken_test(r@),
        {
            !(same(r.1.as_str(), user) && has_deck(decks, user, r.2.as_str()) && !in_catalog(catalog, r.2.as_str()))
        };
        retain(&mut self.unsubscribed_decks, taken, Ghost(taken_test));
        let ghost shared_test = shares_present(m, user@, keep);
        let shared = |r: &(String, String, String)| -> (b: bool)
            ensures
                b == shared_test(r@),
        {
            !(same(r.0.as_str(), user) && has_deck(decks, user, r.1.as_str()) && !in_catalog(catalog, r.1.as_str()))
        };
        retain(&mut self.deck_recipients, shared, Ghost(shared_test));
        let ghost present_test = stays(user@, keep);
        let present = |d: &DeckRow| -> (b: bool)
            ensures
                b == present_test(d@),
        {
            !(same(d.owner.as_str(), user) && !in_catalog(catalog, d.id.as_str()))
        };
        retain(&mut self.decks, present, Ghost(present_test));
        assert(self@ =~= pruned(m, user@, keep));
    }
}

/// A saved choice is what is shown afterwards: an edited deck is shared with
/// exactly the chosen recipients, and with no one who has unsubscribed.
pub proof fn law_a_choice_is_saved(m: StoreModel, user: Seq<char>, p: Preference, recipient: Seq<char>)
    requires
        sound(m),
        objection(m, user, seq![p]) is None,
    ensures
        preferred(m, user, seq![p]).deck_recipients.contains((user, p.id@, recipient)) <==> rows(
            p.recipients@,
        ).contains(recipient),
        rows(p.recipients@).contains(recipient) ==> !m.unsubscriptions.contains((recipient, user)),
{
    let after = preferred(m, user, seq![p]);
    let row = (user, p.id@, recipient);
    assert(seq![p].drop_last() =~= Seq::<Preference>::empty());
    assert(preferred(m, user, Seq::<Preference>::empty()) == m);
    assert(objection(m, user, Seq::<Preference>::empty()) is None);
    if unchanged(m, user, p) {
        let test = is_saved(m, user, p);
        let i = choose|i: int| 0 <= i < m.decks.len() && test(#[trigger] m.decks[i]);
        let deck = m.decks[i];
        lemma_shown(m, deck);
        assert(shown_deck(m, deck).recipients.contains(recipient) <==> rows(p.recipients@).contains(recipient));
        if rows(p.recipients@).contains(recipient) {
            assert(m.deck_recipients.contains(row));
        }
    } else {
        let recipients = rows(p.recipients@);
        let others = kept(m.deck_recipients, of_other_deck(user, p.id@));
        let added = shared_rows(user, p.id@, recipients);
        lemma_no_objection_to(m, user, recipients);
        lemma_kept(m.deck_recipients, of_other_deck(user, p.id@));
        if after.deck_recipients.contains(row) {
            let i = choose|i: int| 0 <= i < after.deck_recipients.len() && after.deck_recipients[i] == row;
            if i < others.len() {
                assert(others.contains(others[i]));
                assert(of_other_deck(user, p.id@)(others[i]));
            } else {
                assert(added[i - others.len()] == row);
                assert(recipients[i - others.len()] == recipient);
            }
        }
        if recipients.contains(recipient) {
            let k = choose|k: int| 0 <= k < recipients.len() && recipients[k] == recipient;
            assert(added[k] == row);
            assert(after.deck_recipients[others.len() + k] == row);
        }
    }
}

proof fn lemma_shown(m: StoreModel, deck: DeckModel)
    ensures
        forall|r: Seq<char>| #[trigger]
            shown_deck(m, deck).recipients.contains(r) <==> m.deck_recipients.contains((deck.owner, deck.id, r)),
{
    let test = shared_with(m, deck.owner, deck.id);
    let rows = kept(m.deck_recipients, of_deck(deck.owner, deck.id));
    let names = rows.map_values(|r: (Seq<char>, Seq<char>, Seq<char>)| r.2);
    lemma_kept(m.deck_recipients, of_deck(deck.owner, deck.id));
    let list = law_texts_can_be_ordered(names);
    assert forall|t: Seq<char>| #[trigger] list.contains(t) <==> test(t) by {
        let row = (deck.owner, deck.id, t);
        if names.contains(t) {
            let i = choose|i: int| 0 <= i < names.len() && names[i] == t;
            assert(rows.contains(rows[i]));
            assert(of_deck(deck.owner, deck.id)(rows[i]));
            assert(rows[i] == row);
        }
        if m.deck_recipients.contains(row) {
            assert(of_deck(deck.owner, deck.id)(row));
            assert(rows.contains(row));
            let i = choose|i: int| 0 <= i < rows.len() && rows[i] == row;
            assert(names[i] == t);
        }
    }
    lemma_in_order(list, test);
}

/// Decks that are no longer there are forgotten, with whom they were shared; those
/// that are still there, and the decks of others, are kept.
pub proof fn law_missing_decks_are_forgotten(m: StoreModel, user: Seq<char>, keep: Seq<Seq<char>>, d: DeckModel, recipient: Seq<char>)
    ensures
        ({
            let after = pruned(m, user, keep);
            &&& after.decks.contains(d) <==> m.decks.contains(d) && (d.owner != user || keep.contains(d.id))
            &&& d.owner != user || keep.contains(d.id) ==> (after.deck_recipients.contains((d.owner, d.id, recipient))
                <==> m.deck_recipients.contains((d.owner, d.id, recipient)))
            &&& d.owner == user && !keep.contains(d.id) && m.decks.contains(d) ==> !after.deck_recipients.contains(
                (d.owner, d.id, recipient),
            )
        }),
{
    lemma_kept(m.decks, stays(user, keep));
    lemma_kept(m.deck_recipients, shares_present(m, user, keep));
    if m.decks.contains(d) && d.owner == user {
        let i = choose|i: int| 0 <= i < m.decks.len() && m.decks[i] == d;
        assert(deck_at(user, d.id)(m.decks[i]));
    }
}

/// A sender is known who shares a deck with a player, who was heard of within a
/// week, or who is muted; no one is a sender to themselves.
pub proof fn law_senders_are_known_by_what_they_share(m: StoreModel, user: Seq<char>, sender: Seq<char>, deck: Seq<char>, now: int)
    ensures
        !knows_sender(m, user, user, now),
        sender != user && m.deck_recipients.contains((sender, deck, user)) ==> knows_sender(m, user, sender, now),
        sender != user && m.muted_senders.contains((user, sender)) ==> knows_sender(m, user, sender, now),
        forall|i: int|
            0 <= i < m.notifications.len() && sender != user && sender != ""@ && (#[trigger] m.notifications[i]).recipient
                == user && m.notifications[i].kind == "completion"@ && m.notifications[i].sender == sender
                && m.notifications[i].created_at >= now - 604_800_000 ==> knows_sender(m, user, sender, now),
{
    if m.deck_recipients.contains((sender, deck, user)) {
        let i = choose|i: int| 0 <= i < m.deck_recipients.len() && m.deck_recipients[i] == (sender, deck, user);
        assert(shares(sender, user)(m.deck_recipients[i]));
    }
    assert forall|i: int|
        0 <= i < m.notifications.len() && sender != user && sender != ""@ && (#[trigger] m.notifications[i]).recipient
            == user && m.notifications[i].kind == "completion"@ && m.notifications[i].sender == sender
            && m.notifications[i].created_at >= now - 604_800_000 implies knows_sender(m, user, sender, now) by {
        assert(announced_by(sender, user, now - INBOX_AGE_MS)(m.notifications[i]));
    }
}

} // verus!
