//! Recording decks that are reported, and announcing those that are done.

use vstd::prelude::*;
use crate::calendar::Clock;
use crate::decks::{lists, Preference, Snapshot};
use crate::feedback::Announcement;
use crate::inbox::{noticed, wants, Outgoing, OutgoingModel};
use crate::sharing::{deck_at, preferred};
use crate::store::{respected, sound, DeckModel, DeckRow, Store, StoreModel};
use crate::table::{append, find, first, has, kept, lemma_first, lemma_kept, retain, rows, with_row};
use crate::text::{characters, joined, same, texts};

verus! {

/// A deck that is done and may be announced: its name, what was studied of it,
/// and to whom it may be announced.
#[verifier::ext_equal]
pub struct CandidateModel {
    pub name: Seq<char>,
    pub reviewed: u64,
    pub recipients: Seq<Seq<char>>,
}

pub struct Candidate {
    pub name: String,
    pub reviewed: u64,
    pub recipients: Vec<String>,
}

impl View for Candidate {
    type V = CandidateModel;

    open spec fn view(&self) -> CandidateModel {
        CandidateModel { name: self.name@, reviewed: self.reviewed, recipients: texts(self.recipients@) }
    }
}

/// Decks with the reported one among them: it gets its new name, and a deck
/// that was not known is not shared.
pub open spec fn with_reported(list: Seq<DeckModel>, owner: Seq<char>, id: Seq<char>, name: Seq<char>) -> Seq<DeckModel> {
    match first(list, deck_at(owner, id)) {
        Some(i) => list.update(i, DeckModel { name, ..list[i] }),
        None => list.push(DeckModel { owner, id, name, enabled: false }),
    }
}

/// Whether a deck is shared at all.
pub open spec fn is_shared(m: StoreModel, owner: Seq<char>, id: Seq<char>) -> bool {
    match first(m.decks, deck_at(owner, id)) {
        Some(i) => m.decks[i].enabled,
        None => false,
    }
}

/// Whether a silenced deck stays silent after a report: another day, or work
/// that is going on, ends the silence.
pub open spec fn stays_silent(owner: Seq<char>, id: Seq<char>, today: i64, working: bool) -> spec_fn(
    (Seq<char>, Seq<char>, Seq<char>, i64),
) -> bool {
    |r: (Seq<char>, Seq<char>, Seq<char>, i64)| !(r.1 == owner && r.2 == id && (r.3 != today || working))
}

/// Whether a deck is shared with someone else who is to hear of it today.
pub open spec fn hears(m: StoreModel, owner: Seq<char>, id: Seq<char>, today: i64) -> spec_fn(
    (Seq<char>, Seq<char>, Seq<char>),
) -> bool {
    |r: (Seq<char>, Seq<char>, Seq<char>)|
        r.0 == owner && r.1 == id && r.2 != owner && !m.baselines.contains((r.2, owner, id, today)) && wants(m, r.2, owner)
}

/// The last of three texts.
pub open spec fn third() -> spec_fn((Seq<char>, Seq<char>, Seq<char>)) -> Seq<char> {
    |r: (Seq<char>, Seq<char>, Seq<char>)| r.2
}

/// Who is to hear today that a deck is done.
pub open spec fn addressees(m: StoreModel, owner: Seq<char>, id: Seq<char>, today: i64) -> Seq<Seq<char>> {
    kept(m.deck_recipients, hears(m, owner, id, today)).map_values(third())
}

/// Whether something of a deck is left to do, or nothing of it was done.
pub open spec fn is_open(s: Snapshot) -> bool {
    s.remaining != 0 || s.reviewed_today == 0
}

/// What is stored when a deck is reported, whether it is done or not.
pub open spec fn reported(m: StoreModel, user: Seq<char>, s: Snapshot, today: i64) -> StoreModel {
    StoreModel {
        decks: with_reported(m.decks, user, s.id@, s.name@),
        baselines: kept(m.baselines, stays_silent(user, s.id@, today, is_open(s))),
        ..m
    }
}

/// What is stored when a deck is done.
pub open spec fn completed(m: StoreModel, user: Seq<char>, s: Snapshot, today: i64) -> StoreModel {
    StoreModel { deck_completions: with_row(m.deck_completions, (user, s.id@, today)), ..m }
}

/// What is stored after some reports, and which decks may be announced. A
/// deck that is done is noted even where it is not shared or the upload is
/// silent, so that sharing it later cannot announce the past. Reports of other
/// days are left aside.
pub open spec fn recorded(m: StoreModel, user: Seq<char>, list: Seq<Snapshot>, today: i64, silent: bool) -> (
    StoreModel,
    Seq<CandidateModel>,
)
    decreases list.len(),
{
    if list.len() == 0 {
        (m, Seq::empty())
    } else {
        let (before, candidates) = recorded(m, user, list.drop_last(), today, silent);
        let s = list.last();
        if s.day != today {
            (before, candidates)
        } else {
            let known = reported(before, user, s, today);
            if is_open(s) {
                (known, candidates)
            } else {
                let done = completed(known, user, s, today);
                if known.deck_completions.contains((user, s.id@, today)) || silent || !is_shared(done, user, s.id@) {
                    (done, candidates)
                } else {
                    (
                        done,
                        candidates.push(
                            CandidateModel {
                                name: s.name@,
                                reviewed: s.reviewed_today,
                                recipients: addressees(done, user, s.id@, today),
                            },
                        ),
                    )
                }
            }
        }
    }
}

/// Whether a separator of a deck's name begins at a place, reading on from
/// another one.
pub open spec fn separated_at(name: Seq<char>, at: int, from: int) -> bool
    decreases name.len() - from,
{
    if from < 0 || from + 2 > name.len() {
        false
    } else if name[from] == ':' && name[from + 1] == ':' {
        at == from || separated_at(name, at, from + 2)
    } else {
        separated_at(name, at, from + 1)
    }
}

/// Whether a deck lies below another one, by its name.
pub open spec fn lies_below(name: Seq<char>, parent: Seq<char>) -> bool {
    &&& parent.len() <= name.len()
    &&& name.take(parent.len() as int) == parent
    &&& separated_at(name, parent.len() as int, 0)
}

/// Whether a deck stands for one above it. The reviews of a deck count for
/// the decks above it too, so equal totals are the same work.
pub open spec fn stands_for(child: CandidateModel, parent: CandidateModel) -> bool {
    child.reviewed == parent.reviewed && lies_below(child.name, parent.name)
}

/// Whether someone hears of the same work by a deck below.
pub open spec fn hears_below(candidates: Seq<CandidateModel>, i: int, recipient: Seq<char>) -> bool {
    exists|j: int|
        0 <= j < candidates.len() && stands_for(#[trigger] candidates[j], candidates[i])
            && candidates[j].recipients.contains(recipient)
}

/// Whether someone does not hear of the same work by a deck below.
pub open spec fn hears_only(candidates: Seq<CandidateModel>, i: int) -> spec_fn(Seq<char>) -> bool {
    |r: Seq<char>| !hears_below(candidates, i, r)
}

/// To whom a deck is announced: to those who do not hear of a deck below it,
/// for the same work.
pub open spec fn deliveries(candidates: Seq<CandidateModel>, i: int) -> Seq<Seq<char>> {
    kept(candidates[i].recipients, hears_only(candidates, i))
}

/// What a player is told when a deck is done.
pub open spec fn completion_text(display: Seq<char>, name: Seq<char>) -> Seq<char> {
    display + " has finished their "@ + name + " studies for today."@
}

/// The announcement of a deck.
pub open spec fn completion(to: Seq<char>, from: Seq<char>, body: Seq<char>) -> OutgoingModel {
    OutgoingModel { to, from, title: "Deck complete"@, body, kind: "completion"@ }
}

/// What is stored after some players have been told of a deck.
pub open spec fn told(m: StoreModel, recipients: Seq<Seq<char>>, user: Seq<char>, body: Seq<char>, today: i64, now: int) -> StoreModel
    decreases recipients.len(),
{
    if recipients.len() == 0 {
        m
    } else {
        noticed(
            told(m, recipients.drop_last(), user, body, today, now),
            completion(recipients.last(), user, body),
            today as int,
            now,
            false,
        )
    }
}

/// Who announces decks: the player, as shown to others.
pub struct Announcer {
    pub user: Seq<char>,
    pub display: Seq<char>,
}

/// What is stored after the first decks have been announced, and what was
/// announced to how many.
pub open spec fn announced(
    m: StoreModel,
    candidates: Seq<CandidateModel>,
    by: Announcer,
    today: i64,
    now: int,
    n: int,
) -> (StoreModel, Seq<(Seq<char>, nat)>)
    decreases n,
{
    if n <= 0 {
        (m, Seq::empty())
    } else {
        let (before, list) = announced(m, candidates, by, today, now, n - 1);
        let recipients = deliveries(candidates, n - 1);
        let name = candidates[n - 1].name;
        if recipients.len() == 0 {
            (before, list)
        } else {
            (
                told(before, recipients, by.user, completion_text(by.display, name), today, now),
                list.push((name, recipients.len())),
            )
        }
    }
}

/// What is stored and announced when decks are reported.
pub open spec fn published(m: StoreModel, by: Announcer, list: Seq<Snapshot>, today: i64, silent: bool, now: int) -> (
    StoreModel,
    Seq<(Seq<char>, nat)>,
) {
    let (known, candidates) = recorded(m, by.user, list, today, silent);
    announced(known, candidates, by, today, now, candidates.len() as int)
}

/// What announcements say.
pub open spec fn announcement_views(list: Seq<Announcement>) -> Seq<(Seq<char>, nat)> {
    list.map_values(|a: Announcement| (a.deck@, a.recipients as nat))
}

fn is_separated_at(name: &Vec<char>, at: usize) -> (res: bool)
    ensures
        res == separated_at(name@, at as int, 0),
{
    let mut from: usize = 0;
    while from < name.len() && from + 1 < name.len()
        invariant
            from <= name@.len(),
            separated_at(name@, at as int, 0) == separated_at(name@, at as int, from as int),
        decreases name@.len() - from,
    {
        if name[from] == ':' && name[from + 1] == ':' {
            if at == from {
                return true;
            }
            from = from + 2;
        } else {
            from = from + 1;
        }
    }
    false
}

fn is_below(name: &str, parent: &str) -> (res: bool)
    ensures
        res == lies_below(name@, parent@),
{
    let n = characters(name);
    let p = characters(parent);
    if p.len() > n.len() {
        return false;
    }
    let mut i: usize = 0;
    while i < p.len()
        invariant
            n@ == name@,
            p@ == parent@,
            i <= p@.len() <= n@.len(),
            forall|k: int| 0 <= k < i ==> n@[k] == #[trigger] p@[k],
        decreases p@.len() - i,
    {
        if n[i] != p[i] {
            assert(name@.take(parent@.len() as int)[i as int] != parent@[i as int]);
            return false;
        }
        i = i + 1;
    }
    assert(name@.take(parent@.len() as int) =~= parent@);
    is_separated_at(&n, p.len())
}

fn is_heard_below(candidates: &Vec<Candidate>, i: usize, recipient: &str) -> (res: bool)
    requires
        i < candidates@.len(),
    ensures
        res == hears_below(rows(candidates@), i as int, recipient@),
{
    let ghost all = rows(candidates@);
    let mut j: usize = 0;
    while j < candidates.len()
        invariant
            all == rows(candidates@),
            i < candidates@.len(),
            j <= candidates@.len(),
            forall|k: int|
                0 <= k < j ==> !(stands_for(#[trigger] all[k], all[i as int]) && all[k].recipients.contains(recipient@)),
        decreases candidates@.len() - j,
    {
        let c = &candidates[j];
        assert(texts(c.recipients@) =~= rows(c.recipients@));
        if c.reviewed == candidates[i].reviewed && is_below(c.name.as_str(), candidates[i].name.as_str()) && lists(
            &c.recipients,
            recipient,
        ) {
            assert(stands_for(all[j as int], all[i as int]));
            return true;
        }
        j = j + 1;
    }
    false
}

fn deliveries_of(candidates: &Vec<Candidate>, i: usize) -> (res: Vec<String>)
    requires
        i < candidates@.len(),
    ensures
        texts(res@) == deliveries(rows(candidates@), i as int),
        res@.len() <= candidates@[i as int].recipients@.len(),
{
    let ghost all = rows(candidates@);
    let ghost names = all[i as int].recipients;
    let ghost test = hears_only(all, i as int);
    let list = &candidates[i].recipients;
    let mut res: Vec<String> = Vec::new();
    let mut k: usize = 0;
    assert(names.take(0) =~= Seq::<Seq<char>>::empty());
    assert(texts(res@) =~= Seq::<Seq<char>>::empty());
    while k < list.len()
        invariant
            all == rows(candidates@),
            i < candidates@.len(),
            *list == candidates@[i as int].recipients,
            names == texts(list@),
            test == hears_only(all, i as int),
            k <= list@.len(),
            res@.len() <= k,
            texts(res@) == kept(names.take(k as int), test),
        decreases list@.len() - k,
    {
        let ghost before = texts(res@);
        proof {
            assert(names.take(k + 1).drop_last() =~= names.take(k as int));
            assert(names.take(k + 1).last() == list@[k as int]@);
        }
        if !is_heard_below(candidates, i, list[k].as_str()) {
            res.push(list[k].clone());
            assert(texts(res@) =~= before.push(list@[k as int]@));
        }
        k = k + 1;
    }
    assert(names.take(k as int) =~= names);
    res
}

proof fn lemma_reported(m: StoreModel, user: Seq<char>, s: Snapshot, today: i64)
    requires
        sound(m),
    ensures
        sound(reported(m, user, s, today)),
{
    let after = reported(m, user, s, today);
    let test = deck_at(user, s.id@);
    lemma_first(m.decks, test);
    assert forall|i: int, j: int| 0 <= i < j < after.decks.len() implies (#[trigger] after.decks[i]).owner
        != (#[trigger] after.decks[j]).owner || after.decks[i].id != after.decks[j].id by {
        if j < m.decks.len() {
            assert(m.decks[i].owner != m.decks[j].owner || m.decks[i].id != m.decks[j].id);
        } else {
            assert(!test(m.decks[i]));
        }
    }
    assert(respected(after));
}

fn report_deck(decks: &mut Vec<DeckRow>, owner: &str, id: &str, name: &str)
    ensures
        rows(final(decks)@) == with_reported(rows(old(decks)@), owner@, id@, name@),
{
    let ghost before = rows(decks@);
    let is_it = |d: &DeckRow| -> (b: bool)
        ensures
            b == deck_at(owner@, id@)(d@),
    {
        same(d.owner.as_str(), owner) && same(d.id.as_str(), id)
    };
    match find(decks, is_it, Ghost(deck_at(owner@, id@))) {
        Some(i) => {
            let enabled = decks[i].enabled;
            decks.set(i, DeckRow { owner: owner.to_owned(), id: id.to_owned(), name: name.to_owned(), enabled });
            assert(rows(decks@) =~= before.update(i as int, DeckModel { name: name@, ..before[i as int] }));
        },
        None => {
            append(
                decks,
                DeckRow { owner: owner.to_owned(), id: id.to_owned(), name: name.to_owned(), enabled: false },
            );
        },
    }
}

/// Whether three texts and a day are in a table.
pub(crate) fn has_silence(
    table: &[(String, String, String, i64)],
    recipient: &str,
    sender: &str,
    id: &str,
    day: i64,
) -> (res: bool)
    ensures
        res == rows(table@).contains((recipient@, sender@, id@, day)),
{
    let ghost all = rows(table@);
    let ghost row = (recipient@, sender@, id@, day);
    let mut i: usize = 0;
    while i < table.len()
        invariant
            all == rows(table@),
            row == (recipient@, sender@, id@, day),
            i <= table@.len(),
            forall|k: int| 0 <= k < i ==> (#[trigger] all[k]) != row,
        decreases table@.len() - i,
    {
        let r = &table[i];
        if same(r.0.as_str(), recipient) && same(r.1.as_str(), sender) && same(r.2.as_str(), id) && r.3 == day {
            assert(all[i as int] == row);
            return true;
        }
        assert(all[i as int] == r@);
        i = i + 1;
    }
    false
}

fn add_completion(table: &mut Vec<(String, String, i64)>, owner: &str, id: &str, day: i64) -> (res: bool)
    ensures
        res == !rows(old(table)@).contains((owner@, id@, day)),
        rows(final(table)@) == with_row(rows(old(table)@), (owner@, id@, day)),
{
    let ghost all = rows(table@);
    let ghost row = (owner@, id@, day);
    let mut i: usize = 0;
    while i < table.len()
        invariant
            all == rows(table@),
            row == (owner@, id@, day),
            i <= table@.len(),
            forall|k: int| 0 <= k < i ==> (#[trigger] all[k]) != row,
        decreases table@.len() - i,
    {
        let r = &table[i];
        if same(r.0.as_str(), owner) && same(r.1.as_str(), id) && r.2 == day {
            assert(all[i as int] == row);
            return false;
        }
        assert(all[i as int] == r@);
        i = i + 1;
    }
    append(table, (owner.to_owned(), id.to_owned(), day));
    true
}

impl Store {
    fn shares_deck(&self, owner: &str, id: &str) -> (res: bool)
        ensures
            res == is_shared(self@, owner@, id@),
    {
        let is_it = |d: &DeckRow| -> (b: bool)
            ensures
                b == deck_at(owner@, id@)(d@),
        {
            same(d.owner.as_str(), owner) && same(d.id.as_str(), id)
        };
        match find(&self.decks, is_it, Ghost(deck_at(owner@, id@))) {
            Some(i) => self.decks[i].enabled,
            None => false,
        }
    }

    fn addressees(&self, owner: &str, id: &str, today: i64) -> (res: Vec<String>)
        ensures
            texts(res@) == addressees(self@, owner@, id@, today),
    {
        let ghost all = self@.deck_recipients;
        let ghost test = hears(self@, owner@, id@, today);
        let mut res: Vec<String> = Vec::new();
        let mut i: usize = 0;
        assert(all.take(0) =~= Seq::<(Seq<char>, Seq<char>, Seq<char>)>::empty());
        assert(texts(res@) =~= kept(all.take(0), test).map_values(third()));
        while i < self.deck_recipients.len()
            invariant
                all == rows(self.deck_recipients@),
                test == hears(self@, owner@, id@, today),
                i <= self.deck_recipients@.len(),
                texts(res@) == kept(all.take(i as int), test).map_values(third()),
            decreases self.deck_recipients@.len() - i,
        {
            let ghost before = texts(res@);
            let r = &self.deck_recipients[i];
            let ghost shown = r@;
            proof {
                assert(all.take(i + 1).drop_last() =~= all.take(i as int));
                assert(all.take(i + 1).last() == shown);
            }
            if same(r.0.as_str(), owner) && same(r.1.as_str(), id) && !same(r.2.as_str(), owner) && !has_silence(
                &self.baselines,
                r.2.as_str(),
                owner,
                id,
                today,
            ) && self.is_wanted(r.2.as_str(), owner) {
                res.push(r.2.clone());
                assert(texts(res@) =~= before.push(shown.2));
                assert(kept(all.take(i + 1), test).map_values(third()) =~= kept(all.take(i as int), test).map_values(
                    third(),
                ).push(shown.2));
            }
            i = i + 1;
        }
        assert(all.take(i as int) =~= all);
        res
    }

    fn report(&mut self, user: &str, deck: &Snapshot, today: i64)
        ensures
            final(self)@ == reported(old(self)@, user@, *deck, today),
            old(self).wf() ==> final(self).wf(),
    {
        let ghost before = self@;
        report_deck(&mut self.decks, user, deck.id.as_str(), deck.name.as_str());
        // A restored recipient may have missed reports while sharing was off.
        // Only fresh work, or a later day, ends that silence.
        let working = deck.remaining != 0 || deck.reviewed_today == 0;
        let ghost test = stays_silent(user@, deck.id@, today, working);
        let silent = |r: &(String, String, String, i64)| -> (b: bool)
            ensures
                b == test(r@),
        {
            !(same(r.1.as_str(), user) && same(r.2.as_str(), deck.id.as_str()) && (r.3 != today || working))
        };
        retain(&mut self.baselines, silent, Ghost(test));
        proof {
            assert(self@ =~= reported(before, user@, *deck, today));
            if sound(before) {
                lemma_reported(before, user@, *deck, today);
            }
        }
    }

    fn record_all(&mut self, user: &str, snapshots: &[Snapshot], today: i64, silent: bool) -> (res: Vec<Candidate>)
        requires
            old(self).wf(),
        ensures
            (final(self)@, rows(res@)) == recorded(old(self)@, user@, snapshots@, today, silent),
            final(self).wf(),
    {
        let ghost start = self@;
        let mut candidates: Vec<Candidate> = Vec::new();
        let mut i: usize = 0;
        assert(snapshots@.take(0) =~= Seq::<Snapshot>::empty());
        assert(rows(candidates@) =~= Seq::<CandidateModel>::empty());
        while i < snapshots.len()
            invariant
                i <= snapshots@.len(),
                (self@, rows(candidates@)) == recorded(start, user@, snapshots@.take(i as int), today, silent),
                self.wf(),
            decreases snapshots@.len() - i,
        {
            let deck = &snapshots[i];
            proof {
                assert(snapshots@.take(i + 1).drop_last() =~= snapshots@.take(i as int));
                assert(snapshots@.take(i + 1).last() == *deck);
            }
            // Delayed and future reports cannot rename a deck or complete today.
            if deck.day == today {
                self.report(user, deck, today);
                if deck.remaining == 0 && deck.reviewed_today != 0 {
                    let ghost known = self@;
                    let fresh = add_completion(&mut self.deck_completions, user, deck.id.as_str(), today);
                    assert(self@ =~= completed(known, user@, *deck, today));
                    if fresh && !silent && self.shares_deck(user, deck.id.as_str()) {
                        let recipients = self.addressees(user, deck.id.as_str(), today);
                        let ghost before = rows(candidates@);
                        let candidate = Candidate {
                            name: deck.name.clone(),
                            reviewed: deck.reviewed_today,
                            recipients,
                        };
                        let ghost shown = candidate@;
                        candidates.push(candidate);
                        assert(rows(candidates@) =~= before.push(shown));
                    }
                }
            }
            i = i + 1;
        }
        assert(snapshots@.take(i as int) =~= snapshots@);
        candidates
    }

    fn tell(&mut self, recipients: &Vec<String>, user: &str, body: &str, today: i64, now_ms: i64)
        requires
            old(self).wf(),
            old(self).next_id + recipients@.len() <= i64::MAX,
        ensures
            final(self)@ == told(old(self)@, texts(recipients@), user@, body@, today, now_ms as int),
            final(self).wf(),
            final(self).next_id == old(self).next_id + recipients@.len(),
    {
        let ghost start = self@;
        let ghost all = texts(recipients@);
        let mut i: usize = 0;
        assert(all.take(0) =~= Seq::<Seq<char>>::empty());
        while i < recipients.len()
            invariant
                all == texts(recipients@),
                i <= recipients@.len(),
                start.next_id + recipients@.len() <= i64::MAX,
                self.next_id == start.next_id + i,
                self@ == told(start, all.take(i as int), user@, body@, today, now_ms as int),
                self.wf(),
            decreases recipients@.len() - i,
        {
            proof {
                assert(all.take(i + 1).drop_last() =~= all.take(i as int));
                assert(all.take(i + 1).last() == recipients@[i as int]@);
            }
            let message = Outgoing {
                to: recipients[i].as_str(),
                from: user,
                title: "Deck complete",
                body,
                kind: "completion",
            };
            let _ = self.insert_notification(&message, today, now_ms, false);
            i = i + 1;
        }
        assert(all.take(i as int) =~= all);
    }

    fn announce(&mut self, candidates: &Vec<Candidate>, user: &str, display: &str, today: i64, now_ms: i64) -> (res: Vec<
        Announcement,
    >)
        requires
            old(self).wf(),
            announced(
                old(self)@,
                rows(candidates@),
                Announcer { user: user@, display: display@ },
                today,
                now_ms as int,
                candidates@.len() as int,
            ).0.next_id <= i64::MAX,
        ensures
            (final(self)@, announcement_views(res@)) == announced(
                old(self)@,
                rows(candidates@),
                Announcer { user: user@, display: display@ },
                today,
                now_ms as int,
                candidates@.len() as int,
            ),
            final(self).wf(),
    {
        let ghost start = self@;
        let ghost all = rows(candidates@);
        let ghost by = Announcer { user: user@, display: display@ };
        let mut list: Vec<Announcement> = Vec::new();
        let mut i: usize = 0;
        assert(announcement_views(list@) =~= Seq::<(Seq<char>, nat)>::empty());
        while i < candidates.len()
            invariant
                all == rows(candidates@),
                by == (Announcer { user: user@, display: display@ }),
                i <= candidates@.len(),
                announced(start, all, by, today, now_ms as int, candidates@.len() as int).0.next_id <= i64::MAX,
                (self@, announcement_views(list@)) == announced(start, all, by, today, now_ms as int, i as int),
                self.wf(),
            decreases candidates@.len() - i,
        {
            let ghost before = announcement_views(list@);
            let recipients = deliveries_of(candidates, i);
            assert(texts(recipients@).len() == recipients@.len());
            if recipients.len() > 0 {
                let name = candidates[i].name.as_str();
                let opening = joined(display, " has finished their ");
                let middle = joined(opening.as_str(), name);
                let body = joined(middle.as_str(), " studies for today.");
                assert(body@ =~= completion_text(display@, name@));
                proof {
                    lemma_telling_counts(self@, texts(recipients@), user@, body@, today, now_ms as int);
                    lemma_announcing_counts(start, all, by, today, now_ms as int, i + 1, candidates@.len() as int);
                }
                self.tell(&recipients, user, body.as_str(), today, now_ms);
                list.push(Announcement { deck: candidates[i].name.clone(), recipients: recipients.len() });
                assert(announcement_views(list@) =~= before.push((name@, recipients@.len())));
            }
            i = i + 1;
        }
        list
    }

    /// Save discovery and fan-out together. A completed baseline is consumed even
    /// when sharing is off or the upload is silent, so opt-in cannot publish history.
    pub fn record_decks(
        &mut self,
        user: &str,
        display: &str,
        snapshots: &[Snapshot],
        clock: Clock,
        silent: bool,
        now_ms: i64,
    ) -> (res: Vec<Announcement>)
        requires
            old(self).wf(),
            clock.tells_day(now_ms as int),
            published(
                old(self)@,
                Announcer { user: user@, display: display@ },
                snapshots@,
                clock.day_of(now_ms as int) as i64,
                silent,
                now_ms as int,
            ).0.next_id <= i64::MAX,
        ensures
            (final(self)@, announcement_views(res@)) == published(
                old(self)@,
                Announcer { user: user@, display: display@ },
                snapshots@,
                clock.day_of(now_ms as int) as i64,
                silent,
                now_ms as int,
            ),
            final(self).wf(),
    {
        let today: i64 = clock.day(now_ms);
        let candidates = self.record_all(user, snapshots, today, silent);
        assert(rows(candidates@).len() == candidates@.len());
        self.announce(&candidates, user, display, today, now_ms)
    }
}

proof fn lemma_telling_counts(m: StoreModel, recipients: Seq<Seq<char>>, user: Seq<char>, body: Seq<char>, today: i64, now: int)
    ensures
        told(m, recipients, user, body, today, now).next_id == m.next_id + recipients.len(),
    decreases recipients.len(),
{
    if recipients.len() > 0 {
        lemma_telling_counts(m, recipients.drop_last(), user, body, today, now);
    }
}

proof fn lemma_announcing_counts(m: StoreModel, candidates: Seq<CandidateModel>, by: Announcer, today: i64, now: int, i: int, n: int)
    requires
        i <= n,
    ensures
        announced(m, candidates, by, today, now, i).0.next_id <= announced(m, candidates, by, today, now, n).0.next_id,
    decreases n,
{
    if i < n && n > 0 {
        lemma_announcing_counts(m, candidates, by, today, now, i, n - 1);
        lemma_telling_counts(
            announced(m, candidates, by, today, now, n - 1).0,
            deliveries(candidates, n - 1),
            by.user,
            completion_text(by.display, candidates[n - 1].name),
            today,
            now,
        );
    }
}

proof fn lemma_recorded_within(m: StoreModel, user: Seq<char>, list: Seq<Snapshot>, today: i64, silent: bool)
    ensures
        recorded(m, user, list, today, silent).0.next_id == m.next_id,
        recorded(m, user, list, today, silent).0.deck_recipients == m.deck_recipients,
        recorded(m, user, list, today, silent).1.len() <= list.len(),
        forall|i: int|
            0 <= i < recorded(m, user, list, today, silent).1.len() ==> (#[trigger] recorded(
                m,
                user,
                list,
                today,
                silent,
            ).1[i]).recipients.len() <= m.deck_recipients.len(),
    decreases list.len(),
{
    if list.len() > 0 {
        let init = list.drop_last();
        let s = list.last();
        lemma_recorded_within(m, user, init, today, silent);
        let (before, candidates) = recorded(m, user, init, today, silent);
        let done = completed(reported(before, user, s, today), user, s, today);
        lemma_kept(done.deck_recipients, hears(done, user, s.id@, today));
        assert(addressees(done, user, s.id@, today).len() <= m.deck_recipients.len());
        assert forall|i: int| 0 <= i < recorded(m, user, list, today, silent).1.len() implies (#[trigger] recorded(
            m,
            user,
            list,
            today,
            silent,
        ).1[i]).recipients.len() <= m.deck_recipients.len() by {
            if i < candidates.len() {
                assert(recorded(m, user, list, today, silent).1[i] == candidates[i]);
            }
        }
    }
}

proof fn lemma_announced_within(
    m: StoreModel,
    candidates: Seq<CandidateModel>,
    by: Announcer,
    today: i64,
    now: int,
    n: int,
    most: nat,
)
    requires
        0 <= n <= candidates.len(),
        forall|i: int| 0 <= i < candidates.len() ==> (#[trigger] candidates[i]).recipients.len() <= most,
    ensures
        announced(m, candidates, by, today, now, n).0.next_id <= m.next_id + n * most,
    decreases n,
{
    if n > 0 {
        let recipients = deliveries(candidates, n - 1);
        lemma_announced_within(m, candidates, by, today, now, n - 1, most);
        lemma_kept(candidates[n - 1].recipients, hears_only(candidates, n - 1));
        lemma_telling_counts(
            announced(m, candidates, by, today, now, n - 1).0,
            recipients,
            by.user,
            completion_text(by.display, candidates[n - 1].name),
            today,
            now,
        );
        assert(n * most == (n - 1) * most + most) by (nonlinear_arith);
    } else {
        assert(0 * most == 0) by (nonlinear_arith);
    }
}

/// Reports lead to no more notifications than there are decks times those with
/// whom anything is shared.
pub proof fn law_announcements_are_bounded(m: StoreModel, by: Announcer, list: Seq<Snapshot>, today: i64, silent: bool, now: int)
    ensures
        published(m, by, list, today, silent, now).0.next_id <= m.next_id + list.len() * m.deck_recipients.len(),
{
    let (known, candidates) = recorded(m, by.user, list, today, silent);
    let most = m.deck_recipients.len();
    lemma_recorded_within(m, by.user, list, today, silent);
    lemma_announced_within(known, candidates, by, today, now, candidates.len() as int, most);
    assert(candidates.len() * most <= list.len() * most) by (nonlinear_arith)
        requires
            candidates.len() <= list.len(),
    ;
}

proof fn lemma_silent_records_nothing(m: StoreModel, user: Seq<char>, list: Seq<Snapshot>, today: i64)
    ensures
        recorded(m, user, list, today, true).1.len() == 0,
    decreases list.len(),
{
    if list.len() > 0 {
        lemma_silent_records_nothing(m, user, list.drop_last(), today);
    }
}

proof fn lemma_recording_tells_nobody(m: StoreModel, user: Seq<char>, list: Seq<Snapshot>, today: i64, silent: bool)
    ensures
        recorded(m, user, list, today, silent).0.notifications == m.notifications,
    decreases list.len(),
{
    if list.len() > 0 {
        lemma_recording_tells_nobody(m, user, list.drop_last(), today, silent);
    }
}

proof fn lemma_completions_stay(m: StoreModel, user: Seq<char>, list: Seq<Snapshot>, today: i64, silent: bool, row: (
    Seq<char>,
    Seq<char>,
    i64,
))
    ensures
        m.deck_completions.contains(row) ==> recorded(m, user, list, today, silent).0.deck_completions.contains(row),
    decreases list.len(),
{
    if list.len() > 0 {
        lemma_completions_stay(m, user, list.drop_last(), today, silent, row);
        let before = recorded(m, user, list.drop_last(), today, silent).0.deck_completions;
        crate::decks::lemma_push_contains(before, (user, list.last().id@, today), row);
    }
}

proof fn lemma_done_is_noted(m: StoreModel, user: Seq<char>, list: Seq<Snapshot>, today: i64, silent: bool, i: int)
    requires
        0 <= i < list.len(),
        list[i].day == today,
        !is_open(list[i]),
    ensures
        recorded(m, user, list, today, silent).0.deck_completions.contains((user, list[i].id@, today)),
    decreases list.len(),
{
    let row = (user, list[i].id@, today);
    let init = list.drop_last();
    let before = recorded(m, user, init, today, silent).0.deck_completions;
    if i == list.len() - 1 {
        crate::decks::lemma_push_contains(before, row, row);
    } else {
        assert(init[i] == list[i]);
        lemma_done_is_noted(m, user, init, today, silent, i);
        crate::decks::lemma_push_contains(before, (user, list.last().id@, today), row);
    }
}

proof fn lemma_noted_is_quiet(m: StoreModel, user: Seq<char>, list: Seq<Snapshot>, today: i64, silent: bool)
    requires
        forall|i: int|
            0 <= i < list.len() && (#[trigger] list[i]).day == today && !is_open(list[i]) ==> m.deck_completions.contains(
                (user, list[i].id@, today),
            ),
    ensures
        recorded(m, user, list, today, silent).1.len() == 0,
    decreases list.len(),
{
    if list.len() > 0 {
        let init = list.drop_last();
        assert forall|i: int| 0 <= i < init.len() && (#[trigger] init[i]).day == today && !is_open(
            init[i],
        ) implies m.deck_completions.contains((user, init[i].id@, today)) by {
            assert(init[i] == list[i]);
        }
        lemma_noted_is_quiet(m, user, init, today, silent);
        let s = list.last();
        assert(list[list.len() - 1] == s);
        lemma_completions_stay(m, user, init, today, silent, (user, s.id@, today));
    }
}

proof fn lemma_telling_keeps(m: StoreModel, recipients: Seq<Seq<char>>, user: Seq<char>, body: Seq<char>, today: i64, now: int)
    ensures
        told(m, recipients, user, body, today, now).deck_completions == m.deck_completions,
    decreases recipients.len(),
{
    if recipients.len() > 0 {
        lemma_telling_keeps(m, recipients.drop_last(), user, body, today, now);
    }
}

proof fn lemma_announcing_keeps(m: StoreModel, candidates: Seq<CandidateModel>, by: Announcer, today: i64, now: int, n: int)
    ensures
        announced(m, candidates, by, today, now, n).0.deck_completions == m.deck_completions,
    decreases n,
{
    if n > 0 {
        lemma_announcing_keeps(m, candidates, by, today, now, n - 1);
        let before = announced(m, candidates, by, today, now, n - 1).0;
        lemma_telling_keeps(
            before,
            deliveries(candidates, n - 1),
            by.user,
            completion_text(by.display, candidates[n - 1].name),
            today,
            now,
        );
    }
}

/// A silent upload announces nothing, and notes what is done.
pub proof fn law_silent_uploads_announce_nothing(m: StoreModel, by: Announcer, list: Seq<Snapshot>, today: i64, now: int, i: int)
    ensures
        published(m, by, list, today, true, now).1.len() == 0,
        published(m, by, list, today, true, now).0.notifications == m.notifications,
        0 <= i < list.len() && list[i].day == today && !is_open(list[i]) ==> published(
            m,
            by,
            list,
            today,
            true,
            now,
        ).0.deck_completions.contains((by.user, list[i].id@, today)),
{
    lemma_silent_records_nothing(m, by.user, list, today);
    lemma_recording_tells_nobody(m, by.user, list, today, true);
    if 0 <= i < list.len() && list[i].day == today && !is_open(list[i]) {
        lemma_done_is_noted(m, by.user, list, today, true, i);
    }
}

/// Whether every deck that is reported done on a day was reported done before.
pub open spec fn done_before(list: Seq<Snapshot>, again: Seq<Snapshot>, today: i64) -> bool {
    forall|i: int|
        0 <= i < again.len() && (#[trigger] again[i]).day == today && !is_open(again[i]) ==> exists|j: int|
            0 <= j < list.len() && (#[trigger] list[j]).day == today && !is_open(list[j]) && list[j].id@ == again[i].id@
}

/// A deck that was reported done is not announced on the same day: not when it
/// is reported again, by whichever upload, silent or not, shared or not, and
/// however what is stored was changed in between, as long as it is still noted
/// what was done. Nobody is told of it either, and no number is used up.
pub proof fn law_a_deck_is_announced_once_a_day(
    m: StoreModel,
    by: Announcer,
    list: Seq<Snapshot>,
    today: i64,
    silent: bool,
    now: int,
    between: StoreModel,
    display: Seq<char>,
    again: Seq<Snapshot>,
    silent_again: bool,
    later: int,
)
    requires
        between.deck_completions == published(m, by, list, today, silent, now).0.deck_completions,
        done_before(list, again, today),
    ensures
        ({
            let (after, news) = published(between, Announcer { user: by.user, display }, again, today, silent_again, later);
            news.len() == 0 && after.notifications == between.notifications && after.next_id == between.next_id
        }),
{
    let (known, candidates) = recorded(m, by.user, list, today, silent);
    lemma_announcing_keeps(known, candidates, by, today, now, candidates.len() as int);
    assert forall|i: int| 0 <= i < again.len() && (#[trigger] again[i]).day == today && !is_open(
        again[i],
    ) implies between.deck_completions.contains((by.user, again[i].id@, today)) by {
        let j = choose|j: int|
            0 <= j < list.len() && (#[trigger] list[j]).day == today && !is_open(list[j]) && list[j].id@ == again[i].id@;
        lemma_done_is_noted(m, by.user, list, today, silent, j);
    }
    lemma_noted_is_quiet(between, by.user, again, today, silent_again);
    lemma_recording_tells_nobody(between, by.user, again, today, silent_again);
    lemma_recorded_within(between, by.user, again, today, silent_again);
}

proof fn lemma_preferring_keeps(m: StoreModel, user: Seq<char>, preferences: Seq<Preference>)
    ensures
        preferred(m, user, preferences).deck_completions == m.deck_completions,
        preferred(m, user, preferences).notifications == m.notifications,
        preferred(m, user, preferences).next_id == m.next_id,
    decreases preferences.len(),
{
    if preferences.len() > 0 {
        lemma_preferring_keeps(m, user, preferences.drop_last());
    }
}

/// Sharing a deck after it was done announces nothing on that day: whatever its
/// owner chooses, what was reported done is not announced when it is reported
/// again, and nobody is told of it.
pub proof fn law_sharing_later_announces_nothing(
    m: StoreModel,
    by: Announcer,
    list: Seq<Snapshot>,
    today: i64,
    silent: bool,
    now: int,
    preferences: Seq<Preference>,
    silent_again: bool,
    later: int,
)
    ensures
        ({
            let before = published(m, by, list, today, silent, now).0;
            let chosen = preferred(before, by.user, preferences);
            let (after, news) = published(chosen, by, list, today, silent_again, later);
            news.len() == 0 && after.notifications == before.notifications && after.next_id == before.next_id
        }),
{
    let before = published(m, by, list, today, silent, now).0;
    let chosen = preferred(before, by.user, preferences);
    lemma_preferring_keeps(before, by.user, preferences);
    assert(done_before(list, list, today));
    law_a_deck_is_announced_once_a_day(
        m,
        by,
        list,
        today,
        silent,
        now,
        chosen,
        by.display,
        list,
        silent_again,
        later,
    );
}

/// Reports of another day change nothing and announce nothing.
pub proof fn law_other_days_are_left_aside(m: StoreModel, by: Announcer, list: Seq<Snapshot>, today: i64, silent: bool, now: int)
    requires
        forall|i: int| 0 <= i < list.len() ==> (#[trigger] list[i]).day != today,
    ensures
        published(m, by, list, today, silent, now) == (m, Seq::<(Seq<char>, nat)>::empty()),
    decreases list.len(),
{
    if list.len() > 0 {
        let init = list.drop_last();
        assert(list[list.len() - 1].day != today);
        assert forall|i: int| 0 <= i < init.len() implies (#[trigger] init[i]).day != today by {
            assert(list[i].day != today);
        }
        law_other_days_are_left_aside(m, by, init, today, silent, now);
        lemma_other_days(m, by.user, init, today, silent);
    }
}

proof fn lemma_other_days(m: StoreModel, user: Seq<char>, list: Seq<Snapshot>, today: i64, silent: bool)
    requires
        forall|i: int| 0 <= i < list.len() ==> (#[trigger] list[i]).day != today,
    ensures
        recorded(m, user, list, today, silent) == (m, Seq::<CandidateModel>::empty()),
    decreases list.len(),
{
    if list.len() > 0 {
        let init = list.drop_last();
        assert(list[list.len() - 1].day != today);
        assert forall|i: int| 0 <= i < init.len() implies (#[trigger] init[i]).day != today by {
            assert(list[i].day != today);
        }
        lemma_other_days(m, user, init, today, silent);
    }
}

/// A deck is announced only to others with whom it is shared, who want to hear
/// of its owner and for whom it is not silenced today.
pub proof fn law_announcements_respect_recipients(m: StoreModel, owner: Seq<char>, id: Seq<char>, today: i64, recipient: Seq<char>)
    ensures
        addressees(m, owner, id, today).contains(recipient) <==> m.deck_recipients.contains((owner, id, recipient))
            && recipient != owner && !m.baselines.contains((recipient, owner, id, today)) && wants(m, recipient, owner),
{
    let test = hears(m, owner, id, today);
    let row = (owner, id, recipient);
    let list = kept(m.deck_recipients, test);
    let names = addressees(m, owner, id, today);
    lemma_kept(m.deck_recipients, test);
    if names.contains(recipient) {
        let i = choose|i: int| 0 <= i < names.len() && names[i] == recipient;
        assert(list.contains(list[i]));
        assert(test(list[i]));
        assert(list[i] == row);
    }
    if m.deck_recipients.contains(row) && test(row) {
        assert(list.contains(row));
        let i = choose|i: int| 0 <= i < list.len() && list[i] == row;
        assert(names[i] == recipient);
    }
}

/// No one is told of a deck and, for the same work, of a deck below it.
pub proof fn law_same_work_is_announced_once(candidates: Seq<CandidateModel>, i: int, j: int, recipient: Seq<char>)
    requires
        0 <= i < candidates.len(),
        0 <= j < candidates.len(),
        stands_for(candidates[j], candidates[i]),
        deliveries(candidates, j).contains(recipient),
    ensures
        !deliveries(candidates, i).contains(recipient),
{
    lemma_kept(candidates[j].recipients, hears_only(candidates, j));
    lemma_kept(candidates[i].recipients, hears_only(candidates, i));
    assert(candidates[j].recipients.contains(recipient));
    assert(hears_below(candidates, i, recipient));
    assert(!hears_only(candidates, i)(recipient));
}

/// Whoever may hear of a deck is told of it, or of a deck whose name begins
/// with its name, for the same work.
pub proof fn law_everyone_is_told_of_the_work(candidates: Seq<CandidateModel>, i: int, recipient: Seq<char>, longest: nat) -> (k: int)
    requires
        0 <= i < candidates.len(),
        candidates[i].recipients.contains(recipient),
        forall|j: int| 0 <= j < candidates.len() ==> (#[trigger] candidates[j]).name.len() <= longest,
    ensures
        0 <= k < candidates.len(),
        deliveries(candidates, k).contains(recipient),
        candidates[k].reviewed == candidates[i].reviewed,
        candidates[i].name.len() <= candidates[k].name.len(),
        candidates[k].name.take(candidates[i].name.len() as int) == candidates[i].name,
    decreases longest - candidates[i].name.len(),
{
    lemma_kept(candidates[i].recipients, hears_only(candidates, i));
    if hears_below(candidates, i, recipient) {
        let j = choose|j: int|
            0 <= j < candidates.len() && stands_for(#[trigger] candidates[j], candidates[i])
                && candidates[j].recipients.contains(recipient);
        lemma_separated_within(candidates[j].name, candidates[i].name.len() as int, 0);
        let k = law_everyone_is_told_of_the_work(candidates, j, recipient, longest);
        let n = candidates[i].name.len() as int;
        assert(candidates[k].name.take(n) =~= candidates[k].name.take(candidates[j].name.len() as int).take(n));
        k
    } else {
        assert(hears_only(candidates, i)(recipient));
        assert(candidates[i].name.take(candidates[i].name.len() as int) =~= candidates[i].name);
        i
    }
}

proof fn lemma_separated_within(name: Seq<char>, at: int, from: int)
    requires
        separated_at(name, at, from),
        0 <= from,
    ensures
        from <= at,
        at + 2 <= name.len(),
    decreases name.len() - from,
{
    if name[from] == ':' && name[from + 1] == ':' {
        if at != from {
            lemma_separated_within(name, at, from + 2);
        }
    } else {
        lemma_separated_within(name, at, from + 1);
    }
}

/// Whether two stores hold the same reviews, clocks and choices.
pub open spec fn study_alike(a: StoreModel, b: StoreModel) -> bool {
    &&& a.reviews == b.reviews
    &&& a.clocks == b.clocks
    &&& a.player_settings == b.player_settings
    &&& a.incoming_settings == b.incoming_settings
    &&& a.muted_senders == b.muted_senders
    &&& a.unsubscriptions == b.unsubscriptions
    &&& a.languages == b.languages
    &&& a.seen == b.seen
}

proof fn lemma_told_alike(m: StoreModel, recipients: Seq<Seq<char>>, user: Seq<char>, body: Seq<char>, today: i64, now: int)
    ensures
        study_alike(told(m, recipients, user, body, today, now), m),
    decreases recipients.len(),
{
    if recipients.len() > 0 {
        lemma_told_alike(m, recipients.drop_last(), user, body, today, now);
    }
}

proof fn lemma_announced_alike(m: StoreModel, candidates: Seq<CandidateModel>, by: Announcer, today: i64, now: int, n: int)
    ensures
        study_alike(announced(m, candidates, by, today, now, n).0, m),
    decreases n,
{
    if n > 0 {
        lemma_announced_alike(m, candidates, by, today, now, n - 1);
        let before = announced(m, candidates, by, today, now, n - 1).0;
        lemma_told_alike(
            before,
            deliveries(candidates, n - 1),
            by.user,
            completion_text(by.display, candidates[n - 1].name),
            today,
            now,
        );
    }
}

proof fn lemma_recorded_alike(m: StoreModel, user: Seq<char>, list: Seq<Snapshot>, today: i64, silent: bool)
    ensures
        study_alike(recorded(m, user, list, today, silent).0, m),
    decreases list.len(),
{
    if list.len() > 0 {
        lemma_recorded_alike(m, user, list.drop_last(), today, silent);
    }
}

/// Announcing decks leaves the reviews, the clocks and what everyone has chosen as
/// they are.
pub proof fn law_announcing_leaves_the_study_alone(
    m: StoreModel,
    by: Announcer,
    list: Seq<Snapshot>,
    today: i64,
    silent: bool,
    now: int,
)
    ensures
        study_alike(published(m, by, list, today, silent, now).0, m),
{
    let (known, candidates) = recorded(m, by.user, list, today, silent);
    lemma_recorded_alike(m, by.user, list, today, silent);
    lemma_announced_alike(known, candidates, by, today, now, candidates.len() as int);
}

} // verus!
