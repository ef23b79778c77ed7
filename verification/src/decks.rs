//! Decks, with whom they are shared, and what is announced when they are done.

use vstd::prelude::*;
use crate::calendar::Clock;
use crate::order::{ascending, comes_before, insert_ascending, precedes};
use crate::ranking::{in_rank, law_ranked_lists_are_in_order, place, ranked};
use crate::feedback::{in_order, lemma_in_order};
use crate::inbox::{change_rows, changed_where, refuses, wants, Change};
use crate::store::{has_pair, DeckModel, DeckRow, NoticeRow, RowModel, Store, StoreError, StoreModel};
use crate::table::{any, append, find_key, has, kept, law_put_is_found, lemma_kept, put, put_for, retain, rows};
use crate::text::{characters, control, is_control, same, texts, trim, trimmed};

pub use crate::feedback::Announcement;

verus! {

/// How many decks a player may have.
pub const MAX_DECKS: usize = 2000;

/// With how many others a deck may be shared.
pub const MAX_RECIPIENTS: usize = 100;

/// How long a message may be, in bytes.
pub const MAX_MESSAGE: usize = 200;

/// What a client reports of a deck.
#[derive(Clone, Debug)]
pub struct Snapshot {
    pub id: String,
    pub name: String,
    /// The cards that are left for the day.
    pub remaining: u64,
    pub reviewed_today: u64,
    pub day: i64,
}

/// What a player wants of a deck.
#[derive(Clone, Debug)]
pub struct Preference {
    pub id: String,
    pub enabled: bool,
    pub recipients: Vec<String>,
}

/// A change of what a player wants.
#[derive(Clone, Debug)]
pub struct SettingsUpdate {
    pub decks: Vec<Preference>,
    /// Left out by clients that predate nudges, which then keep their setting.
    pub nudges: Option<bool>,
}

/// Preferences owned by the recipient, independent of what senders choose to share.
#[derive(Clone, Debug)]
pub struct IncomingSettings {
    pub enabled: bool,
    pub muted_senders: Vec<String>,
}

/// A deck as its owner sees it.
#[derive(Clone, Debug)]
pub struct Deck {
    pub id: String,
    pub name: String,
    pub enabled: bool,
    pub recipients: Vec<String>,
}

/// Someone with whom a deck can be shared.
#[derive(Clone, Debug)]
pub struct Recipient {
    pub user: String,
    pub display: String,
}

/// The decks of a player, and with whom they can be shared.
#[derive(Clone, Debug)]
pub struct Settings {
    pub decks: Vec<Deck>,
    pub recipients: Vec<Recipient>,
    pub nudges: bool,
}

/// Whether a text says something, is short enough in bytes, and holds no
/// control codes.
pub open spec fn is_valid_text(value: Seq<char>, max: int) -> bool {
    &&& trimmed(value).len() > 0
    &&& vstd::utf8::encode_utf8(value).len() <= max
    &&& forall|i: int| 0 <= i < value.len() ==> !is_control(#[trigger] value[i])
}

/// Whether a text can be used as a name.
pub fn valid_text(value: &str, max: usize) -> (res: bool)
    ensures
        res == is_valid_text(value@, max as int),
{
    let v = characters(value);
    let mut i: usize = 0;
    while i < v.len()
        invariant
            v@ == value@,
            i <= v@.len(),
            forall|k: int| 0 <= k < i ==> !is_control(#[trigger] value@[k]),
        decreases v@.len() - i,
    {
        if control(v[i]) {
            assert(is_control(value@[i as int]));
            return false;
        }
        i = i + 1;
    }
    let inner = trim(value);
    let bytes = value.as_bytes();
    inner.as_str().unicode_len() > 0 && bytes.len() <= max
}

/// Whether a text can be sent as a message.
pub fn valid_message(message: &str) -> (res: bool)
    ensures
        res == is_valid_text(message@, MAX_MESSAGE as int),
{
    valid_text(message, MAX_MESSAGE)
}

/// Whether no text occurs twice.
pub open spec fn all_different(list: Seq<Seq<char>>) -> bool {
    forall|i: int, j: int| 0 <= i < j < list.len() ==> (#[trigger] list[i]) != (#[trigger] list[j])
}

/// Whether a text is another one.
pub open spec fn is_text(text: Seq<char>) -> spec_fn(Seq<char>) -> bool {
    |t: Seq<char>| t == text
}

/// Whether a text is in a list.
pub fn lists(list: &[String], text: &str) -> (res: bool)
    ensures
        res == rows(list@).contains(text@),
        res == any(rows(list@), is_text(text@)),
{
    let is_it = |t: &String| -> (b: bool)
        ensures
            b == (t@ == text@),
    {
        same(t.as_str(), text)
    };
    let res = has(list, is_it, Ghost(is_text(text@)));
    proof {
        let all = rows(list@);
        if any(all, is_text(text@)) {
            let i = choose|i: int| 0 <= i < all.len() && is_text(text@)(#[trigger] all[i]);
            assert(all[i] == text@);
        }
        if all.contains(text@) {
            let i = choose|i: int| 0 <= i < all.len() && all[i] == text@;
            assert(is_text(text@)(all[i]));
        }
    }
    res
}

fn differ(list: &[String]) -> (res: bool)
    ensures
        res == all_different(rows(list@)),
{
    let ghost all = rows(list@);
    let mut i: usize = 0;
    while i < list.len()
        invariant
            all == rows(list@),
            i <= list@.len(),
            forall|a: int, b: int| 0 <= a < b < i ==> (#[trigger] all[a]) != (#[trigger] all[b]),
        decreases list@.len() - i,
    {
        let mut k: usize = 0;
        while k < i
            invariant
                all == rows(list@),
                k <= i < list@.len(),
                forall|a: int| 0 <= a < k ==> (#[trigger] all[a]) != all[i as int],
            decreases i - k,
        {
            if same(list[k].as_str(), list[i].as_str()) {
                assert(all[k as int] == all[i as int]);
                return false;
            }
            k = k + 1;
        }
        i = i + 1;
    }
    true
}

/// Whether the settings of a recipient name at most a hundred senders, each
/// of them properly and once.
pub open spec fn is_valid_incoming(senders: Seq<Seq<char>>) -> bool {
    &&& senders.len() <= MAX_RECIPIENTS
    &&& forall|i: int| 0 <= i < senders.len() ==> is_valid_text(#[trigger] senders[i], 128)
    &&& all_different(senders)
}

fn valid_senders(senders: &[String]) -> (res: bool)
    ensures
        res == is_valid_incoming(rows(senders@)),
{
    if senders.len() > MAX_RECIPIENTS {
        return false;
    }
    let ghost all = rows(senders@);
    let mut i: usize = 0;
    while i < senders.len()
        invariant
            all == rows(senders@),
            i <= senders@.len(),
            forall|k: int| 0 <= k < i ==> is_valid_text(#[trigger] all[k], 128),
        decreases senders@.len() - i,
    {
        if !valid_text(senders[i].as_str(), 128) {
            assert(!is_valid_text(all[i as int], 128));
            return false;
        }
        i = i + 1;
    }
    differ(senders)
}

/// Whether the settings of a recipient are well formed.
pub fn valid_incoming_settings(settings: &IncomingSettings) -> (res: bool)
    ensures
        res == is_valid_incoming(rows(settings.muted_senders@)),
{
    valid_senders(&settings.muted_senders)
}

/// Whether a clock lies within a day of UTC and turns over at an hour of the
/// day.
pub fn valid_clock(clock: Clock) -> (res: bool)
    ensures
        res == (-1440 <= clock.offset_west_min <= 1440 && 0 <= clock.rollover_hour <= 23),
{
    -1440 <= clock.offset_west_min && clock.offset_west_min <= 1440 && 0 <= clock.rollover_hour && clock.rollover_hour
        <= 23
}

/// The names of the decks that are reported.
pub open spec fn snapshot_ids(snapshots: Seq<Snapshot>) -> Seq<Seq<char>> {
    snapshots.map_values(|s: Snapshot| s.id@)
}

/// Whether a report of a deck is well formed.
pub open spec fn is_valid_snapshot(s: Snapshot) -> bool {
    &&& is_valid_text(s.id@, 128)
    &&& is_valid_text(s.name@, 512)
    &&& s.remaining <= i64::MAX
    &&& s.reviewed_today <= i64::MAX
}

/// Whether reports of decks are well formed: not too many, each of them, and
/// no deck twice.
pub open spec fn are_valid_snapshots(snapshots: Seq<Snapshot>) -> bool {
    &&& snapshots.len() <= MAX_DECKS
    &&& forall|i: int| 0 <= i < snapshots.len() ==> is_valid_snapshot(#[trigger] snapshots[i])
    &&& all_different(snapshot_ids(snapshots))
}

/// Whether reports of decks are well formed.
pub fn valid_snapshots(snapshots: &[Snapshot]) -> (res: bool)
    ensures
        res == are_valid_snapshots(snapshots@),
{
    if snapshots.len() > MAX_DECKS {
        return false;
    }
    let ghost ids = snapshot_ids(snapshots@);
    let mut i: usize = 0;
    while i < snapshots.len()
        invariant
            ids == snapshot_ids(snapshots@),
            i <= snapshots@.len() <= MAX_DECKS,
            forall|k: int| 0 <= k < i ==> is_valid_snapshot(#[trigger] snapshots@[k]),
            forall|a: int, b: int| 0 <= a < b < i ==> (#[trigger] ids[a]) != (#[trigger] ids[b]),
        decreases snapshots@.len() - i,
    {
        let deck = &snapshots[i];
        if !valid_text(deck.id.as_str(), 128) || !valid_text(deck.name.as_str(), 512) || deck.remaining
            > 0x7fff_ffff_ffff_ffff || deck.reviewed_today > 0x7fff_ffff_ffff_ffff {
            assert(!is_valid_snapshot(snapshots@[i as int]));
            return false;
        }
        let mut k: usize = 0;
        while k < i
            invariant
                ids == snapshot_ids(snapshots@),
                k <= i < snapshots@.len(),
                *deck == snapshots@[i as int],
                forall|a: int| 0 <= a < k ==> (#[trigger] ids[a]) != ids[i as int],
            decreases i - k,
        {
            if same(snapshots[k].id.as_str(), deck.id.as_str()) {
                assert(ids[k as int] == ids[i as int]);
                return false;
            }
            k = k + 1;
        }
        i = i + 1;
    }
    true
}

/// The names of the decks in some preferences.
pub open spec fn preference_ids(preferences: Seq<Preference>) -> Seq<Seq<char>> {
    preferences.map_values(|p: Preference| p.id@)
}

/// The names of some decks.
pub open spec fn deck_ids(decks: Seq<Deck>) -> Seq<Seq<char>> {
    decks.map_values(|d: Deck| d.id@)
}

/// The players among some recipients.
pub open spec fn recipient_users(recipients: Seq<Recipient>) -> Seq<Seq<char>> {
    recipients.map_values(|r: Recipient| r.user@)
}

/// Whether a preference is well formed: of a known deck, shared with known
/// players, none of them twice, and with someone where it is shared at all.
pub open spec fn is_valid_preference(p: Preference, decks: Seq<Seq<char>>, users: Seq<Seq<char>>) -> bool {
    &&& is_valid_text(p.id@, 128)
    &&& decks.contains(p.id@)
    &&& p.recipients@.len() <= MAX_RECIPIENTS
    &&& all_different(rows(p.recipients@))
    &&& p.enabled ==> p.recipients@.len() > 0
    &&& forall|i: int| 0 <= i < p.recipients@.len() ==> users.contains((#[trigger] p.recipients@[i])@)
}

/// Whether preferences are well formed: not too many, each of them, and no
/// deck twice.
pub open spec fn are_valid_preferences(preferences: Seq<Preference>, decks: Seq<Seq<char>>, users: Seq<Seq<char>>) -> bool {
    &&& preferences.len() <= MAX_DECKS
    &&& forall|i: int| 0 <= i < preferences.len() ==> is_valid_preference(#[trigger] preferences[i], decks, users)
    &&& all_different(preference_ids(preferences))
}

fn knows_deck(decks: &[Deck], id: &str) -> (res: bool)
    ensures
        res == deck_ids(decks@).contains(id@),
{
    let ghost ids = deck_ids(decks@);
    let mut i: usize = 0;
    while i < decks.len()
        invariant
            ids == deck_ids(decks@),
            i <= decks@.len(),
            forall|k: int| 0 <= k < i ==> (#[trigger] ids[k]) != id@,
        decreases decks@.len() - i,
    {
        if same(decks[i].id.as_str(), id) {
            assert(ids[i as int] == id@);
            return true;
        }
        i = i + 1;
    }
    false
}

fn knows_user(recipients: &[Recipient], user: &str) -> (res: bool)
    ensures
        res == recipient_users(recipients@).contains(user@),
{
    let ghost users = recipient_users(recipients@);
    let mut i: usize = 0;
    while i < recipients.len()
        invariant
            users == recipient_users(recipients@),
            i <= recipients@.len(),
            forall|k: int| 0 <= k < i ==> (#[trigger] users[k]) != user@,
        decreases recipients@.len() - i,
    {
        if same(recipients[i].user.as_str(), user) {
            assert(users[i as int] == user@);
            return true;
        }
        i = i + 1;
    }
    false
}

fn valid_preference(p: &Preference, known_decks: &[Deck], recipients: &[Recipient]) -> (res: bool)
    ensures
        res == is_valid_preference(*p, deck_ids(known_decks@), recipient_users(recipients@)),
{
    if !valid_text(p.id.as_str(), 128) || !knows_deck(known_decks, p.id.as_str()) || p.recipients.len()
        > MAX_RECIPIENTS || !differ(&p.recipients) || (p.enabled && p.recipients.len() == 0) {
        return false;
    }
    let mut i: usize = 0;
    while i < p.recipients.len()
        invariant
            i <= p.recipients@.len(),
            forall|k: int| 0 <= k < i ==> recipient_users(recipients@).contains((#[trigger] p.recipients@[k])@),
        decreases p.recipients@.len() - i,
    {
        if !knows_user(recipients, p.recipients[i].as_str()) {
            assert(!recipient_users(recipients@).contains(p.recipients@[i as int]@));
            return false;
        }
        i = i + 1;
    }
    true
}

/// Whether preferences are well formed.
pub fn valid_preferences(preferences: &[Preference], known_decks: &[Deck], recipients: &[Recipient]) -> (res: bool)
    ensures
        res == are_valid_preferences(preferences@, deck_ids(known_decks@), recipient_users(recipients@)),
{
    if preferences.len() > MAX_DECKS {
        return false;
    }
    let ghost ids = preference_ids(preferences@);
    let ghost decks = deck_ids(known_decks@);
    let ghost users = recipient_users(recipients@);
    let mut i: usize = 0;
    while i < preferences.len()
        invariant
            ids == preference_ids(preferences@),
            decks == deck_ids(known_decks@),
            users == recipient_users(recipients@),
            i <= preferences@.len() <= MAX_DECKS,
            forall|k: int| 0 <= k < i ==> is_valid_preference(#[trigger] preferences@[k], decks, users),
            forall|a: int, b: int| 0 <= a < b < i ==> (#[trigger] ids[a]) != (#[trigger] ids[b]),
        decreases preferences@.len() - i,
    {
        let deck = &preferences[i];
        if !valid_preference(deck, known_decks, recipients) {
            assert(!is_valid_preference(preferences@[i as int], decks, users));
            return false;
        }
        let mut k: usize = 0;
        while k < i
            invariant
                ids == preference_ids(preferences@),
                k <= i < preferences@.len(),
                *deck == preferences@[i as int],
                forall|a: int| 0 <= a < k ==> (#[trigger] ids[a]) != ids[i as int],
            decreases i - k,
        {
            if same(preferences[k].id.as_str(), deck.id.as_str()) {
                assert(ids[k as int] == ids[i as int]);
                return false;
            }
            k = k + 1;
        }
        i = i + 1;
    }
    true
}

/// Whether a pair starts with a text.
pub open spec fn starts_with(a: Seq<char>) -> spec_fn((Seq<char>, Seq<char>)) -> bool {
    |r: (Seq<char>, Seq<char>)| r.0 == a
}

/// Whether a pair starts with anything else.
pub open spec fn starts_otherwise(a: Seq<char>) -> spec_fn((Seq<char>, Seq<char>)) -> bool {
    |r: (Seq<char>, Seq<char>)| r.0 != a
}

/// The second halves of the pairs that start with a text, in order.
pub fn partners(table: &[(String, String)], a: &str) -> (res: Vec<String>)
    ensures
        ascending(texts(res@)),
        forall|b: Seq<char>| #[trigger] texts(res@).contains(b) <==> rows(table@).contains((a@, b)),
{
    let ghost all = rows(table@);
    let mut list: Vec<String> = Vec::new();
    let mut i: usize = 0;
    assert(texts(list@) =~= Seq::<Seq<char>>::empty());
    while i < table.len()
        invariant
            all == rows(table@),
            i <= table@.len(),
            ascending(texts(list@)),
            forall|b: Seq<char>| #[trigger] texts(list@).contains(b) <==> all.take(i as int).contains((a@, b)),
        decreases table@.len() - i,
    {
        let ghost before = texts(list@);
        let ghost row = all[i as int];
        if same(table[i].0.as_str(), a) {
            assert(rows(list@) =~= before);
            insert_ascending(&mut list, table[i].1.clone());
            assert(rows(list@) =~= texts(list@));
        }
        proof {
            let seen = all.take(i as int);
            let next = all.take(i + 1);
            assert(next =~= seen.push(row));
            assert forall|b: Seq<char>| #[trigger] texts(list@).contains(b) <==> next.contains((a@, b)) by {
                assert(before.contains(b) <==> seen.contains((a@, b)));
                lemma_push_contains(seen, row, (a@, b));
            }
        }
        i = i + 1;
    }
    assert(all.take(i as int) =~= all);
    list
}

/// A list with one more entry holds what it held, and that entry.
pub proof fn lemma_push_contains<T>(list: Seq<T>, last: T, x: T)
    ensures
        list.push(last).contains(x) <==> list.contains(x) || x == last,
{
    let more = list.push(last);
    if more.contains(x) {
        let i = choose|i: int| 0 <= i < more.len() && more[i] == x;
        if i < list.len() {
            assert(list[i] == x);
        }
    }
    if list.contains(x) {
        let i = choose|i: int| 0 <= i < list.len() && list[i] == x;
        assert(more[i] == x);
    }
    if x == last {
        assert(more[list.len() as int] == x);
    }
}

/// Pairs with some more, each of which starts with the same text.
pub open spec fn with_pairs(table: Seq<(Seq<char>, Seq<char>)>, a: Seq<char>, more: Seq<Seq<char>>) -> Seq<(Seq<char>, Seq<char>)> {
    table + more.map_values(|b: Seq<char>| (a, b))
}

fn add_pairs(table: &mut Vec<(String, String)>, a: &str, more: &[String])
    ensures
        rows(final(table)@) == with_pairs(rows(old(table)@), a@, rows(more@)),
{
    let ghost before = rows(table@);
    let ghost pair = |b: Seq<char>| (a@, b);
    let ghost all = rows(more@);
    let mut i: usize = 0;
    assert(rows(table@) =~= before + all.take(0).map_values(pair));
    while i < more.len()
        invariant
            all == rows(more@),
            pair == (|b: Seq<char>| (a@, b)),
            i <= more@.len(),
            rows(table@) == before + all.take(i as int).map_values(pair),
        decreases more@.len() - i,
    {
        append(table, (a.to_owned(), more[i].clone()));
        proof {
            assert(all.take(i + 1) =~= all.take(i as int).push(all[i as int]));
            assert(rows(table@) =~= before + all.take(i + 1).map_values(pair));
        }
        i = i + 1;
    }
    assert(all.take(i as int) =~= all);
}

/// Whether a notification announces the deck of a sender whom its recipient
/// does not want to hear.
pub open spec fn unwanted(m: StoreModel, user: Seq<char>, enabled: bool) -> spec_fn(RowModel) -> bool {
    |r: RowModel|
        r.recipient == user && r.kind == "completion"@ && (!enabled || m.muted_senders.contains((user, r.sender)))
}

/// What is stored when a recipient chooses whom to hear: what is unwanted is
/// cancelled for good.
pub open spec fn incoming_set(m: StoreModel, user: Seq<char>, enabled: bool, muted: Seq<Seq<char>>) -> StoreModel {
    let chosen = StoreModel {
        incoming_settings: put_for(m.incoming_settings, user, enabled),
        muted_senders: with_pairs(kept(m.muted_senders, starts_otherwise(user)), user, muted),
        ..m
    };
    StoreModel {
        notifications: changed_where(m.notifications, unwanted(chosen, user, enabled), Change::CancelCompletion),
        ..chosen
    }
}

impl Store {
    /// What a recipient wants to hear.
    pub fn incoming_settings(&self, user: &str) -> (res: IncomingSettings)
        ensures
            res.enabled == !refuses(self@, user@),
            ascending(texts(res.muted_senders@)),
            forall|sender: Seq<char>| #[trigger]
                texts(res.muted_senders@).contains(sender) <==> self@.muted_senders.contains((user@, sender)),
    {
        let enabled = match find_key(&self.incoming_settings, user) {
            Some(i) => self.incoming_settings[i].1,
            None => true,
        };
        IncomingSettings { enabled, muted_senders: partners(&self.muted_senders, user) }
    }

    /// Suppression consumes existing history as well as pending pushes. Re-enabling
    /// affects future completions; it never revives announcements cancelled here.
    pub fn set_incoming_settings(&mut self, user: &str, settings: &IncomingSettings) -> (res: Result<(), StoreError>)
        ensures
            match res {
                Ok(()) => is_valid_incoming(rows(settings.muted_senders@)) && final(self)@ == incoming_set(
                    old(self)@,
                    user@,
                    settings.enabled,
                    rows(settings.muted_senders@),
                ),
                Err(e) => !is_valid_incoming(rows(settings.muted_senders@)) && e == StoreError::InvalidIncomingSettings
                    && final(self)@ == old(self)@,
            },
            old(self).wf() ==> final(self).wf(),
    {
        if !valid_incoming_settings(settings) {
            return Err(StoreError::InvalidIncomingSettings);
        }
        let ghost before = self@;
        let ghost want = incoming_set(before, user@, settings.enabled, rows(settings.muted_senders@));
        put(&mut self.incoming_settings, user, settings.enabled);
        let other = |r: &(String, String)| -> (b: bool)
            ensures
                b == (r@.0 != user@),
        {
            !same(r.0.as_str(), user)
        };
        retain(&mut self.muted_senders, other, Ghost(starts_otherwise(user@)));
        add_pairs(&mut self.muted_senders, user, &settings.muted_senders);
        let ghost chosen = self@;
        let enabled = settings.enabled;
        let muted = &self.muted_senders;
        let ghost test = unwanted(chosen, user@, enabled);
        let is_unwanted = |r: &NoticeRow| -> (b: bool)
            ensures
                b == test(r@),
        {
            same(r.recipient.as_str(), user) && same(r.kind.as_str(), "completion") && (!enabled || has_pair(
                muted,
                user,
                r.sender.as_str(),
            ))
        };
        change_rows(&mut self.notifications, is_unwanted, Ghost(test), Change::CancelCompletion);
        assert(self@ =~= want);
        Ok(())
    }
}

/// Whether a deck is shared with someone.
pub open spec fn of_deck(owner: Seq<char>, id: Seq<char>) -> spec_fn((Seq<char>, Seq<char>, Seq<char>)) -> bool {
    |r: (Seq<char>, Seq<char>, Seq<char>)| r.0 == owner && r.1 == id
}

/// Whether another deck is shared with someone.
pub open spec fn of_other_deck(owner: Seq<char>, id: Seq<char>) -> spec_fn((Seq<char>, Seq<char>, Seq<char>)) -> bool {
    |r: (Seq<char>, Seq<char>, Seq<char>)| !(r.0 == owner && r.1 == id)
}

/// With whom a deck is shared, in order.
pub fn recipients_of(table: &[(String, String, String)], owner: &str, id: &str) -> (res: Vec<String>)
    ensures
        ascending(texts(res@)),
        forall|r: Seq<char>| #[trigger] texts(res@).contains(r) <==> rows(table@).contains((owner@, id@, r)),
{
    let ghost all = rows(table@);
    let mut list: Vec<String> = Vec::new();
    let mut i: usize = 0;
    assert(texts(list@) =~= Seq::<Seq<char>>::empty());
    while i < table.len()
        invariant
            all == rows(table@),
            i <= table@.len(),
            ascending(texts(list@)),
            forall|r: Seq<char>| #[trigger] texts(list@).contains(r) <==> all.take(i as int).contains((owner@, id@, r)),
        decreases table@.len() - i,
    {
        let ghost before = texts(list@);
        let ghost row = all[i as int];
        if same(table[i].0.as_str(), owner) && same(table[i].1.as_str(), id) {
            assert(rows(list@) =~= before);
            insert_ascending(&mut list, table[i].2.clone());
            assert(rows(list@) =~= texts(list@));
        }
        proof {
            let seen = all.take(i as int);
            let next = all.take(i + 1);
            assert(next =~= seen.push(row));
            assert forall|r: Seq<char>| #[trigger] texts(list@).contains(r) <==> next.contains((owner@, id@, r)) by {
                assert(before.contains(r) <==> seen.contains((owner@, id@, r)));
                lemma_push_contains(seen, row, (owner@, id@, r));
            }
        }
        i = i + 1;
    }
    assert(all.take(i as int) =~= all);
    list
}

/// A deck as its owner sees it, as text.
#[verifier::ext_equal]
pub struct ShownDeck {
    pub id: Seq<char>,
    pub name: Seq<char>,
    pub enabled: bool,
    pub recipients: Seq<Seq<char>>,
}

impl View for Deck {
    type V = ShownDeck;

    open spec fn view(&self) -> ShownDeck {
        ShownDeck { id: self.id@, name: self.name@, enabled: self.enabled, recipients: texts(self.recipients@) }
    }
}

/// Whether a deck is shared with a recipient.
pub open spec fn shared_with(m: StoreModel, owner: Seq<char>, id: Seq<char>) -> spec_fn(Seq<char>) -> bool {
    |r: Seq<char>| m.deck_recipients.contains((owner, id, r))
}

/// A deck as its owner sees it. Without recipients sharing is shown as off, and
/// what is stored is kept, so that a recipient can restore it.
pub open spec fn shown_deck(m: StoreModel, row: DeckModel) -> ShownDeck {
    let recipients = in_order(shared_with(m, row.owner, row.id));
    ShownDeck { id: row.id, name: row.name, enabled: row.enabled && recipients.len() > 0, recipients }
}

/// Whether a deck comes before another one: by name, and then by id.
pub open spec fn deck_precedes(a: ShownDeck, b: ShownDeck) -> bool {
    precedes(a.name, b.name) || (a.name == b.name && precedes(a.id, b.id))
}

/// The order of decks.
pub open spec fn deck_order() -> spec_fn(ShownDeck, ShownDeck) -> bool {
    |a: ShownDeck, b: ShownDeck| deck_precedes(a, b)
}

/// The decks of a player among some.
pub open spec fn decks_among(m: StoreModel, list: Seq<DeckModel>, user: Seq<char>) -> Seq<ShownDeck>
    decreases list.len(),
{
    if list.len() == 0 {
        Seq::empty()
    } else if list.last().owner == user {
        decks_among(m, list.drop_last(), user).push(shown_deck(m, list.last()))
    } else {
        decks_among(m, list.drop_last(), user)
    }
}

/// The decks of a player, in the order of their names.
pub open spec fn decks_of(m: StoreModel, user: Seq<char>) -> Seq<ShownDeck> {
    ranked(decks_among(m, m.decks, user), deck_order())
}

proof fn lemma_decks_among(m: StoreModel, list: Seq<DeckModel>, user: Seq<char>)
    ensures
        forall|x: ShownDeck| #[trigger]
            decks_among(m, list, user).contains(x) ==> exists|i: int|
                0 <= i < list.len() && (#[trigger] list[i]).owner == user && shown_deck(m, list[i]) == x,
        forall|i: int|
            0 <= i < list.len() && (#[trigger] list[i]).owner == user ==> decks_among(m, list, user).contains(
                shown_deck(m, list[i]),
            ),
    decreases list.len(),
{
    if list.len() > 0 {
        let init = list.drop_last();
        let row = list.last();
        lemma_decks_among(m, init, user);
        let before = decks_among(m, init, user);
        let after = decks_among(m, list, user);
        assert forall|x: ShownDeck| #[trigger] after.contains(x) implies exists|i: int|
            0 <= i < list.len() && (#[trigger] list[i]).owner == user && shown_deck(m, list[i]) == x by {
            lemma_push_contains(before, shown_deck(m, row), x);
            if before.contains(x) {
                let k = choose|k: int|
                    0 <= k < init.len() && (#[trigger] init[k]).owner == user && shown_deck(m, init[k]) == x;
                assert(list[k].owner == user);
            } else {
                assert(list[list.len() - 1].owner == user);
            }
        }
        assert forall|i: int| 0 <= i < list.len() && (#[trigger] list[i]).owner == user implies after.contains(
            shown_deck(m, list[i]),
        ) by {
            lemma_push_contains(before, shown_deck(m, row), shown_deck(m, list[i]));
            if i < init.len() {
                assert(init[i].owner == user);
                assert(before.contains(shown_deck(m, init[i])));
            }
        }
    }
}

proof fn lemma_deck_order(a: ShownDeck, b: ShownDeck, c: ShownDeck)
    ensures
        !(deck_precedes(a, b) && deck_precedes(b, a)),
        deck_precedes(a, c) ==> deck_precedes(a, b) || deck_precedes(b, c),
{
    crate::order::lemma_precedes_total(a.name, b.name);
    crate::order::lemma_precedes_total(b.name, c.name);
    crate::order::lemma_precedes_total(a.id, b.id);
    crate::order::lemma_precedes_total(b.id, c.id);
    crate::order::lemma_precedes_total(a.name, c.name);
    crate::order::lemma_precedes_total(a.id, c.id);
    if precedes(c.name, b.name) && precedes(b.name, a.name) {
        crate::order::lemma_precedes_transitive(c.name, b.name, a.name);
    }
    if precedes(c.id, b.id) && precedes(b.id, a.id) {
        crate::order::lemma_precedes_transitive(c.id, b.id, a.id);
    }
}

/// The decks of a player come in the order of their names, and no other deck
/// does.
pub proof fn law_decks_are_listed_in_order(m: StoreModel, user: Seq<char>)
    ensures
        in_rank(decks_of(m, user), deck_order()),
        forall|x: ShownDeck| #[trigger]
            decks_of(m, user).contains(x) ==> exists|i: int|
                0 <= i < m.decks.len() && (#[trigger] m.decks[i]).owner == user && shown_deck(m, m.decks[i]) == x,
        forall|i: int|
            0 <= i < m.decks.len() && (#[trigger] m.decks[i]).owner == user ==> decks_of(m, user).contains(
                shown_deck(m, m.decks[i]),
            ),
{
    let before = deck_order();
    assert forall|a: ShownDeck, b: ShownDeck| #[trigger] before(a, b) implies !before(b, a) by {
        lemma_deck_order(a, b, a);
    }
    assert forall|a: ShownDeck, b: ShownDeck, c: ShownDeck| before(a, c) implies #[trigger] before(a, b)
        || #[trigger] before(b, c) by {
        lemma_deck_order(a, b, c);
    }
    law_ranked_lists_are_in_order(decks_among(m, m.decks, user), before);
    lemma_decks_among(m, m.decks, user);
}

fn deck_comes_before(a: &Deck, b: &Deck) -> (res: bool)
    ensures
        res == deck_precedes(a@, b@),
{
    comes_before(a.name.as_str(), b.name.as_str()) || (same(a.name.as_str(), b.name.as_str()) && comes_before(
        a.id.as_str(),
        b.id.as_str(),
    ))
}

impl Store {
    pub(crate) fn show_deck(&self, row: &DeckRow) -> (res: Deck)
        ensures
            res@ == shown_deck(self@, row@),
    {
        let recipients = recipients_of(&self.deck_recipients, row.owner.as_str(), row.id.as_str());
        proof {
            lemma_in_order(texts(recipients@), shared_with(self@, row@.owner, row@.id));
        }
        let enabled = row.enabled && recipients.len() > 0;
        Deck { id: row.id.clone(), name: row.name.clone(), enabled, recipients }
    }

    /// The decks of a player, in the order of their names.
    pub fn decks(&self, user: &str) -> (res: Vec<Deck>)
        ensures
            rows(res@) == decks_of(self@, user@),
    {
        let ghost all = self@.decks;
        let mut list: Vec<Deck> = Vec::new();
        let mut i: usize = 0;
        assert(all.take(0) =~= Seq::<DeckModel>::empty());
        assert(rows(list@) =~= Seq::<ShownDeck>::empty());
        while i < self.decks.len()
            invariant
                all == rows(self.decks@),
                i <= self.decks@.len(),
                rows(list@) == ranked(decks_among(self@, all.take(i as int), user@), deck_order()),
            decreases self.decks@.len() - i,
        {
            proof {
                assert(all.take(i + 1).drop_last() =~= all.take(i as int));
                assert(all.take(i + 1).last() == self.decks@[i as int]@);
            }
            if same(self.decks[i].owner.as_str(), user) {
                let deck = self.show_deck(&self.decks[i]);
                let earlier = |a: &Deck, b: &Deck| -> (r: bool)
                    ensures
                        r == deck_precedes(a@, b@),
                {
                    deck_comes_before(a, b)
                };
                let ghost before = decks_among(self@, all.take(i as int), user@);
                assert(before.push(deck@).drop_last() =~= before);
                place(&mut list, deck, earlier, Ghost(deck_order()));
            }
            i = i + 1;
        }
        assert(all.take(i as int) =~= all);
        list
    }
}

/// What a recipient has chosen to hear is what is shown afterwards, and the
/// choices of others are left as they are.
pub proof fn law_incoming_choices_are_kept(
    m: StoreModel,
    user: Seq<char>,
    enabled: bool,
    muted: Seq<Seq<char>>,
    sender: Seq<char>,
    other: Seq<char>,
)
    ensures
        ({
            let after = incoming_set(m, user, enabled, muted);
            &&& refuses(after, user) == !enabled
            &&& after.muted_senders.contains((user, sender)) == muted.contains(sender)
            &&& other != user ==> {
                &&& refuses(after, other) == refuses(m, other)
                &&& after.muted_senders.contains((other, sender)) == m.muted_senders.contains((other, sender))
            }
        }),
{
    let after = incoming_set(m, user, enabled, muted).muted_senders;
    let rest = kept(m.muted_senders, starts_otherwise(user));
    let more = muted.map_values(|b: Seq<char>| (user, b));
    law_put_is_found(m.incoming_settings, user, enabled, other);
    lemma_kept(m.muted_senders, starts_otherwise(user));
    if muted.contains(sender) {
        let k = choose|k: int| 0 <= k < muted.len() && muted[k] == sender;
        assert(after[rest.len() + k] == (user, sender));
    }
    if after.contains((user, sender)) {
        let k = choose|k: int| 0 <= k < after.len() && after[k] == (user, sender);
        if k < rest.len() {
            assert(rest[k] == (user, sender));
            assert(rest.contains((user, sender)));
        } else {
            assert(more[k - rest.len()] == (user, sender));
            assert(muted[k - rest.len()] == sender);
        }
    }
    if other != user {
        if after.contains((other, sender)) {
            let k = choose|k: int| 0 <= k < after.len() && after[k] == (other, sender);
            if k < rest.len() {
                assert(rest[k] == (other, sender));
                assert(rest.contains((other, sender)));
            } else {
                assert(more[k - rest.len()].0 == user);
            }
        }
        if m.muted_senders.contains((other, sender)) {
            assert(rest.contains((other, sender)));
            let k = choose|k: int| 0 <= k < rest.len() && rest[k] == (other, sender);
            assert(after[k] == (other, sender));
        }
    }
}

/// Whoever refuses announcements, or mutes a sender, is no longer told what waits of
/// them; everything else that waits is left as it was.
pub proof fn law_unwanted_announcements_are_cancelled(
    m: StoreModel,
    user: Seq<char>,
    enabled: bool,
    muted: Seq<Seq<char>>,
    i: int,
)
    requires
        0 <= i < m.notifications.len(),
    ensures
        ({
            let row = m.notifications[i];
            let after = incoming_set(m, user, enabled, muted).notifications[i];
            if row.recipient == user && row.kind == "completion"@ && (!enabled || muted.contains(row.sender)) {
                after.push_cancelled && after.completion_cancelled && after == (RowModel {
                    push_cancelled: true,
                    completion_cancelled: true,
                    ..row
                })
            } else {
                after == row
            }
        }),
{
    law_incoming_choices_are_kept(m, user, enabled, muted, m.notifications[i].sender, user);
}

/// A deck is shown as shared only where it is switched on and someone receives it.
pub proof fn law_decks_without_recipients_are_not_shared(m: StoreModel, row: DeckModel)
    ensures
        shown_deck(m, row).id == row.id,
        shown_deck(m, row).name == row.name,
        !row.enabled || shown_deck(m, row).recipients.len() == 0 ==> !shown_deck(m, row).enabled,
        row.enabled && shown_deck(m, row).recipients.len() > 0 ==> shown_deck(m, row).enabled,
{
}

} // verus!
