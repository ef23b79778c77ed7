//! What is stored: reviews, clocks, decks and their sharing, notifications and
//! preferences, as plain tables. Keeping them on disk is left to the caller.

use vstd::prelude::*;
use crate::calendar::Clock;
use crate::order::{ascending, insert_ascending};
use crate::quests::Review;
use crate::table::{any, append, distinct, find_key, has, kept, keyed, lemma_first, lemma_kept, put, put_for, retain, rows, value_for};
use crate::text::{same, texts};

verus! {

/// Why something could not be stored.
#[derive(Clone, Copy, Debug, PartialEq, Eq, Structural)]
pub enum StoreError {
    /// There is no notification of that number.
    NoNotification,
    /// The settings of a recipient are not well formed.
    InvalidIncomingSettings,
    /// The subscriptions of a recipient are not well formed.
    InvalidSubscriptions,
    /// A recipient is named twice.
    RepeatedRecipient,
    /// A recipient has unsubscribed.
    Unsubscribed,
}

/// A notification as it is stored, in text and numbers.
pub struct RowModel {
    pub id: int,
    pub recipient: Seq<char>,
    pub sender: Seq<char>,
    pub title: Seq<char>,
    pub body: Seq<char>,
    pub day: int,
    pub created_at: int,
    pub kind: Seq<char>,
    pub pushed: bool,
    pub push_only: bool,
    pub retry_at: int,
    pub push_attempts: nat,
    pub push_cancelled: bool,
    pub completion_cancelled: bool,
    pub replied: bool,
    pub read_at: Option<int>,
    pub challenge_id: Option<int>,
}

/// A notification as it is stored.
#[derive(Clone, Debug)]
pub struct NoticeRow {
    pub id: i64,
    pub recipient: String,
    /// Who this is about, and so who a reply goes to. Empty for older rows.
    pub sender: String,
    pub title: String,
    pub body: String,
    pub day: i64,
    /// In milliseconds.
    pub created_at: i64,
    pub kind: String,
    /// Whether the push service has confirmed it.
    pub pushed: bool,
    /// Whether it is left out of the inbox.
    pub push_only: bool,
    /// When a push may be tried next.
    pub retry_at: i64,
    pub push_attempts: u32,
    pub push_cancelled: bool,
    pub completion_cancelled: bool,
    pub replied: bool,
    pub read_at: Option<i64>,
    pub challenge_id: Option<i64>,
}

pub open spec fn opt_int(o: Option<i64>) -> Option<int> {
    match o {
        Some(v) => Some(v as int),
        None => None,
    }
}

impl View for NoticeRow {
    type V = RowModel;

    open spec fn view(&self) -> RowModel {
        RowModel {
            id: self.id as int,
            recipient: self.recipient@,
            sender: self.sender@,
            title: self.title@,
            body: self.body@,
            day: self.day as int,
            created_at: self.created_at as int,
            kind: self.kind@,
            pushed: self.pushed,
            push_only: self.push_only,
            retry_at: self.retry_at as int,
            push_attempts: self.push_attempts as nat,
            push_cancelled: self.push_cancelled,
            completion_cancelled: self.completion_cancelled,
            replied: self.replied,
            read_at: opt_int(self.read_at),
            challenge_id: opt_int(self.challenge_id),
        }
    }
}

/// A deck as it is stored, as text.
pub struct DeckModel {
    pub owner: Seq<char>,
    pub id: Seq<char>,
    pub name: Seq<char>,
    pub enabled: bool,
}

/// A deck as it is stored.
#[derive(Clone, Debug)]
pub struct DeckRow {
    pub owner: String,
    pub id: String,
    pub name: String,
    pub enabled: bool,
}

impl View for DeckRow {
    type V = DeckModel;

    open spec fn view(&self) -> DeckModel {
        DeckModel { owner: self.owner@, id: self.id@, name: self.name@, enabled: self.enabled }
    }
}

/// An invitation to a challenge, in text and numbers.
pub struct InvitationModel {
    pub challenge: int,
    pub user: Seq<char>,
    pub open: bool,
    pub cancelled: bool,
    pub end_at: int,
}

/// An invitation to a challenge: whether it has not been answered yet, and
/// whether the challenge was called off.
#[derive(Clone, Debug)]
pub struct Invitation {
    pub challenge: i64,
    pub user: String,
    pub open: bool,
    pub cancelled: bool,
    pub end_at: i64,
}

impl View for Invitation {
    type V = InvitationModel;

    open spec fn view(&self) -> InvitationModel {
        InvitationModel {
            challenge: self.challenge as int,
            user: self.user@,
            open: self.open,
            cancelled: self.cancelled,
            end_at: self.end_at as int,
        }
    }
}

/// Everything that is stored, as text and numbers.
#[verifier::ext_equal]
pub struct StoreModel {
    pub reviews: Seq<(Seq<char>, Seq<Review>)>,
    pub clocks: Seq<(Seq<char>, Clock)>,
    /// What a player has been told before: the player and a key.
    pub seen: Seq<(Seq<char>, Seq<char>)>,
    pub languages: Seq<(Seq<char>, Seq<char>)>,
    pub decks: Seq<DeckModel>,
    /// With whom a deck is shared: the owner, the deck and the recipient.
    pub deck_recipients: Seq<(Seq<char>, Seq<char>, Seq<char>)>,
    /// On which days a deck was finished: the owner, the deck and the day.
    pub deck_completions: Seq<(Seq<char>, Seq<char>, i64)>,
    pub notifications: Seq<RowModel>,
    pub next_id: int,
    /// Who wants nudges.
    pub player_settings: Seq<(Seq<char>, bool)>,
    /// Who wants announcements of others.
    pub incoming_settings: Seq<(Seq<char>, bool)>,
    /// Whom a recipient has muted: the recipient and the sender.
    pub muted_senders: Seq<(Seq<char>, Seq<char>)>,
    /// From whom a recipient has unsubscribed: the recipient and the sender.
    pub unsubscriptions: Seq<(Seq<char>, Seq<char>)>,
    /// Which decks that took away: the recipient, the sender and the deck.
    pub unsubscribed_decks: Seq<(Seq<char>, Seq<char>, Seq<char>)>,
    /// From which day on a restored deck is silent: the recipient, the sender,
    /// the deck and the day.
    pub baselines: Seq<(Seq<char>, Seq<char>, Seq<char>, i64)>,
    pub invitations: Seq<InvitationModel>,
}

/// Everything that is stored.
pub struct Store {
    pub reviews: Vec<(String, Vec<Review>)>,
    pub clocks: Vec<(String, Clock)>,
    pub seen: Vec<(String, String)>,
    pub languages: Vec<(String, String)>,
    pub decks: Vec<DeckRow>,
    pub deck_recipients: Vec<(String, String, String)>,
    pub deck_completions: Vec<(String, String, i64)>,
    pub notifications: Vec<NoticeRow>,
    pub next_id: i64,
    pub player_settings: Vec<(String, bool)>,
    pub incoming_settings: Vec<(String, bool)>,
    pub muted_senders: Vec<(String, String)>,
    pub unsubscriptions: Vec<(String, String)>,
    pub unsubscribed_decks: Vec<(String, String, String)>,
    pub baselines: Vec<(String, String, String, i64)>,
    pub invitations: Vec<Invitation>,
}

impl View for Store {
    type V = StoreModel;

    open spec fn view(&self) -> StoreModel {
        StoreModel {
            reviews: rows(self.reviews@),
            clocks: rows(self.clocks@),
            seen: rows(self.seen@),
            languages: rows(self.languages@),
            decks: rows(self.decks@),
            deck_recipients: rows(self.deck_recipients@),
            deck_completions: rows(self.deck_completions@),
            notifications: rows(self.notifications@),
            next_id: self.next_id as int,
            player_settings: rows(self.player_settings@),
            incoming_settings: rows(self.incoming_settings@),
            muted_senders: rows(self.muted_senders@),
            unsubscriptions: rows(self.unsubscriptions@),
            unsubscribed_decks: rows(self.unsubscribed_decks@),
            baselines: rows(self.baselines@),
            invitations: rows(self.invitations@),
        }
    }
}

/// Nothing is stored.
pub open spec fn empty_store() -> StoreModel {
    StoreModel {
        reviews: Seq::empty(),
        clocks: Seq::empty(),
        seen: Seq::empty(),
        languages: Seq::empty(),
        decks: Seq::empty(),
        deck_recipients: Seq::empty(),
        deck_completions: Seq::empty(),
        notifications: Seq::empty(),
        next_id: 1,
        player_settings: Seq::empty(),
        incoming_settings: Seq::empty(),
        muted_senders: Seq::empty(),
        unsubscriptions: Seq::empty(),
        unsubscribed_decks: Seq::empty(),
        baselines: Seq::empty(),
        invitations: Seq::empty(),
    }
}

/// Whether reviews stand in the order of time, none of them twice.
pub open spec fn in_time_order(list: Seq<Review>) -> bool {
    forall|i: int, j: int| 0 <= i < j < list.len() ==> (#[trigger] list[i]).id < (#[trigger] list[j]).id
}

/// The reviews of a player.
pub open spec fn reviews_of(m: StoreModel, user: Seq<char>) -> Seq<Review> {
    match value_for(m.reviews, user) {
        Some(list) => list,
        None => Seq::empty(),
    }
}

/// The clock of a player, or the usual one.
pub open spec fn clock_of(m: StoreModel, user: Seq<char>) -> Clock {
    match value_for(m.clocks, user) {
        Some(clock) => clock,
        None => Clock { offset_west_min: 0, rollover_hour: 4 },
    }
}

/// Reviews with one more in its place, unless there is one of the same time.
pub open spec fn with_review(list: Seq<Review>, r: Review) -> Seq<Review>
    decreases list.len(),
{
    if list.len() == 0 {
        seq![r]
    } else if list.last().id < r.id {
        list.push(r)
    } else if list.last().id == r.id {
        list
    } else {
        with_review(list.drop_last(), r).push(list.last())
    }
}

/// Reviews with some more, one after the other.
pub open spec fn with_reviews(list: Seq<Review>, more: Seq<Review>) -> Seq<Review>
    decreases more.len(),
{
    if more.len() == 0 {
        list
    } else {
        with_review(with_reviews(list, more.drop_last()), more.last())
    }
}

/// Whether a review is of another time.
pub open spec fn not_at(id: i64) -> spec_fn(Review) -> bool {
    |r: Review| r.id != id
}

/// Reviews without those of some times.
pub open spec fn without_reviews(list: Seq<Review>, deleted: Seq<i64>) -> Seq<Review>
    decreases deleted.len(),
{
    if deleted.len() == 0 {
        list
    } else {
        kept(without_reviews(list, deleted.drop_last()), not_at(deleted.last()))
    }
}

/// Whether a pair holds two texts.
pub open spec fn is_pair(a: Seq<char>, b: Seq<char>) -> spec_fn((Seq<char>, Seq<char>)) -> bool {
    |r: (Seq<char>, Seq<char>)| r.0 == a && r.1 == b
}

/// Whether a pair is in a table.
pub fn has_pair(table: &[(String, String)], a: &str, b: &str) -> (res: bool)
    ensures
        res == any(rows(table@), is_pair(a@, b@)),
        res == rows(table@).contains((a@, b@)),
{
    let is_it = |r: &(String, String)| -> (x: bool)
        ensures
            x == (r@.0 == a@ && r@.1 == b@),
    {
        same(r.0.as_str(), a) && same(r.1.as_str(), b)
    };
    let res = has(table, is_it, Ghost(is_pair(a@, b@)));
    proof {
        let all = rows(table@);
        if any(all, is_pair(a@, b@)) {
            let i = choose|i: int| 0 <= i < all.len() && is_pair(a@, b@)(#[trigger] all[i]);
            assert(all[i] == (a@, b@));
        }
        if all.contains((a@, b@)) {
            let i = choose|i: int| 0 <= i < all.len() && all[i] == (a@, b@);
            assert(is_pair(a@, b@)(all[i]));
        }
    }
    res
}

/// Add a pair to a table, unless it is there, and tell whether it was not.
pub fn add_pair(table: &mut Vec<(String, String)>, a: &str, b: &str) -> (res: bool)
    ensures
        res == !rows(old(table)@).contains((a@, b@)),
        rows(final(table)@) == crate::table::with_row(rows(old(table)@), (a@, b@)),
{
    if has_pair(table, a, b) {
        false
    } else {
        append(table, (a.to_owned(), b.to_owned()));
        true
    }
}

impl Store {
    /// An empty store.
    pub fn new() -> (res: Store)
        ensures
            res@ == empty_store(),
            res.wf(),
    {
        let res = Store {
            reviews: Vec::new(),
            clocks: Vec::new(),
            seen: Vec::new(),
            languages: Vec::new(),
            decks: Vec::new(),
            deck_recipients: Vec::new(),
            deck_completions: Vec::new(),
            notifications: Vec::new(),
            next_id: 1,
            player_settings: Vec::new(),
            incoming_settings: Vec::new(),
            muted_senders: Vec::new(),
            unsubscriptions: Vec::new(),
            unsubscribed_decks: Vec::new(),
            baselines: Vec::new(),
            invitations: Vec::new(),
        };
        assert(res@ =~= empty_store());
        res
    }

    /// The reviews of each player stand in the order of time, the notifications
    /// in the order of their numbers, and from whom a recipient has
    /// unsubscribed shares nothing with that recipient.
    pub open spec fn wf(self) -> bool {
        sound(self@)
    }
}

/// Whether the notifications stand in the order of their numbers, all of them
/// given out before.
pub open spec fn numbered(list: Seq<RowModel>, next_id: int) -> bool {
    &&& forall|i: int, j: int| 0 <= i < j < list.len() ==> (#[trigger] list[i]).id < (#[trigger] list[j]).id
    &&& forall|i: int| 0 <= i < list.len() ==> (#[trigger] list[i]).id < next_id
}

/// Whether nothing is shared with a recipient who has unsubscribed, and
/// everything that was taken away was taken away from such a recipient.
pub open spec fn respected(m: StoreModel) -> bool {
    &&& forall|owner: Seq<char>, deck: Seq<char>, recipient: Seq<char>| #[trigger]
        m.deck_recipients.contains((owner, deck, recipient)) ==> !m.unsubscriptions.contains((recipient, owner))
    &&& forall|recipient: Seq<char>, sender: Seq<char>, deck: Seq<char>| #[trigger]
        m.unsubscribed_decks.contains((recipient, sender, deck)) ==> m.unsubscriptions.contains((recipient, sender))
}

/// Whether no deck is stored twice, nor shared twice with the same recipient.
pub open spec fn decks_differ(m: StoreModel) -> bool {
    &&& forall|i: int, j: int|
        0 <= i < j < m.decks.len() ==> (#[trigger] m.decks[i]).owner != (#[trigger] m.decks[j]).owner || m.decks[i].id
            != m.decks[j].id
    &&& distinct(m.deck_recipients)
}

/// What always holds of what is stored.
pub open spec fn sound(m: StoreModel) -> bool {
    &&& decks_differ(m)
    &&& forall|i: int| 0 <= i < m.reviews.len() ==> in_time_order((#[trigger] m.reviews[i]).1)
    &&& numbered(m.notifications, m.next_id)
    &&& respected(m)
}

/// A new review takes its place, and the order of time is kept.
pub proof fn lemma_with_review(list: Seq<Review>, r: Review)
    requires
        in_time_order(list),
    ensures
        in_time_order(with_review(list, r)),
        forall|x: Review| #[trigger] with_review(list, r).contains(x) ==> list.contains(x) || x == r,
        forall|x: Review| #[trigger] list.contains(x) ==> with_review(list, r).contains(x),
        exists|i: int| 0 <= i < with_review(list, r).len() && #[trigger] with_review(list, r)[i].id == r.id,
    decreases list.len(),
{
    let after = with_review(list, r);
    if list.len() == 0 {
        assert(after[0].id == r.id);
    } else if list.last().id < r.id {
        assert(after[list.len() as int].id == r.id);
        assert forall|i: int, j: int| 0 <= i < j < after.len() implies (#[trigger] after[i]).id < (#[trigger] after[j]).id by {
            if j == list.len() && i < list.len() - 1 {
                assert(list[i].id < list[list.len() - 1].id);
            }
        }
        assert forall|x: Review| #[trigger] list.contains(x) implies after.contains(x) by {
            let i = choose|i: int| 0 <= i < list.len() && list[i] == x;
            assert(after[i] == x);
        }
        assert forall|x: Review| #[trigger] after.contains(x) implies list.contains(x) || x == r by {
            let i = choose|i: int| 0 <= i < after.len() && after[i] == x;
            if i < list.len() {
                assert(list[i] == x);
            }
        }
    } else if list.last().id == r.id {
        assert(after[list.len() - 1].id == r.id);
    } else {
        let init = list.drop_last();
        let inner = with_review(init, r);
        assert forall|i: int, j: int| 0 <= i < j < init.len() implies (#[trigger] init[i]).id < (#[trigger] init[j]).id by {
            assert(list[i].id < list[j].id);
        }
        lemma_with_review(init, r);
        let k = choose|k: int| 0 <= k < inner.len() && #[trigger] inner[k].id == r.id;
        assert(after[k].id == r.id);
        assert forall|i: int, j: int| 0 <= i < j < after.len() implies (#[trigger] after[i]).id < (#[trigger] after[j]).id by {
            if j == inner.len() {
                assert(inner.contains(inner[i]));
                if inner[i] != r {
                    assert(init.contains(inner[i]));
                    let p = choose|p: int| 0 <= p < init.len() && init[p] == inner[i];
                    assert(list[p].id < list[list.len() - 1].id);
                }
            }
        }
        assert forall|x: Review| #[trigger] list.contains(x) implies after.contains(x) by {
            let i = choose|i: int| 0 <= i < list.len() && list[i] == x;
            if i < init.len() {
                assert(init[i] == x);
                assert(init.contains(x));
                assert(inner.contains(x));
                let p = choose|p: int| 0 <= p < inner.len() && inner[p] == x;
                assert(after[p] == x);
            } else {
                assert(after[inner.len() as int] == x);
            }
        }
        assert forall|x: Review| #[trigger] after.contains(x) implies list.contains(x) || x == r by {
            let i = choose|i: int| 0 <= i < after.len() && after[i] == x;
            if i < inner.len() {
                assert(inner[i] == x);
                assert(inner.contains(x));
                if x != r {
                    let p = choose|p: int| 0 <= p < init.len() && init[p] == x;
                    assert(list[p] == x);
                }
            } else {
                assert(list[list.len() - 1] == x);
            }
        }
    }
}

proof fn lemma_kept_in_time_order(list: Seq<Review>, test: spec_fn(Review) -> bool)
    requires
        in_time_order(list),
    ensures
        in_time_order(kept(list, test)),
    decreases list.len(),
{
    if list.len() > 0 {
        let init = list.drop_last();
        assert forall|i: int, j: int| 0 <= i < j < init.len() implies (#[trigger] init[i]).id < (#[trigger] init[j]).id by {
            assert(list[i].id < list[j].id);
        }
        lemma_kept_in_time_order(init, test);
        lemma_kept(init, test);
        let k = kept(list, test);
        assert forall|i: int, j: int| 0 <= i < j < k.len() implies (#[trigger] k[i]).id < (#[trigger] k[j]).id by {
            if j == kept(init, test).len() {
                assert(kept(init, test).contains(k[i]));
                let p = choose|p: int| 0 <= p < init.len() && init[p] == k[i];
                assert(list[p].id < list[list.len() - 1].id);
            }
        }
    }
}

pub(crate) fn add_review(list: &mut Vec<Review>, r: Review)
    requires
        in_time_order(old(list)@),
    ensures
        final(list)@ == with_review(old(list)@, r),
        in_time_order(final(list)@),
{
    let ghost all = list@;
    proof {
        lemma_with_review(all, r);
    }
    let mut i: usize = list.len();
    assert(all.take(i as int) =~= all);
    assert(with_review(all, r) =~= with_review(all.take(i as int), r) + all.skip(i as int));
    while i > 0 && list[i - 1].id > r.id
        invariant
            list@ == all,
            i <= all.len(),
            with_review(all, r) == with_review(all.take(i as int), r) + all.skip(i as int),
        decreases i,
    {
        proof {
            let front = all.take(i as int);
            assert(front.drop_last() =~= all.take(i - 1));
            assert(with_review(front, r) == with_review(all.take(i - 1), r).push(all[i - 1]));
            assert(with_review(all.take(i - 1), r).push(all[i - 1]) + all.skip(i as int) =~= with_review(
                all.take(i - 1),
                r,
            ) + all.skip(i - 1));
        }
        i = i - 1;
    }
    if i > 0 && list[i - 1].id == r.id {
        assert(all.take(i as int) + all.skip(i as int) =~= all);
        return;
    }
    list.insert(i, r);
    proof {
        let front = all.take(i as int);
        if i > 0 {
            assert(front.last() == all[i - 1]);
        }
        assert(with_review(front, r) =~= front.push(r));
        assert(list@ =~= front.push(r) + all.skip(i as int));
    }
}

fn add_reviews(list: &mut Vec<Review>, more: &[Review])
    requires
        in_time_order(old(list)@),
    ensures
        final(list)@ == with_reviews(old(list)@, more@),
        in_time_order(final(list)@),
{
    let ghost all = list@;
    let mut i: usize = 0;
    assert(more@.take(0) =~= Seq::<Review>::empty());
    while i < more.len()
        invariant
            i <= more@.len(),
            in_time_order(list@),
            list@ == with_reviews(all, more@.take(i as int)),
        decreases more@.len() - i,
    {
        proof {
            assert(more@.take(i + 1).drop_last() =~= more@.take(i as int));
        }
        add_review(list, more[i]);
        i = i + 1;
    }
    assert(more@.take(i as int) =~= more@);
}

fn remove_reviews(list: &mut Vec<Review>, deleted: &[i64])
    requires
        in_time_order(old(list)@),
    ensures
        final(list)@ == without_reviews(old(list)@, deleted@),
        in_time_order(final(list)@),
{
    let ghost all = list@;
    let mut i: usize = 0;
    assert(deleted@.take(0) =~= Seq::<i64>::empty());
    while i < deleted.len()
        invariant
            i <= deleted@.len(),
            in_time_order(list@),
            list@ == without_reviews(all, deleted@.take(i as int)),
        decreases deleted@.len() - i,
    {
        let id: i64 = deleted[i];
        let ghost before = list@;
        proof {
            assert(deleted@.take(i + 1).drop_last() =~= deleted@.take(i as int));
            lemma_kept_in_time_order(before, not_at(id));
            assert(rows(before) =~= before);
        }
        let other = |r: &Review| -> (b: bool)
            ensures
                b == (r.id != id),
        {
            r.id != id
        };
        retain(list, other, Ghost(not_at(id)));
        assert(rows(list@) =~= list@);
        i = i + 1;
    }
    assert(deleted@.take(i as int) =~= deleted@);
}

/// What an upload of reviews does to what is stored: new reviews are added,
/// known ones are left as they are, deleted ones are taken out, and the clock
/// is set.
pub open spec fn upserted(m: StoreModel, user: Seq<char>, reviews: Seq<Review>, deleted: Seq<i64>, clock: Clock) -> StoreModel {
    StoreModel {
        reviews: put_for(m.reviews, user, without_reviews(with_reviews(reviews_of(m, user), reviews), deleted)),
        clocks: put_for(m.clocks, user, clock),
        ..m
    }
}

impl Store {
    /// The players whose clock is known, in order.
    pub fn users(&self) -> (res: Vec<String>)
        ensures
            ascending(texts(res@)),
            forall|user: Seq<char>| #[trigger] texts(res@).contains(user) <==> value_for(self@.clocks, user) is Some,
    {
        let mut list: Vec<String> = Vec::new();
        let mut i: usize = 0;
        let ghost all = self@.clocks;
        assert(texts(list@) =~= Seq::<Seq<char>>::empty());
        while i < self.clocks.len()
            invariant
                all == rows(self.clocks@),
                i <= self.clocks@.len(),
                ascending(texts(list@)),
                forall|user: Seq<char>| #[trigger]
                    texts(list@).contains(user) <==> any(all.take(i as int), keyed(user)),
            decreases self.clocks@.len() - i,
        {
            let ghost before = texts(list@);
            assert(rows(list@) =~= before);
            insert_ascending(&mut list, self.clocks[i].0.clone());
            proof {
                assert(rows(list@) =~= texts(list@));
                let seen = all.take(i as int);
                let next = all.take(i + 1);
                assert forall|user: Seq<char>| #[trigger] texts(list@).contains(user) <==> any(next, keyed(user)) by {
                    let test = keyed::<Clock>(user);
                    assert(before.contains(user) <==> any(seen, test));
                    if any(seen, test) {
                        let k = choose|k: int| 0 <= k < seen.len() && test(#[trigger] seen[k]);
                        assert(test(next[k]));
                    }
                    if any(next, test) {
                        let k = choose|k: int| 0 <= k < next.len() && test(#[trigger] next[k]);
                        if k < i {
                            assert(test(seen[k]));
                        }
                    }
                    assert(next[i as int] == self.clocks@[i as int]@);
                    if user == self.clocks@[i as int].0@ {
                        assert(test(next[i as int]));
                    }
                }
            }
            i = i + 1;
        }
        proof {
            assert(all.take(i as int) =~= all);
            assert forall|user: Seq<char>| #[trigger] texts(list@).contains(user) <==> value_for(all, user) is Some by {
                lemma_first(all, keyed(user));
            }
        }
        list
    }

    /// The reviews of a player, in the order of time.
    pub fn reviews(&self, user: &str) -> (res: Vec<Review>)
        requires
            self.wf(),
        ensures
            res@ == reviews_of(self@, user@),
            in_time_order(res@),
    {
        match find_key(&self.reviews, user) {
            Some(i) => {
                let list = self.reviews[i].1.clone();
                assert(list@ =~= self.reviews@[i as int].1@);
                assert(self@.reviews[i as int].1 == self.reviews@[i as int].1@);
                list
            },
            None => Vec::new(),
        }
    }

    /// The clock of a player, or the usual one.
    pub fn clock(&self, user: &str) -> (res: Clock)
        ensures
            res == clock_of(self@, user@),
    {
        match find_key(&self.clocks, user) {
            Some(i) => self.clocks[i].1,
            None => Clock::default(),
        }
    }

    /// Whether the clock of a player is known.
    pub fn is_known(&self, user: &str) -> (res: bool)
        ensures
            res == (value_for(self@.clocks, user@) is Some),
    {
        find_key(&self.clocks, user).is_some()
    }

    /// Note that a player has been told something, and tell whether that is
    /// new.
    pub fn mark_seen(&mut self, user: &str, key: &str) -> (res: bool)
        ensures
            res == !old(self)@.seen.contains((user@, key@)),
            final(self)@ == (StoreModel {
                seen: crate::table::with_row(old(self)@.seen, (user@, key@)),
                ..old(self)@
            }),
    {
        let ghost before = self@;
        let res = add_pair(&mut self.seen, user, key);
        assert(self@ =~= (StoreModel { seen: crate::table::with_row(before.seen, (user@, key@)), ..before }));
        res
    }

    /// Store an upload of reviews.
    pub fn upsert(&mut self, user: &str, reviews: &[Review], deleted: &[i64], clock: Clock)
        requires
            old(self).wf(),
        ensures
            final(self)@ == upserted(old(self)@, user@, reviews@, deleted@, clock),
            final(self).wf(),
    {
        let ghost before = self@;
        let mut list = self.reviews(user);
        add_reviews(&mut list, reviews);
        remove_reviews(&mut list, deleted);
        put(&mut self.reviews, user, list);
        put(&mut self.clocks, user, clock);
        proof {
            let after = upserted(before, user@, reviews@, deleted@, clock);
            assert(self@ =~= after);
            lemma_first(before.reviews, keyed(user@));
            assert forall|i: int| 0 <= i < after.reviews.len() implies in_time_order((#[trigger] after.reviews[i]).1) by {
                if i < before.reviews.len() && after.reviews[i] == before.reviews[i] {
                    assert(in_time_order(before.reviews[i].1));
                }
            }
        }
    }
}

/// After an upload that deletes nothing there is a review of the time of each
/// review in it, and what was stored before is stored as it was.
pub proof fn law_uploads_add_and_never_replace(m: StoreModel, user: Seq<char>, reviews: Seq<Review>, clock: Clock, r: Review)
    requires
        sound(m),
    ensures
        reviews.contains(r) ==> exists|x: Review| #[trigger]
            reviews_of(upserted(m, user, reviews, Seq::empty(), clock), user).contains(x) && x.id == r.id,
        reviews_of(m, user).contains(r) ==> reviews_of(upserted(m, user, reviews, Seq::empty(), clock), user).contains(
            r,
        ),
{
    let list = reviews_of(m, user);
    let all = with_reviews(list, reviews);
    let after = reviews_of(upserted(m, user, reviews, Seq::empty(), clock), user);
    crate::table::law_put_is_found(m.reviews, user, all, user);
    lemma_first(m.reviews, keyed(user));
    lemma_uploaded(list, reviews, r);
    assert(without_reviews(all, Seq::<i64>::empty()) == all);
    assert(after == all);
}

proof fn lemma_uploaded(list: Seq<Review>, more: Seq<Review>, r: Review)
    requires
        in_time_order(list),
    ensures
        in_time_order(with_reviews(list, more)),
        more.contains(r) ==> exists|x: Review| #[trigger] with_reviews(list, more).contains(x) && x.id == r.id,
        list.contains(r) ==> with_reviews(list, more).contains(r),
    decreases more.len(),
{
    if more.len() > 0 {
        let init = more.drop_last();
        let inner = with_reviews(list, init);
        let after = with_reviews(list, more);
        lemma_uploaded(list, init, r);
        lemma_with_review(inner, more.last());
        if more.contains(r) {
            let i = choose|i: int| 0 <= i < more.len() && more[i] == r;
            if i < init.len() {
                assert(init[i] == r);
                assert(init.contains(r));
                let x = choose|x: Review| #[trigger] inner.contains(x) && x.id == r.id;
                assert(after.contains(x));
            } else {
                let k = choose|k: int| 0 <= k < after.len() && #[trigger] after[k].id == r.id;
                assert(after.contains(after[k]));
            }
        }
    }
}

proof fn lemma_deleted(list: Seq<Review>, deleted: Seq<i64>, r: Review)
    ensures
        without_reviews(list, deleted).contains(r) == (list.contains(r) && !deleted.contains(r.id)),
    decreases deleted.len(),
{
    if deleted.len() > 0 {
        let init = deleted.drop_last();
        lemma_deleted(list, init, r);
        lemma_kept(without_reviews(list, init), not_at(deleted.last()));
        if deleted.contains(r.id) {
            let k = choose|k: int| 0 <= k < deleted.len() && deleted[k] == r.id;
            if k < init.len() {
                assert(init[k] == r.id);
            }
        }
        if init.contains(r.id) {
            let k = choose|k: int| 0 <= k < init.len() && init[k] == r.id;
            assert(deleted[k] == r.id);
        }
        assert(deleted[deleted.len() - 1] == deleted.last());
    }
}

/// A review that an upload deletes is gone, a stored one that it does not
/// delete is still there, and the reviews of other players are left as they
/// are.
pub proof fn law_deleted_reviews_are_gone(
    m: StoreModel,
    user: Seq<char>,
    reviews: Seq<Review>,
    deleted: Seq<i64>,
    clock: Clock,
    r: Review,
    other: Seq<char>,
)
    requires
        sound(m),
    ensures
        ({
            let after = upserted(m, user, reviews, deleted, clock);
            &&& deleted.contains(r.id) ==> !reviews_of(after, user).contains(r)
            &&& reviews_of(m, user).contains(r) && !deleted.contains(r.id) ==> reviews_of(after, user).contains(r)
            &&& clock_of(after, user) == clock
            &&& other != user ==> reviews_of(after, other) == reviews_of(m, other) && clock_of(after, other) == clock_of(
                m,
                other,
            )
        }),
{
    let list = reviews_of(m, user);
    let all = with_reviews(list, reviews);
    crate::table::law_put_is_found(m.reviews, user, without_reviews(all, deleted), other);
    crate::table::law_put_is_found(m.clocks, user, clock, other);
    lemma_first(m.reviews, keyed(user));
    lemma_uploaded(list, reviews, r);
    lemma_deleted(all, deleted, r);
}

} // verus!
