//! Notifications: who is told what, once, and how it is delivered.

use vstd::prelude::*;
use vstd::arithmetic::power2::pow2;
use crate::calendar::fits;
use crate::game::{event_views, Event, EventModel};
use crate::store::{StoreError, has_pair, numbered, opt_int, sound, Invitation, InvitationModel, NoticeRow, RowModel, Store, StoreModel};
use crate::table::{any, append, find, find_key, first, has, kept, lemma_first, lemma_kept, put, put_for, retain, rows, value_for};
use crate::text::{around, decimal, join, joined, joined_by, number, same, signed_decimal, signed_number, texts, unsigned};

verus! {

/// How long a notification stays in the inbox.
pub const INBOX_AGE_MS: i64 = 604_800_000;

/// How many days of activity are kept.
pub const ACTIVITY_DAYS: u32 = 90;

/// How long a notification is kept.
pub const ACTIVITY_AGE_MS: i64 = 7_776_000_000;

/// How long an attempt at a push keeps others from trying.
pub const PUSH_LEASE_MS: i64 = 60_000;

/// How many events are announced one by one.
pub const MAX_SEPARATE_PUSHES: usize = 3;

/// How many notifications an inbox shows.
pub const INBOX_LIMIT: usize = 500;

/// A message of the server, as text.
pub struct OutgoingModel {
    pub to: Seq<char>,
    pub from: Seq<char>,
    pub title: Seq<char>,
    pub body: Seq<char>,
    pub kind: Seq<char>,
}

/// A notification written by the server itself: a nudge, or a message sent by hand.
pub struct Outgoing<'a> {
    pub to: &'a str,
    /// Empty when nobody can be answered.
    pub from: &'a str,
    pub title: &'a str,
    pub body: &'a str,
    pub kind: &'a str,
}

impl<'a> View for Outgoing<'a> {
    type V = OutgoingModel;

    open spec fn view(&self) -> OutgoingModel {
        OutgoingModel { to: self.to@, from: self.from@, title: self.title@, body: self.body@, kind: self.kind@ }
    }
}

/// A notification as it is shown, in text and numbers.
#[verifier::ext_equal]
pub struct NotificationModel {
    pub id: int,
    pub title: Seq<char>,
    pub body: Seq<char>,
    pub day: int,
    pub created_at: int,
    pub sender: Seq<char>,
    pub replied: bool,
    pub kind: Seq<char>,
    pub read_at: Option<int>,
    pub challenge_id: Option<int>,
    pub route: Option<Seq<char>>,
    pub action_required: bool,
}

/// A notification as it is shown.
#[derive(Clone, Debug)]
pub struct Notification {
    pub id: i64,
    pub title: String,
    pub body: String,
    pub day: i64,
    /// In seconds.
    pub created_at: i64,
    /// Who this is about, and so who a reply goes to. Empty for older rows.
    pub sender: String,
    pub replied: bool,
    /// What put this here: "completion", "reply", "nudge" or "message". Clients
    /// choose how loudly to announce each.
    pub kind: String,
    /// Unix seconds, independently of push/delivery state.
    pub read_at: Option<i64>,
    pub challenge_id: Option<i64>,
    pub route: Option<String>,
    pub action_required: bool,
}

impl View for Notification {
    type V = NotificationModel;

    open spec fn view(&self) -> NotificationModel {
        NotificationModel {
            id: self.id as int,
            title: self.title@,
            body: self.body@,
            day: self.day as int,
            created_at: self.created_at as int,
            sender: self.sender@,
            replied: self.replied,
            kind: self.kind@,
            read_at: opt_int(self.read_at),
            challenge_id: opt_int(self.challenge_id),
            route: crate::feedback::opt_text(self.route),
            action_required: self.action_required,
        }
    }
}

/// Whole seconds, rounded towards zero.
pub open spec fn seconds_of(ms: int) -> int {
    if ms >= 0 {
        ms / 1000
    } else {
        -((-ms) / 1000)
    }
}

/// Whole seconds, rounded towards zero.
pub fn seconds(ms: i64) -> (res: i64)
    ensures
        res == seconds_of(ms as int),
{
    let n: u64 = unsigned(ms) / 1000;
    if ms >= 0 {
        n as i64
    } else {
        -(n as i64)
    }
}

/// Whether a recipient wants no announcements at all.
pub open spec fn refuses(m: StoreModel, recipient: Seq<char>) -> bool {
    value_for(m.incoming_settings, recipient) == Some(false)
}

/// Whether a recipient wants no announcements of a sender.
pub open spec fn silences(m: StoreModel, recipient: Seq<char>, sender: Seq<char>) -> bool {
    m.muted_senders.contains((recipient, sender)) || m.unsubscriptions.contains((recipient, sender))
}

/// Whether a recipient wants the announcements of a sender.
pub open spec fn wants(m: StoreModel, recipient: Seq<char>, sender: Seq<char>) -> bool {
    !refuses(m, recipient) && !silences(m, recipient, sender)
}

/// Whether a notification may be heard: every one but an announcement that was
/// cancelled, or that its recipient does not want.
pub open spec fn audible(m: StoreModel, row: RowModel) -> bool {
    row.kind != "completion"@ || (!row.completion_cancelled && wants(m, row.recipient, row.sender))
}

/// A new notification. An announcement that its recipient does not want is
/// cancelled from the start.
pub open spec fn new_row(m: StoreModel, message: OutgoingModel, day: int, now: int, push_only: bool) -> RowModel {
    let cancelled = message.kind == "completion"@ && !wants(m, message.to, message.from);
    RowModel {
        id: m.next_id,
        recipient: message.to,
        sender: message.from,
        title: message.title,
        body: message.body,
        day,
        created_at: now,
        kind: message.kind,
        pushed: false,
        push_only,
        retry_at: 0,
        push_attempts: 0,
        push_cancelled: cancelled,
        completion_cancelled: cancelled,
        replied: false,
        read_at: None,
        challenge_id: None,
    }
}

/// What is stored with one more notification.
pub open spec fn noticed(m: StoreModel, message: OutgoingModel, day: int, now: int, push_only: bool) -> StoreModel {
    StoreModel {
        notifications: m.notifications.push(new_row(m, message, day, now, push_only)),
        next_id: m.next_id + 1,
        ..m
    }
}

/// What is stored when something is told once.
pub open spec fn noticed_once(
    m: StoreModel,
    message: OutgoingModel,
    key: Seq<char>,
    day: int,
    now: int,
    push_only: bool,
) -> StoreModel {
    if m.seen.contains((message.to, key)) {
        m
    } else {
        noticed(StoreModel { seen: m.seen.push((message.to, key)), ..m }, message, day, now, push_only)
    }
}

/// Telling something a second time changes nothing.
pub proof fn law_told_once(
    m: StoreModel,
    message: OutgoingModel,
    key: Seq<char>,
    day: int,
    now: int,
    push_only: bool,
    later: OutgoingModel,
    later_day: int,
    later_now: int,
    later_push_only: bool,
)
    requires
        later.to == message.to,
    ensures
        ({
            let once = noticed_once(m, message, key, day, now, push_only);
            noticed_once(once, later, key, later_day, later_now, later_push_only) == once
        }),
{
    let pair = (message.to, key);
    if !m.seen.contains(pair) {
        assert(m.seen.push(pair)[m.seen.len() as int] == pair);
    }
}

/// Whether an answer to the invitation of a notification is still possible.
pub open spec fn invites(row: RowModel, now: int) -> spec_fn(InvitationModel) -> bool {
    |i: InvitationModel|
        row.challenge_id == Some(i.challenge) && row.kind == "challenge_invite"@ && i.user == row.recipient && i.open
            && !i.cancelled && i.end_at > now
}

/// A notification as it is shown.
pub open spec fn shown(m: StoreModel, row: RowModel, now: int) -> NotificationModel {
    NotificationModel { action_required: any(m.invitations, invites(row, now)), ..delivered(row) }
}

/// A notification as it is handed to the push service.
pub open spec fn delivered(row: RowModel) -> NotificationModel {
    NotificationModel {
        id: row.id,
        title: row.title,
        body: row.body,
        day: row.day,
        created_at: seconds_of(row.created_at),
        sender: row.sender,
        replied: row.replied,
        kind: row.kind,
        read_at: match row.read_at {
            Some(at) => Some(seconds_of(at)),
            None => None,
        },
        challenge_id: row.challenge_id,
        route: match row.challenge_id {
            Some(id) => Some("/community#challenge-"@ + signed_decimal(id)),
            None => None,
        },
        action_required: false,
    }
}

fn deliver(row: &NoticeRow) -> (res: Notification)
    ensures
        res@ == delivered(row@),
{
    let res = Notification {
        id: row.id,
        title: row.title.clone(),
        body: row.body.clone(),
        day: row.day,
        created_at: seconds(row.created_at),
        sender: row.sender.clone(),
        replied: row.replied,
        kind: row.kind.clone(),
        read_at: match row.read_at {
            Some(at) => Some(seconds(at)),
            None => None,
        },
        challenge_id: row.challenge_id,
        route: match row.challenge_id {
            Some(id) => Some(joined("/community#challenge-", signed_number(id).as_str())),
            None => None,
        },
        action_required: false,
    };
    assert(res@ =~= delivered(row@));
    res
}

impl Store {
    pub(crate) fn is_wanted(&self, recipient: &str, sender: &str) -> (res: bool)
        ensures
            res == wants(self@, recipient@, sender@),
    {
        let refused = match find_key(&self.incoming_settings, recipient) {
            Some(i) => !self.incoming_settings[i].1,
            None => false,
        };
        !refused && !has_pair(&self.muted_senders, recipient, sender) && !has_pair(
            &self.unsubscriptions,
            recipient,
            sender,
        )
    }

    fn is_audible(&self, row: &NoticeRow) -> (res: bool)
        ensures
            res == audible(self@, row@),
    {
        !same(row.kind.as_str(), "completion") || (!row.completion_cancelled && self.is_wanted(
            row.recipient.as_str(),
            row.sender.as_str(),
        ))
    }

    fn needs_action(&self, row: &NoticeRow, now: i64) -> (res: bool)
        ensures
            res == any(self@.invitations, invites(row@, now as int)),
    {
        let is_it = |i: &Invitation| -> (b: bool)
            ensures
                b == invites(row@, now as int)(i@),
        {
            row.challenge_id.is_some() && row.challenge_id.unwrap() == i.challenge && same(
                row.kind.as_str(),
                "challenge_invite",
            ) && same(i.user.as_str(), row.recipient.as_str()) && i.open && !i.cancelled && i.end_at > now
        };
        has(&self.invitations, is_it, Ghost(invites(row@, now as int)))
    }

    fn show(&self, row: &NoticeRow, now: i64) -> (res: Notification)
        ensures
            res@ == shown(self@, row@, now as int),
    {
        let mut res = deliver(row);
        res.action_required = self.needs_action(row, now);
        assert(res@ =~= shown(self@, row@, now as int));
        res
    }

    /// Put a notification into the store, and give it the next number.
    pub(crate) fn insert_notification(&mut self, message: &Outgoing, day: i64, now_ms: i64, push_only: bool) -> (res: i64)
        requires
            old(self).next_id < i64::MAX,
        ensures
            res == old(self)@.next_id,
            final(self)@ == noticed(old(self)@, message@, day as int, now_ms as int, push_only),
            final(self).next_id == old(self).next_id + 1,
            old(self).wf() ==> final(self).wf(),
    {
        let ghost before = self@;
        // Keep unwanted announcements permanently quiet, whoever writes them.
        let cancelled = same(message.kind, "completion") && !self.is_wanted(message.to, message.from);
        let id: i64 = self.next_id;
        let row = NoticeRow {
            id,
            recipient: message.to.to_owned(),
            sender: message.from.to_owned(),
            title: message.title.to_owned(),
            body: message.body.to_owned(),
            day,
            created_at: now_ms,
            kind: message.kind.to_owned(),
            pushed: false,
            push_only,
            retry_at: 0,
            push_attempts: 0,
            push_cancelled: cancelled,
            completion_cancelled: cancelled,
            replied: false,
            read_at: None,
            challenge_id: None,
        };
        append(&mut self.notifications, row);
        self.next_id = id + 1;
        assert(self@ =~= noticed(before, message@, day as int, now_ms as int, push_only));
        id
    }

    /// Puts one message straight into a player's inbox, for the `message` command.
    /// The delivery loop pushes it like any other notification.
    pub fn send(&mut self, message: &Outgoing, day: i64, now_ms: i64) -> (res: i64)
        requires
            old(self).next_id < i64::MAX,
        ensures
            res == old(self)@.next_id,
            final(self)@ == noticed(old(self)@, message@, day as int, now_ms as int, false),
            old(self).wf() ==> final(self).wf(),
    {
        self.insert_notification(message, day, now_ms, false)
    }

    /// The seen key and its durable delivery come together or not at all.
    pub fn send_once(&mut self, message: &Outgoing, key: &str, day: i64, now_ms: i64, push_only: bool)
        requires
            old(self).next_id < i64::MAX,
        ensures
            final(self)@ == noticed_once(old(self)@, message@, key@, day as int, now_ms as int, push_only),
            old(self).wf() ==> final(self).wf(),
    {
        let ghost before = self@;
        if self.mark_seen(message.to, key) {
            assert(self@ =~= (StoreModel { seen: before.seen.push((message@.to, key@)), ..before }));
            let _ = self.insert_notification(message, day, now_ms, push_only);
        } else {
            assert(self@ =~= before);
        }
    }
}

/// The events that a player has not been told of, and what has been seen after
/// that.
pub open spec fn fresh_events(
    seen: Seq<(Seq<char>, Seq<char>)>,
    user: Seq<char>,
    events: Seq<EventModel>,
) -> (Seq<(Seq<char>, Seq<char>)>, Seq<EventModel>)
    decreases events.len(),
{
    if events.len() == 0 {
        (seen, Seq::empty())
    } else {
        let (before, fresh) = fresh_events(seen, user, events.drop_last());
        let e = events.last();
        if before.contains((user, e.key)) {
            (before, fresh)
        } else {
            (before.push((user, e.key)), fresh.push(e))
        }
    }
}

/// An event as a message to the player.
pub open spec fn event_message(user: Seq<char>, e: EventModel) -> OutgoingModel {
    OutgoingModel { to: user, from: ""@, title: e.title, body: e.body, kind: "event"@ }
}

/// Many events as one message to the player.
pub open spec fn unlocks_message(user: Seq<char>, events: Seq<EventModel>) -> OutgoingModel {
    OutgoingModel {
        to: user,
        from: ""@,
        title: decimal(events.len()) + " new unlocks"@,
        body: joined_by(events.map_values(|e: EventModel| e.title), ", "@),
        kind: "event"@,
    }
}

/// What is stored with a message for each of some events.
pub open spec fn events_noticed(m: StoreModel, user: Seq<char>, events: Seq<EventModel>, day: int, now: int) -> StoreModel
    decreases events.len(),
{
    if events.len() == 0 {
        m
    } else {
        noticed(
            events_noticed(m, user, events.drop_last(), day, now),
            event_message(user, events.last()),
            day,
            now,
            true,
        )
    }
}

/// What is stored when events are queued: what is new is noted, and announced
/// where the player has pushes, up to three one by one and more in one.
pub open spec fn queued(
    m: StoreModel,
    user: Seq<char>,
    events: Seq<EventModel>,
    day: int,
    now: int,
    push_enabled: bool,
) -> StoreModel {
    let (seen, fresh) = fresh_events(m.seen, user, events);
    let noted = StoreModel { seen, ..m };
    if !push_enabled {
        noted
    } else if fresh.len() > MAX_SEPARATE_PUSHES {
        noticed(noted, unlocks_message(user, fresh), day, now, true)
    } else {
        events_noticed(noted, user, fresh, day, now)
    }
}

/// A key that was told is among those that have been seen.
proof fn lemma_fresh_seen(seen: Seq<(Seq<char>, Seq<char>)>, user: Seq<char>, events: Seq<EventModel>)
    ensures
        forall|p: (Seq<char>, Seq<char>)| #[trigger] seen.contains(p) ==> fresh_events(seen, user, events).0.contains(p),
        forall|i: int|
            0 <= i < events.len() ==> fresh_events(seen, user, events).0.contains((user, (#[trigger] events[i]).key)),
    decreases events.len(),
{
    if events.len() > 0 {
        let init = events.drop_last();
        lemma_fresh_seen(seen, user, init);
        let before = fresh_events(seen, user, init).0;
        let after = fresh_events(seen, user, events).0;
        assert forall|p: (Seq<char>, Seq<char>)| #[trigger] before.contains(p) implies after.contains(p) by {
            let k = choose|k: int| 0 <= k < before.len() && before[k] == p;
            assert(after[k] == p);
        }
        assert forall|i: int| 0 <= i < events.len() implies after.contains((user, (#[trigger] events[i]).key)) by {
            if i < init.len() {
                assert(before.contains((user, init[i].key)));
            } else if !before.contains((user, events[i].key)) {
                assert(after[before.len() as int] == (user, events[i].key));
            }
        }
    }
}

proof fn lemma_nothing_fresh(seen: Seq<(Seq<char>, Seq<char>)>, user: Seq<char>, events: Seq<EventModel>)
    requires
        forall|i: int| 0 <= i < events.len() ==> seen.contains((user, (#[trigger] events[i]).key)),
    ensures
        fresh_events(seen, user, events) == (seen, Seq::<EventModel>::empty()),
    decreases events.len(),
{
    if events.len() > 0 {
        let init = events.drop_last();
        assert forall|i: int| 0 <= i < init.len() implies seen.contains((user, (#[trigger] init[i]).key)) by {
            assert(seen.contains((user, events[i].key)));
        }
        lemma_nothing_fresh(seen, user, init);
        assert(seen.contains((user, events[events.len() - 1].key)));
    }
}

proof fn lemma_events_keep_seen(m: StoreModel, user: Seq<char>, events: Seq<EventModel>, day: int, now: int)
    ensures
        events_noticed(m, user, events, day, now).seen == m.seen,
    decreases events.len(),
{
    if events.len() > 0 {
        lemma_events_keep_seen(m, user, events.drop_last(), day, now);
    }
}

proof fn lemma_events_take_numbers(m: StoreModel, user: Seq<char>, events: Seq<EventModel>, day: int, now: int)
    ensures
        events_noticed(m, user, events, day, now).next_id == m.next_id + events.len(),
    decreases events.len(),
{
    if events.len() > 0 {
        lemma_events_take_numbers(m, user, events.drop_last(), day, now);
    }
}

/// Queueing events takes up at most three numbers.
pub proof fn lemma_queued_numbers(m: StoreModel, user: Seq<char>, events: Seq<EventModel>, day: int, now: int, push_enabled: bool)
    ensures
        queued(m, user, events, day, now, push_enabled).next_id <= m.next_id + MAX_SEPARATE_PUSHES,
{
    let (seen, fresh) = fresh_events(m.seen, user, events);
    lemma_events_take_numbers(StoreModel { seen, ..m }, user, fresh, day, now);
}

/// Events that have been queued are not queued again, whatever came with them.
pub proof fn law_events_are_queued_once(
    m: StoreModel,
    user: Seq<char>,
    events: Seq<EventModel>,
    day: int,
    now: int,
    push_enabled: bool,
    later_day: int,
    later_now: int,
    later_push_enabled: bool,
)
    ensures
        ({
            let once = queued(m, user, events, day, now, push_enabled);
            queued(once, user, events, later_day, later_now, later_push_enabled) == once
        }),
{
    let once = queued(m, user, events, day, now, push_enabled);
    let (seen, fresh) = fresh_events(m.seen, user, events);
    lemma_fresh_seen(m.seen, user, events);
    lemma_events_keep_seen(StoreModel { seen, ..m }, user, fresh, day, now);
    assert(once.seen == seen);
    lemma_nothing_fresh(seen, user, events);
    let again = queued(once, user, events, later_day, later_now, later_push_enabled);
    assert(again =~= once);
}

fn wants_nudges(settings: &Vec<(String, bool)>, user: &str) -> (res: bool)
    ensures
        res == (value_for(rows(settings@), user@) == Some(true)),
{
    match find_key(settings, user) {
        Some(i) => {
            assert(rows(settings@)[i as int].1 == settings@[i as int].1);
            settings[i].1
        },
        None => false,
    }
}

impl Store {
    fn note_events(&mut self, user: &str, events: &[Event]) -> (res: Vec<usize>)
        ensures
            final(self)@ == (StoreModel {
                seen: fresh_events(old(self)@.seen, user@, event_views(events@)).0,
                ..old(self)@
            }),
            final(self).next_id == old(self).next_id,
            forall|k: int| 0 <= k < res@.len() ==> (#[trigger] res@[k]) < events@.len(),
            res@.map_values(|i: usize| events@[i as int]@) == fresh_events(old(self)@.seen, user@, event_views(events@)).1,
    {
        let ghost before = self@;
        let ghost all = event_views(events@);
        let ghost pick = |i: usize| events@[i as int]@;
        let mut fresh: Vec<usize> = Vec::new();
        let mut i: usize = 0;
        proof {
            assert(all.take(0) =~= Seq::<EventModel>::empty());
            assert(fresh@.map_values(pick) =~= Seq::<EventModel>::empty());
            assert(self@ =~= (StoreModel { seen: before.seen, ..before }));
        }
        while i < events.len()
            invariant
                all == event_views(events@),
                pick == (|i: usize| events@[i as int]@),
                i <= events@.len(),
                self@ == (StoreModel { seen: fresh_events(before.seen, user@, all.take(i as int)).0, ..before }),
                self.next_id == before.next_id,
                forall|k: int| 0 <= k < fresh@.len() ==> (#[trigger] fresh@[k]) < events@.len(),
                fresh@.map_values(pick) == fresh_events(before.seen, user@, all.take(i as int)).1,
            decreases events@.len() - i,
        {
            let ghost fresh0 = fresh@;
            proof {
                assert(all.take(i + 1).drop_last() =~= all.take(i as int));
                assert(all.take(i + 1).last() == events@[i as int]@);
            }
            if self.mark_seen(user, events[i].key.as_str()) {
                fresh.push(i);
                assert(fresh@.map_values(pick) =~= fresh0.map_values(pick).push(events@[i as int]@));
            }
            assert(self@ =~= (StoreModel { seen: fresh_events(before.seen, user@, all.take(i + 1)).0, ..before }));
            i = i + 1;
        }
        assert(all.take(i as int) =~= all);
        fresh
    }

    /// Preserve the grouped push announcements without duplicating phone
    /// inbox alerts. Accounts without pushes keep a silent baseline.
    pub fn queue_events(&mut self, user: &str, events: &[Event], day: i64, now_ms: i64, push_enabled: bool)
        requires
            old(self).next_id + MAX_SEPARATE_PUSHES <= i64::MAX,
        ensures
            final(self)@ == queued(old(self)@, user@, event_views(events@), day as int, now_ms as int, push_enabled),
            old(self).wf() ==> final(self).wf(),
    {
        let ghost before = self@;
        let fresh = self.note_events(user, events);
        let ghost noted = self@;
        let ghost list = fresh_events(before.seen, user@, event_views(events@)).1;
        let ghost pick = |i: usize| events@[i as int]@;
        assert(list.len() == fresh@.len());
        if push_enabled {
            if fresh.len() > MAX_SEPARATE_PUSHES {
                let mut titles: Vec<String> = Vec::new();
                let mut i: usize = 0;
                let ghost title = |e: EventModel| e.title;
                assert(texts(titles@) =~= list.take(0).map_values(title));
                while i < fresh.len()
                    invariant
                        list == fresh@.map_values(pick),
                        pick == (|i: usize| events@[i as int]@),
                        title == (|e: EventModel| e.title),
                        i <= fresh@.len(),
                        forall|k: int| 0 <= k < fresh@.len() ==> (#[trigger] fresh@[k]) < events@.len(),
                        texts(titles@) == list.take(i as int).map_values(title),
                    decreases fresh@.len() - i,
                {
                    let ghost titles0 = titles@;
                    let at: usize = fresh[i];
                    let text = events[at].title.clone();
                    let ghost shown_title = text@;
                    titles.push(text);
                    proof {
                        assert(list[i as int] == events@[at as int]@);
                        assert(texts(titles@) =~= texts(titles0).push(shown_title));
                        assert(list.take(i + 1) =~= list.take(i as int).push(list[i as int]));
                        assert(texts(titles@) =~= list.take(i + 1).map_values(title));
                    }
                    i = i + 1;
                }
                assert(list.take(i as int) =~= list);
                let heading = around("", fresh.len() as u64, " new unlocks");
                let text = join(&titles, ", ");
                proof {
                    reveal_strlit("");
                    assert(heading@ =~= decimal(list.len()) + " new unlocks"@);
                }
                let message = Outgoing { to: user, from: "", title: heading.as_str(), body: text.as_str(), kind: "event" };
                assert(message@ == unlocks_message(user@, list));
                let _ = self.insert_notification(&message, day, now_ms, true);
            } else {
                let mut i: usize = 0;
                assert(list.take(0) =~= Seq::<EventModel>::empty());
                while i < fresh.len()
                    invariant
                        list == fresh@.map_values(pick),
                        pick == (|i: usize| events@[i as int]@),
                        i <= fresh@.len() <= MAX_SEPARATE_PUSHES,
                        forall|k: int| 0 <= k < fresh@.len() ==> (#[trigger] fresh@[k]) < events@.len(),
                        self@ == events_noticed(noted, user@, list.take(i as int), day as int, now_ms as int),
                        self.next_id == before.next_id + i,
                        before.next_id + MAX_SEPARATE_PUSHES <= i64::MAX,
                        sound(before) ==> self.wf(),
                    decreases fresh@.len() - i,
                {
                    let at: usize = fresh[i];
                    proof {
                        assert(list.take(i + 1).drop_last() =~= list.take(i as int));
                        assert(list.take(i + 1).last() == events@[at as int]@);
                    }
                    let message = Outgoing {
                        to: user,
                        from: "",
                        title: events[at].title.as_str(),
                        body: events[at].body.as_str(),
                        kind: "event",
                    };
                    assert(message@ == event_message(user@, list[i as int]));
                    let _ = self.insert_notification(&message, day, now_ms, true);
                    i = i + 1;
                }
                assert(list.take(i as int) =~= list);
            }
        }
    }

    /// Whether a player wants nudges.
    pub fn nudges_enabled(&self, user: &str) -> (res: bool)
        ensures
            res == (value_for(self@.player_settings, user@) == Some(true)),
    {
        match find_key(&self.player_settings, user) {
            Some(i) => self.player_settings[i].1,
            None => false,
        }
    }
}

/// What can be done to a stored notification.
#[derive(Clone, Copy)]
pub enum Change {
    /// It will not be pushed.
    CancelPush,
    /// It will be neither pushed nor shown.
    CancelCompletion,
    /// It was read at a time.
    Read(i64),
    /// It was answered.
    Answer,
    /// It is not to be tried before a time.
    Defer(i64),
    /// It is tried now, and not again before a time.
    Attempt(i64),
    /// It was tried, with success or not, and is not to be tried before a time.
    Finish(bool, i64),
}

/// A stored notification after a change.
pub open spec fn changed(r: RowModel, c: Change) -> RowModel {
    match c {
        Change::CancelPush => RowModel { push_cancelled: true, ..r },
        Change::CancelCompletion => RowModel { push_cancelled: true, completion_cancelled: true, ..r },
        Change::Read(at) => RowModel { read_at: Some(at as int), ..r },
        Change::Answer => RowModel { replied: true, ..r },
        Change::Defer(at) => RowModel { retry_at: at as int, ..r },
        Change::Attempt(at) => RowModel {
            retry_at: at as int,
            push_attempts: if r.push_attempts + 1 < 31 {
                r.push_attempts + 1
            } else {
                31
            },
            ..r
        },
        Change::Finish(pushed, at) => RowModel { pushed, retry_at: at as int, ..r },
    }
}

/// Stored notifications after a change of those that pass a test.
pub open spec fn changed_where(list: Seq<RowModel>, test: spec_fn(RowModel) -> bool, c: Change) -> Seq<RowModel> {
    list.map_values(
        |r: RowModel|
            if test(r) {
                changed(r, c)
            } else {
                r
            },
    )
}

fn apply(row: &mut NoticeRow, c: Change)
    ensures
        final(row)@ == changed(old(row)@, c),
{
    match c {
        Change::CancelPush => {
            row.push_cancelled = true;
        },
        Change::CancelCompletion => {
            row.push_cancelled = true;
            row.completion_cancelled = true;
        },
        Change::Read(at) => {
            row.read_at = Some(at);
        },
        Change::Answer => {
            row.replied = true;
        },
        Change::Defer(at) => {
            row.retry_at = at;
        },
        Change::Attempt(at) => {
            row.retry_at = at;
            row.push_attempts = if row.push_attempts < 30 {
                row.push_attempts + 1
            } else {
                31
            };
        },
        Change::Finish(pushed, at) => {
            row.pushed = pushed;
            row.retry_at = at;
        },
    }
}

/// Change the notifications that pass a test.
pub(crate) fn change_rows<F: Fn(&NoticeRow) -> bool>(
    table: &mut Vec<NoticeRow>,
    f: F,
    Ghost(test): Ghost<spec_fn(RowModel) -> bool>,
    c: Change,
)
    requires
        crate::table::agrees(f, test),
    ensures
        rows(final(table)@) == changed_where(rows(old(table)@), test, c),
        forall|next: int| numbered(rows(old(table)@), next) ==> numbered(rows(final(table)@), next),
{
    let ghost before = rows(table@);
    let ghost want = changed_where(before, test, c);
    let mut i: usize = 0;
    while i < table.len()
        invariant
            crate::table::agrees(f, test),
            want == changed_where(before, test, c),
            before.len() == table@.len(),
            i <= table@.len(),
            forall|k: int| 0 <= k < i ==> (#[trigger] table@[k])@ == want[k],
            forall|k: int| i <= k < table@.len() ==> (#[trigger] table@[k])@ == before[k],
        decreases table@.len() - i,
    {
        assert(table@[i as int]@ == before[i as int]);
        let hit = f(&table[i]);
        if hit {
            let mut row = table.remove(i);
            apply(&mut row, c);
            table.insert(i, row);
        }
        i = i + 1;
    }
    proof {
        assert(rows(table@) =~= want);
        assert forall|next: int| numbered(before, next) implies numbered(want, next) by {
            assert forall|a: int, b: int| 0 <= a < b < want.len() implies (#[trigger] want[a]).id < (#[trigger] want[b]).id by {
                assert(before[a].id < before[b].id);
            }
            assert forall|a: int| 0 <= a < want.len() implies (#[trigger] want[a]).id < next by {
                assert(before[a].id < next);
            }
        }
    }
}

/// Whether a notification is a nudge to a player that has not been pushed.
pub open spec fn waiting_nudge(user: Seq<char>) -> spec_fn(RowModel) -> bool {
    |r: RowModel| r.recipient == user && r.kind == "nudge"@ && !r.pushed
}

/// What is stored when a player turns nudges on or off: turning them off
/// cancels those that wait.
pub open spec fn nudges_set(m: StoreModel, user: Seq<char>, enabled: bool) -> StoreModel {
    StoreModel {
        player_settings: put_for(m.player_settings, user, enabled),
        notifications: if enabled {
            m.notifications
        } else {
            changed_where(m.notifications, waiting_nudge(user), Change::CancelPush)
        },
        ..m
    }
}

/// Whether a notification of a player can still be marked as read.
pub open spec fn unread_of(user: Seq<char>, ids: Seq<i64>, now: int) -> spec_fn(RowModel) -> bool {
    |r: RowModel|
        (exists|i: int| 0 <= i < ids.len() && (#[trigger] ids[i]) == r.id) && r.recipient == user && !r.push_only
            && r.read_at is None && r.created_at >= now - ACTIVITY_AGE_MS
}

impl Store {
    /// Turn nudges on or off.
    pub fn set_nudges(&mut self, user: &str, enabled: bool)
        ensures
            final(self)@ == nudges_set(old(self)@, user@, enabled),
            old(self).wf() ==> final(self).wf(),
    {
        let ghost before = self@;
        put(&mut self.player_settings, user, enabled);
        if !enabled {
            let waits = |r: &NoticeRow| -> (b: bool)
                ensures
                    b == waiting_nudge(user@)(r@),
            {
                same(r.recipient.as_str(), user) && same(r.kind.as_str(), "nudge") && !r.pushed
            };
            change_rows(&mut self.notifications, waits, Ghost(waiting_nudge(user@)), Change::CancelPush);
        }
        assert(self@ =~= nudges_set(before, user@, enabled));
    }

    /// Mark notifications as read, each of them once.
    pub fn read_activity(&mut self, user: &str, ids: &[i64], now_ms: i64)
        requires
            fits(now_ms - ACTIVITY_AGE_MS),
        ensures
            final(self)@ == (StoreModel {
                notifications: changed_where(
                    old(self)@.notifications,
                    unread_of(user@, ids@, now_ms as int),
                    Change::Read(now_ms),
                ),
                ..old(self)@
            }),
            old(self).wf() ==> final(self).wf(),
    {
        let ghost before = self@;
        let cutoff: i64 = now_ms - ACTIVITY_AGE_MS;
        let unread = |r: &NoticeRow| -> (b: bool)
            ensures
                b == unread_of(user@, ids@, now_ms as int)(r@),
        {
            holds_id(ids, r.id) && same(r.recipient.as_str(), user) && !r.push_only && r.read_at.is_none()
                && r.created_at >= cutoff
        };
        change_rows(
            &mut self.notifications,
            unread,
            Ghost(unread_of(user@, ids@, now_ms as int)),
            Change::Read(now_ms),
        );
        assert(self@ =~= (StoreModel {
            notifications: changed_where(
                before.notifications,
                unread_of(user@, ids@, now_ms as int),
                Change::Read(now_ms),
            ),
            ..before
        }));
    }
}

fn holds_id(ids: &[i64], id: i64) -> (res: bool)
    ensures
        res == exists|i: int| 0 <= i < ids@.len() && (#[trigger] ids@[i]) == id,
{
    let mut i: usize = 0;
    while i < ids.len()
        invariant
            i <= ids@.len(),
            forall|k: int| 0 <= k < i ==> (#[trigger] ids@[k]) != id,
        decreases ids@.len() - i,
    {
        if ids[i] == id {
            return true;
        }
        i = i + 1;
    }
    false
}

/// Reading a notification does not touch what is pushed, or when, or to whom.
pub proof fn law_reading_leaves_delivery_alone(list: Seq<RowModel>, user: Seq<char>, ids: Seq<i64>, now: i64, i: int)
    requires
        0 <= i < list.len(),
    ensures
        ({
            let after = changed_where(list, unread_of(user, ids, now as int), Change::Read(now));
            &&& after.len() == list.len()
            &&& after[i] == RowModel { read_at: after[i].read_at, ..list[i] }
            &&& list[i].read_at is Some ==> after[i] == list[i]
        }),
{
}

/// Whether a notification is shown to a player, from a time on.
pub open spec fn visible(m: StoreModel, user: Seq<char>, since: int) -> spec_fn(RowModel) -> bool {
    |r: RowModel| r.recipient == user && !r.push_only && r.created_at >= since && audible(m, r)
}

/// Notifications as they are shown.
pub open spec fn shown_all(m: StoreModel, list: Seq<RowModel>, now: int) -> Seq<NotificationModel> {
    list.map_values(|r: RowModel| shown(m, r, now))
}

/// The last entries of a list.
pub open spec fn last_of<T>(list: Seq<T>, limit: nat) -> Seq<T> {
    if list.len() > limit {
        list.skip(list.len() - limit)
    } else {
        list
    }
}

/// The inbox of a player: the latest notifications of the last week.
pub open spec fn inbox_of(m: StoreModel, user: Seq<char>, now: int) -> Seq<NotificationModel> {
    shown_all(
        m,
        last_of(kept(m.notifications, visible(m, user, now - INBOX_AGE_MS)), INBOX_LIMIT as nat),
        now,
    )
}

impl Store {
    fn is_visible(&self, row: &NoticeRow, user: &str, since: i64) -> (res: bool)
        ensures
            res == visible(self@, user@, since as int)(row@),
    {
        same(row.recipient.as_str(), user) && !row.push_only && row.created_at >= since && self.is_audible(row)
    }

    /// Where the notifications stand that a player may see.
    fn visible_places(&self, user: &str, since: i64) -> (res: Vec<usize>)
        ensures
            forall|k: int| 0 <= k < res@.len() ==> (#[trigger] res@[k]) < self.notifications@.len(),
            res@.map_values(|i: usize| self.notifications@[i as int]@) == kept(
                self@.notifications,
                visible(self@, user@, since as int),
            ),
    {
        let ghost all = self@.notifications;
        let ghost test = visible(self@, user@, since as int);
        let ghost pick = |i: usize| self.notifications@[i as int]@;
        let mut places: Vec<usize> = Vec::new();
        let mut i: usize = 0;
        proof {
            assert(all.take(0) =~= Seq::<RowModel>::empty());
            assert(places@.map_values(pick) =~= Seq::<RowModel>::empty());
        }
        while i < self.notifications.len()
            invariant
                all == rows(self.notifications@),
                test == visible(self@, user@, since as int),
                pick == (|i: usize| self.notifications@[i as int]@),
                i <= self.notifications@.len(),
                forall|k: int| 0 <= k < places@.len() ==> (#[trigger] places@[k]) < self.notifications@.len(),
                places@.map_values(pick) == kept(all.take(i as int), test),
            decreases self.notifications@.len() - i,
        {
            let ghost places0 = places@;
            proof {
                assert(all.take(i + 1).drop_last() =~= all.take(i as int));
                assert(all.take(i + 1).last() == self.notifications@[i as int]@);
            }
            if self.is_visible(&self.notifications[i], user, since) {
                places.push(i);
                assert(places@.map_values(pick) =~= places0.map_values(pick).push(self.notifications@[i as int]@));
            }
            i = i + 1;
        }
        assert(all.take(i as int) =~= all);
        places
    }

    /// The inbox of a player: the latest notifications of the last week.
    pub fn notifications(&self, user: &str, now_ms: i64) -> (res: Vec<Notification>)
        requires
            fits(now_ms - INBOX_AGE_MS),
        ensures
            rows(res@) == inbox_of(self@, user@, now_ms as int),
    {
        let places = self.visible_places(user, now_ms - INBOX_AGE_MS);
        let ghost pick = |i: usize| self.notifications@[i as int]@;
        let ghost list = places@.map_values(pick);
        let ghost want = last_of(list, INBOX_LIMIT as nat);
        let mut i: usize = if places.len() > INBOX_LIMIT {
            places.len() - INBOX_LIMIT
        } else {
            0
        };
        let ghost start = i as int;
        let mut res: Vec<Notification> = Vec::new();
        proof {
            assert(want =~= list.skip(start));
            assert(rows(res@) =~= shown_all(self@, want.take(0), now_ms as int));
        }
        while i < places.len()
            invariant
                pick == (|i: usize| self.notifications@[i as int]@),
                list == places@.map_values(pick),
                want == list.skip(start),
                0 <= start <= i <= places@.len(),
                forall|k: int| 0 <= k < places@.len() ==> (#[trigger] places@[k]) < self.notifications@.len(),
                rows(res@) == shown_all(self@, want.take(i - start), now_ms as int),
            decreases places@.len() - i,
        {
            let at: usize = places[i];
            let item = self.show(&self.notifications[at], now_ms);
            let ghost shown_item = item@;
            let ghost before = rows(res@);
            proof {
                assert(want[i - start] == self.notifications@[at as int]@);
                assert(want.take(i + 1 - start) =~= want.take(i - start).push(want[i - start]));
            }
            append(&mut res, item);
            assert(rows(res@) =~= shown_all(self@, want.take(i + 1 - start), now_ms as int));
            i = i + 1;
        }
        assert(want.take(i - start) =~= want);
        res
    }
}

/// A page of what happened to a player.
#[derive(Clone, Debug)]
pub struct Activity {
    pub items: Vec<Notification>,
    pub unread_count: u64,
    pub action_count: u64,
    pub retention_days: u32,
    pub window_days: u32,
    pub next_before: Option<i64>,
}

/// Whether a notification comes before a number.
pub open spec fn is_before(before: Option<i64>) -> spec_fn(RowModel) -> bool {
    |r: RowModel| before matches Some(id) ==> r.id < id
}

/// Whether a notification has not been read.
pub open spec fn is_unread() -> spec_fn(RowModel) -> bool {
    |r: RowModel| r.read_at is None
}

/// Whether a notification waits for an answer.
pub open spec fn awaits(m: StoreModel, now: int) -> spec_fn(RowModel) -> bool {
    |r: RowModel| any(m.invitations, invites(r, now))
}

/// What happened to a player in some days: a page of it, the latest first, and
/// counts over all of it.
pub open spec fn shows_activity(
    v: Activity,
    m: StoreModel,
    user: Seq<char>,
    now: int,
    days: int,
    before: Option<i64>,
    limit: nat,
) -> bool {
    let window = kept(m.notifications, visible(m, user, now - days * 86_400_000));
    let page = kept(window, is_before(before)).reverse();
    &&& rows(v.items@) == shown_all(
        m,
        if page.len() > limit {
            page.take(limit as int)
        } else {
            page
        },
        now,
    )
    &&& v.unread_count == kept(window, is_unread()).len()
    &&& v.action_count == kept(window, awaits(m, now)).len()
    &&& v.retention_days == ACTIVITY_DAYS
    &&& v.window_days == days
    &&& opt_int(v.next_before) == if page.len() > limit && limit > 0 {
        Some(page[limit - 1].id)
    } else {
        None
    }
}

impl Store {
    /// What happened to a player in some days.
    pub fn activity(&self, user: &str, now_ms: i64, days: u32, before: Option<i64>, limit: u32) -> (res: Activity)
        requires
            fits(now_ms - days * 86_400_000),
        ensures
            shows_activity(res, self@, user@, now_ms as int, days as int, before, limit as nat),
    {
        let cutoff: i64 = now_ms - days as i64 * 86_400_000;
        let places = self.visible_places(user, cutoff);
        let ghost pick = |i: usize| self.notifications@[i as int]@;
        let ghost window = places@.map_values(pick);
        let ghost m = self@;
        let ghost page = kept(window, is_before(before)).reverse();
        let mut unread_count: u64 = 0;
        let mut action_count: u64 = 0;
        let mut on_page: Vec<usize> = Vec::new();
        let mut i: usize = 0;
        proof {
            assert(window.take(0) =~= Seq::<RowModel>::empty());
            assert(on_page@.map_values(pick) =~= Seq::<RowModel>::empty());
        }
        while i < places.len()
            invariant
                m == self@,
                pick == (|i: usize| self.notifications@[i as int]@),
                window == places@.map_values(pick),
                i <= places@.len(),
                forall|k: int| 0 <= k < places@.len() ==> (#[trigger] places@[k]) < self.notifications@.len(),
                forall|k: int| 0 <= k < on_page@.len() ==> (#[trigger] on_page@[k]) < self.notifications@.len(),
                unread_count <= i,
                action_count <= i,
                unread_count == kept(window.take(i as int), is_unread()).len(),
                action_count == kept(window.take(i as int), awaits(m, now_ms as int)).len(),
                on_page@.map_values(pick) == kept(window.take(i as int), is_before(before)),
            decreases places@.len() - i,
        {
            let at: usize = places[i];
            let ghost on_page0 = on_page@;
            proof {
                assert(window[i as int] == self.notifications@[at as int]@);
                assert(window.take(i + 1).drop_last() =~= window.take(i as int));
                assert(window.take(i + 1).last() == window[i as int]);
            }
            let row = &self.notifications[at];
            if row.read_at.is_none() {
                unread_count = unread_count + 1;
            }
            if self.needs_action(row, now_ms) {
                action_count = action_count + 1;
            }
            let earlier = match before {
                Some(id) => row.id < id,
                None => true,
            };
            if earlier {
                on_page.push(at);
                assert(on_page@.map_values(pick) =~= on_page0.map_values(pick).push(window[i as int]));
            }
            i = i + 1;
        }
        assert(window.take(i as int) =~= window);
        let mut items: Vec<Notification> = Vec::new();
        let mut left: usize = on_page.len();
        let mut next_before: Option<i64> = None;
        proof {
            assert(page.len() == on_page@.len());
            assert(rows(items@) =~= shown_all(m, page.take(0), now_ms as int));
        }
        while left > 0 && items.len() < limit as usize
            invariant
                m == self@,
                pick == (|i: usize| self.notifications@[i as int]@),
                page == on_page@.map_values(pick).reverse(),
                left <= on_page@.len(),
                items@.len() == on_page@.len() - left,
                items@.len() <= limit,
                forall|k: int| 0 <= k < on_page@.len() ==> (#[trigger] on_page@[k]) < self.notifications@.len(),
                rows(items@) == shown_all(m, page.take(items@.len() as int), now_ms as int),
                items@.len() > 0 ==> opt_int(next_before) == Some(page[items@.len() - 1].id),
                items@.len() == 0 ==> next_before is None,
            decreases left,
        {
            left = left - 1;
            let at: usize = on_page[left];
            let ghost n = items@.len() as int;
            proof {
                assert(page[n] == self.notifications@[at as int]@);
                assert(page.take(n + 1) =~= page.take(n).push(page[n]));
            }
            let item = self.show(&self.notifications[at], now_ms);
            append(&mut items, item);
            assert(rows(items@) =~= shown_all(m, page.take(n + 1), now_ms as int));
            next_before = Some(self.notifications[at].id);
        }
        if left == 0 {
            next_before = None;
            assert(page.take(items@.len() as int) =~= page);
        }
        Activity {
            items,
            unread_count,
            action_count,
            retention_days: ACTIVITY_DAYS,
            window_days: days,
            next_before,
        }
    }
}

/// Whether a notification of a player is still to be answered.
pub open spec fn answerable(user: Seq<char>, id: int) -> spec_fn(RowModel) -> bool {
    |r: RowModel|
        r.id == id && r.recipient == user && !r.replied && r.sender != ""@ && r.sender != user && !r.completion_cancelled
}

/// Whether a notification has a number.
pub open spec fn has_id(id: int) -> spec_fn(RowModel) -> bool {
    |r: RowModel| r.id == id
}

/// An answer, as it is stored.
pub open spec fn answer_row(
    m: StoreModel,
    to: Seq<char>,
    day: int,
    user: Seq<char>,
    display: Seq<char>,
    message: Seq<char>,
    now: int,
) -> RowModel {
    RowModel {
        id: m.next_id,
        recipient: to,
        sender: user,
        title: "💬 "@ + display,
        body: message,
        day,
        created_at: now,
        kind: "reply"@,
        pushed: false,
        push_only: false,
        retry_at: 0,
        push_attempts: 0,
        push_cancelled: false,
        completion_cancelled: false,
        replied: false,
        read_at: None,
        challenge_id: None,
    }
}

/// What is stored when a notification is answered, and who is told.
pub open spec fn answered(
    m: StoreModel,
    user: Seq<char>,
    display: Seq<char>,
    id: int,
    message: Seq<char>,
    now: int,
) -> (StoreModel, Option<Seq<char>>) {
    match first(m.notifications, answerable(user, id)) {
        None => (m, None),
        Some(i) => {
            let row = m.notifications[i];
            (
                StoreModel {
                    notifications: changed_where(m.notifications, has_id(id), Change::Answer).push(
                        answer_row(m, row.sender, row.day, user, display, message, now),
                    ),
                    next_id: m.next_id + 1,
                    ..m
                },
                Some(row.sender),
            )
        },
    }
}

/// Whether a nudge waits for a player who does not want nudges.
pub open spec fn orphaned_nudge(m: StoreModel) -> spec_fn(RowModel) -> bool {
    |r: RowModel|
        !r.pushed && !r.push_cancelled && r.kind == "nudge"@ && value_for(m.player_settings, r.recipient) != Some(true)
}

/// Whether a notification may be pushed now.
pub open spec fn ready(m: StoreModel, now: int) -> spec_fn(RowModel) -> bool {
    |r: RowModel|
        !r.pushed && !r.push_cancelled && r.retry_at <= now && audible(m, r) && r.created_at >= now - INBOX_AGE_MS
}

/// Whether a notification of a number may be tried now. A nudge may only while
/// its recipient wants nudges.
pub open spec fn attemptable(m: StoreModel, id: int, now: int) -> spec_fn(RowModel) -> bool {
    |r: RowModel|
        r.id == id && ready(m, now)(r) && (r.kind != "nudge"@ || value_for(m.player_settings, r.recipient) == Some(true))
}

/// Whether a notification of a number has not been pushed.
pub open spec fn unpushed(id: int) -> spec_fn(RowModel) -> bool {
    |r: RowModel| r.id == id && !r.pushed
}

/// Whether a notification of a number is a streak warning outside the inbox.
pub open spec fn is_warning(id: int) -> spec_fn(RowModel) -> bool {
    |r: RowModel| r.id == id && r.push_only && r.kind == "risk"@
}

/// Whether a notification is anything else.
pub open spec fn not_warning(id: int) -> spec_fn(RowModel) -> bool {
    |r: RowModel| !is_warning(id)(r)
}

/// What is stored after a notification was tried, where it might be.
pub open spec fn attempted(m: StoreModel, id: int, now: int) -> StoreModel {
    StoreModel {
        notifications: changed_where(
            m.notifications,
            attemptable(m, id, now),
            Change::Attempt((now + PUSH_LEASE_MS) as i64),
        ),
        ..m
    }
}

/// What is stored after an attempt went well, or failed.
pub open spec fn finished(m: StoreModel, id: int, succeeded: bool, now: int) -> StoreModel {
    match first(m.notifications, has_id(id)) {
        None => m,
        Some(i) => StoreModel {
            notifications: changed_where(
                m.notifications,
                unpushed(id),
                Change::Finish(succeeded, (now + backoff(m.notifications[i].push_attempts)) as i64),
            ),
            ..m
        },
    }
}

/// How long to wait after so many attempts: twenty seconds, twice as long after
/// each further one, and a quarter of an hour at most.
pub open spec fn backoff(attempts: nat) -> int
    decreases attempts,
{
    if attempts <= 1 {
        20_000
    } else if 2 * backoff((attempts - 1) as nat) > 900_000 {
        900_000
    } else {
        2 * backoff((attempts - 1) as nat)
    }
}

/// The wait grows with the attempts, from twenty seconds to a quarter of an
/// hour.
pub proof fn law_backoff_grows(attempts: nat)
    ensures
        20_000 <= backoff(attempts) <= backoff(attempts + 1) <= 900_000,
        attempts >= 7 ==> backoff(attempts) == 900_000,
    decreases attempts,
{
    if attempts > 1 {
        law_backoff_grows((attempts - 1) as nat);
        reveal_with_fuel(backoff, 8);
    }
}

fn wait_after(attempts: u32) -> (res: i64)
    ensures
        res == backoff(attempts as nat),
        20_000 <= res <= 900_000,
{
    let mut wait: i64 = 20_000;
    let mut n: u32 = 1;
    while n < attempts && wait < 900_000
        invariant
            1 <= n,
            n <= attempts || n == 1,
            wait == backoff(n as nat),
            20_000 <= wait <= 900_000,
        decreases attempts - n,
    {
        wait = if 2 * wait > 900_000 {
            900_000
        } else {
            2 * wait
        };
        n = n + 1;
    }
    proof {
        if n < attempts {
            lemma_backoff_stays(n as nat, attempts as nat);
        }
    }
    wait
}

proof fn lemma_backoff_stays(a: nat, b: nat)
    requires
        1 <= a <= b,
        backoff(a) == 900_000,
    ensures
        backoff(b) == 900_000,
    decreases b,
{
    if a < b {
        lemma_backoff_stays(a, (b - 1) as nat);
    }
}

proof fn lemma_kept_numbered(list: Seq<RowModel>, test: spec_fn(RowModel) -> bool, next: int)
    requires
        numbered(list, next),
    ensures
        numbered(kept(list, test), next),
    decreases list.len(),
{
    if list.len() > 0 {
        let init = list.drop_last();
        assert(numbered(init, next)) by {
            assert forall|a: int, b: int| 0 <= a < b < init.len() implies (#[trigger] init[a]).id < (#[trigger] init[b]).id by {
                assert(list[a].id < list[b].id);
            }
            assert forall|a: int| 0 <= a < init.len() implies (#[trigger] init[a]).id < next by {
                assert(list[a].id < next);
            }
        }
        lemma_kept_numbered(init, test, next);
        lemma_kept(init, test);
        let k = kept(list, test);
        let k0 = kept(init, test);
        assert forall|a: int, b: int| 0 <= a < b < k.len() implies (#[trigger] k[a]).id < (#[trigger] k[b]).id by {
            if b == k0.len() {
                assert(k0.contains(k[a]));
                let p = choose|p: int| 0 <= p < init.len() && init[p] == k[a];
                assert(list[p].id < list[list.len() - 1].id);
            } else {
                assert(k0[a].id < k0[b].id);
            }
        }
        assert forall|a: int| 0 <= a < k.len() implies (#[trigger] k[a]).id < next by {
            if a < k0.len() {
                assert(k0[a].id < next);
            } else {
                assert(list[list.len() - 1].id < next);
            }
        }
    }
}

impl Store {
    /// Answers one notification, once, and lets the answer be answered in turn.
    /// Returns who heard it, or `None` when there is nothing left to reply to.
    pub fn reply(&mut self, user: &str, display: &str, id: i64, message: &str, now_ms: i64) -> (res: Option<String>)
        requires
            old(self).next_id < i64::MAX,
        ensures
            final(self)@ == answered(old(self)@, user@, display@, id as int, message@, now_ms as int).0,
            crate::feedback::opt_text(res) == answered(
                old(self)@,
                user@,
                display@,
                id as int,
                message@,
                now_ms as int,
            ).1,
            old(self).wf() ==> final(self).wf(),
    {
        let ghost before = self@;
        let is_it = |r: &NoticeRow| -> (b: bool)
            ensures
                b == answerable(user@, id as int)(r@),
        {
            r.id == id && same(r.recipient.as_str(), user) && !r.replied && !same(r.sender.as_str(), "") && !same(
                r.sender.as_str(),
                user,
            ) && !r.completion_cancelled
        };
        match find(&self.notifications, is_it, Ghost(answerable(user@, id as int))) {
            None => None,
            Some(i) => {
                let sender = self.notifications[i].sender.clone();
                let day: i64 = self.notifications[i].day;
                let of_id = |r: &NoticeRow| -> (b: bool)
                    ensures
                        b == has_id(id as int)(r@),
                {
                    r.id == id
                };
                change_rows(&mut self.notifications, of_id, Ghost(has_id(id as int)), Change::Answer);
                let row = NoticeRow {
                    id: self.next_id,
                    recipient: sender.clone(),
                    sender: user.to_owned(),
                    title: joined("💬 ", display),
                    body: message.to_owned(),
                    day,
                    created_at: now_ms,
                    kind: "reply".to_owned(),
                    pushed: false,
                    push_only: false,
                    retry_at: 0,
                    push_attempts: 0,
                    push_cancelled: false,
                    completion_cancelled: false,
                    replied: false,
                    read_at: None,
                    challenge_id: None,
                };
                append(&mut self.notifications, row);
                self.next_id = self.next_id + 1;
                assert(self@ =~= answered(before, user@, display@, id as int, message@, now_ms as int).0);
                Some(sender)
            },
        }
    }

    fn is_ready(&self, row: &NoticeRow, now_ms: i64) -> (res: bool)
        requires
            fits(now_ms - INBOX_AGE_MS),
        ensures
            res == ready(self@, now_ms as int)(row@),
    {
        !row.pushed && !row.push_cancelled && row.retry_at <= now_ms && self.is_audible(row) && row.created_at >= now_ms
            - INBOX_AGE_MS
    }

    /// Lease only the message about to be attempted. A stopped worker is retried
    /// after a minute, while unattempted messages stay available to the next tick.
    pub fn begin_push(&mut self, id: i64, now_ms: i64) -> (res: bool)
        requires
            fits(now_ms - INBOX_AGE_MS),
            fits(now_ms + PUSH_LEASE_MS),
        ensures
            res == any(old(self)@.notifications, attemptable(old(self)@, id as int, now_ms as int)),
            final(self)@ == attempted(old(self)@, id as int, now_ms as int),
            old(self).wf() ==> final(self).wf(),
    {
        let ghost m = self@;
        let ghost test = attemptable(m, id as int, now_ms as int);
        let mut hits: Vec<bool> = Vec::new();
        let mut found = false;
        let mut i: usize = 0;
        let change = Change::Attempt(now_ms + PUSH_LEASE_MS);
        let ghost want = changed_where(m.notifications, test, change);
        while i < self.notifications.len()
            invariant
                m == self@,
                test == attemptable(m, id as int, now_ms as int),
                fits(now_ms - INBOX_AGE_MS),
                i <= self.notifications@.len(),
                hits@.len() == i,
                forall|k: int| 0 <= k < i ==> (#[trigger] hits@[k]) == test(m.notifications[k]),
                found == exists|k: int| 0 <= k < i && test(#[trigger] m.notifications[k]),
            decreases self.notifications@.len() - i,
        {
            let row = &self.notifications[i];
            assert(m.notifications[i as int] == self.notifications@[i as int]@);
            let hit = row.id == id && self.is_ready(row, now_ms) && (!same(row.kind.as_str(), "nudge")
                || self.nudges_enabled(row.recipient.as_str()));
            hits.push(hit);
            found = found || hit;
            i = i + 1;
        }
        let mut k: usize = 0;
        while k < self.notifications.len()
            invariant
                m.notifications.len() == self.notifications@.len() == hits@.len(),
                want == changed_where(m.notifications, test, change),
                forall|j: int| 0 <= j < hits@.len() ==> (#[trigger] hits@[j]) == test(m.notifications[j]),
                k <= self.notifications@.len(),
                forall|j: int| 0 <= j < k ==> (#[trigger] self.notifications@[j])@ == want[j],
                forall|j: int| k <= j < self.notifications@.len() ==> (#[trigger] self.notifications@[j])@
                    == m.notifications[j],
                self@ == (StoreModel { notifications: self@.notifications, ..m }),
            decreases self.notifications@.len() - k,
        {
            assert(self.notifications@[k as int]@ == m.notifications[k as int]);
            if hits[k] {
                let mut row = self.notifications.remove(k);
                apply(&mut row, change);
                self.notifications.insert(k, row);
                assert(self@ =~= (StoreModel { notifications: self@.notifications, ..m }));
            }
            k = k + 1;
        }
        proof {
            assert(self@.notifications =~= want);
            lemma_changed_numbered(m.notifications, test, change, m.next_id);
        }
        found
    }

    /// Wait a minute before a message is tried again.
    pub fn defer_push(&mut self, id: i64, now_ms: i64)
        requires
            fits(now_ms + PUSH_LEASE_MS),
        ensures
            final(self)@ == (StoreModel {
                notifications: changed_where(
                    old(self)@.notifications,
                    unpushed(id as int),
                    Change::Defer((now_ms + PUSH_LEASE_MS) as i64),
                ),
                ..old(self)@
            }),
            old(self).wf() ==> final(self).wf(),
    {
        let ghost before = self@;
        let is_it = |r: &NoticeRow| -> (b: bool)
            ensures
                b == unpushed(id as int)(r@),
        {
            r.id == id && !r.pushed
        };
        let change = Change::Defer(now_ms + PUSH_LEASE_MS);
        change_rows(&mut self.notifications, is_it, Ghost(unpushed(id as int)), change);
        assert(self@ =~= (StoreModel {
            notifications: changed_where(before.notifications, unpushed(id as int), change),
            ..before
        }));
    }

    /// Nudges that were queued before their player opted out stay in the inbox
    /// and are not pushed, even when the player opts in again.
    pub fn retire_nudges(&mut self)
        ensures
            final(self)@ == (StoreModel {
                notifications: changed_where(old(self)@.notifications, orphaned_nudge(old(self)@), Change::CancelPush),
                ..old(self)@
            }),
            old(self).wf() ==> final(self).wf(),
    {
        let ghost before = self@;
        let ghost test = orphaned_nudge(before);
        let settings = &self.player_settings;
        let is_orphaned = |r: &NoticeRow| -> (b: bool)
            ensures
                b == test(r@),
        {
            !r.pushed && !r.push_cancelled && same(r.kind.as_str(), "nudge") && !wants_nudges(settings, r.recipient.as_str())
        };
        change_rows(&mut self.notifications, is_orphaned, Ghost(test), Change::CancelPush);
        assert(self@ =~= (StoreModel {
            notifications: changed_where(before.notifications, test, Change::CancelPush),
            ..before
        }));
    }

    /// Leave a notification of a number in the inbox, and do not push it any
    /// more.
    pub fn cancel_push(&mut self, id: i64)
        ensures
            final(self)@ == (StoreModel {
                notifications: changed_where(old(self)@.notifications, has_id(id as int), Change::CancelPush),
                ..old(self)@
            }),
            old(self).wf() ==> final(self).wf(),
    {
        let ghost before = self@;
        let of_id = |r: &NoticeRow| -> (b: bool)
            ensures
                b == has_id(id as int)(r@),
        {
            r.id == id
        };
        change_rows(&mut self.notifications, of_id, Ghost(has_id(id as int)), Change::CancelPush);
        assert(self@ =~= (StoreModel {
            notifications: changed_where(before.notifications, has_id(id as int), Change::CancelPush),
            ..before
        }));
    }

    /// Discard a streak warning that is out of date. A message in the player's
    /// inbox is never deleted, and the seen key is kept.
    pub fn cancel_streak_warning(&mut self, id: i64)
        ensures
            final(self)@ == (StoreModel {
                notifications: kept(old(self)@.notifications, not_warning(id as int)),
                ..old(self)@
            }),
            old(self).wf() ==> final(self).wf(),
    {
        let ghost before = self@;
        let stays = |r: &NoticeRow| -> (b: bool)
            ensures
                b == not_warning(id as int)(r@),
        {
            !(r.id == id && r.push_only && same(r.kind.as_str(), "risk"))
        };
        retain(&mut self.notifications, stays, Ghost(not_warning(id as int)));
        proof {
            assert(self@ =~= (StoreModel { notifications: kept(before.notifications, not_warning(id as int)), ..before }));
            if sound(before) {
                lemma_kept_numbered(before.notifications, not_warning(id as int), before.next_id);
            }
        }
    }

    /// Note how an attempt went. After a failure the message is tried again,
    /// later each time.
    pub fn finish_push(&mut self, id: i64, succeeded: bool, now_ms: i64) -> (res: Result<(), StoreError>)
        requires
            fits(now_ms + 900_000),
        ensures
            res == (if any(old(self)@.notifications, has_id(id as int)) {
                Ok::<(), StoreError>(())
            } else {
                Err::<(), StoreError>(StoreError::NoNotification)
            }),
            final(self)@ == finished(old(self)@, id as int, succeeded, now_ms as int),
            old(self).wf() ==> final(self).wf(),
    {
        let ghost before = self@;
        proof {
            lemma_first(before.notifications, has_id(id as int));
        }
        let of_id = |r: &NoticeRow| -> (b: bool)
            ensures
                b == has_id(id as int)(r@),
        {
            r.id == id
        };
        match find(&self.notifications, of_id, Ghost(has_id(id as int))) {
            None => Err(StoreError::NoNotification),
            Some(i) => {
                let wait: i64 = wait_after(self.notifications[i].push_attempts);
                let change = Change::Finish(succeeded, now_ms + wait);
                let is_it = |r: &NoticeRow| -> (b: bool)
                    ensures
                        b == unpushed(id as int)(r@),
                {
                    r.id == id && !r.pushed
                };
                change_rows(&mut self.notifications, is_it, Ghost(unpushed(id as int)), change);
                assert(self@ =~= (StoreModel {
                    notifications: changed_where(before.notifications, unpushed(id as int), change),
                    ..before
                }));
                Ok(())
            },
        }
    }
}

proof fn lemma_changed_numbered(list: Seq<RowModel>, test: spec_fn(RowModel) -> bool, c: Change, next: int)
    ensures
        numbered(list, next) ==> numbered(changed_where(list, test, c), next),
{
    if numbered(list, next) {
        let want = changed_where(list, test, c);
        assert forall|a: int, b: int| 0 <= a < b < want.len() implies (#[trigger] want[a]).id < (#[trigger] want[b]).id by {
            assert(list[a].id < list[b].id);
        }
        assert forall|a: int| 0 <= a < want.len() implies (#[trigger] want[a]).id < next by {
            assert(list[a].id < next);
        }
    }
}

/// How many notifications are handed out in one batch.
pub const BATCH: usize = 100;

/// Whether a notification is not too old to be kept.
pub open spec fn recent(now: int) -> spec_fn(RowModel) -> bool {
    |r: RowModel| r.created_at >= now - ACTIVITY_AGE_MS
}

/// What is stored without what is too old.
pub open spec fn without_old(m: StoreModel, now: int) -> StoreModel {
    StoreModel { notifications: kept(m.notifications, recent(now)), ..m }
}

/// Whether a notification comes before another one of the same recipient.
pub open spec fn sooner(r: RowModel) -> spec_fn(RowModel) -> bool {
    |q: RowModel|
        q.recipient == r.recipient && (q.retry_at < r.retry_at || (q.retry_at == r.retry_at && q.id < r.id))
}

/// How many notifications of the same recipient come before this one.
pub open spec fn turn(waiting: Seq<RowModel>, r: RowModel) -> nat {
    kept(waiting, sooner(r)).len()
}

/// When a recipient was tried last, as far as that is known: the latest time
/// before which a notification that was tried is not to be tried again.
pub open spec fn last_retry(list: Seq<RowModel>, recipient: Seq<char>) -> Option<int>
    decreases list.len(),
{
    if list.len() == 0 {
        None
    } else {
        let before = last_retry(list.drop_last(), recipient);
        let r = list.last();
        if r.recipient == recipient && r.push_attempts > 0 {
            match before {
                Some(at) if at > r.retry_at => Some(at),
                _ => Some(r.retry_at),
            }
        } else {
            before
        }
    }
}

/// By what deliveries are ordered: first those next in turn of each recipient,
/// and among these the recipients who were tried longest ago.
pub struct Urgency {
    pub turn: int,
    pub last: int,
    pub retry_at: int,
    pub id: int,
}

pub open spec fn urgency(list: Seq<RowModel>, waiting: Seq<RowModel>, r: RowModel) -> Urgency {
    Urgency {
        turn: turn(waiting, r) as int,
        last: match last_retry(list, r.recipient) {
            Some(at) => at,
            None => 0,
        },
        retry_at: r.retry_at,
        id: r.id,
    }
}

/// Whether something is more urgent.
pub open spec fn more_urgent(a: Urgency, b: Urgency) -> bool {
    a.turn < b.turn || (a.turn == b.turn && (a.last < b.last || (a.last == b.last && (a.retry_at < b.retry_at || (
    a.retry_at == b.retry_at && a.id < b.id)))))
}

/// Whether a batch holds the most urgent of the notifications that may be
/// pushed, in order.
pub open spec fn is_batch(batch: Seq<RowModel>, list: Seq<RowModel>, waiting: Seq<RowModel>) -> bool {
    &&& batch.len() == if waiting.len() > BATCH {
        BATCH as nat
    } else {
        waiting.len()
    }
    &&& forall|i: int| 0 <= i < batch.len() ==> waiting.contains(#[trigger] batch[i])
    &&& forall|i: int, j: int|
        0 <= i < j < batch.len() ==> more_urgent(
            urgency(list, waiting, #[trigger] batch[i]),
            urgency(list, waiting, #[trigger] batch[j]),
        )
    &&& forall|r: RowModel, i: int|
        waiting.contains(r) && !batch.contains(r) && 0 <= i < batch.len() ==> more_urgent(
            urgency(list, waiting, #[trigger] batch[i]),
            #[trigger] urgency(list, waiting, r),
        )
}

/// Whether a batch is what is handed out at a time, once what is too old is
/// gone.
pub open spec fn hands_out(m: StoreModel, batch: Seq<RowModel>, now: int) -> bool {
    let rest = without_old(m, now);
    is_batch(batch, rest.notifications, kept(rest.notifications, ready(rest, now)))
}

/// A notification on its way to a player.
#[derive(Clone, Debug)]
pub struct Delivery {
    pub user: String,
    pub notification: Notification,
}

impl View for Delivery {
    type V = (Seq<char>, NotificationModel);

    open spec fn view(&self) -> (Seq<char>, NotificationModel) {
        (self.user@, self.notification@)
    }
}

/// A batch as it is handed out.
pub open spec fn handed_out(batch: Seq<RowModel>) -> Seq<(Seq<char>, NotificationModel)> {
    batch.map_values(|r: RowModel| (r.recipient, delivered(r)))
}

struct Candidate {
    at: usize,
    turn: usize,
    last: i64,
    retry_at: i64,
    id: i64,
}

impl Candidate {
    spec fn urgency(self) -> Urgency {
        Urgency { turn: self.turn as int, last: self.last as int, retry_at: self.retry_at as int, id: self.id as int }
    }
}

fn beats(a: &Candidate, b: &Candidate) -> (res: bool)
    ensures
        res == more_urgent(a.urgency(), b.urgency()),
{
    a.turn < b.turn || (a.turn == b.turn && (a.last < b.last || (a.last == b.last && (a.retry_at < b.retry_at || (
    a.retry_at == b.retry_at && a.id < b.id)))))
}

impl Store {
    /// Where the notifications stand that may be pushed.
    fn ready_places(&self, now_ms: i64) -> (res: Vec<usize>)
        requires
            fits(now_ms - INBOX_AGE_MS),
        ensures
            forall|k: int| 0 <= k < res@.len() ==> (#[trigger] res@[k]) < self.notifications@.len(),
            forall|a: int, b: int| 0 <= a < b < res@.len() ==> (#[trigger] res@[a]) < (#[trigger] res@[b]),
            res@.map_values(|i: usize| self.notifications@[i as int]@) == kept(
                self@.notifications,
                ready(self@, now_ms as int),
            ),
    {
        let ghost all = self@.notifications;
        let ghost test = ready(self@, now_ms as int);
        let ghost pick = |i: usize| self.notifications@[i as int]@;
        let mut places: Vec<usize> = Vec::new();
        let mut i: usize = 0;
        proof {
            assert(all.take(0) =~= Seq::<RowModel>::empty());
            assert(places@.map_values(pick) =~= Seq::<RowModel>::empty());
        }
        while i < self.notifications.len()
            invariant
                all == rows(self.notifications@),
                test == ready(self@, now_ms as int),
                fits(now_ms - INBOX_AGE_MS),
                pick == (|i: usize| self.notifications@[i as int]@),
                i <= self.notifications@.len(),
                forall|k: int| 0 <= k < places@.len() ==> (#[trigger] places@[k]) < i,
                forall|a: int, b: int| 0 <= a < b < places@.len() ==> (#[trigger] places@[a]) < (#[trigger] places@[b]),
                places@.map_values(pick) == kept(all.take(i as int), test),
            decreases self.notifications@.len() - i,
        {
            let ghost places0 = places@;
            proof {
                assert(all.take(i + 1).drop_last() =~= all.take(i as int));
                assert(all.take(i + 1).last() == self.notifications@[i as int]@);
            }
            if self.is_ready(&self.notifications[i], now_ms) {
                places.push(i);
                assert(places@.map_values(pick) =~= places0.map_values(pick).push(self.notifications@[i as int]@));
            }
            i = i + 1;
        }
        assert(all.take(i as int) =~= all);
        places
    }

    fn turn_of(&self, places: &Vec<usize>, at: usize) -> (res: usize)
        requires
            at < self.notifications@.len(),
            forall|k: int| 0 <= k < places@.len() ==> (#[trigger] places@[k]) < self.notifications@.len(),
        ensures
            res == turn(
                places@.map_values(|i: usize| self.notifications@[i as int]@),
                self.notifications@[at as int]@,
            ),
    {
        let ghost pick = |i: usize| self.notifications@[i as int]@;
        let ghost waiting = places@.map_values(pick);
        let row = &self.notifications[at];
        let ghost test = sooner(row@);
        let mut n: usize = 0;
        let mut i: usize = 0;
        assert(waiting.take(0) =~= Seq::<RowModel>::empty());
        while i < places.len()
            invariant
                pick == (|i: usize| self.notifications@[i as int]@),
                waiting == places@.map_values(pick),
                test == sooner(row@),
                i <= places@.len(),
                forall|k: int| 0 <= k < places@.len() ==> (#[trigger] places@[k]) < self.notifications@.len(),
                n <= i,
                n == kept(waiting.take(i as int), test).len(),
            decreases places@.len() - i,
        {
            let q = &self.notifications[places[i]];
            proof {
                assert(waiting[i as int] == q@);
                assert(waiting.take(i + 1).drop_last() =~= waiting.take(i as int));
                assert(waiting.take(i + 1).last() == q@);
            }
            if same(q.recipient.as_str(), row.recipient.as_str()) && (q.retry_at < row.retry_at || (q.retry_at
                == row.retry_at && q.id < row.id)) {
                n = n + 1;
            }
            i = i + 1;
        }
        assert(waiting.take(i as int) =~= waiting);
        n
    }

    fn last_retry_of(&self, recipient: &str) -> (res: i64)
        ensures
            res == (match last_retry(self@.notifications, recipient@) {
                Some(at) => at,
                None => 0,
            }),
    {
        let ghost all = self@.notifications;
        let mut last: Option<i64> = None;
        let mut i: usize = 0;
        assert(all.take(0) =~= Seq::<RowModel>::empty());
        while i < self.notifications.len()
            invariant
                all == rows(self.notifications@),
                i <= self.notifications@.len(),
                opt_int(last) == last_retry(all.take(i as int), recipient@),
            decreases self.notifications@.len() - i,
        {
            let r = &self.notifications[i];
            proof {
                assert(all.take(i + 1).drop_last() =~= all.take(i as int));
                assert(all.take(i + 1).last() == r@);
            }
            if same(r.recipient.as_str(), recipient) && r.push_attempts > 0 {
                last = match last {
                    Some(at) => if at > r.retry_at {
                        Some(at)
                    } else {
                        Some(r.retry_at)
                    },
                    None => Some(r.retry_at),
                };
            }
            i = i + 1;
        }
        assert(all.take(i as int) =~= all);
        match last {
            Some(at) => at,
            None => 0,
        }
    }
}

/// The most urgent of some candidates.
fn most_urgent(list: &Vec<Candidate>) -> (res: usize)
    requires
        list@.len() > 0,
        forall|i: int, j: int| 0 <= i < j < list@.len() ==> (#[trigger] list@[i]).id != (#[trigger] list@[j]).id,
    ensures
        res < list@.len(),
        forall|k: int|
            0 <= k < list@.len() && k != res ==> more_urgent(list@[res as int].urgency(), (#[trigger] list@[k]).urgency()),
{
    let mut best: usize = 0;
    let mut i: usize = 1;
    while i < list.len()
        invariant
            0 <= best < i <= list@.len(),
            forall|a: int, b: int| 0 <= a < b < list@.len() ==> (#[trigger] list@[a]).id != (#[trigger] list@[b]).id,
            forall|k: int|
                0 <= k < i && k != best ==> more_urgent(list@[best as int].urgency(), (#[trigger] list@[k]).urgency()),
        decreases list@.len() - i,
    {
        assert(list@[best as int].id != list@[i as int].id);
        if beats(&list[i], &list[best]) {
            best = i;
        }
        i = i + 1;
    }
    best
}

impl Store {
    fn candidates(&self, places: &Vec<usize>, Ghost(now): Ghost<int>) -> (res: Vec<Candidate>)
        requires
            self.wf(),
            forall|k: int| 0 <= k < places@.len() ==> (#[trigger] places@[k]) < self.notifications@.len(),
            forall|a: int, b: int| 0 <= a < b < places@.len() ==> (#[trigger] places@[a]) < (#[trigger] places@[b]),
            places@.map_values(|i: usize| self.notifications@[i as int]@) == kept(self@.notifications, ready(self@, now)),
        ensures
            res@.len() == places@.len(),
            forall|k: int|
                0 <= k < res@.len() ==> (#[trigger] res@[k]).at == places@[k] && res@[k].id == self.notifications@[places@[k] as int].id
                    && res@[k].urgency() == urgency(
                    self@.notifications,
                    kept(self@.notifications, ready(self@, now)),
                    self.notifications@[places@[k] as int]@,
                ),
            forall|a: int, b: int| 0 <= a < b < res@.len() ==> (#[trigger] res@[a]).id != (#[trigger] res@[b]).id,
    {
        let ghost waiting = kept(self@.notifications, ready(self@, now));
        let mut list: Vec<Candidate> = Vec::new();
        let mut i: usize = 0;
        while i < places.len()
            invariant
                self.wf(),
                waiting == kept(self@.notifications, ready(self@, now)),
                places@.map_values(|i: usize| self.notifications@[i as int]@) == waiting,
                forall|k: int| 0 <= k < places@.len() ==> (#[trigger] places@[k]) < self.notifications@.len(),
                forall|a: int, b: int| 0 <= a < b < places@.len() ==> (#[trigger] places@[a]) < (#[trigger] places@[b]),
                i <= places@.len(),
                list@.len() == i,
                forall|k: int|
                    0 <= k < i ==> (#[trigger] list@[k]).at == places@[k] && list@[k].id == self.notifications@[places@[k] as int].id
                        && list@[k].urgency() == urgency(
                        self@.notifications,
                        waiting,
                        self.notifications@[places@[k] as int]@,
                    ),
            decreases places@.len() - i,
        {
            let at: usize = places[i];
            let row = &self.notifications[at];
            list.push(
                Candidate {
                    at,
                    turn: self.turn_of(places, at),
                    last: self.last_retry_of(row.recipient.as_str()),
                    retry_at: row.retry_at,
                    id: row.id,
                },
            );
            i = i + 1;
        }
        proof {
            assert forall|a: int, b: int| 0 <= a < b < list@.len() implies (#[trigger] list@[a]).id != (#[trigger] list@[b]).id by {
                assert(places@[a] < places@[b]);
                assert(self@.notifications[places@[a] as int].id < self@.notifications[places@[b] as int].id);
            }
        }
        list
    }

    /// Read a bounded batch, leaving it pending until the push service confirms success.
    /// Retry times put newly queued messages ahead of previously failed pushes.
    pub fn take_deck_deliveries(&mut self, now_ms: i64) -> (res: Vec<Delivery>)
        requires
            old(self).wf(),
            fits(now_ms - ACTIVITY_AGE_MS),
            fits(now_ms - INBOX_AGE_MS),
        ensures
            final(self)@ == without_old(old(self)@, now_ms as int),
            final(self).wf(),
            exists|batch: Seq<RowModel>|
                rows(res@) == #[trigger] handed_out(batch) && hands_out(old(self)@, batch, now_ms as int),
    {
        let ghost before = self@;
        let cutoff: i64 = now_ms - ACTIVITY_AGE_MS;
        let stays = |r: &NoticeRow| -> (b: bool)
            ensures
                b == recent(now_ms as int)(r@),
        {
            r.created_at >= cutoff
        };
        retain(&mut self.notifications, stays, Ghost(recent(now_ms as int)));
        proof {
            assert(self@ =~= without_old(before, now_ms as int));
            lemma_kept_numbered(before.notifications, recent(now_ms as int), before.next_id);
        }
        let ghost list = self@.notifications;
        let ghost waiting = kept(list, ready(self@, now_ms as int));
        let places = self.ready_places(now_ms);
        assert(waiting.len() == places@.len());
        let mut pool = self.candidates(&places, Ghost(now_ms as int));
        let ghost row_of = |c: Candidate| self.notifications@[c.at as int]@;
        let mut res: Vec<Delivery> = Vec::new();
        let ghost mut batch: Seq<RowModel> = Seq::empty();
        proof {
            assert(rows(res@) =~= handed_out(batch));
            assert forall|k: int| 0 <= k < pool@.len() implies waiting.contains(row_of(#[trigger] pool@[k])) by {
                assert(waiting[k] == row_of(pool@[k]));
            }
            assert forall|r: RowModel| #[trigger] waiting.contains(r) implies exists|k: int|
                0 <= k < pool@.len() && row_of(#[trigger] pool@[k]) == r by {
                let k = choose|k: int| 0 <= k < waiting.len() && waiting[k] == r;
                assert(row_of(pool@[k]) == r);
            }
        }
        while pool.len() > 0 && res.len() < BATCH
            invariant
                list == self@.notifications,
                row_of == (|c: Candidate| self.notifications@[c.at as int]@),
                res@.len() == batch.len(),
                res@.len() + pool@.len() == waiting.len(),
                res@.len() <= BATCH,
                rows(res@) == handed_out(batch),
                forall|k: int|
                    0 <= k < pool@.len() ==> (#[trigger] pool@[k]).at < self.notifications@.len() && pool@[k].urgency()
                        == urgency(list, waiting, row_of(pool@[k])),
                forall|a: int, b: int| 0 <= a < b < pool@.len() ==> (#[trigger] pool@[a]).id != (#[trigger] pool@[b]).id,
                forall|k: int| 0 <= k < pool@.len() ==> waiting.contains(row_of(#[trigger] pool@[k])),
                forall|r: RowModel| #[trigger]
                    waiting.contains(r) ==> batch.contains(r) || exists|k: int|
                        0 <= k < pool@.len() && row_of(#[trigger] pool@[k]) == r,
                forall|i: int| 0 <= i < batch.len() ==> waiting.contains(#[trigger] batch[i]),
                forall|i: int, j: int|
                    0 <= i < j < batch.len() ==> more_urgent(
                        urgency(list, waiting, #[trigger] batch[i]),
                        urgency(list, waiting, #[trigger] batch[j]),
                    ),
                forall|i: int, k: int|
                    0 <= i < batch.len() && 0 <= k < pool@.len() ==> more_urgent(
                        urgency(list, waiting, #[trigger] batch[i]),
                        (#[trigger] pool@[k]).urgency(),
                    ),
            decreases pool@.len(),
        {
            let best: usize = most_urgent(&pool);
            let ghost pool0 = pool@;
            let ghost batch0 = batch;
            let chosen = pool.remove(best);
            let row = &self.notifications[chosen.at];
            let delivery = Delivery { user: row.recipient.clone(), notification: deliver(row) };
            append(&mut res, delivery);
            proof {
                let r = row_of(pool0[best as int]);
                batch = batch0.push(r);
                assert(handed_out(batch) =~= handed_out(batch0).push((r.recipient, delivered(r))));
                assert forall|k: int| 0 <= k < pool@.len() implies #[trigger] pool@[k] == pool0[if k < best { k } else { k + 1 }] by {
                }
                assert forall|x: RowModel| #[trigger] waiting.contains(x) implies batch.contains(x) || exists|k: int|
                    0 <= k < pool@.len() && row_of(#[trigger] pool@[k]) == x by {
                    if batch0.contains(x) {
                        let i = choose|i: int| 0 <= i < batch0.len() && batch0[i] == x;
                        assert(batch[i] == x);
                    } else {
                        let k = choose|k: int| 0 <= k < pool0.len() && row_of(#[trigger] pool0[k]) == x;
                        if k == best {
                            assert(batch[batch0.len() as int] == x);
                        } else {
                            let k1 = if k < best { k } else { k - 1 };
                            assert(row_of(pool@[k1]) == x);
                        }
                    }
                }
                assert forall|i: int, k: int| 0 <= i < batch.len() && 0 <= k < pool@.len() implies more_urgent(
                    urgency(list, waiting, #[trigger] batch[i]),
                    (#[trigger] pool@[k]).urgency(),
                ) by {
                    let k0 = if k < best { k } else { k + 1 };
                    assert(pool@[k] == pool0[k0]);
                    if i < batch0.len() {
                        assert(more_urgent(urgency(list, waiting, batch0[i]), pool0[k0].urgency()));
                    } else {
                        assert(more_urgent(pool0[best as int].urgency(), pool0[k0].urgency()));
                    }
                }
                assert forall|i: int, j: int| 0 <= i < j < batch.len() implies more_urgent(
                    urgency(list, waiting, #[trigger] batch[i]),
                    urgency(list, waiting, #[trigger] batch[j]),
                ) by {
                    if j == batch0.len() {
                        assert(more_urgent(urgency(list, waiting, batch0[i]), pool0[best as int].urgency()));
                    } else {
                        assert(more_urgent(urgency(list, waiting, batch0[i]), urgency(list, waiting, batch0[j])));
                    }
                }
                assert(waiting.contains(row_of(pool0[best as int])));
            }
        }
        proof {
            assert(is_batch(batch, list, waiting)) by {
                assert forall|r: RowModel, i: int|
                    waiting.contains(r) && !batch.contains(r) && 0 <= i < batch.len() implies more_urgent(
                    urgency(list, waiting, #[trigger] batch[i]),
                    #[trigger] urgency(list, waiting, r),
                ) by {
                    let k = choose|k: int| 0 <= k < pool@.len() && row_of(#[trigger] pool@[k]) == r;
                    assert(more_urgent(urgency(list, waiting, batch[i]), pool@[k].urgency()));
                }
            }
        }
        res
    }
}

/// An announcement that was cancelled is never heard again, whatever its
/// recipient chooses later.
pub proof fn law_cancelled_announcements_stay_quiet(m: StoreModel, row: RowModel, user: Seq<char>, id: int, now: int)
    requires
        row.kind == "completion"@,
        row.completion_cancelled,
    ensures
        !visible(m, user, now)(row),
        !ready(m, now)(row),
        !attemptable(m, id, now)(row),
        !answerable(user, id)(row),
{
}

/// What has been pushed is not handed out again.
pub proof fn law_pushed_once(m: StoreModel, row: RowModel, id: int, now: int)
    requires
        row.pushed,
    ensures
        !ready(m, now)(row),
        !attemptable(m, id, now)(row),
        !unpushed(id)(row),
{
}

/// An attempt keeps others from trying for a minute.
pub proof fn law_attempt_holds_the_lease(m: StoreModel, row: RowModel, now: i64, later: int)
    requires
        later < now + PUSH_LEASE_MS,
        now + PUSH_LEASE_MS <= i64::MAX,
    ensures
        !ready(m, later)(changed(row, Change::Attempt((now + PUSH_LEASE_MS) as i64))),
{
}

/// A notification is answered once: after an answer there is nothing left to
/// answer. The answer itself can be answered by whoever it was sent to.
pub proof fn law_answered_once(
    m: StoreModel,
    user: Seq<char>,
    display: Seq<char>,
    id: int,
    message: Seq<char>,
    now: int,
    next_display: Seq<char>,
    next_message: Seq<char>,
    later: int,
)
    requires
        sound(m),
        answered(m, user, display, id, message, now).1 is Some,
    ensures
        ({
            let (after, sender) = answered(m, user, display, id, message, now);
            &&& answered(after, user, next_display, id, next_message, later) == (after, None::<Seq<char>>)
            &&& user != ""@ ==> answered(after, sender->0, next_display, m.next_id, next_message, later).1 == Some(user)
        }),
{
    let (after, told) = answered(m, user, display, id, message, now);
    let sender = told->0;
    let list = after.notifications;
    let n = m.notifications.len();
    let i = first(m.notifications, answerable(user, id))->0;
    lemma_first(m.notifications, answerable(user, id));
    lemma_first(list, answerable(user, id));
    lemma_first(list, answerable(sender, m.next_id));
    assert(m.notifications[i].id < m.next_id);
    assert(id < m.next_id);
    assert forall|k: int| 0 <= k < list.len() implies !answerable(user, id)(#[trigger] list[k]) by {
        if k < n {
            let row = m.notifications[k];
            if row.id == id {
                assert(list[k] == changed(row, Change::Answer));
            } else {
                assert(list[k] == row);
            }
        }
    }
    if user != ""@ {
        assert(answerable(sender, m.next_id)(list[n as int]));
        assert forall|k: int| 0 <= k < n implies !answerable(sender, m.next_id)(#[trigger] list[k]) by {
            assert(m.notifications[k].id < m.next_id);
        }
        assert(first(list, answerable(sender, m.next_id)) == Some(n as int));
    }
}

/// Recipients take turns: nobody is handed a further notification while one
/// that is due earlier in the turn of another recipient waits.
pub proof fn law_recipients_take_turns(batch: Seq<RowModel>, list: Seq<RowModel>, waiting: Seq<RowModel>, i: int, r: RowModel)
    requires
        is_batch(batch, list, waiting),
        0 <= i < batch.len(),
        waiting.contains(r),
    ensures
        !batch.contains(r) ==> turn(waiting, batch[i]) <= turn(waiting, r),
        forall|j: int| i < j < batch.len() ==> turn(waiting, batch[i]) <= turn(waiting, #[trigger] batch[j]),
{
    if !batch.contains(r) {
        assert(more_urgent(urgency(list, waiting, batch[i]), urgency(list, waiting, r)));
    }
}

/// Whoever turns nudges off is not pushed those that wait, even where they are
/// turned on again, and the choices of others are left as they are.
pub proof fn law_nudges_are_a_choice(m: StoreModel, user: Seq<char>, enabled: bool, other: Seq<char>, i: int, now: int)
    ensures
        ({
            let after = nudges_set(m, user, enabled);
            &&& value_for(after.player_settings, user) == Some(enabled)
            &&& other != user ==> value_for(after.player_settings, other) == value_for(m.player_settings, other)
            &&& !enabled && 0 <= i < m.notifications.len() && waiting_nudge(user)(m.notifications[i]) ==> {
                &&& !ready(after, now)(after.notifications[i])
                &&& !ready(nudges_set(after, user, true), now)(after.notifications[i])
            }
            &&& 0 <= i < m.notifications.len() && !waiting_nudge(user)(m.notifications[i]) ==> after.notifications[i]
                == m.notifications[i]
        }),
{
    crate::table::law_put_is_found(m.player_settings, user, enabled, other);
}

/// Only a push that succeeded counts as delivered: neither handing a
/// notification out, nor putting it off, nor an attempt that failed does.
pub proof fn law_only_success_counts_as_delivered(r: RowModel, c: Change)
    requires
        !r.pushed,
        changed(r, c).pushed,
    ensures
        c matches Change::Finish(succeeded, _) && succeeded,
{
}

/// The wait is twenty seconds, doubled for every attempt after the first but
/// six times at most, and never more than a quarter of an hour.
pub proof fn law_backoff_doubles(attempts: nat)
    requires
        attempts >= 1,
    ensures
        backoff(attempts) == ({
            let doubled = 20_000 * pow2(
                if attempts > 7 {
                    6
                } else {
                    (attempts - 1) as nat
                },
            );
            if doubled > 900_000 {
                900_000
            } else {
                doubled
            }
        }),
{
    vstd::arithmetic::power2::lemma2_to64();
    reveal_with_fuel(backoff, 8);
    law_backoff_grows(attempts);
}

proof fn lemma_only_row(m: StoreModel, i: int, id: int)
    requires
        sound(m),
        0 <= i < m.notifications.len(),
        m.notifications[i].id == id,
    ensures
        first(m.notifications, has_id(id)) == Some(i),
        forall|k: int| 0 <= k < m.notifications.len() && k != i ==> (#[trigger] m.notifications[k]).id != id,
{
    let list = m.notifications;
    assert forall|k: int| 0 <= k < list.len() && k != i implies (#[trigger] list[k]).id != id by {
        if k < i {
            assert(list[k].id < list[i].id);
        } else {
            assert(list[i].id < list[k].id);
        }
    }
    crate::table::lemma_first_is(list, has_id(id), i);
}

/// Whether a notification may be in a batch that is handed out at a time.
pub open spec fn may_be_handed_out(m: StoreModel, id: int, now: int) -> bool {
    exists|batch: Seq<RowModel>, k: int| #[trigger]
        hands_out(m, batch, now) && 0 <= k < batch.len() && (#[trigger] batch[k]).id == id
}

/// What was pushed, was cancelled or is to be tried later is not handed out.
pub proof fn law_only_what_waits_is_handed_out(m: StoreModel, i: int, id: int, now: int)
    requires
        sound(m),
        0 <= i < m.notifications.len(),
        m.notifications[i].id == id,
        m.notifications[i].pushed || m.notifications[i].push_cancelled || m.notifications[i].retry_at > now,
    ensures
        !may_be_handed_out(m, id, now),
{
    let rest = without_old(m, now);
    let test = ready(rest, now);
    let waiting = kept(rest.notifications, test);
    lemma_only_row(m, i, id);
    lemma_kept(m.notifications, recent(now));
    lemma_kept(rest.notifications, test);
    if may_be_handed_out(m, id, now) {
        let (batch, k) = choose|batch: Seq<RowModel>, k: int| #[trigger]
            hands_out(m, batch, now) && 0 <= k < batch.len() && (#[trigger] batch[k]).id == id;
        assert(waiting.contains(batch[k]));
        assert(rest.notifications.contains(batch[k]));
        assert(m.notifications.contains(batch[k]));
        let j = choose|j: int| 0 <= j < m.notifications.len() && m.notifications[j] == batch[k];
        assert(j == i);
        assert(test(batch[k]));
    }
}

/// Each attempt is counted, up to thirty-one, and keeps the notification from
/// being handed out for a minute.
pub proof fn law_attempts_are_counted(m: StoreModel, i: int, id: int, now: int, later: int)
    requires
        sound(m),
        0 <= i < m.notifications.len(),
        m.notifications[i].id == id,
        any(m.notifications, attemptable(m, id, now)),
        fits(now + PUSH_LEASE_MS),
    ensures
        ({
            let row = m.notifications[i];
            let after = attempted(m, id, now);
            &&& sound(after)
            &&& after.notifications.len() == m.notifications.len()
            &&& after.notifications[i] == (RowModel {
                retry_at: now + PUSH_LEASE_MS,
                push_attempts: if row.push_attempts >= 30 {
                    31
                } else {
                    row.push_attempts + 1
                },
                ..row
            })
            &&& !after.notifications[i].pushed
            &&& later < now + PUSH_LEASE_MS ==> !may_be_handed_out(after, id, later)
        }),
{
    let after = attempted(m, id, now);
    let test = attemptable(m, id, now);
    lemma_only_row(m, i, id);
    lemma_changed_numbered(m.notifications, test, Change::Attempt((now + PUSH_LEASE_MS) as i64), m.next_id);
    let k = choose|k: int| 0 <= k < m.notifications.len() && test(#[trigger] m.notifications[k]);
    assert(k == i);
    if later < now + PUSH_LEASE_MS {
        law_only_what_waits_is_handed_out(after, i, id, later);
    }
}

/// After a failed attempt a notification is put off by the wait for so many
/// attempts as were counted, and is not handed out before that.
pub proof fn law_failed_pushes_are_put_off(m: StoreModel, i: int, id: int, now: int, later: int)
    requires
        sound(m),
        0 <= i < m.notifications.len(),
        m.notifications[i].id == id,
        !m.notifications[i].pushed,
        fits(now),
        fits(now + 900_000),
    ensures
        ({
            let row = m.notifications[i];
            let after = finished(m, id, false, now);
            &&& sound(after)
            &&& after.notifications.len() == m.notifications.len()
            &&& after.notifications[i] == (RowModel { retry_at: now + backoff(row.push_attempts), ..row })
            &&& later < now + backoff(row.push_attempts) ==> !may_be_handed_out(after, id, later)
        }),
{
    let row = m.notifications[i];
    let after = finished(m, id, false, now);
    lemma_only_row(m, i, id);
    law_backoff_grows(row.push_attempts);
    lemma_changed_numbered(
        m.notifications,
        unpushed(id),
        Change::Finish(false, (now + backoff(row.push_attempts)) as i64),
        m.next_id,
    );
    if later < now + backoff(row.push_attempts) {
        law_only_what_waits_is_handed_out(after, i, id, later);
    }
}

/// What is stored after some attempts at a notification, each of which failed:
/// for each, when it began and when it ended.
pub open spec fn failed_often(m: StoreModel, id: int, tries: Seq<(int, int)>) -> StoreModel
    decreases tries.len(),
{
    if tries.len() == 0 {
        m
    } else {
        finished(
            attempted(failed_often(m, id, tries.drop_last()), id, tries.last().0),
            id,
            false,
            tries.last().1,
        )
    }
}

/// Whether a notification might be tried at the beginning of each attempt.
pub open spec fn all_begun(m: StoreModel, id: int, tries: Seq<(int, int)>) -> bool
    decreases tries.len(),
{
    tries.len() == 0 || {
        let before = failed_often(m, id, tries.drop_last());
        &&& all_begun(m, id, tries.drop_last())
        &&& any(before.notifications, attemptable(before, id, tries.last().0))
        &&& fits(tries.last().0 + PUSH_LEASE_MS)
        &&& fits(tries.last().1)
        &&& fits(tries.last().1 + 900_000)
    }
}

/// A push that fails again and again is tried later each time: after the k-th
/// failure it is put off by twenty seconds, doubled for every failure before,
/// and by a quarter of an hour at most.
pub proof fn law_failures_back_off(m: StoreModel, i: int, id: int, tries: Seq<(int, int)>, later: int)
    requires
        sound(m),
        0 <= i < m.notifications.len(),
        m.notifications[i].id == id,
        m.notifications[i].push_attempts == 0,
        1 <= tries.len() <= 31,
        all_begun(m, id, tries),
    ensures
        ({
            let after = failed_often(m, id, tries);
            let at = tries.last().1 + backoff(tries.len());
            &&& after.notifications[i] == (RowModel { retry_at: at, push_attempts: tries.len(), ..m.notifications[i] })
            &&& later < at ==> !may_be_handed_out(after, id, later)
        }),
{
    lemma_failures(m, i, id, tries);
    let after = failed_often(m, id, tries);
    if later < tries.last().1 + backoff(tries.len()) {
        law_only_what_waits_is_handed_out(after, i, id, later);
    }
}

proof fn lemma_failures(m: StoreModel, i: int, id: int, tries: Seq<(int, int)>)
    requires
        sound(m),
        0 <= i < m.notifications.len(),
        m.notifications[i].id == id,
        m.notifications[i].push_attempts == 0,
        tries.len() <= 31,
        all_begun(m, id, tries),
    ensures
        ({
            let after = failed_often(m, id, tries);
            &&& sound(after)
            &&& after.notifications.len() == m.notifications.len()
            &&& after.notifications[i] == (if tries.len() == 0 {
                m.notifications[i]
            } else {
                RowModel {
                    retry_at: tries.last().1 + backoff(tries.len()),
                    push_attempts: tries.len(),
                    ..m.notifications[i]
                }
            })
        }),
    decreases tries.len(),
{
    if tries.len() > 0 {
        let init = tries.drop_last();
        let (began, ended) = tries.last();
        lemma_failures(m, i, id, init);
        let before = failed_often(m, id, init);
        law_attempts_are_counted(before, i, id, began, began);
        law_failed_pushes_are_put_off(attempted(before, id, began), i, id, ended, ended);
    }
}

/// A push that succeeded is not handed out again, at any time, and the
/// notification is shown as before.
pub proof fn law_success_ends_the_pushes(m: StoreModel, i: int, id: int, now: int, later: int, user: Seq<char>, since: int)
    requires
        sound(m),
        0 <= i < m.notifications.len(),
        m.notifications[i].id == id,
        fits(now),
        fits(now + 900_000),
    ensures
        ({
            let after = finished(m, id, true, now);
            &&& sound(after)
            &&& after.notifications.len() == m.notifications.len()
            &&& after.notifications[i].pushed
            &&& !may_be_handed_out(after, id, later)
            &&& inbox_of(after, user, since) == inbox_of(m, user, since)
        }),
{
    let row = m.notifications[i];
    let after = finished(m, id, true, now);
    let change = Change::Finish(true, (now + backoff(row.push_attempts)) as i64);
    lemma_only_row(m, i, id);
    lemma_changed_numbered(m.notifications, unpushed(id), change, m.next_id);
    law_only_what_waits_is_handed_out(after, i, id, later);
    lemma_inbox_unchanged(m, after, unpushed(id), change, user, since);
}

proof fn lemma_inbox_unchanged(
    m: StoreModel,
    after: StoreModel,
    test: spec_fn(RowModel) -> bool,
    c: Change,
    user: Seq<char>,
    now: int,
)
    requires
        after == (StoreModel { notifications: changed_where(m.notifications, test, c), ..m }),
        c is Finish,
    ensures
        inbox_of(after, user, now) == inbox_of(m, user, now),
{
    let since = now - INBOX_AGE_MS;
    let a = kept(m.notifications, visible(m, user, since));
    let b = kept(after.notifications, visible(after, user, since));
    lemma_shown_unchanged(m, after, m.notifications, test, c, user, since, now);
    assert(shown_all(m, a, now).len() == shown_all(after, b, now).len());
    assert(shown_all(m, last_of(a, INBOX_LIMIT as nat), now) =~= last_of(shown_all(m, a, now), INBOX_LIMIT as nat));
    assert(shown_all(after, last_of(b, INBOX_LIMIT as nat), now) =~= last_of(
        shown_all(after, b, now),
        INBOX_LIMIT as nat,
    ));
}

proof fn lemma_shown_unchanged(
    m: StoreModel,
    after: StoreModel,
    list: Seq<RowModel>,
    test: spec_fn(RowModel) -> bool,
    c: Change,
    user: Seq<char>,
    since: int,
    now: int,
)
    requires
        after == (StoreModel { notifications: after.notifications, ..m }),
        c is Finish,
    ensures
        shown_all(after, kept(changed_where(list, test, c), visible(after, user, since)), now) == shown_all(
            m,
            kept(list, visible(m, user, since)),
            now,
        ),
    decreases list.len(),
{
    let a = kept(list, visible(m, user, since));
    let b = kept(changed_where(list, test, c), visible(after, user, since));
    if list.len() > 0 {
        let init = list.drop_last();
        let row = list.last();
        lemma_shown_unchanged(m, after, init, test, c, user, since, now);
        assert(changed_where(list, test, c).drop_last() =~= changed_where(init, test, c));
        let a0 = kept(init, visible(m, user, since));
        let b0 = kept(changed_where(init, test, c), visible(after, user, since));
        let new = changed_where(list, test, c).last();
        assert(visible(after, user, since)(new) == visible(m, user, since)(row));
        assert(invites(new, now) =~= invites(row, now));
        assert(shown(after, new, now) == shown(m, row, now));
        if visible(m, user, since)(row) {
            assert(shown_all(m, a0.push(row), now) =~= shown_all(m, a0, now).push(shown(m, row, now)));
            assert(shown_all(after, b0.push(new), now) =~= shown_all(after, b0, now).push(shown(after, new, now)));
        }
    } else {
        assert(shown_all(m, a, now) =~= shown_all(after, b, now));
    }
}

/// A notification can be answered by its recipient, once, unless nobody else
/// sent it or it is an announcement that was cancelled. Then its sender, and no
/// one else, is told what was said, and the notification counts as answered.
/// Otherwise nothing changes.
pub proof fn law_an_answer_is_told_to_the_sender(
    m: StoreModel,
    user: Seq<char>,
    display: Seq<char>,
    id: int,
    message: Seq<char>,
    now: int,
    sender: Seq<char>,
)
    requires
        sound(m),
    ensures
        ({
            let (after, heard) = answered(m, user, display, id, message, now);
            let n = m.notifications.len() as int;
            &&& heard == Some(sender) <==> exists|i: int|
                0 <= i < n && answerable(user, id)(#[trigger] m.notifications[i]) && m.notifications[i].sender == sender
            &&& heard is None ==> after == m
            &&& heard == Some(sender) ==> {
                let new = after.notifications[n];
                &&& after.notifications.len() == n + 1
                &&& new.recipient == sender && new.sender == user
                &&& new.title == "💬 "@ + display && new.body == message && new.kind == "reply"@
                &&& !new.pushed && !new.push_cancelled && !new.replied
                &&& forall|i: int|
                    0 <= i < n ==> #[trigger] after.notifications[i] == (if m.notifications[i].id == id {
                        RowModel { replied: true, ..m.notifications[i] }
                    } else {
                        m.notifications[i]
                    })
            }
        }),
{
    let test = answerable(user, id);
    lemma_first(m.notifications, test);
    assert forall|i: int, j: int|
        0 <= i < m.notifications.len() && 0 <= j < m.notifications.len() && test(#[trigger] m.notifications[i]) && test(
            #[trigger] m.notifications[j],
        ) implies i == j by {
        lemma_only_row(m, i, id);
    }
}

/// Cancelling a push leaves the notification in the inbox, and it is never
/// handed out again.
pub proof fn law_cancelled_pushes_are_not_handed_out(m: StoreModel, i: int, id: int, now: int)
    requires
        sound(m),
        0 <= i < m.notifications.len(),
        m.notifications[i].id == id,
    ensures
        ({
            let after = StoreModel {
                notifications: changed_where(m.notifications, has_id(id), Change::CancelPush),
                ..m
            };
            &&& after.notifications.len() == m.notifications.len()
            &&& after.notifications[i] == (RowModel { push_cancelled: true, ..m.notifications[i] })
            &&& forall|k: int|
                0 <= k < m.notifications.len() && k != i ==> #[trigger] after.notifications[k] == m.notifications[k]
            &&& !may_be_handed_out(after, id, now)
        }),
{
    let after = StoreModel { notifications: changed_where(m.notifications, has_id(id), Change::CancelPush), ..m };
    lemma_only_row(m, i, id);
    lemma_changed_numbered(m.notifications, has_id(id), Change::CancelPush, m.next_id);
    law_only_what_waits_is_handed_out(after, i, id, now);
}

} // verus!
