//! What players are told and when, and what is taken from an upload: what holds
//! of it, whoever it is.

use vstd::prelude::*;
use crate::config::ConfigModel;
use crate::delivery::{delivered, is_reminder, priority_of, tag_of, warning_text, without_slashes, Reminder};
use crate::friend_nudges::{has_sent, nudged, Outcome};
use crate::game::{EventModel, Profile};
use crate::inbox::{changed_where, events_noticed, fresh_events, inbox_of, is_before, last_of, noticed, queued, shown, shows_activity, unread_of, visible, Activity, Change, NotificationModel, OutgoingModel};
use crate::quests::Review;
use crate::store::{clock_of, RowModel, StoreModel};
use crate::sync::{clock_in, is_news, reviews_among, Entry, Signature};
use crate::table::{kept, lemma_kept, rows, value_for};
use crate::text::decimal;
use crate::preferences::Refusal;
use crate::uploads::{counts, is_silent, upload_refusal, Upload};

verus! {

/// A message that is told takes the next number, waits to be pushed at once, and
/// is neither read nor answered. It is never pushed where it tells of a completion
/// and the recipient wants none, or none of the sender.
pub proof fn law_a_message_waits_to_be_pushed(m: StoreModel, message: OutgoingModel, day: int, now: int, push_only: bool)
    ensures
        ({
            let after = noticed(m, message, day, now, push_only);
            let row = after.notifications.last();
            let unwanted = value_for(m.incoming_settings, message.to) == Some(false) || m.muted_senders.contains(
                (message.to, message.from),
            ) || m.unsubscriptions.contains((message.to, message.from));
            &&& after.notifications.drop_last() == m.notifications
            &&& row.id == m.next_id < after.next_id
            &&& row.recipient == message.to
            &&& row.sender == message.from
            &&& row.title == message.title
            &&& row.body == message.body
            &&& row.kind == message.kind
            &&& row.day == day
            &&& row.created_at == now
            &&& row.push_only == push_only
            &&& !row.pushed && !row.replied && row.read_at is None && row.push_attempts == 0 && row.retry_at == 0
            &&& row.push_cancelled <==> message.kind == "completion"@ && unwanted
            &&& row.completion_cancelled <==> row.push_cancelled
        }),
{
    let after = noticed(m, message, day, now, push_only);
    assert(after.notifications.drop_last() =~= m.notifications);
}

/// Up to three new events are told one by one, and more of them in one message
/// that counts them. Without a place to push to, nothing is told.
pub proof fn law_many_events_make_one_message(
    m: StoreModel,
    user: Seq<char>,
    events: Seq<EventModel>,
    day: int,
    now: int,
    push_enabled: bool,
)
    ensures
        ({
            let fresh = fresh_events(m.seen, user, events).1;
            let before = m.notifications;
            let after = queued(m, user, events, day, now, push_enabled).notifications;
            &&& !push_enabled || fresh.len() == 0 ==> after == before
            &&& push_enabled && 1 <= fresh.len() <= 3 ==> {
                &&& after.len() == before.len() + fresh.len()
                &&& after.take(before.len() as int) == before
                &&& forall|i: int|
                    0 <= i < fresh.len() ==> {
                        &&& (#[trigger] after[before.len() + i]).title == fresh[i].title
                        &&& after[before.len() + i].body == fresh[i].body
                        &&& after[before.len() + i].recipient == user
                        &&& after[before.len() + i].push_only
                    }
            }
            &&& push_enabled && fresh.len() > 3 ==> {
                &&& after.len() == before.len() + 1
                &&& after.drop_last() == before
                &&& after.last().title == decimal(fresh.len()) + " new unlocks"@
                &&& after.last().recipient == user
                &&& after.last().push_only
            }
        }),
{
    let (seen, fresh) = fresh_events(m.seen, user, events);
    let after = queued(m, user, events, day, now, push_enabled).notifications;
    if push_enabled && fresh.len() <= 3 {
        lemma_events_told(StoreModel { seen, ..m }, user, fresh, day, now);
        assert(after.take(m.notifications.len() as int) =~= m.notifications);
    } else if push_enabled {
        assert(after.drop_last() =~= m.notifications);
    }
}

proof fn lemma_events_told(m: StoreModel, user: Seq<char>, events: Seq<EventModel>, day: int, now: int)
    ensures
        ({
            let before = m.notifications;
            let after = events_noticed(m, user, events, day, now).notifications;
            &&& after.len() == before.len() + events.len()
            &&& forall|i: int| 0 <= i < before.len() ==> #[trigger] after[i] == before[i]
            &&& forall|i: int|
                0 <= i < events.len() ==> {
                    &&& (#[trigger] after[before.len() + i]).title == events[i].title
                    &&& after[before.len() + i].body == events[i].body
                    &&& after[before.len() + i].recipient == user
                    &&& after[before.len() + i].push_only
                }
        }),
    decreases events.len(),
{
    if events.len() > 0 {
        let init = events.drop_last();
        lemma_events_told(m, user, init, day, now);
        let half = events_noticed(m, user, init, day, now).notifications;
        let after = events_noticed(m, user, events, day, now).notifications;
        assert(after.drop_last() =~= half);
        assert forall|i: int| 0 <= i < events.len() implies {
            &&& (#[trigger] after[m.notifications.len() + i]).title == events[i].title
            &&& after[m.notifications.len() + i].body == events[i].body
            &&& after[m.notifications.len() + i].recipient == user
            &&& after[m.notifications.len() + i].push_only
        } by {
            if i < init.len() {
                assert(after[m.notifications.len() + i] == half[m.notifications.len() + i]);
            }
        }
    }
}

/// Whether a stored notification is one that a player gets to see.
pub open spec fn is_seen_by(m: StoreModel, r: RowModel, user: Seq<char>, since: int) -> bool {
    &&& r.recipient == user
    &&& !r.push_only
    &&& r.created_at >= since
    &&& r.kind == "completion"@ ==> !r.completion_cancelled && value_for(m.incoming_settings, user) != Some(false)
        && !m.muted_senders.contains((user, r.sender)) && !m.unsubscriptions.contains((user, r.sender))
}

/// Whether a notification is one that was stored for a player within a week, as it
/// was stored.
pub open spec fn is_of_the_week(m: StoreModel, n: NotificationModel, user: Seq<char>, now: int) -> bool {
    exists|j: int|
        0 <= j < m.notifications.len() && is_seen_by(m, #[trigger] m.notifications[j], user, now - 604_800_000) && n
            == shown(m, m.notifications[j], now)
}

/// The inbox holds what a player was told within a week, five hundred messages at
/// most, each as it was stored; and all of it, where there are no more.
pub proof fn law_the_inbox_holds_a_week(m: StoreModel, user: Seq<char>, now: int)
    ensures
        ({
            let inbox = inbox_of(m, user, now);
            &&& inbox.len() <= 500
            &&& forall|i: int| 0 <= i < inbox.len() ==> is_of_the_week(m, #[trigger] inbox[i], user, now)
            &&& inbox.len() < 500 ==> forall|j: int|
                0 <= j < m.notifications.len() && is_seen_by(m, #[trigger] m.notifications[j], user, now - 604_800_000)
                    ==> inbox.contains(shown(m, m.notifications[j], now))
        }),
{
    let test = visible(m, user, now - 604_800_000);
    let all = kept(m.notifications, test);
    let last = last_of(all, 500);
    let inbox = inbox_of(m, user, now);
    lemma_kept(m.notifications, test);
    assert(inbox.len() == last.len());
    assert forall|i: int| 0 <= i < inbox.len() implies is_of_the_week(m, #[trigger] inbox[i], user, now) by {
        let r = last[i];
        assert(inbox[i] == shown(m, r, now));
        let at = if all.len() > 500 {
            i + (all.len() - 500)
        } else {
            i
        };
        assert(all[at] == r);
        assert(all.contains(r));
        assert(test(r));
        let j = choose|j: int| 0 <= j < m.notifications.len() && m.notifications[j] == r;
        assert(is_seen_by(m, m.notifications[j], user, now - 604_800_000));
    }
    if inbox.len() < 500 {
        assert forall|j: int|
            0 <= j < m.notifications.len() && is_seen_by(m, #[trigger] m.notifications[j], user, now - 604_800_000) implies inbox.contains(
            shown(m, m.notifications[j], now),
        ) by {
            let r = m.notifications[j];
            assert(m.notifications.contains(r));
            assert(test(r));
            assert(all.contains(r));
            let i = choose|i: int| 0 <= i < all.len() && all[i] == r;
            assert(last == all);
            assert(inbox[i] == shown(m, r, now));
            assert(inbox.contains(inbox[i]));
        }
    }
}

/// A notification is shown as it was stored, with its times in whole seconds.
pub proof fn law_notifications_are_shown_as_stored(m: StoreModel, r: RowModel, now: int)
    ensures
        ({
            let n = shown(m, r, now);
            &&& n.id == r.id && n.title == r.title && n.body == r.body && n.day == r.day && n.sender == r.sender
            &&& n.kind == r.kind && n.replied == r.replied && n.challenge_id == r.challenge_id
            &&& n.read_at is Some <==> r.read_at is Some
            &&& r.created_at >= 0 ==> n.created_at * 1_000 <= r.created_at < n.created_at * 1_000 + 1_000
            &&& n.route is Some <==> r.challenge_id is Some
        }),
{
}

/// Reading marks the notifications that are asked for, as far as they are the
/// player's, meant to be read, unread, and no more than ninety days old.
pub proof fn law_reading_marks_what_is_asked_for(list: Seq<RowModel>, user: Seq<char>, ids: Seq<i64>, now: i64, i: int, k: int)
    requires
        0 <= i < list.len(),
        0 <= k < ids.len(),
        ids[k] == list[i].id,
    ensures
        ({
            let after = changed_where(list, unread_of(user, ids, now as int), Change::Read(now));
            if list[i].recipient == user && !list[i].push_only && list[i].read_at is None && list[i].created_at >= now
                - 90 * 86_400_000 {
                after[i].read_at == Some(now as int)
            } else {
                after[i] == list[i]
            }
        }),
{
}

/// A page of activity has so many items at most, all of them before the number
/// that was asked for; where there is more, it says after which one.
pub proof fn law_pages_follow_one_another(
    v: Activity,
    m: StoreModel,
    user: Seq<char>,
    now: int,
    days: int,
    before: Option<i64>,
    limit: nat,
    i: int,
)
    requires
        shows_activity(v, m, user, now, days, before, limit),
        0 <= i < v.items@.len(),
    ensures
        v.items@.len() <= limit,
        before is Some ==> v.items@[i].id < before->0,
        v.next_before is Some ==> v.items@.len() == limit && v.next_before->0 == v.items@.last().id,
        v.retention_days == 90,
{
    let window = kept(m.notifications, visible(m, user, now - days * 86_400_000));
    let early = kept(window, is_before(before));
    let page = early.reverse();
    lemma_kept(window, is_before(before));
    let items = rows(v.items@);
    assert(items.len() == v.items@.len());
    assert(items[i] == v.items@[i]@);
    assert(items[i] == shown(m, page[i], now));
    assert(early.contains(early[early.len() - 1 - i]));
    assert(page[i] == early[early.len() - 1 - i]);
    if v.next_before is Some {
        assert(items[limit - 1] == v.items@[limit - 1]@);
        assert(items[limit - 1] == shown(m, page[limit - 1], now));
    }
}

/// What is urgent is pushed with high priority and a flame: a streak at risk, and
/// an urgent reminder. Other reminders wait their turn, and everything else is of
/// high priority. Only events are celebrated.
pub proof fn law_priorities_and_tags_differ_by_kind(kind: Seq<char>)
    ensures
        tag_of(kind) == "fire"@ <==> kind == "risk"@ || kind == "reminder_urgent"@,
        tag_of(kind) == "tada"@ <==> kind == "event"@,
        tag_of(kind) == "fire"@ || tag_of(kind) == "tada"@ || tag_of(kind) == "white_check_mark"@,
        tag_of(kind) == "fire"@ ==> priority_of(kind) == "high"@,
        priority_of(kind) == "default"@ <==> "reminder_"@.is_prefix_of(kind) && kind != "reminder_urgent"@,
        priority_of(kind) == "default"@ || priority_of(kind) == "high"@,
{
    reveal_strlit("fire");
    reveal_strlit("tada");
    reveal_strlit("white_check_mark");
    reveal_strlit("high");
    reveal_strlit("default");
    reveal_strlit("risk");
    reveal_strlit("reminder_");
    assert("fire"@[0] == 'f');
    assert("tada"@[0] == 't');
    assert("white_check_mark"@[0] == 'w');
    assert("high"@[0] == 'h');
    assert("default"@[0] == 'd');
    assert("risk"@.len() < "reminder_"@.len());
    reveal_strlit("event");
    reveal_strlit("reminder_urgent");
    assert("event"@[0] == 'e');
    assert("risk"@[0] == 'r');
    assert("reminder_urgent"@[0] == 'r');
    if "reminder_"@.is_prefix_of(kind) {
        assert(kind.take("reminder_"@.len() as int) =~= "reminder_"@);
    }
    if is_reminder(kind) {
        assert("reminder_"@ =~= kind.subrange(0, "reminder_"@.len() as int));
    }
}

/// A push says what was stored under its title; a warning says how long the streak
/// is instead, and a reminder what it is to say now.
pub proof fn law_a_push_says_what_is_to_be_said(
    c: ConfigModel,
    m: StoreModel,
    user: Seq<char>,
    n: NotificationModel,
    p: Option<Profile>,
    reminder: Option<Reminder>,
    remaining_ns: u64,
    now: int,
)
    requires
        delivered(c, m, user, n, p, reminder, remaining_ns, now).1 is Push,
    ensures
        ({
            let push = (delivered(c, m, user, n, p, reminder, remaining_ns, now).1)->Push_0;
            &&& push.title == n.title
            &&& n.kind != "risk"@ && !"reminder_"@.is_prefix_of(n.kind) ==> push.body == n.body
            &&& n.kind == "risk"@ ==> p is Some && (p->0).day == n.day && (p->0).at_risk && ("Your "@ + decimal(
                (p->0).streak as nat,
            ) + " day streak ends tonight. "@).is_prefix_of(push.body)
            &&& "reminder_"@.is_prefix_of(n.kind) ==> reminder is Some && push.body == (reminder->0).body@
            &&& push.timeout_ns <= remaining_ns
            &&& push.timeout_ns <= 10_000_000_000
        }),
{
    reveal_strlit("risk");
    reveal_strlit("reminder_");
    if "reminder_"@.is_prefix_of(n.kind) {
        assert(n.kind.take("reminder_"@.len() as int) =~= "reminder_"@);
        assert(n.kind.len() >= "reminder_"@.len());
    } else if is_reminder(n.kind) {
        assert("reminder_"@ =~= n.kind.subrange(0, "reminder_"@.len() as int));
    }
    if n.kind == "risk"@ {
        let said = "Your "@ + decimal((p->0).streak as nat) + " day streak ends tonight. "@;
        assert(said.is_prefix_of(warning_text(p->0)));
    }
}

/// A warning tells a player with freezes apart from one without, and from one who
/// has turned them off.
pub proof fn law_warnings_tell_of_freezes(a: Profile, b: Profile)
    requires
        a.streak == b.streak,
        a.freezes_enabled,
    ensures
        b.freezes_enabled && (a.freezes > 0) == (b.freezes > 0) ==> warning_text(a) == warning_text(b),
        b.freezes_enabled && (a.freezes > 0) != (b.freezes > 0) ==> warning_text(a) != warning_text(b),
        !b.freezes_enabled ==> warning_text(a) != warning_text(b),
{
    let head = "Your "@ + decimal(a.streak as nat) + " day streak ends tonight. "@;
    let n = head.len() as int;
    reveal_strlit("Streak freezes are turned off.");
    reveal_strlit("A freeze would cover you, but why spend it?");
    reveal_strlit("No freezes left.");
    assert("Streak freezes are turned off."@[0] == 'S');
    assert("A freeze would cover you, but why spend it?"@[0] == 'A');
    assert("No freezes left."@[0] == 'N');
    assert(warning_text(a)[n] == if a.freezes > 0 { 'A' } else { 'N' });
    assert(warning_text(b)[n] == if !b.freezes_enabled { 'S' } else if b.freezes > 0 { 'A' } else { 'N' });
}

/// Slashes at the end of an address are cut off, and nothing else.
pub proof fn law_addresses_lose_their_last_slashes(s: Seq<char>)
    ensures
        ({
            let cut = without_slashes(s);
            &&& cut.is_prefix_of(s)
            &&& cut.len() > 0 ==> cut.last() != '/'
            &&& forall|i: int| cut.len() <= i < s.len() ==> #[trigger] s[i] == '/'
        }),
    decreases s.len(),
{
    if s.len() > 0 && s.last() == '/' {
        law_addresses_lose_their_last_slashes(s.drop_last());
        let cut = without_slashes(s);
        assert(cut =~= s.subrange(0, cut.len() as int)) by {
            assert(cut =~= s.drop_last().subrange(0, cut.len() as int));
        }
        assert forall|i: int| cut.len() <= i < s.len() implies #[trigger] s[i] == '/' by {
            if i < s.len() - 1 {
                assert(s.drop_last()[i] == '/');
            }
        }
    } else {
        assert(s =~= s.subrange(0, s.len() as int));
    }
}

/// A nudge reaches a friend who wants nudges and has had none of the sender on the
/// sender's day; it names the sender, and the friend is told of nothing otherwise.
pub proof fn law_nudges_reach_those_who_want_them(
    m: StoreModel,
    sender: Seq<char>,
    display: Seq<char>,
    recipient: Seq<char>,
    now: int,
)
    ensures
        ({
            let (after, outcome) = nudged(m, sender, display, recipient, now);
            let wanted = value_for(m.player_settings, recipient) == Some(true);
            let had = has_sent(m, sender, recipient, clock_of(m, sender).day_of(now));
            &&& outcome == Outcome::Sent <==> wanted && !had
            &&& outcome == Outcome::Forbidden <==> !wanted
            &&& outcome == Outcome::Repeated <==> wanted && had
            &&& outcome != Outcome::Sent ==> after == m
            &&& outcome == Outcome::Sent ==> {
                let row = after.notifications.last();
                &&& after.notifications.drop_last() == m.notifications
                &&& row.recipient == recipient
                &&& row.sender == sender
                &&& row.kind == "nudge"@
                &&& !row.push_only
                &&& row.created_at == now
                &&& display.is_prefix_of(row.body)
            }
        }),
{
    let (after, outcome) = nudged(m, sender, display, recipient, now);
    if outcome == Outcome::Sent {
        assert(after.notifications.drop_last() =~= m.notifications);
        let body = after.notifications.last().body;
        assert(body.subrange(0, display.len() as int) =~= display);
    }
}

/// An upload is too large with more than five thousand reviews or deletions or two
/// thousand decks, and a bad request where the clock is off by more than a day or
/// the day turns over at no hour.
pub proof fn law_large_uploads_and_odd_clocks_are_refused(u: Upload)
    ensures
        u.reviews@.len() > 5_000 || u.deleted@.len() > 5_000 ==> upload_refusal(u) == Some(Refusal::TooLarge),
        u.reviews@.len() <= 5_000 && u.deleted@.len() <= 5_000 && u.decks is None ==> {
            let c = u.clock;
            upload_refusal(u) == if -1_440 <= c.offset_west_min <= 1_440 && 0 <= c.rollover_hour < 24 {
                None
            } else {
                Some(Refusal::BadRequest)
            }
        },
        u.decks is Some && (u.decks->0)@.len() > 2_000 ==> upload_refusal(u) == Some(Refusal::TooLarge),
{
}

/// Of an upload the reviews are taken that are of one of the four kinds that count.
pub proof fn law_only_reviews_that_count_are_taken(reviews: Seq<Review>, r: Review)
    ensures
        kept(reviews, counts()).contains(r) <==> reviews.contains(r) && r.kind <= 3,
{
    lemma_kept(reviews, counts());
    assert(counts()(r) == (r.kind <= 3));
}

/// The first upload of a player is silent, and any that asks to be.
pub proof fn law_first_uploads_are_silent(m: StoreModel, user: Seq<char>, u: Upload)
    ensures
        value_for(m.clocks, user) is None ==> is_silent(m, user, u),
        u.silent ==> is_silent(m, user, u),
        value_for(m.clocks, user) is Some && !u.silent ==> !is_silent(m, user, u),
{
}

/// Of a collection the entries are taken that were answered and are of one of the
/// four kinds that count, in their order.
pub proof fn law_only_answered_entries_are_taken(entries: Seq<Entry>)
    ensures
        forall|i: int|
            0 <= i < entries.len() && (#[trigger] entries[i]).ease > 0 && entries[i].review.kind <= 3 ==> reviews_among(
                entries,
            ).contains(entries[i].review),
        forall|r: Review| #[trigger]
            reviews_among(entries).contains(r) ==> exists|i: int|
                0 <= i < entries.len() && (#[trigger] entries[i]).ease > 0 && entries[i].review.kind <= 3
                    && entries[i].review == r,
    decreases entries.len(),
{
    if entries.len() > 0 {
        let init = entries.drop_last();
        let last = entries.last();
        let taken = reviews_among(entries);
        law_only_answered_entries_are_taken(init);
        assert forall|i: int|
            0 <= i < entries.len() && (#[trigger] entries[i]).ease > 0 && entries[i].review.kind <= 3 implies taken.contains(
            entries[i].review,
        ) by {
            if i < init.len() {
                assert(init[i] == entries[i]);
                let k = choose|k: int|
                    0 <= k < reviews_among(init).len() && reviews_among(init)[k] == entries[i].review;
                assert(taken[k] == entries[i].review);
            } else {
                assert(taken[taken.len() - 1] == last.review);
            }
        }
        assert forall|r: Review| #[trigger] taken.contains(r) implies exists|i: int|
            0 <= i < entries.len() && (#[trigger] entries[i]).ease > 0 && entries[i].review.kind <= 3
                && entries[i].review == r by {
            let k = choose|k: int| 0 <= k < taken.len() && taken[k] == r;
            if k < reviews_among(init).len() {
                assert(reviews_among(init)[k] == r);
                assert(reviews_among(init).contains(r));
                let i = choose|i: int|
                    0 <= i < init.len() && (#[trigger] init[i]).ease > 0 && init[i].review.kind <= 3 && init[i].review
                        == r;
                assert(entries[i] == init[i]);
            } else {
                assert(entries[entries.len() - 1].review == r);
            }
        }
    }
}

/// Where a collection does not tell, the clock is that of UTC and the day turns
/// over at four; what it tells is taken.
pub proof fn law_clocks_have_defaults(offset: Option<i64>, rollover: Option<i64>)
    ensures
        offset is None ==> clock_in(offset, rollover).offset_west_min == 0,
        offset is Some ==> clock_in(offset, rollover).offset_west_min == offset->0,
        rollover is None ==> clock_in(offset, rollover).rollover_hour == 4,
        rollover is Some ==> clock_in(offset, rollover).rollover_hour == rollover->0,
{
}

/// A collection is read where it is there and differs from what was read last in
/// its file or in its log.
pub proof fn law_changed_collections_are_read(known: Signature, found: Signature)
    ensures
        found.file is None ==> !is_news(Some(known), found) && !is_news(None, found),
        found.file is Some ==> is_news(None, found),
        found.file is Some && (found.file != known.file || found.log != known.log) ==> is_news(Some(known), found),
        !is_news(Some(known), known),
{
}

} // verus!
