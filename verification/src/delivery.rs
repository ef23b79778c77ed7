//! Telling players: what is queued for them, and how it is pushed.

use vstd::prelude::*;
use crate::boards::{ahead_in, ahead_of};
use crate::calendar::fits;
use crate::config::{destination_of, push_destination, Config, ConfigModel};
use crate::friend_nudges::receives;
use crate::game::{event_views, Profile};
use crate::inbox::{attemptable, attempted, changed_where, lemma_queued_numbers, noticed_once, not_warning, queued, unpushed, Change, Delivery, Notification, NotificationModel, Outgoing, OutgoingModel, INBOX_AGE_MS, MAX_SEPARATE_PUSHES, PUSH_LEASE_MS};
use crate::nudges::{nudge_views, nudges, nudges_for, NudgeModel};
use crate::store::{Store, StoreModel};
use crate::table::{any, kept, rows};
use crate::text::{around, characters, decimal, joined, same, slice_text};

verus! {

/// How long a push may take, in nanoseconds.
pub const PUSH_TIMEOUT_NS: u64 = 10_000_000_000;

/// A nudge as a message to a player.
pub open spec fn own_nudge(user: Seq<char>, n: NudgeModel) -> OutgoingModel {
    OutgoingModel { to: user, from: ""@, title: n.title, body: n.body, kind: "nudge"@ }
}

/// What is stored after a player has been told some nudges, each of them once.
pub open spec fn nudged_all(m: StoreModel, user: Seq<char>, list: Seq<NudgeModel>, day: int, now: int) -> StoreModel
    decreases list.len(),
{
    if list.len() == 0 {
        m
    } else {
        noticed_once(
            nudged_all(m, user, list.drop_last(), day, now),
            own_nudge(user, list.last()),
            list.last().key,
            day,
            now,
            false,
        )
    }
}

/// What is stored after a player's events and nudges have been queued. Nudges
/// are for players who want them.
pub open spec fn queued_for(c: ConfigModel, m: StoreModel, user: Seq<char>, p: Profile, ranking: Seq<Profile>, now: int) -> StoreModel {
    let told = queued(m, user, event_views(p.events@), p.day as int, now, destination_of(c, user) is Some);
    if receives(told, user) {
        nudged_all(told, user, nudges_for(p, ahead_in(ranking, p.week_xp)), p.day as int, now)
    } else {
        told
    }
}

/// Queue what a player is to be told: events, and nudges about what is within
/// reach.
pub fn queue_for(config: &Config, store: &mut Store, user: &str, profile: &Profile, ranking: &[Profile], now_ms: i64)
    requires
        old(store).wf(),
        old(store).next_id + MAX_SEPARATE_PUSHES + 3 <= i64::MAX,
        profile.level < u64::MAX,
    ensures
        final(store)@ == queued_for(config@, old(store)@, user@, *profile, ranking@, now_ms as int),
        final(store).wf(),
{
    let ghost start = store@;
    let push_enabled = push_destination(config, user).is_some();
    store.queue_events(user, &profile.events, profile.day, now_ms, push_enabled);
    proof {
        lemma_queued_numbers(start, user@, event_views(profile.events@), profile.day as int, now_ms as int, push_enabled);
    }
    let ghost told = store@;
    if store.nudges_enabled(user) {
        let list = nudges(profile, ahead_of(ranking, profile.week_xp));
        let ghost all = nudge_views(list@);
        let mut i: usize = 0;
        assert(all.take(0) =~= Seq::<NudgeModel>::empty());
        assert(all.len() <= 3);
        while i < list.len()
            invariant
                all == nudge_views(list@),
                i <= list@.len() <= 3,
                told.next_id + 3 <= i64::MAX,
                store@ == nudged_all(told, user@, all.take(i as int), profile.day as int, now_ms as int),
                store@.next_id <= told.next_id + i,
                store.wf(),
            decreases list@.len() - i,
        {
            let nudge = &list[i];
            proof {
                assert(all.take(i + 1).drop_last() =~= all.take(i as int));
                assert(all.take(i + 1).last() == nudge@);
            }
            let message = Outgoing {
                to: user,
                from: "",
                title: nudge.title.as_str(),
                body: nudge.body.as_str(),
                kind: "nudge",
            };
            assert(message@ == own_nudge(user@, nudge@));
            store.send_once(&message, nudge.key.as_str(), profile.day, now_ms, false);
            i = i + 1;
        }
        assert(all.take(i as int) =~= all);
    }
}

/// What a player whose streak is at risk is told tonight.
pub open spec fn warning_text(p: Profile) -> Seq<char> {
    "Your "@ + decimal(p.streak as nat) + " day streak ends tonight. "@ + (if !p.freezes_enabled {
        "Streak freezes are turned off."@
    } else if p.freezes > 0 {
        "A freeze would cover you, but why spend it?"@
    } else {
        "No freezes left."@
    })
}

/// What a player whose streak is at risk is told tonight.
pub fn streak_warning_body(profile: &Profile) -> (res: String)
    ensures
        res@ == warning_text(*profile),
{
    let head = around("Your ", profile.streak, " day streak ends tonight. ");
    let tail = if !profile.freezes_enabled {
        "Streak freezes are turned off."
    } else if profile.freezes > 0 {
        "A freeze would cover you, but why spend it?"
    } else {
        "No freezes left."
    };
    joined(head.as_str(), tail)
}

/// Whether a reminder may be pushed.
#[derive(Clone, Copy, Debug, PartialEq, Eq, Structural)]
pub enum DeliveryGuard {
    /// It no longer holds.
    Cancel,
    /// Not now.
    Defer,
    /// It may.
    Deliver,
}

/// A reminder as it stands: whether it may be pushed, and what it says now.
#[derive(Clone, Debug)]
pub struct Reminder {
    pub guard: DeliveryGuard,
    pub body: String,
}

/// A push to be made, as text.
pub struct PushModel {
    pub base: Seq<char>,
    pub topic: Seq<char>,
    pub title: Seq<char>,
    pub body: Seq<char>,
    pub tag: Seq<char>,
    pub priority: Seq<char>,
    pub timeout_ns: u64,
}

/// A push to be made.
#[derive(Clone, Debug)]
pub struct Push {
    pub base: String,
    pub topic: String,
    pub title: String,
    pub body: String,
    pub tag: &'static str,
    pub priority: &'static str,
    /// How long it may take, in nanoseconds.
    pub timeout_ns: u64,
}

impl View for Push {
    type V = PushModel;

    open spec fn view(&self) -> PushModel {
        PushModel {
            base: self.base@,
            topic: self.topic@,
            title: self.title@,
            body: self.body@,
            tag: self.tag@,
            priority: self.priority@,
            timeout_ns: self.timeout_ns,
        }
    }
}

/// What to do about a delivery, as text.
pub enum StepModel {
    Stop,
    CancelReminder,
    Done,
    Push(PushModel),
}

/// What to do about a delivery.
#[derive(Clone, Debug)]
pub enum Step {
    /// There is no time left for this delivery, nor for those that follow.
    Stop,
    /// The reminder is to be cancelled.
    CancelReminder,
    /// There is nothing left to do about this delivery.
    Done,
    /// The push is to be made, and its outcome noted.
    Push(Push),
}

impl View for Step {
    type V = StepModel;

    open spec fn view(&self) -> StepModel {
        match self {
            Step::Stop => StepModel::Stop,
            Step::CancelReminder => StepModel::CancelReminder,
            Step::Done => StepModel::Done,
            Step::Push(p) => StepModel::Push(p@),
        }
    }
}

/// Whether a kind of notification is a reminder.
pub open spec fn is_reminder(kind: Seq<char>) -> bool {
    kind.len() >= "reminder_"@.len() && kind.take("reminder_"@.len() as int) == "reminder_"@
}

/// Whether a text begins with another one.
pub fn begins_with(text: &str, prefix: &str) -> (res: bool)
    ensures
        res == (text@.len() >= prefix@.len() && text@.take(prefix@.len() as int) == prefix@),
{
    let t = characters(text);
    let p = characters(prefix);
    if t.len() < p.len() {
        return false;
    }
    let mut i: usize = 0;
    while i < p.len()
        invariant
            t@ == text@,
            p@ == prefix@,
            i <= p@.len() <= t@.len(),
            forall|k: int| 0 <= k < i ==> t@[k] == #[trigger] p@[k],
        decreases p@.len() - i,
    {
        if t[i] != p[i] {
            assert(text@.take(prefix@.len() as int)[i as int] != prefix@[i as int]);
            return false;
        }
        i = i + 1;
    }
    assert(text@.take(prefix@.len() as int) =~= prefix@);
    true
}

/// The tag of a push.
pub open spec fn tag_of(kind: Seq<char>) -> Seq<char> {
    if kind == "event"@ {
        "tada"@
    } else if kind == "risk"@ || kind == "reminder_urgent"@ {
        "fire"@
    } else {
        "white_check_mark"@
    }
}

/// The priority of a push.
pub open spec fn priority_of(kind: Seq<char>) -> Seq<char> {
    if is_reminder(kind) && kind != "reminder_urgent"@ {
        "default"@
    } else {
        "high"@
    }
}

/// Whether a warning still holds: it is of today, and the streak is at risk.
pub open spec fn warning_holds(p: Option<Profile>, day: int) -> bool {
    p matches Some(profile) && profile.day == day && profile.at_risk
}

/// What a delivery says, or nothing where it no longer holds.
pub open spec fn current_body(n: NotificationModel, p: Option<Profile>, reminder: Option<Seq<char>>) -> Option<Seq<char>> {
    if n.kind == "risk"@ {
        if warning_holds(p, n.day) {
            Some(warning_text(p->0))
        } else {
            None
        }
    } else {
        match reminder {
            Some(body) => Some(body),
            None => Some(n.body),
        }
    }
}

/// What is known of a reminder, as text.
pub open spec fn reminder_guard(r: Option<Reminder>) -> DeliveryGuard {
    match r {
        Some(reminder) => reminder.guard,
        None => DeliveryGuard::Cancel,
    }
}

/// What a reminder says now.
pub open spec fn reminder_body(r: Option<Reminder>) -> Option<Seq<char>> {
    match r {
        Some(reminder) => Some(reminder.body@),
        None => None,
    }
}

/// A notification with a body of its own.
pub open spec fn with_body(n: NotificationModel, body: Seq<char>) -> NotificationModel {
    NotificationModel { body, ..n }
}

/// What is shown of a notification now: a reminder only where it still holds,
/// and in the words that hold now.
pub open spec fn shown_now(n: NotificationModel, reminder: Option<Reminder>) -> Option<NotificationModel> {
    if !is_reminder(n.kind) {
        Some(n)
    } else if reminder_guard(reminder) == DeliveryGuard::Deliver {
        Some(with_body(n, reminder_body(reminder)->0))
    } else {
        None
    }
}

/// What is shown of some notifications now.
pub open spec fn inbox_now(list: Seq<NotificationModel>, reminders: Seq<Option<Reminder>>) -> Seq<NotificationModel>
    decreases list.len(),
{
    if list.len() == 0 {
        Seq::empty()
    } else {
        let before = inbox_now(list.drop_last(), reminders);
        match shown_now(list.last(), reminders[list.len() - 1]) {
            Some(n) => before.push(n),
            None => before,
        }
    }
}

fn copy_notification(n: &Notification) -> (res: Notification)
    ensures
        res@ == n@,
{
    Notification {
        id: n.id,
        title: n.title.clone(),
        body: n.body.clone(),
        day: n.day,
        created_at: n.created_at,
        sender: n.sender.clone(),
        replied: n.replied,
        kind: n.kind.clone(),
        read_at: n.read_at,
        challenge_id: n.challenge_id,
        route: match &n.route {
            Some(route) => Some(route.clone()),
            None => None,
        },
        action_required: n.action_required,
    }
}

/// Show an inbox as it is now. What is known of each notification as a reminder
/// stands in the same place.
pub fn current_inbox(list: &Vec<Notification>, reminders: &Vec<Option<Reminder>>) -> (res: Vec<Notification>)
    requires
        list@.len() == reminders@.len(),
    ensures
        rows(res@) == inbox_now(rows(list@), reminders@),
{
    let ghost all = rows(list@);
    let mut res: Vec<Notification> = Vec::new();
    let mut i: usize = 0;
    assert(all.take(0) =~= Seq::<NotificationModel>::empty());
    assert(rows(res@) =~= Seq::<NotificationModel>::empty());
    while i < list.len()
        invariant
            all == rows(list@),
            list@.len() == reminders@.len(),
            i <= list@.len(),
            rows(res@) == inbox_now(all.take(i as int), reminders@),
        decreases list@.len() - i,
    {
        let ghost res0 = res@;
        proof {
            assert(all.take(i + 1).drop_last() =~= all.take(i as int));
            assert(all.take(i + 1).last() == list@[i as int]@);
        }
        let mut notice = copy_notification(&list[i]);
        let mut shown = true;
        if begins_with(list[i].kind.as_str(), "reminder_") {
            shown = false;
            if let Some(r) = &reminders[i] {
                if let DeliveryGuard::Deliver = r.guard {
                    notice.body = r.body.clone();
                    shown = true;
                }
            }
        }
        if shown {
            let ghost seen = notice@;
            res.push(notice);
            assert(rows(res@) =~= rows(res0).push(seen));
        }
        i = i + 1;
    }
    assert(all.take(i as int) =~= all);
    res
}

/// What is stored when a push is put off.
pub open spec fn deferred(m: StoreModel, id: int, now: int) -> StoreModel {
    StoreModel {
        notifications: changed_where(m.notifications, unpushed(id), Change::Defer((now + PUSH_LEASE_MS) as i64)),
        ..m
    }
}

/// What to do about a delivery of which nothing stands in the way, and what
/// is stored then.
pub open spec fn pushing(
    c: ConfigModel,
    m: StoreModel,
    user: Seq<char>,
    n: NotificationModel,
    body: Seq<char>,
    remaining_ns: u64,
    now: int,
) -> (StoreModel, StepModel) {
    match destination_of(c, user) {
        None => (deferred(m, n.id, now), StepModel::Done),
        Some((base, topic)) => if any(m.notifications, attemptable(m, n.id, now)) {
            (
                attempted(m, n.id, now),
                StepModel::Push(
                    PushModel {
                        base,
                        topic,
                        title: n.title,
                        body,
                        tag: tag_of(n.kind),
                        priority: priority_of(n.kind),
                        timeout_ns: if remaining_ns < PUSH_TIMEOUT_NS {
                            remaining_ns
                        } else {
                            PUSH_TIMEOUT_NS
                        },
                    },
                ),
            )
        } else {
            (attempted(m, n.id, now), StepModel::Done)
        },
    }
}

/// What to do about a delivery, and what is stored then: reminders and
/// warnings that no longer hold are cancelled, whoever cannot be reached is
/// tried again later, and everything else is pushed, unless that is being done.
pub open spec fn delivered(
    c: ConfigModel,
    m: StoreModel,
    user: Seq<char>,
    n: NotificationModel,
    p: Option<Profile>,
    reminder: Option<Reminder>,
    remaining_ns: u64,
    now: int,
) -> (StoreModel, StepModel) {
    if remaining_ns == 0 {
        (m, StepModel::Stop)
    } else if is_reminder(n.kind) && reminder_guard(reminder) == DeliveryGuard::Cancel {
        (m, StepModel::CancelReminder)
    } else if is_reminder(n.kind) && reminder_guard(reminder) == DeliveryGuard::Defer {
        (deferred(m, n.id, now), StepModel::Done)
    } else {
        let said = if is_reminder(n.kind) {
            reminder_body(reminder)
        } else {
            None
        };
        match current_body(n, p, said) {
            None => (StoreModel { notifications: kept(m.notifications, not_warning(n.id)), ..m }, StepModel::Done),
            Some(body) => pushing(c, m, user, n, body, remaining_ns, now),
        }
    }
}

fn push_step(config: &Config, store: &mut Store, delivery: &Delivery, body: String, remaining_ns: u64, now_ms: i64) -> (res: Step)
    requires
        old(store).wf(),
        fits(now_ms - INBOX_AGE_MS),
        fits(now_ms + PUSH_LEASE_MS),
    ensures
        (final(store)@, res@) == pushing(
            config@,
            old(store)@,
            delivery.user@,
            delivery.notification@,
            body@,
            remaining_ns,
            now_ms as int,
        ),
        final(store).wf(),
{
    let id: i64 = delivery.notification.id;
    let (base, topic) = match push_destination(config, delivery.user.as_str()) {
        Some(found) => found,
        None => {
            store.defer_push(id, now_ms);
            return Step::Done;
        },
    };
    if !store.begin_push(id, now_ms) {
        return Step::Done;
    }
    let kind = delivery.notification.kind.as_str();
    let tag: &'static str = if same(kind, "event") {
        "tada"
    } else if same(kind, "risk") || same(kind, "reminder_urgent") {
        "fire"
    } else {
        "white_check_mark"
    };
    let priority: &'static str = if begins_with(kind, "reminder_") && !same(kind, "reminder_urgent") {
        "default"
    } else {
        "high"
    };
    let timeout_ns: u64 = if remaining_ns < PUSH_TIMEOUT_NS {
        remaining_ns
    } else {
        PUSH_TIMEOUT_NS
    };
    let title = delivery.notification.title.clone();
    Step::Push(Push { base, topic, title, body, tag, priority, timeout_ns })
}

/// Decide what to do about a delivery, with so many nanoseconds left.
pub fn deliver(
    config: &Config,
    store: &mut Store,
    delivery: &Delivery,
    profile: Option<&Profile>,
    reminder: Option<&Reminder>,
    remaining_ns: u64,
    now_ms: i64,
) -> (res: Step)
    requires
        old(store).wf(),
        fits(now_ms - INBOX_AGE_MS),
        fits(now_ms + PUSH_LEASE_MS),
    ensures
        (final(store)@, res@) == delivered(
            config@,
            old(store)@,
            delivery.user@,
            delivery.notification@,
            match profile {
                Some(p) => Some(*p),
                None => None,
            },
            match reminder {
                Some(r) => Some(*r),
                None => None,
            },
            remaining_ns,
            now_ms as int,
        ),
        final(store).wf(),
{
    if remaining_ns == 0 {
        return Step::Stop;
    }
    let id: i64 = delivery.notification.id;
    let kind = delivery.notification.kind.as_str();
    let mut body = delivery.notification.body.clone();
    if begins_with(kind, "reminder_") {
        match reminder {
            Some(r) => match r.guard {
                DeliveryGuard::Cancel => {
                    return Step::CancelReminder;
                },
                DeliveryGuard::Defer => {
                    store.defer_push(id, now_ms);
                    return Step::Done;
                },
                DeliveryGuard::Deliver => {
                    body = r.body.clone();
                },
            },
            None => {
                return Step::CancelReminder;
            },
        }
    }
    if same(kind, "risk") {
        let holds = match profile {
            Some(p) => p.day == delivery.notification.day && p.at_risk,
            None => false,
        };
        if !holds {
            store.cancel_streak_warning(id);
            return Step::Done;
        }
        if let Some(p) = profile {
            body = streak_warning_body(p);
        }
    }
    push_step(config, store, delivery, body, remaining_ns, now_ms)
}

/// A text without the slashes that it ends with.
pub open spec fn without_slashes(s: Seq<char>) -> Seq<char>
    decreases s.len(),
{
    if s.len() > 0 && s.last() == '/' {
        without_slashes(s.drop_last())
    } else {
        s
    }
}

fn cut_slashes(s: &str) -> (res: String)
    ensures
        res@ == without_slashes(s@),
{
    let v = characters(s);
    let mut to: usize = v.len();
    assert(v@.take(to as int) =~= v@);
    while to > 0 && v[to - 1] == '/'
        invariant
            to <= v@.len(),
            without_slashes(v@) == without_slashes(v@.take(to as int)),
        decreases to,
    {
        assert(v@.take(to as int).drop_last() =~= v@.take(to - 1));
        to = to - 1;
    }
    assert(v@.subrange(0, to as int) =~= v@.take(to as int));
    slice_text(&v, 0, to)
}

/// Where a push is sent.
pub fn push_url(base: &str, topic: &str) -> (res: String)
    ensures
        res@ == without_slashes(base@) + "/"@ + topic@,
{
    let head = cut_slashes(base);
    let middle = joined(head.as_str(), "/");
    joined(middle.as_str(), topic)
}

/// Where a click on a push leads.
pub fn click_url(public_url: &str, user: &str) -> (res: String)
    ensures
        res@ == without_slashes(public_url@) + "/#"@ + user@,
{
    let head = cut_slashes(public_url);
    let middle = joined(head.as_str(), "/#");
    joined(middle.as_str(), user)
}

/// A warning of another day, or about a streak that is safe, is taken back and
/// never pushed.
pub proof fn law_stale_warnings_are_not_pushed(
    c: ConfigModel,
    m: StoreModel,
    user: Seq<char>,
    n: NotificationModel,
    p: Option<Profile>,
    remaining_ns: u64,
    now: int,
)
    requires
        n.kind == "risk"@,
        !warning_holds(p, n.day),
    ensures
        !(delivered(c, m, user, n, p, None, remaining_ns, now).1 is Push),
        remaining_ns > 0 ==> !any(
            delivered(c, m, user, n, p, None, remaining_ns, now).0.notifications,
            crate::inbox::is_warning(n.id),
        ),
{
    reveal_strlit("risk");
    reveal_strlit("reminder_");
    if remaining_ns > 0 {
        let after = kept(m.notifications, not_warning(n.id));
        crate::table::lemma_kept(m.notifications, not_warning(n.id));
        assert forall|i: int| 0 <= i < after.len() implies !crate::inbox::is_warning(n.id)(#[trigger] after[i]) by {
            assert(after.contains(after[i]));
        }
    }
}

/// Nothing is pushed to a player without a destination, and no push takes
/// longer than what is left.
pub proof fn law_pushes_have_a_destination_and_a_limit(
    c: ConfigModel,
    m: StoreModel,
    user: Seq<char>,
    n: NotificationModel,
    p: Option<Profile>,
    reminder: Option<Reminder>,
    remaining_ns: u64,
    now: int,
)
    ensures
        delivered(c, m, user, n, p, reminder, remaining_ns, now).1 matches StepModel::Push(push) ==> destination_of(c, user)
            == Some((push.base, push.topic)) && 0 < push.timeout_ns <= remaining_ns && push.timeout_ns <= PUSH_TIMEOUT_NS,
{
}

} // verus!
