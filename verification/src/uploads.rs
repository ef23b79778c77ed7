//! Reviews as they come in: what an upload changes, what a preview shows, and
//! what is read from a collection.

use vstd::prelude::*;
use crate::calendar::Clock;
use crate::completions::{announcement_views, law_announcements_are_bounded, law_announcing_leaves_the_study_alone, published, Announcer};
use crate::config::{display_in, display_of, Config, ConfigModel};
use crate::decks::{are_valid_snapshots, valid_clock, valid_snapshots, Snapshot, MAX_DECKS};
use crate::feedback::Announcement;
use crate::freezes::{FreezePolicy, FreezePreference, MAX_FREEZES};
use crate::game::{computable, compute_with_freezes, event_views, shows_profile, Event, EventModel, Profile};
use crate::inbox::fresh_events;
use crate::limits::can_compute;
use crate::preferences::Refusal;
use crate::quests::Review;
use crate::sharing::{catalog_ids, pruned};
use crate::store::{add_review, clock_of, in_time_order, law_deleted_reviews_are_gone, law_uploads_add_and_never_replace, lemma_with_review, reviews_of, sound, upserted, with_reviews, Store, StoreModel};
use crate::table::{kept, value_for};
use crate::week::Week;

verus! {

/// How many reviews an upload or a preview may hold.
pub const MAX_PENDING: usize = 5000;

/// What a client uploads.
#[derive(Clone, Debug)]
pub struct Upload {
    pub reviews: Vec<Review>,
    pub deleted: Vec<i64>,
    pub clock: Clock,
    pub silent: bool,
    pub decks: Option<Vec<Snapshot>>,
    pub catalog: bool,
}

/// The decks in an upload.
pub open spec fn uploaded_decks(u: Upload) -> Seq<Snapshot> {
    match u.decks {
        Some(decks) => decks@,
        None => Seq::empty(),
    }
}

/// Whether a clock is well formed.
pub open spec fn is_valid_clock(clock: Clock) -> bool {
    -1440 <= clock.offset_west_min <= 1440 && 0 <= clock.rollover_hour <= 23
}

/// Why an upload is refused, if it is.
pub open spec fn upload_refusal(u: Upload) -> Option<Refusal> {
    if u.reviews@.len() > MAX_PENDING || u.deleted@.len() > MAX_PENDING || uploaded_decks(u).len() > MAX_DECKS {
        Some(Refusal::TooLarge)
    } else if !is_valid_clock(u.clock) || !are_valid_snapshots(uploaded_decks(u)) {
        Some(Refusal::BadRequest)
    } else {
        None
    }
}

/// Why an upload is refused, if it is.
pub fn check_upload(upload: &Upload) -> (res: Option<Refusal>)
    ensures
        res == upload_refusal(*upload),
{
    if upload.reviews.len() > MAX_PENDING || upload.deleted.len() > MAX_PENDING {
        return Some(Refusal::TooLarge);
    }
    if let Some(decks) = &upload.decks {
        if decks.len() > MAX_DECKS {
            return Some(Refusal::TooLarge);
        }
    }
    if !valid_clock(upload.clock) {
        return Some(Refusal::BadRequest);
    }
    if let Some(decks) = &upload.decks {
        if !valid_snapshots(decks) {
            return Some(Refusal::BadRequest);
        }
    }
    None
}

/// A clock that is well formed tells the day of every instant.
pub proof fn law_valid_clocks_tell_the_day(clock: Clock, ms: i64)
    requires
        is_valid_clock(clock),
    ensures
        clock.tells_day(ms as int),
{
}

/// Whether a review counts: manual changes of the schedule do not.
pub open spec fn counts() -> spec_fn(Review) -> bool {
    |r: Review| r.kind < 4
}

fn counting(reviews: &Vec<Review>) -> (res: Vec<Review>)
    ensures
        res@ == kept(reviews@, counts()),
{
    let mut res: Vec<Review> = Vec::new();
    let mut i: usize = 0;
    assert(reviews@.take(0) =~= Seq::<Review>::empty());
    while i < reviews.len()
        invariant
            i <= reviews@.len(),
            res@ == kept(reviews@.take(i as int), counts()),
        decreases reviews@.len() - i,
    {
        proof {
            assert(reviews@.take(i + 1).drop_last() =~= reviews@.take(i as int));
        }
        if reviews[i].kind < 4 {
            res.push(reviews[i]);
        }
        i = i + 1;
    }
    assert(reviews@.take(i as int) =~= reviews@);
    res
}

/// Whether an upload announces nothing: it says so, or it is a player's first.
pub open spec fn is_silent(m: StoreModel, user: Seq<char>, u: Upload) -> bool {
    u.silent || value_for(m.clocks, user) is None
}

/// What is stored and announced after an upload: its reviews and its clock are
/// stored, its decks are recorded, and where it holds a whole catalog other
/// decks are gone.
pub open spec fn uploaded(c: ConfigModel, m: StoreModel, user: Seq<char>, u: Upload, now: int) -> (
    StoreModel,
    Seq<(Seq<char>, nat)>,
) {
    let stored = upserted(m, user, kept(u.reviews@, counts()), u.deleted@, u.clock);
    match u.decks {
        Some(decks) => {
            let (known, list) = published(
                stored,
                Announcer { user, display: display_in(c, user) },
                decks@,
                u.clock.day_of(now) as i64,
                is_silent(m, user, u),
                now,
            );
            if u.catalog {
                (pruned(known, user, catalog_ids(decks@)), list)
            } else {
                (known, list)
            }
        },
        None => (stored, Seq::empty()),
    }
}

/// What an upload has led to.
pub struct Uploaded {
    pub announced: Vec<Announcement>,
    /// Whether what the player has achieved so far is to be taken as known.
    pub silent: bool,
}

/// Store an upload, and announce the decks that it completes.
pub fn upload(config: &Config, store: &mut Store, user: &str, request: &Upload, now_ms: i64) -> (res: Result<Uploaded, Refusal>)
    requires
        old(store).wf(),
        upload_refusal(*request) is None ==> uploaded(config@, old(store)@, user@, *request, now_ms as int).0.next_id
            <= i64::MAX,
    ensures
        final(store).wf(),
        match upload_refusal(*request) {
            Some(refusal) => res == Err::<Uploaded, Refusal>(refusal) && final(store)@ == old(store)@,
            None => res matches Ok(done) && (final(store)@, announcement_views(done.announced@)) == uploaded(
                config@,
                old(store)@,
                user@,
                *request,
                now_ms as int,
            ) && done.silent == is_silent(old(store)@, user@, *request),
        },
{
    if let Some(refusal) = check_upload(request) {
        return Err(refusal);
    }
    proof {
        law_valid_clocks_tell_the_day(request.clock, now_ms);
    }
    let silent = request.silent || !store.is_known(user);
    let reviews = counting(&request.reviews);
    store.upsert(user, &reviews, &request.deleted, request.clock);
    let mut announced: Vec<Announcement> = Vec::new();
    assert(announcement_views(announced@) =~= Seq::<(Seq<char>, nat)>::empty());
    if let Some(decks) = &request.decks {
        let display = display_of(config, user);
        announced = store.record_decks(user, display.as_str(), decks, request.clock, silent, now_ms);
        if request.catalog {
            store.prune_decks(user, decks);
        }
    }
    Ok(Uploaded { announced, silent })
}

/// An upload leads to no more notifications than decks may be reported, times
/// those with whom anything is shared.
pub proof fn law_uploads_are_bounded(c: ConfigModel, m: StoreModel, user: Seq<char>, u: Upload, now: int)
    requires
        upload_refusal(u) is None,
    ensures
        uploaded(c, m, user, u, now).0.next_id <= m.next_id + MAX_DECKS * m.deck_recipients.len(),
{
    let stored = upserted(m, user, kept(u.reviews@, counts()), u.deleted@, u.clock);
    let most = m.deck_recipients.len();
    assert(0 <= MAX_DECKS * most) by (nonlinear_arith);
    if let Some(decks) = u.decks {
        law_announcements_are_bounded(
            stored,
            Announcer { user, display: display_in(c, user) },
            decks@,
            u.clock.day_of(now) as i64,
            is_silent(m, user, u),
            now,
        );
        assert(decks@.len() * most <= MAX_DECKS * most) by (nonlinear_arith)
            requires
                decks@.len() <= MAX_DECKS,
        ;
    }
}

/// What is stored when some events are taken as known.
pub open spec fn consumed(m: StoreModel, user: Seq<char>, events: Seq<EventModel>) -> StoreModel {
    StoreModel { seen: fresh_events(m.seen, user, events).0, ..m }
}

/// Take some events as known, so that they are never told.
pub fn consume_events(store: &mut Store, user: &str, events: &[Event])
    ensures
        final(store)@ == consumed(old(store)@, user@, event_views(events@)),
        old(store).wf() ==> final(store).wf(),
{
    let ghost start = store@;
    let ghost all = event_views(events@);
    let mut i: usize = 0;
    assert(all.take(0) =~= Seq::<EventModel>::empty());
    assert(store@ =~= consumed(start, user@, all.take(0)));
    while i < events.len()
        invariant
            all == event_views(events@),
            i <= events@.len(),
            store@ == consumed(start, user@, all.take(i as int)),
            sound(start) ==> store.wf(),
        decreases events@.len() - i,
    {
        proof {
            assert(all.take(i + 1).drop_last() =~= all.take(i as int));
            assert(all.take(i + 1).last().key == events@[i as int].key@);
        }
        let _ = store.mark_seen(user, events[i].key.as_str());
        assert(store@ =~= consumed(start, user@, all.take(i + 1)));
        i = i + 1;
    }
    assert(all.take(i as int) =~= all);
}

/// The time of the last of some reviews, or the epoch.
pub open spec fn last_time(reviews: Seq<Review>) -> i64 {
    if reviews.len() == 0 {
        0
    } else {
        reviews.last().id
    }
}

/// Whether a review is later than a time.
pub open spec fn later_than(at: i64) -> spec_fn(Review) -> bool {
    |r: Review| r.id > at
}

/// Known reviews with those pending ones that are later than all of them, in
/// the order of time, the first of those of the same time.
pub open spec fn merged(known: Seq<Review>, pending: Seq<Review>) -> Seq<Review> {
    known + with_reviews(Seq::empty(), kept(pending, later_than(last_time(known))))
}

/// Known reviews with the pending ones.
pub fn merge(known: &[Review], pending: &[Review]) -> (res: Vec<Review>)
    ensures
        res@ == merged(known@, pending@),
{
    let last: i64 = if known.len() == 0 {
        0
    } else {
        known[known.len() - 1].id
    };
    let mut fresh: Vec<Review> = Vec::new();
    let mut i: usize = 0;
    let ghost test = later_than(last);
    assert(pending@.take(0) =~= Seq::<Review>::empty());
    while i < pending.len()
        invariant
            i <= pending@.len(),
            test == later_than(last),
            in_time_order(fresh@),
            fresh@ == with_reviews(Seq::empty(), kept(pending@.take(i as int), test)),
        decreases pending@.len() - i,
    {
        proof {
            assert(pending@.take(i + 1).drop_last() =~= pending@.take(i as int));
            let before = kept(pending@.take(i as int), test);
            assert(before.push(pending@[i as int]).drop_last() =~= before);
        }
        if pending[i].id > last {
            add_review(&mut fresh, pending[i]);
        }
        i = i + 1;
    }
    assert(pending@.take(i as int) =~= pending@);
    let mut all: Vec<Review> = Vec::new();
    i = 0;
    while i < known.len()
        invariant
            i <= known@.len(),
            all@ == known@.take(i as int),
        decreases known@.len() - i,
    {
        all.push(known[i]);
        assert(all@ =~= known@.take(i + 1));
        i = i + 1;
    }
    assert(all@ =~= known@);
    let ghost later = fresh@;
    i = 0;
    while i < fresh.len()
        invariant
            i <= fresh@.len(),
            fresh@ == later,
            all@ == known@ + later.take(i as int),
        decreases fresh@.len() - i,
    {
        all.push(fresh[i]);
        assert(all@ =~= known@ + later.take(i + 1));
        i = i + 1;
    }
    assert(later.take(i as int) =~= later);
    all
}

/// Reviews that are in the order of time stay so with pending ones.
pub proof fn law_pending_reviews_follow(known: Seq<Review>, pending: Seq<Review>)
    requires
        in_time_order(known),
    ensures
        in_time_order(merged(known, pending)),
        merged(known, pending).take(known.len() as int) == known,
{
    let last = last_time(known);
    let more = kept(pending, later_than(last));
    let fresh = with_reviews(Seq::empty(), more);
    crate::table::lemma_kept(pending, later_than(last));
    lemma_later(more, last);
    let all = merged(known, pending);
    assert forall|i: int, j: int| 0 <= i < j < all.len() implies (#[trigger] all[i]).id < (#[trigger] all[j]).id by {
        let n = known.len() as int;
        if i < n && j >= n {
            assert(fresh[j - n].id > last);
            if i < n - 1 {
                assert(known[i].id < known[n - 1].id);
            }
        } else if j < n {
            assert(known[i].id < known[j].id);
        } else {
            assert(fresh[i - n].id < fresh[j - n].id);
        }
    }
    assert(all.take(known.len() as int) =~= known);
}

proof fn lemma_later(more: Seq<Review>, last: i64)
    requires
        forall|r: Review| #[trigger] more.contains(r) ==> r.id > last,
    ensures
        in_time_order(with_reviews(Seq::empty(), more)),
        forall|i: int|
            0 <= i < with_reviews(Seq::empty(), more).len() ==> (#[trigger] with_reviews(Seq::empty(), more)[i]).id > last,
    decreases more.len(),
{
    if more.len() > 0 {
        let init = more.drop_last();
        assert(more =~= init.push(more.last()));
        assert forall|r: Review| #[trigger] init.contains(r) implies r.id > last by {
            crate::decks::lemma_push_contains(init, more.last(), r);
        }
        lemma_later(init, last);
        let before = with_reviews(Seq::empty(), init);
        let after = with_reviews(Seq::empty(), more);
        lemma_with_review(before, more.last());
        assert forall|i: int| 0 <= i < after.len() implies (#[trigger] after[i]).id > last by {
            assert(after.contains(after[i]));
            if before.contains(after[i]) {
                let k = choose|k: int| 0 <= k < before.len() && before[k] == after[i];
                assert(before[k].id > last);
            } else {
                crate::decks::lemma_push_contains(init, more.last(), more.last());
            }
        }
    }
}

/// What is known of a player: the reviews, the clock and the streak freezes.
pub struct Player {
    pub reviews: Vec<Review>,
    pub clock: Clock,
    pub freeze_policy: FreezePolicy,
}

/// The profile of a player as it would be with some more reviews.
pub fn preview(user: &str, display: &str, player: &Player, pending: &[Review], week: &Week, now_ms: i64) -> (res: Result<
    Profile,
    Refusal,
>)
    requires
        pending@.len() <= MAX_PENDING ==> computable(
            user@,
            merged(player.reviews@, pending@),
            player.clock,
            *week,
            now_ms as int,
            player.freeze_policy.legacy_until,
            player.freeze_policy.preferences@,
        ),
    ensures
        match res {
            Ok(profile) => pending@.len() <= MAX_PENDING && shows_profile(
                profile,
                user@,
                display@,
                merged(player.reviews@, pending@),
                player.clock,
                *week,
                now_ms as int,
                player.freeze_policy.legacy_until,
                player.freeze_policy.preferences@,
            ),
            Err(refusal) => pending@.len() > MAX_PENDING && refusal == Refusal::TooLarge,
        },
{
    if pending.len() > MAX_PENDING {
        return Err(Refusal::TooLarge);
    }
    let reviews = merge(&player.reviews, pending);
    Ok(compute_with_freezes(user, display, &reviews, &player.clock, week, now_ms, &player.freeze_policy))
}

/// The profile of a player as it would be with some more reviews, if it can be
/// computed with them.
pub fn checked_preview(user: &str, display: &str, player: &Player, pending: &[Review], week: &Week, now_ms: i64) -> (res: Option<
    Result<Profile, Refusal>,
>)
    ensures
        match res {
            Some(Ok(profile)) => pending@.len() <= MAX_PENDING && shows_profile(
                profile,
                user@,
                display@,
                merged(player.reviews@, pending@),
                player.clock,
                *week,
                now_ms as int,
                player.freeze_policy.legacy_until,
                player.freeze_policy.preferences@,
            ),
            Some(Err(refusal)) => pending@.len() > MAX_PENDING && refusal == Refusal::TooLarge,
            None => pending@.len() <= MAX_PENDING,
        },
        res is None <==> pending@.len() <= MAX_PENDING && !computable(
            user@,
            merged(player.reviews@, pending@),
            player.clock,
            *week,
            now_ms as int,
            player.freeze_policy.legacy_until,
            player.freeze_policy.preferences@,
        ),
{
    if pending.len() > MAX_PENDING {
        return Some(Err(Refusal::TooLarge));
    }
    let reviews = merge(&player.reviews, pending);
    if !can_compute(user, &reviews, &player.clock, week, now_ms, &player.freeze_policy) {
        return None;
    }
    Some(preview(user, display, player, pending, week, now_ms))
}

/// What a player sees of the streak freezes.
#[derive(Clone, Copy, Debug, PartialEq, Eq, Structural)]
pub struct FreezeSettings {
    pub enabled: bool,
    pub freezes: u32,
    pub capacity: u32,
}

/// What a player sees of the streak freezes: whether they are on, as the last
/// change says, and how many are held.
pub fn freeze_settings(history: &[FreezePreference], profile: Option<&Profile>) -> (res: FreezeSettings)
    ensures
        res.enabled == (history@.len() > 0 && history@.last().enabled),
        res.freezes == (match profile {
            Some(p) => p.stored_freezes,
            None => 0,
        }),
        res.capacity == MAX_FREEZES,
{
    let enabled = history.len() > 0 && history[history.len() - 1].enabled;
    let freezes: u32 = match profile {
        Some(p) => p.stored_freezes,
        None => 0,
    };
    FreezeSettings { enabled, freezes, capacity: MAX_FREEZES }
}

/// After an upload the clock of the player is the one that came with it. A review
/// that it deletes is gone, one that was stored is there if it does not delete it,
/// and the reviews and clocks of other players are as they were.
pub proof fn law_an_upload_stores_its_clock_and_reviews(
    c: ConfigModel,
    m: StoreModel,
    user: Seq<char>,
    u: Upload,
    now: int,
    r: Review,
    other: Seq<char>,
)
    requires
        sound(m),
    ensures
        ({
            let after = uploaded(c, m, user, u, now).0;
            &&& clock_of(after, user) == u.clock
            &&& u.deleted@.contains(r.id) ==> !reviews_of(after, user).contains(r)
            &&& reviews_of(m, user).contains(r) && !u.deleted@.contains(r.id) ==> reviews_of(after, user).contains(r)
            &&& other != user ==> reviews_of(after, other) == reviews_of(m, other) && clock_of(after, other) == clock_of(
                m,
                other,
            )
            &&& u.decks is None ==> uploaded(c, m, user, u, now).1.len() == 0
        }),
{
    let taken = kept(u.reviews@, counts());
    let stored = upserted(m, user, taken, u.deleted@, u.clock);
    law_deleted_reviews_are_gone(m, user, taken, u.deleted@, u.clock, r, other);
    if let Some(decks) = u.decks {
        law_announcing_leaves_the_study_alone(
            stored,
            Announcer { user, display: display_in(c, user) },
            decks@,
            u.clock.day_of(now) as i64,
            is_silent(m, user, u),
            now,
        );
    }
}

/// An upload that deletes nothing adds every review of a kind that counts, at its
/// time.
pub proof fn law_an_upload_adds_its_reviews(c: ConfigModel, m: StoreModel, user: Seq<char>, u: Upload, now: int, r: Review)
    requires
        sound(m),
        u.deleted@.len() == 0,
        u.reviews@.contains(r),
        r.kind <= 3,
    ensures
        exists|x: Review| #[trigger]
            reviews_of(uploaded(c, m, user, u, now).0, user).contains(x) && x.id == r.id,
{
    let taken = kept(u.reviews@, counts());
    assert(u.deleted@ =~= Seq::<i64>::empty());
    crate::table::lemma_kept(u.reviews@, counts());
    assert(counts()(r));
    assert(taken.contains(r));
    law_uploads_add_and_never_replace(m, user, taken, u.clock, r);
    let stored = upserted(m, user, taken, u.deleted@, u.clock);
    if let Some(decks) = u.decks {
        law_announcing_leaves_the_study_alone(
            stored,
            Announcer { user, display: display_in(c, user) },
            decks@,
            u.clock.day_of(now) as i64,
            is_silent(m, user, u),
            now,
        );
    }
    let after = uploaded(c, m, user, u, now).0;
    assert(reviews_of(after, user) == reviews_of(stored, user));
}

/// A preview shows the pending reviews that are later than what is known, and none
/// of the others.
pub proof fn law_only_later_reviews_are_pending(known: Seq<Review>, pending: Seq<Review>, r: Review)
    ensures
        kept(pending, later_than(last_time(known))).contains(r) <==> pending.contains(r) && (known.len() > 0 ==> r.id
            > known.last().id) && (known.len() == 0 ==> r.id > 0),
{
    crate::table::lemma_kept(pending, later_than(last_time(known)));
    assert(later_than(last_time(known))(r) == (r.id > last_time(known)));
}

} // verus!
