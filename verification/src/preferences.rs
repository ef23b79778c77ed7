//! What players see and change of their preferences.

use vstd::prelude::*;
use crate::calendar::fits;
use crate::config::{by_name, can_receive, deck_recipients, display_in, display_of, is_player, name_in_order, named, player_names, recipient_accounts, Config, ConfigModel};
use crate::decks::{all_different, are_valid_preferences, deck_ids, decks_of, incoming_set, is_valid_incoming, is_valid_preference, is_valid_text, recipient_users, valid_incoming_settings, valid_message, valid_preferences, IncomingSettings, Preference, Recipient, Settings, SettingsUpdate, ShownDeck, MAX_DECKS, MAX_MESSAGE};
use crate::feedback::{in_order, lemma_in_order};
use crate::inbox::{answered, nudges_set, refuses, shows_activity, unread_of, Activity, changed_where, Change, ACTIVITY_AGE_MS, ACTIVITY_DAYS, INBOX_AGE_MS};
use crate::sharing::{add_all, knows_sender, objection, objection_to, preferred};
use crate::store::{clock_of, Store, StoreModel};
use crate::subscriptions::{has_left, is_valid_choice, shares_enabled, subscribed};
use crate::table::{any, has, rows, value_for};
use crate::text::{texts, trim, trimmed};

verus! {

/// Why a request is refused.
#[derive(Clone, Copy, Debug, PartialEq, Eq, Structural)]
pub enum Refusal {
    /// The request is not well formed.
    BadRequest,
    /// The request holds too much.
    TooLarge,
    /// There is nothing of that kind.
    NotFound,
    /// The request could not be carried out.
    Failed,
}

/// Whether settings show the decks of a player.
pub open spec fn shows_settings(s: Settings, c: ConfigModel, m: StoreModel, user: Seq<char>) -> bool {
    &&& rows(s.decks@) == decks_of(m, user)
    &&& rows(s.recipients@) == named(c, in_order(can_receive(c, m, user)))
    &&& s.nudges == (value_for(m.player_settings, user) == Some(true))
}

/// The names of some decks that are shown.
pub open spec fn shown_ids(list: Seq<ShownDeck>) -> Seq<Seq<char>> {
    list.map_values(|d: ShownDeck| d.id)
}

/// The decks of a player, and with whom they can be shared.
pub fn deck_settings(config: &Config, store: &Store, user: &str) -> (res: Settings)
    ensures
        shows_settings(res, config@, store@, user@),
        deck_ids(res.decks@) == shown_ids(decks_of(store@, user@)),
        recipient_users(res.recipients@) == in_order(can_receive(config@, store@, user@)),
        forall|r: Seq<char>| #[trigger]
            recipient_users(res.recipients@).contains(r) <==> can_receive(config@, store@, user@)(r),
{
    let decks = store.decks(user);
    let recipients = deck_recipients(config, store, user);
    let nudges = store.nudges_enabled(user);
    proof {
        assert(deck_ids(decks@) =~= shown_ids(rows(decks@)));
        assert(recipient_users(recipients@) =~= recipient_accounts(rows(recipients@)));
    }
    Settings { decks, recipients, nudges }
}

/// Whether a player may save some choices: they are well formed, of decks that
/// are known, for players with whom decks can be shared.
pub open spec fn is_valid_update(c: ConfigModel, m: StoreModel, user: Seq<char>, preferences: Seq<Preference>) -> bool {
    are_valid_preferences(preferences, shown_ids(decks_of(m, user)), in_order(can_receive(c, m, user)))
}

/// What is stored after a player has saved settings.
pub open spec fn updated(m: StoreModel, user: Seq<char>, update: SettingsUpdate) -> StoreModel {
    let chosen = preferred(m, user, update.decks@);
    match update.nudges {
        Some(enabled) => nudges_set(chosen, user, enabled),
        None => chosen,
    }
}

proof fn lemma_receivers_never_object(m: StoreModel, c: ConfigModel, user: Seq<char>, recipients: Seq<Seq<char>>)
    requires
        all_different(recipients),
        forall|i: int| 0 <= i < recipients.len() ==> can_receive(c, m, user)(#[trigger] recipients[i]),
    ensures
        objection_to(m, user, recipients) is None,
    decreases recipients.len(),
{
    if recipients.len() > 0 {
        let init = recipients.drop_last();
        assert forall|i: int, j: int| 0 <= i < j < init.len() implies (#[trigger] init[i]) != (#[trigger] init[j]) by {
            assert(recipients[i] != recipients[j]);
        }
        assert forall|i: int| 0 <= i < init.len() implies can_receive(c, m, user)(#[trigger] init[i]) by {
            assert(can_receive(c, m, user)(recipients[i]));
        }
        lemma_receivers_never_object(m, c, user, init);
        assert(can_receive(c, m, user)(recipients[recipients.len() - 1]));
        if init.contains(recipients.last()) {
            let i = choose|i: int| 0 <= i < init.len() && init[i] == recipients.last();
            assert(recipients[i] != recipients[recipients.len() - 1]);
        }
    }
}

proof fn lemma_each_is_saved(m: StoreModel, c: ConfigModel, user: Seq<char>, preferences: Seq<Preference>, decks: Seq<Seq<char>>, users: Seq<Seq<char>>)
    requires
        forall|i: int| 0 <= i < preferences.len() ==> is_valid_preference(#[trigger] preferences[i], decks, users),
        forall|r: Seq<char>| #[trigger] users.contains(r) <==> can_receive(c, m, user)(r),
    ensures
        objection(m, user, preferences) is None,
    decreases preferences.len(),
{
    if preferences.len() > 0 {
        let init = preferences.drop_last();
        assert forall|i: int| 0 <= i < init.len() implies is_valid_preference(#[trigger] init[i], decks, users) by {
            assert(is_valid_preference(preferences[i], decks, users));
        }
        lemma_each_is_saved(m, c, user, init, decks, users);
        let p = preferences.last();
        assert(is_valid_preference(preferences[preferences.len() - 1], decks, users));
        let recipients = rows(p.recipients@);
        assert forall|i: int| 0 <= i < recipients.len() implies can_receive(c, m, user)(#[trigger] recipients[i]) by {
            assert(users.contains(p.recipients@[i]@));
        }
        lemma_receivers_never_object(m, c, user, recipients);
    }
}

/// Save the settings of a player. Whatever is well formed is saved.
pub fn set_decks(config: &Config, store: &mut Store, user: &str, update: &SettingsUpdate) -> (res: Result<Settings, Refusal>)
    requires
        old(store).wf(),
    ensures
        match res {
            Ok(settings) => is_valid_update(config@, old(store)@, user@, update.decks@) && final(store)@ == updated(
                old(store)@,
                user@,
                *update,
            ) && shows_settings(settings, config@, final(store)@, user@),
            Err(refusal) => final(store)@ == old(store)@ && !is_valid_update(
                config@,
                old(store)@,
                user@,
                update.decks@,
            ) && refusal == (if update.decks@.len() > MAX_DECKS {
                Refusal::TooLarge
            } else {
                Refusal::BadRequest
            }),
        },
        final(store).wf(),
{
    if update.decks.len() > MAX_DECKS {
        return Err(Refusal::TooLarge);
    }
    let current = deck_settings(config, store, user);
    if !valid_preferences(&update.decks, &current.decks, &current.recipients) {
        return Err(Refusal::BadRequest);
    }
    proof {
        lemma_each_is_saved(
            store@,
            config@,
            user@,
            update.decks@,
            deck_ids(current.decks@),
            recipient_users(current.recipients@),
        );
    }
    let _ = store.set_deck_preferences(user, &update.decks);
    if let Some(nudges) = update.nudges {
        store.set_nudges(user, nudges);
    }
    Ok(deck_settings(config, store, user))
}

/// What a recipient wants to hear, and from whom there is something to hear.
#[derive(Clone, Debug)]
pub struct IncomingPreferences {
    pub settings: IncomingSettings,
    pub senders: Vec<Recipient>,
    pub unsubscribed_senders: Vec<String>,
    pub sharing_senders: Vec<String>,
}

/// Whether a player is offered as a sender to a recipient: someone else who is
/// configured, known to the recipient, or left by the recipient.
pub open spec fn is_offered(c: ConfigModel, m: StoreModel, user: Seq<char>, now: int) -> spec_fn(Seq<char>) -> bool {
    |sender: Seq<char>|
        sender != user && (is_player(c, sender) || knows_sender(m, user, sender, now) || m.unsubscriptions.contains(
            (user, sender),
        ))
}

/// Whether a sender shares something with a recipient.
pub open spec fn is_sharing(m: StoreModel, user: Seq<char>) -> spec_fn(Seq<char>) -> bool {
    |sender: Seq<char>| sender != user && any(m.deck_recipients, shares_enabled(m, sender, user))
}

/// Whether a recipient has muted a sender.
pub open spec fn has_muted(m: StoreModel, user: Seq<char>) -> spec_fn(Seq<char>) -> bool {
    |sender: Seq<char>| m.muted_senders.contains((user, sender))
}

/// Whether preferences show what a recipient wants to hear.
pub open spec fn shows_incoming(p: IncomingPreferences, c: ConfigModel, m: StoreModel, user: Seq<char>, now: int) -> bool {
    &&& p.settings.enabled == !refuses(m, user)
    &&& texts(p.settings.muted_senders@) == in_order(has_muted(m, user))
    &&& rows(p.senders@) == by_name(named(c, in_order(is_offered(c, m, user, now))))
    &&& texts(p.unsubscribed_senders@) == in_order(has_left(m, user))
    &&& texts(p.sharing_senders@) == in_order(is_sharing(m, user))
}

fn offered(config: &Config, store: &Store, user: &str, now_ms: i64) -> (res: Vec<String>)
    requires
        fits(now_ms - INBOX_AGE_MS),
    ensures
        texts(res@) == in_order(is_offered(config@, store@, user@, now_ms as int)),
        forall|s: Seq<char>| #[trigger]
            texts(res@).contains(s) <==> is_offered(config@, store@, user@, now_ms as int)(s),
{
    let ghost test = is_offered(config@, store@, user@, now_ms as int);
    let mut all = player_names(config);
    let ghost first = texts(all@);
    let known = store.known_incoming_senders(user, now_ms);
    add_all(&mut all, &known);
    let ghost second = texts(all@);
    let left = store.unsubscribed_senders(user);
    add_all(&mut all, &left);
    let mut list: Vec<String> = Vec::new();
    let ghost empty = texts(list@);
    assert(empty =~= Seq::<Seq<char>>::empty());
    crate::sharing::add_others(&mut list, &all, user);
    proof {
        assert forall|s: Seq<char>| #[trigger] texts(list@).contains(s) <==> test(s) by {
            assert(first.contains(s) <==> is_player(config@, s));
            assert(texts(known@).contains(s) <==> knows_sender(store@, user@, s, now_ms as int));
            assert(second.contains(s) <==> first.contains(s) || texts(known@).contains(s));
            assert(texts(all@).contains(s) <==> second.contains(s) || texts(left@).contains(s));
        }
        lemma_in_order(texts(list@), test);
    }
    list
}

/// What a recipient wants to hear, and from whom there is something to hear.
pub fn incoming_preferences(config: &Config, store: &Store, user: &str, now_ms: i64) -> (res: IncomingPreferences)
    requires
        fits(now_ms - INBOX_AGE_MS),
    ensures
        shows_incoming(res, config@, store@, user@, now_ms as int),
{
    let settings = store.incoming_settings(user);
    let names = offered(config, store, user, now_ms);
    let senders = name_in_order(config, &names);
    let unsubscribed_senders = store.unsubscribed_senders(user);
    let sharing_senders = store.sharing_senders(user);
    proof {
        lemma_in_order(texts(settings.muted_senders@), has_muted(store@, user@));
        lemma_in_order(texts(sharing_senders@), is_sharing(store@, user@));
    }
    IncomingPreferences { settings, senders, unsubscribed_senders, sharing_senders }
}

/// Whether all of some senders are offered to a recipient.
pub open spec fn all_offered(c: ConfigModel, m: StoreModel, user: Seq<char>, senders: Seq<Seq<char>>, now: int) -> bool {
    forall|i: int| 0 <= i < senders.len() ==> is_offered(c, m, user, now)(#[trigger] senders[i])
}

fn are_offered(config: &Config, store: &Store, user: &str, senders: &Vec<String>, now_ms: i64) -> (res: bool)
    requires
        fits(now_ms - INBOX_AGE_MS),
    ensures
        res == all_offered(config@, store@, user@, rows(senders@), now_ms as int),
{
    let ghost test = is_offered(config@, store@, user@, now_ms as int);
    let ghost all = rows(senders@);
    let names = offered(config, store, user, now_ms);
    let mut i: usize = 0;
    while i < senders.len()
        invariant
            all == rows(senders@),
            test == is_offered(config@, store@, user@, now_ms as int),
            i <= senders@.len(),
            forall|s: Seq<char>| #[trigger] texts(names@).contains(s) <==> test(s),
            forall|k: int| 0 <= k < i ==> test(#[trigger] all[k]),
        decreases senders@.len() - i,
    {
        assert(texts(names@) =~= rows(names@));
        assert(all[i as int] == senders@[i as int]@);
        if !crate::decks::lists(&names, senders[i].as_str()) {
            assert(!texts(names@).contains(all[i as int]));
            return false;
        }
        assert(texts(names@).contains(all[i as int]));
        i = i + 1;
    }
    true
}

/// Save what a recipient wants to hear. Only senders who are offered can be
/// muted.
pub fn set_incoming_preferences(config: &Config, store: &mut Store, user: &str, update: &IncomingSettings, now_ms: i64) -> (res: Result<
    IncomingPreferences,
    Refusal,
>)
    requires
        old(store).wf(),
        fits(now_ms - INBOX_AGE_MS),
    ensures
        match res {
            Ok(preferences) => is_valid_incoming(rows(update.muted_senders@)) && all_offered(
                config@,
                old(store)@,
                user@,
                rows(update.muted_senders@),
                now_ms as int,
            ) && final(store)@ == incoming_set(old(store)@, user@, update.enabled, rows(update.muted_senders@))
                && shows_incoming(preferences, config@, final(store)@, user@, now_ms as int),
            Err(refusal) => refusal == Refusal::BadRequest && final(store)@ == old(store)@ && !(is_valid_incoming(
                rows(update.muted_senders@),
            ) && all_offered(config@, old(store)@, user@, rows(update.muted_senders@), now_ms as int)),
        },
        final(store).wf(),
{
    if !valid_incoming_settings(update) || !are_offered(config, store, user, &update.muted_senders, now_ms) {
        return Err(Refusal::BadRequest);
    }
    let _ = store.set_incoming_settings(user, update);
    Ok(incoming_preferences(config, store, user, now_ms))
}

/// Save from whom a recipient receives nothing. Only senders who are offered
/// can be left.
pub fn set_deck_subscriptions(
    config: &Config,
    store: &mut Store,
    user: &str,
    update: &crate::subscriptions::Settings,
    now_ms: i64,
) -> (res: Result<IncomingPreferences, Refusal>)
    requires
        old(store).wf(),
        fits(now_ms - INBOX_AGE_MS),
        forall|s: Seq<char>| #[trigger]
            old(store)@.unsubscriptions.contains((user@, s)) ==> clock_of(old(store)@, s).tells_day(now_ms as int),
    ensures
        match res {
            Ok(preferences) => is_valid_choice(user@, rows(update.unsubscribed_senders@)) && all_offered(
                config@,
                old(store)@,
                user@,
                rows(update.unsubscribed_senders@),
                now_ms as int,
            ) && final(store)@ == subscribed(
                old(store)@,
                user@,
                update.enabled,
                rows(update.unsubscribed_senders@),
                now_ms as int,
            ) && shows_incoming(preferences, config@, final(store)@, user@, now_ms as int),
            Err(refusal) => refusal == Refusal::BadRequest && final(store)@ == old(store)@ && !(is_valid_choice(
                user@,
                rows(update.unsubscribed_senders@),
            ) && all_offered(config@, old(store)@, user@, rows(update.unsubscribed_senders@), now_ms as int)),
        },
        final(store).wf(),
{
    if !update.valid(user) || !are_offered(config, store, user, &update.unsubscribed_senders, now_ms) {
        return Err(Refusal::BadRequest);
    }
    let _ = store.set_deck_subscriptions(user, update, now_ms);
    Ok(incoming_preferences(config, store, user, now_ms))
}

/// Answer a notification, and tell as whom its sender is shown.
pub fn answer(config: &Config, store: &mut Store, user: &str, id: i64, message: &str, now_ms: i64) -> (res: Result<String, Refusal>)
    requires
        old(store).wf(),
        old(store).next_id < i64::MAX,
    ensures
        final(store).wf(),
        ({
            let said = trimmed(message@);
            let (after, sender) = answered(
                old(store)@,
                user@,
                display_in(config@, user@),
                id as int,
                said,
                now_ms as int,
            );
            if !is_valid_text(said, MAX_MESSAGE as int) {
                res == Err::<String, Refusal>(Refusal::BadRequest) && final(store)@ == old(store)@
            } else {
                final(store)@ == after && match sender {
                    Some(name) => res matches Ok(shown) && shown@ == display_in(config@, name),
                    None => res == Err::<String, Refusal>(Refusal::NotFound),
                }
            }
        }),
{
    let said = trim(message);
    if !valid_message(said.as_str()) {
        return Err(Refusal::BadRequest);
    }
    let display = display_of(config, user);
    match store.reply(user, display.as_str(), id, said.as_str(), now_ms) {
        Some(sender) => Ok(display_of(config, sender.as_str())),
        None => Err(Refusal::NotFound),
    }
}

/// Whether a page of activity may be asked for: of thirty or ninety days, up to
/// two hundred entries, before a number that can be given out.
pub open spec fn is_valid_page(days: u32, limit: u32, before: Option<i64>) -> bool {
    &&& days == 30 || days == 90
    &&& 1 <= limit <= 200
    &&& before matches Some(id) ==> id > 0
}

/// A page of activity, of ninety days and a hundred entries where nothing else
/// is asked for.
pub fn activity_page(store: &Store, user: &str, days: Option<u32>, before: Option<i64>, limit: Option<u32>, now_ms: i64) -> (res: Result<
    Activity,
    Refusal,
>)
    requires
        fits(now_ms - ACTIVITY_AGE_MS),
    ensures
        ({
            let days = match days {
                Some(n) => n,
                None => ACTIVITY_DAYS,
            };
            let limit = match limit {
                Some(n) => n,
                None => 100,
            };
            match res {
                Ok(page) => is_valid_page(days, limit, before) && shows_activity(
                    page,
                    store@,
                    user@,
                    now_ms as int,
                    days as int,
                    before,
                    limit as nat,
                ),
                Err(refusal) => refusal == Refusal::BadRequest && !is_valid_page(days, limit, before),
            }
        }),
{
    let days: u32 = match days {
        Some(n) => n,
        None => ACTIVITY_DAYS,
    };
    let limit: u32 = match limit {
        Some(n) => n,
        None => 100,
    };
    let known = match before {
        Some(id) => id > 0,
        None => true,
    };
    if !(days == 30 || days == 90) || limit < 1 || limit > 200 || !known {
        return Err(Refusal::BadRequest);
    }
    Ok(store.activity(user, now_ms, days, before, limit))
}

/// Whether some notifications may be marked as read: up to two hundred, of
/// numbers that can be given out.
pub open spec fn are_valid_ids(ids: Seq<i64>) -> bool {
    ids.len() <= 200 && forall|i: int| 0 <= i < ids.len() ==> #[trigger] ids[i] > 0
}

/// Mark some notifications as read.
pub fn mark_read(store: &mut Store, user: &str, ids: &[i64], now_ms: i64) -> (res: Result<(), Refusal>)
    requires
        old(store).wf(),
        fits(now_ms - ACTIVITY_AGE_MS),
    ensures
        final(store).wf(),
        match res {
            Ok(()) => are_valid_ids(ids@) && final(store)@ == (StoreModel {
                notifications: changed_where(
                    old(store)@.notifications,
                    unread_of(user@, ids@, now_ms as int),
                    Change::Read(now_ms),
                ),
                ..old(store)@
            }),
            Err(refusal) => refusal == Refusal::BadRequest && !are_valid_ids(ids@) && final(store)@ == old(store)@,
        },
{
    if ids.len() > 200 {
        return Err(Refusal::BadRequest);
    }
    let mut i: usize = 0;
    while i < ids.len()
        invariant
            i <= ids@.len() <= 200,
            store.wf(),
            *store == *old(store),
            forall|k: int| 0 <= k < i ==> #[trigger] ids@[k] > 0,
        decreases ids@.len() - i,
    {
        if ids[i] <= 0 {
            return Err(Refusal::BadRequest);
        }
        i = i + 1;
    }
    store.read_activity(user, ids, now_ms);
    Ok(())
}

} // verus!
