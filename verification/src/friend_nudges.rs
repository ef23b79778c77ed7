//! Nudges that players send each other, one a day to each friend.

use vstd::prelude::*;
use crate::config::{by_name, display_in, display_of, is_configured, is_player, name_in_order, named, player_names, Config, ConfigModel};
use crate::feedback::{in_order, lemma_in_order};
use crate::inbox::{noticed_once, Outgoing, OutgoingModel};
use crate::sharing::add_others;
use crate::store::{clock_of, has_pair, Store, StoreModel};
use crate::table::{append, rows, value_for};
use crate::text::{joined, same, signed_decimal, signed_number, texts};

verus! {

/// A friend, as text.
#[verifier::ext_equal]
pub struct FriendModel {
    pub user: Seq<char>,
    pub display: Seq<char>,
    pub enabled: bool,
    pub sent_today: bool,
}

/// A friend: whether the friend wants nudges, and has had one today.
#[derive(Clone, Debug)]
pub struct Friend {
    pub user: String,
    pub display: String,
    pub enabled: bool,
    pub sent_today: bool,
}

impl View for Friend {
    type V = FriendModel;

    open spec fn view(&self) -> FriendModel {
        FriendModel { user: self.user@, display: self.display@, enabled: self.enabled, sent_today: self.sent_today }
    }
}

/// Whether a player wants nudges, and the player's friends.
#[derive(Clone, Debug)]
pub struct Settings {
    pub receiving: bool,
    pub friends: Vec<Friend>,
}

/// What became of a nudge.
#[derive(Clone, Copy, Debug, PartialEq, Eq, Structural)]
pub enum Outcome {
    /// It was sent.
    Sent,
    /// The recipient is the sender, or not a player.
    Stranger,
    /// The recipient does not want nudges.
    Forbidden,
    /// The recipient has had one today.
    Repeated,
}

/// Under which key a nudge of a day is noted.
pub open spec fn key_of(sender: Seq<char>, day: int) -> Seq<char> {
    "friend-nudge:"@ + signed_decimal(day) + ":"@ + sender
}

/// Under which key a nudge of a day is noted.
pub fn key(sender: &str, day: i64) -> (res: String)
    ensures
        res@ == key_of(sender@, day as int),
{
    let number = signed_number(day);
    let head = joined("friend-nudge:", number.as_str());
    let middle = joined(head.as_str(), ":");
    joined(middle.as_str(), sender)
}

/// Whether a nudge has been sent on a day.
pub open spec fn has_sent(m: StoreModel, sender: Seq<char>, recipient: Seq<char>, day: int) -> bool {
    m.seen.contains((recipient, key_of(sender, day)))
}

/// Whether a nudge has been sent on a day.
pub fn sent(store: &Store, sender: &str, recipient: &str, day: i64) -> (res: bool)
    ensures
        res == has_sent(store@, sender@, recipient@, day as int),
{
    let noted = key(sender, day);
    has_pair(&store.seen, recipient, noted.as_str())
}

/// Whether a player wants nudges.
pub open spec fn receives(m: StoreModel, user: Seq<char>) -> bool {
    value_for(m.player_settings, user) == Some(true)
}

/// What a nudge says.
pub open spec fn nudge_message(sender: Seq<char>, display: Seq<char>, recipient: Seq<char>) -> OutgoingModel {
    OutgoingModel {
        to: recipient,
        from: sender,
        title: "Time for Anki?"@,
        body: display + " is cheering you on. Make a little time for Anki today!"@,
        kind: "nudge"@,
    }
}

/// What becomes of a nudge to another player, and what is stored then.
pub open spec fn nudged(m: StoreModel, sender: Seq<char>, display: Seq<char>, recipient: Seq<char>, now: int) -> (
    StoreModel,
    Outcome,
) {
    let day = clock_of(m, sender).day_of(now);
    if !receives(m, recipient) {
        (m, Outcome::Forbidden)
    } else if has_sent(m, sender, recipient, day) {
        (m, Outcome::Repeated)
    } else {
        (
            noticed_once(m, nudge_message(sender, display, recipient), key_of(sender, day), day, now, false),
            Outcome::Sent,
        )
    }
}

/// Send a nudge to another player. The limit and the delivery come together.
pub fn send(store: &mut Store, sender: &str, display: &str, recipient: &str, now_ms: i64) -> (res: Outcome)
    requires
        old(store).wf(),
        old(store).next_id < i64::MAX,
        clock_of(old(store)@, sender@).tells_day(now_ms as int),
    ensures
        (final(store)@, res) == nudged(old(store)@, sender@, display@, recipient@, now_ms as int),
        final(store).wf(),
{
    if !store.nudges_enabled(recipient) {
        return Outcome::Forbidden;
    }
    let clock = store.clock(sender);
    let day: i64 = clock.day(now_ms);
    if sent(store, sender, recipient, day) {
        return Outcome::Repeated;
    }
    let body = joined(display, " is cheering you on. Make a little time for Anki today!");
    let noted = key(sender, day);
    let message = Outgoing { to: recipient, from: sender, title: "Time for Anki?", body: body.as_str(), kind: "nudge" };
    assert(message@ == nudge_message(sender@, display@, recipient@));
    store.send_once(&message, noted.as_str(), day, now_ms, false);
    Outcome::Sent
}

/// Send a nudge to a configured player.
pub fn nudge(config: &Config, store: &mut Store, user: &str, recipient: &str, now_ms: i64) -> (res: Outcome)
    requires
        old(store).wf(),
        old(store).next_id < i64::MAX,
        clock_of(old(store)@, user@).tells_day(now_ms as int),
    ensures
        (final(store)@, res) == (if recipient@ == user@ || !is_player(config@, recipient@) {
            (old(store)@, Outcome::Stranger)
        } else {
            nudged(old(store)@, user@, display_in(config@, user@), recipient@, now_ms as int)
        }),
        final(store).wf(),
{
    if same(recipient, user) || !is_configured(config, recipient) {
        return Outcome::Stranger;
    }
    let display = display_of(config, user);
    send(store, user, display.as_str(), recipient, now_ms)
}

/// Whether someone is another configured player.
pub open spec fn is_friend(c: ConfigModel, user: Seq<char>) -> spec_fn(Seq<char>) -> bool {
    |friend: Seq<char>| friend != user && is_player(c, friend)
}

/// People as friends of a player.
pub open spec fn as_friends(m: StoreModel, people: Seq<(Seq<char>, Seq<char>)>, user: Seq<char>, day: int) -> Seq<FriendModel> {
    people.map_values(
        |p: (Seq<char>, Seq<char>)|
            FriendModel { user: p.0, display: p.1, enabled: receives(m, p.0), sent_today: has_sent(m, user, p.0, day) },
    )
}

/// The friends of a player, in the order of their names.
pub fn settings(config: &Config, store: &Store, user: &str, now_ms: i64) -> (res: Settings)
    requires
        clock_of(store@, user@).tells_day(now_ms as int),
    ensures
        res.receiving == receives(store@, user@),
        rows(res.friends@) == as_friends(
            store@,
            by_name(named(config@, in_order(is_friend(config@, user@)))),
            user@,
            clock_of(store@, user@).day_of(now_ms as int),
        ),
{
    let clock = store.clock(user);
    let day: i64 = clock.day(now_ms);
    let names = player_names(config);
    let mut others: Vec<String> = Vec::new();
    let ghost empty = texts(others@);
    assert(empty =~= Seq::<Seq<char>>::empty());
    add_others(&mut others, &names, user);
    proof {
        let test = is_friend(config@, user@);
        assert forall|s: Seq<char>| #[trigger] texts(others@).contains(s) <==> test(s) by {
            assert(texts(names@).contains(s) <==> is_player(config@, s));
        }
        lemma_in_order(texts(others@), test);
    }
    let people = name_in_order(config, &others);
    let ghost all = rows(people@);
    let mut friends: Vec<Friend> = Vec::new();
    let mut i: usize = 0;
    assert(rows(friends@) =~= as_friends(store@, all.take(0), user@, day as int));
    while i < people.len()
        invariant
            all == rows(people@),
            i <= people@.len(),
            rows(friends@) == as_friends(store@, all.take(i as int), user@, day as int),
        decreases people@.len() - i,
    {
        let name = people[i].user.as_str();
        let friend = Friend {
            user: name.to_owned(),
            display: people[i].display.clone(),
            enabled: store.nudges_enabled(name),
            sent_today: sent(store, user, name, day),
        };
        append(&mut friends, friend);
        proof {
            assert(all.take(i + 1) =~= all.take(i as int).push(people@[i as int]@));
            assert(rows(friends@) =~= as_friends(store@, all.take(i + 1), user@, day as int));
        }
        i = i + 1;
    }
    assert(all.take(i as int) =~= all);
    Settings { receiving: store.nudges_enabled(user), friends }
}

/// After a nudge was sent, another one to the same friend on the same day is
/// refused and changes nothing.
pub proof fn law_one_nudge_a_day(m: StoreModel, sender: Seq<char>, display: Seq<char>, recipient: Seq<char>, now: int, later: int)
    requires
        nudged(m, sender, display, recipient, now).1 == Outcome::Sent,
        clock_of(m, sender).day_of(later) == clock_of(m, sender).day_of(now),
    ensures
        ({
            let after = nudged(m, sender, display, recipient, now).0;
            nudged(after, sender, display, recipient, later) == (after, Outcome::Repeated)
        }),
{
    let day = clock_of(m, sender).day_of(now);
    let row = (recipient, key_of(sender, day));
    crate::decks::lemma_push_contains(m.seen, row, row);
}

} // verus!
