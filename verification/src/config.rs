//! Who plays, how players are shown and how they can be reached.

use vstd::prelude::*;
use crate::decks::Recipient;
use crate::feedback::{in_order, lemma_in_order, opt_text};
use crate::pieces::{after_prefix, strip_prefix};
use crate::order::{ascending, comes_before, insert_ascending, precedes};
use crate::ranking::{in_rank, law_ranked_lists_are_in_order, place, ranked};
use crate::store::{has_pair, Store, StoreModel};
use crate::table::{any, append, find_key, first, keyed, lemma_first, rows, value_for};
use crate::text::{same, texts, trim, trimmed};

verus! {

/// What is configured of a player, as text.
pub struct UserModel {
    pub display: Option<Seq<char>>,
    pub ntfy_topic: Option<Seq<char>>,
    pub token: Option<Seq<char>>,
}

/// What is configured of a player: the name that is shown, the topic for
/// pushes and the secret of the client.
#[derive(Clone, Debug)]
pub struct UserConfig {
    pub display: Option<String>,
    pub ntfy_topic: Option<String>,
    pub token: Option<String>,
}

impl View for UserConfig {
    type V = UserModel;

    open spec fn view(&self) -> UserModel {
        UserModel {
            display: opt_text(self.display),
            ntfy_topic: opt_text(self.ntfy_topic),
            token: opt_text(self.token),
        }
    }
}

/// What is configured, as text.
pub struct ConfigModel {
    pub ntfy: Option<Seq<char>>,
    pub users: Seq<(Seq<char>, UserModel)>,
}

/// What is configured: the server for pushes, and the players.
#[derive(Clone, Debug)]
pub struct Config {
    pub ntfy: Option<String>,
    pub users: Vec<(String, UserConfig)>,
}

impl View for Config {
    type V = ConfigModel;

    open spec fn view(&self) -> ConfigModel {
        ConfigModel { ntfy: opt_text(self.ntfy), users: rows(self.users@) }
    }
}

/// The time zone of the week, where none is configured.
pub fn default_week_timezone() -> (res: String)
    ensures
        res@ == "UTC"@,
{
    "UTC".to_owned()
}

/// The hour at which a day of the week begins, where none is configured.
pub fn default_week_rollover_hour() -> (res: u32)
    ensures
        res == 4,
{
    4
}

/// Where the server listens, where nothing is configured.
pub fn default_addr() -> (res: String)
    ensures
        res@ == "127.0.0.1:8097"@,
{
    "127.0.0.1:8097".to_owned()
}

/// Where the state is kept, where nothing is configured.
pub fn default_state() -> (res: String)
    ensures
        res@ == "state"@,
{
    "state".to_owned()
}

/// Whether a player is configured.
pub open spec fn is_player(c: ConfigModel, user: Seq<char>) -> bool {
    value_for(c.users, user) is Some
}

/// Whether a player is configured.
pub fn is_configured(config: &Config, user: &str) -> (res: bool)
    ensures
        res == is_player(config@, user@),
{
    find_key(&config.users, user).is_some()
}

/// How a player is shown: by the configured name, or else by the account.
pub open spec fn display_in(c: ConfigModel, user: Seq<char>) -> Seq<char> {
    match value_for(c.users, user) {
        Some(u) => match u.display {
            Some(display) => display,
            None => user,
        },
        None => user,
    }
}

/// How a player is shown.
pub fn display_of(config: &Config, user: &str) -> (res: String)
    ensures
        res@ == display_in(config@, user@),
{
    match find_key(&config.users, user) {
        Some(i) => {
            assert(config@.users[i as int].1 == config.users@[i as int].1@);
            match &config.users[i].1.display {
                Some(display) => display.clone(),
                None => user.to_owned(),
            }
        },
        None => user.to_owned(),
    }
}

/// Where pushes for a player go: the server and the topic, both of them given
/// and not blank.
pub open spec fn destination_of(c: ConfigModel, user: Seq<char>) -> Option<(Seq<char>, Seq<char>)> {
    match (c.ntfy, value_for(c.users, user)) {
        (Some(base), Some(u)) => match u.ntfy_topic {
            Some(topic) => if trimmed(base).len() > 0 && trimmed(topic).len() > 0 {
                Some((trimmed(base), trimmed(topic)))
            } else {
                None
            },
            None => None,
        },
        _ => None,
    }
}

/// Where pushes for a player go.
pub fn push_destination(config: &Config, user: &str) -> (res: Option<(String, String)>)
    ensures
        match res {
            Some((base, topic)) => destination_of(config@, user@) == Some((base@, topic@)),
            None => destination_of(config@, user@) is None,
        },
{
    let base = match &config.ntfy {
        Some(base) => trim(base.as_str()),
        None => {
            return None;
        },
    };
    let topic = match find_key(&config.users, user) {
        Some(i) => {
            assert(config@.users[i as int].1 == config.users@[i as int].1@);
            match &config.users[i].1.ntfy_topic {
                Some(topic) => trim(topic.as_str()),
                None => {
                    return None;
                },
            }
        },
        None => {
            return None;
        },
    };
    if base.as_str().unicode_len() > 0 && topic.as_str().unicode_len() > 0 {
        Some((base, topic))
    } else {
        None
    }
}

/// Whether a player's client is set up.
pub open spec fn has_client(u: UserModel) -> bool {
    u.token matches Some(token) && token.len() > 0
}

/// Whether a player can be told anything: by a client, or by pushes.
pub open spec fn is_reachable(c: ConfigModel, u: UserModel) -> bool {
    has_client(u) || ((c.ntfy matches Some(base) && trimmed(base).len() > 0) && (u.ntfy_topic matches Some(topic)
        && trimmed(topic).len() > 0))
}

fn says_something(text: &Option<String>) -> (res: bool)
    ensures
        res == (opt_text(*text) matches Some(t) && trimmed(t).len() > 0),
{
    match text {
        Some(t) => {
            let inner = trim(t.as_str());
            inner.as_str().unicode_len() > 0
        },
        None => false,
    }
}

fn is_set_up(user: &UserConfig) -> (res: bool)
    ensures
        res == has_client(user@),
{
    match &user.token {
        Some(token) => token.as_str().unicode_len() > 0,
        None => false,
    }
}

/// Whether a secret lets act for a player: it is not empty, it is the player's,
/// and it is nobody else's.
pub open spec fn acts_for(c: ConfigModel, user: Seq<char>, token: Seq<char>) -> bool {
    &&& token.len() > 0
    &&& value_for(c.users, user) matches Some(u) && u.token == Some(token)
    &&& forall|i: int| 0 <= i < c.users.len() && (#[trigger] c.users[i]).1.token == Some(token) ==> c.users[i].0 == user
}

fn is_secret(user: &UserConfig, token: &str) -> (res: bool)
    ensures
        res == (user@.token == Some(token@)),
{
    match &user.token {
        Some(own) => same(own.as_str(), token),
        None => false,
    }
}

/// Whether what a request says of itself lets it act for a player: it bears the
/// secret of that player alone.
pub fn authorized(config: &Config, user: &str, authorization: Option<&str>) -> (res: bool)
    ensures
        res == (authorization matches Some(header) && (after_prefix(header@, "Bearer "@) matches Some(token)
            && acts_for(config@, user@, token))),
{
    let token = match authorization {
        Some(header) => match strip_prefix(header, "Bearer ") {
            Some(token) => token,
            None => {
                return false;
            },
        },
        None => {
            return false;
        },
    };
    if token.as_str().unicode_len() == 0 {
        return false;
    }
    match find_key(&config.users, user) {
        Some(i) => {
            assert(config@.users[i as int].1 == config.users@[i as int].1@);
            if !is_secret(&config.users[i].1, token.as_str()) {
                return false;
            }
        },
        None => {
            return false;
        },
    }
    let mut k: usize = 0;
    while k < config.users.len()
        invariant
            k <= config.users@.len(),
            authorization matches Some(header) && after_prefix(header@, "Bearer "@) == Some(token@),
            forall|i: int|
                0 <= i < k && (#[trigger] config@.users[i]).1.token == Some(token@) ==> config@.users[i].0 == user@,
        decreases config.users@.len() - k,
    {
        assert(config@.users[k as int] == config.users@[k as int]@);
        if is_secret(&config.users[k].1, token.as_str()) && !same(config.users[k].0.as_str(), user) {
            return false;
        }
        k = k + 1;
    }
    true
}

/// A secret lets act for one player at most.
pub proof fn law_a_token_acts_for_one_player(c: ConfigModel, a: Seq<char>, b: Seq<char>, token: Seq<char>)
    requires
        acts_for(c, a, token),
        acts_for(c, b, token),
    ensures
        a == b,
{
    lemma_first(c.users, keyed(a));
    let i = first(c.users, keyed::<UserModel>(a))->0;
    assert(c.users[i].1.token == Some(token));
}

/// Whether a deck can be shared with a player: someone else, who can be reached
/// and has not unsubscribed.
pub open spec fn can_receive(c: ConfigModel, m: StoreModel, user: Seq<char>) -> spec_fn(Seq<char>) -> bool {
    |candidate: Seq<char>|
        candidate != user && !m.unsubscriptions.contains((candidate, user)) && (value_for(c.users, candidate) matches Some(
            u,
        ) && is_reachable(c, u))
}

/// Whether a player can be challenged: someone else with a client.
pub open spec fn can_be_challenged(c: ConfigModel, user: Seq<char>) -> spec_fn(Seq<char>) -> bool {
    |candidate: Seq<char>| candidate != user && (value_for(c.users, candidate) matches Some(u) && has_client(u))
}

/// Whether a player is configured or in a list.
pub open spec fn takes_part(c: ConfigModel, players: Seq<Seq<char>>) -> spec_fn(Seq<char>) -> bool {
    |user: Seq<char>| is_player(c, user) || players.contains(user)
}

impl View for Recipient {
    type V = (Seq<char>, Seq<char>);

    open spec fn view(&self) -> (Seq<char>, Seq<char>) {
        (self.user@, self.display@)
    }
}

/// Players with their names.
pub open spec fn named(c: ConfigModel, users: Seq<Seq<char>>) -> Seq<(Seq<char>, Seq<char>)> {
    users.map_values(|user: Seq<char>| (user, display_in(c, user)))
}

/// Whether someone comes before someone else: by name, and then by account.
pub open spec fn person_precedes(a: (Seq<char>, Seq<char>), b: (Seq<char>, Seq<char>)) -> bool {
    precedes(a.1, b.1) || (a.1 == b.1 && precedes(a.0, b.0))
}

/// The order of people.
pub open spec fn name_order() -> spec_fn((Seq<char>, Seq<char>), (Seq<char>, Seq<char>)) -> bool {
    |a: (Seq<char>, Seq<char>), b: (Seq<char>, Seq<char>)| person_precedes(a, b)
}

/// People in the order of their names.
pub open spec fn by_name(list: Seq<(Seq<char>, Seq<char>)>) -> Seq<(Seq<char>, Seq<char>)> {
    ranked(list, name_order())
}

fn person_comes_before(a: &Recipient, b: &Recipient) -> (res: bool)
    ensures
        res == person_precedes(a@, b@),
{
    comes_before(a.display.as_str(), b.display.as_str()) || (same(a.display.as_str(), b.display.as_str()) && comes_before(
        a.user.as_str(),
        b.user.as_str(),
    ))
}

/// Name some players.
pub fn name_all(config: &Config, users: &Vec<String>) -> (res: Vec<Recipient>)
    ensures
        rows(res@) == named(config@, texts(users@)),
{
    let ghost all = texts(users@);
    let mut list: Vec<Recipient> = Vec::new();
    let mut i: usize = 0;
    assert(rows(list@) =~= named(config@, all.take(0)));
    while i < users.len()
        invariant
            all == texts(users@),
            i <= users@.len(),
            rows(list@) == named(config@, all.take(i as int)),
        decreases users@.len() - i,
    {
        let user = users[i].as_str();
        append(&mut list, Recipient { user: user.to_owned(), display: display_of(config, user) });
        proof {
            assert(all.take(i + 1) =~= all.take(i as int).push(user@));
            assert(rows(list@) =~= named(config@, all.take(i + 1)));
        }
        i = i + 1;
    }
    assert(all.take(i as int) =~= all);
    list
}

/// Name some players, and put them in the order of their names.
pub fn name_in_order(config: &Config, users: &Vec<String>) -> (res: Vec<Recipient>)
    ensures
        rows(res@) == by_name(named(config@, texts(users@))),
{
    let ghost all = named(config@, texts(users@));
    let mut list: Vec<Recipient> = Vec::new();
    let mut i: usize = 0;
    assert(all.take(0) =~= Seq::<(Seq<char>, Seq<char>)>::empty());
    assert(rows(list@) =~= Seq::<(Seq<char>, Seq<char>)>::empty());
    while i < users.len()
        invariant
            all == named(config@, texts(users@)),
            i <= users@.len(),
            rows(list@) == by_name(all.take(i as int)),
        decreases users@.len() - i,
    {
        let user = users[i].as_str();
        let person = Recipient { user: user.to_owned(), display: display_of(config, user) };
        proof {
            assert(all.take(i + 1).drop_last() =~= all.take(i as int));
            assert(all.take(i + 1).last() == person@);
        }
        let earlier = |a: &Recipient, b: &Recipient| -> (r: bool)
            ensures
                r == person_precedes(a@, b@),
        {
            person_comes_before(a, b)
        };
        place(&mut list, person, earlier, Ghost(name_order()));
        i = i + 1;
    }
    assert(all.take(i as int) =~= all);
    list
}

proof fn lemma_listed_next(c: ConfigModel, i: int, user: Seq<char>)
    requires
        0 <= i < c.users.len(),
    ensures
        any(c.users.take(i + 1), keyed(user)) <==> any(c.users.take(i), keyed(user)) || c.users[i].0 == user,
{
    crate::sharing::lemma_any_next(c.users, keyed(user), i);
}

proof fn lemma_configured(c: ConfigModel, user: Seq<char>)
    ensures
        is_player(c, user) <==> any(c.users, keyed(user)),
{
    lemma_first(c.users, keyed(user));
}

/// With whom a player can share decks, in the order of the accounts.
pub fn deck_recipients(config: &Config, store: &Store, user: &str) -> (res: Vec<Recipient>)
    ensures
        rows(res@) == named(config@, in_order(can_receive(config@, store@, user@))),
        recipient_accounts(rows(res@)) == in_order(can_receive(config@, store@, user@)),
        forall|r: Seq<char>| #[trigger]
            recipient_accounts(rows(res@)).contains(r) <==> can_receive(config@, store@, user@)(r),
{
    let ghost c = config@;
    let ghost test = can_receive(c, store@, user@);
    let enabled = says_something(&config.ntfy);
    let mut list: Vec<String> = Vec::new();
    let mut i: usize = 0;
    assert(texts(list@) =~= Seq::<Seq<char>>::empty());
    while i < config.users.len()
        invariant
            c == config@,
            test == can_receive(c, store@, user@),
            enabled == (c.ntfy matches Some(base) && trimmed(base).len() > 0),
            i <= config.users@.len() == c.users.len(),
            ascending(texts(list@)),
            forall|s: Seq<char>| #[trigger]
                texts(list@).contains(s) <==> any(c.users.take(i as int), keyed(s)) && test(s),
        decreases config.users@.len() - i,
    {
        let ghost before = texts(list@);
        let name = config.users[i].0.as_str();
        assert(c.users[i as int] == config.users@[i as int]@);
        if !same(name, user) && !has_pair(&store.unsubscriptions, name, user) {
            if let Some(k) = find_key(&config.users, name) {
                let found = &config.users[k].1;
                assert(c.users[k as int].1 == found@);
                if is_set_up(found) || (enabled && says_something(&found.ntfy_topic)) {
                    assert(rows(list@) =~= before);
                    insert_ascending(&mut list, name.to_owned());
                    assert(rows(list@) =~= texts(list@));
                }
            }
        }
        proof {
            assert forall|s: Seq<char>| #[trigger]
                texts(list@).contains(s) <==> any(c.users.take(i + 1), keyed(s)) && test(s) by {
                assert(before.contains(s) <==> any(c.users.take(i as int), keyed(s)) && test(s));
                lemma_listed_next(c, i as int, s);
                lemma_first(c.users, keyed(name@));
            }
        }
        i = i + 1;
    }
    proof {
        assert(c.users.take(i as int) =~= c.users);
        assert forall|s: Seq<char>| #[trigger] texts(list@).contains(s) <==> test(s) by {
            lemma_configured(c, s);
        }
        lemma_in_order(texts(list@), test);
    }
    let res = name_all(config, &list);
    assert(recipient_accounts(rows(res@)) =~= texts(list@));
    res
}

/// The accounts of some people.
pub open spec fn recipient_accounts(list: Seq<(Seq<char>, Seq<char>)>) -> Seq<Seq<char>> {
    list.map_values(|p: (Seq<char>, Seq<char>)| p.0)
}

/// Whom a player can challenge, in the order of their names.
pub fn challenge_recipients(config: &Config, user: &str) -> (res: Vec<Recipient>)
    ensures
        rows(res@) == by_name(named(config@, in_order(can_be_challenged(config@, user@)))),
{
    let ghost c = config@;
    let ghost test = can_be_challenged(c, user@);
    let mut list: Vec<String> = Vec::new();
    let mut i: usize = 0;
    assert(texts(list@) =~= Seq::<Seq<char>>::empty());
    while i < config.users.len()
        invariant
            c == config@,
            test == can_be_challenged(c, user@),
            i <= config.users@.len() == c.users.len(),
            ascending(texts(list@)),
            forall|s: Seq<char>| #[trigger]
                texts(list@).contains(s) <==> any(c.users.take(i as int), keyed(s)) && test(s),
        decreases config.users@.len() - i,
    {
        let ghost before = texts(list@);
        let name = config.users[i].0.as_str();
        assert(c.users[i as int] == config.users@[i as int]@);
        if !same(name, user) {
            if let Some(k) = find_key(&config.users, name) {
                let found = &config.users[k].1;
                assert(c.users[k as int].1 == found@);
                if is_set_up(found) {
                    assert(rows(list@) =~= before);
                    insert_ascending(&mut list, name.to_owned());
                    assert(rows(list@) =~= texts(list@));
                }
            }
        }
        proof {
            assert forall|s: Seq<char>| #[trigger]
                texts(list@).contains(s) <==> any(c.users.take(i + 1), keyed(s)) && test(s) by {
                assert(before.contains(s) <==> any(c.users.take(i as int), keyed(s)) && test(s));
                lemma_listed_next(c, i as int, s);
                lemma_first(c.users, keyed(name@));
            }
        }
        i = i + 1;
    }
    proof {
        assert(c.users.take(i as int) =~= c.users);
        assert forall|s: Seq<char>| #[trigger] texts(list@).contains(s) <==> test(s) by {
            lemma_configured(c, s);
        }
        lemma_in_order(texts(list@), test);
    }
    name_in_order(config, &list)
}

/// The configured players, in order.
pub fn player_names(config: &Config) -> (res: Vec<String>)
    ensures
        ascending(texts(res@)),
        forall|s: Seq<char>| #[trigger] texts(res@).contains(s) <==> is_player(config@, s),
{
    let ghost c = config@;
    let mut list: Vec<String> = Vec::new();
    let mut i: usize = 0;
    assert(texts(list@) =~= Seq::<Seq<char>>::empty());
    while i < config.users.len()
        invariant
            c == config@,
            i <= config.users@.len() == c.users.len(),
            ascending(texts(list@)),
            forall|s: Seq<char>| #[trigger] texts(list@).contains(s) <==> any(c.users.take(i as int), keyed(s)),
        decreases config.users@.len() - i,
    {
        let ghost before = texts(list@);
        let name = config.users[i].0.as_str();
        assert(c.users[i as int] == config.users@[i as int]@);
        assert(rows(list@) =~= before);
        insert_ascending(&mut list, name.to_owned());
        assert(rows(list@) =~= texts(list@));
        proof {
            assert forall|s: Seq<char>| #[trigger] texts(list@).contains(s) <==> any(c.users.take(i + 1), keyed(s)) by {
                assert(before.contains(s) <==> any(c.users.take(i as int), keyed(s)));
                lemma_listed_next(c, i as int, s);
            }
        }
        i = i + 1;
    }
    proof {
        assert(c.users.take(i as int) =~= c.users);
        assert forall|s: Seq<char>| #[trigger] texts(list@).contains(s) <==> is_player(c, s) by {
            lemma_configured(c, s);
        }
    }
    list
}

/// Everyone who takes part: the configured players and those who are known, in
/// the order of the accounts.
pub fn participants(config: &Config, players: &Vec<String>) -> (res: Vec<Recipient>)
    ensures
        rows(res@) == named(config@, in_order(takes_part(config@, texts(players@)))),
{
    let mut list = player_names(config);
    let ghost first = texts(list@);
    crate::sharing::add_all(&mut list, players);
    proof {
        let test = takes_part(config@, texts(players@));
        assert forall|s: Seq<char>| #[trigger] texts(list@).contains(s) <==> test(s) by {
            assert(first.contains(s) <==> is_player(config@, s));
        }
        lemma_in_order(texts(list@), test);
    }
    name_all(config, &list)
}

proof fn lemma_person_order(a: (Seq<char>, Seq<char>), b: (Seq<char>, Seq<char>), c: (Seq<char>, Seq<char>))
    ensures
        person_precedes(a, b) || person_precedes(b, a) || a == b,
        !(person_precedes(a, b) && person_precedes(b, a)),
        !person_precedes(a, a),
        person_precedes(a, b) && person_precedes(b, c) ==> person_precedes(a, c),
{
    crate::order::lemma_precedes_total(a.1, b.1);
    crate::order::lemma_precedes_total(a.0, b.0);
    crate::order::lemma_precedes_total(a.0, a.0);
    crate::order::lemma_precedes_total(a.1, a.1);
    if precedes(a.1, b.1) && precedes(b.1, c.1) {
        crate::order::lemma_precedes_transitive(a.1, b.1, c.1);
    }
    if precedes(a.0, b.0) && precedes(b.0, c.0) {
        crate::order::lemma_precedes_transitive(a.0, b.0, c.0);
    }
}

/// Ordering people by name puts them in order and keeps every one of them.
pub proof fn law_people_are_ordered_by_name(list: Seq<(Seq<char>, Seq<char>)>)
    ensures
        in_rank(by_name(list), name_order()),
        forall|x: (Seq<char>, Seq<char>)| #[trigger] by_name(list).contains(x) <==> list.contains(x),
        by_name(list).len() == list.len(),
{
    let before = name_order();
    assert forall|a: (Seq<char>, Seq<char>), b: (Seq<char>, Seq<char>)| #[trigger] before(a, b) implies !before(b, a) by {
        lemma_person_order(a, b, a);
    }
    assert forall|a: (Seq<char>, Seq<char>), b: (Seq<char>, Seq<char>), c: (Seq<char>, Seq<char>)|
        before(a, c) implies #[trigger] before(a, b) || #[trigger] before(b, c) by {
        lemma_person_order(a, b, c);
        lemma_person_order(b, a, c);
        lemma_person_order(b, c, a);
    }
    law_ranked_lists_are_in_order(list, before);
}

} // verus!
