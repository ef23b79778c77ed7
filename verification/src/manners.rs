//! Who can be written to, what may be said, and what others get to hear: what
//! holds of it for every player.

use vstd::prelude::*;
use crate::avatars::{etag_of, is_fit, normalized, picture_of, revision_of, saved, AvatarModel, PictureError};
use crate::command::{outgoing, send_refusal, MessageModel, SendErrorModel};
use crate::completions::{completion, completion_text, recorded};
use crate::config::{can_be_challenged, can_receive, destination_of, display_in, is_player, is_reachable, ConfigModel};
use crate::decks::{are_valid_snapshots, is_valid_preference, is_valid_snapshot, lemma_push_contains, snapshot_ids, Preference, Snapshot};
use crate::preferences::{are_valid_ids, is_valid_page};
use crate::store::StoreModel;
use crate::table::{law_put_is_found, value_for};
use crate::text::{is_control, lemma_decimal_injective, signed_decimal, trimmed};

verus! {

/// A player is called by the display name that was given, or else by the account.
pub proof fn law_players_have_a_name(c: ConfigModel, user: Seq<char>)
    ensures
        !is_player(c, user) ==> display_in(c, user) == user,
        is_player(c, user) && (value_for(c.users, user)->0).display is None ==> display_in(c, user) == user,
        is_player(c, user) && (value_for(c.users, user)->0).display is Some ==> display_in(c, user) == (value_for(
            c.users,
            user,
        )->0).display->0,
{
}

/// A player can be reached through a client, by a token, or where pushes go. Only
/// others who can be reached, and who did not leave the sender, can be sent decks;
/// only others with a client can be challenged.
pub proof fn law_players_are_reached_by_client_or_push(c: ConfigModel, m: StoreModel, user: Seq<char>, other: Seq<char>)
    requires
        is_player(c, other),
    ensures
        ({
            let u = value_for(c.users, other)->0;
            let client = u.token is Some && u.token->0 != Seq::<char>::empty();
            &&& is_reachable(c, u) <==> client || destination_of(c, other) is Some
            &&& can_receive(c, m, user)(other) <==> other != user && !m.unsubscriptions.contains((other, user)) && (client
                || destination_of(c, other) is Some)
            &&& can_be_challenged(c, user)(other) <==> other != user && client
        }),
{
    let u = value_for(c.users, other)->0;
    if let Some(token) = u.token {
        if token.len() == 0 {
            assert(token =~= Seq::<char>::empty());
        }
    }
}

/// Pushes go to the topic of a player on the server of everyone, both without white
/// space around, and nowhere where one of them is missing or blank.
pub proof fn law_pushes_go_to_the_topic(c: ConfigModel, user: Seq<char>)
    ensures
        !is_player(c, user) || c.ntfy is None ==> destination_of(c, user) is None,
        is_player(c, user) && c.ntfy is Some ==> {
            let topic = (value_for(c.users, user)->0).ntfy_topic;
            &&& topic is None ==> destination_of(c, user) is None
            &&& topic is Some && (trimmed(c.ntfy->0).len() == 0 || trimmed(topic->0).len() == 0) ==> destination_of(
                c,
                user,
            ) is None
            &&& topic is Some && trimmed(c.ntfy->0).len() > 0 && trimmed(topic->0).len() > 0 ==> destination_of(c, user)
                == Some((trimmed(c.ntfy->0), trimmed(topic->0)))
        },
{
}

/// A message is sent between players, with up to two hundred bytes of text on one
/// line; a stranger is named, the recipient first.
pub proof fn law_messages_are_short_and_among_players(c: ConfigModel, m: MessageModel)
    ensures
        send_refusal(c, m) is None ==> is_player(c, m.to) && trimmed(m.text).len() > 0 && vstd::utf8::encode_utf8(
            m.text,
        ).len() <= 200,
        !is_player(c, m.to) ==> send_refusal(c, m) == Some(SendErrorModel::NotAPlayer(m.to)),
        is_player(c, m.to) && m.from is Some && !is_player(c, m.from->0) ==> send_refusal(c, m) == Some(
            SendErrorModel::NotAPlayer(m.from->0),
        ),
        is_player(c, m.to) && (m.from is Some ==> is_player(c, m.from->0)) && (vstd::utf8::encode_utf8(m.text).len()
            > 200 || trimmed(m.text).len() == 0 || m.text.contains('\n')) ==> send_refusal(c, m) == Some(
            SendErrorModel::NotAMessage,
        ),
{
    if m.text.contains('\n') {
        let i = choose|i: int| 0 <= i < m.text.len() && m.text[i] == '\n';
        assert(is_control(m.text[i]));
    }
}

/// A message goes to its recipient as it was written, from its sender if it has
/// one, under the title that was given, or else under the sender's name.
pub proof fn law_messages_go_out_as_written(c: ConfigModel, m: MessageModel)
    ensures
        outgoing(c, m).to == m.to,
        outgoing(c, m).body == m.text,
        outgoing(c, m).kind == "message"@,
        m.from is Some ==> outgoing(c, m).from == m.from->0,
        m.from is None ==> outgoing(c, m).from == ""@,
        m.title is Some ==> outgoing(c, m).title == m.title->0,
        m.title is None && m.from is Some ==> outgoing(c, m).title == "💬 "@ + display_in(c, m.from->0),
        m.title is None && m.from is None ==> outgoing(c, m).title == "ankiquest"@,
{
}

/// Activity is looked at for thirty or ninety days, up to two hundred items at a
/// time.
pub proof fn law_pages_of_activity_are_limited(days: u32, limit: u32, before: Option<i64>, ids: Seq<i64>)
    ensures
        is_valid_page(days, limit, before) ==> (days == 30 || days == 90) && 0 < limit <= 200,
        is_valid_page(days, limit, None) <== (days == 30 || days == 90) && 0 < limit <= 200,
        is_valid_page(days, limit, None) && before is Some ==> (is_valid_page(days, limit, before) <==> before->0 > 0),
        are_valid_ids(ids) ==> ids.len() <= 200 && !ids.contains(0),
        ids.len() <= 200 && (forall|i: int| 0 <= i < ids.len() ==> #[trigger] ids[i] > 0) ==> are_valid_ids(ids),
{
}

/// A picture is no larger than 4096 by 4096 pixels and 2 MiB, and a JPEG or a PNG.
pub proof fn law_pictures_are_limited(bytes: Seq<u8>, width: int, height: int, total: int)
    ensures
        bytes.len() > 2 * 1_024 * 1_024 ==> normalized(bytes) == Err::<Seq<u8>, PictureError>(
            PictureError::TooManyBytes,
        ),
        bytes.len() < 3 ==> normalized(bytes) == Err::<Seq<u8>, PictureError>(PictureError::Invalid),
        is_fit(width, height, total) ==> 0 < width <= 4_096 && 0 < height <= 4_096 && total <= 64 * 1_024 * 1_024,
        0 < width <= 4_096 && 0 < height <= 4_096 && total <= 64 * 1_024 * 1_024 ==> is_fit(width, height, total),
{
    if 0 < width <= 4_096 && 0 < height <= 4_096 {
        assert(width * height <= 4_096 * 4_096) by (nonlinear_arith)
            requires
                0 < width <= 4_096,
                0 < height <= 4_096,
        ;
    }
}

/// A picture that was saved is what is shown, under a number one higher than
/// before; one that was taken away is not shown; and those of others stay.
pub proof fn law_saved_pictures_are_shown(
    m: Seq<(Seq<char>, AvatarModel)>,
    user: Seq<char>,
    image: Option<Seq<u8>>,
    other: Seq<char>,
)
    ensures
        ({
            let after = saved(m, user, image);
            &&& image is Some ==> picture_of(after, user) == Some((revision_of(m, user) + 1, image->0))
            &&& image is None ==> picture_of(after, user) is None
            &&& revision_of(after, user) == revision_of(m, user) + 1
            &&& other != user ==> picture_of(after, other) == picture_of(m, other) && revision_of(after, other)
                == revision_of(m, other)
        }),
{
    law_put_is_found(m, user, AvatarModel { revision: revision_of(m, user) + 1, image }, other);
}

/// The tags of two pictures of a player are the same only where the numbers are.
pub proof fn law_tags_tell_pictures_apart(a: int, b: int)
    requires
        0 <= a,
        0 <= b,
        etag_of(a) == etag_of(b),
    ensures
        a == b,
{
    let head = "\"avatar-"@;
    let tail = "\""@;
    reveal_strlit("\"");
    let n = head.len() as int;
    let x = signed_decimal(a);
    let y = signed_decimal(b);
    assert(etag_of(a).len() == n + x.len() + 1);
    assert(etag_of(b).len() == n + y.len() + 1);
    assert(etag_of(a).subrange(n, n + x.len()) =~= x);
    assert(etag_of(b).subrange(n, n + y.len()) =~= y);
    lemma_decimal_injective(a as nat, b as nat);
}

/// A deck is announced where it was reported today with nothing left and something
/// reviewed, for the first time today, and not silently.
pub proof fn law_only_finished_decks_are_announced(m: StoreModel, user: Seq<char>, s: Snapshot, today: i64, silent: bool)
    ensures
        ({
            let (after, found) = recorded(m, user, seq![s], today, silent);
            let done = s.day == today && s.remaining == 0 && s.reviewed_today > 0;
            let again = m.deck_completions.contains((user, s.id@, today));
            &&& found.len() <= 1
            &&& found.len() == 1 ==> done && !again && !silent && found[0].name == s.name@ && found[0].reviewed
                == s.reviewed_today
            &&& done ==> after.deck_completions.contains((user, s.id@, today))
            &&& !done ==> after.deck_completions == m.deck_completions
            &&& s.day != today ==> after == m
        }),
{
    let list = seq![s];
    assert(list.drop_last() =~= Seq::<Snapshot>::empty());
    assert(list.last() == s);
    let (before, none) = recorded(m, user, list.drop_last(), today, silent);
    assert(before == m);
    lemma_push_contains(m.deck_completions, (user, s.id@, today), (user, s.id@, today));
}

/// An announcement names who finished what, under the same title for everyone.
pub proof fn law_announcements_name_player_and_deck(display: Seq<char>, name: Seq<char>, to: Seq<char>, from: Seq<char>)
    ensures
        ({
            let said = completion(to, from, completion_text(display, name));
            &&& said.to == to
            &&& said.from == from
            &&& said.title == "Deck complete"@
            &&& said.kind == "completion"@
            &&& display.is_prefix_of(said.body)
            &&& exists|i: int| 0 <= i <= said.body.len() - name.len() && #[trigger] said.body.subrange(i, i + name.len())
                == name
        }),
{
    let body = completion_text(display, name);
    let i = (display.len() + " has finished their "@.len()) as int;
    assert(body.subrange(0, display.len() as int) =~= display);
    assert(body.subrange(i, i + name.len()) =~= name);
}

/// The decks of a player have ids of up to 128 bytes and names of up to 512, all
/// ids different, and there are two thousand at most.
pub proof fn law_decks_are_limited(snapshots: Seq<Snapshot>, i: int, j: int)
    requires
        are_valid_snapshots(snapshots),
        0 <= i < snapshots.len(),
    ensures
        snapshots.len() <= 2_000,
        vstd::utf8::encode_utf8(snapshots[i].id@).len() <= 128,
        vstd::utf8::encode_utf8(snapshots[i].name@).len() <= 512,
        i < j < snapshots.len() ==> snapshots[i].id@ != snapshots[j].id@,
{
    let ids = snapshot_ids(snapshots);
    if i < j < snapshots.len() {
        assert(ids[i] != ids[j]);
    }
    assert(is_valid_snapshot(snapshots[i]));
}

/// A deck that is shared has recipients, a hundred at most, all of them different
/// and among those who can be sent to.
pub proof fn law_shared_decks_have_recipients(p: Preference, decks: Seq<Seq<char>>, users: Seq<Seq<char>>, i: int)
    requires
        is_valid_preference(p, decks, users),
    ensures
        decks.contains(p.id@),
        p.recipients@.len() <= 100,
        p.enabled ==> p.recipients@.len() > 0,
        0 <= i < p.recipients@.len() ==> users.contains(p.recipients@[i]@),
{
}

} // verus!
