//! The command line: serving, or sending one message.

use vstd::prelude::*;
use crate::config::{display_in, display_of, is_configured, is_player, Config, ConfigModel};
use crate::decks::{is_valid_text, valid_message, MAX_MESSAGE};
use crate::delivery::begins_with;
use crate::feedback::opt_text;
use crate::inbox::{noticed, Outgoing, OutgoingModel};
use crate::store::{clock_of, Store};
use crate::text::{around, decimal, joined, same, texts, trim, trimmed};

verus! {

/// How the program is called.
pub const USAGE: &'static str = "usage: ankiquest [config.json] [message <player> <text> [--from <player>] [--title <text>]]";

/// A message to be sent, as text.
#[verifier::ext_equal]
pub struct MessageModel {
    pub to: Seq<char>,
    pub text: Seq<char>,
    pub from: Option<Seq<char>>,
    pub title: Option<Seq<char>>,
}

/// A message to be sent.
#[derive(Clone, Debug, PartialEq)]
pub struct Message {
    pub to: String,
    pub text: String,
    pub from: Option<String>,
    pub title: Option<String>,
}

impl View for Message {
    type V = MessageModel;

    open spec fn view(&self) -> MessageModel {
        MessageModel { to: self.to@, text: self.text@, from: opt_text(self.from), title: opt_text(self.title) }
    }
}

/// Why arguments are not understood, as text.
pub enum ArgsErrorModel {
    Usage,
    NeedsValue(Seq<char>),
    UnknownOption(Seq<char>),
}

/// Why arguments are not understood.
#[derive(Clone, Debug)]
pub enum ArgsError {
    /// They are not those of any command.
    Usage,
    /// An option stands at the end, without its value.
    NeedsValue(String),
    /// There is no such option.
    UnknownOption(String),
}

impl View for ArgsError {
    type V = ArgsErrorModel;

    open spec fn view(&self) -> ArgsErrorModel {
        match self {
            ArgsError::Usage => ArgsErrorModel::Usage,
            ArgsError::NeedsValue(name) => ArgsErrorModel::NeedsValue(name@),
            ArgsError::UnknownOption(name) => ArgsErrorModel::UnknownOption(name@),
        }
    }
}

impl ArgsError {
    /// What the user is told.
    pub open spec fn said(self) -> Seq<char> {
        match self {
            ArgsError::Usage => USAGE@,
            ArgsError::NeedsValue(name) => name@ + " needs a value"@,
            ArgsError::UnknownOption(name) => "unknown option "@ + name@,
        }
    }

    /// What the user is told.
    pub fn message(&self) -> (res: String)
        ensures
            res@ == self.said(),
    {
        match self {
            ArgsError::Usage => USAGE.to_owned(),
            ArgsError::NeedsValue(name) => joined(name.as_str(), " needs a value"),
            ArgsError::UnknownOption(name) => joined("unknown option ", name.as_str()),
        }
    }
}

/// Whether a text begins with another one.
pub open spec fn starts(text: Seq<char>, prefix: Seq<char>) -> bool {
    text.len() >= prefix.len() && text.take(prefix.len() as int) == prefix
}

/// What has been read of a message command.
#[verifier::ext_equal]
pub struct WordsModel {
    pub positional: Seq<Seq<char>>,
    pub from: Option<Seq<char>>,
    pub title: Option<Seq<char>>,
}

/// What a message command says: options with their values, in any order, and
/// everything else in its place.
pub open spec fn read_words(words: Seq<Seq<char>>, read: WordsModel) -> Result<WordsModel, ArgsErrorModel>
    decreases words.len(),
{
    if words.len() == 0 {
        Ok(read)
    } else if words[0] == "--from"@ {
        if words.len() < 2 {
            Err(ArgsErrorModel::NeedsValue("--from"@))
        } else {
            read_words(words.skip(2), WordsModel { from: Some(words[1]), ..read })
        }
    } else if words[0] == "--title"@ {
        if words.len() < 2 {
            Err(ArgsErrorModel::NeedsValue("--title"@))
        } else {
            read_words(words.skip(2), WordsModel { title: Some(words[1]), ..read })
        }
    } else if starts(words[0], "--"@) {
        Err(ArgsErrorModel::UnknownOption(words[0]))
    } else {
        read_words(words.skip(1), WordsModel { positional: read.positional.push(words[0]), ..read })
    }
}

/// The message of a message command: a player and a text.
pub open spec fn message_in(words: Seq<Seq<char>>) -> Result<MessageModel, ArgsErrorModel> {
    match read_words(words, WordsModel { positional: Seq::empty(), from: None, title: None }) {
        Err(e) => Err(e),
        Ok(read) => if read.positional.len() == 2 {
            Ok(
                MessageModel {
                    to: read.positional[0],
                    text: trimmed(read.positional[1]),
                    from: read.from,
                    title: read.title,
                },
            )
        } else {
            Err(ArgsErrorModel::Usage)
        },
    }
}

/// What the arguments say after the path of the configuration, if that comes
/// first: a message, or nothing.
pub open spec fn rest_of(path: Option<Seq<char>>, rest: Seq<Seq<char>>) -> Result<
    (Option<Seq<char>>, Option<MessageModel>),
    ArgsErrorModel,
> {
    if rest.len() == 0 {
        Ok((path, None))
    } else if rest[0] != "message"@ {
        Err(ArgsErrorModel::Usage)
    } else {
        match message_in(rest.skip(1)) {
            Ok(message) => Ok((path, Some(message))),
            Err(e) => Err(e),
        }
    }
}

/// What the arguments say: the path of the configuration, if it is given, and
/// a message, if one is to be sent.
pub open spec fn parsed(args: Seq<Seq<char>>) -> Result<(Option<Seq<char>>, Option<MessageModel>), ArgsErrorModel> {
    if args.len() == 0 {
        Ok((None, None))
    } else if args[0] == "message"@ {
        rest_of(None, args)
    } else if starts(args[0], "-"@) {
        Err(ArgsErrorModel::Usage)
    } else {
        rest_of(Some(args[0]), args.skip(1))
    }
}

fn parse_message(args: &[String], from_word: usize) -> (res: Result<Message, ArgsError>)
    requires
        from_word <= args@.len(),
    ensures
        match res {
            Ok(message) => message_in(texts(args@).skip(from_word as int)) == Ok::<MessageModel, ArgsErrorModel>(message@),
            Err(e) => message_in(texts(args@).skip(from_word as int)) == Err::<MessageModel, ArgsErrorModel>(e@),
        },
{
    let ghost all = texts(args@);
    let ghost words = all.skip(from_word as int);
    let mut positional: Vec<String> = Vec::new();
    let mut from: Option<String> = None;
    let mut title: Option<String> = None;
    let mut i: usize = from_word;
    assert(texts(positional@) =~= Seq::<Seq<char>>::empty());
    while i < args.len()
        invariant
            all == texts(args@),
            i <= args@.len(),
            read_words(words, WordsModel { positional: Seq::empty(), from: None, title: None }) == read_words(
                all.skip(i as int),
                WordsModel { positional: texts(positional@), from: opt_text(from), title: opt_text(title) },
            ),
            words == all.skip(from_word as int),
        decreases args@.len() - i,
    {
        let ghost left = all.skip(i as int);
        let ghost before = texts(positional@);
        let word = args[i].as_str();
        assert(left[0] == word@);
        if same(word, "--from") {
            if args.len() - i < 2 {
                return Err(ArgsError::NeedsValue("--from".to_owned()));
            }
            assert(left[1] == args@[i + 1]@);
            assert(left.skip(2) =~= all.skip(i + 2));
            from = Some(args[i + 1].clone());
            i = i + 2;
        } else if same(word, "--title") {
            if args.len() - i < 2 {
                return Err(ArgsError::NeedsValue("--title".to_owned()));
            }
            assert(left[1] == args@[i + 1]@);
            assert(left.skip(2) =~= all.skip(i + 2));
            title = Some(args[i + 1].clone());
            i = i + 2;
        } else if begins_with(word, "--") {
            return Err(ArgsError::UnknownOption(word.to_owned()));
        } else {
            assert(left.skip(1) =~= all.skip(i + 1));
            positional.push(word.to_owned());
            assert(texts(positional@) =~= before.push(word@));
            i = i + 1;
        }
    }
    if positional.len() != 2 {
        assert(texts(positional@).len() == positional@.len());
        return Err(ArgsError::Usage);
    }
    let to = positional[0].clone();
    let text = trim(positional[1].as_str());
    Ok(Message { to, text, from, title })
}

/// The result of reading arguments, as text.
pub open spec fn args_view(res: Result<(Option<String>, Option<Message>), ArgsError>) -> Result<
    (Option<Seq<char>>, Option<MessageModel>),
    ArgsErrorModel,
> {
    match res {
        Ok((path, message)) => Ok(
            (
                opt_text(path),
                match message {
                    Some(m) => Some(m@),
                    None => None,
                },
            ),
        ),
        Err(e) => Err(e@),
    }
}

/// Splits `[config] [message ...]` so the same binary serves and speaks.
pub fn parse_args(args: &[String]) -> (res: Result<(Option<String>, Option<Message>), ArgsError>)
    ensures
        args_view(res) == parsed(texts(args@)),
{
    let ghost all = texts(args@);
    if args.len() == 0 {
        return Ok((None, None));
    }
    assert(all[0] == args@[0]@);
    let mut path: Option<String> = None;
    let mut at: usize = 0;
    if !same(args[0].as_str(), "message") {
        if begins_with(args[0].as_str(), "-") {
            return Err(ArgsError::Usage);
        }
        path = Some(args[0].clone());
        at = 1;
    }
    let ghost rest = all.skip(at as int);
    assert(at == 0 ==> rest =~= all);
    if args.len() == at {
        return Ok((path, None));
    }
    assert(rest[0] == args@[at as int]@);
    if !same(args[at].as_str(), "message") {
        return Err(ArgsError::Usage);
    }
    assert(rest.skip(1) =~= all.skip(at + 1));
    match parse_message(args, at + 1) {
        Ok(message) => Ok((path, Some(message))),
        Err(e) => Err(e),
    }
}

/// Why a message cannot be sent, as text.
pub enum SendErrorModel {
    NotAPlayer(Seq<char>),
    NotAMessage,
}

/// Why a message cannot be sent.
#[derive(Clone, Debug)]
pub enum SendError {
    /// Someone named in it is not a configured player.
    NotAPlayer(String),
    /// Its text cannot be sent.
    NotAMessage,
}

impl View for SendError {
    type V = SendErrorModel;

    open spec fn view(&self) -> SendErrorModel {
        match self {
            SendError::NotAPlayer(user) => SendErrorModel::NotAPlayer(user@),
            SendError::NotAMessage => SendErrorModel::NotAMessage,
        }
    }
}

impl SendError {
    /// What the user is told.
    pub open spec fn said(self) -> Seq<char> {
        match self {
            SendError::NotAPlayer(user) => user@ + " is not a configured player"@,
            SendError::NotAMessage => "the message must be 1 to "@ + decimal(MAX_MESSAGE as nat)
                + " characters on a single line"@,
        }
    }

    /// What the user is told.
    pub fn message(&self) -> (res: String)
        ensures
            res@ == self.said(),
    {
        match self {
            SendError::NotAPlayer(user) => joined(user.as_str(), " is not a configured player"),
            SendError::NotAMessage => around("the message must be 1 to ", MAX_MESSAGE as u64, " characters on a single line"),
        }
    }
}

/// Why a message cannot be sent, if it cannot.
pub open spec fn send_refusal(c: ConfigModel, m: MessageModel) -> Option<SendErrorModel> {
    if !is_player(c, m.to) {
        Some(SendErrorModel::NotAPlayer(m.to))
    } else if m.from matches Some(from) && !is_player(c, from) {
        Some(SendErrorModel::NotAPlayer(m.from->0))
    } else if !is_valid_text(m.text, MAX_MESSAGE as int) {
        Some(SendErrorModel::NotAMessage)
    } else {
        None
    }
}

/// The title of a message: the given one, or who it is from.
pub open spec fn message_title(c: ConfigModel, m: MessageModel) -> Seq<char> {
    match (m.title, m.from) {
        (Some(title), _) => title,
        (None, Some(from)) => "💬 "@ + display_in(c, from),
        (None, None) => "ankiquest"@,
    }
}

/// A message as it is delivered.
pub open spec fn outgoing(c: ConfigModel, m: MessageModel) -> OutgoingModel {
    OutgoingModel {
        to: m.to,
        from: match m.from {
            Some(from) => from,
            None => ""@,
        },
        title: message_title(c, m),
        body: m.text,
        kind: "message"@,
    }
}

/// Delivers a message written by hand on the server, replyable when it says who sent it.
pub fn send_message(config: &Config, store: &mut Store, message: &Message, now_ms: i64) -> (res: Result<i64, SendError>)
    requires
        old(store).wf(),
        old(store).next_id < i64::MAX,
        clock_of(old(store)@, message.to@).tells_day(now_ms as int),
    ensures
        final(store).wf(),
        match send_refusal(config@, message@) {
            Some(refusal) => res matches Err(e) && e@ == refusal && final(store)@ == old(store)@,
            None => res matches Ok(id) && id == old(store)@.next_id && final(store)@ == noticed(
                old(store)@,
                outgoing(config@, message@),
                clock_of(old(store)@, message.to@).day_of(now_ms as int),
                now_ms as int,
                false,
            ),
        },
{
    if !is_configured(config, message.to.as_str()) {
        return Err(SendError::NotAPlayer(message.to.clone()));
    }
    if let Some(from) = &message.from {
        if !is_configured(config, from.as_str()) {
            return Err(SendError::NotAPlayer(from.clone()));
        }
    }
    if !valid_message(message.text.as_str()) {
        return Err(SendError::NotAMessage);
    }
    let title = match (&message.title, &message.from) {
        (Some(title), _) => title.clone(),
        (None, Some(from)) => {
            let shown = display_of(config, from.as_str());
            joined("💬 ", shown.as_str())
        },
        (None, None) => "ankiquest".to_owned(),
    };
    let clock = store.clock(message.to.as_str());
    let day: i64 = clock.day(now_ms);
    let from: &str = match &message.from {
        Some(from) => from.as_str(),
        None => "",
    };
    let note = Outgoing {
        to: message.to.as_str(),
        from,
        title: title.as_str(),
        body: message.text.as_str(),
        kind: "message",
    };
    assert(note@ == outgoing(config@, message@));
    Ok(store.send(&note, day, now_ms))
}

/// Options can stand anywhere: two of them in either order say the same.
pub proof fn law_options_commute(from: Seq<char>, title: Seq<char>, rest: Seq<Seq<char>>, read: WordsModel)
    ensures
        read_words(seq!["--from"@, from, "--title"@, title] + rest, read) == read_words(
            seq!["--title"@, title, "--from"@, from] + rest,
            read,
        ),
{
    reveal_strlit("--from");
    reveal_strlit("--title");
    let a = seq!["--from"@, from, "--title"@, title] + rest;
    let b = seq!["--title"@, title, "--from"@, from] + rest;
    assert("--from"@.len() != "--title"@.len());
    assert(a.skip(2) =~= seq!["--title"@, title] + rest);
    assert(b.skip(2) =~= seq!["--from"@, from] + rest);
    assert(a.skip(2).skip(2) =~= rest);
    assert(b.skip(2).skip(2) =~= rest);
    let read_from = WordsModel { from: Some(from), ..read };
    let read_title = WordsModel { title: Some(title), ..read };
    assert(read_words(a, read) == read_words(a.skip(2), read_from));
    assert(read_words(a.skip(2), read_from) == read_words(rest, WordsModel { title: Some(title), ..read_from }));
    assert(read_words(b, read) == read_words(b.skip(2), read_title));
    assert(read_words(b.skip(2), read_title) == read_words(rest, WordsModel { from: Some(from), ..read_title }));
}

proof fn lemma_two_words(to: Seq<char>, text: Seq<char>)
    requires
        !starts(to, "--"@),
        !starts(text, "--"@),
    ensures
        message_in(seq![to, text]) == Ok::<MessageModel, ArgsErrorModel>(
            MessageModel { to, text: trimmed(text), from: None, title: None },
        ),
{
    reveal_strlit("--from");
    reveal_strlit("--title");
    reveal_strlit("--");
    assert("--from"@.take(2) =~= "--"@);
    assert("--title"@.take(2) =~= "--"@);
    let none = WordsModel { positional: Seq::empty(), from: None, title: None };
    let words = seq![to, text];
    let one = WordsModel { positional: none.positional.push(to), ..none };
    let two = WordsModel { positional: one.positional.push(text), ..one };
    assert(words.skip(1) =~= seq![text]);
    assert(seq![text].skip(1) =~= Seq::<Seq<char>>::empty());
    assert(read_words(Seq::empty(), two) == Ok::<WordsModel, ArgsErrorModel>(two));
    assert(read_words(seq![text], one) == Ok::<WordsModel, ArgsErrorModel>(two));
    assert(read_words(words, none) == Ok::<WordsModel, ArgsErrorModel>(two));
}

/// A message is asked for by that word, the recipient and the text, which loses the
/// white space around it; a path to the configuration may come first. Without any
/// words, or with a path alone, the server is asked for.
pub proof fn law_a_message_is_asked_for_by_its_words(path: Seq<char>, to: Seq<char>, text: Seq<char>)
    requires
        !starts(to, "--"@),
        !starts(text, "--"@),
        !starts(path, "-"@),
        path != "message"@,
    ensures
        ({
            let message = MessageModel { to, text: trimmed(text), from: None, title: None };
            &&& parsed(seq!["message"@, to, text]) == Ok::<(Option<Seq<char>>, Option<MessageModel>), ArgsErrorModel>(
                (None, Some(message)),
            )
            &&& parsed(seq![path, "message"@, to, text]) == Ok::<
                (Option<Seq<char>>, Option<MessageModel>),
                ArgsErrorModel,
            >((Some(path), Some(message)))
            &&& parsed(seq![path]) == Ok::<(Option<Seq<char>>, Option<MessageModel>), ArgsErrorModel>(
                (Some(path), None),
            )
            &&& parsed(Seq::empty()) == Ok::<(Option<Seq<char>>, Option<MessageModel>), ArgsErrorModel>((None, None))
        }),
{
    lemma_two_words(to, text);
    assert(seq!["message"@, to, text].skip(1) =~= seq![to, text]);
    assert(seq![path, "message"@, to, text].skip(1) =~= seq!["message"@, to, text]);
    assert(seq![path].skip(1) =~= Seq::<Seq<char>>::empty());
}

} // verus!
