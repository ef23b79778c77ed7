use ankiquest::command::{parse_args, send_message, ArgsError, Message, SendError};
use ankiquest::config::{Config, UserConfig};
use ankiquest::decks::MAX_MESSAGE;
use ankiquest::preferences::answer;
use ankiquest::store::Store;

const NOW: i64 = 1_728_000_000_000;

fn words(parts: &[&str]) -> Vec<String> {
    parts.iter().map(|part| (*part).to_string()).collect()
}

#[test]
fn the_message_command_reads_a_config_and_its_options_in_any_order() {
    assert_eq!(parse_args(&words(&[])).unwrap(), (None, None));
    let (path, nothing) = parse_args(&words(&["/etc/ankiquest.json"])).unwrap();
    assert_eq!(path.as_deref(), Some("/etc/ankiquest.json"));
    assert_eq!(nothing, None);

    let (path, message) = parse_args(&words(&[
        "/etc/ankiquest.json",
        "message",
        "--from",
        "cerro",
        "aldanita",
        "  keep going  ",
        "--title",
        "Hi",
    ]))
    .unwrap();
    assert_eq!(path.as_deref(), Some("/etc/ankiquest.json"));
    assert_eq!(
        message,
        Some(Message {
            to: "aldanita".into(),
            text: "keep going".into(),
            from: Some("cerro".into()),
            title: Some("Hi".into()),
        })
    );

    let (path, message) = parse_args(&words(&["message", "aldanita", "hello"])).unwrap();
    assert_eq!(path, None, "the config then comes from the environment");
    assert_eq!(message.unwrap().from, None);

    for bad in [
        vec!["message"],
        vec!["message", "aldanita"],
        vec!["message", "aldanita", "hello", "spare"],
        vec!["message", "aldanita", "hello", "--from"],
        vec!["message", "aldanita", "hello", "--shout"],
        vec!["--help"],
        vec!["/etc/ankiquest.json", "serve"],
    ] {
        assert!(
            parse_args(&words(&bad)).is_err(),
            "{bad:?} should not parse"
        );
    }
}

#[test]
fn each_mistake_has_its_own_error() {
    assert!(matches!(parse_args(&words(&["--help"])), Err(ArgsError::Usage)));
    match parse_args(&words(&["message", "a", "b", "--from"])) {
        Err(error) => assert_eq!(error.message(), "--from needs a value"),
        Ok(_) => panic!("an option without a value was read"),
    }
    match parse_args(&words(&["message", "a", "b", "--shout"])) {
        Err(error) => assert!(error.message().contains("--shout")),
        Ok(_) => panic!("an unknown option was read"),
    }
}

fn player(display: &str, token: &str) -> UserConfig {
    UserConfig {
        display: Some(display.into()),
        ntfy_topic: None,
        token: Some(token.into()),
    }
}

fn config() -> Config {
    Config {
        ntfy: None,
        users: vec![
            ("cerro".into(), player("Cerro", "cerro-secret")),
            ("hill".into(), player("Hill", "hill-secret")),
        ],
    }
}

fn note(to: &str, from: Option<&str>) -> Message {
    Message {
        to: to.into(),
        text: "you're doing great, keep going".into(),
        from: from.map(str::to_string),
        title: None,
    }
}

#[test]
fn a_message_written_on_the_server_lands_in_the_inbox() {
    let config = config();
    let mut store = Store::new();
    send_message(&config, &mut store, &note("hill", Some("cerro")), NOW).unwrap();
    let inbox = store.notifications("hill", NOW);
    assert_eq!(inbox.len(), 1);
    assert_eq!(inbox[0].title, "\u{1f4ac} Cerro");
    assert_eq!(inbox[0].kind, "message", "written by hand, not by the game");
    assert_eq!(inbox[0].body, "you're doing great, keep going");
    assert_eq!(inbox[0].sender, "cerro");
    assert_eq!(
        answer(&config, &mut store, "hill", inbox[0].id, "thank you!", NOW),
        Ok("Cerro".to_string())
    );

    send_message(&config, &mut store, &note("hill", None), NOW).unwrap();
    let anonymous = store.notifications("hill", NOW).pop().unwrap();
    assert_eq!(anonymous.title, "ankiquest");
    assert!(anonymous.sender.is_empty(), "nobody to answer");

    assert!(matches!(
        send_message(&config, &mut store, &note("nobody", None), NOW),
        Err(SendError::NotAPlayer(name)) if name == "nobody"
    ));
    assert!(matches!(
        send_message(&config, &mut store, &note("hill", Some("nobody")), NOW),
        Err(SendError::NotAPlayer(name)) if name == "nobody"
    ));
    for text in ["", "   ", "two\nlines", &"x".repeat(MAX_MESSAGE + 1)] {
        let mut empty = note("hill", None);
        empty.text = text.into();
        assert!(
            matches!(
                send_message(&config, &mut store, &empty, NOW),
                Err(SendError::NotAMessage)
            ),
            "{text:?} is not a message"
        );
    }
    assert_eq!(store.notifications.len(), 3);
}
