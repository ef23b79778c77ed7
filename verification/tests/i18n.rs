use ankiquest::i18n::{
    capture, community, normalize, notice, notification, owned, profile, selected, set_preference,
    substitute, system_text, templates, text, Catalog, Community,
};
use ankiquest::calendar::Clock;
use ankiquest::feedback::Notice;
use ankiquest::game::{compute, Week};
use ankiquest::inbox::Outgoing;
use ankiquest::preferences::Refusal;
use ankiquest::quests::Review;
use ankiquest::store::Store;

fn spanish() -> Catalog {
    Catalog::from_json(
        r#"{
            "Review {0} cards": "Repasa {0} tarjetas",
            "Study for {0} minutes": "Estudia durante {0} minutos",
            "Review {0} mature cards": "Repasa {0} tarjetas maduras",
            "Review {0} different cards": "Repasa {0} tarjetas distintas",
            "Deck complete": "Mazo completado",
            "First step": "Primer paso"
        }"#,
    )
    .unwrap()
}

#[test]
fn language_tags_templates_and_fallback() {
    let catalog = spanish();
    assert_eq!(normalize("es_MX"), "es");
    assert_eq!(normalize("ES-es"), "es");
    assert_eq!(normalize("fr"), "en");
    assert_eq!(text(&catalog, "Review 15 cards", "es"), "Repasa 15 tarjetas");
    assert_eq!(
        text(&catalog, "Study for 10 minutes", "es-ES"),
        "Estudia durante 10 minutos"
    );
    assert_eq!(text(&catalog, "Review 15 cards", "de"), "Review 15 cards");
    assert_eq!(
        text(&catalog, "Unknown future wording", "es"),
        "Unknown future wording"
    );
    assert_eq!(
        substitute("{1} / {0}", &vec!["{1}".to_string(), "Spanish".to_string()]),
        "Spanish / {1}"
    );
}

#[test]
fn specific_achievement_templates_translate_the_metric_not_just_the_card_count() {
    let catalog = spanish();
    assert_eq!(
        text(&catalog, "Review 100 mature cards", "es"),
        "Repasa 100 tarjetas maduras"
    );
    assert_eq!(
        text(&catalog, "Review 1000 different cards", "es"),
        "Repasa 1000 tarjetas distintas"
    );
}

#[test]
fn saved_language_is_per_owner_and_persists() {
    let mut store = Store::new();
    assert_eq!(store.language("hill"), "en");
    store.set_language("hill", "es-MX");
    assert_eq!(store.language("friend"), "en");
    assert_eq!(store.language("hill"), "es");
}

#[test]
fn a_catalog_is_an_object_of_texts() {
    assert!(Catalog::from_json("[]").is_none());
    assert!(Catalog::from_json(r#"{"a": 1}"#).is_none());
    assert!(Catalog::from_json("not json").is_none());
    let catalog = Catalog::from_json(r#"{"b": "B", "a": "A"}"#).unwrap();
    assert_eq!(
        catalog.entries,
        [("a".to_string(), "A".to_string()), ("b".to_string(), "B".to_string())]
    );
    assert!(catalog.templates.is_empty());
}

#[test]
fn longer_templates_are_tried_first() {
    let found = templates(&vec![
        ("Review {0} cards".to_string(), "x".to_string()),
        ("Plain".to_string(), "p".to_string()),
        ("Review {0} mature cards".to_string(), "y".to_string()),
    ]);
    assert_eq!(found.len(), 2);
    assert_eq!(found[0].0, "Review {0} mature cards");
    assert_eq!(found[1].0, "Review {0} cards");
}

#[test]
fn captured_values_fill_the_template_again() {
    let pattern = "{0} has finished their {1} studies for today.";
    let value = "Cerro has finished their Spanish studies for today.";
    let captured = capture(pattern, value).unwrap();
    assert_eq!(captured, ["Cerro", "Spanish"]);
    assert_eq!(substitute(pattern, &captured), value);
    assert!(capture(pattern, "Cerro was here").is_none());
}

#[test]
fn a_request_may_choose_a_language_and_the_saved_one_is_the_fallback() {
    let mut store = Store::new();
    assert_eq!(selected(None, &store, "hill"), "en");
    assert_eq!(selected(Some("es-MX,es;q=0.9"), &store, "hill"), "es");
    assert_eq!(owned(Some("es-MX"), &mut store, "hill"), "es");
    assert_eq!(store.language("hill"), "es", "a chosen language is kept");
    assert_eq!(owned(None, &mut store, "hill"), "es");
    assert_eq!(store.language("friend"), "en");
}

#[test]
fn languages_that_are_not_known_fall_back_and_malformed_ones_are_refused() {
    let mut store = Store::new();
    assert_eq!(set_preference(&mut store, "hill", "es"), Ok("es".to_string()));
    assert_eq!(store.language("hill"), "es");
    for bad in ["", "es MX", "espa\u{f1}ol", &"e".repeat(65)] {
        assert_eq!(set_preference(&mut store, "hill", bad), Err(Refusal::BadRequest));
    }
    assert_eq!(store.language("hill"), "es");
    assert_eq!(set_preference(&mut store, "hill", "fr"), Ok("en".to_string()));
    assert_eq!(store.language("hill"), "en");
}

#[test]
fn english_is_left_alone() {
    let catalog = spanish();
    for value in ["Review 15 cards", "Deck complete", "anything"] {
        assert_eq!(text(&catalog, value, "en"), value);
        assert_eq!(system_text(&catalog, value, "en"), value);
    }
    let mut shown = Notice { title: "Deck complete".to_string(), body: "Review 2 cards".to_string() };
    notice(&catalog, &mut shown, "en");
    assert_eq!(shown.title, "Deck complete");
    notice(&catalog, &mut shown, "es");
    assert_eq!(shown.title, "Mazo completado");
    assert_eq!(shown.body, "Repasa 2 tarjetas");
}

#[test]
fn what_a_player_wrote_is_not_translated() {
    let catalog = spanish();
    let mut store = Store::new();
    let send = |store: &mut Store, kind: &str, title: &str, body: &str| {
        store.send(
            &Outgoing { to: "hill", from: "cerro", title, body, kind },
            20_000,
            1_728_000_000_000,
        )
    };
    send(&mut store, "message", "Hi", "Deck complete");
    send(
        &mut store,
        "completion",
        "Deck complete",
        "Cerro has finished their Deck complete studies for today.",
    );
    let mut inbox = store.notifications("hill", 1_728_000_000_000);
    for item in inbox.iter_mut() {
        notification(&catalog, item, "es", "Cerro");
    }
    assert_eq!(inbox[0].body, "Deck complete");
    assert_eq!(inbox[1].title, "Mazo completado");
    assert_eq!(
        inbox[1].body,
        "Cerro ha terminado su estudio de Deck complete por hoy.",
        "the name of a deck is the player's own"
    );
}

#[test]
fn a_profile_is_shown_in_the_language_of_its_reader() {
    let now = 1_728_000_000_000;
    let review = Review { id: now - 1000, cid: 1, last_ivl: 0, time_ms: 4000, kind: 0 };
    let mut shown = compute("hill", "Hill", &[review], &Clock::default(), &Week::default(), now);
    let before: Vec<String> = shown.quests.iter().map(|q| q.title.clone()).collect();
    profile(&spanish(), &mut shown, "en");
    assert_eq!(before, shown.quests.iter().map(|q| q.title.clone()).collect::<Vec<_>>());
    profile(&spanish(), &mut shown, "es");
    for (old, new) in before.iter().zip(shown.quests.iter()) {
        assert_eq!(new.title, text(&spanish(), old, "es"));
    }
    assert_eq!(shown.display, "Hill");
}

#[test]
fn community_labels_are_translated_one_by_one() {
    let value = Community {
        awards: vec!["Deck complete".to_string(), "Other".to_string()],
        trophies: vec![vec!["First step".to_string()], vec![]],
        scoring_note: Some("Review 3 cards".to_string()),
    };
    let shown = community(&spanish(), &value, "es");
    assert_eq!(shown.awards, ["Mazo completado", "Other"]);
    assert_eq!(shown.trophies, [vec!["Primer paso".to_string()], vec![]]);
    assert_eq!(shown.scoring_note.as_deref(), Some("Repasa 3 tarjetas"));
    assert_eq!(community(&spanish(), &value, "en").awards, ["Deck complete", "Other"]);
}
