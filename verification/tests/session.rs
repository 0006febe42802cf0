use dactylo::dictionary::{DictionarySource, DictionarySourceEnum, Languages};
use dactylo::session::{App, AppState};
use dactylo::typing_test::{Key, TypingTest};

#[test]
fn esc_stops_the_app() {
    let mut app = App::with_state(AppState::MainMenu);
    assert!(!app.running);
    app.start();
    assert!(app.running);
    app.on_key_event_at(Key::Char('a'), 0);
    assert!(app.running);
    app.on_key_event_at(Key::Esc, 0);
    assert!(!app.running);
}

#[test]
fn keys_go_to_the_test_and_results_follow() {
    let t = TypingTest::from_words(vec!["hi".to_string()], 5);
    let mut app = App::with_state(AppState::TypingTest(t));
    app.start();
    for c in "hi".chars() {
        app.on_key_event_at(Key::Char(c), 6);
    }
    app.finish_if_done_at(7);
    assert!(matches!(app.state, AppState::TypingTest(_)));
    app.on_key_event_at(Key::Char(' '), 8);
    app.finish_if_done_at(9);
    match &app.state {
        AppState::ShowStats(s) => {
            assert_eq!(s.start_time, 5);
            assert_eq!(s.end_time, 8);
            assert_eq!(s.correct_letters(), 3);
        }
        _ => panic!("expected the results"),
    }
    // Checking again changes nothing.
    app.finish_if_done_at(10);
    assert!(matches!(app.state, AppState::ShowStats(_)));
    assert!(app.running);
}

#[test]
fn main_menu_ignores_keys() {
    let mut app = App::default();
    app.on_key_event(Key::Char('x'));
    app.finish_if_done();
    assert!(matches!(app.state, AppState::MainMenu));
}

#[test]
fn dictionary_source_prefers_url() {
    let src = DictionarySource {
        monkeytype_url: Some("https://example.com/words.json".to_string()),
        monkeytype_lang: Some(Languages::English),
    };
    match src.to_enum() {
        DictionarySourceEnum::MonkeytypeUrl(u) => assert_eq!(u, "https://example.com/words.json"),
        _ => panic!("expected the url"),
    }
}

#[test]
fn dictionary_source_defaults_to_english() {
    let src = DictionarySource { monkeytype_url: None, monkeytype_lang: None };
    match src.to_enum() {
        DictionarySourceEnum::MonkeytypeLang(l) => assert_eq!(l, Languages::English),
        _ => panic!("expected a language"),
    }
    assert_eq!(
        Languages::English.to_url(),
        "https://monkeytype.com/languages/english.json"
    );
}
