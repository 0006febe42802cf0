use dactylo::dictionary::Dictionary;
use dactylo::typing_test::{Key, TypingTest};

fn words(ws: &[&str]) -> Vec<String> {
    ws.iter().map(|w| w.to_string()).collect()
}

fn word_list(t: &TypingTest) -> Vec<String> {
    let mut all: Vec<String> = t
        .completed_word_list
        .iter()
        .map(|w| w.expected().to_string())
        .collect();
    if let Some(c) = &t.current_word {
        all.push(c.expected().to_string());
    }
    all.extend(t.word_queue.iter().cloned());
    all
}

fn type_str(t: &mut TypingTest, s: &str, now: i128) {
    for c in s.chars() {
        t.on_key_event_at(Key::Char(c), now);
    }
}

#[test]
fn from_words_sets_first_word_current() {
    let t = TypingTest::from_words(words(&["ab", "cd", "ef"]), 100);
    assert_eq!(t.start_time, 100);
    assert_eq!(t.end_time, None);
    assert!(t.completed_word_list.is_empty());
    let c = t.current_word.as_ref().unwrap();
    assert_eq!(c.expected(), "ab");
    assert!(c.is_empty());
    assert_eq!(t.word_queue.len(), 2);
    assert_eq!(t.word_queue[0], "cd");
    assert_eq!(word_list(&t), words(&["ab", "cd", "ef"]));
}

#[test]
fn new_draws_words_from_dictionary() {
    let dict = Dictionary { words: words(&["one", "two", "three"]) };
    let t = TypingTest::new(5, dict);
    let list = word_list(&t);
    assert_eq!(list.len(), 5);
    for w in &list {
        assert!(["one", "two", "three"].contains(&w.as_str()));
    }
    assert!(t.completed_word_list.is_empty());
    assert!(t.current_word.as_ref().unwrap().is_empty());
}

#[test]
fn letters_space_and_backspace() {
    let mut t = TypingTest::from_words(words(&["ab", "cd", "ef"]), 100);
    type_str(&mut t, "ax", 150);
    assert_eq!(t.current_word.as_ref().unwrap().written(), "ax");
    t.on_key_event_at(Key::Char(' '), 200);
    assert_eq!(t.completed_word_list.len(), 1);
    assert_eq!(t.completed_word_list[0].written(), "ax");
    assert_eq!(t.current_word.as_ref().unwrap().expected(), "cd");
    assert_eq!(t.word_queue.len(), 1);
    // Backspace on the fresh word goes back to the previous one.
    t.on_key_event_at(Key::Backspace, 250);
    assert!(t.completed_word_list.is_empty());
    assert_eq!(t.current_word.as_ref().unwrap().written(), "ax");
    assert_eq!(word_list(&t), words(&["ab", "cd", "ef"]));
    // Backspace on a word with letters removes one.
    t.on_key_event_at(Key::Backspace, 260);
    assert_eq!(t.current_word.as_ref().unwrap().written(), "a");
}

#[test]
fn space_on_empty_word_does_nothing() {
    let mut t = TypingTest::from_words(words(&["ab", "cd"]), 0);
    t.on_key_event_at(Key::Char(' '), 10);
    assert!(t.completed_word_list.is_empty());
    assert_eq!(t.current_word.as_ref().unwrap().expected(), "ab");
    // Backspace on the first, empty word does nothing either.
    t.on_key_event_at(Key::Backspace, 10);
    assert_eq!(t.current_word.as_ref().unwrap().expected(), "ab");
    assert_eq!(t.word_queue.len(), 1);
}

#[test]
fn other_keys_do_nothing() {
    let mut t = TypingTest::from_words(words(&["ab"]), 0);
    t.on_key_event_at(Key::Other, 10);
    t.on_key_event_at(Key::Esc, 10);
    assert!(t.current_word.as_ref().unwrap().is_empty());
}

#[test]
fn last_space_ends_the_test() {
    let mut t = TypingTest::from_words(words(&["ab", "cd"]), 100);
    type_str(&mut t, "ab", 110);
    t.on_key_event_at(Key::Char(' '), 120);
    assert!(t.finished_at(999).is_none());
    type_str(&mut t, "cx", 130);
    t.on_key_event_at(Key::Char(' '), 140);
    assert!(t.current_word.is_none());
    assert_eq!(t.end_time, Some(140));
    let stats = t.finished_at(999).unwrap();
    assert_eq!(stats.start_time, 100);
    assert_eq!(stats.end_time, 140);
    assert_eq!(stats.completed_word_list.len(), 2);
    // A finished test ignores keys.
    t.on_key_event_at(Key::Char('z'), 150);
    t.on_key_event_at(Key::Backspace, 150);
    assert!(t.current_word.is_none());
    assert_eq!(t.completed_word_list.len(), 2);
}

#[test]
fn finished_without_end_time_ends_now() {
    let t = TypingTest::default();
    let stats = t.finished_at(42).unwrap();
    assert_eq!(stats.end_time, 42);
    assert!(t.finished().is_some());
}

#[test]
fn on_key_event_reads_the_clock() {
    let mut t = TypingTest::from_words(words(&["a"]), 0);
    t.on_key_event(Key::Char('a'));
    t.on_key_event(Key::Char(' '));
    assert!(t.current_word.is_none());
    assert!(t.end_time.is_some());
}
