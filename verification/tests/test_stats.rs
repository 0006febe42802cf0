use dactylo::test_stats::{CharStats, TestStats};
use dactylo::typing_test::{Key, TypingTest};

fn finished_test() -> TestStats {
    let mut t = TypingTest::from_words(vec!["ab".to_string(), "cd".to_string()], 1_000_000);
    for c in "ab cx ".chars() {
        t.on_key_event_at(Key::Char(c), 13_000_000);
    }
    t.finished_at(0).unwrap()
}

#[test]
fn letters_counts() {
    let s = finished_test();
    assert_eq!(s.correct_letters(), 3);
    assert_eq!(s.typed_letters(), 6);
}

#[test]
fn keystroke_counts() {
    let s = finished_test();
    assert_eq!(s.keystroke_counts(), (3, 4));
}

#[test]
fn char_stats_sum_words() {
    let s = finished_test().char_stats();
    assert_eq!((s.correct, s.incorrect, s.extra, s.missing), (3, 1, 0, 0));
    assert_eq!(s.to_string(), "3/1/0/0");
}

#[test]
fn empty_test_counts_nothing() {
    let s = TestStats { start_time: 0, end_time: 0, completed_word_list: Vec::new() };
    assert_eq!(s.correct_letters(), 0);
    assert_eq!(s.typed_letters(), 0);
    assert_eq!(s.keystroke_counts(), (0, 0));
    let c = s.char_stats();
    assert_eq!((c.correct, c.incorrect, c.extra, c.missing), (0, 0, 0, 0));
}

#[test]
fn char_stats_to_string_large_numbers() {
    let c = CharStats { correct: 120, incorrect: 7, extra: 0, missing: 10 };
    assert_eq!(c.to_string(), "120/7/0/10");
}
