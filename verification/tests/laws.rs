use dactylo::session::{App, AppState};
use dactylo::written_word::{WordBodyPart, WordTail, WrittenWord};
use dactylo::typing_test::{Key, TypingTest};

fn typed(expected: &str, written: &str) -> WrittenWord {
    let mut w = WrittenWord::new(expected.to_string());
    for c in written.chars() {
        w.push(c);
    }
    w
}

fn rebuild(w: &WrittenWord) -> (String, String) {
    let a = w.analyze();
    let mut written = String::new();
    let mut expected = String::new();
    for p in &a.body_parts {
        match p {
            WordBodyPart::Correct(c) => {
                written.push_str(c);
                expected.push_str(c);
            }
            WordBodyPart::Incorrect { expected: e, written: x } => {
                written.push_str(x);
                expected.push_str(e);
            }
        }
    }
    match &a.tail {
        Some(WordTail::Extra(x)) => written.push_str(x),
        Some(WordTail::Missing(m)) => expected.push_str(m),
        None => {}
    }
    (written, expected)
}

#[test]
fn analysis_rebuilds_word() {
    for (e, w) in [("hello", "hxylo!"), ("world", "wo"), ("abc", "xyz"), ("", "ab"), ("été", "etе")] {
        let word = typed(e, w);
        assert_eq!(rebuild(&word), (w.to_string(), e.to_string()));
        // Neighbouring parts are of different kinds.
        let a = word.analyze();
        for pair in a.body_parts.windows(2) {
            let k0 = matches!(pair[0], WordBodyPart::Correct(_));
            let k1 = matches!(pair[1], WordBodyPart::Correct(_));
            assert_ne!(k0, k1);
        }
    }
}

#[test]
fn char_stats_cover_word() {
    for (e, w) in [("hello", "hxylo!"), ("world", "wo"), ("same", "same"), ("", "x")] {
        let word = typed(e, w);
        let s = word.char_stats();
        assert_eq!(s.correct + s.incorrect + s.extra, word.written_width());
        assert_eq!(s.correct + s.incorrect + s.missing, word.expected_width());
        assert!(s.extra == 0 || s.missing == 0);
    }
}

#[test]
fn correct_iff_clean_stats() {
    for (e, w) in [("same", "same"), ("same", "sane"), ("same", "sam"), ("same", "samey")] {
        let word = typed(e, w);
        let s = word.char_stats();
        assert_eq!(word.is_correct(), s.incorrect == 0 && s.extra == 0 && s.missing == 0);
    }
}

#[test]
fn pop_undoes_push() {
    let mut word = typed("cat", "cx");
    word.push('t');
    word.pop();
    assert_eq!(word.written(), "cx");
    assert_eq!(word.expected(), "cat");
    assert_eq!(word.keystrokes().len(), 3);
}

#[test]
fn key_keeps_word_list_and_backspace_undoes_space() {
    let mut t = TypingTest::from_words(vec!["ab".to_string(), "cd".to_string(), "ef".to_string()], 0);
    t.on_key_event_at(Key::Char('a'), 1);
    let before_written = t.current_word.as_ref().unwrap().written().to_string();
    t.on_key_event_at(Key::Char(' '), 2);
    t.on_key_event_at(Key::Backspace, 3);
    assert_eq!(t.current_word.as_ref().unwrap().written(), before_written);
    assert_eq!(t.current_word.as_ref().unwrap().expected(), "ab");
    assert!(t.completed_word_list.is_empty());
    let queue: Vec<String> = t.word_queue.iter().cloned().collect();
    assert_eq!(queue, vec!["cd".to_string(), "ef".to_string()]);
    assert_eq!(t.end_time, None);
}

#[test]
fn stats_relations() {
    let mut t = TypingTest::from_words(vec!["ab".to_string(), "cd".to_string()], 0);
    for c in "ab cxz ".chars() {
        t.on_key_event_at(Key::Char(c), 1);
    }
    let s = t.finished_at(2).unwrap();
    assert!(s.correct_letters() <= s.typed_letters());
    let (correct, total) = s.keystroke_counts();
    assert!(correct <= total);
    let c = s.char_stats();
    let typed_width: usize = s.completed_word_list.iter().map(|w| w.written_width()).sum();
    assert_eq!(c.correct + c.incorrect + c.extra, typed_width);
}

#[test]
fn scrolling_drops_first_characters() {
    let mut t = TypingTest::from_words(
        vec!["hello".to_string(), "world".to_string(), "foo".to_string()],
        0,
    );
    for c in "hxllo wo".chars() {
        t.on_key_event_at(Key::Char(c), 1);
    }
    let w = t.widget_two_lines();
    let text = |width: u16| -> String {
        w.first_line(width).iter().map(|p| p.text.clone()).collect::<Vec<_>>().concat()
    };
    let full = text(80);
    for width in [2u16, 4, 6, 10, 12, 16] {
        let skip = w.width_skip(width);
        let scrolled = text(width);
        // The typed words ("hxllo ", six characters) lose their first `skip`
        // characters, or all of them; the current word and the queue stay.
        let dropped = if skip <= 6 { skip } else { 6 };
        assert_eq!(scrolled, full.chars().skip(dropped).collect::<String>());
        let cursor = w.cursor_position(dactylo::two_lines::Rect { x: 0, y: 0, width, height: 2 });
        assert_eq!(skip + cursor.x as usize, w.completed_width());
    }
}

#[test]
fn lines_aligned() {
    let mut t = TypingTest::from_words(vec!["hello".to_string(), "ab".to_string(), "c".to_string()], 0);
    for c in "hxllo abz ".chars() {
        t.on_key_event_at(Key::Char(c), 1);
    }
    let w = t.widget_two_lines();
    let width = |line: Vec<dactylo::two_lines::StyledText>| -> usize {
        line.iter().map(|p| p.text.chars().count()).sum()
    };
    // Typed words: "hello" (6 with its space) and "abz" (4): 10 characters on
    // both lines; the first line then shows the current word and drops its
    // last space, the second shows nothing under the empty current word.
    assert_eq!(w.completed_width(), 10);
    assert_eq!(width(w.second_line(80)), 10);
    assert_eq!(width(w.first_line(80)), 10 + 1);
}

#[test]
fn finish_step_idempotent() {
    let t = TypingTest::from_words(vec!["a".to_string()], 0);
    let mut app = App::with_state(AppState::TypingTest(t));
    app.on_key_event_at(Key::Char('a'), 1);
    app.on_key_event_at(Key::Char(' '), 2);
    app.finish_if_done_at(3);
    app.finish_if_done_at(4);
    match &app.state {
        AppState::ShowStats(s) => assert_eq!(s.end_time, 2),
        _ => panic!("expected the results"),
    }
}

fn game_for_lines() -> TypingTest {
    let mut t = TypingTest::from_words(
        vec!["hello".to_string(), "cat".to_string(), "ab".to_string(), "queue".to_string()],
        0,
    );
    // "hello" typed "hxllo", "cat" typed "ca" (missing "t"), current "ab" typed "a".
    for c in "hxllo ca a".chars() {
        t.on_key_event_at(Key::Char(c), 1);
    }
    t
}

#[test]
fn first_line_shows_the_test() {
    let t = game_for_lines();
    let w = t.widget_two_lines();
    // Display: "hxllo " + "cat " + "ab" + " queue".
    let full = "hxllo cat ab queue";
    for width in [2u16, 4, 8, 12, 80] {
        let text: String = w.first_line(width).iter().map(|p| p.text.clone()).collect();
        let skip = w.width_skip(width);
        assert_eq!(text, full.chars().skip(skip).collect::<String>());
    }
}

#[test]
fn second_line_shows_corrections() {
    let t = game_for_lines();
    let w = t.widget_two_lines();
    // Under "hxllo ": " e    "; under "ca" of "cat ": "    "; under "a": " ".
    let full = " e         ";
    for width in [2u16, 4, 8, 12, 80] {
        let text: String = w.second_line(width).iter().map(|p| p.text.clone()).collect();
        let skip = w.width_skip(width);
        assert_eq!(text, full.chars().skip(skip).collect::<String>());
    }
}

#[test]
fn next_then_prev_restores_keystrokes() {
    let mut t = TypingTest::from_words(vec!["ab".to_string(), "cd".to_string()], 0);
    for c in "ax".chars() {
        t.on_key_event_at(Key::Char(c), 1);
    }
    t.on_key_event_at(Key::Backspace, 2);
    t.on_key_event_at(Key::Char('b'), 3);
    let before: Vec<bool> = t.current_word.as_ref().unwrap().keystrokes().iter().map(|k| k.is_correct).collect();
    t.on_key_event_at(Key::Char(' '), 4);
    t.on_key_event_at(Key::Backspace, 5);
    let after: Vec<bool> = t.current_word.as_ref().unwrap().keystrokes().iter().map(|k| k.is_correct).collect();
    assert_eq!(before, vec![true, false, true]);
    assert_eq!(before, after);
    assert_eq!(t.current_word.as_ref().unwrap().written(), "ab");
    assert_eq!(t.word_queue.len(), 1);
    assert!(t.completed_word_list.is_empty());
}
