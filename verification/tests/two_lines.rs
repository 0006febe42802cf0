use dactylo::two_lines::{Rect, StyledText, TextStyle};
use dactylo::two_lines::TextStyle::{Correct, Incorrect, NotWritten, Plain, Superfluous};
use dactylo::typing_test::{Key, TypingTest};

fn game() -> TypingTest {
    let mut t = TypingTest::from_words(
        vec!["hello".to_string(), "world".to_string(), "foo".to_string()],
        0,
    );
    for c in "hxllo wo".chars() {
        t.on_key_event_at(Key::Char(c), 1);
    }
    t
}

fn pieces(line: &[StyledText]) -> Vec<(String, TextStyle)> {
    line.iter().map(|p| (p.text.clone(), p.style)).collect()
}

fn p(s: &str, st: TextStyle) -> (String, TextStyle) {
    (s.to_string(), st)
}

#[test]
fn widths_and_cursor() {
    let g = game();
    let w = g.widget_two_lines();
    assert_eq!(w.completed_width(), 8);
    assert_eq!(w.width_skip(40), 0);
    assert_eq!(w.width_skip(10), 3);
    assert_eq!(w.width_skip(4), 6);
    let pos = w.cursor_position(Rect { x: 0, y: 7, width: 10, height: 2 });
    assert_eq!((pos.x, pos.y), (5, 7));
    let pos = w.cursor_position(Rect { x: 0, y: 0, width: 40, height: 2 });
    assert_eq!(pos.x, 8);
}

#[test]
fn first_line_without_scroll() {
    let g = game();
    let line = g.widget_two_lines().first_line(40);
    assert_eq!(
        pieces(&line),
        vec![
            p("h", Correct),
            p("x", Incorrect),
            p("llo", Correct),
            p(" ", Plain),
            p("wo", Correct),
            p("rld", NotWritten),
            p(" ", Plain),
            p("foo", NotWritten),
        ]
    );
}

#[test]
fn first_line_scrolled_inside_a_word() {
    let g = game();
    let line = g.widget_two_lines().first_line(10);
    assert_eq!(
        pieces(&line),
        vec![
            p("lo", Correct),
            p(" ", Plain),
            p("wo", Correct),
            p("rld", NotWritten),
            p(" ", Plain),
            p("foo", NotWritten),
        ]
    );
}

#[test]
fn first_line_scrolled_past_a_word() {
    let g = game();
    let line = g.widget_two_lines().first_line(4);
    assert_eq!(
        pieces(&line),
        vec![p("wo", Correct), p("rld", NotWritten), p(" ", Plain), p("foo", NotWritten)]
    );
}

#[test]
fn second_line_shows_expected_under_errors() {
    let g = game();
    let line = g.widget_two_lines().second_line(40);
    assert_eq!(
        pieces(&line),
        vec![p(" ", Plain), p("e", Correct), p("   ", Plain), p(" ", Plain), p("  ", Plain)]
    );
    let line = g.widget_two_lines().second_line(10);
    assert_eq!(pieces(&line), vec![p("  ", Plain), p(" ", Plain), p("  ", Plain)]);
}

#[test]
fn finished_test_lines_drop_last_piece() {
    let mut t = TypingTest::from_words(vec!["ab".to_string()], 0);
    for c in "ax ".chars() {
        t.on_key_event_at(Key::Char(c), 1);
    }
    let w = t.widget_two_lines();
    assert_eq!(w.completed_width(), 3);
    assert_eq!(pieces(&w.first_line(80)), vec![p("a", Correct), p("x", Incorrect)]);
    assert_eq!(pieces(&w.second_line(80)), vec![p(" ", Plain), p("b", Correct)]);
}

#[test]
fn extra_letters_on_both_lines() {
    let mut t = TypingTest::from_words(vec!["ab".to_string(), "c".to_string()], 0);
    for c in "abz c".chars() {
        t.on_key_event_at(Key::Char(c), 1);
    }
    let w = t.widget_two_lines();
    assert_eq!(
        pieces(&w.first_line(80)),
        vec![p("ab", Correct), p("z", Superfluous), p(" ", Plain), p("c", Correct)]
    );
    assert_eq!(
        pieces(&w.second_line(80)),
        vec![p("  ", Plain), p(" ", Plain), p(" ", Plain), p(" ", Plain)]
    );
}
