use dactylo::written_word::{WordBodyPart, WordTail, WrittenWord};

fn typed(expected: &str, written: &str) -> WrittenWord {
    let mut w = WrittenWord::new(expected.to_string());
    for c in written.chars() {
        w.push(c);
    }
    w
}

#[test]
fn new_word_is_empty() {
    let w = WrittenWord::new("hello".to_string());
    assert!(w.is_empty());
    assert_eq!(w.expected(), "hello");
    assert_eq!(w.written(), "");
    assert_eq!(w.written_width(), 0);
    assert_eq!(w.expected_width(), 5);
    assert_eq!(w.max_width(), 5);
    assert!(w.keystrokes().is_empty());
}

#[test]
fn push_records_keystroke_correctness() {
    let mut w = WrittenWord::new("ab".to_string());
    w.push('a');
    w.push('x');
    w.push('b');
    let ks: Vec<bool> = w.keystrokes().iter().map(|k| k.is_correct).collect();
    assert_eq!(ks, vec![true, false, false]);
    assert_eq!(w.written(), "axb");
    assert_eq!(w.max_width(), 3);
}

#[test]
fn pop_keeps_keystrokes() {
    let mut w = typed("cat", "ca");
    w.pop();
    assert_eq!(w.written(), "c");
    assert_eq!(w.keystrokes().len(), 2);
    w.pop();
    w.pop();
    assert_eq!(w.written(), "");
    assert!(w.is_empty());
}

#[test]
fn is_correct_only_when_equal() {
    assert!(typed("dog", "dog").is_correct());
    assert!(!typed("dog", "do").is_correct());
    assert!(!typed("dog", "dogs").is_correct());
}

#[test]
fn analyze_groups_runs() {
    let w = typed("hello", "hxylo!");
    let a = w.analyze();
    assert_eq!(a.body_parts.len(), 3);
    match &a.body_parts[0] {
        WordBodyPart::Correct(c) => assert_eq!(c, "h"),
        _ => panic!("expected a correct part"),
    }
    match &a.body_parts[1] {
        WordBodyPart::Incorrect { expected, written } => {
            assert_eq!(expected, "el");
            assert_eq!(written, "xy");
        }
        _ => panic!("expected an incorrect part"),
    }
    match &a.body_parts[2] {
        WordBodyPart::Correct(c) => assert_eq!(c, "lo"),
        _ => panic!("expected a correct part"),
    }
    match &a.tail {
        Some(WordTail::Extra(e)) => assert_eq!(e, "!"),
        _ => panic!("expected extra characters"),
    }
}

#[test]
fn analyze_missing_tail() {
    let w = typed("world", "wo");
    let a = w.analyze();
    assert_eq!(a.body_parts.len(), 1);
    match &a.tail {
        Some(WordTail::Missing(m)) => assert_eq!(m, "rld"),
        _ => panic!("expected missing characters"),
    }
}

#[test]
fn analyze_empty_written() {
    let w = WrittenWord::new("abc".to_string());
    let a = w.analyze();
    assert!(a.body_parts.is_empty());
    match &a.tail {
        Some(WordTail::Missing(m)) => assert_eq!(m, "abc"),
        _ => panic!("expected missing characters"),
    }
}

#[test]
fn analyze_non_ascii() {
    let w = typed("été", "ét!");
    let a = w.analyze();
    assert_eq!(a.body_parts.len(), 2);
    match &a.body_parts[0] {
        WordBodyPart::Correct(c) => assert_eq!(c, "ét"),
        _ => panic!("expected a correct part"),
    }
    match &a.body_parts[1] {
        WordBodyPart::Incorrect { expected, written } => {
            assert_eq!(expected, "é");
            assert_eq!(written, "!");
        }
        _ => panic!("expected an incorrect part"),
    }
    assert!(a.tail.is_none());
}

#[test]
fn char_stats_counts() {
    let s = typed("hello", "hxylo!").char_stats();
    assert_eq!((s.correct, s.incorrect, s.extra, s.missing), (3, 2, 1, 0));
    let s = typed("world", "wx").char_stats();
    assert_eq!((s.correct, s.incorrect, s.extra, s.missing), (1, 1, 0, 3));
    assert_eq!(s.to_string(), "1/1/0/3");
}

#[test]
fn char_stats_of_correct_word_is_clean() {
    let s = typed("same", "same").char_stats();
    assert_eq!((s.correct, s.incorrect, s.extra, s.missing), (4, 0, 0, 0));
}
