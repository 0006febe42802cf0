# dactylo

A typing test in the terminal. The words of a test are drawn from a Monkeytype
word list; the test shows, on two lines, what was typed against what was
expected, and ends with the speed, the accuracy and the character counts.

Layout:

- `src/` is the verified library (Verus):
  - `written_word.rs`: a word being typed, keystroke correctness, and the
    analysis of a word into right and wrong stretches and a tail;
  - `typing_test.rs`: the test itself and how every key changes it;
  - `test_stats.rs`: the counts that the results are computed from;
  - `two_lines.rs`: the pieces of the two lines, scrolled to the cursor;
  - `session.rs`: the screens of the application and their transitions;
  - `dictionary.rs`: word lists and where to fetch them;
  - `text.rs`: a few operations on strings from the standard library.
- `app/` is the program around it: command line, download of the word list,
  the event loop, drawing with ratatui, and the speeds and accuracy, which are
  floating point.
- `tests/` exercises the library on concrete values.
