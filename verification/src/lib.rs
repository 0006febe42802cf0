//! A terminal typing test: the words to type, what was typed, how each word
//! compares with what was expected, the statistics of a finished test and the
//! layout of the two lines that the test shows.

pub mod dictionary;
pub mod session;
pub mod test_stats;
pub mod text;
pub mod two_lines;
pub mod written_word;
