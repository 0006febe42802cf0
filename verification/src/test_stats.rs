//! The statistics of a finished test.

use vstd::prelude::*;
use crate::text::{decimal, string_push, usize_to_string};
use crate::written_word::{
    char_stats_spec, law_char_stats_cover_word, law_correct_iff_clean_stats, pop_spec, push_spec, views, Keystroke, WrittenWord,
    WrittenWordView,
};

verus! {

/// How many characters of a test, or of a word, were right, wrong, typed
/// beyond the expected word, or left out.
#[derive(Debug, Clone, Default)]
pub struct CharStats {
    pub correct: usize,
    pub incorrect: usize,
    pub extra: usize,
    pub missing: usize,
}

impl CharStats {
    /// The four counts, separated by slashes: correct/incorrect/extra/missing.
    pub fn to_string(&self) -> (r: String)
        ensures
            r@ == decimal(self.correct as nat) + seq!['/'] + decimal(self.incorrect as nat) + seq![
                '/',
            ] + decimal(self.extra as nat) + seq!['/'] + decimal(self.missing as nat),
    {
        let mut s = usize_to_string(self.correct);
        string_push(&mut s, '/');
        s.append(usize_to_string(self.incorrect).as_str());
        string_push(&mut s, '/');
        s.append(usize_to_string(self.extra).as_str());
        string_push(&mut s, '/');
        s.append(usize_to_string(self.missing).as_str());
        s
    }
}

/// The results of a finished test: when it started and ended, in nanoseconds
/// since the Unix epoch, and the words that were typed.
#[derive(Debug, Clone)]
pub struct TestStats {
    pub start_time: i128,
    pub end_time: i128,
    pub completed_word_list: Vec<WrittenWord>,
}

/// What a [`TestStats`] holds, as mathematical values.
#[verifier::ext_equal]
pub struct TestStatsView {
    pub start_time: i128,
    pub end_time: i128,
    pub completed: Seq<WrittenWordView>,
}

impl View for TestStats {
    type V = TestStatsView;

    open spec fn view(&self) -> TestStatsView {
        TestStatsView {
            start_time: self.start_time,
            end_time: self.end_time,
            completed: views(self.completed_word_list@),
        }
    }
}

/// The sum of `f` over the words.
pub open spec fn sum_words(words: Seq<WrittenWordView>, f: spec_fn(WrittenWordView) -> nat) -> nat
    decreases words.len(),
{
    if words.len() == 0 {
        0
    } else {
        sum_words(words.drop_last(), f) + f(words.last())
    }
}

/// The letters a word adds to the speed: its written characters and the space
/// after it.
pub open spec fn typed_letters(w: WrittenWordView) -> nat {
    w.written.len() + 1
}

/// The letters a word adds to the net speed: those of [`typed_letters`] when
/// the word is correct, none otherwise.
pub open spec fn correct_letters(w: WrittenWordView) -> nat {
    if w.written == w.expected {
        w.written.len() + 1
    } else {
        0
    }
}

/// The number of correct keystrokes.
pub open spec fn count_correct_keystrokes(ks: Seq<Keystroke>) -> nat
    decreases ks.len(),
{
    if ks.len() == 0 {
        0
    } else {
        count_correct_keystrokes(ks.drop_last()) + if ks.last().is_correct {
            1nat
        } else {
            0nat
        }
    }
}

pub open spec fn correct_keystrokes(w: WrittenWordView) -> nat {
    count_correct_keystrokes(w.keystrokes)
}

pub open spec fn all_keystrokes(w: WrittenWordView) -> nat {
    w.keystrokes.len()
}

pub open spec fn stat_correct(w: WrittenWordView) -> nat {
    char_stats_spec(w.expected, w.written).0
}

pub open spec fn stat_incorrect(w: WrittenWordView) -> nat {
    char_stats_spec(w.expected, w.written).1
}

pub open spec fn stat_extra(w: WrittenWordView) -> nat {
    char_stats_spec(w.expected, w.written).2
}

pub open spec fn stat_missing(w: WrittenWordView) -> nat {
    char_stats_spec(w.expected, w.written).3
}

proof fn lemma_sum_step(words: Seq<WrittenWordView>, f: spec_fn(WrittenWordView) -> nat, k: int)
    requires
        0 <= k < words.len(),
    ensures
        sum_words(words.take(k + 1), f) == sum_words(words.take(k), f) + f(words[k]),
{
    assert(words.take(k + 1).drop_last() =~= words.take(k));
}

proof fn lemma_sum_prefix(words: Seq<WrittenWordView>, f: spec_fn(WrittenWordView) -> nat, k: int)
    requires
        0 <= k <= words.len(),
    ensures
        sum_words(words.take(k), f) <= sum_words(words, f),
    decreases words.len(),
{
    if k < words.len() {
        lemma_sum_prefix(words.drop_last(), f, k);
        assert(words.drop_last().take(k) =~= words.take(k));
    } else {
        assert(words.take(k) =~= words);
    }
}

proof fn lemma_keystroke_count_le(ks: Seq<Keystroke>)
    ensures
        count_correct_keystrokes(ks) <= ks.len(),
    decreases ks.len(),
{
    if ks.len() > 0 {
        lemma_keystroke_count_le(ks.drop_last());
    }
}

impl TestStats {
    /// The letters that count for the net speed: for every correct word, its
    /// characters and the space after it.
    pub fn correct_letters(&self) -> (r: usize)
        requires
            sum_words(views(self.completed_word_list@), |w| correct_letters(w)) <= usize::MAX,
        ensures
            r == sum_words(views(self.completed_word_list@), |w| correct_letters(w)),
    {
        let ghost ws = views(self.completed_word_list@);
        let ghost f = |w| correct_letters(w);
        let mut total: usize = 0;
        let mut k: usize = 0;
        while k < self.completed_word_list.len()
            invariant
                ws == views(self.completed_word_list@),
                f == (|w| correct_letters(w)),
                sum_words(ws, f) <= usize::MAX,
                k <= ws.len(),
                total == sum_words(ws.take(k as int), f),
            decreases ws.len() - k,
        {
            proof {
                lemma_sum_step(ws, f, k as int);
                lemma_sum_prefix(ws, f, k + 1);
            }
            let w = &self.completed_word_list[k];
            if w.is_correct() {
                total = total + w.written_width() + 1;
            }
            k = k + 1;
        }
        proof {
            assert(ws.take(ws.len() as int) =~= ws);
        }
        total
    }

    /// The letters that count for the raw speed: for every word, its
    /// characters and the space after it.
    pub fn typed_letters(&self) -> (r: usize)
        requires
            sum_words(views(self.completed_word_list@), |w| typed_letters(w)) <= usize::MAX,
        ensures
            r == sum_words(views(self.completed_word_list@), |w| typed_letters(w)),
    {
        let ghost ws = views(self.completed_word_list@);
        let ghost f = |w| typed_letters(w);
        let mut total: usize = 0;
        let mut k: usize = 0;
        while k < self.completed_word_list.len()
            invariant
                ws == views(self.completed_word_list@),
                f == (|w| typed_letters(w)),
                sum_words(ws, f) <= usize::MAX,
                k <= ws.len(),
                total == sum_words(ws.take(k as int), f),
            decreases ws.len() - k,
        {
            proof {
                lemma_sum_step(ws, f, k as int);
                lemma_sum_prefix(ws, f, k + 1);
            }
            total = total + self.completed_word_list[k].written_width() + 1;
            k = k + 1;
        }
        proof {
            assert(ws.take(ws.len() as int) =~= ws);
        }
        total
    }

    /// The number of correct keystrokes and the number of all keystrokes of
    /// the test.
    pub fn keystroke_counts(&self) -> (r: (usize, usize))
        requires
            sum_words(views(self.completed_word_list@), |w| all_keystrokes(w)) <= usize::MAX,
        ensures
            r.0 == sum_words(views(self.completed_word_list@), |w| correct_keystrokes(w)),
            r.1 == sum_words(views(self.completed_word_list@), |w| all_keystrokes(w)),
    {
        let ghost ws = views(self.completed_word_list@);
        let ghost fc = |w| correct_keystrokes(w);
        let ghost fa = |w| all_keystrokes(w);
        let mut correct: usize = 0;
        let mut total: usize = 0;
        let mut k: usize = 0;
        while k < self.completed_word_list.len()
            invariant
                ws == views(self.completed_word_list@),
                fc == (|w| correct_keystrokes(w)),
                fa == (|w| all_keystrokes(w)),
                sum_words(ws, fa) <= usize::MAX,
                k <= ws.len(),
                correct == sum_words(ws.take(k as int), fc),
                total == sum_words(ws.take(k as int), fa),
                correct <= total,
            decreases ws.len() - k,
        {
            proof {
                lemma_sum_step(ws, fc, k as int);
                lemma_sum_step(ws, fa, k as int);
                lemma_sum_prefix(ws, fa, k + 1);
            }
            let ks = self.completed_word_list[k].keystrokes();
            let ghost kv = ks@;
            let mut j: usize = 0;
            while j < ks.len()
                invariant
                    kv == ks@,
                    j <= kv.len(),
                    correct == sum_words(ws.take(k as int), fc) + count_correct_keystrokes(
                        kv.take(j as int),
                    ),
                    total == sum_words(ws.take(k as int), fa) + j,
                    sum_words(ws.take(k as int), fa) + kv.len() <= usize::MAX,
                    correct <= total,
                decreases kv.len() - j,
            {
                proof {
                    assert(kv.take(j + 1).drop_last() =~= kv.take(j as int));
                }
                if ks[j].is_correct {
                    correct = correct + 1;
                }
                total = total + 1;
                j = j + 1;
            }
            proof {
                assert(kv.take(kv.len() as int) =~= kv);
            }
            k = k + 1;
        }
        proof {
            assert(ws.take(ws.len() as int) =~= ws);
        }
        (correct, total)
    }

    /// The character statistics of the test: those of its words, added up.
    pub fn char_stats(&self) -> (r: CharStats)
        requires
            sum_words(views(self.completed_word_list@), |w| stat_correct(w)) <= usize::MAX,
            sum_words(views(self.completed_word_list@), |w| stat_incorrect(w)) <= usize::MAX,
            sum_words(views(self.completed_word_list@), |w| stat_extra(w)) <= usize::MAX,
            sum_words(views(self.completed_word_list@), |w| stat_missing(w)) <= usize::MAX,
        ensures
            r.correct == sum_words(views(self.completed_word_list@), |w| stat_correct(w)),
            r.incorrect == sum_words(views(self.completed_word_list@), |w| stat_incorrect(w)),
            r.extra == sum_words(views(self.completed_word_list@), |w| stat_extra(w)),
            r.missing == sum_words(views(self.completed_word_list@), |w| stat_missing(w)),
    {
        let ghost ws = views(self.completed_word_list@);
        let ghost f0 = |w| stat_correct(w);
        let ghost f1 = |w| stat_incorrect(w);
        let ghost f2 = |w| stat_extra(w);
        let ghost f3 = |w| stat_missing(w);
        let mut s = CharStats { correct: 0, incorrect: 0, extra: 0, missing: 0 };
        let mut k: usize = 0;
        while k < self.completed_word_list.len()
            invariant
                ws == views(self.completed_word_list@),
                f0 == (|w| stat_correct(w)),
                f1 == (|w| stat_incorrect(w)),
                f2 == (|w| stat_extra(w)),
                f3 == (|w| stat_missing(w)),
                sum_words(ws, f0) <= usize::MAX,
                sum_words(ws, f1) <= usize::MAX,
                sum_words(ws, f2) <= usize::MAX,
                sum_words(ws, f3) <= usize::MAX,
                k <= ws.len(),
                s.correct == sum_words(ws.take(k as int), f0),
                s.incorrect == sum_words(ws.take(k as int), f1),
                s.extra == sum_words(ws.take(k as int), f2),
                s.missing == sum_words(ws.take(k as int), f3),
            decreases ws.len() - k,
        {
            proof {
                lemma_sum_step(ws, f0, k as int);
                lemma_sum_step(ws, f1, k as int);
                lemma_sum_step(ws, f2, k as int);
                lemma_sum_step(ws, f3, k as int);
                lemma_sum_prefix(ws, f0, k + 1);
                lemma_sum_prefix(ws, f1, k + 1);
                lemma_sum_prefix(ws, f2, k + 1);
                lemma_sum_prefix(ws, f3, k + 1);
            }
            let ws_k = self.completed_word_list[k].char_stats();
            s = CharStats {
                correct: s.correct + ws_k.correct,
                incorrect: s.incorrect + ws_k.incorrect,
                extra: s.extra + ws_k.extra,
                missing: s.missing + ws_k.missing,
            };
            k = k + 1;
        }
        proof {
            assert(ws.take(ws.len() as int) =~= ws);
        }
        s
    }
}

/// The net speed never exceeds the raw speed: the letters of correct words are
/// among the typed letters.
pub proof fn law_correct_letters_within_typed(words: Seq<WrittenWordView>)
    ensures
        sum_words(words, |w| correct_letters(w)) <= sum_words(words, |w| typed_letters(w)),
    decreases words.len(),
{
    if words.len() > 0 {
        law_correct_letters_within_typed(words.drop_last());
    }
}

/// The written width of a word.
pub open spec fn written_width(w: WrittenWordView) -> nat {
    w.written.len()
}

/// Over a whole test, every typed character is counted once in the character
/// statistics, as correct, incorrect or extra.
pub proof fn law_test_char_stats_cover_typed(words: Seq<WrittenWordView>)
    ensures
        sum_words(words, |w| stat_correct(w)) + sum_words(words, |w| stat_incorrect(w))
            + sum_words(words, |w| stat_extra(w)) == sum_words(words, |w| written_width(w)),
    decreases words.len(),
{
    if words.len() > 0 {
        law_test_char_stats_cover_typed(words.drop_last());
        law_char_stats_cover_word(words.last().expected, words.last().written);
    }
}

/// The accuracy is at most one: the correct keystrokes are among all keystrokes.
pub proof fn law_correct_keystrokes_within_all(words: Seq<WrittenWordView>)
    ensures
        sum_words(words, |w| correct_keystrokes(w)) <= sum_words(words, |w| all_keystrokes(w)),
    decreases words.len(),
{
    if words.len() > 0 {
        law_correct_keystrokes_within_all(words.drop_last());
        lemma_keystroke_count_le(words.last().keystrokes);
    }
}

proof fn lemma_sum_push(ws: Seq<WrittenWordView>, f: spec_fn(WrittenWordView) -> nat, w: WrittenWordView)
    ensures
        sum_words(ws.push(w), f) == sum_words(ws, f) + f(w),
{
    assert(ws.push(w).drop_last() =~= ws);
}

/// Adding a typed word to a test adds its written characters and its space
/// to the net-speed letters when it was typed exactly as expected, and
/// nothing otherwise; to the raw-speed letters it always adds its written
/// characters and its space, whatever was expected.
pub proof fn law_letters_of_added_word(ws: Seq<WrittenWordView>, w: WrittenWordView)
    ensures
        sum_words(ws.push(w), |x| correct_letters(x)) == sum_words(ws, |x| correct_letters(x)) + if w.written
            == w.expected {
            w.written.len() + 1
        } else {
            0
        },
        sum_words(ws.push(w), |x| typed_letters(x)) == sum_words(ws, |x| typed_letters(x))
            + w.written.len() + 1,
{
    lemma_sum_push(ws, |x| correct_letters(x), w);
    lemma_sum_push(ws, |x| typed_letters(x), w);
}

/// The net speed equals the raw speed exactly when every word was typed
/// exactly as expected.
pub proof fn law_net_equals_raw_iff_all_exact(ws: Seq<WrittenWordView>)
    ensures
        sum_words(ws, |x| correct_letters(x)) == sum_words(ws, |x| typed_letters(x)) <==> forall|i: int|
            0 <= i < ws.len() ==> #[trigger] ws[i].written == ws[i].expected,
    decreases ws.len(),
{
    if ws.len() > 0 {
        let d = ws.drop_last();
        law_net_equals_raw_iff_all_exact(d);
        law_correct_letters_within_typed(d);
        assert forall|i: int| 0 <= i < d.len() implies #[trigger] d[i] == ws[i] by {}
        if forall|i: int| 0 <= i < ws.len() ==> #[trigger] ws[i].written == ws[i].expected {
            assert(ws[ws.len() - 1].written == ws[ws.len() - 1].expected);
            assert forall|i: int| 0 <= i < d.len() implies #[trigger] d[i].written == d[i].expected by {
                assert(ws[i].written == ws[i].expected);
            }
        }
        if sum_words(ws, |x| correct_letters(x)) == sum_words(ws, |x| typed_letters(x)) {
            assert forall|i: int| 0 <= i < ws.len() implies #[trigger] ws[i].written
                == ws[i].expected by {
                if i < d.len() {
                    assert(d[i].written == d[i].expected);
                }
            }
        }
    }
}

/// The raw-speed letters are the written characters of the test, as the
/// character statistics count them (correct, incorrect and extra), plus one
/// space per word.
pub proof fn law_typed_letters_are_written_characters(ws: Seq<WrittenWordView>)
    ensures
        sum_words(ws, |x| typed_letters(x)) == sum_words(ws, |x| stat_correct(x)) + sum_words(
            ws,
            |x| stat_incorrect(x),
        ) + sum_words(ws, |x| stat_extra(x)) + ws.len(),
    decreases ws.len(),
{
    if ws.len() > 0 {
        law_typed_letters_are_written_characters(ws.drop_last());
        law_char_stats_cover_word(ws.last().expected, ws.last().written);
    }
}

/// Over a whole test, every expected character is counted once in the
/// character statistics, as correct, incorrect or missing.
pub proof fn law_test_char_stats_cover_expected(ws: Seq<WrittenWordView>)
    ensures
        sum_words(ws, |x| stat_correct(x)) + sum_words(ws, |x| stat_incorrect(x)) + sum_words(
            ws,
            |x| stat_missing(x),
        ) == sum_words(ws, |x: WrittenWordView| x.expected.len()),
    decreases ws.len(),
{
    if ws.len() > 0 {
        law_test_char_stats_cover_expected(ws.drop_last());
        law_char_stats_cover_word(ws.last().expected, ws.last().written);
    }
}

/// A test's character statistics show no incorrect, extra or missing
/// character exactly when every word was typed exactly as expected.
pub proof fn law_test_clean_stats_iff_all_exact(ws: Seq<WrittenWordView>)
    ensures
        sum_words(ws, |x| stat_incorrect(x)) + sum_words(ws, |x| stat_extra(x)) + sum_words(
            ws,
            |x| stat_missing(x),
        ) == 0 <==> forall|i: int| 0 <= i < ws.len() ==> #[trigger] ws[i].written == ws[i].expected,
    decreases ws.len(),
{
    if ws.len() > 0 {
        let d = ws.drop_last();
        let l = ws.last();
        law_test_clean_stats_iff_all_exact(d);
        law_correct_iff_clean_stats(l.expected, l.written);
        assert forall|i: int| 0 <= i < d.len() implies #[trigger] d[i] == ws[i] by {}
        if forall|i: int| 0 <= i < ws.len() ==> #[trigger] ws[i].written == ws[i].expected {
            assert(ws[ws.len() - 1].written == ws[ws.len() - 1].expected);
            assert forall|i: int| 0 <= i < d.len() implies #[trigger] d[i].written == d[i].expected by {
                assert(ws[i].written == ws[i].expected);
            }
        }
        if sum_words(ws, |x| stat_incorrect(x)) + sum_words(ws, |x| stat_extra(x)) + sum_words(
            ws,
            |x| stat_missing(x),
        ) == 0 {
            assert forall|i: int| 0 <= i < ws.len() implies #[trigger] ws[i].written
                == ws[i].expected by {
                if i < d.len() {
                    assert(d[i].written == d[i].expected);
                }
            }
        }
    }
}

/// Every key typed into the last word of a test counts once among the
/// test's keystrokes, and once among its correct keystrokes exactly when it is
/// the expected character at its place; removing a character changes neither
/// count, so a corrected typo still counts against the accuracy.
pub proof fn law_keystroke_counts_follow_keys(ws: Seq<WrittenWordView>, w: WrittenWordView, c: char)
    ensures
        sum_words(ws.push(push_spec(w, c)), |x| all_keystrokes(x)) == sum_words(
            ws.push(w),
            |x| all_keystrokes(x),
        ) + 1,
        sum_words(ws.push(push_spec(w, c)), |x| correct_keystrokes(x)) == sum_words(
            ws.push(w),
            |x| correct_keystrokes(x),
        ) + if w.written.len() < w.expected.len() && w.expected[w.written.len() as int] == c {
            1nat
        } else {
            0nat
        },
        sum_words(ws.push(pop_spec(w)), |x| all_keystrokes(x)) == sum_words(
            ws.push(w),
            |x| all_keystrokes(x),
        ),
        sum_words(ws.push(pop_spec(w)), |x| correct_keystrokes(x)) == sum_words(
            ws.push(w),
            |x| correct_keystrokes(x),
        ),
{
    lemma_sum_push(ws, |x| all_keystrokes(x), w);
    lemma_sum_push(ws, |x| all_keystrokes(x), push_spec(w, c));
    lemma_sum_push(ws, |x| all_keystrokes(x), pop_spec(w));
    lemma_sum_push(ws, |x| correct_keystrokes(x), w);
    lemma_sum_push(ws, |x| correct_keystrokes(x), push_spec(w, c));
    lemma_sum_push(ws, |x| correct_keystrokes(x), pop_spec(w));
    let ks = push_spec(w, c).keystrokes;
    assert(ks.drop_last() =~= w.keystrokes);
}

} // verus!
