//! A word of the test: the word that is expected, what was typed for it and
//! whether each keystroke was right.

use vstd::prelude::*;
use crate::test_stats::CharStats;
use crate::text::{string_pop, string_push};

verus! {

/// One key typed while writing a word.
#[derive(Debug, Clone, Copy)]
pub struct Keystroke {
    /// Whether the key was the expected character at the place it was typed.
    pub is_correct: bool,
}

/// A word being typed, or typed already.
#[derive(Debug, Default)]
pub struct WrittenWord {
    expected: String,
    written: String,
    keystrokes: Vec<Keystroke>,
}

/// What a [`WrittenWord`] holds, as mathematical values.
#[verifier::ext_equal]
pub struct WrittenWordView {
    pub expected: Seq<char>,
    pub written: Seq<char>,
    pub keystrokes: Seq<Keystroke>,
}

impl View for WrittenWord {
    type V = WrittenWordView;

    closed spec fn view(&self) -> WrittenWordView {
        WrittenWordView {
            expected: self.expected@,
            written: self.written@,
            keystrokes: self.keystrokes@,
        }
    }
}

/// The views of the words.
pub open spec fn views(words: Seq<WrittenWord>) -> Seq<WrittenWordView> {
    words.map_values(|w: WrittenWord| w@)
}

/// Whether typing `c` when `written` stands for `expected` is a correct keystroke.
pub open spec fn keystroke_correct(expected: Seq<char>, written: Seq<char>, c: char) -> bool {
    written.len() < expected.len() && expected[written.len() as int] == c
}

/// The word after typing `c`.
pub open spec fn push_spec(v: WrittenWordView, c: char) -> WrittenWordView {
    WrittenWordView {
        expected: v.expected,
        written: v.written.push(c),
        keystrokes: v.keystrokes.push(
            Keystroke { is_correct: keystroke_correct(v.expected, v.written, c) },
        ),
    }
}

/// The word after removing the last written character: the keystrokes stay.
pub open spec fn pop_spec(v: WrittenWordView) -> WrittenWordView {
    WrittenWordView {
        expected: v.expected,
        written: if v.written.len() == 0 { v.written } else { v.written.drop_last() },
        keystrokes: v.keystrokes,
    }
}

pub open spec fn max_nat(a: nat, b: nat) -> nat {
    if a >= b { a } else { b }
}

/// A stretch of the typed part of a word, where every written character is
/// right, or where every written character is wrong.
#[derive(Debug, Clone)]
pub enum WordBodyPart {
    /// When the written letters match the expected letters
    Correct(String),
    /// When the written letters do not match the expected letters
    Incorrect { expected: String, written: String },
}

/// What follows the compared part of a word.
#[derive(Debug, Clone)]
pub enum WordTail {
    /// When letters are extra
    Extra(String),
    /// When letters are missing
    Missing(String),
}

/// How a written word compares with the expected one.
#[derive(Debug, Clone)]
pub struct WordAnalysis {
    pub body_parts: Vec<WordBodyPart>,
    pub tail: Option<WordTail>,
}

/// A body part as mathematical values: whether it is the correct kind, the
/// expected characters and the written characters it covers.
pub struct PartModel {
    pub correct: bool,
    pub expected: Seq<char>,
    pub written: Seq<char>,
}

/// A tail as mathematical values.
pub enum TailModel {
    Extra(Seq<char>),
    Missing(Seq<char>),
}

impl View for WordBodyPart {
    type V = PartModel;

    open spec fn view(&self) -> PartModel {
        match self {
            WordBodyPart::Correct(s) => PartModel { correct: true, expected: s@, written: s@ },
            WordBodyPart::Incorrect { expected, written } => PartModel {
                correct: false,
                expected: expected@,
                written: written@,
            },
        }
    }
}

impl View for WordTail {
    type V = TailModel;

    open spec fn view(&self) -> TailModel {
        match self {
            WordTail::Extra(s) => TailModel::Extra(s@),
            WordTail::Missing(s) => TailModel::Missing(s@),
        }
    }
}

pub open spec fn parts_view(parts: Seq<WordBodyPart>) -> Seq<PartModel> {
    parts.map_values(|p: WordBodyPart| p@)
}

pub open spec fn tail_view(tail: Option<WordTail>) -> Option<TailModel> {
    match tail {
        Some(t) => Some(t@),
        None => None,
    }
}

pub open spec fn min_nat(a: nat, b: nat) -> nat {
    if a <= b { a } else { b }
}

/// The body parts of the first `n` compared characters: consecutive places
/// where the written character equals the expected one are grouped into one
/// correct part, consecutive places where they differ into one incorrect part.
pub open spec fn body_parts_upto(expected: Seq<char>, written: Seq<char>, n: nat) -> Seq<PartModel>
    decreases n,
{
    if n == 0 {
        seq![]
    } else {
        let prev = body_parts_upto(expected, written, (n - 1) as nat);
        let i = n - 1;
        let ok = written[i] == expected[i];
        if prev.len() > 0 && prev.last().correct == ok {
            prev.update(
                prev.len() - 1,
                PartModel {
                    correct: ok,
                    expected: prev.last().expected.push(expected[i]),
                    written: prev.last().written.push(written[i]),
                },
            )
        } else {
            prev.push(PartModel { correct: ok, expected: seq![expected[i]], written: seq![written[i]] })
        }
    }
}

/// The body parts of a word: its compared part is as long as the shorter of
/// the expected and the written word.
pub open spec fn body_parts_spec(expected: Seq<char>, written: Seq<char>) -> Seq<PartModel> {
    body_parts_upto(expected, written, min_nat(expected.len(), written.len()))
}

/// The tail of a word: the written characters beyond the expected word, or the
/// expected characters beyond what is written, or nothing when both are as long.
pub open spec fn tail_spec(expected: Seq<char>, written: Seq<char>) -> Option<TailModel> {
    if written.len() > expected.len() {
        Some(TailModel::Extra(written.subrange(expected.len() as int, written.len() as int)))
    } else if expected.len() > written.len() {
        Some(TailModel::Missing(expected.subrange(written.len() as int, expected.len() as int)))
    } else {
        None
    }
}

/// The number of places among the first `n` where the written character is
/// the expected one.
pub open spec fn count_matching(expected: Seq<char>, written: Seq<char>, n: nat) -> nat
    decreases n,
{
    if n == 0 {
        0
    } else {
        count_matching(expected, written, (n - 1) as nat) + if written[n - 1] == expected[n - 1] {
            1nat
        } else {
            0nat
        }
    }
}

/// The number of written characters in the correct parts.
pub open spec fn sum_correct(parts: Seq<PartModel>) -> nat
    decreases parts.len(),
{
    if parts.len() == 0 {
        0
    } else {
        sum_correct(parts.drop_last()) + if parts.last().correct {
            parts.last().written.len()
        } else {
            0nat
        }
    }
}

/// The number of written characters in the incorrect parts.
pub open spec fn sum_incorrect(parts: Seq<PartModel>) -> nat
    decreases parts.len(),
{
    if parts.len() == 0 {
        0
    } else {
        sum_incorrect(parts.drop_last()) + if parts.last().correct {
            0nat
        } else {
            parts.last().written.len()
        }
    }
}

/// The character statistics of a word, as mathematical values: the places
/// where written and expected agree, those where they differ, the written
/// characters beyond the expected word and the expected characters not written.
pub open spec fn char_stats_spec(expected: Seq<char>, written: Seq<char>) -> (nat, nat, nat, nat) {
    let n = min_nat(expected.len(), written.len());
    let c = count_matching(expected, written, n);
    (
        c,
        (n - c) as nat,
        if written.len() > expected.len() { (written.len() - expected.len()) as nat } else { 0 },
        if expected.len() > written.len() { (expected.len() - written.len()) as nat } else { 0 },
    )
}

proof fn lemma_count_matching_le(expected: Seq<char>, written: Seq<char>, n: nat)
    ensures
        count_matching(expected, written, n) <= n,
    decreases n,
{
    if n > 0 {
        lemma_count_matching_le(expected, written, (n - 1) as nat);
    }
}

/// The correct parts hold exactly the matching places, the incorrect parts the others.
proof fn lemma_body_sums(expected: Seq<char>, written: Seq<char>, n: nat)
    requires
        n <= expected.len(),
        n <= written.len(),
    ensures
        sum_correct(body_parts_upto(expected, written, n)) == count_matching(expected, written, n),
        sum_incorrect(body_parts_upto(expected, written, n)) + count_matching(expected, written, n)
            == n,
    decreases n,
{
    if n > 0 {
        lemma_body_sums(expected, written, (n - 1) as nat);
        let prev = body_parts_upto(expected, written, (n - 1) as nat);
        let cur = body_parts_upto(expected, written, n);
        let i = n - 1;
        let ok = written[i] == expected[i];
        if prev.len() > 0 && prev.last().correct == ok {
            assert(cur.drop_last() =~= prev.drop_last());
        } else {
            assert(cur.drop_last() =~= prev);
        }
    }
}

/// A prefix of the parts holds no more than all of them.
proof fn lemma_sums_prefix(parts: Seq<PartModel>, k: int)
    requires
        0 <= k <= parts.len(),
    ensures
        sum_correct(parts.take(k)) <= sum_correct(parts),
        sum_incorrect(parts.take(k)) <= sum_incorrect(parts),
    decreases parts.len(),
{
    if k < parts.len() {
        lemma_sums_prefix(parts.drop_last(), k);
        assert(parts.drop_last().take(k) =~= parts.take(k));
    } else {
        assert(parts.take(k) =~= parts);
    }
}

/// The written characters of the parts, one after the other.
pub open spec fn flat_written(parts: Seq<PartModel>) -> Seq<char>
    decreases parts.len(),
{
    if parts.len() == 0 {
        seq![]
    } else {
        flat_written(parts.drop_last()) + parts.last().written
    }
}

/// The expected characters of the parts, one after the other.
pub open spec fn flat_expected(parts: Seq<PartModel>) -> Seq<char>
    decreases parts.len(),
{
    if parts.len() == 0 {
        seq![]
    } else {
        flat_expected(parts.drop_last()) + parts.last().expected
    }
}

/// The parts are maximal stretches: none is empty, each covers as many
/// expected as written characters, a correct part has every written character
/// right, an incorrect part has every one wrong, and two neighbours are never
/// of the same kind.
pub open spec fn maximal_stretches(parts: Seq<PartModel>) -> bool {
    &&& forall|k: int|
        #![trigger parts[k]]
        0 <= k < parts.len() ==> parts[k].written.len() > 0 && parts[k].expected.len()
            == parts[k].written.len()
    &&& forall|k: int|
        #![trigger parts[k]]
        0 <= k < parts.len() && parts[k].correct ==> parts[k].expected == parts[k].written
    &&& forall|k: int, j: int|
        #![trigger parts[k].written[j]]
        0 <= k < parts.len() && !parts[k].correct && 0 <= j < parts[k].written.len()
            ==> parts[k].expected[j] != parts[k].written[j]
    &&& forall|k: int|
        #![trigger parts[k], parts[k + 1]]
        0 <= k < parts.len() - 1 ==> parts[k].correct != parts[k + 1].correct
}

proof fn lemma_body_structure(expected: Seq<char>, written: Seq<char>, n: nat)
    requires
        n <= expected.len(),
        n <= written.len(),
    ensures
        maximal_stretches(body_parts_upto(expected, written, n)),
        flat_written(body_parts_upto(expected, written, n)) == written.take(n as int),
        flat_expected(body_parts_upto(expected, written, n)) == expected.take(n as int),
    decreases n,
{
    if n == 0 {
        assert(written.take(0) =~= seq![]);
        assert(expected.take(0) =~= seq![]);
    } else {
        lemma_body_structure(expected, written, (n - 1) as nat);
        let prev = body_parts_upto(expected, written, (n - 1) as nat);
        let cur = body_parts_upto(expected, written, n);
        let i = n - 1;
        let ok = written[i] == expected[i];
        assert(written.take(n as int) =~= written.take(i).push(written[i]));
        assert(expected.take(n as int) =~= expected.take(i).push(expected[i]));
        if prev.len() > 0 && prev.last().correct == ok {
            let l = prev.len() - 1;
            assert(cur.drop_last() =~= prev.drop_last());
            assert(flat_written(prev) == flat_written(prev.drop_last()) + prev.last().written);
            assert(flat_written(cur) =~= flat_written(prev).push(written[i]));
            assert(flat_expected(cur) =~= flat_expected(prev).push(expected[i]));
            assert forall|k: int, j: int|
                0 <= k < cur.len() && !cur[k].correct && 0 <= j < cur[k].written.len() implies
                cur[k].expected[j] != cur[k].written[j] by {
                if k < l {
                    assert(cur[k] == prev[k]);
                } else if j < prev[l].written.len() {
                    assert(prev[l].written[j] == cur[k].written[j]);
                    assert(prev[l].expected[j] == cur[k].expected[j]);
                }
            }
            assert forall|k: int| 0 <= k < cur.len() - 1 implies #[trigger] cur[k].correct
                != cur[k + 1].correct by {
                assert(prev[k].correct != prev[k + 1].correct);
            }
        } else {
            assert(cur.drop_last() =~= prev);
            assert(flat_written(cur) =~= flat_written(prev).push(written[i]));
            assert(flat_expected(cur) =~= flat_expected(prev).push(expected[i]));
            assert forall|k: int, j: int|
                0 <= k < cur.len() && !cur[k].correct && 0 <= j < cur[k].written.len() implies
                cur[k].expected[j] != cur[k].written[j] by {
                if k < prev.len() {
                    assert(cur[k] == prev[k]);
                }
            }
            assert forall|k: int| 0 <= k < cur.len() - 1 implies #[trigger] cur[k].correct
                != cur[k + 1].correct by {
                if k + 1 < prev.len() {
                    assert(prev[k].correct != prev[k + 1].correct);
                }
            }
        }
    }
}

/// The analysis of a word splits its compared part into maximal stretches of
/// right and of wrong characters, and together with the tail it gives back
/// the whole written word and the whole expected word.
pub proof fn law_analysis_rebuilds_word(expected: Seq<char>, written: Seq<char>)
    ensures
        maximal_stretches(body_parts_spec(expected, written)),
        written == flat_written(body_parts_spec(expected, written)) + match tail_spec(
            expected,
            written,
        ) {
            Some(TailModel::Extra(x)) => x,
            _ => seq![],
        },
        expected == flat_expected(body_parts_spec(expected, written)) + match tail_spec(
            expected,
            written,
        ) {
            Some(TailModel::Missing(m)) => m,
            _ => seq![],
        },
{
    let n = min_nat(expected.len(), written.len());
    lemma_body_structure(expected, written, n);
    if written.len() > expected.len() {
        assert(written =~= written.take(n as int) + written.subrange(n as int, written.len() as int));
        assert(expected =~= expected.take(n as int));
    } else if expected.len() > written.len() {
        assert(expected =~= expected.take(n as int) + expected.subrange(n as int, expected.len() as int));
        assert(written =~= written.take(n as int));
    } else {
        assert(expected =~= expected.take(n as int));
        assert(written =~= written.take(n as int));
    }
}

proof fn lemma_count_matching_all(expected: Seq<char>, written: Seq<char>, n: nat)
    requires
        n <= expected.len(),
        n <= written.len(),
    ensures
        count_matching(expected, written, n) == n <==> forall|j: int|
            0 <= j < n ==> #[trigger] written[j] == expected[j],
    decreases n,
{
    if n > 0 {
        lemma_count_matching_all(expected, written, (n - 1) as nat);
        lemma_count_matching_le(expected, written, (n - 1) as nat);
    }
}

/// Every written character is counted once, as correct, incorrect or extra;
/// every expected character once, as correct, incorrect or missing; and a word
/// never has both extra and missing characters.
pub proof fn law_char_stats_cover_word(expected: Seq<char>, written: Seq<char>)
    ensures
        ({
            let (c, i, x, m) = char_stats_spec(expected, written);
            &&& c + i + x == written.len()
            &&& c + i + m == expected.len()
            &&& x == 0 || m == 0
        }),
{
    lemma_count_matching_le(expected, written, min_nat(expected.len(), written.len()));
}

/// A word is typed correctly exactly when its statistics show no incorrect,
/// extra or missing character.
pub proof fn law_correct_iff_clean_stats(expected: Seq<char>, written: Seq<char>)
    ensures
        (written == expected) <==> ({
            let (c, i, x, m) = char_stats_spec(expected, written);
            i == 0 && x == 0 && m == 0
        }),
{
    let n = min_nat(expected.len(), written.len());
    lemma_count_matching_le(expected, written, n);
    lemma_count_matching_all(expected, written, n);
    let (c, i, x, m) = char_stats_spec(expected, written);
    if i == 0 && x == 0 && m == 0 {
        assert(written =~= expected);
    }
}

/// A keystroke is correct exactly when the typed character is the expected
/// character at the place it is typed, whatever was written before it: two
/// words that expect the same and have as many characters written record the
/// same correctness for the same key.
pub proof fn law_keystroke_compares_its_place(v: WrittenWordView, u: WrittenWordView, c: char)
    ensures
        push_spec(v, c).keystrokes.last().is_correct <==> (v.written.len() < v.expected.len()
            && v.expected[v.written.len() as int] == c),
        push_spec(v, c).keystrokes.len() == v.keystrokes.len() + 1,
        u.expected == v.expected && u.written.len() == v.written.len() ==> push_spec(
            u,
            c,
        ).keystrokes.last().is_correct == push_spec(v, c).keystrokes.last().is_correct,
{
}

/// Removing a character right after typing it gives back the written and
/// expected word; the keystroke stays recorded.
pub proof fn law_pop_undoes_push(v: WrittenWordView, c: char)
    ensures
        pop_spec(push_spec(v, c)).written == v.written,
        pop_spec(push_spec(v, c)).expected == v.expected,
        pop_spec(push_spec(v, c)).keystrokes == v.keystrokes.push(
            Keystroke { is_correct: keystroke_correct(v.expected, v.written, c) },
        ),
{
    assert(v.written.push(c).drop_last() =~= v.written);
}

/// The pending part of the analysis: the characters from `start` to `end`, of
/// the kind `correct`, when there is one.
spec fn pending_part(
    expected: Seq<char>,
    written: Seq<char>,
    correct: Option<bool>,
    start: int,
    end: int,
) -> Seq<PartModel> {
    match correct {
        Some(ok) => seq![
            PartModel {
                correct: ok,
                expected: expected.subrange(start, end),
                written: written.subrange(start, end),
            },
        ],
        None => seq![],
    }
}

/// Builds the body part of the kind `ok` that covers the characters from
/// `start` to `end`.
fn make_part(ok: bool, expected: &str, written: &str, start: usize, end: usize) -> (r: WordBodyPart)
    requires
        start <= end <= expected@.len(),
        end <= written@.len(),
        ok ==> expected@.subrange(start as int, end as int) == written@.subrange(
            start as int,
            end as int,
        ),
    ensures
        r@ == (PartModel {
            correct: ok,
            expected: expected@.subrange(start as int, end as int),
            written: written@.subrange(start as int, end as int),
        }),
{
    let w = written.substring_char(start, end).to_owned();
    if ok {
        WordBodyPart::Correct(w)
    } else {
        let e = expected.substring_char(start, end).to_owned();
        WordBodyPart::Incorrect { expected: e, written: w }
    }
}

impl Clone for WrittenWord {
    fn clone(&self) -> (r: Self)
        ensures
            r@ == self@,
    {
        let keystrokes = self.keystrokes.clone();
        assert(keystrokes@ =~= self.keystrokes@);
        WrittenWord {
            expected: self.expected.clone(),
            written: self.written.clone(),
            keystrokes,
        }
    }
}

impl WrittenWord {
    /// A word that expects `expected` and has nothing written yet.
    pub fn new(expected: String) -> (r: Self)
        ensures
            r@.expected == expected@,
            r@.written == Seq::<char>::empty(),
            r@.keystrokes == Seq::<Keystroke>::empty(),
    {
        WrittenWord { expected, written: String::new(), keystrokes: Vec::new() }
    }

    /// The number of characters written.
    pub fn written_width(&self) -> (r: usize)
        ensures
            r == self@.written.len(),
    {
        self.written.as_str().unicode_len()
    }

    /// The number of characters expected.
    pub fn expected_width(&self) -> (r: usize)
        ensures
            r == self@.expected.len(),
    {
        self.expected.as_str().unicode_len()
    }

    /// The width the word takes on screen: the longer of what is expected and
    /// what is written.
    pub fn max_width(&self) -> (r: usize)
        ensures
            r == max_nat(self@.expected.len(), self@.written.len()),
    {
        let e = self.expected_width();
        let w = self.written_width();
        if e >= w { e } else { w }
    }

    /// Types the character `c`: it is appended to what is written, and a
    /// keystroke is recorded that is correct when `c` is the expected
    /// character at that place.
    pub fn push(&mut self, c: char)
        ensures
            final(self)@ == push_spec(old(self)@, c),
    {
        let ww = self.written_width();
        let correct = if ww >= self.expected_width() {
            false
        } else {
            self.expected.as_str().get_char(ww) == c
        };
        string_push(&mut self.written, c);
        self.keystrokes.push(Keystroke { is_correct: correct });
    }

    /// Whether nothing is written.
    pub fn is_empty(&self) -> (r: bool)
        ensures
            r == (self@.written.len() == 0),
    {
        self.written.as_str().is_empty()
    }

    /// Removes the last written character, if any. The keystrokes stay.
    pub fn pop(&mut self)
        ensures
            final(self)@ == pop_spec(old(self)@),
    {
        let _ = string_pop(&mut self.written);
    }

    /// The expected word.
    pub fn expected(&self) -> (r: &str)
        ensures
            r@ == self@.expected,
    {
        self.expected.as_str()
    }

    /// What is written.
    pub fn written(&self) -> (r: &str)
        ensures
            r@ == self@.written,
    {
        self.written.as_str()
    }

    /// Every keystroke typed for this word, in order.
    pub fn keystrokes(&self) -> (r: &Vec<Keystroke>)
        ensures
            r@ == self@.keystrokes,
    {
        &self.keystrokes
    }

    /// Whether what is written is exactly the expected word.
    pub fn is_correct(&self) -> (r: bool)
        ensures
            r == (self@.written == self@.expected),
    {
        self.written == self.expected
    }

    /// Splits the word into its body parts, the stretches of right and of wrong
    /// characters where written and expected overlap, and its tail.
    pub fn analyze(&self) -> (r: WordAnalysis)
        ensures
            parts_view(r.body_parts@) == body_parts_spec(self@.expected, self@.written),
            tail_view(r.tail) == tail_spec(self@.expected, self@.written),
    {
        let expected = self.expected.as_str();
        let written = self.written.as_str();
        let e_len = expected.unicode_len();
        let w_len = written.unicode_len();
        let n = if e_len <= w_len { e_len } else { w_len };
        let ghost e = expected@;
        let ghost w = written@;

        let mut parts: Vec<WordBodyPart> = Vec::new();
        let mut correct: Option<bool> = None;
        let mut start: usize = 0;
        let mut i: usize = 0;
        while i < n
            invariant
                e == expected@,
                w == written@,
                e_len == e.len(),
                w_len == w.len(),
                n == min_nat(e.len(), w.len()),
                start <= i <= n,
                correct is None <==> i == 0,
                correct is None ==> start == 0,
                correct is Some ==> start < i,
                correct matches Some(ok) ==> (ok ==> e.subrange(start as int, i as int)
                    == w.subrange(start as int, i as int)),
                parts_view(parts@) + pending_part(e, w, correct, start as int, i as int)
                    == body_parts_upto(e, w, i as nat),
            decreases n - i,
        {
            let wch = written.get_char(i);
            let ech = expected.get_char(i);
            let ok = wch == ech;
            let ghost prev = body_parts_upto(e, w, i as nat);
            let same = match correct {
                Some(c) => c == ok,
                None => false,
            };
            if same {
                proof {
                    let pend = pending_part(e, w, correct, start as int, i as int);
                    assert(prev.last() == pend[0]);
                    assert(e.subrange(start as int, i + 1) =~= e.subrange(start as int, i as int).push(e[i as int]));
                    assert(w.subrange(start as int, i + 1) =~= w.subrange(start as int, i as int).push(w[i as int]));
                    assert(parts_view(parts@) + pending_part(e, w, correct, start as int, i + 1)
                        =~= body_parts_upto(e, w, (i + 1) as nat));
                }
            } else {
                match correct {
                    Some(c) => {
                        let ghost before = parts@;
                        let part = make_part(c, expected, written, start, i);
                        parts.push(part);
                        assert(parts_view(parts@) =~= parts_view(before) + pending_part(
                            e,
                            w,
                            correct,
                            start as int,
                            i as int,
                        ));
                    },
                    None => {},
                }
                correct = Some(ok);
                start = i;
                proof {
                    assert(e.subrange(i as int, i + 1) =~= seq![e[i as int]]);
                    assert(w.subrange(i as int, i + 1) =~= seq![w[i as int]]);
                    assert(parts_view(parts@) + pending_part(e, w, correct, start as int, i + 1)
                        =~= body_parts_upto(e, w, (i + 1) as nat));
                }
            }
            i = i + 1;
        }
        match correct {
            Some(c) => {
                let ghost before = parts@;
                let part = make_part(c, expected, written, start, i);
                parts.push(part);
                assert(parts_view(parts@) =~= parts_view(before) + pending_part(
                    e,
                    w,
                    correct,
                    start as int,
                    i as int,
                ));
            },
            None => {},
        }
        assert(parts_view(parts@) =~= body_parts_spec(e, w));
        let tail = if w_len > n {
            Some(WordTail::Extra(written.substring_char(n, w_len).to_owned()))
        } else if e_len > n {
            Some(WordTail::Missing(expected.substring_char(n, e_len).to_owned()))
        } else {
            None
        };
        WordAnalysis { body_parts: parts, tail }
    }

    /// Counts the correct, incorrect, extra and missing characters of the word.
    pub fn char_stats(&self) -> (r: CharStats)
        ensures
            (r.correct as nat, r.incorrect as nat, r.extra as nat, r.missing as nat)
                == char_stats_spec(self@.expected, self@.written),
    {
        let analysis = self.analyze();
        let ew = self.expected_width();
        let ww = self.written_width();
        let compared = if ew <= ww { ew } else { ww };
        let ghost e = self@.expected;
        let ghost w = self@.written;
        let ghost n = min_nat(e.len(), w.len());
        let ghost ps = parts_view(analysis.body_parts@);
        proof {
            lemma_body_sums(e, w, n);
            lemma_count_matching_le(e, w, n);
        }

        let mut correct: usize = 0;
        let mut incorrect: usize = 0;
        let mut k: usize = 0;
        while k < analysis.body_parts.len()
            invariant
                ps == parts_view(analysis.body_parts@),
                ps == body_parts_upto(e, w, n),
                n <= e.len(),
                n <= w.len(),
                sum_correct(ps) + sum_incorrect(ps) == n,
                k <= ps.len(),
                correct == sum_correct(ps.take(k as int)),
                incorrect == sum_incorrect(ps.take(k as int)),
                n == compared,
            decreases analysis.body_parts.len() - k,
        {
            proof {
                lemma_sums_prefix(ps, k + 1);
                assert(ps.take(k + 1).drop_last() =~= ps.take(k as int));
            }
            match &analysis.body_parts[k] {
                WordBodyPart::Correct(c) => {
                    correct = correct + c.as_str().unicode_len();
                },
                WordBodyPart::Incorrect { written, .. } => {
                    incorrect = incorrect + written.as_str().unicode_len();
                },
            }
            k = k + 1;
        }
        proof {
            assert(ps.take(ps.len() as int) =~= ps);
        }
        // Every compared place is counted once, as correct or as incorrect.
        assert(correct + incorrect == compared);
        let extra = match &analysis.tail {
            Some(WordTail::Extra(x)) => x.as_str().unicode_len(),
            _ => 0,
        };
        let missing = match &analysis.tail {
            Some(WordTail::Missing(m)) => m.as_str().unicode_len(),
            _ => 0,
        };
        CharStats { correct, incorrect, extra, missing }
    }
}

} // verus!
