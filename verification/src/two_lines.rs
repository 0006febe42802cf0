//! The two lines that a test shows: on the first, what was typed, coloured by
//! whether it is right, followed by the words still to type; on the second,
//! under each wrong stretch, what was expected. Both lines scroll so that the
//! cursor stays at most in the middle of the screen.

use vstd::prelude::*;
use crate::text::string_push;
use crate::typing_test::{TypingTest, TypingTestView};
use crate::written_word::{
    body_parts_spec, body_parts_upto, flat_written, law_analysis_rebuilds_word, max_nat, maximal_stretches,
    min_nat, parts_view, tail_spec, PartModel, TailModel, WordBodyPart, WordTail,
    WrittenWord, WrittenWordView,
};

verus! {

/// How a piece of a line is shown.
#[derive(Debug, Clone, Copy, PartialEq, Eq)]
pub enum TextStyle {
    /// No style of its own.
    Plain,
    /// Characters typed right.
    Correct,
    /// Characters typed wrong.
    Incorrect,
    /// Expected characters of a typed word that were not typed.
    Missing,
    /// Characters typed beyond the expected word.
    Superfluous,
    /// Characters not typed yet.
    NotWritten,
}

/// A piece of a line: its text and how it is shown.
#[derive(Debug, Clone)]
pub struct StyledText {
    pub text: String,
    pub style: TextStyle,
}

impl View for StyledText {
    type V = (Seq<char>, TextStyle);

    open spec fn view(&self) -> (Seq<char>, TextStyle) {
        (self.text@, self.style)
    }
}

/// A rectangle of the screen.
#[derive(Debug, Clone, Copy, PartialEq, Eq)]
pub struct Rect {
    pub x: u16,
    pub y: u16,
    pub width: u16,
    pub height: u16,
}

/// A place on the screen.
#[derive(Debug, Clone, Copy, PartialEq, Eq)]
pub struct Position {
    pub x: u16,
    pub y: u16,
}

/// The widget that shows a test on two lines.
pub struct TwoLines<'a> {
    pub game: &'a TypingTest,
}

pub open spec fn pieces_view(line: Seq<StyledText>) -> Seq<(Seq<char>, TextStyle)> {
    line.map_values(|t: StyledText| t@)
}

/// The number of characters of the pieces.
pub open spec fn pieces_len(ps: Seq<(Seq<char>, TextStyle)>) -> nat
    decreases ps.len(),
{
    if ps.len() == 0 {
        0
    } else {
        pieces_len(ps.drop_last()) + ps.last().0.len()
    }
}

/// The pieces without their first `skip` characters, and how many characters
/// were left to skip after them: a piece that is skipped whole disappears, a
/// piece that is skipped in part keeps its end and its style.
pub open spec fn skip_state(ps: Seq<(Seq<char>, TextStyle)>, skip: nat) -> (
    Seq<(Seq<char>, TextStyle)>,
    nat,
)
    decreases ps.len(),
{
    if ps.len() == 0 {
        (seq![], skip)
    } else {
        let (r, s) = skip_state(ps.drop_last(), skip);
        let p = ps.last();
        if p.0.len() <= s {
            (r, (s - p.0.len()) as nat)
        } else {
            (r.push((p.0.skip(s as int), p.1)), 0)
        }
    }
}

/// `n` spaces.
pub open spec fn spaces(n: nat) -> Seq<char> {
    Seq::new(n, |i: int| ' ')
}

pub open spec fn space_piece() -> (Seq<char>, TextStyle) {
    (seq![' '], TextStyle::Plain)
}

/// On the first line, a typed part shows what was written, in the colour of
/// its kind.
pub open spec fn part_piece_first(p: PartModel) -> (Seq<char>, TextStyle) {
    if p.correct {
        (p.written, TextStyle::Correct)
    } else {
        (p.written, TextStyle::Incorrect)
    }
}

/// On the second line, a right part leaves blanks, a wrong part shows what
/// was expected.
pub open spec fn part_piece_second(p: PartModel) -> (Seq<char>, TextStyle) {
    if p.correct {
        (spaces(p.written.len()), TextStyle::Plain)
    } else {
        (p.expected, TextStyle::Correct)
    }
}

/// The pieces that a typed word shows on the first line, with the space after it.
pub open spec fn word_pieces_first(w: WrittenWordView) -> Seq<(Seq<char>, TextStyle)> {
    body_parts_spec(w.expected, w.written).map_values(|p: PartModel| part_piece_first(p))
        + match tail_spec(w.expected, w.written) {
        Some(TailModel::Extra(x)) => seq![(x, TextStyle::Superfluous)],
        Some(TailModel::Missing(m)) => seq![(m, TextStyle::Missing)],
        None => seq![],
    } + seq![space_piece()]
}

/// The pieces that a typed word shows on the second line, with the space after it.
pub open spec fn word_pieces_second(w: WrittenWordView) -> Seq<(Seq<char>, TextStyle)> {
    body_parts_spec(w.expected, w.written).map_values(|p: PartModel| part_piece_second(p))
        + match tail_spec(w.expected, w.written) {
        Some(TailModel::Extra(x)) => seq![(spaces(x.len()), TextStyle::Plain)],
        Some(TailModel::Missing(m)) => seq![(spaces(m.len()), TextStyle::Plain)],
        None => seq![],
    } + seq![space_piece()]
}

/// The pieces of the words, one word after the other.
pub open spec fn words_pieces(
    ws: Seq<WrittenWordView>,
    f: spec_fn(WrittenWordView) -> Seq<(Seq<char>, TextStyle)>,
) -> Seq<(Seq<char>, TextStyle)>
    decreases ws.len(),
{
    if ws.len() == 0 {
        seq![]
    } else {
        words_pieces(ws.drop_last(), f) + f(ws.last())
    }
}

/// The width of the typed words, each with the space after it, and of what is
/// written of the current word.
pub open spec fn completed_width_spec(v: TypingTestView) -> nat {
    sum_max_widths(v.completed) + match v.current {
        Some(w) => w.written.len(),
        None => 0,
    }
}

pub open spec fn sum_max_widths(ws: Seq<WrittenWordView>) -> nat
    decreases ws.len(),
{
    if ws.len() == 0 {
        0
    } else {
        sum_max_widths(ws.drop_last()) + max_nat(ws.last().expected.len(), ws.last().written.len())
            + 1
    }
}

/// How many characters the lines scroll: as many as the typed width goes
/// beyond half of the screen.
pub open spec fn width_skip_spec(cw: nat, width: u16) -> nat {
    if cw > width / 2 {
        (cw - width / 2) as nat
    } else {
        0
    }
}

/// All pieces but the last one.
pub open spec fn drop_last_piece(ps: Seq<(Seq<char>, TextStyle)>) -> Seq<(Seq<char>, TextStyle)> {
    if ps.len() > 0 {
        ps.drop_last()
    } else {
        ps
    }
}

/// The pieces of the words still to type, each followed by a space.
pub open spec fn queue_pieces(q: Seq<Seq<char>>) -> Seq<(Seq<char>, TextStyle)>
    decreases q.len(),
{
    if q.len() == 0 {
        seq![]
    } else {
        queue_pieces(q.drop_last()) + seq![(q.last(), TextStyle::NotWritten), space_piece()]
    }
}

/// The pieces of the current word on the first line, with the space after it.
pub open spec fn current_pieces_first(w: WrittenWordView) -> Seq<(Seq<char>, TextStyle)> {
    body_parts_spec(w.expected, w.written).map_values(|p: PartModel| part_piece_first(p))
        + match tail_spec(w.expected, w.written) {
        Some(TailModel::Extra(x)) => seq![(x, TextStyle::Superfluous)],
        Some(TailModel::Missing(m)) => seq![(m, TextStyle::NotWritten)],
        None => seq![],
    } + seq![space_piece()]
}

/// The pieces of the current word on the second line: blanks under the right
/// parts, the expected characters under the wrong ones.
pub open spec fn current_part_piece_second(p: PartModel) -> (Seq<char>, TextStyle) {
    if p.correct {
        (spaces(p.written.len()), TextStyle::Plain)
    } else {
        (p.expected, TextStyle::Plain)
    }
}

/// The first line: the typed words scrolled by `skip` characters, then the
/// current word and the queue, without the last piece.
pub open spec fn first_line_spec(v: TypingTestView, skip: nat) -> Seq<(Seq<char>, TextStyle)> {
    let typed = skip_state(words_pieces(v.completed, |w| word_pieces_first(w)), skip).0;
    drop_last_piece(
        match v.current {
            Some(w) => typed + current_pieces_first(w) + queue_pieces(v.queue),
            None => typed,
        },
    )
}

/// The second line: under the typed words scrolled by `skip` characters, what
/// was expected where it was typed wrong; then under the current word the
/// same, or, when there is no current word, without the last piece.
pub open spec fn second_line_spec(v: TypingTestView, skip: nat) -> Seq<(Seq<char>, TextStyle)> {
    let typed = skip_state(words_pieces(v.completed, |w| word_pieces_second(w)), skip).0;
    match v.current {
        Some(w) => typed + body_parts_spec(w.expected, w.written).map_values(
            |p: PartModel| current_part_piece_second(p),
        ),
        None => drop_last_piece(typed),
    }
}

proof fn lemma_skip_concat(a: Seq<(Seq<char>, TextStyle)>, b: Seq<(Seq<char>, TextStyle)>, s: nat)
    ensures
        skip_state(a + b, s) == (skip_state(a, s).0 + skip_state(b, skip_state(a, s).1).0, skip_state(
            b,
            skip_state(a, s).1,
        ).1),
    decreases b.len(),
{
    if b.len() == 0 {
        assert(a + b =~= a);
        assert(skip_state(a, s).0 + seq![] =~= skip_state(a, s).0);
    } else {
        lemma_skip_concat(a, b.drop_last(), s);
        assert((a + b).drop_last() =~= a + b.drop_last());
        assert((a + b).last() == b.last());
        let ra = skip_state(a, s).0;
        let (rb, sb) = skip_state(b.drop_last(), skip_state(a, s).1);
        let p = b.last();
        assert((ra + rb).push((p.0.skip(sb as int), p.1)) =~= ra + rb.push((p.0.skip(sb as int), p.1)));
    }
}

proof fn lemma_skip_all(ps: Seq<(Seq<char>, TextStyle)>, s: nat)
    requires
        pieces_len(ps) <= s,
    ensures
        skip_state(ps, s) == (Seq::<(Seq<char>, TextStyle)>::empty(), (s - pieces_len(ps)) as nat),
    decreases ps.len(),
{
    if ps.len() > 0 {
        lemma_skip_all(ps.drop_last(), s);
    }
}

proof fn lemma_single(x: (Seq<char>, TextStyle), s: nat)
    ensures
        pieces_len(seq![x]) == x.0.len(),
        skip_state(seq![x], s) == (if x.0.len() <= s {
            (Seq::<(Seq<char>, TextStyle)>::empty(), (s - x.0.len()) as nat)
        } else {
            (seq![(x.0.skip(s as int), x.1)], 0nat)
        }),
{
    let e = Seq::<(Seq<char>, TextStyle)>::empty();
    assert(seq![x].drop_last() =~= e);
    assert(pieces_len(e) == 0);
    assert(skip_state(e, s) == (e, s));
    assert(e.push((x.0.skip(s as int), x.1)) =~= seq![(x.0.skip(s as int), x.1)]);
}

proof fn lemma_pieces_len_concat(a: Seq<(Seq<char>, TextStyle)>, b: Seq<(Seq<char>, TextStyle)>)
    ensures
        pieces_len(a + b) == pieces_len(a) + pieces_len(b),
    decreases b.len(),
{
    if b.len() == 0 {
        assert(a + b =~= a);
    } else {
        lemma_pieces_len_concat(a, b.drop_last());
        assert((a + b).drop_last() =~= a + b.drop_last());
    }
}

proof fn lemma_parts_len(parts: Seq<PartModel>, second: bool)
    requires
        maximal_stretches(parts),
    ensures
        second ==> pieces_len(parts.map_values(|p: PartModel| part_piece_second(p))) == flat_written(
            parts,
        ).len(),
        !second ==> pieces_len(parts.map_values(|p: PartModel| part_piece_first(p))) == flat_written(
            parts,
        ).len(),
    decreases parts.len(),
{
    if parts.len() > 0 {
        let d = parts.drop_last();
        assert(maximal_stretches(d)) by {
            assert forall|k: int| 0 <= k < d.len() implies #[trigger] d[k] == parts[k] by {}
            assert forall|k: int| 0 <= k < d.len() - 1 implies #[trigger] d[k].correct != d[k + 1].correct by {
                assert(parts[k].correct != parts[k + 1].correct);
            }
            assert forall|k: int, j: int|
                0 <= k < d.len() && !d[k].correct && 0 <= j < d[k].written.len() implies d[k].expected[j]
                != #[trigger] d[k].written[j] by {
                assert(d[k] == parts[k]);
                assert(parts[k].expected[j] != parts[k].written[j]);
            }
        }
        lemma_parts_len(d, second);
        assert(parts.map_values(|p: PartModel| part_piece_second(p)).drop_last() =~= d.map_values(
            |p: PartModel| part_piece_second(p),
        ));
        assert(parts.map_values(|p: PartModel| part_piece_first(p)).drop_last() =~= d.map_values(
            |p: PartModel| part_piece_first(p),
        ));
        assert(parts[parts.len() - 1] == parts.last());
    }
}

/// The pieces of a typed word are as wide as the word on screen, with the
/// space after it.
proof fn lemma_word_pieces_len(w: WrittenWordView)
    ensures
        pieces_len(word_pieces_first(w)) == max_nat(w.expected.len(), w.written.len()) + 1,
        pieces_len(word_pieces_second(w)) == max_nat(w.expected.len(), w.written.len()) + 1,
{
    let parts = body_parts_spec(w.expected, w.written);
    law_analysis_rebuilds_word(w.expected, w.written);
    lemma_parts_len(parts, true);
    lemma_parts_len(parts, false);
    let n = min_nat(w.expected.len(), w.written.len());
    let a1 = parts.map_values(|p: PartModel| part_piece_first(p));
    let a2 = parts.map_values(|p: PartModel| part_piece_second(p));
    let t1: Seq<(Seq<char>, TextStyle)> = match tail_spec(w.expected, w.written) {
        Some(TailModel::Extra(x)) => seq![(x, TextStyle::Superfluous)],
        Some(TailModel::Missing(m)) => seq![(m, TextStyle::Missing)],
        None => seq![],
    };
    let t2: Seq<(Seq<char>, TextStyle)> = match tail_spec(w.expected, w.written) {
        Some(TailModel::Extra(x)) => seq![(spaces(x.len()), TextStyle::Plain)],
        Some(TailModel::Missing(m)) => seq![(spaces(m.len()), TextStyle::Plain)],
        None => seq![],
    };
    lemma_pieces_len_concat(a1, t1);
    lemma_pieces_len_concat(a1 + t1, seq![space_piece()]);
    lemma_pieces_len_concat(a2, t2);
    lemma_pieces_len_concat(a2 + t2, seq![space_piece()]);
    lemma_single(space_piece(), 0);
    assert(word_pieces_first(w) == a1 + t1 + seq![space_piece()]);
    assert(word_pieces_second(w) == a2 + t2 + seq![space_piece()]);
    assert(flat_written(parts).len() == n);
    match tail_spec(w.expected, w.written) {
        Some(TailModel::Extra(x)) => {
            lemma_single((x, TextStyle::Superfluous), 0);
            lemma_single((spaces(x.len()), TextStyle::Plain), 0);
            assert(x.len() == w.written.len() - w.expected.len());
        },
        Some(TailModel::Missing(m)) => {
            lemma_single((m, TextStyle::Missing), 0);
            lemma_single((spaces(m.len()), TextStyle::Plain), 0);
            assert(m.len() == w.expected.len() - w.written.len());
        },
        None => {
            assert(pieces_len(t1) == 0);
            assert(pieces_len(t2) == 0);
        },
    }
}

/// `span_skip`: the piece `s` in the style `style`, without the characters
/// still to skip; `skip` goes down by the characters skipped.
fn span_skip(s: &str, style: TextStyle, skip: &mut usize) -> (r: Option<StyledText>)
    ensures
        ({
            let st = skip_state(seq![(s@, style)], *old(skip) as nat);
            &&& *final(skip) as nat == st.1
            &&& match r {
                Some(t) => st.0 == seq![t@],
                None => st.0.len() == 0,
            }
        }),
{
    let len = s.unicode_len();
    proof {
        lemma_single((s@, style), *skip as nat);
    }
    if len <= *skip {
        *skip = *skip - len;
        None
    } else {
        let remaining = s.substring_char(*skip, len).to_owned();
        assert(remaining@ =~= s@.skip(*old(skip) as int));
        *skip = 0;
        Some(StyledText { text: remaining, style })
    }
}

/// `n` spaces.
fn spaces_string(n: usize) -> (r: String)
    ensures
        r@ == spaces(n as nat),
{
    let mut r = String::new();
    let mut i: usize = 0;
    while i < n
        invariant
            i <= n,
            r@ == spaces(i as nat),
        decreases n - i,
    {
        string_push(&mut r, ' ');
        i = i + 1;
        assert(r@ =~= spaces(i as nat));
    }
    r
}

/// `whitespace_skip`: as many spaces as `s` has characters, without the
/// characters still to skip.
fn whitespace_skip(s: &str, skip: &mut usize) -> (r: Option<StyledText>)
    ensures
        ({
            let st = skip_state(seq![(spaces(s@.len()), TextStyle::Plain)], *old(skip) as nat);
            &&& *final(skip) as nat == st.1
            &&& match r {
                Some(t) => st.0 == seq![t@],
                None => st.0.len() == 0,
            }
        }),
{
    let len = s.unicode_len();
    proof {
        lemma_single((spaces(s@.len()), TextStyle::Plain), *skip as nat);
    }
    if len <= *skip {
        *skip = *skip - len;
        None
    } else {
        let remaining = spaces_string(len - *skip);
        assert(remaining@ =~= spaces(len as nat).skip(*old(skip) as int));
        *skip = 0;
        Some(StyledText { text: remaining, style: TextStyle::Plain })
    }
}

proof fn lemma_step(done: Seq<(Seq<char>, TextStyle)>, x: (Seq<char>, TextStyle), s0: nat)
    ensures
        skip_state(done.push(x), s0) == ({
            let (r, s) = skip_state(done, s0);
            if x.0.len() <= s {
                (r, (s - x.0.len()) as nat)
            } else {
                (r.push((x.0.skip(s as int), x.1)), 0nat)
            }
        }),
{
    assert(done.push(x).drop_last() =~= done);
}

proof fn lemma_words_pieces_step(
    ws: Seq<WrittenWordView>,
    f: spec_fn(WrittenWordView) -> Seq<(Seq<char>, TextStyle)>,
    k: int,
)
    requires
        0 <= k < ws.len(),
    ensures
        words_pieces(ws.take(k + 1), f) == words_pieces(ws.take(k), f) + f(ws[k]),
{
    assert(ws.take(k + 1).drop_last() =~= ws.take(k));
}

proof fn lemma_sum_max_widths_prefix(ws: Seq<WrittenWordView>, k: int)
    requires
        0 <= k <= ws.len(),
    ensures
        sum_max_widths(ws.take(k)) <= sum_max_widths(ws),
    decreases ws.len(),
{
    if k < ws.len() {
        lemma_sum_max_widths_prefix(ws.drop_last(), k);
        assert(ws.drop_last().take(k) =~= ws.take(k));
    } else {
        assert(ws.take(k) =~= ws);
    }
}

/// Adds to the line what the typed word `w` shows on the first line, scrolled
/// by what is left of `skip`.
fn push_word_first(w: &WrittenWord, line: &mut Vec<StyledText>, skip: &mut usize)
    ensures
        pieces_view(final(line)@) == pieces_view(old(line)@) + skip_state(
            word_pieces_first(w@),
            *old(skip) as nat,
        ).0,
        *final(skip) as nat == skip_state(word_pieces_first(w@), *old(skip) as nat).1,
{
    let ghost line0 = pieces_view(line@);
    let ghost skip0 = *skip as nat;
    let ghost all = word_pieces_first(w@);
    let mw = w.max_width();
    if mw < *skip {
        proof {
            lemma_word_pieces_len(w@);
            lemma_skip_all(all, skip0);
            assert(line0 + Seq::<(Seq<char>, TextStyle)>::empty() =~= line0);
        }
        *skip = *skip - (mw + 1);
        return;
    }
    let wa = w.analyze();
    let ghost parts = parts_view(wa.body_parts@);
    let ghost a = parts.map_values(|p: PartModel| part_piece_first(p));
    assert(skip_state(a.take(0), skip0) == (Seq::<(Seq<char>, TextStyle)>::empty(), skip0)) by {
        assert(a.take(0) =~= Seq::<(Seq<char>, TextStyle)>::empty());
    }
    assert(line0 + Seq::<(Seq<char>, TextStyle)>::empty() =~= line0);
    let mut j: usize = 0;
    while j < wa.body_parts.len()
        invariant
            parts == parts_view(wa.body_parts@),
            a == parts.map_values(|p: PartModel| part_piece_first(p)),
            j <= parts.len(),
            pieces_view(line@) == line0 + skip_state(a.take(j as int), skip0).0,
            *skip as nat == skip_state(a.take(j as int), skip0).1,
        decreases parts.len() - j,
    {
        let ghost before = line@;
        let ghost s_before = *skip as nat;
        assert(parts[j as int] == wa.body_parts@[j as int]@);
        assert(a[j as int] == part_piece_first(parts[j as int]));
        let r = match &wa.body_parts[j] {
            WordBodyPart::Correct(c) => {
                assert(a[j as int] == (c@, TextStyle::Correct));
                span_skip(c.as_str(), TextStyle::Correct, skip)
            },
            WordBodyPart::Incorrect { written, .. } => {
                assert(a[j as int] == (written@, TextStyle::Incorrect));
                span_skip(written.as_str(), TextStyle::Incorrect, skip)
            },
        };
        let ghost st = skip_state(seq![a[j as int]], s_before);
        assert(*skip as nat == st.1);
        assert(match r {
            Some(t) => st.0 == seq![t@],
            None => st.0.len() == 0,
        });
        proof {
            lemma_single(a[j as int], s_before);
            lemma_step(a.take(j as int), a[j as int], skip0);
            assert(a.take(j + 1) =~= a.take(j as int).push(a[j as int]));
        }
        let ghost rr = skip_state(a.take(j as int), skip0).0;
        match r {
            Some(t) => {
                line.push(t);
                assert(t@ == st.0[0]);
                assert(pieces_view(line@) =~= pieces_view(before).push(t@));
                assert((line0 + rr).push(t@) =~= line0 + rr.push(t@));
            },
            None => {},
        }
        j = j + 1;
    }
    assert(a.take(parts.len() as int) =~= a);
    let ghost done = a;
    let ghost before = line@;
    let ghost s_before = *skip as nat;
    let r = match &wa.tail {
        Some(WordTail::Extra(e)) => span_skip(e.as_str(), TextStyle::Superfluous, skip),
        Some(WordTail::Missing(m)) => span_skip(m.as_str(), TextStyle::Missing, skip),
        None => None,
    };
    assert(parts == body_parts_spec(w@.expected, w@.written));
    let ghost t: Seq<(Seq<char>, TextStyle)> = match tail_spec(w@.expected, w@.written) {
        Some(TailModel::Extra(x)) => seq![(x, TextStyle::Superfluous)],
        Some(TailModel::Missing(m)) => seq![(m, TextStyle::Missing)],
        None => seq![],
    };
    proof {
        if t.len() > 0 {
            lemma_single(t[0], s_before);
            lemma_step(a, t[0], skip0);
            assert(a + t =~= a.push(t[0]));
            let st = skip_state(seq![t[0]], s_before);
            assert(*skip as nat == st.1);
            assert(match r {
                Some(x) => st.0 == seq![x@],
                None => st.0.len() == 0,
            });
        } else {
            assert(a + t =~= a);
            assert(r is None);
            assert(*skip as nat == s_before);
        }
    }
    let ghost ra = skip_state(a, skip0).0;
    match r {
        Some(x) => {
            line.push(x);
            assert(t.len() > 0);
            assert(x@ == skip_state(seq![t[0]], s_before).0[0]);
            assert(pieces_view(line@) =~= pieces_view(before).push(x@));
            assert((line0 + ra).push(x@) =~= line0 + ra.push(x@));
            assert(pieces_view(line@) == line0 + skip_state(a + t, skip0).0);
        },
        None => {
            assert(pieces_view(line@) == line0 + skip_state(a + t, skip0).0);
        },
    }
    let ghost before2 = line@;
    let ghost s2 = *skip as nat;
    let sp = whitespace_skip(" ", skip);
    proof {
        reveal_strlit(" ");
        assert(spaces(1) =~= seq![' ']);
        lemma_single(space_piece(), s2);
        lemma_step(a + t, space_piece(), skip0);
        assert(a =~= body_parts_spec(w@.expected, w@.written).map_values(
            |p: PartModel| part_piece_first(p),
        ));
        assert(all =~= (a + t).push(space_piece()));
        assert(pieces_view(before2) == line0 + skip_state(a + t, skip0).0);
        assert(s2 == skip_state(a + t, skip0).1);
    }
    let ghost rat = skip_state(a + t, skip0).0;
    match sp {
        Some(x) => {
            line.push(x);
            assert(spaces(" "@.len()) == seq![' ']);
            assert(x@ == skip_state(seq![space_piece()], s2).0[0]);
            assert(pieces_view(line@) =~= pieces_view(before2).push(x@));
            assert((line0 + rat).push(x@) =~= line0 + rat.push(x@));
        },
        None => {},
    }
}

/// Adds to the line what the typed word `w` shows on the second line, scrolled
/// by what is left of `skip`.
fn push_word_second(w: &WrittenWord, line: &mut Vec<StyledText>, skip: &mut usize)
    ensures
        pieces_view(final(line)@) == pieces_view(old(line)@) + skip_state(
            word_pieces_second(w@),
            *old(skip) as nat,
        ).0,
        *final(skip) as nat == skip_state(word_pieces_second(w@), *old(skip) as nat).1,
{
    let ghost line0 = pieces_view(line@);
    let ghost skip0 = *skip as nat;
    let ghost all = word_pieces_second(w@);
    let mw = w.max_width();
    if mw < *skip {
        proof {
            lemma_word_pieces_len(w@);
            lemma_skip_all(all, skip0);
            assert(line0 + Seq::<(Seq<char>, TextStyle)>::empty() =~= line0);
        }
        *skip = *skip - (mw + 1);
        return;
    }
    let wa = w.analyze();
    let ghost parts = parts_view(wa.body_parts@);
    let ghost a = parts.map_values(|p: PartModel| part_piece_second(p));
    assert(skip_state(a.take(0), skip0) == (Seq::<(Seq<char>, TextStyle)>::empty(), skip0)) by {
        assert(a.take(0) =~= Seq::<(Seq<char>, TextStyle)>::empty());
    }
    assert(line0 + Seq::<(Seq<char>, TextStyle)>::empty() =~= line0);
    let mut j: usize = 0;
    while j < wa.body_parts.len()
        invariant
            parts == parts_view(wa.body_parts@),
            a == parts.map_values(|p: PartModel| part_piece_second(p)),
            j <= parts.len(),
            pieces_view(line@) == line0 + skip_state(a.take(j as int), skip0).0,
            *skip as nat == skip_state(a.take(j as int), skip0).1,
        decreases parts.len() - j,
    {
        let ghost before = line@;
        let ghost s_before = *skip as nat;
        assert(parts[j as int] == wa.body_parts@[j as int]@);
        assert(a[j as int] == part_piece_second(parts[j as int]));
        let r = match &wa.body_parts[j] {
            WordBodyPart::Correct(c) => {
                assert(a[j as int] == (spaces(c@.len()), TextStyle::Plain));
                whitespace_skip(c.as_str(), skip)
            },
            WordBodyPart::Incorrect { expected, .. } => {
                assert(a[j as int] == (expected@, TextStyle::Correct));
                span_skip(expected.as_str(), TextStyle::Correct, skip)
            },
        };
        let ghost st = skip_state(seq![a[j as int]], s_before);
        assert(*skip as nat == st.1);
        assert(match r {
            Some(t) => st.0 == seq![t@],
            None => st.0.len() == 0,
        });
        proof {
            lemma_single(a[j as int], s_before);
            lemma_step(a.take(j as int), a[j as int], skip0);
            assert(a.take(j + 1) =~= a.take(j as int).push(a[j as int]));
        }
        let ghost rr = skip_state(a.take(j as int), skip0).0;
        match r {
            Some(t) => {
                line.push(t);
                assert(t@ == st.0[0]);
                assert(pieces_view(line@) =~= pieces_view(before).push(t@));
                assert((line0 + rr).push(t@) =~= line0 + rr.push(t@));
            },
            None => {},
        }
        j = j + 1;
    }
    assert(a.take(parts.len() as int) =~= a);
    let ghost before = line@;
    let ghost s_before = *skip as nat;
    let r = match &wa.tail {
        Some(WordTail::Extra(e)) => whitespace_skip(e.as_str(), skip),
        Some(WordTail::Missing(m)) => whitespace_skip(m.as_str(), skip),
        None => None,
    };
    assert(parts == body_parts_spec(w@.expected, w@.written));
    let ghost t: Seq<(Seq<char>, TextStyle)> = match tail_spec(w@.expected, w@.written) {
        Some(TailModel::Extra(x)) => seq![(spaces(x.len()), TextStyle::Plain)],
        Some(TailModel::Missing(m)) => seq![(spaces(m.len()), TextStyle::Plain)],
        None => seq![],
    };
    proof {
        if t.len() > 0 {
            lemma_single(t[0], s_before);
            lemma_step(a, t[0], skip0);
            assert(a + t =~= a.push(t[0]));
            let st = skip_state(seq![t[0]], s_before);
            assert(*skip as nat == st.1);
            assert(match r {
                Some(x) => st.0 == seq![x@],
                None => st.0.len() == 0,
            });
        } else {
            assert(a + t =~= a);
            assert(r is None);
            assert(*skip as nat == s_before);
        }
    }
    let ghost ra = skip_state(a, skip0).0;
    match r {
        Some(x) => {
            line.push(x);
            assert(t.len() > 0);
            assert(x@ == skip_state(seq![t[0]], s_before).0[0]);
            assert(pieces_view(line@) =~= pieces_view(before).push(x@));
            assert((line0 + ra).push(x@) =~= line0 + ra.push(x@));
            assert(pieces_view(line@) == line0 + skip_state(a + t, skip0).0);
        },
        None => {
            assert(pieces_view(line@) == line0 + skip_state(a + t, skip0).0);
        },
    }
    let ghost before2 = line@;
    let ghost s2 = *skip as nat;
    let sp = whitespace_skip(" ", skip);
    proof {
        reveal_strlit(" ");
        assert(spaces(1) =~= seq![' ']);
        lemma_single(space_piece(), s2);
        lemma_step(a + t, space_piece(), skip0);
        assert(a =~= body_parts_spec(w@.expected, w@.written).map_values(
            |p: PartModel| part_piece_second(p),
        ));
        assert(all =~= (a + t).push(space_piece()));
        assert(pieces_view(before2) == line0 + skip_state(a + t, skip0).0);
        assert(s2 == skip_state(a + t, skip0).1);
    }
    let ghost rat = skip_state(a + t, skip0).0;
    match sp {
        Some(x) => {
            line.push(x);
            assert(spaces(" "@.len()) == seq![' ']);
            assert(x@ == skip_state(seq![space_piece()], s2).0[0]);
            assert(pieces_view(line@) =~= pieces_view(before2).push(x@));
            assert((line0 + rat).push(x@) =~= line0 + rat.push(x@));
        },
        None => {},
    }
}

/// The characters of the pieces, one after the other.
pub open spec fn line_text(ps: Seq<(Seq<char>, TextStyle)>) -> Seq<char>
    decreases ps.len(),
{
    if ps.len() == 0 {
        seq![]
    } else {
        line_text(ps.drop_last()) + ps.last().0
    }
}

proof fn lemma_line_text_len(ps: Seq<(Seq<char>, TextStyle)>)
    ensures
        line_text(ps).len() == pieces_len(ps),
    decreases ps.len(),
{
    if ps.len() > 0 {
        lemma_line_text_len(ps.drop_last());
    }
}

/// Scrolling a line by `skip` characters drops exactly its first `skip`
/// characters; when the line is shorter, it drops the whole line and the rest
/// of `skip` is left for what follows.
pub proof fn law_scrolling_drops_characters(ps: Seq<(Seq<char>, TextStyle)>, skip: nat)
    ensures
        skip <= pieces_len(ps) ==> line_text(skip_state(ps, skip).0) == line_text(ps).skip(
            skip as int,
        ) && skip_state(ps, skip).1 == 0,
        skip > pieces_len(ps) ==> skip_state(ps, skip).0.len() == 0 && skip_state(ps, skip).1
            == skip - pieces_len(ps),
    decreases ps.len(),
{
    lemma_line_text_len(ps);
    if ps.len() == 0 {
        if skip == 0 {
            assert(line_text(ps).skip(skip as int) =~= seq![]);
        }
    } else {
        let d = ps.drop_last();
        let x = ps.last();
        law_scrolling_drops_characters(d, skip);
        lemma_line_text_len(d);
        let (r, s1) = skip_state(d, skip);
        if skip <= pieces_len(d) {
            if x.0.len() == 0 {
                assert(line_text(ps).skip(skip as int) =~= line_text(d).skip(skip as int));
            } else {
                assert(x.0.skip(0) =~= x.0);
                assert(line_text(r.push((x.0.skip(0), x.1))) == line_text(r) + x.0) by {
                    assert(r.push((x.0.skip(0), x.1)).drop_last() =~= r);
                }
                assert(line_text(ps).skip(skip as int) =~= line_text(d).skip(skip as int) + x.0);
            }
        } else {
            lemma_skip_all(d, skip);
            assert(r.len() == 0);
            if x.0.len() <= s1 {
                if skip <= pieces_len(ps) {
                    assert(line_text(ps).skip(skip as int) =~= seq![]);
                    assert(r =~= Seq::<(Seq<char>, TextStyle)>::empty());
                }
            } else {
                assert(r.push((x.0.skip(s1 as int), x.1)).drop_last() =~= r);
                assert(r =~= Seq::<(Seq<char>, TextStyle)>::empty());
                assert(line_text(r) =~= seq![]);
                assert(line_text(r.push((x.0.skip(s1 as int), x.1))) =~= x.0.skip(s1 as int));
                assert(line_text(ps).skip(skip as int) =~= x.0.skip(s1 as int));
            }
        }
    }
}

/// The typed words take as many characters on the second line as on the
/// first, each word as wide as it is on screen with the space after it: the
/// expected characters stay under the typed ones.
pub proof fn law_lines_aligned(ws: Seq<WrittenWordView>)
    ensures
        pieces_len(words_pieces(ws, |w| word_pieces_first(w))) == sum_max_widths(ws),
        pieces_len(words_pieces(ws, |w| word_pieces_second(w))) == sum_max_widths(ws),
    decreases ws.len(),
{
    if ws.len() > 0 {
        law_lines_aligned(ws.drop_last());
        lemma_word_pieces_len(ws.last());
        lemma_pieces_len_concat(
            words_pieces(ws.drop_last(), |w| word_pieces_first(w)),
            word_pieces_first(ws.last()),
        );
        lemma_pieces_len_concat(
            words_pieces(ws.drop_last(), |w| word_pieces_second(w)),
            word_pieces_second(ws.last()),
        );
    }
}

/// What a word shows on the first line: what was written, then the expected
/// characters that were not written.
pub open spec fn word_display(w: WrittenWordView) -> Seq<char> {
    if w.expected.len() > w.written.len() {
        w.written + w.expected.subrange(w.written.len() as int, w.expected.len() as int)
    } else {
        w.written
    }
}

/// The typed words as the first line shows them, each followed by a space.
pub open spec fn typed_display(ws: Seq<WrittenWordView>) -> Seq<char>
    decreases ws.len(),
{
    if ws.len() == 0 {
        seq![]
    } else {
        typed_display(ws.drop_last()) + word_display(ws.last()) + seq![' ']
    }
}

/// The words still to type, each preceded by a space.
pub open spec fn queue_display(q: Seq<Seq<char>>) -> Seq<char>
    decreases q.len(),
{
    if q.len() == 0 {
        seq![]
    } else {
        queue_display(q.drop_last()) + seq![' '] + q.last()
    }
}

/// The whole text of the first line before scrolling: the typed words, the
/// current word and the queue, separated by spaces.
pub open spec fn first_line_display(v: TypingTestView) -> Seq<char> {
    typed_display(v.completed) + match v.current {
        Some(c) => word_display(c) + queue_display(v.queue),
        None => seq![],
    }
}

/// Under each compared place of a word: the expected character where a wrong
/// one was written, a blank elsewhere; the first `n` places.
pub open spec fn correction_prefix(expected: Seq<char>, written: Seq<char>, n: nat) -> Seq<char> {
    Seq::new(n, |i: int| if written[i] != expected[i] { expected[i] } else { ' ' })
}

/// What the second line shows under a word, as wide as the word on screen:
/// the expected character in the column of each wrong character, blanks
/// elsewhere.
pub open spec fn correction(w: WrittenWordView) -> Seq<char> {
    let n = min_nat(w.expected.len(), w.written.len());
    Seq::new(
        max_nat(w.expected.len(), w.written.len()),
        |i: int| if i < n && w.written[i] != w.expected[i] { w.expected[i] } else { ' ' },
    )
}

/// What the second line shows under the typed words, each followed by a space.
pub open spec fn typed_correction(ws: Seq<WrittenWordView>) -> Seq<char>
    decreases ws.len(),
{
    if ws.len() == 0 {
        seq![]
    } else {
        typed_correction(ws.drop_last()) + correction(ws.last()) + seq![' ']
    }
}

/// The whole text of the second line before scrolling: under the typed words
/// and under the compared part of the current word.
pub open spec fn second_line_display(v: TypingTestView) -> Seq<char> {
    typed_correction(v.completed) + match v.current {
        Some(c) => correction(c).take(min_nat(c.expected.len(), c.written.len()) as int),
        None => seq![],
    }
}

proof fn lemma_line_text_concat(a: Seq<(Seq<char>, TextStyle)>, b: Seq<(Seq<char>, TextStyle)>)
    ensures
        line_text(a + b) == line_text(a) + line_text(b),
    decreases b.len(),
{
    if b.len() == 0 {
        assert(a + b =~= a);
        assert(line_text(a) + seq![] =~= line_text(a));
    } else {
        lemma_line_text_concat(a, b.drop_last());
        assert((a + b).drop_last() =~= a + b.drop_last());
        assert(line_text(a) + line_text(b.drop_last()) + b.last().0 =~= line_text(a) + (line_text(
            b.drop_last(),
        ) + b.last().0));
    }
}

proof fn lemma_line_text_single(x: (Seq<char>, TextStyle))
    ensures
        line_text(seq![x]) == x.0,
{
    let e = Seq::<(Seq<char>, TextStyle)>::empty();
    assert(seq![x].drop_last() =~= e);
    assert(line_text(e) == Seq::<char>::empty());
    assert(Seq::<char>::empty() + x.0 =~= x.0);
}

/// The text of the first-line pieces of the parts is their written text.
proof fn lemma_text_parts_first(parts: Seq<PartModel>)
    ensures
        line_text(parts.map_values(|p: PartModel| part_piece_first(p))) == flat_written(parts),
    decreases parts.len(),
{
    if parts.len() > 0 {
        lemma_text_parts_first(parts.drop_last());
        assert(parts.map_values(|p: PartModel| part_piece_first(p)).drop_last()
            =~= parts.drop_last().map_values(|p: PartModel| part_piece_first(p)));
    }
}

/// The text of the second-line pieces of the parts, of a typed word or of the
/// current word, is the correction of the compared places.
proof fn lemma_text_parts_second(expected: Seq<char>, written: Seq<char>, n: nat)
    requires
        n <= expected.len(),
        n <= written.len(),
    ensures
        line_text(body_parts_upto(expected, written, n).map_values(|p: PartModel| part_piece_second(p)))
            == correction_prefix(expected, written, n),
        line_text(body_parts_upto(expected, written, n).map_values(
            |p: PartModel| current_part_piece_second(p),
        )) == correction_prefix(expected, written, n),
    decreases n,
{
    let f2 = |p: PartModel| part_piece_second(p);
    let f3 = |p: PartModel| current_part_piece_second(p);
    if n == 0 {
        assert(correction_prefix(expected, written, 0) =~= seq![]);
        assert(body_parts_upto(expected, written, 0).map_values(f2) =~= Seq::<(Seq<char>, TextStyle)>::empty());
        assert(body_parts_upto(expected, written, 0).map_values(f3) =~= Seq::<(Seq<char>, TextStyle)>::empty());
    } else {
        lemma_text_parts_second(expected, written, (n - 1) as nat);
        let prev = body_parts_upto(expected, written, (n - 1) as nat);
        let cur = body_parts_upto(expected, written, n);
        let i = n - 1;
        let ok = written[i] == expected[i];
        let ci: char = if written[i] != expected[i] { expected[i] } else { ' ' };
        assert(correction_prefix(expected, written, n) =~= correction_prefix(
            expected,
            written,
            (n - 1) as nat,
        ).push(ci));
        if prev.len() > 0 && prev.last().correct == ok {
            let l = prev.len() - 1;
            assert(cur.map_values(f2).drop_last() =~= prev.map_values(f2).drop_last());
            assert(cur.map_values(f3).drop_last() =~= prev.map_values(f3).drop_last());
            assert(cur.map_values(f2).last() == f2(cur[l]));
            assert(cur.map_values(f3).last() == f3(cur[l]));
            assert(prev.map_values(f2).last() == f2(prev[l]));
            assert(prev.map_values(f3).last() == f3(prev[l]));
            if ok {
                assert(spaces(cur[l].written.len()) =~= spaces(prev[l].written.len()).push(' '));
            } else {
                assert(cur[l].expected =~= prev[l].expected.push(expected[i]));
            }
            assert(line_text(cur.map_values(f2)) =~= line_text(prev.map_values(f2)).push(ci));
            assert(line_text(cur.map_values(f3)) =~= line_text(prev.map_values(f3)).push(ci));
        } else {
            assert(cur.map_values(f2).drop_last() =~= prev.map_values(f2));
            assert(cur.map_values(f3).drop_last() =~= prev.map_values(f3));
            let l = cur.len() - 1;
            assert(cur.map_values(f2).last() == f2(cur[l]));
            assert(cur.map_values(f3).last() == f3(cur[l]));
            assert(spaces(1) =~= seq![' ']);
            assert(line_text(cur.map_values(f2)) =~= line_text(prev.map_values(f2)).push(ci));
            assert(line_text(cur.map_values(f3)) =~= line_text(prev.map_values(f3)).push(ci));
        }
    }
}

/// The pieces of the body and tail of a word, on either line, and their text.
proof fn lemma_word_texts(w: WrittenWordView)
    ensures
        line_text(word_pieces_first(w)) == word_display(w) + seq![' '],
        line_text(current_pieces_first(w)) == word_display(w) + seq![' '],
        line_text(word_pieces_second(w)) == correction(w) + seq![' '],
        line_text(body_parts_spec(w.expected, w.written).map_values(
            |p: PartModel| current_part_piece_second(p),
        )) == correction(w).take(min_nat(w.expected.len(), w.written.len()) as int),
{
    let e = w.expected;
    let x = w.written;
    let n = min_nat(e.len(), x.len());
    let parts = body_parts_spec(e, x);
    law_analysis_rebuilds_word(e, x);
    lemma_text_parts_first(parts);
    lemma_text_parts_second(e, x, n);
    let a1 = parts.map_values(|p: PartModel| part_piece_first(p));
    let a2 = parts.map_values(|p: PartModel| part_piece_second(p));
    let t1: Seq<(Seq<char>, TextStyle)> = match tail_spec(e, x) {
        Some(TailModel::Extra(y)) => seq![(y, TextStyle::Superfluous)],
        Some(TailModel::Missing(m)) => seq![(m, TextStyle::Missing)],
        None => seq![],
    };
    let t1c: Seq<(Seq<char>, TextStyle)> = match tail_spec(e, x) {
        Some(TailModel::Extra(y)) => seq![(y, TextStyle::Superfluous)],
        Some(TailModel::Missing(m)) => seq![(m, TextStyle::NotWritten)],
        None => seq![],
    };
    let t2: Seq<(Seq<char>, TextStyle)> = match tail_spec(e, x) {
        Some(TailModel::Extra(y)) => seq![(spaces(y.len()), TextStyle::Plain)],
        Some(TailModel::Missing(m)) => seq![(spaces(m.len()), TextStyle::Plain)],
        None => seq![],
    };
    assert(word_pieces_first(w) == a1 + t1 + seq![space_piece()]);
    assert(current_pieces_first(w) == a1 + t1c + seq![space_piece()]);
    assert(word_pieces_second(w) == a2 + t2 + seq![space_piece()]);
    lemma_line_text_concat(a1, t1);
    lemma_line_text_concat(a1 + t1, seq![space_piece()]);
    lemma_line_text_concat(a1, t1c);
    lemma_line_text_concat(a1 + t1c, seq![space_piece()]);
    lemma_line_text_concat(a2, t2);
    lemma_line_text_concat(a2 + t2, seq![space_piece()]);
    lemma_line_text_single(space_piece());
    let tail_text: Seq<char> = match tail_spec(e, x) {
        Some(TailModel::Extra(y)) => y,
        Some(TailModel::Missing(m)) => m,
        None => seq![],
    };
    let tail_len = (max_nat(e.len(), x.len()) - n) as nat;
    match tail_spec(e, x) {
        Some(TailModel::Extra(y)) => {
            lemma_line_text_single((y, TextStyle::Superfluous));
            lemma_line_text_single((spaces(y.len()), TextStyle::Plain));
        },
        Some(TailModel::Missing(m)) => {
            lemma_line_text_single((m, TextStyle::Missing));
            lemma_line_text_single((m, TextStyle::NotWritten));
            lemma_line_text_single((spaces(m.len()), TextStyle::Plain));
        },
        None => {
            assert(line_text(t1) =~= seq![]);
            assert(line_text(t1c) =~= seq![]);
            assert(line_text(t2) =~= seq![]);
        },
    }
    assert(line_text(t1) == tail_text);
    assert(line_text(t1c) == tail_text);
    assert(line_text(t2) =~= spaces(tail_len));
    assert(flat_written(parts) + (if x.len() > e.len() { tail_text } else { seq![] }) == x);
    assert(word_display(w) =~= flat_written(parts) + tail_text);
    assert(correction(w) =~= correction_prefix(e, x, n) + spaces(tail_len));
    assert(correction(w).take(n as int) =~= correction_prefix(e, x, n));
}

proof fn lemma_typed_texts(ws: Seq<WrittenWordView>)
    ensures
        line_text(words_pieces(ws, |w| word_pieces_first(w))) == typed_display(ws),
        line_text(words_pieces(ws, |w| word_pieces_second(w))) == typed_correction(ws),
    decreases ws.len(),
{
    if ws.len() > 0 {
        lemma_typed_texts(ws.drop_last());
        lemma_word_texts(ws.last());
        lemma_line_text_concat(
            words_pieces(ws.drop_last(), |w| word_pieces_first(w)),
            word_pieces_first(ws.last()),
        );
        lemma_line_text_concat(
            words_pieces(ws.drop_last(), |w| word_pieces_second(w)),
            word_pieces_second(ws.last()),
        );
        assert(typed_display(ws.drop_last()) + (word_display(ws.last()) + seq![' '])
            =~= typed_display(ws));
        assert(typed_correction(ws.drop_last()) + (correction(ws.last()) + seq![' '])
            =~= typed_correction(ws));
    }
}

proof fn lemma_queue_text(q: Seq<Seq<char>>)
    ensures
        seq![' '] + line_text(queue_pieces(q)) == queue_display(q) + seq![' '],
        q.len() > 0 ==> queue_pieces(q).len() > 0 && queue_pieces(q).last() == space_piece(),
    decreases q.len(),
{
    if q.len() == 0 {
        assert(queue_pieces(q) =~= Seq::<(Seq<char>, TextStyle)>::empty());
        assert(seq![' '] + seq![] =~= seq![] + seq![' ']);
    } else {
        lemma_queue_text(q.drop_last());
        let two = seq![(q.last(), TextStyle::NotWritten), space_piece()];
        lemma_line_text_concat(queue_pieces(q.drop_last()), two);
        assert(two.drop_last() =~= seq![(q.last(), TextStyle::NotWritten)]);
        lemma_line_text_single((q.last(), TextStyle::NotWritten));
        assert(line_text(two) =~= q.last() + seq![' ']);
        assert(seq![' '] + (line_text(queue_pieces(q.drop_last())) + (q.last() + seq![' ']))
            =~= (seq![' '] + line_text(queue_pieces(q.drop_last()))) + q.last() + seq![' ']);
        assert(queue_display(q.drop_last()) + seq![' '] + q.last() + seq![' '] =~= queue_display(q)
            + seq![' ']);
    }
}

/// The scroll of the lines is within the typed words when what is written
/// of the current word fits in half of the screen.
proof fn lemma_skip_within_typed(v: TypingTestView, width: u16)
    requires
        v.current matches Some(c) && c.written.len() <= width / 2,
    ensures
        width_skip_spec(completed_width_spec(v), width) <= sum_max_widths(v.completed),
        typed_display(v.completed).len() == sum_max_widths(v.completed),
        typed_correction(v.completed).len() == sum_max_widths(v.completed),
{
    law_lines_aligned(v.completed);
    lemma_typed_texts(v.completed);
    lemma_line_text_len(words_pieces(v.completed, |w| word_pieces_first(w)));
    lemma_line_text_len(words_pieces(v.completed, |w| word_pieces_second(w)));
}

/// While a word is being typed, the first line shows the typed words (what
/// was written of each, then its expected characters not written), the
/// current word and the words still to type, separated by spaces, without the
/// characters scrolled away.
pub proof fn law_first_line_shows_the_test(v: TypingTestView, width: u16)
    requires
        v.current matches Some(c) && c.written.len() <= width / 2,
    ensures
        line_text(first_line_spec(v, width_skip_spec(completed_width_spec(v), width)))
            == first_line_display(v).skip(width_skip_spec(completed_width_spec(v), width) as int),
{
    let skip = width_skip_spec(completed_width_spec(v), width);
    let c = v.current->0;
    let tp = words_pieces(v.completed, |w| word_pieces_first(w));
    let typed = skip_state(tp, skip).0;
    let cp = current_pieces_first(c);
    let qp = queue_pieces(v.queue);
    let all = typed + cp + qp;
    lemma_skip_within_typed(v, width);
    lemma_typed_texts(v.completed);
    lemma_line_text_len(tp);
    law_scrolling_drops_characters(tp, skip);
    lemma_word_texts(c);
    lemma_queue_text(v.queue);
    lemma_line_text_concat(typed, cp);
    lemma_line_text_concat(typed + cp, qp);
    // The last piece is the space after the current word or after the queue.
    assert(all.len() > 0);
    if v.queue.len() > 0 {
        assert(all.last() == qp.last());
    } else {
        assert(qp =~= Seq::<(Seq<char>, TextStyle)>::empty());
        assert(all =~= typed + cp);
        assert(cp.last() == space_piece());
    }
    assert(all.last() == space_piece());
    assert(line_text(all) == line_text(all.drop_last()) + seq![' ']);
    let td = typed_display(v.completed);
    let rest = word_display(c) + queue_display(v.queue);
    assert(line_text(all) =~= td.skip(skip as int) + word_display(c) + (seq![' '] + line_text(qp)));
    assert(line_text(all) =~= td.skip(skip as int) + rest + seq![' ']);
    let x = td.skip(skip as int) + rest;
    assert(line_text(all.drop_last()) =~= (line_text(all.drop_last()) + seq![' ']).drop_last());
    assert(x =~= (x + seq![' ']).drop_last());
    assert(line_text(all.drop_last()) == x);
    assert(first_line_display(v) == td + rest);
    assert((td + rest).skip(skip as int) =~= td.skip(skip as int) + rest);
}

/// While a word is being typed, the second line shows, in the column of each
/// wrong character of the first line, the character that was expected there,
/// and blanks elsewhere, without the characters scrolled away.
pub proof fn law_second_line_shows_corrections(v: TypingTestView, width: u16)
    requires
        v.current matches Some(c) && c.written.len() <= width / 2,
    ensures
        line_text(second_line_spec(v, width_skip_spec(completed_width_spec(v), width)))
            == second_line_display(v).skip(width_skip_spec(completed_width_spec(v), width) as int),
{
    let skip = width_skip_spec(completed_width_spec(v), width);
    let c = v.current->0;
    let tp = words_pieces(v.completed, |w| word_pieces_second(w));
    let typed = skip_state(tp, skip).0;
    let cp = body_parts_spec(c.expected, c.written).map_values(
        |p: PartModel| current_part_piece_second(p),
    );
    lemma_skip_within_typed(v, width);
    lemma_typed_texts(v.completed);
    lemma_line_text_len(tp);
    law_scrolling_drops_characters(tp, skip);
    lemma_word_texts(c);
    lemma_line_text_concat(typed, cp);
    let td = typed_correction(v.completed);
    let rest = correction(c).take(min_nat(c.expected.len(), c.written.len()) as int);
    assert(second_line_display(v) == td + rest);
    assert((td + rest).skip(skip as int) =~= td.skip(skip as int) + rest);
}

/// The cursor follows the typing: what the lines scroll and where the cursor
/// stands add up to the typed width, as long as that width fits the screen
/// coordinates.
pub proof fn law_scroll_plus_cursor_is_typed_width(cw: nat, width: u16)
    requires
        cw < 65536,
    ensures
        width_skip_spec(cw, width) + min_nat(cw % 65536, (width / 2) as nat) == cw,
{
}

impl<'a> TwoLines<'a> {
    /// The width of the typed words, each with the space after it, and of
    /// what is written of the current word.
    pub fn completed_width(&self) -> (r: usize)
        requires
            completed_width_spec(self.game@) <= usize::MAX,
        ensures
            r == completed_width_spec(self.game@),
    {
        let ghost ws = self.game@.completed;
        let mut total: usize = 0;
        let mut k: usize = 0;
        while k < self.game.completed_word_list.len()
            invariant
                ws == self.game@.completed,
                completed_width_spec(self.game@) <= usize::MAX,
                k <= ws.len(),
                total == sum_max_widths(ws.take(k as int)),
            decreases ws.len() - k,
        {
            proof {
                assert(ws.take(k + 1).drop_last() =~= ws.take(k as int));
                lemma_sum_max_widths_prefix(ws, k + 1);
            }
            total = total + self.game.completed_word_list[k].max_width() + 1;
            k = k + 1;
        }
        assert(ws.take(ws.len() as int) =~= ws);
        let cur = match &self.game.current_word {
            Some(word) => word.written_width(),
            None => 0,
        };
        total + cur
    }

    /// How many characters the lines scroll on a screen `width` wide.
    pub fn width_skip(&self, width: u16) -> (r: usize)
        requires
            completed_width_spec(self.game@) <= usize::MAX,
            completed_width_spec(self.game@) <= i64::MAX,
        ensures
            r == width_skip_spec(completed_width_spec(self.game@), width),
    {
        let cw = self.completed_width();
        let half = (width / 2) as usize;
        if cw > half {
            cw - half
        } else {
            0
        }
    }

    /// Where the cursor stands: after what is typed, but at most in the middle
    /// of the area, on its first row.
    pub fn cursor_position(&self, area: Rect) -> (r: Position)
        requires
            completed_width_spec(self.game@) <= usize::MAX,
        ensures
            r.x == min_nat((completed_width_spec(self.game@) % 65536) as nat, (area.width / 2) as nat),
            r.y == area.y,
    {
        let cw = self.completed_width();
        #[verifier::truncate]
        let x16 = cw as u16;
        assert(x16 == cw % 65536) by (bit_vector)
            requires
                x16 == cw as u16,
        ;
        let half = area.width / 2;
        Position { x: if x16 <= half { x16 } else { half }, y: area.y }
    }

    /// The pieces of the first line on a screen `width` wide.
    pub fn first_line(&self, width: u16) -> (r: Vec<StyledText>)
        requires
            completed_width_spec(self.game@) <= usize::MAX,
            completed_width_spec(self.game@) <= i64::MAX,
        ensures
            pieces_view(r@) == first_line_spec(
                self.game@,
                width_skip_spec(completed_width_spec(self.game@), width),
            ),
    {
        let mut line: Vec<StyledText> = Vec::new();
        let mut skip = self.width_skip(width);
        let ghost skip0 = skip as nat;
        let ghost ws = self.game@.completed;
        let ghost f = |w| word_pieces_first(w);
        assert(words_pieces(ws.take(0), f) =~= Seq::<(Seq<char>, TextStyle)>::empty()) by {
            assert(ws.take(0) =~= Seq::<WrittenWordView>::empty());
        }
        assert(pieces_view(line@) =~= Seq::<(Seq<char>, TextStyle)>::empty());
        let mut k: usize = 0;
        while k < self.game.completed_word_list.len()
            invariant
                ws == self.game@.completed,
                f == (|w| word_pieces_first(w)),
                k <= ws.len(),
                pieces_view(line@) == skip_state(words_pieces(ws.take(k as int), f), skip0).0,
                skip as nat == skip_state(words_pieces(ws.take(k as int), f), skip0).1,
            decreases ws.len() - k,
        {
            push_word_first(&self.game.completed_word_list[k], &mut line, &mut skip);
            proof {
                lemma_words_pieces_step(ws, f, k as int);
                lemma_skip_concat(words_pieces(ws.take(k as int), f), f(ws[k as int]), skip0);
            }
            k = k + 1;
        }
        assert(ws.take(ws.len() as int) =~= ws);
        let ghost typed = pieces_view(line@);
        match &self.game.current_word {
            Some(cw) => {
                let cwa = cw.analyze();
                let ghost parts = parts_view(cwa.body_parts@);
                let ghost a = parts.map_values(|p: PartModel| part_piece_first(p));
                let mut j: usize = 0;
                while j < cwa.body_parts.len()
                    invariant
                        parts == parts_view(cwa.body_parts@),
                        a == parts.map_values(|p: PartModel| part_piece_first(p)),
                        j <= parts.len(),
                        pieces_view(line@) == typed + a.take(j as int),
                    decreases parts.len() - j,
                {
                    let ghost before = line@;
                    assert(parts[j as int] == cwa.body_parts@[j as int]@);
                    assert(a[j as int] == part_piece_first(parts[j as int]));
                    let piece = match &cwa.body_parts[j] {
                        WordBodyPart::Correct(c) => StyledText {
                            text: c.clone(),
                            style: TextStyle::Correct,
                        },
                        WordBodyPart::Incorrect { written, .. } => StyledText {
                            text: written.clone(),
                            style: TextStyle::Incorrect,
                        },
                    };
                    line.push(piece);
                    assert(pieces_view(line@) =~= pieces_view(before).push(a[j as int]));
                    assert(a.take(j + 1) =~= a.take(j as int).push(a[j as int]));
                    j = j + 1;
                }
                assert(a.take(parts.len() as int) =~= a);
                let ghost before = line@;
                match &cwa.tail {
                    Some(WordTail::Extra(e)) => {
                        line.push(StyledText { text: e.clone(), style: TextStyle::Superfluous });
                    },
                    Some(WordTail::Missing(m)) => {
                        line.push(StyledText { text: m.clone(), style: TextStyle::NotWritten });
                    },
                    None => {},
                }
                let ghost t: Seq<(Seq<char>, TextStyle)> = match tail_spec(
                    cw@.expected,
                    cw@.written,
                ) {
                    Some(TailModel::Extra(x)) => seq![(x, TextStyle::Superfluous)],
                    Some(TailModel::Missing(m)) => seq![(m, TextStyle::NotWritten)],
                    None => seq![],
                };
                assert(pieces_view(line@) =~= pieces_view(before) + t);
                let ghost before2 = line@;
                proof {
                    reveal_strlit(" ");
                }
                let sp = StyledText { text: " ".to_owned(), style: TextStyle::Plain };
                assert(sp@ == space_piece());
                line.push(sp);
                assert(parts == body_parts_spec(cw@.expected, cw@.written));
                assert(pieces_view(line@) =~= pieces_view(before2).push(space_piece()));
                assert(pieces_view(line@) =~= typed + current_pieces_first(cw@));
                let ghost q = self.game@.queue;
                let ghost start = pieces_view(line@);
                assert(queue_pieces(q.take(0)) =~= Seq::<(Seq<char>, TextStyle)>::empty()) by {
                    assert(q.take(0) =~= Seq::<Seq<char>>::empty());
                }
                let mut i: usize = 0;
                while i < self.game.word_queue.len()
                    invariant
                        q == self.game@.queue,
                        i <= q.len(),
                        pieces_view(line@) == start + queue_pieces(q.take(i as int)),
                    decreases q.len() - i,
                {
                    let ghost before = line@;
                    proof {
                        reveal_strlit(" ");
                    }
                    let word = self.game.word_queue[i].clone();
                    assert(word@ == q[i as int]);
                    line.push(StyledText { text: word, style: TextStyle::NotWritten });
                    let sp = StyledText { text: " ".to_owned(), style: TextStyle::Plain };
                    assert(sp@ == space_piece());
                    line.push(sp);
                    proof {
                        assert(q.take(i + 1).drop_last() =~= q.take(i as int));
                        assert(pieces_view(line@) =~= pieces_view(before) + seq![
                            (q[i as int], TextStyle::NotWritten),
                            space_piece(),
                        ]);
                    }
                    i = i + 1;
                }
                assert(q.take(q.len() as int) =~= q);
            },
            None => {},
        }
        let ghost full = pieces_view(line@);
        line.pop();
        assert(pieces_view(line@) =~= drop_last_piece(full));
        line
    }

    /// The pieces of the second line on a screen `width` wide.
    pub fn second_line(&self, width: u16) -> (r: Vec<StyledText>)
        requires
            completed_width_spec(self.game@) <= usize::MAX,
            completed_width_spec(self.game@) <= i64::MAX,
        ensures
            pieces_view(r@) == second_line_spec(
                self.game@,
                width_skip_spec(completed_width_spec(self.game@), width),
            ),
    {
        let mut line: Vec<StyledText> = Vec::new();
        let mut skip = self.width_skip(width);
        let ghost skip0 = skip as nat;
        let ghost ws = self.game@.completed;
        let ghost f = |w| word_pieces_second(w);
        assert(words_pieces(ws.take(0), f) =~= Seq::<(Seq<char>, TextStyle)>::empty()) by {
            assert(ws.take(0) =~= Seq::<WrittenWordView>::empty());
        }
        assert(pieces_view(line@) =~= Seq::<(Seq<char>, TextStyle)>::empty());
        let mut k: usize = 0;
        while k < self.game.completed_word_list.len()
            invariant
                ws == self.game@.completed,
                f == (|w| word_pieces_second(w)),
                k <= ws.len(),
                pieces_view(line@) == skip_state(words_pieces(ws.take(k as int), f), skip0).0,
                skip as nat == skip_state(words_pieces(ws.take(k as int), f), skip0).1,
            decreases ws.len() - k,
        {
            push_word_second(&self.game.completed_word_list[k], &mut line, &mut skip);
            proof {
                lemma_words_pieces_step(ws, f, k as int);
                lemma_skip_concat(words_pieces(ws.take(k as int), f), f(ws[k as int]), skip0);
            }
            k = k + 1;
        }
        assert(ws.take(ws.len() as int) =~= ws);
        let ghost typed = pieces_view(line@);
        match &self.game.current_word {
            Some(cw) => {
                let cwa = cw.analyze();
                let ghost parts = parts_view(cwa.body_parts@);
                let ghost a = parts.map_values(|p: PartModel| current_part_piece_second(p));
                let mut j: usize = 0;
                while j < cwa.body_parts.len()
                    invariant
                        parts == parts_view(cwa.body_parts@),
                        a == parts.map_values(|p: PartModel| current_part_piece_second(p)),
                        j <= parts.len(),
                        pieces_view(line@) == typed + a.take(j as int),
                    decreases parts.len() - j,
                {
                    let ghost before = line@;
                    assert(parts[j as int] == cwa.body_parts@[j as int]@);
                    assert(a[j as int] == current_part_piece_second(parts[j as int]));
                    let piece = match &cwa.body_parts[j] {
                        WordBodyPart::Correct(c) => StyledText {
                            text: spaces_string(c.as_str().unicode_len()),
                            style: TextStyle::Plain,
                        },
                        WordBodyPart::Incorrect { expected, .. } => StyledText {
                            text: expected.clone(),
                            style: TextStyle::Plain,
                        },
                    };
                    line.push(piece);
                    assert(pieces_view(line@) =~= pieces_view(before).push(a[j as int]));
                    assert(a.take(j + 1) =~= a.take(j as int).push(a[j as int]));
                    j = j + 1;
                }
                assert(a.take(parts.len() as int) =~= a);
                assert(parts == body_parts_spec(cw@.expected, cw@.written));
                assert(a =~= body_parts_spec(cw@.expected, cw@.written).map_values(
                    |p: PartModel| current_part_piece_second(p),
                ));
            },
            None => {
                line.pop();
                assert(pieces_view(line@) =~= drop_last_piece(typed));
            },
        }
        line
    }
}

} // verus!
