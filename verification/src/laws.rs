//! What holds of the layout engine as a whole: wrapping loses no text,
//! a piece that fits the budget stays on one line, an overflowing piece is
//! split across lines, and an embedded newline always breaks.

use vstd::prelude::*;
use crate::style::Attributes;
use crate::tokenize::find_char;
use crate::layout::{
    SpecSegment, SpecLine, spec_wrap, spec_place_piece, spec_split_nl, spec_place_pieces,
    spec_place_runs, spec_layout, empty_line, line_add, grow_from, lemma_grow_from_fits,
    lemma_split_nl_len,
};

verus! {

/// The text of a line's fragments, concatenated in reading order.
pub open spec fn segs_text(segs: Seq<SpecSegment>) -> Seq<char>
    decreases segs.len(),
{
    if segs.len() == 0 {
        Seq::empty()
    } else {
        segs_text(segs.drop_last()) + segs.last().text
    }
}

pub open spec fn line_text(l: SpecLine) -> Seq<char> {
    segs_text(l.segments)
}

/// The text of a line sequence, concatenated.
pub open spec fn lines_text(ls: Seq<SpecLine>) -> Seq<char>
    decreases ls.len(),
{
    if ls.len() == 0 {
        Seq::empty()
    } else {
        lines_text(ls.drop_last()) + line_text(ls.last())
    }
}

/// The text of a run sequence, concatenated.
pub open spec fn runs_text(runs: Seq<(Seq<char>, Attributes)>) -> Seq<char>
    decreases runs.len(),
{
    if runs.len() == 0 {
        Seq::empty()
    } else {
        runs[0].0 + runs_text(runs.skip(1))
    }
}

/// The text of a piece sequence, concatenated.
pub open spec fn pieces_text(pieces: Seq<Seq<char>>) -> Seq<char>
    decreases pieces.len(),
{
    if pieces.len() == 0 {
        Seq::empty()
    } else {
        pieces[0] + pieces_text(pieces.skip(1))
    }
}

/// `s` with every newline character removed.
pub open spec fn strip_newlines(s: Seq<char>) -> Seq<char>
    decreases s.len(),
{
    if s.len() == 0 {
        Seq::empty()
    } else if s[0] == '\n' {
        strip_newlines(s.skip(1))
    } else {
        seq![s[0]] + strip_newlines(s.skip(1))
    }
}

proof fn lemma_lines_text_concat(a: Seq<SpecLine>, b: Seq<SpecLine>)
    ensures
        lines_text(a + b) == lines_text(a) + lines_text(b),
    decreases b.len(),
{
    if b.len() == 0 {
        assert(a + b =~= a);
        assert(lines_text(a) + Seq::<char>::empty() =~= lines_text(a));
    } else {
        lemma_lines_text_concat(a, b.drop_last());
        assert((a + b).drop_last() =~= a + b.drop_last());
        assert((a + b).last() == b.last());
        assert((lines_text(a) + lines_text(b.drop_last())) + line_text(b.last())
            =~= lines_text(a) + (lines_text(b.drop_last()) + line_text(b.last())));
    }
}

proof fn lemma_line_add_text(cur: SpecLine, t: Seq<char>, at: Attributes, fw: int, fh: int)
    ensures
        line_text(line_add(cur, t, at, fw, fh)) == line_text(cur) + t,
{
    let l = line_add(cur, t, at, fw, fh);
    assert(l.segments.drop_last() =~= cur.segments);
}

proof fn lemma_lines_text_one(l: SpecLine)
    ensures
        lines_text(seq![l]) == line_text(l),
{
    assert(seq![l].drop_last() =~= Seq::<SpecLine>::empty());
    assert(seq![l].last() == l);
    assert(lines_text(Seq::<SpecLine>::empty()) == Seq::<char>::empty());
    assert(Seq::<char>::empty() + line_text(l) =~= line_text(l));
}

/// The greedy wrap scan drops no character and invents none: its completed
/// lines and its final open line carry exactly the old line's text followed
/// by the piece.
proof fn lemma_wrap_text(
    cur: SpecLine,
    rem: Seq<char>,
    at: Attributes,
    w: int,
    mf: spec_fn(Seq<char>) -> (u32, u32),
)
    ensures
        ({
            let r = spec_wrap(cur, rem, at, w, mf);
            lines_text(r.0) + line_text(r.1) == line_text(cur) + rem
        }),
    decreases rem.len(), (if cur.width > 0 { 1int } else { 0int }),
{
    let r = spec_wrap(cur, rem, at, w, mf);
    if rem.len() == 0 {
        assert(lines_text(r.0) =~= Seq::<char>::empty());
        assert(Seq::<char>::empty() + line_text(cur) =~= line_text(cur));
        assert(line_text(cur) + rem =~= line_text(cur));
    } else {
        let n0 = grow_from(cur.width, rem, w, mf, 0);
        let n = if n0 <= rem.len() {
            n0
        } else {
            rem.len()
        };
        if n == rem.len() {
            lemma_line_add_text(cur, rem, at, mf(rem).0 as int, mf(rem).1 as int);
            assert(lines_text(r.0) =~= Seq::<char>::empty());
            assert(Seq::<char>::empty() + (line_text(cur) + rem) =~= line_text(cur) + rem);
        } else if n == 0 && cur.width <= 0 {
            let t = rem.take(1);
            let m = mf(t);
            let done = line_add(cur, t, at, m.0 as int, m.1 as int);
            let r2 = spec_wrap(empty_line(), rem.skip(1), at, w, mf);
            lemma_wrap_text(empty_line(), rem.skip(1), at, w, mf);
            lemma_lines_text_concat(seq![done], r2.0);
            lemma_lines_text_one(done);
            lemma_line_add_text(cur, t, at, m.0 as int, m.1 as int);
            assert(line_text(empty_line()) =~= Seq::<char>::empty());
            assert(lines_text(r2.0) + line_text(r2.1) == Seq::<char>::empty() + rem.skip(1));
            assert(Seq::<char>::empty() + rem.skip(1) =~= rem.skip(1));
            assert(((line_text(cur) + t) + (rem.skip(1))) =~= line_text(cur) + rem);
        } else if n == 0 {
            let r2 = spec_wrap(empty_line(), rem, at, w, mf);
            lemma_wrap_text(empty_line(), rem, at, w, mf);
            lemma_lines_text_concat(seq![cur], r2.0);
            lemma_lines_text_one(cur);
            assert(line_text(empty_line()) =~= Seq::<char>::empty());
            assert(Seq::<char>::empty() + rem =~= rem);
            assert((line_text(cur) + (lines_text(r2.0) + line_text(r2.1))) =~= line_text(cur)
                + rem);
        } else {
            let t = rem.take(n as int);
            let m = mf(t);
            let done = line_add(cur, t, at, m.0 as int, m.1 as int);
            let r2 = spec_wrap(empty_line(), rem.skip(n as int), at, w, mf);
            lemma_wrap_text(empty_line(), rem.skip(n as int), at, w, mf);
            lemma_lines_text_concat(seq![done], r2.0);
            lemma_lines_text_one(done);
            lemma_line_add_text(cur, t, at, m.0 as int, m.1 as int);
            assert(line_text(empty_line()) =~= Seq::<char>::empty());
            assert(Seq::<char>::empty() + rem.skip(n as int) =~= rem.skip(n as int));
            assert(((line_text(cur) + t) + rem.skip(n as int)) =~= line_text(cur) + rem);
        }
    }
}

/// Placing one piece preserves text.
proof fn lemma_place_piece_text(
    cur: SpecLine,
    p: Seq<char>,
    at: Attributes,
    w: int,
    mf: spec_fn(Seq<char>) -> (u32, u32),
)
    ensures
        ({
            let r = spec_place_piece(cur, p, at, w, mf);
            lines_text(r.0) + line_text(r.1) == line_text(cur) + p
        }),
{
    let m = mf(p);
    if cur.width + m.0 <= w {
        lemma_line_add_text(cur, p, at, m.0 as int, m.1 as int);
        assert(lines_text(Seq::<SpecLine>::empty()) =~= Seq::<char>::empty());
        assert(Seq::<char>::empty() + (line_text(cur) + p) =~= line_text(cur) + p);
    } else {
        lemma_wrap_text(cur, p, at, w, mf);
    }
}

/// Placing a run's pieces preserves text.
proof fn lemma_place_pieces_text(
    cur: SpecLine,
    pieces: Seq<Seq<char>>,
    at: Attributes,
    w: int,
    mf: spec_fn(Seq<char>) -> (u32, u32),
)
    ensures
        ({
            let r = spec_place_pieces(cur, pieces, at, w, mf);
            lines_text(r.0) + line_text(r.1) == line_text(cur) + pieces_text(pieces)
        }),
    decreases pieces.len(),
{
    let r = spec_place_pieces(cur, pieces, at, w, mf);
    if pieces.len() == 0 {
        assert(lines_text(r.0) =~= Seq::<char>::empty());
        assert(Seq::<char>::empty() + line_text(cur) =~= line_text(cur));
        assert(line_text(cur) + pieces_text(pieces) =~= line_text(cur));
    } else if pieces.len() == 1 {
        lemma_place_piece_text(cur, pieces[0], at, w, mf);
        assert(pieces_text(pieces.skip(1)) =~= Seq::<char>::empty());
        assert(pieces[0] + Seq::<char>::empty() =~= pieces[0]);
    } else {
        let r1 = spec_place_piece(cur, pieces[0], at, w, mf);
        let r2 = spec_place_pieces(empty_line(), pieces.skip(1), at, w, mf);
        lemma_place_piece_text(cur, pieces[0], at, w, mf);
        lemma_place_pieces_text(empty_line(), pieces.skip(1), at, w, mf);
        lemma_lines_text_concat(r1.0 + seq![r1.1], r2.0);
        lemma_lines_text_concat(r1.0, seq![r1.1]);
        lemma_lines_text_one(r1.1);
        assert(line_text(empty_line()) =~= Seq::<char>::empty());
        assert(Seq::<char>::empty() + pieces_text(pieces.skip(1)) =~= pieces_text(
            pieces.skip(1),
        ));
        assert(((line_text(cur) + pieces[0]) + pieces_text(pieces.skip(1))) =~= line_text(cur)
            + pieces_text(pieces));
    }
}

/// Stripping newlines from text free of them changes nothing.
pub proof fn lemma_strip_clean(s: Seq<char>)
    requires
        forall|i: int| 0 <= i < s.len() ==> s[i] != '\n',
    ensures
        strip_newlines(s) == s,
    decreases s.len(),
{
    if s.len() > 0 {
        assert(forall|i: int| 0 <= i < s.skip(1).len() ==> s.skip(1)[i] == s[i + 1]);
        lemma_strip_clean(s.skip(1));
        assert(seq![s[0]] + s.skip(1) =~= s);
    }
}

/// The first newline splits the strip.
proof fn lemma_strip_at(s: Seq<char>, i: int)
    requires
        0 <= i < s.len(),
        s[i] == '\n',
        forall|j: int| 0 <= j < i ==> s[j] != '\n',
    ensures
        strip_newlines(s) == s.take(i) + strip_newlines(s.skip(i + 1)),
    decreases i,
{
    if i == 0 {
        assert(s.take(0) =~= Seq::<char>::empty());
        assert(Seq::<char>::empty() + strip_newlines(s.skip(1)) =~= strip_newlines(s.skip(1)));
    } else {
        assert(forall|j: int| 0 <= j < s.skip(1).len() ==> s.skip(1)[j] == s[j + 1]);
        lemma_strip_at(s.skip(1), i - 1);
        assert(s.skip(1).skip(i) =~= s.skip(i + 1));
        assert(seq![s[0]] + s.skip(1).take(i - 1) =~= s.take(i));
        assert((seq![s[0]] + (s.skip(1).take(i - 1) + strip_newlines(s.skip(i + 1)))) =~= (seq![
            s[0],
        ] + s.skip(1).take(i - 1)) + strip_newlines(s.skip(i + 1)));
    }
}

/// The pieces of a split carry the text minus its newlines.
proof fn lemma_split_nl_text(s: Seq<char>)
    ensures
        pieces_text(spec_split_nl(s)) == strip_newlines(s),
    decreases s.len(),
{
    crate::tokenize::lemma_find_char(s, '\n');
    match find_char(s, '\n') {
        None => {
            lemma_strip_clean(s);
            assert(spec_split_nl(s) == seq![s]);
            assert(pieces_text(seq![s].skip(1)) =~= Seq::<char>::empty());
            assert(s + Seq::<char>::empty() =~= s);
        },
        Some(i) => {
            lemma_split_nl_text(s.skip(i + 1));
            lemma_strip_at(s, i);
            let pieces = spec_split_nl(s);
            assert(pieces == seq![s.take(i)] + spec_split_nl(s.skip(i + 1)));
            assert(pieces[0] == s.take(i));
            assert(pieces.skip(1) =~= spec_split_nl(s.skip(i + 1)));
        },
    }
}

/// Placing runs preserves text, newlines excluded.
proof fn lemma_place_runs_text(
    cur: SpecLine,
    runs: Seq<(Seq<char>, Attributes)>,
    w: int,
    mf: spec_fn(Seq<char>) -> (u32, u32),
)
    ensures
        ({
            let r = spec_place_runs(cur, runs, w, mf);
            lines_text(r.0) + line_text(r.1) == line_text(cur) + strip_newlines(runs_text(runs))
        }),
    decreases runs.len(),
{
    let r = spec_place_runs(cur, runs, w, mf);
    if runs.len() == 0 {
        assert(strip_newlines(runs_text(runs)) =~= Seq::<char>::empty());
        assert(lines_text(r.0) =~= Seq::<char>::empty());
        assert(Seq::<char>::empty() + line_text(cur) =~= line_text(cur));
        assert(line_text(cur) + Seq::<char>::empty() =~= line_text(cur));
    } else {
        let r1 = spec_place_pieces(cur, spec_split_nl(runs[0].0), runs[0].1, w, mf);
        let r2 = spec_place_runs(r1.1, runs.skip(1), w, mf);
        lemma_place_pieces_text(cur, spec_split_nl(runs[0].0), runs[0].1, w, mf);
        lemma_split_nl_text(runs[0].0);
        lemma_place_runs_text(r1.1, runs.skip(1), w, mf);
        lemma_lines_text_concat(r1.0, r2.0);
        lemma_strip_concat(runs[0].0, runs_text(runs.skip(1)));
        assert(((line_text(cur) + strip_newlines(runs[0].0)) + strip_newlines(
            runs_text(runs.skip(1)),
        )) =~= line_text(cur) + (strip_newlines(runs[0].0) + strip_newlines(
            runs_text(runs.skip(1)),
        )));
        assert((lines_text(r1.0) + (lines_text(r2.0) + line_text(r2.1))) =~= ((lines_text(r1.0)
            + lines_text(r2.0)) + line_text(r2.1)));
    }
}

/// Stripping distributes over concatenation.
proof fn lemma_strip_concat(a: Seq<char>, b: Seq<char>)
    ensures
        strip_newlines(a + b) == strip_newlines(a) + strip_newlines(b),
    decreases a.len(),
{
    if a.len() == 0 {
        assert(a + b =~= b);
        assert(strip_newlines(a) =~= Seq::<char>::empty());
        assert(Seq::<char>::empty() + strip_newlines(b) =~= strip_newlines(b));
    } else {
        lemma_strip_concat(a.skip(1), b);
        assert((a + b).skip(1) =~= a.skip(1) + b);
        assert((a + b)[0] == a[0]);
        if a[0] != '\n' {
            assert((seq![a[0]] + (strip_newlines(a.skip(1)) + strip_newlines(b))) =~= (seq![
                a[0],
            ] + strip_newlines(a.skip(1))) + strip_newlines(b));
        }
    }
}

/// Laying out styled runs drops no character and invents none: the
/// fragment texts of all produced lines, concatenated in order, are the
/// runs' text with exactly the newline characters removed.
pub proof fn lemma_layout_preserves_text(
    runs: Seq<(Seq<char>, Attributes)>,
    w: int,
    mf: spec_fn(Seq<char>) -> (u32, u32),
)
    ensures
        lines_text(spec_layout(runs, w, mf)) == strip_newlines(runs_text(runs)),
{
    let r = spec_place_runs(empty_line(), runs, w, mf);
    lemma_place_runs_text(empty_line(), runs, w, mf);
    lemma_lines_text_concat(r.0, seq![r.1]);
    lemma_lines_text_one(r.1);
    assert(line_text(empty_line()) =~= Seq::<char>::empty());
    assert(Seq::<char>::empty() + strip_newlines(runs_text(runs)) =~= strip_newlines(
        runs_text(runs),
    ));
}

/// A single newline-free run whose measured width fits the budget occupies
/// exactly one line, whole, with no forced break.
pub proof fn lemma_exact_fit_one_line(
    t: Seq<char>,
    at: Attributes,
    w: int,
    mf: spec_fn(Seq<char>) -> (u32, u32),
)
    requires
        mf(t).0 <= w,
        find_char(t, '\n') is None,
    ensures
        spec_layout(seq![(t, at)], w, mf) == seq![
            line_add(empty_line(), t, at, mf(t).0 as int, mf(t).1 as int),
        ],
{
    let runs = seq![(t, at)];
    assert(runs[0] == (t, at));
    assert(spec_split_nl(t) == seq![t]);
    assert(runs.skip(1).len() == 0);
    let r1 = spec_place_pieces(empty_line(), seq![t], at, w, mf);
    assert(seq![t][0] == t);
    assert(r1 == spec_place_piece(empty_line(), t, at, w, mf));
    let r2 = spec_place_runs(r1.1, runs.skip(1), w, mf);
    assert(r2 == (Seq::<SpecLine>::empty(), r1.1));
    let r = spec_place_runs(empty_line(), runs, w, mf);
    assert(r == (r1.0 + r2.0, r2.1));
    assert(r1.0 + Seq::<SpecLine>::empty() =~= r1.0);
    assert(spec_layout(runs, w, mf) =~= seq![
        line_add(empty_line(), t, at, mf(t).0 as int, mf(t).1 as int),
    ]);
}

/// A single newline-free run of at least two characters whose measured
/// width overflows the budget is split: the first line holds exactly one
/// fragment, a proper prefix of the text, at least one more line follows,
/// and nothing is dropped or duplicated.
pub proof fn lemma_overflow_splits(
    t: Seq<char>,
    at: Attributes,
    w: int,
    mf: spec_fn(Seq<char>) -> (u32, u32),
)
    requires
        mf(t).0 > w,
        t.len() >= 2,
        find_char(t, '\n') is None,
    ensures
        ({
            let ls = spec_layout(seq![(t, at)], w, mf);
            let m = ls[0].segments[0].text.len();
            ls.len() >= 2 && ls[0].segments.len() == 1 && 1 <= m < t.len() && ls[0].segments[0].text
                == t.take(m as int) && lines_text(ls) == t
        }),
{
    let runs = seq![(t, at)];
    assert(runs[0] == (t, at));
    assert(spec_split_nl(t) == seq![t]);
    let r1 = spec_place_pieces(empty_line(), seq![t], at, w, mf);
    assert(seq![t][0] == t);
    assert(r1 == spec_place_piece(empty_line(), t, at, w, mf));
    assert(r1 == spec_wrap(empty_line(), t, at, w, mf));
    let n0 = grow_from(0, t, w, mf, 0);
    let n = if n0 <= t.len() {
        n0
    } else {
        t.len()
    };
    if n == t.len() {
        lemma_grow_from_fits(0, t, w, mf, 0, t.len() as int);
        assert(t.take(t.len() as int) =~= t);
        assert(false);
    }
    assert(runs.skip(1).len() == 0);
    let r2 = spec_place_runs(r1.1, runs.skip(1), w, mf);
    assert(r2 == (Seq::<SpecLine>::empty(), r1.1));
    let r = spec_place_runs(empty_line(), runs, w, mf);
    assert(r == (r1.0 + r2.0, r2.1));
    assert(r1.0 + Seq::<SpecLine>::empty() =~= r1.0);
    let ls = spec_layout(runs, w, mf);
    assert(ls =~= r1.0 + seq![r1.1]);
    if n == 0 {
        let first = line_add(empty_line(), t.take(1), at, mf(t.take(1)).0 as int, mf(
            t.take(1),
        ).1 as int);
        let r2 = spec_wrap(empty_line(), t.skip(1), at, w, mf);
        assert(r1 == (seq![first] + r2.0, r2.1));
        assert(ls[0] == first);
        assert(first.segments =~= seq![
            SpecSegment {
                text: t.take(1),
                attributes: at,
                width: mf(t.take(1)).0 as int,
                height: mf(t.take(1)).1 as int,
            },
        ]);
        assert(ls.len() == 1 + r2.0.len() + 1);
    } else {
        let first = line_add(empty_line(), t.take(n as int), at, mf(t.take(n as int)).0 as int, mf(
            t.take(n as int),
        ).1 as int);
        let r2 = spec_wrap(empty_line(), t.skip(n as int), at, w, mf);
        assert(r1 == (seq![first] + r2.0, r2.1));
        assert(ls[0] == first);
        assert(first.segments =~= seq![
            SpecSegment {
                text: t.take(n as int),
                attributes: at,
                width: mf(t.take(n as int)).0 as int,
                height: mf(t.take(n as int)).1 as int,
            },
        ]);
        assert(ls.len() == 1 + r2.0.len() + 1);
    }
    lemma_layout_preserves_text(runs, w, mf);
    crate::tokenize::lemma_find_char(t, '\n');
    assert(runs_text(runs) == t + runs_text(runs.skip(1)));
    assert(runs_text(runs.skip(1)) =~= Seq::<char>::empty());
    assert(t + Seq::<char>::empty() =~= t);
    lemma_strip_clean(t);
}

/// An embedded newline always breaks: laying out one run `a + '\n' + b`
/// first lays `a` out, closes the line it ends on, and then lays `b` out
/// from a fresh line, exactly as if `b` were its own message. No fragment
/// of `b` can share a line with a fragment of `a`.
pub proof fn lemma_hard_break(
    a: Seq<char>,
    b: Seq<char>,
    at: Attributes,
    w: int,
    mf: spec_fn(Seq<char>) -> (u32, u32),
)
    requires
        find_char(a, '\n') is None,
    ensures
        ({
            let pa = spec_place_piece(empty_line(), a, at, w, mf);
            spec_layout(seq![(a + seq!['\n'] + b, at)], w, mf) == (pa.0 + seq![pa.1])
                + spec_layout(seq![(b, at)], w, mf)
        }),
{
    let s = a + seq!['\n'] + b;
    crate::tokenize::lemma_find_char(s, '\n');
    crate::tokenize::lemma_find_char(a, '\n');
    assert(s[a.len() as int] == '\n');
    assert(forall|j: int| 0 <= j < a.len() ==> s[j] == a[j]);
    match find_char(s, '\n') {
        None => {
            assert(false);
        },
        Some(i) => {
            if i < a.len() {
                assert(s[i] == a[i]);
                assert(false);
            }
            if i > a.len() {
                assert(false);
            }
            assert(i == a.len());
            assert(s.take(i) =~= a);
            assert(s.skip(i + 1) =~= b);
            let pieces = spec_split_nl(s);
            assert(pieces == seq![a] + spec_split_nl(b));
            lemma_split_nl_len(b);
            assert(pieces[0] == a);
            assert(pieces.skip(1) =~= spec_split_nl(b));
            let pa = spec_place_piece(empty_line(), a, at, w, mf);
            let p2 = spec_place_pieces(empty_line(), spec_split_nl(b), at, w, mf);
            let runs_s = seq![(s, at)];
            assert(runs_s[0] == (s, at));
            assert(runs_s.skip(1).len() == 0);
            let r1 = spec_place_pieces(empty_line(), pieces, at, w, mf);
            assert(r1 == ((pa.0 + seq![pa.1]) + p2.0, p2.1));
            let runs_b = seq![(b, at)];
            assert(runs_b[0] == (b, at));
            assert(runs_b.skip(1).len() == 0);
            let q1 = spec_place_pieces(empty_line(), spec_split_nl(b), at, w, mf);
            assert(q1 == p2);
            let q2 = spec_place_runs(q1.1, runs_b.skip(1), w, mf);
            assert(q2 == (Seq::<SpecLine>::empty(), q1.1));
            let qb = spec_place_runs(empty_line(), runs_b, w, mf);
            assert(qb == (q1.0 + q2.0, q2.1));
            assert(p2.0 + Seq::<SpecLine>::empty() =~= p2.0);
            assert(spec_layout(runs_b, w, mf) =~= p2.0 + seq![p2.1]);
            let s2 = spec_place_runs(r1.1, runs_s.skip(1), w, mf);
            assert(s2 == (Seq::<SpecLine>::empty(), r1.1));
            let sr = spec_place_runs(empty_line(), runs_s, w, mf);
            assert(sr == (r1.0 + s2.0, s2.1));
            assert(r1.0 + Seq::<SpecLine>::empty() =~= r1.0);
            assert(spec_layout(runs_s, w, mf) =~= r1.0 + seq![r1.1]);
            assert(((pa.0 + seq![pa.1]) + (p2.0 + seq![p2.1])) =~= (((pa.0 + seq![pa.1]) + p2.0)
                + seq![p2.1]));
        },
    }
}

} // verus!
