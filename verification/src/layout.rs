//! The greedy line-wrap layout engine.
//!
//! Styled runs are wrapped into lines that fit a pixel width budget. Width
//! is knowable only through a pluggable measurement oracle, so wrapping
//! re-measures a growing prefix character by character when a piece
//! overflows the room left on the line; no sub-additivity of the oracle is
//! assumed, and wrapping happens at raw character boundaries, not word
//! boundaries. Embedded newline characters force a hard break.

use vstd::prelude::*;
use crate::style::Attributes;
use crate::pretty_string::PrettyString;
use crate::tokenize::{find_char, scan_char};

verus! {

/// A measured size in pixels, standing in for the renderer's own.
#[derive(Clone, Copy, Debug, PartialEq, Eq, Structural)]
pub struct Dimen {
    pub width: u32,
    pub height: u32,
}

/// One placed fragment of a line: a piece of one styled run, with the size
/// the oracle measured for it.
#[derive(Clone, Debug, PartialEq, Eq)]
pub struct Segment {
    pub text: String,
    pub attributes: Attributes,
    pub size: Dimen,
}

/// One laid-out line: its fragments in reading order, the sum of their
/// widths, and the height of the tallest.
#[derive(Clone, Debug, PartialEq, Eq)]
pub struct Line {
    pub width: u32,
    pub height: u32,
    pub segments: Vec<Segment>,
}

/// The mathematical form of a placed fragment.
pub struct SpecSegment {
    pub text: Seq<char>,
    pub attributes: Attributes,
    pub width: int,
    pub height: int,
}

/// The mathematical form of a line.
pub struct SpecLine {
    pub width: int,
    pub height: int,
    pub segments: Seq<SpecSegment>,
}

impl View for Segment {
    type V = SpecSegment;

    open spec fn view(&self) -> SpecSegment {
        SpecSegment {
            text: self.text@,
            attributes: self.attributes,
            width: self.size.width as int,
            height: self.size.height as int,
        }
    }
}

impl View for Line {
    type V = SpecLine;

    open spec fn view(&self) -> SpecLine {
        SpecLine {
            width: self.width as int,
            height: self.height as int,
            segments: self.segments@.map_values(|s: Segment| s@),
        }
    }
}

/// The views of a vector of lines.
pub open spec fn lines_view(lines: Seq<Line>) -> Seq<SpecLine> {
    lines.map_values(|l: Line| l@)
}

/// The measurement oracle: from a text fragment to its pixel size. The
/// oracle is deterministic; nothing else is assumed of it.
pub trait Measure {
    /// What the oracle answers for a fragment.
    spec fn spec_measure(&self, text: Seq<char>) -> (u32, u32);

    /// Measure a fragment.
    fn measure(&self, text: &str) -> (r: (u32, u32))
        ensures
            r == self.spec_measure(text@),
    ;
}

/// The oracle of a measurer, as a plain function on character sequences.
pub open spec fn measure_fn<M: Measure>(m: &M) -> spec_fn(Seq<char>) -> (u32, u32) {
    |s: Seq<char>| m.spec_measure(s)
}

/// The line with nothing on it.
pub open spec fn empty_line() -> SpecLine {
    SpecLine { width: 0, height: 0, segments: Seq::empty() }
}

/// `cur` with one more fragment: width accumulates, height is the maximum.
pub open spec fn line_add(
    cur: SpecLine,
    text: Seq<char>,
    at: Attributes,
    fw: int,
    fh: int,
) -> SpecLine {
    SpecLine {
        width: cur.width + fw,
        height: if fh > cur.height {
            fh
        } else {
            cur.height
        },
        segments: cur.segments.push(SpecSegment { text, attributes: at, width: fw, height: fh }),
    }
}

/// How many growth steps the greedy scan accepts, starting from `i`
/// accepted characters: the prefix grows one character at a time, the whole
/// prefix is re-measured each step, and growth stops the first time the
/// line budget would overflow.
pub open spec fn grow_from(
    base: int,
    p: Seq<char>,
    w: int,
    mf: spec_fn(Seq<char>) -> (u32, u32),
    i: nat,
) -> nat
    decreases p.len() - i,
{
    if i >= p.len() {
        i
    } else if base + mf(p.take(i as int + 1)).0 > w {
        i
    } else {
        grow_from(base, p, w, mf, i + 1)
    }
}

/// Every prefix the greedy scan accepted fits the budget.
pub proof fn lemma_grow_from_fits(
    base: int,
    p: Seq<char>,
    w: int,
    mf: spec_fn(Seq<char>) -> (u32, u32),
    i: nat,
    j: int,
)
    requires
        i <= p.len(),
        forall|k: int| 1 <= k <= i ==> base + mf(p.take(k)).0 <= w,
        1 <= j <= grow_from(base, p, w, mf, i),
    ensures
        base + mf(p.take(j)).0 <= w,
    decreases p.len() - i,
{
    if i < p.len() && !(base + mf(p.take(i as int + 1)).0 > w) {
        lemma_grow_from_fits(base, p, w, mf, (i + 1) as nat, j);
    }
}

/// Wrap an overflowing piece: commit the longest fitting prefix (at least
/// one character on an empty line, so a piece wider than the whole budget
/// still makes progress), push the line, and continue on a fresh one; the
/// final commit, made because the piece's end was reached, leaves the line
/// open.
pub open spec fn spec_wrap(
    cur: SpecLine,
    rem: Seq<char>,
    at: Attributes,
    w: int,
    mf: spec_fn(Seq<char>) -> (u32, u32),
) -> (Seq<SpecLine>, SpecLine)
    decreases rem.len(), (if cur.width > 0 { 1int } else { 0int }),
{
    if rem.len() == 0 {
        (Seq::empty(), cur)
    } else {
        let n0 = grow_from(cur.width, rem, w, mf, 0);
        let n = if n0 <= rem.len() {
            n0
        } else {
            rem.len()
        };
        if n == rem.len() {
            let m = mf(rem);
            (Seq::empty(), line_add(cur, rem, at, m.0 as int, m.1 as int))
        } else if n == 0 {
            if cur.width <= 0 {
                let t = rem.take(1);
                let m = mf(t);
                let done = line_add(cur, t, at, m.0 as int, m.1 as int);
                let r = spec_wrap(empty_line(), rem.skip(1), at, w, mf);
                (seq![done] + r.0, r.1)
            } else {
                let r = spec_wrap(empty_line(), rem, at, w, mf);
                (seq![cur] + r.0, r.1)
            }
        } else {
            let t = rem.take(n as int);
            let m = mf(t);
            let done = line_add(cur, t, at, m.0 as int, m.1 as int);
            let r = spec_wrap(empty_line(), rem.skip(n as int), at, w, mf);
            (seq![done] + r.0, r.1)
        }
    }
}

/// Place one newline-free piece of a run: whole on the current line if it
/// fits the room left, else through the greedy wrap scan.
pub open spec fn spec_place_piece(
    cur: SpecLine,
    p: Seq<char>,
    at: Attributes,
    w: int,
    mf: spec_fn(Seq<char>) -> (u32, u32),
) -> (Seq<SpecLine>, SpecLine) {
    let m = mf(p);
    if cur.width + m.0 <= w {
        (Seq::empty(), line_add(cur, p, at, m.0 as int, m.1 as int))
    } else {
        spec_wrap(cur, p, at, w, mf)
    }
}

/// A run's text split on newline characters, which themselves vanish.
pub open spec fn spec_split_nl(s: Seq<char>) -> Seq<Seq<char>>
    decreases s.len(),
{
    match find_char(s, '\n') {
        None => seq![s],
        Some(i) => if 0 <= i < s.len() {
            seq![s.take(i)] + spec_split_nl(s.skip(i + 1))
        } else {
            seq![s]
        },
    }
}

/// Place the pieces of one run: a hard break is forced after every piece
/// but the last.
pub open spec fn spec_place_pieces(
    cur: SpecLine,
    pieces: Seq<Seq<char>>,
    at: Attributes,
    w: int,
    mf: spec_fn(Seq<char>) -> (u32, u32),
) -> (Seq<SpecLine>, SpecLine)
    decreases pieces.len(),
{
    if pieces.len() == 0 {
        (Seq::empty(), cur)
    } else {
        let r1 = spec_place_piece(cur, pieces[0], at, w, mf);
        if pieces.len() == 1 {
            r1
        } else {
            let r2 = spec_place_pieces(empty_line(), pieces.skip(1), at, w, mf);
            (r1.0 + seq![r1.1] + r2.0, r2.1)
        }
    }
}

/// Place every run in order, each continuing on the line the previous one
/// left open.
pub open spec fn spec_place_runs(
    cur: SpecLine,
    runs: Seq<(Seq<char>, Attributes)>,
    w: int,
    mf: spec_fn(Seq<char>) -> (u32, u32),
) -> (Seq<SpecLine>, SpecLine)
    decreases runs.len(),
{
    if runs.len() == 0 {
        (Seq::empty(), cur)
    } else {
        let r1 = spec_place_pieces(cur, spec_split_nl(runs[0].0), runs[0].1, w, mf);
        let r2 = spec_place_runs(r1.1, runs.skip(1), w, mf);
        (r1.0 + r2.0, r2.1)
    }
}

/// The whole layout: start from one empty current line, place every run,
/// and push the final current line even if it is empty.
pub open spec fn spec_layout(
    runs: Seq<(Seq<char>, Attributes)>,
    w: int,
    mf: spec_fn(Seq<char>) -> (u32, u32),
) -> Seq<SpecLine> {
    let r = spec_place_runs(empty_line(), runs, w, mf);
    r.0 + seq![r.1]
}

impl Line {
    /// A fresh empty line.
    pub fn new() -> (r: Line)
        ensures
            r@ == empty_line(),
    {
        let r = Line { width: 0, height: 0, segments: Vec::new() };
        proof {
            assert(r@.segments =~= empty_line().segments);
        }
        r
    }

    /// Append one measured fragment.
    fn add_segment(&mut self, text: String, at: Attributes, fw: u32, fh: u32)
        requires
            old(self)@.width + fw <= u32::MAX,
        ensures
            final(self)@ == line_add(old(self)@, text@, at, fw as int, fh as int),
    {
        let ghost pre = self@;
        self.width = self.width + fw;
        if fh > self.height {
            self.height = fh;
        }
        self.segments.push(Segment { text, attributes: at, size: Dimen { width: fw, height: fh } });
        proof {
            assert(self@.segments =~= pre.segments.push(
                SpecSegment { text: text@, attributes: at, width: fw as int, height: fh as int },
            ));
        }
    }
}

/// Place the slice `run_text[from..to]` (one newline-free piece of a run)
/// onto `cur`, returning the lines completed on the way and the new current
/// line.
fn place_piece<M: Measure>(
    cur: Line,
    run_text: &str,
    from: usize,
    to: usize,
    at: Attributes,
    max_width: u32,
    m: &M,
) -> (r: (Vec<Line>, Line))
    requires
        from <= to <= run_text@.len(),
    ensures
        ({
            let s = spec_place_piece(
                cur@,
                run_text@.subrange(from as int, to as int),
                at,
                max_width as int,
                measure_fn(m),
            );
            lines_view(r.0@) == s.0 && r.1@ == s.1
        }),
{
    let ghost mf = measure_fn(m);
    let ghost piece = run_text@.subrange(from as int, to as int);
    let whole = run_text.substring_char(from, to);
    let (pw, ph) = m.measure(whole);
    if cur.width as u64 + pw as u64 <= max_width as u64 {
        let mut acc = cur;
        acc.add_segment(whole.to_owned(), at, pw, ph);
        let out: Vec<Line> = Vec::new();
        proof {
            assert(lines_view(out@) =~= Seq::<SpecLine>::empty());
        }
        return (out, acc);
    }
    let mut done: Vec<Line> = Vec::new();
    let mut acc = cur;
    let mut start = from;
    let ghost cur0 = acc@;
    let ghost target = spec_wrap(cur0, piece, at, max_width as int, mf);
    proof {
        assert(lines_view(done@) =~= Seq::<SpecLine>::empty());
        assert(piece.skip(start - from) =~= run_text@.subrange(start as int, to as int));
    }
    while start < to
        invariant
            from <= start <= to <= run_text@.len(),
            mf == measure_fn(m),
            piece == run_text@.subrange(from as int, to as int),
            cur0 == cur@,
            target == spec_wrap(cur0, piece, at, max_width as int, mf),
            cur0.width + mf(piece).0 > max_width,
            ({
                let r = spec_wrap(
                    acc@,
                    run_text@.subrange(start as int, to as int),
                    at,
                    max_width as int,
                    mf,
                );
                target == (lines_view(done@) + r.0, r.1)
            }),
        decreases to - start, acc.width,
    {
        let ghost rem = run_text@.subrange(start as int, to as int);
        // the greedy scan: grow the accepted prefix while the budget holds
        let mut k: usize = 0;
        let mut stopped = false;
        while !stopped && start + k < to
            invariant
                from <= start < to <= run_text@.len(),
                start + k <= to,
                stopped ==> start + k < to,
                mf == measure_fn(m),
                rem == run_text@.subrange(start as int, to as int),
                forall|j: int| 1 <= j <= k ==> acc@.width + mf(rem.take(j)).0 <= max_width,
                grow_from(acc@.width, rem, max_width as int, mf, 0) == (if stopped {
                    k as nat
                } else {
                    grow_from(acc@.width, rem, max_width as int, mf, k as nat)
                }),
            decreases to - start - k + (if stopped { 0int } else { 1int }),
        {
            let cand = run_text.substring_char(start, start + k + 1);
            proof {
                assert(cand@ =~= rem.take(k + 1));
            }
            let (cw, _ch) = m.measure(cand);
            if acc.width as u64 + cw as u64 > max_width as u64 {
                stopped = true;
            } else {
                k += 1;
            }
        }
        proof {
            if !stopped {
                assert(k == rem.len());
            }
            assert(grow_from(acc@.width, rem, max_width as int, mf, 0) == k as nat);
        }
        if !stopped {
            // the end of the piece was reached: commit it and leave the
            // line open
            let t = run_text.substring_char(start, to);
            proof {
                assert(t@ =~= rem);
                assert(k >= 1);
                lemma_grow_from_fits(acc@.width, rem, max_width as int, mf, 0, rem.len() as int);
                assert(rem.take(rem.len() as int) =~= rem);
            }
            let (fw, fh) = m.measure(t);
            proof {
                let r = spec_wrap(acc@, rem, at, max_width as int, mf);
                assert(r == (
                    Seq::<SpecLine>::empty(),
                    line_add(acc@, rem, at, fw as int, fh as int),
                ));
            }
            acc.add_segment(t.to_owned(), at, fw, fh);
            proof {
                assert(lines_view(done@) + Seq::<SpecLine>::empty() =~= lines_view(done@));
                assert(spec_place_piece(cur0, piece, at, max_width as int, mf) == target);
            }
            return (done, acc);
        }
        // growth stopped before the end: the budget would overflow
        let ghost pre_done = lines_view(done@);
        let ghost pre_cur = acc@;
        if k == 0 {
            if acc.width == 0 {
                // even one character overflows an empty line: take it anyway
                let t = run_text.substring_char(start, start + 1);
                proof {
                    assert(t@ =~= rem.take(1));
                }
                let (fw, fh) = m.measure(t);
                acc.add_segment(t.to_owned(), at, fw, fh);
                done.push(acc);
                acc = Line::new();
                start += 1;
            } else {
                done.push(acc);
                acc = Line::new();
            }
        } else {
            let t = run_text.substring_char(start, start + k);
            proof {
                assert(t@ =~= rem.take(k as int));
                lemma_grow_from_fits(acc@.width, rem, max_width as int, mf, 0, k as int);
            }
            let (fw, fh) = m.measure(t);
            acc.add_segment(t.to_owned(), at, fw, fh);
            done.push(acc);
            acc = Line::new();
            start += k;
        }
        proof {
            let cl = done@.last()@;
            assert(lines_view(done@) =~= pre_done.push(cl));
            let rem2 = run_text@.subrange(start as int, to as int);
            assert(rem.skip(rem.len() - (to - start)) =~= rem2);
            assert(acc@ == empty_line());
            let rw = spec_wrap(pre_cur, rem, at, max_width as int, mf);
            let r2 = spec_wrap(empty_line(), rem2, at, max_width as int, mf);
            assert(rw == (seq![cl] + r2.0, r2.1));
            assert(pre_done + (seq![cl] + r2.0) =~= pre_done.push(cl) + r2.0);
        }
    }
    proof {
        assert(run_text@.subrange(start as int, to as int).len() == 0);
        assert(lines_view(done@) + Seq::<SpecLine>::empty() =~= lines_view(done@));
        assert(spec_place_piece(cur0, piece, at, max_width as int, mf) == target);
    }
    (done, acc)
}

/// Splitting always yields at least the text before the first newline.
pub proof fn lemma_split_nl_len(s: Seq<char>)
    ensures
        spec_split_nl(s).len() >= 1,
{
}

/// Wrap styled runs into lines that fit `max_width`, measuring through the
/// oracle exactly as the greedy policy prescribes.
pub fn layout<M: Measure>(text: &PrettyString, max_width: u32, measurer: &M) -> (r: Vec<Line>)
    ensures
        lines_view(r@) == spec_layout(text@, max_width as int, measure_fn(measurer)),
{
    let ghost mf = measure_fn(measurer);
    let ghost runs = text@;
    let mut done: Vec<Line> = Vec::new();
    let mut cur = Line::new();
    let mut ri: usize = 0;
    proof {
        assert(lines_view(done@) =~= Seq::<SpecLine>::empty());
        assert(runs.skip(0) =~= runs);
    }
    while ri < text.0.len()
        invariant
            ri <= text.0.len(),
            mf == measure_fn(measurer),
            runs == text@,
            ({
                let full = spec_place_runs(empty_line(), runs, max_width as int, mf);
                let r = spec_place_runs(cur@, runs.skip(ri as int), max_width as int, mf);
                full == (lines_view(done@) + r.0, r.1)
            }),
        decreases text.0.len() - ri,
    {
        let run = &text.0[ri];
        let rt: &str = run.0.as_str();
        let at = run.1;
        let n = rt.unicode_len();
        let ghost full = spec_place_runs(empty_line(), runs, max_width as int, mf);
        proof {
            assert(runs[ri as int] == (text.0@[ri as int].0@, text.0@[ri as int].1));
            assert(runs.skip(ri as int)[0] == runs[ri as int]);
            assert(runs.skip(ri as int).skip(1) =~= runs.skip(ri + 1));
            assert(rt@.skip(0) =~= rt@);
            let r = spec_place_runs(cur@, runs.skip(ri as int), max_width as int, mf);
            let r1 = spec_place_pieces(cur@, spec_split_nl(rt@), at, max_width as int, mf);
            let r2 = spec_place_runs(r1.1, runs.skip(ri + 1), max_width as int, mf);
            assert(r == (r1.0 + r2.0, r2.1));
            assert(lines_view(done@) + (r1.0 + r2.0) =~= (lines_view(done@) + r1.0) + r2.0);
        }
        let mut pos: usize = 0;
        let mut run_done = false;
        while !run_done
            invariant
                pos <= n,
                n == rt@.len(),
                mf == measure_fn(measurer),
                runs == text@,
                ri < text.0.len(),
                at == runs[ri as int].1,
                rt@ == runs[ri as int].0,
                full == spec_place_runs(empty_line(), runs, max_width as int, mf),
                !run_done ==> ({
                    let pp = spec_place_pieces(
                        cur@,
                        spec_split_nl(rt@.skip(pos as int)),
                        at,
                        max_width as int,
                        mf,
                    );
                    let rr = spec_place_runs(pp.1, runs.skip(ri + 1), max_width as int, mf);
                    full == ((lines_view(done@) + pp.0) + rr.0, rr.1)
                }),
                run_done ==> ({
                    let rr = spec_place_runs(cur@, runs.skip(ri + 1), max_width as int, mf);
                    full == (lines_view(done@) + rr.0, rr.1)
                }),
            decreases (if run_done { 0int } else { 1int }), n - pos,
        {
            let ghost rest = rt@.skip(pos as int);
            let ghost pre_done = lines_view(done@);
            let ghost pre_cur = cur@;
            let ghost pieces = spec_split_nl(rest);
            match scan_char(rt, pos, '\n') {
                Some(j) => {
                    proof {
                        assert(find_char(rest, '\n') == Some(j - pos));
                        assert(rest.take(j - pos) =~= rt@.subrange(pos as int, j as int));
                        assert(rest.skip(j - pos + 1) =~= rt@.skip(j + 1));
                        lemma_split_nl_len(rt@.skip(j + 1));
                        assert(pieces == seq![rest.take(j - pos)] + spec_split_nl(
                            rt@.skip(j + 1),
                        ));
                        assert(pieces.skip(1) =~= spec_split_nl(rt@.skip(j + 1)));
                        assert(pieces[0] == rest.take(j - pos));
                    }
                    let (mut d1, c1) = place_piece(cur, rt, pos, j, at, max_width, measurer);
                    proof {
                        assert(lines_view(done@ + d1@) =~= lines_view(done@) + lines_view(d1@));
                    }
                    done.append(&mut d1);
                    proof {
                        let pd = lines_view(done@);
                        assert(lines_view(done@.push(c1)) =~= pd.push(c1@));
                    }
                    done.push(c1);
                    cur = Line::new();
                    pos = j + 1;
                    proof {
                        let p1 = spec_place_piece(pre_cur, pieces[0], at, max_width as int, mf);
                        let p2 = spec_place_pieces(
                            empty_line(),
                            pieces.skip(1),
                            at,
                            max_width as int,
                            mf,
                        );
                        let pp_old = spec_place_pieces(pre_cur, pieces, at, max_width as int, mf);
                        assert(pp_old == ((p1.0 + seq![p1.1]) + p2.0, p2.1));
                        assert(lines_view(done@) =~= (pre_done + p1.0).push(p1.1));
                        let rr = spec_place_runs(p2.1, runs.skip(ri + 1), max_width as int, mf);
                        assert(((pre_done + pp_old.0) + rr.0) =~= ((lines_view(done@) + p2.0)
                            + rr.0));
                    }
                },
                None => {
                    proof {
                        assert(rest =~= rt@.subrange(pos as int, n as int));
                    }
                    let (mut d1, c1) = place_piece(cur, rt, pos, n, at, max_width, measurer);
                    proof {
                        assert(lines_view(done@ + d1@) =~= lines_view(done@) + lines_view(d1@));
                    }
                    done.append(&mut d1);
                    cur = c1;
                    run_done = true;
                },
            }
        }
        ri += 1;
    }
    proof {
        assert(runs.skip(text.0.len() as int).len() == 0);
        let full = spec_place_runs(empty_line(), runs, max_width as int, mf);
        assert(full == (lines_view(done@) + Seq::<SpecLine>::empty(), cur@));
        assert(lines_view(done@) + Seq::<SpecLine>::empty() =~= lines_view(done@));
        assert(lines_view(done@.push(cur)) =~= lines_view(done@).push(cur@));
        assert(lines_view(done@) + seq![cur@] =~= lines_view(done@).push(cur@));
    }
    done.push(cur);
    done
}

/// The simplest oracle: every character is one unit wide (saturating at
/// the type's limit) and every fragment has one fixed height.
#[derive(Clone, Copy, Debug, PartialEq, Eq, Structural)]
pub struct UnitMeasure {
    pub line_height: u32,
}

impl Measure for UnitMeasure {
    open spec fn spec_measure(&self, text: Seq<char>) -> (u32, u32) {
        (
            if text.len() > u32::MAX {
                u32::MAX
            } else {
                text.len() as u32
            },
            self.line_height,
        )
    }

    fn measure(&self, text: &str) -> (r: (u32, u32))
        ensures
            r == self.spec_measure(text@),
    {
        let n = text.unicode_len();
        let w = if n as u64 > u32::MAX as u64 {
            u32::MAX
        } else {
            n as u32
        };
        (w, self.line_height)
    }
}

} // verus!
