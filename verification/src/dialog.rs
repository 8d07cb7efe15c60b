//! Geometry of the dialog box: where the box, the speaker chip and every
//! laid-out fragment are drawn.
//!
//! The box sits at the bottom of the viewport; an optional speaker-name
//! chip sits above it, sized to the measured name. Fragments advance a
//! horizontal cursor by their measured width and lines advance a vertical
//! cursor by the line height plus a fixed spacing; each fragment's bottom
//! aligns to its line's tallest fragment, an approximation of baseline
//! alignment that is kept as it is.

use vstd::prelude::*;
use crate::layout::{Line, SpecSegment, SpecLine, Dimen, lines_view};

verus! {

/// A rectangle in viewport coordinates.
#[derive(Clone, Copy, Debug, PartialEq, Eq, Structural)]
pub struct Rect {
    pub x: i64,
    pub y: i64,
    pub width: i64,
    pub height: i64,
}

/// The dialog box: full viewport width, a fixed height, anchored to the
/// bottom edge.
pub fn dialog_box_rect(viewport: Dimen, box_height: u32) -> (r: Rect)
    requires
        box_height <= viewport.height,
    ensures
        r.x == 0,
        r.y == viewport.height - box_height,
        r.width == viewport.width,
        r.height == box_height,
{
    Rect {
        x: 0,
        y: viewport.height as i64 - box_height as i64,
        width: viewport.width as i64,
        height: box_height as i64,
    }
}

/// The speaker-name chip: padded around the measured name, sitting on top
/// of the dialog box.
pub fn speaker_box_rect(
    viewport: Dimen,
    box_height: u32,
    h_padding: u32,
    v_padding: u32,
    name_size: Dimen,
) -> (r: Rect)
    ensures
        r.x == h_padding,
        r.y == viewport.height - box_height - 2 * v_padding - name_size.height,
        r.width == name_size.width + 2 * h_padding,
        r.height == 2 * v_padding + name_size.height,
{
    Rect {
        x: h_padding as i64,
        y: viewport.height as i64 - box_height as i64 - 2 * (v_padding as i64)
            - name_size.height as i64,
        width: name_size.width as i64 + 2 * (h_padding as i64),
        height: 2 * (v_padding as i64) + name_size.height as i64,
    }
}

/// The horizontal offset of segment `j` within its line: the widths of the
/// segments before it.
pub open spec fn seg_x(segs: Seq<SpecSegment>, j: int) -> int
    decreases j,
{
    if j <= 0 {
        0
    } else {
        seg_x(segs, j - 1) + segs[j - 1].width
    }
}

/// The vertical offset of line `i`: the heights of the lines before it,
/// each followed by the fixed spacing.
pub open spec fn line_y(ls: Seq<SpecLine>, spacing: int, i: int) -> int
    decreases i,
{
    if i <= 0 {
        0
    } else {
        line_y(ls, spacing, i - 1) + ls[i - 1].height + spacing
    }
}

/// With no negative widths the horizontal cursor never moves back.
proof fn lemma_seg_x_mono(segs: Seq<SpecSegment>, j1: int, j2: int)
    requires
        forall|k: int| 0 <= k < segs.len() ==> segs[k].width >= 0,
        0 <= j1 <= j2 <= segs.len(),
    ensures
        seg_x(segs, j1) <= seg_x(segs, j2),
    decreases j2 - j1,
{
    if j1 < j2 {
        lemma_seg_x_mono(segs, j1, j2 - 1);
    }
}

/// With no negative heights the vertical cursor never moves back.
proof fn lemma_line_y_mono(ls: Seq<SpecLine>, spacing: int, i1: int, i2: int)
    requires
        forall|k: int| 0 <= k < ls.len() ==> ls[k].height >= 0,
        spacing >= 0,
        0 <= i1 <= i2 <= ls.len(),
    ensures
        line_y(ls, spacing, i1) <= line_y(ls, spacing, i2),
    decreases i2 - i1,
{
    if i1 < i2 {
        lemma_line_y_mono(ls, spacing, i1, i2 - 1);
    }
}

/// The top-left corner at which each fragment is drawn, line by line:
/// fragment `j` of line `i` sits at the cursor position, its bottom
/// aligned to the line's tallest fragment.
pub open spec fn spec_fragment_position(
    ls: Seq<SpecLine>,
    origin_x: int,
    origin_y: int,
    spacing: int,
    i: int,
    j: int,
) -> (int, int) {
    (
        origin_x + seg_x(ls[i].segments, j),
        origin_y + line_y(ls, spacing, i) + ls[i].height - ls[i].segments[j].height,
    )
}

/// Compute every fragment's draw position, in reading order, one inner
/// vector per line.
pub fn fragment_positions(
    lines: &Vec<Line>,
    origin_x: i64,
    origin_y: i64,
    line_spacing: u32,
) -> (r: Vec<Vec<(i64, i64)>>)
    requires
        origin_y >= i64::MIN + 0x1_0000_0000,
        forall|i: int|
            0 <= i < lines@.len() ==> origin_x + seg_x(
                #[trigger] lines@[i]@.segments,
                lines@[i]@.segments.len() as int,
            ) <= i64::MAX,
        origin_y + line_y(lines_view(lines@), line_spacing as int, lines@.len() as int)
            <= i64::MAX,
    ensures
        r@.len() == lines@.len(),
        forall|i: int| 0 <= i < r@.len() ==> r@[i]@.len() == lines@[i]@.segments.len(),
        forall|i: int, j: int|
            0 <= i < r@.len() && 0 <= j < r@[i]@.len() ==> (#[trigger] r@[i]@[j]).0
                == spec_fragment_position(
                lines_view(lines@),
                origin_x as int,
                origin_y as int,
                line_spacing as int,
                i,
                j,
            ).0 && r@[i]@[j].1 == spec_fragment_position(
                lines_view(lines@),
                origin_x as int,
                origin_y as int,
                line_spacing as int,
                i,
                j,
            ).1,
{
    let ghost ls = lines_view(lines@);
    let mut out: Vec<Vec<(i64, i64)>> = Vec::new();
    let mut y: i64 = origin_y;
    let mut i: usize = 0;
    proof {
        assert forall|k: int| 0 <= k < ls.len() implies #[trigger] ls[k].height >= 0 by {
            assert(ls[k] == lines@[k]@);
        }
    }
    while i < lines.len()
        invariant
            i <= lines.len(),
            ls == lines_view(lines@),
            out@.len() == i,
            y == origin_y + line_y(ls, line_spacing as int, i as int),
            origin_y >= i64::MIN + 0x1_0000_0000,
            forall|k: int| 0 <= k < ls.len() ==> #[trigger] ls[k].height >= 0,
            origin_y + line_y(ls, line_spacing as int, ls.len() as int) <= i64::MAX,
            forall|k: int|
                0 <= k < lines@.len() ==> origin_x + seg_x(
                    #[trigger] lines@[k]@.segments,
                    lines@[k]@.segments.len() as int,
                ) <= i64::MAX,
            forall|k: int| 0 <= k < i ==> out@[k]@.len() == lines@[k]@.segments.len(),
            forall|k: int, j: int|
                0 <= k < i && 0 <= j < out@[k]@.len() ==> (#[trigger] out@[k]@[j]).0
                    == spec_fragment_position(
                    ls,
                    origin_x as int,
                    origin_y as int,
                    line_spacing as int,
                    k,
                    j,
                ).0 && out@[k]@[j].1 == spec_fragment_position(
                    ls,
                    origin_x as int,
                    origin_y as int,
                    line_spacing as int,
                    k,
                    j,
                ).1,
        decreases lines.len() - i,
    {
        let line = &lines[i];
        let ghost segs = ls[i as int].segments;
        proof {
            assert(ls[i as int] == lines@[i as int]@);
            assert forall|k: int| 0 <= k < segs.len() implies #[trigger] segs[k].width >= 0 by {
                assert(segs[k] == line.segments@[k]@);
            }
            lemma_line_y_mono(ls, line_spacing as int, 0, i as int);
            lemma_line_y_mono(ls, line_spacing as int, i + 1, ls.len() as int);
        }
        let mut row: Vec<(i64, i64)> = Vec::new();
        let mut x: i64 = origin_x;
        let mut j: usize = 0;
        while j < line.segments.len()
            invariant
                j <= line.segments.len(),
                segs == ls[i as int].segments,
                i < lines.len(),
                ls == lines_view(lines@),
                ls[i as int] == lines@[i as int]@,
                segs.len() == line.segments@.len(),
                line == &lines[i as int],
                row@.len() == j,
                x == origin_x + seg_x(segs, j as int),
                y == origin_y + line_y(ls, line_spacing as int, i as int),
                y >= origin_y >= i64::MIN + 0x1_0000_0000,
                y + ls[i as int].height + line_spacing <= i64::MAX,
                forall|k: int| 0 <= k < segs.len() ==> #[trigger] segs[k].width >= 0,
                origin_x + seg_x(segs, segs.len() as int) <= i64::MAX,
                forall|q: int|
                    0 <= q < j ==> (#[trigger] row@[q]).0 == spec_fragment_position(
                        ls,
                        origin_x as int,
                        origin_y as int,
                        line_spacing as int,
                        i as int,
                        q,
                    ).0 && row@[q].1 == spec_fragment_position(
                        ls,
                        origin_x as int,
                        origin_y as int,
                        line_spacing as int,
                        i as int,
                        q,
                    ).1,
            decreases line.segments.len() - j,
        {
            proof {
                assert(segs[j as int] == line.segments@[j as int]@);
                lemma_seg_x_mono(segs, j + 1, segs.len() as int);
            }
            let seg = &line.segments[j];
            let sy = y + line.height as i64 - seg.size.height as i64;
            row.push((x, sy));
            x = x + seg.size.width as i64;
            j += 1;
        }
        proof {
            assert(line_y(ls, line_spacing as int, i + 1) == line_y(
                ls,
                line_spacing as int,
                i as int,
            ) + ls[i as int].height + line_spacing);
        }
        out.push(row);
        y = y + line.height as i64 + line_spacing as i64;
        i += 1;
    }
    out
}

} // verus!
