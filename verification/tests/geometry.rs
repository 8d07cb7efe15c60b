use dialog_markup::dialog::{dialog_box_rect, fragment_positions, speaker_box_rect};
use dialog_markup::layout::{layout, Dimen, Line, Segment, UnitMeasure};
use dialog_markup::pretty_string::PrettyString;
use dialog_markup::style::Attributes;

#[test]
fn box_sits_at_viewport_bottom() {
    let r = dialog_box_rect(
        Dimen {
            width: 640,
            height: 480,
        },
        128,
    );
    assert_eq!((r.x, r.y, r.width, r.height), (0, 352, 640, 128));
}

#[test]
fn speaker_chip_sits_above_box_padded_to_name() {
    let r = speaker_box_rect(
        Dimen {
            width: 640,
            height: 480,
        },
        128,
        16,
        16,
        Dimen {
            width: 50,
            height: 18,
        },
    );
    assert_eq!(r.x, 16);
    assert_eq!(r.y, 480 - 128 - 32 - 18);
    assert_eq!(r.width, 50 + 32);
    assert_eq!(r.height, 32 + 18);
}

#[test]
fn fragments_advance_cursors_and_bottom_align() {
    // two runs on one line, heights 3; second line after a hard break
    let text = PrettyString(vec![
        ("ab".to_owned(), Attributes::default()),
        ("cd\nef".to_owned(), Attributes::default()),
    ]);
    let m = UnitMeasure { line_height: 3 };
    let lines = layout(&text, 10, &m);
    assert_eq!(lines.len(), 2);
    let positions = fragment_positions(&lines, 16, 100, 4);
    assert_eq!(positions.len(), 2);
    // line 1: "ab" at x=16, "cd" at x=18; tops at 100 (heights equal)
    assert_eq!(positions[0], vec![(16, 100), (18, 100)]);
    // line 2 starts below line 1's height plus spacing
    assert_eq!(positions[1], vec![(16, 107)]);
}

#[test]
fn shorter_fragment_bottom_aligns_to_tallest() {
    let line = Line {
        width: 5,
        height: 10,
        segments: vec![
            Segment {
                text: "tall".to_owned(),
                attributes: Attributes::default(),
                size: Dimen {
                    width: 4,
                    height: 10,
                },
            },
            Segment {
                text: "s".to_owned(),
                attributes: Attributes::default(),
                size: Dimen {
                    width: 1,
                    height: 4,
                },
            },
        ],
    };
    let positions = fragment_positions(&vec![line], 0, 0, 0);
    // the short fragment drops down so its bottom meets the line's bottom
    assert_eq!(positions[0], vec![(0, 0), (4, 6)]);
}
