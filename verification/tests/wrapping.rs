use dialog_markup::layout::{layout, Line, UnitMeasure};
use dialog_markup::pretty_string::PrettyString;
use dialog_markup::style::{Attributes, Color};

fn measurer() -> UnitMeasure {
    UnitMeasure { line_height: 10 }
}

fn plain(text: &str) -> PrettyString {
    PrettyString(vec![(text.to_owned(), Attributes::default())])
}

fn line_texts(lines: &[Line]) -> Vec<String> {
    lines
        .iter()
        .map(|l| {
            l.segments
                .iter()
                .map(|s| s.text.as_str())
                .collect::<Vec<_>>()
                .join("")
        })
        .collect()
}

#[test]
fn exact_fit_occupies_one_line() {
    let lines = layout(&plain("abcdef"), 6, &measurer());
    assert_eq!(lines.len(), 1);
    assert_eq!(lines[0].segments.len(), 1);
    assert_eq!(lines[0].segments[0].text, "abcdef");
    assert_eq!(lines[0].width, 6);
    assert_eq!(lines[0].height, 10);
    assert_eq!(lines[0].segments[0].size.width, 6);
}

#[test]
fn one_unit_over_splits_across_two_lines() {
    let lines = layout(&plain("abcdef"), 5, &measurer());
    assert!(lines.len() >= 2);
    let texts = line_texts(&lines);
    assert_eq!(texts.join(""), "abcdef");
    assert_eq!(texts[0], "abcde");
    assert_eq!(texts[1], "f");
    let fragments: usize = lines.iter().map(|l| l.segments.len()).sum();
    assert!(fragments >= 2);
}

#[test]
fn hard_break_always_separates() {
    // width room enough for both pieces together: the break must still come
    let lines = layout(&plain("A\nB"), 100, &measurer());
    assert_eq!(lines.len(), 2);
    assert_eq!(line_texts(&lines), vec!["A", "B"]);
}

#[test]
fn hard_break_at_zero_width_still_separates() {
    let lines = layout(&plain("A\nB"), 1, &measurer());
    let texts = line_texts(&lines);
    assert_eq!(texts.join(""), "AB");
    // A's line comes strictly before B's
    let a_line = texts.iter().position(|t| t.contains('A')).unwrap();
    let b_line = texts.iter().position(|t| t.contains('B')).unwrap();
    assert!(a_line < b_line);
}

#[test]
fn end_to_end_two_styled_lines() {
    let default = Attributes::default();
    let blue = Attributes {
        font: None,
        color: Some(Color::rgb(0, 0, 255)),
    };
    let text = PrettyString(vec![
        ("Hello ".to_owned(), default),
        ("world".to_owned(), blue),
    ]);
    // width 6 fits "Hello " but not "Hello world"
    let lines = layout(&text, 6, &measurer());
    assert_eq!(lines.len(), 2);
    assert_eq!(lines[0].segments.len(), 1);
    assert_eq!(lines[0].segments[0].text, "Hello ");
    assert_eq!(lines[0].segments[0].attributes, default);
    assert_eq!(lines[0].segments[0].size.width, 6);
    assert_eq!(lines[0].segments[0].size.height, 10);
    assert_eq!(lines[1].segments.len(), 1);
    assert_eq!(lines[1].segments[0].text, "world");
    assert_eq!(lines[1].segments[0].attributes, blue);
    assert_eq!(lines[1].segments[0].size.width, 5);
    assert_eq!(lines[1].segments[0].size.height, 10);
}

#[test]
fn empty_text_gives_one_empty_line() {
    let lines = layout(&PrettyString(vec![]), 10, &measurer());
    assert_eq!(lines.len(), 1);
    assert_eq!(lines[0].segments.len(), 0);
    assert_eq!(lines[0].width, 0);
    assert_eq!(lines[0].height, 0);
}

#[test]
fn overwide_characters_go_one_per_line() {
    // at width zero not even one character fits; one is taken anyway so
    // layout always makes progress
    let lines = layout(&plain("ab"), 0, &measurer());
    assert_eq!(line_texts(&lines), vec!["a", "b", ""]);
}

#[test]
fn run_continues_on_open_line_after_wrap() {
    // "abcd" wraps at width 3 into "abc" and "d"; the following run "ef"
    // continues on the line "d" left open
    let text = PrettyString(vec![
        ("abcd".to_owned(), Attributes::default()),
        ("ef".to_owned(), Attributes::default()),
    ]);
    let lines = layout(&text, 3, &measurer());
    assert_eq!(line_texts(&lines), vec!["abc", "def"]);
    assert_eq!(lines[1].segments.len(), 2);
}

#[test]
fn height_is_tallest_fragment() {
    let short = UnitMeasure { line_height: 4 };
    let lines = layout(&plain("xy"), 10, &short);
    assert_eq!(lines.len(), 1);
    assert_eq!(lines[0].height, 4);
}
