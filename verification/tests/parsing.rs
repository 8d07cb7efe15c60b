use dialog_markup::pretty_string::PrettyString;
use dialog_markup::rules::RuleTable;
use dialog_markup::style::{Attributes, Color, FontId};
use dialog_markup::tokenize::{tokenize, ParseError, Token};

fn red() -> Color {
    Color::rgb(255, 0, 0)
}

fn blue() -> Color {
    Color::rgb(0, 0, 255)
}

fn table() -> RuleTable {
    let mut t = RuleTable::new();
    t.insert(
        "red",
        Attributes {
            font: None,
            color: Some(red()),
        },
    );
    t.insert(
        "blue",
        Attributes {
            font: None,
            color: Some(blue()),
        },
    );
    t.insert(
        "bold",
        Attributes {
            font: Some(FontId(7)),
            color: None,
        },
    );
    t
}

#[test]
fn tokenize_escaped_open() {
    let toks = tokenize("<<").unwrap();
    assert_eq!(toks, vec![Token::Text("<".to_owned())]);
}

#[test]
fn tokenize_escaped_close() {
    let toks = tokenize("<>").unwrap();
    assert_eq!(toks, vec![Token::Text(">".to_owned())]);
}

#[test]
fn tokenize_plain_text_one_token_per_char() {
    let input = "plain text";
    let toks = tokenize(input).unwrap();
    assert_eq!(toks.len(), input.chars().count());
    let mut joined = String::new();
    for t in &toks {
        match t {
            Token::Text(s) => {
                assert_eq!(s.chars().count(), 1);
                joined.push_str(s);
            }
            _ => panic!("expected only literal text tokens"),
        }
    }
    assert_eq!(joined, input);
}

#[test]
fn tokenize_tag_and_close() {
    let toks = tokenize("<red:a>").unwrap();
    assert_eq!(
        toks,
        vec![
            Token::StartSegment("red".to_owned()),
            Token::Text("a".to_owned()),
            Token::EndSegment,
        ]
    );
}

#[test]
fn tokenize_name_may_hold_angle_after_first_char() {
    let toks = tokenize("<a>b:x>").unwrap();
    assert_eq!(
        toks,
        vec![
            Token::StartSegment("a>b".to_owned()),
            Token::Text("x".to_owned()),
            Token::EndSegment,
        ]
    );
}

#[test]
fn tokenize_unterminated_tag_is_malformed() {
    assert_eq!(tokenize("<b"), Err(ParseError::MalformedMarkup));
    assert_eq!(tokenize("<"), Err(ParseError::MalformedMarkup));
}

#[test]
fn nesting_inner_overrides_outer() {
    let mut t = RuleTable::new();
    t.insert(
        "a",
        Attributes {
            font: None,
            color: Some(red()),
        },
    );
    t.insert(
        "b",
        Attributes {
            font: Some(FontId(3)),
            color: None,
        },
    );
    let p = PrettyString::parse("<a:<b:X>Y>", &t).unwrap();
    assert_eq!(p.0.len(), 2);
    assert_eq!(p.0[0].0, "X");
    assert_eq!(
        p.0[0].1,
        Attributes {
            font: Some(FontId(3)),
            color: Some(red()),
        }
    );
    assert_eq!(p.0[1].0, "Y");
    assert_eq!(
        p.0[1].1,
        Attributes {
            font: None,
            color: Some(red()),
        }
    );
}

#[test]
fn error_malformed_markup() {
    let t = table();
    assert_eq!(
        PrettyString::parse("<:x>", &t),
        Err(ParseError::MalformedMarkup)
    );
}

#[test]
fn error_unknown_rule() {
    let t = table();
    assert_eq!(
        PrettyString::parse("<unknown:x>", &t),
        Err(ParseError::UnknownRule)
    );
}

#[test]
fn error_unbalanced_close() {
    let t = table();
    assert_eq!(
        PrettyString::parse(">", &t),
        Err(ParseError::UnbalancedClose)
    );
}

#[test]
fn len_counts_literal_characters_only() {
    let t = table();
    let p = PrettyString::parse("ab<red:cd>ef", &t).unwrap();
    assert_eq!(p.len(), 6);
    assert_eq!(p.0.len(), 3);
    assert_eq!(p.0[0].0, "ab");
    assert_eq!(p.0[1].0, "cd");
    assert_eq!(p.0[2].0, "ef");
    assert_eq!(p.0[1].1.color, Some(red()));
}

#[test]
fn escapes_join_adjacent_text_into_one_run() {
    let t = table();
    let p = PrettyString::parse("a<<b<>c", &t).unwrap();
    assert_eq!(p.0.len(), 1);
    assert_eq!(p.0[0].0, "a<b>c");
    assert_eq!(p.len(), 5);
}

#[test]
fn unclosed_scope_is_tolerated() {
    let t = table();
    let p = PrettyString::parse("<red:x", &t).unwrap();
    assert_eq!(p.0.len(), 1);
    assert_eq!(p.0[0].0, "x");
    assert_eq!(p.0[0].1.color, Some(red()));
}

#[test]
fn empty_input_parses_to_no_runs() {
    let t = table();
    let p = PrettyString::parse("", &t).unwrap();
    assert_eq!(p.0.len(), 0);
    assert_eq!(p.len(), 0);
}

#[test]
fn rule_table_lookup_and_shadowing() {
    let mut t = RuleTable::new();
    assert_eq!(t.get("x"), None);
    t.insert(
        "x",
        Attributes {
            font: None,
            color: Some(red()),
        },
    );
    assert_eq!(
        t.get("x"),
        Some(Attributes {
            font: None,
            color: Some(red()),
        })
    );
    t.insert(
        "x",
        Attributes {
            font: None,
            color: Some(blue()),
        },
    );
    assert_eq!(
        t.get("x"),
        Some(Attributes {
            font: None,
            color: Some(blue()),
        })
    );
}

#[test]
fn override_with_takes_set_fields() {
    let outer = Attributes {
        font: Some(FontId(1)),
        color: Some(red()),
    };
    let inner = Attributes {
        font: Some(FontId(2)),
        color: None,
    };
    let merged = outer.override_with(&inner);
    assert_eq!(merged.font, Some(FontId(2)));
    assert_eq!(merged.color, Some(red()));
    let nothing = Attributes::default();
    assert_eq!(outer.override_with(&nothing), outer);
}
