//! The markup tokenizer.
//!
//! A raw string is consumed left to right, one character at a time with a
//! single character of lookahead, and turned into a flat stream of tokens:
//! `<name:` opens a tag scope, a bare `>` closes the most recent scope,
//! `<<` and `<>` escape a literal `<` and `>`, and everything else is
//! literal text, one token per character. An empty tag name before `:`,
//! and an input that ends in the middle of a tag opening, are malformed.

use vstd::prelude::*;

verus! {

/// Why a dialog string failed to parse.
#[derive(Clone, Copy, Debug, PartialEq, Eq, Structural)]
pub enum ParseError {
    /// An empty tag name before `:`, or input ending mid-tag.
    MalformedMarkup,
    /// A tag name absent from the rule table.
    UnknownRule,
    /// A close token with no open scope.
    UnbalancedClose,
}

/// One token of the markup stream.
#[derive(Clone, Debug, PartialEq, Eq)]
pub enum Token {
    StartSegment(String),
    EndSegment,
    Text(String),
}

/// The mathematical form of a token.
pub enum SpecToken {
    StartSegment(Seq<char>),
    EndSegment,
    Text(Seq<char>),
}

impl View for Token {
    type V = SpecToken;

    open spec fn view(&self) -> SpecToken {
        match self {
            Token::StartSegment(s) => SpecToken::StartSegment(s@),
            Token::EndSegment => SpecToken::EndSegment,
            Token::Text(s) => SpecToken::Text(s@),
        }
    }
}

/// The position of the first occurrence of `c` in `s`, if any.
pub open spec fn find_char(s: Seq<char>, c: char) -> Option<int>
    decreases s.len(),
{
    if s.len() == 0 {
        None
    } else if s[0] == c {
        Some(0)
    } else {
        match find_char(s.skip(1), c) {
            None => None,
            Some(i) => Some(i + 1),
        }
    }
}

/// `find_char` returns the first occurrence: the character is there, and no
/// earlier position holds it.
pub proof fn lemma_find_char(s: Seq<char>, c: char)
    ensures
        match find_char(s, c) {
            Some(i) => 0 <= i < s.len() && s[i] == c && (forall|j: int| 0 <= j < i ==> s[j] != c),
            None => forall|j: int| 0 <= j < s.len() ==> s[j] != c,
        },
    decreases s.len(),
{
    if s.len() > 0 && s[0] != c {
        lemma_find_char(s.skip(1), c);
        if find_char(s.skip(1), c) is None {
            assert forall|j: int| 0 <= j < s.len() implies s[j] != c by {
                if j > 0 {
                    assert(s.skip(1)[j - 1] == s[j]);
                }
            }
        } else {
            let i = find_char(s.skip(1), c).unwrap();
            assert(s.skip(1)[i] == s[i + 1]);
            assert forall|j: int| 0 <= j < i + 1 implies s[j] != c by {
                if j > 0 {
                    assert(s.skip(1)[j - 1] == s[j]);
                }
            }
        }
    }
}

/// The token stream of a markup string, or `None` where the input is
/// malformed (an empty tag name before `:`, or the input ending inside an
/// unfinished tag opening).
pub open spec fn spec_tokenize(s: Seq<char>) -> Option<Seq<SpecToken>>
    decreases s.len(),
{
    if s.len() == 0 {
        Some(Seq::empty())
    } else if s[0] == '>' {
        prepend_token(SpecToken::EndSegment, spec_tokenize(s.skip(1)))
    } else if s[0] != '<' {
        prepend_token(SpecToken::Text(seq![s[0]]), spec_tokenize(s.skip(1)))
    } else if s.len() == 1 {
        None
    } else if s[1] == '<' {
        prepend_token(SpecToken::Text(seq!['<']), spec_tokenize(s.skip(2)))
    } else if s[1] == '>' {
        prepend_token(SpecToken::Text(seq!['>']), spec_tokenize(s.skip(2)))
    } else if s[1] == ':' {
        None
    } else {
        match find_char(s.skip(2), ':') {
            None => None,
            Some(k) => if 0 <= k < s.len() - 2 {
                prepend_token(
                    SpecToken::StartSegment(s.subrange(1, 2 + k)),
                    spec_tokenize(s.skip(3 + k)),
                )
            } else {
                None
            },
        }
    }
}

pub open spec fn prepend_token(t: SpecToken, rest: Option<Seq<SpecToken>>) -> Option<
    Seq<SpecToken>,
> {
    match rest {
        None => None,
        Some(ts) => Some(seq![t] + ts),
    }
}

/// The views of a vector of tokens.
pub open spec fn tokens_view(toks: Seq<Token>) -> Seq<SpecToken> {
    toks.map_values(|t: Token| t@)
}

/// The first occurrence of `c` at or after `from`, by character position.
pub(crate) fn scan_char(s: &str, from: usize, c: char) -> (r: Option<usize>)
    requires
        from <= s@.len(),
    ensures
        match r {
            Some(j) => from <= j < s@.len() && s@[j as int] == c && find_char(
                s@.skip(from as int),
                c,
            ) == Some(j - from),
            None => find_char(s@.skip(from as int), c) is None,
        },
{
    let n = s.unicode_len();
    let mut j = from;
    while j < n
        invariant
            from <= j <= n,
            n == s@.len(),
            forall|t: int| from <= t < j ==> s@[t] != c,
        decreases n - j,
    {
        if s.get_char(j) == c {
            proof {
                let sk = s@.skip(from as int);
                lemma_find_char(sk, c);
                assert(sk[j - from] == s@[j as int]);
                match find_char(sk, c) {
                    None => {
                        assert(false);
                    },
                    Some(i) => {
                        assert(sk[i] == c);
                        assert(s@[i + from] == c);
                        if i < j - from {
                            assert(false);
                        }
                        if i > j - from {
                            assert(false);
                        }
                    },
                }
            }
            return Some(j);
        }
        j += 1;
    }
    proof {
        let sk = s@.skip(from as int);
        lemma_find_char(sk, c);
        match find_char(sk, c) {
            None => {},
            Some(i) => {
                assert(sk[i] == c);
                assert(s@[i + from] == c);
                assert(false);
            },
        }
    }
    None
}

/// Tokenize a markup string, strictly left to right with one character of
/// lookahead, into the stream that `spec_tokenize` describes.
pub fn tokenize(s: &str) -> (r: Result<Vec<Token>, ParseError>)
    ensures
        match r {
            Ok(toks) => spec_tokenize(s@) == Some(tokens_view(toks@)),
            Err(e) => spec_tokenize(s@) is None && e == ParseError::MalformedMarkup,
        },
{
    let n = s.unicode_len();
    let mut toks: Vec<Token> = Vec::new();
    let mut i: usize = 0;
    proof {
        assert(s@.skip(0) =~= s@);
        assert(tokens_view(toks@) =~= Seq::<SpecToken>::empty());
        if let Some(ts) = spec_tokenize(s@) {
            assert(Seq::<SpecToken>::empty() + ts =~= ts);
        }
    }
    while i < n
        invariant
            i <= n,
            n == s@.len(),
            spec_tokenize(s@) == prepend_all(tokens_view(toks@), spec_tokenize(s@.skip(i as int))),
        decreases n - i,
    {
        let ghost pre = tokens_view(toks@);
        let ghost suffix = s@.skip(i as int);
        proof {
            assert(suffix[0] == s@[i as int]);
        }
        let c = s.get_char(i);
        if c == '>' {
            proof {
                assert(suffix.skip(1) =~= s@.skip(i + 1));
            }
            toks.push(Token::EndSegment);
            i += 1;
        } else if c != '<' {
            let t = s.substring_char(i, i + 1);
            proof {
                assert(suffix.skip(1) =~= s@.skip(i + 1));
                assert(t@ =~= seq![s@[i as int]]);
            }
            toks.push(Token::Text(t.to_owned()));
            i += 1;
        } else if i + 1 == n {
            proof {
                assert(suffix.len() == 1);
            }
            return Err(ParseError::MalformedMarkup);
        } else {
            proof {
                assert(suffix[1] == s@[i + 1]);
            }
            let c2 = s.get_char(i + 1);
            if c2 == '<' {
                let t = s.substring_char(i, i + 1);
                proof {
                    assert(suffix.skip(2) =~= s@.skip(i + 2));
                    assert(t@ =~= seq!['<']);
                }
                toks.push(Token::Text(t.to_owned()));
                i += 2;
            } else if c2 == '>' {
                let t = s.substring_char(i + 1, i + 2);
                proof {
                    assert(suffix.skip(2) =~= s@.skip(i + 2));
                    assert(t@ =~= seq!['>']);
                }
                toks.push(Token::Text(t.to_owned()));
                i += 2;
            } else if c2 == ':' {
                return Err(ParseError::MalformedMarkup);
            } else {
                proof {
                    assert(suffix.skip(2) =~= s@.skip(i + 2));
                }
                match scan_char(s, i + 2, ':') {
                    None => {
                        return Err(ParseError::MalformedMarkup);
                    },
                    Some(j) => {
                        let name = s.substring_char(i + 1, j);
                        proof {
                            let k = j - (i + 2);
                            assert(find_char(suffix.skip(2), ':') == Some(k));
                            assert(suffix.subrange(1, 2 + k) =~= s@.subrange(i + 1, j as int));
                            assert(suffix.skip(3 + k) =~= s@.skip(j + 1));
                        }
                        toks.push(Token::StartSegment(name.to_owned()));
                        i = j + 1;
                    },
                }
            }
        }
        proof {
            let t = toks@.last();
            assert(tokens_view(toks@) =~= pre.push(t@));
            assert forall|x: SpecToken, rest: Option<Seq<SpecToken>>|
                prepend_all(pre, prepend_token(x, rest)) == prepend_all(pre.push(x), rest) by {
                match rest {
                    None => {},
                    Some(ts) => {
                        assert(pre + (seq![x] + ts) =~= pre.push(x) + ts);
                    },
                }
            }
        }
    }
    proof {
        assert(s@.skip(n as int) =~= Seq::<char>::empty());
        assert(tokens_view(toks@) + Seq::<SpecToken>::empty() =~= tokens_view(toks@));
    }
    Ok(toks)
}

pub open spec fn prepend_all(pre: Seq<SpecToken>, rest: Option<Seq<SpecToken>>) -> Option<
    Seq<SpecToken>,
> {
    match rest {
        None => None,
        Some(ts) => Some(pre + ts),
    }
}

/// A string free of `<` and `>` tokenizes to one literal text token per
/// character, in order: no markup, nothing lost.
pub proof fn lemma_tokenize_plain(s: Seq<char>)
    requires
        forall|i: int| 0 <= i < s.len() ==> s[i] != '<' && s[i] != '>',
    ensures
        spec_tokenize(s) is Some,
        spec_tokenize(s).unwrap().len() == s.len(),
        forall|i: int|
            0 <= i < s.len() ==> spec_tokenize(s).unwrap()[i] == SpecToken::Text(seq![s[i]]),
    decreases s.len(),
{
    if s.len() > 0 {
        assert(forall|j: int| 0 <= j < s.skip(1).len() ==> s.skip(1)[j] == s[j + 1]);
        lemma_tokenize_plain(s.skip(1));
        let rest = spec_tokenize(s.skip(1)).unwrap();
        assert(spec_tokenize(s) == Some(seq![SpecToken::Text(seq![s[0]])] + rest));
        assert forall|i: int| 0 <= i < s.len() implies spec_tokenize(s).unwrap()[i]
            == SpecToken::Text(seq![s[i]]) by {
            if i > 0 {
                assert((seq![SpecToken::Text(seq![s[0]])] + rest)[i] == rest[i - 1]);
            }
        }
    }
}

} // verus!
