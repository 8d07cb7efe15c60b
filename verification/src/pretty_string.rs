//! Styled text: the parse driver that ties tokenizer and resolver together.
//!
//! Driving the token stream keeps an accumulating literal-text buffer, a
//! stack of open tag scopes, and the output run sequence. A scope change
//! flushes the buffer as one run styled by the scopes open at that point;
//! adjacent literal characters concatenate into a single run. Unclosed
//! scopes at end of input are tolerated; a close with no open scope is an
//! error.

use vstd::prelude::*;
use crate::style::Attributes;
use crate::rules::{RuleTable, spec_resolve, names_view};
use crate::tokenize::{Token, SpecToken, ParseError, tokenize, spec_tokenize, tokens_view};

verus! {

/// An ordered sequence of styled runs; order is reading order.
#[derive(Clone, Debug, PartialEq, Eq)]
pub struct PrettyString(pub Vec<(String, Attributes)>);

impl View for PrettyString {
    type V = Seq<(Seq<char>, Attributes)>;

    open spec fn view(&self) -> Seq<(Seq<char>, Attributes)> {
        self.0@.map_values(|r: (String, Attributes)| (r.0@, r.1))
    }
}

impl Default for PrettyString {
    /// The empty styled text.
    fn default() -> (r: PrettyString)
        ensures
            r@ == Seq::<(Seq<char>, Attributes)>::empty(),
    {
        let r = PrettyString(Vec::new());
        proof {
            assert(r@ =~= Seq::<(Seq<char>, Attributes)>::empty());
        }
        r
    }
}

/// One step of the parse driver per token: literal text accumulates in
/// `buf`, a scope change flushes `buf` as a run styled by the scopes open
/// before the change, and end of input flushes what remains.
pub open spec fn spec_drive(
    toks: Seq<SpecToken>,
    table: Seq<(Seq<char>, Attributes)>,
    stack: Seq<Seq<char>>,
    buf: Seq<char>,
    out: Seq<(Seq<char>, Attributes)>,
) -> Result<Seq<(Seq<char>, Attributes)>, ParseError>
    decreases toks.len(),
{
    if toks.len() == 0 {
        if buf.len() == 0 {
            Ok(out)
        } else {
            match spec_resolve(table, stack) {
                None => Err(ParseError::UnknownRule),
                Some(a) => Ok(out.push((buf, a))),
            }
        }
    } else {
        match toks[0] {
            SpecToken::Text(t) => spec_drive(toks.skip(1), table, stack, buf + t, out),
            SpecToken::StartSegment(name) => {
                if buf.len() == 0 {
                    spec_drive(toks.skip(1), table, stack.push(name), buf, out)
                } else {
                    match spec_resolve(table, stack) {
                        None => Err(ParseError::UnknownRule),
                        Some(a) => spec_drive(
                            toks.skip(1),
                            table,
                            stack.push(name),
                            Seq::empty(),
                            out.push((buf, a)),
                        ),
                    }
                }
            },
            SpecToken::EndSegment => {
                if buf.len() == 0 {
                    if stack.len() == 0 {
                        Err(ParseError::UnbalancedClose)
                    } else {
                        spec_drive(toks.skip(1), table, stack.drop_last(), buf, out)
                    }
                } else {
                    match spec_resolve(table, stack) {
                        None => Err(ParseError::UnknownRule),
                        Some(a) => if stack.len() == 0 {
                            Err(ParseError::UnbalancedClose)
                        } else {
                            spec_drive(
                                toks.skip(1),
                                table,
                                stack.drop_last(),
                                Seq::empty(),
                                out.push((buf, a)),
                            )
                        },
                    }
                }
            },
        }
    }
}

/// What parsing a markup string yields: the styled runs, or the first
/// error met.
pub open spec fn spec_parse(s: Seq<char>, table: Seq<(Seq<char>, Attributes)>) -> Result<
    Seq<(Seq<char>, Attributes)>,
    ParseError,
> {
    match spec_tokenize(s) {
        None => Err(ParseError::MalformedMarkup),
        Some(toks) => spec_drive(toks, table, Seq::empty(), Seq::empty(), Seq::empty()),
    }
}

/// The total character count of a run sequence.
pub open spec fn spec_runs_len(runs: Seq<(Seq<char>, Attributes)>) -> int
    decreases runs.len(),
{
    if runs.len() == 0 {
        0
    } else {
        spec_runs_len(runs.drop_last()) + runs.last().0.len()
    }
}

pub proof fn lemma_runs_len_parts(runs: Seq<(Seq<char>, Attributes)>, i: int)
    requires
        0 <= i <= runs.len(),
    ensures
        spec_runs_len(runs) == spec_runs_len(runs.take(i)) + spec_runs_len(runs.skip(i)),
        spec_runs_len(runs.skip(i)) >= 0,
    decreases runs.len() - i,
{
    if i == runs.len() {
        assert(runs.take(i) =~= runs);
        assert(runs.skip(i).len() == 0);
    } else {
        lemma_runs_len_parts(runs, i + 1);
        lemma_runs_len_step(runs, i);
        assert(runs.take(i + 1).drop_last() =~= runs.take(i));
        assert(runs.take(i + 1).last() == runs[i]);
    }
}

/// Peeling the first run off a sequence.
proof fn lemma_runs_len_cons(runs: Seq<(Seq<char>, Attributes)>)
    requires
        runs.len() > 0,
    ensures
        spec_runs_len(runs) == runs[0].0.len() + spec_runs_len(runs.skip(1)),
    decreases runs.len(),
{
    reveal_with_fuel(spec_runs_len, 3);
    if runs.len() == 1 {
        assert(runs.skip(1).len() == 0);
        assert(runs.drop_last().len() == 0);
    } else {
        let dl = runs.drop_last();
        lemma_runs_len_cons(dl);
        assert(dl[0] == runs[0]);
        assert(runs.skip(1).drop_last() =~= dl.skip(1));
        assert(runs.skip(1).last() == runs.last());
    }
}

/// Peeling the first run off a suffix.
proof fn lemma_runs_len_step(runs: Seq<(Seq<char>, Attributes)>, i: int)
    requires
        0 <= i < runs.len(),
    ensures
        spec_runs_len(runs.skip(i)) == runs[i].0.len() + spec_runs_len(runs.skip(i + 1)),
{
    lemma_runs_len_cons(runs.skip(i));
    assert(runs.skip(i)[0] == runs[i]);
    assert(runs.skip(i).skip(1) =~= runs.skip(i + 1));
}

proof fn lemma_runs_len_last(runs: Seq<(Seq<char>, Attributes)>)
    ensures
        runs.len() > 0 ==> spec_runs_len(runs) == spec_runs_len(runs.drop_last())
            + runs.last().0.len(),
        spec_runs_len(runs) >= 0,
    decreases runs.len(),
{
    if runs.len() > 0 {
        lemma_runs_len_last(runs.drop_last());
    }
}

/// The literal characters a token stream carries: markup contributes none.
pub open spec fn spec_tokens_text_len(toks: Seq<SpecToken>) -> int
    decreases toks.len(),
{
    if toks.len() == 0 {
        0
    } else {
        (match toks[0] {
            SpecToken::Text(t) => t.len() as int,
            SpecToken::StartSegment(_) => 0,
            SpecToken::EndSegment => 0,
        }) + spec_tokens_text_len(toks.skip(1))
    }
}

proof fn lemma_drive_len(
    toks: Seq<SpecToken>,
    table: Seq<(Seq<char>, Attributes)>,
    stack: Seq<Seq<char>>,
    buf: Seq<char>,
    out: Seq<(Seq<char>, Attributes)>,
)
    requires
        spec_drive(toks, table, stack, buf, out) is Ok,
    ensures
        spec_runs_len(spec_drive(toks, table, stack, buf, out).unwrap()) == spec_runs_len(out)
            + buf.len() + spec_tokens_text_len(toks),
    decreases toks.len(),
{
    if toks.len() == 0 {
        if buf.len() != 0 {
            let a = spec_resolve(table, stack).unwrap();
            assert(out.push((buf, a)).drop_last() =~= out);
        }
    } else {
        match toks[0] {
            SpecToken::Text(t) => {
                lemma_drive_len(toks.skip(1), table, stack, buf + t, out);
            },
            SpecToken::StartSegment(name) => {
                if buf.len() == 0 {
                    lemma_drive_len(toks.skip(1), table, stack.push(name), buf, out);
                } else {
                    let a = spec_resolve(table, stack).unwrap();
                    lemma_drive_len(
                        toks.skip(1),
                        table,
                        stack.push(name),
                        Seq::empty(),
                        out.push((buf, a)),
                    );
                    assert(out.push((buf, a)).drop_last() =~= out);
                }
            },
            SpecToken::EndSegment => {
                if buf.len() == 0 {
                    lemma_drive_len(toks.skip(1), table, stack.drop_last(), buf, out);
                } else {
                    let a = spec_resolve(table, stack).unwrap();
                    lemma_drive_len(
                        toks.skip(1),
                        table,
                        stack.drop_last(),
                        Seq::empty(),
                        out.push((buf, a)),
                    );
                    assert(out.push((buf, a)).drop_last() =~= out);
                }
            },
        }
    }
}

/// Markup is excluded from the length: a successful parse yields runs whose
/// total character count is exactly the count of literal characters in the
/// token stream — tag names, closes and escapes contribute nothing beyond
/// the characters they stand for.
pub proof fn lemma_parse_preserves_text_len(s: Seq<char>, table: Seq<(Seq<char>, Attributes)>)
    requires
        spec_parse(s, table) is Ok,
    ensures
        spec_tokenize(s) is Some,
        spec_runs_len(spec_parse(s, table).unwrap()) == spec_tokens_text_len(
            spec_tokenize(s).unwrap(),
        ),
{
    let toks = spec_tokenize(s).unwrap();
    lemma_drive_len(toks, table, Seq::empty(), Seq::empty(), Seq::empty());
}

impl PrettyString {
    /// Parse a markup string against a rule table into styled runs.
    pub fn parse(string: &str, rules: &RuleTable) -> (r: Result<PrettyString, ParseError>)
        ensures
            match r {
                Ok(p) => spec_parse(string@, rules@) == Ok::<_, ParseError>(p@),
                Err(e) => spec_parse(string@, rules@) == Err::<Seq<(Seq<char>, Attributes)>, _>(e),
            },
    {
        let toks = match tokenize(string) {
            Ok(toks) => toks,
            Err(e) => {
                return Err(e);
            },
        };
        let ghost all = tokens_view(toks@);
        let mut stack: Vec<String> = Vec::new();
        let mut buf: String = String::new();
        let mut out: Vec<(String, Attributes)> = Vec::new();
        let mut i: usize = 0;
        proof {
            assert(all.skip(0) =~= all);
            assert(names_view(stack@) =~= Seq::<Seq<char>>::empty());
            assert(out@.map_values(|r: (String, Attributes)| (r.0@, r.1)) =~= Seq::<
                (Seq<char>, Attributes),
            >::empty());
        }
        while i < toks.len()
            invariant
                i <= toks.len(),
                all == tokens_view(toks@),
                spec_tokenize(string@) == Some(all),
                spec_drive(all, rules@, Seq::empty(), Seq::empty(), Seq::empty()) == spec_drive(
                    all.skip(i as int),
                    rules@,
                    names_view(stack@),
                    buf@,
                    out@.map_values(|r: (String, Attributes)| (r.0@, r.1)),
                ),
            decreases toks.len() - i,
        {
            let ghost pre_stack = names_view(stack@);
            let ghost pre_buf = buf@;
            let ghost pre_out = out@.map_values(|r: (String, Attributes)| (r.0@, r.1));
            proof {
                assert(all.skip(i as int)[0] == all[i as int]);
                assert(all[i as int] == toks@[i as int]@);
                assert(all.skip(i as int).skip(1) =~= all.skip(i + 1));
            }
            match &toks[i] {
                Token::Text(t) => {
                    buf.append(t.as_str());
                },
                Token::StartSegment(name) => {
                    if !buf.as_str().is_empty() {
                        let a = match rules.resolve(&stack) {
                            Ok(a) => a,
                            Err(e) => {
                                proof {
                                    assert(spec_drive(
                                        all.skip(i as int),
                                        rules@,
                                        pre_stack,
                                        pre_buf,
                                        pre_out,
                                    ) == Err::<Seq<(Seq<char>, Attributes)>, ParseError>(
                                        ParseError::UnknownRule,
                                    ));
                                }
                                return Err(e);
                            },
                        };
                        out.push((buf, a));
                        buf = String::new();
                        proof {
                            assert(out@.map_values(|r: (String, Attributes)| (r.0@, r.1))
                                =~= pre_out.push((out@.last().0@, out@.last().1)));
                        }
                    }
                    stack.push(name.clone());
                    proof {
                        assert(names_view(stack@) =~= pre_stack.push(stack@.last()@));
                    }
                },
                Token::EndSegment => {
                    if !buf.as_str().is_empty() {
                        let a = match rules.resolve(&stack) {
                            Ok(a) => a,
                            Err(e) => {
                                proof {
                                    assert(spec_drive(
                                        all.skip(i as int),
                                        rules@,
                                        pre_stack,
                                        pre_buf,
                                        pre_out,
                                    ) == Err::<Seq<(Seq<char>, Attributes)>, ParseError>(
                                        ParseError::UnknownRule,
                                    ));
                                }
                                return Err(e);
                            },
                        };
                        out.push((buf, a));
                        buf = String::new();
                        proof {
                            assert(out@.map_values(|r: (String, Attributes)| (r.0@, r.1))
                                =~= pre_out.push((out@.last().0@, out@.last().1)));
                        }
                    }
                    if stack.pop().is_none() {
                        proof {
                            assert(pre_stack.len() == 0);
                            assert(spec_drive(
                                all.skip(i as int),
                                rules@,
                                pre_stack,
                                pre_buf,
                                pre_out,
                            ) == Err::<Seq<(Seq<char>, Attributes)>, ParseError>(
                                ParseError::UnbalancedClose,
                            ));
                        }
                        return Err(ParseError::UnbalancedClose);
                    }
                    proof {
                        assert(names_view(stack@) =~= pre_stack.drop_last());
                    }
                },
            }
            i += 1;
        }
        proof {
            assert(all.skip(toks.len() as int).len() == 0);
        }
        if !buf.as_str().is_empty() {
            let a = match rules.resolve(&stack) {
                Ok(a) => a,
                Err(e) => {
                    proof {
                        assert(spec_drive(
                            all.skip(toks.len() as int),
                            rules@,
                            names_view(stack@),
                            buf@,
                            out@.map_values(|r: (String, Attributes)| (r.0@, r.1)),
                        ) == Err::<Seq<(Seq<char>, Attributes)>, ParseError>(
                            ParseError::UnknownRule,
                        ));
                    }
                    return Err(e);
                },
            };
            let ghost pre_out = out@.map_values(|r: (String, Attributes)| (r.0@, r.1));
            out.push((buf, a));
            proof {
                assert(out@.map_values(|r: (String, Attributes)| (r.0@, r.1)) =~= pre_out.push(
                    (out@.last().0@, out@.last().1),
                ));
            }
            let p = PrettyString(out);
            return Ok(p);
        }
        Ok(PrettyString(out))
    }

    /// Total character length: the sum of the run text lengths.
    pub fn len(&self) -> (r: usize)
        requires
            spec_runs_len(self@) <= usize::MAX,
        ensures
            r == spec_runs_len(self@),
    {
        let mut total: usize = 0;
        let mut i: usize = 0;
        proof {
            assert(self@.take(0) =~= Seq::<(Seq<char>, Attributes)>::empty());
        }
        while i < self.0.len()
            invariant
                i <= self.0.len(),
                spec_runs_len(self@) <= usize::MAX,
                total == spec_runs_len(self@.take(i as int)),
            decreases self.0.len() - i,
        {
            proof {
                assert(self@[i as int] == (self.0@[i as int].0@, self.0@[i as int].1));
                lemma_runs_len_parts(self@, i as int);
                lemma_runs_len_step(self@, i as int);
                lemma_runs_len_parts(self@, i + 1);
                assert(self@.take(i + 1).drop_last() =~= self@.take(i as int));
                assert(self@.take(i + 1).last() == self@[i as int]);
                lemma_runs_len_last(self@.take(i + 1));
            }
            let n = self.0[i].0.as_str().unicode_len();
            total += n;
            i += 1;
        }
        proof {
            assert(self@.take(self.0.len() as int) =~= self@);
        }
        total
    }
}

} // verus!
