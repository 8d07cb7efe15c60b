//! The rule table and the attribute resolver.
//!
//! A rule table maps tag names to style fragments; it is built once and
//! read-only afterwards. Resolution folds the stack of currently open tag
//! scopes, outermost first, through the style composition rule, so an inner
//! scope's explicit settings win and an outer scope's settings persist
//! through inner scopes that do not override them.

use vstd::prelude::*;
use crate::style::Attributes;
use crate::tokenize::ParseError;

verus! {

/// The style fragment bound to `name`, if any: the latest binding wins.
pub open spec fn spec_lookup(table: Seq<(Seq<char>, Attributes)>, name: Seq<char>) -> Option<
    Attributes,
>
    decreases table.len(),
{
    if table.len() == 0 {
        None
    } else if table.last().0 == name {
        Some(table.last().1)
    } else {
        spec_lookup(table.drop_last(), name)
    }
}

/// The effective style of a stack of open scopes, outermost first, or
/// `None` where some name on the stack is not in the table.
pub open spec fn spec_resolve(table: Seq<(Seq<char>, Attributes)>, stack: Seq<Seq<char>>) -> Option<
    Attributes,
>
    decreases stack.len(),
{
    if stack.len() == 0 {
        Some(Attributes::empty())
    } else {
        match spec_resolve(table, stack.drop_last()) {
            None => None,
            Some(outer) => match spec_lookup(table, stack.last()) {
                None => None,
                Some(inner) => Some(outer.spec_override(inner)),
            },
        }
    }
}

/// The views of a stack of rule names.
pub open spec fn names_view(stack: Seq<String>) -> Seq<Seq<char>> {
    stack.map_values(|s: String| s@)
}

/// A fixed mapping from rule name to style fragment.
pub struct RuleTable {
    entries: Vec<(String, Attributes)>,
}

impl View for RuleTable {
    type V = Seq<(Seq<char>, Attributes)>;

    closed spec fn view(&self) -> Seq<(Seq<char>, Attributes)> {
        self.entries@.map_values(|e: (String, Attributes)| (e.0@, e.1))
    }
}

impl RuleTable {
    pub fn new() -> (r: RuleTable)
        ensures
            r@ == Seq::<(Seq<char>, Attributes)>::empty(),
    {
        let r = RuleTable { entries: Vec::new() };
        proof {
            assert(r@ =~= Seq::<(Seq<char>, Attributes)>::empty());
        }
        r
    }

    /// Bind `name` to `attributes`; a later binding shadows an earlier one.
    pub fn insert(&mut self, name: &str, attributes: Attributes)
        ensures
            final(self)@ == old(self)@.push((name@, attributes)),
    {
        let ghost pre = self@;
        self.entries.push((name.to_owned(), attributes));
        proof {
            assert(self@ =~= pre.push((name@, attributes)));
        }
    }

    /// Look a rule name up.
    pub fn get(&self, name: &str) -> (r: Option<Attributes>)
        ensures
            r == spec_lookup(self@, name@),
    {
        let key = name.to_owned();
        let mut i = self.entries.len();
        proof {
            assert(self@.take(i as int) =~= self@);
        }
        while i > 0
            invariant
                i <= self.entries.len(),
                key@ == name@,
                spec_lookup(self@, name@) == spec_lookup(self@.take(i as int), name@),
            decreases i,
        {
            i -= 1;
            proof {
                assert(self@[i as int] == (self.entries@[i as int].0@, self.entries@[i as int].1));
                assert(self@.take(i + 1).last() == self@[i as int]);
                assert(self@.take(i + 1).drop_last() =~= self@.take(i as int));
            }
            if self.entries[i].0 == key {
                return Some(self.entries[i].1);
            }
        }
        proof {
            assert(self@.take(0) =~= Seq::<(Seq<char>, Attributes)>::empty());
        }
        None
    }

    /// Fold the stack of open scopes, outermost first, into one effective
    /// style; a name absent from the table is an `UnknownRule` error.
    pub fn resolve(&self, stack: &Vec<String>) -> (r: Result<Attributes, ParseError>)
        ensures
            match r {
                Ok(a) => spec_resolve(self@, names_view(stack@)) == Some(a),
                Err(e) => spec_resolve(self@, names_view(stack@)) is None && e
                    == ParseError::UnknownRule,
            },
    {
        let ghost names = names_view(stack@);
        let mut acc = Attributes::default();
        let mut i: usize = 0;
        proof {
            assert(names.take(0) =~= Seq::<Seq<char>>::empty());
        }
        while i < stack.len()
            invariant
                i <= stack.len(),
                names == names_view(stack@),
                spec_resolve(self@, names.take(i as int)) == Some(acc),
            decreases stack.len() - i,
        {
            proof {
                assert(names[i as int] == stack@[i as int]@);
                assert(names.take(i + 1).last() == names[i as int]);
                assert(names.take(i + 1).drop_last() =~= names.take(i as int));
            }
            match self.get(stack[i].as_str()) {
                None => {
                    proof {
                        lemma_resolve_unknown(self@, names, i as int);
                    }
                    return Err(ParseError::UnknownRule);
                },
                Some(a) => {
                    acc = acc.override_with(&a);
                    i += 1;
                },
            }
        }
        proof {
            assert(names.take(i as int) =~= names);
        }
        Ok(acc)
    }
}

/// A stack with an unknown name at position `i` resolves to nothing.
pub proof fn lemma_resolve_unknown(
    table: Seq<(Seq<char>, Attributes)>,
    stack: Seq<Seq<char>>,
    i: int,
)
    requires
        0 <= i < stack.len(),
        spec_lookup(table, stack[i]) is None,
    ensures
        spec_resolve(table, stack) is None,
    decreases stack.len(),
{
    if stack.len() > 0 {
        if i == stack.len() - 1 {
            assert(stack.last() == stack[i]);
        } else {
            assert(stack.drop_last()[i] == stack[i]);
            lemma_resolve_unknown(table, stack.drop_last(), i);
        }
    }
}

} // verus!
