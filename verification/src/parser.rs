//! Reading a text into a tree.

use std::str::Chars;
use vstd::prelude::*;
use vstd::std_specs::iter::IteratorSpec;
use crate::model::Tree;
use crate::syntax::{ParseError, eat, lemma_eat_shortens, lemma_parse_wf, parse, quoted, siblings};
use crate::tree::Bracket;

verus! {

/// The report of an opened bracket or quote that `delim` never closed.
fn unclosed(delim: char) -> (m: String)
    ensures
        m@ == ParseError::Unclosed(delim).message(),
{
    let mut m = String::from_str("Close Delim '");
    m.push(delim);
    m.append("' not found");
    m
}

/// The report of a backslash with nothing after it.
fn truncated_escape() -> (m: String)
    ensures
        m@ == ParseError::TruncatedEscape.message(),
{
    String::from_str("Escape before end of string")
}

impl Bracket {
    /// Reads the text `s` into the tree it stands for.
    ///
    /// Tokens are runs of characters between spaces and commas; `(..)`,
    /// `{..}` and `[..]` nest; a quoted literal is one leaf. The result is
    /// exactly `parse(s@)`: the tree on success, else the message of the
    /// error. No branch of the tree has an empty child.
    pub fn from_str(s: &str) -> (r: Result<Bracket, String>)
        ensures
            match parse(s@) {
                Ok(tree) => r matches Ok(b) && b@ == tree && b@.wf(),
                Err(e) => r matches Err(m) && m@ == e.message(),
            },
    {
        let mut res = Bracket::Empty;
        let mut it = s.chars();
        let mut curr = String::new();
        proof {
            lemma_parse_wf(s@);
        }
        loop
            invariant
                it.decrease() is Some,
                siblings(it.remaining(), None, curr@, res@) == siblings(
                    s@,
                    None,
                    Seq::empty(),
                    Tree::Empty,
                ),
                parse(s@) matches Ok(tree) ==> tree.wf(),
            decreases it.decrease()->0,
        {
            let ghost rest = it.remaining();
            match it.next() {
                None => {
                    res.add_sib_str(curr);
                    return Ok(res);
                },
                Some(c) => {
                    proof {
                        lemma_eat_shortens(c, rest.drop_first(), curr@, res@);
                    }
                    match Bracket::match_char(c, &mut it, &mut curr, &mut res) {
                        Ok(()) => {},
                        Err(m) => {
                            return Err(m);
                        },
                    }
                },
            }
        }
    }

    /// Takes the character `c`, just read from `it`, into the token `curr`
    /// and the tree `res`, reading on through `it` where `c` opens a bracket
    /// or a quote.
    fn match_char(c: char, it: &mut Chars<'_>, curr: &mut String, res: &mut Bracket) -> (r: Result<
        (),
        String,
    >)
        requires
            (*old(it)).decrease() is Some,
        ensures
            (*final(it)).decrease() is Some,
            r is Ok ==> (*final(it)).decrease()->0 <= (*old(it)).decrease()->0,
            match eat(c, (*old(it)).remaining(), old(curr)@, old(res)@) {
                Ok(next) => r is Ok && (*final(it)).remaining() == next.rest && final(curr)@
                    == next.curr && final(res)@ == next.res,
                Err(e) => r matches Err(m) && m@ == e.message(),
            },
        decreases (*old(it)).decrease()->0, 1nat,
    {
        match c {
            '(' | '{' | '[' => {
                let delim = if c == '(' {
                    ')'
                } else if c == '{' {
                    '}'
                } else {
                    ']'
                };
                res.add_sib_str(curr.clone());
                *curr = String::new();
                match Bracket::from_bracket(it, delim) {
                    Ok(sub) => res.add_sibling(sub),
                    Err(m) => {
                        return Err(m);
                    },
                }
            },
            '"' | '\'' => {
                res.add_sib_str(curr.clone());
                *curr = String::new();
                match Bracket::from_quotes(it, c) {
                    Ok(leaf) => res.add_sibling(leaf),
                    Err(m) => {
                        return Err(m);
                    },
                }
            },
            ' ' | ',' => {
                res.add_sib_str(curr.clone());
                *curr = String::new();
            },
            other => curr.push(other),
        }
        Ok(())
    }

    /// Reads the siblings inside a bracket, whose opening character was just
    /// taken from `it`, up to and including the closing `delim`.
    fn from_bracket(it: &mut Chars<'_>, delim: char) -> (r: Result<Bracket, String>)
        requires
            (*old(it)).decrease() is Some,
        ensures
            (*final(it)).decrease() is Some,
            r is Ok ==> (*final(it)).decrease()->0 < (*old(it)).decrease()->0,
            match siblings(
                (*old(it)).remaining(),
                Some(delim),
                Seq::empty(),
                Tree::Branch(Seq::empty()),
            ) {
                Ok((tree, after)) => r matches Ok(b) && b@ == tree && (*final(it)).remaining()
                    == after,
                Err(e) => r matches Err(m) && m@ == e.message(),
            },
        decreases (*old(it)).decrease()->0, 0nat,
    {
        let mut res = crate::tree::br();
        let mut curr = String::new();
        let ghost start = (*it).remaining();
        loop
            invariant
                start == (*old(it)).remaining(),
                (*it).decrease() is Some,
                (*it).decrease()->0 <= (*old(it)).decrease()->0,
                siblings((*it).remaining(), Some(delim), curr@, res@) == siblings(
                    start,
                    Some(delim),
                    Seq::empty(),
                    Tree::Branch(Seq::empty()),
                ),
            decreases (*it).decrease()->0,
        {
            let ghost rest = (*it).remaining();
            match it.next() {
                None => {
                    return Err(unclosed(delim));
                },
                Some(c) => {
                    if c == delim {
                        res.add_sib_str(curr.clone());
                        return Ok(res);
                    }
                    proof {
                        lemma_eat_shortens(c, rest.drop_first(), curr@, res@);
                    }
                    match Bracket::match_char(c, it, &mut curr, &mut res) {
                        Ok(()) => {},
                        Err(m) => {
                            return Err(m);
                        },
                    }
                },
            }
        }
    }

    /// Reads a quoted literal, whose opening quote `delim` was just taken from
    /// `it`, up to and including its closing quote.
    fn from_quotes(it: &mut Chars<'_>, delim: char) -> (r: Result<Bracket, String>)
        requires
            (*old(it)).decrease() is Some,
        ensures
            (*final(it)).decrease() is Some,
            r is Ok ==> (*final(it)).decrease()->0 < (*old(it)).decrease()->0,
            match quoted((*old(it)).remaining(), delim, Seq::empty()) {
                Ok((text, after)) => r matches Ok(b) && b@ == Tree::Leaf(text)
                    && (*final(it)).remaining() == after,
                Err(e) => r matches Err(m) && m@ == e.message(),
            },
    {
        let mut curr = String::new();
        let ghost start = (*it).remaining();
        loop
            invariant
                start == (*old(it)).remaining(),
                (*it).decrease() is Some,
                (*it).decrease()->0 <= (*old(it)).decrease()->0,
                quoted((*it).remaining(), delim, curr@) == quoted(start, delim, Seq::empty()),
            decreases (*it).decrease()->0,
        {
            match it.next() {
                None => {
                    return Err(unclosed(delim));
                },
                Some(c) => {
                    if c == delim {
                        return Ok(Bracket::Leaf(curr));
                    }
                    if c == '\\' {
                        match it.next() {
                            Some(c2) => {
                                curr.push(c2);
                            },
                            None => {
                                return Err(truncated_escape());
                            },
                        }
                    } else {
                        curr.push(c);
                    }
                },
            }
        }
    }
}

impl std::str::FromStr for Bracket {
    type Err = String;

    /// Reads the text `s` into the tree it stands for, as the inherent
    /// `Bracket::from_str` does.
    fn from_str(s: &str) -> (r: Result<Bracket, String>)
        ensures
            match parse(s@) {
                Ok(tree) => r matches Ok(b) && b@ == tree && b@.wf(),
                Err(e) => r matches Err(m) && m@ == e.message(),
            },
    {
        Bracket::from_str(s)
    }
}

} // verus!
