//! What a text means: the tree it stands for, or the error it ends in.
//!
//! The meaning is given as one pass over the characters, left to right. The
//! pass keeps the characters of the token it is in (`curr`) and the tree built
//! so far (`res`); brackets and quotes open a nested reading that ends at
//! their closing character.

use vstd::prelude::*;
use crate::model::{Tree, lemma_add_sibling_wf, lemma_add_text_wf};

verus! {

/// Why a text stands for no tree.
pub enum ParseError {
    /// A bracket or a quote was opened and the input ended before the
    /// character that closes it, which is carried here.
    Unclosed(char),
    /// Inside a quoted literal the input ended right after a backslash.
    TruncatedEscape,
}

impl ParseError {
    /// The text by which the error is reported.
    pub open spec fn message(self) -> Seq<char> {
        match self {
            ParseError::Unclosed(d) => "Close Delim '"@ + seq![d] + "' not found"@,
            ParseError::TruncatedEscape => "Escape before end of string"@,
        }
    }
}

/// A space or a comma: ends a token and means nothing else.
pub open spec fn is_separator(c: char) -> bool {
    c == ' ' || c == ','
}

/// A double or a single quote.
pub open spec fn is_quote(c: char) -> bool {
    c == '"' || c == '\''
}

/// For an opening bracket, the character that closes it.
pub open spec fn closing(c: char) -> Option<char> {
    if c == '(' {
        Some(')')
    } else if c == '{' {
        Some('}')
    } else if c == '[' {
        Some(']')
    } else {
        None
    }
}

/// The state of the pass between two characters.
pub struct Reading {
    /// The input not yet read.
    pub rest: Seq<char>,
    /// The characters of the token being read.
    pub curr: Seq<char>,
    /// The tree built so far.
    pub res: Tree,
}

/// The text of a quoted literal whose opening `quote` was just read, with
/// `text` already collected, and the input that follows its closing quote.
///
/// A backslash takes the next character literally, the quote itself included.
pub open spec fn quoted(rest: Seq<char>, quote: char, text: Seq<char>) -> Result<
    (Seq<char>, Seq<char>),
    ParseError,
>
    decreases rest.len(),
{
    if rest.len() == 0 {
        Err(ParseError::Unclosed(quote))
    } else if rest[0] == quote {
        Ok((text, rest.drop_first()))
    } else if rest[0] == '\\' {
        if rest.len() == 1 {
            Err(ParseError::TruncatedEscape)
        } else {
            quoted(rest.drop_first().drop_first(), quote, text.push(rest[1]))
        }
    } else {
        quoted(rest.drop_first(), quote, text.push(rest[0]))
    }
}

/// The state after the character `c`, read in the state `(curr, res)` with
/// `rest` following it.
///
/// An opening bracket ends the token and attaches the branch read up to the
/// matching closing bracket. A quote ends the token and attaches the quoted
/// text as a leaf. A separator ends the token. Any other character joins the
/// token.
pub open spec fn eat(c: char, rest: Seq<char>, curr: Seq<char>, res: Tree) -> Result<
    Reading,
    ParseError,
>
    decreases rest.len(), 1nat,
{
    if let Some(d) = closing(c) {
        match siblings(rest, Some(d), Seq::empty(), Tree::Branch(Seq::empty())) {
            Ok((sub, after)) => Ok(
                Reading {
                    rest: after,
                    curr: Seq::empty(),
                    res: res.add_text(curr).add_sibling(sub),
                },
            ),
            Err(e) => Err(e),
        }
    } else if is_quote(c) {
        match quoted(rest, c, Seq::empty()) {
            Ok((text, after)) => Ok(
                Reading {
                    rest: after,
                    curr: Seq::empty(),
                    res: res.add_text(curr).add_sibling(Tree::Leaf(text)),
                },
            ),
            Err(e) => Err(e),
        }
    } else if is_separator(c) {
        Ok(Reading { rest, curr: Seq::empty(), res: res.add_text(curr) })
    } else {
        Ok(Reading { rest, curr: curr.push(c), res })
    }
}

/// The tree that the state `(curr, res)` grows into over `rest`, and the input
/// left after it.
///
/// With `close` set, the reading ends at that character, which must come;
/// without it, at the end of the input. The token still open at the end is
/// attached as the last sibling.
pub open spec fn siblings(rest: Seq<char>, close: Option<char>, curr: Seq<char>, res: Tree) -> Result<
    (Tree, Seq<char>),
    ParseError,
>
    decreases rest.len(), 0nat,
{
    if rest.len() == 0 {
        match close {
            None => Ok((res.add_text(curr), rest)),
            Some(d) => Err(ParseError::Unclosed(d)),
        }
    } else if close == Some(rest[0]) {
        Ok((res.add_text(curr), rest.drop_first()))
    } else {
        match eat(rest[0], rest.drop_first(), curr, res) {
            Ok(next) => if next.rest.len() < rest.len() {
                siblings(next.rest, close, next.curr, next.res)
            } else {
                // Never taken: a character read is a character gone
                // (`lemma_eat_shortens`). It is here for termination only.
                Ok((next.res, next.rest))
            },
            Err(e) => Err(e),
        }
    }
}

/// The tree that the text `s` stands for.
pub open spec fn parse(s: Seq<char>) -> Result<Tree, ParseError> {
    match siblings(s, None, Seq::empty(), Tree::Empty) {
        Ok((tree, _)) => Ok(tree),
        Err(e) => Err(e),
    }
}

/// A quoted literal ends after at least its closing quote.
pub proof fn lemma_quoted_shortens(rest: Seq<char>, quote: char, text: Seq<char>)
    ensures
        quoted(rest, quote, text) matches Ok((_, after)) ==> after.len() < rest.len(),
    decreases rest.len(),
{
    if rest.len() == 0 {
    } else if rest[0] == quote {
    } else if rest[0] == '\\' {
        if rest.len() > 1 {
            lemma_quoted_shortens(rest.drop_first().drop_first(), quote, text.push(rest[1]));
        }
    } else {
        lemma_quoted_shortens(rest.drop_first(), quote, text.push(rest[0]));
    }
}

/// Reading a character never gives input back.
pub proof fn lemma_eat_shortens(c: char, rest: Seq<char>, curr: Seq<char>, res: Tree)
    ensures
        eat(c, rest, curr, res) matches Ok(next) ==> next.rest.len() <= rest.len(),
    decreases rest.len(), 1nat,
{
    if let Some(d) = closing(c) {
        lemma_siblings_shortens(rest, Some(d), Seq::empty(), Tree::Branch(Seq::empty()));
    } else if is_quote(c) {
        lemma_quoted_shortens(rest, c, Seq::empty());
    }
}

/// A reading never gives input back, and one that ends at a closing
/// character has read at least that.
pub proof fn lemma_siblings_shortens(
    rest: Seq<char>,
    close: Option<char>,
    curr: Seq<char>,
    res: Tree,
)
    ensures
        siblings(rest, close, curr, res) matches Ok((_, after)) ==> after.len() <= rest.len() && (
        close is Some ==> after.len() < rest.len()),
    decreases rest.len(), 0nat,
{
    if rest.len() == 0 {
    } else if close == Some(rest[0]) {
    } else {
        lemma_eat_shortens(rest[0], rest.drop_first(), curr, res);
        if let Ok(next) = eat(rest[0], rest.drop_first(), curr, res) {
            lemma_siblings_shortens(next.rest, close, next.curr, next.res);
        }
    }
}

/// Reading a character keeps branches free of empty children.
pub proof fn lemma_eat_wf(c: char, rest: Seq<char>, curr: Seq<char>, res: Tree)
    requires
        res.wf(),
    ensures
        eat(c, rest, curr, res) matches Ok(next) ==> next.res.wf(),
    decreases rest.len(), 1nat,
{
    lemma_add_text_wf(res, curr);
    if let Some(d) = closing(c) {
        let fresh = Tree::Branch(Seq::empty());
        lemma_siblings_wf(rest, Some(d), Seq::empty(), fresh);
        if let Ok((sub, _)) = siblings(rest, Some(d), Seq::empty(), fresh) {
            lemma_add_sibling_wf(res.add_text(curr), sub);
        }
    } else if is_quote(c) {
        if let Ok((text, _)) = quoted(rest, c, Seq::empty()) {
            lemma_add_sibling_wf(res.add_text(curr), Tree::Leaf(text));
        }
    }
}

/// A reading keeps branches free of empty children.
pub proof fn lemma_siblings_wf(rest: Seq<char>, close: Option<char>, curr: Seq<char>, res: Tree)
    requires
        res.wf(),
    ensures
        siblings(rest, close, curr, res) matches Ok((tree, _)) ==> tree.wf(),
    decreases rest.len(), 0nat,
{
    lemma_add_text_wf(res, curr);
    if rest.len() == 0 {
    } else if close == Some(rest[0]) {
    } else {
        lemma_eat_wf(rest[0], rest.drop_first(), curr, res);
        if let Ok(next) = eat(rest[0], rest.drop_first(), curr, res) {
            if next.rest.len() < rest.len() {
                lemma_siblings_wf(next.rest, close, next.curr, next.res);
            }
        }
    }
}

/// The tree of a text has no branch with an empty child.
pub proof fn lemma_parse_wf(s: Seq<char>)
    ensures
        parse(s) matches Ok(tree) ==> tree.wf(),
{
    lemma_siblings_wf(s, None, Seq::empty(), Tree::Empty);
}

} // verus!
