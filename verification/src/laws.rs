//! What holds of reading, building and walking trees, beyond the contract of
//! any one function.
//!
//! A text is laid out as a row of pieces: separators, bare tokens, quoted
//! literals and bracketed groups. The logical content of a layout is its row
//! of tokens. Reading the text of a layout gives the tree that the chain of
//! building calls gives for its tokens, so two layouts of the same tokens
//! read as the same tree.

use vstd::prelude::*;
use crate::model::{Tree, from_nth, nth};
use crate::syntax::{ParseError, Reading, closing, eat, is_quote, is_separator, parse, quoted, siblings};

verus! {

/// The sibling at offset `b` of what remains from offset `a` is the sibling
/// at offset `a + b`.
pub proof fn lemma_offsets_add(run: Seq<Tree>, a: nat, b: nat)
    ensures
        nth(from_nth(run, a), b) == nth(run, a + b),
{
}

/// Head/tail consistency: the child at offset `n` of the tail of a node, the
/// head of its tail from `n + 1`, and its child at offset `n + 1` are one
/// node.
pub proof fn lemma_head_tail_consistent(t: Tree, n: nat)
    ensures
        nth(t.tail(), n) == nth(t.tail_n(n + 1), 0),
        nth(t.tail(), n) == t.tail_h(n + 1),
{
}

/// Navigation is total: on a node that is no branch, and at an offset that
/// no child has, a lookup gives the empty node and a tail rests on nothing.
pub proof fn lemma_navigation_total(t: Tree, n: nat)
    ensures
        !(t is Branch) ==> t.head() is Empty && t.tail_h(n) is Empty && t.tail().len() == 0
            && t.tail_n(n).len() == 0,
        t.children().len() == 0 ==> t.head() is Empty,
        n >= t.children().len() ==> t.tail_h(n) is Empty && t.tail_n(n).len() == 0,
{
}

/// One logical item of a text: a flat token or a nested row of tokens.
pub enum Token {
    Word(Seq<char>),
    Group(Seq<Token>),
}

/// The tree that a token contributes: a leaf, or a branch built from nothing
/// by its tokens.
pub open spec fn tree_of(token: Token) -> Tree
    decreases token,
{
    match token {
        Token::Word(w) => Tree::Leaf(w),
        Token::Group(inner) => built(Tree::Branch(Seq::empty()), inner),
    }
}

/// The tree that chained building gives: `start` with the tree of each
/// token attached in turn, a word as by `sib_lf`, a group as by `sib`.
pub open spec fn built(start: Tree, tokens: Seq<Token>) -> Tree
    decreases tokens,
{
    if tokens.len() == 0 {
        start
    } else {
        built(start.add_sibling(tree_of(tokens[0])), tokens.drop_first())
    }
}

/// One piece of a laid-out text.
pub enum Piece {
    /// A separator character.
    Gap(char),
    /// A token written as it is.
    Bare(Seq<char>),
    /// A token written between two quotes of the given kind.
    Quoted(char, Seq<char>),
    /// A row of pieces inside the bracket that the given character opens.
    Nested(char, Seq<Piece>),
}

/// A character with no role in the notation.
pub open spec fn plain(c: char) -> bool {
    !is_separator(c) && !is_quote(c) && closing(c) is None && !is_closer(c)
}

/// A closing bracket.
pub open spec fn is_closer(c: char) -> bool {
    c == ')' || c == '}' || c == ']'
}

/// The body of a quoted literal for the text `w`: a backslash before each
/// quote and each backslash.
pub open spec fn escaped(w: Seq<char>, quote: char) -> Seq<char>
    decreases w.len(),
{
    if w.len() == 0 {
        Seq::empty()
    } else if w[0] == quote || w[0] == '\\' {
        seq!['\\', w[0]] + escaped(w.drop_first(), quote)
    } else {
        seq![w[0]] + escaped(w.drop_first(), quote)
    }
}

/// The characters of a piece.
pub open spec fn text_of(piece: Piece) -> Seq<char>
    decreases piece,
{
    match piece {
        Piece::Gap(c) => seq![c],
        Piece::Bare(w) => w,
        Piece::Quoted(q, w) => seq![q] + escaped(w, q) + seq![q],
        Piece::Nested(open, inner) => seq![open] + text(inner) + seq![closing(open).unwrap()],
    }
}

/// The characters of a row of pieces.
pub open spec fn text(pieces: Seq<Piece>) -> Seq<char>
    decreases pieces,
{
    if pieces.len() == 0 {
        Seq::empty()
    } else {
        text_of(pieces[0]) + text(pieces.drop_first())
    }
}

/// A piece is written as the notation asks: a gap is a separator, a bare
/// token is not empty and made of plain characters, a quote is a quote, a
/// bracket is an opening bracket around a well-laid row.
pub open spec fn well_laid_piece(piece: Piece) -> bool
    decreases piece,
{
    match piece {
        Piece::Gap(c) => is_separator(c),
        Piece::Bare(w) => w.len() > 0 && forall|i: int| 0 <= i < w.len() ==> plain(#[trigger] w[i]),
        Piece::Quoted(q, _) => is_quote(q),
        Piece::Nested(open, inner) => closing(open) is Some && well_laid(inner),
    }
}

/// Each piece of the row is written as the notation asks, and no two bare
/// tokens touch.
pub open spec fn well_laid(pieces: Seq<Piece>) -> bool
    decreases pieces,
{
    if pieces.len() == 0 {
        true
    } else {
        &&& well_laid_piece(pieces[0])
        &&& well_laid(pieces.drop_first())
        &&& pieces[0] is Bare && pieces.len() > 1 ==> !(pieces[1] is Bare)
    }
}

/// The logical content of a row of pieces: its tokens, in order.
pub open spec fn tokens(pieces: Seq<Piece>) -> Seq<Token>
    decreases pieces,
{
    if pieces.len() == 0 {
        Seq::empty()
    } else {
        let others = tokens(pieces.drop_first());
        match pieces[0] {
            Piece::Gap(_) => others,
            Piece::Bare(w) => seq![Token::Word(w)] + others,
            Piece::Quoted(_, w) => seq![Token::Word(w)] + others,
            Piece::Nested(_, inner) => seq![Token::Group(tokens(inner))] + others,
        }
    }
}

/// Reading the body of a quoted literal gives back the text that was
/// escaped, and stops after the closing quote.
pub proof fn lemma_quoted_escaped(w: Seq<char>, quote: char, tail: Seq<char>, text: Seq<char>)
    requires
        quote != '\\',
    ensures
        quoted(escaped(w, quote) + seq![quote] + tail, quote, text) == Ok::<
            (Seq<char>, Seq<char>),
            ParseError,
        >((text + w, tail)),
    decreases w.len(),
{
    let input = escaped(w, quote) + seq![quote] + tail;
    if w.len() == 0 {
        assert(input.drop_first() =~= tail);
        assert(text + w =~= text);
    } else {
        let body = escaped(w.drop_first(), quote) + seq![quote] + tail;
        lemma_quoted_escaped(w.drop_first(), quote, tail, text.push(w[0]));
        assert(text.push(w[0]) + w.drop_first() =~= text + w);
        if w[0] == quote || w[0] == '\\' {
            assert(input =~= seq!['\\', w[0]] + body);
            assert(input.drop_first().drop_first() =~= body);
        } else {
            assert(input =~= seq![w[0]] + body);
            assert(input.drop_first() =~= body);
        }
    }
}

/// Reading a run of plain characters takes them into the token.
proof fn lemma_siblings_plain(
    w: Seq<char>,
    tail: Seq<char>,
    close: Option<char>,
    curr: Seq<char>,
    res: Tree,
)
    requires
        forall|i: int| 0 <= i < w.len() ==> plain(#[trigger] w[i]),
        close matches Some(d) ==> is_closer(d),
    ensures
        siblings(w + tail, close, curr, res) == siblings(tail, close, curr + w, res),
    decreases w.len(),
{
    if w.len() == 0 {
        assert(w + tail =~= tail);
        assert(curr + w =~= curr);
    } else {
        let input = w + tail;
        assert(input[0] == w[0]);
        assert(plain(w[0]));
        assert(input.drop_first() =~= w.drop_first() + tail);
        assert forall|i: int| 0 <= i < w.drop_first().len() implies plain(
            #[trigger] w.drop_first()[i],
        ) by {
            assert(w.drop_first()[i] == w[i + 1]);
        }
        lemma_siblings_plain(w.drop_first(), tail, close, curr.push(w[0]), res);
        assert(curr.push(w[0]) + w.drop_first() =~= curr + w);
        assert(close != Some(w[0]));
        let next = eat(input[0], input.drop_first(), curr, res);
        assert(next == Ok::<Reading, ParseError>(
            Reading { rest: input.drop_first(), curr: curr.push(w[0]), res },
        ));
        assert(siblings(input, close, curr, res) == siblings(
            input.drop_first(),
            close,
            curr.push(w[0]),
            res,
        ));
    }
}

/// The state of the pass after the pieces, read in the state `(curr, res)`.
spec fn fed(pieces: Seq<Piece>, curr: Seq<char>, res: Tree) -> (Seq<char>, Tree)
    decreases pieces, 0nat,
{
    if pieces.len() == 0 {
        (curr, res)
    } else {
        let others = pieces.drop_first();
        match pieces[0] {
            Piece::Gap(_) => fed(others, Seq::empty(), res.add_text(curr)),
            Piece::Bare(w) => fed(others, curr + w, res),
            Piece::Quoted(_, w) => fed(
                others,
                Seq::empty(),
                res.add_text(curr).add_sibling(Tree::Leaf(w)),
            ),
            Piece::Nested(_, inner) => fed(
                others,
                Seq::empty(),
                res.add_text(curr).add_sibling(group_of(inner)),
            ),
        }
    }
}

/// The branch that the pieces inside a bracket are read into.
spec fn group_of(inner: Seq<Piece>) -> Tree
    decreases inner, 1nat,
{
    let (curr, res) = fed(inner, Seq::empty(), Tree::Branch(Seq::empty()));
    res.add_text(curr)
}

/// Reading the text of well-laid pieces leaves the pass in the state that
/// the pieces feed it into, whatever follows them.
proof fn lemma_siblings_fed(
    pieces: Seq<Piece>,
    tail: Seq<char>,
    close: Option<char>,
    curr: Seq<char>,
    res: Tree,
)
    requires
        well_laid(pieces),
        close matches Some(d) ==> is_closer(d),
    ensures
        siblings(text(pieces) + tail, close, curr, res) == siblings(
            tail,
            close,
            fed(pieces, curr, res).0,
            fed(pieces, curr, res).1,
        ),
    decreases pieces,
{
    if pieces.len() == 0 {
        assert(text(pieces) + tail =~= tail);
    } else {
        let others = pieces.drop_first();
        let after = text(others) + tail;
        let input = text(pieces) + tail;
        assert(input =~= text_of(pieces[0]) + after);
        assert(well_laid_piece(pieces[0]) && well_laid(others));
        match pieces[0] {
            Piece::Gap(c) => {
                assert(input =~= seq![c] + after);
                assert(input.drop_first() =~= after);
                assert(close != Some(c));
                assert(eat(c, after, curr, res) == Ok::<Reading, ParseError>(
                    Reading { rest: after, curr: Seq::empty(), res: res.add_text(curr) },
                ));
                lemma_siblings_fed(others, tail, close, Seq::empty(), res.add_text(curr));
            },
            Piece::Bare(w) => {
                lemma_siblings_plain(w, after, close, curr, res);
                lemma_siblings_fed(others, tail, close, curr + w, res);
            },
            Piece::Quoted(q, w) => {
                let body = escaped(w, q) + seq![q] + after;
                assert(input =~= seq![q] + body);
                assert(input.drop_first() =~= body);
                assert(close != Some(q));
                lemma_quoted_escaped(w, q, after, Seq::empty());
                assert(Seq::<char>::empty() + w =~= w);
                let grown = res.add_text(curr).add_sibling(Tree::Leaf(w));
                assert(eat(q, body, curr, res) == Ok::<Reading, ParseError>(
                    Reading { rest: after, curr: Seq::empty(), res: grown },
                ));
                lemma_siblings_fed(others, tail, close, Seq::empty(), grown);
            },
            Piece::Nested(open, inner) => {
                let shut = closing(open).unwrap();
                let fresh = Tree::Branch(Seq::empty());
                let beyond = seq![shut] + after;
                let body = text(inner) + beyond;
                assert(input =~= seq![open] + body);
                assert(input.drop_first() =~= body);
                assert(close != Some(open));
                lemma_siblings_fed(inner, beyond, Some(shut), Seq::empty(), fresh);
                assert(beyond.drop_first() =~= after);
                let grown = res.add_text(curr).add_sibling(group_of(inner));
                assert(siblings(body, Some(shut), Seq::empty(), fresh) == Ok::<
                    (Tree, Seq<char>),
                    ParseError,
                >((group_of(inner), after)));
                assert(eat(open, body, curr, res) == Ok::<Reading, ParseError>(
                    Reading { rest: after, curr: Seq::empty(), res: grown },
                ));
                lemma_siblings_fed(others, tail, close, Seq::empty(), grown);
            },
        }
    }
}

/// The state that well-laid pieces feed the pass into holds the tree that
/// chained building gives for their tokens.
proof fn lemma_fed_built(pieces: Seq<Piece>, curr: Seq<char>, res: Tree)
    requires
        well_laid(pieces),
        curr.len() == 0 || pieces.len() == 0 || !(pieces[0] is Bare),
    ensures
        fed(pieces, curr, res).1.add_text(fed(pieces, curr, res).0) == built(
            res.add_text(curr),
            tokens(pieces),
        ),
    decreases pieces,
{
    if pieces.len() > 0 {
        let others = pieces.drop_first();
        let row = tokens(pieces);
        assert(well_laid_piece(pieces[0]) && well_laid(others));
        if others.len() > 0 {
            assert(others[0] == pieces[1]);
        }
        match pieces[0] {
            Piece::Gap(_) => {
                lemma_fed_built(others, Seq::empty(), res.add_text(curr));
            },
            Piece::Bare(w) => {
                assert(curr + w =~= w);
                lemma_fed_built(others, w, res);
                assert(row.drop_first() =~= tokens(others));
                assert(tree_of(row[0]) == Tree::Leaf(w));
                assert(built(res, row) == built(res.add_text(w), tokens(others)));
            },
            Piece::Quoted(_, w) => {
                let grown = res.add_text(curr).add_sibling(Tree::Leaf(w));
                lemma_fed_built(others, Seq::empty(), grown);
                assert(row.drop_first() =~= tokens(others));
                assert(tree_of(row[0]) == Tree::Leaf(w));
                assert(built(res.add_text(curr), row) == built(grown, tokens(others)));
            },
            Piece::Nested(_, inner) => {
                let fresh = Tree::Branch(Seq::empty());
                lemma_fed_built(inner, Seq::empty(), fresh);
                let grown = res.add_text(curr).add_sibling(group_of(inner));
                lemma_fed_built(others, Seq::empty(), grown);
                assert(row.drop_first() =~= tokens(others));
                assert(tree_of(row[0]) == built(fresh, tokens(inner)));
                assert(group_of(inner) == tree_of(row[0]));
                assert(built(res.add_text(curr), row) == built(grown, tokens(others)));
            },
        }
    }
}

/// Builder/parser equivalence: reading the text of a well-laid row of pieces
/// gives the tree that chained building, begun at the empty node, gives for
/// its tokens.
pub proof fn lemma_parse_is_built(pieces: Seq<Piece>)
    requires
        well_laid(pieces),
    ensures
        parse(text(pieces)) == Ok::<Tree, ParseError>(built(Tree::Empty, tokens(pieces))),
{
    let empty = Seq::<char>::empty();
    assert(text(pieces) + empty =~= text(pieces));
    lemma_siblings_fed(pieces, empty, None, empty, Tree::Empty);
    lemma_fed_built(pieces, empty, Tree::Empty);
}

/// Normalization: two well-laid texts with the same tokens read as the same
/// tree, however many separators stand between the tokens, whichever
/// brackets nest them and whether or not they are quoted.
pub proof fn lemma_same_tokens_same_tree(a: Seq<Piece>, b: Seq<Piece>)
    requires
        well_laid(a),
        well_laid(b),
        tokens(a) == tokens(b),
    ensures
        parse(text(a)) == parse(text(b)),
        parse(text(a)) is Ok,
{
    lemma_parse_is_built(a);
    lemma_parse_is_built(b);
}

/// A quoted literal whose closing quote never comes ends in the error that
/// names the quote.
pub proof fn lemma_quoted_unclosed(w: Seq<char>, quote: char, text: Seq<char>)
    requires
        quote != '\\',
    ensures
        quoted(escaped(w, quote), quote, text) == Err::<(Seq<char>, Seq<char>), ParseError>(
            ParseError::Unclosed(quote),
        ),
    decreases w.len(),
{
    if w.len() > 0 {
        let input = escaped(w, quote);
        let body = escaped(w.drop_first(), quote);
        lemma_quoted_unclosed(w.drop_first(), quote, text.push(w[0]));
        if w[0] == quote || w[0] == '\\' {
            assert(input.drop_first().drop_first() =~= body);
        } else {
            assert(input.drop_first() =~= body);
        }
    }
}

/// A quoted literal that ends right after a backslash ends in the error of
/// the truncated escape.
pub proof fn lemma_quoted_truncated(w: Seq<char>, quote: char, text: Seq<char>)
    requires
        quote != '\\',
    ensures
        quoted(escaped(w, quote) + seq!['\\'], quote, text) == Err::<
            (Seq<char>, Seq<char>),
            ParseError,
        >(ParseError::TruncatedEscape),
    decreases w.len(),
{
    let input = escaped(w, quote) + seq!['\\'];
    if w.len() == 0 {
        assert(input =~= seq!['\\']);
    } else {
        let body = escaped(w.drop_first(), quote) + seq!['\\'];
        lemma_quoted_truncated(w.drop_first(), quote, text.push(w[0]));
        if w[0] == quote || w[0] == '\\' {
            assert(input =~= seq!['\\', w[0]] + body);
            assert(input.drop_first().drop_first() =~= body);
        } else {
            assert(input =~= seq![w[0]] + body);
            assert(input.drop_first() =~= body);
        }
    }
}

/// An opened bracket that the input never closes is an error that carries
/// the closing bracket, whatever well-laid text stands before and inside it.
pub proof fn lemma_unclosed_bracket(before: Seq<Piece>, open: char, inner: Seq<Piece>)
    requires
        well_laid(before),
        well_laid(inner),
        closing(open) is Some,
    ensures
        parse(text(before) + seq![open] + text(inner)) == Err::<Tree, ParseError>(
            ParseError::Unclosed(closing(open).unwrap()),
        ),
{
    let empty = Seq::<char>::empty();
    let shut = closing(open).unwrap();
    let tail = seq![open] + text(inner);
    assert(text(before) + seq![open] + text(inner) =~= text(before) + tail);
    lemma_siblings_fed(before, tail, None, empty, Tree::Empty);
    assert(tail.drop_first() =~= text(inner) + empty);
    lemma_siblings_fed(inner, empty, Some(shut), empty, Tree::Branch(Seq::empty()));
    let (curr, res) = fed(before, empty, Tree::Empty);
    assert(tail[0] == open);
    assert(eat(open, tail.drop_first(), curr, res) == Err::<Reading, ParseError>(
        ParseError::Unclosed(shut),
    ));
}

/// An opened quote that the input never closes is an error that carries the
/// quote, whatever well-laid text stands before it.
pub proof fn lemma_unclosed_quote(before: Seq<Piece>, quote: char, w: Seq<char>)
    requires
        well_laid(before),
        is_quote(quote),
    ensures
        parse(text(before) + seq![quote] + escaped(w, quote)) == Err::<Tree, ParseError>(
            ParseError::Unclosed(quote),
        ),
{
    let empty = Seq::<char>::empty();
    let tail = seq![quote] + escaped(w, quote);
    assert(text(before) + seq![quote] + escaped(w, quote) =~= text(before) + tail);
    lemma_siblings_fed(before, tail, None, empty, Tree::Empty);
    assert(tail.drop_first() =~= escaped(w, quote));
    lemma_quoted_unclosed(w, quote, empty);
    let (curr, res) = fed(before, empty, Tree::Empty);
    assert(tail[0] == quote);
    assert(eat(quote, tail.drop_first(), curr, res) == Err::<Reading, ParseError>(
        ParseError::Unclosed(quote),
    ));
}

/// A backslash as the last character of the input, inside a quoted literal,
/// is the error of the truncated escape.
pub proof fn lemma_truncated_escape(before: Seq<Piece>, quote: char, w: Seq<char>)
    requires
        well_laid(before),
        is_quote(quote),
    ensures
        parse(text(before) + seq![quote] + escaped(w, quote) + seq!['\\']) == Err::<
            Tree,
            ParseError,
        >(ParseError::TruncatedEscape),
{
    let empty = Seq::<char>::empty();
    let tail = seq![quote] + (escaped(w, quote) + seq!['\\']);
    assert(text(before) + seq![quote] + escaped(w, quote) + seq!['\\'] =~= text(before) + tail);
    lemma_siblings_fed(before, tail, None, empty, Tree::Empty);
    assert(tail.drop_first() =~= escaped(w, quote) + seq!['\\']);
    lemma_quoted_truncated(w, quote, empty);
    let (curr, res) = fed(before, empty, Tree::Empty);
    assert(tail[0] == quote);
    assert(eat(quote, tail.drop_first(), curr, res) == Err::<Reading, ParseError>(
        ParseError::TruncatedEscape,
    ));
}

} // verus!
