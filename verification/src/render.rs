//! Writing a tree out as text.
//!
//! The text shows the shape of the tree; it is not the text the tree was
//! read from. Quotes inside a leaf are written as they are, so reading the
//! text again need not give the same tree.

use vstd::prelude::*;
use crate::model::Tree;
use crate::tree::{Bracket, lemma_view_branch, views};

verus! {

/// The text of a tree: a leaf in double quotes, the children of a branch
/// with one space between them, the empty node as a fixed word.
pub open spec fn render(t: Tree) -> Seq<char>
    decreases t, 0nat,
{
    match t {
        Tree::Branch(v) => render_row(v, v.len()),
        Tree::Leaf(s) => seq!['"'] + s + seq!['"'],
        Tree::Empty => "--EMPTY--"@,
    }
}

/// The text of a child inside its parent: a branch stands in square
/// brackets.
pub open spec fn render_child(v: Seq<Tree>, i: int) -> Seq<char>
    decreases v, 0nat,
{
    if 0 <= i < v.len() {
        if v[i] is Branch {
            seq!['['] + render(v[i]) + seq![']']
        } else {
            render(v[i])
        }
    } else {
        Seq::empty()
    }
}

/// The text of the first `n` children of `v`, one space between two of them.
pub open spec fn render_row(v: Seq<Tree>, n: nat) -> Seq<char>
    decreases v, n,
{
    if n == 0 {
        Seq::empty()
    } else if n == 1 {
        render_child(v, 0)
    } else {
        render_row(v, (n - 1) as nat) + seq![' '] + render_child(v, n - 1)
    }
}

impl Bracket {
    /// The tree written out as text.
    pub fn to_string(&self) -> (r: String)
        ensures
            r@ == render(self@),
        decreases self,
    {
        match self {
            Bracket::Branch(v) => {
                proof {
                    lemma_view_branch(*v);
                }
                let mut out = String::new();
                let mut i: usize = 0;
                while i < v.len()
                    invariant
                        *self == Bracket::Branch(*v),
                        i <= v.len(),
                        out@ == render_row(views(v@), i as nat),
                    decreases v.len() - i,
                {
                    if i > 0 {
                        out.push(' ');
                    }
                    let child = &v[i];
                    proof {
                        assert(decreases_to!(*self => self->Branch_0));
                    }
                    let inner = child.to_string();
                    match child {
                        Bracket::Branch(_) => {
                            out.push('[');
                            out.append(inner.as_str());
                            out.push(']');
                        },
                        _ => {
                            out.append(inner.as_str());
                        },
                    }
                    assert(views(v@)[i as int] == child@);
                    assert(render_child(views(v@), i as int) == if child@ is Branch {
                        seq!['['] + render(child@) + seq![']']
                    } else {
                        render(child@)
                    });
                    assert(out@ =~= render_row(views(v@), (i + 1) as nat));
                    i += 1;
                }
                out
            },
            Bracket::Leaf(s) => {
                let mut out = String::new();
                out.push('"');
                out.append(s.as_str());
                out.push('"');
                assert(out@ =~= render(self@));
                out
            },
            Bracket::Empty => String::from_str("--EMPTY--"),
        }
    }
}

} // verus!
