//! Walking the children of a node, first to last.

use vstd::prelude::*;
use crate::model::Tree;
use crate::tree::{Bracket, lemma_view_branch};

verus! {

/// A walk over the direct children of a node. A node that is no branch has
/// none.
pub struct BracketIter<'a> {
    n: &'a Bracket,
    i: usize,
}

impl<'a> BracketIter<'a> {
    /// The children that the walk is over.
    pub closed spec fn all(&self) -> Seq<Tree> {
        self.n@.children()
    }

    /// How many children the walk has handed out.
    pub closed spec fn done(&self) -> nat {
        self.i as nat
    }

    /// The walk never runs past the last child.
    #[verifier::type_invariant]
    spec fn inv(&self) -> bool {
        self.i <= self.n@.children().len()
    }

    /// A walk over the children of `b`, at its start.
    pub fn new(b: &'a Bracket) -> (it: Self)
        ensures
            it.all() == b@.children(),
            it.done() == 0,
    {
        BracketIter { n: b, i: 0 }
    }

    /// The next child, or `None` once all have been handed out.
    pub fn next(&mut self) -> (r: Option<&'a Bracket>)
        ensures
            final(self).all() == old(self).all(),
            old(self).done() <= old(self).all().len(),
            match r {
                Some(b) => old(self).done() < old(self).all().len() && b@ == old(self).all()[old(
                    self,
                ).done() as int] && final(self).done() == old(self).done() + 1,
                None => old(self).done() == old(self).all().len() && final(self).done() == old(
                    self,
                ).done(),
            },
    {
        proof {
            use_type_invariant(&*self);
        }
        match self.n {
            Bracket::Branch(v) => {
                proof {
                    lemma_view_branch(*v);
                }
                if self.i >= v.len() {
                    return None;
                }
                self.i += 1;
                Some(&v[self.i - 1])
            },
            _ => None,
        }
    }
}

} // verus!
