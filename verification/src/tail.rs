//! A cursor over the siblings that remain in a branch.

use vstd::prelude::*;
use vstd::slice::slice_subrange;
use vstd::std_specs::iter::IteratorSpec;
use crate::model::{Tree, from_nth, nth};
use crate::tree::{Bracket, views};

verus! {

/// The node that stands for "nothing here" in every lookup.
pub const EMPTY_BRACKET: Bracket = Bracket::Empty;

/// The run of siblings with nothing in it.
pub const EMPTY_B_SLICE: [Bracket; 0] = [];

/// A borrowed view of the siblings that remain: a run that is not empty, or
/// nothing.
pub enum Tail<'a> {
    Rest(&'a [Bracket]),
    Empty,
}

impl<'a> View for Tail<'a> {
    type V = Seq<Tree>;

    open spec fn view(&self) -> Seq<Tree> {
        match self {
            Tail::Rest(v) => views(v@),
            Tail::Empty => Seq::empty(),
        }
    }
}

impl<'a> Tail<'a> {
    /// A cursor that rests on a run has at least one sibling in it.
    pub open spec fn wf(&self) -> bool {
        match self {
            Tail::Rest(v) => v@.len() > 0,
            Tail::Empty => true,
        }
    }

    /// The cursor over `v` from offset `n` on.
    pub(crate) fn over(v: &'a [Bracket], n: usize) -> (t: Tail<'a>)
        ensures
            t@ == from_nth(views(v@), n as nat),
            t.wf(),
            t is Empty <==> v@.len() <= n,
    {
        if v.len() <= n {
            Tail::Empty
        } else {
            let rest = slice_subrange(v, n, v.len());
            assert(views(rest@) =~= views(v@).skip(n as int));
            Tail::Rest(rest)
        }
    }

    /// The node of `v` at offset `n`, or the empty node.
    pub(crate) fn pick(v: &'a [Bracket], n: usize) -> (b: &'a Bracket)
        ensures
            b@ == nth(views(v@), n as nat),
            n < v@.len() ==> *b == v@[n as int],
            n >= v@.len() ==> *b == Bracket::Empty,
    {
        if v.len() <= n {
            &EMPTY_BRACKET
        } else {
            &v[n]
        }
    }

    /// The first of the remaining siblings, or the empty node.
    pub fn head(&'a self) -> (b: &'a Bracket)
        ensures
            b@ == nth(self@, 0),
    {
        match self {
            Tail::Rest(v) => Tail::pick(v, 0),
            Tail::Empty => &EMPTY_BRACKET,
        }
    }

    /// The cursor over the siblings after the first.
    pub fn tail(&'a self) -> (t: Tail<'a>)
        ensures
            t@ == from_nth(self@, 1),
            t.wf(),
            t is Empty <==> self@.len() <= 1,
    {
        match self {
            Tail::Rest(v) => Tail::over(v, 1),
            Tail::Empty => Tail::Empty,
        }
    }

    /// The cursor over the siblings from offset `n` on.
    pub fn tail_n(&'a self, n: usize) -> (t: Tail<'a>)
        ensures
            t@ == from_nth(self@, n as nat),
            t.wf(),
            t is Empty <==> self@.len() <= n,
    {
        match self {
            Tail::Rest(v) => Tail::over(v, n),
            Tail::Empty => Tail::Empty,
        }
    }

    /// The sibling at offset `n`, or the empty node.
    pub fn tail_h(&'a self, n: usize) -> (b: &'a Bracket)
        ensures
            b@ == nth(self@, n as nat),
    {
        match self {
            Tail::Rest(v) => Tail::pick(v, n),
            Tail::Empty => &EMPTY_BRACKET,
        }
    }

    /// The remaining siblings as one run, for walking them in order.
    pub fn as_slice(&self) -> (run: &'a [Bracket])
        ensures
            views(run@) == self@,
    {
        match self {
            Tail::Rest(v) => v,
            Tail::Empty => {
                let run: &'a [Bracket] = &EMPTY_B_SLICE;
                assert(views(run@) =~= Seq::<Tree>::empty());
                run
            },
        }
    }

    /// The first sibling and the cursor over the others.
    pub fn head_tail(&'a self) -> (r: (&'a Bracket, Tail<'a>))
        ensures
            r.0@ == nth(self@, 0),
            r.1@ == from_nth(self@, 1),
            r.1.wf(),
    {
        (self.head(), self.tail())
    }
}

/// Walking a cursor hands out the remaining siblings, first to last.
impl<'a> IntoIterator for Tail<'a> {
    type Item = &'a Bracket;

    type IntoIter = std::slice::Iter<'a, Bracket>;

    fn into_iter(self) -> (walk: Self::IntoIter)
        ensures
            walk.remaining().map_values(|b: &Bracket| b@) == self@,
            walk.decrease() is Some,
    {
        let run = self.as_slice();
        let walk = run.iter();
        assert(walk.remaining().map_values(|b: &Bracket| b@) =~= views(run@));
        walk
    }
}

} // verus!
