//! The mathematical model of a tree of brackets.

use vstd::prelude::*;

verus! {

/// A tree as a value of mathematics: the children of a branch as a sequence,
/// the text of a leaf as a sequence of characters.
pub enum Tree {
    Branch(Seq<Tree>),
    Leaf(Seq<char>),
    Empty,
}

/// The node at offset `n` of a run of siblings, or the empty node where the
/// run has no such offset.
pub open spec fn nth(run: Seq<Tree>, n: nat) -> Tree {
    if n < run.len() {
        run[n as int]
    } else {
        Tree::Empty
    }
}

/// The siblings of a run from offset `n` on; none where the run has no such
/// offset.
pub open spec fn from_nth(run: Seq<Tree>, n: nat) -> Seq<Tree> {
    if n < run.len() {
        run.skip(n as int)
    } else {
        Seq::empty()
    }
}

impl Tree {
    /// The first child, or the empty node where there is none.
    pub open spec fn head(self) -> Tree {
        nth(self.children(), 0)
    }

    /// The children after the first.
    pub open spec fn tail(self) -> Seq<Tree> {
        from_nth(self.children(), 1)
    }

    /// The children from offset `n` on.
    pub open spec fn tail_n(self, n: nat) -> Seq<Tree> {
        from_nth(self.children(), n)
    }

    /// The child at offset `n`, or the empty node where there is none.
    pub open spec fn tail_h(self, n: nat) -> Tree {
        nth(self.children(), n)
    }

    /// The children of a branch; no children for a leaf or the empty node.
    pub open spec fn children(self) -> Seq<Tree> {
        match self {
            Tree::Branch(v) => v,
            _ => Seq::empty(),
        }
    }

    /// The text of a leaf; no text for a branch or the empty node.
    pub open spec fn text(self) -> Seq<char> {
        match self {
            Tree::Leaf(s) => s,
            _ => Seq::empty(),
        }
    }

    /// The node with `s` attached as one more sibling.
    ///
    /// An empty `s` is dropped. An empty node becomes `s`. A branch gets `s`
    /// as its last child. A leaf turns into a branch of itself and `s`.
    pub open spec fn add_sibling(self, s: Tree) -> Tree {
        if s is Empty {
            self
        } else {
            match self {
                Tree::Empty => s,
                Tree::Branch(v) => Tree::Branch(v.push(s)),
                Tree::Leaf(t) => Tree::Branch(seq![Tree::Leaf(t), s]),
            }
        }
    }

    /// The node with the text `s` attached as a leaf, unless `s` is empty.
    pub open spec fn add_text(self, s: Seq<char>) -> Tree {
        if s.len() == 0 {
            self
        } else {
            self.add_sibling(Tree::Leaf(s))
        }
    }

    /// No branch anywhere in the tree has an empty node among its children.
    pub open spec fn wf(self) -> bool
        decreases self,
    {
        match self {
            Tree::Branch(v) => forall|i: int|
                0 <= i < v.len() ==> !(v[i] is Empty) && (#[trigger] v[i]).wf(),
            _ => true,
        }
    }
}

/// Attaching a sibling keeps branches free of empty children.
pub proof fn lemma_add_sibling_wf(t: Tree, s: Tree)
    requires
        t.wf(),
        s.wf(),
    ensures
        t.add_sibling(s).wf(),
{
}

/// Attaching a text keeps branches free of empty children.
pub proof fn lemma_add_text_wf(t: Tree, s: Seq<char>)
    requires
        t.wf(),
    ensures
        t.add_text(s).wf(),
{
    lemma_add_sibling_wf(t, Tree::Leaf(s));
}

} // verus!
