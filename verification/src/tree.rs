//! The tree that parsing produces.

use vstd::prelude::*;
use vstd::std_specs::iter::IteratorSpec;
use crate::model::{Tree, lemma_add_sibling_wf, lemma_add_text_wf};
use crate::tail::{EMPTY_BRACKET, EMPTY_B_SLICE, Tail};

verus! {

/// A node of the parsed tree.
#[derive(Debug)]
pub enum Bracket {
    Branch(Vec<Bracket>),
    Leaf(String),
    Empty,
}

/// The models of a run of nodes, in order.
pub open spec fn views(s: Seq<Bracket>) -> Seq<Tree> {
    s.map_values(|b: Bracket| b@)
}

impl View for Bracket {
    type V = Tree;

    open spec fn view(&self) -> Tree
        decreases self,
    {
        match self {
            Bracket::Branch(v) => Tree::Branch(
                Seq::new(
                    v.len() as nat,
                    |i: int|
                        if 0 <= i < v.len() {
                            v[i].view()
                        } else {
                            Tree::Empty
                        },
                ),
            ),
            Bracket::Leaf(s) => Tree::Leaf(s@),
            Bracket::Empty => Tree::Empty,
        }
    }
}

/// The model of a branch holds the models of its children.
pub proof fn lemma_view_branch(v: Vec<Bracket>)
    ensures
        Bracket::Branch(v)@ == Tree::Branch(views(v@)),
{
    assert(Bracket::Branch(v)@->Branch_0 =~= views(v@));
}

/// A leaf holding `s`.
pub fn lf(s: &str) -> (r: Bracket)
    ensures
        r@ == Tree::Leaf(s@),
        r@.wf(),
{
    Bracket::Leaf(s.to_owned())
}

/// A branch without children.
pub fn br() -> (r: Bracket)
    ensures
        r@ == Tree::Branch(Seq::empty()),
        r@.wf(),
{
    let v: Vec<Bracket> = Vec::new();
    proof {
        lemma_view_branch(v);
        assert(views(v@) =~= Seq::empty());
    }
    Bracket::Branch(v)
}

impl Bracket {
    /// Attaches the text `s` as a leaf, unless it is empty.
    pub fn add_sib_str(&mut self, s: String)
        ensures
            final(self)@ == old(self)@.add_text(s@),
            old(self)@.wf() ==> final(self)@.wf(),
    {
        proof {
            if self@.wf() {
                lemma_add_text_wf(self@, s@);
            }
        }
        if s.as_str().is_empty() {
            return;
        }
        self.add_sibling(Bracket::Leaf(s));
    }

    /// Attaches `s` as one more sibling: an empty `s` is dropped, an empty
    /// node becomes `s`, a branch gets `s` as its last child, and a leaf
    /// turns into a branch of itself and `s`.
    pub fn add_sibling(&mut self, s: Bracket)
        ensures
            final(self)@ == old(self)@.add_sibling(s@),
            old(self)@.wf() && s@.wf() ==> final(self)@.wf(),
    {
        proof {
            if self@.wf() && s@.wf() {
                lemma_add_sibling_wf(self@, s@);
            }
        }
        if let Bracket::Empty = s {
            return;
        }
        match self {
            Bracket::Branch(v) => {
                proof {
                    lemma_view_branch(*v);
                }
                let ghost before = v@;
                v.push(s);
                proof {
                    lemma_view_branch(*v);
                    assert(views(v@) =~= views(before).push(s@));
                }
            },
            Bracket::Empty => {
                *self = s;
            },
            Bracket::Leaf(content) => {
                let c = content.clone();
                let mut v: Vec<Bracket> = Vec::new();
                v.push(Bracket::Leaf(c));
                v.push(s);
                proof {
                    lemma_view_branch(v);
                    assert(views(v@) =~= seq![Tree::Leaf(c@), s@]);
                }
                *self = Bracket::Branch(v);
            },
        }
    }

    /// The node with `s` attached as one more sibling, for building a tree
    /// in a chain of calls.
    pub fn sib(self, s: Bracket) -> (r: Bracket)
        ensures
            r@ == self@.add_sibling(s@),
            self@.wf() && s@.wf() ==> r@.wf(),
    {
        let mut node = self;
        node.add_sibling(s);
        node
    }

    /// The node with a leaf holding `s` attached as one more sibling.
    pub fn sib_lf(self, s: &str) -> (r: Bracket)
        ensures
            r@ == self@.add_sibling(Tree::Leaf(s@)),
            self@.wf() ==> r@.wf(),
    {
        self.sib(lf(s))
    }

    /// Whether two trees are the same tree: the same shape with the same
    /// texts.
    fn same(&self, other: &Bracket) -> (r: bool)
        ensures
            r == (self@ == other@),
        decreases self,
    {
        match (self, other) {
            (Bracket::Branch(a), Bracket::Branch(b)) => {
                proof {
                    lemma_view_branch(*a);
                    lemma_view_branch(*b);
                }
                if a.len() != b.len() {
                    assert(views(a@).len() != views(b@).len());
                    return false;
                }
                let mut i: usize = 0;
                while i < a.len()
                    invariant
                        self is Branch && self->Branch_0 == *a,
                        self@ == Tree::Branch(views(a@)),
                        other@ == Tree::Branch(views(b@)),
                        a.len() == b.len(),
                        i <= a.len(),
                        forall|j: int| 0 <= j < i ==> a[j]@ == b[j]@,
                    decreases a.len() - i,
                {
                    proof {
                        assert(decreases_to!(*self => self->Branch_0));
                    }
                    if !a[i].same(&b[i]) {
                        assert(views(a@)[i as int] != views(b@)[i as int]);
                        return false;
                    }
                    i += 1;
                }
                assert forall|j: int| 0 <= j < a.len() implies views(a@)[j] == views(b@)[j] by {
                    assert(a[j]@ == b[j]@);
                }
                assert(views(a@) =~= views(b@));
                true
            },
            (Bracket::Leaf(x), Bracket::Leaf(y)) => *x == *y,
            (Bracket::Empty, Bracket::Empty) => true,
            _ => false,
        }
    }

    /// The children of a branch as one run, for walking them in order; a
    /// node that is no branch has none.
    pub fn children<'a>(&'a self) -> (run: &'a [Bracket])
        ensures
            views(run@) == self@.children(),
    {
        match self {
            Bracket::Branch(v) => {
                proof {
                    lemma_view_branch(*v);
                }
                v.as_slice()
            },
            _ => {
                let run: &'a [Bracket] = &EMPTY_B_SLICE;
                assert(views(run@) =~= Seq::<Tree>::empty());
                run
            },
        }
    }

    /// The first child of a branch, or the empty node where the node is no
    /// branch or has no child.
    pub fn head<'a>(&'a self) -> (b: &'a Bracket)
        ensures
            b@ == self@.head(),
    {
        match self {
            Bracket::Branch(v) => {
                proof {
                    lemma_view_branch(*v);
                }
                Tail::pick(v.as_slice(), 0)
            },
            _ => &EMPTY_BRACKET,
        }
    }

    /// The cursor over the children after the first; it rests on nothing
    /// where there are fewer than two children.
    pub fn tail<'a>(&'a self) -> (t: Tail<'a>)
        ensures
            t@ == self@.tail(),
            t.wf(),
            t is Empty <==> self@.children().len() <= 1,
    {
        match self {
            Bracket::Branch(v) => {
                proof {
                    lemma_view_branch(*v);
                }
                Tail::over(v.as_slice(), 1)
            },
            _ => Tail::Empty,
        }
    }

    /// The cursor over the children from offset `n` on; it rests on nothing
    /// where `n` is at or beyond the number of children.
    pub fn tail_n<'a>(&'a self, n: usize) -> (t: Tail<'a>)
        ensures
            t@ == self@.tail_n(n as nat),
            t.wf(),
            t is Empty <==> self@.children().len() <= n,
    {
        match self {
            Bracket::Branch(v) => {
                proof {
                    lemma_view_branch(*v);
                }
                Tail::over(v.as_slice(), n)
            },
            _ => Tail::Empty,
        }
    }

    /// The child at offset `n`, or the empty node where there is none.
    pub fn tail_h<'a>(&'a self, n: usize) -> (b: &'a Bracket)
        ensures
            b@ == self@.tail_h(n as nat),
    {
        match self {
            Bracket::Branch(v) => {
                proof {
                    lemma_view_branch(*v);
                }
                Tail::pick(v.as_slice(), n)
            },
            _ => &EMPTY_BRACKET,
        }
    }

    /// The first child and the cursor over the others.
    pub fn head_tail<'a>(&'a self) -> (r: (&'a Bracket, Tail<'a>))
        ensures
            r.0@ == self@.head(),
            r.1@ == self@.tail(),
            r.1.wf(),
    {
        (self.head(), self.tail())
    }

    /// The text of a leaf; the empty text for any other node.
    pub fn match_str<'a>(&'a self) -> (r: &'a str)
        ensures
            r@ == self@.text(),
    {
        match self {
            Bracket::Leaf(s) => s.as_str(),
            _ => {
                proof {
                    reveal_strlit("");
                }
                assert(""@ =~= Seq::<char>::empty());
                ""
            },
        }
    }

    /// The text of a leaf, owned; the empty text for any other node.
    pub fn string_val(&self) -> (r: String)
        ensures
            r@ == self@.text(),
    {
        self.match_str().to_owned()
    }
}

/// Walking a node hands out its direct children, first to last.
impl<'a> IntoIterator for &'a Bracket {
    type Item = &'a Bracket;

    type IntoIter = std::slice::Iter<'a, Bracket>;

    fn into_iter(self) -> (walk: Self::IntoIter)
        ensures
            walk.remaining().map_values(|b: &Bracket| b@) == self@.children(),
            walk.decrease() is Some,
    {
        let run = self.children();
        let walk = run.iter();
        assert(walk.remaining().map_values(|b: &Bracket| b@) =~= views(run@));
        walk
    }
}

impl PartialEq for Bracket {
    fn eq(&self, other: &Bracket) -> (r: bool) {
        self.same(other)
    }
}

impl vstd::std_specs::cmp::PartialEqSpecImpl for Bracket {
    open spec fn obeys_eq_spec() -> bool {
        true
    }

    open spec fn eq_spec(&self, other: &Bracket) -> bool {
        self@ == other@
    }
}

} // verus!
