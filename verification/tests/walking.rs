use bracket_parse::{br, lf, Bracket, BracketIter, Tail, EMPTY_B_SLICE};

fn four() -> Bracket {
    br().sib_lf("m0").sib_lf("m1").sib_lf("m2").sib_lf("m3")
}

#[test]
fn head_is_the_first_child() {
    assert_eq!(four().head(), &lf("m0"));
    assert_eq!(br().sib(br().sib_lf("x")).head(), &Bracket::Branch(vec![lf("x")]));
}

#[test]
fn lookups_that_find_nothing_give_the_empty_node() {
    assert_eq!(lf("a").head(), &Bracket::Empty);
    assert_eq!(Bracket::Empty.head(), &Bracket::Empty);
    assert_eq!(br().head(), &Bracket::Empty);
    assert_eq!(lf("a").tail_h(0), &Bracket::Empty);
    assert_eq!(Bracket::Empty.tail_h(3), &Bracket::Empty);
    assert_eq!(four().tail_h(4), &Bracket::Empty);
    assert_eq!(four().tail_h(usize::MAX), &Bracket::Empty);
}

#[test]
fn tail_h_is_the_child_at_the_offset() {
    let b = four();
    assert_eq!(b.tail_h(0), &lf("m0"));
    assert_eq!(b.tail_h(1), &lf("m1"));
    assert_eq!(b.tail_h(3), &lf("m3"));
}

#[test]
fn tail_rests_on_the_children_after_the_first() {
    let b = four();
    match b.tail() {
        Tail::Rest(v) => assert_eq!(v, &[lf("m1"), lf("m2"), lf("m3")][..]),
        Tail::Empty => panic!("the tail of four children is not exhausted"),
    }
}

#[test]
fn short_branches_and_other_nodes_have_an_exhausted_tail() {
    assert!(matches!(br().tail(), Tail::Empty));
    assert!(matches!(br().sib_lf("a").tail(), Tail::Empty));
    assert!(matches!(lf("a").tail(), Tail::Empty));
    assert!(matches!(Bracket::Empty.tail(), Tail::Empty));
    assert!(matches!(lf("a").tail_n(0), Tail::Empty));
}

#[test]
fn tail_n_starts_at_the_offset() {
    let b = four();
    match b.tail_n(0) {
        Tail::Rest(v) => assert_eq!(v.len(), 4),
        Tail::Empty => panic!("offset 0 of four children is not exhausted"),
    }
    match b.tail_n(3) {
        Tail::Rest(v) => assert_eq!(v, &[lf("m3")][..]),
        Tail::Empty => panic!("offset 3 of four children is not exhausted"),
    }
    assert!(matches!(b.tail_n(4), Tail::Empty));
    assert!(matches!(b.tail_n(100), Tail::Empty));
}

#[test]
fn head_and_tail_agree_on_offsets() {
    let b = four();
    assert_eq!(b.tail().tail_h(2), &lf("m3"));
    assert_eq!(b.tail_n(3).head(), &lf("m3"));
    assert_eq!(b.tail_h(3), &lf("m3"));
    for n in 0..6 {
        assert_eq!(b.tail().tail_h(n), b.tail_n(n + 1).head());
        assert_eq!(b.tail().tail_h(n), b.tail_h(n + 1));
    }
}

#[test]
fn head_tail_is_head_and_tail() {
    let b = four();
    let (h, t) = b.head_tail();
    assert_eq!(h, &lf("m0"));
    assert_eq!(t.head(), &lf("m1"));
    let (h2, t2) = t.head_tail();
    assert_eq!(h2, &lf("m1"));
    assert_eq!(t2.head(), &lf("m2"));
    let leaf = lf("x");
    let (h3, t3) = leaf.head_tail();
    assert_eq!(h3, &Bracket::Empty);
    assert!(matches!(t3, Tail::Empty));
}

#[test]
fn a_cursor_walks_down_to_exhaustion() {
    let b = four();
    let t1 = b.tail();
    let t2 = t1.tail();
    let t3 = t2.tail();
    assert_eq!(t2.head(), &lf("m2"));
    assert_eq!(t3.head(), &lf("m3"));
    assert!(matches!(t3.tail(), Tail::Empty));
    assert!(matches!(t1.tail_n(3), Tail::Empty));
    assert_eq!(t1.tail_n(2).head(), &lf("m3"));
}

#[test]
fn an_exhausted_cursor_finds_nothing() {
    let t = Tail::Empty;
    assert_eq!(t.head(), &Bracket::Empty);
    assert_eq!(t.tail_h(0), &Bracket::Empty);
    assert!(matches!(t.tail(), Tail::Empty));
    assert!(matches!(t.tail_n(0), Tail::Empty));
    assert!(t.as_slice().is_empty());
    assert_eq!(t.into_iter().count(), 0);
}

#[test]
fn a_cursor_on_an_empty_run_finds_nothing() {
    let t = Tail::Rest(&EMPTY_B_SLICE);
    assert_eq!(t.head(), &Bracket::Empty);
    assert_eq!(t.tail_h(1), &Bracket::Empty);
    assert!(matches!(t.tail(), Tail::Empty));
    assert!(matches!(t.tail_n(0), Tail::Empty));
}

#[test]
fn walking_a_cursor_gives_the_remaining_siblings() {
    let b = four();
    let texts: Vec<&str> = b.tail().into_iter().map(|c| c.match_str()).collect();
    assert_eq!(texts, vec!["m1", "m2", "m3"]);
    assert_eq!(b.tail_n(2).as_slice(), &[lf("m2"), lf("m3")][..]);
}

#[test]
fn walking_a_node_gives_its_children() {
    let b = four();
    let texts: Vec<&str> = (&b).into_iter().map(|c| c.match_str()).collect();
    assert_eq!(texts, vec!["m0", "m1", "m2", "m3"]);
    let again: Vec<&str> = b.children().iter().map(|c| c.match_str()).collect();
    assert_eq!(again, texts);
    assert_eq!((&lf("x")).into_iter().count(), 0);
    assert_eq!((&Bracket::Empty).into_iter().count(), 0);
    assert!(lf("x").children().is_empty());
}

#[test]
fn bracket_iter_hands_out_each_child_once() {
    let b = br().sib_lf("a").sib(br().sib_lf("b"));
    let mut it = BracketIter::new(&b);
    assert_eq!(it.next(), Some(&lf("a")));
    assert_eq!(it.next(), Some(&Bracket::Branch(vec![lf("b")])));
    assert_eq!(it.next(), None);
    assert_eq!(it.next(), None);
    let mut again = BracketIter::new(&b);
    assert_eq!(again.next(), Some(&lf("a")));
}

#[test]
fn bracket_iter_over_a_node_without_children_is_exhausted() {
    let leaf = lf("a");
    assert_eq!(BracketIter::new(&leaf).next(), None);
    let empty = Bracket::Empty;
    assert_eq!(BracketIter::new(&empty).next(), None);
    let bare = br();
    assert_eq!(BracketIter::new(&bare).next(), None);
}
