use bracket_parse::{br, lf, Bracket};
use std::str::FromStr;

#[test]
fn spaces() {
    let b1 = Bracket::from_str("matt dave (andy steve)").unwrap();
    let c1 = br()
        .sib_lf("matt")
        .sib_lf("dave")
        .sib(br().sib_lf("andy").sib_lf("steve"));

    let b2 = Bracket::from_str("matt dave( andy steve)").unwrap();
    let b3 = Bracket::from_str(" matt   dave  (   andy    steve  )  ").unwrap();
    assert_eq!(b1, c1);
    assert_eq!(b1, b2);
    assert_eq!(b1, b3);
}

#[test]
fn empty_parent() {
    let b1 = Bracket::from_str("matt () dave").unwrap();
    let c1 = br().sib_lf("matt").sib(br()).sib_lf("dave");
    assert_eq!(b1, c1);
}

#[test]
fn many_parent() {
    let b1 = Bracket::from_str("matt ({[() ()]})").unwrap();
    let c1 = lf("matt").sib(br().sib(br().sib(br().sib(br()).sib(br()))));
    assert_eq!(b1, c1);
}

#[test]
fn strings() {
    let b1 = Bracket::from_str(r#"matt"dave""#).unwrap();
    let c1 = br().sib_lf("matt").sib_lf("dave");

    assert_eq!(b1, c1);

    let b2 = Bracket::from_str(r#""andy \"hates\" cheese""#).unwrap();
    let c2 = lf(r#"andy "hates" cheese"#);
    assert_eq!(b2, c2);
}

#[test]
fn errors() {
    assert!(Bracket::from_str("peop ( er").is_err());
    assert!(Bracket::from_str(r#""poop"#).is_err());
}

#[test]
fn test_head_tail() {
    let b1 = Bracket::from_str("hello (andy dave)").unwrap();
    match b1.head().match_str() {
        "hello" => {} //Where the actual code might go
        _ => panic!("Head is not hello leaf"),
    }
}

#[test]
fn many_tails() {
    let pb = br()
        .sib_lf("matt")
        .sib_lf("dave")
        .sib_lf("pete")
        .sib_lf("andy");

    let t1 = pb.tail(); //pb is parent bracket, t1 is tail
    let t4 = t1.tail_h(2).match_str();
    assert_eq!(t4, "andy");

    let th1 = pb.tail_h(3).match_str();

    assert_eq!(t4, th1);
}

#[test]
fn test_to_string() {
    let br = Bracket::from_str("matt dave( andy steve)").unwrap();
    let bs = br.to_string();

    assert_eq!(&bs, r#""matt" "dave" ["andy" "steve"]"#);
}

#[test]
fn bracket_iter() {
    let bk = br().sib_lf("a").sib_lf("b").sib_lf("c");
    assert_eq!((&bk).into_iter().last().unwrap().match_str(), "c");
}

#[test]
fn from_str_through_the_trait() {
    let b: Bracket = "hello(peter,dave)".parse().unwrap();
    let basic = Bracket::Branch(vec![
        Bracket::Leaf("hello".to_string()),
        Bracket::Branch(vec![
            Bracket::Leaf("peter".to_string()),
            Bracket::Leaf("dave".to_string()),
        ]),
    ]);
    assert_eq!(b, basic);
    assert_eq!(<Bracket as FromStr>::from_str("a b").unwrap(), br().sib_lf("a").sib_lf("b"));
}
