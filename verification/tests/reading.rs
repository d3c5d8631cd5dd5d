use bracket_parse::{br, lf, Bracket};

fn read(s: &str) -> Bracket {
    Bracket::from_str(s).unwrap()
}

fn error_of(s: &str) -> String {
    Bracket::from_str(s).unwrap_err()
}

#[test]
fn empty_text_is_the_empty_node() {
    assert_eq!(read(""), Bracket::Empty);
    assert_eq!(read("  , ,"), Bracket::Empty);
}

#[test]
fn one_token_is_a_leaf() {
    assert_eq!(read("a"), lf("a"));
    assert_eq!(read(" a "), lf("a"));
}

#[test]
fn second_token_promotes_the_leaf() {
    assert_eq!(
        read("a b"),
        Bracket::Branch(vec![lf("a"), lf("b")])
    );
}

#[test]
fn commas_and_spaces_separate_alike() {
    let expected = br().sib_lf("a").sib_lf("b").sib_lf("c");
    assert_eq!(read("a b c"), expected);
    assert_eq!(read("a,b,c"), expected);
    assert_eq!(read("a,,b , ,c,"), expected);
    assert_eq!(read(",  a   b,c  "), expected);
}

#[test]
fn a_tab_is_no_separator() {
    assert_eq!(read("a\tb"), lf("a\tb"));
}

#[test]
fn nested_example_of_the_notation() {
    let parsed = read("hello(peter,dave)");
    let built = br()
        .sib_lf("hello")
        .sib(br().sib_lf("peter").sib_lf("dave"));
    assert_eq!(parsed, built);
    assert_eq!(
        parsed,
        Bracket::Branch(vec![
            lf("hello"),
            Bracket::Branch(vec![lf("peter"), lf("dave")]),
        ])
    );
}

#[test]
fn the_three_brackets_read_alike() {
    let expected = br().sib_lf("x").sib(br().sib_lf("a").sib_lf("b"));
    assert_eq!(read("x (a b)"), expected);
    assert_eq!(read("x {a b}"), expected);
    assert_eq!(read("x [a b]"), expected);
}

#[test]
fn empty_group_stays_as_an_empty_branch() {
    let parsed = read("matt () dave");
    assert_eq!(
        parsed,
        Bracket::Branch(vec![lf("matt"), Bracket::Branch(vec![]), lf("dave")])
    );
    assert_eq!(read("()"), Bracket::Branch(vec![]));
}

#[test]
fn a_leading_group_is_adopted_by_the_empty_node() {
    assert_eq!(read("(a b)"), Bracket::Branch(vec![lf("a"), lf("b")]));
    assert_eq!(
        read("(a b) c"),
        Bracket::Branch(vec![lf("a"), lf("b"), lf("c")])
    );
}

#[test]
fn a_foreign_closing_bracket_is_an_ordinary_character() {
    assert_eq!(read("a)"), lf("a)"));
    assert_eq!(read("(a])"), Bracket::Branch(vec![lf("a]")]));
}

#[test]
fn quoted_text_is_one_leaf() {
    assert_eq!(read(r#""a (b), c""#), lf("a (b), c"));
    assert_eq!(read("'a \"b\" c'"), lf("a \"b\" c"));
    assert_eq!(read(r#""""#), lf(""));
}

#[test]
fn escapes_take_the_next_character_literally() {
    assert_eq!(read(r#""andy \"hates\" cheese""#), lf(r#"andy "hates" cheese"#));
    assert_eq!(read(r#"'it\'s'"#), lf("it's"));
    assert_eq!(read(r#""a\\b""#), lf(r#"a\b"#));
    assert_eq!(read(r#""a\nb""#), lf("anb"));
}

#[test]
fn a_quote_ends_the_bare_token_before_it() {
    assert_eq!(
        read(r#"matt"dave""#),
        Bracket::Branch(vec![lf("matt"), lf("dave")])
    );
    assert_eq!(
        read(r#""hello" 'matt"' "and \"friends\"""#),
        br().sib_lf("hello").sib_lf("matt\"").sib_lf("and \"friends\"")
    );
}

#[test]
fn an_empty_quoted_leaf_is_kept_among_siblings() {
    assert_eq!(
        read(r#"a "" b"#),
        Bracket::Branch(vec![lf("a"), lf(""), lf("b")])
    );
}

#[test]
fn unclosed_bracket_names_the_missing_character() {
    assert_eq!(error_of("peop ( er"), "Close Delim ')' not found");
    assert_eq!(error_of("{"), "Close Delim '}' not found");
    assert_eq!(error_of("a [b c"), "Close Delim ']' not found");
    assert_eq!(error_of("([)"), "Close Delim ']' not found");
    assert_eq!(error_of("(()"), "Close Delim ')' not found");
}

#[test]
fn unclosed_quote_names_the_missing_quote() {
    assert_eq!(error_of(r#""poop"#), "Close Delim '\"' not found");
    assert_eq!(error_of("'x"), "Close Delim ''' not found");
    assert_eq!(error_of(r#"("a)"#), "Close Delim '\"' not found");
}

#[test]
fn backslash_at_the_end_of_a_literal_is_an_error() {
    assert_eq!(error_of("\"a\\"), "Escape before end of string");
    assert_eq!(error_of("'\\"), "Escape before end of string");
}

#[test]
fn a_backslash_outside_quotes_is_an_ordinary_character() {
    assert_eq!(read(r#"a\ b"#), Bracket::Branch(vec![lf("a\\"), lf("b")]));
}

#[test]
fn non_ascii_text_is_read_by_characters() {
    assert_eq!(
        read("héllo (wörld, 'ça va')"),
        br().sib_lf("héllo").sib(br().sib_lf("wörld").sib_lf("ça va"))
    );
}

#[test]
fn layouts_of_the_same_tokens_read_alike() {
    let a = read("a b (c d)");
    assert_eq!(a, read("a b( c d)"));
    assert_eq!(a, read(" a   b  (  c  d )  "));
    assert_eq!(a, read("a,b,[c,d]"));
    assert_eq!(a, read("'a' \"b\" {'c' d}"));
    assert_eq!(a, br().sib_lf("a").sib_lf("b").sib(br().sib_lf("c").sib_lf("d")));
}

#[test]
fn deep_nesting_matches_the_chain_of_builders() {
    let parsed = read("a (b (c (d)) e) f");
    let built = br()
        .sib_lf("a")
        .sib(
            br().sib_lf("b")
                .sib(br().sib_lf("c").sib(br().sib_lf("d")))
                .sib_lf("e"),
        )
        .sib_lf("f");
    assert_eq!(parsed, built);
}

#[test]
fn no_branch_of_a_read_tree_has_an_empty_child() {
    fn sound(b: &Bracket) -> bool {
        match b {
            Bracket::Branch(v) => v.iter().all(|c| *c != Bracket::Empty && sound(c)),
            _ => true,
        }
    }
    assert!(sound(&read("a () (b ()) '' , ,")));
}
