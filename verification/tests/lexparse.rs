//! Tests of the tokenizer's edge cases and of the parser's errors and
//! round trip.

use emola_rs::{parse, render_tree, tokenize, ParseError, Tree};

fn toks(xs: &[&str]) -> Vec<String> {
    xs.iter().map(|x| x.to_string()).collect()
}

#[test]
fn tokenize_empty_and_spaces() {
    assert_eq!(Vec::<String>::new(), tokenize(""));
    assert_eq!(Vec::<String>::new(), tokenize("   "));
}

#[test]
fn tokenize_trailing_word_is_flushed() {
    assert_eq!(toks(&["abc"]), tokenize("abc"));
    assert_eq!(toks(&["abc", "de"]), tokenize("abc de"));
}

#[test]
fn tokenize_unterminated_literal_is_dropped() {
    assert_eq!(toks(&["abc"]), tokenize("abc \"def"));
}

#[test]
fn tokenize_adjacent_parens_split() {
    assert_eq!(toks(&["a", "(", "b", ")", "c"]), tokenize("a(b)c"));
}

#[test]
fn tokenize_string_literal_swallows_separators() {
    assert_eq!(toks(&["\"a(b) c\""]), tokenize("\"a(b) c\""));
}

#[test]
fn parse_reports_unbalanced_parens() {
    assert_eq!(Err(ParseError::UnexpectedClose), parse(&toks(&[")"])));
    assert_eq!(Err(ParseError::UnexpectedEnd), parse(&toks(&["("])));
    assert_eq!(Err(ParseError::UnexpectedEnd), parse(&toks(&["(", "a"])));
    assert_eq!(Err(ParseError::UnexpectedEnd), parse(&Vec::new()));
}

#[test]
fn parse_reads_one_expression() {
    assert_eq!(Ok(Tree::Leaf("a".to_string())), parse(&toks(&["a", "b"])));
}

#[test]
fn parse_nested_nodes() {
    let got = parse(&tokenize("(a (b c) ())")).unwrap();
    let expected = Tree::Node(vec![
        Tree::Leaf("a".to_string()),
        Tree::Node(vec![Tree::Leaf("b".to_string()), Tree::Leaf("c".to_string())]),
        Tree::Node(vec![]),
    ]);
    assert_eq!(expected, got);
}

#[test]
fn parse_mirrors_paren_nesting() {
    // Tokenizing, parsing, and walking the tree reproduces the source's
    // nesting regardless of spacing.
    let a = parse(&tokenize("(a (b c) d)")).unwrap();
    let b = parse(&tokenize("  (a   (b c)  d ) ")).unwrap();
    assert_eq!(a, b);
}

#[test]
fn render_reproduces_canonical_text() {
    let t = parse(&tokenize("( a ( b  c )   d )")).unwrap();
    assert_eq!("(a (b c) d)", render_tree(&t).as_str());
}

#[test]
fn render_then_reparse_gives_the_same_tree() {
    for src in [
        "(def plus (fn (x y) (+ x y)))",
        "(a (b c) ())",
        "(+ \"pi yo\" \"fu(ga\")",
        "leafy",
        "(if (= 1 1) (+ 1 2) (- 1 2))",
    ] {
        let t = parse(&tokenize(src)).unwrap();
        let text = render_tree(&t);
        let u = parse(&tokenize(&text)).unwrap();
        assert_eq!(t, u);
    }
}
