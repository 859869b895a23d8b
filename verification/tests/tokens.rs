use exprtree::tree::token::{find_groups, fix_groups, rm_sides_add_mul, to_add, to_div, to_float,
    to_multiply, tokenize, tokenizer, Token};
use exprtree::TreeError;

fn chars(s: &str) -> Vec<char> {
    s.chars().collect()
}

fn words(ws: &[&str]) -> Vec<String> {
    ws.iter().map(|w| w.to_string()).collect()
}

fn num(v: f32) -> Token {
    Token::NUM(v.to_bits())
}

fn var(s: &str) -> Token {
    Token::VAR(chars(s))
}

#[test]
fn single_token_words() {
    assert_eq!(tokenizer(chars("2")), num(2.0));
    assert_eq!(tokenizer(chars("2.5")), num(2.5));
    assert_eq!(tokenizer(chars("+")), Token::ADD);
    assert_eq!(tokenizer(chars("*")), Token::MUL);
    assert_eq!(tokenizer(chars("/")), Token::DIV);
    assert_eq!(tokenizer(chars("x")), var("x"));
    assert_eq!(tokenizer(chars("alpha")), var("alpha"));
}

#[test]
fn to_token_helpers() {
    assert_eq!(to_add(&chars("+")), Some(Token::ADD));
    assert_eq!(to_add(&chars("x")), None);
    assert_eq!(to_multiply(&chars("*")), Some(Token::MUL));
    assert_eq!(to_multiply(&chars("+")), None);
    assert_eq!(to_div(&chars("/")), Some(Token::DIV));
    assert_eq!(to_div(&chars("*")), None);
    assert_eq!(to_float(&chars("3.25")), Some(num(3.25)));
    assert_eq!(to_float(&chars("-1")), Some(num(-1.0)));
    assert_eq!(to_float(&chars("y")), None);
}

#[test]
fn tokenize_simple_expression() {
    let toks = tokenize(words(&["2", "+", "3"]));
    assert_eq!(toks, vec![num(2.0), Token::ADD, num(3.0)]);
}

#[test]
fn tokenize_groups() {
    let toks = tokenize(words(&["(", "2", "+", "3", ")", "*", "4"]));
    assert_eq!(
        toks,
        vec![
            Token::LGROUP,
            num(2.0),
            Token::ADD,
            num(3.0),
            Token::RGROUP,
            Token::MUL,
            num(4.0)
        ]
    );
}

#[test]
fn tokenize_leading_parens_word() {
    assert_eq!(tokenize(words(&["((x"])), vec![Token::LGROUP, Token::LGROUP, var("x")]);
    assert_eq!(tokenize(words(&["(("])), vec![Token::LGROUP, Token::LGROUP]);
    assert_eq!(tokenize(words(&["("])), vec![Token::LGROUP]);
}

#[test]
fn tokenize_trailing_parens_word() {
    assert_eq!(tokenize(words(&["x)"])), vec![var("x"), Token::RGROUP]);
    assert_eq!(tokenize(words(&["xy))"])), vec![var("xy"), Token::RGROUP, Token::RGROUP]);
    assert_eq!(tokenize(words(&[")"])), vec![Token::RGROUP]);
}

#[test]
fn tokenize_minus_words() {
    assert_eq!(tokenize(words(&["-x"])), vec![num(-1.0), Token::MUL, var("x")]);
    assert_eq!(tokenize(words(&["-"])), vec![Token::ADD, num(-1.0), Token::MUL]);
    // a leading minus always becomes multiplication by negative one, even
    // before a numeric word
    assert_eq!(tokenize(words(&["-2"])), vec![num(-1.0), Token::MUL, num(2.0)]);
}

#[test]
fn tokenize_caret_words() {
    assert_eq!(tokenize(words(&["^2"])), vec![Token::EXP, num(2.0)]);
    assert_eq!(tokenize(words(&["^"])), vec![Token::EXP]);
}

#[test]
fn find_groups_locates_sorted_pairs() {
    let toks = tokenize(words(&["(", "(", "x", ")", ")", "+", "(", "y", ")"]));
    let gs = find_groups(&toks).unwrap();
    assert_eq!(gs, vec![(0, 4), (1, 3), (6, 8)]);
}

#[test]
fn find_groups_empty_when_no_groups() {
    let toks = tokenize(words(&["x", "+", "y"]));
    assert_eq!(find_groups(&toks).unwrap(), Vec::<(usize, usize)>::new());
}

#[test]
fn find_groups_rejects_unbalanced() {
    let toks = tokenize(words(&["(", "x", "+", "y"]));
    assert_eq!(find_groups(&toks), Err(TreeError::MalformedGroups));
    let toks2 = tokenize(words(&[")", "("]));
    assert_eq!(find_groups(&toks2), Err(TreeError::MalformedGroups));
    let toks3 = tokenize(words(&["(", "("]));
    assert_eq!(find_groups(&toks3), Err(TreeError::MalformedGroups));
}

#[test]
fn fix_groups_strips_spanning_pair() {
    let toks = tokenize(words(&["(", "x", "+", "y", ")"]));
    let (fixed, gs) = fix_groups(toks).unwrap();
    assert_eq!(fixed, vec![var("x"), Token::ADD, var("y")]);
    assert!(gs.is_empty());
}

#[test]
fn fix_groups_inserts_implicit_multiplication() {
    let toks = tokenize(words(&["2", "(", "x", "+", "1", ")"]));
    let (fixed, gs) = fix_groups(toks).unwrap();
    assert_eq!(
        fixed,
        vec![num(2.0), Token::MUL, Token::LGROUP, var("x"), Token::ADD, num(1.0), Token::RGROUP]
    );
    assert_eq!(gs, vec![(2, 6)]);
}

#[test]
fn fix_groups_drops_group_after_addition() {
    let toks = tokenize(words(&["y", "+", "(", "x", "*", "2", ")"]));
    let (fixed, gs) = fix_groups(toks).unwrap();
    assert_eq!(fixed, vec![var("y"), Token::ADD, var("x"), Token::MUL, num(2.0)]);
    assert!(gs.is_empty());
}

#[test]
fn fix_groups_is_idempotent_at_runtime() {
    let toks = tokenize(words(&["2", "(", "x", ")", "+", "(", "y", "*", "y", ")"]));
    let (once, gs_once) = fix_groups(toks).unwrap();
    let (twice, gs_twice) = fix_groups(once.clone()).unwrap();
    assert_eq!(once, twice);
    assert_eq!(gs_once, gs_twice);
}

#[test]
fn rm_sides_add_mul_normalizes_with_given_ranges() {
    let toks = tokenize(words(&["(", "x", ")", "(", "y", ")"]));
    let gs = find_groups(&toks).unwrap();
    let (fixed, gs2) = rm_sides_add_mul(toks, gs).unwrap();
    assert_eq!(
        fixed,
        vec![
            Token::LGROUP,
            var("x"),
            Token::RGROUP,
            Token::MUL,
            Token::LGROUP,
            var("y"),
            Token::RGROUP
        ]
    );
    assert_eq!(gs2, vec![(0, 2), (4, 6)]);
}

#[test]
fn fix_groups_keeps_inner_pair() {
    let toks = tokenize(words(&["(", "2", "+", "3", ")", "*", "4"]));
    let (fixed, gs) = fix_groups(toks).unwrap();
    assert_eq!(
        fixed,
        vec![
            Token::LGROUP,
            num(2.0),
            Token::ADD,
            num(3.0),
            Token::RGROUP,
            Token::MUL,
            num(4.0)
        ]
    );
    assert_eq!(gs, vec![(0, 4)]);
}
