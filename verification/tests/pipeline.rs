use exprtree::tree::token::{tokenize, Token};
use exprtree::tree::{create_node_from_num, create_node_from_var, node_creation, process,
    simplify_node, split_locater, stock_node, type_declare, vector_split, Node};
use exprtree::TreeError;

fn chars(s: &str) -> Vec<char> {
    s.chars().collect()
}

fn words(ws: &[&str]) -> Vec<String> {
    ws.iter().map(|w| w.to_string()).collect()
}

fn num(v: f32) -> Token {
    Token::NUM(v.to_bits())
}

fn var(s: &str) -> Token {
    Token::VAR(chars(s))
}

fn leaf(t: Token) -> Box<Node> {
    Box::new(Node { data_type: t, left: None, right: None })
}

fn op(t: Token, l: Box<Node>, r: Box<Node>) -> Box<Node> {
    Box::new(Node { data_type: t, left: Some(l), right: Some(r) })
}

fn run(ws: &[&str]) -> Result<Box<Node>, TreeError> {
    process(tokenize(words(ws)))
}

#[test]
fn scenario_two_plus_three() {
    let toks = tokenize(words(&["2", "+", "3"]));
    assert_eq!(toks, vec![num(2.0), Token::ADD, num(3.0)]);
    let tree = run(&["2", "+", "3"]).unwrap();
    assert_eq!(tree, leaf(num(5.0)));
}

#[test]
fn scenario_x_plus_x() {
    let tree = run(&["x", "+", "x"]).unwrap();
    assert_eq!(tree, op(Token::MUL, leaf(num(2.0)), leaf(var("x"))));
}

#[test]
fn scenario_grouped_sum_times_four() {
    let tree = run(&["(", "2", "+", "3", ")", "*", "4"]).unwrap();
    assert_eq!(tree, leaf(num(20.0)));
}

#[test]
fn scenario_exponent_addition() {
    let tree = run(&["x", "^", "2", "*", "x", "^", "3"]).unwrap();
    assert_eq!(tree, op(Token::EXP, leaf(var("x")), leaf(num(5.0))));
}

#[test]
fn scenario_division_by_zero() {
    assert_eq!(run(&["5", "/", "0"]), Err(TreeError::DivisionByZero));
}

#[test]
fn unbalanced_groups_fail() {
    assert_eq!(run(&["(", "2", "+", "3"]), Err(TreeError::MalformedGroups));
}

#[test]
fn lone_operator_is_inconsistent() {
    assert_eq!(run(&["*"]), Err(TreeError::InternalInconsistency));
    assert_eq!(run(&["2", "+"]), Err(TreeError::InternalInconsistency));
}

#[test]
fn constant_folding_all_operators() {
    assert_eq!(run(&["2", "*", "3"]).unwrap(), leaf(num(6.0)));
    assert_eq!(run(&["1", "/", "8"]).unwrap(), leaf(num(0.125)));
    assert_eq!(run(&["2", "^", "3"]).unwrap(), leaf(num(8.0)));
    assert_eq!(run(&["0.1", "+", "0.2"]).unwrap(), leaf(num(0.1f32 + 0.2f32)));
}

#[test]
fn non_integral_exponent_stays() {
    let tree = run(&["2", "^", "0.5"]).unwrap();
    assert_eq!(tree, op(Token::EXP, leaf(num(2.0)), leaf(num(0.5))));
}

#[test]
fn large_integral_exponent_folds() {
    assert_eq!(run(&["2", "^", "4096"]).unwrap(), leaf(num(f32::INFINITY)));
    assert_eq!(run(&["1", "^", "100000000"]).unwrap(), leaf(num(1.0)));
}

#[test]
fn subtraction_becomes_negative_term() {
    // 5 - 2 is written with a bare minus word: 5 + (-1 * 2)
    let tree = run(&["5", "-", "2"]).unwrap();
    assert_eq!(tree, leaf(num(3.0)));
}

#[test]
fn implicit_multiplication() {
    let tree = run(&["2", "(", "x", "+", "x", ")"]).unwrap();
    // 2 * (x + x) simplifies the group to 2 * x; the outer coefficients
    // collapse into 2 * (2 * x) -> shape-matched coefficient rule
    assert_eq!(
        tree,
        op(Token::MUL, leaf(num(4.0)), leaf(var("x")))
    );
}

#[test]
fn variable_quotient_collapses() {
    assert_eq!(run(&["x", "/", "x"]).unwrap(), leaf(num(1.0)));
}

#[test]
fn variable_product_squares() {
    assert_eq!(
        run(&["x", "*", "x"]).unwrap(),
        op(Token::EXP, leaf(var("x")), leaf(num(2.0)))
    );
}

#[test]
fn zero_plus_variable_vanishes() {
    assert_eq!(run(&["0", "+", "x"]).unwrap(), leaf(var("x")));
}

#[test]
fn exponent_quotient_subtracts() {
    assert_eq!(
        run(&["x", "^", "5", "/", "x", "^", "2"]).unwrap(),
        op(Token::EXP, leaf(var("x")), leaf(num(3.0)))
    );
}

#[test]
fn exponent_quotient_reciprocal_form() {
    assert_eq!(
        run(&["x", "^", "2", "/", "x", "^", "3"]).unwrap(),
        op(Token::DIV, leaf(num(1.0)), leaf(var("x")))
    );
    // the collapse to the bare variable keys on the exponent difference
    assert_eq!(
        run(&["x", "^", "5", "/", "x", "^", "6"]).unwrap(),
        op(Token::DIV, leaf(num(1.0)), leaf(var("x")))
    );
    assert_eq!(
        run(&["x", "^", "2", "/", "x", "^", "5"]).unwrap(),
        op(
            Token::DIV,
            leaf(num(1.0)),
            op(Token::EXP, leaf(var("x")), leaf(num(3.0)))
        )
    );
}

#[test]
fn negative_exponent_becomes_reciprocal() {
    // built directly: the word form `x ^ -2` would tokenize its exponent as
    // -1 * 2 instead of a negative literal
    let t = op(Token::EXP, leaf(var("x")), leaf(num(-2.0)));
    let r = simplify_node(Some(t)).unwrap().unwrap();
    assert_eq!(
        r,
        op(
            Token::DIV,
            leaf(num(1.0)),
            op(Token::EXP, leaf(var("x")), leaf(num(2.0)))
        )
    );
}

#[test]
fn negative_one_exponent_is_plain_reciprocal() {
    let t = op(Token::EXP, leaf(var("x")), leaf(num(-1.0)));
    let r = simplify_node(Some(t)).unwrap().unwrap();
    assert_eq!(r, op(Token::DIV, leaf(num(1.0)), leaf(var("x"))));
}

#[test]
fn canonical_order_puts_numbers_left() {
    assert_eq!(
        run(&["x", "*", "3"]).unwrap(),
        op(Token::MUL, leaf(num(3.0)), leaf(var("x")))
    );
    assert_eq!(
        run(&["x", "+", "2"]).unwrap(),
        op(Token::ADD, leaf(num(2.0)), leaf(var("x")))
    );
}

#[test]
fn division_keeps_operand_order() {
    assert_eq!(
        run(&["x", "/", "2"]).unwrap(),
        op(Token::MUL, leaf(num(0.5)), leaf(var("x")))
    );
    assert_eq!(
        run(&["2", "/", "x"]).unwrap(),
        op(Token::DIV, leaf(num(2.0)), leaf(var("x")))
    );
}

#[test]
fn division_by_zero_variable_side_gives_infinity() {
    // only constant folding can fail: a variable numerator turns into a
    // coefficient rule with an infinite coefficient instead
    let tree = run(&["x", "/", "0"]).unwrap();
    assert_eq!(tree, op(Token::MUL, leaf(num(f32::INFINITY)), leaf(var("x"))));
}

#[test]
fn constructors_build_leaves_and_nodes() {
    let v = create_node_from_var(chars("t")).unwrap();
    assert_eq!(*v, *leaf(var("t")));
    let n = create_node_from_num(2.0f32.to_bits()).unwrap();
    assert_eq!(*n, *leaf(num(2.0)));
    let s = stock_node(Token::ADD, Some(v), Some(n)).unwrap();
    assert_eq!(*s, *op(Token::ADD, leaf(var("t")), leaf(num(2.0))));
}

#[test]
fn type_declare_classifies_children() {
    let l = Some(leaf(num(2.0)));
    let r = Some(op(Token::EXP, leaf(var("x")), leaf(num(3.0))));
    let (ln, rn, lv, rv, lt, rt) = type_declare(&l, &r);
    assert_eq!(ln, Some(2.0f32.to_bits()));
    assert_eq!(rn, None);
    assert_eq!(lv, None);
    assert_eq!(rv, None);
    assert_eq!(lt, None);
    assert_eq!(rt, Some(3));
    let v = Some(leaf(var("y")));
    let (n2, _, v2, _, t2, _) = type_declare(&v, &None);
    assert_eq!(n2, None);
    assert_eq!(v2, Some("y".chars().collect::<Vec<char>>()));
    assert_eq!(t2, None);
}

#[test]
fn negative_term_cancels_to_zero() {
    // x + (-1 * x) collapses to the zero constant
    let t = op(
        Token::ADD,
        leaf(var("x")),
        op(Token::MUL, leaf(num(-1.0)), leaf(var("x"))),
    );
    let r = simplify_node(Some(t)).unwrap().unwrap();
    assert_eq!(r, leaf(num(0.0)));
}

#[test]
fn simplify_node_folds_a_built_tree() {
    let t = op(Token::ADD, leaf(num(2.0)), leaf(num(3.0)));
    let r = simplify_node(Some(t)).unwrap();
    assert_eq!(r, Some(leaf(num(5.0))));
    assert_eq!(simplify_node(None).unwrap(), None);
}

#[test]
fn simplify_node_swaps_before_matching() {
    // a variable left of a number under a commutative operator swaps
    let t = op(Token::MUL, leaf(var("x")), leaf(num(0.0)));
    let r = simplify_node(Some(t)).unwrap().unwrap();
    assert_eq!(r, leaf(var("x")));
}

#[test]
fn vector_split_cuts_and_normalizes() {
    let toks = tokenize(words(&["2", "+", "3", "*", "4"]));
    let (l, lg, r, rg) = vector_split(toks, 1).unwrap();
    assert_eq!(l, vec![num(2.0)]);
    assert!(lg.is_empty());
    assert_eq!(r, vec![num(3.0), Token::MUL, num(4.0)]);
    assert!(rg.is_empty());
}

#[test]
fn split_locater_picks_rightmost_addition() {
    let toks = tokenize(words(&["2", "*", "3", "+", "4", "+", "5"]));
    let (l, _, r, _, t) = split_locater(toks, Vec::new()).unwrap();
    assert_eq!(t, Token::ADD);
    assert_eq!(l, vec![num(2.0), Token::MUL, num(3.0), Token::ADD, num(4.0)]);
    assert_eq!(r, vec![num(5.0)]);
}

#[test]
fn split_locater_skips_operators_inside_groups() {
    let toks = tokenize(words(&["(", "2", "+", "3", ")", "*", "4"]));
    let groups = vec![(0usize, 4usize)];
    let (_, _, _, _, t) = split_locater(toks, groups).unwrap();
    assert_eq!(t, Token::MUL);
}

#[test]
fn split_locater_single_token_is_leaf() {
    let (l, lg, r, rg, t) = split_locater(vec![var("q")], Vec::new()).unwrap();
    assert!(l.is_empty() && lg.is_empty() && r.is_empty() && rg.is_empty());
    assert_eq!(t, var("q"));
}

#[test]
fn node_creation_builds_ordered_tree() {
    let toks = tokenize(words(&["4", "*", "(", "2", "+", "3", ")"]));
    let (fixed, gs) = exprtree::tree::token::fix_groups(toks).unwrap();
    let raw = split_locater(fixed, gs).unwrap();
    let built = node_creation(raw).unwrap().unwrap();
    assert_eq!(
        built,
        op(Token::MUL, leaf(num(4.0)), op(Token::ADD, leaf(num(2.0)), leaf(num(3.0))))
    );
}
