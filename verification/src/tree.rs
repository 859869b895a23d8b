use vstd::prelude::*;

pub mod token;

use crate::TreeError;
use crate::num32::{
    eq_bits, le_bits, lt_bits, is_zero_bits, is_neg_bits, abs_bits, pow_bits, bits_add, bits_sub,
    bits_mul, bits_div, B32_ZERO, B32_ONE, B32_TWO, B32_NEG_ONE,
};
use crate::num32::{b32_eq, b32_le, b32_lt, b32_is_zero, b32_is_neg, b32_abs, b32_pow, b32_add,
    b32_sub, b32_mul, b32_div};
use token::{
    Token, TokV, tok_view, tokens_view, fix_groups_spec, fix_groups, lemma_tokens_view_subrange,
    lemma_tokens_view_index, copy_chars, eq_chars,
};

verus! {

// The binary expression tree.  The payload of an inner node is one of the
// four operator tokens; a leaf holds a numeric literal or a variable.
// Grouping markers never appear in a well-formed tree.

#[derive(Debug, PartialEq)]
pub struct Node {
    pub data_type: Token,
    pub left: Option<Box<Node>>,
    pub right: Option<Box<Node>>,
}

/// The mathematical value of a tree node.
pub struct NodeV {
    pub tok: TokV,
    pub left: Option<Box<NodeV>>,
    pub right: Option<Box<NodeV>>,
}

pub open spec fn opt_view(o: Option<Box<Node>>) -> Option<Box<NodeV>>
    decreases o,
{
    match o {
        None => None,
        Some(b) => Some(Box::new(node_view(*b))),
    }
}

pub open spec fn node_view(n: Node) -> NodeV
    decreases n,
{
    NodeV { tok: tok_view(n.data_type), left: opt_view(n.left), right: opt_view(n.right) }
}

pub open spec fn is_op_tok(t: TokV) -> bool {
    t is Add || t is Mul || t is Div || t is Exp
}

pub open spec fn is_leaf_tok(t: TokV) -> bool {
    t is Var || t is Num
}

/// The leaf invariant: children are both present with an operator payload,
/// both absent with a numeric or variable payload.
pub open spec fn wf_node(n: NodeV) -> bool
    decreases n,
{
    match (n.left, n.right) {
        (None, None) => is_leaf_tok(n.tok),
        (Some(l), Some(r)) => is_op_tok(n.tok) && wf_node(*l) && wf_node(*r),
        _ => false,
    }
}

pub open spec fn leafv(t: TokV) -> NodeV {
    NodeV { tok: t, left: None, right: None }
}

pub open spec fn numv(b: u32) -> NodeV {
    leafv(TokV::Num(b))
}

pub open spec fn varv(x: Seq<char>) -> NodeV {
    leafv(TokV::Var(x))
}

pub open spec fn opv(t: TokV, l: NodeV, r: NodeV) -> NodeV {
    NodeV { tok: t, left: Some(Box::new(l)), right: Some(Box::new(r)) }
}

/// A childless node holding a variable.
pub fn create_node_from_var(var: Vec<char>) -> (r: Option<Box<Node>>)
    ensures
        opt_view(r) == Some(Box::new(varv(var@))),
{
    let ghost gv = var@;
    let n = Node { data_type: Token::VAR(var), left: None, right: None };
    proof {
        assert(node_view(n) == varv(gv));
    }
    Some(Box::new(n))
}

/// A childless node holding a numeric literal.
pub fn create_node_from_num(num: u32) -> (r: Option<Box<Node>>)
    ensures
        opt_view(r) == Some(Box::new(numv(num))),
{
    let n = Node { data_type: Token::NUM(num), left: None, right: None };
    proof {
        assert(node_view(n) == numv(num));
    }
    Some(Box::new(n))
}

/// A node assembled from a payload and two optional subtrees.
pub fn stock_node(data_type: Token, left: Option<Box<Node>>, right: Option<Box<Node>>) -> (r:
    Option<Box<Node>>)
    ensures
        opt_view(r) == Some(
            Box::new(NodeV { tok: tok_view(data_type), left: opt_view(left), right: opt_view(right) }),
        ),
{
    Some(Box::new(Node { data_type, left, right }))
}

// --- Splitting a span at its root operator --------------------------------

/// What `vector_split` returns: the two sub-spans on either side of the
/// split index, each normalized, with the operator token itself dropped from
/// the right side (the right side is normalized once before the drop and
/// once after, as the cut can expose fresh grouping artifacts).
pub open spec fn vector_split_spec(s: Seq<TokV>, loc: int) -> Result<
    (Seq<TokV>, Seq<(usize, usize)>, Seq<TokV>, Seq<(usize, usize)>),
    TreeError,
> {
    let right0 = s.subrange(loc, s.len() as int);
    match fix_groups_spec(right0) {
        Err(e) => Err(e),
        Ok((r1, rg1)) => {
            let left0 = s.subrange(0, loc);
            match fix_groups_spec(left0) {
                Err(e) => Err(e),
                Ok((l1, lg)) => {
                    if r1.len() == 0 {
                        Err(TreeError::InternalInconsistency)
                    } else {
                        let r2 = if r1[0] is LGroup {
                            r1
                        } else {
                            r1.subrange(1, r1.len() as int)
                        };
                        match fix_groups_spec(r2) {
                            Err(e) => Err(e),
                            Ok((r3, rg)) => Ok((l1, lg, r3, rg)),
                        }
                    }
                },
            }
        },
    }
}

pub open spec fn split_result_matches(
    r: Result<(Vec<Token>, Vec<(usize, usize)>, Vec<Token>, Vec<(usize, usize)>), TreeError>,
    sp: Result<(Seq<TokV>, Seq<(usize, usize)>, Seq<TokV>, Seq<(usize, usize)>), TreeError>,
) -> bool {
    match (r, sp) {
        (Ok(p), Ok(q)) => {
            &&& tokens_view(p.0@) == q.0
            &&& p.1@ == q.1
            &&& tokens_view(p.2@) == q.2
            &&& p.3@ == q.3
        },
        (Err(e), Err(f)) => e == f,
        _ => false,
    }
}

/// Splits a token span at the given index: the tokens before it form the
/// left branch and the tokens after it the right branch, each normalized.
pub fn vector_split(token_vector: Vec<Token>, split_location: usize) -> (r: Result<
    (Vec<Token>, Vec<(usize, usize)>, Vec<Token>, Vec<(usize, usize)>),
    TreeError,
>)
    requires
        split_location <= token_vector@.len(),
    ensures
        split_result_matches(
            r,
            vector_split_spec(tokens_view(token_vector@), split_location as int),
        ),
{
    let ghost s = tokens_view(token_vector@);
    let mut tv = token_vector;
    let right0 = tv.split_off(split_location);
    proof {
        lemma_tokens_view_subrange(token_vector@, split_location as int, token_vector@.len() as int);
        lemma_tokens_view_subrange(token_vector@, 0, split_location as int);
        assert(tokens_view(right0@) == s.subrange(split_location as int, s.len() as int));
        assert(tokens_view(tv@) == s.subrange(0, split_location as int));
    }
    let (r1, _rg1) = match fix_groups(right0) {
        Err(e) => {
            return Err(e);
        },
        Ok(p) => p,
    };
    let (l1, lg) = match fix_groups(tv) {
        Err(e) => {
            return Err(e);
        },
        Ok(p) => p,
    };
    if r1.len() == 0 {
        return Err(TreeError::InternalInconsistency);
    }
    let keep_first = match &r1[0] {
        Token::LGROUP => true,
        _ => false,
    };
    proof {
        lemma_tokens_view_index(r1@, 0);
    }
    let r2 = if keep_first {
        r1
    } else {
        let mut r = r1;
        let ghost before = r@;
        r.remove(0);
        proof {
            token::lemma_tokens_view_remove(before, 0);
            assert(before.remove(0) =~= before.subrange(1, before.len() as int));
            assert(tokens_view(before).remove(0) =~= tokens_view(before).subrange(
                1,
                tokens_view(before).len() as int,
            ));
        }
        r
    };
    let (r3, rg) = match fix_groups(r2) {
        Err(e) => {
            return Err(e);
        },
        Ok(p) => p,
    };
    Ok((l1, lg, r3, rg))
}

// --- Locating the root operator -------------------------------------------

/// The unbuilt parts of one node: left span with its ranges, right span with
/// its ranges, and the payload token.
pub type RawNode = (Vec<Token>, Vec<(usize, usize)>, Vec<Token>, Vec<(usize, usize)>, Token);

/// The mathematical value of a `RawNode`.
pub type RawNodeV = (Seq<TokV>, Seq<(usize, usize)>, Seq<TokV>, Seq<(usize, usize)>, TokV);

pub open spec fn raw_view(raw: RawNode) -> RawNodeV {
    (tokens_view(raw.0@), raw.1@, tokens_view(raw.2@), raw.3@, tok_view(raw.4))
}

/// The index is not strictly inside any of the ranges.
pub open spec fn top_level(gs: Seq<(usize, usize)>, i: int) -> bool {
    forall|k: int| 0 <= k < gs.len() ==> !((#[trigger] gs[k]).0 < i && i < gs[k].1)
}

/// The largest index below `i` holding token `t` outside every range.
pub open spec fn last_top(s: Seq<TokV>, gs: Seq<(usize, usize)>, t: TokV, i: int) -> Option<int>
    decreases i,
{
    if i <= 0 {
        None
    } else if s[i - 1] == t && top_level(gs, i - 1) {
        Some(i - 1)
    } else {
        last_top(s, gs, t, i - 1)
    }
}

proof fn lemma_last_top_bounds(s: Seq<TokV>, gs: Seq<(usize, usize)>, t: TokV, i: int)
    ensures
        last_top(s, gs, t, i) is Some ==> 0 <= last_top(s, gs, t, i).unwrap() < i,
    decreases i,
{
    if i > 0 {
        lemma_last_top_bounds(s, gs, t, i - 1);
    }
}

/// The split of the span at the chosen index, with the root token attached.
pub open spec fn split_at(s: Seq<TokV>, loc: int, t: TokV) -> Result<RawNodeV, TreeError> {
    match vector_split_spec(s, loc) {
        Err(e) => Err(e),
        Ok((l, lg, r, rg)) => Ok((l, lg, r, rg, t)),
    }
}

/// The root operator of a span and the split at it.  A single token is a
/// leaf.  Otherwise the rightmost top-level addition splits first; then the
/// rightmost of the top-level multiplications and divisions; then the
/// rightmost top-level exponent; a longer span without any top-level
/// operator is an internal-consistency failure.
pub open spec fn split_locater_spec(s: Seq<TokV>, gs: Seq<(usize, usize)>) -> Result<
    RawNodeV,
    TreeError,
> {
    if s.len() == 1 {
        Ok(
            (
                Seq::<TokV>::empty(),
                Seq::<(usize, usize)>::empty(),
                Seq::<TokV>::empty(),
                Seq::<(usize, usize)>::empty(),
                s[0],
            ),
        )
    } else {
        let add_c = last_top(s, gs, TokV::Add, s.len() as int);
        let div_c = last_top(s, gs, TokV::Div, s.len() as int);
        let mul_c = last_top(s, gs, TokV::Mul, s.len() as int);
        let exp_c = last_top(s, gs, TokV::Exp, s.len() as int);
        match add_c {
            Some(a) => split_at(s, a, TokV::Add),
            None => match (mul_c, div_c) {
                (Some(m), Some(d)) => if m > d {
                    split_at(s, m, TokV::Mul)
                } else {
                    split_at(s, d, TokV::Div)
                },
                (Some(m), None) => split_at(s, m, TokV::Mul),
                (None, Some(d)) => split_at(s, d, TokV::Div),
                (None, None) => match exp_c {
                    Some(x) => split_at(s, x, TokV::Exp),
                    None => Err(TreeError::InternalInconsistency),
                },
            },
        }
    }
}

pub open spec fn raw_result_matches(
    r: Result<RawNode, TreeError>,
    sp: Result<RawNodeV, TreeError>,
) -> bool {
    match (r, sp) {
        (Ok(p), Ok(q)) => {
            &&& tokens_view(p.0@) == q.0
            &&& p.1@ == q.1
            &&& tokens_view(p.2@) == q.2
            &&& p.3@ == q.3
            &&& tok_view(p.4) == q.4
        },
        (Err(e), Err(f)) => e == f,
        _ => false,
    }
}

spec fn om(o: Option<usize>, so: Option<int>) -> bool {
    match (o, so) {
        (None, None) => true,
        (Some(a), Some(b)) => a as int == b,
        _ => false,
    }
}

fn finish_split(v: Vec<Token>, loc: usize, t: Token) -> (r: Result<RawNode, TreeError>)
    requires
        loc <= v@.len(),
    ensures
        raw_result_matches(r, split_at(tokens_view(v@), loc as int, tok_view(t))),
{
    match vector_split(v, loc) {
        Err(e) => Err(e),
        Ok((l, lg, rr, rg)) => Ok((l, lg, rr, rg, t)),
    }
}

/// Finds the root operator of a token span (relative to its group ranges)
/// and splits the span there; a single token comes back as a leaf.
pub fn split_locater(token_vector: Vec<Token>, group_locations: Vec<(usize, usize)>) -> (r: Result<
    RawNode,
    TreeError,
>)
    ensures
        raw_result_matches(r, split_locater_spec(tokens_view(token_vector@), group_locations@)),
{
    let ghost s = tokens_view(token_vector@);
    let ghost gs = group_locations@;
    proof {
        token::lemma_tokens_view_len(token_vector@);
    }
    if token_vector.len() == 1 {
        proof {
            lemma_tokens_view_index(token_vector@, 0);
        }
        let t = token_vector[0].clone();
        let out: RawNode = (Vec::new(), Vec::new(), Vec::new(), Vec::new(), t);
        proof {
            assert(tokens_view(out.0@) =~= Seq::<TokV>::empty());
            assert(tokens_view(out.2@) =~= Seq::<TokV>::empty());
        }
        return Ok(out);
    }
    let mut add_c: Option<usize> = None;
    let mut div_c: Option<usize> = None;
    let mut mul_c: Option<usize> = None;
    let mut exp_c: Option<usize> = None;
    let mut i: usize = 0;
    while i < token_vector.len()
        invariant
            i <= token_vector@.len(),
            s == tokens_view(token_vector@),
            s.len() == token_vector@.len(),
            gs == group_locations@,
            om(add_c, last_top(s, gs, TokV::Add, i as int)),
            om(div_c, last_top(s, gs, TokV::Div, i as int)),
            om(mul_c, last_top(s, gs, TokV::Mul, i as int)),
            om(exp_c, last_top(s, gs, TokV::Exp, i as int)),
        decreases token_vector@.len() - i,
    {
        proof {
            lemma_tokens_view_index(token_vector@, i as int);
        }
        let mut inside = false;
        let mut k: usize = 0;
        while k < group_locations.len() && !inside
            invariant
                k <= gs.len(),
                gs == group_locations@,
                inside ==> !top_level(gs, i as int),
                !inside ==> forall|m: int|
                    0 <= m < k ==> !((#[trigger] gs[m]).0 < i && (i as int) < gs[m].1),
            decreases gs.len() - k + (if inside {
                0int
            } else {
                1int
            }),
        {
            let p = group_locations[k];
            if p.0 < i && i < p.1 {
                inside = true;
            } else {
                k = k + 1;
            }
        }
        proof {
            if !inside {
                assert(top_level(gs, i as int));
            }
        }
        match &token_vector[i] {
            Token::ADD => {
                if !inside {
                    add_c = Some(i);
                }
            },
            Token::DIV => {
                if !inside {
                    div_c = Some(i);
                }
            },
            Token::MUL => {
                if !inside {
                    mul_c = Some(i);
                }
            },
            Token::EXP => {
                if !inside {
                    exp_c = Some(i);
                }
            },
            _ => {
            },
        }
        i = i + 1;
    }
    proof {
        lemma_last_top_bounds(s, gs, TokV::Add, s.len() as int);
        lemma_last_top_bounds(s, gs, TokV::Div, s.len() as int);
        lemma_last_top_bounds(s, gs, TokV::Mul, s.len() as int);
        lemma_last_top_bounds(s, gs, TokV::Exp, s.len() as int);
    }
    match add_c {
        Some(a) => {
            return finish_split(token_vector, a, Token::ADD);
        },
        None => {
        },
    }
    match (mul_c, div_c) {
        (Some(m), Some(d)) => {
            if m > d {
                finish_split(token_vector, m, Token::MUL)
            } else {
                finish_split(token_vector, d, Token::DIV)
            }
        },
        (Some(m), None) => finish_split(token_vector, m, Token::MUL),
        (None, Some(d)) => finish_split(token_vector, d, Token::DIV),
        (None, None) => match exp_c {
            Some(x) => finish_split(token_vector, x, Token::EXP),
            None => Err(TreeError::InternalInconsistency),
        },
    }
}

// --- Building the tree ----------------------------------------------------

/// The recursion budget of the tree builder; each level of the tree costs
/// one unit, and every split makes both spans shorter, so the combined span
/// length is ample.
pub open spec fn build_fuel(n1: nat, n2: nat) -> nat {
    if n1 > 500000000 || n2 > 500000000 {
        0xFFFF_FFFF_FFFF_FFFF as nat
    } else {
        n1 + n2 + 8
    }
}

fn compute_build_fuel(a: usize, b: usize) -> (r: u64)
    ensures
        r as nat == build_fuel(a as nat, b as nat),
{
    if a > 500000000 || b > 500000000 {
        0xFFFF_FFFF_FFFF_FFFFu64
    } else {
        (a as u64) + (b as u64) + 8
    }
}

/// The canonical placement of the two children of a commutative node:
/// numeric constants first (two constants in value order), then variables,
/// then compound subtrees; otherwise the parsed order is kept.
pub open spec fn order_children(a: NodeV, b: NodeV) -> (NodeV, NodeV) {
    match (a.tok, b.tok) {
        (TokV::Num(x), TokV::Num(y)) => if le_bits(x, y) {
            (a, b)
        } else {
            (b, a)
        },
        (TokV::Num(_), _) => (a, b),
        (_, TokV::Num(_)) => (b, a),
        (TokV::Var(_), _) => (a, b),
        (_, TokV::Var(_)) => (b, a),
        _ => (a, b),
    }
}

/// What the tree builder makes of one unbuilt node, with the given
/// recursion budget: a leaf from an empty split, else the two branches
/// built recursively and hung under the payload, in parsed order for the
/// non-commutative operators and in canonical order otherwise.
pub open spec fn build_spec(raw: RawNodeV, fuel: nat) -> Result<NodeV, TreeError>
    decreases fuel, 0int,
{
    if raw.0.len() == 0 && raw.2.len() == 0 {
        if is_leaf_tok(raw.4) {
            Ok(leafv(raw.4))
        } else {
            Err(TreeError::InternalInconsistency)
        }
    } else if !is_op_tok(raw.4) {
        Err(TreeError::InternalInconsistency)
    } else if fuel == 0 {
        Err(TreeError::InternalInconsistency)
    } else {
        match build_sub_spec(raw.0, raw.1, (fuel - 1) as nat) {
            Err(e) => Err(e),
            Ok(ln) => match build_sub_spec(raw.2, raw.3, (fuel - 1) as nat) {
                Err(e) => Err(e),
                Ok(rn) => if raw.4 is Exp || raw.4 is Div {
                    Ok(opv(raw.4, ln, rn))
                } else {
                    let p = order_children(ln, rn);
                    Ok(opv(raw.4, p.0, p.1))
                },
            },
        }
    }
}

/// Builds one branch: locate its root operator, split, and build.
pub open spec fn build_sub_spec(s: Seq<TokV>, gs: Seq<(usize, usize)>, fuel: nat) -> Result<
    NodeV,
    TreeError,
>
    decreases fuel, 1int,
{
    match split_locater_spec(s, gs) {
        Err(e) => Err(e),
        Ok(raw) => build_spec(raw, fuel),
    }
}

pub open spec fn node_result_matches(
    r: Result<Box<Node>, TreeError>,
    sp: Result<NodeV, TreeError>,
) -> bool {
    match (r, sp) {
        (Ok(b), Ok(nv)) => node_view(*b) == nv,
        (Err(e), Err(f)) => e == f,
        _ => false,
    }
}

fn order_exec(a: Box<Node>, b: Box<Node>) -> (r: (Box<Node>, Box<Node>))
    ensures
        ({
            let p = order_children(node_view(*a), node_view(*b));
            node_view(*r.0) == p.0 && node_view(*r.1) == p.1
        }),
{
    let a_num: Option<u32> = match &a.data_type {
        Token::NUM(v) => Some(*v),
        _ => None,
    };
    let b_num: Option<u32> = match &b.data_type {
        Token::NUM(v) => Some(*v),
        _ => None,
    };
    let a_var: bool = match &a.data_type {
        Token::VAR(_) => true,
        _ => false,
    };
    let b_var: bool = match &b.data_type {
        Token::VAR(_) => true,
        _ => false,
    };
    match (a_num, b_num) {
        (Some(x), Some(y)) => {
            if b32_le(x, y) {
                (a, b)
            } else {
                (b, a)
            }
        },
        (Some(_), None) => (a, b),
        (None, Some(_)) => (b, a),
        (None, None) => {
            if a_var {
                (a, b)
            } else if b_var {
                (b, a)
            } else {
                (a, b)
            }
        },
    }
}

fn build_rec(raw: RawNode, fuel: u64) -> (r: Result<Box<Node>, TreeError>)
    ensures
        node_result_matches(r, build_spec(raw_view(raw), fuel as nat)),
    decreases fuel, 0int,
{
    let ghost rv = raw_view(raw);
    proof {
        token::lemma_tokens_view_len(raw.0@);
        token::lemma_tokens_view_len(raw.2@);
    }
    let (l, lg, rr, rg, t) = raw;
    if l.len() == 0 && rr.len() == 0 {
        match &t {
            Token::VAR(_) | Token::NUM(_) => {
                let n = Node { data_type: t, left: None, right: None };
                proof {
                    assert(node_view(n) == leafv(rv.4));
                }
                Ok(Box::new(n))
            },
            _ => Err(TreeError::InternalInconsistency),
        }
    } else {
        let is_op = match &t {
            Token::ADD | Token::MUL | Token::DIV | Token::EXP => true,
            _ => false,
        };
        if !is_op {
            return Err(TreeError::InternalInconsistency);
        }
        if fuel == 0 {
            return Err(TreeError::InternalInconsistency);
        }
        let ln = match build_sub(l, lg, fuel - 1) {
            Err(e) => {
                return Err(e);
            },
            Ok(n) => n,
        };
        let rn = match build_sub(rr, rg, fuel - 1) {
            Err(e) => {
                return Err(e);
            },
            Ok(n) => n,
        };
        let non_comm = match &t {
            Token::EXP | Token::DIV => true,
            _ => false,
        };
        if non_comm {
            let n = Node { data_type: t, left: Some(ln), right: Some(rn) };
            proof {
                assert(node_view(n) == opv(rv.4, build_sub_spec(rv.0, rv.1, (fuel - 1) as nat).unwrap(), build_sub_spec(rv.2, rv.3, (fuel - 1) as nat).unwrap()));
            }
            Ok(Box::new(n))
        } else {
            let (pa, pb) = order_exec(ln, rn);
            let n = Node { data_type: t, left: Some(pa), right: Some(pb) };
            Ok(Box::new(n))
        }
    }
}

fn build_sub(s: Vec<Token>, gs: Vec<(usize, usize)>, fuel: u64) -> (r: Result<Box<Node>, TreeError>)
    ensures
        node_result_matches(r, build_sub_spec(tokens_view(s@), gs@, fuel as nat)),
    decreases fuel, 1int,
{
    match split_locater(s, gs) {
        Err(e) => Err(e),
        Ok(raw) => build_rec(raw, fuel),
    }
}

pub open spec fn creation_result_matches(
    r: Result<Option<Box<Node>>, TreeError>,
    sp: Result<NodeV, TreeError>,
) -> bool {
    match (r, sp) {
        (Ok(o), Ok(nv)) => match o {
            Some(b) => node_view(*b) == nv,
            None => false,
        },
        (Err(e), Err(f)) => e == f,
        _ => false,
    }
}

/// What `node_creation` returns: the built tree of an unbuilt node, with
/// the standard recursion budget.
pub open spec fn node_creation_spec(raw: RawNodeV) -> Result<NodeV, TreeError> {
    build_spec(raw, build_fuel(raw.0.len(), raw.2.len()))
}

/// Builds the tree of one unbuilt node: an empty split is a leaf, and the
/// two branches are built recursively, with the canonical child order on
/// commutative payloads.
pub fn node_creation(raw_node: RawNode) -> (r: Result<Option<Box<Node>>, TreeError>)
    ensures
        creation_result_matches(r, node_creation_spec(raw_view(raw_node))),
{
    let ghost rv = raw_view(raw_node);
    proof {
        token::lemma_tokens_view_len(raw_node.0@);
        token::lemma_tokens_view_len(raw_node.2@);
    }
    let fuel = compute_build_fuel(raw_node.0.len(), raw_node.2.len());
    match build_rec(raw_node, fuel) {
        Err(e) => Err(e),
        Ok(b) => Ok(Some(b)),
    }
}

// --- The leaf invariant of built trees ------------------------------------

proof fn lemma_build_wf(raw: RawNodeV, fuel: nat)
    ensures
        build_spec(raw, fuel) is Ok ==> wf_node(build_spec(raw, fuel).unwrap()),
    decreases fuel, 0int,
{
    if raw.0.len() == 0 && raw.2.len() == 0 {
    } else if !is_op_tok(raw.4) {
    } else if fuel == 0 {
    } else {
        lemma_build_sub_wf(raw.0, raw.1, (fuel - 1) as nat);
        lemma_build_sub_wf(raw.2, raw.3, (fuel - 1) as nat);
        match build_sub_spec(raw.0, raw.1, (fuel - 1) as nat) {
            Err(_) => {
            },
            Ok(ln) => {
                match build_sub_spec(raw.2, raw.3, (fuel - 1) as nat) {
                    Err(_) => {
                    },
                    Ok(rn) => {
                        assert(wf_node(ln) && wf_node(rn));
                        if raw.4 is Exp || raw.4 is Div {
                            assert(wf_node(opv(raw.4, ln, rn)));
                        } else {
                            let p = order_children(ln, rn);
                            assert(wf_node(p.0) && wf_node(p.1));
                            assert(wf_node(opv(raw.4, p.0, p.1)));
                        }
                    },
                }
            },
        }
    }
}

proof fn lemma_build_sub_wf(s: Seq<TokV>, gs: Seq<(usize, usize)>, fuel: nat)
    ensures
        build_sub_spec(s, gs, fuel) is Ok ==> wf_node(build_sub_spec(s, gs, fuel).unwrap()),
    decreases fuel, 1int,
{
    match split_locater_spec(s, gs) {
        Err(_) => {
        },
        Ok(raw) => {
            lemma_build_wf(raw, fuel);
        },
    }
}

/// The leaf invariant: every tree that the builder returns is well formed —
/// each node has both children exactly when its payload is an operator, and
/// a numeric or variable payload at every leaf.
pub proof fn lemma_node_creation_wf(raw: RawNodeV, t: NodeV)
    requires
        node_creation_spec(raw) == Ok::<NodeV, TreeError>(t),
    ensures
        wf_node(t),
{
    lemma_build_wf(raw, build_fuel(raw.0.len(), raw.2.len()));
}

// --- The rewrite engine: rules --------------------------------------------
//
// One post-order pass.  Each inner node first simplifies its children, puts
// them in canonical order when its operator commutes, and then applies the
// first matching rule of the battery below; a shape that matches no rule is
// rebuilt unchanged.  Every rule builds a new subtree.

pub open spec fn as_num(n: NodeV) -> Option<u32> {
    match n.tok {
        TokV::Num(b) => Some(b),
        _ => None,
    }
}

pub open spec fn as_var(n: NodeV) -> Option<Seq<char>> {
    match n.tok {
        TokV::Var(x) => Some(x),
        _ => None,
    }
}

pub open spec fn child(o: Option<Box<NodeV>>) -> Option<NodeV> {
    match o {
        Some(b) => Some(*b),
        None => None,
    }
}

pub open spec fn onum(o: Option<NodeV>) -> Option<u32> {
    match o {
        Some(c) => as_num(c),
        None => None,
    }
}

pub open spec fn ovar(o: Option<NodeV>) -> Option<Seq<char>> {
    match o {
        Some(c) => as_var(c),
        None => None,
    }
}

/// Constant folding: the four operators on two numeric leaves; division by
/// an encoded zero is the one failing case.  An exponent folds only when it
/// encodes an integer whose magnitude fits 32 bits, and then by repeated
/// round-to-nearest multiplication (see `pow_bits`); any other exponent
/// leaves the node unchanged.
pub open spec fn rules_num_num(op: TokV, l: NodeV, r: NodeV, a: u32, b: u32) -> Result<
    NodeV,
    TreeError,
> {
    if op is Add {
        Ok(numv(bits_add(a, b)))
    } else if op is Mul {
        Ok(numv(bits_mul(a, b)))
    } else if op is Div {
        if is_zero_bits(b) {
            Err(TreeError::DivisionByZero)
        } else {
            Ok(numv(bits_div(a, b)))
        }
    } else if op is Exp {
        match pow_bits(a, b) {
            Some(c) => Ok(numv(c)),
            None => Ok(opv(op, l, r)),
        }
    } else {
        Ok(opv(op, l, r))
    }
}

/// Like-term collapse on two variable leaves (by leaf class, as parsed):
/// a sum becomes twice the left variable, a product its square, a quotient
/// the constant one.
pub open spec fn rules_var_var(op: TokV, l: NodeV, r: NodeV, x: Seq<char>) -> Result<
    NodeV,
    TreeError,
> {
    if op is Add {
        Ok(opv(TokV::Mul, numv(B32_TWO), varv(x)))
    } else if op is Mul {
        Ok(opv(TokV::Exp, varv(x), numv(B32_TWO)))
    } else if op is Div {
        Ok(numv(B32_ONE))
    } else {
        Ok(opv(op, l, r))
    }
}

/// A variable against a numeric leaf: a quotient becomes a product with the
/// reciprocal; an exponent collapses by its value (one and zero eliminated,
/// a negative exponent rewritten as a reciprocal).
pub open spec fn rules_var_num(op: TokV, l: NodeV, r: NodeV, x: Seq<char>, b: u32) -> Result<
    NodeV,
    TreeError,
> {
    if op is Div {
        Ok(opv(TokV::Mul, numv(bits_div(B32_ONE, b)), varv(x)))
    } else if op is Exp {
        if lt_bits(B32_ONE, b) {
            Ok(opv(op, l, r))
        } else if is_zero_bits(b) {
            Ok(numv(B32_ONE))
        } else if eq_bits(b, B32_ONE) {
            Ok(varv(x))
        } else if is_neg_bits(b) {
            if eq_bits(b, B32_NEG_ONE) {
                Ok(opv(TokV::Div, numv(B32_ONE), varv(x)))
            } else {
                Ok(opv(TokV::Div, numv(B32_ONE), opv(TokV::Exp, varv(x), numv(abs_bits(b)))))
            }
        } else {
            Ok(opv(op, l, r))
        }
    } else {
        Ok(opv(op, l, r))
    }
}

/// A variable leaf against an operator subtree.
pub open spec fn rules_var_op(op: TokV, l: NodeV, r: NodeV, x: Seq<char>) -> Result<
    NodeV,
    TreeError,
> {
    let rl_n = onum(child(r.left));
    let rl_v = ovar(child(r.left));
    let rr_n = onum(child(r.right));
    let rr_v = ovar(child(r.right));
    let rr_opt = child(r.right);
    let rr_is_exp = match rr_opt {
        Some(c) => c.tok is Exp,
        None => false,
    };
    let rrl_v = match rr_opt {
        Some(c) => ovar(child(c.left)),
        None => None,
    };
    let rrr_n = match rr_opt {
        Some(c) => onum(child(c.right)),
        None => None,
    };
    if rr_is_exp && rrl_v is Some && rrr_n is Some {
        // the variable against a coefficient times (or over) a power
        if r.tok is Mul && rl_n is Some {
            if op is Mul {
                Ok(
                    opv(
                        TokV::Mul,
                        numv(rl_n.unwrap()),
                        opv(TokV::Exp, varv(x), numv(bits_add(rrr_n.unwrap(), B32_ONE))),
                    ),
                )
            } else if op is Div {
                let e = bits_sub(rrr_n.unwrap(), B32_ONE);
                if is_zero_bits(e) {
                    Ok(numv(bits_div(B32_ONE, rl_n.unwrap())))
                } else if eq_bits(e, B32_ONE) {
                    Ok(
                        opv(
                            TokV::Div,
                            numv(B32_ONE),
                            opv(TokV::Mul, numv(rl_n.unwrap()), varv(x)),
                        ),
                    )
                } else {
                    Ok(
                        opv(
                            TokV::Div,
                            numv(B32_ONE),
                            opv(
                                TokV::Mul,
                                numv(rl_n.unwrap()),
                                opv(TokV::Exp, varv(x), numv(e)),
                            ),
                        ),
                    )
                }
            } else {
                Ok(opv(op, l, r))
            }
        } else if r.tok is Div && rl_n is Some {
            if op is Mul {
                if eq_bits(rrr_n.unwrap(), B32_ONE) {
                    Ok(numv(rl_n.unwrap()))
                } else {
                    let e = bits_sub(rrr_n.unwrap(), B32_ONE);
                    if !eq_bits(e, B32_ONE) {
                        Ok(
                            opv(
                                TokV::Div,
                                numv(rl_n.unwrap()),
                                opv(TokV::Exp, varv(x), numv(e)),
                            ),
                        )
                    } else {
                        Ok(opv(TokV::Div, numv(rl_n.unwrap()), varv(x)))
                    }
                }
            } else if op is Div {
                if is_zero_bits(rrr_n.unwrap()) {
                    Ok(opv(TokV::Div, varv(x), numv(rl_n.unwrap())))
                } else {
                    Ok(
                        opv(
                            TokV::Div,
                            opv(TokV::Exp, varv(x), numv(bits_add(rrr_n.unwrap(), B32_ONE))),
                            numv(rl_n.unwrap()),
                        ),
                    )
                }
            } else {
                Ok(opv(op, l, r))
            }
        } else {
            Ok(opv(op, l, r))
        }
    } else if r.tok is Exp && rl_v is Some && rr_n is Some {
        // the exponent laws apply to one variable only
        if x == rl_v.unwrap() {
            if op is Mul {
                Ok(opv(TokV::Exp, varv(x), numv(bits_add(rr_n.unwrap(), B32_ONE))))
            } else if op is Div {
                let e = bits_sub(rr_n.unwrap(), B32_ONE);
                if eq_bits(e, B32_ONE) {
                    Ok(opv(TokV::Div, numv(B32_ONE), varv(x)))
                } else {
                    Ok(opv(TokV::Div, numv(B32_ONE), opv(TokV::Exp, varv(x), numv(e))))
                }
            } else {
                Ok(opv(op, l, r))
            }
        } else {
            Ok(opv(op, l, r))
        }
    } else if r.tok is Mul && rr_v is Some && rl_n is Some && eq_bits(rl_n.unwrap(), B32_NEG_ONE) {
        // a variable beside negative one times a term collapses to zero;
        // the rule keys on the shape alone, whatever the operator and
        // whatever the two names
        Ok(numv(B32_ZERO))
    } else {
        Ok(opv(op, l, r))
    }
}

/// An operator subtree against a variable leaf.
pub open spec fn rules_op_var(op: TokV, l: NodeV, r: NodeV, y: Seq<char>) -> Result<
    NodeV,
    TreeError,
> {
    let ll_n = onum(child(l.left));
    let ll_v = ovar(child(l.left));
    let lr_n = onum(child(l.right));
    let lr_v = ovar(child(l.right));
    if l.tok is Exp && ll_v is Some && lr_n is Some {
        if op is Div && ll_v.unwrap() == y {
            if eq_bits(lr_n.unwrap(), B32_TWO) {
                Ok(varv(ll_v.unwrap()))
            } else {
                Ok(opv(TokV::Exp, varv(ll_v.unwrap()), numv(bits_sub(lr_n.unwrap(), B32_ONE))))
            }
        } else {
            Ok(opv(op, l, r))
        }
    } else if l.tok is Mul && ll_n is Some && lr_v is Some {
        if op is Div {
            Ok(numv(ll_n.unwrap()))
        } else {
            Ok(opv(op, l, r))
        }
    } else {
        Ok(opv(op, l, r))
    }
}

/// A numeric leaf against an operator subtree: the coefficient and fraction
/// rules.
pub open spec fn rules_num_op(op: TokV, l: NodeV, r: NodeV, a: u32) -> Result<NodeV, TreeError> {
    let rl_n = onum(child(r.left));
    let rl_v = ovar(child(r.left));
    let rr_n = onum(child(r.right));
    let rr_v = ovar(child(r.right));
    let rr_opt = child(r.right);
    let rr_is_mul = match rr_opt {
        Some(c) => c.tok is Mul,
        None => false,
    };
    let rrl_n = match rr_opt {
        Some(c) => onum(child(c.left)),
        None => None,
    };
    let rrr_v = match rr_opt {
        Some(c) => ovar(child(c.right)),
        None => None,
    };
    if r.tok is Mul && rl_n is Some && rr_v is Some {
        if op is Mul {
            Ok(opv(TokV::Mul, numv(bits_mul(a, rl_n.unwrap())), varv(rr_v.unwrap())))
        } else if op is Div {
            if eq_bits(a, rl_n.unwrap()) {
                Ok(opv(TokV::Div, numv(B32_ONE), varv(rr_v.unwrap())))
            } else {
                Ok(
                    opv(
                        TokV::Div,
                        numv(bits_mul(a, bits_div(B32_ONE, rl_n.unwrap()))),
                        varv(rr_v.unwrap()),
                    ),
                )
            }
        } else {
            Ok(opv(op, l, r))
        }
    } else if r.tok is Div && rl_n is Some && rr_v is Some {
        if op is Div {
            if eq_bits(a, rl_n.unwrap()) {
                Ok(varv(rr_v.unwrap()))
            } else {
                Ok(
                    opv(
                        TokV::Div,
                        opv(TokV::Mul, numv(a), varv(rr_v.unwrap())),
                        numv(rl_n.unwrap()),
                    ),
                )
            }
        } else if op is Mul {
            Ok(opv(TokV::Div, numv(bits_mul(a, rl_n.unwrap())), varv(rr_v.unwrap())))
        } else {
            Ok(opv(op, l, r))
        }
    } else if r.tok is Div && rl_v is Some && rr_n is Some {
        if op is Div {
            if eq_bits(a, rr_n.unwrap()) {
                Ok(varv(rl_v.unwrap()))
            } else {
                Ok(opv(TokV::Mul, numv(bits_div(a, rr_n.unwrap())), varv(rl_v.unwrap())))
            }
        } else {
            Ok(opv(op, l, r))
        }
    } else if r.tok is Exp && rl_v is Some && rr_n is Some {
        if op is Add && is_zero_bits(a) {
            Ok(r)
        } else {
            Ok(opv(op, l, r))
        }
    } else if r.tok is Div && rl_n is Some && rr_is_mul && rrl_n is Some && rrr_v is Some {
        if op is Mul {
            Ok(
                opv(
                    TokV::Div,
                    numv(bits_mul(a, rl_n.unwrap())),
                    opv(TokV::Mul, numv(rrl_n.unwrap()), varv(rrr_v.unwrap())),
                ),
            )
        } else if op is Div {
            Ok(
                opv(
                    TokV::Mul,
                    numv(bits_div(bits_mul(a, rrl_n.unwrap()), rl_n.unwrap())),
                    varv(rrr_v.unwrap()),
                ),
            )
        } else {
            Ok(opv(op, l, r))
        }
    } else {
        Ok(opv(op, l, r))
    }
}

/// An operator subtree against a numeric leaf.
pub open spec fn rules_op_num(op: TokV, l: NodeV, r: NodeV, b: u32) -> Result<NodeV, TreeError> {
    let ll_n = onum(child(l.left));
    let lr_v = ovar(child(l.right));
    if l.tok is Mul && ll_n is Some && lr_v is Some {
        if op is Div {
            if eq_bits(ll_n.unwrap(), b) {
                Ok(varv(lr_v.unwrap()))
            } else {
                Ok(opv(TokV::Mul, numv(bits_div(ll_n.unwrap(), b)), varv(lr_v.unwrap())))
            }
        } else {
            Ok(opv(op, l, r))
        }
    } else if l.tok is Div && ll_n is Some && lr_v is Some {
        if op is Div {
            if eq_bits(ll_n.unwrap(), b) {
                Ok(opv(TokV::Div, numv(B32_ONE), varv(lr_v.unwrap())))
            } else {
                Ok(opv(TokV::Mul, numv(bits_div(ll_n.unwrap(), b)), varv(lr_v.unwrap())))
            }
        } else {
            Ok(opv(op, l, r))
        }
    } else {
        Ok(opv(op, l, r))
    }
}

/// Two operator subtrees: two powers of the same variable combine their
/// exponents, additively under a product and subtractively under a
/// quotient — a reciprocal form when the right exponent is larger, with
/// the power collapsing to the bare variable when the exponent difference
/// encodes one.
pub open spec fn rules_op_op(op: TokV, l: NodeV, r: NodeV) -> Result<NodeV, TreeError> {
    let ll_v = ovar(child(l.left));
    let lr_n = onum(child(l.right));
    let rl_v = ovar(child(r.left));
    let rr_n = onum(child(r.right));
    if l.tok is Exp && r.tok is Exp && ll_v is Some && lr_n is Some && rl_v is Some
        && rr_n is Some {
        if ll_v.unwrap() == rl_v.unwrap() {
            if op is Div {
                if eq_bits(lr_n.unwrap(), rr_n.unwrap()) {
                    Ok(numv(B32_ONE))
                } else if lt_bits(lr_n.unwrap(), rr_n.unwrap()) {
                    let e = bits_sub(rr_n.unwrap(), lr_n.unwrap());
                    if eq_bits(e, B32_ONE) {
                        Ok(opv(TokV::Div, numv(B32_ONE), varv(ll_v.unwrap())))
                    } else {
                        Ok(
                            opv(
                                TokV::Div,
                                numv(B32_ONE),
                                opv(TokV::Exp, varv(ll_v.unwrap()), numv(e)),
                            ),
                        )
                    }
                } else {
                    Ok(
                        opv(
                            TokV::Exp,
                            varv(ll_v.unwrap()),
                            numv(bits_sub(lr_n.unwrap(), rr_n.unwrap())),
                        ),
                    )
                }
            } else if op is Mul {
                Ok(
                    opv(
                        TokV::Exp,
                        varv(ll_v.unwrap()),
                        numv(bits_add(lr_n.unwrap(), rr_n.unwrap())),
                    ),
                )
            } else {
                Ok(opv(op, l, r))
            }
        } else {
            Ok(opv(op, l, r))
        }
    } else {
        Ok(opv(op, l, r))
    }
}

/// The rule battery, dispatched on the classes of the two simplified
/// children (first match wins).
pub open spec fn apply_rules(op: TokV, l: NodeV, r: NodeV) -> Result<NodeV, TreeError> {
    let ln = as_num(l);
    let rn = as_num(r);
    let lv = as_var(l);
    let rv = as_var(r);
    let lop = is_op_tok(l.tok);
    let rop = is_op_tok(r.tok);
    if ln is Some && rn is Some {
        rules_num_num(op, l, r, ln.unwrap(), rn.unwrap())
    } else if lv is Some && rv is Some {
        rules_var_var(op, l, r, lv.unwrap())
    } else if lv is Some && rn is Some {
        rules_var_num(op, l, r, lv.unwrap(), rn.unwrap())
    } else if ln is Some && rv is Some {
        if is_zero_bits(ln.unwrap()) {
            Ok(varv(rv.unwrap()))
        } else {
            Ok(opv(op, l, r))
        }
    } else if lv is Some && rop {
        rules_var_op(op, l, r, lv.unwrap())
    } else if lop && rv is Some {
        rules_op_var(op, l, r, rv.unwrap())
    } else if ln is Some && rop {
        rules_num_op(op, l, r, ln.unwrap())
    } else if lop && rn is Some {
        rules_op_num(op, l, r, rn.unwrap())
    } else if lop && rop {
        rules_op_op(op, l, r)
    } else {
        Ok(opv(op, l, r))
    }
}

/// The canonical swap before the battery: under a commutative operator a
/// numeric leaf moves left of a variable, and any leaf moves left of an
/// operator subtree.
pub open spec fn swap_children(op: TokV, l: NodeV, r: NodeV) -> (NodeV, NodeV) {
    if op is Add || op is Mul {
        match l.tok {
            TokV::Var(_) => match r.tok {
                TokV::Num(_) => (r, l),
                _ => (l, r),
            },
            TokV::Add | TokV::Mul | TokV::Div | TokV::Exp => match r.tok {
                TokV::Num(_) | TokV::Var(_) => (r, l),
                _ => (l, r),
            },
            _ => (l, r),
        }
    } else {
        (l, r)
    }
}

/// One post-order simplification pass over a tree: leaves stay; an inner
/// node simplifies its children, swaps them into canonical order when its
/// operator commutes, and applies the rule battery.  A node with a grouping
/// payload or a missing child is left unchanged.
pub open spec fn sim_node(n: NodeV) -> Result<NodeV, TreeError>
    decreases n,
{
    if n.tok is Num || n.tok is Var || n.tok is LGroup || n.tok is RGroup {
        Ok(n)
    } else {
        match (n.left, n.right) {
            (Some(l0), Some(r0)) => match sim_node(*l0) {
                Err(e) => Err(e),
                Ok(ls) => match sim_node(*r0) {
                    Err(e) => Err(e),
                    Ok(rs) => {
                        let p = swap_children(n.tok, ls, rs);
                        apply_rules(n.tok, p.0, p.1)
                    },
                },
            },
            _ => Ok(n),
        }
    }
}

/// The simplification of an optional tree.
pub open spec fn sim_opt(o: Option<Box<NodeV>>) -> Result<Option<Box<NodeV>>, TreeError> {
    match o {
        None => Ok(None),
        Some(b) => match sim_node(*b) {
            Ok(m) => Ok(Some(Box::new(m))),
            Err(e) => Err(e),
        },
    }
}

// --- The rewrite engine: executable code ----------------------------------

pub open spec fn ovw(o: Option<Vec<char>>) -> Option<Seq<char>> {
    match o {
        Some(v) => Some(v@),
        None => None,
    }
}

fn mk_num(b: u32) -> (n: Box<Node>)
    ensures
        node_view(*n) == numv(b),
{
    let nd = Node { data_type: Token::NUM(b), left: None, right: None };
    proof {
        assert(node_view(nd) == numv(b));
    }
    Box::new(nd)
}

fn mk_var(x: Vec<char>) -> (n: Box<Node>)
    ensures
        node_view(*n) == varv(x@),
{
    let ghost gv = x@;
    let nd = Node { data_type: Token::VAR(x), left: None, right: None };
    proof {
        assert(node_view(nd) == varv(gv));
    }
    Box::new(nd)
}

fn mk_op(t: Token, a: Box<Node>, b: Box<Node>) -> (n: Box<Node>)
    ensures
        node_view(*n) == opv(tok_view(t), node_view(*a), node_view(*b)),
{
    let ghost gt = tok_view(t);
    let ghost ga = node_view(*a);
    let ghost gb = node_view(*b);
    let nd = Node { data_type: t, left: Some(a), right: Some(b) };
    proof {
        assert(node_view(nd) == opv(gt, ga, gb));
    }
    Box::new(nd)
}

fn num_of(n: &Node) -> (r: Option<u32>)
    ensures
        r == as_num(node_view(*n)),
{
    match &n.data_type {
        Token::NUM(b) => Some(*b),
        _ => None,
    }
}

fn var_of(n: &Node) -> (r: Option<Vec<char>>)
    ensures
        ovw(r) == as_var(node_view(*n)),
{
    match &n.data_type {
        Token::VAR(x) => Some(copy_chars(x)),
        _ => None,
    }
}

fn kid_num(o: &Option<Box<Node>>) -> (r: Option<u32>)
    ensures
        r == onum(child(opt_view(*o))),
{
    match o {
        Some(b) => num_of(b),
        None => None,
    }
}

fn kid_var(o: &Option<Box<Node>>) -> (r: Option<Vec<char>>)
    ensures
        ovw(r) == ovar(child(opt_view(*o))),
{
    match o {
        Some(b) => var_of(b),
        None => None,
    }
}

/// The operator class of a payload, as a small code: addition 0,
/// multiplication 1, division 2, exponentiation 3.
pub open spec fn op_code(t: TokV) -> Option<i32> {
    match t {
        TokV::Add => Some(0int as i32),
        TokV::Mul => Some(1int as i32),
        TokV::Div => Some(2int as i32),
        TokV::Exp => Some(3int as i32),
        _ => None,
    }
}

pub open spec fn ocode(o: Option<NodeV>) -> Option<i32> {
    match o {
        Some(c) => op_code(c.tok),
        None => None,
    }
}

fn kid_code(o: &Option<Box<Node>>) -> (r: Option<i32>)
    ensures
        r == ocode(child(opt_view(*o))),
{
    match o {
        Some(b) => match &b.data_type {
            Token::ADD => Some(0),
            Token::MUL => Some(1),
            Token::DIV => Some(2),
            Token::EXP => Some(3),
            _ => None,
        },
        None => None,
    }
}

/// Classifies a pair of optional nodes: the numeric payloads, the variable
/// names, and the operator class codes of the two, in that order (left
/// number, right number, left name, right name, left code, right code).
pub fn type_declare(left: &Option<Box<Node>>, right: &Option<Box<Node>>) -> (r: (
    Option<u32>,
    Option<u32>,
    Option<Vec<char>>,
    Option<Vec<char>>,
    Option<i32>,
    Option<i32>,
))
    ensures
        r.0 == onum(child(opt_view(*left))),
        r.1 == onum(child(opt_view(*right))),
        ovw(r.2) == ovar(child(opt_view(*left))),
        ovw(r.3) == ovar(child(opt_view(*right))),
        r.4 == ocode(child(opt_view(*left))),
        r.5 == ocode(child(opt_view(*right))),
{
    (
        kid_num(left),
        kid_num(right),
        kid_var(left),
        kid_var(right),
        kid_code(left),
        kid_code(right),
    )
}

fn is_op_token(t: &Token) -> (r: bool)
    ensures
        r == is_op_tok(tok_view(*t)),
{
    match t {
        Token::ADD | Token::MUL | Token::DIV | Token::EXP => true,
        _ => false,
    }
}

fn exec_rules_num_num(op: Token, l: Box<Node>, r: Box<Node>, a: u32, b: u32) -> (res: Result<
    Box<Node>,
    TreeError,
>)
    ensures
        node_result_matches(res, rules_num_num(tok_view(op), node_view(*l), node_view(*r), a, b)),
{
    let op_add = match &op {
        Token::ADD => true,
        _ => false,
    };
    let op_mul = match &op {
        Token::MUL => true,
        _ => false,
    };
    let op_div = match &op {
        Token::DIV => true,
        _ => false,
    };
    let op_exp = match &op {
        Token::EXP => true,
        _ => false,
    };
    if op_add {
        Ok(mk_num(b32_add(a, b)))
    } else if op_mul {
        Ok(mk_num(b32_mul(a, b)))
    } else if op_div {
        if b32_is_zero(b) {
            Err(TreeError::DivisionByZero)
        } else {
            Ok(mk_num(b32_div(a, b)))
        }
    } else if op_exp {
        match b32_pow(a, b) {
            Some(c) => Ok(mk_num(c)),
            None => Ok(mk_op(op, l, r)),
        }
    } else {
        Ok(mk_op(op, l, r))
    }
}

fn exec_rules_var_var(op: Token, l: Box<Node>, r: Box<Node>, x: Vec<char>) -> (res: Result<
    Box<Node>,
    TreeError,
>)
    ensures
        node_result_matches(res, rules_var_var(tok_view(op), node_view(*l), node_view(*r), x@)),
{
    let op_add = match &op {
        Token::ADD => true,
        _ => false,
    };
    let op_mul = match &op {
        Token::MUL => true,
        _ => false,
    };
    let op_div = match &op {
        Token::DIV => true,
        _ => false,
    };
    if op_add {
        Ok(mk_op(Token::MUL, mk_num(B32_TWO), mk_var(x)))
    } else if op_mul {
        Ok(mk_op(Token::EXP, mk_var(x), mk_num(B32_TWO)))
    } else if op_div {
        Ok(mk_num(B32_ONE))
    } else {
        Ok(mk_op(op, l, r))
    }
}

fn exec_rules_var_num(op: Token, l: Box<Node>, r: Box<Node>, x: Vec<char>, b: u32) -> (res: Result<
    Box<Node>,
    TreeError,
>)
    ensures
        node_result_matches(
            res,
            rules_var_num(tok_view(op), node_view(*l), node_view(*r), x@, b),
        ),
{
    let op_div = match &op {
        Token::DIV => true,
        _ => false,
    };
    let op_exp = match &op {
        Token::EXP => true,
        _ => false,
    };
    if op_div {
        Ok(mk_op(Token::MUL, mk_num(b32_div(B32_ONE, b)), mk_var(x)))
    } else if op_exp {
        if b32_lt(B32_ONE, b) {
            Ok(mk_op(op, l, r))
        } else if b32_is_zero(b) {
            Ok(mk_num(B32_ONE))
        } else if b32_eq(b, B32_ONE) {
            Ok(mk_var(x))
        } else if b32_is_neg(b) {
            if b32_eq(b, B32_NEG_ONE) {
                Ok(mk_op(Token::DIV, mk_num(B32_ONE), mk_var(x)))
            } else {
                Ok(
                    mk_op(
                        Token::DIV,
                        mk_num(B32_ONE),
                        mk_op(Token::EXP, mk_var(x), mk_num(b32_abs(b))),
                    ),
                )
            }
        } else {
            Ok(mk_op(op, l, r))
        }
    } else {
        Ok(mk_op(op, l, r))
    }
}

fn exec_rules_var_op(op: Token, l: Box<Node>, r: Box<Node>, x: Vec<char>) -> (res: Result<
    Box<Node>,
    TreeError,
>)
    ensures
        node_result_matches(res, rules_var_op(tok_view(op), node_view(*l), node_view(*r), x@)),
{
    let op_mul = match &op {
        Token::MUL => true,
        _ => false,
    };
    let op_div = match &op {
        Token::DIV => true,
        _ => false,
    };
    let r_is_mul = match &r.data_type {
        Token::MUL => true,
        _ => false,
    };
    let r_is_div = match &r.data_type {
        Token::DIV => true,
        _ => false,
    };
    let r_is_exp = match &r.data_type {
        Token::EXP => true,
        _ => false,
    };
    let (rl_n, rr_n, rl_v, rr_v, _rl_t, _rr_t) = type_declare(&r.left, &r.right);
    let (rr_is_exp, rrl_v, rrr_n): (bool, Option<Vec<char>>, Option<u32>) = match &r.right {
        Some(c) => {
            let e = match &c.data_type {
                Token::EXP => true,
                _ => false,
            };
            let deep = type_declare(&c.left, &c.right);
            (e, deep.2, deep.1)
        },
        None => (false, None, None),
    };
    if rr_is_exp && rrl_v.is_some() && rrr_n.is_some() {
        if r_is_mul && rl_n.is_some() {
            if op_mul {
                Ok(
                    mk_op(
                        Token::MUL,
                        mk_num(rl_n.unwrap()),
                        mk_op(Token::EXP, mk_var(x), mk_num(b32_add(rrr_n.unwrap(), B32_ONE))),
                    ),
                )
            } else if op_div {
                let e = b32_sub(rrr_n.unwrap(), B32_ONE);
                if b32_is_zero(e) {
                    Ok(mk_num(b32_div(B32_ONE, rl_n.unwrap())))
                } else if b32_eq(e, B32_ONE) {
                    Ok(
                        mk_op(
                            Token::DIV,
                            mk_num(B32_ONE),
                            mk_op(Token::MUL, mk_num(rl_n.unwrap()), mk_var(x)),
                        ),
                    )
                } else {
                    Ok(
                        mk_op(
                            Token::DIV,
                            mk_num(B32_ONE),
                            mk_op(
                                Token::MUL,
                                mk_num(rl_n.unwrap()),
                                mk_op(Token::EXP, mk_var(x), mk_num(e)),
                            ),
                        ),
                    )
                }
            } else {
                Ok(mk_op(op, l, r))
            }
        } else if r_is_div && rl_n.is_some() {
            if op_mul {
                if b32_eq(rrr_n.unwrap(), B32_ONE) {
                    Ok(mk_num(rl_n.unwrap()))
                } else {
                    let e = b32_sub(rrr_n.unwrap(), B32_ONE);
                    if !b32_eq(e, B32_ONE) {
                        Ok(
                            mk_op(
                                Token::DIV,
                                mk_num(rl_n.unwrap()),
                                mk_op(Token::EXP, mk_var(x), mk_num(e)),
                            ),
                        )
                    } else {
                        Ok(mk_op(Token::DIV, mk_num(rl_n.unwrap()), mk_var(x)))
                    }
                }
            } else if op_div {
                if b32_is_zero(rrr_n.unwrap()) {
                    Ok(mk_op(Token::DIV, mk_var(x), mk_num(rl_n.unwrap())))
                } else {
                    Ok(
                        mk_op(
                            Token::DIV,
                            mk_op(Token::EXP, mk_var(x), mk_num(b32_add(rrr_n.unwrap(), B32_ONE))),
                            mk_num(rl_n.unwrap()),
                        ),
                    )
                }
            } else {
                Ok(mk_op(op, l, r))
            }
        } else {
            Ok(mk_op(op, l, r))
        }
    } else if r_is_exp && rl_v.is_some() && rr_n.is_some() {
        let name_eq = match &rl_v {
            Some(v) => eq_chars(&x, v),
            None => false,
        };
        if name_eq {
            if op_mul {
                Ok(mk_op(Token::EXP, mk_var(x), mk_num(b32_add(rr_n.unwrap(), B32_ONE))))
            } else if op_div {
                let e = b32_sub(rr_n.unwrap(), B32_ONE);
                if b32_eq(e, B32_ONE) {
                    Ok(mk_op(Token::DIV, mk_num(B32_ONE), mk_var(x)))
                } else {
                    Ok(
                        mk_op(
                            Token::DIV,
                            mk_num(B32_ONE),
                            mk_op(Token::EXP, mk_var(x), mk_num(e)),
                        ),
                    )
                }
            } else {
                Ok(mk_op(op, l, r))
            }
        } else {
            Ok(mk_op(op, l, r))
        }
    } else if r_is_mul && rr_v.is_some() && rl_n.is_some() && b32_eq(rl_n.unwrap(), B32_NEG_ONE) {
        Ok(mk_num(B32_ZERO))
    } else {
        Ok(mk_op(op, l, r))
    }
}

fn exec_rules_op_var(op: Token, l: Box<Node>, r: Box<Node>, y: Vec<char>) -> (res: Result<
    Box<Node>,
    TreeError,
>)
    ensures
        node_result_matches(res, rules_op_var(tok_view(op), node_view(*l), node_view(*r), y@)),
{
    let op_div = match &op {
        Token::DIV => true,
        _ => false,
    };
    let l_is_mul = match &l.data_type {
        Token::MUL => true,
        _ => false,
    };
    let l_is_exp = match &l.data_type {
        Token::EXP => true,
        _ => false,
    };
    let (ll_n, lr_n, ll_v, lr_v, _ll_t, _lr_t) = type_declare(&l.left, &l.right);
    if l_is_exp && ll_v.is_some() && lr_n.is_some() {
        let name_eq = match &ll_v {
            Some(v) => eq_chars(v, &y),
            None => false,
        };
        if op_div && name_eq {
            if b32_eq(lr_n.unwrap(), B32_TWO) {
                Ok(mk_var(ll_v.unwrap()))
            } else {
                Ok(
                    mk_op(
                        Token::EXP,
                        mk_var(ll_v.unwrap()),
                        mk_num(b32_sub(lr_n.unwrap(), B32_ONE)),
                    ),
                )
            }
        } else {
            Ok(mk_op(op, l, r))
        }
    } else if l_is_mul && ll_n.is_some() && lr_v.is_some() {
        if op_div {
            Ok(mk_num(ll_n.unwrap()))
        } else {
            Ok(mk_op(op, l, r))
        }
    } else {
        Ok(mk_op(op, l, r))
    }
}

fn exec_rules_num_op(op: Token, l: Box<Node>, r: Box<Node>, a: u32) -> (res: Result<
    Box<Node>,
    TreeError,
>)
    ensures
        node_result_matches(res, rules_num_op(tok_view(op), node_view(*l), node_view(*r), a)),
{
    let op_add = match &op {
        Token::ADD => true,
        _ => false,
    };
    let op_mul = match &op {
        Token::MUL => true,
        _ => false,
    };
    let op_div = match &op {
        Token::DIV => true,
        _ => false,
    };
    let r_is_mul = match &r.data_type {
        Token::MUL => true,
        _ => false,
    };
    let r_is_div = match &r.data_type {
        Token::DIV => true,
        _ => false,
    };
    let r_is_exp = match &r.data_type {
        Token::EXP => true,
        _ => false,
    };
    let (rl_n, rr_n, rl_v, rr_v, _rl_t, _rr_t) = type_declare(&r.left, &r.right);
    let (rr_is_mul, rrl_n, rrr_v): (bool, Option<u32>, Option<Vec<char>>) = match &r.right {
        Some(c) => {
            let m = match &c.data_type {
                Token::MUL => true,
                _ => false,
            };
            let deep = type_declare(&c.left, &c.right);
            (m, deep.0, deep.3)
        },
        None => (false, None, None),
    };
    if r_is_mul && rl_n.is_some() && rr_v.is_some() {
        if op_mul {
            Ok(mk_op(Token::MUL, mk_num(b32_mul(a, rl_n.unwrap())), mk_var(rr_v.unwrap())))
        } else if op_div {
            if b32_eq(a, rl_n.unwrap()) {
                Ok(mk_op(Token::DIV, mk_num(B32_ONE), mk_var(rr_v.unwrap())))
            } else {
                Ok(
                    mk_op(
                        Token::DIV,
                        mk_num(b32_mul(a, b32_div(B32_ONE, rl_n.unwrap()))),
                        mk_var(rr_v.unwrap()),
                    ),
                )
            }
        } else {
            Ok(mk_op(op, l, r))
        }
    } else if r_is_div && rl_n.is_some() && rr_v.is_some() {
        if op_div {
            if b32_eq(a, rl_n.unwrap()) {
                Ok(mk_var(rr_v.unwrap()))
            } else {
                Ok(
                    mk_op(
                        Token::DIV,
                        mk_op(Token::MUL, mk_num(a), mk_var(rr_v.unwrap())),
                        mk_num(rl_n.unwrap()),
                    ),
                )
            }
        } else if op_mul {
            Ok(mk_op(Token::DIV, mk_num(b32_mul(a, rl_n.unwrap())), mk_var(rr_v.unwrap())))
        } else {
            Ok(mk_op(op, l, r))
        }
    } else if r_is_div && rl_v.is_some() && rr_n.is_some() {
        if op_div {
            if b32_eq(a, rr_n.unwrap()) {
                Ok(mk_var(rl_v.unwrap()))
            } else {
                Ok(mk_op(Token::MUL, mk_num(b32_div(a, rr_n.unwrap())), mk_var(rl_v.unwrap())))
            }
        } else {
            Ok(mk_op(op, l, r))
        }
    } else if r_is_exp && rl_v.is_some() && rr_n.is_some() {
        if op_add && b32_is_zero(a) {
            Ok(r)
        } else {
            Ok(mk_op(op, l, r))
        }
    } else if r_is_div && rl_n.is_some() && rr_is_mul && rrl_n.is_some() && rrr_v.is_some() {
        if op_mul {
            Ok(
                mk_op(
                    Token::DIV,
                    mk_num(b32_mul(a, rl_n.unwrap())),
                    mk_op(Token::MUL, mk_num(rrl_n.unwrap()), mk_var(rrr_v.unwrap())),
                ),
            )
        } else if op_div {
            Ok(
                mk_op(
                    Token::MUL,
                    mk_num(b32_div(b32_mul(a, rrl_n.unwrap()), rl_n.unwrap())),
                    mk_var(rrr_v.unwrap()),
                ),
            )
        } else {
            Ok(mk_op(op, l, r))
        }
    } else {
        Ok(mk_op(op, l, r))
    }
}

fn exec_rules_op_num(op: Token, l: Box<Node>, r: Box<Node>, b: u32) -> (res: Result<
    Box<Node>,
    TreeError,
>)
    ensures
        node_result_matches(res, rules_op_num(tok_view(op), node_view(*l), node_view(*r), b)),
{
    let op_div = match &op {
        Token::DIV => true,
        _ => false,
    };
    let l_is_mul = match &l.data_type {
        Token::MUL => true,
        _ => false,
    };
    let l_is_div = match &l.data_type {
        Token::DIV => true,
        _ => false,
    };
    let (ll_n, _lr_n, _ll_v, lr_v, _ll_t, _lr_t) = type_declare(&l.left, &l.right);
    if l_is_mul && ll_n.is_some() && lr_v.is_some() {
        if op_div {
            if b32_eq(ll_n.unwrap(), b) {
                Ok(mk_var(lr_v.unwrap()))
            } else {
                Ok(mk_op(Token::MUL, mk_num(b32_div(ll_n.unwrap(), b)), mk_var(lr_v.unwrap())))
            }
        } else {
            Ok(mk_op(op, l, r))
        }
    } else if l_is_div && ll_n.is_some() && lr_v.is_some() {
        if op_div {
            if b32_eq(ll_n.unwrap(), b) {
                Ok(mk_op(Token::DIV, mk_num(B32_ONE), mk_var(lr_v.unwrap())))
            } else {
                Ok(mk_op(Token::MUL, mk_num(b32_div(ll_n.unwrap(), b)), mk_var(lr_v.unwrap())))
            }
        } else {
            Ok(mk_op(op, l, r))
        }
    } else {
        Ok(mk_op(op, l, r))
    }
}

fn exec_rules_op_op(op: Token, l: Box<Node>, r: Box<Node>) -> (res: Result<Box<Node>, TreeError>)
    ensures
        node_result_matches(res, rules_op_op(tok_view(op), node_view(*l), node_view(*r))),
{
    let op_mul = match &op {
        Token::MUL => true,
        _ => false,
    };
    let op_div = match &op {
        Token::DIV => true,
        _ => false,
    };
    let l_is_exp = match &l.data_type {
        Token::EXP => true,
        _ => false,
    };
    let r_is_exp = match &r.data_type {
        Token::EXP => true,
        _ => false,
    };
    let (_ll_n, lr_n, ll_v, _lr_v, _ll_t, _lr_t) = type_declare(&l.left, &l.right);
    let (_rl_n, rr_n, rl_v, _rr_v, _rl_t, _rr_t) = type_declare(&r.left, &r.right);
    if l_is_exp && r_is_exp && ll_v.is_some() && lr_n.is_some() && rl_v.is_some()
        && rr_n.is_some() {
        let name_eq = match (&ll_v, &rl_v) {
            (Some(v), Some(w)) => eq_chars(v, w),
            _ => false,
        };
        if name_eq {
            if op_div {
                if b32_eq(lr_n.unwrap(), rr_n.unwrap()) {
                    Ok(mk_num(B32_ONE))
                } else if b32_lt(lr_n.unwrap(), rr_n.unwrap()) {
                    let e = b32_sub(rr_n.unwrap(), lr_n.unwrap());
                    if b32_eq(e, B32_ONE) {
                        Ok(mk_op(Token::DIV, mk_num(B32_ONE), mk_var(ll_v.unwrap())))
                    } else {
                        Ok(
                            mk_op(
                                Token::DIV,
                                mk_num(B32_ONE),
                                mk_op(Token::EXP, mk_var(ll_v.unwrap()), mk_num(e)),
                            ),
                        )
                    }
                } else {
                    Ok(
                        mk_op(
                            Token::EXP,
                            mk_var(ll_v.unwrap()),
                            mk_num(b32_sub(lr_n.unwrap(), rr_n.unwrap())),
                        ),
                    )
                }
            } else if op_mul {
                Ok(
                    mk_op(
                        Token::EXP,
                        mk_var(ll_v.unwrap()),
                        mk_num(b32_add(lr_n.unwrap(), rr_n.unwrap())),
                    ),
                )
            } else {
                Ok(mk_op(op, l, r))
            }
        } else {
            Ok(mk_op(op, l, r))
        }
    } else {
        Ok(mk_op(op, l, r))
    }
}

fn exec_apply_rules(op: Token, l: Box<Node>, r: Box<Node>) -> (res: Result<Box<Node>, TreeError>)
    ensures
        node_result_matches(res, apply_rules(tok_view(op), node_view(*l), node_view(*r))),
{
    let ln = num_of(&l);
    let rn = num_of(&r);
    let lv = var_of(&l);
    let rv = var_of(&r);
    let lop = is_op_token(&l.data_type);
    let rop = is_op_token(&r.data_type);
    if ln.is_some() && rn.is_some() {
        exec_rules_num_num(op, l, r, ln.unwrap(), rn.unwrap())
    } else if lv.is_some() && rv.is_some() {
        exec_rules_var_var(op, l, r, lv.unwrap())
    } else if lv.is_some() && rn.is_some() {
        exec_rules_var_num(op, l, r, lv.unwrap(), rn.unwrap())
    } else if ln.is_some() && rv.is_some() {
        if b32_is_zero(ln.unwrap()) {
            Ok(mk_var(rv.unwrap()))
        } else {
            Ok(mk_op(op, l, r))
        }
    } else if lv.is_some() && rop {
        exec_rules_var_op(op, l, r, lv.unwrap())
    } else if lop && rv.is_some() {
        exec_rules_op_var(op, l, r, rv.unwrap())
    } else if ln.is_some() && rop {
        exec_rules_num_op(op, l, r, ln.unwrap())
    } else if lop && rn.is_some() {
        exec_rules_op_num(op, l, r, rn.unwrap())
    } else if lop && rop {
        exec_rules_op_op(op, l, r)
    } else {
        Ok(mk_op(op, l, r))
    }
}

fn swap_exec(op: &Token, l: Box<Node>, r: Box<Node>) -> (res: (Box<Node>, Box<Node>))
    ensures
        ({
            let p = swap_children(tok_view(*op), node_view(*l), node_view(*r));
            node_view(*res.0) == p.0 && node_view(*res.1) == p.1
        }),
{
    let op_comm = match op {
        Token::ADD | Token::MUL => true,
        _ => false,
    };
    let l_var = match &l.data_type {
        Token::VAR(_) => true,
        _ => false,
    };
    let l_op = is_op_token(&l.data_type);
    let r_num = match &r.data_type {
        Token::NUM(_) => true,
        _ => false,
    };
    let r_var = match &r.data_type {
        Token::VAR(_) => true,
        _ => false,
    };
    if op_comm {
        if l_var && r_num {
            (r, l)
        } else if l_op && (r_num || r_var) {
            (r, l)
        } else {
            (l, r)
        }
    } else {
        (l, r)
    }
}

fn simplify_rec(b: Box<Node>) -> (res: Result<Box<Node>, TreeError>)
    ensures
        node_result_matches(res, sim_node(node_view(*b))),
    decreases b,
{
    let leafish = match &b.data_type {
        Token::NUM(_) | Token::VAR(_) | Token::LGROUP | Token::RGROUP => true,
        _ => false,
    };
    if leafish {
        return Ok(b);
    }
    let ghost gb = node_view(*b);
    let Node { data_type, left, right } = *b;
    match (left, right) {
        (Some(lb), Some(rb)) => {
            let ls = match simplify_rec(lb) {
                Err(e) => {
                    return Err(e);
                },
                Ok(n) => n,
            };
            let rs = match simplify_rec(rb) {
                Err(e) => {
                    return Err(e);
                },
                Ok(n) => n,
            };
            let (pa, pb) = swap_exec(&data_type, ls, rs);
            exec_apply_rules(data_type, pa, pb)
        },
        (l2, r2) => {
            let n = Node { data_type, left: l2, right: r2 };
            proof {
                assert(node_view(n) == gb);
            }
            Ok(Box::new(n))
        },
    }
}

pub open spec fn sim_result_matches(
    r: Result<Option<Box<Node>>, TreeError>,
    sp: Result<Option<Box<NodeV>>, TreeError>,
) -> bool {
    match (r, sp) {
        (Ok(o), Ok(ov)) => opt_view(o) == ov,
        (Err(e), Err(f)) => e == f,
        _ => false,
    }
}

/// Simplifies a tree in one post-order pass over the rule battery; fails
/// only when constant folding divides by an encoded zero.
pub fn simplify_node(node: Option<Box<Node>>) -> (r: Result<Option<Box<Node>>, TreeError>)
    ensures
        sim_result_matches(r, sim_opt(opt_view(node))),
{
    match node {
        None => Ok(None),
        Some(b) => match simplify_rec(b) {
            Err(e) => Err(e),
            Ok(m) => Ok(Some(m)),
        },
    }
}

// --- The whole pipeline ---------------------------------------------------

/// What `process` returns: normalize the tokens, locate the root operator,
/// build the tree, and simplify it.
pub open spec fn process_spec(s: Seq<TokV>) -> Result<NodeV, TreeError> {
    match fix_groups_spec(s) {
        Err(e) => Err(e),
        Ok((t, gs)) => match split_locater_spec(t, gs) {
            Err(e) => Err(e),
            Ok(raw) => match node_creation_spec(raw) {
                Err(e) => Err(e),
                Ok(tree) => sim_node(tree),
            },
        },
    }
}

/// Parses a token sequence into a binary expression tree ordered by
/// operator precedence and applies the simplification pass to it.
pub fn process(token_vector: Vec<Token>) -> (r: Result<Box<Node>, TreeError>)
    ensures
        node_result_matches(r, process_spec(tokens_view(token_vector@))),
{
    let (ft, gl) = match fix_groups(token_vector) {
        Err(e) => {
            return Err(e);
        },
        Ok(p) => p,
    };
    let raw = match split_locater(ft, gl) {
        Err(e) => {
            return Err(e);
        },
        Ok(p) => p,
    };
    let built = match node_creation(raw) {
        Err(e) => {
            return Err(e);
        },
        Ok(o) => o,
    };
    match built {
        Some(b) => simplify_rec(b),
        None => {
            proof {
                assert(false);
            }
            Err(TreeError::InternalInconsistency)
        },
    }
}

// --- The leaf invariant through simplification ----------------------------

proof fn lemma_rules_wf(op: TokV, l: NodeV, r: NodeV)
    requires
        wf_node(l),
        wf_node(r),
        is_op_tok(op),
    ensures
        apply_rules(op, l, r) is Ok ==> wf_node(apply_rules(op, l, r).unwrap()),
{
    assert(forall|t: TokV, a: NodeV, b: NodeV|
        is_op_tok(t) && wf_node(a) && wf_node(b) ==> wf_node(#[trigger] opv(t, a, b)));
    assert(forall|b: u32| wf_node(#[trigger] numv(b)));
    assert(forall|x: Seq<char>| wf_node(#[trigger] varv(x)));
}

proof fn lemma_sim_wf(n: NodeV)
    requires
        wf_node(n),
    ensures
        sim_node(n) is Ok ==> wf_node(sim_node(n).unwrap()),
    decreases n,
{
    if n.tok is Num || n.tok is Var || n.tok is LGroup || n.tok is RGroup {
    } else {
        match (n.left, n.right) {
            (Some(l0), Some(r0)) => {
                lemma_sim_wf(*l0);
                lemma_sim_wf(*r0);
                match sim_node(*l0) {
                    Err(_) => {
                    },
                    Ok(ls) => {
                        match sim_node(*r0) {
                            Err(_) => {
                            },
                            Ok(rs) => {
                                let p = swap_children(n.tok, ls, rs);
                                assert(wf_node(p.0) && wf_node(p.1));
                                lemma_rules_wf(n.tok, p.0, p.1);
                            },
                        }
                    },
                }
            },
            _ => {
            },
        }
    }
}

/// The leaf invariant of the whole pipeline: whatever tree `process`
/// returns is well formed — children both present exactly under an operator
/// payload, both absent exactly under a numeric or variable payload.
pub proof fn lemma_process_wf(s: Seq<TokV>, t: NodeV)
    requires
        process_spec(s) == Ok::<NodeV, TreeError>(t),
    ensures
        wf_node(t),
{
    let (ft, gs) = fix_groups_spec(s).unwrap();
    let raw = split_locater_spec(ft, gs).unwrap();
    let built = node_creation_spec(raw).unwrap();
    lemma_node_creation_wf(raw, built);
    lemma_sim_wf(built);
}

// --- Constant folding and division by zero --------------------------------

/// Constant-fold correctness: simplifying a tree that holds one operator
/// over two numeric leaves yields the single numeric leaf of the folded
/// encoding — the rounded sum, product, or quotient (the quotient only when
/// the divisor is not an encoded zero), and the folded power whenever the
/// exponent encodes an integer whose magnitude fits 32 bits.  The power is
/// the repeated round-to-nearest product of `pow_bits`, not a correctly
/// rounded real power, and a tree whose exponent encodes anything else
/// stays unfolded: those are the stated limits of exponent folding here.
pub proof fn lemma_constant_fold(a: u32, b: u32)
    ensures
        sim_node(opv(TokV::Add, numv(a), numv(b))) == Ok::<NodeV, TreeError>(
            numv(bits_add(a, b)),
        ),
        sim_node(opv(TokV::Mul, numv(a), numv(b))) == Ok::<NodeV, TreeError>(
            numv(bits_mul(a, b)),
        ),
        !is_zero_bits(b) ==> sim_node(opv(TokV::Div, numv(a), numv(b))) == Ok::<
            NodeV,
            TreeError,
        >(numv(bits_div(a, b))),
        pow_bits(a, b) is Some ==> sim_node(opv(TokV::Exp, numv(a), numv(b))) == Ok::<
            NodeV,
            TreeError,
        >(numv(pow_bits(a, b).unwrap())),
{
    assert(sim_node(numv(a)) == Ok::<NodeV, TreeError>(numv(a)));
    assert(sim_node(numv(b)) == Ok::<NodeV, TreeError>(numv(b)));
}

/// Division by zero: a tree whose root is a division and whose two children
/// simplify to numeric leaves, the right one an encoded zero, fails with
/// `DivisionByZero`.
pub proof fn lemma_division_by_zero(l: NodeV, r: NodeV, a: u32, z: u32)
    requires
        sim_node(l) == Ok::<NodeV, TreeError>(numv(a)),
        sim_node(r) == Ok::<NodeV, TreeError>(numv(z)),
        is_zero_bits(z),
    ensures
        sim_node(opv(TokV::Div, l, r)) == Err::<NodeV, TreeError>(TreeError::DivisionByZero),
{
}

} // verus!
