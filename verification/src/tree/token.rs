use vstd::prelude::*;

use crate::num32::{bits_parse, B32_NEG_ONE};
use crate::num32::b32_parse;
use crate::TreeError;
use vstd::std_specs::iter::IteratorSpec;

verus! {

// The token model.  Operator markers carry no operands; numeric literals
// carry the IEEE-754 binary32 encoding of their value; variables carry their
// name as a sequence of characters.

#[derive(Debug, PartialEq)]
#[allow(non_camel_case_types)]
pub enum Token {
    ADD,
    MUL,
    DIV,
    EXP,
    VAR(Vec<char>),
    NUM(u32),
    LGROUP,
    RGROUP,
}

/// The mathematical value of a token: the same tags, with the variable name
/// as a `Seq<char>`.
pub enum TokV {
    Add,
    Mul,
    Div,
    Exp,
    Var(Seq<char>),
    Num(u32),
    LGroup,
    RGroup,
}

pub open spec fn tok_view(t: Token) -> TokV {
    match t {
        Token::ADD => TokV::Add,
        Token::MUL => TokV::Mul,
        Token::DIV => TokV::Div,
        Token::EXP => TokV::Exp,
        Token::VAR(name) => TokV::Var(name@),
        Token::NUM(b) => TokV::Num(b),
        Token::LGROUP => TokV::LGroup,
        Token::RGROUP => TokV::RGroup,
    }
}

impl View for Token {
    type V = TokV;

    open spec fn view(&self) -> TokV {
        tok_view(*self)
    }
}

/// The mathematical value of a token sequence.
pub open spec fn tokens_view(s: Seq<Token>) -> Seq<TokV> {
    s.map_values(|t: Token| tok_view(t))
}

pub broadcast proof fn lemma_tokens_view_len(s: Seq<Token>)
    ensures
        #[trigger] tokens_view(s).len() == s.len(),
{
}

pub broadcast proof fn lemma_tokens_view_index(s: Seq<Token>, i: int)
    requires
        0 <= i < s.len(),
    ensures
        #[trigger] tokens_view(s)[i] == tok_view(s[i]),
{
}

pub proof fn lemma_tokens_view_push(s: Seq<Token>, t: Token)
    ensures
        tokens_view(s.push(t)) == tokens_view(s).push(tok_view(t)),
{
    assert(tokens_view(s.push(t)) =~= tokens_view(s).push(tok_view(t)));
}

pub proof fn lemma_tokens_view_subrange(s: Seq<Token>, a: int, b: int)
    requires
        0 <= a <= b <= s.len(),
    ensures
        tokens_view(s.subrange(a, b)) == tokens_view(s).subrange(a, b),
{
    assert(tokens_view(s.subrange(a, b)) =~= tokens_view(s).subrange(a, b));
}

pub proof fn lemma_tokens_view_insert(s: Seq<Token>, i: int, t: Token)
    requires
        0 <= i <= s.len(),
    ensures
        tokens_view(s.insert(i, t)) == tokens_view(s).insert(i, tok_view(t)),
{
    assert(tokens_view(s.insert(i, t)) =~= tokens_view(s).insert(i, tok_view(t)));
}

pub proof fn lemma_tokens_view_remove(s: Seq<Token>, i: int)
    requires
        0 <= i < s.len(),
    ensures
        tokens_view(s.remove(i)) == tokens_view(s).remove(i),
{
    assert(tokens_view(s.remove(i)) =~= tokens_view(s).remove(i));
}

/// Copies a character vector; characters are plain values, so the copy has
/// the same view.
pub fn copy_chars(v: &Vec<char>) -> (r: Vec<char>)
    ensures
        r@ == v@,
{
    let mut r: Vec<char> = Vec::new();
    let mut i: usize = 0;
    while i < v.len()
        invariant
            i <= v.len(),
            r@ == v@.subrange(0, i as int),
        decreases v.len() - i,
    {
        r.push(v[i]);
        proof {
            assert(v@.subrange(0, i as int).push(v@[i as int]) =~= v@.subrange(0, i + 1));
        }
        i = i + 1;
    }
    proof {
        assert(v@.subrange(0, v@.len() as int) =~= v@);
    }
    r
}

/// Character-vector equality, decided by contents.
pub fn eq_chars(a: &Vec<char>, b: &Vec<char>) -> (r: bool)
    ensures
        r == (a@ == b@),
{
    if a.len() != b.len() {
        proof {
            assert(a@.len() != b@.len());
        }
        return false;
    }
    let mut i: usize = 0;
    while i < a.len()
        invariant
            i <= a.len(),
            a@.len() == b@.len(),
            forall|k: int| 0 <= k < i ==> a@[k] == b@[k],
        decreases a.len() - i,
    {
        if a[i] != b[i] {
            return false;
        }
        i = i + 1;
    }
    proof {
        assert(a@ =~= b@);
    }
    true
}

impl Clone for Token {
    fn clone(&self) -> (r: Token)
        ensures
            r@ == self@,
    {
        match self {
            Token::ADD => Token::ADD,
            Token::MUL => Token::MUL,
            Token::DIV => Token::DIV,
            Token::EXP => Token::EXP,
            Token::VAR(name) => Token::VAR(copy_chars(name)),
            Token::NUM(b) => Token::NUM(*b),
            Token::LGROUP => Token::LGROUP,
            Token::RGROUP => Token::RGROUP,
        }
    }
}

/// Copies the subrange `[a, b)` of a token vector.
pub fn subvec(v: &Vec<Token>, a: usize, b: usize) -> (r: Vec<Token>)
    requires
        a <= b <= v@.len(),
    ensures
        tokens_view(r@) == tokens_view(v@.subrange(a as int, b as int)),
{
    let mut r: Vec<Token> = Vec::new();
    let mut i: usize = a;
    while i < b
        invariant
            a <= i <= b <= v@.len(),
            tokens_view(r@) == tokens_view(v@.subrange(a as int, i as int)),
        decreases b - i,
    {
        let c = v[i].clone();
        let ghost prev = r@;
        r.push(c);
        proof {
            lemma_tokens_view_push(prev, c);
            assert(tokens_view(v@.subrange(a as int, i as int)).push(tok_view(v@[i as int]))
                =~= tokens_view(v@.subrange(a as int, i + 1)));
        }
        i = i + 1;
    }
    r
}

// --- Group locating -------------------------------------------------------
//
// A group range is a pair of indices `(start, end)`, inclusive, naming one
// matched pair of grouping markers.  The locator scans once with a stack:
// push each opening index, pop-and-emit on each closing marker.

/// One scan step at a time: the pairs that the stack scan emits from
/// position `i` on, given the still-open indices and the pairs emitted so
/// far; `None` when the markers do not match up.
pub open spec fn match_groups_rec(
    s: Seq<TokV>,
    i: int,
    stack: Seq<usize>,
    acc: Seq<(usize, usize)>,
) -> Option<Seq<(usize, usize)>>
    decreases s.len() - i,
{
    if i >= s.len() {
        if stack.len() == 0 {
            Some(acc)
        } else {
            None
        }
    } else if s[i] is LGroup {
        match_groups_rec(s, i + 1, stack.push(i as usize), acc)
    } else if s[i] is RGroup {
        if stack.len() == 0 {
            None
        } else {
            match_groups_rec(s, i + 1, stack.drop_last(), acc.push((stack.last(), i as usize)))
        }
    } else {
        match_groups_rec(s, i + 1, stack, acc)
    }
}

/// The matched pairs of a token sequence, in order of emission.
pub open spec fn match_groups(s: Seq<TokV>) -> Option<Seq<(usize, usize)>> {
    match_groups_rec(s, 0, Seq::empty(), Seq::empty())
}

/// Insertion of one pair into a list sorted by ascending start index.
pub open spec fn insert_pair(r: Seq<(usize, usize)>, p: (usize, usize)) -> Seq<(usize, usize)>
    decreases r.len(),
{
    if r.len() == 0 {
        seq![p]
    } else if p.0 < r.last().0 {
        insert_pair(r.drop_last(), p).push(r.last())
    } else {
        r.push(p)
    }
}

/// Insertion sort by ascending start index.
pub open spec fn sort_pairs(ps: Seq<(usize, usize)>) -> Seq<(usize, usize)>
    decreases ps.len(),
{
    if ps.len() == 0 {
        Seq::empty()
    } else {
        insert_pair(sort_pairs(ps.drop_last()), ps.last())
    }
}

/// What the group locator returns on a balanced sequence: the matched
/// pairs, sorted by ascending start index.
pub open spec fn located_groups(s: Seq<TokV>) -> Option<Seq<(usize, usize)>> {
    match match_groups(s) {
        None => None,
        Some(ps) => Some(sort_pairs(ps)),
    }
}

fn insert_pair_exec(r: Vec<(usize, usize)>, p: (usize, usize)) -> (out: Vec<(usize, usize)>)
    ensures
        out@ == insert_pair(r@, p),
    decreases r@.len(),
{
    let mut r = r;
    if r.len() == 0 {
        r.push(p);
        proof {
            assert(r@ =~= seq![p]);
        }
        r
    } else {
        let last = r[r.len() - 1];
        if p.0 < last.0 {
            let ghost before = r@;
            r.pop();
            proof {
                assert(r@ == before.drop_last());
            }
            let mut out = insert_pair_exec(r, p);
            out.push(last);
            out
        } else {
            r.push(p);
            r
        }
    }
}

/// Locates the matched grouping-marker pairs of a token sequence and sorts
/// them by ascending start index.  Fails with `MalformedGroups` exactly when
/// the markers do not pair up (in particular, whenever their total count is
/// odd).
pub fn find_groups(token_vector: &Vec<Token>) -> (r: Result<Vec<(usize, usize)>, TreeError>)
    ensures
        match r {
            Ok(gs) => located_groups(tokens_view(token_vector@)) == Some(gs@),
            Err(e) => {
                &&& e == TreeError::MalformedGroups
                &&& located_groups(tokens_view(token_vector@)) is None
            },
        },
{
    let ghost s = tokens_view(token_vector@);
    let mut stack: Vec<usize> = Vec::new();
    let mut acc: Vec<(usize, usize)> = Vec::new();
    let mut i: usize = 0;
    while i < token_vector.len()
        invariant
            i <= token_vector.len(),
            s == tokens_view(token_vector@),
            match_groups_rec(s, i as int, stack@, acc@) == match_groups(s),
            stack@.len() <= i,
        decreases token_vector.len() - i,
    {
        proof {
            lemma_tokens_view_index(token_vector@, i as int);
        }
        match &token_vector[i] {
            Token::LGROUP => {
                stack.push(i);
            },
            Token::RGROUP => {
                let ghost st = stack@;
                match stack.pop() {
                    Some(j) => {
                        proof {
                            assert(st.len() > 0);
                            assert(j == st.last());
                            assert(stack@ == st.drop_last());
                        }
                        acc.push((j, i));
                    },
                    None => {
                        proof {
                            assert(match_groups_rec(s, i as int, st, acc@) is None);
                        }
                        return Err(TreeError::MalformedGroups);
                    },
                }
            },
            _ => {
            },
        }
        i = i + 1;
    }
    if stack.len() > 0 {
        proof {
            assert(match_groups_rec(s, i as int, stack@, acc@) is None);
        }
        return Err(TreeError::MalformedGroups);
    }
    proof {
        assert(match_groups(s) == Some(acc@));
    }
    let mut sorted: Vec<(usize, usize)> = Vec::new();
    let mut k: usize = 0;
    while k < acc.len()
        invariant
            k <= acc.len(),
            sorted@ == sort_pairs(acc@.subrange(0, k as int)),
        decreases acc.len() - k,
    {
        let ghost pre = acc@.subrange(0, k as int);
        sorted = insert_pair_exec(sorted, acc[k]);
        proof {
            assert(acc@.subrange(0, k + 1).drop_last() =~= pre);
            assert(acc@.subrange(0, k + 1).last() == acc@[k as int]);
        }
        k = k + 1;
    }
    proof {
        assert(acc@.subrange(0, acc@.len() as int) =~= acc@);
    }
    Ok(sorted)
}

// --- The balance invariant ------------------------------------------------

/// The pair names an opening index strictly before a closing index, both in
/// bounds, holding the matching markers.
pub open spec fn pair_in_bounds(s: Seq<TokV>, p: (usize, usize)) -> bool {
    &&& p.0 < p.1
    &&& (p.1 as int) < s.len()
    &&& s[p.0 as int] is LGroup
    &&& s[p.1 as int] is RGroup
}

/// Two ranges either lie apart or one lies strictly inside the other.
pub open spec fn non_crossing(p: (usize, usize), q: (usize, usize)) -> bool {
    ||| p.1 < q.0
    ||| q.1 < p.0
    ||| (p.0 < q.0 && q.1 < p.1)
    ||| (q.0 < p.0 && p.1 < q.1)
}

/// A properly nested range list: every range in bounds on matching markers,
/// and every two ranges non-crossing.
pub open spec fn ranges_ok(s: Seq<TokV>, gs: Seq<(usize, usize)>) -> bool {
    &&& (forall|k: int| 0 <= k < gs.len() ==> pair_in_bounds(s, #[trigger] gs[k]))
    &&& (forall|k: int, m: int|
        0 <= k < gs.len() && 0 <= m < gs.len() && k != m ==> non_crossing(
            #[trigger] gs[k],
            #[trigger] gs[m],
        ))
}

pub open spec fn sorted_by_start(gs: Seq<(usize, usize)>) -> bool {
    forall|k: int, m: int| 0 <= k < m < gs.len() ==> (#[trigger] gs[k]).0 <= (#[trigger] gs[m]).0
}

/// The number of grouping markers among the first `i` tokens.
pub open spec fn group_count_to(s: Seq<TokV>, i: int) -> int
    decreases i,
{
    if i <= 0 {
        0
    } else {
        group_count_to(s, i - 1) + if s[i - 1] is LGroup || s[i - 1] is RGroup {
            1int
        } else {
            0int
        }
    }
}

/// The number of grouping markers in the whole sequence.
pub open spec fn group_count(s: Seq<TokV>) -> int {
    group_count_to(s, s.len() as int)
}

spec fn scan_inv(s: Seq<TokV>, i: int, stack: Seq<usize>, acc: Seq<(usize, usize)>) -> bool {
    &&& s.len() <= usize::MAX
    &&& 0 <= i <= s.len()
    &&& (forall|k: int|
        0 <= k < stack.len() ==> (#[trigger] stack[k] as int) < i && s[stack[k] as int] is LGroup)
    &&& (forall|k: int, m: int| 0 <= k < m < stack.len() ==> stack[k] < stack[m])
    &&& (forall|k: int|
        0 <= k < acc.len() ==> pair_in_bounds(s, #[trigger] acc[k]) && (acc[k].1 as int) < i)
    &&& (forall|k: int, m: int|
        0 <= k < acc.len() && 0 <= m < acc.len() && k != m ==> non_crossing(
            #[trigger] acc[k],
            #[trigger] acc[m],
        ))
    &&& (forall|k: int, m: int|
        0 <= k < acc.len() && 0 <= m < stack.len() ==> ((#[trigger] acc[k]).1 < #[trigger] stack[m]
            || stack[m] < acc[k].0))
    &&& stack.len() + 2 * acc.len() == group_count_to(s, i)
}

proof fn lemma_scan_props(s: Seq<TokV>, i: int, stack: Seq<usize>, acc: Seq<(usize, usize)>, gs: Seq<
    (usize, usize),
>)
    requires
        scan_inv(s, i, stack, acc),
        match_groups_rec(s, i, stack, acc) == Some(gs),
    ensures
        ranges_ok(s, gs),
        2 * gs.len() == group_count(s),
    decreases s.len() - i,
{
    if i >= s.len() {
        assert(gs == acc);
        assert(group_count_to(s, i) == group_count(s));
    } else if s[i] is LGroup {
        let stack2 = stack.push(i as usize);
        assert(i as usize as int == i);
        assert(scan_inv(s, i + 1, stack2, acc)) by {
            assert(forall|k: int|
                0 <= k < stack2.len() ==> (#[trigger] stack2[k] as int) < i + 1
                    && s[stack2[k] as int] is LGroup);
        }
        lemma_scan_props(s, i + 1, stack2, acc, gs);
    } else if s[i] is RGroup {
        assert(stack.len() > 0);
        let p = (stack.last(), i as usize);
        let stack2 = stack.drop_last();
        let acc2 = acc.push(p);
        assert(pair_in_bounds(s, p));
        assert(scan_inv(s, i + 1, stack2, acc2)) by {
            assert(forall|k: int|
                0 <= k < acc2.len() ==> pair_in_bounds(s, #[trigger] acc2[k]) && (acc2[k].1
                    as int) < i + 1);
            assert(forall|k: int|
                0 <= k < acc.len() ==> non_crossing(#[trigger] acc[k], p)) by {
                assert(forall|k: int|
                    0 <= k < acc.len() ==> ((#[trigger] acc[k]).1 < stack.last() || stack.last()
                        < acc[k].0));
            }
            assert(forall|k: int, m: int|
                0 <= k < acc2.len() && 0 <= m < acc2.len() && k != m ==> non_crossing(
                    #[trigger] acc2[k],
                    #[trigger] acc2[m],
                ));
            assert(forall|m: int| 0 <= m < stack2.len() ==> stack2[m] == stack[m]);
            assert(forall|k: int, m: int|
                0 <= k < acc2.len() && 0 <= m < stack2.len() ==> ((#[trigger] acc2[k]).1
                    < #[trigger] stack2[m] || stack2[m] < acc2[k].0));
        }
        lemma_scan_props(s, i + 1, stack2, acc2, gs);
    } else {
        lemma_scan_props(s, i + 1, stack, acc, gs);
    }
}

proof fn lemma_insert_pair_props(r: Seq<(usize, usize)>, p: (usize, usize))
    ensures
        insert_pair(r, p).to_multiset() == r.to_multiset().insert(p),
        sorted_by_start(r) ==> sorted_by_start(insert_pair(r, p)),
    decreases r.len(),
{
    broadcast use vstd::seq_lib::group_to_multiset_ensures;

    if r.len() == 0 {
        assert(seq![p] == Seq::<(usize, usize)>::empty().push(p));
        assert(insert_pair(r, p).to_multiset() =~= r.to_multiset().insert(p));
    } else if p.0 < r.last().0 {
        let r0 = r.drop_last();
        lemma_insert_pair_props(r0, p);
        assert(r == r0.push(r.last()));
        let out = insert_pair(r0, p).push(r.last());
        assert(out.to_multiset() =~= insert_pair(r0, p).to_multiset().insert(r.last()));
        assert(r.to_multiset() =~= r0.to_multiset().insert(r.last()));
        assert(out.to_multiset() =~= r.to_multiset().insert(p));
        if sorted_by_start(r) {
            assert(sorted_by_start(r0)) by {
                assert(forall|k: int, m: int|
                    0 <= k < m < r0.len() ==> (#[trigger] r0[k]).0 <= (#[trigger] r0[m]).0);
            }
            let ins = insert_pair(r0, p);
            // every element of ins is an element of r0 or is p, so its start
            // stays at most the removed last element's start
            assert(forall|k: int| 0 <= k < ins.len() ==> ins.to_multiset().count(#[trigger] ins[k]) > 0);
            assert(forall|k: int|
                0 <= k < ins.len() ==> (r0.contains(#[trigger] ins[k]) || ins[k] == p));
            assert(forall|k: int| 0 <= k < ins.len() ==> (#[trigger] ins[k]).0 <= r.last().0) by {
                assert(forall|m: int| 0 <= m < r0.len() ==> (#[trigger] r0[m]).0 <= r.last().0);
            }
            assert(sorted_by_start(out));
        }
    } else {
        assert(insert_pair(r, p).to_multiset() =~= r.to_multiset().insert(p));
        if sorted_by_start(r) {
            assert(forall|m: int| 0 <= m < r.len() ==> (#[trigger] r[m]).0 <= r.last().0);
            assert(sorted_by_start(r.push(p)));
        }
    }
}

proof fn lemma_sort_pairs_props(ps: Seq<(usize, usize)>)
    ensures
        sort_pairs(ps).to_multiset() == ps.to_multiset(),
        sorted_by_start(sort_pairs(ps)),
    decreases ps.len(),
{
    broadcast use vstd::seq_lib::group_to_multiset_ensures;

    if ps.len() == 0 {
        assert(sort_pairs(ps).to_multiset() =~= ps.to_multiset());
    } else {
        let ps0 = ps.drop_last();
        lemma_sort_pairs_props(ps0);
        lemma_insert_pair_props(sort_pairs(ps0), ps.last());
        assert(ps == ps0.push(ps.last()));
        assert(ps.to_multiset() =~= ps0.to_multiset().insert(ps.last()));
        assert(sort_pairs(ps).to_multiset() =~= ps.to_multiset());
    }
}

/// The balance invariant of the group locator: whatever range list it
/// returns is sorted and properly nested — each range in bounds on matching
/// markers, every two ranges apart or strictly nested — and it accounts for
/// all grouping markers, two per range; it never returns on a sequence with
/// an odd number of grouping markers.
pub proof fn lemma_located_groups_wf(s: Seq<TokV>, gs: Seq<(usize, usize)>)
    requires
        s.len() <= usize::MAX,
        located_groups(s) == Some(gs),
    ensures
        ranges_ok(s, gs),
        sorted_by_start(gs),
        2 * gs.len() == group_count(s),
{
    broadcast use vstd::seq_lib::group_to_multiset_ensures;

    let ps = match_groups(s).unwrap();
    assert(scan_inv(s, 0, Seq::empty(), Seq::empty()));
    lemma_scan_props(s, 0, Seq::empty(), Seq::empty(), ps);
    lemma_sort_pairs_props(ps);
    assert(gs == sort_pairs(ps));
    assert(gs.to_multiset().len() == ps.to_multiset().len());
    assert(gs.len() == ps.len());
    assert(ps.no_duplicates()) by {
        assert forall|a: int, b: int|
            0 <= a < ps.len() && 0 <= b < ps.len() && a != b implies ps[a] != ps[b] by {
            assert(non_crossing(ps[a], ps[b]));
            assert(pair_in_bounds(s, ps[a]));
        }
    }
    ps.lemma_multiset_has_no_duplicates();
    gs.lemma_multiset_has_no_duplicates_conv();
    assert forall|k: int| 0 <= k < gs.len() implies ps.contains(#[trigger] gs[k]) by {
        assert(gs.to_multiset().count(gs[k]) > 0);
    }
    assert forall|k: int| 0 <= k < gs.len() implies pair_in_bounds(s, #[trigger] gs[k]) by {
        assert(ps.contains(gs[k]));
        let a = choose|a: int| 0 <= a < ps.len() && ps[a] == gs[k];
        assert(pair_in_bounds(s, ps[a]));
    }
    assert forall|k: int, m: int|
        0 <= k < gs.len() && 0 <= m < gs.len() && k != m implies non_crossing(
        #[trigger] gs[k],
        #[trigger] gs[m],
    ) by {
        assert(gs[k] != gs[m]);
        assert(ps.contains(gs[k]));
        assert(ps.contains(gs[m]));
        let a = choose|a: int| 0 <= a < ps.len() && ps[a] == gs[k];
        let b = choose|b: int| 0 <= b < ps.len() && ps[b] == gs[m];
        assert(a != b);
        assert(non_crossing(ps[a], ps[b]));
    }
}

// --- The group normalizer -------------------------------------------------
//
// The normalizer rewrites a token sequence to a fixed point: it strips an
// enclosing pair of grouping markers that spans the whole sequence, inserts
// an explicit multiplication where a value stands directly before an opening
// marker, and drops a pair whose opening marker directly follows an
// addition.  After every single mutation the ranges are located afresh.

/// The first range spans the whole sequence.
pub open spec fn strippable(s: Seq<TokV>, gs: Seq<(usize, usize)>) -> bool {
    &&& gs.len() > 0
    &&& s.len() >= 2
    &&& gs[0].0 == 0
    &&& gs[0].1 + 1 == s.len()
}

/// A token that forms an implicit product with a group opening after it.
pub open spec fn prev_demands_mul(t: TokV) -> bool {
    t is Num || t is Var || t is RGroup
}

/// The first mutation that the scan finds from range index `k` on: an
/// explicit multiplication inserted before an opening marker, or a range
/// deleted after an addition; `None` when no range from `k` on calls for
/// either.
pub open spec fn first_mutation(s: Seq<TokV>, gs: Seq<(usize, usize)>, k: int) -> Option<
    Seq<TokV>,
>
    decreases gs.len() - k,
{
    if k < 0 || k >= gs.len() {
        None
    } else {
        let a0 = gs[k].0;
        let a1 = gs[k].1;
        if a0 > 0 && a0 < a1 && (a1 as int) < s.len() {
            if prev_demands_mul(s[a0 as int - 1]) {
                Some(s.insert(a0 as int, TokV::Mul))
            } else if s[a0 as int - 1] is Add {
                Some(s.remove(a1 as int).remove(a0 as int))
            } else {
                first_mutation(s, gs, k + 1)
            }
        } else {
            first_mutation(s, gs, k + 1)
        }
    }
}

/// One normalization step: strip a spanning pair, else the first scan
/// mutation; `None` at the fixed point.
pub open spec fn norm_step(s: Seq<TokV>, gs: Seq<(usize, usize)>) -> Option<Seq<TokV>> {
    if strippable(s, gs) {
        Some(s.subrange(1, s.len() - 1))
    } else {
        first_mutation(s, gs, 0)
    }
}

/// The iteration budget of the normalizer; ample for every sequence that
/// grouping arithmetic can produce, since each deletion pays for the at most
/// one insertion it can enable.
pub open spec fn norm_fuel(n: nat) -> nat {
    if n > 1000000000 {
        0xFFFF_FFFF_FFFF_FFFF as nat
    } else {
        4 * n + 8
    }
}

pub open spec fn norm_rec(s: Seq<TokV>, fuel: nat) -> Result<
    (Seq<TokV>, Seq<(usize, usize)>),
    TreeError,
>
    decreases fuel,
{
    match located_groups(s) {
        None => Err(TreeError::MalformedGroups),
        Some(gs) => match norm_step(s, gs) {
            None => Ok((s, gs)),
            Some(s2) => if fuel == 0 {
                Err(TreeError::InternalInconsistency)
            } else {
                norm_rec(s2, (fuel - 1) as nat)
            },
        },
    }
}

/// What normalization returns: the fixed point of `norm_step`, with its
/// located ranges.
pub open spec fn fix_groups_spec(s: Seq<TokV>) -> Result<
    (Seq<TokV>, Seq<(usize, usize)>),
    TreeError,
> {
    norm_rec(s, norm_fuel(s.len()))
}

/// Relates an executable normalization result to its mathematical value.
pub open spec fn fix_result_matches(
    r: Result<(Vec<Token>, Vec<(usize, usize)>), TreeError>,
    sp: Result<(Seq<TokV>, Seq<(usize, usize)>), TreeError>,
) -> bool {
    match (r, sp) {
        (Ok(p), Ok(q)) => tokens_view(p.0@) == q.0 && p.1@ == q.1,
        (Err(e), Err(f)) => e == f,
        _ => false,
    }
}

fn compute_norm_fuel(n: usize) -> (r: u64)
    ensures
        r as nat == norm_fuel(n as nat),
{
    if n > 1000000000 {
        0xFFFF_FFFF_FFFF_FFFFu64
    } else {
        4 * (n as u64) + 8
    }
}

fn norm_loop(token_vector: Vec<Token>, fuel: u64) -> (r: Result<
    (Vec<Token>, Vec<(usize, usize)>),
    TreeError,
>)
    ensures
        fix_result_matches(r, norm_rec(tokens_view(token_vector@), fuel as nat)),
    decreases fuel,
{
    let ghost s = tokens_view(token_vector@);
    let mut v = token_vector;
    let gs = match find_groups(&v) {
        Err(e) => {
            return Err(e);
        },
        Ok(g) => g,
    };
    if gs.len() > 0 && v.len() >= 2 && gs[0].0 == 0 && gs[0].1 == v.len() - 1 {
        proof {
            assert(strippable(s, gs@));
        }
        v.remove(0);
        let _ = v.pop();
        proof {
            assert(v@ =~= token_vector@.subrange(1, token_vector@.len() - 1));
            lemma_tokens_view_subrange(token_vector@, 1, token_vector@.len() - 1);
            assert(tokens_view(v@) == s.subrange(1, s.len() - 1));
        }
        if fuel == 0 {
            return Err(TreeError::InternalInconsistency);
        }
        norm_loop(v, fuel - 1)
    } else {
        proof {
            assert(!strippable(s, gs@));
        }
        // scan the ranges for the first mutation
        let mut decision: Option<(bool, usize, usize)> = None;
        let mut k: usize = 0;
        while k < gs.len() && decision.is_none()
            invariant
                k <= gs@.len(),
                s == tokens_view(v@),
                located_groups(s) == Some(gs@),
                match decision {
                    None => first_mutation(s, gs@, 0) == first_mutation(s, gs@, k as int),
                    Some(d) => {
                        &&& d.1 > 0
                        &&& d.1 < d.2
                        &&& (d.2 as int) < s.len()
                        &&& first_mutation(s, gs@, 0) == if d.0 {
                            Some(s.insert(d.1 as int, TokV::Mul))
                        } else {
                            Some(s.remove(d.2 as int).remove(d.1 as int))
                        }
                    },
                },
            decreases gs@.len() - k + (if decision is None {
                1int
            } else {
                0int
            }),
        {
            let a0 = gs[k].0;
            let a1 = gs[k].1;
            if a0 > 0 && a0 < a1 && a1 < v.len() {
                proof {
                    lemma_tokens_view_index(v@, a0 as int - 1);
                }
                match &v[a0 - 1] {
                    Token::NUM(_) => {
                        decision = Some((true, a0, a1));
                    },
                    Token::VAR(_) => {
                        decision = Some((true, a0, a1));
                    },
                    Token::RGROUP => {
                        decision = Some((true, a0, a1));
                    },
                    Token::ADD => {
                        decision = Some((false, a0, a1));
                    },
                    _ => {
                        k = k + 1;
                    },
                }
            } else {
                k = k + 1;
            }
        }
        match decision {
            None => {
                proof {
                    assert(first_mutation(s, gs@, gs@.len() as int) is None);
                    assert(norm_step(s, gs@) is None);
                }
                Ok((v, gs))
            },
            Some(d) => {
                let (is_insert, a0, a1) = d;
                if is_insert {
                    let ghost before = v@;
                    v.insert(a0, Token::MUL);
                    proof {
                        lemma_tokens_view_insert(before, a0 as int, Token::MUL);
                        assert(tokens_view(v@) == s.insert(a0 as int, TokV::Mul));
                    }
                } else {
                    let ghost before = v@;
                    v.remove(a1);
                    let ghost mid = v@;
                    v.remove(a0);
                    proof {
                        lemma_tokens_view_remove(before, a1 as int);
                        lemma_tokens_view_remove(mid, a0 as int);
                        assert(tokens_view(v@) == s.remove(a1 as int).remove(a0 as int));
                    }
                }
                if fuel == 0 {
                    return Err(TreeError::InternalInconsistency);
                }
                norm_loop(v, fuel - 1)
            },
        }
    }
}

/// Normalizes a token sequence whose located ranges are already at hand.
/// The result is the fixed point of the normalization step, paired with its
/// freshly located ranges.
pub fn rm_sides_add_mul(token_vector: Vec<Token>, group_locations: Vec<(usize, usize)>) -> (r:
    Result<(Vec<Token>, Vec<(usize, usize)>), TreeError>)
    requires
        located_groups(tokens_view(token_vector@)) == Some(group_locations@),
    ensures
        fix_result_matches(r, fix_groups_spec(tokens_view(token_vector@))),
{
    let _ = group_locations;
    let fuel = compute_norm_fuel(token_vector.len());
    proof {
        assert(tokens_view(token_vector@).len() == token_vector@.len());
    }
    norm_loop(token_vector, fuel)
}

/// Locates the grouping ranges of a token sequence and normalizes it to the
/// fixed point of the normalization step (`MalformedGroups` when the markers
/// do not pair up).
pub fn fix_groups(token_vector: Vec<Token>) -> (r: Result<
    (Vec<Token>, Vec<(usize, usize)>),
    TreeError,
>)
    ensures
        fix_result_matches(r, fix_groups_spec(tokens_view(token_vector@))),
{
    let ghost s = tokens_view(token_vector@);
    let gs = match find_groups(&token_vector) {
        Err(e) => {
            proof {
                assert(fix_groups_spec(s) == Err::<(Seq<TokV>, Seq<(usize, usize)>), TreeError>(
                    TreeError::MalformedGroups,
                ));
            }
            return Err(e);
        },
        Ok(g) => g,
    };
    if gs.len() == 0 {
        proof {
            assert(!strippable(s, gs@));
            assert(first_mutation(s, gs@, 0) is None);
            assert(norm_step(s, gs@) is None);
        }
        Ok((token_vector, gs))
    } else {
        rm_sides_add_mul(token_vector, gs)
    }
}

proof fn lemma_norm_rec_fixpoint(
    s: Seq<TokV>,
    fuel: nat,
    t: Seq<TokV>,
    gs: Seq<(usize, usize)>,
)
    requires
        norm_rec(s, fuel) == Ok::<(Seq<TokV>, Seq<(usize, usize)>), TreeError>((t, gs)),
    ensures
        located_groups(t) == Some(gs),
        norm_step(t, gs) is None,
    decreases fuel,
{
    let gs0 = located_groups(s).unwrap();
    match norm_step(s, gs0) {
        None => {
        },
        Some(s2) => {
            lemma_norm_rec_fixpoint(s2, (fuel - 1) as nat, t, gs);
        },
    }
}

/// Idempotent normalization: the normalizer's own output is a fixed point,
/// so running it again returns the same sequence and the same ranges.
pub proof fn lemma_normalizer_idempotent(s: Seq<TokV>, t: Seq<TokV>, gs: Seq<(usize, usize)>)
    requires
        fix_groups_spec(s) == Ok::<(Seq<TokV>, Seq<(usize, usize)>), TreeError>((t, gs)),
    ensures
        fix_groups_spec(t) == Ok::<(Seq<TokV>, Seq<(usize, usize)>), TreeError>((t, gs)),
{
    lemma_norm_rec_fixpoint(s, norm_fuel(s.len()), t, gs);
}

// --- The tokenizer --------------------------------------------------------

/// The characters of a string, as a vector.
pub fn chars_vec(s: &str) -> (r: Vec<char>)
    ensures
        r@ == s@,
{
    broadcast use vstd::string::axiom_spec_iter;
    broadcast use vstd::string::next_postcondition;

    let mut it = s.chars();
    let mut r: Vec<char> = Vec::new();
    loop
        invariant
            it.decrease() is Some,
            r@ + it.remaining() == s@,
        ensures
            r@ + it.remaining() == s@,
            it.remaining().len() == 0,
        decreases it.decrease().unwrap(),
    {
        let ghost prev_r = r@;
        let ghost prev_rem = it.remaining();
        match it.next() {
            Some(c) => {
                r.push(c);
                proof {
                    assert(prev_rem.len() > 0);
                    assert(c == prev_rem[0]);
                    assert(it.remaining() == prev_rem.drop_first());
                    assert(prev_r.push(c) + prev_rem.drop_first() =~= prev_r + prev_rem);
                }
            },
            None => {
                break ;
            },
        }
    }
    proof {
        assert(r@ =~= s@);
    }
    r
}

/// Copies the subrange `[a, b)` of a character vector.
pub fn subchars(v: &Vec<char>, a: usize, b: usize) -> (r: Vec<char>)
    requires
        a <= b <= v@.len(),
    ensures
        r@ == v@.subrange(a as int, b as int),
{
    let mut r: Vec<char> = Vec::new();
    let mut i: usize = a;
    while i < b
        invariant
            a <= i <= b <= v@.len(),
            r@ == v@.subrange(a as int, i as int),
        decreases b - i,
    {
        r.push(v[i]);
        proof {
            assert(v@.subrange(a as int, i as int).push(v@[i as int]) =~= v@.subrange(
                a as int,
                i + 1,
            ));
        }
        i = i + 1;
    }
    r
}

/// What one word turns into when it is neither a grouping, negation nor
/// exponent form: a numeric literal if the characters parse, else one of the
/// three operator words, else a variable named by the word.
pub open spec fn single_token(w: Seq<char>) -> TokV {
    match bits_parse(w) {
        Some(b) => TokV::Num(b),
        None => if w == seq!['+'] {
            TokV::Add
        } else if w == seq!['*'] {
            TokV::Mul
        } else if w == seq!['/'] {
            TokV::Div
        } else {
            TokV::Var(w)
        },
    }
}

/// The number of consecutive `(` characters from position `i` on.
pub open spec fn opens_from(w: Seq<char>, i: int) -> int
    decreases w.len() - i,
{
    if i < 0 || i >= w.len() || w[i] != '(' {
        0
    } else {
        1 + opens_from(w, i + 1)
    }
}

/// The number of consecutive `)` characters directly before position `i`.
pub open spec fn closes_before(w: Seq<char>, i: int) -> int
    decreases i,
{
    if i <= 0 || i > w.len() || w[i - 1] != ')' {
        0
    } else {
        1 + closes_before(w, i - 1)
    }
}

/// The token sequence of one word.  A word of leading `(` markers carries
/// at most one trailing token; a word of trailing `)` markers carries at
/// most one leading token; a leading `-` becomes multiplication by negative
/// one (a bare `-` defers its operand to the next word); a leading `^`
/// becomes the exponent marker.
pub open spec fn tok_word(w: Seq<char>) -> Seq<TokV> {
    if w.len() == 0 {
        Seq::empty()
    } else if w[0] == '(' {
        let k = opens_from(w, 0);
        let opens = Seq::new(k as nat, |x: int| TokV::LGroup);
        if k == w.len() {
            opens
        } else {
            opens.push(single_token(w.subrange(k, w.len() as int)))
        }
    } else if w[w.len() - 1] == ')' {
        let k = closes_before(w, w.len() as int);
        let closes = Seq::new(k as nat, |x: int| TokV::RGroup);
        let rest = w.subrange(0, w.len() - k);
        if rest.len() == 0 {
            closes
        } else {
            seq![single_token(rest)] + closes
        }
    } else if w[0] == '-' {
        if w.len() > 1 {
            seq![TokV::Num(B32_NEG_ONE), TokV::Mul, single_token(w.subrange(1, w.len() as int))]
        } else {
            seq![TokV::Add, TokV::Num(B32_NEG_ONE), TokV::Mul]
        }
    } else if w[0] == '^' {
        if w.len() > 1 {
            seq![TokV::Exp, single_token(w.subrange(1, w.len() as int))]
        } else {
            seq![TokV::Exp]
        }
    } else {
        seq![single_token(w)]
    }
}

/// The token sequences of the words from index `i` on, concatenated.
pub open spec fn tokenize_rec(ws: Seq<Seq<char>>, i: int) -> Seq<TokV>
    decreases ws.len() - i,
{
    if i < 0 || i >= ws.len() {
        Seq::empty()
    } else {
        tok_word(ws[i]) + tokenize_rec(ws, i + 1)
    }
}

/// The token sequence of a sequence of words.
pub open spec fn tokenize_spec(ws: Seq<Seq<char>>) -> Seq<TokV> {
    tokenize_rec(ws, 0)
}

/// The addition token, when the word is exactly `+`.
pub fn to_add(to_token: &Vec<char>) -> (r: Option<Token>)
    ensures
        match r {
            Some(t) => t@ == TokV::Add && to_token@ == seq!['+'],
            None => to_token@ != seq!['+'],
        },
{
    if to_token.len() == 1 && to_token[0] == '+' {
        proof {
            assert(to_token@ =~= seq!['+']);
        }
        Some(Token::ADD)
    } else {
        proof {
            assert(seq!['+'].len() == 1);
            assert(seq!['+'][0] == '+');
        }
        None
    }
}

/// The multiplication token, when the word is exactly `*`.
pub fn to_multiply(to_token: &Vec<char>) -> (r: Option<Token>)
    ensures
        match r {
            Some(t) => t@ == TokV::Mul && to_token@ == seq!['*'],
            None => to_token@ != seq!['*'],
        },
{
    if to_token.len() == 1 && to_token[0] == '*' {
        proof {
            assert(to_token@ =~= seq!['*']);
        }
        Some(Token::MUL)
    } else {
        proof {
            assert(seq!['*'].len() == 1);
            assert(seq!['*'][0] == '*');
        }
        None
    }
}

/// The division token, when the word is exactly `/`.
pub fn to_div(to_token: &Vec<char>) -> (r: Option<Token>)
    ensures
        match r {
            Some(t) => t@ == TokV::Div && to_token@ == seq!['/'],
            None => to_token@ != seq!['/'],
        },
{
    if to_token.len() == 1 && to_token[0] == '/' {
        proof {
            assert(to_token@ =~= seq!['/']);
        }
        Some(Token::DIV)
    } else {
        proof {
            assert(seq!['/'].len() == 1);
            assert(seq!['/'][0] == '/');
        }
        None
    }
}

/// The numeric token, when the word parses as numeric text.
pub fn to_float(to_token: &Vec<char>) -> (r: Option<Token>)
    ensures
        match r {
            Some(t) => bits_parse(to_token@) is Some && t@ == TokV::Num(
                bits_parse(to_token@)->0,
            ),
            None => bits_parse(to_token@) is None,
        },
{
    match b32_parse(to_token) {
        Some(b) => Some(Token::NUM(b)),
        None => None,
    }
}

/// Turns one word (with no grouping, negation or exponent prefix handling)
/// into its single token.
pub fn tokenizer(to_token: Vec<char>) -> (t: Token)
    ensures
        t@ == single_token(to_token@),
{
    match to_float(&to_token) {
        Some(t) => t,
        None => match to_add(&to_token) {
            Some(t) => t,
            None => match to_multiply(&to_token) {
                Some(t) => t,
                None => match to_div(&to_token) {
                    Some(t) => t,
                    None => Token::VAR(to_token),
                },
            },
        },
    }
}

fn emit_word(out: Vec<Token>, word: Vec<char>) -> (r: Vec<Token>)
    ensures
        tokens_view(r@) == tokens_view(out@) + tok_word(word@),
{
    let ghost w = word@;
    let mut out = out;
    let ghost base = tokens_view(out@);
    if word.len() == 0 {
        proof {
            assert(base + tok_word(w) =~= base);
        }
        out
    } else if word[0] == '(' {
        let mut j: usize = 0;
        while j < word.len() && word[j] == '('
            invariant
                j <= w.len(),
                w == word@,
                opens_from(w, 0) == j + opens_from(w, j as int),
                tokens_view(out@) == base + Seq::new(j as nat, |x: int| TokV::LGroup),
            decreases w.len() - j,
        {
            let ghost prev = out@;
            out.push(Token::LGROUP);
            proof {
                lemma_tokens_view_push(prev, Token::LGROUP);
                assert((base + Seq::new(j as nat, |x: int| TokV::LGroup)).push(TokV::LGroup)
                    =~= base + Seq::new((j + 1) as nat, |x: int| TokV::LGroup));
            }
            j = j + 1;
        }
        proof {
            assert(opens_from(w, j as int) == 0);
            assert(opens_from(w, 0) == j);
        }
        if j < word.len() {
            let rest = subchars(&word, j, word.len());
            let t = tokenizer(rest);
            let ghost prev = out@;
            out.push(t);
            proof {
                lemma_tokens_view_push(prev, t);
                assert(tokens_view(out@) =~= base + tok_word(w));
            }
            out
        } else {
            proof {
                assert(tokens_view(out@) =~= base + tok_word(w));
            }
            out
        }
    } else if word[word.len() - 1] == ')' {
        let mut m: usize = 0;
        while m < word.len() && word[word.len() - 1 - m] == ')'
            invariant
                m <= w.len(),
                w == word@,
                closes_before(w, w.len() as int) == m + closes_before(w, w.len() - m),
            decreases w.len() - m,
        {
            m = m + 1;
        }
        proof {
            assert(closes_before(w, w.len() - m) == 0);
            assert(closes_before(w, w.len() as int) == m);
        }
        let rest = subchars(&word, 0, word.len() - m);
        if rest.len() > 0 {
            let t = tokenizer(rest);
            let ghost prev = out@;
            out.push(t);
            proof {
                lemma_tokens_view_push(prev, t);
            }
        }
        let ghost mid = tokens_view(out@);
        let mut i: usize = 0;
        while i < m
            invariant
                i <= m,
                tokens_view(out@) == mid + Seq::new(i as nat, |x: int| TokV::RGroup),
            decreases m - i,
        {
            let ghost prev = out@;
            out.push(Token::RGROUP);
            proof {
                lemma_tokens_view_push(prev, Token::RGROUP);
                assert((mid + Seq::new(i as nat, |x: int| TokV::RGroup)).push(TokV::RGroup)
                    =~= mid + Seq::new((i + 1) as nat, |x: int| TokV::RGroup));
            }
            i = i + 1;
        }
        proof {
            assert(tokens_view(out@) =~= base + tok_word(w));
        }
        out
    } else if word[0] == '-' {
        if word.len() > 1 {
            let rest = subchars(&word, 1, word.len());
            let t = tokenizer(rest);
            let ghost p0 = out@;
            out.push(Token::NUM(B32_NEG_ONE));
            proof {
                lemma_tokens_view_push(p0, Token::NUM(B32_NEG_ONE));
            }
            let ghost p1 = out@;
            out.push(Token::MUL);
            proof {
                lemma_tokens_view_push(p1, Token::MUL);
            }
            let ghost p2 = out@;
            out.push(t);
            proof {
                lemma_tokens_view_push(p2, t);
                assert(tokens_view(out@) =~= base + tok_word(w));
            }
            out
        } else {
            let ghost p0 = out@;
            out.push(Token::ADD);
            proof {
                lemma_tokens_view_push(p0, Token::ADD);
            }
            let ghost p1 = out@;
            out.push(Token::NUM(B32_NEG_ONE));
            proof {
                lemma_tokens_view_push(p1, Token::NUM(B32_NEG_ONE));
            }
            let ghost p2 = out@;
            out.push(Token::MUL);
            proof {
                lemma_tokens_view_push(p2, Token::MUL);
                assert(tokens_view(out@) =~= base + tok_word(w));
            }
            out
        }
    } else if word[0] == '^' {
        let ghost p0 = out@;
        let more = word.len() > 1;
        if more {
            let rest = subchars(&word, 1, word.len());
            let t = tokenizer(rest);
            out.push(Token::EXP);
            proof {
                lemma_tokens_view_push(p0, Token::EXP);
            }
            let ghost p1 = out@;
            out.push(t);
            proof {
                lemma_tokens_view_push(p1, t);
                assert(tokens_view(out@) =~= base + tok_word(w));
            }
            out
        } else {
            out.push(Token::EXP);
            proof {
                lemma_tokens_view_push(p0, Token::EXP);
                assert(tokens_view(out@) =~= base + tok_word(w));
            }
            out
        }
    } else {
        let t = tokenizer(word);
        let ghost p0 = out@;
        out.push(t);
        proof {
            lemma_tokens_view_push(p0, t);
            assert(tokens_view(out@) =~= base + tok_word(w));
        }
        out
    }
}

/// Turns a sequence of whitespace-delimited words into the token sequence
/// of the expression.
pub fn tokenize(string_vector: Vec<String>) -> (r: Vec<Token>)
    ensures
        tokens_view(r@) == tokenize_spec(string_vector@.map_values(|x: String| x@)),
{
    let ghost ws = string_vector@.map_values(|x: String| x@);
    let mut out: Vec<Token> = Vec::new();
    let mut idx: usize = 0;
    proof {
        assert(tokens_view(out@) + tokenize_rec(ws, 0) =~= tokenize_spec(ws));
    }
    while idx < string_vector.len()
        invariant
            idx <= string_vector@.len(),
            ws == string_vector@.map_values(|x: String| x@),
            tokens_view(out@) + tokenize_rec(ws, idx as int) == tokenize_spec(ws),
        decreases string_vector@.len() - idx,
    {
        let word: Vec<char> = chars_vec(string_vector[idx].as_str());
        proof {
            assert(word@ == ws[idx as int]);
        }
        let ghost before = tokens_view(out@);
        out = emit_word(out, word);
        proof {
            assert((before + tok_word(ws[idx as int])) + tokenize_rec(ws, idx + 1) =~= before
                + tokenize_rec(ws, idx as int));
        }
        idx = idx + 1;
    }
    proof {
        assert(tokenize_rec(ws, idx as int).len() == 0);
        assert(tokens_view(out@) + tokenize_rec(ws, idx as int) =~= tokens_view(out@));
    }
    out
}

} // verus!
