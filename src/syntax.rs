//! Formulas as trees: how a token sequence reads as a tree under the
//! precedence rules, what a tree is worth, and why the operator-precedence
//! translation of a formula's text is the postorder walk of its tree.
use vstd::prelude::*;

use crate::function::{eval_spec, lookup, run, step, PostfixToken};
use crate::parse::{depth_of, last_type, seq_check, InfixToken, TokenSeqType};
use crate::translate::{
    emitted, pop_all, pop_binding, pop_group, priority, shunt, shunt_all, to_postfix, well_sequenced,
    OpStackEntry,
};

verus! {

/// A formula as a tree. `Group` is a bracketed subformula.
pub enum Expr {
    Var(char),
    Const(bool),
    Not(Box<Expr>),
    And(Box<Expr>, Box<Expr>),
    Or(Box<Expr>, Box<Expr>),
    Group(Box<Expr>),
}

/// The text of a tree, as tokens.
pub open spec fn tokens(e: Expr) -> Seq<InfixToken>
    decreases e,
{
    match e {
        Expr::Var(c) => seq![InfixToken::Variable(c)],
        Expr::Const(b) => seq![InfixToken::Const(b)],
        Expr::Not(x) => seq![InfixToken::Not] + tokens(*x),
        Expr::And(a, b) => tokens(*a) + seq![InfixToken::And] + tokens(*b),
        Expr::Or(a, b) => tokens(*a) + seq![InfixToken::Or] + tokens(*b),
        Expr::Group(x) => seq![InfixToken::LeftBracket] + tokens(*x) + seq![InfixToken::RightBracket],
    }
}

/// The instructions of a tree in postorder: operands before their operator.
pub open spec fn postorder(e: Expr) -> Seq<PostfixToken>
    decreases e,
{
    match e {
        Expr::Var(c) => seq![PostfixToken::Var(c)],
        Expr::Const(b) => seq![PostfixToken::Const(b)],
        Expr::Not(x) => postorder(*x) + seq![PostfixToken::Not],
        Expr::And(a, b) => postorder(*a) + postorder(*b) + seq![PostfixToken::And],
        Expr::Or(a, b) => postorder(*a) + postorder(*b) + seq![PostfixToken::Or],
        Expr::Group(x) => postorder(*x),
    }
}

/// How loosely the root of a tree binds: `|` at 0, `&` at 1, and everything
/// else at 2.
pub open spec fn level(e: Expr) -> int {
    match e {
        Expr::Or(_, _) => 0,
        Expr::And(_, _) => 1,
        _ => 2,
    }
}

/// The tree that reading its own text with precedence and left
/// associativity gives: without brackets, an operand of `&` holds no `|`, an
/// operand of `!` no binary operator, and a right operand no operator of its
/// parent's strength.
pub open spec fn follows_precedence(e: Expr) -> bool
    decreases e,
{
    match e {
        Expr::Var(_) | Expr::Const(_) => true,
        Expr::Not(x) => level(*x) == 2 && follows_precedence(*x),
        Expr::And(a, b) => level(*a) >= 1 && level(*b) == 2 && follows_precedence(*a)
            && follows_precedence(*b),
        Expr::Or(a, b) => level(*b) >= 1 && follows_precedence(*a) && follows_precedence(*b),
        Expr::Group(x) => follows_precedence(*x),
    }
}

/// Output and operator stack after reading `ts` from the state `(o, st)`.
pub open spec fn shunt_from(o: Seq<PostfixToken>, st: Seq<OpStackEntry>, ts: Seq<InfixToken>) -> (
    Seq<PostfixToken>,
    Seq<OpStackEntry>,
)
    decreases ts.len(),
{
    if ts.len() == 0 {
        (o, st)
    } else {
        let (o1, s1) = shunt_from(o, st, ts.drop_last());
        shunt(o1, s1, ts.last())
    }
}

/// Output that reading a tree's text adds at once.
pub open spec fn emitted_part(e: Expr) -> Seq<PostfixToken>
    decreases e,
{
    match e {
        Expr::Var(c) => seq![PostfixToken::Var(c)],
        Expr::Const(b) => seq![PostfixToken::Const(b)],
        Expr::Not(x) => emitted_part(*x),
        Expr::And(a, b) => postorder(*a) + emitted_part(*b),
        Expr::Or(a, b) => postorder(*a) + emitted_part(*b),
        Expr::Group(x) => postorder(*x),
    }
}

/// Operators that reading a tree's text leaves on the stack.
pub open spec fn pending_part(e: Expr) -> Seq<OpStackEntry>
    decreases e,
{
    match e {
        Expr::Var(_) | Expr::Const(_) | Expr::Group(_) => seq![],
        Expr::Not(x) => seq![OpStackEntry::Not] + pending_part(*x),
        Expr::And(_, b) => seq![OpStackEntry::And] + pending_part(*b),
        Expr::Or(_, b) => seq![OpStackEntry::Or] + pending_part(*b),
    }
}

proof fn lemma_shunt_from_empty(ts: Seq<InfixToken>)
    ensures
        shunt_all(ts) == shunt_from(seq![], seq![], ts),
    decreases ts.len(),
{
    if ts.len() > 0 {
        lemma_shunt_from_empty(ts.drop_last());
    }
}

proof fn lemma_shunt_from_concat(
    o: Seq<PostfixToken>,
    st: Seq<OpStackEntry>,
    a: Seq<InfixToken>,
    b: Seq<InfixToken>,
)
    ensures
        shunt_from(o, st, a + b) == shunt_from(shunt_from(o, st, a).0, shunt_from(o, st, a).1, b),
    decreases b.len(),
{
    if b.len() == 0 {
        assert(a + b =~= a);
    } else {
        assert((a + b).drop_last() =~= a + b.drop_last());
        assert((a + b).last() == b.last());
        lemma_shunt_from_concat(o, st, a, b.drop_last());
    }
}

proof fn lemma_pop_all_prefix(y: Seq<PostfixToken>, z: Seq<PostfixToken>, r: Seq<OpStackEntry>)
    ensures
        pop_all(y + z, r) == y + pop_all(z, r),
    decreases r.len(),
{
    if r.len() > 0 {
        assert(y + z + emitted(r.last()) =~= y + (z + emitted(r.last())));
        lemma_pop_all_prefix(y, z + emitted(r.last()), r.drop_last());
    } else {
    }
}

proof fn lemma_pop_all_split(x: Seq<PostfixToken>, a: Seq<OpStackEntry>, b: Seq<OpStackEntry>)
    ensures
        pop_all(x, a + b) == pop_all(pop_all(x, b), a),
    decreases b.len(),
{
    if b.len() == 0 {
        assert(a + b =~= a);
    } else {
        assert((a + b).drop_last() =~= a + b.drop_last());
        assert((a + b).last() == b.last());
        lemma_pop_all_split(x + emitted(b.last()), a, b.drop_last());
    }
}

/// Every entry of `r` binds at least at `prio`, and none is a bracket.
pub open spec fn all_bind_from(r: Seq<OpStackEntry>, prio: int) -> bool {
    forall|k: int| 0 <= k < r.len() ==> priority(#[trigger] r[k]) >= prio && priority(r[k]) >= 0
}

proof fn lemma_pop_binding_frame(
    x: Seq<PostfixToken>,
    st: Seq<OpStackEntry>,
    r: Seq<OpStackEntry>,
    prio: int,
)
    requires
        all_bind_from(r, prio),
        st.len() == 0 || priority(st.last()) < prio,
    ensures
        pop_binding(x, st + r, prio) == (pop_all(x, r), st),
    decreases r.len(),
{
    if r.len() == 0 {
        assert(st + r =~= st);
    } else {
        assert((st + r).drop_last() =~= st + r.drop_last());
        assert((st + r).last() == r.last());
        assert(priority(r[r.len() - 1]) >= prio);
        lemma_pop_binding_frame(x + emitted(r.last()), st, r.drop_last(), prio);
    }
}

proof fn lemma_pop_group_frame(x: Seq<PostfixToken>, st: Seq<OpStackEntry>, r: Seq<OpStackEntry>)
    requires
        all_bind_from(r, 0),
    ensures
        pop_group(x, st.push(OpStackEntry::LeftBracket) + r) == (pop_all(x, r), st),
    decreases r.len(),
{
    let base = st.push(OpStackEntry::LeftBracket);
    if r.len() == 0 {
        assert(base + r =~= base);
        assert(base.drop_last() =~= st);
    } else {
        assert((base + r).drop_last() =~= base + r.drop_last());
        assert((base + r).last() == r.last());
        assert(priority(r[r.len() - 1]) >= 0);
        lemma_pop_group_frame(x + emitted(r.last()), st, r.drop_last());
    }
}

/// Reading the text of a tree on top of a stack whose top binds more
/// loosely than the tree's root adds what the tree emits at once, and leaves
/// its pending operators, which pop into the rest of its postorder.
proof fn lemma_shunt_tree(e: Expr, o: Seq<PostfixToken>, st: Seq<OpStackEntry>)
    requires
        follows_precedence(e),
        level(e) == 2 || st.len() == 0 || priority(st.last()) < level(e),
    ensures
        shunt_from(o, st, tokens(e)) == (o + emitted_part(e), st + pending_part(e)),
        pop_all(emitted_part(e), pending_part(e)) == postorder(e),
        all_bind_from(pending_part(e), level(e)),
    decreases e,
{
    match e {
        Expr::Var(c) => {
            reveal_with_fuel(shunt_from, 2);
            assert(seq![InfixToken::Variable(c)].drop_last() =~= Seq::<InfixToken>::empty());
            assert(st + seq![] =~= st);
        },
        Expr::Const(b) => {
            reveal_with_fuel(shunt_from, 2);
            assert(seq![InfixToken::Const(b)].drop_last() =~= Seq::<InfixToken>::empty());
            assert(st + seq![] =~= st);
        },
        Expr::Not(x) => {
            let head = seq![InfixToken::Not];
            assert(head.drop_last() =~= Seq::<InfixToken>::empty());
            reveal_with_fuel(shunt_from, 2);
            let st1 = st.push(OpStackEntry::Not);
            assert(shunt_from(o, st, head) == (o, st1));
            lemma_shunt_from_concat(o, st, head, tokens(*x));
            lemma_shunt_tree(*x, o, st1);
            assert(st1 + pending_part(*x) =~= st + pending_part(e));
            lemma_pop_all_split(emitted_part(*x), seq![OpStackEntry::Not], pending_part(*x));
            assert(seq![OpStackEntry::Not] + pending_part(*x) == pending_part(e));
            let px = pop_all(emitted_part(*x), pending_part(*x));
            reveal_with_fuel(pop_all, 2);
            assert(seq![OpStackEntry::Not].drop_last() =~= Seq::<OpStackEntry>::empty());
            assert(px + seq![PostfixToken::Not] == postorder(e));
            assert forall|k: int| 0 <= k < pending_part(e).len() implies priority(
                #[trigger] pending_part(e)[k],
            ) >= level(e) && priority(pending_part(e)[k]) >= 0 by {
                if k > 0 {
                    assert(pending_part(e)[k] == pending_part(*x)[k - 1]);
                }
            }
        },
        Expr::And(a, b) => {
            lemma_shunt_tree(*a, o, st);
            let o1 = o + postorder(*a);
            let s1 = st.push(OpStackEntry::And);
            lemma_shunt_tree(*b, o1, s1);
            lemma_binary_step(e, *a, *b, InfixToken::And, OpStackEntry::And, o, st);
        },
        Expr::Or(a, b) => {
            lemma_shunt_tree(*a, o, st);
            let o1 = o + postorder(*a);
            let s1 = st.push(OpStackEntry::Or);
            lemma_shunt_tree(*b, o1, s1);
            lemma_binary_step(e, *a, *b, InfixToken::Or, OpStackEntry::Or, o, st);
        },
        Expr::Group(x) => {
            let head = seq![InfixToken::LeftBracket];
            assert(head.drop_last() =~= Seq::<InfixToken>::empty());
            reveal_with_fuel(shunt_from, 2);
            let st1 = st.push(OpStackEntry::LeftBracket);
            assert(shunt_from(o, st, head) == (o, st1));
            lemma_shunt_from_concat(o, st, head, tokens(*x));
            lemma_shunt_tree(*x, o, st1);
            let mid = head + tokens(*x);
            let tail = seq![InfixToken::RightBracket];
            assert(tokens(e) =~= mid + tail);
            lemma_shunt_from_concat(o, st, mid, tail);
            assert(tail.drop_last() =~= Seq::<InfixToken>::empty());
            let (o2, s2) = shunt_from(o, st, mid);
            assert(shunt_from(o2, s2, tail) == pop_group(o2, s2));
            lemma_pop_group_frame(o + emitted_part(*x), st, pending_part(*x));
            lemma_pop_all_prefix(o, emitted_part(*x), pending_part(*x));
            assert(st + pending_part(e) =~= st);
        },
    }
}

/// The step of [`lemma_shunt_tree`] at a binary operator, from what holds of
/// its two operands.
proof fn lemma_binary_step(
    e: Expr,
    a: Expr,
    b: Expr,
    tok: InfixToken,
    entry: OpStackEntry,
    o: Seq<PostfixToken>,
    st: Seq<OpStackEntry>,
)
    requires
        (tok == InfixToken::And && entry == OpStackEntry::And && e == Expr::And(
            Box::new(a),
            Box::new(b),
        )) || (tok == InfixToken::Or && entry == OpStackEntry::Or && e == Expr::Or(
            Box::new(a),
            Box::new(b),
        )),
        follows_precedence(e),
        st.len() == 0 || priority(st.last()) < level(e),
        shunt_from(o, st, tokens(a)) == (o + emitted_part(a), st + pending_part(a)),
        pop_all(emitted_part(a), pending_part(a)) == postorder(a),
        all_bind_from(pending_part(a), level(a)),
        shunt_from(o + postorder(a), st.push(entry), tokens(b)) == (o + postorder(a)
            + emitted_part(b), st.push(entry) + pending_part(b)),
        pop_all(emitted_part(b), pending_part(b)) == postorder(b),
        all_bind_from(pending_part(b), level(b)),
    ensures
        shunt_from(o, st, tokens(e)) == (o + emitted_part(e), st + pending_part(e)),
        pop_all(emitted_part(e), pending_part(e)) == postorder(e),
        all_bind_from(pending_part(e), level(e)),
{
    let lvl = level(e);
    let head = tokens(a) + seq![tok];
    assert(tokens(e) =~= head + tokens(b));
    lemma_shunt_from_concat(o, st, head, tokens(b));
    lemma_shunt_from_concat(o, st, tokens(a), seq![tok]);
    assert(seq![tok].drop_last() =~= Seq::<InfixToken>::empty());
    reveal_with_fuel(shunt_from, 2);
    let oa = o + emitted_part(a);
    let sa = st + pending_part(a);
    assert(shunt_from(oa, sa, seq![tok]) == shunt(oa, sa, tok));
    assert(all_bind_from(pending_part(a), lvl));
    lemma_pop_binding_frame(oa, st, pending_part(a), lvl);
    lemma_pop_all_prefix(o, emitted_part(a), pending_part(a));
    assert(shunt_from(o, st, head) == (o + postorder(a), st.push(entry)));
    assert(o + postorder(a) + emitted_part(b) =~= o + emitted_part(e));
    assert(st.push(entry) + pending_part(b) =~= st + pending_part(e));
    lemma_pop_all_split(emitted_part(e), seq![entry], pending_part(b));
    assert(seq![entry] + pending_part(b) == pending_part(e));
    lemma_pop_all_prefix(postorder(a), emitted_part(b), pending_part(b));
    reveal_with_fuel(pop_all, 2);
    assert(seq![entry].drop_last() =~= Seq::<OpStackEntry>::empty());
    assert(postorder(a) + postorder(b) + emitted(entry) == postorder(e));
    assert forall|k: int| 0 <= k < pending_part(e).len() implies priority(
        #[trigger] pending_part(e)[k],
    ) >= lvl && priority(pending_part(e)[k]) >= 0 by {
        if k > 0 {
            assert(pending_part(e)[k] == pending_part(b)[k - 1]);
        }
    }
}

/// The translation of the text of a tree that follows precedence is the
/// tree's postorder walk.
pub proof fn lemma_to_postfix_is_postorder(e: Expr)
    requires
        follows_precedence(e),
    ensures
        to_postfix(tokens(e)) == postorder(e),
{
    lemma_shunt_from_empty(tokens(e));
    lemma_shunt_tree(e, seq![], seq![]);
    assert(Seq::<PostfixToken>::empty() + emitted_part(e) =~= emitted_part(e));
    assert(Seq::<OpStackEntry>::empty() + pending_part(e) =~= pending_part(e));
}

/// The value of a tree, with `vals[i]` bound to the `i`-th of `variables`;
/// `None` where a variable has no value.
pub open spec fn value(e: Expr, variables: Seq<char>, vals: Seq<bool>) -> Option<bool>
    decreases e,
{
    match e {
        Expr::Var(c) => lookup(variables, vals, c),
        Expr::Const(b) => Some(b),
        Expr::Not(x) => match value(*x, variables, vals) {
            Some(v) => Some(!v),
            None => None,
        },
        Expr::And(a, b) => match (value(*a, variables, vals), value(*b, variables, vals)) {
            (Some(x), Some(y)) => Some(x && y),
            _ => None,
        },
        Expr::Or(a, b) => match (value(*a, variables, vals), value(*b, variables, vals)) {
            (Some(x), Some(y)) => Some(x || y),
            _ => None,
        },
        Expr::Group(x) => value(*x, variables, vals),
    }
}

proof fn lemma_run_fails_after(
    variables: Seq<char>,
    vals: Seq<bool>,
    p: Seq<PostfixToken>,
    q: Seq<PostfixToken>,
)
    requires
        run(variables, vals, p) is None,
    ensures
        run(variables, vals, p + q) is None,
    decreases q.len(),
{
    if q.len() == 0 {
        assert(p + q =~= p);
    } else {
        assert((p + q).drop_last() =~= p + q.drop_last());
        lemma_run_fails_after(variables, vals, p, q.drop_last());
    }
}

proof fn lemma_run_one(variables: Seq<char>, vals: Seq<bool>, p: Seq<PostfixToken>, t: PostfixToken)
    ensures
        run(variables, vals, p + seq![t]) == match run(variables, vals, p) {
            Some(st) => step(variables, vals, st, t),
            None => None,
        },
{
    assert((p + seq![t]).drop_last() =~= p);
    assert((p + seq![t]).last() == t);
}

/// Running the postorder walk of a tree pushes the tree's value.
proof fn lemma_run_postorder(e: Expr, variables: Seq<char>, vals: Seq<bool>, p: Seq<PostfixToken>)
    requires
        run(variables, vals, p) is Some,
    ensures
        run(variables, vals, p + postorder(e)) == match value(e, variables, vals) {
            Some(v) => Some(run(variables, vals, p)->0.push(v)),
            None => None,
        },
    decreases e,
{
    match e {
        Expr::Var(c) => {
            lemma_run_one(variables, vals, p, PostfixToken::Var(c));
        },
        Expr::Const(b) => {
            lemma_run_one(variables, vals, p, PostfixToken::Const(b));
        },
        Expr::Not(x) => {
            lemma_run_postorder(*x, variables, vals, p);
            assert(p + postorder(e) =~= (p + postorder(*x)) + seq![PostfixToken::Not]);
            lemma_run_one(variables, vals, p + postorder(*x), PostfixToken::Not);
            let st = run(variables, vals, p)->0;
            if let Some(v) = value(*x, variables, vals) {
                assert(st.push(v).drop_last() =~= st);
            }
        },
        Expr::And(a, b) => {
            lemma_binary_run(e, *a, *b, PostfixToken::And, variables, vals, p);
        },
        Expr::Or(a, b) => {
            lemma_binary_run(e, *a, *b, PostfixToken::Or, variables, vals, p);
        },
        Expr::Group(x) => {
            lemma_run_postorder(*x, variables, vals, p);
        },
    }
}

proof fn lemma_binary_run(
    e: Expr,
    a: Expr,
    b: Expr,
    op: PostfixToken,
    variables: Seq<char>,
    vals: Seq<bool>,
    p: Seq<PostfixToken>,
)
    requires
        (op == PostfixToken::And && e == Expr::And(Box::new(a), Box::new(b))) || (op
            == PostfixToken::Or && e == Expr::Or(Box::new(a), Box::new(b))),
        run(variables, vals, p) is Some,
    ensures
        run(variables, vals, p + postorder(e)) == match value(e, variables, vals) {
            Some(v) => Some(run(variables, vals, p)->0.push(v)),
            None => None,
        },
    decreases e, 0int,
{
    let st = run(variables, vals, p)->0;
    let pa = p + postorder(a);
    let pab = pa + postorder(b);
    assert(p + postorder(e) =~= pab + seq![op]);
    lemma_run_postorder(a, variables, vals, p);
    lemma_run_one(variables, vals, pab, op);
    match value(a, variables, vals) {
        Some(va) => {
            lemma_run_postorder(b, variables, vals, pa);
            if let Some(vb) = value(b, variables, vals) {
                assert(st.push(va).push(vb).drop_last().drop_last() =~= st);
                assert(st.push(va).push(vb)[st.len() as int] == va);
            }
        },
        None => {
            lemma_run_fails_after(variables, vals, pa, postorder(b));
        },
    }
}

/// Compiling a formula whose text is that of a tree read with precedence
/// gives the tree's postorder walk, and evaluating it gives the tree's
/// value.
pub proof fn lemma_compiled_tree(e: Expr, variables: Seq<char>, vals: Seq<bool>)
    requires
        follows_precedence(e),
    ensures
        to_postfix(tokens(e)) == postorder(e),
        eval_spec(variables, vals, postorder(e)) == value(e, variables, vals),
{
    lemma_to_postfix_is_postorder(e);
    lemma_run_postorder(e, variables, vals, seq![]);
    assert(Seq::<PostfixToken>::empty() + postorder(e) =~= postorder(e));
}

/// Token `j` of `ts` may follow the ones before it.
pub open spec fn allowed_at(ts: Seq<InfixToken>, j: int) -> bool {
    &&& seq_check(last_type(ts.take(j)), ts[j]) is Ok
    &&& (ts[j] is RightBracket ==> depth_of(ts.take(j)) > 0)
}

/// Tokens that make a whole formula.
pub open spec fn is_formula(ts: Seq<InfixToken>) -> bool {
    &&& well_sequenced(ts)
    &&& depth_of(ts) == 0
    &&& last_type(ts) is Operand
}

/// Token `tok` stands at position `k`, outside every bracket.
pub open spec fn top_at(ts: Seq<InfixToken>, k: int, tok: InfixToken) -> bool {
    0 <= k < ts.len() && ts[k] == tok && depth_of(ts.take(k)) == 0
}

/// The last position where `tok` stands outside every bracket.
pub open spec fn last_top(ts: Seq<InfixToken>, tok: InfixToken) -> Option<int>
    decreases ts.len(),
{
    if ts.len() == 0 {
        None
    } else if ts.last() == tok && depth_of(ts.drop_last()) == 0 {
        Some(ts.len() - 1)
    } else {
        last_top(ts.drop_last(), tok)
    }
}

/// The tree that reads a formula with precedence: split at the last `|`
/// outside brackets, else at the last such `&`; else a negation, a bracketed
/// formula or a single operand.
pub open spec fn build(ts: Seq<InfixToken>) -> Expr
    decreases ts.len(),
{
    if ts.len() == 0 {
        Expr::Const(false)
    } else {
        match last_top(ts, InfixToken::Or) {
            Some(k) => if 0 <= k < ts.len() {
                Expr::Or(Box::new(build(ts.take(k))), Box::new(build(ts.skip(k + 1))))
            } else {
                Expr::Const(false)
            },
            None => match last_top(ts, InfixToken::And) {
                Some(k) => if 0 <= k < ts.len() {
                    Expr::And(Box::new(build(ts.take(k))), Box::new(build(ts.skip(k + 1))))
                } else {
                    Expr::Const(false)
                },
                None => match ts[0] {
                    InfixToken::Not => Expr::Not(Box::new(build(ts.skip(1)))),
                    InfixToken::LeftBracket => if ts.len() >= 2 {
                        Expr::Group(Box::new(build(ts.subrange(1, ts.len() - 1))))
                    } else {
                        Expr::Const(false)
                    },
                    InfixToken::Variable(c) => Expr::Var(c),
                    InfixToken::Const(b) => Expr::Const(b),
                    _ => Expr::Const(false),
                },
            },
        }
    }
}

proof fn lemma_depth_concat(a: Seq<InfixToken>, b: Seq<InfixToken>)
    ensures
        depth_of(a + b) == depth_of(a) + depth_of(b),
    decreases b.len(),
{
    if b.len() == 0 {
        assert(a + b =~= a);
    } else {
        assert((a + b).drop_last() =~= a + b.drop_last());
        lemma_depth_concat(a, b.drop_last());
    }
}

proof fn lemma_depth_step(ts: Seq<InfixToken>, j: int)
    requires
        0 <= j < ts.len(),
    ensures
        depth_of(ts.take(j + 1)) == depth_of(ts.take(j)) + match ts[j] {
            InfixToken::LeftBracket => 1int,
            InfixToken::RightBracket => -1int,
            _ => 0int,
        },
        last_type(ts.take(j + 1)) == crate::parse::seq_type_of(ts[j]),
{
    assert(ts.take(j + 1).drop_last() =~= ts.take(j));
}

proof fn lemma_allowed_iff(ts: Seq<InfixToken>)
    ensures
        well_sequenced(ts) <==> forall|j: int| 0 <= j < ts.len() ==> #[trigger] allowed_at(ts, j),
    decreases ts.len(),
{
    if ts.len() > 0 {
        let init = ts.drop_last();
        lemma_allowed_iff(init);
        assert forall|j: int| 0 <= j < init.len() implies #[trigger] allowed_at(ts, j) == allowed_at(
            init,
            j,
        ) by {
            assert(init.take(j) =~= ts.take(j));
        }
        assert(ts.take(ts.len() - 1) =~= init);
        if forall|j: int| 0 <= j < ts.len() ==> #[trigger] allowed_at(ts, j) {
            assert forall|j: int| 0 <= j < init.len() implies #[trigger] allowed_at(init, j) by {
                assert(allowed_at(ts, j));
            }
            assert(allowed_at(ts, ts.len() - 1));
        }
    }
}

proof fn lemma_last_top(ts: Seq<InfixToken>, tok: InfixToken)
    ensures
        match last_top(ts, tok) {
            Some(k) => top_at(ts, k, tok) && forall|j: int| k < j < ts.len() ==> !#[trigger] top_at(ts, j, tok),
            None => forall|j: int| !#[trigger] top_at(ts, j, tok),
        },
    decreases ts.len(),
{
    if ts.len() > 0 {
        let init = ts.drop_last();
        lemma_last_top(init, tok);
        assert(ts.take(ts.len() - 1) =~= init);
        assert forall|j: int| 0 <= j < init.len() implies #[trigger] top_at(ts, j, tok) == top_at(
            init,
            j,
            tok,
        ) by {
            assert(init.take(j) =~= ts.take(j));
        }
    }
}

/// A stretch of a well-sequenced text that starts where an operand is due
/// and closes no bracket it did not open is well sequenced itself.
proof fn lemma_slice(ts: Seq<InfixToken>, k: int, m: int)
    requires
        well_sequenced(ts),
        0 <= k <= m <= ts.len(),
        last_type(ts.take(k)) is Operator,
        forall|j: int|
            k <= j < m && (#[trigger] ts[j]) is RightBracket ==> depth_of(ts.take(j)) > depth_of(
                ts.take(k),
            ),
    ensures
        well_sequenced(ts.subrange(k, m)),
        depth_of(ts.subrange(k, m)) == depth_of(ts.take(m)) - depth_of(ts.take(k)),
        m > k ==> last_type(ts.subrange(k, m)) == last_type(ts.take(m)),
        forall|i: int|
            0 <= i < m - k ==> depth_of(#[trigger] ts.subrange(k, m).take(i)) == depth_of(
                ts.take(k + i),
            ) - depth_of(ts.take(k)),
{
    let r = ts.subrange(k, m);
    lemma_allowed_iff(ts);
    assert forall|i: int| 0 <= i <= m - k implies depth_of(#[trigger] r.take(i)) == depth_of(
        ts.take(k + i),
    ) - depth_of(ts.take(k)) by {
        assert(ts.take(k + i) =~= ts.take(k) + r.take(i));
        lemma_depth_concat(ts.take(k), r.take(i));
    }
    assert forall|i: int| 0 <= i < r.len() implies #[trigger] allowed_at(r, i) by {
        assert(allowed_at(ts, k + i));
        assert(r[i] == ts[k + i]);
        if i > 0 {
            assert(r.take(i).last() == ts.take(k + i).last());
        }
        assert(depth_of(r.take(i)) == depth_of(ts.take(k + i)) - depth_of(ts.take(k)));
    }
    lemma_allowed_iff(r);
    assert(r.take(m - k) =~= r);
    if m > k {
        assert(r.last() == ts.take(m).last());
    }
}

/// Inside a formula, brackets never close below the level they started
/// from.
proof fn lemma_formula_depths(ts: Seq<InfixToken>)
    requires
        well_sequenced(ts),
    ensures
        forall|j: int| 0 <= j <= ts.len() ==> depth_of(#[trigger] ts.take(j)) >= 0,
        forall|j: int| 0 <= j < ts.len() ==> #[trigger] allowed_at(ts, j),
    decreases ts.len(),
{
    lemma_allowed_iff(ts);
    if ts.len() > 0 {
        lemma_formula_depths(ts.drop_last());
        assert forall|j: int| 0 <= j <= ts.len() implies depth_of(#[trigger] ts.take(j)) >= 0 by {
            if j < ts.len() {
                assert(ts.drop_last().take(j) =~= ts.take(j));
            } else {
                assert(ts.take(j) =~= ts);
                assert(allowed_at(ts, ts.len() - 1));
                assert(ts.take(ts.len() - 1) =~= ts.drop_last());
                assert(ts.drop_last().take(ts.len() - 1) =~= ts.drop_last());
                assert(depth_of(ts.drop_last().take(ts.len() - 1)) >= 0);
            }
        }
    }
}

/// Both sides of a binary operator outside brackets are formulas, and what
/// stands outside brackets in them stands so in the whole.
proof fn lemma_split_parts(ts: Seq<InfixToken>, k: int, tok: InfixToken)
    requires
        is_formula(ts),
        tok == InfixToken::And || tok == InfixToken::Or,
        top_at(ts, k, tok),
    ensures
        0 < k < ts.len() - 1,
        is_formula(ts.take(k)),
        is_formula(ts.skip(k + 1)),
        forall|i: int, t: InfixToken| #[trigger] top_at(ts.take(k), i, t) ==> top_at(ts, i, t),
        forall|i: int, t: InfixToken| #[trigger] top_at(ts.skip(k + 1), i, t) ==> top_at(ts, k + 1 + i, t),
{
    let n = ts.len() as int;
    lemma_formula_depths(ts);
    assert(allowed_at(ts, k));
    lemma_depth_step(ts, k);
    assert(ts.take(n) =~= ts);
    if k == n - 1 {
        assert(last_type(ts) == last_type(ts.take(k + 1)));
    }
    assert(ts.take(0) =~= Seq::<InfixToken>::empty());
    assert forall|j: int| 0 <= j < k && (#[trigger] ts[j]) is RightBracket implies depth_of(ts.take(j))
        > depth_of(ts.take(0)) by {
        assert(allowed_at(ts, j));
    }
    lemma_slice(ts, 0, k);
    assert(ts.subrange(0, k) =~= ts.take(k));
    assert forall|j: int| k + 1 <= j < n && (#[trigger] ts[j]) is RightBracket implies depth_of(
        ts.take(j),
    ) > depth_of(ts.take(k + 1)) by {
        assert(allowed_at(ts, j));
    }
    lemma_slice(ts, k + 1, n);
    assert(ts.subrange(k + 1, n) =~= ts.skip(k + 1));
    assert forall|i: int, t: InfixToken| #[trigger] top_at(ts.take(k), i, t) implies top_at(ts, i, t) by {
        assert(ts.take(k).take(i) =~= ts.take(i));
    }
    assert forall|i: int, t: InfixToken| #[trigger] top_at(ts.skip(k + 1), i, t) implies top_at(
        ts,
        k + 1 + i,
        t,
    ) by {
        assert(ts.subrange(k + 1, n).take(i) == ts.skip(k + 1).take(i));
    }
}

/// After an opening bracket that starts a formula with no binary operator
/// outside brackets, the depth stays positive until the last token.
proof fn lemma_group_depth(ts: Seq<InfixToken>, j: int)
    requires
        is_formula(ts),
        ts[0] is LeftBracket,
        forall|i: int| !#[trigger] top_at(ts, i, InfixToken::Or),
        forall|i: int| !#[trigger] top_at(ts, i, InfixToken::And),
        1 <= j <= ts.len() - 1,
    ensures
        depth_of(ts.take(j)) >= 1,
    decreases j,
{
    lemma_formula_depths(ts);
    lemma_depth_step(ts, j - 1);
    assert(ts.take(0) =~= Seq::<InfixToken>::empty());
    if j > 1 {
        lemma_group_depth(ts, j - 1);
        if depth_of(ts.take(j)) < 1 {
            assert(allowed_at(ts, j));
            assert(!top_at(ts, j, InfixToken::Or));
            assert(!top_at(ts, j, InfixToken::And));
        }
    }
}

/// Every formula is the text of the tree [`build`] reads from it, and that
/// tree follows precedence.
#[verifier::rlimit(40)]
pub proof fn lemma_build(ts: Seq<InfixToken>)
    requires
        is_formula(ts),
    ensures
        tokens(build(ts)) == ts,
        follows_precedence(build(ts)),
        last_top(ts, InfixToken::Or) is None ==> level(build(ts)) >= 1,
        last_top(ts, InfixToken::Or) is None && last_top(ts, InfixToken::And) is None ==> level(
            build(ts),
        ) == 2,
    decreases ts.len(),
{
    let n = ts.len() as int;
    lemma_formula_depths(ts);
    lemma_last_top(ts, InfixToken::Or);
    lemma_last_top(ts, InfixToken::And);
    assert(ts.take(n) =~= ts);
    assert(ts.take(0) =~= Seq::<InfixToken>::empty());
    match last_top(ts, InfixToken::Or) {
        Some(k) => {
            lemma_split_parts(ts, k, InfixToken::Or);
            let left = ts.take(k);
            let right = ts.skip(k + 1);
            lemma_build(left);
            lemma_build(right);
            lemma_last_top(right, InfixToken::Or);
            if let Some(i) = last_top(right, InfixToken::Or) {
                assert(top_at(right, i, InfixToken::Or));
                assert(top_at(ts, k + 1 + i, InfixToken::Or));
            }
            assert(left + seq![InfixToken::Or] + right =~= ts);
        },
        None => match last_top(ts, InfixToken::And) {
            Some(k) => {
                lemma_split_parts(ts, k, InfixToken::And);
                let left = ts.take(k);
                let right = ts.skip(k + 1);
                lemma_build(left);
                lemma_build(right);
                lemma_last_top(left, InfixToken::Or);
                lemma_last_top(right, InfixToken::Or);
                lemma_last_top(right, InfixToken::And);
                if let Some(i) = last_top(left, InfixToken::Or) {
                    assert(top_at(left, i, InfixToken::Or));
                }
                if let Some(i) = last_top(right, InfixToken::Or) {
                    assert(top_at(right, i, InfixToken::Or));
                }
                if let Some(i) = last_top(right, InfixToken::And) {
                    assert(top_at(right, i, InfixToken::And));
                    assert(top_at(ts, k + 1 + i, InfixToken::And));
                }
                assert(left + seq![InfixToken::And] + right =~= ts);
            },
            None => {
                assert(allowed_at(ts, 0));
                lemma_depth_step(ts, 0);
                match ts[0] {
                    InfixToken::Not => {
                        assert forall|j: int| 1 <= j < n && (#[trigger] ts[j]) is RightBracket implies depth_of(
                            ts.take(j),
                        ) > depth_of(ts.take(1)) by {
                            assert(allowed_at(ts, j));
                        }
                        if n == 1 {
                            assert(ts.take(1) =~= ts);
                        }
                        lemma_slice(ts, 1, n);
                        let rest = ts.skip(1);
                        assert(ts.subrange(1, n) =~= rest);
                        lemma_build(rest);
                        lemma_last_top(rest, InfixToken::Or);
                        lemma_last_top(rest, InfixToken::And);
                        if let Some(i) = last_top(rest, InfixToken::Or) {
                            assert(top_at(rest, i, InfixToken::Or));
                            assert(rest.take(i) == ts.subrange(1, n).take(i));
                            assert(top_at(ts, 1 + i, InfixToken::Or));
                        }
                        if let Some(i) = last_top(rest, InfixToken::And) {
                            assert(top_at(rest, i, InfixToken::And));
                            assert(rest.take(i) == ts.subrange(1, n).take(i));
                            assert(top_at(ts, 1 + i, InfixToken::And));
                        }
                        assert(seq![InfixToken::Not] + rest =~= ts);
                    },
                    InfixToken::LeftBracket => {
                        if n == 1 {
                            assert(ts.take(1) =~= ts);
                        }
                        lemma_depth_step(ts, n - 1);
                        lemma_group_depth(ts, n - 1);
                        assert(ts[n - 1] is RightBracket);
                        assert(allowed_at(ts, n - 1));
                        if n == 2 {
                            assert(last_type(ts.take(1)) is Operator);
                        }
                        assert forall|j: int| 1 <= j < n - 1 && (#[trigger] ts[j]) is RightBracket implies depth_of(
                            ts.take(j),
                        ) > depth_of(ts.take(1)) by {
                            lemma_depth_step(ts, j);
                            if j + 1 <= n - 1 {
                                lemma_group_depth(ts, j + 1);
                            }
                        }
                        lemma_slice(ts, 1, n - 1);
                        let mid = ts.subrange(1, n - 1);
                        lemma_build(mid);
                        assert(seq![InfixToken::LeftBracket] + mid + seq![InfixToken::RightBracket] =~= ts);
                    },
                    _ => {
                        if n >= 2 {
                            assert(allowed_at(ts, 1));
                            lemma_depth_step(ts, 1);
                            assert(!top_at(ts, 1, InfixToken::Or));
                            assert(!top_at(ts, 1, InfixToken::And));
                        }
                        assert(seq![ts[0]] =~= ts);
                    },
                }
            },
        },
    }
}

} // verus!
