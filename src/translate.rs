//! Translation of infix tokens into a postfix program by operator
//! precedence, and why the program it gives is sound.
use vstd::prelude::*;

use crate::function::{reads_within, stack_height, PostfixToken};
use crate::parse::{depth_of, last_type, seq_check, vars_of, InfixToken};

verus! {

/// An entry of the operator stack of the infix-to-postfix translation.
#[derive(Debug, Clone, Copy, PartialEq, Eq, Structural)]
pub enum OpStackEntry {
    LeftBracket,
    And,
    Or,
    Not,
}

/// Binding strength of a stacked operator; an open bracket ranks below every
/// operator, so that no operator pops it.
pub open spec fn priority(e: OpStackEntry) -> int {
    match e {
        OpStackEntry::Not => 2,
        OpStackEntry::And => 1,
        OpStackEntry::Or => 0,
        OpStackEntry::LeftBracket => -1,
    }
}

/// What a popped stack entry contributes to the output: its instruction, or
/// nothing for a bracket.
pub open spec fn emitted(e: OpStackEntry) -> Seq<PostfixToken> {
    match e {
        OpStackEntry::Not => seq![PostfixToken::Not],
        OpStackEntry::And => seq![PostfixToken::And],
        OpStackEntry::Or => seq![PostfixToken::Or],
        OpStackEntry::LeftBracket => seq![],
    }
}

/// Moves the operators that bind at least as tightly as `prio` from the top
/// of the stack to the output.
pub open spec fn pop_binding(out: Seq<PostfixToken>, st: Seq<OpStackEntry>, prio: int) -> (
    Seq<PostfixToken>,
    Seq<OpStackEntry>,
)
    decreases st.len(),
{
    if st.len() > 0 && priority(st.last()) >= prio {
        pop_binding(out + emitted(st.last()), st.drop_last(), prio)
    } else {
        (out, st)
    }
}

/// Moves operators to the output down to the nearest open bracket, which is
/// dropped.
pub open spec fn pop_group(out: Seq<PostfixToken>, st: Seq<OpStackEntry>) -> (
    Seq<PostfixToken>,
    Seq<OpStackEntry>,
)
    decreases st.len(),
{
    if st.len() == 0 {
        (out, st)
    } else if st.last() is LeftBracket {
        (out, st.drop_last())
    } else {
        pop_group(out + emitted(st.last()), st.drop_last())
    }
}

/// Moves the whole stack to the output, top first.
pub open spec fn pop_all(out: Seq<PostfixToken>, st: Seq<OpStackEntry>) -> Seq<PostfixToken>
    decreases st.len(),
{
    if st.len() == 0 {
        out
    } else {
        pop_all(out + emitted(st.last()), st.drop_last())
    }
}

/// One token of the translation: output and operator stack before and after.
pub open spec fn shunt(out: Seq<PostfixToken>, st: Seq<OpStackEntry>, t: InfixToken) -> (
    Seq<PostfixToken>,
    Seq<OpStackEntry>,
) {
    match t {
        InfixToken::Not => (out, st.push(OpStackEntry::Not)),
        InfixToken::And => {
            let (o, s) = pop_binding(out, st, 1);
            (o, s.push(OpStackEntry::And))
        },
        InfixToken::Or => {
            let (o, s) = pop_binding(out, st, 0);
            (o, s.push(OpStackEntry::Or))
        },
        InfixToken::LeftBracket => (out, st.push(OpStackEntry::LeftBracket)),
        InfixToken::RightBracket => pop_group(out, st),
        InfixToken::Variable(c) => (out.push(PostfixToken::Var(c)), st),
        InfixToken::Const(b) => (out.push(PostfixToken::Const(b)), st),
    }
}

/// Output and operator stack once the tokens `ts` were read.
pub open spec fn shunt_all(ts: Seq<InfixToken>) -> (Seq<PostfixToken>, Seq<OpStackEntry>)
    decreases ts.len(),
{
    if ts.len() == 0 {
        (Seq::empty(), Seq::empty())
    } else {
        let (o, s) = shunt_all(ts.drop_last());
        shunt(o, s, ts.last())
    }
}

/// The postfix translation of the infix tokens `ts`.
pub open spec fn to_postfix(ts: Seq<InfixToken>) -> Seq<PostfixToken> {
    let (o, s) = shunt_all(ts);
    pop_all(o, s)
}

/// The instruction for a stack entry other than a bracket.
fn emit(e: OpStackEntry, out: &mut Vec<PostfixToken>)
    ensures
        final(out)@ == old(out)@ + emitted(e),
{
    match e {
        OpStackEntry::And => out.push(PostfixToken::And),
        OpStackEntry::Or => out.push(PostfixToken::Or),
        OpStackEntry::Not => out.push(PostfixToken::Not),
        OpStackEntry::LeftBracket => {},
    }
    proof {
        assert(final(out)@ =~= old(out)@ + emitted(e));
    }
}

/// Translates infix notation into postfix notation.
pub(crate) fn into_postfix(infix: &Vec<InfixToken>) -> (r: Vec<PostfixToken>)
    ensures
        r@ == to_postfix(infix@),
{
    let mut op_stack: Vec<OpStackEntry> = Vec::new();
    let mut output: Vec<PostfixToken> = Vec::new();
    let mut i: usize = 0;
    while i < infix.len()
        invariant
            i <= infix@.len(),
            shunt_all(infix@.take(i as int)) == (output@, op_stack@),
        decreases infix@.len() - i,
    {
        assert(infix@.take(i + 1).drop_last() =~= infix@.take(i as int));
        assert(infix@.take(i + 1).last() == infix@[i as int]);
        let ghost out0 = output@;
        let ghost st0 = op_stack@;
        let token = infix[i];
        match token {
            InfixToken::Not => op_stack.push(OpStackEntry::Not),
            InfixToken::And | InfixToken::Or => {
                let cur_priority: u8 = match token {
                    InfixToken::And => 1,
                    _ => 0,
                };
                loop
                    invariant
                        cur_priority <= 1,
                        pop_binding(output@, op_stack@, cur_priority as int) == pop_binding(
                            out0,
                            st0,
                            cur_priority as int,
                        ),
                    ensures
                        (output@, op_stack@) == pop_binding(out0, st0, cur_priority as int),
                    decreases op_stack@.len(),
                {
                    let top_priority: i8 = match op_stack.last() {
                        Some(OpStackEntry::Not) => 2,
                        Some(OpStackEntry::And) => 1,
                        Some(OpStackEntry::Or) => 0,
                        Some(OpStackEntry::LeftBracket) => -1,
                        None => break,
                    };
                    assert(top_priority == priority(op_stack@.last()));
                    if top_priority < cur_priority as i8 {
                        break;
                    }
                    let top = op_stack.pop().unwrap();
                    emit(top, &mut output);
                }
                op_stack.push(
                    match token {
                        InfixToken::And => OpStackEntry::And,
                        _ => OpStackEntry::Or,
                    },
                );
            },
            InfixToken::LeftBracket => op_stack.push(OpStackEntry::LeftBracket),
            InfixToken::RightBracket => {
                loop
                    invariant_except_break
                        pop_group(output@, op_stack@) == pop_group(out0, st0),
                    ensures
                        (output@, op_stack@) == pop_group(out0, st0),
                    decreases op_stack@.len(),
                {
                    match op_stack.pop() {
                        Some(OpStackEntry::LeftBracket) => break,
                        Some(top) => emit(top, &mut output),
                        None => break,
                    }
                }
            },
            InfixToken::Variable(var) => output.push(PostfixToken::Var(var)),
            InfixToken::Const(val) => output.push(PostfixToken::Const(val)),
        }
        i = i + 1;
    }
    assert(infix@.take(infix@.len() as int) =~= infix@);
    let ghost out1 = output@;
    let ghost st1 = op_stack@;
    while op_stack.len() > 0
        invariant
            pop_all(output@, op_stack@) == pop_all(out1, st1),
        decreases op_stack@.len(),
    {
        let top = op_stack.pop().unwrap();
        emit(top, &mut output);
    }
    output
}

/// Number of binary operators on the stack.
pub open spec fn binaries(st: Seq<OpStackEntry>) -> nat
    decreases st.len(),
{
    if st.len() == 0 {
        0
    } else {
        binaries(st.drop_last()) + match st.last() {
            OpStackEntry::And | OpStackEntry::Or => 1nat,
            _ => 0nat,
        }
    }
}

/// Number of open brackets on the stack.
pub open spec fn open_brackets(st: Seq<OpStackEntry>) -> nat
    decreases st.len(),
{
    if st.len() == 0 {
        0
    } else {
        open_brackets(st.drop_last()) + match st.last() {
            OpStackEntry::LeftBracket => 1nat,
            _ => 0nat,
        }
    }
}

/// Each token is allowed after the one before it, and no bracket closes
/// before it opened.
pub open spec fn well_sequenced(ts: Seq<InfixToken>) -> bool
    decreases ts.len(),
{
    ts.len() == 0 || {
        &&& well_sequenced(ts.drop_last())
        &&& seq_check(last_type(ts.drop_last()), ts.last()) is Ok
        &&& (ts.last() is RightBracket ==> depth_of(ts.drop_last()) > 0)
    }
}

/// The translation state that a well-sequenced prefix leads to: the output
/// computes one value for each binary operator still waiting for its right
/// operand, and one more once an operand was just read; the stack holds the
/// brackets still open.
pub open spec fn shunt_state_ok(
    ts: Seq<InfixToken>,
    o: Seq<PostfixToken>,
    st: Seq<OpStackEntry>,
) -> bool {
    &&& stack_height(o) == Some(
        binaries(st) + if last_type(ts) is Operand {
            1nat
        } else {
            0nat
        },
    )
    &&& open_brackets(st) == depth_of(ts)
    &&& reads_within(o, vars_of(ts))
}

proof fn lemma_emit_keeps(o: Seq<PostfixToken>, e: OpStackEntry, vs: Set<char>)
    requires
        reads_within(o, vs),
    ensures
        reads_within(o + emitted(e), vs),
        (o + emitted(e)).len() == o.len() + emitted(e).len(),
{
    assert forall|k: int| 0 <= k < (o + emitted(e)).len() && (#[trigger] (o + emitted(e))[k]) is Var implies vs.contains(
        (o + emitted(e))[k]->Var_0,
    ) by {
        if k < o.len() {
            assert((o + emitted(e))[k] == o[k]);
        }
    }
}

proof fn lemma_pop_entry(o: Seq<PostfixToken>, st: Seq<OpStackEntry>, vs: Set<char>)
    requires
        st.len() > 0,
        !(st.last() is LeftBracket),
        stack_height(o) == Some(binaries(st) + 1),
        reads_within(o, vs),
    ensures
        stack_height(o + emitted(st.last())) == Some(binaries(st.drop_last()) + 1),
        open_brackets(st.drop_last()) == open_brackets(st),
        reads_within(o + emitted(st.last()), vs),
{
    lemma_emit_keeps(o, st.last(), vs);
    let o2 = o + emitted(st.last());
    assert(o2.drop_last() =~= o);
}

proof fn lemma_pop_binding(o: Seq<PostfixToken>, st: Seq<OpStackEntry>, prio: int, vs: Set<char>)
    requires
        prio >= 0,
        stack_height(o) == Some(binaries(st) + 1),
        reads_within(o, vs),
    ensures
        stack_height(pop_binding(o, st, prio).0) == Some(binaries(pop_binding(o, st, prio).1) + 1),
        open_brackets(pop_binding(o, st, prio).1) == open_brackets(st),
        reads_within(pop_binding(o, st, prio).0, vs),
    decreases st.len(),
{
    if st.len() > 0 && priority(st.last()) >= prio {
        lemma_pop_entry(o, st, vs);
        lemma_pop_binding(o + emitted(st.last()), st.drop_last(), prio, vs);
    }
}

proof fn lemma_pop_group(o: Seq<PostfixToken>, st: Seq<OpStackEntry>, vs: Set<char>)
    requires
        open_brackets(st) > 0,
        stack_height(o) == Some(binaries(st) + 1),
        reads_within(o, vs),
    ensures
        stack_height(pop_group(o, st).0) == Some(binaries(pop_group(o, st).1) + 1),
        open_brackets(pop_group(o, st).1) + 1 == open_brackets(st),
        reads_within(pop_group(o, st).0, vs),
    decreases st.len(),
{
    if st.len() > 0 && !(st.last() is LeftBracket) {
        lemma_pop_entry(o, st, vs);
        lemma_pop_group(o + emitted(st.last()), st.drop_last(), vs);
    }
}

proof fn lemma_pop_all(o: Seq<PostfixToken>, st: Seq<OpStackEntry>, vs: Set<char>)
    requires
        open_brackets(st) == 0,
        stack_height(o) == Some(binaries(st) + 1),
        reads_within(o, vs),
    ensures
        stack_height(pop_all(o, st)) == Some(1nat),
        reads_within(pop_all(o, st), vs),
    decreases st.len(),
{
    if st.len() > 0 {
        lemma_pop_entry(o, st, vs);
        lemma_pop_all(o + emitted(st.last()), st.drop_last(), vs);
    }
}

proof fn lemma_push_entry(st: Seq<OpStackEntry>, e: OpStackEntry)
    ensures
        binaries(st.push(e)) == binaries(st) + if e is And || e is Or {
            1nat
        } else {
            0nat
        },
        open_brackets(st.push(e)) == open_brackets(st) + if e is LeftBracket {
            1nat
        } else {
            0nat
        },
{
    assert(st.push(e).drop_last() =~= st);
}

proof fn lemma_reads_grow(o: Seq<PostfixToken>, vs: Set<char>, ws: Set<char>)
    requires
        reads_within(o, vs),
        vs.subset_of(ws),
    ensures
        reads_within(o, ws),
{
}

proof fn lemma_vars_of_push(ts: Seq<InfixToken>, t: InfixToken)
    ensures
        vars_of(ts).subset_of(vars_of(ts.push(t))),
        t matches InfixToken::Variable(c) ==> vars_of(ts.push(t)).contains(c),
{
    assert forall|c: char| vars_of(ts).contains(c) implies #[trigger] vars_of(ts.push(t)).contains(c) by {
        let j = choose|j: int| 0 <= j < ts.len() && ts[j] == InfixToken::Variable(c);
        assert(ts.push(t)[j] == InfixToken::Variable(c));
    }
    assert(ts.push(t)[ts.len() as int] == t);
}

/// The translation keeps its state well formed along a well-sequenced text.
proof fn lemma_shunt_all(ts: Seq<InfixToken>)
    requires
        well_sequenced(ts),
    ensures
        shunt_state_ok(ts, shunt_all(ts).0, shunt_all(ts).1),
    decreases ts.len(),
{
    if ts.len() > 0 {
        let init = ts.drop_last();
        let t = ts.last();
        lemma_shunt_all(init);
        let (o, st) = shunt_all(init);
        assert(init.push(t) =~= ts);
        lemma_vars_of_push(init, t);
        lemma_reads_grow(o, vars_of(init), vars_of(ts));
        let vs = vars_of(ts);
        match t {
            InfixToken::Not => {
                lemma_push_entry(st, OpStackEntry::Not);
            },
            InfixToken::And => {
                lemma_pop_binding(o, st, 1, vs);
                lemma_push_entry(pop_binding(o, st, 1).1, OpStackEntry::And);
            },
            InfixToken::Or => {
                lemma_pop_binding(o, st, 0, vs);
                lemma_push_entry(pop_binding(o, st, 0).1, OpStackEntry::Or);
            },
            InfixToken::LeftBracket => {
                lemma_push_entry(st, OpStackEntry::LeftBracket);
            },
            InfixToken::RightBracket => {
                lemma_pop_group(o, st, vs);
            },
            InfixToken::Variable(c) => {
                let o2 = o.push(PostfixToken::Var(c));
                assert(o2.drop_last() =~= o);
                assert(o2[o.len() as int] == PostfixToken::Var(c));
            },
            InfixToken::Const(b) => {
                let o2 = o.push(PostfixToken::Const(b));
                assert(o2.drop_last() =~= o);
                assert(o2[o.len() as int] == PostfixToken::Const(b));
            },
        }
    }
}

/// The postfix form of a well-formed formula computes exactly one value and
/// reads only the formula's variables.
pub proof fn lemma_to_postfix_sound(ts: Seq<InfixToken>)
    requires
        well_sequenced(ts),
        depth_of(ts) == 0,
        last_type(ts) is Operand,
    ensures
        stack_height(to_postfix(ts)) == Some(1nat),
        reads_within(to_postfix(ts), vars_of(ts)),
{
    lemma_shunt_all(ts);
    lemma_pop_all(shunt_all(ts).0, shunt_all(ts).1, vars_of(ts));
}

} // verus!
