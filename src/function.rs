use vstd::prelude::*;

verus! {

/// One instruction of a compiled formula, in postfix (reverse Polish) order.
#[derive(Debug, Clone, Copy, PartialEq, Eq, Structural)]
pub enum PostfixToken {
    And,
    Or,
    Not,
    Var(char),
    Const(bool),
}

/// A compiled formula: its variables, and the postfix program that computes
/// its value. Those that [`Function::parse`] gives meet [`Function::wf`].
#[derive(Debug, Clone, PartialEq, Eq)]
pub struct Function {
    pub variables: Vec<char>,
    pub postfix: Vec<PostfixToken>,
}

/// Strictly ascending, hence free of duplicates.
pub open spec fn ascending(s: Seq<char>) -> bool {
    forall|i: int, j: int| 0 <= i < j < s.len() ==> s[i] < s[j]
}

/// The value bound to `c`: the entry of `vals` at the first position of `c`
/// among `variables`, if there is such an entry.
pub open spec fn lookup(variables: Seq<char>, vals: Seq<bool>, c: char) -> Option<bool> {
    match variables.index_of_first(c) {
        Some(i) => if i < vals.len() {
            Some(vals[i])
        } else {
            None
        },
        None => None,
    }
}

/// The value stack after one instruction, or `None` where the instruction
/// lacks an operand or names a variable with no value.
pub open spec fn step(
    variables: Seq<char>,
    vals: Seq<bool>,
    stack: Seq<bool>,
    t: PostfixToken,
) -> Option<Seq<bool>> {
    match t {
        PostfixToken::And => if stack.len() >= 2 {
            Some(stack.drop_last().drop_last().push(stack[stack.len() - 2] && stack.last()))
        } else {
            None
        },
        PostfixToken::Or => if stack.len() >= 2 {
            Some(stack.drop_last().drop_last().push(stack[stack.len() - 2] || stack.last()))
        } else {
            None
        },
        PostfixToken::Not => if stack.len() >= 1 {
            Some(stack.drop_last().push(!stack.last()))
        } else {
            None
        },
        PostfixToken::Const(b) => Some(stack.push(b)),
        PostfixToken::Var(c) => match lookup(variables, vals, c) {
            Some(b) => Some(stack.push(b)),
            None => None,
        },
    }
}

/// The value stack after running `prog` from an empty stack.
pub open spec fn run(variables: Seq<char>, vals: Seq<bool>, prog: Seq<PostfixToken>) -> Option<
    Seq<bool>,
>
    decreases prog.len(),
{
    if prog.len() == 0 {
        Some(Seq::empty())
    } else {
        match run(variables, vals, prog.drop_last()) {
            Some(stack) => step(variables, vals, stack, prog.last()),
            None => None,
        }
    }
}

/// The value of the program: the top of the stack once every instruction ran.
pub open spec fn eval_spec(variables: Seq<char>, vals: Seq<bool>, prog: Seq<PostfixToken>) -> Option<
    bool,
> {
    match run(variables, vals, prog) {
        Some(stack) => if stack.len() > 0 {
            Some(stack.last())
        } else {
            None
        },
        None => None,
    }
}

/// Height of the value stack after `prog`, or `None` where an instruction
/// would find too few operands; variables are not looked at.
pub open spec fn stack_height(prog: Seq<PostfixToken>) -> Option<nat>
    decreases prog.len(),
{
    if prog.len() == 0 {
        Some(0)
    } else {
        match stack_height(prog.drop_last()) {
            Some(h) => match prog.last() {
                PostfixToken::And | PostfixToken::Or => if h >= 2 {
                    Some((h - 1) as nat)
                } else {
                    None
                },
                PostfixToken::Not => if h >= 1 {
                    Some(h)
                } else {
                    None
                },
                _ => Some(h + 1),
            },
            None => None,
        }
    }
}

/// Every variable that `prog` reads is in `vs`.
pub open spec fn reads_within(prog: Seq<PostfixToken>, vs: Set<char>) -> bool {
    forall|k: int| 0 <= k < prog.len() && (#[trigger] prog[k]) is Var ==> vs.contains(prog[k]->Var_0)
}

/// A program that never runs short of operands, and reads only variables
/// that have a value, runs to completion with the stack height it predicts.
pub proof fn lemma_run_completes(variables: Seq<char>, vals: Seq<bool>, prog: Seq<PostfixToken>)
    requires
        stack_height(prog) is Some,
        reads_within(prog, variables.to_set()),
        vals.len() >= variables.len(),
    ensures
        run(variables, vals, prog) matches Some(stack) && stack.len() == stack_height(prog)->0,
    decreases prog.len(),
{
    if prog.len() > 0 {
        let init = prog.drop_last();
        assert forall|k: int| 0 <= k < init.len() && (#[trigger] init[k]) is Var implies variables.to_set().contains(
            init[k]->Var_0,
        ) by {
            assert(init[k] == prog[k]);
        }
        lemma_run_completes(variables, vals, init);
        if let PostfixToken::Var(c) = prog.last() {
            assert(prog[prog.len() - 1] == prog.last());
            assert(variables.contains(c));
            variables.index_of_first_ensures(c);
        }
    }
}

/// A program whose prefix fails fails as a whole.
proof fn lemma_run_fails_on(variables: Seq<char>, vals: Seq<bool>, prog: Seq<PostfixToken>, n: int)
    requires
        0 <= n <= prog.len(),
        run(variables, vals, prog.take(n)) is None,
    ensures
        run(variables, vals, prog) is None,
    decreases prog.len() - n,
{
    if n < prog.len() {
        assert(prog.take(n + 1).drop_last() =~= prog.take(n));
        lemma_run_fails_on(variables, vals, prog, n + 1);
    } else {
        assert(prog.take(n) =~= prog);
    }
}

impl Function {
    /// What compiled formulas keep: distinct variables in ascending order, a
    /// program that reads only those and leaves exactly one value.
    pub open spec fn wf(&self) -> bool {
        &&& ascending(self.variables@)
        &&& reads_within(self.postfix@, self.variables@.to_set())
        &&& stack_height(self.postfix@) == Some(1nat)
    }

    /// The variables of the formula, distinct and in ascending order.
    pub fn vars(&self) -> (r: &[char])
        ensures
            r@ == self.variables@,
    {
        self.variables.as_slice()
    }

    fn var_index(&self, var: char) -> (r: Option<usize>)
        ensures
            r matches Some(i) ==> self.variables@.index_of_first(var) == Some(i as int),
            r is None ==> self.variables@.index_of_first(var) is None,
    {
        proof {
            self.variables@.index_of_first_ensures(var);
        }
        let mut i: usize = 0;
        while i < self.variables.len()
            invariant
                i <= self.variables@.len(),
                forall|j: int| 0 <= j < i ==> self.variables@[j] != var,
            decreases self.variables@.len() - i,
        {
            if self.variables[i] == var {
                proof {
                    self.variables@.index_of_first_ensures(var);
                    let k = self.variables@.index_of_first(var).unwrap();
                    assert(!(k < i));
                    assert(!(k > i));
                }
                return Some(i);
            }
            i = i + 1;
        }
        None
    }

    /// Evaluates the formula with `vals[i]` bound to the `i`-th variable of
    /// [`Function::vars`]. Gives `None` where a variable has no value in
    /// `vals`.
    pub fn eval(&self, vals: &[bool]) -> (r: Option<bool>)
        ensures
            r == eval_spec(self.variables@, vals@, self.postfix@),
    {
        let ghost variables_v = self.variables@;
        let mut stack: Vec<bool> = Vec::with_capacity(16);
        let mut i: usize = 0;
        while i < self.postfix.len()
            invariant
                i <= self.postfix@.len(),
                variables_v == self.variables@,
                run(self.variables@, vals@, self.postfix@.take(i as int)) == Some(stack@),
            decreases self.postfix@.len() - i,
        {
            assert(self.postfix@.take(i + 1).drop_last() =~= self.postfix@.take(i as int));
            assert(self.postfix@.take(i + 1).last() == self.postfix@[i as int]);
            let val = match self.postfix[i] {
                PostfixToken::And => {
                    if stack.len() < 2 {
                        proof {
                            lemma_run_fails_on(variables_v, vals@, self.postfix@, i + 1);
                        }
                        return None;
                    }
                    let b = stack.pop().unwrap();
                    let a = stack.pop().unwrap();
                    a && b
                },
                PostfixToken::Or => {
                    if stack.len() < 2 {
                        proof {
                            lemma_run_fails_on(variables_v, vals@, self.postfix@, i + 1);
                        }
                        return None;
                    }
                    let b = stack.pop().unwrap();
                    let a = stack.pop().unwrap();
                    a || b
                },
                PostfixToken::Not => {
                    if stack.len() < 1 {
                        proof {
                            lemma_run_fails_on(variables_v, vals@, self.postfix@, i + 1);
                        }
                        return None;
                    }
                    !stack.pop().unwrap()
                },
                PostfixToken::Const(v) => v,
                PostfixToken::Var(ch) => {
                    match self.var_index(ch) {
                        Some(k) => {
                            if k < vals.len() {
                                vals[k]
                            } else {
                                proof {
                            lemma_run_fails_on(variables_v, vals@, self.postfix@, i + 1);
                        }
                        return None;
                            }
                        },
                        None => {
                            proof {
                                lemma_run_fails_on(variables_v, vals@, self.postfix@, i + 1);
                            }
                            return None;
                        },
                    }
                },
            };
            stack.push(val);
            i = i + 1;
        }
        assert(self.postfix@.take(self.postfix@.len() as int) =~= self.postfix@);
        stack.pop()
    }
}

} // verus!
