use vstd::prelude::*;

use crate::bool_iterator::{row, two_to, BoolIterator};
use crate::function::{eval_spec, Function};

verus! {

/// The rows of the truth table of a formula with `n` variables: the
/// assignments in the order [`BoolIterator`] gives them, each read with its
/// last value for the first variable.
pub open spec fn table_row(n: nat, k: nat) -> Seq<bool> {
    row(n, k).reverse()
}

fn reversed(v: &Vec<bool>) -> (r: Vec<bool>)
    ensures
        r@ == v@.reverse(),
{
    let mut r: Vec<bool> = Vec::with_capacity(v.len());
    let mut i: usize = v.len();
    while i > 0
        invariant
            i <= v@.len(),
            r@ == v@.subrange(i as int, v@.len() as int).reverse(),
        decreases i,
    {
        i = i - 1;
        r.push(v[i]);
        assert(r@ =~= v@.subrange(i as int, v@.len() as int).reverse());
    }
    assert(v@.subrange(0, v@.len() as int) =~= v@);
    r
}

/// The truth table of a formula: one row per assignment of its variables,
/// with what evaluating the formula there gives. A formula without variables
/// has no rows.
pub fn truth_table(func: &Function) -> (r: Vec<(Vec<bool>, Option<bool>)>)
    requires
        func.variables@.len() < 32,
    ensures
        r@.len() == if func.variables@.len() == 0 {
            0
        } else {
            two_to(func.variables@.len())
        },
        forall|k: int|
            0 <= k < r@.len() ==> {
                &&& (#[trigger] r@[k]).0@ == table_row(func.variables@.len(), k as nat)
                &&& eval_spec(func.variables@, r@[k].0@, func.postfix@) == r@[k].1
            },
{
    let n = func.variables.len();
    let ghost n_spec = func.variables@.len();
    let mut iter = BoolIterator::new(n as u8);
    let mut rows: Vec<(Vec<bool>, Option<bool>)> = Vec::new();
    loop
        invariant_except_break
            iter.wf(),
            iter.width_spec() == n_spec,
            n_spec == func.variables@.len(),
            n_spec < 32,
            rows@.len() == iter.position(),
            iter.position() <= two_to(n_spec),
            n_spec == 0 ==> iter.position() == 0,
            forall|k: int|
                0 <= k < rows@.len() ==> {
                    &&& (#[trigger] rows@[k]).0@ == table_row(n_spec, k as nat)
                    &&& eval_spec(func.variables@, rows@[k].0@, func.postfix@) == rows@[k].1
                },
        ensures
            rows@.len() == if n_spec == 0 {
                0
            } else {
                two_to(n_spec)
            },
            forall|k: int|
                0 <= k < rows@.len() ==> {
                    &&& (#[trigger] rows@[k]).0@ == table_row(n_spec, k as nat)
                    &&& eval_spec(func.variables@, rows@[k].0@, func.postfix@) == rows@[k].1
                },
        decreases two_to(n_spec) - iter.position(),
    {
        match iter.next() {
            Some(values) => {
                let values = reversed(&values);
                let value = func.eval(&values);
                rows.push((values, value));
            },
            None => break,
        }
    }
    rows
}

} // verus!
