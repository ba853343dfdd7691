//! Properties that relate compilation and evaluation.
use vstd::prelude::*;

use crate::function::{ascending, eval_spec, lemma_run_completes, Function};
use crate::parse::{lemma_scan_well_sequenced, parsed_as, scan, tokenize, InfixToken, ParseError};
use crate::syntax::{
    build, follows_precedence, lemma_build, lemma_compiled_tree, lemma_to_postfix_is_postorder,
    postorder, tokens, value, Expr,
};
use crate::translate::lemma_to_postfix_sound;

verus! {

/// Two ascending lists with the same elements are the same list.
proof fn lemma_ascending_unique(a: Seq<char>, b: Seq<char>)
    requires
        ascending(a),
        ascending(b),
        a.to_set() == b.to_set(),
    ensures
        a == b,
    decreases a.len(),
{
    if a.len() == 0 {
        if b.len() > 0 {
            assert(b.to_set().contains(b[0]));
        }
        assert(a =~= b);
    } else {
        assert(a.to_set().contains(a[0]));
        assert(b.len() > 0);
        assert(b.to_set().contains(b[0]));
        let i = choose|i: int| 0 <= i < b.len() && b[i] == a[0];
        let j = choose|j: int| 0 <= j < a.len() && a[j] == b[0];
        assert(a[0] == b[0]) by {
            if i > 0 {
                assert(b[0] < b[i]);
            }
            if j > 0 {
                assert(a[0] < a[j]);
            }
        }
        let a2 = a.drop_first();
        let b2 = b.drop_first();
        assert(a2.to_set() =~= b2.to_set()) by {
            assert forall|x: char| a2.to_set().contains(x) implies b2.to_set().contains(x) by {
                let k = choose|k: int| 0 <= k < a2.len() && a2[k] == x;
                assert(a[k + 1] == x);
                assert(b.to_set().contains(x));
                let m = choose|m: int| 0 <= m < b.len() && b[m] == x;
                if m == 0 {
                    assert(a[0] < a[k + 1]);
                }
                assert(b2[m - 1] == x);
            }
            assert forall|x: char| b2.to_set().contains(x) implies a2.to_set().contains(x) by {
                let k = choose|k: int| 0 <= k < b2.len() && b2[k] == x;
                assert(b[k + 1] == x);
                assert(a.to_set().contains(x));
                let m = choose|m: int| 0 <= m < a.len() && a[m] == x;
                if m == 0 {
                    assert(b[0] < b[k + 1]);
                }
                assert(a2[m - 1] == x);
            }
        }
        lemma_ascending_unique(a2, b2);
        assert(a =~= b) by {
            assert forall|k: int| 0 <= k < a.len() implies a[k] == b[k] by {
                if k > 0 {
                    assert(a[k] == a2[k - 1]);
                    assert(b[k] == b2[k - 1]);
                }
            }
        }
    }
}

/// Compiling is deterministic: two compilations of the same text give the
/// same variables and program, or the same error.
pub proof fn lemma_parse_deterministic(
    s: Seq<char>,
    r1: Result<Function, ParseError>,
    r2: Result<Function, ParseError>,
)
    requires
        parsed_as(s, r1),
        parsed_as(s, r2),
    ensures
        match (r1, r2) {
            (Ok(f1), Ok(f2)) => f1.variables@ == f2.variables@ && f1.postfix@ == f2.postfix@,
            (Err(e1), Err(e2)) => e1 == e2,
            _ => false,
        },
{
    if let (Ok(f1), Ok(f2)) = (r1, r2) {
        lemma_ascending_unique(f1.variables@, f2.variables@);
    }
}

/// A compiled formula evaluates to a value under every assignment that
/// gives each of its variables a value.
pub proof fn lemma_eval_total(s: Seq<char>, f: Function, vals: Seq<bool>)
    requires
        parsed_as(s, Ok(f)),
        vals.len() >= f.variables@.len(),
    ensures
        eval_spec(f.variables@, vals, f.postfix@) is Some,
{
    let ts = tokenize(s)->Ok_0;
    lemma_scan_well_sequenced(s);
    assert(scan(s)->Ok_0 == ts);
    lemma_to_postfix_sound(ts);
    lemma_build(ts);
    lemma_to_postfix_is_postorder(build(ts));
    lemma_run_completes(f.variables@, vals, f.postfix@);
}

/// Compiling a text that reads as a tree under the precedence rules gives
/// that tree's postorder walk, which evaluates to the tree's value.
pub proof fn lemma_parse_follows_tree(s: Seq<char>, f: Function, e: Expr, vals: Seq<bool>)
    requires
        parsed_as(s, Ok(f)),
        tokenize(s) == Ok::<Seq<InfixToken>, ParseError>(tokens(e)),
        follows_precedence(e),
    ensures
        f.postfix@ == postorder(e),
        eval_spec(f.variables@, vals, f.postfix@) == value(e, f.variables@, vals),
{
    let ts = tokens(e);
    lemma_scan_well_sequenced(s);
    assert(scan(s)->Ok_0 == ts);
    lemma_build(ts);
    lemma_to_postfix_is_postorder(build(ts));
    lemma_compiled_tree(e, f.variables@, vals);
}

} // verus!
