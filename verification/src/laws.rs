//! The laws the solvers obey, stated over the same spec functions their
//! contracts use, so a caller can combine results of different solvers.

use crate::lists::trim_spec;
use crate::model::{
    contains_val, greedy_from, increasing, lemma_increasing_same_values_equal, opt, sort_desc,
};
use crate::solvers::fptas_list;
use vstd::prelude::*;

verus! {

/// The two exact solvers agree on every valid instance: the contracts of
/// `dynamic` and `exhaustive` both pin their result to `opt(ws, k)`, so any
/// two results they return for the same instance are equal.
pub proof fn lemma_exact_solvers_agree(ws: Seq<usize>, k: int, r_dynamic: int, r_exhaustive: int)
    requires
        r_dynamic == opt(ws, k),
        r_exhaustive == opt(ws, k),
    ensures
        r_dynamic == r_exhaustive,
{
}

/// Determinism of the greedy heuristic: its contract pins the result to the
/// greedy scan of the sorted weights, so two runs on the same instance
/// return the same value.  (For the exact solvers the same follows from
/// `lemma_exact_solvers_agree`: each run returns `opt`.)
pub proof fn lemma_greedy_deterministic(ws: Seq<usize>, k: int, r1: int, r2: int)
    requires
        r1 == greedy_from(sort_desc(ws), k, 0),
        r2 == greedy_from(sort_desc(ws), k, 0),
    ensures
        r1 == r2,
{
}

/// Determinism of the approximation solver: its contract pins the result
/// to the last element of the merge-and-trim pipeline over its inputs.
pub proof fn lemma_fptas_deterministic(
    ws: Seq<usize>,
    k: int,
    num: int,
    den: int,
    r1: int,
    r2: int,
)
    requires
        r1 == fptas_list(ws, k, num, den).last() as int,
        r2 == fptas_list(ws, k, num, den).last() as int,
    ensures
        r1 == r2,
{
}

/// Determinism of the merge primitive: its contract fixes the set of listed
/// values and that they ascend, and an ascending sequence is determined by
/// its set of values, so two results for the same inputs are equal.
pub proof fn lemma_merge_deterministic(r1: Seq<usize>, r2: Seq<usize>)
    requires
        increasing(r1),
        increasing(r2),
        forall|x: int| contains_val(r1, x) <==> contains_val(r2, x),
    ensures
        r1 == r2,
{
    lemma_increasing_same_values_equal(r1, r2);
}

/// Determinism of the trim primitive: its contract pins the result to
/// `trim_spec` of the inputs.
pub proof fn lemma_trim_deterministic(
    a: Seq<usize>,
    num: int,
    den: int,
    r1: Seq<usize>,
    r2: Seq<usize>,
)
    requires
        r1 == trim_spec(a, num, den),
        r2 == trim_spec(a, num, den),
    ensures
        r1 == r2,
{
}

} // verus!
