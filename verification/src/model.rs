//! The mathematical model: which sums a multiset of weights can reach, and
//! what the optimum under a capacity is.

use vstd::prelude::*;

verus! {

/// A sequence is strictly increasing.
pub open spec fn increasing(s: Seq<usize>) -> bool {
    forall|i: int, j: int| 0 <= i < j < s.len() ==> s[i] < s[j]
}

/// The value `x` occurs somewhere in `s`.
pub open spec fn contains_val(s: Seq<usize>, x: int) -> bool {
    exists|i: int| 0 <= i < s.len() && s[i] as int == x
}

/// `s` is the sum of some subset of the weights `ws`.
pub open spec fn achievable(ws: Seq<usize>, s: int) -> bool
    decreases ws.len(),
{
    if ws.len() == 0 {
        s == 0
    } else {
        achievable(ws.drop_last(), s) || achievable(ws.drop_last(), s - ws.last())
    }
}

/// The optimum: the largest subset sum of `ws` that does not exceed `k`,
/// written as the classical dynamic-programming recurrence.
pub open spec fn opt(ws: Seq<usize>, k: int) -> int
    decreases ws.len(),
{
    if ws.len() == 0 {
        0
    } else {
        let w: int = ws.last() as int;
        let without: int = opt(ws.drop_last(), k);
        if w > k {
            without
        } else {
            let with: int = opt(ws.drop_last(), k - w) + w;
            if with > without {
                with
            } else {
                without
            }
        }
    }
}

/// One unfolding of `opt`: the textbook recurrence on the last weight.
pub proof fn lemma_opt_step(ws: Seq<usize>, k: int)
    requires
        ws.len() > 0,
    ensures
        ws.last() as int > k ==> opt(ws, k) == opt(ws.drop_last(), k),
        ws.last() as int <= k ==> opt(ws, k) == {
            let with: int = opt(ws.drop_last(), k - ws.last() as int) + ws.last() as int;
            let without: int = opt(ws.drop_last(), k);
            if with > without {
                with
            } else {
                without
            }
        },
{
}

/// Every achievable sum is non-negative, since every weight is.
pub proof fn lemma_achievable_nonneg(ws: Seq<usize>, s: int)
    requires
        achievable(ws, s),
    ensures
        s >= 0,
    decreases ws.len(),
{
    if ws.len() > 0 {
        if achievable(ws.drop_last(), s) {
            lemma_achievable_nonneg(ws.drop_last(), s);
        } else {
            lemma_achievable_nonneg(ws.drop_last(), s - ws.last());
        }
    }
}

/// The optimum lies between 0 and the capacity.
pub proof fn lemma_opt_bounds(ws: Seq<usize>, k: int)
    requires
        k >= 0,
    ensures
        0 <= opt(ws, k) <= k,
    decreases ws.len(),
{
    if ws.len() > 0 {
        let w: int = ws.last() as int;
        lemma_opt_bounds(ws.drop_last(), k);
        if w <= k {
            lemma_opt_bounds(ws.drop_last(), k - w);
        }
    }
}

/// The optimum is itself an achievable sum.
pub proof fn lemma_opt_achievable(ws: Seq<usize>, k: int)
    requires
        k >= 0,
    ensures
        achievable(ws, opt(ws, k)),
    decreases ws.len(),
{
    if ws.len() > 0 {
        let w: int = ws.last() as int;
        lemma_opt_achievable(ws.drop_last(), k);
        if w <= k {
            lemma_opt_achievable(ws.drop_last(), k - w);
        }
    }
}

/// No achievable sum within the capacity exceeds the optimum.
pub proof fn lemma_opt_is_max(ws: Seq<usize>, k: int, s: int)
    requires
        k >= 0,
        achievable(ws, s),
        s <= k,
    ensures
        s <= opt(ws, k),
    decreases ws.len(),
{
    if ws.len() > 0 {
        let w: int = ws.last() as int;
        if achievable(ws.drop_last(), s) {
            lemma_opt_is_max(ws.drop_last(), k, s);
        } else {
            lemma_achievable_nonneg(ws.drop_last(), s - w);
            // s - w >= 0 and s <= k force w <= k.
            lemma_opt_is_max(ws.drop_last(), k - w, s - w);
        }
    }
}

/// Inserting a value anywhere in a sequence inserts it into the multiset.
pub proof fn lemma_insert_to_multiset(s: Seq<usize>, i: int, w: usize)
    requires
        0 <= i <= s.len(),
    ensures
        s.insert(i, w).to_multiset() == s.to_multiset().insert(w),
{
    broadcast use vstd::seq_lib::group_to_multiset_ensures;

    let t = s.insert(i, w);
    assert(t.remove(i) =~= s);
    assert(t[i] == w);
    assert(t.contains(w));
    assert(t.to_multiset().count(w) > 0);
    assert(t.to_multiset() =~= s.to_multiset().insert(w));
}

/// A sum is achievable from a sequence with `w` inserted anywhere exactly
/// when, from the original sequence, either it or its difference with `w`
/// is achievable.
pub proof fn lemma_achievable_insert(ws: Seq<usize>, i: int, w: usize, s: int)
    requires
        0 <= i <= ws.len(),
    ensures
        achievable(ws.insert(i, w), s) <==> (achievable(ws, s) || achievable(ws, s - w as int)),
    decreases ws.len(),
{
    let t = ws.insert(i, w);
    if i == ws.len() {
        assert(t =~= ws.push(w));
        assert(t.drop_last() =~= ws);
        assert(t.last() == w);
    } else {
        assert(t.last() == ws.last());
        assert(t.drop_last() =~= ws.drop_last().insert(i, w));
        lemma_achievable_insert(ws.drop_last(), i, w, s);
        lemma_achievable_insert(ws.drop_last(), i, w, s - ws.last() as int);
    }
}

/// Achievability depends only on the multiset of weights, not their order.
pub proof fn lemma_achievable_permutation(ws1: Seq<usize>, ws2: Seq<usize>, s: int)
    requires
        ws1.to_multiset() == ws2.to_multiset(),
    ensures
        achievable(ws1, s) == achievable(ws2, s),
    decreases ws1.len(),
{
    broadcast use vstd::seq_lib::group_to_multiset_ensures;

    if ws1.len() == 0 {
        assert(ws2.len() == ws2.to_multiset().len());
    } else {
        let x: usize = ws1.last();
        assert(ws1[ws1.len() - 1] == x);
        assert(ws1.contains(x));
        assert(ws2.to_multiset().count(x) > 0);
        assert(ws2.contains(x));
        let j: int = choose|j: int| 0 <= j < ws2.len() && ws2[j] == x;
        let rest2 = ws2.remove(j);
        assert(rest2.to_multiset() == ws2.to_multiset().remove(x));
        assert(ws1.drop_last() =~= ws1.remove(ws1.len() - 1));
        assert(ws1.remove(ws1.len() - 1).to_multiset() == ws1.to_multiset().remove(x));
        assert(rest2.to_multiset() == ws1.drop_last().to_multiset());
        lemma_achievable_permutation(ws1.drop_last(), rest2, s);
        lemma_achievable_permutation(ws1.drop_last(), rest2, s - x as int);
        assert(rest2.insert(j, x) =~= ws2);
        lemma_achievable_insert(rest2, j, x, s);
    }
}

/// In a strictly increasing sequence the value at an index is at least the
/// index.
pub proof fn lemma_increasing_index_bound(s: Seq<usize>, j: int)
    requires
        increasing(s),
        0 <= j < s.len(),
    ensures
        s[j] as int >= j,
    decreases j,
{
    if j > 0 {
        lemma_increasing_index_bound(s, j - 1);
        assert(s[j - 1] < s[j]);
    }
}

/// `s` is a subsequence of `t`: the elements of `s` appear in `t`, in order.
pub open spec fn is_subsequence_of(s: Seq<usize>, t: Seq<usize>) -> bool
    decreases s.len() + t.len(),
{
    if s.len() == 0 {
        true
    } else if t.len() == 0 {
        false
    } else if s.first() == t.first() {
        is_subsequence_of(s.drop_first(), t.drop_first())
    } else {
        is_subsequence_of(s, t.drop_first())
    }
}

/// Between strictly increasing sequences, containment of values is enough:
/// the shared order makes the contained one a subsequence.
pub proof fn lemma_increasing_subset_is_subsequence(s: Seq<usize>, t: Seq<usize>)
    requires
        increasing(s),
        increasing(t),
        forall|x: int| contains_val(s, x) ==> contains_val(t, x),
    ensures
        is_subsequence_of(s, t),
    decreases t.len(),
{
    if s.len() == 0 {
    } else if t.len() == 0 {
        assert(contains_val(s, s[0] as int));
        assert(false);
    } else if s.first() == t.first() {
        let sd = s.drop_first();
        let td = t.drop_first();
        assert forall|x: int| contains_val(sd, x) implies contains_val(td, x) by {
            let xi: int = choose|xi: int| 0 <= xi < sd.len() && sd[xi] as int == x;
            assert(s[xi + 1] as int == x);
            assert(s[0] < s[xi + 1]);
            assert(contains_val(s, x));
            let ti: int = choose|ti: int| 0 <= ti < t.len() && t[ti] as int == x;
            assert(ti != 0);
            assert(td[ti - 1] as int == x);
        }
        assert(increasing(sd)) by {
            assert forall|i: int, j: int| 0 <= i < j < sd.len() implies sd[i] < sd[j] by {
                assert(s[i + 1] < s[j + 1]);
            }
        }
        assert(increasing(td)) by {
            assert forall|i: int, j: int| 0 <= i < j < td.len() implies td[i] < td[j] by {
                assert(t[i + 1] < t[j + 1]);
            }
        }
        lemma_increasing_subset_is_subsequence(sd, td);
    } else {
        let td = t.drop_first();
        assert(contains_val(s, s[0] as int));
        let ti: int = choose|ti: int| 0 <= ti < t.len() && t[ti] as int == s[0] as int;
        assert(ti != 0);
        assert forall|x: int| contains_val(s, x) implies contains_val(td, x) by {
            let xi: int = choose|xi: int| 0 <= xi < s.len() && s[xi] as int == x;
            if xi > 0 {
                assert(s[0] < s[xi]);
            }
            let tj: int = choose|tj: int| 0 <= tj < t.len() && t[tj] as int == x;
            assert(t[0] < t[ti]);
            assert(tj != 0);
            assert(td[tj - 1] as int == x);
        }
        assert(increasing(td)) by {
            assert forall|i: int, j: int| 0 <= i < j < td.len() implies td[i] < td[j] by {
                assert(t[i + 1] < t[j + 1]);
            }
        }
        lemma_increasing_subset_is_subsequence(s, td);
    }
}

/// Two strictly increasing sequences over the same set of values are the
/// same sequence: the order leaves no choice in how to arrange them.
pub proof fn lemma_increasing_same_values_equal(s: Seq<usize>, t: Seq<usize>)
    requires
        increasing(s),
        increasing(t),
        forall|x: int| contains_val(s, x) <==> contains_val(t, x),
    ensures
        s == t,
    decreases s.len(),
{
    if s.len() == 0 {
        if t.len() > 0 {
            assert(contains_val(t, t[0] as int));
            assert(false);
        }
        assert(s =~= t);
    } else {
        assert(contains_val(s, s[0] as int));
        if t.len() == 0 {
            assert(false);
        }
        let ti: int = choose|ti: int| 0 <= ti < t.len() && t[ti] as int == s[0] as int;
        if ti > 0 {
            assert(t[0] < t[ti]);
        }
        assert(contains_val(t, t[0] as int));
        let si: int = choose|si: int| 0 <= si < s.len() && s[si] as int == t[0] as int;
        if si > 0 {
            assert(s[0] < s[si]);
        }
        assert(s[0] == t[0]);
        let sd = s.drop_first();
        let td = t.drop_first();
        assert(increasing(sd)) by {
            assert forall|i: int, j: int| 0 <= i < j < sd.len() implies sd[i] < sd[j] by {
                assert(s[i + 1] < s[j + 1]);
            }
        }
        assert(increasing(td)) by {
            assert forall|i: int, j: int| 0 <= i < j < td.len() implies td[i] < td[j] by {
                assert(t[i + 1] < t[j + 1]);
            }
        }
        assert forall|x: int| contains_val(sd, x) == contains_val(td, x) by {
            if contains_val(sd, x) {
                let xi: int = choose|xi: int| 0 <= xi < sd.len() && sd[xi] as int == x;
                assert(s[xi + 1] as int == x);
                assert(s[0] < s[xi + 1]);
                assert(contains_val(s, x));
                let tj: int = choose|tj: int| 0 <= tj < t.len() && t[tj] as int == x;
                assert(tj != 0);
                assert(td[tj - 1] as int == x);
            }
            if contains_val(td, x) {
                let xi: int = choose|xi: int| 0 <= xi < td.len() && td[xi] as int == x;
                assert(t[xi + 1] as int == x);
                assert(t[0] < t[xi + 1]);
                assert(contains_val(t, x));
                let sj: int = choose|sj: int| 0 <= sj < s.len() && s[sj] as int == x;
                assert(sj != 0);
                assert(sd[sj - 1] as int == x);
            }
        }
        lemma_increasing_same_values_equal(sd, td);
        assert(s.len() == t.len());
        assert forall|idx: int| 0 <= idx < s.len() implies s[idx] == t[idx] by {
            if idx > 0 {
                assert(s[idx] == sd[idx - 1]);
                assert(t[idx] == td[idx - 1]);
            }
        }
        assert(s =~= t);
    }
}

/// A value occurring in a sequence of machine integers is non-negative.
pub proof fn lemma_contains_nonneg(s: Seq<usize>, x: int)
    requires
        contains_val(s, x),
    ensures
        x >= 0,
{
    let i: int = choose|i: int| 0 <= i < s.len() && s[i] as int == x;
    assert(s[i] >= 0);
}

/// A sequence is sorted in non-increasing order.
pub open spec fn sorted_desc(s: Seq<usize>) -> bool {
    forall|i: int, j: int| 0 <= i < j < s.len() ==> s[i] >= s[j]
}

/// Insert `w` into a non-increasing sequence, keeping it sorted: `w` goes
/// in front of the first element it is not smaller than.
pub open spec fn insert_desc(s: Seq<usize>, w: usize) -> Seq<usize>
    decreases s.len(),
{
    if s.len() == 0 {
        seq![w]
    } else if w >= s.first() {
        seq![w] + s
    } else {
        seq![s.first()] + insert_desc(s.drop_first(), w)
    }
}

/// The non-increasing insertion sort of a sequence.
pub open spec fn sort_desc(s: Seq<usize>) -> Seq<usize>
    decreases s.len(),
{
    if s.len() == 0 {
        Seq::empty()
    } else {
        insert_desc(sort_desc(s.drop_last()), s.last())
    }
}

/// Sorted insertion keeps the order, adds one element, and adds exactly
/// that element to the multiset.
pub proof fn lemma_insert_desc(s: Seq<usize>, w: usize)
    requires
        sorted_desc(s),
    ensures
        sorted_desc(insert_desc(s, w)),
        insert_desc(s, w).to_multiset() == s.to_multiset().insert(w),
        insert_desc(s, w).len() == s.len() + 1,
        insert_desc(s, w).first() == (if s.len() == 0 || w >= s.first() {
            w
        } else {
            s.first()
        }),
    decreases s.len(),
{
    let t = insert_desc(s, w);
    if s.len() == 0 {
        assert(s =~= Seq::<usize>::empty());
        assert(t =~= Seq::<usize>::empty().insert(0, w));
        lemma_insert_to_multiset(Seq::<usize>::empty(), 0, w);
    } else if w >= s.first() {
        assert(t =~= s.insert(0, w));
        lemma_insert_to_multiset(s, 0, w);
    } else {
        let rest = insert_desc(s.drop_first(), w);
        lemma_insert_desc(s.drop_first(), w);
        assert(rest[0] <= s[0]);
        assert forall|i: int, j: int| 0 <= i < j < t.len() implies t[i] >= t[j] by {
            if i > 0 {
                assert(t[i] == rest[i - 1] && t[j] == rest[j - 1]);
            } else {
                assert(t[j] == rest[j - 1]);
                if j > 1 {
                    assert(rest[0] >= rest[j - 1]);
                }
            }
        }
        assert(t =~= rest.insert(0, s.first()));
        lemma_insert_to_multiset(rest, 0, s.first());
        assert(s =~= s.drop_first().insert(0, s.first()));
        lemma_insert_to_multiset(s.drop_first(), 0, s.first());
        assert(t.to_multiset() =~= s.to_multiset().insert(w));
    }
}

/// Inserting at the position an exec scan finds is sorted insertion.
pub proof fn lemma_insert_position(s: Seq<usize>, w: usize, j: int)
    requires
        sorted_desc(s),
        0 <= j <= s.len(),
        forall|m: int| 0 <= m < j ==> s[m] > w,
        j < s.len() ==> s[j] <= w,
    ensures
        s.insert(j, w) == insert_desc(s, w),
    decreases s.len(),
{
    if j == 0 {
        if s.len() == 0 {
            assert(s.insert(0, w) =~= seq![w]);
        } else {
            assert(s.insert(0, w) =~= seq![w] + s);
        }
    } else {
        lemma_insert_position(s.drop_first(), w, j - 1);
        assert(s.insert(j, w) =~= seq![s.first()] + s.drop_first().insert(j - 1, w));
    }
}

/// The insertion sort of a sequence is sorted and a permutation of it.
pub proof fn lemma_sort_desc(s: Seq<usize>)
    ensures
        sorted_desc(sort_desc(s)),
        sort_desc(s).to_multiset() == s.to_multiset(),
        sort_desc(s).len() == s.len(),
    decreases s.len(),
{
    broadcast use vstd::seq_lib::group_to_multiset_ensures;

    if s.len() > 0 {
        lemma_sort_desc(s.drop_last());
        lemma_insert_desc(sort_desc(s.drop_last()), s.last());
        assert(s =~= s.drop_last().push(s.last()));
    }
}

/// What the greedy scan returns: walk the weights in order with running
/// total `g`, adding each weight that still fits under `k`.
pub open spec fn greedy_from(ws: Seq<usize>, k: int, g: int) -> int
    decreases ws.len(),
{
    if ws.len() == 0 {
        g
    } else if g + ws.first() as int <= k {
        greedy_from(ws.drop_first(), k, g + ws.first() as int)
    } else {
        greedy_from(ws.drop_first(), k, g)
    }
}

} // verus!
