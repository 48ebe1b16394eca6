//! The two list primitives the solvers share: merging an ascending sequence
//! of sums with its shifted copy under a capacity, and trimming an ascending
//! sequence to a sparse subsequence within a multiplicative ratio.

use crate::model::{
    contains_val, increasing, is_subsequence_of, lemma_increasing_index_bound,
    lemma_increasing_same_values_equal, lemma_increasing_subset_is_subsequence,
};
use vstd::prelude::*;

verus! {

/// `x` occurs in `s.push(v)` exactly when it occurs in `s` or equals `v`.
proof fn lemma_contains_push(s: Seq<usize>, v: usize, x: int)
    ensures
        contains_val(s.push(v), x) <==> (contains_val(s, x) || x == v as int),
{
    let t = s.push(v);
    if contains_val(t, x) {
        let i: int = choose|i: int| 0 <= i < t.len() && t[i] as int == x;
        if i < s.len() {
            assert(s[i] as int == x);
        } else {
            assert(t[i] == v);
        }
    }
    if contains_val(s, x) {
        let i: int = choose|i: int| 0 <= i < s.len() && s[i] as int == x;
        assert(t[i] as int == x);
    }
    if x == v as int {
        assert(t[s.len() as int] as int == x);
    }
}

/// `r` is the merge of `s` with its copy shifted up by `e`, capped at `k`:
/// ascending, and holding exactly the values `x` with `0 <= x <= k` such
/// that `x` or `x - e` occurs in `s`.
pub open spec fn is_merged(r: Seq<usize>, s: Seq<usize>, e: int, k: int) -> bool {
    increasing(r) && forall|x: int|
        contains_val(r, x) <==> ((contains_val(s, x) || contains_val(s, x - e)) && 0 <= x <= k)
}

/// The merged list as a value.  Exactly one ascending sequence holds any
/// given set of values, so `is_merged` determines it.
pub open spec fn merge_spec(s: Seq<usize>, e: int, k: int) -> Seq<usize> {
    choose|r: Seq<usize>| is_merged(r, s, e, k)
}

/// Merge an ascending sequence `a` with its copy shifted up by `e`, drop
/// every value above `k`, and return the ascending, duplicate-free result.
///
/// The result holds exactly the values `x` with `0 <= x <= k` such that `x`
/// or `x - e` occurs in `a`.
pub fn merge_sort_and_filter(a: &Vec<usize>, e: usize, k: usize) -> (r: Vec<usize>)
    requires
        increasing(a@),
        forall|i: int| 0 <= i < a@.len() ==> a@[i] <= k,
    ensures
        increasing(r@),
        forall|i: int| 0 <= i < r@.len() ==> r@[i] <= k,
        forall|x: int|
            contains_val(r@, x) <==> ((contains_val(a@, x) || contains_val(a@, x - e as int))
                && 0 <= x <= k),
        a@.len() > 0 ==> r@.len() > 0 && r@[0] == a@[0],
        r@.len() <= 2 * a@.len(),
        r@.len() <= k as int + 1,
        r@ == merge_spec(a@, e as int, k as int),
{
    let n: usize = a.len();
    let mut r: Vec<usize> = Vec::new();
    let mut ai: usize = 0;
    let mut bi: usize = 0;
    while ai < n || (bi < n && e <= k && a[bi] <= k - e)
        invariant
            n == a@.len(),
            increasing(a@),
            forall|i: int| 0 <= i < a@.len() ==> a@[i] <= k,
            bi <= ai <= n,
            r@.len() <= ai + bi,
            increasing(r@),
            forall|i: int| 0 <= i < r@.len() ==> r@[i] <= k,
            forall|j: int|
                0 <= j < r@.len() && ai < n ==> (r@[j] as int) < a@[ai as int] as int,
            forall|j: int|
                0 <= j < r@.len() && bi < n ==> (r@[j] as int) < a@[bi as int] as int + e as int,
            forall|x: int|
                contains_val(r@, x) <==> ((contains_val(a@.take(ai as int), x) || contains_val(
                    a@.take(bi as int),
                    x - e as int,
                )) && 0 <= x <= k),
            r@.len() == 0 ==> ai == 0 && bi == 0,
            r@.len() > 0 ==> r@[0] == a@[0],
        decreases 2 * n - ai - bi,
    {
        let b_live: bool = bi < n && e <= k && a[bi] <= k - e;
        let ghost old_r = r@;
        if ai < n && b_live {
            let av: usize = a[ai];
            let bv: usize = a[bi] + e;
            if av < bv {
                r.push(av);
                ai = ai + 1;
                proof {
                    assert(a@.take(ai as int) =~= a@.take(ai as int - 1).push(av));
                    assert forall|x: int|
                        contains_val(r@, x) == ((contains_val(a@.take(ai as int), x)
                            || contains_val(a@.take(bi as int), x - e as int)) && 0 <= x
                            <= k) by {
                        lemma_contains_push(old_r, av, x);
                        lemma_contains_push(a@.take(ai as int - 1), av, x);
                    }
                }
            } else if av == bv {
                r.push(av);
                ai = ai + 1;
                bi = bi + 1;
                proof {
                    assert(a@.take(ai as int) =~= a@.take(ai as int - 1).push(av));
                    assert(a@.take(bi as int) =~= a@.take(bi as int - 1).push((bv - e) as usize));
                    assert forall|x: int|
                        contains_val(r@, x) == ((contains_val(a@.take(ai as int), x)
                            || contains_val(a@.take(bi as int), x - e as int)) && 0 <= x
                            <= k) by {
                        lemma_contains_push(old_r, av, x);
                        lemma_contains_push(a@.take(ai as int - 1), av, x);
                        lemma_contains_push(a@.take(bi as int - 1), (bv - e) as usize, x - e as int);
                    }
                }
            } else {
                r.push(bv);
                bi = bi + 1;
                proof {
                    assert(a@.take(bi as int) =~= a@.take(bi as int - 1).push((bv - e) as usize));
                    assert forall|x: int|
                        contains_val(r@, x) == ((contains_val(a@.take(ai as int), x)
                            || contains_val(a@.take(bi as int), x - e as int)) && 0 <= x
                            <= k) by {
                        lemma_contains_push(old_r, bv, x);
                        lemma_contains_push(a@.take(bi as int - 1), (bv - e) as usize, x - e as int);
                    }
                }
            }
        } else if ai < n {
            let av: usize = a[ai];
            r.push(av);
            ai = ai + 1;
            proof {
                assert(a@.take(ai as int) =~= a@.take(ai as int - 1).push(av));
                assert forall|x: int|
                    contains_val(r@, x) == ((contains_val(a@.take(ai as int), x) || contains_val(
                        a@.take(bi as int),
                        x - e as int,
                    )) && 0 <= x <= k) by {
                    lemma_contains_push(old_r, av, x);
                    lemma_contains_push(a@.take(ai as int - 1), av, x);
                }
            }
        } else {
            let bv: usize = a[bi] + e;
            r.push(bv);
            bi = bi + 1;
            proof {
                assert(a@.take(bi as int) =~= a@.take(bi as int - 1).push((bv - e) as usize));
                assert forall|x: int|
                    contains_val(r@, x) == ((contains_val(a@.take(ai as int), x) || contains_val(
                        a@.take(bi as int),
                        x - e as int,
                    )) && 0 <= x <= k) by {
                    lemma_contains_push(old_r, bv, x);
                    lemma_contains_push(a@.take(bi as int - 1), (bv - e) as usize, x - e as int);
                }
            }
        }
    }
    proof {
        assert(a@.take(ai as int) =~= a@);
        assert forall|y: int|
            contains_val(a@, y) && 0 <= y + e as int <= k implies contains_val(
            a@.take(bi as int),
            y,
        ) by {
            let i: int = choose|i: int| 0 <= i < a@.len() && a@[i] as int == y;
            if i >= bi {
                if i > bi {
                    assert(a@[bi as int] < a@[i]);
                }
                assert(false);
            }
        }
        if r@.len() > 0 {
            lemma_increasing_index_bound(r@, r@.len() - 1);
        }
        assert(is_merged(r@, a@, e as int, k as int));
        let picked = merge_spec(a@, e as int, k as int);
        assert(is_merged(picked, a@, e as int, k as int));
        lemma_increasing_same_values_equal(r@, picked);
    }
    r
}

/// What is kept of `s` when scanning left to right with `last` as the most
/// recently retained value: an element stays only if it exceeds `last` by
/// more than the ratio `num / den`.
pub open spec fn trim_rec(s: Seq<usize>, num: int, den: int, last: int) -> Seq<usize>
    decreases s.len(),
{
    if s.len() == 0 {
        Seq::empty()
    } else if (s.first() as int) * den > last * num {
        seq![s.first()] + trim_rec(s.drop_first(), num, den, s.first() as int)
    } else {
        trim_rec(s.drop_first(), num, den, last)
    }
}

/// The trimmed form of a non-empty ascending sequence: its first element,
/// then every later element exceeding `num / den` times the one retained
/// before it.
pub open spec fn trim_spec(s: Seq<usize>, num: int, den: int) -> Seq<usize> {
    seq![s.first()] + trim_rec(s.drop_first(), num, den, s.first() as int)
}

/// Some retained value `z` stands for `x`: `z` is at most `x`, and `x` is
/// within the ratio `num / den` of `z`.
pub open spec fn covered(r: Seq<usize>, x: int, num: int, den: int) -> bool {
    exists|z: int| contains_val(r, z) && z <= x && x * den <= z * num
}

/// Each element after the first exceeds `num / den` times its predecessor.
pub open spec fn ratio_gapped(r: Seq<usize>, num: int, den: int) -> bool {
    forall|j: int| 1 <= j < r.len() ==> ((#[trigger] r[j]) as int) * den > (r[j - 1] as int) * num
}

/// A product of two values that fit in 64 bits fits in 128 bits.
proof fn lemma_u128_mul_bound(x: u128, y: u128)
    requires
        x <= 0xffff_ffff_ffff_ffff,
        y <= 0xffff_ffff_ffff_ffff,
    ensures
        (x as int) * (y as int) <= 0xffff_ffff_ffff_ffff_ffff_ffff_ffff_ffff,
        (x as int) * (y as int) >= 0,
{
    assert((x as int) * (y as int) <= 0xffff_ffff_ffff_ffff * 0xffff_ffff_ffff_ffff
        && (x as int) * (y as int) >= 0) by (nonlinear_arith)
        requires
            0 <= x as int <= 0xffff_ffff_ffff_ffff,
            0 <= y as int <= 0xffff_ffff_ffff_ffff,
    ;
}

/// Compress an ascending sequence, keeping its first element and afterwards
/// only elements that exceed `num / den` times the last kept one.
///
/// Every input element is covered by a kept element within the ratio, so the
/// result still represents the whole input up to relative error `num / den`.
pub fn trim(a: &Vec<usize>, ratio_num: usize, ratio_den: usize) -> (r: Vec<usize>)
    requires
        a@.len() >= 1,
        increasing(a@),
        ratio_num > ratio_den,
        ratio_den >= 1,
    ensures
        r@ == trim_spec(a@, ratio_num as int, ratio_den as int),
        increasing(r@),
        r@.len() >= 1,
        r@[0] == a@[0],
        forall|x: int| contains_val(r@, x) ==> contains_val(a@, x),
        ratio_gapped(r@, ratio_num as int, ratio_den as int),
        forall|x: int|
            contains_val(a@, x) ==> covered(r@, x, ratio_num as int, ratio_den as int),
        is_subsequence_of(r@, a@),
{
    let ghost num: int = ratio_num as int;
    let ghost den: int = ratio_den as int;
    let mut r: Vec<usize> = Vec::new();
    let mut last: usize = a[0];
    r.push(last);
    proof {
        assert(r@[0] as int == a@[0] as int);
        assert(contains_val(r@, a@[0] as int));
        assert(a@.take(1)[0] as int == a@[0] as int);
        assert(contains_val(a@.take(1), a@[0] as int));
        assert((a@[0] as int) * den <= (a@[0] as int) * num) by (nonlinear_arith)
            requires
                num > den >= 1,
                a@[0] as int >= 0,
        ;
        assert forall|x: int| contains_val(a@.take(1), x) implies covered(r@, x, num, den) by {
            let xi: int = choose|xi: int| 0 <= xi < a@.take(1).len() && a@.take(1)[xi] as int == x;
            assert(xi == 0);
            assert(x == a@[0] as int);
        }
        assert(a@.skip(1) =~= a@.drop_first());
        assert(r@ =~= seq![a@.first()]);
    }
    let mut i: usize = 1;
    while i < a.len()
        invariant
            1 <= i <= a@.len(),
            increasing(a@),
            num == ratio_num as int,
            den == ratio_den as int,
            num > den >= 1,
            r@.len() >= 1,
            r@[0] == a@[0],
            last == r@[r@.len() - 1],
            contains_val(a@.take(i as int), last as int),
            increasing(r@),
            forall|x: int| contains_val(r@, x) ==> contains_val(a@.take(i as int), x),
            ratio_gapped(r@, num, den),
            forall|x: int| contains_val(a@.take(i as int), x) ==> covered(r@, x, num, den),
            trim_spec(a@, num, den) == r@ + trim_rec(a@.skip(i as int), num, den, last as int),
        decreases a@.len() - i,
    {
        let ghost old_r = r@;
        let ghost old_last = last;
        let v: usize = a[i];
        proof {
            lemma_u128_mul_bound(v as u128, ratio_den as u128);
            lemma_u128_mul_bound(last as u128, ratio_num as u128);
        }
        let keep: bool = (v as u128) * (ratio_den as u128) > (last as u128) * (ratio_num as u128);
        proof {
            assert(keep == ((v as int) * den > (last as int) * num));
            assert(a@.skip(i as int).first() == v);
            assert(a@.skip(i as int).drop_first() =~= a@.skip(i as int + 1));
        }
        if keep {
            r.push(v);
            last = v;
            proof {
                // The new element is larger than everything retained so far.
                assert(last as int > old_last as int) by (nonlinear_arith)
                    requires
                        (last as int) * den > (old_last as int) * num,
                        num > den >= 1,
                        old_last as int >= 0,
                        last as int >= 0,
                ;
                assert(forall|j: int|
                    0 <= j < old_r.len() ==> (old_r[j] as int) <= old_last as int);
                assert((v as int) * den <= (v as int) * num) by (nonlinear_arith)
                    requires
                        num > den >= 1,
                        v as int >= 0,
                ;
            }
        }
        i = i + 1;
        proof {
            assert(a@.take(i as int) =~= a@.take(i as int - 1).push(v));
            if keep {
                assert(old_r + (seq![v] + trim_rec(a@.skip(i as int), num, den, v as int)) =~= r@
                    + trim_rec(a@.skip(i as int), num, den, v as int));
            }
            assert forall|x: int|
                contains_val(a@.take(i as int), x) implies covered(r@, x, num, den) by {
                lemma_contains_push(a@.take(i as int - 1), v, x);
                if x == v as int && keep {
                    assert(contains_val(r@, v as int)) by {
                        assert(r@[r@.len() - 1] == v);
                    }
                } else if x == v as int && !keep {
                    // The element just dropped is represented by `last`:
                    // it is within the ratio, and `last` is an earlier,
                    // hence smaller, input element.
                    assert(contains_val(r@, old_last as int)) by {
                        assert(r@[r@.len() - 1] == old_last);
                    }
                    let pre = a@.take(i as int - 1);
                    let li: int = choose|li: int| 0 <= li < pre.len() && pre[li] as int == old_last as int;
                    assert(a@[li] < a@[i as int - 1]);
                } else {
                    assert(contains_val(a@.take(i as int - 1), x));
                    assert(covered(old_r, x, num, den));
                    let z: int = choose|z: int|
                        contains_val(old_r, z) && z <= x && x * den <= z * num;
                    if keep {
                        lemma_contains_push(old_r, v, z);
                    }
                    assert(contains_val(r@, z));
                }
            }
            assert forall|x: int|
                contains_val(r@, x) implies contains_val(a@.take(i as int), x) by {
                lemma_contains_push(a@.take(i as int - 1), v, x);
                if keep {
                    lemma_contains_push(old_r, v, x);
                }
            }
            assert(contains_val(a@.take(i as int), last as int)) by {
                if keep {
                    assert(a@.take(i as int)[i - 1] as int == last as int);
                } else {
                    let pre = a@.take(i as int - 1);
                    let li: int = choose|li: int| 0 <= li < pre.len() && pre[li] as int == last as int;
                    assert(a@.take(i as int)[li] as int == last as int);
                }
            }
        }
    }
    proof {
        assert(a@.take(i as int) =~= a@);
        assert(a@.skip(i as int).len() == 0);
        assert(r@ + trim_rec(a@.skip(i as int), num, den, last as int) =~= r@);
        lemma_increasing_subset_is_subsequence(r@, a@);
    }
    r
}

} // verus!
