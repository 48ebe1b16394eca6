//! The four solvers: an exact dynamic program, an exact list-based
//! enumeration, a greedy heuristic, and an FPTAS with a proved
//! relative-error bound.

use crate::lists::{covered, merge_sort_and_filter, merge_spec, trim, trim_spec};
use crate::model::{
    achievable, contains_val, greedy_from, increasing, lemma_achievable_nonneg,
    lemma_achievable_permutation, lemma_contains_nonneg, lemma_insert_desc, lemma_insert_position,
    lemma_opt_achievable, lemma_opt_bounds, lemma_opt_is_max, lemma_opt_step, lemma_sort_desc, opt,
    sort_desc, sorted_desc,
};
use vstd::arithmetic::power::{lemma_pow_positive, pow};
use vstd::prelude::*;

verus! {

/// The list the approximation solver holds after consuming `ws`: it starts
/// as the single sum 0, and each weight merges in its shifted copy (capped
/// at `k`) and trims the result with ratio `num / den`.
pub open spec fn fptas_list(ws: Seq<usize>, k: int, num: int, den: int) -> Seq<usize>
    decreases ws.len(),
{
    if ws.len() == 0 {
        seq![0usize]
    } else {
        trim_spec(
            merge_spec(fptas_list(ws.drop_last(), k, num, den), ws.last() as int, k),
            num,
            den,
        )
    }
}

/// Some listed value `z` stands for `s` after `e` rounds of trimming: `z`
/// is at most `s`, and at most a factor `(pn / pd)^e` below it.
spec fn approx_covered(li: Seq<usize>, s: int, pn: int, pd: int, e: nat) -> bool {
    exists|z: int| contains_val(li, z) && z <= s && z * pow(pn, e) >= s * pow(pd, e)
}

/// Raising both of two ordered positive bases to the same power keeps the
/// order.
proof fn lemma_pow_base_le(x: int, y: int, e: nat)
    requires
        1 <= x <= y,
    ensures
        1 <= pow(x, e) <= pow(y, e),
    decreases e,
{
    reveal(pow);
    if e > 0 {
        let e1: nat = (e - 1) as nat;
        lemma_pow_base_le(x, y, e1);
        assert(pow(x, e) == x * pow(x, e1));
        assert(pow(y, e) == y * pow(y, e1));
        assert(1 <= x * pow(x, e1) && x * pow(x, e1) <= y * pow(y, e1)) by (nonlinear_arith)
            requires
                1 <= x <= y,
                1 <= pow(x, e1) <= pow(y, e1),
        ;
    }
}

/// The discrete Bernoulli-style bound behind the FPTAS analysis:
/// `(dd + p)^m (dd - m p) <= dd^m dd`, so the compounded trimming ratio
/// `((dd + p) / dd)^m` stays below `dd / (dd - m p)`.
proof fn lemma_ratio_power(dd: int, p: int, m: nat)
    requires
        dd >= 1,
        p >= 0,
        m * p <= dd,
    ensures
        pow(dd + p, m) * (dd - m * p) <= pow(dd, m) * dd,
    decreases m,
{
    reveal(pow);
    if m == 0 {
        assert(pow(dd + p, 0) == 1);
        assert(pow(dd, 0) == 1);
    } else {
        let m1: nat = (m - 1) as nat;
        assert(m1 * p <= dd) by (nonlinear_arith)
            requires
                m >= 1,
                p >= 0,
                m * p <= dd,
                m1 == m - 1,
        ;
        lemma_ratio_power(dd, p, m1);
        let a: int = pow(dd + p, m1);
        let b: int = pow(dd, m1);
        lemma_pow_positive(dd + p, m1);
        lemma_pow_positive(dd, m1);
        assert(pow(dd + p, m) == (dd + p) * a);
        assert(pow(dd, m) == dd * b);
        assert((dd + p) * a * (dd - m * p) <= dd * b * dd) by (nonlinear_arith)
            requires
                a >= 1,
                b >= 1,
                dd >= 1,
                p >= 0,
                m >= 1,
                m * p <= dd,
                a * (dd - (m - 1) * p) <= b * dd,
        ;
    }
}

/// Exact solver by dynamic programming over a single rolling row of the
/// classical table: entry `j` holds the best sum achievable with the weights
/// seen so far under budget `j`.
///
/// Returns the largest subset sum of the first `n` weights that is at most
/// `k`.
pub fn dynamic(a: &Vec<usize>, n: usize, k: usize) -> (r: usize)
    requires
        n == a@.len(),
        k < usize::MAX,
    ensures
        r as int == opt(a@, k as int),
        achievable(a@, r as int),
        r <= k,
        forall|s: int| achievable(a@, s) && s <= k as int ==> s <= r as int,
{
    let mut row: Vec<usize> = Vec::new();
    let mut j: usize = 0;
    while j <= k
        invariant
            k < usize::MAX,
            j <= k + 1,
            row@.len() == j,
            forall|jj: int| 0 <= jj < row@.len() ==> row@[jj] == 0,
        decreases k - j + 1,
    {
        row.push(0);
        j = j + 1;
    }
    let mut i: usize = 0;
    while i < n
        invariant
            n == a@.len(),
            i <= n,
            row@.len() == k as int + 1,
            forall|jj: int| 0 <= jj <= k as int ==> row@[jj] as int == opt(a@.take(i as int), jj),
        decreases n - i,
    {
        let w: usize = a[i];
        let ghost pre0 = a@.take(i as int);
        let ghost pre1 = a@.take(i as int + 1);
        proof {
            assert(pre1.drop_last() =~= pre0);
            assert(pre1.last() == w);
        }
        if w > 0 {
            let mut j: usize = k;
            while j >= w
                invariant
                    w >= 1,
                    j <= k,
                    row@.len() == k as int + 1,
                    pre1.len() > 0,
                    pre1.drop_last() == pre0,
                    pre1.last() == w,
                    forall|jj: int| j < jj <= k as int ==> row@[jj] as int == opt(pre1, jj),
                    forall|jj: int| 0 <= jj <= j ==> row@[jj] as int == opt(pre0, jj),
                decreases j,
            {
                proof {
                    lemma_opt_bounds(pre0, j as int - w as int);
                    lemma_opt_step(pre1, j as int);
                }
                let cand: usize = row[j - w] + w;
                if cand > row[j] {
                    row[j] = cand;
                }
                proof {
                    assert(row@[j as int] as int == opt(pre1, j as int));
                }
                j = j - 1;
            }
            proof {
                assert forall|jj: int| 0 <= jj <= k as int implies row@[jj] as int == opt(
                    pre1,
                    jj,
                ) by {
                    if jj <= j {
                        assert(opt(pre1, jj) == opt(pre0, jj));
                    }
                }
            }
        } else {
            proof {
                assert forall|jj: int| 0 <= jj <= k as int implies row@[jj] as int == opt(
                    pre1,
                    jj,
                ) by {
                    assert(opt(pre1, jj) == opt(pre0, jj));
                }
            }
        }
        i = i + 1;
    }
    let r: usize = row[k];
    proof {
        assert(a@.take(n as int) =~= a@);
        lemma_opt_bounds(a@, k as int);
        lemma_opt_achievable(a@, k as int);
        assert forall|s: int| achievable(a@, s) && s <= k as int implies s <= r as int by {
            lemma_opt_is_max(a@, k as int, s);
        }
    }
    r
}

/// Exact solver by enumeration: keeps the ascending list of all sums
/// achievable so far (capped at `k`), folding in one weight at a time with
/// the merge-and-filter primitive, and returns the largest listed sum.
pub fn exhaustive(a: &Vec<usize>, n: usize, k: usize) -> (r: usize)
    requires
        n == a@.len(),
    ensures
        r as int == opt(a@, k as int),
        achievable(a@, r as int),
        r <= k,
        forall|s: int| achievable(a@, s) && s <= k as int ==> s <= r as int,
{
    let mut li: Vec<usize> = Vec::new();
    li.push(0);
    proof {
        assert(li@[0] as int == 0);
        assert forall|x: int|
            contains_val(li@, x) == (achievable(a@.take(0), x) && 0 <= x <= k as int) by {
            if contains_val(li@, x) {
                let xi: int = choose|xi: int| 0 <= xi < li@.len() && li@[xi] as int == x;
                assert(xi == 0);
            }
            if x == 0 {
                assert(li@[0] as int == x);
            }
        }
    }
    let mut i: usize = 0;
    while i < n
        invariant
            n == a@.len(),
            i <= n,
            increasing(li@),
            li@.len() >= 1,
            li@[0] == 0,
            forall|jj: int| 0 <= jj < li@.len() ==> li@[jj] <= k,
            forall|x: int|
                contains_val(li@, x) <==> (achievable(a@.take(i as int), x) && 0 <= x <= k as int),
        decreases n - i,
    {
        let w: usize = a[i];
        let ghost old_li = li@;
        li = merge_sort_and_filter(&li, w, k);
        i = i + 1;
        proof {
            let pre1 = a@.take(i as int);
            assert(pre1.drop_last() =~= a@.take(i as int - 1));
            assert(pre1.last() == w);
            assert forall|x: int|
                contains_val(li@, x) == (achievable(pre1, x) && 0 <= x <= k as int) by {
                if achievable(pre1, x) && 0 <= x <= k as int {
                    if !achievable(pre1.drop_last(), x) {
                        assert(achievable(pre1.drop_last(), x - w as int));
                        lemma_achievable_nonneg(pre1.drop_last(), x - w as int);
                    }
                }
            }
        }
    }
    let r: usize = li[li.len() - 1];
    proof {
        assert(a@.take(n as int) =~= a@);
        assert(contains_val(li@, r as int));
        lemma_opt_bounds(a@, k as int);
        lemma_opt_achievable(a@, k as int);
        assert(contains_val(li@, opt(a@, k as int)));
        let oi: int = choose|oi: int|
            0 <= oi < li@.len() && li@[oi] as int == opt(a@, k as int);
        if oi < li@.len() - 1 {
            assert(li@[oi] < li@[li@.len() - 1]);
        }
        lemma_opt_is_max(a@, k as int, r as int);
        assert forall|s: int| achievable(a@, s) && s <= k as int implies s <= r as int by {
            lemma_opt_is_max(a@, k as int, s);
        }
    }
    r
}

/// Copy the weights into a fresh vector sorted in non-increasing order.
fn sort_descending(a: &Vec<usize>) -> (r: Vec<usize>)
    ensures
        r@ == sort_desc(a@),
        sorted_desc(r@),
        r@.to_multiset() == a@.to_multiset(),
        r@.len() == a@.len(),
{
    let mut r: Vec<usize> = Vec::new();
    let mut i: usize = 0;
    while i < a.len()
        invariant
            i <= a@.len(),
            r@ == sort_desc(a@.take(i as int)),
            sorted_desc(r@),
            r@.len() == i,
        decreases a@.len() - i,
    {
        let w: usize = a[i];
        let mut j: usize = 0;
        while j < r.len() && r[j] > w
            invariant
                j <= r@.len(),
                forall|m: int| 0 <= m < j ==> r@[m] > w,
            decreases r@.len() - j,
        {
            j = j + 1;
        }
        let ghost old_r = r@;
        r.insert(j, w);
        i = i + 1;
        proof {
            lemma_insert_position(old_r, w, j as int);
            lemma_insert_desc(old_r, w);
            assert(a@.take(i as int).drop_last() =~= a@.take(i as int - 1));
            assert(a@.take(i as int).last() == w);
        }
    }
    proof {
        assert(a@.take(a@.len() as int) =~= a@);
        lemma_sort_desc(a@);
    }
    r
}

/// Greedy heuristic: sort a private copy of the weights in non-increasing
/// order, then take each weight that still fits under `k`.
///
/// The result is exactly the greedy scan of the sorted weights, is itself
/// an achievable sum within the capacity, and so never exceeds the optimum
/// (it carries no guarantee of reaching it).
pub fn greedy(a_: &Vec<usize>, n: usize, k: usize) -> (r: usize)
    requires
        n == a_@.len(),
    ensures
        r as int == greedy_from(sort_desc(a_@), k as int, 0),
        achievable(a_@, r as int),
        r <= k,
        r as int <= opt(a_@, k as int),
{
    let a: Vec<usize> = sort_descending(a_);
    let mut g: usize = 0;
    let mut i: usize = 0;
    proof {
        assert(a@.skip(0) =~= a@);
    }
    while i < n
        invariant
            n == a_@.len(),
            a@ == sort_desc(a_@),
            a@.len() == n,
            i <= n,
            g <= k,
            achievable(a@.take(i as int), g as int),
            greedy_from(a@, k as int, 0) == greedy_from(a@.skip(i as int), k as int, g as int),
        decreases n - i,
    {
        let w: usize = a[i];
        if w <= k - g {
            g = g + w;
        }
        i = i + 1;
        proof {
            assert(a@.skip(i as int - 1).first() == w);
            assert(a@.skip(i as int - 1).drop_first() =~= a@.skip(i as int));
            assert(a@.take(i as int).drop_last() =~= a@.take(i as int - 1));
            assert(a@.take(i as int).last() == w);
        }
    }
    proof {
        assert(a@.skip(n as int) =~= Seq::<usize>::empty());
        assert(a@.take(n as int) =~= a@);
        lemma_sort_desc(a_@);
        lemma_achievable_permutation(a@, a_@, g as int);
        lemma_opt_is_max(a_@, k as int, g as int);
    }
    g
}

/// What the approximation list yields once all weights are consumed: its
/// largest entry is an achievable sum within the capacity, and close enough
/// to the optimum that `r * q >= (q - p) * opt` for `eps = p / q`.
#[verifier::rlimit(100)]
proof fn lemma_fptas_final(ws: Seq<usize>, k: int, q: int, p: int, li: Seq<usize>, r: int)
    requires
        k >= 0,
        q >= 1,
        p >= 1,
        li.len() >= 1,
        increasing(li),
        r == li[li.len() - 1] as int,
        forall|x: int| contains_val(li, x) ==> (achievable(ws, x) && 0 <= x <= k),
        forall|s: int|
            achievable(ws, s) && 0 <= s <= k ==> approx_covered(
                li,
                s,
                2 * (ws.len() as int) * q + p,
                2 * (ws.len() as int) * q,
                ws.len(),
            ),
    ensures
        achievable(ws, r),
        0 <= r <= k,
        r <= opt(ws, k),
        r * q >= (q - p) * opt(ws, k),
{
    let big_d: int = 2 * (ws.len() as int) * q;
    let big_p: int = big_d + p;
    assert(contains_val(li, r)) by {
        assert(li[li.len() - 1] as int == r);
    }
    lemma_opt_bounds(ws, k);
    lemma_opt_achievable(ws, k);
    lemma_opt_is_max(ws, k, r);
    let o: int = opt(ws, k);
    let m: nat = ws.len();
    if o == 0 {
        assert(r * q >= (q - p) * o) by (nonlinear_arith)
            requires
                o == 0,
                r >= 0,
                q >= 1,
        ;
    } else {
        assert(m >= 1);
        assert(approx_covered(li, o, big_p, big_d, m));
        let z: int = choose|z: int|
            contains_val(li, z) && z <= o && z * pow(big_p, m) >= o * pow(big_d, m);
        let zi: int = choose|zi: int| 0 <= zi < li.len() && li[zi] as int == z;
        if zi < li.len() - 1 {
            assert(li[zi] < li[li.len() - 1]);
        }
        assert(r >= z);
        assert(big_d >= 2) by (nonlinear_arith)
            requires
                big_d == 2 * (m as int) * q,
                m as int >= 1,
                q >= 1,
        ;
        lemma_pow_positive(big_p, m);
        lemma_pow_positive(big_d, m);
        assert(r * pow(big_p, m) >= o * pow(big_d, m)) by (nonlinear_arith)
            requires
                r >= z,
                z * pow(big_p, m) >= o * pow(big_d, m),
                pow(big_p, m) > 0,
        ;
        if p >= q {
            assert(r * q >= (q - p) * o) by (nonlinear_arith)
                requires
                    p >= q,
                    o >= 0,
                    r >= 0,
                    q >= 1,
            ;
        } else {
            assert(m * p <= big_d) by (nonlinear_arith)
                requires
                    p <= q,
                    big_d == 2 * (m as int) * q,
                    m as int >= 1,
                    p >= 1,
            ;
            lemma_ratio_power(big_d, p, m);
            let x_pow: int = pow(big_p, m);
            let y_pow: int = pow(big_d, m);
            assert(big_p == big_d + p);
            assert(x_pow * (big_d - m * p) <= y_pow * big_d);
            assert(o * (big_d - m * p) <= r * big_d) by (nonlinear_arith)
                requires
                    r * x_pow >= o * y_pow,
                    x_pow * (big_d - m * p) <= y_pow * big_d,
                    y_pow > 0,
                    x_pow > 0,
                    big_d - m * p >= 0,
                    r >= 0,
                    o >= 0,
                    big_d >= 1,
            ;
            assert(o * (2 * q - p) <= r * (2 * q)) by (nonlinear_arith)
                requires
                    o * (big_d - m * p) <= r * big_d,
                    big_d == 2 * (m as int) * q,
                    m as int >= 1,
                    o >= 0,
                    q >= 1,
                    p >= 1,
            ;
            assert(r * q >= (q - p) * o) by (nonlinear_arith)
                requires
                    o * (2 * q - p) <= r * (2 * q),
                    o >= 0,
                    p >= 1,
                    q >= 1,
            ;
        }
    }
}

/// FPTAS: like the enumeration solver, but after each merge the list is
/// trimmed with ratio `1 + eps / (2 n)`, for `eps = eps_num / eps_den`.
///
/// The result is an achievable sum within the capacity, never above the
/// optimum, and — the approximation guarantee — at least `(1 - eps)` times
/// the optimum: `r * eps_den >= (eps_den - eps_num) * opt`.  Since `r` is an
/// integer this is `r >= ceil((1 - eps) * opt)`.
#[verifier::rlimit(100)]
pub fn fptas(a: &Vec<usize>, n: usize, k: usize, eps_num: usize, eps_den: usize) -> (r: usize)
    requires
        n == a@.len(),
        eps_num >= 1,
        eps_den >= 1,
        2 * (n as int) * (eps_den as int) + (eps_num as int) <= usize::MAX as int,
    ensures
        achievable(a@, r as int),
        r <= k,
        r as int <= opt(a@, k as int),
        (r as int) * (eps_den as int) >= (eps_den as int - eps_num as int) * opt(a@, k as int),
        r == fptas_list(
            a@,
            k as int,
            2 * (a@.len() as int) * (eps_den as int) + eps_num as int,
            2 * (a@.len() as int) * (eps_den as int),
        ).last(),
{
    proof {
        assert(0 <= 2 * (n as int) && 2 * (n as int) <= 2 * (n as int) * (eps_den as int))
            by (nonlinear_arith)
            requires
                n as int >= 0,
                eps_den as int >= 1,
        ;
    }
    let dd: usize = 2 * n * eps_den;
    let rnum: usize = dd + eps_num;
    let ghost big_d: int = dd as int;
    let ghost big_p: int = dd as int + eps_num as int;
    let mut li: Vec<usize> = Vec::new();
    li.push(0);
    proof {
        assert(li@[0] as int == 0);
        assert forall|x: int|
            contains_val(li@, x) implies (achievable(a@.take(0), x) && 0 <= x <= k as int) by {
            let xi: int = choose|xi: int| 0 <= xi < li@.len() && li@[xi] as int == x;
            assert(xi == 0);
        }
        assert forall|s: int|
            achievable(a@.take(0), s) && 0 <= s <= k as int implies approx_covered(
            li@,
            s,
            big_p,
            big_d,
            0,
        ) by {
            assert(s == 0);
            assert(contains_val(li@, 0));
            assert(0 * pow(big_p, 0) >= 0 * pow(big_d, 0));
        }
        assert(li@ =~= seq![0usize]);
    }
    let mut i: usize = 0;
    while i < n
        invariant
            n == a@.len(),
            i <= n,
            eps_num >= 1,
            eps_den >= 1,
            big_d == 2 * (n as int) * (eps_den as int),
            big_p == big_d + eps_num as int,
            dd as int == big_d,
            rnum as int == big_p,
            increasing(li@),
            li@.len() >= 1,
            li@[0] == 0,
            forall|jj: int| 0 <= jj < li@.len() ==> li@[jj] <= k,
            forall|x: int|
                contains_val(li@, x) ==> (achievable(a@.take(i as int), x) && 0 <= x <= k as int),
            forall|s: int|
                achievable(a@.take(i as int), s) && 0 <= s <= k as int ==> approx_covered(
                    li@,
                    s,
                    big_p,
                    big_d,
                    i as nat,
                ),
            li@ == fptas_list(a@.take(i as int), k as int, big_p, big_d),
        decreases n - i,
    {
        let w: usize = a[i];
        let ghost old_li = li@;
        let merged: Vec<usize> = merge_sort_and_filter(&li, w, k);
        proof {
            assert(big_d >= 2) by (nonlinear_arith)
                requires
                    big_d == 2 * (n as int) * (eps_den as int),
                    n as int >= 1,
                    eps_den as int >= 1,
            ;
        }
        li = trim(&merged, rnum, dd);
        i = i + 1;
        proof {
            let pre1 = a@.take(i as int);
            let pre0 = a@.take(i as int - 1);
            let e1: nat = (i - 1) as nat;
            assert(pre1.drop_last() =~= pre0);
            assert(pre1.last() == w);
            assert(pow(big_p, i as nat) == big_p * pow(big_p, e1) && pow(big_d, i as nat) == big_d
                * pow(big_d, e1)) by {
                reveal(pow);
            }
            lemma_pow_positive(big_p, e1);
            lemma_pow_positive(big_d, e1);
            lemma_pow_base_le(big_d, big_p, e1);
            assert forall|x: int|
                contains_val(li@, x) implies (achievable(pre1, x) && 0 <= x <= k as int) by {
                assert(contains_val(merged@, x));
            }
            assert forall|jj: int| 0 <= jj < li@.len() implies li@[jj] <= k by {
                assert(li@[jj] as int == li@[jj] as int);
                assert(contains_val(li@, li@[jj] as int));
                assert(contains_val(merged@, li@[jj] as int));
            }
            assert forall|s: int|
                achievable(pre1, s) && 0 <= s <= k as int implies approx_covered(
                li@,
                s,
                big_p,
                big_d,
                i as nat,
            ) by {
                if achievable(pre0, s) {
                    assert(approx_covered(old_li, s, big_p, big_d, e1));
                    let z0: int = choose|z0: int|
                        contains_val(old_li, z0) && z0 <= s && z0 * pow(big_p, e1) >= s * pow(
                            big_d,
                            e1,
                        );
                    lemma_contains_nonneg(old_li, z0);
                    assert(contains_val(merged@, z0));
                    assert(covered(li@, z0, big_p, big_d));
                    let z: int = choose|z: int|
                        contains_val(li@, z) && z <= z0 && z0 * big_d <= z * big_p;
                    lemma_contains_nonneg(li@, z);
                    assert(z * pow(big_p, i as nat) >= s * pow(big_d, i as nat))
                        by (nonlinear_arith)
                        requires
                            pow(big_p, i as nat) == big_p * pow(big_p, e1),
                            pow(big_d, i as nat) == big_d * pow(big_d, e1),
                            z0 * big_d <= z * big_p,
                            z0 * pow(big_p, e1) >= s * pow(big_d, e1),
                            pow(big_p, e1) > 0,
                            pow(big_d, e1) > 0,
                            big_d >= 1,
                            z >= 0,
                            z0 >= 0,
                            s >= 0,
                    ;
                    assert(contains_val(li@, z) && z <= s && z * pow(big_p, i as nat) >= s * pow(
                        big_d,
                        i as nat,
                    ));
                } else {
                    assert(achievable(pre0, s - w as int));
                    lemma_achievable_nonneg(pre0, s - w as int);
                    assert(approx_covered(old_li, s - w as int, big_p, big_d, e1));
                    let z0: int = choose|z0: int|
                        contains_val(old_li, z0) && z0 <= s - w as int && z0 * pow(big_p, e1) >= (
                        s - w as int) * pow(big_d, e1);
                    lemma_contains_nonneg(old_li, z0);
                    let y: int = z0 + w as int;
                    assert(contains_val(merged@, y));
                    assert(y * pow(big_p, e1) >= s * pow(big_d, e1)) by (nonlinear_arith)
                        requires
                            y == z0 + w as int,
                            z0 * pow(big_p, e1) >= (s - w as int) * pow(big_d, e1),
                            pow(big_p, e1) >= pow(big_d, e1),
                            pow(big_d, e1) > 0,
                            w as int >= 0,
                    ;
                    assert(covered(li@, y, big_p, big_d));
                    let z: int = choose|z: int|
                        contains_val(li@, z) && z <= y && y * big_d <= z * big_p;
                    lemma_contains_nonneg(li@, z);
                    assert(z * pow(big_p, i as nat) >= s * pow(big_d, i as nat))
                        by (nonlinear_arith)
                        requires
                            pow(big_p, i as nat) == big_p * pow(big_p, e1),
                            pow(big_d, i as nat) == big_d * pow(big_d, e1),
                            y * big_d <= z * big_p,
                            y * pow(big_p, e1) >= s * pow(big_d, e1),
                            pow(big_p, e1) > 0,
                            pow(big_d, e1) > 0,
                            big_d >= 1,
                            z >= 0,
                            y >= 0,
                            s >= 0,
                    ;
                    assert(contains_val(li@, z) && z <= s && z * pow(big_p, i as nat) >= s * pow(
                        big_d,
                        i as nat,
                    ));
                }
            }
        }
    }
    let r: usize = li[li.len() - 1];
    proof {
        assert(a@.take(n as int) =~= a@);
        lemma_fptas_final(a@, k as int, eps_den as int, eps_num as int, li@, r as int);
        assert(r == fptas_list(a@, k as int, big_p, big_d).last()) by {
            assert(li@[li@.len() - 1] == li@.last());
        }
    }
    r
}

} // verus!
