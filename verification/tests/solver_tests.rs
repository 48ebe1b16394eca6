use subset_sum::solvers::{dynamic, exhaustive, fptas, greedy};

#[test]
fn greedy_suboptimal_instance() {
    // weights [5, 4, 3] with capacity 7: the optimum 7 = 4 + 3, while greedy
    // picks 5 first and then nothing fits.
    let w: Vec<usize> = vec![5, 4, 3];
    assert_eq!(dynamic(&w, 3, 7), 7);
    assert_eq!(exhaustive(&w, 3, 7), 7);
    assert_eq!(greedy(&w, 3, 7), 5);
}

#[test]
fn exact_solvers_reach_capacity() {
    // weights [1, 2, 3, 8] with capacity 10: the optimum 10 = 2 + 8.
    let w: Vec<usize> = vec![1, 2, 3, 8];
    assert_eq!(dynamic(&w, 4, 10), 10);
    assert_eq!(exhaustive(&w, 4, 10), 10);
}

#[test]
fn empty_instance_yields_zero() {
    let w: Vec<usize> = vec![];
    assert_eq!(dynamic(&w, 0, 5), 0);
    assert_eq!(exhaustive(&w, 0, 5), 0);
    assert_eq!(greedy(&w, 0, 5), 0);
    assert_eq!(fptas(&w, 0, 5, 1, 2), 0);
}

#[test]
fn zero_capacity_yields_zero() {
    let w: Vec<usize> = vec![3, 1, 4];
    assert_eq!(dynamic(&w, 3, 0), 0);
    assert_eq!(exhaustive(&w, 3, 0), 0);
    assert_eq!(greedy(&w, 3, 0), 0);
    assert_eq!(fptas(&w, 3, 0, 1, 2), 0);
}

#[test]
fn oversized_weights_are_ignored() {
    let w: Vec<usize> = vec![10, 12, 2];
    assert_eq!(dynamic(&w, 3, 5), 2);
    assert_eq!(exhaustive(&w, 3, 5), 2);
    assert_eq!(greedy(&w, 3, 5), 2);
}

#[test]
fn zero_weights_change_nothing() {
    let w: Vec<usize> = vec![0, 3, 0, 4];
    assert_eq!(dynamic(&w, 4, 6), 4);
    assert_eq!(exhaustive(&w, 4, 6), 4);
}

#[test]
fn every_result_within_capacity() {
    // Every solver's result lies in [0, k].
    let w: Vec<usize> = vec![7, 2, 9, 5, 1];
    let k: usize = 11;
    assert!(dynamic(&w, 5, k) <= k);
    assert!(exhaustive(&w, 5, k) <= k);
    assert!(greedy(&w, 5, k) <= k);
    assert!(fptas(&w, 5, k, 1, 2) <= k);
}

#[test]
fn exact_solvers_agree() {
    let w: Vec<usize> = vec![7, 2, 9, 5, 1];
    for k in [0usize, 1, 6, 11, 23, 24, 30] {
        assert_eq!(dynamic(&w, 5, k), exhaustive(&w, 5, k));
    }
}

#[test]
fn greedy_never_beats_exact() {
    let w: Vec<usize> = vec![6, 5, 4, 3];
    for k in [0usize, 3, 7, 9, 12, 18] {
        assert!(greedy(&w, 4, k) <= dynamic(&w, 4, k));
    }
}

#[test]
fn fptas_within_relative_error() {
    // eps = 1/2: the result is at most the optimum and at least half of it.
    let w: Vec<usize> = vec![5, 4, 3];
    let opt = dynamic(&w, 3, 7);
    let approx = fptas(&w, 3, 7, 1, 2);
    assert!(approx <= opt);
    assert!(approx * 2 >= (2 - 1) * opt);
}

#[test]
fn fptas_tight_eps_is_exact() {
    // eps = 1/1000 forces r * 1000 >= 999 * 7, so r == 7 here.
    let w: Vec<usize> = vec![5, 4, 3];
    assert_eq!(fptas(&w, 3, 7, 1, 1000), 7);
    let w2: Vec<usize> = vec![1, 2, 3, 8];
    assert_eq!(fptas(&w2, 4, 10, 1, 1000), 10);
}

#[test]
fn repeated_calls_agree() {
    let w: Vec<usize> = vec![4, 1, 6, 2];
    assert_eq!(dynamic(&w, 4, 8), dynamic(&w, 4, 8));
    assert_eq!(exhaustive(&w, 4, 8), exhaustive(&w, 4, 8));
    assert_eq!(greedy(&w, 4, 8), greedy(&w, 4, 8));
    assert_eq!(fptas(&w, 4, 8, 1, 3), fptas(&w, 4, 8, 1, 3));
}

#[test]
fn inputs_are_not_mutated() {
    let w: Vec<usize> = vec![5, 1, 4];
    let before = w.clone();
    let _ = greedy(&w, 3, 6);
    let _ = dynamic(&w, 3, 6);
    let _ = exhaustive(&w, 3, 6);
    let _ = fptas(&w, 3, 6, 1, 2);
    assert_eq!(w, before);
}
