use subset_sum::lists::{merge_sort_and_filter, trim};

#[test]
fn merge_shifts_and_filters() {
    // [0, 3] merged with itself shifted by 2, capacity 10.
    let s: Vec<usize> = vec![0, 3];
    assert_eq!(merge_sort_and_filter(&s, 2, 10), vec![0, 2, 3, 5]);
}

#[test]
fn merge_drops_values_over_capacity() {
    let s: Vec<usize> = vec![0, 3, 6];
    assert_eq!(merge_sort_and_filter(&s, 5, 7), vec![0, 3, 5, 6]);
}

#[test]
fn merge_with_oversized_shift_keeps_base() {
    let s: Vec<usize> = vec![0, 3];
    assert_eq!(merge_sort_and_filter(&s, 100, 10), vec![0, 3]);
}

#[test]
fn merge_deduplicates_collisions() {
    let s: Vec<usize> = vec![0, 2, 4];
    assert_eq!(merge_sort_and_filter(&s, 2, 10), vec![0, 2, 4, 6]);
}

#[test]
fn merge_with_zero_shift_is_identity() {
    let s: Vec<usize> = vec![0, 1, 5];
    assert_eq!(merge_sort_and_filter(&s, 0, 5), vec![0, 1, 5]);
}

#[test]
fn merge_output_ascends_and_respects_cap() {
    let s: Vec<usize> = vec![0, 2, 3, 7];
    let r = merge_sort_and_filter(&s, 3, 8);
    assert_eq!(r[0], 0);
    for i in 1..r.len() {
        assert!(r[i - 1] < r[i]);
    }
    for &v in r.iter() {
        assert!(v <= 8);
    }
}

#[test]
fn trim_at_ratio_two() {
    // ratio 2: 2 is dropped (2 > 1*2 fails), 3 kept, 4 dropped, 8 kept.
    let s: Vec<usize> = vec![1, 2, 3, 4, 8];
    assert_eq!(trim(&s, 2, 1), vec![1, 3, 8]);
}

#[test]
fn trim_always_keeps_first() {
    let s: Vec<usize> = vec![4, 5];
    assert_eq!(trim(&s, 2, 1), vec![4]);
    let one: Vec<usize> = vec![9];
    assert_eq!(trim(&one, 3, 2), vec![9]);
}

#[test]
fn trim_with_fractional_ratio() {
    // ratio 3/2: keep 2 (2*2 > 1*3), drop 3 (3*2 > 2*3 fails), keep 4.
    let s: Vec<usize> = vec![1, 2, 3, 4];
    assert_eq!(trim(&s, 3, 2), vec![1, 2, 4]);
}

#[test]
fn trim_output_is_gapped_subsequence() {
    let s: Vec<usize> = vec![1, 2, 3, 5, 9, 20, 21];
    let r = trim(&s, 2, 1);
    assert_eq!(r[0], s[0]);
    for i in 1..r.len() {
        assert!(r[i] * 1 > r[i - 1] * 2);
        assert!(s.contains(&r[i]));
    }
}
