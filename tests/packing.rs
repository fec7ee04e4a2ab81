use autoquant::packing::{costs_fit, merge_error_functions, ErrorFunction, PackingError};

const FIRST: [u64; 8] = [1_000_000, 800_000, 600_000, 400_000, 400_000, 100_000, 100_000, 100_000];
const SECOND: [u64; 8] = [1_000_000, 900_000, 800_000, 800_000, 300_000, 200_000, 100_000, 0];
const THIRD: [u64; 8] = [1_000_000, 1_000_000, 1_000_000, 1_000_000, 1_000_000, 200_000, 0, 0];

fn brute_force_min(f: &[u64], s: &[u64], k: usize) -> u64 {
    let mut best = u64::MAX;
    for i in 0..f.len() {
        for j in 0..s.len() {
            if i + j == k && f[i] + s[j] < best {
                best = f[i] + s[j];
            }
        }
    }
    best
}

#[test]
fn new_takes_leading_entries_and_single_allocations() {
    let f: ErrorFunction<3> = ErrorFunction::new(&[5, 4, 3, 2, 1]);
    assert_eq!(f.values(), &[5, 4, 3]);
    assert_eq!(f.len(), 3);
    assert!(!f.is_empty());
    assert_eq!(f.bits, vec![vec![0], vec![1], vec![2]]);
}

#[test]
fn get_clamps_past_the_end() {
    let f: ErrorFunction<3> = ErrorFunction::new(&[5, 4, 3]);
    assert_eq!(f.get(0), 5);
    assert_eq!(f.get(2), 3);
    assert_eq!(f.get(3), 3);
    assert_eq!(f.get(100), 3);
}

#[test]
fn empty_holds_placeholders() {
    let f: ErrorFunction<4> = ErrorFunction::empty();
    assert_eq!(f.values(), &[u64::MAX; 4]);
    assert_eq!(f.bits, vec![vec![0], vec![1], vec![2], vec![3]]);
}

#[test]
fn two_channel_packing() {
    let first: ErrorFunction<8> = ErrorFunction::new(&FIRST);
    let second: ErrorFunction<8> = ErrorFunction::new(&SECOND);
    let merged: ErrorFunction<8> = merge_error_functions(&first, &second).unwrap();
    assert_eq!(
        merged.values(),
        &[2_000_000, 1_800_000, 1_600_000, 1_400_000, 1_300_000, 1_100_000, 900_000, 700_000]
    );
    assert_eq!(merged.get(7), 700_000);
    assert_eq!(merged.bits[7], vec![3, 4]);
    assert_eq!(merged.bits[4], vec![0, 4]);
}

#[test]
fn two_channel_packing_matches_brute_force() {
    let first: ErrorFunction<8> = ErrorFunction::new(&FIRST);
    let second: ErrorFunction<8> = ErrorFunction::new(&SECOND);
    let merged: ErrorFunction<8> = merge_error_functions(&first, &second).unwrap();
    for k in 0..8 {
        assert_eq!(merged.get(k), brute_force_min(&FIRST, &SECOND, k));
    }
}

#[test]
fn packing_allocations_add_up() {
    let first: ErrorFunction<8> = ErrorFunction::new(&FIRST);
    let second: ErrorFunction<8> = ErrorFunction::new(&SECOND);
    let third: ErrorFunction<8> = ErrorFunction::new(&THIRD);
    let merged: ErrorFunction<12> = merge_error_functions(&first, &second).unwrap();
    let merged: ErrorFunction<16> = merge_error_functions(&merged, &third).unwrap();
    for k in 0..16 {
        assert_eq!(merged.bits[k].len(), 3);
        assert_eq!(merged.bits[k].iter().sum::<usize>(), k);
        assert!(merged.bits[k].iter().all(|&b| b < 8));
    }
}

#[test]
fn three_channel_packing() {
    let first: ErrorFunction<8> = ErrorFunction::new(&FIRST);
    let second: ErrorFunction<8> = ErrorFunction::new(&SECOND);
    let third: ErrorFunction<8> = ErrorFunction::new(&THIRD);
    let merged: ErrorFunction<8> = merge_error_functions(&first, &second).unwrap();
    let merged: ErrorFunction<8> = merge_error_functions(&merged, &third).unwrap();
    assert_eq!(merged.get(7), 1_700_000);
    assert_eq!(merged.bits[7], vec![3, 4, 0]);
    let mut best = u64::MAX;
    for i in 0..8 {
        for j in 0..8 {
            for k in 0..8 {
                if i + j + k == 7 && FIRST[i] + SECOND[j] + THIRD[k] < best {
                    best = FIRST[i] + SECOND[j] + THIRD[k];
                }
            }
        }
    }
    assert_eq!(merged.get(7), best);
}

#[test]
fn merge_keeps_splits_within_both_curves() {
    let first: ErrorFunction<2> = ErrorFunction::new(&[0, 5]);
    let second: ErrorFunction<2> = ErrorFunction::new(&[5, 9]);
    let merged: ErrorFunction<3> = merge_error_functions(&first, &second).unwrap();
    assert_eq!(merged.values(), &[5, 9, 14]);
    assert_eq!(merged.bits[2], vec![1, 1]);
}

#[test]
fn merge_of_unequal_lengths_matches_brute_force() {
    let f = [9, 7, 2];
    let s = [8, 8, 3, 1, 0];
    let first: ErrorFunction<3> = ErrorFunction::new(&f);
    let second: ErrorFunction<5> = ErrorFunction::new(&s);
    let merged: ErrorFunction<7> = merge_error_functions(&first, &second).unwrap();
    for k in 0..7 {
        assert_eq!(merged.get(k), brute_force_min(&f, &s, k));
        let bits = &merged.bits[k];
        assert_eq!(bits[0] + bits[1], k);
        assert!(bits[0] < 3 && bits[1] < 5);
        assert_eq!(merged.get(k), f[bits[0]] + s[bits[1]]);
    }
}

#[test]
fn merge_ties_keep_smallest_first_share() {
    let first: ErrorFunction<3> = ErrorFunction::new(&[2, 1, 0]);
    let second: ErrorFunction<3> = ErrorFunction::new(&[2, 1, 0]);
    let merged: ErrorFunction<3> = merge_error_functions(&first, &second).unwrap();
    assert_eq!(merged.values(), &[4, 3, 2]);
    assert_eq!(merged.bits[2], vec![0, 2]);
}

#[test]
fn merge_rejects_insufficient_budget() {
    let first: ErrorFunction<2> = ErrorFunction::new(&[3, 1]);
    let second: ErrorFunction<2> = ErrorFunction::new(&[3, 1]);
    let merged: Result<ErrorFunction<4>, PackingError> = merge_error_functions(&first, &second);
    assert_eq!(merged.unwrap_err(), PackingError::InsufficientBudget);
    let merged: Result<ErrorFunction<3>, PackingError> = merge_error_functions(&first, &second);
    assert!(merged.is_ok());
}

#[test]
fn push_fills_entries_in_order() {
    let first: ErrorFunction<2> = ErrorFunction::new(&[7, 1]);
    let second: ErrorFunction<2> = ErrorFunction::new(&[4, 2]);
    let mut combined: ErrorFunction<3> = ErrorFunction::empty();
    combined.push(&first, &second);
    assert_eq!(combined.values(), &[11, u64::MAX, u64::MAX]);
    combined.push(&first, &second);
    assert_eq!(combined.values(), &[11, 5, u64::MAX]);
    assert_eq!(combined.bits[1], vec![1, 0]);
    combined.push(&first, &second);
    assert_eq!(combined.values(), &[11, 5, 3]);
    assert_eq!(combined.bits[2], vec![1, 1]);
}

#[test]
fn costs_fit_detects_overflow() {
    assert!(costs_fit(&[1, 2, 3], &[4, 5]));
    assert!(costs_fit(&[u64::MAX - 5, 0], &[5, 1]));
    assert!(!costs_fit(&[u64::MAX - 5, 0], &[6, 1]));
    assert!(costs_fit(&[], &[u64::MAX]));
}
