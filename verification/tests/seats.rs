use rank_matching::matching::{choose_winners, Verdict};
use rank_matching::solver::solve_exact;

fn parties(lengths: &[u64]) -> Vec<(String, u64)> {
    let mut out = Vec::new();
    for (i, l) in lengths.iter().enumerate() {
        out.push((format!("p{}", i + 1), *l));
    }
    out
}

#[test]
fn solver_prefers_the_later_party_among_equals() {
    assert_eq!(solve_exact(&vec![3, 2, 2, 1], 4), Some(vec![true, false, false, true]));
}

#[test]
fn solver_reports_impossible() {
    assert_eq!(solve_exact(&vec![2, 2], 3), None);
}

#[test]
fn solver_takes_the_fewest_parties() {
    assert_eq!(solve_exact(&vec![1, 1, 1, 3], 3), Some(vec![false, false, false, true]));
    assert_eq!(solve_exact(&vec![3, 1, 1, 1], 3), Some(vec![true, false, false, false]));
    assert_eq!(solve_exact(&vec![1, 2, 1, 4, 1], 5), Some(vec![false, false, false, true, true]));
}

#[test]
fn solver_sum_is_the_target() {
    let lengths = vec![5u64, 3, 8, 2, 7, 1, 4];
    for target in 0..=30usize {
        if let Some(marks) = solve_exact(&lengths, target) {
            let mut sum = 0u64;
            for i in 0..lengths.len() {
                if marks[i] {
                    sum += lengths[i];
                }
            }
            assert_eq!(sum, target as u64);
        }
    }
}

#[test]
fn solver_impossible_means_no_subset() {
    let lengths = vec![4u64, 6, 10, 3];
    for target in 0..=25usize {
        let mut reachable = false;
        let mut best = usize::MAX;
        for mask in 0u32..16 {
            let mut sum = 0u64;
            for i in 0..4 {
                if mask & (1 << i) != 0 {
                    sum += lengths[i];
                }
            }
            if sum == target as u64 {
                reachable = true;
                best = best.min(mask.count_ones() as usize);
            }
        }
        match solve_exact(&lengths, target) {
            Some(marks) => {
                assert!(reachable);
                assert_eq!(marks.iter().filter(|m| **m).count(), best);
            },
            None => assert!(!reachable),
        }
    }
}

#[test]
fn solver_of_zero_seats_takes_nobody() {
    assert_eq!(solve_exact(&vec![1, 2], 0), Some(vec![false, false]));
    assert_eq!(solve_exact(&vec![], 0), Some(vec![]));
    assert_eq!(solve_exact(&vec![], 1), None);
}

#[test]
fn solver_passes_over_parties_that_are_too_large() {
    assert_eq!(solve_exact(&vec![5, 1, 1], 2), Some(vec![false, true, true]));
    assert_eq!(solve_exact(&vec![u64::MAX, 2], 2), Some(vec![false, true]));
}

#[test]
fn solver_never_takes_an_empty_party() {
    assert_eq!(solve_exact(&vec![0, 2, 0], 2), Some(vec![false, true, false]));
}

#[test]
fn too_few_seats_are_short() {
    assert!(matches!(choose_winners(&parties(&[1, 1]), 3), Verdict::Short));
    assert!(matches!(choose_winners(&parties(&[]), 1), Verdict::Short));
}

#[test]
fn exactly_enough_seats_make_everyone_a_winner() {
    match choose_winners(&parties(&[1, 2, 1]), 4) {
        Verdict::Winners(w) => assert_eq!(w, parties(&[1, 2, 1])),
        _ => panic!("no winners"),
    }
}

#[test]
fn oversubscribed_picks_exact_sum() {
    match choose_winners(&parties(&[3, 2, 2, 1]), 4) {
        Verdict::Winners(w) => {
            assert_eq!(w, vec![("p1".to_string(), 3), ("p4".to_string(), 1)]);
        },
        _ => panic!("no winners"),
    }
}

#[test]
fn oversubscribed_and_infeasible() {
    assert!(matches!(choose_winners(&parties(&[2, 2]), 3), Verdict::Impossible));
}

#[test]
fn seat_totals_beyond_a_word_do_not_wrap() {
    let many = parties(&[u64::MAX, u64::MAX, 2]);
    match choose_winners(&many, 2) {
        Verdict::Winners(w) => assert_eq!(w, vec![("p3".to_string(), 2)]),
        _ => panic!("no winners"),
    }
}
