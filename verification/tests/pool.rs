use rank_matching::arena::{
    best_rank, player_states, seats_on, select_candidates, widen, Arena,
};

fn entry(id: &str, lo: u64, hi: u64, length: u64) -> (String, (u64, u64, u64, u64)) {
    (id.to_string(), (lo, hi, length, 0))
}

fn sorted<T: Ord>(mut v: Vec<T>) -> Vec<T> {
    v.sort();
    v
}

#[test]
fn seats_on_sums_the_windows_that_accept() {
    let l = vec![entry("a", 0, 10, 1), entry("b", 5, 15, 2), entry("c", 12, 20, 4)];
    assert_eq!(seats_on(&l, 0), 1);
    assert_eq!(seats_on(&l, 5), 3);
    assert_eq!(seats_on(&l, 11), 2);
    assert_eq!(seats_on(&l, 12), 6);
    assert_eq!(seats_on(&l, 15), 6);
    assert_eq!(seats_on(&l, 16), 4);
    assert_eq!(seats_on(&l, 21), 0);
}

#[test]
fn seats_on_does_not_wrap() {
    let l = vec![entry("a", 0, 0, u64::MAX), entry("b", 0, 0, u64::MAX)];
    assert_eq!(seats_on(&l, 0), 2 * (u64::MAX as u128));
}

#[test]
fn best_rank_of_nobody() {
    assert_eq!(best_rank(&vec![]), None);
    assert_eq!(select_candidates(&vec![]), vec![]);
}

#[test]
fn best_rank_of_one_point_window() {
    let l = vec![entry("a", 5, 5, 1)];
    assert_eq!(best_rank(&l), Some(5));
    assert_eq!(select_candidates(&l), vec![("a".to_string(), 1)]);
}

#[test]
fn best_rank_is_where_the_most_seats_meet() {
    let l = vec![entry("a", 0, 10, 1), entry("b", 5, 15, 2), entry("c", 12, 20, 4)];
    assert_eq!(best_rank(&l), Some(12));
    assert_eq!(select_candidates(&l), vec![("b".to_string(), 2), ("c".to_string(), 4)]);
}

#[test]
fn best_rank_is_the_lowest_of_equals() {
    let l = vec![entry("c", 12, 20, 1), entry("a", 0, 10, 1), entry("b", 5, 15, 1)];
    assert_eq!(best_rank(&l), Some(5));
    assert_eq!(select_candidates(&l), vec![("a".to_string(), 1), ("b".to_string(), 1)]);
    let apart = vec![entry("x", 30, 40, 2), entry("y", 7, 9, 2)];
    assert_eq!(best_rank(&apart), Some(7));
}

#[test]
fn best_rank_beats_every_rank_of_the_span() {
    let l = vec![
        entry("a", 3, 9, 2),
        entry("b", 1, 4, 1),
        entry("c", 8, 14, 3),
        entry("d", 9, 9, 1),
        entry("e", 0, 20, 1),
    ];
    let r = best_rank(&l).unwrap();
    for x in 0..=20u64 {
        assert!(seats_on(&l, x) <= seats_on(&l, r));
        if x < r {
            assert!(seats_on(&l, x) < seats_on(&l, r));
        }
    }
    assert_eq!(r, 9);
}

#[test]
fn best_rank_of_empty_parties_is_the_lowest_end() {
    let l = vec![entry("a", 4, 6, 0), entry("b", 2, 3, 0)];
    assert_eq!(best_rank(&l), Some(2));
    assert_eq!(select_candidates(&l), vec![("b".to_string(), 0)]);
}

#[test]
fn best_rank_of_the_widest_windows() {
    let l = vec![entry("a", 0, u64::MAX, 1), entry("b", u64::MAX, u64::MAX, 1)];
    assert_eq!(best_rank(&l), Some(u64::MAX));
    assert_eq!(select_candidates(&l).len(), 2);
}

#[test]
fn states_look_one_rank_past_the_window() {
    let l = vec![entry("p", 0, 0, 1), entry("q", 1, 1, 5)];
    assert_eq!(player_states(&l), vec![("p".to_string(), 5), ("q".to_string(), 5)]);
}

#[test]
fn states_are_the_peak_over_the_window() {
    let l = vec![entry("a", 0, 10, 1), entry("b", 5, 15, 2), entry("c", 12, 20, 4)];
    assert_eq!(
        player_states(&l),
        vec![("a".to_string(), 3), ("b".to_string(), 6), ("c".to_string(), 6)]
    );
}

#[test]
fn states_of_a_player_alone() {
    assert_eq!(player_states(&vec![entry("a", 3, 3, 2)]), vec![("a".to_string(), 2)]);
    assert_eq!(player_states(&vec![entry("a", 3, 3, 0)]), vec![("a".to_string(), 0)]);
    assert_eq!(player_states(&vec![]), vec![]);
}

#[test]
fn states_are_capped() {
    let l = vec![entry("a", 0, 0, u64::MAX), entry("b", 0, 0, 1)];
    assert_eq!(player_states(&l), vec![("a".to_string(), u64::MAX), ("b".to_string(), u64::MAX)]);
}

#[test]
fn states_at_the_top_of_the_range() {
    let l = vec![entry("a", u64::MAX, u64::MAX, 3), entry("b", 0, u64::MAX, 1)];
    assert_eq!(player_states(&l), vec![("a".to_string(), 4), ("b".to_string(), 4)]);
}

#[test]
fn widen_moves_both_ends() {
    assert_eq!(widen((100, 102, 1, 3)), (97, 105, 1, 3));
    assert_eq!(widen((5, 5, 2, 0)), (5, 5, 2, 0));
}

#[test]
fn widen_saturates() {
    assert_eq!(widen((2, u64::MAX - 1, 1, 3)), (0, u64::MAX, 1, 3));
    assert_eq!(widen((0, u64::MAX, 1, u64::MAX)), (0, u64::MAX, 1, u64::MAX));
    assert_eq!(widen((7, 7, 1, u64::MAX)), (0, u64::MAX, 1, u64::MAX));
}

#[test]
fn arena_starts_empty() {
    let arena = Arena::new();
    assert_eq!(arena.entries(), vec![]);
    assert_eq!(arena.rank_match(), vec![]);
    assert_eq!(arena.get_player_states(), vec![]);
}

#[test]
fn arena_insert_replaces() {
    let mut arena = Arena::new();
    assert_eq!(arena.insert("p".to_string(), 1, 10, 20, 2), None);
    assert_eq!(arena.insert("q".to_string(), 2, 0, 0, 0), None);
    assert_eq!(arena.insert("p".to_string(), 3, 11, 12, 4), Some((10, 20, 1, 2)));
    assert_eq!(
        sorted(arena.entries()),
        vec![("p".to_string(), (11, 12, 3, 4)), ("q".to_string(), (0, 0, 2, 0))]
    );
}

#[test]
fn arena_remove_hands_back_the_window() {
    let mut arena = Arena::new();
    arena.insert("p".to_string(), 1, 10, 20, 2);
    assert_eq!(arena.remove("nobody"), None);
    assert_eq!(arena.remove("p"), Some((10, 20, 1, 2)));
    assert_eq!(arena.remove("p"), None);
    assert_eq!(arena.entries(), vec![]);
}

#[test]
fn arena_rank_update_widens_everyone() {
    let mut arena = Arena::new();
    arena.insert("p".to_string(), 1, 100, 100, 1);
    arena.insert("q".to_string(), 1, 1, u64::MAX - 1, 5);
    arena.rank_update();
    arena.rank_update();
    assert_eq!(
        sorted(arena.entries()),
        vec![("p".to_string(), (98, 102, 1, 1)), ("q".to_string(), (0, u64::MAX, 1, 5))]
    );
}

#[test]
fn arena_windows_stay_upright() {
    let mut arena = Arena::new();
    arena.insert("a".to_string(), 1, 0, 0, u64::MAX);
    arena.insert("b".to_string(), 1, u64::MAX, u64::MAX, 1);
    arena.insert("c".to_string(), 1, 40, 60, 7);
    for _ in 0..10 {
        arena.rank_update();
        for (_, (lo, hi, _, _)) in arena.entries() {
            assert!(lo <= hi);
        }
    }
}

#[test]
fn arena_rank_match_returns_who_accepts_the_best_rank() {
    let mut arena = Arena::new();
    arena.insert("a".to_string(), 1, 0, 10, 0);
    arena.insert("b".to_string(), 2, 5, 15, 0);
    arena.insert("c".to_string(), 4, 12, 20, 0);
    arena.insert("d".to_string(), 1, 30, 31, 0);
    assert_eq!(sorted(arena.rank_match()), vec![("b".to_string(), 2), ("c".to_string(), 4)]);
}

#[test]
fn arena_states_name_every_player() {
    let mut arena = Arena::new();
    arena.insert("a".to_string(), 1, 0, 10, 0);
    arena.insert("b".to_string(), 2, 5, 15, 0);
    arena.insert("c".to_string(), 4, 12, 20, 0);
    arena.insert("d".to_string(), 1, 30, 31, 0);
    assert_eq!(
        sorted(arena.get_player_states()),
        vec![
            ("a".to_string(), 3),
            ("b".to_string(), 6),
            ("c".to_string(), 6),
            ("d".to_string(), 1)
        ]
    );
}
