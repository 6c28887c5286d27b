use rank_matching::lobby::{Lobby, MatchEvent, Outcome, Reaction};
use rank_matching::packet::{Packet, UNSUPPORTED_KIND, UNSUPPORTED_VERSION};

fn add_arena(lobby: &mut Lobby, session: u64, arena: &str, seats: u64) -> Outcome {
    lobby.handle_packet(session, Packet::AddArena { arena: arena.to_string(), num_players: seats })
}

fn add_player(
    lobby: &mut Lobby,
    session: u64,
    arena: &str,
    player: &str,
    rank: u64,
    length: u64,
    diff: u64,
    speed: u64,
) -> Outcome {
    lobby.handle_packet(
        session,
        Packet::AddPlayer {
            arena: arena.to_string(),
            player: player.to_string(),
            rank,
            length,
            init_rank_diff: diff,
            speed,
        },
    )
}

fn players_of(lobby: &mut Lobby, arena: &str) -> Vec<(String, (u64, u64, u64, u64))> {
    let mut players = lobby.pool(arena).unwrap().1;
    players.sort();
    players
}

fn groups_of(event: &MatchEvent) -> Vec<(u64, Vec<(String, u64)>)> {
    let mut groups = Vec::new();
    for item in event.collected.iter() {
        let mut parties = item.value().clone();
        parties.sort();
        groups.push((*item.key(), parties));
    }
    groups.sort();
    groups
}

#[test]
fn new_lobby_is_empty() {
    let mut lobby = Lobby::new();
    assert_eq!(lobby.arena_names(), Vec::<String>::new());
    assert_eq!(lobby.owner_of("p1"), None);
    assert!(lobby.pool("A").is_none());
    assert!(lobby.tick().is_empty());
}

#[test]
fn add_arena_registers_once() {
    let mut lobby = Lobby::new();
    assert_eq!(add_arena(&mut lobby, 1, "A", 2), Outcome::ArenaAdded);
    assert_eq!(add_arena(&mut lobby, 2, "A", 5), Outcome::ArenaExists);
    assert_eq!(lobby.pool("A"), Some((2, vec![])));
    assert_eq!(lobby.arena_names(), vec!["A".to_string()]);
}

#[test]
fn add_arena_keeps_the_players_of_an_existing_pool() {
    let mut lobby = Lobby::new();
    add_arena(&mut lobby, 1, "A", 2);
    add_player(&mut lobby, 1, "A", "p1", 10, 1, 0, 0);
    assert_eq!(add_arena(&mut lobby, 1, "A", 2), Outcome::ArenaExists);
    assert_eq!(players_of(&mut lobby, "A"), vec![("p1".to_string(), (10, 10, 1, 0))]);
}

#[test]
fn add_arena_without_seats_is_rejected() {
    let mut lobby = Lobby::new();
    assert_eq!(add_arena(&mut lobby, 1, "A", 0), Outcome::ArenaRejected);
    assert!(lobby.pool("A").is_none());
    assert!(lobby.arena_names().is_empty());
}

#[test]
fn remove_arena_drops_the_pool() {
    let mut lobby = Lobby::new();
    add_arena(&mut lobby, 1, "A", 2);
    add_arena(&mut lobby, 1, "B", 2);
    add_player(&mut lobby, 1, "A", "p1", 10, 1, 0, 0);
    assert_eq!(lobby.handle_packet(1, Packet::RemoveArena("A".to_string())), Outcome::ArenaRemoved);
    assert_eq!(lobby.handle_packet(1, Packet::RemoveArena("A".to_string())), Outcome::NoSuchArena);
    assert!(lobby.pool("A").is_none());
    assert_eq!(lobby.arena_names(), vec!["B".to_string()]);
}

#[test]
fn add_player_opens_the_first_window() {
    let mut lobby = Lobby::new();
    add_arena(&mut lobby, 1, "A", 2);
    assert_eq!(add_player(&mut lobby, 7, "A", "p1", 100, 3, 20, 4), Outcome::PlayerAdded);
    assert_eq!(players_of(&mut lobby, "A"), vec![("p1".to_string(), (80, 120, 3, 4))]);
    assert_eq!(lobby.owner_of("p1"), Some(7));
}

#[test]
fn add_player_window_saturates() {
    let mut lobby = Lobby::new();
    add_arena(&mut lobby, 1, "A", 2);
    add_player(&mut lobby, 1, "A", "low", 5, 1, 9, 0);
    add_player(&mut lobby, 1, "A", "high", u64::MAX - 2, 1, 9, 0);
    assert_eq!(
        players_of(&mut lobby, "A"),
        vec![
            ("high".to_string(), (u64::MAX - 11, u64::MAX, 1, 0)),
            ("low".to_string(), (0, 14, 1, 0))
        ]
    );
}

#[test]
fn add_player_again_replaces_window_and_owner() {
    let mut lobby = Lobby::new();
    add_arena(&mut lobby, 1, "A", 2);
    add_player(&mut lobby, 1, "A", "p1", 100, 1, 0, 1);
    add_player(&mut lobby, 2, "A", "p1", 50, 2, 5, 3);
    assert_eq!(players_of(&mut lobby, "A"), vec![("p1".to_string(), (45, 55, 2, 3))]);
    assert_eq!(lobby.owner_of("p1"), Some(2));
}

#[test]
fn add_player_to_unknown_pool_changes_nothing() {
    let mut lobby = Lobby::new();
    assert_eq!(add_player(&mut lobby, 1, "A", "p1", 100, 1, 0, 1), Outcome::NoSuchArena);
    assert_eq!(lobby.owner_of("p1"), None);
    assert!(lobby.arena_names().is_empty());
}

#[test]
fn remove_player_takes_window_and_owner() {
    let mut lobby = Lobby::new();
    add_arena(&mut lobby, 1, "A", 2);
    add_player(&mut lobby, 1, "A", "p1", 100, 1, 0, 1);
    add_player(&mut lobby, 1, "A", "p2", 100, 1, 0, 1);
    let remove = Packet::RemovePlayer { arena: "A".to_string(), player: "p1".to_string() };
    assert_eq!(lobby.handle_packet(1, remove), Outcome::PlayerRemoved);
    assert_eq!(players_of(&mut lobby, "A"), vec![("p2".to_string(), (100, 100, 1, 1))]);
    assert_eq!(lobby.owner_of("p1"), None);
    assert_eq!(lobby.owner_of("p2"), Some(1));
}

#[test]
fn remove_player_from_unknown_pool_keeps_the_owner() {
    let mut lobby = Lobby::new();
    add_arena(&mut lobby, 1, "A", 2);
    add_player(&mut lobby, 1, "A", "p1", 100, 1, 0, 1);
    let remove = Packet::RemovePlayer { arena: "B".to_string(), player: "p1".to_string() };
    assert_eq!(lobby.handle_packet(1, remove), Outcome::NoSuchArena);
    assert_eq!(lobby.owner_of("p1"), Some(1));
}

#[test]
fn subscription_packets() {
    let mut lobby = Lobby::new();
    assert_eq!(
        lobby.handle_packet(1, Packet::GetOrSubscribeState { period: 5 }),
        Outcome::Subscribed(5)
    );
    assert_eq!(lobby.handle_packet(1, Packet::GetOrSubscribeState { period: 0 }), Outcome::Paused);
}

#[test]
fn packets_of_the_matchmaker_are_out_of_place() {
    let mut lobby = Lobby::new();
    add_arena(&mut lobby, 1, "A", 2);
    let p = Packet::MatchSuccess { arena: "A".to_string(), stage_request_id: 1, players: vec![] };
    assert_eq!(lobby.handle_packet(1, p), Outcome::OutOfPlace);
    let p = Packet::FormatError { error: "x".to_string() };
    assert_eq!(lobby.handle_packet(1, p), Outcome::OutOfPlace);
    assert_eq!(lobby.pool("A"), Some((2, vec![])));
}

#[test]
fn handle_text_acts_on_packets() {
    let mut lobby = Lobby::new();
    assert!(matches!(lobby.handle_text(3, "1,1,1,A,2"), Reaction::Handled(Outcome::ArenaAdded)));
    assert!(matches!(
        lobby.handle_text(3, "1,3,1,A,2,p1,100,1,10,2"),
        Reaction::Handled(Outcome::PlayerAdded)
    ));
    assert_eq!(players_of(&mut lobby, "A"), vec![("p1".to_string(), (90, 110, 1, 2))]);
    assert_eq!(lobby.owner_of("p1"), Some(3));
    assert!(matches!(lobby.handle_text(3, "1,5,30"), Reaction::Handled(Outcome::Subscribed(30))));
}

#[test]
fn handle_text_complains_about_what_is_no_packet() {
    let mut lobby = Lobby::new();
    match lobby.handle_text(3, "hello") {
        Reaction::Complaint(text) => {
            assert_eq!(
                text,
                format!("1,9,{},{}", UNSUPPORTED_VERSION.len(), UNSUPPORTED_VERSION)
            );
        },
        Reaction::Handled(_) => panic!("no complaint"),
    }
    match lobby.handle_text(3, "1,x,") {
        Reaction::Complaint(text) => {
            assert_eq!(text, format!("1,9,{},{}", UNSUPPORTED_KIND.len(), UNSUPPORTED_KIND));
        },
        Reaction::Handled(_) => panic!("no complaint"),
    }
    assert!(lobby.arena_names().is_empty());
}

#[test]
fn exact_match_single_party() {
    let mut lobby = Lobby::new();
    add_arena(&mut lobby, 9, "A", 2);
    add_player(&mut lobby, 9, "A", "p1", 100, 1, 0, 1);
    add_player(&mut lobby, 9, "A", "p2", 102, 1, 0, 1);
    assert!(lobby.tick().is_empty());
    assert_eq!(
        players_of(&mut lobby, "A"),
        vec![("p1".to_string(), (99, 101, 1, 1)), ("p2".to_string(), (101, 103, 1, 1))]
    );
    let events = lobby.tick();
    assert_eq!(events.len(), 1);
    assert_eq!(events[0].arena, "A");
    assert_eq!(
        groups_of(&events[0]),
        vec![(9, vec![("p1".to_string(), 1), ("p2".to_string(), 1)])]
    );
    assert_eq!(players_of(&mut lobby, "A"), vec![]);
    assert_eq!(lobby.owner_of("p1"), None);
    assert_eq!(lobby.owner_of("p2"), None);
    assert!(lobby.tick().is_empty());
}

#[test]
fn oversubscribed_pool_matches_exactly_the_seats() {
    let mut lobby = Lobby::new();
    add_arena(&mut lobby, 1, "A", 4);
    add_player(&mut lobby, 1, "A", "p1", 50, 3, 0, 0);
    add_player(&mut lobby, 1, "A", "p2", 50, 2, 0, 0);
    add_player(&mut lobby, 1, "A", "p3", 50, 2, 0, 0);
    add_player(&mut lobby, 1, "A", "p4", 50, 1, 0, 0);
    let events = lobby.tick();
    assert_eq!(events.len(), 1);
    let groups = groups_of(&events[0]);
    assert_eq!(groups.len(), 1);
    let winners = &groups[0].1;
    assert_eq!(winners.len(), 2);
    assert_eq!(winners.iter().map(|w| w.1).sum::<u64>(), 4);
    let left = players_of(&mut lobby, "A");
    assert_eq!(left.len(), 2);
    assert_eq!(left.iter().map(|p| p.1 .2).sum::<u64>(), 4);
    for (id, _) in winners {
        assert!(left.iter().all(|p| &p.0 != id));
        assert_eq!(lobby.owner_of(id), None);
    }
}

#[test]
fn oversubscribed_and_infeasible_pool_waits() {
    let mut lobby = Lobby::new();
    add_arena(&mut lobby, 1, "A", 3);
    add_player(&mut lobby, 1, "A", "p1", 50, 2, 0, 1);
    add_player(&mut lobby, 1, "A", "p2", 50, 2, 0, 1);
    for tick in 1..=3u64 {
        assert!(lobby.tick().is_empty());
        assert_eq!(
            players_of(&mut lobby, "A"),
            vec![
                ("p1".to_string(), (50 - tick, 50 + tick, 2, 1)),
                ("p2".to_string(), (50 - tick, 50 + tick, 2, 1))
            ]
        );
    }
    assert_eq!(lobby.owner_of("p1"), Some(1));
}

#[test]
fn windows_widen_until_they_meet() {
    let mut lobby = Lobby::new();
    add_arena(&mut lobby, 1, "A", 2);
    add_player(&mut lobby, 1, "A", "p1", 0, 1, 0, 1);
    add_player(&mut lobby, 1, "A", "p2", 10, 1, 0, 1);
    for k in 0..5u64 {
        assert!(lobby.tick().is_empty(), "matched at tick {}", k);
        assert_eq!(
            players_of(&mut lobby, "A"),
            vec![("p1".to_string(), (0, k + 1, 1, 1)), ("p2".to_string(), (9 - k, 11 + k, 1, 1))]
        );
    }
    let events = lobby.tick();
    assert_eq!(events.len(), 1);
    assert_eq!(
        groups_of(&events[0]),
        vec![(1, vec![("p1".to_string(), 1), ("p2".to_string(), 1)])]
    );
}

#[test]
fn too_few_seats_make_no_match() {
    let mut lobby = Lobby::new();
    add_arena(&mut lobby, 1, "A", 3);
    add_player(&mut lobby, 1, "A", "p1", 10, 1, 0, 0);
    add_player(&mut lobby, 1, "A", "p2", 10, 1, 0, 0);
    assert!(lobby.tick().is_empty());
    assert_eq!(players_of(&mut lobby, "A").len(), 2);
}

#[test]
fn winners_are_grouped_by_session() {
    let mut lobby = Lobby::new();
    add_arena(&mut lobby, 1, "A", 4);
    add_player(&mut lobby, 1, "A", "a1", 10, 1, 0, 0);
    add_player(&mut lobby, 2, "A", "b1", 10, 1, 0, 0);
    add_player(&mut lobby, 1, "A", "a2", 10, 1, 0, 0);
    add_player(&mut lobby, 3, "A", "c1", 10, 1, 0, 0);
    let events = lobby.tick();
    assert_eq!(events.len(), 1);
    assert_eq!(
        groups_of(&events[0]),
        vec![
            (1, vec![("a1".to_string(), 1), ("a2".to_string(), 1)]),
            (2, vec![("b1".to_string(), 1)]),
            (3, vec![("c1".to_string(), 1)])
        ]
    );
}

#[test]
fn match_tells_of_exactly_the_players_that_left() {
    let mut lobby = Lobby::new();
    add_arena(&mut lobby, 1, "A", 3);
    for (i, rank) in [10u64, 11, 12, 40, 41].iter().enumerate() {
        add_player(&mut lobby, (i % 2) as u64, "A", &format!("p{}", i), *rank, 1, 1, 0);
    }
    let before: Vec<String> = players_of(&mut lobby, "A").into_iter().map(|p| p.0).collect();
    let events = lobby.tick();
    assert_eq!(events.len(), 1);
    let after: Vec<String> = players_of(&mut lobby, "A").into_iter().map(|p| p.0).collect();
    let mut left: Vec<String> = before.into_iter().filter(|p| !after.contains(p)).collect();
    left.sort();
    let mut told: Vec<String> = Vec::new();
    for (_, parties) in groups_of(&events[0]) {
        for (id, _) in parties {
            told.push(id);
        }
    }
    told.sort();
    assert_eq!(left, told);
    assert_eq!(told, vec!["p0".to_string(), "p1".to_string(), "p2".to_string()]);
}

#[test]
fn a_winner_without_owner_leaves_untold() {
    let mut lobby = Lobby::new();
    add_arena(&mut lobby, 1, "A", 2);
    add_arena(&mut lobby, 1, "B", 2);
    add_player(&mut lobby, 1, "A", "p", 10, 1, 0, 0);
    add_player(&mut lobby, 1, "B", "p", 10, 1, 0, 0);
    add_player(&mut lobby, 1, "B", "q", 10, 1, 0, 0);
    lobby.handle_packet(1, Packet::RemovePlayer { arena: "A".to_string(), player: "p".to_string() });
    assert_eq!(lobby.owner_of("p"), None);
    let events = lobby.tick();
    assert_eq!(events.len(), 1);
    assert_eq!(events[0].arena, "B");
    assert_eq!(groups_of(&events[0]), vec![(1, vec![("q".to_string(), 1)])]);
    assert_eq!(players_of(&mut lobby, "B"), vec![]);
}

#[test]
fn tick_arena_ticks_one_pool_only() {
    let mut lobby = Lobby::new();
    add_arena(&mut lobby, 1, "A", 2);
    add_arena(&mut lobby, 1, "B", 2);
    add_player(&mut lobby, 1, "A", "p1", 10, 1, 0, 2);
    add_player(&mut lobby, 1, "B", "p2", 10, 1, 0, 2);
    assert!(lobby.tick_arena("A").is_none());
    assert!(lobby.tick_arena("nowhere").is_none());
    assert_eq!(players_of(&mut lobby, "A"), vec![("p1".to_string(), (8, 12, 1, 2))]);
    assert_eq!(players_of(&mut lobby, "B"), vec![("p2".to_string(), (10, 10, 1, 2))]);
}

#[test]
fn tick_widens_after_a_match_too() {
    let mut lobby = Lobby::new();
    add_arena(&mut lobby, 1, "A", 2);
    add_player(&mut lobby, 1, "A", "p1", 10, 1, 0, 1);
    add_player(&mut lobby, 1, "A", "p2", 10, 1, 0, 1);
    add_player(&mut lobby, 1, "A", "far", 90, 1, 0, 3);
    let events = lobby.tick();
    assert_eq!(events.len(), 1);
    assert_eq!(players_of(&mut lobby, "A"), vec![("far".to_string(), (87, 93, 1, 3))]);
}

#[test]
fn every_pool_has_its_turn() {
    let mut lobby = Lobby::new();
    for name in ["A", "B", "C"] {
        add_arena(&mut lobby, 1, name, 1);
        add_player(&mut lobby, 1, name, &format!("in{}", name), 5, 1, 0, 0);
    }
    let mut made: Vec<String> = lobby.tick().into_iter().map(|e| e.arena).collect();
    made.sort();
    assert_eq!(made, vec!["A".to_string(), "B".to_string(), "C".to_string()]);
}

#[test]
fn disconnect_cleanup() {
    let mut lobby = Lobby::new();
    add_arena(&mut lobby, 1, "A", 5);
    add_arena(&mut lobby, 2, "B", 5);
    add_player(&mut lobby, 1, "A", "p1", 10, 1, 0, 0);
    add_player(&mut lobby, 1, "A", "p2", 10, 1, 0, 0);
    add_player(&mut lobby, 2, "A", "p3", 10, 1, 0, 0);
    add_player(&mut lobby, 1, "B", "p4", 10, 1, 0, 0);
    let mut gone = lobby.close_session(1);
    gone.sort();
    assert_eq!(gone, vec!["p1".to_string(), "p2".to_string(), "p4".to_string()]);
    assert_eq!(players_of(&mut lobby, "A"), vec![("p3".to_string(), (10, 10, 1, 0))]);
    assert_eq!(players_of(&mut lobby, "B"), vec![]);
    for p in ["p1", "p2", "p4"] {
        assert_eq!(lobby.owner_of(p), None);
    }
    assert_eq!(lobby.owner_of("p3"), Some(2));
    let mut names = lobby.arena_names();
    names.sort();
    assert_eq!(names, vec!["A".to_string(), "B".to_string()]);
}

#[test]
fn closing_a_session_without_players_changes_nothing() {
    let mut lobby = Lobby::new();
    add_arena(&mut lobby, 1, "A", 5);
    add_player(&mut lobby, 2, "A", "p3", 10, 1, 0, 0);
    assert_eq!(lobby.close_session(1), Vec::<String>::new());
    assert_eq!(players_of(&mut lobby, "A"), vec![("p3".to_string(), (10, 10, 1, 0))]);
    assert_eq!(lobby.owner_of("p3"), Some(2));
}

#[test]
fn close_takes_a_player_out_of_every_pool() {
    let mut lobby = Lobby::new();
    add_arena(&mut lobby, 1, "A", 5);
    add_arena(&mut lobby, 1, "B", 5);
    add_player(&mut lobby, 2, "A", "p", 10, 1, 0, 0);
    add_player(&mut lobby, 1, "B", "p", 10, 1, 0, 0);
    assert_eq!(lobby.owner_of("p"), Some(1));
    assert_eq!(lobby.close_session(1), vec!["p".to_string()]);
    assert_eq!(players_of(&mut lobby, "A"), vec![]);
    assert_eq!(players_of(&mut lobby, "B"), vec![]);
}

#[test]
fn state_report_names_every_waiting_player() {
    let mut lobby = Lobby::new();
    add_arena(&mut lobby, 1, "A", 9);
    add_arena(&mut lobby, 1, "B", 9);
    add_player(&mut lobby, 1, "A", "a", 5, 1, 5, 0);
    add_player(&mut lobby, 1, "A", "b", 10, 2, 5, 0);
    add_player(&mut lobby, 2, "B", "c", 7, 4, 0, 0);
    match lobby.state_report() {
        Packet::ConnectionState { player_info } => {
            assert_eq!(player_info.len(), 3);
            assert_eq!(*player_info.get("a").unwrap(), ("A".to_string(), 3));
            assert_eq!(*player_info.get("b").unwrap(), ("A".to_string(), 3));
            assert_eq!(*player_info.get("c").unwrap(), ("B".to_string(), 4));
        },
        _ => panic!("not a state report"),
    }
    assert_eq!(players_of(&mut lobby, "A").len(), 2);
    assert_eq!(lobby.owner_of("c"), Some(2));
}

#[test]
fn state_report_of_an_empty_lobby() {
    let mut lobby = Lobby::new();
    add_arena(&mut lobby, 1, "A", 9);
    match lobby.state_report() {
        Packet::ConnectionState { player_info } => assert!(player_info.is_empty()),
        _ => panic!("not a state report"),
    }
}

#[test]
fn state_report_of_a_player_in_two_pools_names_one_of_them() {
    let mut lobby = Lobby::new();
    add_arena(&mut lobby, 1, "A", 9);
    add_arena(&mut lobby, 1, "B", 9);
    add_player(&mut lobby, 1, "A", "p", 5, 1, 0, 0);
    add_player(&mut lobby, 1, "B", "p", 5, 2, 0, 0);
    match lobby.state_report() {
        Packet::ConnectionState { player_info } => {
            assert_eq!(player_info.len(), 1);
            let standing = player_info.get("p").unwrap().clone();
            assert!(
                standing == ("A".to_string(), 1) || standing == ("B".to_string(), 2),
                "{:?}",
                standing
            );
        },
        _ => panic!("not a state report"),
    }
}
