use dashmap::DashMap;
use rank_matching::packet::{Packet, PacketFormat, UNSUPPORTED_KIND, UNSUPPORTED_VERSION};
use rank_matching::text::{digit_of, CharReader, CharWriter};

fn reread(p: &Packet) -> Packet {
    match Packet::from_str(&p.to_string()) {
        Ok(q) => q,
        Err(PacketFormat(why)) => panic!("no packet: {}", why),
    }
}

fn rest_of(reader: &mut CharReader) -> String {
    let mut out = String::new();
    while let Some(c) = reader.read_char() {
        out.push(c);
    }
    out
}

#[test]
fn write_number_is_comma_and_decimal() {
    let mut w = CharWriter::new();
    w.write_number(0);
    w.write_number(7);
    w.write_number(1203);
    w.write_number(u64::MAX);
    assert_eq!(w.into_string(), ",0,7,1203,18446744073709551615");
}

#[test]
fn write_digits_has_no_comma() {
    let mut w = CharWriter::new();
    w.write_digits(90);
    w.write_digits(0);
    assert_eq!(w.into_string(), "900");
}

#[test]
fn write_string_counts_bytes() {
    let mut w = CharWriter::new();
    w.write_string("arena");
    w.write_string("");
    w.write_string("a,b");
    w.write_string("é1");
    assert_eq!(w.into_string(), ",5,arena,0,,3,a,b,3,é1");
}

#[test]
fn digit_of_tells_digits_apart() {
    assert_eq!(digit_of('0'), Some(0));
    assert_eq!(digit_of('9'), Some(9));
    assert_eq!(digit_of('/'), None);
    assert_eq!(digit_of(':'), None);
    assert_eq!(digit_of('٣'), None);
}

#[test]
fn read_number_passes_over_what_is_no_digit() {
    let mut r = CharReader::new(",;x 12,34");
    assert_eq!(r.read_number(), 12);
    assert_eq!(rest_of(&mut r), "34");
}

#[test]
fn read_number_takes_one_character_after_the_digits() {
    let mut r = CharReader::new("7ab");
    assert_eq!(r.read_number(), 7);
    assert_eq!(rest_of(&mut r), "b");
}

#[test]
fn read_number_of_nothing_is_zero() {
    let mut r = CharReader::new("");
    assert_eq!(r.read_number(), 0);
    let mut r = CharReader::new(",,,");
    assert_eq!(r.read_number(), 0);
    assert_eq!(rest_of(&mut r), "");
}

#[test]
fn read_number_wraps_at_two_to_the_sixty_four() {
    let mut r = CharReader::new("18446744073709551615");
    assert_eq!(r.read_number(), u64::MAX);
    let mut r = CharReader::new("18446744073709551616");
    assert_eq!(r.read_number(), 0);
    let mut r = CharReader::new("18446744073709551621,");
    assert_eq!(r.read_number(), 5);
}

#[test]
fn read_number_keeps_leading_zeros_harmless() {
    let mut r = CharReader::new("00042,");
    assert_eq!(r.read_number(), 42);
}

#[test]
fn read_string_takes_exactly_the_count() {
    let mut r = CharReader::new(",3,a,b,9");
    assert_eq!(r.read_string(), "a,b");
    assert_eq!(rest_of(&mut r), ",9");
}

#[test]
fn read_string_stops_where_the_text_ends() {
    let mut r = CharReader::new("10,abc");
    assert_eq!(r.read_string(), "abc");
    assert_eq!(rest_of(&mut r), "");
}

#[test]
fn read_char_hands_out_in_order() {
    let mut r = CharReader::new("ab");
    assert_eq!(r.read_char(), Some('a'));
    assert_eq!(r.read_char(), Some('b'));
    assert_eq!(r.read_char(), None);
    assert_eq!(r.read_char(), None);
}

#[test]
fn reader_written_by_writer() {
    let mut w = CharWriter::new();
    w.write_string("lobby");
    w.write_number(99);
    w.write_string("x");
    let text = w.into_string();
    let mut r = CharReader::new(&text);
    assert_eq!(r.read_string(), "lobby");
    assert_eq!(r.read_number(), 99);
    assert_eq!(r.read_string(), "x");
}

#[test]
fn add_arena_text() {
    let p = Packet::AddArena { arena: "arena".to_string(), num_players: 4 };
    assert_eq!(p.to_string(), "1,1,5,arena,4");
}

#[test]
fn remove_arena_text() {
    assert_eq!(Packet::RemoveArena("duel".to_string()).to_string(), "1,2,4,duel");
}

#[test]
fn add_player_text() {
    let p = Packet::AddPlayer {
        arena: "A".to_string(),
        player: "p1".to_string(),
        rank: 100,
        length: 1,
        init_rank_diff: 0,
        speed: 2,
    };
    assert_eq!(p.to_string(), "1,3,1,A,2,p1,100,1,0,2");
}

#[test]
fn remove_player_text() {
    let p = Packet::RemovePlayer { arena: "A".to_string(), player: "p1".to_string() };
    assert_eq!(p.to_string(), "1,4,1,A,2,p1");
}

#[test]
fn subscribe_text() {
    assert_eq!(Packet::GetOrSubscribeState { period: 5 }.to_string(), "1,5,5");
}

#[test]
fn connection_state_text_of_one_player() {
    let player_info = DashMap::new();
    player_info.insert("p1".to_string(), ("A".to_string(), 3u64));
    assert_eq!(Packet::ConnectionState { player_info }.to_string(), "1,6,1,2,p1,1,A,3");
}

#[test]
fn connection_state_text_of_nobody() {
    let player_info = DashMap::new();
    assert_eq!(Packet::ConnectionState { player_info }.to_string(), "1,6,0");
}

#[test]
fn match_success_text() {
    let p = Packet::MatchSuccess {
        arena: "A".to_string(),
        stage_request_id: 77,
        players: vec![("p1".to_string(), 1), ("team".to_string(), 3)],
    };
    assert_eq!(p.to_string(), "1,7,1,A,77,2,2,p1,1,4,team,3");
}

#[test]
fn match_failure_text() {
    let p = Packet::MatchFailure {
        arena: "A".to_string(),
        error_id: 9001,
        error_msg: "down".to_string(),
        players: vec![("p1".to_string(), 1)],
    };
    assert_eq!(p.to_string(), "1,8,1,A,9001,4,down,1,2,p1,1");
}

#[test]
fn format_error_text() {
    let p = Packet::FormatError { error: "bad".to_string() };
    assert_eq!(p.to_string(), "1,9,3,bad");
}

#[test]
fn parse_add_arena() {
    match Packet::from_str("1,1,5,arena,4") {
        Ok(Packet::AddArena { arena, num_players }) => {
            assert_eq!(arena, "arena");
            assert_eq!(num_players, 4);
        },
        _ => panic!("not a pool registration"),
    }
}

#[test]
fn parse_add_player_has_six_fields() {
    match Packet::from_str("1,3,1,A,2,p1,100,1,7,2") {
        Ok(Packet::AddPlayer { arena, player, rank, length, init_rank_diff, speed }) => {
            assert_eq!(arena, "A");
            assert_eq!(player, "p1");
            assert_eq!(rank, 100);
            assert_eq!(length, 1);
            assert_eq!(init_rank_diff, 7);
            assert_eq!(speed, 2);
        },
        _ => panic!("not a player registration"),
    }
}

#[test]
fn parse_rejects_other_versions() {
    for text in ["", "1", "2,1,1,A,2", "11,1,A", "x"] {
        match Packet::from_str(text) {
            Err(PacketFormat(why)) => assert_eq!(why, UNSUPPORTED_VERSION),
            Ok(_) => panic!("{} was read as a packet", text),
        }
    }
}

#[test]
fn parse_rejects_other_kinds() {
    for text in ["1,", "1,0,1,A", "1,a,1,A", "1,1", "1,12,1,A", "1,,"] {
        match Packet::from_str(text) {
            Err(PacketFormat(why)) => assert_eq!(why, UNSUPPORTED_KIND),
            Ok(_) => panic!("{} was read as a packet", text),
        }
    }
}

#[test]
fn parse_fills_missing_fields_with_nothing() {
    match Packet::from_str("1,7,1,A,5,2") {
        Ok(Packet::MatchSuccess { arena, stage_request_id, players }) => {
            assert_eq!(arena, "A");
            assert_eq!(stage_request_id, 5);
            assert_eq!(players, vec![(String::new(), 0), (String::new(), 0)]);
        },
        _ => panic!("not a match"),
    }
}

#[test]
fn parse_later_standing_replaces_earlier() {
    match Packet::from_str("1,6,2,1,p,1,A,3,1,p,1,B,4") {
        Ok(Packet::ConnectionState { player_info }) => {
            assert_eq!(player_info.len(), 1);
            assert_eq!(*player_info.get("p").unwrap(), ("B".to_string(), 4));
        },
        _ => panic!("not a state report"),
    }
}

#[test]
fn round_trip_add_arena() {
    match reread(&Packet::AddArena { arena: "ranked 2v2".to_string(), num_players: 4 }) {
        Packet::AddArena { arena, num_players } => {
            assert_eq!(arena, "ranked 2v2");
            assert_eq!(num_players, 4);
        },
        _ => panic!("another kind"),
    }
}

#[test]
fn round_trip_remove_arena() {
    match reread(&Packet::RemoveArena("1,2,3".to_string())) {
        Packet::RemoveArena(arena) => assert_eq!(arena, "1,2,3"),
        _ => panic!("another kind"),
    }
}

#[test]
fn round_trip_add_player() {
    let p = Packet::AddPlayer {
        arena: "".to_string(),
        player: "42".to_string(),
        rank: u64::MAX,
        length: 0,
        init_rank_diff: 18,
        speed: 1_000_000,
    };
    match reread(&p) {
        Packet::AddPlayer { arena, player, rank, length, init_rank_diff, speed } => {
            assert_eq!(arena, "");
            assert_eq!(player, "42");
            assert_eq!(rank, u64::MAX);
            assert_eq!(length, 0);
            assert_eq!(init_rank_diff, 18);
            assert_eq!(speed, 1_000_000);
        },
        _ => panic!("another kind"),
    }
}

#[test]
fn round_trip_remove_player() {
    match reread(&Packet::RemovePlayer { arena: "A".to_string(), player: ",".to_string() }) {
        Packet::RemovePlayer { arena, player } => {
            assert_eq!(arena, "A");
            assert_eq!(player, ",");
        },
        _ => panic!("another kind"),
    }
}

#[test]
fn round_trip_subscribe() {
    for period in [0u64, 1, 5, u64::MAX] {
        match reread(&Packet::GetOrSubscribeState { period }) {
            Packet::GetOrSubscribeState { period: back } => assert_eq!(back, period),
            _ => panic!("another kind"),
        }
    }
}

#[test]
fn round_trip_connection_state() {
    let player_info = DashMap::new();
    player_info.insert("p1".to_string(), ("A".to_string(), 3u64));
    player_info.insert("p2".to_string(), ("B".to_string(), 0u64));
    player_info.insert("7".to_string(), ("8".to_string(), 9u64));
    match reread(&Packet::ConnectionState { player_info }) {
        Packet::ConnectionState { player_info } => {
            assert_eq!(player_info.len(), 3);
            assert_eq!(*player_info.get("p1").unwrap(), ("A".to_string(), 3));
            assert_eq!(*player_info.get("p2").unwrap(), ("B".to_string(), 0));
            assert_eq!(*player_info.get("7").unwrap(), ("8".to_string(), 9));
        },
        _ => panic!("another kind"),
    }
}

#[test]
fn round_trip_match_success() {
    let p = Packet::MatchSuccess {
        arena: "A".to_string(),
        stage_request_id: 12345,
        players: vec![("p1".to_string(), 3), ("p4".to_string(), 1), ("".to_string(), 0)],
    };
    match reread(&p) {
        Packet::MatchSuccess { arena, stage_request_id, players } => {
            assert_eq!(arena, "A");
            assert_eq!(stage_request_id, 12345);
            assert_eq!(
                players,
                vec![("p1".to_string(), 3), ("p4".to_string(), 1), ("".to_string(), 0)]
            );
        },
        _ => panic!("another kind"),
    }
}

#[test]
fn round_trip_match_failure() {
    let p = Packet::MatchFailure {
        arena: "A".to_string(),
        error_id: 9000,
        error_msg: "invalid JSON: expected value at line 1 column 1".to_string(),
        players: vec![("p1".to_string(), 2)],
    };
    match reread(&p) {
        Packet::MatchFailure { arena, error_id, error_msg, players } => {
            assert_eq!(arena, "A");
            assert_eq!(error_id, 9000);
            assert_eq!(error_msg, "invalid JSON: expected value at line 1 column 1");
            assert_eq!(players, vec![("p1".to_string(), 2)]);
        },
        _ => panic!("another kind"),
    }
}

#[test]
fn round_trip_format_error() {
    match reread(&Packet::FormatError { error: "no such kind".to_string() }) {
        Packet::FormatError { error } => assert_eq!(error, "no such kind"),
        _ => panic!("another kind"),
    }
}

#[test]
fn write_packet_appends_to_what_is_there() {
    let mut w = CharWriter::new();
    w.write_char('>');
    w.write_packet(&Packet::GetOrSubscribeState { period: 3 });
    w.write_packet(&Packet::RemoveArena("A".to_string()));
    assert_eq!(w.into_string(), ">1,5,31,2,1,A");
}

#[test]
fn read_v1_starts_at_the_kind() {
    let mut r = CharReader::new("2,1,A");
    match r.read_v1() {
        Ok(Packet::RemoveArena(arena)) => assert_eq!(arena, "A"),
        _ => panic!("not a pool removal"),
    }
}
