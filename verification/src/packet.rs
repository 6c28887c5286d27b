//! The packets that lobbies and the matchmaker exchange, and their text form.
//!
//! A packet is written as `1,<kind>` followed by its fields.  A number is a
//! comma and decimal digits; a string is its byte count, a comma and the
//! characters.

use crate::tables::{info_entries, info_insert, info_list, info_new, keyed, lists, standings, Standing};
use crate::text::{number_field, number_read, string_field, string_read, CharReader, CharWriter};
use dashmap::DashMap;
use vstd::prelude::*;

verus! {

/// A message between a lobby and the matchmaker.
#[derive(Debug)]
pub enum Packet {
    /// Registers a pool that matches `num_players` seats at a time.
    AddArena { arena: String, num_players: u64 },
    /// Drops a pool and everyone waiting in it.
    RemoveArena(String),
    /// Puts a player, or a party of `length` seats led by it, into a pool.
    AddPlayer {
        arena: String,
        player: String,
        rank: u64,
        length: u64,
        init_rank_diff: u64,
        speed: u64,
    },
    /// Takes a player out of a pool.
    RemovePlayer { arena: String, player: String },
    /// Asks for a state report every `period` seconds; zero stops them.
    GetOrSubscribeState { period: u64 },
    /// A state report: for each player its pool and the seats around it.
    ConnectionState { player_info: DashMap<String, (String, u64)> },
    /// A match whose room is being set up under `stage_request_id`.
    MatchSuccess { arena: String, stage_request_id: u64, players: Vec<(String, u64)> },
    /// A match whose room could not be set up.
    MatchFailure { arena: String, error_id: u64, error_msg: String, players: Vec<(String, u64)> },
    /// The last packet received could not be read.
    FormatError { error: String },
}

/// Why a text is no packet.
#[derive(Debug)]
pub struct PacketFormat(pub &'static str);

/// The text does not begin with the version `1`.
pub const UNSUPPORTED_VERSION: &'static str = "不支持除了1之外的版本号。";

/// The packet kind is none of `1` to `9`.
pub const UNSUPPORTED_KIND: &'static str = "不支持除了1-9之外的包类别。";

/// A party in a match: the leading player and the seats it takes.
pub type Seat = (Seq<char>, u64);

/// A packet as a mathematical value.
pub ghost enum PacketView {
    AddArena { arena: Seq<char>, num_players: u64 },
    RemoveArena(Seq<char>),
    AddPlayer {
        arena: Seq<char>,
        player: Seq<char>,
        rank: u64,
        length: u64,
        init_rank_diff: u64,
        speed: u64,
    },
    RemovePlayer { arena: Seq<char>, player: Seq<char> },
    GetOrSubscribeState { period: u64 },
    ConnectionState { player_info: Map<Seq<char>, Standing> },
    MatchSuccess { arena: Seq<char>, stage_request_id: u64, players: Seq<Seat> },
    MatchFailure { arena: Seq<char>, error_id: u64, error_msg: Seq<char>, players: Seq<Seat> },
    FormatError { error: Seq<char> },
}

impl View for Packet {
    type V = PacketView;

    open spec fn view(&self) -> PacketView {
        match *self {
            Packet::AddArena { arena, num_players } => PacketView::AddArena {
                arena: arena@,
                num_players,
            },
            Packet::RemoveArena(arena) => PacketView::RemoveArena(arena@),
            Packet::AddPlayer {
                arena,
                player,
                rank,
                length,
                init_rank_diff,
                speed,
            } => PacketView::AddPlayer {
                arena: arena@,
                player: player@,
                rank,
                length,
                init_rank_diff,
                speed,
            },
            Packet::RemovePlayer { arena, player } => PacketView::RemovePlayer {
                arena: arena@,
                player: player@,
            },
            Packet::GetOrSubscribeState { period } => PacketView::GetOrSubscribeState { period },
            Packet::ConnectionState { player_info } => PacketView::ConnectionState {
                player_info: info_entries(player_info),
            },
            Packet::MatchSuccess { arena, stage_request_id, players } => PacketView::MatchSuccess {
                arena: arena@,
                stage_request_id,
                players: keyed(players@),
            },
            Packet::MatchFailure {
                arena,
                error_id,
                error_msg,
                players,
            } => PacketView::MatchFailure {
                arena: arena@,
                error_id,
                error_msg: error_msg@,
                players: keyed(players@),
            },
            Packet::FormatError { error } => PacketView::FormatError { error: error@ },
        }
    }
}

/// The parties of a match as they are written, one after the other.
pub open spec fn seats_text(ps: Seq<Seat>) -> Seq<char>
    decreases ps.len(),
{
    if ps.len() == 0 {
        Seq::empty()
    } else {
        seats_text(ps.drop_last()) + string_field(ps.last().0) + number_field(ps.last().1)
    }
}

/// The standings of a state report as they are written, in the order given.
pub open spec fn standings_text(l: Seq<(Seq<char>, Standing)>) -> Seq<char>
    decreases l.len(),
{
    if l.len() == 0 {
        Seq::empty()
    } else {
        standings_text(l.drop_last()) + string_field(l.last().0) + string_field(l.last().1.0)
            + number_field(l.last().1.1)
    }
}

/// The version and the kind that every packet begins with.
pub open spec fn head(kind: char) -> Seq<char> {
    seq!['1', ',', kind]
}

/// The digit that names the kind of `p`.
pub open spec fn kind_of(p: PacketView) -> char {
    match p {
        PacketView::AddArena { .. } => '1',
        PacketView::RemoveArena(_) => '2',
        PacketView::AddPlayer { .. } => '3',
        PacketView::RemovePlayer { .. } => '4',
        PacketView::GetOrSubscribeState { .. } => '5',
        PacketView::ConnectionState { .. } => '6',
        PacketView::MatchSuccess { .. } => '7',
        PacketView::MatchFailure { .. } => '8',
        PacketView::FormatError { .. } => '9',
    }
}

/// The fields of `p` as they are written, with the standings of a state
/// report in the order of `order`.
pub open spec fn fields_text(p: PacketView, order: Seq<(Seq<char>, Standing)>) -> Seq<char> {
    match p {
        PacketView::AddArena { arena, num_players } => string_field(arena) + number_field(
            num_players,
        ),
        PacketView::RemoveArena(arena) => string_field(arena),
        PacketView::AddPlayer { arena, player, rank, length, init_rank_diff, speed } =>
            string_field(arena) + string_field(player) + number_field(rank) + number_field(length)
                + number_field(init_rank_diff) + number_field(speed),
        PacketView::RemovePlayer { arena, player } => string_field(arena) + string_field(player),
        PacketView::GetOrSubscribeState { period } => number_field(period),
        PacketView::ConnectionState { player_info } => number_field(order.len() as u64)
            + standings_text(order),
        PacketView::MatchSuccess { arena, stage_request_id, players } => string_field(arena)
            + number_field(stage_request_id) + number_field(players.len() as u64) + seats_text(
            players,
        ),
        PacketView::MatchFailure { arena, error_id, error_msg, players } => string_field(arena)
            + number_field(error_id) + string_field(error_msg) + number_field(players.len() as u64)
            + seats_text(players),
        PacketView::FormatError { error } => string_field(error),
    }
}

/// The text of `p`: version, kind and fields, with the standings of a state
/// report in the order of `order`.
pub open spec fn packet_text(p: PacketView, order: Seq<(Seq<char>, Standing)>) -> Seq<char> {
    head(kind_of(p)) + fields_text(p, order)
}

/// `t` is a text of `p`.  A state report has one text for each order in
/// which its standings can be written; every other packet has one text.
pub open spec fn is_text_of(p: PacketView, t: Seq<char>) -> bool {
    match p {
        PacketView::ConnectionState { player_info } => exists|order: Seq<(Seq<char>, Standing)>|
            lists(order, player_info) && t == #[trigger] packet_text(p, order),
        _ => t == packet_text(p, Seq::empty()),
    }
}

impl CharWriter {
    /// Appends the parties of a match.
    fn write_seats(&mut self, players: &Vec<(String, u64)>)
        ensures
            final(self)@ == old(self)@ + seats_text(keyed(players@)),
    {
        let ghost ps = keyed(players@);
        let mut i: usize = 0;
        proof {
            assert(old(self)@ + seats_text(ps.take(0)) =~= old(self)@);
        }
        while i < players.len()
            invariant
                ps == keyed(players@),
                0 <= i <= players.len(),
                self@ == old(self)@ + seats_text(ps.take(i as int)),
            decreases players.len() - i,
        {
            self.write_string(players[i].0.as_str());
            self.write_number(players[i].1);
            proof {
                assert(ps.take(i + 1).drop_last() =~= ps.take(i as int));
                assert(ps.take(i + 1).last() == ps[i as int]);
                assert(self@ =~= old(self)@ + seats_text(ps.take(i + 1)));
            }
            i = i + 1;
        }
        proof {
            assert(ps.take(i as int) =~= ps);
        }
    }

    /// Appends the standings of a state report, in the order given.
    fn write_standings(&mut self, items: &Vec<(String, String, u64)>)
        ensures
            final(self)@ == old(self)@ + standings_text(standings(items@)),
    {
        let ghost l = standings(items@);
        let mut i: usize = 0;
        proof {
            assert(old(self)@ + standings_text(l.take(0)) =~= old(self)@);
        }
        while i < items.len()
            invariant
                l == standings(items@),
                0 <= i <= items.len(),
                self@ == old(self)@ + standings_text(l.take(i as int)),
            decreases items.len() - i,
        {
            self.write_string(items[i].0.as_str());
            self.write_string(items[i].1.as_str());
            self.write_number(items[i].2);
            proof {
                assert(l.take(i + 1).drop_last() =~= l.take(i as int));
                assert(l.take(i + 1).last() == l[i as int]);
                assert(self@ =~= old(self)@ + standings_text(l.take(i + 1)));
            }
            i = i + 1;
        }
        proof {
            assert(l.take(i as int) =~= l);
        }
    }

    /// Appends the fields of `packet` and tells in which order the
    /// standings of a state report went out.
    fn write_fields(&mut self, packet: &Packet) -> (order: Ghost<Seq<(Seq<char>, Standing)>>)
        ensures
            final(self)@ == old(self)@ + fields_text(packet@, order@),
            packet@ matches PacketView::ConnectionState { player_info } ==> lists(
                order@,
                player_info,
            ),
            !(packet@ is ConnectionState) ==> order@ == Seq::<(Seq<char>, Standing)>::empty(),
    {
        let ghost start = self@;
        let ghost mut order = Seq::<(Seq<char>, Standing)>::empty();
        match packet {
            Packet::AddArena { arena, num_players } => {
                self.write_string(arena.as_str());
                self.write_number(*num_players);
                proof {
                    assert(self@ =~= start + fields_text(packet@, order));
                }
            },
            Packet::RemoveArena(arena) => {
                self.write_string(arena.as_str());
            },
            Packet::AddPlayer { arena, player, rank, length, init_rank_diff, speed } => {
                self.write_string(arena.as_str());
                self.write_string(player.as_str());
                self.write_number(*rank);
                self.write_number(*length);
                self.write_number(*init_rank_diff);
                self.write_number(*speed);
                proof {
                    assert(self@ =~= start + fields_text(packet@, order));
                }
            },
            Packet::RemovePlayer { arena, player } => {
                self.write_string(arena.as_str());
                self.write_string(player.as_str());
                proof {
                    assert(self@ =~= start + fields_text(packet@, order));
                }
            },
            Packet::GetOrSubscribeState { period } => {
                self.write_number(*period);
            },
            Packet::ConnectionState { player_info } => {
                let items = info_list(player_info);
                self.write_number(items.len() as u64);
                self.write_standings(&items);
                proof {
                    order = standings(items@);
                    assert(self@ =~= start + fields_text(packet@, order));
                }
            },
            Packet::MatchSuccess { arena, stage_request_id, players } => {
                self.write_string(arena.as_str());
                self.write_number(*stage_request_id);
                self.write_number(players.len() as u64);
                self.write_seats(players);
                proof {
                    assert(self@ =~= start + fields_text(packet@, order));
                }
            },
            Packet::MatchFailure { arena, error_id, error_msg, players } => {
                self.write_string(arena.as_str());
                self.write_number(*error_id);
                self.write_string(error_msg.as_str());
                self.write_number(players.len() as u64);
                self.write_seats(players);
                proof {
                    assert(self@ =~= start + fields_text(packet@, order));
                }
            },
            Packet::FormatError { error } => {
                self.write_string(error.as_str());
            },
        }
        Ghost(order)
    }

    /// Appends the text of `packet`: version, kind and fields.
    pub fn write_packet(&mut self, packet: &Packet)
        ensures
            exists|t: Seq<char>| is_text_of(packet@, t) && final(self)@ == old(self)@ + t,
    {
        let ghost start = self@;
        self.write_char('1');
        self.write_char(',');
        let kind = match packet {
            Packet::AddArena { .. } => '1',
            Packet::RemoveArena(_) => '2',
            Packet::AddPlayer { .. } => '3',
            Packet::RemovePlayer { .. } => '4',
            Packet::GetOrSubscribeState { .. } => '5',
            Packet::ConnectionState { .. } => '6',
            Packet::MatchSuccess { .. } => '7',
            Packet::MatchFailure { .. } => '8',
            Packet::FormatError { .. } => '9',
        };
        self.write_char(kind);
        assert(self@ =~= start + head(kind_of(packet@)));
        let order = self.write_fields(packet);
        proof {
            let t = packet_text(packet@, order@);
            assert(self@ =~= start + t);
            assert(is_text_of(packet@, t));
        }
    }
}

/// Why a text is no packet.
pub ghost enum Fault {
    /// The text does not begin with `1,`.
    Version,
    /// What follows the version is not a digit from `1` to `9` and a comma.
    Kind,
}

/// The message that reports `f`.
pub open spec fn fault_text(f: Fault) -> Seq<char> {
    match f {
        Fault::Version => UNSUPPORTED_VERSION@,
        Fault::Kind => UNSUPPORTED_KIND@,
    }
}

/// Reading `n` parties off `s`, one after the other: the parties and what
/// is left of `s`.
pub open spec fn seats_read(s: Seq<char>, n: nat) -> (Seq<Seat>, Seq<char>)
    decreases n,
{
    if n == 0 {
        (Seq::empty(), s)
    } else {
        let (ps, s1) = seats_read(s, (n - 1) as nat);
        let (player, s2) = string_read(s1);
        let (length, s3) = number_read(s2);
        (ps.push((player, length)), s3)
    }
}

/// Reading `n` standings off `s`, one after the other, a later one
/// replacing an earlier one of the same player: the standings and what is
/// left of `s`.
pub open spec fn standings_read(s: Seq<char>, n: nat) -> (Map<Seq<char>, Standing>, Seq<char>)
    decreases n,
{
    if n == 0 {
        (Map::empty(), s)
    } else {
        let (m, s1) = standings_read(s, (n - 1) as nat);
        let (player, s2) = string_read(s1);
        let (arena, s3) = string_read(s2);
        let (coverage, s4) = number_read(s3);
        (m.insert(player, (arena, coverage)), s4)
    }
}

/// The packet of the given kind that the fields in `x` make, and what is
/// left of `x`.
pub open spec fn fields_read(kind: char, x: Seq<char>) -> (PacketView, Seq<char>) {
    if kind == '1' {
        let (arena, x1) = string_read(x);
        let (num_players, x2) = number_read(x1);
        (PacketView::AddArena { arena, num_players }, x2)
    } else if kind == '2' {
        let (arena, x1) = string_read(x);
        (PacketView::RemoveArena(arena), x1)
    } else if kind == '3' {
        let (arena, x1) = string_read(x);
        let (player, x2) = string_read(x1);
        let (rank, x3) = number_read(x2);
        let (length, x4) = number_read(x3);
        let (init_rank_diff, x5) = number_read(x4);
        let (speed, x6) = number_read(x5);
        (PacketView::AddPlayer { arena, player, rank, length, init_rank_diff, speed }, x6)
    } else if kind == '4' {
        let (arena, x1) = string_read(x);
        let (player, x2) = string_read(x1);
        (PacketView::RemovePlayer { arena, player }, x2)
    } else if kind == '5' {
        let (period, x1) = number_read(x);
        (PacketView::GetOrSubscribeState { period }, x1)
    } else if kind == '6' {
        let (n, x1) = number_read(x);
        let (player_info, x2) = standings_read(x1, n as nat);
        (PacketView::ConnectionState { player_info }, x2)
    } else if kind == '7' {
        let (arena, x1) = string_read(x);
        let (stage_request_id, x2) = number_read(x1);
        let (n, x3) = number_read(x2);
        let (players, x4) = seats_read(x3, n as nat);
        (PacketView::MatchSuccess { arena, stage_request_id, players }, x4)
    } else if kind == '8' {
        let (arena, x1) = string_read(x);
        let (error_id, x2) = number_read(x1);
        let (error_msg, x3) = string_read(x2);
        let (n, x4) = number_read(x3);
        let (players, x5) = seats_read(x4, n as nat);
        (PacketView::MatchFailure { arena, error_id, error_msg, players }, x5)
    } else {
        let (error, x1) = string_read(x);
        (PacketView::FormatError { error }, x1)
    }
}

/// What follows the version: a kind from `1` to `9`, a comma, the fields.
pub open spec fn parse_v1(u: Seq<char>) -> Result<PacketView, Fault> {
    if u.len() >= 2 && '1' <= u[0] <= '9' && u[1] == ',' {
        Ok(fields_read(u[0], u.skip(2)).0)
    } else {
        Err(Fault::Kind)
    }
}

/// The packet that the text `t` stands for, or why it stands for none.
pub open spec fn parse(t: Seq<char>) -> Result<PacketView, Fault> {
    if t.len() >= 2 && t[0] == '1' && t[1] == ',' {
        parse_v1(t.skip(2))
    } else {
        Err(Fault::Version)
    }
}

/// What is left of `u` after a packet was read off it: two characters are
/// taken for the kind and its comma, then the fields; where `u` stands for
/// no packet, only the two characters are taken.
pub open spec fn rest_v1(u: Seq<char>) -> Seq<char> {
    if parse_v1(u) is Ok {
        fields_read(u[0], u.skip(2)).1
    } else if u.len() >= 2 {
        u.skip(2)
    } else {
        Seq::empty()
    }
}

/// What is left of `t` after a packet was read off it: two characters are
/// taken for the version and its comma, then the rest as `rest_v1` says;
/// where the version is not `1`, only the two characters are taken.
pub open spec fn rest(t: Seq<char>) -> Seq<char> {
    if t.len() >= 2 && t[0] == '1' && t[1] == ',' {
        rest_v1(t.skip(2))
    } else if t.len() >= 2 {
        t.skip(2)
    } else {
        Seq::empty()
    }
}

impl CharReader {
    /// Reads `n` parties.
    fn read_seats(&mut self, n: u64) -> (players: Vec<(String, u64)>)
        ensures
            (keyed(players@), final(self)@) == seats_read(old(self)@, n as nat),
    {
        let mut players: Vec<(String, u64)> = Vec::new();
        let mut i: u64 = 0;
        while i < n
            invariant
                0 <= i <= n,
                (keyed(players@), self@) == seats_read(old(self)@, i as nat),
            decreases n - i,
        {
            let player = self.read_string();
            let length = self.read_number();
            players.push((player, length));
            i = i + 1;
        }
        players
    }

    /// Reads the fields of a pool registration.
    pub fn read_v1_add_arena(&mut self) -> (r: Result<Packet, PacketFormat>)
        ensures
            r matches Ok(p) && (p@, final(self)@) == fields_read('1', old(self)@),
    {
        let arena = self.read_string();
        let num_players = self.read_number();
        Ok(Packet::AddArena { arena, num_players })
    }

    /// Reads the fields of a pool removal.
    pub fn read_v1_remove_arena(&mut self) -> (r: Result<Packet, PacketFormat>)
        ensures
            r matches Ok(p) && (p@, final(self)@) == fields_read('2', old(self)@),
    {
        let arena = self.read_string();
        Ok(Packet::RemoveArena(arena))
    }

    /// Reads the fields of a player registration.
    pub fn read_v1_add_player(&mut self) -> (r: Result<Packet, PacketFormat>)
        ensures
            r matches Ok(p) && (p@, final(self)@) == fields_read('3', old(self)@),
    {
        let arena = self.read_string();
        let player = self.read_string();
        let rank = self.read_number();
        let length = self.read_number();
        let init_rank_diff = self.read_number();
        let speed = self.read_number();
        Ok(Packet::AddPlayer { arena, player, rank, length, init_rank_diff, speed })
    }

    /// Reads the fields of a player removal.
    pub fn read_v1_remove_player(&mut self) -> (r: Result<Packet, PacketFormat>)
        ensures
            r matches Ok(p) && (p@, final(self)@) == fields_read('4', old(self)@),
    {
        let arena = self.read_string();
        let player = self.read_string();
        Ok(Packet::RemovePlayer { arena, player })
    }

    /// Reads the field of a state subscription.
    pub fn read_v1_get_or_subscribe_state(&mut self) -> (r: Result<Packet, PacketFormat>)
        ensures
            r matches Ok(p) && (p@, final(self)@) == fields_read('5', old(self)@),
    {
        let period = self.read_number();
        Ok(Packet::GetOrSubscribeState { period })
    }

    /// Reads the fields of a state report.
    pub fn read_v1_connection_state(&mut self) -> (r: Result<Packet, PacketFormat>)
        ensures
            r matches Ok(p) && (p@, final(self)@) == fields_read('6', old(self)@),
    {
        let number = self.read_number();
        let ghost start = self@;
        let mut player_info = info_new();
        let mut i: u64 = 0;
        while i < number
            invariant
                0 <= i <= number,
                (info_entries(player_info), self@) == standings_read(start, i as nat),
            decreases number - i,
        {
            let player = self.read_string();
            let arena = self.read_string();
            let num_matched = self.read_number();
            info_insert(&mut player_info, player, arena, num_matched);
            i = i + 1;
        }
        Ok(Packet::ConnectionState { player_info })
    }

    /// Reads the fields of a match that succeeded.
    pub fn read_v1_match_success(&mut self) -> (r: Result<Packet, PacketFormat>)
        ensures
            r matches Ok(p) && (p@, final(self)@) == fields_read('7', old(self)@),
    {
        let arena = self.read_string();
        let stage_request_id = self.read_number();
        let number = self.read_number();
        let players = self.read_seats(number);
        Ok(Packet::MatchSuccess { arena, stage_request_id, players })
    }

    /// Reads the fields of a match that failed.
    pub fn read_v1_match_failure(&mut self) -> (r: Result<Packet, PacketFormat>)
        ensures
            r matches Ok(p) && (p@, final(self)@) == fields_read('8', old(self)@),
    {
        let arena = self.read_string();
        let error_id = self.read_number();
        let error_msg = self.read_string();
        let number = self.read_number();
        let players = self.read_seats(number);
        Ok(Packet::MatchFailure { arena, error_id, error_msg, players })
    }

    /// Reads the field of a format complaint.
    pub fn read_v1_format_error(&mut self) -> (r: Result<Packet, PacketFormat>)
        ensures
            r matches Ok(p) && (p@, final(self)@) == fields_read('9', old(self)@),
    {
        let error = self.read_string();
        Ok(Packet::FormatError { error })
    }

    /// Reads what follows the version: the kind, a comma and the fields.
    pub fn read_v1(&mut self) -> (r: Result<Packet, PacketFormat>)
        ensures
            final(self)@ == rest_v1(old(self)@),
            match r {
                Ok(p) => parse_v1(old(self)@) == Ok::<PacketView, Fault>(p@),
                Err(e) => parse_v1(old(self)@) == Err::<PacketView, Fault>(Fault::Kind) && e.0@
                    == UNSUPPORTED_KIND@,
            },
    {
        let kind = self.read_char();
        let comma = self.read_char();
        proof {
            if kind is Some && comma is Some {
                assert(old(self)@.drop_first().drop_first() =~= old(self)@.skip(2));
            } else {
                assert(self@ =~= Seq::<char>::empty());
            }
        }
        match (kind, comma) {
            (Some(k), Some(c)) => {
                if c != ',' {
                    Err(PacketFormat(UNSUPPORTED_KIND))
                } else if k == '1' {
                    self.read_v1_add_arena()
                } else if k == '2' {
                    self.read_v1_remove_arena()
                } else if k == '3' {
                    self.read_v1_add_player()
                } else if k == '4' {
                    self.read_v1_remove_player()
                } else if k == '5' {
                    self.read_v1_get_or_subscribe_state()
                } else if k == '6' {
                    self.read_v1_connection_state()
                } else if k == '7' {
                    self.read_v1_match_success()
                } else if k == '8' {
                    self.read_v1_match_failure()
                } else if k == '9' {
                    self.read_v1_format_error()
                } else {
                    Err(PacketFormat(UNSUPPORTED_KIND))
                }
            },
            _ => Err(PacketFormat(UNSUPPORTED_KIND)),
        }
    }

    /// Reads a whole packet: the version, a comma and the rest.
    pub fn read_packet(&mut self) -> (r: Result<Packet, PacketFormat>)
        ensures
            final(self)@ == rest(old(self)@),
            match r {
                Ok(p) => parse(old(self)@) == Ok::<PacketView, Fault>(p@),
                Err(e) => parse(old(self)@) matches Err(f) && e.0@ == fault_text(f),
            },
    {
        let version = self.read_char();
        let comma = self.read_char();
        proof {
            if version is Some && comma is Some {
                assert(old(self)@.drop_first().drop_first() =~= old(self)@.skip(2));
            } else {
                assert(self@ =~= Seq::<char>::empty());
            }
        }
        match (version, comma) {
            (Some(v), Some(c)) => {
                if v == '1' && c == ',' {
                    self.read_v1()
                } else {
                    Err(PacketFormat(UNSUPPORTED_VERSION))
                }
            },
            _ => Err(PacketFormat(UNSUPPORTED_VERSION)),
        }
    }
}

impl Packet {
    /// The packet that `text` stands for.
    pub fn from_str(text: &str) -> (r: Result<Packet, PacketFormat>)
        ensures
            match r {
                Ok(p) => parse(text@) == Ok::<PacketView, Fault>(p@),
                Err(e) => parse(text@) matches Err(f) && e.0@ == fault_text(f),
            },
    {
        let mut reader = CharReader::new(text);
        reader.read_packet()
    }

    /// The text of the packet.
    pub fn to_string(&self) -> (out: String)
        ensures
            is_text_of(self@, out@),
    {
        let mut writer = CharWriter::new();
        writer.write_packet(self);
        proof {
            let t = choose|t: Seq<char>| is_text_of(self@, t) && writer@ == Seq::<char>::empty() + t;
            assert(Seq::<char>::empty() + t =~= t);
        }
        writer.into_string()
    }
}

} // verus!
