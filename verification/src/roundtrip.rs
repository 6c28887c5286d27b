//! Reading back what was written: every packet of the wire grammar is the
//! packet that its text stands for.

use crate::packet::{
    fields_read, fields_text, is_text_of, kind_of, packet_text, parse, seats_read, seats_text,
    standings_read, standings_text, Fault, PacketView, Seat,
};
use crate::tables::{lemma_lists_drop_last, lemma_lists_len, lists, Standing};
use crate::text::{
    byte_count, decimal, digit_char, digit_value, digits_value, is_digit, junk_len, number_field,
    number_read, run_len, string_field, string_read, wrap,
};
use vstd::prelude::*;
use vstd::utf8::{is_ascii_chars, is_ascii_chars_encode_utf8};

verus! {

/// The decimal form of a number is a non-empty run of digits that reads as
/// the number.
pub proof fn lemma_decimal(n: nat)
    ensures
        decimal(n).len() >= 1,
        forall|i: int| 0 <= i < decimal(n).len() ==> is_digit(#[trigger] decimal(n)[i]),
        digits_value(decimal(n)) == n,
    decreases n,
{
    if n < 10 {
        let c = digit_char(n);
        assert(is_digit(c));
        assert(digit_value(c) == n);
        assert(decimal(n) =~= seq![c]);
        assert(seq![c].drop_last() =~= Seq::<char>::empty());
        assert(digits_value(seq![c].drop_last()) == 0);
    } else {
        lemma_decimal(n / 10);
        let c = digit_char(n % 10);
        assert(is_digit(c));
        assert(digit_value(c) == n % 10);
        let d = decimal(n / 10);
        assert(d.push(c).drop_last() =~= d);
        assert(d.push(c).last() == c);
    }
}

/// A run of digits followed by something that is no digit is as long as it
/// looks.
pub proof fn lemma_run_len(d: Seq<char>, tail: Seq<char>)
    requires
        forall|i: int| 0 <= i < d.len() ==> is_digit(#[trigger] d[i]),
        tail.len() == 0 || !is_digit(tail[0]),
    ensures
        run_len(d + tail) == d.len(),
    decreases d.len(),
{
    if d.len() == 0 {
        assert(d + tail =~= tail);
    } else {
        assert((d + tail)[0] == d[0]);
        assert((d + tail).drop_first() =~= d.drop_first() + tail);
        assert forall|i: int| 0 <= i < d.drop_first().len() implies is_digit(
            #[trigger] d.drop_first()[i],
        ) by {
            assert(d.drop_first()[i] == d[i + 1]);
        }
        lemma_run_len(d.drop_first(), tail);
    }
}

/// `x` is `y`, or `y` without the comma it begins with.
pub open spec fn chomped(x: Seq<char>, y: Seq<char>) -> bool {
    x == y || (y.len() > 0 && y[0] == ',' && x == y.drop_first())
}

/// `t` is empty or begins with a comma, as every run of fields does.
pub open spec fn fielded(t: Seq<char>) -> bool {
    t.len() == 0 || t[0] == ','
}

/// `t` without its first character, if it has one.
pub open spec fn eaten(t: Seq<char>) -> Seq<char> {
    if t.len() > 0 {
        t.drop_first()
    } else {
        t
    }
}

/// The digits of a number, followed by something that is no digit, read
/// as the number.
proof fn lemma_digits_read(t: Seq<char>, n: u64, tail: Seq<char>)
    requires
        t == decimal(n as nat) + tail,
        tail.len() == 0 || !is_digit(tail[0]),
    ensures
        junk_len(t) == 0,
        number_read(t) == (n, eaten(tail)),
{
    lemma_decimal(n as nat);
    let d = decimal(n as nat);
    assert(t[0] == d[0]);
    assert(is_digit(d[0]));
    assert(t.skip(0) =~= t);
    lemma_run_len(d, tail);
    assert(t.take(d.len() as int) =~= d);
    vstd::arithmetic::div_mod::lemma_small_mod(n as nat, wrap() as nat);
    if tail.len() > 0 {
        assert(t.skip(d.len() as int + 1) =~= tail.drop_first());
    } else {
        assert(t.skip(d.len() as int) =~= tail);
    }
}

/// A written number reads back as itself, with or without its comma, and
/// the read takes the comma of the next field along.
pub proof fn lemma_number_read(x: Seq<char>, n: u64, tail: Seq<char>)
    requires
        chomped(x, number_field(n) + tail),
        fielded(tail),
    ensures
        number_read(x) == (n, eaten(tail)),
        chomped(eaten(tail), tail),
{
    let d = decimal(n as nat);
    let y = number_field(n) + tail;
    let t = d + tail;
    lemma_digits_read(t, n, tail);
    assert(y[0] == ',');
    assert(y.drop_first() =~= t);
    if x == y {
        assert(junk_len(x) == 1 + junk_len(x.drop_first()));
        assert(x.skip(1) =~= t);
        assert(t.skip(0) =~= t);
    }
}

/// A string that can go on the wire unchanged: ASCII, and no longer than a
/// machine word can count.
pub open spec fn plain(s: Seq<char>) -> bool {
    is_ascii_chars(s) && s.len() <= usize::MAX
}

/// A written string reads back as itself, with or without its comma, and
/// the read stops right after it.
pub proof fn lemma_string_read(x: Seq<char>, s: Seq<char>, tail: Seq<char>)
    requires
        chomped(x, string_field(s) + tail),
        plain(s),
    ensures
        string_read(x) == (s, tail),
{
    is_ascii_chars_encode_utf8(s);
    let c = byte_count(s) as u64;
    assert(c == s.len());
    let rest = seq![','] + s + tail;
    assert(string_field(s) + tail =~= number_field(c) + rest);
    lemma_number_read(x, c, rest);
    assert(eaten(rest) =~= s + tail);
    assert((s + tail).take(s.len() as int) =~= s);
    assert((s + tail).skip(s.len() as int) =~= tail);
}

/// Every player of `ps` has a plain name.
pub open spec fn seats_plain(ps: Seq<Seat>) -> bool {
    forall|i: int| 0 <= i < ps.len() ==> plain((#[trigger] ps[i]).0)
}

/// Every player and every pool of `l` has a plain name.
pub open spec fn standings_plain(l: Seq<(Seq<char>, Standing)>) -> bool {
    forall|i: int| 0 <= i < l.len() ==> plain((#[trigger] l[i]).0) && plain(l[i].1.0)
}

/// A run of written parties is empty or begins with a comma.
pub proof fn lemma_seats_fielded(ps: Seq<Seat>, tail: Seq<char>)
    requires
        fielded(tail),
    ensures
        fielded(seats_text(ps) + tail),
    decreases ps.len(),
{
    if ps.len() == 0 {
        assert(seats_text(ps) + tail =~= tail);
    } else {
        let e = ps.last();
        let rest = string_field(e.0) + number_field(e.1) + tail;
        assert(rest[0] == ',');
        lemma_seats_fielded(ps.drop_last(), rest);
        assert(seats_text(ps) + tail =~= seats_text(ps.drop_last()) + rest);
    }
}

/// Written parties read back as themselves.
pub proof fn lemma_seats_read(x: Seq<char>, ps: Seq<Seat>, tail: Seq<char>)
    requires
        chomped(x, seats_text(ps) + tail),
        fielded(tail),
        seats_plain(ps),
    ensures
        seats_read(x, ps.len()).0 == ps,
        chomped(seats_read(x, ps.len()).1, tail),
    decreases ps.len(),
{
    if ps.len() == 0 {
        assert(seats_text(ps) + tail =~= tail);
    } else {
        let e = ps.last();
        let pd = ps.drop_last();
        let after_name = number_field(e.1) + tail;
        let rest = string_field(e.0) + after_name;
        assert(seats_text(ps) + tail =~= seats_text(pd) + rest);
        assert(rest[0] == ',');
        assert forall|i: int| 0 <= i < pd.len() implies plain((#[trigger] pd[i]).0) by {
            assert(pd[i] == ps[i]);
        }
        lemma_seats_read(x, pd, rest);
        let (got, s1) = seats_read(x, pd.len());
        assert(plain(ps[ps.len() - 1].0));
        lemma_string_read(s1, e.0, after_name);
        lemma_number_read(after_name, e.1, tail);
        assert(pd.push(e) =~= ps);
    }
}

/// A run of written standings is empty or begins with a comma.
pub proof fn lemma_standings_fielded(l: Seq<(Seq<char>, Standing)>, tail: Seq<char>)
    requires
        fielded(tail),
    ensures
        fielded(standings_text(l) + tail),
    decreases l.len(),
{
    if l.len() == 0 {
        assert(standings_text(l) + tail =~= tail);
    } else {
        let e = l.last();
        let rest = string_field(e.0) + string_field(e.1.0) + number_field(e.1.1) + tail;
        assert(rest[0] == ',');
        lemma_standings_fielded(l.drop_last(), rest);
        assert(standings_text(l) + tail =~= standings_text(l.drop_last()) + rest);
    }
}

/// Written standings read back as the map that they enumerate.
pub proof fn lemma_standings_read(
    x: Seq<char>,
    l: Seq<(Seq<char>, Standing)>,
    m: Map<Seq<char>, Standing>,
    tail: Seq<char>,
)
    requires
        lists(l, m),
        chomped(x, standings_text(l) + tail),
        fielded(tail),
        standings_plain(l),
    ensures
        standings_read(x, l.len()).0 == m,
        chomped(standings_read(x, l.len()).1, tail),
    decreases l.len(),
{
    if l.len() == 0 {
        assert(standings_text(l) + tail =~= tail);
        assert(m =~= Map::empty());
    } else {
        let e = l.last();
        let ld = l.drop_last();
        let after_arena = number_field(e.1.1) + tail;
        let after_player = string_field(e.1.0) + after_arena;
        let rest = string_field(e.0) + after_player;
        assert(standings_text(l) + tail =~= standings_text(ld) + rest);
        assert(rest[0] == ',');
        assert forall|i: int| 0 <= i < ld.len() implies plain((#[trigger] ld[i]).0) && plain(
            ld[i].1.0,
        ) by {
            assert(ld[i] == l[i]);
        }
        lemma_lists_drop_last(l, m);
        lemma_standings_read(x, ld, m.remove(e.0), rest);
        let (got, s1) = standings_read(x, ld.len());
        assert(plain(l[l.len() - 1].0) && plain(l[l.len() - 1].1.0));
        lemma_string_read(s1, e.0, after_player);
        lemma_string_read(after_player, e.1.0, after_arena);
        lemma_number_read(after_arena, e.1.1, tail);
        assert(m.remove(e.0).insert(e.0, e.1) =~= m);
    }
}

/// `p` is a packet of the wire grammar: its strings are plain and its
/// lists are no longer than a number field can say.
pub open spec fn in_grammar(p: PacketView) -> bool {
    match p {
        PacketView::AddArena { arena, .. } => plain(arena),
        PacketView::RemoveArena(arena) => plain(arena),
        PacketView::AddPlayer { arena, player, .. } => plain(arena) && plain(player),
        PacketView::RemovePlayer { arena, player } => plain(arena) && plain(player),
        PacketView::GetOrSubscribeState { .. } => true,
        PacketView::ConnectionState { player_info } => {
            &&& player_info.dom().finite()
            &&& player_info.dom().len() <= u64::MAX
            &&& forall|k: Seq<char>| #[trigger]
                player_info.contains_key(k) ==> plain(k) && plain(player_info[k].0)
        },
        PacketView::MatchSuccess { arena, players, .. } => {
            &&& plain(arena)
            &&& players.len() <= u64::MAX
            &&& seats_plain(players)
        },
        PacketView::MatchFailure { arena, error_msg, players, .. } => {
            &&& plain(arena)
            &&& plain(error_msg)
            &&& players.len() <= u64::MAX
            &&& seats_plain(players)
        },
        PacketView::FormatError { error } => plain(error),
    }
}

/// The fields of a pool registration read back as the registration.
proof fn lemma_add_arena_back(p: PacketView, x: Seq<char>)
    requires
        in_grammar(p),
        p is AddArena,
        chomped(x, fields_text(p, Seq::empty())),
    ensures
        fields_read('1', x).0 == p,
{
    let none = Seq::<char>::empty();
    if let PacketView::AddArena { arena, num_players } = p {
        let t1 = number_field(num_players);
        assert(fields_text(p, Seq::empty()) =~= string_field(arena) + t1);
        lemma_string_read(x, arena, t1);
        assert(t1 + none =~= t1);
        lemma_number_read(t1, num_players, none);
    }
}

/// The field of a pool removal reads back as the removal.
proof fn lemma_remove_arena_back(p: PacketView, x: Seq<char>)
    requires
        in_grammar(p),
        p is RemoveArena,
        chomped(x, fields_text(p, Seq::empty())),
    ensures
        fields_read('2', x).0 == p,
{
    let none = Seq::<char>::empty();
    if let PacketView::RemoveArena(arena) = p {
        assert(fields_text(p, Seq::empty()) =~= string_field(arena) + none);
        lemma_string_read(x, arena, none);
    }
}

/// The fields of a player registration read back as the registration.
proof fn lemma_add_player_back(p: PacketView, x: Seq<char>)
    requires
        in_grammar(p),
        p is AddPlayer,
        chomped(x, fields_text(p, Seq::empty())),
    ensures
        fields_read('3', x).0 == p,
{
    let none = Seq::<char>::empty();
    if let PacketView::AddPlayer { arena, player, rank, length, init_rank_diff, speed } = p {
        let t6 = number_field(speed);
        let t5 = number_field(init_rank_diff) + t6;
        let t4 = number_field(length) + t5;
        let t3 = number_field(rank) + t4;
        let t2 = string_field(player) + t3;
        assert(fields_text(p, Seq::empty()) =~= string_field(arena) + t2);
        lemma_string_read(x, arena, t2);
        lemma_string_read(t2, player, t3);
        assert(t4[0] == ',' && t5[0] == ',' && t6[0] == ',');
        lemma_number_read(t3, rank, t4);
        lemma_number_read(eaten(t4), length, t5);
        lemma_number_read(eaten(t5), init_rank_diff, t6);
        assert(t6 + none =~= t6);
        lemma_number_read(eaten(t6), speed, none);
    }
}

/// The fields of a player removal read back as the removal.
proof fn lemma_remove_player_back(p: PacketView, x: Seq<char>)
    requires
        in_grammar(p),
        p is RemovePlayer,
        chomped(x, fields_text(p, Seq::empty())),
    ensures
        fields_read('4', x).0 == p,
{
    let none = Seq::<char>::empty();
    if let PacketView::RemovePlayer { arena, player } = p {
        let t2 = string_field(player);
        assert(fields_text(p, Seq::empty()) =~= string_field(arena) + t2);
        lemma_string_read(x, arena, t2);
        assert(t2 + none =~= t2);
        lemma_string_read(t2, player, none);
    }
}

/// The field of a subscription reads back as the subscription.
proof fn lemma_subscribe_back(p: PacketView, x: Seq<char>)
    requires
        p is GetOrSubscribeState,
        chomped(x, fields_text(p, Seq::empty())),
    ensures
        fields_read('5', x).0 == p,
{
    let none = Seq::<char>::empty();
    if let PacketView::GetOrSubscribeState { period } = p {
        assert(fields_text(p, Seq::empty()) =~= number_field(period) + none);
        lemma_number_read(x, period, none);
    }
}

/// The fields of a state report, written in any order of its standings,
/// read back as the report.
proof fn lemma_state_back(p: PacketView, order: Seq<(Seq<char>, Standing)>, x: Seq<char>)
    requires
        in_grammar(p),
        p matches PacketView::ConnectionState { player_info } && lists(order, player_info),
        chomped(x, fields_text(p, order)),
    ensures
        fields_read('6', x).0 == p,
{
    let none = Seq::<char>::empty();
    if let PacketView::ConnectionState { player_info } = p {
        lemma_lists_len(order, player_info);
        let n = order.len() as u64;
        let body = standings_text(order);
        assert(body + none =~= body);
        lemma_standings_fielded(order, none);
        lemma_number_read(x, n, body);
        assert forall|i: int| 0 <= i < order.len() implies plain((#[trigger] order[i]).0) && plain(
            order[i].1.0,
        ) by {
            assert(player_info.contains_pair(order[i].0, order[i].1));
        }
        lemma_standings_read(eaten(body), order, player_info, none);
    }
}

/// The fields of a match that succeeded read back as the match.
proof fn lemma_success_back(p: PacketView, x: Seq<char>)
    requires
        in_grammar(p),
        p is MatchSuccess,
        chomped(x, fields_text(p, Seq::empty())),
    ensures
        fields_read('7', x).0 == p,
{
    let none = Seq::<char>::empty();
    if let PacketView::MatchSuccess { arena, stage_request_id, players } = p {
        let n = players.len() as u64;
        let body = seats_text(players);
        assert(body + none =~= body);
        lemma_seats_fielded(players, none);
        let t3 = number_field(n) + body;
        let t2 = number_field(stage_request_id) + t3;
        assert(fields_text(p, Seq::empty()) =~= string_field(arena) + t2);
        lemma_string_read(x, arena, t2);
        assert(t3[0] == ',');
        lemma_number_read(t2, stage_request_id, t3);
        lemma_number_read(eaten(t3), n, body);
        lemma_seats_read(eaten(body), players, none);
    }
}

/// The fields of a match that failed read back as the match.
proof fn lemma_failure_back(p: PacketView, x: Seq<char>)
    requires
        in_grammar(p),
        p is MatchFailure,
        chomped(x, fields_text(p, Seq::empty())),
    ensures
        fields_read('8', x).0 == p,
{
    let none = Seq::<char>::empty();
    if let PacketView::MatchFailure { arena, error_id, error_msg, players } = p {
        let n = players.len() as u64;
        let body = seats_text(players);
        assert(body + none =~= body);
        lemma_seats_fielded(players, none);
        let t4 = number_field(n) + body;
        let t3 = string_field(error_msg) + t4;
        let t2 = number_field(error_id) + t3;
        assert(fields_text(p, Seq::empty()) =~= string_field(arena) + t2);
        lemma_string_read(x, arena, t2);
        assert(t3[0] == ',');
        lemma_number_read(t2, error_id, t3);
        lemma_string_read(eaten(t3), error_msg, t4);
        lemma_number_read(t4, n, body);
        lemma_seats_read(eaten(body), players, none);
    }
}

/// The field of a format complaint reads back as the complaint.
proof fn lemma_format_error_back(p: PacketView, x: Seq<char>)
    requires
        in_grammar(p),
        p is FormatError,
        chomped(x, fields_text(p, Seq::empty())),
    ensures
        fields_read('9', x).0 == p,
{
    let none = Seq::<char>::empty();
    if let PacketView::FormatError { error } = p {
        assert(fields_text(p, Seq::empty()) =~= string_field(error) + none);
        lemma_string_read(x, error, none);
    }
}

/// The fields of a packet of the grammar, read with or without the comma
/// they begin with, make the packet.
proof fn lemma_fields_round_trip(p: PacketView, order: Seq<(Seq<char>, Standing)>, x: Seq<char>)
    requires
        in_grammar(p),
        p matches PacketView::ConnectionState { player_info } ==> lists(order, player_info),
        !(p is ConnectionState) ==> order == Seq::<(Seq<char>, Standing)>::empty(),
        chomped(x, fields_text(p, order)),
    ensures
        fields_read(kind_of(p), x).0 == p,
{
    match p {
        PacketView::AddArena { .. } => lemma_add_arena_back(p, x),
        PacketView::RemoveArena(_) => lemma_remove_arena_back(p, x),
        PacketView::AddPlayer { .. } => lemma_add_player_back(p, x),
        PacketView::RemovePlayer { .. } => lemma_remove_player_back(p, x),
        PacketView::GetOrSubscribeState { .. } => lemma_subscribe_back(p, x),
        PacketView::ConnectionState { .. } => lemma_state_back(p, order, x),
        PacketView::MatchSuccess { .. } => lemma_success_back(p, x),
        PacketView::MatchFailure { .. } => lemma_failure_back(p, x),
        PacketView::FormatError { .. } => lemma_format_error_back(p, x),
    }
}

/// The fields of every packet begin with a comma.
proof fn lemma_fields_start(p: PacketView, order: Seq<(Seq<char>, Standing)>)
    ensures
        fields_text(p, order).len() > 0,
        fields_text(p, order)[0] == ',',
{
}

/// Codec round trip: a text of a packet of the wire grammar stands for
/// that packet.
pub proof fn lemma_round_trip(p: PacketView, t: Seq<char>)
    requires
        in_grammar(p),
        is_text_of(p, t),
    ensures
        parse(t) == Ok::<PacketView, Fault>(p),
{
    let order = match p {
        PacketView::ConnectionState { player_info } => choose|order: Seq<(Seq<char>, Standing)>|
            lists(order, player_info) && t == #[trigger] packet_text(p, order),
        _ => Seq::empty(),
    };
    assert(t == packet_text(p, order));
    let f = fields_text(p, order);
    lemma_fields_start(p, order);
    assert(t =~= seq!['1', ','] + (seq![kind_of(p)] + f));
    let u = t.skip(2);
    assert(u =~= seq![kind_of(p)] + f);
    assert(u[0] == kind_of(p));
    assert(u[1] == f[0]);
    assert(u.skip(2) =~= f.drop_first());
    lemma_fields_round_trip(p, order, u.skip(2));
}

} // verus!
