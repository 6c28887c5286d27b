//! What follows a match: the request for a room, and the notices that tell
//! each session what became of its players.

use crate::lobby::MatchEvent;
use crate::packet::{Packet, PacketView, Seat};
use crate::tables::{group_entries, grouped, groups_list, keyed, lists};
use crate::text::{decimal, CharWriter};
use vstd::prelude::*;
use vstd::string::StringExecFns;

verus! {

/// `rand::random::<u32>()`: a number drawn from the thread's generator; any
/// `u32` may come back.
#[verifier::external_body]
fn random_u32() -> u32 {
    rand::random::<u32>()
}

/// The request that asks the room service for a room.
#[derive(Debug)]
pub struct StageRequest {
    /// The pool that the match comes from.
    pub game: String,
    /// A label for the match.
    pub matching: String,
}

/// The label of a match: `Rank#` and a number.
pub open spec fn matching_label(nonce: u32) -> Seq<char> {
    seq!['R', 'a', 'n', 'k', '#'] + decimal(nonce as nat)
}

/// The room request for a match of the pool `arena`, labelled with `nonce`.
pub fn stage_request(arena: &str, nonce: u32) -> (request: StageRequest)
    ensures
        request.game@ == arena@,
        request.matching@ == matching_label(nonce),
{
    let mut label = CharWriter::new();
    label.write_char('R');
    label.write_char('a');
    label.write_char('n');
    label.write_char('k');
    label.write_char('#');
    label.write_digits(nonce as u64);
    StageRequest { game: String::from_str(arena), matching: label.into_string() }
}

/// The room request for a match of the pool `arena`, labelled with a
/// number drawn at random.
pub fn new_stage_request(arena: &str) -> (request: StageRequest)
    ensures
        request.game@ == arena@,
        exists|nonce: u32| request.matching@ == #[trigger] matching_label(nonce),
{
    let nonce = random_u32();
    stage_request(arena, nonce)
}

/// What came of the room request.
#[derive(Debug)]
pub enum StageReply {
    /// The room is being set up under this id.
    Created { request_id: u64 },
    /// The room service refused.
    Refused { error_id: u64, error_msg: String },
    /// The room service answered with something that is no answer.
    Garbled { detail: String },
    /// The room service could not be reached.
    Unreachable { detail: String },
}

/// A reply as a mathematical value.
pub ghost enum StageReplyView {
    Created { request_id: u64 },
    Refused { error_id: u64, error_msg: Seq<char> },
    Garbled { detail: Seq<char> },
    Unreachable { detail: Seq<char> },
}

impl View for StageReply {
    type V = StageReplyView;

    open spec fn view(&self) -> StageReplyView {
        match *self {
            StageReply::Created { request_id } => StageReplyView::Created { request_id },
            StageReply::Refused { error_id, error_msg } => StageReplyView::Refused {
                error_id,
                error_msg: error_msg@,
            },
            StageReply::Garbled { detail } => StageReplyView::Garbled { detail: detail@ },
            StageReply::Unreachable { detail } => StageReplyView::Unreachable { detail: detail@ },
        }
    }
}

/// The error id of a reply that could not be read.
pub const GARBLED_ID: u64 = 9000;

/// The error id of a room service that could not be reached.
pub const UNREACHABLE_ID: u64 = 9001;

/// What the message of a reply that could not be read begins with.
pub const GARBLED_PREFIX: &'static str = "invalid JSON: ";

/// What the message of a room service that could not be reached begins with.
pub const UNREACHABLE_PREFIX: &'static str = "cannot reach central server: ";

/// What a session is told about its `players` in a match of the pool
/// `arena` after the room service replied with `reply`.
pub open spec fn notice(arena: Seq<char>, reply: StageReplyView, players: Seq<Seat>) -> PacketView {
    match reply {
        StageReplyView::Created { request_id } => PacketView::MatchSuccess {
            arena,
            stage_request_id: request_id,
            players,
        },
        StageReplyView::Refused { error_id, error_msg } => PacketView::MatchFailure {
            arena,
            error_id,
            error_msg,
            players,
        },
        StageReplyView::Garbled { detail } => PacketView::MatchFailure {
            arena,
            error_id: GARBLED_ID,
            error_msg: GARBLED_PREFIX@ + detail,
            players,
        },
        StageReplyView::Unreachable { detail } => PacketView::MatchFailure {
            arena,
            error_id: UNREACHABLE_ID,
            error_msg: UNREACHABLE_PREFIX@ + detail,
            players,
        },
    }
}

/// The notice for one session.
pub fn make_notice(arena: &str, reply: &StageReply, players: Vec<(String, u64)>) -> (packet: Packet)
    ensures
        packet@ == notice(arena@, reply@, keyed(players@)),
{
    match reply {
        StageReply::Created { request_id } => Packet::MatchSuccess {
            arena: String::from_str(arena),
            stage_request_id: *request_id,
            players,
        },
        StageReply::Refused { error_id, error_msg } => Packet::MatchFailure {
            arena: String::from_str(arena),
            error_id: *error_id,
            error_msg: error_msg.clone(),
            players,
        },
        StageReply::Garbled { detail } => Packet::MatchFailure {
            arena: String::from_str(arena),
            error_id: GARBLED_ID,
            error_msg: String::from_str(GARBLED_PREFIX).concat(detail.as_str()),
            players,
        },
        StageReply::Unreachable { detail } => Packet::MatchFailure {
            arena: String::from_str(arena),
            error_id: UNREACHABLE_ID,
            error_msg: String::from_str(UNREACHABLE_PREFIX).concat(detail.as_str()),
            players,
        },
    }
}

/// The notices as mathematical values, each with the session it is for.
pub open spec fn notices(out: Seq<(u64, Packet)>) -> Seq<(u64, PacketView)> {
    Seq::new(out.len(), |i: int| (out[i].0, out[i].1@))
}

/// Turns a match and the reply of the room service into one notice for
/// every session that owns a player of the match.
pub fn dispatch(event: MatchEvent, reply: &StageReply) -> (out: Vec<(u64, Packet)>)
    ensures
        lists(
            notices(out@),
            event@.groups.map_values(|players: Seq<Seat>| notice(event@.arena, reply@, players)),
        ),
{
    let ghost want = event@.groups.map_values(
        |players: Seq<Seat>| notice(event@.arena, reply@, players),
    );
    let MatchEvent { arena, collected } = event;
    let ghost groups = group_entries(collected);
    let mut items = groups_list(collected);
    let ghost l = grouped(items@);
    let mut out: Vec<(u64, Packet)> = Vec::new();
    while items.len() > 0
        invariant
            lists(l, groups),
            want == groups.map_values(|players: Seq<Seat>| notice(arena@, reply@, players)),
            items.len() + out.len() == l.len(),
            grouped(items@) == l.take(items.len() as int),
            forall|k: int|
                0 <= k < out.len() ==> (#[trigger] notices(out@)[k]) == (
                    l[l.len() - 1 - k].0,
                    notice(arena@, reply@, l[l.len() - 1 - k].1),
                ),
        decreases items.len(),
    {
        let ghost before = notices(out@);
        let ghost n = items.len();
        let item = items.pop().unwrap();
        proof {
            assert(grouped(items@) =~= l.take(items.len() as int));
            assert(l.take(n as int)[n - 1] == l[n - 1]);
            assert((item.0, keyed(item.1@)) == l[n - 1]);
        }
        let packet = make_notice(arena.as_str(), reply, item.1);
        out.push((item.0, packet));
        proof {
            assert(notices(out@) =~= before.push((item.0, packet@)));
        }
    }
    proof {
        let got = notices(out@);
        assert forall|i: int| 0 <= i < got.len() implies want.contains_pair(
            (#[trigger] got[i]).0,
            got[i].1,
        ) by {
            let e = l[l.len() - 1 - i];
            assert(groups.contains_pair(e.0, e.1));
        }
        assert forall|i: int, j: int| 0 <= i < j < got.len() implies (#[trigger] got[i]).0 != (
        #[trigger] got[j]).0 by {
            assert(l[l.len() - 1 - j].0 != l[l.len() - 1 - i].0);
        }
        assert forall|a: u64| #[trigger] want.contains_key(a) implies exists|i: int|
            0 <= i < got.len() && (#[trigger] got[i]).0 == a by {
            assert(groups.contains_key(a));
            let k = choose|k: int| 0 <= k < l.len() && (#[trigger] l[k]).0 == a;
            assert(got[l.len() - 1 - k].0 == a);
        }
    }
    out
}

} // verus!
