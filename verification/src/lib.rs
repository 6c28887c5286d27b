//! Rank-window matchmaking: player pools, exact-seat selection and the lobby
//! protocol that drives them.
//!
//! * [`arena`] holds one pool of players with sliding rank windows and picks
//!   the rank on which the most seats meet; [`coverage`] is its arithmetic.
//! * [`solver`] and [`matching`] pick, out of the candidates of a pool, the
//!   parties whose seats make exactly one match.
//! * [`text`], [`packet`] and [`roundtrip`] are the wire format.
//! * [`lobby`] is the matchmaker's state with its events, [`consistency`]
//!   what holds across them, [`dispatch`] and [`feedback`] what follows a
//!   match and a subscription.
//! * [`tables`] is the boundary to the concurrent maps underneath.

pub mod arena;
pub mod consistency;
pub mod coverage;
pub mod dispatch;
pub mod feedback;
pub mod lobby;
pub mod matching;
pub mod packet;
pub mod roundtrip;
pub mod solver;
pub mod tables;
pub mod text;

pub use arena::Arena;
pub use lobby::{Lobby, MatchEvent, Outcome, Reaction};
pub use packet::{Packet, PacketFormat};
