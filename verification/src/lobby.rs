//! The matchmaker's state and the events that change it: packets from
//! lobby sessions, sessions that close, and the matching tick.

use crate::arena::{widened, windows_ordered, Arena};
use crate::coverage::{candidates, states};
use crate::matching::{choose_winners, group_by_session, grouping, verdict_of, Verdict, VerdictView};
use crate::packet::{fault_text, packet_text, parse, Packet, PacketView, Seat};
use crate::tables::{
    arena_entries, arenas_contains, arenas_insert, arenas_names, arenas_new, arenas_remove,
    group_entries, info_entries, info_insert, info_new, keyed, lemma_lists_drop_last, lists,
    sender_entries, senders_get, senders_insert, senders_list, senders_new, senders_remove,
    Pool, Standing, Window,
};
use dashmap::DashMap;
use vstd::prelude::*;
use vstd::string::StringExecFns;

verus! {

/// The pools of a lobby and the owners of its players.
pub struct Lobby {
    arenas: DashMap<String, (u64, Arena)>,
    senders: DashMap<String, u64>,
}

/// A lobby as a mathematical value.
pub ghost struct LobbyView {
    /// Each pool by name: the seats of a match and the players waiting.
    pub arenas: Map<Seq<char>, Pool>,
    /// The session that registered each player.
    pub senders: Map<Seq<char>, u64>,
}

/// What a packet from a session did.
#[derive(Debug, Clone, Copy, PartialEq, Eq)]
pub enum Outcome {
    /// A new pool was registered.
    ArenaAdded,
    /// The pool was there already and stays as it is.
    ArenaExists,
    /// A pool cannot match zero seats at a time, nor more than the machine
    /// can count.
    ArenaRejected,
    /// The pool and everyone in it are gone.
    ArenaRemoved,
    /// No pool has that name.
    NoSuchArena,
    /// The player waits in the pool.
    PlayerAdded,
    /// The player no longer waits in the pool.
    PlayerRemoved,
    /// State reports are wanted every so many seconds.
    Subscribed(u64),
    /// State reports are not wanted.
    Paused,
    /// The packet is of a kind that only the matchmaker sends.
    OutOfPlace,
}

/// What a text from a session leads to.
#[derive(Debug)]
pub enum Reaction {
    /// The text was a packet, with this outcome.
    Handled(Outcome),
    /// The text was no packet; this complaint goes back to the session.
    Complaint(String),
}

/// Every pool of `v` matches at least one seat at a time, no more than the
/// machine can count, and holds upright windows only.
pub open spec fn valid(v: LobbyView) -> bool {
    forall|name: Seq<char>| #[trigger]
        v.arenas.contains_key(name) ==> 0 < v.arenas[name].0 <= usize::MAX && windows_ordered(
            v.arenas[name].1,
        )
}

/// The window that a player of the given rank starts with:
/// `init_rank_diff` to either side, stopping at zero and at the largest `u64`.
pub open spec fn first_window(rank: u64, length: u64, init_rank_diff: u64, speed: u64) -> Window {
    (
        if rank >= init_rank_diff {
            (rank - init_rank_diff) as u64
        } else {
            0
        },
        if rank + init_rank_diff <= u64::MAX {
            (rank + init_rank_diff) as u64
        } else {
            u64::MAX
        },
        length,
        speed,
    )
}

/// The lobby after the packet `p` from `session`, and what the packet did.
pub open spec fn step(v: LobbyView, session: u64, p: PacketView) -> (LobbyView, Outcome) {
    match p {
        PacketView::AddArena { arena, num_players } => if num_players == 0 || num_players
            > usize::MAX {
            (v, Outcome::ArenaRejected)
        } else if v.arenas.contains_key(arena) {
            (v, Outcome::ArenaExists)
        } else {
            (
                LobbyView { arenas: v.arenas.insert(arena, (num_players, Map::empty())), ..v },
                Outcome::ArenaAdded,
            )
        },
        PacketView::RemoveArena(arena) => if v.arenas.contains_key(arena) {
            (LobbyView { arenas: v.arenas.remove(arena), ..v }, Outcome::ArenaRemoved)
        } else {
            (v, Outcome::NoSuchArena)
        },
        PacketView::AddPlayer { arena, player, rank, length, init_rank_diff, speed } => if v.arenas.contains_key(
        arena) {
            let (seats, pool) = v.arenas[arena];
            let w = first_window(rank, length, init_rank_diff, speed);
            (
                LobbyView {
                    arenas: v.arenas.insert(arena, (seats, pool.insert(player, w))),
                    senders: v.senders.insert(player, session),
                },
                Outcome::PlayerAdded,
            )
        } else {
            (v, Outcome::NoSuchArena)
        },
        PacketView::RemovePlayer { arena, player } => if v.arenas.contains_key(arena) {
            let (seats, pool) = v.arenas[arena];
            (
                LobbyView {
                    arenas: v.arenas.insert(arena, (seats, pool.remove(player))),
                    senders: v.senders.remove(player),
                },
                Outcome::PlayerRemoved,
            )
        } else {
            (v, Outcome::NoSuchArena)
        },
        PacketView::GetOrSubscribeState { period } => if period == 0 {
            (v, Outcome::Paused)
        } else {
            (v, Outcome::Subscribed(period))
        },
        _ => (v, Outcome::OutOfPlace),
    }
}

/// The players that `session` owns according to `s`.
pub open spec fn owned(s: Map<Seq<char>, u64>, session: u64) -> Set<Seq<char>> {
    Set::new(|p: Seq<char>| s.contains_key(p) && s[p] == session)
}

/// The lobby after `session` has closed: the players it owned are in no
/// pool and have no owner; the pools themselves stay.
pub open spec fn closed(v: LobbyView, session: u64) -> LobbyView {
    LobbyView {
        arenas: v.arenas.map_values(
            |e: Pool| (e.0, e.1.remove_keys(owned(v.senders, session))),
        ),
        senders: v.senders.remove_keys(owned(v.senders, session)),
    }
}

/// The names in `v`.
pub open spec fn name_set(v: Seq<String>) -> Set<Seq<char>> {
    Set::new(|p: Seq<char>| exists|k: int| 0 <= k < v.len() && (#[trigger] v[k])@ == p)
}

/// The players of the parties `w`.
pub open spec fn seat_ids(w: Seq<Seat>) -> Set<Seq<char>> {
    Set::new(|p: Seq<char>| exists|k: int| 0 <= k < w.len() && (#[trigger] w[k]).0 == p)
}

/// A match that the tick has made, as a mathematical value.
pub ghost struct EventView {
    /// The pool that the match comes from.
    pub arena: Seq<char>,
    /// The parties that play, by the session that owns them.
    pub groups: Map<u64, Seq<Seat>>,
}

/// A match that the tick has made.
#[derive(Debug)]
pub struct MatchEvent {
    /// The pool that the match comes from.
    pub arena: String,
    /// The parties that play, by the session that owns them.
    pub collected: DashMap<u64, Vec<(String, u64)>>,
}

impl View for MatchEvent {
    type V = EventView;

    open spec fn view(&self) -> EventView {
        EventView { arena: self.arena@, groups: group_entries(self.collected) }
    }
}

/// The match that an attempt made, if it made one.
pub open spec fn event_view(e: Option<MatchEvent>) -> Option<EventView> {
    match e {
        Some(x) => Some(x@),
        None => None,
    }
}

/// The lobby after one tick of the pool `name` whose candidates came out
/// in the order `c`, and the match that the tick made, if it made one.
/// Winners leave the pool and lose their owner; every window that stays
/// widens, whether a match was made or not.
pub open spec fn arena_tick(v: LobbyView, name: Seq<char>, c: Seq<Seat>) -> (
    LobbyView,
    Option<EventView>,
) {
    if v.arenas.contains_key(name) {
        let (seats, pool) = v.arenas[name];
        match verdict_of(c, seats as nat) {
            VerdictView::Winners(w) => (
                LobbyView {
                    arenas: v.arenas.insert(
                        name,
                        (seats, pool.remove_keys(seat_ids(w)).map_values(|x: Window| widened(x))),
                    ),
                    senders: v.senders.remove_keys(seat_ids(w)),
                },
                Some(EventView { arena: name, groups: grouping(w, v.senders) }),
            ),
            _ => (
                LobbyView {
                    arenas: v.arenas.insert(name, (seats, pool.map_values(|x: Window| widened(x)))),
                    ..v
                },
                None,
            ),
        }
    } else {
        (v, None)
    }
}

/// The lobby after the pools named in `sched` have had their tick, one
/// after the other, each with its candidates in the order that `sched`
/// gives, and the matches that were made, in the order of their making.
pub open spec fn run(v: LobbyView, sched: Seq<(Seq<char>, Seq<Seat>)>) -> (LobbyView, Seq<EventView>)
    decreases sched.len(),
{
    if sched.len() == 0 {
        (v, Seq::empty())
    } else {
        let (v1, made) = run(v, sched.drop_last());
        let (v2, e) = arena_tick(v1, sched.last().0, sched.last().1);
        (
            v2,
            match e {
                Some(x) => made.push(x),
                None => made,
            },
        )
    }
}

/// `sched` gives every pool of `v` one turn, and for each turn an order
/// in which the candidates of that pool can come out.
pub open spec fn fits(v: LobbyView, sched: Seq<(Seq<char>, Seq<Seat>)>) -> bool {
    &&& forall|i: int|
        0 <= i < sched.len() ==> v.arenas.contains_key((#[trigger] sched[i]).0) && lists(
            sched[i].1,
            candidates(v.arenas[sched[i].0].1),
        )
    &&& forall|i: int, j: int|
        0 <= i < j < sched.len() ==> (#[trigger] sched[i]).0 != (#[trigger] sched[j]).0
    &&& forall|name: Seq<char>| #[trigger]
        v.arenas.contains_key(name) ==> exists|i: int|
            0 <= i < sched.len() && (#[trigger] sched[i]).0 == name
}

/// The matches of `events` as mathematical values.
pub open spec fn event_views(events: Seq<MatchEvent>) -> Seq<EventView> {
    Seq::new(events.len(), |i: int| events[i]@)
}

/// A tick changes no pool but its own, and neither adds nor drops a pool.
pub proof fn lemma_tick_frame(v: LobbyView, name: Seq<char>, c: Seq<Seat>)
    ensures
        arena_tick(v, name, c).0.arenas.dom() =~= v.arenas.dom(),
        forall|other: Seq<char>|
            other != name && v.arenas.contains_key(other) ==> #[trigger] arena_tick(
                v,
                name,
                c,
            ).0.arenas[other] == v.arenas[other],
        v.arenas.contains_key(name) ==> arena_tick(v, name, c).0.arenas[name].0
            == v.arenas[name].0,
{
}

/// `info` is a state report on `v`: it has an entry for every player that
/// waits in some pool and for no one else, and the entry of a player names
/// a pool that the player waits in and says what that pool reports for
/// the player.
pub open spec fn reports_on(v: LobbyView, info: Map<Seq<char>, Standing>) -> bool {
    &&& forall|p: Seq<char>| #[trigger]
        info.contains_key(p) <==> exists|n: Seq<char>| #[trigger]
            v.arenas.contains_key(n) && v.arenas[n].1.contains_key(p)
    &&& forall|p: Seq<char>| #[trigger]
        info.contains_key(p) ==> {
            &&& v.arenas.contains_key(info[p].0)
            &&& v.arenas[info[p].0].1.contains_key(p)
            &&& info[p].1 == states(v.arenas[info[p].0].1)[p]
        }
}

/// The standings `m` after the reports `l` of the pool `name` have been
/// entered, one after the other.
pub open spec fn recorded(m: Map<Seq<char>, Standing>, name: Seq<char>, l: Seq<Seat>) -> Map<
    Seq<char>,
    Standing,
>
    decreases l.len(),
{
    if l.len() == 0 {
        m
    } else {
        recorded(m, name, l.drop_last()).insert(l.last().0, (name, l.last().1))
    }
}

/// Entering the reports of a pool gives every player of the pool the
/// pool's report and leaves everyone else as they were.
pub proof fn lemma_recorded(
    m: Map<Seq<char>, Standing>,
    name: Seq<char>,
    l: Seq<Seat>,
    st: Map<Seq<char>, u64>,
)
    requires
        lists(l, st),
    ensures
        forall|p: Seq<char>| #[trigger]
            recorded(m, name, l).contains_key(p) <==> m.contains_key(p) || st.contains_key(p),
        forall|p: Seq<char>| #[trigger]
            st.contains_key(p) ==> recorded(m, name, l)[p] == (name, st[p]),
        forall|p: Seq<char>|
            m.contains_key(p) && !st.contains_key(p) ==> #[trigger] recorded(m, name, l)[p] == m[p],
    decreases l.len(),
{
    if l.len() == 0 {
        assert forall|p: Seq<char>| !#[trigger] st.contains_key(p) by {}
    } else {
        lemma_lists_drop_last(l, st);
        lemma_recorded(m, name, l.drop_last(), st.remove(l.last().0));
        let r = recorded(m, name, l.drop_last());
        assert forall|p: Seq<char>| #[trigger]
            recorded(m, name, l).contains_key(p) <==> m.contains_key(p) || st.contains_key(p) by {
            if p != l.last().0 {
                assert(st.remove(l.last().0).contains_key(p) == st.contains_key(p));
                assert(r.contains_key(p) <==> m.contains_key(p) || st.remove(
                    l.last().0,
                ).contains_key(p));
            }
        }
        assert forall|p: Seq<char>| #[trigger] st.contains_key(p) implies recorded(m, name, l)[p] == (
            name,
            st[p],
        ) by {
            if p != l.last().0 {
                assert(st.remove(l.last().0).contains_key(p));
            }
        }
        assert forall|p: Seq<char>| m.contains_key(p) && !st.contains_key(p) implies #[trigger] recorded(
            m,
            name,
            l,
        )[p] == m[p] by {
            assert(!st.remove(l.last().0).contains_key(p));
            assert(r[p] == m[p]);
        }
    }
}

/// Enters the reports `st` of the pool `name` into `info`.
fn record(info: &mut DashMap<String, (String, u64)>, name: &String, st: &Vec<(String, u64)>)
    ensures
        info_entries(*final(info)) == recorded(info_entries(*old(info)), name@, keyed(st@)),
{
    let ghost l = keyed(st@);
    let mut j: usize = 0;
    while j < st.len()
        invariant
            l == keyed(st@),
            0 <= j <= st.len(),
            info_entries(*info) == recorded(info_entries(*old(info)), name@, l.take(j as int)),
        decreases st.len() - j,
    {
        proof {
            assert(l.take(j + 1).drop_last() =~= l.take(j as int));
            assert(l.take(j + 1).last() == l[j as int]);
        }
        info_insert(info, st[j].0.clone(), name.clone(), st[j].1);
        j = j + 1;
    }
    proof {
        assert(l.take(j as int) =~= l);
    }
}

/// Takes the players named in `gone` out of `pool`.
fn evict(pool: &mut Arena, gone: &Vec<String>)
    requires
        old(pool).wf(),
    ensures
        final(pool).wf(),
        final(pool)@ == old(pool)@.remove_keys(name_set(gone@)),
{
    let mut j: usize = 0;
    proof {
        assert(name_set(gone@.take(0)) =~= Set::empty());
        assert(pool@ =~= old(pool)@.remove_keys(name_set(gone@.take(0))));
    }
    while j < gone.len()
        invariant
            0 <= j <= gone.len(),
            pool.wf(),
            pool@ == old(pool)@.remove_keys(name_set(gone@.take(j as int))),
        decreases gone.len() - j,
    {
        pool.remove(gone[j].as_str());
        proof {
            let a = name_set(gone@.take(j as int));
            let b = name_set(gone@.take(j + 1));
            assert(b =~= a.insert(gone[j as int]@)) by {
                assert forall|p: Seq<char>| b.contains(p) implies a.insert(gone[j as int]@).contains(
                    p,
                ) by {
                    let k = choose|k: int|
                        0 <= k < gone@.take(j + 1).len() && (#[trigger] gone@.take(j + 1)[k])@ == p;
                    if k < j {
                        assert(gone@.take(j as int)[k]@ == p);
                    }
                }
                assert forall|p: Seq<char>| a.insert(gone[j as int]@).contains(p) implies b.contains(
                    p,
                ) by {
                    if a.contains(p) {
                        let k = choose|k: int|
                            0 <= k < gone@.take(j as int).len() && (#[trigger] gone@.take(
                                j as int,
                            )[k])@ == p;
                        assert(gone@.take(j + 1)[k]@ == p);
                    } else {
                        assert(gone@.take(j + 1)[j as int]@ == p);
                    }
                }
            }
            assert(pool@ =~= old(pool)@.remove_keys(b));
        }
        j = j + 1;
    }
    proof {
        assert(gone@.take(j as int) =~= gone@);
    }
}

/// The names of the players of `w`.
fn players_of(w: &Vec<(String, u64)>) -> (names: Vec<String>)
    ensures
        name_set(names@) == seat_ids(keyed(w@)),
{
    let mut names: Vec<String> = Vec::new();
    let mut i: usize = 0;
    while i < w.len()
        invariant
            0 <= i <= w.len(),
            names.len() == i,
            forall|k: int| 0 <= k < i ==> (#[trigger] names[k])@ == w[k].0@,
        decreases w.len() - i,
    {
        names.push(w[i].0.clone());
        i = i + 1;
    }
    proof {
        let a = name_set(names@);
        let b = seat_ids(keyed(w@));
        assert forall|p: Seq<char>| a.contains(p) implies b.contains(p) by {
            let k = choose|k: int| 0 <= k < names.len() && (#[trigger] names[k])@ == p;
            assert(keyed(w@)[k].0 == p);
        }
        assert forall|p: Seq<char>| b.contains(p) implies a.contains(p) by {
            let k = choose|k: int| 0 <= k < keyed(w@).len() && (#[trigger] keyed(w@)[k]).0 == p;
            assert(names[k]@ == p);
        }
        assert(a =~= b);
    }
    names
}

impl View for Lobby {
    type V = LobbyView;

    closed spec fn view(&self) -> LobbyView {
        LobbyView {
            arenas: arena_entries(self.arenas),
            senders: sender_entries(self.senders),
        }
    }
}

impl Lobby {
    /// The lobby's standing invariant.
    pub open spec fn wf(&self) -> bool {
        valid(self@)
    }

    /// A lobby without pools or players.
    pub fn new() -> (lobby: Lobby)
        ensures
            lobby.wf(),
            lobby@.arenas == (Map::<Seq<char>, Pool>::empty()),
            lobby@.senders == (Map::<Seq<char>, u64>::empty()),
    {
        let lobby = Lobby { arenas: arenas_new(), senders: senders_new() };
        proof {
            assert(lobby@.arenas =~= Map::empty());
        }
        lobby
    }

    /// The names of the pools, in an order of the index's own choosing.
    pub fn arena_names(&self) -> (names: Vec<String>)
        ensures
            name_set(names@) == self@.arenas.dom(),
            forall|i: int, j: int|
                0 <= i < j < names.len() ==> (#[trigger] names[i])@ != (#[trigger] names[j])@,
    {
        let names = arenas_names(&self.arenas);
        names
    }

    /// The session that owns `player`, if any does.
    pub fn owner_of(&self, player: &str) -> (session: Option<u64>)
        ensures
            session == (if self@.senders.contains_key(player@) {
                Some(self@.senders[player@])
            } else {
                None
            }),
    {
        senders_get(&self.senders, player)
    }

    /// The seats of a match in the pool `name` and the players that wait in
    /// it, each with its window; `None` if there is no such pool.
    pub fn pool(&mut self, name: &str) -> (found: Option<(u64, Vec<(String, Window)>)>)
        requires
            old(self).wf(),
        ensures
            final(self).wf(),
            final(self)@ == old(self)@,
            match found {
                Some(e) => old(self)@.arenas.contains_key(name@) && e.0 == old(
                    self,
                )@.arenas[name@].0 && lists(keyed(e.1@), old(self)@.arenas[name@].1),
                None => !old(self)@.arenas.contains_key(name@),
            },
    {
        match self.take_out(name) {
            Some((key, seats, pool)) => {
                let players = pool.entries();
                self.put_back(key, seats, pool);
                proof {
                    assert(self@.arenas =~= old(self)@.arenas);
                }
                Some((seats, players))
            },
            None => {
                proof {
                    assert(self@.arenas =~= old(self)@.arenas);
                }
                None
            },
        }
    }

    /// Takes a pool out of the index, to be put back by `put_back`.
    fn take_out(&mut self, name: &str) -> (taken: Option<(String, u64, Arena)>)
        requires
            old(self).wf(),
        ensures
            final(self).wf(),
            final(self)@.senders == old(self)@.senders,
            final(self)@.arenas == old(self)@.arenas.remove(name@),
            match taken {
                Some(e) => {
                    &&& e.0@ == name@
                    &&& old(self)@.arenas.contains_pair(name@, (e.1, e.2@))
                    &&& e.2.wf()
                    &&& 0 < e.1 <= usize::MAX
                },
                None => !old(self)@.arenas.contains_key(name@),
            },
    {
        let taken = arenas_remove(&mut self.arenas, name);
        proof {
            assert(self@.arenas =~= old(self)@.arenas.remove(name@));
            assert forall|n: Seq<char>| #[trigger] self@.arenas.contains_key(n) implies 0
                < self@.arenas[n].0 <= usize::MAX && windows_ordered(self@.arenas[n].1) by {
                assert(old(self)@.arenas.contains_key(n));
            }
            if taken is Some {
                assert(old(self)@.arenas.contains_key(name@));
            }
        }
        taken
    }

    /// Puts a pool into the index.
    fn put_back(&mut self, name: String, seats: u64, arena: Arena)
        requires
            old(self).wf(),
            arena.wf(),
            0 < seats <= usize::MAX,
        ensures
            final(self).wf(),
            final(self)@.senders == old(self)@.senders,
            final(self)@.arenas == old(self)@.arenas.insert(name@, (seats, arena@)),
    {
        arenas_insert(&mut self.arenas, name, seats, arena);
        proof {
            assert(self@.arenas =~= old(self)@.arenas.insert(name@, (seats, arena@)));
            assert forall|n: Seq<char>| #[trigger] self@.arenas.contains_key(n) implies 0
                < self@.arenas[n].0 <= usize::MAX && windows_ordered(self@.arenas[n].1) by {
                if n != name@ {
                    assert(old(self)@.arenas.contains_key(n));
                }
            }
        }
    }

    /// Takes the owner away from the players named in `gone`.
    fn disown(&mut self, gone: &Vec<String>)
        requires
            old(self).wf(),
        ensures
            final(self).wf(),
            final(self)@.arenas == old(self)@.arenas,
            final(self)@.senders == old(self)@.senders.remove_keys(name_set(gone@)),
    {
        let mut j: usize = 0;
        proof {
            assert(name_set(gone@.take(0)) =~= Set::empty());
            assert(self@.senders =~= old(self)@.senders.remove_keys(name_set(gone@.take(0))));
        }
        while j < gone.len()
            invariant
                0 <= j <= gone.len(),
                self.wf(),
                self@.arenas == old(self)@.arenas,
                self@.senders == old(self)@.senders.remove_keys(name_set(gone@.take(j as int))),
            decreases gone.len() - j,
        {
            senders_remove(&mut self.senders, gone[j].as_str());
            proof {
                let a = name_set(gone@.take(j as int));
                let b = name_set(gone@.take(j + 1));
                assert(b =~= a.insert(gone[j as int]@)) by {
                    assert forall|p: Seq<char>| b.contains(p) implies a.insert(
                        gone[j as int]@,
                    ).contains(p) by {
                        let k = choose|k: int|
                            0 <= k < gone@.take(j + 1).len() && (#[trigger] gone@.take(j + 1)[k])@
                                == p;
                        if k < j {
                            assert(gone@.take(j as int)[k]@ == p);
                        }
                    }
                    assert forall|p: Seq<char>| a.insert(gone[j as int]@).contains(
                        p,
                    ) implies b.contains(p) by {
                        if a.contains(p) {
                            let k = choose|k: int|
                                0 <= k < gone@.take(j as int).len() && (#[trigger] gone@.take(
                                    j as int,
                                )[k])@ == p;
                            assert(gone@.take(j + 1)[k]@ == p);
                        } else {
                            assert(gone@.take(j + 1)[j as int]@ == p);
                        }
                    }
                }
                assert(self@.senders =~= old(self)@.senders.remove_keys(b));
            }
            j = j + 1;
        }
        proof {
            assert(gone@.take(j as int) =~= gone@);
        }
    }

    /// One tick of the pool `name`: a match attempt, then every window
    /// that stays widens.  Also tells in which order the candidates came.
    fn tick_one(&mut self, name: &str) -> (r: (Option<MatchEvent>, Ghost<Seq<Seat>>))
        requires
            old(self).wf(),
        ensures
            final(self).wf(),
            old(self)@.arenas.contains_key(name@) ==> lists(
                r.1@,
                candidates(old(self)@.arenas[name@].1),
            ),
            (final(self)@, event_view(r.0)) == arena_tick(old(self)@, name@, r.1@),
    {
        match self.take_out(name) {
            None => {
                proof {
                    assert(self@.arenas =~= old(self)@.arenas);
                }
                (None, Ghost(Seq::empty()))
            },
            Some((key, seats, mut pool)) => {
                let cands = pool.rank_match();
                let ghost c = keyed(cands@);
                let verdict = choose_winners(&cands, seats as usize);
                let event = match verdict {
                    Verdict::Winners(w) => {
                        let collected = group_by_session(&w, &self.senders);
                        let names = players_of(&w);
                        evict(&mut pool, &names);
                        self.disown(&names);
                        Some(MatchEvent { arena: key.clone(), collected })
                    },
                    _ => None,
                };
                pool.rank_update();
                self.put_back(key, seats, pool);
                proof {
                    let want = arena_tick(old(self)@, name@, c).0;
                    assert(self@.arenas =~= want.arenas);
                    assert(self@.senders =~= want.senders);
                }
                (event, Ghost(c))
            },
        }
    }

    /// One tick of the pool `name`: if the candidates of the pool make a
    /// match, the winners leave the pool and lose their owner, and the match
    /// is returned; then every window that stays in the pool widens.
    /// `c` is the order in which the pool handed its candidates out.
    pub fn tick_arena(&mut self, name: &str) -> (event: Option<MatchEvent>)
        requires
            old(self).wf(),
        ensures
            final(self).wf(),
            exists|c: Seq<Seat>|
                {
                    &&& old(self)@.arenas.contains_key(name@) ==> lists(
                        c,
                        candidates(old(self)@.arenas[name@].1),
                    )
                    &&& (final(self)@, event_view(event)) == #[trigger] arena_tick(
                        old(self)@,
                        name@,
                        c,
                    )
                },
    {
        let r = self.tick_one(name);
        r.0
    }

    /// The matching tick: every pool has its turn, in an order of the
    /// index's own choosing.  Returns the matches that were made.
    pub fn tick(&mut self) -> (events: Vec<MatchEvent>)
        requires
            old(self).wf(),
        ensures
            final(self).wf(),
            exists|sched: Seq<(Seq<char>, Seq<Seat>)>|
                fits(old(self)@, sched) && (final(self)@, event_views(events@)) == #[trigger] run(
                    old(self)@,
                    sched,
                ),
    {
        let names = arenas_names(&self.arenas);
        let ghost start = self@;
        let ghost mut sched = Seq::<(Seq<char>, Seq<Seat>)>::empty();
        let mut events: Vec<MatchEvent> = Vec::new();
        let mut i: usize = 0;
        proof {
            assert(event_views(events@) =~= Seq::<EventView>::empty());
            assert forall|k: int| 0 <= k < names.len() implies start.arenas.contains_key(
                (#[trigger] names[k])@,
            ) by {
                assert(arena_entries(self.arenas).contains_key(names[k]@));
            }
        }
        while i < names.len()
            invariant
                0 <= i <= names.len(),
                self.wf(),
                start == old(self)@,
                sched.len() == i,
                forall|k: int| 0 <= k < i ==> (#[trigger] sched[k]).0 == names[k]@,
                forall|k: int|
                    0 <= k < i ==> lists((#[trigger] sched[k]).1, candidates(start.arenas[sched[k].0].1)),
                forall|k: int| 0 <= k < names.len() ==> start.arenas.contains_key(
                    (#[trigger] names[k])@,
                ),
                forall|a: int, b: int|
                    0 <= a < b < names.len() ==> (#[trigger] names[a])@ != (#[trigger] names[b])@,
                (self@, event_views(events@)) == run(start, sched),
                self@.arenas.dom() =~= start.arenas.dom(),
                forall|k: int|
                    i <= k < names.len() ==> self@.arenas[(#[trigger] names[k])@]
                        == start.arenas[names[k]@],
            decreases names.len() - i,
        {
            let ghost before = self@;
            let ghost made = event_views(events@);
            let r = self.tick_one(names[i].as_str());
            let ghost c = r.1@;
            let ghost name = names[i as int]@;
            proof {
                lemma_tick_frame(before, name, c);
                assert(before.arenas.contains_key(name));
                let longer = sched.push((name, c));
                assert(longer.drop_last() =~= sched);
                assert(longer.last() == (name, c));
                sched = longer;
            }
            match r.0 {
                Some(e) => {
                    events.push(e);
                    proof {
                        assert(event_views(events@) =~= made.push(e@));
                    }
                },
                None => {},
            }
            i = i + 1;
        }
        proof {
            assert forall|name: Seq<char>| #[trigger] start.arenas.contains_key(name) implies exists|
                k: int,
            |
                0 <= k < sched.len() && (#[trigger] sched[k]).0 == name by {
                assert(arena_entries(old(self).arenas).contains_key(name));
                let k = choose|k: int| 0 <= k < names.len() && (#[trigger] names[k])@ == name;
                assert(sched[k].0 == name);
            }
            assert(fits(start, sched));
        }
        events
    }

    /// Cleans up after `session`: the players that it owned leave every
    /// pool and lose their owner.  Pools stay, whoever registered them.
    /// Returns the players that were removed.
    pub fn close_session(&mut self, session: u64) -> (gone: Vec<String>)
        requires
            old(self).wf(),
        ensures
            final(self).wf(),
            final(self)@ == closed(old(self)@, session),
            name_set(gone@) == owned(old(self)@.senders, session),
    {
        let all = senders_list(&self.senders);
        let ghost start = self@;
        let ghost mine = owned(start.senders, session);
        let mut gone: Vec<String> = Vec::new();
        let mut i: usize = 0;
        while i < all.len()
            invariant
                0 <= i <= all.len(),
                forall|k: int| 0 <= k < gone.len() ==> mine.contains((#[trigger] gone[k])@),
                forall|j: int|
                    0 <= j < i && (#[trigger] all[j]).1 == session ==> name_set(gone@).contains(
                        all[j].0@,
                    ),
                lists(keyed(all@), start.senders),
                mine == owned(start.senders, session),
            decreases all.len() - i,
        {
            if all[i].1 == session {
                let ghost before = gone@;
                gone.push(all[i].0.clone());
                proof {
                    assert(start.senders.contains_pair(keyed(all@)[i as int].0, keyed(all@)[i as int].1));
                    assert forall|j: int| 0 <= j <= i && (#[trigger] all[j]).1 == session implies name_set(
                        gone@,
                    ).contains(all[j].0@) by {
                        if j < i {
                            let k = choose|k: int|
                                0 <= k < before.len() && (#[trigger] before[k])@ == all[j].0@;
                            assert(gone[k]@ == all[j].0@);
                        } else {
                            assert(gone[gone.len() - 1]@ == all[j].0@);
                        }
                    }
                }
            }
            i = i + 1;
        }
        proof {
            assert forall|p: Seq<char>| mine.contains(p) implies name_set(gone@).contains(p) by {
                let j = choose|j: int| 0 <= j < keyed(all@).len() && (#[trigger] keyed(all@)[j]).0 == p;
                assert(start.senders.contains_pair(keyed(all@)[j].0, keyed(all@)[j].1));
                assert(all[j].1 == session);
            }
            assert(name_set(gone@) =~= mine);
        }
        let names = arenas_names(&self.arenas);
        let mut i: usize = 0;
        proof {
            assert forall|k: int| 0 <= k < names.len() implies start.arenas.contains_key(
                (#[trigger] names[k])@,
            ) by {
                assert(arena_entries(self.arenas).contains_key(names[k]@));
            }
        }
        while i < names.len()
            invariant
                0 <= i <= names.len(),
                self.wf(),
                start == old(self)@,
                mine == owned(start.senders, session),
                name_set(gone@) == mine,
                self@.senders == start.senders,
                self@.arenas.dom() =~= start.arenas.dom(),
                forall|k: int| 0 <= k < names.len() ==> start.arenas.contains_key(
                    (#[trigger] names[k])@,
                ),
                forall|a: int, b: int|
                    0 <= a < b < names.len() ==> (#[trigger] names[a])@ != (#[trigger] names[b])@,
                forall|k: int|
                    0 <= k < i ==> self@.arenas[(#[trigger] names[k])@] == (
                        start.arenas[names[k]@].0,
                        start.arenas[names[k]@].1.remove_keys(mine),
                    ),
                forall|k: int|
                    i <= k < names.len() ==> self@.arenas[(#[trigger] names[k])@]
                        == start.arenas[names[k]@],
            decreases names.len() - i,
        {
            let ghost before = self@;
            match self.take_out(names[i].as_str()) {
                Some((key, seats, mut pool)) => {
                    evict(&mut pool, &gone);
                    self.put_back(key, seats, pool);
                },
                None => {},
            }
            proof {
                assert(before.arenas.contains_key(names[i as int]@));
                assert(self@.arenas.dom() =~= start.arenas.dom());
            }
            i = i + 1;
        }
        self.disown(&gone);
        proof {
            let want = closed(start, session);
            assert forall|name: Seq<char>| #[trigger] start.arenas.contains_key(name) implies self@.arenas[name]
                == want.arenas[name] by {
                assert(arena_entries(old(self).arenas).contains_key(name));
                let k = choose|k: int| 0 <= k < names.len() && (#[trigger] names[k])@ == name;
                assert(self@.arenas[names[k]@] == want.arenas[name]);
            }
            assert(self@.arenas =~= want.arenas);
        }
        gone
    }

    /// The state report: for every player that waits in some pool, the
    /// pool and the seats around the player.  For a player that waits in
    /// several pools, one of them is reported.
    pub fn state_report(&mut self) -> (report: Packet)
        requires
            old(self).wf(),
        ensures
            final(self).wf(),
            final(self)@ == old(self)@,
            report@ matches PacketView::ConnectionState { player_info } && reports_on(
                old(self)@,
                player_info,
            ),
    {
        let names = arenas_names(&self.arenas);
        let ghost start = self@;
        let mut info = info_new();
        let mut i: usize = 0;
        proof {
            assert forall|k: int| 0 <= k < names.len() implies start.arenas.contains_key(
                (#[trigger] names[k])@,
            ) by {
                assert(arena_entries(self.arenas).contains_key(names[k]@));
            }
        }
        while i < names.len()
            invariant
                0 <= i <= names.len(),
                self.wf(),
                start == old(self)@,
                self@ == start,
                forall|k: int| 0 <= k < names.len() ==> start.arenas.contains_key(
                    (#[trigger] names[k])@,
                ),
                forall|p: Seq<char>| #[trigger]
                    info_entries(info).contains_key(p) <==> exists|k: int|
                        0 <= k < i && start.arenas[(#[trigger] names[k])@].1.contains_key(p),
                forall|p: Seq<char>| #[trigger]
                    info_entries(info).contains_key(p) ==> {
                        &&& start.arenas.contains_key(info_entries(info)[p].0)
                        &&& start.arenas[info_entries(info)[p].0].1.contains_key(p)
                        &&& info_entries(info)[p].1 == states(
                            start.arenas[info_entries(info)[p].0].1,
                        )[p]
                    },
            decreases names.len() - i,
        {
            let ghost before = info_entries(info);
            assert(self@.arenas.contains_key(names[i as int]@));
            match self.take_out(names[i].as_str()) {
                Some((key, seats, pool)) => {
                    let st = pool.get_player_states();
                    record(&mut info, &key, &st);
                    proof {
                        lemma_recorded(before, key@, keyed(st@), states(pool@));
                        let now = info_entries(info);
                        assert forall|p: Seq<char>| #[trigger] now.contains_key(p) implies exists|
                            k: int,
                        |
                            0 <= k < i + 1 && start.arenas[(#[trigger] names[k])@].1.contains_key(
                                p,
                            ) by {
                            if states(pool@).contains_key(p) {
                                assert(start.arenas[names[i as int]@].1.contains_key(p));
                            } else {
                                assert(before.contains_key(p));
                                let k = choose|k: int|
                                    0 <= k < i && start.arenas[(#[trigger] names[k])@].1.contains_key(
                                        p,
                                    );
                                assert(start.arenas[names[k]@].1.contains_key(p));
                            }
                        }
                        assert forall|p: Seq<char>|
                            (exists|k: int|
                                0 <= k < i + 1 && start.arenas[(#[trigger] names[k])@].1.contains_key(
                                    p,
                                )) implies #[trigger] now.contains_key(p) by {
                            let k = choose|k: int|
                                0 <= k < i + 1 && start.arenas[(#[trigger] names[k])@].1.contains_key(
                                    p,
                                );
                            if k < i {
                                assert(before.contains_key(p));
                            } else {
                                assert(states(pool@).contains_key(p));
                            }
                        }
                        assert forall|p: Seq<char>| #[trigger] now.contains_key(p) implies {
                            &&& start.arenas.contains_key(now[p].0)
                            &&& start.arenas[now[p].0].1.contains_key(p)
                            &&& now[p].1 == states(start.arenas[now[p].0].1)[p]
                        } by {
                            if states(pool@).contains_key(p) {
                                assert(now[p] == (key@, states(pool@)[p]));
                            } else {
                                assert(before.contains_key(p));
                                assert(now[p] == before[p]);
                            }
                        }
                    }
                    self.put_back(key, seats, pool);
                    proof {
                        assert(self@.arenas =~= start.arenas);
                    }
                },
                None => {},
            }
            i = i + 1;
        }
        proof {
            let done = info_entries(info);
            assert forall|p: Seq<char>| #[trigger] done.contains_key(p) implies exists|n: Seq<char>| #[trigger]
                start.arenas.contains_key(n) && start.arenas[n].1.contains_key(p) by {
                let k = choose|k: int|
                    0 <= k < i && start.arenas[(#[trigger] names[k])@].1.contains_key(p);
                assert(start.arenas.contains_key(names[k]@));
            }
            assert forall|p: Seq<char>|
                (exists|n: Seq<char>| #[trigger]
                    start.arenas.contains_key(n) && start.arenas[n].1.contains_key(
                        p,
                    )) implies #[trigger] done.contains_key(p) by {
                let n = choose|n: Seq<char>| #[trigger]
                    start.arenas.contains_key(n) && start.arenas[n].1.contains_key(p);
                assert(arena_entries(old(self).arenas).contains_key(n));
                let k = choose|k: int| 0 <= k < names.len() && (#[trigger] names[k])@ == n;
                assert(start.arenas[names[k]@].1.contains_key(p));
            }
        }
        Packet::ConnectionState { player_info: info }
    }

    /// Acts on a packet that `session` sent.
    pub fn handle_packet(&mut self, session: u64, packet: Packet) -> (outcome: Outcome)
        requires
            old(self).wf(),
        ensures
            final(self).wf(),
            (final(self)@, outcome) == step(old(self)@, session, packet@),
    {
        match packet {
            Packet::AddArena { arena, num_players } => {
                if num_players == 0 || num_players > usize::MAX as u64 {
                    Outcome::ArenaRejected
                } else if arenas_contains(&self.arenas, arena.as_str()) {
                    Outcome::ArenaExists
                } else {
                    self.put_back(arena, num_players, Arena::new());
                    Outcome::ArenaAdded
                }
            },
            Packet::RemoveArena(arena) => {
                match self.take_out(arena.as_str()) {
                    Some(_) => Outcome::ArenaRemoved,
                    None => {
                        proof {
                            assert(self@.arenas =~= old(self)@.arenas);
                        }
                        Outcome::NoSuchArena
                    },
                }
            },
            Packet::AddPlayer { arena, player, rank, length, init_rank_diff, speed } => {
                match self.take_out(arena.as_str()) {
                    Some((name, seats, mut pool)) => {
                        let rank_min = rank.saturating_sub(init_rank_diff);
                        let rank_max = rank.saturating_add(init_rank_diff);
                        pool.insert(player.clone(), length, rank_min, rank_max, speed);
                        self.put_back(name, seats, pool);
                        senders_insert(&mut self.senders, player, session);
                        proof {
                            assert(self@.arenas =~= step(old(self)@, session, packet@).0.arenas);
                        }
                        Outcome::PlayerAdded
                    },
                    None => {
                        proof {
                            assert(self@.arenas =~= old(self)@.arenas);
                        }
                        Outcome::NoSuchArena
                    },
                }
            },
            Packet::RemovePlayer { arena, player } => {
                match self.take_out(arena.as_str()) {
                    Some((name, seats, mut pool)) => {
                        pool.remove(player.as_str());
                        self.put_back(name, seats, pool);
                        senders_remove(&mut self.senders, player.as_str());
                        proof {
                            assert(self@.arenas =~= step(old(self)@, session, packet@).0.arenas);
                        }
                        Outcome::PlayerRemoved
                    },
                    None => {
                        proof {
                            assert(self@.arenas =~= old(self)@.arenas);
                        }
                        Outcome::NoSuchArena
                    },
                }
            },
            Packet::GetOrSubscribeState { period } => {
                if period == 0 {
                    Outcome::Paused
                } else {
                    Outcome::Subscribed(period)
                }
            },
            _ => Outcome::OutOfPlace,
        }
    }

    /// Acts on a text that `session` sent: on the packet it stands for, or,
    /// where it stands for none, with a complaint for the session.
    pub fn handle_text(&mut self, session: u64, text: &str) -> (reaction: Reaction)
        requires
            old(self).wf(),
        ensures
            final(self).wf(),
            match parse(text@) {
                Ok(p) => reaction matches Reaction::Handled(outcome) && (final(self)@, outcome)
                    == step(old(self)@, session, p),
                Err(f) => {
                    &&& final(self)@ == old(self)@
                    &&& reaction matches Reaction::Complaint(t)
                    &&& t@ == packet_text(
                        (PacketView::FormatError { error: fault_text(f) }),
                        Seq::empty(),
                    )
                },
            },
    {
        match Packet::from_str(text) {
            Ok(packet) => Reaction::Handled(self.handle_packet(session, packet)),
            Err(e) => {
                let complaint = Packet::FormatError { error: String::from_str(e.0) };
                Reaction::Complaint(complaint.to_string())
            },
        }
    }
}

} // verus!
