//! What holds of a lobby across its events: matches tell the sessions of
//! exactly the players that left, and a closed session leaves nothing behind.

use crate::arena::{widened, windows_ordered};
use crate::coverage::candidates;
use crate::lobby::{arena_tick, closed, owned, seat_ids, step, valid, LobbyView};
use crate::matching::{grouping, marked, owned_by, verdict_of};
use crate::packet::{PacketView, Seat};
use crate::solver::choice;
use crate::tables::{lists, Window};
use vstd::prelude::*;

verus! {

/// The players that the groups `g` hold.
pub open spec fn grouped_ids(g: Map<u64, Seq<Seat>>) -> Set<Seq<char>> {
    Set::new(
        |p: Seq<char>|
            exists|a: u64, k: int|
                g.contains_key(a) && 0 <= k < g[a].len() && (#[trigger] g[a][k]).0 == p,
    )
}

/// The parties that a session owns among `w` are parties of `w` with that
/// owner, and every party of `w` with that owner is among them.
pub proof fn lemma_owned_by(w: Seq<Seat>, s: Map<Seq<char>, u64>, a: u64)
    ensures
        forall|k: int|
            0 <= k < owned_by(w, s, a).len() ==> {
                &&& s.contains_key((#[trigger] owned_by(w, s, a)[k]).0)
                &&& s[owned_by(w, s, a)[k].0] == a
                &&& exists|i: int| 0 <= i < w.len() && (#[trigger] w[i]) == owned_by(w, s, a)[k]
            },
        forall|i: int|
            0 <= i < w.len() && s.contains_key((#[trigger] w[i]).0) && s[w[i].0] == a ==> exists|
                k: int,
            |
                0 <= k < owned_by(w, s, a).len() && (#[trigger] owned_by(w, s, a)[k]) == w[i],
    decreases w.len(),
{
    if w.len() > 0 {
        let p = w.drop_last();
        lemma_owned_by(p, s, a);
        let o = owned_by(w, s, a);
        let op = owned_by(p, s, a);
        let last = w.len() - 1;
        assert forall|k: int| 0 <= k < o.len() implies {
            &&& s.contains_key((#[trigger] o[k]).0)
            &&& s[o[k].0] == a
            &&& exists|i: int| 0 <= i < w.len() && (#[trigger] w[i]) == o[k]
        } by {
            if k < op.len() {
                assert(o[k] == op[k]);
                let i = choose|i: int| 0 <= i < p.len() && (#[trigger] p[i]) == op[k];
                assert(w[i] == o[k]);
            } else {
                assert(w[last] == o[k]);
            }
        }
        assert forall|i: int|
            0 <= i < w.len() && s.contains_key((#[trigger] w[i]).0) && s[w[i].0]
                == a implies exists|k: int| 0 <= k < o.len() && (#[trigger] o[k]) == w[i] by {
            if i < last {
                assert(p[i] == w[i]);
                let k = choose|k: int| 0 <= k < op.len() && (#[trigger] op[k]) == p[i];
                assert(o[k] == w[i]);
            } else {
                assert(o[o.len() - 1] == w[i]);
            }
        }
    }
}

/// The groups of a match hold exactly the winners that have an owner.
pub proof fn lemma_groups_hold_owned(w: Seq<Seat>, s: Map<Seq<char>, u64>)
    ensures
        grouped_ids(grouping(w, s)) == seat_ids(w).intersect(s.dom()),
{
    let g = grouping(w, s);
    assert forall|p: Seq<char>| grouped_ids(g).contains(p) implies seat_ids(w).intersect(
        s.dom(),
    ).contains(p) by {
        let (a, k) = choose|a: u64, k: int|
            g.contains_key(a) && 0 <= k < g[a].len() && (#[trigger] g[a][k]).0 == p;
        lemma_owned_by(w, s, a);
        let i = choose|i: int| 0 <= i < w.len() && (#[trigger] w[i]) == owned_by(w, s, a)[k];
        assert(w[i].0 == p);
    }
    assert forall|p: Seq<char>| seat_ids(w).intersect(s.dom()).contains(p) implies grouped_ids(
        g,
    ).contains(p) by {
        let i = choose|i: int| 0 <= i < w.len() && (#[trigger] w[i]).0 == p;
        let a = s[p];
        lemma_owned_by(w, s, a);
        let k = choose|k: int|
            0 <= k < owned_by(w, s, a).len() && (#[trigger] owned_by(w, s, a)[k]) == w[i];
        assert(g.contains_key(a));
        assert(g[a][k].0 == p);
    }
    assert(grouped_ids(g) =~= seat_ids(w).intersect(s.dom()));
}

/// `e` is one of the parties of `c`.
pub open spec fn party_of(c: Seq<Seat>, e: Seat) -> bool {
    exists|i: int| 0 <= i < c.len() && (#[trigger] c[i]) == e
}

/// The marked parties are parties of the list.
pub proof fn lemma_marked_within(c: Seq<Seat>, mask: Seq<bool>)
    ensures
        forall|k: int|
            0 <= k < marked(c, mask).len() ==> party_of(c, #[trigger] marked(c, mask)[k]),
    decreases c.len(),
{
    if c.len() > 0 {
        let p = c.drop_last();
        lemma_marked_within(p, mask);
        let m = marked(c, mask);
        let mp = marked(p, mask);
        assert forall|k: int| 0 <= k < m.len() implies party_of(c, #[trigger] m[k]) by {
            if k < mp.len() {
                assert(m[k] == mp[k]);
                assert(party_of(p, mp[k]));
                let i = choose|i: int| 0 <= i < p.len() && (#[trigger] p[i]) == mp[k];
                assert(c[i] == m[k]);
            } else {
                assert(c[c.len() - 1] == m[k]);
            }
        }
    }
}

/// The winners of a match attempt are among its candidates.
pub proof fn lemma_winners_within(c: Seq<Seat>, target: nat)
    requires
        verdict_of(c, target) is Winners,
    ensures
        seat_ids(verdict_of(c, target)->Winners_0).subset_of(seat_ids(c)),
{
    let w = verdict_of(c, target)->Winners_0;
    if w != c {
        lemma_marked_within(c, choice(crate::matching::lengths_of(c), c.len(), target));
    }
    assert forall|p: Seq<char>| seat_ids(w).contains(p) implies seat_ids(c).contains(p) by {
        let k = choose|k: int| 0 <= k < w.len() && (#[trigger] w[k]).0 == p;
        if w != c {
            assert(party_of(c, w[k]));
            let i = choose|i: int| 0 <= i < c.len() && (#[trigger] c[i]) == w[k];
            assert(c[i].0 == p);
        }
    }
}

/// Post-match consistency: where every player of a pool has an owner, the
/// players that a match takes out of the pool are exactly the players that
/// the groups of the match hold.
pub proof fn lemma_match_consistent(v: LobbyView, name: Seq<char>, c: Seq<Seat>)
    requires
        v.arenas.contains_key(name),
        lists(c, candidates(v.arenas[name].1)),
        forall|p: Seq<char>| #[trigger]
            v.arenas[name].1.contains_key(p) ==> v.senders.contains_key(p),
        arena_tick(v, name, c).1 is Some,
    ensures
        forall|p: Seq<char>|
            (v.arenas[name].1.contains_key(p) && !arena_tick(v, name, c).0.arenas[name].1.contains_key(
                p,
            )) <==> #[trigger] grouped_ids(arena_tick(v, name, c).1->0.groups).contains(p),
{
    let (seats, pool) = v.arenas[name];
    let w = verdict_of(c, seats as nat)->Winners_0;
    lemma_winners_within(c, seats as nat);
    lemma_groups_hold_owned(w, v.senders);
    let after = arena_tick(v, name, c).0.arenas[name].1;
    assert(after == pool.remove_keys(seat_ids(w)).map_values(|x: Window| widened(x)));
    assert forall|p: Seq<char>| seat_ids(w).contains(p) implies pool.contains_key(p) by {
        assert(seat_ids(c).contains(p));
        let i = choose|i: int| 0 <= i < c.len() && (#[trigger] c[i]).0 == p;
        assert(candidates(pool).contains_pair(c[i].0, c[i].1));
    }
    assert forall|p: Seq<char>|
        (pool.contains_key(p) && !after.contains_key(p)) <==> #[trigger] grouped_ids(
            arena_tick(v, name, c).1->0.groups,
        ).contains(p) by {
        assert(grouped_ids(grouping(w, v.senders)).contains(p) <==> seat_ids(w).contains(p)
            && v.senders.dom().contains(p));
    }
}

/// After a session has closed, no player that it owned waits in any pool
/// or has an owner.
pub proof fn lemma_closed_clean(v: LobbyView, session: u64, p: Seq<char>)
    requires
        v.senders.contains_key(p),
        v.senders[p] == session,
    ensures
        !closed(v, session).senders.contains_key(p),
        forall|name: Seq<char>| #[trigger]
            closed(v, session).arenas.contains_key(name) ==> !closed(
                v,
                session,
            ).arenas[name].1.contains_key(p),
{
}

/// Closing a session leaves every pool in place and takes no one else's
/// players.
pub proof fn lemma_closed_keeps(v: LobbyView, session: u64)
    ensures
        closed(v, session).arenas.dom() == v.arenas.dom(),
        forall|name: Seq<char>, p: Seq<char>|
            v.arenas.contains_key(name) && #[trigger] v.arenas[name].1.contains_key(p) && !(
            v.senders.contains_key(p) && v.senders[p] == session) ==> closed(
                v,
                session,
            ).arenas[name].1.contains_pair(p, v.arenas[name].1[p]),
        valid(v) ==> valid(closed(v, session)),
{
    assert(closed(v, session).arenas.dom() =~= v.arenas.dom());
    assert forall|name: Seq<char>, p: Seq<char>|
        v.arenas.contains_key(name) && #[trigger] v.arenas[name].1.contains_key(p) && !(
        v.senders.contains_key(p) && v.senders[p] == session) implies closed(
        v,
        session,
    ).arenas[name].1.contains_pair(p, v.arenas[name].1[p]) by {
        assert(!owned(v.senders, session).contains(p));
    }
    if valid(v) {
        assert forall|name: Seq<char>| #[trigger]
            closed(v, session).arenas.contains_key(name) implies 0 < closed(
            v,
            session,
        ).arenas[name].0 <= usize::MAX && windows_ordered(closed(v, session).arenas[name].1) by {
            assert(v.arenas.contains_key(name));
        }
    }
}

/// No packet makes a window inverted, and no packet makes a pool that
/// matches zero seats: a valid lobby stays valid.
pub proof fn lemma_step_valid(v: LobbyView, session: u64, p: PacketView)
    requires
        valid(v),
    ensures
        valid(step(v, session, p).0),
{
    let after = step(v, session, p).0;
    assert forall|name: Seq<char>| #[trigger] after.arenas.contains_key(name) implies 0
        < after.arenas[name].0 <= usize::MAX && windows_ordered(after.arenas[name].1) by {
        if v.arenas.contains_key(name) {
            assert(windows_ordered(v.arenas[name].1));
        }
    }
}

/// A tick keeps every window upright: a valid lobby stays valid.
pub proof fn lemma_tick_valid(v: LobbyView, name: Seq<char>, c: Seq<Seat>)
    requires
        valid(v),
    ensures
        valid(arena_tick(v, name, c).0),
{
    let after = arena_tick(v, name, c).0;
    assert forall|n: Seq<char>| #[trigger] after.arenas.contains_key(n) implies 0
        < after.arenas[n].0 <= usize::MAX && windows_ordered(after.arenas[n].1) by {
        assert(v.arenas.contains_key(n));
        assert(windows_ordered(v.arenas[n].1));
    }
}

} // verus!
