//! A matchmaking pool: players with sliding rank windows.

use crate::coverage::{
    accepted, best_at, candidates, capped, is_best_rank, is_peak, lemma_accepted_lists,
    lemma_best_any_order, lemma_best_exists, lemma_best_from_starts, lemma_best_unique,
    lemma_peak_any_order, lemma_peak_exists, lemma_peak_is, lemma_step_point, order_of, ordered,
    pool_best_rank, reported, seats_at, states, Entry,
};
use crate::tables::{
    keyed, lists, pool_entries, pool_insert, pool_list, pool_new, pool_remove, pool_widen_all,
    Window,
};
use dashmap::DashMap;
use vstd::prelude::*;

verus! {

/// Every window of `m` has its lower end at or below its upper end.
pub open spec fn windows_ordered(m: Map<Seq<char>, Window>) -> bool {
    forall|id: Seq<char>| #[trigger] m.contains_key(id) ==> m[id].0 <= m[id].1
}

/// The best rank of a non-empty `l`.
pub open spec fn best_rank_of(l: Seq<Entry>) -> int {
    choose|r: int| best_at(l, r)
}

/// Every entry of `l` with what is reported for it, in the order of `l`.
pub open spec fn reports(l: Seq<Entry>) -> Seq<(Seq<char>, u64)> {
    Seq::new(l.len(), |i: int| (l[i].0, reported(l, l[i].1)))
}

/// The seats that `entries` put on the rank `r`.
pub fn seats_on(entries: &Vec<(String, Window)>, r: u64) -> (total: u128)
    ensures
        total == seats_at(keyed(entries@), r as int),
{
    let ghost l = keyed(entries@);
    let mut total: u128 = 0;
    let mut k: usize = 0;
    while k < entries.len()
        invariant
            l == keyed(entries@),
            0 <= k <= entries.len(),
            total == seats_at(l.take(k as int), r as int),
            total <= k * 0xffff_ffff_ffff_ffff,
        decreases entries.len() - k,
    {
        let w = entries[k].1;
        proof {
            assert(l.take(k + 1).drop_last() =~= l.take(k as int));
            assert(l.take(k + 1).last() == l[k as int]);
        }
        if w.0 <= r && r <= w.1 {
            total = total + w.2 as u128;
        }
        k = k + 1;
    }
    proof {
        assert(l.take(k as int) =~= l);
    }
    total
}

/// The seats on the lower end of each entry's window, entry by entry.
fn start_seats(entries: &Vec<(String, Window)>) -> (starts: Vec<u128>)
    ensures
        starts.len() == entries.len(),
        forall|j: int|
            0 <= j < entries.len() ==> #[trigger] starts[j] == seats_at(
                keyed(entries@),
                entries[j].1.0 as int,
            ),
{
    let mut starts: Vec<u128> = Vec::new();
    let mut k: usize = 0;
    while k < entries.len()
        invariant
            0 <= k <= entries.len(),
            starts.len() == k,
            forall|j: int|
                0 <= j < k ==> #[trigger] starts[j] == seats_at(
                    keyed(entries@),
                    entries[j].1.0 as int,
                ),
        decreases entries.len() - k,
    {
        let c = seats_on(entries, entries[k].1.0);
        starts.push(c);
        k = k + 1;
    }
    starts
}

/// The rank on which the most seats meet, the lowest such rank if there are
/// several; `None` for no entries.
pub fn best_rank(entries: &Vec<(String, Window)>) -> (best: Option<u64>)
    requires
        ordered(keyed(entries@)),
    ensures
        match best {
            Some(r) => entries.len() > 0 && best_at(keyed(entries@), r as int),
            None => entries.len() == 0,
        },
{
    if entries.len() == 0 {
        return None;
    }
    let ghost l = keyed(entries@);
    let starts = start_seats(entries);
    let mut b: usize = 0;
    let mut i: usize = 1;
    while i < entries.len()
        invariant
            l == keyed(entries@),
            starts.len() == entries.len(),
            forall|j: int|
                0 <= j < entries.len() ==> #[trigger] starts[j] == seats_at(l, entries[j].1.0 as int),
            0 <= b < i <= entries.len(),
            forall|j: int|
                0 <= j < i ==> {
                    ||| #[trigger] starts[j] < starts[b as int]
                    ||| (starts[j] == starts[b as int] && entries[b as int].1.0 <= entries[j].1.0)
                },
        decreases entries.len() - i,
    {
        if starts[i] > starts[b] || (starts[i] == starts[b] && entries[i].1.0 < entries[b].1.0) {
            b = i;
        }
        i = i + 1;
    }
    proof {
        assert forall|j: int| 0 <= j < l.len() implies {
            ||| seats_at(l, (#[trigger] l[j]).1.0 as int) < seats_at(l, l[b as int].1.0 as int)
            ||| (seats_at(l, l[j].1.0 as int) == seats_at(l, l[b as int].1.0 as int) && l[b as int].1.0
                <= l[j].1.0)
        } by {
            assert(starts[j] == seats_at(l, entries[j].1.0 as int));
            assert(starts[b as int] == seats_at(l, entries[b as int].1.0 as int));
        }
        lemma_best_from_starts(l, b as int);
    }
    Some(entries[b].1.0)
}

/// The entries whose window accepts the best rank, in the order given, each
/// with its seat count.
pub fn select_candidates(entries: &Vec<(String, Window)>) -> (out: Vec<(String, u64)>)
    requires
        ordered(keyed(entries@)),
    ensures
        keyed(out@) == accepted(keyed(entries@), best_rank_of(keyed(entries@))),
{
    let ghost l = keyed(entries@);
    let mut out: Vec<(String, u64)> = Vec::new();
    match best_rank(entries) {
        None => {
            proof {
                assert(keyed(out@) =~= accepted(l, best_rank_of(l)));
            }
        },
        Some(r) => {
            proof {
                lemma_best_unique(l, r as int, best_rank_of(l));
            }
            let mut k: usize = 0;
            while k < entries.len()
                invariant
                    l == keyed(entries@),
                    0 <= k <= entries.len(),
                    keyed(out@) == accepted(l.take(k as int), r as int),
                decreases entries.len() - k,
            {
                let w = entries[k].1;
                proof {
                    assert(l.take(k + 1).drop_last() =~= l.take(k as int));
                    assert(l.take(k + 1).last() == l[k as int]);
                }
                if w.0 <= r && r <= w.1 {
                    let ghost before = keyed(out@);
                    out.push((entries[k].0.clone(), w.2));
                    proof {
                        assert(keyed(out@) =~= before.push((l[k as int].0, w.2)));
                    }
                }
                k = k + 1;
            }
            proof {
                assert(l.take(k as int) =~= l);
            }
        },
    }
    out
}

/// What each of `entries` is to be told: the most seats that meet on any
/// rank of its window or on the one rank past its upper end, capped at the
/// largest `u64`.
pub fn player_states(entries: &Vec<(String, Window)>) -> (out: Vec<(String, u64)>)
    requires
        ordered(keyed(entries@)),
    ensures
        keyed(out@) == reports(keyed(entries@)),
{
    let ghost l = keyed(entries@);
    let starts = start_seats(entries);
    let mut out: Vec<(String, u64)> = Vec::new();
    let mut i: usize = 0;
    while i < entries.len()
        invariant
            l == keyed(entries@),
            ordered(l),
            starts.len() == entries.len(),
            forall|j: int|
                0 <= j < entries.len() ==> #[trigger] starts[j] == seats_at(l, entries[j].1.0 as int),
            0 <= i <= entries.len(),
            keyed(out@) == reports(l).take(i as int),
        decreases entries.len() - i,
    {
        let a = entries[i].1.0;
        let top = entries[i].1.1;
        let mut v: u128 = starts[i];
        let ghost mut at: int = a as int;
        let mut j: usize = 0;
        assert(l[i as int].1.0 <= l[i as int].1.1);
        while j < entries.len()
            invariant
                l == keyed(entries@),
                starts.len() == entries.len(),
                forall|k: int|
                    0 <= k < entries.len() ==> #[trigger] starts[k] == seats_at(
                        l,
                        entries[k].1.0 as int,
                    ),
                0 <= j <= entries.len(),
                0 <= i < entries.len(),
                a == entries[i as int].1.0,
                top == entries[i as int].1.1,
                a <= top,
                a <= at <= top + 1,
                v == seats_at(l, at),
                starts[i as int] <= v,
                forall|k: int|
                    0 <= k < j && a < entries[k].1.0 <= top + 1 ==> #[trigger] starts[k] <= v,
            decreases entries.len() - j,
        {
            let s = entries[j].1.0;
            if s > a && (s <= top || s - 1 == top) && starts[j] > v {
                v = starts[j];
                proof {
                    at = s as int;
                }
            }
            j = j + 1;
        }
        proof {
            assert forall|x: int| a <= x <= top + 1 implies #[trigger] seats_at(l, x) <= v by {
                let y = lemma_step_point(l, a as int, x);
                if y != a {
                    let k = choose|k: int| 0 <= k < l.len() && (#[trigger] l[k]).1.0 == y;
                    assert(starts[k] <= v);
                }
            }
            assert(is_peak(l, a as int, top + 1, v as nat));
            lemma_peak_is(l, a as int, top + 1, v as nat);
        }
        let c: u64 = if v > u64::MAX as u128 {
            u64::MAX
        } else {
            v as u64
        };
        let ghost before = keyed(out@);
        out.push((entries[i].0.clone(), c));
        proof {
            assert(c == reported(l, l[i as int].1));
            assert(keyed(out@) =~= before.push((l[i as int].0, c)));
            assert(reports(l).take(i + 1) =~= reports(l).take(i as int).push(reports(l)[i as int]));
        }
        i = i + 1;
    }
    proof {
        assert(reports(l).take(i as int) =~= reports(l));
    }
    out
}

/// A window one tick later: each end moved outward by the speed, stopping
/// at zero and at the largest `u64`.
pub open spec fn widened(w: Window) -> Window {
    (
        if w.0 >= w.3 {
            (w.0 - w.3) as u64
        } else {
            0
        },
        if w.1 + w.3 <= u64::MAX {
            (w.1 + w.3) as u64
        } else {
            u64::MAX
        },
        w.2,
        w.3,
    )
}

/// Widening never takes the lower end below zero nor the upper end above
/// the largest `u64`, and it keeps an upright window upright.
pub proof fn lemma_widened_saturates(w: Window)
    ensures
        widened(w).0 == (if w.0 - w.3 < 0 { 0 } else { w.0 - w.3 }),
        widened(w).1 == (if w.1 + w.3 > u64::MAX { u64::MAX as int } else { w.1 + w.3 }),
        0 <= widened(w).0 <= w.0,
        w.1 <= widened(w).1 <= u64::MAX,
        w.0 <= w.1 ==> widened(w).0 <= widened(w).1,
{
}

/// Moves each end of `w` outward by its speed, saturating.
pub fn widen(w: Window) -> (r: Window)
    ensures
        r == widened(w),
{
    (w.0.saturating_sub(w.3), w.1.saturating_add(w.3), w.2, w.3)
}

/// One matchmaking pool.
pub struct Arena {
    players: DashMap<String, Window>,
}

impl View for Arena {
    type V = Map<Seq<char>, Window>;

    closed spec fn view(&self) -> Map<Seq<char>, Window> {
        pool_entries(self.players)
    }
}

impl Arena {
    /// The pool's standing invariant: no window is inverted.
    pub open spec fn wf(&self) -> bool {
        windows_ordered(self@)
    }

    /// An empty pool.
    pub fn new() -> (arena: Arena)
        ensures
            arena.wf(),
            arena@ == (Map::<Seq<char>, Window>::empty()),
    {
        Arena { players: pool_new() }
    }

    /// Registers `id` with the window `[rank_min, rank_max]`, replacing an
    /// earlier registration of the same id, which is returned.
    pub fn insert(&mut self, id: String, length: u64, rank_min: u64, rank_max: u64, speed: u64) -> (prev: Option<Window>)
        requires
            old(self).wf(),
            rank_min <= rank_max,
        ensures
            final(self).wf(),
            final(self)@ == old(self)@.insert(id@, (rank_min, rank_max, length, speed)),
            prev == (if old(self)@.contains_key(id@) { Some(old(self)@[id@]) } else { None }),
    {
        pool_insert(&mut self.players, id, (rank_min, rank_max, length, speed))
    }

    /// Takes `id` out of the pool and returns its window, if it was there.
    pub fn remove(&mut self, id: &str) -> (prev: Option<Window>)
        requires
            old(self).wf(),
        ensures
            final(self).wf(),
            final(self)@ == old(self)@.remove(id@),
            prev == (if old(self)@.contains_key(id@) { Some(old(self)@[id@]) } else { None }),
    {
        pool_remove(&mut self.players, id)
    }

    /// Every player of the pool with its window, in the order in which the
    /// pool hands the players out.
    pub fn entries(&self) -> (out: Vec<(String, Window)>)
        ensures
            lists(keyed(out@), self@),
    {
        pool_list(&self.players)
    }

    /// Widens every window by its speed, stopping at zero below and at the
    /// largest `u64` above.
    pub fn rank_update(&mut self)
        requires
            old(self).wf(),
        ensures
            final(self).wf(),
            final(self)@ == old(self)@.map_values(|w: Window| widened(w)),
    {
        pool_widen_all(&mut self.players);
    }

    /// The players whose window accepts the best rank, each with its seat
    /// count, in the order in which the pool hands them out.
    pub fn rank_match(&self) -> (out: Vec<(String, u64)>)
        requires
            self.wf(),
        ensures
            lists(keyed(out@), candidates(self@)),
    {
        let entries = pool_list(&self.players);
        let ghost l = keyed(entries@);
        proof {
            lemma_listing_ordered(l, self@);
        }
        let out = select_candidates(&entries);
        proof {
            if l.len() == 0 {
                assert(candidates(self@) =~= Map::empty());
            } else {
                let r = lemma_best_exists(l);
                lemma_best_unique(l, r, best_rank_of(l));
                assert(lists(order_of(self@), self@));
                lemma_best_any_order(l, order_of(self@), self@, r);
                assert(is_best_rank(self@, r));
                lemma_best_unique(order_of(self@), r, pool_best_rank(self@));
                lemma_accepted_lists(l, self@, r);
            }
        }
        out
    }

    /// What each player of the pool is to be told, in the order in which the
    /// pool hands the players out.
    pub fn get_player_states(&self) -> (out: Vec<(String, u64)>)
        requires
            self.wf(),
        ensures
            lists(keyed(out@), states(self@)),
    {
        let entries = pool_list(&self.players);
        let ghost l = keyed(entries@);
        proof {
            lemma_listing_ordered(l, self@);
        }
        let out = player_states(&entries);
        proof {
            let m = self@;
            let rep = reports(l);
            let st = states(m);
            assert(lists(order_of(m), m));
            assert forall|i: int| 0 <= i < rep.len() implies st.contains_pair(
                (#[trigger] rep[i]).0,
                rep[i].1,
            ) by {
                assert(m.contains_pair(l[i].0, l[i].1));
                let w = l[i].1;
                lemma_peak_exists(l, w.0 as int, w.1 + 1);
                lemma_peak_any_order(
                    l,
                    order_of(m),
                    m,
                    w.0 as int,
                    w.1 + 1,
                    crate::coverage::peak(l, w.0 as int, w.1 + 1),
                );
                lemma_peak_is(
                    order_of(m),
                    w.0 as int,
                    w.1 + 1,
                    crate::coverage::peak(l, w.0 as int, w.1 + 1),
                );
            }
            assert forall|i: int, j: int| 0 <= i < j < rep.len() implies (#[trigger] rep[i]).0 != (
            #[trigger] rep[j]).0 by {
                assert(l[i].0 != l[j].0);
            }
            assert forall|k: Seq<char>| #[trigger] st.contains_key(k) implies exists|i: int|
                0 <= i < rep.len() && (#[trigger] rep[i]).0 == k by {
                assert(m.contains_key(k));
                let i = choose|i: int| 0 <= i < l.len() && (#[trigger] l[i]).0 == k;
                assert(rep[i].0 == k);
            }
        }
        out
    }
}

/// An enumeration of upright windows is upright.
pub proof fn lemma_listing_ordered(l: Seq<Entry>, m: Map<Seq<char>, Window>)
    requires
        lists(l, m),
        windows_ordered(m),
    ensures
        ordered(l),
{
    assert forall|i: int| 0 <= i < l.len() implies (#[trigger] l[i]).1.0 <= l[i].1.1 by {
        assert(m.contains_pair(l[i].0, l[i].1));
    }
}

} // verus!
