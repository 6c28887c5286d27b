//! One match attempt on the candidates of a pool: whether their seats make
//! a match, which of them play, and which session each of them belongs to.

use crate::packet::Seat;
use crate::solver::{choice, fewest, party_count, seat_sum, solve_exact};
use crate::tables::{
    group_entries, groups_insert, groups_new, groups_remove, keyed, sender_entries, senders_get,
};
use dashmap::DashMap;
use vstd::prelude::*;

verus! {

/// The seats of all the parties of `c`.
pub open spec fn total_seats(c: Seq<Seat>) -> nat
    decreases c.len(),
{
    if c.len() == 0 {
        0
    } else {
        total_seats(c.drop_last()) + c.last().1 as nat
    }
}

/// The seat counts of `c`, party by party.
pub open spec fn lengths_of(c: Seq<Seat>) -> Seq<u64> {
    Seq::new(c.len(), |i: int| c[i].1)
}

/// The parties of `c` that `mask` marks, in the order of `c`.
pub open spec fn marked(c: Seq<Seat>, mask: Seq<bool>) -> Seq<Seat>
    decreases c.len(),
{
    if c.len() == 0 {
        Seq::empty()
    } else if mask[c.len() - 1] {
        marked(c.drop_last(), mask).push(c.last())
    } else {
        marked(c.drop_last(), mask)
    }
}

/// How a match attempt ends.
#[derive(Debug)]
pub enum Verdict {
    /// The candidates have fewer seats than a match takes.
    Short,
    /// The candidates have more seats than a match takes and no choice of
    /// them has exactly as many.
    Impossible,
    /// These parties play: their seats are exactly those of a match.
    Winners(Vec<(String, u64)>),
}

/// A verdict as a mathematical value.
pub ghost enum VerdictView {
    Short,
    Impossible,
    Winners(Seq<Seat>),
}

impl View for Verdict {
    type V = VerdictView;

    open spec fn view(&self) -> VerdictView {
        match *self {
            Verdict::Short => VerdictView::Short,
            Verdict::Impossible => VerdictView::Impossible,
            Verdict::Winners(w) => VerdictView::Winners(keyed(w@)),
        }
    }
}

/// The verdict on the candidates `c` for matches of `target` seats: too
/// few seats make no match, exactly enough make all candidates winners, and
/// out of more the fewest parties with exactly `target` seats win, a later
/// party before an earlier one where the choices are as small.
pub open spec fn verdict_of(c: Seq<Seat>, target: nat) -> VerdictView {
    if total_seats(c) < target {
        VerdictView::Short
    } else if total_seats(c) == target {
        VerdictView::Winners(c)
    } else if fewest(lengths_of(c), c.len(), target) is Some {
        VerdictView::Winners(marked(c, choice(lengths_of(c), c.len(), target)))
    } else {
        VerdictView::Impossible
    }
}

/// The marked parties have the seats that the marking sums up and are as
/// many as it counts.
pub proof fn lemma_marked_total(c: Seq<Seat>, mask: Seq<bool>)
    ensures
        total_seats(marked(c, mask)) == seat_sum(lengths_of(c), mask, c.len()),
        marked(c, mask).len() == party_count(mask, c.len()),
    decreases c.len(),
{
    if c.len() > 0 {
        let p = c.drop_last();
        lemma_marked_total(p, mask);
        crate::solver::lemma_lengths_only(lengths_of(c), lengths_of(p), mask, p.len());
        if mask[c.len() - 1] {
            assert(marked(c, mask).drop_last() =~= marked(p, mask));
        }
    }
}

/// Winners have exactly the seats of a match.
pub proof fn lemma_winners_fill(c: Seq<Seat>, target: nat)
    requires
        verdict_of(c, target) is Winners,
    ensures
        total_seats(verdict_of(c, target)->Winners_0) == target,
{
    if total_seats(c) > target {
        crate::solver::lemma_choice_sound(lengths_of(c), c.len(), target);
        lemma_marked_total(c, choice(lengths_of(c), c.len(), target));
    }
}

/// Decides a match attempt on `candidates` for matches of `seats` seats.
pub fn choose_winners(candidates: &Vec<(String, u64)>, seats: usize) -> (verdict: Verdict)
    ensures
        verdict@ == verdict_of(keyed(candidates@), seats as nat),
{
    let ghost c = keyed(candidates@);
    let mut total: u128 = 0;
    let mut lengths: Vec<u64> = Vec::new();
    let mut i: usize = 0;
    while i < candidates.len()
        invariant
            c == keyed(candidates@),
            0 <= i <= candidates.len(),
            total == total_seats(c.take(i as int)),
            total <= i * 0xffff_ffff_ffff_ffff,
            lengths@ == lengths_of(c).take(i as int),
        decreases candidates.len() - i,
    {
        proof {
            assert(c.take(i + 1).drop_last() =~= c.take(i as int));
            assert(c.take(i + 1).last() == c[i as int]);
            assert(lengths_of(c).take(i + 1) =~= lengths_of(c).take(i as int).push(c[i as int].1));
        }
        total = total + candidates[i].1 as u128;
        lengths.push(candidates[i].1);
        i = i + 1;
    }
    proof {
        assert(c.take(i as int) =~= c);
        assert(lengths_of(c).take(i as int) =~= lengths_of(c));
    }
    if total < seats as u128 {
        return Verdict::Short;
    }
    if total == seats as u128 {
        let mut all: Vec<(String, u64)> = Vec::new();
        let mut k: usize = 0;
        while k < candidates.len()
            invariant
                c == keyed(candidates@),
                0 <= k <= candidates.len(),
                keyed(all@) == c.take(k as int),
            decreases candidates.len() - k,
        {
            let ghost before = keyed(all@);
            all.push((candidates[k].0.clone(), candidates[k].1));
            proof {
                assert(keyed(all@) =~= before.push(c[k as int]));
                assert(c.take(k + 1) =~= c.take(k as int).push(c[k as int]));
            }
            k = k + 1;
        }
        proof {
            assert(c.take(k as int) =~= c);
        }
        return Verdict::Winners(all);
    }
    match solve_exact(&lengths, seats) {
        None => Verdict::Impossible,
        Some(marks) => {
            let mut won: Vec<(String, u64)> = Vec::new();
            let mut k: usize = 0;
            proof {
                assert(keyed(won@) =~= marked(c.take(0), marks@));
            }
            while k < candidates.len()
                invariant
                    c == keyed(candidates@),
                    marks.len() == candidates.len(),
                    0 <= k <= candidates.len(),
                    keyed(won@) == marked(c.take(k as int), marks@),
                decreases candidates.len() - k,
            {
                proof {
                    assert(c.take(k + 1).drop_last() =~= c.take(k as int));
                    assert(c.take(k + 1).last() == c[k as int]);
                }
                if marks[k] {
                    let ghost before = keyed(won@);
                    won.push((candidates[k].0.clone(), candidates[k].1));
                    proof {
                        assert(keyed(won@) =~= before.push(c[k as int]));
                    }
                }
                k = k + 1;
            }
            proof {
                assert(c.take(k as int) =~= c);
            }
            Verdict::Winners(won)
        },
    }
}

/// The parties of `w` that the session `a` owns according to `s`, in the
/// order of `w`.
pub open spec fn owned_by(w: Seq<Seat>, s: Map<Seq<char>, u64>, a: u64) -> Seq<Seat>
    decreases w.len(),
{
    if w.len() == 0 {
        Seq::empty()
    } else if s.contains_key(w.last().0) && s[w.last().0] == a {
        owned_by(w.drop_last(), s, a).push(w.last())
    } else {
        owned_by(w.drop_last(), s, a)
    }
}

/// The parties of `w` by owning session; a session without a party among
/// them has no entry, and a party without an owner is in no entry.
pub open spec fn grouping(w: Seq<Seat>, s: Map<Seq<char>, u64>) -> Map<u64, Seq<Seat>> {
    Map::new(|a: u64| owned_by(w, s, a).len() > 0, |a: u64| owned_by(w, s, a))
}

/// Sorts the winners of a match by the session that owns each of them.
pub(crate) fn group_by_session(winners: &Vec<(String, u64)>, senders: &DashMap<String, u64>) -> (collected:
    DashMap<u64, Vec<(String, u64)>>)
    ensures
        group_entries(collected) == grouping(keyed(winners@), sender_entries(*senders)),
{
    let ghost w = keyed(winners@);
    let ghost s = sender_entries(*senders);
    let mut collected = groups_new();
    let mut i: usize = 0;
    proof {
        assert(group_entries(collected) =~= grouping(w.take(0), s));
    }
    while i < winners.len()
        invariant
            w == keyed(winners@),
            s == sender_entries(*senders),
            0 <= i <= winners.len(),
            group_entries(collected) == grouping(w.take(i as int), s),
        decreases winners.len() - i,
    {
        proof {
            assert(w.take(i + 1).drop_last() =~= w.take(i as int));
            assert(w.take(i + 1).last() == w[i as int]);
        }
        match senders_get(senders, winners[i].0.as_str()) {
            Some(a) => {
                let mut parties = match groups_remove(&mut collected, a) {
                    Some(v) => v,
                    None => Vec::new(),
                };
                let ghost earlier = keyed(parties@);
                proof {
                    assert(earlier =~= owned_by(w.take(i as int), s, a));
                }
                parties.push((winners[i].0.clone(), winners[i].1));
                proof {
                    assert(keyed(parties@) =~= earlier.push(w[i as int]));
                }
                groups_insert(&mut collected, a, parties);
                proof {
                    assert(group_entries(collected) =~= grouping(w.take(i + 1), s));
                }
            },
            None => {
                proof {
                    assert(group_entries(collected) =~= grouping(w.take(i + 1), s));
                }
            },
        }
        i = i + 1;
    }
    proof {
        assert(w.take(i as int) =~= w);
    }
    collected
}

} // verus!
