//! Seat coverage of rank points: how many seats a set of rank windows puts on
//! a given rank, and where that number peaks.

use crate::tables::{lemma_lists_drop_last, lists, Window};
use vstd::prelude::*;

verus! {

/// A pool entry as it is enumerated: the player id and its window.
pub type Entry = (Seq<char>, Window);

/// The window `w` accepts the rank `r`.
pub open spec fn covers(w: Window, r: int) -> bool {
    w.0 <= r <= w.1
}

/// The seats `w` contributes at the rank `r`.
pub open spec fn seats_of(w: Window, r: int) -> nat {
    if covers(w, r) {
        w.2 as nat
    } else {
        0
    }
}

/// The seats that the entries of `l` put on the rank `r`, counted item by item.
pub open spec fn seats_at(l: Seq<Entry>, r: int) -> nat
    decreases l.len(),
{
    if l.len() == 0 {
        0
    } else {
        seats_at(l.drop_last(), r) + seats_of(l.last().1, r)
    }
}

/// Some enumeration of `m`; every finite map has one.
pub open spec fn order_of(m: Map<Seq<char>, Window>) -> Seq<Entry> {
    choose|l: Seq<Entry>| lists(l, m)
}

/// The total seats of all players of `m` whose window accepts the rank `r`.
pub open spec fn coverage(m: Map<Seq<char>, Window>, r: int) -> nat {
    seats_at(order_of(m), r)
}

/// Dropping the item at `j` takes exactly its seats off every rank.
pub proof fn lemma_seats_remove(l: Seq<Entry>, j: int, r: int)
    requires
        0 <= j < l.len(),
    ensures
        seats_at(l, r) == seats_at(l.remove(j), r) + seats_of(l[j].1, r),
    decreases l.len(),
{
    if j == l.len() - 1 {
        assert(l.remove(j) =~= l.drop_last());
    } else {
        lemma_seats_remove(l.drop_last(), j, r);
        assert(l.remove(j).drop_last() =~= l.drop_last().remove(j));
        assert(l.remove(j).last() == l.last());
    }
}

/// Two enumerations of one map put the same seats on every rank.
pub proof fn lemma_seats_any_order(l1: Seq<Entry>, l2: Seq<Entry>, m: Map<Seq<char>, Window>, r: int)
    requires
        lists(l1, m),
        lists(l2, m),
    ensures
        seats_at(l1, r) == seats_at(l2, r),
    decreases l1.len(),
{
    if l1.len() == 0 {
        if l2.len() > 0 {
            assert(m.contains_key(l2[0].0));
        }
    } else {
        let e = l1.last();
        assert(m.contains_key(e.0));
        let j = choose|j: int| 0 <= j < l2.len() && (#[trigger] l2[j]).0 == e.0;
        let l1s = l1.drop_last();
        let l2s = l2.remove(j);
        let ms = m.remove(e.0);
        lemma_lists_drop_last(l1, m);
        assert(lists(l2s, ms)) by {
            assert forall|k: Seq<char>| #[trigger] ms.contains_key(k) implies exists|i: int|
                0 <= i < l2s.len() && (#[trigger] l2s[i]).0 == k by {
                assert(m.contains_key(k));
                let i = choose|i: int| 0 <= i < l2.len() && (#[trigger] l2[i]).0 == k;
                if i < j {
                    assert(l2s[i] == l2[i]);
                } else {
                    assert(i != j);
                    assert(l2s[i - 1] == l2[i]);
                }
            }
            assert forall|i: int| 0 <= i < l2s.len() implies ms.contains_pair(
                (#[trigger] l2s[i]).0,
                l2s[i].1,
            ) by {
                if i < j {
                    assert(l2s[i] == l2[i]);
                    assert(l2[i].0 != l2[j].0);
                } else {
                    assert(l2s[i] == l2[i + 1]);
                    assert(l2[j].0 != l2[i + 1].0);
                }
            }
            assert forall|i: int, k: int| 0 <= i < k < l2s.len() implies (#[trigger] l2s[i]).0 != (
            #[trigger] l2s[k]).0 by {
                let i2 = if i < j { i } else { i + 1 };
                let k2 = if k < j { k } else { k + 1 };
                assert(l2s[i] == l2[i2]);
                assert(l2s[k] == l2[k2]);
            }
        }
        lemma_seats_any_order(l1s, l2s, ms, r);
        lemma_seats_remove(l2, j, r);
        assert(m.contains_pair(l2[j].0, l2[j].1));
        assert(m.contains_pair(e.0, e.1));
    }
}

/// The coverage of a map is the seat count of any of its enumerations.
pub proof fn lemma_coverage_of_listing(l: Seq<Entry>, m: Map<Seq<char>, Window>, r: int)
    requires
        lists(l, m),
    ensures
        seats_at(l, r) == coverage(m, r),
{
    lemma_seats_any_order(l, order_of(m), m, r);
}

/// No window of `l` is inverted.
pub open spec fn ordered(l: Seq<Entry>) -> bool {
    forall|i: int| 0 <= i < l.len() ==> (#[trigger] l[i]).1.0 <= l[i].1.1
}

/// `x` lies between the lowest lower end and the highest upper end of `l`.
pub open spec fn spans(l: Seq<Entry>, x: int) -> bool {
    &&& exists|i: int| 0 <= i < l.len() && (#[trigger] l[i]).1.0 <= x
    &&& exists|i: int| 0 <= i < l.len() && x <= (#[trigger] l[i]).1.1
}

/// `r` is the lowest rank of the span of `l` on which the seats peak.
pub open spec fn best_at(l: Seq<Entry>, r: int) -> bool {
    &&& spans(l, r)
    &&& forall|x: int| spans(l, x) ==> #[trigger] seats_at(l, x) <= seats_at(l, r)
    &&& forall|x: int| spans(l, x) && x < r ==> #[trigger] seats_at(l, x) < seats_at(l, r)
}

/// The entries of `l` that accept the rank `r`, in the order of `l`, each
/// with its seat count.
pub open spec fn accepted(l: Seq<Entry>, r: int) -> Seq<(Seq<char>, u64)>
    decreases l.len(),
{
    if l.len() == 0 {
        Seq::empty()
    } else if covers(l.last().1, r) {
        accepted(l.drop_last(), r).push((l.last().0, l.last().1.2))
    } else {
        accepted(l.drop_last(), r)
    }
}

/// `v` is the most seats that `l` puts on any rank from `a` to `b`.
pub open spec fn is_peak(l: Seq<Entry>, a: int, b: int, v: nat) -> bool {
    &&& exists|x: int| a <= x <= b && #[trigger] seats_at(l, x) == v
    &&& forall|x: int| a <= x <= b ==> #[trigger] seats_at(l, x) <= v
}

/// The most seats that `l` puts on any rank from `a` to `b`.
pub open spec fn peak(l: Seq<Entry>, a: int, b: int) -> nat {
    choose|v: nat| is_peak(l, a, b, v)
}

/// A seat count as a report carries it: capped at the largest `u64`.
pub open spec fn capped(v: nat) -> u64 {
    if v > u64::MAX {
        u64::MAX
    } else {
        v as u64
    }
}

/// What is reported for a player with the window `w` among the entries `l`:
/// the peak over the window and the one rank past its upper end.
pub open spec fn reported(l: Seq<Entry>, w: Window) -> u64 {
    capped(peak(l, w.0 as int, w.1 + 1))
}

/// Seats only grow from `x` to `y` when every window that accepts `x` accepts `y`.
pub proof fn lemma_seats_monotone(l: Seq<Entry>, x: int, y: int)
    requires
        forall|k: int| 0 <= k < l.len() && covers((#[trigger] l[k]).1, x) ==> covers(l[k].1, y),
    ensures
        seats_at(l, x) <= seats_at(l, y),
    decreases l.len(),
{
    if l.len() > 0 {
        let p = l.drop_last();
        assert forall|k: int| 0 <= k < p.len() && covers((#[trigger] p[k]).1, x) implies covers(
            p[k].1,
            y,
        ) by {
            assert(p[k] == l[k]);
        }
        lemma_seats_monotone(p, x, y);
        assert(l.last() == l[l.len() - 1]);
    }
}

/// Among the first `n` windows that accept `x`, one starts latest.
proof fn latest_cover(l: Seq<Entry>, x: int, n: int) -> (j: int)
    requires
        0 <= n <= l.len(),
        exists|k: int| 0 <= k < n && covers((#[trigger] l[k]).1, x),
    ensures
        0 <= j < n,
        covers(l[j].1, x),
        forall|k: int| 0 <= k < n && covers((#[trigger] l[k]).1, x) ==> l[k].1.0 <= l[j].1.0,
    decreases n,
{
    let last = n - 1;
    if exists|k: int| 0 <= k < last && covers((#[trigger] l[k]).1, x) {
        let j = latest_cover(l, x, last);
        if covers(l[last].1, x) && l[last].1.0 > l[j].1.0 {
            last
        } else {
            j
        }
    } else {
        last
    }
}

/// For every rank from `a` to `b` there is a rank at or below it that carries
/// no fewer seats and is either `a` itself or the lower end of some window.
pub proof fn lemma_step_point(l: Seq<Entry>, a: int, x: int) -> (y: int)
    requires
        a <= x,
    ensures
        a <= y <= x,
        y == a || exists|j: int| 0 <= j < l.len() && (#[trigger] l[j]).1.0 == y,
        seats_at(l, x) <= seats_at(l, y),
{
    if exists|k: int| 0 <= k < l.len() && covers((#[trigger] l[k]).1, x) {
        let j = latest_cover(l, x, l.len() as int);
        let y = if l[j].1.0 > a { l[j].1.0 as int } else { a };
        lemma_seats_monotone(l, x, y);
        y
    } else {
        lemma_seats_monotone(l, x, a);
        a
    }
}

/// For every rank at or above some lower end there is a lower end at or
/// below it that carries no fewer seats.
pub proof fn lemma_start_dominates(l: Seq<Entry>, x: int) -> (j: int)
    requires
        exists|i: int| 0 <= i < l.len() && (#[trigger] l[i]).1.0 <= x,
    ensures
        0 <= j < l.len(),
        l[j].1.0 <= x,
        seats_at(l, x) <= seats_at(l, l[j].1.0 as int),
{
    if exists|k: int| 0 <= k < l.len() && covers((#[trigger] l[k]).1, x) {
        let j = latest_cover(l, x, l.len() as int);
        lemma_seats_monotone(l, x, l[j].1.0 as int);
        j
    } else {
        let j = choose|i: int| 0 <= i < l.len() && (#[trigger] l[i]).1.0 <= x;
        lemma_seats_monotone(l, x, l[j].1.0 as int);
        j
    }
}

/// At most one rank is the best of `l`.
pub proof fn lemma_best_unique(l: Seq<Entry>, r1: int, r2: int)
    requires
        best_at(l, r1),
        best_at(l, r2),
    ensures
        r1 == r2,
{
    if r1 < r2 {
        assert(seats_at(l, r1) < seats_at(l, r2));
        assert(seats_at(l, r2) <= seats_at(l, r1));
    } else if r2 < r1 {
        assert(seats_at(l, r2) < seats_at(l, r1));
        assert(seats_at(l, r1) <= seats_at(l, r2));
    }
}

/// A value shown to be the peak is the peak.
pub proof fn lemma_peak_is(l: Seq<Entry>, a: int, b: int, v: nat)
    requires
        is_peak(l, a, b, v),
    ensures
        peak(l, a, b) == v,
{
    let p = peak(l, a, b);
}

/// The lower end of the entry `b` is the best rank of `l` when no other
/// lower end carries more seats, nor as many from further down.
pub proof fn lemma_best_from_starts(l: Seq<Entry>, b: int)
    requires
        ordered(l),
        0 <= b < l.len(),
        forall|j: int|
            0 <= j < l.len() ==> {
                ||| seats_at(l, (#[trigger] l[j]).1.0 as int) < seats_at(l, l[b].1.0 as int)
                ||| (seats_at(l, l[j].1.0 as int) == seats_at(l, l[b].1.0 as int) && l[b].1.0
                    <= l[j].1.0)
            },
    ensures
        best_at(l, l[b].1.0 as int),
{
    let r = l[b].1.0 as int;
    assert(l[b].1.0 <= r && r <= l[b].1.1);
    assert forall|x: int| spans(l, x) implies #[trigger] seats_at(l, x) <= seats_at(l, r) by {
        let j = lemma_start_dominates(l, x);
    }
    assert forall|x: int| spans(l, x) && x < r implies #[trigger] seats_at(l, x) < seats_at(
        l,
        r,
    ) by {
        let j = lemma_start_dominates(l, x);
    }
}

/// Among the first `n` entries, one lower end carries the most seats, and
/// is the lowest of those that do.
proof fn best_start(l: Seq<Entry>, n: int) -> (b: int)
    requires
        0 < n <= l.len(),
    ensures
        0 <= b < n,
        forall|j: int|
            0 <= j < n ==> {
                ||| seats_at(l, (#[trigger] l[j]).1.0 as int) < seats_at(l, l[b].1.0 as int)
                ||| (seats_at(l, l[j].1.0 as int) == seats_at(l, l[b].1.0 as int) && l[b].1.0
                    <= l[j].1.0)
            },
    decreases n,
{
    if n == 1 {
        0
    } else {
        let p = best_start(l, n - 1);
        let i = n - 1;
        let si = seats_at(l, l[i].1.0 as int);
        let sp = seats_at(l, l[p].1.0 as int);
        if si > sp || (si == sp && l[i].1.0 < l[p].1.0) {
            i
        } else {
            p
        }
    }
}

/// Every non-empty set of upright windows has a best rank.
pub proof fn lemma_best_exists(l: Seq<Entry>) -> (r: int)
    requires
        ordered(l),
        l.len() > 0,
    ensures
        best_at(l, r),
{
    let b = best_start(l, l.len() as int);
    lemma_best_from_starts(l, b);
    l[b].1.0 as int
}

/// Two enumerations of one map span the same ranks.
pub proof fn lemma_spans_any_order(l1: Seq<Entry>, l2: Seq<Entry>, m: Map<Seq<char>, Window>, x: int)
    requires
        lists(l1, m),
        lists(l2, m),
        spans(l1, x),
    ensures
        spans(l2, x),
{
    let i = choose|i: int| 0 <= i < l1.len() && (#[trigger] l1[i]).1.0 <= x;
    assert(m.contains_key(l1[i].0));
    let i2 = choose|k: int| 0 <= k < l2.len() && (#[trigger] l2[k]).0 == l1[i].0;
    assert(m.contains_pair(l2[i2].0, l2[i2].1));
    assert(l2[i2].1.0 <= x);
    let j = choose|j: int| 0 <= j < l1.len() && x <= (#[trigger] l1[j]).1.1;
    assert(m.contains_key(l1[j].0));
    let j2 = choose|k: int| 0 <= k < l2.len() && (#[trigger] l2[k]).0 == l1[j].0;
    assert(m.contains_pair(l2[j2].0, l2[j2].1));
    assert(x <= l2[j2].1.1);
}

/// The best rank does not depend on the order of enumeration.
pub proof fn lemma_best_any_order(l1: Seq<Entry>, l2: Seq<Entry>, m: Map<Seq<char>, Window>, r: int)
    requires
        lists(l1, m),
        lists(l2, m),
        best_at(l1, r),
    ensures
        best_at(l2, r),
{
    lemma_spans_any_order(l1, l2, m, r);
    assert forall|x: int| spans(l2, x) implies #[trigger] seats_at(l2, x) <= seats_at(l2, r) by {
        lemma_spans_any_order(l2, l1, m, x);
        lemma_seats_any_order(l1, l2, m, x);
        lemma_seats_any_order(l1, l2, m, r);
        assert(seats_at(l1, x) <= seats_at(l1, r));
    }
    assert forall|x: int| spans(l2, x) && x < r implies #[trigger] seats_at(l2, x) < seats_at(
        l2,
        r,
    ) by {
        lemma_spans_any_order(l2, l1, m, x);
        lemma_seats_any_order(l1, l2, m, x);
        lemma_seats_any_order(l1, l2, m, r);
        assert(seats_at(l1, x) < seats_at(l1, r));
    }
}

/// The peak over an interval does not depend on the order of enumeration.
pub proof fn lemma_peak_any_order(
    l1: Seq<Entry>,
    l2: Seq<Entry>,
    m: Map<Seq<char>, Window>,
    a: int,
    b: int,
    v: nat,
)
    requires
        lists(l1, m),
        lists(l2, m),
        is_peak(l1, a, b, v),
    ensures
        is_peak(l2, a, b, v),
{
    let x0 = choose|x: int| a <= x <= b && #[trigger] seats_at(l1, x) == v;
    lemma_seats_any_order(l1, l2, m, x0);
    assert(seats_at(l2, x0) == v);
    assert forall|x: int| a <= x <= b implies #[trigger] seats_at(l2, x) <= v by {
        lemma_seats_any_order(l1, l2, m, x);
        assert(seats_at(l1, x) <= v);
    }
}

/// Among `a` and the lower ends of the first `n` entries that lie in
/// `(a, b]`, one rank carries the most seats.
proof fn top_step(l: Seq<Entry>, a: int, b: int, n: int) -> (y: int)
    requires
        a <= b,
        0 <= n <= l.len(),
    ensures
        a <= y <= b,
        seats_at(l, a) <= seats_at(l, y),
        forall|j: int|
            0 <= j < n && a < (#[trigger] l[j]).1.0 <= b ==> seats_at(l, l[j].1.0 as int)
                <= seats_at(l, y),
    decreases n,
{
    if n == 0 {
        a
    } else {
        let p = top_step(l, a, b, n - 1);
        let s = l[n - 1].1.0 as int;
        if a < s <= b && seats_at(l, s) > seats_at(l, p) {
            s
        } else {
            p
        }
    }
}

/// Every non-empty interval of ranks has a peak.
pub proof fn lemma_peak_exists(l: Seq<Entry>, a: int, b: int)
    requires
        a <= b,
    ensures
        is_peak(l, a, b, peak(l, a, b)),
{
    let y = top_step(l, a, b, l.len() as int);
    let v = seats_at(l, y);
    assert forall|x: int| a <= x <= b implies #[trigger] seats_at(l, x) <= v by {
        let s = lemma_step_point(l, a, x);
    }
    assert(is_peak(l, a, b, v));
}

/// The items of `accepted(l, r)` are exactly the entries of `l` that
/// accept `r`, and no id comes twice if none does in `l`.
pub proof fn lemma_accepted(l: Seq<Entry>, r: int)
    requires
        forall|i: int, j: int| 0 <= i < j < l.len() ==> (#[trigger] l[i]).0 != (#[trigger] l[j]).0,
    ensures
        forall|a: int|
            0 <= a < accepted(l, r).len() ==> exists|i: int|
                0 <= i < l.len() && covers((#[trigger] l[i]).1, r) && (#[trigger] accepted(
                    l,
                    r,
                )[a]) == (l[i].0, l[i].1.2),
        forall|i: int|
            0 <= i < l.len() && covers((#[trigger] l[i]).1, r) ==> exists|a: int|
                0 <= a < accepted(l, r).len() && (#[trigger] accepted(l, r)[a]) == (
                    l[i].0,
                    l[i].1.2,
                ),
        forall|a: int, b: int|
            0 <= a < b < accepted(l, r).len() ==> (#[trigger] accepted(l, r)[a]).0 != (
            #[trigger] accepted(l, r)[b]).0,
    decreases l.len(),
{
    if l.len() > 0 {
        let p = l.drop_last();
        let n = l.len() - 1;
        assert forall|i: int, j: int| 0 <= i < j < p.len() implies (#[trigger] p[i]).0 != (
        #[trigger] p[j]).0 by {
            assert(p[i] == l[i] && p[j] == l[j]);
        }
        lemma_accepted(p, r);
        let acc = accepted(l, r);
        let accp = accepted(p, r);
        assert forall|a: int| 0 <= a < acc.len() implies exists|i: int|
            0 <= i < l.len() && covers((#[trigger] l[i]).1, r) && (#[trigger] acc[a]) == (
                l[i].0,
                l[i].1.2,
            ) by {
            if a < accp.len() {
                assert(acc[a] == accp[a]);
                let i = choose|i: int|
                    0 <= i < p.len() && covers((#[trigger] p[i]).1, r) && accp[a] == (
                        p[i].0,
                        p[i].1.2,
                    );
                assert(p[i] == l[i]);
            } else {
                assert(acc[a] == (l[n].0, l[n].1.2));
            }
        }
        assert forall|i: int| 0 <= i < l.len() && covers((#[trigger] l[i]).1, r) implies exists|
            a: int,
        |
            0 <= a < acc.len() && (#[trigger] acc[a]) == (l[i].0, l[i].1.2) by {
            if i < n {
                assert(p[i] == l[i]);
                let a = choose|a: int|
                    0 <= a < accp.len() && (#[trigger] accp[a]) == (p[i].0, p[i].1.2);
                assert(acc[a] == accp[a]);
            } else {
                assert(acc[acc.len() - 1] == (l[n].0, l[n].1.2));
            }
        }
        assert forall|a: int, b: int| 0 <= a < b < acc.len() implies (#[trigger] acc[a]).0 != (
        #[trigger] acc[b]).0 by {
            if b < accp.len() {
                assert(acc[a] == accp[a] && acc[b] == accp[b]);
            } else {
                assert(acc[a] == accp[a]);
                let i = choose|i: int|
                    0 <= i < p.len() && covers((#[trigger] p[i]).1, r) && accp[a] == (
                        p[i].0,
                        p[i].1.2,
                    );
                assert(p[i] == l[i]);
                assert(l[i].0 != l[n].0);
            }
        }
    }
}

/// `x` lies between the lowest lower end and the highest upper end of the
/// windows of `m`.
pub open spec fn in_span(m: Map<Seq<char>, Window>, x: int) -> bool {
    &&& exists|id: Seq<char>| #[trigger] m.contains_key(id) && m[id].0 <= x
    &&& exists|id: Seq<char>| #[trigger] m.contains_key(id) && x <= m[id].1
}

/// `r` is the best rank of the pool `m`.
pub open spec fn is_best_rank(m: Map<Seq<char>, Window>, r: int) -> bool {
    best_at(order_of(m), r)
}

/// The best rank of a non-empty pool `m`.
pub open spec fn pool_best_rank(m: Map<Seq<char>, Window>) -> int {
    choose|r: int| is_best_rank(m, r)
}

/// The players of `m` whose window accepts the rank `r`, each with its seat
/// count.
pub open spec fn accepting(m: Map<Seq<char>, Window>, r: int) -> Map<Seq<char>, u64> {
    Map::new(|id: Seq<char>| m.contains_key(id) && covers(m[id], r), |id: Seq<char>| m[id].2)
}

/// The players of `m` that a match attempt considers: those whose window
/// accepts the best rank.
pub open spec fn candidates(m: Map<Seq<char>, Window>) -> Map<Seq<char>, u64> {
    accepting(m, pool_best_rank(m))
}

/// What is reported for each player of `m`.
pub open spec fn states(m: Map<Seq<char>, Window>) -> Map<Seq<char>, u64> {
    Map::new(|id: Seq<char>| m.contains_key(id), |id: Seq<char>| reported(order_of(m), m[id]))
}

/// The entries of an enumeration of `m` that accept `r` enumerate the
/// players of `m` that accept `r`.
pub proof fn lemma_accepted_lists(l: Seq<Entry>, m: Map<Seq<char>, Window>, r: int)
    requires
        lists(l, m),
    ensures
        lists(accepted(l, r), accepting(m, r)),
{
    lemma_accepted(l, r);
    let acc = accepted(l, r);
    let c = accepting(m, r);
    assert forall|a: int| 0 <= a < acc.len() implies c.contains_pair((#[trigger] acc[a]).0, acc[a].1) by {
        let i = choose|i: int|
            0 <= i < l.len() && covers((#[trigger] l[i]).1, r) && acc[a] == (l[i].0, l[i].1.2);
        assert(m.contains_pair(l[i].0, l[i].1));
    }
    assert forall|k: Seq<char>| #[trigger] c.contains_key(k) implies exists|a: int|
        0 <= a < acc.len() && (#[trigger] acc[a]).0 == k by {
        assert(m.contains_key(k));
        let i = choose|i: int| 0 <= i < l.len() && (#[trigger] l[i]).0 == k;
        assert(m.contains_pair(l[i].0, l[i].1));
        let a = choose|a: int| 0 <= a < acc.len() && (#[trigger] acc[a]) == (l[i].0, l[i].1.2);
        assert(acc[a].0 == k);
    }
}

/// Every finite map has an enumeration.
pub proof fn lemma_finite_listing(m: Map<Seq<char>, Window>)
    requires
        m.dom().finite(),
    ensures
        lists(order_of(m), m),
    decreases m.dom().len(),
{
    if m.dom().len() == 0 {
        assert(m.dom() =~= Set::empty());
        assert(lists(Seq::<Entry>::empty(), m));
    } else {
        let k = m.dom().choose();
        let rest = m.remove(k);
        lemma_finite_listing(rest);
        let p = order_of(rest);
        let l = p.push((k, m[k]));
        assert forall|i: int| 0 <= i < l.len() implies m.contains_pair((#[trigger] l[i]).0, l[i].1) by {
            if i < p.len() {
                assert(l[i] == p[i]);
                assert(rest.contains_pair(p[i].0, p[i].1));
            }
        }
        assert forall|i: int, j: int| 0 <= i < j < l.len() implies (#[trigger] l[i]).0 != (
        #[trigger] l[j]).0 by {
            assert(l[i] == p[i]);
            assert(rest.contains_pair(p[i].0, p[i].1));
            if j < p.len() {
                assert(l[j] == p[j]);
            }
        }
        assert forall|id: Seq<char>| #[trigger] m.contains_key(id) implies exists|i: int|
            0 <= i < l.len() && (#[trigger] l[i]).0 == id by {
            if id == k {
                assert(l[p.len() as int].0 == id);
            } else {
                assert(rest.contains_key(id));
                let i = choose|i: int| 0 <= i < p.len() && (#[trigger] p[i]).0 == id;
                assert(l[i] == p[i]);
            }
        }
        assert(lists(l, m));
    }
}

/// The ranks that an enumeration of `m` spans are those that `m` spans.
pub proof fn lemma_span_of_listing(l: Seq<Entry>, m: Map<Seq<char>, Window>, x: int)
    requires
        lists(l, m),
    ensures
        spans(l, x) == in_span(m, x),
{
    if spans(l, x) {
        let i = choose|i: int| 0 <= i < l.len() && (#[trigger] l[i]).1.0 <= x;
        assert(m.contains_pair(l[i].0, l[i].1));
        let j = choose|j: int| 0 <= j < l.len() && x <= (#[trigger] l[j]).1.1;
        assert(m.contains_pair(l[j].0, l[j].1));
    }
    if in_span(m, x) {
        let a = choose|id: Seq<char>| #[trigger] m.contains_key(id) && m[id].0 <= x;
        let i = choose|i: int| 0 <= i < l.len() && (#[trigger] l[i]).0 == a;
        assert(m.contains_pair(l[i].0, l[i].1));
        let b = choose|id: Seq<char>| #[trigger] m.contains_key(id) && x <= m[id].1;
        let j = choose|j: int| 0 <= j < l.len() && (#[trigger] l[j]).0 == b;
        assert(m.contains_pair(l[j].0, l[j].1));
    }
}

/// A pool that holds at least one player, all windows upright, has a best
/// rank, and that rank lies in the span of the pool.
pub proof fn lemma_best_rank_exists(m: Map<Seq<char>, Window>)
    requires
        m.dom().finite(),
        exists|id: Seq<char>| m.contains_key(id),
        forall|id: Seq<char>| #[trigger] m.contains_key(id) ==> m[id].0 <= m[id].1,
    ensures
        is_best_rank(m, pool_best_rank(m)),
        in_span(m, pool_best_rank(m)),
{
    lemma_finite_listing(m);
    let l = order_of(m);
    assert forall|i: int| 0 <= i < l.len() implies (#[trigger] l[i]).1.0 <= l[i].1.1 by {
        assert(m.contains_pair(l[i].0, l[i].1));
    }
    let id = choose|id: Seq<char>| m.contains_key(id);
    assert(m.contains_key(id));
    let r = lemma_best_exists(l);
    assert(is_best_rank(m, r));
    lemma_span_of_listing(l, m, pool_best_rank(m));
}

/// Selector maximality: in a pool of upright windows, no rank in the span
/// of the pool carries more seats than the best rank.
pub proof fn lemma_best_rank_peaks(m: Map<Seq<char>, Window>, x: int)
    requires
        m.dom().finite(),
        forall|id: Seq<char>| #[trigger] m.contains_key(id) ==> m[id].0 <= m[id].1,
        in_span(m, x),
    ensures
        coverage(m, x) <= coverage(m, pool_best_rank(m)),
{
    lemma_best_rank_exists(m);
    lemma_finite_listing(m);
    lemma_span_of_listing(order_of(m), m, x);
}

/// Tie-break: in a pool of upright windows, a rank in the span that
/// carries as many seats as the best rank is not below it.
pub proof fn lemma_best_rank_lowest(m: Map<Seq<char>, Window>, x: int)
    requires
        m.dom().finite(),
        forall|id: Seq<char>| #[trigger] m.contains_key(id) ==> m[id].0 <= m[id].1,
        in_span(m, x),
        coverage(m, x) >= coverage(m, pool_best_rank(m)),
    ensures
        pool_best_rank(m) <= x,
{
    lemma_best_rank_exists(m);
    lemma_finite_listing(m);
    lemma_span_of_listing(order_of(m), m, x);
}

} // verus!
