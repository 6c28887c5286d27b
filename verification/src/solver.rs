//! Exact-seat selection: out of a list of parties, the fewest whose seats
//! add up to exactly the seats of a match.

use vstd::prelude::*;

verus! {

/// The seats of the parties among the first `i` that `mask` marks.
pub open spec fn seat_sum(a: Seq<u64>, mask: Seq<bool>, i: nat) -> nat
    decreases i,
{
    if i == 0 {
        0
    } else {
        seat_sum(a, mask, (i - 1) as nat) + if mask[i - 1] {
            a[i - 1] as nat
        } else {
            0
        }
    }
}

/// How many of the first `i` parties `mask` marks.
pub open spec fn party_count(mask: Seq<bool>, i: nat) -> nat
    decreases i,
{
    if i == 0 {
        0
    } else {
        party_count(mask, (i - 1) as nat) + if mask[i - 1] {
            1nat
        } else {
            0
        }
    }
}

/// The fewest parties among the first `i` whose seats add up to `j`, or
/// `None` where no choice among them does.
pub open spec fn fewest(a: Seq<u64>, i: nat, j: nat) -> Option<nat>
    decreases i,
{
    if i == 0 {
        if j == 0 {
            Some(0)
        } else {
            None
        }
    } else {
        let without = fewest(a, (i - 1) as nat, j);
        if a[i - 1] <= j {
            match (fewest(a, (i - 1) as nat, (j - a[i - 1]) as nat), without) {
                (Some(t), Some(s)) => if t + 1 <= s {
                    Some(t + 1)
                } else {
                    Some(s)
                },
                (Some(t), None) => Some(t + 1),
                (None, s) => s,
            }
        } else {
            without
        }
    }
}

/// The party `i - 1` belongs to the choice for `j` seats among the first
/// `i`: it does whenever taking it needs no more parties than leaving it.
pub open spec fn takes(a: Seq<u64>, i: nat, j: nat) -> bool {
    &&& i > 0
    &&& a[i - 1] <= j
    &&& match (fewest(a, (i - 1) as nat, (j - a[i - 1]) as nat), fewest(a, (i - 1) as nat, j)) {
        (Some(t), Some(s)) => t + 1 <= s,
        (Some(_), None) => true,
        (None, _) => false,
    }
}

/// The party `k` belongs to the choice for `j` seats among the first `i`.
pub open spec fn picks(a: Seq<u64>, i: nat, j: nat, k: int) -> bool
    decreases i,
{
    if i == 0 {
        false
    } else if takes(a, i, j) {
        k == i - 1 || picks(a, (i - 1) as nat, (j - a[i - 1]) as nat, k)
    } else {
        picks(a, (i - 1) as nat, j, k)
    }
}

/// The choice for `j` seats among the first `i` parties, as a mark per party.
pub open spec fn choice(a: Seq<u64>, i: nat, j: nat) -> Seq<bool> {
    Seq::new(a.len(), |k: int| picks(a, i, j, k))
}

/// A choice never marks a party at or past `i`.
pub proof fn lemma_picks_below(a: Seq<u64>, i: nat, j: nat, k: int)
    requires
        picks(a, i, j, k),
    ensures
        0 <= k < i,
    decreases i,
{
    if i > 0 {
        if takes(a, i, j) {
            if k != i - 1 {
                lemma_picks_below(a, (i - 1) as nat, (j - a[i - 1]) as nat, k);
            }
        } else {
            lemma_picks_below(a, (i - 1) as nat, j, k);
        }
    }
}

/// Sums and counts over the first `i` parties only look at the first `i` marks.
pub proof fn lemma_prefix_only(a: Seq<u64>, m1: Seq<bool>, m2: Seq<bool>, i: nat)
    requires
        forall|k: int| 0 <= k < i ==> m1[k] == m2[k],
    ensures
        seat_sum(a, m1, i) == seat_sum(a, m2, i),
        party_count(m1, i) == party_count(m2, i),
    decreases i,
{
    if i > 0 {
        lemma_prefix_only(a, m1, m2, (i - 1) as nat);
    }
}

/// Sums over the first `i` parties only look at the first `i` seat counts.
pub proof fn lemma_lengths_only(a1: Seq<u64>, a2: Seq<u64>, mask: Seq<bool>, i: nat)
    requires
        forall|k: int| 0 <= k < i ==> a1[k] == a2[k],
    ensures
        seat_sum(a1, mask, i) == seat_sum(a2, mask, i),
    decreases i,
{
    if i > 0 {
        lemma_lengths_only(a1, a2, mask, (i - 1) as nat);
    }
}

/// Where a choice exists it has the seats asked for and the number of
/// parties that `fewest` names.
pub proof fn lemma_choice_sound(a: Seq<u64>, i: nat, j: nat)
    requires
        i <= a.len(),
        fewest(a, i, j) is Some,
    ensures
        seat_sum(a, choice(a, i, j), i) == j,
        party_count(choice(a, i, j), i) == fewest(a, i, j)->0,
        fewest(a, i, j)->0 <= i,
    decreases i,
{
    if i > 0 {
        let c = choice(a, i, j);
        let p = (i - 1) as nat;
        assert(c[i - 1] == takes(a, i, j)) by {
            if picks(a, p, j, i - 1) {
                lemma_picks_below(a, p, j, i - 1);
            }
            if a[i - 1] <= j && picks(a, p, (j - a[i - 1]) as nat, i - 1) {
                lemma_picks_below(a, p, (j - a[i - 1]) as nat, i - 1);
            }
        }
        if takes(a, i, j) {
            let rest = (j - a[i - 1]) as nat;
            lemma_choice_sound(a, p, rest);
            assert forall|k: int| 0 <= k < p implies c[k] == choice(a, p, rest)[k] by {}
            lemma_prefix_only(a, c, choice(a, p, rest), p);
        } else {
            lemma_choice_sound(a, p, j);
            assert forall|k: int| 0 <= k < p implies c[k] == choice(a, p, j)[k] by {}
            lemma_prefix_only(a, c, choice(a, p, j), p);
        }
    }
}

/// Whatever marking of the first `i` parties has `j` seats, a choice for
/// `j` exists and uses no more parties.
pub proof fn lemma_fewest_complete(a: Seq<u64>, mask: Seq<bool>, i: nat, j: nat)
    requires
        i <= a.len(),
        seat_sum(a, mask, i) == j,
    ensures
        fewest(a, i, j) is Some,
        fewest(a, i, j)->0 <= party_count(mask, i),
    decreases i,
{
    if i > 0 {
        let p = (i - 1) as nat;
        if mask[i - 1] {
            lemma_fewest_complete(a, mask, p, (j - a[i - 1]) as nat);
        } else {
            lemma_fewest_complete(a, mask, p, j);
        }
    }
}

/// The last of the first `i` parties belongs to a choice exactly when it is
/// taken.
pub proof fn lemma_picks_last(a: Seq<u64>, i: nat, j: nat)
    requires
        i > 0,
    ensures
        picks(a, i, j, i - 1) == takes(a, i, j),
{
    let p = (i - 1) as nat;
    if picks(a, p, j, i - 1) {
        lemma_picks_below(a, p, j, i - 1);
    }
    if a[i - 1] <= j && picks(a, p, (j - a[i - 1]) as nat, i - 1) {
        lemma_picks_below(a, p, (j - a[i - 1]) as nat, i - 1);
    }
}

/// Tie-break: of two choices that are as small, the one that is made has
/// the later party.  Where a marking of the first `i` parties has `j` seats
/// and no more parties than the choice for `j`, and is another marking than
/// the choice, the last party on which the two differ is in the choice.
pub proof fn lemma_choice_prefers_later(a: Seq<u64>, mask: Seq<bool>, i: nat, j: nat) -> (k: int)
    requires
        i <= a.len(),
        seat_sum(a, mask, i) == j,
        fewest(a, i, j) == Some(party_count(mask, i)),
        exists|q: int| 0 <= q < i && mask[q] != picks(a, i, j, q),
    ensures
        0 <= k < i,
        picks(a, i, j, k),
        !mask[k],
        forall|q: int| k < q < i ==> mask[q] == #[trigger] picks(a, i, j, q),
    decreases i,
{
    let p = (i - 1) as nat;
    let d = choose|q: int| 0 <= q < i && mask[q] != picks(a, i, j, q);
    lemma_picks_last(a, i, j);
    if takes(a, i, j) {
        if !mask[i - 1] {
            i - 1
        } else {
            let rest = (j - a[i - 1]) as nat;
            assert(mask[d] != picks(a, p, rest, d));
            let k = lemma_choice_prefers_later(a, mask, p, rest);
            assert forall|q: int| k < q < i implies mask[q] == #[trigger] picks(a, i, j, q) by {
                if q < i - 1 {
                    assert(mask[q] == picks(a, p, rest, q));
                }
            }
            k
        }
    } else {
        if mask[i - 1] {
            lemma_fewest_complete(a, mask, p, (j - a[i - 1]) as nat);
            assert(false);
            0
        } else {
            assert(mask[d] != picks(a, p, j, d));
            let k = lemma_choice_prefers_later(a, mask, p, j);
            assert forall|q: int| k < q < i implies mask[q] == #[trigger] picks(a, i, j, q) by {
                if q < i - 1 {
                    assert(mask[q] == picks(a, p, j, q));
                }
            }
            k
        }
    }
}

/// No seats take no parties.
pub proof fn lemma_fewest_zero(a: Seq<u64>, i: nat)
    ensures
        fewest(a, i, 0) == Some(0nat),
    decreases i,
{
    if i > 0 {
        lemma_fewest_zero(a, (i - 1) as nat);
    }
}

/// A table cell holds what `fewest` names.
spec fn agrees(c: Option<usize>, f: Option<nat>) -> bool {
    match (c, f) {
        (Some(x), Some(y)) => x == y,
        (None, None) => true,
        _ => false,
    }
}

/// The row for the first `i` parties: cell `j - 1` answers for `j` seats.
spec fn row_ok(a: Seq<u64>, row: Seq<Option<usize>>, i: nat, target: nat) -> bool {
    &&& row.len() == target
    &&& forall|k: int| 0 <= k < target ==> agrees(#[trigger] row[k], fewest(a, i, (k + 1) as nat))
}

/// The table's answer for `j` seats among the first `i` parties.
fn lookup(table: &Vec<Vec<Option<usize>>>, Ghost(a): Ghost<Seq<u64>>, i: usize, j: usize) -> (c:
    Option<usize>)
    requires
        i < table.len(),
        j <= table[i as int].len(),
        row_ok(a, table[i as int]@, i as nat, table[i as int].len() as nat),
    ensures
        agrees(c, fewest(a, i as nat, j as nat)),
{
    if j == 0 {
        proof {
            lemma_fewest_zero(a, i as nat);
        }
        Some(0)
    } else {
        table[i][j - 1]
    }
}

/// Picks, out of `lengths`, the fewest parties whose seats add up to exactly
/// `target`, and marks them; where several choices are as small, a later
/// party is taken before an earlier one.  `None` means that no choice of
/// parties has exactly `target` seats.
pub fn solve_exact(lengths: &Vec<u64>, target: usize) -> (marks: Option<Vec<bool>>)
    ensures
        match marks {
            Some(m) => fewest(lengths@, lengths.len() as nat, target as nat) is Some && m@
                == choice(lengths@, lengths.len() as nat, target as nat),
            None => fewest(lengths@, lengths.len() as nat, target as nat) is None,
        },
        marks matches Some(m) ==> seat_sum(lengths@, m@, lengths.len() as nat) == target,
        marks matches Some(m) ==> forall|other: Seq<bool>|
            #[trigger] seat_sum(lengths@, other, lengths.len() as nat) == target ==> party_count(
                m@,
                lengths.len() as nat,
            ) <= party_count(other, lengths.len() as nat),
        marks is None ==> forall|other: Seq<bool>|
            #[trigger] seat_sum(lengths@, other, lengths.len() as nat) != target,
{
    let ghost a = lengths@;
    let n = lengths.len();
    let mut table: Vec<Vec<Option<usize>>> = Vec::new();
    let mut first: Vec<Option<usize>> = Vec::new();
    let mut j: usize = 0;
    while j < target
        invariant
            0 <= j <= target,
            first.len() == j,
            forall|k: int| 0 <= k < j ==> #[trigger] first[k] is None,
        decreases target - j,
    {
        first.push(None);
        j = j + 1;
    }
    table.push(first);
    let mut i: usize = 0;
    while i < n
        invariant
            a == lengths@,
            n == lengths.len(),
            0 <= i <= n,
            table.len() == i + 1,
            forall|r: int| 0 <= r <= i ==> row_ok(a, (#[trigger] table[r])@, r as nat, target as nat),
        decreases n - i,
    {
        let len = lengths[i];
        let mut row: Vec<Option<usize>> = Vec::new();
        let mut j: usize = 0;
        while j < target
            invariant
                a == lengths@,
                n == lengths.len(),
                0 <= i < n,
                len == lengths[i as int],
                table.len() == i + 1,
                row_ok(a, table[i as int]@, i as nat, target as nat),
                0 <= j <= target,
                row.len() == j,
                forall|k: int|
                    0 <= k < j ==> agrees(#[trigger] row[k], fewest(a, (i + 1) as nat, (k + 1) as nat)),
            decreases target - j,
        {
            let seats = j + 1;
            let without = table[i][j];
            assert(agrees(table[i as int]@[j as int], fewest(a, i as nat, (j + 1) as nat)));
            let cell = if len <= seats as u64 {
                let rest = seats - (len as usize);
                let with = lookup(&table, Ghost(a), i, rest);
                match with {
                    Some(t) => {
                        proof {
                            lemma_choice_sound(a, i as nat, rest as nat);
                        }
                        match without {
                            Some(s) => if t + 1 <= s {
                                Some(t + 1)
                            } else {
                                Some(s)
                            },
                            None => Some(t + 1),
                        }
                    },
                    None => without,
                }
            } else {
                without
            };
            row.push(cell);
            j = j + 1;
        }
        table.push(row);
        i = i + 1;
    }
    let top = lookup(&table, Ghost(a), n, target);
    if top.is_none() {
        proof {
            assert forall|other: Seq<bool>| #[trigger]
                seat_sum(a, other, n as nat) != target by {
                if seat_sum(a, other, n as nat) == target {
                    lemma_fewest_complete(a, other, n as nat, target as nat);
                }
            }
        }
        return None;
    }
    let mut marks: Vec<bool> = Vec::new();
    let mut k: usize = 0;
    while k < n
        invariant
            0 <= k <= n,
            marks.len() == k,
            forall|q: int| 0 <= q < k ==> !#[trigger] marks[q],
        decreases n - k,
    {
        marks.push(false);
        k = k + 1;
    }
    let mut i: usize = n;
    let mut j: usize = target;
    while i > 0
        invariant
            a == lengths@,
            n == lengths.len(),
            0 <= i <= n,
            0 <= j <= target,
            table.len() == n + 1,
            forall|r: int| 0 <= r <= n ==> row_ok(a, (#[trigger] table[r])@, r as nat, target as nat),
            fewest(a, i as nat, j as nat) is Some,
            marks.len() == n,
            forall|k: int| 0 <= k < i ==> !#[trigger] marks[k],
            forall|k: int| i <= k < n ==> #[trigger] marks[k] == picks(a, n as nat, target as nat, k),
            forall|k: int|
                0 <= k < i ==> #[trigger] picks(a, n as nat, target as nat, k) == picks(
                    a,
                    i as nat,
                    j as nat,
                    k,
                ),
        decreases i,
    {
        let len = lengths[i - 1];
        let without = lookup(&table, Ghost(a), i - 1, j);
        let mut take = false;
        if len <= j as u64 {
            let rest = j - (len as usize);
            let with = lookup(&table, Ghost(a), i - 1, rest);
            take = match with {
                Some(t) => {
                    proof {
                        lemma_choice_sound(a, (i - 1) as nat, rest as nat);
                    }
                    match without {
                        Some(s) => t + 1 <= s,
                        None => true,
                    }
                },
                None => false,
            };
        }
        proof {
            assert(take == takes(a, i as nat, j as nat));
            assert(picks(a, i as nat, j as nat, i - 1) == take) by {
                if picks(a, (i - 1) as nat, j as nat, i - 1) {
                    lemma_picks_below(a, (i - 1) as nat, j as nat, i - 1);
                }
                if len <= j && picks(a, (i - 1) as nat, (j - len) as nat, i - 1) {
                    lemma_picks_below(a, (i - 1) as nat, (j - len) as nat, i - 1);
                }
            }
        }
        if take {
            marks.set(i - 1, true);
            j = j - (len as usize);
        }
        i = i - 1;
    }
    proof {
        assert(marks@ =~= choice(a, n as nat, target as nat));
        lemma_choice_sound(a, n as nat, target as nat);
        assert forall|other: Seq<bool>| #[trigger]
            seat_sum(a, other, n as nat) == target implies party_count(marks@, n as nat)
            <= party_count(other, n as nat) by {
            lemma_fewest_complete(a, other, n as nat, target as nat);
        }
    }
    Some(marks)
}

} // verus!
