//! Scoring arithmetic for a running match.
//!
//! Scores are kept in thousandths of a point so that the per-tick gain
//! `20 / (d + 2)` (d the distance from the origin in metres) can be computed
//! exactly in integers: with the distance in millimetres the gain in
//! milli-points is `20_000_000 / (distance_mm + 2000)`.

use vstd::prelude::*;

verus! {

/// Milli-points gained in one tick by a non-seeker standing `distance_mm`
/// millimetres from the game origin.
pub open spec fn gain_spec(distance_mm: u64) -> u64 {
    (20_000_000int / (distance_mm as int + 2000)) as u64
}

/// The per-tick gain, exactly `gain_spec`; it never exceeds the gain at
/// distance zero, ten points.
pub fn tick_gain(distance_mm: u64) -> (gain: u64)
    ensures
        gain == gain_spec(distance_mm),
        gain <= 10_000,
{
    if distance_mm >= 20_000_000 {
        proof {
            vstd::arithmetic::div_mod::lemma_basic_div(20_000_000int, distance_mm as int + 2000);
        }
        0
    } else {
        proof {
            vstd::arithmetic::div_mod::lemma_div_is_ordered_by_denominator(
                20_000_000int,
                2000int,
                distance_mm as int + 2000,
            );
        }
        20_000_000u64 / (distance_mm + 2000)
    }
}

/// `a + b`, capped at the largest representable score.
pub open spec fn sat_add_spec(a: u64, b: u64) -> u64 {
    if a + b <= u64::MAX {
        (a + b) as u64
    } else {
        u64::MAX
    }
}

pub fn sat_add(a: u64, b: u64) -> (r: u64)
    ensures
        r == sat_add_spec(a, b),
        r >= a,
{
    if a <= u64::MAX - b {
        a + b
    } else {
        u64::MAX
    }
}

/// `w`, with score `m` at index `i`, wins over `scores`: `m` is the maximum
/// and no earlier entry reaches it, so ties break toward the first entry.
pub open spec fn winner_at(scores: Seq<(i64, u64)>, w: i64, m: u64, i: int) -> bool {
    &&& 0 <= i < scores.len()
    &&& scores[i] == (w, m)
    &&& forall|j: int| 0 <= j < scores.len() ==> #[trigger] scores[j].1 <= m
    &&& forall|j: int| 0 <= j < i ==> #[trigger] scores[j].1 < m
}

pub open spec fn is_winner(scores: Seq<(i64, u64)>, w: i64, m: u64) -> bool {
    exists|i: int| winner_at(scores, w, m, i)
}

/// The key with the greatest score, ties broken by storage order; `None`
/// exactly when the table is empty.
pub fn find_winner(scores: &Vec<(i64, u64)>) -> (r: Option<(i64, u64)>)
    ensures
        match r {
            Some(wm) => is_winner(scores@, wm.0, wm.1),
            None => scores@.len() == 0,
        },
{
    if scores.len() == 0 {
        return None;
    }
    let mut best: usize = 0;
    let mut i: usize = 1;
    while i < scores.len()
        invariant
            0 <= best < i <= scores@.len(),
            forall|j: int| 0 <= j < i ==> #[trigger] scores@[j].1 <= scores@[best as int].1,
            forall|j: int| 0 <= j < best ==> #[trigger] scores@[j].1 < scores@[best as int].1,
        decreases scores@.len() - i,
    {
        if scores[i].1 > scores[best].1 {
            best = i;
        }
        i = i + 1;
    }
    let w = scores[best];
    proof {
        assert(winner_at(scores@, w.0, w.1, best as int));
    }
    Some(w)
}

} // verus!
