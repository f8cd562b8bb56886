//! The rules behind the calculator's controls: the player count and seat a
//! raw setting stands for, how many dice a hand may hold, the die-count
//! spinners, and which computation a request gets.

use vstd::prelude::*;

use crate::dice::DieType;
use crate::round::{round_count, spec_round_count};

verus! {

/// The player count a raw setting stands for: below 3 (a negative setting
/// counting as a huge one) it is 3, above 6 it is 6.
pub open spec fn spec_clamp_player_count(raw: int) -> int {
    if raw < 0 || raw > 6 {
        6
    } else if raw < 3 {
        3
    } else {
        raw
    }
}

/// The player count a raw setting stands for, between 3 and 6.
pub fn clamp_player_count(raw: i32) -> (r: usize)
    ensures
        r == spec_clamp_player_count(raw as int),
        3 <= r <= 6,
{
    if raw < 0 || raw > 6 {
        6
    } else if raw < 3 {
        3
    } else {
        raw as usize
    }
}

/// The seat a raw play-order setting stands for: at most the last seat, a
/// negative setting counting as a huge one.
pub fn clamp_play_order(raw: i32, player_count: usize) -> (r: usize)
    requires
        player_count >= 1,
    ensures
        r == if raw < 0 || raw >= player_count {
            player_count - 1
        } else {
            raw as int
        },
        r < player_count,
{
    if raw < 0 || raw as usize >= player_count {
        player_count - 1
    } else {
        raw as usize
    }
}

/// The most dice a hand may hold at the raw player-count setting: the number
/// of rounds played at that many players.
pub fn max_hand_size(player_count_raw: i32) -> (r: usize)
    ensures
        r == spec_round_count(spec_clamp_player_count(player_count_raw as int)),
        6 <= r <= 8,
{
    round_count(clamp_player_count(player_count_raw))
}

/// The sum of a list of die counts.
pub open spec fn counts_total(c: Seq<i32>) -> int
    decreases c.len(),
{
    if c.len() == 0 {
        0
    } else {
        counts_total(c.drop_last()) + c.last()
    }
}

/// A die count as the spinners allow it to fall: never below zero by removal.
pub open spec fn floor_count(x: i32) -> int {
    if x < 0 {
        x as int
    } else {
        0
    }
}

/// Every running total of the counts, first to last, fits an `i32`.
pub open spec fn running_totals_fit(c: Seq<i32>) -> bool {
    forall|k: int| 0 <= k <= c.len() ==> i32::MIN <= #[trigger] counts_total(c.subrange(0, k)) <= i32::MAX
}

proof fn lemma_counts_total_update(c: Seq<i32>, i: int, v: i32)
    requires
        0 <= i < c.len(),
    ensures
        counts_total(c.update(i, v)) == counts_total(c) - c[i] + v,
    decreases c.len(),
{
    if i < c.len() - 1 {
        lemma_counts_total_update(c.drop_last(), i, v);
        assert(c.update(i, v).drop_last() =~= c.drop_last().update(i, v));
    } else {
        assert(c.update(i, v).drop_last() =~= c.drop_last());
    }
}

/// The die counts of a hand cut down to at most `max_hand_size` dice:
/// nothing changes when the hand is small enough; otherwise dice are taken
/// away from the last die types first (in the order of `DieType::ALL`), no
/// count being taken below zero, until the hand holds `max_hand_size` dice or
/// no die is left to take.
pub fn clamp_hand_counts(counts: &Vec<i32>, max_hand_size: i32) -> (r: Vec<i32>)
    requires
        counts.len() <= 7,
        running_totals_fit(counts@),
    ensures
        r.len() == counts.len(),
        counts_total(counts@) <= max_hand_size ==> r@ == counts@,
        counts_total(counts@) > max_hand_size ==> {
            &&& forall|i: int|
                0 <= i < r.len() ==> #[trigger] r[i] <= counts[i] && (r[i] < counts[i] ==> r[i]
                    >= 0)
            &&& forall|i: int, j: int|
                0 <= i < j < r.len() && #[trigger] r[i] < counts[i] ==> #[trigger] r[j]
                    == floor_count(counts[j])
            &&& counts_total(r@) == max_hand_size || (counts_total(r@) > max_hand_size && forall|
                i: int,
            |
                0 <= i < r.len() ==> #[trigger] r[i] == floor_count(counts[i]))
        },
{
    let mut r = counts.clone();
    proof {
        assert(r@ =~= counts@);
    }
    let n = counts.len();
    let mut total: i32 = 0;
    let mut k: usize = 0;
    while k < n
        invariant
            n == counts.len() <= 7,
            running_totals_fit(counts@),
            0 <= k <= n,
            total == counts_total(counts@.subrange(0, k as int)),
        decreases n - k,
    {
        proof {
            assert(counts@.subrange(0, k + 1).drop_last() =~= counts@.subrange(0, k as int));
            assert(i32::MIN <= counts_total(counts@.subrange(0, k + 1)) <= i32::MAX);
        }
        total = total + counts[k];
        k = k + 1;
    }
    assert(counts@.subrange(0, n as int) =~= counts@);
    if total <= max_hand_size {
        return r;
    }
    let mut pos = n;
    while pos > 0
        invariant_except_break
            total > max_hand_size,
        invariant
            n == counts.len() == r.len() <= 7,
            0 <= pos <= n,
            counts_total(counts@) > max_hand_size,
            total == counts_total(r@),
            total >= max_hand_size,
            forall|i: int| 0 <= i < pos ==> #[trigger] r[i] == counts[i],
            forall|i: int| pos <= i < n ==> #[trigger] r[i] <= counts[i],
            forall|i: int| pos <= i < n && #[trigger] r[i] < counts[i] ==> r[i] >= 0,
            total > max_hand_size ==> forall|i: int|
                pos <= i < n ==> #[trigger] r[i] == floor_count(counts[i]),
            forall|i: int, j: int|
                pos <= i < j < n && #[trigger] r[i] < counts[i] ==> #[trigger] r[j]
                    == floor_count(counts[j]),
        ensures
            total == counts_total(r@),
            total == max_hand_size || (total > max_hand_size && forall|i: int|
                0 <= i < n ==> #[trigger] r[i] == floor_count(counts[i])),
            forall|i: int| 0 <= i < n ==> #[trigger] r[i] <= counts[i],
            forall|i: int| 0 <= i < n && #[trigger] r[i] < counts[i] ==> r[i] >= 0,
            forall|i: int, j: int|
                0 <= i < j < n && #[trigger] r[i] < counts[i] ==> #[trigger] r[j]
                    == floor_count(counts[j]),
        decreases pos,
    {
        pos = pos - 1;
        let mut count = r[pos];
        let ghost before = r@;
        while total > max_hand_size && count > 0
            invariant
                count <= counts[pos as int],
                count >= 0 || count == counts[pos as int],
                total - count == counts_total(before) - counts[pos as int],
                total >= max_hand_size,
            decreases count,
        {
            count = count - 1;
            total = total - 1;
        }
        r.set(pos, count);
        proof {
            lemma_counts_total_update(before, pos as int, count);
            if count < counts[pos as int] {
                assert(total == max_hand_size || count == 0);
            }
        }
        if total <= max_hand_size {
            break;
        }
    }
    proof {
        if pos == 0 && total > max_hand_size {
            assert forall|i: int| 0 <= i < n implies #[trigger] r[i] == floor_count(counts[i]) by {
            }
        }
    }
    r
}

/// The new count of a die type after its spinner's increase button: one
/// more, but not beyond the bag's `bag_max`, and only while the hand holds
/// fewer than `max_hand_size` dice.
pub fn spinner_increment(cur: i32, hand_total: i32, max_hand_size: i32, bag_max: i32) -> (r: i32)
    requires
        cur < i32::MAX,
    ensures
        r == if hand_total < max_hand_size {
            if cur + 1 < bag_max {
                cur + 1
            } else {
                bag_max as int
            }
        } else {
            cur as int
        },
{
    if hand_total < max_hand_size {
        let next = cur + 1;
        if next < bag_max {
            next
        } else {
            bag_max
        }
    } else {
        cur
    }
}

/// The new count of a die type after its spinner's decrease button: one
/// less, but not below zero.
pub fn spinner_decrement(cur: i32) -> (r: i32)
    requires
        cur > i32::MIN,
    ensures
        r == if cur - 1 > 0 {
            cur - 1
        } else {
            0
        },
{
    let next = cur - 1;
    if next > 0 {
        next
    } else {
        0
    }
}

/// How a trick-count distribution is computed.
#[derive(Debug, Clone, Copy, PartialEq, Eq, Structural)]
pub enum CalcMethod {
    /// One die: the exact single-trick distribution.
    Exact,
    /// Sampled rounds.
    MonteCarlo,
    /// The bag-aware seat recurrence.
    Analytical,
}

/// The computation a hand of `hand_size` dice gets with the method setting
/// `method`: a single die is computed exactly; otherwise "monte-carlo"
/// samples rounds and any other setting uses the recurrence.
pub fn choose_calc_method(hand_size: usize, method: &str) -> (r: CalcMethod)
    ensures
        r == if hand_size == 1 {
            CalcMethod::Exact
        } else if method@ == "monte-carlo"@ {
            CalcMethod::MonteCarlo
        } else {
            CalcMethod::Analytical
        },
{
    if hand_size == 1 {
        CalcMethod::Exact
    } else if crate::simulation::same_text(method, "monte-carlo") {
        CalcMethod::MonteCarlo
    } else {
        CalcMethod::Analytical
    }
}

/// The method setting kept by the controls: "monte-carlo" stays, anything
/// else becomes "dp".
pub fn normalized_calc_method(method: &str) -> (r: &'static str)
    ensures
        r@ == if method@ == "monte-carlo"@ {
            "monte-carlo"@
        } else {
            "dp"@
        },
{
    if crate::simulation::same_text(method, "monte-carlo") {
        "monte-carlo"
    } else {
        "dp"
    }
}

/// The number of sampled rounds for a raw setting: at least 1000.
pub fn replications(raw: usize) -> (r: usize)
    ensures
        r == if raw < 1000 {
            1000
        } else {
            raw as int
        },
{
    if raw < 1000 {
        1000
    } else {
        raw
    }
}

/// Whether a hand holds a Mermaid or a Minotaur die, whose special captures
/// are worth estimating.
pub fn needs_special_capture_stats(hand: &[DieType]) -> (r: bool)
    ensures
        r == exists|i: int|
            0 <= i < hand.len() && (#[trigger] hand[i] == DieType::Mermaid || hand[i]
                == DieType::Minotaur),
{
    let mut i: usize = 0;
    while i < hand.len()
        invariant
            0 <= i <= hand.len(),
            forall|j: int|
                0 <= j < i ==> #[trigger] hand[j] != DieType::Mermaid && hand[j] != DieType::Minotaur,
        decreases hand.len() - i,
    {
        if hand[i] == DieType::Mermaid || hand[i] == DieType::Minotaur {
            return true;
        }
        i = i + 1;
    }
    false
}

} // verus!
