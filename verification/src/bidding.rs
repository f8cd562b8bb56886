//! Exact trick-count distributions and the bid that maximises the expected
//! score, computed with integer outcome weights.
//!
//! Every trick is resolved over all equally likely face outcomes of the dice in
//! play, so the probability of winning exactly `k` tricks is `weights[k]`
//! divided by `6^(n·h)` for `n` players and `h` tricks.

use vstd::prelude::*;

use crate::dice::DieType;
use crate::round::{hands_view, spec_base_score, score_for_outcome};
use crate::trick::{lemma_win_count_bound, pow6, win_count_spec, winning_outcome_counts, lemma_pow6_fits_u64};

verus! {

/// The dice of trick `t`: the player's `t`-th die leads, then every opponent's
/// representative die for that trick.
pub open spec fn trick_dice(hand: Seq<DieType>, opponents: Seq<Seq<DieType>>, t: int) -> Seq<DieType> {
    seq![hand[t]] + Seq::new(opponents.len(), |o: int| opponents[o][t % (opponents[o].len() as int)])
}

/// One step of the trick-count recurrence: with `w` winning and `l` losing
/// outcomes for the next trick, the weight of `k` wins is the weight of `k`
/// wins so far times `l` plus the weight of `k − 1` wins so far times `w`.
pub open spec fn step_weights(prev: Seq<int>, l: int, w: int) -> Seq<int> {
    Seq::new(
        prev.len() + 1,
        |k: int|
            (if k < prev.len() {
                prev[k] * l
            } else {
                0
            }) + (if k >= 1 {
                prev[k - 1] * w
            } else {
                0
            }),
    )
}

/// Outcome weights of winning exactly `k` of the first `t` tricks, each trick
/// played independently by `hand[t]` against the opponents' dice for that
/// trick (opponent `o` plays `opponents[o][t % opponents[o].len()]`).
pub open spec fn trick_weights(hand: Seq<DieType>, opponents: Seq<Seq<DieType>>, t: nat) -> Seq<int>
    decreases t,
{
    if t == 0 {
        seq![1int]
    } else {
        let w = win_count_spec(trick_dice(hand, opponents, t - 1), 0) as int;
        let l = pow6((opponents.len() + 1) as nat) - w;
        step_weights(trick_weights(hand, opponents, (t - 1) as nat), l, w)
    }
}

/// The sum of the first `m` entries.
pub open spec fn prefix_sum(s: Seq<int>, m: int) -> int
    decreases m,
{
    if m <= 0 {
        0
    } else {
        prefix_sum(s, m - 1) + s[m - 1]
    }
}

proof fn lemma_step_prefix_sum(prev: Seq<int>, l: int, w: int, m: int)
    requires
        1 <= m <= prev.len(),
    ensures
        prefix_sum(step_weights(prev, l, w), m) == l * prefix_sum(prev, m) + w * prefix_sum(
            prev,
            m - 1,
        ),
    decreases m,
{
    let next = step_weights(prev, l, w);
    if m > 1 {
        lemma_step_prefix_sum(prev, l, w, m - 1);
        let a = prefix_sum(prev, m - 1);
        let b = prefix_sum(prev, m - 2);
        assert(prefix_sum(prev, m) == a + prev[m - 1]);
        assert(prefix_sum(prev, m - 1) == b + prev[m - 2]);
        assert(prefix_sum(next, m) == prefix_sum(next, m - 1) + next[m - 1]);
        assert(next[m - 1] == prev[m - 1] * l + prev[m - 2] * w);
        assert(l * (a + prev[m - 1]) + w * (b + prev[m - 2]) == l * a + w * b + prev[m - 1] * l
            + prev[m - 2] * w) by (nonlinear_arith);
    } else {
        assert(next[0] == prev[0] * l);
        assert(prefix_sum(next, 0) == 0);
        assert(prefix_sum(prev, 0) == 0);
        assert(prefix_sum(next, 1) == next[0]);
        assert(prefix_sum(prev, 1) == prev[0]);
        assert(l * prev[0] == prev[0] * l) by (nonlinear_arith);
    }
}

/// One step of the recurrence multiplies the total weight by `l + w`.
pub proof fn lemma_step_total(prev: Seq<int>, l: int, w: int)
    requires
        prev.len() >= 1,
    ensures
        prefix_sum(step_weights(prev, l, w), prev.len() + 1int) == (l + w) * prefix_sum(
            prev,
            prev.len() as int,
        ),
{
    let n = prev.len() as int;
    let next = step_weights(prev, l, w);
    lemma_step_prefix_sum(prev, l, w, n);
    assert(next[n] == prev[n - 1] * w);
    let a = prefix_sum(prev, n);
    let b = prefix_sum(prev, n - 1);
    assert(a == b + prev[n - 1]);
    assert(l * a + w * b + prev[n - 1] * w == (l + w) * a) by (nonlinear_arith)
        requires
            a == b + prev[n - 1],
    ;
}

/// `6^(a+b) = 6^a · 6^b`.
pub proof fn lemma_pow6_add(a: nat, b: nat)
    ensures
        pow6(a + b) == pow6(a) * pow6(b),
    decreases b,
{
    if b > 0 {
        let b1 = (b - 1) as nat;
        lemma_pow6_add(a, b1);
        assert(pow6(a + b) == 6 * pow6(a + b1));
        assert(pow6(b) == 6 * pow6(b1));
        let x = pow6(a);
        let y = pow6(b1);
        assert(6 * (x * y) == x * (6 * y)) by (nonlinear_arith);
    } else {
        assert(pow6(0) == 1);
        assert(a + b == a);
    }
}

/// Entries of a sequence of nonnegative numbers are bounded by its total.
proof fn lemma_entries_below_total(s: Seq<int>, m: int, j: int)
    requires
        0 <= m <= s.len(),
        forall|k: int| 0 <= k < s.len() ==> s[k] >= 0,
    ensures
        0 <= prefix_sum(s, m),
        0 <= j < m ==> s[j] <= prefix_sum(s, m),
        1 <= j < m ==> s[j] + s[j - 1] <= prefix_sum(s, m),
    decreases m,
{
    if m > 0 {
        lemma_entries_below_total(s, m - 1, j);
        if j == m - 1 && j >= 1 {
            lemma_entries_below_total(s, m - 1, j - 1);
        }
    }
}

/// The trick-count weights: `t + 1` nonnegative entries adding up to
/// `6^(n·t)`, the number of face outcomes of `t` tricks of `n` dice each.
/// That is, the trick-count distribution sums to one.
pub proof fn lemma_trick_weights_total(hand: Seq<DieType>, opponents: Seq<Seq<DieType>>, t: nat)
    requires
        t <= hand.len(),
        forall|o: int| 0 <= o < opponents.len() ==> (#[trigger] opponents[o]).len() >= 1,
    ensures
        trick_weights(hand, opponents, t).len() == t + 1,
        forall|k: int| 0 <= k <= t ==> #[trigger] trick_weights(hand, opponents, t)[k] >= 0,
        prefix_sum(trick_weights(hand, opponents, t), t + 1int) == pow6(
            ((opponents.len() + 1) * t) as nat,
        ),
    decreases t,
{
    let n = (opponents.len() + 1) as nat;
    if t == 0 {
        assert(seq![1int][0] == 1);
        assert(prefix_sum(seq![1int], 1) == prefix_sum(seq![1int], 0) + seq![1int][0]);
        assert(pow6(0) == 1);
    } else {
        let prev = trick_weights(hand, opponents, (t - 1) as nat);
        lemma_trick_weights_total(hand, opponents, (t - 1) as nat);
        let dice = trick_dice(hand, opponents, t - 1);
        assert(dice.len() == n);
        let w = win_count_spec(dice, 0) as int;
        lemma_win_count_bound(dice, 0);
        let l = pow6(n) - w;
        lemma_step_total(prev, l, w);
        let next = trick_weights(hand, opponents, t);
        assert forall|k: int| 0 <= k <= t implies #[trigger] next[k] >= 0 by {
            assert(0 <= l);
            if k < t {
                assert(prev[k] * l >= 0) by (nonlinear_arith)
                    requires
                        prev[k] >= 0,
                        l >= 0,
                ;
            }
            if k >= 1 {
                assert(prev[k - 1] * w >= 0) by (nonlinear_arith)
                    requires
                        prev[k - 1] >= 0,
                        w >= 0,
                ;
            }
        }
        lemma_pow6_add((n * (t - 1)) as nat, n);
        assert(n * (t - 1) + n == n * t) by (nonlinear_arith);
        assert((l + w) * pow6((n * (t - 1)) as nat) == pow6((n * (t - 1)) as nat) * pow6(n))
            by (nonlinear_arith)
            requires
                l + w == pow6(n),
        ;
    }
}

/// Six to the power `n`, for up to twenty dice.
fn six_pow(n: usize) -> (r: u64)
    requires
        n <= 20,
    ensures
        r == pow6(n as nat),
{
    let mut r: u64 = 1;
    let mut i: usize = 0;
    while i < n
        invariant
            0 <= i <= n <= 20,
            r == pow6(i as nat),
        decreases n - i,
    {
        proof {
            lemma_pow6_fits_u64((i + 1) as nat);
        }
        r = r * 6;
        i = i + 1;
    }
    r
}

/// The largest number of dice over all tricks for which outcome weights fit a `u128`.
pub proof fn lemma_pow6_49_fits_u128(k: nat)
    requires
        k <= 49,
    ensures
        pow6(k) <= pow6(49),
        pow6(49) < 0x1_0000_0000_0000_0000_0000_0000_0000_0000,
{
    reveal_with_fuel(pow6, 10);
    lemma_pow6_fits_u64(20);
    assert(pow6(9) == 10077696);
    lemma_pow6_add(20, 20);
    lemma_pow6_add(40, 9);
    assert(pow6(49) == 3656158440062976 * 3656158440062976 * 10077696) by (nonlinear_arith)
        requires
            pow6(49) == pow6(40) * pow6(9),
            pow6(40) == pow6(20) * pow6(20),
            pow6(20) == 3656158440062976,
            pow6(9) == 10077696,
    ;
    crate::trick::lemma_pow6_monotone(k, 49);
}

/// Outcome weights of the number of tricks a player wins: entry `k` counts the
/// face outcomes (out of `6^(n·h)` for `n` players and `h = hand.len()`
/// tricks) in which the player wins exactly `k` tricks, each trick being
/// played independently by `hand[t]`, leading, against one representative die
/// per opponent (`opponent_dice[o][t % opponent_dice[o].len()]`).
pub fn trick_count_weights(hand: &[DieType], opponent_dice: &[Vec<DieType>]) -> (r: Vec<u128>)
    requires
        opponent_dice.len() + 1 <= 20,
        (opponent_dice.len() + 1) * hand.len() <= 49,
        forall|o: int| 0 <= o < opponent_dice.len() ==> (#[trigger] opponent_dice[o]).len() >= 1,
    ensures
        r.len() == hand.len() + 1,
        forall|k: int|
            0 <= k <= hand.len() ==> #[trigger] r[k] == trick_weights(
                hand@,
                hands_view(opponent_dice@),
                hand.len() as nat,
            )[k],
        forall|k: int|
            0 <= k <= hand.len() ==> #[trigger] r[k] <= pow6(
                ((opponent_dice.len() + 1) * hand.len()) as nat,
            ),
{
    let ghost opps = hands_view(opponent_dice@);
    let n = opponent_dice.len() + 1;
    let six_n = six_pow(n) as u128;
    let mut dp: Vec<u128> = Vec::new();
    dp.push(1u128);
    let mut t: usize = 0;
    proof {
        assert(hand.len() <= 49) by (nonlinear_arith)
            requires
                n * hand.len() <= 49,
                n >= 1,
        ;
        assert forall|o: int| 0 <= o < opps.len() implies (#[trigger] opps[o]).len() >= 1 by {
            assert(opps[o] == opponent_dice@[o]@);
        }
    }
    while t < hand.len()
        invariant
            0 <= t <= hand.len() <= 49,
            n == opponent_dice.len() + 1 <= 20,
            n * hand.len() <= 49,
            six_n == pow6(n as nat),
            opps == hands_view(opponent_dice@),
            opps.len() == opponent_dice.len(),
            forall|o: int| 0 <= o < opps.len() ==> (#[trigger] opps[o]).len() >= 1,
            forall|o: int| 0 <= o < opponent_dice.len() ==> (#[trigger] opponent_dice[o]).len() >= 1,
            dp.len() == t + 1,
            forall|k: int|
                0 <= k <= t ==> #[trigger] dp[k] == trick_weights(hand@, opps, t as nat)[k],
        decreases hand.len() - t,
    {
        // The dice of this trick: the player's die leads, then one die per opponent.
        let mut all_dice: Vec<DieType> = Vec::new();
        all_dice.push(hand[t]);
        let mut o: usize = 0;
        while o < opponent_dice.len()
            invariant
                0 <= o <= opponent_dice.len(),
                t < hand.len(),
                opps == hands_view(opponent_dice@),
                forall|oo: int|
                    0 <= oo < opponent_dice.len() ==> (#[trigger] opponent_dice[oo]).len() >= 1,
                all_dice@ == trick_dice(hand@, opps, t as int).subrange(0, o + 1),
            decreases opponent_dice.len() - o,
        {
            let opp = &opponent_dice[o];
            all_dice.push(opp[t % opp.len()]);
            o = o + 1;
            proof {
                assert(opps[o - 1] == opponent_dice@[o - 1]@);
                assert(all_dice@ =~= trick_dice(hand@, opps, t as int).subrange(0, o + 1));
            }
        }
        proof {
            assert(all_dice@ =~= trick_dice(hand@, opps, t as int));
        }
        let counts = winning_outcome_counts(all_dice.as_slice());
        let w = counts[0] as u128;
        proof {
            lemma_win_count_bound(all_dice@, 0);
        }
        let l = six_n - w;
        let ghost prev = trick_weights(hand@, opps, t as nat);
        let ghost total = pow6((n * t) as nat);
        proof {
            lemma_trick_weights_total(hand@, opps, t as nat);
            lemma_pow6_add((n * t) as nat, n as nat);
            assert(n * t + n == n * (t + 1)) by (nonlinear_arith);
            assert(n * (t + 1) <= 49) by (nonlinear_arith)
                requires
                    t + 1 <= hand.len(),
                    n * hand.len() <= 49,
            ;
            lemma_pow6_49_fits_u128((n * (t + 1)) as nat);
        }
        let mut next: Vec<u128> = Vec::new();
        let mut j: usize = 0;
        while j < t + 2
            invariant
                0 <= j <= t + 2,
                t < hand.len() <= 49,
                dp.len() == t + 1,
                prev.len() == t + 1,
                forall|k: int| 0 <= k <= t ==> #[trigger] dp[k] == prev[k],
                forall|k: int| 0 <= k <= t ==> #[trigger] prev[k] >= 0,
                prefix_sum(prev, t + 1) == total,
                total * pow6(n as nat) == pow6((n * (t + 1)) as nat),
                pow6((n * (t + 1)) as nat) < 0x1_0000_0000_0000_0000_0000_0000_0000_0000,
                six_n == pow6(n as nat),
                w + l == six_n,
                next.len() == j,
                forall|k: int|
                    0 <= k < j ==> #[trigger] next[k] == step_weights(prev, l as int, w as int)[k],
            decreases t + 2 - j,
        {
            let ghost a: int = if j <= t {
                prev[j as int]
            } else {
                0
            };
            let ghost b: int = if j >= 1 {
                prev[j - 1]
            } else {
                0
            };
            proof {
                lemma_entries_below_total(prev, t + 1, j as int);
                if j >= 1 {
                    lemma_entries_below_total(prev, t + 1, j - 1);
                }
                assert(0 <= a && 0 <= b && a + b <= total);
                assert(a * l + b * w <= total * six_n) by (nonlinear_arith)
                    requires
                        0 <= a,
                        0 <= b,
                        a + b <= total,
                        0 <= l,
                        0 <= w,
                        l + w == six_n,
                ;
                assert(a * l <= a * l + b * w) by (nonlinear_arith)
                    requires
                        0 <= a,
                        0 <= b,
                        0 <= l,
                        0 <= w,
                ;
            }
            let stay: u128 = if j <= t {
                dp[j] * l
            } else {
                0
            };
            let up: u128 = if j >= 1 {
                dp[j - 1] * w
            } else {
                0
            };
            next.push(stay + up);
            j = j + 1;
        }
        dp = next;
        t = t + 1;
    }
    proof {
        lemma_trick_weights_total(hand@, opps, hand.len() as nat);
        assert forall|k: int| 0 <= k <= hand.len() implies #[trigger] dp[k] <= pow6(
            ((opponent_dice.len() + 1) * hand.len()) as nat,
        ) by {
            lemma_entries_below_total(
                trick_weights(hand@, opps, hand.len() as nat),
                hand.len() + 1,
                k,
            );
        }
    }
    dp
}

/// Weights of games of at most 36 dice per trick sequence stay below `weight_limit()`.
pub proof fn lemma_pow6_36_below_weight_limit(k: nat)
    requires
        k <= 36,
    ensures
        pow6(k) <= weight_limit(),
{
    reveal_with_fuel(pow6, 17);
    lemma_pow6_fits_u64(20);
    assert(pow6(16) == 2821109907456);
    lemma_pow6_add(20, 16);
    assert(pow6(36) == 3656158440062976 * 2821109907456) by (nonlinear_arith)
        requires
            pow6(36) == pow6(20) * pow6(16),
            pow6(20) == 3656158440062976,
            pow6(16) == 2821109907456,
    ;
    crate::trick::lemma_pow6_monotone(k, 36);
}

// ── Expected score of a bid ─────────────────────────────────────────────────

/// `Σ_{k < m} weights[k] · score(bid, k, hand_size)`: the expected score of
/// `bid`, scaled by the total weight.
pub open spec fn weighted_score(weights: Seq<u128>, bid: int, hand_size: int, m: int) -> int
    decreases m,
{
    if m <= 0 {
        0
    } else {
        weighted_score(weights, bid, hand_size, m - 1) + weights[m - 1] * spec_base_score(
            bid,
            m - 1,
            hand_size,
        )
    }
}

/// Scaled expected score of `bid` for trick-count weights `weights`
/// (index = tricks won; `hand_size = weights.len() − 1`).
pub open spec fn expected_score_weighted(weights: Seq<u128>, bid: int) -> int {
    weighted_score(weights, bid, weights.len() - 1, weights.len() as int)
}

/// Upper bound on a single trick-count weight accepted by the bid search.
pub open spec fn weight_limit() -> int {
    0x10_0000_0000_0000_0000_0000_0000
}

/// Computes `expected_score_weighted(weights, bid)`: the expected score of
/// placing `bid` times the total weight of `weights`.
///
/// Scoring rules:
/// - Bid > 0, exact match: +20 × b
/// - Bid > 0, miss by d: −10 × d
/// - Bid = 0, succeed (0 tricks): +10 × hand_size
/// - Bid = 0, fail: −10 × hand_size
pub fn expected_score_for_bid_weighted(bid: usize, weights: &[u128]) -> (r: i128)
    requires
        1 <= weights.len() <= 64,
        bid < weights.len(),
        forall|k: int| 0 <= k < weights.len() ==> #[trigger] weights[k] <= weight_limit(),
    ensures
        r == expected_score_weighted(weights@, bid as int),
{
    let hand_size = weights.len() - 1;
    let mut total: i128 = 0;
    let mut k: usize = 0;
    while k < weights.len()
        invariant
            0 <= k <= weights.len() <= 64,
            hand_size == weights.len() - 1,
            bid < weights.len(),
            forall|i: int| 0 <= i < weights.len() ==> #[trigger] weights[i] <= weight_limit(),
            total == weighted_score(weights@, bid as int, hand_size as int, k as int),
            -k * weight_limit() * 1280 <= total <= k * weight_limit() * 1280,
        decreases weights.len() - k,
    {
        let score = score_for_outcome(bid, k, hand_size);
        let ghost sc = spec_base_score(bid as int, k as int, hand_size as int);
        let wk = weights[k];
        proof {
            assert(-1280 <= sc <= 1280);
            assert(-weight_limit() * 1280 <= wk * sc <= weight_limit() * 1280) by (nonlinear_arith)
                requires
                    0 <= wk <= weight_limit(),
                    -1280 <= sc <= 1280,
            ;
            assert((k + 1) * weight_limit() * 1280 == k * weight_limit() * 1280 + weight_limit()
                * 1280) by (nonlinear_arith);
            assert(-(k + 1) * weight_limit() * 1280 == -k * weight_limit() * 1280 - weight_limit()
                * 1280) by (nonlinear_arith);
        }
        total = total + (wk as i128) * (score as i128);
        k = k + 1;
    }
    total
}

/// Returns the bid (0..=hand_size) that maximises expected score for the
/// trick-count weights `weights` (index = tricks won, `hand_size =
/// weights.len() − 1`); among equally good bids the largest is returned.
pub fn optimal_bid_for_weights(weights: &[u128]) -> (r: usize)
    requires
        1 <= weights.len() <= 64,
        forall|k: int| 0 <= k < weights.len() ==> #[trigger] weights[k] <= weight_limit(),
    ensures
        r < weights.len(),
        forall|b: int|
            0 <= b < weights.len() ==> expected_score_weighted(weights@, b)
                <= expected_score_weighted(weights@, r as int),
        forall|b: int|
            r < b < weights.len() ==> expected_score_weighted(weights@, b)
                < expected_score_weighted(weights@, r as int),
{
    let mut best: usize = 0;
    let mut best_score = expected_score_for_bid_weighted(0, weights);
    let mut b: usize = 1;
    while b < weights.len()
        invariant
            1 <= b <= weights.len() <= 64,
            forall|k: int| 0 <= k < weights.len() ==> #[trigger] weights[k] <= weight_limit(),
            best < b,
            best_score == expected_score_weighted(weights@, best as int),
            forall|c: int|
                0 <= c < b ==> expected_score_weighted(weights@, c) <= best_score,
            forall|c: int|
                best < c < b ==> expected_score_weighted(weights@, c) < best_score,
        decreases weights.len() - b,
    {
        let score = expected_score_for_bid_weighted(b, weights);
        if score >= best_score {
            best = b;
            best_score = score;
        }
        b = b + 1;
    }
    best
}


/// The trick-count weights after `t` tricks cover the counts `0..=t`.
proof fn lemma_trick_weights_len(hand: Seq<DieType>, opponents: Seq<Seq<DieType>>, t: nat)
    ensures
        trick_weights(hand, opponents, t).len() == t + 1,
    decreases t,
{
    if t > 0 {
        lemma_trick_weights_len(hand, opponents, (t - 1) as nat);
    }
}

/// Each trick is played by the player's `t`-th die against every opponent's
/// die for that trick, opponent `o` playing `opponents[o][t % opponents[o].len()]`:
/// for any dice `d` seated that way, the weight of winning all `t + 1` tricks
/// is the weight of winning the first `t` times the number of face outcomes
/// in which `d[0]` wins against the rest of `d`; the weight of winning `k`
/// tricks is that of `k` wins so far times the losing outcomes of the next
/// trick plus that of `k − 1` wins times its winning outcomes.
pub proof fn lemma_trick_weights_use_the_tricks_dice(
    hand: Seq<DieType>,
    opponents: Seq<Seq<DieType>>,
    t: nat,
    d: Seq<DieType>,
)
    requires
        t < hand.len(),
        forall|o: int| 0 <= o < opponents.len() ==> (#[trigger] opponents[o]).len() >= 1,
        d.len() == opponents.len() + 1,
        d[0] == hand[t as int],
        forall|o: int|
            0 <= o < opponents.len() ==> #[trigger] d[o + 1] == opponents[o][(t as int) % (
            opponents[o].len() as int)],
    ensures
        trick_weights(hand, opponents, (t + 1) as nat).len() == t + 2,
        trick_weights(hand, opponents, (t + 1) as nat)[(t + 1) as int] == trick_weights(
            hand,
            opponents,
            t,
        )[t as int] * win_count_spec(d, 0),
        forall|k: int|
            0 <= k <= t + 1 ==> #[trigger] trick_weights(hand, opponents, (t + 1) as nat)[k] == (if k
                <= t {
                trick_weights(hand, opponents, t)[k] * (pow6(d.len()) - win_count_spec(d, 0))
            } else {
                0
            }) + (if k >= 1 {
                trick_weights(hand, opponents, t)[k - 1] * win_count_spec(d, 0)
            } else {
                0
            }),
{
    lemma_trick_weights_len(hand, opponents, t);
    lemma_trick_weights_len(hand, opponents, (t + 1) as nat);
    let td = trick_dice(hand, opponents, t as int);
    assert forall|i: int| 0 <= i < d.len() implies td[i] == d[i] by {
        if i > 0 {
            assert(d[(i - 1) + 1] == opponents[i - 1][(t as int) % (opponents[i - 1].len() as int)]);
        }
    }
    assert(td =~= d);
}

} // verus!
