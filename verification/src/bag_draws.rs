//! Exact single-trick winner weights when the opponents' dice are drawn from
//! the bag without replacement.
//!
//! Every ordered draw of the opponents' dice is weighted by the product of
//! the counts its dice were drawn from; every face outcome of the dice at the
//! table counts once. A seat's weight, divided by the sum of all seats'
//! weights, is its probability of winning the trick.

use vstd::prelude::*;

use crate::dice::{DieType, bag_prefix_total, die_at, lemma_bag_prefix_totals};
use crate::round::{
    count_types_below, lemma_len_is_sum_of_type_counts, remaining_counts_after_removing_hand,
    within_bag,
};
use crate::trick::{
    lemma_pow6_monotone, lemma_win_count_bound, lemma_win_counts_cover_all_outcomes, pow6,
    seats_total, wins_from, win_count_spec, winning_outcome_counts,
};

verus! {

// ── Ordered draws from the bag ───────────────────────────────────────────────

/// `total (total - 1) ... (total - k + 1)`: the number of ordered draws of
/// `k` dice out of `total`.
pub open spec fn falling(total: int, k: nat) -> int
    decreases k,
{
    if k == 0 {
        1
    } else {
        total * falling(total - 1, (k - 1) as nat)
    }
}

/// The sum of the first `k` counts.
pub open spec fn prefix_count(counts: Seq<usize>, k: int) -> int
    decreases k,
{
    if k <= 0 {
        0
    } else {
        prefix_count(counts, k - 1) + counts[k - 1]
    }
}

/// The counts after one die of type `t` was drawn.
pub open spec fn take_one(counts: Seq<usize>, t: int) -> Seq<usize> {
    counts.update(t, (counts[t] - 1) as usize)
}

/// The sum, over every ordered draw of `slots` more dice from a bag holding
/// `counts[t]` dice of type `DieType::ALL[t]`, of the draw's weight (the
/// product of the counts its dice were drawn from) times `leaf` of all the
/// dice drawn so far.
pub open spec fn ordered_draw_sum(
    counts: Seq<usize>,
    slots: nat,
    drawn: Seq<DieType>,
    leaf: spec_fn(Seq<DieType>) -> int,
) -> int
    decreases slots, 8int,
{
    if slots == 0 {
        leaf(drawn)
    } else {
        draw_type_sum(counts, slots, drawn, leaf, 7)
    }
}

/// The part of `ordered_draw_sum` whose next die is of one of the first `k`
/// types.
pub open spec fn draw_type_sum(
    counts: Seq<usize>,
    slots: nat,
    drawn: Seq<DieType>,
    leaf: spec_fn(Seq<DieType>) -> int,
    k: int,
) -> int
    decreases slots, k,
{
    if slots == 0 || k <= 0 {
        0
    } else {
        draw_type_sum(counts, slots, drawn, leaf, k - 1) + counts[k - 1] * ordered_draw_sum(
            take_one(counts, k - 1),
            (slots - 1) as nat,
            drawn.push(die_at(k - 1)),
            leaf,
        )
    }
}

/// The dice at the table: the player's die at seat `pos`, the drawn
/// opponents' dice in the other seats, in draw order.
pub open spec fn seat_assignment(drawn: Seq<DieType>, player_die: DieType, pos: int) -> Seq<
    DieType,
> {
    Seq::new(
        drawn.len() + 1,
        |i: int|
            if i < pos {
                drawn[i]
            } else if i == pos {
                player_die
            } else {
                drawn[i - 1]
            },
    )
}

/// The winning face outcomes of seat `seat` once the opponents' dice are drawn.
pub open spec fn seat_win_leaf(player_die: DieType, pos: int, seat: int) -> spec_fn(
    Seq<DieType>,
) -> int {
    |drawn: Seq<DieType>| win_count_spec(seat_assignment(drawn, player_die, pos), seat) as int
}

/// The winning weight of seat `seat` when the player rolls `player_die` from
/// seat `pos` and the `slots` opponents draw theirs from `counts`.
pub open spec fn bag_weighted_wins(
    counts: Seq<usize>,
    slots: nat,
    player_die: DieType,
    pos: int,
    seat: int,
) -> int {
    ordered_draw_sum(counts, slots, Seq::empty(), seat_win_leaf(player_die, pos, seat))
}

/// The winning weights of seats `0..m` added together.
pub open spec fn seats_weight_total(
    counts: Seq<usize>,
    slots: nat,
    player_die: DieType,
    pos: int,
    m: int,
) -> int
    decreases m,
{
    if m <= 0 {
        0
    } else {
        seats_weight_total(counts, slots, player_die, pos, m - 1) + bag_weighted_wins(
            counts,
            slots,
            player_die,
            pos,
            m - 1,
        )
    }
}

// ── Lemmas on ordered draws ──────────────────────────────────────────────────

proof fn lemma_prefix_count_take_one(counts: Seq<usize>, t: int, k: int)
    requires
        0 <= t < counts.len(),
        counts[t] >= 1,
        0 <= k <= counts.len(),
    ensures
        prefix_count(take_one(counts, t), k) == prefix_count(counts, k) - if t < k {
            1int
        } else {
            0int
        },
    decreases k,
{
    if k > 0 {
        lemma_prefix_count_take_one(counts, t, k - 1);
    }
}

proof fn lemma_prefix_count_mono(counts: Seq<usize>, j: int, k: int)
    requires
        0 <= j <= k <= counts.len(),
    ensures
        0 <= prefix_count(counts, j) <= prefix_count(counts, k),
    decreases k,
{
    if j < k {
        lemma_prefix_count_mono(counts, j, k - 1);
    } else if k > 0 {
        lemma_prefix_count_mono(counts, j - 1, k - 1);
    }
}

proof fn lemma_falling_positive(total: int, k: nat)
    requires
        total >= k,
    ensures
        falling(total, k) >= 1,
    decreases k,
{
    if k > 0 {
        lemma_falling_positive(total - 1, (k - 1) as nat);
        assert(total * falling(total - 1, (k - 1) as nat) >= 1) by (nonlinear_arith)
            requires
                total >= 1,
                falling(total - 1, (k - 1) as nat) >= 1,
        ;
    }
}

/// A leaf that is `c` on every full draw sums to the number of ordered draws times `c`.
proof fn lemma_ordered_draw_const(
    counts: Seq<usize>,
    slots: nat,
    drawn: Seq<DieType>,
    leaf: spec_fn(Seq<DieType>) -> int,
    c: int,
)
    requires
        counts.len() == 7,
        forall|d: Seq<DieType>| d.len() == drawn.len() + slots ==> #[trigger] leaf(d) == c,
    ensures
        ordered_draw_sum(counts, slots, drawn, leaf) == falling(prefix_count(counts, 7), slots) * c,
    decreases slots, 8int,
{
    if slots > 0 {
        lemma_draw_type_const(counts, slots, drawn, leaf, c, 7);
        let t = prefix_count(counts, 7);
        let f = falling(t - 1, (slots - 1) as nat);
        assert(t * (f * c) == (t * f) * c) by (nonlinear_arith);
    }
}

proof fn lemma_draw_type_const(
    counts: Seq<usize>,
    slots: nat,
    drawn: Seq<DieType>,
    leaf: spec_fn(Seq<DieType>) -> int,
    c: int,
    k: int,
)
    requires
        counts.len() == 7,
        slots >= 1,
        0 <= k <= 7,
        forall|d: Seq<DieType>| d.len() == drawn.len() + slots ==> #[trigger] leaf(d) == c,
    ensures
        draw_type_sum(counts, slots, drawn, leaf, k) == prefix_count(counts, k) * (falling(
            prefix_count(counts, 7) - 1,
            (slots - 1) as nat,
        ) * c),
    decreases slots, k,
{
    let f = falling(prefix_count(counts, 7) - 1, (slots - 1) as nat) * c;
    if k > 0 {
        lemma_draw_type_const(counts, slots, drawn, leaf, c, k - 1);
        let x = counts[k - 1] as int;
        let inner = ordered_draw_sum(
            take_one(counts, k - 1),
            (slots - 1) as nat,
            drawn.push(die_at(k - 1)),
            leaf,
        );
        if x >= 1 {
            lemma_ordered_draw_const(
                take_one(counts, k - 1),
                (slots - 1) as nat,
                drawn.push(die_at(k - 1)),
                leaf,
                c,
            );
            lemma_prefix_count_take_one(counts, k - 1, 7);
            assert(inner == f);
        }
        let p = prefix_count(counts, k - 1);
        assert(p * f + x * inner == (p + x) * f) by (nonlinear_arith)
            requires
                x >= 1 ==> inner == f,
                x >= 0,
                x < 1 ==> x == 0,
        ;
    }
}

/// A pointwise smaller leaf gives a smaller sum.
proof fn lemma_ordered_draw_mono(
    counts: Seq<usize>,
    slots: nat,
    drawn: Seq<DieType>,
    f: spec_fn(Seq<DieType>) -> int,
    g: spec_fn(Seq<DieType>) -> int,
)
    requires
        counts.len() == 7,
        forall|d: Seq<DieType>| d.len() == drawn.len() + slots ==> #[trigger] f(d) <= g(d),
    ensures
        ordered_draw_sum(counts, slots, drawn, f) <= ordered_draw_sum(counts, slots, drawn, g),
    decreases slots, 8int,
{
    if slots > 0 {
        lemma_draw_type_mono(counts, slots, drawn, f, g, 7);
    }
}

proof fn lemma_draw_type_mono(
    counts: Seq<usize>,
    slots: nat,
    drawn: Seq<DieType>,
    f: spec_fn(Seq<DieType>) -> int,
    g: spec_fn(Seq<DieType>) -> int,
    k: int,
)
    requires
        counts.len() == 7,
        slots >= 1,
        0 <= k <= 7,
        forall|d: Seq<DieType>| d.len() == drawn.len() + slots ==> #[trigger] f(d) <= g(d),
    ensures
        draw_type_sum(counts, slots, drawn, f, k) <= draw_type_sum(counts, slots, drawn, g, k),
    decreases slots, k,
{
    if k > 0 {
        lemma_draw_type_mono(counts, slots, drawn, f, g, k - 1);
        let next = drawn.push(die_at(k - 1));
        lemma_ordered_draw_mono(take_one(counts, k - 1), (slots - 1) as nat, next, f, g);
        let a = ordered_draw_sum(take_one(counts, k - 1), (slots - 1) as nat, next, f);
        let b = ordered_draw_sum(take_one(counts, k - 1), (slots - 1) as nat, next, g);
        let x = counts[k - 1] as int;
        assert(x * a <= x * b) by (nonlinear_arith)
            requires
                x >= 0,
                a <= b,
        ;
    }
}

/// The sum of a pointwise sum of leaves is the sum of their sums.
proof fn lemma_ordered_draw_add(
    counts: Seq<usize>,
    slots: nat,
    drawn: Seq<DieType>,
    f: spec_fn(Seq<DieType>) -> int,
    g: spec_fn(Seq<DieType>) -> int,
    h: spec_fn(Seq<DieType>) -> int,
)
    requires
        counts.len() == 7,
        forall|d: Seq<DieType>| d.len() == drawn.len() + slots ==> #[trigger] h(d) == f(d) + g(d),
    ensures
        ordered_draw_sum(counts, slots, drawn, h) == ordered_draw_sum(counts, slots, drawn, f)
            + ordered_draw_sum(counts, slots, drawn, g),
    decreases slots, 8int,
{
    if slots > 0 {
        lemma_draw_type_add(counts, slots, drawn, f, g, h, 7);
    }
}

proof fn lemma_draw_type_add(
    counts: Seq<usize>,
    slots: nat,
    drawn: Seq<DieType>,
    f: spec_fn(Seq<DieType>) -> int,
    g: spec_fn(Seq<DieType>) -> int,
    h: spec_fn(Seq<DieType>) -> int,
    k: int,
)
    requires
        counts.len() == 7,
        slots >= 1,
        0 <= k <= 7,
        forall|d: Seq<DieType>| d.len() == drawn.len() + slots ==> #[trigger] h(d) == f(d) + g(d),
    ensures
        draw_type_sum(counts, slots, drawn, h, k) == draw_type_sum(counts, slots, drawn, f, k)
            + draw_type_sum(counts, slots, drawn, g, k),
    decreases slots, k,
{
    if k > 0 {
        lemma_draw_type_add(counts, slots, drawn, f, g, h, k - 1);
        let next = drawn.push(die_at(k - 1));
        lemma_ordered_draw_add(take_one(counts, k - 1), (slots - 1) as nat, next, f, g, h);
        let a = ordered_draw_sum(take_one(counts, k - 1), (slots - 1) as nat, next, f);
        let b = ordered_draw_sum(take_one(counts, k - 1), (slots - 1) as nat, next, g);
        let x = counts[k - 1] as int;
        assert(x * (a + b) == x * a + x * b) by (nonlinear_arith);
    }
}

/// The part of the sum over the first `k` types is bounded by the draws that
/// start with one of them.
proof fn lemma_draw_type_bound(
    counts: Seq<usize>,
    slots: nat,
    drawn: Seq<DieType>,
    leaf: spec_fn(Seq<DieType>) -> int,
    p: int,
    k: int,
)
    requires
        counts.len() == 7,
        slots >= 1,
        0 <= k <= 7,
        forall|d: Seq<DieType>| d.len() == drawn.len() + slots ==> 0 <= #[trigger] leaf(d) <= p,
    ensures
        0 <= draw_type_sum(counts, slots, drawn, leaf, k) <= prefix_count(counts, k) * (falling(
            prefix_count(counts, 7) - 1,
            (slots - 1) as nat,
        ) * p),
{
    let zero = |d: Seq<DieType>| 0int;
    let top = |d: Seq<DieType>| p;
    lemma_draw_type_mono(counts, slots, drawn, zero, leaf, k);
    lemma_draw_type_mono(counts, slots, drawn, leaf, top, k);
    lemma_draw_type_const(counts, slots, drawn, zero, 0, k);
    lemma_draw_type_const(counts, slots, drawn, top, p, k);
    assert(prefix_count(counts, k) * (falling(prefix_count(counts, 7) - 1, (slots - 1) as nat) * 0)
        == 0) by (nonlinear_arith);
}

/// A seat wins at most all `6^n` face outcomes of the `n` dice at the table.
proof fn lemma_seat_leaf_bound(player_die: DieType, pos: int, s: int, n: nat)
    ensures
        pow6(n) >= 1,
        forall|d: Seq<DieType>|
            d.len() + 1 == n ==> 0 <= #[trigger] seat_win_leaf(player_die, pos, s)(d) <= pow6(n),
{
    lemma_pow6_monotone(0, n);
    assert forall|d: Seq<DieType>| d.len() + 1 == n implies 0 <= #[trigger] seat_win_leaf(
        player_die,
        pos,
        s,
    )(d) <= pow6(n) by {
        lemma_win_count_bound(seat_assignment(d, player_die, pos), s);
    }
}

// ── Counting the winning weights ─────────────────────────────────────────────

/// Adds, for every seat, `draw_weight` times its winning weight over every
/// ordered draw of `slots_left` more opponent dice from `counts` following
/// the opponent dice already drawn.
fn enumerate_ordered_opponent_draws_winner_weights(
    player_die: DieType,
    player_position: usize,
    counts: &mut Vec<usize>,
    slots_left: usize,
    opponent_dice: &mut Vec<DieType>,
    draw_weight: u64,
    winner_weights: &mut Vec<u64>,
)
    requires
        old(counts).len() == 7,
        old(winner_weights).len() == old(opponent_dice).len() + slots_left + 1,
        old(winner_weights).len() <= 6,
        player_position < old(winner_weights).len(),
        prefix_count(old(counts)@, 7) >= slots_left,
        forall|s: int|
            0 <= s < old(winner_weights).len() ==> #[trigger] old(winner_weights)[s] + draw_weight
                * (falling(prefix_count(old(counts)@, 7), slots_left as nat) * pow6(
                old(winner_weights).len() as nat,
            )) <= u64::MAX,
    ensures
        final(counts)@ == old(counts)@,
        final(opponent_dice)@ == old(opponent_dice)@,
        final(winner_weights).len() == old(winner_weights).len(),
        forall|s: int|
            0 <= s < old(winner_weights).len() ==> #[trigger] final(winner_weights)[s]
                == old(winner_weights)[s] + draw_weight * ordered_draw_sum(
                old(counts)@,
                slots_left as nat,
                old(opponent_dice)@,
                seat_win_leaf(player_die, player_position as int, s),
            ),
    decreases slots_left,
{
    let n = winner_weights.len();
    let ghost p6 = pow6(n as nat) as int;
    if slots_left == 0 {
        let mut all_dice: Vec<DieType> = Vec::new();
        let mut next: usize = 0;
        let mut seat: usize = 0;
        while seat < n
            invariant
                n == opponent_dice.len() + 1,
                player_position < n,
                0 <= seat <= n,
                next == if seat <= player_position {
                    seat
                } else {
                    (seat - 1) as usize
                },
                all_dice@ =~= seat_assignment(
                    opponent_dice@,
                    player_die,
                    player_position as int,
                ).subrange(0, seat as int),
            decreases n - seat,
        {
            if seat == player_position {
                all_dice.push(player_die);
            } else {
                all_dice.push(opponent_dice[next]);
                next = next + 1;
            }
            seat = seat + 1;
        }
        let ghost table = seat_assignment(opponent_dice@, player_die, player_position as int);
        assert(all_dice@ =~= table);
        let wins = winning_outcome_counts(all_dice.as_slice());
        let mut s: usize = 0;
        while s < n
            invariant
                n == winner_weights.len() == all_dice.len() <= 6,
                table == all_dice@,
                p6 == pow6(n as nat),
                0 <= s <= n,
                wins.len() == n,
                forall|t: int| 0 <= t < n ==> #[trigger] wins[t] == win_count_spec(table, t),
                forall|t: int|
                    s <= t < n ==> #[trigger] winner_weights[t] == old(winner_weights)[t],
                forall|t: int|
                    0 <= t < s ==> #[trigger] winner_weights[t] == old(winner_weights)[t]
                        + draw_weight * win_count_spec(table, t),
                forall|t: int|
                    0 <= t < n ==> #[trigger] old(winner_weights)[t] + draw_weight * (falling(
                        prefix_count(old(counts)@, 7),
                        0,
                    ) * p6) <= u64::MAX,
            decreases n - s,
        {
            proof {
                lemma_win_count_bound(table, s as int);
                let w = win_count_spec(table, s as int) as int;
                assert(draw_weight * w <= draw_weight * p6) by (nonlinear_arith)
                    requires
                        0 <= w <= p6,
                        draw_weight >= 0,
                ;
                assert(old(winner_weights)[s as int] + draw_weight * (falling(
                    prefix_count(old(counts)@, 7),
                    0,
                ) * p6) <= u64::MAX);
            }
            winner_weights[s] = winner_weights[s] + draw_weight * wins[s];
            s = s + 1;
        }
        return ;
    }
    let ghost c0 = counts@;
    let ghost d0 = opponent_dice@;
    let ghost w0 = winner_weights@;
    let ghost total = prefix_count(c0, 7);
    let ghost f1 = falling(total - 1, (slots_left - 1) as nat);
    proof {
        lemma_falling_positive(total - 1, (slots_left - 1) as nat);
        lemma_pow6_monotone(0, n as nat);
    }
    let all = DieType::ALL;
    assert(all@ == seq![
        DieType::Minotaur,
        DieType::Griffin,
        DieType::Mermaid,
        DieType::Red,
        DieType::Yellow,
        DieType::Purple,
        DieType::Gray,
    ]);
    let mut idx: usize = 0;
    while idx < 7
        invariant
            all@ == seq![
                DieType::Minotaur,
                DieType::Griffin,
                DieType::Mermaid,
                DieType::Red,
                DieType::Yellow,
                DieType::Purple,
                DieType::Gray,
            ],
            0 <= idx <= 7,
            slots_left >= 1,
            c0.len() == 7,
            counts@ == c0,
            opponent_dice@ == d0,
            w0 == old(winner_weights)@,
            c0 == old(counts)@,
            d0 == old(opponent_dice)@,
            n == w0.len() == d0.len() + slots_left + 1,
            n <= 6,
            player_position < n,
            p6 == pow6(n as nat),
            p6 >= 1,
            total == prefix_count(c0, 7),
            total >= slots_left,
            f1 == falling(total - 1, (slots_left - 1) as nat),
            f1 >= 1,
            winner_weights.len() == n,
            forall|s: int|
                0 <= s < n ==> #[trigger] w0[s] + draw_weight * (falling(total, slots_left as nat)
                    * p6) <= u64::MAX,
            forall|s: int|
                0 <= s < n ==> #[trigger] winner_weights[s] == w0[s] + draw_weight
                    * draw_type_sum(
                    c0,
                    slots_left as nat,
                    d0,
                    seat_win_leaf(player_die, player_position as int, s),
                    idx as int,
                ),
        decreases 7 - idx,
    {
        let count = counts[idx];
        if count > 0 {
            let ghost before = winner_weights@;
            proof {
                lemma_prefix_count_mono(c0, idx as int + 1, 7);
                lemma_prefix_count_take_one(c0, idx as int, 7);
                assert forall|s: int|
                    0 <= s < n implies #[trigger] before[s] + (draw_weight * count) * (falling(
                    prefix_count(take_one(c0, idx as int), 7),
                    (slots_left - 1) as nat,
                ) * p6) <= u64::MAX by {
                    let leaf = seat_win_leaf(player_die, player_position as int, s);
                    lemma_seat_leaf_bound(player_die, player_position as int, s, n as nat);
                    lemma_draw_type_bound(c0, slots_left as nat, d0, leaf, p6, idx as int);
                    let a = draw_type_sum(c0, slots_left as nat, d0, leaf, idx as int);
                    let pre = prefix_count(c0, idx as int);
                    assert(pre + count <= total);
                    assert(falling(total, slots_left as nat) == total * f1);
                    let dw = draw_weight as int;
                    assert(dw * a + (dw * count) * (f1 * p6) <= dw * (total * f1 * p6))
                        by (nonlinear_arith)
                        requires
                            0 <= a <= pre * (f1 * p6),
                            pre + count <= total,
                            dw >= 0,
                            f1 >= 1,
                            p6 >= 1,
                            count >= 0,
                    ;
                    assert(dw * (total * f1 * p6) == dw * (falling(total, slots_left as nat)
                        * p6)) by (nonlinear_arith)
                        requires
                            falling(total, slots_left as nat) == total * f1,
                    ;
                }
                assert(draw_weight * count <= draw_weight * count * (f1 * p6)) by (nonlinear_arith)
                    requires
                        f1 >= 1,
                        p6 >= 1,
                ;
                assert(draw_weight * count <= u64::MAX) by {
                    assert(w0[0] + draw_weight * (falling(total, slots_left as nat) * p6)
                        <= u64::MAX);
                    assert(before[0] + (draw_weight * count) * (f1 * p6) <= u64::MAX);
                    assert((draw_weight * count) * (f1 * p6) == draw_weight * count * (f1 * p6))
                        by (nonlinear_arith);
                }
            }
            counts[idx] = count - 1;
            opponent_dice.push(all[idx]);
            assert(counts@ == take_one(c0, idx as int));
            assert(opponent_dice@ == d0.push(die_at(idx as int)));
            enumerate_ordered_opponent_draws_winner_weights(
                player_die,
                player_position,
                counts,
                slots_left - 1,
                opponent_dice,
                draw_weight * (count as u64),
                winner_weights,
            );
            opponent_dice.pop();
            counts[idx] = count;
            proof {
                assert(opponent_dice@ =~= d0);
                assert(counts@ =~= c0);
                assert forall|s: int| 0 <= s < n implies #[trigger] winner_weights[s] == w0[s]
                    + draw_weight * draw_type_sum(
                    c0,
                    slots_left as nat,
                    d0,
                    seat_win_leaf(player_die, player_position as int, s),
                    idx + 1,
                ) by {
                    let leaf = seat_win_leaf(player_die, player_position as int, s);
                    let a = draw_type_sum(c0, slots_left as nat, d0, leaf, idx as int);
                    let b = ordered_draw_sum(
                        take_one(c0, idx as int),
                        (slots_left - 1) as nat,
                        d0.push(die_at(idx as int)),
                        leaf,
                    );
                    let dw = draw_weight as int;
                    assert(dw * a + (dw * count) * b == dw * (a + count * b)) by (nonlinear_arith);
                }
            }
        } else {
            proof {
                assert forall|s: int| 0 <= s < n implies #[trigger] winner_weights[s] == w0[s]
                    + draw_weight * draw_type_sum(
                    c0,
                    slots_left as nat,
                    d0,
                    seat_win_leaf(player_die, player_position as int, s),
                    idx + 1,
                ) by {
                    let leaf = seat_win_leaf(player_die, player_position as int, s);
                    let b = ordered_draw_sum(
                        take_one(c0, idx as int),
                        (slots_left - 1) as nat,
                        d0.push(die_at(idx as int)),
                        leaf,
                    );
                    assert(c0[idx as int] * b == 0) by (nonlinear_arith)
                        requires
                            c0[idx as int] == 0,
                    ;
                }
            }
        }
        idx = idx + 1;
    }
}

/// The sum of the remaining counts: the bag holds 36 dice in all.
proof fn lemma_remaining_total(removed: Seq<DieType>, r: Seq<usize>, k: int)
    requires
        r.len() == 7,
        0 <= k <= 7,
        forall|i: int|
            0 <= i < 7 ==> #[trigger] r[i] == die_at(i).spec_bag_count() - removed.to_multiset().count(
                die_at(i),
            ),
    ensures
        prefix_count(r, k) == bag_prefix_total(k) - count_types_below(removed, k),
    decreases k,
{
    if k > 0 {
        lemma_remaining_total(removed, r, k - 1);
    }
}

/// What is left of the bag once `removed` is out: no more of each type than
/// the bag holds, and `36 - removed.len()` dice in all.
pub proof fn lemma_remaining_counts_total(removed: Seq<DieType>, r: Seq<usize>)
    requires
        within_bag(removed),
        r.len() == 7,
        forall|i: int|
            0 <= i < 7 ==> #[trigger] r[i] == die_at(i).spec_bag_count() - removed.to_multiset().count(
                die_at(i),
            ),
    ensures
        prefix_count(r, 7) == 36 - removed.len(),
        forall|t: int| 0 <= t < 7 ==> #[trigger] r[t] <= die_at(t).spec_bag_count(),
        forall|t: int| 0 <= t < 7 ==> #[trigger] r[t] <= 8,
{
    lemma_remaining_total(removed, r, 7);
    lemma_bag_prefix_totals();
    lemma_len_is_sum_of_type_counts(removed);
    assert forall|t: int| 0 <= t < 7 implies #[trigger] r[t] <= 8 by {
        assert(r[t] <= die_at(t).spec_bag_count());
    }
}

/// Each seat's winning weight when the player rolls `player_die` from seat
/// `player_position` of `player_count`, the dice `removed_player_dice` are
/// out of the bag, and the opponents' dice are drawn in seat order from the
/// rest. Divided by the sum of all seats' weights (see
/// `lemma_winner_weights_total`), these are the seats' probabilities of
/// winning the trick.
pub fn exact_single_trick_winner_weights_from_remaining(
    removed_player_dice: &[DieType],
    player_die: DieType,
    player_count: usize,
    player_position: usize,
) -> (r: Vec<u64>)
    requires
        within_bag(removed_player_dice@),
        1 <= player_count <= 6,
        player_position < player_count,
        removed_player_dice.len() + player_count <= 37,
    ensures
        r.len() == player_count,
        forall|s: int|
            0 <= s < player_count ==> #[trigger] r[s] == bag_weighted_wins(
                remaining_counts_spec(removed_player_dice@),
                (player_count - 1) as nat,
                player_die,
                player_position as int,
                s,
            ),
        vec_total(r@) == falling(36 - removed_player_dice.len(), (player_count - 1) as nat) * pow6(
            player_count as nat,
        ),
{
    let mut remaining_counts = remaining_counts_after_removing_hand(removed_player_dice);
    proof {
        assert(remaining_counts@ =~= remaining_counts_spec(removed_player_dice@));
        lemma_remaining_total(removed_player_dice@, remaining_counts@, 7);
        lemma_bag_prefix_totals();
        lemma_len_is_sum_of_type_counts(removed_player_dice@);
    }
    let ghost total = prefix_count(remaining_counts@, 7);
    assert(total == 36 - removed_player_dice.len());
    let mut opponent_dice: Vec<DieType> = Vec::new();
    let mut winner_weights: Vec<u64> = vec![0u64; player_count];
    proof {
        lemma_falling_bound(total, (player_count - 1) as nat);
        lemma_pow6_monotone(player_count as nat, 6);
        reveal_with_fuel(pow6, 7);
        assert(falling(total, (player_count - 1) as nat) * pow6(player_count as nat)
            <= 36 * 36 * 36 * 36 * 36 * 46656) by (nonlinear_arith)
            requires
                0 <= falling(total, (player_count - 1) as nat) <= 36 * 36 * 36 * 36 * 36,
                pow6(player_count as nat) <= 46656,
        ;
    }
    enumerate_ordered_opponent_draws_winner_weights(
        player_die,
        player_position,
        &mut remaining_counts,
        player_count - 1,
        &mut opponent_dice,
        1,
        &mut winner_weights,
    );
    proof {
        lemma_weights_vec_total(
            winner_weights@,
            remaining_counts_spec(removed_player_dice@),
            (player_count - 1) as nat,
            player_die,
            player_position as int,
            player_count as int,
        );
        assert(winner_weights@.subrange(0, player_count as int) =~= winner_weights@);
        lemma_winner_weights_total(
            remaining_counts_spec(removed_player_dice@),
            player_die,
            player_count as nat,
            player_position as int,
        );
    }
    winner_weights
}

proof fn lemma_weights_vec_total(
    w: Seq<u64>,
    counts: Seq<usize>,
    slots: nat,
    player_die: DieType,
    pos: int,
    m: int,
)
    requires
        0 <= m <= w.len(),
        forall|s: int|
            0 <= s < w.len() ==> #[trigger] w[s] == bag_weighted_wins(
                counts,
                slots,
                player_die,
                pos,
                s,
            ),
    ensures
        vec_total(w.subrange(0, m)) == seats_weight_total(counts, slots, player_die, pos, m),
    decreases m,
{
    if m > 0 {
        lemma_weights_vec_total(w, counts, slots, player_die, pos, m - 1);
        assert(w.subrange(0, m).drop_last() =~= w.subrange(0, m - 1));
    }
}

/// The weights of losing and of winning the trick, in that order, for the
/// player rolling `player_die` from seat `player_position` while the dice
/// `removed_player_dice` are out of the bag. The two add up to the number of
/// ordered opponent draws times `6^player_count`; the second divided by that
/// sum is the probability of winning.
pub fn exact_single_trick_weights_from_remaining(
    removed_player_dice: &[DieType],
    player_die: DieType,
    player_count: usize,
    player_position: usize,
) -> (r: Vec<u64>)
    requires
        within_bag(removed_player_dice@),
        1 <= player_count <= 6,
        player_position < player_count,
        removed_player_dice.len() + player_count <= 37,
    ensures
        r.len() == 2,
        r[1] == bag_weighted_wins(
            remaining_counts_spec(removed_player_dice@),
            (player_count - 1) as nat,
            player_die,
            player_position as int,
            player_position as int,
        ),
        r[0] + r[1] == falling(36 - removed_player_dice.len(), (player_count - 1) as nat) * pow6(
            player_count as nat,
        ),
{
    let winner_weights = exact_single_trick_winner_weights_from_remaining(
        removed_player_dice,
        player_die,
        player_count,
        player_position,
    );
    proof {
        lemma_falling_bound(36 - removed_player_dice.len(), (player_count - 1) as nat);
        lemma_pow6_monotone(player_count as nat, 6);
        reveal_with_fuel(pow6, 7);
        assert(falling(36 - removed_player_dice.len(), (player_count - 1) as nat) * pow6(
            player_count as nat,
        ) <= 36 * 36 * 36 * 36 * 36 * 46656) by (nonlinear_arith)
            requires
                0 <= falling(36 - removed_player_dice.len(), (player_count - 1) as nat) <= 36 * 36
                    * 36 * 36 * 36,
                pow6(player_count as nat) <= 46656,
        ;
        lemma_vec_total_prefix(winner_weights@, player_position as int);
        lemma_vec_total_prefix(winner_weights@, player_position as int + 1);
        assert(winner_weights@.subrange(0, player_position as int + 1).drop_last()
            =~= winner_weights@.subrange(0, player_position as int));
    }
    let total = winner_weights_sum(&winner_weights);
    let win = winner_weights[player_position];
    let lose = total - win;
    vec![lose, win]
}

/// The weights of losing and of winning a single trick for the player rolling
/// `player_die` from seat `player_position` of `player_count`, the opponents'
/// dice drawn from the bag without that die.
pub fn exact_single_trick_weights(
    player_die: DieType,
    player_count: usize,
    player_position: usize,
) -> (r: Vec<u64>)
    requires
        3 <= player_count <= 6,
        player_position < player_count,
    ensures
        r.len() == 2,
        r[1] == bag_weighted_wins(
            remaining_counts_spec(seq![player_die]),
            (player_count - 1) as nat,
            player_die,
            player_position as int,
            player_position as int,
        ),
        r[0] + r[1] == falling(35, (player_count - 1) as nat) * pow6(player_count as nat),
{
    let removed = [player_die];
    proof {
        assert(removed@ =~= seq![player_die]);
        broadcast use vstd::seq_lib::group_to_multiset_ensures, vstd::multiset::group_multiset_axioms;
        assert(seq![player_die] =~= Seq::<DieType>::empty().push(player_die));
        assert forall|d: DieType| #[trigger] removed@.to_multiset().count(d)
            <= d.spec_bag_count() by {
            assert(Seq::<DieType>::empty().to_multiset().count(d) == 0);
        }
    }
    exact_single_trick_weights_from_remaining(&removed, player_die, player_count, player_position)
}

/// The number of dice of each type left in the bag once `removed` is out.
pub open spec fn remaining_counts_spec(removed: Seq<DieType>) -> Seq<usize> {
    Seq::new(
        7,
        |i: int| (die_at(i).spec_bag_count() - removed.to_multiset().count(die_at(i))) as usize,
    )
}

/// Ordered draws of at most five dice out of at most 36: at most `36^5`.
proof fn lemma_falling_bound(total: int, k: nat)
    requires
        0 <= total <= 36,
        k <= 5,
        total >= k,
    ensures
        0 <= falling(total, k) <= 36 * 36 * 36 * 36 * 36,
{
    lemma_falling_bound_rec(total, k);
    assert(pow36(k) <= 36 * 36 * 36 * 36 * 36) by {
        reveal_with_fuel(pow36, 6);
        assert(k == 0 || k == 1 || k == 2 || k == 3 || k == 4 || k == 5);
    }
}

spec fn pow36(k: nat) -> int
    decreases k,
{
    if k == 0 {
        1
    } else {
        36 * pow36((k - 1) as nat)
    }
}

proof fn lemma_falling_bound_rec(total: int, k: nat)
    requires
        0 <= total <= 36,
        total >= k,
    ensures
        0 <= falling(total, k) <= pow36(k),
        pow36(k) >= 1,
    decreases k,
{
    if k > 0 {
        lemma_falling_bound_rec(total - 1, (k - 1) as nat);
        let f = falling(total - 1, (k - 1) as nat);
        assert(0 <= total * f <= 36 * pow36((k - 1) as nat)) by (nonlinear_arith)
            requires
                0 <= total <= 36,
                0 <= f <= pow36((k - 1) as nat),
        ;
    }
}

/// Every ordered draw of the opponents' dice, with every face outcome at the
/// table, is won by exactly one seat: the winning weights of all seats add up
/// to the number of ordered draws times `6^player_count`, so the seats' win
/// probabilities sum to one.
pub proof fn lemma_winner_weights_total(
    counts: Seq<usize>,
    player_die: DieType,
    player_count: nat,
    player_position: int,
)
    requires
        counts.len() == 7,
        1 <= player_count,
        0 <= player_position < player_count,
    ensures
        seats_weight_total(counts, (player_count - 1) as nat, player_die, player_position, player_count as int)
            == falling(prefix_count(counts, 7), (player_count - 1) as nat) * pow6(player_count),
{
    let slots = (player_count - 1) as nat;
    lemma_seats_weight_total_leaf(counts, slots, player_die, player_position, player_count as int);
    let total_leaf = |d: Seq<DieType>|
        seats_total(seat_assignment(d, player_die, player_position), Seq::empty(), player_count as int) as int;
    assert forall|d: Seq<DieType>| d.len() == 0 + slots implies #[trigger] total_leaf(d) == pow6(
        player_count,
    ) by {
        lemma_win_counts_cover_all_outcomes(seat_assignment(d, player_die, player_position));
    }
    lemma_ordered_draw_const(counts, slots, Seq::empty(), total_leaf, pow6(player_count) as int);
}

/// The winning weights of seats `0..m` are the weights of the leaf that adds
/// up those seats' winning outcomes.
proof fn lemma_seats_weight_total_leaf(
    counts: Seq<usize>,
    slots: nat,
    player_die: DieType,
    pos: int,
    m: int,
)
    requires
        counts.len() == 7,
        m >= 0,
    ensures
        seats_weight_total(counts, slots, player_die, pos, m) == ordered_draw_sum(
            counts,
            slots,
            Seq::empty(),
            |d: Seq<DieType>| seats_total(seat_assignment(d, player_die, pos), Seq::empty(), m) as int,
        ),
    decreases m,
{
    let h = |d: Seq<DieType>| seats_total(seat_assignment(d, player_die, pos), Seq::empty(), m) as int;
    if m == 0 {
        lemma_ordered_draw_const(counts, slots, Seq::empty(), h, 0);
        assert(falling(prefix_count(counts, 7), slots) * 0 == 0) by (nonlinear_arith);
    } else {
        lemma_seats_weight_total_leaf(counts, slots, player_die, pos, m - 1);
        let f = |d: Seq<DieType>|
            seats_total(seat_assignment(d, player_die, pos), Seq::empty(), m - 1) as int;
        let g = seat_win_leaf(player_die, pos, m - 1);
        assert forall|d: Seq<DieType>| d.len() == 0 + slots implies #[trigger] h(d) == f(d) + g(d) by {
            let t = seat_assignment(d, player_die, pos);
            assert(seats_total(t, Seq::empty(), m) == seats_total(t, Seq::empty(), m - 1) + wins_from(
                t,
                Seq::empty(),
                m - 1,
            ));
        }
        lemma_ordered_draw_add(counts, slots, Seq::empty(), f, g, h);
    }
}

/// The sum of a list of weights.
fn winner_weights_sum(weights: &Vec<u64>) -> (total: u64)
    requires
        vec_total(weights@) <= u64::MAX,
    ensures
        total == vec_total(weights@),
{
    let mut total: u64 = 0;
    let mut i: usize = 0;
    while i < weights.len()
        invariant
            0 <= i <= weights.len(),
            vec_total(weights@) <= u64::MAX,
            total == vec_total(weights@.subrange(0, i as int)),
        decreases weights.len() - i,
    {
        proof {
            assert(weights@.subrange(0, i + 1).drop_last() =~= weights@.subrange(0, i as int));
            lemma_vec_total_prefix(weights@, i + 1);
        }
        total = total + weights[i];
        i = i + 1;
    }
    assert(weights@.subrange(0, weights.len() as int) =~= weights@);
    total
}

/// The sum of a sequence of weights.
pub open spec fn vec_total(s: Seq<u64>) -> int
    decreases s.len(),
{
    if s.len() == 0 {
        0
    } else {
        vec_total(s.drop_last()) + s.last()
    }
}

proof fn lemma_vec_total_prefix(s: Seq<u64>, k: int)
    requires
        0 <= k <= s.len(),
    ensures
        0 <= vec_total(s.subrange(0, k)) <= vec_total(s),
    decreases s.len() - k,
{
    if k < s.len() {
        lemma_vec_total_prefix(s, k + 1);
        assert(s.subrange(0, k + 1).drop_last() =~= s.subrange(0, k));
        lemma_vec_total_nonneg(s.subrange(0, k));
    } else {
        assert(s.subrange(0, k) =~= s);
        lemma_vec_total_nonneg(s);
    }
}

proof fn lemma_vec_total_nonneg(s: Seq<u64>)
    ensures
        vec_total(s) >= 0,
    decreases s.len(),
{
    if s.len() > 0 {
        lemma_vec_total_nonneg(s.drop_last());
    }
}

} // verus!
