//! A precomputed table of single-trick win counts for every ordered
//! assignment of die types to three to six seats.

use vstd::prelude::*;

use crate::dice::{DieType, die_at, die_index};
use crate::trick::{sequence_code, win_count_spec, winning_outcome_counts};

verus! {

// ── Base-7 digit strings ─────────────────────────────────────────────────────

/// Seven to the power `k`: the number of die-type sequences of length `k`.
pub open spec fn pow7(k: nat) -> nat
    decreases k,
{
    if k == 0 {
        1
    } else {
        7 * pow7((k - 1) as nat)
    }
}

/// Every digit is a base-7 digit.
pub open spec fn base7_digits(d: Seq<usize>) -> bool {
    forall|i: int| 0 <= i < d.len() ==> #[trigger] d[i] < 7
}

/// The number written by the digits `d`, most significant first.
pub open spec fn digits_value(d: Seq<usize>) -> int
    decreases d.len(),
{
    if d.len() == 0 {
        0
    } else {
        digits_value(d.drop_last()) * 7 + d.last()
    }
}

/// The digits after adding one, carrying from the last digit towards the
/// first; all sixes wrap round to all zeros.
pub open spec fn next_digits(d: Seq<usize>) -> Seq<usize>
    decreases d.len(),
{
    if d.len() == 0 {
        d
    } else if d.last() + 1 < 7 {
        d.drop_last().push((d.last() + 1) as usize)
    } else {
        next_digits(d.drop_last()).push(0usize)
    }
}

/// The die types named by the `n` base-7 digits of `code`.
pub open spec fn decode_sequence(code: int, n: nat) -> Seq<DieType>
    decreases n,
{
    if n == 0 {
        Seq::empty()
    } else {
        decode_sequence(code / 7, (n - 1) as nat).push(die_at(code % 7))
    }
}

proof fn lemma_next_digits_carry(d: Seq<usize>, p: int)
    requires
        0 <= p < d.len(),
        d[p] < 6,
        forall|i: int| p < i < d.len() ==> #[trigger] d[i] == 6,
    ensures
        next_digits(d) =~= d.subrange(0, p).push((d[p] + 1) as usize) + Seq::new(
            (d.len() - p - 1) as nat,
            |i: int| 0usize,
        ),
    decreases d.len(),
{
    if p < d.len() - 1 {
        let e = d.drop_last();
        assert forall|i: int| p < i < e.len() implies #[trigger] e[i] == 6 by {
            assert(d[i] == 6);
        }
        lemma_next_digits_carry(e, p);
        assert(e.subrange(0, p) =~= d.subrange(0, p));
    }
}

proof fn lemma_next_digits_wrap(d: Seq<usize>)
    requires
        forall|i: int| 0 <= i < d.len() ==> #[trigger] d[i] == 6,
    ensures
        next_digits(d) =~= Seq::new(d.len(), |i: int| 0usize),
    decreases d.len(),
{
    if d.len() > 0 {
        let e = d.drop_last();
        assert forall|i: int| 0 <= i < e.len() implies #[trigger] e[i] == 6 by {
            assert(d[i] == 6);
        }
        lemma_next_digits_wrap(e);
    }
}

/// Digits below 7 write a number below `7^len`.
pub proof fn lemma_digits_value_bound(d: Seq<usize>)
    requires
        base7_digits(d),
    ensures
        0 <= digits_value(d) < pow7(d.len()),
    decreases d.len(),
{
    if d.len() > 0 {
        let e = d.drop_last();
        assert forall|i: int| 0 <= i < e.len() implies #[trigger] e[i] < 7 by {
            assert(d[i] < 7);
        }
        lemma_digits_value_bound(e);
        assert(d.last() < 7);
    }
}

/// Adding one to the digits adds one to the number they write, modulo `7^len`.
pub proof fn lemma_next_digits_value(d: Seq<usize>)
    requires
        base7_digits(d),
    ensures
        next_digits(d).len() == d.len(),
        base7_digits(next_digits(d)),
        digits_value(next_digits(d)) == (digits_value(d) + 1) % (pow7(d.len()) as int),
    decreases d.len(),
{
    if d.len() == 0 {
        assert(pow7(0) == 1);
        vstd::arithmetic::div_mod::lemma_mod_self_0(1);
    } else {
        let e = d.drop_last();
        assert forall|i: int| 0 <= i < e.len() implies #[trigger] e[i] < 7 by {
            assert(d[i] < 7);
        }
        lemma_digits_value_bound(e);
        let pe = pow7(e.len()) as int;
        assert(pow7(d.len()) == 7 * pe);
        assert(d.last() < 7);
        if d.last() + 1 < 7 {
            let nd = next_digits(d);
            assert(nd.drop_last() =~= e);
            assert(digits_value(nd) == digits_value(e) * 7 + d.last() + 1);
            assert(digits_value(e) * 7 + d.last() + 1 < 7 * pe) by (nonlinear_arith)
                requires
                    digits_value(e) < pe,
                    d.last() + 1 < 7,
            ;
            assert(digits_value(d) >= 0) by (nonlinear_arith)
                requires
                    digits_value(d) == digits_value(e) * 7 + d.last(),
                    digits_value(e) >= 0,
            ;
            vstd::arithmetic::div_mod::lemma_small_mod(
                (digits_value(d) + 1) as nat,
                (7 * pe) as nat,
            );
            assert forall|i: int| 0 <= i < nd.len() implies #[trigger] nd[i] < 7 by {
                if i < e.len() {
                    assert(nd[i] == e[i]);
                }
            }
        } else {
            lemma_next_digits_value(e);
            let ne = next_digits(e);
            let nd = next_digits(d);
            assert(nd.drop_last() =~= ne);
            assert(digits_value(nd) == digits_value(ne) * 7);
            assert forall|i: int| 0 <= i < nd.len() implies #[trigger] nd[i] < 7 by {
                if i < ne.len() {
                    assert(nd[i] == ne[i]);
                }
            }
            let v = digits_value(e);
            assert(digits_value(d) + 1 == (v + 1) * 7);
            if v + 1 < pe {
                vstd::arithmetic::div_mod::lemma_small_mod((v + 1) as nat, pe as nat);
                assert((v + 1) * 7 < 7 * pe) by (nonlinear_arith)
                    requires
                        v + 1 < pe,
                ;
                assert(((v + 1) * 7) % (7 * pe) == (v + 1) * 7) by (nonlinear_arith)
                    requires
                        0 <= (v + 1) * 7 < 7 * pe,
                ;
            } else {
                assert(v + 1 == pe);
                vstd::arithmetic::div_mod::lemma_mod_self_0(pe);
                assert(((v + 1) * 7) % (7 * pe) == 0) by (nonlinear_arith)
                    requires
                        v + 1 == pe,
                        pe >= 1,
                ;
            }
        }
    }
}

/// The die types named by base-7 digits are the decoding of the number the
/// digits write.
proof fn lemma_digits_decode(d: Seq<usize>)
    requires
        base7_digits(d),
    ensures
        d.map_values(|x: usize| die_at(x as int)) =~= decode_sequence(
            digits_value(d),
            d.len(),
        ),
    decreases d.len(),
{
    if d.len() > 0 {
        let e = d.drop_last();
        assert forall|i: int| 0 <= i < e.len() implies #[trigger] e[i] < 7 by {
            assert(d[i] < 7);
        }
        lemma_digits_decode(e);
        lemma_digits_value_bound(e);
        let v = digits_value(d);
        assert(d.last() < 7);
        assert(v / 7 == digits_value(e) && v % 7 == d.last()) by (nonlinear_arith)
            requires
                v == digits_value(e) * 7 + d.last(),
                0 <= d.last() < 7,
        ;
        assert(d.map_values(|x: usize| die_at(x as int)).drop_last() =~= e.map_values(
            |x: usize| die_at(x as int),
        ));
    }
}

/// Decoding the code of a die sequence gives the sequence back.
pub proof fn lemma_decode_sequence_code(dice: Seq<DieType>)
    ensures
        0 <= sequence_code(dice) < pow7(dice.len()),
        decode_sequence(sequence_code(dice), dice.len()) =~= dice,
    decreases dice.len(),
{
    if dice.len() > 0 {
        let e = dice.drop_last();
        lemma_decode_sequence_code(e);
        let c = sequence_code(dice);
        let x = die_index(dice.last());
        assert(0 <= x < 7);
        assert(c / 7 == sequence_code(e) && c % 7 == x) by (nonlinear_arith)
            requires
                c == sequence_code(e) * 7 + x,
                0 <= x < 7,
        ;
        assert(c < 7 * pow7(e.len())) by (nonlinear_arith)
            requires
                c == sequence_code(e) * 7 + x,
                0 <= x < 7,
                sequence_code(e) < pow7(e.len()),
        ;
        assert(die_at(x) == dice.last());
    }
}

/// Advances the base-7 digit string `digits` by one (the last digit moving
/// fastest) and keeps `dice` in step: every digit that changes has its die
/// type, `DieType::ALL[digit]`, written to the same position of `dice`.
pub fn increment_base7_digits(digits: &mut [usize], dice: &mut [DieType])
    requires
        old(digits).len() == old(dice).len(),
        base7_digits(old(digits)@),
    ensures
        final(digits)@ == next_digits(old(digits)@),
        final(dice).len() == old(dice).len(),
        forall|i: int|
            0 <= i < old(dice).len() ==> #[trigger] final(dice)[i] == if final(digits)[i]
                == old(digits)[i] {
                old(dice)[i]
            } else {
                die_at(final(digits)[i] as int)
            },
{
    let all = DieType::ALL;
    assert(all@ == seq![
        DieType::Minotaur,
        DieType::Griffin,
        DieType::Mermaid,
        DieType::Red,
        DieType::Yellow,
        DieType::Purple,
        DieType::Gray,
    ]);
    let ghost d0 = digits@;
    let ghost e0 = dice@;
    let n = digits.len();
    let mut pos = n;
    while pos > 0
        invariant
            all@ == seq![
                DieType::Minotaur,
                DieType::Griffin,
                DieType::Mermaid,
                DieType::Red,
                DieType::Yellow,
                DieType::Purple,
                DieType::Gray,
            ],
            n == d0.len() == e0.len(),
            d0 == old(digits)@,
            e0 == old(dice)@,
            base7_digits(d0),
            0 <= pos <= n,
            digits.len() == n,
            dice.len() == n,
            forall|i: int| 0 <= i < pos ==> #[trigger] digits[i] == d0[i],
            forall|i: int| 0 <= i < pos ==> #[trigger] dice[i] == e0[i],
            forall|i: int| pos <= i < n ==> #[trigger] d0[i] == 6,
            forall|i: int| pos <= i < n ==> #[trigger] digits[i] == 0,
            forall|i: int| pos <= i < n ==> #[trigger] dice[i] == die_at(0),
        decreases pos,
    {
        pos = pos - 1;
        let next = digits[pos] + 1;
        if next < 7 {
            digits[pos] = next;
            dice[pos] = all[next];
            proof {
                lemma_next_digits_carry(d0, pos as int);
                assert(digits@ =~= d0.subrange(0, pos as int).push((d0[pos as int] + 1) as usize)
                    + Seq::new((n - pos - 1) as nat, |i: int| 0usize));
            }
            return ;
        }
        digits[pos] = 0;
        dice[pos] = all[0];
    }
    proof {
        lemma_next_digits_wrap(d0);
        assert(digits@ =~= Seq::new(n as nat, |i: int| 0usize));
    }
}

// ── Building and reading the table ───────────────────────────────────────────

/// Where the win count of seat `target` for the sequence with code `code`
/// stands in the table of `n`-seat sequences.
pub open spec fn reference_slot(code: int, n: int, target: int) -> int {
    code * n + target
}

/// `row` holds, for each of the `7^n` die sequences of `n` seats (by code)
/// and each seat, the number of the `6^n` face outcomes that seat wins.
pub open spec fn is_win_count_row(row: Seq<u64>, n: nat) -> bool {
    &&& row.len() == pow7(n) * n
    &&& forall|code: int, t: int|
        0 <= code < pow7(n) && 0 <= t < n ==> #[trigger] row[reference_slot(code, n as int, t)]
            == win_count_spec(decode_sequence(code, n), t)
}

proof fn lemma_pow7_bounds(k: nat)
    requires
        k <= 6,
    ensures
        1 <= pow7(k) <= 117649,
        pow7(k) * k <= 705894,
{
    reveal_with_fuel(pow7, 7);
    assert(k == 0 || k == 1 || k == 2 || k == 3 || k == 4 || k == 5 || k == 6);
}

proof fn lemma_slot_bounds(code: int, n: int, t: int, total: int)
    requires
        0 <= code < total,
        0 <= t < n,
    ensures
        0 <= reference_slot(code, n, t) < total * n,
        reference_slot(code, n, t) < (code + 1) * n,
        code * n <= reference_slot(code, n, t),
{
    assert(0 <= code * n) by (nonlinear_arith)
        requires
            0 <= code,
            0 <= n,
    ;
    assert((code + 1) * n <= total * n) by (nonlinear_arith)
        requires
            code + 1 <= total,
            0 <= n,
    ;
    assert((code + 1) * n == code * n + n) by (nonlinear_arith);
}

/// The win counts of every seat for every ordered assignment of die types to
/// `n` seats: the counts for the sequence with code `c` (its base-7 digits
/// naming positions in `DieType::ALL`) stand at `c * n .. c * n + n`.
pub fn single_trick_reference_counts(n: usize) -> (row: Vec<u64>)
    requires
        1 <= n <= 6,
    ensures
        is_win_count_row(row@, n as nat),
{
    proof {
        lemma_pow7_bounds(n as nat);
    }
    let mut seq_count: usize = 1;
    let mut k: usize = 0;
    while k < n
        invariant
            0 <= k <= n <= 6,
            seq_count == pow7(k as nat),
        decreases n - k,
    {
        proof {
            lemma_pow7_bounds((k + 1) as nat);
        }
        seq_count = seq_count * 7;
        k = k + 1;
    }
    let mut table: Vec<u64> = Vec::new();
    let mut die_digits: Vec<usize> = vec![0usize; n];
    let mut seq_dice: Vec<DieType> = vec![DieType::Minotaur; n];
    proof {
        assert(seq_dice@ =~= die_digits@.map_values(|x: usize| die_at(x as int)));
        assert(digits_value(die_digits@) == 0) by {
            lemma_zero_digits_value(die_digits@);
        }
    }
    let mut seq_idx: usize = 0;
    while seq_idx < seq_count
        invariant
            1 <= n <= 6,
            seq_count == pow7(n as nat),
            0 <= seq_idx <= seq_count,
            die_digits.len() == n,
            base7_digits(die_digits@),
            seq_idx < seq_count ==> digits_value(die_digits@) == seq_idx,
            seq_dice@ =~= die_digits@.map_values(|x: usize| die_at(x as int)),
            table.len() == seq_idx * n,
            forall|code: int, t: int|
                0 <= code < seq_idx && 0 <= t < n ==> #[trigger] table@[reference_slot(
                    code,
                    n as int,
                    t,
                )] == win_count_spec(decode_sequence(code, n as nat), t),
        decreases seq_count - seq_idx,
    {
        proof {
            lemma_digits_decode(die_digits@);
            lemma_pow7_bounds(n as nat);
        }
        let probs = winning_outcome_counts(seq_dice.as_slice());
        let ghost before = table@;
        let mut t: usize = 0;
        while t < n
            invariant
                1 <= n <= 6,
                seq_count == pow7(n as nat),
                0 <= seq_idx < seq_count,
                0 <= t <= n,
                probs.len() == n,
                forall|s: int| 0 <= s < n ==> #[trigger] probs[s] == win_count_spec(seq_dice@, s),
                seq_dice@ =~= decode_sequence(seq_idx as int, n as nat),
                before.len() == seq_idx * n,
                table.len() == seq_idx * n + t,
                forall|i: int| 0 <= i < before.len() ==> #[trigger] table@[i] == before[i],
                forall|s: int|
                    0 <= s < t ==> #[trigger] table@[reference_slot(seq_idx as int, n as int, s)]
                        == win_count_spec(seq_dice@, s),
            decreases n - t,
        {
            proof {
                assert((seq_idx + 1) * n <= seq_count * n) by (nonlinear_arith)
                    requires
                        seq_idx + 1 <= seq_count,
                ;
                assert((seq_idx + 1) * n == seq_idx * n + n) by (nonlinear_arith);
                lemma_pow7_bounds(n as nat);
            }
            table.push(probs[t]);
            t = t + 1;
        }
        proof {
            assert forall|code: int, s: int|
                0 <= code < seq_idx + 1 && 0 <= s < n implies #[trigger] table@[reference_slot(
                code,
                n as int,
                s,
            )] == win_count_spec(decode_sequence(code, n as nat), s) by {
                lemma_slot_bounds(code, n as int, s, seq_idx + 1);
                if code < seq_idx {
                    lemma_slot_bounds(code, n as int, s, seq_idx as int);
                    assert(reference_slot(code, n as int, s) < seq_idx * n) by (nonlinear_arith)
                        requires
                            reference_slot(code, n as int, s) < (code + 1) * n,
                            code + 1 <= seq_idx,
                            0 <= n,
                    ;
                    assert(table@[reference_slot(code, n as int, s)] == before[reference_slot(
                        code,
                        n as int,
                        s,
                    )]);
                }
            }
            assert(table.len() == (seq_idx + 1) * n) by (nonlinear_arith)
                requires
                    table.len() == seq_idx * n + n,
            ;
        }
        if seq_idx + 1 < seq_count {
            proof {
                lemma_next_digits_value(die_digits@);
                lemma_digits_value_bound(die_digits@);
            }
            let ghost old_digits = die_digits@;
            let ghost old_dice = seq_dice@;
            increment_base7_digits(die_digits.as_mut_slice(), seq_dice.as_mut_slice());
            proof {
                vstd::arithmetic::div_mod::lemma_small_mod(
                    (seq_idx + 1) as nat,
                    seq_count as nat,
                );
                assert forall|i: int| 0 <= i < n implies #[trigger] seq_dice@[i] == die_at(
                    die_digits@[i] as int,
                ) by {
                    assert(old_dice[i] == die_at(old_digits[i] as int));
                }
            }
        }
        seq_idx = seq_idx + 1;
    }
    table
}

proof fn lemma_zero_digits_value(d: Seq<usize>)
    requires
        forall|i: int| 0 <= i < d.len() ==> #[trigger] d[i] == 0,
    ensures
        digits_value(d) == 0,
    decreases d.len(),
{
    if d.len() > 0 {
        let e = d.drop_last();
        assert forall|i: int| 0 <= i < e.len() implies #[trigger] e[i] == 0 by {
            assert(d[i] == 0);
        }
        lemma_zero_digits_value(e);
    }
}

/// The table `table[n]` of win counts for each player count `n` from 3 to 6;
/// the rows for fewer than three players are empty.
pub open spec fn is_win_count_table(table: Seq<Vec<u64>>) -> bool {
    &&& table.len() == 7
    &&& forall|n: int| 0 <= n < 3 ==> #[trigger] table[n]@.len() == 0
    &&& forall|n: int| 3 <= n <= 6 ==> is_win_count_row(#[trigger] table[n]@, n as nat)
}

/// Builds the win-count table for three to six players.
pub fn build_single_trick_reference_table() -> (table: Vec<Vec<u64>>)
    ensures
        is_win_count_table(table@),
{
    let mut table: Vec<Vec<u64>> = Vec::new();
    table.push(Vec::new());
    table.push(Vec::new());
    table.push(Vec::new());
    let mut n: usize = 3;
    while n <= 6
        invariant
            3 <= n <= 7,
            table.len() == n,
            forall|m: int| 0 <= m < 3 ==> #[trigger] table@[m]@.len() == 0,
            forall|m: int| 3 <= m < n ==> is_win_count_row(#[trigger] table@[m]@, m as nat),
        decreases 7 - n,
    {
        let row = single_trick_reference_counts(n);
        table.push(row);
        n = n + 1;
    }
    table
}

/// The shape of a table with a row of `7^n * n` entries for each player count
/// `n` from 3 to 6.
pub open spec fn has_table_shape(table: Seq<Vec<u64>>) -> bool {
    &&& table.len() == 7
    &&& forall|n: int| 3 <= n <= 6 ==> (#[trigger] table[n]).len() == pow7(n as nat) * (n as nat)
}

/// Reads the entry for seat `target_idx` of the die sequence `all_dice` from
/// a table laid out as `build_single_trick_reference_table` builds it. There
/// is none for fewer than three or more than six dice, or for a seat beyond
/// the last.
pub fn lookup_single_trick_reference(
    table: &Vec<Vec<u64>>,
    all_dice: &[DieType],
    target_idx: usize,
) -> (r: Option<u64>)
    requires
        has_table_shape(table@),
    ensures
        r is Some <==> 3 <= all_dice.len() <= 6 && target_idx < all_dice.len(),
        r is Some ==> r == Some(
            table@[all_dice.len() as int]@[reference_slot(
                sequence_code(all_dice@),
                all_dice.len() as int,
                target_idx as int,
            )],
        ),
        r is Some && is_win_count_table(table@) ==> r == Some(
            win_count_spec(all_dice@, target_idx as int) as u64,
        ),
{
    let n = all_dice.len();
    if n < 3 || n > 6 || target_idx >= n {
        return None;
    }
    proof {
        lemma_decode_sequence_code(all_dice@);
        lemma_pow7_bounds(n as nat);
    }
    let seq_idx = match crate::trick::encode_die_sequence(all_dice) {
        Some(code) => code,
        None => {
            return None;
        },
    };
    proof {
        lemma_slot_bounds(seq_idx as int, n as int, target_idx as int, pow7(n as nat) as int);
    }
    let row = &table[n];
    Some(row[seq_idx * n + target_idx])
}


// ── Rows of a stored table ───────────────────────────────────────────────────

/// One stored row of win counts: for the `player_count`-seat sequence with
/// code `seq_idx`, seat `k` wins `counts[k]` of `denominator` outcomes.
#[derive(Debug, Clone, Copy)]
pub struct ReferenceRow {
    pub player_count: i64,
    pub seq_idx: i64,
    pub counts: [i64; 6],
    pub denominator: i64,
}

/// The number of sequences of three to six seats.
proof fn lemma_pow7_small()
    ensures
        pow7(3) == 343,
        pow7(4) == 2401,
        pow7(5) == 16807,
        pow7(6) == 117649,
{
    reveal_with_fuel(pow7, 7);
}

/// A row names three to six seats, a sequence code below `7^n`, and a
/// positive denominator.
pub open spec fn reference_row_valid(row: ReferenceRow) -> bool {
    &&& 3 <= row.player_count <= 6
    &&& 0 <= row.seq_idx < pow7(row.player_count as nat)
    &&& row.denominator > 0
}

/// Whether `row` is the row for the `n`-seat sequence with code `s`.
pub open spec fn row_is_for(row: ReferenceRow, n: int, s: int) -> bool {
    row.player_count == n && row.seq_idx == s
}

/// The index of the last row for the `n`-seat sequence with code `s`, or -1.
pub open spec fn last_row_index(rows: Seq<ReferenceRow>, n: int, s: int) -> int
    decreases rows.len(),
{
    if rows.len() == 0 {
        -1
    } else if row_is_for(rows.last(), n, s) {
        rows.len() - 1
    } else {
        last_row_index(rows.drop_last(), n, s)
    }
}

/// Some row is for the `n`-seat sequence with code `s`.
pub open spec fn has_row(rows: Seq<ReferenceRow>, n: int, s: int) -> bool {
    exists|i: int| 0 <= i < rows.len() && #[trigger] row_is_for(rows[i], n, s)
}

/// Every sequence of three to six seats has a row.
pub open spec fn rows_complete(rows: Seq<ReferenceRow>) -> bool {
    forall|n: int, s: int| 3 <= n <= 6 && 0 <= s < pow7(n as nat) ==> #[trigger] has_row(rows, n, s)
}

/// What a table built from `rows` holds for seat `k` of the `n`-seat
/// sequence with code `s`: the count and denominator of the last row for
/// that sequence, or `(0, 0)` while there is none.
pub open spec fn slot_entry(rows: Seq<ReferenceRow>, n: int, s: int, k: int) -> (i64, i64) {
    let j = last_row_index(rows, n, s);
    if j < 0 {
        (0i64, 0i64)
    } else {
        (rows[j].counts[k], rows[j].denominator)
    }
}

/// `t` is the `n`-seat part of the table built from `rows`.
pub open spec fn table_part_from_rows(t: Seq<(i64, i64)>, rows: Seq<ReferenceRow>, n: int) -> bool {
    &&& t.len() == pow7(n as nat) * n
    &&& forall|s: int, k: int|
        0 <= s < pow7(n as nat) && 0 <= k < n ==> #[trigger] t[reference_slot(s, n, k)]
            == slot_entry(rows, n, s, k)
}

/// The last row for a sequence is a row for it, no later row is, and there
/// is one exactly when some row is for it.
proof fn lemma_last_row_index(rows: Seq<ReferenceRow>, n: int, s: int)
    ensures
        -1 <= last_row_index(rows, n, s) < rows.len(),
        last_row_index(rows, n, s) >= 0 ==> row_is_for(rows[last_row_index(rows, n, s)], n, s),
        forall|i: int|
            last_row_index(rows, n, s) < i < rows.len() ==> !row_is_for(#[trigger] rows[i], n, s),
        last_row_index(rows, n, s) >= 0 <==> has_row(rows, n, s),
    decreases rows.len(),
{
    if rows.len() > 0 {
        let d = rows.drop_last();
        lemma_last_row_index(d, n, s);
        if !row_is_for(rows.last(), n, s) {
            assert forall|i: int|
                last_row_index(rows, n, s) < i < rows.len() implies !row_is_for(
                #[trigger] rows[i],
                n,
                s,
            ) by {
                if i < rows.len() - 1 {
                    assert(rows[i] == d[i]);
                }
            }
            if exists|i: int| 0 <= i < rows.len() && #[trigger] row_is_for(rows[i], n, s) {
                let i = choose|i: int| 0 <= i < rows.len() && #[trigger] row_is_for(rows[i], n, s);
                assert(i < rows.len() - 1);
                assert(row_is_for(d[i], n, s));
            }
            if last_row_index(rows, n, s) >= 0 {
                let j = last_row_index(d, n, s);
                assert(rows[j] == d[j]);
            }
        }
    }
}

/// Two seats of two sequences share a slot only if they are the same.
proof fn lemma_slot_injective(n: int, s1: int, k1: int, s2: int, k2: int)
    requires
        0 <= s1,
        0 <= s2,
        0 <= k1 < n,
        0 <= k2 < n,
        reference_slot(s1, n, k1) == reference_slot(s2, n, k2),
    ensures
        s1 == s2,
        k1 == k2,
{
    if s1 < s2 {
        assert(s1 * n + n <= s2 * n) by (nonlinear_arith)
            requires
                s1 + 1 <= s2,
                0 <= n,
        ;
    } else if s2 < s1 {
        assert(s2 * n + n <= s1 * n) by (nonlinear_arith)
            requires
                s2 + 1 <= s1,
                0 <= n,
        ;
    }
}

/// A row for other seats leaves the `n`-seat part as it was.
proof fn lemma_table_part_other_row(
    t: Seq<(i64, i64)>,
    rows: Seq<ReferenceRow>,
    row: ReferenceRow,
    n: int,
)
    requires
        table_part_from_rows(t, rows, n),
        row.player_count != n,
    ensures
        table_part_from_rows(t, rows.push(row), n),
{
    let rs = rows.push(row);
    assert(rs.drop_last() =~= rows);
    assert forall|s: int, k: int| 0 <= s < pow7(n as nat) && 0 <= k < n implies #[trigger] t[reference_slot(s, n, k)]
        == slot_entry(rs, n, s, k) by {
        assert(!row_is_for(rs.last(), n, s));
        assert(last_row_index(rs, n, s) == last_row_index(rows, n, s));
        lemma_last_row_index(rows, n, s);
        let j = last_row_index(rows, n, s);
        if j >= 0 {
            assert(rs[j] == rows[j]);
        }
    }
}

/// `(0, 0)` in every slot of the `n`-seat part.
fn empty_table_part(n: usize, seq_count: usize) -> (t: Vec<(i64, i64)>)
    requires
        3 <= n <= 6,
        seq_count == pow7(n as nat),
    ensures
        table_part_from_rows(t@, Seq::empty(), n as int),
{
    proof {
        lemma_pow7_bounds(n as nat);
    }
    let total = seq_count * n;
    let mut t: Vec<(i64, i64)> = Vec::new();
    let mut i: usize = 0;
    while i < total
        invariant
            0 <= i <= total,
            total == seq_count * n,
            t.len() == i,
            forall|j: int| 0 <= j < i ==> #[trigger] t[j] == (0i64, 0i64),
        decreases total - i,
    {
        t.push((0i64, 0i64));
        i = i + 1;
    }
    proof {
        assert forall|s: int, k: int| 0 <= s < pow7(n as nat) && 0 <= k < n implies #[trigger] t@[reference_slot(s, n as int, k)]
            == slot_entry(Seq::empty(), n as int, s, k) by {
            lemma_slot_bounds(s, n as int, k, seq_count as int);
        }
    }
    t
}

/// Writes `row` into the part of its seat count.
fn write_row(t: &mut Vec<(i64, i64)>, rows: Ghost<Seq<ReferenceRow>>, row: ReferenceRow)
    requires
        reference_row_valid(row),
        table_part_from_rows(old(t)@, rows@, row.player_count as int),
    ensures
        table_part_from_rows(final(t)@, rows@.push(row), row.player_count as int),
{
    let n = row.player_count as usize;
    let s = row.seq_idx as usize;
    let ghost old_t = t@;
    let ghost total = pow7(n as nat) as int;
    proof {
        lemma_pow7_bounds(n as nat);
        lemma_slot_bounds(s as int, n as int, 0, total);
        lemma_slot_bounds(s as int, n as int, n - 1, total);
    }
    let base = s * n;
    let mut k: usize = 0;
    while k < n
        invariant
            0 <= k <= n <= 6,
            n == row.player_count,
            s == row.seq_idx,
            0 <= s < total,
            base == s * n,
            base + n <= total * n,
            t.len() == old_t.len(),
            old_t.len() == total * n,
            forall|j: int|
                0 <= j < t.len() ==> #[trigger] t[j] == if base <= j < base + k {
                    (row.counts[j - base], row.denominator)
                } else {
                    old_t[j]
                },
        decreases n - k,
    {
        t.set(base + k, (row.counts[k], row.denominator));
        k = k + 1;
    }
    proof {
        let rs = rows@.push(row);
        assert(rs.drop_last() =~= rows@);
        assert forall|s2: int, k2: int| 0 <= s2 < pow7(n as nat) && 0 <= k2 < n implies #[trigger] t@[reference_slot(s2, n as int, k2)]
            == slot_entry(rs, n as int, s2, k2) by {
            lemma_slot_bounds(s2, n as int, k2, total);
            let j = reference_slot(s2, n as int, k2);
            if s2 == s {
                assert(base <= j < base + n);
                assert(j - base == k2);
                assert(row_is_for(rs.last(), n as int, s2));
                assert(last_row_index(rs, n as int, s2) == rows@.len());
                assert(rs[rows@.len() as int] == row);
            } else {
                if base <= j < base + n {
                    lemma_slot_injective(n as int, s2, k2, s as int, j - base);
                }
                assert(t@[j] == old_t[j]);
                assert(old_t[reference_slot(s2, n as int, k2)] == slot_entry(rows@, n as int, s2, k2));
                assert(!row_is_for(rs.last(), n as int, s2));
                assert(last_row_index(rs, n as int, s2) == last_row_index(rows@, n as int, s2));
                lemma_last_row_index(rows@, n as int, s2);
                let jj = last_row_index(rows@, n as int, s2);
                if jj >= 0 {
                    assert(rs[jj] == rows@[jj]);
                }
            }
        }
    }
}

/// The table of win counts read back from stored rows: entry `s * n + k` of
/// part `n` holds the count and denominator of seat `k` in the last row for
/// the `n`-seat sequence with code `s`. `None` when a row is malformed or
/// some sequence of three to six seats has no row.
pub fn reference_table_from_rows(rows: &[ReferenceRow]) -> (r: Option<Vec<Vec<(i64, i64)>>>)
    ensures
        r is None <==> (exists|i: int| 0 <= i < rows.len() && !reference_row_valid(#[trigger] rows[i]))
            || !rows_complete(rows@),
        r matches Some(t) ==> {
            &&& t.len() == 7
            &&& forall|n: int| 0 <= n < 3 ==> (#[trigger] t[n]).len() == 0
            &&& forall|n: int| 3 <= n <= 6 ==> (#[trigger] t[n]).len() == pow7(n as nat) * n
            &&& forall|n: int, s: int, k: int|
                3 <= n <= 6 && 0 <= s < pow7(n as nat) && 0 <= k < n ==> {
                    let j = last_row_index(rows@, n, s);
                    &&& 0 <= j < rows.len()
                    &&& row_is_for(rows[j], n, s)
                    &&& #[trigger] t[n][s * n + k] == (rows[j].counts[k], rows[j].denominator)
                }
        },
{
    proof {
        lemma_pow7_bounds(3);
        lemma_pow7_bounds(4);
        lemma_pow7_bounds(5);
        lemma_pow7_bounds(6);
        reveal_with_fuel(pow7, 7);
    }
    let mut t3 = empty_table_part(3, 343);
    let mut t4 = empty_table_part(4, 2401);
    let mut t5 = empty_table_part(5, 16807);
    let mut t6 = empty_table_part(6, 117649);
    let mut i: usize = 0;
    while i < rows.len()
        invariant
            0 <= i <= rows.len(),
            forall|m: int| 0 <= m < i ==> reference_row_valid(#[trigger] rows[m]),
            table_part_from_rows(t3@, rows@.subrange(0, i as int), 3),
            table_part_from_rows(t4@, rows@.subrange(0, i as int), 4),
            table_part_from_rows(t5@, rows@.subrange(0, i as int), 5),
            table_part_from_rows(t6@, rows@.subrange(0, i as int), 6),
        decreases rows.len() - i,
    {
        let row = rows[i];
        let pc = row.player_count;
        proof {
            lemma_pow7_small();
        }
        if pc < 3 || pc > 6 || row.denominator <= 0 || row.seq_idx < 0 {
            proof {
                assert(!reference_row_valid(rows[i as int]));
            }
            return None;
        }
        let limit: i64 = if pc == 3 {
            343
        } else if pc == 4 {
            2401
        } else if pc == 5 {
            16807
        } else {
            117649
        };
        assert(limit == pow7(pc as nat));
        if row.seq_idx >= limit {
            proof {
                assert(!reference_row_valid(rows[i as int]));
            }
            return None;
        }
        let ghost pre = rows@.subrange(0, i as int);
        proof {
            assert(rows@.subrange(0, i + 1) =~= pre.push(row));
        }
        if pc == 3 {
            write_row(&mut t3, Ghost(pre), row);
        } else {
            proof { lemma_table_part_other_row(t3@, pre, row, 3); }
        }
        if pc == 4 {
            write_row(&mut t4, Ghost(pre), row);
        } else {
            proof { lemma_table_part_other_row(t4@, pre, row, 4); }
        }
        if pc == 5 {
            write_row(&mut t5, Ghost(pre), row);
        } else {
            proof { lemma_table_part_other_row(t5@, pre, row, 5); }
        }
        if pc == 6 {
            write_row(&mut t6, Ghost(pre), row);
        } else {
            proof { lemma_table_part_other_row(t6@, pre, row, 6); }
        }
        i = i + 1;
    }
    proof {
        assert(rows@.subrange(0, rows.len() as int) =~= rows@);
    }
    let c3 = table_part_complete(&t3, 3, 343, Ghost(rows@));
    let c4 = table_part_complete(&t4, 4, 2401, Ghost(rows@));
    let c5 = table_part_complete(&t5, 5, 16807, Ghost(rows@));
    let c6 = table_part_complete(&t6, 6, 117649, Ghost(rows@));
    if !(c3 && c4 && c5 && c6) {
        proof {
            let n: int = if !c3 {
                3
            } else if !c4 {
                4
            } else if !c5 {
                5
            } else {
                6
            };
            let s = choose|s: int| 0 <= s < pow7(n as nat) && last_row_index(rows@, n, s) < 0;
            lemma_last_row_index(rows@, n, s);
            assert(!has_row(rows@, n, s));
        }
        return None;
    }
    proof {
        assert forall|n: int, s: int| 3 <= n <= 6 && 0 <= s < pow7(n as nat) implies #[trigger] has_row(
            rows@,
            n,
            s,
        ) by {
            lemma_last_row_index(rows@, n, s);
        }
        assert forall|n: int, s: int| 3 <= n <= 6 && 0 <= s < pow7(n as nat) implies 0
            <= #[trigger] last_row_index(rows@, n, s) < rows.len() && row_is_for(
            rows[last_row_index(rows@, n, s)],
            n,
            s,
        ) by {
            lemma_last_row_index(rows@, n, s);
        }
    }
    let ghost parts = seq![t3@, t4@, t5@, t6@];
    let mut table: Vec<Vec<(i64, i64)>> = Vec::new();
    table.push(Vec::new());
    table.push(Vec::new());
    table.push(Vec::new());
    table.push(t3);
    table.push(t4);
    table.push(t5);
    table.push(t6);
    proof {
        assert forall|n: int| 3 <= n <= 6 implies table_part_from_rows(
            #[trigger] table[n]@,
            rows@,
            n,
        ) by {
            assert(table[n]@ == parts[n - 3]);
        }
        assert forall|n: int, s: int, k: int|
            3 <= n <= 6 && 0 <= s < pow7(n as nat) && 0 <= k < n implies #[trigger] table[n][s * n
            + k] == (rows[last_row_index(rows@, n, s)].counts[k], rows[last_row_index(
            rows@,
            n,
            s,
        )].denominator) by {
            assert(table_part_from_rows(table[n]@, rows@, n));
            assert(table[n]@[reference_slot(s, n, k)] == slot_entry(rows@, n, s, k));
        }
    }
    Some(table)
}

/// Whether every sequence of the `n`-seat part has a row; with every row
/// valid, a sequence has one exactly when its first slot has a positive
/// denominator.
fn table_part_complete(
    t: &Vec<(i64, i64)>,
    n: usize,
    seq_count: usize,
    rows: Ghost<Seq<ReferenceRow>>,
) -> (r: bool)
    requires
        3 <= n <= 6,
        seq_count == pow7(n as nat),
        table_part_from_rows(t@, rows@, n as int),
        forall|m: int| 0 <= m < rows@.len() ==> reference_row_valid(#[trigger] rows@[m]),
    ensures
        r <==> forall|s: int| 0 <= s < pow7(n as nat) ==> last_row_index(rows@, n as int, s) >= 0,
{
    proof {
        lemma_pow7_bounds(n as nat);
    }
    let mut s: usize = 0;
    while s < seq_count
        invariant
            0 <= s <= seq_count == pow7(n as nat),
            3 <= n <= 6,
            pow7(n as nat) * n <= 705894,
            table_part_from_rows(t@, rows@, n as int),
            forall|m: int| 0 <= m < rows@.len() ==> reference_row_valid(#[trigger] rows@[m]),
            forall|s2: int| 0 <= s2 < s ==> last_row_index(rows@, n as int, s2) >= 0,
        decreases seq_count - s,
    {
        proof {
            lemma_slot_bounds(s as int, n as int, 0, seq_count as int);
            lemma_last_row_index(rows@, n as int, s as int);
            assert(t@[reference_slot(s as int, n as int, 0)] == slot_entry(rows@, n as int, s as int, 0));
        }
        if t[s * n].1 == 0 {
            return false;
        }
        s = s + 1;
    }
    true
}

} // verus!
