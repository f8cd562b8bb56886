//! Binomial coefficients and the unordered opponent hands that can be drawn
//! from what is left in the bag.

use vstd::prelude::*;

use crate::dice::{DieType, die_at};
use crate::round::{remaining_counts_after_removing_hand, within_bag};

verus! {

// ── Binomial coefficients ────────────────────────────────────────────────────

/// The number of ways to choose `k` of `n` items (Pascal's rule).
pub open spec fn binom(n: nat, k: nat) -> nat
    decreases n,
{
    if k == 0 {
        1
    } else if n == 0 {
        0
    } else {
        binom((n - 1) as nat, (k - 1) as nat) + binom((n - 1) as nat, k)
    }
}

/// There is no way to choose more items than there are.
pub proof fn lemma_binom_zero_above(n: nat, k: nat)
    requires
        k > n,
    ensures
        binom(n, k) == 0,
    decreases n,
{
    if n > 0 {
        lemma_binom_zero_above((n - 1) as nat, (k - 1) as nat);
        lemma_binom_zero_above((n - 1) as nat, k);
    }
}

/// There is one way to choose all items.
pub proof fn lemma_binom_all(n: nat)
    ensures
        binom(n, n) == 1,
    decreases n,
{
    if n > 0 {
        lemma_binom_all((n - 1) as nat);
        lemma_binom_zero_above((n - 1) as nat, n);
    }
}

/// Choosing `k` items is choosing the `n - k` left out.
pub proof fn lemma_binom_symmetric(n: nat, k: nat)
    requires
        k <= n,
    ensures
        binom(n, k) == binom(n, (n - k) as nat),
    decreases n,
{
    if k == 0 {
        lemma_binom_all(n);
    } else if k == n {
        lemma_binom_all(n);
    } else {
        lemma_binom_symmetric((n - 1) as nat, (k - 1) as nat);
        lemma_binom_symmetric((n - 1) as nat, k);
        assert(binom(n, (n - k) as nat) == binom((n - 1) as nat, (n - k - 1) as nat) + binom(
            (n - 1) as nat,
            (n - k) as nat,
        ));
    }
}

/// `(i + 1) C(n, i + 1) == (n - i) C(n, i)`: the step from one binomial
/// coefficient to the next.
pub proof fn lemma_binom_step(n: nat, i: nat)
    ensures
        (i + 1) * binom(n, i + 1) == (n - i) * binom(n, i),
    decreases n,
{
    if n == 0 {
        lemma_binom_zero_above(0, i + 1);
        if i > 0 {
            lemma_binom_zero_above(0, i);
            assert((0 - i) * binom(0, i) == 0) by (nonlinear_arith)
                requires
                    binom(0, i) == 0,
            ;
        }
        assert((i + 1) * binom(0, i + 1) == 0) by (nonlinear_arith)
            requires
                binom(0, i + 1) == 0,
        ;
    } else {
        let m = (n - 1) as nat;
        lemma_binom_step(m, i);
        if i == 0 {
            assert(binom(n, 1) == binom(m, 0) + binom(m, 1));
            assert(binom(n, 0) == 1);
            assert(binom(m, 1) == m) by (nonlinear_arith)
                requires
                    (0 + 1) * binom(m, 0 + 1) == (m - 0) * binom(m, 0),
                    binom(m, 0) == 1,
            ;
            assert((0 + 1) * binom(n, 0 + 1) == (n - 0) * binom(n, 0)) by (nonlinear_arith)
                requires
                    binom(n, 1) == n,
                    binom(n, 0) == 1,
            ;
        } else {
            lemma_binom_step(m, (i - 1) as nat);
            let a = binom(m, (i - 1) as nat);
            let b = binom(m, i);
            let c = binom(m, i + 1);
            assert(binom(n, i) == a + b);
            assert(binom(n, i + 1) == b + c);
            assert((i + 1) * (b + c) == (n - i) * (a + b)) by (nonlinear_arith)
                requires
                    (i + 1) * c == (m - i) * b,
                    i * b == (m - (i - 1)) * a,
                    m == n - 1,
            ;
        }
    }
}

/// Two to the power `n`.
pub open spec fn pow2(n: nat) -> nat
    decreases n,
{
    if n == 0 {
        1
    } else {
        2 * pow2((n - 1) as nat)
    }
}

proof fn lemma_binom_below_pow2(n: nat, k: nat)
    ensures
        binom(n, k) <= pow2(n),
    decreases n,
{
    lemma_pow2_monotone(0, n);
    if n > 0 && k > 0 {
        lemma_binom_below_pow2((n - 1) as nat, (k - 1) as nat);
        lemma_binom_below_pow2((n - 1) as nat, k);
    }
}

proof fn lemma_pow2_add10(a: nat)
    ensures
        pow2(a + 10) == 1024 * pow2(a),
{
    reveal_with_fuel(pow2, 11);
    let b = (a + 10) as nat;
    assert(pow2(b) == 2 * pow2((b - 1) as nat));
    assert(pow2((b - 1) as nat) == 2 * pow2((b - 2) as nat));
    assert(pow2((b - 2) as nat) == 2 * pow2((b - 3) as nat));
    assert(pow2((b - 3) as nat) == 2 * pow2((b - 4) as nat));
    assert(pow2((b - 4) as nat) == 2 * pow2((b - 5) as nat));
    assert(pow2((b - 5) as nat) == 2 * pow2((b - 6) as nat));
    assert(pow2((b - 6) as nat) == 2 * pow2((b - 7) as nat));
    assert(pow2((b - 7) as nat) == 2 * pow2((b - 8) as nat));
    assert(pow2((b - 8) as nat) == 2 * pow2((b - 9) as nat));
    assert(pow2((b - 9) as nat) == 2 * pow2(a));
}

/// `2^100`, the largest power of two asked for here.
proof fn lemma_pow2_100()
    ensures
        pow2(100) == 1267650600228229401496703205376,
{
    lemma_pow2_add10(0);
    lemma_pow2_add10(10);
    lemma_pow2_add10(20);
    lemma_pow2_add10(30);
    lemma_pow2_add10(40);
    lemma_pow2_add10(50);
    lemma_pow2_add10(60);
    lemma_pow2_add10(70);
    lemma_pow2_add10(80);
    lemma_pow2_add10(90);
}

proof fn lemma_pow2_monotone(a: nat, b: nat)
    requires
        a <= b,
    ensures
        1 <= pow2(a) <= pow2(b),
    decreases b,
{
    if a < b {
        lemma_pow2_monotone(a, (b - 1) as nat);
    } else if a > 0 {
        lemma_pow2_monotone((a - 1) as nat, (b - 1) as nat);
    }
}

/// The number of ways to choose `k` of `n` items. Intermediate products stay
/// below `2^n * n`, which fits in a `u128` for the at most 100 items asked
/// for here.
pub fn combinations(n: usize, k: usize) -> (r: u128)
    requires
        n <= 100,
    ensures
        r == binom(n as nat, k as nat),
{
    if k > n {
        proof {
            lemma_binom_zero_above(n as nat, k as nat);
        }
        return 0;
    }
    let k2 = if k < n - k {
        k
    } else {
        n - k
    };
    proof {
        lemma_binom_symmetric(n as nat, k as nat);
        lemma_pow2_monotone(n as nat, 100);
        lemma_pow2_100();
    }
    let mut result: u128 = 1;
    let mut i: usize = 0;
    while i < k2
        invariant
            n <= 100,
            k2 <= n,
            0 <= i <= k2,
            pow2(n as nat) <= 1267650600228229401496703205376,
            result == binom(n as nat, i as nat),
        decreases k2 - i,
    {
        proof {
            lemma_binom_step(n as nat, i as nat);
            lemma_binom_below_pow2(n as nat, (i + 1) as nat);
            let b = binom(n as nat, (i + 1) as nat);
            assert((i + 1) * b <= 100 * 1267650600228229401496703205376) by (nonlinear_arith)
                requires
                    b <= 1267650600228229401496703205376,
                    i + 1 <= 100,
            ;
            assert(result * (n - i) == (i + 1) * b);
        }
        let prod = result * ((n - i) as u128);
        proof {
            assert(prod / ((i + 1) as u128) == binom(n as nat, (i + 1) as nat)) by (nonlinear_arith)
                requires
                    prod == (i + 1) * binom(n as nat, (i + 1) as nat),
                    i + 1 > 0,
            ;
        }
        result = prod / ((i + 1) as u128);
        i = i + 1;
    }
    result
}

// ── Unordered opponent hands ─────────────────────────────────────────────────

/// Every way to split `slots` dice among the die types `i..7` with at most
/// `rem[t]` of type `t`: the lists of counts for those types, in increasing
/// lexicographic order.
pub open spec fn pattern_suffixes(rem: Seq<usize>, i: int, slots: nat) -> Seq<Seq<usize>>
    decreases 6 - i, slots + 2,
{
    if i >= 6 {
        if slots <= rem[6] {
            seq![seq![slots as usize]]
        } else {
            Seq::empty()
        }
    } else {
        pattern_takes(rem, i, slots, 0)
    }
}

/// The splits whose count of type `i` is `take` or more.
pub open spec fn pattern_takes(rem: Seq<usize>, i: int, slots: nat, take: nat) -> Seq<Seq<usize>>
    decreases 6 - i, slots + 1 - take,
{
    if i >= 6 || take > slots || take > rem[i] {
        Seq::empty()
    } else {
        pattern_suffixes(rem, i + 1, (slots - take) as nat).map_values(
            |s: Seq<usize>| seq![take as usize] + s,
        ) + pattern_takes(rem, i, slots, take + 1)
    }
}

/// The dice of a hand with `c[t]` dice of type `DieType::ALL[t]` for `t < k`,
/// types in that order.
pub open spec fn expand_counts(c: Seq<usize>, k: int) -> Seq<DieType>
    decreases k,
{
    if k <= 0 {
        Seq::empty()
    } else {
        expand_counts(c, k - 1) + Seq::new(c[k - 1] as nat, |j: int| die_at(k - 1))
    }
}

/// The number of ways to draw a hand with `c[t]` dice of type `t < k` from
/// a bag holding `rem[t]` of each.
pub open spec fn pattern_weight(rem: Seq<usize>, c: Seq<usize>, k: int) -> nat
    decreases k,
{
    if k <= 0 {
        1
    } else {
        pattern_weight(rem, c, k - 1) * binom(rem[k - 1] as nat, c[k - 1] as nat)
    }
}

/// An unordered opponent hand, its dice in the order of `DieType::ALL`, and
/// the number of ways to draw it from what is left in the bag.
pub struct HandPatternWeight {
    pub hand: Vec<DieType>,
    pub weight: u128,
}

/// `rem` holds no more of each type than the bag does.
pub open spec fn within_bag_counts(rem: Seq<usize>) -> bool {
    &&& rem.len() == 7
    &&& forall|t: int| 0 <= t < 7 ==> #[trigger] rem[t] <= die_at(t).spec_bag_count()
}

/// `entries` describe the hands with counts `prefix + s` for each `s` of
/// `suffixes`, in that order.
pub open spec fn describes_patterns(
    entries: Seq<HandPatternWeight>,
    rem: Seq<usize>,
    prefix: Seq<usize>,
    suffixes: Seq<Seq<usize>>,
) -> bool {
    &&& entries.len() == suffixes.len()
    &&& forall|j: int|
        0 <= j < suffixes.len() ==> {
            let c = prefix + #[trigger] suffixes[j];
            &&& entries[j].hand@ == expand_counts(c, 7)
            &&& entries[j].weight == pattern_weight(rem, c, 7)
        }
}

/// `256^k`.
spec fn pow256(k: int) -> int
    decreases k,
{
    if k <= 0 {
        1
    } else {
        256 * pow256(k - 1)
    }
}

proof fn lemma_pow256_bound(k: int)
    requires
        0 <= k <= 7,
    ensures
        1 <= pow256(k) <= 72057594037927936,
{
    reveal_with_fuel(pow256, 8);
    assert(k == 0 || k == 1 || k == 2 || k == 3 || k == 4 || k == 5 || k == 6 || k == 7);
}

/// The hand and the weight of the counts `counts`.
fn hand_pattern_entry(remaining_counts: &Vec<usize>, counts: &Vec<usize>) -> (r: HandPatternWeight)
    requires
        within_bag_counts(remaining_counts@),
        counts.len() == 7,
    ensures
        r.hand@ == expand_counts(counts@, 7),
        r.weight == pattern_weight(remaining_counts@, counts@, 7),
{
    let all = DieType::ALL;
    assert(all@ == seq![
        DieType::Minotaur,
        DieType::Griffin,
        DieType::Mermaid,
        DieType::Red,
        DieType::Yellow,
        DieType::Purple,
        DieType::Gray,
    ]);
    let mut numer: u128 = 1;
    let mut hand: Vec<DieType> = Vec::new();
    let mut i: usize = 0;
    while i < 7
        invariant
            all@ == seq![
                DieType::Minotaur,
                DieType::Griffin,
                DieType::Mermaid,
                DieType::Red,
                DieType::Yellow,
                DieType::Purple,
                DieType::Gray,
            ],
            within_bag_counts(remaining_counts@),
            counts.len() == 7,
            0 <= i <= 7,
            numer == pattern_weight(remaining_counts@, counts@, i as int),
            numer <= pow256(i as int),
            hand@ == expand_counts(counts@, i as int),
        decreases 7 - i,
    {
        let rc = remaining_counts[i];
        let b = combinations(rc, counts[i]);
        proof {
            lemma_binom_below_pow2(rc as nat, counts@[i as int] as nat);
            lemma_pow2_monotone(rc as nat, 8);
            reveal_with_fuel(pow2, 9);
            lemma_pow256_bound(i as int + 1);
            assert(numer * b <= pow256(i as int) * 256) by (nonlinear_arith)
                requires
                    numer <= pow256(i as int),
                    b <= 256,
            ;
        }
        numer = numer * b;
        let ghost before = hand@;
        let mut j: usize = 0;
        while j < counts[i]
            invariant
                all@ == seq![
                    DieType::Minotaur,
                    DieType::Griffin,
                    DieType::Mermaid,
                    DieType::Red,
                    DieType::Yellow,
                    DieType::Purple,
                    DieType::Gray,
                ],
                counts.len() == 7,
                0 <= i < 7,
                0 <= j <= counts[i as int],
                hand@ == before + Seq::new(j as nat, |x: int| die_at(i as int)),
            decreases counts[i as int] - j,
        {
            hand.push(all[i]);
            j = j + 1;
            proof {
                assert(hand@ =~= before + Seq::new(j as nat, |x: int| die_at(i as int)));
            }
        }
        i = i + 1;
    }
    HandPatternWeight { hand, weight: numer }
}

/// Appends to `out`, for every split of `remaining_slots` dice among the die
/// types `index..7` (at most `remaining_counts[t]` of type `t`, in increasing
/// lexicographic order), the hand whose counts are `counts[..index]`
/// followed by that split, with the number of ways to draw it.
fn enumerate_hand_patterns(
    remaining_counts: &Vec<usize>,
    index: usize,
    remaining_slots: usize,
    counts: &mut Vec<usize>,
    out: &mut Vec<HandPatternWeight>,
)
    requires
        within_bag_counts(remaining_counts@),
        index <= 6,
        old(counts).len() == 7,
    ensures
        final(counts).len() == 7,
        final(counts)@.subrange(0, index as int) == old(counts)@.subrange(0, index as int),
        final(out).len() >= old(out).len(),
        final(out)@.subrange(0, old(out).len() as int) == old(out)@,
        describes_patterns(
            final(out)@.subrange(old(out).len() as int, final(out).len() as int),
            remaining_counts@,
            old(counts)@.subrange(0, index as int),
            pattern_suffixes(remaining_counts@, index as int, remaining_slots as nat),
        ),
    decreases 6 - index,
{
    let ghost prefix = counts@.subrange(0, index as int);
    let ghost out0 = out@;
    if index == 6 {
        if remaining_slots <= remaining_counts[index] {
            counts[index] = remaining_slots;
            let entry = hand_pattern_entry(remaining_counts, counts);
            out.push(entry);
            proof {
                assert(counts@ =~= prefix + seq![remaining_slots]);
                let suffixes = pattern_suffixes(remaining_counts@, 6, remaining_slots as nat);
                assert(suffixes == seq![seq![remaining_slots]]);
                assert(out@.subrange(0, out0.len() as int) =~= out0);
                assert(out@.subrange(out0.len() as int, out@.len() as int) =~= seq![entry]);
                assert(counts@.subrange(0, 6) =~= prefix);
            }
        } else {
            proof {
                assert(out@.subrange(0, out0.len() as int) =~= out0);
                assert(out@.subrange(out0.len() as int, out@.len() as int) =~= Seq::<
                    HandPatternWeight,
                >::empty());
            }
        }
        return ;
    }
    let max_take = if remaining_slots < remaining_counts[index] {
        remaining_slots
    } else {
        remaining_counts[index]
    };
    let mut take: usize = 0;
    while take <= max_take
        invariant
            within_bag_counts(remaining_counts@),
            index < 6,
            max_take <= remaining_slots,
            max_take <= remaining_counts[index as int],
            max_take == remaining_slots || max_take == remaining_counts[index as int],
            0 <= take <= max_take + 1,
            counts.len() == 7,
            counts@.subrange(0, index as int) == prefix,
            prefix.len() == index,
            out.len() >= out0.len(),
            out@.subrange(0, out0.len() as int) == out0,
            out0 == old(out)@,
            prefix == old(counts)@.subrange(0, index as int),
            pattern_suffixes(remaining_counts@, index as int, remaining_slots as nat)
                == pattern_takes(remaining_counts@, index as int, remaining_slots as nat, 0),
            ({
                let done = pattern_takes(remaining_counts@, index as int, remaining_slots as nat, 0);
                let rest = pattern_takes(
                    remaining_counts@,
                    index as int,
                    remaining_slots as nat,
                    take as nat,
                );
                &&& done.len() >= rest.len()
                &&& describes_patterns(
                    out@.subrange(out0.len() as int, out@.len() as int),
                    remaining_counts@,
                    prefix,
                    done.subrange(0, done.len() - rest.len()),
                )
                &&& rest == done.subrange(done.len() - rest.len(), done.len() as int)
            }),
        decreases max_take + 1 - take,
    {
        let ghost done = pattern_takes(remaining_counts@, index as int, remaining_slots as nat, 0);
        let ghost rest = pattern_takes(
            remaining_counts@,
            index as int,
            remaining_slots as nat,
            take as nat,
        );
        let ghost out1 = out@;
        counts[index] = take;
        let ghost prefix2 = counts@.subrange(0, index as int + 1);
        enumerate_hand_patterns(remaining_counts, index + 1, remaining_slots - take, counts, out);
        proof {
            let inner = pattern_suffixes(
                remaining_counts@,
                index as int + 1,
                (remaining_slots - take) as nat,
            );
            let mapped = inner.map_values(|s: Seq<usize>| seq![take as usize] + s);
            let rest2 = pattern_takes(
                remaining_counts@,
                index as int,
                remaining_slots as nat,
                (take + 1) as nat,
            );
            assert(rest == mapped + rest2);
            assert(rest.len() == mapped.len() + rest2.len());
            assert(prefix2 =~= prefix.push(take));
            assert(counts@.subrange(0, index as int) =~= counts@.subrange(
                0,
                index as int + 1,
            ).subrange(0, index as int));
            let new_entries = out@.subrange(out1.len() as int, out@.len() as int);
            assert(out@.subrange(0, out1.len() as int) == out1);
            let k0 = (done.len() - rest.len()) as int;
            let all_entries = out@.subrange(out0.len() as int, out@.len() as int);
            let old_entries = out1.subrange(out0.len() as int, out1.len() as int);
            assert(all_entries =~= old_entries + new_entries);
            assert forall|x: int| k0 <= x < k0 + mapped.len() implies done[x] == mapped[x - k0] by {
                assert(rest[x - k0] == done[x]);
                assert(rest[x - k0] == mapped[x - k0]);
            }
            assert(done.subrange(0, k0 + mapped.len()) =~= done.subrange(0, k0) + mapped);
            assert forall|x: int| 0 <= x < rest2.len() implies rest2[x] == done[k0 + mapped.len() + x] by {
                assert(rest[mapped.len() + x] == rest2[x]);
                assert(rest[mapped.len() + x] == done[k0 + mapped.len() + x]);
            }
            assert(rest2 =~= done.subrange(k0 + mapped.len(), done.len() as int));
            assert forall|j: int| 0 <= j < k0 + mapped.len() implies {
                let c = prefix + #[trigger] done.subrange(0, k0 + mapped.len())[j];
                &&& all_entries[j].hand@ == expand_counts(c, 7)
                &&& all_entries[j].weight == pattern_weight(remaining_counts@, c, 7)
            } by {
                if j < k0 {
                    assert(done.subrange(0, k0 + mapped.len())[j] == done.subrange(0, k0)[j]);
                    assert(all_entries[j] == old_entries[j]);
                } else {
                    let jj = j - k0;
                    assert(done.subrange(0, k0 + mapped.len())[j] == mapped[jj]);
                    assert(all_entries[j] == new_entries[jj]);
                    assert(prefix + mapped[jj] =~= prefix2 + inner[jj]);
                }
            }
            assert(out@.subrange(0, out0.len() as int) =~= out0);
        }
        take = take + 1;
    }
    proof {
        let done = pattern_takes(remaining_counts@, index as int, remaining_slots as nat, 0);
        let rest = pattern_takes(
            remaining_counts@,
            index as int,
            remaining_slots as nat,
            take as nat,
        );
        assert(rest == Seq::<Seq<usize>>::empty());
        assert(done.subrange(0, done.len() - rest.len()) =~= done);
    }
}

/// Every unordered hand of `hand_size` dice that can be drawn from the bag
/// once `player_hand` is out of it, with the number of ways to draw it; none
/// when `hand_size` is zero or more dice than are left. Divided by the
/// number of ways to draw any `hand_size` of the dice left, the weights are
/// the hands' probabilities.
pub fn opponent_hand_pattern_weights(player_hand: &[DieType], hand_size: usize) -> (r: Vec<
    HandPatternWeight,
>)
    requires
        within_bag(player_hand@),
    ensures
        hand_size == 0 || hand_size + player_hand.len() > 36 ==> r.len() == 0,
        hand_size > 0 && hand_size + player_hand.len() <= 36 ==> describes_patterns(
            r@,
            crate::bag_draws::remaining_counts_spec(player_hand@),
            Seq::empty(),
            pattern_suffixes(
                crate::bag_draws::remaining_counts_spec(player_hand@),
                0,
                hand_size as nat,
            ),
        ),
        hand_size > 0 && hand_size + player_hand.len() <= 36 ==> entries_weight(r@) == binom(
            (36 - player_hand.len()) as nat,
            hand_size as nat,
        ),
{
    if hand_size == 0 {
        return Vec::new();
    }
    let remaining_counts = remaining_counts_after_removing_hand(player_hand);
    proof {
        assert(remaining_counts@ =~= crate::bag_draws::remaining_counts_spec(player_hand@));
        crate::bag_draws::lemma_remaining_counts_total(player_hand@, remaining_counts@);
    }
    let mut remaining_total: usize = 0;
    let mut i: usize = 0;
    while i < 7
        invariant
            0 <= i <= 7,
            remaining_counts.len() == 7,
            forall|t: int| 0 <= t < 7 ==> #[trigger] remaining_counts[t] <= 8,
            remaining_total == crate::bag_draws::prefix_count(remaining_counts@, i as int),
            remaining_total <= 8 * i,
        decreases 7 - i,
    {
        remaining_total = remaining_total + remaining_counts[i];
        i = i + 1;
    }
    if hand_size > remaining_total {
        return Vec::new();
    }
    let mut counts: Vec<usize> = vec![0usize; 7];
    let mut patterns: Vec<HandPatternWeight> = Vec::new();
    enumerate_hand_patterns(&remaining_counts, 0, hand_size, &mut counts, &mut patterns);
    proof {
        assert(patterns@.subrange(0, patterns@.len() as int) =~= patterns@);
        assert(counts@.subrange(0, 0) =~= Seq::<usize>::empty());
        lemma_pattern_weights_total(remaining_counts@, hand_size as nat);
        lemma_pattern_suffixes_len(remaining_counts@, 0, hand_size as nat);
        lemma_entries_weight(
            patterns@,
            remaining_counts@,
            pattern_suffixes(remaining_counts@, 0, hand_size as nat),
        );
    }
    patterns
}

// ── The hypergeometric weights add up ────────────────────────────────────────

/// The number of ways to draw the counts `s` of the die types `i, i + 1, ...`
/// from a bag holding `rem[t]` of each.
pub open spec fn suffix_weight(rem: Seq<usize>, i: int, s: Seq<usize>) -> nat
    decreases s.len(),
{
    if s.len() == 0 {
        1
    } else {
        binom(rem[i] as nat, s[0] as nat) * suffix_weight(rem, i + 1, s.drop_first())
    }
}

/// The weights of a list of count suffixes, added up.
pub open spec fn suffixes_weight(rem: Seq<usize>, i: int, list: Seq<Seq<usize>>) -> nat
    decreases list.len(),
{
    if list.len() == 0 {
        0
    } else {
        suffixes_weight(rem, i, list.drop_last()) + suffix_weight(rem, i, list.last())
    }
}

/// The number of dice of the types `i..7`.
pub open spec fn rem_from(rem: Seq<usize>, i: int) -> nat
    decreases 7 - i,
{
    if i >= 7 {
        0
    } else {
        rem[i] as nat + rem_from(rem, i + 1)
    }
}

/// `sum` over `k` from `take` to `min(s, a)` of `C(a, k) C(b, s - k)`.
pub open spec fn take_sum(a: nat, b: nat, s: nat, take: nat) -> nat
    decreases s + 1 - take,
{
    if take > s || take > a {
        0
    } else {
        binom(a, take) * binom(b, (s - take) as nat) + take_sum(a, b, s, take + 1)
    }
}

/// `sum` over `j < k` of `C(a, j) C(b, s - j)`.
spec fn fsum(a: nat, b: nat, s: nat, k: nat) -> nat
    decreases k,
{
    if k == 0 {
        0
    } else {
        fsum(a, b, s, (k - 1) as nat) + binom(a, (k - 1) as nat) * binom(b, (s - (k - 1)) as nat)
    }
}

proof fn lemma_suffixes_weight_concat(
    rem: Seq<usize>,
    i: int,
    x: Seq<Seq<usize>>,
    y: Seq<Seq<usize>>,
)
    ensures
        suffixes_weight(rem, i, x + y) == suffixes_weight(rem, i, x) + suffixes_weight(rem, i, y),
    decreases y.len(),
{
    if y.len() == 0 {
        assert(x + y =~= x);
    } else {
        lemma_suffixes_weight_concat(rem, i, x, y.drop_last());
        assert((x + y).drop_last() =~= x + y.drop_last());
    }
}

proof fn lemma_suffixes_weight_prepend(rem: Seq<usize>, i: int, k: usize, list: Seq<Seq<usize>>)
    ensures
        suffixes_weight(rem, i, list.map_values(|s: Seq<usize>| seq![k] + s)) == binom(
            rem[i] as nat,
            k as nat,
        ) * suffixes_weight(rem, i + 1, list),
    decreases list.len(),
{
    let mapped = list.map_values(|s: Seq<usize>| seq![k] + s);
    let b = binom(rem[i] as nat, k as nat);
    if list.len() > 0 {
        lemma_suffixes_weight_prepend(rem, i, k, list.drop_last());
        assert(mapped.drop_last() =~= list.drop_last().map_values(|s: Seq<usize>| seq![k] + s));
        let last = list.last();
        assert((seq![k] + last).drop_first() =~= last);
        assert(suffix_weight(rem, i, seq![k] + last) == b * suffix_weight(rem, i + 1, last));
        let w = suffixes_weight(rem, i + 1, list.drop_last());
        let v = suffix_weight(rem, i + 1, last);
        assert(b * w + b * v == b * (w + v)) by (nonlinear_arith);
    } else {
        assert(b * 0 == 0) by (nonlinear_arith);
    }
}

/// Every split of dice among the types `i..7` lists `7 - i` counts.
proof fn lemma_pattern_suffixes_len(rem: Seq<usize>, i: int, slots: nat)
    requires
        0 <= i <= 6,
    ensures
        forall|j: int|
            0 <= j < pattern_suffixes(rem, i, slots).len() ==> (#[trigger] pattern_suffixes(
                rem,
                i,
                slots,
            )[j]).len() == 7 - i,
    decreases 6 - i, slots + 2,
{
    if i < 6 {
        lemma_pattern_takes_len(rem, i, slots, 0);
        assert(pattern_suffixes(rem, i, slots) == pattern_takes(rem, i, slots, 0));
    } else if slots <= rem[6] {
        let l = seq![seq![slots as usize]];
        assert(pattern_suffixes(rem, 6, slots) == l);
        assert(l[0].len() == 1);
    }
}

proof fn lemma_pattern_takes_len(rem: Seq<usize>, i: int, slots: nat, take: nat)
    requires
        0 <= i < 6,
    ensures
        forall|j: int|
            0 <= j < pattern_takes(rem, i, slots, take).len() ==> (#[trigger] pattern_takes(
                rem,
                i,
                slots,
                take,
            )[j]).len() == 7 - i,
    decreases 6 - i, slots + 1 - take,
{
    if !(take > slots || take > rem[i]) {
        lemma_pattern_suffixes_len(rem, i + 1, (slots - take) as nat);
        lemma_pattern_takes_len(rem, i, slots, take + 1);
        let inner = pattern_suffixes(rem, i + 1, (slots - take) as nat);
        let mapped = inner.map_values(|s: Seq<usize>| seq![take as usize] + s);
        let rest = pattern_takes(rem, i, slots, take + 1);
        assert forall|j: int| 0 <= j < (mapped + rest).len() implies (#[trigger] (mapped
            + rest)[j]).len() == 7 - i by {
            if j < mapped.len() {
                assert(mapped[j] == seq![take as usize] + inner[j]);
            } else {
                assert((mapped + rest)[j] == rest[j - mapped.len()]);
            }
        }
    }
}

proof fn lemma_fsum_step(a: nat, b: nat, s: nat, k: nat)
    requires
        1 <= k <= s + 1,
        s >= 1,
    ensures
        fsum(a + 1, b, s, k) == fsum(a, b, s, k) + fsum(a, b, (s - 1) as nat, (k - 1) as nat),
    decreases k,
{
    if k == 1 {
        reveal_with_fuel(fsum, 2);
        assert(fsum(a + 1, b, s, 1) == binom(a + 1, 0) * binom(b, s));
        assert(fsum(a, b, s, 1) == binom(a, 0) * binom(b, s));
    } else {
        lemma_fsum_step(a, b, s, (k - 1) as nat);
        let j = (k - 1) as nat;
        assert(binom(a + 1, j) == binom(a, (j - 1) as nat) + binom(a, j));
        let x = binom(a, (j - 1) as nat);
        let y = binom(a, j);
        let z = binom(b, (s - j) as nat);
        assert((s - 1 - (j - 1)) as nat == (s - j) as nat);
        assert((x + y) * z == x * z + y * z) by (nonlinear_arith);
    }
}

proof fn lemma_fsum_zero_a(b: nat, s: nat, k: nat)
    requires
        1 <= k <= s + 1,
    ensures
        fsum(0, b, s, k) == binom(b, s),
    decreases k,
{
    reveal_with_fuel(fsum, 2);
    if k == 1 {
        assert(binom(0, 0) == 1);
        assert(1 * binom(b, s) == binom(b, s)) by (nonlinear_arith);
    }
    if k > 1 {
        lemma_fsum_zero_a(b, s, (k - 1) as nat);
        lemma_binom_zero_above(0, (k - 1) as nat);
        assert(0 * binom(b, (s - (k - 1)) as nat) == 0) by (nonlinear_arith);
    }
}

/// Vandermonde's identity: `sum_j C(a, j) C(b, s - j) == C(a + b, s)`.
proof fn lemma_vandermonde(a: nat, b: nat, s: nat)
    ensures
        fsum(a, b, s, s + 1) == binom(a + b, s),
    decreases a,
{
    if a == 0 {
        lemma_fsum_zero_a(b, s, s + 1);
    } else {
        let a0 = (a - 1) as nat;
        lemma_vandermonde(a0, b, s);
        if s == 0 {
            reveal_with_fuel(fsum, 2);
            assert(fsum(a, b, 0, 1) == binom(a, 0) * binom(b, 0));
        } else {
            lemma_vandermonde(a0, b, (s - 1) as nat);
            lemma_fsum_step(a0, b, s, s + 1);
            assert(binom(a + b, s) == binom((a0 + b) as nat, (s - 1) as nat) + binom(
                (a0 + b) as nat,
                s,
            ));
        }
    }
}

/// Terms beyond `a` vanish, so the partial sums stop growing there.
proof fn lemma_fsum_flat(a: nat, b: nat, s: nat, t: nat, k: nat)
    requires
        a < t <= k,
    ensures
        fsum(a, b, s, k) == fsum(a, b, s, t),
    decreases k,
{
    if k > t {
        lemma_fsum_flat(a, b, s, t, (k - 1) as nat);
        lemma_binom_zero_above(a, (k - 1) as nat);
        assert(0 * binom(b, (s - (k - 1)) as nat) == 0) by (nonlinear_arith);
    }
}

proof fn lemma_take_sum_tail(a: nat, b: nat, s: nat, take: nat)
    requires
        take <= s + 1,
    ensures
        take_sum(a, b, s, take) + fsum(a, b, s, take) == fsum(a, b, s, s + 1),
    decreases s + 1 - take,
{
    if take > s {
    } else if take > a {
        lemma_fsum_flat(a, b, s, take, s + 1);
    } else {
        lemma_take_sum_tail(a, b, s, take + 1);
    }
}

/// The truncated sum is the whole Vandermonde sum.
proof fn lemma_take_sum_vandermonde(a: nat, b: nat, s: nat)
    ensures
        take_sum(a, b, s, 0) == binom(a + b, s),
{
    lemma_take_sum_tail(a, b, s, 0);
    lemma_vandermonde(a, b, s);
}

/// The weights of all splits among the types `i..7` add up to the number of
/// ways to draw `slots` of the dice of those types.
proof fn lemma_pattern_suffixes_weight(rem: Seq<usize>, i: int, slots: nat)
    requires
        rem.len() == 7,
        0 <= i <= 6,
    ensures
        suffixes_weight(rem, i, pattern_suffixes(rem, i, slots)) == binom(rem_from(rem, i), slots),
    decreases 6 - i, slots + 2,
{
    if i == 6 {
        reveal_with_fuel(rem_from, 2);
        reveal_with_fuel(suffix_weight, 2);
        reveal_with_fuel(suffixes_weight, 2);
        assert(rem_from(rem, 6) == rem[6] as nat);
        if slots <= rem[6] {
            let s = seq![slots as usize];
            assert(s.drop_first() =~= Seq::<usize>::empty());
            assert(suffix_weight(rem, 6, s) == binom(rem[6] as nat, slots) * 1);
            assert(seq![s].drop_last() =~= Seq::<Seq<usize>>::empty());
        } else {
            lemma_binom_zero_above(rem[6] as nat, slots);
        }
    } else {
        lemma_pattern_takes_weight(rem, i, slots, 0);
        lemma_take_sum_vandermonde(rem[i] as nat, rem_from(rem, i + 1), slots);
    }
}

proof fn lemma_pattern_takes_weight(rem: Seq<usize>, i: int, slots: nat, take: nat)
    requires
        rem.len() == 7,
        0 <= i < 6,
    ensures
        suffixes_weight(rem, i, pattern_takes(rem, i, slots, take)) == take_sum(
            rem[i] as nat,
            rem_from(rem, i + 1),
            slots,
            take,
        ),
    decreases 6 - i, slots + 1 - take,
{
    if !(take > slots || take > rem[i]) {
        lemma_pattern_suffixes_weight(rem, i + 1, (slots - take) as nat);
        lemma_pattern_takes_weight(rem, i, slots, take + 1);
        let inner = pattern_suffixes(rem, i + 1, (slots - take) as nat);
        let mapped = inner.map_values(|s: Seq<usize>| seq![take as usize] + s);
        let rest = pattern_takes(rem, i, slots, take + 1);
        lemma_suffixes_weight_concat(rem, i, mapped, rest);
        lemma_suffixes_weight_prepend(rem, i, take as usize, inner);
    }
}

proof fn lemma_pattern_weight_split(rem: Seq<usize>, c: Seq<usize>, i: int)
    requires
        c.len() == 7,
        0 <= i <= 7,
    ensures
        pattern_weight(rem, c, 7) == pattern_weight(rem, c, i) * suffix_weight(
            rem,
            i,
            c.subrange(i, 7),
        ),
    decreases 7 - i,
{
    if i == 7 {
        assert(c.subrange(7, 7) =~= Seq::<usize>::empty());
        assert(pattern_weight(rem, c, 7) * 1 == pattern_weight(rem, c, 7));
    } else {
        lemma_pattern_weight_split(rem, c, i + 1);
        assert(c.subrange(i, 7).drop_first() =~= c.subrange(i + 1, 7));
        let p = pattern_weight(rem, c, i);
        let b = binom(rem[i] as nat, c[i] as nat);
        let w = suffix_weight(rem, i + 1, c.subrange(i + 1, 7));
        assert((p * b) * w == p * (b * w)) by (nonlinear_arith);
    }
}

proof fn lemma_rem_from_total(rem: Seq<usize>, k: int)
    requires
        rem.len() == 7,
        0 <= k <= 7,
    ensures
        crate::bag_draws::prefix_count(rem, k) + rem_from(rem, k) == rem_from(rem, 0),
    decreases k,
{
    if k > 0 {
        lemma_rem_from_total(rem, k - 1);
    }
}

/// The weights of a list of hand entries, added up.
pub open spec fn entries_weight(entries: Seq<HandPatternWeight>) -> int
    decreases entries.len(),
{
    if entries.len() == 0 {
        0
    } else {
        entries_weight(entries.drop_last()) + entries.last().weight
    }
}

proof fn lemma_entries_weight(
    entries: Seq<HandPatternWeight>,
    rem: Seq<usize>,
    list: Seq<Seq<usize>>,
)
    requires
        describes_patterns(entries, rem, Seq::empty(), list),
        forall|j: int| 0 <= j < list.len() ==> (#[trigger] list[j]).len() == 7,
    ensures
        entries_weight(entries) == suffixes_weight(rem, 0, list),
    decreases list.len(),
{
    if list.len() > 0 {
        let e = entries.drop_last();
        let l = list.drop_last();
        assert forall|j: int| 0 <= j < l.len() implies {
            let c = Seq::<usize>::empty() + #[trigger] l[j];
            &&& e[j].hand@ == expand_counts(c, 7)
            &&& e[j].weight == pattern_weight(rem, c, 7)
        } by {
            assert(l[j] == list[j]);
            assert(e[j] == entries[j]);
        }
        lemma_entries_weight(e, rem, l);
        let last = list.last();
        assert(list[list.len() - 1] == last);
        assert(Seq::<usize>::empty() + last =~= last);
        lemma_pattern_weight_split(rem, last, 0);
        assert(last.subrange(0, 7) =~= last);
        assert(pattern_weight(rem, last, 0) == 1);
        let w = suffix_weight(rem, 0, last);
        assert(1 * w == w) by (nonlinear_arith);
        assert(entries.last().weight == pattern_weight(rem, last, 7));
    }
}

/// The multivariate hypergeometric weights of all hands of `slots` dice add
/// up to the number of ways to draw any `slots` of the dice left: the hands'
/// probabilities sum to one.
pub proof fn lemma_pattern_weights_total(rem: Seq<usize>, slots: nat)
    requires
        rem.len() == 7,
    ensures
        suffixes_weight(rem, 0, pattern_suffixes(rem, 0, slots)) == binom(
            crate::bag_draws::prefix_count(rem, 7) as nat,
            slots,
        ),
        forall|j: int|
            0 <= j < pattern_suffixes(rem, 0, slots).len() ==> pattern_weight(
                rem,
                #[trigger] pattern_suffixes(rem, 0, slots)[j],
                7,
            ) == suffix_weight(rem, 0, pattern_suffixes(rem, 0, slots)[j]),
{
    lemma_pattern_suffixes_weight(rem, 0, slots);
    lemma_rem_from_total(rem, 7);
    assert(rem_from(rem, 7) == 0);
    lemma_pattern_suffixes_len(rem, 0, slots);
    let list = pattern_suffixes(rem, 0, slots);
    assert forall|j: int| 0 <= j < list.len() implies pattern_weight(
        rem,
        #[trigger] list[j],
        7,
    ) == suffix_weight(rem, 0, list[j]) by {
        assert(list[j].len() == 7);
        lemma_pattern_weight_split(rem, list[j], 0);
        assert(list[j].subrange(0, 7) =~= list[j]);
        let w = suffix_weight(rem, 0, list[j]);
        assert(pattern_weight(rem, list[j], 0) == 1);
        assert(1 * w == w) by (nonlinear_arith);
    }
}


// ── Ranking opponent hands ───────────────────────────────────────────────────

/// The place of a die type's name in alphabetical order: Gray, Griffin,
/// Mermaid, Minotaur, Purple, Red, Yellow.
pub open spec fn name_rank(d: DieType) -> int {
    match d {
        DieType::Gray => 0,
        DieType::Griffin => 1,
        DieType::Mermaid => 2,
        DieType::Minotaur => 3,
        DieType::Purple => 4,
        DieType::Red => 5,
        DieType::Yellow => 6,
    }
}

fn die_name_rank(d: DieType) -> (r: u8)
    ensures
        r == name_rank(d),
{
    match d {
        DieType::Gray => 0,
        DieType::Griffin => 1,
        DieType::Mermaid => 2,
        DieType::Minotaur => 3,
        DieType::Purple => 4,
        DieType::Red => 5,
        DieType::Yellow => 6,
    }
}

/// Whether the names of `a` from position `i` on come before those of `b`
/// in dictionary order (a hand that runs out first comes first).
pub open spec fn names_before_from(a: Seq<DieType>, b: Seq<DieType>, i: int) -> bool
    decreases a.len() - i,
{
    if i >= a.len() {
        i < b.len()
    } else if i >= b.len() {
        false
    } else if name_rank(a[i]) != name_rank(b[i]) {
        name_rank(a[i]) < name_rank(b[i])
    } else {
        names_before_from(a, b, i + 1)
    }
}

/// Whether `a` comes before `b` when ranked: more ways to draw it first,
/// then fewer dice, then its die names in dictionary order.
pub open spec fn pattern_before(a: (Seq<DieType>, u128), b: (Seq<DieType>, u128)) -> bool {
    ||| a.1 > b.1
    ||| a.1 == b.1 && a.0.len() < b.0.len()
    ||| a.1 == b.1 && a.0.len() == b.0.len() && names_before_from(a.0, b.0, 0)
}

/// The hands and weights of `v`.
pub open spec fn patterns_view(v: Seq<HandPatternWeight>) -> Seq<(Seq<DieType>, u128)> {
    Seq::new(v.len(), |i: int| (v[i].hand@, v[i].weight))
}

fn names_before(a: &[DieType], b: &[DieType]) -> (r: bool)
    ensures
        r == names_before_from(a@, b@, 0),
{
    let mut i: usize = 0;
    while i < a.len() && i < b.len()
        invariant
            0 <= i <= a.len(),
            i <= b.len(),
            names_before_from(a@, b@, 0) == names_before_from(a@, b@, i as int),
        decreases a.len() - i,
    {
        let ra = die_name_rank(a[i]);
        let rb = die_name_rank(b[i]);
        if ra != rb {
            return ra < rb;
        }
        i = i + 1;
    }
    i < b.len()
}

fn pattern_comes_first(a: &HandPatternWeight, b: &HandPatternWeight) -> (r: bool)
    ensures
        r == pattern_before((a.hand@, a.weight), (b.hand@, b.weight)),
{
    if a.weight != b.weight {
        return a.weight > b.weight;
    }
    if a.hand.len() != b.hand.len() {
        return a.hand.len() < b.hand.len();
    }
    names_before(a.hand.as_slice(), b.hand.as_slice())
}

/// The first `limit` of `patterns` in ranked order: a permutation of the
/// patterns is split into the result and the rest, the result in order, and
/// nothing left out comes before anything kept.
pub fn rank_hand_patterns(patterns: Vec<HandPatternWeight>, limit: usize) -> (r: Vec<
    HandPatternWeight,
>)
    ensures
        r.len() == if limit < patterns.len() {
            limit as int
        } else {
            patterns.len() as int
        },
        forall|i: int, j: int|
            0 <= i < j < r.len() ==> !pattern_before(
                #[trigger] patterns_view(r@)[j],
                #[trigger] patterns_view(r@)[i],
            ),
        exists|rest: Seq<(Seq<DieType>, u128)>|
            {
                &&& #[trigger] (patterns_view(r@) + rest).to_multiset() == patterns_view(
                    patterns@,
                ).to_multiset()
                &&& forall|x: int, y: int|
                    0 <= x < rest.len() && 0 <= y < r.len() ==> !pattern_before(
                        #[trigger] rest[x],
                        #[trigger] patterns_view(r@)[y],
                    )
            },
{
    let ghost input = patterns_view(patterns@);
    let mut rest = patterns;
    let mut out: Vec<HandPatternWeight> = Vec::new();
    proof {
        assert(patterns_view(out@) + patterns_view(rest@) =~= input);
    }
    while out.len() < limit && rest.len() > 0
        invariant
            (patterns_view(out@) + patterns_view(rest@)).to_multiset() == input.to_multiset(),
            out.len() + rest.len() == input.len(),
            out.len() <= limit,
            forall|i: int, j: int|
                0 <= i < j < out.len() ==> !pattern_before(
                    #[trigger] patterns_view(out@)[j],
                    #[trigger] patterns_view(out@)[i],
                ),
            forall|x: int, y: int|
                0 <= x < rest.len() && 0 <= y < out.len() ==> !pattern_before(
                    #[trigger] patterns_view(rest@)[x],
                    #[trigger] patterns_view(out@)[y],
                ),
        decreases rest.len(),
    {
        let mut best: usize = 0;
        let mut j: usize = 1;
        proof {
            lemma_names_before_irreflexive(patterns_view(rest@)[0].0, 0);
        }
        while j < rest.len()
            invariant
                0 <= best < rest.len(),
                1 <= j <= rest.len(),
                forall|x: int|
                    0 <= x < j ==> !pattern_before(
                        #[trigger] patterns_view(rest@)[x],
                        patterns_view(rest@)[best as int],
                    ),
            decreases rest.len() - j,
        {
            if pattern_comes_first(&rest[j], &rest[best]) {
                proof {
                    lemma_pattern_before_asymmetric_chain(patterns_view(rest@), best as int, j as int);
                }
                best = j;
            }
            j = j + 1;
        }
        let ghost ov = patterns_view(out@);
        let ghost rv = patterns_view(rest@);
        let picked = rest.remove(best);
        out.push(picked);
        proof {
            broadcast use vstd::seq_lib::group_to_multiset_ensures, vstd::multiset::group_multiset_axioms;

            let e = rv[best as int];
            assert(patterns_view(rest@) =~= rv.remove(best as int));
            assert(patterns_view(out@) =~= ov.push(e));
            vstd::seq_lib::lemma_multiset_commutative(ov, rv);
            vstd::seq_lib::lemma_multiset_commutative(ov.push(e), rv.remove(best as int));
            vstd::seq_lib::to_multiset_remove(rv, best as int);
            assert(rv[best as int] == e);
            assert(rv.contains(e));
            assert(rv.to_multiset().count(e) > 0);
            assert(ov.push(e).to_multiset() =~= ov.to_multiset().insert(e));
            assert(rv.remove(best as int).to_multiset().insert(e) =~= rv.to_multiset());
            assert((patterns_view(out@) + patterns_view(rest@)).to_multiset() =~= (ov
                + rv).to_multiset());
            assert forall|i: int, k: int|
                0 <= i < k < out.len() implies !pattern_before(
                #[trigger] patterns_view(out@)[k],
                #[trigger] patterns_view(out@)[i],
            ) by {
                if k < out.len() - 1 {
                    assert(patterns_view(out@)[k] == ov[k]);
                    assert(patterns_view(out@)[i] == ov[i]);
                } else {
                    assert(patterns_view(out@)[i] == ov[i]);
                    assert(rv[best as int] == e);
                }
            }
            assert forall|x: int, y: int|
                0 <= x < rest.len() && 0 <= y < out.len() implies !pattern_before(
                #[trigger] patterns_view(rest@)[x],
                #[trigger] patterns_view(out@)[y],
            ) by {
                let xi = if x < best {
                    x
                } else {
                    x + 1
                };
                assert(patterns_view(rest@)[x] == rv[xi]);
                if y < out.len() - 1 {
                    assert(patterns_view(out@)[y] == ov[y]);
                }
            }
        }
    }
    proof {
        assert(rest.len() == 0 ==> patterns_view(rest@) =~= Seq::<(Seq<DieType>, u128)>::empty());
    }
    out
}

/// `top` is the first `limit` of `all` in ranked order: in order itself,
/// and with the rest of `all` (as a multiset) coming before none of it.
pub open spec fn ranked_top(
    top: Seq<(Seq<DieType>, u128)>,
    all: Seq<(Seq<DieType>, u128)>,
    limit: int,
) -> bool {
    &&& top.len() == if limit < all.len() {
        limit
    } else {
        all.len() as int
    }
    &&& forall|i: int, j: int| 0 <= i < j < top.len() ==> !pattern_before(#[trigger] top[j], #[trigger] top[i])
    &&& exists|rest: Seq<(Seq<DieType>, u128)>|
        {
            &&& #[trigger] (top + rest).to_multiset() == all.to_multiset()
            &&& forall|x: int, y: int|
                0 <= x < rest.len() && 0 <= y < top.len() ==> !pattern_before(
                    #[trigger] rest[x],
                    #[trigger] top[y],
                )
        }
}

/// The `limit` most likely opponent hands of `hand_size` dice once
/// `player_hand` is out of the bag, most ways to draw first (then by die
/// names): the hands and weights of `opponent_hand_pattern_weights`, ranked
/// and cut at `limit`.
pub fn top_opponent_hand_pattern_weights(
    player_hand: &[DieType],
    hand_size: usize,
    limit: usize,
) -> (r: Vec<HandPatternWeight>)
    requires
        within_bag(player_hand@),
    ensures
        hand_size == 0 || hand_size + player_hand.len() > 36 ==> r.len() == 0,
        exists|all: Seq<HandPatternWeight>|
            {
                &&& #[trigger] ranked_top(patterns_view(r@), patterns_view(all), limit as int)
                &&& hand_size > 0 && hand_size + player_hand.len() <= 36 ==> describes_patterns(
                    all,
                    crate::bag_draws::remaining_counts_spec(player_hand@),
                    Seq::empty(),
                    pattern_suffixes(
                        crate::bag_draws::remaining_counts_spec(player_hand@),
                        0,
                        hand_size as nat,
                    ),
                ) && entries_weight(all) == binom(
                    (36 - player_hand.len()) as nat,
                    hand_size as nat,
                )
            },
{
    let all = opponent_hand_pattern_weights(player_hand, hand_size);
    let ghost allv = all@;
    let r = rank_hand_patterns(all, limit);
    proof {
        assert(patterns_view(allv).len() == allv.len());
        assert(ranked_top(patterns_view(r@), patterns_view(allv), limit as int));
    }
    r
}

/// When `j` comes before the best so far, every earlier entry that did not
/// come before the best does not come before `j` either.
proof fn lemma_pattern_before_asymmetric_chain(s: Seq<(Seq<DieType>, u128)>, best: int, j: int)
    requires
        0 <= best < s.len(),
        0 <= j < s.len(),
        pattern_before(s[j], s[best]),
    ensures
        forall|x: int|
            0 <= x < s.len() && !pattern_before(s[x], s[best]) ==> !pattern_before(
                #[trigger] s[x],
                s[j],
            ),
        !pattern_before(s[j], s[j]),
{
    assert forall|x: int|
        0 <= x < s.len() && !pattern_before(s[x], s[best]) implies !pattern_before(
        #[trigger] s[x],
        s[j],
    ) by {
        if pattern_before(s[x], s[j]) {
            lemma_pattern_before_transitive(s[x], s[j], s[best]);
        }
    }
    lemma_names_before_irreflexive(s[j].0, 0);
}

/// Coming before is transitive.
proof fn lemma_pattern_before_transitive(
    a: (Seq<DieType>, u128),
    b: (Seq<DieType>, u128),
    c: (Seq<DieType>, u128),
)
    requires
        pattern_before(a, b),
        pattern_before(b, c),
    ensures
        pattern_before(a, c),
{
    if a.1 == b.1 && b.1 == c.1 && a.0.len() == b.0.len() && b.0.len() == c.0.len() {
        lemma_names_before_transitive(a.0, b.0, c.0, 0);
    }
}

proof fn lemma_names_before_transitive(a: Seq<DieType>, b: Seq<DieType>, c: Seq<DieType>, i: int)
    requires
        0 <= i,
        names_before_from(a, b, i),
        names_before_from(b, c, i),
    ensures
        names_before_from(a, c, i),
    decreases a.len() - i,
{
    if i < a.len() && i < b.len() && i < c.len() && name_rank(a[i]) == name_rank(b[i])
        && name_rank(b[i]) == name_rank(c[i]) {
        lemma_names_before_transitive(a, b, c, i + 1);
    }
}

proof fn lemma_names_before_irreflexive(a: Seq<DieType>, i: int)
    requires
        0 <= i,
    ensures
        !names_before_from(a, a, i),
    decreases a.len() - i,
{
    if i < a.len() {
        lemma_names_before_irreflexive(a, i + 1);
    }
}

} // verus!
