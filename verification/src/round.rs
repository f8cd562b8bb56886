//! Round-level rules: round lengths, scoring, drawing dice from the bag, and
//! Monte Carlo simulation of whole rounds and games.

use vstd::prelude::*;

use crate::dice::{DieType, Face, die_at, die_index};
use crate::trick::{RolledDie, spec_trick_winner, trick_winner};
use crate::bag_draws::remaining_counts_spec;
use crate::patterns::expand_counts;
use crate::bidding::{expected_score_weighted, optimal_bid_for_weights, trick_count_weights, trick_weights};

verus! {

broadcast use vstd::seq_lib::group_to_multiset_ensures, vstd::multiset::group_multiset_axioms;

// ── Round lengths ─────────────────────────────────────────────────────────────

/// Rounds in a game of `player_count` players (3–6).
pub open spec fn spec_round_count(player_count: int) -> int {
    if player_count <= 4 {
        8
    } else if player_count == 5 {
        7
    } else {
        6
    }
}

/// The game plays as many rounds as the 36 dice of the bag allow, round `r`
/// dealing `r` dice to every player, but never more than 8: the round count
/// is the largest `r <= 8` with `player_count * r <= 36`.
pub proof fn lemma_round_count_fills_the_bag(player_count: int)
    requires
        3 <= player_count <= 6,
    ensures
        spec_round_count(player_count) <= 8,
        player_count * spec_round_count(player_count) <= 36,
        spec_round_count(player_count) == 8 || player_count * (spec_round_count(player_count) + 1)
            > 36,
{
    assert(player_count == 3 || player_count == 4 || player_count == 5 || player_count == 6);
}

/// The number of rounds played for a given player count.
pub fn round_count(player_count: usize) -> (r: usize)
    requires
        3 <= player_count <= 6,
    ensures
        r == spec_round_count(player_count as int),
{
    match player_count {
        3 | 4 => 8,
        5 => 7,
        _ => 6,
    }
}

// ── Scoring ──────────────────────────────────────────────────────────────────

/// Score of a round without special-capture bonuses.
///
/// - Bid 0: win 0 tricks → +10 × hand_size; win any → −10 × hand_size
/// - Bid N > 0: exact → +20 × N; miss by d → −10 × d
pub open spec fn spec_base_score(bid: int, tricks: int, hand_size: int) -> int {
    if bid == 0 {
        if tricks == 0 {
            10 * hand_size
        } else {
            -10 * hand_size
        }
    } else if tricks == bid {
        20 * bid
    } else if tricks > bid {
        -10 * (tricks - bid)
    } else {
        -10 * (bid - tricks)
    }
}

/// Computes the actual score for one round given the bid placed and tricks won.
///
/// Scoring rules:
/// - Bid 0: win 0 tricks → +10 × hand_size; win any → −10 × hand_size
/// - Bid N > 0: exact → +20 × N; miss by d → −10 × d
pub fn score_for_outcome(bid: usize, tricks: usize, hand_size: usize) -> (r: i64)
    requires
        -i64::MAX <= spec_base_score(bid as int, tricks as int, hand_size as int) <= i64::MAX,
    ensures
        r == spec_base_score(bid as int, tricks as int, hand_size as int),
{
    if bid == 0 {
        if tricks == 0 {
            10 * (hand_size as i64)
        } else {
            -(10 * (hand_size as i64))
        }
    } else if tricks == bid {
        20 * (bid as i64)
    } else {
        let diff: usize = if tricks > bid {
            tricks - bid
        } else {
            bid - tricks
        };
        -(10 * (diff as i64))
    }
}

/// Compute score for one player in one round, including special-capture bonuses.
pub fn score_player(bid: usize, tricks: usize, hand_size: usize, bonus_points: i64) -> (r: i64)
    requires
        -i64::MAX <= spec_base_score(bid as int, tricks as int, hand_size as int) <= i64::MAX,
        i64::MIN <= spec_base_score(bid as int, tricks as int, hand_size as int) + bonus_points
            <= i64::MAX,
    ensures
        r == spec_base_score(bid as int, tricks as int, hand_size as int) + bonus_points,
{
    let base_score = score_for_outcome(bid, tricks, hand_size);
    base_score + bonus_points
}

// ── Minimal RNG abstraction ───────────────────────────────────────────────────

/// A source of bounded random indices.
pub trait Rng {
    /// The draws made so far, in order: each bound asked for and the value
    /// handed out.
    spec fn draws(&self) -> Seq<(usize, usize)>;

    /// A value in `0..bound`.
    fn next_usize(&mut self, bound: usize) -> (r: usize)
        requires
            bound > 0,
        ensures
            r < bound,
            final(self).draws() == old(self).draws().push((bound, r)),
    ;
}

/// One xorshift64 step (shifts 13, 7, 17).
pub open spec fn xorshift_step(x: u64) -> u64 {
    let a = x ^ (x << 13u64);
    let b = a ^ (a >> 7u64);
    b ^ (b << 17u64)
}

/// A nonzero state never steps to zero, the one state xorshift cannot leave.
pub proof fn lemma_xorshift_step_nonzero(x: u64)
    requires
        x != 0,
    ensures
        xorshift_step(x) != 0,
{
    assert(x != 0 ==> (x ^ (x << 13u64)) != 0) by (bit_vector);
    let a = x ^ (x << 13u64);
    assert(a != 0 ==> (a ^ (a >> 7u64)) != 0) by (bit_vector);
    let b = a ^ (a >> 7u64);
    assert(b != 0 ==> (b ^ (b << 17u64)) != 0) by (bit_vector);
}

/// A simple xorshift64 RNG suitable for WASM (no OS entropy needed at init).
pub struct Xorshift64 {
    state: u64,
    drawn: Ghost<Seq<(usize, usize)>>,
}

impl Xorshift64 {
    /// The generator's state never becomes zero.
    #[verifier::type_invariant]
    spec fn state_nonzero(self) -> bool {
        self.state != 0
    }

    /// The current internal state.
    pub closed spec fn current_state(self) -> u64 {
        self.state
    }

    /// Seeds the generator; a zero seed is replaced by a fixed nonzero one.
    pub fn new(seed: u64) -> (r: Self)
        ensures
            r.current_state() == if seed == 0 {
                0xdeadbeef_cafebabe_u64
            } else {
                seed
            },
            r.current_state() != 0,
            r.draws() == Seq::<(usize, usize)>::empty(),
    {
        Self { state: if seed == 0 { 0xdeadbeef_cafebabe } else { seed }, drawn: Ghost(Seq::empty()) }
    }

    fn next_u64(&mut self) -> (r: u64)
        ensures
            r == xorshift_step(old(self).current_state()),
            final(self).current_state() == r,
            final(self).drawn == old(self).drawn,
            r != 0,
    {
        proof {
            use_type_invariant(&*self);
            lemma_xorshift_step_nonzero(self.state);
        }
        let mut x = self.state;
        x ^= x << 13u64;
        x ^= x >> 7u64;
        x ^= x << 17u64;
        self.state = x;
        x
    }
}

impl Rng for Xorshift64 {
    closed spec fn draws(&self) -> Seq<(usize, usize)> {
        self.drawn@
    }

    fn next_usize(&mut self, bound: usize) -> (r: usize)
        ensures
            r as int == xorshift_step(old(self).current_state()) as int % bound as int,
            final(self).current_state() == xorshift_step(old(self).current_state()),
    {
        let x = self.next_u64();
        let r = (x % (bound as u64)) as usize;
        self.drawn = Ghost(self.drawn@.push((bound, r)));
        r
    }
}

// ── Drawing dice from the bag ─────────────────────────────────────────────────

/// `dice` fits in one bag: no die type occurs more often than the bag holds it.
pub open spec fn within_bag(dice: Seq<DieType>) -> bool {
    forall|d: DieType| #[trigger] dice.to_multiset().count(d) <= d.spec_bag_count()
}

/// The views of a list of hands.
pub open spec fn hands_view(hands: Seq<Vec<DieType>>) -> Seq<Seq<DieType>> {
    hands.map_values(|h: Vec<DieType>| h@)
}

/// All the dice of a list of hands, hand after hand.
pub open spec fn concat_hands(hands: Seq<Seq<DieType>>) -> Seq<DieType>
    decreases hands.len(),
{
    if hands.len() == 0 {
        Seq::empty()
    } else {
        concat_hands(hands.drop_last()) + hands.last()
    }
}

/// How many dice of the first `i` types of `DieType::ALL` occur in `s`.
pub open spec fn count_types_below(s: Seq<DieType>, i: int) -> int
    decreases i,
{
    if i <= 0 {
        0
    } else {
        count_types_below(s, i - 1) + s.to_multiset().count(die_at(i - 1))
    }
}

proof fn lemma_die_at_index(d: DieType)
    ensures
        0 <= die_index(d) < 7,
        die_at(die_index(d)) == d,
{
}

/// Every die is of one of the seven types.
pub proof fn lemma_len_is_sum_of_type_counts(s: Seq<DieType>)
    ensures
        s.len() == count_types_below(s, 7),
    decreases s.len(),
{
    reveal_with_fuel(count_types_below, 8);
    if s.len() > 0 {
        let t = s.drop_last();
        lemma_len_is_sum_of_type_counts(t);
        assert(s =~= t.push(s.last()));
        reveal_with_fuel(count_types_below, 8);
    }
}

/// Number of copies of `dt` in `dice`.
pub(crate) fn count_die(dice: &[DieType], dt: DieType) -> (r: usize)
    ensures
        r == dice@.to_multiset().count(dt),
{
    let mut r: usize = 0;
    let mut i: usize = 0;
    while i < dice.len()
        invariant
            0 <= i <= dice.len(),
            r == dice@.subrange(0, i as int).to_multiset().count(dt),
            r <= i,
        decreases dice.len() - i,
    {
        assert(dice@.subrange(0, i + 1) =~= dice@.subrange(0, i as int).push(dice@[i as int]));
        if dice[i] == dt {
            r = r + 1;
        }
        i = i + 1;
    }
    assert(dice@.subrange(0, dice.len() as int) =~= dice@);
    r
}

/// The bag with the dice of `removed` taken out, die types in the order of
/// `DieType::ALL`.
fn bag_without(removed: &[DieType]) -> (bag: Vec<DieType>)
    requires
        within_bag(removed@),
    ensures
        forall|d: DieType|
            #[trigger] bag@.to_multiset().count(d) + removed@.to_multiset().count(d)
                == d.spec_bag_count(),
        bag.len() + removed.len() == 36,
        bag@ == expand_counts(remaining_counts_spec(removed@), 7),
{
    let ghost rc = remaining_counts_spec(removed@);
    let all = DieType::ALL;
    let mut bag: Vec<DieType> = Vec::new();
    let mut i: usize = 0;
    proof {
        crate::dice::lemma_bag_prefix_totals();
        lemma_len_is_sum_of_type_counts(removed@);
    }
    while i < 7
        invariant
            0 <= i <= 7,
            within_bag(removed@),
            all@ == seq![
                DieType::Minotaur,
                DieType::Griffin,
                DieType::Mermaid,
                DieType::Red,
                DieType::Yellow,
                DieType::Purple,
                DieType::Gray,
            ],
            forall|d: DieType|
                #[trigger] bag@.to_multiset().count(d) == if die_index(d) < i {
                    d.spec_bag_count() - removed@.to_multiset().count(d)
                } else {
                    0
                },
            bag.len() == crate::dice::bag_prefix_total(i as int) - count_types_below(
                removed@,
                i as int,
            ),
            rc == remaining_counts_spec(removed@),
            bag@ == expand_counts(rc, i as int),
        decreases 7 - i,
    {
        let dt = all[i];
        assert(die_index(dt) == i);
        assert(die_at(i as int) == dt);
        let used = count_die(removed, dt);
        let available = dt.bag_count() as usize;
        let mut j: usize = 0;
        while j < available - used
            invariant
                0 <= j <= available - used,
                used <= available,
                die_index(dt) == i,
                forall|d: DieType|
                    #[trigger] bag@.to_multiset().count(d) == if die_index(d) < i {
                        d.spec_bag_count() - removed@.to_multiset().count(d)
                    } else if d == dt {
                        j as int
                    } else {
                        0
                    },
                bag.len() == crate::dice::bag_prefix_total(i as int) - count_types_below(
                    removed@,
                    i as int,
                ) + j,
                bag@ == expand_counts(rc, i as int) + Seq::new(j as nat, |x: int| die_at(i as int)),
            decreases available - used - j,
        {
            let ghost before = bag@;
            bag.push(dt);
            j = j + 1;
            proof {
                assert(bag@ =~= expand_counts(rc, i as int) + Seq::new(
                    j as nat,
                    |x: int| die_at(i as int),
                ));
            }
        }
        proof {
            assert(rc[i as int] == available - used);
            assert(expand_counts(rc, i + 1) == expand_counts(rc, i as int) + Seq::new(
                rc[i as int] as nat,
                |x: int| die_at(i as int),
            ));
            assert(bag@ =~= expand_counts(rc, i + 1));
        }
        proof {
            assert forall|d: DieType| #[trigger]
                bag@.to_multiset().count(d) == if die_index(d) < i + 1 {
                    d.spec_bag_count() - removed@.to_multiset().count(d)
                } else {
                    0
                } by {
                if d == dt {
                } else if die_index(d) == i {
                    lemma_die_at_index(d);
                }
            }
        }
        i = i + 1;
    }
    proof {
        assert forall|d: DieType|
            #[trigger] bag@.to_multiset().count(d) + removed@.to_multiset().count(d)
                == d.spec_bag_count() by {
            lemma_die_at_index(d);
        }
    }
    bag
}

/// `s` with the entries at `i` and `j` exchanged.
pub open spec fn swap_at(s: Seq<DieType>, i: int, j: int) -> Seq<DieType> {
    s.update(i, s[j]).update(j, s[i])
}

/// `s` after exchanging, for each step `t` in turn, the entries at `t` and
/// `js[t]`.
pub open spec fn apply_swaps(s: Seq<DieType>, js: Seq<int>) -> Seq<DieType>
    decreases js.len(),
{
    if js.len() == 0 {
        s
    } else {
        swap_at(apply_swaps(s, js.drop_last()), js.len() - 1, js.last())
    }
}

/// The draws of a partial shuffle of `n` entries that exchanges each
/// position `t` with `js[t]`: the `t`-th asks for a value below `n - t` and
/// gets `js[t] - t`.
pub open spec fn shuffle_draws(n: int, js: Seq<int>) -> Seq<(usize, usize)> {
    Seq::new(js.len(), |t: int| ((n - t) as usize, (js[t] - t) as usize))
}

/// `after` is `before` followed by `count` draws, the `t`-th of them asking
/// for a value below `first_bound - t`.
pub open spec fn draws_with_bounds(
    before: Seq<(usize, usize)>,
    after: Seq<(usize, usize)>,
    first_bound: int,
    count: int,
) -> bool {
    &&& after.len() == before.len() + count
    &&& after.subrange(0, before.len() as int) == before
    &&& forall|t: int| 0 <= t < count ==> #[trigger] after[before.len() + t].0 == first_bound - t
}

/// The draws of a partial shuffle of `n` entries ask for values below
/// `n`, `n - 1`, ... in turn.
proof fn lemma_shuffle_draw_bounds(before: Seq<(usize, usize)>, n: int, js: Seq<int>)
    requires
        js.len() <= n,
        n <= usize::MAX,
    ensures
        draws_with_bounds(before, before + shuffle_draws(n, js), n, js.len() as int),
{
    let after = before + shuffle_draws(n, js);
    assert(after.subrange(0, before.len() as int) =~= before);
    assert forall|t: int| 0 <= t < js.len() implies #[trigger] after[before.len() + t].0 == n - t by {
        assert(after[before.len() + t] == shuffle_draws(n, js)[t]);
    }
}

/// Shuffles so that the first `k` entries are a uniformly drawn selection
/// (partial Fisher–Yates): for each position `t < k` in turn, the entry at
/// `t` is exchanged with the entry at a random position `js[t]` from `t` on.
/// The multiset of entries is unchanged.
fn partial_shuffle<R: Rng>(v: &mut Vec<DieType>, k: usize, rng: &mut R)
    requires
        k <= old(v).len(),
    ensures
        final(v).len() == old(v).len(),
        final(v)@.to_multiset() == old(v)@.to_multiset(),
        exists|js: Seq<int>|
            {
                &&& js.len() == k
                &&& forall|t: int| 0 <= t < k ==> t <= #[trigger] js[t] < old(v).len()
                &&& final(v)@ == apply_swaps(old(v)@, js)
                &&& final(rng).draws() == old(rng).draws() + shuffle_draws(old(v).len() as int, js)
            },
{
    let ghost d0 = rng.draws();
    let ghost m0 = v@.to_multiset();
    let ghost s_start = v@;
    let ghost mut js: Seq<int> = Seq::empty();
    let mut i: usize = 0;
    while i < k
        invariant
            0 <= i <= k <= v.len(),
            v@.to_multiset() == m0,
            m0 == old(v)@.to_multiset(),
            s_start == old(v)@,
            v.len() == old(v).len(),
            js.len() == i,
            forall|t: int| 0 <= t < i ==> t <= #[trigger] js[t] < old(v).len(),
            v@ == apply_swaps(s_start, js),
            d0 == old(rng).draws(),
            rng.draws() == d0 + shuffle_draws(old(v).len() as int, js),
        decreases k - i,
    {
        let d = rng.next_usize(v.len() - i);
        let j = i + d;
        let a = v[i];
        let b = v[j];
        let ghost s0 = v@;
        v[i] = b;
        v[j] = a;
        proof {
            let s1 = s0.update(i as int, b);
            assert(v@ == s1.update(j as int, a));
            assert(s1.to_multiset() == s0.to_multiset().insert(b).remove(a));
            assert(s1[j as int] == b);
            assert(v@.to_multiset() == s1.to_multiset().insert(a).remove(b));
            assert(v@.to_multiset() =~= m0);
            let js2 = js.push(j as int);
            assert(js2.drop_last() =~= js);
            assert(v@ == swap_at(s0, i as int, j as int));
            assert(shuffle_draws(old(v).len() as int, js2) =~= shuffle_draws(
                old(v).len() as int,
                js,
            ).push(((old(v).len() - i) as usize, d)));
            assert(rng.draws() =~= d0 + shuffle_draws(old(v).len() as int, js2));
            js = js2;
        }
        i = i + 1;
    }
}

/// A copy of the first `k` entries.
fn take_prefix(v: &Vec<DieType>, start: usize, k: usize) -> (r: Vec<DieType>)
    requires
        start + k <= v.len(),
    ensures
        r@ == v@.subrange(start as int, start + k),
{
    let mut r: Vec<DieType> = Vec::new();
    let mut i: usize = 0;
    while i < k
        invariant
            0 <= i <= k,
            start + k <= v.len(),
            r@ == v@.subrange(start as int, start + i),
        decreases k - i,
    {
        r.push(v[start + i]);
        i = i + 1;
        assert(r@ =~= v@.subrange(start as int, start + i));
    }
    r
}

/// A prefix holds no more copies of a die than the whole sequence.
proof fn lemma_prefix_counts(s: Seq<DieType>, k: int)
    requires
        0 <= k <= s.len(),
    ensures
        forall|d: DieType| #[trigger]
            s.subrange(0, k).to_multiset().count(d) <= s.to_multiset().count(d),
{
    broadcast use vstd::seq_lib::lemma_multiset_commutative;

    assert(s =~= s.subrange(0, k) + s.subrange(k, s.len() as int));
}

/// Draws `n` dice from the bag uniformly at random (without replacement).
/// Returns a Vec of `n` DieType values.
///
/// The bag contains:
///   Minotaur ×1, Griffin ×3, Mermaid ×2,
///   Red ×7, Yellow ×7, Purple ×8, Gray ×8  (total 36)
pub fn sample_hand<R: Rng>(n: usize, rng: &mut R) -> (r: Vec<DieType>)
    requires
        n <= 36,
    ensures
        r.len() == n,
        within_bag(r@),
        draws_with_bounds(old(rng).draws(), final(rng).draws(), 36, n as int),
        exists|js: Seq<int>|
            {
                &&& js.len() == n
                &&& forall|t: int| 0 <= t < n ==> t <= #[trigger] js[t] < 36
                &&& final(rng).draws() == old(rng).draws() + shuffle_draws(36, js)
                &&& r@ == apply_swaps(
                    expand_counts(remaining_counts_spec(Seq::empty()), 7),
                    js,
                ).subrange(0, n as int)
            },
{
    let taken_out: Vec<DieType> = Vec::new();
    let mut bag = bag_without(taken_out.as_slice());
    assert(bag.len() == 36);
    // Partial Fisher-Yates: only shuffle the first `n` elements.
    let ghost d0 = rng.draws();
    let ghost b0 = bag@;
    partial_shuffle(&mut bag, n, rng);
    let r = take_prefix(&bag, 0, n);
    proof {
        let js = choose|js: Seq<int>|
            {
                &&& js.len() == n
                &&& forall|t: int| 0 <= t < n ==> t <= #[trigger] js[t] < b0.len()
                &&& bag@ == apply_swaps(b0, js)
                &&& rng.draws() == d0 + shuffle_draws(b0.len() as int, js)
            };
        lemma_shuffle_draw_bounds(d0, 36, js);
        lemma_prefix_counts(bag@, n as int);
        assert(Seq::<DieType>::empty().to_multiset() =~= vstd::multiset::Multiset::empty());
        assert forall|d: DieType| #[trigger] r@.to_multiset().count(d) <= d.spec_bag_count() by {
            assert(r@ == bag@.subrange(0, n as int));
        }
    }
    r
}

/// Deals `h` dice to each of `player_count` seats, each seat drawing from a
/// full bag of its own.
fn deal_hands<R: Rng>(player_count: usize, h: usize, rng: &mut R) -> (r: Vec<Vec<DieType>>)
    requires
        h <= 36,
    ensures
        r.len() == player_count,
        forall|k: int| 0 <= k < player_count ==> (#[trigger] r[k]).len() == h,
        exists|deal: Seq<(usize, usize)>|
            #[trigger] dealt_independently(hands_view(r@), h as int, deal) && final(rng).draws()
                == old(rng).draws() + deal,
{
    let ghost d0 = rng.draws();
    let ghost mut jss: Seq<Seq<int>> = Seq::empty();
    let mut hands: Vec<Vec<DieType>> = Vec::new();
    proof {
        assert(Seq::new(jss.len(), |q: int| shuffle_draws(36, jss[q])) =~= Seq::<
            Seq<(usize, usize)>,
        >::empty());
        assert(d0 + concat_draws(Seq::<Seq<(usize, usize)>>::empty()) =~= d0);
    }
    let mut p: usize = 0;
    while p < player_count
        invariant
            0 <= p <= player_count,
            h <= 36,
            hands.len() == p,
            jss.len() == p,
            d0 == old(rng).draws(),
            forall|k: int| 0 <= k < p ==> (#[trigger] hands[k]).len() == h,
            forall|q: int|
                0 <= q < p ==> {
                    &&& (#[trigger] jss[q]).len() == h
                    &&& forall|t: int| 0 <= t < h ==> t <= #[trigger] jss[q][t] < 36
                    &&& hands[q]@ == apply_swaps(full_bag(), jss[q]).subrange(0, h as int)
                    &&& within_bag(hands[q]@)
                },
            rng.draws() == d0 + deal_draws_of(jss),
        decreases player_count - p,
    {
        let ghost dh = rng.draws();
        let ghost old_jss = jss;
        let ghost old_hands = hands@;
        let hand = sample_hand(h, rng);
        proof {
            let js = choose|js: Seq<int>|
                {
                    &&& js.len() == h
                    &&& forall|t: int| 0 <= t < h ==> t <= #[trigger] js[t] < 36
                    &&& rng.draws() == dh + shuffle_draws(36, js)
                    &&& hand@ == apply_swaps(
                        expand_counts(remaining_counts_spec(Seq::empty()), 7),
                        js,
                    ).subrange(0, h as int)
                };
            jss = jss.push(js);
            let segs = Seq::new(jss.len(), |q: int| shuffle_draws(36, jss[q]));
            let old_segs = Seq::new(old_jss.len(), |q: int| shuffle_draws(36, old_jss[q]));
            assert(segs.drop_last() =~= old_segs);
            assert(segs.last() == shuffle_draws(36, js));
            assert(deal_draws_of(old_jss) == concat_draws(old_segs));
            assert(rng.draws() =~= d0 + concat_draws(segs));
            assert(deal_draws_of(jss) == concat_draws(segs));
        }
        hands.push(hand);
        proof {
            assert forall|q: int| 0 <= q < p + 1 implies {
                &&& (#[trigger] jss[q]).len() == h
                &&& forall|t: int| 0 <= t < h ==> t <= #[trigger] jss[q][t] < 36
                &&& hands[q]@ == apply_swaps(full_bag(), jss[q]).subrange(0, h as int)
                &&& within_bag(hands[q]@)
            } by {
                if q < p {
                    assert(jss[q] == old_jss[q]);
                    assert(hands[q] == old_hands[q]);
                }
            }
        }
        p = p + 1;
    }
    proof {
        let deal = deal_draws_of(jss);
        let hv = hands_view(hands@);
        assert forall|q: int| 0 <= q < hv.len() implies {
            &&& (#[trigger] jss[q]).len() == h
            &&& forall|t: int| 0 <= t < h ==> t <= #[trigger] jss[q][t] < 36
            &&& hv[q] == apply_swaps(full_bag(), jss[q]).subrange(0, h as int)
            &&& within_bag(hv[q])
        } by {
        }
        assert(dealt_independently(hv, h as int, deal));
    }
    hands
}

/// Draws `n_opponents` hands of `player_hand.len()` dice each from the bag
/// left after removing the player's hand (without replacement).
fn sample_opponent_hands_from_remaining<R: Rng>(
    player_hand: &[DieType],
    n_opponents: usize,
    rng: &mut R,
) -> (r: Vec<Vec<DieType>>)
    requires
        within_bag(player_hand@),
        player_hand.len() * n_opponents + player_hand.len() <= 36,
        n_opponents > 0 ==> player_hand.len() > 0,
    ensures
        r.len() == n_opponents,
        forall|k: int| 0 <= k < r.len() ==> (#[trigger] r[k]).len() == player_hand.len(),
        within_bag(player_hand@ + concat_hands(hands_view(r@))),
        draws_with_bounds(
            old(rng).draws(),
            final(rng).draws(),
            36 - player_hand.len(),
            player_hand.len() * n_opponents,
        ),
        exists|js: Seq<int>|
            {
                &&& js.len() == player_hand.len() * n_opponents
                &&& forall|t: int|
                    0 <= t < js.len() ==> t <= #[trigger] js[t] < 36 - player_hand.len()
                &&& final(rng).draws() == old(rng).draws() + shuffle_draws(
                    36 - player_hand.len(),
                    js,
                )
                &&& concat_hands(hands_view(r@)) == apply_swaps(
                    expand_counts(remaining_counts_spec(player_hand@), 7),
                    js,
                ).subrange(0, js.len() as int)
            },
{
    if n_opponents == 0 {
        let r: Vec<Vec<DieType>> = Vec::new();
        proof {
            assert(hands_view(r@) =~= Seq::<Seq<DieType>>::empty());
            assert(player_hand@ + concat_hands(hands_view(r@)) =~= player_hand@);
            assert(rng.draws().subrange(0, rng.draws().len() as int) =~= rng.draws());
            let js0 = Seq::<int>::empty();
            let full = expand_counts(remaining_counts_spec(player_hand@), 7);
            assert(rng.draws() + shuffle_draws(36 - player_hand.len(), js0) =~= rng.draws());
            assert(apply_swaps(full, js0).subrange(0, 0) =~= Seq::<DieType>::empty());
            assert(concat_hands(hands_view(r@)) =~= Seq::<DieType>::empty());
            assert(player_hand.len() * n_opponents == 0);
        }
        return r;
    }
    let hand_size = player_hand.len();
    let total_needed = hand_size * n_opponents;
    let mut remaining = bag_without(player_hand);
    let ghost d0 = rng.draws();
    let ghost b0 = remaining@;
    partial_shuffle(&mut remaining, total_needed, rng);
    proof {
        let js = choose|js: Seq<int>|
            {
                &&& js.len() == total_needed
                &&& forall|t: int| 0 <= t < total_needed ==> t <= #[trigger] js[t] < b0.len()
                &&& remaining@ == apply_swaps(b0, js)
                &&& rng.draws() == d0 + shuffle_draws(b0.len() as int, js)
            };
        lemma_shuffle_draw_bounds(d0, b0.len() as int, js);
        assert(b0.len() == 36 - hand_size);
    }
    let ghost picked = remaining@.subrange(0, total_needed as int);
    proof {
        lemma_prefix_counts(remaining@, total_needed as int);
    }
    let mut r: Vec<Vec<DieType>> = Vec::new();
    let mut k: usize = 0;
    while k < n_opponents
        invariant
            0 <= k <= n_opponents,
            hand_size == player_hand.len() > 0,
            total_needed == hand_size * n_opponents,
            total_needed + hand_size <= 36,
            remaining.len() + hand_size == 36,
            picked == remaining@.subrange(0, total_needed as int),
            r.len() == k,
            forall|a: int| 0 <= a < r.len() ==> (#[trigger] r[a]).len() == hand_size,
            k * hand_size <= total_needed,
            concat_hands(hands_view(r@)) == remaining@.subrange(0, (k * hand_size) as int),
        decreases n_opponents - k,
    {
        proof {
            assert((k + 1) * hand_size == k * hand_size + hand_size) by (nonlinear_arith);
            assert((k + 1) * hand_size <= n_opponents * hand_size) by (nonlinear_arith)
                requires
                    k < n_opponents,
            ;
            assert(n_opponents * hand_size == hand_size * n_opponents) by (nonlinear_arith);
        }
        let chunk = take_prefix(&remaining, k * hand_size, hand_size);
        let ghost before = r@;
        r.push(chunk);
        proof {
            assert(hands_view(r@).drop_last() =~= hands_view(before));
            assert(hands_view(r@).last() == chunk@);
            assert(concat_hands(hands_view(r@)) =~= remaining@.subrange(
                0,
                ((k + 1) * hand_size) as int,
            ));
        }
        k = k + 1;
    }
    proof {
        broadcast use vstd::seq_lib::lemma_multiset_commutative;

        assert(n_opponents * hand_size == hand_size * n_opponents) by (nonlinear_arith);
        assert(concat_hands(hands_view(r@)) == picked);
        assert forall|d: DieType| #[trigger]
            (player_hand@ + concat_hands(hands_view(r@))).to_multiset().count(d)
                <= d.spec_bag_count() by {
            assert(picked.to_multiset().count(d) <= remaining@.to_multiset().count(d));
        }
    }
    r
}

/// A copy of a hand.
fn copy_hand(hand: &[DieType]) -> (r: Vec<DieType>)
    ensures
        r@ == hand@,
{
    let mut r: Vec<DieType> = Vec::new();
    let mut i: usize = 0;
    while i < hand.len()
        invariant
            0 <= i <= hand.len(),
            r@ == hand@.subrange(0, i as int),
        decreases hand.len() - i,
    {
        r.push(hand[i]);
        i = i + 1;
        assert(r@ =~= hand@.subrange(0, i as int));
    }
    assert(hand@.subrange(0, hand.len() as int) =~= hand@);
    r
}

/// Seats the player's hand at `player_position` and the opponents' hands, in
/// order, at the other seats.
fn embed_player_hand(
    player_hand: &[DieType],
    opponent_hands: &[Vec<DieType>],
    player_count: usize,
    player_position: usize,
) -> (r: Vec<Vec<DieType>>)
    requires
        player_position < player_count,
        opponent_hands.len() + 1 == player_count,
    ensures
        r.len() == player_count,
        r[player_position as int]@ == player_hand@,
        forall|s: int| 0 <= s < player_position ==> (#[trigger] r[s])@ == opponent_hands[s]@,
        forall|s: int|
            player_position < s < player_count ==> (#[trigger] r[s])@ == opponent_hands[s - 1]@,
{
    let mut hands: Vec<Vec<DieType>> = Vec::new();
    let mut seat: usize = 0;
    while seat < player_count
        invariant
            0 <= seat <= player_count,
            player_position < player_count,
            opponent_hands.len() + 1 == player_count,
            hands.len() == seat,
            player_position < seat ==> hands[player_position as int]@ == player_hand@,
            forall|s: int| 0 <= s < seat && s < player_position ==> (#[trigger] hands[s])@
                == opponent_hands[s]@,
            forall|s: int|
                player_position < s < seat ==> (#[trigger] hands[s])@ == opponent_hands[s - 1]@,
        decreases player_count - seat,
    {
        if seat == player_position {
            hands.push(copy_hand(player_hand));
        } else if seat < player_position {
            hands.push(copy_hand(opponent_hands[seat].as_slice()));
        } else {
            hands.push(copy_hand(opponent_hands[seat - 1].as_slice()));
        }
        seat = seat + 1;
    }
    hands
}

// ── Choosing which die to play ─────────────────────────────────────────────────

/// Whether the die at `idx` follows suit: it is a special die or has the led color.
pub open spec fn follows_suit(led_color: Option<DieType>, hand: Seq<DieType>, idx: int) -> bool {
    hand[idx].spec_is_special_die() || led_color == Some(hand[idx])
}

/// Whether some remaining die has the led color.
pub open spec fn can_match_color(
    led_color: Option<DieType>,
    remaining: Seq<usize>,
    hand: Seq<DieType>,
) -> bool {
    led_color is Some && exists|k: int|
        0 <= k < remaining.len() && led_color == Some(#[trigger] hand[remaining[k] as int])
}

/// Whether playing the die at `idx` is allowed: it is still in hand and, when
/// the player holds a die of the led color, it follows suit.
pub open spec fn is_legal_play(
    led_color: Option<DieType>,
    remaining: Seq<usize>,
    hand: Seq<DieType>,
    idx: usize,
) -> bool {
    &&& remaining.contains(idx)
    &&& can_match_color(led_color, remaining, hand) ==> follows_suit(led_color, hand, idx as int)
}

/// Whether `remaining` is contained in `0..hand.len()`.
pub open spec fn indices_in_hand(remaining: Seq<usize>, hand: Seq<DieType>) -> bool {
    forall|k: int| 0 <= k < remaining.len() ==> #[trigger] remaining[k] < hand.len()
}

fn seq_contains(v: &[usize], x: usize) -> (r: bool)
    ensures
        r == v@.contains(x),
{
    let mut i: usize = 0;
    while i < v.len()
        invariant
            0 <= i <= v.len(),
            forall|k: int| 0 <= k < i ==> v@[k] != x,
        decreases v.len() - i,
    {
        if v[i] == x {
            return true;
        }
        i = i + 1;
    }
    false
}

/// `legal` is the list of legal plays: with a die of the led color in hand,
/// the legal indices sorted and without repeats; otherwise the remaining
/// indices as they are.
pub open spec fn legal_choice_list(
    led_color: Option<DieType>,
    remaining: Seq<usize>,
    hand: Seq<DieType>,
    legal: Seq<usize>,
) -> bool {
    &&& can_match_color(led_color, remaining, hand) ==> {
        &&& forall|a: int, b: int| 0 <= a < b < legal.len() ==> legal[a] < legal[b]
        &&& forall|x: usize| legal.contains(x) <==> is_legal_play(led_color, remaining, hand, x)
    }
    &&& !can_match_color(led_color, remaining, hand) ==> legal == remaining
}

/// The legal plays among the remaining dice (indices into `hand`):
/// - any special die,
/// - any die matching the led color,
/// - or any die if the player has neither a die of the led color.
///
/// With a die of the led color in hand, the legal indices come back sorted and
/// without repeats; otherwise all remaining indices come back unchanged.
pub fn legal_die_choices(
    led_color: Option<DieType>,
    remaining_indices: &[usize],
    hand: &[DieType],
) -> (r: Vec<usize>)
    requires
        indices_in_hand(remaining_indices@, hand@),
    ensures
        can_match_color(led_color, remaining_indices@, hand@) ==> {
            &&& forall|a: int, b: int| 0 <= a < b < r.len() ==> r[a] < r[b]
            &&& forall|x: usize|
                r@.contains(x) <==> is_legal_play(
                    led_color,
                    remaining_indices@,
                    hand@,
                    x,
                )
        },
        !can_match_color(led_color, remaining_indices@, hand@) ==> r@ == remaining_indices@,
{
    let mut has_matching = false;
    if let Some(color) = led_color {
        let mut k: usize = 0;
        while k < remaining_indices.len()
            invariant
                0 <= k <= remaining_indices.len(),
                indices_in_hand(remaining_indices@, hand@),
                led_color == Some(color),
                has_matching == exists|j: int|
                    0 <= j < k && led_color == Some(#[trigger] hand@[remaining_indices@[j] as int]),
            decreases remaining_indices.len() - k,
        {
            if hand[remaining_indices[k]] == color {
                has_matching = true;
            }
            k = k + 1;
        }
        if has_matching {
            let mut legal: Vec<usize> = Vec::new();
            let mut idx: usize = 0;
            while idx < hand.len()
                invariant
                    0 <= idx <= hand.len(),
                    led_color == Some(color),
                    can_match_color(led_color, remaining_indices@, hand@),
                    forall|a: int, b: int| 0 <= a < b < legal.len() ==> legal[a] < legal[b],
                    forall|a: int| 0 <= a < legal.len() ==> legal[a] < idx,
                    forall|x: usize|
                        legal@.contains(x) <==> (x < idx && is_legal_play(
                            led_color,
                            remaining_indices@,
                            hand@,
                            x,
                        )),
                decreases hand.len() - idx,
            {
                let ghost before = legal@;
                if (hand[idx].is_special_die() || hand[idx] == color) && seq_contains(
                    remaining_indices,
                    idx,
                ) {
                    legal.push(idx);
                    proof {
                        assert(is_legal_play(led_color, remaining_indices@, hand@, idx));
                    }
                } else {
                    proof {
                        assert(!is_legal_play(led_color, remaining_indices@, hand@, idx));
                    }
                }
                proof {
                    assert forall|x: usize|
                        legal@.contains(x) <==> (x < idx + 1 && is_legal_play(
                            led_color,
                            remaining_indices@,
                            hand@,
                            x,
                        )) by {
                        if legal@.contains(x) && x != idx {
                            let a = choose|a: int| 0 <= a < legal.len() && legal@[a] == x;
                            assert(before[a] == x);
                            assert(before.contains(x));
                        }
                        if x == idx {
                            if legal.len() > before.len() {
                                assert(legal@[legal.len() - 1] == x);
                            } else {
                                assert(legal@ == before);
                                if before.contains(x) {
                                    let a = choose|a: int| 0 <= a < before.len() && before[a] == x;
                                }
                            }
                        }
                        if x < idx && is_legal_play(
                            led_color,
                            remaining_indices@,
                            hand@,
                            x,
                        ) {
                            assert(before.contains(x));
                            let a = choose|a: int| 0 <= a < before.len() && before[a] == x;
                            assert(legal@[a] == x);
                        }
                    }
                }
                idx = idx + 1;
            }
            proof {
                assert forall|x: usize|
                    is_legal_play(
                        led_color,
                        remaining_indices@,
                        hand@,
                        x,
                    ) implies x < hand.len() by {
                    let k = choose|k: int|
                        0 <= k < remaining_indices@.len() && remaining_indices@[k] == x;
                }
            }
            return legal;
        }
    }
    copy_indices(remaining_indices)
}

fn copy_indices(v: &[usize]) -> (r: Vec<usize>)
    ensures
        r@ == v@,
{
    let mut r: Vec<usize> = Vec::new();
    let mut i: usize = 0;
    while i < v.len()
        invariant
            0 <= i <= v.len(),
            r@ == v@.subrange(0, i as int),
        decreases v.len() - i,
    {
        r.push(v[i]);
        i = i + 1;
        assert(r@ =~= v@.subrange(0, i as int));
    }
    assert(v@.subrange(0, v.len() as int) =~= v@);
    r
}

/// Pick a die to play given suit-following constraints.
/// Legal plays are:
/// - any special die,
/// - any die matching the led color,
/// - or any die if the player has neither.
///
/// If multiple legal choices exist, sample uniformly at random.
pub fn choose_die_to_play<R: Rng>(
    led_color: Option<DieType>,
    remaining_indices: &[usize],
    hand: &[DieType],
    rng: &mut R,
) -> (r: usize)
    requires
        remaining_indices.len() >= 1,
        indices_in_hand(remaining_indices@, hand@),
    ensures
        is_legal_play(led_color, remaining_indices@, hand@, r),
        r < hand.len(),
        exists|legal: Seq<usize>, d: int|
            #[trigger] legal_choice_list(led_color, remaining_indices@, hand@, legal) && 0 <= d
                < legal.len() <= usize::MAX && r == #[trigger] legal[d] && final(rng).draws() == old(rng).draws().push(
                (legal.len() as usize, d as usize),
            ),
{
    let legal_indices = legal_die_choices(led_color, remaining_indices, hand);
    proof {
        assert(legal_choice_list(led_color, remaining_indices@, hand@, legal_indices@));
    }
    proof {
        if can_match_color(led_color, remaining_indices@, hand@) {
            let k = choose|k: int|
                0 <= k < remaining_indices.len() && led_color == Some(
                    #[trigger] hand@[remaining_indices@[k] as int],
                );
            let x = remaining_indices@[k];
            assert(remaining_indices@.contains(x));
            assert(is_legal_play(led_color, remaining_indices@, hand@, x));
            assert(legal_indices@.contains(x));
        }
    }
    let idx = rng.next_usize(legal_indices.len());
    let r = legal_indices[idx];
    proof {
        assert(legal_indices@.contains(r));
        if !can_match_color(led_color, remaining_indices@, hand@) {
            assert(remaining_indices@[idx as int] == r);
        }
        let k = choose|k: int| 0 <= k < remaining_indices@.len() && remaining_indices@[k] == r;
    }
    r
}

// ── Playing the weakest die that still loses ──────────────────────────────────

/// Whether `die`, rolled next after `current_rolls`, wins when it shows its
/// face number `k`.
pub open spec fn face_wins_next(current_rolls: Seq<RolledDie>, die: DieType, k: int) -> bool {
    let rolls = current_rolls.push(
        RolledDie { die_type: die, face: die.face_seq()[k], roll_order: current_rolls.len() as usize },
    );
    spec_trick_winner(rolls) == current_rolls.len()
}

/// How many of the first `m` faces of `die` would take the trick.
pub open spec fn winning_faces_below(current_rolls: Seq<RolledDie>, die: DieType, m: int) -> nat
    decreases m,
{
    if m <= 0 {
        0
    } else {
        winning_faces_below(current_rolls, die, m - 1) + if face_wins_next(
            current_rolls,
            die,
            m - 1,
        ) {
            1nat
        } else {
            0nat
        }
    }
}

/// How many of the six faces of `die` would take the trick when rolled after
/// `current_rolls`; divided by six, the die's chance to win it.
pub open spec fn winning_faces(current_rolls: Seq<RolledDie>, die: DieType) -> nat {
    winning_faces_below(current_rolls, die, 6)
}

/// Counts the faces of `die` that would win the trick if rolled next.
pub fn die_winning_face_count(die: DieType, current_rolls: &[RolledDie]) -> (r: u8)
    ensures
        r == winning_faces(current_rolls@, die),
        r <= 6,
{
    let faces = die.faces();
    let mut count: u8 = 0;
    let mut k: usize = 0;
    while k < 6
        invariant
            0 <= k <= 6,
            faces@ == die.face_seq(),
            count == winning_faces_below(current_rolls@, die, k as int),
            count <= k,
        decreases 6 - k,
    {
        let mut rolls: Vec<RolledDie> = Vec::new();
        let mut i: usize = 0;
        while i < current_rolls.len()
            invariant
                0 <= i <= current_rolls.len(),
                rolls@ == current_rolls@.subrange(0, i as int),
            decreases current_rolls.len() - i,
        {
            rolls.push(current_rolls[i]);
            i = i + 1;
            assert(rolls@ =~= current_rolls@.subrange(0, i as int));
        }
        let n = rolls.len();
        rolls.push(RolledDie::new(die, faces[k], n));
        assert(rolls@ =~= current_rolls@.push(
            RolledDie { die_type: die, face: die.face_seq()[k as int], roll_order: n },
        ));
        if trick_winner(rolls.as_slice()) == n {
            count = count + 1;
        }
        k = k + 1;
    }
    count
}

/// Tie-break rank of a die: weaker dice rank lower.
pub open spec fn spec_die_strength_key(die: DieType) -> (u8, u8) {
    match die {
        DieType::Gray => (0, 0),
        DieType::Purple => (1, 0),
        DieType::Yellow => (2, 0),
        DieType::Red => (3, 0),
        DieType::Mermaid => (4, 0),
        DieType::Griffin => (5, 0),
        DieType::Minotaur => (6, 0),
    }
}

/// Tie-break rank of a die: Gray < Purple < Yellow < Red < Mermaid < Griffin < Minotaur.
pub fn die_strength_key(die: DieType) -> (r: (u8, u8))
    ensures
        r == spec_die_strength_key(die),
{
    match die {
        DieType::Gray => (0, 0),
        DieType::Purple => (1, 0),
        DieType::Yellow => (2, 0),
        DieType::Red => (3, 0),
        DieType::Mermaid => (4, 0),
        DieType::Griffin => (5, 0),
        DieType::Minotaur => (6, 0),
    }
}

/// Whether some legal play could lose the trick (fewer than six winning faces).
pub open spec fn some_legal_play_can_lose(
    led_color: Option<DieType>,
    current_rolls: Seq<RolledDie>,
    remaining: Seq<usize>,
    hand: Seq<DieType>,
) -> bool {
    exists|x: usize|
        is_legal_play(led_color, remaining, hand, x) && #[trigger] winning_faces(
            current_rolls,
            hand[x as int],
        ) < 6
}

/// Whether the die at `x` is among the dice considered: a legal play that can
/// lose the trick, or any legal play when every one of them surely wins.
pub open spec fn is_candidate_play(
    led_color: Option<DieType>,
    current_rolls: Seq<RolledDie>,
    remaining: Seq<usize>,
    hand: Seq<DieType>,
    x: usize,
) -> bool {
    &&& is_legal_play(led_color, remaining, hand, x)
    &&& some_legal_play_can_lose(led_color, current_rolls, remaining, hand) ==> winning_faces(
        current_rolls,
        hand[x as int],
    ) < 6
}

/// Whether playing the die at `x` is preferred over (or equal to) playing `y`:
/// fewer winning faces, then a weaker die, then the earlier index.
pub open spec fn play_preferred(
    current_rolls: Seq<RolledDie>,
    hand: Seq<DieType>,
    x: usize,
    y: usize,
) -> bool {
    let wx = winning_faces(current_rolls, hand[x as int]);
    let wy = winning_faces(current_rolls, hand[y as int]);
    let sx = spec_die_strength_key(hand[x as int]).0;
    let sy = spec_die_strength_key(hand[y as int]).0;
    wx < wy || (wx == wy && (sx < sy || (sx == sy && x <= y)))
}

/// Pick a die to play given suit-following constraints and the dice already
/// rolled this trick: among the legal plays, those that can still lose the
/// trick are preferred (all legal plays if none can lose), and among those the
/// die with the fewest winning faces, then the weakest die, then the first in
/// hand order.
pub fn choose_die_to_play_against(
    led_color: Option<DieType>,
    current_rolls: &[RolledDie],
    remaining_indices: &[usize],
    hand: &[DieType],
) -> (r: usize)
    requires
        remaining_indices.len() >= 1,
        indices_in_hand(remaining_indices@, hand@),
    ensures
        r < hand.len(),
        is_candidate_play(led_color, current_rolls@, remaining_indices@, hand@, r),
        forall|x: usize|
            is_candidate_play(led_color, current_rolls@, remaining_indices@, hand@, x)
                ==> play_preferred(current_rolls@, hand@, r, x),
{
    let legal = legal_die_choices(led_color, remaining_indices, hand);
    proof {
        // Every legal play is listed, and everything listed is a legal play.
        assert forall|x: usize| #[trigger] is_legal_play(led_color, remaining_indices@, hand@, x)
            <==> legal@.contains(x) by {
            if !can_match_color(led_color, remaining_indices@, hand@) {
                assert(legal@ == remaining_indices@);
            }
        }
        if can_match_color(led_color, remaining_indices@, hand@) {
            let k = choose|k: int|
                0 <= k < remaining_indices.len() && led_color == Some(
                    #[trigger] hand@[remaining_indices@[k] as int],
                );
            let x = remaining_indices@[k];
            assert(remaining_indices@.contains(x));
            assert(is_legal_play(led_color, remaining_indices@, hand@, x));
        } else {
            assert(is_legal_play(led_color, remaining_indices@, hand@, remaining_indices@[0]));
        }
        assert(legal.len() >= 1);
        assert forall|k: int| 0 <= k < legal.len() implies #[trigger] legal@[k] < hand.len() by {
            assert(legal@.contains(legal@[k]));
            assert(is_legal_play(led_color, remaining_indices@, hand@, legal@[k]));
            let j = choose|j: int|
                0 <= j < remaining_indices@.len() && remaining_indices@[j] == legal@[k];
        }
    }
    // Is there a legal play that can lose?
    let mut any_losing = false;
    let mut k: usize = 0;
    while k < legal.len()
        invariant
            0 <= k <= legal.len(),
            forall|j: int| 0 <= j < legal.len() ==> #[trigger] legal@[j] < hand.len(),
            any_losing == exists|j: int|
                0 <= j < k && #[trigger] winning_faces(current_rolls@, hand@[legal@[j] as int]) < 6,
        decreases legal.len() - k,
    {
        if die_winning_face_count(hand[legal[k]], current_rolls) < 6 {
            any_losing = true;
        }
        k = k + 1;
    }
    proof {
        assert(any_losing == some_legal_play_can_lose(
            led_color,
            current_rolls@,
            remaining_indices@,
            hand@,
        )) by {
            if any_losing {
                let j = choose|j: int|
                    0 <= j < legal.len() && #[trigger] winning_faces(
                        current_rolls@,
                        hand@[legal@[j] as int],
                    ) < 6;
                assert(legal@.contains(legal@[j]));
                assert(is_legal_play(led_color, remaining_indices@, hand@, legal@[j]));
            }
            if some_legal_play_can_lose(led_color, current_rolls@, remaining_indices@, hand@) {
                let x = choose|x: usize|
                    is_legal_play(led_color, remaining_indices@, hand@, x) && #[trigger] winning_faces(
                        current_rolls@,
                        hand[x as int],
                    ) < 6;
                assert(legal@.contains(x));
                let j = choose|j: int| 0 <= j < legal.len() && legal@[j] == x;
                assert(winning_faces(current_rolls@, hand@[legal@[j] as int]) < 6);
            }
        }
    }
    // The preferred candidate.
    let mut best: usize = hand.len();
    let mut best_wins: u8 = 7;
    let mut best_strength: u8 = 0;
    let mut k: usize = 0;
    while k < legal.len()
        invariant
            0 <= k <= legal.len(),
            legal.len() >= 1,
            forall|j: int| 0 <= j < legal.len() ==> #[trigger] legal@[j] < hand.len(),
            any_losing == some_legal_play_can_lose(
                led_color,
                current_rolls@,
                remaining_indices@,
                hand@,
            ),
            forall|x: usize| #[trigger] is_legal_play(led_color, remaining_indices@, hand@, x)
                <==> legal@.contains(x),
            best == hand.len() ==> forall|j: int|
                0 <= j < k ==> !is_candidate_play(
                    led_color,
                    current_rolls@,
                    remaining_indices@,
                    hand@,
                    #[trigger] legal@[j],
                ),
            best < hand.len() ==> {
                &&& is_candidate_play(
                    led_color,
                    current_rolls@,
                    remaining_indices@,
                    hand@,
                    best,
                )
                &&& best_wins == winning_faces(current_rolls@, hand@[best as int])
                &&& best_strength == spec_die_strength_key(hand@[best as int]).0
                &&& forall|j: int|
                    0 <= j < k && is_candidate_play(
                        led_color,
                        current_rolls@,
                        remaining_indices@,
                        hand@,
                        #[trigger] legal@[j],
                    ) ==> play_preferred(current_rolls@, hand@, best, legal@[j])
            },
            best <= hand.len(),
        decreases legal.len() - k,
    {
        let idx = legal[k];
        let wins = die_winning_face_count(hand[idx], current_rolls);
        proof {
            assert(legal@.contains(idx));
        }
        if !any_losing || wins < 6 {
            let strength = die_strength_key(hand[idx]).0;
            if best == hand.len() || wins < best_wins || (wins == best_wins && (strength
                < best_strength || (strength == best_strength && idx < best))) {
                best = idx;
                best_wins = wins;
                best_strength = strength;
            }
        }
        k = k + 1;
    }
    proof {
        assert(legal@.contains(legal@[0]));
        assert forall|x: usize|
            is_candidate_play(
                led_color,
                current_rolls@,
                remaining_indices@,
                hand@,
                x,
            ) implies play_preferred(current_rolls@, hand@, best, x) by {
            let j = choose|j: int| 0 <= j < legal.len() && legal@[j] == x;
            assert(is_candidate_play(
                led_color,
                current_rolls@,
                remaining_indices@,
                hand@,
                legal@[j],
            ));
        }
    }
    best
}

// ── Special-capture bonuses ───────────────────────────────────────────────────

/// Bonus earned by the winner of one trick.
#[derive(Debug, Clone, Copy, PartialEq, Eq, Structural)]
pub struct TrickBonusOutcome {
    pub points: i64,
    pub mermaid_captures_minotaur: bool,
    pub minotaur_captures_griffin: bool,
}

impl Default for TrickBonusOutcome {
    fn default() -> (r: Self)
        ensures
            r == no_bonus(),
    {
        TrickBonusOutcome {
            points: 0,
            mermaid_captures_minotaur: false,
            minotaur_captures_griffin: false,
        }
    }
}

/// No bonus at all.
pub open spec fn no_bonus() -> TrickBonusOutcome {
    TrickBonusOutcome { points: 0, mermaid_captures_minotaur: false, minotaur_captures_griffin: false }
}

/// Whether some roll of the trick shows `f`.
pub open spec fn shows_face(rolls: Seq<RolledDie>, f: Face) -> bool {
    exists|i: int| 0 <= i < rolls.len() && (#[trigger] rolls[i]).face == f
}

/// The bonus for winning a trick: none if any flag was rolled; otherwise 50
/// when a Mermaid wins a trick holding a Minotaur, 30 when a Minotaur wins a
/// trick holding a Griffin.
pub open spec fn spec_trick_bonus(rolls: Seq<RolledDie>, winner_roll_idx: int) -> TrickBonusOutcome {
    let winner_face = rolls[winner_roll_idx].face;
    if shows_face(rolls, Face::Flag) {
        no_bonus()
    } else if winner_face == Face::Mermaid && shows_face(rolls, Face::Minotaur) {
        TrickBonusOutcome { points: 50, mermaid_captures_minotaur: true, minotaur_captures_griffin: false }
    } else if winner_face == Face::Minotaur && shows_face(rolls, Face::Griffin) {
        TrickBonusOutcome { points: 30, mermaid_captures_minotaur: false, minotaur_captures_griffin: true }
    } else {
        no_bonus()
    }
}

/// The capture bonus depends on what the trick holds, not on the order of
/// the rolls: with no flag rolled, a trick won by a Mermaid in which a
/// Minotaur was rolled anywhere (before or after the winner) earns 50 points
/// and the Mermaid capture; one won by a Minotaur with a Griffin anywhere in
/// it earns 30 points and the Minotaur capture; any trick with a flag, and
/// any other trick, earns nothing.
pub proof fn lemma_capture_bonus_rules(rolls: Seq<RolledDie>, w: int, i: int)
    requires
        0 <= w < rolls.len(),
        0 <= i < rolls.len(),
    ensures
        (forall|j: int| 0 <= j < rolls.len() ==> (#[trigger] rolls[j]).face != Face::Flag)
            && rolls[w].face == Face::Mermaid && rolls[i].face == Face::Minotaur
            ==> spec_trick_bonus(rolls, w) == (TrickBonusOutcome {
            points: 50,
            mermaid_captures_minotaur: true,
            minotaur_captures_griffin: false,
        }),
        (forall|j: int| 0 <= j < rolls.len() ==> (#[trigger] rolls[j]).face != Face::Flag)
            && rolls[w].face == Face::Minotaur && rolls[i].face == Face::Griffin
            ==> spec_trick_bonus(rolls, w) == (TrickBonusOutcome {
            points: 30,
            mermaid_captures_minotaur: false,
            minotaur_captures_griffin: true,
        }),
        rolls[i].face == Face::Flag ==> spec_trick_bonus(rolls, w) == (TrickBonusOutcome {
            points: 0,
            mermaid_captures_minotaur: false,
            minotaur_captures_griffin: false,
        }),
        rolls[w].face != Face::Mermaid && rolls[w].face != Face::Minotaur ==> spec_trick_bonus(
            rolls,
            w,
        ).points == 0,
        spec_trick_bonus(rolls, w).points > 0 ==> exists|j: int|
            0 <= j < rolls.len() && j != w && (#[trigger] rolls[j]).face.spec_is_special(),
{
    if rolls[i].face == Face::Flag {
        assert(shows_face(rolls, Face::Flag));
    }
    if (forall|j: int| 0 <= j < rolls.len() ==> (#[trigger] rolls[j]).face != Face::Flag) {
        assert(!shows_face(rolls, Face::Flag));
    }
    if rolls[w].face == Face::Mermaid && rolls[i].face == Face::Minotaur {
        assert(shows_face(rolls, Face::Minotaur));
    }
    if rolls[w].face == Face::Minotaur && rolls[i].face == Face::Griffin {
        assert(shows_face(rolls, Face::Griffin));
    }
    if spec_trick_bonus(rolls, w).points > 0 {
        if rolls[w].face == Face::Mermaid {
            let j = choose|j: int| 0 <= j < rolls.len() && (#[trigger] rolls[j]).face == Face::Minotaur;
            assert(j != w);
        } else {
            let j = choose|j: int| 0 <= j < rolls.len() && (#[trigger] rolls[j]).face == Face::Griffin;
            assert(j != w);
        }
    }
}

fn any_face(rolls: &[RolledDie], f: Face) -> (r: bool)
    ensures
        r == shows_face(rolls@, f),
{
    let mut i: usize = 0;
    while i < rolls.len()
        invariant
            0 <= i <= rolls.len(),
            forall|k: int| 0 <= k < i ==> (#[trigger] rolls@[k]).face != f,
        decreases rolls.len() - i,
    {
        if rolls[i].face == f {
            return true;
        }
        i = i + 1;
    }
    false
}

/// Bonus points for the winner of a trick (special captures).
pub fn trick_bonus_points(rolls: &[RolledDie], winner_roll_idx: usize) -> (r: TrickBonusOutcome)
    requires
        winner_roll_idx < rolls.len(),
    ensures
        r == spec_trick_bonus(rolls@, winner_roll_idx as int),
{
    let winner_face = rolls[winner_roll_idx].face;
    let any_flag = any_face(rolls, Face::Flag);
    if any_flag {
        return TrickBonusOutcome::default();
    }
    if winner_face == Face::Mermaid && any_face(rolls, Face::Minotaur) {
        return TrickBonusOutcome {
            points: 50,
            mermaid_captures_minotaur: true,
            minotaur_captures_griffin: false,
        };
    }
    if winner_face == Face::Minotaur && any_face(rolls, Face::Griffin) {
        return TrickBonusOutcome {
            points: 30,
            mermaid_captures_minotaur: false,
            minotaur_captures_griffin: true,
        };
    }
    TrickBonusOutcome::default()
}

/// Roll a random face from a die.
pub fn random_face<R: Rng>(die: DieType, rng: &mut R) -> (r: Face)
    ensures
        exists|k: int|
            0 <= k < 6 && r == #[trigger] die.face_seq()[k] && final(rng).draws() == old(
                rng,
            ).draws().push((6usize, k as usize)),
{
    let faces = die.faces();
    let k = rng.next_usize(6);
    faces[k]
}

// ── Simulating one round ──────────────────────────────────────────────────────

/// Per-player result of one simulated round.
#[derive(Debug)]
pub struct RoundOutcome {
    pub tricks_won: Vec<usize>,
    pub bonus_points: Vec<i64>,
    pub mermaid_capture_won: Vec<bool>,
    pub minotaur_capture_won: Vec<bool>,
}

/// The sum of a sequence of counts.
pub open spec fn sum_counts(s: Seq<usize>) -> int
    decreases s.len(),
{
    if s.len() == 0 {
        0
    } else {
        sum_counts(s.drop_last()) + s.last()
    }
}

proof fn lemma_sum_counts_update(s: Seq<usize>, i: int, v: usize)
    requires
        0 <= i < s.len(),
    ensures
        sum_counts(s.update(i, v)) == sum_counts(s) - s[i] + v,
    decreases s.len(),
{
    if i < s.len() - 1 {
        lemma_sum_counts_update(s.drop_last(), i, v);
        assert(s.update(i, v).drop_last() =~= s.drop_last().update(i, v));
    } else {
        assert(s.update(i, v).drop_last() =~= s.drop_last());
    }
}

proof fn lemma_sum_counts_zeros(n: nat)
    ensures
        sum_counts(Seq::new(n, |i: int| 0usize)) == 0,
    decreases n,
{
    if n > 0 {
        lemma_sum_counts_zeros((n - 1) as nat);
        assert(Seq::new(n, |i: int| 0usize).drop_last() =~= Seq::new((n - 1) as nat, |i: int| 0usize));
    }
}

proof fn lemma_mod_below_twice(a: int, m: int)
    requires
        0 < m,
        0 <= a < 2 * m,
    ensures
        a % m == if a < m {
            a
        } else {
            a - m
        },
{
    vstd::arithmetic::div_mod::lemma_fundamental_div_mod(a, m);
    assert(0 <= a % m < m) by {
        vstd::arithmetic::div_mod::lemma_mod_bound(a, m);
    }
    if a < m {
        assert(a / m == 0) by (nonlinear_arith)
            requires
                a == m * (a / m) + (a % m),
                0 <= a % m < m,
                0 <= a < m,
        ;
    } else {
        assert(a / m == 1) by (nonlinear_arith)
            requires
                a == m * (a / m) + (a % m),
                0 <= a % m < m,
                m <= a < 2 * m,
        ;
    }
}

/// The indices `0..n`.
fn index_range(n: usize) -> (r: Vec<usize>)
    ensures
        r.len() == n,
        forall|k: int| 0 <= k < n ==> r[k] == k,
{
    let mut r: Vec<usize> = Vec::new();
    let mut i: usize = 0;
    while i < n
        invariant
            0 <= i <= n,
            r.len() == i,
            forall|k: int| 0 <= k < i ==> r[k] == k,
        decreases n - i,
    {
        r.push(i);
        i = i + 1;
    }
    r
}

fn position_of(v: &[usize], x: usize) -> (r: Option<usize>)
    ensures
        r matches Some(pos) ==> pos < v.len() && v@[pos as int] == x,
        r is None ==> !v@.contains(x),
{
    let mut i: usize = 0;
    while i < v.len()
        invariant
            0 <= i <= v.len(),
            forall|k: int| 0 <= k < i ==> v@[k] != x,
        decreases v.len() - i,
    {
        if v[i] == x {
            return Some(i);
        }
        i = i + 1;
    }
    None
}

/// The least bonus a player's captures in one round bring: 50 for a Mermaid
/// capturing a Minotaur, 30 for a Minotaur capturing a Griffin (no trick
/// brings both).
pub open spec fn capture_floor(mermaid: bool, minotaur: bool) -> int {
    (if mermaid {
        50int
    } else {
        0int
    }) + (if minotaur {
        30int
    } else {
        0int
    })
}

/// Only a Mermaid die shows a Mermaid, and only a Minotaur die a Minotaur.
proof fn lemma_special_face_needs_its_die(d: DieType, f: Face)
    requires
        d.face_seq().contains(f),
    ensures
        f == Face::Mermaid ==> d == DieType::Mermaid,
        f == Face::Minotaur ==> d == DieType::Minotaur,
{
    let k = choose|k: int| 0 <= k < d.face_seq().len() && d.face_seq()[k] == f;
    assert(0 <= k < 6);
}

/// One played trick: the seat that led it and the rolls in play order.
pub type PlayedTrick = (int, Seq<RolledDie>);

/// The seat that wins `trick` at a table of `n` seats.
pub open spec fn trick_winner_seat(n: int, trick: PlayedTrick) -> int {
    (trick.0 + spec_trick_winner(trick.1)) % n
}

/// Every seat rolled once in `trick`, in seat order from its leader, a die
/// of its own hand, showing a face of that die.
#[verifier::opaque]
pub open spec fn trick_played_from(hands: Seq<Seq<DieType>>, trick: PlayedTrick) -> bool {
    let n = hands.len() as int;
    &&& 0 <= trick.0 < n
    &&& trick.1.len() == n
    &&& forall|o: int|
        0 <= o < n ==> {
            let roll = #[trigger] trick.1[o];
            &&& roll.roll_order == o
            &&& hands[(trick.0 + o) % n].contains(roll.die_type)
            &&& roll.die_type.face_seq().contains(roll.face)
        }
}

/// `trace` is a play of tricks from `hands`: the first led by
/// `starting_leader`, each next one led by the winner of the one before.
pub open spec fn round_trace_valid(
    hands: Seq<Seq<DieType>>,
    starting_leader: int,
    trace: Seq<PlayedTrick>,
) -> bool {
    &&& forall|t: int| 0 <= t < trace.len() ==> trick_played_from(hands, #[trigger] trace[t])
    &&& trace.len() > 0 ==> trace[0].0 == starting_leader
    &&& forall|t: int|
        0 <= t < trace.len() - 1 ==> #[trigger] trace[t + 1].0 == trick_winner_seat(
            hands.len() as int,
            trace[t],
        )
}

/// Which die each seat plays in a trick: `remaining[p]` holds the indices of
/// seat `p`'s dice still in hand before the trick and `chosen[p]` the index
/// it plays. The leader plays its first remaining die; every other seat
/// plays a legal die for the color led; each roll is of the die played.
#[verifier::opaque]
pub open spec fn trick_follows_rules(
    hands: Seq<Seq<DieType>>,
    trick: PlayedTrick,
    remaining: Seq<Seq<usize>>,
    chosen: Seq<usize>,
) -> bool {
    let n = hands.len() as int;
    let leader = trick.0;
    let led = hands[leader][chosen[leader] as int];
    let led_color = if led.spec_is_special_die() {
        None
    } else {
        Some(led)
    };
    &&& remaining.len() == n
    &&& chosen.len() == n
    &&& remaining[leader].len() > 0
    &&& chosen[leader] == remaining[leader][0]
    &&& forall|p: int|
        0 <= p < n && p != leader ==> is_legal_play(
            led_color,
            remaining[p],
            hands[p],
            #[trigger] chosen[p],
        )
    &&& forall|o: int|
        0 <= o < n ==> (#[trigger] trick.1[o]).die_type == hands[(leader + o) % n][chosen[(leader
            + o) % n] as int]
}

/// `after` is `before` with one occurrence of `x` taken out.
pub open spec fn removed_once(before: Seq<usize>, x: usize, after: Seq<usize>) -> bool {
    exists|k: int| 0 <= k < before.len() && before[k] == x && #[trigger] before.remove(k) == after
}

/// `next` is `remaining` once every seat's chosen die has left its hand.
#[verifier::opaque]
pub open spec fn remaining_after(
    remaining: Seq<Seq<usize>>,
    chosen: Seq<usize>,
    next: Seq<Seq<usize>>,
) -> bool {
    &&& next.len() == remaining.len()
    &&& forall|p: int|
        0 <= p < remaining.len() ==> #[trigger] removed_once(remaining[p], chosen[p], next[p])
}

/// Where seat `p` stands while the seats after `leader` play in turn, `order`
/// of the `n` seats having played: a seat that played holds its dice before
/// the trick but the one it chose, any other seat holds them all.
#[verifier::opaque]
pub open spec fn seat_step(
    before: Seq<Seq<usize>>,
    chosen: Seq<usize>,
    now: Seq<Seq<usize>>,
    p: int,
    leader: usize,
    n: usize,
    order: usize,
) -> bool {
    if (p + n - leader) % (n as int) < order {
        removed_once(before[p], chosen[p], now[p])
    } else {
        now[p] == before[p]
    }
}

/// The index sequences held in `v`.
pub open spec fn indices_view(v: Seq<Vec<usize>>) -> Seq<Seq<usize>> {
    Seq::new(v.len(), |p: int| v[p]@)
}

/// Every seat starts the round with all of its `h` dice.
pub open spec fn all_dice_remaining(n: int, h: int) -> Seq<Seq<usize>> {
    Seq::new(n as nat, |p: int| Seq::new(h as nat, |i: int| i as usize))
}

/// The dice played in the tricks of `trace`: `plays[t]` holds the remaining
/// dice before trick `t` and the die each seat plays in it, every seat
/// starting with all `h` dice and losing the one it plays in each trick.
#[verifier::opaque]
pub open spec fn plays_follow_rules(
    hands: Seq<Seq<DieType>>,
    h: int,
    trace: Seq<PlayedTrick>,
    plays: Seq<(Seq<Seq<usize>>, Seq<usize>)>,
) -> bool {
    &&& plays.len() == trace.len()
    &&& plays.len() > 0 ==> plays[0].0 == all_dice_remaining(hands.len() as int, h)
    &&& forall|t: int|
        0 <= t < plays.len() ==> trick_follows_rules(hands, trace[t], (#[trigger] plays[t]).0, plays[t].1)
    &&& forall|t: int|
        0 <= t < plays.len() - 1 ==> remaining_after(
            (#[trigger] plays[t]).0,
            plays[t].1,
            plays[t + 1].0,
        )
}

/// The bonus the winner of `trick` earns.
pub open spec fn trick_bonus_of(trick: PlayedTrick) -> TrickBonusOutcome {
    spec_trick_bonus(trick.1, spec_trick_winner(trick.1))
}

/// The number of tricks of `trace` won by seat `p`.
pub open spec fn tricks_won_in(n: int, trace: Seq<PlayedTrick>, p: int) -> int
    decreases trace.len(),
{
    if trace.len() == 0 {
        0
    } else {
        tricks_won_in(n, trace.drop_last(), p) + if trick_winner_seat(n, trace.last()) == p {
            1int
        } else {
            0int
        }
    }
}

/// The bonus points seat `p` earns over the tricks of `trace` it wins.
pub open spec fn bonus_won_in(n: int, trace: Seq<PlayedTrick>, p: int) -> int
    decreases trace.len(),
{
    if trace.len() == 0 {
        0
    } else {
        bonus_won_in(n, trace.drop_last(), p) + if trick_winner_seat(n, trace.last()) == p {
            trick_bonus_of(trace.last()).points as int
        } else {
            0int
        }
    }
}

/// Whether seat `p` wins a trick of `trace` with a Mermaid capturing a Minotaur.
pub open spec fn mermaid_capture_in(n: int, trace: Seq<PlayedTrick>, p: int) -> bool
    decreases trace.len(),
{
    if trace.len() == 0 {
        false
    } else {
        mermaid_capture_in(n, trace.drop_last(), p) || (trick_winner_seat(n, trace.last()) == p
            && trick_bonus_of(trace.last()).mermaid_captures_minotaur)
    }
}

/// Whether seat `p` wins a trick of `trace` with a Minotaur capturing a Griffin.
pub open spec fn minotaur_capture_in(n: int, trace: Seq<PlayedTrick>, p: int) -> bool
    decreases trace.len(),
{
    if trace.len() == 0 {
        false
    } else {
        minotaur_capture_in(n, trace.drop_last(), p) || (trick_winner_seat(n, trace.last()) == p
            && trick_bonus_of(trace.last()).minotaur_captures_griffin)
    }
}

/// What one more trick adds to a seat's tallies.
proof fn lemma_trace_push_tallies(n: int, trace: Seq<PlayedTrick>, trick: PlayedTrick, p: int)
    ensures
        ({
            let won = trick_winner_seat(n, trick) == p;
            let b = trick_bonus_of(trick);
            let next = trace.push(trick);
            &&& tricks_won_in(n, next, p) == tricks_won_in(n, trace, p) + if won {
                1int
            } else {
                0int
            }
            &&& bonus_won_in(n, next, p) == bonus_won_in(n, trace, p) + if won {
                b.points as int
            } else {
                0int
            }
            &&& mermaid_capture_in(n, next, p) == (mermaid_capture_in(n, trace, p) || (won
                && b.mermaid_captures_minotaur))
            &&& minotaur_capture_in(n, next, p) == (minotaur_capture_in(n, trace, p) || (won
                && b.minotaur_captures_griffin))
        }),
{
    assert(trace.push(trick).drop_last() =~= trace);
}

/// One more trick, led by the winner of the last one and played by the
/// rules from what the seats hold, extends a valid play of the round.
proof fn lemma_round_extended(
    hands: Seq<Seq<DieType>>,
    starting_leader: int,
    h: int,
    trace: Seq<PlayedTrick>,
    plays: Seq<(Seq<Seq<usize>>, Seq<usize>)>,
    trick: PlayedTrick,
    play: (Seq<Seq<usize>>, Seq<usize>),
)
    requires
        round_trace_valid(hands, starting_leader, trace),
        plays_follow_rules(hands, h, trace, plays),
        trick_played_from(hands, trick),
        trick_follows_rules(hands, trick, play.0, play.1),
        trace.len() == 0 ==> trick.0 == starting_leader && play.0 == all_dice_remaining(
            hands.len() as int,
            h,
        ),
        trace.len() > 0 ==> trick.0 == trick_winner_seat(hands.len() as int, trace.last())
            && remaining_after(plays.last().0, plays.last().1, play.0),
    ensures
        round_trace_valid(hands, starting_leader, trace.push(trick)),
        plays_follow_rules(hands, h, trace.push(trick), plays.push(play)),
{
    reveal(plays_follow_rules);
    let tr = trace.push(trick);
    let pl = plays.push(play);
    assert forall|u: int| 0 <= u < tr.len() implies trick_played_from(hands, #[trigger] tr[u]) by {
        if u < trace.len() {
            assert(tr[u] == trace[u]);
        }
    }
    assert forall|u: int| 0 <= u < tr.len() - 1 implies #[trigger] tr[u + 1].0 == trick_winner_seat(
        hands.len() as int,
        tr[u],
    ) by {
        if u + 1 < trace.len() {
            assert(tr[u + 1] == trace[u + 1]);
            assert(tr[u] == trace[u]);
        } else {
            assert(tr[u] == trace.last());
        }
    }
    assert forall|u: int| 0 <= u < pl.len() implies trick_follows_rules(
        hands,
        tr[u],
        (#[trigger] pl[u]).0,
        pl[u].1,
    ) by {
        if u < plays.len() {
            assert(pl[u] == plays[u]);
            assert(tr[u] == trace[u]);
        }
    }
    assert forall|u: int| 0 <= u < pl.len() - 1 implies remaining_after(
        (#[trigger] pl[u]).0,
        pl[u].1,
        pl[u + 1].0,
    ) by {
        if u + 1 < plays.len() {
            assert(pl[u] == plays[u]);
            assert(pl[u + 1] == plays[u + 1]);
        } else {
            assert(pl[u] == plays.last());
        }
    }
    if trace.len() > 0 {
        assert(pl[0] == plays[0]);
        assert(tr[0] == trace[0]);
    }
}

/// `outcome` is what seat `p` gets from the tricks of `trace`.
/// `outcome` is what seat `p` gets from the tricks of `trace`.
pub open spec fn outcome_of_trace(outcome: RoundOutcome, n: int, trace: Seq<PlayedTrick>) -> bool {
    &&& outcome.tricks_won.len() == n
    &&& outcome.bonus_points.len() == n
    &&& outcome.mermaid_capture_won.len() == n
    &&& outcome.minotaur_capture_won.len() == n
    &&& forall|p: int|
        0 <= p < n ==> {
            &&& #[trigger] outcome.tricks_won[p] == tricks_won_in(n, trace, p)
            &&& outcome.bonus_points[p] == bonus_won_in(n, trace, p)
            &&& outcome.mermaid_capture_won[p] == mermaid_capture_in(n, trace, p)
            &&& outcome.minotaur_capture_won[p] == minotaur_capture_in(n, trace, p)
        }
}

/// `draw` gave `roll` its face: a value below 6 picking the face of the
/// rolled die.
pub open spec fn face_drawn(roll: RolledDie, draw: (usize, usize)) -> bool {
    &&& draw.0 == 6
    &&& draw.1 < 6
    &&& roll.face == roll.die_type.face_seq()[draw.1 as int]
}

/// `draw` picked `choice` from the list of legal plays: its bound is the
/// number of legal plays and its value the position of the die played.
pub open spec fn choice_drawn(
    led_color: Option<DieType>,
    remaining: Seq<usize>,
    hand: Seq<DieType>,
    choice: usize,
    draw: (usize, usize),
) -> bool {
    exists|legal: Seq<usize>|
        #[trigger] legal_choice_list(led_color, remaining, hand, legal) && draw.0 == legal.len()
            && draw.1 < legal.len() && choice == legal[draw.1 as int]
}

/// The color led when the leader plays `chosen[leader]`: none for a special die.
pub open spec fn led_color_of(hands: Seq<Seq<DieType>>, leader: int, chosen: Seq<usize>) -> Option<
    DieType,
> {
    let led = hands[leader][chosen[leader] as int];
    if led.spec_is_special_die() {
        None
    } else {
        Some(led)
    }
}

/// The draws of the first `m` rolls of a trick led by `leader`: draw `2 * o`
/// gives roll `o` its face, and for every roll but the leader's, draw
/// `2 * o - 1` picks the seat's die from its legal plays.
#[verifier::opaque]
pub open spec fn rolls_drawn(
    hands: Seq<Seq<DieType>>,
    leader: int,
    led_color: Option<DieType>,
    remaining: Seq<Seq<usize>>,
    chosen: Seq<usize>,
    rolls: Seq<RolledDie>,
    draws: Seq<(usize, usize)>,
    m: int,
) -> bool {
    let n = hands.len() as int;
    &&& draws.len() == 2 * m - 1
    &&& forall|o: int|
        0 <= o < m ==> face_drawn(#[trigger] rolls[o], draws[2 * o]) && (o >= 1 ==> choice_drawn(
            led_color,
            remaining[(leader + o) % n],
            hands[(leader + o) % n],
            chosen[(leader + o) % n],
            draws[2 * o - 1],
        ))
}

/// The draws of one trick, `remaining` and `chosen` as in
/// `trick_follows_rules`: every face rolled and every die played after the
/// leader's.
pub open spec fn trick_drawn(
    hands: Seq<Seq<DieType>>,
    trick: PlayedTrick,
    remaining: Seq<Seq<usize>>,
    chosen: Seq<usize>,
    draws: Seq<(usize, usize)>,
) -> bool {
    rolls_drawn(
        hands,
        trick.0,
        led_color_of(hands, trick.0, chosen),
        remaining,
        chosen,
        trick.1,
        draws,
        hands.len() as int,
    )
}

/// The leader's roll and the face drawn for it.
proof fn lemma_rolls_drawn_first(
    hands: Seq<Seq<DieType>>,
    leader: int,
    led_color: Option<DieType>,
    remaining: Seq<Seq<usize>>,
    chosen: Seq<usize>,
    roll: RolledDie,
    draw: (usize, usize),
)
    requires
        face_drawn(roll, draw),
    ensures
        rolls_drawn(hands, leader, led_color, remaining, chosen, seq![roll], seq![draw], 1),
{
    reveal(rolls_drawn);
    assert(seq![roll][0] == roll);
}

/// One more seat picks its die and rolls it.
proof fn lemma_rolls_drawn_extend(
    hands: Seq<Seq<DieType>>,
    leader: int,
    led_color: Option<DieType>,
    remaining: Seq<Seq<usize>>,
    chosen: Seq<usize>,
    chosen2: Seq<usize>,
    rolls: Seq<RolledDie>,
    roll: RolledDie,
    draws: Seq<(usize, usize)>,
    choice: (usize, usize),
    face: (usize, usize),
    m: int,
)
    requires
        1 <= m,
        rolls.len() == m,
        rolls_drawn(hands, leader, led_color, remaining, chosen, rolls, draws, m),
        forall|o: int|
            0 <= o < m ==> chosen2[(leader + o) % (hands.len() as int)] == #[trigger] chosen[(leader
                + o) % (hands.len() as int)],
        choice_drawn(
            led_color,
            remaining[(leader + m) % (hands.len() as int)],
            hands[(leader + m) % (hands.len() as int)],
            chosen2[(leader + m) % (hands.len() as int)],
            choice,
        ),
        face_drawn(roll, face),
    ensures
        rolls_drawn(
            hands,
            leader,
            led_color,
            remaining,
            chosen2,
            rolls.push(roll),
            draws.push(choice).push(face),
            m + 1,
        ),
{
    reveal(rolls_drawn);
    let n = hands.len() as int;
    let r2 = rolls.push(roll);
    let d2 = draws.push(choice).push(face);
    assert forall|o: int| 0 <= o < m + 1 implies face_drawn(#[trigger] r2[o], d2[2 * o]) && (o >= 1
        ==> choice_drawn(
        led_color,
        remaining[(leader + o) % n],
        hands[(leader + o) % n],
        chosen2[(leader + o) % n],
        d2[2 * o - 1],
    )) by {
        if o < m {
            assert(r2[o] == rolls[o]);
            assert(d2[2 * o] == draws[2 * o]);
            if o >= 1 {
                assert(d2[2 * o - 1] == draws[2 * o - 1]);
                assert(chosen2[(leader + o) % n] == chosen[(leader + o) % n]);
            }
        } else {
            assert(d2[2 * o] == face);
            assert(d2[2 * o - 1] == choice);
        }
    }
}

/// The draws of several tricks, one after another.
pub open spec fn concat_draws(ds: Seq<Seq<(usize, usize)>>) -> Seq<(usize, usize)>
    decreases ds.len(),
{
    if ds.len() == 0 {
        Seq::empty()
    } else {
        concat_draws(ds.drop_last()) + ds.last()
    }
}

/// `trace` is played by the rules from `hands` (each holding `hands[0].len()`
/// dice), and `draws` are the generator's draws that picked every die played
/// after a trick's leader and every face rolled, trick after trick.
#[verifier::opaque]
pub open spec fn play_drawn(
    hands: Seq<Seq<DieType>>,
    trace: Seq<PlayedTrick>,
    draws: Seq<(usize, usize)>,
) -> bool {
    exists|plays: Seq<(Seq<Seq<usize>>, Seq<usize>)>, tdraws: Seq<Seq<(usize, usize)>>|
        #![trigger plays_follow_rules(hands, hands[0].len() as int, trace, plays), concat_draws(tdraws)]
        {
            &&& plays_follow_rules(hands, hands[0].len() as int, trace, plays)
            &&& tdraws.len() == trace.len()
            &&& forall|u: int|
                0 <= u < trace.len() ==> trick_drawn(
                    hands,
                    trace[u],
                    plays[u].0,
                    plays[u].1,
                    #[trigger] tdraws[u],
                )
            &&& draws == concat_draws(tdraws)
        }
}

/// `trace` is a play of a round from `hands`, with `starting_leader` leading
/// the first trick, in which every seat plays by the rules; `outcome` is what
/// each seat gets from its tricks, and `draws` are the generator's draws that
/// picked every die played after the leader's and every face rolled.
#[verifier::opaque]
pub open spec fn round_played(
    hands: Seq<Seq<DieType>>,
    starting_leader: int,
    trace: Seq<PlayedTrick>,
    outcome: RoundOutcome,
    draws: Seq<(usize, usize)>,
) -> bool {
    &&& trace.len() == hands[0].len()
    &&& round_trace_valid(hands, starting_leader, trace)
    &&& outcome_of_trace(outcome, hands.len() as int, trace)
    &&& play_drawn(hands, trace, draws)
}

/// Whether all hands have the same number of dice.
pub open spec fn equal_hand_sizes(hands: Seq<Vec<DieType>>) -> bool {
    hands.len() >= 1 && forall|p: int| 0 <= p < hands.len() ==> (#[trigger] hands[p]).len() == hands[0].len()
}

/// Simulate one round trick-by-trick, returning tricks won and bonus points per player.
///
/// The leader plays its first remaining die; every other player, in seat order
/// after the leader, plays a legal die chosen at random; the trick's winner
/// leads the next trick.
#[verifier::rlimit(100)]
#[verifier::spinoff_prover]
pub fn simulate_round<R: Rng>(
    hands: &[Vec<DieType>],
    starting_leader: usize,
    rng: &mut R,
) -> (r: RoundOutcome)
    requires
        equal_hand_sizes(hands@),
        50 * hands[0].len() <= i64::MAX,
        hands.len() <= usize::MAX / 2,
        starting_leader < hands.len(),
    ensures
        r.tricks_won.len() == hands.len(),
        r.bonus_points.len() == hands.len(),
        r.mermaid_capture_won.len() == hands.len(),
        r.minotaur_capture_won.len() == hands.len(),
        sum_counts(r.tricks_won@) == hands[0].len(),
        forall|p: int| 0 <= p < hands.len() ==> #[trigger] r.tricks_won[p] <= hands[0].len(),
        forall|p: int|
            0 <= p < hands.len() ==> 0 <= #[trigger] r.bonus_points[p] <= 50 * r.tricks_won[p],
        forall|p: int|
            0 <= p < hands.len() && #[trigger] r.mermaid_capture_won[p] ==> hands[p]@.contains(
                DieType::Mermaid,
            ),
        forall|p: int|
            0 <= p < hands.len() && #[trigger] r.minotaur_capture_won[p] ==> hands[p]@.contains(
                DieType::Minotaur,
            ),
        forall|p: int|
            0 <= p < hands.len() && #[trigger] r.bonus_points[p] > 0 ==> r.mermaid_capture_won[p]
                || r.minotaur_capture_won[p],
        forall|p: int|
            0 <= p < hands.len() && #[trigger] r.mermaid_capture_won[p] ==> r.bonus_points[p] >= 50,
        forall|p: int|
            0 <= p < hands.len() && #[trigger] r.minotaur_capture_won[p] ==> r.bonus_points[p] >= 30,
        forall|p: int|
            0 <= p < hands.len() ==> #[trigger] r.bonus_points[p] % 10 == 0 && r.bonus_points[p]
                >= capture_floor(r.mermaid_capture_won[p], r.minotaur_capture_won[p]),
        forall|p: int|
            0 <= p < hands.len() && #[trigger] r.mermaid_capture_won[p] ==> exists|q: int|
                0 <= q < hands.len() && q != p && hands[q]@.contains(DieType::Minotaur),
        exists|trace: Seq<PlayedTrick>, drawn: Seq<(usize, usize)>|
            #[trigger] round_played(hands_view(hands@), starting_leader as int, trace, r, drawn)
                && final(rng).draws() == old(rng).draws() + drawn,
{
    let player_count = hands.len();
    let num_tricks = hands[0].len();
    let mut tricks_won: Vec<usize> = vec![0usize; player_count];
    let mut bonus_points: Vec<i64> = vec![0i64; player_count];
    let mut mermaid_capture_won: Vec<bool> = vec![false; player_count];
    let mut minotaur_capture_won: Vec<bool> = vec![false; player_count];
    proof {
        assert(tricks_won@ =~= Seq::new(player_count as nat, |i: int| 0usize));
        lemma_sum_counts_zeros(player_count as nat);
    }

    // Keep a pool of remaining dice per player (indices into their hand).
    let mut remaining: Vec<Vec<usize>> = Vec::new();
    let mut q: usize = 0;
    while q < player_count
        invariant
            0 <= q <= player_count,
            player_count == hands.len(),
            num_tricks == hands[0].len(),
            equal_hand_sizes(hands@),
            remaining.len() == q,
            forall|p: int| 0 <= p < q ==> (#[trigger] remaining[p]).len() == num_tricks,
            forall|p: int| 0 <= p < q ==> indices_in_hand((#[trigger] remaining[p])@, hands[p]@),
            forall|p: int|
                0 <= p < q ==> (#[trigger] remaining[p])@ == Seq::new(
                    num_tricks as nat,
                    |i: int| i as usize,
                ),
        decreases player_count - q,
    {
        let ids = index_range(hands[q].len());
        proof {
            assert(ids@ =~= Seq::new(num_tricks as nat, |i: int| i as usize));
        }
        remaining.push(ids);
        q = q + 1;
    }
    proof {
        assert(indices_view(remaining@) =~= all_dice_remaining(
            player_count as int,
            num_tricks as int,
        ));
    }

    let mut leader = starting_leader;
    let mut t: usize = 0;
    let ghost mut trace: Seq<PlayedTrick> = Seq::empty();
    let ghost mut plays: Seq<(Seq<Seq<usize>>, Seq<usize>)> = Seq::empty();
    let ghost d0 = rng.draws();
    let ghost mut tdraws: Seq<Seq<(usize, usize)>> = Seq::empty();
    proof {
        reveal(plays_follow_rules);
        assert(d0 + concat_draws(tdraws) =~= d0);
    }
    while t < num_tricks
        invariant
            d0 == old(rng).draws(),
            plays.len() == t,
            tdraws.len() == t,
            rng.draws() == d0 + concat_draws(tdraws),
            forall|u: int|
                0 <= u < t ==> trick_drawn(
                    hands_view(hands@),
                    trace[u],
                    plays[u].0,
                    plays[u].1,
                    #[trigger] tdraws[u],
                ),
            plays_follow_rules(hands_view(hands@), num_tricks as int, trace, plays),
            t == 0 ==> indices_view(remaining@) == all_dice_remaining(
                player_count as int,
                num_tricks as int,
            ),
            t > 0 ==> remaining_after(plays.last().0, plays.last().1, indices_view(remaining@)),
            0 <= t <= num_tricks,
            50 * num_tricks <= i64::MAX,
            player_count == hands.len() <= usize::MAX / 2,
            num_tricks == hands[0].len(),
            equal_hand_sizes(hands@),
            leader < player_count,
            remaining.len() == player_count,
            forall|p: int|
                0 <= p < player_count ==> (#[trigger] remaining[p]).len() == num_tricks - t,
            forall|p: int|
                0 <= p < player_count ==> indices_in_hand((#[trigger] remaining[p])@, hands[p]@),
            tricks_won.len() == player_count,
            bonus_points.len() == player_count,
            mermaid_capture_won.len() == player_count,
            minotaur_capture_won.len() == player_count,
            sum_counts(tricks_won@) == t,
            forall|p: int| 0 <= p < player_count ==> #[trigger] tricks_won[p] <= t,
            forall|p: int|
                0 <= p < player_count ==> 0 <= #[trigger] bonus_points[p] <= 50 * tricks_won[p],
            forall|p: int|
                0 <= p < player_count && #[trigger] mermaid_capture_won[p] ==> hands[p]@.contains(
                    DieType::Mermaid,
                ),
            forall|p: int|
                0 <= p < player_count && #[trigger] minotaur_capture_won[p] ==> hands[p]@.contains(
                    DieType::Minotaur,
                ),
            forall|p: int|
                0 <= p < player_count && #[trigger] bonus_points[p] > 0 ==> mermaid_capture_won[p]
                    || minotaur_capture_won[p],
            forall|p: int|
                0 <= p < player_count && #[trigger] mermaid_capture_won[p] ==> bonus_points[p] >= 50,
            forall|p: int|
                0 <= p < player_count && #[trigger] minotaur_capture_won[p] ==> bonus_points[p] >= 30,
            forall|p: int|
                0 <= p < player_count ==> #[trigger] bonus_points[p] % 10 == 0 && bonus_points[p]
                    >= capture_floor(mermaid_capture_won[p], minotaur_capture_won[p]),
            forall|p: int|
                0 <= p < player_count && #[trigger] mermaid_capture_won[p] ==> exists|q: int|
                    0 <= q < player_count && q != p && hands[q]@.contains(DieType::Minotaur),
            trace.len() == t,
            round_trace_valid(hands_view(hands@), starting_leader as int, trace),
            t == 0 ==> leader == starting_leader,
            t > 0 ==> leader == trick_winner_seat(player_count as int, trace.last()),
            outcome_of_trace(
                RoundOutcome {
                    tricks_won: tricks_won,
                    bonus_points: bonus_points,
                    mermaid_capture_won: mermaid_capture_won,
                    minotaur_capture_won: minotaur_capture_won,
                },
                player_count as int,
                trace,
            ),
        decreases num_tricks - t,
    {
        // Leader picks a die (first available for determinism).
        let ghost rem_before = indices_view(remaining@);
        let ghost rem_leader = remaining[leader as int]@;
        let leader_die_idx = remaining[leader].remove(0);
        let ghost mut chosen: Seq<usize> = Seq::new(player_count as nat, |i: int| 0usize);
        proof {
            chosen = chosen.update(leader as int, leader_die_idx);
            assert(rem_before[leader as int] == rem_leader);
            assert(rem_leader.remove(0) == remaining[leader as int]@);
        }
        assert(rem_leader[0] == leader_die_idx);
        assert(leader_die_idx < hands[leader as int].len());
        let leader_die = hands[leader][leader_die_idx];
        proof {
            assert forall|k: int| 0 <= k < remaining[leader as int].len() implies #[trigger]
                remaining[leader as int]@[k] < hands[leader as int].len() by {
                assert(remaining[leader as int]@[k] == rem_leader[k + 1]);
            }
        }

        // Determine led color if it's a number die.
        let led_color = if leader_die.is_special_die() {
            None
        } else {
            Some(leader_die)
        };

        let mut rolls: Vec<RolledDie> = Vec::new();

        // Leader's roll.
        let ghost dstart = rng.draws();
        let leader_face = random_face(leader_die, rng);
        rolls.push(RolledDie::new(leader_die, leader_face, 0));
        let ghost mut cur: Seq<(usize, usize)> = Seq::empty();
        proof {
            let k = choose|k: int|
                0 <= k < 6 && leader_face == #[trigger] leader_die.face_seq()[k] && rng.draws()
                    == dstart.push((6usize, k as usize));
            cur = seq![(6usize, k as usize)];
            assert(face_drawn(rolls@[0], cur[0]));
            lemma_rolls_drawn_first(
                hands_view(hands@),
                leader as int,
                led_color,
                rem_before,
                chosen,
                rolls@[0],
                cur[0],
            );
            assert(rolls@ =~= seq![rolls@[0]]);
            assert(cur =~= seq![cur[0]]);
            assert(rng.draws() =~= dstart + cur);
        }
        proof {
            assert(hands[leader as int]@[leader_die_idx as int] == leader_die);
            assert((leader + 0) % (player_count as int) == leader) by {
                vstd::arithmetic::div_mod::lemma_small_mod(leader as nat, player_count as nat);
            }
        }

        proof {
            assert forall|pp: int| 0 <= pp < player_count implies (#[trigger] remaining[pp]).len()
                == num_tricks - t - if (pp + player_count - leader) % (player_count as int) < 1 {
                1int
            } else {
                0int
            } by {
                lemma_mod_below_twice(pp + player_count - leader, player_count as int);
            }
        }
        proof {
            assert forall|pp: int| 0 <= pp < player_count implies #[trigger] seat_step(
                rem_before,
                chosen,
                indices_view(remaining@),
                pp,
                leader,
                player_count,
                1,
            ) by {
                reveal(seat_step);
                lemma_mod_below_twice(pp + player_count - leader, player_count as int);
                if pp == leader {
                    assert(rem_before[pp].remove(0) == remaining[pp]@);
                    assert(removed_once(rem_before[pp], chosen[pp], indices_view(remaining@)[pp]));
                } else {
                    assert(remaining[pp]@ == rem_before[pp]);
                }
            }
            assert(rolls@[0].die_type == hands[(leader + 0) % (player_count as int)]@[chosen[(
            leader + 0) % (player_count as int)] as int]);
            assert forall|pp: int|
                0 <= pp < player_count && pp != leader && (pp + player_count - leader) % (
                player_count as int) < 1 implies is_legal_play(
                led_color,
                rem_before[pp],
                hands[pp]@,
                #[trigger] chosen[pp],
            ) by {
                lemma_mod_below_twice(pp + player_count - leader, player_count as int);
            }
        }
        let mut order: usize = 1;
        while order < player_count
            invariant
                1 <= order <= player_count,
                t < num_tricks,
                player_count == hands.len() <= usize::MAX / 2,
                num_tricks == hands[0].len(),
                equal_hand_sizes(hands@),
                leader < player_count,
                rolls.len() == order,
                rng.draws() == dstart + cur,
                rolls_drawn(
                    hands_view(hands@),
                    leader as int,
                    led_color,
                    rem_before,
                    chosen,
                    rolls@,
                    cur,
                    order as int,
                ),
                remaining.len() == player_count,
                forall|p: int|
                    0 <= p < player_count ==> (#[trigger] remaining[p]).len() == num_tricks - t - if (
                    p + player_count - leader) % (player_count as int) < order {
                        1int
                    } else {
                        0int
                    },
                forall|p: int|
                    0 <= p < player_count ==> indices_in_hand(
                        (#[trigger] remaining[p])@,
                        hands[p]@,
                    ),
                forall|o: int|
                    0 <= o < order ==> hands[(leader + o) % (player_count as int)]@.contains(
                        (#[trigger] rolls@[o]).die_type,
                    ) && rolls@[o].die_type.face_seq().contains(rolls@[o].face)
                        && rolls@[o].roll_order == o,
                rem_before.len() == player_count,
                chosen.len() == player_count,
                rem_before[leader as int].len() > 0,
                chosen[leader as int] == rem_before[leader as int][0],
                leader_die == hands[leader as int]@[chosen[leader as int] as int],
                led_color == if leader_die.spec_is_special_die() {
                    None
                } else {
                    Some(leader_die)
                },
                forall|pp: int|
                    0 <= pp < player_count ==> #[trigger] seat_step(
                        rem_before,
                        chosen,
                        indices_view(remaining@),
                        pp,
                        leader,
                        player_count,
                        order,
                    ),
                forall|pp: int|
                    0 <= pp < player_count && pp != leader && (pp + player_count - leader) % (
                    player_count as int) < order ==> is_legal_play(
                        led_color,
                        rem_before[pp],
                        hands[pp]@,
                        #[trigger] chosen[pp],
                    ),
                forall|o: int|
                    0 <= o < order ==> (#[trigger] rolls@[o]).die_type == hands[(leader + o) % (
                    player_count as int)]@[chosen[(leader + o) % (player_count as int)] as int],
            decreases player_count - order,
        {
            let p = (leader + order) % player_count;
            proof {
                lemma_mod_below_twice(leader + order, player_count as int);
                lemma_mod_below_twice(p + player_count - leader, player_count as int);
                assert((p + player_count - leader) % (player_count as int) == order);
            }
            let ghost dmid = rng.draws();
            let chosen_die_idx = choose_die_to_play(
                led_color,
                remaining[p].as_slice(),
                hands[p].as_slice(),
                rng,
            );
            let ghost mut choice: (usize, usize) = (0usize, 0usize);
            proof {
                let (legal, d) = choose|legal: Seq<usize>, d: int|
                    #[trigger] legal_choice_list(
                        led_color,
                        remaining[p as int]@,
                        hands[p as int]@,
                        legal,
                    ) && 0 <= d < legal.len() <= usize::MAX && chosen_die_idx == #[trigger] legal[d]
                        && rng.draws() == dmid.push((legal.len() as usize, d as usize));
                choice = (legal.len() as usize, d as usize);
                assert(choice_drawn(
                    led_color,
                    remaining[p as int]@,
                    hands[p as int]@,
                    chosen_die_idx,
                    choice,
                ));
            }
            let ghost rem_at_choice = remaining[p as int]@;
            let ghost cur_before = cur;
            let chosen_die = hands[p][chosen_die_idx];
            let ghost chosen_before = chosen;
            proof {
                reveal(seat_step);
                assert(seat_step(
                    rem_before,
                    chosen,
                    indices_view(remaining@),
                    p as int,
                    leader,
                    player_count,
                    order,
                ));
                assert(remaining[p as int]@ == rem_before[p as int]);
                chosen = chosen.update(p as int, chosen_die_idx);
            }
            // Remove from remaining.
            let ghost rem_p = remaining[p as int]@;
            let ghost remaining_before = remaining@;
            match position_of(remaining[p].as_slice(), chosen_die_idx) {
                Some(pos) => {
                    remaining[p].remove(pos);
                    proof {
                        assert forall|k: int| 0 <= k < remaining[p as int].len() implies #[trigger]
                            remaining[p as int]@[k] < hands[p as int].len() by {
                            if k < pos {
                                assert(remaining[p as int]@[k] == rem_p[k]);
                            } else {
                                assert(remaining[p as int]@[k] == rem_p[k + 1]);
                            }
                        }
                        assert(rem_p.remove(pos as int) == remaining[p as int]@);
                        assert(removed_once(rem_p, chosen_die_idx, remaining[p as int]@));
                        assert(remaining@ == remaining_before.update(p as int, remaining[p as int]));
                    }
                },
                None => {
                    assert(rem_p.contains(chosen_die_idx));
                    assert(false);
                },
            }
            let ghost dface = rng.draws();
            let face = random_face(chosen_die, rng);
            let ghost rolls_before = rolls@;
            rolls.push(RolledDie::new(chosen_die, face, order));
            proof {
                let k = choose|k: int|
                    0 <= k < 6 && face == #[trigger] chosen_die.face_seq()[k] && rng.draws()
                        == dface.push((6usize, k as usize));
                let fd = (6usize, k as usize);
                assert(face_drawn(rolls@[order as int], fd));
                let hv0 = hands_view(hands@);
                assert forall|o: int| 0 <= o < order implies chosen[(leader + o) % (
                hv0.len() as int)] == #[trigger] chosen_before[(leader + o) % (hv0.len() as int)] by {
                    lemma_mod_below_twice(leader + o, player_count as int);
                }
                assert(hv0[p as int] == hands[p as int]@);
                assert(rem_at_choice == rem_before[p as int]);
                assert(chosen[p as int] == chosen_die_idx);
                lemma_rolls_drawn_extend(
                    hv0,
                    leader as int,
                    led_color,
                    rem_before,
                    chosen_before,
                    chosen,
                    rolls_before,
                    rolls@[order as int],
                    cur_before,
                    choice,
                    fd,
                    order as int,
                );
                assert(rolls@ =~= rolls_before.push(rolls@[order as int]));
                cur = cur_before.push(choice).push(fd);
                assert(rng.draws() =~= dstart + cur);
            }
            proof {
                assert forall|pp: int| 0 <= pp < player_count implies #[trigger] seat_step(
                    rem_before,
                    chosen,
                    indices_view(remaining@),
                    pp,
                    leader,
                    player_count,
                    (order + 1) as usize,
                ) by {
                    reveal(seat_step);
                    lemma_mod_below_twice(pp + player_count - leader, player_count as int);
                    if pp != p {
                        assert(remaining[pp] == remaining_before[pp]);
                        assert(chosen[pp] == chosen_before[pp]);
                        assert(seat_step(
                            rem_before,
                            chosen_before,
                            indices_view(remaining_before),
                            pp,
                            leader,
                            player_count,
                            order,
                        ));
                        assert(indices_view(remaining@)[pp] == indices_view(remaining_before)[pp]);
                    } else {
                        assert(rem_p == rem_before[pp]);
                        assert(chosen[pp] == chosen_die_idx);
                        assert(removed_once(rem_p, chosen_die_idx, remaining[pp]@));
                    }
                }
                assert forall|pp: int|
                    0 <= pp < player_count && pp != leader && (pp + player_count - leader) % (
                    player_count as int) < order + 1 implies is_legal_play(
                    led_color,
                    rem_before[pp],
                    hands[pp]@,
                    #[trigger] chosen[pp],
                ) by {
                    if pp != p {
                        lemma_mod_below_twice(pp + player_count - leader, player_count as int);
                        assert(chosen[pp] == chosen_before[pp]);
                    }
                }
                assert forall|o: int| 0 <= o < order + 1 implies (#[trigger] rolls@[o]).die_type
                    == hands[(leader + o) % (player_count as int)]@[chosen[(leader + o) % (
                    player_count as int)] as int] by {
                    lemma_mod_below_twice(leader + o, player_count as int);
                    if o < order {
                        assert(rolls@[o] == rolls_before[o]);
                        lemma_mod_below_twice(leader + o, player_count as int);
                        assert((leader + o) % (player_count as int) != p);
                    }
                }
            }
            proof {
                assert(hands[p as int]@[chosen_die_idx as int] == chosen_die);
                assert forall|o: int| 0 <= o < order + 1 implies hands[(leader + o) % (
                player_count as int)]@.contains((#[trigger] rolls@[o]).die_type)
                    && rolls@[o].die_type.face_seq().contains(rolls@[o].face)
                    && rolls@[o].roll_order == o by {
                    if o < order {
                        assert(rolls@[o] == rolls_before[o]);
                    }
                }
            }
            proof {
                assert forall|pp: int| 0 <= pp < player_count implies (#[trigger] remaining[pp]).len()
                    == num_tricks - t - if (pp + player_count - leader) % (player_count as int)
                    < order + 1 {
                    1int
                } else {
                    0int
                } by {
                    if pp == p {
                    } else {
                        lemma_mod_below_twice(pp + player_count - leader, player_count as int);
                    }
                }
            }
            order = order + 1;
        }
        proof {
            assert forall|pp: int| 0 <= pp < player_count implies (#[trigger] remaining[pp]).len()
                == num_tricks - (t + 1) by {
                vstd::arithmetic::div_mod::lemma_mod_bound(
                    pp + player_count - leader,
                    player_count as int,
                );
            }
        }

        let winner_roll_idx = trick_winner(rolls.as_slice());
        let winner_player = (leader + winner_roll_idx) % player_count;
        let bonus = trick_bonus_points(rolls.as_slice(), winner_roll_idx);
        proof {
            let w = rolls@[winner_roll_idx as int];
            assert(hands[winner_player as int]@.contains(w.die_type));
            lemma_special_face_needs_its_die(w.die_type, w.face);
            if bonus.mermaid_captures_minotaur {
                let o = choose|o: int| 0 <= o < rolls@.len() && (#[trigger] rolls@[o]).face
                    == Face::Minotaur;
                assert(shows_face(rolls@, Face::Minotaur));
                assert(0 <= o < rolls@.len() && rolls@[o].face == Face::Minotaur);
                lemma_special_face_needs_its_die(rolls@[o].die_type, rolls@[o].face);
                let q = (leader + o) % (player_count as int);
                assert(hands[q]@.contains(DieType::Minotaur));
                assert(o != winner_roll_idx);
                lemma_mod_below_twice(leader + o, player_count as int);
                lemma_mod_below_twice(leader + winner_roll_idx, player_count as int);
                assert(q != winner_player);
            }
        }
        proof {
            lemma_mod_below_twice(leader + winner_roll_idx, player_count as int);
            lemma_sum_counts_update(tricks_won@, winner_player as int, (tricks_won[winner_player as int] + 1) as usize);
        }
        let ghost tw0 = tricks_won@;
        let ghost bp0 = bonus_points@;
        let ghost mc0 = mermaid_capture_won@;
        let ghost nc0 = minotaur_capture_won@;
        tricks_won[winner_player] = tricks_won[winner_player] + 1;
        bonus_points[winner_player] = bonus_points[winner_player] + bonus.points;
        mermaid_capture_won[winner_player] = mermaid_capture_won[winner_player]
            || bonus.mermaid_captures_minotaur;
        minotaur_capture_won[winner_player] = minotaur_capture_won[winner_player]
            || bonus.minotaur_captures_griffin;
        proof {
            let trick: PlayedTrick = (leader as int, rolls@);
            let old_trace = trace;
            let hv = hands_view(hands@);
            assert(trick_winner_seat(player_count as int, trick) == winner_player);
            assert(trick_bonus_of(trick) == bonus);
            assert(trick_played_from(hv, trick)) by {
                reveal(trick_played_from);
                assert forall|o: int| 0 <= o < player_count implies {
                    let roll = #[trigger] trick.1[o];
                    &&& roll.roll_order == o
                    &&& hv[(trick.0 + o) % (player_count as int)].contains(roll.die_type)
                    &&& roll.die_type.face_seq().contains(roll.face)
                } by {
                    lemma_mod_below_twice(leader + o, player_count as int);
                    assert(hv[(leader + o) % (player_count as int)] == hands[(leader + o) % (
                    player_count as int)]@);
                }
            }
            let n = player_count as int;
            assert(trick_follows_rules(hv, trick, rem_before, chosen)) by {
                reveal(trick_follows_rules);
                assert(hv[leader as int] == hands[leader as int]@);
                assert forall|pp: int| 0 <= pp < n && pp != leader implies is_legal_play(
                    led_color,
                    rem_before[pp],
                    hv[pp],
                    #[trigger] chosen[pp],
                ) by {
                    vstd::arithmetic::div_mod::lemma_mod_bound(pp + n - leader, n);
                    assert(hv[pp] == hands[pp]@);
                }
                assert forall|o: int| 0 <= o < n implies (#[trigger] trick.1[o]).die_type
                    == hv[(leader + o) % n][chosen[(leader + o) % n] as int] by {
                    lemma_mod_below_twice(leader + o, n);
                    assert(hv[(leader + o) % n] == hands[(leader + o) % n]@);
                }
            }
            assert(remaining_after(rem_before, chosen, indices_view(remaining@))) by {
                reveal(remaining_after);
                assert(rem_before.len() == n);
                assert(indices_view(remaining@).len() == n);
                assert forall|pp: int| 0 <= pp < n implies #[trigger] removed_once(
                    rem_before[pp],
                    chosen[pp],
                    indices_view(remaining@)[pp],
                ) by {
                    vstd::arithmetic::div_mod::lemma_mod_bound(pp + n - leader, n);
                    reveal(seat_step);
                    assert(seat_step(
                        rem_before,
                        chosen,
                        indices_view(remaining@),
                        pp,
                        leader,
                        player_count,
                        player_count,
                    ));
                }
            }
            let old_plays = plays;
            lemma_round_extended(
                hv,
                starting_leader as int,
                num_tricks as int,
                old_trace,
                old_plays,
                trick,
                (rem_before, chosen),
            );
            let old_tdraws = tdraws;
            assert(led_color_of(hv, leader as int, chosen) == led_color);
            assert(trick_drawn(hv, trick, rem_before, chosen, cur));
            trace = trace.push(trick);
            plays = plays.push((rem_before, chosen));
            tdraws = tdraws.push(cur);
            assert(tdraws.drop_last() =~= old_tdraws);
            assert(rng.draws() =~= d0 + concat_draws(tdraws));
            assert forall|u: int| 0 <= u < t + 1 implies trick_drawn(
                hv,
                trace[u],
                plays[u].0,
                plays[u].1,
                #[trigger] tdraws[u],
            ) by {
                if u < t {
                    assert(tdraws[u] == old_tdraws[u]);
                    assert(trace[u] == old_trace[u]);
                    assert(plays[u] == old_plays[u]);
                }
            }
            assert forall|pp: int| 0 <= pp < n implies {
                &&& #[trigger] tricks_won@[pp] == tricks_won_in(n, trace, pp)
                &&& bonus_points@[pp] == bonus_won_in(n, trace, pp)
                &&& mermaid_capture_won@[pp] == mermaid_capture_in(n, trace, pp)
                &&& minotaur_capture_won@[pp] == minotaur_capture_in(n, trace, pp)
            } by {
                lemma_trace_push_tallies(n, old_trace, trick, pp);
                assert(tw0[pp] == tricks_won_in(n, old_trace, pp));
                assert(bp0[pp] == bonus_won_in(n, old_trace, pp));
                assert(mc0[pp] == mermaid_capture_in(n, old_trace, pp));
                assert(nc0[pp] == minotaur_capture_in(n, old_trace, pp));
            }
        }
        leader = winner_player;
        t = t + 1;
    }

    let r = RoundOutcome { tricks_won, bonus_points, mermaid_capture_won, minotaur_capture_won };
    proof {
        let hv = hands_view(hands@);
        reveal(round_played);
        assert(hv[0].len() == hands[0].len());
        assert(play_drawn(hv, trace, concat_draws(tdraws))) by {
            reveal(play_drawn);
        }
        assert(round_played(hv, starting_leader as int, trace, r, concat_draws(tdraws)));
    }
    r
}

// ── Monte Carlo simulation ─────────────────────────────────────────────────────

/// Result of one simulated game for a single player.
#[derive(Debug)]
pub struct SimResult {
    /// Tricks won per round (index = round number starting from 0).
    pub tricks_per_round: Vec<usize>,
    /// Total score.
    pub total_score: i64,
}

/// A game of `player_count` players never needs more than the 36 dice of the bag.
pub proof fn lemma_game_fits_bag(player_count: int)
    requires
        3 <= player_count <= 6,
    ensures
        player_count * spec_round_count(player_count) <= 36,
{
}

/// `b` is the largest bid with the greatest expected score for the
/// trick-count weights `weights`.
pub open spec fn is_best_bid(weights: Seq<u128>, b: int) -> bool {
    &&& 0 <= b < weights.len()
    &&& forall|c: int|
        0 <= c < weights.len() ==> #[trigger] expected_score_weighted(weights, c)
            <= expected_score_weighted(weights, b)
    &&& forall|c: int|
        b < c < weights.len() ==> #[trigger] expected_score_weighted(weights, c)
            < expected_score_weighted(weights, b)
}

/// The trick-count weights seat `p` bids on: its own dice, each trick against
/// the other seats' dice for that trick.
pub open spec fn bid_weights(hands: Seq<Seq<DieType>>, p: int) -> Seq<u128> {
    Seq::new(
        (hands[p].len() + 1) as nat,
        |k: int| trick_weights(hands[p], opponents_of(hands, p), hands[p].len() as nat)[k] as u128,
    )
}

/// Each player's bid: the bid maximising the exact expected score of their
/// hand when every trick is played against the other players' dice for that
/// trick.
fn choose_bids(hands: &Vec<Vec<DieType>>) -> (r: Vec<usize>)
    requires
        equal_hand_sizes(hands@),
        hands[0].len() >= 1,
        hands.len() * hands[0].len() <= 36,
        hands.len() <= 20,
    ensures
        r.len() == hands.len(),
        forall|p: int| 0 <= p < hands.len() ==> #[trigger] r[p] <= hands[0].len(),
        forall|p: int|
            0 <= p < hands.len() ==> is_best_bid(bid_weights(hands_view(hands@), p), #[trigger] r[p] as int),
{
    let ghost hv = hands_view(hands@);
    let player_count = hands.len();
    let mut bids: Vec<usize> = Vec::new();
    let mut p: usize = 0;
    while p < player_count
        invariant
            0 <= p <= player_count == hands.len() <= 20,
            equal_hand_sizes(hands@),
            hands[0].len() >= 1,
            hands.len() * hands[0].len() <= 36,
            bids.len() == p,
            forall|q: int| 0 <= q < p ==> #[trigger] bids[q] <= hands[0].len(),
            hv == hands_view(hands@),
            forall|q: int| 0 <= q < p ==> is_best_bid(bid_weights(hv, q), #[trigger] bids[q] as int),
        decreases player_count - p,
    {
        // Opponent representative hands.
        let mut opp_dice: Vec<Vec<DieType>> = Vec::new();
        let mut o: usize = 0;
        while o < player_count
            invariant
                0 <= o <= player_count == hands.len(),
                equal_hand_sizes(hands@),
                hands[0].len() >= 1,
                p < player_count,
                opp_dice.len() == if o <= p {
                    o as int
                } else {
                    o - 1
                },
                forall|k: int| 0 <= k < opp_dice.len() ==> (#[trigger] opp_dice[k]).len() >= 1,
                hv == hands_view(hands@),
                hands_view(opp_dice@) == if o <= p {
                    hv.subrange(0, o as int)
                } else {
                    hv.subrange(0, p as int) + hv.subrange(p + 1, o as int)
                },
            decreases player_count - o,
        {
            let ghost before = hands_view(opp_dice@);
            if o != p {
                opp_dice.push(copy_hand(hands[o].as_slice()));
                proof {
                    assert(hands_view(opp_dice@) =~= before.push(hv[o as int]));
                }
            }
            proof {
                if o < p {
                    assert(hv.subrange(0, o + 1) =~= hv.subrange(0, o as int).push(hv[o as int]));
                } else if o == p {
                    assert(hv.subrange(p + 1, o + 1) =~= Seq::<Seq<DieType>>::empty());
                    assert(hv.subrange(0, p as int) + hv.subrange(p + 1, o + 1) =~= hv.subrange(
                        0,
                        p as int,
                    ));
                } else {
                    assert(hv.subrange(0, p as int) + hv.subrange(p + 1, o + 1) =~= (hv.subrange(
                        0,
                        p as int,
                    ) + hv.subrange(p + 1, o as int)).push(hv[o as int]));
                }
            }
            o = o + 1;
        }
        let hand = &hands[p];
        proof {
            assert(hand.len() == hands[0].len());
        }
        let weights = trick_count_weights(hand.as_slice(), opp_dice.as_slice());
        proof {
            crate::bidding::lemma_pow6_36_below_weight_limit(
                ((opp_dice.len() + 1) * hand.len()) as nat,
            );
            assert(hands[0].len() <= 36) by (nonlinear_arith)
                requires
                    hands.len() * hands[0].len() <= 36,
                    hands.len() >= 1,
            ;
        }
        let bid = optimal_bid_for_weights(weights.as_slice());
        proof {
            assert(hands_view(opp_dice@) == opponents_of(hv, p as int));
            assert(hv[p as int] == hand@);
            assert(weights@ =~= bid_weights(hv, p as int));
        }
        let ghost bids_before = bids@;
        bids.push(bid);
        proof {
            assert forall|q: int| 0 <= q < p + 1 implies is_best_bid(
                bid_weights(hv, q),
                #[trigger] bids[q] as int,
            ) by {
                if q < p {
                    assert(bids[q] == bids_before[q]);
                }
            }
        }
        p = p + 1;
    }
    bids
}

/// Bounds of one player's score in a round of `h` dice; every score is a
/// multiple of 10.
pub open spec fn round_score_in_range(score: int, h: int) -> bool {
    -10 * h <= score <= 70 * h && score % 10 == 0
}

/// The scoring rules for every bid, tricks won and round size: a zero bid
/// scores `10 × hand_size` when no trick is won and `−10 × hand_size`
/// otherwise; a bid met exactly scores `20 × bid`; a bid missed by `d`
/// tricks, over or under, scores `−10 × d`, one more trick of miss costing
/// 10 more points however far off the bid already is.
pub proof fn lemma_scoring_rules(bid: nat, tricks: nat, hand_size: nat)
    ensures
        bid == 0 && tricks == 0 ==> spec_base_score(bid as int, tricks as int, hand_size as int)
            == 10 * hand_size,
        bid == 0 && tricks > 0 ==> spec_base_score(bid as int, tricks as int, hand_size as int)
            == -10 * hand_size,
        bid > 0 && tricks == bid ==> spec_base_score(bid as int, tricks as int, hand_size as int)
            == 20 * bid,
        bid > 0 && tricks != bid ==> spec_base_score(bid as int, tricks as int, hand_size as int)
            <= -10,
        bid > 0 && tricks > bid ==> spec_base_score(bid as int, tricks as int, hand_size as int)
            + 10 * tricks == 10 * bid,
        bid > 0 && tricks < bid ==> spec_base_score(bid as int, tricks as int, hand_size as int)
            + 10 * bid == 10 * tricks,
        bid > 0 && tricks > bid ==> spec_base_score(
            bid as int,
            (tricks + 1) as int,
            hand_size as int,
        ) == spec_base_score(bid as int, tricks as int, hand_size as int) - 10,
        bid > 0 && tricks + 1 < bid ==> spec_base_score(bid as int, tricks as int, hand_size as int)
            == spec_base_score(bid as int, (tricks + 1) as int, hand_size as int) - 10,
{
}

/// Every base score is a multiple of 10.
pub proof fn lemma_base_score_multiple_of_ten(bid: int, tricks: int, hand_size: int)
    ensures
        spec_base_score(bid, tricks, hand_size) % 10 == 0,
{
}

/// Seat `p`'s total over the round scores `per_round`.
pub open spec fn total_over_rounds(per_round: Seq<Seq<i64>>, p: int) -> int
    decreases per_round.len(),
{
    if per_round.len() == 0 {
        0
    } else {
        total_over_rounds(per_round.drop_last(), p) + per_round.last()[p]
    }
}

/// `totals` are the sums over `per_round`, whose entry `k` holds the scores
/// of round `k + 1` (of `k + 1` dice per seat) from the deal and play made by
/// the draws `round_draws[k]`.
pub open spec fn game_from_rounds(
    totals: Seq<i64>,
    per_round: Seq<Seq<i64>>,
    rounds: int,
    round_draws: Seq<Seq<(usize, usize)>>,
) -> bool {
    &&& per_round.len() == rounds
    &&& round_draws.len() == rounds
    &&& forall|k: int|
        0 <= k < rounds ==> (#[trigger] per_round[k]).len() == totals.len()
            && round_scores_possible(per_round[k], k + 1, round_draws[k])
    &&& forall|p: int| 0 <= p < totals.len() ==> #[trigger] totals[p] == total_over_rounds(per_round, p)
}

/// The game of `rounds` rounds that the draws `draws` deal and play, round
/// after round, gives the totals `totals`.
pub open spec fn game_scores_possible(totals: Seq<i64>, rounds: int, draws: Seq<(usize, usize)>) -> bool {
    exists|per_round: Seq<Seq<i64>>, round_draws: Seq<Seq<(usize, usize)>>|
        #[trigger] game_from_rounds(totals, per_round, rounds, round_draws) && draws == concat_draws(
            round_draws,
        )
}

/// Simulate `n_games` complete games for `player_count` players, returning per-player
/// total-score distributions (vector of length `n_games` per player).
///
/// Every round `r` (1 ≤ r ≤ rounds) deals each player `r` dice, bids with
/// `choose_bids`, plays the round with player 0 leading, and scores it.
pub fn simulate_games<R: Rng>(player_count: usize, n_games: usize, rng: &mut R) -> (r: Vec<
    Vec<i64>,
>)
    requires
        3 <= player_count <= 6,
    ensures
        r.len() == player_count,
        forall|p: int| 0 <= p < player_count ==> (#[trigger] r[p]).len() == n_games,
        forall|p: int, g: int|
            0 <= p < player_count && 0 <= g < n_games ==> -360 <= #[trigger] r[p][g] <= 2520
                && r[p][g] % 10 == 0,
        exists|segs: Seq<Seq<(usize, usize)>>|
            {
                &&& segs.len() == n_games
                &&& #[trigger] final(rng).draws() == old(rng).draws() + concat_draws(segs)
                &&& forall|g: int|
                    0 <= g < n_games ==> game_scores_possible(
                        #[trigger] score_column(r@, g),
                        spec_round_count(player_count as int),
                        segs[g],
                    )
            },
{
    let rounds = round_count(player_count);
    proof {
        lemma_game_fits_bag(player_count as int);
    }
    let mut all_scores: Vec<Vec<i64>> = Vec::new();
    let mut q: usize = 0;
    while q < player_count
        invariant
            0 <= q <= player_count,
            all_scores.len() == q,
            forall|p: int| 0 <= p < q ==> (#[trigger] all_scores[p]).len() == 0,
        decreases player_count - q,
    {
        all_scores.push(Vec::new());
        q = q + 1;
    }

    let ghost d0 = rng.draws();
    let ghost mut segs: Seq<Seq<(usize, usize)>> = Seq::empty();
    proof {
        assert(d0 + concat_draws(segs) =~= d0);
    }
    let mut game: usize = 0;
    while game < n_games
        invariant
            segs.len() == game,
            d0 == old(rng).draws(),
            rng.draws() == d0 + concat_draws(segs),
            0 <= game <= n_games,
            3 <= player_count <= 6,
            rounds == spec_round_count(player_count as int),
            player_count * rounds <= 36,
            all_scores.len() == player_count,
            forall|p: int| 0 <= p < player_count ==> (#[trigger] all_scores[p]).len() == game,
            forall|p: int, g: int|
                0 <= p < player_count && 0 <= g < game ==> -360 <= #[trigger] all_scores[p][g]
                    <= 2520 && all_scores[p][g] % 10 == 0,
            forall|g: int|
                0 <= g < game ==> game_scores_possible(
                    #[trigger] score_column(all_scores@, g),
                    rounds as int,
                    segs[g],
                ),
        decreases n_games - game,
    {
        let mut totals: Vec<i64> = vec![0i64; player_count];
        let ghost mut per_round: Seq<Seq<i64>> = Seq::empty();
        let ghost dgame = rng.draws();
        let ghost mut rsegs: Seq<Seq<(usize, usize)>> = Seq::empty();
        proof {
            assert(dgame + concat_draws(rsegs) =~= dgame);
        }
        let mut round: usize = 1;
        while round <= rounds
            invariant
                rsegs.len() == round - 1,
                rng.draws() == dgame + concat_draws(rsegs),
                1 <= round <= rounds + 1,
                3 <= player_count <= 6,
                rounds == spec_round_count(player_count as int),
                player_count * rounds <= 36,
                totals.len() == player_count,
                forall|p: int|
                    0 <= p < player_count ==> -10 * (round - 1) * round / 2 <= #[trigger] totals[p]
                        <= 70 * (round - 1) * round / 2 && totals[p] % 10 == 0,
                per_round.len() == round - 1,
                forall|k: int|
                    0 <= k < round - 1 ==> (#[trigger] per_round[k]).len() == player_count
                        && round_scores_possible(per_round[k], k + 1, rsegs[k]),
                forall|p: int|
                    0 <= p < player_count ==> #[trigger] totals@[p] == total_over_rounds(
                        per_round,
                        p,
                    ),
            decreases rounds + 1 - round,
        {
            // Each player draws `round` dice.
            let ghost dg = rng.draws();
            let hands = deal_hands(player_count, round, rng);
            let ghost dp = rng.draws();
            proof {
                assert(player_count * round <= player_count * rounds) by (nonlinear_arith)
                    requires
                        round <= rounds,
                ;
            }
            let bids = choose_bids(&hands);
            // Simulate round tricks.
            let outcome = simulate_round(hands.as_slice(), 0, rng);
            let ghost dend = rng.draws();
            let ghost old_totals = totals@;
            let ghost round_scores = Seq::new(
                player_count as nat,
                |k: int|
                    (spec_base_score(
                        bids[k] as int,
                        outcome.tricks_won[k] as int,
                        round as int,
                    ) + outcome.bonus_points[k]) as i64,
            );
            // Score each player.
            let mut p: usize = 0;
            while p < player_count
                invariant
                    0 <= p <= player_count,
                    1 <= round <= rounds <= 8,
                    totals.len() == player_count,
                    bids.len() == player_count,
                    outcome.tricks_won.len() == player_count,
                    outcome.bonus_points.len() == player_count,
                    forall|k: int| 0 <= k < player_count ==> #[trigger] bids[k] <= round,
                    forall|k: int| 0 <= k < player_count ==> #[trigger] outcome.tricks_won[k] <= round,
                    forall|k: int|
                        0 <= k < player_count ==> 0 <= #[trigger] outcome.bonus_points[k] <= 50
                            * outcome.tricks_won[k],
                    forall|k: int|
                        0 <= k < player_count ==> #[trigger] outcome.bonus_points[k] % 10 == 0,
                    forall|k: int|
                        0 <= k < p ==> -10 * round * (round + 1) / 2 <= #[trigger] totals[k] <= 70
                            * round * (round + 1) / 2 && totals[k] % 10 == 0,
                    forall|k: int|
                        p <= k < player_count ==> -10 * (round - 1) * round / 2 <= #[trigger] totals[k]
                            <= 70 * (round - 1) * round / 2 && totals[k] % 10 == 0,
                    round_scores.len() == player_count,
                    forall|k: int|
                        0 <= k < player_count ==> #[trigger] round_scores[k] == (spec_base_score(
                            bids[k] as int,
                            outcome.tricks_won[k] as int,
                            round as int,
                        ) + outcome.bonus_points[k]) as i64,
                    old_totals.len() == player_count,
                    forall|k: int|
                        0 <= k < p ==> #[trigger] totals@[k] == old_totals[k] + round_scores[k],
                    forall|k: int| p <= k < player_count ==> #[trigger] totals@[k] == old_totals[k],
                decreases player_count - p,
            {
                let ghost base = spec_base_score(
                    bids[p as int] as int,
                    outcome.tricks_won[p as int] as int,
                    round as int,
                );
                proof {
                    lemma_base_score_multiple_of_ten(
                        bids[p as int] as int,
                        outcome.tricks_won[p as int] as int,
                        round as int,
                    );
                    assert(-10 * round <= base <= 20 * round);
                    assert(-10 * round * (round + 1) / 2 == -10 * (round - 1) * round / 2 - 10
                        * round) by (nonlinear_arith);
                    assert(70 * round * (round + 1) / 2 == 70 * (round - 1) * round / 2 + 70
                        * round) by (nonlinear_arith);
                    assert(50 * outcome.tricks_won[p as int] <= 50 * round);
                    assert(-10 * (round - 1) * round / 2 >= -400 && 70 * (round - 1) * round / 2
                        <= 3000) by (nonlinear_arith)
                        requires
                            1 <= round <= 8,
                    ;
                }
                let s = score_player(
                    bids[p],
                    outcome.tricks_won[p],
                    round,
                    outcome.bonus_points[p],
                );
                totals[p] = totals[p] + s;
                p = p + 1;
            }
            proof {
                assert forall|k: int| 0 <= k < player_count implies round_score_in_range(
                    #[trigger] (spec_base_score(
                        bids[k] as int,
                        outcome.tricks_won[k] as int,
                        hands[0].len() as int,
                    ) + outcome.bonus_points[k]),
                    hands[0].len() as int,
                ) by {
                    lemma_base_score_multiple_of_ten(
                        bids[k] as int,
                        outcome.tricks_won[k] as int,
                        round as int,
                    );
                }
                let deal = choose|deal: Seq<(usize, usize)>|
                    #[trigger] dealt_independently(hands_view(hands@), round as int, deal) && dp
                        == dg + deal;
                let (trace, play) = choose|trace: Seq<PlayedTrick>, play: Seq<(usize, usize)>|
                    #[trigger] round_played(hands_view(hands@), 0, trace, outcome, play) && dend
                        == dp + play;
                lemma_round_scores_possible(round_scores, hands@, bids@, outcome, play);
                let trace2 = choose|trace2: Seq<PlayedTrick>|
                    #[trigger] round_scores_from_play(
                        round_scores,
                        hands_view(hands@),
                        bids@,
                        trace2,
                        hands[0].len() as int,
                        play,
                    );
                assert(hands[0].len() == round);
                assert(round_scores_possible(round_scores, round as int, deal + play));
                let old_rounds = per_round;
                let old_rsegs = rsegs;
                per_round = per_round.push(round_scores);
                rsegs = rsegs.push(deal + play);
                assert(per_round.drop_last() =~= old_rounds);
                assert(rsegs.drop_last() =~= old_rsegs);
                assert(rng.draws() =~= dgame + concat_draws(rsegs));
                assert forall|k: int| 0 <= k < round implies (#[trigger] per_round[k]).len()
                    == player_count && round_scores_possible(per_round[k], k + 1, rsegs[k]) by {
                    if k < round - 1 {
                        assert(per_round[k] == old_rounds[k]);
                        assert(rsegs[k] == old_rsegs[k]);
                    }
                }
            }
            round = round + 1;
        }
        proof {
            assert(rounds <= 8);
            assert(-10 * rounds * (rounds + 1) / 2 >= -360) by (nonlinear_arith)
                requires
                    rounds <= 8,
                    rounds >= 0,
            ;
            assert(70 * rounds * (rounds + 1) / 2 <= 2520) by (nonlinear_arith)
                requires
                    rounds <= 8,
                    rounds >= 0,
            ;
            assert(game_from_rounds(totals@, per_round, rounds as int, rsegs));
        }
        let ghost old_segs = segs;
        proof {
            segs = segs.push(concat_draws(rsegs));
            assert(segs.drop_last() =~= old_segs);
            assert(rng.draws() =~= d0 + concat_draws(segs));
        }
        let ghost before = all_scores@;
        let mut p: usize = 0;
        while p < player_count
            invariant
                0 <= p <= player_count,
                all_scores.len() == player_count,
                before.len() == player_count,
                totals.len() == player_count,
                forall|k: int| 0 <= k < player_count ==> (#[trigger] before[k]).len() == game,
                forall|k: int|
                    0 <= k < player_count ==> -360 <= #[trigger] totals[k] <= 2520 && totals[k] % 10
                        == 0,
                forall|k: int|
                    0 <= k < p ==> (#[trigger] all_scores[k])@ == before[k]@.push(totals[k]),
                forall|k: int| p <= k < player_count ==> #[trigger] all_scores[k] == before[k],
                forall|k: int, g: int|
                    0 <= k < player_count && 0 <= g < game ==> -360 <= #[trigger] before[k][g]
                        <= 2520 && before[k][g] % 10 == 0,
            decreases player_count - p,
        {
            all_scores[p].push(totals[p]);
            p = p + 1;
        }
        proof {
            assert forall|k: int, g: int|
                0 <= k < player_count && 0 <= g < game + 1 implies -360
                    <= #[trigger] all_scores[k][g] <= 2520 && all_scores[k][g] % 10 == 0 by {
                assert(all_scores[k]@ == before[k]@.push(totals[k]));
                if g < game {
                    assert(all_scores[k]@[g] == before[k]@[g]);
                }
            }
            assert(score_column(all_scores@, game as int) =~= totals@) by {
                assert forall|k: int| 0 <= k < player_count implies #[trigger] score_column(
                    all_scores@,
                    game as int,
                )[k] == totals@[k] by {
                    assert(all_scores[k]@ == before[k]@.push(totals[k]));
                }
            }
            assert forall|g: int| 0 <= g < game + 1 implies game_scores_possible(
                #[trigger] score_column(all_scores@, g),
                rounds as int,
                segs[g],
            ) by {
                if g < game {
                    assert(segs[g] == old_segs[g]);
                    assert forall|k: int| 0 <= k < player_count implies (
                    #[trigger] all_scores@[k])@ == before[k]@.push(all_scores@[k]@.last()) by {
                        assert(all_scores[k]@ == before[k]@.push(totals[k]));
                    }
                    lemma_score_columns_kept(before, all_scores@, g);
                }
            }
        }
        game = game + 1;
    }
    all_scores
}

/// The scores of every seat in game `g`.
pub open spec fn score_column(scores: Seq<Vec<i64>>, g: int) -> Seq<i64> {
    Seq::new(scores.len(), |p: int| scores[p][g])
}

/// `scores` are what one round of `h` dice per seat gives when the seats hold
/// `hands`, bid `bids` (each the best bid for its hand) and play the tricks of
/// `trace` by the rules with seat 0 leading, the draws `play_draws` picking
/// the dice played and the faces rolled: each seat's base score for its bid
/// and tricks won, plus its bonus points.
pub open spec fn round_scores_from_play(
    scores: Seq<i64>,
    hands: Seq<Seq<DieType>>,
    bids: Seq<usize>,
    trace: Seq<PlayedTrick>,
    h: int,
    play_draws: Seq<(usize, usize)>,
) -> bool {
    let n = scores.len() as int;
    &&& hands.len() == n
    &&& bids.len() == n
    &&& forall|q: int| 0 <= q < n ==> (#[trigger] hands[q]).len() == h
    &&& trace.len() == h
    &&& round_trace_valid(hands, 0, trace)
    &&& play_drawn(hands, trace, play_draws)
    &&& forall|p: int|
        0 <= p < n ==> is_best_bid(bid_weights(hands, p), bids[p] as int) && #[trigger] scores[p]
            == spec_base_score(bids[p] as int, tricks_won_in(n, trace, p), h) + bonus_won_in(
            n,
            trace,
            p,
        )
}

/// The 36 dice of the full bag, die types in the order of `DieType::ALL`.
pub open spec fn full_bag() -> Seq<DieType> {
    expand_counts(remaining_counts_spec(Seq::empty()), 7)
}

/// The draws of partial shuffles of a full bag, one after another, the `q`-th
/// exchanging each position `t` with `jss[q][t]`.
pub open spec fn deal_draws_of(jss: Seq<Seq<int>>) -> Seq<(usize, usize)> {
    concat_draws(Seq::new(jss.len(), |q: int| shuffle_draws(36, jss[q])))
}

/// Each of `hands` is `h` dice drawn from a full bag of its own by a partial
/// shuffle, the seats one after another; `deal_draws` are the shuffles' draws.
pub open spec fn dealt_independently(
    hands: Seq<Seq<DieType>>,
    h: int,
    deal_draws: Seq<(usize, usize)>,
) -> bool {
    exists|jss: Seq<Seq<int>>|
        #[trigger] deal_draws_of(jss) == deal_draws && jss.len() == hands.len() && forall|q: int|
            0 <= q < hands.len() ==> {
                &&& (#[trigger] jss[q]).len() == h
                &&& forall|t: int| 0 <= t < h ==> t <= #[trigger] jss[q][t] < 36
                &&& hands[q] == apply_swaps(full_bag(), jss[q]).subrange(0, h)
                &&& within_bag(hands[q])
            }
}

/// Some deal of `h` dice to each seat and play of the round, made by the
/// draws `draws` (the deal's, then the play's), gives `scores`.
pub open spec fn round_scores_possible(scores: Seq<i64>, h: int, draws: Seq<(usize, usize)>) -> bool {
    exists|
        hands: Seq<Seq<DieType>>,
        bids: Seq<usize>,
        trace: Seq<PlayedTrick>,
        deal: Seq<(usize, usize)>,
        play: Seq<(usize, usize)>,
    |
        #![trigger round_scores_from_play(scores, hands, bids, trace, h, play), dealt_independently(hands, h, deal)]
        round_scores_from_play(scores, hands, bids, trace, h, play) && dealt_independently(
            hands,
            h,
            deal,
        ) && draws == deal + play
}

/// Some deal in which seat 0 holds `hand` and the others are dealt from the
/// rest of the bag by a partial shuffle, and some play of it, made by the
/// draws `draws` (the shuffle's, then the play's), gives `scores`.
pub open spec fn round_scores_possible_with_hand(
    scores: Seq<i64>,
    hand: Seq<DieType>,
    draws: Seq<(usize, usize)>,
) -> bool {
    let h = hand.len() as int;
    exists|
        hands: Seq<Seq<DieType>>,
        bids: Seq<usize>,
        trace: Seq<PlayedTrick>,
        js: Seq<int>,
        play: Seq<(usize, usize)>,
    |
        #![trigger round_scores_from_play(scores, hands, bids, trace, h, play), shuffle_draws(36 - h, js)]
        {
            &&& round_scores_from_play(scores, hands, bids, trace, h, play)
            &&& hands[0] == hand
            &&& within_bag(hand + concat_hands(opponents_of(hands, 0)))
            &&& js.len() == h * (scores.len() - 1)
            &&& forall|t: int| 0 <= t < js.len() ==> t <= #[trigger] js[t] < 36 - h
            &&& concat_hands(opponents_of(hands, 0)) == apply_swaps(
                expand_counts(remaining_counts_spec(hand), 7),
                js,
            ).subrange(0, js.len() as int)
            &&& draws == shuffle_draws(36 - h, js) + play
        }
}

/// After one more game is recorded, the scores of the games before it stand.
proof fn lemma_score_columns_kept(before: Seq<Vec<i64>>, after: Seq<Vec<i64>>, g: int)
    requires
        before.len() == after.len(),
        forall|p: int| 0 <= p < before.len() ==> 0 <= g < (#[trigger] before[p]).len(),
        forall|p: int|
            0 <= p < before.len() ==> (#[trigger] after[p])@ == before[p]@.push(after[p]@.last()),
    ensures
        score_column(after, g) == score_column(before, g),
{
    assert forall|p: int| 0 <= p < before.len() implies #[trigger] score_column(after, g)[p]
        == score_column(before, g)[p] by {
        assert(after[p]@ == before[p]@.push(after[p]@.last()));
    }
    assert(score_column(after, g) =~= score_column(before, g));
}

/// Appends one round's scores: player `p` scores its bid against its tricks
/// won plus its bonus points.
fn record_round_scores(
    all_scores: &mut Vec<Vec<i64>>,
    bids: &Vec<usize>,
    outcome: &RoundOutcome,
    round_number: usize,
)
    requires
        1 <= round_number <= 8,
        old(all_scores).len() == bids.len(),
        outcome.tricks_won.len() == bids.len(),
        outcome.bonus_points.len() == bids.len(),
        forall|k: int| 0 <= k < bids.len() ==> #[trigger] bids[k] <= round_number,
        forall|k: int| 0 <= k < bids.len() ==> #[trigger] outcome.tricks_won[k] <= round_number,
        forall|k: int|
            0 <= k < bids.len() ==> 0 <= #[trigger] outcome.bonus_points[k] <= 50
                * outcome.tricks_won[k],
        forall|k: int| 0 <= k < bids.len() ==> #[trigger] outcome.bonus_points[k] % 10 == 0,
    ensures
        final(all_scores).len() == old(all_scores).len(),
        forall|k: int|
            0 <= k < bids.len() ==> (#[trigger] final(all_scores)[k])@ == old(all_scores)[k]@.push(
                (spec_base_score(
                    bids[k] as int,
                    outcome.tricks_won[k] as int,
                    round_number as int,
                ) + outcome.bonus_points[k]) as i64,
            ),
        forall|k: int|
            0 <= k < bids.len() ==> round_score_in_range(
                spec_base_score(bids[k] as int, outcome.tricks_won[k] as int, round_number as int)
                    + outcome.bonus_points[k],
                round_number as int,
            ),
{
    let ghost old_scores = all_scores@;
    let mut p: usize = 0;
    while p < bids.len()
        invariant
            0 <= p <= bids.len(),
            1 <= round_number <= 8,
            all_scores.len() == bids.len(),
            old_scores.len() == bids.len(),
            outcome.tricks_won.len() == bids.len(),
            outcome.bonus_points.len() == bids.len(),
            forall|k: int| 0 <= k < bids.len() ==> #[trigger] bids[k] <= round_number,
            forall|k: int| 0 <= k < bids.len() ==> #[trigger] outcome.tricks_won[k] <= round_number,
            forall|k: int|
                0 <= k < bids.len() ==> 0 <= #[trigger] outcome.bonus_points[k] <= 50
                    * outcome.tricks_won[k],
            forall|k: int| 0 <= k < bids.len() ==> #[trigger] outcome.bonus_points[k] % 10 == 0,
            forall|k: int|
                0 <= k < p ==> (#[trigger] all_scores[k])@ == old_scores[k]@.push(
                    (spec_base_score(
                        bids[k] as int,
                        outcome.tricks_won[k] as int,
                        round_number as int,
                    ) + outcome.bonus_points[k]) as i64,
                ),
            forall|k: int| p <= k < bids.len() ==> (#[trigger] all_scores[k]) == old_scores[k],
        decreases bids.len() - p,
    {
        let s = score_player(bids[p], outcome.tricks_won[p], round_number, outcome.bonus_points[p]);
        all_scores[p].push(s);
        p = p + 1;
    }
    proof {
        assert forall|k: int| 0 <= k < bids.len() implies round_score_in_range(
            spec_base_score(bids[k] as int, outcome.tricks_won[k] as int, round_number as int)
                + outcome.bonus_points[k],
            round_number as int,
        ) by {
            lemma_base_score_multiple_of_ten(
                bids[k] as int,
                outcome.tricks_won[k] as int,
                round_number as int,
            );
        }
    }
}

/// Simulate a specific round number `round_number` across `n_games` samples.
///
/// In Mino Dice, the number of dice drawn in a round equals the round number,
/// so this function draws `round_number` dice per player and returns the score
/// distribution for that single round only.
pub fn simulate_round_number<R: Rng>(
    player_count: usize,
    round_number: usize,
    n_games: usize,
    rng: &mut R,
) -> (r: Vec<Vec<i64>>)
    requires
        3 <= player_count <= 6,
        1 <= round_number <= spec_round_count(player_count as int),
    ensures
        r.len() == player_count,
        forall|p: int| 0 <= p < player_count ==> (#[trigger] r[p]).len() == n_games,
        forall|p: int, g: int|
            0 <= p < player_count && 0 <= g < n_games ==> round_score_in_range(
                #[trigger] r[p][g] as int,
                round_number as int,
            ),
        exists|segs: Seq<Seq<(usize, usize)>>|
            {
                &&& segs.len() == n_games
                &&& #[trigger] final(rng).draws() == old(rng).draws() + concat_draws(segs)
                &&& forall|g: int|
                    0 <= g < n_games ==> round_scores_possible(
                        #[trigger] score_column(r@, g),
                        round_number as int,
                        segs[g],
                    )
            },
{
    proof {
        lemma_game_fits_bag(player_count as int);
        assert(player_count * round_number <= 36) by (nonlinear_arith)
            requires
                round_number <= spec_round_count(player_count as int),
                player_count * spec_round_count(player_count as int) <= 36,
                player_count >= 0,
        ;
    }
    let mut all_scores: Vec<Vec<i64>> = Vec::new();
    let mut q: usize = 0;
    while q < player_count
        invariant
            0 <= q <= player_count,
            all_scores.len() == q,
            forall|p: int| 0 <= p < q ==> (#[trigger] all_scores[p]).len() == 0,
        decreases player_count - q,
    {
        all_scores.push(Vec::new());
        q = q + 1;
    }

    let ghost d0 = rng.draws();
    let ghost mut segs: Seq<Seq<(usize, usize)>> = Seq::empty();
    proof {
        assert(d0 + concat_draws(segs) =~= d0);
    }
    let mut game: usize = 0;
    while game < n_games
        invariant
            segs.len() == game,
            d0 == old(rng).draws(),
            rng.draws() == d0 + concat_draws(segs),
            0 <= game <= n_games,
            3 <= player_count <= 6,
            1 <= round_number <= 8,
            player_count * round_number <= 36,
            all_scores.len() == player_count,
            forall|p: int| 0 <= p < player_count ==> (#[trigger] all_scores[p]).len() == game,
            forall|p: int, g: int|
                0 <= p < player_count && 0 <= g < game ==> round_score_in_range(
                    #[trigger] all_scores[p][g] as int,
                    round_number as int,
                ),
            forall|g: int|
                0 <= g < game ==> round_scores_possible(
                    #[trigger] score_column(all_scores@, g),
                    round_number as int,
                    segs[g],
                ),
        decreases n_games - game,
    {
        let ghost dg = rng.draws();
        let hands = deal_hands(player_count, round_number, rng);
        let ghost dp = rng.draws();
        let bids = choose_bids(&hands);
        let outcome = simulate_round(hands.as_slice(), 0, rng);
        let ghost old_segs = segs;
        let ghost before = all_scores@;
        record_round_scores(&mut all_scores, &bids, &outcome, round_number);
        proof {
            assert forall|p: int, g: int|
                0 <= p < player_count && 0 <= g < game + 1 implies round_score_in_range(
                #[trigger] all_scores[p][g] as int,
                round_number as int,
            ) by {
                if g < game {
                    assert(all_scores[p]@[g] == before[p]@[g]);
                }
            }
            let deal = choose|deal: Seq<(usize, usize)>|
                #[trigger] dealt_independently(hands_view(hands@), round_number as int, deal)
                    && dp == dg + deal;
            let (trace, play) = choose|trace: Seq<PlayedTrick>, play: Seq<(usize, usize)>|
                #[trigger] round_played(hands_view(hands@), 0, trace, outcome, play)
                    && rng.draws() == dp + play;
            lemma_recorded_round_possible(
                before,
                all_scores@,
                hands@,
                bids@,
                outcome,
                game as int,
                play,
            );
            let trace2 = choose|trace2: Seq<PlayedTrick>|
                #[trigger] round_scores_from_play(
                    score_column(all_scores@, game as int),
                    hands_view(hands@),
                    bids@,
                    trace2,
                    hands[0].len() as int,
                    play,
                );
            assert(hands[0].len() == round_number);
            assert(round_scores_possible(
                score_column(all_scores@, game as int),
                round_number as int,
                deal + play,
            ));
            segs = segs.push(deal + play);
            assert(segs.drop_last() =~= old_segs);
            assert(rng.draws() =~= d0 + concat_draws(segs));
            assert forall|g: int| 0 <= g < game + 1 implies round_scores_possible(
                #[trigger] score_column(all_scores@, g),
                round_number as int,
                segs[g],
            ) by {
                if g < game {
                    lemma_score_columns_kept(before, all_scores@, g);
                    assert(segs[g] == old_segs[g]);
                }
            }
        }
        game = game + 1;
    }
    all_scores
}

/// Scores of base score plus bonus for the best bids of `hands` and the
/// outcome of a play of them come from a deal and play of the round.
proof fn lemma_round_scores_possible(
    scores: Seq<i64>,
    hands: Seq<Vec<DieType>>,
    bids: Seq<usize>,
    outcome: RoundOutcome,
    play: Seq<(usize, usize)>,
)
    requires
        hands.len() == scores.len() == bids.len(),
        equal_hand_sizes(hands),
        1 <= hands[0].len() <= 36,
        forall|p: int|
            0 <= p < hands.len() ==> is_best_bid(bid_weights(hands_view(hands), p), #[trigger] bids[p] as int),
        exists|trace: Seq<PlayedTrick>|
            #[trigger] round_played(hands_view(hands), 0, trace, outcome, play),
        forall|k: int|
            0 <= k < bids.len() ==> #[trigger] scores[k] == (spec_base_score(
                bids[k] as int,
                outcome.tricks_won[k] as int,
                hands[0].len() as int,
            ) + outcome.bonus_points[k]) as i64,
        forall|k: int|
            0 <= k < bids.len() ==> round_score_in_range(
                #[trigger] (spec_base_score(
                    bids[k] as int,
                    outcome.tricks_won[k] as int,
                    hands[0].len() as int,
                ) + outcome.bonus_points[k]),
                hands[0].len() as int,
            ),
    ensures
        exists|trace: Seq<PlayedTrick>|
            #[trigger] round_scores_from_play(
                scores,
                hands_view(hands),
                bids,
                trace,
                hands[0].len() as int,
                play,
            ),
{
    let trace = choose|trace: Seq<PlayedTrick>|
        #[trigger] round_played(hands_view(hands), 0, trace, outcome, play);
    reveal(round_played);
    assert(hands_view(hands)[0].len() == hands[0].len());
    let n = hands.len() as int;
    let h = hands[0].len() as int;
    let hv = hands_view(hands);
    assert forall|q: int| 0 <= q < n implies (#[trigger] hv[q]).len() == h by {
        assert(hands[q].len() == hands[0].len());
    }
    assert forall|p: int| 0 <= p < n implies is_best_bid(bid_weights(hv, p), bids[p] as int)
        && #[trigger] scores[p] == spec_base_score(bids[p] as int, tricks_won_in(n, trace, p), h)
        + bonus_won_in(n, trace, p) by {
        assert(round_score_in_range(
            spec_base_score(bids[p] as int, outcome.tricks_won[p] as int, h)
                + outcome.bonus_points[p],
            h,
        ));
        assert(outcome.tricks_won[p] == tricks_won_in(n, trace, p));
    }
    assert(round_scores_from_play(scores, hv, bids, trace, h, play));
}

/// The scores recorded for game `g` come from a deal and play of the round.
proof fn lemma_recorded_round_possible(
    before: Seq<Vec<i64>>,
    after: Seq<Vec<i64>>,
    hands: Seq<Vec<DieType>>,
    bids: Seq<usize>,
    outcome: RoundOutcome,
    g: int,
    play: Seq<(usize, usize)>,
)
    requires
        hands.len() == before.len() == after.len() == bids.len(),
        equal_hand_sizes(hands),
        1 <= hands[0].len() <= 36,
        forall|p: int| 0 <= p < before.len() ==> (#[trigger] before[p]).len() == g,
        forall|p: int|
            0 <= p < hands.len() ==> is_best_bid(bid_weights(hands_view(hands), p), #[trigger] bids[p] as int),
        exists|trace: Seq<PlayedTrick>|
            #[trigger] round_played(hands_view(hands), 0, trace, outcome, play),
        forall|k: int|
            0 <= k < bids.len() ==> (#[trigger] after[k])@ == before[k]@.push(
                (spec_base_score(
                    bids[k] as int,
                    outcome.tricks_won[k] as int,
                    hands[0].len() as int,
                ) + outcome.bonus_points[k]) as i64,
            ),
        forall|k: int|
            0 <= k < bids.len() ==> round_score_in_range(
                #[trigger] (spec_base_score(
                    bids[k] as int,
                    outcome.tricks_won[k] as int,
                    hands[0].len() as int,
                ) + outcome.bonus_points[k]),
                hands[0].len() as int,
            ),
    ensures
        exists|trace: Seq<PlayedTrick>|
            #[trigger] round_scores_from_play(
                score_column(after, g),
                hands_view(hands),
                bids,
                trace,
                hands[0].len() as int,
                play,
            ),
{
    let col = score_column(after, g);
    assert forall|k: int| 0 <= k < bids.len() implies #[trigger] col[k] == (spec_base_score(
        bids[k] as int,
        outcome.tricks_won[k] as int,
        hands[0].len() as int,
    ) + outcome.bonus_points[k]) as i64 by {
        assert(after[k]@[g] == col[k]);
    }
    lemma_round_scores_possible(col, hands, bids, outcome, play);
}

/// Simulates `n_games` rounds in which player 0 holds `player_hand` and the
/// other players draw their hands from the dice left in the bag; returns each
/// player's score per game.
pub fn simulate_round_for_player_hand<R: Rng>(
    player_hand: &[DieType],
    player_count: usize,
    n_games: usize,
    rng: &mut R,
) -> (r: Vec<Vec<i64>>)
    requires
        3 <= player_count <= 6,
        n_games > 0,
        1 <= player_hand.len() <= spec_round_count(player_count as int),
        within_bag(player_hand@),
    ensures
        r.len() == player_count,
        forall|p: int| 0 <= p < player_count ==> (#[trigger] r[p]).len() == n_games,
        forall|p: int, g: int|
            0 <= p < player_count && 0 <= g < n_games ==> round_score_in_range(
                #[trigger] r[p][g] as int,
                player_hand.len() as int,
            ),
        exists|segs: Seq<Seq<(usize, usize)>>|
            {
                &&& segs.len() == n_games
                &&& #[trigger] final(rng).draws() == old(rng).draws() + concat_draws(segs)
                &&& forall|g: int|
                    0 <= g < n_games ==> round_scores_possible_with_hand(
                        #[trigger] score_column(r@, g),
                        player_hand@,
                        segs[g],
                    )
            },
{
    let round_number = player_hand.len();
    proof {
        lemma_game_fits_bag(player_count as int);
        assert(player_count * round_number <= 36) by (nonlinear_arith)
            requires
                round_number <= spec_round_count(player_count as int),
                player_count * spec_round_count(player_count as int) <= 36,
                player_count >= 0,
        ;
    }
    let mut all_scores: Vec<Vec<i64>> = Vec::new();
    let mut q: usize = 0;
    while q < player_count
        invariant
            0 <= q <= player_count,
            all_scores.len() == q,
            forall|p: int| 0 <= p < q ==> (#[trigger] all_scores[p]).len() == 0,
        decreases player_count - q,
    {
        all_scores.push(Vec::new());
        q = q + 1;
    }

    let ghost d0 = rng.draws();
    let ghost mut segs: Seq<Seq<(usize, usize)>> = Seq::empty();
    proof {
        assert(d0 + concat_draws(segs) =~= d0);
    }
    let mut game: usize = 0;
    while game < n_games
        invariant
            segs.len() == game,
            d0 == old(rng).draws(),
            rng.draws() == d0 + concat_draws(segs),
            0 <= game <= n_games,
            3 <= player_count <= 6,
            round_number == player_hand.len(),
            1 <= round_number <= 8,
            player_count * round_number <= 36,
            within_bag(player_hand@),
            all_scores.len() == player_count,
            forall|p: int| 0 <= p < player_count ==> (#[trigger] all_scores[p]).len() == game,
            forall|p: int, g: int|
                0 <= p < player_count && 0 <= g < game ==> round_score_in_range(
                    #[trigger] all_scores[p][g] as int,
                    round_number as int,
                ),
            forall|g: int|
                0 <= g < game ==> round_scores_possible_with_hand(
                    #[trigger] score_column(all_scores@, g),
                    player_hand@,
                    segs[g],
                ),
        decreases n_games - game,
    {
        proof {
            assert(round_number * (player_count - 1) + round_number == player_count * round_number)
                by (nonlinear_arith);
        }
        let ghost dg = rng.draws();
        let opponent_hands = sample_opponent_hands_from_remaining(
            player_hand,
            player_count - 1,
            rng,
        );
        let hands = embed_player_hand(player_hand, opponent_hands.as_slice(), player_count, 0);
        proof {
            assert forall|p: int| 0 <= p < hands.len() implies (#[trigger] hands[p]).len()
                == hands[0].len() by {
                if p > 0 {
                    assert(hands[p]@ == opponent_hands[p - 1]@);
                }
            }
        }
        let ghost dp = rng.draws();
        let bids = choose_bids(&hands);
        let outcome = simulate_round(hands.as_slice(), 0, rng);
        let ghost old_segs = segs;
        let ghost before = all_scores@;
        record_round_scores(&mut all_scores, &bids, &outcome, round_number);
        proof {
            assert forall|p: int, g: int|
                0 <= p < player_count && 0 <= g < game + 1 implies round_score_in_range(
                #[trigger] all_scores[p][g] as int,
                round_number as int,
            ) by {
                if g < game {
                    assert(all_scores[p]@[g] == before[p]@[g]);
                }
            }
            let (trace, play) = choose|trace: Seq<PlayedTrick>, play: Seq<(usize, usize)>|
                #[trigger] round_played(hands_view(hands@), 0, trace, outcome, play)
                    && rng.draws() == dp + play;
            lemma_recorded_round_possible(
                before,
                all_scores@,
                hands@,
                bids@,
                outcome,
                game as int,
                play,
            );
            let trace2 = choose|trace2: Seq<PlayedTrick>|
                #[trigger] round_scores_from_play(
                    score_column(all_scores@, game as int),
                    hands_view(hands@),
                    bids@,
                    trace2,
                    hands[0].len() as int,
                    play,
                );
            let js = choose|js: Seq<int>|
                {
                    &&& js.len() == player_hand.len() * (player_count - 1)
                    &&& forall|t: int|
                        0 <= t < js.len() ==> t <= #[trigger] js[t] < 36 - player_hand.len()
                    &&& dp == dg + shuffle_draws(36 - player_hand.len(), js)
                    &&& concat_hands(hands_view(opponent_hands@)) == apply_swaps(
                        expand_counts(remaining_counts_spec(player_hand@), 7),
                        js,
                    ).subrange(0, js.len() as int)
                };
            let hv = hands_view(hands@);
            assert(opponents_of(hv, 0) =~= hands_view(opponent_hands@)) by {
                assert forall|i: int| 0 <= i < player_count - 1 implies #[trigger] opponents_of(
                    hv,
                    0,
                )[i] == hands_view(opponent_hands@)[i] by {
                    assert(hands[i + 1]@ == opponent_hands[i]@);
                }
            }
            assert(hv[0] == player_hand@);
            assert(hands[0].len() == player_hand.len());
            let col = score_column(all_scores@, game as int);
            assert(col.len() == player_count);
            assert(js.len() == player_hand.len() * (col.len() - 1));
            let drawn = shuffle_draws(36 - player_hand.len(), js) + play;
            assert(round_scores_possible_with_hand(col, player_hand@, drawn));
            segs = segs.push(drawn);
            assert(segs.drop_last() =~= old_segs);
            assert(rng.draws() =~= d0 + concat_draws(segs));
            assert forall|g: int| 0 <= g < game + 1 implies round_scores_possible_with_hand(
                #[trigger] score_column(all_scores@, g),
                player_hand@,
                segs[g],
            ) by {
                if g < game {
                    lemma_score_columns_kept(before, all_scores@, g);
                    assert(segs[g] == old_segs[g]);
                }
            }
        }
        game = game + 1;
    }
    all_scores
}


/// The hands of every seat but `p`, in seat order.
pub open spec fn opponents_of(hands: Seq<Seq<DieType>>, p: int) -> Seq<Seq<DieType>> {
    hands.subrange(0, p) + hands.subrange(p + 1, hands.len() as int)
}

/// `hands` and `trace` can be one sampled round: `player_hand` at
/// `player_position`, the other hands of the same size dealt from the rest of
/// the bag by a partial shuffle, and the tricks played by the rules from them
/// with seat 0 leading; `draws` are the shuffle's draws followed by those of
/// the play.
pub open spec fn sampled_round(
    player_hand: Seq<DieType>,
    player_count: int,
    player_position: int,
    hands: Seq<Seq<DieType>>,
    trace: Seq<PlayedTrick>,
    draws: Seq<(usize, usize)>,
) -> bool {
    let h = player_hand.len() as int;
    &&& hands.len() == player_count
    &&& hands[player_position] == player_hand
    &&& forall|q: int| 0 <= q < hands.len() ==> (#[trigger] hands[q]).len() == player_hand.len()
    &&& within_bag(player_hand + concat_hands(opponents_of(hands, player_position)))
    &&& trace.len() == player_hand.len()
    &&& round_trace_valid(hands, 0, trace)
    &&& exists|js: Seq<int>, rdraws: Seq<(usize, usize)>|
        #![trigger shuffle_draws(36 - h, js), play_drawn(hands, trace, rdraws)]
        {
            &&& js.len() == h * (player_count - 1)
            &&& forall|t: int| 0 <= t < js.len() ==> t <= #[trigger] js[t] < 36 - h
            &&& concat_hands(opponents_of(hands, player_position)) == apply_swaps(
                expand_counts(remaining_counts_spec(player_hand), 7),
                js,
            ).subrange(0, js.len() as int)
            &&& play_drawn(hands, trace, rdraws)
            &&& draws == shuffle_draws(36 - h, js) + rdraws
        }
}

/// Plays one sampled round: opponents draw from the bag left after removing
/// `player_hand`, the player sits at `player_position`, player 0 leads.
fn sample_round_outcome<R: Rng>(
    player_hand: &[DieType],
    player_count: usize,
    player_position: usize,
    rng: &mut R,
) -> (r: RoundOutcome)
    requires
        3 <= player_count <= 6,
        player_position < player_count,
        1 <= player_hand.len(),
        player_count * player_hand.len() <= 36,
        within_bag(player_hand@),
    ensures
        r.tricks_won.len() == player_count,
        r.bonus_points.len() == player_count,
        r.mermaid_capture_won.len() == player_count,
        r.minotaur_capture_won.len() == player_count,
        sum_counts(r.tricks_won@) == player_hand.len(),
        forall|p: int| 0 <= p < player_count ==> #[trigger] r.tricks_won[p] <= player_hand.len(),
        forall|p: int|
            0 <= p < player_count ==> 0 <= #[trigger] r.bonus_points[p] <= 50 * r.tricks_won[p],
        r.mermaid_capture_won[player_position as int] ==> player_hand@.contains(DieType::Mermaid),
        r.minotaur_capture_won[player_position as int] ==> player_hand@.contains(
            DieType::Minotaur,
        ),
        r.bonus_points[player_position as int] > 0 ==> r.mermaid_capture_won[player_position as int]
            || r.minotaur_capture_won[player_position as int],
        r.mermaid_capture_won[player_position as int] ==> r.bonus_points[player_position as int]
            >= 50,
        r.minotaur_capture_won[player_position as int] ==> r.bonus_points[player_position as int]
            >= 30,
        r.bonus_points[player_position as int] % 10 == 0,
        r.bonus_points[player_position as int] >= capture_floor(
            r.mermaid_capture_won[player_position as int],
            r.minotaur_capture_won[player_position as int],
        ),
        r.mermaid_capture_won[player_position as int] ==> !player_hand@.contains(
            DieType::Minotaur,
        ),
        exists|hands: Seq<Seq<DieType>>, trace: Seq<PlayedTrick>, drawn: Seq<(usize, usize)>|
            #[trigger] sampled_round(
                player_hand@,
                player_count as int,
                player_position as int,
                hands,
                trace,
                drawn,
            ) && outcome_of_trace(r, player_count as int, trace) && final(rng).draws() == old(
                rng,
            ).draws() + drawn,
{
    proof {
        assert(player_hand.len() * (player_count - 1) + player_hand.len() == player_count
            * player_hand.len()) by (nonlinear_arith);
        assert(player_hand.len() <= 36) by (nonlinear_arith)
            requires
                player_count * player_hand.len() <= 36,
                player_count >= 1,
        ;
    }
    let ghost d_in = rng.draws();
    let opponent_hands = sample_opponent_hands_from_remaining(player_hand, player_count - 1, rng);
    let hands = embed_player_hand(
        player_hand,
        opponent_hands.as_slice(),
        player_count,
        player_position,
    );
    proof {
        assert forall|p: int| 0 <= p < hands.len() implies (#[trigger] hands[p]).len()
            == player_hand.len() by {
            if p < player_position {
                assert(hands[p]@ == opponent_hands[p]@);
            } else if p > player_position {
                assert(hands[p]@ == opponent_hands[p - 1]@);
            }
        }
    }
    let ghost d_before = rng.draws();
    let r = simulate_round(hands.as_slice(), 0, rng);
    proof {
        let hv = hands_view(hands@);
        assert(opponents_of(hv, player_position as int) =~= hands_view(opponent_hands@)) by {
            assert forall|i: int| 0 <= i < player_count - 1 implies #[trigger] opponents_of(
                hv,
                player_position as int,
            )[i] == hands_view(opponent_hands@)[i] by {
                if i < player_position {
                    assert(hands[i]@ == opponent_hands[i]@);
                } else {
                    assert(hands[i + 1]@ == opponent_hands[i]@);
                }
            }
        }
        let (trace, drawn) = choose|trace: Seq<PlayedTrick>, drawn: Seq<(usize, usize)>|
            #[trigger] round_played(hv, 0, trace, r, drawn) && rng.draws() == d_before + drawn;
        reveal(round_played);
        assert(hv[0].len() == hands[0].len());
        let h = player_hand.len() as int;
        let js = choose|js: Seq<int>|
            {
                &&& js.len() == player_hand.len() * (player_count - 1)
                &&& forall|t: int|
                    0 <= t < js.len() ==> t <= #[trigger] js[t] < 36 - player_hand.len()
                &&& d_before == d_in + shuffle_draws(36 - player_hand.len(), js)
                &&& concat_hands(hands_view(opponent_hands@)) == apply_swaps(
                    expand_counts(remaining_counts_spec(player_hand@), 7),
                    js,
                ).subrange(0, js.len() as int)
            };
        assert(js.len() == h * (player_count - 1)) by (nonlinear_arith)
            requires
                js.len() == player_hand.len() * (player_count - 1),
                h == player_hand.len(),
        ;
        let all_drawn = shuffle_draws(36 - h, js) + drawn;
        assert(rng.draws() =~= d_in + all_drawn);
        assert(sampled_round(
            player_hand@,
            player_count as int,
            player_position as int,
            hv,
            trace,
            all_drawn,
        ));
    }
    proof {
        if r.mermaid_capture_won[player_position as int] && player_hand@.contains(
            DieType::Minotaur,
        ) {
            let q = choose|q: int|
                0 <= q < hands.len() && q != player_position && hands[q]@.contains(
                    DieType::Minotaur,
                );
            let opps = hands_view(opponent_hands@);
            let oi = if q < player_position {
                q
            } else {
                q - 1
            };
            assert(opps[oi] == hands[q]@);
            lemma_concat_hands_count(opps, oi, DieType::Minotaur);
            lemma_count_of_contained(player_hand@, DieType::Minotaur);
            broadcast use vstd::seq_lib::lemma_multiset_commutative;

            assert((player_hand@ + concat_hands(opps)).to_multiset().count(DieType::Minotaur)
                >= 2);
            assert(false);
        }
    }
    r
}

/// A die in one of the hands is among all the dice of the hands.
proof fn lemma_concat_hands_count(hs: Seq<Seq<DieType>>, i: int, d: DieType)
    requires
        0 <= i < hs.len(),
        hs[i].contains(d),
    ensures
        concat_hands(hs).to_multiset().count(d) >= 1,
    decreases hs.len(),
{
    broadcast use vstd::seq_lib::lemma_multiset_commutative;

    if i < hs.len() - 1 {
        lemma_concat_hands_count(hs.drop_last(), i, d);
    } else {
        lemma_count_of_contained(hs.last(), d);
    }
}

/// A sequence that contains `d` counts it at least once.
proof fn lemma_count_of_contained(s: Seq<DieType>, d: DieType)
    requires
        s.contains(d),
    ensures
        s.to_multiset().count(d) >= 1,
{
    broadcast use vstd::seq_lib::group_to_multiset_ensures;

}

/// How many entries of `obs` equal `k`.
pub open spec fn occurrences(obs: Seq<usize>, k: int) -> int
    decreases obs.len(),
{
    if obs.len() == 0 {
        0
    } else {
        occurrences(obs.drop_last(), k) + if obs.last() == k {
            1int
        } else {
            0int
        }
    }
}

/// Whether the player at `player_position` holding `player_hand` wins
/// exactly `k` tricks in the sampled round that the draws `draws` make.
pub open spec fn trick_count_possible(
    k: int,
    player_hand: Seq<DieType>,
    player_count: int,
    player_position: int,
    draws: Seq<(usize, usize)>,
) -> bool {
    exists|hands: Seq<Seq<DieType>>, trace: Seq<PlayedTrick>|
        #[trigger] sampled_round(player_hand, player_count, player_position, hands, trace, draws)
            && tricks_won_in(player_count, trace, player_position) == k
}

/// Tallies, over `n_samples` simulated rounds, how often the player at
/// `player_position` holding `player_hand` wins exactly `k` tricks (index `k`).
/// Opponents draw their hands from the dice left in the bag. Dividing by
/// `n_samples` gives the Monte Carlo trick-count distribution.
pub fn sample_trick_count_distribution_counts<R: Rng>(
    player_hand: &[DieType],
    player_count: usize,
    player_position: usize,
    n_samples: usize,
    rng: &mut R,
) -> (r: Vec<usize>)
    requires
        3 <= player_count <= 6,
        player_position < player_count,
        1 <= player_hand.len(),
        player_count * player_hand.len() <= 36,
        within_bag(player_hand@),
    ensures
        r.len() == player_hand.len() + 1,
        sum_counts(r@) == n_samples,
        exists|obs: Seq<usize>, segs: Seq<Seq<(usize, usize)>>|
            {
                &&& obs.len() == n_samples
                &&& segs.len() == n_samples
                &&& #[trigger] final(rng).draws() == old(rng).draws() + concat_draws(segs)
                &&& forall|t: int|
                    0 <= t < n_samples ==> #[trigger] obs[t] <= player_hand.len()
                        && trick_count_possible(
                        obs[t] as int,
                        player_hand@,
                        player_count as int,
                        player_position as int,
                        segs[t],
                    )
                &&& forall|k: int| 0 <= k <= player_hand.len() ==> #[trigger] r[k] == occurrences(obs, k)
            },
{
    let ghost d0 = rng.draws();
    let ghost mut segs: Seq<Seq<(usize, usize)>> = Seq::empty();
    proof {
        assert(d0 + concat_draws(segs) =~= d0);
    }
    let mut observed: Vec<usize> = Vec::new();
    let mut i: usize = 0;
    while i < n_samples
        invariant
            0 <= i <= n_samples,
            3 <= player_count <= 6,
            player_position < player_count,
            1 <= player_hand.len(),
            player_count * player_hand.len() <= 36,
            within_bag(player_hand@),
            observed.len() == i,
            segs.len() == i,
            d0 == old(rng).draws(),
            rng.draws() == d0 + concat_draws(segs),
            forall|t: int|
                0 <= t < i ==> #[trigger] observed@[t] <= player_hand.len() && trick_count_possible(
                    observed@[t] as int,
                    player_hand@,
                    player_count as int,
                    player_position as int,
                    segs[t],
                ),
        decreases n_samples - i,
    {
        let ghost d_here = rng.draws();
        let outcome = sample_round_outcome(player_hand, player_count, player_position, rng);
        let won = outcome.tricks_won[player_position];
        let ghost old_obs = observed@;
        let ghost old_segs = segs;
        proof {
            let (hands, trace, drawn) = choose|
                hands: Seq<Seq<DieType>>,
                trace: Seq<PlayedTrick>,
                drawn: Seq<(usize, usize)>,
            |
                #[trigger] sampled_round(
                    player_hand@,
                    player_count as int,
                    player_position as int,
                    hands,
                    trace,
                    drawn,
                ) && outcome_of_trace(outcome, player_count as int, trace) && rng.draws() == d_here
                    + drawn;
            assert(outcome.tricks_won[player_position as int] == tricks_won_in(
                player_count as int,
                trace,
                player_position as int,
            ));
            assert(trick_count_possible(
                won as int,
                player_hand@,
                player_count as int,
                player_position as int,
                drawn,
            ));
            segs = segs.push(drawn);
            assert(segs.drop_last() =~= old_segs);
            assert(rng.draws() =~= d0 + concat_draws(segs));
        }
        observed.push(won);
        proof {
            assert forall|t: int| 0 <= t < i + 1 implies #[trigger] observed@[t] <= player_hand.len()
                && trick_count_possible(
                observed@[t] as int,
                player_hand@,
                player_count as int,
                player_position as int,
                segs[t],
            ) by {
                if t < i {
                    assert(observed@[t] == old_obs[t]);
                    assert(segs[t] == old_segs[t]);
                }
            }
        }
        i = i + 1;
    }
    tally_trick_counts(&observed, player_hand.len())
}

/// How often each trick count `0..=hand_size` occurs among `observed`.
pub fn tally_trick_counts(observed: &Vec<usize>, hand_size: usize) -> (r: Vec<usize>)
    requires
        hand_size < usize::MAX,
        forall|t: int| 0 <= t < observed.len() ==> #[trigger] observed@[t] <= hand_size,
    ensures
        r.len() == hand_size + 1,
        sum_counts(r@) == observed.len(),
        forall|k: int| 0 <= k <= hand_size ==> #[trigger] r[k] == occurrences(observed@, k),
{
    let mut counts: Vec<usize> = vec![0usize; hand_size + 1];
    proof {
        assert(counts@ =~= Seq::new((hand_size + 1) as nat, |i: int| 0usize));
        lemma_sum_counts_zeros((hand_size + 1) as nat);
    }
    let mut i: usize = 0;
    while i < observed.len()
        invariant
            0 <= i <= observed.len(),
            hand_size < usize::MAX,
            forall|t: int| 0 <= t < observed.len() ==> #[trigger] observed@[t] <= hand_size,
            counts.len() == hand_size + 1,
            sum_counts(counts@) == i,
            forall|k: int|
                0 <= k <= hand_size ==> #[trigger] counts[k] == occurrences(
                    observed@.subrange(0, i as int),
                    k,
                ),
        decreases observed.len() - i,
    {
        let v = observed[i];
        proof {
            let pre = observed@.subrange(0, i as int);
            let next = observed@.subrange(0, i + 1);
            assert(next.drop_last() =~= pre);
            assert(next.last() == v);
            assert(occurrences(pre, v as int) <= pre.len()) by {
                lemma_occurrences_bound(pre, v as int);
            }
            lemma_sum_counts_update(counts@, v as int, (counts[v as int] + 1) as usize);
        }
        counts[v] = counts[v] + 1;
        i = i + 1;
    }
    proof {
        assert(observed@.subrange(0, observed.len() as int) =~= observed@);
    }
    counts
}

/// No value occurs more often than there are entries.
proof fn lemma_occurrences_bound(obs: Seq<usize>, k: int)
    ensures
        0 <= occurrences(obs, k) <= obs.len(),
    decreases obs.len(),
{
    if obs.len() > 0 {
        lemma_occurrences_bound(obs.drop_last(), k);
    }
}

/// Whether `obs` can be what one sampled round shows of a player holding
/// `hand`: whether their Mermaid captured a Minotaur, whether their Minotaur
/// captured a Griffin, and the bonus points they earned.
pub open spec fn capture_observation_possible(obs: (bool, bool, i64), hand: Seq<DieType>) -> bool {
    &&& 0 <= obs.2 <= 50 * hand.len()
    &&& obs.0 ==> hand.contains(DieType::Mermaid) && obs.2 >= 50
    &&& obs.1 ==> hand.contains(DieType::Minotaur) && obs.2 >= 30
    &&& obs.2 > 0 ==> obs.0 || obs.1
    &&& obs.2 % 10 == 0
    &&& obs.2 >= capture_floor(obs.0, obs.1)
    &&& obs.0 ==> !hand.contains(DieType::Minotaur)
}

/// Whether `obs` is what one sampled round, with `player_hand` at
/// `player_position`, gives that player: its Mermaid capture, its Minotaur
/// capture and its bonus points over the tricks it wins.
pub open spec fn capture_observation_from_round(
    obs: (bool, bool, i64),
    player_hand: Seq<DieType>,
    player_count: int,
    player_position: int,
    draws: Seq<(usize, usize)>,
) -> bool {
    exists|hands: Seq<Seq<DieType>>, trace: Seq<PlayedTrick>|
        #[trigger] sampled_round(player_hand, player_count, player_position, hands, trace, draws)
            && {
            &&& obs.0 == mermaid_capture_in(player_count, trace, player_position)
            &&& obs.1 == minotaur_capture_in(player_count, trace, player_position)
            &&& obs.2 == bonus_won_in(player_count, trace, player_position)
        }
}

/// The number of rounds in `obs` with a Mermaid capture.
pub open spec fn mermaid_total(obs: Seq<(bool, bool, i64)>) -> int
    decreases obs.len(),
{
    if obs.len() == 0 {
        0
    } else {
        mermaid_total(obs.drop_last()) + if obs.last().0 {
            1int
        } else {
            0int
        }
    }
}

/// The number of rounds in `obs` with a Minotaur capture.
pub open spec fn minotaur_total(obs: Seq<(bool, bool, i64)>) -> int
    decreases obs.len(),
{
    if obs.len() == 0 {
        0
    } else {
        minotaur_total(obs.drop_last()) + if obs.last().1 {
            1int
        } else {
            0int
        }
    }
}

/// The bonus points of all rounds in `obs`.
pub open spec fn bonus_total(obs: Seq<(bool, bool, i64)>) -> int
    decreases obs.len(),
{
    if obs.len() == 0 {
        0
    } else {
        bonus_total(obs.drop_last()) + obs.last().2
    }
}

/// Rounds without captures or bonus add up to nothing.
proof fn lemma_no_capture_observations(n: nat, hand: Seq<DieType>)
    ensures
        ({
            let obs = Seq::new(n, |t: int| (false, false, 0i64));
            &&& mermaid_total(obs) == 0
            &&& minotaur_total(obs) == 0
            &&& bonus_total(obs) == 0
            &&& forall|t: int|
                0 <= t < n ==> capture_observation_possible(#[trigger] obs[t], hand)
        }),
    decreases n,
{
    if n > 0 {
        lemma_no_capture_observations((n - 1) as nat, hand);
        let obs = Seq::new(n, |t: int| (false, false, 0i64));
        assert(obs.drop_last() =~= Seq::new((n - 1) as nat, |t: int| (false, false, 0i64)));
    }
}

/// Tallies of special-capture bonuses over sampled rounds.
#[derive(Debug, Clone, Copy, PartialEq, Eq, Structural)]
pub struct SpecialCaptureCounts {
    /// Rounds in which the player's Mermaid captured a Minotaur.
    pub mermaid_capture_wins: usize,
    /// Rounds in which the player's Minotaur captured a Griffin.
    pub minotaur_capture_wins: usize,
    /// Bonus points the player earned over all rounds.
    pub total_bonus_points: i64,
}

/// Over `n_samples` simulated rounds with the player at `player_position`
/// holding `player_hand`, counts the rounds in which the player captured a
/// Minotaur with a Mermaid or a Griffin with a Minotaur, and adds up the
/// player's bonus points. Dividing by `n_samples` gives the capture odds and
/// the expected bonus. An empty hand earns nothing and plays no round.
pub fn special_capture_counts<R: Rng>(
    player_hand: &[DieType],
    player_count: usize,
    player_position: usize,
    n_samples: usize,
    rng: &mut R,
) -> (r: SpecialCaptureCounts)
    requires
        3 <= player_count <= 6,
        player_position < player_count,
        n_samples > 0,
        player_count * player_hand.len() <= 36,
        n_samples * 600 <= i64::MAX,
        within_bag(player_hand@),
    ensures
        r.mermaid_capture_wins <= n_samples,
        r.minotaur_capture_wins <= n_samples,
        0 <= r.total_bonus_points <= 50 * player_hand.len() * n_samples,
        player_hand.len() == 0 ==> r == (SpecialCaptureCounts {
            mermaid_capture_wins: 0,
            minotaur_capture_wins: 0,
            total_bonus_points: 0,
        }),
        r.mermaid_capture_wins > 0 ==> player_hand@.contains(DieType::Mermaid),
        r.minotaur_capture_wins > 0 ==> player_hand@.contains(DieType::Minotaur),
        r.total_bonus_points > 0 ==> player_hand@.contains(DieType::Mermaid)
            || player_hand@.contains(DieType::Minotaur),
        player_hand.len() == 0 ==> final(rng).draws() == old(rng).draws(),
        exists|obs: Seq<(bool, bool, i64)>, segs: Seq<Seq<(usize, usize)>>|
            {
                &&& obs.len() == n_samples
                &&& segs.len() == n_samples
                &&& player_hand.len() > 0 ==> #[trigger] final(rng).draws() == old(rng).draws()
                    + concat_draws(segs)
                &&& forall|t: int|
                    0 <= t < n_samples ==> capture_observation_possible(
                        #[trigger] obs[t],
                        player_hand@,
                    ) && (player_hand.len() > 0 ==> capture_observation_from_round(
                        obs[t],
                        player_hand@,
                        player_count as int,
                        player_position as int,
                        segs[t],
                    ))
                &&& r.mermaid_capture_wins == mermaid_total(obs)
                &&& r.minotaur_capture_wins == minotaur_total(obs)
                &&& r.total_bonus_points == bonus_total(obs)
            },
{
    if player_hand.len() == 0 {
        proof {
            lemma_no_capture_observations(n_samples as nat, player_hand@);
            let obs = Seq::new(n_samples as nat, |t: int| (false, false, 0i64));
            let segs = Seq::new(n_samples as nat, |t: int| Seq::<(usize, usize)>::empty());
            assert(obs.len() == n_samples);
            assert(segs.len() == n_samples);
        }
        return SpecialCaptureCounts {
            mermaid_capture_wins: 0,
            minotaur_capture_wins: 0,
            total_bonus_points: 0,
        };
    }
    let h = player_hand.len();
    proof {
        assert(h <= 12) by (nonlinear_arith)
            requires
                player_count * h <= 36,
                player_count >= 3,
        ;
    }
    let mut observations: Vec<(bool, bool, i64)> = Vec::new();
    let ghost d0 = rng.draws();
    let ghost mut segs: Seq<Seq<(usize, usize)>> = Seq::empty();
    proof {
        assert(d0 + concat_draws(segs) =~= d0);
    }
    let mut i: usize = 0;
    while i < n_samples
        invariant
            segs.len() == i,
            d0 == old(rng).draws(),
            rng.draws() == d0 + concat_draws(segs),
            0 <= i <= n_samples,
            3 <= player_count <= 6,
            player_position < player_count,
            1 <= h == player_hand.len() <= 12,
            player_count * player_hand.len() <= 36,
            n_samples * 600 <= i64::MAX,
            within_bag(player_hand@),
            observations.len() == i,
            forall|t: int|
                0 <= t < i ==> capture_observation_possible(
                    #[trigger] observations@[t],
                    player_hand@,
                ) && capture_observation_from_round(
                    observations@[t],
                    player_hand@,
                    player_count as int,
                    player_position as int,
                    segs[t],
                ),
            mermaid_total(observations@) <= i,
            minotaur_total(observations@) <= i,
            0 <= bonus_total(observations@) <= 50 * h * i,
            mermaid_total(observations@) > 0 ==> player_hand@.contains(DieType::Mermaid),
            minotaur_total(observations@) > 0 ==> player_hand@.contains(DieType::Minotaur),
            bonus_total(observations@) > 0 ==> player_hand@.contains(DieType::Mermaid)
                || player_hand@.contains(DieType::Minotaur),
        decreases n_samples - i,
    {
        let ghost d_here = rng.draws();
        let ghost old_segs = segs;
        let outcome = sample_round_outcome(player_hand, player_count, player_position, rng);
        let o = (
            outcome.mermaid_capture_won[player_position],
            outcome.minotaur_capture_won[player_position],
            outcome.bonus_points[player_position],
        );
        proof {
            assert(outcome.bonus_points[player_position as int] <= 50 * h) by (nonlinear_arith)
                requires
                    outcome.bonus_points[player_position as int] <= 50
                        * outcome.tricks_won[player_position as int],
                    outcome.tricks_won[player_position as int] <= h,
            ;
            assert(capture_observation_possible(o, player_hand@));
            let (hands, trace, drawn) = choose|
                hands: Seq<Seq<DieType>>,
                trace: Seq<PlayedTrick>,
                drawn: Seq<(usize, usize)>,
            |
                #[trigger] sampled_round(
                    player_hand@,
                    player_count as int,
                    player_position as int,
                    hands,
                    trace,
                    drawn,
                ) && outcome_of_trace(outcome, player_count as int, trace) && rng.draws() == d_here
                    + drawn;
            assert(outcome.tricks_won[player_position as int] == tricks_won_in(
                player_count as int,
                trace,
                player_position as int,
            ));
            assert(capture_observation_from_round(
                o,
                player_hand@,
                player_count as int,
                player_position as int,
                drawn,
            ));
            segs = segs.push(drawn);
            assert(segs.drop_last() =~= old_segs);
            assert(rng.draws() =~= d0 + concat_draws(segs));
            assert(50 * h * i + 50 * h == 50 * h * (i + 1)) by (nonlinear_arith);
        }
        let ghost before = observations@;
        observations.push(o);
        proof {
            assert(observations@.drop_last() =~= before);
            assert forall|t: int| 0 <= t < i + 1 implies capture_observation_possible(
                #[trigger] observations@[t],
                player_hand@,
            ) && capture_observation_from_round(
                observations@[t],
                player_hand@,
                player_count as int,
                player_position as int,
                segs[t],
            ) by {
                if t < i {
                    assert(observations@[t] == before[t]);
                    assert(segs[t] == old_segs[t]);
                }
            }
        }
        i = i + 1;
    }
    proof {
        assert(50 * h * n_samples <= n_samples * 600) by (nonlinear_arith)
            requires
                h <= 12,
        ;
    }
    tally_special_captures(&observations)
}

/// The special-capture tallies of the sampled rounds `observations`, each
/// what a round showed of the player: whether their Mermaid captured a
/// Minotaur, whether their Minotaur captured a Griffin, and their bonus points.
pub fn tally_special_captures(observations: &Vec<(bool, bool, i64)>) -> (r: SpecialCaptureCounts)
    requires
        forall|t: int| 0 <= t < observations.len() ==> 0 <= #[trigger] observations@[t].2,
        bonus_total(observations@) <= i64::MAX,
    ensures
        r.mermaid_capture_wins == mermaid_total(observations@),
        r.minotaur_capture_wins == minotaur_total(observations@),
        r.total_bonus_points == bonus_total(observations@),
{
    let mut mermaid_capture_wins: usize = 0;
    let mut minotaur_capture_wins: usize = 0;
    let mut total_bonus_points: i64 = 0;
    let mut i: usize = 0;
    while i < observations.len()
        invariant
            0 <= i <= observations.len(),
            forall|t: int| 0 <= t < observations.len() ==> 0 <= #[trigger] observations@[t].2,
            bonus_total(observations@) <= i64::MAX,
            mermaid_capture_wins == mermaid_total(observations@.subrange(0, i as int)),
            minotaur_capture_wins == minotaur_total(observations@.subrange(0, i as int)),
            total_bonus_points == bonus_total(observations@.subrange(0, i as int)),
            mermaid_capture_wins <= i,
            minotaur_capture_wins <= i,
        decreases observations.len() - i,
    {
        let o = observations[i];
        proof {
            let next = observations@.subrange(0, i + 1);
            assert(next.drop_last() =~= observations@.subrange(0, i as int));
            lemma_bonus_total_prefix(observations@, i + 1);
        }
        if o.0 {
            mermaid_capture_wins = mermaid_capture_wins + 1;
        }
        if o.1 {
            minotaur_capture_wins = minotaur_capture_wins + 1;
        }
        total_bonus_points = total_bonus_points + o.2;
        i = i + 1;
    }
    assert(observations@.subrange(0, observations.len() as int) =~= observations@);
    SpecialCaptureCounts { mermaid_capture_wins, minotaur_capture_wins, total_bonus_points }
}

/// With no negative bonus, a prefix's bonus is at most the whole bonus.
proof fn lemma_bonus_total_prefix(obs: Seq<(bool, bool, i64)>, k: int)
    requires
        0 <= k <= obs.len(),
        forall|t: int| 0 <= t < obs.len() ==> 0 <= #[trigger] obs[t].2,
    ensures
        0 <= bonus_total(obs.subrange(0, k)) <= bonus_total(obs),
    decreases obs.len() - k,
{
    if k < obs.len() {
        lemma_bonus_total_prefix(obs, k + 1);
        let pre = obs.subrange(0, k);
        assert(obs.subrange(0, k + 1).drop_last() =~= pre);
        assert(obs.subrange(0, k + 1).last() == obs[k]);
        assert forall|t: int| 0 <= t < pre.len() implies 0 <= #[trigger] pre[t].2 by {
            assert(pre[t] == obs[t]);
        }
        lemma_bonus_total_nonneg(pre);
    } else {
        assert(obs.subrange(0, k) =~= obs);
        lemma_bonus_total_nonneg(obs);
    }
}

/// With no negative bonus, the whole bonus is not negative.
proof fn lemma_bonus_total_nonneg(obs: Seq<(bool, bool, i64)>)
    requires
        forall|t: int| 0 <= t < obs.len() ==> 0 <= #[trigger] obs[t].2,
    ensures
        0 <= bonus_total(obs),
    decreases obs.len(),
{
    if obs.len() > 0 {
        let d = obs.drop_last();
        assert forall|t: int| 0 <= t < d.len() implies 0 <= #[trigger] d[t].2 by {
            assert(d[t] == obs[t]);
        }
        lemma_bonus_total_nonneg(d);
    }
}

/// Whether `dice` fits in one bag: no die type occurs more often than the
/// bag holds it.
pub fn hand_fits_bag(dice: &[DieType]) -> (r: bool)
    ensures
        r == within_bag(dice@),
{
    let all = DieType::ALL;
    let mut i: usize = 0;
    while i < 7
        invariant
            0 <= i <= 7,
            all@ == seq![
                DieType::Minotaur,
                DieType::Griffin,
                DieType::Mermaid,
                DieType::Red,
                DieType::Yellow,
                DieType::Purple,
                DieType::Gray,
            ],
            forall|k: int|
                0 <= k < i ==> #[trigger] dice@.to_multiset().count(die_at(k)) <= die_at(
                    k,
                ).spec_bag_count(),
        decreases 7 - i,
    {
        let dt = all[i];
        assert(dt == die_at(i as int));
        if count_die(dice, dt) > dt.bag_count() as usize {
            return false;
        }
        i = i + 1;
    }
    proof {
        assert forall|d: DieType| #[trigger] dice@.to_multiset().count(d) <= d.spec_bag_count() by {
            lemma_die_at_index(d);
            assert(dice@.to_multiset().count(die_at(die_index(d))) <= die_at(
                die_index(d),
            ).spec_bag_count());
        }
    }
    true
}

/// The number of dice of each type (in `DieType::ALL` order) left in the bag
/// after removing the player's hand.
pub fn remaining_counts_after_removing_hand(player_hand: &[DieType]) -> (r: Vec<usize>)
    requires
        within_bag(player_hand@),
    ensures
        r.len() == 7,
        forall|i: int|
            0 <= i < 7 ==> #[trigger] r[i] == die_at(i).spec_bag_count()
                - player_hand@.to_multiset().count(die_at(i)),
{
    let all = DieType::ALL;
    let mut r: Vec<usize> = Vec::new();
    let mut i: usize = 0;
    while i < 7
        invariant
            0 <= i <= 7,
            within_bag(player_hand@),
            all@ == seq![
                DieType::Minotaur,
                DieType::Griffin,
                DieType::Mermaid,
                DieType::Red,
                DieType::Yellow,
                DieType::Purple,
                DieType::Gray,
            ],
            r.len() == i,
            forall|k: int|
                0 <= k < i ==> #[trigger] r[k] == die_at(k).spec_bag_count()
                    - player_hand@.to_multiset().count(die_at(k)),
        decreases 7 - i,
    {
        let dt = all[i];
        assert(dt == die_at(i as int));
        let used = count_die(player_hand, dt);
        r.push(dt.bag_count() as usize - used);
        i = i + 1;
    }
    r
}

} // verus!
