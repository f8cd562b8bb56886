//! Trick resolution: who wins a trick, and how many of the equally likely face
//! outcomes each seat wins.

use vstd::prelude::*;

use crate::dice::{DieType, Face, die_index};

verus! {

// ── Special character beat table ─────────────────────────────────────────────
// Minotaur > Griffin > Mermaid > Minotaur  (rock-paper-scissors cycle)

/// Whether `attacker` beats `defender` in the special-character cycle.
pub open spec fn spec_special_beats(attacker: Face, defender: Face) -> bool {
    ||| attacker is Minotaur && defender is Griffin
    ||| attacker is Griffin && defender is Mermaid
    ||| attacker is Mermaid && defender is Minotaur
}

/// Returns true if `attacker` beats `defender` in the special-character cycle.
fn special_beats(attacker: Face, defender: Face) -> (r: bool)
    ensures
        r == spec_special_beats(attacker, defender),
{
    match (attacker, defender) {
        (Face::Minotaur, Face::Griffin) | (Face::Griffin, Face::Mermaid) | (
            Face::Mermaid,
            Face::Minotaur,
        ) => true,
        _ => false,
    }
}

// ── Trick context ─────────────────────────────────────────────────────────────

/// The die rolled by one player in a trick.
#[derive(Debug, Clone, Copy)]
pub struct RolledDie {
    /// Which die type was used.
    pub die_type: DieType,
    /// The rolled face.
    pub face: Face,
    /// Roll order (0 = led, 1 = second, … used for tie-breaking).
    pub roll_order: usize,
}

impl RolledDie {
    pub fn new(die_type: DieType, face: Face, roll_order: usize) -> (r: Self)
        ensures
            r == (RolledDie { die_type, face, roll_order }),
    {
        Self { die_type, face, roll_order }
    }
}

// ── Trick winner resolution ───────────────────────────────────────────────────

/// Whether `challenger` takes the trick from the `current` holder.
pub open spec fn spec_beats(challenger: RolledDie, current: RolledDie) -> bool {
    let c = challenger.face;
    let h = current.face;
    if c is Flag && h is Flag {
        // If everyone rolled Flag, the later roller wins the tie.
        challenger.roll_order > current.roll_order
    } else if c is Flag {
        // A flag loses to any non-flag face.
        false
    } else if h is Flag {
        // Any non-flag face beats a flag.
        true
    } else if c.spec_is_special() && h.spec_is_special() {
        // Both specials: check the cycle, a tie goes to the later roller.
        if c == h {
            challenger.roll_order > current.roll_order
        } else {
            spec_special_beats(c, h)
        }
    } else if c.spec_is_special() {
        true
    } else if h.spec_is_special() {
        false
    } else {
        // Both numbers: higher wins; a tie goes to the later roller.
        if c.spec_numeric_value() == h.spec_numeric_value() {
            challenger.roll_order > current.roll_order
        } else {
            c.spec_numeric_value() > h.spec_numeric_value()
        }
    }
}

/// The holder of the trick after the first `k` rolls have been compared in order.
pub open spec fn winner_of_prefix(rolls: Seq<RolledDie>, k: int) -> int
    decreases k,
{
    if k <= 1 {
        0
    } else {
        let w = winner_of_prefix(rolls, k - 1);
        if spec_beats(rolls[k - 1], rolls[w]) {
            k - 1
        } else {
            w
        }
    }
}

/// The index of the roll that wins the trick.
pub open spec fn spec_trick_winner(rolls: Seq<RolledDie>) -> int {
    winner_of_prefix(rolls, rolls.len() as int)
}

/// The holder after `k` rolls is one of those `k` rolls.
pub proof fn lemma_winner_of_prefix_in_range(rolls: Seq<RolledDie>, k: int)
    requires
        1 <= k,
    ensures
        0 <= winner_of_prefix(rolls, k) < k,
    decreases k,
{
    if k > 1 {
        lemma_winner_of_prefix_in_range(rolls, k - 1);
    }
}

/// Returns true if `challenger` beats `current` holder.
fn beats_current(challenger: &RolledDie, current: &RolledDie) -> (r: bool)
    ensures
        r == spec_beats(*challenger, *current),
{
    match (challenger.face, current.face) {
        // If everyone rolled Flag, the later roller wins the tie.
        (Face::Flag, Face::Flag) => challenger.roll_order > current.roll_order,
        // A flag loses to any non-flag face.
        (Face::Flag, _) => false,
        // Any non-flag face beats a flag.
        (_, Face::Flag) => true,
        // Both specials: check cycle, tie → later roller wins.
        (c, h) if c.is_special() && h.is_special() => {
            if c == h {
                challenger.roll_order > current.roll_order
            } else {
                special_beats(c, h)
            }
        },
        // Special beats number.
        (c, _) if c.is_special() => true,
        // Number loses to special.
        (_, h) if h.is_special() => false,
        // Both numbers: higher wins; tie → later roller.
        (Face::Number(cn), Face::Number(hn)) => {
            if cn == hn {
                challenger.roll_order > current.roll_order
            } else {
                cn > hn
            }
        },
        _ => false,
    }
}

/// Given all dice rolled in a trick (in roll order), returns the index of the winner.
///
/// Rules:
/// 1. Special characters beat all numbers.
/// 2. Among specials: Minotaur > Griffin, Griffin > Mermaid, Mermaid > Minotaur.
///    If two identical specials clash, the later roller wins.
/// 3. Flags (0) lose to any non-flag face. If every roll is a flag, the later roller wins.
/// 4. Among numbers only: highest wins; ties go to the later roller.
pub fn trick_winner(rolls: &[RolledDie]) -> (r: usize)
    requires
        rolls.len() >= 1,
    ensures
        r == spec_trick_winner(rolls@),
        r < rolls.len(),
{
    let mut best_idx: usize = 0;
    let mut i: usize = 1;
    while i < rolls.len()
        invariant
            1 <= i <= rolls.len(),
            best_idx == winner_of_prefix(rolls@, i as int),
            best_idx < i,
        decreases rolls.len() - i,
    {
        if beats_current(&rolls[i], &rolls[best_idx]) {
            best_idx = i;
        }
        i = i + 1;
    }
    best_idx
}

// ── Counting winning face outcomes ───────────────────────────────────────────

/// Six to the power `k`: the number of face outcomes of `k` dice.
pub open spec fn pow6(k: nat) -> nat
    decreases k,
{
    if k == 0 {
        1
    } else {
        6 * pow6((k - 1) as nat)
    }
}

/// The roll of the player in seat `seat` when their die shows its face number `face_idx`.
pub open spec fn seat_roll(hand: Seq<DieType>, seat: int, face_idx: int) -> RolledDie {
    RolledDie { die_type: hand[seat], face: hand[seat].face_seq()[face_idx], roll_order: seat as usize }
}

/// Among all ways for the remaining seats to roll (each of a die's six faces
/// counted once), how many complete `rolls` into a trick won by `target`.
pub open spec fn wins_from(hand: Seq<DieType>, rolls: Seq<RolledDie>, target: int) -> nat
    decreases hand.len() - rolls.len(),
{
    if rolls.len() >= hand.len() {
        if spec_trick_winner(rolls) == target {
            1
        } else {
            0
        }
    } else {
        let s = rolls.len() as int;
        wins_from(hand, rolls.push(seat_roll(hand, s, 0)), target) + wins_from(
            hand,
            rolls.push(seat_roll(hand, s, 1)),
            target,
        ) + wins_from(hand, rolls.push(seat_roll(hand, s, 2)), target) + wins_from(
            hand,
            rolls.push(seat_roll(hand, s, 3)),
            target,
        ) + wins_from(hand, rolls.push(seat_roll(hand, s, 4)), target) + wins_from(
            hand,
            rolls.push(seat_roll(hand, s, 5)),
            target,
        )
    }
}

/// Number of the `6^n` equally likely face outcomes of the dice `hand`
/// (rolled in seat order) in which seat `target` wins the trick.
pub open spec fn win_count_spec(hand: Seq<DieType>, target: int) -> nat {
    wins_from(hand, Seq::empty(), target)
}

/// The sum of `wins_from` over the first `k` face choices of the next seat.
spec fn branch_partial(hand: Seq<DieType>, rolls: Seq<RolledDie>, target: int, k: int) -> nat
    decreases k,
{
    if k <= 0 {
        0
    } else {
        branch_partial(hand, rolls, target, k - 1) + wins_from(
            hand,
            rolls.push(seat_roll(hand, rolls.len() as int, k - 1)),
            target,
        )
    }
}

proof fn lemma_branch_partial_full(hand: Seq<DieType>, rolls: Seq<RolledDie>, target: int)
    requires
        rolls.len() < hand.len(),
    ensures
        branch_partial(hand, rolls, target, 6) == wins_from(hand, rolls, target),
{
    reveal_with_fuel(branch_partial, 7);
}

proof fn lemma_wins_from_bound(hand: Seq<DieType>, rolls: Seq<RolledDie>, target: int)
    requires
        rolls.len() <= hand.len(),
    ensures
        wins_from(hand, rolls, target) <= pow6((hand.len() - rolls.len()) as nat),
    decreases hand.len() - rolls.len(),
{
    if rolls.len() < hand.len() {
        let s = rolls.len() as int;
        lemma_wins_from_bound(hand, rolls.push(seat_roll(hand, s, 0)), target);
        lemma_wins_from_bound(hand, rolls.push(seat_roll(hand, s, 1)), target);
        lemma_wins_from_bound(hand, rolls.push(seat_roll(hand, s, 2)), target);
        lemma_wins_from_bound(hand, rolls.push(seat_roll(hand, s, 3)), target);
        lemma_wins_from_bound(hand, rolls.push(seat_roll(hand, s, 4)), target);
        lemma_wins_from_bound(hand, rolls.push(seat_roll(hand, s, 5)), target);
    }
}

pub proof fn lemma_pow6_monotone(a: nat, b: nat)
    requires
        a <= b,
    ensures
        1 <= pow6(a) <= pow6(b),
    decreases b,
{
    if b > 0 {
        if a < b {
            lemma_pow6_monotone(a, (b - 1) as nat);
        } else {
            lemma_pow6_monotone((a - 1) as nat, (b - 1) as nat);
        }
    }
}

/// No seat wins more than all `6^n` face outcomes.
pub proof fn lemma_win_count_bound(hand: Seq<DieType>, target: int)
    ensures
        win_count_spec(hand, target) <= pow6(hand.len()),
{
    lemma_wins_from_bound(hand, Seq::empty(), target);
}

/// No more than twenty dice are ever enumerated; their outcomes fit in a `u64`.
pub proof fn lemma_pow6_fits_u64(k: nat)
    requires
        k <= 20,
    ensures
        pow6(k) <= pow6(20),
        pow6(20) == 3656158440062976,
{
    reveal_with_fuel(pow6, 21);
    lemma_pow6_monotone(k, 20);
}

/// Adds, for every seat, the number of completions of `rolls` that this seat wins.
fn tally_outcomes(hand: &[DieType], rolls: &mut Vec<RolledDie>, counts: &mut Vec<u64>)
    requires
        old(rolls).len() <= hand.len() <= 20,
        old(counts).len() == hand.len(),
        forall|i: int|
            0 <= i < old(rolls).len() ==> (#[trigger] old(rolls)@[i]).roll_order == i,
        forall|t: int|
            0 <= t < hand.len() ==> old(counts)[t] + pow6((hand.len() - old(rolls).len()) as nat)
                <= u64::MAX,
    ensures
        final(rolls)@ == old(rolls)@,
        final(counts).len() == hand.len(),
        forall|t: int|
            0 <= t < hand.len() ==> final(counts)[t] == old(counts)[t] + wins_from(
                hand@,
                old(rolls)@,
                t,
            ),
    decreases hand.len() - old(rolls).len(),
{
    let len = rolls.len();
    if len == hand.len() {
        if len >= 1 {
            let w = trick_winner(rolls.as_slice());
            counts[w] = counts[w] + 1;
        }
        return ;
    }
    let ghost r0 = rolls@;
    let ghost c0 = counts@;
    assert(r0 == old(rolls)@);
    let ghost d = (hand.len() - len) as nat;
    let ghost p = pow6((d - 1) as nat);
    assert(pow6(d) == 6 * p);
    let die = hand[len];
    let faces = die.faces();
    let mut j: usize = 0;
    while j < 6
        invariant
            0 <= j <= 6,
            len == r0.len() < hand.len() <= 20,
            r0 == old(rolls)@,
            c0.len() == hand.len(),
            die == hand@[len as int],
            faces@ == die.face_seq(),
            rolls@ == r0,
            counts.len() == hand.len(),
            forall|i: int| 0 <= i < r0.len() ==> (#[trigger] r0[i]).roll_order == i,
            d == hand.len() - len,
            pow6(d) == 6 * p,
            forall|t: int| 0 <= t < hand.len() ==> c0[t] + pow6(d) <= u64::MAX,
            forall|t: int|
                0 <= t < hand.len() ==> counts[t] == c0[t] + branch_partial(hand@, r0, t, j as int),
            forall|t: int| 0 <= t < hand.len() ==> branch_partial(hand@, r0, t, j as int) <= j * p,
        decreases 6 - j,
    {
        let ghost before = counts@;
        rolls.push(RolledDie::new(die, faces[j], len));
        proof {
            assert(rolls@ == r0.push(seat_roll(hand@, len as int, j as int)));
            assert forall|t: int| 0 <= t < hand.len() implies before[t] + pow6(
                (hand.len() - rolls.len()) as nat,
            ) <= u64::MAX by {
                assert(j * p + p <= 6 * p) by (nonlinear_arith)
                    requires
                        j < 6,
                ;
            }
        }
        assert(rolls.len() == len + 1);
        tally_outcomes(hand, rolls, counts);
        rolls.pop();
        proof {
            assert(rolls@ =~= r0);
            let nj = (j + 1) as int;
            assert forall|t: int| 0 <= t < hand.len() implies #[trigger] branch_partial(
                hand@,
                r0,
                t,
                nj,
            ) <= nj * p by {
                lemma_wins_from_bound(hand@, r0.push(seat_roll(hand@, len as int, j as int)), t);
                assert(branch_partial(hand@, r0, t, nj) == branch_partial(hand@, r0, t, j as int)
                    + wins_from(hand@, r0.push(seat_roll(hand@, len as int, j as int)), t));
                assert((j + 1) * p == j * p + p) by (nonlinear_arith);
            }
        }
        j = j + 1;
    }
    proof {
        assert forall|t: int| 0 <= t < hand.len() implies counts[t] == c0[t] + wins_from(
            hand@,
            r0,
            t,
        ) by {
            lemma_branch_partial_full(hand@, r0, t);
        }
    }
}

/// For every seat, the number of the `6^n` equally likely face outcomes of
/// `hand` (seat `i` rolling `hand[i]`, seat 0 leading) in which that seat wins
/// the trick. Dividing by `6^n` gives each seat's single-trick win probability.
pub fn winning_outcome_counts(hand: &[DieType]) -> (r: Vec<u64>)
    requires
        hand.len() <= 20,
    ensures
        r.len() == hand.len(),
        forall|t: int| 0 <= t < hand.len() ==> r[t] == win_count_spec(hand@, t),
{
    let mut counts: Vec<u64> = vec![0u64; hand.len()];
    let mut rolls: Vec<RolledDie> = Vec::new();
    proof {
        lemma_pow6_fits_u64(hand.len() as nat);
    }
    tally_outcomes(hand, &mut rolls, &mut counts);
    counts
}

/// The winning outcome counts of seats `0..m` added together.
pub open spec fn seats_total(hand: Seq<DieType>, rolls: Seq<RolledDie>, m: int) -> nat
    decreases m,
{
    if m <= 0 {
        0
    } else {
        seats_total(hand, rolls, m - 1) + wins_from(hand, rolls, m - 1)
    }
}

proof fn lemma_seats_total_leaf(hand: Seq<DieType>, rolls: Seq<RolledDie>, m: int)
    requires
        rolls.len() >= hand.len(),
        m >= 0,
    ensures
        seats_total(hand, rolls, m) == if 0 <= spec_trick_winner(rolls) < m {
            1nat
        } else {
            0nat
        },
    decreases m,
{
    if m > 0 {
        lemma_seats_total_leaf(hand, rolls, m - 1);
    }
}

proof fn lemma_seats_total_split(hand: Seq<DieType>, rolls: Seq<RolledDie>, m: int)
    requires
        rolls.len() < hand.len(),
        m >= 0,
    ensures
        ({
            let s = rolls.len() as int;
            seats_total(hand, rolls, m) == seats_total(hand, rolls.push(seat_roll(hand, s, 0)), m)
                + seats_total(hand, rolls.push(seat_roll(hand, s, 1)), m) + seats_total(
                hand,
                rolls.push(seat_roll(hand, s, 2)),
                m,
            ) + seats_total(hand, rolls.push(seat_roll(hand, s, 3)), m) + seats_total(
                hand,
                rolls.push(seat_roll(hand, s, 4)),
                m,
            ) + seats_total(hand, rolls.push(seat_roll(hand, s, 5)), m)
        }),
    decreases m,
{
    if m > 0 {
        lemma_seats_total_split(hand, rolls, m - 1);
    }
}

proof fn lemma_seats_total_all(hand: Seq<DieType>, rolls: Seq<RolledDie>)
    requires
        1 <= hand.len(),
        rolls.len() <= hand.len(),
    ensures
        seats_total(hand, rolls, hand.len() as int) == pow6((hand.len() - rolls.len()) as nat),
    decreases hand.len() - rolls.len(),
{
    let n = hand.len() as int;
    if rolls.len() == hand.len() {
        lemma_seats_total_leaf(hand, rolls, n);
        lemma_winner_of_prefix_in_range(rolls, n);
    } else {
        let s = rolls.len() as int;
        lemma_seats_total_split(hand, rolls, n);
        lemma_seats_total_all(hand, rolls.push(seat_roll(hand, s, 0)));
        lemma_seats_total_all(hand, rolls.push(seat_roll(hand, s, 1)));
        lemma_seats_total_all(hand, rolls.push(seat_roll(hand, s, 2)));
        lemma_seats_total_all(hand, rolls.push(seat_roll(hand, s, 3)));
        lemma_seats_total_all(hand, rolls.push(seat_roll(hand, s, 4)));
        lemma_seats_total_all(hand, rolls.push(seat_roll(hand, s, 5)));
    }
}

/// Every one of the `6^n` equally likely face outcomes has exactly one winner,
/// so the winning outcome counts of all seats add up to `6^n`: the single-trick
/// win probabilities of all seats sum to one.
pub proof fn lemma_win_counts_cover_all_outcomes(hand: Seq<DieType>)
    requires
        hand.len() >= 1,
    ensures
        seats_total(hand, Seq::empty(), hand.len() as int) == pow6(hand.len()),
{
    lemma_seats_total_all(hand, Seq::empty());
}

// ── Encoding die sequences ────────────────────────────────────────────────────

/// The base-7 number whose digits (most significant first) are the positions
/// of the dice in `DieType::ALL`.
pub open spec fn sequence_code(dice: Seq<DieType>) -> int
    decreases dice.len(),
{
    if dice.len() == 0 {
        0
    } else {
        sequence_code(dice.drop_last()) * 7 + die_index(dice.last())
    }
}

/// The position of a die type in `DieType::ALL`.
pub fn die_to_index(die: DieType) -> (r: Option<usize>)
    ensures
        r == Some(die_index(die) as usize),
{
    match die {
        DieType::Minotaur => Some(0),
        DieType::Griffin => Some(1),
        DieType::Mermaid => Some(2),
        DieType::Red => Some(3),
        DieType::Yellow => Some(4),
        DieType::Purple => Some(5),
        DieType::Gray => Some(6),
    }
}

proof fn lemma_sequence_code_prefix(dice: Seq<DieType>, k: int)
    requires
        0 <= k <= dice.len(),
    ensures
        0 <= sequence_code(dice.subrange(0, k)) <= sequence_code(dice),
    decreases dice.len() - k,
{
    if k < dice.len() {
        lemma_sequence_code_prefix(dice, k + 1);
        assert(dice.subrange(0, k + 1).drop_last() =~= dice.subrange(0, k));
    } else {
        assert(dice.subrange(0, k) =~= dice);
    }
    lemma_sequence_code_nonneg(dice.subrange(0, k));
}

proof fn lemma_sequence_code_nonneg(dice: Seq<DieType>)
    ensures
        0 <= sequence_code(dice),
    decreases dice.len(),
{
    if dice.len() > 0 {
        lemma_sequence_code_nonneg(dice.drop_last());
    }
}

/// The index of a die sequence among all sequences of its length, in base 7.
pub fn encode_die_sequence(all_dice: &[DieType]) -> (r: Option<usize>)
    requires
        sequence_code(all_dice@) <= usize::MAX,
    ensures
        r == Some(sequence_code(all_dice@) as usize),
{
    let mut acc: usize = 0;
    let mut i: usize = 0;
    while i < all_dice.len()
        invariant
            0 <= i <= all_dice.len(),
            sequence_code(all_dice@) <= usize::MAX,
            acc == sequence_code(all_dice@.subrange(0, i as int)),
        decreases all_dice.len() - i,
    {
        let idx = match die_to_index(all_dice[i]) {
            Some(idx) => idx,
            None => {
                return None;
            },
        };
        proof {
            assert(all_dice@.subrange(0, i + 1).drop_last() =~= all_dice@.subrange(0, i as int));
            lemma_sequence_code_prefix(all_dice@, i + 1);
        }
        acc = acc * 7 + idx;
        i = i + 1;
    }
    assert(all_dice@.subrange(0, all_dice.len() as int) =~= all_dice@);
    Some(acc)
}

/// Sort key of a face: Flag first, then numbers ascending, then Mermaid,
/// Griffin, Minotaur.
pub fn face_sort_key(f: Face) -> (r: u16)
    ensures
        r == crate::dice::face_key(f),
{
    match f {
        Face::Flag => 0,
        Face::Number(n) => n as u16,
        Face::Mermaid => 100,
        Face::Griffin => 101,
        Face::Minotaur => 102,
    }
}

// ── Laws of trick resolution ─────────────────────────────────────────────────

proof fn lemma_flag_holder_prefix(rolls: Seq<RolledDie>, k: int)
    requires
        1 <= k <= rolls.len(),
        rolls[winner_of_prefix(rolls, k)].face is Flag,
    ensures
        forall|i: int| 0 <= i < k ==> (#[trigger] rolls[i]).face is Flag,
    decreases k,
{
    if k > 1 {
        let w = winner_of_prefix(rolls, k - 1);
        lemma_winner_of_prefix_in_range(rolls, k - 1);
        if spec_beats(rolls[k - 1], rolls[w]) {
            // the new holder shows a flag, so it can only have beaten a flag
            lemma_flag_holder_prefix(rolls, k - 1);
        } else {
            // the holder shows a flag and was not beaten, so the newcomer is a flag too
            lemma_flag_holder_prefix(rolls, k - 1);
        }
    }
}

/// Flags lose to any non-flag face: the winning roll shows a flag only when
/// every roll of the trick shows a flag.
pub proof fn lemma_flag_wins_only_when_all_flags(rolls: Seq<RolledDie>)
    requires
        rolls.len() >= 1,
        rolls[spec_trick_winner(rolls)].face is Flag,
    ensures
        forall|i: int| 0 <= i < rolls.len() ==> (#[trigger] rolls[i]).face is Flag,
{
    lemma_flag_holder_prefix(rolls, rolls.len() as int);
}

proof fn lemma_all_flags_prefix(rolls: Seq<RolledDie>, k: int)
    requires
        1 <= k <= rolls.len(),
        forall|i: int| 0 <= i < rolls.len() ==> (#[trigger] rolls[i]).face is Flag,
        forall|i: int, j: int|
            0 <= i < j < rolls.len() ==> rolls[i].roll_order < rolls[j].roll_order,
    ensures
        winner_of_prefix(rolls, k) == k - 1,
    decreases k,
{
    if k > 1 {
        lemma_all_flags_prefix(rolls, k - 1);
    }
}

/// If every roll is a flag, the later roller wins: with roll orders increasing
/// along the trick, the last roll takes it.
pub proof fn lemma_all_flags_last_roller_wins(rolls: Seq<RolledDie>)
    requires
        rolls.len() >= 1,
        forall|i: int| 0 <= i < rolls.len() ==> (#[trigger] rolls[i]).face is Flag,
        forall|i: int, j: int|
            0 <= i < j < rolls.len() ==> rolls[i].roll_order < rolls[j].roll_order,
    ensures
        spec_trick_winner(rolls) == rolls.len() - 1,
{
    lemma_all_flags_prefix(rolls, rolls.len() as int);
}

proof fn lemma_special_holder_prefix(rolls: Seq<RolledDie>, k: int, s: int)
    requires
        1 <= k <= rolls.len(),
        0 <= s < k,
        rolls[s].face.spec_is_special(),
    ensures
        rolls[winner_of_prefix(rolls, k)].face.spec_is_special(),
    decreases k,
{
    if k > 1 {
        lemma_winner_of_prefix_in_range(rolls, k - 1);
        if s < k - 1 {
            lemma_special_holder_prefix(rolls, k - 1, s);
        }
    }
}

/// Special characters beat all numbers and flags: as soon as one special
/// character is rolled, the trick is won by a special character.
pub proof fn lemma_special_rolled_special_wins(rolls: Seq<RolledDie>, s: int)
    requires
        0 <= s < rolls.len(),
        rolls[s].face.spec_is_special(),
    ensures
        rolls[spec_trick_winner(rolls)].face.spec_is_special(),
{
    lemma_special_holder_prefix(rolls, rolls.len() as int, s);
}

proof fn lemma_number_holder_prefix(rolls: Seq<RolledDie>, k: int)
    requires
        1 <= k <= rolls.len(),
        forall|i: int| 0 <= i < rolls.len() ==> !(#[trigger] rolls[i]).face.spec_is_special(),
    ensures
        ({
            let w = rolls[winner_of_prefix(rolls, k)];
            &&& (exists|j: int| 0 <= j < k && (#[trigger] rolls[j]).face is Number) ==> w.face is Number
            &&& forall|j: int|
                0 <= j < k && (#[trigger] rolls[j]).face is Number ==> rolls[j].face.spec_numeric_value()
                    <= w.face.spec_numeric_value()
        }),
    decreases k,
{
    if k > 1 {
        lemma_winner_of_prefix_in_range(rolls, k - 1);
        lemma_number_holder_prefix(rolls, k - 1);
        let w = winner_of_prefix(rolls, k - 1);
        let w2 = winner_of_prefix(rolls, k);
        assert(!rolls[w].face.spec_is_special());
        assert(!rolls[k - 1].face.spec_is_special());
        if exists|j: int| 0 <= j < k && (#[trigger] rolls[j]).face is Number {
            let j = choose|j: int| 0 <= j < k && (#[trigger] rolls[j]).face is Number;
            if j < k - 1 {
                assert(rolls[w].face is Number);
            }
        }
    }
}

/// Among numbers only (no special characters rolled), the highest number wins
/// whenever at least one number was rolled.
pub proof fn lemma_highest_number_wins(rolls: Seq<RolledDie>, j: int)
    requires
        0 <= j < rolls.len(),
        rolls[j].face is Number,
        forall|i: int| 0 <= i < rolls.len() ==> !(#[trigger] rolls[i]).face.spec_is_special(),
    ensures
        rolls[spec_trick_winner(rolls)].face is Number,
        forall|i: int|
            0 <= i < rolls.len() && (#[trigger] rolls[i]).face is Number
                ==> rolls[i].face.spec_numeric_value()
                <= rolls[spec_trick_winner(rolls)].face.spec_numeric_value(),
{
    lemma_number_holder_prefix(rolls, rolls.len() as int);
}


/// Roll orders grow along the trick.
pub open spec fn orders_increasing(rolls: Seq<RolledDie>) -> bool {
    forall|i: int, j: int| 0 <= i < j < rolls.len() ==> rolls[i].roll_order < rolls[j].roll_order
}

proof fn lemma_number_tie_prefix(rolls: Seq<RolledDie>, k: int)
    requires
        1 <= k <= rolls.len(),
        orders_increasing(rolls),
        forall|i: int| 0 <= i < rolls.len() ==> !(#[trigger] rolls[i]).face.spec_is_special(),
    ensures
        ({
            let w = winner_of_prefix(rolls, k);
            (exists|j: int| 0 <= j < k && (#[trigger] rolls[j]).face is Number) ==> {
                &&& rolls[w].face is Number
                &&& forall|i: int|
                    w < i < k && (#[trigger] rolls[i]).face is Number ==> rolls[i].face.spec_numeric_value()
                        < rolls[w].face.spec_numeric_value()
            }
        }),
    decreases k,
{
    if k > 1 {
        lemma_winner_of_prefix_in_range(rolls, k - 1);
        lemma_number_tie_prefix(rolls, k - 1);
        lemma_number_holder_prefix(rolls, k - 1);
        let w = winner_of_prefix(rolls, k - 1);
        assert(!rolls[w].face.spec_is_special());
        assert(!rolls[k - 1].face.spec_is_special());
        if exists|j: int| 0 <= j < k && (#[trigger] rolls[j]).face is Number {
            let j = choose|j: int| 0 <= j < k && (#[trigger] rolls[j]).face is Number;
            if j < k - 1 {
                assert(rolls[w].face is Number);
                assert(rolls[w].roll_order < rolls[k - 1].roll_order);
            }
        }
    }
}

/// Among number dice only, ties go to the later roller: no number rolled
/// after the winning roll is as high as it.
pub proof fn lemma_number_ties_go_to_later_roller(rolls: Seq<RolledDie>, j: int)
    requires
        0 <= j < rolls.len(),
        rolls[j].face is Number,
        orders_increasing(rolls),
        forall|i: int| 0 <= i < rolls.len() ==> !(#[trigger] rolls[i]).face.spec_is_special(),
    ensures
        rolls[spec_trick_winner(rolls)].face is Number,
        forall|i: int|
            spec_trick_winner(rolls) < i < rolls.len() && (#[trigger] rolls[i]).face is Number
                ==> rolls[i].face.spec_numeric_value() < rolls[spec_trick_winner(
                rolls,
            )].face.spec_numeric_value(),
{
    lemma_number_tie_prefix(rolls, rolls.len() as int);
}

proof fn lemma_special_cycle_prefix(rolls: Seq<RolledDie>, k: int, f: Face)
    requires
        1 <= k <= rolls.len(),
        orders_increasing(rolls),
        f.spec_is_special(),
        forall|i: int|
            0 <= i < rolls.len() && (#[trigger] rolls[i]).face.spec_is_special() ==> rolls[i].face == f
                || spec_special_beats(f, rolls[i].face),
    ensures
        ({
            let w = winner_of_prefix(rolls, k);
            (exists|j: int| 0 <= j < k && (#[trigger] rolls[j]).face == f) ==> {
                &&& rolls[w].face == f
                &&& forall|i: int| w < i < k ==> (#[trigger] rolls[i]).face != f
            }
        }),
    decreases k,
{
    if k > 1 {
        lemma_winner_of_prefix_in_range(rolls, k - 1);
        lemma_special_cycle_prefix(rolls, k - 1, f);
        let w = winner_of_prefix(rolls, k - 1);
        if exists|j: int| 0 <= j < k - 1 && (#[trigger] rolls[j]).face == f {
            assert(rolls[w].face == f);
            assert(rolls[w].roll_order < rolls[k - 1].roll_order);
        } else if exists|j: int| 0 <= j < k - 1 && (#[trigger] rolls[j]).face.spec_is_special() {
            let j = choose|j: int| 0 <= j < k - 1 && (#[trigger] rolls[j]).face.spec_is_special();
            lemma_special_holder_prefix(rolls, k - 1, j);
        }
    }
}

/// The special-character cycle (Minotaur beats Griffin, Griffin beats
/// Mermaid, Mermaid beats Minotaur): when every special face rolled is `f` or
/// one that `f` beats, and `f` is rolled, the trick goes to the last roll
/// showing `f`.
pub proof fn lemma_special_cycle_winner(rolls: Seq<RolledDie>, j: int, f: Face)
    requires
        0 <= j < rolls.len(),
        rolls[j].face == f,
        f.spec_is_special(),
        orders_increasing(rolls),
        forall|i: int|
            0 <= i < rolls.len() && (#[trigger] rolls[i]).face.spec_is_special() ==> rolls[i].face == f
                || spec_special_beats(f, rolls[i].face),
    ensures
        rolls[spec_trick_winner(rolls)].face == f,
        forall|i: int| spec_trick_winner(rolls) < i < rolls.len() ==> (#[trigger] rolls[i]).face != f,
{
    lemma_special_cycle_prefix(rolls, rolls.len() as int, f);
}


/// The special-character cycle, whatever the roll order: of two different
/// special faces exactly one beats the other, a Minotaur beating a Griffin, a
/// Griffin a Mermaid and a Mermaid a Minotaur; so a trick of just those two
/// rolls is won by that one, rolled first or second.
pub proof fn lemma_special_pair_winner(a: RolledDie, b: RolledDie)
    requires
        a.face.spec_is_special(),
        b.face.spec_is_special(),
        a.face != b.face,
        a.roll_order < b.roll_order,
    ensures
        spec_special_beats(a.face, b.face) != spec_special_beats(b.face, a.face),
        (a.face == Face::Minotaur && b.face == Face::Griffin) || (a.face == Face::Griffin
            && b.face == Face::Mermaid) || (a.face == Face::Mermaid && b.face == Face::Minotaur)
            ==> spec_trick_winner(seq![a, b]) == 0,
        (b.face == Face::Minotaur && a.face == Face::Griffin) || (b.face == Face::Griffin
            && a.face == Face::Mermaid) || (b.face == Face::Mermaid && a.face == Face::Minotaur)
            ==> spec_trick_winner(seq![a, b]) == 1,
{
    let s = seq![a, b];
    assert(s[0] == a && s[1] == b);
    assert(winner_of_prefix(s, 1) == 0);
}

} // verus!
