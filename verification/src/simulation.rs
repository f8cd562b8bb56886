//! A quick Monte Carlo simulator of one round, working on die names and the
//! simplified face values of the game server (Minotaur 99, Griffin 98,
//! Mermaid 97, Flag 0, numbers 1–7).

use rand::Rng;
use std::collections::HashMap;
use vstd::prelude::*;

use crate::dice::{DieType, Face};
use crate::round::occurrences;
use crate::trick::{spec_trick_winner, trick_winner, RolledDie};

verus! {

broadcast use vstd::std_specs::hash::group_hash_axioms;

#[verifier::external_type_specification]
#[verifier::external_body]
pub struct ExThreadRng(rand::rngs::ThreadRng);

/// Calls `rand::rng()`, a handle to rand's lazily seeded thread-local
/// generator; nothing is claimed of the values it will produce.
#[verifier::external_body]
fn thread_rng() -> rand::rngs::ThreadRng {
    rand::rng()
}

/// Calls `rand::Rng::random_range(rng, 0..bound)`, which returns a value in
/// `0..bound` (and panics on an empty range, hence `bound > 0`); which value
/// comes back is left open.
#[verifier::external_body]
fn random_below(rng: &mut rand::rngs::ThreadRng, bound: usize) -> (r: usize)
    requires
        bound > 0,
    ensures
        r < bound,
{
    rng.random_range(0..bound)
}

// ── Die names ─────────────────────────────────────────────────────────────────

/// The name of die kind `k` (0 ≤ k < 7).
pub open spec fn die_name(k: int) -> Seq<char> {
    if k == 0 {
        "Minotaur"@
    } else if k == 1 {
        "Griffin"@
    } else if k == 2 {
        "Mermaid"@
    } else if k == 3 {
        "Red"@
    } else if k == 4 {
        "Yellow"@
    } else if k == 5 {
        "Purple"@
    } else {
        "Gray"@
    }
}

/// How many dice of kind `k` a full bag holds.
pub open spec fn full_bag_count(k: int) -> usize {
    if k == 0 {
        1
    } else if k == 1 {
        3
    } else if k == 2 {
        2
    } else if k == 3 {
        7
    } else if k == 4 {
        7
    } else {
        8
    }
}

/// The kind of the die called `name`, or 7 for a name that is none of them.
pub open spec fn name_index(name: Seq<char>) -> int {
    if name == die_name(0) {
        0
    } else if name == die_name(1) {
        1
    } else if name == die_name(2) {
        2
    } else if name == die_name(3) {
        3
    } else if name == die_name(4) {
        4
    } else if name == die_name(5) {
        5
    } else if name == die_name(6) {
        6
    } else {
        7
    }
}

/// The seven die names are distinct.
proof fn lemma_die_names()
    ensures
        forall|k: int| 0 <= k < 7 ==> name_index(#[trigger] die_name(k)) == k,
{
    reveal_strlit("Minotaur");
    reveal_strlit("Griffin");
    reveal_strlit("Mermaid");
    reveal_strlit("Red");
    reveal_strlit("Yellow");
    reveal_strlit("Purple");
    reveal_strlit("Gray");
    assert(die_name(0).len() == 8);
    assert(die_name(1).len() == 7);
    assert(die_name(2).len() == 7);
    assert(die_name(3).len() == 3);
    assert(die_name(4).len() == 6);
    assert(die_name(5).len() == 6);
    assert(die_name(6).len() == 4);
    assert(die_name(1)[0] != die_name(2)[0]);
    assert(die_name(4)[0] != die_name(5)[0]);
    assert(name_index(die_name(0)) == 0);
    assert(name_index(die_name(1)) == 1);
    assert(name_index(die_name(2)) == 2);
    assert(name_index(die_name(3)) == 3);
    assert(name_index(die_name(4)) == 4);
    assert(name_index(die_name(5)) == 5);
    assert(name_index(die_name(6)) == 6);
}

/// The name of die kind `k`.
fn die_name_str(k: usize) -> (r: &'static str)
    requires
        k < 7,
    ensures
        r@ == die_name(k as int),
{
    match k {
        0 => "Minotaur",
        1 => "Griffin",
        2 => "Mermaid",
        3 => "Red",
        4 => "Yellow",
        5 => "Purple",
        _ => "Gray",
    }
}

/// Whether two texts are equal.
pub(crate) fn same_text(a: &str, b: &str) -> (r: bool)
    ensures
        r == (a@ == b@),
{
    a.to_owned() == b.to_owned()
}

/// The kind of the die called `name` (7 when it is not a die name).
fn name_index_of(name: &str) -> (r: usize)
    ensures
        r == name_index(name@),
{
    let mut k: usize = 0;
    while k < 7
        invariant
            0 <= k <= 7,
            forall|j: int| 0 <= j < k ==> name@ != die_name(j),
        decreases 7 - k,
    {
        if same_text(name, die_name_str(k)) {
            return k;
        }
        k = k + 1;
    }
    7
}

// ── The bag ───────────────────────────────────────────────────────────────────

/// Dice left in the bag, counted per die name.
pub struct DiceBag {
    counts: Vec<usize>,
}

impl DiceBag {
    #[verifier::type_invariant]
    spec fn seven_kinds(self) -> bool {
        &&& self.counts.len() == 7
        &&& forall|k: int| 0 <= k < 7 ==> #[trigger] self.counts@[k] <= full_bag_count(k)
    }

    /// The count of each die kind, in the order Minotaur, Griffin, Mermaid,
    /// Red, Yellow, Purple, Gray.
    pub closed spec fn kind_counts(self) -> Seq<usize> {
        self.counts@
    }

    /// Number of dice called `name` left in the bag (0 for an unknown name).
    pub fn count(&self, name: &str) -> (r: usize)
        ensures
            self.kind_counts().len() == 7,
            r == if name_index(name@) < 7 {
                self.kind_counts()[name_index(name@)] as int
            } else {
                0
            },
    {
        proof {
            use_type_invariant(self);
        }
        let k = name_index_of(name);
        if k < 7 {
            self.counts[k]
        } else {
            0
        }
    }

    /// Number of dice left in the bag.
    pub fn total(&self) -> (r: usize)
        ensures
            self.kind_counts().len() == 7,
            r == counts_total(self.kind_counts(), 7),
    {
        proof {
            use_type_invariant(self);
        }
        let mut total: usize = 0;
        let mut k: usize = 0;
        while k < 7
            invariant
                0 <= k <= 7,
                self.counts.len() == 7,
                total == counts_total(self.counts@, k as int),
                total <= 8 * k,
                forall|j: int| 0 <= j < 7 ==> #[trigger] self.counts@[j] <= full_bag_count(j),
            decreases 7 - k,
        {
            total = total + self.counts[k];
            k = k + 1;
        }
        total
    }
}

/// The sum of the first `k` counts.
pub open spec fn counts_total(counts: Seq<usize>, k: int) -> int
    decreases k,
{
    if k <= 0 {
        0
    } else {
        counts_total(counts, k - 1) + counts[k - 1]
    }
}

fn full_bag_counts() -> (r: Vec<usize>)
    ensures
        r.len() == 7,
        forall|k: int| 0 <= k < 7 ==> #[trigger] r[k] == full_bag_count(k),
{
    let mut counts: Vec<usize> = Vec::new();
    counts.push(1);
    counts.push(3);
    counts.push(2);
    counts.push(7);
    counts.push(7);
    counts.push(8);
    counts.push(8);
    counts
}

/// The default bag of dice available in the game.
pub fn default_bag() -> (r: DiceBag)
    ensures
        forall|k: int| 0 <= k < 7 ==> #[trigger] r.kind_counts()[k] == full_bag_count(k),
        r.kind_counts().len() == 7,
{
    DiceBag { counts: full_bag_counts() }
}

/// Dice face values used for rolling, by die kind (7 = unknown names, which
/// roll like a Gray die).
/// Special creature dice use sentinel values:
///   Minotaur = 99, Griffin = 98, Mermaid = 97, Flag = 0
pub open spec fn sides_of(k: int) -> Seq<u8> {
    if k == 0 {
        seq![99, 99, 99, 99, 0, 0]
    } else if k == 1 {
        seq![98, 98, 98, 98, 0, 0]
    } else if k == 2 {
        seq![97, 97, 97, 97, 0, 0]
    } else if k == 3 {
        seq![7, 7, 6, 6, 5, 5]
    } else if k == 4 {
        seq![5, 5, 4, 4, 3, 3]
    } else if k == 5 {
        seq![3, 3, 2, 2, 1, 1]
    } else {
        seq![7, 1, 1, 0, 0, 0]
    }
}

/// Dice face values used for rolling.
/// Special creature dice use sentinel values:
///   Minotaur = 99, Griffin = 98, Mermaid = 97, Flag = 0
/// Any name other than the six others rolls like a Gray die.
pub fn dice_sides(name: &str) -> (r: [u8; 6])
    ensures
        r@ == sides_of(name_index(name@)),
{
    let k = name_index_of(name);
    let r: [u8; 6] = if k == 0 {
        [99, 99, 99, 99, 0, 0]
    } else if k == 1 {
        [98, 98, 98, 98, 0, 0]
    } else if k == 2 {
        [97, 97, 97, 97, 0, 0]
    } else if k == 3 {
        [7, 7, 6, 6, 5, 5]
    } else if k == 4 {
        [5, 5, 4, 4, 3, 3]
    } else if k == 5 {
        [3, 3, 2, 2, 1, 1]
    } else {
        [7, 1, 1, 0, 0, 0]
    };
    assert(r@ =~= sides_of(k as int));
    r
}

/// Rolls the die called `name`: one of its six face values.
fn roll_dice(rng: &mut rand::rngs::ThreadRng, name: &str) -> (r: u8)
    ensures
        exists|k: int| 0 <= k < 6 && r == #[trigger] sides_of(name_index(name@))[k],
{
    let sides = dice_sides(name);
    sides[random_below(rng, 6)]
}

/// The names of a list of dice.
pub open spec fn names_of(dice: Seq<String>) -> Seq<Seq<char>> {
    dice.map_values(|s: String| s@)
}

/// Returns the remaining bag after removing the player's own dice: each own
/// die whose name is a die kind with dice left takes one of that kind out.
pub fn initialize_bag(own_dices: &[String]) -> (r: DiceBag)
    ensures
        r.kind_counts().len() == 7,
        forall|k: int|
            0 <= k < 7 ==> #[trigger] r.kind_counts()[k] == full_bag_count(k) - vstd::math::min(
                full_bag_count(k) as int,
                names_of(own_dices@).to_multiset().count(die_name(k)) as int,
            ),
{
    broadcast use vstd::seq_lib::group_to_multiset_ensures, vstd::multiset::group_multiset_axioms;

    let mut counts = full_bag_counts();
    let mut i: usize = 0;
    proof {
        lemma_die_names();
    }
    while i < own_dices.len()
        invariant
            0 <= i <= own_dices.len(),
            counts.len() == 7,
            forall|k: int| 0 <= k < 7 ==> name_index(#[trigger] die_name(k)) == k,
            forall|k: int|
                0 <= k < 7 ==> #[trigger] counts[k] == full_bag_count(k)
                    - vstd::math::min(
                    full_bag_count(k) as int,
                    names_of(own_dices@.subrange(0, i as int)).to_multiset().count(die_name(k))
                        as int,
                ),
        decreases own_dices.len() - i,
    {
        let name = own_dices[i].as_str();
        let k = name_index_of(name);
        let ghost before = counts@;
        let ghost prefix = names_of(own_dices@.subrange(0, i as int));
        proof {
            assert(names_of(own_dices@.subrange(0, i + 1)) =~= prefix.push(own_dices@[i as int]@));
        }
        if k < 7 && counts[k] > 0 {
            counts[k] = counts[k] - 1;
        }
        proof {
            let next = names_of(own_dices@.subrange(0, i + 1));
            assert forall|j: int| 0 <= j < 7 implies #[trigger] counts[j] == full_bag_count(j)
                - vstd::math::min(
                full_bag_count(j) as int,
                next.to_multiset().count(die_name(j)) as int,
            ) by {
                let c = prefix.to_multiset().count(die_name(j));
                assert(name@ == own_dices@[i as int]@);
                assert(next == prefix.push(name@));
                vstd::seq_lib::to_multiset_build(prefix, name@);
                assert(next.to_multiset().count(die_name(j)) == c + if name@ == die_name(j) {
                    1int
                } else {
                    0int
                });
                if j == k {
                    assert(name@ == die_name(j));
                } else {
                    assert(name@ != die_name(j));
                }
            }
        }
        i = i + 1;
    }
    assert(own_dices@.subrange(0, own_dices.len() as int) =~= own_dices@);
    DiceBag { counts }
}

// ── Dealing hands ─────────────────────────────────────────────────────────────

/// A copy of a list of dice names.
fn copy_names(dice: &[String]) -> (r: Vec<String>)
    ensures
        r@ == dice@,
{
    let mut r: Vec<String> = Vec::new();
    let mut i: usize = 0;
    while i < dice.len()
        invariant
            0 <= i <= dice.len(),
            r@ == dice@.subrange(0, i as int),
        decreases dice.len() - i,
    {
        r.push(dice[i].clone());
        i = i + 1;
        assert(r@ =~= dice@.subrange(0, i as int));
    }
    assert(dice@.subrange(0, dice.len() as int) =~= dice@);
    r
}

/// Draws one die from the bag: uniformly among the die kinds that still have
/// dice left, and takes it out.
fn draw_from_bag(rng: &mut rand::rngs::ThreadRng, bag: &mut DiceBag) -> (r: String)
    requires
        counts_total(old(bag).kind_counts(), 7) >= 1,
    ensures
        final(bag).kind_counts().len() == 7,
        name_index(r@) < 7,
        final(bag).kind_counts() == old(bag).kind_counts().update(
            name_index(r@),
            (old(bag).kind_counts()[name_index(r@)] - 1) as usize,
        ),
        old(bag).kind_counts()[name_index(r@)] >= 1,
        counts_total(final(bag).kind_counts(), 7) == counts_total(old(bag).kind_counts(), 7) - 1,
{
    proof {
        use_type_invariant(&*bag);
        lemma_die_names();
    }
    // The kinds with dice left.
    let mut available: Vec<usize> = Vec::new();
    let mut k: usize = 0;
    while k < 7
        invariant
            0 <= k <= 7,
            bag.counts.len() == 7,
            forall|a: int| 0 <= a < available.len() ==> #[trigger] available[a] < 7 && bag.counts@[
                available[a] as int] >= 1,
            (exists|j: int| 0 <= j < k && #[trigger] bag.counts@[j] >= 1) ==> available.len() >= 1,
        decreases 7 - k,
    {
        if bag.counts[k] > 0 {
            available.push(k);
        }
        k = k + 1;
    }
    proof {
        if forall|j: int| 0 <= j < 7 ==> #[trigger] bag.counts@[j] == 0 {
            lemma_counts_total_zero(bag.counts@, 7);
        }
    }
    let kind = available[random_below(rng, available.len())];
    let ghost before = bag.counts@;
    let mut counts = copy_counts(&bag.counts);
    counts[kind] = counts[kind] - 1;
    proof {
        lemma_counts_total_update(before, 7, kind as int, counts[kind as int]);
    }
    *bag = DiceBag { counts };
    let name = die_name_str(kind).to_owned();
    proof {
        assert(name_index(name@) == kind);
    }
    name
}

fn copy_counts(v: &Vec<usize>) -> (r: Vec<usize>)
    ensures
        r@ == v@,
{
    let mut r: Vec<usize> = Vec::new();
    let mut i: usize = 0;
    while i < v.len()
        invariant
            0 <= i <= v.len(),
            r@ == v@.subrange(0, i as int),
        decreases v.len() - i,
    {
        r.push(v[i]);
        i = i + 1;
        assert(r@ =~= v@.subrange(0, i as int));
    }
    assert(v@.subrange(0, v.len() as int) =~= v@);
    r
}

proof fn lemma_counts_total_zero(counts: Seq<usize>, k: int)
    requires
        0 <= k <= counts.len(),
        forall|j: int| 0 <= j < k ==> #[trigger] counts[j] == 0,
    ensures
        counts_total(counts, k) == 0,
    decreases k,
{
    if k > 0 {
        lemma_counts_total_zero(counts, k - 1);
    }
}

proof fn lemma_counts_total_update(counts: Seq<usize>, k: int, i: int, v: usize)
    requires
        0 <= i < counts.len(),
        0 <= k <= counts.len(),
    ensures
        counts_total(counts.update(i, v), k) == counts_total(counts, k) + if i < k {
            v - counts[i]
        } else {
            0
        },
    decreases k,
{
    if k > 0 {
        lemma_counts_total_update(counts, k - 1, i, v);
    }
}

/// Number of players who draw their hand from the bag.
pub open spec fn drawing_players(number_players: int, order: int) -> int {
    if 0 <= order < number_players {
        number_players - 1
    } else {
        number_players
    }
}

/// Draw dice from the bag for each player.
/// The player at `order` gets `own_dices`; others draw randomly.
fn initialize_players(
    rng: &mut rand::rngs::ThreadRng,
    number_players: usize,
    round_number: usize,
    order: usize,
    own_dices: &[String],
    bag: &mut DiceBag,
) -> (r: Vec<Vec<String>>)
    requires
        round_number * drawing_players(number_players as int, order as int) <= counts_total(
            old(bag).kind_counts(),
            7,
        ),
    ensures
        r.len() == number_players,
        forall|i: int| 0 <= i < number_players && i != order ==> (#[trigger] r[i]).len() == round_number,
        order < number_players ==> r[order as int]@ == own_dices@,
        final(bag).kind_counts().len() == 7,
        counts_total(final(bag).kind_counts(), 7) == counts_total(old(bag).kind_counts(), 7)
            - round_number * drawing_players(number_players as int, order as int),
{
    proof {
        use_type_invariant(&*bag);
    }
    let mut players: Vec<Vec<String>> = Vec::new();
    let mut i: usize = 0;
    proof {
        assert(drawing_players(0, order as int) == 0);
        assert(round_number * 0 == 0);
    }
    while i < number_players
        invariant
            0 <= i <= number_players,
            bag.kind_counts().len() == 7,
            players.len() == i,
            forall|j: int| 0 <= j < i && j != order ==> (#[trigger] players[j]).len() == round_number,
            order < i ==> players[order as int]@ == own_dices@,
            counts_total(bag.kind_counts(), 7) == counts_total(old(bag).kind_counts(), 7)
                - round_number * drawing_players(i as int, order as int),
            round_number * drawing_players(number_players as int, order as int) <= counts_total(
                old(bag).kind_counts(),
                7,
            ),
        decreases number_players - i,
    {
        proof {
            assert(round_number * drawing_players(i + 1, order as int) <= round_number
                * drawing_players(number_players as int, order as int)) by (nonlinear_arith)
                requires
                    drawing_players(i + 1, order as int) <= drawing_players(
                        number_players as int,
                        order as int,
                    ),
            ;
        }
        if i == order {
            players.push(copy_names(own_dices));
        } else {
            let mut hand: Vec<String> = Vec::new();
            let mut j: usize = 0;
            while j < round_number
                invariant
                    0 <= j <= round_number,
                    i != order,
                    hand.len() == j,
                    bag.kind_counts().len() == 7,
                    counts_total(bag.kind_counts(), 7) == counts_total(old(bag).kind_counts(), 7)
                        - round_number * drawing_players(i as int, order as int) - j,
                    round_number * drawing_players(i + 1, order as int) <= counts_total(
                        old(bag).kind_counts(),
                        7,
                    ),
                decreases round_number - j,
            {
                proof {
                    assert(round_number * drawing_players(i + 1, order as int) == round_number
                        * drawing_players(i as int, order as int) + round_number)
                        by (nonlinear_arith)
                        requires
                            drawing_players(i + 1, order as int) == drawing_players(
                                i as int,
                                order as int,
                            ) + 1,
                    ;
                }
                let name = draw_from_bag(rng, bag);
                hand.push(name);
                j = j + 1;
            }
            players.push(hand);
            proof {
                assert(round_number * drawing_players(i + 1, order as int) == round_number
                    * drawing_players(i as int, order as int) + round_number) by (nonlinear_arith)
                    requires
                        drawing_players(i + 1, order as int) == drawing_players(
                            i as int,
                            order as int,
                        ) + 1,
                ;
            }
        }
        i = i + 1;
    }
    players
}

/// Pick which die to play: follow suit if possible, otherwise pick random.
/// The first die named like the leading die is played when there is one.
fn choose_dice(rng: &mut rand::rngs::ThreadRng, hand: &mut Vec<String>, leading: &str) -> (r:
    String)
    requires
        old(hand).len() >= 1,
    ensures
        exists|i: int|
            0 <= i < old(hand).len() && r == old(hand)@[i] && final(hand)@ == old(hand)@.remove(i),
        (exists|i: int| 0 <= i < old(hand).len() && (#[trigger] old(hand)@[i])@ == leading@) ==> r@
            == leading@,
{
    let mut idx: usize = hand.len();
    let mut i: usize = 0;
    while i < hand.len() && idx == hand.len()
        invariant
            0 <= i <= hand.len(),
            idx == hand.len() ==> forall|j: int| 0 <= j < i ==> (#[trigger] hand@[j])@ != leading@,
            idx < hand.len() ==> hand@[idx as int]@ == leading@,
            idx <= hand.len(),
        decreases hand.len() - i,
    {
        if same_text(hand[i].as_str(), leading) {
            idx = i;
        }
        i = i + 1;
    }
    let selected = if idx < hand.len() {
        idx
    } else {
        random_below(rng, hand.len())
    };
    hand.remove(selected)
}

// ── Who wins a trick ──────────────────────────────────────────────────────────

/// The face that a rolled value stands for: 0 a Flag, 97 a Mermaid, 98 a
/// Griffin, 99 a Minotaur, any other value that number.
pub open spec fn value_face(v: u8) -> Face {
    if v == 0 {
        Face::Flag
    } else if v == 97 {
        Face::Mermaid
    } else if v == 98 {
        Face::Griffin
    } else if v == 99 {
        Face::Minotaur
    } else {
        Face::Number(v)
    }
}

/// The die type filed with a rolled value: the special die for a special
/// face, a Gray die otherwise. Who wins a trick does not depend on it.
pub open spec fn value_die(v: u8) -> DieType {
    if v == 97 {
        DieType::Mermaid
    } else if v == 98 {
        DieType::Griffin
    } else if v == 99 {
        DieType::Minotaur
    } else {
        DieType::Gray
    }
}

/// The rolls of a trick whose values are listed in rolling order.
pub open spec fn value_rolls(values: Seq<u8>) -> Seq<RolledDie> {
    Seq::new(
        values.len(),
        |i: int| RolledDie { die_type: value_die(values[i]), face: value_face(values[i]), roll_order: i as usize },
    )
}

fn value_roll(v: u8, order: usize) -> (r: RolledDie)
    ensures
        r == (RolledDie { die_type: value_die(v), face: value_face(v), roll_order: order }),
{
    if v == 0 {
        RolledDie::new(DieType::Gray, Face::Flag, order)
    } else if v == 97 {
        RolledDie::new(DieType::Mermaid, Face::Mermaid, order)
    } else if v == 98 {
        RolledDie::new(DieType::Griffin, Face::Griffin, order)
    } else if v == 99 {
        RolledDie::new(DieType::Minotaur, Face::Minotaur, order)
    } else {
        RolledDie::new(DieType::Gray, Face::Number(v), order)
    }
}

/// Position of the winning value in a trick whose values are listed in
/// rolling order, by the rules of the game (`trick::trick_winner`): specials
/// beat numbers, Minotaur beats Griffin beats Mermaid beats Minotaur, the
/// highest number wins among numbers, a Flag loses to anything else, and ties
/// (an all-Flag trick too) go to the later roller.
pub fn winning_value_index(values: &[u8]) -> (r: usize)
    requires
        values.len() >= 1,
    ensures
        r == spec_trick_winner(value_rolls(values@)),
        r < values.len(),
{
    let mut rolls: Vec<RolledDie> = Vec::new();
    let mut i: usize = 0;
    while i < values.len()
        invariant
            0 <= i <= values.len(),
            rolls@ =~= value_rolls(values@).subrange(0, i as int),
        decreases values.len() - i,
    {
        let roll = value_roll(values[i], i);
        rolls.push(roll);
        i = i + 1;
    }
    assert(rolls@ =~= value_rolls(values@));
    trick_winner(rolls.as_slice())
}

/// When every value of a trick is a number (1 to 7), the highest value wins
/// and a tie goes to the later roller: no value after the winning one is as
/// high.
pub proof fn lemma_value_ties_go_to_later_roller(values: Seq<u8>)
    requires
        1 <= values.len() <= usize::MAX,
        forall|i: int| 0 <= i < values.len() ==> 1 <= #[trigger] values[i] <= 7,
    ensures
        ({
            let w = spec_trick_winner(value_rolls(values));
            &&& 0 <= w < values.len()
            &&& forall|i: int| 0 <= i < values.len() ==> #[trigger] values[i] <= values[w]
            &&& forall|i: int| w < i < values.len() ==> #[trigger] values[i] < values[w]
        }),
{
    let rolls = value_rolls(values);
    assert forall|i: int| 0 <= i < rolls.len() implies !(#[trigger] rolls[i]).face.spec_is_special() by {
        assert(1 <= values[i] <= 7);
    }
    assert forall|i: int| 0 <= i < rolls.len() implies (#[trigger] rolls[i]).face is Number
        && rolls[i].face.spec_numeric_value() == values[i] by {
        assert(1 <= values[i] <= 7);
    }
    assert(crate::trick::orders_increasing(rolls)) by {
        assert forall|i: int, j: int| 0 <= i < j < rolls.len() implies rolls[i].roll_order
            < rolls[j].roll_order by {
            assert(rolls[i].roll_order == i);
            assert(rolls[j].roll_order == j);
        }
    }
    crate::trick::lemma_winner_of_prefix_in_range(rolls, rolls.len() as int);
    crate::trick::lemma_highest_number_wins(rolls, 0);
    crate::trick::lemma_number_ties_go_to_later_roller(rolls, 0);
    let w = spec_trick_winner(rolls);
    assert forall|i: int| 0 <= i < values.len() implies #[trigger] values[i] <= values[w] by {
        assert(rolls[i].face is Number);
    }
    assert forall|i: int| w < i < values.len() implies #[trigger] values[i] < values[w] by {
        assert(rolls[i].face is Number);
    }
}

/// The values rolled in a trick listed from the leading player on: seat
/// `(i + first) % n` comes `i`-th.
pub open spec fn trick_order(results: Seq<u8>, first: int) -> Seq<u8> {
    Seq::new(results.len(), |i: int| results[(i + first) % (results.len() as int)])
}

/// `v` is one of the six sides of the die called `name`.
pub open spec fn is_side_of(v: u8, name: Seq<char>) -> bool {
    exists|k: int| 0 <= k < 6 && v == #[trigger] sides_of(name_index(name))[k]
}

/// Each value of `results` is a side of the die named at the same position.
pub open spec fn rolled_from(results: Seq<u8>, dice: Seq<String>) -> bool {
    &&& results.len() == dice.len()
    &&& forall|i: int| 0 <= i < results.len() ==> is_side_of(#[trigger] results[i], dice[i]@)
}

/// Rolls every die of a trick and returns the index into `round_dices` of
/// the winner, the player at `first_roll_player` rolling first: for the
/// values rolled, the winner is the seat whose value `winning_value_index`
/// picks in rolling order.
fn get_round_winner(rng: &mut rand::rngs::ThreadRng, round_dices: &[String], first_roll_player: usize) -> (r:
    usize)
    requires
        round_dices.len() >= 1,
        first_roll_player < round_dices.len(),
    ensures
        r < round_dices.len(),
        exists|results: Seq<u8>|
            rolled_from(results, round_dices@) && r == (spec_trick_winner(
                value_rolls(trick_order(results, first_roll_player as int)),
            ) + first_roll_player) % (round_dices.len() as int),
{
    let n = round_dices.len();
    let mut results: Vec<u8> = Vec::new();
    let mut i: usize = 0;
    while i < n
        invariant
            0 <= i <= n == round_dices.len(),
            results.len() == i,
            rolled_from(results@, round_dices@.subrange(0, i as int)),
        decreases n - i,
    {
        let v = roll_dice(rng, round_dices[i].as_str());
        let ghost before = results@;
        results.push(v);
        proof {
            assert(is_side_of(v, round_dices@[i as int]@));
            assert forall|j: int| 0 <= j < results.len() implies is_side_of(
                #[trigger] results@[j],
                round_dices@.subrange(0, i + 1)[j]@,
            ) by {
                if j < i {
                    assert(results@[j] == before[j]);
                    assert(round_dices@.subrange(0, i + 1)[j] == round_dices@.subrange(
                        0,
                        i as int,
                    )[j]);
                } else {
                    assert(round_dices@.subrange(0, i + 1)[j] == round_dices@[i as int]);
                }
            }
        }
        i = i + 1;
    }
    assert(round_dices@.subrange(0, n as int) =~= round_dices@);
    let ghost rolled = results@;
    // Reorder so index 0 = first_roll_player's result
    let mut shifted_results: Vec<u8> = Vec::new();
    let mut i: usize = 0;
    while i < n
        invariant
            0 <= i <= n == round_dices.len() == results.len(),
            rolled == results@,
            first_roll_player < n,
            shifted_results.len() == i,
            forall|j: int|
                0 <= j < i ==> #[trigger] shifted_results@[j] == trick_order(
                    rolled,
                    first_roll_player as int,
                )[j],
        decreases n - i,
    {
        let pos = if first_roll_player < n - i {
            i + first_roll_player
        } else {
            first_roll_player - (n - i)
        };
        proof {
            let m = n as int;
            let x = i + first_roll_player;
            if first_roll_player < n - i {
                vstd::arithmetic::div_mod::lemma_small_mod(x as nat, m as nat);
            } else {
                vstd::arithmetic::div_mod::lemma_small_mod((x - m) as nat, m as nat);
                vstd::arithmetic::div_mod::lemma_mod_sub_multiples_vanish(x as int, m);
            }
        }
        shifted_results.push(results[pos]);
        i = i + 1;
    }
    assert(shifted_results@ =~= trick_order(rolled, first_roll_player as int));
    let winner_shifted = winning_value_index(shifted_results.as_slice());
    let r = if winner_shifted < n - first_roll_player {
        winner_shifted + first_roll_player
    } else {
        winner_shifted - (n - first_roll_player)
    };
    proof {
        let m = n as int;
        let x = winner_shifted + first_roll_player;
        if winner_shifted < n - first_roll_player {
            vstd::arithmetic::div_mod::lemma_small_mod(x as nat, m as nat);
        } else {
            vstd::arithmetic::div_mod::lemma_small_mod((x - m) as nat, m as nat);
            vstd::arithmetic::div_mod::lemma_mod_sub_multiples_vanish(x as int, m);
        }
        assert(rolled_from(rolled, round_dices@));
    }
    r
}

// ── Playing a round ───────────────────────────────────────────────────────────

/// How many entries of `s` equal `x`.
pub open spec fn count_of(s: Seq<int>, x: int) -> int
    decreases s.len(),
{
    if s.len() == 0 {
        0
    } else {
        count_of(s.drop_last(), x) + if s.last() == x {
            1int
        } else {
            0int
        }
    }
}

/// Every hand of `now` holds no more of any die than the same hand of `before`.
pub open spec fn hands_within(now: Seq<Vec<String>>, before: Seq<Vec<String>>) -> bool {
    &&& now.len() == before.len()
    &&& forall|j: int|
        0 <= j < now.len() ==> (#[trigger] now[j])@.to_multiset().subset_of(before[j]@.to_multiset())
}

proof fn lemma_hands_within_remove(
    now: Seq<Vec<String>>,
    before: Seq<Vec<String>>,
    j: int,
    hand: Vec<String>,
    i: int,
)
    requires
        hands_within(now, before),
        0 <= j < now.len(),
        0 <= i < now[j]@.len(),
        hand@ == now[j]@.remove(i),
    ensures
        hands_within(now.update(j, hand), before),
{
    broadcast use vstd::seq_lib::group_to_multiset_ensures, vstd::multiset::group_multiset_axioms;

    let after = now.update(j, hand);
    assert forall|q: int| 0 <= q < after.len() implies (#[trigger] after[q])@.to_multiset().subset_of(
        before[q]@.to_multiset(),
    ) by {
        if q == j {
            vstd::seq_lib::to_multiset_remove(now[j]@, i);
            assert(now[j]@.to_multiset().subset_of(before[j]@.to_multiset()));
            assert forall|x: String| #[trigger] hand@.to_multiset().count(x) <= before[j]@.to_multiset().count(x) by {
                assert(now[j]@.to_multiset().count(x) <= before[j]@.to_multiset().count(x));
            }
        }
    }
}

/// The seat that leads trick `t` when `winners` won the tricks before it:
/// seat 0 first, then the winner of the trick before.
pub open spec fn trick_leader(winners: Seq<int>, t: int) -> int {
    if t == 0 {
        0
    } else {
        winners[t - 1]
    }
}

/// In `trick`, the dice put in by the `n` seats and the values they rolled,
/// the seat `winner` wins when `leader` rolled first.
pub open spec fn trick_won_as_rolled(
    n: int,
    leader: int,
    trick: (Seq<String>, Seq<u8>),
    winner: int,
) -> bool {
    &&& trick.0.len() == n
    &&& rolled_from(trick.1, trick.0)
    &&& winner == (spec_trick_winner(value_rolls(trick_order(trick.1, leader))) + leader) % n
}

/// `winners` are the winners of the tricks `tricks` of one round of
/// `round_number` tricks at `n` seats, each trick led by the winner of the
/// one before (seat 0 leading the first); the round may end early.
pub open spec fn round_play_possible(
    n: int,
    round_number: int,
    winners: Seq<int>,
    tricks: Seq<(Seq<String>, Seq<u8>)>,
) -> bool {
    &&& winners.len() <= round_number
    &&& round_number >= 1 ==> winners.len() >= 1
    &&& tricks.len() == winners.len()
    &&& forall|t: int| 0 <= t < winners.len() ==> 0 <= #[trigger] winners[t] < n
    &&& forall|t: int|
        0 <= t < winners.len() ==> trick_won_as_rolled(
            n,
            trick_leader(winners, t),
            #[trigger] tricks[t],
            winners[t],
        )
}

/// Every seat's die in `trick` comes from that seat's hand in `hands`.
pub open spec fn trick_dice_dealt(hands: Seq<Vec<String>>, trick: (Seq<String>, Seq<u8>)) -> bool {
    forall|i: int| 0 <= i < hands.len() ==> hands[i]@.contains(#[trigger] trick.0[i])
}

/// A die still in a hand that holds no more than it did was in it before.
proof fn lemma_within_contains(now: Seq<Vec<String>>, before: Seq<Vec<String>>, j: int, x: String)
    requires
        hands_within(now, before),
        0 <= j < now.len(),
        now[j]@.contains(x),
    ensures
        before[j]@.contains(x),
{
    broadcast use vstd::seq_lib::group_to_multiset_ensures, vstd::multiset::group_multiset_axioms;

    assert(now[j]@.to_multiset().subset_of(before[j]@.to_multiset()));
    assert(now[j]@.to_multiset().count(x) > 0);
    assert(before[j]@.to_multiset().count(x) > 0);
}

/// Simulate one full round and record how many tricks the player at `order` wins.
///
/// Player 0 leads a random die; the other players follow suit when they can
/// (otherwise play a random die); the winner of each trick leads the next one
/// with a random die, and the round ends early when the winner has no die left.
/// For the winners of the tricks played, in order, the result is how many of
/// them are the player at `order`; the dice played leave the players' hands.
fn play_round(
    rng: &mut rand::rngs::ThreadRng,
    number_players: usize,
    round_number: usize,
    order: usize,
    players: &mut Vec<Vec<String>>,
) -> (r: usize)
    requires
        old(players).len() == number_players >= 1,
        old(players)[0].len() >= 1,
        forall|i: int| 0 <= i < number_players ==> (#[trigger] old(players)[i]).len() >= round_number,
    ensures
        r <= round_number,
        hands_within(final(players)@, old(players)@),
        exists|winners: Seq<int>, tricks: Seq<(Seq<String>, Seq<u8>)>|
            {
                &&& #[trigger] round_play_possible(
                    number_players as int,
                    round_number as int,
                    winners,
                    tricks,
                )
                &&& r == count_of(winners, order as int)
                &&& 1 <= winners.len() < round_number ==> final(players)@[winners.last()].len() == 0
                &&& 1 <= winners.len() < round_number ==> old(players)@[winners.last()].len()
                    == winners.len()
                &&& forall|t: int|
                    0 <= t < tricks.len() ==> trick_dice_dealt(old(players)@, #[trigger] tricks[t])
            },
{
    let ghost p0 = players@;
    let mut win_count: usize = 0;
    let mut first_player: usize = 0;
    let ghost mut winners: Seq<int> = Seq::empty();
    let ghost mut tricks: Seq<(Seq<String>, Seq<u8>)> = Seq::empty();

    // First player picks a leading die
    let first_die_idx = random_below(rng, players[first_player].len());
    proof {
        assert(hands_within(players@, p0)) by {
            assert forall|j: int| 0 <= j < players@.len() implies (#[trigger] players@[j])@.to_multiset().subset_of(
                p0[j]@.to_multiset(),
            ) by {}
        }
    }
    let ghost before_first = players@;
    let mut leading_die = players[first_player].remove(first_die_idx);
    proof {
        lemma_hands_within_remove(
            before_first,
            p0,
            0,
            players@[0],
            first_die_idx as int,
        );
        assert(players@ =~= before_first.update(0, players@[0]));
        assert(before_first[0]@[first_die_idx as int] == leading_die);
        assert(before_first[0]@.contains(leading_die));
        assert(p0[0]@.contains(leading_die));
    }

    let mut trick: usize = 0;
    while trick < round_number
        invariant_except_break
            win_count <= trick,
            winners.len() == trick,
            win_count == count_of(winners, order as int),
            trick < round_number ==> (forall|i: int|
                0 <= i < number_players ==> (#[trigger] players[i]).len() + if i == first_player {
                    1int
                } else {
                    0int
                } >= round_number - trick),
            p0[first_player as int]@.contains(leading_die),
            forall|i: int|
                0 <= i < number_players ==> (#[trigger] players[i]).len() + (if i == first_player {
                    1int
                } else {
                    0int
                }) + trick == p0[i].len(),
        invariant
            0 <= trick <= round_number,
            win_count <= round_number,
            players.len() == number_players >= 1,
            first_player < number_players,
            hands_within(players@, p0),
            p0 == old(players)@,
            forall|t: int| 0 <= t < winners.len() ==> 0 <= #[trigger] winners[t] < number_players,
            tricks.len() == winners.len(),
            forall|t: int|
                0 <= t < winners.len() ==> trick_won_as_rolled(
                    number_players as int,
                    trick_leader(winners, t),
                    #[trigger] tricks[t],
                    winners[t],
                ),
            first_player == trick_leader(winners, winners.len() as int),
            forall|t: int| 0 <= t < tricks.len() ==> trick_dice_dealt(p0, #[trigger] tricks[t]),
        ensures
            win_count <= round_number,
            winners.len() <= round_number,
            round_number >= 1 ==> winners.len() >= 1,
            win_count == count_of(winners, order as int),
            1 <= winners.len() < round_number ==> players@[winners.last()].len() == 0,
            1 <= winners.len() < round_number ==> p0[winners.last()].len() == winners.len(),
        decreases round_number - trick,
    {
        let mut round_dices: Vec<String> = Vec::new();
        let mut i: usize = 0;
        while i < number_players
            invariant
                0 <= i <= number_players,
                trick < round_number,
                players.len() == number_players,
                first_player < number_players,
                round_dices.len() == i,
                hands_within(players@, p0),
                p0.len() == number_players,
                p0[first_player as int]@.contains(leading_die),
                forall|j: int| 0 <= j < i ==> p0[j]@.contains(#[trigger] round_dices@[j]),
                forall|j: int|
                    0 <= j < number_players ==> (#[trigger] players[j]).len() + (if j == first_player
                        || j < i {
                        1int
                    } else {
                        0int
                    }) + trick == p0[j].len(),
                forall|j: int|
                    0 <= j < number_players ==> (#[trigger] players[j]).len() + if j == first_player
                        || j < i {
                        1int
                    } else {
                        0int
                    } >= round_number - trick,
            decreases number_players - i,
        {
            if i == first_player {
                let copy = leading_die.clone();
                proof {
                    assert(copy == leading_die);
                }
                round_dices.push(copy);
            } else {
                let ghost before = players@;
                let chosen = choose_dice(rng, &mut players[i], leading_die.as_str());
                proof {
                    let k = choose|k: int|
                        0 <= k < before[i as int]@.len() && chosen == before[i as int]@[k]
                            && players@[i as int]@ == before[i as int]@.remove(k);
                    lemma_hands_within_remove(before, p0, i as int, players@[i as int], k);
                    assert(players@ =~= before.update(i as int, players@[i as int]));
                    assert(before[i as int]@.contains(chosen));
                    lemma_within_contains(before, p0, i as int, chosen);
                }
                round_dices.push(chosen);
            }
            i = i + 1;
        }

        let leader = first_player;
        first_player = get_round_winner(rng, round_dices.as_slice(), leader);
        proof {
            let results = choose|results: Seq<u8>|
                rolled_from(results, round_dices@) && first_player == (spec_trick_winner(
                    value_rolls(trick_order(results, leader as int)),
                ) + leader) % (round_dices.len() as int);
            let w2 = winners.push(first_player as int);
            let t2 = tricks.push((round_dices@, results));
            assert(trick_dice_dealt(p0, (round_dices@, results)));
            assert forall|u: int| 0 <= u < t2.len() implies trick_dice_dealt(p0, #[trigger] t2[u]) by {
                if u < tricks.len() {
                    assert(t2[u] == tricks[u]);
                }
            }
            assert(w2.drop_last() =~= winners);
            assert forall|t: int| 0 <= t < w2.len() implies trick_won_as_rolled(
                number_players as int,
                trick_leader(w2, t),
                #[trigger] t2[t],
                w2[t],
            ) by {
                if t < winners.len() {
                    assert(t2[t] == tricks[t]);
                    assert(w2[t] == winners[t]);
                    assert(trick_leader(w2, t) == trick_leader(winners, t));
                }
            }
            winners = w2;
            tricks = t2;
        }
        if first_player == order {
            win_count = win_count + 1;
        }

        if players[first_player].len() == 0 {
            break;
        }

        let next_die_idx = random_below(rng, players[first_player].len());
        let ghost before = players@;
        leading_die = players[first_player].remove(next_die_idx);
        proof {
            lemma_hands_within_remove(
                before,
                p0,
                first_player as int,
                players@[first_player as int],
                next_die_idx as int,
            );
            assert(players@ =~= before.update(first_player as int, players@[first_player as int]));
            assert(before[first_player as int]@[next_die_idx as int] == leading_die);
            assert(before[first_player as int]@.contains(leading_die));
            lemma_within_contains(before, p0, first_player as int, leading_die);
        }
        trick = trick + 1;
    }
    proof {
        assert(round_play_possible(number_players as int, round_number as int, winners, tricks));
    }
    win_count
}

/// Parameters of a simulation: the seat `order` (0-based) of the player whose
/// tricks are counted and who holds `own_dices`.
pub struct SimulationParams {
    pub number_players: usize,
    pub round_number: usize,
    pub order: usize,
    pub own_dices: Vec<String>,
    pub number_experiments: usize,
}

/// The dice left in the bag after the player's own dice are taken out.
pub open spec fn bag_left_after(own_dices: Seq<String>) -> int {
    counts_total(
        Seq::new(
            7,
            |k: int|
                (full_bag_count(k) - vstd::math::min(
                    full_bag_count(k) as int,
                    names_of(own_dices).to_multiset().count(die_name(k)) as int,
                )) as usize,
        ),
        7,
    )
}

/// The sum of the values of `m` at the keys `0..k`.
pub open spec fn map_total(m: Map<usize, usize>, k: int) -> int
    decreases k,
{
    if k <= 0 {
        0
    } else {
        map_total(m, k - 1) + m[(k - 1) as usize]
    }
}

proof fn lemma_map_total_insert(m: Map<usize, usize>, k: int, key: usize, v: usize)
    requires
        0 <= k <= usize::MAX + 1,
    ensures
        map_total(m.insert(key, v), k) == map_total(m, k) + if key < k {
            v - m[key]
        } else {
            0
        },
    decreases k,
{
    if k > 0 {
        lemma_map_total_insert(m, k - 1, key, v);
    }
}

proof fn lemma_map_total_zero(m: Map<usize, usize>, k: int)
    requires
        0 <= k <= usize::MAX + 1,
        forall|i: usize| i < k ==> m[i] == 0,
    ensures
        map_total(m, k) == 0,
    decreases k,
{
    if k > 0 {
        lemma_map_total_zero(m, k - 1);
    }
}

/// `winners` and `tricks` are a play of one round of `round_number` tricks
/// at `n` seats from the dealt `hands`, in which the player at `order` holds
/// `own_dices` and every other seat `round_number` dice, each trick played
/// with dice from those hands.
pub open spec fn dealt_play(
    hands: Seq<Vec<String>>,
    n: int,
    round_number: int,
    order: int,
    own_dices: Seq<String>,
    winners: Seq<int>,
    tricks: Seq<(Seq<String>, Seq<u8>)>,
) -> bool {
    &&& round_play_possible(n, round_number, winners, tricks)
    &&& hands.len() == n
    &&& order < n ==> hands[order]@ == own_dices
    &&& forall|i: int| 0 <= i < n && i != order ==> (#[trigger] hands[i]).len() == round_number
    &&& forall|t: int| 0 <= t < tricks.len() ==> trick_dice_dealt(hands, #[trigger] tricks[t])
    &&& 1 <= winners.len() < round_number ==> hands[winners.last()].len() == winners.len()
}

/// A round dealt so that every hand holds at least `round_number` dice is
/// played to the end: all `round_number` tricks, never fewer.
pub proof fn lemma_dealt_play_plays_every_trick(
    hands: Seq<Vec<String>>,
    n: int,
    round_number: int,
    order: int,
    own_dices: Seq<String>,
    winners: Seq<int>,
    tricks: Seq<(Seq<String>, Seq<u8>)>,
)
    requires
        dealt_play(hands, n, round_number, order, own_dices, winners, tricks),
        round_number >= 1,
        0 <= order < n ==> own_dices.len() >= round_number,
    ensures
        winners.len() == round_number,
        tricks.len() == round_number,
{
    if winners.len() < round_number {
        let w = winners.last();
        assert(0 <= winners.len() - 1 < winners.len());
        assert(0 <= w < n);
        if w != order {
            assert(hands[w].len() == round_number);
        } else {
            assert(hands[w]@ == own_dices);
        }
    }
}

/// The player at `order` can win `w` tricks in some dealt and played round.
pub open spec fn round_win_count_possible(
    w: int,
    n: int,
    round_number: int,
    order: int,
    own_dices: Seq<String>,
) -> bool {
    exists|hands: Seq<Vec<String>>, winners: Seq<int>, tricks: Seq<(Seq<String>, Seq<u8>)>|
        #[trigger] dealt_play(hands, n, round_number, order, own_dices, winners, tricks) && w
            == count_of(winners, order)
}

/// Run Monte Carlo simulation and return the win-count distribution: for
/// every number of tricks `0..=round_number`, how many of the experiments the
/// player at `order` won exactly that many tricks.
pub fn run_simulation(params: &SimulationParams) -> (r: HashMap<usize, usize>)
    requires
        params.number_players >= 1,
        params.round_number < usize::MAX,
        params.round_number >= 1 || (params.order == 0 && params.own_dices.len() >= 1),
        params.order < params.number_players ==> params.own_dices.len() >= params.round_number,
        params.round_number * drawing_players(params.number_players as int, params.order as int)
            <= bag_left_after(params.own_dices@),
    ensures
        forall|k: usize| r@.contains_key(k) <==> k <= params.round_number,
        map_total(r@, params.round_number + 1) == params.number_experiments,
        exists|obs: Seq<usize>|
            {
                &&& obs.len() == params.number_experiments
                &&& forall|e: int|
                    0 <= e < obs.len() ==> #[trigger] obs[e] <= params.round_number
                        && round_win_count_possible(
                        obs[e] as int,
                        params.number_players as int,
                        params.round_number as int,
                        params.order as int,
                        params.own_dices@,
                    )
                &&& forall|k: usize| k <= params.round_number ==> #[trigger] r@[k] == occurrences(obs, k as int)
            },
{
    let mut rng = thread_rng();
    let mut win_count_dict: HashMap<usize, usize> = HashMap::new();
    let mut i: usize = 0;
    while i <= params.round_number
        invariant
            0 <= i <= params.round_number + 1,
            params.round_number < usize::MAX,
            forall|k: usize| win_count_dict@.contains_key(k) <==> k < i,
            forall|k: usize| k < i ==> win_count_dict@[k] == 0,
        decreases params.round_number + 1 - i,
    {
        win_count_dict.insert(i, 0);
        i = i + 1;
    }
    proof {
        lemma_map_total_zero(win_count_dict@, params.round_number + 1);
    }

    let mut e: usize = 0;
    let ghost mut obs: Seq<usize> = Seq::empty();
    while e < params.number_experiments
        invariant
            0 <= e <= params.number_experiments,
            params.number_players >= 1,
            params.round_number < usize::MAX,
            params.round_number >= 1 || (params.order == 0 && params.own_dices.len() >= 1),
            obs.len() == e,
            forall|x: int|
                0 <= x < obs.len() ==> #[trigger] obs[x] <= params.round_number
                    && round_win_count_possible(
                    obs[x] as int,
                    params.number_players as int,
                    params.round_number as int,
                    params.order as int,
                    params.own_dices@,
                ),
            forall|k: usize|
                k <= params.round_number ==> #[trigger] win_count_dict@[k] == occurrences(obs, k as int),
            params.order < params.number_players ==> params.own_dices.len() >= params.round_number,
            params.round_number * drawing_players(params.number_players as int, params.order as int)
                <= bag_left_after(params.own_dices@),
            forall|k: usize| win_count_dict@.contains_key(k) <==> k <= params.round_number,
            forall|k: usize| k <= params.round_number ==> #[trigger] win_count_dict@[k] <= e,
            map_total(win_count_dict@, params.round_number + 1) == e,
        decreases params.number_experiments - e,
    {
        let mut bag = initialize_bag(params.own_dices.as_slice());
        proof {
            assert(bag.kind_counts() =~= Seq::new(
                7,
                |k: int|
                    (full_bag_count(k) - vstd::math::min(
                        full_bag_count(k) as int,
                        names_of(params.own_dices@).to_multiset().count(die_name(k)) as int,
                    )) as usize,
            ));
        }
        let mut players = initialize_players(
            &mut rng,
            params.number_players,
            params.round_number,
            params.order,
            params.own_dices.as_slice(),
            &mut bag,
        );
        let ghost dealt = players@;
        let wins = play_round(
            &mut rng,
            params.number_players,
            params.round_number,
            params.order,
            &mut players,
        );
        proof {
            let (winners, tricks) = choose|
                winners: Seq<int>,
                tricks: Seq<(Seq<String>, Seq<u8>)>,
            |
                {
                    &&& #[trigger] round_play_possible(
                        params.number_players as int,
                        params.round_number as int,
                        winners,
                        tricks,
                    )
                    &&& wins == count_of(winners, params.order as int)
                    &&& 1 <= winners.len() < params.round_number ==> players@[winners.last()].len()
                        == 0
                    &&& 1 <= winners.len() < params.round_number ==> dealt[winners.last()].len()
                        == winners.len()
                    &&& forall|t: int|
                        0 <= t < tricks.len() ==> trick_dice_dealt(dealt, #[trigger] tricks[t])
                };
            assert(dealt_play(
                dealt,
                params.number_players as int,
                params.round_number as int,
                params.order as int,
                params.own_dices@,
                winners,
                tricks,
            ));
            assert(round_win_count_possible(
                wins as int,
                params.number_players as int,
                params.round_number as int,
                params.order as int,
                params.own_dices@,
            ));
        }
        let current = match win_count_dict.get(&wins) {
            Some(c) => *c,
            None => 0,
        };
        proof {
            assert(win_count_dict@.contains_key(wins));
            assert(current == win_count_dict@[wins]);
            lemma_map_total_insert(win_count_dict@, params.round_number + 1, wins, (current + 1) as usize);
        }
        win_count_dict.insert(wins, current + 1);
        proof {
            let o2 = obs.push(wins);
            assert(o2.drop_last() =~= obs);
            assert forall|x: int| 0 <= x < o2.len() implies #[trigger] o2[x] <= params.round_number
                && round_win_count_possible(
                o2[x] as int,
                params.number_players as int,
                params.round_number as int,
                params.order as int,
                params.own_dices@,
            ) by {
                if x < obs.len() {
                    assert(o2[x] == obs[x]);
                }
            }
            obs = o2;
        }
        e = e + 1;
    }
    win_count_dict
}

} // verus!
