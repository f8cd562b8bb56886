//! Dice model: faces, die types, the bag, and per-die face tallies.

use vstd::prelude::*;

verus! {

/// A single face outcome when a die is rolled.
#[derive(Debug, Clone, Copy, PartialEq, Eq, Hash, Structural)]
pub enum Face {
    /// Special character – beats all numbers.
    Minotaur,
    Griffin,
    Mermaid,
    /// Numeric value (1–7).
    Number(u8),
    /// Flag = 0; can never win a trick.
    Flag,
}

impl Face {
    /// Whether a face is one of the three special characters.
    pub open spec fn spec_is_special(self) -> bool {
        self is Minotaur || self is Griffin || self is Mermaid
    }

    /// Returns true if this face is a special character (Minotaur / Griffin / Mermaid).
    pub fn is_special(self) -> (r: bool)
        ensures
            r == self.spec_is_special(),
    {
        match self {
            Face::Minotaur | Face::Griffin | Face::Mermaid => true,
            _ => false,
        }
    }

    /// Returns true if this face counts as a number (not a flag, not special).
    pub fn is_number(self) -> (r: bool)
        ensures
            r == (self is Number),
    {
        match self {
            Face::Number(_) => true,
            _ => false,
        }
    }

    /// The number shown by a numeric face, and 0 for every other face.
    pub open spec fn spec_numeric_value(self) -> u8 {
        match self {
            Face::Number(n) => n,
            _ => 0,
        }
    }

    /// Numeric value: special characters return 0 for comparison purposes within their tier.
    pub fn numeric_value(self) -> (r: u8)
        ensures
            r == self.spec_numeric_value(),
    {
        match self {
            Face::Number(n) => n,
            _ => 0,
        }
    }
}

/// Ordering key for presenting faces: Flag first, then numbers ascending,
/// then Mermaid, Griffin, Minotaur.
pub open spec fn face_key(f: Face) -> u16 {
    match f {
        Face::Flag => 0,
        Face::Number(n) => n as u16,
        Face::Mermaid => 100,
        Face::Griffin => 101,
        Face::Minotaur => 102,
    }
}

/// Executable form of `face_key`.
pub fn face_order_key(f: Face) -> (r: u16)
    ensures
        r == face_key(f),
{
    match f {
        Face::Flag => 0,
        Face::Number(n) => n as u16,
        Face::Mermaid => 100,
        Face::Griffin => 101,
        Face::Minotaur => 102,
    }
}

// ── Die type ─────────────────────────────────────────────────────────────────

/// The seven distinct die types in the Mino Dice bag.
#[derive(Debug, Clone, Copy, PartialEq, Eq, Hash, Structural)]
pub enum DieType {
    Minotaur,
    Griffin,
    Mermaid,
    Red,
    Yellow,
    Purple,
    Gray,
}

/// The position of a die type in `DieType::ALL`.
pub open spec fn die_index(d: DieType) -> int {
    match d {
        DieType::Minotaur => 0,
        DieType::Griffin => 1,
        DieType::Mermaid => 2,
        DieType::Red => 3,
        DieType::Yellow => 4,
        DieType::Purple => 5,
        DieType::Gray => 6,
    }
}

/// The die type at a position of `DieType::ALL`.
pub open spec fn die_at(i: int) -> DieType {
    if i == 0 {
        DieType::Minotaur
    } else if i == 1 {
        DieType::Griffin
    } else if i == 2 {
        DieType::Mermaid
    } else if i == 3 {
        DieType::Red
    } else if i == 4 {
        DieType::Yellow
    } else if i == 5 {
        DieType::Purple
    } else {
        DieType::Gray
    }
}

impl DieType {
    /// Number of this die type in the bag.
    pub open spec fn spec_bag_count(self) -> u8 {
        match self {
            DieType::Minotaur => 1,
            DieType::Griffin => 3,
            DieType::Mermaid => 2,
            DieType::Red => 7,
            DieType::Yellow => 7,
            DieType::Purple => 8,
            DieType::Gray => 8,
        }
    }

    /// The six faces of this die type, in order.
    pub open spec fn face_seq(self) -> Seq<Face> {
        match self {
            DieType::Minotaur => seq![
                Face::Minotaur,
                Face::Minotaur,
                Face::Minotaur,
                Face::Minotaur,
                Face::Flag,
                Face::Flag,
            ],
            DieType::Griffin => seq![
                Face::Griffin,
                Face::Griffin,
                Face::Griffin,
                Face::Griffin,
                Face::Flag,
                Face::Flag,
            ],
            DieType::Mermaid => seq![
                Face::Mermaid,
                Face::Mermaid,
                Face::Mermaid,
                Face::Mermaid,
                Face::Flag,
                Face::Flag,
            ],
            DieType::Red => seq![
                Face::Number(7),
                Face::Number(7),
                Face::Number(6),
                Face::Number(6),
                Face::Number(5),
                Face::Number(5),
            ],
            DieType::Yellow => seq![
                Face::Number(5),
                Face::Number(5),
                Face::Number(4),
                Face::Number(4),
                Face::Number(3),
                Face::Number(3),
            ],
            DieType::Purple => seq![
                Face::Number(3),
                Face::Number(3),
                Face::Number(2),
                Face::Number(2),
                Face::Number(1),
                Face::Number(1),
            ],
            DieType::Gray => seq![
                Face::Flag,
                Face::Flag,
                Face::Flag,
                Face::Number(1),
                Face::Number(1),
                Face::Number(7),
            ],
        }
    }

    /// Whether this is one of the three special-character dice.
    pub open spec fn spec_is_special_die(self) -> bool {
        self is Minotaur || self is Griffin || self is Mermaid
    }

    /// Number of this die type present in the bag.
    pub fn bag_count(self) -> (r: u8)
        ensures
            r == self.spec_bag_count(),
    {
        match self {
            DieType::Minotaur => 1,
            DieType::Griffin => 3,
            DieType::Mermaid => 2,
            DieType::Red => 7,
            DieType::Yellow => 7,
            DieType::Purple => 8,
            DieType::Gray => 8,
        }
    }

    /// All 6 faces of this die type (in order, duplicates allowed).
    pub fn faces(self) -> (r: [Face; 6])
        ensures
            r@ == self.face_seq(),
    {
        let r = match self {
            DieType::Minotaur => [
                Face::Minotaur,
                Face::Minotaur,
                Face::Minotaur,
                Face::Minotaur,
                Face::Flag,
                Face::Flag,
            ],
            DieType::Griffin => [
                Face::Griffin,
                Face::Griffin,
                Face::Griffin,
                Face::Griffin,
                Face::Flag,
                Face::Flag,
            ],
            DieType::Mermaid => [
                Face::Mermaid,
                Face::Mermaid,
                Face::Mermaid,
                Face::Mermaid,
                Face::Flag,
                Face::Flag,
            ],
            // Red: 7×2, 6×2, 5×2
            DieType::Red => [
                Face::Number(7),
                Face::Number(7),
                Face::Number(6),
                Face::Number(6),
                Face::Number(5),
                Face::Number(5),
            ],
            // Yellow: 5×2, 4×2, 3×2
            DieType::Yellow => [
                Face::Number(5),
                Face::Number(5),
                Face::Number(4),
                Face::Number(4),
                Face::Number(3),
                Face::Number(3),
            ],
            // Purple: 3×2, 2×2, 1×2
            DieType::Purple => [
                Face::Number(3),
                Face::Number(3),
                Face::Number(2),
                Face::Number(2),
                Face::Number(1),
                Face::Number(1),
            ],
            // Gray: Flag×3, 1×2, 7×1
            DieType::Gray => [
                Face::Flag,
                Face::Flag,
                Face::Flag,
                Face::Number(1),
                Face::Number(1),
                Face::Number(7),
            ],
        };
        assert(r@ =~= self.face_seq());
        r
    }

    /// Returns true if this die type is a special-character die.
    pub fn is_special_die(self) -> (r: bool)
        ensures
            r == self.spec_is_special_die(),
    {
        match self {
            DieType::Minotaur | DieType::Griffin | DieType::Mermaid => true,
            _ => false,
        }
    }

    /// All die types in the bag.
    pub const ALL: [DieType; 7] = [
        DieType::Minotaur,
        DieType::Griffin,
        DieType::Mermaid,
        DieType::Red,
        DieType::Yellow,
        DieType::Purple,
        DieType::Gray,
    ];

    /// Total dice in the bag (36).
    pub fn total_in_bag() -> (r: u8)
        ensures
            r == 36,
    {
        let all = Self::ALL;
        let mut total: u8 = 0;
        let mut i: usize = 0;
        while i < 7
            invariant
                0 <= i <= 7,
                all@ == seq![
                    DieType::Minotaur,
                    DieType::Griffin,
                    DieType::Mermaid,
                    DieType::Red,
                    DieType::Yellow,
                    DieType::Purple,
                    DieType::Gray,
                ],
                total == bag_prefix_total(i as int),
            decreases 7 - i,
        {
            proof {
                lemma_bag_prefix_totals();
            }
            total = total + all[i].bag_count();
            i = i + 1;
        }
        proof {
            lemma_bag_prefix_totals();
        }
        total
    }
}

/// Sum of the bag counts of the first `i` die types of `DieType::ALL`.
pub open spec fn bag_prefix_total(i: int) -> int
    decreases i,
{
    if i <= 0 {
        0
    } else {
        bag_prefix_total(i - 1) + die_at(i - 1).spec_bag_count()
    }
}

// ── Face tallies for a single die ────────────────────────────────────────────

/// The faces that a die of any type can show, in increasing `face_key` order.
pub open spec fn candidate_faces() -> Seq<Face> {
    seq![
        Face::Flag,
        Face::Number(1),
        Face::Number(2),
        Face::Number(3),
        Face::Number(4),
        Face::Number(5),
        Face::Number(6),
        Face::Number(7),
        Face::Mermaid,
        Face::Griffin,
        Face::Minotaur,
    ]
}

/// Every face of every die type is one of `candidate_faces()`.
proof fn lemma_faces_are_candidates(d: DieType, k: int)
    requires
        0 <= k < 6,
    ensures
        candidate_faces().contains(d.face_seq()[k]),
{
    let f = d.face_seq()[k];
    let c = candidate_faces();
    if f == Face::Flag {
        assert(c[0] == f);
    } else if f == Face::Number(1) {
        assert(c[1] == f);
    } else if f == Face::Number(2) {
        assert(c[2] == f);
    } else if f == Face::Number(3) {
        assert(c[3] == f);
    } else if f == Face::Number(4) {
        assert(c[4] == f);
    } else if f == Face::Number(5) {
        assert(c[5] == f);
    } else if f == Face::Number(6) {
        assert(c[6] == f);
    } else if f == Face::Number(7) {
        assert(c[7] == f);
    } else if f == Face::Mermaid {
        assert(c[8] == f);
    } else if f == Face::Griffin {
        assert(c[9] == f);
    } else {
        assert(c[10] == f);
    }
}

/// How many entries of `s` equal `f`.
pub open spec fn occurrences(s: Seq<Face>, f: Face) -> nat
    decreases s.len(),
{
    if s.len() == 0 {
        0
    } else {
        occurrences(s.drop_last(), f) + if s.last() == f {
            1nat
        } else {
            0nat
        }
    }
}

/// Number of the six faces of `faces` equal to `c`.
fn tally_face(faces: &[Face; 6], c: Face) -> (n: u8)
    ensures
        n == occurrences(faces@, c),
        n <= 6,
{
    let mut count: u8 = 0;
    let mut j: usize = 0;
    while j < 6
        invariant
            0 <= j <= 6,
            count == occurrences(faces@.subrange(0, j as int), c),
            count <= j,
        decreases 6 - j,
    {
        assert(faces@.subrange(0, j + 1).drop_last() =~= faces@.subrange(0, j as int));
        if faces[j] == c {
            count = count + 1;
        }
        j = j + 1;
    }
    assert(faces@.subrange(0, 6) =~= faces@);
    count
}

/// A face that occurs in a sequence is counted at least once.
proof fn lemma_occurrences_positive(s: Seq<Face>, k: int)
    requires
        0 <= k < s.len(),
    ensures
        occurrences(s, s[k]) > 0,
    decreases s.len(),
{
    if k < s.len() - 1 {
        lemma_occurrences_positive(s.drop_last(), k);
    }
}

/// Whether `f` is among the first `i` candidate faces.
pub open spec fn among_first_candidates(f: Face, i: int) -> bool {
    exists|c: int| 0 <= c < i && #[trigger] candidate_faces()[c] == f
}

/// The tallies of a list of (face, tally) pairs added up.
pub open spec fn tally_total(r: Seq<(Face, u8)>) -> int
    decreases r.len(),
{
    if r.len() == 0 {
        0
    } else {
        tally_total(r.drop_last()) + r.last().1
    }
}

/// How many entries of `s` are among the first `i` candidate faces.
spec fn candidate_occurrences(s: Seq<Face>, i: int) -> int
    decreases i,
{
    if i <= 0 {
        0
    } else {
        candidate_occurrences(s, i - 1) + occurrences(s, candidate_faces()[i - 1])
    }
}

/// How many of the first `i` candidate faces equal `f`.
spec fn candidate_hits(f: Face, i: int) -> int
    decreases i,
{
    if i <= 0 {
        0
    } else {
        candidate_hits(f, i - 1) + if candidate_faces()[i - 1] == f {
            1int
        } else {
            0int
        }
    }
}

proof fn lemma_candidate_occurrences_last(s: Seq<Face>, i: int)
    requires
        s.len() > 0,
    ensures
        candidate_occurrences(s, i) == candidate_occurrences(s.drop_last(), i) + candidate_hits(
            s.last(),
            i,
        ),
    decreases i,
{
    if i > 0 {
        lemma_candidate_occurrences_last(s, i - 1);
    }
}

/// Each candidate face is listed once.
proof fn lemma_candidate_hits_once(f: Face)
    requires
        candidate_faces().contains(f),
    ensures
        candidate_hits(f, 11) == 1,
{
    reveal_with_fuel(candidate_hits, 12);
    let c = choose|c: int| 0 <= c < 11 && candidate_faces()[c] == f;
    assert(0 <= c < 11 && candidate_faces()[c] == f);
}

/// A sequence of candidate faces has as many entries as the tallies of all
/// candidates.
proof fn lemma_candidate_occurrences_total(s: Seq<Face>)
    requires
        forall|k: int| 0 <= k < s.len() ==> candidate_faces().contains(#[trigger] s[k]),
    ensures
        candidate_occurrences(s, 11) == s.len(),
    decreases s.len(),
{
    if s.len() == 0 {
        assert(candidate_occurrences(s, 11) == 0) by {
            lemma_candidate_occurrences_empty(s, 11);
        }
    } else {
        let t = s.drop_last();
        assert forall|k: int| 0 <= k < t.len() implies candidate_faces().contains(#[trigger] t[k]) by {
            assert(t[k] == s[k]);
        }
        lemma_candidate_occurrences_total(t);
        lemma_candidate_occurrences_last(s, 11);
        assert(candidate_faces().contains(s[s.len() - 1]));
        lemma_candidate_hits_once(s.last());
    }
}

proof fn lemma_candidate_occurrences_empty(s: Seq<Face>, i: int)
    requires
        s.len() == 0,
    ensures
        candidate_occurrences(s, i) == 0,
    decreases i,
{
    if i > 0 {
        lemma_candidate_occurrences_empty(s, i - 1);
    }
}

/// The distinct faces of a die, each paired with how many of its six faces
/// show it, ordered by `face_key` (Flag, numbers ascending, Mermaid, Griffin,
/// Minotaur). Dividing each tally by six gives the face distribution.
pub fn face_counts(die: DieType) -> (r: Vec<(Face, u8)>)
    ensures
        forall|i: int, j: int| 0 <= i < j < r.len() ==> face_key(r[i].0) < face_key(r[j].0),
        forall|i: int|
            0 <= i < r.len() ==> r[i].1 > 0 && r[i].1 == occurrences(die.face_seq(), r[i].0),
        forall|k: int|
            0 <= k < 6 ==> exists|i: int| 0 <= i < r.len() && r[i].0 == #[trigger] die.face_seq()[k],
        tally_total(r@) == 6,
{
    let faces = die.faces();
    let candidates: [Face; 11] = [
        Face::Flag,
        Face::Number(1),
        Face::Number(2),
        Face::Number(3),
        Face::Number(4),
        Face::Number(5),
        Face::Number(6),
        Face::Number(7),
        Face::Mermaid,
        Face::Griffin,
        Face::Minotaur,
    ];
    assert(candidates@ =~= candidate_faces());
    let mut r: Vec<(Face, u8)> = Vec::new();
    let mut i: usize = 0;
    while i < 11
        invariant
            0 <= i <= 11,
            faces@ == die.face_seq(),
            candidates@ == candidate_faces(),
            forall|a: int, b: int| 0 <= a < b < r.len() ==> face_key(r[a].0) < face_key(r[b].0),
            forall|a: int| 0 <= a < r.len() ==> among_first_candidates(#[trigger] r[a].0, i as int),
            forall|a: int|
                0 <= a < r.len() ==> r[a].1 > 0 && r[a].1 == occurrences(die.face_seq(), r[a].0),
            forall|c: int|
                0 <= c < i && occurrences(die.face_seq(), #[trigger] candidate_faces()[c]) > 0
                    ==> exists|a: int| 0 <= a < r.len() && r[a].0 == candidate_faces()[c],
            tally_total(r@) == candidate_occurrences(die.face_seq(), i as int),
        decreases 11 - i,
    {
        let c = candidates[i];
        let count = tally_face(&faces, c);
        let ghost old_r = r@;
        if count > 0 {
            proof {
                assert forall|a: int| 0 <= a < r.len() implies face_key(r[a].0) < face_key(c) by {
                    assert(among_first_candidates(r[a].0, i as int));
                }
            }
            r.push((c, count));
            assert(r[r.len() - 1].0 == candidate_faces()[i as int]);
            assert(r@.drop_last() =~= old_r);
        }
        proof {
            assert forall|a: int| 0 <= a < r.len() implies among_first_candidates(
                #[trigger] r[a].0,
                i + 1,
            ) by {
                if a < old_r.len() {
                    assert(r[a] == old_r[a]);
                    assert(among_first_candidates(old_r[a].0, i as int));
                } else {
                    assert(candidate_faces()[i as int] == r[a].0);
                }
            }
            assert forall|cc: int|
                0 <= cc < i + 1 && occurrences(die.face_seq(), #[trigger] candidate_faces()[cc])
                    > 0 implies exists|a: int|
                0 <= a < r.len() && r[a].0 == candidate_faces()[cc] by {
                if cc < i {
                    let a = choose|a: int| 0 <= a < old_r.len() && old_r[a].0 == candidate_faces()[cc];
                    assert(r[a] == old_r[a]);
                } else {
                    assert(r[r.len() - 1].0 == candidate_faces()[cc]);
                }
            }
        }
        i = i + 1;
    }
    proof {
        assert forall|k: int| 0 <= k < 6 implies exists|a: int|
            0 <= a < r.len() && r[a].0 == #[trigger] die.face_seq()[k] by {
            lemma_faces_are_candidates(die, k);
            let f = die.face_seq()[k];
            let c = choose|c: int| 0 <= c < 11 && candidate_faces()[c] == f;
            lemma_occurrences_positive(die.face_seq(), k);
            assert(occurrences(die.face_seq(), candidate_faces()[c]) > 0);
        }
        assert forall|k: int| 0 <= k < die.face_seq().len() implies candidate_faces().contains(
            #[trigger] die.face_seq()[k],
        ) by {
            lemma_faces_are_candidates(die, k);
        }
        lemma_candidate_occurrences_total(die.face_seq());
    }
    r
}

/// The running totals of the bag counts, one die type at a time.
pub proof fn lemma_bag_prefix_totals()
    ensures
        bag_prefix_total(0) == 0,
        bag_prefix_total(1) == 1,
        bag_prefix_total(2) == 4,
        bag_prefix_total(3) == 6,
        bag_prefix_total(4) == 13,
        bag_prefix_total(5) == 20,
        bag_prefix_total(6) == 28,
        bag_prefix_total(7) == 36,
{
    reveal_with_fuel(bag_prefix_total, 8);
}

} // verus!
