//! Die types as text: their names, parsing a name, and describing a hand.

use vstd::prelude::*;
use vstd::string::StringExecFns;

use crate::dice::{DieType, die_at, die_index};
use crate::round::count_die;
use crate::simulation::{die_name, same_text};

verus! {

// ── Text primitives of std ───────────────────────────────────────────────────

/// `c` with an ASCII upper-case letter mapped to its lower-case letter.
pub open spec fn lower_char(c: char) -> char {
    if 65 <= (c as u32) <= 90 {
        ((c as u32) + 32) as char
    } else {
        c
    }
}

/// `s` with every ASCII upper-case letter mapped to lower case.
pub open spec fn ascii_lower(s: Seq<char>) -> Seq<char> {
    s.map_values(|c: char| lower_char(c))
}

/// Calls `str::to_ascii_lowercase`, which returns a copy of `s` with the
/// ASCII letters 'A' to 'Z' mapped to 'a' to 'z' and every other character
/// unchanged.
#[verifier::external_body]
fn ascii_lowercase(s: &str) -> (r: String)
    ensures
        r@ == ascii_lower(s@),
{
    s.to_ascii_lowercase()
}

// ── Names ────────────────────────────────────────────────────────────────────

/// The lower-case name of die kind `k` (0 ≤ k < 7).
pub open spec fn api_name(k: int) -> Seq<char> {
    if k == 0 {
        "minotaur"@
    } else if k == 1 {
        "griffin"@
    } else if k == 2 {
        "mermaid"@
    } else if k == 3 {
        "red"@
    } else if k == 4 {
        "yellow"@
    } else if k == 5 {
        "purple"@
    } else {
        "gray"@
    }
}

/// The lower-case name of a die type.
pub fn die_type_to_str(dt: DieType) -> (r: &'static str)
    ensures
        r@ == api_name(die_index(dt)),
{
    match dt {
        DieType::Minotaur => "minotaur",
        DieType::Griffin => "griffin",
        DieType::Mermaid => "mermaid",
        DieType::Red => "red",
        DieType::Yellow => "yellow",
        DieType::Purple => "purple",
        DieType::Gray => "gray",
    }
}

/// The capitalised name of a die type.
pub fn format_die(dt: DieType) -> (r: &'static str)
    ensures
        r@ == die_name(die_index(dt)),
{
    match dt {
        DieType::Minotaur => "Minotaur",
        DieType::Griffin => "Griffin",
        DieType::Mermaid => "Mermaid",
        DieType::Red => "Red",
        DieType::Yellow => "Yellow",
        DieType::Purple => "Purple",
        DieType::Gray => "Gray",
    }
}

/// The die type named `s`, whatever the case of its ASCII letters; for any
/// other text, the error "Unknown die type: " followed by `s` in lower case.
pub fn parse_die_type_str(s: &str) -> (r: Result<DieType, String>)
    ensures
        r is Ok <==> exists|k: int| 0 <= k < 7 && ascii_lower(s@) == #[trigger] api_name(k),
        r matches Ok(d) ==> ascii_lower(s@) == api_name(die_index(d)),
        r matches Err(m) ==> m@ == "Unknown die type: "@ + ascii_lower(s@),
{
    let lower = ascii_lowercase(s);
    let all = DieType::ALL;
    assert(all@ == seq![
        DieType::Minotaur,
        DieType::Griffin,
        DieType::Mermaid,
        DieType::Red,
        DieType::Yellow,
        DieType::Purple,
        DieType::Gray,
    ]);
    let mut k: usize = 0;
    while k < 7
        invariant
            all@ == seq![
                DieType::Minotaur,
                DieType::Griffin,
                DieType::Mermaid,
                DieType::Red,
                DieType::Yellow,
                DieType::Purple,
                DieType::Gray,
            ],
            lower@ == ascii_lower(s@),
            0 <= k <= 7,
            forall|j: int| 0 <= j < k ==> lower@ != #[trigger] api_name(j),
        decreases 7 - k,
    {
        let dt = all[k];
        assert(die_index(dt) == k);
        if same_text(lower.as_str(), die_type_to_str(dt)) {
            return Ok(dt);
        }
        k = k + 1;
    }
    let mut msg = "Unknown die type: ".to_owned();
    msg.append(lower.as_str());
    Err(msg)
}

/// Parsing the lower-case name of a die type gives that die type back: the
/// names are already in lower case, and no two die types share a name.
pub proof fn lemma_parse_round_trip(d: DieType, e: DieType)
    ensures
        ascii_lower(api_name(die_index(d))) == api_name(die_index(d)),
        api_name(die_index(e)) == api_name(die_index(d)) ==> e == d,
{
    reveal_strlit("minotaur");
    reveal_strlit("griffin");
    reveal_strlit("mermaid");
    reveal_strlit("red");
    reveal_strlit("yellow");
    reveal_strlit("purple");
    reveal_strlit("gray");
    let n = api_name(die_index(d));
    assert(ascii_lower(n) =~= n);
    let m = api_name(die_index(e));
    if m == n && e != d {
        assert(m.len() == n.len());
        assert(m[0] == n[0]);
        assert(m[1] == n[1]);
    }
}

// ── Describing a hand ────────────────────────────────────────────────────────

/// The decimal digit `d` as a character.
pub open spec fn digit_char(d: nat) -> char {
    if d == 0 {
        '0'
    } else if d == 1 {
        '1'
    } else if d == 2 {
        '2'
    } else if d == 3 {
        '3'
    } else if d == 4 {
        '4'
    } else if d == 5 {
        '5'
    } else if d == 6 {
        '6'
    } else if d == 7 {
        '7'
    } else if d == 8 {
        '8'
    } else {
        '9'
    }
}

/// `n` written in decimal.
pub open spec fn decimal(n: nat) -> Seq<char>
    decreases n,
{
    if n < 10 {
        seq![digit_char(n)]
    } else {
        decimal(n / 10) + seq![digit_char(n % 10)]
    }
}

/// One decimal digit as text.
fn digit_str(d: usize) -> (r: &'static str)
    requires
        d < 10,
    ensures
        r@ == seq![digit_char(d as nat)],
{
    match d {
        0 => {
            proof {
                reveal_strlit("0");
            }
            "0"
        },
        1 => {
            proof {
                reveal_strlit("1");
            }
            "1"
        },
        2 => {
            proof {
                reveal_strlit("2");
            }
            "2"
        },
        3 => {
            proof {
                reveal_strlit("3");
            }
            "3"
        },
        4 => {
            proof {
                reveal_strlit("4");
            }
            "4"
        },
        5 => {
            proof {
                reveal_strlit("5");
            }
            "5"
        },
        6 => {
            proof {
                reveal_strlit("6");
            }
            "6"
        },
        7 => {
            proof {
                reveal_strlit("7");
            }
            "7"
        },
        8 => {
            proof {
                reveal_strlit("8");
            }
            "8"
        },
        _ => {
            proof {
                reveal_strlit("9");
            }
            "9"
        },
    }
}

/// Appends `n` in decimal to `out`.
fn push_decimal(out: &mut String, n: usize)
    ensures
        final(out)@ == old(out)@ + decimal(n as nat),
    decreases n,
{
    if n >= 10 {
        push_decimal(out, n / 10);
    }
    out.append(digit_str(n % 10));
    proof {
        if n < 10 {
            assert(n % 10 == n);
        }
    }
}

proof fn lemma_decimal_nonempty(n: nat)
    ensures
        decimal(n).len() >= 1,
    decreases n,
{
}

/// The text for `c` dice of kind `k`, such as "Redx2".
pub open spec fn hand_part(k: int, c: nat) -> Seq<char> {
    die_name(k) + "x"@ + decimal(c)
}

/// The parts for the die types `0..k` that occur in `hand`, in the order of
/// `DieType::ALL`, separated by ", ".
pub open spec fn hand_pattern_text(hand: Seq<DieType>, k: int) -> Seq<char>
    decreases k,
{
    if k <= 0 {
        Seq::empty()
    } else {
        let prev = hand_pattern_text(hand, k - 1);
        let c = hand.to_multiset().count(die_at(k - 1));
        if c == 0 {
            prev
        } else if prev.len() == 0 {
            hand_part(k - 1, c)
        } else {
            prev + ", "@ + hand_part(k - 1, c)
        }
    }
}

/// Describes a hand by how many dice of each type it holds, such as
/// "Minotaurx1, Redx2", the types in the order of `DieType::ALL`.
pub fn format_hand_pattern(hand: &[DieType]) -> (r: String)
    ensures
        r@ == hand_pattern_text(hand@, 7),
{
    let all = DieType::ALL;
    assert(all@ == seq![
        DieType::Minotaur,
        DieType::Griffin,
        DieType::Mermaid,
        DieType::Red,
        DieType::Yellow,
        DieType::Purple,
        DieType::Gray,
    ]);
    let mut out = String::new();
    let mut first = true;
    let mut k: usize = 0;
    while k < 7
        invariant
            all@ == seq![
                DieType::Minotaur,
                DieType::Griffin,
                DieType::Mermaid,
                DieType::Red,
                DieType::Yellow,
                DieType::Purple,
                DieType::Gray,
            ],
            0 <= k <= 7,
            out@ == hand_pattern_text(hand@, k as int),
            first == (out@.len() == 0),
        decreases 7 - k,
    {
        let dt = all[k];
        assert(dt == die_at(k as int));
        let count = count_die(hand, dt);
        if count > 0 {
            let ghost prev = out@;
            if !first {
                out.append(", ");
            }
            out.append(format_die(dt));
            out.append("x");
            push_decimal(&mut out, count);
            proof {
                assert(die_index(dt) == k);
                if first {
                    assert(out@ =~= hand_part(k as int, count as nat));
                } else {
                    assert(out@ =~= prev + ", "@ + hand_part(k as int, count as nat));
                }
                lemma_decimal_nonempty(count as nat);
            }
            first = false;
        }
        k = k + 1;
    }
    out
}

} // verus!
