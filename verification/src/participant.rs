//! Participants and the bootstrap helper that names them.
//!
//! A participant is nothing but a name: identity is the only property the
//! assignment algorithm cares about. The helper manufactures a numbered
//! roster of the requested size; the numbering guarantees the names are
//! pairwise distinct.

use vstd::prelude::*;

verus! {

use vstd::arithmetic::div_mod::lemma_fundamental_div_mod;
use vstd::string::StringExecFns;

/// An entity to be placed into the gift-exchange cycle; identity only.
#[derive(PartialEq, Eq, Hash, Clone)]
pub struct Participant {
    pub name: String,
}

/// The character for one decimal digit.
pub open spec fn digit_char(d: nat) -> char {
    if d == 0 {
        '0'
    } else if d == 1 {
        '1'
    } else if d == 2 {
        '2'
    } else if d == 3 {
        '3'
    } else if d == 4 {
        '4'
    } else if d == 5 {
        '5'
    } else if d == 6 {
        '6'
    } else if d == 7 {
        '7'
    } else if d == 8 {
        '8'
    } else {
        '9'
    }
}

/// The decimal digits of `x`, most significant first.
pub open spec fn decimal(x: nat) -> Seq<char>
    decreases x,
{
    if x < 10 {
        seq![digit_char(x)]
    } else {
        decimal(x / 10).push(digit_char(x % 10))
    }
}

/// The name given to the participant numbered `k`.
pub open spec fn participant_name(k: nat) -> Seq<char> {
    "Participant "@ + decimal(k)
}

/// The digit value of a digit character.
spec fn digit_val(c: char) -> nat {
    if c == '0' {
        0
    } else if c == '1' {
        1
    } else if c == '2' {
        2
    } else if c == '3' {
        3
    } else if c == '4' {
        4
    } else if c == '5' {
        5
    } else if c == '6' {
        6
    } else if c == '7' {
        7
    } else if c == '8' {
        8
    } else if c == '9' {
        9
    } else {
        10
    }
}

/// The number read back from a digit sequence.
spec fn seq_val(s: Seq<char>) -> nat
    decreases s.len(),
{
    if s.len() == 0 {
        0
    } else {
        seq_val(s.drop_last()) * 10 + digit_val(s.last())
    }
}

/// Reading the digits of `x` back gives `x`: the decimal writing is
/// injective.
proof fn lemma_decimal_value(x: nat)
    ensures
        seq_val(decimal(x)) == x,
    decreases x,
{
    if x < 10 {
        assert(decimal(x).drop_last() =~= Seq::<char>::empty());
        assert(decimal(x).last() == digit_char(x));
        assert(seq_val(Seq::<char>::empty()) == 0);
        assert(digit_val(digit_char(x)) == x);
    } else {
        lemma_decimal_value(x / 10);
        assert(decimal(x).drop_last() =~= decimal(x / 10));
        assert(decimal(x).last() == digit_char(x % 10));
        assert(digit_val(digit_char(x % 10)) == x % 10);
        lemma_fundamental_div_mod(x as int, 10);
    }
}

/// Distinct numbers get distinct participant names.
proof fn lemma_name_injective(a: nat, b: nat)
    requires
        participant_name(a) == participant_name(b),
    ensures
        a == b,
{
    let s = "Participant "@;
    assert((s + decimal(a)).skip(s.len() as int) =~= decimal(a));
    assert((s + decimal(b)).skip(s.len() as int) =~= decimal(b));
    assert(decimal(a) == decimal(b));
    lemma_decimal_value(a);
    lemma_decimal_value(b);
}

/// The one-character string for a decimal digit.
fn digit_str(d: usize) -> (r: &'static str)
    requires
        d < 10,
    ensures
        r@ == seq![digit_char(d as nat)],
{
    if d == 0 {
        proof {
            reveal_strlit("0");
            assert("0"@ =~= seq![digit_char(0)]);
        }
        "0"
    } else if d == 1 {
        proof {
            reveal_strlit("1");
            assert("1"@ =~= seq![digit_char(1)]);
        }
        "1"
    } else if d == 2 {
        proof {
            reveal_strlit("2");
            assert("2"@ =~= seq![digit_char(2)]);
        }
        "2"
    } else if d == 3 {
        proof {
            reveal_strlit("3");
            assert("3"@ =~= seq![digit_char(3)]);
        }
        "3"
    } else if d == 4 {
        proof {
            reveal_strlit("4");
            assert("4"@ =~= seq![digit_char(4)]);
        }
        "4"
    } else if d == 5 {
        proof {
            reveal_strlit("5");
            assert("5"@ =~= seq![digit_char(5)]);
        }
        "5"
    } else if d == 6 {
        proof {
            reveal_strlit("6");
            assert("6"@ =~= seq![digit_char(6)]);
        }
        "6"
    } else if d == 7 {
        proof {
            reveal_strlit("7");
            assert("7"@ =~= seq![digit_char(7)]);
        }
        "7"
    } else if d == 8 {
        proof {
            reveal_strlit("8");
            assert("8"@ =~= seq![digit_char(8)]);
        }
        "8"
    } else {
        proof {
            reveal_strlit("9");
            assert("9"@ =~= seq![digit_char(9)]);
        }
        "9"
    }
}

/// Append the decimal digits of `x` to the string.
fn push_decimal(s: &mut String, x: usize)
    ensures
        final (s)@ == old(s)@ + decimal(x as nat),
    decreases x,
{
    if x < 10 {
        s.append(digit_str(x));
    } else {
        let ghost entry = s@;
        push_decimal(s, x / 10);
        s.append(digit_str(x % 10));
        proof {
            assert(s@ =~= entry + decimal(x as nat));
        }
    }
}

/// The label of the participant numbered `k`.
fn participant_label(k: usize) -> (s: String)
    ensures
        s@ == participant_name(k as nat),
{
    let mut s = String::from_str("Participant ");
    push_decimal(&mut s, k);
    s
}

/// A roster of `number` participants with pairwise distinct names.
pub fn generate_participants(number: usize) -> (ps: Vec<Participant>)
    ensures
        ps@.len() == number,
        forall|i: int| 0 <= i < number ==> ps@[i].name@ == participant_name((i + 1) as nat),
        forall|i: int, j: int| 0 <= i < j < number ==> ps@[i].name@ != ps@[j].name@,
{
    let mut ps: Vec<Participant> = Vec::new();
    let mut i: usize = 0;
    while i < number
        invariant
            i <= number,
            ps@.len() == i,
            forall|k: int| 0 <= k < i ==> ps@[k].name@ == participant_name((k + 1) as nat),
        decreases number - i,
    {
        let name = participant_label(i + 1);
        ps.push(Participant { name });
        i += 1;
    }
    proof {
        assert forall|i: int, j: int| 0 <= i < j < number implies ps@[i].name@ != ps@[j].name@ by {
            if ps@[i].name@ == ps@[j].name@ {
                lemma_name_injective((i + 1) as nat, (j + 1) as nat);
            }
        }
    }
    ps
}

} // verus!
