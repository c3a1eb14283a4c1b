//! Numbers in decimal digits.

use vstd::prelude::*;
use vstd::string::StringExecFns;

verus! {

/// The decimal digit `d` as a character.
pub open spec fn digit_char(d: int) -> char {
    if d == 0 {
        '0'
    } else if d == 1 {
        '1'
    } else if d == 2 {
        '2'
    } else if d == 3 {
        '3'
    } else if d == 4 {
        '4'
    } else if d == 5 {
        '5'
    } else if d == 6 {
        '6'
    } else if d == 7 {
        '7'
    } else if d == 8 {
        '8'
    } else {
        '9'
    }
}

/// The number `n` in decimal digits.
pub open spec fn decimal(n: nat) -> Seq<char>
    decreases n,
{
    if n < 10 {
        seq![digit_char(n as int)]
    } else {
        decimal(n / 10) + seq![digit_char((n % 10) as int)]
    }
}

/// The digits as text, the last one first.
pub open spec fn digits_reversed(digits: Seq<u8>) -> Seq<char>
    decreases digits.len(),
{
    if digits.len() == 0 {
        Seq::empty()
    } else {
        seq![digit_char(digits.last() as int)] + digits_reversed(digits.drop_last())
    }
}

/// The decimal digit `d` as text.
fn digit_text(d: u8) -> (text: &'static str)
    requires
        d < 10,
    ensures
        text@ == seq![digit_char(d as int)],
{
    proof {
        reveal_strlit("0");
        reveal_strlit("1");
        reveal_strlit("2");
        reveal_strlit("3");
        reveal_strlit("4");
        reveal_strlit("5");
        reveal_strlit("6");
        reveal_strlit("7");
        reveal_strlit("8");
        reveal_strlit("9");
    }
    let text = if d == 0 {
        "0"
    } else if d == 1 {
        "1"
    } else if d == 2 {
        "2"
    } else if d == 3 {
        "3"
    } else if d == 4 {
        "4"
    } else if d == 5 {
        "5"
    } else if d == 6 {
        "6"
    } else if d == 7 {
        "7"
    } else if d == 8 {
        "8"
    } else {
        "9"
    };
    assert(text@ =~= seq![digit_char(d as int)]);
    text
}

/// Appends the number `n` in decimal digits.
pub fn append_decimal(buf: &mut String, n: u64)
    ensures
        final(buf)@ == old(buf)@ + decimal(n as nat),
{
    let ghost start = buf@;
    let mut digits: Vec<u8> = Vec::new();
    digits.push((n % 10) as u8);
    let mut rest = n / 10;
    assert(digits@.drop_last() =~= Seq::<u8>::empty());
    assert(digits_reversed(Seq::<u8>::empty()) =~= Seq::<char>::empty());
    assert(digits@.last() == n % 10);
    assert(digits_reversed(digits@) =~= seq![digit_char((n % 10) as int)]);
    while rest > 0
        invariant
            forall|k: int| 0 <= k < digits@.len() ==> digits@[k] < 10,
            decimal(n as nat) == (if rest == 0 {
                Seq::<char>::empty()
            } else {
                decimal(rest as nat)
            }) + digits_reversed(digits@),
        decreases rest,
    {
        let ghost before = digits@;
        digits.push((rest % 10) as u8);
        proof {
            assert(digits@.drop_last() =~= before);
            let head = if rest / 10 == 0 {
                Seq::<char>::empty()
            } else {
                decimal((rest / 10) as nat)
            };
            assert(decimal(rest as nat) =~= head + seq![digit_char((rest % 10) as int)]);
            assert(head + digits_reversed(digits@) =~= decimal(rest as nat) + digits_reversed(
                before,
            ));
        }
        rest = rest / 10;
    }
    let mut i: usize = digits.len();
    assert(digits@.take(i as int) =~= digits@);
    while i > 0
        invariant
            i <= digits@.len(),
            forall|k: int| 0 <= k < digits@.len() ==> digits@[k] < 10,
            buf@ + digits_reversed(digits@.take(i as int)) == start + digits_reversed(digits@),
        decreases i,
    {
        let ghost now = buf@;
        proof {
            let part = digits@.take(i as int);
            assert(part.drop_last() =~= digits@.take(i - 1));
            assert(part.last() == digits@[i - 1]);
        }
        buf.append(digit_text(digits[i - 1]));
        proof {
            assert(buf@ + digits_reversed(digits@.take(i - 1)) =~= now + digits_reversed(
                digits@.take(i as int),
            ));
        }
        i -= 1;
    }
    proof {
        assert(digits@.take(0) =~= Seq::<u8>::empty());
        assert(buf@ + Seq::<char>::empty() =~= buf@);
        assert(Seq::<char>::empty() + digits_reversed(digits@) =~= digits_reversed(digits@));
    }
}

} // verus!
