//! Decimal text of natural numbers, as it appears in addresses and names.

use vstd::prelude::*;

verus! {

/// The character of a decimal digit.
pub open spec fn digit(d: nat) -> char {
    if d == 0 {
        '0'
    } else if d == 1 {
        '1'
    } else if d == 2 {
        '2'
    } else if d == 3 {
        '3'
    } else if d == 4 {
        '4'
    } else if d == 5 {
        '5'
    } else if d == 6 {
        '6'
    } else if d == 7 {
        '7'
    } else if d == 8 {
        '8'
    } else {
        '9'
    }
}

/// The decimal text of `n`: its digits from the most significant one, without
/// leading zeros; `0` for zero.
pub open spec fn decimal(n: nat) -> Seq<char>
    decreases n,
{
    if n < 10 {
        seq![digit(n)]
    } else {
        decimal(n / 10).push(digit(n % 10))
    }
}

/// `c` is one of the ten digits.
pub open spec fn is_digit(c: char) -> bool {
    exists|d: nat| d < 10 && c == digit(d)
}

/// A decimal text is not empty and holds digits only.
pub proof fn lemma_decimal_digits(n: nat)
    ensures
        decimal(n).len() >= 1,
        forall|i: int| 0 <= i < decimal(n).len() ==> is_digit(#[trigger] decimal(n)[i]),
    decreases n,
{
    if n >= 10 {
        lemma_decimal_digits(n / 10);
        assert(is_digit(digit(n % 10)));
    } else {
        assert(is_digit(digit(n)));
    }
}

/// Different digits have different characters.
pub proof fn lemma_digit_injective(a: nat, b: nat)
    requires
        a < 10,
        b < 10,
        digit(a) == digit(b),
    ensures
        a == b,
{
}

/// Different numbers have different decimal texts.
pub proof fn lemma_decimal_injective(a: nat, b: nat)
    requires
        decimal(a) == decimal(b),
    ensures
        a == b,
    decreases a,
{
    lemma_decimal_digits(a / 10);
    lemma_decimal_digits(b / 10);
    if a >= 10 && b >= 10 {
        let x = decimal(a / 10);
        let y = decimal(b / 10);
        assert(x.push(digit(a % 10)).drop_last() =~= x);
        assert(y.push(digit(b % 10)).drop_last() =~= y);
        assert(x.push(digit(a % 10)).last() == digit(a % 10));
        assert(y.push(digit(b % 10)).last() == digit(b % 10));
        lemma_decimal_injective(a / 10, b / 10);
        lemma_digit_injective(a % 10, b % 10);
    } else if a < 10 && b < 10 {
        assert(decimal(a)[0] == digit(a));
        assert(decimal(b)[0] == digit(b));
        lemma_digit_injective(a, b);
    } else if a < 10 {
        assert(decimal(a).len() == 1);
        assert(decimal(b).len() == decimal(b / 10).len() + 1);
    } else {
        assert(decimal(b).len() == 1);
        assert(decimal(a).len() == decimal(a / 10).len() + 1);
    }
}

/// The text of one decimal digit.
fn digit_text(d: u64) -> (text: &'static str)
    requires
        d < 10,
    ensures
        text@ == seq![digit(d as nat)],
{
    proof {
        reveal_strlit("0");
        reveal_strlit("1");
        reveal_strlit("2");
        reveal_strlit("3");
        reveal_strlit("4");
        reveal_strlit("5");
        reveal_strlit("6");
        reveal_strlit("7");
        reveal_strlit("8");
        reveal_strlit("9");
    }
    let text = if d == 0 {
        "0"
    } else if d == 1 {
        "1"
    } else if d == 2 {
        "2"
    } else if d == 3 {
        "3"
    } else if d == 4 {
        "4"
    } else if d == 5 {
        "5"
    } else if d == 6 {
        "6"
    } else if d == 7 {
        "7"
    } else if d == 8 {
        "8"
    } else {
        "9"
    };
    assert(text@ =~= seq![digit(d as nat)]);
    text
}

/// Appends the decimal text of `n` to `text`.
pub fn push_decimal(text: &mut String, n: u64)
    ensures
        final(text)@ == old(text)@ + decimal(n as nat),
    decreases n,
{
    if n >= 10 {
        push_decimal(text, n / 10);
    }
    text.append(digit_text(n % 10));
    proof {
        if n >= 10 {
            assert(old(text)@ + decimal((n / 10) as nat) + seq![digit((n % 10) as nat)]
                =~= old(text)@ + decimal(n as nat));
        }
    }
}

} // verus!
