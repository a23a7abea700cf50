//! Texts made of literals and numbers.
use vstd::prelude::*;
use vstd::string::*;

verus! {

/// The decimal digit of a number below ten.
pub open spec fn digit(value: nat) -> char {
    if value == 0 {
        '0'
    } else if value == 1 {
        '1'
    } else if value == 2 {
        '2'
    } else if value == 3 {
        '3'
    } else if value == 4 {
        '4'
    } else if value == 5 {
        '5'
    } else if value == 6 {
        '6'
    } else if value == 7 {
        '7'
    } else if value == 8 {
        '8'
    } else {
        '9'
    }
}

/// The decimal digits of a number, without leading zeros.
pub open spec fn decimal_spec(value: nat) -> Seq<char>
    decreases value,
{
    if value < 10 {
        seq![digit(value)]
    } else {
        decimal_spec(value / 10).push(digit(value % 10))
    }
}

fn digit_text(value: usize) -> (r: &'static str)
    requires
        value < 10,
    ensures
        r@ == seq![digit(value as nat)],
{
    proof {
        reveal_strlit("0");
        reveal_strlit("1");
        reveal_strlit("2");
        reveal_strlit("3");
        reveal_strlit("4");
        reveal_strlit("5");
        reveal_strlit("6");
        reveal_strlit("7");
        reveal_strlit("8");
        reveal_strlit("9");
    }
    let r: &'static str = if value == 0 {
        "0"
    } else if value == 1 {
        "1"
    } else if value == 2 {
        "2"
    } else if value == 3 {
        "3"
    } else if value == 4 {
        "4"
    } else if value == 5 {
        "5"
    } else if value == 6 {
        "6"
    } else if value == 7 {
        "7"
    } else if value == 8 {
        "8"
    } else {
        "9"
    };
    proof {
        assert(r@ =~= seq![digit(value as nat)]);
    }
    r
}

/// The decimal digits of a number, without leading zeros.
pub fn decimal(value: usize) -> (r: String)
    ensures
        r@ == decimal_spec(value as nat),
    decreases value,
{
    if value < 10 {
        digit_text(value).to_owned()
    } else {
        let front: String = decimal(value / 10);
        let r: String = front.concat(digit_text(value % 10));
        proof {
            assert(r@ =~= decimal_spec(value as nat));
        }
        r
    }
}

/// A text with a number in it.
pub open spec fn around_spec(before: Seq<char>, value: nat, after: Seq<char>) -> Seq<char> {
    before + decimal_spec(value) + after
}

/// A text with a number in it.
pub fn around(before: &str, value: usize, after: &str) -> (r: String)
    ensures
        r@ == around_spec(before@, value as nat, after@),
{
    let number: String = decimal(value);
    before.to_owned().concat(number.as_str()).concat(after)
}

} // verus!
