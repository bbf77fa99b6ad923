//! Text for diagnostics: numbers in decimal, sides, prices.

use vstd::prelude::*;
use vstd::string::*;
use crate::types::Side;

verus! {

/// The character of one decimal digit.
pub open spec fn digit(d: nat) -> char {
    if d == 0 {
        '0'
    } else if d == 1 {
        '1'
    } else if d == 2 {
        '2'
    } else if d == 3 {
        '3'
    } else if d == 4 {
        '4'
    } else if d == 5 {
        '5'
    } else if d == 6 {
        '6'
    } else if d == 7 {
        '7'
    } else if d == 8 {
        '8'
    } else {
        '9'
    }
}

/// The decimal numeral of `n`, without leading zeros.
pub open spec fn decimal(n: nat) -> Seq<char>
    decreases n,
{
    if n < 10 {
        seq![digit(n)]
    } else {
        decimal(n / 10).push(digit(n % 10))
    }
}

/// The name of a side.
pub open spec fn side_text(side: Side) -> Seq<char> {
    match side {
        Side::Buy => "Buy"@,
        Side::Sell => "Sell"@,
    }
}

/// The text of an optional price: `None`, or `Some(` and `)` around the
/// price in decimal.
pub open spec fn price_text(price: Option<u64>) -> Seq<char> {
    match price {
        None => "None"@,
        Some(p) => "Some("@ + decimal(p as nat) + ")"@,
    }
}

fn digit_str(d: u64) -> (s: &'static str)
    requires
        d < 10,
    ensures
        s@ == seq![digit(d as nat)],
{
    proof {
        reveal_strlit("0");
        reveal_strlit("1");
        reveal_strlit("2");
        reveal_strlit("3");
        reveal_strlit("4");
        reveal_strlit("5");
        reveal_strlit("6");
        reveal_strlit("7");
        reveal_strlit("8");
        reveal_strlit("9");
    }
    let s = if d == 0 {
        "0"
    } else if d == 1 {
        "1"
    } else if d == 2 {
        "2"
    } else if d == 3 {
        "3"
    } else if d == 4 {
        "4"
    } else if d == 5 {
        "5"
    } else if d == 6 {
        "6"
    } else if d == 7 {
        "7"
    } else if d == 8 {
        "8"
    } else {
        "9"
    };
    assert(s@ =~= seq![digit(d as nat)]);
    s
}

/// Appends the decimal numeral of `n` to `text`.
pub fn push_decimal(text: &mut String, n: u64)
    ensures
        final(text)@ == old(text)@ + decimal(n as nat),
    decreases n,
{
    if n >= 10 {
        push_decimal(text, n / 10);
    }
    text.append(digit_str(n % 10));
    assert(text@ =~= old(text)@ + decimal(n as nat));
}

/// Appends the name of `side` to `text`.
pub fn push_side(text: &mut String, side: Side)
    ensures
        final(text)@ == old(text)@ + side_text(side),
{
    match side {
        Side::Buy => text.append("Buy"),
        Side::Sell => text.append("Sell"),
    }
}

/// Appends the text of an optional price to `text`.
pub fn push_price(text: &mut String, price: Option<u64>)
    ensures
        final(text)@ == old(text)@ + price_text(price),
{
    match price {
        None => text.append("None"),
        Some(p) => {
            text.append("Some(");
            push_decimal(text, p);
            text.append(")");
            assert(text@ =~= old(text)@ + price_text(price));
        },
    }
}

} // verus!
