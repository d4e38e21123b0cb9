//! Amounts of money as whole cents, and their decimal text.

use vstd::prelude::*;
use vstd::string::*;

verus! {

/// The character for the decimal digit `d`.
pub open spec fn digit_char(d: nat) -> char {
    if d == 0 {
        '0'
    } else if d == 1 {
        '1'
    } else if d == 2 {
        '2'
    } else if d == 3 {
        '3'
    } else if d == 4 {
        '4'
    } else if d == 5 {
        '5'
    } else if d == 6 {
        '6'
    } else if d == 7 {
        '7'
    } else if d == 8 {
        '8'
    } else {
        '9'
    }
}

/// The decimal digits of `n`, most significant first, without leading zeros.
pub open spec fn decimal_text(n: nat) -> Seq<char>
    decreases n,
{
    if n < 10 {
        seq![digit_char(n)]
    } else {
        decimal_text(n / 10).push(digit_char(n % 10))
    }
}

/// An amount of `cents` written in whole units with exactly two decimals.
pub open spec fn amount_text(cents: nat) -> Seq<char> {
    decimal_text(cents / 100) + seq!['.', digit_char((cents / 10) % 10), digit_char(cents % 10)]
}

/// An amount followed by the currency sign.
pub open spec fn money_text(cents: nat) -> Seq<char> {
    amount_text(cents).push('€')
}

/// The digit that the character `c` stands for.
pub open spec fn digit_value(c: char) -> nat {
    if c == '1' {
        1
    } else if c == '2' {
        2
    } else if c == '3' {
        3
    } else if c == '4' {
        4
    } else if c == '5' {
        5
    } else if c == '6' {
        6
    } else if c == '7' {
        7
    } else if c == '8' {
        8
    } else if c == '9' {
        9
    } else {
        0
    }
}

/// The number that the decimal digits `text` stand for.
pub open spec fn decimal_value(text: Seq<char>) -> nat
    decreases text.len(),
{
    if text.len() == 0 {
        0
    } else {
        decimal_value(text.drop_last()) * 10 + digit_value(text.last())
    }
}

/// The cents that `text` stands for, where `text` is an amount in whole
/// units with two decimals.
pub open spec fn amount_value(text: Seq<char>) -> nat {
    decimal_value(text.take(text.len() - 3)) * 100 + digit_value(text[text.len() - 2]) * 10
        + digit_value(text[text.len() - 1])
}

/// The cents that `text` stands for, where `text` is an amount followed by
/// the currency sign.
pub open spec fn money_value(text: Seq<char>) -> nat {
    amount_value(text.drop_last())
}

/// The digits written for a number stand for that number.
pub proof fn lemma_decimal_roundtrip(n: nat)
    ensures
        decimal_text(n).len() >= 1,
        decimal_value(decimal_text(n)) == n,
    decreases n,
{
    if n < 10 {
        let text = seq![digit_char(n)];
        assert(text.drop_last() =~= Seq::<char>::empty());
        assert(decimal_value(text.drop_last()) == 0);
        assert(text.last() == digit_char(n));
    } else {
        lemma_decimal_roundtrip(n / 10);
        let text = decimal_text(n);
        assert(text.drop_last() =~= decimal_text(n / 10));
        assert(text.last() == digit_char(n % 10));
        assert(digit_value(digit_char(n % 10)) == n % 10);
    }
}

/// The text written for an amount stands for that amount, with or without
/// the currency sign. So two amounts with the same text are the same.
pub proof fn lemma_amount_roundtrip(cents: nat)
    ensures
        amount_text(cents).len() >= 4,
        amount_text(cents)[amount_text(cents).len() - 3] == '.',
        amount_value(amount_text(cents)) == cents,
        money_value(money_text(cents)) == cents,
{
    lemma_decimal_roundtrip(cents / 100);
    let text = amount_text(cents);
    let whole = decimal_text(cents / 100);
    assert(text.take(text.len() - 3) =~= whole);
    assert(text[text.len() - 2] == digit_char((cents / 10) % 10));
    assert(text[text.len() - 1] == digit_char(cents % 10));
    assert(digit_value(digit_char((cents / 10) % 10)) == (cents / 10) % 10);
    assert(digit_value(digit_char(cents % 10)) == cents % 10);
    assert(money_text(cents).drop_last() =~= text);
}

/// The one-character string for the digit `d`.
fn digit_str(d: u8) -> (s: &'static str)
    requires
        d < 10,
    ensures
        s@ == seq![digit_char(d as nat)],
{
    proof {
        reveal_strlit("0");
        reveal_strlit("1");
        reveal_strlit("2");
        reveal_strlit("3");
        reveal_strlit("4");
        reveal_strlit("5");
        reveal_strlit("6");
        reveal_strlit("7");
        reveal_strlit("8");
        reveal_strlit("9");
    }
    let s: &'static str = if d == 0 {
        "0"
    } else if d == 1 {
        "1"
    } else if d == 2 {
        "2"
    } else if d == 3 {
        "3"
    } else if d == 4 {
        "4"
    } else if d == 5 {
        "5"
    } else if d == 6 {
        "6"
    } else if d == 7 {
        "7"
    } else if d == 8 {
        "8"
    } else {
        "9"
    };
    assert(s@ =~= seq![digit_char(d as nat)]);
    s
}

/// Appends the decimal digits of `n` to `out`.
fn push_decimal(out: &mut String, n: u128)
    ensures
        final(out)@ == old(out)@ + decimal_text(n as nat),
    decreases n,
{
    if n >= 10 {
        push_decimal(out, n / 10);
    }
    let d: u8 = (n % 10) as u8;
    out.append(digit_str(d));
    assert(out@ =~= old(out)@ + decimal_text(n as nat));
}

/// Writes `cents` in whole units with exactly two decimals: `1234` is `12.34`.
pub fn format_amount(cents: u128) -> (s: String)
    ensures
        s@ == amount_text(cents as nat),
{
    let mut s = String::new();
    push_decimal(&mut s, cents / 100);
    s.append(".");
    let tens: u8 = ((cents / 10) % 10) as u8;
    let ones: u8 = (cents % 10) as u8;
    s.append(digit_str(tens));
    s.append(digit_str(ones));
    proof {
        reveal_strlit(".");
        assert(s@ =~= amount_text(cents as nat));
    }
    s
}

/// Writes `cents` as an amount followed by the currency sign: `1234` is `12.34€`.
pub fn format_money(cents: u128) -> (s: String)
    ensures
        s@ == money_text(cents as nat),
{
    let mut s = format_amount(cents);
    s.append("€");
    proof {
        reveal_strlit("€");
        assert(s@ =~= money_text(cents as nat));
    }
    s
}

} // verus!
