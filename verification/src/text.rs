//! Putting messages together.

use vstd::prelude::*;
use vstd::string::StringExecFns;

verus! {

/// The digit for a number below ten.
pub open spec fn digit(d: int) -> Seq<char> {
    if d == 0 {
        "0"@
    } else if d == 1 {
        "1"@
    } else if d == 2 {
        "2"@
    } else if d == 3 {
        "3"@
    } else if d == 4 {
        "4"@
    } else if d == 5 {
        "5"@
    } else if d == 6 {
        "6"@
    } else if d == 7 {
        "7"@
    } else if d == 8 {
        "8"@
    } else {
        "9"@
    }
}

/// A number in decimal.
pub open spec fn decimal(n: nat) -> Seq<char>
    decreases n,
{
    if n < 10 {
        digit(n as int)
    } else {
        decimal(n / 10) + digit(n as int % 10)
    }
}

fn digit_text(d: u64) -> (text: &'static str)
    requires
        d < 10,
    ensures
        text@ == digit(d as int),
{
    if d == 0 {
        "0"
    } else if d == 1 {
        "1"
    } else if d == 2 {
        "2"
    } else if d == 3 {
        "3"
    } else if d == 4 {
        "4"
    } else if d == 5 {
        "5"
    } else if d == 6 {
        "6"
    } else if d == 7 {
        "7"
    } else if d == 8 {
        "8"
    } else {
        "9"
    }
}

/// Writes a number in decimal behind `text`.
pub fn append_number(text: &mut String, n: u64)
    ensures
        final(text)@ == old(text)@ + decimal(n as nat),
    decreases n,
{
    if n >= 10 {
        append_number(text, n / 10);
    }
    text.append(digit_text(n % 10));
    assert(text@ =~= old(text)@ + decimal(n as nat));
}

/// `head`, a colon and `detail`.
pub open spec fn with_detail(head: Seq<char>, detail: Seq<char>) -> Seq<char> {
    head + ": "@ + detail
}

/// `head`, a colon and `detail`.
pub fn join_detail(head: &str, detail: &str) -> (text: String)
    ensures
        text@ == with_detail(head@, detail@),
{
    let mut text = head.to_string();
    text.append(": ");
    text.append(detail);
    text
}

/// A digit is the character with its value above `0`.
pub proof fn law_digit(d: int)
    requires
        0 <= d <= 9,
    ensures
        digit(d).len() == 1,
        digit(d)[0] as int == 0x30 + d,
{
    reveal_strlit("0");
    reveal_strlit("1");
    reveal_strlit("2");
    reveal_strlit("3");
    reveal_strlit("4");
    reveal_strlit("5");
    reveal_strlit("6");
    reveal_strlit("7");
    reveal_strlit("8");
    reveal_strlit("9");
}

/// A number is written as its digits, the highest first: putting a digit behind
/// a number makes ten of it and adds the digit.
pub proof fn law_decimal_digits(n: nat, d: int)
    requires
        0 <= d <= 9,
    ensures
        n == 0 ==> decimal(d as nat) == digit(d),
        n > 0 ==> decimal((10 * n + d) as nat) == decimal(n) + digit(d),
{
}

/// A detail follows what it is about, with a colon and a blank between them.
pub proof fn law_detail(head: Seq<char>, detail: Seq<char>)
    ensures
        with_detail(head, detail) == head + ": "@ + detail,
{
}

} // verus!
