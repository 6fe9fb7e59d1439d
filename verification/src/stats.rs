//! Writing totals for the summary of a run.

use vstd::prelude::*;
use vstd::string::*;
use crate::text::{decimal, digit, digit_char, push_decimal};

verus! {

/// The three decimal digits of a number below a thousand.
pub open spec fn three_digits(n: nat) -> Seq<char> {
    seq![digit_char((n / 100) as int), digit_char(((n / 10) % 10) as int), digit_char((n % 10) as int)]
}

/// `n` in decimal, with a comma before every group of three digits
/// counted from the right.
pub open spec fn grouped_decimal(n: nat) -> Seq<char>
    decreases n,
{
    if n < 1000 {
        decimal(n)
    } else {
        grouped_decimal(n / 1000).push(',') + three_digits(n % 1000)
    }
}

fn push_grouped(out: &mut String, n: usize)
    ensures
        final(out)@ == old(out)@ + grouped_decimal(n as nat),
    decreases n,
{
    if n < 1000 {
        push_decimal(out, n);
    } else {
        push_grouped(out, n / 1000);
        let r = n % 1000;
        out.push(',');
        out.push(digit(r / 100));
        out.push(digit((r / 10) % 10));
        out.push(digit(r % 10));
        assert(out@ =~= old(out)@ + grouped_decimal(n as nat));
    }
}

/// Writes `n` in decimal with thousands separators, as in `1,234,567`.
pub fn format_number(n: usize) -> (text: String)
    ensures
        text@ == grouped_decimal(n as nat),
{
    let mut text = String::new();
    push_grouped(&mut text, n);
    assert(text@ =~= grouped_decimal(n as nat));
    text
}

} // verus!
