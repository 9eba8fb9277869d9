//! Formatting of durations for reports.

use vstd::prelude::*;
use vstd::string::StringExecFns;

verus! {

pub open spec fn digit_char(d: nat) -> char {
    if d == 0 { '0' } else if d == 1 { '1' } else if d == 2 { '2' } else if d == 3 { '3' }
    else if d == 4 { '4' } else if d == 5 { '5' } else if d == 6 { '6' } else if d == 7 { '7' }
    else if d == 8 { '8' } else { '9' }
}

/// Decimal digits of `n`, without leading zeros.
pub open spec fn decimal(n: nat) -> Seq<char>
    decreases n,
{
    if n < 10 {
        seq![digit_char(n)]
    } else {
        decimal(n / 10).push(digit_char(n % 10))
    }
}

/// Decimal digits of `n`, padded with a zero to at least two.
pub open spec fn two_digits(n: nat) -> Seq<char> {
    if n < 10 { seq!['0'] + decimal(n) } else { decimal(n) }
}

/// Relies on std's `format!` with the `{:02}` specification: the decimal
/// digits of `n`, zero-padded to a width of two.
#[verifier::external_body]
fn pad2(n: u64) -> (r: String)
    ensures
        r@ == two_digits(n as nat),
{
    format!("{:02}", n)
}

/// `HH:MM:SS` for a number of seconds (hours may run past two digits), or
/// `Invalid` for a negative number.
pub fn format_duration_secs(total_seconds: i64) -> (r: String)
    ensures
        total_seconds < 0 ==> r@ == "Invalid"@,
        total_seconds >= 0 ==> r@ == two_digits((total_seconds / 3600) as nat) + ":"@
            + two_digits(((total_seconds % 3600) / 60) as nat) + ":"@ + two_digits((total_seconds % 60) as nat),
{
    if total_seconds < 0 {
        return String::from_str("Invalid");
    }
    let hours = total_seconds / 3600;
    let minutes = (total_seconds % 3600) / 60;
    let seconds = total_seconds % 60;
    let mut out = pad2(hours as u64);
    out.append(":");
    out.append(pad2(minutes as u64).as_str());
    out.append(":");
    out.append(pad2(seconds as u64).as_str());
    out
}

} // verus!
