use vstd::prelude::*;

use crate::error::{Error, Result};

verus! {

/// The command-line front end. It holds no state: every command opens what it
/// needs when it runs.
pub struct Cli {}

impl Cli {
    /// Creates the front end; this cannot fail.
    pub fn new() -> (res: Result<Cli>)
        ensures
            res is Ok,
    {
        Ok(Cli {})
    }
}

/// A decimal digit.
pub open spec fn is_decimal_digit(c: char) -> bool {
    '0' <= c && c <= '9'
}

/// The value of a string of decimal digits.
pub open spec fn digits_value(s: Seq<char>) -> int
    decreases s.len(),
{
    if s.len() == 0 {
        0
    } else {
        digits_value(s.drop_last()) * 10 + (s.last() as int - '0' as int)
    }
}

/// What `str::parse::<i32>` gives: an optional `+` or `-`, then one or more
/// ASCII decimal digits whose value (negated after `-`) lies in the `i32`
/// range; anything else is rejected.
pub open spec fn parse_i32_spec(s: Seq<char>) -> Option<i32> {
    let negative = s.len() > 0 && s[0] == '-';
    let digits = if s.len() > 0 && (s[0] == '-' || s[0] == '+') {
        s.drop_first()
    } else {
        s
    };
    let value = if negative {
        -digits_value(digits)
    } else {
        digits_value(digits)
    };
    if digits.len() > 0 && (forall|i: int| 0 <= i < digits.len() ==> #[trigger] is_decimal_digit(digits[i]))
        && i32::MIN <= value <= i32::MAX {
        Some(value as i32)
    } else {
        None
    }
}

/// `str::parse::<i32>`; the error becomes `None`.
/// Trusted: std documents `i32::from_str` as accepting exactly an optional
/// sign followed by decimal digits whose value fits in `i32`.
#[verifier::external_body]
fn parse_i32(s: &str) -> (res: Option<i32>)
    ensures
        res == parse_i32_spec(s@),
{
    s.parse::<i32>().ok()
}

/// The amount of a `send` command.
pub fn parse_amount(s: &str) -> (res: Result<i32>)
    ensures
        res is Ok <==> parse_i32_spec(s@) is Some,
        res matches Ok(v) ==> Some(v) == parse_i32_spec(s@),
        res matches Err(e) ==> e == Error::InvalidAmount,
{
    match parse_i32(s) {
        Some(v) => Ok(v),
        None => Err(Error::InvalidAmount),
    }
}

} // verus!
