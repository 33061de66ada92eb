//! Decimal rendering of integers, for the diagnostic lattice listing.

use vstd::prelude::*;
use crate::word_info::string_from_chars;

verus! {

/// The character of one decimal digit.
pub open spec fn spec_digit_char(d: int) -> char {
    if d == 0 {
        '0'
    } else if d == 1 {
        '1'
    } else if d == 2 {
        '2'
    } else if d == 3 {
        '3'
    } else if d == 4 {
        '4'
    } else if d == 5 {
        '5'
    } else if d == 6 {
        '6'
    } else if d == 7 {
        '7'
    } else if d == 8 {
        '8'
    } else {
        '9'
    }
}

/// The decimal digits of a non-negative number, most significant first.
pub open spec fn spec_decimal(n: int) -> Seq<char>
    decreases n,
{
    if n < 10 {
        seq![spec_digit_char(if n < 0 {
            0int
        } else {
            n
        })]
    } else {
        spec_decimal(n / 10) + seq![spec_digit_char(n % 10)]
    }
}

fn digit_char(d: u64) -> (c: char)
    requires
        d < 10,
    ensures
        c == spec_digit_char(d as int),
{
    if d == 0 {
        '0'
    } else if d == 1 {
        '1'
    } else if d == 2 {
        '2'
    } else if d == 3 {
        '3'
    } else if d == 4 {
        '4'
    } else if d == 5 {
        '5'
    } else if d == 6 {
        '6'
    } else if d == 7 {
        '7'
    } else if d == 8 {
        '8'
    } else {
        '9'
    }
}

/// Render a non-negative number in decimal.
pub fn u64_to_string(n: u64) -> (r: String)
    ensures
        r@ == spec_decimal(n as int),
{
    let mut digits: Vec<char> = Vec::new();
    let mut m = n;
    loop
        invariant_except_break
            spec_decimal(n as int) == if digits@.len() == 0 {
                spec_decimal(m as int)
            } else {
                spec_decimal(m as int) + digits@
            },
        ensures
            digits@ == spec_decimal(n as int),
        decreases m,
    {
        let d = m % 10;
        let next = m / 10;
        digits.insert(0, digit_char(d));
        proof {
            if m >= 10 {
                assert(spec_decimal(m as int) == spec_decimal(m as int / 10) + seq![
                    spec_digit_char(m as int % 10),
                ]);
            }
        }
        m = next;
        if m == 0 {
            proof {
                assert(spec_decimal(n as int) =~= digits@);
            }
            break ;
        }
        proof {
            assert(spec_decimal(n as int) =~= spec_decimal(m as int) + digits@);
        }
    }
    string_from_chars(&digits)
}

/// The decimal rendering of a number, with a leading minus sign when it
/// is negative.
pub open spec fn spec_decimal_signed(n: int) -> Seq<char> {
    if n < 0 {
        seq!['-'] + spec_decimal(-n)
    } else {
        spec_decimal(n)
    }
}

/// Render a number in decimal, negative values with a minus sign.
pub fn i64_to_string(n: i64) -> (r: String)
    requires
        n > i64::MIN,
    ensures
        r@ == spec_decimal_signed(n as int),
{
    if n < 0 {
        let digits = u64_to_string((-n) as u64);
        let mut s = String::new();
        s.append("-");
        s.append(digits.as_str());
        proof {
            assert(s@ =~= spec_decimal_signed(n as int)) by {
                proof_literal();
            }
        }
        s
    } else {
        u64_to_string(n as u64)
    }
}

proof fn proof_literal()
    ensures
        "-"@ == seq!['-'],
{
    reveal_strlit("-");
    assert("-"@ =~= seq!['-']);
}

} // verus!
