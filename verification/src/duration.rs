//! Rendering a day count as a human-readable duration, using the engine's
//! approximate calendar: 1 year = 365 days, 1 month = 30 days.

use vstd::prelude::*;
use vstd::string::StringExecFns;

verus! {

/// The decimal digit character for a value between 0 and 9.
pub open spec fn spec_digit(d: int) -> char {
    if d == 0 {
        '0'
    } else if d == 1 {
        '1'
    } else if d == 2 {
        '2'
    } else if d == 3 {
        '3'
    } else if d == 4 {
        '4'
    } else if d == 5 {
        '5'
    } else if d == 6 {
        '6'
    } else if d == 7 {
        '7'
    } else if d == 8 {
        '8'
    } else {
        '9'
    }
}

/// The decimal digits of a nonnegative integer, most significant first,
/// without leading zeros (except for the single digit of zero itself).
pub open spec fn spec_decimal(n: int) -> Seq<char>
    decreases n,
{
    if n < 10 {
        seq![spec_digit(n)]
    } else {
        spec_decimal(n / 10).push(spec_digit(n % 10))
    }
}

/// A day count decomposed as `[years] [months] days`: whole years first
/// (365 days each), whole months out of the remainder (30 days each), then
/// the leftover days. A zero years or months segment is suppressed; the days
/// segment always appears, even when it is zero.
pub open spec fn spec_human_duration(days: int) -> Seq<char> {
    let years = days / 365;
    let rem = days % 365;
    let months = rem / 30;
    let d = rem % 30;
    (if years > 0 {
        spec_decimal(years) + " years "@
    } else {
        Seq::<char>::empty()
    }) + (if months > 0 {
        spec_decimal(months) + " months "@
    } else {
        Seq::<char>::empty()
    }) + spec_decimal(d) + " days"@
}

/// The one-character string for a decimal digit.
fn digit_str(d: u64) -> (r: &'static str)
    requires
        d < 10,
    ensures
        r@ == seq![spec_digit(d as int)],
{
    let r: &'static str = if d == 0 {
        "0"
    } else if d == 1 {
        "1"
    } else if d == 2 {
        "2"
    } else if d == 3 {
        "3"
    } else if d == 4 {
        "4"
    } else if d == 5 {
        "5"
    } else if d == 6 {
        "6"
    } else if d == 7 {
        "7"
    } else if d == 8 {
        "8"
    } else {
        "9"
    };
    proof {
        reveal_strlit("0");
        reveal_strlit("1");
        reveal_strlit("2");
        reveal_strlit("3");
        reveal_strlit("4");
        reveal_strlit("5");
        reveal_strlit("6");
        reveal_strlit("7");
        reveal_strlit("8");
        reveal_strlit("9");
        assert(r@ =~= seq![spec_digit(d as int)]);
    }
    r
}

/// The decimal rendering of a nonnegative integer.
pub fn u64_to_decimal(n: u64) -> (r: String)
    ensures
        r@ == spec_decimal(n as int),
    decreases n,
{
    let last = digit_str(n % 10);
    if n < 10 {
        assert(n % 10 == n as int) by {
            vstd::arithmetic::div_mod::lemma_small_mod(n as nat, 10);
        }
        last.to_owned()
    } else {
        assert(n / 10 < n) by {
            vstd::arithmetic::div_mod::lemma_div_decreases(n as int, 10);
        }
        let mut s = u64_to_decimal(n / 10);
        s.append(last);
        s
    }
}

/// Render a day count as years, months and days, per the approximate
/// calendar described in [`spec_human_duration`].
pub fn days_to_human_time(days: u64) -> (r: String)
    ensures
        r@ == spec_human_duration(days as int),
{
    let years = days / 365;
    let rem = days % 365;
    let months = rem / 30;
    let d = rem % 30;
    let mut s = String::new();
    if years > 0 {
        let ys = u64_to_decimal(years);
        s.append(ys.as_str());
        s.append(" years ");
    }
    if months > 0 {
        let ms = u64_to_decimal(months);
        s.append(ms.as_str());
        s.append(" months ");
    }
    let ds = u64_to_decimal(d);
    s.append(ds.as_str());
    s.append(" days");
    proof {
        assert(s@ =~= spec_human_duration(days as int));
    }
    s
}

} // verus!
