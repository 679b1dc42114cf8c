//! Humane formatting of durations for progress reporting: seconds to two
//! places, whole milliseconds, or whole microseconds, whichever fits.

use vstd::prelude::*;
use vstd::string::StringExecFns;

verus! {

/// The decimal digit character for a value below ten.
pub open spec fn digit_char(d: int) -> char {
    if d == 0 {
        '0'
    } else if d == 1 {
        '1'
    } else if d == 2 {
        '2'
    } else if d == 3 {
        '3'
    } else if d == 4 {
        '4'
    } else if d == 5 {
        '5'
    } else if d == 6 {
        '6'
    } else if d == 7 {
        '7'
    } else if d == 8 {
        '8'
    } else {
        '9'
    }
}

/// The decimal digits of a nonnegative number, most significant first.
pub open spec fn dec_digits(n: int) -> Seq<char>
    decreases n,
{
    if n < 10 {
        seq![digit_char(n)]
    } else {
        dec_digits(n / 10).push(digit_char(n % 10))
    }
}

/// Exactly two decimal digits, for a value below one hundred.
pub open spec fn two_digits(h: int) -> Seq<char> {
    seq![digit_char(h / 10), digit_char(h % 10)]
}

/// What `human_time` prints for a duration of `micros` microseconds:
/// seconds with two decimal places (truncated) when at least one second,
/// else whole milliseconds when at least ten, else whole microseconds.
pub open spec fn human_time_spec(micros: int) -> Seq<char> {
    if micros >= 1_000_000 {
        dec_digits(micros / 1_000_000) + seq!['.'] + two_digits((micros % 1_000_000) / 10_000)
            + seq!['s']
    } else if micros / 1000 >= 10 {
        dec_digits(micros / 1000) + seq!['m', 's']
    } else {
        dec_digits(micros) + seq!['μ', 's']
    }
}

fn digit_str(d: u64) -> (s: &'static str)
    requires
        d < 10,
    ensures
        s@ == seq![digit_char(d as int)],
{
    proof {
        reveal_strlit("0");
        reveal_strlit("1");
        reveal_strlit("2");
        reveal_strlit("3");
        reveal_strlit("4");
        reveal_strlit("5");
        reveal_strlit("6");
        reveal_strlit("7");
        reveal_strlit("8");
        reveal_strlit("9");
    }
    if d == 0 {
        "0"
    } else if d == 1 {
        "1"
    } else if d == 2 {
        "2"
    } else if d == 3 {
        "3"
    } else if d == 4 {
        "4"
    } else if d == 5 {
        "5"
    } else if d == 6 {
        "6"
    } else if d == 7 {
        "7"
    } else if d == 8 {
        "8"
    } else {
        "9"
    }
}

fn to_decimal(n: u64) -> (s: String)
    ensures
        s@ == dec_digits(n as int),
    decreases n,
{
    if n < 10 {
        let mut s = String::new();
        s.append(digit_str(n));
        proof {
            assert(s@ =~= dec_digits(n as int));
        }
        s
    } else {
        let mut s = to_decimal(n / 10);
        s.append(digit_str(n % 10));
        proof {
            assert(s@ =~= dec_digits(n as int / 10).push(digit_char(n as int % 10)));
        }
        s
    }
}

/// A duration of `micros` microseconds in humane form: `"2.34s"`, `"15ms"`
/// or `"999μs"`, whichever unit fits first. Fractional seconds are
/// truncated to two places.
pub fn human_time(micros: u64) -> (s: String)
    ensures
        s@ == human_time_spec(micros as int),
{
    proof {
        reveal_strlit(".");
        reveal_strlit("s");
        reveal_strlit("ms");
        reveal_strlit("μs");
    }
    if micros >= 1_000_000 {
        let mut s = to_decimal(micros / 1_000_000);
        s.append(".");
        let hundredths = (micros % 1_000_000) / 10_000;
        s.append(digit_str(hundredths / 10));
        s.append(digit_str(hundredths % 10));
        s.append("s");
        proof {
            assert(s@ =~= human_time_spec(micros as int));
        }
        s
    } else if micros / 1000 >= 10 {
        let mut s = to_decimal(micros / 1000);
        s.append("ms");
        proof {
            assert(s@ =~= human_time_spec(micros as int));
        }
        s
    } else {
        let mut s = to_decimal(micros);
        s.append("μs");
        proof {
            assert(s@ =~= human_time_spec(micros as int));
        }
        s
    }
}

} // verus!
