//! Verified decimal rendering: unsigned numbers, and fixed-point
//! milli-scores printed with exactly three decimals.

use vstd::prelude::*;
use vstd::string::{StringExecFns, StrSliceExecFns};

verus! {

/// The decimal digit character for `d`.
pub open spec fn spec_digit_char(d: nat) -> char {
    if d == 0 {
        '0'
    } else if d == 1 {
        '1'
    } else if d == 2 {
        '2'
    } else if d == 3 {
        '3'
    } else if d == 4 {
        '4'
    } else if d == 5 {
        '5'
    } else if d == 6 {
        '6'
    } else if d == 7 {
        '7'
    } else if d == 8 {
        '8'
    } else {
        '9'
    }
}

/// The decimal digits of `n`, most significant first, without leading
/// zeros (`0` itself is one digit).
pub open spec fn spec_dec_digits(n: nat) -> Seq<char>
    decreases n,
{
    if n < 10 {
        seq![spec_digit_char(n)]
    } else {
        spec_dec_digits(n / 10).push(spec_digit_char(n % 10))
    }
}

/// The one-character string for digit `d`.
fn digit_str(d: u64) -> (s: &'static str)
    requires
        d < 10,
    ensures
        s@ == seq![spec_digit_char(d as nat)],
{
    if d == 0 {
        proof {
            reveal_strlit("0");
        }
        "0"
    } else if d == 1 {
        proof {
            reveal_strlit("1");
        }
        "1"
    } else if d == 2 {
        proof {
            reveal_strlit("2");
        }
        "2"
    } else if d == 3 {
        proof {
            reveal_strlit("3");
        }
        "3"
    } else if d == 4 {
        proof {
            reveal_strlit("4");
        }
        "4"
    } else if d == 5 {
        proof {
            reveal_strlit("5");
        }
        "5"
    } else if d == 6 {
        proof {
            reveal_strlit("6");
        }
        "6"
    } else if d == 7 {
        proof {
            reveal_strlit("7");
        }
        "7"
    } else if d == 8 {
        proof {
            reveal_strlit("8");
        }
        "8"
    } else {
        proof {
            reveal_strlit("9");
        }
        "9"
    }
}

/// Renders `n` in decimal.
pub fn fmt_u64(n: u64) -> (s: String)
    ensures
        s@ == spec_dec_digits(n as nat),
    decreases n,
{
    if n < 10 {
        String::from_str(digit_str(n))
    } else {
        proof {
            assert(n / 10 < n);
        }
        let mut s = fmt_u64(n / 10);
        s.append(digit_str(n % 10));
        proof {
            assert(spec_dec_digits((n / 10) as nat).push(spec_digit_char((n % 10) as nat))
                =~= spec_dec_digits((n / 10) as nat) + seq![
                spec_digit_char((n % 10) as nat),
            ]);
        }
        s
    }
}

/// A milli-score rendered with exactly three decimals: sign, whole part,
/// point, and the three fractional digits.
pub open spec fn spec_fmt_milli(v: int) -> Seq<char> {
    let a = if v < 0 {
        -v
    } else {
        v
    };
    let sign: Seq<char> = if v < 0 {
        seq!['-']
    } else {
        Seq::empty()
    };
    sign + spec_dec_digits((a / 1000) as nat) + seq!['.'] + seq![
        spec_digit_char(((a / 100) % 10) as nat),
        spec_digit_char(((a / 10) % 10) as nat),
        spec_digit_char((a % 10) as nat),
    ]
}

/// Renders a milli-score with exactly three decimals: `876` becomes
/// `0.876`, `-500` becomes `-0.500`, `2000` becomes `2.000`.
pub fn fmt_milli(v: i64) -> (s: String)
    ensures
        s@ == spec_fmt_milli(v as int),
{
    let a: u64 = if v < 0 {
        (-(v as i128)) as u64
    } else {
        v as u64
    };
    let mut s = String::new();
    if v < 0 {
        proof {
            reveal_strlit("-");
        }
        s.append("-");
        proof {
            assert(s@ =~= seq!['-']);
        }
    } else {
        proof {
            assert(s@ =~= Seq::<char>::empty());
        }
    }
    let whole = fmt_u64(a / 1000);
    s.append(whole.as_str());
    proof {
        reveal_strlit(".");
    }
    s.append(".");
    s.append(digit_str((a / 100) % 10));
    s.append(digit_str((a / 10) % 10));
    s.append(digit_str(a % 10));
    proof {
        assert(s@ =~= spec_fmt_milli(v as int));
    }
    s
}

} // verus!
