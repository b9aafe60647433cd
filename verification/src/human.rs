//! Human-readable size formatting.
//!
//! A byte count is scaled down the binary unit ladder B, KB, MB, GB, TB
//! (never past TB) and printed with exactly two decimal digits, rounding the
//! exact value half to even, followed by a space and the unit symbol.

use vstd::prelude::*;
use vstd::arithmetic::div_mod::{lemma_div_is_ordered_by_denominator, lemma_multiply_divide_lt};
use vstd::string::StringExecFns;

verus! {

/// The character for a single decimal digit.
pub open spec fn digit_char(d: nat) -> char {
    if d == 0 {
        '0'
    } else if d == 1 {
        '1'
    } else if d == 2 {
        '2'
    } else if d == 3 {
        '3'
    } else if d == 4 {
        '4'
    } else if d == 5 {
        '5'
    } else if d == 6 {
        '6'
    } else if d == 7 {
        '7'
    } else if d == 8 {
        '8'
    } else {
        '9'
    }
}

/// Decimal notation of `n`, most significant digit first, no leading zeros
/// (except for `n == 0` itself).
pub open spec fn spec_dec(n: nat) -> Seq<char>
    decreases n,
{
    if n < 10 {
        seq![digit_char(n)]
    } else {
        spec_dec(n / 10).push(digit_char(n % 10))
    }
}

/// Whole part of `n / d`.
pub open spec fn spec_whole(n: u64, d: u64) -> nat {
    n as nat / d as nat
}

/// Hundredths of `n / d`, rounded half to even; may be 100 when the
/// fractional part rounds up to a whole unit.
pub open spec fn spec_hundredths(n: u64, d: u64) -> nat {
    let scaled = (n as nat % d as nat) * 100;
    let h = scaled / d as nat;
    let r = scaled % d as nat;
    if 2 * r > d as nat || (2 * r == d as nat && h % 2 == 1) {
        h + 1
    } else {
        h
    }
}

/// Whole part after rounding the hundredths.
pub open spec fn spec_round_whole(n: u64, d: u64) -> nat {
    if spec_hundredths(n, d) == 100 {
        spec_whole(n, d) + 1
    } else {
        spec_whole(n, d)
    }
}

/// Fractional hundredths after rounding.
pub open spec fn spec_round_frac(n: u64, d: u64) -> nat {
    if spec_hundredths(n, d) == 100 {
        0
    } else {
        spec_hundredths(n, d)
    }
}

/// `n / d` written with exactly two decimal digits, rounded half to even.
pub open spec fn spec_fixed2(n: u64, d: u64) -> Seq<char> {
    spec_dec(spec_round_whole(n, d)) + "."@ + seq![
        digit_char(spec_round_frac(n, d) / 10),
        digit_char(spec_round_frac(n, d) % 10),
    ]
}

/// How many times `n` is divided by 1024 before it fits its unit: stops as
/// soon as the scaled value is below 1024, and at TB in any case.
pub open spec fn spec_unit_index(n: u64) -> nat {
    if n < 1024 {
        0
    } else if n < 1048576 {
        1
    } else if n < 1073741824 {
        2
    } else if n < 1099511627776 {
        3
    } else {
        4
    }
}

/// The divisor belonging to a unit index: 1024 raised to it.
pub open spec fn spec_unit_div(u: nat) -> u64 {
    if u == 0 {
        1
    } else if u == 1 {
        1024
    } else if u == 2 {
        1048576
    } else if u == 3 {
        1073741824
    } else {
        1099511627776
    }
}

/// The unit symbol belonging to a unit index.
pub open spec fn spec_unit_sym(u: nat) -> Seq<char> {
    if u == 0 {
        "B"@
    } else if u == 1 {
        "KB"@
    } else if u == 2 {
        "MB"@
    } else if u == 3 {
        "GB"@
    } else {
        "TB"@
    }
}

/// The full human-readable form of a byte count.
pub open spec fn spec_format_size(n: u64) -> Seq<char> {
    spec_fixed2(n, spec_unit_div(spec_unit_index(n))) + " "@ + spec_unit_sym(spec_unit_index(n))
}

/// The one-character string for a decimal digit.
fn digit_str(d: u64) -> (r: &'static str)
    requires
        d < 10,
    ensures
        r@ == seq![digit_char(d as nat)],
{
    proof {
        reveal_strlit("0");
        reveal_strlit("1");
        reveal_strlit("2");
        reveal_strlit("3");
        reveal_strlit("4");
        reveal_strlit("5");
        reveal_strlit("6");
        reveal_strlit("7");
        reveal_strlit("8");
        reveal_strlit("9");
        assert("0"@ =~= seq![digit_char(0)]);
        assert("1"@ =~= seq![digit_char(1)]);
        assert("2"@ =~= seq![digit_char(2)]);
        assert("3"@ =~= seq![digit_char(3)]);
        assert("4"@ =~= seq![digit_char(4)]);
        assert("5"@ =~= seq![digit_char(5)]);
        assert("6"@ =~= seq![digit_char(6)]);
        assert("7"@ =~= seq![digit_char(7)]);
        assert("8"@ =~= seq![digit_char(8)]);
        assert("9"@ =~= seq![digit_char(9)]);
    }
    match d {
        0 => "0",
        1 => "1",
        2 => "2",
        3 => "3",
        4 => "4",
        5 => "5",
        6 => "6",
        7 => "7",
        8 => "8",
        _ => "9",
    }
}

/// Decimal notation of `n`.
pub fn dec_string(n: u64) -> (s: String)
    ensures
        s@ == spec_dec(n as nat),
    decreases n,
{
    if n < 10 {
        let mut s = String::new();
        s.append(digit_str(n));
        proof {
            assert(s@ =~= seq![digit_char(n as nat)]);
        }
        s
    } else {
        let mut s = dec_string(n / 10);
        s.append(digit_str(n % 10));
        proof {
            assert(s@ =~= spec_dec((n as nat) / 10).push(digit_char((n as nat) % 10)));
        }
        s
    }
}

/// `n / d` with exactly two decimal digits, rounded half to even.
pub fn fixed2(n: u64, d: u64) -> (s: String)
    requires
        1 <= d <= 1099511627776,
    ensures
        s@ == spec_fixed2(n, d),
{
    let whole: u64 = n / d;
    let rem: u64 = n % d;
    proof {
        assert(rem < d);
        assert(rem * 100 < d * 100) by (nonlinear_arith)
            requires rem < d,
        ;
        assert(d * 100 <= 1099511627776u64 * 100) by (nonlinear_arith)
            requires d <= 1099511627776u64,
        ;
    }
    let scaled: u64 = rem * 100;
    let h0: u64 = scaled / d;
    let hr: u64 = scaled % d;
    proof {
        lemma_multiply_divide_lt(scaled as int, d as int, 100);
        assert(h0 < 100);
        assert(hr < d);
    }
    let round_up: bool = 2 * hr > d || (2 * hr == d && h0 % 2 == 1);
    let h1: u64 = if round_up {
        h0 + 1
    } else {
        h0
    };
    let (w2, f2): (u64, u64) = if h1 == 100 {
        // Rounding up to 100 hundredths needs d > 1 (with d == 1 the
        // fractional part is zero), so the whole part is at most n / 2.
        proof {
            assert(d >= 2);
            lemma_div_is_ordered_by_denominator(n as int, 2, d as int);
        }
        (whole + 1, 0u64)
    } else {
        (whole, h1)
    };
    let mut s = dec_string(w2);
    s.append(".");
    s.append(digit_str(f2 / 10));
    s.append(digit_str(f2 % 10));
    proof {
        assert(s@ =~= spec_fixed2(n, d));
    }
    s
}

/// Human-readable form of a byte count: binary units, two decimals,
/// `B` through `TB`.
pub fn format_size(n: u64) -> (s: String)
    ensures
        s@ == spec_format_size(n),
{
    let (d, sym): (u64, &'static str) = if n < 1024 {
        (1, "B")
    } else if n < 1048576 {
        (1024, "KB")
    } else if n < 1073741824 {
        (1048576, "MB")
    } else if n < 1099511627776 {
        (1073741824, "GB")
    } else {
        (1099511627776, "TB")
    };
    let mut s = fixed2(n, d);
    s.append(" ");
    s.append(sym);
    proof {
        assert(s@ =~= spec_format_size(n));
    }
    s
}

} // verus!
