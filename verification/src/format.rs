//! Human-readable sizes: bytes rendered with two decimals against binary
//! units, entirely in integer arithmetic (the fraction is rounded half up).
use vstd::prelude::*;
use vstd::string::StringExecFns;

verus! {

pub const KB: u64 = 1024;

pub const MB: u64 = 1048576;

pub const GB: u64 = 1073741824;

pub const TB: u64 = 1099511627776;

/// The character for one decimal digit.
pub open spec fn spec_digit_char(d: int) -> char {
    if d == 0 {
        '0'
    } else if d == 1 {
        '1'
    } else if d == 2 {
        '2'
    } else if d == 3 {
        '3'
    } else if d == 4 {
        '4'
    } else if d == 5 {
        '5'
    } else if d == 6 {
        '6'
    } else if d == 7 {
        '7'
    } else if d == 8 {
        '8'
    } else {
        '9'
    }
}

/// The decimal digits of a non-negative number, most significant first.
pub open spec fn spec_digits(n: int) -> Seq<char>
    decreases n,
{
    if n < 10 {
        seq![spec_digit_char(n)]
    } else {
        spec_digits(n / 10).push(spec_digit_char(n % 10))
    }
}

/// The value scaled against a unit, with two decimals, rounded half up.
pub open spec fn spec_scaled(bytes: u64, unit: u64) -> int {
    (bytes as int * 100 + unit as int / 2) / unit as int
}

/// A value rendered against a unit: whole part, point, two fraction digits.
pub open spec fn spec_fixed2(bytes: u64, unit: u64) -> Seq<char> {
    let scaled = spec_scaled(bytes, unit);
    spec_digits(scaled / 100) + "."@ + seq![
        spec_digit_char((scaled % 100) / 10),
        spec_digit_char(scaled % 10),
    ]
}

/// A byte count as text: two decimals against the largest unit that fits,
/// plain bytes below one kibibyte.
pub open spec fn spec_size_str(bytes: u64) -> Seq<char> {
    if bytes >= TB {
        spec_fixed2(bytes, TB) + " TB"@
    } else if bytes >= GB {
        spec_fixed2(bytes, GB) + " GB"@
    } else if bytes >= MB {
        spec_fixed2(bytes, MB) + " MB"@
    } else if bytes >= KB {
        spec_fixed2(bytes, KB) + " KB"@
    } else {
        spec_digits(bytes as int) + " B"@
    }
}

/// The text of one decimal digit.
fn digit_str(d: u64) -> (r: &'static str)
    requires
        d < 10,
    ensures
        r@ == seq![spec_digit_char(d as int)],
{
    proof {
        reveal_strlit("0");
        reveal_strlit("1");
        reveal_strlit("2");
        reveal_strlit("3");
        reveal_strlit("4");
        reveal_strlit("5");
        reveal_strlit("6");
        reveal_strlit("7");
        reveal_strlit("8");
        reveal_strlit("9");
        assert("0"@ =~= seq!['0']);
        assert("1"@ =~= seq!['1']);
        assert("2"@ =~= seq!['2']);
        assert("3"@ =~= seq!['3']);
        assert("4"@ =~= seq!['4']);
        assert("5"@ =~= seq!['5']);
        assert("6"@ =~= seq!['6']);
        assert("7"@ =~= seq!['7']);
        assert("8"@ =~= seq!['8']);
        assert("9"@ =~= seq!['9']);
    }
    match d {
        0 => "0",
        1 => "1",
        2 => "2",
        3 => "3",
        4 => "4",
        5 => "5",
        6 => "6",
        7 => "7",
        8 => "8",
        _ => "9",
    }
}

/// The decimal digits of a number, as text.
fn digits_of(n: u64) -> (r: String)
    ensures
        r@ == spec_digits(n as int),
    decreases n,
{
    if n < 10 {
        String::from_str(digit_str(n))
    } else {
        let mut s = digits_of(n / 10);
        s.append(digit_str(n % 10));
        proof {
            assert(s@ =~= spec_digits(n as int));
        }
        s
    }
}

/// A value rendered against a unit with two decimals.
fn fixed2(bytes: u64, unit: u64) -> (r: String)
    requires
        1024 <= unit <= TB,
    ensures
        r@ == spec_fixed2(bytes, unit),
{
    let num: u128 = (bytes as u128) * 100 + (unit as u128) / 2;
    proof {
        assert(num as int == bytes * 100 + unit / 2);
        assert(num as int <= 18446744073709551615int * 100 + 549755813888int);
        vstd::arithmetic::div_mod::lemma_div_is_ordered_by_denominator(num as int, 1024, unit as int);
        vstd::arithmetic::div_mod::lemma_div_is_ordered(
            num as int,
            1845224163184769365388int,
            1024,
        );
        assert(1845224163184769365388int / 1024 <= u64::MAX);
    }
    let scaled128: u128 = num / (unit as u128);
    let scaled: u64 = scaled128 as u64;
    proof {
        assert(scaled as int == spec_scaled(bytes, unit));
    }
    let mut s = digits_of(scaled / 100);
    s.append(".");
    s.append(digit_str((scaled % 100) / 10));
    s.append(digit_str(scaled % 10));
    proof {
        assert((scaled % 100) / 10 < 10);
        assert(s@ =~= spec_fixed2(bytes, unit));
    }
    s
}

/// Format bytes into human-readable string.
pub fn format_size(bytes: u64) -> (r: String)
    ensures
        r@ == spec_size_str(bytes),
{
    if bytes >= TB {
        let mut s = fixed2(bytes, TB);
        s.append(" TB");
        proof {
            assert(s@ =~= spec_size_str(bytes));
        }
        s
    } else if bytes >= GB {
        let mut s = fixed2(bytes, GB);
        s.append(" GB");
        proof {
            assert(s@ =~= spec_size_str(bytes));
        }
        s
    } else if bytes >= MB {
        let mut s = fixed2(bytes, MB);
        s.append(" MB");
        proof {
            assert(s@ =~= spec_size_str(bytes));
        }
        s
    } else if bytes >= KB {
        let mut s = fixed2(bytes, KB);
        s.append(" KB");
        proof {
            assert(s@ =~= spec_size_str(bytes));
        }
        s
    } else {
        let mut s = digits_of(bytes);
        s.append(" B");
        proof {
            assert(s@ =~= spec_size_str(bytes));
        }
        s
    }
}

} // verus!
