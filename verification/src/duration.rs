use vstd::prelude::*;
use vstd::string::StringExecFns;

verus! {

/// The character for one decimal digit.
pub open spec fn spec_digit(d: int) -> char {
    if d == 0 {
        '0'
    } else if d == 1 {
        '1'
    } else if d == 2 {
        '2'
    } else if d == 3 {
        '3'
    } else if d == 4 {
        '4'
    } else if d == 5 {
        '5'
    } else if d == 6 {
        '6'
    } else if d == 7 {
        '7'
    } else if d == 8 {
        '8'
    } else {
        '9'
    }
}

/// The decimal rendering of a non-negative integer, most significant digit
/// first, with no leading zero except for the number zero itself.
pub open spec fn spec_decimal(n: int) -> Seq<char>
    recommends
        n >= 0,
    decreases n,
{
    if n < 10 {
        seq![spec_digit(n)]
    } else {
        spec_decimal(n / 10).push(spec_digit(n % 10))
    }
}

/// `total` seconds rendered as `days.hours:minutes:seconds`, each part the
/// exact integer quotient or remainder — no rounding.
pub open spec fn spec_render_duration(total: int) -> Seq<char> {
    spec_decimal(total / 86400) + seq!['.'] + spec_decimal((total % 86400) / 3600) + seq![':']
        + spec_decimal((total % 3600) / 60) + seq![':'] + spec_decimal(total % 60)
}

/// The one-character string for a decimal digit.
fn digit_str(d: u64) -> (s: &'static str)
    requires
        d < 10,
    ensures
        s@ =~= seq![spec_digit(d as int)],
{
    proof {
        reveal_strlit("0");
        reveal_strlit("1");
        reveal_strlit("2");
        reveal_strlit("3");
        reveal_strlit("4");
        reveal_strlit("5");
        reveal_strlit("6");
        reveal_strlit("7");
        reveal_strlit("8");
        reveal_strlit("9");
    }
    if d == 0 {
        "0"
    } else if d == 1 {
        "1"
    } else if d == 2 {
        "2"
    } else if d == 3 {
        "3"
    } else if d == 4 {
        "4"
    } else if d == 5 {
        "5"
    } else if d == 6 {
        "6"
    } else if d == 7 {
        "7"
    } else if d == 8 {
        "8"
    } else {
        "9"
    }
}

/// Appends the decimal rendering of `n` to `out`.
fn push_decimal(out: &mut String, n: u64)
    ensures
        final(out)@ == old(out)@ + spec_decimal(n as int),
    decreases n,
{
    if n < 10 {
        out.append(digit_str(n));
    } else {
        push_decimal(out, n / 10);
        out.append(digit_str(n % 10));
        proof {
            assert(old(out)@ + spec_decimal(n as int / 10) + seq![spec_digit(n as int % 10)]
                =~= old(out)@ + spec_decimal(n as int));
        }
    }
}

/// Renders a total of `total` seconds as `days.hours:minutes:seconds` by
/// successive integer division by 86400, 3600 and 60.
pub fn render_duration(total: u64) -> (s: String)
    ensures
        s@ == spec_render_duration(total as int),
{
    let days = total / 86400;
    let hours = (total % 86400) / 3600;
    let minutes = (total % 3600) / 60;
    let seconds = total % 60;
    let mut s = String::new();
    push_decimal(&mut s, days);
    s.append(".");
    push_decimal(&mut s, hours);
    s.append(":");
    push_decimal(&mut s, minutes);
    s.append(":");
    push_decimal(&mut s, seconds);
    proof {
        reveal_strlit(".");
        reveal_strlit(":");
        assert(s@ =~= spec_render_duration(total as int));
    }
    s
}

} // verus!
