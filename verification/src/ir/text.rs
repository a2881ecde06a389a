//! Numbers as text.

use vstd::prelude::*;
use vstd::string::StringExecFns;

verus! {

/// The digit for a value below sixteen.
pub open spec fn digit_text(d: u64) -> Seq<char> {
    match d {
        0 => "0"@,
        1 => "1"@,
        2 => "2"@,
        3 => "3"@,
        4 => "4"@,
        5 => "5"@,
        6 => "6"@,
        7 => "7"@,
        8 => "8"@,
        9 => "9"@,
        10 => "a"@,
        11 => "b"@,
        12 => "c"@,
        13 => "d"@,
        14 => "e"@,
        _ => "f"@,
    }
}

/// Digits of `v` in a base, most significant first, with no leading zero.
pub open spec fn digits_text(v: u64, base: u64) -> Seq<char>
    decreases v,
{
    if base < 2 || v < base {
        digit_text(v)
    } else {
        proof {
            assert(v / base < v) by (nonlinear_arith)
                requires
                    base >= 2,
                    v >= base,
            ;
        }
        digits_text(v / base, base) + digit_text(v % base)
    }
}

pub open spec fn decimal_text(v: u64) -> Seq<char> {
    digits_text(v, 10)
}

/// Hexadecimal with its prefix, e.g. `0x1f`.
pub open spec fn hex_text(v: u64) -> Seq<char> {
    "0x"@ + digits_text(v, 16)
}

fn digit(d: u64) -> (r: &'static str)
    ensures
        r@ == digit_text(d),
{
    match d {
        0 => "0",
        1 => "1",
        2 => "2",
        3 => "3",
        4 => "4",
        5 => "5",
        6 => "6",
        7 => "7",
        8 => "8",
        9 => "9",
        10 => "a",
        11 => "b",
        12 => "c",
        13 => "d",
        14 => "e",
        _ => "f",
    }
}

fn push_digits(out: &mut String, v: u64, base: u64)
    requires
        2 <= base <= 16,
    ensures
        final(out)@ == old(out)@ + digits_text(v, base),
    decreases v,
{
    if v >= base {
        proof {
            assert(v / base < v) by (nonlinear_arith)
                requires
                    base >= 2,
                    v >= base,
            ;
        }
        push_digits(out, v / base, base);
        out.append(digit(v % base));
        proof {
            assert(out@ =~= old(out)@ + digits_text(v, base));
        }
    } else {
        out.append(digit(v));
    }
}

/// Append `v` in decimal.
pub fn push_decimal(out: &mut String, v: u64)
    ensures
        final(out)@ == old(out)@ + decimal_text(v),
{
    push_digits(out, v, 10);
}

/// Append `v` in hexadecimal, with its prefix.
pub fn push_hex(out: &mut String, v: u64)
    ensures
        final(out)@ == old(out)@ + hex_text(v),
{
    out.append("0x");
    push_digits(out, v, 16);
    proof {
        assert(out@ =~= old(out)@ + hex_text(v));
    }
}

} // verus!
