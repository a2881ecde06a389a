//! Numbers that are written out are read back.

use crate::args::{
    argument_value, digit_value, digits_value, drop_white, is_white, skip_white, trimmed,
    BadNumber,
};
use crate::ir::text::{decimal_text, digit_text, digits_text, hex_text};
use vstd::prelude::*;

verus! {

/// Whether a character is neither white space, a sign nor the mark of a base.
pub open spec fn is_figure(c: char) -> bool {
    !is_white(c) && c != '+' && c != '-' && c != 'x' && c != 'X'
}

proof fn lemma_digit(d: u64, base: u64)
    requires
        base == 10 || base == 16,
        d < base,
    ensures
        digit_text(d).len() == 1,
        digit_value(digit_text(d)[0], base as int) == Some(d as int),
        is_figure(digit_text(d)[0]),
{
    reveal_strlit("0");
    reveal_strlit("1");
    reveal_strlit("2");
    reveal_strlit("3");
    reveal_strlit("4");
    reveal_strlit("5");
    reveal_strlit("6");
    reveal_strlit("7");
    reveal_strlit("8");
    reveal_strlit("9");
    reveal_strlit("a");
    reveal_strlit("b");
    reveal_strlit("c");
    reveal_strlit("d");
    reveal_strlit("e");
    reveal_strlit("f");
}

proof fn lemma_same_digits(s: Seq<char>, t: Seq<char>, to: int, base: int)
    requires
        0 <= to <= s.len(),
        to <= t.len(),
        forall|i: int| 0 <= i < to ==> #[trigger] s[i] == t[i],
    ensures
        digits_value(s, 0, to, base) == digits_value(t, 0, to, base),
    decreases to,
{
    if to > 0 {
        lemma_same_digits(s, t, to - 1, base);
        assert(s[to - 1] == t[to - 1]);
    }
}

proof fn lemma_digits(v: u64, base: u64)
    requires
        base == 10 || base == 16,
    ensures
        digits_text(v, base).len() >= 1,
        digits_value(digits_text(v, base), 0, digits_text(v, base).len() as int, base as int) == Ok::<
            int,
            BadNumber,
        >(v as int),
        forall|i: int|
            0 <= i < digits_text(v, base).len() ==> is_figure(#[trigger] digits_text(v, base)[i]),
    decreases v,
{
    let s = digits_text(v, base);
    let b = base as int;
    if v < base {
        lemma_digit(v, base);
        assert(s == digit_text(v));
        reveal_with_fuel(digits_value, 2);
    } else {
        let q = (v / base) as u64;
        let d = (v % base) as u64;
        assert(v / base < v) by (nonlinear_arith)
            requires
                base >= 2,
                v >= base,
        ;
        lemma_digits(q, base);
        lemma_digit(d, base);
        let t = digits_text(q, base);
        assert(s == t + digit_text(d));
        let n = t.len() as int;
        assert(s.len() == n + 1);
        assert(s[n] == digit_text(d)[0]);
        assert forall|i: int| 0 <= i < n implies #[trigger] s[i] == t[i] by {}
        lemma_same_digits(s, t, n, b);
        assert(q * b + d == v) by (nonlinear_arith)
            requires
                q == v / base,
                d == v % base,
                b == base,
                base > 0,
        ;
        assert forall|i: int| 0 <= i < s.len() implies is_figure(#[trigger] s[i]) by {
            if i < n {
                assert(is_figure(t[i]));
            }
        }
    }
}

proof fn lemma_untrimmed(s: Seq<char>)
    requires
        s.len() > 0,
        !is_white(s[0]),
        !is_white(s[s.len() - 1]),
    ensures
        trimmed(s) == s,
{
    assert(s.subrange(0, s.len() as int) =~= s);
}

/// A number written in decimal, or in hexadecimal with its prefix, is read back.
pub proof fn written_numbers_are_read_back(v: u64)
    ensures
        argument_value(decimal_text(v)) == Ok::<int, BadNumber>(v as int),
        argument_value(hex_text(v)) == Ok::<int, BadNumber>(v as int),
{
    lemma_digits(v, 10);
    lemma_digits(v, 16);
    let s = decimal_text(v);
    assert(is_figure(s[0]) && is_figure(s[s.len() - 1]));
    lemma_untrimmed(s);
    if s.len() >= 2 {
        assert(is_figure(s[1]));
    }
    reveal_strlit("0x");
    let d = digits_text(v, 16);
    let h = hex_text(v);
    assert(h[0] == '0' && h[1] == 'x');
    assert(is_figure(d[0]) && is_figure(d[d.len() - 1]));
    assert(h[h.len() - 1] == d[d.len() - 1]);
    assert(!is_white('0'));
    lemma_untrimmed(h);
    assert(h.skip(2) =~= d);
}

/// Whether a text is white space only.
pub open spec fn is_blank(s: Seq<char>) -> bool {
    forall|i: int| 0 <= i < s.len() ==> is_white(#[trigger] s[i])
}

proof fn lemma_skipped(s: Seq<char>, i: int, end: int)
    requires
        0 <= i <= end <= s.len(),
    ensures
        i <= skip_white(s, i, end) <= end,
        forall|k: int| i <= k < skip_white(s, i, end) ==> is_white(#[trigger] s[k]),
        skip_white(s, i, end) < end ==> !is_white(s[skip_white(s, i, end)]),
    decreases end - i,
{
    if i < end && is_white(s[i]) {
        lemma_skipped(s, i + 1, end);
    }
}

proof fn lemma_dropped(s: Seq<char>, start: int, end: int)
    requires
        0 <= start <= end <= s.len(),
    ensures
        start <= drop_white(s, start, end) <= end,
        forall|k: int| drop_white(s, start, end) <= k < end ==> is_white(#[trigger] s[k]),
        start < drop_white(s, start, end) ==> !is_white(s[drop_white(s, start, end) - 1]),
    decreases end - start,
{
    if start < end && is_white(s[end - 1]) {
        lemma_dropped(s, start, end - 1);
    }
}

/// Trimming takes the white space around a text, all of it and nothing else.
pub proof fn only_white_space_is_trimmed(s: Seq<char>) -> (parts: (Seq<char>, Seq<char>))
    ensures
        s == parts.0 + trimmed(s) + parts.1,
        is_blank(parts.0),
        is_blank(parts.1),
        trimmed(s).len() > 0 ==> !is_white(trimmed(s)[0]) && !is_white(
            trimmed(s)[trimmed(s).len() - 1],
        ),
{
    let n = s.len() as int;
    let a = skip_white(s, 0, n);
    lemma_skipped(s, 0, n);
    let b = drop_white(s, a, n);
    lemma_dropped(s, a, n);
    assert(s =~= s.subrange(0, a) + s.subrange(a, b) + s.subrange(b, n));
    (s.subrange(0, a), s.subrange(b, n))
}

/// A text that holds anything but figures of its base is not a number.
pub proof fn what_is_no_figure_is_refused(s: Seq<char>, i: int)
    requires
        0 <= i < s.len(),
        s.len() >= 2,
        s[0] != '+',
        digit_value(s[i], 10) is None,
        trimmed(s) == s,
        !(s[0] == '0' && (s[1] == 'x' || s[1] == 'X')),
    ensures
        argument_value(s) is Err,
{
    lemma_refused(s, 0, s.len() as int, 10, i);
}

proof fn lemma_refused(s: Seq<char>, from: int, to: int, base: int, i: int)
    requires
        0 <= from <= i < to <= s.len(),
        digit_value(s[i], base) is None,
    ensures
        digits_value(s, from, to, base) is Err,
    decreases to,
{
    if i < to - 1 {
        lemma_refused(s, from, to - 1, base, i);
    }
}

} // verus!
