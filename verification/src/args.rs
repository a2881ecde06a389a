//! Numbers as they are given on the command line.

use vstd::prelude::*;
use vstd::string::StrSliceExecFns;

verus! {

/// Whether a character is white space in the sense of Unicode.
pub open spec fn is_white(c: char) -> bool {
    let n = c as u32;
    ||| 0x9 <= n <= 0xd
    ||| n == 0x20
    ||| n == 0x85
    ||| n == 0xa0
    ||| n == 0x1680
    ||| 0x2000 <= n <= 0x200a
    ||| n == 0x2028
    ||| n == 0x2029
    ||| n == 0x202f
    ||| n == 0x205f
    ||| n == 0x3000
}

/// The first place from `i` on, up to `end`, that holds no white space.
pub open spec fn skip_white(s: Seq<char>, i: int, end: int) -> int
    decreases end - i,
{
    if i < end && is_white(s[i]) {
        skip_white(s, i + 1, end)
    } else {
        i
    }
}

/// The end of a text without the white space before it, down to `start`.
pub open spec fn drop_white(s: Seq<char>, start: int, end: int) -> int
    decreases end - start,
{
    if start < end && is_white(s[end - 1]) {
        drop_white(s, start, end - 1)
    } else {
        end
    }
}

/// A text without the white space around it.
pub open spec fn trimmed(s: Seq<char>) -> Seq<char> {
    let start = skip_white(s, 0, s.len() as int);
    s.subrange(start, drop_white(s, start, s.len() as int))
}

/// What is wrong with the text of a number.
#[derive(Debug, Clone, Copy, PartialEq, Eq, Structural)]
pub enum BadNumber {
    Empty,
    InvalidDigit,
    TooLarge,
}

impl BadNumber {
    pub open spec fn spec_text(self) -> Seq<char> {
        match self {
            BadNumber::Empty => "cannot parse integer from empty string"@,
            BadNumber::InvalidDigit => "invalid digit found in string"@,
            BadNumber::TooLarge => "number too large to fit in target type"@,
        }
    }

    pub fn text(&self) -> (r: String)
        ensures
            r@ == self.spec_text(),
    {
        match self {
            BadNumber::Empty => "cannot parse integer from empty string".to_string(),
            BadNumber::InvalidDigit => "invalid digit found in string".to_string(),
            BadNumber::TooLarge => "number too large to fit in target type".to_string(),
        }
    }
}

/// The value of a digit in a base of at most sixteen.
pub open spec fn digit_value(c: char, base: int) -> Option<int> {
    let v = if '0' <= c <= '9' {
        c as int - '0' as int
    } else if 'a' <= c <= 'f' {
        c as int - 'a' as int + 10
    } else if 'A' <= c <= 'F' {
        c as int - 'A' as int + 10
    } else {
        base
    };
    if v < base {
        Some(v)
    } else {
        None
    }
}

/// The number that the digits between two places give, or what is wrong with the first
/// digit that cannot be taken.
pub open spec fn digits_value(s: Seq<char>, from: int, to: int, base: int) -> Result<
    int,
    BadNumber,
>
    decreases to - from,
{
    if to <= from {
        Ok(0)
    } else {
        match digits_value(s, from, to - 1, base) {
            Err(e) => Err(e),
            Ok(v) => match digit_value(s[to - 1], base) {
                None => Err(BadNumber::InvalidDigit),
                Some(d) => if v * base + d > u64::MAX {
                    Err(BadNumber::TooLarge)
                } else {
                    Ok(v * base + d)
                },
            },
        }
    }
}

/// The number that a text gives in a base. A sign may stand before the digits: a plus.
pub open spec fn number_value(s: Seq<char>, base: int) -> Result<int, BadNumber> {
    if s.len() == 0 {
        Err(BadNumber::Empty)
    } else if s.len() == 1 && (s[0] == '+' || s[0] == '-') {
        Err(BadNumber::InvalidDigit)
    } else if s[0] == '+' {
        digits_value(s, 1, s.len() as int, base)
    } else {
        digits_value(s, 0, s.len() as int, base)
    }
}

/// The number that an argument gives: hexadecimal behind `0x`, decimal without.
pub open spec fn argument_value(s: Seq<char>) -> Result<int, BadNumber> {
    let t = trimmed(s);
    if t.len() >= 2 && t[0] == '0' && (t[1] == 'x' || t[1] == 'X') {
        number_value(t.skip(2), 16)
    } else {
        number_value(t, 10)
    }
}

fn white(c: char) -> (r: bool)
    ensures
        r == is_white(c),
{
    let n: u32 = c as u32;
    (0x9 <= n && n <= 0xd) || n == 0x20 || n == 0x85 || n == 0xa0 || n == 0x1680 || (0x2000 <= n
        && n <= 0x200a) || n == 0x2028 || n == 0x2029 || n == 0x202f || n == 0x205f || n == 0x3000
}

fn digit(c: char, base: u64) -> (r: Option<u64>)
    requires
        base <= 16,
    ensures
        match r {
            Some(d) => digit_value(c, base as int) == Some(d as int),
            None => digit_value(c, base as int) is None,
        },
{
    let n: u64 = c as u64;
    let v: u64 = if '0' <= c && c <= '9' {
        n - 0x30
    } else if 'a' <= c && c <= 'f' {
        n - 0x61 + 10
    } else if 'A' <= c && c <= 'F' {
        n - 0x41 + 10
    } else {
        base
    };
    if v < base {
        Some(v)
    } else {
        None
    }
}

/// The number that the digits of a text from a place on give.
fn read_digits(s: &Vec<char>, from: usize, base: u64) -> (r: Result<u64, BadNumber>)
    requires
        from <= s@.len(),
        base <= 16,
    ensures
        match r {
            Ok(v) => digits_value(s@, from as int, s@.len() as int, base as int) == Ok::<
                int,
                BadNumber,
            >(v as int),
            Err(e) => digits_value(s@, from as int, s@.len() as int, base as int) == Err::<
                int,
                BadNumber,
            >(e),
        },
{
    let mut v: u64 = 0;
    let mut i: usize = from;
    while i < s.len()
        invariant
            from <= i <= s@.len(),
            base <= 16,
            digits_value(s@, from as int, i as int, base as int) == Ok::<int, BadNumber>(v as int),
        decreases s@.len() - i,
    {
        let d: u64 = match digit(s[i], base) {
            Some(d) => d,
            None => {
                proof {
                    lemma_stuck(s@, from as int, i + 1, s@.len() as int, base as int);
                }
                return Err(BadNumber::InvalidDigit);
            },
        };
        proof {
            assert(v * base <= u64::MAX * 16) by (nonlinear_arith)
                requires
                    v <= u64::MAX,
                    base <= 16,
            ;
        }
        let wide: u128 = v as u128 * base as u128 + d as u128;
        if wide > u64::MAX as u128 {
            proof {
                lemma_stuck(s@, from as int, i + 1, s@.len() as int, base as int);
            }
            return Err(BadNumber::TooLarge);
        }
        v = wide as u64;
        i = i + 1;
    }
    Ok(v)
}

/// What is wrong with the first digits is wrong with all of them.
proof fn lemma_stuck(s: Seq<char>, from: int, k: int, to: int, base: int)
    requires
        from <= k <= to,
        digits_value(s, from, k, base) is Err,
    ensures
        digits_value(s, from, to, base) == digits_value(s, from, k, base),
    decreases to - k,
{
    if k < to {
        lemma_stuck(s, from, k, to - 1, base);
    }
}

/// The number that a text gives in a base.
fn read_number(s: &Vec<char>, base: u64) -> (r: Result<u64, BadNumber>)
    requires
        base <= 16,
    ensures
        match r {
            Ok(v) => number_value(s@, base as int) == Ok::<int, BadNumber>(v as int),
            Err(e) => number_value(s@, base as int) == Err::<int, BadNumber>(e),
        },
{
    if s.len() == 0 {
        return Err(BadNumber::Empty);
    }
    if s.len() == 1 && (s[0] == '+' || s[0] == '-') {
        return Err(BadNumber::InvalidDigit);
    }
    if s[0] == '+' {
        read_digits(s, 1, base)
    } else {
        read_digits(s, 0, base)
    }
}

/// The characters of a text without the white space around it.
fn trim(s: &str) -> (r: Vec<char>)
    ensures
        r@ == trimmed(s@),
{
    let len: usize = s.unicode_len();
    let mut start: usize = 0;
    while start < len && white(s.get_char(start))
        invariant
            len == s@.len(),
            start <= len,
            skip_white(s@, 0, len as int) == skip_white(s@, start as int, len as int),
        decreases len - start,
    {
        start = start + 1;
    }
    let mut end: usize = len;
    while end > start && white(s.get_char(end - 1))
        invariant
            len == s@.len(),
            start <= end <= len,
            drop_white(s@, start as int, len as int) == drop_white(s@, start as int, end as int),
        decreases end,
    {
        end = end - 1;
    }
    let mut out: Vec<char> = Vec::new();
    let mut i: usize = start;
    while i < end
        invariant
            start <= i <= end <= len,
            len == s@.len(),
            out@ == s@.subrange(start as int, i as int),
        decreases end - i,
    {
        out.push(s.get_char(i));
        i = i + 1;
        proof {
            assert(out@ =~= s@.subrange(start as int, i as int));
        }
    }
    out
}

/// Reads a number: hexadecimal behind `0x`, decimal without. White space around it is
/// skipped.
pub fn parse_u64(s: &str) -> (r: Result<u64, String>)
    ensures
        match r {
            Ok(v) => argument_value(s@) == Ok::<int, BadNumber>(v as int),
            Err(text) => argument_value(s@) is Err && text@ == (argument_value(
                s@,
            )->Err_0).spec_text(),
        },
{
    let t = trim(s);
    let n = if t.len() >= 2 && t[0] == '0' && (t[1] == 'x' || t[1] == 'X') {
        let mut rest: Vec<char> = Vec::new();
        let mut i: usize = 2;
        while i < t.len()
            invariant
                2 <= i <= t@.len(),
                rest@ == t@.subrange(2, i as int),
            decreases t@.len() - i,
        {
            rest.push(t[i]);
            i = i + 1;
            proof {
                assert(rest@ =~= t@.subrange(2, i as int));
            }
        }
        proof {
            assert(rest@ =~= t@.skip(2));
        }
        read_number(&rest, 16)
    } else {
        read_number(&t, 10)
    };
    match n {
        Ok(v) => Ok(v),
        Err(e) => Err(e.text()),
    }
}

} // verus!
