//! Machine words read as integers.

use crate::ir::fold::{is_mask, sign_extend_spec, wadd, wsub};
use crate::ir::value::Width;
use vstd::prelude::*;

verus! {

/// How many values a word of a width has: two to the number of its bits.
pub open spec fn range_of_bits(w: Width) -> int {
    match w {
        Width::W8 => 0x100,
        Width::W16 => 0x1_0000,
        Width::W32 => 0x1_0000_0000,
        Width::W64 => 0x1_0000_0000_0000_0000,
    }
}

/// A word read as a two's complement number.
pub open spec fn as_signed(x: int, w: Width) -> int {
    if 2 * x >= range_of_bits(w) {
        x - range_of_bits(w)
    } else {
        x
    }
}

proof fn lemma_words(x: u64, y: u64, r: u64, m: u64)
    by (bit_vector)
    requires
        is_mask(m),
        x <= m,
        y <= m,
        r <= m,
    ensures
        x + y <= m ==> wadd(x, y) & m == x + y,
        x + y > m ==> wadd(x, y) & m == x + y - m - 1,
        y <= x ==> wsub(x, y) & m == x - y,
        y > x ==> wsub(x, y) & m == x + m + 1 - y,
        x & ((m >> 1) + 1) as u64 != 0 <==> x > m >> 1,
        x | !m == x + (0xffff_ffff_ffff_ffff - m),
        x & m == x,
        m >> 1 == m / 2,
        ((x ^ r) & (y ^ r)) & ((m >> 1) + 1) as u64 == ((m >> 1) + 1) as u64 <==> ((x > m >> 1)
            != (r > m >> 1) && (y > m >> 1) != (r > m >> 1)),
        ((x ^ y) & (x ^ r)) & ((m >> 1) + 1) as u64 == ((m >> 1) + 1) as u64 <==> ((x > m >> 1)
            != (y > m >> 1) && (x > m >> 1) != (r > m >> 1)),
        x & ((m >> 1) + 1) as u64 == ((m >> 1) + 1) as u64 <==> x > m >> 1,
        x & y <= m,
        x | y <= m,
        x ^ y <= m,
        x <= 1 && y <= 1 ==> x ^ 1 == 1 - x,
        x <= 1 && y <= 1 ==> (x ^ y == 1 <==> x != y) && x ^ y <= 1,
        x <= 1 && y <= 1 ==> (x | y == 1 <==> x == 1 || y == 1) && x | y <= 1,
        y < 63 ==> x << ((y + 1) as u64) == wadd(x << y, x << y),
        x << 0u64 == x,
        r == wadd(x, y) & m ==> (((x ^ y) ^ r) & 0x10 == 0x10 <==> x % 16 + y % 16 >= 16),
        r == wadd(x, wadd(y, 1) & m) & m ==> (((x ^ y) ^ r) & 0x10 == 0x10 <==> x % 16 + y % 16 + 1
            >= 16),
        r == wsub(x, y) & m ==> (((x ^ y) ^ r) & 0x10 == 0x10 <==> x % 16 < y % 16),
        r == wsub(x, wadd(y, 1) & m) & m ==> (((x ^ y) ^ r) & 0x10 == 0x10 <==> x % 16 < y % 16
            + 1),
{
}

/// The bit behind the lowest four tells a carry out of them, or a borrow.
pub proof fn lemma_half_carry(x: u64, y: u64, r: u64, w: Width)
    requires
        x <= w.mask(),
        y <= w.mask(),
        r <= w.mask(),
    ensures
        r == wadd(x, y) & w.mask() ==> (((x ^ y) ^ r) & 0x10 == 0x10 <==> x % 16 + y % 16 >= 16),
        r == wadd(x, wadd(y, 1) & w.mask()) & w.mask() ==> (((x ^ y) ^ r) & 0x10 == 0x10 <==> x % 16
            + y % 16 + 1 >= 16),
        r == wsub(x, y) & w.mask() ==> (((x ^ y) ^ r) & 0x10 == 0x10 <==> x % 16 < y % 16),
        r == wsub(x, wadd(y, 1) & w.mask()) & w.mask() ==> (((x ^ y) ^ r) & 0x10 == 0x10 <==> x % 16
            < y % 16 + 1),
{
    lemma_words(x, y, r, w.mask());
}

/// How many of the lowest `n` binary digits of a number are set.
pub open spec fn digits_set(x: int, n: nat) -> int
    decreases n,
{
    if n == 0 {
        0
    } else {
        x % 2 + digits_set(x / 2, (n - 1) as nat)
    }
}

proof fn lemma_digit_at(x: u64, i: u64)
    requires
        i < 64,
    ensures
        (x >> i) & 1 == (x as int / vstd::arithmetic::power2::pow2(i as nat) as int) % 2,
{
    vstd::bits::lemma_u64_shr_is_div(x, i);
    vstd::bits::lemma_u64_low_bits_mask_is_mod(x >> i, 1);
    vstd::bits::lemma_low_bits_mask_values();
    vstd::arithmetic::power2::lemma2_to64();
}

/// The parity of a byte is that of the number of its digits that are set.
pub proof fn lemma_parity(x: u64)
    ensures
        crate::ir::flags::parity_flag(x) == if digits_set(x as int % 0x100, 8) % 2 == 0 {
            1int
        } else {
            0
        },
{
    let v = x & 0xff;
    lemma_cut(x, Width::W8);
    lemma_digit_at(v, 0);
    lemma_digit_at(v, 1);
    lemma_digit_at(v, 2);
    lemma_digit_at(v, 3);
    lemma_digit_at(v, 4);
    lemma_digit_at(v, 5);
    lemma_digit_at(v, 6);
    lemma_digit_at(v, 7);
    vstd::arithmetic::power2::lemma2_to64();
    reveal_with_fuel(digits_set, 9);
    let b = v as int;
    assert(v >> 0u64 == v) by {
        lemma_parts(v, v, 0xff, 0);
    }
    assert(b / 2 / 2 == b / 4);
    assert(b / 2 / 2 / 2 == b / 8);
    assert(b / 2 / 2 / 2 / 2 == b / 16);
    assert(b / 2 / 2 / 2 / 2 / 2 == b / 32);
    assert(b / 2 / 2 / 2 / 2 / 2 / 2 == b / 64);
    assert(b / 2 / 2 / 2 / 2 / 2 / 2 / 2 == b / 128);
}

/// Sums wrap around.
pub proof fn lemma_sum(x: u64, y: u64, w: Width)
    requires
        x <= w.mask(),
        y <= w.mask(),
    ensures
        wadd(x, y) & w.mask() == (x + y) % range_of_bits(w),
{
    lemma_words(x, y, 0, w.mask());
    let n = range_of_bits(w);
    if x + y < n {
        vstd::arithmetic::div_mod::lemma_small_mod((x + y) as nat, n as nat);
    } else {
        vstd::arithmetic::div_mod::lemma_mod_add_multiples_vanish(x + y - n, n);
        vstd::arithmetic::div_mod::lemma_small_mod((x + y - n) as nat, n as nat);
    }
}

/// Differences wrap around.
pub proof fn lemma_difference(x: u64, y: u64, w: Width)
    requires
        x <= w.mask(),
        y <= w.mask(),
    ensures
        wsub(x, y) & w.mask() == (x - y) % range_of_bits(w),
{
    lemma_words(x, y, 0, w.mask());
    let n = range_of_bits(w);
    if y <= x {
        vstd::arithmetic::div_mod::lemma_small_mod((x - y) as nat, n as nat);
    } else {
        vstd::arithmetic::div_mod::lemma_mod_add_multiples_vanish(x - y, n);
        vstd::arithmetic::div_mod::lemma_small_mod((x - y + n) as nat, n as nat);
    }
}

/// Extending the sign keeps the signed number.
pub proof fn lemma_extended(x: u64, w: Width)
    requires
        x <= w.mask(),
    ensures
        as_signed(sign_extend_spec(x, w) as int, Width::W64) == as_signed(x as int, w),
        sign_extend_spec(x, w) == as_signed(x as int, w) % range_of_bits(Width::W64),
{
    let m = w.mask();
    lemma_words(x, 0, 0, m);
    assert(w.sign_bit() == (m >> 1) + 1);
    let n = range_of_bits(Width::W64);
    let s = as_signed(x as int, w);
    if x > m >> 1 {
        vstd::arithmetic::div_mod::lemma_mod_add_multiples_vanish(s, n);
        vstd::arithmetic::div_mod::lemma_small_mod((s + n) as nat, n as nat);
    } else {
        vstd::arithmetic::div_mod::lemma_small_mod(s as nat, n as nat);
    }
}

/// Cutting a word keeps its number up to the width's range.
pub proof fn lemma_cut(x: u64, w: Width)
    ensures
        x & w.mask() == x as int % range_of_bits(w),
{
    lemma_part_read(x, 0, w);
}

/// Sums of whole words wrap around.
pub proof fn lemma_wide(x: u64, y: u64)
    ensures
        wadd(x, y) == (x + y) % range_of_bits(Width::W64),
{
    lemma_sum(x, y, Width::W64);
    crate::ir::fold::lemma_mask(wadd(x, y), 0xffff_ffff_ffff_ffff);
}

/// Shifting up by one more place doubles.
pub proof fn lemma_doubled(x: u64, k: u64)
    requires
        k < 63,
    ensures
        x << ((k + 1) as u64) == wadd(x << k, x << k),
        x << 0u64 == x,
{
    lemma_words(x, k, 0, 0xffff_ffff_ffff_ffff);
}

/// Bitwise operators on flags.
pub proof fn lemma_flag_bits(x: u64, y: u64)
    requires
        x <= 1,
        y <= 1,
    ensures
        x ^ 1 == 1 - x,
        x ^ y == 1 <==> x != y,
        x ^ y <= 1,
        x | y == 1 <==> x == 1 || y == 1,
        x | y <= 1,
{
    lemma_words(x, y, 0, 0xff);
}

/// The sign bit is set where the number is negative.
pub proof fn lemma_negative(x: u64, w: Width)
    requires
        x <= w.mask(),
    ensures
        x & w.sign_bit() == w.sign_bit() <==> as_signed(x as int, w) < 0,
{
    lemma_words(x, 0, 0, w.mask());
    assert(w.sign_bit() == (w.mask() >> 1) + 1);
}

/// Bitwise results fit.
pub proof fn lemma_bits_fit(x: u64, y: u64, w: Width)
    requires
        x <= w.mask(),
        y <= w.mask(),
    ensures
        x & y <= w.mask(),
        x | y <= w.mask(),
        x ^ y <= w.mask(),
{
    lemma_words(x, y, 0, w.mask());
}

/// A sum, with what is carried in, overflows where its sign is neither operand's.
pub proof fn lemma_sum_overflows(x: u64, y: u64, c: int, r: u64, w: Width)
    requires
        x <= w.mask(),
        y <= w.mask(),
        0 <= c <= 1,
        r == (x + y + c) % range_of_bits(w),
    ensures
        ((x ^ r) & (y ^ r)) & w.sign_bit() == w.sign_bit() <==> as_signed(r as int, w) != as_signed(
            x as int,
            w,
        ) + as_signed(y as int, w) + c,
{
    let n = range_of_bits(w);
    let v = x + y + c;
    if v < n {
        vstd::arithmetic::div_mod::lemma_small_mod(v as nat, n as nat);
    } else {
        vstd::arithmetic::div_mod::lemma_mod_add_multiples_vanish(v - n, n);
        vstd::arithmetic::div_mod::lemma_small_mod((v - n) as nat, n as nat);
    }
    lemma_words(x, y, r, w.mask());
    assert(w.sign_bit() == (w.mask() >> 1) + 1);
}

/// A difference, with what is borrowed, overflows where the operands differ in sign, and the
/// result from the first.
pub proof fn lemma_difference_overflows(x: u64, y: u64, c: int, r: u64, w: Width)
    requires
        x <= w.mask(),
        y <= w.mask(),
        0 <= c <= 1,
        r == (x - y - c) % range_of_bits(w),
    ensures
        ((x ^ y) & (x ^ r)) & w.sign_bit() == w.sign_bit() <==> as_signed(r as int, w) != as_signed(
            x as int,
            w,
        ) - as_signed(y as int, w) - c,
{
    let n = range_of_bits(w);
    let v = x - y - c;
    if v >= 0 {
        vstd::arithmetic::div_mod::lemma_small_mod(v as nat, n as nat);
    } else {
        vstd::arithmetic::div_mod::lemma_mod_add_multiples_vanish(v, n);
        vstd::arithmetic::div_mod::lemma_small_mod((v + n) as nat, n as nat);
    }
    lemma_words(x, y, r, w.mask());
    assert(w.sign_bit() == (w.mask() >> 1) + 1);
}

proof fn lemma_parts(x: u64, v: u64, m: u64, s: u64)
    by (bit_vector)
    requires
        (m == 0xff && (s == 0 || s == 8)) || (m == 0xffff && s == 0),
    ensures
        (((x & !(m << s)) | ((v & m) << s)) >> s) & m == v & m,
        ((x & !(m << s)) | ((v & m) << s)) & !(m << s) == x & !(m << s),
        m == 0xff && s == 8 ==> ((x & !(m << s)) | ((v & m) << s)) & 0xff == x & 0xff,
        x & 0xff == x % 0x100,
        x & 0xffff == x % 0x1_0000,
        x & 0xffff_ffff == x % 0x1_0000_0000,
        x & 0xffff_ffff_ffff_ffff == x,
        (x >> 8) & 0xff == (x / 0x100) % 0x100,
        ((x & !(m << s)) | ((v & m) << s)) >> 16 == x >> 16,
        x >> 16 == x / 0x1_0000,
        x >> 0u64 == x,
        v << 0u64 == v,
        x <= 0xff && v <= 0xff ==> v | ((x << 8) & 0xffff) == v + 0x100 * x,
        x <= 0xffff && v <= 0xffff ==> ((x << 16) & 0xffff_ffff) | v == v + 0x1_0000 * x,
        x <= 0xffff_ffff && v <= 0xffff_ffff ==> ((x << 32) & 0xffff_ffff_ffff_ffff) | v == v
            + 0x1_0000_0000 * x,
{
}

/// Two halves side by side.
pub proof fn lemma_joined(x: u64, v: u64)
    ensures
        x <= 0xff && v <= 0xff ==> v | ((x << 8) & 0xffff) == v + 0x100 * x,
        x <= 0xffff && v <= 0xffff ==> ((x << 16) & 0xffff_ffff) | v == v + 0x1_0000 * x,
        x <= 0xffff_ffff && v <= 0xffff_ffff ==> ((x << 32) & 0xffff_ffff_ffff_ffff) | v == v
            + 0x1_0000_0000 * x,
{
    lemma_parts(x, v, 0xff, 0);
}

/// What a part of a register holds.
pub open spec fn part_of(full: int, high: bool, w: Width) -> int {
    if high {
        (full / 0x100) % 0x100
    } else {
        full % range_of_bits(w)
    }
}

/// Reading a part of a register.
pub proof fn lemma_part_read(full: u64, offset: u32, w: Width)
    requires
        offset == 0 || (offset == 1 && w == Width::W8),
    ensures
        crate::ir::machine::part_value(full, offset, w) == part_of(full as int, offset == 1, w),
        crate::ir::machine::part_value(full, offset, w) <= w.mask(),
{
    lemma_parts(full, 0, 0xff, 0);
    crate::ir::fold::lemma_mask(full, w.mask());
    crate::ir::fold::lemma_mask(full >> 8, w.mask());
}

/// Writing a part of a register and reading it back. A write of 32 bits clears the rest of the
/// register, and a narrower one keeps it.
pub proof fn lemma_part_written(full: u64, offset: u32, w: Width, v: u64)
    requires
        offset == 0 || (offset == 1 && w == Width::W8),
        v <= w.mask(),
    ensures
        part_of(
            crate::ir::machine::merged_value(full, offset, w, v) as int,
            offset == 1,
            w,
        ) == v,
        w == Width::W32 || w == Width::W64 ==> crate::ir::machine::merged_value(full, offset, w, v)
            == v,
        w == Width::W8 || w == Width::W16 ==> crate::ir::machine::merged_value(full, offset, w, v)
            as int / 0x1_0000 == full as int / 0x1_0000,
        offset == 1 ==> crate::ir::machine::merged_value(full, offset, w, v) as int % 0x100
            == full as int % 0x100,
{
    crate::ir::fold::lemma_mask(v, w.mask());
    let r = crate::ir::machine::merged_value(full, offset, w, v);
    let s = (8 * offset) as u64;
    if w == Width::W8 || w == Width::W16 {
        lemma_parts(full, v, w.mask(), s);
        lemma_parts(r, v, w.mask(), s);
    }
    lemma_part_read(r, offset, w);
}

} // verus!
