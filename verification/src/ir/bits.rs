//! Identities of machine words that the rewrite rules rest on.

use crate::ir::fold::{is_mask, sign_extend_spec, wadd, wmul, wsub};
use crate::ir::value::Width;
use vstd::prelude::*;

verus! {

/// Sums and differences that never carry or borrow, or that carry alike.
proof fn lemma_carries(x: u64, y: u64)
    by (bit_vector)
    ensures
        wadd(x | y, x & y) == wadd(x, y),
        wadd(x ^ y, x & y) == x | y,
        x & y == 0 ==> wadd(x, y) == x | y,
        wsub(x, x & y) == x & !y,
        wadd(x, y) == wadd(y, x),
        ((x ^ y) | y) & x == x,
        ((x | y) ^ x) & x == 0,
        ((x | y) ^ x) | x == x | y,
        (x | y) & (x & y) == x & y,
        (x | y) & !(x & y) == x ^ y,
        (x & y) ^ x == x & !y,
        x & !(x & !y) == x & y,
{
}

/// Differences undo sums at any width.
proof fn lemma_wraps(x: u64, y: u64, m: u64)
    by (bit_vector)
    requires
        is_mask(m),
        x <= m,
        y <= m,
    ensures
        wadd(x, 0) & m == x,
        wsub(x, 0) & m == x,
        wsub(x, x) & m == 0,
        wadd(x, wsub(0, x) & m) & m == 0,
        wadd(x, !x & m) & m == m,
        wsub(wadd(x, y) & m, x) & m == y,
        wsub(x, wsub(x, y) & m) & m == y,
        wadd(x, wsub(0, y) & m) & m == wsub(x, y) & m,
        (x | y) & m == x | y,
        (x ^ y) & m == x ^ y,
        (x & y) & m == x & y,
        (x & !y) & m == x & (!y & m),
{
}

/// Sums and differences of values that fit in a mask.
pub proof fn lemma_sums(x: u64, y: u64, m: u64)
    requires
        is_mask(m),
        x <= m,
        y <= m,
    ensures
        wadd(x, 0) & m == x,
        wsub(x, 0) & m == x,
        wsub(x, x) & m == 0,
        wadd(x, wsub(0, x) & m) & m == 0,
        wadd(x, !x & m) & m == m,
        wadd(!x & m, x) & m == m,
        wadd(x | y, x & y) & m == wadd(x, y) & m,
        wadd(x & y, x | y) & m == wadd(x, y) & m,
        wadd(x ^ y, x & y) & m == x | y,
        wadd(x & y, x ^ y) & m == x | y,
        wadd((x | y) ^ x, x) & m == x | y,
        wadd(((x ^ y) | y) & x, y) & m == wadd(x, y) & m,
        x & y == 0 ==> wadd(x, y) & m == x | y,
        wsub(x | y, x & y) & m == x ^ y,
        wsub(wadd(x, y) & m, x) & m == y,
        wsub(wadd(x, y) & m, y) & m == x,
        wsub(x, x & y) & m == x & (!y & m),
        wsub(x, wsub(x, y) & m) & m == y,
        wsub(x, (x & y) ^ x) & m == x & y,
        wadd(x, wsub(0, y) & m) & m == wsub(x, y) & m,
        wadd(x, y) == wadd(y, x),
{
    lemma_carries(x, y);
    lemma_carries((x | y) ^ x, x);
    lemma_carries(x | y, x & y);
    lemma_carries(x, !y);
    lemma_wraps(x, y, m);
    lemma_wraps(y, x, m);
    lemma_carries(x, x & y);
    lemma_bitwise(x, y, x);
    lemma_bitwise(x | y, x & y, x);
    lemma_bitwise(x, x & !y, x);
    lemma_carries(x, x & !y);
}

/// Constants gathered out of nested sums.
pub proof fn lemma_nested_sum(x: u64, c1: u64, c2: u64, m: u64)
    by (bit_vector)
    requires
        is_mask(m),
    ensures
        wadd(x, wadd(c1, c2) & m) & m == wadd(wadd(x, c1) & m, c2) & m,
{
}

/// Bitwise identities that no width takes part in.
pub proof fn lemma_bitwise(x: u64, y: u64, z: u64)
    by (bit_vector)
    ensures
        x & x == x,
        x | x == x,
        x ^ x == 0,
        x & 0 == 0,
        x | 0 == x,
        x ^ 0 == x,
        x & y == y & x,
        x | y == y | x,
        x ^ y == y ^ x,
        (x | y) & x == x,
        (x & y) & x == x & y,
        x | (x ^ y) == x | y,
        (x & y) | x == x,
        (x | y) | x == x | y,
        (x & y) ^ (x | y) == x ^ y,
        (x & y) ^ (x ^ y) == x | y,
        (x & z) ^ (y & z) == (x ^ y) & z,
        (x & y) | (x & z) == x & (y | z),
        x | ((x & z) | y) == x | y,
        ((x | y) ^ y) | x == x,
        (x ^ y) ^ y == x,
        (x & y) & z == x & (y & z),
        (x | y) | z == x | (y | z),
        (x ^ y) ^ z == x ^ (y ^ z),
        (x ^ z) | z == x | z,
        x & z == 0 ==> (x | y) & z == y & z,
        y & z == z ==> (x | y) ^ z == (x & !y) ^ (y ^ z),
        y & z == y ==> (x | y) ^ z == (x & !y) ^ (y ^ z),
        x & y == y ==> y & x == y,
        x & y == x && y & z == 0 ==> x & z == 0,
        (x | y) & z == (x & z) | (y & z),
{
}

/// Identities that take a complement at the width of `m`.
pub proof fn lemma_complement(x: u64, y: u64, m: u64)
    by (bit_vector)
    requires
        is_mask(m),
    ensures
        x <= m ==> x & (x ^ y) == x & (!y & m),
        y <= m ==> x ^ (x | y) == (!x & m) & y,
        x <= m ==> x ^ (x & y) == x & (!y & m),
        x <= m ==> x ^ m == !x & m,
        x <= m ==> x | (!x & m) == m,
        x & (!x & m) == 0,
        x <= m ==> x ^ (!x & m) == m,
        y <= m ==> x | ((!x & m) & y) == x | y,
        x & ((!x & m) | y) == x & y,
        !(x | y) & m == (!x & m) & (!y & m),
        !(x & y) & m == (!x & m) | (!y & m),
        x <= m ==> (x & y) | (x & (!y & m)) == x,
        x <= m ==> !(!x & m) & m == x,
        x <= m ==> x & m == x,
        x <= m ==> x | m == m,
        x <= m && y <= m ==> (!x & m == y <==> !y & m == x),
{
}

/// What known bits let a bitwise operator drop.
pub proof fn lemma_known_rules(x: u64, y: u64, zx: u64, zy: u64, oy: u64, c: u64, m: u64)
    by (bit_vector)
    requires
        is_mask(m),
        x <= m,
        x & zx == 0,
        y & zy == 0,
        y & oy == oy,
    ensures
        !zx & !zy & m == 0 ==> x & y == 0,
        (oy | zx) & m == m ==> y & x == x,
        !zx & !oy & m == 0 ==> x | y == y,
        zx & c == c ==> x & c == 0,
        (!zx & m) & !c == 0 ==> x & c == x,
        oy & c == c ==> y & c == c,
{
}

/// A flipped and complemented bit is the bit again, where the mask selects it.
pub proof fn lemma_flip_back(x: u64, c1: u64, c2: u64, m: u64)
    by (bit_vector)
    requires
        c1 <= m,
        is_mask(m),
        c2 & c1 == c2,
    ensures
        (!(x ^ c1) & m) & c2 == x & c2,
{
}

/// Single bits through the operators that move or keep them.
pub proof fn lemma_bit(x: u64, y: u64, k: u64, s: u64, m: u64, mn: u64)
    by (bit_vector)
    requires
        k < 64,
        s < 64,
        is_mask(m),
        is_mask(mn),
    ensures
        (x >> k) & 1 <= 1,
        x & (1u64 << k) == 0 ==> (x >> k) & 1 == 0,
        x & !1u64 == 0 ==> (x >> 0u64) & 1 == x,
        x & !1u64 == 0 ==> x <= 1,
        x & (1u64 << k) == 0 ==> ((x | y) >> k) & 1 == (y >> k) & 1,
        y & (1u64 << k) == 0 ==> ((x | y) >> k) & 1 == (x >> k) & 1,
        s <= k && (1u64 << k) <= m ==> (((x << s) & m) >> k) & 1 == (x >> ((k - s) as u64)) & 1,
        k + s < 64 ==> ((x >> s) >> k) & 1 == (x >> ((k + s) as u64)) & 1,
        y & (1u64 << k) != 0 ==> ((x & y) >> k) & 1 == (x >> k) & 1,
        (1u64 << k) <= m ==> ((x & m) >> k) & 1 == (x >> k) & 1,
        y & (1u64 << k) == 0 ==> ((x & y) >> k) & 1 == 0,
        !m & (1u64 << k) == (1u64 << k) || (1u64 << k) <= m,
        x <= m && m <= mn ==> x <= mn,
        (x >> 0u64) & 1 == x & 1,
{
}

/// Low bits survive truncation in every operator that computes them from low bits.
pub proof fn lemma_truncated(x: u64, y: u64, m: u64, t: u64)
    by (bit_vector)
    requires
        is_mask(m),
        is_mask(t),
        t <= m,
    ensures
        (x & m) & t == x & t,
        (x & t) & m == x & t,
        (x & y) & t == (x & t) & (y & t),
        (x | y) & t == (x & t) | (y & t),
        (x ^ y) & t == (x & t) ^ (y & t),
        (wadd(x, y) & m) & t == wadd(x & t, y & t) & t,
        (wsub(x, y) & m) & t == wsub(x & t, y & t) & t,
        (!x & m) & t == !(x & t) & t,
        (wsub(0, x) & m) & t == wsub(0, x & t) & t,
        y & t == t ==> (x & y) & t == x & t,
        (x | !m) & t == x & t,
        ((x & m) | !m) & t == x & t,
{
}

/// Low bits of a product depend only on low bits of its factors.
pub proof fn lemma_truncated_product(x: u64, y: u64, m: u64, t: u64)
    requires
        is_mask(m),
        is_mask(t),
        t <= m,
    ensures
        (wmul(x, y) & m) & t == wmul(x & t, y & t) & t,
{
    lemma_truncated(wmul(x, y), y, m, t);
    lemma_product_low(x, y, 0xff);
    lemma_product_low(x, y, 0xffff);
    lemma_product_low(x, y, 0xffff_ffff);
    lemma_product_low(x, y, 0xffff_ffff_ffff_ffff);
}

proof fn lemma_product_low(x: u64, y: u64, t: u64)
    requires
        is_mask(t),
    ensures
        wmul(x, y) & t == wmul(x & t, y & t) & t,
{
    let n = t as int + 1;
    lemma_mask_is_mod(x);
    lemma_mask_is_mod(y);
    lemma_mask_is_mod(wmul(x, y));
    lemma_mask_is_mod(wmul(x & t, y & t));
    crate::ir::known::lemma_wmul_mod(x, y);
    crate::ir::known::lemma_wmul_mod(x & t, y & t);
    let q = 0x1_0000_0000_0000_0000int;
    vstd::arithmetic::div_mod::lemma_mul_mod_noop(x as int, y as int, n);
    lemma_mod_of_mod(x * y, n);
    lemma_mod_of_mod((x & t) * (y & t), n);
}

proof fn lemma_mod_of_mod(v: int, n: int)
    requires
        n == 0x100 || n == 0x1_0000 || n == 0x1_0000_0000 || n == 0x1_0000_0000_0000_0000,
    ensures
        (v % 0x1_0000_0000_0000_0000) % n == v % n,
{
    if n == 0x100 {
        assert((v % 0x1_0000_0000_0000_0000) % 0x100 == v % 0x100) by (nonlinear_arith);
    } else if n == 0x1_0000 {
        assert((v % 0x1_0000_0000_0000_0000) % 0x1_0000 == v % 0x1_0000) by (nonlinear_arith);
    } else if n == 0x1_0000_0000 {
        assert((v % 0x1_0000_0000_0000_0000) % 0x1_0000_0000 == v % 0x1_0000_0000)
            by (nonlinear_arith);
    }
}

proof fn lemma_mask_is_mod(x: u64)
    by (bit_vector)
    ensures
        x & 0xff == x % 0x100,
        x & 0xffff == x % 0x1_0000,
        x & 0xffff_ffff == x % 0x1_0000_0000,
        x & 0xffff_ffff_ffff_ffff == x,
{
}

/// Extending the sign and cutting back to the same or a narrower width is a plain cut.
pub proof fn lemma_sign_extend_low(x: u64, from: Width, t: u64)
    requires
        is_mask(t),
        t <= from.mask(),
    ensures
        sign_extend_spec(x, from) & t == x & t,
{
    lemma_truncated(x, x, from.mask(), t);
    lemma_truncated(x & from.mask(), x, from.mask(), t);
}

} // verus!
