//! Values fit the width of their node, and the known bits of a node are right.

use crate::ir::expr::{
    Arena, eval, has, known_one_bits, known_zero_bits, nodes_ok, ok_at, op_of, product_zero_run,
    width_of, BinOp, Env, Node, Op, Ref, UnOp, Width,
};
use crate::ir::fold::{
    low_zero_run, mask_of_low_bits, shift_count, bin_val, is_mask, lemma_bitwise_fit, lemma_mask,
    lemma_shift_fit, lemma_wrapping_mul, low_zero_run_spec, mask_of_low_bits_spec, modulus,
    shift_count_spec, wadd, wmul, wsub,
};
use vstd::prelude::*;

verus! {

broadcast use vstd::std_specs::hash::group_hash_axioms;

/// Operators keep to the width they are evaluated at, and comparisons to one bit.
pub proof fn lemma_bin_fits(op: BinOp, x: u64, y: u64, w: Width)
    requires
        x <= w.mask(),
        y <= w.mask(),
    ensures
        bin_val(op, x, y, w) <= w.mask(),
        op.is_comparison() ==> bin_val(op, x, y, w) <= 1,
{
    let m = w.mask();
    let bits = w.bits() as u64;
    lemma_bitwise_fit(x, y, m);
    lemma_mask(wadd(x, y), m);
    lemma_mask(wsub(x, y), m);
    lemma_mask(wmul(x, y), m);
    let c = shift_count_spec(y, w);
    lemma_mask(x << c, m);
    lemma_shift_count(y, w);
    if c < bits {
        lemma_shift_fit(x, c, w);
    } else {
        lemma_shift_fit(x, (bits - 1) as u64, w);
    }
    let r = y % bits;
    lemma_mask((x << r) | (x >> ((bits - r) as u64)), m);
    lemma_mask((x >> r) | (x << ((bits - r) as u64)), m);
    match op {
        BinOp::MulHiU => {
            assert(0 <= (x * y) / modulus(w) <= m) by (nonlinear_arith)
                requires
                    0 <= x <= m,
                    0 <= y <= m,
                    modulus(w) == m + 1,
            ;
        },
        BinOp::UDiv => {
            if y != 0 {
                assert(x / y <= x) by (nonlinear_arith)
                    requires
                        y >= 1,
                ;
            }
        },
        _ => {},
    }
}

pub proof fn lemma_shift_count(y: u64, w: Width)
    ensures
        shift_count_spec(y, w) <= 63,
        w != Width::W64 ==> shift_count_spec(y, w) <= 31,
        shift_count_spec(0, w) == 0,
        y < w.bits() ==> shift_count_spec(y, w) == y,
{
    assert(y & 0x3f <= 63 && y & 0x1f <= 31 && 0u64 & 0x3f == 0 && 0u64 & 0x1f == 0 && (y < 64 ==> y
        & 0x3f == y) && (y < 32 ==> y & 0x1f == y)) by (bit_vector);
}

pub proof fn lemma_bswap_fits(v: u64)
    by (bit_vector)
    ensures
        v & 0xff <= 0xff,
        (((v & 0xff) << 8) | ((v >> 8) & 0xff)) <= 0xffff,
        (((v & 0xff) << 24) | (((v >> 8) & 0xff) << 16) | (((v >> 16) & 0xff) << 8) | ((v >> 24)
            & 0xff)) <= 0xffff_ffff,
        v <= 0xffff_ffff ==> (((v & 0xff) << 24) | (((v >> 8) & 0xff) << 16) | (((v >> 16) & 0xff)
            << 8) | ((v >> 24) & 0xff)) == 0x100_0000 * (v % 0x100) + 0x1_0000 * ((v / 0x100) % 0x100)
            + 0x100 * ((v / 0x1_0000) % 0x100) + v / 0x100_0000,
        (((v & 0xff) << 56) | (((v >> 8) & 0xff) << 48) | (((v >> 16) & 0xff) << 40) | (((v >> 24)
            & 0xff) << 32) | (((v >> 32) & 0xff) << 24) | (((v >> 40) & 0xff) << 16) | (((v >> 48)
            & 0xff) << 8) | ((v >> 56) & 0xff)) == 0x100_0000_0000_0000 * (v % 0x100)
            + 0x1_0000_0000_0000 * ((v / 0x100) % 0x100) + 0x100_0000_0000 * ((v / 0x1_0000) % 0x100)
            + 0x1_0000_0000 * ((v / 0x100_0000) % 0x100) + 0x100_0000 * ((v / 0x1_0000_0000) % 0x100)
            + 0x1_0000 * ((v / 0x100_0000_0000) % 0x100) + 0x100 * ((v / 0x1_0000_0000_0000) % 0x100)
            + v / 0x100_0000_0000_0000,
{
}

/// Every value fits the width of its node.
pub proof fn lemma_eval_fits(ns: Seq<Node>, r: Ref, e: Env)
    requires
        nodes_ok(ns),
        has(ns, r),
    ensures
        eval(ns, r, e) <= width_of(ns, r).mask(),
    decreases r.idx,
{
    let i = r.idx as int;
    let n = ns[i];
    assert(ok_at(ns, i));
    match n.op {
        Op::Const(c) => {
            lemma_mask(c, n.width.mask());
        },
        Op::InitReg(reg) => {
            lemma_mask((e.regs)(reg), n.width.mask());
        },
        Op::Load(a, g) => {
            lemma_mask((e.mem)(eval(ns, a, e), g, n.width), n.width.mask());
        },
        Op::Bin(op, a, b) => {
            lemma_eval_fits(ns, a, e);
            lemma_eval_fits(ns, b, e);
            lemma_bin_fits(
                op,
                eval(ns, a, e),
                eval(ns, b, e),
                width_of(ns, a).wider(width_of(ns, b)),
            );
        },
        Op::Un(op, a) => {
            lemma_eval_fits(ns, a, e);
            let x = eval(ns, a, e);
            lemma_mask(x, n.width.mask());
            lemma_mask(wsub(0, x), n.width.mask());
            lemma_bswap_fits(x);
        },
        Op::Zext(a) => {
            lemma_eval_fits(ns, a, e);
        },
        Op::Sext(a) => {
            lemma_mask(
                crate::ir::fold::sign_extend_spec(eval(ns, a, e), width_of(ns, a)),
                n.width.mask(),
            );
        },
        Op::Trunc(a) => {
            lemma_mask(eval(ns, a, e), n.width.mask());
        },
        Op::Select(_, a, b) => {
            lemma_eval_fits(ns, a, e);
            lemma_mask(eval(ns, b, e), n.width.mask());
        },
        Op::Opaque(tag, id) => {
            lemma_mask((e.opaques)(tag@, id, n.width), n.width.mask());
        },
        Op::Param(b, reg) => {
            lemma_mask((e.params)(b, reg), n.width.mask());
        },
    }
}

/// What known bits of operands say about bitwise operators and casts.
proof fn lemma_known_bitwise(x: u64, y: u64, zx: u64, zy: u64, ox: u64, oy: u64, m: u64)
    by (bit_vector)
    requires
        x & zx == 0,
        y & zy == 0,
        x & ox == ox,
        y & oy == oy,
        is_mask(m),
    ensures
        (x & y) & (zx | zy) == 0,
        (x | y) & (zx & zy) == 0,
        (x ^ y) & (zx & zy) == 0,
        x & (zx & zy) == 0,
        y & (zx & zy) == 0,
        (y & m) & (zx & zy) == 0,
        (x & y) & (ox & oy) == ox & oy,
        (x | y) & (ox | oy) == ox | oy,
        (x ^ y) & ((ox & zy) | (oy & zx)) == (ox & zy) | (oy & zx),
        x & (ox & oy) == ox & oy,
        (y & m) & ((ox & oy) & m) == (ox & oy) & m,
        (x & m) & zx == 0,
        (x & m) & (ox & m) == ox & m,
        (!x & m) & (zx & m) == zx & m,
        x & 0 == 0,
{
}

/// A value inside a mask has nothing outside it, and masking keeps known ones inside.
proof fn lemma_known_frame(x: u64, k: u64, o: u64, m: u64, mi: u64)
    by (bit_vector)
    requires
        x <= m,
        is_mask(m),
        is_mask(mi),
    ensures
        x & k == 0 ==> x & (k | !m) == 0,
        x & o == o ==> x & (o & m) == o & m,
        x <= mi ==> x & !mi == 0,
        x & k == 0 && x <= mi ==> x & (k | !mi) == 0,
        x & o == o && x <= mi ==> x & (o & mi) == o & mi,
        x & !x == 0,
        x & x == x,
        x <= 1 ==> x & !1u64 == 0,
{
}

/// What known bits of the shifted value say about shifts by a known amount.
proof fn lemma_known_shift(x: u64, zx: u64, ox: u64, c: u64, m: u64)
    by (bit_vector)
    requires
        x & zx == 0,
        x & ox == ox,
        x <= m,
        c < 64,
        is_mask(m),
    ensures
        ((x << c) & m) & ((zx << c) | ((1u64 << c) - 1) as u64) == 0,
        ((x << c) & m) & ((ox << c) & m) == (ox << c) & m,
        (x >> c) & ((zx >> c) | !(m >> c)) == 0,
        (x >> c) & (ox >> c) == ox >> c,
{
}

/// Shifting everything out leaves nothing to know.
proof fn lemma_known_shift_out(zx: u64, ox: u64, c: u64, m: u64)
    by (bit_vector)
    requires
        ox <= m,
        c < 64,
        (m == 0xff && c >= 8) || (m == 0xffff && c >= 16) || (m == 0xffff_ffff && c >= 32),
    ensures
        (ox << c) & m == 0,
        ox >> c == 0,
{
}

/// A run of low bits clear in both operands is clear in their sum and difference.
proof fn lemma_low_run_add(x: u64, y: u64, n: u64, m: u64)
    by (bit_vector)
    requires
        n < 64,
        x & (((1u64 << n) - 1) as u64) == 0,
        y & (((1u64 << n) - 1) as u64) == 0,
    ensures
        (wadd(x, y) & m) & (((1u64 << n) - 1) as u64) == 0,
        (wsub(x, y) & m) & (((1u64 << n) - 1) as u64) == 0,
{
}

proof fn lemma_clear_everywhere(x: u64)
    by (bit_vector)
    ensures
        x & 0xffff_ffff_ffff_ffffu64 == x,
        0u64 & x == 0,
        x & 0 == 0,
        wadd(0, 0) == 0,
        wsub(0, 0) == 0,
        (1u64 << 0u32) == 1,
{
}

proof fn lemma_run_from_shift(k: u64, n: u64)
    by (bit_vector)
    requires
        0 < n < 64,
        (!k) << ((64 - n) as u64) == 0,
    ensures
        k & (((1u64 << n) - 1) as u64) == ((1u64 << n) - 1) as u64,
{
}

/// The low run of `k` lies inside `k`.
proof fn lemma_low_run_inside(k: u64, x: u64)
    requires
        x & k == 0,
    ensures
        x & low_zero_run_spec(k) == 0,
{
    vstd::std_specs::bits::axiom_u64_trailing_ones(k);
    let n = vstd::std_specs::bits::u64_trailing_ones(k);
    lemma_clear_everywhere(x);
    if n == 0 {
    } else if n < 64 {
        let s = n as u64;
        lemma_run_from_shift(k, s);
        lemma_subset(x, k, ((1u64 << s) - 1) as u64);
    }
}

/// Clear bits stay clear in any subset of them and under any mask; set bits bound
/// what they are part of.
proof fn lemma_subset(x: u64, k: u64, l: u64)
    by (bit_vector)
    ensures
        x & k == 0 && k & l == l ==> x & l == 0,
        x & k == 0 ==> (x & l) & k == 0,
        x & k == k && x <= l ==> k <= l,
{
}

/// A run of low bits is clear exactly when the value is a multiple of a power of two.
proof fn lemma_clear_is_multiple(x: u64, n: u32)
    requires
        n < 64,
    ensures
        x & mask_of_low_bits_spec(n) == 0 <==> x as int % (vstd::arithmetic::power2::pow2(
            n as nat,
        ) as int) == 0,
{
    vstd::bits::lemma_u64_low_bits_mask_is_mod(x, n as nat);
    vstd::bits::lemma_low_bits_mask_values();
    vstd::arithmetic::power2::lemma_pow2_pos(n as nat);
    vstd::arithmetic::power2::lemma2_to64();
    vstd::arithmetic::power2::lemma_pow2_strictly_increases(n as nat, 64);
    vstd::bits::lemma_u64_shl_is_mul(1, n as u64);
}

/// Multiplication adds up the low zero runs of its factors.
proof fn lemma_product_run(x: u64, y: u64, ka: u64, kb: u64, m: u64)
    requires
        x & ka == 0,
        y & kb == 0,
    ensures
        (wmul(x, y) & m) & product_zero_run(ka, kb) == 0,
{
    use_product_run(x, y, ka, kb);
    lemma_subset(wmul(x, y), product_zero_run(ka, kb), m);
}

proof fn use_product_run(x: u64, y: u64, ka: u64, kb: u64)
    requires
        x & ka == 0,
        y & kb == 0,
    ensures
        wmul(x, y) & product_zero_run(ka, kb) == 0,
{
    let n1 = vstd::std_specs::bits::u64_trailing_ones(ka);
    let n2 = vstd::std_specs::bits::u64_trailing_ones(kb);
    vstd::std_specs::bits::axiom_u64_trailing_ones(ka);
    vstd::std_specs::bits::axiom_u64_trailing_ones(kb);
    lemma_low_run_inside(ka, x);
    lemma_low_run_inside(kb, y);
    lemma_clear_everywhere(x);
    lemma_clear_everywhere(y);
    lemma_clear_everywhere(wmul(x, y));
    let p = wmul(x, y);
    lemma_wmul_mod(x, y);
    if n1 == 64 || n2 == 64 {
        assert(x == 0 || y == 0);
        assert(x * y == 0) by (nonlinear_arith)
            requires
                x == 0 || y == 0,
        ;
        assert(p == 0);
        lemma_clear_everywhere(product_zero_run(ka, kb));
    } else {
        lemma_clear_is_multiple(x, n1);
        lemma_clear_is_multiple(y, n2);
        let p1 = vstd::arithmetic::power2::pow2(n1 as nat) as int;
        let p2 = vstd::arithmetic::power2::pow2(n2 as nat) as int;
        vstd::arithmetic::power2::lemma_pow2_pos(n1 as nat);
        vstd::arithmetic::power2::lemma_pow2_pos(n2 as nat);
        vstd::arithmetic::power2::lemma_pow2_adds(n1 as nat, n2 as nat);
        let a = x as int / p1;
        let b = y as int / p2;
        assert(x as int == p1 * a) by {
            vstd::arithmetic::div_mod::lemma_fundamental_div_mod(x as int, p1);
        }
        assert(y as int == p2 * b) by {
            vstd::arithmetic::div_mod::lemma_fundamental_div_mod(y as int, p2);
        }
        assert(x * y == (p1 * p2) * (a * b)) by (nonlinear_arith)
            requires
                x as int == p1 * a,
                y as int == p2 * b,
        ;
        let n = (n1 + n2) as u32;
        let q = 0x1_0000_0000_0000_0000int;
        vstd::arithmetic::power2::lemma2_to64();
        if n >= 64 {
            let rest = (n - 64) as nat;
            vstd::arithmetic::power2::lemma_pow2_adds(64, rest);
            let pr = vstd::arithmetic::power2::pow2(rest) as int;
            assert(x * y == q * (pr * (a * b))) by (nonlinear_arith)
                requires
                    x * y == (p1 * p2) * (a * b),
                    p1 * p2 == q * pr,
            ;
            vstd::arithmetic::div_mod::lemma_mod_multiples_basic(pr * (a * b), q);
            assert(q * (pr * (a * b)) == (pr * (a * b)) * q) by (nonlinear_arith);
            assert(p == 0);
        } else {
            lemma_clear_is_multiple(p, n);
            let pn = vstd::arithmetic::power2::pow2(n as nat) as int;
            let rest = (64 - n) as nat;
            vstd::arithmetic::power2::lemma_pow2_adds(n as nat, rest);
            let pr = vstd::arithmetic::power2::pow2(rest) as int;
            vstd::arithmetic::power2::lemma_pow2_pos(rest);
            vstd::arithmetic::power2::lemma_pow2_pos(n as nat);
            // p == x*y - q * k, and both terms are multiples of pn.
            let k = (x * y) / q;
            assert(x * y == q * k + (x * y) % q) by {
                vstd::arithmetic::div_mod::lemma_fundamental_div_mod(x * y, q);
            }
            assert(p as int == (a * b - pr * k) * pn) by (nonlinear_arith)
                requires
                    p as int == x * y - q * k,
                    x * y == pn * (a * b),
                    q == pn * pr,
            ;
            vstd::arithmetic::div_mod::lemma_mod_multiples_basic(a * b - pr * k, pn);
        }
    }
}

pub proof fn lemma_wmul_mod(x: u64, y: u64)
    ensures
        wmul(x, y) as int == (x * y) % 0x1_0000_0000_0000_0000,
{
    lemma_wrapping_mul(x, y);
    assert(0 <= x * y) by (nonlinear_arith)
        requires
            0 <= x,
            0 <= y,
    ;
}

/// A bit reported known zero is zero, and one reported known one is one, whatever the
/// registers, memory, opaques and parameters hold.
pub proof fn known_bits_are_sound(ns: Seq<Node>, r: Ref, e: Env)
    requires
        nodes_ok(ns),
        has(ns, r),
    ensures
        eval(ns, r, e) & known_zero_bits(ns, r) == 0,
        eval(ns, r, e) & known_one_bits(ns, r) == known_one_bits(ns, r),
    decreases r.idx,
{
    let i = r.idx as int;
    let n = ns[i];
    let m = n.width.mask();
    let v = eval(ns, r, e);
    assert(ok_at(ns, i));
    lemma_eval_fits(ns, r, e);
    lemma_clear_everywhere(v);
    lemma_known_frame(v, 0, 0, m, m);
    match n.op {
        Op::Const(c) => {
            lemma_mask(c, m);
            lemma_known_frame(c, !c, c, m, m);
        },
        Op::Bin(op, a, b) => {
            known_bits_are_sound(ns, a, e);
            known_bits_are_sound(ns, b, e);
            lemma_eval_fits(ns, a, e);
            lemma_eval_fits(ns, b, e);
            lemma_known_bin(ns, r, op, a, b, e);
        },
        Op::Zext(a) => {
            known_bits_are_sound(ns, a, e);
            lemma_eval_fits(ns, a, e);
            let ma = width_of(ns, a).mask();
            lemma_known_frame(v, known_zero_bits(ns, a), known_one_bits(ns, a), m, ma);
            lemma_known_frame(v, known_zero_bits(ns, a) | !ma, known_one_bits(ns, a) & ma, m, ma);
        },
        Op::Trunc(a) => {
            known_bits_are_sound(ns, a, e);
            lemma_eval_fits(ns, a, e);
            let ma = width_of(ns, a).mask();
            let x = eval(ns, a, e);
            lemma_known_frame(x, known_zero_bits(ns, a), known_one_bits(ns, a), ma, ma);
            lemma_known_bitwise(
                x,
                x,
                known_zero_bits(ns, a),
                known_zero_bits(ns, a),
                known_one_bits(ns, a) & ma,
                known_one_bits(ns, a) & ma,
                m,
            );
            lemma_known_frame(v, known_zero_bits(ns, a), known_one_bits(ns, a) & ma & m, m, ma);
        },
        Op::Select(_, a, b) => {
            known_bits_are_sound(ns, a, e);
            known_bits_are_sound(ns, b, e);
            lemma_eval_fits(ns, a, e);
            let (x, y) = (eval(ns, a, e), eval(ns, b, e));
            let (zx, zy) = (known_zero_bits(ns, a), known_zero_bits(ns, b));
            let (ox, oy) = (known_one_bits(ns, a), known_one_bits(ns, b));
            lemma_known_bitwise(x, y, zx, zy, ox, oy, m);
            lemma_known_frame(v, zx & zy, ox & oy, m, m);
        },
        Op::Un(UnOp::Not, a) => {
            known_bits_are_sound(ns, a, e);
            let x = eval(ns, a, e);
            let z = known_zero_bits(ns, a);
            let o = known_one_bits(ns, a);
            lemma_known_bitwise(x, x, z, z, o, o, m);
        },
        Op::Un(UnOp::ParityByte, a) => {
            lemma_known_frame(v, !1u64, 0, m, m);
            lemma_clear_everywhere(m);
        },
        _ => {
            lemma_clear_everywhere(m);
        },
    }
}

proof fn lemma_known_bin(ns: Seq<Node>, r: Ref, op: BinOp, a: Ref, b: Ref, e: Env)
    requires
        nodes_ok(ns),
        has(ns, r),
        op_of(ns, r) == Op::Bin(op, a, b),
        eval(ns, a, e) & known_zero_bits(ns, a) == 0,
        eval(ns, b, e) & known_zero_bits(ns, b) == 0,
        eval(ns, a, e) & known_one_bits(ns, a) == known_one_bits(ns, a),
        eval(ns, b, e) & known_one_bits(ns, b) == known_one_bits(ns, b),
        eval(ns, a, e) <= width_of(ns, a).mask(),
        eval(ns, b, e) <= width_of(ns, b).mask(),
        eval(ns, r, e) <= width_of(ns, r).mask(),
    ensures
        eval(ns, r, e) & known_zero_bits(ns, r) == 0,
        eval(ns, r, e) & known_one_bits(ns, r) == known_one_bits(ns, r),
{
    let n = ns[r.idx as int];
    assert(ok_at(ns, r.idx as int));
    let m = n.width.mask();
    let v = eval(ns, r, e);
    let (x, y) = (eval(ns, a, e), eval(ns, b, e));
    let (zx, zy) = (known_zero_bits(ns, a), known_zero_bits(ns, b));
    let (ox, oy) = (known_one_bits(ns, a), known_one_bits(ns, b));
    lemma_clear_everywhere(v);
    lemma_clear_everywhere(m);
    lemma_known_frame(v, 0, 0, m, m);
    match op {
        BinOp::And => {
            lemma_known_bitwise(x, y, zx, zy, ox, oy, m);
            lemma_known_frame(v, zx | zy, ox & oy, m, m);
        },
        BinOp::Or => {
            lemma_known_bitwise(x, y, zx, zy, ox, oy, m);
            lemma_known_frame(v, zx & zy, ox | oy, m, m);
        },
        BinOp::Xor => {
            lemma_known_bitwise(x, y, zx, zy, ox, oy, m);
            lemma_known_frame(v, zx & zy, (ox & zy) | (oy & zx), m, m);
        },
        BinOp::Shl | BinOp::Shr => {
            if let Op::Const(k) = op_of(ns, b) {
                assert(ok_at(ns, b.idx as int));
                lemma_mask(k, width_of(ns, b).mask());
                assert(y == k);
                let c = shift_count_spec(k, n.width);
                lemma_shift_count(k, n.width);
                lemma_known_shift(x, zx, ox, c, m);
                lemma_subset(x, ox, m);
                if c >= n.width.bits() {
                    lemma_known_shift_out(zx, ox, c, m);
                    lemma_clear_everywhere((zx << c) | ((1u64 << c) - 1) as u64);
                    lemma_clear_everywhere((zx >> c) | !(m >> c));
                }
                let low = mask_of_low_bits_spec(c as u32);
                lemma_shift_amount_cast(c);
                lemma_known_frame(v, (zx << c) | low, ox << c, m, m);
                lemma_known_frame(v, (zx >> c) | !(m >> c), ox >> c, m, m);
            }
        },
        BinOp::Add | BinOp::Sub => {
            lemma_known_bitwise(x, y, zx, zy, ox, oy, m);
            let k = zx & zy;
            lemma_low_run_inside(k, x);
            lemma_low_run_inside(k, y);
            vstd::std_specs::bits::axiom_u64_trailing_ones(k);
            let t = vstd::std_specs::bits::u64_trailing_ones(k);
            if t < 64 {
                lemma_shift_amount_cast(t as u64);
                lemma_low_run_add(x, y, t as u64, m);
            } else {
                lemma_clear_everywhere(x);
                lemma_clear_everywhere(y);
            }
            lemma_known_frame(v, low_zero_run_spec(k), 0, m, m);
        },
        BinOp::Mul => {
            lemma_product_run(x, y, zx, zy, m);
            lemma_known_frame(v, product_zero_run(zx, zy), 0, m, m);
        },
        BinOp::Ult | BinOp::Slt | BinOp::Eq => {
            let w = width_of(ns, a).wider(width_of(ns, b));
            lemma_bin_fits(op, x, y, w);
            lemma_known_frame(v, !1u64, 0, m, m);
        },
        _ => {},
    }
}

proof fn lemma_shift_amount_cast(c: u64)
    requires
        c < 64,
    ensures
        mask_of_low_bits_spec(c as u32) == ((1u64 << c) - 1) as u64,
{
    assert(1u64 << (c as u32) == 1u64 << c);
}

impl Arena {
    /// Bits that are provably one in `r`.
    pub fn known_one(&mut self, r: Ref) -> (k: u64)
        requires
            old(self).wf(),
            old(self).holds(r),
        ensures
            final(self).grows(*old(self)),
            final(self).nodes@ == old(self).nodes@,
            k == known_one_bits(old(self).nodes@, r),
            forall|e: Env| #[trigger] eval(old(self).nodes@, r, e) & k == k,
        decreases r.idx,
    {
        proof {
            reveal(crate::ir::expr::one_memo_ok);
            assert(ok_at(self.nodes@, r.idx as int));
            assert forall|e: Env| #[trigger]
                eval(old(self).nodes@, r, e) & known_one_bits(old(self).nodes@, r)
                    == known_one_bits(old(self).nodes@, r) by {
                known_bits_are_sound(old(self).nodes@, r, e);
            }
        }
        if let Some(k) = self.one_memo.get(&r.idx) {
            return *k;
        }
        let w = self.width(r);
        let k: u64 = match *self.op(r) {
            Op::Const(c) => c,
            Op::Bin(op, a, b) => {
                let oa: u64 = self.known_one(a);
                let ob: u64 = self.known_one(b);
                match op {
                    // Set only where both are set.
                    BinOp::And => oa & ob,
                    // Set where either is set.
                    BinOp::Or => oa | ob,
                    // Set where exactly one is set *and* the other is known zero,
                    // otherwise the bit is unknown.
                    BinOp::Xor => {
                        let za: u64 = self.known_zero(a);
                        let zb: u64 = self.known_zero(b);
                        (oa & zb) | (ob & za)
                    },
                    BinOp::Shl => match self.as_const(b) {
                        Some(c) => oa << shift_count(c, w),
                        None => 0,
                    },
                    BinOp::Shr => match self.as_const(b) {
                        Some(c) => oa >> shift_count(c, w),
                        None => 0,
                    },
                    _ => 0,
                }
            },
            Op::Zext(a) | Op::Trunc(a) => {
                let inner: u64 = self.known_one(a);
                inner & self.width(a).mask()
            },
            // Set only where set on both arms, since the condition is unknown.
            Op::Select(_, a, b) => {
                let oa: u64 = self.known_one(a);
                let ob: u64 = self.known_one(b);
                oa & ob
            },
            // A bit known *zero* in the operand is known *one* after inverting.
            // Using `!known_zero` here would claim a bit is set merely because it is
            // not known to be clear.
            Op::Un(UnOp::Not, a) => self.known_zero(a),
            _ => 0,
        } & w.mask();
        self.one_memo.insert(r.idx, k);
        k
    }

    /// Bits that are provably zero in `r`. This is what lets masking idioms collapse:
    /// `((x & 0xffff_ffff_ffff_0000) | zext16(y)) & 0xffff` loses its first term
    /// because the outer mask annihilates it.
    pub fn known_zero(&mut self, r: Ref) -> (k: u64)
        requires
            old(self).wf(),
            old(self).holds(r),
        ensures
            final(self).grows(*old(self)),
            final(self).nodes@ == old(self).nodes@,
            k == known_zero_bits(old(self).nodes@, r),
            forall|e: Env| #[trigger] eval(old(self).nodes@, r, e) & k == 0,
        decreases r.idx,
    {
        proof {
            reveal(crate::ir::expr::zero_memo_ok);
            assert(ok_at(self.nodes@, r.idx as int));
            assert forall|e: Env| #[trigger]
                eval(old(self).nodes@, r, e) & known_zero_bits(old(self).nodes@, r) == 0 by {
                known_bits_are_sound(old(self).nodes@, r, e);
            }
        }
        if let Some(k) = self.zero_memo.get(&r.idx) {
            return *k;
        }
        let w = self.width(r);
        let k: u64 = match *self.op(r) {
            Op::Const(c) => !c,
            Op::Bin(op, a, b) => {
                let ka: u64 = self.known_zero(a);
                let kb: u64 = self.known_zero(b);
                match op {
                    // A bit is zero if it is zero in either operand.
                    BinOp::And => ka | kb,
                    // Zero only where both are zero.
                    BinOp::Or | BinOp::Xor => ka & kb,
                    BinOp::Shl => match self.as_const(b) {
                        Some(c) => {
                            let s: u64 = shift_count(c, w);
                            (ka << s) | mask_of_low_bits(s as u32)
                        },
                        None => 0,
                    },
                    BinOp::Shr => match self.as_const(b) {
                        Some(c) => {
                            let s: u64 = shift_count(c, w);
                            (ka >> s) | !(w.mask() >> s)
                        },
                        None => 0,
                    },
                    // Carries only propagate upward, so a common run of low zero
                    // bits survives addition, subtraction and multiplication.
                    BinOp::Add | BinOp::Sub => low_zero_run(ka & kb),
                    BinOp::Mul => {
                        proof {
                            vstd::std_specs::bits::axiom_u64_trailing_ones(ka);
                            vstd::std_specs::bits::axiom_u64_trailing_ones(kb);
                        }
                        mask_of_low_bits(ka.trailing_ones() + kb.trailing_ones())
                    },
                    BinOp::Ult | BinOp::Slt | BinOp::Eq => !1u64,
                    _ => 0,
                }
            },
            Op::Zext(a) => {
                let inner: u64 = self.known_zero(a);
                inner | !self.width(a).mask()
            },
            Op::Trunc(a) => self.known_zero(a),
            Op::Select(_, a, b) => {
                let ka: u64 = self.known_zero(a);
                let kb: u64 = self.known_zero(b);
                ka & kb
            },
            Op::Un(UnOp::ParityByte, _) => !1u64,
            _ => 0,
        } | !w.mask();
        self.zero_memo.insert(r.idx, k);
        k
    }
}

} // verus!
