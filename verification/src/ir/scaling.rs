//! Shifts, products and quotients, in integers, by their mnemonics.

use crate::ir::alu::{carry_unknown, cut_value, partial_flags, val, wid};
use crate::ir::arith::shift_steps;
use crate::ir::bits::lemma_truncated;
use crate::ir::decode::Inst;
use crate::ir::event::Step;
use crate::ir::expr::{has, Env, Ref};
use crate::ir::fold::{bin_val, lemma_mask, sar_spec, shift_count_spec, wadd};
use crate::ir::lift::Emulator;
use crate::ir::machine::lemma_quiet;
use crate::ir::meaning::{
    held, is_plain, is_register, lemma_read, lemma_reg_numbers, lemma_same_worth, lemma_written,
    only_changes, rest_kept, worth,
};
use crate::ir::mnemonic::{SAR, SHL, SHR};
use crate::ir::step::evaluates;
use crate::ir::subst::lemma_continues_twice;
use crate::ir::value::{BinOp, Width};
use crate::ir::words::{as_signed, lemma_doubled, lemma_sum, range_of_bits};
use crate::ir::x86::register_part;
use vstd::arithmetic::power2::pow2;
use vstd::prelude::*;

verus! {

/// Shifting up by a place doubles, around the end.
pub proof fn lemma_shl(x: u64, c: u64, w: Width)
    requires
        x <= w.mask(),
        c < 64,
    ensures
        (x << c) & w.mask() == (x * pow2(c as nat)) % range_of_bits(w),
    decreases c,
{
    let n = range_of_bits(w);
    let m = w.mask();
    if c == 0 {
        lemma_doubled(x, 0);
        lemma_mask(x, m);
        vstd::arithmetic::power2::lemma2_to64();
        vstd::arithmetic::div_mod::lemma_small_mod(x as nat, n as nat);
        assert(x * pow2(0) == x) by (nonlinear_arith)
            requires
                pow2(0) == 1,
        ;
    } else {
        let k = (c - 1) as u64;
        lemma_shl(x, k, w);
        let y = x << k;
        lemma_doubled(x, k);
        assert(x << c == wadd(y, y));
        lemma_truncated(y, y, 0xffff_ffff_ffff_ffff, m);
        lemma_mask(wadd(y, y), 0xffff_ffff_ffff_ffff);
        lemma_mask(y, m);
        lemma_sum(y & m, y & m, w);
        let v = x * pow2(k as nat);
        vstd::arithmetic::div_mod::lemma_add_mod_noop(v, v, n);
        vstd::arithmetic::power2::lemma_pow2_unfold(c as nat);
        assert(x * pow2(c as nat) == v + v) by (nonlinear_arith)
            requires
                pow2(c as nat) == 2 * pow2(k as nat),
                v == x * pow2(k as nat),
        ;
    }
}

pub proof fn lemma_shr(x: u64, c: u64)
    requires
        c < 64,
    ensures
        x >> c == x as int / pow2(c as nat) as int,
{
    vstd::bits::lemma_u64_shr_is_div(x, c);
}

/// Shifting down arithmetically divides the signed number, rounding down.
proof fn lemma_sar(x: u64, c: u64, w: Width)
    requires
        x <= w.mask(),
        c < 64,
    ensures
        sar_spec(x, c, w) == (as_signed(x as int, w) / pow2(c as nat) as int) % range_of_bits(w),
{
    let n = range_of_bits(w);
    let m = w.mask();
    let p = pow2(c as nat) as int;
    vstd::arithmetic::power2::lemma_pow2_pos(c as nat);
    if x >= w.sign_bit() {
        let u = !(x | !m);
        lemma_mask(x, m);
        lemma_flip(x, m);
        assert(u == m - x);
        lemma_shr(u, c);
        let v = u >> c;
        let q = u as int / p;
        vstd::arithmetic::div_mod::lemma_fundamental_div_mod(u as int, p);
        assert(0 <= q <= u) by (nonlinear_arith)
            requires
                u as int == p * q + u as int % p,
                0 <= u as int % p < p,
                p >= 1,
                u >= 0,
        ;
        lemma_mask(v, m);
        let s = x - n;
        assert(s == -(u as int) - 1);
        let r = u as int % p;
        assert(s == p * (-q - 1) + (p - 1 - r)) by (nonlinear_arith)
            requires
                s == -(u as int) - 1,
                u as int == p * q + r,
        ;
        vstd::arithmetic::div_mod::lemma_fundamental_div_mod_converse(s, p, -q - 1, p - 1 - r);
        vstd::arithmetic::div_mod::lemma_mod_add_multiples_vanish(-q - 1, n);
        vstd::arithmetic::div_mod::lemma_small_mod((n - q - 1) as nat, n as nat);
    } else {
        lemma_shr(x, c);
        let q = x as int / p;
        vstd::arithmetic::div_mod::lemma_fundamental_div_mod(x as int, p);
        assert(0 <= q <= x) by (nonlinear_arith)
            requires
                x as int == p * q + x as int % p,
                0 <= x as int % p < p,
                p >= 1,
                x >= 0,
        ;
        vstd::arithmetic::div_mod::lemma_small_mod(q as nat, n as nat);
    }
}

proof fn lemma_flip(x: u64, m: u64)
    requires
        crate::ir::fold::is_mask(m),
        x <= m,
    ensures
        !(x | !m) == m - x,
{
    lemma_mask(x, m);
    crate::ir::bits::lemma_complement(x, !m, m);
    crate::ir::bits::lemma_complement(x, !m, 0xffff_ffff_ffff_ffff);
    lemma_mask(!x, 0xffff_ffff_ffff_ffff);
    lemma_mask(m, 0xffff_ffff_ffff_ffff);
    lemma_mask(!(x | !m), 0xffff_ffff_ffff_ffff);
    lemma_mask(!m, 0xffff_ffff_ffff_ffff);
}

/// By how many places a shift of a width moves: the count up to 63, or 31 for all but the
/// widest.
pub open spec fn places(count: int, w: Width) -> int {
    if w == Width::W64 {
        count % 64
    } else {
        count % 32
    }
}

/// What a shift makes of `d`: times a power of two around the end, divided by one, or the
/// signed number divided by one, rounding down.
pub open spec fn shifted(mnemonic: u32, d: int, c: int, w: Width) -> int {
    let p = pow2(c as nat) as int;
    if mnemonic == SHL {
        (d * p) % range_of_bits(w)
    } else if mnemonic == SHR {
        d / p
    } else {
        (as_signed(d, w) / p) % range_of_bits(w)
    }
}

/// Nothing is left of a number that is shifted by its width or more.
proof fn lemma_shifted_out(d: u64, c: int, w: Width)
    requires
        d <= w.mask(),
        w.bits() <= c < 64,
    ensures
        (d * pow2(c as nat)) % range_of_bits(w) == 0,
        d as int / pow2(c as nat) as int == 0,
        as_signed(d as int, w) / pow2(c as nat) as int == as_signed(d as int, w) / pow2(
            (w.bits() - 1) as nat,
        ) as int,
{
    let n = range_of_bits(w);
    let b = w.bits() as nat;
    vstd::arithmetic::power2::lemma2_to64();
    assert(pow2(b) == n) by {
        vstd::arithmetic::power2::lemma2_to64();
        vstd::arithmetic::power2::lemma2_to64_rest();
    }
    let k = (c - b) as nat;
    vstd::arithmetic::power2::lemma_pow2_adds(b, k);
    vstd::arithmetic::power2::lemma_pow2_pos(k);
    vstd::arithmetic::power2::lemma_pow2_pos(c as nat);
    let p = pow2(c as nat) as int;
    let q = pow2(k) as int;
    assert(p == n * q);
    assert(d * p == n * (d * q)) by (nonlinear_arith)
        requires
            p == n * q,
    ;
    vstd::arithmetic::div_mod::lemma_mod_multiples_basic(d * q, n);
    assert(n * (d * q) == (d * q) * n) by (nonlinear_arith);
    assert(p >= n) by (nonlinear_arith)
        requires
            p == n * q,
            q >= 1,
            n >= 1,
    ;
    vstd::arithmetic::div_mod::lemma_basic_div(d as int, p);
    let s = as_signed(d as int, w);
    vstd::arithmetic::power2::lemma_pow2_unfold(b);
    let h = pow2((b - 1) as nat) as int;
    assert(n == 2 * h);
    if s >= 0 {
        vstd::arithmetic::div_mod::lemma_basic_div(s, p);
        vstd::arithmetic::div_mod::lemma_basic_div(s, h);
    } else {
        vstd::arithmetic::div_mod::lemma_fundamental_div_mod_converse(s, p, -1, s + p);
        vstd::arithmetic::div_mod::lemma_fundamental_div_mod_converse(s, h, -1, s + h);
    }
}

/// The value a shift computes.
proof fn lemma_shifted(mnemonic: u32, op: BinOp, d: u64, y: u64, w: Width)
    requires
        d <= w.mask(),
        y <= 0xff,
        mnemonic == SHL && op == BinOp::Shl || mnemonic == SHR && op == BinOp::Shr || mnemonic
            == SAR && op == BinOp::Sar,
    ensures
        bin_val(op, d, y, w) & w.mask() == shifted(mnemonic, d as int, places(y as int, w), w),
        bin_val(op, d, y, w) & w.mask() <= w.mask(),
{
    let c = shift_count_spec(y, w);
    lemma_places(y, w);
    let bits = w.bits() as u64;
    let m = w.mask();
    lemma_mask(bin_val(op, d, y, w), m);
    lemma_mask(0, m);
    if op == BinOp::Shl {
        if c >= bits {
            lemma_shifted_out(d, c as int, w);
        } else {
            lemma_shl(d, c, w);
            lemma_mask(d << c, m);
        }
    } else if op == BinOp::Shr {
        if c >= bits {
            lemma_shifted_out(d, c as int, w);
        } else {
            lemma_shr(d, c);
            crate::ir::fold::lemma_shift_fit(d, c, w);
            lemma_mask(d >> c, m);
        }
    } else {
        let k = if c >= bits {
            (bits - 1) as u64
        } else {
            c
        };
        if c >= bits {
            lemma_shifted_out(d, c as int, w);
        }
        lemma_sar(d, k, w);
        crate::ir::fold::lemma_shift_fit(d, k, w);
        lemma_mask(sar_spec(d, k, w), m);
    }
}

pub proof fn lemma_places(y: u64, w: Width)
    ensures
        shift_count_spec(y, w) == places(y as int, w),
        shift_count_spec(y, w) < 64,
{
    vstd::bits::lemma_u64_low_bits_mask_is_mod(y, 6);
    vstd::bits::lemma_u64_low_bits_mask_is_mod(y, 5);
    vstd::bits::lemma_low_bits_mask_values();
    vstd::arithmetic::power2::lemma2_to64();
}

/// A shift of a register by an immediate byte or a byte register: the register becomes its
/// number times a power of two, around the end, or divided by one; `sar` divides the signed
/// number, rounding down. The processor counts up to 63 places, or to 31.
#[verifier::spinoff_prover]
#[verifier::rlimit(40)]
pub proof fn a_shift_scales_by_a_power_of_two(
    m0: Emulator,
    inst: Inst,
    m1: Emulator,
    out: Step,
    w: Width,
    e: Env,
)
    requires
        m0.wf(),
        evaluates(m0, inst, m1, out),
        !inst.seg_relative(),
        inst.head.mnemonic == SHL || inst.head.mnemonic == SHR || inst.head.mnemonic == SAR,
        inst.op_width_spec(0) == w,
        is_register(inst, 0, w),
        inst.head.op_count == 2,
        is_plain(inst, 1, Width::W8),
    ensures
        out == Step::Next(inst.head.next_ip),
        held(m1, inst.ops@[0].register, e) == shifted(
            inst.head.mnemonic,
            held(m0, inst.ops@[0].register, e),
            places(worth(m0, inst, 1, Width::W8, e), w),
            w,
        ),
        only_changes(m0, m1, inst.ops@[0].register),
        rest_kept(m0, m1, inst.ops@[0].register, w, e),
{
    let op = if inst.head.mnemonic == SHL {
        BinOp::Shl
    } else if inst.head.mnemonic == SHR {
        BinOp::Shr
    } else {
        BinOp::Sar
    };
    let (ma, a, mb, c0, mc, c, md, r, me) = choose|
        ma: Emulator,
        a: Ref,
        mb: Emulator,
        c0: Ref,
        mc: Emulator,
        c: Ref,
        md: Emulator,
        r: Ref,
        me: Emulator,
    | #[trigger] shift_steps(m0, inst, op, ma, a, mb, c0, mc, c, md, r, me, m1);
    lemma_read(m0, inst, 0, w, ma, a, e);
    lemma_quiet(m0, ma);
    lemma_read(ma, inst, 1, Width::W8, mb, c0, e);
    lemma_same_worth(m0, ma, inst, 1, Width::W8, e);
    lemma_quiet(ma, mb);
    lemma_quiet(mb, mc);
    lemma_quiet(mc, md);
    let d = val(ma, a, e);
    let y = val(mb, c0, e);
    lemma_mask(y, w.mask());
    assert(val(mb, a, e) == d && val(mc, a, e) == d);
    assert(wid(mb, a) == w && wid(mc, a) == w);
    assert(val(mc, c, e) == y);
    assert(val(md, r, e) == cut_value(op, d, w, y, w, w));
    lemma_shifted(inst.head.mnemonic, op, d, y, w);
    lemma_continues_twice(m0.arena, ma.arena, mb.arena);
    lemma_continues_twice(m0.arena, mb.arena, mc.arena);
    lemma_continues_twice(m0.arena, mc.arena, md.arena);
    assert(me.state.regs@ == m0.state.regs@ && me.state.mem@ == m0.state.mem@ && me.events@
        == m0.events@ && me.arena.continues(md.arena)) by {
        reveal(partial_flags);
        reveal(carry_unknown);
        lemma_continues_self(md);
    }
    assert(val(me, r, e) == val(md, r, e));
    lemma_continues_twice(m0.arena, md.arena, me.arena);
    lemma_written(me, inst, 0, w, r, m1, e);
    let code = inst.ops@[0].register;
    lemma_whole(m0, me, code, e);
}

proof fn lemma_continues_self(m: Emulator)
    requires
        m.wf(),
    ensures
        m.arena.continues(m.arena),
{
}

pub proof fn lemma_whole(m0: Emulator, m1: Emulator, code: u32, e: Env)
    requires
        m0.wf(),
        m1.arena.continues(m0.arena),
        m1.state.regs@ == m0.state.regs@,
    ensures
        crate::ir::meaning::whole(m1, code, e) == crate::ir::meaning::whole(m0, code, e),
{
    if let Some((base, _, _)) = register_part(code) {
        lemma_reg_numbers(base, base);
        assert(has(m0.arena.nodes@, m0.state.regs@[base.number() as int]));
    }
}

} // verus!
