//! Products, quotients and the sign fill, in integers, by their mnemonics.

use crate::ir::alu::{cut_value, flags_clobbered, partial_flags, second_value, val, wid};
use crate::ir::arith::{
    byte_quotient_steps, dividend_value, division_reads, division_steps, doubled, fill_steps,
    product_steps, quotient_steps, wide_product_steps, Divided,
};
use crate::ir::decode::Inst;
use crate::ir::event::Step;
use crate::ir::expr::{eval, has, Env, Ref};
use crate::ir::fold::{bin_val, lemma_mask, quot, remainder, signed, wmul};
use crate::ir::known::{lemma_shift_count, lemma_wmul_mod};
use crate::ir::lift::Emulator;
use crate::ir::machine::{lemma_quiet, reg_read, reg_written};
use crate::ir::meaning::{
    held, is_plain, is_register, lemma_held_same, lemma_read, lemma_reg_numbers, lemma_same_worth,
    lemma_second, lemma_written, only_changes, rest_kept, worth,
};
use crate::ir::mnemonic::{CDQ, CQO, CWD, DIV, IDIV, IMUL, MUL};
use crate::ir::scaling::lemma_whole;
use crate::ir::step::evaluates;
use crate::ir::subst::lemma_continues_twice;
use crate::ir::value::{BinOp, Reg, Width};
use crate::ir::words::{
    as_signed, lemma_cut, lemma_extended, lemma_joined, lemma_negative, lemma_part_read,
    lemma_part_written, range_of_bits,
};
use crate::ir::x86::{register_part, AX};
use vstd::arithmetic::div_mod::{
    lemma_fundamental_div_mod, lemma_fundamental_div_mod_converse, lemma_mod_mod,
    lemma_mod_multiples_vanish, lemma_small_mod,
};
use vstd::prelude::*;

verus! {

/// The two registers that hold the halves of a double word: the accumulator and `dx`, or `al`
/// and `ah` for bytes.
pub open spec fn are_halves(lo: u32, hi: u32, w: Width) -> bool {
    &&& register_part(lo) == Some((Reg::Rax, 0u32, w))
    &&& register_part(hi) == if w == Width::W8 {
        Some((Reg::Rax, 1u32, w))
    } else {
        Some((Reg::Rdx, 0u32, w))
    }
}

/// Whether nothing but the accumulator, `dx` and the flags differs between two machines.
pub open spec fn only_changes_halves(m0: Emulator, m1: Emulator, w: Width) -> bool {
    &&& m1.state.mem@ == m0.state.mem@
    &&& m1.events@ == m0.events@
    &&& forall|r: Reg|
        r != Reg::Rax && (r != Reg::Rdx || w == Width::W8) ==> #[trigger] m1.state.reg(r)
            == m0.state.reg(r)
}

/// Where only flags differ, registers, memory and events are the same.
proof fn lemma_flags_stand(m0: Emulator, m1: Emulator)
    requires
        crate::ir::alu::flags_only(m0, m1),
    ensures
        m1.state.regs@ == m0.state.regs@,
        m1.state.mem@ == m0.state.mem@,
        m1.events@ == m0.events@,
        m1.arena.continues(m0.arena),
        forall|r: Reg| #[trigger] m1.state.reg(r) == m0.state.reg(r),
{
}

proof fn lemma_got(m0: Emulator, code: u32, m1: Emulator, v: Ref, e: Env)
    requires
        reg_read(m0, code, m1, v),
        register_part(code) is Some,
    ensures
        val(m1, v, e) == held(m0, code, e),
        val(m1, v, e) <= wid(m1, v).mask(),
        has(m1.arena.nodes@, v),
{
    let (base, offset, w) = register_part(code)->0;
    lemma_part_read(eval(m0.arena.nodes@, m0.state.reg(base), e), offset, w);
}

proof fn lemma_put(m0: Emulator, code: u32, v: Ref, m1: Emulator, e: Env)
    requires
        reg_written(m0, code, v, m1),
        register_part(code) matches Some((_, _, w)) && val(m0, v, e) <= w.mask(),
        m0.state.regs@.len() == 16,
    ensures
        held(m1, code, e) == val(m0, v, e),
        m1.arena.continues(m0.arena),
        m1.state.regs@.len() == 16,
        only_changes(m0, m1, code),
        register_part(code) matches Some((base, offset, _)) ==> (offset == 1 ==> eval(
            m1.arena.nodes@,
            m1.state.reg(base),
            e,
        ) % 0x100 == eval(m0.arena.nodes@, m0.state.reg(base), e) % 0x100),
{
    let (base, offset, w) = register_part(code)->0;
    let full = eval(m0.arena.nodes@, m0.state.reg(base), e);
    lemma_part_written(full, offset, w, val(m0, v, e));
    assert forall|r: Reg| r != base implies #[trigger] m1.state.reg(r) == m0.state.reg(r) by {
        lemma_reg_numbers(r, base);
    }
    lemma_reg_numbers(base, base);
}

/// Two halves are written one after the other.
proof fn lemma_put_both(
    m0: Emulator,
    lo: u32,
    v: Ref,
    me: Emulator,
    hi: u32,
    u: Ref,
    m1: Emulator,
    w: Width,
    e: Env,
)
    requires
        are_halves(lo, hi, w),
        reg_written(m0, lo, v, me),
        reg_written(me, hi, u, m1),
        has(m0.arena.nodes@, u),
        val(m0, v, e) <= w.mask(),
        val(m0, u, e) <= w.mask(),
        m0.state.regs@.len() == 16,
    ensures
        held(m1, lo, e) == val(m0, v, e),
        held(m1, hi, e) == val(m0, u, e),
        only_changes_halves(m0, m1, w),
        m1.arena.continues(m0.arena),
        has(m1.arena.nodes@, m1.state.reg(Reg::Rax)),
        w != Width::W8 ==> has(m1.arena.nodes@, m1.state.reg(Reg::Rdx)),
{
    lemma_put(m0, lo, v, me, e);
    assert(val(me, u, e) == val(m0, u, e));
    lemma_put(me, hi, u, m1, e);
    lemma_continues_twice(m0.arena, me.arena, m1.arena);
    assert(has(me.arena.nodes@, me.state.reg(Reg::Rax)));
    if w != Width::W8 {
        assert(m1.state.reg(Reg::Rax) == me.state.reg(Reg::Rax));
    }
}

/// A product cut to its width.
proof fn lemma_product(x: u64, y: u64, w: Width)
    ensures
        wmul(x, y) & w.mask() == (x * y) % range_of_bits(w),
        wmul(x, y) & w.mask() <= w.mask(),
{
    lemma_wmul_mod(x, y);
    lemma_cut(wmul(x, y), w);
    lemma_mask(wmul(x, y), w.mask());
    let p = x * y;
    match w {
        Width::W8 => lemma_mod_mod(p, 0x100, 0x100_0000_0000_0000),
        Width::W16 => lemma_mod_mod(p, 0x1_0000, 0x1_0000_0000_0000),
        Width::W32 => lemma_mod_mod(p, 0x1_0000_0000, 0x1_0000_0000),
        Width::W64 => lemma_mod_mod(p, 0x1_0000_0000_0000_0000, 1),
    }
}

/// A product of words and that of the signed numbers agree in the lower half.
proof fn lemma_signed_product(x: u64, y: u64, w: Width)
    requires
        x <= w.mask(),
        y <= w.mask(),
    ensures
        (x * y) % range_of_bits(w) == (as_signed(x as int, w) * as_signed(y as int, w))
            % range_of_bits(w),
{
    let n = range_of_bits(w);
    let sx = as_signed(x as int, w);
    let sy = as_signed(y as int, w);
    let i: int = if sx < 0 {
        1
    } else {
        0
    };
    let j: int = if sy < 0 {
        1
    } else {
        0
    };
    let k = sx * j + sy * i + n * (i * j);
    assert(x * y == n * k + sx * sy) by (nonlinear_arith)
        requires
            x as int == sx + n * i,
            y as int == sy + n * j,
            k == sx * j + sy * i + n * (i * j),
    ;
    lemma_mod_multiples_vanish(k, sx * sy, n);
}

/// A signed number that fits is read back from its word.
proof fn lemma_read_back(q: int, w: Width)
    requires
        -range_of_bits(w) <= 2 * q < range_of_bits(w),
    ensures
        as_signed(q % range_of_bits(w), w) == q,
        0 <= q % range_of_bits(w) < range_of_bits(w),
{
    let n = range_of_bits(w);
    if q >= 0 {
        lemma_small_mod(q as nat, n as nat);
    } else {
        lemma_mod_multiples_vanish(1, q, n);
        lemma_small_mod((q + n) as nat, n as nat);
    }
}

/// The upper half of a product.
proof fn lemma_upper(x: u64, y: u64, w: Width)
    requires
        x <= w.mask(),
        y <= w.mask(),
    ensures
        (x * y) % range_of_bits(w) + range_of_bits(w) * bin_val(BinOp::MulHiU, x, y, w) == x * y,
        bin_val(BinOp::MulHiU, x, y, w) <= w.mask(),
{
    let n = range_of_bits(w);
    let p = x * y;
    lemma_fundamental_div_mod(p, n);
    let q = p / n;
    assert(0 <= q < n) by (nonlinear_arith)
        requires
            p == x * y,
            0 <= x < n,
            0 <= y < n,
            p == n * q + p % n,
            0 <= p % n < n,
    ;
}

/// The upper half of a signed product.
proof fn lemma_signed_upper(x: u64, y: u64, w: Width)
    requires
        x <= w.mask(),
        y <= w.mask(),
    ensures
        (as_signed(x as int, w) * as_signed(y as int, w)) % range_of_bits(w) + range_of_bits(w)
            * as_signed(bin_val(BinOp::MulHiS, x, y, w) as int, w) == as_signed(x as int, w)
            * as_signed(y as int, w),
        bin_val(BinOp::MulHiS, x, y, w) <= w.mask(),
{
    let n = range_of_bits(w);
    let sx = as_signed(x as int, w);
    let sy = as_signed(y as int, w);
    assert(signed(x, w) == sx && signed(y, w) == sy);
    let p = sx * sy;
    let q = p / n;
    lemma_fundamental_div_mod(p, n);
    let r = p % n;
    let h = n / 2;
    assert(-h <= q < h) by (nonlinear_arith)
        requires
            n == 2 * h,
            h >= 128,
            p == sx * sy,
            -h <= sx < h,
            -h <= sy < h,
            p == n * q + r,
            0 <= r < n,
    {
        assert(sx * sy <= h * h) by (nonlinear_arith)
            requires
                -h <= sx < h,
                -h <= sy < h,
        ;
        assert(sx * sy >= -(h * h)) by (nonlinear_arith)
            requires
                -h <= sx < h,
                -h <= sy < h,
        ;
        if q >= h {
            assert(n * q >= 2 * (h * h)) by (nonlinear_arith)
                requires
                    n == 2 * h,
                    q >= h,
                    h >= 128,
            ;
            assert(h * h > 0) by (nonlinear_arith)
                requires
                    h >= 128,
            ;
        }
        if q < -h {
            assert(n * q <= -2 * (h * h) - n) by (nonlinear_arith)
                requires
                    n == 2 * h,
                    q <= -h - 1,
                    h >= 128,
            ;
            assert(h * h > 0) by (nonlinear_arith)
                requires
                    h >= 128,
            ;
        }
    }
    lemma_read_back(q, w);
}

/// `mul`, and `imul` of one operand: the halves together are the product of the accumulator
/// and the operand. For `imul` the numbers are signed.
#[verifier::spinoff_prover]
#[verifier::rlimit(40)]
pub proof fn a_wide_product_is_whole(
    m0: Emulator,
    inst: Inst,
    m1: Emulator,
    out: Step,
    w: Width,
    lo: u32,
    hi: u32,
    e: Env,
)
    requires
        m0.wf(),
        evaluates(m0, inst, m1, out),
        !inst.seg_relative(),
        inst.head.mnemonic == MUL || (inst.head.mnemonic == IMUL && inst.head.op_count == 1),
        inst.op_width_spec(0) == w,
        is_register(inst, 0, w),
        are_halves(lo, hi, w),
    ensures
        out == Step::Next(inst.head.next_ip),
        inst.head.mnemonic == MUL ==> held(m1, lo, e) + range_of_bits(w) * held(m1, hi, e) == held(
            m0,
            lo,
            e,
        ) * held(m0, inst.ops@[0].register, e),
        inst.head.mnemonic == IMUL ==> held(m1, lo, e) + range_of_bits(w) * as_signed(
            held(m1, hi, e),
            w,
        ) == as_signed(held(m0, lo, e), w) * as_signed(held(m0, inst.ops@[0].register, e), w),
        only_changes_halves(m0, m1, w),
{
    let high = if inst.head.mnemonic == MUL {
        BinOp::MulHiU
    } else {
        BinOp::MulHiS
    };
    let (ma, a, mb, b, mc, l, md, h, me, mf) = choose|
        ma: Emulator,
        a: Ref,
        mb: Emulator,
        b: Ref,
        mc: Emulator,
        l: Ref,
        md: Emulator,
        h: Ref,
        me: Emulator,
        mf: Emulator,
    | #[trigger] wide_product_steps(m0, inst, high, ma, a, mb, b, mc, l, md, h, me, mf, m1);
    lemma_got(m0, lo, ma, a, e);
    lemma_quiet(m0, ma);
    lemma_read(ma, inst, 0, w, mb, b, e);
    lemma_same_worth(m0, ma, inst, 0, w, e);
    lemma_quiet(ma, mb);
    lemma_quiet(mb, mc);
    lemma_quiet(mc, md);
    let x = val(ma, a, e);
    let y = val(mb, b, e);
    assert(val(mb, a, e) == x);
    assert(wid(mb, a) == w && wid(mb, b) == w);
    assert(val(mc, l, e) == bin_val(BinOp::Mul, x, y, w));
    assert(val(md, l, e) == val(mc, l, e));
    assert(val(md, h, e) == bin_val(high, x, y, w));
    lemma_product(x, y, w);
    lemma_signed_product(x, y, w);
    lemma_upper(x, y, w);
    lemma_signed_upper(x, y, w);
    lemma_continues_twice(m0.arena, ma.arena, mb.arena);
    lemma_continues_twice(m0.arena, mb.arena, mc.arena);
    lemma_continues_twice(m0.arena, mc.arena, md.arena);
    lemma_put_both(md, lo, l, me, hi, h, mf, w, e);
    reveal(flags_clobbered);
    lemma_flags_stand(mf, m1);
    assert(held(m1, lo, e) == held(mf, lo, e));
    assert(held(m1, hi, e) == held(mf, hi, e));
}

/// `imul` of two or three operands: the register becomes the product of the signed numbers,
/// around the end.
#[verifier::spinoff_prover]
#[verifier::rlimit(40)]
pub proof fn a_product_wraps_around(
    m0: Emulator,
    inst: Inst,
    m1: Emulator,
    out: Step,
    w: Width,
    first: int,
    e: Env,
)
    requires
        m0.wf(),
        evaluates(m0, inst, m1, out),
        !inst.seg_relative(),
        inst.head.mnemonic == IMUL,
        (inst.head.op_count == 2 && first == 0) || (inst.head.op_count == 3 && first == 1),
        inst.op_width_spec(0) == w,
        is_register(inst, 0, w),
        is_plain(inst, first, w),
        is_plain(inst, first + 1, w),
    ensures
        out == Step::Next(inst.head.next_ip),
        held(m1, inst.ops@[0].register, e) == (as_signed(worth(m0, inst, first, w, e), w)
            * as_signed(worth(m0, inst, first + 1, w, e), w)) % range_of_bits(w),
        only_changes(m0, m1, inst.ops@[0].register),
        rest_kept(m0, m1, inst.ops@[0].register, w, e),
{
    let (ma, a, mb, b0, mc, b, md, r, me) = choose|
        ma: Emulator,
        a: Ref,
        mb: Emulator,
        b0: Ref,
        mc: Emulator,
        b: Ref,
        md: Emulator,
        r: Ref,
        me: Emulator,
    | #[trigger] product_steps(m0, inst, first, ma, a, mb, b0, mc, b, md, r, me, m1);
    lemma_read(m0, inst, first, w, ma, a, e);
    lemma_quiet(m0, ma);
    lemma_read(ma, inst, first + 1, w, mb, b0, e);
    lemma_same_worth(m0, ma, inst, first + 1, w, e);
    lemma_quiet(ma, mb);
    lemma_quiet(mb, mc);
    lemma_quiet(mc, md);
    let x = val(ma, a, e);
    let y = val(mb, b0, e);
    lemma_second(y, w);
    assert(val(mb, a, e) == x && val(mc, a, e) == x);
    assert(wid(mc, a) == w);
    assert(val(mc, b, e) == y);
    assert(val(md, r, e) == cut_value(BinOp::Mul, x, w, y, w, w));
    lemma_product(x, y, w);
    lemma_mask(wmul(x, y) & w.mask(), w.mask());
    lemma_signed_product(x, y, w);
    lemma_continues_twice(m0.arena, ma.arena, mb.arena);
    lemma_continues_twice(m0.arena, mb.arena, mc.arena);
    lemma_continues_twice(m0.arena, mc.arena, md.arena);
    lemma_written(md, inst, 0, w, r, me, e);
    let code = inst.ops@[0].register;
    lemma_whole(m0, md, code, e);
    reveal(partial_flags);
    lemma_flags_stand(me, m1);
    lemma_registered(md, inst, r, me, code);
    assert(held(m1, code, e) == held(me, code, e));
    assert(crate::ir::meaning::whole(m1, code, e) == crate::ir::meaning::whole(me, code, e));
}

proof fn lemma_registered(m0: Emulator, inst: Inst, v: Ref, m1: Emulator, code: u32)
    requires
        crate::ir::machine::op_written(m0, inst, 0, v, m1),
        inst.ops@[0].kind == crate::ir::decode::REGISTER,
        inst.ops@[0].register == code,
    ensures
        register_part(code) matches Some((base, _, _)) ==> has(
            m1.arena.nodes@,
            m1.state.reg(base),
        ),
{
    reveal(crate::ir::machine::op_written);
}

/// `cwd`, `cdq` and `cqo`: the upper half becomes minus one where the lower is negative, and
/// zero where it is not.
pub proof fn the_upper_half_is_filled_with_the_sign(
    m0: Emulator,
    inst: Inst,
    m1: Emulator,
    out: Step,
    w: Width,
    lo: u32,
    hi: u32,
    e: Env,
)
    requires
        m0.wf(),
        evaluates(m0, inst, m1, out),
        !inst.seg_relative(),
        (inst.head.mnemonic == CWD && w == Width::W16) || (inst.head.mnemonic == CDQ && w
            == Width::W32) || (inst.head.mnemonic == CQO && w == Width::W64),
        are_halves(lo, hi, w),
    ensures
        out == Step::Next(inst.head.next_ip),
        as_signed(held(m1, hi, e), w) == if as_signed(held(m0, lo, e), w) < 0 {
            -1int
        } else {
            0
        },
        only_changes(m0, m1, hi),
        m1.state.flags@ == m0.state.flags@,
{
    let (ma, acc, mb, r) = choose|ma: Emulator, acc: Ref, mb: Emulator, r: Ref| #[trigger]
        fill_steps(m0, w, ma, acc, mb, r, m1);
    lemma_got(m0, lo, ma, acc, e);
    lemma_negative(val(ma, acc, e), w);
    assert(val(mb, r, e) == if val(ma, acc, e) & w.sign_bit() == w.sign_bit() {
        w.mask()
    } else {
        0u64
    });
    lemma_put(mb, hi, r, m1, e);
}

/// What a division gives: the quotient and the remainder of the dividend, where the remainder
/// is smaller than the divisor and has the dividend's sign.
pub open spec fn divides_into(dividend: int, divisor: int, q: int, r: int) -> bool {
    &&& dividend == q * divisor + r
    &&& divisor > 0 ==> -divisor < r < divisor
    &&& divisor < 0 ==> divisor < r < -divisor
    &&& dividend >= 0 ==> r >= 0
    &&& dividend < 0 ==> r <= 0
}

/// There is but one such quotient and remainder.
proof fn lemma_quotient(x: int, y: int, q: int, r: int)
    requires
        y != 0,
        divides_into(x, y, q, r),
    ensures
        quot(x, y) == q,
        remainder(x, y) == r,
        x >= 0 && y > 0 ==> x / y == q && x % y == r,
{
    let d = if y > 0 {
        y
    } else {
        -y
    };
    let p = if y > 0 {
        q
    } else {
        -q
    };
    assert(x == p * d + r) by (nonlinear_arith)
        requires
            x == q * y + r,
            (y > 0 && d == y && p == q) || (d == -y && p == -q),
    ;
    if x >= 0 {
        assert(p * d == d * p) by (nonlinear_arith);
        lemma_fundamental_div_mod_converse(x, d, p, r);
    } else {
        assert(-x == d * (-p) + (-r)) by (nonlinear_arith)
            requires
                x == p * d + r,
        ;
        lemma_fundamental_div_mod_converse(-x, d, -p, -r);
    }
}

/// The two halves joined.
proof fn lemma_joined_halves(hi: u64, lo: u64, w: Width)
    requires
        w == Width::W16 || w == Width::W32,
        hi <= w.mask(),
        lo <= w.mask(),
    ensures
        dividend_value(hi, lo, w) == lo + range_of_bits(w) * hi,
{
    let d = doubled(w);
    let bits = w.bits() as u64;
    lemma_mask(hi, d.mask());
    lemma_mask(lo, d.mask());
    lemma_mask(bits, d.mask());
    lemma_shift_count(bits, d);
    lemma_joined(hi, lo);
}

/// The divisor at the width of the dividend keeps its signed number.
proof fn lemma_widened(y: u64, w: Width)
    requires
        y <= w.mask(),
    ensures
        signed(second_value(y, w, doubled(w)), doubled(w)) == as_signed(y as int, w),
        second_value(y, w, doubled(w)) <= doubled(w).mask(),
{
    let d = doubled(w);
    let n = range_of_bits(d);
    lemma_extended(y, w);
    let x = crate::ir::fold::sign_extend_spec(y, w);
    lemma_cut(x, d);
    lemma_mask(x, d.mask());
    let s = as_signed(y as int, w);
    match d {
        Width::W8 => lemma_mod_mod(s, 0x100, 0x100_0000_0000_0000),
        Width::W16 => lemma_mod_mod(s, 0x1_0000, 0x1_0000_0000_0000),
        Width::W32 => lemma_mod_mod(s, 0x1_0000_0000, 0x1_0000_0000),
        Width::W64 => lemma_mod_mod(s, 0x1_0000_0000_0000_0000, 1),
    }
    assert(x & d.mask() == s % n);
    lemma_read_back(s, d);
}

/// What the quotient and the remainder are cut to.
proof fn lemma_divided(sign: bool, x: u64, y: u64, q: int, r: int, w: Width)
    requires
        w != Width::W64,
        x <= doubled(w).mask(),
        y <= doubled(w).mask(),
        y != 0,
        sign ==> divides_into(signed(x, doubled(w)), signed(y, doubled(w)), q, r) && -range_of_bits(w)
            <= 2 * q < range_of_bits(w) && -range_of_bits(w) <= 2 * r < range_of_bits(w),
        !sign ==> divides_into(x as int, y as int, q, r) && 0 <= q < range_of_bits(w) && 0 <= r
            < range_of_bits(w),
    ensures
        bin_val(
            if sign {
                BinOp::SDiv
            } else {
                BinOp::UDiv
            },
            x,
            y,
            doubled(w),
        ) & w.mask() == q % range_of_bits(w),
        bin_val(
            if sign {
                BinOp::SRem
            } else {
                BinOp::URem
            },
            x,
            y,
            doubled(w),
        ) & w.mask() == r % range_of_bits(w),
{
    let d = doubled(w);
    let n = range_of_bits(w);
    let k = range_of_bits(d);
    assert(k == n * n) by {
        assert(0x100 * 0x100 == 0x1_0000int);
        assert(0x1_0000 * 0x1_0000 == 0x1_0000_0000int);
        assert(0x1_0000_0000 * 0x1_0000_0000 == 0x1_0000_0000_0000_0000int);
    }
    if sign {
        let sx = signed(x, d);
        let sy = signed(y, d);
        lemma_quotient(sx, sy, q, r);
        if crate::ir::fold::signed_division_overflows(x, y, d) {
            assert(sy == -1 && sx == -0x8000_0000_0000_0000);
            assert(q * sy == -q) by (nonlinear_arith)
                requires
                    sy == -1,
            ;
            assert(false);
        }
        lemma_cut((q % k) as u64, w);
        lemma_cut((r % k) as u64, w);
        lemma_mod_mod(q, n, n);
        lemma_mod_mod(r, n, n);
        assert(0 <= q % k < k && 0 <= r % k < k);
    } else {
        lemma_quotient(x as int, y as int, q, r);
        lemma_cut(x / y, w);
        lemma_cut(x % y, w);
    }
}

/// What is read for a division.
proof fn lemma_division_read(
    m0: Emulator,
    inst: Inst,
    sign: bool,
    ma: Emulator,
    l: Ref,
    mb: Emulator,
    b: Ref,
    mc: Emulator,
    d: Divided,
    w: Width,
    lo: u32,
    hi: u32,
    e: Env,
)
    requires
        m0.wf(),
        w != Width::W64,
        inst.op_width_spec(0) == w,
        is_register(inst, 0, w),
        are_halves(lo, hi, w),
        division_reads(m0, inst, sign, ma, l, mb, b, mc, d),
    ensures
        crate::ir::machine::quiet(m0, d.after),
        d.after.wf(),
        has(d.after.arena.nodes@, d.dividend),
        has(d.after.arena.nodes@, d.divisor),
        wid(d.after, d.dividend) == doubled(w),
        wid(d.after, d.dividend).wider(wid(d.after, d.divisor)) == doubled(w),
        val(d.after, d.dividend, e) == held(m0, lo, e) + range_of_bits(w) * held(m0, hi, e),
        val(d.after, d.dividend, e) <= doubled(w).mask(),
        sign ==> val(d.after, d.divisor, e) == second_value(
            held(m0, inst.ops@[0].register, e) as u64,
            w,
            doubled(w),
        ),
        !sign ==> val(d.after, d.divisor, e) == held(m0, inst.ops@[0].register, e),
        0 <= held(m0, inst.ops@[0].register, e) <= w.mask(),
{
    lemma_got(m0, lo, ma, l, e);
    lemma_quiet(m0, ma);
    lemma_read(ma, inst, 0, w, mb, b, e);
    lemma_same_worth(m0, ma, inst, 0, w, e);
    lemma_quiet(ma, mb);
    lemma_continues_twice(m0.arena, ma.arena, mb.arena);
    let code = inst.ops@[0].register;
    if w == Width::W8 {
        assert(register_part(AX) == Some((Reg::Rax, 0u32, Width::W16)));
        lemma_got(mb, AX, mc, d.dividend, e);
        lemma_quiet(mb, mc);
        lemma_held_same(m0, mb, AX, e);
        let full = eval(m0.arena.nodes@, m0.state.reg(Reg::Rax), e) as int;
        assert(full % 0x1_0000 == full % 0x100 + 0x100 * ((full / 0x100) % 0x100));
    } else {
        let (mh, h) = choose|mh: Emulator, h: Ref| #[trigger]
            reg_read(mb, crate::ir::transfer::dx_spec(w), mh, h) && crate::ir::alu::made(
                mh,
                mc,
                crate::ir::alu::fixed(mh, h) && crate::ir::alu::fixed(mh, l),
                d.dividend,
                doubled(w),
                |e: Env| dividend_value(val(mh, h, e), val(mh, l, e), w),
            );
        lemma_got(mb, hi, mh, h, e);
        lemma_held_same(m0, mb, hi, e);
        lemma_quiet(mb, mh);
        lemma_quiet(mh, mc);
        lemma_continues_twice(mb.arena, mh.arena, mc.arena);
        assert(val(mb, l, e) == val(ma, l, e));
        assert(val(mh, l, e) == val(ma, l, e));
        assert(val(mc, d.dividend, e) == dividend_value(val(mh, h, e), val(mh, l, e), w));
        lemma_joined_halves(val(mh, h, e), val(mh, l, e), w);
    }
    lemma_continues_twice(m0.arena, mb.arena, mc.arena);
    assert(val(mc, b, e) == val(mb, b, e));
    assert(wid(mc, b) == w);
    if sign {
        lemma_quiet(mc, d.after);
        lemma_continues_twice(m0.arena, mc.arena, d.after.arena);
    }
    let n = range_of_bits(w);
    let x = held(m0, lo, e);
    let y = held(m0, hi, e);
    assert(0 <= x < n && 0 <= y < n);
    assert(x + n * y <= n * n - 1) by (nonlinear_arith)
        requires
            0 <= x < n,
            0 <= y < n,
    ;
    assert(0x100 * 0x100 == 0x1_0000int);
    assert(0x1_0000 * 0x1_0000 == 0x1_0000_0000int);
    assert(0x1_0000_0000 * 0x1_0000_0000 == 0x1_0000_0000_0000_0000int);
}

/// `div` and `idiv`: the halves become the quotient and the remainder of the double word by
/// the operand, where there are such and they fit. For `idiv` the numbers are signed, and the
/// quotient is rounded toward zero. Nothing is said of 64-bit operands, whose dividend has
/// more bits than a value.
#[verifier::spinoff_prover]
#[verifier::rlimit(40)]
pub proof fn a_division_gives_quotient_and_remainder(
    m0: Emulator,
    inst: Inst,
    m1: Emulator,
    out: Step,
    w: Width,
    lo: u32,
    hi: u32,
    q: int,
    r: int,
    e: Env,
)
    requires
        m0.wf(),
        evaluates(m0, inst, m1, out),
        !inst.seg_relative(),
        inst.head.mnemonic == DIV || inst.head.mnemonic == IDIV,
        w != Width::W64,
        inst.op_width_spec(0) == w,
        is_register(inst, 0, w),
        are_halves(lo, hi, w),
        held(m0, inst.ops@[0].register, e) != 0,
        inst.head.mnemonic == DIV ==> divides_into(
            held(m0, lo, e) + range_of_bits(w) * held(m0, hi, e),
            held(m0, inst.ops@[0].register, e),
            q,
            r,
        ) && 0 <= q < range_of_bits(w),
        inst.head.mnemonic == IDIV ==> divides_into(
            held(m0, lo, e) + range_of_bits(w) * as_signed(held(m0, hi, e), w),
            as_signed(held(m0, inst.ops@[0].register, e), w),
            q,
            r,
        ) && -range_of_bits(w) <= 2 * q < range_of_bits(w),
    ensures
        out == Step::Next(inst.head.next_ip),
        inst.head.mnemonic == DIV ==> held(m1, lo, e) == q && held(m1, hi, e) == r,
        inst.head.mnemonic == IDIV ==> as_signed(held(m1, lo, e), w) == q && as_signed(
            held(m1, hi, e),
            w,
        ) == r,
        only_changes_halves(m0, m1, w),
{
    let sign = inst.head.mnemonic == IDIV;
    let (ma, l, mb, b, md, d, mc) = choose|
        ma: Emulator,
        l: Ref,
        mb: Emulator,
        b: Ref,
        md: Emulator,
        d: Divided,
        mc: Emulator,
    | #[trigger] division_steps(m0, inst, sign, ma, l, mb, b, md, d, mc, m1);
    lemma_division_read(m0, inst, sign, ma, l, mb, b, md, d, w, lo, hi, e);
    let m = d.after;
    let x = val(m, d.dividend, e);
    let y = val(m, d.divisor, e);
    let n = range_of_bits(w);
    let c = held(m0, inst.ops@[0].register, e);
    if sign {
        lemma_widened(c as u64, w);
        lemma_signed_join(held(m0, lo, e), held(m0, hi, e), w);
        assert(signed(x, doubled(w)) == as_signed(x as int, doubled(w)));
    }
    lemma_divided(sign, x, y, q, r, w);
    if sign {
        lemma_read_back(q, w);
        lemma_read_back(r, w);
    } else {
        lemma_small_mod(q as nat, n as nat);
        lemma_small_mod(r as nat, n as nat);
    }
    let qop = if sign {
        BinOp::SDiv
    } else {
        BinOp::UDiv
    };
    let rop = if sign {
        BinOp::SRem
    } else {
        BinOp::URem
    };
    lemma_mask(bin_val(qop, x, y, doubled(w)), w.mask());
    lemma_mask(bin_val(rop, x, y, doubled(w)), w.mask());
    if w == Width::W8 {
        let (mx, ax) = choose|mx: Emulator, ax: Ref| #[trigger]
            byte_quotient_steps(m, d, qop, rop, mx, ax, mc);
        lemma_byte_halves(m0, d, qop, rop, mx, ax, mc, lo, hi, e);
    } else {
        let (mq, rq, mr, rr, me) = choose|mq: Emulator, rq: Ref, mr: Emulator, rr: Ref, me: Emulator|
            #[trigger]
            quotient_steps(m, d, qop, rop, w, mq, rq, mr, rr, me, mc);
        assert(val(mq, rq, e) == bin_val(qop, x, y, doubled(w)) & w.mask());
        assert(val(mr, rr, e) == bin_val(rop, x, y, doubled(w)) & w.mask());
        assert(val(mr, rq, e) == val(mq, rq, e));
        lemma_continues_twice(m.arena, mq.arena, mr.arena);
        lemma_put_both(mr, lo, rq, me, hi, rr, mc, w, e);
    }
    reveal(flags_clobbered);
    lemma_flags_stand(mc, m1);
    assert(held(m1, lo, e) == held(mc, lo, e));
    assert(held(m1, hi, e) == held(mc, hi, e));
}

/// The signed number of a double word.
proof fn lemma_signed_join(lo: int, hi: int, w: Width)
    requires
        w != Width::W64,
        0 <= lo < range_of_bits(w),
        0 <= hi < range_of_bits(w),
    ensures
        as_signed(lo + range_of_bits(w) * hi, doubled(w)) == lo + range_of_bits(w) * as_signed(
            hi,
            w,
        ),
{
    assert(range_of_bits(w) * (hi - range_of_bits(w)) == range_of_bits(w) * hi - range_of_bits(
        doubled(w),
    )) by {
        match w {
            Width::W8 => {},
            Width::W16 => {},
            _ => {},
        }
    }
}

/// A byte's quotient and remainder.
proof fn lemma_byte_halves(
    m0: Emulator,
    d: Divided,
    qop: BinOp,
    rop: BinOp,
    mx: Emulator,
    ax: Ref,
    mc: Emulator,
    lo: u32,
    hi: u32,
    e: Env,
)
    requires
        m0.wf(),
        crate::ir::machine::quiet(m0, d.after),
        are_halves(lo, hi, Width::W8),
        byte_quotient_steps(d.after, d, qop, rop, mx, ax, mc),
        wid(d.after, d.dividend).wider(wid(d.after, d.divisor)) == Width::W16,
    ensures
        held(mc, lo, e) == bin_val(
            qop,
            val(d.after, d.dividend, e),
            val(d.after, d.divisor, e),
            Width::W16,
        ) & 0xff,
        held(mc, hi, e) == bin_val(
            rop,
            val(d.after, d.dividend, e),
            val(d.after, d.divisor, e),
            Width::W16,
        ) & 0xff,
        only_changes_halves(m0, mc, Width::W8),
        has(mc.arena.nodes@, mc.state.reg(Reg::Rax)),
{
    let m = d.after;
    let x = val(m, d.dividend, e);
    let y = val(m, d.divisor, e);
    let q = bin_val(qop, x, y, Width::W16) & 0xff;
    let r = bin_val(rop, x, y, Width::W16) & 0xff;
    lemma_mask(bin_val(qop, x, y, Width::W16), 0xff);
    lemma_mask(bin_val(rop, x, y, Width::W16), 0xff);
    lemma_shift_count(8, Width::W16);
    lemma_joined(r, q);
    assert(val(mx, ax, e) == q | bin_val(BinOp::Shl, r, 8, Width::W16));
    assert(val(mx, ax, e) == q + 0x100 * r);
    assert(register_part(AX) == Some((Reg::Rax, 0u32, Width::W16)));
    lemma_put(mx, AX, ax, mc, e);
    let full = eval(mc.arena.nodes@, mc.state.reg(Reg::Rax), e) as int;
    assert(full % 0x1_0000 == q + 0x100 * r);
    assert(full % 0x100 == (full % 0x1_0000) % 0x100);
    assert((full / 0x100) % 0x100 == (full % 0x1_0000) / 0x100);
}

} // verus!
