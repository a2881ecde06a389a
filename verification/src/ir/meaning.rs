//! What instructions do, in integers, by their mnemonics.

use crate::ir::alu::{arith_flags, cut_value, flags_only, logic_flags, val, wid};
use crate::ir::arith::{alu_flags, alu_shape, alu_steps, carry_steps};
use crate::ir::bits::lemma_sign_extend_low;
use crate::ir::decode::{Inst, REGISTER};
use crate::ir::event::Step;
use crate::ir::expr::{eval, has, Env, Ref};
use crate::ir::flags::carry_flag;
use crate::ir::fold::{bin_val, lemma_mask, wadd, wsub};
use crate::ir::lift::Emulator;
use crate::ir::machine::{immediate_width, op_read, op_written, quiet};
use crate::ir::mnemonic::{ADC, ADD, AND, CMP, OR, SBB, SUB, TEST, XOR};
use crate::ir::settle::lemma_constant_value;
use crate::ir::step::evaluates;
use crate::ir::value::{BinOp, Reg, Width};
use crate::ir::words::{
    as_signed, digits_set, lemma_bits_fit, lemma_difference, lemma_difference_overflows, lemma_half_carry, lemma_negative,
    lemma_parity, lemma_part_read, lemma_part_written, lemma_sum, lemma_sum_overflows, part_of, range_of_bits,
};
use crate::ir::x86::register_part;
use crate::vm::state::Flag;
use vstd::prelude::*;

verus! {

/// What a numbered register holds, as a number.
pub open spec fn held(m: Emulator, code: u32, e: Env) -> int {
    match register_part(code) {
        Some((base, offset, w)) => part_of(
            eval(m.arena.nodes@, m.state.reg(base), e) as int,
            offset == 1,
            w,
        ),
        None => 0,
    }
}

/// What the register that a numbered register is part of holds.
pub open spec fn whole(m: Emulator, code: u32, e: Env) -> int {
    match register_part(code) {
        Some((base, _, _)) => eval(m.arena.nodes@, m.state.reg(base), e) as int,
        None => 0,
    }
}

/// What becomes of the rest of a register when a part of it is written: 32 bits clear it, and
/// fewer leave it.
pub open spec fn rest_kept(m0: Emulator, m1: Emulator, code: u32, w: Width, e: Env) -> bool {
    &&& w == Width::W32 ==> whole(m1, code, e) == held(m1, code, e)
    &&& w == Width::W16 || w == Width::W8 ==> whole(m1, code, e) / 0x1_0000 == whole(m0, code, e)
        / 0x1_0000
}

/// What a flag is worth.
pub open spec fn flag_value(m: Emulator, f: Flag, e: Env) -> int {
    eval(m.arena.nodes@, m.state.flag(f), e) as int
}

/// Whether operand `i` is a general purpose register of a width.
pub open spec fn is_register(inst: Inst, i: int, w: Width) -> bool {
    &&& inst.ops@[i].kind == REGISTER
    &&& register_part(inst.ops@[i].register) matches Some((_, _, x))
    &&& x == w
}

/// Whether operand `i` is such a register, or an immediate of the width.
pub open spec fn is_plain(inst: Inst, i: int, w: Width) -> bool {
    is_register(inst, i, w) || (inst.ops@[i].kind != REGISTER && inst.ops@[i].kind
        != crate::ir::decode::MEMORY && immediate_width(inst.ops@[i].kind) == Some(w))
}

/// What such an operand is worth.
pub open spec fn worth(m: Emulator, inst: Inst, i: int, w: Width, e: Env) -> int {
    if inst.ops@[i].kind == REGISTER {
        held(m, inst.ops@[i].register, e)
    } else {
        inst.ops@[i].immediate as int % range_of_bits(w)
    }
}

/// Whether nothing but one register and the flags differs between two machines.
pub open spec fn only_changes(m0: Emulator, m1: Emulator, code: u32) -> bool {
    &&& m1.state.mem@ == m0.state.mem@
    &&& m1.events@ == m0.events@
    &&& forall|r: Reg|
        (register_part(code) matches Some((base, _, _)) ==> r != base) ==> #[trigger] m1.state.reg(r)
            == m0.state.reg(r)
}

/// Every numbered register starts at the lowest byte of a register or at the second.
proof fn lemma_register(code: u32)
    ensures
        register_part(code) matches Some((_, offset, w)) ==> offset == 0 || (offset == 1 && w
            == Width::W8),
{
}

proof fn lemma_modulus(x: u64, w: Width)
    ensures
        x & w.mask() == x as int % range_of_bits(w),
{
    lemma_part_read(x, 0, w);
}

/// A register or an immediate is read as what it is worth.
pub proof fn lemma_read(m0: Emulator, inst: Inst, i: int, w: Width, m1: Emulator, v: Ref, e: Env)
    requires
        m0.wf(),
        op_read(m0, inst, i, m1, v),
        is_plain(inst, i, w),
    ensures
        quiet(m0, m1),
        has(m1.arena.nodes@, v),
        wid(m1, v) == w,
        val(m1, v, e) == worth(m0, inst, i, w, e),
        val(m1, v, e) <= w.mask(),
{
    reveal(op_read);
    let o = inst.ops@[i];
    if o.kind == REGISTER {
        let (base, offset, x) = register_part(o.register)->0;
        lemma_register(o.register);
        lemma_part_read(eval(m0.arena.nodes@, m0.state.reg(base), e), offset, w);
    } else {
        lemma_constant_value(m1.arena.nodes@, v, e);
        lemma_modulus(o.immediate, w);
        lemma_mask(o.immediate, w.mask());
    }
}

/// A register that is written holds what was written, and the other registers stay.
pub proof fn lemma_written(m0: Emulator, inst: Inst, i: int, w: Width, v: Ref, m1: Emulator, e: Env)
    requires
        op_written(m0, inst, i, v, m1),
        is_register(inst, i, w),
        val(m0, v, e) <= w.mask(),
        m0.state.regs@.len() == 16,
    ensures
        held(m1, inst.ops@[i].register, e) == val(m0, v, e),
        only_changes(m0, m1, inst.ops@[i].register),
        m1.state.flags@ == m0.state.flags@,
        m1.arena.continues(m0.arena),
        rest_kept(m0, m1, inst.ops@[i].register, w, e),
{
    reveal(op_written);
    let code = inst.ops@[i].register;
    let (base, offset, x) = register_part(code)->0;
    lemma_register(code);
    let full = eval(m0.arena.nodes@, m0.state.reg(base), e);
    lemma_part_written(full, offset, w, val(m0, v, e));
    assert forall|r: Reg| r != base implies #[trigger] m1.state.reg(r) == m0.state.reg(r) by {
        lemma_reg_numbers(r, base);
    }
}

pub proof fn lemma_reg_numbers(a: Reg, b: Reg)
    ensures
        a.number() == b.number() ==> a == b,
        a.number() < 16,
{
}

/// What a two-operand instruction makes of `d` and `s` with the carry `c`.
pub open spec fn combined(mnemonic: u32, d: int, s: int, c: int, w: Width) -> int {
    if mnemonic == ADD {
        (d + s) % range_of_bits(w)
    } else if mnemonic == ADC {
        (d + s + c) % range_of_bits(w)
    } else if mnemonic == SUB || mnemonic == CMP {
        (d - s) % range_of_bits(w)
    } else if mnemonic == SBB {
        (d - s - c) % range_of_bits(w)
    } else if mnemonic == AND || mnemonic == TEST {
        ((d as u64) & (s as u64)) as int
    } else if mnemonic == OR {
        ((d as u64) | (s as u64)) as int
    } else {
        ((d as u64) ^ (s as u64)) as int
    }
}

/// Whether a two-operand instruction carries out of `d` and `s`: a sum that does not fit, or a
/// difference that borrows.
pub open spec fn carries(mnemonic: u32, d: int, s: int, c: int, w: Width) -> bool {
    if mnemonic == ADD {
        d + s >= range_of_bits(w)
    } else if mnemonic == ADC {
        d + s + c >= range_of_bits(w)
    } else if mnemonic == SUB || mnemonic == CMP {
        d < s
    } else if mnemonic == SBB {
        d < s + c
    } else {
        false
    }
}

/// Whether a two-operand instruction overflows: the signed result is not that of the signed
/// operands.
pub open spec fn overflows(mnemonic: u32, d: int, s: int, c: int, w: Width) -> bool {
    let r = as_signed(combined(mnemonic, d, s, c, w), w);
    if mnemonic == ADD {
        r != as_signed(d, w) + as_signed(s, w)
    } else if mnemonic == ADC {
        r != as_signed(d, w) + as_signed(s, w) + c
    } else if mnemonic == SUB || mnemonic == CMP {
        r != as_signed(d, w) - as_signed(s, w)
    } else if mnemonic == SBB {
        r != as_signed(d, w) - as_signed(s, w) - c
    } else {
        false
    }
}

/// Whether a two-operand instruction carries out of its lowest four digits, or borrows there.
pub open spec fn half_carries(mnemonic: u32, d: int, s: int, c: int) -> bool {
    if mnemonic == ADD {
        d % 16 + s % 16 >= 16
    } else if mnemonic == ADC {
        d % 16 + s % 16 + c >= 16
    } else if mnemonic == SUB || mnemonic == CMP {
        d % 16 < s % 16
    } else {
        d % 16 < s % 16 + c
    }
}

/// The mnemonics of the two-operand instructions that add or subtract.
pub open spec fn is_sum(mnemonic: u32) -> bool {
    mnemonic == ADD || mnemonic == ADC || mnemonic == SUB || mnemonic == SBB || mnemonic == CMP
}

/// The mnemonics of the two-operand instructions.
pub open spec fn is_two_operand(mnemonic: u32) -> bool {
    mnemonic == ADD || mnemonic == ADC || mnemonic == SUB || mnemonic == SBB || mnemonic == CMP
        || mnemonic == AND || mnemonic == OR || mnemonic == XOR || mnemonic == TEST
}

/// 1 where a condition holds, and 0 where it does not.
pub open spec fn bit_of(b: bool) -> int {
    if b {
        1
    } else {
        0
    }
}

/// A value is cut to its own width without change.
pub proof fn lemma_second(s: u64, w: Width)
    requires
        s <= w.mask(),
    ensures
        crate::ir::alu::second_value(s, w, w) == s,
{
    lemma_sign_extend_low(s, w, w.mask());
    lemma_mask(s, w.mask());
}

proof fn lemma_with_carry(d: u64, s: u64, c: u64, w: Width)
    requires
        d <= w.mask(),
        s <= w.mask(),
        c <= 1,
    ensures
        wadd(d, wadd(s, c & w.mask()) & w.mask()) & w.mask() == (d + s + c) % range_of_bits(w),
        wsub(d, wadd(s, c & w.mask()) & w.mask()) & w.mask() == (d - s - c) % range_of_bits(w),
        c & w.mask() == c,
{
    let n = range_of_bits(w);
    lemma_mask(c, w.mask());
    lemma_sum(s, c, w);
    let b = wadd(s, c) & w.mask();
    lemma_mask(wadd(s, c), w.mask());
    lemma_sum(d, b, w);
    lemma_difference(d, b, w);
    vstd::arithmetic::div_mod::lemma_add_mod_noop(d as int, s + c, n);
    vstd::arithmetic::div_mod::lemma_sub_mod_noop(d as int, s + c, n);
    vstd::arithmetic::div_mod::lemma_small_mod(d as nat, n as nat);
}

/// The value of the result of a two-operand instruction.
proof fn lemma_result(mnemonic: u32, op: BinOp, carry: bool, d: u64, s: u64, c: u64, w: Width) -> (r: u64)
    requires
        d <= w.mask(),
        s <= w.mask(),
        c <= 1,
        is_two_operand(mnemonic),
        carry == (mnemonic == ADC || mnemonic == SBB),
        op == (if mnemonic == ADD || mnemonic == ADC {
            BinOp::Add
        } else if mnemonic == SUB || mnemonic == SBB || mnemonic == CMP {
            BinOp::Sub
        } else if mnemonic == AND || mnemonic == TEST {
            BinOp::And
        } else if mnemonic == OR {
            BinOp::Or
        } else {
            BinOp::Xor
        }),
    ensures
        r == combined(mnemonic, d as int, s as int, c as int, w),
        r <= w.mask(),
        r == cut_value(
            op,
            d,
            w,
            if carry {
                bin_val(BinOp::Add, s, c & w.mask(), w)
            } else {
                s
            },
            w,
            w,
        ),
{
    let b = if carry {
        bin_val(BinOp::Add, s, c & w.mask(), w)
    } else {
        s
    };
    let r = cut_value(op, d, w, b, w, w);
    lemma_with_carry(d, s, c, w);
    lemma_sum(d, s, w);
    lemma_difference(d, s, w);
    lemma_bits_fit(d, s, w);
    let raw = bin_val(op, d, b, w);
    lemma_mask(raw, w.mask());
    lemma_mask(wadd(d, b), w.mask());
    lemma_mask(wsub(d, b), w.mask());
    r
}

/// Registers that stay hold the same while nodes are added.
pub proof fn lemma_held_same(m0: Emulator, m1: Emulator, code: u32, e: Env)
    requires
        m0.wf(),
        m1.arena.continues(m0.arena),
        register_part(code) matches Some((base, _, _)) ==> m1.state.reg(base) == m0.state.reg(base),
    ensures
        held(m1, code, e) == held(m0, code, e),
{
    if let Some((base, _, _)) = register_part(code) {
        lemma_reg_numbers(base, base);
        assert(has(m0.arena.nodes@, m0.state.regs@[base.number() as int]));
    }
}

pub proof fn lemma_same_worth(m0: Emulator, m1: Emulator, inst: Inst, i: int, w: Width, e: Env)
    requires
        m0.wf(),
        quiet(m0, m1),
    ensures
        worth(m1, inst, i, w, e) == worth(m0, inst, i, w, e),
{
    lemma_held_same(m0, m1, inst.ops@[i].register, e);
}

/// The flags a two-operand instruction leaves.
proof fn lemma_flags(
    m0: Emulator,
    mnemonic: u32,
    op: BinOp,
    carry: bool,
    a: Ref,
    x: Ref,
    c: Ref,
    r: Ref,
    w: Width,
    m1: Emulator,
    e: Env,
)
    requires
        m0.arena.wf(),
        alu_flags(
            m0,
            op,
            a,
            x,
            if carry {
                Some(c)
            } else {
                None
            },
            r,
            w,
            m1,
        ),
        is_two_operand(mnemonic),
        carry == (mnemonic == ADC || mnemonic == SBB),
        op == (if mnemonic == ADD || mnemonic == ADC {
            BinOp::Add
        } else if mnemonic == SUB || mnemonic == SBB || mnemonic == CMP {
            BinOp::Sub
        } else if mnemonic == AND || mnemonic == TEST {
            BinOp::And
        } else if mnemonic == OR {
            BinOp::Or
        } else {
            BinOp::Xor
        }),
        has(m0.arena.nodes@, a),
        has(m0.arena.nodes@, x),
        has(m0.arena.nodes@, c),
        has(m0.arena.nodes@, r),
        m0.state.flags@.len() == 7,
        forall|i: int| 0 <= i < 7 ==> has(m0.arena.nodes@, #[trigger] m0.state.flags@[i]),
        val(m0, a, e) <= w.mask(),
        val(m0, x, e) <= w.mask(),
        val(m0, c, e) <= 1,
        val(m0, r, e) == combined(
            mnemonic,
            val(m0, a, e) as int,
            val(m0, x, e) as int,
            val(m0, c, e) as int,
            w,
        ),
        val(m0, r, e) <= w.mask(),
    ensures
        flags_only(m0, m1),
        flag_value(m1, Flag::Cf, e) == bit_of(
            carries(
                mnemonic,
                val(m0, a, e) as int,
                val(m0, x, e) as int,
                val(m0, c, e) as int,
                w,
            ),
        ),
        flag_value(m1, Flag::Zf, e) == bit_of(val(m0, r, e) == 0),
        flag_value(m1, Flag::Sf, e) == bit_of(as_signed(val(m0, r, e) as int, w) < 0),
        flag_value(m1, Flag::Of, e) == bit_of(
            overflows(
                mnemonic,
                val(m0, a, e) as int,
                val(m0, x, e) as int,
                val(m0, c, e) as int,
                w,
            ),
        ),
        flag_value(m1, Flag::Df, e) == flag_value(m0, Flag::Df, e),
        flag_value(m1, Flag::Pf, e) == bit_of(
            digits_set(val(m0, r, e) as int % 0x100, 8) % 2 == 0,
        ),
        is_sum(mnemonic) ==> flag_value(m1, Flag::Af, e) == bit_of(
            half_carries(
                mnemonic,
                val(m0, a, e) as int,
                val(m0, x, e) as int,
                val(m0, c, e) as int,
            ),
        ),
{
    let d = val(m0, a, e);
    let s = val(m0, x, e);
    let k = val(m0, c, e);
    let v = val(m0, r, e);
    lemma_parity(v);
    lemma_half_carry(d, s, v, w);
    lemma_with_carry(d, s, k, w);
    lemma_with_carry(d, s, 0, w);
    lemma_sum(d, s, w);
    lemma_difference(d, s, w);
    lemma_sum(s, 0, w);
    lemma_negative(v, w);
    lemma_mask(d, w.mask());
    lemma_mask(s, w.mask());
    lemma_mask(k, w.mask());
    assert(has(m0.arena.nodes@, m0.state.flags@[6]));
    if carry {
        let sum = op == BinOp::Add;
        let (mk, kr, mg) = choose|mk: Emulator, kr: Ref, mg: Emulator| #[trigger]
            carry_steps(m0, sum, a, x, c, r, w, mk, kr, mg, m1);
        reveal(arith_flags);
        assert(val(mk, a, e) == d && val(mk, x, e) == s && val(mk, r, e) == v);
        assert(val(mk, kr, e) == carry_flag(sum, d, s, k, w));
        assert(val(mg, kr, e) == val(mk, kr, e));
        crate::ir::subst::lemma_continues_twice(m0.arena, mk.arena, mg.arena);
        assert(m1.state.flags@ == mg.state.flags@.update(0, kr));
        assert(mg.state.flags@.len() == 7);
        assert(m1.state.flag(Flag::Zf) == mg.state.flag(Flag::Zf));
        assert(m1.state.flag(Flag::Sf) == mg.state.flag(Flag::Sf));
        assert(m1.state.flag(Flag::Of) == mg.state.flag(Flag::Of));
        assert(m1.state.flag(Flag::Pf) == mg.state.flag(Flag::Pf));
        assert(m1.state.flag(Flag::Af) == mg.state.flag(Flag::Af));
        assert(m1.state.flag(Flag::Df) == mg.state.flag(Flag::Df));
        assert(val(mg, mg.state.flag(Flag::Zf), e) == crate::ir::flags::zero_flag(v));
        assert(val(mg, mg.state.flag(Flag::Sf), e) == crate::ir::flags::sign_flag(v, w));
        if sum {
            lemma_sum_overflows(d, s, k as int, v, w);
        } else {
            lemma_difference_overflows(d, s, k as int, v, w);
        }
    } else if op == BinOp::Add {
        reveal(arith_flags);
        lemma_sum_overflows(d, s, 0, v, w);
        lemma_sum_carries(d, s, v, w);
    } else if op == BinOp::Sub {
        reveal(arith_flags);
        lemma_difference_overflows(d, s, 0, v, w);
    } else {
        reveal(logic_flags);
        lemma_constant_value(m1.arena.nodes@, m1.state.flag(Flag::Cf), e);
        lemma_constant_value(m1.arena.nodes@, m1.state.flag(Flag::Of), e);
    }
}

/// A sum that wraps is below its first operand.
proof fn lemma_sum_carries(d: u64, s: u64, v: u64, w: Width)
    requires
        d <= w.mask(),
        s <= w.mask(),
        v == (d + s) % range_of_bits(w),
    ensures
        v < d <==> d + s >= range_of_bits(w),
{
    let n = range_of_bits(w);
    if d + s < n {
        vstd::arithmetic::div_mod::lemma_small_mod((d + s) as nat, n as nat);
    } else {
        vstd::arithmetic::div_mod::lemma_mod_add_multiples_vanish(d + s - n, n);
        vstd::arithmetic::div_mod::lemma_small_mod((d + s - n) as nat, n as nat);
    }
}

/// A two-operand instruction on a register and a register or an immediate of its width. The
/// register becomes the sum, the difference or the bitwise combination, with the carry taking
/// part for `adc` and `sbb`; `cmp` and `test` leave it. The carry flag says whether the sum
/// did not fit or the difference was below zero, the overflow flag whether the signed result
/// is wrong, and the zero and sign flags go by the result.
#[verifier::spinoff_prover]
#[verifier::rlimit(60)]
pub proof fn two_operands_are_combined(
    m0: Emulator,
    inst: Inst,
    m1: Emulator,
    out: Step,
    w: Width,
    e: Env,
)
    requires
        m0.wf(),
        evaluates(m0, inst, m1, out),
        !inst.seg_relative(),
        is_two_operand(inst.head.mnemonic),
        inst.op_width_spec(0) == w,
        is_register(inst, 0, w),
        is_plain(inst, 1, w),
        flag_value(m0, Flag::Cf, e) <= 1,
    ensures
        out == Step::Next(inst.head.next_ip),
        ({
            let k = inst.head.mnemonic;
            let code = inst.ops@[0].register;
            let d = held(m0, code, e);
            let s = worth(m0, inst, 1, w, e);
            let c = flag_value(m0, Flag::Cf, e);
            let r = combined(k, d, s, c, w);
            &&& 0 <= r < range_of_bits(w)
            &&& held(m1, code, e) == if k == CMP || k == TEST {
                d
            } else {
                r
            }
            &&& only_changes(m0, m1, code)
            &&& k != CMP && k != TEST ==> rest_kept(m0, m1, code, w, e)
            &&& flag_value(m1, Flag::Cf, e) == bit_of(carries(k, d, s, c, w))
            &&& flag_value(m1, Flag::Zf, e) == bit_of(r == 0)
            &&& flag_value(m1, Flag::Sf, e) == bit_of(as_signed(r, w) < 0)
            &&& flag_value(m1, Flag::Of, e) == bit_of(overflows(k, d, s, c, w))
            &&& flag_value(m1, Flag::Df, e) == flag_value(m0, Flag::Df, e)
            &&& flag_value(m1, Flag::Pf, e) == bit_of(digits_set(r % 0x100, 8) % 2 == 0)
            &&& is_sum(k) ==> flag_value(m1, Flag::Af, e) == bit_of(half_carries(k, d, s, c))
        }),
{
    let k = inst.head.mnemonic;
    let shape = alu_shape(crate::ir::mnemonic::kind(k))->0;
    let (op, carry, keep) = shape;
    let (ma, a, mb, b0, mx, x, mc, b, md, r, me) = choose|
        ma: Emulator,
        a: Ref,
        mb: Emulator,
        b0: Ref,
        mx: Emulator,
        x: Ref,
        mc: Emulator,
        b: Ref,
        md: Emulator,
        r: Ref,
        me: Emulator,
    | #[trigger] alu_steps(m0, inst, shape, ma, a, mb, b0, mx, x, mc, b, md, r, me, m1);
    let code = inst.ops@[0].register;
    lemma_read(m0, inst, 0, w, ma, a, e);
    crate::ir::machine::lemma_quiet(m0, ma);
    lemma_read(ma, inst, 1, w, mb, b0, e);
    lemma_same_worth(m0, ma, inst, 1, w, e);
    crate::ir::machine::lemma_quiet(ma, mb);
    crate::ir::machine::lemma_quiet(mb, mx);
    crate::ir::machine::lemma_quiet(mx, mc);
    crate::ir::machine::lemma_quiet(mc, md);
    let d = val(ma, a, e);
    let c = eval(m0.arena.nodes@, m0.state.flag(Flag::Cf), e);
    let s = val(mb, b0, e);
    lemma_second(s, w);
    let cf = mb.state.flag(Flag::Cf);
    assert(cf == m0.state.flag(Flag::Cf));
    assert(has(m0.arena.nodes@, m0.state.flags@[0]));
    assert(val(ma, cf, e) == c);
    assert(val(mb, cf, e) == c && val(mb, a, e) == d);
    assert(val(mx, cf, e) == c && val(mx, a, e) == d && val(mx, x, e) == s);
    assert(wid(mb, a) == w && wid(mx, a) == w && wid(mc, a) == w);
    let res = lemma_result(k, op, carry, d, s, c, w);
    assert(val(mc, a, e) == d && val(mc, x, e) == s && val(mc, cf, e) == c);
    assert(val(md, r, e) == res);
    assert(val(md, a, e) == d && val(md, x, e) == s && val(md, cf, e) == c);
    assert(md.state == m0.state);
    lemma_flags(md, k, op, carry, a, x, cf, r, w, me, e);
    assert(val(me, r, e) == res);
    assert(me.state.regs@ == m0.state.regs@);
    lemma_reach(m0, ma, mb, mx, mc, md, me);
    let df = m0.state.flag(Flag::Df);
    assert(has(m0.arena.nodes@, m0.state.flags@[6]));
    if keep {
        lemma_written(me, inst, 0, w, r, m1, e);
        assert forall|f: Flag| flag_value(m1, f, e) == #[trigger] flag_value(me, f, e) by {
            assert(has(me.arena.nodes@, me.state.flags@[f.slot() as int]));
        }
        assert(flag_value(m1, Flag::Cf, e) == flag_value(me, Flag::Cf, e));
        assert(flag_value(m1, Flag::Zf, e) == flag_value(me, Flag::Zf, e));
        assert(flag_value(m1, Flag::Sf, e) == flag_value(me, Flag::Sf, e));
        assert(flag_value(m1, Flag::Of, e) == flag_value(me, Flag::Of, e));
        assert(flag_value(m1, Flag::Df, e) == flag_value(me, Flag::Df, e));
        assert(flag_value(m1, Flag::Pf, e) == flag_value(me, Flag::Pf, e));
        assert(flag_value(m1, Flag::Af, e) == flag_value(me, Flag::Af, e));
    } else {
        lemma_held_same(m0, m1, code, e);
    }
    assert(flag_value(md, Flag::Df, e) == flag_value(m0, Flag::Df, e));
}

/// An arena reached in steps continues the first.
proof fn lemma_reach(
    m0: Emulator,
    ma: Emulator,
    mb: Emulator,
    mx: Emulator,
    mc: Emulator,
    md: Emulator,
    me: Emulator,
)
    requires
        ma.arena.continues(m0.arena),
        mb.arena.continues(ma.arena),
        mx.arena.continues(mb.arena),
        mc.arena.continues(mx.arena),
        md.arena.continues(mc.arena),
        me.arena.continues(md.arena),
    ensures
        md.arena.continues(m0.arena),
        me.arena.continues(m0.arena),
{
    crate::ir::subst::lemma_continues_twice(m0.arena, ma.arena, mb.arena);
    crate::ir::subst::lemma_continues_twice(m0.arena, mb.arena, mx.arena);
    crate::ir::subst::lemma_continues_twice(m0.arena, mx.arena, mc.arena);
    crate::ir::subst::lemma_continues_twice(m0.arena, mc.arena, md.arena);
    crate::ir::subst::lemma_continues_twice(m0.arena, md.arena, me.arena);
}

} // verus!
