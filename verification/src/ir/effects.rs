//! What instructions move and where they go, in integers, by their mnemonics.

use crate::ir::alu::{val, wid};
use crate::ir::arith::{count_steps, neg_steps};
use crate::ir::branch::branch_steps;
use crate::ir::decode::Inst;
use crate::ir::event::{Step, Stop};
use crate::ir::expr::{const_of, eval, has, Env, Ref};
use crate::ir::fold::{lemma_mask, sign_extend_spec, wadd, wmul, wsub};
use crate::ir::lift::Emulator;
use crate::ir::machine::{effective_address, lemma_quiet, op_written};
use crate::ir::meaning::{
    bit_of, flag_value, held, is_plain, is_register, lemma_held_same, lemma_read, lemma_reg_numbers,
    lemma_same_worth, lemma_written, only_changes, rest_kept, worth,
};
use crate::ir::mnemonic::{
    kind, ConditionCode, Kind, BSWAP, CMOVA, CMOVAE, CMOVB, CMOVBE, CMOVE, CMOVG, CMOVGE, CMOVL, CMOVLE,
    CMOVNE, CMOVNO, CMOVNP, CMOVNS, CMOVO, CMOVP, CMOVS, DEC, INC, JA, JAE, JB, JBE, JE, JG, JGE,
    JL, JLE, JNE, JNO, JNP, JNS, JO, JP, JS, LEA, MOV, MOVSX, MOVSXD, MOVZX, NEG, NOT, SETA, SETAE,
    SETB, SETBE, SETE, SETG, SETGE, SETL, SETLE, SETNE, SETNO, SETNP, SETNS, SETO, SETP, SETS, XCHG,
};
use crate::ir::step::evaluates;
use crate::ir::subst::lemma_continues_twice;
use crate::ir::transfer::{
    cmov_steps, cond_val, lea_steps, move_steps, moved_value, setcc_steps, swap_steps,
};
use crate::ir::value::Width;
use crate::ir::words::{
    as_signed, lemma_difference, lemma_difference_overflows, lemma_extended, lemma_flag_bits,
    lemma_negative, lemma_sum, lemma_sum_overflows, range_of_bits,
};
use crate::ir::x86::register_part;
use crate::vm::state::Flag;
use vstd::prelude::*;

verus! {

/// Whether the flags are worth the same in two machines.
pub open spec fn flags_stay(m0: Emulator, m1: Emulator, e: Env) -> bool {
    forall|f: Flag| #[trigger] flag_value(m1, f, e) == flag_value(m0, f, e)
}

proof fn lemma_flags_stay(m0: Emulator, m1: Emulator, e: Env)
    requires
        m0.wf(),
        m1.arena.continues(m0.arena),
        m1.state.flags@ == m0.state.flags@,
    ensures
        flags_stay(m0, m1, e),
{
    assert forall|f: Flag| #[trigger] flag_value(m1, f, e) == flag_value(m0, f, e) by {
        assert(has(m0.arena.nodes@, m0.state.flags@[f.slot() as int]));
    }
}

/// What a move makes of its source `s` of width `x`, for a destination of width `w`.
pub open spec fn moved_number(mnemonic: u32, s: int, x: Width, w: Width) -> int {
    if mnemonic == MOVSX || mnemonic == MOVSXD {
        as_signed(s, x) % range_of_bits(w)
    } else if mnemonic == NOT {
        range_of_bits(w) - 1 - s
    } else {
        s
    }
}

/// Moves, extensions and the complement. The register becomes the source: as it is, with zeros
/// or copies of its sign in front, or with every bit flipped. Nothing else changes.
pub proof fn moves_give_the_source(
    m0: Emulator,
    inst: Inst,
    m1: Emulator,
    out: Step,
    x: Width,
    w: Width,
    e: Env,
)
    requires
        m0.wf(),
        evaluates(m0, inst, m1, out),
        !inst.seg_relative(),
        inst.head.mnemonic == MOV || inst.head.mnemonic == MOVZX || inst.head.mnemonic == MOVSX
            || inst.head.mnemonic == MOVSXD || inst.head.mnemonic == NOT,
        inst.op_width_spec(0) == w,
        is_register(inst, 0, w),
        inst.head.mnemonic == NOT ==> x == w,
        inst.head.mnemonic == MOV ==> x == w,
        x.bits() <= w.bits(),
        inst.head.mnemonic != NOT ==> is_plain(inst, 1, x),
    ensures
        out == Step::Next(inst.head.next_ip),
        held(m1, inst.ops@[0].register, e) == moved_number(
            inst.head.mnemonic,
            if inst.head.mnemonic == NOT {
                held(m0, inst.ops@[0].register, e)
            } else {
                worth(m0, inst, 1, x, e)
            },
            x,
            w,
        ),
        only_changes(m0, m1, inst.ops@[0].register),
        rest_kept(m0, m1, inst.ops@[0].register, w, e),
        flags_stay(m0, m1, e),
{
    let k = kind(inst.head.mnemonic);
    let (ma, v, mb, z) = choose|ma: Emulator, v: Ref, mb: Emulator, z: Ref| #[trigger]
        move_steps(m0, inst, k, ma, v, mb, z, m1);
    if inst.head.mnemonic == NOT {
        lemma_read(m0, inst, 0, w, ma, v, e);
    } else {
        lemma_read(m0, inst, 1, x, ma, v, e);
    }
    lemma_quiet(m0, ma);
    lemma_quiet(ma, mb);
    let s = val(ma, v, e);
    assert(val(mb, z, e) == moved_value(k, s, x, w));
    lemma_mask(s, w.mask());
    lemma_mask(s, x.mask());
    lemma_extended(s, x);
    lemma_mask(sign_extend_spec(s, x), w.mask());
    crate::ir::words::lemma_cut(sign_extend_spec(s, x), w);
    lemma_mod_of_word(as_signed(s as int, x), w);
    lemma_written(mb, inst, 0, w, z, m1, e);
    lemma_continues_twice(m0.arena, ma.arena, mb.arena);
    lemma_continues_twice(m0.arena, mb.arena, m1.arena);
    lemma_flags_stay(m0, m1, e);
    lemma_held_same(m0, mb, inst.ops@[0].register, e);
    lemma_whole_same(m0, mb, inst.ops@[0].register, e);
}

/// What a number is with its four or eight bytes in the other order.
pub open spec fn turned_round(x: int, w: Width) -> int {
    if w == Width::W32 {
        0x100_0000 * (x % 0x100) + 0x1_0000 * ((x / 0x100) % 0x100) + 0x100 * ((x / 0x1_0000) % 0x100)
            + x / 0x100_0000
    } else {
        0x100_0000_0000_0000 * (x % 0x100) + 0x1_0000_0000_0000 * ((x / 0x100) % 0x100)
            + 0x100_0000_0000 * ((x / 0x1_0000) % 0x100) + 0x1_0000_0000 * ((x / 0x100_0000) % 0x100)
            + 0x100_0000 * ((x / 0x1_0000_0000) % 0x100) + 0x1_0000 * ((x / 0x100_0000_0000) % 0x100)
            + 0x100 * ((x / 0x1_0000_0000_0000) % 0x100) + x / 0x100_0000_0000_0000
    }
}

/// `bswap` of a 32-bit or 64-bit register: its bytes stand in the other order.
pub proof fn a_byte_swap_turns_the_bytes_round(
    m0: Emulator,
    inst: Inst,
    m1: Emulator,
    out: Step,
    w: Width,
    e: Env,
)
    requires
        m0.wf(),
        evaluates(m0, inst, m1, out),
        !inst.seg_relative(),
        inst.head.mnemonic == BSWAP,
        w == Width::W32 || w == Width::W64,
        inst.op_width_spec(0) == w,
        is_register(inst, 0, w),
    ensures
        out == Step::Next(inst.head.next_ip),
        held(m1, inst.ops@[0].register, e) == turned_round(
            held(m0, inst.ops@[0].register, e),
            w,
        ),
        only_changes(m0, m1, inst.ops@[0].register),
        flags_stay(m0, m1, e),
{
    let k = kind(inst.head.mnemonic);
    let (ma, v, mb, z) = choose|ma: Emulator, v: Ref, mb: Emulator, z: Ref| #[trigger]
        move_steps(m0, inst, k, ma, v, mb, z, m1);
    lemma_read(m0, inst, 0, w, ma, v, e);
    lemma_quiet(m0, ma);
    lemma_quiet(ma, mb);
    let s = val(ma, v, e);
    assert(val(mb, z, e) == moved_value(k, s, w, w));
    crate::ir::known::lemma_bswap_fits(s);
    lemma_written(mb, inst, 0, w, z, m1, e);
    lemma_continues_twice(m0.arena, ma.arena, mb.arena);
    lemma_continues_twice(m0.arena, mb.arena, m1.arena);
    lemma_flags_stay(m0, m1, e);
}

/// A word's number, cut to a width, is the number cut to that width.
proof fn lemma_mod_of_word(v: int, w: Width)
    ensures
        (v % range_of_bits(Width::W64)) % range_of_bits(w) == v % range_of_bits(w),
{
    let n = range_of_bits(w);
    let q = range_of_bits(Width::W64);
    if w == Width::W8 {
        assert((v % 0x1_0000_0000_0000_0000) % 0x100 == v % 0x100) by (nonlinear_arith);
    } else if w == Width::W16 {
        assert((v % 0x1_0000_0000_0000_0000) % 0x1_0000 == v % 0x1_0000) by (nonlinear_arith);
    } else if w == Width::W32 {
        assert((v % 0x1_0000_0000_0000_0000) % 0x1_0000_0000 == v % 0x1_0000_0000)
            by (nonlinear_arith);
    } else {
        vstd::arithmetic::div_mod::lemma_mod_twice(v, q);
    }
}

proof fn lemma_whole_same(m0: Emulator, m1: Emulator, code: u32, e: Env)
    requires
        m0.wf(),
        m1.arena.continues(m0.arena),
        register_part(code) matches Some((base, _, _)) ==> m1.state.reg(base) == m0.state.reg(base),
    ensures
        crate::ir::meaning::whole(m1, code, e) == crate::ir::meaning::whole(m0, code, e),
{
    if let Some((base, _, _)) = register_part(code) {
        lemma_reg_numbers(base, base);
        assert(has(m0.arena.nodes@, m0.state.regs@[base.number() as int]));
    }
}

/// `neg`: the register becomes zero minus itself. The carry says whether it was not zero, and
/// the other flags are those of that difference.
pub proof fn negation_is_subtraction_from_zero(
    m0: Emulator,
    inst: Inst,
    m1: Emulator,
    out: Step,
    w: Width,
    e: Env,
)
    requires
        m0.wf(),
        evaluates(m0, inst, m1, out),
        !inst.seg_relative(),
        inst.head.mnemonic == NEG,
        inst.op_width_spec(0) == w,
        is_register(inst, 0, w),
    ensures
        out == Step::Next(inst.head.next_ip),
        ({
            let code = inst.ops@[0].register;
            let d = held(m0, code, e);
            let r = (0 - d) % range_of_bits(w);
            &&& held(m1, code, e) == r
            &&& only_changes(m0, m1, code)
            &&& rest_kept(m0, m1, code, w, e)
            &&& flag_value(m1, Flag::Cf, e) == bit_of(d != 0)
            &&& flag_value(m1, Flag::Zf, e) == bit_of(r == 0)
            &&& flag_value(m1, Flag::Sf, e) == bit_of(as_signed(r, w) < 0)
            &&& flag_value(m1, Flag::Of, e) == bit_of(as_signed(r, w) != 0 - as_signed(d, w))
        }),
{
    let (ma, a, mb, zero, mc, r, md) = choose|
        ma: Emulator,
        a: Ref,
        mb: Emulator,
        zero: Ref,
        mc: Emulator,
        r: Ref,
        md: Emulator,
    | #[trigger] neg_steps(m0, inst, ma, a, mb, zero, mc, r, md, m1);
    lemma_read(m0, inst, 0, w, ma, a, e);
    lemma_quiet(m0, ma);
    lemma_quiet(ma, mb);
    lemma_quiet(mb, mc);
    let d = val(ma, a, e);
    assert(val(mb, a, e) == d && val(mc, a, e) == d && wid(mb, a) == w);
    assert(val(mb, zero, e) == 0 && val(mc, zero, e) == 0);
    lemma_difference(0, d, w);
    lemma_mask(wsub(0, d), w.mask());
    let v = val(mc, r, e);
    assert(v == (0 - d) % range_of_bits(w));
    lemma_negative(v, w);
    lemma_difference_overflows(0, d, 0, v, w);
    reveal(crate::ir::alu::arith_flags);
    assert(val(md, r, e) == v);
    lemma_continues_twice(m0.arena, ma.arena, mb.arena);
    lemma_continues_twice(m0.arena, mb.arena, mc.arena);
    lemma_continues_twice(m0.arena, mc.arena, md.arena);
    lemma_written(md, inst, 0, w, r, m1, e);
    lemma_whole_same(m0, md, inst.ops@[0].register, e);
    lemma_flags_carried(md, m1, e);
}

/// Flags that stay are worth the same while nodes are added.
proof fn lemma_flags_carried(m0: Emulator, m1: Emulator, e: Env)
    requires
        m1.arena.continues(m0.arena),
        m1.state.flags@ == m0.state.flags@,
        m0.state.flags@.len() == 7,
        forall|i: int|
            0 <= i < m0.state.flags@.len() ==> has(m0.arena.nodes@, #[trigger] m0.state.flags@[i]),
    ensures
        forall|f: Flag| #[trigger] flag_value(m1, f, e) == flag_value(m0, f, e),
        flag_value(m1, Flag::Cf, e) == flag_value(m0, Flag::Cf, e),
        flag_value(m1, Flag::Zf, e) == flag_value(m0, Flag::Zf, e),
        flag_value(m1, Flag::Sf, e) == flag_value(m0, Flag::Sf, e),
        flag_value(m1, Flag::Of, e) == flag_value(m0, Flag::Of, e),
{
    assert forall|f: Flag| #[trigger] flag_value(m1, f, e) == flag_value(m0, f, e) by {
        assert(has(m0.arena.nodes@, m0.state.flags@[f.slot() as int]));
    }
}

/// `inc` and `dec`: the register goes up or down by one, around the end. The carry stays, and
/// the other flags are those of the sum or the difference.
pub proof fn counting_goes_by_one(
    m0: Emulator,
    inst: Inst,
    m1: Emulator,
    out: Step,
    w: Width,
    e: Env,
)
    requires
        m0.wf(),
        evaluates(m0, inst, m1, out),
        !inst.seg_relative(),
        inst.head.mnemonic == INC || inst.head.mnemonic == DEC,
        inst.op_width_spec(0) == w,
        is_register(inst, 0, w),
    ensures
        out == Step::Next(inst.head.next_ip),
        ({
            let code = inst.ops@[0].register;
            let by = if inst.head.mnemonic == INC {
                1int
            } else {
                -1int
            };
            let d = held(m0, code, e);
            let r = (d + by) % range_of_bits(w);
            &&& held(m1, code, e) == r
            &&& only_changes(m0, m1, code)
            &&& rest_kept(m0, m1, code, w, e)
            &&& flag_value(m1, Flag::Cf, e) == flag_value(m0, Flag::Cf, e)
            &&& flag_value(m1, Flag::Zf, e) == bit_of(r == 0)
            &&& flag_value(m1, Flag::Sf, e) == bit_of(as_signed(r, w) < 0)
            &&& flag_value(m1, Flag::Of, e) == bit_of(as_signed(r, w) != as_signed(d, w) + by)
        }),
{
    let up = inst.head.mnemonic == INC;
    let (ma, a, mb, one, mc, r, md, me) = choose|
        ma: Emulator,
        a: Ref,
        mb: Emulator,
        one: Ref,
        mc: Emulator,
        r: Ref,
        md: Emulator,
        me: Emulator,
    | #[trigger] count_steps(m0, inst, up, ma, a, mb, one, mc, r, md, me, m1);
    lemma_read(m0, inst, 0, w, ma, a, e);
    lemma_quiet(m0, ma);
    lemma_quiet(ma, mb);
    lemma_quiet(mb, mc);
    let d = val(ma, a, e);
    assert(val(mb, a, e) == d && val(mc, a, e) == d && wid(mb, a) == w);
    assert(val(mb, one, e) == 1 && val(mc, one, e) == 1);
    lemma_difference(d, 1, w);
    lemma_sum(d, 1, w);
    lemma_mask(wsub(d, 1), w.mask());
    lemma_mask(wadd(d, 1), w.mask());
    let v = val(mc, r, e);
    lemma_negative(v, w);
    if up {
        assert(v == (d + 1) % range_of_bits(w));
        lemma_sum_overflows(d, 1, 0, v, w);
    } else {
        assert(v == (d - 1) % range_of_bits(w));
        lemma_difference_overflows(d, 1, 0, v, w);
    }
    reveal(crate::ir::alu::arith_flags);
    lemma_continues_twice(m0.arena, ma.arena, mb.arena);
    lemma_continues_twice(m0.arena, mb.arena, mc.arena);
    lemma_continues_twice(m0.arena, mc.arena, md.arena);
    assert(val(md, r, e) == v);
    let cf = mc.state.flag(Flag::Cf);
    assert(cf == m0.state.flag(Flag::Cf));
    assert(has(m0.arena.nodes@, m0.state.flags@[0]));
    assert(md.state.flags@.len() == 7);
    assert(me.state.flag(Flag::Cf) == cf);
    assert(me.state.flag(Flag::Zf) == md.state.flag(Flag::Zf));
    assert(me.state.flag(Flag::Sf) == md.state.flag(Flag::Sf));
    assert(me.state.flag(Flag::Of) == md.state.flag(Flag::Of));
    lemma_written(me, inst, 0, w, r, m1, e);
    lemma_whole_same(m0, me, inst.ops@[0].register, e);
    lemma_flags_carried(me, m1, e);
}

/// Whether a numbered register is a whole one.
pub open spec fn is_wide(code: u32) -> bool {
    register_part(code) matches Some((_, _, w)) && w == Width::W64
}

/// `lea`: the register becomes the address, base plus scaled index plus displacement, and
/// memory is not touched.
pub proof fn an_address_is_computed(
    m0: Emulator,
    inst: Inst,
    m1: Emulator,
    out: Step,
    w: Width,
    b: u32,
    i: u32,
    e: Env,
)
    requires
        m0.wf(),
        evaluates(m0, inst, m1, out),
        !(inst.seg_relative() && m0.box_unmodelled),
        inst.head.mnemonic == LEA,
        inst.op_width_spec(0) == w,
        is_register(inst, 0, w),
        inst.head.base == b,
        inst.head.index == i,
        is_wide(b),
        is_wide(i),
        inst.head.scale <= 8,
    ensures
        out == Step::Next(inst.head.next_ip),
        held(m1, inst.ops@[0].register, e) == (held(m0, b, e) + held(m0, i, e) * inst.head.scale
            + inst.head.displacement) % range_of_bits(w),
        only_changes(m0, m1, inst.ops@[0].register),
        rest_kept(m0, m1, inst.ops@[0].register, w, e),
        flags_stay(m0, m1, e),
{
    let (ma, a, mb, z) = choose|ma: Emulator, a: Ref, mb: Emulator, z: Ref| #[trigger]
        lea_steps(m0, inst, ma, a, mb, z, m1);
    lemma_quiet(m0, ma);
    lemma_quiet(ma, mb);
    assert(b != crate::ir::decode::RIP && b != crate::ir::decode::EIP);
    let (rb, ob, wb) = register_part(b)->0;
    let (ri, oi, wi) = register_part(i)->0;
    let fb = eval(m0.arena.nodes@, m0.state.reg(rb), e);
    let fi = eval(m0.arena.nodes@, m0.state.reg(ri), e);
    crate::ir::words::lemma_part_read(fb, ob, Width::W64);
    crate::ir::words::lemma_part_read(fi, oi, Width::W64);
    let d = inst.head.displacement;
    let sc = inst.head.scale as u64;
    let full = val(ma, a, e);
    assert(full == effective_address(m0, inst, e));
    crate::ir::words::lemma_wide(d, fb);
    crate::ir::words::lemma_wide(wadd(d, fb), wmul(fi, sc));
    crate::ir::known::lemma_wmul_mod(fi, sc);
    let n = range_of_bits(Width::W64);
    vstd::arithmetic::div_mod::lemma_add_mod_noop(d + fb, fi * sc, n);
    lemma_mod_of_word(d + fb + fi * sc, w);
    crate::ir::words::lemma_cut(full, w);
    lemma_mask(full, w.mask());
    assert(val(mb, z, e) == full & w.mask());
    lemma_continues_twice(m0.arena, ma.arena, mb.arena);
    lemma_written(mb, inst, 0, w, z, m1, e);
    lemma_continues_twice(m0.arena, mb.arena, m1.arena);
    lemma_flags_stay(m0, m1, e);
    lemma_whole_same(m0, mb, inst.ops@[0].register, e);
    assert(held(m0, b, e) == fb);
    assert(held(m0, i, e) == fi);
}

/// Whether two numbered registers are parts of different registers.
pub open spec fn apart(a: u32, b: u32) -> bool {
    match (register_part(a), register_part(b)) {
        (Some((x, _, _)), Some((y, _, _))) => x != y,
        _ => false,
    }
}

/// `xchg` of two registers: each gets what the other held.
pub proof fn exchanged_registers_trade_values(
    m0: Emulator,
    inst: Inst,
    m1: Emulator,
    out: Step,
    w: Width,
    e: Env,
)
    requires
        m0.wf(),
        evaluates(m0, inst, m1, out),
        !inst.seg_relative(),
        inst.head.mnemonic == XCHG,
        is_register(inst, 0, w),
        is_register(inst, 1, w),
        apart(inst.ops@[0].register, inst.ops@[1].register),
    ensures
        out == Step::Next(inst.head.next_ip),
        held(m1, inst.ops@[0].register, e) == held(m0, inst.ops@[1].register, e),
        held(m1, inst.ops@[1].register, e) == held(m0, inst.ops@[0].register, e),
        flags_stay(m0, m1, e),
        m1.state.mem@ == m0.state.mem@,
{
    let (ma, a, mb, b, mc) = choose|ma: Emulator, a: Ref, mb: Emulator, b: Ref, mc: Emulator|
     #[trigger]
        swap_steps(m0, inst, ma, a, mb, b, mc, m1);
    lemma_read(m0, inst, 0, w, ma, a, e);
    lemma_quiet(m0, ma);
    lemma_read(ma, inst, 1, w, mb, b, e);
    lemma_same_worth(m0, ma, inst, 1, w, e);
    lemma_quiet(ma, mb);
    assert(val(mb, a, e) == val(ma, a, e));
    lemma_written(mb, inst, 0, w, b, mc, e);
    assert(val(mc, a, e) == val(mb, a, e));
    assert(mc.state.regs@.len() == 16) by {
        reveal(op_written);
    }
    lemma_written(mc, inst, 1, w, a, m1, e);
    lemma_continues_twice(m0.arena, ma.arena, mb.arena);
    lemma_continues_twice(m0.arena, mb.arena, mc.arena);
    lemma_continues_twice(m0.arena, mc.arena, m1.arena);
    lemma_flags_stay(m0, m1, e);
    let p = register_part(inst.ops@[0].register)->0;
    let base = p.0;
    assert(m1.state.reg(base) == mc.state.reg(base));
    assert(has(mc.arena.nodes@, mc.state.reg(base))) by {
        reveal(op_written);
        lemma_reg_numbers(base, base);
    }
}

/// Whether the condition with a number holds of the flags: overflow, carry, zero, carry or
/// zero, sign, parity, below in the signed order and not above in it, and the opposite of
/// each behind it.
pub open spec fn condition_holds(n: int, m: Emulator, e: Env) -> bool {
    let cf = flag_value(m, Flag::Cf, e) == 1;
    let pf = flag_value(m, Flag::Pf, e) == 1;
    let zf = flag_value(m, Flag::Zf, e) == 1;
    let sf = flag_value(m, Flag::Sf, e) == 1;
    let of = flag_value(m, Flag::Of, e) == 1;
    let base = if n / 2 == 0 {
        of
    } else if n / 2 == 1 {
        cf
    } else if n / 2 == 2 {
        zf
    } else if n / 2 == 3 {
        cf || zf
    } else if n / 2 == 4 {
        sf
    } else if n / 2 == 5 {
        pf
    } else if n / 2 == 6 {
        sf != of
    } else {
        zf || sf != of
    };
    if n % 2 == 0 {
        base
    } else {
        !base
    }
}

/// The conditional jumps, sets and moves in the order of their conditions.
pub open spec fn jump_mnemonics() -> Seq<u32> {
    seq![JO, JNO, JB, JAE, JE, JNE, JBE, JA, JS, JNS, JP, JNP, JL, JGE, JLE, JG]
}

pub open spec fn set_mnemonics() -> Seq<u32> {
    seq![
        SETO,
        SETNO,
        SETB,
        SETAE,
        SETE,
        SETNE,
        SETBE,
        SETA,
        SETS,
        SETNS,
        SETP,
        SETNP,
        SETL,
        SETGE,
        SETLE,
        SETG,
    ]
}

pub open spec fn move_mnemonics() -> Seq<u32> {
    seq![
        CMOVO,
        CMOVNO,
        CMOVB,
        CMOVAE,
        CMOVE,
        CMOVNE,
        CMOVBE,
        CMOVA,
        CMOVS,
        CMOVNS,
        CMOVP,
        CMOVNP,
        CMOVL,
        CMOVGE,
        CMOVLE,
        CMOVG,
    ]
}

/// Whether every flag is 0 or 1.
pub open spec fn flags_are_bits(m: Emulator, e: Env) -> bool {
    forall|f: Flag| #[trigger] flag_value(m, f, e) <= 1
}

/// The condition with a number.
pub open spec fn numbered_cc(n: int) -> ConditionCode {
    if n == 0 {
        ConditionCode::O
    } else if n == 1 {
        ConditionCode::No
    } else if n == 2 {
        ConditionCode::B
    } else if n == 3 {
        ConditionCode::Ae
    } else if n == 4 {
        ConditionCode::E
    } else if n == 5 {
        ConditionCode::Ne
    } else if n == 6 {
        ConditionCode::Be
    } else if n == 7 {
        ConditionCode::A
    } else if n == 8 {
        ConditionCode::S
    } else if n == 9 {
        ConditionCode::Ns
    } else if n == 10 {
        ConditionCode::P
    } else if n == 11 {
        ConditionCode::Np
    } else if n == 12 {
        ConditionCode::L
    } else if n == 13 {
        ConditionCode::Ge
    } else if n == 14 {
        ConditionCode::Le
    } else {
        ConditionCode::G
    }
}

pub proof fn lemma_condition(m: Emulator, n: int, e: Env)
    requires
        0 <= n < 16,
        flags_are_bits(m, e),
    ensures
        cond_val(m, numbered_cc(n), e) == bit_of(condition_holds(n, m, e)),
{
    let cf = val(m, m.state.flag(Flag::Cf), e);
    let pf = val(m, m.state.flag(Flag::Pf), e);
    let zf = val(m, m.state.flag(Flag::Zf), e);
    let sf = val(m, m.state.flag(Flag::Sf), e);
    let of = val(m, m.state.flag(Flag::Of), e);
    assert(flag_value(m, Flag::Cf, e) <= 1 && flag_value(m, Flag::Pf, e) <= 1 && flag_value(
        m,
        Flag::Zf,
        e,
    ) <= 1 && flag_value(m, Flag::Sf, e) <= 1 && flag_value(m, Flag::Of, e) <= 1);
    lemma_flag_bits(of, of);
    lemma_flag_bits(cf, zf);
    lemma_flag_bits(zf, zf);
    lemma_flag_bits(cf | zf, zf);
    lemma_flag_bits(sf, of);
    lemma_flag_bits(pf, pf);
    lemma_flag_bits(sf ^ of, zf);
    lemma_flag_bits((sf ^ of) | zf, zf);
}

/// `setcc`: the byte register becomes 1 where the condition holds, and 0 where it does not.
pub proof fn a_set_byte_is_the_condition(
    m0: Emulator,
    inst: Inst,
    m1: Emulator,
    out: Step,
    n: int,
    e: Env,
)
    requires
        m0.wf(),
        evaluates(m0, inst, m1, out),
        !inst.seg_relative(),
        0 <= n < 16,
        inst.head.mnemonic == set_mnemonics()[n],
        is_register(inst, 0, Width::W8),
        flags_are_bits(m0, e),
    ensures
        out == Step::Next(inst.head.next_ip),
        held(m1, inst.ops@[0].register, e) == bit_of(condition_holds(n, m0, e)),
        only_changes(m0, m1, inst.ops@[0].register),
        flags_stay(m0, m1, e),
{
    let cc = numbered_cc(n);
    assert(kind(inst.head.mnemonic) == Kind::Setcc { cc });
    let (ma, c) = choose|ma: Emulator, c: Ref| #[trigger] setcc_steps(m0, inst, cc, ma, c, m1);
    lemma_quiet(m0, ma);
    lemma_condition(m0, n, e);
    assert(val(ma, c, e) == cond_val(m0, cc, e));
    lemma_written(ma, inst, 0, Width::W8, c, m1, e);
    lemma_continues_twice(m0.arena, ma.arena, m1.arena);
    lemma_flags_stay(m0, m1, e);
}

/// `cmovcc`: the register becomes the other one where the condition holds, and stays where it
/// does not.
pub proof fn a_conditional_move_picks_by_the_condition(
    m0: Emulator,
    inst: Inst,
    m1: Emulator,
    out: Step,
    n: int,
    w: Width,
    e: Env,
)
    requires
        m0.wf(),
        evaluates(m0, inst, m1, out),
        !inst.seg_relative(),
        0 <= n < 16,
        inst.head.mnemonic == move_mnemonics()[n],
        is_register(inst, 0, w),
        is_register(inst, 1, w),
        flags_are_bits(m0, e),
    ensures
        out == Step::Next(inst.head.next_ip),
        held(m1, inst.ops@[0].register, e) == if condition_holds(n, m0, e) {
            held(m0, inst.ops@[1].register, e)
        } else {
            held(m0, inst.ops@[0].register, e)
        },
        only_changes(m0, m1, inst.ops@[0].register),
        flags_stay(m0, m1, e),
{
    let cc = numbered_cc(n);
    assert(kind(inst.head.mnemonic) == Kind::Cmov { cc });
    let (ma, c, mb, a, mc, b, md, r) = choose|
        ma: Emulator,
        c: Ref,
        mb: Emulator,
        a: Ref,
        mc: Emulator,
        b: Ref,
        md: Emulator,
        r: Ref,
    | #[trigger] cmov_steps(m0, inst, cc, ma, c, mb, a, mc, b, md, r, m1);
    lemma_quiet(m0, ma);
    lemma_condition(m0, n, e);
    lemma_read(ma, inst, 0, w, mb, a, e);
    lemma_same_worth(m0, ma, inst, 0, w, e);
    lemma_quiet(ma, mb);
    lemma_read(mb, inst, 1, w, mc, b, e);
    lemma_same_worth(ma, mb, inst, 1, w, e);
    lemma_same_worth(m0, ma, inst, 1, w, e);
    lemma_quiet(mb, mc);
    lemma_quiet(mc, md);
    assert(val(mc, a, e) == val(mb, a, e));
    lemma_mask(val(mc, a, e), w.mask());
    lemma_written(md, inst, 0, w, r, m1, e);
    lemma_continues_twice(m0.arena, ma.arena, mb.arena);
    lemma_continues_twice(m0.arena, mb.arena, mc.arena);
    lemma_continues_twice(m0.arena, mc.arena, md.arena);
    lemma_continues_twice(m0.arena, md.arena, m1.arena);
    lemma_flags_stay(m0, m1, e);
}

/// A conditional jump. Where nothing is pinned and its condition is known, it goes to its
/// target if the condition holds, and on behind it if not. Where it is not known both ways are
/// told, with a predicate that is 1 where the condition holds and 0 where it does not.
pub proof fn a_conditional_jump_goes_by_its_condition(
    m0: Emulator,
    inst: Inst,
    m1: Emulator,
    out: Step,
    n: int,
    to: u64,
    e: Env,
)
    requires
        m0.wf(),
        evaluates(m0, inst, m1, out),
        !inst.seg_relative(),
        0 <= n < 16,
        inst.head.mnemonic == jump_mnemonics()[n],
        inst.direct_target() == Some(to),
        flags_are_bits(m0, e),
        m0.pins@.len() == 0,
    ensures
        match out {
            Step::Next(ip) => ip == if condition_holds(n, m0, e) {
                to
            } else {
                inst.head.next_ip
            },
            Step::Stopped(Stop::NativeBranch { site, predicate, taken, not_taken }) => {
                &&& site == inst.ip
                &&& taken == to
                &&& not_taken == inst.head.next_ip
                &&& eval(m1.arena.nodes@, predicate, e) == bit_of(condition_holds(n, m0, e))
            },
            _ => false,
        },
        m1.state == m0.state,
{
    let cc = numbered_cc(n);
    assert(kind(inst.head.mnemonic) == Kind::Jcc { cc });
    let (ma, c, p) = choose|ma: Emulator, c: Ref, p: Ref| #[trigger]
        branch_steps(m0, inst, cc, ma, c, m1, p, out);
    lemma_quiet(m0, ma);
    lemma_condition(m0, n, e);
    assert(p == c);
    assert(val(m1, c, e) == val(ma, c, e));
    if const_of(m1.arena.nodes@, p) is Some {
        crate::ir::settle::lemma_constant_value(m1.arena.nodes@, p, e);
    }
}

} // verus!
