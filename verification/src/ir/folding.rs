//! Instructions on constants leave constants.

use crate::ir::alu::{
    arith_flags, cut_value, fixed, flag_put, logic_flags, second_value, val, wid,
};
use crate::ir::arith::{alu_shape, alu_steps, carry_flags, carry_steps, combines};
use crate::ir::decode::{Inst, REGISTER};
use crate::ir::expr::{const_of, eval, has, Env, Ref};
use crate::ir::flags::{carry_flag, zero_flag};
use crate::ir::fold::{bin_fold, bin_val};
use crate::ir::lift::Emulator;
use crate::ir::machine::{merged_value, op_read, op_written, part_value, quiet, reg_read, reg_written};
use crate::ir::mnemonic::Kind;
use crate::ir::value::{BinOp, Reg, Width};
use crate::ir::x86::register_part;
use crate::vm::state::Flag;
use vstd::prelude::*;

verus! {

/// Whether an operand is a general purpose register, or a part of one.
pub open spec fn names_part(inst: Inst, i: int) -> bool {
    inst.ops@[i].kind == REGISTER && register_part(inst.ops@[i].register) is Some
}

/// The register an operand is a part of.
pub open spec fn base_of(inst: Inst, i: int) -> Reg {
    (register_part(inst.ops@[i].register)->0).0
}

/// The value of a register operand.
pub open spec fn part_of(m: Emulator, inst: Inst, i: int, e: Env) -> u64 {
    let (base, offset, w) = register_part(inst.ops@[i].register)->0;
    part_value(val(m, m.state.reg(base), e), offset, w)
}

/// The width of a register operand.
pub open spec fn part_width(inst: Inst, i: int) -> Width {
    (register_part(inst.ops@[i].register)->0).2
}

/// What is there stays what it is while nothing but the arena changes.
proof fn lemma_kept(m0: Emulator, m1: Emulator, r: Ref)
    requires
        m1.arena.continues(m0.arena),
        has(m0.arena.nodes@, r),
    ensures
        has(m1.arena.nodes@, r),
        fixed(m0, r) ==> fixed(m1, r),
        const_of(m1.arena.nodes@, r) == const_of(m0.arena.nodes@, r),
        wid(m1, r) == wid(m0, r),
        forall|e: Env| #[trigger] eval(m1.arena.nodes@, r, e) == eval(m0.arena.nodes@, r, e),
{
    assert(m1.arena.nodes@[r.idx as int] == m0.arena.nodes@[r.idx as int]);
}

proof fn lemma_register_held(m: Emulator, r: Reg)
    requires
        m.wf(),
    ensures
        has(m.arena.nodes@, m.state.reg(r)),
{
    assert(has(m.arena.nodes@, m.state.regs@[r.number() as int]));
}

proof fn lemma_flag_held(m: Emulator, f: Flag)
    requires
        m.wf(),
    ensures
        has(m.arena.nodes@, m.state.flag(f)),
{
    assert(has(m.arena.nodes@, m.state.flags@[f.slot() as int]));
}

/// The flags of an operation on constants are constants, and adding or subtracting with a
/// carry leaves the carry of all three.
proof fn lemma_flags_known(
    m: Emulator,
    op: BinOp,
    a: Ref,
    b: Ref,
    carry: Option<Ref>,
    r: Ref,
    w: Width,
    m1: Emulator,
)
    requires
        m.wf(),
        m1.state.flags@.len() == 7,
        crate::ir::arith::alu_flags(m, op, a, b, carry, r, w, m1),
        has(m.arena.nodes@, a),
        has(m.arena.nodes@, b),
        has(m.arena.nodes@, r),
        carry matches Some(c) ==> has(m.arena.nodes@, c) && fixed(m, c),
        fixed(m, a),
        fixed(m, b),
        fixed(m, r),
    ensures
        m1.arena.continues(m.arena),
        m1.state.regs@ == m.state.regs@,
        fixed(m1, m1.state.flag(Flag::Cf)),
        fixed(m1, m1.state.flag(Flag::Zf)),
        fixed(m1, m1.state.flag(Flag::Sf)),
        fixed(m1, m1.state.flag(Flag::Pf)),
        fixed(m1, m1.state.flag(Flag::Of)),
        forall|e: Env| #[trigger]
            eval(m1.arena.nodes@, m1.state.flag(Flag::Zf), e) == zero_flag(val(m, r, e)),
        carry matches Some(c) && (op == BinOp::Add || op == BinOp::Sub) ==> forall|e: Env| #[trigger]
            eval(m1.arena.nodes@, m1.state.flag(Flag::Cf), e) == carry_flag(
                op == BinOp::Add,
                val(m, a, e) & w.mask(),
                val(m, b, e) & w.mask(),
                val(m, carry->0, e) & w.mask(),
                w,
            ),
{
    reveal(arith_flags);
    reveal(logic_flags);
    if carry is Some && (op == BinOp::Add || op == BinOp::Sub) {
        let c = carry->0;
        let sum = op == BinOp::Add;
        assert(carry_flags(m, sum, a, b, c, r, w, m1));
        let (mk, k, mg) = choose|mk: Emulator, k: Ref, mg: Emulator| #[trigger]
            carry_steps(m, sum, a, b, c, r, w, mk, k, mg, m1);
        lemma_kept(m, mk, a);
        lemma_kept(m, mk, b);
        lemma_kept(m, mk, r);
        lemma_kept(mk, mg, k);
        crate::ir::subst::lemma_continues_twice(m.arena, mk.arena, mg.arena);
        assert(m1.arena == mg.arena);
        assert(flag_put(mg, Flag::Cf, k, m1));
        assert(mg.state.flags@.len() == 7);
        assert(m1.state.flag(Flag::Cf) == k);
        assert(m1.state.flag(Flag::Zf) == mg.state.flag(Flag::Zf));
        assert(m1.state.flag(Flag::Sf) == mg.state.flag(Flag::Sf));
        assert(m1.state.flag(Flag::Pf) == mg.state.flag(Flag::Pf));
        assert(m1.state.flag(Flag::Of) == mg.state.flag(Flag::Of));
        assert forall|e: Env| #[trigger] eval(m1.arena.nodes@, m1.state.flag(Flag::Zf), e) == zero_flag(
            val(m, r, e),
        ) by {
            assert(eval(mg.arena.nodes@, mg.state.flag(Flag::Zf), e) == zero_flag(val(mk, r, e)));
            assert(eval(mk.arena.nodes@, r, e) == eval(m.arena.nodes@, r, e));
        }
        assert forall|e: Env| #[trigger] eval(m1.arena.nodes@, m1.state.flag(Flag::Cf), e) == carry_flag(
            op == BinOp::Add,
            val(m, a, e) & w.mask(),
            val(m, b, e) & w.mask(),
            val(m, c, e) & w.mask(),
            w,
        ) by {
            assert(eval(mg.arena.nodes@, k, e) == eval(mk.arena.nodes@, k, e));
        }
    }
}

/// An operation on two register operands that are constants, with a carry that is one where it
/// takes part, leaves constants: every flag it computes, and the register where the result is
/// kept. Adding with carry leaves the sum of all three, cut to the operand, and its carry.
pub proof fn constants_combine_to_constants(m0: Emulator, inst: Inst, kind: Kind, m1: Emulator)
    requires
        m0.wf(),
        m1.wf(),
        inst.wf(),
        combines(m0, inst, kind, m1),
        alu_shape(kind) is Some,
        kind matches Kind::Logic { op } ==> op == BinOp::And || op == BinOp::Or || op == BinOp::Xor,
        names_part(inst, 0),
        names_part(inst, 1),
        fixed(m0, m0.state.reg(base_of(inst, 0))),
        fixed(m0, m0.state.reg(base_of(inst, 1))),
        (alu_shape(kind)->0).1 ==> fixed(m0, m0.state.flag(Flag::Cf)),
    ensures
        fixed(m1, m1.state.flag(Flag::Cf)),
        fixed(m1, m1.state.flag(Flag::Zf)),
        fixed(m1, m1.state.flag(Flag::Sf)),
        fixed(m1, m1.state.flag(Flag::Pf)),
        fixed(m1, m1.state.flag(Flag::Of)),
        (alu_shape(kind)->0).2 ==> fixed(m1, m1.state.reg(base_of(inst, 0))),
        kind == (Kind::Sum { carry: true }) ==> ({
            let w = inst.op_width_spec(0);
            let (base, offset, w0) = register_part(inst.ops@[0].register)->0;
            forall|e: Env| #![trigger eval(m1.arena.nodes@, m1.state.reg(base), e)] {
                let a = part_of(m0, inst, 0, e);
                let b = second_value(part_of(m0, inst, 1, e), part_width(inst, 1), w);
                let c = val(m0, m0.state.flag(Flag::Cf), e) & w.mask();
                let r = cut_value(BinOp::Add, a, w0, bin_val(BinOp::Add, b, c, w), w, w);
                &&& eval(m1.arena.nodes@, m1.state.reg(base), e) == merged_value(
                    val(m0, m0.state.reg(base), e),
                    offset,
                    w0,
                    r,
                )
                &&& eval(m1.arena.nodes@, m1.state.flag(Flag::Zf), e) == zero_flag(r)
                &&& eval(m1.arena.nodes@, m1.state.flag(Flag::Cf), e) == carry_flag(
                    true,
                    a & w.mask(),
                    b & w.mask(),
                    c,
                    w,
                )
            }
        }),
{
    reveal(op_read);
    reveal(op_written);
    let shape = alu_shape(kind)->0;
    let (op, carry, keep) = shape;
    let w = inst.op_width_spec(0);
    let (ma, a, mb, b0, mx, x, mc, b, md, r, me) = choose|
        ma: Emulator,
        a: Ref,
        mb: Emulator,
        b0: Ref,
        mx: Emulator,
        x: Ref,
        mc: Emulator,
        b: Ref,
        md: Emulator,
        r: Ref,
        me: Emulator,
    | #[trigger]
        alu_steps(m0, inst, shape, ma, a, mb, b0, mx, x, mc, b, md, r, me, m1);
    let r0 = base_of(inst, 0);
    let r1 = base_of(inst, 1);
    let cf = m0.state.flag(Flag::Cf);
    lemma_register_held(m0, r0);
    lemma_register_held(m0, r1);
    lemma_flag_held(m0, Flag::Cf);
    assert(reg_read(m0, inst.ops@[0].register, ma, a));
    assert(reg_read(ma, inst.ops@[1].register, mb, b0));
    assert(ma.state == m0.state && mb.state == m0.state && mx.state == m0.state && mc.state == m0.state
        && md.state == m0.state);
    assert(quiet(m0, ma) && quiet(ma, mb) && quiet(mb, mx) && quiet(mc, md));
    lemma_kept(m0, ma, m0.state.reg(r0));
    lemma_kept(m0, ma, m0.state.reg(r1));
    lemma_kept(m0, ma, cf);
    lemma_kept(ma, mb, m0.state.reg(r0));
    lemma_kept(ma, mb, cf);
    lemma_kept(ma, mb, a);
    assert(fixed(ma, a) && fixed(mb, b0));
    lemma_kept(mb, mx, m0.state.reg(r0));
    lemma_kept(mb, mx, cf);
    lemma_kept(mb, mx, a);
    if carry {
        lemma_kept(mx, mc, m0.state.reg(r0));
        lemma_kept(mx, mc, cf);
        lemma_kept(mx, mc, a);
        lemma_kept(mx, mc, x);
    }
    assert(fixed(mc, a) && fixed(mc, b));
    lemma_kept(mc, md, m0.state.reg(r0));
    lemma_kept(mc, md, cf);
    lemma_kept(mc, md, a);
    lemma_kept(mc, md, x);
    assert(fixed(md, r)) by {
        assert(bin_fold(op, const_of(mc.arena.nodes@, a)->0, const_of(mc.arena.nodes@, b)->0, wid(mc, a).wider(
            wid(mc, b),
        )) is Some);
    }
    crate::ir::machine::lemma_quiet(m0, ma);
    crate::ir::machine::lemma_quiet(ma, mb);
    crate::ir::machine::lemma_quiet(mb, mx);
    if carry {
        crate::ir::machine::lemma_quiet(mx, mc);
    }
    crate::ir::machine::lemma_quiet(mc, md);
    let taken = if carry {
        Some(cf)
    } else {
        None
    };
    assert(me.state.flags@ == m1.state.flags@);
    assert(m1.state.flags@.len() == 7);
    lemma_flags_known(md, op, a, x, taken, r, w, me);
    lemma_kept(md, me, r);
    lemma_kept(md, me, m0.state.reg(r0));
    assert(me.state.reg(r0) == md.state.reg(r0));
    if keep {
        assert(reg_written(me, inst.ops@[0].register, r, m1));
        assert(m1.state.flags@ == me.state.flags@);
        assert(m1.state.flag(Flag::Cf) == me.state.flag(Flag::Cf));
        assert(m1.state.flag(Flag::Zf) == me.state.flag(Flag::Zf));
        assert(m1.state.flag(Flag::Sf) == me.state.flag(Flag::Sf));
        assert(m1.state.flag(Flag::Pf) == me.state.flag(Flag::Pf));
        assert(m1.state.flag(Flag::Of) == me.state.flag(Flag::Of));
        lemma_kept(me, m1, me.state.flag(Flag::Cf));
        lemma_kept(me, m1, me.state.flag(Flag::Zf));
        lemma_kept(me, m1, me.state.flag(Flag::Sf));
        lemma_kept(me, m1, me.state.flag(Flag::Pf));
        lemma_kept(me, m1, me.state.flag(Flag::Of));
    }
}

} // verus!
