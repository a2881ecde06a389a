//! Data movement.

use crate::ir::access::{popped, pushed};
use crate::ir::alu::{arith_flags, fixed, flags_only, lemma_flag_refs, made, val, wid};
use crate::ir::decode::Inst;
use crate::ir::expr::{const_of, eval, has, is_const, width_of, Env, Ref};
use crate::ir::flags::{byte_ref, condition, condition_known, condition_value};
use crate::ir::fold::{bin_val, sign_extend_spec, un_val};
use crate::ir::lift::{lemma_wf_grows, Emulator};
use crate::ir::machine::{
    addressed, goes_on, lemma_quiet, op_read, op_written, reg_read, reg_written,
};
use crate::ir::mnemonic::{ConditionCode, Kind};
use crate::ir::subst::lemma_continues_twice;
use crate::ir::value::{BinOp, UnOp, Width};
use crate::ir::x86::{AH, AL, AX, DX, EAX, EDX, RAX, RDX};
use crate::vm::state::{packed_value, Flag};
use vstd::prelude::*;

verus! {

pub proof fn lemma_goes_on(a: Emulator, b: Emulator, c: Emulator)
    requires
        goes_on(a, b),
        goes_on(b, c),
    ensures
        goes_on(a, c),
{
    lemma_continues_twice(a.arena, b.arena, c.arena);
}

/// The accumulator of a width.
pub open spec fn acc_spec(w: Width) -> u32 {
    match w {
        Width::W8 => AL,
        Width::W16 => AX,
        Width::W32 => EAX,
        Width::W64 => RAX,
    }
}

#[verifier::when_used_as_spec(acc_spec)]
pub fn acc_for_width(w: Width) -> (r: u32)
    ensures
        r == acc_spec(w),
{
    match w {
        Width::W8 => AL,
        Width::W16 => AX,
        Width::W32 => EAX,
        Width::W64 => RAX,
    }
}

/// The register with the upper half of a wide product or dividend.
pub open spec fn dx_spec(w: Width) -> u32 {
    match w {
        Width::W8 => AH,
        Width::W16 => DX,
        Width::W32 => EDX,
        Width::W64 => RDX,
    }
}

#[verifier::when_used_as_spec(dx_spec)]
pub fn dx_for_width(w: Width) -> (r: u32)
    ensures
        r == dx_spec(w),
{
    match w {
        Width::W8 => AH,
        Width::W16 => DX,
        Width::W32 => EDX,
        Width::W64 => RDX,
    }
}

/// What a move, extension, complement or byte swap makes of its source, given the source's
/// width and the destination's.
pub open spec fn moved_value(kind: Kind, x: u64, wx: Width, w: Width) -> u64 {
    match kind {
        Kind::Movzx => x & w.mask(),
        Kind::Movsx => sign_extend_spec(x, wx) & w.mask(),
        Kind::Bswap => un_val(UnOp::Bswap, x, wx),
        Kind::Not => !x & wx.mask(),
        _ => x,
    }
}

pub open spec fn moved_width(kind: Kind, wx: Width, w: Width) -> Width {
    match kind {
        Kind::Movzx | Kind::Movsx => w,
        _ => wx,
    }
}

/// The operand a move, extension, complement or byte swap reads.
pub open spec fn move_source(kind: Kind) -> int {
    match kind {
        Kind::Bswap | Kind::Not => 0,
        _ => 1,
    }
}

pub open spec fn is_move(kind: Kind) -> bool {
    match kind {
        Kind::Mov | Kind::Movzx | Kind::Movsx | Kind::Bswap | Kind::Not => true,
        _ => false,
    }
}

pub open spec fn move_steps(
    m0: Emulator,
    inst: Inst,
    kind: Kind,
    ma: Emulator,
    v: Ref,
    mb: Emulator,
    z: Ref,
    m1: Emulator,
) -> bool {
    let w = inst.op_width_spec(0);
    &&& op_read(m0, inst, move_source(kind), ma, v)
    &&& made(
        ma,
        mb,
        fixed(ma, v),
        z,
        moved_width(kind, wid(ma, v), w),
        |e: Env| moved_value(kind, val(ma, v, e), wid(ma, v), w),
    )
    &&& kind is Mov ==> z == v
    &&& op_written(mb, inst, 0, z, m1)
}

/// The source is read, converted and written to operand 0.
pub open spec fn moves(m0: Emulator, inst: Inst, kind: Kind, m1: Emulator) -> bool {
    exists|ma: Emulator, v: Ref, mb: Emulator, z: Ref| #[trigger]
        move_steps(m0, inst, kind, ma, v, mb, z, m1)
}

pub open spec fn lea_steps(
    m0: Emulator,
    inst: Inst,
    ma: Emulator,
    a: Ref,
    mb: Emulator,
    z: Ref,
    m1: Emulator,
) -> bool {
    let w = inst.op_width_spec(0);
    &&& addressed(m0, inst, ma, a)
    &&& made(ma, mb, fixed(ma, a), z, w, |e: Env| val(ma, a, e) & w.mask())
    &&& op_written(mb, inst, 0, z, m1)
}

/// The effective address is written to operand 0, with no memory access.
pub open spec fn takes_address(m0: Emulator, inst: Inst, m1: Emulator) -> bool {
    exists|ma: Emulator, a: Ref, mb: Emulator, z: Ref| #[trigger]
        lea_steps(m0, inst, ma, a, mb, z, m1)
}

pub open spec fn swap_steps(
    m0: Emulator,
    inst: Inst,
    ma: Emulator,
    a: Ref,
    mb: Emulator,
    b: Ref,
    mc: Emulator,
    m1: Emulator,
) -> bool {
    &&& op_read(m0, inst, 0, ma, a)
    &&& op_read(ma, inst, 1, mb, b)
    &&& op_written(mb, inst, 0, b, mc)
    &&& op_written(mc, inst, 1, a, m1)
}

/// The two operands trade values.
pub open spec fn swaps(m0: Emulator, inst: Inst, m1: Emulator) -> bool {
    exists|ma: Emulator, a: Ref, mb: Emulator, b: Ref, mc: Emulator| #[trigger]
        swap_steps(m0, inst, ma, a, mb, b, mc, m1)
}

/// What `cmpxchg` read.
pub ghost struct Compared<'a> {
    pub after: Emulator<'a>,
    pub dst: Ref,
    pub src: Ref,
    pub acc: Ref,
}

pub open spec fn compare_reads(
    m0: Emulator,
    inst: Inst,
    ma: Emulator,
    mb: Emulator,
    c: Compared,
) -> bool {
    &&& op_read(m0, inst, 0, ma, c.dst)
    &&& op_read(ma, inst, 1, mb, c.src)
    &&& reg_read(mb, acc_spec(inst.op_width_spec(0)), c.after, c.acc)
}

pub open spec fn exchange_steps(
    m0: Emulator,
    inst: Inst,
    ma: Emulator,
    mb: Emulator,
    c: Compared,
    mc: Emulator,
    newdst: Ref,
    md: Emulator,
    newacc: Ref,
    me: Emulator,
    sub: Ref,
    mf: Emulator,
    mg: Emulator,
    m1: Emulator,
) -> bool {
    let w = inst.op_width_spec(0);
    let m = c.after;
    &&& compare_reads(m0, inst, ma, mb, c)
    &&& made(
        m,
        mc,
        fixed(m, c.acc) && fixed(m, c.dst) && fixed(m, c.src),
        newdst,
        wid(m, c.src),
        |e: Env|
            if val(m, c.acc, e) == val(m, c.dst, e) {
                val(m, c.src, e)
            } else {
                val(m, c.dst, e) & wid(m, c.src).mask()
            },
    )
    &&& made(
        mc,
        md,
        fixed(m, c.acc) && fixed(m, c.dst),
        newacc,
        wid(m, c.acc),
        |e: Env|
            if val(m, c.acc, e) == val(m, c.dst, e) {
                val(m, c.acc, e)
            } else {
                val(m, c.dst, e) & wid(m, c.acc).mask()
            },
    )
    &&& made(
        md,
        me,
        fixed(m, c.acc) && fixed(m, c.dst),
        sub,
        wid(m, c.acc).wider(wid(m, c.dst)),
        |e: Env|
            bin_val(
                BinOp::Sub,
                val(m, c.acc, e),
                val(m, c.dst, e),
                wid(m, c.acc).wider(wid(m, c.dst)),
            ),
    )
    &&& arith_flags(me, false, c.acc, c.dst, sub, w, mf)
    &&& op_written(mf, inst, 0, newdst, mg)
    &&& reg_written(mg, acc_spec(w), newacc, m1)
}

/// Compare the accumulator with operand 0; where they are equal operand 0 becomes
/// operand 1, and where not the accumulator becomes operand 0. Only the data flow is
/// modelled, not the atomicity.
pub open spec fn exchanges(m0: Emulator, inst: Inst, m1: Emulator) -> bool {
    exists|
        ma: Emulator,
        mb: Emulator,
        c: Compared,
        mc: Emulator,
        newdst: Ref,
        md: Emulator,
        newacc: Ref,
        me: Emulator,
        sub: Ref,
        mf: Emulator,
        mg: Emulator,
    | #[trigger]
        exchange_steps(m0, inst, ma, mb, c, mc, newdst, md, newacc, me, sub, mf, mg, m1)
}

pub open spec fn push_steps(
    m0: Emulator,
    inst: Inst,
    ma: Emulator,
    v: Ref,
    mb: Emulator,
    z: Ref,
    m1: Emulator,
) -> bool {
    &&& op_read(m0, inst, 0, ma, v)
    &&& made(
        ma,
        mb,
        fixed(ma, v),
        z,
        Width::W64,
        |e: Env| sign_extend_spec(val(ma, v, e), wid(ma, v)) & Width::W64.mask(),
    )
    &&& pushed(mb, z, inst.ip, m1)
}

/// Operand 0 is pushed, sign-extended to a word: RSP moves by 8 whatever the operand.
pub open spec fn pushes(m0: Emulator, inst: Inst, m1: Emulator) -> bool {
    exists|ma: Emulator, v: Ref, mb: Emulator, z: Ref| #[trigger]
        push_steps(m0, inst, ma, v, mb, z, m1)
}

pub open spec fn pop_steps(m0: Emulator, inst: Inst, ma: Emulator, v: Ref, m1: Emulator) -> bool {
    popped(m0, inst.ip, ma, v) && op_written(ma, inst, 0, v, m1)
}

/// A word is popped to operand 0.
pub open spec fn pops(m0: Emulator, inst: Inst, m1: Emulator) -> bool {
    exists|ma: Emulator, v: Ref| #[trigger] pop_steps(m0, inst, ma, v, m1)
}

/// Whether every flag is a constant.
pub open spec fn flags_known(m: Emulator) -> bool {
    forall|f: Flag| fixed(m, #[trigger] m.state.flag(f))
}

pub open spec fn pushf_steps(m0: Emulator, inst: Inst, ma: Emulator, v: Ref, m1: Emulator) -> bool {
    &&& made(
        m0,
        ma,
        flags_known(m0),
        v,
        Width::W64,
        |e: Env| packed_value(m0.arena.nodes@, m0.state.flags@, e),
    )
    &&& pushed(ma, v, inst.ip, m1)
}

/// The packed flags are pushed.
pub open spec fn pushes_flags(m0: Emulator, inst: Inst, m1: Emulator) -> bool {
    exists|ma: Emulator, v: Ref| #[trigger] pushf_steps(m0, inst, ma, v, m1)
}

/// Every flag is its bit of `v`.
pub open spec fn flags_unpacked(m0: Emulator, v: Ref, m1: Emulator) -> bool {
    &&& flags_only(m0, m1)
    &&& forall|f: Flag, e: Env| #[trigger]
        eval(m1.arena.nodes@, m1.state.flag(f), e) == (val(m0, v, e) >> (f.bit() as u64)) & 1
    &&& fixed(m0, v) ==> flags_known(m1)
}

pub open spec fn popf_steps(m0: Emulator, inst: Inst, ma: Emulator, v: Ref, m1: Emulator) -> bool {
    popped(m0, inst.ip, ma, v) && flags_unpacked(ma, v, m1)
}

/// A word is popped into the flags.
pub open spec fn pops_flags(m0: Emulator, inst: Inst, m1: Emulator) -> bool {
    exists|ma: Emulator, v: Ref| #[trigger] popf_steps(m0, inst, ma, v, m1)
}

/// Whether a condition holds in a machine, as a number.
pub open spec fn cond_val(m: Emulator, cc: ConditionCode, e: Env) -> u64 {
    condition_value(
        cc,
        val(m, m.state.flag(Flag::Cf), e),
        val(m, m.state.flag(Flag::Pf), e),
        val(m, m.state.flag(Flag::Zf), e),
        val(m, m.state.flag(Flag::Sf), e),
        val(m, m.state.flag(Flag::Of), e),
    )
}

/// Whether every flag a condition goes by is a constant.
pub open spec fn cond_known(m: Emulator, cc: ConditionCode) -> bool {
    condition_known(
        cc,
        fixed(m, m.state.flag(Flag::Cf)),
        fixed(m, m.state.flag(Flag::Pf)),
        fixed(m, m.state.flag(Flag::Zf)),
        fixed(m, m.state.flag(Flag::Sf)),
        fixed(m, m.state.flag(Flag::Of)),
    )
}

pub open spec fn cmov_steps(
    m0: Emulator,
    inst: Inst,
    cc: ConditionCode,
    ma: Emulator,
    c: Ref,
    mb: Emulator,
    a: Ref,
    mc: Emulator,
    b: Ref,
    md: Emulator,
    r: Ref,
    m1: Emulator,
) -> bool {
    &&& made(m0, ma, cond_known(m0, cc), c, Width::W8, |e: Env| cond_val(m0, cc, e))
    &&& op_read(ma, inst, 0, mb, a)
    &&& op_read(mb, inst, 1, mc, b)
    &&& made(
        mc,
        md,
        match const_of(mc.arena.nodes@, c) {
            Some(k) => if k != 0 {
                fixed(mc, b)
            } else {
                fixed(mc, a)
            },
            None => false,
        },
        r,
        wid(mc, b),
        |e: Env|
            if cond_val(m0, cc, e) != 0 {
                val(mc, b, e)
            } else {
                val(mc, a, e) & wid(mc, b).mask()
            },
    )
    &&& op_written(md, inst, 0, r, m1)
}

/// Operand 0 becomes operand 1 where the condition holds. Both are read either way.
pub open spec fn moves_if(m0: Emulator, inst: Inst, cc: ConditionCode, m1: Emulator) -> bool {
    exists|ma: Emulator, c: Ref, mb: Emulator, a: Ref, mc: Emulator, b: Ref, md: Emulator, r: Ref|
     #[trigger]
        cmov_steps(m0, inst, cc, ma, c, mb, a, mc, b, md, r, m1)
}

pub open spec fn setcc_steps(
    m0: Emulator,
    inst: Inst,
    cc: ConditionCode,
    ma: Emulator,
    c: Ref,
    m1: Emulator,
) -> bool {
    &&& made(m0, ma, cond_known(m0, cc), c, Width::W8, |e: Env| cond_val(m0, cc, e))
    &&& op_written(ma, inst, 0, c, m1)
}

/// Operand 0 becomes the condition.
pub open spec fn sets_if(m0: Emulator, inst: Inst, cc: ConditionCode, m1: Emulator) -> bool {
    exists|ma: Emulator, c: Ref| #[trigger] setcc_steps(m0, inst, cc, ma, c, m1)
}

impl<'a> Emulator<'a> {
    /// A condition on the current flags.
    pub(crate) fn condition(&mut self, cc: ConditionCode) -> (c: Ref)
        requires
            old(self).wf(),
        ensures
            goes_on(*old(self), *final(self)),
            made(
                *old(self),
                *final(self),
                cond_known(*old(self), cc),
                c,
                Width::W8,
                |e: Env| cond_val(*old(self), cc, e),
            ),
    {
        let ghost m0 = *self;
        proof {
            lemma_flag_refs(m0);
            assert(byte_ref(m0.arena, m0.state.flag(Flag::Cf)));
            assert(byte_ref(m0.arena, m0.state.flag(Flag::Pf)));
            assert(byte_ref(m0.arena, m0.state.flag(Flag::Zf)));
            assert(byte_ref(m0.arena, m0.state.flag(Flag::Sf)));
            assert(byte_ref(m0.arena, m0.state.flag(Flag::Of)));
        }
        let cf = self.state.flag(Flag::Cf);
        let pf = self.state.flag(Flag::Pf);
        let zf = self.state.flag(Flag::Zf);
        let sf = self.state.flag(Flag::Sf);
        let of = self.state.flag(Flag::Of);
        let c = condition(&mut self.arena, cc, cf, pf, zf, sf, of);
        proof {
            lemma_quiet(m0, *self);
        }
        c
    }

    pub(crate) fn step_move(&mut self, inst: &Inst, kind: Kind)
        requires
            old(self).wf(),
            inst.wf(),
            is_move(kind),
        ensures
            goes_on(*old(self), *final(self)),
            moves(*old(self), *inst, kind, *final(self)),
    {
        let ghost m0 = *self;
        let source: usize = match kind {
            Kind::Bswap | Kind::Not => 0,
            _ => 1,
        };
        let v = self.read_op(inst, source);
        let ghost ma = *self;
        let w = inst.op_width(0);
        let z = match kind {
            Kind::Movzx => self.arena.zext(v, w),
            Kind::Movsx => self.arena.sext(v, w),
            Kind::Bswap => self.arena.un(UnOp::Bswap, v),
            Kind::Not => self.arena.not(v),
            _ => v,
        };
        let ghost mb = *self;
        proof {
            lemma_quiet(ma, mb);
            assert forall|e: Env| #[trigger] eval(mb.arena.nodes@, z, e) == moved_value(
                kind,
                val(ma, v, e),
                wid(ma, v),
                w,
            ) by {
                assert(eval(mb.arena.nodes@, v, e) == eval(ma.arena.nodes@, v, e));
            }
        }
        self.write_op(inst, 0, z);
        proof {
            assert(move_steps(m0, *inst, kind, ma, v, mb, z, *self));
            lemma_goes_on(m0, ma, mb);
            lemma_goes_on(m0, mb, *self);
        }
    }

    pub(crate) fn step_lea(&mut self, inst: &Inst)
        requires
            old(self).wf(),
            inst.wf(),
        ensures
            goes_on(*old(self), *final(self)),
            takes_address(*old(self), *inst, *final(self)),
    {
        let ghost m0 = *self;
        let a = self.mem_address(inst);
        let ghost ma = *self;
        let w = inst.op_width(0);
        let z = self.arena.trunc(a, w);
        let ghost mb = *self;
        proof {
            lemma_quiet(ma, mb);
            assert forall|e: Env| #[trigger] eval(mb.arena.nodes@, z, e) == val(ma, a, e) & w.mask() by {
                assert(eval(mb.arena.nodes@, a, e) == eval(ma.arena.nodes@, a, e));
            }
        }
        self.write_op(inst, 0, z);
        proof {
            assert(lea_steps(m0, *inst, ma, a, mb, z, *self));
            lemma_goes_on(m0, ma, mb);
            lemma_goes_on(m0, mb, *self);
        }
    }

    pub(crate) fn step_xchg(&mut self, inst: &Inst)
        requires
            old(self).wf(),
            inst.wf(),
        ensures
            goes_on(*old(self), *final(self)),
            swaps(*old(self), *inst, *final(self)),
    {
        let ghost m0 = *self;
        let a = self.read_op(inst, 0);
        let ghost ma = *self;
        let b = self.read_op(inst, 1);
        let ghost mb = *self;
        self.write_op(inst, 0, b);
        let ghost mc = *self;
        self.write_op(inst, 1, a);
        proof {
            assert(swap_steps(m0, *inst, ma, a, mb, b, mc, *self));
            lemma_goes_on(m0, ma, mb);
            lemma_goes_on(m0, mb, mc);
            lemma_goes_on(m0, mc, *self);
        }
    }

    /// The value of `if x == y { a } else { b }`, at the width of `a`.
    fn choice(&mut self, x: Ref, y: Ref, a: Ref, b: Ref) -> (r: Ref)
        requires
            old(self).wf(),
            old(self).arena.holds(x),
            old(self).arena.holds(y),
            old(self).arena.holds(a),
            old(self).arena.holds(b),
        ensures
            goes_on(*old(self), *final(self)),
            made(
                *old(self),
                *final(self),
                fixed(*old(self), x) && fixed(*old(self), y) && fixed(*old(self), a) && fixed(
                    *old(self),
                    b,
                ),
                r,
                wid(*old(self), a),
                |e: Env|
                    if val(*old(self), x, e) == val(*old(self), y, e) {
                        val(*old(self), a, e)
                    } else {
                        val(*old(self), b, e) & wid(*old(self), a).mask()
                    },
            ),
    {
        let ghost m0 = *self;
        let eq = self.arena.bin(BinOp::Eq, x, y);
        let ghost a1 = self.arena;
        let r = self.arena.select_at_width(eq, a, b);
        proof {
            let n0 = m0.arena.nodes@;
            let n1 = a1.nodes@;
            lemma_continues_twice(m0.arena, a1, self.arena);
            lemma_quiet(m0, *self);
            assert forall|e: Env| #[trigger] eval(self.arena.nodes@, r, e) == (if eval(n0, x, e)
                == eval(n0, y, e) {
                eval(n0, a, e)
            } else {
                eval(n0, b, e) & width_of(n0, a).mask()
            }) by {
                assert(eval(n1, eq, e) == crate::ir::simplify::bin_at(n1, BinOp::Eq, x, y, e));
                assert(eval(n1, x, e) == eval(n0, x, e));
                assert(eval(n1, y, e) == eval(n0, y, e));
                assert(eval(n1, a, e) == eval(n0, a, e));
                assert(eval(n1, b, e) == eval(n0, b, e));
            }
        }
        r
    }

    pub(crate) fn step_exchange(&mut self, inst: &Inst)
        requires
            old(self).wf(),
            inst.wf(),
        ensures
            goes_on(*old(self), *final(self)),
            exchanges(*old(self), *inst, *final(self)),
    {
        let ghost m0 = *self;
        let dst = self.read_op(inst, 0);
        let ghost ma = *self;
        let src = self.read_op(inst, 1);
        let ghost mb = *self;
        let w = inst.op_width(0);
        let acc_reg: u32 = acc_for_width(w);
        let acc = self.read_reg(acc_reg);
        let ghost m = *self;
        let ghost c = Compared { after: m, dst, src, acc };
        let newdst = self.choice(acc, dst, src, dst);
        let ghost mc = *self;
        let newacc = self.choice(acc, dst, acc, dst);
        let ghost md = *self;
        proof {
            assert forall|e: Env| #[trigger] eval(md.arena.nodes@, newacc, e) == (if val(m, acc, e)
                == val(m, dst, e) {
                val(m, acc, e)
            } else {
                val(m, dst, e) & wid(m, acc).mask()
            }) by {
                assert(eval(mc.arena.nodes@, acc, e) == eval(m.arena.nodes@, acc, e));
                assert(eval(mc.arena.nodes@, dst, e) == eval(m.arena.nodes@, dst, e));
            }
        }
        let sub = self.arena.bin(BinOp::Sub, acc, dst);
        let ghost me = *self;
        proof {
            lemma_quiet(md, me);
            assert forall|e: Env| #[trigger] eval(me.arena.nodes@, sub, e) == bin_val(
                BinOp::Sub,
                val(m, acc, e),
                val(m, dst, e),
                wid(m, acc).wider(wid(m, dst)),
            ) by {
                assert(eval(me.arena.nodes@, sub, e) == crate::ir::simplify::bin_at(
                    me.arena.nodes@,
                    BinOp::Sub,
                    acc,
                    dst,
                    e,
                ));
                assert(eval(me.arena.nodes@, acc, e) == eval(md.arena.nodes@, acc, e));
                assert(eval(md.arena.nodes@, acc, e) == eval(mc.arena.nodes@, acc, e));
                assert(eval(mc.arena.nodes@, acc, e) == eval(m.arena.nodes@, acc, e));
                assert(eval(me.arena.nodes@, dst, e) == eval(md.arena.nodes@, dst, e));
                assert(eval(md.arena.nodes@, dst, e) == eval(mc.arena.nodes@, dst, e));
                assert(eval(mc.arena.nodes@, dst, e) == eval(m.arena.nodes@, dst, e));
            }
        }
        self.put_arith_flags(false, acc, dst, sub, w);
        let ghost mf = *self;
        self.write_op(inst, 0, newdst);
        let ghost mg = *self;
        self.write_reg(acc_reg, newacc);
        proof {
            assert(exchange_steps(
                m0,
                *inst,
                ma,
                mb,
                c,
                mc,
                newdst,
                md,
                newacc,
                me,
                sub,
                mf,
                mg,
                *self,
            ));
            lemma_goes_on(m0, ma, mb);
            lemma_goes_on(m0, mb, m);
            lemma_goes_on(m0, m, mc);
            lemma_goes_on(m0, mc, md);
            lemma_goes_on(m0, md, me);
            lemma_goes_on(m0, me, mf);
            lemma_goes_on(m0, mf, mg);
            lemma_goes_on(m0, mg, *self);
        }
    }

    pub(crate) fn step_push(&mut self, inst: &Inst)
        requires
            old(self).wf(),
            inst.wf(),
        ensures
            goes_on(*old(self), *final(self)),
            pushes(*old(self), *inst, *final(self)),
    {
        let ghost m0 = *self;
        let v = self.read_op(inst, 0);
        let ghost ma = *self;
        let z = self.arena.sext(v, Width::W64);
        let ghost mb = *self;
        proof {
            lemma_quiet(ma, mb);
            assert forall|e: Env| #[trigger] eval(mb.arena.nodes@, z, e) == sign_extend_spec(
                val(ma, v, e),
                wid(ma, v),
            ) & Width::W64.mask() by {
                assert(eval(mb.arena.nodes@, v, e) == eval(ma.arena.nodes@, v, e));
            }
        }
        self.push(z, inst.ip);
        proof {
            assert(push_steps(m0, *inst, ma, v, mb, z, *self));
            lemma_goes_on(m0, ma, mb);
            lemma_goes_on(m0, mb, *self);
        }
    }

    pub(crate) fn step_pop(&mut self, inst: &Inst)
        requires
            old(self).wf(),
            inst.wf(),
        ensures
            goes_on(*old(self), *final(self)),
            pops(*old(self), *inst, *final(self)),
    {
        let ghost m0 = *self;
        let v = self.pop(inst.ip);
        let ghost ma = *self;
        self.write_op(inst, 0, v);
        proof {
            assert(pop_steps(m0, *inst, ma, v, *self));
            lemma_goes_on(m0, ma, *self);
        }
    }

    pub(crate) fn step_pushfq(&mut self, inst: &Inst)
        requires
            old(self).wf(),
            inst.wf(),
        ensures
            goes_on(*old(self), *final(self)),
            pushes_flags(*old(self), *inst, *final(self)),
    {
        let ghost m0 = *self;
        let v = self.state.pack_flags(&mut self.arena);
        let ghost ma = *self;
        proof {
            lemma_quiet(m0, ma);
            if flags_known(m0) {
                assert forall|i: int| 0 <= i < 7 implies is_const(
                    m0.arena.nodes@,
                    #[trigger] m0.state.flags@[i],
                ) by {
                    assert(m0.state.flag(flag_at(i)) == m0.state.flags@[i]);
                    assert(fixed(m0, m0.state.flag(flag_at(i))));
                }
            }
        }
        self.push(v, inst.ip);
        proof {
            assert(pushf_steps(m0, *inst, ma, v, *self));
            lemma_goes_on(m0, ma, *self);
        }
    }

    pub(crate) fn step_popfq(&mut self, inst: &Inst)
        requires
            old(self).wf(),
            inst.wf(),
        ensures
            goes_on(*old(self), *final(self)),
            pops_flags(*old(self), *inst, *final(self)),
    {
        let ghost m0 = *self;
        let v = self.pop(inst.ip);
        let ghost ma = *self;
        self.state.unpack_flags(&mut self.arena, v);
        proof {
            crate::ir::lift::lemma_state_grows(ma.state, ma.arena.nodes@, self.arena.nodes@);
            let ns = self.arena.nodes@;
            assert forall|i: int| 0 <= i < 7 implies has(ns, #[trigger] self.state.flags@[i])
                && width_of(ns, self.state.flags@[i]) == Width::W8 by {
                let f = flag_at(i);
                assert(self.state.flag(f) == self.state.flags@[i]);
                assert(has(ns, self.state.flag(f)));
            }
            assert(self.state.fits_in(ns)) by {
                assert(ma.state.fits_in(ns));
                assert forall|i: int| 0 <= i < 16 implies has(ns, #[trigger] self.state.regs@[i])
                    && width_of(ns, self.state.regs@[i]) == Width::W64 by {
                    assert(has(ns, ma.state.regs@[i]));
                }
            }
            lemma_wf_grows(ma, *self);
            assert(popf_steps(m0, *inst, ma, v, *self));
            lemma_goes_on(m0, ma, *self);
        }
    }

    pub(crate) fn step_cmov(&mut self, inst: &Inst, cc: ConditionCode)
        requires
            old(self).wf(),
            inst.wf(),
        ensures
            goes_on(*old(self), *final(self)),
            moves_if(*old(self), *inst, cc, *final(self)),
    {
        let ghost m0 = *self;
        let c = self.condition(cc);
        let ghost ma = *self;
        let a = self.read_op(inst, 0);
        let ghost mb = *self;
        let b = self.read_op(inst, 1);
        let ghost mc = *self;
        let r = self.arena.select_at_width(c, b, a);
        let ghost md = *self;
        proof {
            lemma_quiet(mc, md);
            lemma_goes_on(m0, ma, mb);
            lemma_goes_on(m0, mb, mc);
            lemma_goes_on(m0, mc, md);
            assert forall|e: Env| #[trigger] eval(md.arena.nodes@, r, e) == (if cond_val(m0, cc, e)
                != 0 {
                val(mc, b, e)
            } else {
                val(mc, a, e) & wid(mc, b).mask()
            }) by {
                assert(eval(mc.arena.nodes@, c, e) == eval(mb.arena.nodes@, c, e));
                assert(eval(mb.arena.nodes@, c, e) == eval(ma.arena.nodes@, c, e));
            }
        }
        self.write_op(inst, 0, r);
        proof {
            assert(cmov_steps(m0, *inst, cc, ma, c, mb, a, mc, b, md, r, *self));
            lemma_goes_on(m0, md, *self);
        }
    }

    pub(crate) fn step_setcc(&mut self, inst: &Inst, cc: ConditionCode)
        requires
            old(self).wf(),
            inst.wf(),
        ensures
            goes_on(*old(self), *final(self)),
            sets_if(*old(self), *inst, cc, *final(self)),
    {
        let ghost m0 = *self;
        let c = self.condition(cc);
        let ghost ma = *self;
        self.write_op(inst, 0, c);
        proof {
            assert(setcc_steps(m0, *inst, cc, ma, c, *self));
            lemma_goes_on(m0, ma, *self);
        }
    }
}

/// The flag at a slot.
pub open spec fn flag_at(i: int) -> Flag {
    if i == Flag::Cf.slot() {
        Flag::Cf
    } else if i == Flag::Pf.slot() {
        Flag::Pf
    } else if i == Flag::Af.slot() {
        Flag::Af
    } else if i == Flag::Zf.slot() {
        Flag::Zf
    } else if i == Flag::Sf.slot() {
        Flag::Sf
    } else if i == Flag::Of.slot() {
        Flag::Of
    } else {
        Flag::Df
    }
}

} // verus!
