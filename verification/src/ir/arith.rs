//! Arithmetic instructions.

use crate::ir::alu::{
    arith_flags, carried, carry_unknown, cut_bin, cut_value, fixed, flag_put, flags_clobbered,
    known_result, lemma_flag_refs, logic_flags, made, partial_flags, second_value, val, wid,
};
use crate::ir::decode::Inst;
use crate::ir::expr::{const_of, eval, width_of, Env, Ref};
use crate::ir::flags::{byte_ref, carry_flag, carry_out};
use crate::ir::fold::{bin_val, lemma_mask};
use crate::ir::lift::Emulator;
use crate::ir::machine::{goes_on, lemma_quiet, op_read, op_written, quiet, reg_read, reg_written};
use crate::ir::mnemonic::Kind;
use crate::ir::transfer::{acc_for_width, acc_spec, dx_for_width, dx_spec, lemma_goes_on};
use crate::ir::value::{BinOp, Width};
use crate::ir::x86::AX;
use crate::vm::state::Flag;
use vstd::prelude::*;

verus! {

/// The operation of a two-operand instruction, whether the carry takes part and whether
/// the result is kept.
pub open spec fn alu_shape(kind: Kind) -> Option<(BinOp, bool, bool)> {
    match kind {
        Kind::Sum { carry } => Some((BinOp::Add, carry, true)),
        Kind::Difference { borrow } => Some((BinOp::Sub, borrow, true)),
        Kind::Compare => Some((BinOp::Sub, false, false)),
        Kind::Test => Some((BinOp::And, false, false)),
        Kind::Logic { op } => Some((op, false, true)),
        _ => None,
    }
}

fn alu_shape_of(kind: Kind) -> (r: Option<(BinOp, bool, bool)>)
    ensures
        r == alu_shape(kind),
{
    match kind {
        Kind::Sum { carry } => Some((BinOp::Add, carry, true)),
        Kind::Difference { borrow } => Some((BinOp::Sub, borrow, true)),
        Kind::Compare => Some((BinOp::Sub, false, false)),
        Kind::Test => Some((BinOp::And, false, false)),
        Kind::Logic { op } => Some((op, false, true)),
        _ => None,
    }
}

pub open spec fn carry_steps(
    m0: Emulator,
    sum: bool,
    a: Ref,
    b: Ref,
    c: Ref,
    r: Ref,
    w: Width,
    mk: Emulator,
    k: Ref,
    mg: Emulator,
    m1: Emulator,
) -> bool {
    &&& made(
        m0,
        mk,
        fixed(m0, a) && fixed(m0, b) && fixed(m0, c),
        k,
        Width::W8,
        |e: Env|
            carry_flag(sum, val(m0, a, e) & w.mask(), val(m0, b, e) & w.mask(), val(m0, c, e) & w.mask(), w),
    )
    &&& arith_flags(mk, sum, a, b, r, w, mg)
    &&& flag_put(mg, Flag::Cf, k, m1)
}

/// The flags of `a + b + c`, or of `a - b - c`: overflow and adjust go by the operands and the
/// result, and the carry is that of all three.
pub open spec fn carry_flags(
    m0: Emulator,
    sum: bool,
    a: Ref,
    b: Ref,
    c: Ref,
    r: Ref,
    w: Width,
    m1: Emulator,
) -> bool {
    exists|mk: Emulator, k: Ref, mg: Emulator| #[trigger]
        carry_steps(m0, sum, a, b, c, r, w, mk, k, mg, m1)
}

/// The flags an operation leaves.
pub open spec fn alu_flags(
    m0: Emulator,
    op: BinOp,
    a: Ref,
    b: Ref,
    carry: Option<Ref>,
    r: Ref,
    w: Width,
    m1: Emulator,
) -> bool {
    match (op, carry) {
        (BinOp::Add, None) => arith_flags(m0, true, a, b, r, w, m1),
        (BinOp::Add, Some(c)) => carry_flags(m0, true, a, b, c, r, w, m1),
        (BinOp::Sub, None) => arith_flags(m0, false, a, b, r, w, m1),
        (BinOp::Sub, Some(c)) => carry_flags(m0, false, a, b, c, r, w, m1),
        _ => logic_flags(m0, r, w, m1),
    }
}

pub open spec fn alu_steps(
    m0: Emulator,
    inst: Inst,
    shape: (BinOp, bool, bool),
    ma: Emulator,
    a: Ref,
    mb: Emulator,
    b0: Ref,
    mx: Emulator,
    x: Ref,
    mc: Emulator,
    b: Ref,
    md: Emulator,
    r: Ref,
    me: Emulator,
    m1: Emulator,
) -> bool {
    let w = inst.op_width_spec(0);
    let (op, carry, keep) = shape;
    let c = mb.state.flag(Flag::Cf);
    &&& op_read(m0, inst, 0, ma, a)
    &&& op_read(ma, inst, 1, mb, b0)
    &&& made(mb, mx, fixed(mb, b0), x, w, |e: Env| second_value(val(mb, b0, e), wid(mb, b0), w))
    &&& if carry {
        made(
            mx,
            mc,
            fixed(mx, x) && fixed(mx, c),
            b,
            w,
            |e: Env| bin_val(BinOp::Add, val(mx, x, e), val(mx, c, e) & w.mask(), w),
        )
    } else {
        mc == mx && b == x
    }
    &&& made(
        mc,
        md,
        known_result(mc.arena.nodes@, op, a, b),
        r,
        w,
        |e: Env| cut_value(op, val(mc, a, e), wid(mc, a), val(mc, b, e), w, w),
    )
    &&& alu_flags(
        md,
        op,
        a,
        x,
        if carry {
            Some(c)
        } else {
            None
        },
        r,
        w,
        me,
    )
    &&& if keep {
        op_written(me, inst, 0, r, m1)
    } else {
        m1 == me
    }
}

/// Two operands are combined, the second sign-extended to the width of the first, with the
/// carry taking part for `adc` and `sbb`; the flags are set, and the result is kept unless
/// only the flags are asked for.
pub open spec fn combines(m0: Emulator, inst: Inst, kind: Kind, m1: Emulator) -> bool {
    exists|
        ma: Emulator,
        a: Ref,
        mb: Emulator,
        b0: Ref,
        mx: Emulator,
        x: Ref,
        mc: Emulator,
        b: Ref,
        md: Emulator,
        r: Ref,
        me: Emulator,
    | #[trigger]
        alu_steps(m0, inst, alu_shape(kind)->0, ma, a, mb, b0, mx, x, mc, b, md, r, me, m1)
}

pub open spec fn neg_steps(
    m0: Emulator,
    inst: Inst,
    ma: Emulator,
    a: Ref,
    mb: Emulator,
    zero: Ref,
    mc: Emulator,
    r: Ref,
    md: Emulator,
    m1: Emulator,
) -> bool {
    let w = inst.op_width_spec(0);
    &&& op_read(m0, inst, 0, ma, a)
    &&& made(ma, mb, true, zero, w, |e: Env| 0u64)
    &&& made(
        mb,
        mc,
        known_result(mb.arena.nodes@, BinOp::Sub, zero, a),
        r,
        w,
        |e: Env| cut_value(BinOp::Sub, 0, w, val(mb, a, e), wid(mb, a), w),
    )
    &&& arith_flags(mc, false, zero, a, r, w, md)
    &&& op_written(md, inst, 0, r, m1)
}

/// Operand 0 becomes its negation, with the flags of subtracting it from zero.
pub open spec fn negates(m0: Emulator, inst: Inst, m1: Emulator) -> bool {
    exists|ma: Emulator, a: Ref, mb: Emulator, zero: Ref, mc: Emulator, r: Ref, md: Emulator|
     #[trigger]
        neg_steps(m0, inst, ma, a, mb, zero, mc, r, md, m1)
}

pub open spec fn count_steps(
    m0: Emulator,
    inst: Inst,
    up: bool,
    ma: Emulator,
    a: Ref,
    mb: Emulator,
    one: Ref,
    mc: Emulator,
    r: Ref,
    md: Emulator,
    me: Emulator,
    m1: Emulator,
) -> bool {
    let w = inst.op_width_spec(0);
    let op = if up {
        BinOp::Add
    } else {
        BinOp::Sub
    };
    &&& op_read(m0, inst, 0, ma, a)
    &&& made(ma, mb, true, one, w, |e: Env| 1u64)
    &&& made(
        mb,
        mc,
        known_result(mb.arena.nodes@, op, a, one),
        r,
        w,
        |e: Env| cut_value(op, val(mb, a, e), wid(mb, a), 1, w, w),
    )
    &&& arith_flags(mc, up, a, one, r, w, md)
    &&& flag_put(md, Flag::Cf, mc.state.flag(Flag::Cf), me)
    &&& op_written(me, inst, 0, r, m1)
}

/// Operand 0 goes up or down by one, with the flags of that but for the carry, which
/// stays.
pub open spec fn counts(m0: Emulator, inst: Inst, up: bool, m1: Emulator) -> bool {
    exists|
        ma: Emulator,
        a: Ref,
        mb: Emulator,
        one: Ref,
        mc: Emulator,
        r: Ref,
        md: Emulator,
        me: Emulator,
    | #[trigger]
        count_steps(m0, inst, up, ma, a, mb, one, mc, r, md, me, m1)
}

/// The shift count: operand 1, or one where there is none.
pub open spec fn count_read(m0: Emulator, inst: Inst, m1: Emulator, c: Ref) -> bool {
    if inst.head.op_count > 1 {
        op_read(m0, inst, 1, m1, c)
    } else {
        made(m0, m1, true, c, Width::W8, |e: Env| 1u64)
    }
}

/// Whether an operation is a rotation, which leaves every flag but carry and overflow.
pub open spec fn rotates(op: BinOp) -> bool {
    op == BinOp::Rol || op == BinOp::Ror
}

pub open spec fn shift_steps(
    m0: Emulator,
    inst: Inst,
    op: BinOp,
    ma: Emulator,
    a: Ref,
    mb: Emulator,
    c0: Ref,
    mc: Emulator,
    c: Ref,
    md: Emulator,
    r: Ref,
    me: Emulator,
    m1: Emulator,
) -> bool {
    let w = inst.op_width_spec(0);
    &&& op_read(m0, inst, 0, ma, a)
    &&& count_read(ma, inst, mb, c0)
    &&& made(mb, mc, fixed(mb, c0), c, w, |e: Env| val(mb, c0, e) & w.mask())
    &&& made(
        mc,
        md,
        known_result(mc.arena.nodes@, op, a, c),
        r,
        w,
        |e: Env| cut_value(op, val(mc, a, e), wid(mc, a), val(mc, c, e), w, w),
    )
    &&& if const_of(md.arena.nodes@, c) == Some(0u64) {
        me == md
    } else if rotates(op) {
        carry_unknown(md, "shift_cf"@, "shift_of"@, me)
    } else {
        partial_flags(md, r, w, "shift_cf"@, "shift_of"@, me)
    }
    &&& op_written(me, inst, 0, r, m1)
}

/// Operand 0 is shifted or rotated. A count that is known to be zero leaves the flags;
/// otherwise carry and overflow are unknown, and the others go by the result of a shift and
/// stay over a rotation.
pub open spec fn shifts(m0: Emulator, inst: Inst, op: BinOp, m1: Emulator) -> bool {
    exists|
        ma: Emulator,
        a: Ref,
        mb: Emulator,
        c0: Ref,
        mc: Emulator,
        c: Ref,
        md: Emulator,
        r: Ref,
        me: Emulator,
    | #[trigger]
        shift_steps(m0, inst, op, ma, a, mb, c0, mc, c, md, r, me, m1)
}

pub open spec fn bt_steps(
    m0: Emulator,
    inst: Inst,
    ma: Emulator,
    a: Ref,
    mb: Emulator,
    b: Ref,
    mc: Emulator,
    cf: Ref,
    m1: Emulator,
) -> bool {
    let w = inst.op_width_spec(0);
    &&& op_read(m0, inst, 0, ma, a)
    &&& op_read(ma, inst, 1, mb, b)
    &&& made(
        mb,
        mc,
        fixed(mb, a) && fixed(mb, b),
        cf,
        Width::W8,
        |e: Env|
            (bin_val(BinOp::Shr, val(mb, a, e), val(mb, b, e) & w.mask(), wid(mb, a).wider(w)) & 1)
                & 0xff,
    )
    &&& flag_put(mc, Flag::Cf, cf, m1)
}

/// The carry becomes the bit of operand 0 that operand 1 names.
pub open spec fn tests_bit(m0: Emulator, inst: Inst, m1: Emulator) -> bool {
    exists|ma: Emulator, a: Ref, mb: Emulator, b: Ref, mc: Emulator, cf: Ref| #[trigger]
        bt_steps(m0, inst, ma, a, mb, b, mc, cf, m1)
}

pub open spec fn fill_steps(
    m0: Emulator,
    w: Width,
    ma: Emulator,
    acc: Ref,
    mb: Emulator,
    r: Ref,
    m1: Emulator,
) -> bool {
    &&& reg_read(m0, acc_spec(w), ma, acc)
    &&& made(
        ma,
        mb,
        fixed(ma, acc),
        r,
        w,
        |e: Env|
            if val(ma, acc, e) & w.sign_bit() == w.sign_bit() {
                w.mask()
            } else {
                0u64
            },
    )
    &&& reg_written(mb, dx_spec(w), r, m1)
}

/// `dx` gets the sign of the accumulator in every bit.
pub open spec fn fills_sign(m0: Emulator, w: Width, m1: Emulator) -> bool {
    exists|ma: Emulator, acc: Ref, mb: Emulator, r: Ref| #[trigger]
        fill_steps(m0, w, ma, acc, mb, r, m1)
}

pub open spec fn wide_product_steps(
    m0: Emulator,
    inst: Inst,
    high: BinOp,
    ma: Emulator,
    a: Ref,
    mb: Emulator,
    b: Ref,
    mc: Emulator,
    lo: Ref,
    md: Emulator,
    hi: Ref,
    me: Emulator,
    mf: Emulator,
    m1: Emulator,
) -> bool {
    let w = inst.op_width_spec(0);
    let wp = wid(mb, a).wider(wid(mb, b));
    &&& reg_read(m0, acc_spec(w), ma, a)
    &&& op_read(ma, inst, 0, mb, b)
    &&& made(
        mb,
        mc,
        fixed(mb, a) && fixed(mb, b),
        lo,
        wp,
        |e: Env| bin_val(BinOp::Mul, val(mb, a, e), val(mb, b, e), wp),
    )
    &&& made(
        mc,
        md,
        fixed(mb, a) && fixed(mb, b),
        hi,
        wp,
        |e: Env| bin_val(high, val(mb, a, e), val(mb, b, e), wp),
    )
    &&& reg_written(md, acc_spec(w), lo, me)
    &&& reg_written(me, dx_spec(w), hi, mf)
    &&& flags_clobbered(mf, m1)
}

/// The accumulator times operand 0, the low half in the accumulator and the high half in
/// `dx`, or in `ah` for bytes.
pub open spec fn multiplies_wide(m0: Emulator, inst: Inst, high: BinOp, m1: Emulator) -> bool {
    exists|
        ma: Emulator,
        a: Ref,
        mb: Emulator,
        b: Ref,
        mc: Emulator,
        lo: Ref,
        md: Emulator,
        hi: Ref,
        me: Emulator,
        mf: Emulator,
    | #[trigger]
        wide_product_steps(m0, inst, high, ma, a, mb, b, mc, lo, md, hi, me, mf, m1)
}

pub open spec fn product_steps(
    m0: Emulator,
    inst: Inst,
    first: int,
    ma: Emulator,
    a: Ref,
    mb: Emulator,
    b0: Ref,
    mc: Emulator,
    b: Ref,
    md: Emulator,
    r: Ref,
    me: Emulator,
    m1: Emulator,
) -> bool {
    let w = inst.op_width_spec(0);
    &&& op_read(m0, inst, first, ma, a)
    &&& op_read(ma, inst, first + 1, mb, b0)
    &&& made(mb, mc, fixed(mb, b0), b, w, |e: Env| second_value(val(mb, b0, e), wid(mb, b0), w))
    &&& made(
        mc,
        md,
        known_result(mc.arena.nodes@, BinOp::Mul, a, b),
        r,
        w,
        |e: Env| cut_value(BinOp::Mul, val(mc, a, e), wid(mc, a), val(mc, b, e), w, w),
    )
    &&& op_written(md, inst, 0, r, me)
    &&& partial_flags(me, r, w, "cf"@, "of"@, m1)
}

/// Operand 0 becomes the product of two operands, from `first` on.
pub open spec fn multiplies(m0: Emulator, inst: Inst, first: int, m1: Emulator) -> bool {
    exists|
        ma: Emulator,
        a: Ref,
        mb: Emulator,
        b0: Ref,
        mc: Emulator,
        b: Ref,
        md: Emulator,
        r: Ref,
        me: Emulator,
    | #[trigger]
        product_steps(m0, inst, first, ma, a, mb, b0, mc, b, md, r, me, m1)
}

/// The signed product in its three forms: one operand and the accumulator, two operands,
/// or two operands into a third.
pub open spec fn multiplies_signed(m0: Emulator, inst: Inst, m1: Emulator) -> bool {
    if inst.head.op_count == 1 {
        multiplies_wide(m0, inst, BinOp::MulHiS, m1)
    } else if inst.head.op_count == 2 {
        multiplies(m0, inst, 0, m1)
    } else {
        multiplies(m0, inst, 1, m1)
    }
}

/// Twice a width, as far as there is one.
pub open spec fn doubled(w: Width) -> Width {
    match w {
        Width::W8 => Width::W16,
        Width::W16 => Width::W32,
        _ => Width::W64,
    }
}

/// The dividend: the upper half shifted over the lower. 128 bits cannot be represented,
/// so there the two halves overlap.
pub open spec fn dividend_value(hi: u64, lo: u64, w: Width) -> u64 {
    let d = doubled(w);
    bin_val(BinOp::Shl, hi & d.mask(), (w.bits() as u64) & d.mask(), d) | (lo & d.mask())
}

/// The dividend is read: `ax` for bytes, else both halves.
pub open spec fn dividend_read(w: Width, ma: Emulator, lo: Ref, m1: Emulator, r: Ref) -> bool {
    if w == Width::W8 {
        reg_read(ma, AX, m1, r)
    } else {
        exists|mb: Emulator, hi: Ref| #[trigger]
            reg_read(ma, dx_spec(w), mb, hi) && made(
                mb,
                m1,
                fixed(mb, hi) && fixed(mb, lo),
                r,
                doubled(w),
                |e: Env| dividend_value(val(mb, hi, e), val(mb, lo, e), w),
            )
    }
}

/// The divisor at the width of the dividend, with its sign where that counts.
pub open spec fn divisor_made(
    m0: Emulator,
    signed: bool,
    b: Ref,
    w: Width,
    m1: Emulator,
    r: Ref,
) -> bool {
    if signed {
        made(m0, m1, fixed(m0, b), r, w, |e: Env| second_value(val(m0, b, e), wid(m0, b), w))
    } else {
        m1 == m0 && r == b
    }
}

/// What was read for a division.
pub ghost struct Divided<'a> {
    pub after: Emulator<'a>,
    pub divisor: Ref,
    pub dividend: Ref,
}

pub open spec fn division_reads(
    m0: Emulator,
    inst: Inst,
    signed: bool,
    ma: Emulator,
    lo: Ref,
    mb: Emulator,
    b: Ref,
    mc: Emulator,
    d: Divided,
) -> bool {
    let w = inst.op_width_spec(0);
    &&& reg_read(m0, acc_spec(w), ma, lo)
    &&& op_read(ma, inst, 0, mb, b)
    &&& dividend_read(w, mb, lo, mc, d.dividend)
    &&& divisor_made(mc, signed, b, doubled(w), d.after, d.divisor)
}

/// The quotient and the remainder are written: to `al` and `ah` for bytes, else to the
/// accumulator and `dx`.
pub open spec fn division_written(
    m: Emulator,
    d: Divided,
    quot: BinOp,
    rem: BinOp,
    w: Width,
    m1: Emulator,
) -> bool {
    if w == Width::W8 {
        exists|mc: Emulator, ax: Ref| #[trigger]
            byte_quotient_steps(m, d, quot, rem, mc, ax, m1)
    } else {
        exists|mc: Emulator, q: Ref, md: Emulator, r: Ref, me: Emulator| #[trigger]
            quotient_steps(m, d, quot, rem, w, mc, q, md, r, me, m1)
    }
}

pub open spec fn byte_quotient_steps(
    m: Emulator,
    d: Divided,
    quot: BinOp,
    rem: BinOp,
    mc: Emulator,
    ax: Ref,
    m1: Emulator,
) -> bool {
    let wd = wid(m, d.dividend).wider(wid(m, d.divisor));
    &&& made(
        m,
        mc,
        known_result(m.arena.nodes@, quot, d.dividend, d.divisor) && known_result(
            m.arena.nodes@,
            rem,
            d.dividend,
            d.divisor,
        ),
        ax,
        Width::W16,
        |e: Env|
            (bin_val(quot, val(m, d.dividend, e), val(m, d.divisor, e), wd) & 0xff) | bin_val(
                BinOp::Shl,
                bin_val(rem, val(m, d.dividend, e), val(m, d.divisor, e), wd) & 0xff,
                8,
                Width::W16,
            ),
    )
    &&& reg_written(mc, AX, ax, m1)
}

pub open spec fn quotient_steps(
    m: Emulator,
    d: Divided,
    quot: BinOp,
    rem: BinOp,
    w: Width,
    mc: Emulator,
    q: Ref,
    md: Emulator,
    r: Ref,
    me: Emulator,
    m1: Emulator,
) -> bool {
    &&& made(
        m,
        mc,
        known_result(m.arena.nodes@, quot, d.dividend, d.divisor),
        q,
        w,
        |e: Env|
            cut_value(
                quot,
                val(m, d.dividend, e),
                wid(m, d.dividend),
                val(m, d.divisor, e),
                wid(m, d.divisor),
                w,
            ),
    )
    &&& made(
        mc,
        md,
        known_result(m.arena.nodes@, rem, d.dividend, d.divisor),
        r,
        w,
        |e: Env|
            cut_value(
                rem,
                val(m, d.dividend, e),
                wid(m, d.dividend),
                val(m, d.divisor, e),
                wid(m, d.divisor),
                w,
            ),
    )
    &&& reg_written(md, acc_spec(w), q, me)
    &&& reg_written(me, dx_spec(w), r, m1)
}

pub open spec fn division_steps(
    m0: Emulator,
    inst: Inst,
    signed: bool,
    ma: Emulator,
    lo: Ref,
    mb: Emulator,
    b: Ref,
    md: Emulator,
    d: Divided,
    mc: Emulator,
    m1: Emulator,
) -> bool {
    &&& division_reads(m0, inst, signed, ma, lo, mb, b, md, d)
    &&& division_written(
        d.after,
        d,
        if signed {
            BinOp::SDiv
        } else {
            BinOp::UDiv
        },
        if signed {
            BinOp::SRem
        } else {
            BinOp::URem
        },
        inst.op_width_spec(0),
        mc,
    )
    &&& flags_clobbered(mc, m1)
}

/// The double-width accumulator is divided by operand 0.
pub open spec fn divides(m0: Emulator, inst: Inst, signed: bool, m1: Emulator) -> bool {
    exists|
        ma: Emulator,
        lo: Ref,
        mb: Emulator,
        b: Ref,
        md: Emulator,
        d: Divided,
        mc: Emulator,
    | #[trigger]
        division_steps(m0, inst, signed, ma, lo, mb, b, md, d, mc, m1)
}

proof fn lemma_constants(w: Width)
    ensures
        0u64 & w.mask() == 0,
        1u64 & w.mask() == 1,
        w.mask() & w.mask() == w.mask(),
        w.sign_bit() & w.mask() == w.sign_bit(),
{
    lemma_mask(0, w.mask());
    lemma_mask(1, w.mask());
    lemma_mask(w.mask(), w.mask());
    lemma_mask(w.sign_bit(), w.mask());
}

impl<'a> Emulator<'a> {
    /// `a op b` cut to `w`.
    fn result(&mut self, op: BinOp, a: Ref, b: Ref, w: Width) -> (r: Ref)
        requires
            old(self).wf(),
            old(self).arena.holds(a),
            old(self).arena.holds(b),
        ensures
            goes_on(*old(self), *final(self)),
            made(
                *old(self),
                *final(self),
                known_result(old(self).arena.nodes@, op, a, b),
                r,
                w,
                |e: Env|
                    cut_value(
                        op,
                        val(*old(self), a, e),
                        wid(*old(self), a),
                        val(*old(self), b, e),
                        wid(*old(self), b),
                        w,
                    ),
            ),
    {
        let ghost m0 = *self;
        let r = cut_bin(&mut self.arena, op, a, b, w);
        proof {
            lemma_quiet(m0, *self);
        }
        r
    }

    /// `a op b`.
    fn plain(&mut self, op: BinOp, a: Ref, b: Ref) -> (r: Ref)
        requires
            old(self).wf(),
            old(self).arena.holds(a),
            old(self).arena.holds(b),
        ensures
            goes_on(*old(self), *final(self)),
            made(
                *old(self),
                *final(self),
                known_result(old(self).arena.nodes@, op, a, b),
                r,
                crate::ir::expr::bin_width(op, wid(*old(self), a), wid(*old(self), b)),
                |e: Env|
                    bin_val(
                        op,
                        val(*old(self), a, e),
                        val(*old(self), b, e),
                        wid(*old(self), a).wider(wid(*old(self), b)),
                    ),
            ),
    {
        let ghost m0 = *self;
        let ghost n0 = self.arena.nodes@;
        let r = self.arena.bin(op, a, b);
        proof {
            lemma_quiet(m0, *self);
            let n1 = self.arena.nodes@;
            assert forall|e: Env| #[trigger] eval(n1, r, e) == bin_val(
                op,
                eval(n0, a, e),
                eval(n0, b, e),
                width_of(n0, a).wider(width_of(n0, b)),
            ) by {
                assert(eval(n1, r, e) == crate::ir::simplify::bin_at(n1, op, a, b, e));
                assert(eval(n1, a, e) == eval(n0, a, e));
                assert(eval(n1, b, e) == eval(n0, b, e));
            }
        }
        r
    }

    fn number(&mut self, value: u64, w: Width) -> (r: Ref)
        requires
            old(self).wf(),
        ensures
            goes_on(*old(self), *final(self)),
            made(*old(self), *final(self), true, r, w, |e: Env| value & w.mask()),
            const_of(final(self).arena.nodes@, r) == Some(value & w.mask()),
    {
        let ghost m0 = *self;
        let r = self.arena.constant(value, w);
        proof {
            lemma_quiet(m0, *self);
        }
        r
    }

    fn second_operand(&mut self, b0: Ref, w: Width) -> (b: Ref)
        requires
            old(self).wf(),
            old(self).arena.holds(b0),
        ensures
            goes_on(*old(self), *final(self)),
            made(
                *old(self),
                *final(self),
                fixed(*old(self), b0),
                b,
                w,
                |e: Env| second_value(val(*old(self), b0, e), wid(*old(self), b0), w),
            ),
    {
        let ghost m0 = *self;
        let b = self.arena.sext(b0, w);
        proof {
            lemma_quiet(m0, *self);
        }
        b
    }

    fn with_carry(&mut self, x: Ref, c: Ref, w: Width) -> (b: Ref)
        requires
            old(self).wf(),
            old(self).arena.holds(x),
            old(self).arena.holds(c),
            old(self).arena.width(x) == w,
        ensures
            goes_on(*old(self), *final(self)),
            made(
                *old(self),
                *final(self),
                fixed(*old(self), x) && fixed(*old(self), c),
                b,
                w,
                |e: Env|
                    bin_val(BinOp::Add, val(*old(self), x, e), val(*old(self), c, e) & w.mask(), w),
            ),
    {
        let ghost m0 = *self;
        let b = carried(&mut self.arena, x, c, w);
        proof {
            lemma_quiet(m0, *self);
        }
        b
    }

    /// Flags of `a + b + c` or `a - b - c`.
    fn put_carry_flags(&mut self, sum: bool, a: Ref, b: Ref, c: Ref, r: Ref, w: Width)
        requires
            old(self).wf(),
            old(self).arena.holds(a),
            old(self).arena.holds(b),
            old(self).arena.holds(c),
            old(self).arena.holds(r),
        ensures
            goes_on(*old(self), *final(self)),
            carry_flags(*old(self), sum, a, b, c, r, w, *final(self)),
    {
        let ghost m0 = *self;
        let k = carry_out(&mut self.arena, sum, a, b, c, w);
        proof {
            lemma_quiet(m0, *self);
        }
        let ghost mk = *self;
        self.put_arith_flags(sum, a, b, r, w);
        let ghost mg = *self;
        self.put_flag(Flag::Cf, k);
        proof {
            assert(carry_steps(m0, sum, a, b, c, r, w, mk, k, mg, *self));
            lemma_goes_on(m0, mk, mg);
            lemma_goes_on(m0, mg, *self);
        }
    }

    pub(crate) fn step_alu(&mut self, inst: &Inst, kind: Kind)
        requires
            old(self).wf(),
            inst.wf(),
            alu_shape(kind) is Some,
        ensures
            goes_on(*old(self), *final(self)),
            combines(*old(self), *inst, kind, *final(self)),
    {
        let ghost m0 = *self;
        let (op, carry, keep) = match alu_shape_of(kind) {
            Some(s) => s,
            None => {
                return;
            },
        };
        let w = inst.op_width(0);
        let a = self.read_op(inst, 0);
        let ghost ma = *self;
        let b0 = self.read_op(inst, 1);
        let ghost mb = *self;
        let c = self.state.flag(Flag::Cf);
        proof {
            lemma_flag_refs(mb);
            assert(byte_ref(mb.arena, c));
        }
        let x = self.second_operand(b0, w);
        let ghost mx = *self;
        let b = if carry {
            self.with_carry(x, c, w)
        } else {
            x
        };
        let ghost mc = *self;
        let r = self.result(op, a, b, w);
        let ghost md = *self;
        match op {
            BinOp::Add => {
                if carry {
                    self.put_carry_flags(true, a, x, c, r, w);
                } else {
                    self.put_arith_flags(true, a, x, r, w);
                }
            },
            BinOp::Sub => {
                if carry {
                    self.put_carry_flags(false, a, x, c, r, w);
                } else {
                    self.put_arith_flags(false, a, x, r, w);
                }
            },
            _ => self.put_logic_flags(r, w),
        }
        let ghost me = *self;
        if keep {
            self.write_op(inst, 0, r);
        }
        proof {
            assert(alu_steps(m0, *inst, alu_shape(kind)->0, ma, a, mb, b0, mx, x, mc, b, md, r, me, *self));
            lemma_goes_on(m0, ma, mb);
            lemma_goes_on(m0, mb, mx);
            lemma_goes_on(m0, mx, mc);
            lemma_goes_on(m0, mc, md);
            lemma_goes_on(m0, md, me);
            lemma_goes_on(m0, me, *self);
        }
    }

    pub(crate) fn step_neg(&mut self, inst: &Inst)
        requires
            old(self).wf(),
            inst.wf(),
        ensures
            goes_on(*old(self), *final(self)),
            negates(*old(self), *inst, *final(self)),
    {
        let ghost m0 = *self;
        let w = inst.op_width(0);
        proof {
            lemma_constants(w);
        }
        let a = self.read_op(inst, 0);
        let ghost ma = *self;
        let zero = self.number(0, w);
        let ghost mb = *self;
        let r = self.result(BinOp::Sub, zero, a, w);
        let ghost mc = *self;
        self.put_arith_flags(false, zero, a, r, w);
        let ghost md = *self;
        self.write_op(inst, 0, r);
        proof {
            assert(made(ma, mb, true, zero, w, |e: Env| 0u64));
            assert(neg_steps(m0, *inst, ma, a, mb, zero, mc, r, md, *self));
            lemma_goes_on(m0, ma, mb);
            lemma_goes_on(m0, mb, mc);
            lemma_goes_on(m0, mc, md);
            lemma_goes_on(m0, md, *self);
        }
    }

    pub(crate) fn step_count(&mut self, inst: &Inst, up: bool)
        requires
            old(self).wf(),
            inst.wf(),
        ensures
            goes_on(*old(self), *final(self)),
            counts(*old(self), *inst, up, *final(self)),
    {
        let ghost m0 = *self;
        let w = inst.op_width(0);
        proof {
            lemma_constants(w);
        }
        let a = self.read_op(inst, 0);
        let ghost ma = *self;
        let one = self.number(1, w);
        let ghost mb = *self;
        let op = if up {
            BinOp::Add
        } else {
            BinOp::Sub
        };
        let r = self.result(op, a, one, w);
        let ghost mc = *self;
        let cf = self.state.flag(Flag::Cf);
        proof {
            lemma_flag_refs(mc);
            assert(byte_ref(mc.arena, mc.state.flag(Flag::Cf)));
        }
        self.put_arith_flags(up, a, one, r, w);
        let ghost md = *self;
        self.put_flag(Flag::Cf, cf);
        let ghost me = *self;
        self.write_op(inst, 0, r);
        proof {
            assert(made(ma, mb, true, one, w, |e: Env| 1u64));
            assert(count_steps(m0, *inst, up, ma, a, mb, one, mc, r, md, me, *self));
            lemma_goes_on(m0, ma, mb);
            lemma_goes_on(m0, mb, mc);
            lemma_goes_on(m0, mc, md);
            lemma_goes_on(m0, md, me);
            lemma_goes_on(m0, me, *self);
        }
    }

    fn read_count(&mut self, inst: &Inst) -> (c: Ref)
        requires
            old(self).wf(),
            inst.wf(),
        ensures
            goes_on(*old(self), *final(self)),
            count_read(*old(self), *inst, *final(self), c),
            final(self).arena.holds(c),
    {
        if inst.head.op_count > 1 {
            self.read_op(inst, 1)
        } else {
            proof {
                lemma_constants(Width::W8);
            }
            self.number(1, Width::W8)
        }
    }

    fn widened(&mut self, x: Ref, w: Width) -> (r: Ref)
        requires
            old(self).wf(),
            old(self).arena.holds(x),
        ensures
            goes_on(*old(self), *final(self)),
            made(
                *old(self),
                *final(self),
                fixed(*old(self), x),
                r,
                w,
                |e: Env| val(*old(self), x, e) & w.mask(),
            ),
    {
        let ghost m0 = *self;
        let r = self.arena.zext(x, w);
        proof {
            lemma_quiet(m0, *self);
            assert forall|e: Env| #[trigger] eval(self.arena.nodes@, r, e) == val(m0, x, e)
                & w.mask() by {
                assert(eval(self.arena.nodes@, x, e) == eval(m0.arena.nodes@, x, e));
            }
        }
        r
    }

    fn cut(&mut self, x: Ref, w: Width) -> (r: Ref)
        requires
            old(self).wf(),
            old(self).arena.holds(x),
        ensures
            goes_on(*old(self), *final(self)),
            made(
                *old(self),
                *final(self),
                fixed(*old(self), x),
                r,
                w,
                |e: Env| val(*old(self), x, e) & w.mask(),
            ),
    {
        let ghost m0 = *self;
        let r = self.arena.trunc(x, w);
        proof {
            lemma_quiet(m0, *self);
            assert forall|e: Env| #[trigger] eval(self.arena.nodes@, r, e) == val(m0, x, e)
                & w.mask() by {
                assert(eval(self.arena.nodes@, x, e) == eval(m0.arena.nodes@, x, e));
            }
        }
        r
    }

    pub(crate) fn step_shift(&mut self, inst: &Inst, op: BinOp)
        requires
            old(self).wf(),
            inst.wf(),
        ensures
            goes_on(*old(self), *final(self)),
            shifts(*old(self), *inst, op, *final(self)),
    {
        let ghost m0 = *self;
        let w = inst.op_width(0);
        let a = self.read_op(inst, 0);
        let ghost ma = *self;
        let c0 = self.read_count(inst);
        let ghost mb = *self;
        let c = self.widened(c0, w);
        let ghost mc = *self;
        let r = self.result(op, a, c, w);
        let ghost md = *self;
        let known_zero: bool = match self.arena.as_const(c) {
            Some(n) => n == 0,
            None => false,
        };
        if !known_zero {
            if op == BinOp::Rol || op == BinOp::Ror {
                self.clobber_cf_of("shift_cf", "shift_of");
            } else {
                self.put_partial_flags(r, w, "shift_cf", "shift_of");
            }
        }
        let ghost me = *self;
        self.write_op(inst, 0, r);
        proof {
            assert(shift_steps(m0, *inst, op, ma, a, mb, c0, mc, c, md, r, me, *self));
            lemma_goes_on(m0, ma, mb);
            lemma_goes_on(m0, mb, mc);
            lemma_goes_on(m0, mc, md);
            lemma_goes_on(m0, md, me);
            lemma_goes_on(m0, me, *self);
        }
    }

    pub(crate) fn step_bt(&mut self, inst: &Inst)
        requires
            old(self).wf(),
            inst.wf(),
        ensures
            goes_on(*old(self), *final(self)),
            tests_bit(*old(self), *inst, *final(self)),
    {
        let ghost m0 = *self;
        let w = inst.op_width(0);
        proof {
            lemma_constants(w);
        }
        let a = self.read_op(inst, 0);
        let ghost ma = *self;
        let b = self.read_op(inst, 1);
        let ghost mb = *self;
        let wide = self.widened(b, w);
        let ghost m2 = *self;
        let sh = self.plain(BinOp::Shr, a, wide);
        let ghost m3 = *self;
        let one = self.number(1, w);
        let ghost m4 = *self;
        let cf = self.result(BinOp::And, sh, one, Width::W8);
        let ghost mc = *self;
        proof {
            lemma_goes_on(mb, m2, m3);
            lemma_goes_on(mb, m3, m4);
            lemma_goes_on(mb, m4, mc);
            assert(quiet(mb, mc));
            assert forall|e: Env| #[trigger] eval(mc.arena.nodes@, cf, e) == (bin_val(
                BinOp::Shr,
                val(mb, a, e),
                val(mb, b, e) & w.mask(),
                wid(mb, a).wider(w),
            ) & 1) & 0xff by {
                assert(eval(m4.arena.nodes@, sh, e) == eval(m3.arena.nodes@, sh, e));
                assert(eval(m2.arena.nodes@, a, e) == eval(mb.arena.nodes@, a, e));
                assert(eval(m4.arena.nodes@, one, e) == 1u64 & w.mask());
            }
        }
        self.put_flag(Flag::Cf, cf);
        proof {
            assert(bt_steps(m0, *inst, ma, a, mb, b, mc, cf, *self));
            lemma_goes_on(m0, ma, mb);
            lemma_goes_on(m0, mb, mc);
            lemma_goes_on(m0, mc, *self);
        }
    }

    pub(crate) fn step_sign_fill(&mut self, w: Width)
        requires
            old(self).wf(),
        ensures
            goes_on(*old(self), *final(self)),
            fills_sign(*old(self), w, *final(self)),
    {
        let ghost m0 = *self;
        proof {
            lemma_constants(w);
        }
        let acc = self.read_reg(acc_for_width(w));
        let ghost ma = *self;
        let sb = self.number(w.sign_bit(), w);
        let ghost m2 = *self;
        let m = self.plain(BinOp::And, acc, sb);
        let ghost m3 = *self;
        let neg = self.plain(BinOp::Eq, m, sb);
        let ghost m4 = *self;
        let all = self.number(w.mask(), w);
        let ghost m5 = *self;
        let zero = self.number(0, w);
        let ghost m6 = *self;
        let r = self.arena.select_at_width(neg, all, zero);
        let ghost mb = *self;
        proof {
            lemma_quiet(m6, mb);
            lemma_goes_on(ma, m2, m3);
            lemma_goes_on(ma, m3, m4);
            lemma_goes_on(ma, m4, m5);
            lemma_goes_on(ma, m5, m6);
            lemma_goes_on(ma, m6, mb);
            assert(quiet(ma, mb));
            assert forall|e: Env| #[trigger] eval(mb.arena.nodes@, r, e) == (if val(ma, acc, e)
                & w.sign_bit() == w.sign_bit() {
                w.mask()
            } else {
                0u64
            }) by {
                assert(eval(m6.arena.nodes@, neg, e) == eval(m5.arena.nodes@, neg, e));
                assert(eval(m5.arena.nodes@, neg, e) == eval(m4.arena.nodes@, neg, e));
                assert(eval(m3.arena.nodes@, sb, e) == eval(m2.arena.nodes@, sb, e));
                assert(eval(m2.arena.nodes@, acc, e) == eval(ma.arena.nodes@, acc, e));
                assert(eval(m6.arena.nodes@, all, e) == eval(m5.arena.nodes@, all, e));
                assert(eval(m6.arena.nodes@, zero, e) == 0u64 & w.mask());
                assert(eval(m5.arena.nodes@, all, e) == w.mask() & w.mask());
                assert(eval(m2.arena.nodes@, sb, e) == w.sign_bit() & w.mask());
            }
        }
        self.write_reg(dx_for_width(w), r);
        proof {
            assert(fill_steps(m0, w, ma, acc, mb, r, *self));
            lemma_goes_on(m0, ma, mb);
            lemma_goes_on(m0, mb, *self);
        }
    }

    pub(crate) fn step_wide_product(&mut self, inst: &Inst, high: BinOp)
        requires
            old(self).wf(),
            inst.wf(),
            high == BinOp::MulHiS || high == BinOp::MulHiU,
        ensures
            goes_on(*old(self), *final(self)),
            multiplies_wide(*old(self), *inst, high, *final(self)),
    {
        let ghost m0 = *self;
        let w = inst.op_width(0);
        let a = self.read_reg(acc_for_width(w));
        let ghost ma = *self;
        let b = self.read_op(inst, 0);
        let ghost mb = *self;
        let lo = self.plain(BinOp::Mul, a, b);
        let ghost mc = *self;
        let hi = self.plain(high, a, b);
        let ghost md = *self;
        proof {
            let wp = wid(mb, a).wider(wid(mb, b));
            assert forall|e: Env| #[trigger] eval(md.arena.nodes@, hi, e) == bin_val(
                high,
                val(mb, a, e),
                val(mb, b, e),
                wp,
            ) by {
                assert(eval(mc.arena.nodes@, a, e) == eval(mb.arena.nodes@, a, e));
                assert(eval(mc.arena.nodes@, b, e) == eval(mb.arena.nodes@, b, e));
            }
        }
        self.write_reg(acc_for_width(w), lo);
        let ghost me = *self;
        self.write_reg(dx_for_width(w), hi);
        let ghost mf = *self;
        self.clobber_arith_flags();
        proof {
            assert(wide_product_steps(m0, *inst, high, ma, a, mb, b, mc, lo, md, hi, me, mf, *self));
            lemma_goes_on(m0, ma, mb);
            lemma_goes_on(m0, mb, mc);
            lemma_goes_on(m0, mc, md);
            lemma_goes_on(m0, md, me);
            lemma_goes_on(m0, me, mf);
            lemma_goes_on(m0, mf, *self);
        }
    }

    fn step_product(&mut self, inst: &Inst, first: usize)
        requires
            old(self).wf(),
            inst.wf(),
            first <= 1,
        ensures
            goes_on(*old(self), *final(self)),
            multiplies(*old(self), *inst, first as int, *final(self)),
    {
        let ghost m0 = *self;
        let w = inst.op_width(0);
        let a = self.read_op(inst, first);
        let ghost ma = *self;
        let b0 = self.read_op(inst, first + 1);
        let ghost mb = *self;
        let b = self.second_operand(b0, w);
        let ghost mc = *self;
        let r = self.result(BinOp::Mul, a, b, w);
        let ghost md = *self;
        self.write_op(inst, 0, r);
        let ghost me = *self;
        self.put_partial_flags(r, w, "cf", "of");
        proof {
            assert(product_steps(
                m0,
                *inst,
                first as int,
                ma,
                a,
                mb,
                b0,
                mc,
                b,
                md,
                r,
                me,
                *self,
            ));
            lemma_goes_on(m0, ma, mb);
            lemma_goes_on(m0, mb, mc);
            lemma_goes_on(m0, mc, md);
            lemma_goes_on(m0, md, me);
            lemma_goes_on(m0, me, *self);
        }
    }

    pub(crate) fn step_imul(&mut self, inst: &Inst)
        requires
            old(self).wf(),
            inst.wf(),
        ensures
            goes_on(*old(self), *final(self)),
            multiplies_signed(*old(self), *inst, *final(self)),
    {
        if inst.head.op_count == 1 {
            self.step_wide_product(inst, BinOp::MulHiS);
        } else if inst.head.op_count == 2 {
            self.step_product(inst, 0);
        } else {
            self.step_product(inst, 1);
        }
    }

    fn read_dividend(&mut self, w: Width, lo: Ref) -> (r: Ref)
        requires
            old(self).wf(),
            old(self).arena.holds(lo),
        ensures
            goes_on(*old(self), *final(self)),
            dividend_read(w, *old(self), lo, *final(self), r),
            final(self).arena.holds(r),
    {
        let ghost ma = *self;
        if w == Width::W8 {
            return self.read_reg(AX);
        }
        let hi = self.read_reg(dx_for_width(w));
        let ghost mb = *self;
        let d = match w {
            Width::W16 => Width::W32,
            _ => Width::W64,
        };
        let hi_wide = self.widened(hi, d);
        let ghost m2 = *self;
        let lo_wide = self.widened(lo, d);
        let ghost m3 = *self;
        let amount = self.number(w.bits() as u64, d);
        let ghost m4 = *self;
        let shifted = self.plain(BinOp::Shl, hi_wide, amount);
        let ghost m5 = *self;
        let r = self.plain(BinOp::Or, shifted, lo_wide);
        proof {
            lemma_goes_on(mb, m2, m3);
            lemma_goes_on(mb, m3, m4);
            lemma_goes_on(mb, m4, m5);
            lemma_goes_on(mb, m5, *self);
            lemma_goes_on(ma, mb, *self);
            assert(quiet(mb, *self));
            assert forall|e: Env| #[trigger] eval(self.arena.nodes@, r, e) == dividend_value(
                val(mb, hi, e),
                val(mb, lo, e),
                w,
            ) by {
                assert(eval(m4.arena.nodes@, hi_wide, e) == eval(m3.arena.nodes@, hi_wide, e));
                assert(eval(m3.arena.nodes@, hi_wide, e) == eval(m2.arena.nodes@, hi_wide, e));
                assert(eval(m2.arena.nodes@, lo, e) == eval(mb.arena.nodes@, lo, e));
                assert(eval(m5.arena.nodes@, lo_wide, e) == eval(m4.arena.nodes@, lo_wide, e));
                assert(eval(m4.arena.nodes@, lo_wide, e) == eval(m3.arena.nodes@, lo_wide, e));
                assert(eval(m4.arena.nodes@, amount, e) == (w.bits() as u64) & d.mask());
            }
            assert(reg_read(ma, dx_spec(w), mb, hi));
        }
        r
    }

    fn write_byte_division(&mut self, quot: BinOp, rem: BinOp, Ghost(d): Ghost<Divided<'a>>, dividend: Ref, divisor: Ref)
        requires
            old(self).wf(),
            old(self).arena.holds(dividend),
            old(self).arena.holds(divisor),
            d.dividend == dividend,
            d.divisor == divisor,
            quot == BinOp::UDiv || quot == BinOp::SDiv,
            rem == BinOp::URem || rem == BinOp::SRem,
        ensures
            goes_on(*old(self), *final(self)),
            division_written(*old(self), d, quot, rem, Width::W8, *final(self)),
    {
        let ghost m = *self;
        let q = self.plain(quot, dividend, divisor);
        let ghost m1 = *self;
        let r = self.plain(rem, dividend, divisor);
        let ghost m2 = *self;
        let q8 = self.cut(q, Width::W8);
        let ghost m3 = *self;
        let r8 = self.cut(r, Width::W8);
        let ghost m4 = *self;
        let q16 = self.widened(q8, Width::W16);
        let ghost m5 = *self;
        let r16 = self.widened(r8, Width::W16);
        let ghost m6 = *self;
        let eight = self.number(8, Width::W16);
        let ghost m7 = *self;
        let high = self.plain(BinOp::Shl, r16, eight);
        let ghost m8 = *self;
        let ax = self.plain(BinOp::Or, q16, high);
        let ghost mc = *self;
        proof {
            lemma_goes_on(m, m1, m2);
            lemma_goes_on(m, m2, m3);
            lemma_goes_on(m, m3, m4);
            lemma_goes_on(m, m4, m5);
            lemma_goes_on(m, m5, m6);
            lemma_goes_on(m, m6, m7);
            lemma_goes_on(m, m7, m8);
            lemma_goes_on(m, m8, mc);
            assert(quiet(m, mc));
            let wd = wid(m, d.dividend).wider(wid(m, d.divisor));
            assert forall|e: Env| #[trigger] eval(mc.arena.nodes@, ax, e) == (bin_val(
                quot,
                val(m, dividend, e),
                val(m, divisor, e),
                wd,
            ) & 0xff) | bin_val(
                BinOp::Shl,
                bin_val(rem, val(m, dividend, e), val(m, divisor, e), wd) & 0xff,
                8,
                Width::W16,
            ) by {
                assert(eval(m1.arena.nodes@, dividend, e) == val(m, dividend, e));
                assert(eval(m1.arena.nodes@, divisor, e) == val(m, divisor, e));
                assert(eval(m2.arena.nodes@, q, e) == eval(m1.arena.nodes@, q, e));
                assert(eval(m3.arena.nodes@, r, e) == eval(m2.arena.nodes@, r, e));
                assert(eval(m4.arena.nodes@, q8, e) == eval(m3.arena.nodes@, q8, e));
                assert(eval(m5.arena.nodes@, r8, e) == eval(m4.arena.nodes@, r8, e));
                assert(eval(m8.arena.nodes@, q16, e) == eval(m7.arena.nodes@, q16, e));
                assert(eval(m7.arena.nodes@, q16, e) == eval(m6.arena.nodes@, q16, e));
                assert(eval(m6.arena.nodes@, q16, e) == eval(m5.arena.nodes@, q16, e));
                assert(eval(m7.arena.nodes@, r16, e) == eval(m6.arena.nodes@, r16, e));
                assert(eval(m7.arena.nodes@, eight, e) == 8u64 & Width::W16.mask());
                lemma_mask(8, Width::W16.mask());
                lemma_mask(val(m1, q, e), 0xff);
                lemma_mask(val(m2, r, e), 0xff);
                lemma_mask(val(m1, q, e) & 0xff, 0xffff);
                lemma_mask(val(m2, r, e) & 0xff, 0xffff);
            }
        }
        self.write_reg(AX, ax);
        proof {
            assert(byte_quotient_steps(m, d, quot, rem, mc, ax, *self));
            lemma_goes_on(m, mc, *self);
        }
    }

    fn write_division(&mut self, quot: BinOp, rem: BinOp, w: Width, Ghost(d): Ghost<Divided<'a>>, dividend: Ref, divisor: Ref)
        requires
            old(self).wf(),
            old(self).arena.holds(dividend),
            old(self).arena.holds(divisor),
            d.dividend == dividend,
            d.divisor == divisor,
            w != Width::W8,
        ensures
            goes_on(*old(self), *final(self)),
            division_written(*old(self), d, quot, rem, w, *final(self)),
    {
        let ghost m = *self;
        let q = self.result(quot, dividend, divisor, w);
        let ghost mc = *self;
        let r = self.result(rem, dividend, divisor, w);
        let ghost md = *self;
        proof {
            assert forall|e: Env| #[trigger] eval(md.arena.nodes@, r, e) == cut_value(
                rem,
                val(m, dividend, e),
                wid(m, dividend),
                val(m, divisor, e),
                wid(m, divisor),
                w,
            ) by {
                assert(eval(mc.arena.nodes@, dividend, e) == val(m, dividend, e));
                assert(eval(mc.arena.nodes@, divisor, e) == val(m, divisor, e));
            }
        }
        self.write_reg(acc_for_width(w), q);
        let ghost me = *self;
        self.write_reg(dx_for_width(w), r);
        proof {
            assert(quotient_steps(m, d, quot, rem, w, mc, q, md, r, me, *self));
            lemma_goes_on(m, mc, md);
            lemma_goes_on(m, md, me);
            lemma_goes_on(m, me, *self);
        }
    }

    pub(crate) fn step_div(&mut self, inst: &Inst, signed: bool)
        requires
            old(self).wf(),
            inst.wf(),
        ensures
            goes_on(*old(self), *final(self)),
            divides(*old(self), *inst, signed, *final(self)),
    {
        let ghost m0 = *self;
        let w = inst.op_width(0);
        let lo = self.read_reg(acc_for_width(w));
        let ghost ma = *self;
        let b = self.read_op(inst, 0);
        let ghost mb = *self;
        let dividend = self.read_dividend(w, lo);
        let ghost md = *self;
        let double = match w {
            Width::W8 => Width::W16,
            Width::W16 => Width::W32,
            _ => Width::W64,
        };
        let divisor = if signed {
            self.second_operand(b, double)
        } else {
            b
        };
        let ghost m = *self;
        let ghost d = Divided { after: m, divisor, dividend };
        let (quot, rem) = if signed {
            (BinOp::SDiv, BinOp::SRem)
        } else {
            (BinOp::UDiv, BinOp::URem)
        };
        if w == Width::W8 {
            self.write_byte_division(quot, rem, Ghost(d), dividend, divisor);
        } else {
            self.write_division(quot, rem, w, Ghost(d), dividend, divisor);
        }
        let ghost mc = *self;
        self.clobber_arith_flags();
        proof {
            assert(division_steps(m0, *inst, signed, ma, lo, mb, b, md, d, mc, *self));
            lemma_goes_on(m0, ma, mb);
            lemma_goes_on(m0, mb, md);
            lemma_goes_on(m0, md, m);
            lemma_goes_on(m0, m, mc);
            lemma_goes_on(m0, mc, *self);
        }
    }
}

} // verus!
