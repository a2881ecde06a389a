//! The flags an instruction leaves, as expressions over its operands and its result.

use crate::ir::expr::{eval, has, is_const, width_of, Arena, Env, Ref};
use crate::ir::bits::lemma_bitwise;
use crate::ir::fold::{bin_val, lemma_carry, lemma_mask, parity_byte_spec, truth, wadd, wsub};
use crate::ir::mnemonic::ConditionCode;
use crate::ir::value::{BinOp, UnOp, Width};
use vstd::prelude::*;

verus! {

/// The zero flag of a result.
pub open spec fn zero_flag(r: u64) -> u64 {
    truth(r == 0)
}

/// The sign flag of a result.
pub open spec fn sign_flag(r: u64, w: Width) -> u64 {
    truth(r & w.sign_bit() == w.sign_bit())
}

/// The parity flag of a result, which goes by its low byte.
pub open spec fn parity_flag(r: u64) -> u64 {
    parity_byte_spec(r & 0xff)
}

/// The overflow flag of `a + b`: both operands differ in sign from the result.
pub open spec fn sum_overflow(a: u64, b: u64, r: u64, w: Width) -> u64 {
    truth(((a ^ r) & (b ^ r)) & w.sign_bit() == w.sign_bit())
}

/// The overflow flag of `a - b`: the operands differ in sign, and so do `a` and the
/// result.
pub open spec fn difference_overflow(a: u64, b: u64, r: u64, w: Width) -> u64 {
    truth(((a ^ b) & (a ^ r)) & w.sign_bit() == w.sign_bit())
}

/// The carry out of the low four bits.
pub open spec fn adjust_flag(a: u64, b: u64, r: u64) -> u64 {
    truth(((a ^ b) ^ r) & 0x10 == 0x10)
}

/// The carry out of `a + b + c`, or the borrow of `a - b - c`, at width `w`.
pub open spec fn carry_flag(sum: bool, a: u64, b: u64, c: u64, w: Width) -> u64 {
    if sum {
        truth(a + b + c > w.mask())
    } else {
        truth(a < b + c)
    }
}

/// Whether a condition holds of the flags, as a byte.
pub open spec fn condition_value(
    cc: ConditionCode,
    cf: u64,
    pf: u64,
    zf: u64,
    sf: u64,
    of: u64,
) -> u64 {
    match cc {
        ConditionCode::O => of,
        ConditionCode::No => of ^ 1,
        ConditionCode::B => cf,
        ConditionCode::Ae => cf ^ 1,
        ConditionCode::E => zf,
        ConditionCode::Ne => zf ^ 1,
        ConditionCode::Be => cf | zf,
        ConditionCode::A => (cf | zf) ^ 1,
        ConditionCode::S => sf,
        ConditionCode::Ns => sf ^ 1,
        ConditionCode::P => pf,
        ConditionCode::Np => pf ^ 1,
        ConditionCode::L => sf ^ of,
        ConditionCode::Ge => (sf ^ of) ^ 1,
        ConditionCode::Le => (sf ^ of) | zf,
        ConditionCode::G => ((sf ^ of) | zf) ^ 1,
    }
}

/// Whether every flag a condition goes by is among those that are known.
pub open spec fn condition_known(
    cc: ConditionCode,
    cf: bool,
    pf: bool,
    zf: bool,
    sf: bool,
    of: bool,
) -> bool {
    match cc {
        ConditionCode::O | ConditionCode::No => of,
        ConditionCode::B | ConditionCode::Ae => cf,
        ConditionCode::E | ConditionCode::Ne => zf,
        ConditionCode::Be | ConditionCode::A => cf && zf,
        ConditionCode::S | ConditionCode::Ns => sf,
        ConditionCode::P | ConditionCode::Np => pf,
        ConditionCode::L | ConditionCode::Ge => sf && of,
        ConditionCode::Le | ConditionCode::G => sf && of && zf,
    }
}

proof fn lemma_small(w: Width)
    ensures
        w.sign_bit() & w.mask() == w.sign_bit(),
        0x10u64 & w.mask() == 0x10,
        1u64 & w.mask() == 1,
        0u64 & w.mask() == 0,
{
    lemma_mask(w.sign_bit(), w.mask());
    lemma_mask(0x10, w.mask());
    lemma_mask(1, w.mask());
    lemma_mask(0, w.mask());
}

/// Whether `x` masked by `bit` has it set.
fn has_bit(arena: &mut Arena, x: Ref, bit: u64, w: Width) -> (r: Ref)
    requires
        old(arena).wf(),
        old(arena).holds(x),
        bit & w.mask() == bit,
    ensures
        final(arena).grows(*old(arena)),
        final(arena).holds(r),
        final(arena).width(r) == Width::W8,
        forall|e: Env| #[trigger]
            eval(final(arena).nodes@, r, e) == truth(eval(old(arena).nodes@, x, e) & bit == bit),
        is_const(old(arena).nodes@, x) ==> is_const(final(arena).nodes@, r),
{
    let ghost n0 = arena.nodes@;
    let k = arena.constant(bit, w);
    let ghost n1 = arena.nodes@;
    let m = arena.bin(BinOp::And, x, k);
    let ghost n2 = arena.nodes@;
    let r = arena.bin(BinOp::Eq, m, k);
    proof {
        assert forall|e: Env| #[trigger]
            eval(arena.nodes@, r, e) == truth(eval(n0, x, e) & bit == bit) by {
            assert(eval(n1, x, e) == eval(n0, x, e));
            assert(eval(n2, m, e) == crate::ir::simplify::bin_at(n2, BinOp::And, x, k, e));
            assert(eval(n2, x, e) == eval(n1, x, e));
            assert(eval(n2, k, e) == eval(n1, k, e));
            assert(eval(arena.nodes@, m, e) == eval(n2, m, e));
            assert(eval(arena.nodes@, k, e) == eval(n2, k, e));
        }
    }
    r
}

/// Zero, sign and parity flags of a result.
pub struct ResultFlags {
    pub zf: Ref,
    pub sf: Ref,
    pub pf: Ref,
}

/// Three bytes of the arena.
pub open spec fn flag_refs_ok(arena: Arena, f: ResultFlags) -> bool {
    &&& arena.holds(f.zf) && arena.width(f.zf) == Width::W8
    &&& arena.holds(f.sf) && arena.width(f.sf) == Width::W8
    &&& arena.holds(f.pf) && arena.width(f.pf) == Width::W8
}

pub fn result_flags(arena: &mut Arena, result: Ref, w: Width) -> (f: ResultFlags)
    requires
        old(arena).wf(),
        old(arena).holds(result),
    ensures
        final(arena).grows(*old(arena)),
        flag_refs_ok(*final(arena), f),
        forall|e: Env| #[trigger]
            eval(final(arena).nodes@, f.zf, e) == zero_flag(eval(old(arena).nodes@, result, e)),
        forall|e: Env| #[trigger]
            eval(final(arena).nodes@, f.sf, e) == sign_flag(eval(old(arena).nodes@, result, e), w),
        forall|e: Env| #[trigger]
            eval(final(arena).nodes@, f.pf, e) == parity_flag(eval(old(arena).nodes@, result, e)),
        is_const(old(arena).nodes@, result) ==> is_const(final(arena).nodes@, f.zf) && is_const(final(arena).nodes@, f.sf) && is_const(final(arena).nodes@, f.pf),
{
    let ghost n0 = arena.nodes@;
    proof {
        lemma_small(w);
    }
    let zero = arena.constant(0, w);
    let ghost n1 = arena.nodes@;
    let zf = arena.bin(BinOp::Eq, result, zero);
    let ghost n2 = arena.nodes@;
    let sf = has_bit(arena, result, w.sign_bit(), w);
    let ghost n3 = arena.nodes@;
    let low = arena.trunc(result, Width::W8);
    let ghost n4 = arena.nodes@;
    let pf = arena.un(UnOp::ParityByte, low);
    let ghost n5 = arena.nodes@;
    proof {
        assert forall|e: Env| #[trigger] eval(n5, zf, e) == zero_flag(eval(n0, result, e)) by {
            assert(eval(n2, zf, e) == crate::ir::simplify::bin_at(n2, BinOp::Eq, result, zero, e));
            assert(eval(n2, result, e) == eval(n1, result, e));
            assert(eval(n1, result, e) == eval(n0, result, e));
            assert(eval(n2, zero, e) == eval(n1, zero, e));
            assert(eval(n5, zf, e) == eval(n4, zf, e));
            assert(eval(n4, zf, e) == eval(n3, zf, e));
            assert(eval(n3, zf, e) == eval(n2, zf, e));
        }
        assert forall|e: Env| #[trigger] eval(n5, sf, e) == sign_flag(eval(n0, result, e), w) by {
            assert(eval(n3, sf, e) == truth(eval(n2, result, e) & w.sign_bit() == w.sign_bit()));
            assert(eval(n2, result, e) == eval(n1, result, e));
            assert(eval(n1, result, e) == eval(n0, result, e));
            assert(eval(n5, sf, e) == eval(n4, sf, e));
            assert(eval(n4, sf, e) == eval(n3, sf, e));
        }
        assert forall|e: Env| #[trigger] eval(n5, pf, e) == parity_flag(eval(n0, result, e)) by {
            assert(eval(n4, low, e) == eval(n4, result, e) & 0xff);
            assert(eval(n4, result, e) == eval(n3, result, e));
            assert(eval(n3, result, e) == eval(n2, result, e));
            assert(eval(n2, result, e) == eval(n1, result, e));
            assert(eval(n1, result, e) == eval(n0, result, e));
            assert(eval(n5, low, e) == eval(n4, low, e));
        }
    }
    ResultFlags { zf, sf, pf }
}

/// Whether the xors of two pairs of values, taken together, have the sign set.
fn both_differ(arena: &mut Arena, a: Ref, b: Ref, c: Ref, d: Ref, w: Width) -> (r: Ref)
    requires
        old(arena).wf(),
        old(arena).holds(a),
        old(arena).holds(b),
        old(arena).holds(c),
        old(arena).holds(d),
    ensures
        final(arena).grows(*old(arena)),
        final(arena).holds(r),
        final(arena).width(r) == Width::W8,
        forall|e: Env| #[trigger]
            eval(final(arena).nodes@, r, e) == truth(
                ((eval(old(arena).nodes@, a, e) ^ eval(old(arena).nodes@, b, e)) & (eval(
                    old(arena).nodes@,
                    c,
                    e,
                ) ^ eval(old(arena).nodes@, d, e))) & w.sign_bit() == w.sign_bit(),
            ),
        is_const(old(arena).nodes@, a) && is_const(old(arena).nodes@, b) && is_const(old(arena).nodes@, c) && is_const(old(arena).nodes@, d) ==> is_const(final(arena).nodes@, r),
{
    let ghost n0 = arena.nodes@;
    proof {
        lemma_small(w);
    }
    let x = arena.bin(BinOp::Xor, a, b);
    let ghost n1 = arena.nodes@;
    let y = arena.bin(BinOp::Xor, c, d);
    let ghost n2 = arena.nodes@;
    let both = arena.bin(BinOp::And, x, y);
    let ghost n3 = arena.nodes@;
    let r = has_bit(arena, both, w.sign_bit(), w);
    proof {
        assert forall|e: Env| #[trigger] eval(arena.nodes@, r, e) == truth(
            ((eval(n0, a, e) ^ eval(n0, b, e)) & (eval(n0, c, e) ^ eval(n0, d, e))) & w.sign_bit()
                == w.sign_bit(),
        ) by {
            assert(eval(n1, x, e) == crate::ir::simplify::bin_at(n1, BinOp::Xor, a, b, e));
            assert(eval(n1, a, e) == eval(n0, a, e));
            assert(eval(n1, b, e) == eval(n0, b, e));
            assert(eval(n2, y, e) == crate::ir::simplify::bin_at(n2, BinOp::Xor, c, d, e));
            assert(eval(n2, c, e) == eval(n1, c, e));
            assert(eval(n2, d, e) == eval(n1, d, e));
            assert(eval(n1, c, e) == eval(n0, c, e));
            assert(eval(n1, d, e) == eval(n0, d, e));
            assert(eval(n3, both, e) == crate::ir::simplify::bin_at(n3, BinOp::And, x, y, e));
            assert(eval(n3, x, e) == eval(n2, x, e));
            assert(eval(n2, x, e) == eval(n1, x, e));
            assert(eval(n3, y, e) == eval(n2, y, e));
        }
    }
    r
}

/// Carry, overflow and adjust flags.
pub struct CarryFlags {
    pub cf: Ref,
    pub of: Ref,
    pub af: Ref,
}

pub open spec fn carry_refs_ok(arena: Arena, f: CarryFlags) -> bool {
    &&& arena.holds(f.cf) && arena.width(f.cf) == Width::W8
    &&& arena.holds(f.of) && arena.width(f.of) == Width::W8
    &&& arena.holds(f.af) && arena.width(f.af) == Width::W8
}

fn adjust(arena: &mut Arena, a: Ref, b: Ref, result: Ref, w: Width) -> (r: Ref)
    requires
        old(arena).wf(),
        old(arena).holds(a),
        old(arena).holds(b),
        old(arena).holds(result),
    ensures
        final(arena).grows(*old(arena)),
        final(arena).holds(r),
        final(arena).width(r) == Width::W8,
        forall|e: Env| #[trigger]
            eval(final(arena).nodes@, r, e) == adjust_flag(
                eval(old(arena).nodes@, a, e),
                eval(old(arena).nodes@, b, e),
                eval(old(arena).nodes@, result, e),
            ),
        is_const(old(arena).nodes@, a) && is_const(old(arena).nodes@, b) && is_const(old(arena).nodes@, result) ==> is_const(final(arena).nodes@, r),
{
    let ghost n0 = arena.nodes@;
    proof {
        lemma_small(w);
    }
    let x = arena.bin(BinOp::Xor, a, b);
    let ghost n1 = arena.nodes@;
    let y = arena.bin(BinOp::Xor, x, result);
    let ghost n2 = arena.nodes@;
    let r = has_bit(arena, y, 0x10, w);
    proof {
        assert forall|e: Env| #[trigger] eval(arena.nodes@, r, e) == adjust_flag(
            eval(n0, a, e),
            eval(n0, b, e),
            eval(n0, result, e),
        ) by {
            assert(eval(n1, x, e) == crate::ir::simplify::bin_at(n1, BinOp::Xor, a, b, e));
            assert(eval(n1, a, e) == eval(n0, a, e));
            assert(eval(n1, b, e) == eval(n0, b, e));
            assert(eval(n2, y, e) == crate::ir::simplify::bin_at(n2, BinOp::Xor, x, result, e));
            assert(eval(n2, x, e) == eval(n1, x, e));
            assert(eval(n2, result, e) == eval(n1, result, e));
            assert(eval(n1, result, e) == eval(n0, result, e));
        }
    }
    r
}

/// Carry, overflow and adjust flags of `a + b`. The carry is unsigned overflow.
pub fn sum_flags(arena: &mut Arena, a: Ref, b: Ref, result: Ref, w: Width) -> (f: CarryFlags)
    requires
        old(arena).wf(),
        old(arena).holds(a),
        old(arena).holds(b),
        old(arena).holds(result),
    ensures
        final(arena).grows(*old(arena)),
        carry_refs_ok(*final(arena), f),
        forall|e: Env| #[trigger]
            eval(final(arena).nodes@, f.cf, e) == truth(
                eval(old(arena).nodes@, result, e) < eval(old(arena).nodes@, a, e),
            ),
        forall|e: Env| #[trigger]
            eval(final(arena).nodes@, f.of, e) == sum_overflow(
                eval(old(arena).nodes@, a, e),
                eval(old(arena).nodes@, b, e),
                eval(old(arena).nodes@, result, e),
                w,
            ),
        forall|e: Env| #[trigger]
            eval(final(arena).nodes@, f.af, e) == adjust_flag(
                eval(old(arena).nodes@, a, e),
                eval(old(arena).nodes@, b, e),
                eval(old(arena).nodes@, result, e),
            ),
        is_const(old(arena).nodes@, a) && is_const(old(arena).nodes@, result) ==> is_const(final(arena).nodes@, f.cf),
        is_const(old(arena).nodes@, a) && is_const(old(arena).nodes@, b) && is_const(old(arena).nodes@, result) ==> is_const(final(arena).nodes@, f.of) && is_const(final(arena).nodes@, f.af),
{
    let ghost n0 = arena.nodes@;
    let cf = arena.bin(BinOp::Ult, result, a);
    let ghost n1 = arena.nodes@;
    let of = both_differ(arena, a, result, b, result, w);
    let ghost n2 = arena.nodes@;
    let af = adjust(arena, a, b, result, w);
    let ghost n3 = arena.nodes@;
    proof {
        assert forall|r: Ref, e: Env| has(n0, r) implies #[trigger] eval(n2, r, e) == eval(n0, r, e)
            && eval(n1, r, e) == eval(n0, r, e) by {
            assert(eval(n1, r, e) == eval(n0, r, e));
        }
        assert forall|e: Env| #[trigger] eval(n3, cf, e) == truth(eval(n0, result, e) < eval(n0, a, e)) by {
            assert(eval(n1, cf, e) == crate::ir::simplify::bin_at(n1, BinOp::Ult, result, a, e));
            assert(eval(n1, result, e) == eval(n0, result, e));
            assert(eval(n1, a, e) == eval(n0, a, e));
            assert(eval(n2, cf, e) == eval(n1, cf, e));
        }
        assert forall|e: Env| #[trigger] eval(n3, of, e) == sum_overflow(
            eval(n0, a, e),
            eval(n0, b, e),
            eval(n0, result, e),
            w,
        ) by {
            assert(eval(n3, of, e) == eval(n2, of, e));
            assert(eval(n1, a, e) == eval(n0, a, e));
            assert(eval(n1, b, e) == eval(n0, b, e));
            assert(eval(n1, result, e) == eval(n0, result, e));
        }
        assert forall|e: Env| #[trigger] eval(n3, af, e) == adjust_flag(
            eval(n0, a, e),
            eval(n0, b, e),
            eval(n0, result, e),
        ) by {
            assert(eval(n2, a, e) == eval(n0, a, e));
            assert(eval(n2, b, e) == eval(n0, b, e));
            assert(eval(n2, result, e) == eval(n0, result, e));
        }
    }
    CarryFlags { cf, of, af }
}

/// The carry out of the sum of three values cut to a width, or the borrow of the difference.
pub fn carry_out(arena: &mut Arena, sum: bool, a: Ref, b: Ref, c: Ref, w: Width) -> (r: Ref)
    requires
        old(arena).wf(),
        old(arena).holds(a),
        old(arena).holds(b),
        old(arena).holds(c),
    ensures
        final(arena).grows(*old(arena)),
        byte_ref(*final(arena), r),
        forall|e: Env| #[trigger]
            eval(final(arena).nodes@, r, e) == carry_flag(
                sum,
                eval(old(arena).nodes@, a, e) & w.mask(),
                eval(old(arena).nodes@, b, e) & w.mask(),
                eval(old(arena).nodes@, c, e) & w.mask(),
                w,
            ),
        is_const(old(arena).nodes@, a) && is_const(old(arena).nodes@, b) && is_const(old(arena).nodes@, c) ==> is_const(final(arena).nodes@, r),
{
    let ghost n0 = arena.nodes@;
    let x = arena.zext(a, w);
    let ghost n1 = arena.nodes@;
    let y = arena.zext(b, w);
    let ghost n2 = arena.nodes@;
    let z = arena.zext(c, w);
    let ghost n3 = arena.nodes@;
    let op = if sum {
        BinOp::Add
    } else {
        BinOp::Sub
    };
    let s = arena.bin(op, x, y);
    let ghost n4 = arena.nodes@;
    let first = if sum {
        arena.bin(BinOp::Ult, s, x)
    } else {
        arena.bin(BinOp::Ult, x, y)
    };
    let ghost n5 = arena.nodes@;
    let t = arena.bin(op, s, z);
    let ghost n6 = arena.nodes@;
    let next = if sum {
        arena.bin(BinOp::Ult, t, s)
    } else {
        arena.bin(BinOp::Ult, s, z)
    };
    let ghost n7 = arena.nodes@;
    let r = arena.bin(BinOp::Or, first, next);
    let ghost n8 = arena.nodes@;
    proof {
        let m = w.mask();
        assert forall|e: Env| #[trigger] eval(n8, r, e) == carry_flag(
            sum,
            eval(n0, a, e) & m,
            eval(n0, b, e) & m,
            eval(n0, c, e) & m,
            w,
        ) by {
            let p = eval(n0, a, e) & m;
            let q = eval(n0, b, e) & m;
            let u = eval(n0, c, e) & m;
            lemma_mask(eval(n0, a, e), m);
            lemma_mask(eval(n0, b, e), m);
            lemma_mask(eval(n0, c, e), m);
            assert(eval(n1, x, e) == p);
            assert(eval(n2, y, e) == eval(n1, b, e) & m);
            assert(eval(n3, z, e) == eval(n2, c, e) & m);
            assert(eval(n3, x, e) == eval(n2, x, e) == eval(n1, x, e));
            assert(eval(n3, y, e) == eval(n2, y, e));
            assert(eval(n4, s, e) == crate::ir::simplify::bin_at(n4, op, x, y, e));
            assert(eval(n4, x, e) == p && eval(n4, y, e) == q && eval(n4, z, e) == u);
            let sv = eval(n4, s, e);
            assert(sv == bin_val(op, p, q, w));
            lemma_carry(p, q, m);
            lemma_mask(wadd(p, q), m);
            lemma_mask(wsub(p, q), m);
            assert(sv <= m);
            assert(eval(n5, s, e) == sv && eval(n5, x, e) == p && eval(n5, y, e) == q && eval(n5, z, e)
                == u);
            assert(eval(n5, first, e) == truth(
                if sum {
                    sv < p
                } else {
                    p < q
                },
            )) by {
                if sum {
                    assert(eval(n5, first, e) == crate::ir::simplify::bin_at(n5, BinOp::Ult, s, x, e));
                } else {
                    assert(eval(n5, first, e) == crate::ir::simplify::bin_at(n5, BinOp::Ult, x, y, e));
                }
            }
            assert(eval(n6, t, e) == crate::ir::simplify::bin_at(n6, op, s, z, e));
            assert(eval(n6, s, e) == sv && eval(n6, z, e) == u);
            let tv = eval(n6, t, e);
            assert(tv == bin_val(op, sv, u, w));
            lemma_carry(sv, u, m);
            assert(eval(n7, t, e) == tv && eval(n7, s, e) == sv && eval(n7, z, e) == u);
            assert(eval(n7, next, e) == truth(
                if sum {
                    tv < sv
                } else {
                    sv < u
                },
            )) by {
                if sum {
                    assert(eval(n7, next, e) == crate::ir::simplify::bin_at(n7, BinOp::Ult, t, s, e));
                } else {
                    assert(eval(n7, next, e) == crate::ir::simplify::bin_at(n7, BinOp::Ult, s, z, e));
                }
            }
            assert(eval(n7, first, e) == eval(n6, first, e) == eval(n5, first, e));
            assert(eval(n8, r, e) == crate::ir::simplify::bin_at(n8, BinOp::Or, first, next, e));
            assert(eval(n8, first, e) == eval(n7, first, e));
            assert(eval(n8, next, e) == eval(n7, next, e));
            lemma_bitwise(1, 0, 0);
            lemma_bitwise(0, 1, 0);
        }
    }
    r
}

/// Carry, overflow and adjust flags of `a - b`. The carry is the borrow.
pub fn difference_flags(arena: &mut Arena, a: Ref, b: Ref, result: Ref, w: Width) -> (f: CarryFlags)
    requires
        old(arena).wf(),
        old(arena).holds(a),
        old(arena).holds(b),
        old(arena).holds(result),
    ensures
        final(arena).grows(*old(arena)),
        carry_refs_ok(*final(arena), f),
        forall|e: Env| #[trigger]
            eval(final(arena).nodes@, f.cf, e) == truth(
                eval(old(arena).nodes@, a, e) < eval(old(arena).nodes@, b, e),
            ),
        forall|e: Env| #[trigger]
            eval(final(arena).nodes@, f.of, e) == difference_overflow(
                eval(old(arena).nodes@, a, e),
                eval(old(arena).nodes@, b, e),
                eval(old(arena).nodes@, result, e),
                w,
            ),
        forall|e: Env| #[trigger]
            eval(final(arena).nodes@, f.af, e) == adjust_flag(
                eval(old(arena).nodes@, a, e),
                eval(old(arena).nodes@, b, e),
                eval(old(arena).nodes@, result, e),
            ),
        is_const(old(arena).nodes@, a) && is_const(old(arena).nodes@, b) ==> is_const(final(arena).nodes@, f.cf),
        is_const(old(arena).nodes@, a) && is_const(old(arena).nodes@, b) && is_const(old(arena).nodes@, result) ==> is_const(final(arena).nodes@, f.of) && is_const(final(arena).nodes@, f.af),
{
    let ghost n0 = arena.nodes@;
    let cf = arena.bin(BinOp::Ult, a, b);
    let ghost n1 = arena.nodes@;
    let of = both_differ(arena, a, b, a, result, w);
    let ghost n2 = arena.nodes@;
    let af = adjust(arena, a, b, result, w);
    let ghost n3 = arena.nodes@;
    proof {
        assert forall|r: Ref, e: Env| has(n0, r) implies #[trigger] eval(n2, r, e) == eval(n0, r, e)
            && eval(n1, r, e) == eval(n0, r, e) by {
            assert(eval(n1, r, e) == eval(n0, r, e));
        }
        assert forall|e: Env| #[trigger] eval(n3, cf, e) == truth(eval(n0, a, e) < eval(n0, b, e)) by {
            assert(eval(n1, cf, e) == crate::ir::simplify::bin_at(n1, BinOp::Ult, a, b, e));
            assert(eval(n1, b, e) == eval(n0, b, e));
            assert(eval(n1, a, e) == eval(n0, a, e));
            assert(eval(n2, cf, e) == eval(n1, cf, e));
        }
        assert forall|e: Env| #[trigger] eval(n3, of, e) == difference_overflow(
            eval(n0, a, e),
            eval(n0, b, e),
            eval(n0, result, e),
            w,
        ) by {
            assert(eval(n3, of, e) == eval(n2, of, e));
            assert(eval(n1, a, e) == eval(n0, a, e));
            assert(eval(n1, b, e) == eval(n0, b, e));
            assert(eval(n1, result, e) == eval(n0, result, e));
        }
        assert forall|e: Env| #[trigger] eval(n3, af, e) == adjust_flag(
            eval(n0, a, e),
            eval(n0, b, e),
            eval(n0, result, e),
        ) by {
            assert(eval(n2, a, e) == eval(n0, a, e));
            assert(eval(n2, b, e) == eval(n0, b, e));
            assert(eval(n2, result, e) == eval(n0, result, e));
        }
    }
    CarryFlags { cf, of, af }
}

/// One bitwise operation of two bytes.
fn byte_op(arena: &mut Arena, op: BinOp, a: Ref, b: Ref) -> (r: Ref)
    requires
        old(arena).wf(),
        old(arena).holds(a),
        old(arena).holds(b),
        old(arena).width(a) == Width::W8,
        old(arena).width(b) == Width::W8,
        op == BinOp::Xor || op == BinOp::Or,
    ensures
        final(arena).grows(*old(arena)),
        final(arena).holds(r),
        final(arena).width(r) == Width::W8,
        forall|e: Env| #[trigger]
            eval(final(arena).nodes@, r, e) == (if op == BinOp::Xor {
                eval(old(arena).nodes@, a, e) ^ eval(old(arena).nodes@, b, e)
            } else {
                eval(old(arena).nodes@, a, e) | eval(old(arena).nodes@, b, e)
            }),
        is_const(old(arena).nodes@, a) && is_const(old(arena).nodes@, b) ==> is_const(final(arena).nodes@, r),
{
    let ghost n0 = arena.nodes@;
    let r = arena.bin(op, a, b);
    proof {
        assert forall|e: Env| #[trigger] eval(arena.nodes@, r, e) == (if op == BinOp::Xor {
            eval(n0, a, e) ^ eval(n0, b, e)
        } else {
            eval(n0, a, e) | eval(n0, b, e)
        }) by {
            assert(eval(arena.nodes@, r, e) == crate::ir::simplify::bin_at(
                arena.nodes@,
                op,
                a,
                b,
                e,
            ));
            assert(eval(arena.nodes@, a, e) == eval(n0, a, e));
            assert(eval(arena.nodes@, b, e) == eval(n0, b, e));
        }
    }
    r
}

/// A flag the other way round.
fn inverted(arena: &mut Arena, a: Ref) -> (r: Ref)
    requires
        old(arena).wf(),
        old(arena).holds(a),
        old(arena).width(a) == Width::W8,
    ensures
        final(arena).grows(*old(arena)),
        final(arena).holds(r),
        final(arena).width(r) == Width::W8,
        forall|e: Env| #[trigger]
            eval(final(arena).nodes@, r, e) == eval(old(arena).nodes@, a, e) ^ 1,
        is_const(old(arena).nodes@, a) ==> is_const(final(arena).nodes@, r),
{
    let ghost n0 = arena.nodes@;
    proof {
        lemma_small(Width::W8);
    }
    let one = arena.constant(1, Width::W8);
    let ghost n1 = arena.nodes@;
    let r = byte_op(arena, BinOp::Xor, a, one);
    proof {
        assert forall|e: Env| #[trigger] eval(arena.nodes@, r, e) == eval(n0, a, e) ^ 1 by {
            assert(eval(n1, a, e) == eval(n0, a, e));
            assert(eval(n1, one, e) == 1u64 & Width::W8.mask());
        }
    }
    r
}

/// The combination of flags that a condition starts from, before it is turned round.
fn condition_base(
    arena: &mut Arena,
    cc: ConditionCode,
    cf: Ref,
    pf: Ref,
    zf: Ref,
    sf: Ref,
    of: Ref,
) -> (r: Ref)
    requires
        old(arena).wf(),
        byte_ref(*old(arena), cf),
        byte_ref(*old(arena), pf),
        byte_ref(*old(arena), zf),
        byte_ref(*old(arena), sf),
        byte_ref(*old(arena), of),
        !negated(cc),
    ensures
        final(arena).grows(*old(arena)),
        byte_ref(*final(arena), r),
        forall|e: Env| #[trigger]
            eval(final(arena).nodes@, r, e) == condition_value(
                cc,
                eval(old(arena).nodes@, cf, e),
                eval(old(arena).nodes@, pf, e),
                eval(old(arena).nodes@, zf, e),
                eval(old(arena).nodes@, sf, e),
                eval(old(arena).nodes@, of, e),
            ),
        condition_known(
            cc,
            is_const(old(arena).nodes@, cf),
            is_const(old(arena).nodes@, pf),
            is_const(old(arena).nodes@, zf),
            is_const(old(arena).nodes@, sf),
            is_const(old(arena).nodes@, of),
        ) ==> is_const(final(arena).nodes@, r),
{
    match cc {
        ConditionCode::O => of,
        ConditionCode::B => cf,
        ConditionCode::E => zf,
        ConditionCode::S => sf,
        ConditionCode::P => pf,
        ConditionCode::Be => byte_op(arena, BinOp::Or, cf, zf),
        ConditionCode::L => byte_op(arena, BinOp::Xor, sf, of),
        _ => {
            let ghost n0 = arena.nodes@;
            let x = byte_op(arena, BinOp::Xor, sf, of);
            let ghost n1 = arena.nodes@;
            let r = byte_op(arena, BinOp::Or, x, zf);
            proof {
                assert forall|e: Env| #[trigger] eval(arena.nodes@, r, e) == condition_value(
                    cc,
                    eval(n0, cf, e),
                    eval(n0, pf, e),
                    eval(n0, zf, e),
                    eval(n0, sf, e),
                    eval(n0, of, e),
                ) by {
                    assert(eval(n1, zf, e) == eval(n0, zf, e));
                    assert(eval(n1, x, e) == eval(n0, sf, e) ^ eval(n0, of, e));
                }
            }
            r
        },
    }
}

pub open spec fn byte_ref(arena: Arena, r: Ref) -> bool {
    has(arena.nodes@, r) && width_of(arena.nodes@, r) == Width::W8
}

/// The conditions that hold when their counterpart does not.
pub open spec fn negated(cc: ConditionCode) -> bool {
    match cc {
        ConditionCode::No | ConditionCode::Ae | ConditionCode::Ne | ConditionCode::A
        | ConditionCode::Ns | ConditionCode::Np | ConditionCode::Ge | ConditionCode::G => true,
        _ => false,
    }
}

/// A condition on the flags, as a byte that is 0 or 1.
pub fn condition(
    arena: &mut Arena,
    cc: ConditionCode,
    cf: Ref,
    pf: Ref,
    zf: Ref,
    sf: Ref,
    of: Ref,
) -> (r: Ref)
    requires
        old(arena).wf(),
        byte_ref(*old(arena), cf),
        byte_ref(*old(arena), pf),
        byte_ref(*old(arena), zf),
        byte_ref(*old(arena), sf),
        byte_ref(*old(arena), of),
    ensures
        final(arena).grows(*old(arena)),
        byte_ref(*final(arena), r),
        forall|e: Env| #[trigger]
            eval(final(arena).nodes@, r, e) == condition_value(
                cc,
                eval(old(arena).nodes@, cf, e),
                eval(old(arena).nodes@, pf, e),
                eval(old(arena).nodes@, zf, e),
                eval(old(arena).nodes@, sf, e),
                eval(old(arena).nodes@, of, e),
            ),
        condition_known(
            cc,
            is_const(old(arena).nodes@, cf),
            is_const(old(arena).nodes@, pf),
            is_const(old(arena).nodes@, zf),
            is_const(old(arena).nodes@, sf),
            is_const(old(arena).nodes@, of),
        ) ==> is_const(final(arena).nodes@, r),
{
    let plain = match cc {
        ConditionCode::No => ConditionCode::O,
        ConditionCode::Ae => ConditionCode::B,
        ConditionCode::Ne => ConditionCode::E,
        ConditionCode::A => ConditionCode::Be,
        ConditionCode::Ns => ConditionCode::S,
        ConditionCode::Np => ConditionCode::P,
        ConditionCode::Ge => ConditionCode::L,
        ConditionCode::G => ConditionCode::Le,
        _ => {
            return condition_base(arena, cc, cf, pf, zf, sf, of);
        },
    };
    let base = condition_base(arena, plain, cf, pf, zf, sf, of);
    inverted(arena, base)
}

} // verus!
