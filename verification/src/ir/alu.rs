//! Arithmetic and logic with flags.

use crate::ir::expr::{const_of, eval, has, is_const, op_of, width_of, Arena, Env, Node, Op, Ref};
use crate::ir::flags::{
    adjust_flag, byte_ref, difference_flags, difference_overflow, parity_flag, result_flags,
    sign_flag, sum_flags, sum_overflow, zero_flag,
};
use crate::ir::fold::{bin_fold, bin_val, lemma_mask, sign_extend_spec, truth};
use crate::ir::lift::{lemma_wf_grows, Emulator};
use crate::ir::machine::{goes_on, lemma_quiet, quiet, state_only};
use crate::ir::subst::lemma_continues_twice;
use crate::ir::value::{BinOp, Width};
use crate::vm::state::Flag;
use vstd::prelude::*;

verus! {

/// The value of a reference in a machine.
pub open spec fn val(m: Emulator, r: Ref, e: Env) -> u64 {
    eval(m.arena.nodes@, r, e)
}

/// The width of a reference in a machine.
pub open spec fn wid(m: Emulator, r: Ref) -> Width {
    width_of(m.arena.nodes@, r)
}

/// Whether a reference is a constant in a machine.
pub open spec fn fixed(m: Emulator, r: Ref) -> bool {
    has(m.arena.nodes@, r) && is_const(m.arena.nodes@, r)
}

/// The number an unmodelled value gets when it is the `k`-th one made since. The numbers end
/// somewhere, and the last one is used from there on.
pub open spec fn numbered(m0: Emulator, k: int) -> int {
    if m0.arena.opaque_counter + k <= u32::MAX {
        m0.arena.opaque_counter + k
    } else {
        u32::MAX as int
    }
}

/// `r` is the `k`-th unmodelled value made since `m0`, with the tag: different from every other
/// value there is.
pub open spec fn unmodelled(m0: Emulator, k: int, m1: Emulator, r: Ref, tag: Seq<char>) -> bool {
    op_of(m1.arena.nodes@, r) matches Op::Opaque(t, n) && t@ == tag && n == numbered(m0, k)
}

/// `r` is built, of width `w`, with the value `f` gives; nothing else changes. Where what it is
/// built of is known, it is a constant.
pub open spec fn made(
    m0: Emulator,
    m1: Emulator,
    known: bool,
    r: Ref,
    w: Width,
    f: spec_fn(Env) -> u64,
) -> bool {
    &&& quiet(m0, m1)
    &&& m1.arena.opaque_counter == m0.arena.opaque_counter
    &&& has(m1.arena.nodes@, r)
    &&& wid(m1, r) == w
    &&& known ==> fixed(m1, r)
    &&& forall|e: Env| #[trigger] eval(m1.arena.nodes@, r, e) == f(e)
}

/// Nothing but the arena and the flags differs.
pub open spec fn flags_only(m0: Emulator, m1: Emulator) -> bool {
    &&& state_only(m0, m1)
    &&& m1.written_args == m0.written_args
    &&& m1.state.flags@.len() == m0.state.flags@.len()
    &&& forall|i: int|
        0 <= i < m1.state.flags@.len() ==> has(m1.arena.nodes@, #[trigger] m1.state.flags@[i])
    &&& m1.state.regs@ == m0.state.regs@
    &&& m1.state.mem@ == m0.state.mem@
    &&& m1.state.sym_stores@ == m0.state.sym_stores@
    &&& m1.state.xmm@ == m0.state.xmm@
}

/// Zero, sign and parity flag go by the result.
pub open spec fn by_result(m0: Emulator, r: Ref, w: Width, m1: Emulator) -> bool {
    &&& forall|e: Env| #[trigger]
        eval(m1.arena.nodes@, m1.state.flag(Flag::Zf), e) == zero_flag(val(m0, r, e))
    &&& forall|e: Env| #[trigger]
        eval(m1.arena.nodes@, m1.state.flag(Flag::Sf), e) == sign_flag(val(m0, r, e), w)
    &&& forall|e: Env| #[trigger]
        eval(m1.arena.nodes@, m1.state.flag(Flag::Pf), e) == parity_flag(val(m0, r, e))
    &&& fixed(m0, r) ==> fixed(m1, m1.state.flag(Flag::Zf)) && fixed(m1, m1.state.flag(Flag::Sf))
        && fixed(m1, m1.state.flag(Flag::Pf))
}

/// The flags of `a + b`, or of `a - b`. The carry is unsigned overflow.
#[verifier::opaque]
pub open spec fn arith_flags(
    m0: Emulator,
    sum: bool,
    a: Ref,
    b: Ref,
    r: Ref,
    w: Width,
    m1: Emulator,
) -> bool {
    &&& flags_only(m0, m1)
    &&& by_result(m0, r, w, m1)
    &&& m1.state.flag(Flag::Df) == m0.state.flag(Flag::Df)
    &&& forall|e: Env| #[trigger]
        eval(m1.arena.nodes@, m1.state.flag(Flag::Cf), e) == (if sum {
            truth(val(m0, r, e) < val(m0, a, e))
        } else {
            truth(val(m0, a, e) < val(m0, b, e))
        })
    &&& forall|e: Env| #[trigger]
        eval(m1.arena.nodes@, m1.state.flag(Flag::Of), e) == (if sum {
            sum_overflow(val(m0, a, e), val(m0, b, e), val(m0, r, e), w)
        } else {
            difference_overflow(val(m0, a, e), val(m0, b, e), val(m0, r, e), w)
        })
    &&& forall|e: Env| #[trigger]
        eval(m1.arena.nodes@, m1.state.flag(Flag::Af), e) == adjust_flag(
            val(m0, a, e),
            val(m0, b, e),
            val(m0, r, e),
        )
    &&& fixed(m0, a) && (if sum {
        fixed(m0, r)
    } else {
        fixed(m0, b)
    }) ==> fixed(m1, m1.state.flag(Flag::Cf))
    &&& fixed(m0, a) && fixed(m0, b) && fixed(m0, r) ==> fixed(m1, m1.state.flag(Flag::Of)) && fixed(
        m1,
        m1.state.flag(Flag::Af),
    )
    &&& m1.arena.opaque_counter == m0.arena.opaque_counter
}

/// The flags of a bitwise result: no carry, no overflow, and an undefined adjust flag.
#[verifier::opaque]
pub open spec fn logic_flags(m0: Emulator, r: Ref, w: Width, m1: Emulator) -> bool {
    &&& flags_only(m0, m1)
    &&& by_result(m0, r, w, m1)
    &&& m1.state.flag(Flag::Df) == m0.state.flag(Flag::Df)
    &&& const_of(m1.arena.nodes@, m1.state.flag(Flag::Cf)) == Some(0u64)
    &&& const_of(m1.arena.nodes@, m1.state.flag(Flag::Of)) == Some(0u64)
    &&& fixed(m1, m1.state.flag(Flag::Cf)) && fixed(m1, m1.state.flag(Flag::Of))
    &&& op_of(m1.arena.nodes@, m1.state.flag(Flag::Af)) matches Op::Opaque(t, n) && t@ == "af_undef"@ && n
        == 0
    &&& m1.arena.opaque_counter == m0.arena.opaque_counter
}

/// The flags of a result whose carry and overflow are not modelled.
#[verifier::opaque]
pub open spec fn partial_flags(
    m0: Emulator,
    r: Ref,
    w: Width,
    cf: Seq<char>,
    of: Seq<char>,
    m1: Emulator,
) -> bool {
    &&& flags_only(m0, m1)
    &&& by_result(m0, r, w, m1)
    &&& m1.state.flag(Flag::Df) == m0.state.flag(Flag::Df)
    &&& m1.state.flag(Flag::Af) == m0.state.flag(Flag::Af)
    &&& unmodelled(m0, 1, m1, m1.state.flag(Flag::Cf), cf)
    &&& unmodelled(m0, 2, m1, m1.state.flag(Flag::Of), of)
    &&& m1.arena.opaque_counter == numbered(m0, 2)
}

/// Carry and overflow are unknown, and every other flag stays.
#[verifier::opaque]
pub open spec fn carry_unknown(
    m0: Emulator,
    cf: Seq<char>,
    of: Seq<char>,
    m1: Emulator,
) -> bool {
    &&& flags_only(m0, m1)
    &&& unmodelled(m0, 1, m1, m1.state.flag(Flag::Cf), cf)
    &&& unmodelled(m0, 2, m1, m1.state.flag(Flag::Of), of)
    &&& m1.arena.opaque_counter == numbered(m0, 2)
    &&& forall|f: Flag|
        f != Flag::Cf && f != Flag::Of ==> #[trigger] m1.state.flag(f) == m0.state.flag(f)
}

/// Every arithmetic flag is unknown.
#[verifier::opaque]
pub open spec fn flags_clobbered(m0: Emulator, m1: Emulator) -> bool {
    &&& flags_only(m0, m1)
    &&& m1.state.flag(Flag::Df) == m0.state.flag(Flag::Df)
    &&& unmodelled(m0, 1, m1, m1.state.flag(Flag::Cf), "cf"@)
    &&& unmodelled(m0, 2, m1, m1.state.flag(Flag::Of), "of"@)
    &&& unmodelled(m0, 3, m1, m1.state.flag(Flag::Zf), "flag"@)
    &&& unmodelled(m0, 4, m1, m1.state.flag(Flag::Sf), "flag"@)
    &&& unmodelled(m0, 5, m1, m1.state.flag(Flag::Pf), "flag"@)
    &&& unmodelled(m0, 6, m1, m1.state.flag(Flag::Af), "flag"@)
    &&& m1.arena.opaque_counter == numbered(m0, 6)
}

/// One flag is set, the others stay.
pub open spec fn flag_put(m0: Emulator, f: Flag, v: Ref, m1: Emulator) -> bool {
    &&& flags_only(m0, m1)
    &&& m1.arena == m0.arena
    &&& m1.state.flags@ == m0.state.flags@.update(f.slot() as int, v)
}

/// The second operand of an operation: sign-extended to its width.
pub open spec fn second_value(b: u64, wb: Width, w: Width) -> u64 {
    sign_extend_spec(b, wb) & w.mask()
}

/// What an operation of two operands leaves at width `w`.
pub open spec fn cut_value(op: BinOp, a: u64, wa: Width, b: u64, wb: Width, w: Width) -> u64 {
    bin_val(op, a, b, wa.wider(wb)) & w.mask()
}

/// Whether an operation of two operands has a known result: both are constants, and the
/// operation is defined on them.
pub open spec fn known_result(ns: Seq<Node>, op: BinOp, a: Ref, b: Ref) -> bool {
    match (const_of(ns, a), const_of(ns, b)) {
        (Some(x), Some(y)) => bin_fold(op, x, y, width_of(ns, a).wider(width_of(ns, b))) is Some,
        _ => false,
    }
}

/// `b` with a carry added, at width `w`.
pub fn carried(arena: &mut Arena, b: Ref, c: Ref, w: Width) -> (r: Ref)
    requires
        old(arena).wf(),
        old(arena).holds(b),
        old(arena).holds(c),
        old(arena).width(b) == w,
    ensures
        final(arena).grows(*old(arena)),
        final(arena).holds(r),
        final(arena).width(r) == w,
        forall|e: Env| #[trigger]
            eval(final(arena).nodes@, r, e) == bin_val(
                BinOp::Add,
                eval(old(arena).nodes@, b, e),
                eval(old(arena).nodes@, c, e) & w.mask(),
                w,
            ),
        is_const(old(arena).nodes@, b) && is_const(old(arena).nodes@, c) ==> is_const(
            final(arena).nodes@,
            r,
        ),
{
    let ghost n0 = arena.nodes@;
    let wide = arena.zext(c, w);
    let ghost n1 = arena.nodes@;
    let r = arena.bin(BinOp::Add, b, wide);
    let ghost n2 = arena.nodes@;
    proof {
        assert forall|e: Env| #[trigger] eval(n2, r, e) == bin_val(
            BinOp::Add,
            eval(n0, b, e),
            eval(n0, c, e) & w.mask(),
            w,
        ) by {
            assert(eval(n2, r, e) == crate::ir::simplify::bin_at(n2, BinOp::Add, b, wide, e));
            assert(eval(n2, b, e) == eval(n1, b, e));
            assert(eval(n1, b, e) == eval(n0, b, e));
            assert(eval(n2, wide, e) == eval(n1, wide, e));
        }
    }
    r
}

/// `a op b`, cut to `w`.
pub fn cut_bin(arena: &mut Arena, op: BinOp, a: Ref, b: Ref, w: Width) -> (r: Ref)
    requires
        old(arena).wf(),
        old(arena).holds(a),
        old(arena).holds(b),
    ensures
        final(arena).grows(*old(arena)),
        final(arena).holds(r),
        final(arena).width(r) == w,
        forall|e: Env| #[trigger]
            eval(final(arena).nodes@, r, e) == cut_value(
                op,
                eval(old(arena).nodes@, a, e),
                old(arena).width(a),
                eval(old(arena).nodes@, b, e),
                old(arena).width(b),
                w,
            ),
        known_result(old(arena).nodes@, op, a, b) ==> is_const(final(arena).nodes@, r),
{
    let ghost n0 = arena.nodes@;
    let x = arena.bin(op, a, b);
    let ghost n1 = arena.nodes@;
    let r = arena.trunc(x, w);
    let ghost n2 = arena.nodes@;
    proof {
        assert forall|e: Env| #[trigger] eval(n2, r, e) == cut_value(
            op,
            eval(n0, a, e),
            width_of(n0, a),
            eval(n0, b, e),
            width_of(n0, b),
            w,
        ) by {
            assert(eval(n2, x, e) == eval(n1, x, e));
            assert(eval(n1, x, e) == crate::ir::simplify::bin_at(n1, op, a, b, e));
            assert(eval(n1, a, e) == eval(n0, a, e));
            assert(eval(n1, b, e) == eval(n0, b, e));
        }
    }
    r
}

pub open spec fn flag_refs(m: Emulator) -> bool {
    forall|f: Flag| byte_ref(m.arena, #[trigger] m.state.flag(f))
}

pub proof fn lemma_flag_refs(m: Emulator)
    requires
        m.wf(),
    ensures
        flag_refs(m),
{
    assert forall|f: Flag| byte_ref(m.arena, #[trigger] m.state.flag(f)) by {
        assert(has(m.arena.nodes@, m.state.flags@[f.slot() as int]));
    }
}

impl<'a> Emulator<'a> {
    /// Set one flag.
    pub(crate) fn put_flag(&mut self, f: Flag, v: Ref)
        requires
            old(self).wf(),
            byte_ref(old(self).arena, v),
        ensures
            final(self).wf(),
            flag_put(*old(self), f, v, *final(self)),
    {
        let ghost m0 = *self;
        self.state.set_flag(f, v);
        proof {
            let ns = self.arena.nodes@;
            assert forall|i: int| 0 <= i < 7 implies has(ns, #[trigger] self.state.flags@[i])
                && width_of(ns, self.state.flags@[i]) == Width::W8 by {
                if i != f.slot() {
                    assert(self.state.flags@[i] == m0.state.flags@[i]);
                }
            }
            lemma_wf_grows(m0, *self);
        }
    }

    fn put_result_flags(&mut self, result: Ref, width: Width)
        requires
            old(self).wf(),
            old(self).arena.holds(result),
        ensures
            goes_on(*old(self), *final(self)),
            final(self).arena.grows(old(self).arena),
            flags_only(*old(self), *final(self)),
            by_result(*old(self), result, width, *final(self)),
            forall|f: Flag|
                f != Flag::Zf && f != Flag::Sf && f != Flag::Pf ==> #[trigger] final(self).state.flag(f) == old(self).state.flag(f),
    {
        let ghost m0 = *self;
        let f = result_flags(&mut self.arena, result, width);
        proof {
            lemma_quiet(m0, *self);
        }
        self.put_flag(Flag::Zf, f.zf);
        self.put_flag(Flag::Sf, f.sf);
        self.put_flag(Flag::Pf, f.pf);
    }

    /// Flags of `a + b` or `a - b`.
    pub(crate) fn put_arith_flags(&mut self, sum: bool, a: Ref, b: Ref, result: Ref, width: Width)
        requires
            old(self).wf(),
            old(self).arena.holds(a),
            old(self).arena.holds(b),
            old(self).arena.holds(result),
        ensures
            goes_on(*old(self), *final(self)),
            arith_flags(*old(self), sum, a, b, result, width, *final(self)),
    {
        let ghost m0 = *self;
        self.put_result_flags(result, width);
        let ghost m1 = *self;
        let f = if sum {
            sum_flags(&mut self.arena, a, b, result, width)
        } else {
            difference_flags(&mut self.arena, a, b, result, width)
        };
        proof {
            lemma_quiet(m1, *self);
            lemma_flag_refs(m1);
            lemma_continues_twice(m0.arena, m1.arena, self.arena);
        }
        let ghost m2 = *self;
        self.put_flag(Flag::Cf, f.cf);
        self.put_flag(Flag::Of, f.of);
        self.put_flag(Flag::Af, f.af);
        proof {
            reveal(arith_flags);
            let n2 = self.arena.nodes@;
            assert(byte_ref(m1.arena, m1.state.flag(Flag::Zf)));
            assert(byte_ref(m1.arena, m1.state.flag(Flag::Sf)));
            assert(byte_ref(m1.arena, m1.state.flag(Flag::Pf)));
            assert(self.state.flag(Flag::Zf) == m1.state.flag(Flag::Zf));
            assert(self.state.flag(Flag::Sf) == m1.state.flag(Flag::Sf));
            assert(self.state.flag(Flag::Pf) == m1.state.flag(Flag::Pf));
            assert(self.state.flag(Flag::Df) == m1.state.flag(Flag::Df));
            assert(by_result(m0, result, width, *self)) by {
                assert forall|e: Env| #[trigger]
                    eval(n2, self.state.flag(Flag::Zf), e) == zero_flag(val(m0, result, e)) by {
                    assert(eval(n2, m1.state.flag(Flag::Zf), e) == eval(
                        m1.arena.nodes@,
                        m1.state.flag(Flag::Zf),
                        e,
                    ));
                }
                assert forall|e: Env| #[trigger]
                    eval(n2, self.state.flag(Flag::Sf), e) == sign_flag(val(m0, result, e), width) by {
                    assert(eval(n2, m1.state.flag(Flag::Sf), e) == eval(
                        m1.arena.nodes@,
                        m1.state.flag(Flag::Sf),
                        e,
                    ));
                }
                assert forall|e: Env| #[trigger]
                    eval(n2, self.state.flag(Flag::Pf), e) == parity_flag(val(m0, result, e)) by {
                    assert(eval(n2, m1.state.flag(Flag::Pf), e) == eval(
                        m1.arena.nodes@,
                        m1.state.flag(Flag::Pf),
                        e,
                    ));
                }
            }
            assert forall|e: Env|
                #![trigger eval(n2, self.state.flag(Flag::Cf), e)]
                #![trigger eval(n2, self.state.flag(Flag::Of), e)]
                #![trigger eval(n2, self.state.flag(Flag::Af), e)]
                {
                    &&& eval(m1.arena.nodes@, a, e) == val(m0, a, e)
                    &&& eval(m1.arena.nodes@, b, e) == val(m0, b, e)
                    &&& eval(m1.arena.nodes@, result, e) == val(m0, result, e)
                } by {}
        }
    }

    /// Flags of a bitwise result.
    pub(crate) fn put_logic_flags(&mut self, result: Ref, width: Width)
        requires
            old(self).wf(),
            old(self).arena.holds(result),
        ensures
            goes_on(*old(self), *final(self)),
            logic_flags(*old(self), result, width, *final(self)),
    {
        let ghost m0 = *self;
        self.put_result_flags(result, width);
        let ghost m1 = *self;
        let zero = self.arena.constant(0, Width::W8);
        let ghost a2 = self.arena;
        let undef = self.arena.undef("af_undef", Width::W8);
        proof {
            lemma_mask(0, Width::W8.mask());
            lemma_continues_twice(m1.arena, a2, self.arena);
            lemma_quiet(m1, *self);
            lemma_flag_refs(m1);
            lemma_continues_twice(m0.arena, m1.arena, self.arena);
        }
        self.put_flag(Flag::Cf, zero);
        self.put_flag(Flag::Of, zero);
        self.put_flag(Flag::Af, undef);
        proof {
            reveal(logic_flags);
            let n2 = self.arena.nodes@;
            assert(self.state.flag(Flag::Zf) == m1.state.flag(Flag::Zf));
            assert(self.state.flag(Flag::Sf) == m1.state.flag(Flag::Sf));
            assert(self.state.flag(Flag::Pf) == m1.state.flag(Flag::Pf));
            assert(self.state.flag(Flag::Df) == m1.state.flag(Flag::Df));
            lemma_result_kept(m0, result, width, m1, *self);
        }
    }

    /// Flags of a result whose carry and overflow are not modelled.
    pub(crate) fn put_partial_flags(
        &mut self,
        result: Ref,
        width: Width,
        cf: &'static str,
        of: &'static str,
    )
        requires
            old(self).wf(),
            old(self).arena.holds(result),
        ensures
            goes_on(*old(self), *final(self)),
            partial_flags(*old(self), result, width, cf@, of@, *final(self)),
    {
        let ghost m0 = *self;
        self.put_result_flags(result, width);
        let ghost m1 = *self;
        self.clobber_cf_of(cf, of);
        proof {
            reveal(partial_flags);
            reveal(carry_unknown);
            lemma_flag_refs(m1);
            lemma_continues_twice(m0.arena, m1.arena, self.arena);
            lemma_result_kept(m0, result, width, m1, *self);
        }
    }

    /// Make the carry and overflow flags unknown.
    pub(crate) fn clobber_cf_of(&mut self, cf: &'static str, of: &'static str)
        requires
            old(self).wf(),
        ensures
            goes_on(*old(self), *final(self)),
            carry_unknown(*old(self), cf@, of@, *final(self)),
    {
        let ghost m0 = *self;
        let u = self.arena.opaque(cf, Width::W8);
        let ghost a1 = self.arena;
        let v = self.arena.opaque(of, Width::W8);
        proof {
            lemma_continues_twice(m0.arena, a1, self.arena);
            lemma_quiet(m0, *self);
        }
        self.put_flag(Flag::Cf, u);
        self.put_flag(Flag::Of, v);
        proof {
            assert(op_of(self.arena.nodes@, u) == op_of(a1.nodes@, u));
            reveal(carry_unknown);
        }
    }

    /// Make one flag unknown.
    fn clobber_flag(&mut self, f: Flag)
        requires
            old(self).wf(),
        ensures
            goes_on(*old(self), *final(self)),
            flags_only(*old(self), *final(self)),
            unmodelled(*old(self), 1, *final(self), final(self).state.flag(f), "flag"@),
            final(self).arena.opaque_counter == numbered(*old(self), 1),
            forall|g: Flag|
                f != g ==> #[trigger] final(self).state.flag(g) == old(self).state.flag(g),
    {
        let ghost m0 = *self;
        let u = self.arena.opaque("flag", Width::W8);
        proof {
            lemma_quiet(m0, *self);
        }
        self.put_flag(f, u);
        proof {
            assert forall|g: Flag| f != g implies #[trigger] self.state.flag(g) == m0.state.flag(g) by {
                assert(f.slot() != g.slot());
            }
        }
    }

    /// Make every arithmetic flag unknown.
    pub(crate) fn clobber_arith_flags(&mut self)
        requires
            old(self).wf(),
        ensures
            goes_on(*old(self), *final(self)),
            flags_clobbered(*old(self), *final(self)),
    {
        let ghost m0 = *self;
        self.clobber_cf_of("cf", "of");
        let ghost m1 = *self;
        self.clobber_flag(Flag::Zf);
        let ghost m2 = *self;
        self.clobber_flag(Flag::Sf);
        let ghost m3 = *self;
        self.clobber_flag(Flag::Pf);
        let ghost m4 = *self;
        self.clobber_flag(Flag::Af);
        proof {
            reveal(flags_clobbered);
            reveal(carry_unknown);
            lemma_flag_refs(m1);
            lemma_flag_refs(m2);
            lemma_flag_refs(m3);
            lemma_flag_refs(m4);
            lemma_continues_twice(m0.arena, m1.arena, m2.arena);
            lemma_continues_twice(m0.arena, m2.arena, m3.arena);
            lemma_continues_twice(m0.arena, m3.arena, m4.arena);
            lemma_continues_twice(m0.arena, m4.arena, self.arena);
            lemma_continues_twice(m1.arena, m2.arena, m3.arena);
            lemma_continues_twice(m1.arena, m3.arena, m4.arena);
            lemma_continues_twice(m1.arena, m4.arena, self.arena);
            lemma_continues_twice(m2.arena, m3.arena, m4.arena);
            lemma_continues_twice(m2.arena, m4.arena, self.arena);
            lemma_continues_twice(m3.arena, m4.arena, self.arena);
            assert(self.state.flag(Flag::Cf) == m1.state.flag(Flag::Cf));
            assert(self.state.flag(Flag::Of) == m1.state.flag(Flag::Of));
            assert(self.state.flag(Flag::Zf) == m2.state.flag(Flag::Zf));
            assert(self.state.flag(Flag::Sf) == m3.state.flag(Flag::Sf));
            assert(self.state.flag(Flag::Pf) == m4.state.flag(Flag::Pf));
            assert(byte_ref(m1.arena, m1.state.flag(Flag::Cf)));
            assert(byte_ref(m1.arena, m1.state.flag(Flag::Of)));
            assert(byte_ref(m2.arena, m2.state.flag(Flag::Zf)));
            assert(byte_ref(m3.arena, m3.state.flag(Flag::Sf)));
            assert(byte_ref(m4.arena, m4.state.flag(Flag::Pf)));
        }
    }
}

/// Flags that go by a result still do when nothing but other flags changes.
proof fn lemma_result_kept(m0: Emulator, r: Ref, w: Width, m1: Emulator, m2: Emulator)
    requires
        m1.wf(),
        by_result(m0, r, w, m1),
        m2.arena.continues(m1.arena),
        m2.state.flag(Flag::Zf) == m1.state.flag(Flag::Zf),
        m2.state.flag(Flag::Sf) == m1.state.flag(Flag::Sf),
        m2.state.flag(Flag::Pf) == m1.state.flag(Flag::Pf),
    ensures
        by_result(m0, r, w, m2),
{
    lemma_flag_refs(m1);
    let n1 = m1.arena.nodes@;
    let n2 = m2.arena.nodes@;
    assert(byte_ref(m1.arena, m1.state.flag(Flag::Zf)));
    assert(byte_ref(m1.arena, m1.state.flag(Flag::Sf)));
    assert(byte_ref(m1.arena, m1.state.flag(Flag::Pf)));
    assert forall|e: Env| #[trigger] eval(n2, m2.state.flag(Flag::Zf), e) == zero_flag(val(m0, r, e)) by {
        assert(eval(n2, m1.state.flag(Flag::Zf), e) == eval(n1, m1.state.flag(Flag::Zf), e));
    }
    assert forall|e: Env| #[trigger]
        eval(n2, m2.state.flag(Flag::Sf), e) == sign_flag(val(m0, r, e), w) by {
        assert(eval(n2, m1.state.flag(Flag::Sf), e) == eval(n1, m1.state.flag(Flag::Sf), e));
    }
    assert forall|e: Env| #[trigger]
        eval(n2, m2.state.flag(Flag::Pf), e) == parity_flag(val(m0, r, e)) by {
        assert(eval(n2, m1.state.flag(Flag::Pf), e) == eval(n1, m1.state.flag(Flag::Pf), e));
    }
}

} // verus!
