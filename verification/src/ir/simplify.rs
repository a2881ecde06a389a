//! Construction of operators with constant folding, peephole rules and the identities
//! that undo mixed boolean-arithmetic obfuscation.
//!
//! Every rule replaces an expression by one with the same value under every valuation.

use crate::ir::bits::{
    lemma_bitwise, lemma_complement, lemma_sign_extend_low, lemma_sums, lemma_truncated,
    lemma_truncated_product,
};
use crate::ir::expr::{
    bin_width, const_of, eval, fits, has, lemma_fits, ok_at, op_of, width_of, Arena, BinOp, Env,
    Node, Op, Ref, UnOp, Width, TRUNC_DISTRIBUTE_DEPTH,
};
use crate::ir::fold::{
    bin_fold, bin_val, bswap, fold_bin, is_mask, lemma_mask, parity_byte, sign_extend,
    sign_extend_spec, un_val, wrapping_difference, wsub,
};
use crate::ir::known::{lemma_bin_fits, lemma_shift_count};
use crate::ir::rules::{
    bin_made, bin_node, bin_rule, built, cast_made, cast_node, collapsed_term, cut_made,
    follows, free_complement, group_built, neg_made, not_made, not_node, opposite, ordered_made,
    padded, recorded, seen_through, select_made, settled, sext_node, split, un_node,
    widened_made,
};
use vstd::prelude::*;

verus! {

/// How deep one rewrite may call for another. Far beyond what any stack can hold.
pub const REWRITE_DEPTH: u32 = 0xffff_ffff;

/// The value of `a op b`.
pub open spec fn bin_at(ns: Seq<Node>, op: BinOp, a: Ref, b: Ref, e: Env) -> u64 {
    bin_val(op, eval(ns, a, e), eval(ns, b, e), width_of(ns, a).wider(width_of(ns, b)))
}

/// `r` computes `a op b`, in no more bits than the operator has.
pub open spec fn denotes(ns: Seq<Node>, r: Ref, op: BinOp, a: Ref, b: Ref) -> bool {
    &&& has(ns, r)
    &&& width_of(ns, r).bits() <= bin_width(op, width_of(ns, a), width_of(ns, b)).bits()
    &&& forall|e: Env| #[trigger] eval(ns, r, e) == bin_at(ns, op, a, b, e)
}

/// `r` computes the complement of `x`, in no more bits than `x` has.
pub open spec fn denotes_not(ns: Seq<Node>, r: Ref, x: Ref) -> bool {
    &&& has(ns, r)
    &&& width_of(ns, r).bits() <= width_of(ns, x).bits()
    &&& forall|e: Env| #[trigger] eval(ns, r, e) == !eval(ns, x, e) & width_of(ns, x).mask()
}

/// `r` computes `x` cut or zero-extended to `to`, in no more bits than `to`.
pub open spec fn denotes_cast(ns: Seq<Node>, r: Ref, x: Ref, to: Width) -> bool {
    &&& has(ns, r)
    &&& width_of(ns, r).bits() <= to.bits()
    &&& forall|e: Env| #[trigger] eval(ns, r, e) == eval(ns, x, e) & to.mask()
}

/// `r` is a node that computes `x op y`, and both operands fit their widths.
pub open spec fn made_of(ns: Seq<Node>, r: Ref, op: BinOp, x: Ref, y: Ref) -> bool {
    &&& x.idx < r.idx
    &&& y.idx < r.idx
    &&& width_of(ns, r) == bin_width(op, width_of(ns, x), width_of(ns, y))
    &&& fits(ns, x)
    &&& fits(ns, y)
    &&& forall|e: Env| #[trigger] eval(ns, r, e) == bin_at(ns, op, x, y, e)
}

/// `a` and `b` are complements of each other.
pub open spec fn complements(ns: Seq<Node>, a: Ref, b: Ref) -> bool {
    &&& width_of(ns, a) == width_of(ns, b)
    &&& forall|e: Env| #[trigger] eval(ns, a, e) == !eval(ns, b, e) & width_of(ns, b).mask()
    &&& forall|e: Env| #[trigger] eval(ns, b, e) == !eval(ns, a, e) & width_of(ns, a).mask()
}

/// The operands of a commutative operator may change places.
pub proof fn lemma_swap(ns: Seq<Node>, r: Ref, op: BinOp, a: Ref, b: Ref)
    requires
        op.is_commutative(),
        denotes(ns, r, op, b, a),
    ensures
        denotes(ns, r, op, a, b),
{
    assert forall|e: Env| #[trigger] eval(ns, r, e) == bin_at(ns, op, a, b, e) by {
        lemma_commutes(
            op,
            eval(ns, a, e),
            eval(ns, b, e),
            width_of(ns, a).wider(width_of(ns, b)),
        );
    }
}

pub proof fn lemma_commutes(op: BinOp, x: u64, y: u64, w: Width)
    requires
        op.is_commutative(),
    ensures
        bin_val(op, x, y, w) == bin_val(op, y, x, w),
{
    lemma_bitwise(x, y, x);
    assert(x * y == y * x) by (nonlinear_arith);
    let (sx, sy) = (crate::ir::fold::signed(x, w), crate::ir::fold::signed(y, w));
    assert(sx * sy == sy * sx) by (nonlinear_arith);
}

/// Whether two pairs of operands are the same but for their order.
pub fn same_pair(a1: Ref, b1: Ref, a2: Ref, b2: Ref) -> (r: bool)
    ensures
        r == ((a1 == a2 && b1 == b2) || (a1 == b2 && b1 == a2)),
{
    (a1 == a2 && b1 == b2) || (a1 == b2 && b1 == a2)
}

impl Arena {
    pub open spec fn ready(self, a: Ref, b: Ref) -> bool {
        &&& self.wf()
        &&& self.holds(a)
        &&& self.holds(b)
    }

    /// This arena continues `before`, and a reference, if there is one, computes `a op b`.
    pub open spec fn rewrote(
        self,
        before: Arena,
        r: Option<Ref>,
        op: BinOp,
        a: Ref,
        b: Ref,
    ) -> bool {
        &&& self.grows(before)
        &&& r matches Some(x) ==> denotes(self.nodes@, x, op, a, b)
    }

    /// True when `b == ~a` or `a == ~b`.
    pub fn is_complement(&self, a: Ref, b: Ref) -> (r: bool)
        requires
            self.ready(a, b),
        ensures
            r == opposite(self.nodes@, a, b),
            r ==> complements(self.nodes@, a, b),
            r == (op_of(self.nodes@, b) == Op::Un(UnOp::Not, a) || op_of(self.nodes@, a) == Op::Un(
                UnOp::Not,
                b,
            )),
    {
        proof {
            lemma_fits(self.nodes@, a);
            lemma_fits(self.nodes@, b);
        }
        if let Some(inner) = self.as_not(b) {
            if inner == a {
                proof {
                    assert forall|e: Env| #[trigger]
                        eval(self.nodes@, a, e) == !eval(self.nodes@, b, e)
                            & self.width(b).mask() by {
                        lemma_complement(eval(self.nodes@, a, e), 0, self.width(a).mask());
                        assert(eval(self.nodes@, b, e) == eval(self.nodes@, b, e));
                    }
                }
                return true;
            }
        }
        if let Some(inner) = self.as_not(a) {
            if inner == b {
                proof {
                    assert forall|e: Env| #[trigger]
                        eval(self.nodes@, b, e) == !eval(self.nodes@, a, e)
                            & self.width(a).mask() by {
                        lemma_complement(eval(self.nodes@, b, e), 0, self.width(b).mask());
                        assert(eval(self.nodes@, a, e) == eval(self.nodes@, a, e));
                    }
                }
                return true;
            }
        }
        false
    }

    /// The operands of `r` if it is a commutative `op`, in an order that does not matter.
    pub(crate) fn halves(&self, r: Ref, op: BinOp) -> (b: Option<(Ref, Ref)>)
        requires
            self.wf(),
            self.holds(r),
            op.is_commutative(),
            !op.is_comparison(),
        ensures
            b == split(self.nodes@, r, op),
            b matches Some(t) ==> op_of(self.nodes@, r) == Op::Bin(op, t.0, t.1) && made_of(
                self.nodes@,
                r,
                op,
                t.0,
                t.1,
            ) && made_of(self.nodes@, r, op, t.1, t.0),
            b is None ==> !(op_of(self.nodes@, r) matches Op::Bin(o, _, _) && o == op),
    {
        match self.as_bin(r) {
            Some((o, x, y)) if o == op => {
                proof {
                    assert forall|e: Env| #[trigger]
                        eval(self.nodes@, r, e) == bin_at(self.nodes@, op, y, x, e) by {
                        lemma_commutes(
                            op,
                            eval(self.nodes@, x, e),
                            eval(self.nodes@, y, e),
                            self.width(x).wider(self.width(y)),
                        );
                    }
                }
                Some((x, y))
            },
            _ => None,
        }
    }

    /// The operand of `r`, if it is a negation.
    pub(crate) fn as_neg(&self, r: Ref) -> (b: Option<Ref>)
        requires
            self.wf(),
            self.holds(r),
        ensures
            b == (match op_of(self.nodes@, r) {
                Op::Un(UnOp::Neg, x) => Some(x),
                _ => None,
            }),
            b matches Some(x) ==> x.idx < r.idx && self.width(x) == self.width(r) && (forall|e: Env|
                #[trigger]
                eval(self.nodes@, r, e) == wsub(0, eval(self.nodes@, x, e)) & self.width(x).mask()),
            match op_of(self.nodes@, r) {
                Op::Un(UnOp::Neg, x) => b == Some(x),
                _ => b is None,
            },
    {
        proof {
            assert(ok_at(self.nodes@, r.idx as int));
        }
        match *self.op(r) {
            Op::Un(UnOp::Neg, x) => Some(x),
            _ => None,
        }
    }

    /// Cut or zero-extend `x` to `to` within a rewrite depth.
    pub(crate) fn trunc_within(&mut self, x: Ref, to: Width, fuel: u32) -> (r: Ref)
        requires
            old(self).wf(),
            old(self).holds(x),
        ensures
            (final(self).nodes@, r) == cast_made(old(self).nodes@, x, to, fuel as nat, old(self).trunc_depth as nat),
            final(self).grows(*old(self)),
            denotes_cast(final(self).nodes@, r, x, to),
            const_of(old(self).nodes@, x) is Some ==> const_of(final(self).nodes@, r) is Some,
        decreases fuel, 20int,
    {
        proof {
            reveal_with_fuel(cast_made, 1);
            reveal_with_fuel(cut_made, 1);
            reveal_with_fuel(widened_made, 1);
        }
        let ghost ns = self.nodes@;
        let ghost t = to.mask();
        let from = self.width(x);
        let ghost m = from.mask();
        proof {
            lemma_fits(ns, x);
            assert(ok_at(ns, x.idx as int));
        }
        if from.bits() < to.bits() {
            return self.zext_within(x, to, fuel);
        }
        if from == to {
            proof {
                assert forall|e: Env| #[trigger] eval(ns, x, e) == eval(ns, x, e) & t by {
                    lemma_mask(eval(ns, x, e), t);
                }
            }
            return x;
        }
        if let Some(c) = self.as_const(x) {
            proof {
                lemma_mask(c, t);
            }
            return self.constant(c & to.mask(), to);
        }
        if fuel > 0 {
            if let Some(r) = self.trunc_transparent(x, to, fuel) {
                return r;
            }
            if let Some(r) = self.trunc_distributed(x, to, fuel) {
                return r;
            }
        }
        let r = self.intern(Node { op: Op::Trunc(x), width: to });
        proof {
            assert forall|e: Env| #[trigger]
                eval(self.nodes@, r, e) == eval(self.nodes@, x, e) & to.mask() by {}
        }
        r
    }

    /// Truncation through an extension or a mask that keeps every surviving bit.
    fn trunc_transparent(&mut self, x: Ref, to: Width, fuel: u32) -> (r: Option<Ref>)
        requires
            old(self).wf(),
            old(self).holds(x),
            old(self).width(x).bits() > to.bits(),
            fuel > 0,
        ensures
            match r {
                Some(y) => seen_through(old(self).nodes@, x, to) is Some && cast_made(
                    old(self).nodes@,
                    seen_through(old(self).nodes@, x, to)->0,
                    to,
                    (fuel - 1) as nat,
                    old(self).trunc_depth as nat,
                ) == (final(self).nodes@, y),
                None => seen_through(old(self).nodes@, x, to) is None && final(self).nodes@ == old(self).nodes@,
            },
            final(self).grows(*old(self)),
            r matches Some(v) ==> denotes_cast(final(self).nodes@, v, x, to),
        decreases fuel, 5int,
    {
        let ghost ns = self.nodes@;
        let ghost t = to.mask();
        let ghost m = self.width(x).mask();
        proof {
            assert(ok_at(ns, x.idx as int));
        }
        match *self.op(x) {
            Op::Zext(inner) | Op::Sext(inner) | Op::Trunc(inner) => {
                // Widening then narrowing to a still-wider width keeps the extension.
                if self.width(inner).bits() < to.bits() {
                    return None;
                }
                let r = self.trunc_within(inner, to, fuel - 1);
                proof {
                    assert forall|e: Env| #[trigger]
                        eval(self.nodes@, r, e) == eval(self.nodes@, x, e) & t by {
                        let v = eval(ns, inner, e);
                        assert(eval(self.nodes@, x, e) == eval(ns, x, e));
                        lemma_truncated(v, 0, m, t);
                        lemma_sign_extend_low(v, width_of(ns, inner), t);
                        lemma_truncated(sign_extend_spec(v, width_of(ns, inner)), 0, m, t);
                    }
                }
                Some(r)
            },
            // trunc(x & c) == trunc(x) when c covers the surviving bits.
            Op::Bin(BinOp::And, y, k) => {
                if let Some(c) = self.as_const(k) {
                    if c & to.mask() == to.mask() {
                        let r = self.trunc_within(y, to, fuel - 1);
                        proof {
                            assert forall|e: Env| #[trigger]
                                eval(self.nodes@, r, e) == eval(self.nodes@, x, e) & t by {
                                assert(eval(self.nodes@, x, e) == eval(ns, x, e));
                                assert(eval(ns, k, e) == c);
                                lemma_truncated(eval(ns, y, e), c, m, t);
                            }
                        }
                        return Some(r);
                    }
                }
                None
            },
            _ => None,
        }
    }

    /// Push truncation through operations whose low bits depend only on the low bits of
    /// their operands. A 16-bit bytecode index is constantly built as
    /// `(guest_reg & 0xffff_ffff_ffff_0000) | imm16` and then read back narrow.
    #[verifier::rlimit(30)]
    fn trunc_distributed(&mut self, x: Ref, to: Width, fuel: u32) -> (r: Option<Ref>)
        requires
            old(self).wf(),
            old(self).holds(x),
            old(self).width(x).bits() > to.bits(),
            fuel > 0,
        ensures
            const_of(old(self).nodes@, x) is None && seen_through(old(self).nodes@, x, to) is None ==> cut_made(
                old(self).nodes@,
                x,
                to,
                fuel as nat,
                old(self).trunc_depth as nat,
            ) == (match r {
                Some(y) => (final(self).nodes@, y),
                None => recorded(final(self).nodes@, Node { op: Op::Trunc(x), width: to }),
            }),
            final(self).grows(*old(self)),
            r matches Some(v) ==> denotes_cast(final(self).nodes@, v, x, to),
        decreases fuel, 5int,
    {
        proof {
            reveal_with_fuel(cast_made, 1);
            reveal_with_fuel(cut_made, 1);
            reveal_with_fuel(bin_made, 1);
            reveal_with_fuel(not_made, 1);
        }
        let ghost ns = self.nodes@;
        let ghost t = to.mask();
        let ghost m = self.width(x).mask();
        proof {
            assert(ok_at(ns, x.idx as int));
        }
        match *self.op(x) {
            Op::Bin(op, a, b) => {
                let bitwise: bool = op == BinOp::And || op == BinOp::Or || op == BinOp::Xor;
                let arithmetic: bool = op == BinOp::Add || op == BinOp::Sub || op == BinOp::Mul;
                if !(bitwise || arithmetic) || self.trunc_depth >= TRUNC_DISTRIBUTE_DEPTH {
                    return None;
                }
                let depth: u32 = self.trunc_depth;
                self.trunc_depth = depth + 1;
                let ta = self.trunc_within(a, to, fuel - 1);
                let ghost n1 = self.nodes@;
                let tb = self.trunc_within(b, to, fuel - 1);
                let ghost n2 = self.nodes@;
                // A sum of parts narrower than the target would wrap too early.
                if arithmetic && self.width(ta).wider(self.width(tb)) != to {
                    self.trunc_depth = depth;
                    return None;
                }
                let r = self.bin_within(op, ta, tb, fuel - 1);
                self.trunc_depth = depth;
                proof {
                    assert forall|e: Env| #[trigger]
                        eval(self.nodes@, r, e) == eval(self.nodes@, x, e) & t by {
                        let (u, v) = (eval(ns, a, e), eval(ns, b, e));
                        assert(eval(n1, ta, e) == u & t);
                        assert(eval(n2, ta, e) == u & t);
                        assert(eval(self.nodes@, ta, e) == u & t);
                        assert(eval(n1, b, e) == v);
                        assert(eval(n2, tb, e) == v & t);
                        assert(eval(self.nodes@, tb, e) == v & t);
                        assert(eval(self.nodes@, x, e) == eval(ns, x, e));
                        lemma_truncated(u, v, m, t);
                        lemma_truncated_product(u, v, m, t);
                    }
                }
                Some(r)
            },
            // trunc(~x) == ~trunc(x), likewise for negation.
            Op::Un(op, a) => {
                if op != UnOp::Not && op != UnOp::Neg {
                    return None;
                }
                let ta = self.trunc_within(a, to, fuel - 1);
                let ghost n1 = self.nodes@;
                if self.width(ta) != to {
                    return None;
                }
                let r = if op == UnOp::Not {
                    self.not_within(ta, fuel - 1)
                } else {
                    self.neg(ta)
                };
                proof {
                    assert forall|e: Env| #[trigger]
                        eval(self.nodes@, r, e) == eval(self.nodes@, x, e) & t by {
                        let u = eval(ns, a, e);
                        assert(eval(n1, ta, e) == u & t);
                        assert(eval(self.nodes@, ta, e) == u & t);
                        assert(eval(self.nodes@, x, e) == eval(ns, x, e));
                        lemma_truncated(u, 0, m, t);
                    }
                }
                Some(r)
            },
            _ => None,
        }
    }

    /// Zero-extend or cut `x` to `to` within a rewrite depth.
    pub(crate) fn zext_within(&mut self, x: Ref, to: Width, fuel: u32) -> (r: Ref)
        requires
            old(self).wf(),
            old(self).holds(x),
        ensures
            (final(self).nodes@, r) == cast_made(old(self).nodes@, x, to, fuel as nat, old(self).trunc_depth as nat),
            final(self).grows(*old(self)),
            denotes_cast(final(self).nodes@, r, x, to),
            const_of(old(self).nodes@, x) is Some ==> const_of(final(self).nodes@, r) is Some,
        decreases fuel, (if old(self).width(x).bits() > to.bits() { 30int } else { 10int }),
    {
        proof {
            reveal_with_fuel(cast_made, 1);
            reveal_with_fuel(cut_made, 1);
            reveal_with_fuel(widened_made, 1);
            reveal_with_fuel(bin_made, 1);
        }
        let ghost ns = self.nodes@;
        let ghost t = to.mask();
        let from = self.width(x);
        let ghost m = from.mask();
        proof {
            lemma_fits(ns, x);
            assert(ok_at(ns, x.idx as int));
        }
        if to.bits() < from.bits() {
            return self.trunc_within(x, to, fuel);
        }
        proof {
            assert forall|e: Env| #[trigger] eval(ns, x, e) == eval(ns, x, e) & t by {
                lemma_mask(eval(ns, x, e), t);
            }
        }
        if from == to {
            return x;
        }
        if let Some(c) = self.as_const(x) {
            proof {
                lemma_mask(c, m);
                lemma_mask(c, t);
            }
            return self.constant(c & from.mask(), to);
        }
        if fuel > 0 {
            match *self.op(x) {
                // zext(zext(x)) == zext(x)
                Op::Zext(inner) => {
                    let r = self.zext_within(inner, to, fuel - 1);
                    proof {
                        assert forall|e: Env| #[trigger]
                            eval(self.nodes@, r, e) == eval(self.nodes@, x, e) & t by {
                            assert(eval(self.nodes@, x, e) == eval(ns, x, e));
                        }
                    }
                    return r;
                },
                // zext(trunc(x, w), to) == cast(x, to) & mask(w)
                Op::Trunc(inner) => {
                    let widened = if self.width(inner).bits() >= to.bits() {
                        self.trunc_within(inner, to, fuel - 1)
                    } else {
                        self.zext_within(inner, to, fuel - 1)
                    };
                    let ghost n1 = self.nodes@;
                    let k = self.constant(from.mask(), to);
                    let r = self.bin_within(BinOp::And, widened, k, fuel - 1);
                    proof {
                        lemma_mask(m, t);
                        assert forall|e: Env| #[trigger]
                            eval(self.nodes@, r, e) == eval(self.nodes@, x, e) & t by {
                            assert(eval(self.nodes@, x, e) == eval(ns, x, e));
                            let v = eval(ns, inner, e);
                            assert(eval(n1, widened, e) == v & t);
                            assert(eval(self.nodes@, widened, e) == v & t);
                            lemma_truncated(v, 0, t, m);
                        }
                    }
                    return r;
                },
                _ => {},
            }
        }
        let r = self.intern(Node { op: Op::Zext(x), width: to });
        proof {
            assert forall|e: Env| #[trigger]
                eval(self.nodes@, r, e) == eval(self.nodes@, x, e) & t by {
                assert(eval(self.nodes@, x, e) == eval(ns, x, e));
            }
        }
        r
    }

    /// Build `~x` within a rewrite depth.
    pub(crate) fn not_within(&mut self, x: Ref, fuel: u32) -> (r: Ref)
        requires
            old(self).wf(),
            old(self).holds(x),
        ensures
            (final(self).nodes@, r) == not_made(old(self).nodes@, x, fuel as nat, old(self).trunc_depth as nat),
            final(self).grows(*old(self)),
            denotes_not(final(self).nodes@, r, x),
            const_of(old(self).nodes@, x) is Some ==> const_of(final(self).nodes@, r) is Some,
            op_of(old(self).nodes@, x) matches Op::Un(UnOp::Not, y) ==> r == y,
        decreases fuel, 9int,
    {
        proof {
            reveal_with_fuel(not_made, 1);
            reveal_with_fuel(bin_made, 1);
        }
        let w = self.width(x);
        let ghost ns = self.nodes@;
        let ghost m = w.mask();
        proof {
            lemma_fits(ns, x);
        }
        if let Some(c) = self.as_const(x) {
            return self.constant(!c, w);
        }
        // ~~x == x
        if let Some(inner) = self.as_not(x) {
            proof {
                assert forall|e: Env| #[trigger] eval(ns, inner, e) == !eval(ns, x, e) & m by {
                    lemma_complement(eval(ns, inner, e), 0, m);
                    assert(eval(ns, x, e) == eval(ns, x, e));
                }
            }
            return inner;
        }
        // De Morgan, applied only when it strictly reduces the number of complements.
        if fuel > 0 {
            if let Some((op, a, b)) = self.as_bin(x) {
                if (op == BinOp::Or || op == BinOp::And) && self.width(a) == self.width(b) && (
                self.complement_is_free(a) || self.complement_is_free(b)) {
                    let na = self.not_within(a, fuel - 1);
                    let ghost n1 = self.nodes@;
                    let nb = self.not_within(b, fuel - 1);
                    let ghost n2 = self.nodes@;
                    let flipped = if op == BinOp::Or {
                        BinOp::And
                    } else {
                        BinOp::Or
                    };
                    let r = self.bin_within(flipped, na, nb, fuel - 1);
                    proof {
                        assert forall|e: Env| #[trigger]
                            eval(self.nodes@, r, e) == !eval(self.nodes@, x, e) & m by {
                            let (u, v) = (eval(ns, a, e), eval(ns, b, e));
                            assert(eval(n1, na, e) == !u & m);
                            assert(eval(n2, na, e) == !u & m);
                            assert(eval(self.nodes@, na, e) == !u & m);
                            assert(eval(n1, b, e) == v);
                            assert(eval(n2, nb, e) == !v & m);
                            assert(eval(self.nodes@, nb, e) == !v & m);
                            assert(eval(self.nodes@, x, e) == eval(ns, x, e));
                            lemma_complement(u, v, m);
                        }
                    }
                    return r;
                }
            }
        }
        let r = self.intern(Node { op: Op::Un(UnOp::Not, x), width: w });
        proof {
            assert forall|e: Env| #[trigger]
                eval(self.nodes@, r, e) == !eval(self.nodes@, x, e) & w.mask() by {}
        }
        r
    }

    /// Whether complementing `r` costs no new operator.
    fn complement_is_free(&self, r: Ref) -> (b: bool)
        requires
            self.holds(r),
        ensures
            b == free_complement(self.nodes@, r),
            b == (op_of(self.nodes@, r) is Const || op_of(self.nodes@, r) matches Op::Un(
                UnOp::Not,
                _,
            )),
    {
        match *self.op(r) {
            Op::Un(UnOp::Not, _) => true,
            Op::Const(_) => true,
            _ => false,
        }
    }

    /// Operators over one operand twice, as far as they collapse.
    fn same_operands(&mut self, op: BinOp, a: Ref, width: Width) -> (r: Option<Ref>)
        requires
            old(self).wf(),
            old(self).holds(a),
            width == bin_width(op, old(self).width(a), old(self).width(a)),
        ensures
            settled(old(self).nodes@, final(self).nodes@, r, collapsed_term(op, a, width)),
            final(self).rewrote(*old(self), r, op, a, a),
            collapses(op) <==> r is Some,
            r matches Some(x) ==> collapsed(final(self).nodes@, op, a, x),
    {
        let ghost ns = self.nodes@;
        let ghost m = width.mask();
        proof {
            lemma_fits(ns, a);
            lemma_mask(0, m);
            lemma_mask(1, m);
        }
        match op {
            BinOp::And | BinOp::Or => {
                proof {
                    assert forall|e: Env| #[trigger]
                        eval(ns, a, e) == bin_at(ns, op, a, a, e) by {
                        lemma_bitwise(eval(ns, a, e), 0, 0);
                    }
                }
                Some(a)
            },
            BinOp::Xor | BinOp::Sub | BinOp::Ult | BinOp::Slt => {
                let r = self.constant(0, width);
                proof {
                    assert forall|e: Env| #[trigger]
                        eval(self.nodes@, r, e) == bin_at(self.nodes@, op, a, a, e) by {
                        lemma_bitwise(eval(ns, a, e), 0, 0);
                        lemma_sums(eval(ns, a, e), 0, self.width(a).mask());
                    }
                }
                Some(r)
            },
            BinOp::Eq => {
                let r = self.constant(1, width);
                Some(r)
            },
            _ => None,
        }
    }

    /// Algebraic identities plus the rules that undo mixed boolean-arithmetic
    /// obfuscation: large expressions made by recursively applying a handful of
    /// identities.
    fn simplify_bin(&mut self, op: BinOp, a: Ref, b: Ref, width: Width, fuel: u32) -> (r: Option<
        Ref,
    >)
        requires
            old(self).ready(a, b),
            width == bin_width(op, old(self).width(a), old(self).width(b)),
            fuel > 0,
        ensures
            follows(
                (old(self).nodes@, old(self).trunc_depth),
                final(self).nodes@,
                r,
                bin_rule(old(self).nodes@, op, a, b, width),
                (fuel - 1) as nat,
            ),
            final(self).rewrote(*old(self), r, op, a, b),
            const_of(old(self).nodes@, b) matches Some(c) && drops_out(op, c) ==> r == Some(a),
        decreases fuel, 8int,
    {
        proof {
            broadcast use group_built;
            reveal(bin_rule);
        }
        let ghost ns = self.nodes@;
        let ghost m = width.mask();
        match op {
            BinOp::Add => self.simplify_add(a, b, width, fuel),
            BinOp::Sub => self.simplify_sub(a, b, width, fuel),
            BinOp::And => self.simplify_and(a, b, width, fuel),
            BinOp::Or => self.simplify_or(a, b, width, fuel),
            BinOp::Xor => self.simplify_xor(a, b, width, fuel),
            BinOp::Mul => {
                let cb = self.as_const(b);
                if cb == Some(0) {
                    let r = self.constant(0, width);
                    proof {
                        assert forall|e: Env| #[trigger]
                            eval(self.nodes@, r, e) == bin_at(self.nodes@, BinOp::Mul, a, b, e) by {
                            assert(eval(ns, b, e) == 0);
                            assert(eval(ns, a, e) * 0 == 0) by (nonlinear_arith);
                            lemma_mask(0, m);
                            lemma_bitwise(m, 0, 0);
                        }
                    }
                    return Some(r);
                }
                if cb == Some(1) {
                    proof {
                        lemma_fits(ns, a);
                    }
                    proof {
                        assert forall|e: Env| #[trigger]
                            eval(self.nodes@, a, e) == bin_at(self.nodes@, BinOp::Mul, a, b, e) by {
                            assert(eval(ns, b, e) == 1);
                            lemma_mask(eval(ns, a, e), m);
                            assert(eval(ns, a, e) * 1 == eval(ns, a, e));
                        }
                    }
                    return Some(a);
                }
                None
            },
            BinOp::Shl | BinOp::Shr | BinOp::Sar | BinOp::Rol | BinOp::Ror => {
                if self.as_const(b) == Some(0) {
                    proof {
                        lemma_fits(ns, a);
                        assert forall|e: Env| #[trigger]
                            eval(ns, a, e) == bin_at(ns, op, a, b, e) by {
                            assert(eval(ns, b, e) == 0);
                            lemma_shift_by_zero(op, eval(ns, a, e), width);
                        }
                    }
                    return Some(a);
                }
                None
            },
            _ => None,
        }
    }

    /// Build `a op b` within a rewrite depth.
    pub(crate) fn bin_within(&mut self, op: BinOp, a: Ref, b: Ref, fuel: u32) -> (r: Ref)
        requires
            old(self).ready(a, b),
        ensures
            (final(self).nodes@, r) == bin_made(old(self).nodes@, op, a, b, fuel as nat, old(self).trunc_depth as nat),
            final(self).grows(*old(self)),
            denotes(final(self).nodes@, r, op, a, b),
            folds(old(self).nodes@, final(self).nodes@, op, a, b, r),
            a == b && collapses(op) && const_of(old(self).nodes@, a) is None && fuel > 0
                ==> collapsed(final(self).nodes@, op, a, r),
            fuel > 0 && const_of(old(self).nodes@, a) is None ==> (const_of(
                old(self).nodes@,
                b,
            ) matches Some(c) && drops_out(op, c) ==> r == a),
            fuel > 0 && const_of(old(self).nodes@, b) is None && op.is_commutative() ==> (const_of(
                old(self).nodes@,
                a,
            ) matches Some(c) && drops_out(op, c) ==> r == b),
        decreases fuel, 10int,
    {
        proof {
            reveal_with_fuel(bin_made, 1);
            reveal_with_fuel(ordered_made, 1);
        }
        let ghost ns = self.nodes@;
        let common = self.width(a).wider(self.width(b));
        let width = if op.is_comparison() {
            Width::W8
        } else {
            common
        };
        // Constant folding.
        if let (Some(x), Some(y)) = (self.as_const(a), self.as_const(b)) {
            proof {
                lemma_mask(x, common.mask());
                lemma_mask(y, common.mask());
            }
            if let Some(v) = fold_bin(op, x, y, common) {
                let r = self.constant(v, width);
                proof {
                    lemma_bin_fits(op, x, y, common);
                    lemma_mask(v, width.mask());
                    assert forall|e: Env| #[trigger]
                        eval(self.nodes@, r, e) == bin_at(self.nodes@, op, a, b, e) by {
                        assert(eval(self.nodes@, a, e) == eval(ns, a, e));
                        assert(eval(self.nodes@, b, e) == eval(ns, b, e));
                    }
                }
                return r;
            }
        }
        if fuel > 0 {
            if a == b {
                if let Some(r) = self.same_operands(op, a, width) {
                    return r;
                }
            }
        }
        let ghost mid = *self;
        // Canonical operand order for commutative ops: constants on the right,
        // otherwise by arena index. Keeps hash-consing effective.
        let swap: bool = op.is_commutative() && ((self.is_const(a) && !self.is_const(b)) || (
        !self.is_const(b) && a.idx > b.idx));
        let (p, q) = if swap {
            (b, a)
        } else {
            (a, b)
        };
        let r = self.bin_ordered(op, p, q, width, fuel);
        proof {
            if swap {
                lemma_swap(self.nodes@, r, op, a, b);
            }
        }
        r
    }

    /// Build `a op b` with the operands in canonical order.
    fn bin_ordered(&mut self, op: BinOp, a: Ref, b: Ref, width: Width, fuel: u32) -> (r: Ref)
        requires
            old(self).ready(a, b),
            width == bin_width(op, old(self).width(a), old(self).width(b)),
        ensures
            (final(self).nodes@, r) == ordered_made(old(self).nodes@, op, a, b, fuel as nat, old(self).trunc_depth as nat),
            final(self).grows(*old(self)),
            denotes(final(self).nodes@, r, op, a, b),
            fuel > 0 ==> (const_of(old(self).nodes@, b) matches Some(c) && drops_out(op, c)
                ==> r == a),
        decreases fuel, 9int,
    {
        proof {
            reveal_with_fuel(ordered_made, 1);
            reveal_with_fuel(built, 1);
        }
        if fuel > 0 {
            if let Some(r) = self.simplify_bin(op, a, b, width, fuel) {
                return r;
            }
        }
        let r = self.intern(Node { op: Op::Bin(op, a, b), width });
        proof {
            assert forall|e: Env| #[trigger]
                eval(self.nodes@, r, e) == bin_at(self.nodes@, op, a, b, e) by {}
        }
        r
    }

    // Public constructors.

    /// The same value at exactly `width`: rules may name it in fewer bits.
    fn exact(&mut self, r: Ref, width: Width) -> (x: Ref)
        requires
            old(self).wf(),
            old(self).holds(r),
            old(self).width(r).bits() <= width.bits(),
        ensures
            (final(self).nodes@, x) == padded((old(self).nodes@, r), width),
            final(self).grows(*old(self)),
            final(self).holds(x),
            final(self).width(x) == width,
            forall|e: Env| #[trigger]
                eval(final(self).nodes@, x, e) == eval(old(self).nodes@, r, e),
            old(self).width(r) == width ==> x == r,
            const_of(old(self).nodes@, r) is Some ==> const_of(final(self).nodes@, x) == const_of(
                old(self).nodes@,
                r,
            ),
    {
        if self.width(r) == width {
            return r;
        }
        if let Some(c) = self.as_const(r) {
            proof {
                lemma_mask(c, width.mask());
            }
            return self.constant(c, width);
        }
        let ghost ns = self.nodes@;
        let x = self.intern(Node { op: Op::Zext(r), width });
        proof {
            assert forall|e: Env| #[trigger]
                eval(self.nodes@, x, e) == eval(ns, r, e) by {
                assert(eval(self.nodes@, r, e) == eval(ns, r, e));
            }
        }
        x
    }

    /// Build `a op b`, folding constants and applying the rewrite rules.
    ///
    /// Whatever rules apply, the result has the value of `a op b` under every valuation.
    pub fn bin(&mut self, op: BinOp, a: Ref, b: Ref) -> (r: Ref)
        requires
            old(self).wf(),
            old(self).holds(a),
            old(self).holds(b),
        ensures
            (final(self).nodes@, r) == bin_node(old(self).nodes@, op, a, b, old(self).trunc_depth as nat),
            final(self).grows(*old(self)),
            denotes(final(self).nodes@, r, op, a, b),
            final(self).width(r) == bin_width(op, old(self).width(a), old(self).width(b)),
            folds(old(self).nodes@, final(self).nodes@, op, a, b, r),
            a == b && collapses(op) && const_of(old(self).nodes@, a) is None ==> collapsed(
                final(self).nodes@,
                op,
                a,
                r,
            ),
            const_of(old(self).nodes@, a) is None && old(self).width(b).bits() <= old(self).width(
                a,
            ).bits() ==> (const_of(old(self).nodes@, b) matches Some(c) && drops_out(op, c)
                ==> r == a),
            const_of(old(self).nodes@, b) is None && old(self).width(a).bits() <= old(self).width(
                b,
            ).bits() && op.is_commutative() ==> (const_of(old(self).nodes@, a) matches Some(c)
                && drops_out(op, c) ==> r == b),
    {
        let width = if op.is_comparison() {
            Width::W8
        } else {
            self.width(a).wider(self.width(b))
        };
        let inner = self.bin_within(op, a, b, REWRITE_DEPTH);
        let ghost mid = self.nodes@;
        let r = self.exact(inner, width);
        proof {
            assert forall|e: Env| #[trigger]
                eval(self.nodes@, r, e) == bin_at(self.nodes@, op, a, b, e) by {
                assert(eval(mid, inner, e) == bin_at(mid, op, a, b, e));
                assert(eval(self.nodes@, a, e) == eval(mid, a, e));
                assert(eval(self.nodes@, b, e) == eval(mid, b, e));
            }
        }
        r
    }

    /// Build `~x`.
    pub fn not(&mut self, x: Ref) -> (r: Ref)
        requires
            old(self).wf(),
            old(self).holds(x),
        ensures
            (final(self).nodes@, r) == not_node(old(self).nodes@, x, old(self).trunc_depth as nat),
            final(self).grows(*old(self)),
            denotes_not(final(self).nodes@, r, x),
            final(self).width(r) == old(self).width(x),
            const_of(old(self).nodes@, x) is Some ==> const_of(final(self).nodes@, r) is Some,
            op_of(old(self).nodes@, x) matches Op::Un(UnOp::Not, y) ==> r == y,
    {
        let width = self.width(x);
        proof {
            assert(ok_at(self.nodes@, x.idx as int));
        }
        let inner = self.not_within(x, REWRITE_DEPTH);
        let ghost mid = self.nodes@;
        let r = self.exact(inner, width);
        proof {
            assert forall|e: Env| #[trigger]
                eval(self.nodes@, r, e) == !eval(self.nodes@, x, e) & width.mask() by {
                assert(eval(mid, inner, e) == !eval(mid, x, e) & width.mask());
                assert(eval(self.nodes@, x, e) == eval(mid, x, e));
            }
        }
        r
    }

    /// Build `-x`. A doubled negation is dropped.
    pub fn neg(&mut self, x: Ref) -> (r: Ref)
        requires
            old(self).wf(),
            old(self).holds(x),
        ensures
            (final(self).nodes@, r) == neg_made(old(self).nodes@, x),
            final(self).grows(*old(self)),
            final(self).holds(r),
            final(self).width(r) == old(self).width(x),
            forall|e: Env| #[trigger]
                eval(final(self).nodes@, r, e) == un_val(
                    UnOp::Neg,
                    eval(final(self).nodes@, x, e),
                    old(self).width(x),
                ),
            match op_of(old(self).nodes@, x) {
                Op::Const(_) => const_of(final(self).nodes@, r) is Some,
                Op::Un(UnOp::Neg, y) => r == y,
                _ => op_of(final(self).nodes@, r) == Op::Un(UnOp::Neg, x),
            },
    {
        let ghost ns = self.nodes@;
        let w = self.width(x);
        let ghost m = w.mask();
        if let Some(c) = self.as_const(x) {
            return self.constant(wrapping_difference(0, c), w);
        }
        if let Some(inner) = self.as_neg(x) {
            proof {
                lemma_fits(ns, inner);
                assert forall|e: Env| #[trigger]
                    eval(ns, inner, e) == un_val(UnOp::Neg, eval(ns, x, e), w) by {
                    lemma_sums(0, eval(ns, inner, e), m);
                    assert(eval(ns, x, e) == eval(ns, x, e));
                }
            }
            return inner;
        }
        let r = self.intern(Node { op: Op::Un(UnOp::Neg, x), width: w });
        proof {
            assert forall|e: Env| #[trigger]
                eval(self.nodes@, r, e) == un_val(UnOp::Neg, eval(self.nodes@, x, e), w) by {}
        }
        r
    }

    /// Build a unary operator over `x`.
    pub fn un(&mut self, op: UnOp, x: Ref) -> (r: Ref)
        requires
            old(self).wf(),
            old(self).holds(x),
        ensures
            (final(self).nodes@, r) == un_node(old(self).nodes@, op, x, old(self).trunc_depth as nat),
            final(self).grows(*old(self)),
            final(self).holds(r),
            final(self).width(r) == old(self).width(x),
            forall|e: Env| #[trigger]
                eval(final(self).nodes@, r, e) == un_val(
                    op,
                    eval(final(self).nodes@, x, e),
                    old(self).width(x),
                ),
            const_of(old(self).nodes@, x) is Some ==> const_of(final(self).nodes@, r) is Some,
            (op is ParityByte || op is Bswap) && const_of(old(self).nodes@, x) is None ==> op_of(
                final(self).nodes@,
                r,
            ) == Op::Un(op, x),
    {
        match op {
            UnOp::Not => self.not(x),
            UnOp::Neg => self.neg(x),
            UnOp::ParityByte | UnOp::Bswap => {
                let ghost ns = self.nodes@;
                let w = self.width(x);
                if let Some(c) = self.as_const(x) {
                    let v: u64 = if op == UnOp::ParityByte {
                        parity_byte(c)
                    } else {
                        bswap(c, w)
                    };
                    let r = self.constant(v, w);
                    proof {
                        crate::ir::known::lemma_bswap_fits(c);
                        lemma_mask(v, w.mask());
                    }
                    return r;
                }
                let r = self.intern(Node { op: Op::Un(op, x), width: w });
                proof {
                    assert forall|e: Env| #[trigger]
                        eval(self.nodes@, r, e) == un_val(op, eval(self.nodes@, x, e), w) by {}
                }
                r
            },
        }
    }

    /// Zero-extend `x` to `to`. A narrower `to` truncates.
    pub fn zext(&mut self, x: Ref, to: Width) -> (r: Ref)
        requires
            old(self).wf(),
            old(self).holds(x),
        ensures
            (final(self).nodes@, r) == cast_node(old(self).nodes@, x, to, old(self).trunc_depth as nat),
            final(self).grows(*old(self)),
            denotes_cast(final(self).nodes@, r, x, to),
            final(self).width(r) == to,
            old(self).width(x) == to ==> r == x,
            const_of(old(self).nodes@, x) is Some ==> const_of(final(self).nodes@, r) is Some,
    {
        proof {
            reveal_with_fuel(cast_made, 1);
        }
        if self.width(x) == to {
            proof {
                lemma_fits(self.nodes@, x);
                assert forall|e: Env| #[trigger]
                    eval(self.nodes@, x, e) == eval(self.nodes@, x, e) & to.mask() by {
                    lemma_mask(eval(self.nodes@, x, e), to.mask());
                }
            }
            return x;
        }
        let inner = self.zext_within(x, to, REWRITE_DEPTH);
        let ghost mid = self.nodes@;
        let r = self.exact(inner, to);
        proof {
            assert forall|e: Env| #[trigger]
                eval(self.nodes@, r, e) == eval(self.nodes@, x, e) & to.mask() by {
                assert(eval(mid, inner, e) == eval(mid, x, e) & to.mask());
                assert(eval(self.nodes@, x, e) == eval(mid, x, e));
            }
        }
        r
    }

    /// Truncate `x` to `to`. A wider `to` zero-extends.
    pub fn trunc(&mut self, x: Ref, to: Width) -> (r: Ref)
        requires
            old(self).wf(),
            old(self).holds(x),
        ensures
            (final(self).nodes@, r) == cast_node(old(self).nodes@, x, to, old(self).trunc_depth as nat),
            final(self).grows(*old(self)),
            denotes_cast(final(self).nodes@, r, x, to),
            final(self).width(r) == to,
            old(self).width(x) == to ==> r == x,
            const_of(old(self).nodes@, x) is Some ==> const_of(final(self).nodes@, r) is Some,
    {
        proof {
            reveal_with_fuel(cast_made, 1);
        }
        if self.width(x) == to {
            proof {
                lemma_fits(self.nodes@, x);
                assert forall|e: Env| #[trigger]
                    eval(self.nodes@, x, e) == eval(self.nodes@, x, e) & to.mask() by {
                    lemma_mask(eval(self.nodes@, x, e), to.mask());
                }
            }
            return x;
        }
        let inner = self.trunc_within(x, to, REWRITE_DEPTH);
        let ghost mid = self.nodes@;
        let r = self.exact(inner, to);
        proof {
            assert forall|e: Env| #[trigger]
                eval(self.nodes@, r, e) == eval(self.nodes@, x, e) & to.mask() by {
                assert(eval(mid, inner, e) == eval(mid, x, e) & to.mask());
                assert(eval(self.nodes@, x, e) == eval(mid, x, e));
            }
        }
        r
    }

    /// Sign-extend `x` to `to`. A narrower `to` truncates.
    pub fn sext(&mut self, x: Ref, to: Width) -> (r: Ref)
        requires
            old(self).wf(),
            old(self).holds(x),
        ensures
            (final(self).nodes@, r) == sext_node(old(self).nodes@, x, to, old(self).trunc_depth as nat),
            final(self).grows(*old(self)),
            final(self).holds(r),
            final(self).width(r) == to,
            forall|e: Env| #[trigger]
                eval(final(self).nodes@, r, e) == sign_extend_spec(
                    eval(final(self).nodes@, x, e),
                    old(self).width(x),
                ) & to.mask(),
            const_of(old(self).nodes@, x) is Some ==> const_of(final(self).nodes@, r) is Some,
            old(self).width(x) == to ==> r == x,
            old(self).width(x).bits() < to.bits() && const_of(old(self).nodes@, x) is None
                ==> op_of(final(self).nodes@, r) == Op::Sext(x),
    {
        let ghost ns = self.nodes@;
        let ghost t = to.mask();
        let from = self.width(x);
        proof {
            lemma_fits(ns, x);
        }
        if to.bits() <= from.bits() {
            let r = if from == to {
                x
            } else {
                self.trunc(x, to)
            };
            proof {
                assert forall|e: Env| #[trigger]
                    eval(self.nodes@, r, e) == sign_extend_spec(eval(self.nodes@, x, e), from)
                        & t by {
                    assert(eval(self.nodes@, x, e) == eval(ns, x, e));
                    lemma_sign_extend_low(eval(ns, x, e), from, t);
                    lemma_mask(eval(ns, x, e), t);
                }
            }
            return r;
        }
        if let Some(c) = self.as_const(x) {
            return self.constant(sign_extend(c, from), to);
        }
        let r = self.intern(Node { op: Op::Sext(x), width: to });
        proof {
            assert forall|e: Env| #[trigger]
                eval(self.nodes@, r, e) == sign_extend_spec(eval(self.nodes@, x, e), from) & t by {}
        }
        r
    }

    /// Build `cond ? a : b`. A known condition or equal arms pick an arm.
    pub fn select(&mut self, cond: Ref, a: Ref, b: Ref) -> (r: Ref)
        requires
            old(self).wf(),
            old(self).holds(cond),
            old(self).holds(a),
            old(self).holds(b),
        ensures
            (final(self).nodes@, r) == select_made(old(self).nodes@, cond, a, b),
            final(self).grows(*old(self)),
            final(self).holds(r),
            match const_of(old(self).nodes@, cond) {
                Some(c) => r == (if c != 0 {
                    a
                } else {
                    b
                }),
                None => if a == b {
                    r == a
                } else {
                    op_of(final(self).nodes@, r) == Op::Select(cond, a, b) && final(self).width(r)
                        == old(self).width(a)
                },
            },
            old(self).width(b).bits() <= old(self).width(a).bits() ==> forall|e: Env| #[trigger]
                eval(final(self).nodes@, r, e) == (if eval(old(self).nodes@, cond, e) != 0 {
                    eval(old(self).nodes@, a, e)
                } else {
                    eval(old(self).nodes@, b, e)
                }),
    {
        let ghost ns = self.nodes@;
        if let Some(c) = self.as_const(cond) {
            return if c != 0 {
                a
            } else {
                b
            };
        }
        if a == b {
            return a;
        }
        let width = self.width(a);
        let r = self.intern(Node { op: Op::Select(cond, a, b), width });
        proof {
            lemma_fits(ns, b);
            if width_of(ns, b).bits() <= width_of(ns, a).bits() {
                assert forall|e: Env| #[trigger]
                    eval(self.nodes@, r, e) == (if eval(ns, cond, e) != 0 {
                        eval(ns, a, e)
                    } else {
                        eval(ns, b, e)
                    }) by {
                    assert(eval(self.nodes@, cond, e) == eval(ns, cond, e));
                    assert(eval(self.nodes@, a, e) == eval(ns, a, e));
                    assert(eval(self.nodes@, b, e) == eval(ns, b, e));
                    lemma_mask(eval(ns, b, e), width.mask());
                }
            }
        }
        r
    }
}

/// Operators that reduce when both operands are the same.
pub open spec fn collapses(op: BinOp) -> bool {
    match op {
        BinOp::And | BinOp::Or | BinOp::Xor | BinOp::Sub => true,
        BinOp::Ult | BinOp::Slt | BinOp::Eq => true,
        _ => false,
    }
}

/// `r` is what `a op a` reduces to.
pub open spec fn collapsed(ns: Seq<Node>, op: BinOp, a: Ref, r: Ref) -> bool {
    match op {
        BinOp::And | BinOp::Or => r == a,
        BinOp::Eq => const_of(ns, r) == Some(1u64),
        _ => const_of(ns, r) == Some(0u64),
    }
}

/// Whether an operator leaves its other operand as it is for a constant: adding or
/// subtracting nothing, shifting by nothing, multiplying by one.
pub open spec fn drops_out(op: BinOp, c: u64) -> bool {
    match op {
        BinOp::Add | BinOp::Sub => c == 0,
        BinOp::Shl | BinOp::Shr | BinOp::Sar | BinOp::Rol | BinOp::Ror => c == 0,
        BinOp::Mul => c == 1,
        _ => false,
    }
}

/// Two constant operands, where the operator is defined on them, give a constant.
pub open spec fn folds(
    ns: Seq<Node>,
    after: Seq<Node>,
    op: BinOp,
    a: Ref,
    b: Ref,
    r: Ref,
) -> bool {
    match const_of(ns, a) {
        Some(x) => match const_of(ns, b) {
            Some(y) => match bin_fold(op, x, y, width_of(ns, a).wider(width_of(ns, b))) {
                Some(v) => const_of(after, r) == Some(v),
                None => true,
            },
            None => true,
        },
        None => true,
    }
}

/// Shifting by nothing changes nothing.
proof fn lemma_shift_by_zero(op: BinOp, x: u64, w: Width)
    requires
        x <= w.mask(),
        op == BinOp::Shl || op == BinOp::Shr || op == BinOp::Sar || op == BinOp::Rol || op
            == BinOp::Ror,
    ensures
        bin_val(op, x, 0, w) == x,
{
    lemma_shift_count(0, w);
    lemma_mask(x, w.mask());
    let m = w.mask();
    assert(x << 0u64 == x && x >> 0u64 == x && (is_mask(m) && x <= m ==> !((!(x | !m)) >> 0u64) & m
        == x)) by (bit_vector);
}

} // verus!
