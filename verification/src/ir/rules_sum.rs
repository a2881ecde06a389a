//! Rewrite rules for addition and subtraction.

use crate::ir::bits::{lemma_bitwise, lemma_known_rules, lemma_nested_sum, lemma_sums};
use crate::ir::expr::{const_of, eval, lemma_fits, Arena, BinOp, Env, Ref, Width};
use crate::ir::fold::{lemma_mask, wrapping_difference, wrapping_sum};
use crate::ir::simplify::{bin_at, lemma_swap, made_of, same_pair};
use crate::ir::rules::{
    add_absorbed_rule, add_absorbed_side, add_by_factors_rule, add_disjoint_rule, add_nested_rule,
    add_of_parts_rule, add_or_remainder_rule, add_or_remainder_side, add_rule, add_trivial_rule,
    follows, group_built, masked_by, settled, sub_both_masked_rule, sub_cancel_rule,
    sub_const_rule, sub_masked_rule, sub_of_parts_rule, sub_rule, sub_trivial_rule,
    sub_twice_rule, sub_wrapped_rule, sub_wrapped_side,
};
use vstd::prelude::*;

verus! {

broadcast use group_built;

impl Arena {
    /// `x + 0 == x`, `x + (-x) == 0` and `x + ~x == -1`.
    fn add_trivial(&mut self, a: Ref, b: Ref, width: Width) -> (r: Option<Ref>)
    requires
        old(self).ready(a, b),
        width == old(self).width(a).wider(old(self).width(b)),
    ensures
            settled(old(self).nodes@, final(self).nodes@, r, add_trivial_rule(old(self).nodes@, a, b, width)),
        final(self).rewrote(*old(self), r, BinOp::Add, a, b),
        const_of(old(self).nodes@, b) == Some(0u64) ==> r == Some(a),
    {
        proof {
            reveal(add_trivial_rule);
        }
        let ghost ns = self.nodes@;
        let ghost m = width.mask();
        proof {
            lemma_fits(ns, a);
            lemma_fits(ns, b);
            lemma_mask(m, m);
        }
        if self.as_const(b) == Some(0) {
            proof {
                assert forall|e: Env| #[trigger]
                    eval(self.nodes@, a, e) == bin_at(self.nodes@, BinOp::Add, a, b, e) by {
                    lemma_sums(eval(ns, a, e), 0, m);
                }
            }
            return Some(a);
        }
        if let Some(inner) = self.as_neg(b) {
            if inner == a {
                let r = self.constant(0, width);
                proof {
                    assert forall|e: Env| #[trigger]
                        eval(self.nodes@, r, e) == bin_at(self.nodes@, BinOp::Add, a, b, e) by {
                        lemma_sums(eval(ns, a, e), 0, m);
                        lemma_bitwise(m, 0, 0);
                    }
                }
                return Some(r);
            }
        }
        if self.is_complement(a, b) {
            let r = self.constant(width.mask(), width);
            proof {
                assert forall|e: Env| #[trigger]
                    eval(self.nodes@, r, e) == bin_at(self.nodes@, BinOp::Add, a, b, e) by {
                    lemma_sums(eval(ns, a, e), 0, m);
                    assert(eval(ns, b, e) == eval(ns, b, e));
                }
            }
            return Some(r);
        }
        None
    }

    /// `A + B == A | B` when their set bits cannot overlap. With no bit live in both
    /// operands no carry can occur, so the sum is just the union.
    fn add_disjoint(&mut self, a: Ref, b: Ref, width: Width, fuel: u32) -> (r: Option<Ref>)
    requires
        old(self).ready(a, b),
        fuel > 0,
        width == old(self).width(a).wider(old(self).width(b)),
    ensures
            follows(
                (old(self).nodes@, old(self).trunc_depth),
                final(self).nodes@,
                r,
                add_disjoint_rule(old(self).nodes@, a, b, width),
                (fuel - 1) as nat,
            ),
        final(self).rewrote(*old(self), r, BinOp::Add, a, b),
    decreases fuel, 0int,
    {
        proof {
            reveal(add_disjoint_rule);
        }
        let ghost ns = self.nodes@;
        let ghost m = width.mask();
        let za: u64 = self.known_zero(a);
        let zb: u64 = self.known_zero(b);
        if (!za & !zb & width.mask()) == 0 {
            let r = self.bin_within(BinOp::Or, a, b, fuel - 1);
            proof {
                lemma_fits(ns, a);
                lemma_fits(ns, b);
            }
            proof {
                assert forall|e: Env| #[trigger]
                    eval(self.nodes@, r, e) == bin_at(self.nodes@, BinOp::Add, a, b, e) by {
                    lemma_bitwise(eval(ns, b, e), 0, 0);
                    lemma_known_rules(eval(ns, a, e), eval(ns, b, e), za, zb, 0, 0, m);
                    lemma_sums(eval(ns, a, e), eval(ns, b, e), m);
                }
            }
            return Some(r);
        }
        None
    }

    /// `(A|B) + (A&B) == A + B` and `(A^B) + (A&B) == A | B`.
    fn add_of_parts(&mut self, a: Ref, b: Ref, fuel: u32) -> (r: Option<Ref>)
    requires
        old(self).ready(a, b),
        fuel > 0,
    ensures
            follows(
                (old(self).nodes@, old(self).trunc_depth),
                final(self).nodes@,
                r,
                add_of_parts_rule(old(self).nodes@, a, b),
                (fuel - 1) as nat,
            ),
        final(self).rewrote(*old(self), r, BinOp::Add, a, b),
    decreases fuel, 0int,
    {
        proof {
            reveal(add_of_parts_rule);
        }
        let ghost ns = self.nodes@;
        if let (Some((o1, x1, y1)), Some((o2, x2, y2))) = (self.as_bin(a), self.as_bin(b)) {
            if same_pair(x1, y1, x2, y2) {
                let ghost m = self.width(x1).wider(self.width(y1)).mask();
                if (o1 == BinOp::Or && o2 == BinOp::And) || (o1 == BinOp::And && o2 == BinOp::Or) {
                    let r = self.bin_within(BinOp::Add, x1, y1, fuel - 1);
                    proof {
                        assert forall|e: Env| #[trigger]
                            eval(self.nodes@, r, e) == bin_at(self.nodes@, BinOp::Add, a, b, e) by {
                            lemma_sums(eval(ns, x1, e), eval(ns, y1, e), m);
                            lemma_bitwise(eval(ns, x1, e), eval(ns, y1, e), 0);
                        }
                    }
                    return Some(r);
                }
                if (o1 == BinOp::Xor && o2 == BinOp::And) || (o1 == BinOp::And && o2
                    == BinOp::Xor) {
                    let r = self.bin_within(BinOp::Or, x1, y1, fuel - 1);
                    proof {
                        assert forall|e: Env| #[trigger]
                            eval(self.nodes@, r, e) == bin_at(self.nodes@, BinOp::Add, a, b, e) by {
                            lemma_sums(eval(ns, x1, e), eval(ns, y1, e), m);
                            lemma_bitwise(eval(ns, x1, e), eval(ns, y1, e), 0);
                        }
                    }
                    return Some(r);
                }
            }
        }
        None
    }

    /// `((A|B)^A) + A == A | B`, with the exclusive or's arms given.
    fn add_or_remainder_of(&mut self, p: Ref, q: Ref, or_side: Ref, a_side: Ref) -> (r: Option<Ref>)
    requires
        old(self).ready(p, q),
        made_of(old(self).nodes@, p, BinOp::Xor, or_side, a_side),
        old(self).holds(or_side),
    ensures
            settled(old(self).nodes@, final(self).nodes@, r, add_or_remainder_side(old(self).nodes@, q, or_side, a_side)),
        final(self).rewrote(*old(self), r, BinOp::Add, p, q),
    {
        proof {
            reveal(add_or_remainder_side);
        }
        let ghost ns = self.nodes@;
        let ghost m = self.width(p).wider(self.width(q)).mask();
        if a_side == q {
            if let Some((u, v)) = self.halves(or_side, BinOp::Or) {
                if u == q {
                    proof {
                        assert forall|e: Env| #[trigger]
                            eval(self.nodes@, or_side, e) == bin_at(self.nodes@, BinOp::Add, p, q, e) by {
                            lemma_sums(eval(ns, u, e), eval(ns, v, e), m);
                        }
                    }
                    return Some(or_side);
                }
                if v == q {
                    proof {
                        assert forall|e: Env| #[trigger]
                            eval(self.nodes@, or_side, e) == bin_at(self.nodes@, BinOp::Add, p, q, e) by {
                            lemma_sums(eval(ns, v, e), eval(ns, u, e), m);
                        }
                    }
                    return Some(or_side);
                }
            }
        }
        None
    }

    fn add_or_remainder(&mut self, p: Ref, q: Ref) -> (r: Option<Ref>)
    requires
        old(self).ready(p, q),
    ensures
            settled(old(self).nodes@, final(self).nodes@, r, add_or_remainder_rule(old(self).nodes@, p, q)),
        final(self).rewrote(*old(self), r, BinOp::Add, p, q),
    {
        proof {
            reveal(add_or_remainder_rule);
        }
        if let Some((x, y)) = self.halves(p, BinOp::Xor) {
            let first = self.add_or_remainder_of(p, q, x, y);
            if first.is_some() {
                return first;
            }
            return self.add_or_remainder_of(p, q, y, x);
        }
        None
    }

    /// `(((A^B)|B) & A) + B == A + B`, with the conjunction's arms given.
    fn add_absorbed_of(&mut self, p: Ref, q: Ref, lhs: Ref, rhs: Ref, fuel: u32) -> (r: Option<Ref>)
    requires
        old(self).ready(p, q),
        fuel > 0,
        made_of(old(self).nodes@, p, BinOp::And, lhs, rhs),
        old(self).holds(lhs),
        old(self).holds(rhs),
    ensures
            follows(
                (old(self).nodes@, old(self).trunc_depth),
                final(self).nodes@,
                r,
                add_absorbed_side(old(self).nodes@, q, lhs, rhs),
                (fuel - 1) as nat,
            ),
        final(self).rewrote(*old(self), r, BinOp::Add, p, q),
    decreases fuel, 0int,
    {
        proof {
            reveal(add_absorbed_side);
        }
        let ghost ns = self.nodes@;
        let ghost m = self.width(p).wider(self.width(q)).mask();
        if let Some((u, v)) = self.halves(lhs, BinOp::Or) {
            let other = if u == q {
                Some(v)
            } else if v == q {
                Some(u)
            } else {
                None
            };
            if let Some(xor) = other {
                if let Some((s, t)) = self.halves(xor, BinOp::Xor) {
                    if same_pair(s, t, rhs, q) {
                        let r = self.bin_within(BinOp::Add, rhs, q, fuel - 1);
                        proof {
                            assert forall|e: Env| #[trigger]
                                eval(self.nodes@, r, e) == bin_at(self.nodes@, BinOp::Add, p, q, e) by {
                                lemma_sums(eval(ns, rhs, e), eval(ns, q, e), m);
                                lemma_bitwise(eval(ns, rhs, e), eval(ns, q, e), 0);
                                lemma_bitwise(eval(ns, xor, e), eval(ns, q, e), 0);
                                assert(eval(ns, lhs, e) == (eval(ns, rhs, e) ^ eval(ns, q, e)) | eval(ns, q, e));
                            }
                        }
                        return Some(r);
                    }
                }
            }
        }
        None
    }

    fn add_absorbed(&mut self, p: Ref, q: Ref, fuel: u32) -> (r: Option<Ref>)
    requires
        old(self).ready(p, q),
        fuel > 0,
    ensures
            follows(
                (old(self).nodes@, old(self).trunc_depth),
                final(self).nodes@,
                r,
                add_absorbed_rule(old(self).nodes@, p, q),
                (fuel - 1) as nat,
            ),
        final(self).rewrote(*old(self), r, BinOp::Add, p, q),
    decreases fuel, 1int,
    {
        proof {
            reveal(add_absorbed_rule);
        }
        if let Some((x, y)) = self.halves(p, BinOp::And) {
            let first = self.add_absorbed_of(p, q, x, y, fuel);
            if first.is_some() {
                return first;
            }
            return self.add_absorbed_of(p, q, y, x, fuel);
        }
        None
    }

    /// Complementary masks share no live bit, so no carry can cross between the addends
    /// and the sum is their union.
    fn add_by_factors(&mut self, a: Ref, b: Ref, fuel: u32) -> (r: Option<Ref>)
    requires
        old(self).ready(a, b),
        fuel > 0,
    ensures
            follows(
                (old(self).nodes@, old(self).trunc_depth),
                final(self).nodes@,
                r,
                add_by_factors_rule(old(self).nodes@, a, b),
                (fuel - 1) as nat,
            ),
        final(self).rewrote(*old(self), r, BinOp::Add, a, b),
    decreases fuel, 0int,
    {
        proof {
            reveal(add_by_factors_rule);
        }
        let ghost ns = self.nodes@;
        let ghost m = self.width(a).wider(self.width(b)).mask();
        if self.disjoint_by_factors(a, b) {
            let r = self.bin_within(BinOp::Or, a, b, fuel - 1);
            proof {
                lemma_fits(ns, a);
                lemma_fits(ns, b);
            }
            proof {
                assert forall|e: Env| #[trigger]
                    eval(self.nodes@, r, e) == bin_at(self.nodes@, BinOp::Add, a, b, e) by {
                    lemma_sums(eval(ns, a, e), eval(ns, b, e), m);
                }
            }
            return Some(r);
        }
        None
    }

    /// `(x + c1) + c2 == x + (c1+c2)`, when the inner sum wraps where the outer does.
    fn add_nested(&mut self, a: Ref, b: Ref, width: Width, fuel: u32) -> (r: Option<Ref>)
    requires
        old(self).ready(a, b),
        fuel > 0,
        width == old(self).width(a).wider(old(self).width(b)),
    ensures
            follows(
                (old(self).nodes@, old(self).trunc_depth),
                final(self).nodes@,
                r,
                add_nested_rule(old(self).nodes@, a, b, width),
                (fuel - 1) as nat,
            ),
        final(self).rewrote(*old(self), r, BinOp::Add, a, b),
    decreases fuel, 0int,
    {
        proof {
            reveal(add_nested_rule);
        }
        let ghost ns = self.nodes@;
        let ghost m = width.mask();
        if let (Some(c2), Some((BinOp::Add, x, y))) = (self.as_const(b), self.as_bin(a)) {
            if let Some(c1) = self.as_const(y) {
                if self.width(a) == width {
                    let k = self.constant(wrapping_sum(c1, c2), width);
                    let r = self.bin_within(BinOp::Add, x, k, fuel - 1);
                    proof {
                        assert forall|e: Env| #[trigger]
                            eval(self.nodes@, r, e) == bin_at(self.nodes@, BinOp::Add, a, b, e) by {
                            lemma_nested_sum(eval(ns, x, e), c1, c2, m);
                        }
                    }
                    return Some(r);
                }
            }
        }
        None
    }

    /// All rules for `a + b`.
    pub(crate) fn simplify_add(&mut self, a: Ref, b: Ref, width: Width, fuel: u32) -> (r: Option<Ref>)
    requires
        old(self).ready(a, b),
        fuel > 0,
        width == old(self).width(a).wider(old(self).width(b)),
    ensures
            follows(
                (old(self).nodes@, old(self).trunc_depth),
                final(self).nodes@,
                r,
                add_rule(old(self).nodes@, a, b, width),
                (fuel - 1) as nat,
            ),
        final(self).rewrote(*old(self), r, BinOp::Add, a, b),
        const_of(old(self).nodes@, b) == Some(0u64) ==> r == Some(a),
    decreases fuel, 2int,
    {
        proof {
            reveal(add_rule);
        }
        let r = self.add_trivial(a, b, width);
        if r.is_some() {
            return r;
        }
        let r = self.add_disjoint(a, b, width, fuel);
        if r.is_some() {
            return r;
        }
        let r = self.add_of_parts(a, b, fuel);
        if r.is_some() {
            return r;
        }
        let r = self.add_or_remainder(a, b);
        if r.is_some() {
            return r;
        }
        if let Some(r) = self.add_or_remainder(b, a) {
            proof {
                lemma_swap(self.nodes@, r, BinOp::Add, a, b);
            }
            return Some(r);
        }
        let r = self.add_absorbed(a, b, fuel);
        if r.is_some() {
            return r;
        }
        if let Some(r) = self.add_absorbed(b, a, fuel) {
            proof {
                lemma_swap(self.nodes@, r, BinOp::Add, a, b);
            }
            return Some(r);
        }
        let r = self.add_by_factors(a, b, fuel);
        if r.is_some() {
            return r;
        }
        self.add_nested(a, b, width, fuel)
    }

    /// `x - 0 == x` and `x - x == 0`.
    fn sub_trivial(&mut self, a: Ref, b: Ref, width: Width) -> (r: Option<Ref>)
    requires
        old(self).ready(a, b),
        width == old(self).width(a).wider(old(self).width(b)),
    ensures
            settled(old(self).nodes@, final(self).nodes@, r, sub_trivial_rule(old(self).nodes@, a, b, width)),
        final(self).rewrote(*old(self), r, BinOp::Sub, a, b),
        const_of(old(self).nodes@, b) == Some(0u64) ==> r == Some(a),
    {
        proof {
            reveal(sub_trivial_rule);
        }
        let ghost ns = self.nodes@;
        let ghost m = width.mask();
        proof {
            lemma_fits(ns, a);
        }
        if self.as_const(b) == Some(0) {
            proof {
                assert forall|e: Env| #[trigger]
                    eval(self.nodes@, a, e) == bin_at(self.nodes@, BinOp::Sub, a, b, e) by {
                    lemma_sums(eval(ns, a, e), 0, m);
                }
            }
            return Some(a);
        }
        if a == b {
            let r = self.constant(0, width);
            proof {
                assert forall|e: Env| #[trigger]
                    eval(self.nodes@, r, e) == bin_at(self.nodes@, BinOp::Sub, a, b, e) by {
                    lemma_sums(eval(ns, a, e), 0, m);
                    lemma_bitwise(m, 0, 0);
                }
            }
            return Some(r);
        }
        None
    }

    /// `(A|B) - (A&B) == A ^ B`.
    fn sub_of_parts(&mut self, a: Ref, b: Ref, fuel: u32) -> (r: Option<Ref>)
    requires
        old(self).ready(a, b),
        fuel > 0,
    ensures
            follows(
                (old(self).nodes@, old(self).trunc_depth),
                final(self).nodes@,
                r,
                sub_of_parts_rule(old(self).nodes@, a, b),
                (fuel - 1) as nat,
            ),
        final(self).rewrote(*old(self), r, BinOp::Sub, a, b),
    decreases fuel, 0int,
    {
        proof {
            reveal(sub_of_parts_rule);
        }
        let ghost ns = self.nodes@;
        if let (Some((x1, y1)), Some((x2, y2))) = (
            self.halves(a, BinOp::Or),
            self.halves(b, BinOp::And),
        ) {
            if same_pair(x1, y1, x2, y2) {
                let ghost m = self.width(x1).wider(self.width(y1)).mask();
                let r = self.bin_within(BinOp::Xor, x1, y1, fuel - 1);
                proof {
                    assert forall|e: Env| #[trigger]
                        eval(self.nodes@, r, e) == bin_at(self.nodes@, BinOp::Sub, a, b, e) by {
                        lemma_sums(eval(ns, x1, e), eval(ns, y1, e), m);
                        lemma_bitwise(eval(ns, x1, e), eval(ns, y1, e), 0);
                    }
                }
                return Some(r);
            }
        }
        None
    }

    /// `(a + x) - a == x` and `(x + a) - a == x`.
    fn sub_cancel(&mut self, a: Ref, b: Ref) -> (r: Option<Ref>)
    requires
        old(self).ready(a, b),
    ensures
            settled(old(self).nodes@, final(self).nodes@, r, sub_cancel_rule(old(self).nodes@, a, b)),
        final(self).rewrote(*old(self), r, BinOp::Sub, a, b),
    {
        proof {
            reveal(sub_cancel_rule);
        }
        let ghost ns = self.nodes@;
        let ghost m = self.width(a).mask();
        if let Some((x, y)) = self.halves(a, BinOp::Add) {
            if x == b {
                proof {
                    assert forall|e: Env| #[trigger]
                        eval(self.nodes@, y, e) == bin_at(self.nodes@, BinOp::Sub, a, b, e) by {
                        lemma_sums(eval(ns, x, e), eval(ns, y, e), m);
                    }
                }
                return Some(y);
            }
            if y == b {
                proof {
                    assert forall|e: Env| #[trigger]
                        eval(self.nodes@, x, e) == bin_at(self.nodes@, BinOp::Sub, a, b, e) by {
                        lemma_sums(eval(ns, x, e), eval(ns, y, e), m);
                    }
                }
                return Some(x);
            }
        }
        None
    }

    /// `A - (A & B) == A & ~B`: `A & B` has no bit set that `A` does not, so the
    /// subtraction never borrows and is the same as clearing those bits. The complement
    /// has to reach as far as `A` does.
    fn sub_masked(&mut self, a: Ref, b: Ref, same: Ref, other: Ref, fuel: u32) -> (r: Option<Ref>)
    requires
        old(self).ready(a, b),
        fuel > 0,
        made_of(old(self).nodes@, b, BinOp::And, same, other),
        old(self).holds(other),
    ensures
            follows(
                (old(self).nodes@, old(self).trunc_depth),
                final(self).nodes@,
                r,
                sub_masked_rule(old(self).nodes@, a, same, other),
                (fuel - 1) as nat,
            ),
        final(self).rewrote(*old(self), r, BinOp::Sub, a, b),
    decreases fuel, 0int,
    {
        proof {
            reveal(sub_masked_rule);
        }
        let ghost ns = self.nodes@;
        if same == a && self.width(other).bits() >= self.width(a).bits() {
            let ghost m = self.width(other).mask();
            let n = self.not_within(other, fuel - 1);
            let r = self.bin_within(BinOp::And, a, n, fuel - 1);
            proof {
                assert forall|e: Env| #[trigger]
                    eval(self.nodes@, r, e) == bin_at(self.nodes@, BinOp::Sub, a, b, e) by {
                    lemma_sums(eval(ns, a, e), eval(ns, other, e), m);
                }
            }
            return Some(r);
        }
        None
    }

    /// `A - (A - (A&B)) == A & B`.
    fn sub_twice(&mut self, a: Ref, b: Ref) -> (r: Option<Ref>)
    requires
        old(self).ready(a, b),
    ensures
            settled(old(self).nodes@, final(self).nodes@, r, sub_twice_rule(old(self).nodes@, a, b)),
        final(self).rewrote(*old(self), r, BinOp::Sub, a, b),
    {
        proof {
            reveal(sub_twice_rule);
        }
        let ghost ns = self.nodes@;
        if let Some((BinOp::Sub, x, y)) = self.as_bin(b) {
            if x == a {
                if let Some((u, v)) = self.halves(y, BinOp::And) {
                    if u == a || v == a {
                        let ghost m = self.width(y).mask();
                        proof {
                            assert forall|e: Env| #[trigger]
                                eval(self.nodes@, y, e) == bin_at(self.nodes@, BinOp::Sub, a, b, e) by {
                                lemma_sums(eval(ns, a, e), eval(ns, y, e), m);
                            }
                        }
                        return Some(y);
                    }
                }
            }
        }
        None
    }

    /// `B - (((A&B)&B) ^ B) == A & B`, with the exclusive or's arms given.
    fn sub_wrapped_of(&mut self, a: Ref, b: Ref, inner: Ref, whole: Ref) -> (r: Option<Ref>)
    requires
        old(self).ready(a, b),
        made_of(old(self).nodes@, b, BinOp::Xor, inner, whole),
        old(self).holds(inner),
    ensures
            settled(old(self).nodes@, final(self).nodes@, r, sub_wrapped_side(old(self).nodes@, a, inner, whole)),
        final(self).rewrote(*old(self), r, BinOp::Sub, a, b),
    {
        proof {
            reveal(sub_wrapped_side);
            reveal(masked_by);
        }
        let ghost ns = self.nodes@;
        let ghost m = self.width(a).wider(self.width(b)).mask();
        if whole == a {
            if let Some((u, v)) = self.halves(inner, BinOp::And) {
                if v == a {
                    if let Some((s, t)) = self.halves(u, BinOp::And) {
                        if s == a || t == a {
                            proof {
                                assert forall|e: Env| #[trigger]
                                    eval(self.nodes@, u, e) == bin_at(self.nodes@, BinOp::Sub, a, b, e) by {
                                    lemma_sums(eval(ns, a, e), eval(ns, u, e), m);
                                    lemma_bitwise(eval(ns, s, e), eval(ns, t, e), 0);
                                    lemma_bitwise(eval(ns, a, e), eval(ns, u, e), 0);
                                    lemma_bitwise(eval(ns, t, e), eval(ns, s, e), 0);
                                }
                            }
                            return Some(u);
                        }
                    }
                }
                if u == a {
                    if let Some((s, t)) = self.halves(v, BinOp::And) {
                        if s == a || t == a {
                            proof {
                                assert forall|e: Env| #[trigger]
                                    eval(self.nodes@, v, e) == bin_at(self.nodes@, BinOp::Sub, a, b, e) by {
                                    lemma_sums(eval(ns, a, e), eval(ns, v, e), m);
                                    lemma_bitwise(eval(ns, s, e), eval(ns, t, e), 0);
                                    lemma_bitwise(eval(ns, a, e), eval(ns, v, e), 0);
                                    lemma_bitwise(eval(ns, t, e), eval(ns, s, e), 0);
                                }
                            }
                            return Some(v);
                        }
                    }
                }
            }
        }
        None
    }

    fn sub_wrapped(&mut self, a: Ref, b: Ref) -> (r: Option<Ref>)
    requires
        old(self).ready(a, b),
    ensures
            settled(old(self).nodes@, final(self).nodes@, r, sub_wrapped_rule(old(self).nodes@, a, b)),
        final(self).rewrote(*old(self), r, BinOp::Sub, a, b),
    {
        proof {
            reveal(sub_wrapped_rule);
        }
        if let Some((x, y)) = self.halves(b, BinOp::Xor) {
            let first = self.sub_wrapped_of(a, b, x, y);
            if first.is_some() {
                return first;
            }
            return self.sub_wrapped_of(a, b, y, x);
        }
        None
    }

    /// All rules for `a - b`.
    pub(crate) fn simplify_sub(&mut self, a: Ref, b: Ref, width: Width, fuel: u32) -> (r: Option<Ref>)
    requires
        old(self).ready(a, b),
        fuel > 0,
        width == old(self).width(a).wider(old(self).width(b)),
    ensures
            follows(
                (old(self).nodes@, old(self).trunc_depth),
                final(self).nodes@,
                r,
                sub_rule(old(self).nodes@, a, b, width),
                (fuel - 1) as nat,
            ),
        final(self).rewrote(*old(self), r, BinOp::Sub, a, b),
        const_of(old(self).nodes@, b) == Some(0u64) ==> r == Some(a),
    decreases fuel, 2int,
    {
        proof {
            reveal(sub_rule);
            reveal(sub_both_masked_rule);
            reveal(sub_const_rule);
        }
        let r = self.sub_trivial(a, b, width);
        if r.is_some() {
            return r;
        }
        let r = self.sub_of_parts(a, b, fuel);
        if r.is_some() {
            return r;
        }
        let r = self.sub_cancel(a, b);
        if r.is_some() {
            return r;
        }
        if let Some((u, v)) = self.halves(b, BinOp::And) {
            let r = self.sub_masked(a, b, u, v, fuel);
            if r.is_some() {
                return r;
            }
            let r = self.sub_masked(a, b, v, u, fuel);
            if r.is_some() {
                return r;
            }
        }
        let r = self.sub_twice(a, b);
        if r.is_some() {
            return r;
        }
        let r = self.sub_wrapped(a, b);
        if r.is_some() {
            return r;
        }
        // x - c == x + (-c), normalises constants into sums.
        if let Some(c) = self.as_const(b) {
            let ghost ns = self.nodes@;
            let ghost m = width.mask();
            let k = self.constant(wrapping_difference(0, c), width);
            let r = self.bin_within(BinOp::Add, a, k, fuel - 1);
            proof {
                lemma_fits(ns, a);
                lemma_fits(ns, b);
            }
            proof {
                assert forall|e: Env| #[trigger]
                    eval(self.nodes@, r, e) == bin_at(self.nodes@, BinOp::Sub, a, b, e) by {
                    lemma_sums(eval(ns, a, e), eval(ns, b, e), m);
                }
            }
            return Some(r);
        }
        None
    }
}

} // verus!
