//! Rewrite rules for conjunction, and the extraction of single bits.

use crate::ir::bits::{
    lemma_bit, lemma_bitwise, lemma_complement, lemma_flip_back, lemma_known_rules,
};
use crate::ir::expr::{
    eval, has, lemma_fits, nodes_ok, ok_at, op_of, width_of, Arena, BinOp, Env, Node, Op, Ref,
    Width,
};
use crate::ir::fold::{lemma_mask, shift_count};
use crate::ir::simplify::{bin_at, lemma_swap, made_of};
use crate::ir::rules::{
    and_absorb_rule, and_against_rule, and_bit_rule, and_drop_arm_rule, and_drop_terms_rule,
    and_flip_back_rule, and_known_one_rule, and_known_ones_rule, and_known_rule, and_nested_rule,
    and_or_not_rule, and_or_not_side, and_rule, and_trivial_rule, and_xor_rule, and_xor_side,
    any_of, bit_term, built, cast_made, fitted, follows, group_built, live_terms, or_terms,
    settled,
};
use vstd::prelude::*;

verus! {

broadcast use group_built;


/// Disjunction of the values of a list of nodes.
pub open spec fn or_all(ns: Seq<Node>, s: Seq<Ref>, e: Env) -> u64
    decreases s.len(),
{
    if s.len() == 0 {
        0
    } else {
        or_all(ns, s.drop_last(), e) | eval(ns, s.last(), e)
    }
}

proof fn lemma_or_all_concat(ns: Seq<Node>, s: Seq<Ref>, t: Seq<Ref>, e: Env)
    ensures
        or_all(ns, s + t, e) == or_all(ns, s, e) | or_all(ns, t, e),
    decreases t.len(),
{
    if t.len() == 0 {
        assert(s + t =~= s);
        lemma_bitwise(or_all(ns, s, e), 0, 0);
    } else {
        lemma_or_all_concat(ns, s, t.drop_last(), e);
        assert((s + t).drop_last() =~= s + t.drop_last());
        lemma_bitwise(or_all(ns, s, e), or_all(ns, t.drop_last(), e), eval(ns, t.last(), e));
    }
}

/// A tree of disjunctions is the disjunction of its leaves, none of which is wider.
proof fn lemma_or_terms(ns: Seq<Node>, r: Ref, depth: nat, e: Env)
    requires
        nodes_ok(ns),
        has(ns, r),
    ensures
        or_all(ns, or_terms(ns, r, depth), e) == eval(ns, r, e),
        forall|i: int|
            0 <= i < or_terms(ns, r, depth).len() ==> has(ns, #[trigger] or_terms(ns, r, depth)[i])
                && width_of(ns, or_terms(ns, r, depth)[i]).bits() <= width_of(ns, r).bits(),
    decreases depth,
{
    assert(ok_at(ns, r.idx as int));
    let t = or_terms(ns, r, depth);
    lemma_bitwise(eval(ns, r, e), 0, 0);
    lemma_bitwise(0, eval(ns, r, e), 0);
    assert(or_all(ns, Seq::<Ref>::empty(), e) == 0);
    if depth > 0 {
        if let Op::Bin(BinOp::Or, x, y) = op_of(ns, r) {
            lemma_or_terms(ns, x, (depth - 1) as nat, e);
            lemma_or_terms(ns, y, (depth - 1) as nat, e);
            lemma_or_all_concat(
                ns,
                or_terms(ns, x, (depth - 1) as nat),
                or_terms(ns, y, (depth - 1) as nat),
                e,
            );
        } else {
            assert(t.drop_last() =~= Seq::<Ref>::empty());
            assert(or_all(ns, t, e) == or_all(ns, t.drop_last(), e) | eval(ns, t.last(), e));
        }
    } else {
        assert(t.drop_last() =~= Seq::<Ref>::empty());
        assert(or_all(ns, t, e) == or_all(ns, t.drop_last(), e) | eval(ns, t.last(), e));
    }
}

/// What is clear in all of `zero` is clear in any part of it.
proof fn lemma_covered(v: u64, zero: u64, part: u64)
    requires
        v & zero == 0,
        zero & part == part,
    ensures
        v & part == 0,
{
    lemma_bitwise(v, zero, part);
    lemma_bitwise(part, zero, v);
    lemma_bitwise(v, part, 0);
}

impl Arena {
    /// The leaves of a tree of disjunctions, in left-to-right order.
    pub fn collect_or_terms(&self, r: Ref, depth: u32, out: &mut Vec<Ref>)
        requires
            self.wf(),
            self.holds(r),
        ensures
            final(out)@ == old(out)@ + or_terms(self.nodes@, r, depth as nat),
        decreases depth,
    {
        if depth > 0 {
            if let Some((BinOp::Or, x, y)) = self.as_bin(r) {
                self.collect_or_terms(x, depth - 1, out);
                self.collect_or_terms(y, depth - 1, out);
                proof {
                    assert(out@ =~= old(out)@ + or_terms(self.nodes@, r, depth as nat));
                }
                return;
            }
        }
        out.push(r);
        proof {
            assert(out@ =~= old(out)@ + or_terms(self.nodes@, r, depth as nat));
        }
    }

    /// Bit `k` of `r` as a 0-or-1 value, where it can be named without new operators.
    pub fn bit_at(&mut self, r: Ref, k: u64) -> (b: Option<Ref>)
        requires
            old(self).wf(),
            old(self).holds(r),
        ensures
            settled(old(self).nodes@, final(self).nodes@, b, bit_term(old(self).nodes@, r, k)),
            final(self).grows(*old(self)),
            b matches Some(x) ==> final(self).holds(x) && k < 64 && forall|e: Env| #[trigger]
                eval(final(self).nodes@, x, e) == (eval(old(self).nodes@, r, e) >> k) & 1,
        decreases r.idx,
    {
        proof {
            assert(ok_at(self.nodes@, r.idx as int));
        }
        if k >= 64 {
            return None;
        }
        let ghost ns = self.nodes@;
        proof {
            assert(ok_at(ns, r.idx as int));
            lemma_fits(ns, r);
            lemma_mask(0, 0xffff_ffff_ffff_ffff);
            lemma_mask(1, 0xffff_ffff_ffff_ffff);
        }
        let bit: u64 = 1u64 << k;
        let m: u64 = self.width(r).mask();
        // A term cannot contribute if the bit is known zero in it.
        let zero: u64 = self.known_zero(r);
        if zero & bit == bit {
            let x = self.constant(0, Width::W64);
            proof {
                assert forall|e: Env| #[trigger]
                    eval(self.nodes@, x, e) == (eval(ns, r, e) >> k) & 1 by {
                    let v = eval(ns, r, e);
                    lemma_covered(v, zero, bit);
                    lemma_bit(v, 0, k, 0, m, m);
                }
            }
            return Some(x);
        }
        if let Some(c) = self.as_const(r) {
            let x = self.constant((c >> k) & 1, Width::W64);
            proof {
                lemma_bit(c, 0, k, 0, m, m);
                lemma_mask((c >> k) & 1, 0xffff_ffff_ffff_ffff);
            }
            return Some(x);
        }
        // Already a 0-or-1 value: it is its own bit 0. Tested before the structural
        // cases because those recurse towards the leaf, and a masked value like
        // `af_undef & 1` is the bit even though the opaque underneath it is not.
        if k == 0 && zero & !1u64 == !1u64 {
            proof {
                assert forall|e: Env| #[trigger]
                    eval(self.nodes@, r, e) == (eval(ns, r, e) >> k) & 1 by {
                    let v = eval(ns, r, e);
                    lemma_covered(v, zero, !1u64);
                    lemma_bit(v, 0, k, 0, m, m);
                }
            }
            return Some(r);
        }
        proof {
            lemma_bit_below(k, self.width(r));
            lemma_outside_known(ns, r, zero, bit, m);
        }
        match *self.op(r) {
            // Split an OR: the bit comes from whichever side can supply it. If both
            // could, the value is not a clean bit composition and is left alone.
            Op::Bin(BinOp::Or, x, y) => {
                let zx: u64 = self.known_zero(x);
                let zy: u64 = self.known_zero(y);
                let from_x: bool = zx & bit != bit;
                let from_y: bool = zy & bit != bit;
                if from_x && !from_y {
                    let b = self.bit_at(x, k);
                    proof {
                        assert forall|e: Env| b is Some implies #[trigger] eval(
                            self.nodes@,
                            b->0,
                            e,
                        ) == (eval(ns, r, e) >> k) & 1 by {
                            let (u, v) = (eval(ns, x, e), eval(ns, y, e));
                            lemma_covered(v, zy, bit);
                            lemma_bit(u, v, k, 0, m, m);
                        }
                    }
                    b
                } else if from_y && !from_x {
                    let b = self.bit_at(y, k);
                    proof {
                        assert forall|e: Env| b is Some implies #[trigger] eval(
                            self.nodes@,
                            b->0,
                            e,
                        ) == (eval(ns, r, e) >> k) & 1 by {
                            let (u, v) = (eval(ns, x, e), eval(ns, y, e));
                            lemma_covered(u, zx, bit);
                            lemma_bit(u, v, k, 0, m, m);
                        }
                    }
                    b
                } else {
                    None
                }
            },
            // `v << s` puts v's bit `k - s` at position k.
            Op::Bin(BinOp::Shl, v, sh) => {
                let count: u64 = match self.as_const(sh) {
                    Some(c) => c,
                    None => return None,
                };
                let s: u64 = shift_count(count, self.width(r));
                if s > k {
                    return None;
                }
                let b = self.bit_at(v, k - s);
                proof {
                    assert forall|e: Env| b is Some implies #[trigger] eval(self.nodes@, b->0, e)
                        == (eval(ns, r, e) >> k) & 1 by {
                        assert(eval(ns, sh, e) == count);
                        lemma_bit(eval(ns, v, e), 0, k, s, m, m);
                        lemma_bit_below(k, width_of(ns, r));
                    }
                }
                b
            },
            Op::Bin(BinOp::Shr, v, sh) => {
                let count: u64 = match self.as_const(sh) {
                    Some(c) => c,
                    None => return None,
                };
                let s: u64 = shift_count(count, self.width(r));
                if s >= self.width(r).bits() as u64 {
                    return None;
                }
                let b = self.bit_at(v, k + s);
                proof {
                    assert forall|e: Env| b is Some implies #[trigger] eval(self.nodes@, b->0, e)
                        == (eval(ns, r, e) >> k) & 1 by {
                        assert(eval(ns, sh, e) == count);
                        lemma_bit(eval(ns, v, e), 0, k, s, m, m);
                    }
                }
                b
            },
            // Masking with a constant that keeps the bit is transparent to it.
            Op::Bin(BinOp::And, x, y) => {
                let c: u64 = match self.as_const(y) {
                    Some(c) => c,
                    None => return None,
                };
                if c & bit == 0 {
                    let z = self.constant(0, Width::W64);
                    proof {
                        assert forall|e: Env| #[trigger]
                            eval(self.nodes@, z, e) == (eval(ns, r, e) >> k) & 1 by {
                            assert(eval(ns, y, e) == c);
                            lemma_bit(eval(ns, x, e), c, k, 0, m, m);
                        }
                    }
                    return Some(z);
                }
                let b = self.bit_at(x, k);
                proof {
                    assert forall|e: Env| b is Some implies #[trigger] eval(self.nodes@, b->0, e)
                        == (eval(ns, r, e) >> k) & 1 by {
                        assert(eval(ns, y, e) == c);
                        lemma_bit(eval(ns, x, e), c, k, 0, m, m);
                    }
                }
                b
            },
            // Zero-extend and truncate preserve every bit they keep, and the guard
            // above already rejected bits that fall outside the narrower width.
            Op::Zext(v) => self.bit_at(v, k),
            Op::Trunc(v) => {
                let b = self.bit_at(v, k);
                proof {
                    assert forall|e: Env| b is Some implies #[trigger] eval(self.nodes@, b->0, e)
                        == (eval(ns, r, e) >> k) & 1 by {
                        lemma_bit(eval(ns, v, e), 0, k, 0, m, m);
                    }
                }
                b
            },
            _ => None,
        }
    }

    /// `(x >> k) & 1` where the bit can be named. The machine's flags are packed into
    /// one word and unpacked again around every guest transition, so this pattern
    /// appears for every flag on every such boundary.
    fn and_bit(&mut self, a: Ref, b: Ref, width: Width, fuel: u32) -> (r: Option<Ref>)
    requires
        old(self).ready(a, b),
        fuel > 0,
        width == old(self).width(a).wider(old(self).width(b)),
    ensures
            follows(
                (old(self).nodes@, old(self).trunc_depth),
                final(self).nodes@,
                r,
                and_bit_rule(old(self).nodes@, a, b, width),
                (fuel - 1) as nat,
            ),
        final(self).rewrote(*old(self), r, BinOp::And, a, b),
    decreases fuel, 1int,
    {
        proof {
            reveal(and_bit_rule);
            reveal(fitted);
        }
        let ghost ns = self.nodes@;
        if self.as_const(b) != Some(1) {
            return None;
        }
        if let Some((BinOp::Shr, x, sh)) = self.as_bin(a) {
            if let Some(count) = self.as_const(sh) {
                let k: u64 = shift_count(count, self.width(a));
                if k < self.width(a).bits() as u64 {
                    if let Some(bit) = self.bit_at(x, k) {
                        let ghost mid = self.nodes@;
                        let r = self.narrowed_bit(bit, width, fuel);
                        proof {
                            assert forall|e: Env| #[trigger]
                                eval(self.nodes@, r, e) == bin_at(self.nodes@, BinOp::And, a, b, e) by {
                                assert(eval(ns, sh, e) == count);
                                lemma_bit(eval(ns, x, e), 0, k, 0, 0xff, 0xff);
                                assert(eval(mid, bit, e) == (eval(ns, x, e) >> k) & 1);
                            }
                        }
                        return Some(r);
                    }
                }
            }
        }
        // Bit 0 with no shift.
        if let Some(bit) = self.bit_at(a, 0) {
            let ghost mid = self.nodes@;
            let r = self.narrowed_bit(bit, width, fuel);
            proof {
                assert forall|e: Env| #[trigger]
                    eval(self.nodes@, r, e) == bin_at(self.nodes@, BinOp::And, a, b, e) by {
                    lemma_bit(eval(ns, a, e), 0, 0, 0, 0xff, 0xff);
                    assert(eval(mid, bit, e) == (eval(ns, a, e) >> 0u64) & 1);
                }
            }
            return Some(r);
        }
        None
    }

    /// A 0-or-1 value in no more bits than `width`.
    fn narrowed_bit(&mut self, bit: Ref, width: Width, fuel: u32) -> (r: Ref)
        requires
            old(self).wf(),
            old(self).holds(bit),
            fuel > 0,
        ensures
            (final(self).nodes@, r) == (if old(self).width(bit).bits() > width.bits() {
                cast_made(old(self).nodes@, bit, width, (fuel - 1) as nat, old(self).trunc_depth as nat)
            } else {
                (old(self).nodes@, bit)
            }),
            final(self).grows(*old(self)),
            final(self).holds(r),
            final(self).width(r).bits() <= width.bits(),
            forall|e: Env|
                eval(old(self).nodes@, bit, e) <= 1 ==> #[trigger] eval(final(self).nodes@, r, e)
                    == eval(old(self).nodes@, bit, e),
        decreases fuel, 0int,
    {
        if self.width(bit).bits() > width.bits() {
            let ghost ns = self.nodes@;
            let r = self.trunc_within(bit, width, fuel - 1);
            proof {
                assert forall|e: Env| eval(ns, bit, e) <= 1 implies #[trigger] eval(
                    self.nodes@,
                    r,
                    e,
                ) == eval(ns, bit, e) by {
                    lemma_mask(eval(ns, bit, e), width.mask());
                }
            }
            r
        } else {
            bit
        }
    }

    /// Masks that keep nothing or everything.
    fn and_trivial(&mut self, a: Ref, b: Ref, width: Width) -> (r: Option<Ref>)
    requires
        old(self).ready(a, b),
        width == old(self).width(a).wider(old(self).width(b)),
    ensures
            settled(old(self).nodes@, final(self).nodes@, r, and_trivial_rule(old(self).nodes@, a, b, width)),
        final(self).rewrote(*old(self), r, BinOp::And, a, b),
    {
        proof {
            reveal(and_trivial_rule);
        }
        let ghost ns = self.nodes@;
        let ghost m = width.mask();
        let cb = self.as_const(b);
        if cb == Some(0) {
            let r = self.constant(0, width);
            proof {
                assert forall|e: Env| #[trigger]
                    eval(self.nodes@, r, e) == bin_at(self.nodes@, BinOp::And, a, b, e) by {
                    lemma_bitwise(eval(ns, a, e), 0, 0);
                    lemma_mask(0, m);
                }
            }
            return Some(r);
        }
        if cb == Some(width.mask()) {
            proof {
                lemma_fits(ns, a);
            }
            proof {
                assert forall|e: Env| #[trigger]
                    eval(self.nodes@, a, e) == bin_at(self.nodes@, BinOp::And, a, b, e) by {
                    lemma_complement(eval(ns, a, e), 0, m);
                }
            }
            return Some(a);
        }
        None
    }

    /// A mask that is all-ones wherever the other side has a bit is a no-op.
    fn and_known_one(&mut self, p: Ref, q: Ref, width: Width) -> (r: Option<Ref>)
    requires
        old(self).ready(p, q),
        width == old(self).width(p).wider(old(self).width(q)),
    ensures
            settled(old(self).nodes@, final(self).nodes@, r, and_known_one_rule(old(self).nodes@, p, q, width)),
        final(self).rewrote(*old(self), r, BinOp::And, p, q),
    {
        proof {
            reveal(and_known_one_rule);
        }
        let ghost ns = self.nodes@;
        let ghost m = width.mask();
        let one: u64 = self.known_one(p);
        let zero: u64 = self.known_zero(q);
        if (one | zero) & width.mask() == width.mask() {
            proof {
                lemma_fits(ns, q);
            }
            proof {
                assert forall|e: Env| #[trigger]
                    eval(self.nodes@, q, e) == bin_at(self.nodes@, BinOp::And, p, q, e) by {
                    lemma_bitwise(eval(ns, p, e), 0, 0);
                    lemma_known_rules(eval(ns, q, e), eval(ns, p, e), zero, 0, one, 0, m);
                }
            }
            return Some(q);
        }
        None
    }

    /// Masking a bit-composition: drop the parts that cannot reach the mask.
    fn and_drop_arm(&mut self, a: Ref, b: Ref, c: u64, fuel: u32) -> (r: Option<Ref>)
    requires
        old(self).ready(a, b),
        fuel > 0,
        crate::ir::expr::const_of(old(self).nodes@, b) == Some(c),
    ensures
            follows(
                (old(self).nodes@, old(self).trunc_depth),
                final(self).nodes@,
                r,
                and_drop_arm_rule(old(self).nodes@, a, b, c),
                (fuel - 1) as nat,
            ),
        final(self).rewrote(*old(self), r, BinOp::And, a, b),
    decreases fuel, 0int,
    {
        proof {
            reveal(and_drop_arm_rule);
        }
        let ghost ns = self.nodes@;
        proof {
            assert(self.wf());
        }
        let cb = self.as_const(b);
        if let Some((x, y)) = self.halves(a, BinOp::Or) {
            let zx: u64 = self.known_zero(x);
            let zy: u64 = self.known_zero(y);
            let x_dead: bool = zx & c == c;
            let y_dead: bool = zy & c == c;
            let ghost full = 0xffff_ffff_ffff_ffffu64;
            if x_dead && !y_dead {
                let r = self.bin_within(BinOp::And, y, b, fuel - 1);
                proof {
                    assert forall|e: Env| #[trigger]
                        eval(self.nodes@, r, e) == bin_at(self.nodes@, BinOp::And, a, b, e) by {
                        assert(eval(ns, b, e) == c);
                        lemma_bitwise(eval(ns, y, e), 0, 0);
                        lemma_known_rules(eval(ns, x, e), eval(ns, y, e), zx, 0, 0, c, full);
                        lemma_bitwise(eval(ns, x, e), eval(ns, y, e), c);
                    }
                }
                return Some(r);
            }
            if y_dead && !x_dead {
                let r = self.bin_within(BinOp::And, x, b, fuel - 1);
                proof {
                    assert forall|e: Env| #[trigger]
                        eval(self.nodes@, r, e) == bin_at(self.nodes@, BinOp::And, a, b, e) by {
                        assert(eval(ns, b, e) == c);
                        lemma_bitwise(eval(ns, x, e), 0, 0);
                        lemma_known_rules(eval(ns, y, e), eval(ns, x, e), zy, 0, 0, c, full);
                        lemma_bitwise(eval(ns, y, e), eval(ns, x, e), c);
                        lemma_bitwise(eval(ns, x, e), eval(ns, y, e), c);
                    }
                }
                return Some(r);
            }
        }
        None
    }

    /// The same, when the pack is a nested chain and the dead parts sit further down it.
    fn and_drop_terms(&mut self, a: Ref, b: Ref, c: u64, width: Width, fuel: u32) -> (r: Option<Ref>)
    requires
        old(self).ready(a, b),
        fuel > 0,
        width == old(self).width(a).wider(old(self).width(b)),
        crate::ir::expr::const_of(old(self).nodes@, b) == Some(c),
    ensures
            follows(
                (old(self).nodes@, old(self).trunc_depth),
                final(self).nodes@,
                r,
                and_drop_terms_rule(old(self).nodes@, a, b, c, width),
                (fuel - 1) as nat,
            ),
        final(self).rewrote(*old(self), r, BinOp::And, a, b),
    decreases fuel, 0int,
    {
        proof {
            reveal(and_drop_terms_rule);
        }
        let ghost ns = self.nodes@;
        let cb = self.as_const(b);
        if self.halves(a, BinOp::Or).is_none() {
            return None;
        }
        let mut terms: Vec<Ref> = Vec::new();
        self.collect_or_terms(a, 32, &mut terms);
        proof {
            let any = crate::ir::expr::some_env();
            lemma_or_terms(ns, a, 32, any);
            assert(terms@ =~= or_terms(ns, a, 32));
        }
        let mut live: Vec<Ref> = Vec::new();
        let mut any_dead: bool = false;
        let mut i: usize = 0;
        let ghost wa = width_of(ns, a).bits();
        while i < terms.len()
            invariant
                self.grows(*old(self)),
                self.nodes@ == ns,
                ns == old(self).nodes@,
                i <= terms@.len(),
                forall|j: int|
                    0 <= j < terms@.len() ==> has(ns, #[trigger] terms@[j]) && width_of(
                        ns,
                        terms@[j],
                    ).bits() <= wa,
                forall|j: int|
                    0 <= j < live@.len() ==> has(ns, #[trigger] live@[j]) && width_of(
                        ns,
                        live@[j],
                    ).bits() <= wa,
                forall|e: Env|
                    #![trigger or_all(ns, live@, e)]
                    or_all(ns, terms@.take(i as int), e) & c == or_all(ns, live@, e) & c,
                live@ == live_terms(ns, terms@, c, i as int),
                live@.len() <= i,
                any_dead == (live@.len() < i),
            decreases terms@.len() - i,
        {
            let t = terms[i];
            let z: u64 = self.known_zero(t);
            let dead: bool = z & c == c;
            let ghost kept = live@;
            if dead {
                any_dead = true;
            } else {
                live.push(t);
            }
            proof {
                assert(terms@.take(i + 1).drop_last() =~= terms@.take(i as int));
                assert(!dead ==> live@.drop_last() =~= kept);
                assert forall|e: Env|
                    #![trigger or_all(ns, live@, e)]
                    or_all(ns, terms@.take(i + 1), e) & c == or_all(ns, live@, e) & c by {
                    let (all, part, v) = (
                        or_all(ns, terms@.take(i as int), e),
                        or_all(ns, kept, e),
                        eval(ns, t, e),
                    );
                    assert(all & c == part & c);
                    lemma_bitwise(all, v, c);
                    lemma_bitwise(part, v, c);
                    lemma_bitwise(all & c, 0, 0);
                    if dead {
                        lemma_covered(v, z, c);
                    }
                }
            }
            i = i + 1;
        }
        if !any_dead {
            return None;
        }
        proof {
            assert(terms@.take(i as int) =~= or_terms(ns, a, 32));
            assert forall|e: Env|
                #![trigger or_all(ns, live@, e)]
                eval(ns, a, e) & c == or_all(ns, live@, e) & c by {
                lemma_or_terms(ns, a, 32, e);
            }
        }
        if live.len() == 0 {
            // Every leaf was dead, so nothing reaches the mask.
            let r = self.constant(0, width);
            proof {
                assert forall|e: Env| #[trigger]
                    eval(self.nodes@, r, e) == bin_at(self.nodes@, BinOp::And, a, b, e) by {
                    assert(eval(ns, b, e) == c);
                    assert(or_all(ns, live@, e) == 0);
                    lemma_bitwise(c, 0, 0);
                    lemma_bitwise(0, c, 0);
                    lemma_mask(0, width.mask());
                }
            }
            return Some(r);
        }
        let mut acc = live[0];
        let mut j: usize = 1;
        proof {
            assert forall|e: Env| #[trigger]
                eval(self.nodes@, acc, e) == or_all(ns, live@.take(1), e) by {
                assert(live@.take(1).drop_last() =~= Seq::<Ref>::empty());
                assert(or_all(ns, live@.take(1).drop_last(), e) == 0);
                lemma_bitwise(0, eval(ns, live@[0], e), 0);
                lemma_bitwise(eval(ns, live@[0], e), 0, 0);
            }
        }
        while j < live.len()
            invariant
                self.grows(*old(self)),
                ns == old(self).nodes@,
                1 <= j <= live@.len(),
                fuel > 0,
                self.holds(acc),
                self.width(acc).bits() <= wa,
                forall|k: int|
                    0 <= k < live@.len() ==> has(ns, #[trigger] live@[k]) && width_of(
                        ns,
                        live@[k],
                    ).bits() <= wa,
                forall|e: Env| #[trigger]
                    eval(self.nodes@, acc, e) == or_all(ns, live@.take(j as int), e),
                (self.nodes@, acc) == built(
                    ns,
                    any_of(live@, j as int),
                    (fuel - 1) as nat,
                    old(self).trunc_depth as nat,
                ),
            decreases live@.len() - j,
        {
            let t = live[j];
            let ghost before = self.nodes@;
            let ghost prev = acc;
            acc = self.bin_within(BinOp::Or, acc, t, fuel - 1);
            proof {
                assert(live@.take(j + 1).drop_last() =~= live@.take(j as int));
                assert forall|e: Env| #[trigger]
                    eval(self.nodes@, acc, e) == or_all(ns, live@.take(j + 1), e) by {
                    assert(eval(before, prev, e) == or_all(ns, live@.take(j as int), e));
                    assert(eval(self.nodes@, t, e) == eval(ns, t, e));
                    assert(eval(self.nodes@, prev, e) == eval(before, prev, e));
                }
            }
            j = j + 1;
        }
        proof {
            assert(live@.take(j as int) =~= live@);
        }
        let ghost mid = self.nodes@;
        let r = self.bin_within(BinOp::And, acc, b, fuel - 1);
        proof {
            assert forall|e: Env| #[trigger]
                eval(self.nodes@, r, e) == bin_at(self.nodes@, BinOp::And, a, b, e) by {
                assert(eval(ns, b, e) == c);
                assert(eval(self.nodes@, b, e) == eval(ns, b, e));
                assert(eval(self.nodes@, acc, e) == eval(mid, acc, e));
                assert(eval(mid, acc, e) == or_all(ns, live@, e));
                assert(eval(self.nodes@, a, e) == eval(ns, a, e));
            }
        }
        Some(r)
    }

    /// `~(x ^ c1) & c2 == x & c2` when every bit of c2 is set in c1. Flipping a bit and
    /// then complementing flips it back, so for the bits the mask selects the pair
    /// cancels.
    fn and_flip_back(&mut self, a: Ref, b: Ref, c2: u64, fuel: u32) -> (r: Option<Ref>)
    requires
        old(self).ready(a, b),
        fuel > 0,
        crate::ir::expr::const_of(old(self).nodes@, b) == Some(c2),
    ensures
            follows(
                (old(self).nodes@, old(self).trunc_depth),
                final(self).nodes@,
                r,
                and_flip_back_rule(old(self).nodes@, a, b, c2),
                (fuel - 1) as nat,
            ),
        final(self).rewrote(*old(self), r, BinOp::And, a, b),
    decreases fuel, 0int,
    {
        proof {
            reveal(and_flip_back_rule);
        }
        let ghost ns = self.nodes@;
        let cb = self.as_const(b);
        if let Some(inner) = self.as_not(a) {
            if let Some((BinOp::Xor, x, k)) = self.as_bin(inner) {
                if let Some(c1) = self.as_const(k) {
                    if c2 & c1 == c2 {
                        let ghost m = self.width(inner).mask();
                        let r = self.bin_within(BinOp::And, x, b, fuel - 1);
                        proof {
                            assert forall|e: Env| #[trigger]
                                eval(self.nodes@, r, e) == bin_at(self.nodes@, BinOp::And, a, b, e) by {
                                assert(eval(ns, b, e) == c2);
                                assert(eval(ns, k, e) == c1);
                                lemma_flip_back(eval(ns, x, e), c1, c2, m);
                                assert(eval(ns, inner, e) == eval(ns, x, e) ^ eval(ns, k, e));
                            }
                        }
                        return Some(r);
                    }
                }
            }
        }
        None
    }

    /// `(A|B) & A == A` and `(A&B) & A == A&B`.
    fn and_absorb(&mut self, p: Ref, q: Ref) -> (r: Option<Ref>)
    requires
        old(self).ready(p, q),
    ensures
            settled(old(self).nodes@, final(self).nodes@, r, and_absorb_rule(old(self).nodes@, p, q)),
        final(self).rewrote(*old(self), r, BinOp::And, p, q),
    {
        proof {
            reveal(and_absorb_rule);
        }
        let ghost ns = self.nodes@;
        if let Some((x, y)) = self.halves(p, BinOp::Or) {
            if x == q || y == q {
                proof {
                    assert forall|e: Env| #[trigger]
                        eval(self.nodes@, q, e) == bin_at(self.nodes@, BinOp::And, p, q, e) by {
                        lemma_bitwise(eval(ns, x, e), eval(ns, y, e), 0);
                        lemma_bitwise(eval(ns, y, e), eval(ns, x, e), 0);
                    }
                }
                return Some(q);
            }
        }
        if let Some((x, y)) = self.halves(p, BinOp::And) {
            if x == q || y == q {
                proof {
                    assert forall|e: Env| #[trigger]
                        eval(self.nodes@, p, e) == bin_at(self.nodes@, BinOp::And, p, q, e) by {
                        lemma_bitwise(eval(ns, x, e), eval(ns, y, e), 0);
                        lemma_bitwise(eval(ns, y, e), eval(ns, x, e), 0);
                    }
                }
                return Some(p);
            }
        }
        None
    }

    /// `A & (A ^ B) == A & ~B`. Where A is clear both sides are clear; where A is set
    /// the XOR yields `~B`. The complement has to reach as far as `A` does.
    fn and_xor_of(&mut self, p: Ref, q: Ref, same: Ref, other: Ref, fuel: u32) -> (r: Option<Ref>)
    requires
        old(self).ready(p, q),
        fuel > 0,
        made_of(old(self).nodes@, q, BinOp::Xor, same, other),
        old(self).holds(other),
    ensures
            follows(
                (old(self).nodes@, old(self).trunc_depth),
                final(self).nodes@,
                r,
                and_xor_side(old(self).nodes@, p, same, other),
                (fuel - 1) as nat,
            ),
        final(self).rewrote(*old(self), r, BinOp::And, p, q),
    decreases fuel, 0int,
    {
        proof {
            reveal(and_xor_side);
        }
        let ghost ns = self.nodes@;
        if same == p && self.width(other).bits() >= self.width(p).bits() {
            let ghost m = self.width(other).mask();
            let n = self.not_within(other, fuel - 1);
            let r = self.bin_within(BinOp::And, p, n, fuel - 1);
            proof {
                assert forall|e: Env| #[trigger]
                    eval(self.nodes@, r, e) == bin_at(self.nodes@, BinOp::And, p, q, e) by {
                    lemma_complement(eval(ns, p, e), eval(ns, other, e), m);
                }
            }
            return Some(r);
        }
        None
    }

    fn and_xor(&mut self, p: Ref, q: Ref, fuel: u32) -> (r: Option<Ref>)
    requires
        old(self).ready(p, q),
        fuel > 0,
    ensures
            follows(
                (old(self).nodes@, old(self).trunc_depth),
                final(self).nodes@,
                r,
                and_xor_rule(old(self).nodes@, p, q),
                (fuel - 1) as nat,
            ),
        final(self).rewrote(*old(self), r, BinOp::And, p, q),
    decreases fuel, 1int,
    {
        proof {
            reveal(and_xor_rule);
        }
        if let Some((x, y)) = self.halves(q, BinOp::Xor) {
            let first = self.and_xor_of(p, q, x, y, fuel);
            if first.is_some() {
                return first;
            }
            return self.and_xor_of(p, q, y, x, fuel);
        }
        None
    }

    /// `A & (~A | B) == A & B`. Where A is clear the result is clear either way; where A
    /// is set the `~A` arm contributes nothing, so only B decides.
    fn and_or_not_of(&mut self, p: Ref, q: Ref, neg: Ref, other: Ref, fuel: u32) -> (r: Option<Ref>)
    requires
        old(self).ready(p, q),
        fuel > 0,
        made_of(old(self).nodes@, q, BinOp::Or, neg, other),
        old(self).holds(neg),
        old(self).holds(other),
    ensures
            follows(
                (old(self).nodes@, old(self).trunc_depth),
                final(self).nodes@,
                r,
                and_or_not_side(old(self).nodes@, p, neg, other),
                (fuel - 1) as nat,
            ),
        final(self).rewrote(*old(self), r, BinOp::And, p, q),
    decreases fuel, 0int,
    {
        proof {
            reveal(and_or_not_side);
        }
        let ghost ns = self.nodes@;
        if self.is_complement(neg, p) {
            let ghost m = self.width(p).mask();
            let r = self.bin_within(BinOp::And, p, other, fuel - 1);
            proof {
                assert forall|e: Env| #[trigger]
                    eval(self.nodes@, r, e) == bin_at(self.nodes@, BinOp::And, p, q, e) by {
                    lemma_complement(eval(ns, p, e), eval(ns, other, e), m);
                    assert(eval(ns, neg, e) == !eval(ns, p, e) & m);
                }
            }
            return Some(r);
        }
        None
    }

    fn and_or_not(&mut self, p: Ref, q: Ref, fuel: u32) -> (r: Option<Ref>)
    requires
        old(self).ready(p, q),
        fuel > 0,
    ensures
            follows(
                (old(self).nodes@, old(self).trunc_depth),
                final(self).nodes@,
                r,
                and_or_not_rule(old(self).nodes@, p, q),
                (fuel - 1) as nat,
            ),
        final(self).rewrote(*old(self), r, BinOp::And, p, q),
    decreases fuel, 1int,
    {
        proof {
            reveal(and_or_not_rule);
        }
        if let Some((x, y)) = self.halves(q, BinOp::Or) {
            let first = self.and_or_not_of(p, q, x, y, fuel);
            if first.is_some() {
                return first;
            }
            return self.and_or_not_of(p, q, y, x, fuel);
        }
        None
    }

    /// `(x & c1) & c2 == x & (c1&c2)`.
    fn and_nested(&mut self, a: Ref, b: Ref, c2: u64, width: Width, fuel: u32) -> (r: Option<Ref>)
    requires
        old(self).ready(a, b),
        fuel > 0,
        width == old(self).width(a).wider(old(self).width(b)),
        crate::ir::expr::const_of(old(self).nodes@, b) == Some(c2),
    ensures
            follows(
                (old(self).nodes@, old(self).trunc_depth),
                final(self).nodes@,
                r,
                and_nested_rule(old(self).nodes@, a, c2, width),
                (fuel - 1) as nat,
            ),
        final(self).rewrote(*old(self), r, BinOp::And, a, b),
    decreases fuel, 0int,
    {
        proof {
            reveal(and_nested_rule);
        }
        let ghost ns = self.nodes@;
        let cb = self.as_const(b);
        if let Some((BinOp::And, x, y)) = self.as_bin(a) {
            if let Some(c1) = self.as_const(y) {
                let ghost m = width.mask();
                let k = self.constant(c1 & c2, width);
                let r = self.bin_within(BinOp::And, x, k, fuel - 1);
                proof {
                    crate::ir::fold::lemma_bitwise_fit(c1, c2, m);
                    lemma_mask(c1 & c2, m);
                }
                proof {
                    assert forall|e: Env| #[trigger]
                        eval(self.nodes@, r, e) == bin_at(self.nodes@, BinOp::And, a, b, e) by {
                        assert(eval(ns, b, e) == c2);
                        assert(eval(ns, y, e) == c1);
                        lemma_bitwise(eval(ns, x, e), c1, c2);
                    }
                }
                return Some(r);
            }
        }
        None
    }

    /// Rules on known bits against a constant mask.
    fn and_known(&mut self, a: Ref, b: Ref, c: u64, width: Width, fuel: u32) -> (r: Option<Ref>)
    requires
        old(self).ready(a, b),
        fuel > 0,
        width == old(self).width(a).wider(old(self).width(b)),
        crate::ir::expr::const_of(old(self).nodes@, b) == Some(c),
    ensures
            follows(
                (old(self).nodes@, old(self).trunc_depth),
                final(self).nodes@,
                r,
                and_known_rule(old(self).nodes@, a, c, width),
                (fuel - 1) as nat,
            ),
        final(self).rewrote(*old(self), r, BinOp::And, a, b),
    decreases fuel, 0int,
    {
        proof {
            reveal(and_known_rule);
        }
        let ghost ns = self.nodes@;
        let ghost m = width.mask();
        let cb = self.as_const(b);
        let ka: u64 = self.known_zero(a);
        proof {
            lemma_fits(ns, a);
            lemma_mask(c, m);
            lemma_mask(0, m);
        }
        // Every bit the mask keeps is known zero: the result is 0.
        if ka & c == c {
            let r = self.constant(0, width);
            proof {
                assert forall|e: Env| #[trigger]
                    eval(self.nodes@, r, e) == bin_at(self.nodes@, BinOp::And, a, b, e) by {
                    assert(eval(ns, b, e) == c);
                    lemma_bitwise(0, 0, 0);
                    lemma_known_rules(eval(ns, a, e), 0, ka, 0, 0, c, m);
                }
            }
            return Some(r);
        }
        // The mask keeps every bit that could be set: it is a no-op.
        if (!ka & width.mask()) & !c == 0 {
            proof {
                assert forall|e: Env| #[trigger]
                    eval(self.nodes@, a, e) == bin_at(self.nodes@, BinOp::And, a, b, e) by {
                    assert(eval(ns, b, e) == c);
                    lemma_bitwise(0, 0, 0);
                    lemma_known_rules(eval(ns, a, e), 0, ka, 0, 0, c, m);
                }
            }
            return Some(a);
        }
        // Every bit the mask keeps is known *set*: the result is the mask.
        let oa: u64 = self.known_one(a);
        if oa & c == c {
            let r = self.constant(c, width);
            proof {
                assert forall|e: Env| #[trigger]
                    eval(self.nodes@, r, e) == bin_at(self.nodes@, BinOp::And, a, b, e) by {
                    assert(eval(ns, b, e) == c);
                    lemma_known_rules(eval(ns, a, e), eval(ns, a, e), ka, ka, oa, c, m);
                }
            }
            return Some(r);
        }
        // (X | Y) & c where one side contributes nothing under c.
        if let Some((x, y)) = self.halves(a, BinOp::Or) {
            let zx: u64 = self.known_zero(x);
            let ghost full = 0xffff_ffff_ffff_ffffu64;
            if zx & c == c {
                let k = self.constant(c, width);
                let r = self.bin_within(BinOp::And, y, k, fuel - 1);
                proof {
                    assert forall|e: Env| #[trigger]
                        eval(self.nodes@, r, e) == bin_at(self.nodes@, BinOp::And, a, b, e) by {
                        assert(eval(ns, b, e) == c);
                        lemma_bitwise(eval(ns, y, e), 0, 0);
                        lemma_known_rules(eval(ns, x, e), eval(ns, y, e), zx, 0, 0, c, full);
                        lemma_bitwise(eval(ns, x, e), eval(ns, y, e), c);
                    }
                }
                return Some(r);
            }
            let zy: u64 = self.known_zero(y);
            if zy & c == c {
                let k = self.constant(c, width);
                let r = self.bin_within(BinOp::And, x, k, fuel - 1);
                proof {
                    assert forall|e: Env| #[trigger]
                        eval(self.nodes@, r, e) == bin_at(self.nodes@, BinOp::And, a, b, e) by {
                        assert(eval(ns, b, e) == c);
                        lemma_bitwise(eval(ns, x, e), 0, 0);
                        lemma_known_rules(eval(ns, y, e), eval(ns, x, e), zy, 0, 0, c, full);
                        lemma_bitwise(eval(ns, y, e), eval(ns, x, e), c);
                        lemma_bitwise(eval(ns, x, e), eval(ns, y, e), c);
                    }
                }
                return Some(r);
            }
        }
        None
    }

    /// Rules for `a & b` that look at one operand against the other.
    fn and_against(&mut self, a: Ref, b: Ref, width: Width, fuel: u32) -> (r: Option<Ref>)
    requires
        old(self).ready(a, b),
        fuel > 0,
        width == old(self).width(a).wider(old(self).width(b)),
    ensures
            follows(
                (old(self).nodes@, old(self).trunc_depth),
                final(self).nodes@,
                r,
                and_against_rule(old(self).nodes@, a, b, width),
                (fuel - 1) as nat,
            ),
        final(self).rewrote(*old(self), r, BinOp::And, a, b),
    decreases fuel, 2int,
    {
        proof {
            reveal(and_against_rule);
        }
        let ghost ns = self.nodes@;
        if self.is_complement(a, b) {
            let ghost m = self.width(a).mask();
            let r = self.constant(0, width);
            proof {
                assert forall|e: Env| #[trigger]
                    eval(self.nodes@, r, e) == bin_at(self.nodes@, BinOp::And, a, b, e) by {
                    lemma_complement(eval(ns, a, e), 0, m);
                    assert(eval(ns, b, e) == !eval(ns, a, e) & m);
                    lemma_mask(0, width.mask());
                }
            }
            return Some(r);
        }
        if let Some(c) = self.as_const(b) {
            let r = self.and_flip_back(a, b, c, fuel);
            if r.is_some() {
                return r;
            }
        }
        let r = self.and_absorb(a, b);
        if r.is_some() {
            return r;
        }
        if let Some(r) = self.and_absorb(b, a) {
            proof {
                lemma_swap(self.nodes@, r, BinOp::And, a, b);
            }
            return Some(r);
        }
        let r = self.and_xor(a, b, fuel);
        if r.is_some() {
            return r;
        }
        if let Some(r) = self.and_xor(b, a, fuel) {
            proof {
                lemma_swap(self.nodes@, r, BinOp::And, a, b);
            }
            return Some(r);
        }
        let r = self.and_or_not(a, b, fuel);
        if r.is_some() {
            return r;
        }
        if let Some(r) = self.and_or_not(b, a, fuel) {
            proof {
                lemma_swap(self.nodes@, r, BinOp::And, a, b);
            }
            return Some(r);
        }
        None
    }

    /// All rules for `a & b`.
    pub(crate) fn simplify_and(&mut self, a: Ref, b: Ref, width: Width, fuel: u32) -> (r: Option<Ref>)
    requires
        old(self).ready(a, b),
        fuel > 0,
        width == old(self).width(a).wider(old(self).width(b)),
    ensures
            follows(
                (old(self).nodes@, old(self).trunc_depth),
                final(self).nodes@,
                r,
                and_rule(old(self).nodes@, a, b, width),
                (fuel - 1) as nat,
            ),
        final(self).rewrote(*old(self), r, BinOp::And, a, b),
    decreases fuel, 3int,
    {
        proof {
            reveal(and_rule);
            reveal(and_known_ones_rule);
        }
        let ghost ns = self.nodes@;
        if a == b {
            proof {
                assert forall|e: Env| #[trigger]
                    eval(self.nodes@, a, e) == bin_at(self.nodes@, BinOp::And, a, b, e) by {
                    lemma_bitwise(eval(ns, a, e), 0, 0);
                }
            }
            return Some(a);
        }
        let r = self.and_bit(a, b, width, fuel);
        if r.is_some() {
            return r;
        }
        let r = self.and_trivial(a, b, width);
        if r.is_some() {
            return r;
        }
        let cb = self.as_const(b);
        if cb.is_none() && !self.is_const(a) {
            let r = self.and_known_one(a, b, width);
            if r.is_some() {
                return r;
            }
            if let Some(r) = self.and_known_one(b, a, width) {
                proof {
                    lemma_swap(self.nodes@, r, BinOp::And, a, b);
                }
                return Some(r);
            }
        }
        if let Some(c) = cb {
            let r = self.and_drop_arm(a, b, c, fuel);
            if r.is_some() {
                return r;
            }
            let r = self.and_drop_terms(a, b, c, width, fuel);
            if r.is_some() {
                return r;
            }
        }
        let r = self.and_against(a, b, width, fuel);
        if r.is_some() {
            return r;
        }
        if let Some(c) = cb {
            let r = self.and_nested(a, b, c, width, fuel);
            if r.is_some() {
                return r;
            }
            return self.and_known(a, b, c, width, fuel);
        }
        None
    }
}

/// A bit that is not known zero lies inside the width.
proof fn lemma_outside_known(ns: Seq<Node>, r: Ref, zero: u64, bit: u64, m: u64)
    requires
        nodes_ok(ns),
        has(ns, r),
        zero == crate::ir::expr::known_zero_bits(ns, r),
        m == width_of(ns, r).mask(),
    ensures
        !m & bit == bit ==> zero & bit == bit,
{
    assert(ok_at(ns, r.idx as int));
    assert(forall|k: u64| (k | !m) & !m == !m && (!m & bit == bit ==> #[trigger] (k | !m) & bit == bit)) by (bit_vector);
}

/// Bits below the width are inside its mask.
proof fn lemma_bit_below(k: u64, w: Width)
    requires
        k < 64,
    ensures
        k < w.bits() ==> (1u64 << k) <= w.mask(),
        k >= w.bits() ==> !w.mask() & (1u64 << k) == (1u64 << k),
{
    assert(k < 64 ==> ((k < 8 ==> (1u64 << k) <= 0xff) && (k < 16 ==> (1u64 << k) <= 0xffff) && (k
        < 32 ==> (1u64 << k) <= 0xffff_ffff) && (1u64 << k) <= 0xffff_ffff_ffff_ffff && (k >= 8
        ==> !0xffu64 & (1u64 << k) == (1u64 << k)) && (k >= 16 ==> !0xffffu64 & (1u64 << k) == (1u64
        << k)) && (k >= 32 ==> !0xffff_ffffu64 & (1u64 << k) == (1u64 << k)))) by (bit_vector);
}

} // verus!
