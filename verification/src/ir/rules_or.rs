//! Rewrite rules for disjunction and exclusive or, and conjunction factors.

use crate::ir::bits::{lemma_bitwise, lemma_complement, lemma_known_rules};
use crate::ir::expr::{
    const_of, eval, has, lemma_fits, ok_at, op_of, width_of, Arena, BinOp, Env, Node, Op, Ref,
    UnOp, Width,
};
use crate::ir::fold::{lemma_bitwise_fit, lemma_mask};
use crate::ir::simplify::{bin_at, lemma_swap, made_of, same_pair};
use crate::ir::rules::{
    factors, factors_clash, follows, found, group_built, has_factors, only_other_from,
    opposite, or_absorb_rule, or_and_not_rule, or_and_not_side, or_buried_rule, or_buried_side,
    or_factors_rule, or_known_rule, or_nested_rule, or_restored_rule, or_restored_side, or_rule,
    or_shared_rule, or_shared_side, or_structural_rule, or_trivial_rule, or_xor_rule, settled,
    shared_from, shares, xor_and_rule, xor_and_side, xor_cancel_rule, xor_nested_rule,
    xor_of_parts_rule, xor_of_union_rule, xor_or_rule, xor_or_side, xor_rule, xor_shared_rule,
    xor_shared_side, xor_structural_rule, xor_trivial_rule,
};
use vstd::prelude::*;

verus! {

broadcast use group_built;

/// The value of `r`, or of its complement.
pub open spec fn factor_target(ns: Seq<Node>, r: Ref, negated: bool, e: Env) -> u64 {
    if negated {
        !eval(ns, r, e) & width_of(ns, r).mask()
    } else {
        eval(ns, r, e)
    }
}

/// Conjunction of the values of a list of nodes.
pub open spec fn and_all(ns: Seq<Node>, s: Seq<Ref>, e: Env) -> u64
    decreases s.len(),
{
    if s.len() == 0 {
        0xffff_ffff_ffff_ffff
    } else {
        and_all(ns, s.drop_last(), e) & eval(ns, s.last(), e)
    }
}

proof fn lemma_and_all_concat(ns: Seq<Node>, s: Seq<Ref>, t: Seq<Ref>, e: Env)
    ensures
        and_all(ns, s + t, e) == and_all(ns, s, e) & and_all(ns, t, e),
    decreases t.len(),
{
    if t.len() == 0 {
        assert(s + t =~= s);
        lemma_complement(and_all(ns, s, e), 0, 0xffff_ffff_ffff_ffff);
    } else {
        lemma_and_all_concat(ns, s, t.drop_last(), e);
        assert((s + t).drop_last() =~= s + t.drop_last());
        lemma_bitwise(and_all(ns, s, e), and_all(ns, t.drop_last(), e), eval(ns, t.last(), e));
    }
}

proof fn lemma_and_all_one(ns: Seq<Node>, f: Ref, e: Env)
    ensures
        and_all(ns, seq![f], e) == eval(ns, f, e),
{
    let s = seq![f];
    assert(s.drop_last() =~= Seq::<Ref>::empty());
    assert(and_all(ns, s, e) == and_all(ns, s.drop_last(), e) & eval(ns, s.last(), e));
    assert(and_all(ns, Seq::<Ref>::empty(), e) == 0xffff_ffff_ffff_ffff);
    lemma_complement(eval(ns, f, e), 0, 0xffff_ffff_ffff_ffff);
    lemma_bitwise(0xffff_ffff_ffff_ffff, eval(ns, f, e), 0);
}

/// Every factor in `s` covers the target, and if `exact` they are no more than it.
pub open spec fn factors_of(
    ns: Seq<Node>,
    s: Seq<Ref>,
    r: Ref,
    negated: bool,
    exact: bool,
) -> bool {
    &&& forall|i: int|
        #![trigger s[i]]
        0 <= i < s.len() ==> has(ns, s[i]) && forall|e: Env|
            #![trigger eval(ns, s[i], e)]
            factor_target(ns, r, negated, e) & eval(ns, s[i], e) == factor_target(ns, r, negated, e)
    &&& exact ==> forall|e: Env|
        #![trigger and_all(ns, s, e)]
        and_all(ns, s, e) == factor_target(ns, r, negated, e)
}

proof fn lemma_single_factor(ns: Seq<Node>, f: Ref, r: Ref, negated: bool)
    requires
        has(ns, f),
        forall|e: Env| #[trigger] eval(ns, f, e) == factor_target(ns, r, negated, e),
    ensures
        factors_of(ns, seq![f], r, negated, true),
{
    let s = seq![f];
    assert forall|e: Env|
        #![trigger and_all(ns, s, e)]
        and_all(ns, s, e) == factor_target(ns, r, negated, e) by {
        lemma_and_all_one(ns, f, e);
        assert(eval(ns, f, e) == factor_target(ns, r, negated, e));
    }
    assert forall|i: int|
        #![trigger s[i]]
        0 <= i < s.len() implies has(ns, s[i]) && forall|e: Env|
            #![trigger eval(ns, s[i], e)]
            factor_target(ns, r, negated, e) & eval(ns, s[i], e) == factor_target(
                ns,
                r,
                negated,
                e,
            ) by {
        assert forall|e: Env|
            #![trigger eval(ns, s[i], e)]
            factor_target(ns, r, negated, e) & eval(ns, s[i], e) == factor_target(
                ns,
                r,
                negated,
                e,
            ) by {
            lemma_bitwise(eval(ns, f, e), 0, 0);
        }
    }
}

/// Factors of both halves of a conjunction are factors of the whole.
proof fn lemma_join_factors(
    ns: Seq<Node>,
    s: Seq<Ref>,
    t: Seq<Ref>,
    r: Ref,
    x: Ref,
    y: Ref,
    negated: bool,
    l: bool,
    l2: bool,
)
    requires
        factors_of(ns, s, x, negated, l),
        factors_of(ns, t, y, negated, l2),
        forall|e: Env|
            #![trigger eval(ns, r, e)]
            factor_target(ns, r, negated, e) == factor_target(ns, x, negated, e) & factor_target(
                ns,
                y,
                negated,
                e,
            ),
    ensures
        factors_of(ns, s + t, r, negated, l && l2),
{
    let u = s + t;
    assert forall|i: int|
        #![trigger u[i]]
        0 <= i < u.len() implies has(ns, u[i]) && forall|e: Env|
            #![trigger eval(ns, u[i], e)]
            factor_target(ns, r, negated, e) & eval(ns, u[i], e) == factor_target(
                ns,
                r,
                negated,
                e,
            ) by {
        if i < s.len() {
            assert(u[i] == s[i]);
        } else {
            assert(u[i] == t[i - s.len()]);
        }
        assert forall|e: Env|
            #![trigger eval(ns, u[i], e)]
            factor_target(ns, r, negated, e) & eval(ns, u[i], e) == factor_target(
                ns,
                r,
                negated,
                e,
            ) by {
            let (a, b, f) = (
                factor_target(ns, x, negated, e),
                factor_target(ns, y, negated, e),
                eval(ns, u[i], e),
            );
            assert(eval(ns, r, e) == eval(ns, r, e));
            lemma_bitwise(a, b, f);
            lemma_bitwise(b, a, f);
        }
    }
    if l && l2 {
        assert forall|e: Env|
            #![trigger and_all(ns, u, e)]
            and_all(ns, u, e) == factor_target(ns, r, negated, e) by {
            lemma_and_all_concat(ns, s, t, e);
            assert(eval(ns, r, e) == eval(ns, r, e));
        }
    }
}

/// Leaving a list as it was found records no factors, which is never exact.
proof fn lemma_no_factors(ns: Seq<Node>, r: Ref, negated: bool)
    ensures
        factors_of(ns, Seq::<Ref>::empty(), r, negated, false),
{
}

/// Position-independent membership.
fn list_contains(s: &Vec<Ref>, r: Ref) -> (b: bool)
    ensures
        b == s@.contains(r),
{
    let mut i: usize = 0;
    while i < s.len()
        invariant
            i <= s@.len(),
            forall|j: int| 0 <= j < i ==> s@[j] != r,
        decreases s@.len() - i,
    {
        if s[i] == r {
            assert(s@[i as int] == r);
            return true;
        }
        i = i + 1;
    }
    false
}

impl Arena {
    /// Whether `r` could decompose into more than one conjunction factor.
    fn may_have_factors(&self, r: Ref) -> (b: bool)
        requires
            self.holds(r),
        ensures
            b == has_factors(self.nodes@, r),
            b == (op_of(self.nodes@, r) matches Op::Bin(BinOp::And, _, _) || op_of(
                self.nodes@,
                r,
            ) matches Op::Un(UnOp::Not, _)),
    {
        match *self.op(r) {
            Op::Bin(BinOp::And, _, _) => true,
            Op::Un(UnOp::Not, _) => true,
            _ => false,
        }
    }

    /// An already-interned `~r`, if one exists. Never creates a node.
    fn find_not(&self, r: Ref) -> (n: Option<Ref>)
        requires
            self.wf(),
            self.holds(r),
        ensures
            n == found(self.nodes@, Node { op: Op::Un(UnOp::Not, r), width: self.width(r) }),
            n matches Some(x) ==> self.holds(x) && op_of(self.nodes@, x) == Op::Un(UnOp::Not, r)
                && forall|e: Env| #[trigger]
                eval(self.nodes@, x, e) == !eval(self.nodes@, r, e) & self.width(r).mask(),
            n is None ==> forall|i: int|
                0 <= i < self.nodes@.len() ==> (#[trigger] self.nodes@[i]).op != Op::Un(
                    UnOp::Not,
                    r,
                ),
    {
        let n = self.find(&Node { op: Op::Un(UnOp::Not, r), width: self.width(r) });
        proof {
            if let Some(x) = n {
                assert(ok_at(self.nodes@, x.idx as int));
            } else {
                assert forall|i: int| 0 <= i < self.nodes@.len() implies (
                #[trigger] self.nodes@[i]).op != Op::Un(UnOp::Not, r) by {
                    assert(ok_at(self.nodes@, i));
                }
            }
        }
        n
    }

    /// An already-interned constant, if one exists. Never creates a node.
    fn find_const(&self, value: u64, width: Width) -> (n: Option<Ref>)
        requires
            self.wf(),
        ensures
            n == found(self.nodes@, Node { op: Op::Const(value & width.mask()), width }),
            n matches Some(x) ==> self.holds(x) && self.width(x) == width && op_of(self.nodes@, x)
                == Op::Const(value & width.mask()) && forall|e: Env| #[trigger]
                eval(self.nodes@, x, e) == value & width.mask(),
    {
        let n = self.find(&Node { op: Op::Const(value & width.mask()), width });
        proof {
            lemma_mask(value, width.mask());
        }
        n
    }

    /// Walk `r`, or its complement when `negated`, collecting conjunction factors.
    /// Returns whether the walk was exact, i.e. whether the target equals the
    /// conjunction of the factors.
    fn collect_and_factors(&self, r: Ref, negated: bool, depth: u32, out: &mut Vec<Ref>) -> (exact:
        bool)
        requires
            self.wf(),
            self.holds(r),
        ensures
            final(out)@ == old(out)@ + factors(self.nodes@, r, negated, depth as nat).0,
            exact == factors(self.nodes@, r, negated, depth as nat).1,
            old(out)@.len() <= final(out)@.len(),
            final(out)@.take(old(out)@.len() as int) == old(out)@,
            factors_of(
                self.nodes@,
                final(out)@.skip(old(out)@.len() as int),
                r,
                negated,
                exact,
            ),
        decreases depth,
    {
        let ghost ns = self.nodes@;
        let ghost start = out@;
        let ghost n0 = out@.len() as int;
        proof {
            assert(out@.skip(n0) =~= Seq::<Ref>::empty());
            lemma_no_factors(ns, r, negated);
            lemma_fits(ns, r);
        }
        if depth == 0 {
            return false;
        }
        if !negated {
            // `x & y` splits directly.
            if let Some((x, y)) = self.halves(r, BinOp::And) {
                let l = self.collect_and_factors(x, false, depth - 1, out);
                let ghost mid = out@;
                let l2 = self.collect_and_factors(y, false, depth - 1, out);
                proof {
                    let s = mid.skip(n0);
                    let t = out@.skip(mid.len() as int);
                    assert(out@.skip(n0) =~= s + t);
                    assert(out@.take(n0) =~= start);
                    lemma_join_factors(ns, s, t, r, x, y, false, l, l2);
                }
                return l && l2;
            }
        } else {
            // `~(x | y)` splits as `~x & ~y`, where both have the width of the whole.
            if let Some((x, y)) = self.halves(r, BinOp::Or) {
                if self.width(x) == self.width(y) {
                    let l = self.collect_and_factors(x, true, depth - 1, out);
                    let ghost mid = out@;
                    let l2 = self.collect_and_factors(y, true, depth - 1, out);
                    proof {
                        let s = mid.skip(n0);
                        let t = out@.skip(mid.len() as int);
                        assert(out@.skip(n0) =~= s + t);
                        assert(out@.take(n0) =~= start);
                        assert forall|e: Env|
                            #![trigger eval(ns, r, e)]
                            factor_target(ns, r, true, e) == factor_target(ns, x, true, e)
                                & factor_target(ns, y, true, e) by {
                            lemma_complement(eval(ns, x, e), eval(ns, y, e), self.width(x).mask());
                        }
                        lemma_join_factors(ns, s, t, r, x, y, true, l, l2);
                    }
                    return l && l2;
                }
            }
        }
        if let Some(inner) = self.as_not(r) {
            let exact = self.collect_and_factors(inner, !negated, depth - 1, out);
            proof {
                let s = out@.skip(n0);
                assert forall|e: Env|
                    #![trigger eval(ns, inner, e)]
                    factor_target(ns, r, negated, e) == factor_target(ns, inner, !negated, e) by {
                    lemma_complement(eval(ns, inner, e), 0, self.width(inner).mask());
                    assert(eval(ns, r, e) == eval(ns, r, e));
                }
                assert forall|e: Env|
                    #![trigger and_all(ns, s, e)]
                    exact implies and_all(ns, s, e) == factor_target(ns, r, negated, e) by {
                    assert(factor_target(ns, r, negated, e) == factor_target(
                        ns,
                        inner,
                        !negated,
                        e,
                    ));
                }
                assert forall|i: int|
                    #![trigger s[i]]
                    0 <= i < s.len() implies has(ns, s[i]) && forall|e: Env|
                        #![trigger eval(ns, s[i], e)]
                        factor_target(ns, r, negated, e) & eval(ns, s[i], e) == factor_target(
                            ns,
                            r,
                            negated,
                            e,
                        ) by {
                    assert forall|e: Env|
                        #![trigger eval(ns, s[i], e)]
                        factor_target(ns, r, negated, e) & eval(ns, s[i], e) == factor_target(
                            ns,
                            r,
                            negated,
                            e,
                        ) by {
                        assert(factor_target(ns, r, negated, e) == factor_target(
                            ns,
                            inner,
                            !negated,
                            e,
                        ));
                    }
                }
            }
            return exact;
        }
        // A leaf for this purpose. Record it, spelling a pending negation the way the
        // arena would; with no existing node for it the factor cannot be named, so the
        // decomposition is reported inexact rather than silently narrowed.
        if !negated {
            out.push(r);
            proof {
                lemma_single_factor(ns, r, r, false);
                assert(out@.skip(n0) =~= seq![r]);
                assert(out@.take(n0) =~= start);
            }
            return true;
        }
        let w = self.width(r);
        let neg = match self.as_const(r) {
            Some(c) => self.find_const(!c & w.mask(), w),
            None => self.find_not(r),
        };
        match neg {
            Some(n) => {
                out.push(n);
                proof {
                    if let Some(c) = const_of(ns, r) {
                        lemma_mask(!c & w.mask(), w.mask());
                        lemma_mask(c, w.mask());
                        lemma_mask(!c, w.mask());
                    }
                    lemma_single_factor(ns, n, r, true);
                    assert(out@.skip(n0) =~= seq![n]);
                    assert(out@.take(n0) =~= start);
                }
                true
            },
            None => false,
        }
    }

    /// The conjunction factors of `r`, reading `~(x | y)` as `~x & ~y`. Also returns
    /// whether the decomposition is *exact*, i.e. whether `r` equals the conjunction of
    /// the factors.
    fn and_factors(&self, r: Ref) -> (f: (Vec<Ref>, bool))
        requires
            self.wf(),
            self.holds(r),
        ensures
            (f.0@, f.1) == factors(self.nodes@, r, false, 6),
            factors_of(self.nodes@, f.0@, r, false, f.1),
    {
        let mut out: Vec<Ref> = Vec::new();
        let exact = self.collect_and_factors(r, false, 6, &mut out);
        proof {
            assert(out@.skip(0) =~= out@);
        }
        (out, exact)
    }

    /// Whether `a` and `b` provably share no live bit.
    pub(crate) fn disjoint_by_factors(&self, a: Ref, b: Ref) -> (r: bool)
        requires
            self.ready(a, b),
        ensures
            r == factors_clash(self.nodes@, a, b),
            r ==> forall|e: Env|
                #![trigger eval(self.nodes@, a, e)]
                eval(self.nodes@, a, e) & eval(self.nodes@, b, e) == 0,
    {
        if !self.may_have_factors(a) || !self.may_have_factors(b) {
            return false;
        }
        let ghost ns = self.nodes@;
        let (fa, ea) = self.and_factors(a);
        let (fb, eb) = self.and_factors(b);
        let mut i: usize = 0;
        while i < fa.len()
            invariant
                self.ready(a, b),
                ns == self.nodes@,
                factors_of(ns, fa@, a, false, ea),
                factors_of(ns, fb@, b, false, eb),
                fa@ == factors(ns, a, false, 6).0,
                fb@ == factors(ns, b, false, 6).0,
                has_factors(ns, a) && has_factors(ns, b),
                forall|p: int, q: int|
                    0 <= p < i && 0 <= q < fb@.len() ==> !opposite(ns, #[trigger] fa@[p], #[trigger] fb@[q]),
            decreases fa@.len() - i,
        {
            let mut j: usize = 0;
            while j < fb.len()
                invariant
                    self.ready(a, b),
                    ns == self.nodes@,
                    factors_of(ns, fa@, a, false, ea),
                    factors_of(ns, fb@, b, false, eb),
                    i < fa@.len(),
                    fa@ == factors(ns, a, false, 6).0,
                    fb@ == factors(ns, b, false, 6).0,
                    has_factors(ns, a) && has_factors(ns, b),
                    forall|q: int| 0 <= q < j ==> !opposite(ns, fa@[i as int], #[trigger] fb@[q]),
                decreases fb@.len() - j,
            {
                let x = fa[i];
                let y = fb[j];
                if self.is_complement(x, y) {
                    proof {
                        assert forall|e: Env|
                            #![trigger eval(ns, a, e)]
                            eval(ns, a, e) & eval(ns, b, e) == 0 by {
                            let (va, vb) = (eval(ns, a, e), eval(ns, b, e));
                            let (vx, vy) = (eval(ns, fa@[i as int], e), eval(ns, fb@[j as int], e));
                            assert(factor_target(ns, a, false, e) & vx == va);
                            assert(factor_target(ns, b, false, e) & vy == vb);
                            assert(vy == !vx & width_of(ns, x).mask());
                            lemma_complement(vx, 0, width_of(ns, x).mask());
                            lemma_bitwise(va, vx, vy);
                            lemma_bitwise(va, vy, vb);
                            lemma_bitwise(vb, vy, va);
                            lemma_bitwise(va, vb, 0);
                        }
                    }
                    return true;
                }
                j = j + 1;
            }
            i = i + 1;
        }
        false
    }

    // Disjunctions.

    /// `a | (a ^ b) == a | b`. Where `a` is set both sides give one; where `a` is clear
    /// the xor is just `b`.
    fn or_xor(&mut self, p: Ref, q: Ref, fuel: u32) -> (r: Option<Ref>)
    requires
        old(self).ready(p, q),
        fuel > 0,
    ensures
            follows(
                (old(self).nodes@, old(self).trunc_depth),
                final(self).nodes@,
                r,
                or_xor_rule(old(self).nodes@, p, q),
                (fuel - 1) as nat,
            ),
        final(self).rewrote(*old(self), r, BinOp::Or, p, q),
    decreases fuel, 0int,
    {
        proof {
            reveal(or_xor_rule);
        }
        let ghost ns = self.nodes@;
        if let Some((x, y)) = self.halves(q, BinOp::Xor) {
            if x == p {
                let r = self.bin_within(BinOp::Or, p, y, fuel - 1);
                proof {
                    assert forall|e: Env| #[trigger]
                        eval(self.nodes@, r, e) == bin_at(self.nodes@, BinOp::Or, p, q, e) by {
                        lemma_bitwise(eval(ns, p, e), eval(ns, y, e), 0);
                    }
                }
                return Some(r);
            }
            if y == p {
                let r = self.bin_within(BinOp::Or, p, x, fuel - 1);
                proof {
                    assert forall|e: Env| #[trigger]
                        eval(self.nodes@, r, e) == bin_at(self.nodes@, BinOp::Or, p, q, e) by {
                        lemma_bitwise(eval(ns, p, e), eval(ns, x, e), 0);
                        lemma_bitwise(eval(ns, x, e), eval(ns, p, e), 0);
                    }
                }
                return Some(r);
            }
        }
        None
    }

    fn or_trivial(&mut self, a: Ref, b: Ref, width: Width) -> (r: Option<Ref>)
    requires
        old(self).ready(a, b),
        width == old(self).width(a).wider(old(self).width(b)),
    ensures
            settled(old(self).nodes@, final(self).nodes@, r, or_trivial_rule(old(self).nodes@, a, b, width)),
        final(self).rewrote(*old(self), r, BinOp::Or, a, b),
    {
        proof {
            reveal(or_trivial_rule);
        }
        let ghost ns = self.nodes@;
        let ghost m = width.mask();
        proof {
            lemma_fits(ns, a);
            lemma_mask(m, m);
        }
        if a == b {
            proof {
                assert forall|e: Env| #[trigger]
                    eval(self.nodes@, a, e) == bin_at(self.nodes@, BinOp::Or, a, b, e) by {
                    lemma_bitwise(eval(ns, a, e), 0, 0);
                }
            }
            return Some(a);
        }
        let cb = self.as_const(b);
        if cb == Some(0) {
            proof {
                assert forall|e: Env| #[trigger]
                    eval(self.nodes@, a, e) == bin_at(self.nodes@, BinOp::Or, a, b, e) by {
                    lemma_bitwise(eval(ns, a, e), 0, 0);
                }
            }
            return Some(a);
        }
        if cb == Some(width.mask()) {
            let r = self.constant(width.mask(), width);
            proof {
                assert forall|e: Env| #[trigger]
                    eval(self.nodes@, r, e) == bin_at(self.nodes@, BinOp::Or, a, b, e) by {
                    lemma_complement(eval(ns, a, e), 0, m);
                }
            }
            return Some(r);
        }
        if self.is_complement(a, b) {
            let r = self.constant(width.mask(), width);
            proof {
                assert forall|e: Env| #[trigger]
                    eval(self.nodes@, r, e) == bin_at(self.nodes@, BinOp::Or, a, b, e) by {
                    lemma_complement(eval(ns, a, e), 0, m);
                    assert(eval(ns, b, e) == !eval(ns, a, e) & m);
                }
            }
            return Some(r);
        }
        None
    }

    /// `A | (B & ~A) == A | B`, where `B` is no wider than the complement.
    fn or_and_not_of(&mut self, p: Ref, q: Ref, neg: Ref, other: Ref, fuel: u32) -> (r: Option<Ref>)
    requires
        old(self).ready(p, q),
        fuel > 0,
        made_of(old(self).nodes@, q, BinOp::And, neg, other),
        old(self).holds(neg),
        old(self).holds(other),
    ensures
            follows(
                (old(self).nodes@, old(self).trunc_depth),
                final(self).nodes@,
                r,
                or_and_not_side(old(self).nodes@, p, neg, other),
                (fuel - 1) as nat,
            ),
        final(self).rewrote(*old(self), r, BinOp::Or, p, q),
    decreases fuel, 0int,
    {
        proof {
            reveal(or_and_not_side);
        }
        let ghost ns = self.nodes@;
        if self.is_complement(neg, p) && self.width(other).bits() <= self.width(p).bits() {
            let ghost m = self.width(p).mask();
            let r = self.bin_within(BinOp::Or, p, other, fuel - 1);
            proof {
                assert forall|e: Env| #[trigger]
                    eval(self.nodes@, r, e) == bin_at(self.nodes@, BinOp::Or, p, q, e) by {
                    lemma_complement(eval(ns, p, e), eval(ns, other, e), m);
                    assert(eval(ns, neg, e) == !eval(ns, p, e) & m);
                }
            }
            return Some(r);
        }
        None
    }

    fn or_and_not(&mut self, p: Ref, q: Ref, fuel: u32) -> (r: Option<Ref>)
    requires
        old(self).ready(p, q),
        fuel > 0,
    ensures
            follows(
                (old(self).nodes@, old(self).trunc_depth),
                final(self).nodes@,
                r,
                or_and_not_rule(old(self).nodes@, p, q),
                (fuel - 1) as nat,
            ),
        final(self).rewrote(*old(self), r, BinOp::Or, p, q),
    decreases fuel, 1int,
    {
        proof {
            reveal(or_and_not_rule);
        }
        if let Some((x, y)) = self.halves(q, BinOp::And) {
            let first = self.or_and_not_of(p, q, x, y, fuel);
            if first.is_some() {
                return first;
            }
            return self.or_and_not_of(p, q, y, x, fuel);
        }
        None
    }

    /// `(A&B) | A == A` and `(A|B) | A == A|B`.
    fn or_absorb(&mut self, p: Ref, q: Ref) -> (r: Option<Ref>)
    requires
        old(self).ready(p, q),
    ensures
            settled(old(self).nodes@, final(self).nodes@, r, or_absorb_rule(old(self).nodes@, p, q)),
        final(self).rewrote(*old(self), r, BinOp::Or, p, q),
    {
        proof {
            reveal(or_absorb_rule);
        }
        let ghost ns = self.nodes@;
        if let Some((x, y)) = self.halves(p, BinOp::And) {
            if x == q || y == q {
                proof {
                    assert forall|e: Env| #[trigger]
                        eval(self.nodes@, q, e) == bin_at(self.nodes@, BinOp::Or, p, q, e) by {
                        lemma_bitwise(eval(ns, x, e), eval(ns, y, e), 0);
                        lemma_bitwise(eval(ns, y, e), eval(ns, x, e), 0);
                    }
                }
                return Some(q);
            }
        }
        if let Some((x, y)) = self.halves(p, BinOp::Or) {
            if x == q || y == q {
                proof {
                    assert forall|e: Env| #[trigger]
                        eval(self.nodes@, p, e) == bin_at(self.nodes@, BinOp::Or, p, q, e) by {
                        lemma_bitwise(eval(ns, x, e), eval(ns, y, e), 0);
                        lemma_bitwise(eval(ns, y, e), eval(ns, x, e), 0);
                    }
                }
                return Some(p);
            }
        }
        None
    }

    /// `(X & m) | (X & ~m) == X` and `(X & c1) | (X & c2) == X & (c1|c2)`, with the
    /// arms given.
    fn or_shared_of(
        &mut self,
        a: Ref,
        b: Ref,
        shared: Ref,
        mask_a: Ref,
        shared_b: Ref,
        mask_b: Ref,
        width: Width,
        fuel: u32,
    ) -> (r: Option<Ref>)
    requires
        old(self).ready(a, b),
        fuel > 0,
        made_of(old(self).nodes@, a, BinOp::And, shared, mask_a),
        made_of(old(self).nodes@, b, BinOp::And, shared_b, mask_b),
        old(self).ready(shared, mask_a),
        old(self).holds(mask_b),
        width == old(self).width(a).wider(old(self).width(b)),
    ensures
            follows(
                (old(self).nodes@, old(self).trunc_depth),
                final(self).nodes@,
                r,
                or_shared_side(old(self).nodes@, shared, mask_a, shared_b, mask_b, width),
                (fuel - 1) as nat,
            ),
        final(self).rewrote(*old(self), r, BinOp::Or, a, b),
    decreases fuel, 0int,
    {
        proof {
            reveal(or_shared_side);
        }
        let ghost ns = self.nodes@;
        if shared != shared_b {
            return None;
        }
        if self.is_complement(mask_a, mask_b) && self.width(shared) == width && self.width(
            mask_a,
        ).bits() >= self.width(shared).bits() {
            let ghost m = self.width(mask_a).mask();
            proof {
                assert forall|e: Env| #[trigger]
                    eval(self.nodes@, shared, e) == bin_at(self.nodes@, BinOp::Or, a, b, e) by {
                    lemma_complement(eval(ns, shared, e), eval(ns, mask_a, e), m);
                    assert(eval(ns, mask_b, e) == !eval(ns, mask_a, e) & m);
                }
            }
            return Some(shared);
        }
        if let (Some(c1), Some(c2)) = (self.as_const(mask_a), self.as_const(mask_b)) {
            let k = self.constant(c1 | c2, width);
            let r = self.bin_within(BinOp::And, shared, k, fuel - 1);
            proof {
                lemma_bitwise_fit(c1, c2, width.mask());
                lemma_mask(c1 | c2, width.mask());
            }
            proof {
                assert forall|e: Env| #[trigger]
                    eval(self.nodes@, r, e) == bin_at(self.nodes@, BinOp::Or, a, b, e) by {
                    assert(eval(ns, mask_a, e) == c1);
                    assert(eval(ns, mask_b, e) == c2);
                    lemma_bitwise(eval(ns, shared, e), c1, c2);
                }
            }
            return Some(r);
        }
        None
    }

    fn or_shared(&mut self, a: Ref, b: Ref, width: Width, fuel: u32) -> (r: Option<Ref>)
    requires
        old(self).ready(a, b),
        fuel > 0,
        width == old(self).width(a).wider(old(self).width(b)),
    ensures
            follows(
                (old(self).nodes@, old(self).trunc_depth),
                final(self).nodes@,
                r,
                or_shared_rule(old(self).nodes@, a, b, width),
                (fuel - 1) as nat,
            ),
        final(self).rewrote(*old(self), r, BinOp::Or, a, b),
    decreases fuel, 1int,
    {
        proof {
            reveal(or_shared_rule);
        }
        if let (Some((x1, y1)), Some((x2, y2))) = (
            self.halves(a, BinOp::And),
            self.halves(b, BinOp::And),
        ) {
            let r = self.or_shared_of(a, b, x1, y1, x2, y2, width, fuel);
            if r.is_some() {
                return r;
            }
            let r = self.or_shared_of(a, b, x1, y1, y2, x2, width, fuel);
            if r.is_some() {
                return r;
            }
            let r = self.or_shared_of(a, b, y1, x1, x2, y2, width, fuel);
            if r.is_some() {
                return r;
            }
            return self.or_shared_of(a, b, y1, x1, y2, x2, width, fuel);
        }
        None
    }

    /// The one factor in `s` other than `shared`, if there is exactly one.
    fn only_other(&self, s: &Vec<Ref>, shared: Ref) -> (r: Option<Ref>)
        requires
            forall|i: int| 0 <= i < s@.len() ==> self.holds(#[trigger] s@[i]),
        ensures
            r == only_other_from(s@, shared, 0, None),
            r matches Some(x) ==> self.holds(x) && forall|e: Env|
                #![trigger eval(self.nodes@, x, e)]
                eval(self.nodes@, shared, e) & and_all(self.nodes@, s@, e) == eval(
                    self.nodes@,
                    shared,
                    e,
                ) & eval(self.nodes@, x, e),
    {
        let ghost ns = self.nodes@;
        let mut found: Option<Ref> = None;
        let mut i: usize = 0;
        proof {
            assert(s@.take(0) =~= Seq::<Ref>::empty());
            assert forall|e: Env| #[trigger]
                and_all(ns, s@.take(0), e) & eval(ns, shared, e) == eval(ns, shared, e) by {
                lemma_complement(eval(ns, shared, e), 0, 0xffff_ffff_ffff_ffff);
                lemma_bitwise(eval(ns, shared, e), 0xffff_ffff_ffff_ffff, 0);
            }
        }
        while i < s.len()
            invariant
                i <= s@.len(),
                ns == self.nodes@,
                forall|j: int| 0 <= j < s@.len() ==> self.holds(#[trigger] s@[j]),
                found matches Some(x) ==> self.holds(x),
                forall|e: Env|
                    #![trigger and_all(ns, s@.take(i as int), e)]
                    and_all(ns, s@.take(i as int), e) & eval(ns, shared, e) == match found {
                        Some(x) => eval(ns, shared, e) & eval(ns, x, e),
                        None => eval(ns, shared, e),
                    },
                only_other_from(s@, shared, 0, None) == only_other_from(s@, shared, i as int, found),
            decreases s@.len() - i,
        {
            let f = s[i];
            let ghost was = found;
            if f != shared {
                if found.is_some() {
                    return None;
                }
                found = Some(f);
            }
            proof {
                assert(s@.take(i + 1).drop_last() =~= s@.take(i as int));
                assert forall|e: Env|
                    #![trigger and_all(ns, s@.take(i + 1), e)]
                    and_all(ns, s@.take(i + 1), e) & eval(ns, shared, e) == match found {
                        Some(x) => eval(ns, shared, e) & eval(ns, x, e),
                        None => eval(ns, shared, e),
                    } by {
                    let (v, w, z) = (
                        and_all(ns, s@.take(i as int), e),
                        eval(ns, f, e),
                        eval(ns, shared, e),
                    );
                    lemma_bitwise(v, w, z);
                    lemma_bitwise(v, z, w);
                    lemma_bitwise(w, z, v);
                    lemma_bitwise(v & z, z, 0);
                    if let Some(x) = was {
                        lemma_bitwise(z, eval(ns, x, e), z);
                    }
                }
            }
            i = i + 1;
        }
        proof {
            assert(s@.take(i as int) =~= s@);
            assert forall|e: Env|
                #![trigger eval(ns, found->0, e)]
                found is Some implies eval(ns, shared, e) & and_all(ns, s@, e) == eval(
                    ns,
                    shared,
                    e,
                ) & eval(ns, found->0, e) by {
                assert(and_all(ns, s@.take(i as int), e) & eval(ns, shared, e) == eval(
                    ns,
                    shared,
                    e,
                ) & eval(ns, found->0, e));
                lemma_bitwise(eval(ns, shared, e), and_all(ns, s@, e), 0);
            }
        }
        found
    }

    /// The reconstruction of [`Arena::or_shared`] over conjunction factors rather than
    /// over a literal pair of arms: one residual factor each, and complementary, so the
    /// two arms partition the shared value's bits and together restore it.
    fn or_factors(&mut self, a: Ref, b: Ref, width: Width) -> (r: Option<Ref>)
    requires
        old(self).ready(a, b),
        width == old(self).width(a).wider(old(self).width(b)),
    ensures
            settled(old(self).nodes@, final(self).nodes@, r, or_factors_rule(old(self).nodes@, a, b, width)),
        final(self).rewrote(*old(self), r, BinOp::Or, a, b),
    {
        proof {
            reveal(or_factors_rule);
        }
        let ghost ns = self.nodes@;
        let (fa, ea) = self.and_factors(a);
        let (fb, eb) = self.and_factors(b);
        if !ea || !eb || fa.len() < 2 || fb.len() < 2 {
            return None;
        }
        let mut i: usize = 0;
        while i < fa.len()
            invariant
                *self == *old(self),
                self.ready(a, b),
                ns == self.nodes@,
                factors_of(ns, fa@, a, false, true),
                factors_of(ns, fb@, b, false, true),
                width == self.width(a).wider(self.width(b)),
                (fa@, true) == factors(ns, a, false, 6),
                (fb@, true) == factors(ns, b, false, 6),
                fa@.len() >= 2,
                fb@.len() >= 2,
                shared_from(ns, fa@, fb@, width, 0) == shared_from(ns, fa@, fb@, width, i as int),
            decreases fa@.len() - i,
        {
            let shared = fa[i];
            if list_contains(&fb, shared) && self.width(shared) == width {
                if let (Some(ra), Some(rb)) = (
                    self.only_other(&fa, shared),
                    self.only_other(&fb, shared),
                ) {
                    if self.is_complement(ra, rb) && self.width(ra).bits() >= self.width(
                        shared,
                    ).bits() {
                        let ghost m = self.width(ra).mask();
                        proof {
                            lemma_fits(ns, shared);
                            let j = choose|j: int| 0 <= j < fb@.len() && fb@[j] == shared;
                            assert(fb@[j] == shared);
                            assert(fa@[i as int] == shared);
                            assert forall|e: Env| #[trigger]
                                eval(ns, shared, e) == bin_at(ns, BinOp::Or, a, b, e) by {
                                let (va, vb, vs) = (
                                    eval(ns, a, e),
                                    eval(ns, b, e),
                                    eval(ns, shared, e),
                                );
                                let (xa, xb) = (eval(ns, ra, e), eval(ns, rb, e));
                                assert(and_all(ns, fa@, e) == va);
                                assert(and_all(ns, fb@, e) == vb);
                                assert(eval(ns, fa@[i as int], e) == vs);
                                assert(eval(ns, fb@[j], e) == vs);
                                assert(va & vs == va);
                                assert(vb & vs == vb);
                                lemma_bitwise(va, vs, 0);
                                lemma_bitwise(vb, vs, 0);
                                assert(vs & va == vs & xa);
                                assert(vs & vb == vs & xb);
                                assert(xb == !xa & m);
                                lemma_complement(vs, xa, m);
                            }
                        }
                        proof {
                            reveal(or_factors_rule);
                            assert(shares(ns, fa@, fb@, shared, width));
                            assert(fa@[i as int] == shared);
                        }
                        return Some(shared);
                    }
                }
            }
            i = i + 1;
        }
        None
    }

    /// Drop an operand whose every possible bit is already known set in the other.
    fn or_known(&mut self, p: Ref, q: Ref, width: Width) -> (r: Option<Ref>)
    requires
        old(self).ready(p, q),
        width == old(self).width(p).wider(old(self).width(q)),
    ensures
            settled(old(self).nodes@, final(self).nodes@, r, or_known_rule(old(self).nodes@, p, q, width)),
        final(self).rewrote(*old(self), r, BinOp::Or, p, q),
    {
        proof {
            reveal(or_known_rule);
        }
        let ghost ns = self.nodes@;
        let ghost m = width.mask();
        let zp: u64 = self.known_zero(p);
        let oq: u64 = self.known_one(q);
        if (!zp & !oq & width.mask()) == 0 {
            proof {
                lemma_fits(ns, p);
            }
            proof {
                assert forall|e: Env| #[trigger]
                    eval(self.nodes@, q, e) == bin_at(self.nodes@, BinOp::Or, p, q, e) by {
                    lemma_bitwise(eval(ns, q, e), 0, 0);
                    lemma_known_rules(eval(ns, p, e), eval(ns, q, e), zp, 0, oq, 0, m);
                }
            }
            return Some(q);
        }
        None
    }

    /// `(A ^ c) | c == A | c` and `(A | c1) | c2 == A | (c1|c2)`.
    fn or_nested(&mut self, a: Ref, b: Ref, c2: u64, width: Width, fuel: u32) -> (r: Option<Ref>)
    requires
        old(self).ready(a, b),
        fuel > 0,
        width == old(self).width(a).wider(old(self).width(b)),
        const_of(old(self).nodes@, b) == Some(c2),
    ensures
            follows(
                (old(self).nodes@, old(self).trunc_depth),
                final(self).nodes@,
                r,
                or_nested_rule(old(self).nodes@, a, c2, width),
                (fuel - 1) as nat,
            ),
        final(self).rewrote(*old(self), r, BinOp::Or, a, b),
    decreases fuel, 0int,
    {
        proof {
            reveal(or_nested_rule);
        }
        let ghost ns = self.nodes@;
        let ghost m = width.mask();
        let cb = self.as_const(b);
        if let Some((BinOp::Xor, x, y)) = self.as_bin(a) {
            if self.as_const(y) == Some(c2) {
                let k = self.constant(c2, width);
                let r = self.bin_within(BinOp::Or, x, k, fuel - 1);
                proof {
                    lemma_mask(c2, m);
                }
                proof {
                    assert forall|e: Env| #[trigger]
                        eval(self.nodes@, r, e) == bin_at(self.nodes@, BinOp::Or, a, b, e) by {
                        assert(eval(ns, b, e) == c2);
                        assert(eval(ns, y, e) == c2);
                        lemma_bitwise(eval(ns, x, e), 0, c2);
                    }
                }
                return Some(r);
            }
        }
        if let Some((BinOp::Or, x, y)) = self.as_bin(a) {
            if let Some(c1) = self.as_const(y) {
                let k = self.constant(c1 | c2, width);
                let r = self.bin_within(BinOp::Or, x, k, fuel - 1);
                proof {
                    lemma_bitwise_fit(c1, c2, m);
                    lemma_mask(c1 | c2, m);
                }
                proof {
                    assert forall|e: Env| #[trigger]
                        eval(self.nodes@, r, e) == bin_at(self.nodes@, BinOp::Or, a, b, e) by {
                        assert(eval(ns, b, e) == c2);
                        assert(eval(ns, y, e) == c1);
                        lemma_bitwise(eval(ns, x, e), c1, c2);
                    }
                }
                return Some(r);
            }
        }
        None
    }

    /// `A | ((A & k) | C) == A | C`: `A & k` contributes nothing that `A` does not
    /// already have. Plain absorption only looks one level down, and the obfuscator
    /// buries the term under a second OR.
    fn or_buried_of(&mut self, p: Ref, q: Ref, cand: Ref, keep: Ref, fuel: u32) -> (r: Option<Ref>)
    requires
        old(self).ready(p, q),
        fuel > 0,
        made_of(old(self).nodes@, q, BinOp::Or, cand, keep),
        old(self).holds(cand),
        old(self).holds(keep),
    ensures
            follows(
                (old(self).nodes@, old(self).trunc_depth),
                final(self).nodes@,
                r,
                or_buried_side(old(self).nodes@, p, cand, keep),
                (fuel - 1) as nat,
            ),
        final(self).rewrote(*old(self), r, BinOp::Or, p, q),
    decreases fuel, 0int,
    {
        proof {
            reveal(or_buried_side);
        }
        let ghost ns = self.nodes@;
        if let Some((u, v)) = self.halves(cand, BinOp::And) {
            if u == p || v == p {
                let r = self.bin_within(BinOp::Or, p, keep, fuel - 1);
                proof {
                    assert forall|e: Env| #[trigger]
                        eval(self.nodes@, r, e) == bin_at(self.nodes@, BinOp::Or, p, q, e) by {
                        lemma_bitwise(eval(ns, p, e), eval(ns, keep, e), eval(ns, u, e));
                        lemma_bitwise(eval(ns, p, e), eval(ns, keep, e), eval(ns, v, e));
                        lemma_bitwise(eval(ns, u, e), eval(ns, v, e), 0);
                    }
                }
                return Some(r);
            }
        }
        None
    }

    fn or_buried(&mut self, p: Ref, q: Ref, fuel: u32) -> (r: Option<Ref>)
    requires
        old(self).ready(p, q),
        fuel > 0,
    ensures
            follows(
                (old(self).nodes@, old(self).trunc_depth),
                final(self).nodes@,
                r,
                or_buried_rule(old(self).nodes@, p, q),
                (fuel - 1) as nat,
            ),
        final(self).rewrote(*old(self), r, BinOp::Or, p, q),
    decreases fuel, 1int,
    {
        proof {
            reveal(or_buried_rule);
        }
        if let Some((x, y)) = self.halves(q, BinOp::Or) {
            let first = self.or_buried_of(p, q, x, y, fuel);
            if first.is_some() {
                return first;
            }
            return self.or_buried_of(p, q, y, x, fuel);
        }
        None
    }

    /// `((A|B) ^ B) | A == A`. The XOR clears exactly the bits B contributed to (A|B),
    /// leaving A's B-bits cleared, and the final OR restores them.
    fn or_restored_of(&mut self, p: Ref, q: Ref, or_side: Ref, other: Ref) -> (r: Option<Ref>)
    requires
        old(self).ready(p, q),
        made_of(old(self).nodes@, p, BinOp::Xor, or_side, other),
        old(self).holds(or_side),
    ensures
            settled(old(self).nodes@, final(self).nodes@, r, or_restored_side(old(self).nodes@, q, or_side, other)),
        final(self).rewrote(*old(self), r, BinOp::Or, p, q),
    {
        proof {
            reveal(or_restored_side);
        }
        let ghost ns = self.nodes@;
        if let Some((u, v)) = self.halves(or_side, BinOp::Or) {
            if (u == q && v == other) || (v == q && u == other) {
                proof {
                    assert forall|e: Env| #[trigger]
                        eval(self.nodes@, q, e) == bin_at(self.nodes@, BinOp::Or, p, q, e) by {
                        lemma_bitwise(eval(ns, q, e), eval(ns, other, e), 0);
                    }
                }
                return Some(q);
            }
        }
        None
    }

    fn or_restored(&mut self, p: Ref, q: Ref) -> (r: Option<Ref>)
    requires
        old(self).ready(p, q),
    ensures
            settled(old(self).nodes@, final(self).nodes@, r, or_restored_rule(old(self).nodes@, p, q)),
        final(self).rewrote(*old(self), r, BinOp::Or, p, q),
    {
        proof {
            reveal(or_restored_rule);
        }
        if let Some((x, y)) = self.halves(p, BinOp::Xor) {
            let first = self.or_restored_of(p, q, x, y);
            if first.is_some() {
                return first;
            }
            return self.or_restored_of(p, q, y, x);
        }
        None
    }

    /// The first half of the rules for `a | b`.
    fn or_structural(&mut self, a: Ref, b: Ref, width: Width, fuel: u32) -> (r: Option<Ref>)
    requires
        old(self).ready(a, b),
        fuel > 0,
        width == old(self).width(a).wider(old(self).width(b)),
    ensures
            follows(
                (old(self).nodes@, old(self).trunc_depth),
                final(self).nodes@,
                r,
                or_structural_rule(old(self).nodes@, a, b, width),
                (fuel - 1) as nat,
            ),
        final(self).rewrote(*old(self), r, BinOp::Or, a, b),
    decreases fuel, 2int,
    {
        proof {
            reveal(or_structural_rule);
        }
        let r = self.or_xor(a, b, fuel);
        if r.is_some() {
            return r;
        }
        if let Some(r) = self.or_xor(b, a, fuel) {
            proof {
                lemma_swap(self.nodes@, r, BinOp::Or, a, b);
            }
            return Some(r);
        }
        let r = self.or_trivial(a, b, width);
        if r.is_some() {
            return r;
        }
        let r = self.or_and_not(a, b, fuel);
        if r.is_some() {
            return r;
        }
        if let Some(r) = self.or_and_not(b, a, fuel) {
            proof {
                lemma_swap(self.nodes@, r, BinOp::Or, a, b);
            }
            return Some(r);
        }
        let r = self.or_absorb(a, b);
        if r.is_some() {
            return r;
        }
        if let Some(r) = self.or_absorb(b, a) {
            proof {
                lemma_swap(self.nodes@, r, BinOp::Or, a, b);
            }
            return Some(r);
        }
        let r = self.or_shared(a, b, width, fuel);
        if r.is_some() {
            return r;
        }
        self.or_factors(a, b, width)
    }

    /// All rules for `a | b`.
    pub(crate) fn simplify_or(&mut self, a: Ref, b: Ref, width: Width, fuel: u32) -> (r: Option<Ref>)
    requires
        old(self).ready(a, b),
        fuel > 0,
        width == old(self).width(a).wider(old(self).width(b)),
    ensures
            follows(
                (old(self).nodes@, old(self).trunc_depth),
                final(self).nodes@,
                r,
                or_rule(old(self).nodes@, a, b, width),
                (fuel - 1) as nat,
            ),
        final(self).rewrote(*old(self), r, BinOp::Or, a, b),
    decreases fuel, 3int,
    {
        proof {
            reveal(or_rule);
        }
        let r = self.or_structural(a, b, width, fuel);
        if r.is_some() {
            return r;
        }
        let r = self.or_known(a, b, width);
        if r.is_some() {
            return r;
        }
        if let Some(r) = self.or_known(b, a, width) {
            proof {
                lemma_swap(self.nodes@, r, BinOp::Or, a, b);
            }
            return Some(r);
        }
        if let Some(c) = self.as_const(b) {
            let r = self.or_nested(a, b, c, width, fuel);
            if r.is_some() {
                return r;
            }
        }
        let r = self.or_buried(a, b, fuel);
        if r.is_some() {
            return r;
        }
        if let Some(r) = self.or_buried(b, a, fuel) {
            proof {
                lemma_swap(self.nodes@, r, BinOp::Or, a, b);
            }
            return Some(r);
        }
        let r = self.or_restored(a, b);
        if r.is_some() {
            return r;
        }
        if let Some(r) = self.or_restored(b, a) {
            proof {
                lemma_swap(self.nodes@, r, BinOp::Or, a, b);
            }
            return Some(r);
        }
        None
    }

    // Exclusive ors.

    /// `(A&B) ^ (A|B) == A ^ B`.
    ///
    /// The OR holds every bit either operand has, the AND only the shared ones, so the
    /// difference between them is exactly the bits present in one but not both.
    fn xor_of_parts(&mut self, p: Ref, q: Ref, fuel: u32) -> (r: Option<Ref>)
    requires
        old(self).ready(p, q),
        fuel > 0,
    ensures
            follows(
                (old(self).nodes@, old(self).trunc_depth),
                final(self).nodes@,
                r,
                xor_of_parts_rule(old(self).nodes@, p, q),
                (fuel - 1) as nat,
            ),
        final(self).rewrote(*old(self), r, BinOp::Xor, p, q),
    decreases fuel, 0int,
    {
        proof {
            reveal(xor_of_parts_rule);
        }
        let ghost ns = self.nodes@;
        if let (Some((x1, y1)), Some((x2, y2))) = (
            self.halves(p, BinOp::And),
            self.halves(q, BinOp::Or),
        ) {
            if same_pair(x1, y1, x2, y2) {
                let r = self.bin_within(BinOp::Xor, x1, y1, fuel - 1);
                proof {
                    assert forall|e: Env| #[trigger]
                        eval(self.nodes@, r, e) == bin_at(self.nodes@, BinOp::Xor, p, q, e) by {
                        lemma_bitwise(eval(ns, x1, e), eval(ns, y1, e), 0);
                    }
                }
                return Some(r);
            }
        }
        None
    }

    /// `(A&B) ^ (A^B) == A | B`: the bits in exactly one operand and the bits in both
    /// are disjoint, so their XOR is their union.
    fn xor_of_union(&mut self, p: Ref, q: Ref, fuel: u32) -> (r: Option<Ref>)
    requires
        old(self).ready(p, q),
        fuel > 0,
    ensures
            follows(
                (old(self).nodes@, old(self).trunc_depth),
                final(self).nodes@,
                r,
                xor_of_union_rule(old(self).nodes@, p, q),
                (fuel - 1) as nat,
            ),
        final(self).rewrote(*old(self), r, BinOp::Xor, p, q),
    decreases fuel, 0int,
    {
        proof {
            reveal(xor_of_union_rule);
        }
        let ghost ns = self.nodes@;
        if let (Some((x1, y1)), Some((x2, y2))) = (
            self.halves(p, BinOp::And),
            self.halves(q, BinOp::Xor),
        ) {
            if same_pair(x1, y1, x2, y2) {
                let r = self.bin_within(BinOp::Or, x1, y1, fuel - 1);
                proof {
                    assert forall|e: Env| #[trigger]
                        eval(self.nodes@, r, e) == bin_at(self.nodes@, BinOp::Xor, p, q, e) by {
                        lemma_bitwise(eval(ns, x1, e), eval(ns, y1, e), 0);
                    }
                }
                return Some(r);
            }
        }
        None
    }

    /// `A ^ (A | B) == ~A & B`, where `B` is no wider than `A`.
    fn xor_or_of(&mut self, p: Ref, q: Ref, same: Ref, other: Ref, fuel: u32) -> (r: Option<Ref>)
    requires
        old(self).ready(p, q),
        fuel > 0,
        made_of(old(self).nodes@, q, BinOp::Or, same, other),
        old(self).holds(other),
    ensures
            follows(
                (old(self).nodes@, old(self).trunc_depth),
                final(self).nodes@,
                r,
                xor_or_side(old(self).nodes@, p, same, other),
                (fuel - 1) as nat,
            ),
        final(self).rewrote(*old(self), r, BinOp::Xor, p, q),
    decreases fuel, 0int,
    {
        proof {
            reveal(xor_or_side);
        }
        let ghost ns = self.nodes@;
        if same == p && self.width(other).bits() <= self.width(p).bits() {
            let ghost m = self.width(p).mask();
            let n = self.not_within(p, fuel - 1);
            let r = self.bin_within(BinOp::And, n, other, fuel - 1);
            proof {
                assert forall|e: Env| #[trigger]
                    eval(self.nodes@, r, e) == bin_at(self.nodes@, BinOp::Xor, p, q, e) by {
                    lemma_complement(eval(ns, p, e), eval(ns, other, e), m);
                }
            }
            return Some(r);
        }
        None
    }

    fn xor_or(&mut self, p: Ref, q: Ref, fuel: u32) -> (r: Option<Ref>)
    requires
        old(self).ready(p, q),
        fuel > 0,
    ensures
            follows(
                (old(self).nodes@, old(self).trunc_depth),
                final(self).nodes@,
                r,
                xor_or_rule(old(self).nodes@, p, q),
                (fuel - 1) as nat,
            ),
        final(self).rewrote(*old(self), r, BinOp::Xor, p, q),
    decreases fuel, 1int,
    {
        proof {
            reveal(xor_or_rule);
        }
        if let Some((x, y)) = self.halves(q, BinOp::Or) {
            let first = self.xor_or_of(p, q, x, y, fuel);
            if first.is_some() {
                return first;
            }
            return self.xor_or_of(p, q, y, x, fuel);
        }
        None
    }

    /// `(A & m) ^ (B & m) == (A ^ B) & m` for a constant mask, with the arms given. A
    /// constant is often spelled `(~x & m) ^ (x & m)`, where the two halves are
    /// individually unknown but complementary.
    fn xor_shared_of(
        &mut self,
        a: Ref,
        b: Ref,
        ax: Ref,
        am: Ref,
        bx: Ref,
        bm: Ref,
        fuel: u32,
    ) -> (r: Option<Ref>)
    requires
        old(self).ready(a, b),
        fuel > 0,
        made_of(old(self).nodes@, a, BinOp::And, ax, am),
        made_of(old(self).nodes@, b, BinOp::And, bx, bm),
        old(self).ready(ax, bx),
        old(self).holds(am),
    ensures
            follows(
                (old(self).nodes@, old(self).trunc_depth),
                final(self).nodes@,
                r,
                xor_shared_side(old(self).nodes@, ax, am, bx, bm),
                (fuel - 1) as nat,
            ),
        final(self).rewrote(*old(self), r, BinOp::Xor, a, b),
    decreases fuel, 0int,
    {
        proof {
            reveal(xor_shared_side);
        }
        let ghost ns = self.nodes@;
        if am == bm && self.is_const(am) {
            let inner = self.bin_within(BinOp::Xor, ax, bx, fuel - 1);
            let ghost mid = self.nodes@;
            let r = self.bin_within(BinOp::And, inner, am, fuel - 1);
            proof {
                assert forall|e: Env| #[trigger]
                    eval(self.nodes@, r, e) == bin_at(self.nodes@, BinOp::Xor, a, b, e) by {
                    lemma_bitwise(eval(ns, ax, e), eval(ns, bx, e), eval(ns, am, e));
                    assert(eval(self.nodes@, inner, e) == eval(mid, inner, e));
                    assert(eval(mid, am, e) == eval(ns, am, e));
                    assert(eval(mid, ax, e) == eval(ns, ax, e));
                    assert(eval(mid, bx, e) == eval(ns, bx, e));
                }
            }
            return Some(r);
        }
        None
    }

    fn xor_shared(&mut self, a: Ref, b: Ref, fuel: u32) -> (r: Option<Ref>)
    requires
        old(self).ready(a, b),
        fuel > 0,
    ensures
            follows(
                (old(self).nodes@, old(self).trunc_depth),
                final(self).nodes@,
                r,
                xor_shared_rule(old(self).nodes@, a, b),
                (fuel - 1) as nat,
            ),
        final(self).rewrote(*old(self), r, BinOp::Xor, a, b),
    decreases fuel, 1int,
    {
        proof {
            reveal(xor_shared_rule);
        }
        if let (Some((a1, m1)), Some((b1, m2))) = (
            self.halves(a, BinOp::And),
            self.halves(b, BinOp::And),
        ) {
            let r = self.xor_shared_of(a, b, a1, m1, b1, m2, fuel);
            if r.is_some() {
                return r;
            }
            let r = self.xor_shared_of(a, b, a1, m1, m2, b1, fuel);
            if r.is_some() {
                return r;
            }
            let r = self.xor_shared_of(a, b, m1, a1, b1, m2, fuel);
            if r.is_some() {
                return r;
            }
            return self.xor_shared_of(a, b, m1, a1, m2, b1, fuel);
        }
        None
    }

    /// `x ^ 0 == x`, `x ^ -1 == ~x` and `x ^ ~x == -1`.
    fn xor_trivial(&mut self, a: Ref, b: Ref, width: Width, fuel: u32) -> (r: Option<Ref>)
    requires
        old(self).ready(a, b),
        fuel > 0,
        width == old(self).width(a).wider(old(self).width(b)),
    ensures
            follows(
                (old(self).nodes@, old(self).trunc_depth),
                final(self).nodes@,
                r,
                xor_trivial_rule(old(self).nodes@, a, b, width),
                (fuel - 1) as nat,
            ),
        final(self).rewrote(*old(self), r, BinOp::Xor, a, b),
    decreases fuel, 0int,
    {
        proof {
            reveal(xor_trivial_rule);
        }
        let ghost ns = self.nodes@;
        let ghost m = width.mask();
        proof {
            lemma_fits(ns, a);
            lemma_mask(m, m);
        }
        let cb = self.as_const(b);
        if cb == Some(0) {
            proof {
                assert forall|e: Env| #[trigger]
                    eval(self.nodes@, a, e) == bin_at(self.nodes@, BinOp::Xor, a, b, e) by {
                    lemma_bitwise(eval(ns, a, e), 0, 0);
                }
            }
            return Some(a);
        }
        if cb == Some(width.mask()) && self.width(a) == width {
            let r = self.not_within(a, fuel - 1);
            proof {
                assert forall|e: Env| #[trigger]
                    eval(self.nodes@, r, e) == bin_at(self.nodes@, BinOp::Xor, a, b, e) by {
                    lemma_complement(eval(ns, a, e), 0, m);
                }
            }
            return Some(r);
        }
        if self.is_complement(a, b) {
            let r = self.constant(width.mask(), width);
            proof {
                assert forall|e: Env| #[trigger]
                    eval(self.nodes@, r, e) == bin_at(self.nodes@, BinOp::Xor, a, b, e) by {
                    lemma_complement(eval(ns, a, e), 0, m);
                    assert(eval(ns, b, e) == !eval(ns, a, e) & m);
                }
            }
            return Some(r);
        }
        None
    }

    /// `(A | c1) ^ c2 == (A & ~c1) ^ (c1 ^ c2)` where c2 covers c1, and
    /// `(A ^ c1) ^ c2 == A ^ (c1 ^ c2)`. Both gather constants in XOR chains.
    #[verifier::rlimit(60)]
    fn xor_nested(&mut self, a: Ref, b: Ref, c2: u64, width: Width, fuel: u32) -> (r: Option<Ref>)
    requires
        old(self).ready(a, b),
        fuel > 0,
        width == old(self).width(a).wider(old(self).width(b)),
        const_of(old(self).nodes@, b) == Some(c2),
    ensures
            follows(
                (old(self).nodes@, old(self).trunc_depth),
                final(self).nodes@,
                r,
                xor_nested_rule(old(self).nodes@, a, c2, width),
                (fuel - 1) as nat,
            ),
        final(self).rewrote(*old(self), r, BinOp::Xor, a, b),
    decreases fuel, 0int,
    {
        proof {
            reveal(xor_nested_rule);
        }
        let ghost ns = self.nodes@;
        let ghost m = width.mask();
        let cb = self.as_const(b);
        if let Some((BinOp::Or, x, y)) = self.as_bin(a) {
            if let Some(c1) = self.as_const(y) {
                if c1 & c2 == c1 {
                    let keep = self.constant(!c1, width);
                    let cleared = self.bin_within(BinOp::And, x, keep, fuel - 1);
                    let ghost mid = self.nodes@;
                    let k = self.constant(c1 ^ c2, width);
                    let ghost mid2 = self.nodes@;
                    let r = self.bin_within(BinOp::Xor, cleared, k, fuel - 1);
                    proof {
                        lemma_bitwise_fit(c1, c2, m);
                        lemma_mask(c1 ^ c2, m);
                    }
                    proof {
                        assert forall|e: Env| #[trigger]
                            eval(self.nodes@, r, e) == bin_at(self.nodes@, BinOp::Xor, a, b, e) by {
                            assert(eval(ns, b, e) == c2);
                            assert(eval(ns, y, e) == c1);
                            lemma_bitwise(eval(ns, x, e), c1, c2);
                            lemma_complement(eval(ns, x, e), c1, m);
                            lemma_clear_masked(eval(ns, x, e), c1, m);
                            assert(eval(mid, cleared, e) == eval(ns, x, e) & (!c1 & m));
                            assert(eval(mid2, cleared, e) == eval(mid, cleared, e));
                            assert(eval(self.nodes@, cleared, e) == eval(mid2, cleared, e));
                            assert(eval(self.nodes@, k, e) == eval(mid2, k, e));
                        }
                    }
                    return Some(r);
                }
            }
        }
        if let Some((BinOp::Xor, x, y)) = self.as_bin(a) {
            if let Some(c1) = self.as_const(y) {
                let k = self.constant(c1 ^ c2, width);
                let r = self.bin_within(BinOp::Xor, x, k, fuel - 1);
                proof {
                    lemma_bitwise_fit(c1, c2, m);
                    lemma_mask(c1 ^ c2, m);
                }
                proof {
                    assert forall|e: Env| #[trigger]
                        eval(self.nodes@, r, e) == bin_at(self.nodes@, BinOp::Xor, a, b, e) by {
                        assert(eval(ns, b, e) == c2);
                        assert(eval(ns, y, e) == c1);
                        lemma_bitwise(eval(ns, x, e), c1, c2);
                    }
                }
                return Some(r);
            }
        }
        None
    }

    /// `A ^ (A & B) == A & ~B`: the AND selects a subset of A's bits, so XORing removes
    /// exactly those. The complement has to reach as far as `A` does.
    fn xor_and_of(&mut self, p: Ref, q: Ref, same: Ref, other: Ref, fuel: u32) -> (r: Option<Ref>)
    requires
        old(self).ready(p, q),
        fuel > 0,
        made_of(old(self).nodes@, p, BinOp::And, same, other),
        old(self).holds(other),
    ensures
            follows(
                (old(self).nodes@, old(self).trunc_depth),
                final(self).nodes@,
                r,
                xor_and_side(old(self).nodes@, q, same, other),
                (fuel - 1) as nat,
            ),
        final(self).rewrote(*old(self), r, BinOp::Xor, p, q),
    decreases fuel, 0int,
    {
        proof {
            reveal(xor_and_side);
        }
        let ghost ns = self.nodes@;
        if same == q && self.width(other).bits() >= self.width(q).bits() {
            let ghost m = self.width(other).mask();
            proof {
                lemma_fits(ns, q);
            }
            let n = self.not_within(other, fuel - 1);
            let r = self.bin_within(BinOp::And, q, n, fuel - 1);
            proof {
                assert forall|e: Env| #[trigger]
                    eval(self.nodes@, r, e) == bin_at(self.nodes@, BinOp::Xor, p, q, e) by {
                    lemma_complement(eval(ns, q, e), eval(ns, other, e), m);
                    lemma_bitwise(eval(ns, p, e), eval(ns, q, e), 0);
                }
            }
            return Some(r);
        }
        None
    }

    fn xor_and(&mut self, p: Ref, q: Ref, fuel: u32) -> (r: Option<Ref>)
    requires
        old(self).ready(p, q),
        fuel > 0,
    ensures
            follows(
                (old(self).nodes@, old(self).trunc_depth),
                final(self).nodes@,
                r,
                xor_and_rule(old(self).nodes@, p, q),
                (fuel - 1) as nat,
            ),
        final(self).rewrote(*old(self), r, BinOp::Xor, p, q),
    decreases fuel, 1int,
    {
        proof {
            reveal(xor_and_rule);
        }
        if let Some((x, y)) = self.halves(p, BinOp::And) {
            let first = self.xor_and_of(p, q, x, y, fuel);
            if first.is_some() {
                return first;
            }
            return self.xor_and_of(p, q, y, x, fuel);
        }
        None
    }

    /// `(a ^ b) ^ b == a`.
    fn xor_cancel(&mut self, p: Ref, q: Ref) -> (r: Option<Ref>)
    requires
        old(self).ready(p, q),
    ensures
            settled(old(self).nodes@, final(self).nodes@, r, xor_cancel_rule(old(self).nodes@, p, q)),
        final(self).rewrote(*old(self), r, BinOp::Xor, p, q),
    {
        proof {
            reveal(xor_cancel_rule);
        }
        let ghost ns = self.nodes@;
        if let Some((x, y)) = self.halves(p, BinOp::Xor) {
            if x == q {
                proof {
                    assert forall|e: Env| #[trigger]
                        eval(self.nodes@, y, e) == bin_at(self.nodes@, BinOp::Xor, p, q, e) by {
                        lemma_bitwise(eval(ns, y, e), eval(ns, x, e), 0);
                    }
                }
                return Some(y);
            }
            if y == q {
                proof {
                    assert forall|e: Env| #[trigger]
                        eval(self.nodes@, x, e) == bin_at(self.nodes@, BinOp::Xor, p, q, e) by {
                        lemma_bitwise(eval(ns, x, e), eval(ns, y, e), 0);
                    }
                }
                return Some(x);
            }
        }
        None
    }

    /// Rules for `a ^ b` over the shapes of both operands.
    fn xor_structural(&mut self, a: Ref, b: Ref, fuel: u32) -> (r: Option<Ref>)
    requires
        old(self).ready(a, b),
        fuel > 0,
    ensures
            follows(
                (old(self).nodes@, old(self).trunc_depth),
                final(self).nodes@,
                r,
                xor_structural_rule(old(self).nodes@, a, b),
                (fuel - 1) as nat,
            ),
        final(self).rewrote(*old(self), r, BinOp::Xor, a, b),
    decreases fuel, 2int,
    {
        proof {
            reveal(xor_structural_rule);
        }
        let r = self.xor_of_parts(a, b, fuel);
        if r.is_some() {
            return r;
        }
        if let Some(r) = self.xor_of_parts(b, a, fuel) {
            proof {
                lemma_swap(self.nodes@, r, BinOp::Xor, a, b);
            }
            return Some(r);
        }
        let r = self.xor_of_union(a, b, fuel);
        if r.is_some() {
            return r;
        }
        if let Some(r) = self.xor_of_union(b, a, fuel) {
            proof {
                lemma_swap(self.nodes@, r, BinOp::Xor, a, b);
            }
            return Some(r);
        }
        let r = self.xor_or(a, b, fuel);
        if r.is_some() {
            return r;
        }
        if let Some(r) = self.xor_or(b, a, fuel) {
            proof {
                lemma_swap(self.nodes@, r, BinOp::Xor, a, b);
            }
            return Some(r);
        }
        self.xor_shared(a, b, fuel)
    }

    /// All rules for `a ^ b`.
    pub(crate) fn simplify_xor(&mut self, a: Ref, b: Ref, width: Width, fuel: u32) -> (r: Option<Ref>)
    requires
        old(self).ready(a, b),
        fuel > 0,
        width == old(self).width(a).wider(old(self).width(b)),
    ensures
            follows(
                (old(self).nodes@, old(self).trunc_depth),
                final(self).nodes@,
                r,
                xor_rule(old(self).nodes@, a, b, width),
                (fuel - 1) as nat,
            ),
        final(self).rewrote(*old(self), r, BinOp::Xor, a, b),
    decreases fuel, 3int,
    {
        proof {
            reveal(xor_rule);
        }
        let ghost ns = self.nodes@;
        if a == b {
            let r = self.constant(0, width);
            proof {
                assert forall|e: Env| #[trigger]
                    eval(self.nodes@, r, e) == bin_at(self.nodes@, BinOp::Xor, a, b, e) by {
                    lemma_bitwise(eval(ns, a, e), 0, 0);
                    lemma_mask(0, width.mask());
                }
            }
            return Some(r);
        }
        let r = self.xor_structural(a, b, fuel);
        if r.is_some() {
            return r;
        }
        let r = self.xor_trivial(a, b, width, fuel);
        if r.is_some() {
            return r;
        }
        if let Some(c) = self.as_const(b) {
            let r = self.xor_nested(a, b, c, width, fuel);
            if r.is_some() {
                return r;
            }
        }
        let r = self.xor_and(a, b, fuel);
        if r.is_some() {
            return r;
        }
        if let Some(r) = self.xor_and(b, a, fuel) {
            proof {
                lemma_swap(self.nodes@, r, BinOp::Xor, a, b);
            }
            return Some(r);
        }
        let r = self.xor_cancel(a, b);
        if r.is_some() {
            return r;
        }
        if let Some(r) = self.xor_cancel(b, a) {
            proof {
                lemma_swap(self.nodes@, r, BinOp::Xor, a, b);
            }
            return Some(r);
        }
        None
    }
}

/// Clearing bits of a value that fits needs the complement only inside the mask.
proof fn lemma_clear_masked(x: u64, c: u64, m: u64)
    requires
        crate::ir::fold::is_mask(m),
        x <= m,
    ensures
        x & (!c & m) == x & !c,
{
    lemma_complement(x, c, m);
    lemma_bitwise(x, !c, m);
    lemma_bitwise(x, m, !c);
    lemma_bitwise(!c, m, x);
}

} // verus!
