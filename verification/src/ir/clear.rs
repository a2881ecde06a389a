//! Expressions that are not computed from certain parameters.

use crate::ir::expr::{extends, has, node_same, op_of, operands_before, width_of, Node, Op, Ref};
use crate::ir::rules::{
    any_of, bit_term, factors, found, live_terms, literal, or_terms, recorded, shared_from, split, Term,
};
use crate::ir::value::{BinOp, UnOp, Width};
use crate::ir::walk::{depends, lemma_members};
use vstd::prelude::*;

verus! {

/// Whether a node is there, and neither it nor what it is computed from is one of the keys.
#[verifier::opaque]
pub open spec fn clear(ns: Seq<Node>, r: Ref, ks: Set<usize>) -> bool
    decreases r.idx,
{
    if has(ns, r) && operands_before(op_of(ns, r), r.idx as int) && !ks.contains(r.idx) {
        match op_of(ns, r) {
            Op::Load(a, _) | Op::Un(_, a) | Op::Zext(a) | Op::Sext(a) | Op::Trunc(a) => clear(ns, a, ks),
            Op::Bin(_, a, b) => clear(ns, a, ks) && clear(ns, b, ks),
            Op::Select(c, a, b) => clear(ns, c, ks) && clear(ns, a, ks) && clear(ns, b, ks),
            _ => true,
        }
    } else {
        false
    }
}

/// Whether nodes come after what they are computed from, and the keys are parameters.
pub open spec fn sorted(ns: Seq<Node>, ks: Set<usize>) -> bool {
    &&& ns.len() <= usize::MAX
    &&& forall|i: int| 0 <= i < ns.len() ==> operands_before((#[trigger] ns[i]).op, i)
    &&& forall|k: usize| #[trigger] ks.contains(k) ==> k < ns.len() && ns[k as int].op is Param
}

/// Whether every node a term names is clear of the keys.
pub open spec fn term_clear(ns: Seq<Node>, t: Term, ks: Set<usize>) -> bool
    decreases t,
{
    match t {
        Term::Is(r) => clear(ns, r, ks),
        Term::Lit(_, _) => true,
        Term::Not(x) => term_clear(ns, *x, ks),
        Term::Pair(_, x, y) => term_clear(ns, *x, ks) && term_clear(ns, *y, ks),
        Term::Fit(x, _) => term_clear(ns, *x, ks),
    }
}

pub open spec fn term_clear_opt(ns: Seq<Node>, t: Option<Term>, ks: Set<usize>) -> bool {
    t matches Some(x) ==> term_clear(ns, x, ks)
}

/// What a clear node is computed from is clear.
pub proof fn lemma_parts(ns: Seq<Node>, ks: Set<usize>)
    ensures
        forall|r: Ref, op: BinOp|
            clear(ns, r, ks) ==> (#[trigger] split(ns, r, op) matches Some((x, y)) ==> clear(ns, x, ks) && clear(
                ns,
                y,
                ks,
            )),
        forall|r: Ref|
            #![trigger clear(ns, r, ks), op_of(ns, r)]
            clear(ns, r, ks) ==> match op_of(ns, r) {
                Op::Load(a, _) | Op::Un(_, a) | Op::Zext(a) | Op::Sext(a) | Op::Trunc(a) => clear(ns, a, ks),
                Op::Bin(_, a, b) => clear(ns, a, ks) && clear(ns, b, ks),
                Op::Select(c, a, b) => clear(ns, c, ks) && clear(ns, a, ks) && clear(ns, b, ks),
                _ => true,
            },
{
    reveal_with_fuel(clear, 1);
}

/// A clear node stays clear when nodes are added.
pub proof fn lemma_clear_more(ns: Seq<Node>, more: Seq<Node>, r: Ref, ks: Set<usize>)
    requires
        extends(ns, more),
        clear(ns, r, ks),
    ensures
        clear(more, r, ks),
    decreases r.idx,
{
    reveal_with_fuel(clear, 1);
    assert(more[r.idx as int] == ns[r.idx as int]);
    match op_of(ns, r) {
        Op::Load(a, _) | Op::Un(_, a) | Op::Zext(a) | Op::Sext(a) | Op::Trunc(a) => {
            lemma_clear_more(ns, more, a, ks);
        },
        Op::Bin(_, a, b) => {
            lemma_clear_more(ns, more, a, ks);
            lemma_clear_more(ns, more, b, ks);
        },
        Op::Select(c, a, b) => {
            lemma_clear_more(ns, more, c, ks);
            lemma_clear_more(ns, more, a, ks);
            lemma_clear_more(ns, more, b, ks);
        },
        _ => {},
    }
}

/// Whether everything an operation reads is clear, and it is no parameter.
pub open spec fn reads_clear(ns: Seq<Node>, op: Op, ks: Set<usize>) -> bool {
    match op {
        Op::Load(a, _) | Op::Un(_, a) | Op::Zext(a) | Op::Sext(a) | Op::Trunc(a) => clear(ns, a, ks),
        Op::Bin(_, a, b) => clear(ns, a, ks) && clear(ns, b, ks),
        Op::Select(c, a, b) => clear(ns, c, ks) && clear(ns, a, ks) && clear(ns, b, ks),
        Op::Param(_, _) => false,
        _ => true,
    }
}

/// A node whose operation reads what is clear is clear.
pub proof fn lemma_clear_at(ns: Seq<Node>, r: Ref, ks: Set<usize>)
    requires
        sorted(ns, ks),
        has(ns, r),
        reads_clear(ns, op_of(ns, r), ks),
    ensures
        clear(ns, r, ks),
{
    reveal_with_fuel(clear, 1);
    assert(operands_before(ns[r.idx as int].op, r.idx as int));
}

/// A computation that is found is where it says.
proof fn lemma_found(ns: Seq<Node>, node: Node, ks: Set<usize>)
    requires
        sorted(ns, ks),
        reads_clear(ns, node.op, ks),
    ensures
        found(ns, node) matches Some(r) ==> clear(ns, r, ks),
{
    if found(ns, node) is Some {
        let i = choose|i: int| 0 <= i < ns.len() && node_same(#[trigger] ns[i], node);
        let r = found(ns, node)->0;
        assert(r.idx == i);
        lemma_clear_at(ns, r, ks);
    }
}

/// What a step from one arena to the next leads to: nothing is lost, and where the step starts
/// from what is clear it ends there.
pub open spec fn leads(ns: Seq<Node>, out: (Seq<Node>, Ref), from: bool, ks: Set<usize>) -> bool {
    &&& extends(ns, out.0)
    &&& sorted(ns, ks) && from && out.0.len() <= usize::MAX ==> sorted(out.0, ks) && clear(out.0, out.1, ks)
}

pub proof fn lemma_recorded(ns: Seq<Node>, node: Node, ks: Set<usize>)
    ensures
        leads(ns, recorded(ns, node), reads_clear(ns, node.op, ks), ks),
{
    let out = recorded(ns, node);
    if sorted(ns, ks) && reads_clear(ns, node.op, ks) && out.0.len() <= usize::MAX {
        lemma_found(ns, node, ks);
        if found(ns, node) is None {
            reveal_with_fuel(clear, 1);
            assert forall|i: int| 0 <= i < out.0.len() implies operands_before((#[trigger] out.0[i]).op, i) by {
                if i < ns.len() {
                    assert(operands_before(ns[i].op, i));
                }
            }
            match node.op {
                Op::Load(a, _) | Op::Un(_, a) | Op::Zext(a) | Op::Sext(a) | Op::Trunc(a) => {
                    lemma_clear_more(ns, out.0, a, ks);
                },
                Op::Bin(_, a, b) => {
                    lemma_clear_more(ns, out.0, a, ks);
                    lemma_clear_more(ns, out.0, b, ks);
                },
                Op::Select(c, a, b) => {
                    lemma_clear_more(ns, out.0, c, ks);
                    lemma_clear_more(ns, out.0, a, ks);
                    lemma_clear_more(ns, out.0, b, ks);
                },
                _ => {},
            }
            lemma_clear_at(out.0, out.1, ks);
        }
    }
}

pub proof fn lemma_literal(ns: Seq<Node>, value: u64, width: Width, ks: Set<usize>)
    ensures
        leads(ns, literal(ns, value, width), true, ks),
{
    lemma_recorded(ns, Node { op: Op::Const(value & width.mask()), width }, ks);
}

/// The bit of a clear node is clear.
pub proof fn lemma_bit_clear(ns: Seq<Node>, r: Ref, k: u64, ks: Set<usize>)
    requires
        clear(ns, r, ks),
    ensures
        term_clear_opt(ns, bit_term(ns, r, k), ks),
    decreases r.idx,
{
    lemma_parts(ns, ks);
    match op_of(ns, r) {
        Op::Bin(BinOp::Or, x, y) => {
            if x.idx < r.idx {
                lemma_bit_clear(ns, x, k, ks);
            }
            if y.idx < r.idx {
                lemma_bit_clear(ns, y, k, ks);
            }
        },
        Op::Bin(BinOp::Shl, v, sh) => {
            if v.idx < r.idx && crate::ir::expr::const_of(ns, sh) is Some {
                let s = crate::ir::fold::shift_count_spec(
                    crate::ir::expr::const_of(ns, sh)->0,
                    width_of(ns, r),
                );
                lemma_bit_clear(ns, v, (k - s) as u64, ks);
            }
        },
        Op::Bin(BinOp::Shr, v, sh) => {
            if v.idx < r.idx && crate::ir::expr::const_of(ns, sh) is Some {
                let s = crate::ir::fold::shift_count_spec(
                    crate::ir::expr::const_of(ns, sh)->0,
                    width_of(ns, r),
                );
                lemma_bit_clear(ns, v, (k + s) as u64, ks);
            }
        },
        Op::Bin(BinOp::And, x, _) => {
            if x.idx < r.idx {
                lemma_bit_clear(ns, x, k, ks);
            }
        },
        Op::Zext(v) | Op::Trunc(v) => {
            if v.idx < r.idx {
                lemma_bit_clear(ns, v, k, ks);
            }
        },
        _ => {},
    }
}

pub open spec fn all_clear(ns: Seq<Node>, s: Seq<Ref>, ks: Set<usize>) -> bool {
    forall|i: int| 0 <= i < s.len() ==> clear(ns, #[trigger] s[i], ks)
}

/// The factors of a clear node are clear.
pub proof fn lemma_factors_clear(ns: Seq<Node>, r: Ref, negated: bool, depth: nat, ks: Set<usize>)
    requires
        sorted(ns, ks),
        clear(ns, r, ks),
    ensures
        all_clear(ns, factors(ns, r, negated, depth).0, ks),
    decreases depth,
{
    lemma_parts(ns, ks);
    if depth > 0 {
        let d = (depth - 1) as nat;
        if !negated && split(ns, r, BinOp::And) is Some {
            let (x, y) = split(ns, r, BinOp::And)->0;
            lemma_factors_clear(ns, x, false, d, ks);
            lemma_factors_clear(ns, y, false, d, ks);
        } else if negated && split(ns, r, BinOp::Or) is Some && (width_of(ns, (split(ns, r, BinOp::Or)->0).0)
            == width_of(ns, (split(ns, r, BinOp::Or)->0).1)) {
            let (x, y) = split(ns, r, BinOp::Or)->0;
            lemma_factors_clear(ns, x, true, d, ks);
            lemma_factors_clear(ns, y, true, d, ks);
        } else {
            match op_of(ns, r) {
                Op::Un(UnOp::Not, inner) => {
                    lemma_factors_clear(ns, inner, !negated, d, ks);
                },
                _ => {
                    let w = width_of(ns, r);
                    lemma_found(ns, Node { op: Op::Un(UnOp::Not, r), width: w }, ks);
                    if let Some(c) = crate::ir::expr::const_of(ns, r) {
                        lemma_found(
                            ns,
                            Node { op: Op::Const((!c & w.mask()) & w.mask()), width: w },
                            ks,
                        );
                    }
                },
            }
        }
    }
}

pub proof fn lemma_shared_clear(
    ns: Seq<Node>,
    fa: Seq<Ref>,
    fb: Seq<Ref>,
    width: Width,
    i: int,
    ks: Set<usize>,
)
    requires
        all_clear(ns, fa, ks),
    ensures
        term_clear_opt(ns, shared_from(ns, fa, fb, width, i), ks),
    decreases fa.len() - i,
{
    if 0 <= i < fa.len() {
        assert(clear(ns, fa[i], ks));
        lemma_shared_clear(ns, fa, fb, width, i + 1, ks);
    }
}

pub proof fn lemma_terms_clear(ns: Seq<Node>, r: Ref, depth: nat, ks: Set<usize>)
    requires
        clear(ns, r, ks),
    ensures
        all_clear(ns, or_terms(ns, r, depth), ks),
    decreases depth,
{
    lemma_parts(ns, ks);
    if depth > 0 {
        if let Op::Bin(BinOp::Or, x, y) = op_of(ns, r) {
            lemma_terms_clear(ns, x, (depth - 1) as nat, ks);
            lemma_terms_clear(ns, y, (depth - 1) as nat, ks);
        }
    }
}

pub proof fn lemma_live_clear(ns: Seq<Node>, terms: Seq<Ref>, c: u64, k: int, ks: Set<usize>)
    requires
        all_clear(ns, terms, ks),
        k <= terms.len(),
    ensures
        all_clear(ns, live_terms(ns, terms, c, k), ks),
    decreases k,
{
    if k > 0 {
        lemma_live_clear(ns, terms, c, k - 1, ks);
        assert(clear(ns, terms[k - 1], ks));
    }
}

pub proof fn lemma_any_clear(ns: Seq<Node>, s: Seq<Ref>, k: int, ks: Set<usize>)
    requires
        all_clear(ns, s, ks),
        s.len() > 0,
        k <= s.len(),
    ensures
        term_clear(ns, any_of(s, k), ks),
    decreases k,
{
    reveal_with_fuel(term_clear, 3);
    assert(clear(ns, s[0], ks));
    if k > 1 {
        lemma_any_clear(ns, s, k - 1, ks);
        assert(clear(ns, s[k - 1], ks));
    }
}

/// What is clear of the keys depends on none of them.
pub proof fn lemma_clear_depends(ns: Seq<Node>, r: Ref, x: Ref, ks: Set<usize>)
    requires
        clear(ns, r, ks),
        depends(ns, r, x),
    ensures
        !ks.contains(x.idx),
    decreases r.idx,
{
    reveal_with_fuel(clear, 1);
    if x != r {
        let c = choose|c: Ref|
            #![trigger crate::ir::expr::operands(op_of(ns, r)).contains(c)]
            crate::ir::expr::operands(op_of(ns, r)).contains(c) && c.idx < r.idx && depends(ns, c, x);
        let s = crate::ir::expr::operands(op_of(ns, r));
        let i = choose|i: int| 0 <= i < s.len() && s[i] == c;
        assert(clear(ns, c, ks));
        lemma_clear_depends(ns, c, x, ks);
    }
}

/// What depends on no key is clear of them.
pub proof fn lemma_depends_clear(ns: Seq<Node>, r: Ref, ks: Set<usize>)
    requires
        sorted(ns, ks),
        has(ns, r),
        forall|x: Ref| #[trigger] depends(ns, r, x) ==> !ks.contains(x.idx),
    ensures
        clear(ns, r, ks),
    decreases r.idx,
{
    reveal_with_fuel(clear, 1);
    assert(depends(ns, r, r));
    assert(operands_before(ns[r.idx as int].op, r.idx as int));
    lemma_members(op_of(ns, r));
    assert forall|c: Ref, x: Ref|
        crate::ir::expr::operands(op_of(ns, r)).contains(c) && c.idx < r.idx && #[trigger] depends(ns, c, x) implies !ks.contains(
        x.idx,
    ) by {
        assert(depends(ns, r, x));
    }
    match op_of(ns, r) {
        Op::Load(a, _) | Op::Un(_, a) | Op::Zext(a) | Op::Sext(a) | Op::Trunc(a) => {
            lemma_depends_clear(ns, a, ks);
        },
        Op::Bin(_, a, b) => {
            lemma_depends_clear(ns, a, ks);
            lemma_depends_clear(ns, b, ks);
        },
        Op::Select(c, a, b) => {
            lemma_depends_clear(ns, c, ks);
            lemma_depends_clear(ns, a, ks);
            lemma_depends_clear(ns, b, ks);
        },
        _ => {},
    }
}

} // verus!
