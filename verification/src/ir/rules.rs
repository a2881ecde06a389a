//! The rewrite rules as a table: what each one looks for and what it puts in its place, and
//! the node every constructor makes of its operands.
//!
//! A rule sees the nodes as they are and names a [`Term`]; building the term is what changes
//! the arena.

use crate::ir::expr::{
    bin_width, const_of, known_one_bits, known_zero_bits, node_same, op_of, width_of, BinOp, Node, Op,
    Ref, UnOp, Width, TRUNC_DISTRIBUTE_DEPTH,
};
use crate::ir::simplify::{lemma_commutes, REWRITE_DEPTH};
use crate::ir::fold::{bin_fold, shift_count_spec, sign_extend_spec, un_val, wadd, wsub};
use vstd::prelude::*;

verus! {

/// What a rule puts in the place of an expression.
pub ghost enum Term {
    /// A node that is already there.
    Is(Ref),
    /// A constant.
    Lit(u64, Width),
    /// The complement of a term.
    Not(Box<Term>),
    /// An operator over two terms.
    Pair(BinOp, Box<Term>, Box<Term>),
    /// A term, cut where it is wider.
    Fit(Box<Term>, Width),
}

pub open spec fn pair(op: BinOp, x: Term, y: Term) -> Term {
    Term::Pair(op, Box::new(x), Box::new(y))
}

/// An operator over two nodes.
pub open spec fn over(op: BinOp, x: Ref, y: Ref) -> Option<Term> {
    Some(pair(op, Term::Is(x), Term::Is(y)))
}

/// An operator over a node and a constant.
pub open spec fn over_lit(op: BinOp, x: Ref, c: u64, w: Width) -> Option<Term> {
    Some(pair(op, Term::Is(x), Term::Lit(c, w)))
}

/// A node without the bits of another.
pub open spec fn without(x: Ref, y: Ref) -> Option<Term> {
    Some(pair(BinOp::And, Term::Is(x), Term::Not(Box::new(Term::Is(y)))))
}

/// The first rule that applies.
pub open spec fn either(first: Option<Term>, next: Option<Term>) -> Option<Term> {
    if first is Some {
        first
    } else {
        next
    }
}

/// The operands of a node, where it is the operator asked for.
pub open spec fn split(ns: Seq<Node>, r: Ref, op: BinOp) -> Option<(Ref, Ref)> {
    match op_of(ns, r) {
        Op::Bin(o, x, y) => if o == op {
            Some((x, y))
        } else {
            None
        },
        _ => None,
    }
}

/// Whether one node is written as the complement of the other.
pub open spec fn opposite(ns: Seq<Node>, a: Ref, b: Ref) -> bool {
    op_of(ns, b) == Op::Un(UnOp::Not, a) || op_of(ns, a) == Op::Un(UnOp::Not, b)
}

/// Whether two pairs hold the same two nodes.
pub open spec fn alike(a1: Ref, b1: Ref, a2: Ref, b2: Ref) -> bool {
    (a1 == a2 && b1 == b2) || (a1 == b2 && b1 == a2)
}

/// The leaves of a tree of disjunctions down to a depth, from left to right.
pub open spec fn or_terms(ns: Seq<Node>, r: Ref, depth: nat) -> Seq<Ref>
    decreases depth,
{
    if depth == 0 {
        seq![r]
    } else {
        match op_of(ns, r) {
            Op::Bin(BinOp::Or, x, y) => or_terms(ns, x, (depth - 1) as nat) + or_terms(
                ns,
                y,
                (depth - 1) as nat,
            ),
            _ => seq![r],
        }
    }
}

/// `x + 0 == x`, `x + (-x) == 0` and `x + ~x == -1`.
#[verifier::opaque]
pub open spec fn add_trivial_rule(ns: Seq<Node>, a: Ref, b: Ref, width: Width) -> Option<Term> {
    if const_of(ns, b) == Some(0u64) {
        Some(Term::Is(a))
    } else if op_of(ns, b) == Op::Un(UnOp::Neg, a) {
        Some(Term::Lit(0, width))
    } else if opposite(ns, a, b) {
        Some(Term::Lit(width.mask(), width))
    } else {
        None
    }
}

/// `A + B == A | B` when their set bits cannot overlap.
#[verifier::opaque]
pub open spec fn add_disjoint_rule(ns: Seq<Node>, a: Ref, b: Ref, width: Width) -> Option<Term> {
    if (!known_zero_bits(ns, a) & !known_zero_bits(ns, b) & width.mask()) == 0 {
        over(BinOp::Or, a, b)
    } else {
        None
    }
}

/// `(A|B) + (A&B) == A + B` and `(A^B) + (A&B) == A | B`.
#[verifier::opaque]
pub open spec fn add_of_parts_rule(ns: Seq<Node>, a: Ref, b: Ref) -> Option<Term> {
    match (op_of(ns, a), op_of(ns, b)) {
        (Op::Bin(o1, x1, y1), Op::Bin(o2, x2, y2)) => if !alike(x1, y1, x2, y2) {
            None
        } else if (o1 == BinOp::Or && o2 == BinOp::And) || (o1 == BinOp::And && o2 == BinOp::Or) {
            over(BinOp::Add, x1, y1)
        } else if (o1 == BinOp::Xor && o2 == BinOp::And) || (o1 == BinOp::And && o2 == BinOp::Xor) {
            over(BinOp::Or, x1, y1)
        } else {
            None
        },
        _ => None,
    }
}

/// `((A|B)^A) + A == A | B`, from one side.
#[verifier::opaque]
pub open spec fn add_or_remainder_side(ns: Seq<Node>, q: Ref, or_side: Ref, a_side: Ref) -> Option<Term> {
    if a_side == q {
        match split(ns, or_side, BinOp::Or) {
            Some((u, v)) => if u == q || v == q {
                Some(Term::Is(or_side))
            } else {
                None
            },
            None => None,
        }
    } else {
        None
    }
}

/// `((A|B)^A) + A == A | B`.
#[verifier::opaque]
pub open spec fn add_or_remainder_rule(ns: Seq<Node>, p: Ref, q: Ref) -> Option<Term> {
    match split(ns, p, BinOp::Xor) {
        Some((x, y)) => either(
            add_or_remainder_side(ns, q, x, y),
            add_or_remainder_side(ns, q, y, x),
        ),
        None => None,
    }
}

/// `(((A^B)|B) & A) + B == A + B`, from one side.
#[verifier::opaque]
pub open spec fn add_absorbed_side(ns: Seq<Node>, q: Ref, lhs: Ref, rhs: Ref) -> Option<Term> {
    match split(ns, lhs, BinOp::Or) {
        Some((u, v)) => {
            let other = if u == q {
                Some(v)
            } else if v == q {
                Some(u)
            } else {
                None
            };
            match other {
                Some(x) => match split(ns, x, BinOp::Xor) {
                    Some((s, t)) => if alike(s, t, rhs, q) {
                        over(BinOp::Add, rhs, q)
                    } else {
                        None
                    },
                    None => None,
                },
                None => None,
            }
        },
        None => None,
    }
}

/// `(((A^B)|B) & A) + B == A + B`.
#[verifier::opaque]
pub open spec fn add_absorbed_rule(ns: Seq<Node>, p: Ref, q: Ref) -> Option<Term> {
    match split(ns, p, BinOp::And) {
        Some((x, y)) => either(add_absorbed_side(ns, q, x, y), add_absorbed_side(ns, q, y, x)),
        None => None,
    }
}

/// `A + B == A | B` when a factor of one is the complement of a factor of the other.
#[verifier::opaque]
pub open spec fn add_by_factors_rule(ns: Seq<Node>, a: Ref, b: Ref) -> Option<Term> {
    if factors_clash(ns, a, b) {
        over(BinOp::Or, a, b)
    } else {
        None
    }
}

/// `(x + c1) + c2 == x + (c1 + c2)`.
#[verifier::opaque]
pub open spec fn add_nested_rule(ns: Seq<Node>, a: Ref, b: Ref, width: Width) -> Option<Term> {
    match (const_of(ns, b), split(ns, a, BinOp::Add)) {
        (Some(c2), Some((x, y))) => match const_of(ns, y) {
            Some(c1) => if width_of(ns, a) == width {
                over_lit(BinOp::Add, x, wadd(c1, c2), width)
            } else {
                None
            },
            None => None,
        },
        _ => None,
    }
}

/// The rules for `a + b`, in the order they are tried.
#[verifier::opaque]
pub open spec fn add_rule(ns: Seq<Node>, a: Ref, b: Ref, width: Width) -> Option<Term> {
    either(
        add_trivial_rule(ns, a, b, width),
        either(
            add_disjoint_rule(ns, a, b, width),
            either(
                add_of_parts_rule(ns, a, b),
                either(
                    add_or_remainder_rule(ns, a, b),
                    either(
                        add_or_remainder_rule(ns, b, a),
                        either(
                            add_absorbed_rule(ns, a, b),
                            either(
                                add_absorbed_rule(ns, b, a),
                                either(
                                    add_by_factors_rule(ns, a, b),
                                    add_nested_rule(ns, a, b, width),
                                ),
                            ),
                        ),
                    ),
                ),
            ),
        ),
    )
}

/// `x - 0 == x` and `x - x == 0`.
#[verifier::opaque]
pub open spec fn sub_trivial_rule(ns: Seq<Node>, a: Ref, b: Ref, width: Width) -> Option<Term> {
    if const_of(ns, b) == Some(0u64) {
        Some(Term::Is(a))
    } else if a == b {
        Some(Term::Lit(0, width))
    } else {
        None
    }
}

/// `(A|B) - (A&B) == A ^ B`.
#[verifier::opaque]
pub open spec fn sub_of_parts_rule(ns: Seq<Node>, a: Ref, b: Ref) -> Option<Term> {
    match (split(ns, a, BinOp::Or), split(ns, b, BinOp::And)) {
        (Some((x1, y1)), Some((x2, y2))) => if alike(x1, y1, x2, y2) {
            over(BinOp::Xor, x1, y1)
        } else {
            None
        },
        _ => None,
    }
}

/// `(x + y) - x == y`.
#[verifier::opaque]
pub open spec fn sub_cancel_rule(ns: Seq<Node>, a: Ref, b: Ref) -> Option<Term> {
    match split(ns, a, BinOp::Add) {
        Some((x, y)) => if x == b {
            Some(Term::Is(y))
        } else if y == b {
            Some(Term::Is(x))
        } else {
            None
        },
        None => None,
    }
}

/// `A - (A&B) == A & ~B`, from one side.
#[verifier::opaque]
pub open spec fn sub_masked_rule(ns: Seq<Node>, a: Ref, same: Ref, other: Ref) -> Option<Term> {
    if same == a && width_of(ns, other).bits() >= width_of(ns, a).bits() {
        without(a, other)
    } else {
        None
    }
}

/// `A - (A - (A&B)) == A & B`.
#[verifier::opaque]
pub open spec fn sub_twice_rule(ns: Seq<Node>, a: Ref, b: Ref) -> Option<Term> {
    match split(ns, b, BinOp::Sub) {
        Some((x, y)) => if x == a {
            match split(ns, y, BinOp::And) {
                Some((u, v)) => if u == a || v == a {
                    Some(Term::Is(y))
                } else {
                    None
                },
                None => None,
            }
        } else {
            None
        },
        None => None,
    }
}

/// `A - (((A&B)&A) ^ A) == A & B`, from one side.
#[verifier::opaque]
pub open spec fn sub_wrapped_side(ns: Seq<Node>, a: Ref, inner: Ref, whole: Ref) -> Option<Term> {
    if whole == a {
        match split(ns, inner, BinOp::And) {
            Some((u, v)) => either(
                if v == a {
                    masked_by(ns, u, a)
                } else {
                    None
                },
                if u == a {
                    masked_by(ns, v, a)
                } else {
                    None
                },
            ),
            None => None,
        }
    } else {
        None
    }
}

/// A conjunction that holds a node.
#[verifier::opaque]
pub open spec fn masked_by(ns: Seq<Node>, r: Ref, a: Ref) -> Option<Term> {
    match split(ns, r, BinOp::And) {
        Some((s, t)) => if s == a || t == a {
            Some(Term::Is(r))
        } else {
            None
        },
        None => None,
    }
}

/// `A - (((A&B)&A) ^ A) == A & B`.
#[verifier::opaque]
pub open spec fn sub_wrapped_rule(ns: Seq<Node>, a: Ref, b: Ref) -> Option<Term> {
    match split(ns, b, BinOp::Xor) {
        Some((x, y)) => either(sub_wrapped_side(ns, a, x, y), sub_wrapped_side(ns, a, y, x)),
        None => None,
    }
}

/// `x - c == x + (-c)`, which brings constants into sums.
#[verifier::opaque]
pub open spec fn sub_const_rule(ns: Seq<Node>, a: Ref, b: Ref, width: Width) -> Option<Term> {
    match const_of(ns, b) {
        Some(c) => over_lit(BinOp::Add, a, wsub(0, c), width),
        None => None,
    }
}

/// `A - (A&B) == A & ~B`.
#[verifier::opaque]
pub open spec fn sub_both_masked_rule(ns: Seq<Node>, a: Ref, b: Ref) -> Option<Term> {
    match split(ns, b, BinOp::And) {
        Some((u, v)) => either(sub_masked_rule(ns, a, u, v), sub_masked_rule(ns, a, v, u)),
        None => None,
    }
}

/// The rules for `a - b`, in the order they are tried.
#[verifier::opaque]
pub open spec fn sub_rule(ns: Seq<Node>, a: Ref, b: Ref, width: Width) -> Option<Term> {
    either(
        sub_trivial_rule(ns, a, b, width),
        either(
            sub_of_parts_rule(ns, a, b),
            either(
                sub_cancel_rule(ns, a, b),
                either(
                    sub_both_masked_rule(ns, a, b),
                    either(
                        sub_twice_rule(ns, a, b),
                        either(sub_wrapped_rule(ns, a, b), sub_const_rule(ns, a, b, width)),
                    ),
                ),
            ),
        ),
    )
}

/// Bit `k` of a node as a term, where it can be followed to where it comes from.
pub open spec fn bit_term(ns: Seq<Node>, r: Ref, k: u64) -> Option<Term>
    decreases r.idx,
{
    let bit = 1u64 << k;
    if k >= 64 {
        None
    } else if known_zero_bits(ns, r) & bit == bit {
        Some(Term::Lit(0, Width::W64))
    } else if const_of(ns, r) is Some {
        Some(Term::Lit((const_of(ns, r)->0 >> k) & 1, Width::W64))
    } else if k == 0 && known_zero_bits(ns, r) & !1u64 == !1u64 {
        Some(Term::Is(r))
    } else {
        match op_of(ns, r) {
            Op::Bin(BinOp::Or, x, y) => {
                let from_x = known_zero_bits(ns, x) & bit != bit;
                let from_y = known_zero_bits(ns, y) & bit != bit;
                if from_x && !from_y && x.idx < r.idx {
                    bit_term(ns, x, k)
                } else if from_y && !from_x && y.idx < r.idx {
                    bit_term(ns, y, k)
                } else {
                    None
                }
            },
            Op::Bin(BinOp::Shl, v, sh) => match const_of(ns, sh) {
                Some(c) => {
                    let s = shift_count_spec(c, width_of(ns, r));
                    if s > k || v.idx >= r.idx {
                        None
                    } else {
                        bit_term(ns, v, (k - s) as u64)
                    }
                },
                None => None,
            },
            Op::Bin(BinOp::Shr, v, sh) => match const_of(ns, sh) {
                Some(c) => {
                    let s = shift_count_spec(c, width_of(ns, r));
                    if s >= width_of(ns, r).bits() || v.idx >= r.idx {
                        None
                    } else {
                        bit_term(ns, v, (k + s) as u64)
                    }
                },
                None => None,
            },
            Op::Bin(BinOp::And, x, y) => match const_of(ns, y) {
                Some(c) => if c & bit == 0 {
                    Some(Term::Lit(0, Width::W64))
                } else if x.idx < r.idx {
                    bit_term(ns, x, k)
                } else {
                    None
                },
                None => None,
            },
            Op::Zext(v) => if v.idx < r.idx {
                bit_term(ns, v, k)
            } else {
                None
            },
            Op::Trunc(v) => if v.idx < r.idx {
                bit_term(ns, v, k)
            } else {
                None
            },
            _ => None,
        }
    }
}

/// A term that fits a width.
#[verifier::opaque]
pub open spec fn fitted(t: Option<Term>, width: Width) -> Option<Term> {
    match t {
        Some(x) => Some(Term::Fit(Box::new(x), width)),
        None => None,
    }
}

/// `(x >> k) & 1` and `x & 1`, where the bit can be followed.
#[verifier::opaque]
pub open spec fn and_bit_rule(ns: Seq<Node>, a: Ref, b: Ref, width: Width) -> Option<Term> {
    if const_of(ns, b) != Some(1u64) {
        None
    } else {
        either(
            match split(ns, a, BinOp::Shr) {
                Some((x, sh)) => match const_of(ns, sh) {
                    Some(c) => if shift_count_spec(c, width_of(ns, a)) < width_of(ns, a).bits() {
                        fitted(bit_term(ns, x, shift_count_spec(c, width_of(ns, a))), width)
                    } else {
                        None
                    },
                    None => None,
                },
                None => None,
            },
            fitted(bit_term(ns, a, 0), width),
        )
    }
}

/// `x & 0 == 0` and `x & -1 == x`.
#[verifier::opaque]
pub open spec fn and_trivial_rule(ns: Seq<Node>, a: Ref, b: Ref, width: Width) -> Option<Term> {
    if const_of(ns, b) == Some(0u64) {
        Some(Term::Lit(0, width))
    } else if const_of(ns, b) == Some(width.mask()) {
        Some(Term::Is(a))
    } else {
        None
    }
}

/// `p & q == q` where every bit `q` may have is set in `p`.
#[verifier::opaque]
pub open spec fn and_known_one_rule(ns: Seq<Node>, p: Ref, q: Ref, width: Width) -> Option<Term> {
    if (known_one_bits(ns, p) | known_zero_bits(ns, q)) & width.mask() == width.mask() {
        Some(Term::Is(q))
    } else {
        None
    }
}

/// `(X | Y) & c` with one side that has nothing under the mask.
#[verifier::opaque]
pub open spec fn and_drop_arm_rule(ns: Seq<Node>, a: Ref, b: Ref, c: u64) -> Option<Term> {
    match split(ns, a, BinOp::Or) {
        Some((x, y)) => {
            let x_dead = known_zero_bits(ns, x) & c == c;
            let y_dead = known_zero_bits(ns, y) & c == c;
            if x_dead && !y_dead {
                over(BinOp::And, y, b)
            } else if y_dead && !x_dead {
                over(BinOp::And, x, b)
            } else {
                None
            }
        },
        None => None,
    }
}

/// The first `k` terms of a disjunction that have something under a mask.
pub open spec fn live_terms(ns: Seq<Node>, terms: Seq<Ref>, c: u64, k: int) -> Seq<Ref>
    decreases k,
{
    if k <= 0 {
        Seq::empty()
    } else if known_zero_bits(ns, terms[k - 1]) & c == c {
        live_terms(ns, terms, c, k - 1)
    } else {
        live_terms(ns, terms, c, k - 1).push(terms[k - 1])
    }
}

/// The disjunction of the first `k` nodes.
pub open spec fn any_of(s: Seq<Ref>, k: int) -> Term
    decreases k,
{
    if k <= 1 {
        Term::Is(s[0])
    } else {
        pair(BinOp::Or, any_of(s, k - 1), Term::Is(s[k - 1]))
    }
}

/// `(X | Y | ..) & c` without the terms that have nothing under the mask.
#[verifier::opaque]
pub open spec fn and_drop_terms_rule(ns: Seq<Node>, a: Ref, b: Ref, c: u64, width: Width) -> Option<Term> {
    let terms = or_terms(ns, a, 32);
    let live = live_terms(ns, terms, c, terms.len() as int);
    if split(ns, a, BinOp::Or) is None || live.len() == terms.len() {
        None
    } else if live.len() == 0 {
        Some(Term::Lit(0, width))
    } else {
        Some(pair(BinOp::And, any_of(live, live.len() as int), Term::Is(b)))
    }
}

/// `~(x ^ c1) & c2 == x & c2` where the mask lies inside the flipped bits.
#[verifier::opaque]
pub open spec fn and_flip_back_rule(ns: Seq<Node>, a: Ref, b: Ref, c2: u64) -> Option<Term> {
    match op_of(ns, a) {
        Op::Un(UnOp::Not, inner) => match split(ns, inner, BinOp::Xor) {
            Some((x, k)) => match const_of(ns, k) {
                Some(c1) => if c2 & c1 == c2 {
                    over(BinOp::And, x, b)
                } else {
                    None
                },
                None => None,
            },
            None => None,
        },
        _ => None,
    }
}

/// `(x | q) & q == q` and `(x & q) & q == x & q`.
#[verifier::opaque]
pub open spec fn and_absorb_rule(ns: Seq<Node>, p: Ref, q: Ref) -> Option<Term> {
    either(
        match split(ns, p, BinOp::Or) {
            Some((x, y)) => if x == q || y == q {
                Some(Term::Is(q))
            } else {
                None
            },
            None => None,
        },
        match split(ns, p, BinOp::And) {
            Some((x, y)) => if x == q || y == q {
                Some(Term::Is(p))
            } else {
                None
            },
            None => None,
        },
    )
}

/// `p & (p ^ y) == p & ~y`, from one side.
#[verifier::opaque]
pub open spec fn and_xor_side(ns: Seq<Node>, p: Ref, same: Ref, other: Ref) -> Option<Term> {
    if same == p && width_of(ns, other).bits() >= width_of(ns, p).bits() {
        without(p, other)
    } else {
        None
    }
}

/// `p & (p ^ y) == p & ~y`.
#[verifier::opaque]
pub open spec fn and_xor_rule(ns: Seq<Node>, p: Ref, q: Ref) -> Option<Term> {
    match split(ns, q, BinOp::Xor) {
        Some((x, y)) => either(and_xor_side(ns, p, x, y), and_xor_side(ns, p, y, x)),
        None => None,
    }
}

/// `p & (~p | y) == p & y`, from one side.
#[verifier::opaque]
pub open spec fn and_or_not_side(ns: Seq<Node>, p: Ref, neg: Ref, other: Ref) -> Option<Term> {
    if opposite(ns, neg, p) {
        over(BinOp::And, p, other)
    } else {
        None
    }
}

/// `p & (~p | y) == p & y`.
#[verifier::opaque]
pub open spec fn and_or_not_rule(ns: Seq<Node>, p: Ref, q: Ref) -> Option<Term> {
    match split(ns, q, BinOp::Or) {
        Some((x, y)) => either(and_or_not_side(ns, p, x, y), and_or_not_side(ns, p, y, x)),
        None => None,
    }
}

/// `(x & c1) & c2 == x & (c1 & c2)`.
#[verifier::opaque]
pub open spec fn and_nested_rule(ns: Seq<Node>, a: Ref, c2: u64, width: Width) -> Option<Term> {
    match split(ns, a, BinOp::And) {
        Some((x, y)) => match const_of(ns, y) {
            Some(c1) => over_lit(BinOp::And, x, c1 & c2, width),
            None => None,
        },
        None => None,
    }
}

/// A mask over bits that are known.
#[verifier::opaque]
pub open spec fn and_known_rule(ns: Seq<Node>, a: Ref, c: u64, width: Width) -> Option<Term> {
    let ka = known_zero_bits(ns, a);
    if ka & c == c {
        Some(Term::Lit(0, width))
    } else if (!ka & width.mask()) & !c == 0 {
        Some(Term::Is(a))
    } else if known_one_bits(ns, a) & c == c {
        Some(Term::Lit(c, width))
    } else {
        match split(ns, a, BinOp::Or) {
            Some((x, y)) => if known_zero_bits(ns, x) & c == c {
                over_lit(BinOp::And, y, c, width)
            } else if known_zero_bits(ns, y) & c == c {
                over_lit(BinOp::And, x, c, width)
            } else {
                None
            },
            None => None,
        }
    }
}

/// Two operands of a conjunction that stand against each other.
#[verifier::opaque]
pub open spec fn and_against_rule(ns: Seq<Node>, a: Ref, b: Ref, width: Width) -> Option<Term> {
    either(
        if opposite(ns, a, b) {
            Some(Term::Lit(0, width))
        } else {
            None
        },
        either(
            match const_of(ns, b) {
                Some(c) => and_flip_back_rule(ns, a, b, c),
                None => None,
            },
            either(
                and_absorb_rule(ns, a, b),
                either(
                    and_absorb_rule(ns, b, a),
                    either(
                        and_xor_rule(ns, a, b),
                        either(
                            and_xor_rule(ns, b, a),
                            either(and_or_not_rule(ns, a, b), and_or_not_rule(ns, b, a)),
                        ),
                    ),
                ),
            ),
        ),
    )
}

/// The rules for a conjunction of two operands of which neither is a constant, by their known bits.
#[verifier::opaque]
pub open spec fn and_known_ones_rule(ns: Seq<Node>, a: Ref, b: Ref, width: Width) -> Option<Term> {
    if const_of(ns, b) is None && const_of(ns, a) is None {
        either(and_known_one_rule(ns, a, b, width), and_known_one_rule(ns, b, a, width))
    } else {
        None
    }
}

/// The rules for `a & b`, in the order they are tried.
#[verifier::opaque]
pub open spec fn and_rule(ns: Seq<Node>, a: Ref, b: Ref, width: Width) -> Option<Term> {
    if a == b {
        Some(Term::Is(a))
    } else {
        either(
            and_bit_rule(ns, a, b, width),
            either(
                and_trivial_rule(ns, a, b, width),
                either(
                    and_known_ones_rule(ns, a, b, width),
                    either(
                        match const_of(ns, b) {
                            Some(c) => either(
                                and_drop_arm_rule(ns, a, b, c),
                                and_drop_terms_rule(ns, a, b, c, width),
                            ),
                            None => None,
                        },
                        either(
                            and_against_rule(ns, a, b, width),
                            match const_of(ns, b) {
                                Some(c) => either(
                                    and_nested_rule(ns, a, c, width),
                                    and_known_rule(ns, a, c, width),
                                ),
                                None => None,
                            },
                        ),
                    ),
                ),
            ),
        )
    }
}

/// The node already there for a computation.
pub open spec fn found(ns: Seq<Node>, node: Node) -> Option<Ref> {
    if exists|i: int| 0 <= i < ns.len() && node_same(#[trigger] ns[i], node) {
        Some(
            Ref {
                idx: (choose|i: int| 0 <= i < ns.len() && node_same(#[trigger] ns[i], node)) as usize,
            },
        )
    } else {
        None
    }
}

/// The nodes whose conjunction a node is, or its complement is, as far as they have names;
/// and whether all of them do.
pub open spec fn factors(ns: Seq<Node>, r: Ref, negated: bool, depth: nat) -> (Seq<Ref>, bool)
    decreases depth,
{
    if depth == 0 {
        (Seq::empty(), false)
    } else if !negated && split(ns, r, BinOp::And) is Some {
        let (x, y) = split(ns, r, BinOp::And)->0;
        let l = factors(ns, x, false, (depth - 1) as nat);
        let m = factors(ns, y, false, (depth - 1) as nat);
        (l.0 + m.0, l.1 && m.1)
    } else if negated && (split(ns, r, BinOp::Or) matches Some((x, y)) && width_of(ns, x) == width_of(ns, y)) {
        let (x, y) = split(ns, r, BinOp::Or)->0;
        let l = factors(ns, x, true, (depth - 1) as nat);
        let m = factors(ns, y, true, (depth - 1) as nat);
        (l.0 + m.0, l.1 && m.1)
    } else {
        match op_of(ns, r) {
            Op::Un(UnOp::Not, inner) => factors(ns, inner, !negated, (depth - 1) as nat),
            _ => if !negated {
                (seq![r], true)
            } else {
                let w = width_of(ns, r);
                let node = match const_of(ns, r) {
                    Some(c) => Node { op: Op::Const((!c & w.mask()) & w.mask()), width: w },
                    None => Node { op: Op::Un(UnOp::Not, r), width: w },
                };
                match found(ns, node) {
                    Some(n) => (seq![n], true),
                    None => (Seq::empty(), false),
                }
            },
        }
    }
}

/// Whether a node can have more than one factor.
pub open spec fn has_factors(ns: Seq<Node>, r: Ref) -> bool {
    match op_of(ns, r) {
        Op::Bin(BinOp::And, _, _) => true,
        Op::Un(UnOp::Not, _) => true,
        _ => false,
    }
}

/// Whether a factor of one node is written as the complement of a factor of another.
pub open spec fn factors_clash(ns: Seq<Node>, a: Ref, b: Ref) -> bool {
    let fa = factors(ns, a, false, 6).0;
    let fb = factors(ns, b, false, 6).0;
    has_factors(ns, a) && has_factors(ns, b) && exists|i: int, j: int|
        0 <= i < fa.len() && 0 <= j < fb.len() && opposite(ns, #[trigger] fa[i], #[trigger] fb[j])
}

/// The one node of a list that is not the given one, looking from `i` on.
pub open spec fn only_other_from(s: Seq<Ref>, shared: Ref, i: int, so_far: Option<Ref>) -> Option<Ref>
    decreases s.len() - i,
{
    if i < 0 || i >= s.len() {
        so_far
    } else if s[i] == shared {
        only_other_from(s, shared, i + 1, so_far)
    } else if so_far is Some {
        None
    } else {
        only_other_from(s, shared, i + 1, Some(s[i]))
    }
}

/// Whether a factor is shared by two conjunctions whose other factors are complements.
pub open spec fn shares(ns: Seq<Node>, fa: Seq<Ref>, fb: Seq<Ref>, shared: Ref, width: Width) -> bool {
    fb.contains(shared) && width_of(ns, shared) == width && match (
        only_other_from(fa, shared, 0, None),
        only_other_from(fb, shared, 0, None),
    ) {
        (Some(x), Some(y)) => opposite(ns, x, y) && width_of(ns, x).bits() >= width_of(ns, shared).bits(),
        _ => false,
    }
}

/// The first factor from `i` on that is shared so.
pub open spec fn shared_from(ns: Seq<Node>, fa: Seq<Ref>, fb: Seq<Ref>, width: Width, i: int) -> Option<Term>
    decreases fa.len() - i,
{
    if i < 0 || i >= fa.len() {
        None
    } else if shares(ns, fa, fb, fa[i], width) {
        Some(Term::Is(fa[i]))
    } else {
        shared_from(ns, fa, fb, width, i + 1)
    }
}

/// `p | (p ^ y) == p | y`.
#[verifier::opaque]
pub open spec fn or_xor_rule(ns: Seq<Node>, p: Ref, q: Ref) -> Option<Term> {
    match split(ns, q, BinOp::Xor) {
        Some((x, y)) => if x == p {
            over(BinOp::Or, p, y)
        } else if y == p {
            over(BinOp::Or, p, x)
        } else {
            None
        },
        None => None,
    }
}

/// `x | x == x`, `x | 0 == x`, `x | -1 == -1` and `x | ~x == -1`.
#[verifier::opaque]
pub open spec fn or_trivial_rule(ns: Seq<Node>, a: Ref, b: Ref, width: Width) -> Option<Term> {
    if a == b || const_of(ns, b) == Some(0u64) {
        Some(Term::Is(a))
    } else if const_of(ns, b) == Some(width.mask()) || opposite(ns, a, b) {
        Some(Term::Lit(width.mask(), width))
    } else {
        None
    }
}

/// `p | (~p & y) == p | y`, from one side.
#[verifier::opaque]
pub open spec fn or_and_not_side(ns: Seq<Node>, p: Ref, neg: Ref, other: Ref) -> Option<Term> {
    if opposite(ns, neg, p) && width_of(ns, other).bits() <= width_of(ns, p).bits() {
        over(BinOp::Or, p, other)
    } else {
        None
    }
}

/// `p | (~p & y) == p | y`.
#[verifier::opaque]
pub open spec fn or_and_not_rule(ns: Seq<Node>, p: Ref, q: Ref) -> Option<Term> {
    match split(ns, q, BinOp::And) {
        Some((x, y)) => either(or_and_not_side(ns, p, x, y), or_and_not_side(ns, p, y, x)),
        None => None,
    }
}

/// `(x & q) | q == q` and `(x | q) | q == x | q`.
#[verifier::opaque]
pub open spec fn or_absorb_rule(ns: Seq<Node>, p: Ref, q: Ref) -> Option<Term> {
    either(
        match split(ns, p, BinOp::And) {
            Some((x, y)) => if x == q || y == q {
                Some(Term::Is(q))
            } else {
                None
            },
            None => None,
        },
        match split(ns, p, BinOp::Or) {
            Some((x, y)) => if x == q || y == q {
                Some(Term::Is(p))
            } else {
                None
            },
            None => None,
        },
    )
}

/// `(x & m) | (x & ~m) == x` and `(x & c1) | (x & c2) == x & (c1 | c2)`, one way round.
#[verifier::opaque]
pub open spec fn or_shared_side(ns: Seq<Node>, shared: Ref, mask_a: Ref, shared_b: Ref, mask_b: Ref, width: Width) -> Option<Term> {
    if shared != shared_b {
        None
    } else if opposite(ns, mask_a, mask_b) && width_of(ns, shared) == width && width_of(ns, mask_a).bits()
        >= width_of(ns, shared).bits() {
        Some(Term::Is(shared))
    } else {
        match (const_of(ns, mask_a), const_of(ns, mask_b)) {
            (Some(c1), Some(c2)) => over_lit(BinOp::And, shared, c1 | c2, width),
            _ => None,
        }
    }
}

/// `(x & m) | (x & ~m) == x` and `(x & c1) | (x & c2) == x & (c1 | c2)`.
#[verifier::opaque]
pub open spec fn or_shared_rule(ns: Seq<Node>, a: Ref, b: Ref, width: Width) -> Option<Term> {
    match (split(ns, a, BinOp::And), split(ns, b, BinOp::And)) {
        (Some((x1, y1)), Some((x2, y2))) => either(
            or_shared_side(ns, x1, y1, x2, y2, width),
            either(
                or_shared_side(ns, x1, y1, y2, x2, width),
                either(
                    or_shared_side(ns, y1, x1, x2, y2, width),
                    or_shared_side(ns, y1, x1, y2, x2, width),
                ),
            ),
        ),
        _ => None,
    }
}

/// `(s & x) | (s & ~x) == s`, where the factors lie deeper.
#[verifier::opaque]
pub open spec fn or_factors_rule(ns: Seq<Node>, a: Ref, b: Ref, width: Width) -> Option<Term> {
    let fa = factors(ns, a, false, 6);
    let fb = factors(ns, b, false, 6);
    if !fa.1 || !fb.1 || fa.0.len() < 2 || fb.0.len() < 2 {
        None
    } else {
        shared_from(ns, fa.0, fb.0, width, 0)
    }
}

/// `p | q == q` where every bit `p` may have is set in `q`.
#[verifier::opaque]
pub open spec fn or_known_rule(ns: Seq<Node>, p: Ref, q: Ref, width: Width) -> Option<Term> {
    if (!known_zero_bits(ns, p) & !known_one_bits(ns, q) & width.mask()) == 0 {
        Some(Term::Is(q))
    } else {
        None
    }
}

/// `(x ^ c) | c == x | c` and `(x | c1) | c2 == x | (c1 | c2)`.
#[verifier::opaque]
pub open spec fn or_nested_rule(ns: Seq<Node>, a: Ref, c2: u64, width: Width) -> Option<Term> {
    match op_of(ns, a) {
        Op::Bin(BinOp::Xor, x, y) => if const_of(ns, y) == Some(c2) {
            over_lit(BinOp::Or, x, c2, width)
        } else {
            None
        },
        Op::Bin(BinOp::Or, x, y) => match const_of(ns, y) {
            Some(c1) => over_lit(BinOp::Or, x, c1 | c2, width),
            None => None,
        },
        _ => None,
    }
}

/// `p | ((p & x) | y) == p | y`, from one side.
#[verifier::opaque]
pub open spec fn or_buried_side(ns: Seq<Node>, p: Ref, cand: Ref, keep: Ref) -> Option<Term> {
    match split(ns, cand, BinOp::And) {
        Some((u, v)) => if u == p || v == p {
            over(BinOp::Or, p, keep)
        } else {
            None
        },
        None => None,
    }
}

/// `p | ((p & x) | y) == p | y`.
#[verifier::opaque]
pub open spec fn or_buried_rule(ns: Seq<Node>, p: Ref, q: Ref) -> Option<Term> {
    match split(ns, q, BinOp::Or) {
        Some((x, y)) => either(or_buried_side(ns, p, x, y), or_buried_side(ns, p, y, x)),
        None => None,
    }
}

/// `((q | y) ^ y) | q == q`, from one side.
#[verifier::opaque]
pub open spec fn or_restored_side(ns: Seq<Node>, q: Ref, or_side: Ref, other: Ref) -> Option<Term> {
    match split(ns, or_side, BinOp::Or) {
        Some((u, v)) => if (u == q && v == other) || (v == q && u == other) {
            Some(Term::Is(q))
        } else {
            None
        },
        None => None,
    }
}

/// `((q | y) ^ y) | q == q`.
#[verifier::opaque]
pub open spec fn or_restored_rule(ns: Seq<Node>, p: Ref, q: Ref) -> Option<Term> {
    match split(ns, p, BinOp::Xor) {
        Some((x, y)) => either(or_restored_side(ns, q, x, y), or_restored_side(ns, q, y, x)),
        None => None,
    }
}

/// The rules for a disjunction that go by its operands alone.
#[verifier::opaque]
pub open spec fn or_structural_rule(ns: Seq<Node>, a: Ref, b: Ref, width: Width) -> Option<Term> {
    either(
        or_xor_rule(ns, a, b),
        either(
            or_xor_rule(ns, b, a),
            either(
                or_trivial_rule(ns, a, b, width),
                either(
                    or_and_not_rule(ns, a, b),
                    either(
                        or_and_not_rule(ns, b, a),
                        either(
                            or_absorb_rule(ns, a, b),
                            either(
                                or_absorb_rule(ns, b, a),
                                either(
                                    or_shared_rule(ns, a, b, width),
                                    or_factors_rule(ns, a, b, width),
                                ),
                            ),
                        ),
                    ),
                ),
            ),
        ),
    )
}

/// The rules for `a | b`, in the order they are tried.
#[verifier::opaque]
pub open spec fn or_rule(ns: Seq<Node>, a: Ref, b: Ref, width: Width) -> Option<Term> {
    either(
        or_structural_rule(ns, a, b, width),
        either(
            or_known_rule(ns, a, b, width),
            either(
                or_known_rule(ns, b, a, width),
                either(
                    match const_of(ns, b) {
                        Some(c) => or_nested_rule(ns, a, c, width),
                        None => None,
                    },
                    either(
                        or_buried_rule(ns, a, b),
                        either(
                            or_buried_rule(ns, b, a),
                            either(or_restored_rule(ns, a, b), or_restored_rule(ns, b, a)),
                        ),
                    ),
                ),
            ),
        ),
    )
}

/// `(A&B) ^ (A|B) == A ^ B`.
#[verifier::opaque]
pub open spec fn xor_of_parts_rule(ns: Seq<Node>, p: Ref, q: Ref) -> Option<Term> {
    match (split(ns, p, BinOp::And), split(ns, q, BinOp::Or)) {
        (Some((x1, y1)), Some((x2, y2))) => if alike(x1, y1, x2, y2) {
            over(BinOp::Xor, x1, y1)
        } else {
            None
        },
        _ => None,
    }
}

/// `(A&B) ^ (A^B) == A | B`.
#[verifier::opaque]
pub open spec fn xor_of_union_rule(ns: Seq<Node>, p: Ref, q: Ref) -> Option<Term> {
    match (split(ns, p, BinOp::And), split(ns, q, BinOp::Xor)) {
        (Some((x1, y1)), Some((x2, y2))) => if alike(x1, y1, x2, y2) {
            over(BinOp::Or, x1, y1)
        } else {
            None
        },
        _ => None,
    }
}

/// `p ^ (p | y) == ~p & y`, from one side.
#[verifier::opaque]
pub open spec fn xor_or_side(ns: Seq<Node>, p: Ref, same: Ref, other: Ref) -> Option<Term> {
    if same == p && width_of(ns, other).bits() <= width_of(ns, p).bits() {
        Some(pair(BinOp::And, Term::Not(Box::new(Term::Is(p))), Term::Is(other)))
    } else {
        None
    }
}

/// `p ^ (p | y) == ~p & y`.
#[verifier::opaque]
pub open spec fn xor_or_rule(ns: Seq<Node>, p: Ref, q: Ref) -> Option<Term> {
    match split(ns, q, BinOp::Or) {
        Some((x, y)) => either(xor_or_side(ns, p, x, y), xor_or_side(ns, p, y, x)),
        None => None,
    }
}

/// `(x & c) ^ (y & c) == (x ^ y) & c`, one way round.
#[verifier::opaque]
pub open spec fn xor_shared_side(ns: Seq<Node>, ax: Ref, am: Ref, bx: Ref, bm: Ref) -> Option<Term> {
    if am == bm && const_of(ns, am) is Some {
        Some(pair(BinOp::And, pair(BinOp::Xor, Term::Is(ax), Term::Is(bx)), Term::Is(am)))
    } else {
        None
    }
}

/// `(x & c) ^ (y & c) == (x ^ y) & c`.
#[verifier::opaque]
pub open spec fn xor_shared_rule(ns: Seq<Node>, a: Ref, b: Ref) -> Option<Term> {
    match (split(ns, a, BinOp::And), split(ns, b, BinOp::And)) {
        (Some((a1, m1)), Some((b1, m2))) => either(
            xor_shared_side(ns, a1, m1, b1, m2),
            either(
                xor_shared_side(ns, a1, m1, m2, b1),
                either(xor_shared_side(ns, m1, a1, b1, m2), xor_shared_side(ns, m1, a1, m2, b1)),
            ),
        ),
        _ => None,
    }
}

/// `x ^ 0 == x`, `x ^ -1 == ~x` and `x ^ ~x == -1`.
#[verifier::opaque]
pub open spec fn xor_trivial_rule(ns: Seq<Node>, a: Ref, b: Ref, width: Width) -> Option<Term> {
    if const_of(ns, b) == Some(0u64) {
        Some(Term::Is(a))
    } else if const_of(ns, b) == Some(width.mask()) && width_of(ns, a) == width {
        Some(Term::Not(Box::new(Term::Is(a))))
    } else if opposite(ns, a, b) {
        Some(Term::Lit(width.mask(), width))
    } else {
        None
    }
}

/// `(x | c1) ^ c2 == (x & ~c1) ^ (c1 ^ c2)` where `c1` lies inside `c2`, and
/// `(x ^ c1) ^ c2 == x ^ (c1 ^ c2)`.
#[verifier::opaque]
pub open spec fn xor_nested_rule(ns: Seq<Node>, a: Ref, c2: u64, width: Width) -> Option<Term> {
    match op_of(ns, a) {
        Op::Bin(BinOp::Or, x, y) => match const_of(ns, y) {
            Some(c1) => if c1 & c2 == c1 {
                Some(
                    pair(
                        BinOp::Xor,
                        pair(BinOp::And, Term::Is(x), Term::Lit(!c1, width)),
                        Term::Lit(c1 ^ c2, width),
                    ),
                )
            } else {
                None
            },
            None => None,
        },
        Op::Bin(BinOp::Xor, x, y) => match const_of(ns, y) {
            Some(c1) => over_lit(BinOp::Xor, x, c1 ^ c2, width),
            None => None,
        },
        _ => None,
    }
}

/// `(q & y) ^ q == q & ~y`, from one side.
#[verifier::opaque]
pub open spec fn xor_and_side(ns: Seq<Node>, q: Ref, same: Ref, other: Ref) -> Option<Term> {
    if same == q && width_of(ns, other).bits() >= width_of(ns, q).bits() {
        without(q, other)
    } else {
        None
    }
}

/// `(q & y) ^ q == q & ~y`.
#[verifier::opaque]
pub open spec fn xor_and_rule(ns: Seq<Node>, p: Ref, q: Ref) -> Option<Term> {
    match split(ns, p, BinOp::And) {
        Some((x, y)) => either(xor_and_side(ns, q, x, y), xor_and_side(ns, q, y, x)),
        None => None,
    }
}

/// `(q ^ y) ^ q == y`.
#[verifier::opaque]
pub open spec fn xor_cancel_rule(ns: Seq<Node>, p: Ref, q: Ref) -> Option<Term> {
    match split(ns, p, BinOp::Xor) {
        Some((x, y)) => if x == q {
            Some(Term::Is(y))
        } else if y == q {
            Some(Term::Is(x))
        } else {
            None
        },
        None => None,
    }
}

/// The rules for an exclusive or that go by its operands alone.
#[verifier::opaque]
pub open spec fn xor_structural_rule(ns: Seq<Node>, a: Ref, b: Ref) -> Option<Term> {
    either(
        xor_of_parts_rule(ns, a, b),
        either(
            xor_of_parts_rule(ns, b, a),
            either(
                xor_of_union_rule(ns, a, b),
                either(
                    xor_of_union_rule(ns, b, a),
                    either(
                        xor_or_rule(ns, a, b),
                        either(xor_or_rule(ns, b, a), xor_shared_rule(ns, a, b)),
                    ),
                ),
            ),
        ),
    )
}

/// The rules for `a ^ b`, in the order they are tried.
#[verifier::opaque]
pub open spec fn xor_rule(ns: Seq<Node>, a: Ref, b: Ref, width: Width) -> Option<Term> {
    if a == b {
        Some(Term::Lit(0, width))
    } else {
        either(
            xor_structural_rule(ns, a, b),
            either(
                xor_trivial_rule(ns, a, b, width),
                either(
                    match const_of(ns, b) {
                        Some(c) => xor_nested_rule(ns, a, c, width),
                        None => None,
                    },
                    either(
                        xor_and_rule(ns, a, b),
                        either(
                            xor_and_rule(ns, b, a),
                            either(xor_cancel_rule(ns, a, b), xor_cancel_rule(ns, b, a)),
                        ),
                    ),
                ),
            ),
        )
    }
}

/// What is put in the place of `a op b`, if anything is.
#[verifier::opaque]
pub open spec fn bin_rule(ns: Seq<Node>, op: BinOp, a: Ref, b: Ref, width: Width) -> Option<Term> {
    match op {
        BinOp::Add => add_rule(ns, a, b, width),
        BinOp::Sub => sub_rule(ns, a, b, width),
        BinOp::And => and_rule(ns, a, b, width),
        BinOp::Or => or_rule(ns, a, b, width),
        BinOp::Xor => xor_rule(ns, a, b, width),
        BinOp::Mul => if const_of(ns, b) == Some(0u64) {
            Some(Term::Lit(0, width))
        } else if const_of(ns, b) == Some(1u64) {
            Some(Term::Is(a))
        } else {
            None
        },
        BinOp::Shl | BinOp::Shr | BinOp::Sar | BinOp::Rol | BinOp::Ror => if const_of(ns, b) == Some(0u64) {
            Some(Term::Is(a))
        } else {
            None
        },
        _ => None,
    }
}

/// How many parts a term has.
pub open spec fn size(t: Term) -> nat
    decreases t,
{
    match t {
        Term::Is(_) => 1,
        Term::Lit(_, _) => 1,
        Term::Not(x) => 1 + size(*x),
        Term::Pair(_, x, y) => 1 + size(*x) + size(*y),
        Term::Fit(x, _) => 1 + size(*x),
    }
}

/// Recording a computation: the arena after it, and its node.
pub open spec fn recorded(ns: Seq<Node>, node: Node) -> (Seq<Node>, Ref) {
    match found(ns, node) {
        Some(r) => (ns, r),
        None => (ns.push(node), Ref { idx: ns.len() as usize }),
    }
}

/// Making a constant.
pub open spec fn literal(ns: Seq<Node>, value: u64, width: Width) -> (Seq<Node>, Ref) {
    recorded(ns, Node { op: Op::Const(value & width.mask()), width })
}

/// Whether the operands of a commutative operator change places: constants go to the right,
/// and otherwise the older node comes first.
pub open spec fn swaps(ns: Seq<Node>, op: BinOp, a: Ref, b: Ref) -> bool {
    op.is_commutative() && ((const_of(ns, a) is Some && const_of(ns, b) is None) || (const_of(ns, b) is None
        && a.idx > b.idx))
}

/// What two constants fold to.
pub open spec fn folded(ns: Seq<Node>, op: BinOp, a: Ref, b: Ref) -> Option<u64> {
    match (const_of(ns, a), const_of(ns, b)) {
        (Some(x), Some(y)) => bin_fold(op, x, y, width_of(ns, a).wider(width_of(ns, b))),
        _ => None,
    }
}

/// What an operator over one operand twice collapses to.
pub open spec fn collapsed_term(op: BinOp, a: Ref, width: Width) -> Option<Term> {
    match op {
        BinOp::And | BinOp::Or => Some(Term::Is(a)),
        BinOp::Xor | BinOp::Sub | BinOp::Ult | BinOp::Slt => Some(Term::Lit(0, width)),
        BinOp::Eq => Some(Term::Lit(1, width)),
        _ => None,
    }
}

/// Building `a op b` with at most `fuel` rewrites one inside the other, `depth` levels below
/// the truncation that is being pushed down: the arena after it, and the node.
#[verifier::opaque]
pub open spec fn bin_made(
    ns: Seq<Node>,
    op: BinOp,
    a: Ref,
    b: Ref,
    fuel: nat,
    depth: nat,
) -> (Seq<Node>, Ref)
    decreases fuel, 1nat, 0nat,
{
    let width = bin_width(op, width_of(ns, a), width_of(ns, b));
    if folded(ns, op, a, b) is Some {
        literal(ns, folded(ns, op, a, b)->0, width)
    } else if fuel > 0 && a == b && collapsed_term(op, a, width) is Some {
        match collapsed_term(op, a, width)->0 {
            Term::Lit(c, w) => literal(ns, c, w),
            _ => (ns, a),
        }
    } else if swaps(ns, op, a, b) {
        ordered_made(ns, op, b, a, fuel, depth)
    } else {
        ordered_made(ns, op, a, b, fuel, depth)
    }
}

/// The same with the operands in their places.
#[verifier::opaque]
pub open spec fn ordered_made(
    ns: Seq<Node>,
    op: BinOp,
    a: Ref,
    b: Ref,
    fuel: nat,
    depth: nat,
) -> (Seq<Node>, Ref)
    decreases fuel, 0nat, 0nat,
{
    let width = bin_width(op, width_of(ns, a), width_of(ns, b));
    if fuel > 0 && bin_rule(ns, op, a, b, width) is Some {
        built(ns, bin_rule(ns, op, a, b, width)->0, (fuel - 1) as nat, depth)
    } else {
        recorded(ns, Node { op: Op::Bin(op, a, b), width })
    }
}

/// Building a term.
#[verifier::opaque]
pub open spec fn built(ns: Seq<Node>, t: Term, fuel: nat, depth: nat) -> (Seq<Node>, Ref)
    decreases fuel, 3nat, size(t),
{
    match t {
        Term::Is(r) => (ns, r),
        Term::Lit(c, w) => literal(ns, c, w),
        Term::Not(x) => {
            let s = built(ns, *x, fuel, depth);
            not_made(s.0, s.1, fuel, depth)
        },
        Term::Pair(op, x, y) => {
            let s = built(ns, *x, fuel, depth);
            let u = built(s.0, *y, fuel, depth);
            bin_made(u.0, op, s.1, u.1, fuel, depth)
        },
        Term::Fit(x, w) => {
            let s = built(ns, *x, fuel, depth);
            if width_of(s.0, s.1).bits() > w.bits() {
                cast_made(s.0, s.1, w, fuel, depth)
            } else {
                s
            }
        },
    }
}

/// Building a value at another width, cut or padded with zeros.
#[verifier::opaque]
pub open spec fn cast_made(ns: Seq<Node>, x: Ref, to: Width, fuel: nat, depth: nat) -> (Seq<Node>, Ref)
    decreases fuel, 2nat, 0nat,
{
    if width_of(ns, x) == to {
        (ns, x)
    } else if width_of(ns, x).bits() < to.bits() {
        widened_made(ns, x, to, fuel, depth)
    } else {
        cut_made(ns, x, to, fuel, depth)
    }
}

/// Whether truncation can be pushed through an operator.
pub open spec fn cuts_through(op: BinOp) -> bool {
    match op {
        BinOp::And | BinOp::Or | BinOp::Xor => true,
        BinOp::Add | BinOp::Sub | BinOp::Mul => true,
        _ => false,
    }
}

/// What a truncation sees through to: an extension, another truncation, or a mask that keeps
/// what survives.
pub open spec fn seen_through(ns: Seq<Node>, x: Ref, to: Width) -> Option<Ref> {
    match op_of(ns, x) {
        Op::Zext(i) | Op::Sext(i) | Op::Trunc(i) => if width_of(ns, i).bits() < to.bits() {
            None
        } else {
            Some(i)
        },
        Op::Bin(BinOp::And, y, k) => match const_of(ns, k) {
            Some(c) => if c & to.mask() == to.mask() {
                Some(y)
            } else {
                None
            },
            None => None,
        },
        _ => None,
    }
}

/// Building a truncation: a constant is cut, what is seen through is gone, and bitwise
/// operators, sums, differences, products, complements and negations are computed on the
/// truncated operands.
#[verifier::opaque]
pub open spec fn cut_made(ns: Seq<Node>, x: Ref, to: Width, fuel: nat, depth: nat) -> (Seq<Node>, Ref)
    decreases fuel, 0nat, 0nat,
{
    let node = Node { op: Op::Trunc(x), width: to };
    if const_of(ns, x) is Some {
        literal(ns, const_of(ns, x)->0 & to.mask(), to)
    } else if fuel == 0 {
        recorded(ns, node)
    } else if seen_through(ns, x, to) is Some {
        cast_made(ns, seen_through(ns, x, to)->0, to, (fuel - 1) as nat, depth)
    } else {
        match op_of(ns, x) {
            Op::Bin(op, a, b) => if cuts_through(op) && depth < TRUNC_DISTRIBUTE_DEPTH {
                let s = cast_made(ns, a, to, (fuel - 1) as nat, depth + 1);
                let u = cast_made(s.0, b, to, (fuel - 1) as nat, depth + 1);
                let arithmetic = op == BinOp::Add || op == BinOp::Sub || op == BinOp::Mul;
                if arithmetic && width_of(u.0, s.1).wider(width_of(u.0, u.1)) != to {
                    recorded(u.0, node)
                } else {
                    bin_made(u.0, op, s.1, u.1, (fuel - 1) as nat, depth + 1)
                }
            } else {
                recorded(ns, node)
            },
            Op::Un(op, a) => if op == UnOp::Not || op == UnOp::Neg {
                let s = cast_made(ns, a, to, (fuel - 1) as nat, depth);
                if width_of(s.0, s.1) != to {
                    recorded(s.0, node)
                } else if op == UnOp::Not {
                    not_made(s.0, s.1, (fuel - 1) as nat, depth)
                } else {
                    neg_made(s.0, s.1)
                }
            } else {
                recorded(ns, node)
            },
            _ => recorded(ns, node),
        }
    }
}

/// Building a zero extension: a constant is widened, an extension is extended once, and a
/// truncation becomes a mask.
#[verifier::opaque]
pub open spec fn widened_made(ns: Seq<Node>, x: Ref, to: Width, fuel: nat, depth: nat) -> (Seq<Node>, Ref)
    decreases fuel, 0nat, 0nat,
{
    let from = width_of(ns, x);
    if const_of(ns, x) is Some {
        literal(ns, const_of(ns, x)->0 & from.mask(), to)
    } else if fuel == 0 {
        recorded(ns, Node { op: Op::Zext(x), width: to })
    } else {
        match op_of(ns, x) {
            Op::Zext(i) => cast_made(ns, i, to, (fuel - 1) as nat, depth),
            Op::Trunc(i) => {
                let s = cast_made(ns, i, to, (fuel - 1) as nat, depth);
                let k = literal(s.0, from.mask(), to);
                bin_made(k.0, BinOp::And, s.1, k.1, (fuel - 1) as nat, depth)
            },
            _ => recorded(ns, Node { op: Op::Zext(x), width: to }),
        }
    }
}

/// Whether a complement costs nothing.
pub open spec fn free_complement(ns: Seq<Node>, r: Ref) -> bool {
    match op_of(ns, r) {
        Op::Un(UnOp::Not, _) => true,
        Op::Const(_) => true,
        _ => false,
    }
}

/// The conjunction or disjunction a complement is pushed through, and what it becomes.
pub open spec fn flips(ns: Seq<Node>, x: Ref) -> Option<(BinOp, Ref, Ref)> {
    match op_of(ns, x) {
        Op::Bin(op, a, b) => if (op == BinOp::Or || op == BinOp::And) && width_of(ns, a) == width_of(ns, b)
            && (free_complement(ns, a) || free_complement(ns, b)) {
            Some(
                (
                    if op == BinOp::Or {
                        BinOp::And
                    } else {
                        BinOp::Or
                    },
                    a,
                    b,
                ),
            )
        } else {
            None
        },
        _ => None,
    }
}

/// Building a complement: a constant is complemented, a complement undone, and De Morgan
/// applied where one side's complement costs nothing.
#[verifier::opaque]
pub open spec fn not_made(ns: Seq<Node>, x: Ref, fuel: nat, depth: nat) -> (Seq<Node>, Ref)
    decreases fuel, 0nat, 0nat,
{
    let w = width_of(ns, x);
    if const_of(ns, x) is Some {
        literal(ns, !(const_of(ns, x)->0), w)
    } else {
        match op_of(ns, x) {
            Op::Un(UnOp::Not, inner) => (ns, inner),
            _ => if fuel > 0 && flips(ns, x) is Some {
                let (op, a, b) = flips(ns, x)->0;
                let s = not_made(ns, a, (fuel - 1) as nat, depth);
                let u = not_made(s.0, b, (fuel - 1) as nat, depth);
                bin_made(u.0, op, s.1, u.1, (fuel - 1) as nat, depth)
            } else {
                recorded(ns, Node { op: Op::Un(UnOp::Not, x), width: w })
            },
        }
    }
}

/// Building a negation.
pub open spec fn neg_made(ns: Seq<Node>, x: Ref) -> (Seq<Node>, Ref) {
    let w = width_of(ns, x);
    if const_of(ns, x) is Some {
        literal(ns, wsub(0, const_of(ns, x)->0), w)
    } else {
        match op_of(ns, x) {
            Op::Un(UnOp::Neg, inner) => (ns, inner),
            _ => recorded(ns, Node { op: Op::Un(UnOp::Neg, x), width: w }),
        }
    }
}

/// What was built, at exactly a width: rules may name it in fewer bits.
pub open spec fn padded(s: (Seq<Node>, Ref), width: Width) -> (Seq<Node>, Ref) {
    if width_of(s.0, s.1) == width {
        s
    } else if const_of(s.0, s.1) is Some {
        literal(s.0, const_of(s.0, s.1)->0, width)
    } else {
        recorded(s.0, Node { op: Op::Zext(s.1), width })
    }
}

/// The node of `a op b`.
pub open spec fn bin_node(ns: Seq<Node>, op: BinOp, a: Ref, b: Ref, depth: nat) -> (Seq<Node>, Ref) {
    padded(
        bin_made(ns, op, a, b, REWRITE_DEPTH as nat, depth),
        bin_width(op, width_of(ns, a), width_of(ns, b)),
    )
}

/// The node of `~x`.
pub open spec fn not_node(ns: Seq<Node>, x: Ref, depth: nat) -> (Seq<Node>, Ref) {
    padded(not_made(ns, x, REWRITE_DEPTH as nat, depth), width_of(ns, x))
}

/// The node of `x` cut or padded with zeros to a width.
pub open spec fn cast_node(ns: Seq<Node>, x: Ref, to: Width, depth: nat) -> (Seq<Node>, Ref) {
    padded(cast_made(ns, x, to, REWRITE_DEPTH as nat, depth), to)
}

/// The node of `x` cut or padded with its sign to a width.
pub open spec fn sext_node(ns: Seq<Node>, x: Ref, to: Width, depth: nat) -> (Seq<Node>, Ref) {
    let from = width_of(ns, x);
    if from == to {
        (ns, x)
    } else if to.bits() <= from.bits() {
        cast_node(ns, x, to, depth)
    } else {
        match const_of(ns, x) {
            Some(c) => literal(ns, sign_extend_spec(c, from), to),
            None => recorded(ns, Node { op: Op::Sext(x), width: to }),
        }
    }
}

/// The node of a unary operation.
pub open spec fn un_node(ns: Seq<Node>, op: UnOp, x: Ref, depth: nat) -> (Seq<Node>, Ref) {
    let w = width_of(ns, x);
    match op {
        UnOp::Not => not_node(ns, x, depth),
        UnOp::Neg => neg_made(ns, x),
        _ => match const_of(ns, x) {
            Some(c) => literal(ns, un_val(op, c, w), w),
            None => recorded(ns, Node { op: Op::Un(op, x), width: w }),
        },
    }
}

/// Building a choice: a known condition or equal arms pick an arm.
pub open spec fn select_made(ns: Seq<Node>, cond: Ref, a: Ref, b: Ref) -> (Seq<Node>, Ref) {
    match const_of(ns, cond) {
        Some(c) => (
            ns,
            if c != 0 {
                a
            } else {
                b
            },
        ),
        None => if a == b {
            (ns, a)
        } else {
            recorded(ns, Node { op: Op::Select(cond, a, b), width: width_of(ns, a) })
        },
    }
}

/// The node of a choice at the width of its first arm.
pub open spec fn select_node(ns: Seq<Node>, cond: Ref, a: Ref, b: Ref, depth: nat) -> (Seq<Node>, Ref) {
    let cut = cast_node(ns, b, width_of(ns, a), depth);
    select_made(cut.0, cond, a, cut.1)
}

/// Whether a rule's outcome is what the table says: nothing where it does not apply, and
/// otherwise its term, built.
pub open spec fn follows(
    before: (Seq<Node>, u32),
    after: Seq<Node>,
    r: Option<Ref>,
    t: Option<Term>,
    fuel: nat,
) -> bool {
    match t {
        Some(x) => r is Some && built(before.0, x, fuel, before.1 as nat) == (after, r->0),
        None => r is None && after == before.0,
    }
}

/// [`follows`] for a rule that names a node or a constant.
pub open spec fn settled(before: Seq<Node>, after: Seq<Node>, r: Option<Ref>, t: Option<Term>) -> bool {
    match t {
        Some(Term::Is(x)) => r == Some(x) && after == before,
        Some(Term::Lit(c, w)) => r is Some && literal(before, c, w) == (after, r->0),
        Some(_) => false,
        None => r is None && after == before,
    }
}

pub broadcast proof fn lemma_is(ns: Seq<Node>, r: Ref, fuel: nat, depth: nat)
    ensures
        #[trigger] built(ns, Term::Is(r), fuel, depth) == (ns, r),
{
    reveal_with_fuel(built, 1);
}

pub broadcast proof fn lemma_lit(ns: Seq<Node>, c: u64, w: Width, fuel: nat, depth: nat)
    ensures
        #[trigger] built(ns, Term::Lit(c, w), fuel, depth) == literal(ns, c, w),
{
    reveal_with_fuel(built, 1);
}

pub broadcast proof fn lemma_pair(ns: Seq<Node>, op: BinOp, x: Box<Term>, y: Box<Term>, fuel: nat, depth: nat)
    ensures
        #[trigger] built(ns, Term::Pair(op, x, y), fuel, depth) == ({
            let s = built(ns, *x, fuel, depth);
            let u = built(s.0, *y, fuel, depth);
            bin_made(u.0, op, s.1, u.1, fuel, depth)
        }),
{
    reveal_with_fuel(built, 2);
    reveal_with_fuel(bin_made, 1);
}

pub broadcast proof fn lemma_not(ns: Seq<Node>, x: Box<Term>, fuel: nat, depth: nat)
    ensures
        #[trigger] built(ns, Term::Not(x), fuel, depth) == ({
            let s = built(ns, *x, fuel, depth);
            not_made(s.0, s.1, fuel, depth)
        }),
{
    reveal_with_fuel(built, 2);
    reveal_with_fuel(not_made, 1);
}

pub broadcast proof fn lemma_fit(ns: Seq<Node>, x: Box<Term>, w: Width, fuel: nat, depth: nat)
    ensures
        #[trigger] built(ns, Term::Fit(x, w), fuel, depth) == ({
            let s = built(ns, *x, fuel, depth);
            if width_of(s.0, s.1).bits() > w.bits() {
                cast_made(s.0, s.1, w, fuel, depth)
            } else {
                s
            }
        }),
{
    reveal_with_fuel(built, 2);
    reveal_with_fuel(cast_made, 1);
}

/// How terms are built.
pub broadcast group group_built {
    lemma_is,
    lemma_lit,
    lemma_pair,
    lemma_not,
    lemma_fit,
}

/// The operands of a commutative operator can change places: the node is the same.
pub proof fn operand_order_does_not_matter(ns: Seq<Node>, op: BinOp, a: Ref, b: Ref, depth: nat)
    requires
        op.is_commutative(),
    ensures
        bin_node(ns, op, a, b, depth) == bin_node(ns, op, b, a, depth),
{
    reveal_with_fuel(bin_made, 1);
    reveal_with_fuel(ordered_made, 1);
    let w = width_of(ns, a).wider(width_of(ns, b));
    assert(width_of(ns, b).wider(width_of(ns, a)) == w);
    if const_of(ns, a) is Some && const_of(ns, b) is Some {
        let x = const_of(ns, a)->0;
        let y = const_of(ns, b)->0;
        lemma_commutes(op, x, y, w);
        assert(bin_fold(op, x, y, w) is Some && bin_fold(op, y, x, w) is Some);
    } else if a.idx == b.idx {
        assert(a == b);
    }
}

/// Sums and differences made of the parts of two values are rewritten to the plain operator:
/// `(x|y) + (x&y)` to `x + y`, `(x^y) + (x&y)` to `x | y`, `(x|y) - (x&y)` to `x ^ y`. A sum
/// of parts that cannot overlap is a union before it is anything else.
pub proof fn parts_are_put_together(
    ns: Seq<Node>,
    union: Ref,
    meet: Ref,
    apart: Ref,
    x: Ref,
    y: Ref,
    width: Width,
)
    requires
        op_of(ns, union) == Op::Bin(BinOp::Or, x, y),
        op_of(ns, meet) == Op::Bin(BinOp::And, x, y),
        op_of(ns, apart) == Op::Bin(BinOp::Xor, x, y),
        add_disjoint_rule(ns, union, meet, width) is None,
        add_disjoint_rule(ns, apart, meet, width) is None,
    ensures
        bin_rule(ns, BinOp::Add, union, meet, width) == over(BinOp::Add, x, y),
        bin_rule(ns, BinOp::Add, apart, meet, width) == over(BinOp::Or, x, y),
        bin_rule(ns, BinOp::Sub, union, meet, width) == over(BinOp::Xor, x, y),
{
    reveal(bin_rule);
    reveal(add_rule);
    reveal(add_trivial_rule);
    reveal(add_of_parts_rule);
    reveal(sub_rule);
    reveal(sub_trivial_rule);
    reveal(sub_of_parts_rule);
}

/// `x ^ (x | c)` is rewritten to `~x & c`, where `x` is not an operator itself.
pub proof fn a_union_gives_way_to_a_mask(ns: Seq<Node>, x: Ref, c: Ref, union: Ref, width: Width)
    requires
        op_of(ns, union) == Op::Bin(BinOp::Or, x, c),
        !(op_of(ns, x) is Bin),
        width_of(ns, c).bits() <= width_of(ns, x).bits(),
    ensures
        bin_rule(ns, BinOp::Xor, x, union, width) == Some(
            pair(BinOp::And, Term::Not(Box::new(Term::Is(x))), Term::Is(c)),
        ),
{
    reveal(bin_rule);
    reveal(xor_rule);
    reveal(xor_structural_rule);
    reveal(xor_of_parts_rule);
    reveal(xor_of_union_rule);
    reveal(xor_or_rule);
    reveal(xor_or_side);
}

} // verus!
