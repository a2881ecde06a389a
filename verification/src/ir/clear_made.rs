//! Constructors make nothing that is computed from more than their operands are.

use crate::ir::clear::{
    clear, leads, lemma_clear_depends, lemma_clear_more, lemma_depends_clear, lemma_literal,
    lemma_parts, lemma_recorded, sorted, term_clear,
};
use crate::ir::clear_rules::clear_bin_rule;
use crate::ir::expr::{
    bin_width, const_of, extends, has, nodes_ok, op_of, width_of, Node, Op, Ref,
    TRUNC_DISTRIBUTE_DEPTH,
};
use crate::ir::flow::{apart, params_only};
use crate::ir::fold::{sign_extend_spec, un_val, wsub};
use crate::ir::rules::{
    bin_made, bin_rule, built, cast_made, cast_node, collapsed_term, cut_made, cuts_through, flips,
    folded, literal, neg_made, not_made, ordered_made, padded, recorded, seen_through, select_made,
    size, swaps, widened_made, Term,
};
use crate::ir::value::{BinOp, UnOp, Width};
use crate::ir::walk::{
    depends, operands_first, rebuilt_node, rebuilt_upto, replacements_ok, rewrites,
};
use vstd::prelude::*;

verus! {

/// Two steps, the second from where the first leads.
proof fn lemma_steps(
    ns: Seq<Node>,
    mid: (Seq<Node>, Ref),
    out: (Seq<Node>, Ref),
    from: bool,
    onto: bool,
    ks: Set<usize>,
)
    requires
        leads(ns, mid, from, ks),
        leads(mid.0, out, onto, ks),
        sorted(ns, ks) && from && mid.0.len() <= usize::MAX ==> onto,
    ensures
        leads(ns, out, from, ks),
{
    assert forall|i: int| 0 <= i < ns.len() implies #[trigger] out.0[i] == ns[i] by {
        assert(mid.0[i] == ns[i]);
    }
}

/// What is clear stays so over a step.
proof fn lemma_over(ns: Seq<Node>, out: (Seq<Node>, Ref), from: bool, r: Ref, ks: Set<usize>)
    requires
        leads(ns, out, from, ks),
    ensures
        clear(ns, r, ks) ==> clear(out.0, r, ks),
{
    if clear(ns, r, ks) {
        lemma_clear_more(ns, out.0, r, ks);
    }
}

proof fn lemma_bin_made(ns: Seq<Node>, op: BinOp, a: Ref, b: Ref, fuel: nat, depth: nat, ks: Set<usize>)
    ensures
        leads(ns, bin_made(ns, op, a, b, fuel, depth), clear(ns, a, ks) && clear(ns, b, ks), ks),
    decreases fuel, 1nat, 0nat,
{
    reveal_with_fuel(bin_made, 1);
    reveal_with_fuel(ordered_made, 1);
    reveal_with_fuel(built, 1);
    let width = bin_width(op, width_of(ns, a), width_of(ns, b));
    if folded(ns, op, a, b) is Some {
        lemma_literal(ns, folded(ns, op, a, b)->0, width, ks);
    } else if fuel > 0 && a == b && collapsed_term(op, a, width) is Some {
        match collapsed_term(op, a, width)->0 {
            Term::Lit(c, w) => {
                lemma_literal(ns, c, w, ks);
            },
            _ => {},
        }
    } else if swaps(ns, op, a, b) {
        lemma_ordered_made(ns, op, b, a, fuel, depth, ks);
    } else {
        lemma_ordered_made(ns, op, a, b, fuel, depth, ks);
    }
}

proof fn lemma_ordered_made(ns: Seq<Node>, op: BinOp, a: Ref, b: Ref, fuel: nat, depth: nat, ks: Set<usize>)
    ensures
        leads(ns, ordered_made(ns, op, a, b, fuel, depth), clear(ns, a, ks) && clear(ns, b, ks), ks),
    decreases fuel, 0nat, 0nat,
{
    reveal_with_fuel(ordered_made, 1);
    reveal_with_fuel(built, 1);
    let width = bin_width(op, width_of(ns, a), width_of(ns, b));
    if fuel > 0 && bin_rule(ns, op, a, b, width) is Some {
        let t = bin_rule(ns, op, a, b, width)->0;
        lemma_built(ns, t, (fuel - 1) as nat, depth, ks);
        if sorted(ns, ks) {
            clear_bin_rule(ns, ks);
        }
    } else {
        lemma_recorded(ns, Node { op: Op::Bin(op, a, b), width }, ks);
    }
}

/// A clear term stays clear over a step.
proof fn lemma_term_over(ns: Seq<Node>, more: Seq<Node>, t: Term, ks: Set<usize>)
    requires
        extends(ns, more),
        term_clear(ns, t, ks),
    ensures
        term_clear(more, t, ks),
    decreases t,
{
    match t {
        Term::Is(r) => {
            lemma_clear_more(ns, more, r, ks);
        },
        Term::Lit(_, _) => {},
        Term::Not(x) => {
            lemma_term_over(ns, more, *x, ks);
        },
        Term::Pair(_, x, y) => {
            lemma_term_over(ns, more, *x, ks);
            lemma_term_over(ns, more, *y, ks);
        },
        Term::Fit(x, _) => {
            lemma_term_over(ns, more, *x, ks);
        },
    }
}

proof fn lemma_built(ns: Seq<Node>, t: Term, fuel: nat, depth: nat, ks: Set<usize>)
    ensures
        leads(ns, built(ns, t, fuel, depth), term_clear(ns, t, ks), ks),
    decreases fuel, 3nat, size(t),
{
    reveal_with_fuel(built, 2);
    reveal_with_fuel(not_made, 1);
    reveal_with_fuel(bin_made, 1);
    reveal_with_fuel(cast_made, 1);
    let from = term_clear(ns, t, ks);
    match t {
        Term::Is(r) => {},
        Term::Lit(c, w) => {
            lemma_literal(ns, c, w, ks);
        },
        Term::Not(x) => {
            let s = built(ns, *x, fuel, depth);
            lemma_built(ns, *x, fuel, depth, ks);
            lemma_not_made(s.0, s.1, fuel, depth, ks);
            lemma_steps(ns, s, not_made(s.0, s.1, fuel, depth), from, clear(s.0, s.1, ks), ks);
        },
        Term::Pair(op, x, y) => {
            let s = built(ns, *x, fuel, depth);
            let u = built(s.0, *y, fuel, depth);
            let out = bin_made(u.0, op, s.1, u.1, fuel, depth);
            lemma_built(ns, *x, fuel, depth, ks);
            lemma_built(s.0, *y, fuel, depth, ks);
            lemma_bin_made(u.0, op, s.1, u.1, fuel, depth, ks);
            if from {
                lemma_term_over(ns, s.0, *y, ks);
            }
            lemma_steps(ns, s, u, from, term_clear(s.0, *y, ks), ks);
            lemma_over(s.0, u, term_clear(s.0, *y, ks), s.1, ks);
            lemma_steps(ns, u, out, from, clear(u.0, s.1, ks) && clear(u.0, u.1, ks), ks);
        },
        Term::Fit(x, w) => {
            let s = built(ns, *x, fuel, depth);
            lemma_built(ns, *x, fuel, depth, ks);
            if width_of(s.0, s.1).bits() > w.bits() {
                lemma_cast_made(s.0, s.1, w, fuel, depth, ks);
                lemma_steps(ns, s, cast_made(s.0, s.1, w, fuel, depth), from, clear(s.0, s.1, ks), ks);
            }
        },
    }
}

proof fn lemma_cast_made(ns: Seq<Node>, x: Ref, to: Width, fuel: nat, depth: nat, ks: Set<usize>)
    ensures
        leads(ns, cast_made(ns, x, to, fuel, depth), clear(ns, x, ks), ks),
    decreases fuel, 2nat, 0nat,
{
    reveal_with_fuel(cast_made, 1);
    reveal_with_fuel(widened_made, 1);
    reveal_with_fuel(cut_made, 1);
    if width_of(ns, x) == to {
    } else if width_of(ns, x).bits() < to.bits() {
        lemma_widened_made(ns, x, to, fuel, depth, ks);
    } else {
        lemma_cut_made(ns, x, to, fuel, depth, ks);
    }
}

proof fn lemma_cut_made(ns: Seq<Node>, x: Ref, to: Width, fuel: nat, depth: nat, ks: Set<usize>)
    ensures
        leads(ns, cut_made(ns, x, to, fuel, depth), clear(ns, x, ks), ks),
    decreases fuel, 0nat, 0nat,
{
    reveal_with_fuel(cut_made, 1);
    reveal_with_fuel(cast_made, 1);
    reveal_with_fuel(bin_made, 1);
    reveal_with_fuel(not_made, 2);
    reveal_with_fuel(bin_made, 1);
    lemma_parts(ns, ks);
    let node = Node { op: Op::Trunc(x), width: to };
    let from = clear(ns, x, ks);
    let less = (fuel - 1) as nat;
    lemma_recorded(ns, node, ks);
    if const_of(ns, x) is Some {
        lemma_literal(ns, const_of(ns, x)->0 & to.mask(), to, ks);
    } else if fuel == 0 {
    } else if seen_through(ns, x, to) is Some {
        lemma_cast_made(ns, seen_through(ns, x, to)->0, to, less, depth, ks);
    } else {
        match op_of(ns, x) {
            Op::Bin(op, a, b) => if cuts_through(op) && depth < TRUNC_DISTRIBUTE_DEPTH {
                let s = cast_made(ns, a, to, less, depth + 1);
                let u = cast_made(s.0, b, to, less, depth + 1);
                lemma_cast_made(ns, a, to, less, depth + 1, ks);
                lemma_cast_made(s.0, b, to, less, depth + 1, ks);
                lemma_over(ns, s, clear(ns, a, ks), b, ks);
                lemma_over(ns, s, clear(ns, a, ks), x, ks);
                lemma_over(s.0, u, clear(s.0, b, ks), s.1, ks);
                lemma_over(s.0, u, clear(s.0, b, ks), x, ks);
                lemma_steps(ns, s, u, from, clear(s.0, b, ks), ks);
                lemma_recorded(u.0, node, ks);
                lemma_steps(ns, u, recorded(u.0, node), from, clear(u.0, x, ks), ks);
                lemma_bin_made(u.0, op, s.1, u.1, less, depth + 1, ks);
                lemma_steps(
                    ns,
                    u,
                    bin_made(u.0, op, s.1, u.1, less, depth + 1),
                    from,
                    clear(u.0, s.1, ks) && clear(u.0, u.1, ks),
                    ks,
                );
            },
            Op::Un(op, a) => if op == UnOp::Not || op == UnOp::Neg {
                let s = cast_made(ns, a, to, less, depth);
                lemma_cast_made(ns, a, to, less, depth, ks);
                lemma_over(ns, s, clear(ns, a, ks), x, ks);
                lemma_recorded(s.0, node, ks);
                lemma_not_made(s.0, s.1, less, depth, ks);
                lemma_neg_made(s.0, s.1, ks);
                if width_of(s.0, s.1) != to {
                    lemma_steps(ns, s, recorded(s.0, node), from, clear(s.0, x, ks), ks);
                } else if op == UnOp::Not {
                    lemma_steps(ns, s, not_made(s.0, s.1, less, depth), from, clear(s.0, s.1, ks), ks);
                } else {
                    lemma_steps(ns, s, neg_made(s.0, s.1), from, clear(s.0, s.1, ks), ks);
                }
            },
            _ => {},
        }
    }
}

proof fn lemma_widened_made(ns: Seq<Node>, x: Ref, to: Width, fuel: nat, depth: nat, ks: Set<usize>)
    ensures
        leads(ns, widened_made(ns, x, to, fuel, depth), clear(ns, x, ks), ks),
    decreases fuel, 0nat, 0nat,
{
    reveal_with_fuel(widened_made, 1);
    reveal_with_fuel(cast_made, 1);
    reveal_with_fuel(bin_made, 1);
    lemma_parts(ns, ks);
    let from = clear(ns, x, ks);
    let w = width_of(ns, x);
    let less = (fuel - 1) as nat;
    lemma_recorded(ns, Node { op: Op::Zext(x), width: to }, ks);
    if const_of(ns, x) is Some {
        lemma_literal(ns, const_of(ns, x)->0 & w.mask(), to, ks);
    } else if fuel > 0 {
        match op_of(ns, x) {
            Op::Zext(i) => {
                lemma_cast_made(ns, i, to, less, depth, ks);
            },
            Op::Trunc(i) => {
                let s = cast_made(ns, i, to, less, depth);
                let k = literal(s.0, w.mask(), to);
                lemma_cast_made(ns, i, to, less, depth, ks);
                lemma_literal(s.0, w.mask(), to, ks);
                lemma_over(s.0, k, true, s.1, ks);
                lemma_steps(ns, s, k, from, true, ks);
                lemma_bin_made(k.0, BinOp::And, s.1, k.1, less, depth, ks);
                lemma_steps(
                    ns,
                    k,
                    bin_made(k.0, BinOp::And, s.1, k.1, less, depth),
                    from,
                    clear(k.0, s.1, ks) && clear(k.0, k.1, ks),
                    ks,
                );
            },
            _ => {},
        }
    }
}

proof fn lemma_not_made(ns: Seq<Node>, x: Ref, fuel: nat, depth: nat, ks: Set<usize>)
    ensures
        leads(ns, not_made(ns, x, fuel, depth), clear(ns, x, ks), ks),
    decreases fuel, 0nat, 0nat,
{
    reveal_with_fuel(not_made, 2);
    reveal_with_fuel(bin_made, 1);
    lemma_parts(ns, ks);
    let from = clear(ns, x, ks);
    let w = width_of(ns, x);
    lemma_recorded(ns, Node { op: Op::Un(UnOp::Not, x), width: w }, ks);
    if const_of(ns, x) is Some {
        lemma_literal(ns, !(const_of(ns, x)->0), w, ks);
    } else if fuel > 0 && flips(ns, x) is Some {
        let less = (fuel - 1) as nat;
        let (op, a, b) = flips(ns, x)->0;
        let s = not_made(ns, a, less, depth);
        let u = not_made(s.0, b, less, depth);
        lemma_not_made(ns, a, less, depth, ks);
        lemma_not_made(s.0, b, less, depth, ks);
        lemma_over(ns, s, clear(ns, a, ks), b, ks);
        lemma_over(s.0, u, clear(s.0, b, ks), s.1, ks);
        lemma_steps(ns, s, u, from, clear(s.0, b, ks), ks);
        lemma_bin_made(u.0, op, s.1, u.1, less, depth, ks);
        lemma_steps(
            ns,
            u,
            bin_made(u.0, op, s.1, u.1, less, depth),
            from,
            clear(u.0, s.1, ks) && clear(u.0, u.1, ks),
            ks,
        );
    }
}

proof fn lemma_neg_made(ns: Seq<Node>, x: Ref, ks: Set<usize>)
    ensures
        leads(ns, neg_made(ns, x), clear(ns, x, ks), ks),
{
    lemma_parts(ns, ks);
    let w = width_of(ns, x);
    lemma_recorded(ns, Node { op: Op::Un(UnOp::Neg, x), width: w }, ks);
    if const_of(ns, x) is Some {
        lemma_literal(ns, wsub(0, const_of(ns, x)->0), w, ks);
    }
}

proof fn lemma_padded(ns: Seq<Node>, s: (Seq<Node>, Ref), width: Width, from: bool, ks: Set<usize>)
    requires
        leads(ns, s, from, ks),
    ensures
        leads(ns, padded(s, width), from, ks),
{
    lemma_recorded(s.0, Node { op: Op::Zext(s.1), width }, ks);
    if width_of(s.0, s.1) == width {
    } else if const_of(s.0, s.1) is Some {
        lemma_literal(s.0, const_of(s.0, s.1)->0, width, ks);
        lemma_steps(ns, s, padded(s, width), from, true, ks);
    } else {
        lemma_steps(ns, s, padded(s, width), from, clear(s.0, s.1, ks), ks);
    }
}

proof fn lemma_cast_node(ns: Seq<Node>, x: Ref, to: Width, depth: nat, ks: Set<usize>)
    ensures
        leads(ns, cast_node(ns, x, to, depth), clear(ns, x, ks), ks),
{
    let fuel = crate::ir::simplify::REWRITE_DEPTH as nat;
    lemma_cast_made(ns, x, to, fuel, depth, ks);
    lemma_padded(ns, cast_made(ns, x, to, fuel, depth), to, clear(ns, x, ks), ks);
}

/// Rebuilding a node from what is clear makes what is clear.
proof fn lemma_rebuilt_node(ns: Seq<Node>, cur: Ref, done: Map<usize, Ref>, depth: nat, ks: Set<usize>)
    requires
        has(ns, cur),
        !ks.contains(cur.idx),
    ensures
        leads(
            ns,
            rebuilt_node(ns, cur, done, depth),
            forall|c: Ref| #[trigger]
                crate::ir::expr::operands(op_of(ns, cur)).contains(c) ==> clear(ns, done[c.idx], ks),
            ks,
        ),
{
    let from = forall|c: Ref| #[trigger]
        crate::ir::expr::operands(op_of(ns, cur)).contains(c) ==> clear(ns, done[c.idx], ks);
    let w = width_of(ns, cur);
    let fuel = crate::ir::simplify::REWRITE_DEPTH as nat;
    crate::ir::walk::lemma_members(op_of(ns, cur));
    match op_of(ns, cur) {
        Op::Load(a, gen_at) => {
            lemma_recorded(ns, Node { op: Op::Load(done[a.idx], gen_at), width: w }, ks);
        },
        Op::Bin(op, a, b) => {
            let x = done[a.idx];
            let y = done[b.idx];
            lemma_bin_made(ns, op, x, y, fuel, depth, ks);
            lemma_padded(
                ns,
                bin_made(ns, op, x, y, fuel, depth),
                bin_width(op, width_of(ns, x), width_of(ns, y)),
                clear(ns, x, ks) && clear(ns, y, ks),
                ks,
            );
        },
        Op::Un(op, a) => {
            let x = done[a.idx];
            let wx = width_of(ns, x);
            lemma_not_made(ns, x, fuel, depth, ks);
            lemma_padded(ns, not_made(ns, x, fuel, depth), wx, clear(ns, x, ks), ks);
            lemma_neg_made(ns, x, ks);
            lemma_recorded(ns, Node { op: Op::Un(op, x), width: wx }, ks);
            if let Some(c) = const_of(ns, x) {
                lemma_literal(ns, un_val(op, c, wx), wx, ks);
            }
        },
        Op::Zext(a) | Op::Trunc(a) => {
            lemma_cast_node(ns, done[a.idx], w, depth, ks);
        },
        Op::Sext(a) => {
            let x = done[a.idx];
            lemma_cast_node(ns, x, w, depth, ks);
            lemma_recorded(ns, Node { op: Op::Sext(x), width: w }, ks);
            if let Some(c) = const_of(ns, x) {
                lemma_literal(ns, sign_extend_spec(c, width_of(ns, x)), w, ks);
            }
        },
        Op::Select(c, a, b) => {
            let z = done[c.idx];
            let x = done[a.idx];
            let y = done[b.idx];
            let cut = cast_node(ns, y, width_of(ns, x), depth);
            lemma_cast_node(ns, y, width_of(ns, x), depth, ks);
            lemma_over(ns, cut, clear(ns, y, ks), z, ks);
            lemma_over(ns, cut, clear(ns, y, ks), x, ks);
            let node = Node { op: Op::Select(z, x, cut.1), width: width_of(cut.0, x) };
            lemma_recorded(cut.0, node, ks);
            let onto = clear(cut.0, z, ks) && clear(cut.0, x, ks) && clear(cut.0, cut.1, ks);
            assert(leads(cut.0, select_made(cut.0, z, x, cut.1), onto, ks));
            lemma_steps(ns, cut, select_made(cut.0, z, x, cut.1), from, onto, ks);
        },
        _ => {
            if sorted(ns, ks) {
                reveal_with_fuel(clear, 1);
            }
        },
    }
}

/// Rebuilding in an order, operands first, replaces every key.
proof fn lemma_rebuilt_upto(
    ns: Seq<Node>,
    map: Map<usize, Ref>,
    order: Seq<Ref>,
    k: int,
    depth: nat,
)
    requires
        0 <= k <= order.len(),
        sorted(ns, map.dom()),
        forall|i: usize| #[trigger] map.dom().contains(i) ==> clear(ns, map[i], map.dom()),
        forall|j: int| 0 <= j < order.len() ==> has(ns, #[trigger] order[j]),
        forall|j: int|
            0 <= j < order.len() && !map.dom().contains((#[trigger] order[j]).idx) ==> operands_first(
                ns,
                order,
                Map::<usize, Ref>::empty(),
                j,
            ),
    ensures
        extends(ns, rebuilt_upto(ns, map, order, k, depth).0),
        forall|j: int|
            0 <= j < k ==> rebuilt_upto(ns, map, order, k, depth).1.dom().contains((#[trigger] order[j]).idx),
        rebuilt_upto(ns, map, order, k, depth).0.len() <= usize::MAX ==> sorted(
            rebuilt_upto(ns, map, order, k, depth).0,
            map.dom(),
        ) && forall|i: usize| #[trigger]
            rebuilt_upto(ns, map, order, k, depth).1.dom().contains(i) ==> clear(
                rebuilt_upto(ns, map, order, k, depth).0,
                rebuilt_upto(ns, map, order, k, depth).1[i],
                map.dom(),
            ),
    decreases k,
{
    let ks = map.dom();
    if k > 0 {
        lemma_rebuilt_upto(ns, map, order, k - 1, depth);
        let (before, done) = rebuilt_upto(ns, map, order, k - 1, depth);
        let cur = order[k - 1];
        assert(has(ns, order[k - 1]));
        let (after, now) = rebuilt_upto(ns, map, order, k, depth);
        if ks.contains(cur.idx) {
            lemma_clear_more(ns, before, map[cur.idx], ks);
        } else {
            let out = rebuilt_node(before, cur, done, depth);
            assert(before[cur.idx as int] == ns[cur.idx as int]);
            lemma_rebuilt_node(before, cur, done, depth, ks);
            assert(operands_first(ns, order, Map::<usize, Ref>::empty(), k - 1));
            assert forall|c: Ref| before.len() <= usize::MAX && #[trigger]
                crate::ir::expr::operands(op_of(before, cur)).contains(c) implies clear(
                before,
                done[c.idx],
                ks,
            ) by {
                let earlier = order.take(k - 1);
                assert(earlier.contains(c));
                let j = choose|j: int| 0 <= j < earlier.len() && earlier[j] == c;
                assert(order[j] == c);
                assert(done.dom().contains(c.idx));
            }
            assert forall|i: int| 0 <= i < ns.len() implies #[trigger] after[i] == ns[i] by {
                assert(before[i] == ns[i]);
            }
            if after.len() <= usize::MAX {
                assert forall|i: usize| #[trigger] now.dom().contains(i) implies clear(after, now[i], ks) by {
                    if i != cur.idx {
                        assert(done.dom().contains(i));
                        lemma_clear_more(before, after, done[i], ks);
                    }
                }
            }
        }
        assert forall|j: int| 0 <= j < k implies now.dom().contains((#[trigger] order[j]).idx) by {
            if j < k - 1 {
                assert(done.dom().contains(order[j].idx));
            }
        }
    }
}

/// Where no replacement is computed from a parameter that is itself replaced, what an expression
/// becomes is computed from no replaced parameter any more.
pub proof fn replaced_parameters_are_gone(
    ns: Seq<Node>,
    r: Ref,
    map: Map<usize, Ref>,
    order: Seq<Ref>,
    depth: nat,
    after: Seq<Node>,
    out: Ref,
    p: Ref,
)
    requires
        nodes_ok(ns),
        has(ns, r),
        ns.len() <= usize::MAX,
        after.len() <= usize::MAX,
        rewrites(ns, r, map, order, depth, after, out),
        replacements_ok(ns, map),
        apart(ns, map),
        params_only(ns, map),
        map.dom().contains(p.idx),
    ensures
        !depends(after, out, p),
{
    let ks = map.dom();
    let n = order.len() as int;
    let all = rebuilt_upto(ns, map, order, n, depth);
    assert(sorted(ns, ks)) by {
        assert forall|i: int| 0 <= i < ns.len() implies crate::ir::expr::operands_before(
            (#[trigger] ns[i]).op,
            i,
        ) by {
            assert(crate::ir::expr::ok_at(ns, i));
        }
    }
    assert forall|i: usize| #[trigger] ks.contains(i) implies clear(ns, map[i], ks) by {
        assert forall|x: Ref| #[trigger] depends(ns, map[i], x) implies !ks.contains(x.idx) by {
            if ks.contains(x.idx) {
                assert(!depends(ns, map[i], x));
            }
        }
        lemma_depends_clear(ns, map[i], ks);
    }
    assert forall|j: int| 0 <= j < order.len() implies has(ns, #[trigger] order[j]) by {
        assert(depends(ns, r, order[j]));
        crate::ir::walk::lemma_depends_held(ns, r, order[j]);
    }
    lemma_rebuilt_upto(ns, map, order, n, depth);
    let j = choose|j: int| 0 <= j < order.len() && order[j] == r;
    assert(all.1.dom().contains(order[j].idx));
    if depends(after, out, p) {
        lemma_clear_depends(after, out, p, ks);
    }
}

} // verus!
