//! Walks over the expression DAG: reachable nodes, copies between arenas, substitution.

use crate::ir::expr::{
    all_distinct, const_of, eval, extends, has, is_const, node_same, nodes_ok, ok_at, op_of, op_same, operands,
    some_env, width_of, Arena, Env, Node, Op, Ref, Width,
};
use crate::ir::fold::{bin_fold, bin_val, lemma_mask, sign_extend_spec, un_val};
use crate::ir::rules::{bin_node, cast_node, recorded, select_node, sext_node, un_node};
use std::collections::{HashMap, HashSet};
use vstd::prelude::*;

verus! {

broadcast use vstd::std_specs::hash::group_hash_axioms;

/// `x` is `r` or one of the nodes it is computed from.
pub open spec fn depends(ns: Seq<Node>, r: Ref, x: Ref) -> bool
    decreases r.idx,
{
    ||| x == r
    ||| exists|c: Ref|
        #![trigger operands(op_of(ns, r)).contains(c)]
        operands(op_of(ns, r)).contains(c) && c.idx < r.idx && depends(ns, c, x)
}

/// Whether a walk has come upon a node.
pub open spec fn met(before: Seq<(Ref, nat)>, r: Ref) -> bool {
    exists|i: int| 0 <= i < before.len() && (#[trigger] before[i]).0 == r
}

/// What a walk has come upon, and how deep, when it has gone through `r` at a depth: a node
/// itself first, its last operand next, and nothing a second time.
#[verifier::opaque]
pub open spec fn visited(
    ns: Seq<Node>,
    r: Ref,
    depth: nat,
    before: Seq<(Ref, nat)>,
) -> Seq<(Ref, nat)>
    decreases 2 * r.idx + 1, 0nat,
{
    if met(before, r) {
        before
    } else {
        visited_all(ns, operands(op_of(ns, r)), depth + 1, r.idx as nat, before.push((r, depth)))
    }
}

/// The same for nodes below a position, the last of them first.
#[verifier::opaque]
pub open spec fn visited_all(
    ns: Seq<Node>,
    refs: Seq<Ref>,
    depth: nat,
    below: nat,
    before: Seq<(Ref, nat)>,
) -> Seq<(Ref, nat)>
    decreases 2 * below, refs.len(),
{
    if refs.len() == 0 || refs.last().idx >= below {
        before
    } else {
        visited_all(ns, refs.drop_last(), depth, below, visited(ns, refs.last(), depth, before))
    }
}

/// The nodes `r` is computed from, in the order of the walk, each with how deep below `r` the
/// walk first comes upon it.
pub open spec fn walked_ranked(ns: Seq<Node>, r: Ref) -> Seq<(Ref, nat)> {
    visited(ns, r, 0, Seq::empty())
}

/// The nodes `r` is computed from, in the order of the walk.
pub open spec fn walked(ns: Seq<Node>, r: Ref) -> Seq<Ref> {
    Seq::new(walked_ranked(ns, r).len(), |i: int| walked_ranked(ns, r)[i].0)
}

/// The symbolic leaves `r` is computed from, in the order of the walk.
pub open spec fn leaves_in(ns: Seq<Node>, r: Ref) -> Seq<Ref> {
    walked(ns, r).filter(|x: Ref| is_leaf(op_of(ns, x)))
}

/// Nodes with their depths.
pub open spec fn ranked(v: Seq<Ref>, depths: Seq<usize>) -> Seq<(Ref, nat)> {
    Seq::new(v.len(), |i: int| (v[i], depths[i] as nat))
}

/// What a walk comes upon that has a stack of nodes left.
spec fn worked_off(
    ns: Seq<Node>,
    stack: Seq<(Ref, nat)>,
    before: Seq<(Ref, nat)>,
) -> Seq<(Ref, nat)>
    decreases stack.len(),
{
    if stack.len() == 0 {
        before
    } else {
        worked_off(
            ns,
            stack.drop_last(),
            visited(ns, stack.last().0, stack.last().1, before),
        )
    }
}

/// What lies on top of a stack is worked off first.
proof fn lemma_on_top(
    ns: Seq<Node>,
    stack: Seq<(Ref, nat)>,
    refs: Seq<Ref>,
    depth: nat,
    below: nat,
    before: Seq<(Ref, nat)>,
)
    requires
        forall|i: int| 0 <= i < refs.len() ==> (#[trigger] refs[i]).idx < below,
    ensures
        worked_off(ns, stack + Seq::new(refs.len(), |i: int| (refs[i], depth)), before)
            == worked_off(ns, stack, visited_all(ns, refs, depth, below, before)),
    decreases refs.len(),
{
    reveal_with_fuel(visited, 1);
    reveal_with_fuel(visited_all, 1);
    let top = Seq::new(refs.len(), |i: int| (refs[i], depth));
    if refs.len() == 0 {
        assert(stack + top =~= stack);
    } else {
        let rest = refs.drop_last();
        assert((stack + top).drop_last() =~= stack + Seq::new(
            rest.len(),
            |i: int| (rest[i], depth),
        ));
        lemma_on_top(ns, stack, rest, depth, below, visited(ns, refs.last(), depth, before));
    }
}

/// Going through one node of a stack.
proof fn lemma_worked_off(
    ns: Seq<Node>,
    stack: Seq<(Ref, nat)>,
    cur: Ref,
    depth: nat,
    before: Seq<(Ref, nat)>,
)
    requires
        nodes_ok(ns),
        has(ns, cur),
    ensures
        worked_off(ns, stack.push((cur, depth)), before) == if met(before, cur) {
            worked_off(ns, stack, before)
        } else {
            worked_off(
                ns,
                stack + Seq::new(
                    operands(op_of(ns, cur)).len(),
                    |i: int| (operands(op_of(ns, cur))[i], depth + 1),
                ),
                before.push((cur, depth)),
            )
        },
{
    reveal_with_fuel(visited, 1);
    reveal_with_fuel(visited_all, 1);
    assert(stack.push((cur, depth)).drop_last() =~= stack);
    if !met(before, cur) {
        let kids = operands(op_of(ns, cur));
        lemma_operands(ns, cur);
        assert forall|i: int| 0 <= i < kids.len() implies (#[trigger] kids[i]).idx < cur.idx by {
            assert(kids.contains(kids[i]));
        }
        lemma_on_top(ns, stack, kids, depth + 1, cur.idx as nat, before.push((cur, depth)));
    }
}

/// `x` is reached from `r` by so many steps from a node to an operand.
pub open spec fn lies_below(ns: Seq<Node>, r: Ref, x: Ref, steps: nat) -> bool
    decreases steps,
{
    if steps == 0 {
        x == r
    } else {
        exists|y: Ref|
            #![trigger operands(op_of(ns, y)).contains(x)]
            operands(op_of(ns, y)).contains(x) && lies_below(ns, r, y, (steps - 1) as nat)
    }
}

/// Nodes whose value an expression cannot compute from others alone.
pub open spec fn is_leaf(op: Op) -> bool {
    match op {
        Op::InitReg(_) | Op::Opaque(_, _) | Op::Param(_, _) | Op::Load(_, _) => true,
        _ => false,
    }
}

/// The operands of an operation, one by one.
pub proof fn lemma_members(op: Op)
    ensures
        match op {
            Op::Load(a, _) | Op::Un(_, a) | Op::Zext(a) | Op::Sext(a) | Op::Trunc(a) => operands(
                op,
            ).contains(a),
            Op::Bin(_, a, b) => operands(op).contains(a) && operands(op).contains(b),
            Op::Select(c, a, b) => operands(op).contains(c) && operands(op).contains(a)
                && operands(op).contains(b),
            _ => true,
        },
{
    let s = operands(op);
    match op {
        Op::Load(a, _) | Op::Un(_, a) | Op::Zext(a) | Op::Sext(a) | Op::Trunc(a) => {
            assert(s[0] == a);
        },
        Op::Bin(_, a, b) => {
            assert(s[0] == a && s[1] == b);
        },
        Op::Select(c, a, b) => {
            assert(s[0] == c && s[1] == a && s[2] == b);
        },
        _ => {},
    }
}

/// A set of small numbers is small.
pub proof fn lemma_bounded_set(s: Set<usize>, n: nat)
    requires
        s.finite(),
        forall|x: usize| #[trigger] s.contains(x) ==> x < n,
    ensures
        s.len() <= n,
    decreases n,
{
    if n == 0 {
        assert(s =~= Set::<usize>::empty());
    } else {
        let top = (n - 1) as usize;
        if n - 1 <= usize::MAX {
            let t = s.remove(top);
            assert forall|x: usize| #[trigger] t.contains(x) implies x < n - 1 by {
                assert(s.contains(x));
            }
            lemma_bounded_set(t, (n - 1) as nat);
        } else {
            lemma_bounded_set(s, (n - 1) as nat);
        }
    }
}

/// Operands of a node are earlier nodes.
pub proof fn lemma_operands(ns: Seq<Node>, r: Ref)
    requires
        nodes_ok(ns),
        has(ns, r),
    ensures
        forall|c: Ref| #[trigger]
            operands(op_of(ns, r)).contains(c) ==> c.idx < r.idx && has(ns, c),
{
    assert(ok_at(ns, r.idx as int));
}

/// An operand lies one step further below.
proof fn lemma_lies_step(ns: Seq<Node>, r: Ref, y: Ref, x: Ref, steps: nat)
    requires
        lies_below(ns, r, y, steps),
        operands(op_of(ns, y)).contains(x),
    ensures
        lies_below(ns, r, x, steps + 1),
{
    reveal_with_fuel(lies_below, 2);
}

/// A set closed under operands holds everything its members depend on.
pub proof fn lemma_closed(ns: Seq<Node>, s: Set<usize>, r: Ref, x: Ref)
    requires
        s.contains(r.idx),
        depends(ns, r, x),
        forall|y: Ref, c: Ref|
            s.contains(y.idx) && #[trigger] operands(op_of(ns, y)).contains(c) ==> s.contains(
                c.idx,
            ),
    ensures
        s.contains(x.idx),
    decreases r.idx,
{
    if x != r {
        let c = choose|c: Ref|
            #![trigger operands(op_of(ns, r)).contains(c)]
            operands(op_of(ns, r)).contains(c) && c.idx < r.idx && depends(ns, c, x);
        lemma_closed(ns, s, c, x);
    }
}

/// What a node depends on is there.
pub proof fn lemma_depends_held(ns: Seq<Node>, r: Ref, x: Ref)
    requires
        nodes_ok(ns),
        has(ns, r),
        depends(ns, r, x),
    ensures
        has(ns, x),
    decreases r.idx,
{
    if x != r {
        let c = choose|c: Ref|
            #![trigger operands(op_of(ns, r)).contains(c)]
            operands(op_of(ns, r)).contains(c) && c.idx < r.idx && depends(ns, c, x);
        lemma_depends_held(ns, c, x);
    }
}

/// An operand of something `r` depends on is something `r` depends on.
pub proof fn lemma_depends_step(ns: Seq<Node>, r: Ref, y: Ref, c: Ref)
    requires
        nodes_ok(ns),
        has(ns, r),
        depends(ns, r, y),
        operands(op_of(ns, y)).contains(c),
    ensures
        depends(ns, r, c),
        has(ns, y),
        has(ns, c),
    decreases r.idx,
{
    lemma_operands(ns, r);
    if y == r {
        assert(depends(ns, c, c));
    } else {
        let d = choose|d: Ref|
            #![trigger operands(op_of(ns, r)).contains(d)]
            operands(op_of(ns, r)).contains(d) && d.idx < r.idx && depends(ns, d, y);
        lemma_depends_step(ns, d, y, c);
    }
}

impl Arena {
    /// Every node `r` is computed from, `r` first, each once.
    pub fn reachable(&self, r: Ref) -> (out: Vec<Ref>)
        requires
            self.wf(),
            self.holds(r),
        ensures
            forall|x: Ref| #[trigger] out@.contains(x) <==> depends(self.nodes@, r, x),
            out@.no_duplicates(),
            forall|i: int| 0 <= i < out@.len() ==> self.holds(#[trigger] out@[i]),
            out@.len() > 0,
            out@[0] == r,
            out@ == walked(self.nodes@, r),
    {
        self.reachable_ranked(r).0
    }

    /// Every node `r` is computed from, `r` first, each once, with how deep below `r` it was
    /// first come upon.
    pub fn reachable_ranked(&self, r: Ref) -> (found: (Vec<Ref>, Vec<usize>))
        requires
            self.wf(),
            self.holds(r),
        ensures
            forall|x: Ref| #[trigger] found.0@.contains(x) <==> depends(self.nodes@, r, x),
            found.0@.no_duplicates(),
            forall|i: int| 0 <= i < found.0@.len() ==> self.holds(#[trigger] found.0@[i]),
            found.0@.len() > 0,
            found.0@[0] == r,
            found.0@ == walked(self.nodes@, r),
            found.1@.len() == found.0@.len(),
            ranked(found.0@, found.1@) == walked_ranked(self.nodes@, r),
            forall|i: int|
                0 <= i < found.0@.len() ==> lies_below(
                    self.nodes@,
                    r,
                    #[trigger] found.0@[i],
                    found.1@[i] as nat,
                ),
    {
        let ghost ns = self.nodes@;
        let mut seen: HashSet<usize> = HashSet::new();
        let mut out: Vec<Ref> = Vec::new();
        let mut ranks: Vec<usize> = Vec::new();
        let mut stack: Vec<Ref> = vec![r];
        let mut depths: Vec<usize> = vec![0];
        proof {
            assert(depends(ns, r, r));
            assert(stack@[0] == r);
            reveal_with_fuel(worked_off, 2);
            assert(ranked(stack@, depths@) =~= seq![(r, 0nat)]);
            assert(ranked(stack@, depths@).drop_last() =~= Seq::<(Ref, nat)>::empty());
            assert(ranked(out@, ranks@) =~= Seq::<(Ref, nat)>::empty());
        }
        while stack.len() > 0
            invariant
                self.wf(),
                self.holds(r),
                ns == self.nodes@,
                worked_off(ns, ranked(stack@, depths@), ranked(out@, ranks@)) == walked_ranked(ns, r),
                ranks@.len() == out@.len(),
                depths@.len() == stack@.len(),
                forall|i: int|
                    0 <= i < stack@.len() ==> lies_below(
                        ns,
                        r,
                        #[trigger] stack@[i],
                        depths@[i] as nat,
                    ) && depths@[i] + stack@[i].idx <= r.idx,
                forall|i: int|
                    0 <= i < out@.len() ==> lies_below(
                        ns,
                        r,
                        #[trigger] out@[i],
                        ranks@[i] as nat,
                    ),
                seen@.finite(),
                forall|k: usize| #[trigger] seen@.contains(k) ==> k < ns.len(),
                forall|i: int|
                    0 <= i < stack@.len() ==> has(ns, #[trigger] stack@[i]) && depends(
                        ns,
                        r,
                        stack@[i],
                    ),
                forall|i: int|
                    0 <= i < out@.len() ==> has(ns, #[trigger] out@[i]) && depends(ns, r, out@[i])
                        && seen@.contains(out@[i].idx),
                forall|k: usize| #[trigger]
                    seen@.contains(k) ==> out@.contains(Ref { idx: k }),
                out@.no_duplicates(),
                seen@.contains(r.idx) || (out@.len() == 0 && stack@ == seq![r]),
                out@.len() > 0 ==> out@[0] == r,
                forall|y: Ref, c: Ref|
                    seen@.contains(y.idx) && #[trigger] operands(op_of(ns, y)).contains(c)
                        ==> seen@.contains(c.idx) || stack@.contains(c),
            decreases ns.len() - seen@.len(), stack@.len(),
        {
            let ghost before = stack@;
            let ghost deep = depths@;
            let ghost seen0 = seen@;
            let cur = stack.pop().unwrap();
            let depth: usize = depths.pop().unwrap();
            let ghost popped = stack@;
            let ghost depths0 = depths@;
            proof {
                assert(lies_below(ns, r, before[before.len() - 1], depth as nat));
                assert forall|i: int| 0 <= i < popped.len() implies lies_below(
                    ns,
                    r,
                    #[trigger] popped[i],
                    depths0[i] as nat,
                ) && depths0[i] + popped[i].idx <= r.idx by {
                    assert(popped[i] == before[i]);
                }
                lemma_bounded_set(seen@, ns.len());
                assert(before =~= popped.push(cur));
                assert(ranked(before, deep) =~= ranked(popped, depths0).push((cur, depth as nat)));
                lemma_worked_off(
                    ns,
                    ranked(popped, depths0),
                    cur,
                    depth as nat,
                    ranked(out@, ranks@),
                );
                assert(met(ranked(out@, ranks@), cur) == out@.contains(cur)) by {
                    if out@.contains(cur) {
                        let j = choose|j: int| 0 <= j < out@.len() && out@[j] == cur;
                        assert(ranked(out@, ranks@)[j].0 == cur);
                    }
                }
                assert forall|c: Ref| before.contains(c) implies c == cur || popped.contains(
                    c,
                ) by {
                    let j = choose|j: int| 0 <= j < before.len() && before[j] == c;
                    if j < popped.len() {
                        assert(popped[j] == c);
                    }
                }
            }
            if seen.contains(&cur.idx) {
                continue ;
            }
            let ghost out0 = out@;
            let ghost ranks0 = ranks@;
            seen.insert(cur.idx);
            out.push(cur);
            ranks.push(depth);
            let kids = self.children(cur);
            let mut i: usize = 0;
            proof {
                lemma_operands(ns, cur);
                lemma_bounded_set(seen@, ns.len());
                assert forall|k: usize| #[trigger] seen@.contains(k) implies out@.contains(
                    Ref { idx: k },
                ) by {
                    if k == cur.idx {
                        assert(out@[out0.len() as int] == cur);
                    } else {
                        let j = choose|j: int|
                            0 <= j < out0.len() && out0[j] == (Ref { idx: k });
                        assert(out@[j] == (Ref { idx: k }));
                    }
                }
            }
            while i < kids.len()
                invariant
                    nodes_ok(ns),
                    depths@.len() == stack@.len(),
                    lies_below(ns, r, cur, depth as nat),
                    depth + cur.idx <= r.idx,
                    has(ns, cur),
                    forall|j: int|
                        0 <= j < stack@.len() ==> lies_below(
                            ns,
                            r,
                            #[trigger] stack@[j],
                            depths@[j] as nat,
                        ) && depths@[j] + stack@[j].idx <= r.idx,
                    has(ns, r),
                    depends(ns, r, cur),
                    kids@ == operands(op_of(ns, cur)),
                    i <= kids@.len(),
                    stack@ == popped + kids@.take(i as int),
                    depths0.len() == popped.len(),
                    forall|j: int| 0 <= j < popped.len() ==> #[trigger] depths@[j] == depths0[j],
                    forall|j: int|
                        popped.len() <= j < stack@.len() ==> #[trigger] depths@[j] == depth + 1,
                    forall|j: int|
                        0 <= j < stack@.len() ==> has(ns, #[trigger] stack@[j]) && depends(
                            ns,
                            r,
                            stack@[j],
                        ),
                decreases kids@.len() - i,
            {
                proof {
                    assert(operands(op_of(ns, cur)).contains(kids@[i as int]));
                    lemma_depends_step(ns, r, cur, kids@[i as int]);
                    lemma_operands(ns, cur);
                    assert(kids@[i as int].idx < cur.idx);
                    lemma_lies_step(ns, r, cur, kids@[i as int], depth as nat);
                }
                stack.push(kids[i]);
                depths.push(depth + 1);
                i = i + 1;
                proof {
                    assert(stack@ =~= popped + kids@.take(i as int));
                }
            }
            proof {
                assert(kids@.take(i as int) =~= kids@);
                assert(ranked(stack@, depths@) =~= ranked(popped, depths0) + Seq::new(
                    operands(op_of(ns, cur)).len(),
                    |i: int| (operands(op_of(ns, cur))[i], (depth + 1) as nat),
                ));
                assert(ranked(out@, ranks@) =~= ranked(out0, ranks0).push((cur, depth as nat)));
                assert forall|y: Ref, c: Ref|
                    seen@.contains(y.idx) && #[trigger] operands(op_of(ns, y)).contains(
                        c,
                    ) implies seen@.contains(c.idx) || stack@.contains(c) by {
                    if y == cur {
                        let j = choose|j: int| 0 <= j < kids@.len() && kids@[j] == c;
                        assert(stack@[popped.len() + j] == c);
                    } else {
                        assert(seen0.contains(y.idx));
                        if !seen0.contains(c.idx) && c != cur {
                            assert(before.contains(c));
                            assert(popped.contains(c));
                            let j = choose|j: int| 0 <= j < popped.len() && popped[j] == c;
                            assert(stack@[j] == c);
                        }
                    }
                }
                if out0.len() == 0 {
                    assert(before[before.len() - 1] == cur);
                }
            }
        }
        proof {
            assert forall|x: Ref| depends(ns, r, x) implies #[trigger] out@.contains(x) by {
                lemma_closed(ns, seen@, r, x);
            }
            assert(out@ =~= walked(ns, r));
        }
        (out, ranks)
    }
}

/// The symbolic leaves an expression depends on. Diagnosing *why* a dispatch computation
/// failed to fold comes down to seeing which leaves it still references.
pub fn leaves(a: &Arena, r: Ref) -> (out: Vec<Ref>)
    requires
        a.wf(),
        a.holds(r),
    ensures
        forall|x: Ref| #[trigger]
            out@.contains(x) <==> depends(a.nodes@, r, x) && is_leaf(op_of(a.nodes@, x)),
        out@.no_duplicates(),
        forall|i: int| 0 <= i < out@.len() ==> a.holds(#[trigger] out@[i]),
        out@ == leaves_in(a.nodes@, r),
{
    let all = a.reachable(r);
    let ghost leaf_of = |x: Ref| is_leaf(op_of(a.nodes@, x));
    let mut out: Vec<Ref> = Vec::new();
    let mut i: usize = 0;
    proof {
        reveal(Seq::filter);
    }
    while i < all.len()
        invariant
            a.wf(),
            i <= all@.len(),
            all@.no_duplicates(),
            forall|j: int| 0 <= j < all@.len() ==> a.holds(#[trigger] all@[j]),
            forall|x: Ref| #[trigger]
                out@.contains(x) <==> all@.take(i as int).contains(x) && is_leaf(
                    op_of(a.nodes@, x),
                ),
            forall|j: int| 0 <= j < out@.len() ==> a.holds(#[trigger] out@[j]),
            out@.no_duplicates(),
            leaf_of == (|x: Ref| is_leaf(op_of(a.nodes@, x))),
            out@ == all@.take(i as int).filter(leaf_of),
        decreases all@.len() - i,
    {
        let cur = all[i];
        let leaf: bool = match *a.op(cur) {
            Op::InitReg(_) | Op::Opaque(_, _) | Op::Param(_, _) | Op::Load(_, _) => true,
            _ => false,
        };
        let ghost before = out@;
        proof {
            assert(all@.take(i + 1) =~= all@.take(i as int).push(cur));
            assert(all@.take(i + 1).filter(leaf_of) == if is_leaf(op_of(a.nodes@, cur)) {
                all@.take(i as int).filter(leaf_of).push(cur)
            } else {
                all@.take(i as int).filter(leaf_of)
            }) by {
                reveal(Seq::filter);
                assert(all@.take(i + 1).drop_last() =~= all@.take(i as int));
            }
            assert(!all@.take(i as int).contains(cur)) by {
                if all@.take(i as int).contains(cur) {
                    let j = choose|j: int|
                        0 <= j < all@.take(i as int).len() && all@.take(i as int)[j] == cur;
                    assert(all@[j] == all@[i as int]);
                }
            }
            lemma_push_contains(all@.take(i as int), cur);
            lemma_push_contains(out@, cur);
        }
        if leaf {
            out.push(cur);
            proof {
                lemma_push_distinct(before, cur);
            }
        }
        i = i + 1;
    }
    proof {
        assert(all@.take(i as int) =~= all@);
    }
    out
}

/// A list stays free of duplicates when something new is added.
pub proof fn lemma_push_distinct<T>(s: Seq<T>, x: T)
    requires
        s.no_duplicates(),
        !s.contains(x),
    ensures
        s.push(x).no_duplicates(),
{
    let t = s.push(x);
    assert forall|i: int, j: int| 0 <= i < t.len() && 0 <= j < t.len() && i != j implies t[i]
        != t[j] by {
        if i < s.len() {
            assert(s.contains(s[i]));
        }
        if j < s.len() {
            assert(s.contains(s[j]));
        }
    }
}

/// What a list holds after one more element.
pub proof fn lemma_push_contains<T>(s: Seq<T>, x: T)
    ensures
        forall|y: T| #[trigger] s.push(x).contains(y) <==> s.contains(y) || y == x,
{
    assert forall|y: T| #[trigger] s.push(x).contains(y) <==> s.contains(y) || y == x by {
        if s.contains(y) {
            let j = choose|j: int| 0 <= j < s.len() && s[j] == y;
            assert(s.push(x)[j] == y);
        }
        assert(s.push(x)[s.len() as int] == x);
        if s.push(x).contains(y) {
            let j = choose|j: int| 0 <= j < s.push(x).len() && s.push(x)[j] == y;
            if j < s.len() {
                assert(s[j] == y);
            }
        }
    }
}

/// Whether the function's own inputs or a block's parameters take part in `r`.
pub open spec fn guest_rooted(ns: Seq<Node>, r: Ref) -> bool {
    exists|x: Ref| #[trigger]
        depends(ns, r, x) && (op_of(ns, x) is Param || op_of(ns, x) is InitReg)
}

/// Whether the function's own inputs or a block's parameters take part in `r`.
pub fn is_guest_rooted(a: &Arena, r: Ref) -> (b: bool)
    requires
        a.wf(),
        a.holds(r),
    ensures
        b == guest_rooted(a.nodes@, r),
{
    let all = leaves(a, r);
    let mut i: usize = 0;
    while i < all.len()
        invariant
            i <= all@.len(),
            forall|j: int| 0 <= j < all@.len() ==> a.holds(#[trigger] all@[j]),
            forall|x: Ref| #[trigger]
                all@.contains(x) <==> depends(a.nodes@, r, x) && is_leaf(op_of(a.nodes@, x)),
            forall|j: int|
                0 <= j < i ==> !(op_of(a.nodes@, #[trigger] all@[j]) is Param) && !(op_of(
                    a.nodes@,
                    all@[j],
                ) is InitReg),
        decreases all@.len() - i,
    {
        let rooted: bool = match *a.op(all[i]) {
            Op::Param(_, _) => true,
            Op::InitReg(_) => true,
            _ => false,
        };
        if rooted {
            proof {
                assert(all@.contains(all@[i as int]));
                assert(depends(a.nodes@, r, all@[i as int]));
            }
            return true;
        }
        i = i + 1;
    }
    proof {
        assert forall|x: Ref| #[trigger] depends(a.nodes@, r, x) implies !(op_of(a.nodes@, x)
            is Param) && !(op_of(a.nodes@, x) is InitReg) by {
            if is_leaf(op_of(a.nodes@, x)) {
                assert(all@.contains(x));
                let j = choose|j: int| 0 <= j < all@.len() && all@[j] == x;
                assert(all@[j] == x);
            }
        }
    }
    false
}

/// The valuation `es` of one arena is what `ed` of the other makes it, through the
/// references in `memo`: the same inputs, with each numbered opaque worth what its copy is.
pub open spec fn tracks(
    src: Seq<Node>,
    dst: Seq<Node>,
    memo: Map<usize, Ref>,
    es: Env,
    ed: Env,
) -> bool {
    &&& es.regs == ed.regs
    &&& es.mem == ed.mem
    &&& es.params == ed.params
    &&& forall|t: Seq<char>, w: Width| #[trigger] (es.opaques)(t, 0, w) == (ed.opaques)(t, 0, w)
    &&& forall|k: usize|
        #![trigger memo.dom().contains(k)]
        memo.dom().contains(k) && numbered(src[k as int].op) ==> eval(src, Ref { idx: k }, es)
            == eval(dst, memo[k], ed)
}

/// An opaque that is an occurrence of its own.
pub open spec fn numbered(op: Op) -> bool {
    match op {
        Op::Opaque(_, n) => n != 0,
        _ => false,
    }
}

/// What a node that names something becomes in another arena: registers, parameters and
/// shared undefined values are the same thing there, and a counted unknown stays one.
pub open spec fn same_name(before: Op, after: Op) -> bool {
    match before {
        Op::Const(_) => after is Const,
        Op::InitReg(_) => after == before,
        Op::Param(_, _) => after == before,
        Op::Opaque(tag, id) => if id == 0 {
            op_same(after, before)
        } else {
            after matches Op::Opaque(t, n) && t@ == tag@ && n != 0
        },
        _ => true,
    }
}

/// Whether a node is an unknown with a number of its own.
pub open spec fn is_counted(op: Op) -> bool {
    op matches Op::Opaque(_, n) && n != 0
}

/// The copy of node `k` has its width and its name, and its value under every pair of
/// valuations that go together.
pub open spec fn copied(src: Seq<Node>, dst: Seq<Node>, memo: Map<usize, Ref>, k: usize) -> bool {
    &&& k < src.len()
    &&& has(dst, memo[k])
    &&& width_of(dst, memo[k]) == src[k as int].width
    &&& same_name(src[k as int].op, op_of(dst, memo[k]))
    &&& forall|es: Env, ed: Env|
        #![trigger eval(src, Ref { idx: k }, es), eval(dst, memo[k], ed)]
        tracks(src, dst, memo, es, ed) ==> eval(src, Ref { idx: k }, es) == eval(dst, memo[k], ed)
    &&& unnumbered(src, Ref { idx: k }) ==> forall|e: Env| #[trigger]
        eval(dst, memo[k], e) == eval(src, Ref { idx: k }, e)
}

/// Whether an expression holds no unknown with a number of its own, so that its value means
/// the same in every arena.
#[verifier::opaque]
pub open spec fn unnumbered(ns: Seq<Node>, r: Ref) -> bool {
    forall|x: Ref| #[trigger] depends(ns, r, x) ==> !numbered(op_of(ns, x))
}

pub open spec fn memo_ok(src: Seq<Node>, dst: Seq<Node>, memo: Map<usize, Ref>) -> bool {
    forall|k: usize| #[trigger] memo.dom().contains(k) ==> copied(src, dst, memo, k)
}

/// Every operand of `order[i]` is in `memo` or comes before it.
pub open spec fn operands_first<V>(
    ns: Seq<Node>,
    order: Seq<Ref>,
    memo: Map<usize, V>,
    i: int,
) -> bool {
    forall|c: Ref| #[trigger]
        operands(op_of(ns, order[i])).contains(c) ==> memo.dom().contains(c.idx)
            || order.take(i).contains(c)
}

/// A pending node of the post-order walk finds each operand recorded, ordered or above it.
pub open spec fn operands_pending<V>(
    ns: Seq<Node>,
    order: Seq<Ref>,
    memo: Map<usize, V>,
    stack: Seq<(Ref, bool)>,
    i: int,
) -> bool {
    forall|c: Ref| #[trigger]
        operands(op_of(ns, stack[i].0)).contains(c) ==> memo.dom().contains(c.idx)
            || order.contains(c) || above(stack, i, c)
}

/// `c` stands above position `i`.
pub open spec fn above(stack: Seq<(Ref, bool)>, i: int, c: Ref) -> bool {
    exists|j: int| i < j < stack.len() && (#[trigger] stack[j]).0 == c
}

impl Arena {
    /// The nodes `r` is computed from that `memo` does not hold, operands before users.
    /// Nodes in `stop` are taken as they are, without their operands.
    ///
    /// Iterative: these DAGs nest deep enough (chains run to hundreds of levels) that
    /// recursion risks overflowing the stack.
    pub(crate) fn post_order<V>(&self, r: Ref, memo: &HashMap<usize, V>, stop: &HashMap<usize, Ref>) -> (order: Vec<Ref>)
        requires
            self.wf(),
            self.holds(r),
        ensures
            memo@.dom().contains(r.idx) || order@.contains(r),
            forall|i: int| 0 <= i < order@.len() ==> self.holds(#[trigger] order@[i]),
            forall|i: int| 0 <= i < order@.len() ==> depends(self.nodes@, r, #[trigger] order@[i]),
            forall|i: int|
                0 <= i < order@.len() && !stop@.dom().contains((#[trigger] order@[i]).idx)
                    ==> operands_first(self.nodes@, order@, memo@, i),
    {
        let ghost ns = self.nodes@;
        let mut order: Vec<Ref> = Vec::new();
        let mut queued: HashSet<usize> = HashSet::new();
        let mut stack: Vec<(Ref, bool)> = vec![(r, false)];
        proof {
            assert(stack@[0] == (r, false));
            assert(depends(ns, r, r));
        }
        while stack.len() > 0
            invariant
                self.wf(),
                ns == self.nodes@,
                has(ns, r),
                queued@.finite(),
                forall|k: usize| #[trigger] queued@.contains(k) ==> k < ns.len(),
                forall|i: int| 0 <= i < stack@.len() ==> has(ns, (#[trigger] stack@[i]).0),
                forall|i: int| 0 <= i < order@.len() ==> has(ns, #[trigger] order@[i]),
                forall|i: int| 0 <= i < stack@.len() ==> depends(ns, r, (#[trigger] stack@[i]).0),
                forall|i: int| 0 <= i < order@.len() ==> depends(ns, r, #[trigger] order@[i]),
                forall|i: int|
                    0 <= i < order@.len() && !stop@.dom().contains((#[trigger] order@[i]).idx)
                        ==> operands_first(ns, order@, memo@, i),
                // Above a pending node stand only nodes it is computed from.
                forall|i: int, j: int|
                    0 <= i < j < stack@.len() && (#[trigger] stack@[i]).1 ==> (
                    #[trigger] stack@[j]).0.idx < stack@[i].0.idx,
                forall|i: int|
                    0 <= i < stack@.len() && (#[trigger] stack@[i]).1 && !stop@.dom().contains(
                        stack@[i].0.idx,
                    ) ==> operands_pending(ns, order@, memo@, stack@, i),
                forall|k: usize| #[trigger]
                    queued@.contains(k) ==> order@.contains(Ref { idx: k }) || memo@.dom().contains(
                        k,
                    ) || stack@.contains((Ref { idx: k }, true)),
                memo@.dom().contains(r.idx) || order@.contains(r) || above(stack@, -1, r),
            decreases ns.len() - queued@.len(), stack@.len(),
        {
            let ghost s0 = stack@;
            let ghost q0 = queued@;
            let ghost o0 = order@;
            let (cur, expanded) = stack.pop().unwrap();
            let ghost s1 = stack@;
            proof {
                lemma_bounded_set(queued@, ns.len());
                assert(s0 =~= s1.push((cur, expanded)));
                lemma_popped(s0, cur, expanded);
            }
            if memo.contains_key(&cur.idx) {
                proof {
                    lemma_settled(ns, o0, o0, memo@, stop@, s0, s1, cur, r);
                    lemma_queue_pop(o0, memo@, s0, q0, cur, expanded);
                }
                continue ;
            }
            if expanded {
                order.push(cur);
                proof {
                    lemma_push_contains(o0, cur);
                    lemma_settled(ns, o0, order@, memo@, stop@, s0, s1, cur, r);
                    assert forall|i: int|
                        0 <= i < order@.len() && !stop@.dom().contains(
                            (#[trigger] order@[i]).idx,
                        ) implies operands_first(ns, order@, memo@, i) by {
                        assert(order@.take(i) =~= o0.take(i));
                        if i == o0.len() {
                            let top = s0.len() - 1;
                            assert(s0[top] == (cur, true));
                            assert(operands_pending(ns, o0, memo@, s0, top));
                            assert(o0.take(i) =~= o0);
                        } else {
                            assert(order@[i] == o0[i]);
                            assert(operands_first(ns, o0, memo@, i));
                        }
                    }
                    assert forall|k: usize| #[trigger] queued@.contains(k) implies order@.contains(
                        Ref { idx: k },
                    ) || memo@.dom().contains(k) || stack@.contains((Ref { idx: k }, true)) by {
                        if s0.contains((Ref { idx: k }, true)) && k != cur.idx {
                            assert(s1.contains((Ref { idx: k }, true)));
                        }
                    }
                }
                continue ;
            }
            if queued.contains(&cur.idx) {
                proof {
                    lemma_requeued(ns, o0, memo@, stop@, s0, s1, q0, cur, r);
                    lemma_queue_pop(o0, memo@, s0, q0, cur, expanded);
                }
                continue ;
            }
            queued.insert(cur.idx);
            stack.push((cur, true));
            proof {
                lemma_bounded_set(queued@, ns.len());
            }
            let bound: bool = stop.contains_key(&cur.idx);
            let kids: Vec<Ref> = if bound {
                Vec::new()
            } else {
                self.children(cur)
            };
            let ghost s2 = stack@;
            proof {
                assert(depends(ns, r, cur)) by {
                    assert(s0[s0.len() - 1] == (cur, expanded));
                }
                assert forall|j: int| 0 <= j < kids@.len() implies depends(ns, r, #[trigger] kids@[j]) by {
                    assert(operands(op_of(ns, cur)).contains(kids@[j]));
                    lemma_depends_step(ns, r, cur, kids@[j]);
                }
                assert forall|j: int| 0 <= j < s2.len() implies depends(ns, r, (#[trigger] s2[j]).0) by {
                    if j < s1.len() {
                        assert(s2[j] == s0[j]);
                    }
                }
            }
            let mut i: usize = 0;
            while i < kids.len()
                invariant
                    i <= kids@.len(),
                    stack@.len() >= s2.len(),
                    stack@.take(s2.len() as int) == s2,
                    forall|j: int| 0 <= j < kids@.len() ==> (#[trigger] kids@[j]).idx < cur.idx,
                    forall|j: int| 0 <= j < kids@.len() ==> depends(ns, r, #[trigger] kids@[j]),
                    forall|j: int| s2.len() <= j < stack@.len() ==> depends(ns, r, (#[trigger] stack@[j]).0),
                    forall|j: int|
                        s2.len() <= j < stack@.len() ==> (#[trigger] stack@[j]).0.idx < cur.idx
                            && !stack@[j].1,
                    forall|j: int|
                        0 <= j < i ==> memo@.dom().contains((#[trigger] kids@[j]).idx) || above(
                            stack@,
                            s2.len() - 1,
                            kids@[j],
                        ),
                decreases kids@.len() - i,
            {
                let ghost before = stack@;
                let c = kids[i];
                if !memo.contains_key(&c.idx) {
                    stack.push((c, false));
                    proof {
                        assert(stack@.take(s2.len() as int) =~= before.take(s2.len() as int));
                        assert(stack@[before.len() as int] == (c, false));
                        assert(above(stack@, s2.len() - 1, c));
                        assert forall|j: int| 0 <= j < i implies memo@.dom().contains(
                            (#[trigger] kids@[j]).idx,
                        ) || above(stack@, s2.len() - 1, kids@[j]) by {
                            if above(before, s2.len() - 1, kids@[j]) {
                                let k = choose|k: int|
                                    s2.len() - 1 < k < before.len() && (#[trigger] before[k]).0
                                        == kids@[j];
                                assert(stack@[k].0 == kids@[j]);
                            }
                        }
                    }
                }
                i = i + 1;
            }
            proof {
                assert forall|j: int| 0 <= j < stack@.len() implies depends(ns, r, (#[trigger] stack@[j]).0) by {
                    if j < s2.len() {
                        assert(stack@[j] == stack@.take(s2.len() as int)[j]);
                    }
                }
                lemma_expanded(
                    ns,
                    o0,
                    memo@,
                    stop@,
                    s0,
                    s1,
                    stack@,
                    cur,
                    r,
                    kids@,
                );
                assert forall|k: usize| #[trigger] queued@.contains(k) implies order@.contains(
                    Ref { idx: k },
                ) || memo@.dom().contains(k) || stack@.contains((Ref { idx: k }, true)) by {
                    if k == cur.idx {
                        assert(stack@.take(s2.len() as int)[s2.len() - 1] == (cur, true));
                        assert(stack@[s2.len() - 1] == (cur, true));
                    } else if s0.contains((Ref { idx: k }, true)) {
                        assert(s1.contains((Ref { idx: k }, true)));
                        let j = choose|j: int|
                            0 <= j < s1.len() && s1[j] == (Ref { idx: k }, true);
                        assert(stack@.take(s2.len() as int)[j] == s2[j]);
                        assert(stack@[j] == (Ref { idx: k }, true));
                    }
                }
            }
        }
        order
    }
}

proof fn lemma_popped(s0: Seq<(Ref, bool)>, cur: Ref, expanded: bool)
    requires
        s0.len() > 0,
        s0.last() == (cur, expanded),
    ensures
        forall|x: (Ref, bool)| #[trigger]
            s0.contains(x) && x != (cur, expanded) ==> s0.drop_last().contains(x),
        forall|i: int, c: Ref|
            i >= -1 && above(s0, i, c) && c != cur ==> #[trigger] above(s0.drop_last(), i, c),
{
    let s1 = s0.drop_last();
    assert forall|x: (Ref, bool)| #[trigger]
        s0.contains(x) && x != (cur, expanded) implies s1.contains(x) by {
        let j = choose|j: int| 0 <= j < s0.len() && s0[j] == x;
        assert(s1[j] == x);
    }
    assert forall|i: int, c: Ref| i >= -1 && above(s0, i, c) && c != cur implies #[trigger] above(
        s1,
        i,
        c,
    ) by {
        let j = choose|j: int| i < j < s0.len() && (#[trigger] s0[j]).0 == c;
        assert(s1[j].0 == c);
    }
}

proof fn lemma_queue_pop<V>(
    order: Seq<Ref>,
    memo: Map<usize, V>,
    s0: Seq<(Ref, bool)>,
    queued: Set<usize>,
    cur: Ref,
    expanded: bool,
)
    requires
        s0.len() > 0,
        s0.last() == (cur, expanded),
        !expanded || memo.dom().contains(cur.idx),
        forall|k: usize| #[trigger]
            queued.contains(k) ==> order.contains(Ref { idx: k }) || memo.dom().contains(k)
                || s0.contains((Ref { idx: k }, true)),
    ensures
        forall|k: usize| #[trigger]
            queued.contains(k) ==> order.contains(Ref { idx: k }) || memo.dom().contains(k)
                || s0.drop_last().contains((Ref { idx: k }, true)),
{
    lemma_popped(s0, cur, expanded);
}

/// Popping a node that is now recorded or ordered keeps what the rest of the stack needs.
proof fn lemma_settled<V>(
    ns: Seq<Node>,
    o0: Seq<Ref>,
    o1: Seq<Ref>,
    memo: Map<usize, V>,
    stop: Map<usize, Ref>,
    s0: Seq<(Ref, bool)>,
    s1: Seq<(Ref, bool)>,
    cur: Ref,
    r: Ref,
)
    requires
        s0.len() > 0,
        s0.last().0 == cur,
        s1 == s0.drop_last(),
        memo.dom().contains(cur.idx) || o1.contains(cur),
        forall|x: Ref| #[trigger] o0.contains(x) ==> o1.contains(x),
        forall|i: int|
            0 <= i < s0.len() && (#[trigger] s0[i]).1 && !stop.dom().contains(s0[i].0.idx)
                ==> operands_pending(ns, o0, memo, s0, i),
        memo.dom().contains(r.idx) || o0.contains(r) || above(s0, -1, r),
    ensures
        forall|i: int|
            0 <= i < s1.len() && (#[trigger] s1[i]).1 && !stop.dom().contains(s1[i].0.idx)
                ==> operands_pending(ns, o1, memo, s1, i),
        memo.dom().contains(r.idx) || o1.contains(r) || above(s1, -1, r),
{
    lemma_popped(s0, cur, s0.last().1);
    assert forall|i: int|
        0 <= i < s1.len() && (#[trigger] s1[i]).1 && !stop.dom().contains(
            s1[i].0.idx,
        ) implies operands_pending(ns, o1, memo, s1, i) by {
        assert(s1[i] == s0[i]);
        assert(operands_pending(ns, o0, memo, s0, i));
        assert forall|c: Ref| #[trigger]
            operands(op_of(ns, s1[i].0)).contains(c) implies memo.dom().contains(c.idx)
            || o1.contains(c) || above(s1, i, c) by {
            if above(s0, i, c) && c != cur {
                assert(above(s1, i, c));
            }
        }
    }
    if above(s0, -1, r) && r != cur {
        assert(above(s1, -1, r));
    }
}

/// A node met again that was queued before is settled, or pending above its user: below
/// it the pending node would be computed from its own user.
proof fn lemma_requeued<V>(
    ns: Seq<Node>,
    order: Seq<Ref>,
    memo: Map<usize, V>,
    stop: Map<usize, Ref>,
    s0: Seq<(Ref, bool)>,
    s1: Seq<(Ref, bool)>,
    queued: Set<usize>,
    cur: Ref,
    r: Ref,
)
    requires
        nodes_ok(ns),
        s0.len() > 0,
        s0.last() == (cur, false),
        s1 == s0.drop_last(),
        queued.contains(cur.idx),
        forall|i: int| 0 <= i < s0.len() ==> has(ns, (#[trigger] s0[i]).0),
        forall|k: usize| #[trigger]
            queued.contains(k) ==> order.contains(Ref { idx: k }) || memo.dom().contains(k)
                || s0.contains((Ref { idx: k }, true)),
        forall|i: int, j: int|
            0 <= i < j < s0.len() && (#[trigger] s0[i]).1 ==> (#[trigger] s0[j]).0.idx
                < s0[i].0.idx,
        forall|i: int|
            0 <= i < s0.len() && (#[trigger] s0[i]).1 && !stop.dom().contains(s0[i].0.idx)
                ==> operands_pending(ns, order, memo, s0, i),
        memo.dom().contains(r.idx) || order.contains(r) || above(s0, -1, r),
    ensures
        forall|i: int|
            0 <= i < s1.len() && (#[trigger] s1[i]).1 && !stop.dom().contains(s1[i].0.idx)
                ==> operands_pending(ns, order, memo, s1, i),
        memo.dom().contains(r.idx) || order.contains(r) || above(s1, -1, r),
{
    if memo.dom().contains(cur.idx) || order.contains(cur) {
        lemma_settled(ns, order, order, memo, stop, s0, s1, cur, r);
    } else {
        assert(s0.contains((cur, true)));
        let k = choose|k: int| 0 <= k < s0.len() && s0[k] == (cur, true);
        // The popped entry stands above the pending one and so has a smaller index.
        assert(s0[s0.len() - 1].0.idx < s0[k].0.idx);
    }
}

/// Expanding a node keeps what the stack needs and adds what the node itself needs.
proof fn lemma_expanded<V>(
    ns: Seq<Node>,
    order: Seq<Ref>,
    memo: Map<usize, V>,
    stop: Map<usize, Ref>,
    s0: Seq<(Ref, bool)>,
    s1: Seq<(Ref, bool)>,
    s3: Seq<(Ref, bool)>,
    cur: Ref,
    r: Ref,
    kids: Seq<Ref>,
)
    requires
        nodes_ok(ns),
        has(ns, cur),
        s0.len() > 0,
        s0.last() == (cur, false),
        s1 == s0.drop_last(),
        s3.len() > s1.len(),
        s3.take((s1.len() + 1) as int) == s1.push((cur, true)),
        !stop.dom().contains(cur.idx) ==> kids == operands(op_of(ns, cur)),
        forall|j: int|
            s1.len() < j < s3.len() ==> (#[trigger] s3[j]).0.idx < cur.idx && !s3[j].1,
        forall|j: int|
            0 <= j < kids.len() ==> memo.dom().contains((#[trigger] kids[j]).idx) || above(
                s3,
                s1.len() as int,
                kids[j],
            ),
        forall|i: int| 0 <= i < s0.len() ==> has(ns, (#[trigger] s0[i]).0),
        forall|i: int, j: int|
            0 <= i < j < s0.len() && (#[trigger] s0[i]).1 ==> (#[trigger] s0[j]).0.idx
                < s0[i].0.idx,
        forall|i: int|
            0 <= i < s0.len() && (#[trigger] s0[i]).1 && !stop.dom().contains(s0[i].0.idx)
                ==> operands_pending(ns, order, memo, s0, i),
        memo.dom().contains(r.idx) || order.contains(r) || above(s0, -1, r),
    ensures
        forall|i: int| 0 <= i < s3.len() ==> has(ns, (#[trigger] s3[i]).0),
        forall|i: int, j: int|
            0 <= i < j < s3.len() && (#[trigger] s3[i]).1 ==> (#[trigger] s3[j]).0.idx
                < s3[i].0.idx,
        forall|i: int|
            0 <= i < s3.len() && (#[trigger] s3[i]).1 && !stop.dom().contains(s3[i].0.idx)
                ==> operands_pending(ns, order, memo, s3, i),
        memo.dom().contains(r.idx) || order.contains(r) || above(s3, -1, r),
{
    let n = s1.len() as int;
    assert forall|i: int| 0 <= i < n implies s3[i] == #[trigger] s0[i] by {
        assert(s3.take(n + 1)[i] == s1.push((cur, true))[i]);
    }
    assert(s3.take(n + 1)[n] == s1.push((cur, true))[n]);
    assert(s3[n] == (cur, true));
    assert(s0[n] == (cur, false));
    assert forall|i: int, j: int|
        0 <= i < j < s3.len() && (#[trigger] s3[i]).1 implies (#[trigger] s3[j]).0.idx
        < s3[i].0.idx by {
        if i < n {
            assert(s3[i] == s0[i]);
            assert(s0[n].0.idx < s0[i].0.idx);
            if j < n {
                assert(s3[j] == s0[j]);
            }
        }
    }
    assert forall|i: int, c: Ref| -1 <= i && above(s0, i, c) implies #[trigger] above(s3, i, c) by {
        let j = choose|j: int| i < j < s0.len() && (#[trigger] s0[j]).0 == c;
        assert(s3[j].0 == c);
    }
    assert forall|i: int|
        0 <= i < s3.len() && (#[trigger] s3[i]).1 && !stop.dom().contains(
            s3[i].0.idx,
        ) implies operands_pending(ns, order, memo, s3, i) by {
        if i < n {
            assert(s3[i] == s0[i]);
            assert(operands_pending(ns, order, memo, s0, i));
        } else {
            assert(i == n);
            assert forall|c: Ref| #[trigger]
                operands(op_of(ns, s3[i].0)).contains(c) implies memo.dom().contains(c.idx)
                || order.contains(c) || above(s3, i, c) by {
                let j = choose|j: int| 0 <= j < kids.len() && kids[j] == c;
                assert(kids[j] == c);
            }
        }
    }
    assert forall|i: int| 0 <= i < s3.len() implies has(ns, (#[trigger] s3[i]).0) by {
        if i < n {
            assert(s3[i] == s0[i]);
        }
    }
}

/// Valuations that go together for a grown memo go together for the one before it.
proof fn lemma_tracks_before(
    src: Seq<Node>,
    dst: Seq<Node>,
    dst2: Seq<Node>,
    memo: Map<usize, Ref>,
    k: usize,
    out: Ref,
    es: Env,
    ed: Env,
)
    requires
        memo_ok(src, dst, memo),
        !memo.dom().contains(k),
        forall|x: Ref, e: Env| has(dst, x) ==> #[trigger] eval(dst2, x, e) == eval(dst, x, e),
        tracks(src, dst2, memo.insert(k, out), es, ed),
    ensures
        tracks(src, dst, memo, es, ed),
        forall|c: usize| #[trigger]
            memo.dom().contains(c) ==> eval(src, Ref { idx: c }, es) == eval(dst2, memo[c], ed),
{
    let memo2 = memo.insert(k, out);
    assert forall|c: usize|
        #![trigger memo.dom().contains(c)]
        memo.dom().contains(c) && numbered(src[c as int].op) implies eval(
        src,
        Ref { idx: c },
        es,
    ) == eval(dst, memo[c], ed) by {
        assert(memo2.dom().contains(c));
        assert(copied(src, dst, memo, c));
        assert(eval(dst2, memo[c], ed) == eval(dst, memo[c], ed));
    }
    assert forall|c: usize| #[trigger] memo.dom().contains(c) implies eval(src, Ref { idx: c }, es)
        == eval(dst2, memo[c], ed) by {
        assert(copied(src, dst, memo, c));
        assert(eval(src, Ref { idx: c }, es) == eval(dst, memo[c], ed));
        assert(eval(dst2, memo[c], ed) == eval(dst, memo[c], ed));
    }
}

/// One more copy keeps the memo right.
/// What an expression without numbered unknowns is computed from has none either.
proof fn lemma_unnumbered(ns: Seq<Node>, r: Ref)
    requires
        nodes_ok(ns),
        has(ns, r),
        unnumbered(ns, r),
    ensures
        !numbered(op_of(ns, r)),
        forall|c: Ref| #[trigger] operands(op_of(ns, r)).contains(c) ==> unnumbered(ns, c),
{
    reveal(unnumbered);
    assert(depends(ns, r, r));
    lemma_operands(ns, r);
    assert forall|c: Ref| #[trigger] operands(op_of(ns, r)).contains(c) implies unnumbered(ns, c) by {
        assert forall|x: Ref| #[trigger] depends(ns, c, x) implies !numbered(op_of(ns, x)) by {
            assert(depends(ns, r, x));
        }
    }
}

/// The copy of an operand without numbered unknowns has its value.
proof fn lemma_copied_value(
    src: Seq<Node>,
    dst: Seq<Node>,
    dst2: Seq<Node>,
    memo: Map<usize, Ref>,
    a: Ref,
    e: Env,
)
    requires
        memo_ok(src, dst, memo),
        memo.dom().contains(a.idx),
        unnumbered(src, a),
        forall|x: Ref, e: Env| has(dst, x) ==> #[trigger] eval(dst2, x, e) == eval(dst, x, e),
    ensures
        eval(dst2, memo[a.idx], e) == eval(src, a, e),
        eval(dst, memo[a.idx], e) == eval(src, a, e),
        has(dst, memo[a.idx]),
        width_of(dst, memo[a.idx]) == width_of(src, a),
{
    assert(copied(src, dst, memo, a.idx));
    assert(a == (Ref { idx: a.idx }));
    assert(eval(dst, memo[a.idx], e) == eval(src, a, e));
}

proof fn lemma_insert_copy(
    src: Seq<Node>,
    dst: Seq<Node>,
    dst2: Seq<Node>,
    memo: Map<usize, Ref>,
    k: usize,
    out: Ref,
)
    requires
        memo_ok(src, dst, memo),
        !memo.dom().contains(k),
        k < src.len(),
        extends(dst, dst2),
        forall|x: Ref, e: Env| has(dst, x) ==> #[trigger] eval(dst2, x, e) == eval(dst, x, e),
        has(dst2, out),
        width_of(dst2, out) == src[k as int].width,
        same_name(src[k as int].op, op_of(dst2, out)),
        forall|es: Env, ed: Env|
            #![trigger eval(src, Ref { idx: k }, es), eval(dst2, out, ed)]
            tracks(src, dst2, memo.insert(k, out), es, ed) ==> eval(src, Ref { idx: k }, es)
                == eval(dst2, out, ed),
        unnumbered(src, Ref { idx: k }) ==> forall|e: Env| #[trigger]
            eval(dst2, out, e) == eval(src, Ref { idx: k }, e),
    ensures
        memo_ok(src, dst2, memo.insert(k, out)),
{
    let memo2 = memo.insert(k, out);
    assert forall|c: usize| #[trigger] memo2.dom().contains(c) implies copied(
        src,
        dst2,
        memo2,
        c,
    ) by {
        if c != k {
            assert(copied(src, dst, memo, c));
            assert(dst2[memo[c].idx as int] == dst[memo[c].idx as int]);
            assert forall|es: Env, ed: Env|
                #![trigger eval(src, Ref { idx: c }, es), eval(dst2, memo2[c], ed)]
                tracks(src, dst2, memo2, es, ed) implies eval(src, Ref { idx: c }, es) == eval(
                dst2,
                memo2[c],
                ed,
            ) by {
                lemma_tracks_before(src, dst, dst2, memo, k, out, es, ed);
            }
        }
    }
}

impl Arena {
    /// Rebuild node `cur` of `src` in this arena, from the copies of its operands. The
    /// normal constructors are used, so the result is shared and simplified here rather
    /// than copied as it stands.
    fn copy_node(&mut self, src: &Arena, cur: Ref, memo: &HashMap<usize, Ref>) -> (out: Ref)
        requires
            old(self).wf(),
            src.wf(),
            src.holds(cur),
            memo_ok(src.nodes@, old(self).nodes@, memo@),
            !memo@.dom().contains(cur.idx),
            forall|c: Ref| #[trigger]
                operands(op_of(src.nodes@, cur)).contains(c) ==> memo@.dom().contains(c.idx),
        ensures
            final(self).continues(*old(self)),
            final(self).mem_gen == old(self).mem_gen,
            memo_ok(src.nodes@, final(self).nodes@, memo@.insert(cur.idx, out)),
            is_counted(op_of(src.nodes@, cur)) && final(self).opaque_counter < u32::MAX ==> out.idx
                >= old(self).nodes@.len(),
    {
        let ghost sn = src.nodes@;
        let ghost dn = self.nodes@;
        let ghost m = memo@;
        proof {
            assert(ok_at(sn, cur.idx as int));
        }
        let w = src.width(cur);
        proof {
            lemma_members(op_of(sn, cur));
        }
        let out = match *src.op(cur) {
            Op::Const(v) => self.constant(v, w),
            Op::InitReg(reg) => self.init_reg(reg),
            // Id 0 is the shared marker; keep it shared. Any other id is an identity from
            // `src` and must be reissued here.
            Op::Opaque(tag, id) => if id == 0 {
                self.undef(tag, w)
            } else {
                self.opaque(tag, w)
            },
            // Parameter identity is kept: `(block, reg)` is already a stable unique key.
            Op::Param(b, reg) => self.param(b, reg),
            Op::Load(a, gen_at) => {
                let a2 = *memo.get(&a.idx).unwrap();
                assert(copied(sn, dn, m, a.idx));
                self.load_at(a2, w, gen_at)
            },
            Op::Bin(op, a, b) => {
                let a2 = *memo.get(&a.idx).unwrap();
                let b2 = *memo.get(&b.idx).unwrap();
                assert(copied(sn, dn, m, a.idx));
                assert(copied(sn, dn, m, b.idx));
                self.bin(op, a2, b2)
            },
            Op::Un(op, a) => {
                let a2 = *memo.get(&a.idx).unwrap();
                assert(copied(sn, dn, m, a.idx));
                self.un(op, a2)
            },
            Op::Zext(a) => {
                let a2 = *memo.get(&a.idx).unwrap();
                assert(copied(sn, dn, m, a.idx));
                self.zext(a2, w)
            },
            Op::Sext(a) => {
                let a2 = *memo.get(&a.idx).unwrap();
                assert(copied(sn, dn, m, a.idx));
                self.sext(a2, w)
            },
            Op::Trunc(a) => {
                let a2 = *memo.get(&a.idx).unwrap();
                assert(copied(sn, dn, m, a.idx));
                self.trunc(a2, w)
            },
            Op::Select(c, a, b) => {
                let c2 = *memo.get(&c.idx).unwrap();
                let a2 = *memo.get(&a.idx).unwrap();
                let b2 = *memo.get(&b.idx).unwrap();
                assert(copied(sn, dn, m, c.idx));
                assert(copied(sn, dn, m, a.idx));
                assert(copied(sn, dn, m, b.idx));
                self.select_at_width(c2, a2, b2)
            },
        };
        proof {
            let fin = self.nodes@;
            assert forall|es: Env, ed: Env|
                #![trigger eval(sn, Ref { idx: cur.idx }, es), eval(fin, out, ed)]
                tracks(sn, fin, m.insert(cur.idx, out), es, ed) implies eval(
                sn,
                Ref { idx: cur.idx },
                es,
            ) == eval(fin, out, ed) by {
                lemma_tracks_before(sn, dn, fin, m, cur.idx, out, es, ed);
                assert(ok_at(sn, cur.idx as int));
                assert(ok_at(fin, out.idx as int));
                assert(cur == (Ref { idx: cur.idx }));
                assert(m.insert(cur.idx, out).dom().contains(cur.idx));
                match op_of(sn, cur) {
                    Op::Const(v) => {
                        lemma_mask(v, w.mask());
                    },
                    Op::Load(a, _) => {
                        assert(m.dom().contains(a.idx));
                    },
                    Op::Un(_, a) | Op::Zext(a) | Op::Sext(a) | Op::Trunc(a) => {
                        assert(m.dom().contains(a.idx));
                        crate::ir::expr::lemma_fits(sn, a);
                        lemma_mask(eval(sn, a, es), w.mask());
                    },
                    Op::Bin(_, a, b) => {
                        assert(m.dom().contains(a.idx));
                        assert(m.dom().contains(b.idx));
                    },
                    Op::Select(c, a, b) => {
                        assert(m.dom().contains(c.idx));
                        assert(m.dom().contains(a.idx));
                        assert(m.dom().contains(b.idx));
                        assert(eval(dn, m[c.idx], ed) == eval(fin, m[c.idx], ed));
                        assert(eval(dn, m[a.idx], ed) == eval(fin, m[a.idx], ed));
                        assert(eval(dn, m[b.idx], ed) == eval(fin, m[b.idx], ed));
                    },
                    _ => {},
                }
            }
            assert forall|e: Env| unnumbered(sn, cur) implies #[trigger] eval(fin, out, e) == eval(
                sn,
                cur,
                e,
            ) by {
                assert(ok_at(sn, cur.idx as int));
                lemma_unnumbered(sn, cur);
                match op_of(sn, cur) {
                    Op::Const(v) => {
                        lemma_mask(v, w.mask());
                    },
                    Op::Load(a, _) => {
                        lemma_copied_value(sn, dn, fin, m, a, e);
                    },
                    Op::Un(_, a) | Op::Zext(a) | Op::Sext(a) | Op::Trunc(a) => {
                        lemma_copied_value(sn, dn, fin, m, a, e);
                        crate::ir::expr::lemma_fits(sn, a);
                        lemma_mask(eval(sn, a, e), w.mask());
                    },
                    Op::Bin(_, a, b) => {
                        lemma_copied_value(sn, dn, fin, m, a, e);
                        lemma_copied_value(sn, dn, fin, m, b, e);
                    },
                    Op::Select(c, a, b) => {
                        lemma_copied_value(sn, dn, fin, m, c, e);
                        lemma_copied_value(sn, dn, fin, m, a, e);
                        lemma_copied_value(sn, dn, fin, m, b, e);
                    },
                    _ => {},
                }
            }
            assert(cur == (Ref { idx: cur.idx }));
            lemma_insert_copy(sn, dn, fin, m, cur.idx, out);
        }
        out
    }
}

impl Arena {
    /// Copy the expression reachable from `r` in `src` into this arena, returning the
    /// equivalent reference here.
    ///
    /// Recovery forks the evaluator, so every block's expressions live in that fork's own
    /// arena, which is dropped when recovery finishes. `memo` holds what was copied before,
    /// so what is shared there is shared here.
    pub fn graft(&mut self, src: &Arena, r: Ref, memo: &mut HashMap<usize, Ref>) -> (out: Ref)
        requires
            old(self).wf(),
            src.wf(),
            src.holds(r),
            memo_ok(src.nodes@, old(self).nodes@, old(memo)@),
        ensures
            grafted(src.nodes@, r, *old(self), old(memo)@, *final(self), final(memo)@, out),
    {
        if let Some(hit) = memo.get(&r.idx) {
            assert(copied(src.nodes@, self.nodes@, memo@, r.idx));
            return *hit;
        }
        let none: HashMap<usize, Ref> = HashMap::new();
        let order = src.post_order(r, memo, &none);
        let ghost memo0 = memo@;
        let mut i: usize = 0;
        while i < order.len()
            invariant
                i <= order@.len(),
                src.wf(),
                self.continues(*old(self)),
                self.mem_gen == old(self).mem_gen,
                memo_ok(src.nodes@, self.nodes@, memo@),
                memo0 == old(memo)@,
                forall|k: usize| #[trigger]
                    memo0.dom().contains(k) ==> memo@.dom().contains(k) && memo@[k] == memo0[k],
                forall|j: int| 0 <= j < order@.len() ==> src.holds(#[trigger] order@[j]),
                forall|j: int|
                    0 <= j < order@.len() ==> #[trigger] operands_first(
                        src.nodes@,
                        order@,
                        memo0,
                        j,
                    ),
                forall|j: int| 0 <= j < i ==> memo@.dom().contains((#[trigger] order@[j]).idx),
                self.opaque_counter < u32::MAX ==> forall|k: usize|
                    !memo0.dom().contains(k) && #[trigger] memo@.dom().contains(k) && is_counted(
                        src.nodes@[k as int].op,
                    ) ==> memo@[k].idx >= old(self).nodes@.len(),
            decreases order@.len() - i,
        {
            let cur = order[i];
            if !memo.contains_key(&cur.idx) {
                proof {
                    assert(operands_first(src.nodes@, order@, memo0, i as int));
                    assert forall|c: Ref| #[trigger]
                        operands(op_of(src.nodes@, cur)).contains(
                            c,
                        ) implies memo@.dom().contains(c.idx) by {
                        if !memo0.dom().contains(c.idx) {
                            let j = choose|j: int|
                                0 <= j < order@.take(i as int).len() && order@.take(i as int)[j]
                                    == c;
                            assert(order@[j] == c);
                        }
                    }
                }
                let out = self.copy_node(src, cur, memo);
                memo.insert(cur.idx, out);
            }
            i = i + 1;
        }
        proof {
            assert(memo@.dom().contains(r.idx)) by {
                if !memo0.dom().contains(r.idx) {
                    let j = choose|j: int| 0 <= j < order@.len() && order@[j] == r;
                    assert(memo@.dom().contains(order@[j].idx));
                }
            }
            assert(copied(src.nodes@, self.nodes@, memo@, r.idx));
        }
        *memo.get(&r.idx).unwrap()
    }
}

/// Whether `out` is a copy of `r`: what was copied before is kept, and used again, and unknowns
/// with a number of their own are made anew.
pub open spec fn grafted(
    src: Seq<Node>,
    r: Ref,
    before: Arena,
    m0: Map<usize, Ref>,
    after: Arena,
    m1: Map<usize, Ref>,
    out: Ref,
) -> bool {
    &&& after.continues(before)
    &&& after.mem_gen == before.mem_gen
    &&& memo_ok(src, after.nodes@, m1)
    &&& forall|k: usize| #[trigger] m0.dom().contains(k) ==> m1.dom().contains(k) && m1[k] == m0[k]
    &&& m1.dom().contains(r.idx)
    &&& out == m1[r.idx]
    &&& has(after.nodes@, out)
    &&& width_of(after.nodes@, out) == width_of(src, r)
    &&& m0.dom().contains(r.idx) ==> after == before && m1 == m0
    &&& after.opaque_counter < u32::MAX ==> forall|k: usize|
        !m0.dom().contains(k) && #[trigger] m1.dom().contains(k) && is_counted(src[k as int].op)
            ==> m1[k].idx >= before.nodes@.len()
}

/// A copy is worth what was copied: under every valuation where there are no numbered unknowns
/// in it, and under valuations that go together in any case. Copying again with the same memo
/// gives the same copy and changes nothing.
pub proof fn grafting_keeps_values(
    src: Seq<Node>,
    r: Ref,
    before: Arena,
    m0: Map<usize, Ref>,
    after: Arena,
    m1: Map<usize, Ref>,
    out: Ref,
    last: Arena,
    m2: Map<usize, Ref>,
    again: Ref,
)
    requires
        grafted(src, r, before, m0, after, m1, out),
        grafted(src, r, after, m1, last, m2, again),
    ensures
        unnumbered(src, r) ==> forall|e: Env| #[trigger]
            eval(after.nodes@, out, e) == eval(src, r, e),
        forall|es: Env, ed: Env|
            #![trigger eval(src, r, es), eval(after.nodes@, out, ed)]
            tracks(src, after.nodes@, m1, es, ed) ==> eval(src, r, es) == eval(
                after.nodes@,
                out,
                ed,
            ),
        again == out,
        last == after,
        m2 == m1,
{
    assert(r == (Ref { idx: r.idx }));
    assert(copied(src, after.nodes@, m1, r.idx));
}

/// A parameter, a register or a shared undefined value keeps its identity over a copy.
pub proof fn grafting_keeps_names(
    src: Seq<Node>,
    r: Ref,
    before: Arena,
    m0: Map<usize, Ref>,
    after: Arena,
    m1: Map<usize, Ref>,
    out: Ref,
)
    requires
        grafted(src, r, before, m0, after, m1, out),
        op_of(src, r) is Param || op_of(src, r) is InitReg || (op_of(src, r) matches Op::Opaque(_, n)
            && n == 0),
    ensures
        op_same(op_of(after.nodes@, out), op_of(src, r)),
{
    assert(copied(src, after.nodes@, m1, r.idx));
}

/// Two copies with separate memos of an unknown with a number of its own are two nodes.
pub proof fn separate_copies_are_two_nodes(
    src: Seq<Node>,
    r: Ref,
    before: Arena,
    after: Arena,
    m1: Map<usize, Ref>,
    one: Ref,
    last: Arena,
    m2: Map<usize, Ref>,
    other: Ref,
)
    requires
        grafted(src, r, before, Map::empty(), after, m1, one),
        grafted(src, r, after, Map::empty(), last, m2, other),
        is_counted(op_of(src, r)),
        last.opaque_counter < u32::MAX,
    ensures
        one != other,
{
    assert(m2.dom().contains(r.idx));
    assert(copied(src, after.nodes@, m1, r.idx));
}

/// Parameters and shared undefined values are the same node wherever they are copied from,
/// whatever was copied before.
pub proof fn names_are_kept_across_copies(
    first: Seq<Node>,
    second: Seq<Node>,
    dst: Arena,
    m1: Map<usize, Ref>,
    m2: Map<usize, Ref>,
    k1: usize,
    k2: usize,
)
    requires
        dst.wf(),
        memo_ok(first, dst.nodes@, m1),
        memo_ok(second, dst.nodes@, m2),
        m1.dom().contains(k1),
        m2.dom().contains(k2),
        node_same(first[k1 as int], second[k2 as int]),
        first[k1 as int].op is Param || first[k1 as int].op is InitReg || (
        first[k1 as int].op matches Op::Opaque(_, n) && n == 0),
    ensures
        m1[k1] == m2[k2],
{
    reveal(all_distinct);
    let ns = dst.nodes@;
    assert(copied(first, ns, m1, k1));
    assert(copied(second, ns, m2, k2));
    assert(node_same(ns[m1[k1].idx as int], ns[m2[k2].idx as int]));
    assert(node_same(ns[m2[k2].idx as int], ns[m1[k1].idx as int]));
}

/// Whether an expression is a constant once its leaves are replaced: nothing unknown is left
/// in it, and every operator has a result.
pub open spec fn settles(ns: Seq<Node>, r: Ref, map: Map<usize, Ref>) -> bool
    decreases r.idx,
{
    if map.dom().contains(r.idx) {
        const_of(ns, map[r.idx]) is Some
    } else if !(has(ns, r) && crate::ir::expr::operands_before(op_of(ns, r), r.idx as int)) {
        false
    } else {
        match op_of(ns, r) {
            Op::Const(_) => true,
            Op::Bin(op, a, b) => settles(ns, a, map) && settles(ns, b, map) && bin_fold(
                op,
                replaced(ns, a, map, some_env()),
                replaced(ns, b, map, some_env()),
                width_of(ns, a).wider(width_of(ns, b)),
            ) is Some,
            Op::Un(_, a) => settles(ns, a, map),
            Op::Zext(a) => settles(ns, a, map),
            Op::Sext(a) => settles(ns, a, map),
            Op::Trunc(a) => settles(ns, a, map),
            _ => false,
        }
    }
}

/// The value of `r` with the nodes in `map` replaced by what they map to.
pub open spec fn replaced(ns: Seq<Node>, r: Ref, map: Map<usize, Ref>, e: Env) -> u64
    decreases r.idx,
{
    if map.dom().contains(r.idx) {
        eval(ns, map[r.idx], e)
    } else if !(has(ns, r) && crate::ir::expr::operands_before(op_of(ns, r), r.idx as int)) {
        0
    } else {
        let w = width_of(ns, r);
        match op_of(ns, r) {
            Op::Load(a, gen_at) => (e.mem)(replaced(ns, a, map, e), gen_at, w) & w.mask(),
            Op::Bin(op, a, b) => bin_val(
                op,
                replaced(ns, a, map, e),
                replaced(ns, b, map, e),
                width_of(ns, a).wider(width_of(ns, b)),
            ),
            Op::Un(op, a) => un_val(op, replaced(ns, a, map, e), w),
            Op::Zext(a) => replaced(ns, a, map, e),
            Op::Sext(a) => sign_extend_spec(replaced(ns, a, map, e), width_of(ns, a)) & w.mask(),
            Op::Trunc(a) => replaced(ns, a, map, e) & w.mask(),
            Op::Select(c, a, b) => if replaced(ns, c, map, e) != 0 {
                replaced(ns, a, map, e)
            } else {
                replaced(ns, b, map, e) & w.mask()
            },
            _ => eval(ns, r, e),
        }
    }
}

/// Replacements are nodes of the arena, each as wide as what it replaces.
pub open spec fn replacements_ok(ns: Seq<Node>, map: Map<usize, Ref>) -> bool {
    forall|k: usize| #[trigger]
        map.dom().contains(k) && k < ns.len() ==> has(ns, map[k]) && width_of(ns, map[k])
            == ns[k as int].width
}

/// Replacements are nodes of the arena.
pub open spec fn replacements_held(ns: Seq<Node>, map: Map<usize, Ref>) -> bool {
    forall|k: usize| #[trigger] map.dom().contains(k) && k < ns.len() ==> has(ns, map[k])
}

/// What was rebuilt is a node, and has the width and the replaced value of what it stands for
/// where every replacement is as wide as what it replaces.
pub open spec fn rebuilt(
    ns: Seq<Node>,
    now: Seq<Node>,
    map: Map<usize, Ref>,
    done: Map<usize, Ref>,
    k: usize,
) -> bool {
    &&& k < ns.len()
    &&& has(now, done[k])
    &&& replacements_ok(ns, map) ==> {
        &&& width_of(now, done[k]) == ns[k as int].width
        &&& forall|e: Env| #[trigger]
            eval(now, done[k], e) == replaced(ns, Ref { idx: k }, map, e)
        &&& settles(ns, Ref { idx: k }, map) ==> const_of(now, done[k]) is Some
    }
}

pub open spec fn done_ok(
    ns: Seq<Node>,
    now: Seq<Node>,
    map: Map<usize, Ref>,
    done: Map<usize, Ref>,
) -> bool {
    forall|k: usize| #[trigger] done.dom().contains(k) ==> rebuilt(ns, now, map, done, k)
}

/// The node of `cur`'s computation, with what it reads replaced as `done` says.
pub open spec fn rebuilt_node(ns: Seq<Node>, cur: Ref, done: Map<usize, Ref>, depth: nat) -> (Seq<Node>, Ref) {
    let w = width_of(ns, cur);
    match op_of(ns, cur) {
        Op::Load(a, gen_at) => recorded(ns, Node { op: Op::Load(done[a.idx], gen_at), width: w }),
        Op::Bin(op, a, b) => bin_node(ns, op, done[a.idx], done[b.idx], depth),
        Op::Un(op, a) => un_node(ns, op, done[a.idx], depth),
        Op::Zext(a) => cast_node(ns, done[a.idx], w, depth),
        Op::Sext(a) => sext_node(ns, done[a.idx], w, depth),
        Op::Trunc(a) => cast_node(ns, done[a.idx], w, depth),
        Op::Select(c, a, b) => select_node(ns, done[c.idx], done[a.idx], done[b.idx], depth),
        _ => (ns, cur),
    }
}

/// The nodes, and what each of the first `k` of the order became, after those are rebuilt one
/// after the other: a key of the map becomes its value.
pub open spec fn rebuilt_upto(
    ns: Seq<Node>,
    map: Map<usize, Ref>,
    order: Seq<Ref>,
    k: int,
    depth: nat,
) -> (Seq<Node>, Map<usize, Ref>)
    decreases k,
{
    if k <= 0 {
        (ns, Map::empty())
    } else {
        let (before, done) = rebuilt_upto(ns, map, order, k - 1, depth);
        let cur = order[k - 1];
        if map.dom().contains(cur.idx) {
            (before, done.insert(cur.idx, map[cur.idx]))
        } else {
            let (after, out) = rebuilt_node(before, cur, done, depth);
            (after, done.insert(cur.idx, out))
        }
    }
}

/// Whether `out` is what `r` becomes when everything it is computed from is rebuilt in the
/// order, operands before what reads them.
pub open spec fn rewrites(
    ns: Seq<Node>,
    r: Ref,
    map: Map<usize, Ref>,
    order: Seq<Ref>,
    depth: nat,
    after: Seq<Node>,
    out: Ref,
) -> bool {
    &&& order.contains(r)
    &&& forall|j: int| 0 <= j < order.len() ==> depends(ns, r, #[trigger] order[j])
    &&& forall|j: int|
        0 <= j < order.len() && !map.dom().contains((#[trigger] order[j]).idx) ==> operands_first(
            ns,
            order,
            Map::<usize, Ref>::empty(),
            j,
        )
    &&& after == rebuilt_upto(ns, map, order, order.len() as int, depth).0
    &&& out == rebuilt_upto(ns, map, order, order.len() as int, depth).1[r.idx]
}

impl Arena {
    /// Rebuild `cur` from its rebuilt operands.
    fn rebuild_node(
        &mut self,
        cur: Ref,
        Ghost(ns): Ghost<Seq<Node>>,
        map: &HashMap<usize, Ref>,
        done: &HashMap<usize, Ref>,
    ) -> (out: Ref)
        requires
            old(self).wf(),
            nodes_ok(ns),
            extends(ns, old(self).nodes@),
            forall|x: Ref, e: Env|
                has(ns, x) ==> #[trigger] eval(old(self).nodes@, x, e) == eval(ns, x, e),
            has(ns, cur),
            !map@.dom().contains(cur.idx),
            done_ok(ns, old(self).nodes@, map@, done@),
            forall|c: Ref| #[trigger]
                operands(op_of(ns, cur)).contains(c) ==> done@.dom().contains(c.idx),
        ensures
            final(self).grows(*old(self)),
            final(self).holds(out),
            replacements_ok(ns, map@) ==> {
                &&& final(self).width(out) == width_of(ns, cur)
                &&& forall|e: Env| #[trigger]
                    eval(final(self).nodes@, out, e) == replaced(ns, cur, map@, e)
                &&& settles(ns, cur, map@) ==> const_of(final(self).nodes@, out) is Some
            },
            (final(self).nodes@, out) == rebuilt_node(
                old(self).nodes@,
                cur,
                done@,
                old(self).trunc_depth as nat,
            ),
    {
        let ghost bn = self.nodes@;
        let ghost d = done@;
        proof {
            assert(ok_at(ns, cur.idx as int));
            assert(bn[cur.idx as int] == ns[cur.idx as int]);
        }
        let w = self.width(cur);
        proof {
            lemma_members(op_of(ns, cur));
        }
        let out = match *self.op(cur) {
            Op::Const(_) | Op::InitReg(_) | Op::Opaque(_, _) | Op::Param(_, _) => cur,
            Op::Load(a, gen_at) => {
                let a2 = *done.get(&a.idx).unwrap();
                assert(rebuilt(ns, bn, map@, d, a.idx));
                self.load_at(a2, w, gen_at)
            },
            Op::Bin(op, a, b) => {
                let a2 = *done.get(&a.idx).unwrap();
                let b2 = *done.get(&b.idx).unwrap();
                assert(rebuilt(ns, bn, map@, d, a.idx));
                assert(rebuilt(ns, bn, map@, d, b.idx));
                self.bin(op, a2, b2)
            },
            Op::Un(op, a) => {
                let a2 = *done.get(&a.idx).unwrap();
                assert(rebuilt(ns, bn, map@, d, a.idx));
                self.un(op, a2)
            },
            Op::Zext(a) => {
                let a2 = *done.get(&a.idx).unwrap();
                assert(rebuilt(ns, bn, map@, d, a.idx));
                self.zext(a2, w)
            },
            Op::Sext(a) => {
                let a2 = *done.get(&a.idx).unwrap();
                assert(rebuilt(ns, bn, map@, d, a.idx));
                self.sext(a2, w)
            },
            Op::Trunc(a) => {
                let a2 = *done.get(&a.idx).unwrap();
                assert(rebuilt(ns, bn, map@, d, a.idx));
                self.trunc(a2, w)
            },
            Op::Select(c, a, b) => {
                let c2 = *done.get(&c.idx).unwrap();
                let a2 = *done.get(&a.idx).unwrap();
                let b2 = *done.get(&b.idx).unwrap();
                assert(rebuilt(ns, bn, map@, d, c.idx));
                assert(rebuilt(ns, bn, map@, d, a.idx));
                assert(rebuilt(ns, bn, map@, d, b.idx));
                self.select_at_width(c2, a2, b2)
            },
        };
        proof {
            let fin = self.nodes@;
            assert forall|e: Env| replacements_ok(ns, map@) implies #[trigger] eval(fin, out, e)
                == replaced(ns, cur, map@, e) by {
                match op_of(ns, cur) {
                    Op::Load(a, _) | Op::Un(_, a) | Op::Zext(a) | Op::Sext(a) | Op::Trunc(a) => {
                        assert(eval(fin, d[a.idx], e) == eval(bn, d[a.idx], e));
                        assert(eval(bn, d[a.idx], e) == replaced(ns, Ref { idx: a.idx }, map@, e));
                        assert(a == (Ref { idx: a.idx }));
                        crate::ir::expr::lemma_fits(bn, d[a.idx]);
                        lemma_mask(eval(bn, d[a.idx], e), w.mask());
                    },
                    Op::Bin(_, a, b) => {
                        assert(eval(fin, d[a.idx], e) == eval(bn, d[a.idx], e));
                        assert(eval(fin, d[b.idx], e) == eval(bn, d[b.idx], e));
                        assert(a == (Ref { idx: a.idx }));
                        assert(b == (Ref { idx: b.idx }));
                    },
                    Op::Select(c, a, b) => {
                        assert(eval(fin, d[c.idx], e) == eval(bn, d[c.idx], e));
                        assert(eval(fin, d[a.idx], e) == eval(bn, d[a.idx], e));
                        assert(eval(fin, d[b.idx], e) == eval(bn, d[b.idx], e));
                        assert(c == (Ref { idx: c.idx }));
                        assert(a == (Ref { idx: a.idx }));
                        assert(b == (Ref { idx: b.idx }));
                    },
                    _ => {
                        assert(eval(fin, cur, e) == eval(bn, cur, e));
                        assert(eval(bn, cur, e) == eval(ns, cur, e));
                    },
                }
            }
            if replacements_ok(ns, map@) && settles(ns, cur, map@) {
                match op_of(ns, cur) {
                    Op::Bin(op, a, b) => {
                        assert(a == (Ref { idx: a.idx }));
                        assert(b == (Ref { idx: b.idx }));
                        assert(rebuilt(ns, bn, map@, d, a.idx));
                        assert(rebuilt(ns, bn, map@, d, b.idx));
                        assert(ok_at(bn, d[a.idx].idx as int));
                        assert(ok_at(bn, d[b.idx].idx as int));
                        let x = const_of(bn, d[a.idx])->0;
                        let y = const_of(bn, d[b.idx])->0;
                        lemma_mask(x, width_of(bn, d[a.idx]).mask());
                        lemma_mask(y, width_of(bn, d[b.idx]).mask());
                        assert(eval(bn, d[a.idx], some_env()) == x);
                        assert(eval(bn, d[b.idx], some_env()) == y);
                        assert(x == replaced(ns, a, map@, some_env()));
                        assert(y == replaced(ns, b, map@, some_env()));
                        assert(crate::ir::simplify::folds(bn, fin, op, d[a.idx], d[b.idx], out));
                    },
                    Op::Un(_, a) | Op::Zext(a) | Op::Sext(a) | Op::Trunc(a) => {
                        assert(a == (Ref { idx: a.idx }));
                        assert(rebuilt(ns, bn, map@, d, a.idx));
                    },
                    _ => {},
                }
            }
        }
        out
    }

    /// Rebuild `r` with every key of `map` replaced by its value. The result is built, operands
    /// before what reads them, through the normal constructors and so is simplified again.
    pub fn rewrite(&mut self, r: Ref, map: &HashMap<usize, Ref>) -> (out: Ref)
        requires
            old(self).wf(),
            old(self).holds(r),
            replacements_held(old(self).nodes@, map@),
        ensures
            final(self).grows(*old(self)),
            final(self).holds(out),
            replacements_ok(old(self).nodes@, map@) ==> {
                &&& final(self).width(out) == old(self).width(r)
                &&& forall|e: Env| #[trigger]
                    eval(final(self).nodes@, out, e) == replaced(old(self).nodes@, r, map@, e)
                &&& settles(old(self).nodes@, r, map@) && map@.dom().len() > 0 ==> const_of(
                    final(self).nodes@,
                    out,
                ) is Some
            },
            map@.dom().len() == 0 ==> out == r && final(self).nodes@ == old(self).nodes@,
            map@.dom().len() > 0 ==> exists|order: Seq<Ref>| #[trigger]
                rewrites(
                    old(self).nodes@,
                    r,
                    map@,
                    order,
                    old(self).trunc_depth as nat,
                    final(self).nodes@,
                    out,
                ),
    {
        let ghost ns = self.nodes@;
        if map.len() == 0 {
            proof {
                assert(map@.dom() =~= Set::<usize>::empty());
                assert forall|e: Env| #[trigger] eval(ns, r, e) == replaced(ns, r, map@, e) by {
                    lemma_nothing_replaced(ns, r, map@, e);
                }
            }
            return r;
        }
        let nothing: HashMap<usize, Ref> = HashMap::new();
        let order = self.post_order(r, &nothing, map);
        let mut done: HashMap<usize, Ref> = HashMap::new();
        let mut i: usize = 0;
        while i < order.len()
            invariant
                i <= order@.len(),
                old(self).wf(),
                ns == old(self).nodes@,
                replacements_held(ns, map@),
                self.grows(*old(self)),
                done_ok(ns, self.nodes@, map@, done@),
                forall|j: int| 0 <= j < order@.len() ==> has(ns, #[trigger] order@[j]),
                forall|j: int|
                    0 <= j < order@.len() && !map@.dom().contains((#[trigger] order@[j]).idx)
                        ==> operands_first(ns, order@, Map::<usize, Ref>::empty(), j),
                forall|j: int| 0 <= j < i ==> done@.dom().contains((#[trigger] order@[j]).idx),
                (self.nodes@, done@) == rebuilt_upto(
                    ns,
                    map@,
                    order@,
                    i as int,
                    old(self).trunc_depth as nat,
                ),
            decreases order@.len() - i,
        {
            let cur = order[i];
            let ghost bn = self.nodes@;
            let ghost d0 = done@;
            let out = match map.get(&cur.idx) {
                Some(to) => {
                    proof {
                        assert(map@.dom().contains(cur.idx));
                        assert forall|e: Env| #[trigger]
                            eval(self.nodes@, *to, e) == replaced(ns, cur, map@, e) by {}
                        assert(bn[to.idx as int] == ns[to.idx as int]);
                    }
                    *to
                },
                None => {
                    proof {
                        assert(operands_first(
                            ns,
                            order@,
                            Map::<usize, Ref>::empty(),
                            i as int,
                        ));
                        assert forall|c: Ref| #[trigger]
                            operands(op_of(ns, cur)).contains(c) implies done@.dom().contains(
                            c.idx,
                        ) by {
                            let j = choose|j: int|
                                0 <= j < order@.take(i as int).len() && order@.take(i as int)[j]
                                    == c;
                            assert(order@[j] == c);
                        }
                    }
                    self.rebuild_node(cur, Ghost(ns), map, &done)
                },
            };
            done.insert(cur.idx, out);
            proof {
                assert(cur == (Ref { idx: cur.idx }));
                assert forall|k: usize| #[trigger] done@.dom().contains(k) implies rebuilt(
                    ns,
                    self.nodes@,
                    map@,
                    done@,
                    k,
                ) by {
                    if k != cur.idx {
                        assert(rebuilt(ns, bn, map@, d0, k));
                        assert(self.nodes@[d0[k].idx as int] == bn[d0[k].idx as int]);
                        assert forall|e: Env| replacements_ok(ns, map@) implies #[trigger] eval(
                            self.nodes@,
                            done@[k],
                            e,
                        ) == replaced(ns, Ref { idx: k }, map@, e) by {
                            assert(eval(bn, d0[k], e) == replaced(ns, Ref { idx: k }, map@, e));
                        }
                    }
                }
            }
            i = i + 1;
        }
        proof {
            let j = choose|j: int| 0 <= j < order@.len() && order@[j] == r;
            assert(done@.dom().contains(order@[j].idx));
            assert(rebuilt(ns, self.nodes@, map@, done@, r.idx));
            assert(r == (Ref { idx: r.idx }));
            assert(rewrites(
                ns,
                r,
                map@,
                order@,
                old(self).trunc_depth as nat,
                self.nodes@,
                done@[r.idx],
            ));
        }
        *done.get(&r.idx).unwrap()
    }

    /// Build `cond ? a : b` at the width of `a`.
    pub fn select_at_width(&mut self, cond: Ref, a: Ref, b: Ref) -> (r: Ref)
        requires
            old(self).wf(),
            old(self).holds(cond),
            old(self).holds(a),
            old(self).holds(b),
        ensures
            final(self).grows(*old(self)),
            final(self).holds(r),
            final(self).width(r) == old(self).width(a),
            forall|e: Env| #[trigger]
                eval(final(self).nodes@, r, e) == (if eval(old(self).nodes@, cond, e) != 0 {
                    eval(old(self).nodes@, a, e)
                } else {
                    eval(old(self).nodes@, b, e) & old(self).width(a).mask()
                }),
            match const_of(old(self).nodes@, cond) {
                Some(c) => if c != 0 {
                    r == a
                } else {
                    is_const(old(self).nodes@, b) ==> is_const(final(self).nodes@, r)
                },
                None => true,
            },
            (final(self).nodes@, r) == select_node(
                old(self).nodes@,
                cond,
                a,
                b,
                old(self).trunc_depth as nat,
            ),
    {
        let ghost ns = self.nodes@;
        let w = self.width(a);
        let cut = self.zext(b, w);
        let ghost mid = self.nodes@;
        let r = self.select(cond, a, cut);
        proof {
            assert forall|e: Env| #[trigger]
                eval(self.nodes@, r, e) == (if eval(ns, cond, e) != 0 {
                    eval(ns, a, e)
                } else {
                    eval(ns, b, e) & w.mask()
                }) by {
                assert(eval(mid, cond, e) == eval(ns, cond, e));
                assert(eval(mid, a, e) == eval(ns, a, e));
                assert(eval(mid, cut, e) == eval(mid, b, e) & w.mask());
                assert(eval(mid, b, e) == eval(ns, b, e));
            }
        }
        r
    }
}

proof fn lemma_nothing_replaced(ns: Seq<Node>, r: Ref, map: Map<usize, Ref>, e: Env)
    requires
        map.dom() =~= Set::<usize>::empty(),
    ensures
        replaced(ns, r, map, e) == eval(ns, r, e),
    decreases r.idx,
{
    if has(ns, r) && crate::ir::expr::operands_before(op_of(ns, r), r.idx as int) {
        match op_of(ns, r) {
            Op::Load(a, _) | Op::Un(_, a) | Op::Zext(a) | Op::Sext(a) | Op::Trunc(a) => {
                lemma_nothing_replaced(ns, a, map, e);
            },
            Op::Bin(_, a, b) => {
                lemma_nothing_replaced(ns, a, map, e);
                lemma_nothing_replaced(ns, b, map, e);
            },
            Op::Select(c, a, b) => {
                lemma_nothing_replaced(ns, c, map, e);
                lemma_nothing_replaced(ns, a, map, e);
                lemma_nothing_replaced(ns, b, map, e);
            },
            _ => {},
        }
    }
}

} // verus!
