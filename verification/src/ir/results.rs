//! What calls and instructions kept as they are leave in registers is picked up behind them.

use crate::ir::anchor::{anchored, reanchored};
use crate::ir::event::Event;
use crate::ir::expr::{op_of, Node, Op, Ref};
use crate::ir::graph::Block;
use crate::ir::instr::{Instr, Operand, SchedBlock};
use crate::ir::lower::{
    call_sites, call_stacks, drawn, is_guest_effect, left_by, lemma_performs_more, lemma_sites_kept,
    lemma_sites_same, lowers, lowers_by, names, needs_node, performs, performs_all, retargeted, staged,
    with_defs, with_instr, with_left, Progress, Stage,
};
use crate::ir::schedule::{emitted_for, placed_more, starts};
use crate::ir::value::{Reg, Width};
use crate::ir::x86::register_part;
use vstd::prelude::*;

verus! {

/// Naming results adds only what picks them up, and places only what is named.
proof fn lemma_with_defs(ns: Seq<Node>, p: Progress, defs: Seq<(u32, Ref)>, k: int)
    requires
        k <= defs.len(),
    ensures
        starts(p.instrs, with_defs(ns, p, defs, k).instrs),
        placed_more(p.placed, with_defs(ns, p, defs, k).placed),
        forall|i: int|
            p.instrs.len() <= i < with_defs(ns, p, defs, k).instrs.len() ==> picks_up(
                #[trigger] with_defs(ns, p, defs, k).instrs[i],
            ),
        forall|x: usize| #[trigger]
            with_defs(ns, p, defs, k).placed.dom().contains(x) && !p.placed.dom().contains(x) ==> exists|m: int|
                0 <= m < k && (#[trigger] defs[m]).1.idx == x,
    decreases k,
{
    if k > 0 {
        lemma_with_defs(ns, p, defs, k - 1);
        let q = with_defs(ns, p, defs, k - 1);
        let r = with_defs(ns, p, defs, k);
        assert forall|i: int| 0 <= i < p.instrs.len() implies #[trigger] r.instrs[i] == p.instrs[i] by {
            assert(q.instrs[i] == p.instrs[i]);
        }
        assert forall|i: int| p.instrs.len() <= i < r.instrs.len() implies picks_up(#[trigger] r.instrs[i]) by {
            if i < q.instrs.len() {
                assert(r.instrs[i] == q.instrs[i]);
            }
        }
        assert forall|x: usize| #[trigger] r.placed.dom().contains(x) && !p.placed.dom().contains(x) implies exists|
            m: int,
        |
            0 <= m < k && (#[trigger] defs[m]).1.idx == x by {
            if q.placed.dom().contains(x) {
                let m = choose|m: int| 0 <= m < k - 1 && (#[trigger] defs[m]).1.idx == x;
                assert(defs[m].1.idx == x);
            } else {
                assert(defs[k - 1].1.idx == x);
            }
        }
    }
}

/// Whether an instruction names a value that is in a register.
pub open spec fn picks_up(i: Instr) -> bool {
    i matches Instr::Opaque { at, .. } && at is Some
}

/// Lowering an event keeps what there is.
proof fn lemma_lowers(ns: Seq<Node>, base: u64, p: Stage, e: Event, q: Stage)
    requires
        lowers(ns, base, p, e, q),
    ensures
        starts(p.at.instrs, q.at.instrs),
        placed_more(p.at.placed, q.at.placed),
        q.calls.len() == p.calls.len() + (if e is Call {
            1nat
        } else {
            0nat
        }),
        forall|k: int| 0 <= k < p.calls.len() ==> #[trigger] q.calls[k] == p.calls[k],
        forall|x: usize| #[trigger]
            q.at.placed.dom().contains(x) && !p.at.placed.dom().contains(x) ==> needs_node(ns, e, x)
                || names(e, x),
{
    let (mid, i) = choose|mid: Progress, i: Instr| #[trigger] lowers_by(ns, base, p, e, mid, i, q);
    let acted = with_instr(mid, i);
    assert(starts(p.at.instrs, mid.instrs) && placed_more(p.at.placed, mid.placed));
    assert forall|j: int| 0 <= j < p.at.instrs.len() implies #[trigger] acted.instrs[j] == p.at.instrs[j] by {
        assert(mid.instrs[j] == p.at.instrs[j]);
    }
    if let Event::Boxed { defs, .. } = e {
        lemma_with_defs(ns, acted, defs@, defs@.len() as int);
        assert forall|j: int| 0 <= j < p.at.instrs.len() implies #[trigger] q.at.instrs[j] == p.at.instrs[j] by {
            assert(acted.instrs[j] == p.at.instrs[j]);
        }
        assert forall|x: usize| #[trigger]
            q.at.placed.dom().contains(x) && !p.at.placed.dom().contains(x) implies needs_node(ns, e, x)
            || names(e, x) by {
            if mid.placed.dom().contains(x) {
                assert(needs_node(ns, e, x));
            } else {
                let m = choose|m: int| 0 <= m < defs@.len() && (#[trigger] defs@[m]).1.idx == x;
                assert(names(e, x));
            }
        }
    } else {
        assert forall|x: usize| #[trigger]
            q.at.placed.dom().contains(x) && !p.at.placed.dom().contains(x) implies needs_node(ns, e, x)
            || names(e, x) by {
            if mid.placed.dom().contains(x) {
                assert(needs_node(ns, e, x));
            }
        }
        assert forall|j: int| 0 <= j < p.at.instrs.len() implies #[trigger] q.at.instrs[j] == p.at.instrs[j] by {
            assert(acted.instrs[j] == p.at.instrs[j]);
        }
    }
}

/// What is placed before event `j` is what an earlier one needs or names.
proof fn lemma_placed_before(ns: Seq<Node>, base: u64, events: Seq<Event>, stages: Seq<Stage>, j: int, x: usize)
    requires
        staged(ns, base, events, stages),
        0 <= j <= events.len(),
        !left_by(events.take(j), x),
        forall|i: int| 0 <= i < j ==> !needs_node(ns, #[trigger] events[i], x),
    ensures
        !stages[j].at.placed.dom().contains(x),
        stages[j].calls.len() == call_stacks(events.take(j)).len(),
    decreases j,
{
    if j > 0 {
        let e = events[j - 1];
        assert(events.take(j).drop_last() =~= events.take(j - 1));
        assert(!left_by(events.take(j - 1), x)) by {
            if left_by(events.take(j - 1), x) {
                let i = choose|i: int| 0 <= i < j - 1 && names(#[trigger] events.take(j - 1)[i], x);
                assert(names(events.take(j)[i], x));
            }
        }
        assert(!names(e, x)) by {
            assert(events.take(j)[j - 1] == e);
        }
        lemma_placed_before(ns, base, events, stages, j - 1, x);
        assert(lowers(ns, base, stages[j - 1], events[j - 1], stages[j - 1 + 1]));
        lemma_lowers(ns, base, stages[j - 1], e, stages[j]);
        assert(!needs_node(ns, events[j - 1], x));
        assert(events.take(j).last() == e);
    } else {
        assert(events.take(0) =~= Seq::empty());
    }
}

/// Later stages keep what earlier ones have.
proof fn lemma_stages_grow(ns: Seq<Node>, base: u64, events: Seq<Event>, stages: Seq<Stage>, j: int, k: int)
    requires
        staged(ns, base, events, stages),
        0 <= j <= k <= events.len(),
    ensures
        starts(stages[j].at.instrs, stages[k].at.instrs),
        placed_more(stages[j].at.placed, stages[k].at.placed),
        stages[j].calls.len() <= stages[k].calls.len(),
        forall|n: int| 0 <= n < stages[j].calls.len() ==> #[trigger] stages[k].calls[n] == stages[j].calls[n],
    decreases k,
{
    if j < k {
        lemma_stages_grow(ns, base, events, stages, j, k - 1);
        assert(lowers(ns, base, stages[k - 1], events[k - 1], stages[k - 1 + 1]));
        lemma_lowers(ns, base, stages[k - 1], events[k - 1], stages[k]);
        assert forall|i: int| 0 <= i < stages[j].at.instrs.len() implies #[trigger] stages[k].at.instrs[i]
            == stages[j].at.instrs[i] by {
            assert(stages[k - 1].at.instrs[i] == stages[j].at.instrs[i]);
        }
        assert forall|n: int| 0 <= n < stages[j].calls.len() implies #[trigger] stages[k].calls[n]
            == stages[j].calls[n] by {
            assert(stages[k - 1].calls[n] == stages[j].calls[n]);
        }
    }
}

/// Anchoring stack arguments changes stores only.
proof fn lemma_retargeted(instrs: Seq<Instr>, calls: Seq<(usize, Option<u64>)>, base: u64, k: int, i: int)
    requires
        0 <= i < instrs.len(),
    ensures
        retargeted(instrs, calls, base, k).len() == instrs.len(),
        !(instrs[i] is Store) ==> retargeted(instrs, calls, base, k)[i] == instrs[i],
        instrs[i] is Store ==> retargeted(instrs, calls, base, k)[i] is Store,
    decreases k,
{
    if k > 0 {
        lemma_retargeted(instrs, calls, base, k - 1, i);
        let before = retargeted(instrs, calls, base, k - 1);
        let from = if k == 1 {
            0
        } else {
            calls[k - 2].0 + 1
        };
        if let Some(rsp) = calls[k - 1].1 {
            assert(retargeted(instrs, calls, base, k)[i] == anchored(
                before,
                from,
                calls[k - 1].0 as int,
                base,
                rsp,
                i,
            ));
        }
    }
}

/// Settling addresses leaves everything but accesses to memory, and calls stay where they
/// are.
proof fn lemma_settled_code(
    ns: Seq<Node>,
    base: u64,
    b: Block,
    sb: SchedBlock,
    placed: Map<usize, Operand>,
    pre: Seq<Instr>,
    calls: Seq<(usize, Option<u64>)>,
    stages: Seq<Stage>,
)
    requires
        drawn(ns, base, b, sb, placed, pre, calls, stages),
    ensures
        call_sites(sb.instrs@) == call_sites(pre),
        forall|i: int|
            0 <= i < pre.len() && !(pre[i] is Store) && !(pre[i] is Load) ==> #[trigger] sb.instrs@[i] == pre[i],
{
    let r = retargeted(pre, calls, base, calls.len() as int);
    let head = sb.instrs@.take(pre.len() as int);
    assert forall|i: int| 0 <= i < pre.len() implies (pre[i] is Call) == (#[trigger] head[i] is Call) && (!(
    pre[i] is Store) && !(pre[i] is Load) ==> head[i] == pre[i]) by {
        lemma_retargeted(pre, calls, base, calls.len() as int, i);
        assert(sb.instrs@[i] == reanchored(r, i));
    }
    assert forall|i: int|
        0 <= i < pre.len() && !(pre[i] is Store) && !(pre[i] is Load) implies #[trigger] sb.instrs@[i] == pre[i] by {
        assert(head[i] == pre[i]);
    }
    lemma_sites_kept(pre, head);
    assert forall|i: int| head.len() <= i < sb.instrs@.len() implies !(#[trigger] sb.instrs@[i] is Call) by {
        assert(emitted_for(ns, stages.last().at.placed, placed, base, sb.instrs@[i]));
    }
    lemma_sites_same(head, sb.instrs@);
}

/// The instructions that act are the guest's effects one to one and in order, and a call whose
/// result nothing before it speaks of is directly followed by the value that is its result,
/// picked up from RAX.
pub proof fn a_call_is_followed_by_its_result(
    ns: Seq<Node>,
    base: u64,
    b: Block,
    sb: SchedBlock,
    placed: Map<usize, Operand>,
    pre: Seq<Instr>,
    calls: Seq<(usize, Option<u64>)>,
    stages: Seq<Stage>,
    j: int,
    rv: Ref,
)
    requires
        drawn(ns, base, b, sb, placed, pre, calls, stages),
        0 <= j < b.events@.len(),
        b.events@[j] matches Event::Call { ret, .. } && ret == Some(rv),
        !left_by(b.events@.take(j), rv.idx),
        forall|i: int| 0 <= i <= j ==> !needs_node(ns, #[trigger] b.events@[i], rv.idx),
    ensures
        performs_all(ns, placed, sb.instrs@, b.events@),
        ({
            let n = call_stacks(b.events@.take(j)).len();
            let pos = call_sites(sb.instrs@)[n as int];
            &&& n < call_sites(sb.instrs@).len()
            &&& 0 <= pos
            &&& pos + 1 < sb.instrs@.len()
            &&& sb.instrs@[pos] is Call
            &&& performs(ns, placed, sb.instrs@[pos], b.events@[j])
            &&& sb.instrs@[pos + 1] matches Instr::Opaque { dst, tag, width, at } && tag@ == "call_ret"@
                && width == Width::W64 && at == Some(Reg::Rax) && placed.dom().contains(rv.idx)
                && placed[rv.idx] == Operand::Val(dst)
        }),
{
    let events = b.events@;
    let e = events[j];
    let p = stages[j];
    let q = stages[j + 1];
    assert(lowers(ns, base, stages[j], events[j], stages[j + 1]));
    assert forall|i: int| 0 <= i < j implies !needs_node(ns, #[trigger] events[i], rv.idx) by {}
    lemma_placed_before(ns, base, events, stages, j, rv.idx);
    let (mid, i) = choose|mid: Progress, i: Instr| #[trigger] lowers_by(ns, base, p, e, mid, i, q);
    assert(!mid.placed.dom().contains(rv.idx)) by {
        assert(!needs_node(ns, events[j], rv.idx));
    }
    let acted = with_instr(mid, i);
    assert(q.at == with_left(acted, rv, "call_ret", Reg::Rax));
    let last = events.len() as int;
    lemma_stages_grow(ns, base, events, stages, j + 1, last);
    assert(stages.last() == stages[last]);
    let pos = mid.instrs.len() as int;
    let n = p.calls.len() as int;
    assert(sb.instrs.len() == sb.instrs@.len());
    assert(pos + 1 < q.at.instrs.len() <= pre.len());
    assert(calls[n] == q.calls[n]);
    assert(calls[n].0 == call_sites(pre)[n]);
    assert(call_sites(pre)[n] == pos);
    lemma_settled_code(ns, base, b, sb, placed, pre, calls, stages);
    assert(q.at.instrs[pos] == i);
    assert(pre[pos] == i);
    assert(pre[pos + 1] == q.at.instrs[pos + 1]);
    assert(is_guest_effect(e));
    assert(i is Call);
    assert(sb.instrs@[pos] == pre[pos]);
    assert(sb.instrs@[pos + 1] == pre[pos + 1]);
    assert(q.at.placed.dom().contains(rv.idx));
    assert(placed_more(mid.placed, q.at.placed));
    assert(placed_more(mid.placed, placed)) by {
        assert forall|k: usize| #[trigger] mid.placed.dom().contains(k) implies placed.dom().contains(k)
            && placed[k] == mid.placed[k] by {
            assert(q.at.placed.dom().contains(k));
            assert(stages.last().at.placed.dom().contains(k));
        }
    }
    lemma_performs_more(ns, mid.placed, placed, i, e);
    assert(stages.last().at.placed.dom().contains(rv.idx));
}

/// A result that a boxed instruction leaves and nothing else names so far is named.
proof fn lemma_def_named(ns: Seq<Node>, p: Progress, defs: Seq<(u32, Ref)>, k: int, m: int)
    requires
        0 <= m < k <= defs.len(),
        !p.placed.dom().contains(defs[m].1.idx),
        forall|i: int| 0 <= i < m ==> (#[trigger] defs[i]).1.idx != defs[m].1.idx,
        register_part(defs[m].0) is Some,
        op_of(ns, defs[m].1) is Opaque,
    ensures
        exists|i: int|
            p.instrs.len() <= i < with_defs(ns, p, defs, k).instrs.len() && names_left(
                ns,
                with_defs(ns, p, defs, k).placed,
                defs[m],
                #[trigger] with_defs(ns, p, defs, k).instrs[i],
            ),
    decreases k,
{
    let q = with_defs(ns, p, defs, k - 1);
    let r = with_defs(ns, p, defs, k);
    lemma_with_defs(ns, p, defs, k - 1);
    if m == k - 1 {
        let v = defs[m].1;
        assert(!q.placed.dom().contains(v.idx)) by {
            if q.placed.dom().contains(v.idx) {
                let i = choose|i: int| 0 <= i < k - 1 && (#[trigger] defs[i]).1.idx == v.idx;
                assert(defs[i].1.idx != defs[m].1.idx);
            }
        }
        assert(names_left(ns, r.placed, defs[m], r.instrs[q.instrs.len() as int]));
    } else {
        lemma_def_named(ns, p, defs, k - 1, m);
        let i = choose|i: int|
            p.instrs.len() <= i < q.instrs.len() && names_left(ns, q.placed, defs[m], #[trigger] q.instrs[i]);
        assert(r.instrs[i] == q.instrs[i]);
        assert(names_left(ns, r.placed, defs[m], r.instrs[i]));
    }
}

/// Whether an instruction names what is left in the register of a result, and the node is at
/// that value.
pub open spec fn names_left(ns: Seq<Node>, placed: Map<usize, Operand>, def: (u32, Ref), i: Instr) -> bool {
    match (register_part(def.0), op_of(ns, def.1)) {
        (Some((reg, _, _)), Op::Opaque(t, _)) => i matches Instr::Opaque { dst, tag, width, at } && tag@ == t@
            && width == Width::W64 && at == Some(reg) && placed.dom().contains(def.1.idx) && placed[def.1.idx]
            == Operand::Val(dst),
        _ => false,
    }
}

/// A result that an instruction kept as it is leaves in a general purpose register, and that
/// nothing before speaks of, is picked up from that register behind it, with nothing between
/// but what picks up its other results.
pub proof fn a_boxed_instruction_is_followed_by_its_results(
    ns: Seq<Node>,
    base: u64,
    b: Block,
    sb: SchedBlock,
    placed: Map<usize, Operand>,
    pre: Seq<Instr>,
    calls: Seq<(usize, Option<u64>)>,
    stages: Seq<Stage>,
    j: int,
    m: int,
)
    requires
        drawn(ns, base, b, sb, placed, pre, calls, stages),
        0 <= j < b.events@.len(),
        b.events@[j] matches Event::Boxed { defs, .. } && 0 <= m < defs@.len() && register_part(
            defs@[m].0,
        ) is Some && op_of(ns, defs@[m].1) is Opaque && !left_by(b.events@.take(j), defs@[m].1.idx) && (
        forall|i: int| 0 <= i < m ==> (#[trigger] defs@[i]).1.idx != defs@[m].1.idx) && (forall|i: int|
            0 <= i <= j ==> !needs_node(ns, #[trigger] b.events@[i], defs@[m].1.idx)),
    ensures
        exists|pos: int, at: int|
            #![trigger sb.instrs@[pos], sb.instrs@[at]]
            0 <= pos < at < sb.instrs@.len() && sb.instrs@[pos] is Boxed && performs(
                ns,
                placed,
                sb.instrs@[pos],
                b.events@[j],
            ) && names_left(ns, placed, b.events@[j]->Boxed_defs@[m], sb.instrs@[at]) && forall|i: int|
                pos < i < at ==> picks_up(#[trigger] sb.instrs@[i]),
{
    let events = b.events@;
    let e = events[j];
    let defs = e->Boxed_defs@;
    let v = defs[m].1;
    let p = stages[j];
    let q = stages[j + 1];
    assert(lowers(ns, base, stages[j], events[j], stages[j + 1]));
    assert forall|i: int| 0 <= i < j implies !needs_node(ns, #[trigger] events[i], v.idx) by {}
    lemma_placed_before(ns, base, events, stages, j, v.idx);
    let (mid, i) = choose|mid: Progress, i: Instr| #[trigger] lowers_by(ns, base, p, e, mid, i, q);
    assert(!mid.placed.dom().contains(v.idx)) by {
        assert(!needs_node(ns, events[j], v.idx));
    }
    let acted = with_instr(mid, i);
    let k = defs.len() as int;
    lemma_with_defs(ns, acted, defs, k);
    lemma_def_named(ns, acted, defs, k, m);
    let at = choose|at: int|
        acted.instrs.len() <= at < q.at.instrs.len() && names_left(
            ns,
            q.at.placed,
            defs[m],
            #[trigger] q.at.instrs[at],
        );
    let last = events.len() as int;
    lemma_stages_grow(ns, base, events, stages, j + 1, last);
    assert(stages.last() == stages[last]);
    let pos = mid.instrs.len() as int;
    lemma_settled_code(ns, base, b, sb, placed, pre, calls, stages);
    assert(acted.instrs[pos] == i);
    assert(q.at.instrs[pos] == i);
    assert(pre[pos] == i);
    assert(i is Boxed) by {
        assert(is_guest_effect(e));
    }
    assert(sb.instrs@[pos] == i);
    assert forall|x: int| pos < x <= at implies #[trigger] sb.instrs@[x] == q.at.instrs[x] && picks_up(
        sb.instrs@[x],
    ) by {
        assert(pre[x] == q.at.instrs[x]);
        assert(picks_up(q.at.instrs[x]));
    }
    assert(placed_more(q.at.placed, placed)) by {
        assert forall|x: usize| #[trigger] q.at.placed.dom().contains(x) implies placed.dom().contains(x)
            && placed[x] == q.at.placed[x] by {
            assert(stages.last().at.placed.dom().contains(x));
        }
    }
    assert(placed_more(mid.placed, placed)) by {
        assert forall|x: usize| #[trigger] mid.placed.dom().contains(x) implies placed.dom().contains(x)
            && placed[x] == mid.placed[x] by {
            assert(q.at.placed.dom().contains(x));
        }
    }
    lemma_performs_more(ns, mid.placed, placed, i, e);
    assert(names_left(ns, placed, defs[m], sb.instrs@[at]));
    assert(0 <= pos < at < sb.instrs@.len() && sb.instrs@[pos] is Boxed);
}

} // verus!
