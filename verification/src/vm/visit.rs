//! Recovering one block: what its evaluation did, moved into the recovered graph.

use crate::ir::branch::{guest_events, stop_held};
use crate::ir::event::{Event, Stop};
use crate::ir::expr::{
    eval, extends, has, nodes_ok, op_of, width_of, Arena, BlockRef, Env, Node, Ref,
};
use crate::ir::flow::{block_ok, blocks_ok, lemma_depends_kept};
use crate::ir::graph::{Block, BlockId, Cfg, Terminator};
use crate::ir::guest::{locates, reads_guest, seeds};
use crate::ir::lift::{events_held, lemma_wf_grows, Emulator};
use crate::ir::lower::{event_held, terminator_held};
use crate::ir::run::runs;
use crate::ir::value::{Reg, Width, GPRS};
use crate::ir::walk::{
    copied, depends, lemma_depends_held, memo_ok, numbered, tracks, unnumbered,
};
use crate::vm::ending::{end_block, ends};
use crate::vm::fork::{continues_as, queue_ok, Task};
use crate::vm::graft::{
    graft_events, graft_list, graft_terminator, lemma_event_moved, lemma_list_moved, more_copies,
    moved_events, moved_list, moved_terminator,
};
use crate::vm::image::Image;
use std::collections::HashMap;
use vstd::prelude::*;

verus! {

broadcast use vstd::std_specs::hash::group_hash_axioms;

/// A list of registers with one more entry, behind those whose number is no higher.
pub open spec fn with_reg(s: Seq<(Reg, Ref)>, x: (Reg, Ref)) -> Seq<(Reg, Ref)>
    decreases s.len(),
{
    if s.len() == 0 || s.last().0.number() <= x.0.number() {
        s.push(x)
    } else {
        with_reg(s.drop_last(), x).push(s.last())
    }
}

/// The first `k` entries of a list in the order of the registers' numbers.
pub open spec fn by_number(list: Seq<(Reg, Ref)>, k: int) -> Seq<(Reg, Ref)>
    decreases k,
{
    if k <= 0 {
        Seq::empty()
    } else {
        with_reg(by_number(list, k - 1), list[k - 1])
    }
}

/// Putting an entry in its place adds that entry and nothing else.
proof fn lemma_with_reg(s: Seq<(Reg, Ref)>, x: (Reg, Ref))
    ensures
        with_reg(s, x).len() == s.len() + 1,
        forall|i: int|
            0 <= i < with_reg(s, x).len() ==> #[trigger] with_reg(s, x)[i] == x || s.contains(
                with_reg(s, x)[i],
            ),
    decreases s.len(),
{
    if s.len() == 0 || s.last().0.number() <= x.0.number() {
        assert forall|i: int| 0 <= i < with_reg(s, x).len() implies #[trigger] with_reg(s, x)[i]
            == x || s.contains(with_reg(s, x)[i]) by {
            if i < s.len() {
                assert(s[i] == with_reg(s, x)[i]);
            }
        }
    } else {
        let rest = s.drop_last();
        lemma_with_reg(rest, x);
        assert forall|i: int| 0 <= i < with_reg(s, x).len() implies #[trigger] with_reg(s, x)[i]
            == x || s.contains(with_reg(s, x)[i]) by {
            let y = with_reg(s, x)[i];
            if i < with_reg(rest, x).len() {
                assert(y == with_reg(rest, x)[i]);
                if rest.contains(y) {
                    let j = choose|j: int| 0 <= j < rest.len() && rest[j] == y;
                    assert(s[j] == y);
                }
            } else {
                assert(s[s.len() - 1] == y);
            }
        }
    }
}

proof fn lemma_by_number(list: Seq<(Reg, Ref)>, k: int)
    requires
        0 <= k <= list.len(),
    ensures
        by_number(list, k).len() == k,
        forall|i: int| 0 <= i < k ==> list.contains(#[trigger] by_number(list, k)[i]),
    decreases k,
{
    if k > 0 {
        lemma_by_number(list, k - 1);
        let s = by_number(list, k - 1);
        let x = list[k - 1];
        lemma_with_reg(s, x);
        assert forall|i: int| 0 <= i < k implies list.contains(#[trigger] by_number(list, k)[i]) by {
            let y = by_number(list, k)[i];
            if y != x {
                assert(s.contains(y));
                let j = choose|j: int| 0 <= j < s.len() && s[j] == y;
                assert(list.contains(s[j]));
            }
        }
    }
}

fn insert_reg(v: &mut Vec<(Reg, Ref)>, x: (Reg, Ref))
    ensures
        final(v)@ == with_reg(old(v)@, x),
{
    let ghost v0 = v@;
    let mut k: usize = v.len();
    proof {
        assert(v0.take(v0.len() as int) =~= v0);
        assert(v0.skip(v0.len() as int) =~= Seq::empty());
        assert(with_reg(v0, x) =~= with_reg(v0.take(k as int), x) + v0.skip(k as int));
    }
    while k > 0 && v[k - 1].0.number() > x.0.number()
        invariant
            k <= v@.len(),
            v@ == v0,
            with_reg(v0, x) == with_reg(v0.take(k as int), x) + v0.skip(k as int),
        decreases k,
    {
        proof {
            let t = v0.take(k as int);
            assert(t.drop_last() =~= v0.take(k - 1));
            assert(t.last() == v0[k - 1]);
            assert(with_reg(v0, x) =~= with_reg(v0.take(k - 1), x) + v0.skip(k - 1));
        }
        k = k - 1;
    }
    v.insert(k, x);
    proof {
        let t = v0.take(k as int);
        assert(with_reg(t, x) =~= t.push(x)) by {
            if t.len() > 0 {
                assert(t.last() == v0[k - 1]);
            }
        }
        assert(v@ =~= with_reg(v0, x));
    }
}

/// A list in the order of the registers' numbers.
pub fn sort_regs(list: &Vec<(Reg, Ref)>) -> (v: Vec<(Reg, Ref)>)
    ensures
        v@ == by_number(list@, list@.len() as int),
        v@.len() == list@.len(),
        forall|i: int| 0 <= i < v@.len() ==> list@.contains(#[trigger] v@[i]),
{
    let mut v: Vec<(Reg, Ref)> = Vec::new();
    let mut k: usize = 0;
    while k < list.len()
        invariant
            k <= list@.len(),
            v@ == by_number(list@, k as int),
        decreases list@.len() - k,
    {
        insert_reg(&mut v, list[k]);
        k = k + 1;
    }
    proof {
        lemma_by_number(list@, list@.len() as int);
    }
    v
}

/// What is known of a pass over the graph so far.
pub struct Pass<'a> {
    /// Long-lived arena for the recovered graph. Blocks move what they refer to into it as
    /// they are finalized.
    pub arena: Arena,
    pub blocks: Vec<Block>,
    pub visited: Vec<BlockId>,
    pub edges: Vec<(BlockId, BlockId)>,
    pub back_edges: Vec<(BlockId, BlockId)>,
    pub total_steps: usize,
    pub unresolved: usize,
    pub timed_out: bool,
    pub queue: Vec<Task<'a>>,
}

/// The machines on the way through one block, up to what follows it.
pub ghost struct Evaluation<'a> {
    /// Told which blocks are on the path here, and that a block begins.
    pub ready: Emulator<'a>,
    /// With the block's parameters in place of the guest registers, at a join.
    pub seeded: Emulator<'a>,
    pub params: Seq<(Reg, Ref)>,
    pub ran: Emulator<'a>,
    pub stop: Stop,
    /// With the guest register image found, which may classify events anew.
    pub located: Emulator<'a>,
    pub base: Option<u64>,
    /// With the events taken.
    pub cleared: Emulator<'a>,
    pub relocated: Emulator<'a>,
    pub rebase: Option<u64>,
    pub ended: Emulator<'a>,
    pub queue: Seq<Task<'a>>,
    pub t: Terminator,
}

/// The machines and lists on the way from a block's evaluation to the block of the graph.
pub ghost struct Visit<'a> {
    pub e: Evaluation<'a>,
    pub shown: Emulator<'a>,
    pub read: Emulator<'a>,
    pub guest: Option<Vec<(Reg, Ref)>>,
    pub memo: Map<usize, Ref>,
    pub grafted_params: Seq<(Reg, Ref)>,
    pub grafted_exit: Seq<(Reg, Ref)>,
}

/// The identities a machine is told of.
pub open spec fn told(above: Seq<BlockId>) -> Seq<(u64, Option<u64>)> {
    Seq::new(above.len(), |i: int| (above[i].handler, above[i].vip))
}

/// A machine at the start of a block. Only ancestors are legitimate targets of a back edge.
pub open spec fn readied(m: Emulator, above: Seq<BlockId>, r: Emulator) -> bool {
    &&& r == (Emulator {
        block_entries: r.block_entries,
        events_at_block_entry: r.events_at_block_entry,
        ..m
    })
    &&& r.block_entries@ == told(above)
    &&& r.events_at_block_entry == guest_events(m.events@, m.events@.len() as int)
}

/// The machine's own registers, in the order of their numbers.
pub open spec fn own_registers(m: Emulator) -> Seq<(Reg, Ref)> {
    Seq::new(16, |i: int| (GPRS@[i], m.state.reg(GPRS@[i])))
}

/// What a block leaves in the guest's registers: what the VM context holds, or the machine's
/// own registers where there is no such context.
pub open spec fn exit_values(m: Emulator, guest: Option<Vec<(Reg, Ref)>>) -> Seq<(Reg, Ref)> {
    match guest {
        Some(v) => v@,
        None => own_registers(m),
    }
}

/// The machines on the way through one block, each made from the one before.
#[verifier::opaque]
pub open spec fn evaluates_block(
    pe: Image,
    budget: usize,
    cut: Seq<BlockId>,
    known: Option<Cfg>,
    task: Task,
    block: BlockRef,
    q0: Seq<Task>,
    e: Evaluation,
) -> bool {
    &&& readied(task.emu, task.ancestors@, e.ready)
    &&& if cut.contains(task.id) {
        seeds(e.ready, block, e.seeded, e.params)
    } else {
        e.seeded == e.ready && e.params == Seq::<(Reg, Ref)>::empty()
    }
    &&& runs(e.seeded, task.resume, budget as int, e.ran, e.stop)
    &&& locates(e.ran, e.located, e.base)
    &&& e.cleared == (Emulator { events: e.cleared.events, ..e.located })
    &&& e.cleared.events@ == Seq::<Event>::empty()
    &&& locates(e.cleared, e.relocated, e.rebase)
    &&& e.relocated.wf()
    &&& e.ended.arena.continues(e.seeded.arena)
    &&& stop_held(e.relocated.arena.nodes@, e.stop)
    &&& ends(
        pe,
        known,
        e.relocated,
        task.id,
        task.ancestors@,
        e.stop,
        (e.ran.steps - task.emu.steps) as usize,
        e.ended,
        q0,
        e.queue,
        e.t,
    )
}

/// What is read out of the machine once the block is over.
#[verifier::opaque]
pub open spec fn reads_out(v: Visit) -> bool {
    &&& v.shown == (Emulator { ctx_miss: None, ..v.e.ended })
    &&& v.read.arena.continues(v.e.ended.arena)
    // At a guest return the VM has already copied the context back into the machine
    // registers and torn it down.
    &&& if v.e.stop is Return {
        v.read == v.shown && v.guest is None
    } else {
        reads_guest(v.shown, v.read, v.guest)
    }
}

/// The parts of a block, moved into the graph's arena.
#[verifier::opaque]
pub open spec fn moved_parts(v: Visit, b: Block) -> bool {
    &&& moved_list(v.memo, v.e.params, v.grafted_params)
    &&& b.params@ == by_number(v.grafted_params, v.grafted_params.len() as int)
    &&& moved_events(v.memo, v.e.located.events@, b.events@)
    &&& b.from_vm_context == v.guest is Some
    &&& moved_list(v.memo, exit_values(v.read, v.guest), v.grafted_exit)
    &&& b.exit_regs@ == by_number(v.grafted_exit, v.grafted_exit.len() as int)
    &&& moved_terminator(v.memo, v.e.t, b.terminator)
}

/// The block that a visit makes.
pub open spec fn makes_block(task: Task, block: BlockRef, v: Visit, b: Block) -> bool {
    &&& b.id == task.id
    &&& b.block_ref == block
    &&& moved_parts(v, b)
    &&& b.cost == v.e.ran.steps - task.emu.steps
    &&& b.preds@ == Seq::<BlockId>::empty()
}

/// The edge that a block closes a loop with.
pub open spec fn loop_edge(id: BlockId, stop: Stop) -> Seq<(BlockId, BlockId)> {
    match stop {
        Stop::Backedge { target, vip, .. } => seq![(id, BlockId { handler: target, vip })],
        _ => Seq::empty(),
    }
}

/// What a visit does to a pass.
pub open spec fn visit_steps(
    pe: Image,
    budget: usize,
    cut: Seq<BlockId>,
    known: Option<Cfg>,
    task: Task,
    p0: Pass,
    v: Visit,
    p1: Pass,
) -> bool {
    let block = BlockRef(p0.blocks@.len() as u32);
    &&& evaluates_block(pe, budget, cut, known, task, block, p0.queue@, v.e)
    &&& reads_out(v)
    &&& p1.arena.continues(p0.arena)
    &&& memo_ok(v.read.arena.nodes@, p1.arena.nodes@, v.memo)
    &&& p1.blocks@.len() == p0.blocks@.len() + 1
    &&& p1.blocks@.drop_last() == p0.blocks@
    &&& makes_block(task, block, v, p1.blocks@.last())
    &&& p1.visited@ == p0.visited@
    &&& p1.edges@ == p0.edges@ + loop_edge(task.id, v.e.stop)
    &&& p1.back_edges@ == p0.back_edges@ + loop_edge(task.id, v.e.stop)
    &&& p1.total_steps == p0.total_steps + p1.blocks@.last().cost
    &&& p1.unresolved == p0.unresolved + if v.e.t is Unresolved {
        1int
    } else {
        0int
    }
    &&& p1.timed_out == p0.timed_out
    &&& match v.e.t {
        // A plain continuation reuses this evaluator.
        Terminator::Jump(to) => p1.queue@.len() == v.e.queue.len() + 1 && p1.queue@.drop_last()
            == v.e.queue && continues_as(p1.queue@.last(), v.read, to, task.id, task.ancestors@),
        _ => p1.queue@ == v.e.queue,
    }
}

/// What a visit does to a pass.
pub open spec fn visits(
    pe: Image,
    budget: usize,
    cut: Seq<BlockId>,
    known: Option<Cfg>,
    task: Task,
    p0: Pass,
    p1: Pass,
) -> bool {
    exists|v: Visit| #[trigger] visit_steps(pe, budget, cut, known, task, p0, v, p1)
}

/// A record of copies stays right when more is computed where they came from.
proof fn lemma_memo_source_grows(a: Arena, b: Arena, dst: Seq<Node>, memo: Map<usize, Ref>)
    requires
        a.wf(),
        b.continues(a),
        memo_ok(a.nodes@, dst, memo),
    ensures
        memo_ok(b.nodes@, dst, memo),
{
    let n0 = a.nodes@;
    let n1 = b.nodes@;
    assert forall|k: usize| #[trigger] memo.dom().contains(k) implies copied(n1, dst, memo, k) by {
        assert(copied(n0, dst, memo, k));
        assert(n1[k as int] == n0[k as int]);
        assert forall|es: Env, ed: Env|
            #![trigger eval(n1, Ref { idx: k }, es), eval(dst, memo[k], ed)]
            tracks(n1, dst, memo, es, ed) implies eval(n1, Ref { idx: k }, es) == eval(
            dst,
            memo[k],
            ed,
        ) by {
            assert(tracks(n0, dst, memo, es, ed)) by {
                assert forall|j: usize|
                    #![trigger memo.dom().contains(j)]
                    memo.dom().contains(j) && numbered(n0[j as int].op) implies eval(
                    n0,
                    Ref { idx: j },
                    es,
                ) == eval(dst, memo[j], ed) by {
                    assert(copied(n0, dst, memo, j));
                    assert(n1[j as int] == n0[j as int]);
                    assert(has(n0, Ref { idx: j }));
                }
            }
            assert(has(n0, Ref { idx: k }));
            assert(eval(n0, Ref { idx: k }, es) == eval(dst, memo[k], ed));
        }
        if unnumbered(n1, Ref { idx: k }) {
            lemma_unnumbered_before(n0, n1, Ref { idx: k });
            assert forall|e: Env| #[trigger] eval(dst, memo[k], e) == eval(n1, Ref { idx: k }, e) by {
                assert(has(n0, Ref { idx: k }));
                assert(eval(n1, Ref { idx: k }, e) == eval(n0, Ref { idx: k }, e));
            }
        }
    }
}

/// An expression without numbered unknowns had none before more was computed.
proof fn lemma_unnumbered_before(a: Seq<Node>, b: Seq<Node>, r: Ref)
    requires
        nodes_ok(a),
        extends(a, b),
        has(a, r),
        unnumbered(b, r),
    ensures
        unnumbered(a, r),
{
    reveal(unnumbered);
    assert forall|x: Ref| #[trigger] depends(a, r, x) implies !numbered(op_of(a, x)) by {
        lemma_depends_kept(a, b, r, x);
        lemma_depends_held(a, r, x);
        assert(b[x.idx as int] == a[x.idx as int]);
    }
}

proof fn lemma_stop_held_grows(a: Arena, b: Arena, stop: Stop)
    requires
        b.continues(a),
        stop_held(a.nodes@, stop),
    ensures
        stop_held(b.nodes@, stop),
{
}

/// Tells a machine which blocks are on the path here, and that a block begins.
fn make_ready<'a>(emu: &mut Emulator<'a>, ancestors: &Vec<BlockId>)
    requires
        old(emu).wf(),
    ensures
        final(emu).wf(),
        readied(*old(emu), ancestors@, *final(emu)),
{
    let ghost m0 = *emu;
    emu.clear_visited();
    let mut k: usize = 0;
    while k < ancestors.len()
        invariant
            k <= ancestors@.len(),
            emu.wf(),
            *emu == (Emulator { block_entries: emu.block_entries, ..m0 }),
            emu.block_entries@ == told(ancestors@).take(k as int),
        decreases ancestors@.len() - k,
    {
        let a = ancestors[k];
        emu.mark_visited(a.handler, a.vip);
        k = k + 1;
        proof {
            assert(emu.block_entries@ =~= told(ancestors@).take(k as int));
        }
    }
    emu.begin_block();
    proof {
        assert(told(ancestors@).take(ancestors@.len() as int) =~= told(ancestors@));
    }
}

/// The machine's own registers.
fn own_list(emu: &Emulator) -> (v: Vec<(Reg, Ref)>)
    requires
        emu.wf(),
    ensures
        v@ == own_registers(*emu),
        forall|k: int|
            0 <= k < v@.len() ==> has(emu.arena.nodes@, (#[trigger] v@[k]).1) && width_of(
                emu.arena.nodes@,
                v@[k].1,
            ) == Width::W64,
{
    let mut v: Vec<(Reg, Ref)> = Vec::new();
    let mut k: usize = 0;
    while k < 16
        invariant
            k <= 16,
            emu.wf(),
            v@ == own_registers(*emu).take(k as int),
        decreases 16 - k,
    {
        v.push((GPRS[k], emu.state.reg(GPRS[k])));
        k = k + 1;
        proof {
            assert(v@ =~= own_registers(*emu).take(k as int));
        }
    }
    proof {
        assert(own_registers(*emu).take(16) =~= own_registers(*emu));
        assert forall|i: int| 0 <= i < v@.len() implies has(emu.arena.nodes@, (#[trigger] v@[i]).1)
            && width_of(emu.arena.nodes@, v@[i].1) == Width::W64 by {
            let n = GPRS@[i].number() as int;
            assert(has(emu.arena.nodes@, emu.state.regs@[n]));
        }
    }
    v
}

/// What is known of a pass between visits.
pub open spec fn pass_ok(p: Pass) -> bool {
    &&& p.arena.wf()
    &&& blocks_ok(p.arena.nodes@, p.blocks@)
    &&& queue_ok(p.queue@, p.total_steps as nat)
    &&& p.unresolved <= p.blocks@.len()
}

/// Blocks stay right when the arena grows.
proof fn lemma_blocks_grow(a: Arena, b: Arena, blocks: Seq<Block>)
    requires
        b.continues(a),
        blocks_ok(a.nodes@, blocks),
    ensures
        blocks_ok(b.nodes@, blocks),
{
    let n0 = a.nodes@;
    let n1 = b.nodes@;
    assert forall|k: int| 0 <= k < blocks.len() implies block_ok(n1, #[trigger] blocks[k]) by {
        let x = blocks[k];
        assert(block_ok(n0, x));
        assert forall|j: int| 0 <= j < x.events@.len() implies event_held(n1, #[trigger] x.events@[j]) by {
            assert(event_held(n0, x.events@[j]));
            crate::ir::lift::lemma_event_grows(x.events@[j], n0, n1);
        }
        assert forall|j: int| 0 <= j < x.exit_regs@.len() implies has(n1, (#[trigger] x.exit_regs@[j]).1)
            && width_of(n1, x.exit_regs@[j].1) == Width::W64 by {
            assert(has(n0, x.exit_regs@[j].1));
        }
        assert forall|j: int| 0 <= j < x.params@.len() implies has(n1, (#[trigger] x.params@[j]).1)
            && width_of(n1, x.params@[j].1) == Width::W64 by {
            assert(has(n0, x.params@[j].1));
        }
    }
}

/// Entries of a sorted list are nodes where those of the list are.
proof fn lemma_sorted_held(ns: Seq<Node>, list: Seq<(Reg, Ref)>, v: Seq<(Reg, Ref)>)
    requires
        forall|i: int| 0 <= i < v.len() ==> list.contains(#[trigger] v[i]),
        forall|i: int|
            0 <= i < list.len() ==> has(ns, (#[trigger] list[i]).1) && width_of(ns, list[i].1)
                == Width::W64,
    ensures
        forall|i: int|
            0 <= i < v.len() ==> has(ns, (#[trigger] v[i]).1) && width_of(ns, v[i].1) == Width::W64,
{
    assert forall|i: int| 0 <= i < v.len() implies has(ns, (#[trigger] v[i]).1) && width_of(
        ns,
        v[i].1,
    ) == Width::W64 by {
        assert(list.contains(v[i]));
        let j = choose|j: int| 0 <= j < list.len() && list[j] == v[i];
        assert(has(ns, list[j].1));
    }
}

/// What evaluating a block leaves behind.
struct Evaluated<'a> {
    emu: Emulator<'a>,
    params: Vec<(Reg, Ref)>,
    events: Vec<Event>,
    stop: Stop,
    t: Terminator,
    cost: usize,
}

/// Evaluate the block of a task and decide what follows.
fn evaluate_task<'a>(
    pe: &Image,
    budget: usize,
    cut: &Vec<BlockId>,
    known: Option<&Cfg>,
    task: Task<'a>,
    block_ref: BlockRef,
    queue: &mut Vec<Task<'a>>,
) -> (r: (Evaluated<'a>, Vec<BlockId>, Ghost<Evaluation<'a>>))
    requires
        task.emu.wf(),
        task.emu.steps + budget <= usize::MAX,
    ensures
        evaluates_block(
            *pe,
            budget,
            cut@,
            match known {
                Some(c) => Some(*c),
                None => None,
            },
            task,
            block_ref,
            old(queue)@,
            r.2@,
        ),
        r.0.emu == r.2@.ended,
        r.0.emu.wf(),
        r.0.emu.steps == task.emu.steps + r.0.cost,
        r.0.params@ == r.2@.params,
        r.0.params@.len() <= 16,
        r.0.events@ == r.2@.located.events@,
        r.0.stop == r.2@.stop,
        r.0.t == r.2@.t,
        r.0.cost == r.2@.ran.steps - task.emu.steps,
        r.0.cost <= budget,
        r.1@ == task.ancestors@,
        final(queue)@ == r.2@.queue,
        forall|n: nat|
            task.emu.steps + r.0.cost <= n && #[trigger] queue_ok(old(queue)@, n) ==> queue_ok(
                final(queue)@,
                n,
            ),
        terminator_held(r.0.emu.arena.nodes@, r.0.t),
        forall|i: int|
            0 <= i < r.0.params@.len() ==> has(r.0.emu.arena.nodes@, (#[trigger] r.0.params@[i]).1)
                && width_of(r.0.emu.arena.nodes@, r.0.params@[i].1) == Width::W64,
        forall|i: int|
            0 <= i < r.0.events@.len() ==> event_held(
                r.0.emu.arena.nodes@,
                #[trigger] r.0.events@[i],
            ),
{
    let ghost was = task;
    let ghost q0 = queue@;
    let ghost k = match known {
        Some(c) => Some(*c),
        None => None,
    };
    let Task { mut emu, resume, id, from: _, ancestors } = task;
    let before: usize = emu.steps;
    make_ready(&mut emu, &ancestors);
    let ghost ready = emu;
    let params: Vec<(Reg, Ref)> = if crate::vm::reach::contains_id(cut, id) {
        emu.seed_guest_params(block_ref)
    } else {
        Vec::new()
    };
    let ghost seeded = emu;
    proof {
        assert(params@.len() <= 16);
        if !cut@.contains(id) {
            assert(params@ =~= Seq::<(Reg, Ref)>::empty());
        }
    }
    let stop = emu.run(resume, budget);
    let ghost ran = emu;
    let cost: usize = emu.steps - before;
    // Locate the context before taking the events: the entry block builds the context as it
    // runs, so its stores were provisionally taken for guest accesses.
    let base = emu.locate_guest_context();
    let ghost located = emu;
    let mut events: Vec<Event> = Vec::new();
    std::mem::swap(&mut events, &mut emu.events);
    let ghost cleared = emu;
    proof {
        reveal(events_held);
        assert(cleared.events@ =~= Seq::<Event>::empty());
    }
    let rebase = emu.locate_guest_context();
    let ghost relocated = emu;
    proof {
        crate::ir::subst::lemma_continues_twice(ran.arena, located.arena, relocated.arena);
        lemma_stop_held_grows(ran.arena, relocated.arena, stop);
    }
    let t = end_block(pe, known, &mut emu, id, &ancestors, &stop, cost, queue);
    let ghost ended = emu;
    let ghost e = Evaluation {
        ready,
        seeded,
        params: params@,
        ran,
        stop,
        located,
        base,
        cleared,
        relocated,
        rebase,
        ended,
        queue: queue@,
        t,
    };
    proof {
        crate::ir::subst::lemma_continues_twice(seeded.arena, ran.arena, located.arena);
        crate::ir::subst::lemma_continues_twice(seeded.arena, located.arena, relocated.arena);
        crate::ir::subst::lemma_continues_twice(seeded.arena, relocated.arena, ended.arena);
        crate::ir::subst::lemma_continues_twice(located.arena, relocated.arena, ended.arena);
        let ns = ended.arena.nodes@;
        assert forall|i: int| 0 <= i < params@.len() implies has(ns, (#[trigger] params@[i]).1)
            && width_of(ns, params@[i].1) == Width::W64 by {
            assert(has(seeded.arena.nodes@, params@[i].1));
        }
        assert forall|i: int| 0 <= i < events@.len() implies event_held(ns, #[trigger] events@[i]) by {
            reveal(events_held);
            assert(event_held(located.arena.nodes@, events@[i]));
            crate::ir::lift::lemma_event_grows(events@[i], located.arena.nodes@, ns);
        }
        reveal(evaluates_block);
        assert(evaluates_block(*pe, budget, cut@, k, was, block_ref, q0, e));
    }
    (Evaluated { emu, params, events, stop, t, cost }, ancestors, Ghost(e))
}

/// What the graph's arena gains from a block.
spec fn files(v: Visit, a0: Arena, a1: Arena, b: Block) -> bool {
    &&& a1.continues(a0)
    &&& memo_ok(v.read.arena.nodes@, a1.nodes@, v.memo)
    &&& reads_out(v)
    &&& moved_parts(v, b)
}

/// Moves what a block refers to into the graph's arena, and reads out what it leaves in the
/// guest's registers.
fn file_block<'a>(
    arena: &mut Arena,
    done: Evaluated<'a>,
    id: BlockId,
    block_ref: BlockRef,
    Ghost(e): Ghost<Evaluation<'a>>,
) -> (r: (Block, Emulator<'a>, Ghost<Visit<'a>>))
    requires
        old(arena).wf(),
        done.emu == e.ended,
        done.emu.wf(),
        done.params@ == e.params,
        done.params@.len() <= 16,
        done.events@ == e.located.events@,
        done.stop == e.stop,
        done.t == e.t,
        terminator_held(done.emu.arena.nodes@, done.t),
        forall|i: int|
            0 <= i < done.params@.len() ==> has(done.emu.arena.nodes@, (#[trigger] done.params@[i]).1)
                && width_of(done.emu.arena.nodes@, done.params@[i].1) == Width::W64,
        forall|i: int|
            0 <= i < done.events@.len() ==> event_held(
                done.emu.arena.nodes@,
                #[trigger] done.events@[i],
            ),
    ensures
        final(arena).wf(),
        files(r.2@, *old(arena), *final(arena), r.0),
        r.2@.e == e,
        r.1 == r.2@.read,
        r.1.wf(),
        r.1.steps == e.ended.steps,
        r.0.id == id,
        r.0.block_ref == block_ref,
        r.0.cost == done.cost,
        r.0.preds@ == Seq::<BlockId>::empty(),
        r.0.params@.len() <= 16,
        block_ok(final(arena).nodes@, r.0),
{
    let Evaluated { mut emu, params: entry_params, events, stop, t, cost } = done;
    let ghost ended = emu;
    let ghost a0 = *arena;
    // A fresh memo per block: a reference means nothing across arenas.
    let mut memo: HashMap<usize, Ref> = HashMap::new();
    let grafted_params = graft_list(arena, &emu.arena, &entry_params, &mut memo);
    let ghost a1 = *arena;
    let ghost m1 = memo@;
    let params = sort_regs(&grafted_params);
    let ghost evs = events@;
    let moved = graft_events(arena, &emu.arena, events, &mut memo);
    let ghost a2 = *arena;
    let ghost m2 = memo@;
    let ghost t0 = t;
    let terminator = graft_terminator(arena, &emu.arena, t, &mut memo);
    let ghost a3 = *arena;
    let ghost m3 = memo@;
    emu.ctx_miss = None;
    let ghost shown = emu;
    proof {
        lemma_wf_grows(ended, shown);
    }
    let returning: bool = match &stop {
        Stop::Return { .. } => true,
        _ => false,
    };
    let guest: Option<Vec<(Reg, Ref)>> = if returning {
        None
    } else {
        emu.guest_registers()
    };
    let ghost read = emu;
    let ghost found = guest;
    let from_vm_context: bool = guest.is_some();
    proof {
        lemma_memo_source_grows(ended.arena, read.arena, arena.nodes@, memo@);
    }
    let values: Vec<(Reg, Ref)> = match guest {
        Some(v) => v,
        None => own_list(&emu),
    };
    let grafted_exit = graft_list(arena, &emu.arena, &values, &mut memo);
    let ghost a4 = *arena;
    let exit_regs = sort_regs(&grafted_exit);
    let b = Block {
        id,
        block_ref,
        params,
        events: moved,
        from_vm_context,
        exit_regs,
        terminator,
        cost,
        preds: Vec::new(),
    };
    let ghost v = Visit {
        e,
        shown,
        read,
        guest: found,
        memo: memo@,
        grafted_params: grafted_params@,
        grafted_exit: grafted_exit@,
    };
    proof {
        let n4 = a4.nodes@;
        crate::ir::subst::lemma_continues_twice(a0, a1, a2);
        crate::ir::subst::lemma_continues_twice(a0, a2, a3);
        crate::ir::subst::lemma_continues_twice(a0, a3, a4);
        crate::ir::subst::lemma_continues_twice(a1, a2, a3);
        crate::ir::subst::lemma_continues_twice(a1, a3, a4);
        crate::ir::subst::lemma_continues_twice(a2, a3, a4);
        assert forall|i: int| 0 <= i < grafted_params@.len() implies has(
            n4,
            (#[trigger] grafted_params@[i]).1,
        ) && width_of(n4, grafted_params@[i].1) == Width::W64 by {
            assert(has(a1.nodes@, grafted_params@[i].1));
        }
        lemma_sorted_held(n4, grafted_params@, b.params@);
        lemma_sorted_held(n4, grafted_exit@, b.exit_regs@);
        assert forall|i: int| 0 <= i < b.events@.len() implies event_held(n4, #[trigger] b.events@[i]) by {
            assert(event_held(a2.nodes@, b.events@[i]));
            crate::ir::lift::lemma_event_grows(b.events@[i], a2.nodes@, n4);
        }
        assert(more_copies(m1, memo@)) by {
            assert forall|j: usize| #[trigger] m1.dom().contains(j) implies memo@.dom().contains(j)
                && memo@[j] == m1[j] by {
                assert(m2.dom().contains(j));
                assert(m3.dom().contains(j));
            }
        }
        assert(more_copies(m2, memo@)) by {
            assert forall|j: usize| #[trigger] m2.dom().contains(j) implies memo@.dom().contains(j)
                && memo@[j] == m2[j] by {
                assert(m3.dom().contains(j));
            }
        }
        lemma_list_moved(m1, memo@, entry_params@, grafted_params@);
        assert(moved_events(memo@, evs, b.events@)) by {
            assert forall|i: int| 0 <= i < evs.len() implies crate::vm::graft::moved_event(
                memo@,
                evs[i],
                #[trigger] b.events@[i],
            ) by {
                lemma_event_moved(m2, memo@, evs[i], b.events@[i]);
            }
        }
        assert(b.preds@ =~= Seq::<BlockId>::empty());
        reveal(reads_out);
        reveal(moved_parts);
    }
    (b, emu, Ghost(v))
}

/// Recover the block of a task: evaluate it, decide what follows, and move what it refers to
/// into the graph.
pub fn visit<'a>(
    pe: &Image,
    budget: usize,
    cut: &Vec<BlockId>,
    known: Option<&Cfg>,
    task: Task<'a>,
    pass: &mut Pass<'a>,
)
    requires
        pass_ok(*old(pass)),
        task.emu.wf(),
        task.emu.steps <= old(pass).total_steps,
        old(pass).total_steps + budget <= usize::MAX,
    ensures
        pass_ok(*final(pass)),
        final(pass).total_steps <= old(pass).total_steps + budget,
        final(pass).blocks@.last().params@.len() <= 16,
        visits(
            *pe,
            budget,
            cut@,
            match known {
                Some(c) => Some(*c),
                None => None,
            },
            task,
            *old(pass),
            *final(pass),
        ),
{
    let ghost p0 = *pass;
    let ghost was = task;
    let ghost k = match known {
        Some(c) => Some(*c),
        None => None,
    };
    let id = task.id;
    let at: usize = pass.blocks.len();
    let block_ref = BlockRef(at as u32);
    let (done, ancestors, Ghost(e)) = evaluate_task(
        pe,
        budget,
        cut,
        known,
        task,
        block_ref,
        &mut pass.queue,
    );
    let ghost tq = pass.queue@;
    if let Stop::Backedge { target, vip, .. } = &done.stop {
        let to = BlockId { handler: *target, vip: *vip };
        pass.edges.push((id, to));
        pass.back_edges.push((id, to));
    }
    proof {
        assert(pass.edges@ =~= p0.edges@ + loop_edge(id, e.stop));
        assert(pass.back_edges@ =~= p0.back_edges@ + loop_edge(id, e.stop));
    }
    let failed: bool = match &done.t {
        Terminator::Unresolved { .. } => true,
        _ => false,
    };
    let continuation: Option<BlockId> = match &done.t {
        Terminator::Jump(to) => Some(*to),
        _ => None,
    };
    let cost: usize = done.cost;
    let ghost a0 = pass.arena;
    let (b, emu, Ghost(v)) = file_block(&mut pass.arena, done, id, block_ref, Ghost(e));
    let ghost made = b;
    let ghost b0 = pass.blocks@;
    pass.blocks.push(b);
    let n: usize = pass.blocks.len();
    pass.total_steps = pass.total_steps + cost;
    if failed {
        pass.unresolved = pass.unresolved + 1;
    }
    proof {
        assert(n == pass.blocks@.len());
        lemma_blocks_grow(a0, pass.arena, b0);
        assert forall|i: int| 0 <= i < pass.blocks@.len() implies block_ok(
            pass.arena.nodes@,
            #[trigger] pass.blocks@[i],
        ) by {
            if i < b0.len() {
                assert(pass.blocks@[i] == b0[i]);
            }
        }
        assert(pass.blocks@.drop_last() =~= b0);
        assert(queue_ok(p0.queue@, pass.total_steps as nat)) by {
            assert forall|i: int| 0 <= i < p0.queue@.len() implies (#[trigger] p0.queue@[i]).emu.wf()
                && p0.queue@[i].emu.steps <= pass.total_steps by {
                assert(p0.queue@[i].emu.steps <= p0.total_steps);
            }
        }
        assert(queue_ok(tq, pass.total_steps as nat));
    }
    if let Some(to) = continuation {
        let mut path = crate::ir::event::copy_list(&ancestors);
        path.push(id);
        pass.queue.push(Task { emu, resume: to.handler, id: to, from: Some(id), ancestors: path });
        proof {
            assert(pass.queue@.drop_last() =~= tq);
        }
    }
    proof {
        assert(makes_block(was, block_ref, v, made));
        assert(visit_steps(*pe, budget, cut@, k, was, p0, v, *pass));
        assert forall|i: int| 0 <= i < pass.queue@.len() implies (#[trigger] pass.queue@[i]).emu.wf()
            && pass.queue@[i].emu.steps <= pass.total_steps by {
            if i < tq.len() {
                assert(pass.queue@[i] == tq[i]);
            }
        }
    }
}

} // verus!
