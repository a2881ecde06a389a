//! Which blocks lead to a block, and where registers become parameters.

use crate::ir::edges::arms_of;
use crate::ir::event::Stop;
use crate::ir::expr::{has, op_of, BlockRef, Node, Op, Ref};
use crate::ir::graph::{Block, BlockId, Cfg, Terminator};
use crate::ir::guest::{seed_chain, seed_steps, seeds, slot_steps};
use crate::ir::lift::{Emulator, Layout};
use crate::ir::region::layout_of;
use crate::ir::value::Reg;
use crate::ir::walk::copied;
use crate::vm::ending::{ends, native_steps, symbolic_steps};
use crate::vm::explore::{
    advance_steps, advances, by_id, filled, finish_steps, finishes, initial, is_over, join_blocks,
    joins, pass_chain, passes, reached_by, recover_steps, recovers, with_block,
    without_dead_params, Explorer,
};
use crate::vm::fork::{
    arm_id, arm_targets, arms, continues_as, decided_at, splits_multiway, splits_two_way,
    switch_steps, switched_at, two_way_steps, Task,
};
use crate::vm::graft::{moved, moved_list, moved_terminator};
use crate::vm::image::Image;
use crate::vm::order::ascending;
use crate::vm::split::split_steps;
use crate::vm::state::{byte_addr, Byte};
use crate::vm::validate::ids_where;
use crate::vm::visit::{
    by_number, evaluates_block, loop_edge, moved_parts, reads_out, visit_steps, with_reg, Pass,
    Visit,
};
use vstd::prelude::*;

verus! {

/// Whether some block with one identity has an arm to another.
pub open spec fn leads(blocks: Seq<Block>, from: BlockId, to: BlockId) -> bool {
    exists|k: int|
        0 <= k < blocks.len() && (#[trigger] blocks[k]).id == from && arms_of(
            blocks[k].terminator,
        ).contains(to)
}

/// Whether two different blocks lead to a block of a graph.
pub open spec fn is_join(cfg: Cfg, id: BlockId) -> bool {
    &&& exists|k: int| 0 <= k < cfg.blocks@.len() && (#[trigger] cfg.blocks@[k]).id == id
    &&& exists|p: BlockId, q: BlockId|
        p != q && #[trigger] leads(cfg.blocks@, p, id) && #[trigger] leads(cfg.blocks@, q, id)
}

/// Whether recovery ran to its end.
pub open spec fn complete(x: Explorer, cfg: Cfg) -> bool {
    !cfg.timed_out && cfg.total_steps < x.work_budget
}

/// Whether a queue has grown by tasks from a block to where its terminator leads, one for
/// each arm.
spec fn queued(q0: Seq<Task>, q1: Seq<Task>, id: BlockId, t: Terminator) -> bool {
    &&& q1.len() >= q0.len()
    &&& q1.take(q0.len() as int) == q0
    &&& forall|i: int|
        q0.len() <= i < q1.len() ==> (#[trigger] q1[i]).from == Some(id) && arms_of(t).contains(
            q1[i].id,
        )
    &&& forall|x: BlockId| #[trigger]
        arms_of(t).contains(x) ==> exists|i: int| q0.len() <= i < q1.len() && (#[trigger] q1[i]).id == x
}

proof fn lemma_two_way_queued(
    pe: Image,
    m: Emulator,
    id: BlockId,
    above: Seq<BlockId>,
    dest: Ref,
    cands: Seq<Ref>,
    q0: Seq<Task>,
    q1: Seq<Task>,
    t: Terminator,
)
    requires
        splits_two_way(pe, m, id, above, dest, cands, q0, q1, Some(t)),
    ensures
        queued(q0, q1, id, t),
        t is Branch || t is Jump,
{
    let k = choose|k: int| #[trigger] decided_at(pe, m, id, above, dest, cands, k, q0, q1, t);
    let (f0, r0, f1, r1) = choose|f0: Emulator, r0: Ref, f1: Emulator, r1: Ref| #[trigger]
        two_way_steps(pe, m, id, above, dest, cands[k], f0, r0, f1, r1, q0, q1, t);
    let n = q0.len() as int;
    let a = arms_of(t);
    assert(a[0] == q1[n].id);
    if t is Branch {
        assert(a[1] == q1[n + 1].id);
    }
    assert forall|i: int| q0.len() <= i < q1.len() implies (#[trigger] q1[i]).from == Some(id)
        && a.contains(q1[i].id) by {
        assert(a[i - n] == q1[i].id);
    }
    assert forall|x: BlockId| #[trigger] a.contains(x) implies exists|i: int|
        q0.len() <= i < q1.len() && (#[trigger] q1[i]).id == x by {
        let j = choose|j: int| 0 <= j < a.len() && a[j] == x;
        assert(q1[n + j].id == x);
    }
}

proof fn lemma_targets_have(
    pe: Image,
    fs: Seq<Emulator>,
    rs: Seq<Ref>,
    vs: Seq<int>,
    k: int,
)
    requires
        0 <= k <= vs.len(),
    ensures
        forall|j: int|
            0 <= j < k ==> arm_targets(pe, fs, rs, vs, k).contains(
                arm_id(pe, fs, rs, #[trigger] vs[j]),
            ),
        forall|x: BlockId| #[trigger]
            arm_targets(pe, fs, rs, vs, k).contains(x) ==> exists|j: int|
                0 <= j < k && arm_id(pe, fs, rs, #[trigger] vs[j]) == x,
    decreases k,
{
    if k > 0 {
        lemma_targets_have(pe, fs, rs, vs, k - 1);
        let before = arm_targets(pe, fs, rs, vs, k - 1);
        let id = arm_id(pe, fs, rs, vs[k - 1]);
        crate::ir::walk::lemma_push_contains(before, id);
    }
}

proof fn lemma_multiway_queued(
    pe: Image,
    m: Emulator,
    id: BlockId,
    above: Seq<BlockId>,
    dest: Ref,
    indices: Seq<(Ref, u64)>,
    q0: Seq<Task>,
    q1: Seq<Task>,
    t: Terminator,
)
    requires
        splits_multiway(pe, m, id, above, dest, indices, q0, q1, Some(t)),
    ensures
        queued(q0, q1, id, t),
        t is Switch || t is Jump,
{
    let k = choose|k: int| #[trigger] switched_at(pe, m, id, above, dest, indices, k, q0, q1, t);
    let (fs, rs) = choose|fs: Seq<Emulator>, rs: Seq<Ref>| #[trigger]
        switch_steps(pe, m, id, above, indices[k].0, indices[k].1, dest, fs, rs, q0, q1, t);
    let vs = arms(pe, fs, rs, indices[k].1 + 1);
    let ids = arm_targets(pe, fs, rs, vs, vs.len() as int);
    lemma_targets_have(pe, fs, rs, vs, vs.len() as int);
    let n = q0.len() as int;
    let a = arms_of(t);
    assert(a =~= ids);
    assert forall|i: int| q0.len() <= i < q1.len() implies (#[trigger] q1[i]).from == Some(id)
        && a.contains(q1[i].id) by {
        let j = i - n;
        assert(continues_as(q1[n + j], fs[vs[j]], arm_id(pe, fs, rs, vs[j]), id, above));
        assert(ids.contains(arm_id(pe, fs, rs, vs[j])));
    }
    assert forall|x: BlockId| #[trigger] a.contains(x) implies exists|i: int|
        q0.len() <= i < q1.len() && (#[trigger] q1[i]).id == x by {
        let j = choose|j: int| 0 <= j < vs.len() && arm_id(pe, fs, rs, #[trigger] vs[j]) == x;
        assert(continues_as(q1[n + j], fs[vs[j]], arm_id(pe, fs, rs, vs[j]), id, above));
        assert(q1[n + j].id == x);
    }
}

/// Where nothing was known before, what is queued at the end of a block is where it leads.
proof fn lemma_ends_queued(
    pe: Image,
    m: Emulator,
    id: BlockId,
    above: Seq<BlockId>,
    stop: Stop,
    cost: usize,
    m1: Emulator,
    q0: Seq<Task>,
    q1: Seq<Task>,
    t: Terminator,
)
    requires
        ends(pe, None, m, id, above, stop, cost, m1, q0, q1, t),
    ensures
        stop is Backedge <==> t is Backedge,
        stop is Backedge ==> q1 == q0,
        !(stop is Backedge) ==> queued(q0, q1, id, t),
{
    assert(q0.take(q0.len() as int) =~= q0);
    match stop {
        Stop::SymbolicBranch { site, dest } => {
            let (qa, ta, r) = choose|qa: Seq<Task>, ta: Terminator, r: Option<Terminator>|
             #[trigger]
                symbolic_steps(pe, None, m, id, above, site, dest, cost, q0, qa, ta, r, q1, t);
            assert(t == ta && q1 == qa);
            let (cands, indices, ls) = choose|
                cands: Seq<Ref>,
                indices: Seq<(Ref, u64)>,
                ls: Seq<Ref>,
            | #[trigger]
                split_steps(pe, m, id, above, site, dest, cands, indices, ls, q0, q1, t);
            if splits_two_way(pe, m, id, above, dest, cands, q0, q1, Some(t)) {
                lemma_two_way_queued(pe, m, id, above, dest, cands, q0, q1, t);
            } else if splits_multiway(pe, m, id, above, dest, indices, q0, q1, Some(t)) {
                lemma_multiway_queued(pe, m, id, above, dest, indices, q0, q1, t);
            } else {
                assert(t is Unresolved);
            }
        },
        Stop::NativeBranch { predicate, taken, not_taken, .. } => {
            let (ft, fn_) = choose|ft: Emulator, fn_: Emulator| #[trigger]
                native_steps(m, id, above, predicate, taken, not_taken, ft, fn_, q0, q1, t);
            let n = q0.len() as int;
            let a = arms_of(t);
            assert(a[0] == q1[n].id && a[1] == q1[n + 1].id);
            assert forall|i: int| q0.len() <= i < q1.len() implies (#[trigger] q1[i]).from == Some(
                id,
            ) && a.contains(q1[i].id) by {
                assert(a[i - n] == q1[i].id);
            }
            assert forall|x: BlockId| #[trigger] a.contains(x) implies exists|i: int|
                q0.len() <= i < q1.len() && (#[trigger] q1[i]).id == x by {
                let j = choose|j: int| 0 <= j < a.len() && a[j] == x;
                assert(q1[n + j].id == x);
            }
        },
        _ => {},
    }
}

/// Whether a task is queued from one block to another.
spec fn pending(q: Seq<Task>, from: BlockId, to: BlockId) -> bool {
    exists|i: int| 0 <= i < q.len() && (#[trigger] q[i]).from == Some(from) && q[i].id == to
}

/// What holds of a pass as long as it goes on: edges and tasks are arms of its blocks, and
/// each arm is an edge or a task.
#[verifier::opaque]
spec fn accounted(p: Pass) -> bool {
    &&& forall|a: BlockId, b: BlockId| #[trigger]
        p.edges@.contains((a, b)) ==> leads(p.blocks@, a, b)
    &&& forall|a: BlockId, b: BlockId| #[trigger]
        pending(p.queue@, a, b) ==> leads(p.blocks@, a, b)
    &&& forall|a: BlockId, b: BlockId| #[trigger]
        leads(p.blocks@, a, b) ==> p.edges@.contains((a, b)) || pending(p.queue@, a, b)
}

/// A block more leads where it leads, and nothing else changes.
proof fn lemma_leads_push(a: Seq<Block>, b: Seq<Block>, from: BlockId, to: BlockId)
    requires
        b.len() == a.len() + 1,
        b.drop_last() == a,
    ensures
        leads(b, from, to) <==> leads(a, from, to) || (b.last().id == from && arms_of(
            b.last().terminator,
        ).contains(to)),
{
    if leads(b, from, to) {
        let k = choose|k: int|
            0 <= k < b.len() && (#[trigger] b[k]).id == from && arms_of(b[k].terminator).contains(
                to,
            );
        if k < a.len() {
            assert(b.drop_last()[k] == b[k]);
        }
    }
    if leads(a, from, to) {
        let k = choose|k: int|
            0 <= k < a.len() && (#[trigger] a[k]).id == from && arms_of(a[k].terminator).contains(
                to,
            );
        assert(b.drop_last()[k] == b[k]);
    }
    if b.last().id == from && arms_of(b.last().terminator).contains(to) {
        assert(b[b.len() - 1].id == from);
    }
}

proof fn lemma_pending_pop(q: Seq<Task>, from: BlockId, to: BlockId)
    requires
        q.len() > 0,
    ensures
        pending(q, from, to) <==> pending(q.drop_last(), from, to) || (q.last().from == Some(from)
            && q.last().id == to),
{
    if pending(q, from, to) {
        let i = choose|i: int|
            0 <= i < q.len() && (#[trigger] q[i]).from == Some(from) && q[i].id == to;
        if i < q.len() - 1 {
            assert(q.drop_last()[i] == q[i]);
        }
    }
    if pending(q.drop_last(), from, to) {
        let i = choose|i: int|
            0 <= i < q.drop_last().len() && (#[trigger] q.drop_last()[i]).from == Some(from)
                && q.drop_last()[i].id == to;
        assert(q[i] == q.drop_last()[i]);
    }
    if q.last().from == Some(from) && q.last().id == to {
        assert(q[q.len() - 1].id == to);
    }
}

proof fn lemma_concat<T>(a: Seq<T>, b: Seq<T>, x: T)
    ensures
        (a + b).contains(x) <==> a.contains(x) || b.contains(x),
{
    if a.contains(x) {
        let i = choose|i: int| 0 <= i < a.len() && a[i] == x;
        assert((a + b)[i] == x);
    }
    if b.contains(x) {
        let i = choose|i: int| 0 <= i < b.len() && b[i] == x;
        assert((a + b)[a.len() + i] == x);
    }
    if (a + b).contains(x) {
        let i = choose|i: int| 0 <= i < (a + b).len() && (a + b)[i] == x;
        if i < a.len() {
            assert(a[i] == x);
        } else {
            assert(b[i - a.len()] == x);
        }
    }
}

/// The next task becomes an edge.
proof fn lemma_entered(p0: Pass, pa: Pass)
    requires
        accounted(p0),
        p0.queue@.len() > 0,
        pa.queue@ == p0.queue@.drop_last(),
        pa.edges@ == p0.edges@ + reached_by(p0.queue@.last()),
        pa.blocks == p0.blocks,
    ensures
        accounted(pa),
{
    reveal(accounted);
    let task = p0.queue@.last();
    assert forall|a: BlockId, b: BlockId| #[trigger] pa.edges@.contains((a, b)) implies leads(
        pa.blocks@,
        a,
        b,
    ) by {
        lemma_concat(p0.edges@, reached_by(task), (a, b));
        if !p0.edges@.contains((a, b)) {
            lemma_pending_pop(p0.queue@, a, b);
            assert(pending(p0.queue@, a, b));
        }
    }
    assert forall|a: BlockId, b: BlockId| #[trigger] pending(pa.queue@, a, b) implies leads(
        pa.blocks@,
        a,
        b,
    ) by {
        lemma_pending_pop(p0.queue@, a, b);
        assert(pending(p0.queue@, a, b));
    }
    assert forall|a: BlockId, b: BlockId| #[trigger] leads(
        pa.blocks@,
        a,
        b,
    ) implies pa.edges@.contains((a, b)) || pending(pa.queue@, a, b) by {
        lemma_concat(p0.edges@, reached_by(task), (a, b));
        lemma_pending_pop(p0.queue@, a, b);
        if task.from == Some(a) && task.id == b {
            assert(reached_by(task)[0] == (a, b));
        }
    }
}

/// A visit accounts for the arms of the block it makes.
proof fn lemma_visited<'a>(
    pe: Image,
    budget: usize,
    cut: Seq<BlockId>,
    task: Task<'a>,
    p0: Pass<'a>,
    v: Visit<'a>,
    p1: Pass<'a>,
)
    requires
        accounted(p0),
        visit_steps(pe, budget, cut, None, task, p0, v, p1),
    ensures
        accounted(p1),
{
    let t = v.e.t;
    let q0 = p0.queue@;
    let b = p1.blocks@.last();
    assert(ends(
        pe,
        None,
        v.e.relocated,
        task.id,
        task.ancestors@,
        v.e.stop,
        (v.e.ran.steps - task.emu.steps) as usize,
        v.e.ended,
        q0,
        v.e.queue,
        t,
    )) by {
        reveal(evaluates_block);
    }
    lemma_ends_queued(
        pe,
        v.e.relocated,
        task.id,
        task.ancestors@,
        v.e.stop,
        (v.e.ran.steps - task.emu.steps) as usize,
        v.e.ended,
        q0,
        v.e.queue,
        t,
    );
    assert(moved_terminator(v.memo, t, b.terminator)) by {
        reveal(moved_parts);
    }
    assert(arms_of(b.terminator) =~= arms_of(t));
    let more = loop_edge(task.id, v.e.stop);
    assert forall|x: BlockId, y: BlockId| #[trigger] more.contains((x, y)) <==> t is Backedge && x
        == task.id && arms_of(t).contains(y) by {
        if more.contains((x, y)) {
            let i = choose|i: int| 0 <= i < more.len() && more[i] == (x, y);
            assert(arms_of(t)[0] == y);
        }
        if t is Backedge && x == task.id && arms_of(t).contains(y) {
            assert(more[0] == (x, y));
        }
    }
    lemma_queue(task, p0, v, p1);
    reveal(accounted);
    assert forall|x: BlockId, y: BlockId| #[trigger] p1.edges@.contains((x, y)) implies leads(
        p1.blocks@,
        x,
        y,
    ) by {
        lemma_concat(p0.edges@, more, (x, y));
        lemma_leads_push(p0.blocks@, p1.blocks@, x, y);
    }
    assert forall|x: BlockId, y: BlockId| #[trigger] pending(p1.queue@, x, y) implies leads(
        p1.blocks@,
        x,
        y,
    ) by {
        lemma_leads_push(p0.blocks@, p1.blocks@, x, y);
        let i = choose|i: int|
            0 <= i < p1.queue@.len() && (#[trigger] p1.queue@[i]).from == Some(x) && p1.queue@[i].id
                == y;
        if i < q0.len() {
            assert(p1.queue@[i] == q0[i]);
            assert(pending(q0, x, y));
        }
    }
    assert forall|x: BlockId, y: BlockId| #[trigger] leads(
        p1.blocks@,
        x,
        y,
    ) implies p1.edges@.contains((x, y)) || pending(p1.queue@, x, y) by {
        lemma_leads_push(p0.blocks@, p1.blocks@, x, y);
        lemma_concat(p0.edges@, more, (x, y));
        if leads(p0.blocks@, x, y) {
            if pending(q0, x, y) {
                let i = choose|i: int|
                    0 <= i < q0.len() && (#[trigger] q0[i]).from == Some(x) && q0[i].id == y;
                assert(p1.queue@[i] == q0[i]);
            }
        } else {
            assert(arms_of(t).contains(y) && x == task.id);
            if !(t is Backedge) {
                let i = choose|i: int|
                    q0.len() <= i < p1.queue@.len() && (#[trigger] p1.queue@[i]).id == y;
                assert(p1.queue@[i].from == Some(x));
            }
        }
    }
}

/// What a visit leaves in the queue.
proof fn lemma_queue<'a>(task: Task<'a>, p0: Pass<'a>, v: Visit<'a>, p1: Pass<'a>)
    requires
        match v.e.t {
            Terminator::Jump(to) => p1.queue@.len() == v.e.queue.len() + 1 && p1.queue@.drop_last()
                == v.e.queue && continues_as(p1.queue@.last(), v.read, to, task.id, task.ancestors@),
            _ => p1.queue@ == v.e.queue,
        },
        v.e.t is Backedge ==> v.e.queue == p0.queue@,
        !(v.e.t is Backedge) ==> queued(p0.queue@, v.e.queue, task.id, v.e.t),
    ensures
        p1.queue@.len() >= p0.queue@.len(),
        forall|i: int| 0 <= i < p0.queue@.len() ==> #[trigger] p1.queue@[i] == p0.queue@[i],
        forall|i: int|
            p0.queue@.len() <= i < p1.queue@.len() ==> (#[trigger] p1.queue@[i]).from == Some(
                task.id,
            ) && arms_of(v.e.t).contains(p1.queue@[i].id),
        !(v.e.t is Backedge) ==> forall|x: BlockId| #[trigger]
            arms_of(v.e.t).contains(x) ==> exists|i: int|
                p0.queue@.len() <= i < p1.queue@.len() && (#[trigger] p1.queue@[i]).id == x,
{
    let q0 = p0.queue@;
    let qa = v.e.queue;
    let q1 = p1.queue@;
    let a = arms_of(v.e.t);
    if v.e.t is Jump {
        assert(a[0] == q1.last().id);
        assert forall|i: int| 0 <= i < qa.len() implies #[trigger] q1[i] == qa[i] by {
            assert(q1.drop_last()[i] == q1[i]);
        }
        assert forall|i: int| q0.len() <= i < q1.len() implies (#[trigger] q1[i]).from == Some(
            task.id,
        ) && a.contains(q1[i].id) by {
            if i < qa.len() {
                assert(q1[i] == qa[i]);
            }
        }
        assert forall|x: BlockId| #[trigger] a.contains(x) implies exists|i: int|
            q0.len() <= i < q1.len() && (#[trigger] q1[i]).id == x by {
            assert(q1[q1.len() - 1].id == x);
        }
    }
    assert forall|i: int| 0 <= i < q0.len() implies #[trigger] q1[i] == q0[i] by {
        if !(v.e.t is Backedge) {
            assert(qa.take(q0.len() as int)[i] == qa[i]);
        }
    }
}

proof fn lemma_advanced(x: Explorer, cut: Seq<BlockId>, late: bool, p0: Pass, p1: Pass)
    requires
        advances(x, cut, None, late, p0, p1, true),
        accounted(p0),
    ensures
        accounted(p1),
{
    let task = p0.queue@.last();
    let pa = choose|pa: Pass| #[trigger] advance_steps(x, cut, None, late, p0, pa, p1, true);
    lemma_entered(p0, pa);
    if p0.visited@.contains(task.id) {
        reveal(accounted);
    } else if p0.blocks@.len() >= x.block_budget {
        reveal(accounted);
        let b = p1.blocks@.last();
        assert(arms_of(b.terminator).len() == 0);
        assert forall|a: BlockId, c: BlockId| leads(p1.blocks@, a, c) <==> #[trigger] leads(
            pa.blocks@,
            a,
            c,
        ) by {
            lemma_leads_push(pa.blocks@, p1.blocks@, a, c);
        }
        assert forall|a: BlockId, c: BlockId| #[trigger] leads(
            p1.blocks@,
            a,
            c,
        ) implies p1.edges@.contains((a, c)) || pending(p1.queue@, a, c) by {
            assert(leads(pa.blocks@, a, c));
        }
    } else {
        let v = choose|v: Visit| #[trigger]
            visit_steps(*x.pe, x.step_budget, cut, None, task, pa, v, p1);
        lemma_visited(*x.pe, x.step_budget, cut, task, pa, v, p1);
    }
}

proof fn lemma_chain(
    x: Explorer,
    cut: Seq<BlockId>,
    ps: Seq<Pass>,
    late: Seq<bool>,
    go_on: Seq<bool>,
    k: int,
)
    requires
        pass_chain(x, cut, None, ps, late, go_on),
        ps.first().blocks@.len() == 0,
        ps.first().edges@.len() == 0,
        ps.first().queue@.len() == 1,
        ps.first().queue@[0].from is None,
        0 <= k <= late.len(),
        forall|i: int| 0 <= i < k ==> #[trigger] go_on[i],
    ensures
        accounted(ps[k]),
    decreases k,
{
    if k > 0 {
        lemma_chain(x, cut, ps, late, go_on, k - 1);
        assert(go_on[k - 1]);
        assert(advances(x, cut, None, late[k - 1], ps[k - 1], ps[k], go_on[k - 1]));
        lemma_advanced(x, cut, late[k - 1], ps[k - 1], ps[k]);
    } else {
        reveal(accounted);
    }
}

proof fn lemma_with_block(s: Seq<Block>, b: Block, x: Block)
    ensures
        with_block(s, b).contains(x) <==> s.contains(x) || x == b,
    decreases s.len(),
{
    if s.len() == 0 || !crate::vm::order::id_before(b.id, s.last().id) {
        crate::ir::walk::lemma_push_contains(s, b);
    } else {
        lemma_with_block(s.drop_last(), b, x);
        crate::ir::walk::lemma_push_contains(with_block(s.drop_last(), b), s.last());
        assert(s =~= s.drop_last().push(s.last()));
        crate::ir::walk::lemma_push_contains(s.drop_last(), s.last());
    }
}

proof fn lemma_by_id(blocks: Seq<Block>, k: int, x: Block)
    requires
        0 <= k <= blocks.len(),
    ensures
        by_id(blocks, k).contains(x) <==> blocks.take(k).contains(x),
    decreases k,
{
    if k > 0 {
        lemma_by_id(blocks, k - 1, x);
        lemma_with_block(by_id(blocks, k - 1), blocks[k - 1], x);
        assert(blocks.take(k) =~= blocks.take(k - 1).push(blocks[k - 1]));
        crate::ir::walk::lemma_push_contains(blocks.take(k - 1), blocks[k - 1]);
    }
}

/// Blocks with their predecessors filled in and put in order lead to the same.
proof fn lemma_leads_same(
    edges: Seq<(BlockId, BlockId)>,
    a: Seq<Block>,
    full: Seq<Block>,
    c: Seq<Block>,
    from: BlockId,
    to: BlockId,
)
    requires
        full.len() == a.len(),
        forall|i: int| 0 <= i < a.len() ==> filled(edges, a[i], #[trigger] full[i]),
        c == by_id(full, full.len() as int),
    ensures
        leads(c, from, to) <==> leads(a, from, to),
{
    assert(full.take(full.len() as int) =~= full);
    if leads(c, from, to) {
        let k = choose|k: int|
            0 <= k < c.len() && (#[trigger] c[k]).id == from && arms_of(c[k].terminator).contains(
                to,
            );
        lemma_by_id(full, full.len() as int, c[k]);
        assert(c.contains(c[k]));
        let i = choose|i: int| 0 <= i < full.len() && full[i] == c[k];
        assert(filled(edges, a[i], full[i]));
        assert(a[i].id == from);
    }
    if leads(a, from, to) {
        let i = choose|i: int|
            0 <= i < a.len() && (#[trigger] a[i]).id == from && arms_of(a[i].terminator).contains(
                to,
            );
        assert(filled(edges, a[i], full[i]));
        lemma_by_id(full, full.len() as int, full[i]);
        assert(full.contains(full[i]));
        let k = choose|k: int| 0 <= k < c.len() && c[k] == full[i];
        assert(c[k].id == from);
    }
}

/// The predecessors a block of a graph has are the blocks with an arm that leads to it, all
/// of them and no others.
pub proof fn predecessors_are_what_leads_here(
    x: Explorer,
    start: u64,
    cut: Seq<BlockId>,
    slot: Option<u64>,
    cfg: Cfg,
    i: int,
    p: BlockId,
)
    requires
        passes(x, start, cut, None, slot, cfg),
        complete(x, cfg),
        0 <= i < cfg.blocks@.len(),
    ensures
        cfg.blocks@[i].preds@.contains(p) <==> leads(cfg.blocks@, p, cfg.blocks@[i].id),
        ascending(cfg.blocks@[i].preds@),
{
    let (ps, late, go_on) = choose|ps: Seq<Pass>, late: Seq<bool>, go_on: Seq<bool>| #[trigger]
        pass_chain(x, cut, None, ps, late, go_on) && initial(x, start, slot, ps.first()) && is_over(
            ps.last(),
            go_on,
        ) && finishes(x, start, ps.last(), cfg);
    let end = ps.last();
    let full = choose|full: Seq<Block>| #[trigger] finish_steps(x, start, end, full, cfg);
    if go_on.len() > 0 && !go_on.last() {
        let n = late.len() - 1;
        assert(advances(x, cut, None, late[n], ps[n], ps[n + 1], go_on[n]));
        let pa = choose|pa: Pass| #[trigger]
            advance_steps(x, cut, None, late[n], ps[n], pa, ps[n + 1], go_on[n]);
        assert(false);
    }
    assert forall|j: int| 0 <= j < late.len() implies #[trigger] go_on[j] by {
        assert(advances(x, cut, None, late[j], ps[j], ps[j + 1], go_on[j]));
    }
    lemma_chain(x, cut, ps, late, go_on, late.len() as int);
    let b = cfg.blocks@[i];
    assert(full.take(full.len() as int) =~= full);
    lemma_by_id(full, full.len() as int, b);
    assert(cfg.blocks@.contains(b));
    let j = choose|j: int| 0 <= j < full.len() && full[j] == b;
    assert(filled(end.edges@, end.blocks@[j], full[j]));
    lemma_leads_same(end.edges@, end.blocks@, full, cfg.blocks@, p, b.id);
    reveal(accounted);
    assert(b.preds@.contains(p) <==> end.edges@.contains((p, b.id)));
    assert(!pending(end.queue@, p, b.id));
}

proof fn lemma_ids_where(blocks: Seq<Block>, f: spec_fn(int) -> bool, k: int, id: BlockId)
    requires
        0 <= k <= blocks.len(),
    ensures
        ids_where(blocks, f, k).contains(id) <==> exists|i: int|
            0 <= i < k && #[trigger] f(i) && blocks[i].id == id,
    decreases k,
{
    if k > 0 {
        lemma_ids_where(blocks, f, k - 1, id);
        crate::ir::walk::lemma_push_contains(ids_where(blocks, f, k - 1), blocks[k - 1].id);
        if f(k - 1) && blocks[k - 1].id == id {
            assert(ids_where(blocks, f, k).contains(id));
        }
        if ids_where(blocks, f, k).contains(id) {
            if ids_where(blocks, f, k - 1).contains(id) {
                let i = choose|i: int| 0 <= i < k - 1 && #[trigger] f(i) && blocks[i].id == id;
                assert(f(i));
            } else {
                assert(f(k - 1));
            }
        }
    }
}

/// Where recovery makes registers parameters: at the blocks of the first pass that two
/// different blocks lead to, at all of them and nowhere else.
pub proof fn joins_are_where_two_blocks_lead(
    x: Explorer,
    start: u64,
    cut: Seq<BlockId>,
    slot: Option<u64>,
    cfg: Cfg,
    id: BlockId,
)
    requires
        passes(x, start, cut, None, slot, cfg),
        complete(x, cfg),
    ensures
        joins(cfg.blocks@).contains(id) <==> is_join(cfg, id),
{
    let blocks = cfg.blocks@;
    let f = join_blocks(blocks);
    lemma_ids_where(blocks, f, blocks.len() as int, id);
    if joins(blocks).contains(id) {
        let i = choose|i: int| 0 <= i < blocks.len() && #[trigger] f(i) && blocks[i].id == id;
        let preds = blocks[i].preds@;
        let p = preds[0];
        let q = preds[1];
        predecessors_are_what_leads_here(x, start, cut, slot, cfg, i, p);
        predecessors_are_what_leads_here(x, start, cut, slot, cfg, i, q);
        assert(preds.contains(p) && preds.contains(q));
        assert(crate::vm::order::id_before(preds[0], preds[1]));
        assert(leads(blocks, p, id) && leads(blocks, q, id) && p != q);
    }
    if is_join(cfg, id) {
        let i = choose|i: int| 0 <= i < blocks.len() && (#[trigger] blocks[i]).id == id;
        let (p, q) = choose|p: BlockId, q: BlockId|
            p != q && #[trigger] leads(blocks, p, id) && #[trigger] leads(blocks, q, id);
        predecessors_are_what_leads_here(x, start, cut, slot, cfg, i, p);
        predecessors_are_what_leads_here(x, start, cut, slot, cfg, i, q);
        let preds = blocks[i].preds@;
        let a = choose|a: int| 0 <= a < preds.len() && preds[a] == p;
        let b = choose|b: int| 0 <= b < preds.len() && preds[b] == q;
        assert(preds.len() > 1);
        assert(f(i));
    }
}

/// Recovery in two passes. The first recovers the shape of the graph. Where no two of its
/// blocks lead to one, it is the graph. Otherwise the function is recovered again, with
/// parameters exactly at the blocks that two different ones lead to.
pub proof fn recovery_cuts_exactly_the_joins(x: Explorer, start: u64, cfg: Cfg)
    requires
        recovers(x, start, cfg),
    ensures
        exists|slot: Option<u64>, first: Cfg| #[trigger]
            passes(x, start, Seq::<BlockId>::empty(), None, slot, first) && (complete(x, first) ==> {
                &&& (forall|id: BlockId| !is_join(first, id)) ==> cfg == first
                &&& (exists|id: BlockId| is_join(first, id)) ==> exists|cut: Seq<BlockId>, second: Cfg|
                    #[trigger] passes(x, start, cut, Some(first), slot, second) && (forall|
                        id: BlockId,
                    | #[trigger] cut.contains(id) <==> is_join(first, id)) && comes_of(second, cfg)
            }),
{
    let (m0, m1, slot, first, second, mid) = choose|
        m0: Emulator,
        m1: Emulator,
        slot: Option<u64>,
        first: Cfg,
        second: Cfg,
        mid: Cfg,
    | #[trigger] recover_steps(x, start, m0, m1, slot, first, second, mid, cfg);
    let cut = joins(first.blocks@);
    if complete(x, first) {
        assert forall|id: BlockId| #[trigger] cut.contains(id) <==> is_join(first, id) by {
            joins_are_where_two_blocks_lead(x, start, Seq::<BlockId>::empty(), slot, first, id);
        }
        if exists|id: BlockId| is_join(first, id) {
            let id = choose|id: BlockId| is_join(first, id);
            assert(cut.contains(id));
            assert(comes_of(second, cfg));
        } else if cut.len() > 0 {
            assert(cut.contains(cut[0]));
        }
    }
    assert(passes(x, start, Seq::<BlockId>::empty(), None, slot, first));
}

/// Whether a graph is another whose parameters were cleaned up: those that stand for one value
/// are replaced, and those nothing reads are dropped.
pub open spec fn comes_of(second: Cfg, cfg: Cfg) -> bool {
    exists|mid: Cfg| #[trigger]
        crate::ir::flow::simplifies(second, mid, cfg.trivial_phis_removed as nat)
            && without_dead_params(
            Cfg { trivial_phis_removed: cfg.trivial_phis_removed, ..mid },
            cfg,
        )
}

proof fn lemma_byte_places(s: u64, n: int, k: int)
    requires
        0 <= n < 0x1_0000,
        0 <= k < 0x1_0000,
    ensures
        byte_addr(byte_addr(s, n), k) == byte_addr(s, n + k),
        n != k ==> byte_addr(s, n) != byte_addr(s, k),
{
}

/// Whether byte `j` of slot `i` of an image is that of a value.
pub open spec fn slot_byte(mem: Map<u64, Byte>, at: u64, x: Ref, i: int, j: int) -> bool {
    mem.dom().contains(byte_addr(at, 8 * i + j)) && mem[byte_addr(at, 8 * i + j)] == (Byte::Sym {
        expr: x,
        index: j as u32,
    })
}

/// Whether the slots of an image, up to slot `k`, hold parameters.
spec fn slots_hold(mem: Map<u64, Byte>, at: u64, out: Seq<(Reg, Ref)>, k: int) -> bool {
    forall|i: int, j: int|
        0 <= i < k && 0 <= j < 8 ==> #[trigger] slot_byte(mem, at, out[i].1, i, j)
}

spec fn are_params(ns: Seq<Node>, block: BlockRef, out: Seq<(Reg, Ref)>, k: int) -> bool {
    forall|i: int|
        0 <= i < k ==> has(ns, (#[trigger] out[i]).1) && op_of(ns, out[i].1) == Op::Param(
            block,
            out[i].0,
        )
}

proof fn lemma_seeded(
    ms: Seq<Emulator>,
    base: u64,
    layout: Layout,
    block: BlockRef,
    out: Seq<(Reg, Ref)>,
    k: int,
)
    requires
        seed_chain(ms, base, layout, block, out),
        0 <= k <= out.len() <= 16,
    ensures
        slots_hold(ms[k].state.mem@, byte_addr(base, layout.first_reg as int), out, k),
        are_params(ms[k].arena.nodes@, block, out, k),
    decreases k,
{
    if k > 0 {
        lemma_seeded(ms, base, layout, block, out, k - 1);
        let at = byte_addr(base, layout.first_reg as int);
        let n = k - 1;
        assert(out[n].0 == layout.order@[n]);
        let addr = layout.slot_addr(base, n);
        let (ma, held) = choose|ma: Emulator, held: Option<Ref>| #[trigger]
            slot_steps(ms[n], addr, block, layout.order@[n], ma, held, out[n].1, ms[k]);
        let m0 = ma.state.mem@;
        let m1 = ms[k].state.mem@;
        let ns = ms[k].arena.nodes@;
        assert(m0 == ms[n].state.mem@);
        assert forall|i: int| 0 <= i < k implies has(ns, (#[trigger] out[i]).1) && op_of(
            ns,
            out[i].1,
        ) == Op::Param(block, out[i].0) by {
            if i < n {
                assert(has(ms[n].arena.nodes@, out[i].1));
                assert(ma.arena.nodes@[out[i].1.idx as int]
                    == ms[n].arena.nodes@[out[i].1.idx as int]);
                assert(ns[out[i].1.idx as int] == ma.arena.nodes@[out[i].1.idx as int]);
            }
        }
        assert forall|i: int, j: int| 0 <= i < k && 0 <= j < 8 implies #[trigger] slot_byte(
            m1,
            at,
            out[i].1,
            i,
            j,
        ) by {
            let a = byte_addr(at, 8 * i + j);
            if i == n {
                lemma_byte_places(at, 8 * n, j);
                assert(a == byte_addr(addr, j));
            } else {
                assert forall|l: int| 0 <= l < 8 implies a != #[trigger] byte_addr(addr, l) by {
                    lemma_byte_places(at, 8 * n, l);
                    lemma_byte_places(at, 8 * i + j, 8 * n + l);
                }
                assert(slot_byte(m0, at, out[i].1, i, j));
                assert(m0.dom().contains(a));
                assert(m1.dom().contains(a) == m0.dom().contains(a));
            }
        }
    }
}

/// A join starts from its parameters: each slot of the guest's register image holds a
/// parameter of the block, named for the slot's register, whatever a predecessor left there.
/// Where there is no such image nothing is changed but where it was looked for.
pub proof fn a_join_starts_from_its_parameters(
    m0: Emulator,
    block: BlockRef,
    m1: Emulator,
    out: Seq<(Reg, Ref)>,
)
    requires
        seeds(m0, block, m1, out),
    ensures
        out.len() == 0 || exists|base: u64, layout: Layout| #[trigger]
            image_of_params(m1, block, base, layout, out),
{
    let (ma, base, ms) = choose|ma: Emulator, base: Option<u64>, ms: Seq<Emulator>| #[trigger]
        seed_steps(m0, block, ma, base, ms, m1, out);
    if let Some(b) = base {
        let layout = layout_of(ma);
        lemma_seeded(ms, b, layout, block, out, 16);
        let at = byte_addr(b, layout.first_reg as int);
        assert forall|i: int| 0 <= i < 16 implies slot_param(
            m1,
            block,
            at,
            layout.order@[i],
            i,
            #[trigger] out[i],
        ) by {
            assert forall|j: int| 0 <= j < 8 implies #[trigger] slot_byte(
                m1.state.mem@,
                at,
                out[i].1,
                i,
                j,
            ) by {}
        }
        assert(image_of_params(m1, block, b, layout, out));
    }
}

/// Whether slot `i` of an image holds a parameter for a register.
pub open spec fn slot_param(
    m: Emulator,
    block: BlockRef,
    at: u64,
    reg: Reg,
    i: int,
    p: (Reg, Ref),
) -> bool {
    &&& p.0 == reg
    &&& op_of(m.arena.nodes@, p.1) == Op::Param(block, reg)
    &&& forall|j: int| 0 <= j < 8 ==> #[trigger] slot_byte(m.state.mem@, at, p.1, i, j)
}

/// Whether all sixteen slots of an image hold parameters for their registers.
pub open spec fn image_of_params(
    m: Emulator,
    block: BlockRef,
    base: u64,
    layout: Layout,
    out: Seq<(Reg, Ref)>,
) -> bool {
    &&& out.len() == 16
    &&& forall|i: int|
        0 <= i < 16 ==> slot_param(
            m,
            block,
            byte_addr(base, layout.first_reg as int),
            layout.order@[i],
            i,
            #[trigger] out[i],
        )
}

/// Only a block at a cut has parameters; there they stand for what its predecessors leave.
/// Each is named for the block and the register it is a parameter for.
pub proof fn only_joins_have_parameters<'a>(
    pe: Image,
    budget: usize,
    cut: Seq<BlockId>,
    known: Option<Cfg>,
    task: Task<'a>,
    p0: Pass<'a>,
    v: Visit<'a>,
    p1: Pass<'a>,
)
    requires
        visit_steps(pe, budget, cut, known, task, p0, v, p1),
    ensures
        !cut.contains(task.id) ==> p1.blocks@.last().params@.len() == 0 && v.e.seeded == v.e.ready,
        cut.contains(task.id) ==> seeds(
            v.e.ready,
            BlockRef(p0.blocks@.len() as u32),
            v.e.seeded,
            v.e.params,
        ),
        p1.blocks@.last().params@.len() == v.e.params.len(),
        forall|i: int|
            0 <= i < p1.blocks@.last().params@.len() ==> op_of(
                p1.arena.nodes@,
                (#[trigger] p1.blocks@.last().params@[i]).1,
            ) == Op::Param(
                BlockRef(p0.blocks@.len() as u32),
                p1.blocks@.last().params@[i].0,
            ),
{
    let block = BlockRef(p0.blocks@.len() as u32);
    let b = p1.blocks@.last();
    reveal(evaluates_block);
    let out = v.e.params;
    let src = v.read.arena.nodes@;
    let g = v.grafted_params;
    assert(moved_list(v.memo, out, g) && b.params@ == by_number(g, g.len() as int)) by {
        reveal(moved_parts);
    }
    lemma_numbered(g, g.len() as int);
    if cut.contains(task.id) {
        let (ma, base, ms) = choose|ma: Emulator, base: Option<u64>, ms: Seq<Emulator>| #[trigger]
            seed_steps(v.e.ready, block, ma, base, ms, v.e.seeded, out);
        if let Some(bs) = base {
            lemma_seeded(ms, bs, layout_of(ma), block, out, 16);
        }
        assert(are_params(v.e.seeded.arena.nodes@, block, out, out.len() as int));
        assert(v.read.arena.continues(v.e.ended.arena)) by {
            reveal(reads_out);
        }
        assert forall|i: int| 0 <= i < b.params@.len() implies op_of(
            p1.arena.nodes@,
            (#[trigger] b.params@[i]).1,
        ) == Op::Param(block, b.params@[i].0) by {
            assert(g.contains(b.params@[i]));
            let j = choose|j: int| 0 <= j < g.len() && g[j] == b.params@[i];
            let r = out[j].1;
            assert(g[j].0 == out[j].0 && moved(v.memo, r, g[j].1));
            assert(copied(src, p1.arena.nodes@, v.memo, r.idx));
            assert(has(v.e.seeded.arena.nodes@, r));
            assert(v.e.ended.arena.nodes@[r.idx as int] == v.e.seeded.arena.nodes@[r.idx as int]);
            assert(src[r.idx as int] == v.e.ended.arena.nodes@[r.idx as int]);
        }
    }
}

proof fn lemma_with_reg(s: Seq<(Reg, Ref)>, x: (Reg, Ref), y: (Reg, Ref))
    ensures
        with_reg(s, x).len() == s.len() + 1,
        with_reg(s, x).contains(y) <==> s.contains(y) || x == y,
    decreases s.len(),
{
    if s.len() == 0 || s.last().0.number() <= x.0.number() {
        crate::ir::walk::lemma_push_contains(s, x);
    } else {
        lemma_with_reg(s.drop_last(), x, y);
        crate::ir::walk::lemma_push_contains(with_reg(s.drop_last(), x), s.last());
        assert(s =~= s.drop_last().push(s.last()));
        crate::ir::walk::lemma_push_contains(s.drop_last(), s.last());
    }
}

proof fn lemma_numbered(list: Seq<(Reg, Ref)>, k: int)
    requires
        0 <= k <= list.len(),
    ensures
        by_number(list, k).len() == k,
        forall|i: int| 0 <= i < k ==> list.contains(#[trigger] by_number(list, k)[i]),
    decreases k,
{
    if k > 0 {
        lemma_numbered(list, k - 1);
        let s = by_number(list, k - 1);
        lemma_with_reg(s, list[k - 1], list[k - 1]);
        assert forall|i: int| 0 <= i < k implies list.contains(#[trigger] by_number(list, k)[i]) by {
            let y = by_number(list, k)[i];
            lemma_with_reg(s, list[k - 1], y);
            assert(by_number(list, k).contains(y));
            if y == list[k - 1] {
                assert(list.contains(list[k - 1]));
            } else {
                let j = choose|j: int| 0 <= j < s.len() && s[j] == y;
                assert(list.contains(s[j]));
            }
        }
    }
}

} // verus!
