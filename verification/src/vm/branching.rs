//! A recovered branch goes where the jump it was recovered from goes.

use crate::ir::edges::arms_of;
use crate::ir::event::Stop;
use crate::ir::expr::{const_of, eval, has, width_of, Env, Node, Ref};
use crate::ir::fold::lemma_mask;
use crate::ir::graph::{BlockId, Cfg, Terminator};
use crate::ir::lift::Emulator;
use crate::ir::settle::{lemma_constant_value, lemma_join_grows};
use crate::ir::subst::{
    agrees, bytes_at, fold_agrees, fold_bytes, fold_held, fold_made, foldable, pin_from, pin_of,
    pinned, pinning_to_the_value_changes_nothing,
};
use crate::ir::value::Width;
use crate::ir::walk::{copied, depends, lemma_depends_held, memo_ok, tracks};
use crate::vm::candidates::{enumeration_misses_nothing, is_narrow, live_bits};
use crate::vm::ending::{ends_native, native_steps, pin_steps, symbolic_steps};
use crate::vm::fork::{
    arm_id, arm_targets, arms, begins, continues_as, decided_at, fork_steps, forked, landing,
    splits_multiway, splits_two_way, switch_steps, switched_at, two_way_steps, Task,
};
use crate::vm::graft::moved_terminator;
use crate::vm::image::Image;
use crate::vm::split::{adopts, split_steps, splits};
use crate::vm::state::{byte_ok, join_bytes, Byte};
use crate::vm::visit::{evaluates_block, moved_parts, reads_out, visit_steps, Pass, Visit};
use vstd::prelude::*;

verus! {

/// Whether memory gives what a machine holds in it, wherever that is not for the program or
/// the loader to change.
pub open spec fn memory_gives(m: Emulator, e: Env) -> bool {
    forall|addr: u64, g: u32, w: Width, bytes: Seq<Byte>|
        #![trigger (e.mem)(addr, g, w), bytes_at(m.state.mem@, *m.pe, addr, bytes)]
        foldable(*m.pe, addr, w) && bytes_at(m.state.mem@, *m.pe, addr, bytes) && bytes.len()
            == w.bytes() ==> (e.mem)(addr, g, w) & w.mask() == join_bytes(m.arena.nodes@, bytes, e)
}

/// Whether inputs lead a machine to where it is: each pinned value is what it is pinned to,
/// and memory gives what the machine holds and what its loads found.
pub open spec fn leads_here(m: Emulator, e: Env) -> bool {
    &&& forall|i: int|
        0 <= i < m.pins@.len() ==> eval(m.arena.nodes@, (#[trigger] m.pins@[i]).0, e)
            == m.pins@[i].1 & width_of(m.arena.nodes@, m.pins@[i].0).mask()
    &&& agrees(m.arena.nodes@, m.folded@, e)
    &&& memory_gives(m, e)
}

pub proof fn lemma_pin_place(pins: Seq<(Ref, u64)>, x: Ref, k: int)
    requires
        0 <= k,
    ensures
        pin_from(pins, x, k) matches Some(v) ==> exists|i: int|
            k <= i < pins.len() && #[trigger] pins[i] == (x, v),
    decreases pins.len() - k,
{
    if k < pins.len() {
        if pins[k].0 == x {
            assert(pins[k] == (x, pins[k].1));
        } else {
            lemma_pin_place(pins, x, k + 1);
        }
    }
}

/// Where the candidate has the value it is pinned to, a fork's destination is the
/// destination.
proof fn lemma_forked_value(
    m: Emulator,
    cand: Ref,
    value: u64,
    dest: Ref,
    f: Emulator,
    r: Ref,
    e: Env,
)
    requires
        m.wf(),
        m.arena.holds(dest),
        m.arena.holds(cand),
        forked(m, cand, value, dest, f, r),
        leads_here(m, e),
        eval(m.arena.nodes@, cand, e) == value & width_of(m.arena.nodes@, cand).mask(),
    ensures
        const_of(f.arena.nodes@, r) matches Some(t) ==> eval(m.arena.nodes@, dest, e) == t,
{
    let (c, p) = choose|c: Emulator, p: Emulator| #[trigger]
        fork_steps(m, cand, value, dest, c, p, f, r);
    let n0 = m.arena.nodes@;
    let n1 = f.arena.nodes@;
    let pins = p.pins@;
    assert(n0 == p.arena.nodes@);
    assert(f.folded@.len() >= m.folded@.len());
    assert(agrees(n1, f.folded@, e)) by {
        assert forall|i: int| 0 <= i < f.folded@.len() implies fold_agrees(
            n1,
            #[trigger] f.folded@[i],
            e,
        ) by {
            let x = f.folded@[i];
            if i < m.folded@.len() {
                assert(p.folded@[i] == x);
                assert(m.folded@[i] == x);
                assert(fold_agrees(n0, m.folded@[i], e));
                reveal(fold_held);
                assert(has(n0, x.value));
                assert(eval(n1, x.value, e) == eval(n0, x.value, e));
            } else {
                assert(fold_made(p.state.mem@, *p.pe, n1, x));
                reveal(fold_made);
                let bytes = choose|bytes: Seq<Byte>| #[trigger]
                    fold_bytes(p.state.mem@, *p.pe, n1, x, bytes);
                assert(bytes_at(m.state.mem@, *m.pe, x.addr, bytes));
                assert((e.mem)(x.addr, x.generation, x.width) & x.width.mask() == join_bytes(
                    n0,
                    bytes,
                    e,
                ));
                assert forall|j: int| 0 <= j < bytes.len() implies byte_ok(
                    n0,
                    #[trigger] bytes[j],
                ) by {
                    assert(crate::ir::subst::byte_found(
                        m.state.mem@,
                        *m.pe,
                        crate::vm::state::byte_addr(x.addr, j),
                        bytes[j],
                    ));
                }
                lemma_join_grows(n0, n1, bytes, e);
            }
        }
    }
    assert(eval(n1, r, e) == pinned(n1, dest, pins, e)) by {
        assert(dest == Ref { idx: dest.idx });
    }
    assert forall|x: Ref| pin_of(pins, x) is Some && has(n1, x) implies #[trigger] eval(n1, x, e)
        == pin_of(pins, x)->0 & width_of(n1, x).mask() by {
        lemma_pin_place(pins, x, 0);
        let i = choose|i: int| 0 <= i < pins.len() && #[trigger] pins[i] == (x, pin_of(pins, x)->0);
        reveal(crate::ir::subst::pins_hold);
        if i < m.pins@.len() {
            assert(m.pins@[i] == pins[i]);
        }
        assert(has(n0, x));
        assert(n1[x.idx as int] == n0[x.idx as int]);
        assert(eval(n1, x, e) == eval(n0, x, e));
    }
    pinning_to_the_value_changes_nothing(n1, dest, pins, e);
    assert(eval(n1, dest, e) == eval(n0, dest, e));
    if const_of(n1, r) is Some {
        lemma_constant_value(n1, r, e);
    }
}

/// Trying the bits of a destination finds where it goes: under all inputs that lead here, the
/// destination is the handler of the block taken where the predicate is 1, and that of the
/// other where it is 0. Where both are one block, it is that one's.
pub proof fn a_branch_goes_where_the_jump_goes(
    pe: Image,
    m: Emulator,
    id: BlockId,
    above: Seq<BlockId>,
    dest: Ref,
    cands: Seq<Ref>,
    q0: Seq<Task>,
    q1: Seq<Task>,
    t: Terminator,
    e: Env,
)
    requires
        m.wf(),
        m.arena.holds(dest),
        forall|i: int| 0 <= i < cands.len() ==> m.arena.holds(#[trigger] cands[i]),
        splits_two_way(pe, m, id, above, dest, cands, q0, q1, Some(t)),
        leads_here(m, e),
    ensures
        match t {
            Terminator::Branch { predicate, taken, not_taken } => {
                &&& cands.contains(predicate)
                &&& eval(m.arena.nodes@, predicate, e) == 1 ==> eval(m.arena.nodes@, dest, e)
                    == taken.handler
                &&& eval(m.arena.nodes@, predicate, e) == 0 ==> eval(m.arena.nodes@, dest, e)
                    == not_taken.handler
            },
            Terminator::Jump(to) => exists|c: Ref| #[trigger]
                cands.contains(c) && (eval(m.arena.nodes@, c, e) <= 1 ==> eval(
                    m.arena.nodes@,
                    dest,
                    e,
                ) == to.handler),
            _ => false,
        },
{
    let k = choose|k: int| #[trigger] decided_at(pe, m, id, above, dest, cands, k, q0, q1, t);
    let c = cands[k];
    assert(cands.contains(c));
    let (f0, r0, f1, r1) = choose|f0: Emulator, r0: Ref, f1: Emulator, r1: Ref| #[trigger]
        two_way_steps(pe, m, id, above, dest, c, f0, r0, f1, r1, q0, q1, t);
    lemma_mask(0, width_of(m.arena.nodes@, c).mask());
    lemma_mask(1, width_of(m.arena.nodes@, c).mask());
    if eval(m.arena.nodes@, c, e) == 0 {
        lemma_forked_value(m, c, 0, dest, f0, r0, e);
    }
    if eval(m.arena.nodes@, c, e) == 1 {
        lemma_forked_value(m, c, 1, dest, f1, r1, e);
    }
}

proof fn lemma_arms_have(pe: Image, fs: Seq<Emulator>, rs: Seq<Ref>, k: int, v: int)
    requires
        0 <= v < k,
        landing(pe, fs[v], rs[v]) is Some,
    ensures
        arms(pe, fs, rs, k).contains(v),
    decreases k,
{
    let before = arms(pe, fs, rs, k - 1);
    if v == k - 1 {
        assert(arms(pe, fs, rs, k)[before.len() as int] == v);
    } else {
        lemma_arms_have(pe, fs, rs, k - 1, v);
        let i = choose|i: int| 0 <= i < before.len() && before[i] == v;
        assert(arms(pe, fs, rs, k)[i] == v);
    }
}

proof fn lemma_targets_have(
    pe: Image,
    fs: Seq<Emulator>,
    rs: Seq<Ref>,
    vs: Seq<int>,
    k: int,
    j: int,
)
    requires
        0 <= j < k <= vs.len(),
    ensures
        arm_targets(pe, fs, rs, vs, k).contains(arm_id(pe, fs, rs, vs[j])),
    decreases k,
{
    let before = arm_targets(pe, fs, rs, vs, k - 1);
    let all = arm_targets(pe, fs, rs, vs, k);
    let id = arm_id(pe, fs, rs, vs[k - 1]);
    if j == k - 1 {
        if !before.contains(id) {
            assert(all[before.len() as int] == id);
        }
    } else {
        lemma_targets_have(pe, fs, rs, vs, k - 1, j);
        let x = arm_id(pe, fs, rs, vs[j]);
        let i = choose|i: int| 0 <= i < before.len() && before[i] == x;
        assert(all[i] == x);
    }
}

proof fn lemma_targets_from(
    pe: Image,
    fs: Seq<Emulator>,
    rs: Seq<Ref>,
    vs: Seq<int>,
    k: int,
    x: BlockId,
) -> (j: int)
    requires
        0 <= k <= vs.len(),
        arm_targets(pe, fs, rs, vs, k).contains(x),
    ensures
        0 <= j < k,
        x == arm_id(pe, fs, rs, vs[j]),
    decreases k,
{
    let before = arm_targets(pe, fs, rs, vs, k - 1);
    let all = arm_targets(pe, fs, rs, vs, k);
    let i = choose|i: int| 0 <= i < all.len() && all[i] == x;
    if i < before.len() {
        assert(before[i] == x);
        lemma_targets_from(pe, fs, rs, vs, k - 1, x)
    } else {
        k - 1
    }
}

/// Trying the values of an index finds every way: under all inputs that lead here, a
/// destination that is code is the handler of one of the blocks the switch lists.
pub proof fn a_switch_goes_where_the_jump_goes(
    pe: Image,
    m: Emulator,
    id: BlockId,
    above: Seq<BlockId>,
    dest: Ref,
    indices: Seq<(Ref, u64)>,
    q0: Seq<Task>,
    q1: Seq<Task>,
    t: Terminator,
    e: Env,
)
    requires
        m.wf(),
        m.arena.holds(dest),
        forall|i: int|
            0 <= i < indices.len() ==> m.arena.holds((#[trigger] indices[i]).0) && is_narrow(
                m.arena.nodes@,
                indices[i].0,
            ) && indices[i].1 == live_bits(m.arena.nodes@, indices[i].0),
        splits_multiway(pe, m, id, above, dest, indices, q0, q1, Some(t)),
        leads_here(m, e),
        pe.executable_spec(eval(m.arena.nodes@, dest, e)),
    ensures
        match t {
            Terminator::Switch { selector, targets } => exists|k: int|
                0 <= k < targets@.len() && (#[trigger] targets@[k]).handler == eval(
                    m.arena.nodes@,
                    dest,
                    e,
                ),
            Terminator::Jump(to) => to.handler == eval(m.arena.nodes@, dest, e),
            _ => false,
        },
{
    let k = choose|k: int| #[trigger] switched_at(pe, m, id, above, dest, indices, k, q0, q1, t);
    let idx = indices[k].0;
    let span = indices[k].1;
    let (fs, rs) = choose|fs: Seq<Emulator>, rs: Seq<Ref>| #[trigger]
        switch_steps(pe, m, id, above, idx, span, dest, fs, rs, q0, q1, t);
    let ns = m.arena.nodes@;
    enumeration_misses_nothing(ns, idx, e);
    let v = eval(ns, idx, e) as int;
    crate::ir::known::lemma_eval_fits(ns, idx, e);
    lemma_mask(v as u64, width_of(ns, idx).mask());
    assert(forked(m, idx, v as u64, dest, fs[v], rs[v]));
    lemma_forked_value(m, idx, v as u64, dest, fs[v], rs[v], e);
    assert(const_of(fs[v].arena.nodes@, rs[v]) is Some);
    assert(landing(pe, fs[v], rs[v]) == Some(eval(ns, dest, e)));
    lemma_arms_have(pe, fs, rs, span + 1, v);
    let vs = arms(pe, fs, rs, span + 1);
    let j = choose|j: int| 0 <= j < vs.len() && vs[j] == v;
    let ids = arm_targets(pe, fs, rs, vs, vs.len() as int);
    lemma_targets_have(pe, fs, rs, vs, vs.len() as int, j);
    let x = arm_id(pe, fs, rs, v);
    assert(x.handler == eval(ns, dest, e));
    let n = choose|n: int| 0 <= n < ids.len() && ids[n] == x;
    assert(ids[n].handler == eval(ns, dest, e));
}

/// Splitting a symbolic jump says where it goes. Under all inputs that lead here: a branch
/// takes one side where its predicate is 1 and the other where it is 0, and the handler of
/// that side is the destination; a switch lists the destination wherever it is code.
pub proof fn a_split_jump_is_followed(
    pe: Image,
    m: Emulator,
    id: BlockId,
    above: Seq<BlockId>,
    site: u64,
    dest: Ref,
    q0: Seq<Task>,
    q1: Seq<Task>,
    t: Terminator,
    e: Env,
)
    requires
        m.wf(),
        m.arena.holds(dest),
        splits(pe, m, id, above, site, dest, q0, q1, t),
        leads_here(m, e),
    ensures
        t matches Terminator::Branch { predicate, taken, not_taken } ==> depends(
            m.arena.nodes@,
            dest,
            predicate,
        ) && (eval(m.arena.nodes@, predicate, e) == 1 ==> eval(m.arena.nodes@, dest, e)
            == taken.handler) && (eval(m.arena.nodes@, predicate, e) == 0 ==> eval(
            m.arena.nodes@,
            dest,
            e,
        ) == not_taken.handler),
        t matches Terminator::Switch { selector, targets } ==> pe.executable_spec(
            eval(m.arena.nodes@, dest, e),
        ) ==> exists|k: int|
            0 <= k < targets@.len() && (#[trigger] targets@[k]).handler == eval(
                m.arena.nodes@,
                dest,
                e,
            ),
{
    let ns = m.arena.nodes@;
    let (cands, indices, ls) = choose|cands: Seq<Ref>, indices: Seq<(Ref, u64)>, ls: Seq<Ref>|
     #[trigger]
        split_steps(pe, m, id, above, site, dest, cands, indices, ls, q0, q1, t);
    let (a, b) = choose|a: int, b: int| #[trigger]
        crate::vm::candidates::grouped(ns, dest, cands, a, b);
    assert forall|i: int| 0 <= i < cands.len() implies m.arena.holds(#[trigger] cands[i]) by {
        assert(cands.contains(cands[i]));
        lemma_depends_held(ns, dest, cands[i]);
    }
    assert forall|i: int| 0 <= i < indices.len() implies m.arena.holds((#[trigger] indices[i]).0)
        && is_narrow(ns, indices[i].0) && indices[i].1 == live_bits(ns, indices[i].0) by {
        assert(indices.contains(indices[i]));
        lemma_depends_held(ns, dest, indices[i].0);
    }
    if splits_two_way(pe, m, id, above, dest, cands, q0, q1, Some(t)) {
        a_branch_goes_where_the_jump_goes(pe, m, id, above, dest, cands, q0, q1, t, e);
    } else if splits_multiway(pe, m, id, above, dest, indices, q0, q1, Some(t)) {
        if pe.executable_spec(eval(ns, dest, e)) {
            a_switch_goes_where_the_jump_goes(pe, m, id, above, dest, indices, q0, q1, t, e);
        }
        let k = choose|k: int| #[trigger]
            switched_at(pe, m, id, above, dest, indices, k, q0, q1, t);
        assert(!(t is Branch));
    }
}

/// What is queued where a jump is split goes on with one more value pinned, and resumes where
/// the jump goes under all inputs that lead here and give that value.
pub proof fn a_task_resumes_where_the_jump_goes(
    pe: Image,
    m: Emulator,
    id: BlockId,
    above: Seq<BlockId>,
    site: u64,
    dest: Ref,
    q0: Seq<Task>,
    q1: Seq<Task>,
    t: Terminator,
    i: int,
)
    requires
        m.wf(),
        m.arena.holds(dest),
        splits(pe, m, id, above, site, dest, q0, q1, t),
        q0.len() <= i < q1.len(),
    ensures
        q1[i].resume == q1[i].id.handler,
        q1[i].from == Some(id),
        q1[i].ancestors@ == above.push(id),
        exists|c: Ref, v: u64| #[trigger]
            q1[i].emu.pins@ == m.pins@.push((c, v)) && depends(m.arena.nodes@, dest, c) && v
                <= width_of(m.arena.nodes@, c).mask() && forall|e: Env| #[trigger]
                leads_here(m, e) && eval(m.arena.nodes@, c, e) == v ==> eval(
                    m.arena.nodes@,
                    dest,
                    e,
                ) == q1[i].resume,
{
    let ns = m.arena.nodes@;
    let (cands, indices, ls) = choose|cands: Seq<Ref>, indices: Seq<(Ref, u64)>, ls: Seq<Ref>|
     #[trigger]
        split_steps(pe, m, id, above, site, dest, cands, indices, ls, q0, q1, t);
    let (a, b) = choose|a: int, b: int| #[trigger]
        crate::vm::candidates::grouped(ns, dest, cands, a, b);
    if splits_two_way(pe, m, id, above, dest, cands, q0, q1, Some(t)) {
        let k = choose|k: int| #[trigger] decided_at(pe, m, id, above, dest, cands, k, q0, q1, t);
        let c = cands[k];
        assert(cands.contains(c));
        lemma_depends_held(ns, dest, c);
        let (f0, r0, f1, r1) = choose|f0: Emulator, r0: Ref, f1: Emulator, r1: Ref| #[trigger]
            two_way_steps(pe, m, id, above, dest, c, f0, r0, f1, r1, q0, q1, t);
        let id0 = begins(f0, landing(pe, f0, r0)->0);
        let id1 = begins(f1, landing(pe, f1, r1)->0);
        if id0 == id1 || i == q0.len() + 1 {
            lemma_task(m, c, 0, dest, f0, r0);
            assert(q1[i].emu == f0);
            assert(q1[i].emu.pins@ == m.pins@.push((c, 0u64)));
        } else {
            lemma_task(m, c, 1, dest, f1, r1);
            assert(q1[i].emu == f1);
            assert(q1[i].emu.pins@ == m.pins@.push((c, 1u64)));
        }
    } else {
        let k = choose|k: int| #[trigger]
            switched_at(pe, m, id, above, dest, indices, k, q0, q1, t);
        assert(indices.contains(indices[k]));
        let idx = indices[k].0;
        let span = indices[k].1;
        lemma_depends_held(ns, dest, idx);
        let (fs, rs) = choose|fs: Seq<Emulator>, rs: Seq<Ref>| #[trigger]
            switch_steps(pe, m, id, above, idx, span, dest, fs, rs, q0, q1, t);
        let vs = arms(pe, fs, rs, span + 1);
        let j = i - q0.len();
        lemma_arm_inside(pe, fs, rs, span + 1, j);
        let v = vs[j];
        assert(continues_as(q1[q0.len() + j], fs[vs[j]], arm_id(pe, fs, rs, vs[j]), id, above));
        assert(forked(m, idx, v as u64, dest, fs[v], rs[v]));
        lemma_mask(!crate::ir::expr::known_zero_bits(ns, idx), width_of(ns, idx).mask());
        lemma_task(m, idx, v as u64, dest, fs[v], rs[v]);
        assert(q1[i].emu.pins@ == m.pins@.push((idx, v as u64)));
    }
}

proof fn lemma_arm_inside(pe: Image, fs: Seq<Emulator>, rs: Seq<Ref>, k: int, j: int)
    requires
        0 <= j < arms(pe, fs, rs, k).len(),
    ensures
        0 <= arms(pe, fs, rs, k)[j] < k,
        landing(pe, fs[arms(pe, fs, rs, k)[j]], rs[arms(pe, fs, rs, k)[j]]) is Some,
    decreases k,
{
    let before = arms(pe, fs, rs, k - 1);
    if j < before.len() {
        lemma_arm_inside(pe, fs, rs, k - 1, j);
    }
}

proof fn lemma_task(m: Emulator, c: Ref, v: u64, dest: Ref, f: Emulator, r: Ref)
    requires
        m.wf(),
        m.arena.holds(dest),
        m.arena.holds(c),
        v <= width_of(m.arena.nodes@, c).mask(),
        forked(m, c, v, dest, f, r),
    ensures
        f.pins@ == m.pins@.push((c, v)),
        const_of(f.arena.nodes@, r) matches Some(t) ==> forall|e: Env| #[trigger]
            leads_here(m, e) && eval(m.arena.nodes@, c, e) == v ==> eval(
                m.arena.nodes@,
                dest,
                e,
            ) == t,
{
    let (x, p) = choose|x: Emulator, p: Emulator| #[trigger]
        fork_steps(m, c, v, dest, x, p, f, r);
    assert(f.pins@ == p.pins@);
    lemma_mask(v, width_of(m.arena.nodes@, c).mask());
    assert forall|e: Env| #[trigger] leads_here(m, e) && eval(m.arena.nodes@, c, e) == v implies (
    const_of(f.arena.nodes@, r) matches Some(t) ==> eval(m.arena.nodes@, dest, e) == t) by {
        lemma_forked_value(m, c, v, dest, f, r, e);
    }
}

/// Both sides of a conditional jump are followed: the one with the predicate pinned to 1
/// resumes at its target, the one with it pinned to 0 behind it, and the branch says so.
pub proof fn both_sides_of_a_conditional_jump_are_followed(
    m: Emulator,
    id: BlockId,
    above: Seq<BlockId>,
    predicate: Ref,
    taken: u64,
    not_taken: u64,
    q0: Seq<Task>,
    q1: Seq<Task>,
    t: Terminator,
)
    requires
        ends_native(m, id, above, predicate, taken, not_taken, q0, q1, t),
    ensures
        t matches Terminator::Branch { predicate: p, taken: a, not_taken: b } && p == predicate
            && a.handler == taken && b.handler == not_taken,
        q1.len() == q0.len() + 2,
        forall|i: int|
            q0.len() <= i < q1.len() ==> (#[trigger] q1[i]).from == Some(id) && q1[i].resume
                == q1[i].id.handler,
        exists|i: int|
            q0.len() <= i < q1.len() && (#[trigger] q1[i]).resume == taken && q1[i].emu.pins@
                == m.pins@.push((predicate, 1u64)),
        exists|i: int|
            q0.len() <= i < q1.len() && (#[trigger] q1[i]).resume == not_taken && q1[i].emu.pins@
                == m.pins@.push((predicate, 0u64)),
{
    let (ft, fn_) = choose|ft: Emulator, fn_: Emulator| #[trigger]
        native_steps(m, id, above, predicate, taken, not_taken, ft, fn_, q0, q1, t);
    let c1 = choose|c: Emulator| #[trigger] pin_steps(m, predicate, 1, c, ft);
    let c0 = choose|c: Emulator| #[trigger] pin_steps(m, predicate, 0, c, fn_);
    let n = q0.len() as int;
    assert(q1[n].resume == taken && q1[n].emu.pins@ == m.pins@.push((predicate, 1u64)));
    assert(q1[n + 1].resume == not_taken && q1[n + 1].emu.pins@ == m.pins@.push(
        (predicate, 0u64),
    ));
}

/// A terminator that is moved into the graph leads to the same blocks, and decides by a value
/// that is worth the same.
pub proof fn a_moved_terminator_decides_alike(
    src: Seq<Node>,
    dst: Seq<Node>,
    memo: Map<usize, Ref>,
    a: Terminator,
    b: Terminator,
    es: Env,
    ed: Env,
)
    requires
        memo_ok(src, dst, memo),
        moved_terminator(memo, a, b),
        tracks(src, dst, memo, es, ed),
    ensures
        arms_of(b) == arms_of(a),
        a matches Terminator::Branch { predicate, .. } ==> b matches Terminator::Branch {
            predicate: p,
            ..
        } && eval(dst, p, ed) == eval(src, predicate, es),
        a matches Terminator::Switch { selector, .. } ==> b matches Terminator::Switch {
            selector: s,
            ..
        } && eval(dst, s, ed) == eval(src, selector, es),
        a matches Terminator::Return { dest } ==> b matches Terminator::Return { dest: d } && eval(
            dst,
            d,
            ed,
        ) == eval(src, dest, es),
        a is TailCall || a is Backedge || a is Jump || a is Unresolved ==> b == a,
{
    match a {
        Terminator::Branch { predicate, .. } => {
            assert(copied(src, dst, memo, predicate.idx));
            assert(predicate == Ref { idx: predicate.idx });
        },
        Terminator::Switch { selector, .. } => {
            assert(copied(src, dst, memo, selector.idx));
            assert(selector == Ref { idx: selector.idx });
        },
        Terminator::Return { dest } => {
            assert(copied(src, dst, memo, dest.idx));
            assert(dest == Ref { idx: dest.idx });
        },
        _ => {},
    }
}

/// A recovered block goes where its last jump goes. Take the machine at the stop and its
/// symbolic destination. Under all inputs that lead there, with the graph's values to match:
/// where the block ends in a branch, the destination is the handler of the side its predicate
/// picks; where it ends in a switch and the destination is code, it is among the targets.
pub proof fn a_recovered_block_goes_where_its_jump_goes<'a>(
    pe: Image,
    budget: usize,
    cut: Seq<BlockId>,
    known: Option<Cfg>,
    task: Task<'a>,
    p0: Pass<'a>,
    v: Visit<'a>,
    p1: Pass<'a>,
    site: u64,
    dest: Ref,
    es: Env,
    ed: Env,
)
    requires
        visit_steps(pe, budget, cut, known, task, p0, v, p1),
        v.e.stop == (Stop::SymbolicBranch { site, dest }),
        leads_here(v.e.relocated, es),
        tracks(v.read.arena.nodes@, p1.arena.nodes@, v.memo, es, ed),
    ensures
        p1.blocks@.last().terminator matches Terminator::Branch { predicate, taken, not_taken }
            ==> (eval(p1.arena.nodes@, predicate, ed) == 1 ==> eval(
            v.e.relocated.arena.nodes@,
            dest,
            es,
        ) == taken.handler) && (eval(p1.arena.nodes@, predicate, ed) == 0 ==> eval(
            v.e.relocated.arena.nodes@,
            dest,
            es,
        ) == not_taken.handler),
        p1.blocks@.last().terminator matches Terminator::Switch { selector, targets }
            ==> pe.executable_spec(eval(v.e.relocated.arena.nodes@, dest, es)) ==> exists|k: int|
            0 <= k < targets@.len() && (#[trigger] targets@[k]).handler == eval(
                v.e.relocated.arena.nodes@,
                dest,
                es,
            ),
{
    let m = v.e.relocated;
    let b = p1.blocks@.last();
    let src = v.read.arena.nodes@;
    let (qa, ta) = lemma_stopped(pe, budget, cut, known, task, p0, v, p1, site, dest);
    if v.e.t == ta {
        a_split_jump_is_followed(
            pe,
            m,
            task.id,
            task.ancestors@,
            site,
            dest,
            p0.queue@,
            qa,
            ta,
            es,
        );
    }
    a_moved_terminator_decides_alike(src, p1.arena.nodes@, v.memo, v.e.t, b.terminator, es, ed);
    if let Terminator::Branch { predicate, .. } = v.e.t {
        lemma_depends_held(m.arena.nodes@, dest, predicate);
        assert(eval(src, predicate, es) == eval(m.arena.nodes@, predicate, es));
    }
}

/// A visit that stops at a symbolic jump splits it, unless it adopts what was found before.
proof fn lemma_stopped<'a>(
    pe: Image,
    budget: usize,
    cut: Seq<BlockId>,
    known: Option<Cfg>,
    task: Task<'a>,
    p0: Pass<'a>,
    v: Visit<'a>,
    p1: Pass<'a>,
    site: u64,
    dest: Ref,
) -> (r: (Seq<Task<'a>>, Terminator))
    requires
        visit_steps(pe, budget, cut, known, task, p0, v, p1),
        v.e.stop == (Stop::SymbolicBranch { site, dest }),
    ensures
        v.e.relocated.wf(),
        v.e.relocated.arena.holds(dest),
        splits(
            pe,
            v.e.relocated,
            task.id,
            task.ancestors@,
            site,
            dest,
            p0.queue@,
            r.0,
            r.1,
        ),
        v.e.t == r.1 || !(v.e.t is Branch || v.e.t is Switch),
        v.read.arena.continues(v.e.relocated.arena),
        memo_ok(v.read.arena.nodes@, p1.arena.nodes@, v.memo),
        moved_terminator(v.memo, v.e.t, p1.blocks@.last().terminator),
{
    reveal(evaluates_block);
    reveal(reads_out);
    reveal(moved_parts);
    let (qa, ta, r) = choose|qa: Seq<Task>, ta: Terminator, r: Option<Terminator>| #[trigger]
        symbolic_steps(
            pe,
            known,
            v.e.relocated,
            task.id,
            task.ancestors@,
            site,
            dest,
            (v.e.ran.steps - task.emu.steps) as usize,
            p0.queue@,
            qa,
            ta,
            r,
            v.e.queue,
            v.e.t,
        );
    (qa, ta)
}

/// What an earlier pass found is adopted as it was: the block leads to the same blocks, arm by
/// arm, and where those are still to be recovered each of them is.
pub proof fn an_adopted_block_leads_to_the_same(
    known: Cfg,
    m: Emulator,
    id: BlockId,
    above: Seq<BlockId>,
    cost: usize,
    q0: Seq<Task>,
    q1: Seq<Task>,
    t: Terminator,
)
    requires
        adopts(Some(known), m, id, above, cost, q0, q1, Some(t)),
    ensures
        exists|k: int|
            0 <= k < known.blocks@.len() && (#[trigger] known.blocks@[k]).id == id && cost
                >= known.blocks@[k].cost && arms_of(t) == arms_of(known.blocks@[k].terminator),
        !(t is Branch) && !(t is Switch) && !(t is Return) && !(t is Unresolved),
        t is Jump || t is Adopted || t is AdoptedSwitch ==> q1.len() == q0.len() + arms_of(t).len()
            && forall|j: int|
            0 <= j < arms_of(t).len() ==> (#[trigger] q1[q0.len() + j]).id == arms_of(t)[j] && q1[
            q0.len() + j].resume == arms_of(t)[j].handler && q1[q0.len() + j].from == Some(id),
{
    let ids = crate::ir::flow::ids(known.blocks@);
    let k = crate::ir::flow::first_index(ids, id)->0;
    lemma_index_there(ids, id);
    let b = known.blocks@[k];
    assert(ids[k] == id);
    assert(b.id == id);
    assert(arms_of(t) =~= arms_of(b.terminator));
    if t is Jump || t is Adopted || t is AdoptedSwitch {
        let found = crate::vm::split::adopted_as(b.terminator)->0;
        let to = found.1;
        assert(to =~= arms_of(t));
        assert forall|j: int| 0 <= j < arms_of(t).len() implies (#[trigger] q1[q0.len() + j]).id
            == arms_of(t)[j] && q1[q0.len() + j].resume == arms_of(t)[j].handler && q1[q0.len()
            + j].from == Some(id) by {
            assert(crate::vm::split::resumed(q1[q0.len() + j], m, to[j], id, above));
        }
    }
}

proof fn lemma_index_there(ids: Seq<BlockId>, id: BlockId)
    ensures
        crate::ir::flow::first_index(ids, id) matches Some(k) ==> 0 <= k < ids.len() && ids[k] == id,
    decreases ids.len(),
{
    if ids.len() > 0 {
        lemma_index_there(ids.drop_last(), id);
    }
}

} // verus!
