//! Forking the machine where a branch depends on what the guest computes.

use crate::ir::branch::{vip, VIP_DEPTH};
use crate::ir::event::copy_list;
use crate::ir::expr::{const_of, Ref};
use crate::ir::flow::ids;
use crate::ir::graph::{BlockId, Terminator};
use crate::ir::lift::Emulator;
use crate::ir::seed::same_machine;
use crate::ir::settle::{held_bytes, known_by, settled};
use crate::ir::subst::{entry_ok, knowledge, settles_as};
use crate::vm::image::Image;
use crate::vm::reach::contains_id;
use vstd::prelude::*;
use vstd::string::StringExecFns;

verus! {

/// A pending continuation: a live evaluator plus where it resumes.
pub struct Task<'a> {
    pub emu: Emulator<'a>,
    /// Address to resume interpretation at.
    pub resume: u64,
    /// Identity of the block this continuation builds.
    pub id: BlockId,
    /// Predecessor block, for edge bookkeeping.
    pub from: Option<BlockId>,
    /// Blocks on the path from the function entry to where it resumes. Only a jump back to an
    /// ancestor is a loop; a jump to an already recovered block that is not an ancestor is
    /// ordinary convergence.
    pub ancestors: Vec<BlockId>,
}

/// A machine that goes on with a node pinned to a value, and what a destination became.
pub open spec fn fork_steps(
    m: Emulator,
    cand: Ref,
    value: u64,
    dest: Ref,
    c: Emulator,
    p: Emulator,
    f: Emulator,
    r: Ref,
) -> bool {
    &&& same_machine(m, c)
    &&& p.pins@ == c.pins@.push((cand, value))
    &&& p == (Emulator { pins: p.pins, memo_pin_count: 0, ..c })
    &&& f.only_rebuilt(p)
    &&& entry_ok(f.arena.nodes@, p.pins@, f.folded@, dest.idx, r)
    &&& settles_as(p, dest, f, r)
}

/// Whether `f` is `m` with a node pinned to a value, where a destination is `r`.
pub open spec fn forked(m: Emulator, cand: Ref, value: u64, dest: Ref, f: Emulator, r: Ref) -> bool {
    exists|c: Emulator, p: Emulator| #[trigger] fork_steps(m, cand, value, dest, c, p, f, r)
}

/// The code address that a destination is. A pinned flag expression may fold to 0 and 1,
/// which are not code addresses.
pub open spec fn landing(pe: Image, f: Emulator, r: Ref) -> Option<u64> {
    match const_of(f.arena.nodes@, r) {
        Some(t) if pe.executable_spec(t) => Some(t),
        _ => None,
    }
}

/// A destination that pinning one more node makes a code address is where the fork goes on:
/// dispatch through a table that memory holds is followed.
pub proof fn a_settled_destination_is_followed(
    pe: Image,
    m: Emulator,
    cand: Ref,
    value: u64,
    dest: Ref,
    f: Emulator,
    r: Ref,
    t: u64,
)
    requires
        forked(m, cand, value, dest, f, r),
        settled(
            m.arena.nodes@,
            dest,
            m.pins@.push((cand, value)),
            known_by(held_bytes(m.state.mem@, *m.pe)),
            *m.pe,
        ) == Some(t),
        pe.executable_spec(t),
    ensures
        landing(pe, f, r) == Some(t),
{
    let (c, p) = choose|c: Emulator, p: Emulator| #[trigger]
        fork_steps(m, cand, value, dest, c, p, f, r);
    assert(knowledge(p) == known_by(held_bytes(m.state.mem@, *m.pe)));
}

/// The block a fork begins.
pub open spec fn begins(f: Emulator, t: u64) -> BlockId {
    BlockId { handler: t, vip: vip(f, VIP_DEPTH) }
}

/// Whether a task goes on from another with the machine given.
pub open spec fn continues_as(t: Task, f: Emulator, id: BlockId, from: BlockId, above: Seq<BlockId>) -> bool {
    &&& t.emu == f
    &&& t.resume == id.handler
    &&& t.id == id
    &&& t.from == Some(from)
    &&& t.ancestors@ == above.push(from)
}

/// Forks a machine with a node pinned to a value, and rebuilds a destination there.
fn fork<'a>(emu: &Emulator<'a>, cand: Ref, value: u64, dest: Ref) -> (f: (Emulator<'a>, Ref))
    requires
        emu.wf(),
        emu.arena.holds(cand),
        emu.arena.holds(dest),
        const_of(emu.arena.nodes@, cand) is None,
    ensures
        f.0.wf(),
        f.0.arena.holds(f.1),
        f.0.steps == emu.steps,
        forked(*emu, cand, value, dest, f.0, f.1),
{
    let mut m = emu.clone();
    let ghost c = m;
    m.pin_to(cand, value);
    let ghost p = m;
    let r = m.substitute(dest);
    proof {
        assert(fork_steps(*emu, cand, value, dest, c, p, m, r));
    }
    (m, r)
}

/// The code address that a destination is.
fn landing_of(pe: &Image, f: &Emulator, r: Ref) -> (t: Option<u64>)
    requires
        f.wf(),
        f.arena.holds(r),
    ensures
        t == landing(*pe, *f, r),
{
    match f.arena.as_const(r) {
        Some(t) => {
            if pe.is_executable(t) {
                Some(t)
            } else {
                None
            }
        },
        None => None,
    }
}

/// The path to what follows a task.
fn path_through(ancestors: &Vec<BlockId>, id: BlockId) -> (v: Vec<BlockId>)
    ensures
        v@ == ancestors@.push(id),
{
    let mut v = copy_list(ancestors);
    v.push(id);
    v
}

/// Whether some fork of a candidate does not lead to code.
pub open spec fn undecided(pe: Image, m: Emulator, cand: Ref, dest: Ref) -> bool {
    exists|value: u64, f: Emulator, r: Ref|
        value <= 1 && #[trigger] forked(m, cand, value, dest, f, r) && landing(pe, f, r) is None
}

/// What a branch on one bit leads to: one block or two.
pub open spec fn two_way_steps(
    pe: Image,
    m: Emulator,
    id: BlockId,
    above: Seq<BlockId>,
    dest: Ref,
    cand: Ref,
    f0: Emulator,
    r0: Ref,
    f1: Emulator,
    r1: Ref,
    q0: Seq<Task>,
    q1: Seq<Task>,
    t: Terminator,
) -> bool {
    &&& forked(m, cand, 0, dest, f0, r0)
    &&& forked(m, cand, 1, dest, f1, r1)
    &&& landing(pe, f0, r0) matches Some(t0) && landing(pe, f1, r1) matches Some(t1) && {
        let id0 = begins(f0, t0);
        let id1 = begins(f1, t1);
        if id0 == id1 {
            &&& q1.len() == q0.len() + 1
            &&& q1.take(q0.len() as int) == q0
            &&& continues_as(q1[q0.len() as int], f0, id0, id, above)
            &&& t == Terminator::Jump(id0)
        } else {
            &&& q1.len() == q0.len() + 2
            &&& q1.take(q0.len() as int) == q0
            &&& continues_as(q1[q0.len() as int], f1, id1, id, above)
            &&& continues_as(q1[q0.len() as int + 1], f0, id0, id, above)
            &&& t == (Terminator::Branch { predicate: cand, taken: id1, not_taken: id0 })
        }
    }
}

/// Whether candidate `k` decided a branch, after those before it did not.
pub open spec fn decided_at(
    pe: Image,
    m: Emulator,
    id: BlockId,
    above: Seq<BlockId>,
    dest: Ref,
    candidates: Seq<Ref>,
    k: int,
    q0: Seq<Task>,
    q1: Seq<Task>,
    t: Terminator,
) -> bool {
    &&& 0 <= k < candidates.len()
    &&& forall|i: int| 0 <= i < k ==> undecided(pe, m, #[trigger] candidates[i], dest)
    &&& exists|f0: Emulator, r0: Ref, f1: Emulator, r1: Ref| #[trigger]
        two_way_steps(pe, m, id, above, dest, candidates[k], f0, r0, f1, r1, q0, q1, t)
}

/// What trying the candidates of a two-way branch comes to.
pub open spec fn splits_two_way(
    pe: Image,
    m: Emulator,
    id: BlockId,
    above: Seq<BlockId>,
    dest: Ref,
    candidates: Seq<Ref>,
    q0: Seq<Task>,
    q1: Seq<Task>,
    t: Option<Terminator>,
) -> bool {
    match t {
        None => q1 == q0 && forall|i: int|
            0 <= i < candidates.len() ==> undecided(pe, m, #[trigger] candidates[i], dest),
        Some(t) => exists|k: int| #[trigger]
            decided_at(pe, m, id, above, dest, candidates, k, q0, q1, t),
    }
}

/// Whether the tasks of a queue can be run.
pub open spec fn queue_ok(q: Seq<Task>, steps: nat) -> bool {
    forall|i: int| 0 <= i < q.len() ==> (#[trigger] q[i]).emu.wf() && q[i].emu.steps <= steps
}

/// Try to resolve `dest` as a two-way branch on a single bit.
pub fn split_two_way<'a>(
    pe: &Image,
    emu: &Emulator<'a>,
    id: BlockId,
    ancestors: &Vec<BlockId>,
    dest: Ref,
    candidates: &Vec<Ref>,
    queue: &mut Vec<Task<'a>>,
) -> (t: Option<Terminator>)
    requires
        emu.wf(),
        emu.arena.holds(dest),
        forall|i: int|
            0 <= i < candidates@.len() ==> emu.arena.holds(#[trigger] candidates@[i]) && const_of(
                emu.arena.nodes@,
                candidates@[i],
            ) is None,
    ensures
        splits_two_way(
            *pe,
            *emu,
            id,
            ancestors@,
            dest,
            candidates@,
            old(queue)@,
            final(queue)@,
            t,
        ),
        forall|n: nat|
            emu.steps <= n && #[trigger] queue_ok(old(queue)@, n) ==> queue_ok(final(queue)@, n),
        t matches Some(x) ==> crate::ir::lower::terminator_held(emu.arena.nodes@, x),
{
    let ghost q0 = queue@;
    let mut k: usize = 0;
    while k < candidates.len()
        invariant
            k <= candidates@.len(),
            q0 == old(queue)@,
            queue@ == q0,
            emu.wf(),
            emu.arena.holds(dest),
            forall|i: int|
                0 <= i < candidates@.len() ==> emu.arena.holds(#[trigger] candidates@[i])
                    && const_of(emu.arena.nodes@, candidates@[i]) is None,
            forall|i: int| 0 <= i < k ==> undecided(*pe, *emu, #[trigger] candidates@[i], dest),
        decreases candidates@.len() - k,
    {
        let cand = candidates[k];
        let (f0, r0) = fork(emu, cand, 0, dest);
        let l0 = landing_of(pe, &f0, r0);
        let (f1, r1) = fork(emu, cand, 1, dest);
        let l1 = landing_of(pe, &f1, r1);
        let ghost g0 = f0;
        let ghost g1 = f1;
        if let Some(t0) = l0 {
            if let Some(t1) = l1 {
                let id0 = BlockId { handler: t0, vip: f0.current_vip() };
                let id1 = BlockId { handler: t1, vip: f1.current_vip() };
                if id0 == id1 {
                    queue.push(
                        Task {
                            emu: f0,
                            resume: t0,
                            id: id0,
                            from: Some(id),
                            ancestors: path_through(ancestors, id),
                        },
                    );
                    let t = Terminator::Jump(id0);
                    proof {
                        assert(queue@.take(q0.len() as int) =~= q0);
                        assert(two_way_steps(
                            *pe,
                            *emu,
                            id,
                            ancestors@,
                            dest,
                            cand,
                            g0,
                            r0,
                            g1,
                            r1,
                            q0,
                            queue@,
                            t,
                        ));
                        assert(decided_at(
                            *pe,
                            *emu,
                            id,
                            ancestors@,
                            dest,
                            candidates@,
                            k as int,
                            q0,
                            queue@,
                            t,
                        ));
                    }
                    return Some(t);
                }
                queue.push(
                    Task {
                        emu: f1,
                        resume: t1,
                        id: id1,
                        from: Some(id),
                        ancestors: path_through(ancestors, id),
                    },
                );
                queue.push(
                    Task {
                        emu: f0,
                        resume: t0,
                        id: id0,
                        from: Some(id),
                        ancestors: path_through(ancestors, id),
                    },
                );
                let t = Terminator::Branch { predicate: cand, taken: id1, not_taken: id0 };
                proof {
                    assert(queue@.take(q0.len() as int) =~= q0);
                    assert(two_way_steps(
                        *pe,
                        *emu,
                        id,
                        ancestors@,
                        dest,
                        cand,
                        g0,
                        r0,
                        g1,
                        r1,
                        q0,
                        queue@,
                        t,
                    ));
                    assert(decided_at(
                        *pe,
                        *emu,
                        id,
                        ancestors@,
                        dest,
                        candidates@,
                        k as int,
                        q0,
                        queue@,
                        t,
                    ));
                }
                return Some(t);
            }
        }
        proof {
            if l0 is None {
                assert(forked(*emu, cand, 0, dest, g0, r0));
            } else {
                assert(forked(*emu, cand, 1, dest, g1, r1));
            }
            assert(undecided(*pe, *emu, cand, dest));
        }
        k = k + 1;
    }
    None
}

/// Forks of a machine for the first values of an index, with what a destination becomes.
pub open spec fn forks_each(
    m: Emulator,
    idx: Ref,
    dest: Ref,
    fs: Seq<Emulator>,
    rs: Seq<Ref>,
) -> bool {
    &&& fs.len() == rs.len()
    &&& forall|v: int|
        0 <= v < fs.len() ==> forked(m, idx, v as u64, dest, #[trigger] fs[v], rs[v])
}

/// Whether every one of the first `k` destinations is constant.
pub open spec fn all_folded(fs: Seq<Emulator>, rs: Seq<Ref>, k: int) -> bool {
    forall|v: int| 0 <= v < k ==> const_of((#[trigger] fs[v]).arena.nodes@, rs[v]) is Some
}

/// The values among the first `k` whose destination is code.
pub open spec fn arms(pe: Image, fs: Seq<Emulator>, rs: Seq<Ref>, k: int) -> Seq<int>
    decreases k,
{
    if k <= 0 {
        Seq::empty()
    } else if landing(pe, fs[k - 1], rs[k - 1]) is Some {
        arms(pe, fs, rs, k - 1).push(k - 1)
    } else {
        arms(pe, fs, rs, k - 1)
    }
}

/// The block that the fork for a value begins.
pub open spec fn arm_id(pe: Image, fs: Seq<Emulator>, rs: Seq<Ref>, v: int) -> BlockId {
    match landing(pe, fs[v], rs[v]) {
        Some(t) => begins(fs[v], t),
        None => begins(fs[v], 0),
    }
}

/// The distinct blocks that the first `k` arms begin, in order of appearance.
pub open spec fn arm_targets(
    pe: Image,
    fs: Seq<Emulator>,
    rs: Seq<Ref>,
    vs: Seq<int>,
    k: int,
) -> Seq<BlockId>
    decreases k,
{
    if k <= 0 {
        Seq::empty()
    } else {
        let before = arm_targets(pe, fs, rs, vs, k - 1);
        let id = arm_id(pe, fs, rs, vs[k - 1]);
        if before.contains(id) {
            before
        } else {
            before.push(id)
        }
    }
}

/// Whether enumerating an index did not resolve a destination: for some value it stays
/// symbolic, or fewer than two values lead to code.
pub open spec fn enumeration_fails(
    pe: Image,
    m: Emulator,
    idx: Ref,
    span: u64,
    dest: Ref,
    fs: Seq<Emulator>,
    rs: Seq<Ref>,
) -> bool {
    &&& forks_each(m, idx, dest, fs, rs)
    &&& 1 <= fs.len() <= span + 1
    &&& all_folded(fs, rs, fs.len() - 1)
    &&& {
        ||| const_of(fs.last().arena.nodes@, rs.last()) is None
        ||| fs.len() == span + 1 && arms(pe, fs, rs, fs.len() as int).len() < 2
    }
}

/// Whether enumerating an index does not resolve a destination.
pub open spec fn unswitched(pe: Image, m: Emulator, idx: Ref, span: u64, dest: Ref) -> bool {
    exists|fs: Seq<Emulator>, rs: Seq<Ref>| #[trigger]
        enumeration_fails(pe, m, idx, span, dest, fs, rs)
}

/// What a branch on an index leads to: one task for each value that leads to code.
pub open spec fn switch_steps(
    pe: Image,
    m: Emulator,
    id: BlockId,
    above: Seq<BlockId>,
    idx: Ref,
    span: u64,
    dest: Ref,
    fs: Seq<Emulator>,
    rs: Seq<Ref>,
    q0: Seq<Task>,
    q1: Seq<Task>,
    t: Terminator,
) -> bool {
    let vs = arms(pe, fs, rs, span + 1);
    let ids = arm_targets(pe, fs, rs, vs, vs.len() as int);
    &&& forks_each(m, idx, dest, fs, rs)
    &&& fs.len() == span + 1
    &&& all_folded(fs, rs, span + 1)
    &&& vs.len() >= 2
    &&& q1.len() == q0.len() + vs.len()
    &&& q1.take(q0.len() as int) == q0
    &&& forall|j: int|
        0 <= j < vs.len() ==> continues_as(
            q1[q0.len() + j],
            fs[#[trigger] vs[j]],
            arm_id(pe, fs, rs, vs[j]),
            id,
            above,
        )
    &&& if ids.len() == 1 {
        t == Terminator::Jump(ids[0])
    } else {
        t matches Terminator::Switch { selector, targets } && selector == idx && targets@ == ids
    }
}

/// Whether index `k` resolved a branch, after those before it did not.
pub open spec fn switched_at(
    pe: Image,
    m: Emulator,
    id: BlockId,
    above: Seq<BlockId>,
    dest: Ref,
    indices: Seq<(Ref, u64)>,
    k: int,
    q0: Seq<Task>,
    q1: Seq<Task>,
    t: Terminator,
) -> bool {
    &&& 0 <= k < indices.len()
    &&& forall|i: int|
        0 <= i < k ==> unswitched(pe, m, (#[trigger] indices[i]).0, indices[i].1, dest)
    &&& exists|fs: Seq<Emulator>, rs: Seq<Ref>| #[trigger]
        switch_steps(pe, m, id, above, indices[k].0, indices[k].1, dest, fs, rs, q0, q1, t)
}

/// What trying the indices of a multi-way branch comes to.
pub open spec fn splits_multiway(
    pe: Image,
    m: Emulator,
    id: BlockId,
    above: Seq<BlockId>,
    dest: Ref,
    indices: Seq<(Ref, u64)>,
    q0: Seq<Task>,
    q1: Seq<Task>,
    t: Option<Terminator>,
) -> bool {
    match t {
        None => q1 == q0 && forall|i: int|
            0 <= i < indices.len() ==> unswitched(
                pe,
                m,
                (#[trigger] indices[i]).0,
                indices[i].1,
                dest,
            ),
        Some(t) => exists|k: int| #[trigger]
            switched_at(pe, m, id, above, dest, indices, k, q0, q1, t),
    }
}

proof fn lemma_arms_same(
    pe: Image,
    a: Seq<Emulator>,
    ra: Seq<Ref>,
    b: Seq<Emulator>,
    rb: Seq<Ref>,
    k: int,
)
    requires
        0 <= k <= a.len() == ra.len(),
        k <= b.len() == rb.len(),
        forall|i: int| 0 <= i < k ==> a[i] == b[i] && ra[i] == rb[i],
    ensures
        arms(pe, a, ra, k) == arms(pe, b, rb, k),
    decreases k,
{
    if k > 0 {
        lemma_arms_same(pe, a, ra, b, rb, k - 1);
    }
}

proof fn lemma_arms_inside(pe: Image, fs: Seq<Emulator>, rs: Seq<Ref>, k: int)
    requires
        0 <= k <= fs.len(),
    ensures
        arms(pe, fs, rs, k).len() <= k,
        forall|j: int|
            0 <= j < arms(pe, fs, rs, k).len() ==> 0 <= #[trigger] arms(pe, fs, rs, k)[j] < k
                && landing(pe, fs[arms(pe, fs, rs, k)[j]], rs[arms(pe, fs, rs, k)[j]]) is Some,
    decreases k,
{
    if k > 0 {
        lemma_arms_inside(pe, fs, rs, k - 1);
    }
}

/// Whether forks are those of the arms, each with the code address it leads to.
spec fn are_arms(
    pe: Image,
    emu: Emulator,
    fs: Seq<Emulator>,
    rs: Seq<Ref>,
    k: int,
    v: Seq<(Emulator, u64)>,
) -> bool {
    let vs = arms(pe, fs, rs, k);
    &&& v.len() == vs.len()
    &&& forall|j: int|
        0 <= j < v.len() ==> (#[trigger] v[j]).0 == fs[vs[j]] && landing(pe, fs[vs[j]], rs[vs[j]])
            == Some(v[j].1) && v[j].0.wf() && v[j].0.steps == emu.steps
}

/// Forks a machine for every value of an index; `None` where a destination stays symbolic.
fn enumerate_index<'a>(pe: &Image, emu: &Emulator<'a>, idx: Ref, span: u64, dest: Ref) -> (r: (
    Option<Vec<(Emulator<'a>, u64)>>,
    Ghost<Seq<Emulator<'a>>>,
    Ghost<Seq<Ref>>,
))
    requires
        emu.wf(),
        emu.arena.holds(idx),
        emu.arena.holds(dest),
        const_of(emu.arena.nodes@, idx) is None,
        span < u64::MAX,
    ensures
        forks_each(*emu, idx, dest, r.1@, r.2@),
        1 <= r.1@.len() <= span + 1,
        all_folded(r.1@, r.2@, r.1@.len() - 1),
        match r.0 {
            None => const_of(r.1@.last().arena.nodes@, r.2@.last()) is None,
            Some(v) => r.1@.len() == span + 1 && all_folded(r.1@, r.2@, span + 1) && are_arms(
                *pe,
                *emu,
                r.1@,
                r.2@,
                span + 1,
                v@,
            ),
        },
{
    let ghost mut fs: Seq<Emulator<'a>> = Seq::empty();
    let ghost mut rs: Seq<Ref> = Seq::empty();
    let mut out: Vec<(Emulator<'a>, u64)> = Vec::new();
    let mut value: u64 = 0;
    while value <= span
        invariant
            value <= span + 1,
            span < u64::MAX,
            emu.wf(),
            emu.arena.holds(idx),
            emu.arena.holds(dest),
            const_of(emu.arena.nodes@, idx) is None,
            fs.len() == value,
            forks_each(*emu, idx, dest, fs, rs),
            all_folded(fs, rs, value as int),
            are_arms(*pe, *emu, fs, rs, value as int, out@),
        decreases span + 1 - value,
    {
        let ghost fs0 = fs;
        let ghost rs0 = rs;
        let ghost out0 = out@;
        let (f, r) = fork(emu, idx, value, dest);
        proof {
            fs = fs.push(f);
            rs = rs.push(r);
            assert forall|v: int| 0 <= v < fs.len() implies forked(
                *emu,
                idx,
                v as u64,
                dest,
                #[trigger] fs[v],
                rs[v],
            ) by {
                if v < value {
                    assert(fs[v] == fs0[v] && rs[v] == rs0[v]);
                }
            }
            assert forall|v: int| 0 <= v < value implies const_of(
                (#[trigger] fs[v]).arena.nodes@,
                rs[v],
            ) is Some by {
                assert(fs[v] == fs0[v] && rs[v] == rs0[v]);
            }
            lemma_arms_same(*pe, fs0, rs0, fs, rs, value as int);
            lemma_arms_inside(*pe, fs0, rs0, value as int);
        }
        match f.arena.as_const(r) {
            Some(t) => {
                if pe.is_executable(t) {
                    out.push((f, t));
                }
            },
            None => {
                return (None, Ghost(fs), Ghost(rs));
            },
        }
        proof {
            let vs0 = arms(*pe, fs0, rs0, value as int);
            let vs = arms(*pe, fs, rs, value + 1);
            assert forall|j: int| 0 <= j < out@.len() implies (#[trigger] out@[j]).0 == fs[vs[j]]
                && landing(*pe, fs[vs[j]], rs[vs[j]]) == Some(out@[j].1) && out@[j].0.wf()
                && out@[j].0.steps == emu.steps by {
                if j < out0.len() {
                    assert(out@[j] == out0[j]);
                    assert(vs[j] == vs0[j]);
                    assert(fs[vs0[j]] == fs0[vs0[j]] && rs[vs0[j]] == rs0[vs0[j]]);
                }
            }
        }
        value = value + 1;
    }
    (Some(out), Ghost(fs), Ghost(rs))
}

/// Queues a task for each arm, and lists the distinct blocks they begin.
fn queue_arms<'a>(
    pe: &Image,
    emu: &Emulator<'a>,
    id: BlockId,
    ancestors: &Vec<BlockId>,
    mut found: Vec<(Emulator<'a>, u64)>,
    queue: &mut Vec<Task<'a>>,
    Ghost(fs): Ghost<Seq<Emulator<'a>>>,
    Ghost(rs): Ghost<Seq<Ref>>,
    Ghost(k): Ghost<int>,
) -> (targets: Vec<BlockId>)
    requires
        are_arms(*pe, *emu, fs, rs, k, found@),
    ensures
        targets@ == arm_targets(
            *pe,
            fs,
            rs,
            arms(*pe, fs, rs, k),
            arms(*pe, fs, rs, k).len() as int,
        ),
        final(queue)@.len() == old(queue)@.len() + arms(*pe, fs, rs, k).len(),
        final(queue)@.take(old(queue)@.len() as int) == old(queue)@,
        forall|j: int|
            0 <= j < arms(*pe, fs, rs, k).len() ==> continues_as(
                final(queue)@[old(queue)@.len() + j],
                fs[#[trigger] arms(*pe, fs, rs, k)[j]],
                arm_id(*pe, fs, rs, arms(*pe, fs, rs, k)[j]),
                id,
                ancestors@,
            ),
        forall|n: nat|
            emu.steps <= n && #[trigger] queue_ok(old(queue)@, n) ==> queue_ok(final(queue)@, n),
{
    let ghost q0 = queue@;
    let ghost all = found@;
    let ghost vs = arms(*pe, fs, rs, k);
    let ghost mut done: int = 0;
    let mut targets: Vec<BlockId> = Vec::new();
    proof {
        assert(queue@.take(q0.len() as int) =~= q0);
        assert(all.skip(0) =~= all);
    }
    while found.len() > 0
        invariant
            0 <= done <= all.len() == vs.len(),
            vs == arms(*pe, fs, rs, k),
            found@ == all.skip(done),
            are_arms(*pe, *emu, fs, rs, k, all),
            targets@ == arm_targets(*pe, fs, rs, vs, done),
            queue@.len() == q0.len() + done,
            queue@.take(q0.len() as int) == q0,
            forall|j: int|
                0 <= j < done ==> continues_as(
                    queue@[q0.len() + j],
                    fs[#[trigger] vs[j]],
                    arm_id(*pe, fs, rs, vs[j]),
                    id,
                    ancestors@,
                ),
            forall|n: nat|
                emu.steps <= n && #[trigger] queue_ok(q0, n) ==> queue_ok(queue@, n),
        decreases found@.len(),
    {
        let ghost q1 = queue@;
        proof {
            assert(found@[0] == all[done]);
        }
        let (f, t) = found.remove(0);
        let ghost g = f;
        proof {
            assert(found@ =~= all.skip(done + 1));
            assert(g == fs[vs[done]]);
        }
        let next = BlockId { handler: t, vip: f.current_vip() };
        proof {
            assert(next == arm_id(*pe, fs, rs, vs[done]));
        }
        if !contains_id(&targets, next) {
            targets.push(next);
        }
        queue.push(
            Task {
                emu: f,
                resume: t,
                id: next,
                from: Some(id),
                ancestors: path_through(ancestors, id),
            },
        );
        proof {
            assert(queue@.take(q0.len() as int) =~= q1.take(q0.len() as int));
            assert forall|j: int| 0 <= j < done + 1 implies continues_as(
                queue@[q0.len() + j],
                fs[#[trigger] vs[j]],
                arm_id(*pe, fs, rs, vs[j]),
                id,
                ancestors@,
            ) by {
                if j < done {
                    assert(queue@[q0.len() + j] == q1[q0.len() + j]);
                }
            }
            assert forall|n: nat| emu.steps <= n && #[trigger] queue_ok(q0, n) implies queue_ok(
                queue@,
                n,
            ) by {
                assert(queue_ok(q1, n));
                assert forall|i: int| 0 <= i < queue@.len() implies (#[trigger] queue@[i]).emu.wf()
                    && queue@[i].emu.steps <= n by {
                    if i < q1.len() {
                        assert(queue@[i] == q1[i]);
                    }
                }
            }
            done = done + 1;
        }
    }
    targets
}

/// Recover a virtualized switch by enumerating a narrow index. Candidate indices are
/// subexpressions whose provable range is small, so no reachable value is missed.
pub fn split_multiway<'a>(
    pe: &Image,
    emu: &Emulator<'a>,
    id: BlockId,
    ancestors: &Vec<BlockId>,
    dest: Ref,
    indices: &Vec<(Ref, u64)>,
    queue: &mut Vec<Task<'a>>,
) -> (t: Option<Terminator>)
    requires
        emu.wf(),
        emu.arena.holds(dest),
        forall|i: int|
            0 <= i < indices@.len() ==> emu.arena.holds((#[trigger] indices@[i]).0) && const_of(
                emu.arena.nodes@,
                indices@[i].0,
            ) is None && indices@[i].1 < u64::MAX,
    ensures
        splits_multiway(
            *pe,
            *emu,
            id,
            ancestors@,
            dest,
            indices@,
            old(queue)@,
            final(queue)@,
            t,
        ),
        forall|n: nat|
            emu.steps <= n && #[trigger] queue_ok(old(queue)@, n) ==> queue_ok(final(queue)@, n),
        t matches Some(x) ==> crate::ir::lower::terminator_held(emu.arena.nodes@, x),
{
    let ghost q0 = queue@;
    let mut k: usize = 0;
    while k < indices.len()
        invariant
            k <= indices@.len(),
            q0 == old(queue)@,
            queue@ == q0,
            emu.wf(),
            emu.arena.holds(dest),
            forall|i: int|
                0 <= i < indices@.len() ==> emu.arena.holds((#[trigger] indices@[i]).0) && const_of(
                    emu.arena.nodes@,
                    indices@[i].0,
                ) is None && indices@[i].1 < u64::MAX,
            forall|i: int|
                0 <= i < k ==> unswitched(
                    *pe,
                    *emu,
                    (#[trigger] indices@[i]).0,
                    indices@[i].1,
                    dest,
                ),
        decreases indices@.len() - k,
    {
        let (idx, span) = indices[k];
        proof {
            assert(indices@[k as int] == (idx, span));
        }
        let (found, Ghost(fs), Ghost(rs)) = enumerate_index(pe, emu, idx, span, dest);
        if let Some(v) = found {
            if v.len() >= 2 {
                let targets = queue_arms(
                    pe,
                    emu,
                    id,
                    ancestors,
                    v,
                    queue,
                    Ghost(fs),
                    Ghost(rs),
                    Ghost(span + 1),
                );
                let t = if targets.len() == 1 {
                    Terminator::Jump(targets[0])
                } else {
                    Terminator::Switch { selector: idx, targets }
                };
                proof {
                    assert(switch_steps(
                        *pe,
                        *emu,
                        id,
                        ancestors@,
                        idx,
                        span,
                        dest,
                        fs,
                        rs,
                        q0,
                        queue@,
                        t,
                    ));
                    assert(switched_at(
                        *pe,
                        *emu,
                        id,
                        ancestors@,
                        dest,
                        indices@,
                        k as int,
                        q0,
                        queue@,
                        t,
                    ));
                }
                return Some(t);
            }
        }
        proof {
            assert(enumeration_fails(*pe, *emu, idx, span, dest, fs, rs));
            assert(unswitched(*pe, *emu, idx, span, dest));
        }
        k = k + 1;
    }
    None
}

} // verus!
