//! What follows a block: splitting a symbolic branch, or adopting what an earlier pass found.

use crate::ir::event::copy_list;
use crate::ir::expr::{const_of, op_of, Arena, Node, Op, Ref};
use crate::ir::flow::{first_index, ids};
use crate::ir::graph::{BlockId, Cfg, Terminator};
use crate::ir::lift::Emulator;
use crate::ir::lower::terminator_held;
use crate::ir::seed::same_machine;
use crate::ir::shape::{render, shape_text};
use crate::ir::text::{decimal_text, hex_text, push_decimal, push_hex};
use crate::ir::walk::{depends, is_leaf, leaves};
use crate::vm::candidates::{
    flag_candidates, grouped, is_narrow, live_bits, narrow_indices, narrowest_first,
};
use crate::vm::fork::{
    queue_ok, split_multiway, split_two_way, splits_multiway, splits_two_way, Task,
};
use crate::vm::image::Image;
use crate::vm::validate::adoption_covers_the_block;
use vstd::prelude::*;
use vstd::string::StringExecFns;

verus! {

/// How many inputs a report of an unresolved branch shows.
pub const SHOWN_LEAVES: usize = 4;

/// How deep a report shows an input.
pub const SHOWN_DEPTH: u32 = 14;

/// How deep a report shows a destination.
pub const DEST_DEPTH: u32 = 3;

/// Whether references are the inputs of a destination.
pub open spec fn inputs_of(ns: Seq<Node>, dest: Ref, ls: Seq<Ref>) -> bool {
    &&& ls.no_duplicates()
    &&& forall|x: Ref| #[trigger] ls.contains(x) <==> depends(ns, dest, x) && is_leaf(op_of(ns, x))
}

/// The first `k` inputs, as a report shows them.
pub open spec fn detail_text(ns: Seq<Node>, ls: Seq<Ref>, k: int) -> Seq<char>
    decreases k,
{
    if k <= 0 {
        Seq::empty()
    } else if k == 1 {
        shape_text(ns, ls[0], 0, SHOWN_DEPTH as nat)
    } else {
        detail_text(ns, ls, k - 1) + " | "@ + shape_text(ns, ls[k - 1], 0, SHOWN_DEPTH as nat)
    }
}

/// Whether one of the inputs is a register as the function was entered.
pub open spec fn on_arguments(ns: Seq<Node>, ls: Seq<Ref>) -> bool {
    exists|i: int| 0 <= i < ls.len() && op_of(ns, #[trigger] ls[i]) is InitReg
}

/// What is reported of a branch that could not be resolved: whether folding failed, or the
/// destination depends on what the function was given.
pub open spec fn unresolved_text(
    ns: Seq<Node>,
    site: u64,
    dest: Ref,
    candidates: nat,
    ls: Seq<Ref>,
) -> Seq<char> {
    let shown = if ls.len() < SHOWN_LEAVES {
        ls.len() as int
    } else {
        SHOWN_LEAVES as int
    };
    let tail = ": "@ + shape_text(ns, dest, 0, DEST_DEPTH as nat) + " [leaves: "@ + detail_text(
        ns,
        ls,
        shown,
    ) + "]"@;
    if on_arguments(ns, ls) {
        "argument-dependent indirect branch at "@ + hex_text(site) + tail
    } else {
        "unresolved branch at "@ + hex_text(site) + " ("@ + decimal_text(candidates as u64)
            + " candidates)"@ + tail
    }
}

fn report(a: &Arena, site: u64, dest: Ref, candidates: usize, ls: &Vec<Ref>) -> (out: String)
    requires
        a.wf(),
        a.holds(dest),
        forall|i: int| 0 <= i < ls@.len() ==> a.holds(#[trigger] ls@[i]),
    ensures
        out@ == unresolved_text(a.nodes@, site, dest, candidates as nat, ls@),
{
    let ghost ns = a.nodes@;
    let mut from_arguments: bool = false;
    let mut i: usize = 0;
    while i < ls.len()
        invariant
            i <= ls@.len(),
            a.wf(),
            ns == a.nodes@,
            forall|k: int| 0 <= k < ls@.len() ==> a.holds(#[trigger] ls@[k]),
            from_arguments == exists|k: int| 0 <= k < i && op_of(ns, #[trigger] ls@[k]) is InitReg,
        decreases ls@.len() - i,
    {
        let hit: bool = match *a.op(ls[i]) {
            Op::InitReg(_) => true,
            _ => false,
        };
        proof {
            if from_arguments {
                let k = choose|k: int| 0 <= k < i && op_of(ns, #[trigger] ls@[k]) is InitReg;
                assert(op_of(ns, ls@[k]) is InitReg);
            }
            if hit {
                assert(op_of(ns, ls@[i as int]) is InitReg);
            }
        }
        from_arguments = from_arguments || hit;
        i = i + 1;
    }
    let mut detail = String::new();
    let mut k: usize = 0;
    proof {
        assert(detail@ =~= detail_text(ns, ls@, 0));
    }
    while k < ls.len() && k < SHOWN_LEAVES
        invariant
            k <= ls@.len(),
            k <= SHOWN_LEAVES,
            a.wf(),
            ns == a.nodes@,
            forall|j: int| 0 <= j < ls@.len() ==> a.holds(#[trigger] ls@[j]),
            detail@ == detail_text(ns, ls@, k as int),
        decreases ls@.len() - k,
    {
        if k > 0 {
            detail.append(" | ");
        }
        let shown = render(a, ls[k], SHOWN_DEPTH);
        detail.append(shown.as_str());
        k = k + 1;
        proof {
            assert(detail@ =~= detail_text(ns, ls@, k as int));
        }
    }
    let mut out = String::new();
    if from_arguments {
        out.append("argument-dependent indirect branch at ");
        push_hex(&mut out, site);
    } else {
        out.append("unresolved branch at ");
        push_hex(&mut out, site);
        out.append(" (");
        push_decimal(&mut out, candidates as u64);
        out.append(" candidates)");
    }
    out.append(": ");
    let shown = render(a, dest, DEST_DEPTH);
    out.append(shown.as_str());
    out.append(" [leaves: ");
    out.append(detail.as_str());
    out.append("]");
    proof {
        assert(out@ =~= unresolved_text(ns, site, dest, candidates as nat, ls@));
    }
    out
}

/// Whether candidates are those of a destination, most likely first.
pub open spec fn candidates_of(ns: Seq<Node>, dest: Ref, cands: Seq<Ref>) -> bool {
    exists|i: int, j: int| #[trigger] grouped(ns, dest, cands, i, j)
}

/// Whether indices are those of a destination, narrowest first.
pub open spec fn indices_of(ns: Seq<Node>, dest: Ref, indices: Seq<(Ref, u64)>) -> bool {
    &&& narrowest_first(indices)
    &&& forall|x: (Ref, u64)| #[trigger]
        indices.contains(x) <==> depends(ns, dest, x.0) && is_narrow(ns, x.0) && x.1 == live_bits(
            ns,
            x.0,
        )
}

/// What splitting a symbolic branch comes to: the first bit that decides it, else the first
/// index that resolves it, else a report.
pub open spec fn split_steps(
    pe: Image,
    m: Emulator,
    id: BlockId,
    above: Seq<BlockId>,
    site: u64,
    dest: Ref,
    cands: Seq<Ref>,
    indices: Seq<(Ref, u64)>,
    ls: Seq<Ref>,
    q0: Seq<Task>,
    q1: Seq<Task>,
    t: Terminator,
) -> bool {
    let ns = m.arena.nodes@;
    &&& candidates_of(ns, dest, cands)
    &&& indices_of(ns, dest, indices)
    &&& inputs_of(ns, dest, ls)
    &&& {
        ||| splits_two_way(pe, m, id, above, dest, cands, q0, q1, Some(t))
        ||| splits_two_way(pe, m, id, above, dest, cands, q0, q0, None) && splits_multiway(
            pe,
            m,
            id,
            above,
            dest,
            indices,
            q0,
            q1,
            Some(t),
        )
        ||| {
            &&& splits_two_way(pe, m, id, above, dest, cands, q0, q0, None)
            &&& splits_multiway(pe, m, id, above, dest, indices, q0, q0, None)
            &&& q1 == q0
            &&& t matches Terminator::Unresolved { reason } && reason@ == unresolved_text(
                ns,
                site,
                dest,
                cands.len(),
                ls,
            )
        }
    }
}

/// Whether a symbolic branch is split so.
pub open spec fn splits(
    pe: Image,
    m: Emulator,
    id: BlockId,
    above: Seq<BlockId>,
    site: u64,
    dest: Ref,
    q0: Seq<Task>,
    q1: Seq<Task>,
    t: Terminator,
) -> bool {
    exists|cands: Seq<Ref>, indices: Seq<(Ref, u64)>, ls: Seq<Ref>| #[trigger]
        split_steps(pe, m, id, above, site, dest, cands, indices, ls, q0, q1, t)
}

/// Split a branch whose destination depends on what the guest computes.
pub fn split<'a>(
    pe: &Image,
    emu: &Emulator<'a>,
    id: BlockId,
    ancestors: &Vec<BlockId>,
    site: u64,
    dest: Ref,
    queue: &mut Vec<Task<'a>>,
) -> (t: Terminator)
    requires
        emu.wf(),
        emu.arena.holds(dest),
    ensures
        splits(*pe, *emu, id, ancestors@, site, dest, old(queue)@, final(queue)@, t),
        forall|n: nat|
            emu.steps <= n && #[trigger] queue_ok(old(queue)@, n) ==> queue_ok(final(queue)@, n),
        terminator_held(emu.arena.nodes@, t),
{
    let ghost q0 = queue@;
    let ghost ns = emu.arena.nodes@;
    let cands = flag_candidates(&emu.arena, dest);
    let indices = narrow_indices(&emu.arena, dest);
    let ls = leaves(&emu.arena, dest);
    proof {
        assert forall|i: int| 0 <= i < indices@.len() implies const_of(
            ns,
            (#[trigger] indices@[i]).0,
        ) is None && indices@[i].1 < u64::MAX by {
            assert(indices@.contains(indices@[i]));
        }
    }
    if let Some(t) = split_two_way(pe, emu, id, ancestors, dest, &cands, queue) {
        proof {
            assert(split_steps(
                *pe,
                *emu,
                id,
                ancestors@,
                site,
                dest,
                cands@,
                indices@,
                ls@,
                q0,
                queue@,
                t,
            ));
        }
        return t;
    }
    if let Some(t) = split_multiway(pe, emu, id, ancestors, dest, &indices, queue) {
        proof {
            assert(split_steps(
                *pe,
                *emu,
                id,
                ancestors@,
                site,
                dest,
                cands@,
                indices@,
                ls@,
                q0,
                queue@,
                t,
            ));
        }
        return t;
    }
    let t = Terminator::Unresolved { reason: report(&emu.arena, site, dest, cands.len(), &ls) };
    proof {
        assert(split_steps(
            *pe,
            *emu,
            id,
            ancestors@,
            site,
            dest,
            cands@,
            indices@,
            ls@,
            q0,
            queue@,
            t,
        ));
    }
    t
}

/// Whether a task goes on from another with a copy of its machine.
pub open spec fn resumed(t: Task, m: Emulator, id: BlockId, from: BlockId, above: Seq<BlockId>) -> bool {
    &&& same_machine(m, t.emu)
    &&& t.resume == id.handler
    &&& t.id == id
    &&& t.from == Some(from)
    &&& t.ancestors@ == above.push(from)
}

/// Whether tasks were queued for the blocks listed.
pub open spec fn resumed_all(
    q0: Seq<Task>,
    q1: Seq<Task>,
    m: Emulator,
    to: Seq<BlockId>,
    from: BlockId,
    above: Seq<BlockId>,
) -> bool {
    &&& q1.len() == q0.len() + to.len()
    &&& q1.take(q0.len() as int) == q0
    &&& forall|j: int|
        0 <= j < to.len() ==> resumed(q1[q0.len() + j], m, #[trigger] to[j], from, above)
}

/// The terminator that stands for one an earlier pass found, and the blocks to go on with.
/// Predicates and destinations belong to that pass, and are not carried over.
pub open spec fn adopted_as(t: Terminator) -> Option<(Terminator, Seq<BlockId>)> {
    match t {
        Terminator::Jump(to) => Some((Terminator::Jump(to), seq![to])),
        Terminator::Branch { taken, not_taken, .. } => Some(
            (Terminator::Adopted { taken, not_taken }, seq![taken, not_taken]),
        ),
        Terminator::Switch { targets, .. } => Some(
            (Terminator::AdoptedSwitch { targets }, targets@),
        ),
        Terminator::Backedge { target } => Some((Terminator::Backedge { target }, Seq::empty())),
        Terminator::TailCall { target } => Some((Terminator::TailCall { target }, Seq::empty())),
        Terminator::Return { .. } => Some((Terminator::AdoptedReturn, Seq::empty())),
        _ => None,
    }
}

/// What an earlier pass found for a block, where this pass ran at least as far.
pub open spec fn adoptable(known: Option<Cfg>, id: BlockId, cost: usize) -> Option<
    (Terminator, Seq<BlockId>),
> {
    match known {
        Some(cfg) => match first_index(ids(cfg.blocks@), id) {
            Some(k) if cost >= cfg.blocks@[k].cost => adopted_as(cfg.blocks@[k].terminator),
            _ => None,
        },
        None => None,
    }
}

/// What adopting an earlier pass's terminator comes to.
pub open spec fn adopts(
    known: Option<Cfg>,
    m: Emulator,
    id: BlockId,
    above: Seq<BlockId>,
    cost: usize,
    q0: Seq<Task>,
    q1: Seq<Task>,
    r: Option<Terminator>,
) -> bool {
    match adoptable(known, id, cost) {
        None => r is None && q1 == q0,
        Some(found) => r matches Some(t) && crate::ir::graph::same_terminator(t, found.0)
            && resumed_all(q0, q1, m, found.1, id, above),
    }
}

fn resume_at<'a>(
    emu: &Emulator<'a>,
    id: BlockId,
    ancestors: &Vec<BlockId>,
    to: BlockId,
    queue: &mut Vec<Task<'a>>,
)
    requires
        emu.wf(),
    ensures
        final(queue)@.len() == old(queue)@.len() + 1,
        final(queue)@.take(old(queue)@.len() as int) == old(queue)@,
        resumed(final(queue)@.last(), *emu, to, id, ancestors@),
        final(queue)@.last().emu.wf(),
        final(queue)@.last().emu.steps == emu.steps,
{
    let mut path = copy_list(ancestors);
    path.push(id);
    let ghost q0 = queue@;
    queue.push(
        Task { emu: emu.clone(), resume: to.handler, id: to, from: Some(id), ancestors: path },
    );
    proof {
        assert(queue@.take(q0.len() as int) =~= q0);
    }
}

fn resume_each<'a>(
    emu: &Emulator<'a>,
    id: BlockId,
    ancestors: &Vec<BlockId>,
    to: &Vec<BlockId>,
    queue: &mut Vec<Task<'a>>,
)
    requires
        emu.wf(),
    ensures
        resumed_all(old(queue)@, final(queue)@, *emu, to@, id, ancestors@),
        forall|n: nat|
            emu.steps <= n && #[trigger] queue_ok(old(queue)@, n) ==> queue_ok(final(queue)@, n),
{
    let ghost q0 = queue@;
    let mut k: usize = 0;
    proof {
        assert(queue@.take(q0.len() as int) =~= q0);
        assert(to@.take(0) =~= Seq::empty());
    }
    while k < to.len()
        invariant
            k <= to@.len(),
            emu.wf(),
            resumed_all(q0, queue@, *emu, to@.take(k as int), id, ancestors@),
            forall|n: nat|
                emu.steps <= n && #[trigger] queue_ok(q0, n) ==> queue_ok(queue@, n),
        decreases to@.len() - k,
    {
        let ghost q1 = queue@;
        resume_at(emu, id, ancestors, to[k], queue);
        proof {
            let was = to@.take(k as int);
            let now = to@.take(k + 1);
            assert(queue@.take(q0.len() as int) =~= q1.take(q0.len() as int)) by {
                assert(queue@.take(q1.len() as int) == q1);
                assert forall|i: int| 0 <= i < q0.len() implies queue@[i] == q1[i] by {
                    assert(queue@.take(q1.len() as int)[i] == q1[i]);
                }
            }
            assert forall|j: int| 0 <= j < now.len() implies resumed(
                queue@[q0.len() + j],
                *emu,
                #[trigger] now[j],
                id,
                ancestors@,
            ) by {
                if j < k {
                    assert(was[j] == now[j]);
                    assert(queue@.take(q1.len() as int)[q0.len() + j] == q1[q0.len() + j]);
                }
            }
            assert forall|n: nat| emu.steps <= n && #[trigger] queue_ok(q0, n) implies queue_ok(
                queue@,
                n,
            ) by {
                assert(queue_ok(q1, n));
                assert forall|i: int| 0 <= i < queue@.len() implies (#[trigger] queue@[i]).emu.wf()
                    && queue@[i].emu.steps <= n by {
                    if i < q1.len() {
                        assert(queue@.take(q1.len() as int)[i] == q1[i]);
                    }
                }
            }
        }
        k = k + 1;
    }
    proof {
        assert(to@.take(to@.len() as int) =~= to@);
    }
}

/// Re-use the terminator an earlier pass found for this block, queueing its successors with
/// the current machine. Already adopted terminators are not adopted again.
pub fn adopt_known<'a>(
    known: Option<&Cfg>,
    emu: &Emulator<'a>,
    id: BlockId,
    ancestors: &Vec<BlockId>,
    cost: usize,
    queue: &mut Vec<Task<'a>>,
) -> (r: Option<Terminator>)
    requires
        emu.wf(),
    ensures
        adopts(
            match known {
                Some(c) => Some(*c),
                None => None,
            },
            *emu,
            id,
            ancestors@,
            cost,
            old(queue)@,
            final(queue)@,
            r,
        ),
        forall|n: nat|
            emu.steps <= n && #[trigger] queue_ok(old(queue)@, n) ==> queue_ok(final(queue)@, n),
        r matches Some(t) ==> terminator_held(emu.arena.nodes@, t),
{
    let cfg = match known {
        Some(c) => c,
        None => {
            return None;
        },
    };
    let prev = match cfg.block(id) {
        Some(b) => b,
        None => {
            return None;
        },
    };
    if !adoption_covers_the_block(cost, prev.cost) {
        return None;
    }
    let ghost q0 = queue@;
    let mut to: Vec<BlockId> = Vec::new();
    let r = match &prev.terminator {
        Terminator::Jump(t) => {
            to.push(*t);
            proof {
                assert(to@ =~= seq![*t]);
            }
            Terminator::Jump(*t)
        },
        Terminator::Branch { taken, not_taken, .. } => {
            to.push(*taken);
            to.push(*not_taken);
            proof {
                assert(to@ =~= seq![*taken, *not_taken]);
            }
            Terminator::Adopted { taken: *taken, not_taken: *not_taken }
        },
        Terminator::Switch { targets, .. } => {
            to = copy_list(targets);
            Terminator::AdoptedSwitch { targets: copy_list(targets) }
        },
        Terminator::Backedge { target } => Terminator::Backedge { target: *target },
        Terminator::TailCall { target } => Terminator::TailCall { target: *target },
        Terminator::Return { .. } => Terminator::AdoptedReturn,
        _ => {
            return None;
        },
    };
    proof {
        assert(to@ =~= (adopted_as(prev.terminator)->0).1);
    }
    resume_each(emu, id, ancestors, &to, queue);
    Some(r)
}

} // verus!
