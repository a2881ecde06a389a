//! How a block ends, given why its evaluation stopped.

use crate::ir::branch::stop_held;
use crate::ir::event::Stop;
use crate::ir::expr::{const_of, has, op_of, op_same, width_of, Op, Ref};
use crate::ir::graph::{BlockId, Cfg, Terminator};
use crate::ir::lift::{lemma_state_grows, lemma_wf_grows, Emulator};
use crate::ir::lower::terminator_held;
use crate::ir::seed::same_machine;
use crate::ir::text::{decimal_text, hex_text, push_decimal, push_hex};
use crate::ir::value::Width;
use crate::vm::fork::{begins, continues_as, queue_ok, Task};
use crate::vm::image::Image;
use crate::vm::split::{adopt_known, adopts, split, splits};
use vstd::prelude::*;
use vstd::string::StringExecFns;

verus! {

/// A copy of a machine with one more pin.
pub open spec fn pin_steps(m: Emulator, cand: Ref, value: u64, c: Emulator, f: Emulator) -> bool {
    &&& same_machine(m, c)
    &&& f.pins@ == c.pins@.push((cand, value))
    &&& f == (Emulator { pins: f.pins, memo_pin_count: 0, ..c })
}

/// Whether `f` is a copy of `m` with one more pin.
pub open spec fn pinned_copy(m: Emulator, cand: Ref, value: u64, f: Emulator) -> bool {
    exists|c: Emulator| #[trigger] pin_steps(m, cand, value, c, f)
}

/// Both sides of a conditional jump whose targets are known: the state forks on the
/// predicate.
pub open spec fn native_steps(
    m: Emulator,
    id: BlockId,
    above: Seq<BlockId>,
    predicate: Ref,
    taken: u64,
    not_taken: u64,
    ft: Emulator,
    fn_: Emulator,
    q0: Seq<Task>,
    q1: Seq<Task>,
    t: Terminator,
) -> bool {
    &&& pinned_copy(m, predicate, 1, ft)
    &&& pinned_copy(m, predicate, 0, fn_)
    &&& q1.len() == q0.len() + 2
    &&& q1.take(q0.len() as int) == q0
    &&& continues_as(q1[q0.len() as int], ft, begins(ft, taken), id, above)
    &&& continues_as(q1[q0.len() as int + 1], fn_, begins(fn_, not_taken), id, above)
    &&& t == (Terminator::Branch {
        predicate,
        taken: begins(ft, taken),
        not_taken: begins(fn_, not_taken),
    })
}

/// A symbolic branch, split here or, failing that, as an earlier pass found it. Symbolizing
/// guest state can only lose folding power, so a failure here is an artefact of that rather
/// than a genuinely unresolvable branch.
pub open spec fn symbolic_steps(
    pe: Image,
    known: Option<Cfg>,
    m: Emulator,
    id: BlockId,
    above: Seq<BlockId>,
    site: u64,
    dest: Ref,
    cost: usize,
    q0: Seq<Task>,
    qa: Seq<Task>,
    ta: Terminator,
    r: Option<Terminator>,
    q1: Seq<Task>,
    t: Terminator,
) -> bool {
    &&& splits(pe, m, id, above, site, dest, q0, qa, ta)
    &&& if ta is Unresolved {
        &&& adopts(known, m, id, above, cost, qa, q1, r)
        &&& match r {
            Some(x) => t == x,
            None => t == ta,
        }
    } else {
        q1 == qa && t == ta
    }
}

pub open spec fn ends_native(
    m: Emulator,
    id: BlockId,
    above: Seq<BlockId>,
    predicate: Ref,
    taken: u64,
    not_taken: u64,
    q0: Seq<Task>,
    q1: Seq<Task>,
    t: Terminator,
) -> bool {
    exists|ft: Emulator, fn_: Emulator| #[trigger]
        native_steps(m, id, above, predicate, taken, not_taken, ft, fn_, q0, q1, t)
}

pub open spec fn ends_symbolic(
    pe: Image,
    known: Option<Cfg>,
    m: Emulator,
    id: BlockId,
    above: Seq<BlockId>,
    site: u64,
    dest: Ref,
    cost: usize,
    q0: Seq<Task>,
    q1: Seq<Task>,
    t: Terminator,
) -> bool {
    exists|qa: Seq<Task>, ta: Terminator, r: Option<Terminator>| #[trigger]
        symbolic_steps(pe, known, m, id, above, site, dest, cost, q0, qa, ta, r, q1, t)
}

/// Whether a terminator says why recovery failed.
pub open spec fn fails_with(t: Terminator, reason: Seq<char>) -> bool {
    t matches Terminator::Unresolved { reason: r } && r@ == reason
}

/// Why recovery of a block failed, where it stopped for a reason of that kind.
pub open spec fn failure_text(stop: Stop) -> Seq<char> {
    match stop {
        Stop::Unsupported { site, text } => "unsupported at "@ + hex_text(site) + ": "@ + text@,
        Stop::Unreadable { site } => "unreadable at "@ + hex_text(site),
        Stop::Budget { site } => "budget exhausted at "@ + hex_text(site),
        Stop::OutOfImage { site } => "left image at "@ + hex_text(site),
        Stop::Diverged { site, nodes } => "folding diverged at "@ + hex_text(site) + " ("@
            + decimal_text(nodes as u64) + " DAG nodes)"@,
        _ => Seq::empty(),
    }
}

/// A call that never returns: there is no destination, so an opaque stands for it.
pub open spec fn ends_in_call(m: Emulator, m1: Emulator, t: Terminator) -> bool {
    &&& m1 == (Emulator { arena: m1.arena, ..m })
    &&& m1.arena.continues(m.arena)
    &&& t matches Terminator::Return { dest } && has(m1.arena.nodes@, dest) && op_same(
        op_of(m1.arena.nodes@, dest),
        Op::Opaque("noreturn", m1.arena.opaque_counter),
    ) && width_of(m1.arena.nodes@, dest) == Width::W64
}

/// How a block ends, given why its evaluation stopped: the terminator and the tasks that
/// follow.
pub open spec fn ends(
    pe: Image,
    known: Option<Cfg>,
    m: Emulator,
    id: BlockId,
    above: Seq<BlockId>,
    stop: Stop,
    cost: usize,
    m1: Emulator,
    q0: Seq<Task>,
    q1: Seq<Task>,
    t: Terminator,
) -> bool {
    match stop {
        Stop::Return { dest, .. } => {
            &&& m1 == m
            &&& q1 == q0
            &&& t == match const_of(m.arena.nodes@, dest) {
                Some(c) if pe.executable_spec(c) => Terminator::TailCall { target: c },
                _ => Terminator::Return { dest },
            }
        },
        Stop::SymbolicBranch { site, dest } => m1 == m && ends_symbolic(
            pe,
            known,
            m,
            id,
            above,
            site,
            dest,
            cost,
            q0,
            q1,
            t,
        ),
        Stop::NativeBranch { predicate, taken, not_taken, .. } => m1 == m && ends_native(
            m,
            id,
            above,
            predicate,
            taken,
            not_taken,
            q0,
            q1,
            t,
        ),
        Stop::Backedge { target, vip, .. } => {
            &&& m1 == m
            &&& q1 == q0
            &&& t == (Terminator::Backedge { target: BlockId { handler: target, vip } })
        },
        Stop::NoReturn { .. } => q1 == q0 && ends_in_call(m, m1, t),
        _ => m1 == m && q1 == q0 && fails_with(t, failure_text(stop)),
    }
}

fn site_reason(prefix: &str, site: u64) -> (r: String)
    ensures
        r@ == prefix@ + hex_text(site),
{
    let mut out = String::new();
    out.append(prefix);
    push_hex(&mut out, site);
    proof {
        assert(out@ =~= prefix@ + hex_text(site));
    }
    out
}

fn copy_pinned<'a>(emu: &Emulator<'a>, cand: Ref, value: u64) -> (f: Emulator<'a>)
    requires
        emu.wf(),
        emu.arena.holds(cand),
        const_of(emu.arena.nodes@, cand) is None,
    ensures
        f.wf(),
        f.steps == emu.steps,
        pinned_copy(*emu, cand, value, f),
{
    let mut f = emu.clone();
    let ghost c = f;
    f.pin_to(cand, value);
    proof {
        assert(pin_steps(*emu, cand, value, c, f));
    }
    f
}

fn end_native<'a>(
    emu: &Emulator<'a>,
    id: BlockId,
    ancestors: &Vec<BlockId>,
    predicate: Ref,
    taken: u64,
    not_taken: u64,
    queue: &mut Vec<Task<'a>>,
) -> (t: Terminator)
    requires
        emu.wf(),
        emu.arena.holds(predicate),
        const_of(emu.arena.nodes@, predicate) is None,
    ensures
        ends_native(
            *emu,
            id,
            ancestors@,
            predicate,
            taken,
            not_taken,
            old(queue)@,
            final(queue)@,
            t,
        ),
        forall|n: nat|
            emu.steps <= n && #[trigger] queue_ok(old(queue)@, n) ==> queue_ok(final(queue)@, n),
        terminator_held(emu.arena.nodes@, t),
{
    let ghost q0 = queue@;
    let f_taken = copy_pinned(emu, predicate, 1);
    let f_not = copy_pinned(emu, predicate, 0);
    let ghost ft = f_taken;
    let ghost fn_ = f_not;
    let id_t = BlockId { handler: taken, vip: f_taken.current_vip() };
    let id_n = BlockId { handler: not_taken, vip: f_not.current_vip() };
    let mut path_t = crate::ir::event::copy_list(ancestors);
    path_t.push(id);
    let mut path_n = crate::ir::event::copy_list(ancestors);
    path_n.push(id);
    queue.push(
        Task { emu: f_taken, resume: taken, id: id_t, from: Some(id), ancestors: path_t },
    );
    queue.push(
        Task { emu: f_not, resume: not_taken, id: id_n, from: Some(id), ancestors: path_n },
    );
    let t = Terminator::Branch { predicate, taken: id_t, not_taken: id_n };
    proof {
        assert(queue@.take(q0.len() as int) =~= q0);
        assert(native_steps(
            *emu,
            id,
            ancestors@,
            predicate,
            taken,
            not_taken,
            ft,
            fn_,
            q0,
            queue@,
            t,
        ));
    }
    t
}

fn end_symbolic<'a>(
    pe: &Image,
    known: Option<&Cfg>,
    emu: &Emulator<'a>,
    id: BlockId,
    ancestors: &Vec<BlockId>,
    site: u64,
    dest: Ref,
    cost: usize,
    queue: &mut Vec<Task<'a>>,
) -> (t: Terminator)
    requires
        emu.wf(),
        emu.arena.holds(dest),
    ensures
        ends_symbolic(
            *pe,
            match known {
                Some(c) => Some(*c),
                None => None,
            },
            *emu,
            id,
            ancestors@,
            site,
            dest,
            cost,
            old(queue)@,
            final(queue)@,
            t,
        ),
        forall|n: nat|
            emu.steps <= n && #[trigger] queue_ok(old(queue)@, n) ==> queue_ok(final(queue)@, n),
        terminator_held(emu.arena.nodes@, t),
{
    let ghost q0 = queue@;
    let ghost k = match known {
        Some(c) => Some(*c),
        None => None,
    };
    let ta = split(pe, emu, id, ancestors, site, dest, queue);
    let ghost qa = queue@;
    let ghost was = ta;
    let failed: bool = match &ta {
        Terminator::Unresolved { .. } => true,
        _ => false,
    };
    if failed {
        let r = adopt_known(known, emu, id, ancestors, cost, queue);
        let ghost kept = r;
        let t = match r {
            Some(x) => x,
            None => ta,
        };
        proof {
            assert(symbolic_steps(
                *pe,
                k,
                *emu,
                id,
                ancestors@,
                site,
                dest,
                cost,
                q0,
                qa,
                was,
                kept,
                queue@,
                t,
            ));
        }
        t
    } else {
        proof {
            assert(symbolic_steps(
                *pe,
                k,
                *emu,
                id,
                ancestors@,
                site,
                dest,
                cost,
                q0,
                qa,
                was,
                None,
                queue@,
                ta,
            ));
        }
        ta
    }
}

/// How a block ends, given why its evaluation stopped.
pub fn end_block<'a>(
    pe: &Image,
    known: Option<&Cfg>,
    emu: &mut Emulator<'a>,
    id: BlockId,
    ancestors: &Vec<BlockId>,
    stop: &Stop,
    cost: usize,
    queue: &mut Vec<Task<'a>>,
) -> (t: Terminator)
    requires
        old(emu).wf(),
        stop_held(old(emu).arena.nodes@, *stop),
    ensures
        final(emu).wf(),
        final(emu).steps == old(emu).steps,
        final(emu).events == old(emu).events,
        final(emu).arena.continues(old(emu).arena),
        ends(
            *pe,
            match known {
                Some(c) => Some(*c),
                None => None,
            },
            *old(emu),
            id,
            ancestors@,
            *stop,
            cost,
            *final(emu),
            old(queue)@,
            final(queue)@,
            t,
        ),
        forall|n: nat|
            old(emu).steps <= n && #[trigger] queue_ok(old(queue)@, n) ==> queue_ok(
                final(queue)@,
                n,
            ),
        terminator_held(final(emu).arena.nodes@, t),
{
    let ghost m0 = *emu;
    match stop {
        Stop::Return { dest, .. } => {
            let d = *dest;
            match emu.arena.as_const(d) {
                Some(c) => {
                    if pe.is_executable(c) {
                        Terminator::TailCall { target: c }
                    } else {
                        Terminator::Return { dest: d }
                    }
                },
                None => Terminator::Return { dest: d },
            }
        },
        Stop::SymbolicBranch { site, dest } => end_symbolic(
            pe,
            known,
            emu,
            id,
            ancestors,
            *site,
            *dest,
            cost,
            queue,
        ),
        Stop::NativeBranch { predicate, taken, not_taken, .. } => end_native(
            emu,
            id,
            ancestors,
            *predicate,
            *taken,
            *not_taken,
            queue,
        ),
        Stop::Backedge { target, vip, .. } => Terminator::Backedge {
            target: BlockId { handler: *target, vip: *vip },
        },
        Stop::NoReturn { .. } => {
            let d = emu.arena.opaque("noreturn", Width::W64);
            proof {
                lemma_state_grows(m0.state, m0.arena.nodes@, emu.arena.nodes@);
                lemma_wf_grows(m0, *emu);
            }
            Terminator::Return { dest: d }
        },
        Stop::Unsupported { site, text } => {
            let mut reason = site_reason("unsupported at ", *site);
            reason.append(": ");
            reason.append(text.as_str());
            proof {
                assert(reason@ =~= failure_text(*stop));
            }
            Terminator::Unresolved { reason }
        },
        Stop::Unreadable { site } => Terminator::Unresolved {
            reason: site_reason("unreadable at ", *site),
        },
        Stop::Budget { site } => Terminator::Unresolved {
            reason: site_reason("budget exhausted at ", *site),
        },
        Stop::OutOfImage { site } => Terminator::Unresolved {
            reason: site_reason("left image at ", *site),
        },
        Stop::Diverged { site, nodes } => {
            let mut reason = site_reason("folding diverged at ", *site);
            reason.append(" (");
            push_decimal(&mut reason, *nodes as u64);
            reason.append(" DAG nodes)");
            proof {
                assert(reason@ =~= failure_text(*stop));
            }
            Terminator::Unresolved { reason }
        },
    }
}

} // verus!
