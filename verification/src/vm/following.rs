//! Where evaluation goes on, under all inputs that lead to where it is.

use crate::ir::branch::{branch_steps, dispatch_steps};
use crate::ir::decode::Inst;
use crate::ir::effects::{condition_holds, flags_are_bits, jump_mnemonics, lemma_condition, numbered_cc};
use crate::ir::event::{Step, Stop};
use crate::ir::expr::{const_of, eval, has, width_of, Env, Ref};
use crate::ir::lift::Emulator;
use crate::ir::machine::{lemma_quiet, op_read, quiet, rebuilt};
use crate::ir::meaning::{bit_of, held, is_register, lemma_read};
use crate::ir::mnemonic::{kind, Kind, JMP};
use crate::ir::settle::{lemma_constant_value, lemma_join_grows};
use crate::ir::step::evaluates;
use crate::ir::subst::{
    agrees, byte_found, bytes_at, fold_agrees, fold_bytes, fold_held, fold_made, foldable, pin_of,
    pinned, pinning_to_the_value_changes_nothing,
};
use crate::ir::value::Width;
use crate::ir::x86::register_part;
use crate::vm::branching::{leads_here, lemma_pin_place, memory_gives};
use crate::vm::state::{byte_addr, byte_ok, join_bytes, Byte};
use vstd::prelude::*;

verus! {

/// What a machine finds in memory refers to nodes of its arena.
pub proof fn lemma_bytes_ok(m: Emulator, addr: u64, bytes: Seq<Byte>)
    requires
        m.wf(),
        bytes_at(m.state.mem@, *m.pe, addr, bytes),
    ensures
        forall|j: int| 0 <= j < bytes.len() ==> byte_ok(m.arena.nodes@, #[trigger] bytes[j]),
{
    assert forall|j: int| 0 <= j < bytes.len() implies byte_ok(
        m.arena.nodes@,
        #[trigger] bytes[j],
    ) by {
        assert(byte_found(m.state.mem@, *m.pe, byte_addr(addr, j), bytes[j]));
    }
}

/// Inputs that lead to a machine lead to it when nodes are added.
pub proof fn lemma_leads_on(m0: Emulator, m1: Emulator, e: Env)
    requires
        m0.wf(),
        quiet(m0, m1),
        leads_here(m0, e),
    ensures
        leads_here(m1, e),
{
    let n0 = m0.arena.nodes@;
    let n1 = m1.arena.nodes@;
    assert forall|i: int| 0 <= i < m1.pins@.len() implies eval(n1, (#[trigger] m1.pins@[i]).0, e)
        == m1.pins@[i].1 & width_of(n1, m1.pins@[i].0).mask() by {
        reveal(crate::ir::subst::pins_hold);
        let x = m0.pins@[i].0;
        assert(has(n0, x));
        assert(n1[x.idx as int] == n0[x.idx as int]);
    }
    assert(agrees(n1, m1.folded@, e)) by {
        assert forall|i: int| 0 <= i < m1.folded@.len() implies fold_agrees(
            n1,
            #[trigger] m1.folded@[i],
            e,
        ) by {
            let x = m0.folded@[i];
            assert(fold_agrees(n0, m0.folded@[i], e));
            reveal(fold_held);
            assert(has(n0, x.value));
            assert(eval(n1, x.value, e) == eval(n0, x.value, e));
        }
    }
    assert(memory_gives(m1, e)) by {
        assert forall|addr: u64, g: u32, w: Width, bytes: Seq<Byte>|
            #![trigger (e.mem)(addr, g, w), bytes_at(m1.state.mem@, *m1.pe, addr, bytes)]
            foldable(*m1.pe, addr, w) && bytes_at(m1.state.mem@, *m1.pe, addr, bytes) && bytes.len()
                == w.bytes() implies (e.mem)(addr, g, w) & w.mask() == join_bytes(n1, bytes, e) by {
            assert(bytes_at(m0.state.mem@, *m0.pe, addr, bytes));
            assert((e.mem)(addr, g, w) & w.mask() == join_bytes(n0, bytes, e));
            lemma_bytes_ok(m0, addr, bytes);
            lemma_join_grows(n0, n1, bytes, e);
        }
    }
}

/// Rebuilding a value with the pins keeps it, under all inputs that lead here.
pub proof fn rebuilding_keeps_the_value(m: Emulator, dest: Ref, f: Emulator, r: Ref, e: Env)
    requires
        m.wf(),
        m.arena.holds(dest),
        rebuilt(m, dest, f, r),
        leads_here(m, e),
    ensures
        eval(f.arena.nodes@, r, e) == eval(m.arena.nodes@, dest, e),
{
    let n0 = m.arena.nodes@;
    let n1 = f.arena.nodes@;
    let pins = m.pins@;
    assert(agrees(n1, f.folded@, e)) by {
        assert forall|i: int| 0 <= i < f.folded@.len() implies fold_agrees(
            n1,
            #[trigger] f.folded@[i],
            e,
        ) by {
            let x = f.folded@[i];
            if i < m.folded@.len() {
                assert(m.folded@[i] == x);
                assert(fold_agrees(n0, m.folded@[i], e));
                reveal(fold_held);
                assert(has(n0, x.value));
                assert(eval(n1, x.value, e) == eval(n0, x.value, e));
            } else {
                assert(fold_made(m.state.mem@, *m.pe, n1, x));
                reveal(fold_made);
                let bytes = choose|bytes: Seq<Byte>| #[trigger]
                    fold_bytes(m.state.mem@, *m.pe, n1, x, bytes);
                assert(bytes_at(m.state.mem@, *m.pe, x.addr, bytes));
                assert((e.mem)(x.addr, x.generation, x.width) & x.width.mask() == join_bytes(
                    n0,
                    bytes,
                    e,
                ));
                lemma_bytes_ok(m, x.addr, bytes);
                lemma_join_grows(n0, n1, bytes, e);
            }
        }
    }
    assert(eval(n1, r, e) == pinned(n1, dest, pins, e)) by {
        assert(dest == Ref { idx: dest.idx });
    }
    assert forall|x: Ref| pin_of(pins, x) is Some && has(n1, x) implies #[trigger] eval(n1, x, e)
        == pin_of(pins, x)->0 & width_of(n1, x).mask() by {
        lemma_pin_place(pins, x, 0);
        let i = choose|i: int| 0 <= i < pins.len() && #[trigger] pins[i] == (x, pin_of(pins, x)->0);
        reveal(crate::ir::subst::pins_hold);
        assert(has(n0, x));
        assert(n1[x.idx as int] == n0[x.idx as int]);
        assert(eval(n1, x, e) == eval(n0, x, e));
    }
    pinning_to_the_value_changes_nothing(n1, dest, pins, e);
    assert(eval(n1, dest, e) == eval(n0, dest, e));
}

/// An indirect `jmp` through a register goes where the register says, under all inputs that
/// lead here: evaluation goes on there, or a loop is closed there, or the block ends at a
/// branch whose destination is what the register holds. Where the register is a constant, the
/// destination is settled.
#[verifier::spinoff_prover]
pub proof fn an_indirect_jump_goes_where_its_register_says(
    m0: Emulator,
    inst: Inst,
    m1: Emulator,
    out: Step,
    e: Env,
)
    requires
        m0.wf(),
        evaluates(m0, inst, m1, out),
        !inst.seg_relative(),
        inst.head.mnemonic == JMP,
        is_register(inst, 0, Width::W64),
        inst.direct_target() is None,
        leads_here(m0, e),
    ensures
        match out {
            Step::Next(t) => t == held(m0, inst.ops@[0].register, e),
            Step::Stopped(Stop::Backedge { site, target, .. }) => {
                &&& site == inst.ip
                &&& target == held(m0, inst.ops@[0].register, e)
            },
            Step::Stopped(Stop::SymbolicBranch { site, dest }) => {
                &&& site == inst.ip
                &&& eval(m1.arena.nodes@, dest, e) == held(m0, inst.ops@[0].register, e)
            },
            _ => false,
        },
        register_part(inst.ops@[0].register) matches Some((base, _, _)) && const_of(
            m0.arena.nodes@,
            m0.state.reg(base),
        ) is Some ==> !(out matches Step::Stopped(Stop::SymbolicBranch { .. })),
        m1.state == m0.state,
        m1.events == m0.events,
{
    let (ma, d, mb, dest) = choose|ma: Emulator, d: Ref, mb: Emulator, dest: Ref| #[trigger]
        dispatch_steps(m0, inst, ma, d, mb, dest, m1, out);
    lemma_read(m0, inst, 0, Width::W64, ma, d, e);
    lemma_quiet(m0, ma);
    lemma_leads_on(m0, ma, e);
    rebuilding_keeps_the_value(ma, d, mb, dest, e);
    reveal(op_read);
    if const_of(mb.arena.nodes@, dest) is Some {
        lemma_constant_value(mb.arena.nodes@, dest, e);
    }
}

/// A conditional jump goes by its condition, under all inputs that lead here: to its target
/// where the condition holds, and else behind itself. Where that is not settled, the block
/// ends at a branch whose predicate is the condition.
#[verifier::spinoff_prover]
pub proof fn a_conditional_jump_is_decided_by_its_condition(
    m0: Emulator,
    inst: Inst,
    m1: Emulator,
    out: Step,
    n: int,
    to: u64,
    e: Env,
)
    requires
        m0.wf(),
        evaluates(m0, inst, m1, out),
        !inst.seg_relative(),
        0 <= n < 16,
        inst.head.mnemonic == jump_mnemonics()[n],
        inst.direct_target() == Some(to),
        flags_are_bits(m0, e),
        leads_here(m0, e),
    ensures
        match out {
            Step::Next(ip) => ip == if condition_holds(n, m0, e) {
                to
            } else {
                inst.head.next_ip
            },
            Step::Stopped(Stop::NativeBranch { site, predicate, taken, not_taken }) => {
                &&& site == inst.ip
                &&& taken == to
                &&& not_taken == inst.head.next_ip
                &&& eval(m1.arena.nodes@, predicate, e) == bit_of(condition_holds(n, m0, e))
            },
            _ => false,
        },
{
    let cc = numbered_cc(n);
    assert(kind(inst.head.mnemonic) == Kind::Jcc { cc });
    let (ma, c, p) = choose|ma: Emulator, c: Ref, p: Ref| #[trigger]
        branch_steps(m0, inst, cc, ma, c, m1, p, out);
    lemma_quiet(m0, ma);
    lemma_condition(m0, n, e);
    lemma_leads_on(m0, ma, e);
    rebuilding_keeps_the_value(ma, c, m1, p, e);
    if const_of(m1.arena.nodes@, p) is Some {
        lemma_constant_value(m1.arena.nodes@, p, e);
    }
}

} // verus!
