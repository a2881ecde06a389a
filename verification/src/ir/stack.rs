//! The stack and calls, by their mnemonics.

use crate::ir::access::{popped, popping_undoes_pushing, pushed, stack_moved};
use crate::ir::alu::{val, wid};
use crate::ir::arith::bt_steps;
use crate::ir::branch::{
    args_upto, call_done, call_paths, call_steps, guest_call_steps, ret_steps, vm_call_steps,
};
use crate::ir::decode::Inst;
use crate::ir::event::{Event, Step, Stop};
use crate::ir::expr::{const_of, eval, has, Env, Ref};
use crate::ir::fold::{bin_val, lemma_mask, wadd};
use crate::ir::lift::{Emulator, ARG_REGS};
use crate::ir::machine::{lemma_quiet, lemma_quiet_twice, quiet, stored};
use crate::ir::meaning::{
    flag_value, held, is_plain, is_register, lemma_read, lemma_reg_numbers, lemma_same_worth,
    lemma_written, worth,
};
use crate::ir::mnemonic::{BT, CALL, POP, PUSH, PUSHFQ, RET};
use crate::ir::scaling::{lemma_places, lemma_shr};
use crate::ir::step::evaluates;
use crate::ir::subst::{foldable, lemma_continues_twice};
use crate::ir::transfer::{pop_steps, push_steps, pushf_steps};
use crate::ir::value::{BinOp, Reg, Width};
use crate::ir::words::{as_signed, lemma_cut, lemma_extended, lemma_wide, range_of_bits};
use crate::ir::x86::register_part;
use crate::vm::state::{unpacking_undoes_packing, Flag};
use vstd::arithmetic::power2::pow2;
use vstd::prelude::*;

verus! {

/// What a 64-bit register holds, as a number.
pub open spec fn word_in(m: Emulator, r: Reg, e: Env) -> int {
    eval(m.arena.nodes@, m.state.reg(r), e) as int
}

/// Whether the last event of a machine is the store of a word, and the only new one.
pub open spec fn word_stored(m0: Emulator, m1: Emulator, at: int, value: int, site: u64, e: Env) -> bool {
    &&& m1.events@.len() == m0.events@.len() + 1
    &&& m1.events@.drop_last() == m0.events@
    &&& m1.events@.last() matches Event::Store { addr, value: v, width, site: s, .. }
    &&& width == Width::W64
    &&& s == site
    &&& eval(m1.arena.nodes@, addr, e) == at
    &&& eval(m1.arena.nodes@, v, e) == value
}

/// Whether every register but RSP is the same.
pub open spec fn only_moves_stack(m0: Emulator, m1: Emulator) -> bool {
    forall|r: Reg| r != Reg::Rsp ==> #[trigger] m1.state.reg(r) == m0.state.reg(r)
}

proof fn lemma_below(x: u64)
    ensures
        wadd(x, 0xffff_ffff_ffff_fff8) == (x - 8) % range_of_bits(Width::W64),
{
    lemma_wide(x, 0xffff_ffff_ffff_fff8);
    let n = range_of_bits(Width::W64);
    assert(x + 0xffff_ffff_ffff_fff8 == n * 1 + (x - 8));
    vstd::arithmetic::div_mod::lemma_mod_multiples_vanish(1, x - 8, n);
}

/// What is pushed lands below where RSP pointed.
proof fn lemma_pushed(m0: Emulator, value: Ref, site: u64, m1: Emulator, e: Env)
    requires
        m0.wf(),
        has(m0.arena.nodes@, value),
        pushed(m0, value, site, m1),
    ensures
        word_in(m1, Reg::Rsp, e) == (word_in(m0, Reg::Rsp, e) - 8) % range_of_bits(Width::W64),
        word_stored(m0, m1, word_in(m1, Reg::Rsp, e), val(m0, value, e) as int, site, e),
        only_moves_stack(m0, m1),
        m1.arena.continues(m0.arena),
        m1.state.flags@ == m0.state.flags@,
{
    reveal(pushed);
    let mid = choose|mid: Emulator| #[trigger]
        stack_moved(m0, 0xffff_ffff_ffff_fff8, mid) && stored(
            mid,
            mid.state.reg(Reg::Rsp),
            value,
            Width::W64,
            site,
            m1,
        );
    lemma_below(eval(m0.arena.nodes@, m0.state.reg(Reg::Rsp), e));
    lemma_reg_numbers(Reg::Rsp, Reg::Rsp);
    assert(m1.state.reg(Reg::Rsp) == mid.state.reg(Reg::Rsp));
    assert(eval(mid.arena.nodes@, value, e) == val(m0, value, e));
    assert(m1.events@.drop_last() =~= mid.events@);
    lemma_continues_twice(m0.arena, mid.arena, m1.arena);
    assert forall|r: Reg| r != Reg::Rsp implies #[trigger] m1.state.reg(r) == m0.state.reg(r) by {
        lemma_reg_numbers(r, Reg::Rsp);
    }
}

/// `push`: RSP moves down by eight, around the end, and what the operand is worth is stored
/// where it points. A narrow operand is stored with its sign.
#[verifier::spinoff_prover]
pub proof fn a_push_stores_below(
    m0: Emulator,
    inst: Inst,
    m1: Emulator,
    out: Step,
    w: Width,
    e: Env,
)
    requires
        m0.wf(),
        evaluates(m0, inst, m1, out),
        !inst.seg_relative(),
        inst.head.mnemonic == PUSH,
        is_plain(inst, 0, w),
    ensures
        out == Step::Next(inst.head.next_ip),
        word_in(m1, Reg::Rsp, e) == (word_in(m0, Reg::Rsp, e) - 8) % range_of_bits(Width::W64),
        word_stored(
            m0,
            m1,
            word_in(m1, Reg::Rsp, e),
            as_signed(worth(m0, inst, 0, w, e), w) % range_of_bits(Width::W64),
            inst.ip,
            e,
        ),
        only_moves_stack(m0, m1),
        m1.state.flags@ == m0.state.flags@,
{
    let (ma, v, mb, z) = choose|ma: Emulator, v: Ref, mb: Emulator, z: Ref| #[trigger]
        push_steps(m0, inst, ma, v, mb, z, m1);
    lemma_push_value(m0, inst, ma, v, mb, z, m1, w, e);
    lemma_pushed(mb, z, inst.ip, m1, e);
}

proof fn lemma_push_value(
    m0: Emulator,
    inst: Inst,
    ma: Emulator,
    v: Ref,
    mb: Emulator,
    z: Ref,
    m1: Emulator,
    w: Width,
    e: Env,
)
    requires
        m0.wf(),
        push_steps(m0, inst, ma, v, mb, z, m1),
        is_plain(inst, 0, w),
    ensures
        mb.wf(),
        quiet(m0, mb),
        has(mb.arena.nodes@, z),
        wid(mb, z) == Width::W64,
        val(mb, z, e) == as_signed(worth(m0, inst, 0, w, e), w) % range_of_bits(Width::W64),
        word_in(mb, Reg::Rsp, e) == word_in(m0, Reg::Rsp, e),
{
    lemma_read(m0, inst, 0, w, ma, v, e);
    lemma_quiet(m0, ma);
    lemma_quiet(ma, mb);
    lemma_quiet_twice(m0, ma, mb);
    let x = val(ma, v, e);
    lemma_extended(x, w);
    let y = crate::ir::fold::sign_extend_spec(x, w);
    lemma_mask(y, Width::W64.mask());
    assert(val(mb, z, e) == y & Width::W64.mask());
    lemma_reg_numbers(Reg::Rsp, Reg::Rsp);
    assert(has(m0.arena.nodes@, m0.state.regs@[Reg::Rsp.number() as int]));
}

/// `pop`: RSP moves up by eight, around the end, and no other register changes but the one
/// popped to.
#[verifier::spinoff_prover]
pub proof fn a_pop_moves_the_stack_up(
    m0: Emulator,
    inst: Inst,
    m1: Emulator,
    out: Step,
    to: Reg,
    e: Env,
)
    requires
        m0.wf(),
        evaluates(m0, inst, m1, out),
        !inst.seg_relative(),
        inst.head.mnemonic == POP,
        is_register(inst, 0, Width::W64),
        register_part(inst.ops@[0].register) == Some((to, 0u32, Width::W64)),
        to != Reg::Rsp,
    ensures
        out == Step::Next(inst.head.next_ip),
        word_in(m1, Reg::Rsp, e) == (word_in(m0, Reg::Rsp, e) + 8) % range_of_bits(Width::W64),
        forall|r: Reg|
            r != Reg::Rsp && r != to ==> #[trigger] m1.state.reg(r) == m0.state.reg(r),
        m1.state.mem@ == m0.state.mem@,
        m1.state.flags@ == m0.state.flags@,
{
    let (ma, v) = choose|ma: Emulator, v: Ref| #[trigger] pop_steps(m0, inst, ma, v, m1);
    lemma_popped(m0, inst.ip, ma, v, e);
    lemma_full(ma, v, e);
    lemma_written(ma, inst, 0, Width::W64, v, m1, e);
    assert(m1.state.reg(Reg::Rsp) == ma.state.reg(Reg::Rsp));
    assert(eval(m1.arena.nodes@, ma.state.reg(Reg::Rsp), e) == eval(
        ma.arena.nodes@,
        ma.state.reg(Reg::Rsp),
        e,
    )) by {
        lemma_stack_held(m0, inst.ip, ma, v);
    }
}

proof fn lemma_full(m: Emulator, v: Ref, e: Env)
    ensures
        val(m, v, e) <= Width::W64.mask(),
{
}

proof fn lemma_stack_held(m0: Emulator, site: u64, m1: Emulator, v: Ref)
    requires
        m0.wf(),
        popped(m0, site, m1, v),
    ensures
        has(m1.arena.nodes@, m1.state.reg(Reg::Rsp)),
{
    reveal(popped);
}

proof fn lemma_popped(m0: Emulator, site: u64, m1: Emulator, v: Ref, e: Env)
    requires
        m0.wf(),
        popped(m0, site, m1, v),
    ensures
        word_in(m1, Reg::Rsp, e) == (word_in(m0, Reg::Rsp, e) + 8) % range_of_bits(Width::W64),
        only_moves_stack(m0, m1),
        m1.state.regs@.len() == 16,
        m1.state.mem@ == m0.state.mem@,
        m1.state.flags@ == m0.state.flags@,
{
    reveal(popped);
    let mid = choose|mid: Emulator| #[trigger]
        crate::ir::machine::loaded(m0, m0.state.reg(Reg::Rsp), Width::W64, site, mid, v)
            && stack_moved(mid, 8, m1);
    lemma_wide(eval(m0.arena.nodes@, m0.state.reg(Reg::Rsp), e), 8);
    lemma_reg_numbers(Reg::Rsp, Reg::Rsp);
    assert(has(m0.arena.nodes@, m0.state.regs@[Reg::Rsp.number() as int]));
    assert(mid.state.regs@ == m0.state.regs@);
    assert forall|r: Reg| r != Reg::Rsp implies #[trigger] m1.state.reg(r) == m0.state.reg(r) by {
        lemma_reg_numbers(r, Reg::Rsp);
    }
}

/// `push` and `pop`: the register popped to holds what was pushed, and RSP is back where it
/// was. The stack is at an address that is known, and no one else writes there.
#[verifier::spinoff_prover]
pub proof fn a_pop_gives_back_the_push(
    m0: Emulator,
    first: Inst,
    m1: Emulator,
    out1: Step,
    second: Inst,
    m2: Emulator,
    out2: Step,
    w: Width,
    to: Reg,
    e: Env,
)
    requires
        m0.wf(),
        m1.wf(),
        evaluates(m0, first, m1, out1),
        evaluates(m1, second, m2, out2),
        !first.seg_relative(),
        !second.seg_relative(),
        first.head.mnemonic == PUSH,
        is_plain(first, 0, w),
        second.head.mnemonic == POP,
        register_part(second.ops@[0].register) == Some((to, 0u32, Width::W64)),
        is_register(second, 0, Width::W64),
        to != Reg::Rsp,
        const_of(m1.arena.nodes@, m1.state.reg(Reg::Rsp)) matches Some(a) && foldable(
            *m0.pe,
            a,
            Width::W64,
        ),
    ensures
        word_in(m2, to, e) == as_signed(worth(m0, first, 0, w, e), w) % range_of_bits(Width::W64),
        word_in(m2, Reg::Rsp, e) == word_in(m0, Reg::Rsp, e),
{
    let (ma, v, mb, z) = choose|ma: Emulator, v: Ref, mb: Emulator, z: Ref| #[trigger]
        push_steps(m0, first, ma, v, mb, z, m1);
    lemma_push_value(m0, first, ma, v, mb, z, m1, w, e);
    lemma_pushed_setup(mb, z, first.ip, m1);
    let (mc, u) = choose|mc: Emulator, u: Ref| #[trigger] pop_steps(m1, second, mc, u, m2);
    popping_undoes_pushing(mb, z, first.ip, m1, second.ip, mc, u, e);
    lemma_popped(m1, second.ip, mc, u, e);
    lemma_full(mc, u, e);
    lemma_written(mc, second, 0, Width::W64, u, m2, e);
    lemma_stack_held(m1, second.ip, mc, u);
    assert(m2.state.reg(Reg::Rsp) == mc.state.reg(Reg::Rsp));
    let full = eval(m2.arena.nodes@, m2.state.reg(to), e) as int;
    vstd::arithmetic::div_mod::lemma_small_mod(full as nat, range_of_bits(Width::W64) as nat);
}

proof fn lemma_pushed_setup(m0: Emulator, value: Ref, site: u64, m1: Emulator)
    requires
        m0.wf(),
        m1.wf(),
        pushed(m0, value, site, m1),
    ensures
        crate::ir::machine::goes_on(m0, m1),
{
    reveal(pushed);
    let mid = choose|mid: Emulator| #[trigger]
        stack_moved(m0, 0xffff_ffff_ffff_fff8, mid) && stored(
            mid,
            mid.state.reg(Reg::Rsp),
            value,
            Width::W64,
            site,
            m1,
        );
    lemma_continues_twice(m0.arena, mid.arena, m1.arena);
}

/// `push` and `ret`: evaluation stops at a return to what was pushed.
#[verifier::spinoff_prover]
pub proof fn a_return_goes_to_what_was_pushed(
    m0: Emulator,
    first: Inst,
    m1: Emulator,
    out1: Step,
    second: Inst,
    m2: Emulator,
    out2: Step,
    w: Width,
    e: Env,
)
    requires
        m0.wf(),
        m1.wf(),
        evaluates(m0, first, m1, out1),
        evaluates(m1, second, m2, out2),
        !first.seg_relative(),
        !second.seg_relative(),
        first.head.mnemonic == PUSH,
        is_plain(first, 0, w),
        second.head.mnemonic == RET,
        const_of(m1.arena.nodes@, m1.state.reg(Reg::Rsp)) matches Some(a) && foldable(
            *m0.pe,
            a,
            Width::W64,
        ),
    ensures
        out2 matches Step::Stopped(Stop::Return { site, dest }) && site == second.ip && eval(
            m2.arena.nodes@,
            dest,
            e,
        ) == as_signed(worth(m0, first, 0, w, e), w) % range_of_bits(Width::W64),
        only_moves_stack(m0, m2),
        second.head.op_count == 0 ==> word_in(m2, Reg::Rsp, e) == word_in(m0, Reg::Rsp, e),
        second.head.op_count > 0 ==> word_in(m2, Reg::Rsp, e) == (word_in(m0, Reg::Rsp, e)
            + second.ops@[0].immediate as int % 0x1_0000) % range_of_bits(Width::W64),
{
    let (ma, v, mb, z) = choose|ma: Emulator, v: Ref, mb: Emulator, z: Ref| #[trigger]
        push_steps(m0, first, ma, v, mb, z, m1);
    lemma_push_value(m0, first, ma, v, mb, z, m1, w, e);
    lemma_pushed_setup(mb, z, first.ip, m1);
    lemma_pushed(mb, z, first.ip, m1, e);
    let (mc, u) = choose|mc: Emulator, u: Ref| #[trigger] ret_steps(m1, second, mc, u, m2, out2);
    popping_undoes_pushing(mb, z, first.ip, m1, second.ip, mc, u, e);
    lemma_popped(m1, second.ip, mc, u, e);
    lemma_popped_held(m1, second.ip, mc, u);
    if second.head.op_count > 0 {
        let d = second.ops@[0].immediate;
        lemma_cut(d, Width::W16);
        lemma_wide(eval(mc.arena.nodes@, mc.state.reg(Reg::Rsp), e), d & 0xffff);
        lemma_reg_numbers(Reg::Rsp, Reg::Rsp);
        assert forall|r: Reg| r != Reg::Rsp implies #[trigger] m2.state.reg(r) == m0.state.reg(
            r,
        ) by {
            lemma_reg_numbers(r, Reg::Rsp);
            assert(mc.state.reg(r) == m1.state.reg(r));
            assert(m1.state.reg(r) == mb.state.reg(r));
        }
    } else {
        assert forall|r: Reg| r != Reg::Rsp implies #[trigger] m2.state.reg(r) == m0.state.reg(
            r,
        ) by {
            assert(mc.state.reg(r) == m1.state.reg(r));
            assert(m1.state.reg(r) == mb.state.reg(r));
        }
    }
}

proof fn lemma_popped_held(m0: Emulator, site: u64, m1: Emulator, v: Ref)
    requires
        m0.wf(),
        popped(m0, site, m1, v),
    ensures
        has(m1.arena.nodes@, v),
{
    reveal(popped);
    let mid = choose|mid: Emulator| #[trigger]
        crate::ir::machine::loaded(m0, m0.state.reg(Reg::Rsp), Width::W64, site, mid, v)
            && stack_moved(mid, 8, m1);
}

/// A direct `call` into the VM section is followed: evaluation goes on at the target, and the
/// address behind the call is on the stack.
#[verifier::spinoff_prover]
pub proof fn a_call_into_the_vm_is_followed(
    m0: Emulator,
    inst: Inst,
    m1: Emulator,
    out: Step,
    to: u64,
    e: Env,
)
    requires
        m0.wf(),
        evaluates(m0, inst, m1, out),
        !inst.seg_relative(),
        inst.head.mnemonic == CALL,
        inst.direct_target() == Some(to),
        m0.pe.is_executable(to),
        m0.vm_range.0 <= to < m0.vm_range.1,
    ensures
        out == Step::Next(to),
        word_in(m1, Reg::Rsp, e) == (word_in(m0, Reg::Rsp, e) - 8) % range_of_bits(Width::W64),
        word_stored(
            m0,
            m1,
            word_in(m1, Reg::Rsp, e),
            inst.head.next_ip as int,
            inst.ip,
            e,
        ),
        only_moves_stack(m0, m1),
{
    let (ma, slot, mb, target) = choose|
        ma: Emulator,
        slot: Option<u64>,
        mb: Emulator,
        target: Option<u64>,
    | #[trigger] call_paths(m0, inst, ma, slot, mb, target, m1, out);
    assert(mb == m0 && target == Some(to));
    let (mc, r) = choose|mc: Emulator, r: Ref| #[trigger]
        vm_call_steps(m0, inst, to, mc, r, m1, out);
    lemma_quiet(m0, mc);
    lemma_reg_numbers(Reg::Rsp, Reg::Rsp);
    assert(has(m0.arena.nodes@, m0.state.regs@[Reg::Rsp.number() as int]));
    lemma_pushed(mc, r, inst.ip, m1, e);
    assert(val(mc, r, e) == inst.head.next_ip);
}

/// The registers a callee may change.
pub open spec fn callee_changes(r: Reg) -> bool {
    r == Reg::Rax || r == Reg::Rcx || r == Reg::Rdx || r == Reg::R8 || r == Reg::R9 || r == Reg::R10
        || r == Reg::R11
}

/// Whether a register carries one of the first arguments.
pub open spec fn carries_argument(r: Reg) -> bool {
    r == Reg::Rcx || r == Reg::Rdx || r == Reg::R8 || r == Reg::R9
}

proof fn lemma_args(m: Emulator, k: int)
    requires
        0 <= k <= 4,
    ensures
        forall|r: Reg, v: Ref| #[trigger]
            args_upto(m, k).contains((r, v)) <==> (m.written_args@.contains(r) && v == m.state.reg(r)
                && exists|j: int| 0 <= j < k && ARG_REGS@[j] == r),
    decreases k,
{
    if k > 0 {
        lemma_args(m, k - 1);
        let r0 = ARG_REGS@[k - 1];
        let before = args_upto(m, k - 1);
        let now = args_upto(m, k);
        assert forall|r: Reg, v: Ref| #[trigger] now.contains((r, v)) <==> (
        m.written_args@.contains(r) && v == m.state.reg(r) && exists|j: int|
            0 <= j < k && ARG_REGS@[j] == r) by {
            if before.contains((r, v)) {
                let i = choose|i: int| 0 <= i < before.len() && before[i] == (r, v);
                assert(now[i] == (r, v));
                let j = choose|j: int| 0 <= j < k - 1 && ARG_REGS@[j] == r;
                assert(0 <= j < k);
            }
            if now.contains((r, v)) && !before.contains((r, v)) {
                let i = choose|i: int| 0 <= i < now.len() && now[i] == (r, v);
                if i < before.len() {
                    assert(before[i] == (r, v));
                }
                assert(r == r0);
                assert(ARG_REGS@[k - 1] == r);
            }
            if m.written_args@.contains(r) && v == m.state.reg(r) && (exists|j: int|
                0 <= j < k && ARG_REGS@[j] == r) {
                let j = choose|j: int| 0 <= j < k && ARG_REGS@[j] == r;
                if j == k - 1 {
                    assert(now[before.len() as int] == (r, v));
                } else {
                    assert(0 <= j < k - 1);
                    assert(before.contains((r, v)));
                }
            }
        }
    }
}

/// Any other direct `call` is recorded with its target, and with the argument registers that
/// were written, each with what it holds. What a callee must keep is kept, and evaluation goes
/// on behind the call or ends there.
#[verifier::spinoff_prover]
#[verifier::rlimit(40)]
pub proof fn a_call_is_recorded_with_its_arguments(
    m0: Emulator,
    inst: Inst,
    m1: Emulator,
    out: Step,
    to: u64,
    e: Env,
)
    requires
        m0.wf(),
        evaluates(m0, inst, m1, out),
        !inst.seg_relative(),
        inst.head.mnemonic == CALL,
        inst.direct_target() == Some(to),
        m0.pe.is_executable(to),
        !(m0.vm_range.0 <= to < m0.vm_range.1),
    ensures
        out == Step::Next(inst.head.next_ip) || out == Step::Stopped(
            Stop::NoReturn { site: inst.ip },
        ),
        m1.events@.len() == m0.events@.len() + 1,
        m1.events@.drop_last() == m0.events@,
        m1.events@.last() is Call,
        m1.events@.last()->Call_target matches Some(t) && eval(m1.arena.nodes@, t, e) == to,
        m1.events@.last()->Call_site == inst.ip,
        forall|r: Reg, v: Ref| #[trigger]
            m1.events@.last()->Call_args@.contains((r, v)) <==> (carries_argument(r)
                && m0.written_args@.contains(r) && v == m0.state.reg(r)),
        forall|r: Reg| !callee_changes(r) ==> #[trigger] m1.state.reg(r) == m0.state.reg(r),
        m1.state.mem@ == m0.state.mem@,
        m1.written_args@.len() == 0,
{
    let (ma, slot, mb, target) = choose|
        ma: Emulator,
        slot: Option<u64>,
        mb: Emulator,
        target: Option<u64>,
    | #[trigger] call_paths(m0, inst, ma, slot, mb, target, m1, out);
    assert(mb == m0 && target == Some(to));
    let (mc, t) = choose|mc: Emulator, t: Option<Ref>| #[trigger]
        guest_call_steps(m0, inst, slot, target, mc, t, m1, out);
    let (mid, ret, args) = choose|mid: Emulator, ret: Option<Ref>, args: Vec<(Reg, Ref)>| #[trigger]
        call_steps(mc, t, inst.ip, slot, mid, ret, args, m1);
    reveal(call_done);
    assert(val(mc, t->0, e) == to);
    assert(m1.events@.drop_last() =~= mid.events@);
    lemma_args(mc, 4);
    assert(ARG_REGS@[0] == Reg::Rcx && ARG_REGS@[1] == Reg::Rdx && ARG_REGS@[2] == Reg::R8
        && ARG_REGS@[3] == Reg::R9);
    assert(eval(m1.arena.nodes@, t->0, e) == to);
}

/// `pushfq`: the word stored holds each flag at its place, carry at 0, parity at 2, adjust at
/// 4, zero at 6, sign at 7, direction at 10 and overflow at 11, and the bit at 1 that is
/// always set.
#[verifier::spinoff_prover]
pub proof fn pushed_flags_stand_at_their_places(
    m0: Emulator,
    inst: Inst,
    m1: Emulator,
    out: Step,
    e: Env,
)
    requires
        m0.wf(),
        evaluates(m0, inst, m1, out),
        !inst.seg_relative(),
        inst.head.mnemonic == PUSHFQ,
        forall|f: Flag| 0 <= #[trigger] flag_value(m0, f, e) <= 1,
    ensures
        out == Step::Next(inst.head.next_ip),
        word_stored(
            m0,
            m1,
            (word_in(m0, Reg::Rsp, e) - 8) % range_of_bits(Width::W64),
            2 + flag_value(m0, Flag::Cf, e) + 4 * flag_value(m0, Flag::Pf, e) + 0x10 * flag_value(
                m0,
                Flag::Af,
                e,
            ) + 0x40 * flag_value(m0, Flag::Zf, e) + 0x80 * flag_value(m0, Flag::Sf, e) + 0x400
                * flag_value(m0, Flag::Df, e) + 0x800 * flag_value(m0, Flag::Of, e),
            inst.ip,
            e,
        ),
        only_moves_stack(m0, m1),
{
    let (ma, v) = choose|ma: Emulator, v: Ref| #[trigger] pushf_steps(m0, inst, ma, v, m1);
    lemma_quiet(m0, ma);
    lemma_reg_numbers(Reg::Rsp, Reg::Rsp);
    assert(has(m0.arena.nodes@, m0.state.regs@[Reg::Rsp.number() as int]));
    lemma_pushed(ma, v, inst.ip, m1, e);
    unpacking_undoes_packing(
        flag_value(m0, Flag::Cf, e) as u64,
        flag_value(m0, Flag::Pf, e) as u64,
        flag_value(m0, Flag::Af, e) as u64,
        flag_value(m0, Flag::Zf, e) as u64,
        flag_value(m0, Flag::Sf, e) as u64,
        flag_value(m0, Flag::Of, e) as u64,
        flag_value(m0, Flag::Df, e) as u64,
    );
    assert(val(ma, v, e) == crate::vm::state::packed_value(
        m0.arena.nodes@,
        m0.state.flags@,
        e,
    ));
}

/// `bt` of a 32-bit or 64-bit register: the carry becomes the binary digit that the second
/// operand counts to, around the end.
#[verifier::spinoff_prover]
#[verifier::rlimit(40)]
pub proof fn a_bit_test_gives_the_digit(
    m0: Emulator,
    inst: Inst,
    m1: Emulator,
    out: Step,
    w: Width,
    e: Env,
)
    requires
        m0.wf(),
        evaluates(m0, inst, m1, out),
        !inst.seg_relative(),
        inst.head.mnemonic == BT,
        w == Width::W32 || w == Width::W64,
        inst.op_width_spec(0) == w,
        is_register(inst, 0, w),
        is_plain(inst, 1, w) || is_plain(inst, 1, Width::W8),
    ensures
        out == Step::Next(inst.head.next_ip),
        is_plain(inst, 1, w) ==> flag_value(m1, Flag::Cf, e) == held(
            m0,
            inst.ops@[0].register,
            e,
        ) / pow2((worth(m0, inst, 1, w, e) % w.bits() as int) as nat) as int % 2,
        is_plain(inst, 1, Width::W8) ==> flag_value(m1, Flag::Cf, e) == held(
            m0,
            inst.ops@[0].register,
            e,
        ) / pow2((worth(m0, inst, 1, Width::W8, e) % w.bits() as int) as nat) as int % 2,
        m1.state.regs@ == m0.state.regs@,
        forall|f: Flag| f != Flag::Cf ==> #[trigger] m1.state.flag(f) == m0.state.flag(f),
{
    let (ma, a, mb, b, mc, cf) = choose|
        ma: Emulator,
        a: Ref,
        mb: Emulator,
        b: Ref,
        mc: Emulator,
        cf: Ref,
    | #[trigger] bt_steps(m0, inst, ma, a, mb, b, mc, cf, m1);
    let x = if is_plain(inst, 1, w) {
        w
    } else {
        Width::W8
    };
    lemma_read(m0, inst, 0, w, ma, a, e);
    lemma_quiet(m0, ma);
    lemma_read(ma, inst, 1, x, mb, b, e);
    lemma_same_worth(m0, ma, inst, 1, x, e);
    let d = val(ma, a, e);
    let y = val(mb, b, e);
    lemma_mask(y, w.mask());
    assert(val(mb, a, e) == d && wid(mb, a) == w);
    lemma_places(y, w);
    let c = crate::ir::fold::shift_count_spec(y, w);
    lemma_shr(d, c);
    let s = d >> c;
    lemma_low_bit(s);
    assert(val(mc, cf, e) == (bin_val(BinOp::Shr, d, y & w.mask(), w) & 1) & 0xff);
}

proof fn lemma_low_bit(s: u64)
    ensures
        (s & 1) & 0xff == s % 2,
{
    vstd::bits::lemma_u64_low_bits_mask_is_mod(s, 1);
    vstd::bits::lemma_low_bits_mask_values();
    vstd::arithmetic::power2::lemma2_to64();
    lemma_mask(s & 1, 0xff);
}

} // verus!
