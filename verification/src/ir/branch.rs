//! Control transfers.

use crate::ir::access::{popped, pushed, stack_moved};
use crate::ir::alu::{flags_clobbered, made, numbered, unmodelled};
use crate::ir::decode::{decode_at, mnemonic_at, code_at, head_of, Inst, MEMORY};
use crate::ir::event::{Event, Region, Step, Stop};
use crate::ir::expr::{const_of, has, width_of, Env, Node, Ref};
use crate::ir::hash::{fnv_u64, mix_u64, FNV1A_OFFSET_BASIS};
use crate::ir::lift::{lemma_events_push, lemma_wf_grows, Emulator, ARG_REGS};
use crate::ir::live::VOLATILE;
use crate::ir::machine::{addressed, goes_on, lemma_quiet, op_read, rebuilt, state_only};
use crate::ir::mnemonic::{jcc_cc, ConditionCode, CALL, INT3, JMP, RET, UD2};
use crate::ir::region::{const_run, expr_run};
use crate::ir::shape::shape_hash;
use crate::ir::subst::lemma_continues_twice;
use crate::ir::transfer::{cond_known, cond_val, lemma_goes_on};
use crate::ir::value::{Reg, Width};
use crate::vm::image::Image;
use crate::vm::state::{byte_addr, Byte, Flag};
use vstd::prelude::*;

verus! {

broadcast use vstd::std_specs::hash::group_hash_axioms;

/// Bound on the depth of the expression hash that identifies a symbolic VIP.
pub const VIP_DEPTH: u32 = 12;

/// Words past the VIP slot that take part in identifying a position.
pub const VIP_WORDS: u64 = 21;

/// How far a callee is scanned before giving up. A throw wrapper is a handful of
/// instructions: set up one argument, call, trap.
pub const NORETURN_SCAN_INSTRS: usize = 32;

/// Whether what a stop refers to is in the arena; what a branch depends on is not constant.
pub open spec fn stop_held(ns: Seq<Node>, stop: Stop) -> bool {
    match stop {
        Stop::SymbolicBranch { dest, .. } => has(ns, dest) && const_of(ns, dest) is None,
        Stop::NativeBranch { predicate, .. } => has(ns, predicate) && const_of(ns, predicate) is None,
        Stop::Return { dest, .. } => has(ns, dest) && width_of(ns, dest) == Width::W64,
        _ => true,
    }
}

/// Whether what a step refers to is in the arena.
pub open spec fn outcome_held(ns: Seq<Node>, out: Step) -> bool {
    out matches Step::Stopped(stop) ==> stop_held(ns, stop)
}

/// Whether an event carries guest program semantics.
pub open spec fn is_guest_event(e: Event) -> bool {
    match e {
        Event::Store { region, .. } => region == Region::Guest,
        Event::Load { region, .. } => region == Region::Guest,
        _ => true,
    }
}

/// Events among the first `k` that carry guest program semantics.
pub open spec fn guest_events(events: Seq<Event>, k: int) -> nat
    decreases k,
{
    if k <= 0 {
        0
    } else {
        guest_events(events, k - 1) + if is_guest_event(events[k - 1]) {
            1nat
        } else {
            0nat
        }
    }
}

proof fn lemma_guest_events(events: Seq<Event>, k: int)
    requires
        0 <= k,
    ensures
        guest_events(events, k) <= k,
    decreases k,
{
    if k > 0 {
        lemma_guest_events(events, k - 1);
    }
}

/// The expression stored in a qword slot, where all eight bytes are its own in order.
pub open spec fn slot_expr_of(mem: Map<u64, Byte>, addr: u64) -> Option<Ref> {
    if !mem.dom().contains(addr) {
        None
    } else {
        match mem[addr] {
            Byte::Sym { expr, .. } => if expr_run(mem, addr, expr, 8) {
                Some(expr)
            } else {
                None
            },
            Byte::Const(_) => None,
        }
    }
}

/// A hash with an offset and a value mixed in: a pointer that moves to another slot is a
/// different position.
pub open spec fn mixed(off: u64, v: u64, h: u64) -> u64 {
    fnv_u64(v, fnv_u64(off, h))
}

/// Whether a word points into the VM section, other than the parked pointer.
pub open spec fn vm_pointer(m: Emulator, v: u64) -> bool {
    m.in_vm(v) && Some(v) != m.unwind_slot
}

/// The hash after the first `k` words behind the VIP slot.
pub open spec fn trailing(m: Emulator, base: u64, off: u64, h: u64, k: int) -> u64
    decreases k,
{
    if k <= 0 {
        h
    } else {
        let before = trailing(m, base, off, h, k - 1);
        let at = byte_addr(off, 8 * k);
        match const_run(m.state.mem@, byte_addr(base, at as int), 8) {
            Some(v) => if vm_pointer(m, v) {
                mixed(at, v, before)
            } else {
                before
            },
            None => before,
        }
    }
}

/// The identity of the current bytecode position: the VIP slot's pointer, or the shape of
/// its expression, together with the other VM pointers behind it.
pub open spec fn vip(m: Emulator, depth: u32) -> Option<u64> {
    match (const_of(m.arena.nodes@, m.state.reg(Reg::Rbp)), m.vip_slot) {
        (Some(base), Some(off)) => {
            let slot = byte_addr(base, off as int);
            match const_run(m.state.mem@, slot, 8) {
                Some(v) => if vm_pointer(m, v) {
                    Some(trailing(m, base, off, mixed(off, v, FNV1A_OFFSET_BASIS), VIP_WORDS as int))
                } else {
                    None
                },
                None => match slot_expr_of(m.state.mem@, slot) {
                    Some(x) => Some(
                        trailing(
                            m,
                            base,
                            off,
                            mixed(
                                off,
                                shape_hash(m.arena.nodes@, x, depth as nat, FNV1A_OFFSET_BASIS),
                                FNV1A_OFFSET_BASIS,
                            ),
                            VIP_WORDS as int,
                        ),
                    ),
                    None => None,
                },
            }
        },
        _ => None,
    }
}

/// The argument registers among the first `k` that were written, with what they hold.
pub open spec fn args_upto(m: Emulator, k: int) -> Seq<(Reg, Ref)>
    decreases k,
{
    if k <= 0 {
        Seq::empty()
    } else {
        let r = ARG_REGS@[k - 1];
        if m.written_args@.contains(r) {
            args_upto(m, k - 1).push((r, m.state.reg(r)))
        } else {
            args_upto(m, k - 1)
        }
    }
}

/// Whether a call may change a register.
pub open spec fn call_clobbers(r: Reg) -> bool {
    crate::ir::live::volatile(r)
}

/// What the value a call leaves in a register is tagged.
pub open spec fn callee_tag(r: Reg) -> Seq<char> {
    if r == Reg::Rax {
        "call_ret"@
    } else {
        "clobbered"@
    }
}

/// A call's effect on the machine: the volatile registers and the arithmetic flags get new
/// values that nothing is known of, and no argument is set up any more. RAX carries the
/// result.
#[verifier::opaque]
pub open spec fn call_done(m0: Emulator, m1: Emulator, ret: Option<Ref>) -> bool {
    &&& state_only(m0, m1)
    &&& m1.written_args@.len() == 0
    &&& m1.state.mem@ == m0.state.mem@
    &&& m1.state.sym_stores@ == m0.state.sym_stores@
    &&& m1.state.xmm@ == m0.state.xmm@
    &&& m1.state.flag(Flag::Df) == m0.state.flag(Flag::Df)
    &&& unmodelled(m0, 8, m1, m1.state.flag(Flag::Cf), "cf"@)
    &&& unmodelled(m0, 9, m1, m1.state.flag(Flag::Of), "of"@)
    &&& unmodelled(m0, 10, m1, m1.state.flag(Flag::Zf), "flag"@)
    &&& unmodelled(m0, 11, m1, m1.state.flag(Flag::Sf), "flag"@)
    &&& unmodelled(m0, 12, m1, m1.state.flag(Flag::Pf), "flag"@)
    &&& unmodelled(m0, 13, m1, m1.state.flag(Flag::Af), "flag"@)
    &&& forall|i: int|
        0 <= i < VOLATILE@.len() ==> unmodelled(
            m0,
            i + 1,
            m1,
            m1.state.reg(#[trigger] VOLATILE@[i]),
            callee_tag(VOLATILE@[i]),
        )
    &&& forall|r: Reg| !call_clobbers(r) ==> #[trigger] m1.state.reg(r) == m0.state.reg(r)
    &&& m1.arena.opaque_counter == numbered(m0, 13)
    &&& ret == Some(m1.state.reg(Reg::Rax))
}

/// A call is recorded, with the arguments set up for it.
pub open spec fn call_recorded(
    m0: Emulator,
    target: Option<Ref>,
    site: u64,
    slot: Option<u64>,
    m1: Emulator,
) -> bool {
    exists|mid: Emulator, ret: Option<Ref>, args: Vec<(Reg, Ref)>| #[trigger]
        call_steps(m0, target, site, slot, mid, ret, args, m1)
}

pub open spec fn call_steps(
    m0: Emulator,
    target: Option<Ref>,
    site: u64,
    slot: Option<u64>,
    mid: Emulator,
    ret: Option<Ref>,
    args: Vec<(Reg, Ref)>,
    m1: Emulator,
) -> bool {
    &&& call_done(m0, mid, ret)
    &&& args@ == args_upto(m0, 4)
    &&& m1.events@ == mid.events@.push(
        Event::Call {
            target,
            site,
            rsp: const_of(m0.arena.nodes@, m0.state.reg(Reg::Rsp)),
            import_slot: slot,
            args,
            ret,
        },
    )
    &&& m1 == (Emulator { events: m1.events, ..mid })
}

pub open spec fn tail_call(m0: Emulator, inst: Inst, slot: u64, m1: Emulator, out: Step) -> bool {
    exists|me: Emulator| #[trigger]
        call_recorded(m0, None, inst.ip, Some(slot), me) && if m0.noreturn_slots@.contains(slot) {
            m1 == me && out == Step::Stopped(Stop::NoReturn { site: inst.ip })
        } else {
            exists|dest: Ref| #[trigger]
                popped(me, inst.ip, m1, dest) && out == Step::Stopped(
                    Stop::Return { site: inst.ip, dest },
                )
        }
}

/// One more resolved indirect branch.
pub open spec fn dispatched(m0: Emulator, site: u64, t: u64, m1: Emulator) -> bool {
    &&& m1.dispatches@ == m0.dispatches@.push((site, t))
    &&& m1 == (Emulator { dispatches: m1.dispatches, ..m0 })
}

/// Whether a destination is the identity of an already recovered block, reached after
/// something observable happened: then it closes a loop.
pub open spec fn closes_loop(m: Emulator, t: u64) -> bool {
    &&& m.stop_on_revisit
    &&& guest_events(m.events@, m.events@.len() as int) > m.events_at_block_entry
    &&& m.block_entries@.contains((t, vip(m, VIP_DEPTH)))
}

pub open spec fn dispatch_steps(
    m0: Emulator,
    inst: Inst,
    ma: Emulator,
    d: Ref,
    mb: Emulator,
    dest: Ref,
    m1: Emulator,
    out: Step,
) -> bool {
    &&& op_read(m0, inst, 0, ma, d)
    &&& rebuilt(ma, d, mb, dest)
    &&& match const_of(mb.arena.nodes@, dest) {
        Some(t) => dispatched(mb, inst.ip, t, m1) && out == (if closes_loop(m1, t) {
            Step::Stopped(Stop::Backedge { site: inst.ip, target: t, vip: vip(m1, VIP_DEPTH) })
        } else {
            Step::Next(t)
        }),
        None => m1 == mb && out == Step::Stopped(Stop::SymbolicBranch { site: inst.ip, dest }),
    }
}

/// An indirect jump: to the handler its destination folds to, closing a loop where that is
/// a recovered block, or a stop where it stays symbolic.
pub open spec fn dispatches_to(m0: Emulator, inst: Inst, m1: Emulator, out: Step) -> bool {
    exists|ma: Emulator, d: Ref, mb: Emulator, dest: Ref| #[trigger]
        dispatch_steps(m0, inst, ma, d, mb, dest, m1, out)
}

/// A jump. One through an import slot is a tail call: the callee returns straight to the
/// caller.
pub open spec fn jumps(m0: Emulator, inst: Inst, m1: Emulator, out: Step) -> bool {
    match inst.direct_target() {
        Some(t) => m1 == m0 && out == Step::Next(t),
        None => if inst.ops@[0].kind == MEMORY {
            exists|ma: Emulator, a: Ref| #[trigger]
                addressed(m0, inst, ma, a) && match const_of(ma.arena.nodes@, a) {
                    Some(slot) => if ma.import_slots@.contains(slot) {
                        tail_call(ma, inst, slot, m1, out)
                    } else {
                        dispatches_to(ma, inst, m1, out)
                    },
                    None => dispatches_to(ma, inst, m1, out),
                }
        } else {
            dispatches_to(m0, inst, m1, out)
        },
    }
}

pub open spec fn branch_steps(
    m0: Emulator,
    inst: Inst,
    cc: ConditionCode,
    ma: Emulator,
    c: Ref,
    m1: Emulator,
    p: Ref,
    out: Step,
) -> bool {
    let taken = match inst.direct_target() {
        Some(t) => t,
        None => inst.head.next_ip,
    };
    &&& made(m0, ma, cond_known(m0, cc), c, Width::W8, |e: Env| cond_val(m0, cc, e))
    &&& rebuilt(ma, c, m1, p)
    &&& out == (match const_of(m1.arena.nodes@, p) {
        Some(v) => if v == 0 {
            Step::Next(inst.head.next_ip)
        } else {
            Step::Next(taken)
        },
        None => Step::Stopped(
            Stop::NativeBranch {
                site: inst.ip,
                predicate: p,
                taken,
                not_taken: inst.head.next_ip,
            },
        ),
    })
}

/// A conditional jump: resolved where the condition folds, else both edges are known and
/// only the predicate is symbolic.
pub open spec fn branches(m0: Emulator, inst: Inst, cc: ConditionCode, m1: Emulator, out: Step) -> bool {
    exists|ma: Emulator, c: Ref, p: Ref| #[trigger]
        branch_steps(m0, inst, cc, ma, c, m1, p, out)
}

/// The import slot a call goes through: a fixed address that holds no code.
pub open spec fn slot_read(m0: Emulator, inst: Inst, m1: Emulator, slot: Option<u64>) -> bool {
    if inst.direct_target() is None && inst.ops@[0].kind == MEMORY {
        exists|a: Ref| #[trigger]
            addressed(m0, inst, m1, a) && slot == (match const_of(m1.arena.nodes@, a) {
                Some(c) => if m0.pe.is_executable(c) {
                    None
                } else {
                    Some(c)
                },
                None => None,
            })
    } else {
        m1 == m0 && slot is None
    }
}

/// A target that is code. Any other was never a callee: it is an unbound import entry or
/// a misfolded value.
pub open spec fn callee_of(pe: Image, t: Option<u64>) -> Option<u64> {
    match t {
        Some(t) => if pe.is_executable(t) {
            Some(t)
        } else {
            None
        },
        None => None,
    }
}

pub open spec fn target_read(m0: Emulator, inst: Inst, m1: Emulator, target: Option<u64>) -> bool {
    match inst.direct_target() {
        Some(t) => m1 == m0 && target == callee_of(*m0.pe, Some(t)),
        None => exists|d: Ref| #[trigger]
            op_read(m0, inst, 0, m1, d) && target == callee_of(
                *m0.pe,
                const_of(m1.arena.nodes@, d),
            ),
    }
}

/// Whether straight-line code from an address runs into a trap, or into a call with a trap
/// where it would return to, within `n` instructions.
pub open spec fn never_returns(pe: Image, ip: u64, n: nat) -> bool
    decreases n,
{
    if n == 0 {
        false
    } else {
        match code_at(pe, ip) {
            Some(code) => match head_of(code, ip) {
                Some(h) => if h.mnemonic == CALL {
                    mnemonic_at(pe, h.next_ip) == Some(INT3)
                } else if h.mnemonic == INT3 || h.mnemonic == UD2 {
                    true
                } else if h.mnemonic == RET || h.mnemonic == JMP || jcc_cc(h.mnemonic) is Some {
                    false
                } else {
                    never_returns(pe, h.next_ip, (n - 1) as nat)
                },
                None => false,
            },
            None => false,
        }
    }
}

/// Whether the code after a call is not reached.
pub open spec fn call_is_last(m: Emulator, inst: Inst, slot: Option<u64>, target: Option<u64>) -> bool {
    ||| slot matches Some(s) && m.noreturn_slots@.contains(s)
    ||| mnemonic_at(*m.pe, inst.head.next_ip) == Some(INT3)
    ||| target matches Some(t) && never_returns(*m.pe, t, NORETURN_SCAN_INSTRS as nat)
}

/// The callee as a value.
pub open spec fn target_made(m0: Emulator, target: Option<u64>, m1: Emulator, t: Option<Ref>) -> bool {
    match target {
        Some(x) => t is Some && made(m0, m1, true, t->0, Width::W64, |e: Env| x) && const_of(
            m1.arena.nodes@,
            t->0,
        ) == Some(x),
        None => t is None && m1 == m0,
    }
}

pub open spec fn guest_call_steps(
    m0: Emulator,
    inst: Inst,
    slot: Option<u64>,
    target: Option<u64>,
    mc: Emulator,
    t: Option<Ref>,
    m1: Emulator,
    out: Step,
) -> bool {
    &&& target_made(m0, target, mc, t)
    &&& call_recorded(mc, t, inst.ip, slot, m1)
    &&& out == (if call_is_last(m0, inst, slot, target) {
        Step::Stopped(Stop::NoReturn { site: inst.ip })
    } else {
        Step::Next(inst.head.next_ip)
    })
}

pub open spec fn vm_call_steps(
    m0: Emulator,
    inst: Inst,
    target: u64,
    mc: Emulator,
    r: Ref,
    m1: Emulator,
    out: Step,
) -> bool {
    &&& made(m0, mc, true, r, Width::W64, |e: Env| inst.head.next_ip)
    &&& pushed(mc, r, inst.ip, m1)
    &&& out == Step::Next(target)
}

pub open spec fn call_paths(
    m0: Emulator,
    inst: Inst,
    ma: Emulator,
    slot: Option<u64>,
    mb: Emulator,
    target: Option<u64>,
    m1: Emulator,
    out: Step,
) -> bool {
    &&& slot_read(m0, inst, ma, slot)
    &&& target_read(ma, inst, mb, target)
    &&& if target is Some && mb.in_vm(target->0) {
        exists|mc: Emulator, r: Ref| #[trigger]
            vm_call_steps(mb, inst, target->0, mc, r, m1, out)
    } else {
        exists|mc: Emulator, t: Option<Ref>| #[trigger]
            guest_call_steps(mb, inst, slot, target, mc, t, m1, out)
    }
}

/// A call. One into the VM section is the VM's own control flow and is followed; any other
/// is recorded and skipped, or ends the block where it does not return.
pub open spec fn calls(m0: Emulator, inst: Inst, m1: Emulator, out: Step) -> bool {
    exists|ma: Emulator, slot: Option<u64>, mb: Emulator, target: Option<u64>| #[trigger]
        call_paths(m0, inst, ma, slot, mb, target, m1, out)
}

pub open spec fn ret_steps(
    m0: Emulator,
    inst: Inst,
    ma: Emulator,
    dest: Ref,
    m1: Emulator,
    out: Step,
) -> bool {
    &&& popped(m0, inst.ip, ma, dest)
    &&& if inst.head.op_count > 0 {
        stack_moved(ma, inst.ops@[0].immediate & 0xffff, m1)
    } else {
        m1 == ma
    }
    &&& out == Step::Stopped(Stop::Return { site: inst.ip, dest })
}

/// A return: the destination is popped, and RSP moves past the arguments it names.
pub open spec fn returns_from(m0: Emulator, inst: Inst, m1: Emulator, out: Step) -> bool {
    exists|ma: Emulator, dest: Ref| #[trigger] ret_steps(m0, inst, ma, dest, m1, out)
}

/// Whether a jump through `slot` is a tail call: only an exact import slot is, since the
/// VM dispatches to its own handlers in the same form.
pub fn is_iat_tail_call(slot: u64, import_slots: &std::collections::HashSet<u64>) -> (r: bool)
    ensures
        r == import_slots@.contains(slot),
{
    import_slots.contains(&slot)
}

/// Whether `entry` is a routine that cannot return, by inspecting its body: straight-line
/// setup, a call, and a trap where the return would land.
pub fn callee_never_returns(pe: &Image, entry: u64) -> (r: bool)
    ensures
        r == never_returns(*pe, entry, NORETURN_SCAN_INSTRS as nat),
{
    let mut ip: u64 = entry;
    let mut left: usize = NORETURN_SCAN_INSTRS;
    while left > 0
        invariant
            never_returns(*pe, entry, NORETURN_SCAN_INSTRS as nat) == never_returns(
                *pe,
                ip,
                left as nat,
            ),
        decreases left,
    {
        let inst = match decode_at(pe, ip) {
            Some(i) => i,
            None => {
                return false;
            },
        };
        let m: u32 = inst.head.mnemonic;
        if m == CALL {
            return is_trap(pe, inst.head.next_ip);
        }
        if m == INT3 || m == UD2 {
            return true;
        }
        if m == RET || m == JMP || jcc_cc(m).is_some() {
            return false;
        }
        ip = inst.head.next_ip;
        left = left - 1;
    }
    false
}

/// Whether the instruction at an address is a breakpoint.
fn is_trap(pe: &Image, addr: u64) -> (r: bool)
    ensures
        r == (mnemonic_at(*pe, addr) == Some(INT3)),
{
    match decode_at(pe, addr) {
        Some(i) => i.head.mnemonic == INT3,
        None => false,
    }
}

impl<'a> Emulator<'a> {
    /// Count of events that carry guest program semantics.
    pub(crate) fn guest_event_count(&self) -> (r: usize)
        ensures
            r == guest_events(self.events@, self.events@.len() as int),
    {
        let mut n: usize = 0;
        let mut i: usize = 0;
        while i < self.events.len()
            invariant
                i <= self.events@.len(),
                n == guest_events(self.events@, i as int),
                n <= i,
            decreases self.events@.len() - i,
        {
            proof {
                lemma_guest_events(self.events@, i as int);
            }
            let guest = match &self.events[i] {
                Event::Store { region, .. } => region.is_guest(),
                Event::Load { region, .. } => region.is_guest(),
                _ => true,
            };
            if guest {
                n = n + 1;
            }
            i = i + 1;
        }
        n
    }

    /// The expression stored in a fully symbolic qword slot.
    fn slot_expr(&self, addr: u64) -> (r: Option<Ref>)
        ensures
            r == slot_expr_of(self.state.mem@, addr),
    {
        let ghost mem = self.state.mem@;
        let first = match self.state.mem.get(&addr) {
            Some(Byte::Sym { expr, .. }) => *expr,
            _ => {
                return None;
            },
        };
        let mut i: u32 = 0;
        while i < 8
            invariant
                i <= 8,
                mem == self.state.mem@,
                expr_run(mem, addr, first, i as int),
                slot_expr_of(mem, addr) == (if expr_run(mem, addr, first, 8) {
                    Some(first)
                } else {
                    None
                }),
            decreases 8 - i,
        {
            proof {
                assert(byte_addr(addr, i as int) == vstd::wrapping::u64_specs::wrapping_add(
                    addr,
                    i as u64,
                ));
            }
            let same: bool = match self.state.mem.get(&addr.wrapping_add(i as u64)) {
                Some(Byte::Sym { expr, index }) => *expr == first && *index == i,
                _ => false,
            };
            if !same {
                proof {
                    assert(!expr_run(mem, addr, first, 8)) by {
                        let a = byte_addr(addr, i as int);
                        assert(!(mem.dom().contains(a) && mem[a] == (Byte::Sym {
                            expr: first,
                            index: i,
                        })));
                    }
                }
                return None;
            }
            i = i + 1;
        }
        Some(first)
    }

    /// The identity of the current bytecode position, if there is one.
    pub fn current_vip(&self) -> (r: Option<u64>)
        requires
            self.wf(),
        ensures
            r == vip(*self, VIP_DEPTH),
    {
        self.vip_at_depth(VIP_DEPTH)
    }

    /// The identity of the block that begins at `handler`.
    pub fn vip_at_entry(&self, handler: u64) -> (r: Option<u64>)
        requires
            self.wf(),
        ensures
            r == vip(*self, VIP_DEPTH),
    {
        let _ = handler;
        self.current_vip()
    }

    fn vip_at_depth(&self, depth: u32) -> (r: Option<u64>)
        requires
            self.wf(),
        ensures
            r == vip(*self, depth),
    {
        proof {
            assert(has(self.arena.nodes@, self.state.regs@[Reg::Rbp.number() as int]));
        }
        let base: u64 = match self.arena.as_const(self.state.reg(Reg::Rbp)) {
            Some(b) => b,
            None => {
                return None;
            },
        };
        let off: u64 = match self.vip_slot {
            Some(o) => o,
            None => {
                return None;
            },
        };
        let slot: u64 = base.wrapping_add(off);
        let mut h: u64 = FNV1A_OFFSET_BASIS;
        match self.read_const_qword(slot) {
            Some(v) => {
                if !self.is_vm_pointer(v) {
                    return None;
                }
                mix_u64(off, &mut h);
                mix_u64(v, &mut h);
            },
            None => match self.slot_expr(slot) {
                Some(x) => {
                    proof {
                        assert(self.state.mem@.dom().contains(slot));
                    }
                    mix_u64(off, &mut h);
                    mix_u64(self.arena.structural_hash(x, depth), &mut h);
                },
                None => {
                    return None;
                },
            },
        }
        let ghost h0 = h;
        let mut k: u64 = 0;
        while k < VIP_WORDS
            invariant
                k <= VIP_WORDS,
                h == trailing(*self, base, off, h0, k as int),
            decreases VIP_WORDS - k,
        {
            let at: u64 = off.wrapping_add(8 * (k + 1));
            if let Some(v) = self.read_const_qword(base.wrapping_add(at)) {
                if self.is_vm_pointer(v) {
                    mix_u64(at, &mut h);
                    mix_u64(v, &mut h);
                }
            }
            k = k + 1;
        }
        Some(h)
    }

    pub(crate) fn is_vm_pointer(&self, v: u64) -> (r: bool)
        ensures
            r == vm_pointer(*self, v),
    {
        let parked: bool = match self.unwind_slot {
            Some(u) => u == v,
            None => false,
        };
        self.in_vm(v) && !parked
    }

    fn is_entry(&self, handler: u64, vip: Option<u64>) -> (r: bool)
        ensures
            r == self.block_entries@.contains((handler, vip)),
    {
        let mut i: usize = 0;
        while i < self.block_entries.len()
            invariant
                i <= self.block_entries@.len(),
                forall|k: int| 0 <= k < i ==> #[trigger] self.block_entries@[k] != (handler, vip),
            decreases self.block_entries@.len() - i,
        {
            let entry = self.block_entries[i];
            let same_vip: bool = match (entry.1, vip) {
                (Some(a), Some(b)) => a == b,
                (None, None) => true,
                _ => false,
            };
            if entry.0 == handler && same_vip {
                proof {
                    assert(self.block_entries@[i as int] == (handler, vip));
                }
                return true;
            }
            i = i + 1;
        }
        false
    }

    fn has_noreturn_slot(&self, slot: u64) -> (r: bool)
        ensures
            r == self.noreturn_slots@.contains(slot),
    {
        let mut i: usize = 0;
        while i < self.noreturn_slots.len()
            invariant
                i <= self.noreturn_slots@.len(),
                forall|k: int| 0 <= k < i ==> #[trigger] self.noreturn_slots@[k] != slot,
            decreases self.noreturn_slots@.len() - i,
        {
            if self.noreturn_slots[i] == slot {
                return true;
            }
            i = i + 1;
        }
        false
    }

    /// Argument registers explicitly written during this run.
    fn call_arguments(&self) -> (r: Vec<(Reg, Ref)>)
        requires
            self.wf(),
        ensures
            r@ == args_upto(*self, 4),
            forall|k: int| 0 <= k < r@.len() ==> has(self.arena.nodes@, (#[trigger] r@[k]).1),
    {
        let mut out: Vec<(Reg, Ref)> = Vec::new();
        let mut i: usize = 0;
        while i < 4
            invariant
                i <= 4,
                self.wf(),
                out@ == args_upto(*self, i as int),
                forall|k: int|
                    0 <= k < out@.len() ==> has(self.arena.nodes@, (#[trigger] out@[k]).1),
            decreases 4 - i,
        {
            let r = ARG_REGS[i];
            if self.is_written(r) {
                proof {
                    assert(has(self.arena.nodes@, self.state.regs@[r.number() as int]));
                }
                out.push((r, self.state.reg(r)));
            }
            i = i + 1;
        }
        out
    }

    /// Make one register unknown.
    fn clobber_reg(&mut self, r: Reg, tag: &'static str)
        requires
            old(self).wf(),
        ensures
            goes_on(*old(self), *final(self)),
            state_only(*old(self), *final(self)),
            final(self).written_args == old(self).written_args,
            crate::ir::machine::reg_set(
                old(self).state,
                r,
                final(self).state.reg(r),
                final(self).state,
            ),
            unmodelled(*old(self), 1, *final(self), final(self).state.reg(r), tag@),
            final(self).arena.opaque_counter == numbered(*old(self), 1),
    {
        let ghost m0 = *self;
        let u = self.arena.opaque(tag, Width::W64);
        proof {
            lemma_quiet(m0, *self);
        }
        let ghost m1 = *self;
        self.state.set_reg(r, u);
        proof {
            let ns = self.arena.nodes@;
            assert forall|i: int| 0 <= i < 16 implies has(ns, #[trigger] self.state.regs@[i])
                && width_of(ns, self.state.regs@[i]) == Width::W64 by {
                if i != r.number() {
                    assert(self.state.regs@[i] == m1.state.regs@[i]);
                }
            }
            lemma_wf_grows(m1, *self);
        }
    }

    /// Clobber what a call destroys, returning the opaque left in RAX.
    #[verifier::rlimit(40)]
    fn clobber_call(&mut self) -> (ret: Option<Ref>)
        requires
            old(self).wf(),
        ensures
            goes_on(*old(self), *final(self)),
            call_done(*old(self), *final(self), ret),
            ret matches Some(r) && final(self).arena.holds(r),
    {
        let ghost m0 = *self;
        proof {
            crate::ir::live::register_tables();
        }
        let mut i: usize = 0;
        while i < 7
            invariant
                i <= 7,
                m0.wf(),
                goes_on(m0, *self),
                state_only(m0, *self),
                self.written_args == m0.written_args,
                self.state.mem@ == m0.state.mem@,
                self.state.sym_stores@ == m0.state.sym_stores@,
                self.state.xmm@ == m0.state.xmm@,
                self.state.flags@ == m0.state.flags@,
                self.arena.opaque_counter == numbered(m0, i as int),
                VOLATILE@.len() == 7,
                forall|j: int, k: int|
                    0 <= j < k < 7 ==> #[trigger] VOLATILE@[j] != #[trigger] VOLATILE@[k],
                forall|j: int|
                    0 <= j < i ==> unmodelled(
                        m0,
                        j + 1,
                        *self,
                        self.state.reg(#[trigger] VOLATILE@[j]),
                        callee_tag(VOLATILE@[j]),
                    ),
                forall|r: Reg|
                    !VOLATILE@.take(i as int).contains(r) ==> #[trigger] self.state.reg(r)
                        == m0.state.reg(r),
            decreases 7 - i,
        {
            let ghost before = *self;
            let x = VOLATILE[i];
            let tag: &'static str = if x == Reg::Rax {
                "call_ret"
            } else {
                "clobbered"
            };
            self.clobber_reg(x, tag);
            proof {
                lemma_goes_on(m0, before, *self);
                let done = VOLATILE@.take(i as int);
                assert(VOLATILE@.take(i + 1) =~= done.push(x));
                crate::ir::walk::lemma_push_contains(done, x);
                assert forall|j: int| 0 <= j < i + 1 implies unmodelled(
                    m0,
                    j + 1,
                    *self,
                    self.state.reg(#[trigger] VOLATILE@[j]),
                    callee_tag(VOLATILE@[j]),
                ) by {
                    if j < i {
                        let r = VOLATILE@[j];
                        assert(r != VOLATILE@[i as int]);
                        assert(r.number() != x.number());
                        assert(self.state.reg(r) == before.state.reg(r));
                        assert(has(before.arena.nodes@, before.state.regs@[r.number() as int]));
                    }
                }
                assert forall|r: Reg| !VOLATILE@.take(i + 1).contains(r) implies #[trigger] self.state.reg(r)
                    == m0.state.reg(r) by {
                    assert(r != x);
                    assert(r.number() != x.number());
                    assert(self.state.reg(r) == before.state.reg(r));
                }
            }
            i = i + 1;
        }
        let ghost m1 = *self;
        self.written_args.clear();
        proof {
            lemma_wf_grows(m1, *self);
        }
        let ghost m2 = *self;
        self.clobber_arith_flags();
        let ret = self.state.reg(Reg::Rax);
        proof {
            assert(VOLATILE@.take(7) =~= VOLATILE@);
            reveal(flags_clobbered);
            reveal(call_done);
            lemma_goes_on(m0, m1, m2);
            lemma_goes_on(m0, m2, *self);
            assert forall|i: int| 0 <= i < VOLATILE@.len() implies unmodelled(
                m0,
                i + 1,
                *self,
                self.state.reg(#[trigger] VOLATILE@[i]),
                callee_tag(VOLATILE@[i]),
            ) by {
                let r = VOLATILE@[i];
                assert(self.state.reg(r) == m1.state.reg(r));
                assert(has(m1.arena.nodes@, m1.state.regs@[r.number() as int]));
            }
            assert forall|r: Reg| !call_clobbers(r) implies #[trigger] self.state.reg(r) == m0.state.reg(r) by {
                assert(VOLATILE@.contains(r) <==> call_clobbers(r));
                assert(self.state.reg(r) == m1.state.reg(r));
            }
            assert(has(self.arena.nodes@, self.state.regs@[Reg::Rax.number() as int]));
        }
        Some(ret)
    }

    fn record_call(&mut self, target: Option<Ref>, site: u64, slot: Option<u64>)
        requires
            old(self).wf(),
            target matches Some(t) ==> old(self).arena.holds(t),
        ensures
            goes_on(*old(self), *final(self)),
            call_recorded(*old(self), target, site, slot, *final(self)),
    {
        let ghost m0 = *self;
        proof {
            assert(has(self.arena.nodes@, self.state.regs@[Reg::Rsp.number() as int]));
        }
        let rsp = self.state.concrete_rsp(&self.arena);
        let args = self.call_arguments();
        let ret = self.clobber_call();
        let ghost mid = *self;
        let ghost kept = args;
        let event = Event::Call { target, site, rsp, import_slot: slot, args, ret };
        proof {
            lemma_events_push(self.events@, event, self.arena.nodes@);
        }
        self.events.push(event);
        proof {
            assert(call_steps(m0, target, site, slot, mid, ret, kept, *self));
            lemma_goes_on(m0, mid, *self);
        }
    }

    fn dispatch(&mut self, inst: &Inst) -> (out: Step)
        requires
            old(self).wf(),
            inst.wf(),
        ensures
            final(self).wf(),
            final(self).arena.continues(old(self).arena),
            final(self).same_setup(*old(self)),
            final(self).steps == old(self).steps,
            dispatches_to(*old(self), *inst, *final(self), out),
            outcome_held(final(self).arena.nodes@, out),
    {
        let ghost m0 = *self;
        let d = self.read_op(inst, 0);
        let ghost ma = *self;
        let dest = self.substitute(d);
        let ghost mb = *self;
        proof {
            lemma_continues_twice(m0.arena, ma.arena, mb.arena);
        }
        match self.arena.as_const(dest) {
            Some(t) => {
                self.dispatches.push((inst.ip, t));
                proof {
                    lemma_wf_grows(mb, *self);
                }
                let out = if self.stop_on_revisit {
                    let vip = self.vip_at_entry(t);
                    let progressed: bool = self.guest_event_count() > self.events_at_block_entry;
                    if progressed && self.is_entry(t, vip) {
                        Step::Stopped(Stop::Backedge { site: inst.ip, target: t, vip })
                    } else {
                        Step::Next(t)
                    }
                } else {
                    Step::Next(t)
                };
                proof {
                    assert(dispatch_steps(m0, *inst, ma, d, mb, dest, *self, out));
                }
                out
            },
            None => {
                let out = Step::Stopped(Stop::SymbolicBranch { site: inst.ip, dest });
                proof {
                    assert(dispatch_steps(m0, *inst, ma, d, mb, dest, *self, out));
                }
                out
            },
        }
    }

    fn tail_call(&mut self, inst: &Inst, slot: u64) -> (out: Step)
        requires
            old(self).wf(),
            inst.wf(),
        ensures
            goes_on(*old(self), *final(self)),
            tail_call(*old(self), *inst, slot, *final(self), out),
            outcome_held(final(self).arena.nodes@, out),
    {
        let ghost m0 = *self;
        self.record_call(None, inst.ip, Some(slot));
        let ghost me = *self;
        if self.has_noreturn_slot(slot) {
            return Step::Stopped(Stop::NoReturn { site: inst.ip });
        }
        let dest = self.pop(inst.ip);
        proof {
            lemma_goes_on(m0, me, *self);
            assert(popped(me, inst.ip, *self, dest));
        }
        Step::Stopped(Stop::Return { site: inst.ip, dest })
    }

    pub(crate) fn step_jmp(&mut self, inst: &Inst) -> (out: Step)
        requires
            old(self).wf(),
            inst.wf(),
        ensures
            final(self).wf(),
            final(self).arena.continues(old(self).arena),
            final(self).same_setup(*old(self)),
            final(self).steps == old(self).steps,
            jumps(*old(self), *inst, *final(self), out),
            outcome_held(final(self).arena.nodes@, out),
    {
        let ghost m0 = *self;
        if let Some(t) = inst.direct_target() {
            return Step::Next(t);
        }
        if inst.ops[0].kind == MEMORY {
            let a = self.mem_address(inst);
            let ghost ma = *self;
            let slot = match self.arena.as_const(a) {
                Some(slot) => {
                    if is_iat_tail_call(slot, &self.import_slots) {
                        let out = self.tail_call(inst, slot);
                        proof {
                            lemma_continues_twice(m0.arena, ma.arena, self.arena);
                            assert(addressed(m0, *inst, ma, a));
                        }
                        return out;
                    }
                },
                None => {},
            };
            let out = self.dispatch(inst);
            proof {
                lemma_continues_twice(m0.arena, ma.arena, self.arena);
                assert(addressed(m0, *inst, ma, a));
            }
            return out;
        }
        self.dispatch(inst)
    }

    pub(crate) fn step_jcc(&mut self, inst: &Inst, cc: ConditionCode) -> (out: Step)
        requires
            old(self).wf(),
            inst.wf(),
        ensures
            goes_on(*old(self), *final(self)),
            branches(*old(self), *inst, cc, *final(self), out),
            outcome_held(final(self).arena.nodes@, out),
    {
        let ghost m0 = *self;
        let c = self.condition(cc);
        let ghost ma = *self;
        let p = self.substitute(c);
        let next: u64 = inst.head.next_ip;
        let target: u64 = match inst.direct_target() {
            Some(t) => t,
            None => next,
        };
        let out = match self.arena.as_const(p) {
            Some(v) => {
                if v == 0 {
                    Step::Next(next)
                } else {
                    Step::Next(target)
                }
            },
            None => Step::Stopped(
                Stop::NativeBranch { site: inst.ip, predicate: p, taken: target, not_taken: next },
            ),
        };
        proof {
            assert(branch_steps(m0, *inst, cc, ma, c, *self, p, out));
            lemma_continues_twice(m0.arena, ma.arena, self.arena);
        }
        out
    }

    fn read_slot_of_call(&mut self, inst: &Inst) -> (slot: Option<u64>)
        requires
            old(self).wf(),
            inst.wf(),
        ensures
            goes_on(*old(self), *final(self)),
            slot_read(*old(self), *inst, *final(self), slot),
    {
        let ghost m0 = *self;
        if inst.direct_target().is_none() && inst.ops[0].kind == MEMORY {
            let a = self.mem_address(inst);
            proof {
                assert(addressed(m0, *inst, *self, a));
            }
            if let Some(c) = self.arena.as_const(a) {
                if !self.pe.is_executable(c) {
                    return Some(c);
                }
            }
        }
        None
    }

    fn read_target(&mut self, inst: &Inst) -> (target: Option<u64>)
        requires
            old(self).wf(),
            inst.wf(),
        ensures
            goes_on(*old(self), *final(self)),
            target_read(*old(self), *inst, *final(self), target),
    {
        let ghost m0 = *self;
        let found = match inst.direct_target() {
            Some(t) => Some(t),
            None => {
                let d = self.read_op(inst, 0);
                proof {
                    assert(op_read(m0, *inst, 0, *self, d));
                }
                self.arena.as_const(d)
            },
        };
        match found {
            Some(t) => {
                if self.pe.is_executable(t) {
                    Some(t)
                } else {
                    None
                }
            },
            None => None,
        }
    }

    fn guest_call(&mut self, inst: &Inst, slot: Option<u64>, target: Option<u64>) -> (out: Step)
        requires
            old(self).wf(),
            inst.wf(),
        ensures
            goes_on(*old(self), *final(self)),
            exists|mc: Emulator, t: Option<Ref>| #[trigger]
                guest_call_steps(*old(self), *inst, slot, target, mc, t, *final(self), out),
            outcome_held(final(self).arena.nodes@, out),
    {
        let ghost m0 = *self;
        let t = match target {
            Some(x) => {
                let r = self.arena.constant(x, Width::W64);
                proof {
                    crate::ir::fold::lemma_mask(x, Width::W64.mask());
                    lemma_quiet(m0, *self);
                }
                Some(r)
            },
            None => None,
        };
        let ghost mc = *self;
        self.record_call(t, inst.ip, slot);
        let last: bool = match slot {
            Some(s) => self.has_noreturn_slot(s),
            None => false,
        } || is_trap(self.pe, inst.head.next_ip) || match target {
            Some(x) => callee_never_returns(self.pe, x),
            None => false,
        };
        let out = if last {
            Step::Stopped(Stop::NoReturn { site: inst.ip })
        } else {
            Step::Next(inst.head.next_ip)
        };
        proof {
            lemma_goes_on(m0, mc, *self);
            assert(guest_call_steps(m0, *inst, slot, target, mc, t, *self, out));
        }
        out
    }

    pub(crate) fn step_call(&mut self, inst: &Inst) -> (out: Step)
        requires
            old(self).wf(),
            inst.wf(),
        ensures
            goes_on(*old(self), *final(self)),
            calls(*old(self), *inst, *final(self), out),
            outcome_held(final(self).arena.nodes@, out),
    {
        let ghost m0 = *self;
        let slot = self.read_slot_of_call(inst);
        let ghost ma = *self;
        let target = self.read_target(inst);
        let ghost mb = *self;
        proof {
            lemma_goes_on(m0, ma, mb);
        }
        if let Some(t) = target {
            if self.in_vm(t) {
                let r = self.arena.constant(inst.head.next_ip, Width::W64);
                let ghost mc = *self;
                proof {
                    crate::ir::fold::lemma_mask(inst.head.next_ip, Width::W64.mask());
                    lemma_quiet(mb, mc);
                }
                self.push(r, inst.ip);
                let out = Step::Next(t);
                proof {
                    lemma_goes_on(m0, mb, mc);
                    lemma_goes_on(m0, mc, *self);
                    assert(vm_call_steps(mb, *inst, t, mc, r, *self, out));
                    assert(call_paths(m0, *inst, ma, slot, mb, target, *self, out));
                }
                return out;
            }
        }
        let out = self.guest_call(inst, slot, target);
        proof {
            lemma_goes_on(m0, mb, *self);
            assert(call_paths(m0, *inst, ma, slot, mb, target, *self, out));
        }
        out
    }

    pub(crate) fn step_ret(&mut self, inst: &Inst) -> (out: Step)
        requires
            old(self).wf(),
            inst.wf(),
        ensures
            goes_on(*old(self), *final(self)),
            returns_from(*old(self), *inst, *final(self), out),
            outcome_held(final(self).arena.nodes@, out),
    {
        let ghost m0 = *self;
        let dest = self.pop(inst.ip);
        let ghost ma = *self;
        if inst.head.op_count > 0 {
            self.move_stack(inst.ops[0].immediate & 0xffff);
        }
        let out = Step::Stopped(Stop::Return { site: inst.ip, dest });
        proof {
            lemma_goes_on(m0, ma, *self);
            assert(ret_steps(m0, *inst, ma, dest, *self, out));
        }
        out
    }
}

} // verus!
