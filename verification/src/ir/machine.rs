//! Registers, memory and operands of the machine, read and written symbolically.

use crate::ir::alu::{fixed, unmodelled};
use crate::ir::decode::{
    width_or_word, Inst, EIP, IMMEDIATE_16, IMMEDIATE_32, IMMEDIATE_32_TO_64, IMMEDIATE_64,
    IMMEDIATE_8, IMMEDIATE_8_2ND, IMMEDIATE_8_TO_16, IMMEDIATE_8_TO_32, IMMEDIATE_8_TO_64, MEMORY,
    NO_REGISTER, REGISTER, RIP,
};
use crate::ir::event::Event;
use crate::ir::expr::{const_of, eval, has, is_const, op_of, width_of, Arena, Env, Node, Op, Ref};
use crate::ir::fold::{lemma_mask, wadd, wmul};
use crate::ir::known::lemma_shift_count;
use crate::ir::lift::{lemma_state_grows, lemma_wf_grows, Emulator, ARG_REGS};
use crate::ir::region::{region_at, region_of_expr};
use crate::ir::rules::{bin_node, cast_node, literal};
use crate::ir::subst::{
    byte_missing, entry_ok, foldable, found_in_memory, lemma_continues_twice, settles_as,
};
use crate::ir::value::{BinOp, Reg, Width};
use crate::ir::x86::{decode_reg, register_part};
use crate::vm::state::{byte_addr, stored_byte, Byte, State};
use vstd::prelude::*;

verus! {

broadcast use vstd::std_specs::hash::group_hash_axioms;

/// Nothing but the arena differs, and it has only grown.
pub open spec fn quiet(m0: Emulator, m1: Emulator) -> bool {
    &&& m1.arena.continues(m0.arena)
    &&& m1.same_but_memos(m0)
    &&& same_memos(m0, m1)
}

pub open spec fn same_memos(m0: Emulator, m1: Emulator) -> bool {
    &&& m1.folded == m0.folded
    &&& m1.memo_pin_count == m0.memo_pin_count
    &&& m1.subst_memo == m0.subst_memo
    &&& m1.pin_dep == m0.pin_dep
    &&& m1.steady == m0.steady
}

/// Nothing but the arena and the state differs.
pub open spec fn state_only(m0: Emulator, m1: Emulator) -> bool {
    &&& m1.arena.continues(m0.arena)
    &&& m1.same_setup(m0)
    &&& same_logs(m0, m1)
    &&& m1.unwind_slot == m0.unwind_slot
    &&& same_memos(m0, m1)
}

/// What was recorded along the way is the same.
pub open spec fn same_logs(m0: Emulator, m1: Emulator) -> bool {
    &&& m1.events == m0.events
    &&& same_side_logs(m0, m1)
    &&& m1.unmapped_loads == m0.unmapped_loads
    &&& m1.symbolic_loads == m0.symbolic_loads
}

pub open spec fn same_side_logs(m0: Emulator, m1: Emulator) -> bool {
    &&& m1.trace == m0.trace
    &&& m1.steps == m0.steps
    &&& m1.dispatches == m0.dispatches
}

pub proof fn lemma_quiet(m0: Emulator, m1: Emulator)
    requires
        m0.wf(),
        quiet(m0, m1),
    ensures
        m1.wf(),
{
    lemma_state_grows(m0.state, m0.arena.nodes@, m1.arena.nodes@);
    lemma_wf_grows(m0, m1);
}

pub proof fn lemma_quiet_twice(a: Emulator, b: Emulator, c: Emulator)
    requires
        quiet(a, b),
        quiet(b, c),
    ensures
        quiet(a, c),
{
    lemma_continues_twice(a.arena, b.arena, c.arena);
}

/// What is read of a register: the bytes of its part.
pub open spec fn part_value(full: u64, offset: u32, w: Width) -> u64 {
    if offset == 0 {
        full & w.mask()
    } else {
        (full >> ((8 * offset) as u64)) & w.mask()
    }
}

/// What a register holds after a part of it is written. A 32-bit write clears the upper
/// half; narrower ones keep the rest.
pub open spec fn merged_value(full: u64, offset: u32, w: Width, v: u64) -> u64 {
    if offset == 0 && (w == Width::W64 || w == Width::W32) {
        v & w.mask()
    } else {
        let s = (8 * offset) as u64;
        (full & !(w.mask() << s)) | ((v & w.mask()) << s)
    }
}

/// `v` is what register `code` holds. One that is not general purpose is unknown.
pub open spec fn reg_read(m0: Emulator, code: u32, m1: Emulator, v: Ref) -> bool {
    &&& quiet(m0, m1)
    &&& has(m1.arena.nodes@, v)
    &&& match register_part(code) {
        Some((base, offset, w)) => {
            &&& width_of(m1.arena.nodes@, v) == w
            &&& (m1.arena.nodes@, v) == read_node(m0, base, offset, w)
            &&& m1.arena.opaque_counter == m0.arena.opaque_counter
            &&& fixed(m0, m0.state.reg(base)) ==> fixed(m1, v)
            &&& offset == 0 && w == Width::W64 ==> v == m0.state.reg(base)
            &&& forall|e: Env| #[trigger]
                eval(m1.arena.nodes@, v, e) == part_value(
                    eval(m0.arena.nodes@, m0.state.reg(base), e),
                    offset,
                    w,
                )
        },
        None => width_of(m1.arena.nodes@, v) == Width::W64 && if code == NO_REGISTER {
            const_of(m1.arena.nodes@, v) == Some(0u64) && m1.arena.opaque_counter
                == m0.arena.opaque_counter
        } else {
            unmodelled(
                m0,
                1,
                m1,
                v,
                if code == RIP {
                    "rip"@
                } else {
                    "xreg"@
                },
            )
        },
    }
}

/// The node for a part of a register: the register's own one cut to the width, shifted down
/// first where the part is not the lowest.
pub open spec fn read_node(m: Emulator, base: Reg, offset: u32, w: Width) -> (Seq<Node>, Ref) {
    let ns = m.arena.nodes@;
    let d = m.arena.trunc_depth as nat;
    let full = m.state.reg(base);
    if offset > 0 {
        let sh = literal(ns, (8 * offset) as u64, Width::W64);
        let moved = bin_node(sh.0, BinOp::Shr, full, sh.1, d);
        cast_node(moved.0, moved.1, w, d)
    } else {
        cast_node(ns, full, w, d)
    }
}

/// The node a register holds after `v` is written to a part of it.
pub open spec fn merged_node(ns: Seq<Node>, full: Ref, offset: u32, w: Width, v: Ref, d: nat) -> (
    Seq<Node>,
    Ref,
) {
    if offset == 0 && w == Width::W64 {
        cast_node(ns, v, Width::W64, d)
    } else if offset == 0 && w == Width::W32 {
        let low = cast_node(ns, v, Width::W32, d);
        cast_node(low.0, low.1, Width::W64, d)
    } else {
        let s = (8 * offset) as u64;
        let mask = literal(ns, !(w.mask() << s), Width::W64);
        let kept = bin_node(mask.0, BinOp::And, full, mask.1, d);
        let part = cast_node(kept.0, v, w, d);
        let wide = cast_node(part.0, part.1, Width::W64, d);
        let sh = literal(wide.0, s, Width::W64);
        let placed = bin_node(sh.0, BinOp::Shl, wide.1, sh.1, d);
        bin_node(placed.0, BinOp::Or, kept.1, placed.1, d)
    }
}

/// The argument registers known to be written, after `base` is.
pub open spec fn args_after(args: Seq<Reg>, base: Reg) -> Seq<Reg> {
    if ARG_REGS@.contains(base) && !args.contains(base) {
        args.push(base)
    } else {
        args
    }
}

/// State `s1` is `s0` with one register set.
pub open spec fn reg_set(s0: State, r: Reg, v: Ref, s1: State) -> bool {
    &&& s1.regs@ == s0.regs@.update(r.number() as int, v)
    &&& s1.flags@ == s0.flags@
    &&& s1.mem@ == s0.mem@
    &&& s1.sym_stores@ == s0.sym_stores@
    &&& s1.xmm@ == s0.xmm@
}

/// `v` is written to register `code`. One that is not general purpose stays.
pub open spec fn reg_written(m0: Emulator, code: u32, v: Ref, m1: Emulator) -> bool {
    match register_part(code) {
        Some((base, offset, w)) => {
            &&& state_only(m0, m1)
            &&& m1.written_args@ == args_after(m0.written_args@, base)
            &&& reg_set(m0.state, base, m1.state.reg(base), m1.state)
            &&& has(m1.arena.nodes@, m1.state.reg(base))
            &&& (m1.arena.nodes@, m1.state.reg(base)) == merged_node(
                m0.arena.nodes@,
                m0.state.reg(base),
                offset,
                w,
                v,
                m0.arena.trunc_depth as nat,
            )
            &&& m1.arena.opaque_counter == m0.arena.opaque_counter
            &&& fixed(m0, v) && (fixed(m0, m0.state.reg(base)) || offset == 0 && (w == Width::W64 || w
                == Width::W32)) ==> fixed(m1, m1.state.reg(base))
            &&& offset == 0 && w == Width::W64 && width_of(m0.arena.nodes@, v) == w ==> m1.state.reg(base) == v
            &&& forall|e: Env| #[trigger]
                eval(m1.arena.nodes@, m1.state.reg(base), e) == merged_value(
                    eval(m0.arena.nodes@, m0.state.reg(base), e),
                    offset,
                    w,
                    eval(m0.arena.nodes@, v, e),
                )
        },
        None => m1 == m0,
    }
}

/// What a register number contributes to an address.
pub open spec fn address_part(m: Emulator, code: u32, e: Env) -> u64 {
    match register_part(code) {
        Some((base, offset, w)) => part_value(eval(m.arena.nodes@, m.state.reg(base), e), offset, w),
        None => 0,
    }
}

/// Whether an address register is one whose value is tracked, or absent.
pub open spec fn address_known(inst: Inst) -> bool {
    &&& inst.head.base == NO_REGISTER || register_part(inst.head.base) is Some
    &&& inst.head.index == NO_REGISTER || register_part(inst.head.index) is Some
}

/// The effective address of a memory operand: displacement, base and scaled index. The
/// decoder has already added the instruction pointer to the displacement. The segment
/// prefix is not folded in: such accesses are kept as bytes, with the prefix intact.
pub open spec fn effective_address(m: Emulator, inst: Inst, e: Env) -> u64 {
    let h = inst.head;
    if h.base == RIP || h.base == EIP {
        h.displacement
    } else {
        wadd(
            wadd(h.displacement, address_part(m, h.base, e)),
            wmul(address_part(m, h.index, e), h.scale as u64),
        )
    }
}

/// `a` is the address of the memory operand.
pub open spec fn addressed(m0: Emulator, inst: Inst, m1: Emulator, a: Ref) -> bool {
    &&& quiet(m0, m1)
    &&& has(m1.arena.nodes@, a)
    &&& width_of(m1.arena.nodes@, a) == Width::W64
    &&& inst.head.base == RIP || inst.head.base == EIP || address_known(inst) ==> forall|e: Env|
        #[trigger]
        eval(m1.arena.nodes@, a, e) == effective_address(m0, inst, e)
    &&& inst.head.base == RIP || inst.head.base == EIP ==> const_of(m1.arena.nodes@, a)
        == Some(inst.head.displacement)
    &&& part_known(m0, inst.head.base) && part_known(m0, inst.head.index) ==> fixed(m1, a)
}

/// Whether a register number contributes a constant to an address.
pub open spec fn part_known(m: Emulator, code: u32) -> bool {
    match register_part(code) {
        Some((base, _, _)) => fixed(m, m.state.reg(base)),
        None => code == NO_REGISTER,
    }
}

/// `out` is `r` rebuilt under the pins.
pub open spec fn rebuilt(m0: Emulator, r: Ref, m1: Emulator, out: Ref) -> bool {
    &&& m1.only_rebuilt(m0)
    &&& entry_ok(m1.arena.nodes@, m0.pins@, m1.folded@, r.idx, out)
    &&& m0.pins@.len() == 0 || const_of(m0.arena.nodes@, r) is Some ==> out == r
    &&& settles_as(m0, r, m1, out)
}

/// `v` is read from memory at `a`: what memory holds where that can be folded, else a
/// load that is recorded.
pub open spec fn read_at(m0: Emulator, a: Ref, w: Width, site: u64, m1: Emulator, v: Ref) -> bool {
    let n1 = m1.arena.nodes@;
    match const_of(m0.arena.nodes@, a) {
        Some(c) => {
            ||| {
                &&& foldable(*m0.pe, c, w)
                &&& quiet(m0, m1)
                &&& found_in_memory(m0.state.mem@, *m0.pe, m0.arena.nodes@, c, w, n1, v)
            }
            ||| {
                &&& !foldable(*m0.pe, c, w) || byte_missing(
                    m0.state.mem@,
                    *m0.pe,
                    c,
                    w.bytes() as int,
                )
                &&& load_recorded(m0, a, w, m1, v)
                &&& m1.events@ == m0.events@.push(
                    Event::Load { addr: a, value: v, width: w, site, region: region_at(m1, c) },
                )
                &&& m1.symbolic_loads@ == m0.symbolic_loads@
                &&& m1.unmapped_loads@ == (if m0.pe.byte_at(c) is None {
                    m0.unmapped_loads@.push((site, c, w))
                } else {
                    m0.unmapped_loads@
                })
            }
        },
        None => {
            &&& load_recorded(m0, a, w, m1, v)
            &&& m1.events@ == m0.events@.push(
                Event::Load { addr: a, value: v, width: w, site, region: region_of_expr(m1, a) },
            )
            &&& m1.symbolic_loads@ == m0.symbolic_loads@.push((site, w))
            &&& m1.unmapped_loads@ == m0.unmapped_loads@
        },
    }
}

/// `v` is a load of `a` at the current generation; besides, only records differ.
pub open spec fn load_recorded(m0: Emulator, a: Ref, w: Width, m1: Emulator, v: Ref) -> bool {
    &&& m1.arena.grows(m0.arena)
    &&& has(m1.arena.nodes@, v)
    &&& op_of(m1.arena.nodes@, v) == Op::Load(a, m0.arena.mem_gen)
    &&& width_of(m1.arena.nodes@, v) == w
    &&& m1.same_setup(m0)
    &&& same_side_logs(m0, m1)
    &&& m1.state == m0.state
    &&& m1.unwind_slot == m0.unwind_slot
    &&& m1.written_args == m0.written_args
    &&& same_memos(m0, m1)
}

/// `v` is loaded from `addr`, rebuilt under the pins first.
pub open spec fn loaded(m0: Emulator, addr: Ref, w: Width, site: u64, m1: Emulator, v: Ref) -> bool {
    exists|mid: Emulator, a: Ref| #[trigger]
        rebuilt(m0, addr, mid, a) && read_at(mid, a, w, site, m1, v)
}

/// Memory `m1` is `m0` with a value stored.
pub open spec fn mem_stored(
    ns: Seq<Node>,
    m0: Map<u64, Byte>,
    addr: u64,
    value: Ref,
    w: Width,
    m1: Map<u64, Byte>,
) -> bool {
    &&& forall|i: int|
        0 <= i < w.bytes() ==> m1.dom().contains(#[trigger] byte_addr(addr, i)) && m1[byte_addr(
            addr,
            i,
        )] == stored_byte(ns, value, i)
    &&& forall|a: u64|
        (forall|i: int| 0 <= i < w.bytes() ==> a != #[trigger] byte_addr(addr, i)) ==> #[trigger]
        m1.dom().contains(a) == m0.dom().contains(a) && (m1.dom().contains(a) ==> m1[a] == m0[a])
}

/// The pointer parked in the frame: a pointer into the VM section stored where RBP points.
pub open spec fn parked(m: Emulator, a: u64, value: Ref, w: Width) -> Option<u64> {
    match const_of(m.arena.nodes@, value) {
        Some(v) => if w == Width::W64 && const_of(m.arena.nodes@, m.state.reg(Reg::Rbp)) == Some(a)
            && m.in_vm(v) {
            Some(v)
        } else {
            m.unwind_slot
        },
        None => m.unwind_slot,
    }
}

/// `value` is stored at `addr`: in the memory map where the address is concrete, else as
/// a pending store. Either way later loads belong to a new generation.
pub open spec fn stored(
    m0: Emulator,
    addr: Ref,
    value: Ref,
    w: Width,
    site: u64,
    m1: Emulator,
) -> bool {
    let ns = m0.arena.nodes@;
    &&& m1.arena.continues(m0.arena)
    &&& m1.arena.nodes@ == ns
    &&& m1.arena.mem_gen == vstd::wrapping::u32_specs::wrapping_add(m0.arena.mem_gen, 1)
    &&& m1.same_setup(m0)
    &&& same_side_logs(m0, m1)
    &&& m1.unmapped_loads == m0.unmapped_loads
    &&& m1.symbolic_loads == m0.symbolic_loads
    &&& m1.written_args == m0.written_args
    &&& same_memos(m0, m1)
    &&& m1.state.regs@ == m0.state.regs@
    &&& m1.state.flags@ == m0.state.flags@
    &&& m1.state.xmm@ == m0.state.xmm@
    &&& match const_of(ns, addr) {
        Some(a) => {
            &&& mem_stored(ns, m0.state.mem@, a, value, w, m1.state.mem@)
            &&& m1.state.sym_stores@ == m0.state.sym_stores@
            &&& m1.unwind_slot == parked(m0, a, value, w)
            &&& m1.events@ == m0.events@.push(
                Event::Store { addr, value, width: w, site, region: region_at(m1, a) },
            )
        },
        None => {
            &&& m1.state.mem@ == m0.state.mem@
            &&& m1.state.sym_stores@ == m0.state.sym_stores@.push((addr, value, w))
            &&& m1.unwind_slot == m0.unwind_slot
            &&& m1.events@ == m0.events@.push(
                Event::Store { addr, value, width: w, site, region: region_of_expr(m1, addr) },
            )
        },
    }
}

/// The memory at `addr` is no longer known.
pub open spec fn forgotten(m0: Emulator, addr: Ref, bytes: u32, m1: Emulator) -> bool {
    &&& m1.arena.continues(m0.arena)
    &&& m1.arena.mem_gen == vstd::wrapping::u32_specs::wrapping_add(m0.arena.mem_gen, 1)
    &&& m1.same_setup(m0)
    &&& same_logs(m0, m1)
    &&& m1.unwind_slot == m0.unwind_slot
    &&& m1.written_args == m0.written_args
    &&& same_memos(m0, m1)
    &&& m1.state.regs@ == m0.state.regs@
    &&& m1.state.flags@ == m0.state.flags@
    &&& m1.state.xmm@ == m0.state.xmm@
    &&& match const_of(m0.arena.nodes@, addr) {
        Some(a) => {
            &&& m1.state.sym_stores@ == m0.state.sym_stores@
            &&& forall|x: u64| #[trigger]
                m1.state.mem@.dom().contains(x) <==> m0.state.mem@.dom().contains(x) && (forall|
                    i: int,
                |
                    0 <= i < bytes ==> x != #[trigger] byte_addr(a, i))
            &&& forall|x: u64| #[trigger]
                m1.state.mem@.dom().contains(x) ==> m1.state.mem@[x] == m0.state.mem@[x]
        },
        None => {
            let w = width_or_word(bytes as int);
            &&& m1.state.mem@ == m0.state.mem@
            &&& exists|v: Ref|
                m1.state.sym_stores@ == m0.state.sym_stores@.push((addr, v, w)) && #[trigger] has(
                    m1.arena.nodes@,
                    v,
                ) && unmodelled(m0, 1, m1, v, "boxed_mem"@) && width_of(m1.arena.nodes@, v) == w
        },
    }
}

/// Width of an immediate operand.
pub open spec fn immediate_width(kind: u32) -> Option<Width> {
    if kind == IMMEDIATE_8 || kind == IMMEDIATE_8_2ND {
        Some(Width::W8)
    } else if kind == IMMEDIATE_16 || kind == IMMEDIATE_8_TO_16 {
        Some(Width::W16)
    } else if kind == IMMEDIATE_32 || kind == IMMEDIATE_8_TO_32 {
        Some(Width::W32)
    } else if kind == IMMEDIATE_64 || kind == IMMEDIATE_8_TO_64 || kind == IMMEDIATE_32_TO_64 {
        Some(Width::W64)
    } else {
        None
    }
}

/// `v` is read from memory through the instruction's address.
pub open spec fn memory_read(m0: Emulator, inst: Inst, m1: Emulator, v: Ref) -> bool {
    exists|mid: Emulator, a: Ref| #[trigger]
        addressed(m0, inst, mid, a) && loaded(
            mid,
            a,
            width_or_word(inst.head.memory_bytes as u32 as int),
            inst.ip,
            m1,
            v,
        )
}

/// `v` is what operand `i` holds.
#[verifier::opaque]
pub open spec fn op_read(m0: Emulator, inst: Inst, i: int, m1: Emulator, v: Ref) -> bool {
    let o = inst.ops@[i];
    if o.kind == REGISTER {
        reg_read(m0, o.register, m1, v)
    } else if o.kind == MEMORY {
        memory_read(m0, inst, m1, v)
    } else {
        &&& quiet(m0, m1)
        &&& has(m1.arena.nodes@, v)
        &&& match immediate_width(o.kind) {
            Some(w) => width_of(m1.arena.nodes@, v) == w && const_of(m1.arena.nodes@, v) == Some(
                o.immediate & w.mask(),
            ),
            None => width_of(m1.arena.nodes@, v) == Width::W64 && unmodelled(m0, 1, m1, v, "operand"@),
        }
    }
}

/// `v` is written to operand `i`. An operand that cannot be written stays.
#[verifier::opaque]
pub open spec fn op_written(m0: Emulator, inst: Inst, i: int, v: Ref, m1: Emulator) -> bool {
    let o = inst.ops@[i];
    if o.kind == REGISTER {
        reg_written(m0, o.register, v, m1)
    } else if o.kind == MEMORY {
        exists|mid: Emulator, a: Ref| #[trigger]
            addressed(m0, inst, mid, a) && stored(
                mid,
                a,
                v,
                width_or_word(inst.head.memory_bytes as u32 as int),
                inst.ip,
                m1,
            )
    } else {
        m1 == m0
    }
}

/// What each of these operations keeps: the machine is set up as before, the arena has
/// grown and what was recorded is still there.
pub open spec fn goes_on(m0: Emulator, m1: Emulator) -> bool {
    &&& m1.wf()
    &&& m1.arena.continues(m0.arena)
    &&& m1.same_setup(m0)
    &&& same_side_logs(m0, m1)
}

impl<'a> Emulator<'a> {
    /// Read an x86 register, honouring partial-register widths.
    pub(crate) fn read_reg(&mut self, code: u32) -> (v: Ref)
        requires
            old(self).wf(),
        ensures
            goes_on(*old(self), *final(self)),
            reg_read(*old(self), code, *final(self), v),
            final(self).arena.holds(v),
    {
        let ghost m0 = *self;
        let ghost n0 = self.arena.nodes@;
        if code == NO_REGISTER {
            let v = self.arena.constant(0, Width::W64);
            proof {
                lemma_mask(0, Width::W64.mask());
                lemma_quiet(m0, *self);
            }
            return v;
        }
        if code == RIP {
            let v = self.arena.opaque("rip", Width::W64);
            proof {
                lemma_quiet(m0, *self);
            }
            return v;
        }
        match decode_reg(code) {
            None => {
                let v = self.arena.opaque("xreg", Width::W64);
                proof {
                    lemma_quiet(m0, *self);
                }
                v
            },
            Some((base, offset, width)) => {
                let full = self.state.reg(base);
                proof {
                    assert(full == m0.state.regs@[base.number() as int]);
                    assert(has(n0, full) && width_of(n0, full) == Width::W64);
                }
                if offset > 0 {
                    let amount: u64 = 8 * (offset as u64);
                    let sh = self.arena.constant(amount, Width::W64);
                    let ghost n1 = self.arena.nodes@;
                    let moved = self.arena.bin(BinOp::Shr, full, sh);
                    let ghost n2 = self.arena.nodes@;
                    let v = self.arena.trunc(moved, width);
                    let ghost n3 = self.arena.nodes@;
                    proof {
                        lemma_mask(amount, Width::W64.mask());
                        lemma_shift_count(amount, Width::W64);
                        assert forall|e: Env| #[trigger] eval(n3, v, e) == part_value(
                            eval(n0, full, e),
                            offset,
                            width,
                        ) by {
                            assert(eval(n3, moved, e) == eval(n2, moved, e));
                            assert(eval(n2, moved, e) == crate::ir::simplify::bin_at(
                                n2,
                                BinOp::Shr,
                                full,
                                sh,
                                e,
                            ));
                            assert(eval(n2, full, e) == eval(n1, full, e));
                            assert(eval(n1, full, e) == eval(n0, full, e));
                            assert(eval(n2, sh, e) == eval(n1, sh, e));
                        }
                        lemma_quiet(m0, *self);
                    }
                    return v;
                }
                let v = self.arena.trunc(full, width);
                proof {
                    assert forall|e: Env| #[trigger] eval(self.arena.nodes@, v, e) == part_value(
                        eval(n0, full, e),
                        offset,
                        width,
                    ) by {
                        assert(eval(self.arena.nodes@, full, e) == eval(n0, full, e));
                    }
                    lemma_quiet(m0, *self);
                }
                v
            },
        }
    }

    fn note_argument(&mut self, base: Reg)
        ensures
            *final(self) == (Emulator { written_args: final(self).written_args, ..*old(self) }),
            final(self).written_args@ == args_after(old(self).written_args@, base),
    {
        let mut i: usize = 0;
        let mut is_arg: bool = false;
        while i < 4
            invariant
                i <= 4,
                is_arg <==> ARG_REGS@.take(i as int).contains(base),
            decreases 4 - i,
        {
            proof {
                assert(ARG_REGS@.take(i + 1) =~= ARG_REGS@.take(i as int).push(ARG_REGS@[i as int]));
                crate::ir::walk::lemma_push_contains(ARG_REGS@.take(i as int), ARG_REGS@[i as int]);
            }
            if ARG_REGS[i] == base {
                is_arg = true;
            }
            i = i + 1;
        }
        proof {
            assert(ARG_REGS@.take(4) =~= ARG_REGS@);
        }
        if is_arg && !self.is_written(base) {
            self.written_args.push(base);
        }
    }

    /// Whether an argument register was written since the last call.
    pub(crate) fn is_written(&self, base: Reg) -> (r: bool)
        ensures
            r == self.written_args@.contains(base),
    {
        let mut i: usize = 0;
        while i < self.written_args.len()
            invariant
                i <= self.written_args@.len(),
                forall|k: int| 0 <= k < i ==> #[trigger] self.written_args@[k] != base,
            decreases self.written_args@.len() - i,
        {
            if self.written_args[i] == base {
                return true;
            }
            i = i + 1;
        }
        false
    }

    /// Write an x86 register with correct partial-write behaviour: 32-bit writes
    /// zero-extend, 8- and 16-bit writes merge into the existing value.
    pub(crate) fn write_reg(&mut self, code: u32, value: Ref)
        requires
            old(self).wf(),
            old(self).arena.holds(value),
        ensures
            goes_on(*old(self), *final(self)),
            reg_written(*old(self), code, value, *final(self)),
    {
        let ghost m0 = *self;
        let ghost n0 = self.arena.nodes@;
        if let Some((base, offset, width)) = decode_reg(code) {
            let full = self.state.reg(base);
            proof {
                assert(full == m0.state.regs@[base.number() as int]);
                assert(has(n0, full) && width_of(n0, full) == Width::W64);
            }
            let new = merge(&mut self.arena, full, offset, width, value);
            proof {
                lemma_quiet(m0, *self);
            }
            let ghost m1 = *self;
            self.state.set_reg(base, new);
            proof {
                assert(self.state.fits_in(self.arena.nodes@)) by {
                    let n = base.number() as int;
                    assert forall|i: int| 0 <= i < 16 implies has(
                        self.arena.nodes@,
                        #[trigger] self.state.regs@[i],
                    ) && width_of(self.arena.nodes@, self.state.regs@[i]) == Width::W64 by {
                        if i != n {
                            assert(self.state.regs@[i] == m1.state.regs@[i]);
                        }
                    }
                }
            }
            self.note_argument(base);
            proof {
                lemma_wf_grows(m1, *self);
            }
        }
    }

    /// Effective address of a memory operand.
    pub(crate) fn mem_address(&mut self, inst: &Inst) -> (a: Ref)
        requires
            old(self).wf(),
        ensures
            goes_on(*old(self), *final(self)),
            addressed(*old(self), *inst, *final(self), a),
            final(self).arena.holds(a),
    {
        let ghost m0 = *self;
        let ghost n0 = self.arena.nodes@;
        let h = inst.head;
        let disp = self.arena.constant(h.displacement, Width::W64);
        let ghost m1 = *self;
        let ghost n1 = self.arena.nodes@;
        proof {
            lemma_mask(h.displacement, Width::W64.mask());
            lemma_quiet(m0, *self);
        }
        if h.base == RIP || h.base == EIP {
            return disp;
        }
        let acc = if h.base != NO_REGISTER {
            let b = self.read_reg(h.base);
            let ghost m2 = *self;
            let sum = sum_of(&mut self.arena, disp, b);
            proof {
                lemma_quiet_twice(m0, m1, m2);
                lemma_continues_twice(m0.arena, m2.arena, self.arena);
                lemma_quiet(m0, *self);
                assert forall|e: Env|
                    register_part(h.base) is Some implies #[trigger] eval(self.arena.nodes@, sum, e)
                    == wadd(h.displacement, address_part(m0, h.base, e)) by {
                    let base = (register_part(h.base)->0).0;
                    assert(has(n0, m0.state.regs@[base.number() as int]));
                    assert(eval(n1, m0.state.reg(base), e) == eval(n0, m0.state.reg(base), e));
                    assert(eval(m2.arena.nodes@, disp, e) == eval(n1, disp, e));
                }
            }
            sum
        } else {
            proof {
                assert forall|e: Env| #[trigger] eval(n1, disp, e) == wadd(
                    h.displacement,
                    address_part(m0, h.base, e),
                ) by {
                    assert(wadd(h.displacement, 0) == h.displacement);
                }
            }
            disp
        };
        let ghost m3 = *self;
        let ghost n3 = self.arena.nodes@;
        if h.index != NO_REGISTER {
            let i = self.read_reg(h.index);
            let ghost m4 = *self;
            let sum = scaled_sum(&mut self.arena, acc, i, h.scale as u64);
            proof {
                lemma_quiet_twice(m0, m3, m4);
                lemma_continues_twice(m0.arena, m4.arena, self.arena);
                lemma_quiet(m0, *self);
                assert forall|e: Env| address_known(*inst) implies #[trigger] eval(
                    self.arena.nodes@,
                    sum,
                    e,
                ) == effective_address(m0, *inst, e) by {
                    let base = (register_part(h.index)->0).0;
                    assert(has(n0, m0.state.regs@[base.number() as int]));
                    assert(eval(n3, m0.state.reg(base), e) == eval(n0, m0.state.reg(base), e));
                    assert(eval(m4.arena.nodes@, acc, e) == eval(n3, acc, e));
                }
            }
            return sum;
        }
        proof {
            assert forall|e: Env| address_known(*inst) implies #[trigger] eval(n3, acc, e)
                == effective_address(m0, *inst, e) by {
                let x = wadd(h.displacement, address_part(m0, h.base, e));
                assert(eval(n3, acc, e) == x);
                assert(wmul(0, h.scale as u64) == 0) by {
                    assert(0 * h.scale == 0);
                }
                assert(wadd(x, 0) == x);
            }
        }
        acc
    }
}

/// The sum of a word and a value, the value zero-extended.
fn sum_of(arena: &mut Arena, a: Ref, b: Ref) -> (r: Ref)
    requires
        old(arena).wf(),
        old(arena).holds(a),
        old(arena).width(a) == Width::W64,
        old(arena).holds(b),
    ensures
        final(arena).grows(*old(arena)),
        final(arena).holds(r),
        final(arena).width(r) == Width::W64,
        forall|e: Env| #[trigger]
            eval(final(arena).nodes@, r, e) == wadd(
                eval(old(arena).nodes@, a, e),
                eval(old(arena).nodes@, b, e),
            ),
        is_const(old(arena).nodes@, a) && is_const(old(arena).nodes@, b) ==> is_const(
            final(arena).nodes@,
            r,
        ),
{
    let ghost n0 = arena.nodes@;
    let wide = arena.zext(b, Width::W64);
    let ghost n1 = arena.nodes@;
    let r = arena.bin(BinOp::Add, a, wide);
    let ghost n2 = arena.nodes@;
    proof {
        assert forall|e: Env| #[trigger] eval(n2, r, e) == wadd(eval(n0, a, e), eval(n0, b, e)) by {
            assert(eval(n2, r, e) == crate::ir::simplify::bin_at(n2, BinOp::Add, a, wide, e));
            assert(eval(n2, a, e) == eval(n1, a, e));
            assert(eval(n1, a, e) == eval(n0, a, e));
            assert(eval(n2, wide, e) == eval(n1, wide, e));
            assert(eval(n1, b, e) == eval(n0, b, e));
            lemma_mask(eval(n0, b, e), Width::W64.mask());
            lemma_mask(wadd(eval(n0, a, e), eval(n0, b, e)), Width::W64.mask());
        }
    }
    r
}

/// The sum of a word and a scaled value, the value zero-extended.
fn scaled_sum(arena: &mut Arena, a: Ref, i: Ref, scale: u64) -> (r: Ref)
    requires
        old(arena).wf(),
        old(arena).holds(a),
        old(arena).width(a) == Width::W64,
        old(arena).holds(i),
    ensures
        final(arena).grows(*old(arena)),
        final(arena).holds(r),
        final(arena).width(r) == Width::W64,
        forall|e: Env| #[trigger]
            eval(final(arena).nodes@, r, e) == wadd(
                eval(old(arena).nodes@, a, e),
                wmul(eval(old(arena).nodes@, i, e), scale),
            ),
        is_const(old(arena).nodes@, a) && is_const(old(arena).nodes@, i) ==> is_const(
            final(arena).nodes@,
            r,
        ),
{
    let ghost n0 = arena.nodes@;
    let wide = arena.zext(i, Width::W64);
    let ghost n1 = arena.nodes@;
    let k = arena.constant(scale, Width::W64);
    let ghost n2 = arena.nodes@;
    let scaled = arena.bin(BinOp::Mul, wide, k);
    let ghost n3 = arena.nodes@;
    let r = sum_of(arena, a, scaled);
    proof {
        assert forall|e: Env| #[trigger] eval(arena.nodes@, r, e) == wadd(
            eval(n0, a, e),
            wmul(eval(n0, i, e), scale),
        ) by {
            assert(eval(n3, a, e) == eval(n2, a, e));
            assert(eval(n2, a, e) == eval(n1, a, e));
            assert(eval(n1, a, e) == eval(n0, a, e));
            assert(eval(n3, scaled, e) == crate::ir::simplify::bin_at(n3, BinOp::Mul, wide, k, e));
            assert(eval(n3, wide, e) == eval(n2, wide, e));
            assert(eval(n2, wide, e) == eval(n1, wide, e));
            assert(eval(n1, i, e) == eval(n0, i, e));
            assert(eval(n3, k, e) == eval(n2, k, e));
            lemma_mask(eval(n0, i, e), Width::W64.mask());
            lemma_mask(scale, Width::W64.mask());
            lemma_mask(wmul(eval(n0, i, e), scale), Width::W64.mask());
        }
    }
    r
}

/// A register's value after a part of it is written.
fn merge(arena: &mut Arena, full: Ref, offset: u32, width: Width, value: Ref) -> (r: Ref)
    requires
        old(arena).wf(),
        old(arena).holds(full),
        old(arena).width(full) == Width::W64,
        old(arena).holds(value),
        offset <= 1,
    ensures
        final(arena).grows(*old(arena)),
        final(arena).holds(r),
        final(arena).width(r) == Width::W64,
        forall|e: Env| #[trigger]
            eval(final(arena).nodes@, r, e) == merged_value(
                eval(old(arena).nodes@, full, e),
                offset,
                width,
                eval(old(arena).nodes@, value, e),
            ),
        (final(arena).nodes@, r) == merged_node(
            old(arena).nodes@,
            full,
            offset,
            width,
            value,
            old(arena).trunc_depth as nat,
        ),
        is_const(old(arena).nodes@, value) && (is_const(old(arena).nodes@, full) || offset == 0 && (width
            == Width::W64 || width == Width::W32)) ==> is_const(final(arena).nodes@, r),
        offset == 0 && width == Width::W64 && old(arena).width(value) == width ==> r == value,
{
    let ghost n0 = arena.nodes@;
    if offset == 0 && width == Width::W64 {
        let r = arena.trunc(value, Width::W64);
        proof {
            assert forall|e: Env| #[trigger] eval(arena.nodes@, r, e) == eval(n0, value, e)
                & Width::W64.mask() by {
                assert(eval(arena.nodes@, value, e) == eval(n0, value, e));
            }
        }
        return r;
    }
    if offset == 0 && width == Width::W32 {
        let v = arena.trunc(value, Width::W32);
        let ghost n1 = arena.nodes@;
        let r = arena.zext(v, Width::W64);
        proof {
            assert forall|e: Env| #[trigger] eval(arena.nodes@, r, e) == eval(n0, value, e)
                & Width::W32.mask() by {
                assert(eval(n1, value, e) == eval(n0, value, e));
                assert(eval(arena.nodes@, v, e) == eval(n1, v, e));
                lemma_mask(eval(n0, value, e), Width::W32.mask());
                lemma_mask(eval(n1, v, e), Width::W64.mask());
            }
        }
        return r;
    }
    let shift: u64 = 8 * (offset as u64);
    let keep: u64 = !(width.mask() << shift);
    let km = arena.constant(keep, Width::W64);
    let ghost n1 = arena.nodes@;
    let kept = arena.bin(BinOp::And, full, km);
    let ghost n2 = arena.nodes@;
    let v = arena.trunc(value, width);
    let ghost n3 = arena.nodes@;
    let v64 = arena.zext(v, Width::W64);
    let ghost n4 = arena.nodes@;
    let sh = arena.constant(shift, Width::W64);
    let ghost n5 = arena.nodes@;
    let placed = arena.bin(BinOp::Shl, v64, sh);
    let ghost n6 = arena.nodes@;
    let r = arena.bin(BinOp::Or, kept, placed);
    let ghost n7 = arena.nodes@;
    proof {
        lemma_mask(keep, Width::W64.mask());
        lemma_mask(shift, Width::W64.mask());
        lemma_shift_count(shift, Width::W64);
        assert forall|e: Env| #[trigger] eval(n7, r, e) == merged_value(
            eval(n0, full, e),
            offset,
            width,
            eval(n0, value, e),
        ) by {
            assert(eval(n7, r, e) == crate::ir::simplify::bin_at(n7, BinOp::Or, kept, placed, e));
            assert(eval(n7, kept, e) == eval(n2, kept, e));
            assert(eval(n2, kept, e) == crate::ir::simplify::bin_at(n2, BinOp::And, full, km, e));
            assert(eval(n2, full, e) == eval(n1, full, e));
            assert(eval(n1, full, e) == eval(n0, full, e));
            assert(eval(n2, km, e) == eval(n1, km, e));
            assert(eval(n7, placed, e) == eval(n6, placed, e));
            assert(eval(n6, placed, e) == crate::ir::simplify::bin_at(n6, BinOp::Shl, v64, sh, e));
            assert(eval(n6, v64, e) == eval(n4, v64, e));
            assert(eval(n4, v, e) == eval(n3, v, e));
            assert(eval(n3, value, e) == eval(n2, value, e));
            assert(eval(n2, value, e) == eval(n0, value, e));
            assert(eval(n6, sh, e) == eval(n5, sh, e));
            let x = eval(n0, value, e) & width.mask();
            lemma_mask(x, Width::W64.mask());
            lemma_mask(x << shift, Width::W64.mask());
        }
    }
    r
}

} // verus!
