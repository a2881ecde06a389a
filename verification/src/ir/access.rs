//! Loads, stores and operands.

use crate::ir::alu::fixed;
use crate::ir::decode::{
    Inst, IMMEDIATE_16, IMMEDIATE_32, IMMEDIATE_32_TO_64, IMMEDIATE_64, IMMEDIATE_8,
    IMMEDIATE_8_2ND, IMMEDIATE_8_TO_16, IMMEDIATE_8_TO_32, IMMEDIATE_8_TO_64, MEMORY, REGISTER,
};
use crate::ir::event::Event;
use crate::ir::expr::{const_of, eval, has, width_of, Env, Ref};
use crate::ir::fold::{lemma_mask, wadd};
use crate::ir::lift::{lemma_events_push, lemma_wf_grows, Emulator};
use crate::ir::machine::{
    addressed, forgotten, goes_on, lemma_quiet, loaded, mem_stored, op_read, op_written, read_at,
    rebuilt, reg_set, state_only, stored,
};
use crate::ir::region::region_at;
use crate::ir::subst::{
    byte_found, byte_missing, bytes_at, foldable, found_in_memory, is_foldable,
    lemma_continues_twice, memory_value,
};
use crate::ir::value::{BinOp, Reg, Width};
use crate::vm::load::{all_known, lemma_join_stored};
use crate::vm::state::{byte_addr, byte_ok, join_bytes, stored_byte, Byte};
use vstd::prelude::*;

verus! {

broadcast use vstd::std_specs::hash::group_hash_axioms;

/// The stack pointer moves by `delta`.
pub open spec fn stack_moved(m0: Emulator, delta: u64, m1: Emulator) -> bool {
    &&& state_only(m0, m1)
    &&& m1.written_args == m0.written_args
    &&& reg_set(m0.state, Reg::Rsp, m1.state.reg(Reg::Rsp), m1.state)
    &&& has(m1.arena.nodes@, m1.state.reg(Reg::Rsp))
    &&& forall|e: Env| #[trigger]
        eval(m1.arena.nodes@, m1.state.reg(Reg::Rsp), e) == wadd(
            eval(m0.arena.nodes@, m0.state.reg(Reg::Rsp), e),
            delta,
        )
    &&& fixed(m0, m0.state.reg(Reg::Rsp)) ==> fixed(m1, m1.state.reg(Reg::Rsp))
    &&& m1.arena.opaque_counter == m0.arena.opaque_counter
}

/// `value` is pushed: RSP moves down by a word, and the value is stored there.
#[verifier::opaque]
pub open spec fn pushed(m0: Emulator, value: Ref, site: u64, m1: Emulator) -> bool {
    exists|mid: Emulator| #[trigger]
        stack_moved(m0, 0xffff_ffff_ffff_fff8, mid) && stored(
            mid,
            mid.state.reg(Reg::Rsp),
            value,
            Width::W64,
            site,
            m1,
        )
}

/// `v` is popped: it is loaded from where RSP points, and RSP moves up by a word.
#[verifier::opaque]
pub open spec fn popped(m0: Emulator, site: u64, m1: Emulator, v: Ref) -> bool {
    exists|mid: Emulator| #[trigger]
        loaded(m0, m0.state.reg(Reg::Rsp), Width::W64, site, mid, v) && stack_moved(mid, 8, m1)
}

impl<'a> Emulator<'a> {
    /// One more event.
    fn record(&mut self, event: Event)
        requires
            old(self).wf(),
            crate::ir::lower::event_held(old(self).arena.nodes@, event),
        ensures
            final(self).wf(),
            final(self).events@ == old(self).events@.push(event),
            *final(self) == (Emulator { events: final(self).events, ..*old(self) }),
    {
        proof {
            lemma_events_push(self.events@, event, self.arena.nodes@);
        }
        self.events.push(event);
    }

    /// Read memory. What the file or an earlier store put there is read where that is
    /// sure to be what the program would find; any other read is recorded.
    pub(crate) fn load(&mut self, addr: Ref, width: Width, site: u64) -> (v: Ref)
        requires
            old(self).wf(),
            old(self).arena.holds(addr),
        ensures
            goes_on(*old(self), *final(self)),
            loaded(*old(self), addr, width, site, *final(self), v),
            final(self).arena.holds(v),
            final(self).arena.width(v) == width,
            final(self).state == old(self).state,
            final(self).written_args == old(self).written_args,
    {
        let ghost m0 = *self;
        let a = self.substitute(addr);
        let ghost mid = *self;
        let v = self.load_at(a, width, site);
        proof {
            assert(rebuilt(m0, addr, mid, a));
            lemma_continues_twice(m0.arena, mid.arena, self.arena);
        }
        v
    }

    fn load_at(&mut self, a: Ref, width: Width, site: u64) -> (v: Ref)
        requires
            old(self).wf(),
            old(self).arena.holds(a),
        ensures
            goes_on(*old(self), *final(self)),
            read_at(*old(self), a, width, site, *final(self), v),
            final(self).arena.holds(v),
            final(self).arena.width(v) == width,
            final(self).state == old(self).state,
            final(self).written_args == old(self).written_args,
    {
        let ghost m0 = *self;
        if let Some(c) = self.arena.as_const(a) {
            if is_foldable(self.pe, c, width) {
                if let Some(v) = memory_value(&self.state, &mut self.arena, self.pe, c, width) {
                    proof {
                        lemma_quiet(m0, *self);
                    }
                    return v;
                }
                proof {
                    lemma_quiet(m0, *self);
                }
            }
            let ghost m1 = *self;
            let v = self.arena.load(a, width);
            proof {
                lemma_quiet(m1, *self);
                lemma_continues_twice(m0.arena, m1.arena, self.arena);
            }
            let ghost m2 = *self;
            if self.pe.image_u8(c).is_none() {
                self.unmapped_loads.push((site, c, width));
                proof {
                    lemma_wf_grows(m2, *self);
                }
            }
            let region = self.region_of_addr(c);
            self.record(Event::Load { addr: a, value: v, width, site, region });
            proof {
                lemma_same_region(m2, *self, c);
            }
            return v;
        }
        let v = self.arena.load(a, width);
        proof {
            lemma_quiet(m0, *self);
        }
        let ghost m2 = *self;
        self.symbolic_loads.push((site, width));
        proof {
            lemma_wf_grows(m2, *self);
        }
        let region = self.region_of_symbolic(a);
        self.record(Event::Load { addr: a, value: v, width, site, region });
        v
    }

    /// Forget what memory holds at an address, without recording an event: such a write is
    /// made by replaying the instruction's own bytes.
    pub(crate) fn forget_memory(&mut self, addr: Ref, bytes: u32)
        requires
            old(self).wf(),
            old(self).arena.holds(addr),
        ensures
            goes_on(*old(self), *final(self)),
            forgotten(*old(self), addr, bytes, *final(self)),
    {
        let ghost m0 = *self;
        match self.arena.as_const(addr) {
            Some(a) => {
                self.state.forget_concrete(a, bytes);
                self.arena.bump_mem_gen();
                proof {
                    lemma_wf_grows(m0, *self);
                }
            },
            None => {
                let w = match Width::from_bytes(bytes) {
                    Some(w) => w,
                    None => Width::W64,
                };
                let v = self.arena.opaque("boxed_mem", w);
                proof {
                    lemma_quiet(m0, *self);
                }
                let ghost m1 = *self;
                self.state.sym_stores.push((addr, v, w));
                self.arena.bump_mem_gen();
                proof {
                    lemma_continues_twice(m0.arena, m1.arena, self.arena);
                    lemma_wf_grows(m1, *self);
                    assert(has(self.arena.nodes@, v));
                }
            },
        }
    }

    /// Write memory.
    pub(crate) fn store(&mut self, addr: Ref, value: Ref, width: Width, site: u64)
        requires
            old(self).wf(),
            old(self).arena.holds(addr),
            old(self).arena.holds(value),
        ensures
            goes_on(*old(self), *final(self)),
            stored(*old(self), addr, value, width, site, *final(self)),
    {
        let ghost m0 = *self;
        let ghost ns = self.arena.nodes@;
        if let Some(a) = self.arena.as_const(addr) {
            if width == Width::W64 {
                if let Some(v) = self.arena.as_const(value) {
                    proof {
                        assert(has(ns, self.state.regs@[Reg::Rbp.number() as int]));
                    }
                    let rbp = self.arena.as_const(self.state.reg(Reg::Rbp));
                    if rbp == Some(a) && self.in_vm(v) {
                        self.unwind_slot = Some(v);
                    }
                }
            }
            let ghost m1 = *self;
            self.state.store_concrete(&self.arena, a, value, width);
            proof {
                lemma_store_fits(m1, self.state, a, value, width);
            }
            self.arena.bump_mem_gen();
            proof {
                lemma_wf_grows(m0, *self);
            }
            let ghost m2 = *self;
            let region = self.region_of_addr(a);
            self.record(Event::Store { addr, value, width, site, region });
            return;
        }
        self.state.sym_stores.push((addr, value, width));
        self.arena.bump_mem_gen();
        proof {
            lemma_wf_grows(m0, *self);
        }
        let region = self.region_of_symbolic(addr);
        self.record(Event::Store { addr, value, width, site, region });
    }

    /// The value of operand `op`.
    pub(crate) fn read_op(&mut self, inst: &Inst, op: usize) -> (v: Ref)
        requires
            old(self).wf(),
            inst.wf(),
            op < 5,
        ensures
            goes_on(*old(self), *final(self)),
            op_read(*old(self), *inst, op as int, *final(self), v),
            final(self).arena.holds(v),
    {
        let ghost m0 = *self;
        proof {
            reveal(op_read);
        }
        let o = inst.ops[op];
        if o.kind == REGISTER {
            return self.read_reg(o.register);
        }
        if o.kind == MEMORY {
            let a = self.mem_address(inst);
            let ghost m1 = *self;
            let v = self.load(a, inst.memory_width(), inst.ip);
            proof {
                assert(addressed(m0, *inst, m1, a));
                lemma_continues_twice(m0.arena, m1.arena, self.arena);
            }
            return v;
        }
        let w = if o.kind == IMMEDIATE_8 || o.kind == IMMEDIATE_8_2ND {
            Width::W8
        } else if o.kind == IMMEDIATE_16 || o.kind == IMMEDIATE_8_TO_16 {
            Width::W16
        } else if o.kind == IMMEDIATE_32 || o.kind == IMMEDIATE_8_TO_32 {
            Width::W32
        } else if o.kind == IMMEDIATE_64 || o.kind == IMMEDIATE_8_TO_64 || o.kind
            == IMMEDIATE_32_TO_64 {
            Width::W64
        } else {
            let v = self.arena.opaque("operand", Width::W64);
            proof {
                lemma_quiet(m0, *self);
            }
            return v;
        };
        let v = self.arena.constant(o.immediate, w);
        proof {
            lemma_quiet(m0, *self);
        }
        v
    }

    /// Write operand `op`.
    pub(crate) fn write_op(&mut self, inst: &Inst, op: usize, value: Ref)
        requires
            old(self).wf(),
            inst.wf(),
            op < 5,
            old(self).arena.holds(value),
        ensures
            goes_on(*old(self), *final(self)),
            op_written(*old(self), *inst, op as int, value, *final(self)),
    {
        let ghost m0 = *self;
        proof {
            reveal(op_written);
        }
        let o = inst.ops[op];
        if o.kind == REGISTER {
            self.write_reg(o.register, value);
        } else if o.kind == MEMORY {
            let a = self.mem_address(inst);
            let ghost m1 = *self;
            self.store(a, value, inst.memory_width(), inst.ip);
            proof {
                assert(addressed(m0, *inst, m1, a));
                lemma_continues_twice(m0.arena, m1.arena, self.arena);
            }
        }
    }

    /// Move the stack pointer.
    pub(crate) fn move_stack(&mut self, delta: u64)
        requires
            old(self).wf(),
        ensures
            goes_on(*old(self), *final(self)),
            stack_moved(*old(self), delta, *final(self)),
    {
        let ghost m0 = *self;
        let ghost n0 = self.arena.nodes@;
        let sp = self.state.reg(Reg::Rsp);
        proof {
            assert(sp == m0.state.regs@[Reg::Rsp.number() as int]);
            assert(has(n0, sp) && width_of(n0, sp) == Width::W64);
        }
        let k = self.arena.constant(delta, Width::W64);
        let ghost n1 = self.arena.nodes@;
        let new = self.arena.bin(BinOp::Add, sp, k);
        let ghost n2 = self.arena.nodes@;
        proof {
            lemma_mask(delta, Width::W64.mask());
            assert forall|e: Env| #[trigger] eval(n2, new, e) == wadd(eval(n0, sp, e), delta) by {
                assert(eval(n2, new, e) == crate::ir::simplify::bin_at(n2, BinOp::Add, sp, k, e));
                assert(eval(n2, sp, e) == eval(n1, sp, e));
                assert(eval(n1, sp, e) == eval(n0, sp, e));
                assert(eval(n2, k, e) == eval(n1, k, e));
                lemma_mask(wadd(eval(n0, sp, e), delta), Width::W64.mask());
            }
            lemma_quiet(m0, *self);
        }
        let ghost m1 = *self;
        self.state.set_reg(Reg::Rsp, new);
        proof {
            assert forall|i: int| 0 <= i < 16 implies has(n2, #[trigger] self.state.regs@[i])
                && width_of(n2, self.state.regs@[i]) == Width::W64 by {
                if i != Reg::Rsp.number() {
                    assert(self.state.regs@[i] == m1.state.regs@[i]);
                }
            }
            lemma_wf_grows(m1, *self);
        }
    }

    /// Push a word.
    pub(crate) fn push(&mut self, value: Ref, site: u64)
        requires
            old(self).wf(),
            old(self).arena.holds(value),
        ensures
            goes_on(*old(self), *final(self)),
            pushed(*old(self), value, site, *final(self)),
    {
        let ghost m0 = *self;
        proof {
            reveal(pushed);
        }
        self.move_stack(0xffff_ffff_ffff_fff8);
        let ghost m1 = *self;
        let sp = self.state.reg(Reg::Rsp);
        proof {
            assert(has(self.arena.nodes@, self.state.regs@[Reg::Rsp.number() as int]));
        }
        self.store(sp, value, Width::W64, site);
        proof {
            assert(stack_moved(m0, 0xffff_ffff_ffff_fff8, m1));
            lemma_continues_twice(m0.arena, m1.arena, self.arena);
        }
    }

    /// Pop a word.
    pub(crate) fn pop(&mut self, site: u64) -> (v: Ref)
        requires
            old(self).wf(),
        ensures
            goes_on(*old(self), *final(self)),
            popped(*old(self), site, *final(self), v),
            final(self).arena.holds(v),
            final(self).arena.width(v) == Width::W64,
    {
        let ghost m0 = *self;
        proof {
            reveal(popped);
            assert(has(self.arena.nodes@, self.state.regs@[Reg::Rsp.number() as int]));
        }
        let sp = self.state.reg(Reg::Rsp);
        let v = self.load(sp, Width::W64, site);
        let ghost m1 = *self;
        self.move_stack(8);
        proof {
            assert(loaded(m0, sp, Width::W64, site, m1, v));
            lemma_continues_twice(m0.arena, m1.arena, self.arena);
        }
        v
    }
}

/// The records play no part in which region an address is in.
proof fn lemma_same_region(a: Emulator, b: Emulator, addr: u64)
    requires
        a.pe == b.pe,
        a.state == b.state,
        a.arena == b.arena,
        a.pins@ == b.pins@,
        a.guest_ctx == b.guest_ctx,
        a.guest_layout == b.guest_layout,
        a.stack_base == b.stack_base,
        a.vm_range == b.vm_range,
    ensures
        region_at(a, addr) == region_at(b, addr),
{
}

/// A stored value leaves memory made of nodes.
proof fn lemma_store_fits(
    m: Emulator,
    s: crate::vm::state::State,
    addr: u64,
    value: Ref,
    w: Width,
)
    requires
        m.wf(),
        has(m.arena.nodes@, value),
        mem_stored(m.arena.nodes@, m.state.mem@, addr, value, w, s.mem@),
        s.regs@ == m.state.regs@,
        s.flags@ == m.state.flags@,
        s.xmm@ == m.state.xmm@,
    ensures
        s.fits_in(m.arena.nodes@),
{
    let ns = m.arena.nodes@;
    assert forall|a: u64| #[trigger] s.mem@.dom().contains(a) implies byte_ok(ns, s.mem@[a]) by {
        if exists|i: int| 0 <= i < w.bytes() && a == #[trigger] byte_addr(addr, i) {
            let i = choose|i: int| 0 <= i < w.bytes() && a == #[trigger] byte_addr(addr, i);
            assert(s.mem@[byte_addr(addr, i)] == stored_byte(ns, value, i));
        } else {
            assert(s.mem@.dom().contains(a) == m.state.mem@.dom().contains(a));
        }
    }
}

/// A load from where a value was stored gives the value back, cut to the width of the
/// access, wherever what memory holds can be read.
pub proof fn a_load_gives_back_the_store(
    m0: Emulator,
    addr: Ref,
    value: Ref,
    w: Width,
    store_site: u64,
    m1: Emulator,
    load_site: u64,
    m2: Emulator,
    v: Ref,
    e: Env,
)
    requires
        m0.arena.wf(),
        has(m0.arena.nodes@, addr),
        has(m0.arena.nodes@, value),
        const_of(m0.arena.nodes@, addr) matches Some(a) && foldable(*m0.pe, a, w),
        stored(m0, addr, value, w, store_site, m1),
        loaded(m1, addr, w, load_site, m2, v),
    ensures
        eval(m2.arena.nodes@, v, e) == eval(m0.arena.nodes@, value, e) & w.mask(),
{
    let a = const_of(m0.arena.nodes@, addr)->0;
    let (mid, at) = choose|mid: Emulator, at: Ref| #[trigger]
        rebuilt(m1, addr, mid, at) && read_at(mid, at, w, load_site, m2, v);
    assert(at == addr);
    let n1 = mid.arena.nodes@;
    assert(const_of(n1, addr) == Some(a));
    let mem = m1.state.mem@;
    assert(mem_stored(m0.arena.nodes@, m0.state.mem@, a, value, w, mem));
    assert(!byte_missing(mem, *m0.pe, a, w.bytes() as int)) by {
        if byte_missing(mem, *m0.pe, a, w.bytes() as int) {
            let i = choose|i: int|
                #![trigger byte_addr(a, i)]
                0 <= i < w.bytes() && !mem.dom().contains(byte_addr(a, i)) && m0.pe.byte_at(
                    byte_addr(a, i),
                ) is None;
            assert(mem.dom().contains(byte_addr(a, i)));
        }
    }
    assert(found_in_memory(mem, *m0.pe, n1, a, w, m2.arena.nodes@, v));
    let bytes = choose|bytes: Seq<Byte>| #[trigger]
        bytes_at(mem, *m0.pe, a, bytes) && bytes.len() == w.bytes() && (forall|e: Env| #[trigger]
            eval(m2.arena.nodes@, v, e) == join_bytes(n1, bytes, e)) && (
        all_known(bytes) ==> const_of(m2.arena.nodes@, v) is Some);
    assert forall|i: int| 0 <= i < bytes.len() implies #[trigger] bytes[i]
        == stored_byte(n1, value, i) by {
        assert(byte_found(mem, *m0.pe, byte_addr(a, i), bytes[i]));
        assert(mem.dom().contains(byte_addr(a, i)));
    }
    lemma_join_stored(n1, bytes, value, w, e);
    assert(eval(n1, value, e) == eval(m0.arena.nodes@, value, e));
}

/// What is pushed is popped, and the stack pointer is where it was, wherever the stack can
/// be read.
pub proof fn popping_undoes_pushing(
    m0: Emulator,
    value: Ref,
    push_site: u64,
    m1: Emulator,
    pop_site: u64,
    m2: Emulator,
    v: Ref,
    e: Env,
)
    requires
        goes_on(m0, m1),
        m0.wf(),
        has(m0.arena.nodes@, value),
        width_of(m0.arena.nodes@, value) == Width::W64,
        pushed(m0, value, push_site, m1),
        const_of(m1.arena.nodes@, m1.state.reg(Reg::Rsp)) matches Some(a) && foldable(
            *m0.pe,
            a,
            Width::W64,
        ),
        popped(m1, pop_site, m2, v),
    ensures
        eval(m2.arena.nodes@, v, e) == eval(m0.arena.nodes@, value, e),
        eval(m2.arena.nodes@, m2.state.reg(Reg::Rsp), e) == eval(
            m0.arena.nodes@,
            m0.state.reg(Reg::Rsp),
            e,
        ),
{
    reveal(pushed);
    reveal(popped);
    let low = choose|mid: Emulator| #[trigger]
        stack_moved(m0, 0xffff_ffff_ffff_fff8, mid) && stored(
            mid,
            mid.state.reg(Reg::Rsp),
            value,
            Width::W64,
            push_site,
            m1,
        );
    let read = choose|mid: Emulator| #[trigger]
        loaded(m1, m1.state.reg(Reg::Rsp), Width::W64, pop_site, mid, v) && stack_moved(mid, 8, m2);
    let n0 = m0.arena.nodes@;
    assert(m1.state.regs@ == low.state.regs@);
    let sp = m1.state.reg(Reg::Rsp);
    assert(sp == low.state.reg(Reg::Rsp));
    assert(has(low.arena.nodes@, sp));
    a_load_gives_back_the_store(
        low,
        sp,
        value,
        Width::W64,
        push_site,
        m1,
        pop_site,
        read,
        v,
        e,
    );
    assert(eval(low.arena.nodes@, value, e) == eval(n0, value, e));
    lemma_mask(eval(n0, value, e), Width::W64.mask());
    assert(read.state.regs@ == m1.state.regs@);
    assert(eval(read.arena.nodes@, sp, e) == eval(low.arena.nodes@, sp, e));
    assert(eval(m2.arena.nodes@, v, e) == eval(read.arena.nodes@, v, e));
    let x = eval(n0, m0.state.reg(Reg::Rsp), e);
    assert(eval(low.arena.nodes@, sp, e) == wadd(x, 0xffff_ffff_ffff_fff8));
    assert(read.state.reg(Reg::Rsp) == sp);
    assert(eval(m2.arena.nodes@, m2.state.reg(Reg::Rsp), e) == wadd(
        eval(read.arena.nodes@, read.state.reg(Reg::Rsp), e),
        8,
    ));
    assert(wadd(wadd(x, 0xffff_ffff_ffff_fff8), 8) == x) by (bit_vector);
}

} // verus!
