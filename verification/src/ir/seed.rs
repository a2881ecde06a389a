//! Reading and seeding the guest's registers, and forking a machine.

use crate::ir::branch::{guest_events};
use crate::ir::context::Probe;
use crate::ir::event::{copy_list, same_event, Event};
use crate::ir::expr::{const_of, has, width_of, BlockRef, Node, Ref};
use crate::ir::guest::{
    adoption_steps, first_search, locates, relocates, location_steps, reads_guest, register_steps,
    relocation_steps, seed_chain, seed_steps, seeds, slot_seeded, slot_steps,
};
use crate::ir::lift::{events_held, lemma_wf_grows, memos_ok, Emulator};
use crate::ir::lower::event_held;
use crate::ir::machine::lemma_quiet;
use crate::ir::subst::{lemma_continues_twice, pins_hold};
use crate::ir::value::{Reg, Width};
use crate::vm::state::{byte_addr, byte_ok, stored_byte};
use std::collections::{HashMap, VecDeque};
use vstd::prelude::*;

verus! {

broadcast use vstd::std_specs::hash::group_hash_axioms;

impl<'a> Emulator<'a> {
    fn relocate(&mut self, cached: u64) -> (r: Option<u64>)
        requires
            old(self).wf(),
            old(self).guest_ctx == Some(cached),
        ensures
            final(self).wf(),
            relocates(*old(self), cached, *final(self), r),
            r is Some,
            final(self).arena.continues(old(self).arena),
            final(self).state == old(self).state,
            final(self).pins@ == old(self).pins@,
            final(self).events@ == old(self).events@,
            final(self).steps == old(self).steps,
    {
        let ghost m0 = *self;
        let p0 = self.probe_best_layout(cached);
        let ghost ma = *self;
        let saved = self.ctx_miss;
        let found = self.search_guest_context();
        let ghost mb = *self;
        self.ctx_miss = saved;
        let ghost mc = *self;
        proof {
            lemma_continues_twice(m0.arena, ma.arena, mb.arena);
            lemma_wf_grows(mb, mc);
        }
        if let Some(fresh) = found {
            let p1 = self.probe_best_layout(fresh);
            let ghost md = *self;
            proof {
                lemma_continues_twice(m0.arena, mc.arena, md.arena);
            }
            if fresh != cached && p1.score > p0.score {
                let p2 = self.probe_best_layout(fresh);
                let ghost me = *self;
                self.guest_ctx = Some(fresh);
                self.guest_layout = Some(p2.layout);
                proof {
                    lemma_continues_twice(m0.arena, md.arena, me.arena);
                    lemma_wf_grows(me, *self);
                    assert(adoption_steps(mc, cached, p0, fresh, md, p1, me, p2, *self, Some(fresh)));
                    assert(relocation_steps(m0, cached, ma, p0, mb, found, mc, *self, Some(fresh)));
                }
                return Some(fresh);
            }
            proof {
                assert(adoption_steps(mc, cached, p0, fresh, md, p1, md, p1, *self, Some(cached)));
                assert(relocation_steps(m0, cached, ma, p0, mb, found, mc, *self, Some(cached)));
            }
            return Some(cached);
        }
        proof {
            assert(relocation_steps(m0, cached, ma, p0, mb, found, mc, *self, Some(cached)));
        }
        Some(cached)
    }

    fn locate_first(&mut self) -> (r: Option<u64>)
        requires
            old(self).wf(),
            old(self).guest_ctx is None,
        ensures
            final(self).wf(),
            locates(*old(self), *final(self), r),
            final(self).arena.continues(old(self).arena),
            final(self).state == old(self).state,
            final(self).pins@ == old(self).pins@,
            final(self).events@.len() == old(self).events@.len(),
            final(self).steps == old(self).steps,
    {
        let ghost m0 = *self;
        proof {
            lemma_quiet(m0, m0);
        }
        let spilled = self.context_from_entry_spills();
        let base = match spilled {
            Some(b) => Some(b),
            None => self.search_guest_context(),
        };
        let ghost ma = *self;
        proof {
            assert(crate::ir::context::spilled_at(m0.arena.nodes@, m0.events@, spilled));
            assert(first_search(m0, ma, base));
        }
        self.guest_ctx = base;
        proof {
            lemma_wf_grows(ma, *self);
        }
        match base {
            Some(b) => {
                let ghost ms = *self;
                let p = self.probe_best_layout(b);
                let ghost mb = *self;
                self.guest_layout = Some(p.layout);
                proof {
                    lemma_continues_twice(m0.arena, ms.arena, mb.arena);
                    lemma_wf_grows(mb, *self);
                }
                self.reclassify_events();
                proof {
                    assert(location_steps(m0, ma, mb, p, *self, base));
                }
            },
            None => {
                proof {
                    assert(location_steps(m0, ma, ma, arbitrary_probe(), *self, base));
                }
            },
        }
        base
    }

    /// Locate the guest register image.
    pub fn locate_guest_context(&mut self) -> (r: Option<u64>)
        requires
            old(self).wf(),
        ensures
            final(self).wf(),
            locates(*old(self), *final(self), r),
            final(self).arena.continues(old(self).arena),
            final(self).state == old(self).state,
            final(self).pins@ == old(self).pins@,
            final(self).events@.len() == old(self).events@.len(),
            final(self).steps == old(self).steps,
    {
        match self.guest_ctx {
            Some(cached) => self.relocate(cached),
            None => self.locate_first(),
        }
    }

    /// Guest registers, read from the cached context base, locating it first if necessary.
    /// `None` means this function has no VM context.
    pub fn guest_registers(&mut self) -> (r: Option<Vec<(Reg, Ref)>>)
        requires
            old(self).wf(),
        ensures
            final(self).wf(),
            reads_guest(*old(self), *final(self), r),
            final(self).arena.continues(old(self).arena),
            final(self).state == old(self).state,
            final(self).steps == old(self).steps,
            final(self).events@.len() == old(self).events@.len(),
            r matches Some(v) ==> v@.len() > 0 && forall|k: int|
                0 <= k < v@.len() ==> has(final(self).arena.nodes@, (#[trigger] v@[k]).1)
                    && width_of(final(self).arena.nodes@, v@[k].1) == Width::W64,
    {
        let ghost m0 = *self;
        let base = self.locate_guest_context();
        let ghost ma = *self;
        match base {
            Some(b) => {
                let p = self.probe_best_layout(b);
                proof {
                    lemma_continues_twice(m0.arena, ma.arena, self.arena);
                }
                let ghost kept = p;
                let r = if p.regs.len() == 0 {
                    None
                } else {
                    Some(p.regs)
                };
                proof {
                    assert(register_steps(m0, ma, base, *self, kept, r));
                }
                r
            },
            None => {
                let r: Option<Vec<(Reg, Ref)>> = None;
                proof {
                    assert(register_steps(m0, ma, base, *self, arbitrary_probe(), r));
                }
                r
            },
        }
    }

    /// Pin a node to a value for the rest of the run.
    pub fn pin_to(&mut self, r: Ref, value: u64)
        requires
            old(self).wf(),
            old(self).arena.holds(r),
            const_of(old(self).arena.nodes@, r) is None,
        ensures
            final(self).wf(),
            final(self).pins@ == old(self).pins@.push((r, value)),
            *final(self) == (Emulator {
                pins: final(self).pins,
                memo_pin_count: 0,
                ..*old(self)
            }),
    {
        let ghost m0 = *self;
        self.pins.push((r, value));
        self.memo_pin_count = 0;
        proof {
            reveal(pins_hold);
            assert(pins_hold(self.arena.nodes@, self.pins@)) by {
                assert forall|i: int| 0 <= i < self.pins@.len() implies has(
                    self.arena.nodes@,
                    (#[trigger] self.pins@[i]).0,
                ) && const_of(self.arena.nodes@, self.pins@[i].0) is None by {
                    if i < m0.pins@.len() {
                        assert(self.pins@[i] == m0.pins@[i]);
                    }
                }
            }
        }
    }

    fn seed_slot(&mut self, addr: u64, block: BlockRef, reg: Reg) -> (p: Ref)
        requires
            old(self).wf(),
        ensures
            final(self).wf(),
            slot_seeded(*old(self), addr, block, reg, *final(self), p),
            final(self).arena.continues(old(self).arena),
            final(self).arena.holds(p),
            final(self).arena.width(p) == Width::W64,
            final(self).guest_ctx == old(self).guest_ctx,
            final(self).guest_layout == old(self).guest_layout,
            final(self).steps == old(self).steps,
            final(self).events == old(self).events,
    {
        let ghost m0 = *self;
        let held = self.raw_slot(addr);
        let ghost ma = *self;
        let was = match held {
            Some(v) => self.arena.as_const(v),
            None => None,
        };
        let p = self.arena.param(block, reg);
        let ghost mb = *self;
        proof {
            lemma_quiet(ma, mb);
        }
        self.state.store_concrete(&self.arena, addr, p, Width::W64);
        proof {
            let ns = self.arena.nodes@;
            assert(self.state.fits_in(ns)) by {
                assert forall|a: u64| #[trigger] self.state.mem@.dom().contains(a) implies byte_ok(
                    ns,
                    self.state.mem@[a],
                ) by {
                    if exists|i: int| 0 <= i < 8 && a == #[trigger] byte_addr(addr, i) {
                        let i = choose|i: int| 0 <= i < 8 && a == #[trigger] byte_addr(addr, i);
                        assert(self.state.mem@[byte_addr(addr, i)] == stored_byte(ns, p, i));
                    } else {
                        assert(self.state.mem@.dom().contains(a) == mb.state.mem@.dom().contains(a));
                    }
                }
            }
            lemma_wf_grows(mb, *self);
            lemma_continues_twice(m0.arena, ma.arena, self.arena);
        }
        if let Some(c) = was {
            self.pin_to(p, c);
        }
        proof {
            assert(slot_steps(m0, addr, block, reg, ma, held, p, *self));
        }
        p
    }

    /// Overwrite the guest register image with fresh parameters of a block, returning the
    /// parameter for each register.
    pub fn seed_guest_params(&mut self, block: BlockRef) -> (out: Vec<(Reg, Ref)>)
        requires
            old(self).wf(),
        ensures
            final(self).wf(),
            seeds(*old(self), block, *final(self), out@),
            final(self).arena.continues(old(self).arena),
            final(self).steps == old(self).steps,
            final(self).events@.len() == old(self).events@.len(),
            forall|k: int|
                0 <= k < out@.len() ==> has(final(self).arena.nodes@, (#[trigger] out@[k]).1)
                    && width_of(final(self).arena.nodes@, out@[k].1) == Width::W64,
    {
        let ghost m0 = *self;
        let base = self.locate_guest_context();
        let ghost ma = *self;
        let mut out: Vec<(Reg, Ref)> = Vec::new();
        let b: u64 = match base {
            Some(b) => b,
            None => {
                proof {
                    assert(seed_steps(m0, block, ma, base, Seq::empty(), *self, out@));
                }
                return out;
            },
        };
        let layout = self.layout();
        let mut i: usize = 0;
        let ghost mut ms: Seq<Emulator> = seq![ma];
        while i < 16
            invariant
                i <= 16,
                self.wf(),
                layout.order@.len() == 16,
                self.arena.continues(m0.arena),
                self.steps == m0.steps,
                self.events@.len() == m0.events@.len(),
                out@.len() == i,
                seed_chain(ms, b, layout, block, out@),
                ms.first() == ma,
                ms.last() == *self,
                forall|k: int|
                    0 <= k < out@.len() ==> has(self.arena.nodes@, (#[trigger] out@[k]).1)
                        && width_of(self.arena.nodes@, out@[k].1) == Width::W64,
            decreases 16 - i,
        {
            let ghost before = *self;
            let ghost listed = out@;
            let ghost chain = ms;
            let addr: u64 = layout.address(b, i);
            let reg = layout.order[i];
            let p = self.seed_slot(addr, block, reg);
            out.push((reg, p));
            proof {
                lemma_continues_twice(m0.arena, before.arena, self.arena);
                ms = ms.push(*self);
                assert forall|k: int| 0 <= k < out@.len() implies (#[trigger] out@[k]).0
                    == layout.order@[k] && slot_seeded(
                    ms[k],
                    layout.slot_addr(b, k),
                    block,
                    layout.order@[k],
                    ms[k + 1],
                    out@[k].1,
                ) by {
                    assert(ms[k] == chain[k]);
                    if k < i {
                        assert(out@[k] == listed[k]);
                        assert(ms[k + 1] == chain[k + 1]);
                    } else {
                        assert(chain[k] == before);
                    }
                }
                assert forall|k: int| 0 <= k < out@.len() implies has(
                    self.arena.nodes@,
                    (#[trigger] out@[k]).1,
                ) && width_of(self.arena.nodes@, out@[k].1) == Width::W64 by {
                    if k < i {
                        assert(out@[k] == listed[k]);
                        assert(has(before.arena.nodes@, listed[k].1));
                    }
                }
            }
            i = i + 1;
        }
        proof {
            assert(seed_steps(m0, block, ma, base, ms, *self, out@));
        }
        out
    }

    /// Register a block identity, so that reaching it again reports a back edge instead of
    /// lifting the loop body again.
    pub fn mark_visited(&mut self, handler: u64, vip: Option<u64>)
        requires
            old(self).wf(),
        ensures
            final(self).wf(),
            final(self).block_entries@ == old(self).block_entries@.push((handler, vip)),
            *final(self) == (Emulator { block_entries: final(self).block_entries, ..*old(self) }),
    {
        self.block_entries.push((handler, vip));
    }

    /// Note that a block is starting: a loop must make progress.
    pub fn begin_block(&mut self)
        requires
            old(self).wf(),
        ensures
            final(self).wf(),
            final(self).events_at_block_entry == guest_events(
                old(self).events@,
                old(self).events@.len() as int,
            ),
            *final(self) == (Emulator {
                events_at_block_entry: final(self).events_at_block_entry,
                ..*old(self)
            }),
    {
        self.events_at_block_entry = self.guest_event_count();
    }

    /// Forget which blocks were recovered.
    pub fn clear_visited(&mut self)
        requires
            old(self).wf(),
        ensures
            final(self).wf(),
            final(self).block_entries@.len() == 0,
            *final(self) == (Emulator { block_entries: final(self).block_entries, ..*old(self) }),
    {
        self.block_entries.clear();
    }
}

/// Some probe, where any will do.
pub open spec fn arbitrary_probe() -> Probe {
    vstd::pervasive::arbitrary::<Probe>()
}

/// Two machines with the same contents. What is remembered about pins is left behind.
pub open spec fn same_machine(a: Emulator, b: Emulator) -> bool {
    &&& b.same_setup(a)
    &&& b.arena.nodes@ == a.arena.nodes@
    &&& b.arena.opaque_counter == a.arena.opaque_counter
    &&& b.arena.mem_gen == a.arena.mem_gen
    &&& b.state.regs@ == a.state.regs@
    &&& b.state.flags@ == a.state.flags@
    &&& b.state.mem@ == a.state.mem@
    &&& b.state.sym_stores@ == a.state.sym_stores@
    &&& b.state.xmm@ == a.state.xmm@
    &&& b.events@.len() == a.events@.len()
    &&& forall|i: int| 0 <= i < a.events@.len() ==> same_event(#[trigger] b.events@[i], a.events@[i])
    &&& b.trace@ == a.trace@
    &&& b.steps == a.steps
    &&& b.dispatches@ == a.dispatches@
    &&& b.unmapped_loads@ == a.unmapped_loads@
    &&& b.symbolic_loads@ == a.symbolic_loads@
    &&& b.unwind_slot == a.unwind_slot
    &&& b.written_args@ == a.written_args@
    &&& b.folded@ == a.folded@
}

proof fn lemma_same_event_held(a: Event, b: Event, ns: Seq<Node>)
    requires
        same_event(b, a),
        event_held(ns, a),
    ensures
        event_held(ns, b),
{
}

fn copy_events(events: &Vec<Event>) -> (r: Vec<Event>)
    ensures
        r@.len() == events@.len(),
        forall|i: int| 0 <= i < r@.len() ==> same_event(#[trigger] r@[i], events@[i]),
{
    let mut out: Vec<Event> = Vec::new();
    let mut i: usize = 0;
    while i < events.len()
        invariant
            i <= events@.len(),
            out@.len() == i,
            forall|k: int| 0 <= k < i ==> same_event(#[trigger] out@[k], events@[k]),
        decreases events@.len() - i,
    {
        out.push(events[i].clone());
        i = i + 1;
    }
    out
}

fn copy_trace(trace: &VecDeque<u64>) -> (r: VecDeque<u64>)
    ensures
        r@ == trace@,
{
    let mut out: VecDeque<u64> = VecDeque::new();
    let mut i: usize = 0;
    while i < trace.len()
        invariant
            i <= trace@.len(),
            out@ == trace@.take(i as int),
        decreases trace@.len() - i,
    {
        out.push_back(trace[i]);
        i = i + 1;
        proof {
            assert(out@ =~= trace@.take(i as int));
        }
    }
    proof {
        assert(out@ =~= trace@);
    }
    out
}

impl<'a> Clone for Emulator<'a> {
    fn clone(&self) -> (r: Self)
        ensures
            self.wf() ==> r.wf(),
            same_machine(*self, r),
    {
        let r = Emulator {
            pe: self.pe,
            arena: self.arena.clone(),
            state: self.state.clone(),
            events: copy_events(&self.events),
            stack_base: self.stack_base,
            trace: copy_trace(&self.trace),
            steps: self.steps,
            dispatches: copy_list(&self.dispatches),
            unmapped_loads: copy_list(&self.unmapped_loads),
            symbolic_loads: copy_list(&self.symbolic_loads),
            pins: copy_list(&self.pins),
            ctx_miss: self.ctx_miss,
            guest_ctx: self.guest_ctx,
            stop_on_revisit: self.stop_on_revisit,
            block_entries: copy_list(&self.block_entries),
            events_at_block_entry: self.events_at_block_entry,
            unwind_slot: self.unwind_slot,
            subst_memo: HashMap::new(),
            memo_pin_count: 0,
            pin_dep: HashMap::new(),
            node_limit: self.node_limit,
            box_unmodelled: self.box_unmodelled,
            assume_cet_disabled: self.assume_cet_disabled,
            vm_range: self.vm_range,
            noreturn_slots: copy_list(&self.noreturn_slots),
            import_slots: std::rc::Rc::clone(&self.import_slots),
            written_args: copy_list(&self.written_args),
            guest_layout: self.guest_layout,
            vip_slot: self.vip_slot,
            folded: Ghost(self.folded@),
            steady: Ghost(Map::empty()),
        };
        proof {
            if self.wf() {
                let ns = self.arena.nodes@;
                reveal(events_held);
                reveal(memos_ok);
                assert forall|i: int| 0 <= i < r.events@.len() implies event_held(
                    ns,
                    #[trigger] r.events@[i],
                ) by {
                    assert(event_held(ns, self.events@[i]));
                    lemma_same_event_held(self.events@[i], r.events@[i], ns);
                }
            }
        }
        r
    }
}

} // verus!
