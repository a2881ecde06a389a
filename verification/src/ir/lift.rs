//! x86 semantics over the abstract state ("guided symbolic evaluation"): single-step the
//! VM's own code with RSP concretized, let constant folding collapse the obfuscated
//! dispatch arithmetic, and follow the resulting computed jumps.

use crate::ir::event::Event;
use crate::ir::expr::{extends, has, Arena, Node, Ref};
use crate::ir::lower::event_held;
use crate::ir::settle::{entry_settled, known_by};
use crate::ir::subst::{entry_ok, fold_held, pins_hold, reaches_pin};
use crate::ir::value::{Reg, Width};
use crate::vm::image::Image;
use crate::vm::state::{byte_ok, Byte, State};
use std::collections::{HashMap, HashSet, VecDeque};
use std::rc::Rc;
use vstd::prelude::*;

verus! {

broadcast use vstd::std_specs::hash::group_hash_axioms;

/// Order of the guest register image in the VM context.
pub const GUEST_IMAGE_ORDER: [Reg; 16] = [
    Reg::Rax,
    Reg::Rbx,
    Reg::Rcx,
    Reg::Rdx,
    Reg::Rsp,
    Reg::Rbp,
    Reg::Rsi,
    Reg::Rdi,
    Reg::R8,
    Reg::R9,
    Reg::R10,
    Reg::R11,
    Reg::R12,
    Reg::R13,
    Reg::R14,
    Reg::R15,
];

/// The other order of the guest register image, with the flags word in front.
pub const GUEST_IMAGE_ORDER_ALT: [Reg; 16] = [
    Reg::Rax,
    Reg::Rbp,
    Reg::Rbx,
    Reg::Rcx,
    Reg::Rdi,
    Reg::Rdx,
    Reg::Rsi,
    Reg::Rsp,
    Reg::R8,
    Reg::R9,
    Reg::R10,
    Reg::R11,
    Reg::R12,
    Reg::R13,
    Reg::R14,
    Reg::R15,
];

/// The registers the calling convention passes arguments in.
pub const ARG_REGS: [Reg; 4] = [Reg::Rcx, Reg::Rdx, Reg::R8, Reg::R9];

/// How many recently interpreted instruction addresses an [`Emulator`] retains.
pub const TRACE_TAIL_CAP: usize = 4096;

/// Upper bound on the number of expression nodes, unless told otherwise.
pub const DEFAULT_NODE_LIMIT: usize = 1_000_000;

/// A candidate layout of the guest register image: the order of the slots and where they
/// start.
#[derive(Debug, Clone, Copy)]
pub struct Layout {
    pub order: [Reg; 16],
    /// Bytes from the image base to register slot 0. Non-zero when the flags word leads
    /// the image.
    pub first_reg: u64,
}

/// A load that was resolved while a value was rebuilt: address, memory generation, width
/// and the value found there.
pub ghost struct Fold {
    pub addr: u64,
    pub generation: u32,
    pub width: Width,
    pub value: Ref,
}

pub struct Emulator<'a> {
    pub pe: &'a Image,
    pub arena: Arena,
    pub state: State,
    pub events: Vec<Event>,
    /// Base value RSP was concretized to.
    pub stack_base: u64,
    /// Instruction addresses visited, most recent last, at most [`TRACE_TAIL_CAP`].
    pub trace: VecDeque<u64>,
    /// Instructions interpreted, counting those dropped from `trace`.
    pub steps: usize,
    /// Every resolved indirect branch: (site, destination). These are the VM handler
    /// transitions, i.e. the bytecode program being decoded.
    pub dispatches: Vec<(u64, u64)>,
    /// Loads from a concrete address with no image backing: (site, address, width).
    pub unmapped_loads: Vec<(u64, u64, Width)>,
    /// Loads whose address never folded to a constant: (site, width).
    pub symbolic_loads: Vec<(u64, Width)>,
    /// Leaves pinned to concrete values for this run.
    pub pins: Vec<(Ref, u64)>,
    /// Why the last context search failed: whether a plausible RSP slot was found, and the
    /// best score seen.
    pub ctx_miss: Option<(bool, usize)>,
    /// Cached candidate base of the guest register image.
    pub guest_ctx: Option<u64>,
    /// Whether reaching an already recovered block entry stops evaluation.
    pub stop_on_revisit: bool,
    /// Identities of already recovered blocks, as (handler, VIP) pairs.
    pub block_entries: Vec<(u64, Option<u64>)>,
    /// Guest events recorded when the current block began running.
    pub events_at_block_entry: usize,
    /// The pointer the VM parks in its frame for unwinding. It points into the VM section,
    /// so VIP detection has to filter it out explicitly.
    pub unwind_slot: Option<u64>,
    /// Values already rebuilt under the pins.
    pub subst_memo: HashMap<usize, Ref>,
    /// Number of pins the memos were built against; a change invalidates them.
    pub memo_pin_count: usize,
    /// Whether a value reaches a pin, for the values that were asked about.
    pub pin_dep: HashMap<usize, bool>,
    /// Upper bound on expression nodes before evaluation is abandoned.
    pub node_limit: usize,
    /// Record instructions outside the modelled subset and go on, rather than stopping.
    pub box_unmodelled: bool,
    /// Treat shadow stack queries as disabled.
    pub assume_cet_disabled: bool,
    /// First and one past the last address of the VM section.
    pub vm_range: (u64, u64),
    /// Import slots of routines that never return.
    pub noreturn_slots: Vec<u64>,
    /// Every import slot of the image.
    pub import_slots: Rc<HashSet<u64>>,
    /// Argument registers an instruction has written since the last call.
    pub written_args: Vec<Reg>,
    /// Layout the guest register image was found to use, once known.
    pub guest_layout: Option<Layout>,
    pub vip_slot: Option<u64>,
    /// The loads resolved so far while values were rebuilt.
    pub folded: Ghost<Seq<Fold>>,
    /// What memory has held through everything that is remembered of rebuilt values.
    pub steady: Ghost<Map<u64, Byte>>,
}

/// Every event refers to nodes of the arena.
#[verifier::opaque]
pub open spec fn events_held(ns: Seq<Node>, events: Seq<Event>) -> bool {
    forall|i: int| 0 <= i < events.len() ==> event_held(ns, #[trigger] events[i])
}

/// What was remembered about values and pins is right.
#[verifier::opaque]
pub open spec fn memos_ok(
    ns: Seq<Node>,
    pins: Seq<(Ref, u64)>,
    memo: Map<usize, Ref>,
    dep: Map<usize, bool>,
    folded: Seq<Fold>,
    steady: Map<u64, Byte>,
    pe: Image,
) -> bool {
    &&& forall|a: u64| #[trigger] steady.dom().contains(a) ==> byte_ok(ns, steady[a])
    &&& forall|k: usize| #[trigger]
        memo.dom().contains(k) ==> entry_ok(ns, pins, folded, k, memo[k]) && entry_settled(
            ns,
            pins,
            known_by(steady),
            pe,
            k,
            memo[k],
        )
    &&& forall|k: usize| #[trigger]
        dep.dom().contains(k) ==> k < ns.len() && dep[k] == reaches_pin(ns, Ref { idx: k }, pins)
}

impl<'a> Emulator<'a> {
    pub open spec fn wf(self) -> bool {
        &&& self.arena.wf()
        &&& self.state.fits_in(self.arena.nodes@)
        &&& events_held(self.arena.nodes@, self.events@)
        &&& pins_hold(self.arena.nodes@, self.pins@)
        &&& fold_held(self.arena.nodes@, self.folded@)
        &&& self.memo_pin_count == self.pins@.len() ==> memos_ok(
            self.arena.nodes@,
            self.pins@,
            self.subst_memo@,
            self.pin_dep@,
            self.folded@,
            self.steady@,
            *self.pe,
        )
    }

    /// What evaluation of an instruction never touches.
    pub open spec fn same_setup(self, before: Self) -> bool {
        &&& self.pe == before.pe
        &&& self.stack_base == before.stack_base
        &&& self.pins@ == before.pins@
        &&& self.ctx_miss == before.ctx_miss
        &&& self.guest_ctx == before.guest_ctx
        &&& self.stop_on_revisit == before.stop_on_revisit
        &&& self.block_entries@ == before.block_entries@
        &&& self.events_at_block_entry == before.events_at_block_entry
        &&& self.node_limit == before.node_limit
        &&& self.box_unmodelled == before.box_unmodelled
        &&& self.assume_cet_disabled == before.assume_cet_disabled
        &&& self.vm_range == before.vm_range
        &&& self.noreturn_slots@ == before.noreturn_slots@
        &&& self.import_slots@ == before.import_slots@
        &&& self.guest_layout == before.guest_layout
        &&& self.vip_slot == before.vip_slot
    }

    /// Whether an address lies in the VM section.
    pub open spec fn in_vm_spec(&self, va: u64) -> bool {
        self.vm_range.0 <= va < self.vm_range.1
    }

    #[verifier::when_used_as_spec(in_vm_spec)]
    pub fn in_vm(&self, va: u64) -> (r: bool)
        ensures
            r == self.in_vm_spec(va),
    {
        self.vm_range.0 <= va && va < self.vm_range.1
    }
}

pub proof fn lemma_state_grows(s: State, a: Seq<Node>, b: Seq<Node>)
    requires
        s.fits_in(a),
        extends(a, b),
    ensures
        s.fits_in(b),
{
    assert forall|i: int| 0 <= i < 16 implies has(b, #[trigger] s.regs@[i])
        && crate::ir::expr::width_of(b, s.regs@[i]) == Width::W64 by {
        assert(has(a, s.regs@[i]));
    }
    assert forall|i: int| 0 <= i < 7 implies has(b, #[trigger] s.flags@[i])
        && crate::ir::expr::width_of(b, s.flags@[i]) == Width::W8 by {
        assert(has(a, s.flags@[i]));
    }
    assert forall|x: u64| #[trigger] s.mem@.dom().contains(x) implies byte_ok(b, s.mem@[x]) by {
        assert(byte_ok(a, s.mem@[x]));
    }
    assert forall|k: u32| #[trigger] s.xmm@.dom().contains(k) implies has(b, s.xmm@[k])
        && crate::ir::expr::width_of(b, s.xmm@[k]) == Width::W64 by {
        assert(has(a, s.xmm@[k]));
    }
}

pub proof fn lemma_event_grows(e: Event, a: Seq<Node>, b: Seq<Node>)
    requires
        event_held(a, e),
        extends(a, b),
    ensures
        event_held(b, e),
{
}

pub proof fn lemma_events_grow(events: Seq<Event>, a: Seq<Node>, b: Seq<Node>)
    requires
        events_held(a, events),
        extends(a, b),
    ensures
        events_held(b, events),
{
    reveal(events_held);
    assert forall|i: int| 0 <= i < events.len() implies event_held(b, #[trigger] events[i]) by {
        lemma_event_grows(events[i], a, b);
    }
}

pub proof fn lemma_events_push(events: Seq<Event>, e: Event, ns: Seq<Node>)
    requires
        events_held(ns, events),
        event_held(ns, e),
    ensures
        events_held(ns, events.push(e)),
{
    reveal(events_held);
    assert forall|i: int| 0 <= i < events.push(e).len() implies event_held(
        ns,
        #[trigger] events.push(e)[i],
    ) by {
        if i < events.len() {
            assert(events.push(e)[i] == events[i]);
        }
    }
}

/// A machine whose arena grew, and whose state still fits, is still well-formed.
pub proof fn lemma_wf_grows(a: Emulator, b: Emulator)
    requires
        a.wf(),
        b.arena.continues(a.arena),
        b.state.fits_in(b.arena.nodes@),
        b.events@ == a.events@,
        b.pins@ == a.pins@,
        b.folded@ == a.folded@,
        b.memo_pin_count == a.memo_pin_count,
        b.subst_memo@ == a.subst_memo@,
        b.pin_dep@ == a.pin_dep@,
        b.steady@ == a.steady@,
        b.pe == a.pe,
    ensures
        b.wf(),
{
    let n0 = a.arena.nodes@;
    let n1 = b.arena.nodes@;
    lemma_events_grow(a.events@, n0, n1);
    crate::ir::subst::lemma_pins_grow(n0, n1, a.pins@);
    crate::ir::subst::lemma_folds_grow(n0, n1, a.folded@);
    if b.memo_pin_count == b.pins@.len() {
        crate::ir::subst::lemma_memos_grow(
            a.arena,
            b.arena,
            a.pins@,
            a.subst_memo@,
            a.pin_dep@,
            a.folded@,
            a.steady@,
            *a.pe,
        );
    }
}

} // verus!
