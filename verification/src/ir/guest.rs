//! The evaluator's setup, and the guest's registers in it.

use crate::ir::context::{
    implied_base, probes_best, replaced_event, searches, slot_value, spilled_at, voted, votes,
    Probe, MIN_SPILL_REGS,
};
use crate::ir::event::Event;
use crate::ir::expr::{const_of, has, op_of, same_text, Arena, BlockRef, Node, Op, Ref};
use crate::ir::lift::{events_held, memos_ok, Emulator, Layout, DEFAULT_NODE_LIMIT};
use crate::ir::live::RegSet;
use crate::ir::lower::event_held;
use crate::ir::machine::{mem_stored, quiet};
use crate::ir::region::{layout_of, layouts, layouts_spec, region_at};
use crate::ir::subst::{fold_held, pins_hold};
use crate::ir::value::{Reg, Width};
use crate::ir::x86::gpr_of;
use crate::vm::image::{Image, Import, Section};
use crate::vm::state::State;
use std::collections::{HashMap, HashSet, VecDeque};
use vstd::prelude::*;

verus! {

broadcast use vstd::std_specs::hash::group_hash_axioms;

/// Routines that never return to their caller, by exact name, so that calls to similarly
/// named ones that do return are not cut short.
pub open spec fn noreturn_name(name: Seq<char>) -> bool {
    name == "KeBugCheck"@ || name == "KeBugCheckEx"@ || name == "ExRaiseStatus"@ || name
        == "ExRaiseAccessViolation"@ || name == "ExRaiseDatatypeMisalignment"@
}

fn is_noreturn(name: &str) -> (r: bool)
    ensures
        r == noreturn_name(name@),
{
    same_text(name, "KeBugCheck") || same_text(name, "KeBugCheckEx") || same_text(
        name,
        "ExRaiseStatus",
    ) || same_text(name, "ExRaiseAccessViolation") || same_text(name, "ExRaiseDatatypeMisalignment")
}

/// Slots among the first `k` imports whose routine never returns.
pub open spec fn noreturn_upto(imports: Seq<Import>, k: int) -> Seq<u64>
    decreases k,
{
    if k <= 0 {
        Seq::empty()
    } else if noreturn_name(imports[k - 1].name@) {
        noreturn_upto(imports, k - 1).push(imports[k - 1].slot)
    } else {
        noreturn_upto(imports, k - 1)
    }
}

/// Slots of the imports of an image whose routine never returns.
pub fn noreturn_import_slots(pe: &Image) -> (r: Vec<u64>)
    ensures
        r@ == noreturn_upto(pe.imports@, pe.imports@.len() as int),
{
    let mut out: Vec<u64> = Vec::new();
    let mut k: usize = 0;
    while k < pe.imports.len()
        invariant
            k <= pe.imports@.len(),
            out@ == noreturn_upto(pe.imports@, k as int),
        decreases pe.imports@.len() - k,
    {
        if is_noreturn(pe.imports[k].name.as_str()) {
            out.push(pe.imports[k].slot);
        }
        k = k + 1;
    }
    out
}

/// The first of the sections from `k` on with a name.
pub open spec fn named_from(sections: Seq<Section>, name: Seq<char>, k: int) -> Option<int>
    decreases sections.len() - k,
{
    if k < 0 || k >= sections.len() {
        None
    } else if sections[k].name@ == name {
        Some(k)
    } else {
        named_from(sections, name, k + 1)
    }
}

/// The addresses of the named section, up to the end of the address space; none where
/// there is no such section.
pub open spec fn section_range(pe: Image, name: Seq<char>) -> (u64, u64) {
    match named_from(pe.sections@, name, 0) {
        Some(k) => {
            let s = pe.sections@[k];
            let end = s.start + s.extent();
            (
                s.start,
                if end <= u64::MAX {
                    end as u64
                } else {
                    u64::MAX
                },
            )
        },
        None => (0, 0),
    }
}

pub(crate) fn range_of(pe: &Image, name: &str) -> (r: (u64, u64))
    ensures
        r == section_range(*pe, name@),
{
    let mut k: usize = 0;
    while k < pe.sections.len()
        invariant
            k <= pe.sections@.len(),
            named_from(pe.sections@, name@, 0) == named_from(pe.sections@, name@, k as int),
        decreases pe.sections@.len() - k,
    {
        let s = &pe.sections[k];
        if same_text(s.name.as_str(), name) {
            let size: u32 = if s.virtual_size >= s.raw_size {
                s.virtual_size
            } else {
                s.raw_size
            };
            return (s.start, s.start.saturating_add(size as u64));
        }
        k = k + 1;
    }
    (0, 0)
}

fn slot_set(pe: &Image) -> (r: HashSet<u64>)
    ensures
        forall|x: u64| #[trigger]
            r@.contains(x) <==> exists|i: int|
                0 <= i < pe.imports@.len() && (#[trigger] pe.imports@[i]).slot == x,
{
    let mut out: HashSet<u64> = HashSet::new();
    let mut k: usize = 0;
    while k < pe.imports.len()
        invariant
            k <= pe.imports@.len(),
            forall|x: u64| #[trigger]
                out@.contains(x) <==> exists|i: int|
                    0 <= i < k && (#[trigger] pe.imports@[i]).slot == x,
        decreases pe.imports@.len() - k,
    {
        let ghost before = out@;
        out.insert(pe.imports[k].slot);
        proof {
            assert forall|x: u64| #[trigger] out@.contains(x) <==> exists|i: int|
                0 <= i < k + 1 && (#[trigger] pe.imports@[i]).slot == x by {
                if before.contains(x) {
                    let i = choose|i: int| 0 <= i < k && (#[trigger] pe.imports@[i]).slot == x;
                    assert(pe.imports@[i].slot == x);
                }
                if pe.imports@[k as int].slot == x {
                    assert(out@.contains(x));
                }
                if exists|i: int| 0 <= i < k + 1 && (#[trigger] pe.imports@[i]).slot == x {
                    let i = choose|i: int| 0 <= i < k + 1 && (#[trigger] pe.imports@[i]).slot == x;
                    if i < k {
                        assert(before.contains(x));
                    }
                }
            }
        }
        k = k + 1;
    }
    out
}

/// A machine at the start: fresh state, nothing recorded, and the VM section and the
/// imports of the image.
pub open spec fn fresh(m: Emulator, pe: Image, stack_base: u64, section: Seq<char>) -> bool {
    &&& *m.pe == pe
    &&& m.stack_base == stack_base
    &&& const_of(m.arena.nodes@, m.state.reg(Reg::Rsp)) == Some(stack_base)
    &&& forall|r: Reg|
        r != Reg::Rsp ==> op_of(m.arena.nodes@, #[trigger] m.state.reg(r)) == Op::InitReg(r)
    &&& m.state.mem@ == Map::<u64, crate::vm::state::Byte>::empty()
    &&& m.state.sym_stores@.len() == 0
    &&& m.state.xmm@ == Map::<u32, Ref>::empty()
    &&& m.events@.len() == 0
    &&& m.trace@.len() == 0
    &&& m.steps == 0
    &&& m.dispatches@.len() == 0
    &&& m.unmapped_loads@.len() == 0
    &&& m.symbolic_loads@.len() == 0
    &&& m.pins@.len() == 0
    &&& m.ctx_miss is None
    &&& m.guest_ctx is None
    &&& m.stop_on_revisit
    &&& m.block_entries@.len() == 0
    &&& m.events_at_block_entry == 0
    &&& m.unwind_slot is None
    &&& m.node_limit == DEFAULT_NODE_LIMIT
    &&& m.box_unmodelled
    &&& m.assume_cet_disabled
    &&& m.vm_range == section_range(pe, section)
    &&& m.written_args@.len() == 0
    &&& m.guest_layout is None
    &&& m.vip_slot is None
    &&& m.noreturn_slots@ == noreturn_upto(pe.imports@, pe.imports@.len() as int)
    &&& forall|x: u64| #[trigger]
        m.import_slots@.contains(x) <==> exists|i: int|
            0 <= i < pe.imports@.len() && (#[trigger] pe.imports@[i]).slot == x
}

pub open spec fn relocation_steps(
    m0: Emulator,
    cached: u64,
    ma: Emulator,
    p0: Probe,
    mb: Emulator,
    found: Option<u64>,
    mc: Emulator,
    m1: Emulator,
    r: Option<u64>,
) -> bool {
    &&& probes_best(m0, cached, ma, p0)
    &&& searches(ma, mb, found)
    &&& mc == (Emulator { ctx_miss: m0.ctx_miss, ..mb })
    &&& match found {
        Some(fresh) => exists|md: Emulator, p1: Probe, me: Emulator, p2: Probe| #[trigger]
            adoption_steps(mc, cached, p0, fresh, md, p1, me, p2, m1, r),
        None => m1 == mc && r == Some(cached),
    }
}

pub open spec fn adoption_steps(
    mc: Emulator,
    cached: u64,
    p0: Probe,
    fresh: u64,
    md: Emulator,
    p1: Probe,
    me: Emulator,
    p2: Probe,
    m1: Emulator,
    r: Option<u64>,
) -> bool {
    &&& probes_best(mc, fresh, md, p1)
    &&& if fresh != cached && p1.score > p0.score {
        &&& probes_best(md, fresh, me, p2)
        &&& m1 == (Emulator { guest_ctx: Some(fresh), guest_layout: Some(p2.layout), ..me })
        &&& r == Some(fresh)
    } else {
        m1 == md && r == Some(cached)
    }
}

pub open spec fn first_search(m0: Emulator, ma: Emulator, r: Option<u64>) -> bool {
    exists|spilled: Option<u64>| #[trigger]
        spilled_at(m0.arena.nodes@, m0.events@, spilled) && match spilled {
            Some(b) => ma == m0 && r == Some(b),
            None => searches(m0, ma, r),
        }
}

pub open spec fn location_steps(
    m0: Emulator,
    ma: Emulator,
    mb: Emulator,
    p: Probe,
    m1: Emulator,
    r: Option<u64>,
) -> bool {
    &&& first_search(m0, ma, r)
    &&& match r {
        Some(b) => {
            let set = Emulator { guest_ctx: r, guest_layout: Some(p.layout), ..mb };
            &&& probes_best(Emulator { guest_ctx: r, ..ma }, b, mb, p)
            &&& m1.events@ == set.events@.map_values(|e: Event| replaced_event(set, e))
            &&& m1 == (Emulator { events: m1.events, ..set })
        },
        None => m1 == (Emulator { guest_ctx: None, ..ma }),
    }
}

/// A cached base stays unless another one fits more registers.
pub open spec fn relocates(m0: Emulator, cached: u64, m1: Emulator, r: Option<u64>) -> bool {
    exists|ma: Emulator, p0: Probe, mb: Emulator, found: Option<u64>, mc: Emulator| #[trigger]
        relocation_steps(m0, cached, ma, p0, mb, found, mc, m1, r)
}

/// The first time, the entry sequence that fills the image is believed before the search
/// by content, and the events recorded so far are placed anew.
pub open spec fn locates_first(m0: Emulator, m1: Emulator, r: Option<u64>) -> bool {
    exists|ma: Emulator, mb: Emulator, p: Probe| #[trigger] location_steps(m0, ma, mb, p, m1, r)
}

/// The guest register image is located.
pub open spec fn locates(m0: Emulator, m1: Emulator, r: Option<u64>) -> bool {
    match m0.guest_ctx {
        Some(cached) => relocates(m0, cached, m1, r),
        None => locates_first(m0, m1, r),
    }
}

pub open spec fn register_steps(
    m0: Emulator,
    ma: Emulator,
    base: Option<u64>,
    m1: Emulator,
    p: Probe,
    r: Option<Vec<(Reg, Ref)>>,
) -> bool {
    &&& locates(m0, ma, base)
    &&& match base {
        Some(b) => probes_best(ma, b, m1, p) && if p.regs@.len() == 0 {
            r is None
        } else {
            r matches Some(v) && v@ == p.regs@
        },
        None => m1 == ma && r is None,
    }
}

/// The guest's registers are read from its image. `None` means there is no VM context.
pub open spec fn reads_guest(m0: Emulator, m1: Emulator, r: Option<Vec<(Reg, Ref)>>) -> bool {
    exists|ma: Emulator, base: Option<u64>, p: Probe| #[trigger]
        register_steps(m0, ma, base, m1, p, r)
}

/// One slot of the image is overwritten with a parameter, which is pinned to the constant
/// the slot held, where it held one.
pub open spec fn slot_steps(
    m0: Emulator,
    addr: u64,
    block: BlockRef,
    reg: Reg,
    ma: Emulator,
    held: Option<Ref>,
    p: Ref,
    m1: Emulator,
) -> bool {
    &&& quiet(m0, ma)
    &&& slot_value(m0, addr, ma, held)
    &&& has(m1.arena.nodes@, p)
    &&& op_of(m1.arena.nodes@, p) == Op::Param(block, reg)
    &&& m1.arena.continues(ma.arena)
    &&& mem_stored(m1.arena.nodes@, ma.state.mem@, addr, p, Width::W64, m1.state.mem@)
    &&& m1.pins@ == (match held {
        Some(v) => match const_of(ma.arena.nodes@, v) {
            Some(c) => ma.pins@.push((p, c)),
            None => ma.pins@,
        },
        None => ma.pins@,
    })
    &&& m1.state.regs@ == ma.state.regs@
    &&& m1.state.flags@ == ma.state.flags@
    &&& m1.state.xmm@ == ma.state.xmm@
    &&& m1.state.sym_stores@ == ma.state.sym_stores@
    &&& m1.events == ma.events
    &&& m1.guest_ctx == ma.guest_ctx
    &&& m1.guest_layout == ma.guest_layout
}

pub open spec fn slot_seeded(
    m0: Emulator,
    addr: u64,
    block: BlockRef,
    reg: Reg,
    m1: Emulator,
    p: Ref,
) -> bool {
    exists|ma: Emulator, held: Option<Ref>| #[trigger]
        slot_steps(m0, addr, block, reg, ma, held, p, m1)
}

/// The slots of an image are seeded one after the other.
pub open spec fn seed_chain(
    ms: Seq<Emulator>,
    base: u64,
    layout: Layout,
    block: BlockRef,
    out: Seq<(Reg, Ref)>,
) -> bool {
    &&& ms.len() == out.len() + 1
    &&& forall|i: int|
        0 <= i < out.len() ==> (#[trigger] out[i]).0 == layout.order@[i] && slot_seeded(
            ms[i],
            layout.slot_addr(base, i),
            block,
            layout.order@[i],
            ms[i + 1],
            out[i].1,
        )
}

pub open spec fn seed_steps(
    m0: Emulator,
    block: BlockRef,
    ma: Emulator,
    base: Option<u64>,
    ms: Seq<Emulator>,
    m1: Emulator,
    out: Seq<(Reg, Ref)>,
) -> bool {
    &&& locates(m0, ma, base)
    &&& match base {
        Some(b) => seed_chain(ms, b, layout_of(ma), block, out) && out.len() == 16 && ms.first()
            == ma && ms.last() == m1,
        None => m1 == ma && out.len() == 0,
    }
}

/// The guest register image is overwritten with fresh parameters of a block, one per
/// register, so that what the block computes does not depend on the path that reached it.
pub open spec fn seeds(m0: Emulator, block: BlockRef, m1: Emulator, out: Seq<(Reg, Ref)>) -> bool {
    exists|ma: Emulator, base: Option<u64>, ms: Seq<Emulator>| #[trigger]
        seed_steps(m0, block, ma, base, ms, m1, out)
}

proof fn lemma_votes(ns: Seq<Node>, events: Seq<Event>, base: u64, n: int)
    requires
        0 <= n,
    ensures
        votes(ns, events, base, n) <= n,
    decreases n,
{
    if n > 0 {
        lemma_votes(ns, events, base, n - 1);
    }
}

proof fn lemma_no_votes(ns: Seq<Node>, events: Seq<Event>, base: u64, n: int)
    requires
        0 <= n,
        forall|r: Reg| !voted(ns, events, base, r, events.len() as int),
    ensures
        votes(ns, events, base, n) == 0,
    decreases n,
{
    if n > 0 {
        lemma_no_votes(ns, events, base, n - 1);
    }
}

impl<'a> Emulator<'a> {
    pub fn new(pe: &'a Image, stack_base: u64) -> (m: Self)
        ensures
            m.wf(),
            fresh(m, *pe, stack_base, crate::vm::DEFAULT_VM_SECTION@),
    {
        Self::with_vm_section(pe, stack_base, crate::vm::DEFAULT_VM_SECTION)
    }

    pub fn with_vm_section(pe: &'a Image, stack_base: u64, vm_section: &str) -> (m: Self)
        ensures
            m.wf(),
            fresh(m, *pe, stack_base, vm_section@),
    {
        let mut arena = Arena::new();
        let state = State::new(&mut arena, stack_base);
        let m = Emulator {
            pe,
            arena,
            state,
            events: Vec::new(),
            stack_base,
            trace: VecDeque::new(),
            steps: 0,
            dispatches: Vec::new(),
            unmapped_loads: Vec::new(),
            symbolic_loads: Vec::new(),
            pins: Vec::new(),
            ctx_miss: None,
            guest_ctx: None,
            stop_on_revisit: true,
            block_entries: Vec::new(),
            events_at_block_entry: 0,
            unwind_slot: None,
            subst_memo: HashMap::new(),
            memo_pin_count: 0,
            pin_dep: HashMap::new(),
            node_limit: DEFAULT_NODE_LIMIT,
            box_unmodelled: true,
            assume_cet_disabled: true,
            vm_range: range_of(pe, vm_section),
            noreturn_slots: noreturn_import_slots(pe),
            import_slots: std::rc::Rc::new(slot_set(pe)),
            written_args: Vec::new(),
            guest_layout: None,
            vip_slot: None,
            folded: Ghost(Seq::empty()),
            steady: Ghost(Map::empty()),
        };
        proof {
            reveal(events_held);
            reveal(pins_hold);
            reveal(fold_held);
            reveal(memos_ok);
        }
        m
    }

    /// Locate the image from the entry sequence that fills it: on entry the VM spills
    /// every guest register to its own slot.
    #[verifier::rlimit(40)]
    pub(crate) fn context_from_entry_spills(&self) -> (r: Option<u64>)
        requires
            self.wf(),
        ensures
            spilled_at(self.arena.nodes@, self.events@, r),
    {
        let ghost ns = self.arena.nodes@;
        let ghost events = self.events@;
        let all = layouts();
        let mut seen: HashMap<u64, RegSet> = HashMap::new();
        let mut bases: Vec<u64> = Vec::new();
        let mut i: usize = 0;
        while i < self.events.len()
            invariant
                i <= events.len(),
                self.wf(),
                ns == self.arena.nodes@,
                events == self.events@,
                all@ == layouts_spec(),
                forall|b: u64| #[trigger] seen@.dom().contains(b) <==> bases@.contains(b),
                forall|b: u64, r: Reg|
                    (#[trigger] voted(ns, events, b, r, i as int)) <==> marked(seen@, b, r),
            decreases events.len() - i,
        {
            let ghost s0 = seen@;
            let mut l: usize = 0;
            while l < 2
                invariant
                    i < events.len(),
                    l <= 2,
                    self.wf(),
                    ns == self.arena.nodes@,
                    events == self.events@,
                    all@ == layouts_spec(),
                    forall|b: u64| #[trigger] seen@.dom().contains(b) <==> bases@.contains(b),
                    forall|b: u64, r: Reg|
                        (#[trigger] marked(seen@, b, r)) <==> marked(s0, b, r) || event_votes(
                            ns,
                            events[i as int],
                            b,
                            r,
                            l as int,
                        ),
                decreases 2 - l,
            {
                let ghost s1 = seen@;
                let ghost b1 = bases@;
                let layout = all[l];
                let implied = self.implied(i, layout);
                if let Some((base, reg)) = implied {
                    let mut set = match seen.get(&base) {
                        Some(s) => *s,
                        None => RegSet::empty(),
                    };
                    let known: bool = seen.contains_key(&base);
                    set.insert(reg);
                    seen.insert(base, set);
                    if !known {
                        bases.push(base);
                        proof {
                            crate::ir::walk::lemma_push_contains(b1, base);
                        }
                    }
                    proof {
                        assert forall|b: u64| #[trigger] seen@.dom().contains(b) <==> bases@.contains(
                            b,
                        ) by {
                            assert(s1.dom().contains(b) <==> b1.contains(b));
                        }
                    }
                }
                proof {
                    assert forall|b: u64, r: Reg|
                        (#[trigger] marked(seen@, b, r)) <==> marked(s0, b, r) || event_votes(
                            ns,
                            events[i as int],
                            b,
                            r,
                            l + 1,
                        ) by {
                        assert(marked(s1, b, r) <==> marked(s0, b, r) || event_votes(
                            ns,
                            events[i as int],
                            b,
                            r,
                            l as int,
                        ));
                        lemma_event_votes(ns, events[i as int], b, r, l as int);
                        assert(marked(seen@, b, r) <==> marked(s1, b, r) || implied == Some((b, r)));
                    }
                }
                l = l + 1;
            }
            proof {
                assert forall|b: u64, r: Reg|
                    (#[trigger] voted(ns, events, b, r, i + 1)) <==> marked(seen@, b, r) by {
                    assert(voted(ns, events, b, r, i as int) <==> marked(s0, b, r));
                    assert(marked(seen@, b, r) <==> marked(s0, b, r) || event_votes(
                        ns,
                        events[i as int],
                        b,
                        r,
                        2,
                    ));
                    lemma_voted_next(ns, events, b, r, i as int);
                }
            }
            i = i + 1;
        }
        self.most_spilled(&seen, &bases)
    }

    fn implied(&self, i: usize, layout: Layout) -> (r: Option<(u64, Reg)>)
        requires
            self.wf(),
            i < self.events@.len(),
            layout.first_reg <= 8,
        ensures
            r == implied_base(self.arena.nodes@, self.events@[i as int], layout),
    {
        proof {
            reveal(events_held);
            assert(event_held(self.arena.nodes@, self.events@[i as int]));
        }
        match &self.events[i] {
            Event::Store { addr, value, width, .. } => {
                let a: u64 = match self.arena.as_const(*addr) {
                    Some(a) => a,
                    None => {
                        return None;
                    },
                };
                let reg = match self.arena.op(*value) {
                    Op::InitReg(r) => *r,
                    _ => {
                        return None;
                    },
                };
                if *width != Width::W64 {
                    return None;
                }
                match layout.place(reg) {
                    Some(k) => {
                        let at: u64 = layout.first_reg + 8 * (k as u64);
                        if a >= at {
                            Some((a - at, reg))
                        } else {
                            None
                        }
                    },
                    None => None,
                }
            },
            _ => None,
        }
    }

    fn vote_count(&self, set: RegSet, Ghost(base): Ghost<u64>) -> (n: usize)
        requires
            forall|r: Reg|
                set.has(r) <==> #[trigger] voted(
                    self.arena.nodes@,
                    self.events@,
                    base,
                    r,
                    self.events@.len() as int,
                ),
        ensures
            n == votes(self.arena.nodes@, self.events@, base, 16),
    {
        let mut n: usize = 0;
        let mut k: u32 = 0;
        while k < 16
            invariant
                k <= 16,
                n == votes(self.arena.nodes@, self.events@, base, k as int),
                n <= k,
                forall|r: Reg|
                    set.has(r) <==> #[trigger] voted(
                        self.arena.nodes@,
                        self.events@,
                        base,
                        r,
                        self.events@.len() as int,
                    ),
            decreases 16 - k,
        {
            let r = gpr_of(k);
            proof {
                assert(set.has(r) <==> voted(
                    self.arena.nodes@,
                    self.events@,
                    base,
                    r,
                    self.events@.len() as int,
                ));
            }
            if set.contains(r) {
                n = n + 1;
            }
            k = k + 1;
        }
        n
    }

    fn most_spilled(&self, seen: &HashMap<u64, RegSet>, bases: &Vec<u64>) -> (r: Option<u64>)
        requires
            forall|b: u64| #[trigger] seen@.dom().contains(b) <==> bases@.contains(b),
            forall|b: u64, r: Reg|
                (#[trigger] voted(
                    self.arena.nodes@,
                    self.events@,
                    b,
                    r,
                    self.events@.len() as int,
                )) <==> marked(seen@, b, r),
        ensures
            spilled_at(self.arena.nodes@, self.events@, r),
    {
        let ghost ns = self.arena.nodes@;
        let ghost events = self.events@;
        let mut best: Option<(usize, u64)> = None;
        let mut k: usize = 0;
        while k < bases.len()
            invariant
                k <= bases@.len(),
                ns == self.arena.nodes@,
                events == self.events@,
                forall|b: u64| #[trigger] seen@.dom().contains(b) <==> bases@.contains(b),
                forall|b: u64, r: Reg|
                    (#[trigger] voted(ns, events, b, r, events.len() as int)) <==> marked(seen@, b, r),
                match best {
                    Some(x) => x.0 == votes(ns, events, x.1, 16) && x.0 >= MIN_SPILL_REGS && forall|
                        j: int,
                    |
                        0 <= j < k ==> votes(ns, events, #[trigger] bases@[j], 16) < x.0 || (votes(
                            ns,
                            events,
                            bases@[j],
                            16,
                        ) == x.0 && bases@[j] <= x.1),
                    None => forall|j: int|
                        0 <= j < k ==> votes(ns, events, #[trigger] bases@[j], 16) < MIN_SPILL_REGS,
                },
            decreases bases@.len() - k,
        {
            let base: u64 = bases[k];
            proof {
                assert(bases@.contains(base));
                assert(seen@.dom().contains(base));
            }
            let set = *seen.get(&base).unwrap();
            let n: usize = self.vote_count(set, Ghost(base));
            if n >= MIN_SPILL_REGS {
                let better: bool = match best {
                    Some(x) => n > x.0 || (n == x.0 && base > x.1),
                    None => true,
                };
                if better {
                    best = Some((n, base));
                }
            }
            k = k + 1;
        }
        proof {
            assert forall|b: u64| !bases@.contains(b) implies #[trigger] votes(ns, events, b, 16)
                == 0 by {
                assert forall|r: Reg| !voted(ns, events, b, r, events.len() as int) by {}
                lemma_no_votes(ns, events, b, 16);
            }
            assert forall|b: u64| bases@.contains(b) implies (match best {
                Some(x) => (#[trigger] votes(ns, events, b, 16)) < x.0 || (votes(ns, events, b, 16)
                    == x.0 && b <= x.1),
                None => votes(ns, events, b, 16) < MIN_SPILL_REGS,
            }) by {
                let j = choose|j: int| 0 <= j < bases@.len() && bases@[j] == b;
                assert(bases@[j] == b);
            }
        }
        match best {
            Some(x) => Some(x.1),
            None => None,
        }
    }

    /// Place already recorded events anew, now that the VM context is known.
    pub(crate) fn reclassify_events(&mut self)
        requires
            old(self).wf(),
        ensures
            final(self).wf(),
            final(self).events@ == old(self).events@.map_values(
                |e: Event| replaced_event(*old(self), e),
            ),
            *final(self) == (Emulator { events: final(self).events, ..*old(self) }),
    {
        let ghost m0 = *self;
        let ghost f = |e: Event| replaced_event(m0, e);
        let mut i: usize = 0;
        while i < self.events.len()
            invariant
                i <= self.events@.len(),
                m0.wf(),
                self.wf(),
                f == (|e: Event| replaced_event(m0, e)),
                *self == (Emulator { events: self.events, ..m0 }),
                self.events@.len() == m0.events@.len(),
                forall|k: int|
                    0 <= k < m0.events@.len() ==> #[trigger] self.events@[k] == (if k < i {
                        f(m0.events@[k])
                    } else {
                        m0.events@[k]
                    }),
            decreases self.events@.len() - i,
        {
            let ghost before = *self;
            proof {
                reveal(events_held);
                assert(event_held(self.arena.nodes@, self.events@[i as int]));
            }
            let found = match &self.events[i] {
                Event::Store { addr, .. } => self.arena.as_const(*addr),
                Event::Load { addr, .. } => self.arena.as_const(*addr),
                _ => None,
            };
            if let Some(a) = found {
                let placed = self.region_of_addr(a);
                proof {
                    lemma_region_same(m0, before, a);
                }
                match &mut self.events[i] {
                    Event::Store { region, .. } => {
                        *region = placed;
                    },
                    Event::Load { region, .. } => {
                        *region = placed;
                    },
                    _ => {},
                }
                proof {
                    let ns = self.arena.nodes@;
                    assert forall|k: int| 0 <= k < self.events@.len() implies event_held(
                        ns,
                        #[trigger] self.events@[k],
                    ) by {
                        if k != i {
                            assert(self.events@[k] == before.events@[k]);
                        }
                    }
                }
            }
            i = i + 1;
        }
        proof {
            assert(self.events@ =~= m0.events@.map_values(f));
        }
    }
}

/// Whether a register is noted for a base.
spec fn marked(seen: Map<u64, RegSet>, b: u64, r: Reg) -> bool {
    seen.dom().contains(b) && seen[b].has(r)
}

/// Whether an event says so under one of the first `l` layouts.
spec fn event_votes(ns: Seq<Node>, e: Event, b: u64, r: Reg, l: int) -> bool {
    exists|k: int| 0 <= k < l && #[trigger] implied_base(ns, e, layouts_spec()[k]) == Some((b, r))
}

proof fn lemma_event_votes(ns: Seq<Node>, e: Event, b: u64, r: Reg, l: int)
    requires
        0 <= l,
    ensures
        event_votes(ns, e, b, r, l + 1) <==> event_votes(ns, e, b, r, l) || implied_base(
            ns,
            e,
            layouts_spec()[l],
        ) == Some((b, r)),
{
    if event_votes(ns, e, b, r, l) {
        let k = choose|k: int|
            0 <= k < l && #[trigger] implied_base(ns, e, layouts_spec()[k]) == Some((b, r));
        assert(implied_base(ns, e, layouts_spec()[k]) == Some((b, r)));
    }
}

proof fn lemma_voted_next(ns: Seq<Node>, events: Seq<Event>, b: u64, r: Reg, i: int)
    requires
        0 <= i < events.len(),
    ensures
        voted(ns, events, b, r, i + 1) <==> voted(ns, events, b, r, i) || event_votes(
            ns,
            events[i],
            b,
            r,
            2,
        ),
{
    if voted(ns, events, b, r, i + 1) {
        let (j, l) = choose|j: int, l: int|
            0 <= j < i + 1 && 0 <= l < 2 && #[trigger] implied_base(
                ns,
                events[j],
                layouts_spec()[l],
            ) == Some((b, r));
        if j < i {
            assert(implied_base(ns, events[j], layouts_spec()[l]) == Some((b, r)));
        } else {
            assert(implied_base(ns, events[i], layouts_spec()[l]) == Some((b, r)));
        }
    }
    if voted(ns, events, b, r, i) {
        let (j, l) = choose|j: int, l: int|
            0 <= j < i && 0 <= l < 2 && #[trigger] implied_base(
                ns,
                events[j],
                layouts_spec()[l],
            ) == Some((b, r));
        assert(implied_base(ns, events[j], layouts_spec()[l]) == Some((b, r)));
    }
}

proof fn lemma_region_same(a: Emulator, b: Emulator, addr: u64)
    requires
        b == (Emulator { events: b.events, ..a }),
    ensures
        region_at(a, addr) == region_at(b, addr),
{
}

} // verus!
