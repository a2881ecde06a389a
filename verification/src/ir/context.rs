//! Where the guest's registers are kept while the VM runs.

use crate::ir::event::Event;
use crate::ir::expr::{const_of, eval, extends, has, op_of, width_of, Arena, Env, Node, Op, Ref};
use crate::ir::lift::{lemma_wf_grows, Emulator, Layout};
use crate::ir::machine::{lemma_quiet, lemma_quiet_twice, quiet};
use crate::ir::region::{layouts, layouts_spec, place_from, region_at};
use crate::ir::subst::{byte_found, byte_missing, bytes_at, found_in_memory, memory_value};
use crate::ir::value::{Reg, Width};
use crate::ir::x86::gpr;
use crate::vm::state::{byte_addr, byte_ok, join_bytes, Byte};
use vstd::prelude::*;

verus! {

broadcast use vstd::std_specs::hash::group_hash_axioms;

/// How far from the entry RSP a guest RSP is still considered plausible when the guest
/// register image is identified.
pub const GUEST_FRAME_WINDOW: u64 = 0x2000;

/// Registers that must still hold their entry values for a candidate image to be accepted.
pub const MIN_CONTEXT_SCORE: usize = 2;

/// Registers that must be seen spilled to their slots before the implied base is believed.
pub const MIN_SPILL_REGS: usize = 6;

/// Whether a slot's contents confirm that it holds `reg`: the register's entry value, or
/// the parameter that stands for it once a block was cut there.
pub open spec fn confirms(op: Op, reg: Reg) -> bool {
    match op {
        Op::InitReg(r) => r == reg,
        Op::Param(_, r) => r == reg,
        _ => false,
    }
}

/// Whether a slot's contents confirm that it holds `reg`.
#[verifier::when_used_as_spec(slot_confirms_spec)]
pub fn slot_confirms_register(op: &Op, reg: Reg) -> (r: bool)
    ensures
        r == confirms(*op, reg),
{
    match op {
        Op::InitReg(r) => *r == reg,
        Op::Param(_, r) => *r == reg,
        _ => false,
    }
}

pub open spec fn slot_confirms_spec(op: &Op, reg: Reg) -> bool {
    confirms(*op, reg)
}

/// `v` is what a slot of the image reads as: `None` where a byte of it is unknown.
pub open spec fn slot_value(m0: Emulator, addr: u64, m1: Emulator, v: Option<Ref>) -> bool {
    match v {
        Some(x) => found_in_memory(
            m0.state.mem@,
            *m0.pe,
            m0.arena.nodes@,
            addr,
            Width::W64,
            m1.arena.nodes@,
            x,
        ),
        None => byte_missing(m0.state.mem@, *m0.pe, addr, 8),
    }
}

/// The first `n` slots of an image.
pub open spec fn slots_read(
    m0: Emulator,
    base: u64,
    layout: Layout,
    n: int,
    m1: Emulator,
    slots: Seq<Option<Ref>>,
) -> bool {
    &&& quiet(m0, m1)
    &&& slots.len() == n
    &&& forall|i: int|
        0 <= i < n ==> slot_value(m0, layout.slot_addr(base, i), m1, #[trigger] slots[i])
}

/// Slots among the first `n` that confirm their register.
pub open spec fn confirmed(ns: Seq<Node>, order: Seq<Reg>, slots: Seq<Option<Ref>>, n: int) -> nat
    decreases n,
{
    if n <= 0 {
        0
    } else {
        confirmed(ns, order, slots, n - 1) + match slots[n - 1] {
            Some(v) => if confirms(op_of(ns, v), order[n - 1]) {
                1nat
            } else {
                0nat
            },
            None => 0nat,
        }
    }
}

/// The registers among the first `n` whose slot could be read, with what it holds.
pub open spec fn present(order: Seq<Reg>, slots: Seq<Option<Ref>>, n: int) -> Seq<(Reg, Ref)>
    decreases n,
{
    if n <= 0 {
        Seq::empty()
    } else {
        match slots[n - 1] {
            Some(v) => present(order, slots, n - 1).push((order[n - 1], v)),
            None => present(order, slots, n - 1),
        }
    }
}

/// Whether a word looks like the guest's stack pointer.
pub open spec fn plausible_rsp(c: u64, stack_base: u64) -> bool {
    c % 8 == 0 && c > stack_base - GUEST_FRAME_WINDOW && (stack_base < GUEST_FRAME_WINDOW ==> c > 0)
        && c <= stack_base + GUEST_FRAME_WINDOW
}

/// Whether the last of the first `n` slots that is RSP's, and constant, is plausible.
pub open spec fn rsp_plausible(
    ns: Seq<Node>,
    stack_base: u64,
    order: Seq<Reg>,
    slots: Seq<Option<Ref>>,
    n: int,
) -> bool
    decreases n,
{
    if n <= 0 {
        false
    } else {
        match slots[n - 1] {
            Some(v) => match const_of(ns, v) {
                Some(c) => if order[n - 1] == Reg::Rsp {
                    plausible_rsp(c, stack_base)
                } else {
                    rsp_plausible(ns, stack_base, order, slots, n - 1)
                },
                None => rsp_plausible(ns, stack_base, order, slots, n - 1),
            },
            None => rsp_plausible(ns, stack_base, order, slots, n - 1),
        }
    }
}

/// What probing an image found: how many slots confirm their register, whether the RSP
/// slot is plausible, and the slots that could be read.
pub struct Probe {
    pub score: usize,
    pub rsp: bool,
    pub regs: Vec<(Reg, Ref)>,
    pub layout: Layout,
}

pub open spec fn probe_steps(
    m0: Emulator,
    base: u64,
    m1: Emulator,
    p: Probe,
    slots: Seq<Option<Ref>>,
) -> bool {
    let order = p.layout.order@;
    let ns = m1.arena.nodes@;
    &&& slots_read(m0, base, p.layout, 16, m1, slots)
    &&& p.score == confirmed(ns, order, slots, 16)
    &&& p.rsp == rsp_plausible(ns, m0.stack_base, order, slots, 16)
    &&& p.regs@ == present(order, slots, 16)
}

/// An image is probed at `base` under a layout.
pub open spec fn probes(m0: Emulator, base: u64, layout: Layout, m1: Emulator, p: Probe) -> bool {
    p.layout == layout && exists|slots: Seq<Option<Ref>>| #[trigger]
        probe_steps(m0, base, m1, p, slots)
}

/// Whether one probe fits better than another: first by the RSP slot, then by score.
pub open spec fn fits_better(a: Probe, b: Probe) -> bool {
    (a.rsp && !b.rsp) || (a.rsp == b.rsp && a.score > b.score)
}

pub open spec fn best_steps(
    m0: Emulator,
    base: u64,
    ma: Emulator,
    first: Probe,
    m1: Emulator,
    second: Probe,
    p: Probe,
) -> bool {
    &&& probes(m0, base, layouts_spec()[0], ma, first)
    &&& probes(ma, base, layouts_spec()[1], m1, second)
    &&& p == (if fits_better(second, first) {
        second
    } else {
        first
    })
}

/// An image is probed at `base` under every layout, and the best fit is kept.
pub open spec fn probes_best(m0: Emulator, base: u64, m1: Emulator, p: Probe) -> bool {
    exists|ma: Emulator, first: Probe, second: Probe| #[trigger]
        best_steps(m0, base, ma, first, m1, second, p)
}

/// The first candidate base.
pub open spec fn search_start(rbp: u64) -> u64 {
    (if rbp >= 0x40 {
        (rbp - 0x40) as u64
    } else {
        0
    }) & !7u64
}

/// One past the last address a candidate may have.
pub open spec fn search_end(rbp: u64) -> int {
    if rbp + 0x200 <= u64::MAX {
        rbp + 0x200
    } else {
        u64::MAX as int
    }
}

/// Every eighth address is probed, one after the other.
pub open spec fn search_chain(ms: Seq<Emulator>, ps: Seq<Probe>, lo: u64, hi: int) -> bool {
    &&& ms.len() == ps.len() + 1
    &&& forall|k: int|
        0 <= k < ps.len() ==> lo + 8 * k < hi && probes_best(
            ms[k],
            (lo + 8 * k) as u64,
            ms[k + 1],
            #[trigger] ps[k],
        )
}

/// Whether a candidate can be accepted.
pub open spec fn acceptable(p: Probe) -> bool {
    p.rsp && p.score >= MIN_CONTEXT_SCORE
}

/// The first of the candidates with the highest score, among those acceptable.
pub open spec fn is_best(ps: Seq<Probe>, lo: u64, r: Option<u64>) -> bool {
    match r {
        Some(base) => exists|k: int| #[trigger]
            leads(ps, k) && base == lo + 8 * k,
        None => forall|k: int| 0 <= k < ps.len() ==> !acceptable(#[trigger] ps[k]),
    }
}

pub open spec fn leads(ps: Seq<Probe>, k: int) -> bool {
    &&& 0 <= k < ps.len()
    &&& acceptable(ps[k])
    &&& forall|j: int|
        0 <= j < ps.len() && acceptable(#[trigger] ps[j]) ==> ps[j].score < ps[k].score || (
        ps[j].score == ps[k].score && k <= j)
}

/// Whether any candidate had a plausible RSP slot, and the best score among those.
pub open spec fn miss_of(ps: Seq<Probe>, miss: (bool, usize)) -> bool {
    &&& miss.0 <==> exists|k: int| 0 <= k < ps.len() && (#[trigger] ps[k]).rsp
    &&& forall|k: int| 0 <= k < ps.len() && (#[trigger] ps[k]).rsp ==> ps[k].score <= miss.1
    &&& miss.1 == 0 || exists|k: int|
        0 <= k < ps.len() && (#[trigger] ps[k]).rsp && ps[k].score == miss.1
}

/// Nothing but the arena and the note on the last miss differs.
pub open spec fn quiet_but_miss(m0: Emulator, m1: Emulator) -> bool {
    quiet(m0, Emulator { ctx_miss: m0.ctx_miss, ..m1 })
}

/// The image is searched for around RBP by content, and a miss is noted.
pub open spec fn searches(m0: Emulator, m1: Emulator, r: Option<u64>) -> bool {
    match const_of(m0.arena.nodes@, m0.state.reg(Reg::Rbp)) {
        None => r is None && m1.ctx_miss == Some((false, 0usize)) && quiet_but_miss(m0, m1),
        Some(rbp) => {
            &&& quiet_but_miss(m0, m1)
            &&& exists|ms: Seq<Emulator>, ps: Seq<Probe>| #[trigger]
                search_steps(m0, rbp, m1, r, ms, ps)
        },
    }
}

pub open spec fn search_steps(
    m0: Emulator,
    rbp: u64,
    m1: Emulator,
    r: Option<u64>,
    ms: Seq<Emulator>,
    ps: Seq<Probe>,
) -> bool {
    &&& search_chain(ms, ps, search_start(rbp), search_end(rbp))
    &&& ms.first() == m0
    &&& search_start(rbp) + 8 * ps.len() >= search_end(rbp)
    &&& is_best(ps, search_start(rbp), r)
    &&& r is Some ==> m1.ctx_miss == m0.ctx_miss
    &&& r is None ==> m1.ctx_miss is Some && miss_of(ps, m1.ctx_miss->0)
}

/// The base a store of a register's entry value implies under a layout.
pub open spec fn implied_base(ns: Seq<Node>, e: Event, layout: Layout) -> Option<(u64, Reg)> {
    match e {
        Event::Store { addr, value, width, .. } => match (const_of(ns, addr), op_of(ns, value)) {
            (Some(a), Op::InitReg(reg)) => match place_from(layout.order@, reg, 0) {
                Some(i) => if width == Width::W64 && a >= layout.first_reg + 8 * i {
                    Some(((a - layout.first_reg - 8 * i) as u64, reg))
                } else {
                    None
                },
                None => None,
            },
            _ => None,
        },
        _ => None,
    }
}

/// Whether one of the first `n` events says that `reg` belongs to an image at `base`.
pub open spec fn voted(ns: Seq<Node>, events: Seq<Event>, base: u64, reg: Reg, n: int) -> bool {
    exists|i: int, l: int|
        0 <= i < n && 0 <= l < 2 && #[trigger] implied_base(ns, events[i], layouts_spec()[l])
            == Some((base, reg))
}

/// Registers with encodings below `n` that belong to an image at `base`.
pub open spec fn votes(ns: Seq<Node>, events: Seq<Event>, base: u64, n: int) -> nat
    decreases n,
{
    if n <= 0 {
        0
    } else {
        votes(ns, events, base, n - 1) + if voted(
            ns,
            events,
            base,
            gpr((n - 1) as u32),
            events.len() as int,
        ) {
            1nat
        } else {
            0nat
        }
    }
}

/// The base that most registers are spilled to, the higher of two with as many, where
/// enough of them are.
pub open spec fn spilled_at(ns: Seq<Node>, events: Seq<Event>, r: Option<u64>) -> bool {
    match r {
        Some(base) => votes(ns, events, base, 16) >= MIN_SPILL_REGS && forall|b: u64|
            (#[trigger] votes(ns, events, b, 16)) < votes(ns, events, base, 16) || (votes(
                ns,
                events,
                b,
                16,
            ) == votes(ns, events, base, 16) && b <= base),
        None => forall|b: u64| (#[trigger] votes(ns, events, b, 16)) < MIN_SPILL_REGS,
    }
}

/// An event with its region placed anew, where its address is concrete. A symbolic one was
/// classified by where it comes from, which does not depend on the context.
pub open spec fn replaced_event(m: Emulator, e: Event) -> Event {
    match e {
        Event::Store { addr, value, width, site, region } => match const_of(m.arena.nodes@, addr) {
            Some(a) => Event::Store { addr, value, width, site, region: region_at(m, a) },
            None => e,
        },
        Event::Load { addr, value, width, site, region } => match const_of(m.arena.nodes@, addr) {
            Some(a) => Event::Load { addr, value, width, site, region: region_at(m, a) },
            None => e,
        },
        _ => e,
    }
}

proof fn lemma_join_grows(a: Seq<Node>, b: Seq<Node>, bytes: Seq<Byte>, e: Env)
    requires
        forall|r: Ref| has(a, r) ==> #[trigger] eval(b, r, e) == eval(a, r, e),
        forall|i: int| 0 <= i < bytes.len() ==> byte_ok(a, #[trigger] bytes[i]),
    ensures
        join_bytes(b, bytes, e) == join_bytes(a, bytes, e),
    decreases bytes.len(),
{
    if bytes.len() > 0 {
        assert forall|i: int| 0 <= i < bytes.drop_last().len() implies byte_ok(
            a,
            #[trigger] bytes.drop_last()[i],
        ) by {
            assert(bytes.drop_last()[i] == bytes[i]);
        }
        lemma_join_grows(a, b, bytes.drop_last(), e);
        assert(byte_ok(a, bytes.last()));
    }
}

/// What was found in memory is still that as the arena grows, before or after.
proof fn lemma_found_grows(
    m0: Emulator,
    a: Arena,
    b: Arena,
    c: Arena,
    addr: u64,
    x: Ref,
)
    requires
        m0.wf(),
        a.continues(m0.arena),
        c.continues(b),
        found_in_memory(m0.state.mem@, *m0.pe, a.nodes@, addr, Width::W64, b.nodes@, x),
    ensures
        found_in_memory(
            m0.state.mem@,
            *m0.pe,
            m0.arena.nodes@,
            addr,
            Width::W64,
            c.nodes@,
            x,
        ),
{
    let n0 = m0.arena.nodes@;
    let bytes = choose|bytes: Seq<Byte>| #[trigger]
        bytes_at(m0.state.mem@, *m0.pe, addr, bytes) && bytes.len() == Width::W64.bytes() && (forall|
            e: Env,
        | #[trigger]
            eval(b.nodes@, x, e) == join_bytes(a.nodes@, bytes, e)) && (crate::vm::load::all_known(
            bytes,
        ) ==> const_of(b.nodes@, x) is Some);
    assert forall|i: int| 0 <= i < bytes.len() implies byte_ok(n0, #[trigger] bytes[i]) by {
        assert(byte_found(m0.state.mem@, *m0.pe, byte_addr(addr, i), bytes[i]));
    }
    assert forall|e: Env| #[trigger] eval(c.nodes@, x, e) == join_bytes(n0, bytes, e) by {
        assert(eval(c.nodes@, x, e) == eval(b.nodes@, x, e));
        lemma_join_grows(n0, a.nodes@, bytes, e);
    }
    assert(bytes_at(m0.state.mem@, *m0.pe, addr, bytes));
}

proof fn lemma_confirmed(ns: Seq<Node>, order: Seq<Reg>, slots: Seq<Option<Ref>>, n: int)
    requires
        0 <= n,
    ensures
        confirmed(ns, order, slots, n) <= n,
    decreases n,
{
    if n > 0 {
        lemma_confirmed(ns, order, slots, n - 1);
    }
}

proof fn lemma_slots_same(
    a: Seq<Node>,
    b: Seq<Node>,
    stack_base: u64,
    order: Seq<Reg>,
    s: Seq<Option<Ref>>,
    t: Seq<Option<Ref>>,
    n: int,
)
    requires
        extends(a, b),
        0 <= n <= s.len(),
        n <= t.len(),
        forall|i: int| 0 <= i < n ==> #[trigger] s[i] == t[i],
        forall|i: int| 0 <= i < n ==> (#[trigger] s[i] matches Some(v) ==> has(a, v)),
    ensures
        confirmed(b, order, t, n) == confirmed(a, order, s, n),
        rsp_plausible(b, stack_base, order, t, n) == rsp_plausible(a, stack_base, order, s, n),
        present(order, t, n) == present(order, s, n),
    decreases n,
{
    if n > 0 {
        lemma_slots_same(a, b, stack_base, order, s, t, n - 1);
        assert(s[n - 1] == t[n - 1]);
    }
}

impl<'a> Emulator<'a> {
    /// Read a qword slot without assuming any layout.
    pub fn raw_slot(&mut self, addr: u64) -> (r: Option<Ref>)
        requires
            old(self).wf(),
        ensures
            final(self).wf(),
            quiet(*old(self), *final(self)),
            slot_value(*old(self), addr, *final(self), r),
    {
        let ghost m0 = *self;
        let r = memory_value(&self.state, &mut self.arena, self.pe, addr, Width::W64);
        proof {
            lemma_quiet(m0, *self);
        }
        r
    }

    fn probe_layout_at(&mut self, base: u64, layout: Layout) -> (p: Probe)
        requires
            old(self).wf(),
        ensures
            final(self).wf(),
            probes(*old(self), base, layout, *final(self), p),
            quiet(*old(self), *final(self)),
            p.score <= 16,
            forall|k: int|
                0 <= k < p.regs@.len() ==> has(final(self).arena.nodes@, (#[trigger] p.regs@[k]).1)
                    && width_of(final(self).arena.nodes@, p.regs@[k].1) == Width::W64,
    {
        let ghost m0 = *self;
        let ghost order = layout.order@;
        let mut regs: Vec<(Reg, Ref)> = Vec::new();
        let mut score: usize = 0;
        let mut rsp: bool = false;
        let mut i: usize = 0;
        let ghost mut slots: Seq<Option<Ref>> = Seq::empty();
        proof {
            lemma_quiet(m0, m0);
        }
        while i < 16
            invariant
                i <= 16,
                m0.wf(),
                self.wf(),
                order == layout.order@,
                order.len() == 16,
                slots_read(m0, base, layout, i as int, *self, slots),
                score == confirmed(self.arena.nodes@, order, slots, i as int),
                score <= i,
                rsp == rsp_plausible(self.arena.nodes@, m0.stack_base, order, slots, i as int),
                regs@ == present(order, slots, i as int),
                forall|k: int|
                    0 <= k < regs@.len() ==> has(self.arena.nodes@, (#[trigger] regs@[k]).1)
                        && width_of(self.arena.nodes@, regs@[k].1) == Width::W64,
            decreases 16 - i,
        {
            let ghost before = *self;
            let ghost s0 = slots;
            let ghost r0 = regs@;
            let addr: u64 = layout.address(base, i);
            let found = self.raw_slot(addr);
            let reg = layout.order[i];
            proof {
                slots = slots.push(found);
                let n1 = self.arena.nodes@;
                lemma_quiet_twice(m0, before, *self);
                assert forall|k: int| 0 <= k < i implies (#[trigger] s0[k] matches Some(v) ==> has(
                    before.arena.nodes@,
                    v,
                )) by {
                    assert(slot_value(m0, layout.slot_addr(base, k), before, s0[k]));
                }
                lemma_slots_same(before.arena.nodes@, n1, m0.stack_base, order, s0, slots, i as int);
                assert forall|k: int| 0 <= k < i + 1 implies slot_value(
                    m0,
                    layout.slot_addr(base, k),
                    *self,
                    #[trigger] slots[k],
                ) by {
                    if k < i {
                        assert(slots[k] == s0[k]);
                        assert(slot_value(m0, layout.slot_addr(base, k), before, s0[k]));
                        if let Some(x) = s0[k] {
                            lemma_found_grows(
                                m0,
                                m0.arena,
                                before.arena,
                                self.arena,
                                layout.slot_addr(base, k),
                                x,
                            );
                        }
                    } else if let Some(x) = found {
                        lemma_found_grows(m0, before.arena, self.arena, self.arena, addr, x);
                    }
                }
                assert(slots[i as int] == found);
            }
            if let Some(v) = found {
                if slot_confirms_register(self.arena.op(v), reg) {
                    score = score + 1;
                }
                if reg == Reg::Rsp {
                    if let Some(c) = self.arena.as_const(v) {
                        rsp = c % 8 == 0 && c > self.stack_base.saturating_sub(GUEST_FRAME_WINDOW)
                            && c <= self.stack_base.saturating_add(GUEST_FRAME_WINDOW);
                    }
                }
                regs.push((reg, v));
            }
            proof {
                assert forall|k: int| 0 <= k < regs@.len() implies has(
                    self.arena.nodes@,
                    (#[trigger] regs@[k]).1,
                ) && width_of(self.arena.nodes@, regs@[k].1) == Width::W64 by {
                    if k < r0.len() {
                        assert(regs@[k] == r0[k]);
                    }
                }
            }
            i = i + 1;
        }
        let p = Probe { score, rsp, regs, layout };
        proof {
            assert(probe_steps(m0, base, *self, p, slots));
        }
        p
    }

    /// Probe `base` under every candidate layout and keep the best fit.
    pub(crate) fn probe_best_layout(&mut self, base: u64) -> (p: Probe)
        requires
            old(self).wf(),
        ensures
            final(self).wf(),
            probes_best(*old(self), base, *final(self), p),
            quiet(*old(self), *final(self)),
            p.score <= 16,
            forall|k: int|
                0 <= k < p.regs@.len() ==> has(final(self).arena.nodes@, (#[trigger] p.regs@[k]).1)
                    && width_of(final(self).arena.nodes@, p.regs@[k].1) == Width::W64,
    {
        let ghost m0 = *self;
        let all = layouts();
        let first = self.probe_layout_at(base, all[0]);
        let ghost ma = *self;
        let second = self.probe_layout_at(base, all[1]);
        let better: bool = (second.rsp && !first.rsp) || (second.rsp == first.rsp && second.score
            > first.score);
        proof {
            lemma_quiet_twice(m0, ma, *self);
            assert(best_steps(
                m0,
                base,
                ma,
                first,
                *self,
                second,
                if fits_better(second, first) {
                    second
                } else {
                    first
                },
            ));
            assert forall|k: int| 0 <= k < first.regs@.len() implies has(
                self.arena.nodes@,
                (#[trigger] first.regs@[k]).1,
            ) && width_of(self.arena.nodes@, first.regs@[k].1) == Width::W64 by {
                assert(has(ma.arena.nodes@, first.regs@[k].1));
            }
        }
        if better {
            second
        } else {
            first
        }
    }

    /// Locate the guest register image inside the VM context by content.
    #[verifier::rlimit(30)]
    pub(crate) fn search_guest_context(&mut self) -> (r: Option<u64>)
        requires
            old(self).wf(),
        ensures
            final(self).wf(),
            searches(*old(self), *final(self), r),
            quiet_but_miss(*old(self), *final(self)),
    {
        let ghost m0 = *self;
        proof {
            assert(has(self.arena.nodes@, self.state.regs@[Reg::Rbp.number() as int]));
            lemma_quiet(m0, m0);
        }
        let rbp: u64 = match self.arena.as_const(self.state.reg(Reg::Rbp)) {
            Some(v) => v,
            None => {
                self.ctx_miss = Some((false, 0));
                proof {
                    lemma_wf_grows(m0, *self);
                }
                return None;
            },
        };
        let lo: u64 = rbp.saturating_sub(0x40) & !7u64;
        let hi: u64 = rbp.saturating_add(0x200);
        proof {
            lemma_aligned();
        }
        let mut best: Option<(usize, usize)> = None;
        let mut any: bool = false;
        let mut top: usize = 0;
        let mut k: usize = 0;
        let ghost mut ms: Seq<Emulator> = seq![m0];
        let ghost mut ps: Seq<Probe> = Seq::empty();
        while k < 80 && 8 * (k as u64) < hi - lo
            invariant
                k <= 80,
                m0.wf(),
                self.wf(),
                lo == search_start(rbp),
                hi == search_end(rbp),
                lo <= rbp <= hi,
                hi - lo <= 640,
                quiet(m0, *self),
                ps.len() == k,
                search_chain(ms, ps, lo, hi as int),
                ms.first() == m0,
                ms.last() == *self,
                best matches Some(b) ==> b.1 < k && b.0 == ps[b.1 as int].score && leads(
                    ps,
                    b.1 as int,
                ),
                best is None ==> forall|j: int| 0 <= j < k ==> !acceptable(#[trigger] ps[j]),
                miss_of(ps, (any, top)),
            decreases 80 - k,
        {
            let base: u64 = lo + 8 * (k as u64);
            let ghost before = *self;
            let p = self.probe_best_layout(base);
            proof {
                lemma_quiet_twice(m0, before, *self);
                let old_ps = ps;
                let old_ms = ms;
                ps = ps.push(p);
                ms = ms.push(*self);
                assert forall|j: int| 0 <= j < ps.len() implies lo + 8 * j < hi && probes_best(
                    ms[j],
                    (lo + 8 * j) as u64,
                    ms[j + 1],
                    #[trigger] ps[j],
                ) by {
                    assert(ms[j] == old_ms[j]);
                    if j < k {
                        assert(ps[j] == old_ps[j]);
                        assert(ms[j + 1] == old_ms[j + 1]);
                    } else {
                        assert(old_ms[j] == before);
                    }
                }
                lemma_miss_push(old_ps, p, (any, top));
                lemma_leads_push(old_ps, p, best);
            }
            if p.rsp {
                any = true;
                if p.score > top {
                    top = p.score;
                }
            }
            let better: bool = match best {
                Some(b) => p.score > b.0,
                None => true,
            };
            if p.rsp && p.score >= MIN_CONTEXT_SCORE && better {
                best = Some((p.score, k));
            }
            k = k + 1;
        }
        match best {
            Some(b) => {
                let base: u64 = lo + 8 * (b.1 as u64);
                proof {
                    assert(search_steps(m0, rbp, *self, Some(base), ms, ps));
                }
                Some(base)
            },
            None => {
                let ghost m1 = *self;
                self.ctx_miss = Some((any, top));
                proof {
                    lemma_wf_grows(m1, *self);
                    assert(search_steps(m0, rbp, *self, None, ms, ps));
                }
                None
            },
        }
    }
}

proof fn lemma_aligned()
    by (bit_vector)
    ensures
        forall|x: u64| #[trigger] (x & !7u64) <= x && x - (x & !7u64) <= 7,
{
}

proof fn lemma_miss_push(ps: Seq<Probe>, p: Probe, miss: (bool, usize))
    requires
        miss_of(ps, miss),
    ensures
        miss_of(
            ps.push(p),
            (
                miss.0 || p.rsp,
                if p.rsp && p.score > miss.1 {
                    p.score
                } else {
                    miss.1
                },
            ),
        ),
{
    let qs = ps.push(p);
    assert(qs[ps.len() as int] == p);
    assert forall|k: int| 0 <= k < ps.len() implies #[trigger] qs[k] == ps[k] by {}
    let now = (
        miss.0 || p.rsp,
        if p.rsp && p.score > miss.1 {
            p.score
        } else {
            miss.1
        },
    );
    if miss.0 {
        let k = choose|k: int| 0 <= k < ps.len() && (#[trigger] ps[k]).rsp;
        assert(qs[k].rsp);
    }
    if now.1 != 0 && !(p.rsp && p.score > miss.1) {
        let k = choose|k: int|
            0 <= k < ps.len() && (#[trigger] ps[k]).rsp && ps[k].score == miss.1;
        assert(qs[k].rsp && qs[k].score == miss.1);
    }
}

proof fn lemma_leads_push(ps: Seq<Probe>, p: Probe, best: Option<(usize, usize)>)
    requires
        best matches Some(b) ==> b.1 < ps.len() && b.0 == ps[b.1 as int].score && leads(
            ps,
            b.1 as int,
        ),
        best is None ==> forall|j: int| 0 <= j < ps.len() ==> !acceptable(#[trigger] ps[j]),
    ensures
        best matches Some(b) ==> if acceptable(p) && p.score > b.0 {
            leads(ps.push(p), ps.len() as int)
        } else {
            leads(ps.push(p), b.1 as int)
        },
        best is None ==> if acceptable(p) {
            leads(ps.push(p), ps.len() as int)
        } else {
            forall|j: int| 0 <= j < ps.push(p).len() ==> !acceptable(#[trigger] ps.push(p)[j])
        },
{
    let qs = ps.push(p);
    assert(qs[ps.len() as int] == p);
    assert forall|k: int| 0 <= k < ps.len() implies #[trigger] qs[k] == ps[k] by {}
}

} // verus!
