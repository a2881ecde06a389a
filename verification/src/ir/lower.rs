//! Lowering one recovered block: its effects in program order, then its exits.

use crate::ir::anchor::{
    anchored, reanchor_small_addrs_on_call_ret, reanchored, retarget_call, result_of, small_frames,
    sum_fits, undisplaced,
};
use crate::ir::anchor::{last_result, MIN_PLAUSIBLE_ADDR};
use crate::ir::event::{copy_list, BoxedMem, Event, Region};
use crate::ir::expr::{const_of, has, op_of, same_text, Node, Op, Ref};
use crate::ir::graph::{same_terminator, Block, Cfg, Terminator};
use crate::ir::instr::{
    defines, reads, reads_value, sources, BoxedMemOp, CallTarget, Instr, Operand, SchedBlock, ValId,
};
use crate::ir::schedule::{
    defined_in, emitted_for, in_sequence, in_window, inputs_defined, lemma_in_sequence,
    leaf_operand, lemma_reads_placed, lemma_went_on, node_instr, operand_ready, picked_up, placed_more, placed_ok,
    reads_placed, reads_window, starts, Scheduler,
};
use crate::ir::value::{Reg, Width};
use crate::ir::walk::depends;
use crate::ir::x86::{decode_reg, register_part};
use vstd::prelude::*;

verus! {

broadcast use vstd::std_specs::hash::group_hash_axioms;

/// Whether an instruction acts on memory or the outside.
pub open spec fn is_effect(i: Instr) -> bool {
    i is Store || i is Call || i is Boxed
}

/// The instructions that act, in order.
pub open spec fn effects(instrs: Seq<Instr>) -> Seq<Instr>
    decreases instrs.len(),
{
    if instrs.len() == 0 {
        Seq::empty()
    } else if is_effect(instrs.last()) {
        effects(instrs.drop_last()).push(instrs.last())
    } else {
        effects(instrs.drop_last())
    }
}

/// Whether an event acts on guest memory or the outside. The rest is interpreter
/// bookkeeping and has no place in the output.
pub open spec fn is_guest_effect(e: Event) -> bool {
    match e {
        Event::Store { region, .. } => region == Region::Guest,
        Event::Load { .. } => false,
        Event::Boxed { .. } => true,
        Event::Call { .. } => true,
    }
}

/// The events that act, in order.
pub open spec fn guest_effects(events: Seq<Event>) -> Seq<Event>
    decreases events.len(),
{
    if events.len() == 0 {
        Seq::empty()
    } else if is_guest_effect(events.last()) {
        guest_effects(events.drop_last()).push(events.last())
    } else {
        guest_effects(events.drop_last())
    }
}

/// Whether a node is scheduled as the operand.
pub open spec fn is_at(placed: Map<usize, Operand>, r: Ref, o: Operand) -> bool {
    placed.dom().contains(r.idx) && placed[r.idx] == o
}

/// Whether an address stands for an operand: the operand itself, a call's argument slot for
/// a stack location, or a place behind a call's result for a small constant.
pub open spec fn addresses(addr: Operand, disp: i64, o: Operand) -> bool {
    ||| addr == o && disp == 0
    ||| addr is OutArg && disp == 0 && o is Frame
    ||| addr is Val && o == Operand::Imm(disp as u64) && 0 <= disp < MIN_PLAUSIBLE_ADDR
}

/// Whether a value is a register some earlier call destroyed.
pub open spec fn is_tagged(ns: Seq<Node>, r: Ref, tag: Seq<char>) -> bool {
    op_of(ns, r) matches Op::Opaque(t, _) && t@ == tag
}

/// The argument values a call needs. One that some earlier call destroyed is undefined, so
/// anything satisfies it.
pub open spec fn wanted_args(ns: Seq<Node>, args: Seq<(Reg, Ref)>) -> Seq<(Reg, Ref)>
    decreases args.len(),
{
    if args.len() == 0 {
        Seq::empty()
    } else if is_tagged(ns, args.last().1, "clobbered"@) {
        wanted_args(ns, args.drop_last())
    } else {
        wanted_args(ns, args.drop_last()).push(args.last())
    }
}

/// The implicit reads of a boxed instruction that are of general purpose registers.
pub open spec fn wanted_uses(uses: Seq<(u32, Ref)>) -> Seq<(Reg, Ref)>
    decreases uses.len(),
{
    if uses.len() == 0 {
        Seq::empty()
    } else {
        match register_part(uses.last().0) {
            Some((base, _, _)) => wanted_uses(uses.drop_last()).push((base, uses.last().1)),
            None => wanted_uses(uses.drop_last()),
        }
    }
}

/// Whether the assignments name the placed values.
pub open spec fn all_at(placed: Map<usize, Operand>, want: Seq<(Reg, Ref)>, got: Seq<(Reg, Operand)>) -> bool {
    &&& got.len() == want.len()
    &&& forall|k: int|
        0 <= k < want.len() ==> (#[trigger] got[k]).0 == want[k].0 && is_at(placed, want[k].1, got[k].1)
}

/// The callee of a call.
pub open spec fn calls(
    ns: Seq<Node>,
    placed: Map<usize, Operand>,
    t: CallTarget,
    target: Option<Ref>,
    import_slot: Option<u64>,
    site: u64,
) -> bool {
    match (target, import_slot) {
        (_, Some(slot)) => t == (CallTarget::Import { slot }),
        (Some(r), None) => match const_of(ns, r) {
            Some(a) => t == CallTarget::Direct(a),
            None => t matches CallTarget::Indirect(o) && is_at(placed, r, o),
        },
        (None, None) => t == (CallTarget::Unknown { site }),
    }
}

/// Whether an instruction does what an event did.
pub open spec fn performs(ns: Seq<Node>, placed: Map<usize, Operand>, i: Instr, e: Event) -> bool {
    match (i, e) {
        (
            Instr::Store { addr, value, disp, width },
            Event::Store { addr: at, value: v, width: w, .. },
        ) => width == w && is_at(placed, v, value) && placed.dom().contains(at.idx) && addresses(
            addr,
            disp,
            placed[at.idx],
        ),
        (
            Instr::Call { target, args },
            Event::Call { target: t, site, import_slot, args: a, .. },
        ) => calls(ns, placed, target, t, import_slot, site) && all_at(
            placed,
            wanted_args(ns, a@),
            args@,
        ),
        (
            Instr::Boxed { site, text, bytes, mem, uses },
            Event::Boxed { site: s, text: t, bytes: b, mem: m, uses: u, .. },
        ) => site == s && text@ == t@ && bytes@ == b@ && boxed_mem_at(placed, mem, m) && all_at(
            placed,
            wanted_uses(u@),
            uses@,
        ),
        _ => false,
    }
}

/// Whether a boxed instruction's memory operand is the event's.
pub open spec fn boxed_mem_at(placed: Map<usize, Operand>, mem: Option<BoxedMemOp>, m: Option<BoxedMem>) -> bool {
    match (mem, m) {
        (Some(x), Some(y)) => is_at(placed, y.addr, x.addr) && x.bytes == y.bytes && x.writes == y.writes,
        (None, None) => true,
        _ => false,
    }
}

/// Whether the instructions do what the events did, in order.
pub open spec fn performs_all(
    ns: Seq<Node>,
    placed: Map<usize, Operand>,
    instrs: Seq<Instr>,
    events: Seq<Event>,
) -> bool {
    &&& effects(instrs).len() == guest_effects(events).len()
    &&& forall|k: int|
        0 <= k < effects(instrs).len() ==> performs(
            ns,
            placed,
            #[trigger] effects(instrs)[k],
            guest_effects(events)[k],
        )
}

/// Whether every reference of an event is to a node of the arena.
pub open spec fn event_held(ns: Seq<Node>, e: Event) -> bool {
    match e {
        Event::Store { addr, value, .. } => has(ns, addr) && has(ns, value),
        Event::Load { addr, value, .. } => has(ns, addr) && has(ns, value),
        Event::Boxed { mem, defs, uses, .. } => {
            &&& mem matches Some(m) ==> has(ns, m.addr)
            &&& forall|k: int| 0 <= k < defs@.len() ==> has(ns, (#[trigger] defs@[k]).1)
            &&& forall|k: int| 0 <= k < uses@.len() ==> has(ns, (#[trigger] uses@[k]).1)
        },
        Event::Call { target, args, ret, .. } => {
            &&& target matches Some(t) ==> has(ns, t)
            &&& ret matches Some(r) ==> has(ns, r)
            &&& forall|k: int| 0 <= k < args@.len() ==> has(ns, (#[trigger] args@[k]).1)
        },
    }
}

/// Whether every reference of a terminator is to a node of the arena.
pub open spec fn terminator_held(ns: Seq<Node>, t: Terminator) -> bool {
    match t {
        Terminator::Branch { predicate, .. } => has(ns, predicate),
        Terminator::Switch { selector, .. } => has(ns, selector),
        Terminator::Return { dest } => has(ns, dest),
        _ => true,
    }
}

/// Whether every reference of a block is to a node of the arena.
pub open spec fn block_held(ns: Seq<Node>, b: Block) -> bool {
    &&& forall|k: int| 0 <= k < b.events@.len() ==> event_held(ns, #[trigger] b.events@[k])
    &&& forall|k: int| 0 <= k < b.exit_regs@.len() ==> has(ns, (#[trigger] b.exit_regs@[k]).1)
    &&& forall|k: int| 0 <= k < b.params@.len() ==> has(ns, (#[trigger] b.params@[k]).1)
    &&& terminator_held(ns, b.terminator)
}

/// Whether a memory access carries no displacement yet.
pub open spec fn plain(i: Instr) -> bool {
    match i {
        Instr::Store { disp, .. } => disp == 0,
        Instr::Load { disp, .. } => disp == 0,
        _ => true,
    }
}

/// Whether an event leaves a value that the node names: what a call returns, or what an
/// instruction kept as it is writes.
pub open spec fn names(e: Event, k: usize) -> bool {
    match e {
        Event::Call { ret, .. } => ret matches Some(r) && r.idx == k,
        Event::Boxed { defs, .. } => exists|m: int| 0 <= m < defs@.len() && (#[trigger] defs@[m]).1.idx == k,
        _ => false,
    }
}

/// Whether some event leaves a value that the node names.
pub open spec fn left_by(events: Seq<Event>, k: usize) -> bool {
    exists|j: int| 0 <= j < events.len() && names(#[trigger] events[j], k)
}

/// Whether a placed node is accounted for: it is where its operation says, or it names the
/// result of an event and is picked up from a register.
#[verifier::opaque]
pub open spec fn accounted(
    ns: Seq<Node>,
    instrs: Seq<Instr>,
    placed: Map<usize, Operand>,
    base: u64,
    events: Seq<Event>,
    k: usize,
) -> bool {
    ||| placed_ok(ns, instrs, placed, base, 0, k)
    ||| left_by(events, k) && picked_up(instrs, placed[k])
}

/// Whether every placed node is accounted for.
pub open spec fn traced(
    ns: Seq<Node>,
    instrs: Seq<Instr>,
    placed: Map<usize, Operand>,
    base: u64,
    events: Seq<Event>,
) -> bool {
    forall|k: usize| #[trigger]
        placed.dom().contains(k) ==> accounted(ns, instrs, placed, base, events, k)
}

/// More code, more placed nodes and more events leave what is accounted for so.
proof fn lemma_traced_more(
    ns: Seq<Node>,
    base: u64,
    i0: Seq<Instr>,
    p0: Map<usize, Operand>,
    e0: Seq<Event>,
    i1: Seq<Instr>,
    p1: Map<usize, Operand>,
    e1: Seq<Event>,
)
    requires
        traced(ns, i0, p0, base, e0),
        starts(i0, i1),
        placed_more(p0, p1),
        e0.len() <= e1.len(),
        forall|j: int| 0 <= j < e0.len() ==> e1[j] == e0[j],
        forall|k: usize| #[trigger]
            p1.dom().contains(k) && !p0.dom().contains(k) ==> accounted(ns, i1, p1, base, e1, k),
    ensures
        traced(ns, i1, p1, base, e1),
{
    assert forall|k: usize| #[trigger] p1.dom().contains(k) implies accounted(ns, i1, p1, base, e1, k) by {
        if p0.dom().contains(k) {
            reveal(accounted);
            assert(accounted(ns, i0, p0, base, e0, k));
            let r = Ref { idx: k };
            if placed_ok(ns, i0, p0, base, 0, k) {
                if leaf_operand(ns, r, base) != Some(p0[k]) {
                    let i = choose|i: int|
                        0 <= i < i0.len() && (p0[k] matches Operand::Val(v) && #[trigger] i0[i]
                            == node_instr(ns, r, p0, v, base));
                    let v = p0[k]->Val_0;
                    crate::ir::schedule::lemma_node_instr(ns, r, p0, p1, v, base);
                    assert(i1[i] == i0[i]);
                    assert(i1[i] == node_instr(ns, r, p1, v, base));
                }
                assert(placed_ok(ns, i1, p1, base, 0, k));
            } else {
                let j = choose|j: int| 0 <= j < e0.len() && names(#[trigger] e0[j], k);
                assert(names(e1[j], k));
                let i = choose|i: int|
                    0 <= i < i0.len() && (#[trigger] i0[i] matches Instr::Opaque { dst, at, .. } && at is Some
                        && p0[k] == Operand::Val(dst));
                assert(i1[i] == i0[i]);
                assert(picked_up(i1, p1[k]));
            }
        }
    }
}

/// What scheduling a value places is accounted for.
proof fn lemma_value_traced<'a>(s0: Scheduler<'a>, s1: Scheduler<'a>, events: Seq<Event>)
    requires
        traced(s0.arena.nodes@, s0.instrs@, s0.placed@, s0.stack_base, events),
        s1.went_on(s0),
    ensures
        traced(s1.arena.nodes@, s1.instrs@, s1.placed@, s1.stack_base, events),
{
    let ns = s1.arena.nodes@;
    let base = s1.stack_base;
    assert forall|k: usize| #[trigger]
        s1.placed@.dom().contains(k) && !s0.placed@.dom().contains(k) implies accounted(
        ns,
        s1.instrs@,
        s1.placed@,
        base,
        events,
        k,
    ) by {
        reveal(accounted);
        lemma_from_start(ns, s1.instrs@, s1.placed@, base, s0.instrs@.len() as int, k);
    }
    lemma_traced_more(ns, base, s0.instrs@, s0.placed@, events, s1.instrs@, s1.placed@, events);
}

/// What stands from some place on stands in the whole.
proof fn lemma_from_start(
    ns: Seq<Node>,
    instrs: Seq<Instr>,
    placed: Map<usize, Operand>,
    base: u64,
    from: int,
    k: usize,
)
    requires
        0 <= from,
        placed_ok(ns, instrs, placed, base, from, k),
    ensures
        placed_ok(ns, instrs, placed, base, 0, k),
{
    let r = Ref { idx: k };
    if leaf_operand(ns, r, base) != Some(placed[k]) {
        let i = choose|i: int|
            from <= i < instrs.len() && (placed[k] matches Operand::Val(v) && #[trigger] instrs[i]
                == node_instr(ns, r, placed, v, base));
        assert(0 <= i);
    }
}

/// The code before addresses are settled: what was settled as it was, and what came after.
pub open spec fn unsettled(pre: Seq<Instr>, instrs: Seq<Instr>) -> Seq<Instr> {
    pre + instrs.skip(pre.len() as int)
}

/// Scheduling a value after addresses are settled keeps everything accounted for.
proof fn lemma_tail_traced<'a>(pre: Seq<Instr>, s0: Scheduler<'a>, s1: Scheduler<'a>, events: Seq<Event>)
    requires
        traced(s0.arena.nodes@, unsettled(pre, s0.instrs@), s0.placed@, s0.stack_base, events),
        pre.len() <= s0.instrs@.len(),
        s1.went_on(s0),
    ensures
        traced(s1.arena.nodes@, unsettled(pre, s1.instrs@), s1.placed@, s1.stack_base, events),
        pre.len() <= s1.instrs@.len(),
        s1.stack_base == s0.stack_base,
        s1.arena == s0.arena,
        starts(s0.instrs@, s1.instrs@),
        placed_more(s0.placed@, s1.placed@),
{
    let ns = s1.arena.nodes@;
    let base = s1.stack_base;
    let a = unsettled(pre, s0.instrs@);
    let b = unsettled(pre, s1.instrs@);
    assert(starts(a, b)) by {
        assert forall|i: int| 0 <= i < a.len() implies #[trigger] b[i] == a[i] by {
            if i >= pre.len() {
                assert(s1.instrs@[i] == s0.instrs@[i]);
            }
        }
    }
    assert forall|k: usize| #[trigger]
        s1.placed@.dom().contains(k) && !s0.placed@.dom().contains(k) implies accounted(
        ns,
        b,
        s1.placed@,
        base,
        events,
        k,
    ) by {
        reveal(accounted);
        let r = Ref { idx: k };
        let from = s0.instrs@.len() as int;
        assert(placed_ok(ns, s1.instrs@, s1.placed@, base, from, k));
        if leaf_operand(ns, r, base) != Some(s1.placed@[k]) {
            let i = choose|i: int|
                from <= i < s1.instrs@.len() && (s1.placed@[k] matches Operand::Val(v) && #[trigger] s1.instrs@[i]
                    == node_instr(ns, r, s1.placed@, v, base));
            assert(b[i] == s1.instrs@[i]);
        }
        assert(placed_ok(ns, b, s1.placed@, base, 0, k));
    }
    lemma_traced_more(ns, base, a, s0.placed@, events, b, s1.placed@, events);
}

/// What lowering keeps between events.
spec fn lowering<'a>(s: Scheduler<'a>, events: Seq<Event>) -> bool {
    &&& s.ok()
    &&& traced(s.arena.nodes@, s.instrs@, s.placed@, s.stack_base, events)
    &&& performs_all(s.arena.nodes@, s.placed@, s.instrs@, events)
    &&& forall|i: int| 0 <= i < s.instrs@.len() ==> plain(#[trigger] s.instrs@[i])
}

pub proof fn lemma_performs_more(
    ns: Seq<Node>,
    p: Map<usize, Operand>,
    q: Map<usize, Operand>,
    i: Instr,
    e: Event,
)
    requires
        performs(ns, p, i, e),
        placed_more(p, q),
    ensures
        performs(ns, q, i, e),
{
    match (i, e) {
        (Instr::Call { target, args }, Event::Call { args: a, .. }) => {
            let want = wanted_args(ns, a@);
            assert forall|k: int| 0 <= k < want.len() implies (#[trigger] args@[k]).0 == want[k].0 && is_at(
                q,
                want[k].1,
                args@[k].1,
            ) by {
                assert(is_at(p, want[k].1, args@[k].1));
            }
        },
        (Instr::Boxed { uses, .. }, Event::Boxed { uses: u, .. }) => {
            let want = wanted_uses(u@);
            assert forall|k: int| 0 <= k < want.len() implies (#[trigger] uses@[k]).0 == want[k].0 && is_at(
                q,
                want[k].1,
                uses@[k].1,
            ) by {
                assert(is_at(p, want[k].1, uses@[k].1));
            }
        },
        _ => {},
    }
}

/// Instructions that compute add nothing to the effects.
proof fn lemma_effects_same(a: Seq<Instr>, b: Seq<Instr>)
    requires
        starts(a, b),
        forall|i: int| a.len() <= i < b.len() ==> !is_effect(#[trigger] b[i]),
    ensures
        effects(b) == effects(a),
    decreases b.len(),
{
    if a.len() == b.len() {
        assert(a =~= b);
    } else {
        let c = b.drop_last();
        assert forall|i: int| 0 <= i < a.len() implies #[trigger] c[i] == a[i] by {
            assert(b[i] == a[i]);
        }
        assert(starts(a, c));
        lemma_effects_same(a, c);
    }
}

/// Scheduling a value changes nothing that was done.
proof fn lemma_value_kept<'a>(s0: Scheduler<'a>, s1: Scheduler<'a>, events: Seq<Event>)
    requires
        lowering(s0, events),
        s1.ok(),
        s1.went_on(s0),
    ensures
        lowering(s1, events),
{
    lemma_value_traced(s0, s1, events);
    let ns = s1.arena.nodes@;
    assert forall|i: int| s0.instrs@.len() <= i < s1.instrs@.len() implies !is_effect(
        #[trigger] s1.instrs@[i],
    ) && plain(s1.instrs@[i]) by {
        assert(emitted_for(ns, s0.placed@, s1.placed@, s1.stack_base, s1.instrs@[i]));
    }
    lemma_effects_same(s0.instrs@, s1.instrs@);
    assert forall|k: int| 0 <= k < effects(s1.instrs@).len() implies performs(
        ns,
        s1.placed@,
        #[trigger] effects(s1.instrs@)[k],
        guest_effects(events)[k],
    ) by {
        lemma_performs_more(
            ns,
            s0.placed@,
            s1.placed@,
            effects(s0.instrs@)[k],
            guest_effects(events)[k],
        );
    }
    assert forall|i: int| 0 <= i < s1.instrs@.len() implies plain(#[trigger] s1.instrs@[i]) by {
        if i < s0.instrs@.len() {
            assert(s1.instrs@[i] == s0.instrs@[i]);
        }
    }
}

/// Doing what the next event did.
proof fn lemma_performed(
    ns: Seq<Node>,
    placed: Map<usize, Operand>,
    instrs: Seq<Instr>,
    i: Instr,
    events: Seq<Event>,
    e: Event,
)
    requires
        performs_all(ns, placed, instrs, events),
        is_effect(i),
        is_guest_effect(e),
        performs(ns, placed, i, e),
    ensures
        performs_all(ns, placed, instrs.push(i), events.push(e)),
{
    assert(instrs.push(i).drop_last() =~= instrs);
    assert(events.push(e).drop_last() =~= events);
    let fx = effects(instrs.push(i));
    let ev = guest_effects(events.push(e));
    assert(fx == effects(instrs).push(i));
    assert(ev == guest_effects(events).push(e));
    assert forall|k: int| 0 <= k < fx.len() implies performs(ns, placed, #[trigger] fx[k], ev[k]) by {
        if k < effects(instrs).len() {
            assert(fx[k] == effects(instrs)[k]);
        }
    }
}

proof fn lemma_skipped(
    ns: Seq<Node>,
    placed: Map<usize, Operand>,
    instrs: Seq<Instr>,
    events: Seq<Event>,
    e: Event,
)
    requires
        performs_all(ns, placed, instrs, events),
        !is_guest_effect(e),
    ensures
        performs_all(ns, placed, instrs, events.push(e)),
{
    assert(events.push(e).drop_last() =~= events);
}

proof fn lemma_ready(instrs: Seq<Instr>, i: Instr)
    requires
        forall|k: int|
            0 <= k < reads(i).len() ==> operand_ready(instrs, #[trigger] reads(i)[k]) && in_window(reads(i)[k]),
    ensures
        inputs_defined(instrs, instrs.len() as int, i),
        reads_window(i),
{
    assert forall|v: ValId| #[trigger] reads_value(reads(i), v) implies defined_in(
        instrs,
        instrs.len() as int,
        v,
    ) by {
        let k = choose|k: int| 0 <= k < reads(i).len() && reads(i)[k] == Operand::Val(v);
        assert(operand_ready(instrs, reads(i)[k]));
    }
}

/// Appending keeps placed operands ready.
proof fn lemma_still_ready(instrs: Seq<Instr>, i: Instr, o: Operand)
    requires
        operand_ready(instrs, o),
    ensures
        operand_ready(instrs.push(i), o),
{
    if let Operand::Val(v) = o {
        let j = choose|j: int|
            0 <= j < instrs.len() && j < instrs.len() && defines(#[trigger] instrs[j]) == Some(v);
        assert(instrs.push(i)[j] == instrs[j]);
    }
}

/// How far lowering is: the code, where values are, and the next value's number.
pub ghost struct Progress {
    pub instrs: Seq<Instr>,
    pub placed: Map<usize, Operand>,
    pub next: u32,
}

/// Lowering that names what an instruction just left in a register: a value without code of
/// its own stands directly behind what there is, and the node is that value from there on.
pub open spec fn with_left(p: Progress, r: Ref, tag: &'static str, at: Reg) -> Progress {
    let dst = ValId(p.next);
    Progress {
        instrs: p.instrs.push(Instr::Opaque { dst, tag, width: Width::W64, at: Some(at) }),
        placed: p.placed.insert(r.idx, Operand::Val(dst)),
        next: (p.next + 1) as u32,
    }
}

/// Lowering that names what the first `k` of a boxed instruction's results are, in order: each
/// that is an unmodelled value in a general purpose register, unless something names it.
pub open spec fn with_defs(ns: Seq<Node>, p: Progress, defs: Seq<(u32, Ref)>, k: int) -> Progress
    decreases k,
{
    if k <= 0 {
        p
    } else {
        let q = with_defs(ns, p, defs, k - 1);
        let (code, v) = defs[k - 1];
        if q.placed.dom().contains(v.idx) {
            q
        } else {
            match (register_part(code), op_of(ns, v)) {
                (Some((at, _, _)), Op::Opaque(tag, _)) => with_left(q, v, tag, at),
                _ => q,
            }
        }
    }
}

/// Whether lowering an event reads the value.
pub open spec fn needs(e: Event, x: Ref) -> bool {
    match e {
        Event::Store { addr, value, region, .. } => region == Region::Guest && (x == addr || x == value),
        Event::Load { value, region, .. } => region == Region::Guest && x == value,
        Event::Call { target, import_slot, args, .. } => {
            ||| import_slot is None && target == Some(x)
            ||| exists|m: int| 0 <= m < args@.len() && (#[trigger] args@[m]).1 == x
        },
        Event::Boxed { mem, uses, .. } => {
            ||| mem matches Some(m) && m.addr == x
            ||| exists|m: int| 0 <= m < uses@.len() && (#[trigger] uses@[m]).1 == x
        },
    }
}

/// Whether lowering an event needs the node: it is one of the values the event reads, or is
/// computed on the way to one.
pub open spec fn needs_node(ns: Seq<Node>, e: Event, k: usize) -> bool {
    exists|x: Ref| #[trigger] needs(e, x) && depends(ns, x, Ref { idx: k })
}

/// Whether lowering went on by computing values only, those an event needs: each new
/// instruction computes a node that became placed, and each of those is where its operation
/// says.
pub open spec fn fetched(ns: Seq<Node>, base: u64, e: Event, p: Progress, q: Progress) -> bool {
    &&& starts(p.instrs, q.instrs)
    &&& placed_more(p.placed, q.placed)
    &&& forall|k: usize| #[trigger]
        q.placed.dom().contains(k) && !p.placed.dom().contains(k) ==> needs_node(ns, e, k) && placed_ok(
            ns,
            q.instrs,
            q.placed,
            base,
            p.instrs.len() as int,
            k,
        )
    &&& forall|i: int|
        p.instrs.len() <= i < q.instrs.len() ==> emitted_for(
            ns,
            p.placed,
            q.placed,
            base,
            #[trigger] q.instrs[i],
        )
}

/// Lowering with an instruction appended.
pub open spec fn with_instr(p: Progress, i: Instr) -> Progress {
    Progress { instrs: p.instrs.push(i), ..p }
}

/// Lowering that names what a call returned, in RAX, unless something names it.
pub open spec fn with_return(p: Progress, ret: Option<Ref>) -> Progress {
    match ret {
        Some(r) => if p.placed.dom().contains(r.idx) {
            p
        } else {
            with_left(p, r, "call_ret", Reg::Rax)
        },
        None => p,
    }
}

/// Lowering between two events, with the positions and stack pointers of the calls so far.
pub ghost struct Stage {
    pub at: Progress,
    pub calls: Seq<(usize, Option<u64>)>,
}

/// Lowering before the first event.
pub open spec fn first_stage() -> Stage {
    Stage {
        at: Progress { instrs: Seq::empty(), placed: Map::empty(), next: 0 },
        calls: Seq::empty(),
    }
}

/// How an event is lowered: the values it reads are computed up to `mid`, then the
/// instruction `i` does what it did, and what that leaves in registers is named directly
/// behind it.
pub open spec fn lowers_by(
    ns: Seq<Node>,
    base: u64,
    p: Stage,
    e: Event,
    mid: Progress,
    i: Instr,
    q: Stage,
) -> bool {
    &&& fetched(ns, base, e, p.at, mid)
    &&& is_guest_effect(e) ==> is_effect(i) && plain(i) && performs(ns, mid.placed, i, e)
    &&& match e {
        Event::Store { region, .. } => q.calls == p.calls && q.at == (if region == Region::Guest {
            with_instr(mid, i)
        } else {
            p.at
        }),
        Event::Load { value, region, .. } => q.calls == p.calls && if region == Region::Guest {
            q.at == mid && mid.placed.dom().contains(value.idx)
        } else {
            q.at == p.at
        },
        Event::Call { rsp, ret, .. } => q.at == with_return(with_instr(mid, i), ret) && q.calls
            == p.calls.push((mid.instrs.len() as usize, rsp)),
        Event::Boxed { defs, .. } => q.at == with_defs(
            ns,
            with_instr(mid, i),
            defs@,
            defs@.len() as int,
        ) && q.calls == p.calls,
    }
}

/// Whether lowering an event leads from one stage to the next.
pub open spec fn lowers(ns: Seq<Node>, base: u64, p: Stage, e: Event, q: Stage) -> bool {
    exists|mid: Progress, i: Instr| #[trigger] lowers_by(ns, base, p, e, mid, i, q)
}

/// Whether the stages are those of lowering the events, one after the other.
pub open spec fn staged(ns: Seq<Node>, base: u64, events: Seq<Event>, stages: Seq<Stage>) -> bool {
    &&& stages.len() == events.len() + 1
    &&& stages[0] == first_stage()
    &&& forall|j: int|
        0 <= j < events.len() ==> lowers(ns, base, #[trigger] stages[j], events[j], stages[j + 1])
}

/// Scheduling goes on by computing values that the event needs.
spec fn fetches<'a>(s0: Scheduler<'a>, s1: Scheduler<'a>, e: Event) -> bool {
    &&& s1.went_on(s0)
    &&& forall|k: usize| #[trigger]
        s1.placed@.dom().contains(k) && !s0.placed@.dom().contains(k) ==> needs_node(
            s0.arena.nodes@,
            e,
            k,
        )
}

proof fn lemma_fetches<'a>(a: Scheduler<'a>, b: Scheduler<'a>, c: Scheduler<'a>, e: Event)
    requires
        fetches(a, b, e),
        fetches(b, c, e),
    ensures
        fetches(a, c, e),
{
    lemma_went_on(a, b, c);
    assert forall|k: usize| #[trigger]
        c.placed@.dom().contains(k) && !a.placed@.dom().contains(k) implies needs_node(
        a.arena.nodes@,
        e,
        k,
    ) by {
        if b.placed@.dom().contains(k) {
            assert(needs_node(a.arena.nodes@, e, k));
        } else {
            assert(needs_node(b.arena.nodes@, e, k));
        }
    }
}

/// Computing values makes no calls.
proof fn lemma_fetched_calls<'a>(s0: Scheduler<'a>, s1: Scheduler<'a>)
    requires
        s1.went_on(s0),
    ensures
        call_sites(s1.instrs@) == call_sites(s0.instrs@),
{
    let ns = s1.arena.nodes@;
    assert forall|i: int| s0.instrs@.len() <= i < s1.instrs@.len() implies !(#[trigger] s1.instrs@[i] is Call) by {
        assert(emitted_for(ns, s0.placed@, s1.placed@, s1.stack_base, s1.instrs@[i]));
    }
    lemma_sites_same(s0.instrs@, s1.instrs@);
}

/// Naming results makes no calls.
proof fn lemma_defs_calls(ns: Seq<Node>, p: Progress, defs: Seq<(u32, Ref)>, k: int)
    ensures
        call_sites(with_defs(ns, p, defs, k).instrs) == call_sites(p.instrs),
    decreases k,
{
    if k > 0 {
        let q = with_defs(ns, p, defs, k - 1);
        lemma_defs_calls(ns, p, defs, k - 1);
        let r = with_defs(ns, p, defs, k);
        if r != q {
            assert(r.instrs.drop_last() =~= q.instrs);
        }
    }
}

impl<'a> Scheduler<'a> {
    /// Emit an instruction that does what the event `e` did.
    fn act(&mut self, i: Instr, Ghost(events): Ghost<Seq<Event>>, Ghost(e): Ghost<Event>)
        requires
            lowering(*old(self), events),
            is_effect(i),
            is_guest_effect(e),
            plain(i),
            defines(i) is None,
            performs(old(self).arena.nodes@, old(self).placed@, i, e),
            forall|k: int|
                0 <= k < reads(i).len() ==> operand_ready(old(self).instrs@, #[trigger] reads(i)[k])
                    && in_window(reads(i)[k]),
        ensures
            lowering(*final(self), events.push(e)),
            final(self).arena == old(self).arena,
            final(self).block == old(self).block,
            final(self).stack_base == old(self).stack_base,
            final(self).placed == old(self).placed,
            final(self).next == old(self).next,
            final(self).instrs@ == old(self).instrs@.push(i),
    {
        let ghost s0 = *self;
        proof {
            lemma_ready(self.instrs@, i);
            lemma_in_sequence(self.instrs@, self.next, i, self.next);
            lemma_performed(self.arena.nodes@, self.placed@, self.instrs@, i, events, e);
        }
        self.instrs.push(i);
        proof {
            lemma_traced_more(
                self.arena.nodes@,
                self.stack_base,
                s0.instrs@,
                s0.placed@,
                events,
                self.instrs@,
                self.placed@,
                events.push(e),
            );
            assert forall|k: usize| #[trigger] self.placed@.dom().contains(k) implies operand_ready(
                self.instrs@,
                self.placed@[k],
            ) && in_window(self.placed@[k]) by {
                lemma_still_ready(s0.instrs@, i, s0.placed@[k]);
            }
            assert forall|k: usize| #[trigger] self.placed@.dom().contains(k) implies reads_placed(
                self.arena.nodes@,
                self.instrs@,
                self.placed@,
                k,
            ) by {
                lemma_reads_placed(self.arena.nodes@, s0.instrs@, s0.placed@, self.instrs@, self.placed@, k);
            }
            assert forall|k: int| 0 <= k < self.instrs@.len() implies reads_window(
                #[trigger] self.instrs@[k],
            ) && plain(self.instrs@[k]) by {
                if k < s0.instrs@.len() {
                    assert(self.instrs@[k] == s0.instrs@[k]);
                }
            }
        }
    }

    /// How far lowering is.
    spec fn progress(self) -> Progress {
        Progress { instrs: self.instrs@, placed: self.placed@, next: self.next }
    }

    /// Name the value an instruction just left in a register.
    fn left_in(&mut self, r: Ref, tag: &'static str, at: Reg, Ghost(events): Ghost<Seq<Event>>)
        requires
            lowering(*old(self), events),
            old(self).arena.holds(r),
            !old(self).placed@.dom().contains(r.idx),
            left_by(events, r.idx),
        ensures
            lowering(*final(self), events),
            final(self).arena == old(self).arena,
            final(self).block == old(self).block,
            final(self).stack_base == old(self).stack_base,
            placed_more(old(self).placed@, final(self).placed@),
            starts(old(self).instrs@, final(self).instrs@),
            final(self).progress() == with_left(old(self).progress(), r, tag, at),
    {
        let ghost s0 = *self;
        proof {
            crate::ir::schedule::lemma_room(self.placed@.dom(), self.arena.nodes@.len(), r.idx);
        }
        let dst = ValId(self.next);
        let i = Instr::Opaque { dst, tag, width: Width::W64, at: Some(at) };
        proof {
            lemma_ready(self.instrs@, i);
            lemma_in_sequence(self.instrs@, self.next, i, (self.next + 1) as u32);
        }
        self.instrs.push(i);
        self.next = self.next + 1;
        self.placed.insert(r.idx, Operand::Val(dst));
        proof {
            assert(self.placed@.dom() =~= s0.placed@.dom().insert(r.idx));
            assert(defines(self.instrs@[s0.instrs@.len() as int]) == Some(dst));
            assert(accounted(
                self.arena.nodes@,
                self.instrs@,
                self.placed@,
                self.stack_base,
                events,
                r.idx,
            )) by {
                reveal(accounted);
                assert(self.instrs@[s0.instrs@.len() as int] == i);
            }
            lemma_traced_more(
                self.arena.nodes@,
                self.stack_base,
                s0.instrs@,
                s0.placed@,
                events,
                self.instrs@,
                self.placed@,
                events,
            );
            assert forall|k: usize| #[trigger] self.placed@.dom().contains(k) implies operand_ready(
                self.instrs@,
                self.placed@[k],
            ) && in_window(self.placed@[k]) by {
                if k != r.idx {
                    assert(s0.placed@.dom().contains(k));
                    lemma_still_ready(s0.instrs@, i, s0.placed@[k]);
                }
            }
            assert forall|k: usize| #[trigger] self.placed@.dom().contains(k) implies reads_placed(
                self.arena.nodes@,
                self.instrs@,
                self.placed@,
                k,
            ) by {
                if k != r.idx {
                    lemma_reads_placed(
                        self.arena.nodes@,
                        s0.instrs@,
                        s0.placed@,
                        self.instrs@,
                        self.placed@,
                        k,
                    );
                } else {
                    reveal(reads_placed);
                    assert(self.instrs@[s0.instrs@.len() as int] == i);
                }
            }
            assert forall|k: int| 0 <= k < self.instrs@.len() implies reads_window(
                #[trigger] self.instrs@[k],
            ) && plain(self.instrs@[k]) by {
                if k < s0.instrs@.len() {
                    assert(self.instrs@[k] == s0.instrs@[k]);
                }
            }
            lemma_effects_same(s0.instrs@, self.instrs@);
            assert forall|k: int| 0 <= k < effects(self.instrs@).len() implies performs(
                self.arena.nodes@,
                self.placed@,
                #[trigger] effects(self.instrs@)[k],
                guest_effects(events)[k],
            ) by {
                lemma_performs_more(
                    self.arena.nodes@,
                    s0.placed@,
                    self.placed@,
                    effects(s0.instrs@)[k],
                    guest_effects(events)[k],
                );
            }
        }
    }

    /// Schedule a value between events.
    fn operand(&mut self, r: Ref, Ghost(events): Ghost<Seq<Event>>, Ghost(e): Ghost<Event>) -> (o:
        Operand)
        requires
            lowering(*old(self), events),
            old(self).arena.holds(r),
            needs(e, r),
        ensures
            lowering(*final(self), events),
            fetches(*old(self), *final(self), e),
            final(self).arena == old(self).arena,
            final(self).block == old(self).block,
            final(self).stack_base == old(self).stack_base,
            placed_more(old(self).placed@, final(self).placed@),
            starts(old(self).instrs@, final(self).instrs@),
            is_at(final(self).placed@, r, o),
            operand_ready(final(self).instrs@, o),
            in_window(o),
    {
        let ghost s0 = *self;
        let o = self.value(r);
        proof {
            lemma_value_kept(s0, *self, events);
            assert forall|k: usize| #[trigger]
                self.placed@.dom().contains(k) && !s0.placed@.dom().contains(k) implies needs_node(
                s0.arena.nodes@,
                e,
                k,
            ) by {
                assert(needs(e, r) && depends(s0.arena.nodes@, r, Ref { idx: k }));
            }
        }
        o
    }

    /// Schedule the argument values of a call.
    fn call_args(&mut self, args: &Vec<(Reg, Ref)>, Ghost(events): Ghost<Seq<Event>>, Ghost(e): Ghost<Event>) -> (out: Vec<
        (Reg, Operand),
    >)
        requires
            lowering(*old(self), events),
            forall|k: int| 0 <= k < args@.len() ==> needs(e, (#[trigger] args@[k]).1),
            forall|k: int| 0 <= k < args@.len() ==> has(old(self).arena.nodes@, (#[trigger] args@[k]).1),
        ensures
            lowering(*final(self), events),
            fetches(*old(self), *final(self), e),
            final(self).arena == old(self).arena,
            final(self).block == old(self).block,
            final(self).stack_base == old(self).stack_base,
            placed_more(old(self).placed@, final(self).placed@),
            starts(old(self).instrs@, final(self).instrs@),
            all_at(final(self).placed@, wanted_args(final(self).arena.nodes@, args@), out@),
    {
        let ghost s0 = *self;
        let ghost ns = self.arena.nodes@;
        let mut out: Vec<(Reg, Operand)> = Vec::new();
        let mut k: usize = 0;
        while k < args.len()
            invariant
                k <= args@.len(),
                ns == s0.arena.nodes@,
                lowering(*self, events),
                fetches(s0, *self, e),
                forall|k: int| 0 <= k < args@.len() ==> needs(e, (#[trigger] args@[k]).1),
                self.arena == s0.arena,
                self.block == s0.block,
                self.stack_base == s0.stack_base,
                placed_more(s0.placed@, self.placed@),
                starts(s0.instrs@, self.instrs@),
                forall|k: int| 0 <= k < args@.len() ==> has(ns, (#[trigger] args@[k]).1),
                all_at(self.placed@, wanted_args(ns, args@.take(k as int)), out@),
            decreases args@.len() - k,
        {
            let (r, v) = args[k];
            let ghost pre = args@.take(k as int);
            let ghost out0 = out@;
            let ghost p0 = self.placed@;
            let ghost before = *self;
            proof {
                assert(has(ns, args@[k as int].1));
                assert(args@.take(k + 1).drop_last() =~= pre);
            }
            let dead = match *self.arena.op(v) {
                Op::Opaque(tag, _) => same_text(tag, "clobbered"),
                _ => false,
            };
            if !dead {
                let o = self.operand(v, Ghost(events), Ghost(e));
                proof {
                    lemma_fetches(s0, before, *self, e);
                }
                out.push((r, o));
            }
            proof {
                let want = wanted_args(ns, args@.take(k + 1));
                let want0 = wanted_args(ns, pre);
                assert forall|j: int| 0 <= j < want.len() implies (#[trigger] out@[j]).0 == want[j].0
                    && is_at(self.placed@, want[j].1, out@[j].1) by {
                    if j < want0.len() {
                        assert(out@[j] == out0[j] && want[j] == want0[j]);
                        assert(is_at(p0, want0[j].1, out0[j].1));
                    }
                }
            }
            k = k + 1;
        }
        proof {
            assert(args@.take(args@.len() as int) =~= args@);
        }
        out
    }

    /// Schedule the values a boxed instruction's implicit register reads must find.
    fn boxed_uses(&mut self, uses: &Vec<(u32, Ref)>, Ghost(events): Ghost<Seq<Event>>, Ghost(e): Ghost<Event>) -> (out: Vec<
        (Reg, Operand),
    >)
        requires
            lowering(*old(self), events),
            forall|k: int| 0 <= k < uses@.len() ==> needs(e, (#[trigger] uses@[k]).1),
            forall|k: int| 0 <= k < uses@.len() ==> has(old(self).arena.nodes@, (#[trigger] uses@[k]).1),
        ensures
            lowering(*final(self), events),
            fetches(*old(self), *final(self), e),
            final(self).arena == old(self).arena,
            final(self).block == old(self).block,
            final(self).stack_base == old(self).stack_base,
            placed_more(old(self).placed@, final(self).placed@),
            starts(old(self).instrs@, final(self).instrs@),
            all_at(final(self).placed@, wanted_uses(uses@), out@),
    {
        let ghost s0 = *self;
        let ghost ns = self.arena.nodes@;
        let mut out: Vec<(Reg, Operand)> = Vec::new();
        let mut k: usize = 0;
        while k < uses.len()
            invariant
                k <= uses@.len(),
                ns == s0.arena.nodes@,
                lowering(*self, events),
                fetches(s0, *self, e),
                forall|k: int| 0 <= k < uses@.len() ==> needs(e, (#[trigger] uses@[k]).1),
                self.arena == s0.arena,
                self.block == s0.block,
                self.stack_base == s0.stack_base,
                placed_more(s0.placed@, self.placed@),
                starts(s0.instrs@, self.instrs@),
                forall|k: int| 0 <= k < uses@.len() ==> has(ns, (#[trigger] uses@[k]).1),
                all_at(self.placed@, wanted_uses(uses@.take(k as int)), out@),
            decreases uses@.len() - k,
        {
            let (code, v) = uses[k];
            let ghost pre = uses@.take(k as int);
            let ghost out0 = out@;
            let ghost p0 = self.placed@;
            let ghost before = *self;
            proof {
                assert(has(ns, uses@[k as int].1));
                assert(uses@.take(k + 1).drop_last() =~= pre);
            }
            if let Some((base, _, _)) = decode_reg(code) {
                let o = self.operand(v, Ghost(events), Ghost(e));
                proof {
                    lemma_fetches(s0, before, *self, e);
                }
                out.push((base, o));
            }
            proof {
                let want = wanted_uses(uses@.take(k + 1));
                let want0 = wanted_uses(pre);
                assert forall|j: int| 0 <= j < want.len() implies (#[trigger] out@[j]).0 == want[j].0
                    && is_at(self.placed@, want[j].1, out@[j].1) by {
                    if j < want0.len() {
                        assert(out@[j] == out0[j] && want[j] == want0[j]);
                        assert(is_at(p0, want0[j].1, out0[j].1));
                    }
                }
            }
            k = k + 1;
        }
        proof {
            assert(uses@.take(uses@.len() as int) =~= uses@);
        }
        out
    }

    /// Name what a boxed instruction left in its registers, where nothing names it yet.
    fn boxed_defs(&mut self, defs: &Vec<(u32, Ref)>, Ghost(events): Ghost<Seq<Event>>)
        requires
            lowering(*old(self), events),
            forall|k: int| 0 <= k < defs@.len() ==> has(old(self).arena.nodes@, (#[trigger] defs@[k]).1),
            forall|k: int| 0 <= k < defs@.len() ==> left_by(events, (#[trigger] defs@[k]).1.idx),
        ensures
            lowering(*final(self), events),
            final(self).arena == old(self).arena,
            final(self).block == old(self).block,
            final(self).stack_base == old(self).stack_base,
            placed_more(old(self).placed@, final(self).placed@),
            starts(old(self).instrs@, final(self).instrs@),
            final(self).progress() == with_defs(
                old(self).arena.nodes@,
                old(self).progress(),
                defs@,
                defs@.len() as int,
            ),
    {
        let ghost s0 = *self;
        let mut k: usize = 0;
        while k < defs.len()
            invariant
                forall|k: int| 0 <= k < defs@.len() ==> left_by(events, (#[trigger] defs@[k]).1.idx),
                k <= defs@.len(),
                lowering(*self, events),
                self.arena == s0.arena,
                self.block == s0.block,
                self.stack_base == s0.stack_base,
                placed_more(s0.placed@, self.placed@),
                starts(s0.instrs@, self.instrs@),
                self.progress() == with_defs(s0.arena.nodes@, s0.progress(), defs@, k as int),
                forall|k: int| 0 <= k < defs@.len() ==> has(s0.arena.nodes@, (#[trigger] defs@[k]).1),
            decreases defs@.len() - k,
        {
            let (code, v) = defs[k];
            proof {
                assert(has(s0.arena.nodes@, defs@[k as int].1));
            }
            if !self.placed.contains_key(&v.idx) {
                if let Some((at, _, _)) = decode_reg(code) {
                    if let Op::Opaque(tag, _) = *self.arena.op(v) {
                        self.left_in(v, tag, at, Ghost(events));
                    }
                }
            }
            k = k + 1;
        }
    }
}

/// The positions of the calls, in order.
pub open spec fn call_sites(instrs: Seq<Instr>) -> Seq<int>
    decreases instrs.len(),
{
    if instrs.len() == 0 {
        Seq::empty()
    } else if instrs.last() is Call {
        call_sites(instrs.drop_last()).push(instrs.len() - 1)
    } else {
        call_sites(instrs.drop_last())
    }
}

/// The stack pointers the calls were made with, in order, where they are known.
pub open spec fn call_stacks(events: Seq<Event>) -> Seq<Option<u64>>
    decreases events.len(),
{
    if events.len() == 0 {
        Seq::empty()
    } else {
        match events.last() {
            Event::Call { rsp, .. } => call_stacks(events.drop_last()).push(rsp),
            _ => call_stacks(events.drop_last()),
        }
    }
}

/// Whether the list holds, for each call in order, its position and its stack pointer.
pub open spec fn calls_listed(
    calls: Seq<(usize, Option<u64>)>,
    instrs: Seq<Instr>,
    events: Seq<Event>,
) -> bool {
    &&& calls.len() == call_sites(instrs).len()
    &&& calls.len() == call_stacks(events).len()
    &&& forall|k: int|
        0 <= k < calls.len() ==> (#[trigger] calls[k]).0 == call_sites(instrs)[k] && calls[k].1
            == call_stacks(events)[k]
}

/// Whether the list holds positions of calls, in order.
pub open spec fn call_positions(calls: Seq<(usize, Option<u64>)>, instrs: Seq<Instr>) -> bool {
    &&& forall|k: int|
        0 <= k < calls.len() ==> (#[trigger] calls[k]).0 < instrs.len() && instrs[calls[k].0 as int] is Call
    &&& forall|j: int, k: int| 0 <= j < k < calls.len() ==> (#[trigger] calls[j]).0 < (#[trigger] calls[k]).0
}

/// The positions of calls are positions of calls, in order.
proof fn lemma_call_sites(instrs: Seq<Instr>)
    ensures
        forall|k: int|
            0 <= k < call_sites(instrs).len() ==> 0 <= #[trigger] call_sites(instrs)[k] < instrs.len()
                && instrs[call_sites(instrs)[k]] is Call,
        forall|j: int, k: int|
            0 <= j < k < call_sites(instrs).len() ==> #[trigger] call_sites(instrs)[j]
                < #[trigger] call_sites(instrs)[k],
    decreases instrs.len(),
{
    if instrs.len() > 0 {
        let c = instrs.drop_last();
        lemma_call_sites(c);
        assert forall|k: int| 0 <= k < call_sites(instrs).len() implies 0 <= #[trigger] call_sites(instrs)[k]
            < instrs.len() && instrs[call_sites(instrs)[k]] is Call by {
            if k < call_sites(c).len() {
                assert(call_sites(instrs)[k] == call_sites(c)[k]);
            }
        }
        assert forall|j: int, k: int| 0 <= j < k < call_sites(instrs).len() implies #[trigger] call_sites(
            instrs,
        )[j] < #[trigger] call_sites(instrs)[k] by {
            assert(call_sites(instrs)[j] == call_sites(c)[j]);
            if k < call_sites(c).len() {
                assert(call_sites(instrs)[k] == call_sites(c)[k]);
            }
        }
    }
}

proof fn lemma_listed_positions(calls: Seq<(usize, Option<u64>)>, instrs: Seq<Instr>, events: Seq<Event>)
    requires
        calls_listed(calls, instrs, events),
    ensures
        call_positions(calls, instrs),
{
    lemma_call_sites(instrs);
}

/// Code that makes no calls adds no positions.
pub proof fn lemma_sites_same(a: Seq<Instr>, b: Seq<Instr>)
    requires
        starts(a, b),
        forall|i: int| a.len() <= i < b.len() ==> !(#[trigger] b[i] is Call),
    ensures
        call_sites(b) == call_sites(a),
    decreases b.len(),
{
    if a.len() == b.len() {
        assert(a =~= b);
    } else {
        let c = b.drop_last();
        assert forall|i: int| 0 <= i < a.len() implies #[trigger] c[i] == a[i] by {
            assert(b[i] == a[i]);
        }
        assert(!(b[b.len() - 1] is Call));
        lemma_sites_same(a, c);
    }
}

/// Changing nothing about which instructions are calls changes no positions.
pub proof fn lemma_sites_kept(a: Seq<Instr>, b: Seq<Instr>)
    requires
        a.len() == b.len(),
        forall|i: int| 0 <= i < a.len() ==> (a[i] is Call) == (#[trigger] b[i] is Call),
    ensures
        call_sites(b) == call_sites(a),
    decreases b.len(),
{
    if a.len() > 0 {
        let c = a.drop_last();
        let d = b.drop_last();
        assert forall|i: int| 0 <= i < c.len() implies (c[i] is Call) == (#[trigger] d[i] is Call) by {
            assert(d[i] == b[i]);
        }
        lemma_sites_kept(c, d);
        assert((a[a.len() - 1] is Call) == (b[a.len() - 1] is Call));
    }
}

proof fn lemma_sources_at(placed: Map<usize, Operand>, instrs: Seq<Instr>, want: Seq<(Reg, Ref)>, got: Seq<(Reg, Operand)>)
    requires
        all_at(placed, want, got),
        forall|k: usize| #[trigger]
            placed.dom().contains(k) ==> operand_ready(instrs, placed[k]) && in_window(placed[k]),
    ensures
        forall|k: int|
            0 <= k < sources(got).len() ==> operand_ready(instrs, #[trigger] sources(got)[k])
                && in_window(sources(got)[k]),
{
    assert forall|k: int| 0 <= k < sources(got).len() implies operand_ready(
        instrs,
        #[trigger] sources(got)[k],
    ) && in_window(sources(got)[k]) by {
        assert(got[k].0 == want[k].0);
        assert(placed.dom().contains(want[k].1.idx));
    }
}

/// Operands read first, then a list of others.
proof fn lemma_all_ready(instrs: Seq<Instr>, head: Seq<Operand>, tail: Seq<Operand>, all: Seq<Operand>)
    requires
        all == head + tail,
        forall|k: int|
            0 <= k < head.len() ==> operand_ready(instrs, #[trigger] head[k]) && in_window(head[k]),
        forall|k: int|
            0 <= k < tail.len() ==> operand_ready(instrs, #[trigger] tail[k]) && in_window(tail[k]),
    ensures
        forall|k: int| 0 <= k < all.len() ==> operand_ready(instrs, #[trigger] all[k]) && in_window(all[k]),
{
    assert forall|k: int| 0 <= k < all.len() implies operand_ready(instrs, #[trigger] all[k]) && in_window(
        all[k],
    ) by {
        if k < head.len() {
            assert(all[k] == head[k]);
        } else {
            assert(all[k] == tail[k - head.len()]);
        }
    }
}

impl<'a> Scheduler<'a> {
    /// Lower one call.
    fn lower_call(
        &mut self,
        target: Option<Ref>,
        site: u64,
        rsp: Option<u64>,
        import_slot: Option<u64>,
        args: &Vec<(Reg, Ref)>,
        ret: Option<Ref>,
        calls: &mut Vec<(usize, Option<u64>)>,
        Ghost(events): Ghost<Seq<Event>>,
        Ghost(e): Ghost<Event>,
    )
        requires
            lowering(*old(self), events),
            event_held(old(self).arena.nodes@, e),
            calls_listed(old(calls)@, old(self).instrs@, events),
            e matches Event::Call { target: t, site: s, rsp: p, import_slot: i, args: a, ret: v } && t
                == target && s == site && p == rsp && i == import_slot && a == *args && v == ret,
        ensures
            lowering(*final(self), events.push(e)),
            final(self).arena == old(self).arena,
            final(self).block == old(self).block,
            final(self).stack_base == old(self).stack_base,
            placed_more(old(self).placed@, final(self).placed@),
            calls_listed(final(calls)@, final(self).instrs@, events.push(e)),
            lowers(
                old(self).arena.nodes@,
                old(self).stack_base,
                Stage { at: old(self).progress(), calls: old(calls)@ },
                e,
                Stage { at: final(self).progress(), calls: final(calls)@ },
            ),
            ret matches Some(rv) ==> final(self).placed@.dom().contains(rv.idx),
    {
        let ghost s0 = *self;
        let ghost ns = self.arena.nodes@;
        let t = match (target, import_slot) {
            (_, Some(slot)) => CallTarget::Import { slot },
            (Some(t), None) => match self.arena.as_const(t) {
                Some(a) => CallTarget::Direct(a),
                None => CallTarget::Indirect(self.operand(t, Ghost(events), Ghost(e))),
            },
            // The address of the calling instruction is not the callee's.
            (None, None) => CallTarget::Unknown { site },
        };
        let ghost s1 = *self;
        let args = self.call_args(args, Ghost(events), Ghost(e));
        let at: usize = self.instrs.len();
        let i = Instr::Call { target: t, args };
        proof {
            let ins = self.instrs@;
            lemma_sources_at(self.placed@, ins, wanted_args(ns, e->Call_args@), args@);
            if let CallTarget::Indirect(o) = t {
                let r = target->0;
                assert(is_at(s1.placed@, r, o));
                assert(self.placed@.dom().contains(r.idx) && self.placed@[r.idx] == o);
                assert(forall|k: int|
                    0 <= k < seq![o].len() ==> operand_ready(ins, #[trigger] seq![o][k]) && in_window(
                        seq![o][k],
                    ));
                lemma_all_ready(ins, seq![o], sources(args@), reads(i));
            } else {
                assert(reads(i) =~= sources(args@));
            }
            assert(performs(ns, self.placed@, i, e));
            if s1 != s0 {
                lemma_fetches(s0, s1, *self, e);
            }
            assert(fetched(ns, self.stack_base, e, s0.progress(), self.progress()));
            lemma_fetched_calls(s0, *self);
        }
        calls.push((at, rsp));
        let ghost s2 = *self;
        self.act(i, Ghost(events), Ghost(e));
        proof {
            assert(self.instrs@.drop_last() =~= s2.instrs@);
            assert(events.push(e).drop_last() =~= events);
            assert(call_sites(self.instrs@) == call_sites(s2.instrs@).push(at as int));
            assert(call_stacks(events.push(e)) == call_stacks(events).push(rsp));
            assert(calls_listed(calls@, self.instrs@, events.push(e)));
            assert(self.progress() == with_instr(s2.progress(), i));
        }
        let ghost s3 = *self;
        if let Some(rv) = ret {
            if !self.placed.contains_key(&rv.idx) {
                proof {
                    assert(events.push(e)[events.len() as int] == e);
                    assert(names(e, rv.idx));
                }
                self.left_in(rv, "call_ret", Reg::Rax, Ghost(events.push(e)));
                proof {
                    assert(self.instrs@.drop_last() =~= s3.instrs@);
                }
            }
        }
        proof {
            assert(lowers_by(
                ns,
                self.stack_base,
                Stage { at: s0.progress(), calls: old(calls)@ },
                e,
                s2.progress(),
                i,
                Stage { at: self.progress(), calls: calls@ },
            ));
        }
    }

    /// Lower one instruction that is re-emitted verbatim.
    fn lower_boxed(
        &mut self,
        site: u64,
        text: &String,
        bytes: &Vec<u8>,
        mem: Option<BoxedMem>,
        defs: &Vec<(u32, Ref)>,
        uses: &Vec<(u32, Ref)>,
        Ghost(events): Ghost<Seq<Event>>,
        Ghost(e): Ghost<Event>,
        Ghost(calls): Ghost<Seq<(usize, Option<u64>)>>,
    )
        requires
            lowering(*old(self), events),
            event_held(old(self).arena.nodes@, e),
            e matches Event::Boxed { site: s, text: t, bytes: b, mem: m, defs: d, uses: u } && s == site
                && t == *text && b == *bytes && m == mem && d == *defs && u == *uses,
        ensures
            lowering(*final(self), events.push(e)),
            final(self).arena == old(self).arena,
            final(self).block == old(self).block,
            final(self).stack_base == old(self).stack_base,
            placed_more(old(self).placed@, final(self).placed@),
            call_sites(final(self).instrs@) == call_sites(old(self).instrs@),
            lowers(
                old(self).arena.nodes@,
                old(self).stack_base,
                Stage { at: old(self).progress(), calls },
                e,
                Stage { at: final(self).progress(), calls },
            ),
    {
        let ghost s0 = *self;
        let ghost ns = self.arena.nodes@;
        let slot = match mem {
            Some(m) => {
                let addr = self.operand(m.addr, Ghost(events), Ghost(e));
                Some(BoxedMemOp { addr, bytes: m.bytes, writes: m.writes })
            },
            None => None,
        };
        let ghost s1 = *self;
        let needs = self.boxed_uses(uses, Ghost(events), Ghost(e));
        let i = Instr::Boxed {
            site,
            text: text.clone(),
            bytes: copy_list(bytes),
            mem: slot,
            uses: needs,
        };
        proof {
            let ins = self.instrs@;
            lemma_sources_at(self.placed@, ins, wanted_uses(uses@), needs@);
            if let Some(m) = slot {
                let r = mem->0.addr;
                assert(is_at(s1.placed@, r, m.addr));
                assert(self.placed@.dom().contains(r.idx) && self.placed@[r.idx] == m.addr);
                assert(forall|k: int|
                    0 <= k < seq![m.addr].len() ==> operand_ready(ins, #[trigger] seq![m.addr][k])
                        && in_window(seq![m.addr][k]));
                lemma_all_ready(ins, seq![m.addr], sources(needs@), reads(i));
            } else {
                assert(reads(i) =~= sources(needs@));
            }
            assert(performs(ns, self.placed@, i, e));
        }
        let ghost s2 = *self;
        self.act(i, Ghost(events), Ghost(e));
        let ghost s3 = *self;
        proof {
            if s1 != s0 {
                lemma_fetches(s0, s1, s2, e);
            }
            assert(fetched(ns, self.stack_base, e, s0.progress(), s2.progress()));
            lemma_fetched_calls(s0, s2);
            assert(self.instrs@.drop_last() =~= s2.instrs@);
            assert(self.progress() == with_instr(s2.progress(), i));
            assert forall|m: int| 0 <= m < defs@.len() implies left_by(
                events.push(e),
                (#[trigger] defs@[m]).1.idx,
            ) by {
                assert(events.push(e)[events.len() as int] == e);
                assert(names(e, defs@[m].1.idx));
            }
        }
        self.boxed_defs(defs, Ghost(events.push(e)));
        proof {
            lemma_defs_calls(ns, s3.progress(), defs@, defs@.len() as int);
            assert(lowers_by(
                ns,
                self.stack_base,
                Stage { at: s0.progress(), calls },
                e,
                s2.progress(),
                i,
                Stage { at: self.progress(), calls },
            ));
        }
    }

    /// Lower one store to guest memory.
    fn lower_store(
        &mut self,
        addr: Ref,
        value: Ref,
        width: Width,
        Ghost(events): Ghost<Seq<Event>>,
        Ghost(e): Ghost<Event>,
        Ghost(calls): Ghost<Seq<(usize, Option<u64>)>>,
    )
        requires
            lowering(*old(self), events),
            event_held(old(self).arena.nodes@, e),
            e matches Event::Store { addr: a, value: v, width: w, region: r, .. } && a == addr && v == value
                && w == width && r == Region::Guest,
        ensures
            lowering(*final(self), events.push(e)),
            final(self).arena == old(self).arena,
            final(self).block == old(self).block,
            final(self).stack_base == old(self).stack_base,
            placed_more(old(self).placed@, final(self).placed@),
            call_sites(final(self).instrs@) == call_sites(old(self).instrs@),
            lowers(
                old(self).arena.nodes@,
                old(self).stack_base,
                Stage { at: old(self).progress(), calls },
                e,
                Stage { at: final(self).progress(), calls },
            ),
    {
        let ghost s0 = *self;
        let ghost ns = self.arena.nodes@;
        let a = self.operand(addr, Ghost(events), Ghost(e));
        let ghost s1 = *self;
        let v = self.operand(value, Ghost(events), Ghost(e));
        let i = Instr::Store { addr: a, value: v, disp: 0, width };
        proof {
            assert(is_at(s1.placed@, addr, a));
            assert(self.placed@.dom().contains(addr.idx) && self.placed@[addr.idx] == a);
            assert(self.placed@.dom().contains(value.idx));
            assert(performs(ns, self.placed@, i, e));
            assert(reads(i) =~= seq![a, v]);
            lemma_fetches(s0, s1, *self, e);
            lemma_fetched_calls(s0, *self);
            assert(fetched(ns, self.stack_base, e, s0.progress(), self.progress()));
        }
        let ghost s2 = *self;
        self.act(i, Ghost(events), Ghost(e));
        proof {
            assert(self.instrs@.drop_last() =~= s2.instrs@);
            assert(self.progress() == with_instr(s2.progress(), i));
            assert(lowers_by(
                ns,
                self.stack_base,
                Stage { at: s0.progress(), calls },
                e,
                s2.progress(),
                i,
                Stage { at: self.progress(), calls },
            ));
        }
    }

    /// Lower one event.
    fn lower_event(
        &mut self,
        e: &Event,
        calls: &mut Vec<(usize, Option<u64>)>,
        Ghost(events): Ghost<Seq<Event>>,
    )
        requires
            lowering(*old(self), events),
            event_held(old(self).arena.nodes@, *e),
            calls_listed(old(calls)@, old(self).instrs@, events),
        ensures
            lowering(*final(self), events.push(*e)),
            final(self).arena == old(self).arena,
            final(self).block == old(self).block,
            final(self).stack_base == old(self).stack_base,
            placed_more(old(self).placed@, final(self).placed@),
            calls_listed(final(calls)@, final(self).instrs@, events.push(*e)),
            lowers(
                old(self).arena.nodes@,
                old(self).stack_base,
                Stage { at: old(self).progress(), calls: old(calls)@ },
                *e,
                Stage { at: final(self).progress(), calls: final(calls)@ },
            ),
            return_placed(final(self).placed@, *e),
    {
        let ghost s0 = *self;
        let ghost ns = self.arena.nodes@;
        let ghost base = self.stack_base;
        let ghost stage = Stage { at: s0.progress(), calls: calls@ };
        proof {
            assert(events.push(*e).drop_last() =~= events);
        }
        match e {
            Event::Store { addr, value, width, region, .. } => {
                if region.is_guest() {
                    self.lower_store(*addr, *value, *width, Ghost(events), Ghost(*e), Ghost(calls@));
                } else {
                    proof {
                        lemma_skipped(ns, self.placed@, self.instrs@, events, *e);
                        lemma_traced_more(
                            ns,
                            self.stack_base,
                            self.instrs@,
                            self.placed@,
                            events,
                            self.instrs@,
                            self.placed@,
                            events.push(*e),
                        );
                        assert(fetched(ns, base, *e, s0.progress(), s0.progress()));
                        assert(lowers_by(ns, base, stage, *e, s0.progress(), arbitrary(), stage));
                    }
                }
            },
            Event::Load { value, region, .. } => {
                if region.is_guest() {
                    let _ = self.operand(*value, Ghost(events), Ghost(*e));
                    proof {
                        lemma_fetched_calls(s0, *self);
                    }
                }
                proof {
                    lemma_skipped(ns, self.placed@, self.instrs@, events, *e);
                    lemma_traced_more(
                        ns,
                        self.stack_base,
                        self.instrs@,
                        self.placed@,
                        events,
                        self.instrs@,
                        self.placed@,
                        events.push(*e),
                    );
                    assert(fetched(ns, base, *e, s0.progress(), self.progress()));
                    assert(lowers_by(
                        ns,
                        base,
                        stage,
                        *e,
                        self.progress(),
                        arbitrary(),
                        Stage { at: self.progress(), calls: calls@ },
                    ));
                }
            },
            Event::Call { target, site, rsp, import_slot, args, ret } => {
                self.lower_call(
                    *target,
                    *site,
                    *rsp,
                    *import_slot,
                    args,
                    *ret,
                    calls,
                    Ghost(events),
                    Ghost(*e),
                );
            },
            Event::Boxed { site, text, bytes, mem, defs, uses } => {
                self.lower_boxed(
                    *site,
                    text,
                    bytes,
                    *mem,
                    defs,
                    uses,
                    Ghost(events),
                    Ghost(*e),
                    Ghost(calls@),
                );
            },
        }
    }
}

/// Whether an instruction differs at most in how its address is written.
pub open spec fn readdressed(x: Instr, y: Instr) -> bool {
    ||| y == x
    ||| match (x, y) {
        (
            Instr::Store { addr, value, disp, width },
            Instr::Store { addr: addr1, value: value1, disp: disp1, width: width1 },
        ) => value1 == value && width1 == width && disp == 0 && addresses(addr1, disp1, addr)
            && !(addr is Val),
        (
            Instr::Load { dst, addr, disp, width },
            Instr::Load { dst: dst1, addr: addr1, disp: disp1, width: width1 },
        ) => dst1 == dst && width1 == width && disp == 0 && addresses(addr1, disp1, addr) && !(addr is Val),
        _ => false,
    }
}

/// Whether one list is another with addresses rewritten.
pub open spec fn readdressed_all(a: Seq<Instr>, b: Seq<Instr>) -> bool {
    a.len() == b.len() && forall|i: int| 0 <= i < a.len() ==> readdressed(a[i], #[trigger] b[i])
}

proof fn lemma_readdressed_effects(
    ns: Seq<Node>,
    placed: Map<usize, Operand>,
    a: Seq<Instr>,
    b: Seq<Instr>,
    events: Seq<Event>,
)
    requires
        readdressed_all(a, b),
        performs_all(ns, placed, a, events),
        forall|i: int| 0 <= i < a.len() ==> plain(#[trigger] a[i]),
    ensures
        performs_all(ns, placed, b, events),
{
    lemma_effects_follow(a, b);
    assert forall|k: int| 0 <= k < effects(b).len() implies performs(
        ns,
        placed,
        #[trigger] effects(b)[k],
        guest_effects(events)[k],
    ) by {
        assert(readdressed(effects(a)[k], effects(b)[k]));
        assert(performs(ns, placed, effects(a)[k], guest_effects(events)[k]));
        assert(plain(effects(a)[k])) by {
            lemma_effects_plain(a, k);
        }
    }
}

proof fn lemma_effects_plain(a: Seq<Instr>, k: int)
    requires
        forall|i: int| 0 <= i < a.len() ==> plain(#[trigger] a[i]),
        0 <= k < effects(a).len(),
    ensures
        plain(effects(a)[k]),
    decreases a.len(),
{
    if a.len() > 0 {
        let c = a.drop_last();
        assert forall|i: int| 0 <= i < c.len() implies plain(#[trigger] c[i]) by {
            assert(c[i] == a[i]);
        }
        if is_effect(a.last()) && k == effects(a).len() - 1 {
            assert(plain(a[a.len() - 1]));
        } else {
            lemma_effects_plain(c, k);
        }
    }
}

proof fn lemma_effects_follow(a: Seq<Instr>, b: Seq<Instr>)
    requires
        readdressed_all(a, b),
    ensures
        effects(a).len() == effects(b).len(),
        forall|k: int|
            0 <= k < effects(b).len() ==> readdressed(effects(a)[k], #[trigger] effects(b)[k]),
    decreases a.len(),
{
    if a.len() > 0 {
        let c = a.drop_last();
        let d = b.drop_last();
        assert forall|i: int| 0 <= i < c.len() implies readdressed(c[i], #[trigger] d[i]) by {
            assert(d[i] == b[i]);
        }
        lemma_effects_follow(c, d);
        assert(readdressed(a[a.len() - 1], b[a.len() - 1]));
    }
}

/// Code whose stack arguments are anchored to the first `k` of its calls, each searched for
/// back to the call before it. Without a stack pointer at the call there is nothing to anchor
/// to.
pub open spec fn retargeted(
    instrs: Seq<Instr>,
    calls: Seq<(usize, Option<u64>)>,
    base: u64,
    k: int,
) -> Seq<Instr>
    decreases k,
{
    if k <= 0 {
        instrs
    } else {
        let before = retargeted(instrs, calls, base, k - 1);
        let from = if k == 1 {
            0
        } else {
            calls[k - 2].0 + 1
        };
        match calls[k - 1].1 {
            Some(rsp) => Seq::new(
                before.len(),
                |n: int| anchored(before, from, calls[k - 1].0 as int, base, rsp, n),
            ),
            None => before,
        }
    }
}

/// Whether anchoring stack arguments leaves an instruction, or moves its store: then it reads
/// no more than before, and does what it did at another address.
pub open spec fn moved_at_most(x: Instr, y: Instr) -> bool {
    ||| y == x
    ||| {
        &&& x is Store && x->Store_addr is Frame
        &&& y is Store && y->Store_addr is OutArg && y->Store_disp == 0
        &&& y->Store_value == x->Store_value
        &&& y->Store_width == x->Store_width
    }
}

/// Anchors the stores that fill stack arguments to their calls' stack pointers.
pub fn retarget_stack_args(instrs: &mut Vec<Instr>, calls: &Vec<(usize, Option<u64>)>, base: u64)
    requires
        call_positions(calls@, old(instrs)@),
        forall|i: int| 0 <= i < old(instrs)@.len() ==> sum_fits(#[trigger] old(instrs)@[i]),
    ensures
        final(instrs)@ == retargeted(old(instrs)@, calls@, base, calls@.len() as int),
        final(instrs)@.len() == old(instrs)@.len(),
        forall|i: int|
            0 <= i < old(instrs)@.len() ==> moved_at_most(old(instrs)@[i], #[trigger] final(instrs)@[i]),
{
    let ghost i0 = instrs@;
    let mut from: usize = 0;
    let mut k: usize = 0;
    while k < calls.len()
        invariant
            k <= calls@.len(),
            call_positions(calls@, i0),
            instrs@.len() == i0.len(),
            k == 0 ==> from == 0,
            k > 0 ==> from == calls@[k - 1].0 + 1,
            forall|i: int| 0 <= i < i0.len() ==> sum_fits(#[trigger] i0[i]),
            instrs@ == retargeted(i0, calls@, base, k as int),
            forall|i: int| 0 <= i < i0.len() ==> moved_at_most(i0[i], #[trigger] instrs@[i]),
        decreases calls@.len() - k,
    {
        let (call, rsp) = calls[k];
        let ghost i1 = instrs@;
        proof {
            assert(instrs.len() == i0.len());
            assert(calls@[k as int].0 < i0.len());
            if k > 0 {
                assert(calls@[k - 1].0 < calls@[k as int].0);
            }
            assert forall|n: int| 0 <= n < i1.len() implies sum_fits(#[trigger] i1[n]) by {
                assert(sum_fits(i0[n]) && moved_at_most(i0[n], i1[n]));
            }
        }
        if let Some(at) = rsp {
            retarget_call(instrs, from, call, base, at);
            proof {
                assert forall|i: int| 0 <= i < i0.len() implies moved_at_most(i0[i], #[trigger] instrs@[i]) by {
                    assert(instrs@[i] == anchored(i1, from as int, call as int, base, at, i));
                    assert(moved_at_most(i0[i], i1[i]));
                }
            }
        }
        from = call + 1;
        k = k + 1;
    }
}

/// A store moved to a call's argument slot.
proof fn lemma_moved_reads(x: Instr, y: Instr)
    requires
        plain(x),
        reads_window(x),
        moved_at_most(x, y),
    ensures
        readdressed(x, y),
        plain(y),
        reads_window(y),
        forall|v: ValId| #[trigger] reads_value(reads(y), v) ==> reads_value(reads(x), v),
{
    if y != x {
        assert(in_window(reads(x)[1]));
        assert forall|k: int| 0 <= k < reads(y).len() implies in_window(#[trigger] reads(y)[k]) by {
            if k == 1 {
                assert(reads(y)[1] == reads(x)[1]);
            }
        }
        assert forall|v: ValId| #[trigger] reads_value(reads(y), v) implies reads_value(reads(x), v) by {
            let k = choose|k: int| 0 <= k < reads(y).len() && reads(y)[k] == Operand::Val(v);
            assert(reads(x)[1] == Operand::Val(v));
        }
    }
}

/// The result a small address is anchored to is defined before the access.
proof fn lemma_last_result(instrs: Seq<Instr>, i: int, j: int)
    requires
        0 <= i <= j < instrs.len(),
        !(instrs[j] is Opaque),
        forall|k: int| i <= k < j ==> !(#[trigger] instrs[k] is Call),
        last_result(instrs, i) is Some,
    ensures
        defined_in(instrs, j, last_result(instrs, i)->0),
    decreases i,
{
    if i > 0 {
        if instrs[i - 1] is Call {
            let d = result_of(instrs, i - 1)->0;
            assert(defines(instrs[i]) == Some(d));
            assert(i != j);
        } else {
            lemma_last_result(instrs, i - 1, j);
        }
    }
}

/// Rewriting addresses keeps code in sequence.
proof fn lemma_readdressed_sequence(a: Seq<Instr>, b: Seq<Instr>, next: u32)
    requires
        in_sequence(a, next),
        readdressed_all(a, b),
        forall|i: int, v: ValId|
            0 <= i < b.len() && #[trigger] reads_value(reads(b[i]), v) ==> reads_value(reads(a[i]), v)
                || defined_in(a, i, v),
    ensures
        in_sequence(b, next),
        forall|k: int, v: ValId| #[trigger] defined_in(a, k, v) ==> defined_in(b, k, v),
{
    assert forall|i: int| 0 <= i < b.len() implies defines(#[trigger] b[i]) == defines(a[i]) by {
        assert(readdressed(a[i], b[i]));
    }
    assert forall|k: int, v: ValId| #[trigger] defined_in(a, k, v) implies defined_in(b, k, v) by {
        let j = choose|j: int| 0 <= j < k && j < a.len() && defines(#[trigger] a[j]) == Some(v);
        assert(defines(b[j]) == Some(v));
    }
    assert forall|i: int| 0 <= i < b.len() implies inputs_defined(b, i, #[trigger] b[i]) by {
        assert forall|v: ValId| #[trigger] reads_value(reads(b[i]), v) implies defined_in(b, i, v) by {
            if reads_value(reads(a[i]), v) {
                assert(inputs_defined(a, i, a[i]));
                assert(defined_in(a, i, v));
            }
        }
    }
    assert forall|i: int, j: int| 0 <= i < j < b.len() implies (defines(#[trigger] b[i]) matches Some(v)
        ==> (defines(#[trigger] b[j]) matches Some(w) ==> v.0 < w.0)) by {
        assert(defines(b[i]) == defines(a[i]) && defines(b[j]) == defines(a[j]));
    }
}

/// Whether code is in sequence, and its stack offsets are small enough to add.
pub open spec fn code_ok(instrs: Seq<Instr>) -> bool {
    &&& in_sequence(instrs, u32::MAX)
    &&& forall|i: int|
        0 <= i < instrs.len() ==> small_frames(#[trigger] instrs[i]) && reads_window(instrs[i])
}

/// Whether a block's code is, and what the block needs after it is defined in it.
pub open spec fn sched_ok(b: SchedBlock) -> bool {
    &&& code_ok(b.instrs@)
    &&& forall|k: int|
        0 <= k < crate::ir::instr::kept(b).len() ==> operand_ready(
            b.instrs@,
            #[trigger] crate::ir::instr::kept(b)[k],
        ) && in_window(crate::ir::instr::kept(b)[k])
}

/// Whether a register is left holding what a callee returned or destroyed, which the call
/// itself establishes.
pub open spec fn set_by_callee(ns: Seq<Node>, r: Ref) -> bool {
    is_tagged(ns, r, "call_ret"@) || is_tagged(ns, r, "clobbered"@)
}

/// The exit registers that need code.
pub open spec fn coded_exits(ns: Seq<Node>, regs: Seq<(Reg, Ref)>) -> Seq<(Reg, Ref)>
    decreases regs.len(),
{
    if regs.len() == 0 {
        Seq::empty()
    } else if set_by_callee(ns, regs.last().1) {
        coded_exits(ns, regs.drop_last())
    } else {
        coded_exits(ns, regs.drop_last()).push(regs.last())
    }
}

/// The exit registers a callee set.
pub open spec fn callee_exits(ns: Seq<Node>, regs: Seq<(Reg, Ref)>) -> Seq<Reg>
    decreases regs.len(),
{
    if regs.len() == 0 {
        Seq::empty()
    } else if set_by_callee(ns, regs.last().1) {
        callee_exits(ns, regs.drop_last()).push(regs.last().0)
    } else {
        callee_exits(ns, regs.drop_last())
    }
}

/// The value a terminator tests. A return reads its destination off the stack itself.
pub open spec fn tested(t: Terminator) -> Option<Ref> {
    match t {
        Terminator::Branch { predicate, .. } => Some(predicate),
        Terminator::Switch { selector, .. } => Some(selector),
        _ => None,
    }
}

/// Whether a scheduled block is a recovered one lowered, with nodes placed as given.
pub open spec fn lowered(ns: Seq<Node>, b: Block, sb: SchedBlock, placed: Map<usize, Operand>) -> bool {
    &&& sb.id == b.id
    &&& same_terminator(sb.terminator, b.terminator)
    &&& sb.fused is None
    &&& performs_all(ns, placed, sb.instrs@, b.events@)
    &&& all_at(placed, coded_exits(ns, b.exit_regs@), sb.exits@)
    &&& sb.callee_set@ == callee_exits(ns, b.exit_regs@)
    &&& match tested(b.terminator) {
        Some(r) => sb.control matches Some(o) && is_at(placed, r, o),
        None => sb.control is None,
    }
}

/// Whether what a call returns is placed.
pub open spec fn return_placed(placed: Map<usize, Operand>, e: Event) -> bool {
    e matches Event::Call { ret: Some(r), .. } ==> placed.dom().contains(r.idx)
}

/// Whether a scheduled block computes what it names: every placed node is accounted for in the
/// code before addresses are settled, that code is what lowering the events one after the
/// other gives, settling stack arguments and small addresses makes the code of it, and what
/// stands behind that only computes.
pub open spec fn drawn(
    ns: Seq<Node>,
    base: u64,
    b: Block,
    sb: SchedBlock,
    placed: Map<usize, Operand>,
    pre: Seq<Instr>,
    calls: Seq<(usize, Option<u64>)>,
    stages: Seq<Stage>,
) -> bool {
    &&& lowered(ns, b, sb, placed)
    &&& traced(ns, unsettled(pre, sb.instrs@), placed, base, b.events@)
    &&& forall|j: int| 0 <= j < b.events@.len() ==> return_placed(placed, #[trigger] b.events@[j])
    &&& staged(ns, base, b.events@, stages)
    &&& stages.last().at.instrs == pre
    &&& stages.last().calls == calls
    &&& placed_more(stages.last().at.placed, placed)
    &&& calls_listed(calls, pre, b.events@)
    &&& pre.len() <= sb.instrs@.len()
    &&& forall|i: int|
        pre.len() <= i < sb.instrs@.len() ==> emitted_for(
            ns,
            stages.last().at.placed,
            placed,
            base,
            #[trigger] sb.instrs@[i],
        )
    &&& forall|i: int|
        0 <= i < pre.len() ==> #[trigger] sb.instrs@[i] == reanchored(
            retargeted(pre, calls, base, calls.len() as int),
            i,
        )
}

/// Whether a scheduled block is drawn from a block of a graph.
pub open spec fn drawn_up(cfg: Cfg, b: Block, sb: SchedBlock) -> bool {
    exists|
        placed: Map<usize, Operand>,
        pre: Seq<Instr>,
        calls: Seq<(usize, Option<u64>)>,
        stages: Seq<Stage>,
    | #[trigger]
        drawn(cfg.arena.nodes@, cfg.stack_base, b, sb, placed, pre, calls, stages)
}

/// What lowering keeps once addresses are settled.
spec fn settled<'a>(s: Scheduler<'a>, events: Seq<Event>) -> bool {
    &&& s.ok()
    &&& performs_all(s.arena.nodes@, s.placed@, s.instrs@, events)
    &&& forall|i: int| 0 <= i < s.instrs@.len() ==> small_frames(#[trigger] s.instrs@[i])
}

proof fn lemma_small(i: Instr)
    requires
        plain(i),
        reads_window(i),
    ensures
        small_frames(i),
{
    if i is Store || i is Load {
        assert(in_window(reads(i)[0]));
    }
}

proof fn lemma_value_settled<'a>(s0: Scheduler<'a>, s1: Scheduler<'a>, events: Seq<Event>)
    requires
        settled(s0, events),
        s1.ok(),
        s1.went_on(s0),
    ensures
        settled(s1, events),
{
    let ns = s1.arena.nodes@;
    assert forall|i: int| s0.instrs@.len() <= i < s1.instrs@.len() implies !is_effect(
        #[trigger] s1.instrs@[i],
    ) && plain(s1.instrs@[i]) by {
        assert(emitted_for(ns, s0.placed@, s1.placed@, s1.stack_base, s1.instrs@[i]));
    }
    lemma_effects_same(s0.instrs@, s1.instrs@);
    assert forall|k: int| 0 <= k < effects(s1.instrs@).len() implies performs(
        ns,
        s1.placed@,
        #[trigger] effects(s1.instrs@)[k],
        guest_effects(events)[k],
    ) by {
        lemma_performs_more(
            ns,
            s0.placed@,
            s1.placed@,
            effects(s0.instrs@)[k],
            guest_effects(events)[k],
        );
    }
    assert forall|i: int| 0 <= i < s1.instrs@.len() implies small_frames(#[trigger] s1.instrs@[i]) by {
        if i < s0.instrs@.len() {
            assert(s1.instrs@[i] == s0.instrs@[i]);
        } else {
            assert(reads_window(s1.instrs@[i]));
            lemma_small(s1.instrs@[i]);
        }
    }
}

impl<'a> Scheduler<'a> {
    /// Settle the addresses that were pinned while recovering.
    fn settle(&mut self, calls: &Vec<(usize, Option<u64>)>, Ghost(events): Ghost<Seq<Event>>)
        requires
            lowering(*old(self), events),
            call_positions(calls@, old(self).instrs@),
        ensures
            settled(*final(self), events),
            final(self).arena == old(self).arena,
            final(self).block == old(self).block,
            final(self).stack_base == old(self).stack_base,
            final(self).placed == old(self).placed,
            final(self).instrs@.len() == old(self).instrs@.len(),
            forall|i: int|
                0 <= i < old(self).instrs@.len() ==> #[trigger] final(self).instrs@[i] == reanchored(
                    retargeted(old(self).instrs@, calls@, old(self).stack_base, calls@.len() as int),
                    i,
                ),
    {
        let ghost s0 = *self;
        let ghost i0 = self.instrs@;
        let base = self.stack_base;
        proof {
            assert forall|i: int| 0 <= i < i0.len() implies sum_fits(#[trigger] i0[i]) by {
                assert(plain(i0[i]) && reads_window(i0[i]));
                lemma_small(i0[i]);
            }
        }
        retarget_stack_args(&mut self.instrs, calls, base);
        let ghost i1 = self.instrs@;
        proof {
            assert forall|i: int| 0 <= i < i1.len() implies readdressed(i0[i], #[trigger] i1[i]) && plain(
                i1[i],
            ) && reads_window(i1[i]) && (forall|v: ValId| #[trigger]
                reads_value(reads(i1[i]), v) ==> reads_value(reads(i0[i]), v)) by {
                assert(plain(i0[i]) && reads_window(i0[i]));
                assert(moved_at_most(i0[i], i1[i]));
                lemma_moved_reads(i0[i], i1[i]);
            }
            assert forall|i: int, v: ValId|
                0 <= i < i1.len() && #[trigger] reads_value(reads(i1[i]), v) implies reads_value(
                reads(i0[i]),
                v,
            ) || defined_in(i0, i, v) by {
                assert(plain(i1[i]));
            }
            lemma_readdressed_sequence(i0, i1, self.next);
            assert forall|i: int| 0 <= i < i1.len() implies undisplaced(#[trigger] i1[i]) by {
                assert(plain(i1[i]));
            }
        }
        reanchor_small_addrs_on_call_ret(&mut self.instrs);
        proof {
            let i2 = self.instrs@;
            assert forall|i: int| 0 <= i < i2.len() implies readdressed(i1[i], #[trigger] i2[i])
                && small_frames(i2[i]) && reads_window(i2[i]) by {
                assert(i2[i] == reanchored(i1, i));
                assert(plain(i1[i]) && reads_window(i1[i]));
                lemma_small(i1[i]);
                if i2[i] != i1[i] {
                    assert forall|k: int| 0 <= k < reads(i2[i]).len() implies in_window(
                        #[trigger] reads(i2[i])[k],
                    ) by {
                        if k == 1 {
                            assert(in_window(reads(i1[i])[1]));
                        }
                    }
                }
            }
            assert forall|i: int, v: ValId|
                0 <= i < i2.len() && #[trigger] reads_value(reads(i2[i]), v) implies reads_value(
                reads(i1[i]),
                v,
            ) || defined_in(i1, i, v) by {
                assert(i2[i] == reanchored(i1, i));
                if i2[i] != i1[i] {
                    let k = choose|k: int| 0 <= k < reads(i2[i]).len() && reads(i2[i])[k] == Operand::Val(v);
                    if k == 0 {
                        lemma_last_result(i1, i, i);
                    } else {
                        assert(reads(i1[i])[1] == Operand::Val(v));
                    }
                }
            }
            lemma_readdressed_sequence(i1, i2, self.next);
            lemma_readdressed_effects(
                self.arena.nodes@,
                self.placed@,
                i0,
                i1,
                events,
            );
            assert(forall|i: int| 0 <= i < i1.len() ==> plain(#[trigger] i1[i]));
            lemma_readdressed_effects(self.arena.nodes@, self.placed@, i1, i2, events);
            assert forall|k: usize| #[trigger] self.placed@.dom().contains(k) implies operand_ready(
                i2,
                self.placed@[k],
            ) && in_window(self.placed@[k]) by {
                if let Operand::Val(v) = self.placed@[k] {
                    assert(operand_ready(i0, s0.placed@[k]));
                    assert(defined_in(i0, i0.len() as int, v));
                    assert(defined_in(i1, i0.len() as int, v));
                    assert(defined_in(i2, i0.len() as int, v));
                }
            }
            assert forall|k: usize| #[trigger] self.placed@.dom().contains(k) implies reads_placed(
                self.arena.nodes@,
                i2,
                self.placed@,
                k,
            ) by {
                reveal(reads_placed);
                assert(reads_placed(s0.arena.nodes@, i0, s0.placed@, k));
                if picked_up(i0, s0.placed@[k]) {
                    let i = choose|i: int|
                        0 <= i < i0.len() && (#[trigger] i0[i] matches Instr::Opaque { dst, at, .. }
                            && at is Some && s0.placed@[k] == Operand::Val(dst));
                    assert(readdressed(i0[i], i1[i]));
                    assert(readdressed(i1[i], i2[i]));
                    assert(i2[i] == i0[i]);
                }
            }
        }
    }
}

/// What came since computes values, and nothing else.
#[verifier::opaque]
spec fn only_computed<'a>(s0: Scheduler<'a>, s1: Scheduler<'a>) -> bool {
    s1.went_on(s0)
}

proof fn lemma_only_computed<'a>(a: Scheduler<'a>, b: Scheduler<'a>, c: Scheduler<'a>)
    requires
        a == b || only_computed(a, b),
        c == b || c.went_on(b),
    ensures
        only_computed(a, c),
{
    reveal(only_computed);
    if a != b && c != b {
        lemma_went_on(a, b, c);
    }
}

/// One event more, one stage more.
proof fn lemma_staged(
    ns: Seq<Node>,
    base: u64,
    events: Seq<Event>,
    stages: Seq<Stage>,
    e: Event,
    next: Stage,
)
    requires
        staged(ns, base, events, stages),
        lowers(ns, base, stages.last(), e, next),
    ensures
        staged(ns, base, events.push(e), stages.push(next)),
{
    let es = events.push(e);
    let more = stages.push(next);
    assert forall|j: int| 0 <= j < es.len() implies lowers(ns, base, #[trigger] more[j], es[j], more[j + 1]) by {
        if j < events.len() {
            assert(lowers(ns, base, stages[j], events[j], stages[j + 1]));
        }
    }
}

/// Lower one block: its guest effects in program order, the value its terminator tests, and
/// the values its registers leave with.
pub fn schedule_block(cfg: &Cfg, b: &Block) -> (sb: SchedBlock)
    requires
        cfg.arena.wf(),
        cfg.arena.nodes@.len() <= u32::MAX,
        block_held(cfg.arena.nodes@, *b),
    ensures
        sched_ok(sb),
        exists|placed: Map<usize, Operand>| #[trigger] lowered(cfg.arena.nodes@, *b, sb, placed),
        drawn_up(*cfg, *b, sb),
{
    let ghost ns = cfg.arena.nodes@;
    let mut s = Scheduler::new(&cfg.arena, b.block_ref, cfg.stack_base);
    let mut calls: Vec<(usize, Option<u64>)> = Vec::new();
    let ghost mut stages: Seq<Stage> = seq![first_stage()];
    let mut k: usize = 0;
    proof {
        assert(b.events@.take(0) =~= Seq::empty());
        assert(s.instrs@ =~= Seq::empty());
        assert(calls@ =~= Seq::empty());
    }
    while k < b.events.len()
        invariant
            k <= b.events@.len(),
            s.arena == cfg.arena,
            ns == cfg.arena.nodes@,
            block_held(ns, *b),
            lowering(s, b.events@.take(k as int)),
            calls_listed(calls@, s.instrs@, b.events@.take(k as int)),
            staged(ns, cfg.stack_base, b.events@.take(k as int), stages),
            stages.last() == (Stage { at: s.progress(), calls: calls@ }),
            s.stack_base == cfg.stack_base,
            forall|j: int| 0 <= j < k ==> return_placed(s.placed@, #[trigger] b.events@[j]),
        decreases b.events@.len() - k,
    {
        proof {
            assert(event_held(ns, b.events@[k as int]));
            assert(b.events@.take(k + 1) =~= b.events@.take(k as int).push(b.events@[k as int]));
        }
        let ghost p0 = s.placed@;
        s.lower_event(&b.events[k], &mut calls, Ghost(b.events@.take(k as int)));
        proof {
            let before = stages;
            stages = stages.push(Stage { at: s.progress(), calls: calls@ });
            lemma_staged(ns, cfg.stack_base, b.events@.take(k as int), before, b.events@[k as int], stages.last());
            assert forall|j: int| 0 <= j < k + 1 implies return_placed(s.placed@, #[trigger] b.events@[j]) by {
                if j < k {
                    assert(return_placed(p0, b.events@[j]));
                }
            }
        }
        k = k + 1;
    }
    let ghost events = b.events@;
    proof {
        assert(b.events@.take(b.events@.len() as int) =~= events);
    }
    let ghost code = s.instrs@;
    proof {
        lemma_listed_positions(calls@, code, events);
    }
    s.settle(&calls, Ghost(events));
    let ghost s0 = s;
    proof {
        assert(unsettled(code, s.instrs@) =~= code);
    }
    let control = match &b.terminator {
        Terminator::Branch { predicate, .. } => Some(s.value(*predicate)),
        Terminator::Switch { selector, .. } => Some(s.value(*selector)),
        _ => None,
    };
    proof {
        if control is Some {
            lemma_value_settled(s0, s, events);
            lemma_tail_traced(code, s0, s, events);
        }
        lemma_only_computed(s0, s0, s);
    }
    let mut exits: Vec<(Reg, Operand)> = Vec::new();
    let mut callee_set: Vec<Reg> = Vec::new();
    let mut k: usize = 0;
    proof {
        assert(b.exit_regs@.take(0) =~= Seq::empty());
    }
    while k < b.exit_regs.len()
        invariant
            k <= b.exit_regs@.len(),
            s.arena == cfg.arena,
            ns == cfg.arena.nodes@,
            block_held(ns, *b),
            settled(s, events),
            s.stack_base == cfg.stack_base,
            traced(ns, unsettled(code, s.instrs@), s.placed@, s.stack_base, events),
            code.len() <= s.instrs@.len(),
            starts(s0.instrs@, s.instrs@),
            only_computed(s0, s),
            placed_more(s0.placed@, s.placed@),
            all_at(s.placed@, coded_exits(ns, b.exit_regs@.take(k as int)), exits@),
            callee_set@ == callee_exits(ns, b.exit_regs@.take(k as int)),
            match tested(b.terminator) {
                Some(r) => control matches Some(o) && is_at(s.placed@, r, o),
                None => control is None,
            },
        decreases b.exit_regs@.len() - k,
    {
        let (reg, v) = b.exit_regs[k];
        let ghost pre = b.exit_regs@.take(k as int);
        let ghost s1 = s;
        let ghost exits0 = exits@;
        proof {
            assert(has(ns, b.exit_regs@[k as int].1));
            assert(b.exit_regs@.take(k + 1).drop_last() =~= pre);
        }
        let by_callee = match *cfg.arena.op(v) {
            Op::Opaque(tag, _) => same_text(tag, "call_ret") || same_text(tag, "clobbered"),
            _ => false,
        };
        if by_callee {
            callee_set.push(reg);
        } else {
            let o = s.value(v);
            proof {
                lemma_value_settled(s1, s, events);
                lemma_tail_traced(code, s1, s, events);
                lemma_only_computed(s0, s1, s);
            }
            exits.push((reg, o));
        }
        proof {
            let want = coded_exits(ns, b.exit_regs@.take(k + 1));
            let want0 = coded_exits(ns, pre);
            assert forall|j: int| 0 <= j < want.len() implies (#[trigger] exits@[j]).0 == want[j].0
                && is_at(s.placed@, want[j].1, exits@[j].1) by {
                if j < want0.len() {
                    assert(exits@[j] == exits0[j] && want[j] == want0[j]);
                    assert(is_at(s1.placed@, want0[j].1, exits0[j].1));
                }
            }
        }
        k = k + 1;
    }
    proof {
        assert(b.exit_regs@.take(b.exit_regs@.len() as int) =~= b.exit_regs@);
        lemma_sources_at(s.placed@, s.instrs@, coded_exits(ns, b.exit_regs@), exits@);
    }
    let ghost placed = s.placed@;
    let ghost next = s.next;
    let ghost ins = s.instrs@;
    let sb = SchedBlock {
        id: b.id,
        instrs: s.instrs,
        exits,
        callee_set,
        control,
        fused: None,
        terminator: b.terminator.clone(),
    };
    proof {
        assert(lowered(ns, *b, sb, placed));
        assert forall|j: int| 0 <= j < b.events@.len() implies return_placed(placed, #[trigger] b.events@[j]) by {
            assert(return_placed(s0.placed@, b.events@[j]));
        }
        assert forall|i: int| 0 <= i < code.len() implies #[trigger] sb.instrs@[i] == reanchored(
            retargeted(code, calls@, cfg.stack_base, calls@.len() as int),
            i,
        ) by {
            assert(sb.instrs@[i] == s0.instrs@[i]);
        }
        reveal(only_computed);
        assert(drawn(ns, cfg.stack_base, *b, sb, placed, code, calls@, stages));
        assert(in_sequence(ins, u32::MAX)) by {
            assert(in_sequence(ins, next));
        }
        let all = crate::ir::instr::kept(sb);
        assert forall|j: int| 0 <= j < all.len() implies operand_ready(ins, #[trigger] all[j]) && in_window(
            all[j],
        ) by {
            if j < sources(exits@).len() {
                assert(all[j] == sources(exits@)[j]);
            } else {
                let r = tested(b.terminator)->0;
                assert(placed.dom().contains(r.idx));
            }
        }
    }
    sb
}

} // verus!
