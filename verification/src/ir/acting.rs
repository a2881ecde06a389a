//! What scheduled code does to the outside is what the block it was drawn from did.

use crate::ir::anchor::{anchored, frame_address, local_store, MIN_PLAUSIBLE_ADDR};
use crate::ir::dead::fusable_spec;
use crate::ir::event::Event;
use crate::ir::expr::{const_of, eval, has, nodes_ok, Node, Op, Ref};
use crate::ir::graph::{Block, Terminator};
use crate::ir::fold::{bin_val, lemma_mask, wsub};
use crate::ir::instr::{CallTarget, FusedCmp, Instr, Operand, SchedBlock};
use crate::ir::lower::{
    accounted, all_at, block_held, coded_exits, drawn, effects, event_held, guest_effects, left_by,
    performs, retargeted, set_by_callee, unsettled, wanted_args, Stage,
};
use crate::ir::schedule::{agrees, computes, operand_value, placed_ok, scheduled_value, Run};
use crate::ir::settle::lemma_constant_value;
use crate::ir::value::{BinOp, Reg, Width};
use crate::ir::words::{lemma_difference, range_of_bits};
use vstd::prelude::*;

verus! {

/// Whether an event acts on guest memory or the outside: a store to guest memory, a call, or
/// an instruction kept as it is.
pub open spec fn acts(e: Event) -> bool {
    match e {
        Event::Store { region, .. } => region is Guest,
        Event::Call { .. } => true,
        Event::Boxed { .. } => true,
        Event::Load { .. } => false,
    }
}

/// Whether an instruction acts: a store, a call, or an instruction kept as it is.
pub open spec fn is_act(i: Instr) -> bool {
    i is Store || i is Call || i is Boxed
}

/// Whether an operand is worth what an expression is.
pub open spec fn gives(ns: Seq<Node>, run: Run, o: Operand, r: Ref) -> bool {
    operand_value(o, run) == eval(ns, r, run.env)
}

/// Whether a value is one that some earlier call destroyed, so that no one can have meant it.
pub open spec fn is_destroyed(ns: Seq<Node>, r: Ref) -> bool {
    crate::ir::expr::op_of(ns, r) matches Op::Opaque(t, _) && t@ == "clobbered"@
}

/// Whether an instruction does in a run what an event did: it stores what was stored where it
/// was, or calls what was called with what it was called with, or is the instruction that was
/// kept. A stack location may be named as an argument of the call it was set up for, and a
/// small address as a place behind what a call returned.
pub open spec fn does(ns: Seq<Node>, run: Run, i: Instr, e: Event) -> bool {
    match e {
        Event::Store { addr: at, value: v, width: w, .. } => {
            &&& i is Store
            &&& i->Store_width == w
            &&& gives(ns, run, i->Store_value, v)
            &&& {
                ||| i->Store_addr is OutArg
                ||| i->Store_disp == 0 && gives(ns, run, i->Store_addr, at)
                ||| i->Store_addr is Val && eval(ns, at, run.env) == i->Store_disp && 0
                    <= i->Store_disp < MIN_PLAUSIBLE_ADDR
            }
        },
        Event::Call { target: t, import_slot, args: a, site, .. } => {
            &&& i is Call
            &&& match import_slot {
                Some(s) => i->Call_target == (CallTarget::Import { slot: s }),
                None => match t {
                    Some(r) => match i->Call_target {
                        CallTarget::Direct(x) => x == eval(ns, r, run.env),
                        CallTarget::Indirect(o) => gives(ns, run, o, r),
                        _ => false,
                    },
                    None => i->Call_target == (CallTarget::Unknown { site }),
                },
            }
            &&& forall|r: Reg, v: Ref| #[trigger]
                a@.contains((r, v)) && !is_destroyed(ns, v) ==> passes(ns, run, i->Call_args@, r, v)
            &&& forall|k: int|
                0 <= k < i->Call_args@.len() ==> comes_of(ns, run, #[trigger] i->Call_args@[k], a@)
        },
        Event::Boxed { site, bytes, .. } => {
            &&& i is Boxed
            &&& i->Boxed_site == site
            &&& i->Boxed_bytes@ == bytes@
        },
        Event::Load { .. } => false,
    }
}

/// Whether a list of arguments has a register with what an expression is worth.
pub open spec fn passes(ns: Seq<Node>, run: Run, args: Seq<(Reg, Operand)>, r: Reg, v: Ref) -> bool {
    exists|k: int| 0 <= k < args.len() && (#[trigger] args[k]).0 == r && gives(ns, run, args[k].1, v)
}

/// Whether an argument is one of a list's, with what that is worth.
pub open spec fn comes_of(ns: Seq<Node>, run: Run, arg: (Reg, Operand), from: Seq<(Reg, Ref)>) -> bool {
    exists|k: int| 0 <= k < from.len() && (#[trigger] from[k]).0 == arg.0 && gives(ns, run, arg.1, from[k].1)
}

proof fn lemma_effects_upto(s: Seq<Instr>, p: int)
    requires
        0 <= p < s.len(),
    ensures
        effects(s.take(p + 1)) == if is_act(s[p]) {
            effects(s.take(p)).push(s[p])
        } else {
            effects(s.take(p))
        },
{
    assert(s.take(p + 1).drop_last() =~= s.take(p));
    assert(s.take(p + 1).last() == s[p]);
}

/// The effects of a beginning are a beginning of the effects.
proof fn lemma_effects_begin(s: Seq<Instr>, p: int, n: int)
    requires
        0 <= p <= n <= s.len(),
    ensures
        effects(s.take(p)).len() <= effects(s.take(n)).len(),
        forall|k: int|
            0 <= k < effects(s.take(p)).len() ==> #[trigger] effects(s.take(n))[k] == effects(
                s.take(p),
            )[k],
    decreases n - p,
{
    if p < n {
        lemma_effects_begin(s, p, n - 1);
        lemma_effects_upto(s, n - 1);
    }
}

proof fn lemma_effect_place(s: Seq<Instr>, n: int, k: int) -> (p: int)
    requires
        0 <= n <= s.len(),
        0 <= k < effects(s.take(n)).len(),
    ensures
        0 <= p < n,
        is_act(s[p]),
        s[p] == effects(s.take(n))[k],
        effects(s.take(p)).len() == k,
    decreases n,
{
    if n == 0 {
        assert(s.take(0).len() == 0);
        0
    } else {
        lemma_effects_upto(s, n - 1);
        if k < effects(s.take(n - 1)).len() {
            lemma_effect_place(s, n - 1, k)
        } else {
            n - 1
        }
    }
}

proof fn lemma_acts_upto(s: Seq<Event>, p: int)
    requires
        0 <= p < s.len(),
    ensures
        guest_effects(s.take(p + 1)) == if acts(s[p]) {
            guest_effects(s.take(p)).push(s[p])
        } else {
            guest_effects(s.take(p))
        },
{
    assert(s.take(p + 1).drop_last() =~= s.take(p));
    assert(s.take(p + 1).last() == s[p]);
}

proof fn lemma_acts_begin(s: Seq<Event>, p: int, n: int)
    requires
        0 <= p <= n <= s.len(),
    ensures
        guest_effects(s.take(p)).len() <= guest_effects(s.take(n)).len(),
        forall|k: int|
            0 <= k < guest_effects(s.take(p)).len() ==> #[trigger] guest_effects(s.take(n))[k]
                == guest_effects(s.take(p))[k],
    decreases n - p,
{
    if p < n {
        lemma_acts_begin(s, p, n - 1);
        lemma_acts_upto(s, n - 1);
    }
}

proof fn lemma_act_place(s: Seq<Event>, n: int, k: int) -> (p: int)
    requires
        0 <= n <= s.len(),
        0 <= k < guest_effects(s.take(n)).len(),
    ensures
        0 <= p < n,
        acts(s[p]),
        s[p] == guest_effects(s.take(n))[k],
    decreases n,
{
    if n == 0 {
        assert(s.take(0).len() == 0);
        0
    } else {
        lemma_acts_upto(s, n - 1);
        if k < guest_effects(s.take(n - 1)).len() {
            lemma_act_place(s, n - 1, k)
        } else {
            n - 1
        }
    }
}

/// An event that acts is one of those that do, after all before it.
proof fn lemma_act_at(s: Seq<Event>, j: int)
    requires
        0 <= j < s.len(),
        acts(s[j]),
    ensures
        guest_effects(s.take(j)).len() < guest_effects(s).len(),
        guest_effects(s)[guest_effects(s.take(j)).len() as int] == s[j],
{
    lemma_acts_upto(s, j);
    lemma_acts_begin(s, j + 1, s.len() as int);
    assert(s.take(s.len() as int) =~= s);
    let k = guest_effects(s.take(j)).len() as int;
    assert(guest_effects(s.take(j + 1))[k] == s[j]);
}

/// Settling addresses changes what is stored and loaded where, and nothing that computes.
proof fn lemma_retargeted(
    pre: Seq<Instr>,
    calls: Seq<(usize, Option<u64>)>,
    base: u64,
    k: int,
    i: int,
)
    requires
        0 <= i < pre.len(),
    ensures
        retargeted(pre, calls, base, k).len() == pre.len(),
        retargeted(pre, calls, base, k)[i] == pre[i] || (pre[i] is Store && retargeted(
            pre,
            calls,
            base,
            k,
        )[i] is Store),
    decreases k,
{
    if k > 0 {
        lemma_retargeted(pre, calls, base, k - 1, i);
    }
}

/// What stands behind a scheduled block: a block it is drawn from, and a run of its code in
/// which every value is what the instructions compute, loads and calls leave what the
/// valuation says, and parameters are those of the run's block.
pub open spec fn acts_for(
    ns: Seq<Node>,
    base: u64,
    b: Block,
    sb: SchedBlock,
    placed: Map<usize, Operand>,
    pre: Seq<Instr>,
    calls: Seq<(usize, Option<u64>)>,
    stages: Seq<Stage>,
    run: Run,
) -> bool {
    &&& nodes_ok(ns)
    &&& block_held(ns, b)
    &&& drawn(ns, base, b, sb, placed, pre, calls, stages)
    &&& run.base == base
    &&& forall|i: int| 0 <= i < sb.instrs@.len() ==> computes(#[trigger] sb.instrs@[i], run)
    &&& agrees(ns, placed, run)
    &&& forall|k: usize| #[trigger]
        placed.dom().contains(k) && left_by(b.events@, k) ==> operand_value(placed[k], run) == eval(
            ns,
            Ref { idx: k },
            run.env,
        )
}

/// Every placed value is there in such a run.
proof fn lemma_given(
    ns: Seq<Node>,
    base: u64,
    b: Block,
    sb: SchedBlock,
    placed: Map<usize, Operand>,
    pre: Seq<Instr>,
    calls: Seq<(usize, Option<u64>)>,
    stages: Seq<Stage>,
    run: Run,
    r: Ref,
)
    requires
        acts_for(ns, base, b, sb, placed, pre, calls, stages, run),
        has(ns, r),
        placed.dom().contains(r.idx),
    ensures
        gives(ns, run, placed[r.idx], r),
{
    let code = unsettled(pre, sb.instrs@);
    assert forall|i: int| 0 <= i < code.len() implies computes(#[trigger] code[i], run) by {
        if i < pre.len() {
            lemma_retargeted(pre, calls, base, calls.len() as int, i);
            assert(computes(sb.instrs@[i], run));
            assert(code[i] == pre[i]);
        } else {
            assert(code[i] == sb.instrs@[i]);
        }
    }
    assert forall|k: usize| #[trigger] placed.dom().contains(k) && k < ns.len() implies placed_ok(
        ns,
        code,
        placed,
        run.base,
        0,
        k,
    ) || operand_value(placed[k], run) == eval(ns, Ref { idx: k }, run.env) by {
        reveal(accounted);
        assert(accounted(ns, code, placed, base, b.events@, k));
    }
    scheduled_value(ns, code, placed, run, r);
}

proof fn lemma_wanted(ns: Seq<Node>, args: Seq<(Reg, Ref)>)
    ensures
        forall|k: int|
            0 <= k < args.len() && !is_destroyed(ns, (#[trigger] args[k]).1) ==> wanted_args(
                ns,
                args,
            ).contains(args[k]),
        forall|m: int|
            0 <= m < wanted_args(ns, args).len() ==> args.contains(
                #[trigger] wanted_args(ns, args)[m],
            ),
    decreases args.len(),
{
    if args.len() > 0 {
        let rest = args.drop_last();
        lemma_wanted(ns, rest);
        let w = wanted_args(ns, args);
        let before = wanted_args(ns, rest);
        assert forall|k: int| 0 <= k < args.len() && !is_destroyed(
            ns,
            (#[trigger] args[k]).1,
        ) implies w.contains(args[k]) by {
            if k < rest.len() {
                assert(rest[k] == args[k]);
                assert(before.contains(rest[k]));
                let m = choose|m: int| 0 <= m < before.len() && before[m] == rest[k];
                assert(w[m] == args[k]);
            } else {
                assert(w[w.len() - 1] == args[k]);
            }
        }
        assert forall|m: int| 0 <= m < w.len() implies args.contains(#[trigger] w[m]) by {
            if m < before.len() {
                assert(w[m] == before[m]);
                assert(rest.contains(before[m]));
                let k = choose|k: int| 0 <= k < rest.len() && rest[k] == before[m];
                assert(args[k] == w[m]);
            } else {
                assert(args[args.len() - 1] == w[m]);
            }
        }
    }
}

/// An instruction that performs an event does in such a run what the event did.
proof fn lemma_does(
    ns: Seq<Node>,
    base: u64,
    b: Block,
    sb: SchedBlock,
    placed: Map<usize, Operand>,
    pre: Seq<Instr>,
    calls: Seq<(usize, Option<u64>)>,
    stages: Seq<Stage>,
    run: Run,
    i: Instr,
    e: Event,
)
    requires
        acts_for(ns, base, b, sb, placed, pre, calls, stages, run),
        event_held(ns, e),
        performs(ns, placed, i, e),
    ensures
        does(ns, run, i, e),
{
    match e {
        Event::Store { addr: at, value: v, .. } => {
            lemma_given(ns, base, b, sb, placed, pre, calls, stages, run, v);
            lemma_given(ns, base, b, sb, placed, pre, calls, stages, run, at);
        },
        Event::Call { target: t, import_slot, args: a, .. } => {
            if let (Some(r), None) = (t, import_slot) {
                match const_of(ns, r) {
                    Some(x) => {
                        lemma_constant_value(ns, r, run.env);
                    },
                    None => {
                        lemma_given(ns, base, b, sb, placed, pre, calls, stages, run, r);
                    },
                }
            }
            let want = wanted_args(ns, a@);
            let got = i->Call_args@;
            lemma_wanted(ns, a@);
            assert(all_at(placed, want, got));
            assert forall|m: int| 0 <= m < want.len() implies (#[trigger] got[m]).0 == want[m].0
                && gives(ns, run, got[m].1, want[m].1) by {
                assert(a@.contains(want[m]));
                let k = choose|k: int| 0 <= k < a@.len() && a@[k] == want[m];
                assert(has(ns, a@[k].1));
                assert(crate::ir::lower::is_at(placed, want[m].1, got[m].1));
                lemma_given(ns, base, b, sb, placed, pre, calls, stages, run, want[m].1);
            }
            assert forall|r: Reg, v: Ref| #[trigger] a@.contains((r, v)) && !is_destroyed(
                ns,
                v,
            ) implies passes(ns, run, got, r, v) by {
                let k = choose|k: int| 0 <= k < a@.len() && a@[k] == (r, v);
                assert(want.contains(a@[k]));
                let m = choose|m: int| 0 <= m < want.len() && want[m] == a@[k];
                assert(got[m].0 == r);
            }
            assert forall|m: int| 0 <= m < got.len() implies comes_of(
                ns,
                run,
                #[trigger] got[m],
                a@,
            ) by {
                assert(a@.contains(want[m]));
                let k = choose|k: int| 0 <= k < a@.len() && a@[k] == want[m];
                assert(a@[k].0 == got[m].0);
            }
        },
        _ => {},
    }
}

/// Everything a block did to the outside, its code does, in the same order: of two events that
/// act, the code holds instructions that do what they did, one after the other.
pub proof fn guest_effects_are_performed_in_order(
    ns: Seq<Node>,
    base: u64,
    b: Block,
    sb: SchedBlock,
    placed: Map<usize, Operand>,
    pre: Seq<Instr>,
    calls: Seq<(usize, Option<u64>)>,
    stages: Seq<Stage>,
    run: Run,
    j: int,
    k: int,
) -> (at: (int, int))
    requires
        acts_for(ns, base, b, sb, placed, pre, calls, stages, run),
        0 <= j <= k < b.events@.len(),
        acts(b.events@[j]),
        acts(b.events@[k]),
    ensures
        0 <= at.0 <= at.1 < sb.instrs@.len(),
        j < k ==> at.0 < at.1,
        does(ns, run, sb.instrs@[at.0], b.events@[j]),
        does(ns, run, sb.instrs@[at.1], b.events@[k]),
{
    let s = sb.instrs@;
    let ev = b.events@;
    let n = s.len() as int;
    assert(s.take(n) =~= s);
    lemma_act_at(ev, j);
    lemma_act_at(ev, k);
    let x = guest_effects(ev.take(j)).len() as int;
    let y = guest_effects(ev.take(k)).len() as int;
    let p = lemma_effect_place(s, n, x);
    let q = lemma_effect_place(s, n, y);
    lemma_does(ns, base, b, sb, placed, pre, calls, stages, run, effects(s)[x], ev[j]);
    lemma_does(ns, base, b, sb, placed, pre, calls, stages, run, effects(s)[y], ev[k]);
    if j < k {
        lemma_acts_upto(ev, j);
        lemma_acts_begin(ev, j + 1, k);
        if q <= p {
            lemma_effects_begin(s, q, p);
        }
        (p, q)
    } else {
        (p, p)
    }
}

/// The code does nothing to the outside that the block did not.
pub proof fn no_effect_is_made_up(
    ns: Seq<Node>,
    base: u64,
    b: Block,
    sb: SchedBlock,
    placed: Map<usize, Operand>,
    pre: Seq<Instr>,
    calls: Seq<(usize, Option<u64>)>,
    stages: Seq<Stage>,
    run: Run,
    p: int,
) -> (j: int)
    requires
        acts_for(ns, base, b, sb, placed, pre, calls, stages, run),
        0 <= p < sb.instrs@.len(),
        is_act(sb.instrs@[p]),
    ensures
        0 <= j < b.events@.len(),
        acts(b.events@[j]),
        does(ns, run, sb.instrs@[p], b.events@[j]),
{
    let s = sb.instrs@;
    let ev = b.events@;
    let n = s.len() as int;
    assert(s.take(n) =~= s);
    assert(ev.take(ev.len() as int) =~= ev);
    lemma_effects_upto(s, p);
    lemma_effects_begin(s, p + 1, n);
    let k = effects(s.take(p)).len() as int;
    assert(effects(s.take(p + 1))[k] == s[p]);
    assert(effects(s)[k] == s[p]);
    let j = lemma_act_place(ev, ev.len() as int, k);
    lemma_does(ns, base, b, sb, placed, pre, calls, stages, run, s[p], ev[j]);
    j
}

proof fn lemma_coded(ns: Seq<Node>, regs: Seq<(Reg, Ref)>, k: int) -> (m: int)
    requires
        0 <= k < regs.len(),
        !set_by_callee(ns, regs[k].1),
    ensures
        0 <= m < coded_exits(ns, regs).len(),
        coded_exits(ns, regs)[m] == regs[k],
    decreases regs.len(),
{
    if k == regs.len() - 1 {
        coded_exits(ns, regs).len() - 1
    } else {
        assert(regs.drop_last()[k] == regs[k]);
        lemma_coded(ns, regs.drop_last(), k)
    }
}

/// Whether a value is what a callee left: what it returned, or what it destroyed.
pub open spec fn left_by_callee(ns: Seq<Node>, r: Ref) -> bool {
    crate::ir::expr::op_of(ns, r) matches Op::Opaque(t, _) && (t@ == "call_ret"@ || t@
        == "clobbered"@)
}

/// Every register the block leaves leaves its code with the value it had, but for those a
/// callee set.
pub proof fn registers_leave_with_their_values(
    ns: Seq<Node>,
    base: u64,
    b: Block,
    sb: SchedBlock,
    placed: Map<usize, Operand>,
    pre: Seq<Instr>,
    calls: Seq<(usize, Option<u64>)>,
    stages: Seq<Stage>,
    run: Run,
    k: int,
)
    requires
        acts_for(ns, base, b, sb, placed, pre, calls, stages, run),
        0 <= k < b.exit_regs@.len(),
        !left_by_callee(ns, b.exit_regs@[k].1),
    ensures
        passes(ns, run, sb.exits@, b.exit_regs@[k].0, b.exit_regs@[k].1),
{
    let m = lemma_coded(ns, b.exit_regs@, k);
    assert(sb.exits@[m].0 == b.exit_regs@[k].0);
    assert(has(ns, b.exit_regs@[k].1));
    lemma_given(ns, base, b, sb, placed, pre, calls, stages, run, b.exit_regs@[k].1);
}

/// The value a terminator goes by is there when it decides.
pub proof fn a_terminator_goes_by_its_value(
    ns: Seq<Node>,
    base: u64,
    b: Block,
    sb: SchedBlock,
    placed: Map<usize, Operand>,
    pre: Seq<Instr>,
    calls: Seq<(usize, Option<u64>)>,
    stages: Seq<Stage>,
    run: Run,
)
    requires
        acts_for(ns, base, b, sb, placed, pre, calls, stages, run),
    ensures
        sb.id == b.id,
        b.terminator matches Terminator::Branch { predicate, .. } ==> (sb.control matches Some(o)
            && gives(ns, run, o, predicate)),
        b.terminator matches Terminator::Switch { selector, .. } ==> (sb.control matches Some(o)
            && gives(ns, run, o, selector)),
{
    match b.terminator {
        Terminator::Branch { predicate, .. } => {
            lemma_given(ns, base, b, sb, placed, pre, calls, stages, run, predicate);
        },
        Terminator::Switch { selector, .. } => {
            lemma_given(ns, base, b, sb, placed, pre, calls, stages, run, selector);
        },
        _ => {},
    }
}

/// A branch that absorbs a comparison goes by what it went by: the comparison's operands,
/// compared as it says, give the value that was tested.
pub proof fn a_fused_branch_goes_by_the_same(b: SchedBlock, at: int, f: FusedCmp, run: Run)
    requires
        fusable_spec(b, Some((at, f))),
        forall|i: int| 0 <= i < b.instrs@.len() ==> computes(#[trigger] b.instrs@[i], run),
    ensures
        f.op == BinOp::Eq || f.op == BinOp::Ult || f.op == BinOp::Slt,
        b.control matches Some(o) && operand_value(o, run) == bin_val(
            f.op,
            operand_value(f.a, run),
            operand_value(f.b, run),
            f.width,
        ),
{
    assert(computes(b.instrs@[at], run));
}

/// A store that is named as an argument of the call it was set up for stores the same, at the
/// address it stored at: that many bytes above the call's stack pointer.
pub proof fn an_argument_keeps_its_address(
    instrs: Seq<Instr>,
    from: int,
    call: int,
    base: u64,
    rsp: u64,
    n: int,
    slot: u32,
)
    requires
        anchored(instrs, from, call, base, rsp, n) != instrs[n],
        anchored(instrs, from, call, base, rsp, n)->Store_addr == Operand::OutArg(slot),
    ensures
        anchored(instrs, from, call, base, rsp, n) is Store,
        instrs[n] is Store,
        instrs[n]->Store_addr is Frame,
        anchored(instrs, from, call, base, rsp, n)->Store_value == instrs[n]->Store_value,
        anchored(instrs, from, call, base, rsp, n)->Store_width == instrs[n]->Store_width,
        instrs[n]->Store_addr->Frame_0 + instrs[n]->Store_disp > -range_of_bits(Width::W64) ==> (rsp
            + slot) % range_of_bits(Width::W64) == (base + instrs[n]->Store_addr->Frame_0
            + instrs[n]->Store_disp) % range_of_bits(Width::W64),
{
    let t = local_store(instrs[n])->0;
    let m = range_of_bits(Width::W64);
    let x = frame_address(base, t);
    if t > -m {
        lemma_difference(base, (-t) as u64, Width::W64);
        lemma_mask(wsub(base, (-t) as u64), Width::W64.mask());
        lemma_difference(x, rsp, Width::W64);
        lemma_mask(wsub(x, rsp), Width::W64.mask());
        assert(slot as int == (x - rsp) % m);
        assert(x as int == (base + t) % m);
        vstd::arithmetic::div_mod::lemma_add_mod_noop(x - rsp, rsp as int, m);
        vstd::arithmetic::div_mod::lemma_small_mod(rsp as nat, m as nat);
        vstd::arithmetic::div_mod::lemma_small_mod(x as nat, m as nat);
    }
}

} // verus!
