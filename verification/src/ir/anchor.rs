//! Memory accesses whose address was pinned while recovering, given their base back.

use crate::ir::expr::same_text;
use crate::ir::fold::{wadd, wrapping_difference, wsub};
use crate::ir::instr::{Instr, Operand, SchedBlock, ValId};
use crate::ir::value::Reg;
use vstd::prelude::*;

verus! {

/// Win64 shadow space: the four register arguments' homing slots.
pub const SHADOW_BYTES: u64 = 0x20;

/// One past the stack argument area of the calls that are recognized.
pub const ARGS_END: u64 = 0x80;

/// How close to the stored arguments an address handed to the callee may be.
pub const SLACK: i64 = 8;

/// A concrete address below this is taken to be a lost pointer base.
pub const MIN_PLAUSIBLE_ADDR: u64 = 0x1000;

/// The address of a stack location.
pub open spec fn frame_address(base: u64, x: int) -> u64 {
    if x >= 0 {
        wadd(base, x as u64)
    } else {
        wsub(base, (-x) as u64)
    }
}

/// The frame offset a store below the entry stack pointer writes at.
pub open spec fn local_store(i: Instr) -> Option<int> {
    match i {
        Instr::Store { addr: Operand::Frame(off), disp, .. } => if off + disp < 0 {
            Some(off + disp)
        } else {
            None
        },
        _ => None,
    }
}

/// The byte above the call's stack pointer that a store of a stack argument writes at.
pub open spec fn arg_slot(i: Instr, base: u64, rsp: u64) -> Option<u32> {
    match local_store(i) {
        Some(t) => {
            let at = wsub(frame_address(base, t), rsp);
            if SHADOW_BYTES <= at < ARGS_END {
                Some(at as u32)
            } else {
                None
            }
        },
        None => None,
    }
}

/// Whether the call at `call` hands its callee an address among the arguments stored since
/// `from`, so that they are a buffer and not arguments.
pub open spec fn aims_at_stores(instrs: Seq<Instr>, from: int, call: int, base: u64, rsp: u64) -> bool {
    instrs[call] matches Instr::Call { args, .. } && exists|k: int|
        0 <= k < args@.len() && ((#[trigger] args@[k]).1 matches Operand::Frame(f) && not_below(
            instrs,
            from,
            call,
            base,
            rsp,
            f as int,
        ) && not_above(instrs, from, call, base, rsp, f as int))
}

/// Whether an offset is not below all stored arguments.
pub open spec fn not_below(instrs: Seq<Instr>, from: int, call: int, base: u64, rsp: u64, f: int) -> bool {
    exists|n: int|
        from <= n < call && arg_slot(#[trigger] instrs[n], base, rsp) is Some && f >= local_store(
            instrs[n],
        )->0 - SLACK
}

/// Whether an offset is not above all stored arguments.
pub open spec fn not_above(instrs: Seq<Instr>, from: int, call: int, base: u64, rsp: u64, f: int) -> bool {
    exists|n: int|
        from <= n < call && arg_slot(#[trigger] instrs[n], base, rsp) is Some && f <= local_store(
            instrs[n],
        )->0 + SLACK
}

/// A store at a call's argument slot instead.
pub open spec fn at_slot(i: Instr, slot: u32) -> Instr {
    match i {
        Instr::Store { value, width, .. } => Instr::Store {
            addr: Operand::OutArg(slot),
            value,
            disp: 0,
            width,
        },
        _ => i,
    }
}

/// The instruction at `n` once the stores before the call at `call` that fill stack
/// arguments are anchored to it.
pub open spec fn anchored(
    instrs: Seq<Instr>,
    from: int,
    call: int,
    base: u64,
    rsp: u64,
    n: int,
) -> Instr {
    if from <= n < call && !aims_at_stores(instrs, from, call, base, rsp) {
        match arg_slot(instrs[n], base, rsp) {
            Some(slot) => at_slot(instrs[n], slot),
            None => instrs[n],
        }
    } else {
        instrs[n]
    }
}

/// How far from the base of the frame a stack access may lie, so that what is added to its
/// offset leaves a number.
pub const FRAME_REACH: i64 = 0x7fff_fffe_0000_0000;

/// Where the bytes of such accesses end.
pub const FRAME_END: i64 = 0x7fff_ffff_0000_0000;

/// Whether the offsets of stack accesses are small enough to add.
pub open spec fn small_frames(i: Instr) -> bool {
    match i {
        Instr::Store { addr: Operand::Frame(o), disp, .. } => -FRAME_REACH <= o + disp <= FRAME_REACH,
        Instr::Load { addr: Operand::Frame(o), disp, .. } => -FRAME_REACH <= o + disp <= FRAME_REACH,
        _ => true,
    }
}

/// Whether the offset a stack access adds up to is a number, with the slack to either side.
pub open spec fn sum_fits(i: Instr) -> bool {
    i matches Instr::Store { addr: Operand::Frame(o), disp, .. } ==> i64::MIN + SLACK <= o + disp
        <= i64::MAX
}

fn local_store_of(i: &Instr) -> (r: Option<i64>)
    requires
        sum_fits(*i),
    ensures
        match r {
            Some(t) => local_store(*i) == Some(t as int) && i64::MIN + SLACK <= t < 0,
            None => local_store(*i) is None,
        },
{
    match i {
        Instr::Store { addr: Operand::Frame(off), disp, .. } => {
            let t: i64 = *off + *disp;
            if t < 0 {
                Some(t)
            } else {
                None
            }
        },
        _ => None,
    }
}

fn arg_slot_of(i: &Instr, base: u64, rsp: u64) -> (r: Option<u32>)
    requires
        sum_fits(*i),
    ensures
        r == arg_slot(*i, base, rsp),
{
    match local_store_of(i) {
        Some(t) => {
            let at: u64 = wrapping_difference(wrapping_difference(base, (-t) as u64), rsp);
            if SHADOW_BYTES <= at && at < ARGS_END {
                Some(at as u32)
            } else {
                None
            }
        },
        None => None,
    }
}

fn near_stores(instrs: &Vec<Instr>, from: usize, call: usize, base: u64, rsp: u64, f: i64) -> (r: bool)
    requires
        from <= call < instrs@.len(),
        forall|n: int| 0 <= n < instrs@.len() ==> sum_fits(#[trigger] instrs@[n]),
    ensures
        r == (not_below(instrs@, from as int, call as int, base, rsp, f as int) && not_above(
            instrs@,
            from as int,
            call as int,
            base,
            rsp,
            f as int,
        )),
{
    let mut above = false;
    let mut below = false;
    let mut n: usize = from;
    while n < call
        invariant
            from <= n <= call < instrs@.len(),
            forall|n: int| 0 <= n < instrs@.len() ==> sum_fits(#[trigger] instrs@[n]),
            above == not_below(instrs@, from as int, n as int, base, rsp, f as int),
            below == not_above(instrs@, from as int, n as int, base, rsp, f as int),
        decreases call - n,
    {
        proof {
            lemma_near_step(instrs@, from as int, n as int, base, rsp, f as int);
        }
        if arg_slot_of(&instrs[n], base, rsp).is_some() {
            if let Some(t) = local_store_of(&instrs[n]) {
                if f >= t - SLACK {
                    above = true;
                }
                if f <= t + SLACK {
                    below = true;
                }
            }
        }
        n = n + 1;
    }
    above && below
}

proof fn lemma_near_step(instrs: Seq<Instr>, from: int, n: int, base: u64, rsp: u64, f: int)
    requires
        from <= n < instrs.len(),
    ensures
        not_below(instrs, from, n + 1, base, rsp, f) <==> not_below(instrs, from, n, base, rsp, f) || (
        arg_slot(instrs[n], base, rsp) is Some && f >= local_store(instrs[n])->0 - SLACK),
        not_above(instrs, from, n + 1, base, rsp, f) <==> not_above(instrs, from, n, base, rsp, f) || (
        arg_slot(instrs[n], base, rsp) is Some && f <= local_store(instrs[n])->0 + SLACK),
{
    if not_below(instrs, from, n, base, rsp, f) {
        let k = choose|k: int|
            from <= k < n && arg_slot(#[trigger] instrs[k], base, rsp) is Some && f >= local_store(
                instrs[k],
            )->0 - SLACK;
        assert(arg_slot(instrs[k], base, rsp) is Some);
    }
    if not_above(instrs, from, n, base, rsp, f) {
        let k = choose|k: int|
            from <= k < n && arg_slot(#[trigger] instrs[k], base, rsp) is Some && f <= local_store(
                instrs[k],
            )->0 + SLACK;
        assert(arg_slot(instrs[k], base, rsp) is Some);
    }
}

fn aims(instrs: &Vec<Instr>, from: usize, call: usize, base: u64, rsp: u64) -> (r: bool)
    requires
        from <= call < instrs@.len(),
        forall|n: int| 0 <= n < instrs@.len() ==> sum_fits(#[trigger] instrs@[n]),
    ensures
        r == aims_at_stores(instrs@, from as int, call as int, base, rsp),
{
    match &instrs[call] {
        Instr::Call { target, args } => {
            let mut k: usize = 0;
            while k < args.len()
                invariant
                    k <= args@.len(),
                    instrs@[call as int] == (Instr::Call { target: *target, args: *args }),
                    from <= call < instrs@.len(),
                    forall|n: int| 0 <= n < instrs@.len() ==> sum_fits(#[trigger] instrs@[n]),
                    forall|j: int|
                        0 <= j < k ==> !((#[trigger] args@[j]).1 matches Operand::Frame(f) && not_below(
                            instrs@,
                            from as int,
                            call as int,
                            base,
                            rsp,
                            f as int,
                        ) && not_above(instrs@, from as int, call as int, base, rsp, f as int)),
                decreases args@.len() - k,
            {
                if let Operand::Frame(f) = args[k].1 {
                    if near_stores(instrs, from, call, base, rsp, f) {
                        proof {
                            assert(args@[k as int].1 == Operand::Frame(f));
                        }
                        return true;
                    }
                }
                k = k + 1;
            }
            false
        },
        _ => false,
    }
}

/// Anchor the stores that fill the stack arguments of one call to the call's stack pointer.
pub fn retarget_call(instrs: &mut Vec<Instr>, from: usize, call: usize, base: u64, rsp: u64)
    requires
        from <= call < old(instrs)@.len(),
        forall|n: int| 0 <= n < old(instrs)@.len() ==> sum_fits(#[trigger] old(instrs)@[n]),
    ensures
        final(instrs)@ == Seq::new(
            old(instrs)@.len(),
            |n: int| anchored(old(instrs)@, from as int, call as int, base, rsp, n),
        ),
{
    let ghost i0 = instrs@;
    let ghost want = Seq::new(
        i0.len(),
        |n: int| anchored(i0, from as int, call as int, base, rsp, n),
    );
    if aims(instrs, from, call, base, rsp) {
        proof {
            assert(instrs@ =~= want);
        }
        return;
    }
    let mut n: usize = from;
    while n < call
        invariant
            from <= n <= call < i0.len(),
            instrs@.len() == i0.len(),
            !aims_at_stores(i0, from as int, call as int, base, rsp),
            forall|k: int| 0 <= k < i0.len() ==> sum_fits(#[trigger] i0[k]),
            forall|k: int|
                0 <= k < i0.len() ==> #[trigger] instrs@[k] == if k < n {
                    anchored(i0, from as int, call as int, base, rsp, k)
                } else {
                    i0[k]
                },
        decreases call - n,
    {
        proof {
            assert(instrs@[n as int] == i0[n as int]);
            assert(sum_fits(i0[n as int]));
        }
        if let Some(slot) = arg_slot_of(&instrs[n], base, rsp) {
            if let Instr::Store { value, width, .. } = &instrs[n] {
                let moved = Instr::Store {
                    addr: Operand::OutArg(slot),
                    value: *value,
                    disp: 0,
                    width: *width,
                };
                instrs.set(n, moved);
            }
        }
        n = n + 1;
    }
    proof {
        assert(instrs@ =~= want);
    }
}

/// The value a call's result is, if it is the one the scheduler places behind the call.
pub open spec fn result_of(instrs: Seq<Instr>, call: int) -> Option<ValId> {
    if call + 1 < instrs.len() {
        match instrs[call + 1] {
            Instr::Opaque { dst, tag, at: Some(Reg::Rax), .. } => if tag@ == "call_ret"@ {
                Some(dst)
            } else {
                None
            },
            _ => None,
        }
    } else {
        None
    }
}

/// The result of the nearest call before `i`.
pub open spec fn last_result(instrs: Seq<Instr>, i: int) -> Option<ValId>
    decreases i,
{
    if i <= 0 {
        None
    } else if instrs[i - 1] is Call {
        result_of(instrs, i - 1)
    } else {
        last_result(instrs, i - 1)
    }
}

/// An access at a small absolute address, taken relative to the result of the call before
/// it. A real absolute access names a global, which is nowhere near zero.
pub open spec fn reanchored(instrs: Seq<Instr>, i: int) -> Instr {
    match (instrs[i], last_result(instrs, i)) {
        (Instr::Store { addr: Operand::Imm(a), value, width, disp }, Some(base)) => if a
            < MIN_PLAUSIBLE_ADDR {
            Instr::Store { addr: Operand::Val(base), value, disp: a as i64, width }
        } else {
            instrs[i]
        },
        (Instr::Load { dst, addr: Operand::Imm(a), width, disp }, Some(base)) => if a
            < MIN_PLAUSIBLE_ADDR {
            Instr::Load { dst, addr: Operand::Val(base), disp: a as i64, width }
        } else {
            instrs[i]
        },
        _ => instrs[i],
    }
}

/// Whether an access at an absolute address carries no displacement yet.
pub open spec fn undisplaced(i: Instr) -> bool {
    match i {
        Instr::Store { addr: Operand::Imm(_), disp, .. } => disp == 0,
        Instr::Load { addr: Operand::Imm(_), disp, .. } => disp == 0,
        _ => true,
    }
}

fn result_behind(instrs: &Vec<Instr>, call: usize) -> (r: Option<ValId>)
    requires
        call < instrs@.len(),
    ensures
        r == result_of(instrs@, call as int),
{
    let n: usize = instrs.len();
    if call + 1 < n {
        match &instrs[call + 1] {
            Instr::Opaque { dst, tag, at: Some(Reg::Rax), .. } => if same_text(tag, "call_ret") {
                Some(*dst)
            } else {
                None
            },
            _ => None,
        }
    } else {
        None
    }
}

/// Re-anchor every memory access whose address folded to a small constant onto the
/// preceding call's return value.
pub fn reanchor_small_addrs_on_call_ret(instrs: &mut Vec<Instr>)
    requires
        forall|i: int| 0 <= i < old(instrs)@.len() ==> undisplaced(#[trigger] old(instrs)@[i]),
    ensures
        final(instrs)@ == Seq::new(old(instrs)@.len(), |i: int| reanchored(old(instrs)@, i)),
{
    let ghost i0 = instrs@;
    let ghost want = Seq::new(i0.len(), |i: int| reanchored(i0, i));
    let mut last: Option<ValId> = None;
    let mut i: usize = 0;
    while i < instrs.len()
        invariant
            i <= instrs@.len() == i0.len(),
            last == last_result(i0, i as int),
            forall|k: int|
                0 <= k < i0.len() ==> #[trigger] instrs@[k] == if k < i {
                    reanchored(i0, k)
                } else {
                    i0[k]
                },
        decreases instrs@.len() - i,
    {
        proof {
            assert(instrs@[i as int] == i0[i as int]);
        }
        let moved = match (&instrs[i], last) {
            (Instr::Store { addr: Operand::Imm(a), value, width, .. }, Some(base)) => if *a
                < MIN_PLAUSIBLE_ADDR {
                Some(Instr::Store { addr: Operand::Val(base), value: *value, disp: *a as i64, width: *width })
            } else {
                None
            },
            (Instr::Load { dst, addr: Operand::Imm(a), width, .. }, Some(base)) => if *a
                < MIN_PLAUSIBLE_ADDR {
                Some(Instr::Load { dst: *dst, addr: Operand::Val(base), disp: *a as i64, width: *width })
            } else {
                None
            },
            _ => None,
        };
        let called = matches!(&instrs[i], Instr::Call { .. });
        if called {
            last = result_behind(instrs, i);
            proof {
                let call = i as int;
                if call + 1 < i0.len() {
                    assert(instrs@[call + 1] == i0[call + 1]);
                }
            }
        }
        if let Some(m) = moved {
            instrs.set(i, m);
        }
        i = i + 1;
    }
    proof {
        assert(instrs@ =~= want);
    }
}

/// The bytes above the call's stack pointer a store fills.
pub open spec fn slot_end(i: Instr) -> Option<int> {
    match i {
        Instr::Store { addr: Operand::OutArg(n), width, .. } => Some(n + width.bytes()),
        _ => None,
    }
}

/// The highest byte any of the first `k` instructions fills.
pub open spec fn slots_end(instrs: Seq<Instr>, k: int) -> int
    decreases k,
{
    if k <= 0 {
        0
    } else {
        match slot_end(instrs[k - 1]) {
            Some(e) => if e > slots_end(instrs, k - 1) {
                e
            } else {
                slots_end(instrs, k - 1)
            },
            None => slots_end(instrs, k - 1),
        }
    }
}

/// How many outgoing stack arguments a block's calls need, counted from the highest argument
/// byte it writes: the area above the shadow space is contiguous, in whole 8-byte slots.
pub fn stack_arg_count(b: &SchedBlock) -> (n: u32)
    requires
        forall|i: int|
            0 <= i < b.instrs@.len() ==> (slot_end(#[trigger] b.instrs@[i]) matches Some(e) ==> e
                < u32::MAX - 8),
    ensures
        n == ({
            let end = slots_end(b.instrs@, b.instrs@.len() as int);
            if end <= SHADOW_BYTES {
                0
            } else {
                (end - SHADOW_BYTES + 7) / 8
            }
        }),
{
    let mut end: u32 = 0;
    let mut i: usize = 0;
    while i < b.instrs.len()
        invariant
            i <= b.instrs@.len(),
            end == slots_end(b.instrs@, i as int),
            end < u32::MAX - 8,
            forall|i: int|
                0 <= i < b.instrs@.len() ==> (slot_end(#[trigger] b.instrs@[i]) matches Some(e) ==> e
                    < u32::MAX - 8),
        decreases b.instrs@.len() - i,
    {
        proof {
            assert(slot_end(b.instrs@[i as int]) matches Some(e) ==> e < u32::MAX - 8);
        }
        if let Instr::Store { addr: Operand::OutArg(n), width, .. } = &b.instrs[i] {
            let e: u32 = *n + width.bytes();
            if e > end {
                end = e;
            }
        }
        i = i + 1;
    }
    let shadow: u32 = SHADOW_BYTES as u32;
    if end <= shadow {
        0
    } else {
        (end - shadow + 7) / 8
    }
}

} // verus!
