//! Dead code: what nothing reads, and stores overwritten before anything reads them.

use crate::ir::anchor::{small_frames, FRAME_REACH};
use crate::ir::frame::{
    frames_ok, kept_of, range_escapes, range_may_escape, read_bytes, read_bytes_of, retain,
    unmarked, FrameEscapes,
};
use crate::ir::instr::{
    defined, defines, kept, operands_read, reads, reads_value, sources, FusedCmp, Instr, Operand,
    SchedBlock, ValId,
};
use crate::ir::lower::{code_ok, sched_ok};
use crate::ir::passes::{
    lemma_one_def, lemma_pointwise, rewrite_masked_sign_tests, sign_rewritten, sign_tested,
};
use crate::ir::schedule::{
    defined_in, in_sequence, in_window, inputs_defined, operand_ready, reads_window,
};
use crate::ir::value::BinOp;
use std::collections::HashSet;
use vstd::prelude::*;

verus! {

broadcast use vstd::std_specs::hash::group_hash_axioms;

/// Whether an instruction compares into the value.
pub open spec fn compares_into(i: Instr, v: ValId) -> bool {
    i matches Instr::Bin { dst, op, .. } && dst == v && (op == BinOp::Eq || op == BinOp::Ult || op
        == BinOp::Slt)
}

/// The comparison of an instruction.
pub open spec fn comparison(i: Instr) -> FusedCmp {
    match i {
        Instr::Bin { op, a, b, operand_width, .. } => FusedCmp { a, b, op, width: operand_width },
        _ => arbitrary(),
    }
}

/// Whether the comparison at `at` is the first that makes what the branch tests, and nothing
/// but the branch reads it.
pub open spec fn fuses(b: SchedBlock, v: ValId, at: int) -> bool {
    &&& 0 <= at < b.instrs@.len()
    &&& compares_into(b.instrs@[at], v)
    &&& forall|j: int| 0 <= j < at ==> !compares_into(#[trigger] b.instrs@[j], v)
    &&& forall|j: int|
        0 <= j < b.instrs@.len() && j != at ==> !reads_value(reads(#[trigger] b.instrs@[j]), v)
    &&& !sources(b.exits@).contains(Operand::Val(v))
}

/// The comparison the branch can absorb.
pub open spec fn fusable_spec(b: SchedBlock, r: Option<(int, FusedCmp)>) -> bool {
    match (b.control, r) {
        (Some(Operand::Val(v)), Some((at, f))) => fuses(b, v, at) && f == comparison(b.instrs@[at]),
        (Some(Operand::Val(v)), None) => forall|at: int| !#[trigger] fuses(b, v, at),
        (_, r) => r is None,
    }
}

fn mentions(ops: &Vec<Operand>, v: ValId) -> (r: bool)
    ensures
        r == reads_value(ops@, v),
{
    let mut k: usize = 0;
    while k < ops.len()
        invariant
            k <= ops@.len(),
            forall|j: int| 0 <= j < k ==> #[trigger] ops@[j] != Operand::Val(v),
        decreases ops@.len() - k,
    {
        if ops[k] == Operand::Val(v) {
            return true;
        }
        k = k + 1;
    }
    false
}

fn leaves_with(b: &SchedBlock, v: ValId) -> (r: bool)
    ensures
        r == sources(b.exits@).contains(Operand::Val(v)),
{
    let mut k: usize = 0;
    while k < b.exits.len()
        invariant
            k <= b.exits@.len(),
            forall|j: int| 0 <= j < k ==> #[trigger] sources(b.exits@)[j] != Operand::Val(v),
        decreases b.exits@.len() - k,
    {
        if b.exits[k].1 == Operand::Val(v) {
            proof {
                assert(sources(b.exits@)[k as int] == Operand::Val(v));
            }
            return true;
        }
        k = k + 1;
    }
    false
}

/// The comparison defining `control`, if the branch can absorb it.
pub fn fusable(b: &SchedBlock) -> (r: Option<(usize, FusedCmp)>)
    ensures
        fusable_spec(
            *b,
            match r {
                Some((at, f)) => Some((at as int, f)),
                None => None,
            },
        ),
{
    let v = match &b.control {
        Some(Operand::Val(v)) => *v,
        _ => {
            return None;
        },
    };
    let mut at: usize = 0;
    let mut found: Option<FusedCmp> = None;
    while at < b.instrs.len() && found.is_none()
        invariant
            at <= b.instrs@.len(),
            match found {
                None => forall|j: int| 0 <= j < at ==> !compares_into(#[trigger] b.instrs@[j], v),
                Some(f) => at > 0 && compares_into(b.instrs@[at - 1], v) && f == comparison(
                    b.instrs@[at - 1],
                ) && forall|j: int| 0 <= j < at - 1 ==> !compares_into(#[trigger] b.instrs@[j], v),
            },
        decreases b.instrs@.len() - at,
    {
        if let Instr::Bin { dst, op, a, b: rhs, operand_width, .. } = &b.instrs[at] {
            if *dst == v && (*op == BinOp::Eq || *op == BinOp::Ult || *op == BinOp::Slt) {
                found = Some(FusedCmp { a: *a, b: *rhs, op: *op, width: *operand_width });
            }
        }
        at = at + 1;
    }
    match found {
        None => {
            proof {
                assert forall|k: int| !#[trigger] fuses(*b, v, k) by {}
            }
            None
        },
        Some(f) => {
            let at: usize = at - 1;
            proof {
                assert forall|k: int| #[trigger] fuses(*b, v, k) implies k == at by {
                    if k < at {
                        assert(!compares_into(b.instrs@[k], v));
                    } else if k > at {
                        assert(compares_into(b.instrs@[at as int], v));
                    }
                }
            }
            let mut j: usize = 0;
            while j < b.instrs.len()
                invariant
                    j <= b.instrs@.len(),
                    at < b.instrs@.len(),
                    b.control == Some(Operand::Val(v)),
                    forall|k: int| #[trigger] fuses(*b, v, k) ==> k == at,
                    forall|k: int|
                        0 <= k < j && k != at ==> !reads_value(reads(#[trigger] b.instrs@[k]), v),
                decreases b.instrs@.len() - j,
            {
                if j != at {
                    let ops = operands_read(&b.instrs[j]);
                    if mentions(&ops, v) {
                        proof {
                            assert forall|k: int| !#[trigger] fuses(*b, v, k) by {
                                if fuses(*b, v, k) {
                                    assert(!reads_value(reads(b.instrs@[j as int]), v));
                                }
                            }
                        }
                        return None;
                    }
                }
                j = j + 1;
            }
            if leaves_with(b, v) {
                proof {
                    assert forall|k: int| !#[trigger] fuses(*b, v, k) by {}
                }
                return None;
            }
            proof {
                assert(fuses(*b, v, at as int));
            }
            Some((at, f))
        },
    }
}

/// Whether a byte range lies inside another.
pub open spec fn covers(at: int, n: int, key: int, len: int) -> bool {
    at <= key && key + len <= at + n
}

/// Whether two byte ranges share a byte.
pub open spec fn touches(at: int, n: int, key: int, len: int) -> bool {
    at < key + len && key < at + n
}

/// Whether the bytes stored through a value at a displacement are all written again,
/// looking from `j` on, before anything reads one of them. A load through anything else may
/// read them, wherever it goes.
pub open spec fn overwritten(instrs: Seq<Instr>, j: int, v: ValId, disp: i64, len: int) -> bool
    decreases instrs.len() - j,
{
    if j < 0 || j >= instrs.len() {
        false
    } else {
        match instrs[j] {
            Instr::Store { addr, disp: d, width, .. } => (addr == Operand::Val(v) && covers(
                d as int,
                width.bytes() as int,
                disp as int,
                len,
            )) || overwritten(instrs, j + 1, v, disp, len),
            Instr::Load { addr, disp: d, width, .. } => addr == Operand::Val(v) && !touches(
                d as int,
                width.bytes() as int,
                disp as int,
                len,
            ) && overwritten(instrs, j + 1, v, disp, len),
            Instr::Call { .. } => false,
            Instr::Boxed { .. } => false,
            _ => overwritten(instrs, j + 1, v, disp, len),
        }
    }
}

/// Whether an instruction reads a byte of a frame range itself. What a boxed instruction does
/// to its memory operand is not known, so it counts.
pub open spec fn reads_range(i: Instr, key: int, len: int) -> bool {
    read_bytes(i) matches Some((lo, hi)) && touches(lo, hi - lo, key, len)
}

/// Whether the bytes stored to the frame are all written again, looking from `j` on, before
/// anything reads one of them. A callee can read a byte that may escape.
pub open spec fn overwritten_frame(
    instrs: Seq<Instr>,
    escapes: FrameEscapes,
    j: int,
    key: int,
    len: int,
) -> bool
    decreases instrs.len() - j,
{
    if j < 0 || j >= instrs.len() {
        false
    } else {
        match instrs[j] {
            Instr::Store { addr: Operand::Frame(o), disp, width, .. } => covers(
                o + disp,
                width.bytes() as int,
                key,
                len,
            ) || overwritten_frame(instrs, escapes, j + 1, key, len),
            Instr::Load { addr: Operand::Frame(o), disp, width, .. } => !touches(
                o + disp,
                width.bytes() as int,
                key,
                len,
            ) && overwritten_frame(instrs, escapes, j + 1, key, len),
            Instr::Call { .. } => !range_escapes(escapes, key, len) && overwritten_frame(
                instrs,
                escapes,
                j + 1,
                key,
                len,
            ),
            Instr::Boxed { .. } => !range_escapes(escapes, key, len) && !reads_range(
                instrs[j],
                key,
                len,
            ) && overwritten_frame(instrs, escapes, j + 1, key, len),
            _ => overwritten_frame(instrs, escapes, j + 1, key, len),
        }
    }
}

/// Whether an instruction that acts has to stay.
pub open spec fn acts(instrs: Seq<Instr>, escapes: FrameEscapes, i: int) -> bool {
    match instrs[i] {
        Instr::Store { addr: Operand::Val(v), disp, width, .. } => !overwritten(
            instrs,
            i + 1,
            v,
            disp,
            width.bytes() as int,
        ),
        Instr::Store { addr: Operand::Frame(o), disp, width, .. } => !overwritten_frame(
            instrs,
            escapes,
            i + 1,
            o + disp,
            width.bytes() as int,
        ),
        Instr::Store { .. } => true,
        Instr::Call { .. } => true,
        Instr::Boxed { .. } => true,
        _ => false,
    }
}

/// Whether an instruction stays: it acts, or something that stays needs its value.
pub open spec fn stays(instrs: Seq<Instr>, escapes: FrameEscapes, roots: Seq<Operand>, i: int) -> bool
    decreases instrs.len() - i, 0nat,
{
    0 <= i < instrs.len() && match defines(instrs[i]) {
        Some(v) => needed(instrs, escapes, roots, i + 1, v),
        None => acts(instrs, escapes, i),
    }
}

/// Whether the roots, or something from `j` on that stays, needs a value.
pub open spec fn needed(
    instrs: Seq<Instr>,
    escapes: FrameEscapes,
    roots: Seq<Operand>,
    j: int,
    v: ValId,
) -> bool
    decreases instrs.len() - j, 1nat,
{
    if j < 0 || j >= instrs.len() {
        reads_value(roots, v)
    } else {
        needed(instrs, escapes, roots, j + 1, v) || (stays(instrs, escapes, roots, j) && reads_value(
            reads(instrs[j]),
            v,
        ))
    }
}

fn is_overwritten(instrs: &Vec<Instr>, from: usize, v: ValId, disp: i64, len: u32) -> (r: bool)
    requires
        from <= instrs@.len(),
    ensures
        r == overwritten(instrs@, from as int, v, disp, len as int),
{
    let mut j: usize = from;
    let lo: i128 = disp as i128;
    let hi: i128 = lo + len as i128;
    while j < instrs.len()
        invariant
            j <= instrs@.len(),
            lo == disp,
            hi == lo + len,
            overwritten(instrs@, from as int, v, disp, len as int) == overwritten(
                instrs@,
                j as int,
                v,
                disp,
                len as int,
            ),
        decreases instrs@.len() - j,
    {
        match &instrs[j] {
            Instr::Store { addr, disp: d, width, .. } => {
                let at: i128 = *d as i128;
                if *addr == Operand::Val(v) && at <= lo && hi <= at + width.bytes() as i128 {
                    return true;
                }
            },
            Instr::Load { addr, disp: d, width, .. } => {
                let at: i128 = *d as i128;
                if *addr != Operand::Val(v) || (at < hi && lo < at + width.bytes() as i128) {
                    return false;
                }
            },
            Instr::Call { .. } => {
                return false;
            },
            Instr::Boxed { .. } => {
                return false;
            },
            _ => {},
        }
        j = j + 1;
    }
    false
}

/// Whether the offsets by which an instruction accesses the frame are small enough to add.
spec fn frame_safe(i: Instr) -> bool {
    small_frames(i) && (i is Boxed ==> reads_window(i))
}

fn is_overwritten_frame(instrs: &Vec<Instr>, escapes: &FrameEscapes, from: usize, key: i64, len: i64) -> (r: bool)
    requires
        from <= instrs@.len(),
        0 <= len <= 8,
        -FRAME_REACH <= key <= FRAME_REACH,
        forall|i: int| 0 <= i < instrs@.len() ==> frame_safe(#[trigger] instrs@[i]),
    ensures
        r == overwritten_frame(instrs@, *escapes, from as int, key as int, len as int),
{
    let mut j: usize = from;
    let open = range_may_escape(escapes, key, len);
    while j < instrs.len()
        invariant
            j <= instrs@.len(),
            open == range_escapes(*escapes, key as int, len as int),
            0 <= len <= 8,
            -FRAME_REACH <= key <= FRAME_REACH,
            forall|i: int| 0 <= i < instrs@.len() ==> frame_safe(#[trigger] instrs@[i]),
            overwritten_frame(instrs@, *escapes, from as int, key as int, len as int)
                == overwritten_frame(instrs@, *escapes, j as int, key as int, len as int),
        decreases instrs@.len() - j,
    {
        proof {
            assert(frame_safe(instrs@[j as int]));
        }
        match &instrs[j] {
            Instr::Store { addr: Operand::Frame(o), disp, width, .. } => {
                let at: i64 = *o + *disp;
                if at <= key && key + len <= at + width.bytes() as i64 {
                    return true;
                }
            },
            Instr::Load { addr: Operand::Frame(o), disp, width, .. } => {
                let at: i64 = *o + *disp;
                if at < key + len && key < at + width.bytes() as i64 {
                    return false;
                }
            },
            Instr::Call { .. } => {
                if open {
                    return false;
                }
            },
            Instr::Boxed { .. } => {
                let read: bool = match read_bytes_of(&instrs[j]) {
                    Some((lo, hi)) => lo < key + len && key < hi,
                    None => false,
                };
                if open || read {
                    return false;
                }
            },
            _ => {},
        }
        j = j + 1;
    }
    false
}

fn must_act(instrs: &Vec<Instr>, escapes: &FrameEscapes, i: usize) -> (r: bool)
    requires
        i < instrs@.len(),
        forall|i: int| 0 <= i < instrs@.len() ==> frame_safe(#[trigger] instrs@[i]),
    ensures
        r == acts(instrs@, *escapes, i as int),
{
    let n: usize = instrs.len();
    proof {
        assert(frame_safe(instrs@[i as int]));
    }
    match &instrs[i] {
        Instr::Store { addr: Operand::Val(v), disp, width, .. } => !is_overwritten(
            instrs,
            i + 1,
            *v,
            *disp,
            width.bytes(),
        ),
        Instr::Store { addr: Operand::Frame(o), disp, width, .. } => !is_overwritten_frame(
            instrs,
            escapes,
            i + 1,
            *o + *disp,
            width.bytes() as i64,
        ),
        Instr::Store { .. } => true,
        Instr::Call { .. } => true,
        Instr::Boxed { .. } => true,
        _ => false,
    }
}

/// Mark the values among the operands as needed.
fn need(used: &mut HashSet<u32>, ops: &Vec<Operand>)
    ensures
        forall|v: u32| #[trigger]
            final(used)@.contains(v) <==> old(used)@.contains(v) || reads_value(ops@, ValId(v)),
{
    let mut k: usize = 0;
    proof {
        assert(ops@.take(0) =~= Seq::empty());
    }
    while k < ops.len()
        invariant
            k <= ops@.len(),
            forall|v: u32| #[trigger]
                used@.contains(v) <==> old(used)@.contains(v) || reads_value(
                    ops@.take(k as int),
                    ValId(v),
                ),
        decreases ops@.len() - k,
    {
        let ghost u0 = used@;
        proof {
            assert(ops@.take(k + 1) =~= ops@.take(k as int).push(ops@[k as int]));
            crate::ir::walk::lemma_push_contains(ops@.take(k as int), ops@[k as int]);
        }
        if let Operand::Val(v) = ops[k] {
            used.insert(v.0);
        }
        proof {
            assert forall|v: u32| #[trigger] used@.contains(v) <==> old(used)@.contains(v) || reads_value(
                ops@.take(k + 1),
                ValId(v),
            ) by {
                assert(u0.contains(v) <==> old(used)@.contains(v) || reads_value(
                    ops@.take(k as int),
                    ValId(v),
                ));
            }
        }
        k = k + 1;
    }
    proof {
        assert(ops@.take(ops@.len() as int) =~= ops@);
    }
}

/// Mark the instructions that stay, given what is needed after the last.
fn mark(instrs: &Vec<Instr>, escapes: &FrameEscapes, roots: &Vec<Operand>) -> (keep: Vec<bool>)
    requires
        forall|i: int| 0 <= i < instrs@.len() ==> frame_safe(#[trigger] instrs@[i]),
    ensures
        keep@.len() == instrs@.len(),
        forall|i: int| 0 <= i < instrs@.len() ==> #[trigger] keep@[i] == stays(instrs@, *escapes, roots@, i),
{
    let n: usize = instrs.len();
    let mut keep: Vec<bool> = Vec::new();
    while keep.len() < n
        invariant
            n == instrs@.len(),
            keep@.len() <= n,
        decreases n - keep@.len(),
    {
        keep.push(false);
    }
    let mut used: HashSet<u32> = HashSet::new();
    need(&mut used, roots);
    let mut i: usize = n;
    while i > 0
        invariant
            i <= n == instrs@.len(),
            keep@.len() == n,
            forall|i: int| 0 <= i < instrs@.len() ==> frame_safe(#[trigger] instrs@[i]),
            forall|k: int| i <= k < n ==> #[trigger] keep@[k] == stays(instrs@, *escapes, roots@, k),
            forall|v: u32| #[trigger]
                used@.contains(v) <==> needed(instrs@, *escapes, roots@, i as int, ValId(v)),
        decreases i,
    {
        let ghost u0 = used@;
        i = i - 1;
        let live = match defined(&instrs[i]) {
            Some(v) => {
                proof {
                    assert(v == ValId(v.0));
                    assert(used@.contains(v.0) <==> needed(instrs@, *escapes, roots@, i + 1, v));
                }
                used.contains(&v.0)
            },
            None => must_act(instrs, escapes, i),
        };
        keep.set(i, live);
        if live {
            let ops = operands_read(&instrs[i]);
            need(&mut used, &ops);
        }
        proof {
            assert(live == stays(instrs@, *escapes, roots@, i as int));
            assert forall|v: u32| #[trigger] used@.contains(v) <==> needed(
                instrs@,
                *escapes,
                roots@,
                i as int,
                ValId(v),
            ) by {
                assert(u0.contains(v) <==> needed(instrs@, *escapes, roots@, i + 1, ValId(v)));
            }
        }
    }
    keep
}

/// What the block's end needs once a comparison is absorbed by the branch.
pub open spec fn end_roots(b: SchedBlock, fused: Option<FusedCmp>) -> Seq<Operand> {
    sources(b.exits@) + match (fused, b.control) {
        (Some(f), _) => seq![f.a, f.b],
        (None, Some(c)) => seq![c],
        (None, None) => Seq::empty(),
    }
}

fn roots_of(b: &SchedBlock, fused: &Option<FusedCmp>) -> (v: Vec<Operand>)
    ensures
        v@ == end_roots(*b, *fused),
{
    let mut v: Vec<Operand> = Vec::new();
    let mut k: usize = 0;
    while k < b.exits.len()
        invariant
            k <= b.exits@.len(),
            v@ == sources(b.exits@).take(k as int),
        decreases b.exits@.len() - k,
    {
        v.push(b.exits[k].1);
        k = k + 1;
        proof {
            assert(v@ =~= sources(b.exits@).take(k as int));
        }
    }
    match fused {
        Some(f) => {
            v.push(f.a);
            v.push(f.b);
        },
        None => {
            if let Some(c) = &b.control {
                v.push(*c);
            }
        },
    }
    proof {
        assert(v@ =~= end_roots(*b, *fused));
    }
    v
}

/// Whether marks say what stays in a block.
pub open spec fn marks_stay(b: SchedBlock, escapes: FrameEscapes, fused: Option<FusedCmp>, keep: Seq<bool>) -> bool {
    keep.len() == b.instrs@.len() && forall|i: int|
        0 <= i < keep.len() ==> #[trigger] keep[i] == stays(b.instrs@, escapes, end_roots(b, fused), i)
}

/// A block with its masked sign tests rewritten.
pub open spec fn signs_rewritten(b: SchedBlock) -> Seq<Instr> {
    Seq::new(b.instrs@.len(), |i: int| sign_rewritten(b, b.instrs@[i]))
}

/// Whether a block is another with its dead code gone: masked sign tests rewritten, the
/// comparison the branch can absorb absorbed, and only what stays kept.
pub open spec fn without_dead(b: SchedBlock, escapes: FrameEscapes, after: SchedBlock, keep: Seq<bool>) -> bool {
    exists|mid: SchedBlock, f: Option<(int, FusedCmp)>|
        {
            &&& mid.instrs@ == signs_rewritten(b)
            &&& mid.exits == b.exits
            &&& mid.control == b.control
            &&& #[trigger] fusable_spec(mid, f)
            &&& after.fused == match f {
                Some((_, x)) => Some(x),
                None => b.fused,
            }
            &&& marks_stay(
                mid,
                escapes,
                match f {
                    Some((_, x)) => Some(x),
                    None => None,
                },
                keep,
            )
            &&& after.instrs@ == kept_of(signs_rewritten(b), keep)
        }
}

/// The code that was kept, position by position.
proof fn lemma_kept(instrs: Seq<Instr>, keep: Seq<bool>)
    requires
        keep.len() >= instrs.len(),
    ensures
        kept_of(instrs, keep).len() <= instrs.len(),
        forall|k: int|
            0 <= k < kept_of(instrs, keep).len() ==> #[trigger] has_source(instrs, keep, k),
        forall|k: int, l: int, i: int, j: int|
            0 <= k < l < kept_of(instrs, keep).len() && #[trigger] came_from(instrs, keep, k, i)
                && #[trigger] came_from(instrs, keep, l, j) ==> i < j,
        forall|i: int|
            0 <= i < instrs.len() && keep[i] ==> #[trigger] has_place(instrs, keep, i),
    decreases instrs.len(),
{
    if instrs.len() > 0 {
        let rest = instrs.drop_last();
        let last = instrs.len() - 1;
        lemma_kept(rest, keep);
        let old_kept = kept_of(rest, keep);
        let new_kept = kept_of(instrs, keep);
        assert forall|k: int, i: int| #[trigger] came_from(rest, keep, k, i) implies came_from(
            instrs,
            keep,
            k,
            i,
        ) by {
            assert(rest[i] == instrs[i]);
            lemma_count(keep, i);
            assert(new_kept[k] == old_kept[k]);
        }
        lemma_count_len(rest, keep);
        lemma_count(keep, last);
        if keep[last] {
            assert(came_from(instrs, keep, old_kept.len() as int, last));
        }
        assert forall|k: int| 0 <= k < new_kept.len() implies #[trigger] has_source(instrs, keep, k) by {
            if k < old_kept.len() {
                assert(has_source(rest, keep, k));
                let i = choose|i: int| #[trigger] came_from(rest, keep, k, i);
                assert(came_from(instrs, keep, k, i));
            }
        }
        assert forall|k: int, l: int, i: int, j: int|
            0 <= k < l < new_kept.len() && #[trigger] came_from(instrs, keep, k, i)
                && #[trigger] came_from(instrs, keep, l, j) implies i < j by {
            if j <= i {
                lemma_count_grows(keep, j, i);
            }
        }
        assert forall|i: int| 0 <= i < instrs.len() && keep[i] implies #[trigger] has_place(
            instrs,
            keep,
            i,
        ) by {
            if i < last {
                assert(has_place(rest, keep, i));
                let k = choose|k: int| #[trigger] came_from(rest, keep, k, i);
                assert(came_from(instrs, keep, k, i));
            }
        }
    }
}

/// How many of the first `i` instructions are kept.
spec fn count(keep: Seq<bool>, i: int) -> int
    decreases i,
{
    if i <= 0 {
        0
    } else {
        count(keep, i - 1) + if keep[i - 1] {
            1int
        } else {
            0int
        }
    }
}

/// Whether the instruction at `k` of what was kept is the one at `i`.
spec fn came_from(instrs: Seq<Instr>, keep: Seq<bool>, k: int, i: int) -> bool {
    0 <= i < instrs.len() && keep[i] && k == count(keep, i) && k < kept_of(instrs, keep).len() && kept_of(
        instrs,
        keep,
    )[k] == instrs[i]
}

spec fn has_source(instrs: Seq<Instr>, keep: Seq<bool>, k: int) -> bool {
    exists|i: int| #[trigger] came_from(instrs, keep, k, i)
}

spec fn has_place(instrs: Seq<Instr>, keep: Seq<bool>, i: int) -> bool {
    exists|k: int| #[trigger] came_from(instrs, keep, k, i)
}

proof fn lemma_count(keep: Seq<bool>, i: int)
    ensures
        count(keep, i) >= 0,
    decreases i,
{
    if i > 0 {
        lemma_count(keep, i - 1);
    }
}

proof fn lemma_count_len(instrs: Seq<Instr>, keep: Seq<bool>)
    ensures
        count(keep, instrs.len() as int) == kept_of(instrs, keep).len(),
    decreases instrs.len(),
{
    if instrs.len() > 0 {
        lemma_count_len(instrs.drop_last(), keep);
    }
}

proof fn lemma_count_grows(keep: Seq<bool>, i: int, j: int)
    requires
        0 <= i <= j,
    ensures
        count(keep, i) <= count(keep, j),
        i < j && keep[i] ==> count(keep, i) < count(keep, j),
    decreases j,
{
    if i < j {
        lemma_count_grows(keep, i, j - 1);
    }
}

proof fn lemma_needed(
    instrs: Seq<Instr>,
    escapes: FrameEscapes,
    roots: Seq<Operand>,
    j: int,
    i: int,
    v: ValId,
)
    requires
        0 <= j <= i,
        (i < instrs.len() && stays(instrs, escapes, roots, i) && reads_value(reads(instrs[i]), v)) || (
        i >= instrs.len() && reads_value(roots, v)),
    ensures
        needed(instrs, escapes, roots, j, v),
    decreases i - j,
{
    if j < i {
        lemma_needed(instrs, escapes, roots, j + 1, i, v);
    }
}

/// Dropping instructions that define nothing keeps code in sequence, and every value defined.
pub proof fn lemma_dropped_ok(instrs: Seq<Instr>, keep: Seq<bool>)
    requires
        code_ok(instrs),
        keep.len() == instrs.len(),
        forall|i: int| 0 <= i < keep.len() && !#[trigger] keep[i] ==> defines(instrs[i]) is None,
    ensures
        code_ok(kept_of(instrs, keep)),
        forall|v: ValId| #[trigger]
            defined_in(instrs, instrs.len() as int, v) ==> defined_in(
                kept_of(instrs, keep),
                kept_of(instrs, keep).len() as int,
                v,
            ),
{
    let after = kept_of(instrs, keep);
    lemma_kept(instrs, keep);
    lemma_count_len(instrs, keep);
    assert forall|k: int| 0 <= k < after.len() implies small_frames(#[trigger] after[k])
        && reads_window(after[k]) && inputs_defined(after, k, after[k]) && (defines(
        after[k],
    ) matches Some(v) ==> v.0 < u32::MAX) by {
        assert(has_source(instrs, keep, k));
        let i = choose|i: int| #[trigger] came_from(instrs, keep, k, i);
        assert(after[k] == instrs[i]);
        assert forall|v: ValId| #[trigger] reads_value(reads(after[k]), v) implies defined_in(
            after,
            k,
            v,
        ) by {
            assert(inputs_defined(instrs, i, instrs[i]));
            assert(reads_value(reads(instrs[i]), v));
            assert(defined_in(instrs, i, v));
            let j = choose|j: int|
                0 <= j < i && j < instrs.len() && defines(#[trigger] instrs[j]) == Some(v);
            assert(keep[j]);
            assert(has_place(instrs, keep, j));
            let l = choose|l: int| #[trigger] came_from(instrs, keep, l, j);
            lemma_count_grows(keep, j, i);
            lemma_count(keep, j);
            assert(after[l] == instrs[j]);
            assert(l < k);
        }
    }
    assert forall|k: int, l: int| 0 <= k < l < after.len() implies (defines(
        #[trigger] after[k],
    ) matches Some(v) ==> (defines(#[trigger] after[l]) matches Some(w) ==> v.0 < w.0)) by {
        assert(has_source(instrs, keep, k) && has_source(instrs, keep, l));
        let i = choose|i: int| #[trigger] came_from(instrs, keep, k, i);
        let j = choose|j: int| #[trigger] came_from(instrs, keep, l, j);
        assert(i < j);
        assert(after[k] == instrs[i] && after[l] == instrs[j]);
    }
    assert forall|v: ValId| #[trigger] defined_in(instrs, instrs.len() as int, v) implies defined_in(
        after,
        after.len() as int,
        v,
    ) by {
        let n = instrs.len() as int;
        let j = choose|j: int|
            0 <= j < n && j < instrs.len() && defines(#[trigger] instrs[j]) == Some(v);
        assert(keep[j]);
        assert(has_place(instrs, keep, j));
        let l = choose|l: int| #[trigger] came_from(instrs, keep, l, j);
        lemma_count(keep, j);
        assert(after[l] == instrs[j]);
    }
}

/// Dropping dead code keeps code in sequence, and defined what its end needs.
proof fn lemma_dead_ok(instrs: Seq<Instr>, escapes: FrameEscapes, roots: Seq<Operand>, keep: Seq<bool>)
    requires
        in_sequence(instrs, u32::MAX),
        keep.len() == instrs.len(),
        forall|i: int| 0 <= i < keep.len() ==> #[trigger] keep[i] == stays(instrs, escapes, roots, i),
        forall|v: ValId| #[trigger] reads_value(roots, v) ==> defined_in(instrs, instrs.len() as int, v),
        forall|i: int| 0 <= i < instrs.len() ==> small_frames(#[trigger] instrs[i]) && reads_window(instrs[i]),
    ensures
        in_sequence(kept_of(instrs, keep), u32::MAX),
        forall|v: ValId| #[trigger]
            reads_value(roots, v) ==> defined_in(
                kept_of(instrs, keep),
                kept_of(instrs, keep).len() as int,
                v,
            ),
        forall|k: int|
            0 <= k < kept_of(instrs, keep).len() ==> small_frames(#[trigger] kept_of(instrs, keep)[k])
                && reads_window(kept_of(instrs, keep)[k]),
{
    let after = kept_of(instrs, keep);
    lemma_kept(instrs, keep);
    lemma_count_len(instrs, keep);
    assert forall|k: int| 0 <= k < after.len() implies small_frames(#[trigger] after[k]) && reads_window(
        after[k],
    ) && inputs_defined(after, k, after[k]) && (defines(after[k]) matches Some(v) ==> v.0 < u32::MAX) by {
        assert(has_source(instrs, keep, k));
        let i = choose|i: int| #[trigger] came_from(instrs, keep, k, i);
        assert(after[k] == instrs[i]);
        assert(keep[i] == stays(instrs, escapes, roots, i));
        assert forall|v: ValId| #[trigger] reads_value(reads(after[k]), v) implies defined_in(after, k, v) by {
            assert(inputs_defined(instrs, i, instrs[i]));
            assert(reads_value(reads(instrs[i]), v));
            assert(defined_in(instrs, i, v));
            let j = choose|j: int| 0 <= j < i && j < instrs.len() && defines(#[trigger] instrs[j]) == Some(v);
            lemma_needed(instrs, escapes, roots, j + 1, i, v);
            assert(stays(instrs, escapes, roots, j));
            assert(keep[j]);
            assert(has_place(instrs, keep, j));
            let l = choose|l: int| #[trigger] came_from(instrs, keep, l, j);
            lemma_count_grows(keep, j, i);
            lemma_count(keep, j);
            assert(after[l] == instrs[j]);
            assert(l < k);
        }
    }
    assert forall|k: int, l: int| 0 <= k < l < after.len() implies (defines(#[trigger] after[k]) matches Some(
        v,
    ) ==> (defines(#[trigger] after[l]) matches Some(w) ==> v.0 < w.0)) by {
        assert(has_source(instrs, keep, k) && has_source(instrs, keep, l));
        let i = choose|i: int| #[trigger] came_from(instrs, keep, k, i);
        let j = choose|j: int| #[trigger] came_from(instrs, keep, l, j);
        assert(i < j);
        assert(after[k] == instrs[i] && after[l] == instrs[j]);
    }
    assert forall|v: ValId| #[trigger] reads_value(roots, v) implies defined_in(
        after,
        after.len() as int,
        v,
    ) by {
        let n = instrs.len() as int;
        assert(defined_in(instrs, n, v));
        let j = choose|j: int| 0 <= j < n && j < instrs.len() && defines(#[trigger] instrs[j]) == Some(v);
        lemma_needed(instrs, escapes, roots, j + 1, n, v);
        assert(stays(instrs, escapes, roots, j));
        assert(keep[j]);
        assert(has_place(instrs, keep, j));
        let l = choose|l: int| #[trigger] came_from(instrs, keep, l, j);
        lemma_count(keep, j);
        assert(after[l] == instrs[j]);
    }
}

/// Rewriting masked sign tests keeps a block in order.
proof fn lemma_signs_ok(b: SchedBlock, mid: SchedBlock)
    requires
        sched_ok(b),
        mid.instrs@ == signs_rewritten(b),
        mid.exits == b.exits,
        mid.control == b.control,
        mid.fused == b.fused,
    ensures
        sched_ok(mid),
{
    let a = b.instrs@;
    let c = mid.instrs@;
    assert forall|i: int| 0 <= i < a.len() implies defines(#[trigger] c[i]) == defines(a[i])
        && small_frames(c[i]) && reads_window(c[i]) && (forall|v: ValId| #[trigger]
        reads_value(reads(c[i]), v) ==> reads_value(reads(a[i]), v) || defined_in(a, i, v)) by {
        assert(c[i] == sign_rewritten(b, a[i]));
        assert(small_frames(a[i]) && reads_window(a[i]));
        if let Some(x) = sign_tested(b, a[i]) {
            lemma_sign_source(b, i);
        }
    }
    lemma_pointwise(a, c);
    assert(kept(mid) =~= kept(b));
    assert forall|k: int| 0 <= k < kept(mid).len() implies operand_ready(c, #[trigger] kept(mid)[k])
        && in_window(kept(mid)[k]) by {
        assert(operand_ready(a, kept(b)[k]) && in_window(kept(b)[k]));
    }
}

proof fn lemma_bin_upto(instrs: Seq<Instr>, v: ValId, k: int)
    requires
        0 <= k <= instrs.len(),
    ensures
        crate::ir::passes::bin_upto(instrs, v, k) matches Some((op, x, y, w)) ==> exists|j: int|
            0 <= j < k && (#[trigger] instrs[j] matches Instr::Bin { dst, a, b, .. } && dst == v && a == x
                && b == y),
    decreases k,
{
    if k > 0 {
        lemma_bin_upto(instrs, v, k - 1);
        if let Some((op, x, y, w)) = crate::ir::passes::bin_upto(instrs, v, k) {
            if !(instrs[k - 1] matches Instr::Bin { dst, .. } && dst == v) {
                let j = choose|j: int|
                    0 <= j < k - 1 && (#[trigger] instrs[j] matches Instr::Bin { dst, a, b, .. } && dst
                        == v && a == x && b == y);
                assert(instrs[j] is Bin);
            }
        }
    }
}

/// What a rewritten sign test reads is defined before it.
proof fn lemma_sign_source(b: SchedBlock, i: int)
    requires
        sched_ok(b),
        0 <= i < b.instrs@.len(),
        sign_tested(b, b.instrs@[i]) is Some,
    ensures
        reads_window(sign_rewritten(b, b.instrs@[i])),
        forall|v: ValId| #[trigger]
            reads_value(reads(sign_rewritten(b, b.instrs@[i])), v) ==> defined_in(b.instrs@, i, v),
{
    let a = b.instrs@;
    let x = sign_tested(b, a[i])->0;
    let c = sign_rewritten(b, a[i]);
    assert(a[i] is Bin);
    let p = a[i]->Bin_a;
    let q = a[i]->Bin_b;
    let w = a[i]->operand_width;
    let v = crate::ir::passes::beside(p, q, w.sign_bit())->0->Val_0;
    assert(reads(a[i])[0] == p && reads(a[i])[1] == q);
    assert(reads_value(reads(a[i]), v)) by {
        assert(p == Operand::Val(v) || q == Operand::Val(v));
        assert(reads(a[i]).contains(Operand::Val(v)));
    }
    assert(inputs_defined(a, i, a[i]));
    assert(defined_in(a, i, v));
    lemma_bin_upto(a, v, a.len() as int);
    let t = crate::ir::passes::bin_upto(a, v, a.len() as int)->0;
    let j = choose|j: int|
        0 <= j < a.len() && (#[trigger] a[j] matches Instr::Bin { dst, a: y, b: z, .. } && dst == v && y
            == t.1 && z == t.2);
    assert(defines(a[j]) == Some(v));
    lemma_one_def(a, v, j, i);
    assert(reads(a[j])[0] == t.1 && reads(a[j])[1] == t.2);
    assert(reads_window(a[j]));
    assert(in_window(reads(a[j])[0]) && in_window(reads(a[j])[1]));
    assert(x == t.1 || x == t.2);
    assert forall|k: int| 0 <= k < reads(c).len() implies in_window(#[trigger] reads(c)[k]) by {}
    assert forall|u: ValId| #[trigger] reads_value(reads(c), u) implies defined_in(a, i, u) by {
        let k = choose|k: int| 0 <= k < reads(c).len() && reads(c)[k] == Operand::Val(u);
        assert(x == Operand::Val(u));
        assert(reads(a[j]).contains(Operand::Val(u))) by {
            if x == t.1 {
                assert(reads(a[j])[0] == Operand::Val(u));
            } else {
                assert(reads(a[j])[1] == Operand::Val(u));
            }
        }
        assert(reads_value(reads(a[j]), u));
        assert(inputs_defined(a, j, a[j]));
        assert(defined_in(a, j, u));
        let m = choose|m: int| 0 <= m < j && m < a.len() && defines(#[trigger] a[m]) == Some(u);
        assert(defines(a[m]) == Some(u));
    }
}

/// Remove the dead code of a block, told which frame slots a callee may read, and return how
/// many instructions went.
pub fn eliminate_dead_with(b: &mut SchedBlock, escapes: &FrameEscapes) -> (n: usize)
    requires
        frames_ok(*old(b)),
    ensures
        exists|keep: Seq<bool>| #[trigger]
            without_dead(*old(b), *escapes, *final(b), keep) && n == unmarked(keep),
        final(b).id == old(b).id,
        final(b).exits == old(b).exits,
        final(b).callee_set == old(b).callee_set,
        final(b).control == old(b).control,
        final(b).terminator == old(b).terminator,
        sched_ok(*old(b)) && old(b).fused is None ==> sched_ok(*final(b)),
        n == old(b).instrs@.len() - final(b).instrs@.len(),
{
    let ghost b0 = *b;
    rewrite_masked_sign_tests(b);
    let ghost mid = *b;
    proof {
        assert(mid.instrs@ =~= signs_rewritten(b0));
        assert forall|i: int| 0 <= i < mid.instrs@.len() implies frame_safe(#[trigger] mid.instrs@[i]) by {
            assert(mid.instrs@[i] == sign_rewritten(b0, b0.instrs@[i]));
            assert(small_frames(b0.instrs@[i]));
        }
    }
    let found = fusable(b);
    let fused = match found {
        Some((_, f)) => Some(f),
        None => None,
    };
    let ghost f = match found {
        Some((at, x)) => Some((at as int, x)),
        None => None,
    };
    let roots = roots_of(b, &fused);
    let keep = mark(&b.instrs, escapes, &roots);
    let before: usize = b.instrs.len();
    if fused.is_some() {
        b.fused = fused;
    }
    retain(&mut b.instrs, &keep);
    proof {
        lemma_unmarked(mid.instrs@, keep@);
        assert(fusable_spec(mid, f));
        assert(marks_stay(mid, *escapes, fused, keep@));
        assert(without_dead(b0, *escapes, *b, keep@));
        if sched_ok(b0) && b0.fused is None {
            lemma_signs_ok(b0, mid);
            let end = end_roots(mid, fused);
            assert forall|v: ValId| #[trigger] reads_value(end, v) implies defined_in(
                mid.instrs@,
                mid.instrs@.len() as int,
                v,
            ) by {
                lemma_end_ready(mid, f, v);
            }
            assert forall|i: int| 0 <= i < mid.instrs@.len() implies small_frames(#[trigger] mid.instrs@[i])
                && reads_window(mid.instrs@[i]) by {}
            lemma_dead_ok(mid.instrs@, *escapes, end, keep@);
            assert(kept(*b) =~= end);
            assert forall|k: int| 0 <= k < kept(*b).len() implies operand_ready(
                b.instrs@,
                #[trigger] kept(*b)[k],
            ) && in_window(kept(*b)[k]) by {
                let o = kept(*b)[k];
                if let Operand::Val(v) = o {
                    assert(end[k] == o);
                    assert(reads_value(end, v));
                }
                lemma_end_window(mid, f, k);
            }
        }
    }
    before - b.instrs.len()
}

proof fn lemma_unmarked(instrs: Seq<Instr>, keep: Seq<bool>)
    requires
        keep.len() == instrs.len(),
    ensures
        unmarked(keep) + kept_of(instrs, keep).len() == instrs.len(),
    decreases instrs.len(),
{
    if instrs.len() > 0 {
        lemma_unmarked(instrs.drop_last(), keep.drop_last());
        lemma_kept_ext(instrs.drop_last(), keep, keep.drop_last());
    }
}

proof fn lemma_kept_ext(instrs: Seq<Instr>, a: Seq<bool>, b: Seq<bool>)
    requires
        forall|i: int| 0 <= i < instrs.len() ==> #[trigger] a[i] == b[i],
    ensures
        kept_of(instrs, a) == kept_of(instrs, b),
    decreases instrs.len(),
{
    if instrs.len() > 0 {
        lemma_kept_ext(instrs.drop_last(), a, b);
        assert(a[instrs.len() - 1] == b[instrs.len() - 1]);
    }
}

/// What the end of a block needs once a comparison is absorbed is defined.
proof fn lemma_end_ready(mid: SchedBlock, f: Option<(int, FusedCmp)>, v: ValId)
    requires
        sched_ok(mid),
        mid.fused is None,
        fusable_spec(mid, f),
        reads_value(
            end_roots(
                mid,
                match f {
                    Some((_, x)) => Some(x),
                    None => None,
                },
            ),
            v,
        ),
    ensures
        defined_in(mid.instrs@, mid.instrs@.len() as int, v),
{
    let n = sources(mid.exits@).len();
    let fused = match f {
        Some((_, x)) => Some(x),
        None => None,
    };
    let end = end_roots(mid, fused);
    let k = choose|k: int| 0 <= k < end.len() && end[k] == Operand::Val(v);
    if k < n || f is None {
        assert(kept(mid)[k] == end[k]);
        assert(operand_ready(mid.instrs@, kept(mid)[k]));
    } else {
        let at = (f->0).0;
        let i = mid.instrs@[at];
        assert(reads(i)[k - n] == Operand::Val(v));
        assert(reads(i).contains(Operand::Val(v)));
        assert(reads_value(reads(i), v));
        assert(inputs_defined(mid.instrs@, at, i));
        assert(defined_in(mid.instrs@, at, v));
        let j = choose|j: int|
            0 <= j < at && j < mid.instrs@.len() && defines(#[trigger] mid.instrs@[j]) == Some(v);
        assert(defines(mid.instrs@[j]) == Some(v));
    }
}

proof fn lemma_end_window(mid: SchedBlock, f: Option<(int, FusedCmp)>, k: int)
    requires
        sched_ok(mid),
        mid.fused is None,
        fusable_spec(mid, f),
        0 <= k < end_roots(
            mid,
            match f {
                Some((_, x)) => Some(x),
                None => None,
            },
        ).len(),
    ensures
        in_window(
            end_roots(
                mid,
                match f {
                    Some((_, x)) => Some(x),
                    None => None,
                },
            )[k],
        ),
{
    let n = sources(mid.exits@).len();
    let fused = match f {
        Some((_, x)) => Some(x),
        None => None,
    };
    let end = end_roots(mid, fused);
    if k < n || f is None {
        assert(kept(mid)[k] == end[k]);
        assert(in_window(kept(mid)[k]));
    } else {
        let at = (f->0).0;
        let i = mid.instrs@[at];
        assert(reads_window(i));
        assert(reads(i)[k - n] == end[k]);
        assert(in_window(reads(i)[k - n]));
    }
}

/// Remove the dead code of a block, with every frame slot readable by a callee.
pub fn eliminate_dead(b: &mut SchedBlock) -> (n: usize)
    requires
        frames_ok(*old(b)),
    ensures
        exists|escapes: FrameEscapes, keep: Seq<bool>| #[trigger]
            without_dead(*old(b), escapes, *final(b), keep) && n == unmarked(keep) && forall|k: i64| #[trigger]
            escapes.escapes(k),
        final(b).id == old(b).id,
        final(b).exits == old(b).exits,
        final(b).callee_set == old(b).callee_set,
        final(b).control == old(b).control,
        final(b).terminator == old(b).terminator,
        sched_ok(*old(b)) && old(b).fused is None ==> sched_ok(*final(b)),
        n == old(b).instrs@.len() - final(b).instrs@.len(),
{
    let escapes = FrameEscapes::conservative();
    let ghost b0 = *b;
    let n = eliminate_dead_with(b, &escapes);
    proof {
        let keep = choose|keep: Seq<bool>| #[trigger] without_dead(b0, escapes, *b, keep) && n == unmarked(keep);
        assert(without_dead(b0, escapes, *b, keep));
    }
    n
}

} // verus!
