//! What a block reads of its frame does not depend on the stores that are dropped.

use crate::ir::dead::{acts, needed, overwritten_frame, stays};
use crate::ir::frame::{
    in_run, marks_write_only, read_bytes, write_only, FrameEscapes, FrameReads,
};
use crate::ir::instr::{defines, reads, reads_value, Instr, Operand, ValId};
use crate::ir::narrow::byte_of;
use vstd::prelude::*;

verus! {

/// The bytes of the frame after instruction `at`, given those before it. `value` gives what
/// operands hold, and `other` what a call or an instruction kept as it is makes of the frame. A
/// frame slot is local to the activation, so a store through an address leaves it alone.
pub open spec fn frame_after(
    i: Instr,
    at: int,
    value: spec_fn(Operand) -> u64,
    other: spec_fn(int, spec_fn(int) -> u64) -> (spec_fn(int) -> u64),
    m: spec_fn(int) -> u64,
) -> spec_fn(int) -> u64 {
    match i {
        Instr::Store { addr: Operand::Frame(o), value: v, disp, width } => |p: int|
            if o + disp <= p < o + disp + width.bytes() {
                byte_of(value(v), p - (o + disp))
            } else {
                m(p)
            },
        Instr::Call { .. } => other(at, m),
        Instr::Boxed { .. } => other(at, m),
        _ => m,
    }
}

/// The bytes of the frame before instruction `k`, with only the instructions that are marked
/// carried out.
pub open spec fn frame_at(
    instrs: Seq<Instr>,
    keep: Seq<bool>,
    value: spec_fn(Operand) -> u64,
    other: spec_fn(int, spec_fn(int) -> u64) -> (spec_fn(int) -> u64),
    start: spec_fn(int) -> u64,
    k: int,
) -> spec_fn(int) -> u64
    decreases k,
{
    if k <= 0 {
        start
    } else {
        let m = frame_at(instrs, keep, value, other, start, k - 1);
        if keep[k - 1] {
            frame_after(instrs[k - 1], k - 1, value, other, m)
        } else {
            m
        }
    }
}

/// Every instruction is marked.
pub open spec fn all_kept(n: nat) -> Seq<bool> {
    Seq::new(n, |i: int| true)
}

/// A call, or an instruction kept as it is, sees and changes only the bytes of the frame that
/// escape, and those of its own memory operand.
pub open spec fn within_reach(
    instrs: Seq<Instr>,
    escapes: FrameEscapes,
    other: spec_fn(int, spec_fn(int) -> u64) -> (spec_fn(int) -> u64),
) -> bool {
    &&& forall|k: int, a: spec_fn(int) -> u64, p: int|
        0 <= k < instrs.len() && !in_reach(instrs[k], escapes, p) ==> #[trigger] other(k, a)(p) == a(
            p,
        )
    &&& forall|k: int, a: spec_fn(int) -> u64, b: spec_fn(int) -> u64, p: int|
        0 <= k < instrs.len() && in_reach(instrs[k], escapes, p) && same_in_reach(
            instrs[k],
            escapes,
            a,
            b,
        ) ==> #[trigger] other(k, a)(p) == #[trigger] other(k, b)(p)
}

/// Whether a call, or an instruction kept as it is, may see a byte of the frame.
pub open spec fn in_reach(i: Instr, escapes: FrameEscapes, p: int) -> bool {
    byte_escapes(escapes, p) || (read_bytes(i) matches Some((lo, hi)) && lo <= p < hi)
}

/// Whether a callee may see a byte of the frame.
pub open spec fn byte_escapes(escapes: FrameEscapes, p: int) -> bool {
    i64::MIN <= p <= i64::MAX && escapes.escapes(p as i64)
}

/// Whether two frames agree on what an instruction may see.
pub open spec fn same_in_reach(
    i: Instr,
    escapes: FrameEscapes,
    a: spec_fn(int) -> u64,
    b: spec_fn(int) -> u64,
) -> bool {
    forall|p: int| in_reach(i, escapes, p) ==> #[trigger] a(p) == b(p)
}

/// The bytes of a frame store that is dropped because later ones overwrite it.
spec fn pending(instrs: Seq<Instr>, escapes: FrameEscapes, keep: Seq<bool>, k: int, p: int, i: int) -> bool {
    0 <= i < k && !keep[i] && (instrs[i] matches Instr::Store { addr: Operand::Frame(o), disp, width, .. }
        && o + disp <= p < o + disp + width.bytes() && overwritten_frame(
        instrs,
        escapes,
        k,
        o + disp,
        width.bytes() as int,
    ))
}

/// Where the frame differs, an overwritten store was dropped.
proof fn lemma_pending(
    instrs: Seq<Instr>,
    escapes: FrameEscapes,
    roots: Seq<Operand>,
    keep: Seq<bool>,
    value: spec_fn(Operand) -> u64,
    other: spec_fn(int, spec_fn(int) -> u64) -> (spec_fn(int) -> u64),
    start: spec_fn(int) -> u64,
    k: int,
)
    requires
        keep.len() == instrs.len(),
        0 <= k <= instrs.len(),
        forall|i: int| 0 <= i < keep.len() ==> #[trigger] keep[i] == stays(instrs, escapes, roots, i),
        within_reach(instrs, escapes, other),
        forall|i: int| 0 <= i < instrs.len() ==> crate::ir::anchor::small_frames(#[trigger] instrs[i]),
    ensures
        forall|p: int|
            #![trigger frame_at(instrs, keep, value, other, start, k)(p)]
            frame_at(instrs, keep, value, other, start, k)(p) != frame_at(
                instrs,
                all_kept(instrs.len()),
                value,
                other,
                start,
                k,
            )(p) ==> exists|i: int| #[trigger] pending(instrs, escapes, keep, k, p, i),
    decreases k,
{
    let all = all_kept(instrs.len());
    if k > 0 {
        lemma_pending(instrs, escapes, roots, keep, value, other, start, k - 1);
        let a = frame_at(instrs, keep, value, other, start, k - 1);
        let b = frame_at(instrs, all, value, other, start, k - 1);
        let a1 = frame_at(instrs, keep, value, other, start, k);
        let b1 = frame_at(instrs, all, value, other, start, k);
        let at = k - 1;
        assert(all[at]);
        assert(crate::ir::anchor::small_frames(instrs[at]));
        assert(keep[at] == stays(instrs, escapes, roots, at));
        assert forall|p: int| #[trigger] a1(p) != b1(p) implies exists|i: int| #[trigger]
            pending(instrs, escapes, keep, k, p, i) by {
            match instrs[at] {
                Instr::Store { addr: Operand::Frame(o), disp, width, .. } => {
                    if o + disp <= p < o + disp + width.bytes() {
                        assert(!keep[at]);
                        assert(!acts(instrs, escapes, at));
                        assert(pending(instrs, escapes, keep, k, p, at));
                    } else {
                        let i = choose|i: int| #[trigger] pending(instrs, escapes, keep, at, p, i);
                        assert(pending(instrs, escapes, keep, at, p, i));
                        assert(pending(instrs, escapes, keep, k, p, i));
                    }
                },
                Instr::Call { .. } => {
                    lemma_call(instrs, escapes, keep, other, a, b, at, p);
                },
                Instr::Boxed { .. } => {
                    lemma_call(instrs, escapes, keep, other, a, b, at, p);
                },
                _ => {
                    assert(a(p) != b(p));
                    let i = choose|i: int| #[trigger] pending(instrs, escapes, keep, at, p, i);
                    assert(pending(instrs, escapes, keep, at, p, i));
                    assert(pending(instrs, escapes, keep, k, p, i));
                },
            }
        }
    }
}

proof fn lemma_call(
    instrs: Seq<Instr>,
    escapes: FrameEscapes,
    keep: Seq<bool>,
    other: spec_fn(int, spec_fn(int) -> u64) -> (spec_fn(int) -> u64),
    a: spec_fn(int) -> u64,
    b: spec_fn(int) -> u64,
    at: int,
    p: int,
)
    requires
        0 <= at < instrs.len(),
        instrs[at] is Call || instrs[at] is Boxed,
        within_reach(instrs, escapes, other),
        forall|i: int| 0 <= i < instrs.len() ==> crate::ir::anchor::small_frames(#[trigger] instrs[i]),
        forall|q: int|
            #![trigger a(q)]
            a(q) != b(q) ==> exists|i: int| #[trigger] pending(instrs, escapes, keep, at, q, i),
        other(at, a)(p) != other(at, b)(p),
    ensures
        exists|i: int| #[trigger] pending(instrs, escapes, keep, at + 1, p, i),
{
    assert forall|q: int| in_reach(instrs[at], escapes, q) implies #[trigger] a(q) == b(q) by {
        if a(q) != b(q) {
            let i = choose|i: int| #[trigger] pending(instrs, escapes, keep, at, q, i);
            assert(pending(instrs, escapes, keep, at, q, i));
            if byte_escapes(escapes, q) {
                let x = q as i64;
                assert(escapes.escapes(x));
            }
        }
    }
    assert(same_in_reach(instrs[at], escapes, a, b));
    assert(a(p) != b(p));
    let i = choose|i: int| #[trigger] pending(instrs, escapes, keep, at, p, i);
    assert(pending(instrs, escapes, keep, at, p, i));
    assert(pending(instrs, escapes, keep, at + 1, p, i));
}

/// What something that stays reads further on is needed.
proof fn lemma_needed_before(
    instrs: Seq<Instr>,
    escapes: FrameEscapes,
    roots: Seq<Operand>,
    i: int,
    j: int,
    v: ValId,
)
    requires
        0 <= i <= j <= instrs.len(),
        needed(instrs, escapes, roots, j, v),
    ensures
        needed(instrs, escapes, roots, i, v),
    decreases j - i,
{
    if i < j {
        lemma_needed_before(instrs, escapes, roots, i + 1, j, v);
    }
}

/// An instruction stays if one that stays, or the end of the block, reads its value: dropping
/// dead code takes no value from anything that is kept.
pub proof fn what_is_read_is_kept(
    instrs: Seq<Instr>,
    escapes: FrameEscapes,
    roots: Seq<Operand>,
    i: int,
    j: int,
    v: ValId,
)
    requires
        0 <= i < j <= instrs.len(),
        defines(instrs[i]) == Some(v),
        if j < instrs.len() {
            stays(instrs, escapes, roots, j) && reads_value(reads(instrs[j]), v)
        } else {
            reads_value(roots, v)
        },
    ensures
        stays(instrs, escapes, roots, i),
{
    assert(needed(instrs, escapes, roots, j, v));
    lemma_needed_before(instrs, escapes, roots, i + 1, j, v);
}

/// A load from the frame reads, of every byte, what it read before dead stores were dropped;
/// so does a callee of what it may see, and an instruction kept as it is of its own memory
/// operand too.
pub proof fn dead_stores_are_not_missed(
    instrs: Seq<Instr>,
    escapes: FrameEscapes,
    roots: Seq<Operand>,
    keep: Seq<bool>,
    value: spec_fn(Operand) -> u64,
    other: spec_fn(int, spec_fn(int) -> u64) -> (spec_fn(int) -> u64),
    start: spec_fn(int) -> u64,
    k: int,
    p: int,
)
    requires
        keep.len() == instrs.len(),
        0 <= k < instrs.len(),
        forall|i: int| 0 <= i < keep.len() ==> #[trigger] keep[i] == stays(instrs, escapes, roots, i),
        within_reach(instrs, escapes, other),
        forall|i: int| 0 <= i < instrs.len() ==> crate::ir::anchor::small_frames(#[trigger] instrs[i]),
        ({
            ||| (instrs[k] matches Instr::Load { addr: Operand::Frame(o), disp, width, .. } && o + disp
                <= p < o + disp + width.bytes())
            ||| (instrs[k] is Call || instrs[k] is Boxed) && in_reach(instrs[k], escapes, p)
        }),
    ensures
        frame_at(instrs, keep, value, other, start, k)(p) == frame_at(
            instrs,
            all_kept(instrs.len()),
            value,
            other,
            start,
            k,
        )(p),
{
    lemma_pending(instrs, escapes, roots, keep, value, other, start, k);
    if frame_at(instrs, keep, value, other, start, k)(p) != frame_at(
        instrs,
        all_kept(instrs.len()),
        value,
        other,
        start,
        k,
    )(p) {
        let i = choose|i: int| #[trigger] pending(instrs, escapes, keep, k, p, i);
        assert(pending(instrs, escapes, keep, k, p, i));
        assert(crate::ir::anchor::small_frames(instrs[i]));
        if byte_escapes(escapes, p) {
            let x = p as i64;
            assert(escapes.escapes(x));
        }
    }
}

/// At the end of a block the frame differs only in stores that are still to be overwritten,
/// of which there are none: what a block leaves in its frame does not depend on the stores
/// that are dropped.
pub proof fn dead_stores_leave_the_same_frame(
    instrs: Seq<Instr>,
    escapes: FrameEscapes,
    roots: Seq<Operand>,
    keep: Seq<bool>,
    value: spec_fn(Operand) -> u64,
    other: spec_fn(int, spec_fn(int) -> u64) -> (spec_fn(int) -> u64),
    start: spec_fn(int) -> u64,
    p: int,
)
    requires
        keep.len() == instrs.len(),
        forall|i: int| 0 <= i < keep.len() ==> #[trigger] keep[i] == stays(instrs, escapes, roots, i),
        within_reach(instrs, escapes, other),
        forall|i: int| 0 <= i < instrs.len() ==> crate::ir::anchor::small_frames(#[trigger] instrs[i]),
    ensures
        frame_at(instrs, keep, value, other, start, instrs.len() as int)(p) == frame_at(
            instrs,
            all_kept(instrs.len()),
            value,
            other,
            start,
            instrs.len() as int,
        )(p),
{
    lemma_pending(instrs, escapes, roots, keep, value, other, start, instrs.len() as int);
    if frame_at(instrs, keep, value, other, start, instrs.len() as int)(p) != frame_at(
        instrs,
        all_kept(instrs.len()),
        value,
        other,
        start,
        instrs.len() as int,
    )(p) {
        let i = choose|i: int| #[trigger] pending(instrs, escapes, keep, instrs.len() as int, p, i);
        assert(pending(instrs, escapes, keep, instrs.len() as int, p, i));
    }
}

/// Every byte that some block reads, and every byte that may escape, holds at each point what
/// it held before the stores nothing reads were dropped.
pub proof fn write_only_stores_are_not_missed(
    instrs: Seq<Instr>,
    reads: FrameReads,
    escapes: FrameEscapes,
    keep: Seq<bool>,
    value: spec_fn(Operand) -> u64,
    other: spec_fn(int, spec_fn(int) -> u64) -> (spec_fn(int) -> u64),
    start: spec_fn(int) -> u64,
    k: int,
    p: int,
)
    requires
        0 <= k <= instrs.len(),
        marks_write_only(instrs, keep, reads, escapes),
        within_reach(instrs, escapes, other),
        forall|i: int| 0 <= i < instrs.len() ==> crate::ir::anchor::small_frames(#[trigger] instrs[i]),
        forall|i: int, q: int|
            0 <= i < instrs.len() && (read_bytes(#[trigger] instrs[i]) matches Some((lo, hi)) && lo <= q
                < hi) ==> #[trigger] in_run(reads.runs@, q),
        in_run(reads.runs@, p) || byte_escapes(escapes, p),
    ensures
        frame_at(instrs, keep, value, other, start, k)(p) == frame_at(
            instrs,
            all_kept(instrs.len()),
            value,
            other,
            start,
            k,
        )(p),
    decreases k,
{
    let all = all_kept(instrs.len());
    if k > 0 {
        let at = k - 1;
        let a = frame_at(instrs, keep, value, other, start, at);
        let b = frame_at(instrs, all, value, other, start, at);
        assert(all[at]);
        assert(keep[at] == !write_only(instrs[at], reads, escapes));
        assert(crate::ir::anchor::small_frames(instrs[at]));
        assert forall|q: int| in_run(reads.runs@, q) || byte_escapes(escapes, q) implies #[trigger] a(q) == b(q) by {
            write_only_stores_are_not_missed(instrs, reads, escapes, keep, value, other, start, at, q);
        }
        assert forall|q: int| in_reach(instrs[at], escapes, q) implies #[trigger] a(q) == b(q) by {
            if !byte_escapes(escapes, q) {
                assert(in_run(reads.runs@, q));
            }
        }
        assert(same_in_reach(instrs[at], escapes, a, b));
        assert(a(p) == b(p));
        if byte_escapes(escapes, p) {
            let x = p as i64;
            assert(escapes.escapes(x));
        }
    }
}

} // verus!
