//! Stores of which only the low bytes are ever seen.

use crate::ir::anchor::{small_frames, FRAME_REACH};
use crate::ir::frame::frames_ok;
use crate::ir::instr::{defines, kept, reads, reads_value, Instr, Operand, SchedBlock, ValId};
use crate::ir::lower::sched_ok;
use crate::ir::passes::lemma_pointwise;
use crate::ir::schedule::{in_window, operand_ready, reads_window};
use crate::ir::value::Width;
use vstd::prelude::*;

verus! {

/// Whether something from `j` on may see a byte of the frame before a store overwrites it.
/// What cannot be resolved to frame bytes may see anything, and so may whatever follows the
/// block.
pub open spec fn byte_seen(instrs: Seq<Instr>, j: int, p: int) -> bool
    decreases instrs.len() - j,
{
    if j < 0 || j >= instrs.len() {
        true
    } else {
        match instrs[j] {
            Instr::Store { addr: Operand::Frame(o), disp, width, .. } => !(o + disp <= p < o + disp
                + width.bytes()) && byte_seen(instrs, j + 1, p),
            Instr::Load { addr: Operand::Frame(o), disp, width, .. } => (o + disp <= p < o + disp
                + width.bytes()) || byte_seen(instrs, j + 1, p),
            Instr::Store { .. } => true,
            Instr::Load { .. } => true,
            Instr::Call { .. } => true,
            Instr::Boxed { .. } => true,
            _ => byte_seen(instrs, j + 1, p),
        }
    }
}

/// Whether exactly the first `m` of a run of bytes are seen.
pub open spec fn prefix_seen(instrs: Seq<Instr>, from: int, at: int, n: int, m: int) -> bool {
    &&& 0 < m < n
    &&& forall|k: int| 0 <= k < n ==> (#[trigger] byte_seen(instrs, from, at + k) <==> k < m)
}

/// The width that is enough for the store at `i`.
pub open spec fn enough(instrs: Seq<Instr>, i: int) -> Option<Width> {
    match instrs[i] {
        Instr::Store { addr: Operand::Frame(o), disp, width, .. } => {
            let at = o + disp;
            let n = width.bytes() as int;
            if prefix_seen(instrs, i + 1, at, n, 1) {
                Some(Width::W8)
            } else if prefix_seen(instrs, i + 1, at, n, 2) {
                Some(Width::W16)
            } else if prefix_seen(instrs, i + 1, at, n, 4) {
                Some(Width::W32)
            } else {
                None
            }
        },
        _ => None,
    }
}

/// The store at `i`, no wider than enough. A constant loses the bytes that are not stored.
pub open spec fn narrowed(instrs: Seq<Instr>, i: int) -> Instr {
    match (instrs[i], enough(instrs, i)) {
        (Instr::Store { addr, value, disp, .. }, Some(w)) => Instr::Store {
            addr,
            value: match value {
                Operand::Imm(v) => Operand::Imm(v & w.mask()),
                _ => value,
            },
            disp,
            width: w,
        },
        _ => instrs[i],
    }
}

/// How many of the first `k` instructions are narrowed.
pub open spec fn narrowed_upto(instrs: Seq<Instr>, k: int) -> nat
    decreases k,
{
    if k <= 0 {
        0
    } else {
        narrowed_upto(instrs, k - 1) + if enough(instrs, k - 1) is Some {
            1nat
        } else {
            0nat
        }
    }
}

fn is_seen(instrs: &Vec<Instr>, from: usize, p: i64) -> (r: bool)
    requires
        from <= instrs@.len(),
        forall|i: int| 0 <= i < instrs@.len() ==> small_frames(#[trigger] instrs@[i]),
    ensures
        r == byte_seen(instrs@, from as int, p as int),
{
    let mut j: usize = from;
    while j < instrs.len()
        invariant
            j <= instrs@.len(),
            forall|i: int| 0 <= i < instrs@.len() ==> small_frames(#[trigger] instrs@[i]),
            byte_seen(instrs@, from as int, p as int) == byte_seen(instrs@, j as int, p as int),
        decreases instrs@.len() - j,
    {
        proof {
            assert(small_frames(instrs@[j as int]));
        }
        match &instrs[j] {
            Instr::Store { addr: Operand::Frame(o), disp, width, .. } => {
                let at: i64 = *o + *disp;
                if at <= p && p < at + width.bytes() as i64 {
                    return false;
                }
            },
            Instr::Load { addr: Operand::Frame(o), disp, width, .. } => {
                let at: i64 = *o + *disp;
                if at <= p && p < at + width.bytes() as i64 {
                    return true;
                }
            },
            Instr::Store { .. } => {
                return true;
            },
            Instr::Load { .. } => {
                return true;
            },
            Instr::Call { .. } => {
                return true;
            },
            Instr::Boxed { .. } => {
                return true;
            },
            _ => {},
        }
        j = j + 1;
    }
    true
}

/// How many bytes from the first on are seen, if none behind them is.
fn seen_prefix(instrs: &Vec<Instr>, from: usize, at: i64, n: i64) -> (r: Option<i64>)
    requires
        from <= instrs@.len(),
        forall|i: int| 0 <= i < instrs@.len() ==> small_frames(#[trigger] instrs@[i]),
        -FRAME_REACH <= at <= FRAME_REACH,
        0 < n <= 8,
    ensures
        match r {
            Some(m) => 0 <= m <= n && forall|k: int|
                0 <= k < n ==> (#[trigger] byte_seen(instrs@, from as int, at + k) <==> k < m),
            None => forall|m: int| !#[trigger] prefix_seen(instrs@, from as int, at as int, n as int, m),
        },
{
    let mut m: i64 = 0;
    while m < n && is_seen(instrs, from, at + m)
        invariant
            0 <= m <= n <= 8,
            from <= instrs@.len(),
            forall|i: int| 0 <= i < instrs@.len() ==> small_frames(#[trigger] instrs@[i]),
            -FRAME_REACH <= at <= FRAME_REACH,
            forall|k: int| 0 <= k < m ==> #[trigger] byte_seen(instrs@, from as int, at + k),
        decreases n - m,
    {
        m = m + 1;
    }
    let mut k: i64 = m;
    while k < n
        invariant
            0 <= m <= k <= n <= 8,
            m < n ==> !byte_seen(instrs@, from as int, at + m),
            from <= instrs@.len(),
            forall|i: int| 0 <= i < instrs@.len() ==> small_frames(#[trigger] instrs@[i]),
            -FRAME_REACH <= at <= FRAME_REACH,
            forall|j: int| 0 <= j < m ==> #[trigger] byte_seen(instrs@, from as int, at + j),
            forall|j: int| m <= j < k ==> !#[trigger] byte_seen(instrs@, from as int, at + j),
        decreases n - k,
    {
        if is_seen(instrs, from, at + k) {
            proof {
                assert forall|c: int| !#[trigger] prefix_seen(
                    instrs@,
                    from as int,
                    at as int,
                    n as int,
                    c,
                ) by {
                    if prefix_seen(instrs@, from as int, at as int, n as int, c) {
                        assert(byte_seen(instrs@, from as int, at + k) <==> k < c);
                        assert(byte_seen(instrs@, from as int, at + m) <==> m < c);
                    }
                }
            }
            return None;
        }
        k = k + 1;
    }
    Some(m)
}

fn enough_at(instrs: &Vec<Instr>, i: usize) -> (r: Option<Width>)
    requires
        i < instrs@.len(),
        forall|i: int| 0 <= i < instrs@.len() ==> small_frames(#[trigger] instrs@[i]),
    ensures
        r == enough(instrs@, i as int),
{
    proof {
        assert(small_frames(instrs@[i as int]));
    }
    let len: usize = instrs.len();
    match &instrs[i] {
        Instr::Store { addr: Operand::Frame(o), disp, width, .. } => {
            let at: i64 = *o + *disp;
            let n: i64 = width.bytes() as i64;
            let ghost ins = instrs@;
            let ghost from = i + 1;
            match seen_prefix(instrs, i + 1, at, n) {
                Some(m) => {
                    proof {
                        assert forall|c: int|
                            0 < c < n implies (#[trigger] prefix_seen(ins, from, at as int, n as int, c)
                            <==> c == m) by {
                            if prefix_seen(ins, from, at as int, n as int, c) {
                                if c < m {
                                    assert(byte_seen(ins, from, at + c) <==> c < m);
                                } else if m < c {
                                    assert(byte_seen(ins, from, at + m) <==> m < c);
                                }
                            }
                        }
                        assert(!prefix_seen(ins, from, at as int, n as int, n as int));
                    }
                    if m == 1 && m < n {
                        Some(Width::W8)
                    } else if m == 2 && m < n {
                        Some(Width::W16)
                    } else if m == 4 && m < n {
                        Some(Width::W32)
                    } else {
                        None
                    }
                },
                None => None,
            }
        },
        _ => None,
    }
}

/// Narrow every store of which only the low bytes are ever seen, returning how many.
pub fn narrow_partially_dead_stores(b: &mut SchedBlock) -> (n: usize)
    requires
        frames_ok(*old(b)),
    ensures
        final(b).instrs@ == Seq::new(old(b).instrs@.len(), |i: int| narrowed(old(b).instrs@, i)),
        n == narrowed_upto(old(b).instrs@, old(b).instrs@.len() as int),
        final(b).id == old(b).id,
        final(b).exits == old(b).exits,
        final(b).callee_set == old(b).callee_set,
        final(b).control == old(b).control,
        final(b).fused == old(b).fused,
        final(b).terminator == old(b).terminator,
        frames_ok(*final(b)),
        sched_ok(*old(b)) ==> sched_ok(*final(b)),
{
    let ghost b0 = *b;
    let ghost i0 = b.instrs@;
    let mut found: Vec<Option<Width>> = Vec::new();
    let mut n: usize = 0;
    let mut i: usize = 0;
    while i < b.instrs.len()
        invariant
            i <= b.instrs@.len(),
            *b == b0,
            i0 == b0.instrs@,
            frames_ok(b0),
            found@.len() == i,
            n == narrowed_upto(i0, i as int),
            n <= i,
            forall|k: int| 0 <= k < i ==> #[trigger] found@[k] == enough(i0, k),
        decreases b.instrs@.len() - i,
    {
        proof {
            assert forall|k: int| 0 <= k < i0.len() implies small_frames(#[trigger] i0[k]) by {}
        }
        let w = enough_at(&b.instrs, i);
        if w.is_some() {
            n = n + 1;
        }
        found.push(w);
        i = i + 1;
    }
    let mut i: usize = 0;
    while i < b.instrs.len()
        invariant
            i <= b.instrs@.len() == i0.len(),
            found@.len() == i0.len(),
            forall|k: int| 0 <= k < found@.len() ==> #[trigger] found@[k] == enough(i0, k),
            forall|k: int|
                0 <= k < i0.len() ==> #[trigger] b.instrs@[k] == if k < i {
                    narrowed(i0, k)
                } else {
                    i0[k]
                },
            b.id == b0.id,
            b.exits == b0.exits,
            b.callee_set == b0.callee_set,
            b.control == b0.control,
            b.fused == b0.fused,
            b.terminator == b0.terminator,
        decreases b.instrs@.len() - i,
    {
        proof {
            assert(b.instrs@[i as int] == i0[i as int]);
        }
        if let Some(w) = found[i] {
            let moved = match &b.instrs[i] {
                Instr::Store { addr, value, disp, .. } => Some(
                    Instr::Store {
                        addr: *addr,
                        value: match *value {
                            Operand::Imm(v) => Operand::Imm(v & w.mask()),
                            o => o,
                        },
                        disp: *disp,
                        width: w,
                    },
                ),
                _ => None,
            };
            if let Some(m) = moved {
                b.instrs.set(i, m);
            }
        }
        i = i + 1;
    }
    proof {
        assert(b.instrs@ =~= Seq::new(i0.len(), |i: int| narrowed(i0, i)));
        let c = b.instrs@;
        assert forall|k: int| 0 <= k < c.len() implies defines(#[trigger] c[k]) == defines(i0[k])
            && small_frames(c[k]) && reads_window(c[k]) && (forall|v: ValId| #[trigger]
            reads_value(reads(c[k]), v) ==> reads_value(reads(i0[k]), v)) by {
            assert(c[k] == narrowed(i0, k));
            assert(small_frames(i0[k]) && reads_window(i0[k]));
            if c[k] != i0[k] {
                assert forall|m: int| 0 <= m < reads(c[k]).len() implies in_window(
                    #[trigger] reads(c[k])[m],
                ) by {
                    assert(in_window(reads(i0[k])[m]));
                }
                assert forall|v: ValId| #[trigger] reads_value(reads(c[k]), v) implies reads_value(
                    reads(i0[k]),
                    v,
                ) by {
                    let m = choose|m: int| 0 <= m < reads(c[k]).len() && reads(c[k])[m] == Operand::Val(v);
                    assert(reads(i0[k])[m] == Operand::Val(v));
                }
            }
        }
        if sched_ok(b0) {
            lemma_pointwise(i0, c);
            assert(kept(*b) =~= kept(b0));
            assert forall|k: int| 0 <= k < kept(*b).len() implies operand_ready(c, #[trigger] kept(*b)[k])
                && in_window(kept(*b)[k]) by {
                assert(operand_ready(i0, kept(b0)[k]) && in_window(kept(b0)[k]));
            }
        }
    }
    n
}

/// Byte `k` of a value.
pub open spec fn byte_of(v: u64, k: int) -> u64 {
    (v >> ((8 * k) as u64)) & 0xff
}

/// The bytes of the frame before instruction `k`, where `value` gives what operands hold and
/// `other` what anything that is not resolved to frame bytes makes of the frame.
pub open spec fn frame_before(
    instrs: Seq<Instr>,
    value: spec_fn(Operand) -> u64,
    other: spec_fn(int, spec_fn(int) -> u64) -> (spec_fn(int) -> u64),
    start: spec_fn(int) -> u64,
    k: int,
) -> spec_fn(int) -> u64
    decreases k,
{
    if k <= 0 {
        start
    } else {
        let m = frame_before(instrs, value, other, start, k - 1);
        match instrs[k - 1] {
            Instr::Store { addr: Operand::Frame(o), value: v, disp, width } => |p: int|
                if o + disp <= p < o + disp + width.bytes() {
                    byte_of(
                        match v {
                            Operand::Imm(c) => c,
                            _ => value(v),
                        },
                        p - (o + disp),
                    )
                } else {
                    m(p)
                },
            Instr::Store { .. } => other(k - 1, m),
            Instr::Call { .. } => other(k - 1, m),
            Instr::Boxed { .. } => other(k - 1, m),
            _ => m,
        }
    }
}

/// Narrowing stores changes nothing that is seen: every byte of the frame that something
/// from instruction `k` on may see is what it was, and after the last instruction every byte
/// is.
pub proof fn narrowing_changes_nothing_seen(
    instrs: Seq<Instr>,
    value: spec_fn(Operand) -> u64,
    other: spec_fn(int, spec_fn(int) -> u64) -> (spec_fn(int) -> u64),
    start: spec_fn(int) -> u64,
    k: int,
    p: int,
)
    requires
        0 <= k <= instrs.len(),
        byte_seen(instrs, k, p),
    ensures
        ({
            let after = Seq::new(instrs.len(), |i: int| narrowed(instrs, i));
            frame_before(after, value, other, start, k)(p) == frame_before(
                instrs,
                value,
                other,
                start,
                k,
            )(p)
        }),
    decreases k, 0int,
{
    let after = Seq::new(instrs.len(), |i: int| narrowed(instrs, i));
    if k > 0 {
        let a = frame_before(instrs, value, other, start, k - 1);
        let b = frame_before(after, value, other, start, k - 1);
        assert(after[k - 1] == narrowed(instrs, k - 1));
        match instrs[k - 1] {
            Instr::Store { addr: Operand::Frame(o), value: v, disp, width } => {
                let at = o + disp;
                if at <= p < at + width.bytes() {
                    if let Some(w) = enough(instrs, k - 1) {
                        let n = width.bytes() as int;
                        let m = w.bytes() as int;
                        assert(prefix_seen(instrs, k, at, n, m));
                        assert(byte_seen(instrs, k, at + (p - at)));
                        assert(p - at < m);
                        if let Operand::Imm(c) = v {
                            lemma_low_bytes(c, (8 * (p - at)) as u64, w.mask());
                        }
                    }
                } else {
                    narrowing_changes_nothing_seen(instrs, value, other, start, k - 1, p);
                    if let Some(w) = enough(instrs, k - 1) {
                        assert(prefix_seen(instrs, k, at, width.bytes() as int, w.bytes() as int));
                    }
                }
            },
            Instr::Store { .. } => {
                lemma_all_seen(instrs, value, other, start, k - 1);
            },
            Instr::Call { .. } => {
                lemma_all_seen(instrs, value, other, start, k - 1);
            },
            Instr::Boxed { .. } => {
                lemma_all_seen(instrs, value, other, start, k - 1);
            },
            _ => {
                narrowing_changes_nothing_seen(instrs, value, other, start, k - 1, p);
            },
        }
    }
}

/// Where everything may be seen, the whole frame is what it was.
proof fn lemma_all_seen(
    instrs: Seq<Instr>,
    value: spec_fn(Operand) -> u64,
    other: spec_fn(int, spec_fn(int) -> u64) -> (spec_fn(int) -> u64),
    start: spec_fn(int) -> u64,
    k: int,
)
    requires
        0 <= k < instrs.len(),
        forall|p: int| #[trigger] byte_seen(instrs, k, p),
    ensures
        frame_before(
            Seq::new(instrs.len(), |i: int| narrowed(instrs, i)),
            value,
            other,
            start,
            k,
        ) == frame_before(instrs, value, other, start, k),
    decreases k, 1int,
{
    let after = Seq::new(instrs.len(), |i: int| narrowed(instrs, i));
    let a = frame_before(instrs, value, other, start, k);
    let b = frame_before(after, value, other, start, k);
    assert forall|p: int| #[trigger] b(p) == a(p) by {
        assert(byte_seen(instrs, k, p));
        narrowing_changes_nothing_seen(instrs, value, other, start, k, p);
    }
    assert(a =~= b);
}

/// The low bytes of a value that is cut are its own.
proof fn lemma_low_bytes(c: u64, shift: u64, mask: u64)
    by (bit_vector)
    requires
        (mask == 0xff && shift == 0) || (mask == 0xffff && shift <= 8) || (mask == 0xffff_ffff
            && shift <= 24),
    ensures
        ((c & mask) >> shift) & 0xff == (c >> shift) & 0xff,
{
}

} // verus!
