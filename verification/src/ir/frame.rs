//! The stack frame: what the code touches, what a callee could reach, what is only written.

use crate::ir::anchor::{small_frames, FRAME_END};
use crate::ir::instr::{operands_read, reads, sources, Instr, Operand, SchedBlock};
use crate::ir::schedule::{in_window, reads_window};
use crate::ir::walk::lemma_push_contains;
use vstd::prelude::*;

verus! {

/// Whether the stack offsets of a block are small enough to add.
pub open spec fn frames_ok(b: SchedBlock) -> bool {
    forall|i: int|
        0 <= i < b.instrs@.len() ==> small_frames(#[trigger] b.instrs@[i]) && reads_window(b.instrs@[i])
}

/// The bytes of the frame an instruction accesses directly. How much of memory a boxed
/// instruction accesses is not known; this is the most it can be.
pub open spec fn access(i: Instr) -> Option<(int, int)> {
    match i {
        Instr::Store { addr: Operand::Frame(o), disp, width, .. } => Some((o + disp, o + disp + width.bytes())),
        Instr::Load { addr: Operand::Frame(o), disp, width, .. } => Some((o + disp, o + disp + width.bytes())),
        Instr::Boxed { mem: Some(m), .. } => match m.addr {
            Operand::Frame(o) => Some((o as int, o + 64)),
            _ => None,
        },
        _ => None,
    }
}

/// The operands of an instruction that are used as values, so that a frame address among
/// them leaves the function's sight.
pub open spec fn leaks(i: Instr) -> Seq<Operand> {
    match i {
        Instr::Store { value, .. } => seq![value],
        Instr::Load { .. } => Seq::empty(),
        Instr::Boxed { uses, .. } => sources(uses@),
        _ => reads(i),
    }
}

/// The operands a block's end uses as values.
pub open spec fn end_leaks(b: SchedBlock) -> Seq<Operand> {
    sources(b.exits@) + match b.control {
        Some(c) => seq![c],
        None => Seq::empty(),
    } + match b.fused {
        Some(f) => seq![f.a, f.b],
        None => Seq::empty(),
    }
}

/// Whether the frame address leaks in a block.
pub open spec fn leaked_in(b: SchedBlock, off: i64) -> bool {
    ||| end_leaks(b).contains(Operand::Frame(off))
    ||| exists|i: int| 0 <= i < b.instrs@.len() && leaks(#[trigger] b.instrs@[i]).contains(Operand::Frame(off))
}

/// Whether the frame address leaks anywhere in the function.
pub open spec fn leaked(bs: Seq<SchedBlock>, off: i64) -> bool {
    exists|k: int| 0 <= k < bs.len() && leaked_in(#[trigger] bs[k], off)
}

/// Whether a block accesses the byte of the frame.
pub open spec fn touched_in(b: SchedBlock, p: int) -> bool {
    exists|i: int|
        0 <= i < b.instrs@.len() && (access(#[trigger] b.instrs@[i]) matches Some((lo, hi)) && lo <= p < hi)
}

/// Whether the function accesses the byte of the frame.
pub open spec fn touched(bs: Seq<SchedBlock>, p: int) -> bool {
    exists|k: int| 0 <= k < bs.len() && touched_in(#[trigger] bs[k], p)
}

/// Whether everything between two bytes is accessed, or nothing is.
pub open spec fn same_stretch(bs: Seq<SchedBlock>, a: int, b: int) -> bool {
    forall|p: int|
        (a <= p <= b || b <= p <= a) ==> #[trigger] touched(bs, p) == touched(bs, a)
}

/// Frame slots whose address a callee could hold, so their stores must survive a call.
#[derive(Debug)]
pub struct FrameEscapes {
    /// Half-open byte ranges of frame offsets a callee may access.
    pub runs: Vec<(i64, i64)>,
    /// Set when an escaping frame address could not be attributed to a run.
    pub unattributed: bool,
}

impl Clone for FrameEscapes {
    fn clone(&self) -> (r: Self)
        ensures
            r.runs@ == self.runs@,
            r.unattributed == self.unattributed,
    {
        FrameEscapes { runs: copied_runs(&self.runs), unattributed: self.unattributed }
    }
}

impl Default for FrameEscapes {
    /// Nothing escapes.
    fn default() -> (r: Self)
        ensures
            r.runs@ == Seq::<(i64, i64)>::empty(),
            !r.unattributed,
            forall|k: i64| !#[trigger] r.escapes(k),
    {
        FrameEscapes { runs: Vec::new(), unattributed: false }
    }
}

fn copied_runs(runs: &Vec<(i64, i64)>) -> (v: Vec<(i64, i64)>)
    ensures
        v@ == runs@,
{
    let mut v: Vec<(i64, i64)> = Vec::new();
    let mut k: usize = 0;
    while k < runs.len()
        invariant
            k <= runs@.len(),
            v@ == runs@.take(k as int),
        decreases runs@.len() - k,
    {
        v.push(runs[k]);
        k = k + 1;
        proof {
            assert(v@ =~= runs@.take(k as int));
        }
    }
    proof {
        assert(runs@.take(k as int) =~= runs@);
    }
    v
}

impl FrameEscapes {
    /// Whether a callee may observe the frame slot.
    pub open spec fn escapes(self, key: i64) -> bool {
        self.unattributed || in_run(self.runs@, key as int)
    }

    /// Every frame slot may be read.
    pub fn conservative() -> (e: Self)
        ensures
            forall|k: i64| #[trigger] e.escapes(k),
    {
        FrameEscapes { runs: Vec::new(), unattributed: true }
    }

    /// Whether a callee may observe the frame slot at `key`.
    pub fn may_escape(&self, key: i64) -> (r: bool)
        ensures
            r == self.escapes(key),
    {
        if self.unattributed {
            return true;
        }
        let mut k: usize = 0;
        while k < self.runs.len()
            invariant
                k <= self.runs@.len(),
                forall|j: int|
                    0 <= j < k ==> !((#[trigger] self.runs@[j]).0 <= key < self.runs@[j].1),
            decreases self.runs@.len() - k,
        {
            let (lo, hi) = self.runs[k];
            if lo <= key && key < hi {
                proof {
                    assert(self.runs@[k as int].0 <= key);
                }
                return true;
            }
            k = k + 1;
        }
        false
    }
}

/// Whether a point is in one of the ranges.
pub open spec fn in_run(runs: Seq<(i64, i64)>, p: int) -> bool {
    exists|k: int| 0 <= k < runs.len() && (#[trigger] runs[k]).0 <= p < runs[k].1
}

proof fn lemma_run_push(runs: Seq<(i64, i64)>, r: (i64, i64))
    ensures
        forall|p: int| #[trigger] in_run(runs.push(r), p) <==> in_run(runs, p) || r.0 <= p < r.1,
{
    assert forall|p: int| #[trigger] in_run(runs.push(r), p) <==> in_run(runs, p) || r.0 <= p < r.1 by {
        let more = runs.push(r);
        if in_run(runs, p) {
            let k = choose|k: int| 0 <= k < runs.len() && (#[trigger] runs[k]).0 <= p < runs[k].1;
            assert(more[k] == runs[k]);
        }
        assert(more[runs.len() as int] == r);
        if in_run(more, p) {
            let k = choose|k: int| 0 <= k < more.len() && (#[trigger] more[k]).0 <= p < more[k].1;
            if k < runs.len() {
                assert(runs[k] == more[k]);
            }
        }
    }
}

fn access_of(i: &Instr) -> (r: Option<(i64, i64)>)
    requires
        small_frames(*i),
        reads_window(*i),
    ensures
        match r {
            Some((lo, hi)) => access(*i) == Some((lo as int, hi as int)) && -FRAME_END < lo < hi < FRAME_END,
            None => access(*i) is None,
        },
{
    match i {
        Instr::Store { addr: Operand::Frame(o), disp, width, .. } => {
            let lo: i64 = *o + *disp;
            Some((lo, lo + width.bytes() as i64))
        },
        Instr::Load { addr: Operand::Frame(o), disp, width, .. } => {
            let lo: i64 = *o + *disp;
            Some((lo, lo + width.bytes() as i64))
        },
        Instr::Boxed { mem: Some(m), .. } => match m.addr {
            Operand::Frame(o) => {
                proof {
                    assert(in_window(reads(*i)[0]));
                }
                Some((o, o + 64))
            },
            _ => None,
        },
        _ => None,
    }
}

/// Every direct access of the function to its frame.
fn accesses(blocks: &Vec<SchedBlock>) -> (v: Vec<(i64, i64)>)
    requires
        forall|k: int| 0 <= k < blocks@.len() ==> frames_ok(#[trigger] blocks@[k]),
    ensures
        forall|p: int| #[trigger] in_run(v@, p) <==> touched(blocks@, p),
        forall|k: int| 0 <= k < v@.len() ==> -FRAME_END < (#[trigger] v@[k]).0 < v@[k].1 < FRAME_END,
{
    let mut v: Vec<(i64, i64)> = Vec::new();
    let mut k: usize = 0;
    while k < blocks.len()
        invariant
            k <= blocks@.len(),
            forall|k: int| 0 <= k < blocks@.len() ==> frames_ok(#[trigger] blocks@[k]),
            forall|p: int| #[trigger] in_run(v@, p) <==> touched(blocks@.take(k as int), p),
            forall|j: int| 0 <= j < v@.len() ==> -FRAME_END < (#[trigger] v@[j]).0 < v@[j].1 < FRAME_END,
        decreases blocks@.len() - k,
    {
        let b = &blocks[k];
        let ghost v0 = v@;
        proof {
            assert(frames_ok(blocks@[k as int]));
        }
        let mut i: usize = 0;
        while i < b.instrs.len()
            invariant
                i <= b.instrs@.len(),
                frames_ok(*b),
                forall|p: int| #[trigger]
                    in_run(v@, p) <==> in_run(v0, p) || touched_upto(b.instrs@, i as int, p),
                forall|j: int|
                    0 <= j < v@.len() ==> -FRAME_END < (#[trigger] v@[j]).0 < v@[j].1 < FRAME_END,
            decreases b.instrs@.len() - i,
        {
            let ghost v1 = v@;
            proof {
                assert(small_frames(b.instrs@[i as int]) && reads_window(b.instrs@[i as int]));
            }
            if let Some(r) = access_of(&b.instrs[i]) {
                v.push(r);
                proof {
                    lemma_run_push(v1, r);
                }
            }
            proof {
                assert forall|p: int| #[trigger] in_run(v@, p) <==> in_run(v0, p) || touched_upto(
                    b.instrs@,
                    i + 1,
                    p,
                ) by {
                    assert(in_run(v1, p) <==> in_run(v0, p) || touched_upto(b.instrs@, i as int, p));
                }
            }
            i = i + 1;
        }
        proof {
            assert forall|p: int| #[trigger] in_run(v@, p) <==> touched(blocks@.take(k + 1), p) by {
                lemma_touched_upto(*b, p);
                lemma_touched_step(blocks@, k as int, p);
                assert(in_run(v0, p) <==> touched(blocks@.take(k as int), p));
            }
        }
        k = k + 1;
    }
    proof {
        assert(blocks@.take(blocks@.len() as int) =~= blocks@);
    }
    v
}

spec fn touched_upto(instrs: Seq<Instr>, k: int, p: int) -> bool
    decreases k,
{
    k > 0 && (touched_upto(instrs, k - 1, p) || (access(instrs[k - 1]) matches Some((lo, hi)) && lo <= p < hi))
}

proof fn lemma_touched_upto_instrs(instrs: Seq<Instr>, k: int, p: int)
    requires
        0 <= k <= instrs.len(),
    ensures
        touched_upto(instrs, k, p) <==> exists|i: int|
            0 <= i < k && (access(#[trigger] instrs[i]) matches Some((lo, hi)) && lo <= p < hi),
    decreases k,
{
    if k > 0 {
        lemma_touched_upto_instrs(instrs, k - 1, p);
        if touched_upto(instrs, k, p) && !touched_upto(instrs, k - 1, p) {
            assert(access(instrs[k - 1]) is Some);
        }
    }
}

proof fn lemma_touched_upto(b: SchedBlock, p: int)
    ensures
        touched_upto(b.instrs@, b.instrs@.len() as int, p) <==> touched_in(b, p),
{
    lemma_touched_upto_instrs(b.instrs@, b.instrs@.len() as int, p);
}

proof fn lemma_touched_step(bs: Seq<SchedBlock>, k: int, p: int)
    requires
        0 <= k < bs.len(),
    ensures
        touched(bs.take(k + 1), p) <==> touched(bs.take(k), p) || touched_in(bs[k], p),
{
    let pre = bs.take(k);
    let post = bs.take(k + 1);
    if touched(pre, p) {
        let j = choose|j: int| 0 <= j < pre.len() && touched_in(#[trigger] pre[j], p);
        assert(touched_in(post[j], p));
    }
    assert(post[k] == bs[k]);
    if touched(post, p) {
        let j = choose|j: int| 0 <= j < post.len() && touched_in(#[trigger] post[j], p);
        if j < k {
            assert(pre[j] == post[j]);
        }
    }
}

/// Add the frame addresses among operands.
fn push_frames(out: &mut Vec<i64>, ops: &Vec<Operand>)
    ensures
        forall|x: i64| #[trigger]
            final(out)@.contains(x) <==> old(out)@.contains(x) || ops@.contains(Operand::Frame(x)),
{
    let mut k: usize = 0;
    proof {
        assert(ops@.take(0) =~= Seq::empty());
    }
    while k < ops.len()
        invariant
            k <= ops@.len(),
            forall|x: i64| #[trigger]
                out@.contains(x) <==> old(out)@.contains(x) || ops@.take(k as int).contains(
                    Operand::Frame(x),
                ),
        decreases ops@.len() - k,
    {
        let ghost o0 = out@;
        proof {
            assert(ops@.take(k + 1) =~= ops@.take(k as int).push(ops@[k as int]));
            lemma_push_contains(ops@.take(k as int), ops@[k as int]);
        }
        if let Operand::Frame(x) = ops[k] {
            out.push(x);
            proof {
                lemma_push_contains(o0, x);
            }
        }
        proof {
            assert forall|x: i64| #[trigger] out@.contains(x) <==> old(out)@.contains(x) || ops@.take(
                k + 1,
            ).contains(Operand::Frame(x)) by {
                assert(o0.contains(x) <==> old(out)@.contains(x) || ops@.take(k as int).contains(
                    Operand::Frame(x),
                ));
            }
        }
        k = k + 1;
    }
    proof {
        assert(ops@.take(ops@.len() as int) =~= ops@);
    }
}

/// The operands of an instruction that are used as values.
fn leaks_of(i: &Instr) -> (v: Vec<Operand>)
    ensures
        v@ == leaks(*i),
{
    match i {
        Instr::Store { value, .. } => {
            let mut v: Vec<Operand> = Vec::new();
            v.push(*value);
            proof {
                assert(v@ =~= leaks(*i));
            }
            v
        },
        Instr::Load { .. } => Vec::new(),
        Instr::Boxed { uses, .. } => {
            let mut v: Vec<Operand> = Vec::new();
            let mut k: usize = 0;
            while k < uses.len()
                invariant
                    k <= uses@.len(),
                    v@ == sources(uses@).take(k as int),
                decreases uses@.len() - k,
            {
                v.push(uses[k].1);
                k = k + 1;
                proof {
                    assert(v@ =~= sources(uses@).take(k as int));
                }
            }
            proof {
                assert(v@ =~= sources(uses@));
            }
            v
        },
        _ => operands_read(i),
    }
}

fn end_leaks_of(b: &SchedBlock) -> (v: Vec<Operand>)
    ensures
        v@ == end_leaks(*b),
{
    let mut v: Vec<Operand> = Vec::new();
    let mut k: usize = 0;
    while k < b.exits.len()
        invariant
            k <= b.exits@.len(),
            v@ == sources(b.exits@).take(k as int),
        decreases b.exits@.len() - k,
    {
        v.push(b.exits[k].1);
        k = k + 1;
        proof {
            assert(v@ =~= sources(b.exits@).take(k as int));
        }
    }
    if let Some(c) = &b.control {
        v.push(*c);
    }
    if let Some(f) = &b.fused {
        v.push(f.a);
        v.push(f.b);
    }
    proof {
        assert(v@ =~= end_leaks(*b));
    }
    v
}

spec fn leaked_upto(instrs: Seq<Instr>, k: int, x: i64) -> bool
    decreases k,
{
    k > 0 && (leaked_upto(instrs, k - 1, x) || leaks(instrs[k - 1]).contains(Operand::Frame(x)))
}

proof fn lemma_leaked_upto(instrs: Seq<Instr>, k: int, x: i64)
    requires
        0 <= k <= instrs.len(),
    ensures
        leaked_upto(instrs, k, x) <==> exists|i: int|
            0 <= i < k && leaks(#[trigger] instrs[i]).contains(Operand::Frame(x)),
    decreases k,
{
    if k > 0 {
        lemma_leaked_upto(instrs, k - 1, x);
        if leaked_upto(instrs, k, x) && !leaked_upto(instrs, k - 1, x) {
            assert(leaks(instrs[k - 1]).contains(Operand::Frame(x)));
        }
    }
}

proof fn lemma_leaked_step(bs: Seq<SchedBlock>, k: int, x: i64)
    requires
        0 <= k < bs.len(),
    ensures
        leaked(bs.take(k + 1), x) <==> leaked(bs.take(k), x) || leaked_in(bs[k], x),
{
    let pre = bs.take(k);
    let post = bs.take(k + 1);
    if leaked(pre, x) {
        let j = choose|j: int| 0 <= j < pre.len() && leaked_in(#[trigger] pre[j], x);
        assert(leaked_in(post[j], x));
    }
    assert(post[k] == bs[k]);
    if leaked(post, x) {
        let j = choose|j: int| 0 <= j < post.len() && leaked_in(#[trigger] post[j], x);
        if j < k {
            assert(pre[j] == post[j]);
        }
    }
}

/// Every frame address of the function that is used as a value.
fn escaped(blocks: &Vec<SchedBlock>) -> (v: Vec<i64>)
    ensures
        forall|x: i64| #[trigger] v@.contains(x) <==> leaked(blocks@, x),
{
    let mut v: Vec<i64> = Vec::new();
    let mut k: usize = 0;
    while k < blocks.len()
        invariant
            k <= blocks@.len(),
            forall|x: i64| #[trigger] v@.contains(x) <==> leaked(blocks@.take(k as int), x),
        decreases blocks@.len() - k,
    {
        let b = &blocks[k];
        let ghost v0 = v@;
        let mut i: usize = 0;
        while i < b.instrs.len()
            invariant
                i <= b.instrs@.len(),
                forall|x: i64| #[trigger]
                    v@.contains(x) <==> v0.contains(x) || leaked_upto(b.instrs@, i as int, x),
            decreases b.instrs@.len() - i,
        {
            let ops = leaks_of(&b.instrs[i]);
            push_frames(&mut v, &ops);
            i = i + 1;
        }
        let ops = end_leaks_of(b);
        push_frames(&mut v, &ops);
        proof {
            assert forall|x: i64| #[trigger] v@.contains(x) <==> leaked(blocks@.take(k + 1), x) by {
                lemma_leaked_upto(b.instrs@, b.instrs@.len() as int, x);
                lemma_leaked_step(blocks@, k as int, x);
                assert(v0.contains(x) <==> leaked(blocks@.take(k as int), x));
            }
        }
        k = k + 1;
    }
    proof {
        assert(blocks@.take(blocks@.len() as int) =~= blocks@);
    }
    v
}

/// Whether a stretch of the accesses reaches from `lo` up to, not including, `hi` around a
/// byte: all of it accessed or none of it, and not so just outside.
spec fn maximal(runs: Seq<(i64, i64)>, at: int, lo: int, hi: int) -> bool {
    &&& lo <= at < hi
    &&& forall|p: int| lo <= p < hi ==> #[trigger] in_run(runs, p) == in_run(runs, at)
    &&& lo == i64::MIN || in_run(runs, lo - 1) != in_run(runs, at)
    &&& hi == i64::MAX || in_run(runs, hi) != in_run(runs, at)
}

fn hit(runs: &Vec<(i64, i64)>, p: i64) -> (r: bool)
    ensures
        r == in_run(runs@, p as int),
{
    let mut k: usize = 0;
    while k < runs.len()
        invariant
            k <= runs@.len(),
            forall|j: int| 0 <= j < k ==> !((#[trigger] runs@[j]).0 <= p < runs@[j].1),
        decreases runs@.len() - k,
    {
        let (lo, hi) = runs[k];
        if lo <= p && p < hi {
            proof {
                assert(runs@[k as int].0 <= p);
            }
            return true;
        }
        k = k + 1;
    }
    false
}

/// The end of the accessed stretch from `from` on.
fn stretch_end(runs: &Vec<(i64, i64)>, from: i64) -> (hi: i64)
    requires
        forall|k: int| 0 <= k < runs@.len() ==> -FRAME_END < (#[trigger] runs@[k]).0 < runs@[k].1 < FRAME_END,
        in_run(runs@, from as int),
    ensures
        from < hi < FRAME_END,
        forall|p: int| from <= p < hi ==> #[trigger] in_run(runs@, p),
        !in_run(runs@, hi as int),
{
    let mut hi: i64 = from;
    proof {
        let k = choose|k: int| 0 <= k < runs@.len() && (#[trigger] runs@[k]).0 <= from < runs@[k].1;
    }
    loop
        invariant
            forall|k: int|
                0 <= k < runs@.len() ==> -FRAME_END < (#[trigger] runs@[k]).0 < runs@[k].1 < FRAME_END,
            in_run(runs@, from as int),
            from <= hi < FRAME_END,
            forall|p: int| from <= p < hi ==> #[trigger] in_run(runs@, p),
        decreases FRAME_END - hi,
    {
        let mut next: i64 = hi;
        let mut k: usize = 0;
        while k < runs.len() && next == hi
            invariant
                k <= runs@.len(),
                forall|k: int|
                    0 <= k < runs@.len() ==> -FRAME_END < (#[trigger] runs@[k]).0 < runs@[k].1 < FRAME_END,
                hi <= next < FRAME_END,
                next == hi ==> forall|j: int|
                    0 <= j < k ==> !((#[trigger] runs@[j]).0 <= hi < runs@[j].1),
                forall|p: int| hi <= p < next ==> #[trigger] in_run(runs@, p),
            decreases runs@.len() - k,
        {
            let (a, b) = runs[k];
            if a <= hi && hi < b {
                proof {
                    assert forall|p: int| hi <= p < b implies #[trigger] in_run(runs@, p) by {
                        assert(runs@[k as int].0 <= p < runs@[k as int].1);
                    }
                    assert(runs@[k as int].1 < FRAME_END);
                }
                next = b;
            }
            k = k + 1;
        }
        if next == hi {
            proof {
                assert(!in_run(runs@, hi as int));
            }
            return hi;
        }
        hi = next;
    }
}

/// The start of the accessed stretch down from `from`.
fn stretch_start(runs: &Vec<(i64, i64)>, from: i64) -> (lo: i64)
    requires
        forall|k: int| 0 <= k < runs@.len() ==> -FRAME_END < (#[trigger] runs@[k]).0 < runs@[k].1 < FRAME_END,
        in_run(runs@, from as int),
    ensures
        -FRAME_END < lo <= from,
        forall|p: int| lo <= p <= from ==> #[trigger] in_run(runs@, p),
        !in_run(runs@, lo - 1),
{
    let mut lo: i64 = from;
    proof {
        let k = choose|k: int| 0 <= k < runs@.len() && (#[trigger] runs@[k]).0 <= from < runs@[k].1;
    }
    loop
        invariant
            forall|k: int|
                0 <= k < runs@.len() ==> -FRAME_END < (#[trigger] runs@[k]).0 < runs@[k].1 < FRAME_END,
            -FRAME_END < lo <= from,
            forall|p: int| lo <= p <= from ==> #[trigger] in_run(runs@, p),
        decreases lo + FRAME_END,
    {
        let mut next: i64 = lo;
        let mut k: usize = 0;
        while k < runs.len() && next == lo
            invariant
                k <= runs@.len(),
                forall|k: int|
                    0 <= k < runs@.len() ==> -FRAME_END < (#[trigger] runs@[k]).0 < runs@[k].1 < FRAME_END,
                -FRAME_END < next <= lo,
                -FRAME_END < lo,
                next == lo ==> forall|j: int|
                    0 <= j < k ==> !((#[trigger] runs@[j]).0 <= lo - 1 < runs@[j].1),
                forall|p: int| next <= p < lo ==> #[trigger] in_run(runs@, p),
            decreases runs@.len() - k,
        {
            let (a, b) = runs[k];
            if a <= lo - 1 && lo - 1 < b {
                proof {
                    assert forall|p: int| a <= p < lo implies #[trigger] in_run(runs@, p) by {
                        assert(runs@[k as int].0 <= p < runs@[k as int].1);
                    }
                    assert(-FRAME_END < runs@[k as int].0);
                }
                next = a;
            }
            k = k + 1;
        }
        if next == lo {
            proof {
                assert(!in_run(runs@, lo - 1));
            }
            return lo;
        }
        lo = next;
    }
}

/// The bounds of the hole around a byte that is not accessed.
fn hole(runs: &Vec<(i64, i64)>, at: i64) -> (r: (i64, i64))
    requires
        forall|k: int| 0 <= k < runs@.len() ==> (#[trigger] runs@[k]).0 < runs@[k].1,
        !in_run(runs@, at as int),
        at < i64::MAX,
    ensures
        maximal(runs@, at as int, r.0 as int, r.1 as int),
{
    let mut lo: i64 = i64::MIN;
    let mut hi: i64 = i64::MAX;
    let mut k: usize = 0;
    while k < runs.len()
        invariant
            k <= runs@.len(),
            forall|k: int| 0 <= k < runs@.len() ==> (#[trigger] runs@[k]).0 < runs@[k].1,
            !in_run(runs@, at as int),
            lo <= at < hi,
            lo == i64::MIN || in_run(runs@, lo - 1),
            hi == i64::MAX || in_run(runs@, hi as int),
            forall|j: int|
                0 <= j < k ==> (#[trigger] runs@[j]).1 <= lo || runs@[j].0 >= hi,
        decreases runs@.len() - k,
    {
        let (a, b) = runs[k];
        let ghost lo0 = lo;
        let ghost hi0 = hi;
        proof {
            assert(runs@[k as int] == (a, b));
            assert(!(a <= at < b)) by {
                if a <= at < b {
                    assert(runs@[k as int].0 <= at < runs@[k as int].1);
                }
            }
        }
        if b <= at && b > lo {
            lo = b;
            proof {
                assert(runs@[k as int].0 <= lo - 1 < runs@[k as int].1);
            }
        }
        if a > at && a < hi {
            hi = a;
            proof {
                assert(runs@[k as int].0 <= hi < runs@[k as int].1);
            }
        }
        k = k + 1;
    }
    proof {
        assert forall|p: int| lo <= p < hi implies !#[trigger] in_run(runs@, p) by {
            if in_run(runs@, p) {
                let j = choose|j: int| 0 <= j < runs@.len() && (#[trigger] runs@[j]).0 <= p < runs@[j].1;
            }
        }
    }
    (lo, hi)
}

/// A maximal stretch holds exactly the bytes in one stretch with its own.
proof fn lemma_maximal(bs: Seq<SchedBlock>, runs: Seq<(i64, i64)>, at: int, lo: int, hi: int, k: int)
    requires
        forall|p: int| #[trigger] in_run(runs, p) <==> touched(bs, p),
        maximal(runs, at, lo, hi),
        i64::MIN <= k < i64::MAX,
    ensures
        lo <= k < hi <==> same_stretch(bs, at, k),
{
    assert(in_run(runs, at) <==> touched(bs, at));
    if lo <= k < hi {
        assert forall|p: int| (at <= p <= k || k <= p <= at) implies #[trigger] touched(bs, p) == touched(
            bs,
            at,
        ) by {
            assert(in_run(runs, p) == in_run(runs, at));
        }
    } else if k < lo {
        assert(in_run(runs, lo - 1) <==> touched(bs, lo - 1));
        assert(k <= lo - 1 <= at);
    } else {
        assert(in_run(runs, hi) <==> touched(bs, hi));
        assert(at <= hi <= k);
    }
}

/// Compute [`FrameEscapes`] over every block of a function. An escaping address reaches the
/// object it points into: the stretch of bytes accessed around it, or the hole it is in. The
/// caller's own slots are always reachable.
pub fn analyze_frame_escapes(blocks: &Vec<SchedBlock>) -> (e: FrameEscapes)
    requires
        forall|k: int| 0 <= k < blocks@.len() ==> frames_ok(#[trigger] blocks@[k]),
        forall|x: i64| #[trigger] leaked(blocks@, x) ==> x < i64::MAX,
    ensures
        forall|k: i64|
            k < i64::MAX ==> (#[trigger] e.escapes(k) <==> k >= 0 || exists|x: i64| #[trigger]
                leaked(blocks@, x) && same_stretch(blocks@, x as int, k as int)),
{
    let runs = accesses(blocks);
    let outs = escaped(blocks);
    let mut e = FrameEscapes { runs: Vec::new(), unattributed: runs.len() == 0 && outs.len() > 0 };
    let mut k: usize = 0;
    while k < outs.len()
        invariant
            k <= outs@.len(),
            e.unattributed == (runs@.len() == 0 && outs@.len() > 0),
            forall|x: i64| #[trigger] outs@.contains(x) ==> x < i64::MAX,
            forall|p: int| #[trigger] in_run(runs@, p) <==> touched(blocks@, p),
            forall|j: int|
                0 <= j < runs@.len() ==> -FRAME_END < (#[trigger] runs@[j]).0 < runs@[j].1 < FRAME_END,
            forall|p: int|
                i64::MIN <= p < i64::MAX ==> (#[trigger] in_run(e.runs@, p) <==> exists|j: int|
                    0 <= j < k && same_stretch(blocks@, (#[trigger] outs@[j]) as int, p)),
        decreases outs@.len() - k,
    {
        let x = outs[k];
        let ghost r0 = e.runs@;
        proof {
            assert(outs@.contains(outs@[k as int]));
        }
        let region = if hit(&runs, x) {
            let hi = stretch_end(&runs, x);
            let lo = stretch_start(&runs, x);
            (lo, hi)
        } else {
            hole(&runs, x)
        };
        e.runs.push(region);
        proof {
            assert(maximal(runs@, x as int, region.0 as int, region.1 as int));
            lemma_run_push(r0, region);
            assert forall|p: int| i64::MIN <= p < i64::MAX implies (#[trigger] in_run(e.runs@, p)
                <==> exists|j: int| 0 <= j < k + 1 && same_stretch(blocks@, (#[trigger] outs@[j]) as int, p)) by {
                lemma_maximal(blocks@, runs@, x as int, region.0 as int, region.1 as int, p);
                assert(in_run(r0, p) <==> exists|j: int|
                    0 <= j < k && same_stretch(blocks@, (#[trigger] outs@[j]) as int, p));
                assert(outs@[k as int] == x);
            }
        }
        k = k + 1;
    }
    let ghost r1 = e.runs@;
    e.runs.push((0, i64::MAX));
    proof {
        lemma_run_push(r1, (0, i64::MAX));
        assert forall|k: i64| k < i64::MAX implies (#[trigger] e.escapes(k) <==> k >= 0 || exists|x: i64| #[trigger]
            leaked(blocks@, x) && same_stretch(blocks@, x as int, k as int)) by {
            assert(in_run(e.runs@, k as int) <==> in_run(r1, k as int) || 0 <= k);
            if in_run(r1, k as int) {
                let j = choose|j: int|
                    0 <= j < outs@.len() && same_stretch(blocks@, (#[trigger] outs@[j]) as int, k as int);
                assert(outs@.contains(outs@[j]));
                assert(leaked(blocks@, outs@[j]));
            }
            if exists|x: i64| #[trigger] leaked(blocks@, x) && same_stretch(blocks@, x as int, k as int) {
                let x = choose|x: i64| #[trigger]
                    leaked(blocks@, x) && same_stretch(blocks@, x as int, k as int);
                assert(outs@.contains(x));
                let j = choose|j: int| 0 <= j < outs@.len() && outs@[j] == x;
                assert(same_stretch(blocks@, outs@[j] as int, k as int));
            }
            if e.unattributed {
                assert(outs@.contains(outs@[0]));
                let x = outs@[0];
                assert(leaked(blocks@, x));
                assert forall|p: int| !#[trigger] touched(blocks@, p) by {
                    assert(!in_run(runs@, p));
                }
                assert(same_stretch(blocks@, x as int, k as int));
            }
        }
    }
    e
}

/// The bytes of the frame an instruction reads. What a boxed instruction does to its memory
/// operand is not known, so it counts.
pub open spec fn read_bytes(i: Instr) -> Option<(int, int)> {
    match i {
        Instr::Load { addr: Operand::Frame(o), disp, width, .. } => Some((o + disp, o + disp + width.bytes())),
        Instr::Boxed { mem: Some(m), .. } => match m.addr {
            Operand::Frame(o) => Some(
                (
                    o as int,
                    o + if m.bytes > 1 {
                        m.bytes as int
                    } else {
                        1
                    },
                ),
            ),
            _ => None,
        },
        _ => None,
    }
}

/// Whether the function reads the byte of its frame.
pub open spec fn read_anywhere(bs: Seq<SchedBlock>, p: int) -> bool {
    exists|k: int| 0 <= k < bs.len() && read_in(#[trigger] bs[k], p)
}

/// Whether a block reads the byte of the frame.
pub open spec fn read_in(b: SchedBlock, p: int) -> bool {
    exists|i: int|
        0 <= i < b.instrs@.len() && (read_bytes(#[trigger] b.instrs@[i]) matches Some((lo, hi)) && lo <= p < hi)
}

/// Frame byte ranges that some block reads.
#[derive(Debug)]
pub struct FrameReads {
    /// Half-open byte ranges any block loads from.
    pub runs: Vec<(i64, i64)>,
}

impl Clone for FrameReads {
    fn clone(&self) -> (r: Self)
        ensures
            r.runs@ == self.runs@,
    {
        FrameReads { runs: copied_runs(&self.runs) }
    }
}

impl Default for FrameReads {
    /// Nothing is read.
    fn default() -> (r: Self)
        ensures
            r.runs@ == Seq::<(i64, i64)>::empty(),
    {
        FrameReads { runs: Vec::new() }
    }
}

impl FrameReads {
    /// Whether any block reads a byte in `[key, key+len)`, of which there is at least one.
    pub fn overlaps(&self, key: i64, len: i64) -> (r: bool)
        requires
            key < i64::MAX,
            key + len <= i64::MAX,
            forall|k: int| 0 <= k < self.runs@.len() ==> (#[trigger] self.runs@[k]).0 < self.runs@[k].1,
        ensures
            r <==> exists|p: int|
                key <= p < key + (if len > 1 {
                    len
                } else {
                    1
                }) && #[trigger] in_run(self.runs@, p),
    {
        let end: i64 = if len > 1 {
            key + len
        } else {
            key + 1
        };
        let mut k: usize = 0;
        while k < self.runs.len()
            invariant
                k <= self.runs@.len(),
                end == key + (if len > 1 {
                    len as int
                } else {
                    1
                }),
                forall|k: int|
                    0 <= k < self.runs@.len() ==> (#[trigger] self.runs@[k]).0 < self.runs@[k].1,
                forall|j: int|
                    0 <= j < k ==> !(key < (#[trigger] self.runs@[j]).1 && self.runs@[j].0 < end),
            decreases self.runs@.len() - k,
        {
            let (lo, hi) = self.runs[k];
            if key < hi && lo < end {
                proof {
                    let p: int = if key >= lo {
                        key as int
                    } else {
                        lo as int
                    };
                    assert(self.runs@[k as int].0 <= p < self.runs@[k as int].1);
                    assert(in_run(self.runs@, p));
                }
                return true;
            }
            k = k + 1;
        }
        false
    }
}

pub fn read_bytes_of(i: &Instr) -> (r: Option<(i64, i64)>)
    requires
        small_frames(*i),
        reads_window(*i),
    ensures
        match r {
            Some((lo, hi)) => read_bytes(*i) == Some((lo as int, hi as int)) && lo < hi,
            None => read_bytes(*i) is None,
        },
{
    match i {
        Instr::Load { addr: Operand::Frame(o), disp, width, .. } => {
            let lo: i64 = *o + *disp;
            Some((lo, lo + width.bytes() as i64))
        },
        Instr::Boxed { mem: Some(m), .. } => match m.addr {
            Operand::Frame(o) => {
                proof {
                    assert(in_window(reads(*i)[0]));
                }
                let n: i64 = if m.bytes > 1 {
                    m.bytes as i64
                } else {
                    1
                };
                Some((o, o + n))
            },
            _ => None,
        },
        _ => None,
    }
}

spec fn read_upto(instrs: Seq<Instr>, k: int, p: int) -> bool
    decreases k,
{
    k > 0 && (read_upto(instrs, k - 1, p) || (read_bytes(instrs[k - 1]) matches Some((lo, hi)) && lo <= p < hi))
}

proof fn lemma_read_upto(instrs: Seq<Instr>, k: int, p: int)
    requires
        0 <= k <= instrs.len(),
    ensures
        read_upto(instrs, k, p) <==> exists|i: int|
            0 <= i < k && (read_bytes(#[trigger] instrs[i]) matches Some((lo, hi)) && lo <= p < hi),
    decreases k,
{
    if k > 0 {
        lemma_read_upto(instrs, k - 1, p);
        if read_upto(instrs, k, p) && !read_upto(instrs, k - 1, p) {
            assert(read_bytes(instrs[k - 1]) is Some);
        }
    }
}

proof fn lemma_read_step(bs: Seq<SchedBlock>, k: int, p: int)
    requires
        0 <= k < bs.len(),
    ensures
        read_anywhere(bs.take(k + 1), p) <==> read_anywhere(bs.take(k), p) || read_in(bs[k], p),
{
    let pre = bs.take(k);
    let post = bs.take(k + 1);
    if read_anywhere(pre, p) {
        let j = choose|j: int| 0 <= j < pre.len() && read_in(#[trigger] pre[j], p);
        assert(read_in(post[j], p));
    }
    assert(post[k] == bs[k]);
    if read_anywhere(post, p) {
        let j = choose|j: int| 0 <= j < post.len() && read_in(#[trigger] post[j], p);
        if j < k {
            assert(pre[j] == post[j]);
        }
    }
}

/// Collect every frame range a block loads from, across the whole function.
pub fn analyze_frame_reads(blocks: &Vec<SchedBlock>) -> (r: FrameReads)
    requires
        forall|k: int| 0 <= k < blocks@.len() ==> frames_ok(#[trigger] blocks@[k]),
    ensures
        forall|p: int| #[trigger] in_run(r.runs@, p) <==> read_anywhere(blocks@, p),
        forall|k: int| 0 <= k < r.runs@.len() ==> (#[trigger] r.runs@[k]).0 < r.runs@[k].1,
{
    let mut v: Vec<(i64, i64)> = Vec::new();
    let mut k: usize = 0;
    while k < blocks.len()
        invariant
            k <= blocks@.len(),
            forall|k: int| 0 <= k < blocks@.len() ==> frames_ok(#[trigger] blocks@[k]),
            forall|p: int| #[trigger] in_run(v@, p) <==> read_anywhere(blocks@.take(k as int), p),
            forall|j: int| 0 <= j < v@.len() ==> (#[trigger] v@[j]).0 < v@[j].1,
        decreases blocks@.len() - k,
    {
        let b = &blocks[k];
        let ghost v0 = v@;
        proof {
            assert(frames_ok(blocks@[k as int]));
        }
        let mut i: usize = 0;
        while i < b.instrs.len()
            invariant
                i <= b.instrs@.len(),
                frames_ok(*b),
                forall|p: int| #[trigger]
                    in_run(v@, p) <==> in_run(v0, p) || read_upto(b.instrs@, i as int, p),
                forall|j: int| 0 <= j < v@.len() ==> (#[trigger] v@[j]).0 < v@[j].1,
            decreases b.instrs@.len() - i,
        {
            let ghost v1 = v@;
            proof {
                assert(small_frames(b.instrs@[i as int]) && reads_window(b.instrs@[i as int]));
            }
            if let Some(r) = read_bytes_of(&b.instrs[i]) {
                v.push(r);
                proof {
                    lemma_run_push(v1, r);
                }
            }
            proof {
                assert forall|p: int| #[trigger] in_run(v@, p) <==> in_run(v0, p) || read_upto(
                    b.instrs@,
                    i + 1,
                    p,
                ) by {
                    assert(in_run(v1, p) <==> in_run(v0, p) || read_upto(b.instrs@, i as int, p));
                }
            }
            i = i + 1;
        }
        proof {
            assert forall|p: int| #[trigger] in_run(v@, p) <==> read_anywhere(blocks@.take(k + 1), p) by {
                lemma_read_upto(b.instrs@, b.instrs@.len() as int, p);
                lemma_read_step(blocks@, k as int, p);
                assert(in_run(v0, p) <==> read_anywhere(blocks@.take(k as int), p));
            }
        }
        k = k + 1;
    }
    proof {
        assert(blocks@.take(blocks@.len() as int) =~= blocks@);
    }
    FrameReads { runs: v }
}

/// The instructions marked to be kept, in order.
pub open spec fn kept_of(instrs: Seq<Instr>, keep: Seq<bool>) -> Seq<Instr>
    decreases instrs.len(),
{
    if instrs.len() == 0 {
        Seq::empty()
    } else if keep[instrs.len() - 1] {
        kept_of(instrs.drop_last(), keep).push(instrs.last())
    } else {
        kept_of(instrs.drop_last(), keep)
    }
}

/// Drop the instructions not marked to be kept.
pub fn retain(instrs: &mut Vec<Instr>, keep: &Vec<bool>)
    requires
        keep@.len() == old(instrs)@.len(),
    ensures
        final(instrs)@ == kept_of(old(instrs)@, keep@),
{
    let ghost i0 = instrs@;
    let mut back: Vec<Instr> = Vec::new();
    let mut n: usize = instrs.len();
    proof {
        assert(i0.take(i0.len() as int) =~= i0);
        assert(kept_of(i0, keep@) + back@.reverse() =~= kept_of(i0, keep@));
    }
    while n > 0
        invariant
            n == instrs@.len(),
            n <= i0.len() == keep@.len(),
            instrs@ == i0.take(n as int),
            kept_of(i0.take(n as int), keep@) + back@.reverse() == kept_of(i0, keep@),
        decreases n,
    {
        let ghost cur = i0.take(n as int);
        let ghost b0 = back@;
        n = n - 1;
        if let Some(x) = instrs.pop() {
            proof {
                assert(cur.drop_last() =~= i0.take(n as int));
            }
            if keep[n] {
                back.push(x);
                proof {
                    assert(back@.reverse() =~= seq![x] + b0.reverse());
                    assert(kept_of(i0.take(n as int), keep@) + back@.reverse() =~= kept_of(cur, keep@)
                        + b0.reverse());
                }
            }
        }
    }
    proof {
        assert(i0.take(0).len() == 0);
        assert(kept_of(i0, keep@) =~= back@.reverse());
    }
    let ghost want = back@.reverse();
    let mut m: usize = back.len();
    while m > 0
        invariant
            m == back@.len(),
            m <= want.len(),
            instrs@.len() == want.len() - m,
            instrs@ == want.take(want.len() - m),
            forall|j: int| 0 <= j < m ==> #[trigger] back@[j] == want[want.len() - 1 - j],
        decreases m,
    {
        m = m - 1;
        if let Some(x) = back.pop() {
            instrs.push(x);
            proof {
                assert(x == want[want.len() - 1 - m]);
                assert(instrs@ =~= want.take(want.len() - m));
            }
        }
    }
    proof {
        assert(instrs@ =~= want);
    }
}

/// The marks that are not set.
pub open spec fn unmarked(keep: Seq<bool>) -> nat
    decreases keep.len(),
{
    if keep.len() == 0 {
        0
    } else {
        unmarked(keep.drop_last()) + if keep.last() {
            0nat
        } else {
            1nat
        }
    }
}

/// Whether some byte of a frame range can be reached by a callee, or by the caller.
pub open spec fn range_escapes(escapes: FrameEscapes, key: int, len: int) -> bool {
    exists|p: i64| key <= p < key + len && #[trigger] escapes.escapes(p)
}

pub fn range_may_escape(escapes: &FrameEscapes, key: i64, len: i64) -> (r: bool)
    requires
        0 <= len,
        key + len <= i64::MAX,
    ensures
        r == range_escapes(*escapes, key as int, len as int),
{
    let mut p: i64 = key;
    while p < key + len
        invariant
            0 <= len,
            key <= p <= key + len <= i64::MAX,
            forall|q: i64| key <= q < p ==> !#[trigger] escapes.escapes(q),
        decreases key + len - p,
    {
        if escapes.may_escape(p) {
            return true;
        }
        p = p + 1;
    }
    false
}

/// Whether an instruction only stores to bytes of the frame that no block reads and no
/// callee can reach.
pub open spec fn write_only(i: Instr, reads: FrameReads, escapes: FrameEscapes) -> bool {
    i matches Instr::Store { addr: Operand::Frame(o), disp, width, .. } && !range_escapes(
        escapes,
        o + disp,
        width.bytes() as int,
    ) && !exists|p: int| o + disp <= p < o + disp + width.bytes() && #[trigger] in_run(reads.runs@, p)
}

/// Whether marks keep everything but such stores.
pub open spec fn marks_write_only(
    instrs: Seq<Instr>,
    keep: Seq<bool>,
    reads: FrameReads,
    escapes: FrameEscapes,
) -> bool {
    keep.len() == instrs.len() && forall|i: int|
        0 <= i < instrs.len() ==> #[trigger] keep[i] == !write_only(instrs[i], reads, escapes)
}

/// Mark the stores of a block that are worth keeping, and count the others.
pub fn mark_write_only(b: &SchedBlock, reads: &FrameReads, escapes: &FrameEscapes) -> (r: (Vec<bool>, usize))
    requires
        frames_ok(*b),
        forall|k: int| 0 <= k < reads.runs@.len() ==> (#[trigger] reads.runs@[k]).0 < reads.runs@[k].1,
    ensures
        marks_write_only(b.instrs@, r.0@, *reads, *escapes),
        r.1 == unmarked(r.0@),
        r.1 <= b.instrs@.len(),
{
    let mut keep: Vec<bool> = Vec::new();
    let mut dropped: usize = 0;
    let mut i: usize = 0;
    while i < b.instrs.len()
        invariant
            i <= b.instrs@.len(),
            frames_ok(*b),
            forall|k: int| 0 <= k < reads.runs@.len() ==> (#[trigger] reads.runs@[k]).0 < reads.runs@[k].1,
            keep@.len() == i,
            dropped == unmarked(keep@),
            dropped <= i,
            forall|j: int| 0 <= j < i ==> #[trigger] keep@[j] == !write_only(b.instrs@[j], *reads, *escapes),
        decreases b.instrs@.len() - i,
    {
        proof {
            assert(small_frames(b.instrs@[i as int]));
        }
        let gone = match &b.instrs[i] {
            Instr::Store { addr: Operand::Frame(o), disp, width, .. } => {
                let key: i64 = *o + *disp;
                !reads.overlaps(key, width.bytes() as i64) && !range_may_escape(
                    escapes,
                    key,
                    width.bytes() as i64,
                )
            },
            _ => false,
        };
        let ghost k0 = keep@;
        keep.push(!gone);
        proof {
            assert(keep@.drop_last() =~= k0);
        }
        if gone {
            dropped = dropped + 1;
        }
        i = i + 1;
    }
    (keep, dropped)
}

/// The operands a block's end refers to: what its exits and its control hold, and the two
/// sides of a comparison the branch absorbed.
pub open spec fn end_operands(b: SchedBlock) -> Seq<Operand> {
    sources(b.exits@) + match b.control {
        Some(c) => seq![c],
        None => Seq::empty(),
    } + match b.fused {
        Some(f) => seq![f.a, f.b],
        None => Seq::empty(),
    }
}

/// Whether a block refers to the frame offset.
pub open spec fn refers(b: SchedBlock, x: i64) -> bool {
    ||| end_operands(b).contains(Operand::Frame(x))
    ||| exists|i: int| 0 <= i < b.instrs@.len() && reads(#[trigger] b.instrs@[i]).contains(Operand::Frame(x))
}

spec fn named_upto(instrs: Seq<Instr>, k: int, x: i64) -> bool
    decreases k,
{
    k > 0 && (named_upto(instrs, k - 1, x) || reads(instrs[k - 1]).contains(Operand::Frame(x)))
}

proof fn lemma_named_upto(instrs: Seq<Instr>, k: int, x: i64)
    requires
        0 <= k <= instrs.len(),
    ensures
        named_upto(instrs, k, x) <==> exists|i: int|
            0 <= i < k && reads(#[trigger] instrs[i]).contains(Operand::Frame(x)),
    decreases k,
{
    if k > 0 {
        lemma_named_upto(instrs, k - 1, x);
        if named_upto(instrs, k, x) && !named_upto(instrs, k - 1, x) {
            assert(reads(instrs[k - 1]).contains(Operand::Frame(x)));
        }
    }
}

/// The lowest and highest frame offsets a block references. The low bound is how much stack
/// the function actually uses, which is what a prologue must reserve.
pub fn frame_extent(b: &SchedBlock) -> (r: Option<(i64, i64)>)
    ensures
        match r {
            Some((lo, hi)) => refers(*b, lo) && refers(*b, hi) && forall|x: i64| #[trigger]
                refers(*b, x) ==> lo <= x <= hi,
            None => forall|x: i64| !#[trigger] refers(*b, x),
        },
{
    let mut all: Vec<i64> = Vec::new();
    let mut i: usize = 0;
    while i < b.instrs.len()
        invariant
            i <= b.instrs@.len(),
            forall|x: i64| #[trigger] all@.contains(x) <==> named_upto(b.instrs@, i as int, x),
        decreases b.instrs@.len() - i,
    {
        let ops = operands_read(&b.instrs[i]);
        push_frames(&mut all, &ops);
        i = i + 1;
    }
    let mut ops: Vec<Operand> = Vec::new();
    let mut k: usize = 0;
    while k < b.exits.len()
        invariant
            k <= b.exits@.len(),
            ops@ == sources(b.exits@).take(k as int),
        decreases b.exits@.len() - k,
    {
        ops.push(b.exits[k].1);
        k = k + 1;
        proof {
            assert(ops@ =~= sources(b.exits@).take(k as int));
        }
    }
    if let Some(c) = &b.control {
        ops.push(*c);
    }
    if let Some(f) = &b.fused {
        ops.push(f.a);
        ops.push(f.b);
    }
    proof {
        assert(ops@ =~= end_operands(*b));
    }
    push_frames(&mut all, &ops);
    proof {
        assert forall|x: i64| #[trigger] all@.contains(x) <==> refers(*b, x) by {
            lemma_named_upto(b.instrs@, b.instrs@.len() as int, x);
        }
    }
    if all.len() == 0 {
        proof {
            assert forall|x: i64| !#[trigger] refers(*b, x) by {
                assert(!all@.contains(x));
            }
        }
        return None;
    }
    let mut lo: i64 = all[0];
    let mut hi: i64 = all[0];
    let mut k: usize = 1;
    while k < all.len()
        invariant
            1 <= k <= all@.len(),
            all@.contains(lo),
            all@.contains(hi),
            forall|j: int| 0 <= j < k ==> lo <= #[trigger] all@[j] <= hi,
        decreases all@.len() - k,
    {
        let x = all[k];
        if x < lo {
            lo = x;
        }
        if x > hi {
            hi = x;
        }
        k = k + 1;
    }
    proof {
        assert(refers(*b, lo) && refers(*b, hi));
        assert forall|x: i64| #[trigger] refers(*b, x) implies lo <= x <= hi by {
            assert(all@.contains(x));
            let j = choose|j: int| 0 <= j < all@.len() && all@[j] == x;
        }
    }
    Some((lo, hi))
}

} // verus!
