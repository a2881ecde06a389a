//! Scheduling a whole function: lowering every block, then the passes over all of them.

use crate::ir::dead::{eliminate_dead_with, lemma_dropped_ok, without_dead};
use crate::ir::frame::{
    analyze_frame_escapes, analyze_frame_reads, frames_ok, in_run, kept_of, leaked, leaked_in,
    mark_write_only, marks_write_only, read_anywhere, retain, same_stretch, unmarked, write_only,
    FrameEscapes, FrameReads,
};
use crate::ir::graph::{Block, Cfg};
use crate::ir::instr::{defines, kept, reads, reads_value, Instr, Operand, SchedBlock, ValId};
use crate::ir::lower::{drawn_up, code_ok, lowered, sched_ok, schedule_block};
use crate::ir::narrow::{narrow_partially_dead_stores, narrowed};
use crate::ir::passes::{fold_addressing, folded, lemma_folded_ok, lemma_pointwise};
use crate::ir::prune::{kept_exits, prune_dead_exits};
use crate::ir::rename::{homes_in, reads_renamed, rename_entry_reads, renamed, renamed_block, renamed_instr};
use crate::ir::schedule::{defined_in, in_window, operand_ready};
use crate::ir::thread::{
    all_retargeted, blocks_where, drop_unreachable, forwarding, merge_identical_returns, merged,
    reached, thread_empty_jumps,
};
use crate::ir::value::Reg;
use crate::vm::reach::blocks_held;
use vstd::prelude::*;

verus! {

/// Whether two scheduled blocks differ in their instructions at most.
pub open spec fn same_but_instrs(a: SchedBlock, b: SchedBlock) -> bool {
    b == (SchedBlock { instrs: b.instrs, ..a })
}

/// Whether a block is another without the stores that nothing sees.
pub open spec fn without_write_only(
    a: SchedBlock,
    b: SchedBlock,
    reads: FrameReads,
    escapes: FrameEscapes,
    keep: Seq<bool>,
) -> bool {
    &&& same_but_instrs(a, b)
    &&& marks_write_only(a.instrs@, keep, reads, escapes)
    &&& b.instrs@ == kept_of(a.instrs@, keep)
}

/// Whether blocks are others without the stores that nothing sees, by the marks given.
pub open spec fn all_without_write_only(
    a: Seq<SchedBlock>,
    b: Seq<SchedBlock>,
    reads: FrameReads,
    escapes: FrameEscapes,
    keeps: Seq<Seq<bool>>,
) -> bool {
    &&& b.len() == a.len()
    &&& keeps.len() == a.len()
    &&& forall|i: int|
        0 <= i < a.len() ==> without_write_only(a[i], #[trigger] b[i], reads, escapes, keeps[i])
}

/// How many instructions the first `k` marks leave out.
pub open spec fn left_out(keeps: Seq<Seq<bool>>, k: int) -> nat
    decreases k,
{
    if k <= 0 {
        0
    } else {
        left_out(keeps, k - 1) + unmarked(keeps[k - 1])
    }
}

proof fn lemma_left_out_same(a: Seq<Seq<bool>>, b: Seq<Seq<bool>>, k: int)
    requires
        0 <= k <= a.len(),
        k <= b.len(),
        forall|i: int| 0 <= i < k ==> a[i] == b[i],
    ensures
        left_out(a, k) == left_out(b, k),
    decreases k,
{
    if k > 0 {
        lemma_left_out_same(a, b, k - 1);
    }
}

proof fn lemma_left_out_grows(keeps: Seq<Seq<bool>>, i: int, k: int)
    requires
        0 <= i <= k,
    ensures
        left_out(keeps, i) <= left_out(keeps, k),
    decreases k,
{
    if i < k {
        lemma_left_out_grows(keeps, i, k - 1);
    }
}

/// Delete stores to frame slots that no block reads and no callee can reach, returning how
/// many were removed. Soundness rests on both analyses together.
pub fn drop_write_only_frame_slots(
    blocks: &mut Vec<SchedBlock>,
    reads: &FrameReads,
    escapes: &FrameEscapes,
) -> (n: usize)
    requires
        forall|k: int| 0 <= k < old(blocks)@.len() ==> frames_ok(#[trigger] old(blocks)@[k]),
        forall|k: int|
            0 <= k < reads.runs@.len() ==> (#[trigger] reads.runs@[k]).0 < reads.runs@[k].1,
    ensures
        exists|keeps: Seq<Seq<bool>>| #[trigger]
            all_without_write_only(old(blocks)@, final(blocks)@, *reads, *escapes, keeps) && (
            left_out(keeps, keeps.len() as int) <= usize::MAX ==> n == left_out(
                keeps,
                keeps.len() as int,
            )),
{
    let ghost b0 = blocks@;
    let ghost mut keeps: Seq<Seq<bool>> = Seq::empty();
    let mut n: usize = 0;
    let mut k: usize = 0;
    while k < blocks.len()
        invariant
            k <= blocks@.len() == b0.len(),
            forall|i: int| 0 <= i < b0.len() ==> frames_ok(#[trigger] b0[i]),
            forall|i: int|
                0 <= i < reads.runs@.len() ==> (#[trigger] reads.runs@[i]).0 < reads.runs@[i].1,
            keeps.len() == k,
            left_out(keeps, k as int) <= usize::MAX ==> n == left_out(keeps, k as int),
            forall|i: int|
                0 <= i < b0.len() ==> if i < k {
                    without_write_only(b0[i], #[trigger] blocks@[i], *reads, *escapes, keeps[i])
                } else {
                    blocks@[i] == b0[i]
                },
        decreases blocks@.len() - k,
    {
        let ghost before = blocks@;
        let ghost keeps0 = keeps;
        proof {
            assert(blocks@[k as int] == b0[k as int]);
            assert(frames_ok(b0[k as int]));
        }
        let (keep, gone) = mark_write_only(&blocks[k], reads, escapes);
        retain(&mut blocks[k].instrs, &keep);
        n = n.wrapping_add(gone);
        proof {
            keeps = keeps.push(keep@);
            lemma_left_out_same(keeps0, keeps, k as int);
            lemma_left_out_grows(keeps, k as int, k + 1);
            assert forall|i: int| 0 <= i < b0.len() implies if i < k + 1 {
                without_write_only(b0[i], #[trigger] blocks@[i], *reads, *escapes, keeps[i])
            } else {
                blocks@[i] == b0[i]
            } by {
                if i != k {
                    assert(blocks@[i] == before[i]);
                    if i < k {
                        assert(keeps[i] == keeps0[i]);
                    }
                }
            }
        }
        k = k + 1;
    }
    proof {
        assert(all_without_write_only(b0, blocks@, *reads, *escapes, keeps));
    }
    n
}

/// How many instructions the first `k` blocks have.
pub open spec fn instrs_upto(blocks: Seq<SchedBlock>, k: int) -> nat
    decreases k,
{
    if k <= 0 {
        0
    } else {
        instrs_upto(blocks, k - 1) + blocks[k - 1].instrs@.len()
    }
}

proof fn lemma_instrs_grow(blocks: Seq<SchedBlock>, i: int, k: int)
    requires
        0 <= i <= k,
    ensures
        instrs_upto(blocks, i) <= instrs_upto(blocks, k),
    decreases k,
{
    if i < k {
        lemma_instrs_grow(blocks, i, k - 1);
    }
}

/// Total instructions across a scheduled function, for sizing.
pub fn instr_count(blocks: &Vec<SchedBlock>) -> (n: usize)
    requires
        instrs_upto(blocks@, blocks@.len() as int) <= usize::MAX,
    ensures
        n == instrs_upto(blocks@, blocks@.len() as int),
{
    let mut n: usize = 0;
    let mut k: usize = 0;
    while k < blocks.len()
        invariant
            k <= blocks@.len(),
            instrs_upto(blocks@, blocks@.len() as int) <= usize::MAX,
            n == instrs_upto(blocks@, k as int),
        decreases blocks@.len() - k,
    {
        proof {
            lemma_instrs_grow(blocks@, k + 1, blocks@.len() as int);
        }
        n = n + blocks[k].instrs.len();
        k = k + 1;
    }
    n
}

/// Lower a single block without any pass over the whole function.
pub fn schedule_one(cfg: &Cfg, b: &Block) -> (sb: SchedBlock)
    requires
        cfg.arena.wf(),
        cfg.arena.nodes@.len() <= u32::MAX,
        crate::ir::lower::block_held(cfg.arena.nodes@, *b),
    ensures
        sched_ok(sb),
        exists|placed: Map<usize, Operand>| #[trigger] lowered(cfg.arena.nodes@, *b, sb, placed),
        drawn_up(*cfg, *b, sb),
{
    schedule_block(cfg, b)
}

/// Whether a block is another with addresses folded.
pub open spec fn folded_block(a: SchedBlock, b: SchedBlock) -> bool {
    &&& same_but_instrs(a, b)
    &&& b.instrs@ == Seq::new(a.instrs@.len(), |i: int| folded(a.instrs@, a.instrs@[i]))
}

/// Whether a block is a lowered one, with addresses folded.
pub open spec fn lowers(cfg: Cfg, b: Block, raw: SchedBlock, sb: SchedBlock) -> bool {
    &&& exists|placed: Map<usize, Operand>| #[trigger] lowered(cfg.arena.nodes@, b, raw, placed)
    &&& drawn_up(cfg, b, raw)
    &&& folded_block(raw, sb)
}

/// What every block is after lowering: in sequence, with nothing folded into its branch.
spec fn plain_block(b: SchedBlock) -> bool {
    sched_ok(b) && b.fused is None
}

fn lower_all(cfg: &Cfg) -> (r: (Vec<SchedBlock>, Ghost<Seq<SchedBlock>>))
    requires
        cfg.arena.wf(),
        cfg.arena.nodes@.len() <= u32::MAX,
        blocks_held(cfg.arena.nodes@, cfg.blocks@),
    ensures
        r.0@.len() == cfg.blocks@.len() == r.1@.len(),
        forall|i: int|
            0 <= i < r.0@.len() ==> lowers(*cfg, cfg.blocks@[i], r.1@[i], #[trigger] r.0@[i]),
        forall|i: int| 0 <= i < r.0@.len() ==> plain_block(#[trigger] r.0@[i]),
{
    let mut out: Vec<SchedBlock> = Vec::new();
    let ghost mut raws: Seq<SchedBlock> = Seq::empty();
    while out.len() < cfg.blocks.len()
        invariant
            cfg.arena.wf(),
            cfg.arena.nodes@.len() <= u32::MAX,
            blocks_held(cfg.arena.nodes@, cfg.blocks@),
            out@.len() <= cfg.blocks@.len(),
            raws.len() == out@.len(),
            forall|i: int|
                0 <= i < out@.len() ==> lowers(*cfg, cfg.blocks@[i], raws[i], #[trigger] out@[i]),
            forall|i: int| 0 <= i < out@.len() ==> plain_block(#[trigger] out@[i]),
        decreases cfg.blocks@.len() - out@.len(),
    {
        let k: usize = out.len();
        let ghost out0 = out@;
        let ghost raws0 = raws;
        proof {
            assert(crate::ir::lower::block_held(cfg.arena.nodes@, cfg.blocks@[k as int]));
        }
        let mut sb = schedule_block(cfg, &cfg.blocks[k]);
        let ghost raw = sb;
        fold_addressing(&mut sb);
        proof {
            lemma_folded_ok(raw, sb);
            raws = raws.push(raw);
            assert(folded_block(raw, sb));
            assert(lowers(*cfg, cfg.blocks@[k as int], raw, sb));
        }
        out.push(sb);
        proof {
            assert forall|i: int| 0 <= i < out@.len() implies lowers(
                *cfg,
                cfg.blocks@[i],
                raws[i],
                #[trigger] out@[i],
            ) && plain_block(out@[i]) by {
                if i < k {
                    assert(out@[i] == out0[i] && raws[i] == raws0[i]);
                }
            }
        }
    }
    (out, Ghost(raws))
}

/// Renaming entry values adds no read of a value, and moves no frame access.
proof fn lemma_renamed_reads(f: spec_fn(Reg) -> Option<Reg>, a: Instr, b: Instr)
    requires
        renamed_instr(f, a, b),
    ensures
        defines(b) == defines(a),
        reads(b).len() == reads(a).len(),
        forall|k: int| 0 <= k < reads(a).len() ==> #[trigger] reads(b)[k] == renamed(f, reads(a)[k]),
        crate::ir::anchor::small_frames(a) ==> crate::ir::anchor::small_frames(b),
{
}

/// Renaming entry values keeps a block in order.
proof fn lemma_renamed_ok(f: spec_fn(Reg) -> Option<Reg>, a: SchedBlock, b: SchedBlock)
    requires
        plain_block(a),
        renamed_block(f, a, b),
    ensures
        plain_block(b),
{
    let x = a.instrs@;
    let y = b.instrs@;
    assert forall|i: int| 0 <= i < x.len() implies defines(#[trigger] y[i]) == defines(x[i])
        && crate::ir::anchor::small_frames(y[i]) && crate::ir::schedule::reads_window(y[i]) by {
        lemma_renamed_reads(f, x[i], y[i]);
        assert(crate::ir::anchor::small_frames(x[i]) && crate::ir::schedule::reads_window(x[i]));
        assert forall|k: int| 0 <= k < reads(y[i]).len() implies in_window(#[trigger] reads(y[i])[k]) by {
            assert(in_window(reads(x[i])[k]));
        }
    }
    assert forall|i: int, v: ValId|
        0 <= i < x.len() && #[trigger] reads_value(reads(y[i]), v) implies reads_value(
        reads(x[i]),
        v,
    ) || defined_in(x, i, v) by {
        lemma_renamed_reads(f, x[i], y[i]);
        let k = choose|k: int| 0 <= k < reads(y[i]).len() && reads(y[i])[k] == Operand::Val(v);
        assert(reads(x[i])[k] == Operand::Val(v));
    }
    lemma_pointwise(x, y);
    assert(code_ok(y));
    assert(kept(b).len() == kept(a).len());
    assert forall|k: int| 0 <= k < kept(b).len() implies operand_ready(y, #[trigger] kept(b)[k])
        && in_window(kept(b)[k]) by {
        assert(kept(b)[k] == renamed(f, kept(a)[k]));
        assert(operand_ready(x, kept(a)[k]) && in_window(kept(a)[k]));
        if let Operand::Val(v) = kept(b)[k] {
            assert(kept(a)[k] == Operand::Val(v));
            assert(defined_in(x, x.len() as int, v));
            assert(defined_in(y, x.len() as int, v));
        }
    }
}

/// Dropping exits keeps a block in order.
proof fn lemma_pruned_ok(a: SchedBlock, b: SchedBlock)
    requires
        plain_block(a),
        b == (SchedBlock { exits: b.exits, ..a }),
        forall|i: int| 0 <= i < b.exits@.len() ==> a.exits@.contains(#[trigger] b.exits@[i]),
    ensures
        plain_block(b),
{
    let n = a.exits@.len();
    let m = b.exits@.len();
    assert forall|k: int| 0 <= k < kept(b).len() implies operand_ready(
        b.instrs@,
        #[trigger] kept(b)[k],
    ) && in_window(kept(b)[k]) by {
        if k < m {
            assert(a.exits@.contains(b.exits@[k]));
            let j = choose|j: int| 0 <= j < n && a.exits@[j] == b.exits@[k];
            assert(kept(a)[j] == kept(b)[k]);
        } else {
            assert(kept(a)[k - m + n] == kept(b)[k]);
        }
    }
}

/// What a filter leaves was there.
proof fn lemma_filtered_exits(
    s: Seq<(Reg, Operand)>,
    f: spec_fn((Reg, Operand)) -> bool,
)
    ensures
        forall|i: int| 0 <= i < s.filter(f).len() ==> s.contains(#[trigger] s.filter(f)[i]),
    decreases s.len(),
{
    reveal(Seq::filter);
    if s.len() > 0 {
        let rest = s.drop_last();
        lemma_filtered_exits(rest, f);
        assert(s =~= rest.push(s.last()));
        rest.lemma_filter_push(s.last(), f);
        assert forall|i: int| 0 <= i < s.filter(f).len() implies s.contains(
            #[trigger] s.filter(f)[i],
        ) by {
            if i < rest.filter(f).len() {
                assert(rest.contains(rest.filter(f)[i]));
                let j = choose|j: int| 0 <= j < rest.len() && rest[j] == rest.filter(f)[i];
                assert(s[j] == s.filter(f)[i]);
            } else {
                assert(s[s.len() - 1] == s.filter(f)[i]);
            }
        }
    }
}

/// Dropping stores keeps a block in order.
proof fn lemma_stores_ok(
    a: SchedBlock,
    b: SchedBlock,
    r: FrameReads,
    e: FrameEscapes,
    keep: Seq<bool>,
)
    requires
        plain_block(a),
        without_write_only(a, b, r, e, keep),
    ensures
        plain_block(b),
{
    assert forall|i: int| 0 <= i < keep.len() && !#[trigger] keep[i] implies defines(
        a.instrs@[i],
    ) is None by {
        assert(write_only(a.instrs@[i], r, e));
    }
    lemma_dropped_ok(a.instrs@, keep);
    assert(kept(b) == kept(a));
    assert forall|k: int| 0 <= k < kept(b).len() implies operand_ready(
        b.instrs@,
        #[trigger] kept(b)[k],
    ) && in_window(kept(b)[k]) by {
        assert(operand_ready(a.instrs@, kept(a)[k]));
    }
}

/// Frame addresses that leak from blocks in order are those the window allows.
proof fn lemma_leaks_small(bs: Seq<SchedBlock>, x: i64)
    requires
        forall|i: int| 0 <= i < bs.len() ==> plain_block(#[trigger] bs[i]),
        leaked(bs, x),
    ensures
        x < i64::MAX,
{
    let k = choose|k: int| 0 <= k < bs.len() && leaked_in(#[trigger] bs[k], x);
    let b = bs[k];
    let o = Operand::Frame(x);
    if crate::ir::frame::end_leaks(b).contains(o) {
        let j = choose|j: int|
            0 <= j < crate::ir::frame::end_leaks(b).len() && crate::ir::frame::end_leaks(b)[j] == o;
        assert(crate::ir::frame::end_leaks(b) =~= kept(b));
        assert(kept(b)[j] == o);
        assert(in_window(kept(b)[j]));
    } else {
        let i = choose|i: int|
            0 <= i < b.instrs@.len() && crate::ir::frame::leaks(#[trigger] b.instrs@[i]).contains(o);
        let ins = b.instrs@[i];
        assert(crate::ir::schedule::reads_window(ins));
        let ls = crate::ir::frame::leaks(ins);
        let j = choose|j: int| 0 <= j < ls.len() && ls[j] == o;
        match ins {
            Instr::Store { .. } => {
                assert(reads(ins)[1] == o);
            },
            Instr::Boxed { mem, uses, .. } => {
                if mem is Some {
                    assert(reads(ins)[j + 1] == o);
                } else {
                    assert(reads(ins)[j] == o);
                }
            },
            _ => {
                assert(reads(ins)[j] == o);
            },
        }
    }
}

/// Whether frame slots that may be read are those a callee may reach.
pub open spec fn escapes_of(bs: Seq<SchedBlock>, e: FrameEscapes) -> bool {
    forall|k: i64|
        k < i64::MAX ==> (#[trigger] e.escapes(k) <==> k >= 0 || exists|x: i64| #[trigger]
            leaked(bs, x) && same_stretch(bs, x as int, k as int))
}

/// Whether ranges are those that some block reads.
pub open spec fn reads_of(bs: Seq<SchedBlock>, r: FrameReads) -> bool {
    forall|p: int| #[trigger] in_run(r.runs@, p) <==> read_anywhere(bs, p)
}

/// Whether a block is another with only the bytes stored that are seen.
pub open spec fn narrowed_block(a: SchedBlock, b: SchedBlock) -> bool {
    &&& same_but_instrs(a, b)
    &&& b.instrs@ == Seq::new(a.instrs@.len(), |i: int| narrowed(a.instrs@, i))
}

/// A block's stores narrowed, then its dead code removed.
pub open spec fn cleaned(
    a: SchedBlock,
    mid: SchedBlock,
    b: SchedBlock,
    e: FrameEscapes,
    keep: Seq<bool>,
) -> bool {
    &&& narrowed_block(a, mid)
    &&& without_dead(mid, e, b, keep)
    &&& b == (SchedBlock { instrs: b.instrs, fused: b.fused, ..mid })
}

pub open spec fn all_cleaned(
    a: Seq<SchedBlock>,
    mids: Seq<SchedBlock>,
    b: Seq<SchedBlock>,
    e: FrameEscapes,
    keeps: Seq<Seq<bool>>,
) -> bool {
    &&& b.len() == a.len() == mids.len() == keeps.len()
    &&& forall|i: int| 0 <= i < a.len() ==> cleaned(a[i], mids[i], #[trigger] b[i], e, keeps[i])
}

fn clean_all(blocks: &mut Vec<SchedBlock>, escapes: &FrameEscapes) -> (r: (
    usize,
    Ghost<Seq<SchedBlock>>,
    Ghost<Seq<Seq<bool>>>,
))
    requires
        forall|i: int| 0 <= i < old(blocks)@.len() ==> plain_block(#[trigger] old(blocks)@[i]),
    ensures
        all_cleaned(old(blocks)@, r.1@, final(blocks)@, *escapes, r.2@),
        left_out(r.2@, r.2@.len() as int) <= usize::MAX ==> r.0 == left_out(
            r.2@,
            r.2@.len() as int,
        ),
        forall|i: int| 0 <= i < final(blocks)@.len() ==> sched_ok(#[trigger] final(blocks)@[i]),
{
    let ghost b0 = blocks@;
    let ghost mut mids: Seq<SchedBlock> = Seq::empty();
    let ghost mut keeps: Seq<Seq<bool>> = Seq::empty();
    let mut removed: usize = 0;
    let mut k: usize = 0;
    while k < blocks.len()
        invariant
            k <= blocks@.len() == b0.len(),
            mids.len() == k,
            keeps.len() == k,
            left_out(keeps, k as int) <= usize::MAX ==> removed == left_out(keeps, k as int),
            forall|i: int| 0 <= i < b0.len() ==> plain_block(#[trigger] b0[i]),
            forall|i: int|
                0 <= i < b0.len() ==> if i < k {
                    cleaned(b0[i], mids[i], #[trigger] blocks@[i], *escapes, keeps[i]) && sched_ok(
                        blocks@[i],
                    )
                } else {
                    blocks@[i] == b0[i]
                },
        decreases blocks@.len() - k,
    {
        let ghost before = blocks@;
        let ghost mids0 = mids;
        let ghost keeps0 = keeps;
        proof {
            assert(blocks@[k as int] == b0[k as int]);
            assert(plain_block(b0[k as int]));
        }
        narrow_partially_dead_stores(&mut blocks[k]);
        let ghost mid = blocks@[k as int];
        let n: usize = eliminate_dead_with(&mut blocks[k], escapes);
        removed = removed.wrapping_add(n);
        proof {
            let after = blocks@[k as int];
            let keep = choose|keep: Seq<bool>| #[trigger]
                without_dead(mid, *escapes, after, keep) && n == unmarked(keep);
            assert(narrowed_block(b0[k as int], mid));
            assert(cleaned(b0[k as int], mid, after, *escapes, keep));
            mids = mids.push(mid);
            keeps = keeps.push(keep);
            lemma_left_out_same(keeps0, keeps, k as int);
            lemma_left_out_grows(keeps, k as int, k + 1);
            assert forall|i: int| 0 <= i < b0.len() implies if i < k + 1 {
                cleaned(b0[i], mids[i], #[trigger] blocks@[i], *escapes, keeps[i]) && sched_ok(
                    blocks@[i],
                )
            } else {
                blocks@[i] == b0[i]
            } by {
                if i != k {
                    assert(blocks@[i] == before[i]);
                    if i < k {
                        assert(mids[i] == mids0[i] && keeps[i] == keeps0[i]);
                    }
                }
            }
        }
        k = k + 1;
    }
    (removed, Ghost(mids), Ghost(keeps))
}

/// Retargeting keeps blocks in order.
proof fn lemma_retargeted_ok(
    map: Seq<(crate::ir::graph::BlockId, crate::ir::graph::BlockId)>,
    n: nat,
    a: Seq<SchedBlock>,
    b: Seq<SchedBlock>,
)
    requires
        all_retargeted(map, n, a, b),
        forall|i: int| 0 <= i < a.len() ==> sched_ok(#[trigger] a[i]),
    ensures
        forall|i: int| 0 <= i < b.len() ==> sched_ok(#[trigger] b[i]),
{
    assert forall|i: int| 0 <= i < b.len() implies sched_ok(#[trigger] b[i]) by {
        assert(sched_ok(a[i]));
        assert(kept(b[i]) == kept(a[i]));
    }
}

/// What is picked of blocks in order is in order.
proof fn lemma_picked_ok(blocks: Seq<SchedBlock>, p: spec_fn(int) -> bool, k: int)
    requires
        0 <= k <= blocks.len(),
        forall|i: int| 0 <= i < blocks.len() ==> sched_ok(#[trigger] blocks[i]),
    ensures
        forall|i: int|
            0 <= i < blocks_where(blocks, p, k).len() ==> sched_ok(
                #[trigger] blocks_where(blocks, p, k)[i],
            ),
    decreases k,
{
    if k > 0 {
        lemma_picked_ok(blocks, p, k - 1);
        let s = blocks_where(blocks, p, k - 1);
        assert forall|i: int| 0 <= i < blocks_where(blocks, p, k).len() implies sched_ok(
            #[trigger] blocks_where(blocks, p, k)[i],
        ) by {
            if i < s.len() {
                assert(blocks_where(blocks, p, k)[i] == s[i]);
            } else {
                assert(sched_ok(blocks[k - 1]));
            }
        }
    }
}

/// The blocks of a function between the passes that schedule it.
pub ghost struct Stages {
    pub raw: Seq<SchedBlock>,
    pub lowered: Seq<SchedBlock>,
    pub renamed: Seq<SchedBlock>,
    pub pruned: Seq<SchedBlock>,
    pub escapes: FrameEscapes,
    pub reads: FrameReads,
    pub stored: Seq<SchedBlock>,
    pub store_marks: Seq<Seq<bool>>,
    pub narrow: Seq<SchedBlock>,
    pub cleaned: Seq<SchedBlock>,
    pub marks: Seq<Seq<bool>>,
    pub merged: Seq<SchedBlock>,
    pub threaded: Seq<SchedBlock>,
}

/// Whether blocks are others with only the exits that still matter.
pub open spec fn all_pruned(cfg: Cfg, a: Seq<SchedBlock>, b: Seq<SchedBlock>) -> bool {
    &&& b.len() == a.len()
    &&& forall|i: int|
        0 <= i < a.len() ==> (#[trigger] b[i]) == (SchedBlock { exits: b[i].exits, ..a[i] })
            && b[i].exits@ == kept_exits(cfg.blocks@, a, i)
}

/// The passes that schedule a function, one after the other. Which registers are read is
/// settled before dead exits are dropped; what escapes and what is read is found before any
/// block is rewritten, since a pointer can be made in one block and used in another.
pub open spec fn schedule_steps(cfg: Cfg, s: Stages, out: Seq<SchedBlock>) -> bool {
    &&& s.raw.len() == cfg.blocks@.len()
    &&& s.lowered.len() == cfg.blocks@.len()
    &&& forall|i: int|
        0 <= i < s.lowered.len() ==> lowers(cfg, cfg.blocks@[i], s.raw[i], #[trigger] s.lowered[i])
    &&& reads_renamed(cfg, s.lowered, s.renamed)
    &&& all_pruned(cfg, s.renamed, s.pruned)
    &&& escapes_of(s.pruned, s.escapes)
    &&& reads_of(s.pruned, s.reads)
    &&& all_without_write_only(s.pruned, s.stored, s.reads, s.escapes, s.store_marks)
    &&& all_cleaned(s.stored, s.narrow, s.cleaned, s.escapes, s.marks)
    &&& all_retargeted(merged(s.cleaned, s.cleaned.len() as int), 1, s.cleaned, s.merged)
    &&& all_retargeted(
        forwarding(s.merged, s.merged.len() as int),
        forwarding(s.merged, s.merged.len() as int).len(),
        s.merged,
        s.threaded,
    )
    &&& out == blocks_where(s.threaded, reached(s.threaded), s.threaded.len() as int)
}

/// Whether code is what a function is scheduled to, with so many instructions removed as
/// dead.
pub open spec fn schedules(cfg: Cfg, out: Seq<SchedBlock>, removed: usize) -> bool {
    exists|s: Stages| #[trigger]
        schedule_steps(cfg, s, out) && (left_out(s.marks, s.marks.len() as int) <= usize::MAX
            ==> removed == left_out(s.marks, s.marks.len() as int))
}

/// What scheduling asks of a graph: every reference is to a node, and there are not too many
/// of either.
pub open spec fn schedulable(cfg: Cfg) -> bool {
    &&& cfg.arena.wf()
    &&& cfg.arena.nodes@.len() <= u32::MAX
    &&& blocks_held(cfg.arena.nodes@, cfg.blocks@)
    &&& 32 * cfg.blocks@.len() <= usize::MAX
}

/// Schedule every block of a recovered function, also reporting how many instructions dead
/// code elimination removed.
pub fn schedule_counted(cfg: &Cfg) -> (r: (Vec<SchedBlock>, usize))
    requires
        schedulable(*cfg),
    ensures
        schedules(*cfg, r.0@, r.1),
        forall|i: int| 0 <= i < r.0@.len() ==> sched_ok(#[trigger] r.0@[i]),
{
    let (mut out, Ghost(raw)) = lower_all(cfg);
    let ghost s_lowered = out@;
    rename_entry_reads(cfg, &mut out);
    let ghost s_renamed = out@;
    proof {
        assert forall|i: int| 0 <= i < s_renamed.len() implies plain_block(#[trigger] s_renamed[i]) by {
            assert(plain_block(s_lowered[i]));
            lemma_renamed_ok(
                homes_in(*cfg, s_lowered[i], cfg.blocks@[i]),
                s_lowered[i],
                s_renamed[i],
            );
        }
    }
    prune_dead_exits(cfg, &mut out);
    let ghost s_pruned = out@;
    proof {
        assert forall|i: int| 0 <= i < s_pruned.len() implies plain_block(#[trigger] s_pruned[i]) by {
            assert(plain_block(s_renamed[i]));
            let keep = |e: (Reg, Operand)|
                e.0 == Reg::Rsp || crate::ir::prune::live_out(cfg.blocks@, s_renamed, i, e.0);
            lemma_filtered_exits(s_renamed[i].exits@, keep);
            assert(s_pruned[i].exits@ == s_renamed[i].exits@.filter(keep));
            lemma_pruned_ok(s_renamed[i], s_pruned[i]);
        }
        assert forall|x: i64| #[trigger] leaked(s_pruned, x) implies x < i64::MAX by {
            lemma_leaks_small(s_pruned, x);
        }
        assert forall|i: int| 0 <= i < s_pruned.len() implies frames_ok(#[trigger] s_pruned[i]) by {
            assert(plain_block(s_pruned[i]));
        }
    }
    let escapes = analyze_frame_escapes(&out);
    let reads = analyze_frame_reads(&out);
    drop_write_only_frame_slots(&mut out, &reads, &escapes);
    let ghost s_stored = out@;
    let ghost store_marks = choose|keeps: Seq<Seq<bool>>| #[trigger]
        all_without_write_only(s_pruned, s_stored, reads, escapes, keeps);
    proof {
        assert forall|i: int| 0 <= i < s_stored.len() implies plain_block(#[trigger] s_stored[i]) by {
            assert(plain_block(s_pruned[i]));
            lemma_stores_ok(s_pruned[i], s_stored[i], reads, escapes, store_marks[i]);
        }
    }
    let (removed, Ghost(narrow), Ghost(marks)) = clean_all(&mut out, &escapes);
    let ghost s_cleaned = out@;
    merge_identical_returns(&mut out);
    let ghost s_merged = out@;
    thread_empty_jumps(&mut out);
    let ghost s_threaded = out@;
    proof {
        lemma_retargeted_ok(
            merged(s_cleaned, s_cleaned.len() as int),
            1,
            s_cleaned,
            s_merged,
        );
        lemma_retargeted_ok(
            forwarding(s_merged, s_merged.len() as int),
            forwarding(s_merged, s_merged.len() as int).len(),
            s_merged,
            s_threaded,
        );
        lemma_picked_ok(s_threaded, reached(s_threaded), s_threaded.len() as int);
    }
    let kept_blocks = drop_unreachable(out);
    proof {
        let s = Stages {
            raw,
            lowered: s_lowered,
            renamed: s_renamed,
            pruned: s_pruned,
            escapes,
            reads,
            stored: s_stored,
            store_marks,
            narrow,
            cleaned: s_cleaned,
            marks,
            merged: s_merged,
            threaded: s_threaded,
        };
        assert(schedule_steps(*cfg, s, kept_blocks@));
    }
    (kept_blocks, removed)
}

/// Schedule every block of a recovered function.
pub fn schedule(cfg: &Cfg) -> (out: Vec<SchedBlock>)
    requires
        schedulable(*cfg),
    ensures
        exists|removed: usize| #[trigger] schedules(*cfg, out@, removed),
        forall|i: int| 0 <= i < out@.len() ==> sched_ok(#[trigger] out@[i]),
{
    let (out, removed) = schedule_counted(cfg);
    proof {
        assert(schedules(*cfg, out@, removed));
    }
    out
}

} // verus!
