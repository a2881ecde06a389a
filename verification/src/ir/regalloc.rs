//! Register allocation over scheduled blocks.

use crate::ir::instr::{CastKind, Instr, Operand, SchedBlock};
use crate::ir::linear::{
    adds, allocates, chosen, claims, copies_upto, cuts_upto, ends_at, ends_last, head_of,
    held_from, is_free, is_tail, leaving_in, lemma_copy_in, lemma_cut_of, lemma_placed_in,
    lists_work, moved_out, moved_to, next_free, ranges_of, read_first, scan_start, scan_step,
    scans, seeded_registers, seeded_segments, seen_at, segment_of, slot_for, still_held,
    vacated_for, wanted_for, with_slot, Scanned,
};
use crate::ir::live::{
    clobber_points, clobbers_ok, constrained, constraints, def_upto, destroys, entry_end,
    in_order, is_volatile, lists, live_end, no_later, place, range_ok, ranges, spans, spans_call,
    volatile, Clobber, Item, Range, ALLOCATABLE, VOLATILE,
};
use crate::ir::value::{Reg, GPRS};
use std::collections::HashMap;
use vstd::prelude::*;

verus! {

broadcast use vstd::std_specs::hash::group_hash_axioms;

/// Where a value physically lives.
#[derive(Debug, Clone, Copy, PartialEq, Eq, Hash, Structural)]
pub enum Loc {
    Reg(Reg),
    /// A slot in the reconstructed stack frame.
    Spill(u32),
}

/// One value's location over one span of the block.
#[derive(Debug, Clone, Copy, PartialEq, Eq, Structural)]
pub struct Segment {
    pub item: Item,
    pub start: usize,
    pub end: usize,
    pub loc: Loc,
}

/// A copy the emitter must insert, because a value changes location at `at`.
#[derive(Debug, Clone, Copy, PartialEq, Eq, Structural)]
pub struct Copy_ {
    pub item: Item,
    pub at: usize,
    pub from: Loc,
    pub to: Loc,
}

/// The result of allocating one block.
#[derive(Debug)]
pub struct Alloc {
    pub segments: Vec<Segment>,
    /// Copies to insert, in increasing `at` order.
    pub copies: Vec<Copy_>,
    /// Number of distinct stack slots the block needs.
    pub slots: u32,
}

impl Default for Alloc {
    fn default() -> (r: Self)
        ensures
            r.segments@.len() == 0,
            r.copies@.len() == 0,
            r.slots == 0,
    {
        Alloc { segments: Vec::new(), copies: Vec::new(), slots: 0 }
    }
}

/// Whether a segment gives its item a location at a position.
pub open spec fn lives_at(s: Segment, item: Item, pos: int) -> bool {
    s.item == item && s.start <= pos < s.end
}

/// The location of an item at a position, from the first segment that gives one.
pub open spec fn found_at(segs: Seq<Segment>, item: Item, pos: int) -> Option<Loc>
    decreases segs.len(),
{
    if segs.len() == 0 {
        None
    } else if lives_at(segs[0], item, pos) {
        Some(segs[0].loc)
    } else {
        found_at(segs.skip(1), item, pos)
    }
}

/// Whether something lives in a register at a position.
pub open spec fn occupied(segs: Seq<Segment>, r: Reg, pos: int) -> bool {
    exists|k: int|
        0 <= k < segs.len() && (#[trigger] segs[k]).loc == Loc::Reg(r) && segs[k].start <= pos
            < segs[k].end
}

/// The first register of a pool that is free at a position and not to be avoided.
pub open spec fn first_free(segs: Seq<Segment>, pool: Seq<Reg>, pos: int, avoid: Seq<Reg>) -> Option<
    Reg,
>
    decreases pool.len(),
{
    if pool.len() == 0 {
        None
    } else if !avoid.contains(pool[0]) && !occupied(segs, pool[0], pos) {
        Some(pool[0])
    } else {
        first_free(segs, pool.skip(1), pos, avoid)
    }
}

impl Alloc {
    /// Where `item` lives at instruction `pos`.
    pub fn loc_at(&self, item: Item, pos: usize) -> (r: Option<Loc>)
        ensures
            r == found_at(self.segments@, item, pos as int),
    {
        let mut k: usize = 0;
        proof {
            assert(self.segments@.skip(0) =~= self.segments@);
        }
        while k < self.segments.len()
            invariant
                k <= self.segments@.len(),
                found_at(self.segments@, item, pos as int) == found_at(
                    self.segments@.skip(k as int),
                    item,
                    pos as int,
                ),
            decreases self.segments@.len() - k,
        {
            let s = self.segments[k];
            proof {
                assert(self.segments@.skip(k as int)[0] == s);
                assert(self.segments@.skip(k as int).skip(1) =~= self.segments@.skip(k + 1));
            }
            if s.item == item && s.start <= pos && pos < s.end {
                return Some(s.loc);
            }
            k = k + 1;
        }
        proof {
            assert(self.segments@.skip(k as int).len() == 0);
        }
        None
    }

    /// A volatile register nothing lives in at `pos`, other than those in `avoid`.
    pub fn free_volatile_at(&self, pos: usize, avoid: &[Reg]) -> (r: Option<Reg>)
        ensures
            r == first_free(self.segments@, VOLATILE@, pos as int, avoid@),
    {
        let pool: [Reg; 7] = VOLATILE;
        self.free_from(&pool, pos, avoid)
    }

    fn taken(&self, r: Reg, pos: usize) -> (b: bool)
        ensures
            b == occupied(self.segments@, r, pos as int),
    {
        let mut k: usize = 0;
        while k < self.segments.len()
            invariant
                k <= self.segments@.len(),
                forall|j: int|
                    0 <= j < k ==> !((#[trigger] self.segments@[j]).loc == Loc::Reg(r)
                        && self.segments@[j].start <= pos < self.segments@[j].end),
            decreases self.segments@.len() - k,
        {
            let s = self.segments[k];
            if s.loc == Loc::Reg(r) && s.start <= pos && pos < s.end {
                proof {
                    assert(self.segments@[k as int] == s);
                }
                return true;
            }
            k = k + 1;
        }
        false
    }

    fn free_from(&self, pool: &[Reg], pos: usize, avoid: &[Reg]) -> (r: Option<Reg>)
        ensures
            r == first_free(self.segments@, pool@, pos as int, avoid@),
    {
        let mut k: usize = 0;
        proof {
            assert(pool@.skip(0) =~= pool@);
        }
        while k < pool.len()
            invariant
                k <= pool@.len(),
                first_free(self.segments@, pool@, pos as int, avoid@) == first_free(
                    self.segments@,
                    pool@.skip(k as int),
                    pos as int,
                    avoid@,
                ),
            decreases pool@.len() - k,
        {
            let r = pool[k];
            proof {
                assert(pool@.skip(k as int)[0] == r);
                assert(pool@.skip(k as int).skip(1) =~= pool@.skip(k + 1));
            }
            if !listed(avoid, r) && !self.taken(r, pos) {
                return Some(r);
            }
            k = k + 1;
        }
        proof {
            assert(pool@.skip(k as int).len() == 0);
        }
        None
    }
}

fn listed(v: &[Reg], r: Reg) -> (b: bool)
    ensures
        b == v@.contains(r),
{
    let mut k: usize = 0;
    while k < v.len()
        invariant
            k <= v@.len(),
            forall|j: int| 0 <= j < k ==> #[trigger] v@[j] != r,
        decreases v@.len() - k,
    {
        if v[k] == r {
            return true;
        }
        k = k + 1;
    }
    false
}

/// Registers preserved across a call, and so usable for values live across one.
pub fn non_volatile() -> (v: Vec<Reg>)
    ensures
        v@ == ALLOCATABLE@.filter(|r: Reg| !volatile(r)),
{
    let mut v: Vec<Reg> = Vec::new();
    let mut k: usize = 0;
    let ghost keep = |r: Reg| !volatile(r);
    proof {
        assert(ALLOCATABLE@.take(0) =~= Seq::empty());
        reveal(Seq::filter);
    }
    while k < 15
        invariant
            k <= 15,
            keep == (|r: Reg| !volatile(r)),
            v@ == ALLOCATABLE@.take(k as int).filter(keep),
        decreases 15 - k,
    {
        let r = ALLOCATABLE[k];
        proof {
            assert(ALLOCATABLE@.take(k + 1) =~= ALLOCATABLE@.take(k as int).push(r));
            ALLOCATABLE@.take(k as int).lemma_filter_push(r, keep);
        }
        if !is_volatile(r) {
            v.push(r);
        }
        k = k + 1;
    }
    proof {
        assert(ALLOCATABLE@.take(15) =~= ALLOCATABLE@);
    }
    v
}

/// The first position in an entry value's life that destroys its register.
pub open spec fn first_kill(instrs: Seq<Instr>, r: Reg, last_use: int, c: int) -> bool {
    &&& 0 <= c < instrs.len()
    &&& spans(0, last_use, c)
    &&& destroys(instrs[c], r)
    &&& forall|k: int| 0 <= k < c ==> !destroys(#[trigger] instrs[k], r)
}

/// Whether nothing in an entry value's life destroys its register.
pub open spec fn survives(instrs: Seq<Instr>, r: Reg, last_use: int) -> bool {
    forall|c: int| 0 <= c < instrs.len() && spans(0, last_use, c) ==> !destroys(#[trigger] instrs[c], r)
}

fn find_killer(b: &SchedBlock, cs: &Vec<Clobber>, r: Reg, last_use: usize) -> (k: Option<usize>)
    requires
        clobbers_ok(b.instrs@, cs@),
    ensures
        match k {
            Some(c) => first_kill(b.instrs@, r, last_use as int, c as int),
            None => survives(b.instrs@, r, last_use as int),
        },
{
    let ghost ins = b.instrs@;
    let mut j: usize = 0;
    while j < cs.len()
        invariant
            j <= cs@.len(),
            ins == b.instrs@,
            clobbers_ok(ins, cs@),
            forall|i: int|
                0 <= i < j ==> !(spans(0, last_use as int, (#[trigger] cs@[i]).at as int)
                    && cs@[i].kills(r)),
        decreases cs@.len() - j,
    {
        let c = cs[j];
        let n: usize = b.instrs.len();
        proof {
            assert(crate::ir::live::clobber_ok(ins, cs@[j as int]));
        }
        let kills = match c.regs {
            None => is_volatile(r),
            Some(s) => s.contains(r),
        };
        if kills && spans_call(0, last_use, c.at) {
            proof {
                assert(c.kills(r));
                assert forall|k: int| 0 <= k < c.at implies !destroys(#[trigger] ins[k], r) by {
                    if destroys(ins[k], r) {
                        assert(crate::ir::live::at_some(cs@, k));
                        let i = choose|i: int| 0 <= i < cs@.len() && (#[trigger] cs@[i]).at == k;
                        assert(crate::ir::live::clobber_ok(ins, cs@[i]));
                        assert(cs@[i].kills(r));
                        assert(cs@[j as int].at == c.at);
                        assert(i < j);
                    }
                }
            }
            return Some(c.at);
        }
        j = j + 1;
    }
    proof {
        assert forall|c: int| 0 <= c < ins.len() && spans(0, last_use as int, c) implies !destroys(
            #[trigger] ins[c],
            r,
        ) by {
            if destroys(ins[c], r) {
                assert(crate::ir::live::at_some(cs@, c));
                let i = choose|i: int| 0 <= i < cs@.len() && (#[trigger] cs@[i]).at == c;
                assert(crate::ir::live::clobber_ok(ins, cs@[i]));
                assert(cs@[i].kills(r));
            }
        }
    }
    None
}

/// Whether a list of ranges holds one with this item and extent.
pub open spec fn holds(work: Seq<Range>, item: Item, def: int, last_use: int) -> bool {
    exists|j: int|
        0 <= j < work.len() && (#[trigger] work[j]).item == item && work[j].def == def
            && work[j].last_use == last_use
}

/// Whether a live range is in the work list, whole or split where its register dies.
pub open spec fn placed(instrs: Seq<Instr>, work: Seq<Range>, r: Range) -> bool {
    match r.fixed {
        None => holds(work, r.item, r.def as int, r.last_use as int),
        Some(g) => {
            ||| survives(instrs, g, r.last_use as int) && holds(
                work,
                Item::Entry(g),
                0,
                r.last_use as int,
            )
            ||| exists|c: int|
                first_kill(instrs, g, r.last_use as int, c) && #[trigger] holds(
                    work,
                    Item::Entry(g),
                    0,
                    c,
                ) && holds(work, Item::Saved(g), c, r.last_use as int)
        },
    }
}

/// What a range of the work list says is so.
pub open spec fn work_ok(instrs: Seq<Instr>, w: Range) -> bool {
    match w.fixed {
        Some(g) => w.item == Item::Entry(g) && w.def == 0 && survives(instrs, g, w.last_use as int),
        None => {
            &&& !(w.item is Entry)
            &&& constrained(instrs, w)
            &&& forall|c: int, x: Reg|
                0 <= c < instrs.len() && spans(w.def as int, w.last_use as int, c)
                    && #[trigger] destroys(instrs[c], x) ==> w.avoid.has(x) || (w.crosses_call
                    && volatile(x))
        },
    }
}

/// Whether an item of the work list stems from an item of the range list.
pub open spec fn stems(from: Item, to: Item) -> bool {
    to == from || (from matches Item::Entry(g) && to == Item::Saved(g))
}

/// No item twice.
pub open spec fn distinct_items(work: Seq<Range>) -> bool {
    forall|j: int, k: int|
        0 <= j < k < work.len() ==> (#[trigger] work[j]).item != (#[trigger] work[k]).item
}

proof fn lemma_insert(work: Seq<Range>, p: int, w: Range)
    requires
        0 <= p <= work.len(),
    ensures
        forall|i: Item, d: int, e: int| #[trigger]
            holds(work, i, d, e) ==> holds(work.insert(p, w), i, d, e),
        holds(work.insert(p, w), w.item, w.def as int, w.last_use as int),
        forall|j: int|
            0 <= j < work.len() + 1 ==> (#[trigger] work.insert(p, w)[j]) == if j < p {
                work[j]
            } else if j == p {
                w
            } else {
                work[j - 1]
            },
        distinct_items(work) && (forall|j: int| 0 <= j < work.len() ==> (#[trigger] work[j]).item != w.item)
            ==> distinct_items(work.insert(p, w)),
{
    let next = work.insert(p, w);
    assert forall|i: Item, d: int, e: int| #[trigger] holds(work, i, d, e) implies holds(next, i, d, e) by {
        let j = choose|j: int|
            0 <= j < work.len() && (#[trigger] work[j]).item == i && work[j].def == d
                && work[j].last_use == e;
        if j < p {
            assert(next[j] == work[j]);
        } else {
            assert(next[j + 1] == work[j]);
        }
    }
    assert(next[p] == w);
    if distinct_items(work) && (forall|j: int|
        0 <= j < work.len() ==> (#[trigger] work[j]).item != w.item) {
        assert forall|j: int, k: int| 0 <= j < k < next.len() implies (#[trigger] next[j]).item != (
        #[trigger] next[k]).item by {
            let x = if j < p {
                j
            } else {
                j - 1
            };
            let y = if k < p {
                k
            } else {
                k - 1
            };
            if j != p && k != p {
                assert(work[x].item != work[y].item);
            }
        }
    }
}

/// Two ranges of the block for one item have one extent.
pub proof fn lemma_same_extent(b: SchedBlock, r: Range, s: Range)
    requires
        range_ok(b, r),
        range_ok(b, s),
        r.item == s.item,
    ensures
        r.def == s.def,
        r.last_use == s.last_use,
        r.fixed == s.fixed,
{
}

/// Whether a work list is well made of the first `k` ranges of the block.
#[verifier::opaque]
spec fn listed_ok(b: SchedBlock, rs: Seq<Range>, k: int, work: Seq<Range>) -> bool {
    &&& in_order(work)
    &&& distinct_items(work)
    &&& forall|j: int| 0 <= j < work.len() ==> work_ok(b.instrs@, #[trigger] work[j])
    &&& forall|j: int| 0 <= j < work.len() ==> stems_from(rs, k, (#[trigger] work[j]).item)
    &&& forall|j: int| 0 <= j < work.len() ==> extent_ok(b, #[trigger] work[j])
}

spec fn stems_from(rs: Seq<Range>, k: int, i: Item) -> bool {
    exists|o: int| 0 <= o < k && stems((#[trigger] rs[o]).item, i)
}

/// Whether the range of a computed value spans its life, and a saved value has one.
pub open spec fn extent_ok(b: SchedBlock, w: Range) -> bool {
    match w.item {
        Item::Val(v) => def_upto(b.instrs@, v, b.instrs@.len() as int) == Some(w.def as int)
            && live_end(b, v) == Some(w.last_use as int),
        Item::Entry(_) => true,
        Item::Saved(_) => w.def < w.last_use,
    }
}

/// Whether the cuts are those of the saved values in the work list.
#[verifier::opaque]
spec fn cuts_ok(work: Seq<Range>, cuts: Seq<(Reg, usize)>) -> bool {
    &&& forall|p: int| 0 <= p < cuts.len() ==> cut_in(work, #[trigger] cuts[p])
    &&& forall|j: int|
        0 <= j < work.len() ==> ((#[trigger] work[j]).item matches Item::Saved(g) ==> cuts.contains(
            (g, work[j].def),
        ))
    &&& forall|p: int, q: int|
        0 <= p < q < cuts.len() ==> (#[trigger] cuts[p]).0 != (#[trigger] cuts[q]).0
}

/// Whether a saved value of the list starts at the cut.
pub open spec fn cut_in(work: Seq<Range>, cut: (Reg, usize)) -> bool {
    exists|j: int|
        0 <= j < work.len() && (#[trigger] work[j]).item == Item::Saved(cut.0) && work[j].def == cut.1
}

proof fn lemma_add(b: SchedBlock, rs: Seq<Range>, k: int, work: Seq<Range>, p: int, w: Range)
    requires
        0 <= k < rs.len(),
        listed_ok(b, rs, k, work) || listed_ok(b, rs, k + 1, work),
        0 <= p <= work.len(),
        in_order(work.insert(p, w)),
        work_ok(b.instrs@, w),
        extent_ok(b, w),
        stems(rs[k].item, w.item),
        forall|j: int| 0 <= j < work.len() ==> (#[trigger] work[j]).item != w.item,
    ensures
        listed_ok(b, rs, k + 1, work.insert(p, w)),
{
    reveal(listed_ok);
    lemma_insert(work, p, w);
    let next = work.insert(p, w);
    assert forall|j: int| 0 <= j < next.len() implies stems_from(rs, k + 1, (#[trigger] next[j]).item) by {
        if j == p {
            assert(stems(rs[k].item, w.item));
        } else {
            let x = if j < p {
                j
            } else {
                j - 1
            };
            assert(next[j] == work[x]);
            assert(stems_from(rs, k, work[x].item) || stems_from(rs, k + 1, work[x].item));
            let o = choose|o: int| 0 <= o < k + 1 && stems((#[trigger] rs[o]).item, work[x].item);
            assert(stems(rs[o].item, next[j].item));
        }
    }
}

/// Nothing in the list stems from a range that was not added yet.
proof fn lemma_fresh(b: SchedBlock, rs: Seq<Range>, k: int, work: Seq<Range>, i: Item)
    requires
        0 <= k < rs.len(),
        listed_ok(b, rs, k, work),
        forall|k: int| 0 <= k < rs.len() ==> range_ok(b, #[trigger] rs[k]),
        forall|j: int, k: int|
            0 <= j < k < rs.len() ==> crate::ir::live::before(#[trigger] rs[j], #[trigger] rs[k]),
        stems(rs[k].item, i),
    ensures
        forall|j: int| 0 <= j < work.len() ==> (#[trigger] work[j]).item != i,
{
    reveal(listed_ok);
    assert forall|j: int| 0 <= j < work.len() implies (#[trigger] work[j]).item != i by {
        assert(stems_from(rs, k, work[j].item));
        let o = choose|o: int| 0 <= o < k && stems((#[trigger] rs[o]).item, work[j].item);
        if work[j].item == i {
            assert(range_ok(b, rs[o]));
            assert(range_ok(b, rs[k]));
            assert(rs[o].item == rs[k].item);
            lemma_same_extent(b, rs[o], rs[k]);
            assert(crate::ir::live::before(rs[o], rs[k]));
        }
    }
}

proof fn lemma_cuts(work: Seq<Range>, p: int, w: Range, cuts: Seq<(Reg, usize)>)
    requires
        cuts_ok(work, cuts),
        0 <= p <= work.len(),
    ensures
        !(w.item is Saved) ==> cuts_ok(work.insert(p, w), cuts),
        w.item matches Item::Saved(g) ==> (forall|j: int|
            0 <= j < work.len() ==> (#[trigger] work[j]).item != w.item) ==> cuts_ok(
            work.insert(p, w),
            cuts.push((g, w.def)),
        ),
{
    reveal(cuts_ok);
    lemma_insert(work, p, w);
    let next = work.insert(p, w);
    assert forall|c: (Reg, usize)| #[trigger] cut_in(work, c) implies cut_in(next, c) by {
        let j = choose|j: int|
            0 <= j < work.len() && (#[trigger] work[j]).item == Item::Saved(c.0) && work[j].def == c.1;
        if j < p {
            assert(next[j] == work[j]);
        } else {
            assert(next[j + 1] == work[j]);
        }
    }
    assert(next[p] == w);
    if let Item::Saved(g) = w.item {
        let more = cuts.push((g, w.def));
        assert(cut_in(next, (g, w.def)));
        assert(more[cuts.len() as int] == (g, w.def));
        if forall|j: int| 0 <= j < work.len() ==> (#[trigger] work[j]).item != w.item {
            assert forall|x: int, y: int| 0 <= x < y < more.len() implies (#[trigger] more[x]).0 != (
            #[trigger] more[y]).0 by {
                assert(more[x] == cuts[x]);
                if y == cuts.len() {
                    assert(cut_in(work, cuts[x]));
                } else {
                    assert(more[y] == cuts[y]);
                }
            }
            assert forall|x: int| 0 <= x < more.len() implies cut_in(next, #[trigger] more[x]) by {
                if x < cuts.len() {
                    assert(more[x] == cuts[x]);
                }
            }
            assert forall|j: int| 0 <= j < next.len() implies ((#[trigger] next[j]).item matches Item::Saved(
                h,
            ) ==> more.contains((h, next[j].def))) by {
                if j != p {
                    let x = if j < p {
                        j
                    } else {
                        j - 1
                    };
                    assert(next[j] == work[x]);
                    if let Item::Saved(h) = work[x].item {
                        assert(cuts.contains((h, work[x].def)));
                        let m = choose|m: int| 0 <= m < cuts.len() && cuts[m] == (h, work[x].def);
                        assert(more[m] == (h, work[x].def));
                    }
                }
            }
        }
    }
}

/// What a range promises of the positions that destroy registers.
proof fn lemma_constrained(instrs: Seq<Instr>, r: Range)
    requires
        crate::ir::live::constrained(instrs, r),
        r.fixed is None,
        !(r.item is Entry),
    ensures
        work_ok(instrs, r),
{
    assert forall|x: int, y: Reg|
        0 <= x < instrs.len() && spans(r.def as int, r.last_use as int, x) && #[trigger] destroys(
            instrs[x],
            y,
        ) implies r.avoid.has(y) || (r.crosses_call && volatile(y)) by {
        if instrs[x] is Call {
            assert(crate::ir::live::crosses(instrs, r.def as int, r.last_use as int));
        } else {
            assert(instrs[x] is Boxed);
            assert(crate::ir::live::boxed_kills(instrs, r.def as int, r.last_use as int, y));
        }
    }
}

/// The ranges to place, with a pre-coloured range that something destroys split into a
/// part that keeps its register and a part that must be placed somewhere preserved, and
/// the splits that were made.
#[verifier::rlimit(80)]
#[verifier::spinoff_prover]
fn split(b: &SchedBlock, rs: &Vec<Range>) -> (r: (Vec<Range>, Vec<(Reg, usize)>))
    requires
        forall|k: int| 0 <= k < rs@.len() ==> range_ok(*b, #[trigger] rs@[k]),
        forall|j: int, k: int|
            0 <= j < k < rs@.len() ==> crate::ir::live::before(#[trigger] rs@[j], #[trigger] rs@[k]),
    ensures
        in_order(r.0@),
        listed_ok(*b, rs@, rs@.len() as int, r.0@),
        cuts_ok(r.0@, r.1@),
        forall|k: int| 0 <= k < rs@.len() ==> placed(b.instrs@, r.0@, #[trigger] rs@[k]),
        r.0@.len() <= 2 * rs@.len(),
        exists|lists: Seq<Seq<Range>>| #[trigger]
            lists_work(b.instrs@, rs@, lists) && lists.last() == r.0@,
        r.1@ == cuts_upto(b.instrs@, rs@, rs@.len() as int),
{
    let cs = clobber_points(b);
    let ghost mut lists: Seq<Seq<Range>> = seq![Seq::empty()];
    let mut work: Vec<Range> = Vec::new();
    let mut cuts: Vec<(Reg, usize)> = Vec::new();
    let ghost ins = b.instrs@;
    proof {
        reveal(listed_ok);
        reveal(cuts_ok);
    }
    let mut k: usize = 0;
    while k < rs.len()
        invariant
            k <= rs@.len(),
            ins == b.instrs@,
            clobbers_ok(ins, cs@),
            work@.len() <= 2 * k,
            cuts@ == cuts_upto(ins, rs@, k as int),
            lists.len() == k + 1,
            lists[0] == Seq::<Range>::empty(),
            lists.last() == work@,
            forall|j: int| 0 <= j < k ==> adds(ins, lists[j], #[trigger] rs@[j], lists[j + 1]),
            forall|k: int| 0 <= k < rs@.len() ==> range_ok(*b, #[trigger] rs@[k]),
            forall|j: int, k: int|
                0 <= j < k < rs@.len() ==> crate::ir::live::before(#[trigger] rs@[j], #[trigger] rs@[k]),
            in_order(work@),
            listed_ok(*b, rs@, k as int, work@),
            cuts_ok(work@, cuts@),
            forall|i: int| 0 <= i < k ==> placed(ins, work@, #[trigger] rs@[i]),
        decreases rs@.len() - k,
    {
        let r = rs[k];
        let ghost w0 = work@;
        proof {
            assert(range_ok(*b, rs@[k as int]));
        }
        let killer = match r.fixed {
            Some(g) => find_killer(b, &cs, g, r.last_use),
            None => None,
        };
        match (r.fixed, killer) {
            (Some(g), Some(c)) => {
                let head = Range {
                    item: r.item,
                    def: r.def,
                    last_use: c,
                    crosses_call: false,
                    avoid: r.avoid,
                    fixed: r.fixed,
                };
                let (crosses_call, avoid) = constraints(b, &cs, c, r.last_use);
                let tail = Range {
                    item: Item::Saved(g),
                    def: c,
                    last_use: r.last_use,
                    crosses_call,
                    avoid,
                    fixed: None,
                };
                proof {
                    lemma_constrained(ins, tail);
                    assert(stems(r.item, head.item) && stems(r.item, tail.item));
                    lemma_fresh(*b, rs@, k as int, w0, head.item);
                    lemma_fresh(*b, rs@, k as int, w0, tail.item);
                    assert(work_ok(ins, head));
                }
                let p = place(&mut work, head);
                let ghost w1 = work@;
                proof {
                    lemma_add(*b, rs@, k as int, w0, p as int, head);
                    lemma_insert(w0, p as int, head);
                    lemma_cuts(w0, p as int, head, cuts@);
                    assert forall|j: int| 0 <= j < w1.len() implies (#[trigger] w1[j]).item
                        != tail.item by {}
                }
                let q = place(&mut work, tail);
                proof {
                    lemma_add(*b, rs@, k as int, w1, q as int, tail);
                    lemma_insert(w1, q as int, tail);
                    lemma_placed_in(w0, head, p as int);
                    lemma_placed_in(w1, tail, q as int);
                    assert(head == head_of(r, c));
                    assert(is_tail(ins, r, g, c, tail));
                    assert(adds(ins, w0, r, work@));
                    lemma_cuts(w1, q as int, tail, cuts@);
                    assert(holds(work@, Item::Entry(g), 0, c as int));
                    assert(placed(ins, work@, rs@[k as int]));
                    assert forall|i: int| 0 <= i < k implies placed(ins, work@, #[trigger] rs@[i]) by {
                        lemma_still_placed(ins, w0, w1, rs@[i]);
                        lemma_still_placed(ins, w1, work@, rs@[i]);
                    }
                }
                cuts.push((g, c));
                proof {
                    lemma_cut_of(ins, r, g, c);
                }
            },
            _ => {
                proof {
                    if r.fixed is None {
                        lemma_constrained(ins, r);
                    }
                    assert(work_ok(ins, r));
                    assert(stems(r.item, r.item));
                    lemma_fresh(*b, rs@, k as int, w0, r.item);
                }
                let p = place(&mut work, r);
                proof {
                    lemma_add(*b, rs@, k as int, w0, p as int, r);
                    lemma_insert(w0, p as int, r);
                    lemma_placed_in(w0, r, p as int);
                    assert(adds(ins, w0, r, work@));
                    lemma_cuts(w0, p as int, r, cuts@);
                    assert(placed(ins, work@, rs@[k as int]));
                    assert forall|i: int| 0 <= i < k implies placed(ins, work@, #[trigger] rs@[i]) by {
                        lemma_still_placed(ins, w0, work@, rs@[i]);
                    }
                }
            },
        }
        proof {
            let more = lists.push(work@);
            assert forall|j: int| 0 <= j < k + 1 implies adds(
                ins,
                more[j],
                #[trigger] rs@[j],
                more[j + 1],
            ) by {
                if j < k {
                    assert(more[j] == lists[j] && more[j + 1] == lists[j + 1]);
                } else {
                    assert(more[j] == w0 && more[j + 1] == work@);
                }
            }
            lists = more;
        }
        k = k + 1;
    }
    proof {
        assert(lists_work(ins, rs@, lists));
    }
    (work, cuts)
}

/// A range stays placed while the list grows.
proof fn lemma_still_placed(instrs: Seq<Instr>, w0: Seq<Range>, w1: Seq<Range>, r: Range)
    requires
        placed(instrs, w0, r),
        forall|i: Item, d: int, e: int| #[trigger] holds(w0, i, d, e) ==> holds(w1, i, d, e),
    ensures
        placed(instrs, w1, r),
{
    if let Some(g) = r.fixed {
        if !(survives(instrs, g, r.last_use as int) && holds(
            w0,
            Item::Entry(g),
            0,
            r.last_use as int,
        )) {
            let c = choose|c: int|
                first_kill(instrs, g, r.last_use as int, c) && #[trigger] holds(
                    w0,
                    Item::Entry(g),
                    0,
                    c,
                ) && holds(w0, Item::Saved(g), c, r.last_use as int);
            assert(holds(w1, Item::Entry(g), 0, c));
        }
    }
}

/// Whether a segment gives a range its location.
pub open spec fn seg_for(s: Segment, r: Range) -> bool {
    s.item == r.item && s.start == r.def && s.end == r.last_use
}

/// Whether the earlier of two segments in one register is still needed when the later one
/// starts. `end` is one past the last reading position, so a segment ending just behind the
/// start of another is read by the very instruction that defines the other.
pub open spec fn clash(segs: Seq<Segment>, i: int, j: int) -> bool {
    &&& segs[i].loc is Reg
    &&& segs[i].loc == segs[j].loc
    &&& segs[i].item != segs[j].item
    &&& segs[i].start < segs[j].start || (segs[i].start == segs[j].start && i < j)
    &&& segs[i].end > segs[j].start
    &&& segs[i].end != segs[j].start + 1
}

/// Whether a segment sits in a register nothing in its span destroys.
pub open spec fn kept_whole(instrs: Seq<Instr>, s: Segment) -> bool {
    s.loc matches Loc::Reg(g) ==> forall|c: int|
        0 <= c < instrs.len() && spans(s.start as int, s.end as int, c) ==> !destroys(
            #[trigger] instrs[c],
            g,
        )
}

/// The state of the scan over the ranges, which come in the order of their starts.
struct Scan {
    segments: Vec<Segment>,
    /// The range in each register, by register number.
    busy: Vec<Option<Range>>,
    /// The range each spill slot was given to last, so slots can be reused.
    slots: Vec<Range>,
}

spec fn has_seg(segs: Seq<Segment>, x: Range, loc: Loc) -> bool {
    exists|k: int| 0 <= k < segs.len() && seg_for(#[trigger] segs[k], x) && segs[k].loc == loc
}

spec fn some_seg(segs: Seq<Segment>, x: Range) -> bool {
    exists|k: int| 0 <= k < segs.len() && seg_for(#[trigger] segs[k], x)
}

/// Whether the range at `j` has its place once the scan reached `i`.
spec fn scanned(work: Seq<Range>, i: int, j: int) -> bool {
    0 <= j < work.len() && (work[j].fixed is Some || j < i)
}

spec fn from_work(work: Seq<Range>, i: int, s: Segment) -> bool {
    exists|j: int| scanned(work, i, j) && #[trigger] seg_for(s, work[j])
}

spec fn segs_ok(work: Seq<Range>, i: int, cur: int, segs: Seq<Segment>) -> bool {
    &&& forall|j: int, k: int|
        0 <= j < k < segs.len() ==> (#[trigger] segs[j]).item != (#[trigger] segs[k]).item
    &&& forall|k: int| 0 <= k < segs.len() ==> #[trigger] from_work(work, i, segs[k])
    &&& forall|j: int| scanned(work, i, j) ==> #[trigger] some_seg(segs, work[j])
    &&& forall|k: int|
        0 <= k < segs.len() ==> ((#[trigger] segs[k]).item matches Item::Entry(g) ==> segs[k].loc
            == Loc::Reg(g))
    &&& forall|k: int| 0 <= k < segs.len() ==> (#[trigger] segs[k]).start <= cur
    &&& forall|k: int|
        0 <= k < segs.len() && (#[trigger] segs[k]).loc == Loc::Reg(Reg::Rsp) ==> segs[k].item
            == Item::Entry(Reg::Rsp)
}

spec fn reg_bound(held: Option<Range>, s: Segment, cur: int) -> bool {
    match held {
        Some(x) => seg_for(s, x) || s.end <= x.def + 1,
        None => s.end <= cur + 1,
    }
}

spec fn held_ok(cur: int, segs: Seq<Segment>, held: Option<Range>, g: Reg) -> bool {
    held matches Some(x) ==> x.def <= cur && has_seg(segs, x, Loc::Reg(g)) && (x.fixed is None ==> !(
    x.item is Entry))
}

spec fn busy_ok(cur: int, segs: Seq<Segment>, busy: Seq<Option<Range>>) -> bool {
    &&& busy.len() == 16
    &&& forall|g: Reg|
        held_ok(cur, segs, #[trigger] busy[g.number_spec() as int], g)
    &&& forall|k: int|
        0 <= k < segs.len() ==> ((#[trigger] segs[k]).loc matches Loc::Reg(g) ==> reg_bound(
            busy[g.number_spec() as int],
            segs[k],
            cur,
        ))
}

spec fn slot_bound(tidy: bool, x: Range, s: Segment) -> bool {
    seg_for(s, x) || (tidy ==> s.end <= x.def)
}

/// Two segments never needed at once.
pub open spec fn apart(a: Segment, b: Segment) -> bool {
    a.end <= b.start || b.end <= a.start
}

spec fn slots_ok(tidy: bool, segs: Seq<Segment>, slots: Seq<Range>) -> bool {
    &&& forall|k: int|
        0 <= k < segs.len() ==> ((#[trigger] segs[k]).loc matches Loc::Spill(n) ==> n < slots.len()
            && slot_bound(tidy, slots[n as int], segs[k]))
    &&& forall|j: int, k: int|
        0 <= j < k < segs.len() && (#[trigger] segs[j]).loc is Spill && segs[j].loc == (
        #[trigger] segs[k]).loc ==> (tidy ==> apart(segs[j], segs[k]))
    &&& forall|n: int| 0 <= n < slots.len() ==> (tidy ==> (#[trigger] slots[n]).def <= slots[n].last_use)
}

/// No two segments in one register clash, and none sits in a register something destroys.
pub open spec fn regs_ok(instrs: Seq<Instr>, segs: Seq<Segment>) -> bool {
    &&& forall|j: int, k: int|
        0 <= j < segs.len() && 0 <= k < segs.len() && j != k ==> !#[trigger] clash(segs, j, k)
    &&& forall|k: int| 0 <= k < segs.len() ==> kept_whole(instrs, #[trigger] segs[k])
}

/// Whether every register that may hold a range is taken where the range starts, each by
/// another value that is needed later.
pub open spec fn crowded(segs: Seq<Segment>, r: Range, who: spec_fn(Reg) -> int) -> bool {
    &&& forall|g: Reg|
        #![trigger who(g)]
        may_hold(r, g) ==> 0 <= who(g) < segs.len() && segs[who(g)].item != r.item && segs[who(g)].start
            <= r.def < segs[who(g)].end
    &&& forall|g: Reg, h: Reg|
        may_hold(r, g) && may_hold(r, h) && g != h ==> #[trigger] who(g) != #[trigger] who(h)
}

/// Whether a segment is in a slot for a reason: a range that starts while it is needed, its own
/// or another, found every register that may hold it taken.
pub open spec fn forced_out(instrs: Seq<Instr>, segs: Seq<Segment>, s: Segment) -> bool {
    exists|r: Range, who: spec_fn(Reg) -> int| #[trigger]
        crowded(segs, r, who) && work_ok(instrs, r) && (seg_for(s, r) || s.start <= r.def < s.end)
}

spec fn all_forced(instrs: Seq<Instr>, segs: Seq<Segment>) -> bool {
    forall|k: int|
        0 <= k < segs.len() && (#[trigger] segs[k]).loc is Spill ==> forced_out(instrs, segs, segs[k])
}

/// Segments that are added, or moved to a slot, leave the reasons of the others.
proof fn lemma_crowded_more(a: Seq<Segment>, b: Seq<Segment>, r: Range, who: spec_fn(Reg) -> int)
    requires
        crowded(a, r, who),
        a.len() <= b.len(),
        forall|k: int|
            0 <= k < a.len() ==> (#[trigger] b[k]).item == a[k].item && b[k].start == a[k].start && b[k].end
                == a[k].end,
    ensures
        crowded(b, r, who),
{
    assert forall|g: Reg|
        #![trigger who(g)]
        may_hold(r, g) implies 0 <= who(g) < b.len() && b[who(g)].item != r.item && b[who(g)].start
        <= r.def < b[who(g)].end by {
        assert(b[who(g)].item == a[who(g)].item);
    }
}

proof fn lemma_forced_more(instrs: Seq<Instr>, a: Seq<Segment>, b: Seq<Segment>, k: int)
    requires
        all_forced(instrs, a),
        a.len() <= b.len(),
        forall|j: int|
            0 <= j < a.len() ==> (#[trigger] b[j]).item == a[j].item && b[j].start == a[j].start && b[j].end
                == a[j].end,
        forall|j: int| 0 <= j < a.len() && j != k ==> #[trigger] b[j] == a[j],
        forall|j: int| a.len() <= j < b.len() && j != k ==> (#[trigger] b[j]).loc is Reg,
        0 <= k < b.len() && b[k].loc is Spill ==> forced_out(instrs, b, b[k]),
    ensures
        all_forced(instrs, b),
{
    assert forall|j: int| 0 <= j < b.len() && (#[trigger] b[j]).loc is Spill implies forced_out(
        instrs,
        b,
        b[j],
    ) by {
        if j != k {
            assert(b[j] == a[j]);
            assert(forced_out(instrs, a, a[j]));
            let (r, who) = choose|r: Range, who: spec_fn(Reg) -> int| #[trigger]
                crowded(a, r, who) && work_ok(instrs, r) && (seg_for(a[j], r) || a[j].start <= r.def
                    < a[j].end);
            lemma_crowded_more(a, b, r, who);
        }
    }
}

/// Where no register is free for a range, each is held by a value of its own.
proof fn lemma_crowded(segs: Seq<Segment>, busy: Seq<Option<Range>>, r: Range) -> (who: spec_fn(Reg) -> int)
    requires
        busy_ok(r.def as int, segs, busy),
        forall|k: int| 0 <= k < segs.len() ==> (#[trigger] segs[k]).item != r.item,
        forall|g: Reg|
            may_hold(r, g) ==> (#[trigger] busy[g.number_spec() as int] matches Some(x) && x.last_use
                > r.def),
    ensures
        crowded(segs, r, who),
{
    let who = |g: Reg|
        choose|k: int|
            0 <= k < segs.len() && seg_for(#[trigger] segs[k], busy[g.number_spec() as int]->0) && segs[k].loc
                == Loc::Reg(g);
    assert forall|g: Reg| may_hold(r, g) implies ({
        let k = #[trigger] who(g);
        0 <= k < segs.len() && seg_for(segs[k], busy[g.number_spec() as int]->0) && segs[k].loc == Loc::Reg(g)
            && segs[k].start <= r.def < segs[k].end
    }) by {
        let x = busy[g.number_spec() as int]->0;
        assert(held_ok(r.def as int, segs, busy[g.number_spec() as int], g));
        assert(has_seg(segs, x, Loc::Reg(g)));
    }
    who
}

impl Scan {
    /// Where the scan stands.
    spec fn state(self) -> Scanned {
        Scanned { segments: self.segments@, busy: self.busy@, slots: self.slots@ }
    }

    spec fn ok(self, instrs: Seq<Instr>, work: Seq<Range>, tidy: bool, i: int, cur: int) -> bool {
        &&& segs_ok(work, i, cur, self.segments@)
        &&& busy_ok(cur, self.segments@, self.busy@)
        &&& slots_ok(tidy, self.segments@, self.slots@)
        &&& regs_ok(instrs, self.segments@)
    }

    /// Free the registers of ranges that end at or before `at`.
    fn expire(
        &mut self,
        at: usize,
        Ghost(instrs): Ghost<Seq<Instr>>,
        Ghost(work): Ghost<Seq<Range>>,
        Ghost(tidy): Ghost<bool>,
        Ghost(i): Ghost<int>,
        Ghost(cur): Ghost<int>,
    )
        requires
            old(self).ok(instrs, work, tidy, i, cur),
            cur <= at,
        ensures
            final(self).ok(instrs, work, tidy, i, at as int),
            final(self).segments == old(self).segments,
            final(self).slots == old(self).slots,
            final(self).busy@ == held_from(old(self).busy@, at),
    {
        let mut g: usize = 0;
        while g < 16
            invariant
                g <= 16,
                cur <= at,
                self.segments == old(self).segments,
                self.slots == old(self).slots,
                old(self).ok(instrs, work, tidy, i, cur),
                self.busy@.len() == 16,
                forall|k: int|
                    0 <= k < 16 ==> #[trigger] self.busy@[k] == if k < g {
                        still_held(old(self).busy@[k], at)
                    } else {
                        old(self).busy@[k]
                    },
            decreases 16 - g,
        {
            if let Some(x) = self.busy[g] {
                if x.last_use <= at {
                    self.busy.set(g, None);
                }
            }
            g = g + 1;
        }
        proof {
            let segs = self.segments@;
            assert forall|k: int| 0 <= k < segs.len() implies ((#[trigger] segs[k]).loc matches Loc::Reg(
                g,
            ) ==> reg_bound(self.busy@[g.number_spec() as int], segs[k], at as int)) by {
                if let Loc::Reg(g) = segs[k].loc {
                    let n = g.number_spec() as int;
                    assert(reg_bound(old(self).busy@[n], segs[k], cur));
                    assert(self.busy@[n] == old(self).busy@[n] || self.busy@[n] is None);
                }
            }
            assert forall|g: Reg|
                held_ok(at as int, segs, #[trigger] self.busy@[g.number_spec() as int], g) by {
                let n = g.number_spec() as int;
                assert(held_ok(cur, segs, old(self).busy@[n], g));
                assert(self.busy@[n] == old(self).busy@[n] || self.busy@[n] is None);
            }
            assert(busy_ok(at as int, segs, self.busy@));
            assert(self.busy@ =~= held_from(old(self).busy@, at));
        }
    }

    /// A spill slot whose last owner is gone when `x` starts, now given to `x`.
    fn take_slot(
        &mut self,
        x: Range,
        Ghost(instrs): Ghost<Seq<Instr>>,
        Ghost(work): Ghost<Seq<Range>>,
        Ghost(tidy): Ghost<bool>,
        Ghost(i): Ghost<int>,
        Ghost(cur): Ghost<int>,
    ) -> (n: u32)
        requires
            old(self).ok(instrs, work, tidy, i, cur),
            old(self).slots@.len() < u32::MAX,
            tidy ==> x.def <= x.last_use,
        ensures
            final(self).ok(instrs, work, tidy, i, cur),
            final(self).segments == old(self).segments,
            final(self).busy == old(self).busy,
            n < final(self).slots@.len(),
            n == slot_for(old(self).slots@, x, 0),
            final(self).slots@ == with_slot(old(self).slots@, n as int, x),
            final(self).slots@.len() <= old(self).slots@.len() + 1,
            forall|k: int|
                0 <= k < final(self).segments@.len() && (#[trigger] final(self).segments@[k]).loc
                    == Loc::Spill(n) ==> (tidy ==> final(self).segments@[k].end <= x.def),
    {
        let mut n: usize = 0;
        while n < self.slots.len()
            invariant
                n <= self.slots@.len(),
                self == old(self),
                self.ok(instrs, work, tidy, i, cur),
                self.slots@.len() < u32::MAX,
                slot_for(self.slots@, x, 0) == slot_for(self.slots@, x, n as int),
                tidy ==> x.def <= x.last_use,
            decreases self.slots@.len() - n,
        {
            if self.slots[n].last_use <= x.def {
                let ghost was = self.slots@;
                self.slots.set(n, x);
                proof {
                    let segs = self.segments@;
                    assert forall|k: int|
                        0 <= k < segs.len() && (#[trigger] segs[k]).loc == Loc::Spill(n as u32) implies (
                    tidy ==> segs[k].end <= x.def) by {
                        assert(slot_bound(tidy, was[n as int], segs[k]));
                        assert(tidy ==> was[n as int].def <= was[n as int].last_use);
                    }
                    assert forall|k: int|
                        0 <= k < segs.len() implies ((#[trigger] segs[k]).loc matches Loc::Spill(m) ==> m
                        < self.slots@.len() && slot_bound(tidy, self.slots@[m as int], segs[k])) by {
                        if let Loc::Spill(m) = segs[k].loc {
                            assert(slot_bound(tidy, was[m as int], segs[k]));
                        }
                    }
                }
                return n as u32;
            }
            n = n + 1;
        }
        let ghost was = self.slots@;
        self.slots.push(x);
        proof {
            let segs = self.segments@;
            assert forall|k: int|
                0 <= k < segs.len() implies ((#[trigger] segs[k]).loc matches Loc::Spill(m) ==> m
                < self.slots@.len() && slot_bound(tidy, self.slots@[m as int], segs[k])) by {
                if let Loc::Spill(m) = segs[k].loc {
                    assert(slot_bound(tidy, was[m as int], segs[k]));
                }
            }
        }
        n as u32
    }

    /// Move the range in a register to a spill slot.
    fn evict(
        &mut self,
        g: Reg,
        Ghost(instrs): Ghost<Seq<Instr>>,
        Ghost(work): Ghost<Seq<Range>>,
        Ghost(tidy): Ghost<bool>,
        Ghost(i): Ghost<int>,
        Ghost(cur): Ghost<int>,
    )
        requires
            old(self).ok(instrs, work, tidy, i, cur),
            old(self).slots@.len() < u32::MAX,
            old(self).busy@[g.number_spec() as int] matches Some(x) && x.fixed is None && (tidy
                ==> x.def <= x.last_use),
        ensures
            final(self).ok(instrs, work, tidy, i, cur),
            final(self).busy@ == old(self).busy@.update(g.number_spec() as int, None),
            final(self).slots@.len() <= old(self).slots@.len() + 1,
            ({
                let x = old(self).busy@[g.number_spec() as int]->0;
                let n = slot_for(old(self).slots@, x, 0);
                &&& final(self).slots@ == with_slot(old(self).slots@, n, x)
                &&& final(self).segments@ == moved_to(old(self).segments@, x.item, n as u32)
            }),
            exists|k: int, slot: u32|
                0 <= k < old(self).segments@.len() && seg_for(
                    old(self).segments@[k],
                    old(self).busy@[g.number_spec() as int]->0,
                ) && final(self).segments@ == #[trigger] spilled(old(self).segments@, k, slot),
    {
        let at: usize = g.number() as usize;
        if let Some(x) = self.busy[at] {
            let slot = self.take_slot(
                x,
                Ghost(instrs),
                Ghost(work),
                Ghost(tidy),
                Ghost(i),
                Ghost(cur),
            );
            let ghost segs0 = self.segments@;
            let ghost busy0 = self.busy@;
            let mut k: usize = 0;
            proof {
                assert(busy0[g.number_spec() as int] == Some(x));
                assert(has_seg(segs0, x, Loc::Reg(g)));
            }
            let ghost home = choose|k: int|
                0 <= k < segs0.len() && seg_for(#[trigger] segs0[k], x) && segs0[k].loc == Loc::Reg(g);
            while k < self.segments.len() && self.segments[k].item != x.item
                invariant
                    k <= self.segments@.len(),
                    self.segments@ == segs0,
                    forall|j: int| 0 <= j < k ==> (#[trigger] segs0[j]).item != x.item,
                decreases self.segments@.len() - k,
            {
                k = k + 1;
            }
            proof {
                assert(segs0[home].item == x.item);
                assert(k < segs0.len());
                assert(segs0[k as int].item == segs0[home].item);
                assert(k == home);
            }
            let old_seg = self.segments[k];
            let moved = Segment {
                item: old_seg.item,
                start: old_seg.start,
                end: old_seg.end,
                loc: Loc::Spill(slot),
            };
            self.segments.set(k, moved);
            self.busy.set(at, None);
            proof {
                lemma_spilled_segs(work, i, cur, segs0, k as int, slot);
                lemma_spilled_busy(cur, segs0, busy0, x, g, k as int, slot);
                lemma_spilled_slots(tidy, segs0, self.slots@, x, k as int, slot);
                lemma_spilled_regs(instrs, segs0, k as int, slot);
                assert(self.segments@ =~= spilled(segs0, k as int, slot));
                assert(self.busy@ =~= busy0.update(g.number_spec() as int, None));
                assert forall|j: int| 0 <= j < segs0.len() && j != k implies (#[trigger] segs0[j]).item
                    != x.item by {
                    if j < k {
                        assert(segs0[j].item != segs0[k as int].item);
                    } else {
                        assert(segs0[k as int].item != segs0[j].item);
                    }
                }
                assert(self.segments@ =~= moved_to(segs0, x.item, slot));
            }
        }
    }
}

/// The list of segments with one of them in a slot instead.
spec fn spilled(segs: Seq<Segment>, k: int, slot: u32) -> Seq<Segment> {
    segs.update(k, Segment { loc: Loc::Spill(slot), ..segs[k] })
}

proof fn lemma_spilled_segs(work: Seq<Range>, i: int, cur: int, segs: Seq<Segment>, k: int, slot: u32)
    requires
        segs_ok(work, i, cur, segs),
        0 <= k < segs.len(),
        !(segs[k].item is Entry),
    ensures
        segs_ok(work, i, cur, spilled(segs, k, slot)),
{
    let next = spilled(segs, k, slot);
    assert forall|j: int| 0 <= j < next.len() implies #[trigger] from_work(work, i, next[j]) by {
        assert(from_work(work, i, segs[j]));
        let m = choose|m: int| scanned(work, i, m) && #[trigger] seg_for(segs[j], work[m]);
        assert(seg_for(next[j], work[m]));
    }
    assert forall|j: int| scanned(work, i, j) implies #[trigger] some_seg(next, work[j]) by {
        assert(some_seg(segs, work[j]));
        let m = choose|m: int| 0 <= m < segs.len() && seg_for(#[trigger] segs[m], work[j]);
        assert(seg_for(next[m], work[j]));
    }
    assert forall|j: int, m: int| 0 <= j < m < next.len() implies (#[trigger] next[j]).item != (
    #[trigger] next[m]).item by {
        assert(segs[j].item != segs[m].item);
    }
    assert forall|j: int| 0 <= j < next.len() implies (#[trigger] next[j]).start <= cur by {
        assert(segs[j].start <= cur);
    }
    assert forall|j: int| 0 <= j < next.len() implies ((#[trigger] next[j]).item matches Item::Entry(
        h,
    ) ==> next[j].loc == Loc::Reg(h)) by {
        assert(segs[j].item == next[j].item);
    }
}

proof fn lemma_spilled_busy(
    cur: int,
    segs: Seq<Segment>,
    busy: Seq<Option<Range>>,
    x: Range,
    g: Reg,
    k: int,
    slot: u32,
)
    requires
        busy_ok(cur, segs, busy),
        forall|j: int, m: int|
            0 <= j < m < segs.len() ==> (#[trigger] segs[j]).item != (#[trigger] segs[m]).item,
        0 <= k < segs.len(),
        seg_for(segs[k], x),
        segs[k].loc == Loc::Reg(g),
        busy[g.number_spec() as int] == Some(x),
    ensures
        busy_ok(cur, spilled(segs, k, slot), busy.update(g.number_spec() as int, None)),
{
    let next = spilled(segs, k, slot);
    let busy1 = busy.update(g.number_spec() as int, None);
    assert forall|h: Reg| held_ok(cur, next, #[trigger] busy1[h.number_spec() as int], h) by {
        assert(held_ok(cur, segs, busy[h.number_spec() as int], h));
        if h != g {
            assert(h.number_spec() != g.number_spec());
            if let Some(y) = busy[h.number_spec() as int] {
                assert(has_seg(segs, y, Loc::Reg(h)));
                let m = choose|m: int|
                    0 <= m < segs.len() && seg_for(#[trigger] segs[m], y) && segs[m].loc == Loc::Reg(h);
                assert(m != k);
                assert(next[m] == segs[m]);
            }
        }
    }
    assert forall|j: int| 0 <= j < next.len() implies ((#[trigger] next[j]).loc matches Loc::Reg(h)
        ==> reg_bound(busy1[h.number_spec() as int], next[j], cur)) by {
        if j != k {
            assert(next[j] == segs[j]);
            if let Loc::Reg(h) = segs[j].loc {
                assert(reg_bound(busy[h.number_spec() as int], segs[j], cur));
                if h == g {
                    assert(segs[j].item != segs[k].item);
                    assert(segs[j].end <= x.def + 1);
                    assert(held_ok(cur, segs, busy[g.number_spec() as int], g));
                } else {
                    assert(h.number_spec() != g.number_spec());
                }
            }
        }
    }
}

proof fn lemma_spilled_slots(
    tidy: bool,
    segs: Seq<Segment>,
    slots: Seq<Range>,
    x: Range,
    k: int,
    slot: u32,
)
    requires
        slots_ok(tidy, segs, slots),
        0 <= k < segs.len(),
        seg_for(segs[k], x),
        segs[k].loc is Reg,
        slot < slots.len(),
        slots[slot as int] == x,
        forall|j: int|
            0 <= j < segs.len() && (#[trigger] segs[j]).loc == Loc::Spill(slot) ==> (tidy ==> segs[j].end
                <= x.def),
    ensures
        slots_ok(tidy, spilled(segs, k, slot), slots),
{
    let next = spilled(segs, k, slot);
    assert forall|j: int, m: int|
        0 <= j < m < next.len() && (#[trigger] next[j]).loc is Spill && next[j].loc == (
        #[trigger] next[m]).loc implies (tidy ==> apart(next[j], next[m])) by {
        if j == k {
            assert(next[m] == segs[m]);
        } else if m == k {
            assert(next[j] == segs[j]);
        } else {
            assert(next[j] == segs[j] && next[m] == segs[m]);
        }
    }
    assert forall|j: int| 0 <= j < next.len() implies ((#[trigger] next[j]).loc matches Loc::Spill(n)
        ==> n < slots.len() && slot_bound(tidy, slots[n as int], next[j])) by {
        if j != k {
            assert(next[j] == segs[j]);
        } else {
            assert(seg_for(next[j], x));
        }
    }
}

proof fn lemma_spilled_regs(instrs: Seq<Instr>, segs: Seq<Segment>, k: int, slot: u32)
    requires
        regs_ok(instrs, segs),
        0 <= k < segs.len(),
    ensures
        regs_ok(instrs, spilled(segs, k, slot)),
{
    let next = spilled(segs, k, slot);
    assert forall|j: int, m: int|
        0 <= j < next.len() && 0 <= m < next.len() && j != m implies !#[trigger] clash(next, j, m) by {
        if j != k && m != k {
            assert(next[j] == segs[j] && next[m] == segs[m]);
            assert(!clash(segs, j, m));
        }
    }
    assert forall|j: int| 0 <= j < next.len() implies kept_whole(instrs, #[trigger] next[j]) by {
        if j != k {
            assert(kept_whole(instrs, segs[j]));
        }
    }
}

/// Whether a register may hold a range: one the allocator hands out that nothing in the
/// span of the range destroys.
pub open spec fn may_hold(r: Range, g: Reg) -> bool {
    g != Reg::Rsp && !(r.crosses_call && volatile(g)) && !r.avoid.has(g)
}

fn usable(r: &Range, g: Reg) -> (u: bool)
    ensures
        u == may_hold(*r, g),
{
    g != Reg::Rsp && !(r.crosses_call && is_volatile(g)) && !r.avoid.contains(g)
}

proof fn lemma_put_segs(work: Seq<Range>, i: int, segs: Seq<Segment>, r: Range, s: Segment)
    requires
        0 <= i < work.len(),
        work[i] == r,
        r.fixed is None,
        !(r.item is Entry),
        distinct_items(work),
        segs_ok(work, i, r.def as int, segs),
        seg_for(s, r),
        s.loc != Loc::Reg(Reg::Rsp),
    ensures
        segs_ok(work, i + 1, r.def as int, segs.push(s)),
{
    let next = segs.push(s);
    assert forall|j: int| 0 <= j < next.len() implies #[trigger] from_work(work, i + 1, next[j]) by {
        if j < segs.len() {
            assert(from_work(work, i, segs[j]));
            let m = choose|m: int| scanned(work, i, m) && #[trigger] seg_for(segs[j], work[m]);
            assert(scanned(work, i + 1, m) && seg_for(next[j], work[m]));
        } else {
            assert(scanned(work, i + 1, i) && seg_for(next[j], work[i]));
        }
    }
    assert forall|j: int| scanned(work, i + 1, j) implies #[trigger] some_seg(next, work[j]) by {
        if j == i {
            assert(seg_for(next[segs.len() as int], work[i]));
        } else {
            assert(scanned(work, i, j));
            assert(some_seg(segs, work[j]));
            let m = choose|m: int| 0 <= m < segs.len() && seg_for(#[trigger] segs[m], work[j]);
            assert(seg_for(next[m], work[j]));
        }
    }
    assert forall|j: int, m: int| 0 <= j < m < next.len() implies (#[trigger] next[j]).item != (
    #[trigger] next[m]).item by {
        if m == segs.len() {
            assert(from_work(work, i, segs[j]));
            let o = choose|o: int| scanned(work, i, o) && #[trigger] seg_for(segs[j], work[o]);
            assert(o != i);
            if o < i {
                assert(work[o].item != work[i].item);
            } else {
                assert(work[i].item != work[o].item);
            }
        } else {
            assert(segs[j].item != segs[m].item);
        }
    }
    assert forall|j: int| 0 <= j < next.len() implies (#[trigger] next[j]).start <= r.def by {
        if j < segs.len() {
            assert(segs[j].start <= r.def);
        }
    }
    assert forall|j: int| 0 <= j < next.len() implies ((#[trigger] next[j]).item matches Item::Entry(
        h,
    ) ==> next[j].loc == Loc::Reg(h)) by {
        if j < segs.len() {
            assert(next[j] == segs[j]);
        }
    }
}

proof fn lemma_put_busy(
    segs: Seq<Segment>,
    busy: Seq<Option<Range>>,
    r: Range,
    s: Segment,
    next_busy: Seq<Option<Range>>,
)
    requires
        busy_ok(r.def as int, segs, busy),
        r.fixed is None,
        !(r.item is Entry),
        seg_for(s, r),
        match s.loc {
            Loc::Reg(g) => {
                &&& next_busy == busy.update(g.number_spec() as int, Some(r))
                &&& forall|k: int|
                    0 <= k < segs.len() && (#[trigger] segs[k]).loc == s.loc ==> segs[k].end <= r.def + 1
            },
            Loc::Spill(_) => next_busy == busy,
        },
    ensures
        busy_ok(r.def as int, segs.push(s), next_busy),
{
    let cur = r.def as int;
    let next = segs.push(s);
    assert forall|h: Reg| held_ok(cur, next, #[trigger] next_busy[h.number_spec() as int], h) by {
        assert(held_ok(cur, segs, busy[h.number_spec() as int], h));
        if s.loc == Loc::Reg(h) {
            assert(seg_for(next[segs.len() as int], r));
        } else {
            if let Loc::Reg(g) = s.loc {
                assert(g.number_spec() != h.number_spec());
            }
            assert(next_busy[h.number_spec() as int] == busy[h.number_spec() as int]);
            if let Some(y) = busy[h.number_spec() as int] {
                assert(has_seg(segs, y, Loc::Reg(h)));
                let m = choose|m: int|
                    0 <= m < segs.len() && seg_for(#[trigger] segs[m], y) && segs[m].loc == Loc::Reg(h);
                assert(next[m] == segs[m]);
            }
        }
    }
    assert forall|j: int| 0 <= j < next.len() implies ((#[trigger] next[j]).loc matches Loc::Reg(h)
        ==> reg_bound(next_busy[h.number_spec() as int], next[j], cur)) by {
        if j < segs.len() {
            assert(next[j] == segs[j]);
            if let Loc::Reg(h) = segs[j].loc {
                assert(reg_bound(busy[h.number_spec() as int], segs[j], cur));
                if let Loc::Reg(g) = s.loc {
                    if g != h {
                        assert(g.number_spec() != h.number_spec());
                    }
                }
            }
        }
    }
}

proof fn lemma_put_slots(tidy: bool, segs: Seq<Segment>, slots: Seq<Range>, r: Range, s: Segment)
    requires
        slots_ok(tidy, segs, slots),
        seg_for(s, r),
        s.loc matches Loc::Spill(n) ==> n < slots.len() && slots[n as int] == r && forall|k: int|
            0 <= k < segs.len() && (#[trigger] segs[k]).loc == s.loc ==> (tidy ==> segs[k].end <= r.def),
    ensures
        slots_ok(tidy, segs.push(s), slots),
{
    let next = segs.push(s);
    assert forall|j: int, m: int|
        0 <= j < m < next.len() && (#[trigger] next[j]).loc is Spill && next[j].loc == (
        #[trigger] next[m]).loc implies (tidy ==> apart(next[j], next[m])) by {
        assert(next[j] == segs[j]);
        if m < segs.len() {
            assert(next[m] == segs[m]);
        }
    }
    assert forall|j: int| 0 <= j < next.len() implies ((#[trigger] next[j]).loc matches Loc::Spill(n)
        ==> n < slots.len() && slot_bound(tidy, slots[n as int], next[j])) by {
        if j < segs.len() {
            assert(next[j] == segs[j]);
        }
    }
}

proof fn lemma_put_regs(instrs: Seq<Instr>, segs: Seq<Segment>, r: Range, s: Segment)
    requires
        regs_ok(instrs, segs),
        seg_for(s, r),
        r.fixed is None,
        work_ok(instrs, r),
        forall|k: int| 0 <= k < segs.len() ==> (#[trigger] segs[k]).start <= r.def,
        s.loc matches Loc::Reg(g) ==> may_hold(r, g) && forall|k: int|
            0 <= k < segs.len() && (#[trigger] segs[k]).loc == s.loc ==> segs[k].end <= r.def + 1,
    ensures
        regs_ok(instrs, segs.push(s)),
{
    let next = segs.push(s);
    assert forall|j: int, m: int|
        0 <= j < next.len() && 0 <= m < next.len() && j != m implies !#[trigger] clash(next, j, m) by {
        if j < segs.len() {
            assert(next[j] == segs[j]);
            assert(segs[j].start <= r.def);
        }
        if m < segs.len() {
            assert(next[m] == segs[m]);
            assert(segs[m].start <= r.def);
        }
        if j < segs.len() && m < segs.len() {
            assert(!clash(segs, j, m));
        }
    }
    assert forall|j: int| 0 <= j < next.len() implies kept_whole(instrs, #[trigger] next[j]) by {
        if j < segs.len() {
            assert(kept_whole(instrs, segs[j]));
        } else if let Loc::Reg(g) = s.loc {
            assert forall|c: int|
                0 <= c < instrs.len() && spans(s.start as int, s.end as int, c) implies !destroys(
                #[trigger] instrs[c],
                g,
            ) by {
                if destroys(instrs[c], g) {
                    assert(r.avoid.has(g) || (r.crosses_call && volatile(g)));
                }
            }
        }
    }
}

impl Scan {
    /// Give the range at `i` a location.
    fn put(
        &mut self,
        r: Range,
        loc: Loc,
        Ghost(instrs): Ghost<Seq<Instr>>,
        Ghost(work): Ghost<Seq<Range>>,
        Ghost(tidy): Ghost<bool>,
        Ghost(i): Ghost<int>,
    )
        requires
            0 <= i < work.len(),
            work[i] == r,
            r.fixed is None,
            work_ok(instrs, r),
            distinct_items(work),
            old(self).ok(instrs, work, tidy, i, r.def as int),
            match loc {
                Loc::Reg(g) => {
                    &&& may_hold(r, g)
                    &&& forall|k: int|
                        0 <= k < old(self).segments@.len() && (#[trigger] old(self).segments@[k]).loc
                            == loc ==> old(self).segments@[k].end <= r.def + 1
                },
                Loc::Spill(n) => {
                    &&& n < old(self).slots@.len()
                    &&& old(self).slots@[n as int] == r
                    &&& forall|k: int|
                        0 <= k < old(self).segments@.len() && (#[trigger] old(self).segments@[k]).loc
                            == loc ==> (tidy ==> old(self).segments@[k].end <= r.def)
                },
            },
        ensures
            final(self).ok(instrs, work, tidy, i + 1, r.def as int),
            final(self).slots == old(self).slots,
            final(self).segments@ == old(self).segments@.push(
                segment_of(r, loc),
            ),
            final(self).busy@ == match loc {
                Loc::Reg(g) => old(self).busy@.update(g.number_spec() as int, Some(r)),
                Loc::Spill(_) => old(self).busy@,
            },
    {
        let s = Segment { item: r.item, start: r.def, end: r.last_use, loc };
        let ghost segs0 = self.segments@;
        let ghost busy0 = self.busy@;
        self.segments.push(s);
        if let Loc::Reg(g) = loc {
            self.busy.set(g.number() as usize, Some(r));
        }
        proof {
            lemma_put_segs(work, i, segs0, r, s);
            lemma_put_busy(segs0, busy0, r, s, self.busy@);
            lemma_put_slots(tidy, segs0, self.slots@, r, s);
            lemma_put_regs(instrs, segs0, r, s);
        }
    }

    /// Whether a register is free for a range from its start on, or its last reader is the
    /// instruction that starts the range.
    fn free_for(&self, r: &Range, g: Reg, handoff: bool) -> (f: bool)
        requires
            self.busy@.len() == 16,
            r.def < usize::MAX,
        ensures
            f == is_free(self.busy@, *r, g, handoff),
    {
        if !usable(r, g) {
            return false;
        }
        match self.busy[g.number() as usize] {
            Some(x) => handoff && x.last_use <= r.def + 1,
            None => true,
        }
    }

    /// The register a range is best given: the one its first operand vacates, then the one
    /// its value leaves the block in, then any that is free.
    fn pick(&self, r: &Range, vacated: Option<Reg>, wanted: Option<Reg>) -> (p: Option<Reg>)
        requires
            self.busy@.len() == 16,
            r.def < usize::MAX,
        ensures
            p matches Some(g) ==> may_hold(*r, g) && (self.busy@[g.number_spec() as int] matches Some(
                x,
            ) ==> x.last_use <= r.def + 1),
            p is None ==> forall|g: Reg|
                may_hold(*r, g) ==> #[trigger] self.busy@[g.number_spec() as int] is Some,
            p == chosen(self.busy@, *r, vacated, wanted),
    {
        if let Some(g) = vacated {
            if self.free_for(r, g, true) {
                return Some(g);
            }
        }
        if let Some(g) = wanted {
            if self.free_for(r, g, false) {
                return Some(g);
            }
        }
        let mut k: usize = 0;
        while k < 15
            invariant
                k <= 15,
                self.busy@.len() == 16,
                r.def < usize::MAX,
                chosen(self.busy@, *r, vacated, wanted) == next_free(self.busy@, *r, k as int),
                forall|j: int|
                    0 <= j < k ==> !(may_hold(*r, #[trigger] ALLOCATABLE@[j])
                        && self.busy@[ALLOCATABLE@[j].number_spec() as int] is None),
            decreases 15 - k,
        {
            let g = ALLOCATABLE[k];
            if self.free_for(r, g, false) {
                return Some(g);
            }
            k = k + 1;
        }
        proof {
            crate::ir::live::register_tables();
            assert forall|g: Reg| may_hold(*r, g) implies #[trigger] self.busy@[g.number_spec() as int] is Some by {
                assert(ALLOCATABLE@.contains(g));
            }
        }
        None
    }

    /// The register whose range ends last among those that can be moved out for `r`, if it
    /// ends later than `r` does.
    fn victim(&self, r: &Range) -> (p: Option<Reg>)
        requires
            self.busy@.len() == 16,
        ensures
            p matches Some(g) ==> may_hold(*r, g) && (self.busy@[g.number_spec() as int] matches Some(
                x,
            ) && x.fixed is None && x.last_use > r.last_use),
            p == moved_out(self.busy@, *r),
    {
        let mut best: Option<(Reg, usize)> = None;
        let mut k: usize = 0;
        while k < 15
            invariant
                k <= 15,
                self.busy@.len() == 16,
                best matches Some(p) ==> may_hold(*r, p.0) && (self.busy@[p.0.number_spec() as int] matches Some(
                    x,
                ) && x.fixed is None && x.last_use == p.1),
                best == ends_last(self.busy@, *r, k as int),
            decreases 15 - k,
        {
            let g = ALLOCATABLE[k];
            if usable(r, g) {
                if let Some(x) = self.busy[g.number() as usize] {
                    if x.fixed.is_none() {
                        let later = match best {
                            Some((_, end)) => x.last_use >= end,
                            None => true,
                        };
                        if later {
                            best = Some((g, x.last_use));
                        }
                    }
                }
            }
            k = k + 1;
        }
        match best {
            Some((g, end)) => if end > r.last_use {
                Some(g)
            } else {
                None
            },
            None => None,
        }
    }

    /// Place the range at `i`.
    fn step(
        &mut self,
        r: Range,
        vacated: Option<Reg>,
        wanted: Option<Reg>,
        Ghost(instrs): Ghost<Seq<Instr>>,
        Ghost(work): Ghost<Seq<Range>>,
        Ghost(tidy): Ghost<bool>,
        Ghost(i): Ghost<int>,
        Ghost(cur): Ghost<int>,
    )
        requires
            0 <= i < work.len(),
            work[i] == r,
            r.fixed is None,
            r.def < usize::MAX,
            work_ok(instrs, r),
            distinct_items(work),
            tidy ==> r.def <= r.last_use,
            old(self).ok(instrs, work, tidy, i, cur),
            cur <= r.def,
            old(self).slots@.len() <= i < u32::MAX,
            all_forced(instrs, old(self).segments@),
        ensures
            final(self).ok(instrs, work, tidy, i + 1, r.def as int),
            final(self).slots@.len() <= i + 1,
            all_forced(instrs, final(self).segments@),
            final(self).state() == scan_step(old(self).state(), r, vacated, wanted),
    {
        let ghost s0 = self.state();
        let ghost before = self.segments@;
        self.expire(r.def, Ghost(instrs), Ghost(work), Ghost(tidy), Ghost(i), Ghost(cur));
        let ghost at = r.def as int;
        match self.pick(&r, vacated, wanted) {
            Some(g) => {
                proof {
                    assert forall|k: int|
                        0 <= k < self.segments@.len() && (#[trigger] self.segments@[k]).loc == Loc::Reg(
                            g,
                        ) implies self.segments@[k].end <= r.def + 1 by {
                        assert(reg_bound(self.busy@[g.number_spec() as int], self.segments@[k], at));
                        assert(held_ok(at, self.segments@, self.busy@[g.number_spec() as int], g));
                    }
                }
                self.put(r, Loc::Reg(g), Ghost(instrs), Ghost(work), Ghost(tidy), Ghost(i));
                proof {
                    lemma_forced_more(instrs, before, self.segments@, -1);
                    assert(self.state() == scan_step(s0, r, vacated, wanted));
                }
            },
            None => match self.victim(&r) {
                Some(g) => {
                    let ghost who = lemma_step_crowded(work, self.segments@, self.busy@, r, i);
                    let ghost x = self.busy@[g.number_spec() as int]->0;
                    proof {
                        assert(held_ok(at, self.segments@, self.busy@[g.number_spec() as int], g));
                    }
                    self.evict(g, Ghost(instrs), Ghost(work), Ghost(tidy), Ghost(i), Ghost(at));
                    proof {
                        assert forall|k: int|
                            0 <= k < self.segments@.len() && (#[trigger] self.segments@[k]).loc
                                == Loc::Reg(g) implies self.segments@[k].end <= r.def + 1 by {
                            assert(reg_bound(self.busy@[g.number_spec() as int], self.segments@[k], at));
                        }
                    }
                    let ghost mid = self.segments@;
                    self.put(r, Loc::Reg(g), Ghost(instrs), Ghost(work), Ghost(tidy), Ghost(i));
                    proof {
                        let (k, slot) = choose|k: int, slot: u32|
                            0 <= k < before.len() && seg_for(before[k], x) && mid == #[trigger] spilled(
                                before,
                                k,
                                slot,
                            );
                        let now = self.segments@;
                        assert(now[k] == mid[k]);
                        lemma_crowded_more(before, now, r, who);
                        assert(forced_out(instrs, now, now[k]));
                        lemma_forced_more(instrs, before, now, k);
                        let busy = held_from(s0.busy, r.def);
                        assert(busy.update(g.number_spec() as int, None).update(
                            g.number_spec() as int,
                            Some(r),
                        ) =~= busy.update(g.number_spec() as int, Some(r)));
                        assert(self.state() == scan_step(s0, r, vacated, wanted));
                    }
                },
                None => {
                    let ghost who = lemma_step_crowded(work, self.segments@, self.busy@, r, i);
                    let slot = self.take_slot(
                        r,
                        Ghost(instrs),
                        Ghost(work),
                        Ghost(tidy),
                        Ghost(i),
                        Ghost(at),
                    );
                    self.put(r, Loc::Spill(slot), Ghost(instrs), Ghost(work), Ghost(tidy), Ghost(i));
                    proof {
                        let now = self.segments@;
                        lemma_crowded_more(before, now, r, who);
                        assert(seg_for(now[before.len() as int], r));
                        assert(forced_out(instrs, now, now[before.len() as int]));
                        lemma_forced_more(instrs, before, now, before.len() as int);
                        assert(self.state() == scan_step(s0, r, vacated, wanted));
                    }
                },
            },
        }
    }
}

/// The range the scan is at, where no register is free for it.
proof fn lemma_step_crowded(
    work: Seq<Range>,
    segs: Seq<Segment>,
    busy: Seq<Option<Range>>,
    r: Range,
    i: int,
) -> (who: spec_fn(Reg) -> int)
    requires
        0 <= i < work.len(),
        work[i] == r,
        r.fixed is None,
        distinct_items(work),
        segs_ok(work, i, r.def as int, segs),
        busy_ok(r.def as int, segs, busy),
        forall|g: Reg| may_hold(r, g) ==> #[trigger] busy[g.number_spec() as int] is Some,
        forall|g: Reg| #[trigger] busy[g.number_spec() as int] matches Some(x) ==> x.last_use > r.def,
    ensures
        crowded(segs, r, who),
{
    assert forall|k: int| 0 <= k < segs.len() implies (#[trigger] segs[k]).item != r.item by {
        assert(from_work(work, i, segs[k]));
        let j = choose|j: int| scanned(work, i, j) && #[trigger] seg_for(segs[k], work[j]);
        assert(j != i);
    }
    lemma_crowded(segs, busy, r)
}

spec fn seeded(work: Seq<Range>, k: int, segs: Seq<Segment>, busy: Seq<Option<Range>>) -> bool {
    &&& busy.len() == 16
    &&& forall|m: int| 0 <= m < segs.len() ==> #[trigger] seed_of(work, k, segs[m])
    &&& forall|j: int| 0 <= j < k && work[j].fixed is Some ==> #[trigger] some_seg(segs, work[j])
    &&& forall|j: int, m: int|
        0 <= j < m < segs.len() ==> (#[trigger] segs[j]).item != (#[trigger] segs[m]).item
    &&& forall|g: Reg|
        (#[trigger] busy[g.number_spec() as int]) is Some ==> seed_holds(
            work,
            k,
            segs,
            busy[g.number_spec() as int]->0,
            g,
        )
    &&& forall|m: int|
        0 <= m < segs.len() ==> ((#[trigger] segs[m]).loc matches Loc::Reg(g) && (
        busy[g.number_spec() as int] matches Some(x) && seg_for(segs[m], x)))
}

spec fn seed_of(work: Seq<Range>, k: int, s: Segment) -> bool {
    exists|j: int|
        0 <= j < k && (#[trigger] work[j]).fixed is Some && seg_for(s, work[j]) && s.loc == Loc::Reg(
            work[j].fixed->0,
        )
}

spec fn seed_holds(work: Seq<Range>, k: int, segs: Seq<Segment>, x: Range, g: Reg) -> bool {
    x.def == 0 && x.fixed is Some && has_seg(segs, x, Loc::Reg(g))
}

/// Start the scan with every pre-coloured range in its register.
fn seed(b: &SchedBlock, work: &Vec<Range>, Ghost(tidy): Ghost<bool>) -> (s: Scan)
    requires
        distinct_items(work@),
        forall|j: int| 0 <= j < work@.len() ==> work_ok(b.instrs@, #[trigger] work@[j]),
    ensures
        s.ok(b.instrs@, work@, tidy, 0, 0),
        s.slots@.len() == 0,
        s.state() == scan_start(work@),
{
    let ghost ins = b.instrs@;
    let mut busy: Vec<Option<Range>> = Vec::new();
    while busy.len() < 16
        invariant
            busy@.len() <= 16,
            forall|k: int| 0 <= k < busy@.len() ==> (#[trigger] busy@[k]) is None,
        decreases 16 - busy@.len(),
    {
        busy.push(None);
    }
    let mut segs: Vec<Segment> = Vec::new();
    let mut k: usize = 0;
    proof {
        assert(busy@ =~= seeded_registers(work@, 0));
    }
    while k < work.len()
        invariant
            k <= work@.len(),
            ins == b.instrs@,
            segs@ == seeded_segments(work@, k as int),
            busy@ == seeded_registers(work@, k as int),
            distinct_items(work@),
            forall|j: int| 0 <= j < work@.len() ==> work_ok(ins, #[trigger] work@[j]),
            seeded(work@, k as int, segs@, busy@),
        decreases work@.len() - k,
    {
        let r = work[k];
        let ghost segs0 = segs@;
        let ghost busy0 = busy@;
        proof {
            assert(work_ok(ins, work@[k as int]));
        }
        if let Some(g) = r.fixed {
            let s = Segment { item: r.item, start: r.def, end: r.last_use, loc: Loc::Reg(g) };
            segs.push(s);
            busy.set(g.number() as usize, Some(r));
            proof {
                lemma_seed(ins, work@, k as int, segs0, busy0, r, g, s);
            }
        } else {
            proof {
                assert forall|m: int| 0 <= m < segs0.len() implies #[trigger] seed_of(
                    work@,
                    k + 1,
                    segs0[m],
                ) by {
                    assert(seed_of(work@, k as int, segs0[m]));
                    let j = choose|j: int|
                        0 <= j < k && (#[trigger] work@[j]).fixed is Some && seg_for(
                            segs0[m],
                            work@[j],
                        ) && segs0[m].loc == Loc::Reg(work@[j].fixed->0);
                    assert(work@[j].fixed is Some);
                }
            }
        }
        k = k + 1;
    }
    let s = Scan { segments: segs, busy, slots: Vec::new() };
    proof {
        lemma_seeded(ins, work@, tidy, s.segments@, s.busy@);
        assert(s.slots@ =~= Seq::<Range>::empty());
    }
    s
}

proof fn lemma_seed(
    ins: Seq<Instr>,
    work: Seq<Range>,
    k: int,
    segs: Seq<Segment>,
    busy: Seq<Option<Range>>,
    r: Range,
    g: Reg,
    s: Segment,
)
    requires
        0 <= k < work.len(),
        distinct_items(work),
        forall|j: int| 0 <= j < work.len() ==> work_ok(ins, #[trigger] work[j]),
        seeded(work, k, segs, busy),
        r == work[k],
        r.fixed == Some(g),
        seg_for(s, r),
        s.loc == Loc::Reg(g),
    ensures
        seeded(work, k + 1, segs.push(s), busy.update(g.number_spec() as int, Some(r))),
{
    let next = segs.push(s);
    let busy1 = busy.update(g.number_spec() as int, Some(r));
    assert(work_ok(ins, work[k]));
    assert forall|m: int| 0 <= m < segs.len() implies (#[trigger] segs[m]).loc != Loc::Reg(g)
        && segs[m].item != r.item by {
        assert(seed_of(work, k, segs[m]));
        let j = choose|j: int|
            0 <= j < k && (#[trigger] work[j]).fixed is Some && seg_for(segs[m], work[j])
                && segs[m].loc == Loc::Reg(work[j].fixed->0);
        assert(work_ok(ins, work[j]));
        assert(work[j].item != work[k].item);
    }
    assert forall|m: int| 0 <= m < next.len() implies #[trigger] seed_of(work, k + 1, next[m]) by {
        if m < segs.len() {
            assert(seed_of(work, k, segs[m]));
            let j = choose|j: int|
                0 <= j < k && (#[trigger] work[j]).fixed is Some && seg_for(segs[m], work[j])
                    && segs[m].loc == Loc::Reg(work[j].fixed->0);
            assert(work[j].fixed is Some && seg_for(next[m], work[j]));
        } else {
            assert(work[k].fixed is Some && seg_for(next[m], work[k]));
        }
    }
    assert forall|j: int| 0 <= j < k + 1 && work[j].fixed is Some implies #[trigger] some_seg(
        next,
        work[j],
    ) by {
        if j == k {
            assert(seg_for(next[segs.len() as int], work[k]));
        } else {
            assert(some_seg(segs, work[j]));
            let m = choose|m: int| 0 <= m < segs.len() && seg_for(#[trigger] segs[m], work[j]);
            assert(seg_for(next[m], work[j]));
        }
    }
    assert forall|j: int, m: int| 0 <= j < m < next.len() implies (#[trigger] next[j]).item != (
    #[trigger] next[m]).item by {
        assert(next[j] == segs[j]);
        if m < segs.len() {
            assert(next[m] == segs[m]);
        }
    }
    assert forall|h: Reg|
        (#[trigger] busy1[h.number_spec() as int]) is Some implies seed_holds(
        work,
        k + 1,
        next,
        busy1[h.number_spec() as int]->0,
        h,
    ) by {
        if h == g {
            assert(seg_for(next[segs.len() as int], r));
        } else {
            assert(h.number_spec() != g.number_spec());
            let x = busy[h.number_spec() as int]->0;
            assert(seed_holds(work, k, segs, x, h));
            let m = choose|m: int|
                0 <= m < segs.len() && seg_for(#[trigger] segs[m], x) && segs[m].loc == Loc::Reg(h);
            assert(seg_for(next[m], x));
        }
    }
    assert forall|m: int| 0 <= m < next.len() implies ((#[trigger] next[m]).loc matches Loc::Reg(h) && (
    busy1[h.number_spec() as int] matches Some(x) && seg_for(next[m], x))) by {
        if m < segs.len() {
            assert(next[m] == segs[m]);
            assert(segs[m].loc is Reg);
            let h = segs[m].loc->Reg_0;
            assert(h != g);
            assert(h.number_spec() != g.number_spec());
        }
    }
}

proof fn lemma_seeded(
    ins: Seq<Instr>,
    work: Seq<Range>,
    tidy: bool,
    segs: Seq<Segment>,
    busy: Seq<Option<Range>>,
)
    requires
        distinct_items(work),
        forall|j: int| 0 <= j < work.len() ==> work_ok(ins, #[trigger] work[j]),
        seeded(work, work.len() as int, segs, busy),
    ensures
        segs_ok(work, 0, 0, segs),
        busy_ok(0, segs, busy),
        slots_ok(tidy, segs, Seq::empty()),
        regs_ok(ins, segs),
{
    let n = work.len() as int;
    assert forall|m: int| 0 <= m < segs.len() implies #[trigger] from_work(work, 0, segs[m])
        && segs[m].start == 0 && segs[m].item == Item::Entry(segs[m].loc->Reg_0) && kept_whole(
        ins,
        segs[m],
    ) by {
        assert(seed_of(work, n, segs[m]));
        let j = choose|j: int|
            0 <= j < n && (#[trigger] work[j]).fixed is Some && seg_for(segs[m], work[j]) && segs[m].loc
                == Loc::Reg(work[j].fixed->0);
        assert(work_ok(ins, work[j]));
        assert(scanned(work, 0, j) && seg_for(segs[m], work[j]));
    }
    assert forall|m: int| 0 <= m < segs.len() implies (#[trigger] segs[m]).start <= 0 by {
        assert(from_work(work, 0, segs[m]));
    }
    assert forall|m: int| 0 <= m < segs.len() implies ((#[trigger] segs[m]).item matches Item::Entry(g)
        ==> segs[m].loc == Loc::Reg(g)) by {
        assert(from_work(work, 0, segs[m]));
    }
    assert forall|m: int| 0 <= m < segs.len() implies kept_whole(ins, #[trigger] segs[m]) && (
    segs[m].loc == Loc::Reg(Reg::Rsp) ==> segs[m].item == Item::Entry(Reg::Rsp)) by {
        assert(from_work(work, 0, segs[m]));
    }
    assert forall|g: Reg| held_ok(0, segs, #[trigger] busy[g.number_spec() as int], g) by {
        if let Some(x) = busy[g.number_spec() as int] {
            assert(seed_holds(work, n, segs, x, g));
        }
    }
    assert forall|j: int, m: int|
        0 <= j < segs.len() && 0 <= m < segs.len() && j != m implies !#[trigger] clash(segs, j, m) by {
        assert(from_work(work, 0, segs[j]));
        assert(from_work(work, 0, segs[m]));
        if j < m {
            assert(segs[j].item != segs[m].item);
        } else {
            assert(segs[m].item != segs[j].item);
        }
    }
}

/// The value each operation reads first, where the two could share a register: the last
/// operand of a two-operand form, and the source of a truncation.
fn first_operands(b: &SchedBlock) -> (m: HashMap<u32, u32>)
    ensures
        forall|d: u32| #[trigger]
            m@.dom().contains(d) == (read_first(b.instrs@, d, b.instrs@.len() as int) is Some),
        forall|d: u32| #[trigger]
            m@.dom().contains(d) ==> read_first(b.instrs@, d, b.instrs@.len() as int) == Some(m@[d]),
{
    let mut m: HashMap<u32, u32> = HashMap::new();
    let mut i: usize = 0;
    while i < b.instrs.len()
        invariant
            i <= b.instrs@.len(),
            forall|d: u32| #[trigger]
                m@.dom().contains(d) == (read_first(b.instrs@, d, i as int) is Some),
            forall|d: u32| #[trigger]
                m@.dom().contains(d) ==> read_first(b.instrs@, d, i as int) == Some(m@[d]),
        decreases b.instrs@.len() - i,
    {
        let pair = match &b.instrs[i] {
            Instr::Bin { dst, a: Operand::Val(v), .. } => Some((dst.0, v.0)),
            Instr::Un { dst, a: Operand::Val(v), .. } => Some((dst.0, v.0)),
            Instr::Cast { dst, kind: CastKind::Trunc, a: Operand::Val(v), .. } => Some((dst.0, v.0)),
            _ => None,
        };
        proof {
            assert(pair == shares(b.instrs@[i as int]));
        }
        if let Some((d, v)) = pair {
            m.insert(d, v);
        }
        i = i + 1;
    }
    m
}

/// The value an instruction defines and the one it reads first, where both could be in
/// one register.
pub open spec fn shares(i: Instr) -> Option<(u32, u32)> {
    match i {
        Instr::Bin { dst, a: Operand::Val(v), .. } => Some((dst.0, v.0)),
        Instr::Un { dst, a: Operand::Val(v), .. } => Some((dst.0, v.0)),
        Instr::Cast { dst, kind: CastKind::Trunc, a: Operand::Val(v), .. } => Some((dst.0, v.0)),
        _ => None,
    }
}

/// The register each value leaves the block in. Every register is claimed by at most one
/// value, the lowest numbered that has none yet; the stack pointer by none.
fn exit_registers(b: &SchedBlock) -> (m: HashMap<u32, Reg>)
    ensures
        forall|v: u32| #[trigger]
            m@.dom().contains(v) ==> m@[v] != Reg::Rsp && exists|i: int|
                0 <= i < b.exits@.len() && #[trigger] b.exits@[i] == (
                    m@[v],
                    Operand::Val(crate::ir::instr::ValId(v)),
                ),
        forall|v: u32, w: u32| #[trigger]
            m@.dom().contains(v) && #[trigger] m@.dom().contains(w) && m@[v] == m@[w] ==> v == w,
        m@ == leaving_in(b.exits@, 16),
{
    let mut m: HashMap<u32, Reg> = HashMap::new();
    let mut g: usize = 0;
    while g < 16
        invariant
            g <= 16,
            m@ == leaving_in(b.exits@, g as int),
            forall|v: u32| #[trigger]
                m@.dom().contains(v) ==> m@[v] != Reg::Rsp && m@[v].number_spec() < g && exists|i: int|
                    0 <= i < b.exits@.len() && #[trigger] b.exits@[i] == (
                        m@[v],
                        Operand::Val(crate::ir::instr::ValId(v)),
                    ),
            forall|v: u32, w: u32| #[trigger]
                m@.dom().contains(v) && #[trigger] m@.dom().contains(w) && m@[v] == m@[w] ==> v == w,
        decreases 16 - g,
    {
        let r = GPRS[g];
        proof {
            assert(r.number_spec() == g);
        }
        if r != Reg::Rsp {
            let mut best: Option<u32> = None;
            let mut i: usize = 0;
            while i < b.exits.len()
                invariant
                    i <= b.exits@.len(),
                    best == claims(b.exits@, r, m@, i as int),
                    best matches Some(v) ==> !m@.dom().contains(v) && exists|j: int|
                        0 <= j < b.exits@.len() && #[trigger] b.exits@[j] == (
                            r,
                            Operand::Val(crate::ir::instr::ValId(v)),
                        ),
                decreases b.exits@.len() - i,
            {
                let (x, o) = b.exits[i];
                if let Operand::Val(v) = o {
                    if x == r && !m.contains_key(&v.0) {
                        let lower = match best {
                            Some(w) => v.0 < w,
                            None => true,
                        };
                        if lower {
                            proof {
                                assert(b.exits@[i as int] == (r, Operand::Val(v)));
                                assert(v == crate::ir::instr::ValId(v.0));
                            }
                            best = Some(v.0);
                        }
                    }
                }
                i = i + 1;
            }
            if let Some(v) = best {
                m.insert(v, r);
            }
        }
        g = g + 1;
    }
    m
}

/// The register an operand that dies into the range leaves behind.
fn vacated_by(
    scan: &Scan,
    work: &Vec<Range>,
    sources: &HashMap<u32, u32>,
    r: &Range,
    Ghost(instrs): Ghost<Seq<Instr>>,
) -> (g: Option<Reg>)
    requires
        r.def < usize::MAX,
        forall|d: u32| #[trigger]
            sources@.dom().contains(d) == (read_first(instrs, d, instrs.len() as int) is Some),
        forall|d: u32| #[trigger]
            sources@.dom().contains(d) ==> read_first(instrs, d, instrs.len() as int) == Some(
                sources@[d],
            ),
    ensures
        g == vacated_for(instrs, work@, scan.segments@, *r),
{
    if let Item::Val(v) = r.item {
        proof {
            assert(sources@.dom().contains(v.0) == (read_first(instrs, v.0, instrs.len() as int)
                is Some));
        }
        if let Some(src) = sources.get(&v.0) {
            let item = Item::Val(crate::ir::instr::ValId(*src));
            let mut j: usize = 0;
            while j < work.len() && work[j].item != item
                invariant
                    j <= work@.len(),
                    ends_at(work@, item, 0) == ends_at(work@, item, j as int),
                decreases work@.len() - j,
            {
                j = j + 1;
            }
            if j < work.len() && work[j].last_use <= r.def + 1 {
                let n: usize = scan.segments.len();
                let mut k: usize = n;
                while k > 0 && scan.segments[k - 1].item != item
                    invariant
                        k <= n == scan.segments@.len(),
                        seen_at(scan.segments@, item, n as int) == seen_at(
                            scan.segments@,
                            item,
                            k as int,
                        ),
                    decreases k,
                {
                    k = k - 1;
                }
                if k > 0 {
                    if let Loc::Reg(x) = scan.segments[k - 1].loc {
                        return Some(x);
                    }
                }
            }
        }
    }
    None
}

/// Whether a segment of the item, or of its saved half, covers a position of the range.
pub open spec fn covers(segs: Seq<Segment>, r: Range, pos: int) -> bool {
    exists|k: int|
        0 <= k < segs.len() && belongs((#[trigger] segs[k]).item, r) && segs[k].start <= pos
            < segs[k].end
}

/// Whether a segment of this item can cover the range.
pub open spec fn belongs(i: Item, r: Range) -> bool {
    i == r.item || (r.fixed matches Some(g) && i == Item::Saved(g))
}

/// What an allocation guarantees: every live range has a location for its whole extent,
/// no value sits in a register something destroys, and no two values needed at once share
/// a register.
pub open spec fn alloc_ok(b: SchedBlock, segs: Seq<Segment>) -> bool {
    &&& forall|r: Range, pos: int|
        range_ok(b, r) && r.def <= pos < r.last_use ==> #[trigger] covers(segs, r, pos)
    &&& regs_ok(b.instrs@, segs)
}

/// Whether no value of the block ends before it is defined, as in any code where values are
/// defined before they are read.
pub open spec fn defined_first(b: SchedBlock) -> bool {
    forall|v: crate::ir::instr::ValId|
        (#[trigger] def_upto(b.instrs@, v, b.instrs@.len() as int)) matches Some(d) ==> (live_end(b, v) matches Some(
            e,
        ) ==> d <= e)
}

/// Whether the copies are those that bring saved values where they live: one for each, in
/// order.
pub open spec fn copies_ok(segs: Seq<Segment>, copies: Seq<Copy_>) -> bool {
    &&& forall|c: int| 0 <= c < copies.len() ==> copy_ok(segs, #[trigger] copies[c])
    &&& forall|k: int|
        0 <= k < segs.len() && (#[trigger] segs[k]).item is Saved ==> exists|c: int|
            0 <= c < copies.len() && (#[trigger] copies[c]).item == segs[k].item && copies[c].at
                == segs[k].start
    &&& forall|c: int, d: int|
        0 <= c < d < copies.len() ==> (#[trigger] copies[c]).at <= (#[trigger] copies[d]).at
            && copies[c].item != copies[d].item
}

/// Whether a copy moves a saved value out of its register into the location it has from
/// there on.
pub open spec fn copy_ok(segs: Seq<Segment>, c: Copy_) -> bool {
    &&& c.item matches Item::Saved(g) && c.from == Loc::Reg(g)
    &&& exists|k: int|
        0 <= k < segs.len() && (#[trigger] segs[k]).item == c.item && segs[k].start == c.at
            && segs[k].loc == c.to
}

/// Whether there is a segment with this item and extent.
pub open spec fn segment_for(segs: Seq<Segment>, item: Item, start: int, end: int) -> bool {
    exists|k: int|
        0 <= k < segs.len() && (#[trigger] segs[k]).item == item && segs[k].start == start
            && segs[k].end == end
}

/// Whether an entry value keeps its register, or is moved out where it is destroyed first.
pub open spec fn entry_placed(b: SchedBlock, segs: Seq<Segment>, g: Reg, end: int) -> bool {
    ||| survives(b.instrs@, g, end) && segment_for(segs, Item::Entry(g), 0, end)
    ||| exists|c: int|
        first_kill(b.instrs@, g, end, c) && #[trigger] segment_for(segs, Item::Entry(g), 0, c)
            && segment_for(segs, Item::Saved(g), c, end)
}

proof fn lemma_held(work: Seq<Range>, cur: int, segs: Seq<Segment>, item: Item, def: int, end: int)
    requires
        segs_ok(work, work.len() as int, cur, segs),
        holds(work, item, def, end),
    ensures
        segment_for(segs, item, def, end),
{
    let j = choose|j: int|
        0 <= j < work.len() && (#[trigger] work[j]).item == item && work[j].def == def
            && work[j].last_use == end;
    assert(scanned(work, work.len() as int, j));
    assert(some_seg(segs, work[j]));
    let k = choose|k: int| 0 <= k < segs.len() && seg_for(#[trigger] segs[k], work[j]);
    assert(segs[k].item == item);
}

/// Once every range of the work list has a segment, every live range is covered.
proof fn lemma_covered(b: SchedBlock, rs: Seq<Range>, work: Seq<Range>, cur: int, segs: Seq<Segment>)
    requires
        forall|k: int| 0 <= k < rs.len() ==> range_ok(b, #[trigger] rs[k]),
        forall|v: crate::ir::instr::ValId| #[trigger]
            def_upto(b.instrs@, v, b.instrs@.len() as int) is Some ==> lists(rs, Item::Val(v)),
        forall|r: Reg| #[trigger] entry_end(b, r) is Some ==> lists(rs, Item::Entry(r)),
        forall|k: int| 0 <= k < rs.len() ==> placed(b.instrs@, work, #[trigger] rs[k]),
        segs_ok(work, work.len() as int, cur, segs),
    ensures
        forall|r: Range, pos: int|
            range_ok(b, r) && r.def <= pos < r.last_use ==> #[trigger] covers(segs, r, pos),
        forall|g: Reg|
            (#[trigger] entry_end(b, g)) is Some ==> entry_placed(b, segs, g, entry_end(b, g)->0),
{
    assert forall|g: Reg| (#[trigger] entry_end(b, g)) is Some implies entry_placed(
        b,
        segs,
        g,
        entry_end(b, g)->0,
    ) by {
        assert(lists(rs, Item::Entry(g)));
        let k = choose|k: int| 0 <= k < rs.len() && (#[trigger] rs[k]).item == Item::Entry(g);
        assert(range_ok(b, rs[k]));
        lemma_entry_placed(b, work, cur, segs, rs[k], g);
    }
    assert forall|r: Range, pos: int| range_ok(b, r) && r.def <= pos < r.last_use implies #[trigger] covers(
        segs,
        r,
        pos,
    ) by {
        match r.item {
            Item::Val(v) => {
                assert(lists(rs, Item::Val(v)));
                let k = choose|k: int| 0 <= k < rs.len() && (#[trigger] rs[k]).item == Item::Val(v);
                assert(range_ok(b, rs[k]));
                lemma_same_extent(b, rs[k], r);
                assert(placed(b.instrs@, work, rs[k]));
                lemma_held(work, cur, segs, r.item, r.def as int, r.last_use as int);
                let m = choose|m: int|
                    0 <= m < segs.len() && (#[trigger] segs[m]).item == r.item && segs[m].start == r.def
                        && segs[m].end == r.last_use;
                assert(belongs(segs[m].item, r));
            },
            Item::Entry(g) => {
                assert(entry_end(b, g) == Some(r.last_use as int));
                let e = r.last_use as int;
                assert(entry_placed(b, segs, g, e));
                if survives(b.instrs@, g, e) && segment_for(segs, Item::Entry(g), 0, e) {
                    let m = choose|m: int|
                        0 <= m < segs.len() && (#[trigger] segs[m]).item == Item::Entry(g)
                            && segs[m].start == 0 && segs[m].end == e;
                    assert(belongs(segs[m].item, r));
                } else {
                    let c = choose|c: int|
                        first_kill(b.instrs@, g, e, c) && #[trigger] segment_for(
                            segs,
                            Item::Entry(g),
                            0,
                            c,
                        ) && segment_for(segs, Item::Saved(g), c, e);
                    if pos < c {
                        let m = choose|m: int|
                            0 <= m < segs.len() && (#[trigger] segs[m]).item == Item::Entry(g)
                                && segs[m].start == 0 && segs[m].end == c;
                        assert(belongs(segs[m].item, r));
                    } else {
                        let m = choose|m: int|
                            0 <= m < segs.len() && (#[trigger] segs[m]).item == Item::Saved(g)
                                && segs[m].start == c && segs[m].end == e;
                        assert(belongs(segs[m].item, r));
                    }
                }
            },
            Item::Saved(_) => {},
        }
    }
}

proof fn lemma_entry_placed(
    b: SchedBlock,
    work: Seq<Range>,
    cur: int,
    segs: Seq<Segment>,
    r: Range,
    g: Reg,
)
    requires
        range_ok(b, r),
        r.item == Item::Entry(g),
        placed(b.instrs@, work, r),
        segs_ok(work, work.len() as int, cur, segs),
    ensures
        entry_placed(b, segs, g, r.last_use as int),
{
    let e = r.last_use as int;
    if survives(b.instrs@, g, e) && holds(work, Item::Entry(g), 0, e) {
        lemma_held(work, cur, segs, Item::Entry(g), 0, e);
    } else {
        let c = choose|c: int|
            first_kill(b.instrs@, g, e, c) && #[trigger] holds(work, Item::Entry(g), 0, c) && holds(
                work,
                Item::Saved(g),
                c,
                e,
            );
        lemma_held(work, cur, segs, Item::Entry(g), 0, c);
        lemma_held(work, cur, segs, Item::Saved(g), c, e);
    }
}

/// The copies that bring saved values where they live, in the order of the cuts' positions.
fn split_copies(alloc: &Alloc, cuts: &Vec<(Reg, usize)>, Ghost(work): Ghost<Seq<Range>>, Ghost(cur): Ghost<int>) -> (copies: Vec<
    Copy_,
>)
    requires
        segs_ok(work, work.len() as int, cur, alloc.segments@),
        cuts_ok(work, cuts@),
        forall|j: int| 0 <= j < work.len() && (#[trigger] work[j]).item is Saved ==> work[j].def < work[j].last_use,
    ensures
        copies_ok(alloc.segments@, copies@),
        copies@ == copies_upto(alloc.segments@, cuts@, cuts@.len() as int),
{
    let ghost segs = alloc.segments@;
    let mut copies: Vec<Copy_> = Vec::new();
    let mut p: usize = 0;
    while p < cuts.len()
        invariant
            p <= cuts@.len(),
            segs == alloc.segments@,
            segs_ok(work, work.len() as int, cur, segs),
            cuts_ok(work, cuts@),
            copies@ == copies_upto(segs, cuts@, p as int),
            forall|j: int|
                0 <= j < work.len() && (#[trigger] work[j]).item is Saved ==> work[j].def < work[j].last_use,
            forall|c: int|
                0 <= c < copies@.len() ==> copy_ok(segs, #[trigger] copies@[c]) && exists|q: int|
                    0 <= q < p && copies@[c].item == Item::Saved((#[trigger] cuts@[q]).0),
            forall|c: int, d: int|
                0 <= c < d < copies@.len() ==> (#[trigger] copies@[c]).at <= (#[trigger] copies@[d]).at
                    && copies@[c].item != copies@[d].item,
            forall|q: int| 0 <= q < p ==> #[trigger] copied(copies@, cuts@[q]),
        decreases cuts@.len() - p,
    {
        let (g, at) = cuts[p];
        let item = Item::Saved(g);
        let ghost c0 = copies@;
        let ghost home = saved_home(work, cur, segs, cuts@, p as int);
        proof {
            lemma_saved_home(work, cur, segs, cuts@, p as int);
            lemma_found(segs, home, at as int);
        }
        if let Some(to) = alloc.loc_at(item, at) {
            let c = Copy_ { item, at, from: Loc::Reg(g), to };
            let mut q: usize = copies.len();
            while q > 0 && copies[q - 1].at > at
                invariant
                    q <= copies@.len(),
                    copies@ == c0,
                    forall|d: int| q <= d < c0.len() ==> (#[trigger] c0[d]).at > at,
                decreases q,
            {
                q = q - 1;
            }
            copies.insert(q, c);
            proof {
                assert(copies@ =~= c0.insert(q as int, c));
                lemma_copy_in(c0, c, q as int);
                assert(cuts@[p as int] == (g, at));
                assert(cuts_differ(cuts@)) by {
                    reveal(cuts_ok);
                }
                assert(copy_ok(segs, c)) by {
                    assert(segs[home].item == c.item && segs[home].start == c.at && segs[home].loc == c.to);
                }
                lemma_copy_inserted(segs, c0, q as int, c, cuts@, p as int);
            }
        }
        p = p + 1;
    }
    proof {
        assert forall|k: int| 0 <= k < segs.len() && (#[trigger] segs[k]).item is Saved implies exists|c: int|
            0 <= c < copies@.len() && (#[trigger] copies@[c]).item == segs[k].item && copies@[c].at
                == segs[k].start by {
            assert(from_work(work, work.len() as int, segs[k]));
            let j = choose|j: int|
                scanned(work, work.len() as int, j) && #[trigger] seg_for(segs[k], work[j]);
            reveal(cuts_ok);
            let g = segs[k].item->Saved_0;
            assert(work[j].item == Item::Saved(g));
            assert(cuts@.contains((g, work[j].def)));
            let q = choose|q: int| 0 <= q < cuts@.len() && cuts@[q] == (g, work[j].def);
            assert(copied(copies@, cuts@[q]));
        }
    }
    copies
}

spec fn copied(copies: Seq<Copy_>, cut: (Reg, usize)) -> bool {
    exists|c: int|
        0 <= c < copies.len() && (#[trigger] copies[c]).item == Item::Saved(cut.0) && copies[c].at == cut.1
}

spec fn saved_home(work: Seq<Range>, cur: int, segs: Seq<Segment>, cuts: Seq<(Reg, usize)>, p: int) -> int {
    choose|k: int|
        0 <= k < segs.len() && (#[trigger] segs[k]).item == Item::Saved(cuts[p].0) && segs[k].start
            == cuts[p].1 && segs[k].start < segs[k].end
}

proof fn lemma_saved_home(work: Seq<Range>, cur: int, segs: Seq<Segment>, cuts: Seq<(Reg, usize)>, p: int)
    requires
        segs_ok(work, work.len() as int, cur, segs),
        cuts_ok(work, cuts),
        0 <= p < cuts.len(),
        forall|j: int| 0 <= j < work.len() && (#[trigger] work[j]).item is Saved ==> work[j].def < work[j].last_use,
    ensures
        ({
            let k = saved_home(work, cur, segs, cuts, p);
            &&& 0 <= k < segs.len()
            &&& segs[k].item == Item::Saved(cuts[p].0)
            &&& segs[k].start == cuts[p].1
            &&& segs[k].start < segs[k].end
            &&& forall|j: int| 0 <= j < segs.len() && j != k ==> (#[trigger] segs[j]).item != segs[k].item
        }),
{
    reveal(cuts_ok);
    assert(cut_in(work, cuts[p]));
    let j = choose|j: int|
        0 <= j < work.len() && (#[trigger] work[j]).item == Item::Saved(cuts[p].0) && work[j].def
            == cuts[p].1;
    assert(scanned(work, work.len() as int, j));
    assert(some_seg(segs, work[j]));
    let m = choose|m: int| 0 <= m < segs.len() && seg_for(#[trigger] segs[m], work[j]);
    assert(segs[m].item == Item::Saved(cuts[p].0));
}

/// Looking for the only segment of an item finds it.
proof fn lemma_found(segs: Seq<Segment>, k: int, pos: int)
    requires
        0 <= k < segs.len(),
        segs[k].start <= pos < segs[k].end,
        forall|j: int| 0 <= j < segs.len() && j != k ==> (#[trigger] segs[j]).item != segs[k].item,
    ensures
        found_at(segs, segs[k].item, pos) == Some(segs[k].loc),
    decreases segs.len(),
{
    if k > 0 {
        let rest = segs.skip(1);
        assert(segs[0].item != segs[k].item);
        assert forall|j: int| 0 <= j < rest.len() && j != k - 1 implies (#[trigger] rest[j]).item != rest[k
            - 1].item by {
            assert(rest[j] == segs[j + 1]);
        }
        lemma_found(rest, k - 1, pos);
    }
}

proof fn lemma_copy_inserted(
    segs: Seq<Segment>,
    c0: Seq<Copy_>,
    q: int,
    c: Copy_,
    cuts: Seq<(Reg, usize)>,
    p: int,
)
    requires
        0 <= q <= c0.len(),
        0 <= p < cuts.len(),
        c.item == Item::Saved(cuts[p].0),
        c.at == cuts[p].1,
        copy_ok(segs, c),
        cuts_differ(cuts),
        forall|d: int| q <= d < c0.len() ==> (#[trigger] c0[d]).at > c.at,
        q > 0 ==> c0[q - 1].at <= c.at,
        forall|d: int|
            0 <= d < c0.len() ==> copy_ok(segs, #[trigger] c0[d]) && exists|x: int|
                0 <= x < p && c0[d].item == Item::Saved((#[trigger] cuts[x]).0),
        forall|d: int, e: int|
            0 <= d < e < c0.len() ==> (#[trigger] c0[d]).at <= (#[trigger] c0[e]).at && c0[d].item
                != c0[e].item,
        forall|x: int| 0 <= x < p ==> #[trigger] copied(c0, cuts[x]),
    ensures
        ({
            let next = c0.insert(q, c);
            &&& forall|d: int|
                0 <= d < next.len() ==> copy_ok(segs, #[trigger] next[d]) && exists|x: int|
                    0 <= x < p + 1 && next[d].item == Item::Saved((#[trigger] cuts[x]).0)
            &&& forall|d: int, e: int|
                0 <= d < e < next.len() ==> (#[trigger] next[d]).at <= (#[trigger] next[e]).at
                    && next[d].item != next[e].item
            &&& forall|x: int| 0 <= x < p + 1 ==> #[trigger] copied(next, cuts[x])
        }),
{
    let next = c0.insert(q, c);
    assert(next[q] == c);
    assert forall|d: int| 0 <= d < c0.len() implies (#[trigger] c0[d]).item != c.item by {
        let x = choose|x: int| 0 <= x < p && c0[d].item == Item::Saved((#[trigger] cuts[x]).0);
        assert(cuts[x].0 != cuts[p].0);
    }
    assert forall|d: int| 0 <= d < q implies (#[trigger] c0[d]).at <= c.at by {
        if d < q - 1 {
            assert(c0[d].at <= c0[q - 1].at);
        }
    }
    assert forall|d: int| 0 <= d < next.len() implies copy_ok(segs, #[trigger] next[d]) && exists|x: int|
        0 <= x < p + 1 && next[d].item == Item::Saved((#[trigger] cuts[x]).0) by {
        if d == q {
            assert(next[d].item == Item::Saved(cuts[p].0));
        } else {
            let y = if d < q {
                d
            } else {
                d - 1
            };
            assert(next[d] == c0[y]);
            let x = choose|x: int| 0 <= x < p && c0[y].item == Item::Saved((#[trigger] cuts[x]).0);
            assert(next[d].item == Item::Saved(cuts[x].0));
        }
    }
    assert forall|d: int, e: int| 0 <= d < e < next.len() implies (#[trigger] next[d]).at <= (
    #[trigger] next[e]).at && next[d].item != next[e].item by {
        let x = if d < q {
            d
        } else {
            d - 1
        };
        let y = if e < q {
            e
        } else {
            e - 1
        };
        if d == q {
            assert(next[e] == c0[y]);
        } else if e == q {
            assert(next[d] == c0[x]);
        } else {
            assert(next[d] == c0[x] && next[e] == c0[y]);
        }
    }
    assert forall|x: int| 0 <= x < p + 1 implies #[trigger] copied(next, cuts[x]) by {
        if x < p {
            assert(copied(c0, cuts[x]));
            let d = choose|d: int|
                0 <= d < c0.len() && (#[trigger] c0[d]).item == Item::Saved(cuts[x].0) && c0[d].at
                    == cuts[x].1;
            if d < q {
                assert(next[d] == c0[d]);
            } else {
                assert(next[d + 1] == c0[d]);
            }
        }
    }
}

spec fn cuts_differ(cuts: Seq<(Reg, usize)>) -> bool {
    forall|x: int, y: int| 0 <= x < y < cuts.len() ==> (#[trigger] cuts[x]).0 != (#[trigger] cuts[y]).0
}

/// Assign locations to every live range in `b`.
///
/// A linear scan over the ranges in the order of their starts. Entry values are
/// pre-coloured: each stays in its own register, and one whose register something later
/// destroys is split there and copied to a preserved location. Ranges crossing a call avoid
/// the volatile registers, ranges crossing a boxed instruction avoid what it destroys.
/// Spill slots are reused.
pub fn allocate(b: &SchedBlock) -> (r: Alloc)
    requires
        b.instrs@.len() < 0x7fff_0000,
    ensures
        alloc_ok(*b, r.segments@),
        copies_ok(r.segments@, r.copies@),
        forall|j: int, k: int|
            0 <= j < k < r.segments@.len() ==> (#[trigger] r.segments@[j]).item != (
            #[trigger] r.segments@[k]).item,
        forall|g: Reg|
            (#[trigger] entry_end(*b, g)) is Some ==> entry_placed(
                *b,
                r.segments@,
                g,
                entry_end(*b, g)->0,
            ),
        forall|k: int|
            0 <= k < r.segments@.len() ==> match (#[trigger] r.segments@[k]).loc {
                Loc::Reg(g) => r.segments@[k].item == Item::Entry(g) || g != Reg::Rsp,
                Loc::Spill(n) => n < r.slots,
            },
        forall|k: int|
            0 <= k < r.segments@.len() ==> ((#[trigger] r.segments@[k]).item matches Item::Entry(g)
                ==> r.segments@[k].loc == Loc::Reg(g)),
        defined_first(*b) ==> forall|j: int, k: int|
            0 <= j < k < r.segments@.len() && (#[trigger] r.segments@[j]).loc is Spill
                && r.segments@[j].loc == (#[trigger] r.segments@[k]).loc ==> apart(
                r.segments@[j],
                r.segments@[k],
            ),
        forall|k: int|
            0 <= k < r.segments@.len() && (#[trigger] r.segments@[k]).loc is Spill ==> forced_out(
                b.instrs@,
                r.segments@,
                r.segments@[k],
            ),
        exists|rs: Seq<Range>, work: Seq<Seq<Range>>, states: Seq<Scanned>| #[trigger]
            allocates(*b, rs, work, states, r),
{
    let rs = ranges(b);
    let (work, cuts) = split(b, &rs);
    let ghost ins = b.instrs@;
    let ghost tidy = defined_first(*b);
    proof {
        lemma_listed(*b, rs@, work@);
    }
    let mut scan = seed(b, &work, Ghost(tidy));
    let sources = first_operands(b);
    let leaving = exit_registers(b);
    let ghost mut cur: int = 0;
    let ghost mut states: Seq<Scanned> = seq![scan.state()];
    let mut i: usize = 0;
    while i < work.len()
        invariant
            i <= work@.len(),
            states.len() == i + 1,
            states[0] == scan_start(work@),
            states.last() == scan.state(),
            forall|j: int| 0 <= j < i ==> states[j + 1] == if (#[trigger] work@[j]).fixed is Some {
                states[j]
            } else {
                scan_step(
                    states[j],
                    work@[j],
                    vacated_for(b.instrs@, work@, states[j].segments, work@[j]),
                    wanted_for(b.exits@, work@[j]),
                )
            },
            leaving@ == leaving_in(b.exits@, 16),
            forall|d: u32| #[trigger]
                sources@.dom().contains(d) == (read_first(ins, d, ins.len() as int) is Some),
            forall|d: u32| #[trigger]
                sources@.dom().contains(d) ==> read_first(ins, d, ins.len() as int) == Some(
                    sources@[d],
                ),
            work@.len() <= 2 * (ins.len() + 16),
            ins == b.instrs@,
            ins.len() < 0x7fff_0000,
            tidy == defined_first(*b),
            in_order(work@),
            distinct_items(work@),
            forall|j: int|
                0 <= j < work@.len() ==> work_ok(ins, #[trigger] work@[j]) && work@[j].def < usize::MAX
                    && (tidy && work@[j].fixed is None ==> work@[j].def <= work@[j].last_use),
            scan.ok(ins, work@, tidy, i as int, cur),
            scan.slots@.len() <= i,
            all_forced(ins, scan.segments@),
            forall|j: int| i <= j < work@.len() ==> cur <= (#[trigger] work@[j]).def,
        decreases work@.len() - i,
    {
        let r = work[i];
        let ghost s0 = scan.state();
        proof {
            assert(work_ok(ins, work@[i as int]));
        }
        if r.fixed.is_none() {
            let vacated = vacated_by(&scan, &work, &sources, &r, Ghost(ins));
            let wanted = match r.item {
                Item::Val(v) => match leaving.get(&v.0) {
                    Some(g) => Some(*g),
                    None => None,
                },
                _ => None,
            };
            scan.step(
                r,
                vacated,
                wanted,
                Ghost(ins),
                Ghost(work@),
                Ghost(tidy),
                Ghost(i as int),
                Ghost(cur),
            );
            proof {
                cur = r.def as int;
                assert forall|j: int| i < j < work@.len() implies cur <= (#[trigger] work@[j]).def by {
                    assert(no_later(work@[i as int], work@[j]));
                }
            }
        } else {
            proof {
                assert forall|j: int| scanned(work@, i + 1, j) implies #[trigger] some_seg(
                    scan.segments@,
                    work@[j],
                ) by {
                    assert(scanned(work@, i as int, j));
                }
                assert forall|k: int| 0 <= k < scan.segments@.len() implies #[trigger] from_work(
                    work@,
                    i + 1,
                    scan.segments@[k],
                ) by {
                    assert(from_work(work@, i as int, scan.segments@[k]));
                    let j = choose|j: int|
                        scanned(work@, i as int, j) && #[trigger] seg_for(scan.segments@[k], work@[j]);
                    assert(scanned(work@, i + 1, j) && seg_for(scan.segments@[k], work@[j]));
                }
            }
        }
        proof {
            let more = states.push(scan.state());
            assert forall|j: int| 0 <= j < i + 1 implies more[j + 1] == if (
            #[trigger] work@[j]).fixed is Some {
                more[j]
            } else {
                scan_step(
                    more[j],
                    work@[j],
                    vacated_for(b.instrs@, work@, more[j].segments, work@[j]),
                    wanted_for(b.exits@, work@[j]),
                )
            } by {
                if j < i {
                    assert(more[j] == states[j] && more[j + 1] == states[j + 1]);
                } else {
                    assert(more[j] == s0 && more[j + 1] == scan.state());
                }
            }
            states = more;
        }
        i = i + 1;
    }
    let ghost end = scan.state();
    let slots: u32 = scan.slots.len() as u32;
    let mut alloc = Alloc { segments: scan.segments, copies: Vec::new(), slots };
    let copies = split_copies(&alloc, &cuts, Ghost(work@), Ghost(cur));
    proof {
        lemma_covered(*b, rs@, work@, cur, alloc.segments@);
    }
    alloc.copies = copies;
    proof {
        let lists = choose|lists: Seq<Seq<Range>>| #[trigger]
            lists_work(b.instrs@, rs@, lists) && lists.last() == work@;
        assert(ranges_of(*b, rs@));
        assert(scans(*b, work@, states));
        assert(allocates(*b, rs@, lists, states, alloc));
    }
    alloc
}

/// What the work list gives the scan.
proof fn lemma_listed(b: SchedBlock, rs: Seq<Range>, work: Seq<Range>)
    requires
        b.instrs@.len() < 0x7fff_0000,
        listed_ok(b, rs, rs.len() as int, work),
    ensures
        distinct_items(work),
        forall|j: int|
            0 <= j < work.len() ==> work_ok(b.instrs@, #[trigger] work[j]) && work[j].def < usize::MAX && (
            defined_first(b) && work[j].fixed is None ==> work[j].def <= work[j].last_use),
        forall|j: int| 0 <= j < work.len() && (#[trigger] work[j]).item is Saved ==> work[j].def < work[j].last_use,
{
    reveal(listed_ok);
    assert forall|j: int|
        0 <= j < work.len() implies work_ok(b.instrs@, #[trigger] work[j]) && work[j].def < usize::MAX && (
    defined_first(b) && work[j].fixed is None ==> work[j].def <= work[j].last_use) by {
        assert(extent_ok(b, work[j]));
        if let Item::Val(v) = work[j].item {
            crate::ir::live::lemma_def_upto(b.instrs@, v, b.instrs@.len() as int);
        }
    }
}

} // verus!
