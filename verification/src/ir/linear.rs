//! The linear scan of register allocation, step by step.

use crate::ir::instr::{Instr, Operand, SchedBlock, ValId};
use crate::ir::live::{
    before, constrained, def_upto, destroys, entry_end, lists, no_later, range_ok, Item, Range,
    ALLOCATABLE,
};
use crate::ir::regalloc::{
    first_kill, found_at, may_hold, shares, survives, Alloc, Copy_, Loc, Segment,
};
use crate::ir::value::{Reg, GPRS};
use vstd::prelude::*;

verus! {

/// A list of ranges with one more put behind those that start and end no later.
pub open spec fn placed_in(v: Seq<Range>, r: Range) -> Seq<Range>
    decreases v.len(),
{
    if v.len() == 0 || no_later(v.last(), r) {
        v.push(r)
    } else {
        placed_in(v.drop_last(), r).push(v.last())
    }
}

/// The part of a pre-coloured range that keeps its register, up to where something destroys it.
pub open spec fn head_of(r: Range, c: usize) -> Range {
    Range { last_use: c, crosses_call: false, ..r }
}

/// Whether a range is what is left of a pre-coloured one from where its register is destroyed.
pub open spec fn is_tail(instrs: Seq<Instr>, r: Range, g: Reg, c: usize, tail: Range) -> bool {
    &&& tail.item == Item::Saved(g)
    &&& tail.def == c
    &&& tail.last_use == r.last_use
    &&& tail.fixed is None
    &&& constrained(instrs, tail)
}

/// Whether a work list is another with a live range added, split where its register dies.
pub open spec fn adds(instrs: Seq<Instr>, v: Seq<Range>, r: Range, next: Seq<Range>) -> bool {
    match r.fixed {
        Some(g) => {
            ||| survives(instrs, g, r.last_use as int) && next == placed_in(v, r)
            ||| exists|c: usize, tail: Range|
                first_kill(instrs, g, r.last_use as int, c as int) && #[trigger] is_tail(
                    instrs,
                    r,
                    g,
                    c,
                    tail,
                ) && next == placed_in(placed_in(v, head_of(r, c)), tail)
        },
        None => next == placed_in(v, r),
    }
}

/// Whether the lists are the work list as one live range after the other is added to it.
pub open spec fn lists_work(instrs: Seq<Instr>, rs: Seq<Range>, work: Seq<Seq<Range>>) -> bool {
    &&& work.len() == rs.len() + 1
    &&& work[0] == Seq::<Range>::empty()
    &&& forall|k: int| 0 <= k < rs.len() ==> adds(instrs, work[k], #[trigger] rs[k], work[k + 1])
}

/// Whether a list holds the live ranges of a block in their order.
pub open spec fn ranges_of(b: SchedBlock, rs: Seq<Range>) -> bool {
    &&& forall|k: int| 0 <= k < rs.len() ==> range_ok(b, #[trigger] rs[k])
    &&& forall|j: int, k: int| 0 <= j < k < rs.len() ==> before(#[trigger] rs[j], #[trigger] rs[k])
    &&& forall|v: ValId| #[trigger]
        def_upto(b.instrs@, v, b.instrs@.len() as int) is Some ==> lists(rs, Item::Val(v))
    &&& forall|r: Reg| #[trigger] entry_end(b, r) is Some ==> lists(rs, Item::Entry(r))
}

/// Where a scan stands: the segments made, the range in each register by number, and the range
/// each spill slot was given to last.
pub ghost struct Scanned {
    pub segments: Seq<Segment>,
    pub busy: Seq<Option<Range>>,
    pub slots: Seq<Range>,
}

/// A range in a location.
pub open spec fn segment_of(r: Range, loc: Loc) -> Segment {
    Segment { item: r.item, start: r.def, end: r.last_use, loc }
}

/// What a register holds from a position on.
pub open spec fn still_held(held: Option<Range>, at: usize) -> Option<Range> {
    match held {
        Some(x) => if x.last_use > at {
            held
        } else {
            None
        },
        None => None,
    }
}

/// The registers once the ranges that end at or before a position are gone.
pub open spec fn held_from(busy: Seq<Option<Range>>, at: usize) -> Seq<Option<Range>> {
    Seq::new(busy.len(), |k: int| still_held(busy[k], at))
}

/// Whether a register is free for a range, or, where that will do, its last reader is the
/// instruction that starts the range.
pub open spec fn is_free(busy: Seq<Option<Range>>, r: Range, g: Reg, handoff: bool) -> bool {
    may_hold(r, g) && match busy[g.number_spec() as int] {
        Some(x) => handoff && x.last_use <= r.def + 1,
        None => true,
    }
}

/// The first free register, looking from `k` on.
pub open spec fn next_free(busy: Seq<Option<Range>>, r: Range, k: int) -> Option<Reg>
    decreases 15 - k,
{
    if k < 0 || k >= 15 {
        None
    } else if is_free(busy, r, ALLOCATABLE@[k], false) {
        Some(ALLOCATABLE@[k])
    } else {
        next_free(busy, r, k + 1)
    }
}

/// The register a range gets: the one its first operand vacates, else the one its value leaves
/// the block in, else the first that is free.
pub open spec fn chosen(
    busy: Seq<Option<Range>>,
    r: Range,
    vacated: Option<Reg>,
    wanted: Option<Reg>,
) -> Option<Reg> {
    if vacated is Some && is_free(busy, r, vacated->0, true) {
        vacated
    } else if wanted is Some && is_free(busy, r, wanted->0, false) {
        wanted
    } else {
        next_free(busy, r, 0)
    }
}

/// Among the first `k` registers the one whose range ends last, and when, of those that can be
/// moved out for a range. Of several it is the last.
pub open spec fn ends_last(busy: Seq<Option<Range>>, r: Range, k: int) -> Option<(Reg, usize)>
    decreases k,
{
    if k <= 0 {
        None
    } else {
        let best = ends_last(busy, r, k - 1);
        let g = ALLOCATABLE@[k - 1];
        match busy[g.number_spec() as int] {
            Some(x) => if may_hold(r, g) && x.fixed is None && (best is None || x.last_use >= (
            best->0).1) {
                Some((g, x.last_use))
            } else {
                best
            },
            None => best,
        }
    }
}

/// The register to move out for a range: its own range ends later.
pub open spec fn moved_out(busy: Seq<Option<Range>>, r: Range) -> Option<Reg> {
    match ends_last(busy, r, 15) {
        Some((g, end)) => if end > r.last_use {
            Some(g)
        } else {
            None
        },
        None => None,
    }
}

/// The first spill slot, from `n` on, whose last owner is gone when a range starts; else a new
/// one.
pub open spec fn slot_for(slots: Seq<Range>, x: Range, n: int) -> int
    decreases slots.len() - n,
{
    if n < 0 || n >= slots.len() || slots[n].last_use <= x.def {
        n
    } else {
        slot_for(slots, x, n + 1)
    }
}

/// The slots with one given to a range.
pub open spec fn with_slot(slots: Seq<Range>, n: int, x: Range) -> Seq<Range> {
    if n < slots.len() {
        slots.update(n, x)
    } else {
        slots.push(x)
    }
}

/// The segments with that of an item in a slot instead.
pub open spec fn moved_to(segs: Seq<Segment>, item: Item, slot: u32) -> Seq<Segment> {
    Seq::new(
        segs.len(),
        |k: int|
            if segs[k].item == item {
                Segment { loc: Loc::Spill(slot), ..segs[k] }
            } else {
                segs[k]
            },
    )
}

/// A scan after one more range was placed.
pub open spec fn scan_step(s: Scanned, r: Range, vacated: Option<Reg>, wanted: Option<Reg>) -> Scanned {
    let busy = held_from(s.busy, r.def);
    match chosen(busy, r, vacated, wanted) {
        Some(g) => Scanned {
            segments: s.segments.push(segment_of(r, Loc::Reg(g))),
            busy: busy.update(g.number_spec() as int, Some(r)),
            slots: s.slots,
        },
        None => match moved_out(busy, r) {
            Some(g) => {
                let x = busy[g.number_spec() as int]->0;
                let n = slot_for(s.slots, x, 0);
                Scanned {
                    segments: moved_to(s.segments, x.item, n as u32).push(
                        segment_of(r, Loc::Reg(g)),
                    ),
                    busy: busy.update(g.number_spec() as int, Some(r)),
                    slots: with_slot(s.slots, n, x),
                }
            },
            None => {
                let n = slot_for(s.slots, r, 0);
                Scanned {
                    segments: s.segments.push(segment_of(r, Loc::Spill(n as u32))),
                    busy,
                    slots: with_slot(s.slots, n, r),
                }
            },
        },
    }
}

/// The segments of the pre-coloured ranges among the first `k`.
pub open spec fn seeded_segments(work: Seq<Range>, k: int) -> Seq<Segment>
    decreases k,
{
    if k <= 0 {
        Seq::empty()
    } else {
        match work[k - 1].fixed {
            Some(g) => seeded_segments(work, k - 1).push(segment_of(work[k - 1], Loc::Reg(g))),
            None => seeded_segments(work, k - 1),
        }
    }
}

/// The registers with the pre-coloured ranges among the first `k` in theirs.
pub open spec fn seeded_registers(work: Seq<Range>, k: int) -> Seq<Option<Range>>
    decreases k,
{
    if k <= 0 {
        Seq::new(16, |g: int| None)
    } else {
        match work[k - 1].fixed {
            Some(g) => seeded_registers(work, k - 1).update(
                g.number_spec() as int,
                Some(work[k - 1]),
            ),
            None => seeded_registers(work, k - 1),
        }
    }
}

/// A scan before the first range: every pre-coloured range is in its register.
pub open spec fn scan_start(work: Seq<Range>) -> Scanned {
    Scanned {
        segments: seeded_segments(work, work.len() as int),
        busy: seeded_registers(work, work.len() as int),
        slots: Seq::empty(),
    }
}

/// The value read first by the last of the first `k` instructions that define a value and could
/// share its register.
pub open spec fn read_first(instrs: Seq<Instr>, v: u32, k: int) -> Option<u32>
    decreases k,
{
    if k <= 0 {
        None
    } else {
        match shares(instrs[k - 1]) {
            Some((d, a)) => if d == v {
                Some(a)
            } else {
                read_first(instrs, v, k - 1)
            },
            None => read_first(instrs, v, k - 1),
        }
    }
}

/// Where the item of a segment among the first `k` is.
pub open spec fn seen_at(segs: Seq<Segment>, item: Item, k: int) -> Option<Loc>
    decreases k,
{
    if k <= 0 {
        None
    } else if segs[k - 1].item == item {
        Some(segs[k - 1].loc)
    } else {
        seen_at(segs, item, k - 1)
    }
}

/// When the range of an item ends, looking from `k` on.
pub open spec fn ends_at(work: Seq<Range>, item: Item, k: int) -> Option<usize>
    decreases work.len() - k,
{
    if k < 0 || k >= work.len() {
        None
    } else if work[k].item == item {
        Some(work[k].last_use)
    } else {
        ends_at(work, item, k + 1)
    }
}

/// The register that the first operand of a range's value vacates: the operand dies into it.
pub open spec fn vacated_for(
    instrs: Seq<Instr>,
    work: Seq<Range>,
    segs: Seq<Segment>,
    r: Range,
) -> Option<Reg> {
    match r.item {
        Item::Val(v) => match read_first(instrs, v.0, instrs.len() as int) {
            Some(a) => match ends_at(work, Item::Val(ValId(a)), 0) {
                Some(end) => if end <= r.def + 1 {
                    match seen_at(segs, Item::Val(ValId(a)), segs.len() as int) {
                        Some(Loc::Reg(g)) => Some(g),
                        _ => None,
                    }
                } else {
                    None
                },
                None => None,
            },
            None => None,
        },
        _ => None,
    }
}

/// The lowest of the values that leave a block in a register, among the first `k` exits and
/// those without a register yet.
pub open spec fn claims(
    exits: Seq<(Reg, Operand)>,
    g: Reg,
    taken: Map<u32, Reg>,
    k: int,
) -> Option<u32>
    decreases k,
{
    if k <= 0 {
        None
    } else {
        let best = claims(exits, g, taken, k - 1);
        match exits[k - 1].1 {
            Operand::Val(v) => if exits[k - 1].0 == g && !taken.dom().contains(v.0) && (best is None
                || v.0 < best->0) {
                Some(v.0)
            } else {
                best
            },
            _ => best,
        }
    }
}

/// The register each value leaves a block in, as far as the first `k` registers go: one value
/// for a register and one register for a value. The stack pointer is no value's.
pub open spec fn leaving_in(exits: Seq<(Reg, Operand)>, k: int) -> Map<u32, Reg>
    decreases k,
{
    if k <= 0 {
        Map::empty()
    } else {
        let m = leaving_in(exits, k - 1);
        let g = GPRS@[k - 1];
        match claims(exits, g, m, exits.len() as int) {
            Some(v) => if g != Reg::Rsp {
                m.insert(v, g)
            } else {
                m
            },
            None => m,
        }
    }
}

/// The register the value of a range leaves the block in.
pub open spec fn wanted_for(exits: Seq<(Reg, Operand)>, r: Range) -> Option<Reg> {
    match r.item {
        Item::Val(v) => if leaving_in(exits, 16).dom().contains(v.0) {
            Some(leaving_in(exits, 16)[v.0])
        } else {
            None
        },
        _ => None,
    }
}

/// Whether the states are those of a scan over a work list.
pub open spec fn scans(b: SchedBlock, work: Seq<Range>, states: Seq<Scanned>) -> bool {
    &&& states.len() == work.len() + 1
    &&& states[0] == scan_start(work)
    &&& forall|i: int|
        0 <= i < work.len() ==> states[i + 1] == if (#[trigger] work[i]).fixed is Some {
            states[i]
        } else {
            scan_step(
                states[i],
                work[i],
                vacated_for(b.instrs@, work, states[i].segments, work[i]),
                wanted_for(b.exits@, work[i]),
            )
        }
}

/// The register of a pre-coloured range and where it is first destroyed, if it is.
pub open spec fn cut_of(instrs: Seq<Instr>, r: Range) -> Option<(Reg, usize)> {
    match r.fixed {
        Some(g) => if survives(instrs, g, r.last_use as int) {
            None
        } else {
            Some((g, choose|c: usize| first_kill(instrs, g, r.last_use as int, c as int)))
        },
        None => None,
    }
}

/// Where the first `k` ranges are split.
pub open spec fn cuts_upto(instrs: Seq<Instr>, rs: Seq<Range>, k: int) -> Seq<(Reg, usize)>
    decreases k,
{
    if k <= 0 {
        Seq::empty()
    } else {
        match cut_of(instrs, rs[k - 1]) {
            Some(cut) => cuts_upto(instrs, rs, k - 1).push(cut),
            None => cuts_upto(instrs, rs, k - 1),
        }
    }
}

/// A list of copies with one more put behind those that come no later.
pub open spec fn copy_in(v: Seq<Copy_>, c: Copy_) -> Seq<Copy_>
    decreases v.len(),
{
    if v.len() == 0 || v.last().at <= c.at {
        v.push(c)
    } else {
        copy_in(v.drop_last(), c).push(v.last())
    }
}

/// The copies that the first `k` splits ask for: from the register to where the value is.
pub open spec fn copies_upto(segs: Seq<Segment>, cuts: Seq<(Reg, usize)>, k: int) -> Seq<Copy_>
    decreases k,
{
    if k <= 0 {
        Seq::empty()
    } else {
        let (g, at) = cuts[k - 1];
        match found_at(segs, Item::Saved(g), at as int) {
            Some(to) => copy_in(
                copies_upto(segs, cuts, k - 1),
                Copy_ { item: Item::Saved(g), at, from: Loc::Reg(g), to },
            ),
            None => copies_upto(segs, cuts, k - 1),
        }
    }
}

/// Whether an allocation is what the scan leaves.
pub open spec fn allocates(
    b: SchedBlock,
    rs: Seq<Range>,
    work: Seq<Seq<Range>>,
    states: Seq<Scanned>,
    a: Alloc,
) -> bool {
    &&& ranges_of(b, rs)
    &&& lists_work(b.instrs@, rs, work)
    &&& scans(b, work.last(), states)
    &&& a.segments@ == states.last().segments
    &&& a.slots == states.last().slots.len()
    &&& a.copies@ == copies_upto(
        a.segments@,
        cuts_upto(b.instrs@, rs, rs.len() as int),
        cuts_upto(b.instrs@, rs, rs.len() as int).len() as int,
    )
}

/// A range is split where its register is first destroyed.
pub proof fn lemma_cut_of(instrs: Seq<Instr>, r: Range, g: Reg, c: usize)
    requires
        r.fixed == Some(g),
        first_kill(instrs, g, r.last_use as int, c as int),
    ensures
        cut_of(instrs, r) == Some((g, c)),
{
    assert(!survives(instrs, g, r.last_use as int));
    let d = choose|c: usize| first_kill(instrs, g, r.last_use as int, c as int);
    assert(first_kill(instrs, g, r.last_use as int, d as int));
    if c < d {
        assert(!destroys(instrs[c as int], g));
    } else if d < c {
        assert(!destroys(instrs[d as int], g));
    }
}

/// A copy put behind those that come no later is put where the list says.
pub proof fn lemma_copy_in(v: Seq<Copy_>, c: Copy_, p: int)
    requires
        0 <= p <= v.len(),
        p > 0 ==> v[p - 1].at <= c.at,
        forall|k: int| p <= k < v.len() ==> (#[trigger] v[k]).at > c.at,
    ensures
        v.insert(p, c) == copy_in(v, c),
    decreases v.len(),
{
    if v.len() == 0 || v.last().at <= c.at {
        assert(p == v.len());
        assert(v.insert(p, c) =~= v.push(c));
    } else {
        let u = v.drop_last();
        assert(p < v.len());
        lemma_copy_in(u, c, p);
        assert(v.insert(p, c) =~= u.insert(p, c).push(v.last()));
    }
}

/// A range put behind those that come no later is put where the list says.
pub proof fn lemma_placed_in(v: Seq<Range>, r: Range, p: int)
    requires
        0 <= p <= v.len(),
        p > 0 ==> no_later(v[p - 1], r),
        forall|k: int| p <= k < v.len() ==> !no_later(#[trigger] v[k], r),
    ensures
        v.insert(p, r) == placed_in(v, r),
    decreases v.len(),
{
    if v.len() == 0 || no_later(v.last(), r) {
        assert(p == v.len());
        assert(v.insert(p, r) =~= v.push(r));
    } else {
        let u = v.drop_last();
        assert(p < v.len());
        lemma_placed_in(u, r, p);
        assert(v.insert(p, r) =~= u.insert(p, r).push(v.last()));
    }
}

} // verus!
