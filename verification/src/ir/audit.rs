//! Checking an allocation against what it is supposed to guarantee.

use crate::ir::instr::SchedBlock;
use crate::ir::live::{
    at_some, clobber_ok, clobber_points, clobbers_ok, def_upto, destroys, entry_end, is_volatile,
    lists, range_ok, ranges, spans, spans_call, Clobber, Item, Range,
};
use crate::ir::regalloc::{
    alloc_ok, belongs, clash, covers, kept_whole, lemma_same_extent, Alloc, Loc, Segment,
};
use crate::ir::value::Reg;
use crate::ir::walk::lemma_push_contains;
use vstd::prelude::*;

verus! {

/// A violated allocation invariant.
#[derive(Debug)]
pub enum AllocError {
    /// Two ranges that are live at the same time were given one register.
    Conflict { reg: Reg, a: Item, b: Item },
    /// A range live across a call was placed in a register the call destroys.
    VolatileAcrossCall { reg: Reg, item: Item },
    /// A live range received no location at all.
    Unplaced { item: Item },
    /// The boundary move sequence does not realize the block's exit assignment.
    Reconcile { detail: String },
}

/// Whether some part of an item's life has no location.
pub open spec fn left_out(b: SchedBlock, segs: Seq<Segment>, item: Item) -> bool {
    exists|r: Range, pos: int|
        range_ok(b, r) && r.item == item && r.def <= pos < r.last_use && !#[trigger] covers(segs, r, pos)
}

/// Whether an item sits in a register while something destroys the register.
pub open spec fn lost(b: SchedBlock, segs: Seq<Segment>, reg: Reg, item: Item) -> bool {
    exists|k: int|
        0 <= k < segs.len() && (#[trigger] segs[k]).loc == Loc::Reg(reg) && segs[k].item == item
            && !kept_whole(b.instrs@, segs[k])
}

/// Whether the item of the earlier of two segments in one register is still needed when the
/// other's starts.
pub open spec fn shared(segs: Seq<Segment>, reg: Reg, a: Item, b: Item) -> bool {
    exists|j: int, k: int|
        0 <= j < segs.len() && 0 <= k < segs.len() && j != k && #[trigger] clash(segs, j, k)
            && segs[j].loc == Loc::Reg(reg) && segs[j].item == a && segs[k].item == b
}

/// Whether segments of the range cover it, position by position.
fn covered(a: &Alloc, r: &Range) -> (c: bool)
    ensures
        c <==> forall|pos: int|
            r.def <= pos < r.last_use ==> #[trigger] covers(a.segments@, *r, pos),
{
    let mut upto: usize = r.def;
    while upto < r.last_use
        invariant
            r.def <= upto || r.last_use <= upto,
            forall|pos: int| r.def <= pos < upto && pos < r.last_use ==> #[trigger] covers(a.segments@, *r, pos),
        decreases usize::MAX - upto,
    {
        let mut next: Option<usize> = None;
        let mut k: usize = 0;
        while k < a.segments.len() && next.is_none()
            invariant
                k <= a.segments@.len(),
                next is None ==> forall|j: int|
                    0 <= j < k ==> !(belongs((#[trigger] a.segments@[j]).item, *r)
                        && a.segments@[j].start <= upto < a.segments@[j].end),
                next matches Some(e) ==> e > upto && exists|j: int|
                    0 <= j < a.segments@.len() && belongs((#[trigger] a.segments@[j]).item, *r)
                        && a.segments@[j].start <= upto && a.segments@[j].end == e,
            decreases a.segments@.len() - k,
        {
            let s = a.segments[k];
            let ours = s.item == r.item || match r.fixed {
                Some(g) => s.item == Item::Saved(g),
                None => false,
            };
            if ours && s.start <= upto && upto < s.end {
                proof {
                    assert(belongs(a.segments@[k as int].item, *r));
                }
                next = Some(s.end);
            }
            k = k + 1;
        }
        match next {
            Some(e) => {
                proof {
                    let j = choose|j: int|
                        0 <= j < a.segments@.len() && belongs((#[trigger] a.segments@[j]).item, *r)
                            && a.segments@[j].start <= upto && a.segments@[j].end == e;
                    assert forall|pos: int|
                        r.def <= pos < e && pos < r.last_use implies #[trigger] covers(
                        a.segments@,
                        *r,
                        pos,
                    ) by {
                        if pos >= upto {
                            assert(belongs(a.segments@[j].item, *r));
                        }
                    }
                }
                upto = e;
            },
            None => {
                proof {
                    assert(!covers(a.segments@, *r, upto as int));
                }
                return false;
            },
        }
    }
    true
}

/// Whether nothing in the span of a segment destroys the register it sits in.
fn whole(b: &SchedBlock, cs: &Vec<Clobber>, s: &Segment, reg: Reg) -> (w: bool)
    requires
        clobbers_ok(b.instrs@, cs@),
        s.loc == Loc::Reg(reg),
    ensures
        w == kept_whole(b.instrs@, *s),
{
    let ghost ins = b.instrs@;
    let mut k: usize = 0;
    while k < cs.len()
        invariant
            k <= cs@.len(),
            ins == b.instrs@,
            clobbers_ok(ins, cs@),
            s.loc == Loc::Reg(reg),
            forall|j: int|
                0 <= j < k ==> !(spans(s.start as int, s.end as int, (#[trigger] cs@[j]).at as int)
                    && cs@[j].kills(reg)),
        decreases cs@.len() - k,
    {
        let c = cs[k];
        let n: usize = b.instrs.len();
        proof {
            assert(clobber_ok(ins, cs@[k as int]));
        }
        let kills = match c.regs {
            None => is_volatile(reg),
            Some(set) => set.contains(reg),
        };
        if kills && spans_call(s.start, s.end, c.at) {
            proof {
                assert(c.kills(reg));
                assert(destroys(ins[c.at as int], reg));
            }
            return false;
        }
        k = k + 1;
    }
    proof {
        assert forall|c: int|
            0 <= c < ins.len() && spans(s.start as int, s.end as int, c) implies !destroys(
            #[trigger] ins[c],
            reg,
        ) by {
            if destroys(ins[c], reg) {
                assert(at_some(cs@, c));
                let j = choose|j: int| 0 <= j < cs@.len() && (#[trigger] cs@[j]).at == c;
                assert(clobber_ok(ins, cs@[j]));
                assert(cs@[j].kills(reg));
            }
        }
    }
    true
}

fn clashes(segs: &Vec<Segment>, j: usize, k: usize) -> (c: bool)
    requires
        j < segs@.len(),
        k < segs@.len(),
    ensures
        c == clash(segs@, j as int, k as int),
{
    let x = segs[j];
    let y = segs[k];
    let reg = match x.loc {
        Loc::Reg(_) => true,
        Loc::Spill(_) => false,
    };
    reg && x.loc == y.loc && x.item != y.item && (x.start < y.start || (x.start == y.start && j < k))
        && x.end > y.start && x.end - y.start != 1
}

/// The live ranges without a location.
fn unplaced(b: &SchedBlock, a: &Alloc) -> (errs: Vec<AllocError>)
    requires
        b.instrs@.len() < usize::MAX,
    ensures
        forall|e: AllocError| #[trigger]
            errs@.contains(e) <==> (e matches AllocError::Unplaced { item } && left_out(
                *b,
                a.segments@,
                item,
            )),
{
    let segs = Ghost(a.segments@);
    let rs = ranges(b);
    let mut errs: Vec<AllocError> = Vec::new();
    let mut k: usize = 0;
    while k < rs.len()
        invariant
            k <= rs@.len(),
            segs@ == a.segments@,
            forall|j: int| 0 <= j < rs@.len() ==> range_ok(*b, #[trigger] rs@[j]),
            forall|e: AllocError| #[trigger]
                errs@.contains(e) <==> (e matches AllocError::Unplaced { item } && out_before(
                    segs@,
                    rs@,
                    k as int,
                    item,
                )),
        decreases rs@.len() - k,
    {
        let r = rs[k];
        let ghost e0 = errs@;
        if !covered(a, &r) {
            errs.push(AllocError::Unplaced { item: r.item });
            proof {
                lemma_push_contains(e0, AllocError::Unplaced { item: r.item });
            }
        }
        proof {
            assert forall|e: AllocError| #[trigger] errs@.contains(e) <==> (
            e matches AllocError::Unplaced { item } && out_before(segs@, rs@, k + 1, item)) by {
                assert(e0.contains(e) <==> (e matches AllocError::Unplaced { item } && out_before(
                    segs@,
                    rs@,
                    k as int,
                    item,
                )));
                if let AllocError::Unplaced { item } = e {
                    lemma_out_before(segs@, rs@, k as int, item);
                }
            }
        }
        k = k + 1;
    }
    proof {
        assert forall|item: Item| #[trigger]
            out_before(segs@, rs@, rs@.len() as int, item) <==> left_out(*b, segs@, item) by {
            lemma_left_out(*b, segs@, rs@, item);
        }
        assert forall|e: AllocError| #[trigger] errs@.contains(e) <==> (
        e matches AllocError::Unplaced { item } && left_out(*b, a.segments@, item)) by {
            if let AllocError::Unplaced { item } = e {
                assert(out_before(segs@, rs@, rs@.len() as int, item) <==> left_out(*b, segs@, item));
            }
        }
    }
    errs
}

spec fn uncovered(segs: Seq<Segment>, r: Range) -> bool {
    exists|pos: int| r.def <= pos < r.last_use && !#[trigger] covers(segs, r, pos)
}

spec fn out_before(segs: Seq<Segment>, rs: Seq<Range>, k: int, item: Item) -> bool {
    exists|j: int| 0 <= j < k && (#[trigger] rs[j]).item == item && uncovered(segs, rs[j])
}

proof fn lemma_out_before(segs: Seq<Segment>, rs: Seq<Range>, k: int, item: Item)
    requires
        0 <= k < rs.len(),
    ensures
        out_before(segs, rs, k + 1, item) <==> out_before(segs, rs, k, item) || (rs[k].item == item
            && uncovered(segs, rs[k])),
{
    if out_before(segs, rs, k, item) {
        let j = choose|j: int| 0 <= j < k && (#[trigger] rs[j]).item == item && uncovered(segs, rs[j]);
        assert(rs[j].item == item);
    }
}

proof fn lemma_left_out(b: SchedBlock, segs: Seq<Segment>, rs: Seq<Range>, item: Item)
    requires
        forall|k: int| 0 <= k < rs.len() ==> range_ok(b, #[trigger] rs[k]),
        forall|v: crate::ir::instr::ValId| #[trigger]
            def_upto(b.instrs@, v, b.instrs@.len() as int) is Some ==> lists(rs, Item::Val(v)),
        forall|r: Reg| #[trigger] entry_end(b, r) is Some ==> lists(rs, Item::Entry(r)),
    ensures
        out_before(segs, rs, rs.len() as int, item) <==> left_out(b, segs, item),
{
    if out_before(segs, rs, rs.len() as int, item) {
        let j = choose|j: int|
            0 <= j < rs.len() && (#[trigger] rs[j]).item == item && uncovered(segs, rs[j]);
        let pos = choose|pos: int|
            rs[j].def <= pos < rs[j].last_use && !#[trigger] covers(segs, rs[j], pos);
        assert(range_ok(b, rs[j]) && !covers(segs, rs[j], pos));
    }
    if left_out(b, segs, item) {
        let (r, pos) = choose|r: Range, pos: int|
            range_ok(b, r) && r.item == item && r.def <= pos < r.last_use && !#[trigger] covers(
                segs,
                r,
                pos,
            );
        let i = match item {
            Item::Val(v) => {
                assert(lists(rs, Item::Val(v)));
                choose|k: int| 0 <= k < rs.len() && (#[trigger] rs[k]).item == item
            },
            Item::Entry(g) => {
                assert(entry_end(b, g) is Some);
                assert(lists(rs, Item::Entry(g)));
                choose|k: int| 0 <= k < rs.len() && (#[trigger] rs[k]).item == item
            },
            Item::Saved(_) => 0,
        };
        assert(rs[i].item == item);
        assert(range_ok(b, rs[i]));
        lemma_same_extent(b, rs[i], r);
        assert(!covers(segs, rs[i], pos)) by {
            if covers(segs, rs[i], pos) {
                let k = choose|k: int|
                    0 <= k < segs.len() && belongs((#[trigger] segs[k]).item, rs[i]) && segs[k].start
                        <= pos < segs[k].end;
                assert(belongs(segs[k].item, r));
                assert(covers(segs, r, pos));
            }
        }
        assert(uncovered(segs, rs[i]));
    }
}

/// The segments in a register that something destroys.
fn destroyed(b: &SchedBlock, a: &Alloc) -> (errs: Vec<AllocError>)
    ensures
        forall|e: AllocError| #[trigger]
            errs@.contains(e) <==> (e matches AllocError::VolatileAcrossCall { reg, item } && lost(
                *b,
                a.segments@,
                reg,
                item,
            )),
{
    let cs = clobber_points(b);
    let mut errs: Vec<AllocError> = Vec::new();
    let mut k: usize = 0;
    while k < a.segments.len()
        invariant
            k <= a.segments@.len(),
            clobbers_ok(b.instrs@, cs@),
            forall|e: AllocError| #[trigger]
                errs@.contains(e) <==> (e matches AllocError::VolatileAcrossCall { reg, item } && lost(
                    *b,
                    a.segments@.take(k as int),
                    reg,
                    item,
                )),
        decreases a.segments@.len() - k,
    {
        let s = a.segments[k];
        let ghost e0 = errs@;
        if let Loc::Reg(reg) = s.loc {
            if !whole(b, &cs, &s, reg) {
                errs.push(AllocError::VolatileAcrossCall { reg, item: s.item });
                proof {
                    lemma_push_contains(e0, AllocError::VolatileAcrossCall { reg, item: s.item });
                }
            }
        }
        proof {
            let pre = a.segments@.take(k as int);
            let post = a.segments@.take(k + 1);
            assert forall|e: AllocError| #[trigger] errs@.contains(e) <==> (
            e matches AllocError::VolatileAcrossCall { reg, item } && lost(*b, post, reg, item)) by {
                assert(e0.contains(e) <==> (e matches AllocError::VolatileAcrossCall { reg, item }
                    && lost(*b, pre, reg, item)));
                if let AllocError::VolatileAcrossCall { reg, item } = e {
                    let here = s.loc == Loc::Reg(reg) && s.item == item && !kept_whole(b.instrs@, s);
                    assert(lost(*b, post, reg, item) <==> lost(*b, pre, reg, item) || here) by {
                        if lost(*b, pre, reg, item) {
                            let j = choose|j: int|
                                0 <= j < pre.len() && (#[trigger] pre[j]).loc == Loc::Reg(reg)
                                    && pre[j].item == item && !kept_whole(b.instrs@, pre[j]);
                            assert(post[j] == pre[j]);
                        }
                        if lost(*b, post, reg, item) {
                            let j = choose|j: int|
                                0 <= j < post.len() && (#[trigger] post[j]).loc == Loc::Reg(reg)
                                    && post[j].item == item && !kept_whole(b.instrs@, post[j]);
                            if j < k {
                                assert(pre[j] == post[j]);
                            }
                        }
                        assert(post[k as int] == s);
                    }
                }
            }
        }
        k = k + 1;
    }
    proof {
        assert(a.segments@.take(a.segments@.len() as int) =~= a.segments@);
    }
    errs
}

spec fn shared_before(segs: Seq<Segment>, j: int, k: int, reg: Reg, a: Item, b: Item) -> bool {
    exists|x: int, y: int|
        0 <= x < segs.len() && 0 <= y < segs.len() && x != y && (x < j || (x == j && y < k))
            && #[trigger] clash(segs, x, y) && segs[x].loc == Loc::Reg(reg) && segs[x].item == a
            && segs[y].item == b
}

/// The pairs of values that share a register while both are needed.
fn conflicts(a: &Alloc) -> (errs: Vec<AllocError>)
    ensures
        forall|e: AllocError| #[trigger]
            errs@.contains(e) <==> (e matches AllocError::Conflict { reg, a: x, b: y } && shared(
                a.segments@,
                reg,
                x,
                y,
            )),
{
    let n: usize = a.segments.len();
    let ghost segs = a.segments@;
    let mut errs: Vec<AllocError> = Vec::new();
    let mut j: usize = 0;
    while j < n
        invariant
            j <= n,
            n == a.segments@.len(),
            segs == a.segments@,
            forall|e: AllocError| #[trigger]
                errs@.contains(e) <==> (e matches AllocError::Conflict { reg, a: x, b: y }
                    && shared_before(segs, j as int, 0, reg, x, y)),
        decreases n - j,
    {
        let mut k: usize = 0;
        while k < n
            invariant
                j < n,
                k <= n,
                n == a.segments@.len(),
                segs == a.segments@,
                forall|e: AllocError| #[trigger]
                    errs@.contains(e) <==> (e matches AllocError::Conflict { reg, a: x, b: y }
                        && shared_before(segs, j as int, k as int, reg, x, y)),
            decreases n - k,
        {
            let ghost e0 = errs@;
            if j != k && clashes(&a.segments, j, k) {
                if let Loc::Reg(reg) = a.segments[j].loc {
                    let x = a.segments[j].item;
                    let y = a.segments[k].item;
                    errs.push(AllocError::Conflict { reg, a: x, b: y });
                    proof {
                        lemma_push_contains(e0, AllocError::Conflict { reg, a: x, b: y });
                    }
                }
            }
            proof {
                assert forall|e: AllocError| #[trigger] errs@.contains(e) <==> (
                e matches AllocError::Conflict { reg, a: x, b: y } && shared_before(
                    segs,
                    j as int,
                    k + 1,
                    reg,
                    x,
                    y,
                )) by {
                    assert(e0.contains(e) <==> (e matches AllocError::Conflict { reg, a: x, b: y }
                        && shared_before(segs, j as int, k as int, reg, x, y)));
                    if let AllocError::Conflict { reg, a: x, b: y } = e {
                        lemma_shared_step(segs, j as int, k as int, reg, x, y);
                    }
                }
            }
            k = k + 1;
        }
        proof {
            assert forall|reg: Reg, x: Item, y: Item| #[trigger]
                shared_before(segs, j + 1, 0, reg, x, y) <==> shared_before(
                    segs,
                    j as int,
                    n as int,
                    reg,
                    x,
                    y,
                ) by {
                lemma_shared_row(segs, j as int, reg, x, y);
            }
        }
        j = j + 1;
    }
    proof {
        assert forall|reg: Reg, x: Item, y: Item| #[trigger]
            shared_before(segs, n as int, 0, reg, x, y) <==> shared(segs, reg, x, y) by {
            if shared_before(segs, n as int, 0, reg, x, y) {
                let (p, q) = choose|p: int, q: int|
                    0 <= p < segs.len() && 0 <= q < segs.len() && p != q && (p < n || (p == n && q < 0))
                        && #[trigger] clash(segs, p, q) && segs[p].loc == Loc::Reg(reg)
                        && segs[p].item == x && segs[q].item == y;
                assert(clash(segs, p, q));
            }
            if shared(segs, reg, x, y) {
                let (p, q) = choose|p: int, q: int|
                    0 <= p < segs.len() && 0 <= q < segs.len() && p != q && #[trigger] clash(
                        segs,
                        p,
                        q,
                    ) && segs[p].loc == Loc::Reg(reg) && segs[p].item == x && segs[q].item == y;
                assert(clash(segs, p, q));
            }
        }
        assert forall|e: AllocError| #[trigger] errs@.contains(e) <==> (
        e matches AllocError::Conflict { reg, a: x, b: y } && shared(a.segments@, reg, x, y)) by {
            if let AllocError::Conflict { reg, a: x, b: y } = e {
                assert(shared_before(segs, n as int, 0, reg, x, y) <==> shared(segs, reg, x, y));
            }
        }
    }
    errs
}

proof fn lemma_shared_step(segs: Seq<Segment>, j: int, k: int, reg: Reg, a: Item, b: Item)
    requires
        0 <= j < segs.len(),
        0 <= k < segs.len(),
    ensures
        shared_before(segs, j, k + 1, reg, a, b) <==> shared_before(segs, j, k, reg, a, b) || (j != k
            && clash(segs, j, k) && segs[j].loc == Loc::Reg(reg) && segs[j].item == a && segs[k].item
            == b),
{
    if shared_before(segs, j, k, reg, a, b) {
        let (p, q) = choose|p: int, q: int|
            0 <= p < segs.len() && 0 <= q < segs.len() && p != q && (p < j || (p == j && q < k))
                && #[trigger] clash(segs, p, q) && segs[p].loc == Loc::Reg(reg) && segs[p].item == a
                && segs[q].item == b;
        assert(clash(segs, p, q));
    }
    if shared_before(segs, j, k + 1, reg, a, b) {
        let (p, q) = choose|p: int, q: int|
            0 <= p < segs.len() && 0 <= q < segs.len() && p != q && (p < j || (p == j && q < k + 1))
                && #[trigger] clash(segs, p, q) && segs[p].loc == Loc::Reg(reg) && segs[p].item == a
                && segs[q].item == b;
        assert(clash(segs, p, q));
    }
}

proof fn lemma_shared_row(segs: Seq<Segment>, j: int, reg: Reg, a: Item, b: Item)
    requires
        0 <= j < segs.len(),
    ensures
        shared_before(segs, j + 1, 0, reg, a, b) <==> shared_before(
            segs,
            j,
            segs.len() as int,
            reg,
            a,
            b,
        ),
{
    let n = segs.len() as int;
    if shared_before(segs, j, n, reg, a, b) {
        let (p, q) = choose|p: int, q: int|
            0 <= p < segs.len() && 0 <= q < segs.len() && p != q && (p < j || (p == j && q < n))
                && #[trigger] clash(segs, p, q) && segs[p].loc == Loc::Reg(reg) && segs[p].item == a
                && segs[q].item == b;
        assert(clash(segs, p, q));
    }
    if shared_before(segs, j + 1, 0, reg, a, b) {
        let (p, q) = choose|p: int, q: int|
            0 <= p < segs.len() && 0 <= q < segs.len() && p != q && (p < j + 1 || (p == j + 1 && q < 0))
                && #[trigger] clash(segs, p, q) && segs[p].loc == Loc::Reg(reg) && segs[p].item == a
                && segs[q].item == b;
        assert(clash(segs, p, q));
    }
}

/// Check an allocation against the invariants it is supposed to guarantee.
pub fn verify(b: &SchedBlock, a: &Alloc) -> (errs: Vec<AllocError>)
    requires
        b.instrs@.len() < usize::MAX,
    ensures
        forall|e: AllocError| #[trigger]
            errs@.contains(e) <==> match e {
                AllocError::Unplaced { item } => left_out(*b, a.segments@, item),
                AllocError::VolatileAcrossCall { reg, item } => lost(*b, a.segments@, reg, item),
                AllocError::Conflict { reg, a: x, b: y } => shared(a.segments@, reg, x, y),
                AllocError::Reconcile { .. } => false,
            },
        errs@.len() == 0 <==> alloc_ok(*b, a.segments@),
{
    let mut errs = unplaced(b, a);
    let mut lost_ones = destroyed(b, a);
    let mut pairs = conflicts(a);
    let ghost e1 = errs@;
    let ghost e2 = lost_ones@;
    let ghost e3 = pairs@;
    errs.append(&mut lost_ones);
    errs.append(&mut pairs);
    proof {
        let segs = a.segments@;
        assert(errs@ =~= e1 + e2 + e3);
        assert forall|e: AllocError| #[trigger] errs@.contains(e) <==> e1.contains(e) || e2.contains(e)
            || e3.contains(e) by {
            if e1.contains(e) {
                let i = choose|i: int| 0 <= i < e1.len() && e1[i] == e;
                assert(errs@[i] == e);
            }
            if e2.contains(e) {
                let i = choose|i: int| 0 <= i < e2.len() && e2[i] == e;
                assert(errs@[e1.len() + i] == e);
            }
            if e3.contains(e) {
                let i = choose|i: int| 0 <= i < e3.len() && e3[i] == e;
                assert(errs@[e1.len() + e2.len() + i] == e);
            }
            if errs@.contains(e) {
                let i = choose|i: int| 0 <= i < errs@.len() && errs@[i] == e;
                if i < e1.len() {
                    assert(e1[i] == e);
                } else if i < e1.len() + e2.len() {
                    assert(e2[i - e1.len()] == e);
                } else {
                    assert(e3[i - e1.len() - e2.len()] == e);
                }
            }
        }
        if errs@.len() == 0 {
            assert forall|r: Range, pos: int|
                range_ok(*b, r) && r.def <= pos < r.last_use implies #[trigger] covers(segs, r, pos) by {
                if !covers(segs, r, pos) {
                    assert(left_out(*b, segs, r.item));
                    assert(e1.contains(AllocError::Unplaced { item: r.item }));
                    assert(errs@.contains(AllocError::Unplaced { item: r.item }));
                }
            }
            assert forall|k: int| 0 <= k < segs.len() implies kept_whole(b.instrs@, #[trigger] segs[k]) by {
                if !kept_whole(b.instrs@, segs[k]) {
                    let reg = segs[k].loc->Reg_0;
                    let e = AllocError::VolatileAcrossCall { reg, item: segs[k].item };
                    assert(lost(*b, segs, reg, segs[k].item));
                    assert(e2.contains(e));
                    assert(errs@.contains(e));
                }
            }
            assert forall|j: int, k: int|
                0 <= j < segs.len() && 0 <= k < segs.len() && j != k implies !#[trigger] clash(
                segs,
                j,
                k,
            ) by {
                if clash(segs, j, k) {
                    let reg = segs[j].loc->Reg_0;
                    let e = AllocError::Conflict { reg, a: segs[j].item, b: segs[k].item };
                    assert(shared(segs, reg, segs[j].item, segs[k].item));
                    assert(e3.contains(e));
                    assert(errs@.contains(e));
                }
            }
        }
        if alloc_ok(*b, segs) && errs@.len() > 0 {
            let e = errs@[0];
            assert(errs@.contains(e));
        }
    }
    errs
}

} // verus!
