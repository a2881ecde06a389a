//! Block boundary moves: a parallel assignment as a sequence.

use crate::ir::instr::{Operand, SchedBlock};
use crate::ir::live::Item;
use crate::ir::regalloc::{found_at, Alloc, Loc, Segment};
use crate::ir::text::{decimal_text, hex_text, push_decimal, push_hex};
use crate::ir::value::Reg;
use vstd::prelude::*;
use vstd::string::StringExecFns;

verus! {

/// A move the emitter must make at a block boundary.
#[derive(Debug, Clone, Copy, PartialEq, Eq, Structural)]
pub enum Move {
    /// `dst <- src`, a register copy or a reload from a spill slot.
    Assign { dst: Reg, src: Loc },
    /// `dst <- imm`.
    Imm { dst: Reg, value: u64 },
    /// `dst <- rsp + offset`, materializing a stack address.
    Frame { dst: Reg, offset: i64 },
    /// Exchange two registers, to break a cycle.
    Swap { a: Reg, b: Reg },
}

/// Where a boundary move reads from.
#[derive(Debug, Clone, Copy, PartialEq, Eq, Structural)]
pub enum Src {
    At(Loc),
    Imm(u64),
    /// A stack address, materialized with a `lea` from RSP.
    Frame(i64),
}

/// What the moves can read besides registers: spill slots, and the address a frame offset
/// stands for.
pub ghost struct Frame {
    pub spill: spec_fn(u32) -> u64,
    pub address: spec_fn(i64) -> u64,
}

/// The value a source has.
pub open spec fn value_of(s: Src, f: Frame, regs: spec_fn(Reg) -> u64) -> u64 {
    match s {
        Src::At(Loc::Reg(r)) => regs(r),
        Src::At(Loc::Spill(n)) => (f.spill)(n),
        Src::Imm(v) => v,
        Src::Frame(o) => (f.address)(o),
    }
}

/// Registers with one of them set.
pub open spec fn with(regs: spec_fn(Reg) -> u64, dst: Reg, v: u64) -> spec_fn(Reg) -> u64 {
    |r: Reg|
        if r == dst {
            v
        } else {
            regs(r)
        }
}

/// The registers after a move.
pub open spec fn moved(m: Move, f: Frame, regs: spec_fn(Reg) -> u64) -> spec_fn(Reg) -> u64 {
    match m {
        Move::Assign { dst, src } => with(regs, dst, value_of(Src::At(src), f, regs)),
        Move::Imm { dst, value } => with(regs, dst, value),
        Move::Frame { dst, offset } => with(regs, dst, (f.address)(offset)),
        Move::Swap { a, b } => with(with(regs, a, regs(b)), b, regs(a)),
    }
}

/// The registers after a sequence of moves.
pub open spec fn run(ms: Seq<Move>, f: Frame, regs: spec_fn(Reg) -> u64) -> spec_fn(Reg) -> u64
    decreases ms.len(),
{
    if ms.len() == 0 {
        regs
    } else {
        moved(ms.last(), f, run(ms.drop_last(), f, regs))
    }
}

/// Where an exit operand's value is at the end of the block. A value without a location
/// has none. An entry value may have been moved out of its register to survive a call.
pub open spec fn source(segs: Seq<Segment>, end: int, o: Operand) -> Option<Src> {
    match o {
        Operand::Imm(v) => Some(Src::Imm(v)),
        Operand::Frame(x) => Some(Src::Frame(x)),
        Operand::OutArg(_) => None,
        Operand::Val(v) => match found_at(segs, Item::Val(v), end) {
            Some(l) => Some(Src::At(l)),
            None => None,
        },
        Operand::Entry(r) => Some(Src::At(entry_loc(segs, end, r))),
        Operand::Param(r) => Some(Src::At(entry_loc(segs, end, r))),
    }
}

/// Where a register's entry value is at the end of the block.
pub open spec fn entry_loc(segs: Seq<Segment>, end: int, r: Reg) -> Loc {
    match found_at(segs, Item::Saved(r), end) {
        Some(l) => l,
        None => match found_at(segs, Item::Entry(r), end) {
            Some(l) => l,
            None => Loc::Reg(r),
        },
    }
}

/// The value every register must end with: its exit source's, or what it held.
pub open spec fn target(
    exits: Seq<(Reg, Operand)>,
    segs: Seq<Segment>,
    end: int,
    f: Frame,
    regs: spec_fn(Reg) -> u64,
    r: Reg,
) -> u64
    decreases exits.len(),
{
    if exits.len() == 0 {
        regs(r)
    } else if exits.last().0 == r && source(segs, end, exits.last().1) is Some {
        value_of(source(segs, end, exits.last().1)->0, f, regs)
    } else {
        target(exits.drop_last(), segs, end, f, regs, r)
    }
}

/// No register is assigned twice.
pub open spec fn assigned_once(exits: Seq<(Reg, Operand)>) -> bool {
    forall|i: int, j: int| 0 <= i < j < exits.len() ==> (#[trigger] exits[i]).0 != (#[trigger] exits[j]).0
}

fn source_of(a: &Alloc, end: usize, o: Operand) -> (s: Option<Src>)
    ensures
        s == source(a.segments@, end as int, o),
{
    match o {
        Operand::Imm(v) => Some(Src::Imm(v)),
        Operand::Frame(x) => Some(Src::Frame(x)),
        Operand::OutArg(_) => None,
        Operand::Val(v) => match a.loc_at(Item::Val(v), end) {
            Some(l) => Some(Src::At(l)),
            None => None,
        },
        Operand::Entry(r) => Some(Src::At(entry_loc_of(a, end, r))),
        Operand::Param(r) => Some(Src::At(entry_loc_of(a, end, r))),
    }
}

fn entry_loc_of(a: &Alloc, end: usize, r: Reg) -> (l: Loc)
    ensures
        l == entry_loc(a.segments@, end as int, r),
{
    match a.loc_at(Item::Saved(r), end) {
        Some(l) => l,
        None => match a.loc_at(Item::Entry(r), end) {
            Some(l) => l,
            None => Loc::Reg(r),
        },
    }
}

/// Whether some move still to be made writes the register.
spec fn pending_for(pending: Seq<(Reg, Src)>, r: Reg) -> bool {
    exists|i: int| 0 <= i < pending.len() && (#[trigger] pending[i]).0 == r
}

/// What holds between two moves: registers no move is left for have their final value, and
/// every move left reads its final value where it says.
spec fn on_the_way(
    pending: Seq<(Reg, Src)>,
    f: Frame,
    now: spec_fn(Reg) -> u64,
    goal: spec_fn(Reg) -> u64,
) -> bool {
    &&& forall|r: Reg| !#[trigger] pending_for(pending, r) ==> now(r) == goal(r)
    &&& forall|i: int|
        0 <= i < pending.len() ==> value_of((#[trigger] pending[i]).1, f, now) == goal(pending[i].0)
}

spec fn once(pending: Seq<(Reg, Src)>) -> bool {
    forall|i: int, j: int|
        0 <= i < j < pending.len() ==> (#[trigger] pending[i]).0 != (#[trigger] pending[j]).0
}

/// The registers an exit list asks for.
spec fn goal_of(exits: Seq<(Reg, Operand)>, segs: Seq<Segment>, end: int, f: Frame, regs: spec_fn(Reg) -> u64) -> spec_fn(
    Reg,
) -> u64 {
    |r: Reg| target(exits, segs, end, f, regs, r)
}

/// The assignments the block boundary has to make, without those already satisfied.
fn assignments(b: &SchedBlock, a: &Alloc) -> (pending: Vec<(Reg, Src)>)
    requires
        assigned_once(b.exits@),
    ensures
        once(pending@),
        pending@ == wanted(b.exits@, a.segments@, b.instrs@.len() as int),
        forall|f: Frame, regs: spec_fn(Reg) -> u64| #[trigger]
            on_the_way(
                pending@,
                f,
                regs,
                goal_of(b.exits@, a.segments@, b.instrs@.len() as int, f, regs),
            ),
{
    let end: usize = b.instrs.len();
    let ghost segs = a.segments@;
    let mut pending: Vec<(Reg, Src)> = Vec::new();
    let mut i: usize = 0;
    while i < b.exits.len()
        invariant
            i <= b.exits@.len(),
            end == b.instrs@.len(),
            segs == a.segments@,
            assigned_once(b.exits@),
            once(pending@),
            pending@ == wanted(b.exits@.take(i as int), segs, end as int),
            forall|k: int|
                0 <= k < pending@.len() ==> exists|j: int|
                    0 <= j < i && (#[trigger] b.exits@[j]).0 == (#[trigger] pending@[k]).0,
            forall|f: Frame, regs: spec_fn(Reg) -> u64| #[trigger]
                on_the_way(pending@, f, regs, goal_of(b.exits@.take(i as int), segs, end as int, f, regs)),
        decreases b.exits@.len() - i,
    {
        let (reg, op) = b.exits[i];
        let ghost p0 = pending@;
        let src = source_of(a, end, op);
        if let Some(s) = src {
            if s != Src::At(Loc::Reg(reg)) {
                pending.push((reg, s));
            }
        }
        proof {
            assert forall|k: int| 0 <= k < p0.len() implies (#[trigger] p0[k]).0 != reg by {
                let j = choose|j: int| 0 <= j < i && (#[trigger] b.exits@[j]).0 == p0[k].0;
                assert(b.exits@[j].0 != b.exits@[i as int].0);
            }
            assert forall|k: int| 0 <= k < pending@.len() implies exists|j: int|
                0 <= j < i + 1 && (#[trigger] b.exits@[j]).0 == (#[trigger] pending@[k]).0 by {
                if k < p0.len() {
                    assert(pending@[k] == p0[k]);
                    let j = choose|j: int| 0 <= j < i && (#[trigger] b.exits@[j]).0 == p0[k].0;
                    assert(b.exits@[j].0 == pending@[k].0);
                } else {
                    assert(b.exits@[i as int].0 == pending@[k].0);
                }
            }
            assert forall|x: int, y: int| 0 <= x < y < pending@.len() implies (#[trigger] pending@[x]).0 != (
            #[trigger] pending@[y]).0 by {
                assert(pending@[x] == p0[x]);
                if y < p0.len() {
                    assert(pending@[y] == p0[y]);
                }
            }
            let pre = b.exits@.take(i as int);
            let post = b.exits@.take(i + 1);
            assert(post.drop_last() =~= pre);
            assert(post.last() == (reg, op));
            assert forall|f: Frame, regs: spec_fn(Reg) -> u64| #[trigger]
                on_the_way(pending@, f, regs, goal_of(post, segs, end as int, f, regs)) by {
                let g0 = goal_of(pre, segs, end as int, f, regs);
                let g1 = goal_of(post, segs, end as int, f, regs);
                assert(on_the_way(p0, f, regs, g0));
                assert forall|r: Reg| r != reg implies #[trigger] g1(r) == g0(r) by {}
                assert(!pending_for(p0, reg)) by {
                    if pending_for(p0, reg) {
                        let k = choose|k: int| 0 <= k < p0.len() && (#[trigger] p0[k]).0 == reg;
                    }
                }
                assert(src matches Some(s) ==> g1(reg) == value_of(s, f, regs));
                assert(src is None ==> g1(reg) == g0(reg));
                assert forall|r: Reg| !#[trigger] pending_for(pending@, r) implies regs(r) == g1(r) by {
                    if pending_for(p0, r) {
                        let k = choose|k: int| 0 <= k < p0.len() && (#[trigger] p0[k]).0 == r;
                        assert(pending@[k].0 == r);
                    }
                    if r == reg && pending@.len() > p0.len() {
                        assert(pending@[p0.len() as int].0 == r);
                    }
                }
                assert forall|k: int| 0 <= k < pending@.len() implies value_of(
                    (#[trigger] pending@[k]).1,
                    f,
                    regs,
                ) == g1(pending@[k].0) by {
                    if k < p0.len() {
                        assert(pending@[k] == p0[k]);
                        assert(p0[k].0 != reg);
                    }
                }
            }
        }
        i = i + 1;
    }
    proof {
        assert(b.exits@.take(b.exits@.len() as int) =~= b.exits@);
    }
    pending
}

/// The assignments an exit list asks for, without those already satisfied.
pub open spec fn wanted(exits: Seq<(Reg, Operand)>, segs: Seq<Segment>, end: int) -> Seq<(Reg, Src)>
    decreases exits.len(),
{
    if exits.len() == 0 {
        Seq::empty()
    } else {
        let before = wanted(exits.drop_last(), segs, end);
        let (r, o) = exits.last();
        match source(segs, end, o) {
            Some(s) => if s == Src::At(Loc::Reg(r)) {
                before
            } else {
                before.push((r, s))
            },
            None => before,
        }
    }
}

/// The first assignment from `i` on whose register no other one reads, or past the last.
pub open spec fn first_free(pending: Seq<(Reg, Src)>, i: int) -> int
    decreases pending.len() - i,
{
    if i >= pending.len() {
        pending.len() as int
    } else if read_by_other(pending, i) {
        first_free(pending, i + 1)
    } else {
        i
    }
}

/// The assignments among the first `k` that are left once the first one is made by exchanging
/// two registers: redirected, without those now satisfied.
pub open spec fn turned(pending: Seq<(Reg, Src)>, dst: Reg, from: Reg, k: int) -> Seq<(Reg, Src)>
    decreases k,
{
    if k <= 1 {
        Seq::empty()
    } else {
        let before = turned(pending, dst, from, k - 1);
        let (d, s) = pending[k - 1];
        let t = redirected(s, dst, from);
        if t == Src::At(Loc::Reg(d)) {
            before
        } else {
            before.push((d, t))
        }
    }
}

/// The single move of an assignment.
pub open spec fn move_of(dst: Reg, src: Src) -> Move {
    match src {
        Src::Imm(value) => Move::Imm { dst, value },
        Src::Frame(offset) => Move::Frame { dst, offset },
        Src::At(l) => Move::Assign { dst, src: l },
    }
}

/// The moves that make assignments, at most `n` of them: one whose register nothing else reads
/// comes first, and where there is none an exchange breaks a cycle.
pub open spec fn sequenced(pending: Seq<(Reg, Src)>, n: nat) -> Seq<Move>
    decreases n,
{
    if n == 0 || pending.len() == 0 {
        Seq::empty()
    } else {
        let left = (n - 1) as nat;
        let i = first_free(pending, 0);
        let (dst, src) = pending[0];
        if i < pending.len() {
            seq![move_of(pending[i].0, pending[i].1)] + sequenced(pending.remove(i), left)
        } else {
            match src {
                Src::At(Loc::Reg(from)) => seq![Move::Swap { a: dst, b: from }] + sequenced(
                    turned(pending, dst, from, pending.len() as int),
                    left,
                ),
                _ => seq![move_of(dst, src)] + sequenced(pending.remove(0), left),
            }
        }
    }
}

proof fn lemma_wanted_len(exits: Seq<(Reg, Operand)>, segs: Seq<Segment>, end: int)
    ensures
        wanted(exits, segs, end).len() <= exits.len(),
    decreases exits.len(),
{
    if exits.len() > 0 {
        lemma_wanted_len(exits.drop_last(), segs, end);
    }
}

/// Two registers that trade values take one exchange and nothing else.
pub proof fn a_trade_is_one_exchange(x: Reg, y: Reg, pending: Seq<(Reg, Src)>)
    requires
        x != y,
        pending == seq![(x, Src::At(Loc::Reg(y))), (y, Src::At(Loc::Reg(x)))],
    ensures
        sequenced(pending, pending.len()) == seq![Move::Swap { a: x, b: y }],
{
    assert(reads_from(pending, 1, 0));
    assert(reads_from(pending, 0, 1));
    reveal_with_fuel(first_free, 3);
    reveal_with_fuel(turned, 3);
    reveal_with_fuel(sequenced, 2);
    assert(turned(pending, x, y, 2) =~= Seq::empty());
    assert(sequenced(pending, 2) =~= seq![Move::Swap { a: x, b: y }]);
}

/// Whether the assignment at `j` reads the register that the one at `i` writes.
pub open spec fn reads_from(pending: Seq<(Reg, Src)>, j: int, i: int) -> bool {
    0 <= j < pending.len() && 0 <= i < pending.len() && j != i && pending[j].1 == Src::At(
        Loc::Reg(pending[i].0),
    )
}

/// Whether another assignment reads the register that the one at `i` writes.
pub open spec fn read_by_other(pending: Seq<(Reg, Src)>, i: int) -> bool {
    exists|j: int| #[trigger] reads_from(pending, j, i)
}

fn is_read(pending: &Vec<(Reg, Src)>, i: usize) -> (r: bool)
    requires
        i < pending@.len(),
        once(pending@),
    ensures
        r == read_by_other(pending@, i as int),
{
    let dst = pending[i].0;
    let mut j: usize = 0;
    while j < pending.len()
        invariant
            j <= pending@.len(),
            i < pending@.len(),
            once(pending@),
            dst == pending@[i as int].0,
            forall|k: int|
                0 <= k < j && k != i ==> (#[trigger] pending@[k]).1 != Src::At(Loc::Reg(dst)),
        decreases pending@.len() - j,
    {
        let (other, src) = pending[j];
        if other != dst && src == Src::At(Loc::Reg(dst)) {
            proof {
                assert(reads_from(pending@, j as int, i as int));
            }
            return true;
        }
        proof {
            if j < i {
                assert(pending@[j as int].0 != pending@[i as int].0);
            } else if i < j {
                assert(pending@[i as int].0 != pending@[j as int].0);
            }
        }
        j = j + 1;
    }
    false
}

fn as_move(dst: Reg, src: Src) -> (m: Move)
    ensures
        m == move_of(dst, src),
        forall|f: Frame, regs: spec_fn(Reg) -> u64| #[trigger]
            moved(m, f, regs) == with(regs, dst, value_of(src, f, regs)),
{
    match src {
        Src::Imm(v) => Move::Imm { dst, value: v },
        Src::Frame(o) => Move::Frame { dst, offset: o },
        Src::At(l) => Move::Assign { dst, src: l },
    }
}

/// Where every destination is read by another assignment, every assignment reads a
/// destination.
proof fn lemma_all_on_cycles(pending: Seq<(Reg, Src)>, j: int)
    requires
        once(pending),
        forall|i: int| 0 <= i < pending.len() ==> #[trigger] read_by_other(pending, i),
        0 <= j < pending.len(),
    ensures
        exists|i: int| #[trigger] reads_from(pending, j, i),
{
    let n = pending.len() as int;
    let reader = |i: int| reader_of(pending, i);
    let all = vstd::set_lib::set_int_range(0, n);
    vstd::set_lib::lemma_int_range(0, n);
    let image = all.map(reader);
    assert forall|i: int| 0 <= i < n implies reads_from(pending, #[trigger] reader_of(pending, i), i) by {
        assert(read_by_other(pending, i));
    }
    assert(vstd::relations::injective_on(reader, all)) by {
        assert forall|x: int, y: int|
            all.contains(x) && all.contains(y) && #[trigger] reader(x) == #[trigger] reader(y) implies x
            == y by {
            assert(reads_from(pending, reader_of(pending, x), x));
            assert(reads_from(pending, reader_of(pending, y), y));
            assert(pending[x].0 == pending[y].0);
        }
    }
    vstd::set_lib::lemma_map_size(all, image, reader);
    assert(image.subset_of(all)) by {
        assert forall|k: int| image.contains(k) implies all.contains(k) by {
            let i = choose|i: int| all.contains(i) && k == #[trigger] reader(i);
            assert(reads_from(pending, reader_of(pending, i), i));
        }
    }
    vstd::set_lib::lemma_subset_equality(image, all);
    assert(all.contains(j));
    assert(image.contains(j));
    let i = choose|i: int| all.contains(i) && j == #[trigger] reader(i);
    assert(reads_from(pending, reader_of(pending, i), i));
}

spec fn reader_of(pending: Seq<(Reg, Src)>, i: int) -> int {
    choose|j: int| #[trigger] reads_from(pending, j, i)
}

proof fn lemma_write(
    pending: Seq<(Reg, Src)>,
    i: int,
    f: Frame,
    now: spec_fn(Reg) -> u64,
    goal: spec_fn(Reg) -> u64,
)
    requires
        once(pending),
        0 <= i < pending.len(),
        !read_by_other(pending, i),
        on_the_way(pending, f, now, goal),
    ensures
        once(pending.remove(i)),
        on_the_way(
            pending.remove(i),
            f,
            with(now, pending[i].0, value_of(pending[i].1, f, now)),
            goal,
        ),
{
    let rest = pending.remove(i);
    let dst = pending[i].0;
    let next = with(now, dst, value_of(pending[i].1, f, now));
    assert forall|x: int, y: int| 0 <= x < y < rest.len() implies (#[trigger] rest[x]).0 != (
    #[trigger] rest[y]).0 by {
        let a = if x < i {
            x
        } else {
            x + 1
        };
        let b = if y < i {
            y
        } else {
            y + 1
        };
        assert(rest[x] == pending[a] && rest[y] == pending[b]);
    }
    assert forall|r: Reg| !#[trigger] pending_for(rest, r) implies next(r) == goal(r) by {
        if r != dst && pending_for(pending, r) {
            let k = choose|k: int| 0 <= k < pending.len() && (#[trigger] pending[k]).0 == r;
            if k < i {
                assert(rest[k] == pending[k]);
            } else {
                assert(rest[k - 1] == pending[k]);
            }
        }
    }
    assert forall|k: int| 0 <= k < rest.len() implies value_of((#[trigger] rest[k]).1, f, next) == goal(
        rest[k].0,
    ) by {
        let a = if k < i {
            k
        } else {
            k + 1
        };
        assert(rest[k] == pending[a]);
        assert(!reads_from(pending, a, i));
        assert(value_of(pending[a].1, f, now) == goal(pending[a].0));
    }
}

/// Where to read after two registers were exchanged.
pub open spec fn redirected(s: Src, dst: Reg, from: Reg) -> Src {
    if s == Src::At(Loc::Reg(dst)) {
        Src::At(Loc::Reg(from))
    } else if s == Src::At(Loc::Reg(from)) {
        Src::At(Loc::Reg(dst))
    } else {
        s
    }
}

/// The assignments left after an exchange: redirected, without those now satisfied.
spec fn exchanged(pending: Seq<(Reg, Src)>, upto: int, dst: Reg, from: Reg, next: Seq<(Reg, Src)>) -> bool {
    &&& once(next)
    &&& forall|k: int|
        0 <= k < next.len() ==> exists|j: int|
            1 <= j < upto && #[trigger] next[k] == ((#[trigger] pending[j]).0, redirected(
                pending[j].1,
                dst,
                from,
            ))
    &&& forall|j: int|
        1 <= j < upto ==> redirected((#[trigger] pending[j]).1, dst, from) == Src::At(
            Loc::Reg(pending[j].0),
        ) || next.contains((pending[j].0, redirected(pending[j].1, dst, from)))
}

proof fn lemma_swap(
    pending: Seq<(Reg, Src)>,
    next: Seq<(Reg, Src)>,
    from: Reg,
    f: Frame,
    now: spec_fn(Reg) -> u64,
    goal: spec_fn(Reg) -> u64,
)
    requires
        once(pending),
        pending.len() > 0,
        pending[0].1 == Src::At(Loc::Reg(from)),
        exists|i: int| #[trigger] reads_from(pending, 0, i),
        exchanged(pending, pending.len() as int, pending[0].0, from, next),
        on_the_way(pending, f, now, goal),
    ensures
        on_the_way(next, f, moved(Move::Swap { a: pending[0].0, b: from }, f, now), goal),
{
    let dst = pending[0].0;
    let i = choose|i: int| #[trigger] reads_from(pending, 0, i);
    assert(pending[i].0 == from && i > 0);
    assert(dst != from);
    let after = moved(Move::Swap { a: dst, b: from }, f, now);
    assert(after(dst) == now(from) && after(from) == now(dst));
    assert forall|s: Src| value_of(#[trigger] redirected(s, dst, from), f, after) == value_of(s, f, now) by {}
    assert(value_of(pending[0].1, f, now) == goal(dst));
    assert forall|r: Reg| !#[trigger] pending_for(next, r) implies after(r) == goal(r) by {
        if r != dst {
            if pending_for(pending, r) {
                let j = choose|j: int| 0 <= j < pending.len() && (#[trigger] pending[j]).0 == r;
                assert(j != 0);
                let s = redirected(pending[j].1, dst, from);
                assert(value_of(pending[j].1, f, now) == goal(r));
                if s != Src::At(Loc::Reg(r)) {
                    assert(next.contains((r, s)));
                    let k = choose|k: int| 0 <= k < next.len() && next[k] == (r, s);
                    assert(next[k].0 == r);
                }
            } else {
                assert(r != from) by {
                    if r == from {
                        assert(pending[i].0 == r);
                    }
                }
            }
        }
    }
    assert forall|k: int| 0 <= k < next.len() implies value_of((#[trigger] next[k]).1, f, after) == goal(
        next[k].0,
    ) by {
        let j = choose|j: int|
            1 <= j < pending.len() && next[k] == ((#[trigger] pending[j]).0, redirected(
                pending[j].1,
                dst,
                from,
            ));
        assert(value_of(pending[j].1, f, now) == goal(pending[j].0));
    }
}

/// Redirect the readers of two exchanged registers, dropping the satisfied.
fn exchange(pending: &Vec<(Reg, Src)>, dst: Reg, from: Reg) -> (next: Vec<(Reg, Src)>)
    requires
        once(pending@),
        pending@.len() > 0,
    ensures
        exchanged(pending@, pending@.len() as int, dst, from, next@),
        next@ == turned(pending@, dst, from, pending@.len() as int),
        next@.len() < pending@.len(),
{
    let mut next: Vec<(Reg, Src)> = Vec::new();
    let mut j: usize = 1;
    while j < pending.len()
        invariant
            1 <= j <= pending@.len(),
            once(pending@),
            next@.len() < j,
            next@ == turned(pending@, dst, from, j as int),
            exchanged(pending@, j as int, dst, from, next@),
        decreases pending@.len() - j,
    {
        let (d, s) = pending[j];
        let ghost n0 = next@;
        let t = if s == Src::At(Loc::Reg(dst)) {
            Src::At(Loc::Reg(from))
        } else if s == Src::At(Loc::Reg(from)) {
            Src::At(Loc::Reg(dst))
        } else {
            s
        };
        if t != Src::At(Loc::Reg(d)) {
            next.push((d, t));
        }
        proof {
            assert forall|k: int| 0 <= k < n0.len() implies (#[trigger] n0[k]).0 != d by {
                let i = choose|i: int|
                    1 <= i < j && n0[k] == ((#[trigger] pending@[i]).0, redirected(
                        pending@[i].1,
                        dst,
                        from,
                    ));
                assert(pending@[i].0 != pending@[j as int].0);
            }
            assert forall|x: int, y: int| 0 <= x < y < next@.len() implies (#[trigger] next@[x]).0 != (
            #[trigger] next@[y]).0 by {
                assert(next@[x] == n0[x]);
                if y < n0.len() {
                    assert(next@[y] == n0[y]);
                }
            }
            assert forall|k: int| 0 <= k < next@.len() implies exists|i: int|
                1 <= i < j + 1 && #[trigger] next@[k] == ((#[trigger] pending@[i]).0, redirected(
                    pending@[i].1,
                    dst,
                    from,
                )) by {
                if k < n0.len() {
                    let i = choose|i: int|
                        1 <= i < j && n0[k] == ((#[trigger] pending@[i]).0, redirected(
                            pending@[i].1,
                            dst,
                            from,
                        ));
                    assert(next@[k] == (pending@[i].0, redirected(pending@[i].1, dst, from)));
                } else {
                    assert(next@[k] == (pending@[j as int].0, redirected(pending@[j as int].1, dst, from)));
                }
            }
            assert forall|i: int| 1 <= i < j + 1 implies redirected((#[trigger] pending@[i]).1, dst, from)
                == Src::At(Loc::Reg(pending@[i].0)) || next@.contains(
                (pending@[i].0, redirected(pending@[i].1, dst, from)),
            ) by {
                if i < j {
                    let e = (pending@[i].0, redirected(pending@[i].1, dst, from));
                    if n0.contains(e) {
                        let k = choose|k: int| 0 <= k < n0.len() && n0[k] == e;
                        assert(next@[k] == e);
                    }
                } else if t != Src::At(Loc::Reg(d)) {
                    assert(next@[next@.len() - 1] == (d, t));
                }
            }
        }
        j = j + 1;
    }
    next
}

proof fn lemma_run_push(ms: Seq<Move>, m: Move, f: Frame, regs: spec_fn(Reg) -> u64)
    ensures
        run(ms.push(m), f, regs) == moved(m, f, run(ms, f, regs)),
{
    assert(ms.push(m).drop_last() =~= ms);
}

/// Sequence the parallel copy that places a block's exit values into the guest registers
/// its successors will read them from. Every destination takes its source's value as it was
/// at the end of the block; every other register keeps what it held.
pub fn reconcile(b: &SchedBlock, a: &Alloc) -> (out: Vec<Move>)
    requires
        assigned_once(b.exits@),
        forall|i: int| 0 <= i < b.exits@.len() ==> !((#[trigger] b.exits@[i]).1 is OutArg),
    ensures
        forall|f: Frame, regs: spec_fn(Reg) -> u64, r: Reg|
            (#[trigger] run(out@, f, regs))(r) == #[trigger] target(
                b.exits@,
                a.segments@,
                b.instrs@.len() as int,
                f,
                regs,
                r,
            ),
        out@ == sequenced(
            wanted(b.exits@, a.segments@, b.instrs@.len() as int),
            wanted(b.exits@, a.segments@, b.instrs@.len() as int).len(),
        ),
        out@.len() <= b.exits@.len(),
{
    let ghost segs = a.segments@;
    let ghost end = b.instrs@.len() as int;
    let mut pending = assignments(b, a);
    let mut out: Vec<Move> = Vec::new();
    let ghost all = pending@;
    let ghost mut left: nat = all.len();
    proof {
        lemma_wanted_len(b.exits@, segs, end);
        assert(out@ + sequenced(all, all.len()) =~= sequenced(all, all.len()));
    }
    while pending.len() > 0
        invariant
            pending@.len() <= left,
            out@ + sequenced(pending@, left) == sequenced(all, all.len()),
            out@.len() + left == all.len(),
            once(pending@),
            segs == a.segments@,
            end == b.instrs@.len(),
            forall|f: Frame, regs: spec_fn(Reg) -> u64| #[trigger]
                on_the_way(pending@, f, run(out@, f, regs), goal_of(b.exits@, segs, end, f, regs)),
        decreases pending@.len(),
    {
        let ghost p0 = pending@;
        let ghost out0 = out@;
        let mut i: usize = 0;
        while i < pending.len() && is_read(&pending, i)
            invariant
                i <= pending@.len(),
                once(pending@),
                pending@ == p0,
                first_free(p0, 0) == first_free(p0, i as int),
                forall|k: int| 0 <= k < i ==> #[trigger] read_by_other(p0, k),
            decreases pending@.len() - i,
        {
            i = i + 1;
        }
        if i < pending.len() {
            let (dst, src) = pending.remove(i);
            let m = as_move(dst, src);
            out.push(m);
            proof {
                assert(first_free(p0, 0) == i);
                assert(out@ + sequenced(pending@, (left - 1) as nat) =~= out0 + sequenced(p0, left));
                left = (left - 1) as nat;
                assert forall|f: Frame, regs: spec_fn(Reg) -> u64| #[trigger]
                    on_the_way(
                        pending@,
                        f,
                        run(out@, f, regs),
                        goal_of(b.exits@, segs, end, f, regs),
                    ) by {
                    let now = run(out0, f, regs);
                    let goal = goal_of(b.exits@, segs, end, f, regs);
                    assert(on_the_way(p0, f, now, goal));
                    lemma_write(p0, i as int, f, now, goal);
                    lemma_run_push(out0, m, f, regs);
                    assert(moved(m, f, now) == with(now, dst, value_of(src, f, now)));
                }
                assert(once(pending@)) by {
                    let f = arbitrary::<Frame>();
                    let regs = arbitrary::<spec_fn(Reg) -> u64>();
                    assert(on_the_way(p0, f, run(out0, f, regs), goal_of(b.exits@, segs, end, f, regs)));
                    lemma_write(
                        p0,
                        i as int,
                        f,
                        run(out0, f, regs),
                        goal_of(b.exits@, segs, end, f, regs),
                    );
                }
            }
        } else {
            // Every destination is read by another move, so all that is left is cycles.
            let (dst, src) = pending[0];
            proof {
                lemma_all_on_cycles(p0, 0);
            }
            if let Src::At(Loc::Reg(from)) = src {
                let next = exchange(&pending, dst, from);
                let m = Move::Swap { a: dst, b: from };
                out.push(m);
                proof {
                    assert(first_free(p0, 0) == p0.len());
                    assert(out@ + sequenced(next@, (left - 1) as nat) =~= out0 + sequenced(p0, left));
                    left = (left - 1) as nat;
                    assert forall|f: Frame, regs: spec_fn(Reg) -> u64| #[trigger]
                        on_the_way(
                            next@,
                            f,
                            run(out@, f, regs),
                            goal_of(b.exits@, segs, end, f, regs),
                        ) by {
                        let now = run(out0, f, regs);
                        let goal = goal_of(b.exits@, segs, end, f, regs);
                        assert(on_the_way(p0, f, now, goal));
                        lemma_swap(p0, next@, from, f, now, goal);
                        lemma_run_push(out0, m, f, regs);
                    }
                }
                pending = next;
            } else {
                proof {
                    let k = choose|k: int| #[trigger] reads_from(p0, 0, k);
                    assert(false);
                }
                pending.clear();
            }
        }
    }
    proof {
        assert(sequenced(pending@, left) =~= Seq::empty());
        assert(out@ =~= sequenced(all, all.len()));
        assert forall|f: Frame, regs: spec_fn(Reg) -> u64, r: Reg|
            (#[trigger] run(out@, f, regs))(r) == #[trigger] target(
                b.exits@,
                a.segments@,
                b.instrs@.len() as int,
                f,
                regs,
                r,
            ) by {
            let goal = goal_of(b.exits@, segs, end, f, regs);
            assert(on_the_way(pending@, f, run(out@, f, regs), goal));
            assert(!pending_for(pending@, r));
            assert(goal(r) == target(b.exits@, segs, end, f, regs, r));
        }
    }
    out
}

/// The text of a stack offset: its sign and its size.
pub open spec fn offset_text(o: i64) -> Seq<char> {
    if o < 0 {
        "-"@ + hex_text((-o) as u64)
    } else {
        "+"@ + hex_text(o as u64)
    }
}

pub open spec fn move_text(m: Move) -> Seq<char> {
    match m {
        Move::Assign { dst, src: Loc::Reg(r) } => "mov "@ + dst.name_spec() + ", "@ + r.name_spec(),
        Move::Assign { dst, src: Loc::Spill(i) } => "mov "@ + dst.name_spec() + ", [spill"@
            + decimal_text(i as u64) + "]"@,
        Move::Imm { dst, value } => "mov "@ + dst.name_spec() + ", "@ + hex_text(value),
        Move::Frame { dst, offset } => "lea "@ + dst.name_spec() + ", [rsp"@ + offset_text(offset)
            + "]"@,
        Move::Swap { a, b } => "xchg "@ + a.name_spec() + ", "@ + b.name_spec(),
    }
}

/// Render a boundary move as the instruction it becomes.
pub fn render_move(m: &Move) -> (out: String)
    requires
        m matches Move::Frame { offset, .. } ==> offset > i64::MIN,
    ensures
        out@ == move_text(*m),
{
    let mut out = String::new();
    match *m {
        Move::Assign { dst, src: Loc::Reg(r) } => {
            out.append("mov ");
            out.append(dst.name());
            out.append(", ");
            out.append(r.name());
        },
        Move::Assign { dst, src: Loc::Spill(i) } => {
            out.append("mov ");
            out.append(dst.name());
            out.append(", [spill");
            push_decimal(&mut out, i as u64);
            out.append("]");
        },
        Move::Imm { dst, value } => {
            out.append("mov ");
            out.append(dst.name());
            out.append(", ");
            push_hex(&mut out, value);
        },
        Move::Frame { dst, offset } => {
            out.append("lea ");
            out.append(dst.name());
            out.append(", [rsp");
            push_offset(&mut out, offset);
            out.append("]");
        },
        Move::Swap { a, b } => {
            out.append("xchg ");
            out.append(a.name());
            out.append(", ");
            out.append(b.name());
        },
    }
    proof {
        assert(out@ =~= move_text(*m));
    }
    out
}

/// Append a stack offset, e.g. `-0x28`.
pub fn push_offset(out: &mut String, o: i64)
    requires
        o > i64::MIN,
    ensures
        final(out)@ == old(out)@ + offset_text(o),
{
    if o < 0 {
        out.append("-");
        push_hex(out, (-o) as u64);
    } else {
        out.append("+");
        push_hex(out, o as u64);
    }
    proof {
        assert(out@ =~= old(out)@ + offset_text(o));
    }
}

} // verus!
