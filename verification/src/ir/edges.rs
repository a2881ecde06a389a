//! What the passes over edges keep: where an edge is moved, what stands there does the same.

use crate::ir::closure::{is_walk, related};
use crate::ir::flow::successors_spec;
use crate::ir::graph::{BlockId, Terminator};
use crate::ir::instr::{BoxedMemOp, CallTarget, CastKind, Instr, Operand, SchedBlock, ValId};
use crate::ir::thread::{
    all_retargeted, blocks_where, entry_for, every_sched, first_sched, follow, forwarding,
    forwards_to, is_reached, last_with, leads_to, merged, reached, retargeted, same_instr,
    same_return, sched_edges, twin_of, with_entry,
};
use crate::ir::value::{BinOp, Reg, UnOp, Width};
use vstd::prelude::*;

verus! {

/// Everything an instruction says.
pub ghost enum Deed {
    Bin { dst: ValId, op: BinOp, a: Operand, b: Operand, width: Width, operand_width: Width },
    Un { dst: ValId, op: UnOp, a: Operand, width: Width },
    Cast { dst: ValId, kind: CastKind, a: Operand, from: Width, to: Width },
    Select { dst: ValId, cond: Operand, a: Operand, b: Operand, width: Width },
    Load { dst: ValId, addr: Operand, disp: i64, width: Width },
    Store { addr: Operand, value: Operand, disp: i64, width: Width },
    Call { target: CallTarget, args: Seq<(Reg, Operand)> },
    Boxed {
        site: u64,
        text: Seq<char>,
        bytes: Seq<u8>,
        mem: Option<BoxedMemOp>,
        uses: Seq<(Reg, Operand)>,
    },
    Opaque { dst: ValId, tag: Seq<char>, width: Width, at: Option<Reg> },
}

/// What an instruction says, field by field.
pub open spec fn deed(i: Instr) -> Deed {
    match i {
        Instr::Bin { dst, op, a, b, width, operand_width } => Deed::Bin {
            dst,
            op,
            a,
            b,
            width,
            operand_width,
        },
        Instr::Un { dst, op, a, width } => Deed::Un { dst, op, a, width },
        Instr::Cast { dst, kind, a, from, to } => Deed::Cast { dst, kind, a, from, to },
        Instr::Select { dst, cond, a, b, width } => Deed::Select { dst, cond, a, b, width },
        Instr::Load { dst, addr, disp, width } => Deed::Load { dst, addr, disp, width },
        Instr::Store { addr, value, disp, width } => Deed::Store { addr, value, disp, width },
        Instr::Call { target, args } => Deed::Call { target, args: args@ },
        Instr::Boxed { site, text, bytes, mem, uses } => Deed::Boxed {
            site,
            text: text@,
            bytes: bytes@,
            mem,
            uses: uses@,
        },
        Instr::Opaque { dst, tag, width, at } => Deed::Opaque { dst, tag: tag@, width, at },
    }
}

/// What the instructions of a block say.
pub open spec fn deeds(b: SchedBlock) -> Seq<Deed> {
    Seq::new(b.instrs@.len(), |i: int| deed(b.instrs@[i]))
}

/// Whether two blocks do the same and return to the same place with the same registers.
pub open spec fn acts_alike(a: SchedBlock, b: SchedBlock) -> bool {
    &&& deeds(a) == deeds(b)
    &&& a.exits@ == b.exits@
    &&& a.terminator matches Terminator::Return { dest } && b.terminator == (Terminator::Return {
        dest,
    })
}

/// Where a terminator leads, arm by arm.
pub open spec fn arms_of(t: Terminator) -> Seq<BlockId> {
    match t {
        Terminator::Jump(x) => seq![x],
        Terminator::Backedge { target } => seq![target],
        Terminator::Branch { taken, not_taken, .. } => seq![taken, not_taken],
        Terminator::Adopted { taken, not_taken } => seq![taken, not_taken],
        Terminator::Switch { targets, .. } => targets@,
        Terminator::AdoptedSwitch { targets } => targets@,
        Terminator::Return { .. } => Seq::empty(),
        Terminator::TailCall { .. } => Seq::empty(),
        Terminator::Unresolved { .. } => Seq::empty(),
        Terminator::AdoptedReturn => Seq::empty(),
    }
}

/// Whether two terminators decide alike between as many arms, whatever the arms lead to.
pub open spec fn decides_alike(a: Terminator, b: Terminator) -> bool {
    &&& arms_of(a).len() == arms_of(b).len()
    &&& match a {
        Terminator::Jump(_) => b is Jump,
        Terminator::Backedge { .. } => b is Backedge,
        Terminator::Branch { predicate, .. } => b matches Terminator::Branch { predicate: p, .. }
            && p == predicate,
        Terminator::Adopted { .. } => b is Adopted,
        Terminator::Switch { selector, .. } => b matches Terminator::Switch { selector: s, .. } && s
            == selector,
        Terminator::AdoptedSwitch { .. } => b is AdoptedSwitch,
        Terminator::Return { .. } => b == a,
        Terminator::TailCall { .. } => b == a,
        Terminator::Unresolved { reason } => b matches Terminator::Unresolved { reason: r } && r@
            == reason@,
        Terminator::AdoptedReturn => b is AdoptedReturn,
    }
}

/// Whether block `k` can stand in for block `j`: an earlier one, but not the first.
pub open spec fn stands_in(blocks: Seq<SchedBlock>, j: int, k: int) -> bool {
    1 <= k < j < blocks.len() && acts_alike(blocks[j], blocks[k])
}

/// Whether each block has an identity of its own.
pub open spec fn own_names(blocks: Seq<SchedBlock>) -> bool {
    forall|i: int, j: int|
        0 <= i < j < blocks.len() ==> (#[trigger] blocks[i]).id != (#[trigger] blocks[j]).id
}

proof fn lemma_deed(a: Instr, b: Instr)
    ensures
        same_instr(a, b) <==> deed(a) == deed(b),
{
}

proof fn lemma_alike(a: SchedBlock, b: SchedBlock)
    ensures
        same_return(a, b) <==> acts_alike(a, b),
{
    if same_return(a, b) {
        assert forall|i: int| 0 <= i < a.instrs@.len() implies deeds(a)[i] == deeds(b)[i] by {
            assert(same_instr(a.instrs@[i], b.instrs@[i]));
            lemma_deed(a.instrs@[i], b.instrs@[i]);
        }
        assert(deeds(a) =~= deeds(b));
    }
    if acts_alike(a, b) {
        assert(deeds(a).len() == deeds(b).len());
        assert forall|i: int| 0 <= i < a.instrs@.len() implies same_instr(
            #[trigger] a.instrs@[i],
            b.instrs@[i],
        ) by {
            assert(deeds(a)[i] == deeds(b)[i]);
            lemma_deed(a.instrs@[i], b.instrs@[i]);
        }
    }
}

proof fn lemma_entry(map: Seq<(BlockId, BlockId)>, id: BlockId, k: int)
    requires
        0 <= k,
    ensures
        match entry_for(map, id, k) {
            Some(j) => k <= j < map.len() && map[j].0 == id,
            None => forall|j: int| k <= j < map.len() ==> (#[trigger] map[j]).0 != id,
        },
    decreases map.len() - k,
{
    if k < map.len() && map[k].0 != id {
        lemma_entry(map, id, k + 1);
    }
}

/// What an entry put in leads to.
proof fn lemma_with_entry(map: Seq<(BlockId, BlockId)>, id: BlockId, to: BlockId, x: BlockId)
    ensures
        match entry_for(with_entry(map, id, to), x, 0) {
            Some(k) => if x == id {
                with_entry(map, id, to)[k] == (id, to)
            } else {
                entry_for(map, x, 0) is Some && with_entry(map, id, to)[k] == map[entry_for(
                    map,
                    x,
                    0,
                )->0]
            },
            None => x != id && entry_for(map, x, 0) is None,
        },
{
    let next = with_entry(map, id, to);
    lemma_entry(map, id, 0);
    lemma_entry(map, x, 0);
    lemma_entry(next, x, 0);
    match entry_for(map, id, 0) {
        Some(k) => {
            if x == id {
                lemma_entry_kept(map, next, id, 0, k);
            } else {
                lemma_entry_other(map, next, x, 0);
            }
        },
        None => {
            if x == id {
                assert(next[map.len() as int] == (id, to));
                let j = entry_for(next, x, 0);
                assert(j is Some);
                if j->0 < map.len() {
                    assert(next[j->0] == map[j->0]);
                }
            } else {
                lemma_entry_pushed(map, (id, to), x, 0);
            }
        },
    }
}

proof fn lemma_entry_kept(
    map: Seq<(BlockId, BlockId)>,
    next: Seq<(BlockId, BlockId)>,
    id: BlockId,
    k: int,
    n: int,
)
    requires
        0 <= k,
        entry_for(map, id, k) == Some(n),
        next.len() == map.len(),
        forall|i: int| 0 <= i < map.len() ==> (#[trigger] next[i]).0 == map[i].0,
    ensures
        entry_for(next, id, k) == Some(n),
    decreases map.len() - k,
{
    assert(k < map.len() ==> next[k].0 == map[k].0);
    if k < map.len() && map[k].0 != id {
        lemma_entry_kept(map, next, id, k + 1, n);
    }
}

proof fn lemma_entry_other(
    map: Seq<(BlockId, BlockId)>,
    next: Seq<(BlockId, BlockId)>,
    x: BlockId,
    k: int,
)
    requires
        0 <= k,
        next.len() == map.len(),
        forall|i: int|
            0 <= i < map.len() ==> (#[trigger] next[i]).0 == map[i].0 && (map[i].0 == x ==> next[i]
                == map[i]),
    ensures
        entry_for(next, x, k) == entry_for(map, x, k),
        entry_for(next, x, k) matches Some(j) ==> next[j] == map[j],
    decreases map.len() - k,
{
    assert(k < map.len() ==> next[k].0 == map[k].0);
    if k < map.len() && map[k].0 != x {
        lemma_entry_other(map, next, x, k + 1);
    }
}

proof fn lemma_entry_pushed(map: Seq<(BlockId, BlockId)>, e: (BlockId, BlockId), x: BlockId, k: int)
    requires
        0 <= k <= map.len(),
        e.0 != x,
    ensures
        entry_for(map.push(e), x, k) == entry_for(map, x, k),
        entry_for(map, x, k) matches Some(j) ==> 0 <= j < map.len(),
    decreases map.len() - k,
{
    if k < map.len() {
        assert(map.push(e)[k] == map[k]);
        if map[k].0 != x {
            lemma_entry_pushed(map, e, x, k + 1);
        }
    } else {
        assert(map.push(e)[k] == e);
        assert(entry_for(map.push(e), x, k + 1) is None);
    }
}

proof fn lemma_twin(blocks: Seq<SchedBlock>, k: int, j: int)
    requires
        0 <= j,
    ensures
        match twin_of(blocks, k, j) {
            Some(n) => j <= n < k && same_return(blocks[k], blocks[n]) && forall|i: int|
                j <= i < n ==> !same_return(blocks[k], #[trigger] blocks[i]),
            None => forall|i: int| j <= i < k ==> !same_return(blocks[k], #[trigger] blocks[i]),
        },
    decreases k - j,
{
    if j < k && !same_return(blocks[k], blocks[j]) {
        lemma_twin(blocks, k, j + 1);
    }
}

/// An entry names a block and one before it that can stand in for it.
proof fn lemma_merged(blocks: Seq<SchedBlock>, n: int, id: BlockId) -> (jk: (int, int))
    requires
        n <= blocks.len(),
        entry_for(merged(blocks, n), id, 0) is Some,
    ensures
        jk.0 < n,
        stands_in(blocks, jk.0, jk.1),
        blocks[jk.0].id == id,
        blocks[jk.1].id == merged(blocks, n)[entry_for(merged(blocks, n), id, 0)->0].1,
        forall|i: int| 1 <= i < jk.1 ==> !acts_alike(blocks[jk.0], #[trigger] blocks[i]),
    decreases n,
{
    if n <= 1 {
        assert(false);
        (0, 0)
    } else {
        lemma_twin(blocks, n - 1, 1);
        let before = merged(blocks, n - 1);
        match twin_of(blocks, n - 1, 1) {
            Some(j) => {
                lemma_with_entry(before, blocks[n - 1].id, blocks[j].id, id);
                if id == blocks[n - 1].id {
                    lemma_alike(blocks[n - 1], blocks[j]);
                    assert forall|i: int| 1 <= i < j implies !acts_alike(
                        blocks[n - 1],
                        #[trigger] blocks[i],
                    ) by {
                        lemma_alike(blocks[n - 1], blocks[i]);
                    }
                    (n - 1, j)
                } else {
                    lemma_merged(blocks, n - 1, id)
                }
            },
            None => lemma_merged(blocks, n - 1, id),
        }
    }
}

/// A block that one before it can stand in for has an entry.
proof fn lemma_merged_has(blocks: Seq<SchedBlock>, n: int, j: int)
    requires
        n <= blocks.len(),
        1 <= j < n,
        exists|k: int| #[trigger] stands_in(blocks, j, k),
    ensures
        entry_for(merged(blocks, n), blocks[j].id, 0) is Some,
    decreases n,
{
    let before = merged(blocks, n - 1);
    lemma_twin(blocks, n - 1, 1);
    if j < n - 1 {
        lemma_merged_has(blocks, n - 1, j);
    } else {
        let k = choose|k: int| #[trigger] stands_in(blocks, j, k);
        lemma_alike(blocks[j], blocks[k]);
        assert(same_return(blocks[n - 1], blocks[k]));
    }
    if twin_of(blocks, n - 1, 1) is Some {
        lemma_with_entry(
            before,
            blocks[n - 1].id,
            blocks[twin_of(blocks, n - 1, 1)->0].id,
            blocks[j].id,
        );
    }
}

proof fn lemma_arms_followed(
    map: Seq<(BlockId, BlockId)>,
    n: nat,
    a: Terminator,
    b: Terminator,
)
    requires
        retargeted(map, n, a, b),
    ensures
        decides_alike(a, b),
        forall|i: int|
            0 <= i < arms_of(a).len() ==> #[trigger] arms_of(b)[i] == follow(map, arms_of(a)[i], n),
{
}

/// Merging returns changes nothing but where edges lead, and moves an edge only from a block
/// to an earlier one with the same instructions, field by field, that leaves the same
/// registers and returns to the same place.
pub proof fn merged_returns_act_alike(a: Seq<SchedBlock>, b: Seq<SchedBlock>, i: int, n: int)
    requires
        all_retargeted(merged(a, a.len() as int), 1, a, b),
        0 <= i < a.len(),
        0 <= n < arms_of(a[i].terminator).len(),
    ensures
        b.len() == a.len(),
        b[i] == (SchedBlock { terminator: b[i].terminator, ..a[i] }),
        decides_alike(a[i].terminator, b[i].terminator),
        arms_of(b[i].terminator)[n] == arms_of(a[i].terminator)[n] || exists|j: int, k: int|
            #![trigger stands_in(a, j, k)]
            stands_in(a, j, k) && arms_of(a[i].terminator)[n] == a[j].id && arms_of(
                b[i].terminator,
            )[n] == a[k].id,
{
    let map = merged(a, a.len() as int);
    assert(b[i] == (SchedBlock { terminator: b[i].terminator, ..a[i] }));
    lemma_arms_followed(map, 1, a[i].terminator, b[i].terminator);
    let x = arms_of(a[i].terminator)[n];
    let y = arms_of(b[i].terminator)[n];
    assert(y == follow(map, x, 1));
    reveal_with_fuel(follow, 2);
    if y != x {
        let (j, k) = lemma_merged(a, a.len() as int, x);
        assert(stands_in(a, j, k));
    }
}

/// No edge is left to a block that an earlier one can stand in for.
pub proof fn no_return_is_left_twice(a: Seq<SchedBlock>, b: Seq<SchedBlock>, i: int, j: int)
    requires
        all_retargeted(merged(a, a.len() as int), 1, a, b),
        own_names(a),
        0 <= i < a.len(),
        exists|k: int| #[trigger] stands_in(a, j, k),
    ensures
        !arms_of(b[i].terminator).contains(a[j].id),
{
    let map = merged(a, a.len() as int);
    assert(b[i] == (SchedBlock { terminator: b[i].terminator, ..a[i] }));
    lemma_arms_followed(map, 1, a[i].terminator, b[i].terminator);
    reveal_with_fuel(follow, 2);
    lemma_merged_has(a, a.len() as int, j);
    if arms_of(b[i].terminator).contains(a[j].id) {
        let n = choose|n: int|
            0 <= n < arms_of(b[i].terminator).len() && arms_of(b[i].terminator)[n] == a[j].id;
        let x = arms_of(a[i].terminator)[n];
        assert(a[j].id == follow(map, x, 1));
        if x == a[j].id {
            let (u, v) = lemma_merged(a, a.len() as int, x);
            assert(a[v].id != a[u].id);
            assert(false);
        } else {
            let (u, v) = lemma_merged(a, a.len() as int, x);
            if v < j {
                assert(a[v].id != a[j].id);
            } else if j < v {
                assert(a[j].id != a[v].id);
            }
            let k = choose|k: int| #[trigger] stands_in(a, j, k);
            assert(acts_alike(a[u], a[k]));
            assert(false);
        }
    }
}

/// Whether a block does nothing at all: it has no instructions, leaves each register but the
/// stack pointer as it was, and jumps on.
pub open spec fn passes_on(b: SchedBlock, to: BlockId) -> bool {
    &&& b.instrs@.len() == 0
    &&& forall|i: int|
        0 <= i < b.exits@.len() ==> {
            let (r, o) = #[trigger] b.exits@[i];
            r == Reg::Rsp || o == Operand::Entry(r) || o == Operand::Param(r)
        }
    &&& b.terminator == Terminator::Jump(to)
}

/// Whether identities lead from one to the next through blocks that do nothing.
pub open spec fn passes_through(blocks: Seq<SchedBlock>, c: Seq<BlockId>) -> bool {
    &&& c.len() >= 1
    &&& forall|m: int| 0 <= m < c.len() - 1 ==> #[trigger] hands_on(blocks, c[m], c[m + 1])
}

/// Whether a block with one identity does nothing but jump to another.
pub open spec fn hands_on(blocks: Seq<SchedBlock>, from: BlockId, to: BlockId) -> bool {
    exists|k: int|
        0 <= k < blocks.len() && (#[trigger] blocks[k]).id == from && passes_on(blocks[k], to)
}

proof fn lemma_passes_on(b: SchedBlock)
    ensures
        forwards_to(b) matches Some(t) ==> passes_on(b, t),
        forall|t: BlockId| #[trigger] passes_on(b, t) ==> forwards_to(b) == Some(t),
{
    if forwards_to(b) is Some {
        assert forall|i: int| 0 <= i < b.exits@.len() implies {
            let (r, o) = #[trigger] b.exits@[i];
            r == Reg::Rsp || o == Operand::Entry(r) || o == Operand::Param(r)
        } by {
            assert(crate::ir::thread::idle_exit(b.exits@[i]));
        }
    }
    assert forall|t: BlockId| #[trigger] passes_on(b, t) implies forwards_to(b) == Some(t) by {
        assert forall|i: int| 0 <= i < b.exits@.len() implies crate::ir::thread::idle_exit(
            #[trigger] b.exits@[i],
        ) by {
            let (r, o) = b.exits@[i];
        }
    }
}

proof fn lemma_forwarding(blocks: Seq<SchedBlock>, n: int, id: BlockId)
    requires
        0 <= n <= blocks.len(),
    ensures
        match entry_for(forwarding(blocks, n), id, 0) {
            Some(k) => hands_on(blocks, id, forwarding(blocks, n)[k].1),
            None => forall|k: int|
                0 <= k < n && (#[trigger] blocks[k]).id == id ==> forwards_to(blocks[k]) is None,
        },
    decreases n,
{
    if n > 0 {
        lemma_forwarding(blocks, n - 1, id);
        lemma_passes_on(blocks[n - 1]);
        match forwards_to(blocks[n - 1]) {
            Some(t) => {
                lemma_with_entry(forwarding(blocks, n - 1), blocks[n - 1].id, t, id);
                if id == blocks[n - 1].id {
                    assert(hands_on(blocks, id, t));
                }
            },
            None => {},
        }
    }
}

/// Following entries passes through blocks that do nothing.
proof fn lemma_followed(blocks: Seq<SchedBlock>, id: BlockId, n: nat) -> (c: Seq<BlockId>)
    ensures
        passes_through(blocks, c),
        c[0] == id,
        c.last() == follow(forwarding(blocks, blocks.len() as int), id, n),
    decreases n,
{
    let map = forwarding(blocks, blocks.len() as int);
    lemma_forwarding(blocks, blocks.len() as int, id);
    if n == 0 {
        seq![id]
    } else {
        match entry_for(map, id, 0) {
            Some(k) => if map[k].1 != id {
                let rest = lemma_followed(blocks, map[k].1, (n - 1) as nat);
                let c = seq![id] + rest;
                assert forall|m: int| 0 <= m < c.len() - 1 implies #[trigger] hands_on(
                    blocks,
                    c[m],
                    c[m + 1],
                ) by {
                    if m > 0 {
                        let q = m - 1;
                        assert(hands_on(blocks, rest[q], rest[q + 1]));
                        assert(c[m] == rest[q] && c[m + 1] == rest[q + 1]);
                    }
                }
                c
            } else {
                seq![id]
            },
            None => seq![id],
        }
    }
}

/// Threading jumps changes nothing but where edges lead, and moves an edge only along blocks
/// that do nothing but jump on.
pub proof fn threaded_edges_pass_over_nothing(
    a: Seq<SchedBlock>,
    b: Seq<SchedBlock>,
    i: int,
    n: int,
)
    requires
        all_retargeted(
            forwarding(a, a.len() as int),
            forwarding(a, a.len() as int).len(),
            a,
            b,
        ),
        0 <= i < a.len(),
        0 <= n < arms_of(a[i].terminator).len(),
    ensures
        b.len() == a.len(),
        b[i] == (SchedBlock { terminator: b[i].terminator, ..a[i] }),
        decides_alike(a[i].terminator, b[i].terminator),
        exists|c: Seq<BlockId>| #[trigger]
            passes_through(a, c) && c[0] == arms_of(a[i].terminator)[n] && c.last() == arms_of(
                b[i].terminator,
            )[n],
{
    let map = forwarding(a, a.len() as int);
    assert(b[i] == (SchedBlock { terminator: b[i].terminator, ..a[i] }));
    lemma_arms_followed(map, map.len(), a[i].terminator, b[i].terminator);
    let c = lemma_followed(a, arms_of(a[i].terminator)[n], map.len());
    assert(arms_of(b[i].terminator)[n] == c.last());
}

/// The identities of a map.
spec fn keys_of(map: Seq<(BlockId, BlockId)>) -> Seq<BlockId> {
    Seq::new(map.len(), |i: int| map[i].0)
}

/// Where each identity leads on, following entries gets to the end.
proof fn lemma_follows_chain(blocks: Seq<SchedBlock>, c: Seq<BlockId>, n: nat)
    requires
        own_names(blocks),
        passes_through(blocks, c),
        c.no_duplicates(),
        n >= c.len() - 1,
        forall|to: BlockId| !hands_on(blocks, c.last(), to),
    ensures
        follow(forwarding(blocks, blocks.len() as int), c[0], n) == c.last(),
    decreases c.len(),
{
    let map = forwarding(blocks, blocks.len() as int);
    lemma_forwarding(blocks, blocks.len() as int, c[0]);
    if c.len() == 1 {
        if entry_for(map, c[0], 0) is Some {
            assert(hands_on(blocks, c.last(), map[entry_for(map, c[0], 0)->0].1));
        }
        if n > 0 {
            assert(follow(map, c[0], n) == c[0]);
        }
    } else {
        assert(hands_on(blocks, c[0], c[1]));
        let k = choose|k: int|
            0 <= k < blocks.len() && (#[trigger] blocks[k]).id == c[0] && passes_on(
                blocks[k],
                c[1],
            );
        lemma_passes_on(blocks[k]);
        let e = entry_for(map, c[0], 0)->0;
        let to = map[e].1;
        assert(hands_on(blocks, c[0], to));
        let l = choose|l: int|
            0 <= l < blocks.len() && (#[trigger] blocks[l]).id == c[0] && passes_on(blocks[l], to);
        if k < l {
            assert(blocks[k].id != blocks[l].id);
        } else if l < k {
            assert(blocks[l].id != blocks[k].id);
        }
        assert(to == c[1]);
        let rest = c.skip(1);
        assert(c[0] != c[1]);
        assert(rest.no_duplicates()) by {
            assert forall|i: int, j: int| 0 <= i < j < rest.len() implies rest[i] != rest[j] by {
                assert(rest[i] == c[i + 1] && rest[j] == c[j + 1]);
            }
        }
        assert forall|m: int| 0 <= m < rest.len() - 1 implies #[trigger] hands_on(
            blocks,
            rest[m],
            rest[m + 1],
        ) by {
            let q = m + 1;
            assert(hands_on(blocks, c[q], c[q + 1]));
            assert(rest[m] == c[q] && rest[m + 1] == c[q + 1]);
        }
        lemma_follows_chain(blocks, rest, (n - 1) as nat);
    }
}

/// There are as many entries as there are blocks that do nothing on the way.
proof fn lemma_enough(blocks: Seq<SchedBlock>, c: Seq<BlockId>)
    requires
        passes_through(blocks, c),
        c.no_duplicates(),
    ensures
        forwarding(blocks, blocks.len() as int).len() >= c.len() - 1,
{
    let map = forwarding(blocks, blocks.len() as int);
    let ids = keys_of(map);
    let d = c.drop_last();
    assert(d.no_duplicates()) by {
        assert forall|i: int, j: int| 0 <= i < j < d.len() implies d[i] != d[j] by {
            assert(c[i] != c[j]);
        }
    }
    d.unique_seq_to_set();
    vstd::seq_lib::seq_to_set_is_finite(ids);
    assert(d.to_set().subset_of(ids.to_set())) by {
        assert forall|x: BlockId| d.to_set().contains(x) implies ids.to_set().contains(x) by {
            let m = choose|m: int| 0 <= m < d.len() && d[m] == x;
            assert(hands_on(blocks, c[m], c[m + 1]));
            let k = choose|k: int|
                0 <= k < blocks.len() && (#[trigger] blocks[k]).id == c[m] && passes_on(
                    blocks[k],
                    c[m + 1],
                );
            lemma_passes_on(blocks[k]);
            lemma_forwarding(blocks, blocks.len() as int, x);
            lemma_entry(map, x, 0);
            let e = entry_for(map, x, 0)->0;
            assert(ids[e] == x);
        }
    }
    vstd::set_lib::lemma_len_subset(d.to_set(), ids.to_set());
    ids.lemma_cardinality_of_set();
}

/// Where a chain of blocks that do nothing ends at one that does something, an edge to its
/// start is moved to its end.
pub proof fn no_idle_block_is_left_on_the_way(
    a: Seq<SchedBlock>,
    b: Seq<SchedBlock>,
    i: int,
    n: int,
    c: Seq<BlockId>,
)
    requires
        all_retargeted(
            forwarding(a, a.len() as int),
            forwarding(a, a.len() as int).len(),
            a,
            b,
        ),
        own_names(a),
        0 <= i < a.len(),
        0 <= n < arms_of(a[i].terminator).len(),
        passes_through(a, c),
        c.no_duplicates(),
        c[0] == arms_of(a[i].terminator)[n],
        forall|to: BlockId| !hands_on(a, c.last(), to),
    ensures
        arms_of(b[i].terminator)[n] == c.last(),
{
    let map = forwarding(a, a.len() as int);
    assert(b[i] == (SchedBlock { terminator: b[i].terminator, ..a[i] }));
    lemma_arms_followed(map, map.len(), a[i].terminator, b[i].terminator);
    lemma_enough(a, c);
    lemma_follows_chain(a, c, map.len());
}

/// Whether blocks lead from one to the next, by number.
pub open spec fn is_path(blocks: Seq<SchedBlock>, p: Seq<int>) -> bool {
    &&& p.len() >= 1
    &&& forall|m: int| 0 <= m < p.len() ==> 0 <= #[trigger] p[m] < blocks.len()
    &&& forall|m: int| 0 <= m < p.len() - 1 ==> #[trigger] arm_to(blocks, p[m], p[m + 1])
}

/// Whether an arm of block `i` leads to block `j`.
pub open spec fn arm_to(blocks: Seq<SchedBlock>, i: int, j: int) -> bool {
    arms_of(blocks[i].terminator).contains(blocks[j].id)
}

proof fn lemma_last(blocks: Seq<SchedBlock>, i: int, k: int)
    requires
        own_names(blocks),
        0 <= i < k <= blocks.len(),
    ensures
        last_with(blocks, blocks[i].id, k) == Some(i),
    decreases k,
{
    if i < k - 1 {
        assert(blocks[i].id != blocks[k - 1].id);
        lemma_last(blocks, i, k - 1);
    }
}

proof fn lemma_arm(blocks: Seq<SchedBlock>, i: int, j: int)
    requires
        own_names(blocks),
        0 <= i < blocks.len(),
        0 <= j < blocks.len(),
    ensures
        leads_to(blocks, i, j) <==> arm_to(blocks, i, j),
{
    lemma_last(blocks, i, blocks.len() as int);
    assert(successors_spec(blocks[i].terminator) =~= arms_of(blocks[i].terminator));
}

/// A block is reached where a path of arms leads to it from the first.
proof fn lemma_reached(blocks: Seq<SchedBlock>, i: int)
    requires
        own_names(blocks),
        0 <= i < blocks.len(),
    ensures
        is_reached(blocks, i) <==> exists|p: Seq<int>| #[trigger]
            is_path(blocks, p) && p[0] == 0 && p.last() == i,
{
    let r = sched_edges(blocks);
    let o = every_sched(blocks);
    if is_reached(blocks, i) {
        let p = choose|p: Seq<int>| #[trigger]
            is_walk(r, o, p) && first_sched(blocks)(p[0]) && p.last() == i;
        assert(o(p[0]));
        if p[0] != 0 {
            assert(blocks[0].id != blocks[p[0]].id);
        }
        assert forall|m: int| 0 <= m < p.len() implies 0 <= #[trigger] p[m] < blocks.len() by {
            assert(o(p[m]));
        }
        assert forall|m: int| 0 <= m < p.len() - 1 implies #[trigger] arm_to(
            blocks,
            p[m],
            p[m + 1],
        ) by {
            assert(related(r, p, m));
            lemma_arm(blocks, p[m], p[m + 1]);
        }
        assert(is_path(blocks, p));
    }
    if exists|p: Seq<int>| #[trigger] is_path(blocks, p) && p[0] == 0 && p.last() == i {
        let p = choose|p: Seq<int>| #[trigger] is_path(blocks, p) && p[0] == 0 && p.last() == i;
        assert forall|m: int| 0 <= m < p.len() - 1 implies #[trigger] related(r, p, m) by {
            assert(arm_to(blocks, p[m], p[m + 1]));
            lemma_arm(blocks, p[m], p[m + 1]);
        }
        assert(is_walk(r, o, p));
    }
}

proof fn lemma_where(blocks: Seq<SchedBlock>, f: spec_fn(int) -> bool, k: int) -> (at: Seq<int>)
    requires
        0 <= k <= blocks.len(),
    ensures
        at.len() == blocks_where(blocks, f, k).len(),
        forall|n: int|
            0 <= n < at.len() ==> 0 <= #[trigger] at[n] < k && f(at[n]) && blocks_where(
                blocks,
                f,
                k,
            )[n] == blocks[at[n]],
        forall|n: int, m: int| 0 <= n < m < at.len() ==> #[trigger] at[n] < #[trigger] at[m],
        forall|i: int| 0 <= i < k && #[trigger] f(i) ==> at.contains(i),
    decreases k,
{
    if k <= 0 {
        Seq::empty()
    } else {
        let before = lemma_where(blocks, f, k - 1);
        if f(k - 1) {
            let at = before.push(k - 1);
            assert forall|n: int| 0 <= n < at.len() implies 0 <= #[trigger] at[n] < k && f(at[n])
                && blocks_where(blocks, f, k)[n] == blocks[at[n]] by {
                if n < before.len() {
                    assert(at[n] == before[n]);
                }
            }
            assert forall|i: int| 0 <= i < k && #[trigger] f(i) implies at.contains(i) by {
                if i < k - 1 {
                    let n = choose|n: int| 0 <= n < before.len() && before[n] == i;
                    assert(at[n] == i);
                } else {
                    assert(at[before.len() as int] == i);
                }
            }
            assert forall|n: int, m: int| 0 <= n < m < at.len() implies #[trigger] at[n]
                < #[trigger] at[m] by {
                assert(at[n] == before[n]);
                if m < before.len() {
                    assert(at[m] == before[m]);
                }
            }
            at
        } else {
            before
        }
    }
}

/// Dropping what is not reached keeps, in their order, exactly the blocks that a path of arms
/// leads to from the first.
pub proof fn what_is_reached_is_kept(blocks: Seq<SchedBlock>, out: Seq<SchedBlock>) -> (at: Seq<
    int,
>)
    requires
        own_names(blocks),
        out == blocks_where(blocks, reached(blocks), blocks.len() as int),
    ensures
        at.len() == out.len(),
        forall|n: int|
            0 <= n < at.len() ==> 0 <= #[trigger] at[n] < blocks.len() && out[n] == blocks[at[n]],
        forall|n: int, m: int| 0 <= n < m < at.len() ==> #[trigger] at[n] < #[trigger] at[m],
        forall|i: int|
            0 <= i < blocks.len() ==> (#[trigger] at.contains(i) <==> exists|p: Seq<int>| #[trigger]
                is_path(blocks, p) && p[0] == 0 && p.last() == i),
{
    let f = reached(blocks);
    let at = lemma_where(blocks, f, blocks.len() as int);
    assert forall|i: int| 0 <= i < blocks.len() implies (#[trigger] at.contains(i) <==> exists|
        p: Seq<int>,
    | #[trigger] is_path(blocks, p) && p[0] == 0 && p.last() == i) by {
        lemma_reached(blocks, i);
        if at.contains(i) {
            let n = choose|n: int| 0 <= n < at.len() && at[n] == i;
            assert(f(at[n]));
        }
        if is_reached(blocks, i) {
            assert(f(i));
        }
    }
    at
}

} // verus!
