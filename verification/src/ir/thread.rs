//! Passes over the edges between scheduled blocks: merging identical returns, threading
//! jumps through blocks that do nothing, and dropping what is no longer reached.

use crate::ir::closure::{closure, led_to, lists};
use crate::ir::flow::{successors_of, successors_spec};
use crate::ir::graph::{BlockId, Terminator};
use crate::ir::instr::{Instr, Operand, SchedBlock};
use crate::ir::value::Reg;
use vstd::prelude::*;

verus! {

/// Where identities lead, at most one entry each.
pub open spec fn entry_for(map: Seq<(BlockId, BlockId)>, id: BlockId, k: int) -> Option<int>
    decreases map.len() - k,
{
    if k < 0 || k >= map.len() {
        None
    } else if map[k].0 == id {
        Some(k)
    } else {
        entry_for(map, id, k + 1)
    }
}

/// A map with an entry put in or replaced.
pub open spec fn with_entry(map: Seq<(BlockId, BlockId)>, id: BlockId, to: BlockId) -> Seq<
    (BlockId, BlockId),
> {
    match entry_for(map, id, 0) {
        Some(k) => map.update(k, (id, to)),
        None => map.push((id, to)),
    }
}

/// Where an identity leads, following entries at most `n` times. An identity that leads to
/// itself is where it stays.
pub open spec fn follow(map: Seq<(BlockId, BlockId)>, id: BlockId, n: nat) -> BlockId
    decreases n,
{
    if n == 0 {
        id
    } else {
        match entry_for(map, id, 0) {
            Some(k) if map[k].1 != id => follow(map, map[k].1, (n - 1) as nat),
            _ => id,
        }
    }
}

proof fn lemma_entry_for(map: Seq<(BlockId, BlockId)>, id: BlockId, k: int)
    requires
        0 <= k,
    ensures
        entry_for(map, id, k) matches Some(j) ==> k <= j < map.len() && map[j].0 == id,
    decreases map.len() - k,
{
    if k < map.len() && map[k].0 != id {
        lemma_entry_for(map, id, k + 1);
    }
}

fn find_entry(map: &Vec<(BlockId, BlockId)>, id: BlockId) -> (r: Option<usize>)
    ensures
        match r {
            Some(k) => k < map@.len() && entry_for(map@, id, 0) == Some(k as int),
            None => entry_for(map@, id, 0) is None,
        },
{
    let mut k: usize = 0;
    while k < map.len()
        invariant
            k <= map@.len(),
            entry_for(map@, id, 0) == entry_for(map@, id, k as int),
        decreases map@.len() - k,
    {
        if map[k].0 == id {
            return Some(k);
        }
        k = k + 1;
    }
    None
}

fn put_entry(map: &mut Vec<(BlockId, BlockId)>, id: BlockId, to: BlockId)
    ensures
        final(map)@ == with_entry(old(map)@, id, to),
{
    match find_entry(map, id) {
        Some(k) => {
            map.set(k, (id, to));
        },
        None => {
            map.push((id, to));
        },
    }
}

fn followed(map: &Vec<(BlockId, BlockId)>, id: BlockId, n: usize) -> (r: BlockId)
    ensures
        r == follow(map@, id, n as nat),
{
    let mut at = id;
    let mut left: usize = n;
    while left > 0
        invariant
            left <= n,
            follow(map@, id, n as nat) == follow(map@, at, left as nat),
        decreases left,
    {
        match find_entry(map, at) {
            Some(k) => {
                if map[k].1 == at {
                    return at;
                }
                at = map[k].1;
            },
            None => {
                return at;
            },
        }
        left = left - 1;
    }
    at
}

/// Identities, each followed.
pub open spec fn follow_each(map: Seq<(BlockId, BlockId)>, n: nat, s: Seq<BlockId>) -> Seq<BlockId> {
    Seq::new(s.len(), |i: int| follow(map, s[i], n))
}

/// Whether a terminator is another whose targets were followed.
pub open spec fn retargeted(
    map: Seq<(BlockId, BlockId)>,
    n: nat,
    a: Terminator,
    b: Terminator,
) -> bool {
    match (a, b) {
        (Terminator::Jump(t), Terminator::Jump(t1)) => t1 == follow(map, t, n),
        (Terminator::Backedge { target }, Terminator::Backedge { target: t1 }) => t1 == follow(
            map,
            target,
            n,
        ),
        (
            Terminator::Branch { predicate, taken, not_taken },
            Terminator::Branch { predicate: p1, taken: t1, not_taken: n1 },
        ) => p1 == predicate && t1 == follow(map, taken, n) && n1 == follow(map, not_taken, n),
        (
            Terminator::Adopted { taken, not_taken },
            Terminator::Adopted { taken: t1, not_taken: n1 },
        ) => t1 == follow(map, taken, n) && n1 == follow(map, not_taken, n),
        (Terminator::Switch { selector, targets }, Terminator::Switch { selector: s1, targets: t1 }) =>
            s1 == selector && t1@ == follow_each(map, n, targets@),
        (Terminator::AdoptedSwitch { targets }, Terminator::AdoptedSwitch { targets: t1 }) => t1@
            == follow_each(map, n, targets@),
        (Terminator::Return { .. }, _) => b == a,
        (Terminator::TailCall { .. }, _) => b == a,
        (Terminator::Unresolved { reason }, Terminator::Unresolved { reason: r1 }) => r1@ == reason@,
        (Terminator::AdoptedReturn, _) => b == a,
        _ => false,
    }
}

fn followed_each(map: &Vec<(BlockId, BlockId)>, n: usize, v: &Vec<BlockId>) -> (out: Vec<BlockId>)
    ensures
        out@ == follow_each(map@, n as nat, v@),
{
    let mut out: Vec<BlockId> = Vec::new();
    while out.len() < v.len()
        invariant
            out@.len() <= v@.len(),
            out@ == follow_each(map@, n as nat, v@).take(out@.len() as int),
        decreases v@.len() - out@.len(),
    {
        let k: usize = out.len();
        out.push(followed(map, v[k], n));
        proof {
            assert(out@ =~= follow_each(map@, n as nat, v@).take(out@.len() as int));
        }
    }
    proof {
        assert(out@ =~= follow_each(map@, n as nat, v@));
    }
    out
}

fn retarget(map: &Vec<(BlockId, BlockId)>, n: usize, t: &Terminator) -> (r: Terminator)
    ensures
        retargeted(map@, n as nat, *t, r),
{
    match t {
        Terminator::Jump(x) => Terminator::Jump(followed(map, *x, n)),
        Terminator::Backedge { target } => Terminator::Backedge { target: followed(map, *target, n) },
        Terminator::Branch { predicate, taken, not_taken } => Terminator::Branch {
            predicate: *predicate,
            taken: followed(map, *taken, n),
            not_taken: followed(map, *not_taken, n),
        },
        Terminator::Adopted { taken, not_taken } => Terminator::Adopted {
            taken: followed(map, *taken, n),
            not_taken: followed(map, *not_taken, n),
        },
        Terminator::Switch { selector, targets } => Terminator::Switch {
            selector: *selector,
            targets: followed_each(map, n, targets),
        },
        Terminator::AdoptedSwitch { targets } => Terminator::AdoptedSwitch {
            targets: followed_each(map, n, targets),
        },
        Terminator::Return { dest } => Terminator::Return { dest: *dest },
        Terminator::TailCall { target } => Terminator::TailCall { target: *target },
        Terminator::Unresolved { reason } => Terminator::Unresolved { reason: reason.clone() },
        Terminator::AdoptedReturn => Terminator::AdoptedReturn,
    }
}

/// Whether blocks are others whose terminators' targets were followed.
pub open spec fn all_retargeted(
    map: Seq<(BlockId, BlockId)>,
    n: nat,
    a: Seq<SchedBlock>,
    b: Seq<SchedBlock>,
) -> bool {
    &&& b.len() == a.len()
    &&& forall|i: int|
        0 <= i < a.len() ==> (#[trigger] b[i]) == (SchedBlock {
            terminator: b[i].terminator,
            ..a[i]
        }) && retargeted(map, n, a[i].terminator, b[i].terminator)
}

fn retarget_all(map: &Vec<(BlockId, BlockId)>, n: usize, blocks: &mut Vec<SchedBlock>)
    ensures
        all_retargeted(map@, n as nat, old(blocks)@, final(blocks)@),
{
    let ghost b0 = blocks@;
    let mut k: usize = 0;
    while k < blocks.len()
        invariant
            k <= blocks@.len() == b0.len(),
            forall|i: int|
                0 <= i < b0.len() ==> if i < k {
                    (#[trigger] blocks@[i]) == (SchedBlock {
                        terminator: blocks@[i].terminator,
                        ..b0[i]
                    }) && retargeted(map@, n as nat, b0[i].terminator, blocks@[i].terminator)
                } else {
                    blocks@[i] == b0[i]
                },
        decreases blocks@.len() - k,
    {
        let ghost before = blocks@;
        proof {
            assert(blocks@[k as int] == b0[k as int]);
        }
        let t = retarget(map, n, &blocks[k].terminator);
        blocks[k].terminator = t;
        proof {
            assert forall|i: int| 0 <= i < b0.len() implies if i < k + 1 {
                (#[trigger] blocks@[i]) == (SchedBlock {
                    terminator: blocks@[i].terminator,
                    ..b0[i]
                }) && retargeted(map@, n as nat, b0[i].terminator, blocks@[i].terminator)
            } else {
                blocks@[i] == b0[i]
            } by {
                if i != k {
                    assert(blocks@[i] == before[i]);
                }
            }
        }
        k = k + 1;
    }
}

/// Whether an exit leaves a register as it found it, or is the stack pointer's, which stays
/// relative to the frame.
pub open spec fn idle_exit(e: (Reg, Operand)) -> bool {
    e.0 == Reg::Rsp || e.1 == Operand::Entry(e.0) || e.1 == Operand::Param(e.0)
}

/// Where a block forwards to, if standing in for it changes nothing.
pub open spec fn forwards_to(b: SchedBlock) -> Option<BlockId> {
    if b.instrs@.len() == 0 && (forall|i: int|
        0 <= i < b.exits@.len() ==> idle_exit(#[trigger] b.exits@[i])) {
        match b.terminator {
            Terminator::Jump(t) => Some(t),
            _ => None,
        }
    } else {
        None
    }
}

fn forwards(b: &SchedBlock) -> (r: Option<BlockId>)
    ensures
        r == forwards_to(*b),
{
    if b.instrs.len() > 0 {
        return None;
    }
    let mut k: usize = 0;
    while k < b.exits.len()
        invariant
            k <= b.exits@.len(),
            forall|i: int| 0 <= i < k ==> idle_exit(#[trigger] b.exits@[i]),
        decreases b.exits@.len() - k,
    {
        let (reg, op) = b.exits[k];
        if !(reg == Reg::Rsp || op == Operand::Entry(reg) || op == Operand::Param(reg)) {
            assert(!idle_exit(b.exits@[k as int]));
            return None;
        }
        k = k + 1;
    }
    match &b.terminator {
        Terminator::Jump(t) => Some(*t),
        _ => None,
    }
}

/// Where those of the first `k` blocks that do nothing forward to.
pub open spec fn forwarding(blocks: Seq<SchedBlock>, k: int) -> Seq<(BlockId, BlockId)>
    decreases k,
{
    if k <= 0 {
        Seq::empty()
    } else {
        match forwards_to(blocks[k - 1]) {
            Some(t) => with_entry(forwarding(blocks, k - 1), blocks[k - 1].id, t),
            None => forwarding(blocks, k - 1),
        }
    }
}

/// Point every edge past blocks that do nothing but jump on. Chains are followed to their
/// end; a cycle of such blocks is followed no longer than there are of them.
pub fn thread_empty_jumps(blocks: &mut Vec<SchedBlock>)
    ensures
        all_retargeted(
            forwarding(old(blocks)@, old(blocks)@.len() as int),
            forwarding(old(blocks)@, old(blocks)@.len() as int).len(),
            old(blocks)@,
            final(blocks)@,
        ),
{
    let mut map: Vec<(BlockId, BlockId)> = Vec::new();
    let mut k: usize = 0;
    while k < blocks.len()
        invariant
            k <= blocks@.len(),
            blocks@ == old(blocks)@,
            map@ == forwarding(blocks@, k as int),
        decreases blocks@.len() - k,
    {
        if let Some(t) = forwards(&blocks[k]) {
            put_entry(&mut map, blocks[k].id, t);
        }
        k = k + 1;
    }
    let n: usize = map.len();
    retarget_all(&map, n, blocks);
}

/// Two instructions with the same contents.
pub open spec fn same_instr(a: Instr, b: Instr) -> bool {
    match (a, b) {
        (Instr::Call { target, args }, Instr::Call { target: t1, args: a1 }) => t1 == target && a1@
            == args@,
        (
            Instr::Boxed { site, text, bytes, mem, uses },
            Instr::Boxed { site: s1, text: t1, bytes: b1, mem: m1, uses: u1 },
        ) => s1 == site && t1@ == text@ && b1@ == bytes@ && m1 == mem && u1@ == uses@,
        (
            Instr::Opaque { dst, tag, width, at },
            Instr::Opaque { dst: d1, tag: t1, width: w1, at: a1 },
        ) => d1 == dst && t1@ == tag@ && w1 == width && a1 == at,
        (Instr::Call { .. }, _) => false,
        (Instr::Boxed { .. }, _) => false,
        (Instr::Opaque { .. }, _) => false,
        _ => a == b,
    }
}

fn same_assignments(a: &Vec<(Reg, Operand)>, b: &Vec<(Reg, Operand)>) -> (r: bool)
    ensures
        r == (a@ == b@),
{
    if a.len() != b.len() {
        return false;
    }
    let mut k: usize = 0;
    while k < a.len()
        invariant
            k <= a@.len() == b@.len(),
            forall|i: int| 0 <= i < k ==> #[trigger] a@[i] == b@[i],
        decreases a@.len() - k,
    {
        if a[k].0 != b[k].0 || a[k].1 != b[k].1 {
            assert(a@[k as int] != b@[k as int]);
            return false;
        }
        k = k + 1;
    }
    proof {
        assert(a@ =~= b@);
    }
    true
}

fn same_bytes(a: &Vec<u8>, b: &Vec<u8>) -> (r: bool)
    ensures
        r == (a@ == b@),
{
    if a.len() != b.len() {
        return false;
    }
    let mut k: usize = 0;
    while k < a.len()
        invariant
            k <= a@.len() == b@.len(),
            forall|i: int| 0 <= i < k ==> #[trigger] a@[i] == b@[i],
        decreases a@.len() - k,
    {
        if a[k] != b[k] {
            assert(a@[k as int] != b@[k as int]);
            return false;
        }
        k = k + 1;
    }
    proof {
        assert(a@ =~= b@);
    }
    true
}

fn same_name(a: &str, b: &str) -> (r: bool)
    ensures
        r == (a@ == b@),
{
    let x: String = a.to_string();
    let y: String = b.to_string();
    x == y
}

fn is_same_instr(p: &Instr, q: &Instr) -> (r: bool)
    ensures
        r == same_instr(*p, *q),
{
    match (p, q) {
        (
            Instr::Bin { dst, op, a, b, width, operand_width },
            Instr::Bin { dst: d1, op: o1, a: a1, b: b1, width: w1, operand_width: ow1 },
        ) => *dst == *d1 && *op == *o1 && *a == *a1 && *b == *b1 && *width == *w1 && *operand_width
            == *ow1,
        (Instr::Un { dst, op, a, width }, Instr::Un { dst: d1, op: o1, a: a1, width: w1 }) => *dst
            == *d1 && *op == *o1 && *a == *a1 && *width == *w1,
        (
            Instr::Cast { dst, kind, a, from, to },
            Instr::Cast { dst: d1, kind: k1, a: a1, from: f1, to: t1 },
        ) => *dst == *d1 && *kind == *k1 && *a == *a1 && *from == *f1 && *to == *t1,
        (
            Instr::Select { dst, cond, a, b, width },
            Instr::Select { dst: d1, cond: c1, a: a1, b: b1, width: w1 },
        ) => *dst == *d1 && *cond == *c1 && *a == *a1 && *b == *b1 && *width == *w1,
        (
            Instr::Load { dst, addr, disp, width },
            Instr::Load { dst: d1, addr: a1, disp: p1, width: w1 },
        ) => *dst == *d1 && *addr == *a1 && *disp == *p1 && *width == *w1,
        (
            Instr::Store { addr, value, disp, width },
            Instr::Store { addr: a1, value: v1, disp: p1, width: w1 },
        ) => *addr == *a1 && *value == *v1 && *disp == *p1 && *width == *w1,
        (Instr::Call { target, args }, Instr::Call { target: t1, args: a1 }) => *target == *t1
            && same_assignments(args, a1),
        (
            Instr::Boxed { site, text, bytes, mem, uses },
            Instr::Boxed { site: s1, text: t1, bytes: b1, mem: m1, uses: u1 },
        ) => *site == *s1 && same_name(text.as_str(), t1.as_str()) && same_bytes(bytes, b1) && (match (mem, m1) {
            (Some(x), Some(y)) => *x == *y,
            (None, None) => true,
            _ => false,
        }) && same_assignments(uses, u1),
        (
            Instr::Opaque { dst, tag, width, at },
            Instr::Opaque { dst: d1, tag: t1, width: w1, at: a1 },
        ) => *dst == *d1 && same_name(tag, t1) && *width == *w1 && (match (at, a1) {
            (Some(x), Some(y)) => *x == *y,
            (None, None) => true,
            _ => false,
        }),
        _ => false,
    }
}

/// Two returning blocks that do the same.
pub open spec fn same_return(a: SchedBlock, b: SchedBlock) -> bool {
    &&& a.terminator is Return
    &&& a.terminator == b.terminator
    &&& a.exits@ == b.exits@
    &&& a.instrs@.len() == b.instrs@.len()
    &&& forall|i: int| 0 <= i < a.instrs@.len() ==> same_instr(#[trigger] a.instrs@[i], b.instrs@[i])
}

fn is_same_return(a: &SchedBlock, b: &SchedBlock) -> (r: bool)
    ensures
        r == same_return(*a, *b),
{
    match (&a.terminator, &b.terminator) {
        (Terminator::Return { dest }, Terminator::Return { dest: d1 }) => {
            if dest.idx != d1.idx {
                return false;
            }
        },
        _ => {
            return false;
        },
    }
    if a.instrs.len() != b.instrs.len() || !same_assignments(&a.exits, &b.exits) {
        return false;
    }
    let mut k: usize = 0;
    while k < a.instrs.len()
        invariant
            k <= a.instrs@.len() == b.instrs@.len(),
            forall|i: int|
                0 <= i < k ==> same_instr(#[trigger] a.instrs@[i], b.instrs@[i]),
        decreases a.instrs@.len() - k,
    {
        if !is_same_instr(&a.instrs[k], &b.instrs[k]) {
            assert(!same_instr(a.instrs@[k as int], b.instrs@[k as int]));
            return false;
        }
        k = k + 1;
    }
    true
}

/// The first block from `j` on, before `k`, that does the same as block `k`.
pub open spec fn twin_of(blocks: Seq<SchedBlock>, k: int, j: int) -> Option<int>
    decreases k - j,
{
    if j >= k {
        None
    } else if same_return(blocks[k], blocks[j]) {
        Some(j)
    } else {
        twin_of(blocks, k, j + 1)
    }
}

/// Which of the first `k` blocks an earlier one stands in for. The entry is never merged
/// away, nor does it stand in for another.
pub open spec fn merged(blocks: Seq<SchedBlock>, k: int) -> Seq<(BlockId, BlockId)>
    decreases k,
{
    if k <= 1 {
        Seq::empty()
    } else {
        match twin_of(blocks, k - 1, 1) {
            Some(j) => with_entry(merged(blocks, k - 1), blocks[k - 1].id, blocks[j].id),
            None => merged(blocks, k - 1),
        }
    }
}

fn find_twin(blocks: &Vec<SchedBlock>, k: usize) -> (r: Option<usize>)
    requires
        1 <= k < blocks@.len(),
    ensures
        match r {
            Some(j) => j < k && twin_of(blocks@, k as int, 1) == Some(j as int),
            None => twin_of(blocks@, k as int, 1) is None,
        },
{
    let mut j: usize = 1;
    while j < k
        invariant
            1 <= j <= k < blocks@.len(),
            twin_of(blocks@, k as int, 1) == twin_of(blocks@, k as int, j as int),
        decreases k - j,
    {
        if is_same_return(&blocks[k], &blocks[j]) {
            return Some(j);
        }
        j = j + 1;
    }
    None
}

/// Point every edge to a returning block at the first one that does the same. One hop is
/// enough: what stands in for others has none that stands in for it.
pub fn merge_identical_returns(blocks: &mut Vec<SchedBlock>)
    ensures
        all_retargeted(
            merged(old(blocks)@, old(blocks)@.len() as int),
            1,
            old(blocks)@,
            final(blocks)@,
        ),
{
    let mut map: Vec<(BlockId, BlockId)> = Vec::new();
    let mut k: usize = 1;
    while k < blocks.len()
        invariant
            1 <= k,
            k <= blocks@.len() || (k == 1 && blocks@.len() == 0),
            blocks@ == old(blocks)@,
            map@ == merged(blocks@, k as int),
        decreases blocks@.len() - k,
    {
        if let Some(j) = find_twin(blocks, k) {
            put_entry(&mut map, blocks[k].id, blocks[j].id);
        }
        k = k + 1;
    }
    proof {
        assert(map@ == merged(blocks@, blocks@.len() as int));
    }
    retarget_all(&map, 1, blocks);
}

/// The last scheduled block with an identity.
pub open spec fn last_with(blocks: Seq<SchedBlock>, id: BlockId, k: int) -> Option<int>
    decreases k,
{
    if k <= 0 {
        None
    } else if blocks[k - 1].id == id {
        Some(k - 1)
    } else {
        last_with(blocks, id, k - 1)
    }
}

/// Whether scheduled block `i` leads to block `j`.
pub open spec fn leads_to(blocks: Seq<SchedBlock>, i: int, j: int) -> bool {
    match last_with(blocks, blocks[i].id, blocks.len() as int) {
        Some(k) => successors_spec(blocks[k].terminator).contains(blocks[j].id),
        None => false,
    }
}

pub open spec fn sched_edges(blocks: Seq<SchedBlock>) -> spec_fn(int, int) -> bool {
    |i: int, j: int| leads_to(blocks, i, j)
}

pub open spec fn every_sched(blocks: Seq<SchedBlock>) -> spec_fn(int) -> bool {
    |i: int| 0 <= i < blocks.len()
}

pub open spec fn first_sched(blocks: Seq<SchedBlock>) -> spec_fn(int) -> bool {
    |i: int| blocks[i].id == blocks[0].id
}

/// Whether scheduled block `i` is reached from the entry, which is the first block.
pub open spec fn is_reached(blocks: Seq<SchedBlock>, i: int) -> bool {
    led_to(sched_edges(blocks), every_sched(blocks), first_sched(blocks), i)
}

/// Those of the first `k` blocks that a predicate picks.
pub open spec fn blocks_where(blocks: Seq<SchedBlock>, p: spec_fn(int) -> bool, k: int) -> Seq<
    SchedBlock,
>
    decreases k,
{
    if k <= 0 {
        Seq::empty()
    } else if p(k - 1) {
        blocks_where(blocks, p, k - 1).push(blocks[k - 1])
    } else {
        blocks_where(blocks, p, k - 1)
    }
}

pub open spec fn reached(blocks: Seq<SchedBlock>) -> spec_fn(int) -> bool {
    |i: int| is_reached(blocks, i)
}

fn find_last_sched(blocks: &Vec<SchedBlock>, id: BlockId) -> (r: Option<usize>)
    ensures
        match r {
            Some(k) => k < blocks@.len() && last_with(blocks@, id, blocks@.len() as int) == Some(
                k as int,
            ),
            None => last_with(blocks@, id, blocks@.len() as int) is None,
        },
{
    let mut k: usize = blocks.len();
    while k > 0
        invariant
            k <= blocks@.len(),
            last_with(blocks@, id, blocks@.len() as int) == last_with(blocks@, id, k as int),
        decreases k,
    {
        if blocks[k - 1].id == id {
            return Some(k - 1);
        }
        k = k - 1;
    }
    None
}

fn sched_row(blocks: &Vec<SchedBlock>, wanted: &Vec<BlockId>) -> (row: Vec<usize>)
    ensures
        forall|k: int| 0 <= k < row@.len() ==> #[trigger] row@[k] < blocks@.len(),
        forall|j: int|
            0 <= j < blocks@.len() ==> (#[trigger] row@.contains(j as usize) <==> wanted@.contains(
                blocks@[j].id,
            )),
{
    let mut row: Vec<usize> = Vec::new();
    let mut j: usize = 0;
    while j < blocks.len()
        invariant
            j <= blocks@.len(),
            forall|k: int| 0 <= k < row@.len() ==> #[trigger] row@[k] < j,
            forall|i: int|
                0 <= i < j ==> (#[trigger] row@.contains(i as usize) <==> wanted@.contains(
                    blocks@[i].id,
                )),
        decreases blocks@.len() - j,
    {
        let ghost before = row@;
        if crate::vm::reach::contains_id(wanted, blocks[j].id) {
            row.push(j);
            proof {
                crate::ir::walk::lemma_push_contains(before, j);
            }
        }
        proof {
            assert(!before.contains(j));
        }
        j = j + 1;
    }
    row
}

fn sched_lists(blocks: &Vec<SchedBlock>) -> (succ: Vec<Vec<usize>>)
    ensures
        succ@.len() == blocks@.len(),
        lists(succ@, sched_edges(blocks@)),
{
    let mut succ: Vec<Vec<usize>> = Vec::new();
    let ghost r = sched_edges(blocks@);
    while succ.len() < blocks.len()
        invariant
            succ@.len() <= blocks@.len(),
            r == sched_edges(blocks@),
            forall|a: int, k: int|
                0 <= a < succ@.len() && 0 <= k < succ@[a]@.len() ==> #[trigger] succ@[a]@[k]
                    < blocks@.len(),
            forall|a: int, b: int|
                0 <= a < succ@.len() && 0 <= b < blocks@.len() ==> (
                #[trigger] succ@[a]@.contains(b as usize) <==> r(a, b)),
        decreases blocks@.len() - succ@.len(),
    {
        let i: usize = succ.len();
        let ghost before = succ@;
        let out: Vec<BlockId> = match find_last_sched(blocks, blocks[i].id) {
            Some(k) => successors_of(&blocks[k].terminator),
            None => Vec::new(),
        };
        let row = sched_row(blocks, &out);
        succ.push(row);
        proof {
            assert forall|a: int, b: int| 0 <= a < succ@.len() && 0 <= b < blocks@.len() implies (
            #[trigger] succ@[a]@.contains(b as usize) <==> r(a, b)) by {
                if a < i {
                    assert(succ@[a] == before[a]);
                    assert(before[a]@.contains(b as usize) <==> r(a, b));
                } else {
                    assert(succ@[a]@ == row@);
                    assert(row@.contains(b as usize) <==> out@.contains(blocks@[b].id));
                }
            }
            assert forall|a: int, k: int|
                0 <= a < succ@.len() && 0 <= k < succ@[a]@.len() implies #[trigger] succ@[a]@[k]
                < blocks@.len() by {
                if a < i {
                    assert(succ@[a] == before[a]);
                }
            }
        }
    }
    succ
}

/// Drop blocks no longer reachable from the entry. [`thread_empty_jumps`] points edges past
/// blocks that do nothing, which leaves those blocks with no predecessors. The entry is
/// always kept.
pub fn drop_unreachable(blocks: Vec<SchedBlock>) -> (out: Vec<SchedBlock>)
    ensures
        out@ == blocks_where(blocks@, reached(blocks@), blocks@.len() as int),
{
    let ghost all = blocks@;
    let ghost f = reached(all);
    let succ = sched_lists(&blocks);
    let mut mask: Vec<bool> = Vec::new();
    let mut seeds: Vec<bool> = Vec::new();
    while mask.len() < blocks.len()
        invariant
            mask@.len() <= blocks@.len(),
            seeds@.len() == mask@.len(),
            forall|i: int| 0 <= i < mask@.len() ==> #[trigger] mask@[i],
            forall|i: int|
                0 <= i < seeds@.len() ==> #[trigger] seeds@[i] == (blocks@[i].id == blocks@[0].id),
        decreases blocks@.len() - mask@.len(),
    {
        let k: usize = mask.len();
        mask.push(true);
        seeds.push(blocks[k].id == blocks[0].id);
    }
    let marks = closure(
        &succ,
        &mask,
        &seeds,
        Ghost(sched_edges(all)),
        Ghost(every_sched(all)),
        Ghost(first_sched(all)),
    );
    let n: usize = marks.len();
    let mut rest = blocks;
    let mut out: Vec<SchedBlock> = Vec::new();
    let mut k: usize = 0;
    proof {
        assert(all.skip(0) =~= all);
    }
    while rest.len() > 0
        invariant
            k <= n == all.len() == marks@.len(),
            rest@ == all.skip(k as int),
            f == reached(all),
            forall|i: int| 0 <= i < marks@.len() ==> #[trigger] marks@[i] == f(i),
            out@ == blocks_where(all, f, k as int),
        decreases rest@.len(),
    {
        proof {
            assert(rest@[0] == all[k as int]);
        }
        let b = rest.remove(0);
        proof {
            assert(rest@ =~= all.skip(k + 1));
        }
        if marks[k] {
            out.push(b);
        }
        k = k + 1;
    }
    out
}

/// The entry is never dropped.
pub proof fn the_entry_is_reached(blocks: Seq<SchedBlock>)
    requires
        blocks.len() > 0,
    ensures
        is_reached(blocks, 0),
{
    let p = seq![0int];
    assert(crate::ir::closure::is_walk(sched_edges(blocks), every_sched(blocks), p));
    assert(p[0] == 0);
}

/// What a reached block leads to is reached.
pub proof fn reached_blocks_lead_to_reached_ones(blocks: Seq<SchedBlock>, i: int, j: int)
    requires
        0 <= i < blocks.len(),
        0 <= j < blocks.len(),
        is_reached(blocks, i),
        leads_to(blocks, i, j),
    ensures
        is_reached(blocks, j),
{
    crate::ir::closure::lemma_walk_push(
        sched_edges(blocks),
        every_sched(blocks),
        first_sched(blocks),
        i,
        j,
    );
}

} // verus!
