//! Which blocks of a recovered graph lead where: reachability, exits and dominators.

use crate::ir::closure::{closure, is_walk, led_to, lists, marked, related};
use crate::ir::event::Event;
use crate::ir::expr::{Arena, Node, Op, Ref};
use crate::ir::flow::{find_last, ids, last_index, lemma_last_index, successors_of, successors_spec};
use crate::ir::graph::{Block, BlockId, Cfg, Terminator};
use crate::ir::value::Reg;
use vstd::prelude::*;

verus! {

/// How far from the initial stack pointer a constant still names the frame.
pub const FRAME_WINDOW: u64 = 0x10000;

/// How deep an address is searched for the stack pointer.
pub const FRAME_DEPTH: u32 = 32;

/// Whether an identity is in a list.
pub fn contains_id(v: &Vec<BlockId>, id: BlockId) -> (b: bool)
    ensures
        b == v@.contains(id),
{
    let mut i: usize = 0;
    while i < v.len()
        invariant
            i <= v@.len(),
            forall|k: int| 0 <= k < i ==> #[trigger] v@[k] != id,
        decreases v@.len() - i,
    {
        if v[i] == id {
            assert(v@[i as int] == id);
            return true;
        }
        i = i + 1;
    }
    false
}

/// The last block with the identity of block `i`: the one that stands for it.
pub open spec fn home(blocks: Seq<Block>, i: int) -> int {
    match last_index(ids(blocks), blocks[i].id) {
        Some(k) => k,
        None => i,
    }
}

/// An identity that is there has a last place.
pub proof fn lemma_known(all: Seq<BlockId>, id: BlockId, i: int)
    requires
        0 <= i < all.len(),
        all[i] == id,
    ensures
        last_index(all, id) is Some,
    decreases all.len(),
{
    if all.last() != id {
        lemma_known(all.drop_last(), id, i);
    }
}

proof fn lemma_home(blocks: Seq<Block>, i: int)
    requires
        0 <= i < blocks.len(),
    ensures
        0 <= home(blocks, i) < blocks.len(),
        blocks[home(blocks, i)].id == blocks[i].id,
        last_index(ids(blocks), blocks[i].id) == Some(home(blocks, i)),
{
    assert(ids(blocks)[i] == blocks[i].id);
    lemma_known(ids(blocks), blocks[i].id, i);
    lemma_last_index(ids(blocks), blocks[i].id);
}

/// Whether block `i` leads to block `j`.
pub open spec fn flows(blocks: Seq<Block>, i: int, j: int) -> bool {
    successors_spec(blocks[home(blocks, i)].terminator).contains(blocks[j].id)
}

/// Whether some block with the identity of block `j` leads to block `i`.
pub open spec fn comes_from(blocks: Seq<Block>, i: int, j: int) -> bool {
    exists|k: int|
        0 <= k < blocks.len() && (#[trigger] blocks[k]).id == blocks[j].id && successors_spec(
            blocks[k].terminator,
        ).contains(blocks[i].id)
}

/// Whether a terminator leaves the function.
pub open spec fn is_exit(t: Terminator) -> bool {
    t is Return || t is AdoptedReturn || t is TailCall || t is Unresolved
}

/// Whether some block with the identity of block `i` leaves the function.
pub open spec fn exits(blocks: Seq<Block>, i: int) -> bool {
    exists|k: int|
        0 <= k < blocks.len() && (#[trigger] blocks[k]).id == blocks[i].id && is_exit(
            blocks[k].terminator,
        )
}

pub open spec fn flow_edges(blocks: Seq<Block>) -> spec_fn(int, int) -> bool {
    |i: int, j: int| flows(blocks, i, j)
}

pub open spec fn back_flow(blocks: Seq<Block>) -> spec_fn(int, int) -> bool {
    |i: int, j: int| comes_from(blocks, i, j)
}

pub open spec fn every_block(blocks: Seq<Block>) -> spec_fn(int) -> bool {
    |i: int| 0 <= i < blocks.len()
}

pub open spec fn entry_blocks(blocks: Seq<Block>, entry: BlockId) -> spec_fn(int) -> bool {
    |i: int| blocks[i].id == entry
}

pub open spec fn exit_blocks(blocks: Seq<Block>) -> spec_fn(int) -> bool {
    |i: int| exits(blocks, i)
}

/// Whether block `i` can be reached from the entry.
pub open spec fn reachable(blocks: Seq<Block>, entry: BlockId, i: int) -> bool {
    led_to(flow_edges(blocks), every_block(blocks), entry_blocks(blocks, entry), i)
}

/// Whether block `i` can reach a terminator that leaves the function.
pub open spec fn can_exit(blocks: Seq<Block>, i: int) -> bool {
    led_to(back_flow(blocks), every_block(blocks), exit_blocks(blocks), i)
}

/// Whether block `i` can be reached, but never gets out.
pub open spec fn exitless(blocks: Seq<Block>, entry: BlockId, i: int) -> bool {
    0 <= i < blocks.len() && reachable(blocks, entry, i) && !can_exit(blocks, i)
}

/// Whether an address is built from the stack pointer, or from a constant near where it
/// started.
pub open spec fn frame_rooted_spec(ns: Seq<Node>, r: Ref, depth: nat, base: u64) -> bool
    decreases depth,
{
    if depth == 0 {
        false
    } else {
        let d = (depth - 1) as nat;
        match ns[r.idx as int].op {
            Op::Const(c) => -FRAME_WINDOW <= c - base <= FRAME_WINDOW,
            Op::InitReg(reg) => reg == Reg::Rsp || reg == Reg::Rbp,
            Op::Param(_, reg) => reg == Reg::Rsp || reg == Reg::Rbp,
            Op::Bin(_, a, b) => frame_rooted_spec(ns, a, d, base) || frame_rooted_spec(
                ns,
                b,
                d,
                base,
            ),
            Op::Un(_, a) => frame_rooted_spec(ns, a, d, base),
            Op::Zext(a) => frame_rooted_spec(ns, a, d, base),
            Op::Sext(a) => frame_rooted_spec(ns, a, d, base),
            Op::Trunc(a) => frame_rooted_spec(ns, a, d, base),
            Op::Select(_, a, b) => frame_rooted_spec(ns, a, d, base) || frame_rooted_spec(
                ns,
                b,
                d,
                base,
            ),
            _ => false,
        }
    }
}

/// Whether an address is built from the stack pointer.
pub fn frame_rooted(arena: &Arena, r: Ref, depth: u32, base: u64) -> (b: bool)
    requires
        arena.wf(),
        arena.holds(r),
    ensures
        b == frame_rooted_spec(arena.nodes@, r, depth as nat, base),
    decreases depth,
{
    if depth == 0 {
        return false;
    }
    proof {
        assert(crate::ir::expr::ok_at(arena.nodes@, r.idx as int));
    }
    match *arena.op(r) {
        Op::Const(c) => if c >= base {
            c - base <= FRAME_WINDOW
        } else {
            base - c <= FRAME_WINDOW
        },
        Op::InitReg(reg) => reg == Reg::Rsp || reg == Reg::Rbp,
        Op::Param(_, reg) => reg == Reg::Rsp || reg == Reg::Rbp,
        Op::Bin(_, a, b) => frame_rooted(arena, a, depth - 1, base) || frame_rooted(
            arena,
            b,
            depth - 1,
            base,
        ),
        Op::Un(_, a) => frame_rooted(arena, a, depth - 1, base),
        Op::Zext(a) => frame_rooted(arena, a, depth - 1, base),
        Op::Sext(a) => frame_rooted(arena, a, depth - 1, base),
        Op::Trunc(a) => frame_rooted(arena, a, depth - 1, base),
        Op::Select(_, a, b) => frame_rooted(arena, a, depth - 1, base) || frame_rooted(
            arena,
            b,
            depth - 1,
            base,
        ),
        _ => false,
    }
}

/// Whether an event observes something the block did not compute itself.
pub open spec fn polls_event(ns: Seq<Node>, base: u64, e: Event) -> bool {
    match e {
        Event::Load { addr, region, .. } => region == crate::ir::event::Region::Guest
            && !frame_rooted_spec(ns, addr, FRAME_DEPTH as nat, base),
        Event::Call { .. } | Event::Boxed { .. } => true,
        Event::Store { .. } => false,
    }
}

/// Whether a block observes something it did not compute itself: a guest load outside the
/// frame, a call, or an instruction left to the processor.
pub open spec fn polls(ns: Seq<Node>, base: u64, b: Block) -> bool {
    exists|k: int| 0 <= k < b.events@.len() && polls_event(ns, base, #[trigger] b.events@[k])
}

fn block_polls(cfg: &Cfg, at: usize) -> (r: bool)
    requires
        cfg.arena.wf(),
        at < cfg.blocks@.len(),
        crate::ir::lower::block_held(cfg.arena.nodes@, cfg.blocks@[at as int]),
    ensures
        r == polls(cfg.arena.nodes@, cfg.stack_base, cfg.blocks@[at as int]),
{
    let b = &cfg.blocks[at];
    let ghost ns = cfg.arena.nodes@;
    let mut k: usize = 0;
    while k < b.events.len()
        invariant
            k <= b.events@.len(),
            at < cfg.blocks@.len(),
            *b == cfg.blocks@[at as int],
            cfg.arena.wf(),
            ns == cfg.arena.nodes@,
            crate::ir::lower::block_held(ns, *b),
            forall|j: int|
                0 <= j < k ==> !polls_event(ns, cfg.stack_base, #[trigger] b.events@[j]),
        decreases b.events@.len() - k,
    {
        proof {
            assert(crate::ir::lower::event_held(ns, b.events@[k as int]));
        }
        let hit: bool = match &b.events[k] {
            Event::Load { addr, region, .. } => region.is_guest() && !frame_rooted(
                &cfg.arena,
                *addr,
                FRAME_DEPTH,
                cfg.stack_base,
            ),
            Event::Call { .. } => true,
            Event::Boxed { .. } => true,
            Event::Store { .. } => false,
        };
        if hit {
            assert(polls_event(ns, cfg.stack_base, b.events@[k as int]));
            return true;
        }
        k = k + 1;
    }
    false
}

/// The blocks whose identity is in a list.
fn index_row(blocks: &Vec<Block>, wanted: &Vec<BlockId>) -> (row: Vec<usize>)
    ensures
        forall|k: int| 0 <= k < row@.len() ==> #[trigger] row@[k] < blocks@.len(),
        forall|j: int|
            0 <= j < blocks@.len() ==> (#[trigger] row@.contains(j as usize) <==> wanted@.contains(
                blocks@[j].id,
            )),
{
    let mut row: Vec<usize> = Vec::new();
    let mut j: usize = 0;
    while j < blocks.len()
        invariant
            j <= blocks@.len(),
            forall|k: int| 0 <= k < row@.len() ==> #[trigger] row@[k] < j,
            forall|i: int|
                0 <= i < j ==> (#[trigger] row@.contains(i as usize) <==> wanted@.contains(
                    blocks@[i].id,
                )),
        decreases blocks@.len() - j,
    {
        let ghost before = row@;
        if contains_id(wanted, blocks[j].id) {
            row.push(j);
            proof {
                crate::ir::walk::lemma_push_contains(before, j);
            }
        }
        proof {
            assert(!before.contains(j));
        }
        j = j + 1;
    }
    row
}

/// Who leads where, as lists of block numbers.
fn flow_lists(blocks: &Vec<Block>) -> (succ: Vec<Vec<usize>>)
    ensures
        succ@.len() == blocks@.len(),
        lists(succ@, flow_edges(blocks@)),
{
    let mut succ: Vec<Vec<usize>> = Vec::new();
    let mut i: usize = 0;
    let ghost r = flow_edges(blocks@);
    while i < blocks.len()
        invariant
            i <= blocks@.len(),
            succ@.len() == i,
            r == flow_edges(blocks@),
            forall|a: int, k: int|
                0 <= a < i && 0 <= k < succ@[a]@.len() ==> #[trigger] succ@[a]@[k] < blocks@.len(),
            forall|a: int, b: int|
                0 <= a < i && 0 <= b < blocks@.len() ==> (#[trigger] succ@[a]@.contains(b as usize)
                    <==> r(a, b)),
        decreases blocks@.len() - i,
    {
        let ghost before = succ@;
        proof {
            lemma_home(blocks@, i as int);
        }
        let at: usize = match find_last(blocks, blocks[i].id) {
            Some(k) => k,
            None => i,
        };
        let out = successors_of(&blocks[at].terminator);
        let row = index_row(blocks, &out);
        succ.push(row);
        proof {
            assert forall|a: int, b: int| 0 <= a < i + 1 && 0 <= b < blocks@.len() implies (
            #[trigger] succ@[a]@.contains(b as usize) <==> r(a, b)) by {
                if a < i {
                    assert(succ@[a] == before[a]);
                    assert(before[a]@.contains(b as usize) <==> r(a, b));
                } else {
                    assert(succ@[a]@ == row@);
                    assert(row@.contains(b as usize) <==> out@.contains(blocks@[b].id));
                }
            }
            assert forall|a: int, k: int|
                0 <= a < i + 1 && 0 <= k < succ@[a]@.len() implies #[trigger] succ@[a]@[k]
                < blocks@.len() by {
                if a < i {
                    assert(succ@[a] == before[a]);
                }
            }
        }
        i = i + 1;
    }
    succ
}

/// The identities of the blocks that lead to an identity.
fn callers(blocks: &Vec<Block>, id: BlockId) -> (v: Vec<BlockId>)
    ensures
        forall|x: BlockId| #[trigger]
            v@.contains(x) <==> exists|k: int|
                0 <= k < blocks@.len() && (#[trigger] blocks@[k]).id == x && successors_spec(
                    blocks@[k].terminator,
                ).contains(id),
{
    let mut v: Vec<BlockId> = Vec::new();
    let mut k: usize = 0;
    while k < blocks.len()
        invariant
            k <= blocks@.len(),
            forall|x: BlockId| #[trigger]
                v@.contains(x) <==> exists|j: int|
                    0 <= j < k && (#[trigger] blocks@[j]).id == x && successors_spec(
                        blocks@[j].terminator,
                    ).contains(id),
        decreases blocks@.len() - k,
    {
        let ghost before = v@;
        let out = successors_of(&blocks[k].terminator);
        let ghost bid = blocks@[k as int].id;
        if contains_id(&out, id) {
            v.push(blocks[k].id);
            proof {
                crate::ir::walk::lemma_push_contains(before, bid);
            }
        }
        proof {
            assert forall|x: BlockId| #[trigger]
                v@.contains(x) <==> exists|j: int|
                    0 <= j < k + 1 && (#[trigger] blocks@[j]).id == x && successors_spec(
                        blocks@[j].terminator,
                    ).contains(id) by {
                if before.contains(x) {
                    let j = choose|j: int|
                        0 <= j < k && (#[trigger] blocks@[j]).id == x && successors_spec(
                            blocks@[j].terminator,
                        ).contains(id);
                    assert(blocks@[j].id == x);
                }
            }
        }
        k = k + 1;
    }
    v
}

/// Who is led to by whom, as lists of block numbers.
fn back_lists(blocks: &Vec<Block>) -> (succ: Vec<Vec<usize>>)
    ensures
        succ@.len() == blocks@.len(),
        lists(succ@, back_flow(blocks@)),
{
    let mut succ: Vec<Vec<usize>> = Vec::new();
    let mut i: usize = 0;
    let ghost r = back_flow(blocks@);
    while i < blocks.len()
        invariant
            i <= blocks@.len(),
            succ@.len() == i,
            r == back_flow(blocks@),
            forall|a: int, k: int|
                0 <= a < i && 0 <= k < succ@[a]@.len() ==> #[trigger] succ@[a]@[k] < blocks@.len(),
            forall|a: int, b: int|
                0 <= a < i && 0 <= b < blocks@.len() ==> (#[trigger] succ@[a]@.contains(b as usize)
                    <==> r(a, b)),
        decreases blocks@.len() - i,
    {
        let ghost before = succ@;
        let from = callers(blocks, blocks[i].id);
        let row = index_row(blocks, &from);
        succ.push(row);
        proof {
            assert forall|a: int, b: int| 0 <= a < i + 1 && 0 <= b < blocks@.len() implies (
            #[trigger] succ@[a]@.contains(b as usize) <==> r(a, b)) by {
                if a < i {
                    assert(succ@[a] == before[a]);
                    assert(before[a]@.contains(b as usize) <==> r(a, b));
                } else {
                    assert(succ@[a]@ == row@);
                    assert(row@.contains(b as usize) <==> from@.contains(blocks@[b].id));
                    assert(comes_from(blocks@, a, b) <==> from@.contains(blocks@[b].id));
                }
            }
            assert forall|a: int, k: int|
                0 <= a < i + 1 && 0 <= k < succ@[a]@.len() implies #[trigger] succ@[a]@[k]
                < blocks@.len() by {
                if a < i {
                    assert(succ@[a] == before[a]);
                }
            }
        }
        i = i + 1;
    }
    succ
}

fn all_true(n: usize) -> (v: Vec<bool>)
    ensures
        v@.len() == n,
        forall|i: int| 0 <= i < n ==> #[trigger] v@[i],
{
    let mut v: Vec<bool> = Vec::new();
    while v.len() < n
        invariant
            v@.len() <= n,
            forall|i: int| 0 <= i < v@.len() ==> #[trigger] v@[i],
        decreases n - v@.len(),
    {
        v.push(true);
    }
    v
}

/// Which blocks can be reached from the entry.
pub fn reachable_blocks(blocks: &Vec<Block>, entry: BlockId) -> (marks: Vec<bool>)
    ensures
        marks@.len() == blocks@.len(),
        forall|i: int|
            0 <= i < blocks@.len() ==> #[trigger] marks@[i] == reachable(blocks@, entry, i),
{
    let succ = flow_lists(blocks);
    let mask = all_true(blocks.len());
    let mut seeds: Vec<bool> = Vec::new();
    let ghost f = entry_blocks(blocks@, entry);
    while seeds.len() < blocks.len()
        invariant
            seeds@.len() <= blocks@.len(),
            f == entry_blocks(blocks@, entry),
            forall|i: int| 0 <= i < seeds@.len() ==> #[trigger] seeds@[i] == f(i),
        decreases blocks@.len() - seeds@.len(),
    {
        let at: usize = seeds.len();
        seeds.push(blocks[at].id == entry);
    }
    closure(
        &succ,
        &mask,
        &seeds,
        Ghost(flow_edges(blocks@)),
        Ghost(every_block(blocks@)),
        Ghost(f),
    )
}

/// Whether some block with the identity of block `i` leaves the function.
fn block_exits(blocks: &Vec<Block>, id: BlockId) -> (b: bool)
    ensures
        b == exists|k: int|
            0 <= k < blocks@.len() && (#[trigger] blocks@[k]).id == id && is_exit(
                blocks@[k].terminator,
            ),
{
    let mut k: usize = 0;
    while k < blocks.len()
        invariant
            k <= blocks@.len(),
            forall|j: int|
                0 <= j < k ==> !((#[trigger] blocks@[j]).id == id && is_exit(blocks@[j].terminator)),
        decreases blocks@.len() - k,
    {
        let leaves: bool = match &blocks[k].terminator {
            Terminator::Return { .. } => true,
            Terminator::AdoptedReturn => true,
            Terminator::TailCall { .. } => true,
            Terminator::Unresolved { .. } => true,
            _ => false,
        };
        if leaves && blocks[k].id == id {
            assert(blocks@[k as int].id == id);
            return true;
        }
        k = k + 1;
    }
    false
}

/// Which blocks can reach a terminator that leaves the function.
fn exiting_blocks(blocks: &Vec<Block>) -> (marks: Vec<bool>)
    ensures
        marks@.len() == blocks@.len(),
        forall|i: int| 0 <= i < blocks@.len() ==> #[trigger] marks@[i] == can_exit(blocks@, i),
{
    let succ = back_lists(blocks);
    let mask = all_true(blocks.len());
    let mut seeds: Vec<bool> = Vec::new();
    let ghost f = exit_blocks(blocks@);
    while seeds.len() < blocks.len()
        invariant
            seeds@.len() <= blocks@.len(),
            f == exit_blocks(blocks@),
            forall|i: int| 0 <= i < seeds@.len() ==> #[trigger] seeds@[i] == f(i),
        decreases blocks@.len() - seeds@.len(),
    {
        let at: usize = seeds.len();
        seeds.push(block_exits(blocks, blocks[at].id));
    }
    closure(
        &succ,
        &mask,
        &seeds,
        Ghost(back_flow(blocks@)),
        Ghost(every_block(blocks@)),
        Ghost(f),
    )
}

pub open spec fn exitless_blocks(blocks: Seq<Block>, entry: BlockId) -> spec_fn(int) -> bool {
    |i: int| exitless(blocks, entry, i)
}

pub open spec fn polling_blocks(cfg: Cfg) -> spec_fn(int) -> bool {
    |i: int| polls(cfg.arena.nodes@, cfg.stack_base, cfg.blocks@[home(cfg.blocks@, i)])
}

/// Whether block `i` sits on, or only leads to, a cycle that polls memory it does not own.
pub open spec fn excused(cfg: Cfg, i: int) -> bool {
    led_to(
        back_flow(cfg.blocks@),
        exitless_blocks(cfg.blocks@, cfg.entry),
        polling_blocks(cfg),
        i,
    )
}

/// Whether block `i` can be reached, never gets out, and waits for nothing either.
pub open spec fn stuck(cfg: Cfg, i: int) -> bool {
    exitless(cfg.blocks@, cfg.entry, i) && !excused(cfg, i)
}

/// Whether every reference of the blocks is to a node.
pub open spec fn blocks_held(ns: Seq<Node>, blocks: Seq<Block>) -> bool {
    forall|k: int|
        0 <= k < blocks.len() ==> crate::ir::lower::block_held(ns, #[trigger] blocks[k])
}

/// Blocks that sit on, or only lead to, a cycle that polls memory it does not own. A cycle
/// with no exit is only a hang if it computes the same thing forever.
pub fn polling_cycle_blocks(cfg: &Cfg, exitless: &Vec<bool>) -> (marks: Vec<bool>)
    requires
        cfg.arena.wf(),
        blocks_held(cfg.arena.nodes@, cfg.blocks@),
        exitless@.len() == cfg.blocks@.len(),
        forall|i: int|
            0 <= i < exitless@.len() ==> #[trigger] exitless@[i] == self::exitless(
                cfg.blocks@,
                cfg.entry,
                i,
            ),
    ensures
        marks@.len() == cfg.blocks@.len(),
        forall|i: int| 0 <= i < marks@.len() ==> #[trigger] marks@[i] == excused(*cfg, i),
{
    let succ = back_lists(&cfg.blocks);
    let mut seeds: Vec<bool> = Vec::new();
    let ghost f = polling_blocks(*cfg);
    while seeds.len() < cfg.blocks.len()
        invariant
            cfg.arena.wf(),
            blocks_held(cfg.arena.nodes@, cfg.blocks@),
            seeds@.len() <= cfg.blocks@.len(),
            f == polling_blocks(*cfg),
            forall|i: int| 0 <= i < seeds@.len() ==> #[trigger] seeds@[i] == f(i),
        decreases cfg.blocks@.len() - seeds@.len(),
    {
        let at: usize = seeds.len();
        proof {
            lemma_home(cfg.blocks@, at as int);
        }
        let stands: usize = match find_last(&cfg.blocks, cfg.blocks[at].id) {
            Some(k) => k,
            None => at,
        };
        proof {
            assert(crate::ir::lower::block_held(
                cfg.arena.nodes@,
                cfg.blocks@[stands as int],
            ));
        }
        seeds.push(block_polls(cfg, stands));
    }
    closure(
        &succ,
        exitless,
        &seeds,
        Ghost(back_flow(cfg.blocks@)),
        Ghost(exitless_blocks(cfg.blocks@, cfg.entry)),
        Ghost(f),
    )
}

/// Which blocks can be reached, never get out, and wait for nothing either.
pub fn stuck_blocks(cfg: &Cfg) -> (marks: Vec<bool>)
    requires
        cfg.arena.wf(),
        blocks_held(cfg.arena.nodes@, cfg.blocks@),
    ensures
        marks@.len() == cfg.blocks@.len(),
        forall|i: int| 0 <= i < marks@.len() ==> #[trigger] marks@[i] == stuck(*cfg, i),
{
    let reach = reachable_blocks(&cfg.blocks, cfg.entry);
    let out = exiting_blocks(&cfg.blocks);
    let mut lost: Vec<bool> = Vec::new();
    while lost.len() < cfg.blocks.len()
        invariant
            lost@.len() <= cfg.blocks@.len() == reach@.len() == out@.len(),
            forall|i: int|
                0 <= i < cfg.blocks@.len() ==> #[trigger] reach@[i] == reachable(
                    cfg.blocks@,
                    cfg.entry,
                    i,
                ),
            forall|i: int|
                0 <= i < cfg.blocks@.len() ==> #[trigger] out@[i] == can_exit(cfg.blocks@, i),
            forall|i: int|
                0 <= i < lost@.len() ==> #[trigger] lost@[i] == exitless(
                    cfg.blocks@,
                    cfg.entry,
                    i,
                ),
        decreases cfg.blocks@.len() - lost@.len(),
    {
        let at: usize = lost.len();
        lost.push(reach[at] && !out[at]);
    }
    let waits = polling_cycle_blocks(cfg, &lost);
    let mut marks: Vec<bool> = Vec::new();
    while marks.len() < lost.len()
        invariant
            marks@.len() <= lost@.len() == waits@.len() == cfg.blocks@.len(),
            forall|i: int|
                0 <= i < lost@.len() ==> #[trigger] lost@[i] == exitless(
                    cfg.blocks@,
                    cfg.entry,
                    i,
                ),
            forall|i: int| 0 <= i < waits@.len() ==> #[trigger] waits@[i] == excused(*cfg, i),
            forall|i: int| 0 <= i < marks@.len() ==> #[trigger] marks@[i] == stuck(*cfg, i),
        decreases lost@.len() - marks@.len(),
    {
        let at: usize = marks.len();
        marks.push(lost[at] && !waits[at]);
    }
    marks
}

/// Whether block `a` is a recovered predecessor of block `b`, which is not the entry.
pub open spec fn precedes(blocks: Seq<Block>, entry: BlockId, a: int, b: int) -> bool {
    blocks[b].id != entry && exists|k: int|
        0 <= k < blocks[b].preds@.len() && last_index(ids(blocks), #[trigger] blocks[b].preds@[k])
            == Some(a)
}

/// Whether a walk backwards from block `i` ends there: it is the entry, or none of its
/// predecessors was recovered.
pub open spec fn is_root(blocks: Seq<Block>, entry: BlockId, i: int) -> bool {
    blocks[i].id == entry || forall|k: int|
        0 <= k < blocks[i].preds@.len() ==> last_index(
            ids(blocks),
            #[trigger] blocks[i].preds@[k],
        ) is None
}

pub open spec fn entry_edges(blocks: Seq<Block>, entry: BlockId) -> spec_fn(int, int) -> bool {
    |a: int, b: int| precedes(blocks, entry, a, b)
}

pub open spec fn root_blocks(blocks: Seq<Block>, entry: BlockId) -> spec_fn(int) -> bool {
    |i: int| is_root(blocks, entry, i)
}

pub open spec fn all_but(blocks: Seq<Block>, j: int) -> spec_fn(int) -> bool {
    |i: int| 0 <= i < blocks.len() && i != j
}

/// Whether every way from a root to block `i` goes through block `j`.
pub open spec fn dominates(blocks: Seq<Block>, entry: BlockId, j: int, i: int) -> bool {
    forall|p: Seq<int>| #[trigger]
        is_walk(entry_edges(blocks, entry), every_block(blocks), p) && is_root(
            blocks,
            entry,
            p[0],
        ) && p.last() == i ==> p.contains(j)
}

/// To avoid a block on the way is not to be dominated by it.
proof fn lemma_dominates(blocks: Seq<Block>, entry: BlockId, j: int, i: int)
    ensures
        dominates(blocks, entry, j, i) == !led_to(
            entry_edges(blocks, entry),
            all_but(blocks, j),
            root_blocks(blocks, entry),
            i,
        ),
{
    let r = entry_edges(blocks, entry);
    let open = all_but(blocks, j);
    let every = every_block(blocks);
    if led_to(r, open, root_blocks(blocks, entry), i) {
        let p = choose|p: Seq<int>| #[trigger]
            is_walk(r, open, p) && (root_blocks(blocks, entry))(p[0]) && p.last() == i;
        assert(is_walk(r, every, p)) by {
            assert forall|k: int| 0 <= k < p.len() implies every(#[trigger] p[k]) by {
                assert(open(p[k]));
            }
        }
        assert(!p.contains(j)) by {
            if p.contains(j) {
                let k = choose|k: int| 0 <= k < p.len() && p[k] == j;
                assert(open(p[k]));
            }
        }
    } else {
        assert forall|p: Seq<int>| #[trigger]
            is_walk(r, every, p) && is_root(blocks, entry, p[0]) && p.last()
                == i implies p.contains(j) by {
            if !p.contains(j) {
                assert forall|k: int| 0 <= k < p.len() implies open(#[trigger] p[k]) by {
                    assert(every(p[k]));
                }
                assert(is_walk(r, open, p));
                assert((root_blocks(blocks, entry))(p[0]));
            }
        }
    }
}

fn contains_number(v: &Vec<usize>, x: usize) -> (b: bool)
    ensures
        b == v@.contains(x),
{
    let mut i: usize = 0;
    while i < v.len()
        invariant
            i <= v@.len(),
            forall|k: int| 0 <= k < i ==> #[trigger] v@[k] != x,
        decreases v@.len() - i,
    {
        if v[i] == x {
            assert(v@[i as int] == x);
            return true;
        }
        i = i + 1;
    }
    false
}

/// Lists of what each node comes from, turned into lists of what it leads to.
fn turned(heads: &Vec<Vec<usize>>, Ghost(e): Ghost<spec_fn(int, int) -> bool>) -> (succ: Vec<
    Vec<usize>,
>)
    requires
        forall|b: int, a: int|
            0 <= b < heads@.len() && 0 <= a < heads@.len() ==> (#[trigger] heads@[b]@.contains(
                a as usize,
            ) <==> e(a, b)),
    ensures
        succ@.len() == heads@.len(),
        lists(succ@, e),
{
    let n: usize = heads.len();
    let mut succ: Vec<Vec<usize>> = Vec::new();
    while succ.len() < n
        invariant
            succ@.len() <= n == heads@.len(),
            forall|b: int, a: int|
                0 <= b < n && 0 <= a < n ==> (#[trigger] heads@[b]@.contains(a as usize) <==> e(
                    a,
                    b,
                )),
            forall|a: int, k: int|
                0 <= a < succ@.len() && 0 <= k < succ@[a]@.len() ==> #[trigger] succ@[a]@[k] < n,
            forall|a: int, b: int|
                0 <= a < succ@.len() && 0 <= b < n ==> (#[trigger] succ@[a]@.contains(b as usize)
                    <==> e(a, b)),
        decreases n - succ@.len(),
    {
        let at: usize = succ.len();
        let ghost before = succ@;
        let mut row: Vec<usize> = Vec::new();
        let mut b: usize = 0;
        while b < n
            invariant
                b <= n == heads@.len(),
                at < n,
                forall|b: int, a: int|
                    0 <= b < n && 0 <= a < n ==> (#[trigger] heads@[b]@.contains(a as usize)
                        <==> e(a, b)),
                forall|k: int| 0 <= k < row@.len() ==> #[trigger] row@[k] < b,
                forall|j: int|
                    0 <= j < b ==> (#[trigger] row@.contains(j as usize) <==> e(at as int, j)),
            decreases n - b,
        {
            let ghost row0 = row@;
            proof {
                assert(heads@[b as int]@.contains((at as int) as usize) <==> e(
                    at as int,
                    b as int,
                ));
                assert(!row0.contains(b));
            }
            if contains_number(&heads[b], at) {
                row.push(b);
                proof {
                    crate::ir::walk::lemma_push_contains(row0, b);
                }
            }
            b = b + 1;
        }
        succ.push(row);
        proof {
            assert forall|a: int, b: int| 0 <= a < succ@.len() && 0 <= b < n implies (
            #[trigger] succ@[a]@.contains(b as usize) <==> e(a, b)) by {
                if a < at {
                    assert(succ@[a] == before[a]);
                    assert(before[a]@.contains(b as usize) <==> e(a, b));
                } else {
                    assert(succ@[a]@ == row@);
                }
            }
            assert forall|a: int, k: int|
                0 <= a < succ@.len() && 0 <= k < succ@[a]@.len() implies #[trigger] succ@[a]@[k]
                < n by {
                if a < at {
                    assert(succ@[a] == before[a]);
                }
            }
        }
    }
    succ
}

/// Who follows whom on the way from the entry, and where such ways begin.
fn entry_lists(cfg: &Cfg) -> (r: (Vec<Vec<usize>>, Vec<bool>))
    ensures
        r.0@.len() == cfg.blocks@.len() == r.1@.len(),
        lists(r.0@, entry_edges(cfg.blocks@, cfg.entry)),
        marked(r.1@, root_blocks(cfg.blocks@, cfg.entry)),
{
    let n: usize = cfg.blocks.len();
    let ghost blocks = cfg.blocks@;
    let ghost e = entry_edges(blocks, cfg.entry);
    let ghost f = root_blocks(blocks, cfg.entry);
    let mut heads: Vec<Vec<usize>> = Vec::new();
    let mut roots: Vec<bool> = Vec::new();
    while heads.len() < n
        invariant
            heads@.len() <= n == cfg.blocks@.len(),
            blocks == cfg.blocks@,
            roots@.len() == heads@.len(),
            e == entry_edges(blocks, cfg.entry),
            f == root_blocks(blocks, cfg.entry),
            forall|i: int| 0 <= i < roots@.len() ==> #[trigger] roots@[i] == f(i),
            forall|b: int, k: int|
                0 <= b < heads@.len() && 0 <= k < heads@[b]@.len() ==> #[trigger] heads@[b]@[k] < n,
            forall|b: int, a: int|
                0 <= b < heads@.len() && 0 <= a < n ==> (#[trigger] heads@[b]@.contains(a as usize)
                    <==> e(a, b)),
        decreases n - heads@.len(),
    {
        let at: usize = heads.len();
        let ghost before = heads@;
        let b = &cfg.blocks[at];
        let is_entry: bool = b.id == cfg.entry;
        let mut row: Vec<usize> = Vec::new();
        let mut known: bool = false;
        let mut k: usize = 0;
        while k < b.preds.len()
            invariant
                k <= b.preds@.len(),
                n == cfg.blocks@.len(),
                blocks == cfg.blocks@,
                forall|j: int| 0 <= j < row@.len() ==> #[trigger] row@[j] < n,
                known == exists|j: int|
                    0 <= j < k && last_index(ids(blocks), #[trigger] b.preds@[j]) is Some,
                forall|a: int|
                    0 <= a < n ==> (#[trigger] row@.contains(a as usize) <==> exists|j: int|
                        0 <= j < k && last_index(ids(blocks), #[trigger] b.preds@[j]) == Some(a)),
            decreases b.preds@.len() - k,
        {
            let ghost row0 = row@;
            let ghost known0 = known;
            if let Some(p) = find_last(&cfg.blocks, b.preds[k]) {
                row.push(p);
                known = true;
                proof {
                    crate::ir::walk::lemma_push_contains(row0, p);
                    assert(last_index(ids(blocks), b.preds@[k as int]) == Some(p as int));
                }
            }
            proof {
                assert forall|a: int| 0 <= a < n implies (#[trigger] row@.contains(a as usize)
                    <==> exists|j: int|
                    0 <= j < k + 1 && last_index(ids(blocks), #[trigger] b.preds@[j]) == Some(
                        a,
                    )) by {
                    if row0.contains(a as usize) {
                        let j = choose|j: int|
                            0 <= j < k && last_index(ids(blocks), #[trigger] b.preds@[j]) == Some(a);
                        assert(last_index(ids(blocks), b.preds@[j]) == Some(a));
                    }
                }
                if known0 {
                    let j = choose|j: int|
                        0 <= j < k && last_index(ids(blocks), #[trigger] b.preds@[j]) is Some;
                    assert(last_index(ids(blocks), b.preds@[j]) is Some);
                }
            }
            k = k + 1;
        }
        proof {
            assert forall|j: int| 0 <= j < b.preds@.len() implies (last_index(
                ids(blocks),
                #[trigger] b.preds@[j],
            ) is Some ==> known) by {}
        }
        roots.push(is_entry || !known);
        if is_entry {
            heads.push(Vec::new());
        } else {
            heads.push(row);
        }
        proof {
            assert forall|bb: int, a: int| 0 <= bb < heads@.len() && 0 <= a < n implies (
            #[trigger] heads@[bb]@.contains(a as usize) <==> e(a, bb)) by {
                if bb < at {
                    assert(heads@[bb] == before[bb]);
                    assert(before[bb]@.contains(a as usize) <==> e(a, bb));
                } else if is_entry {
                    assert(heads@[bb]@.len() == 0);
                } else {
                    assert(heads@[bb]@ == row@);
                }
            }
            assert forall|bb: int, j: int|
                0 <= bb < heads@.len() && 0 <= j < heads@[bb]@.len() implies #[trigger] heads@[bb]@[j]
                < n by {
                if bb < at {
                    assert(heads@[bb] == before[bb]);
                }
            }
        }
    }
    (turned(&heads, Ghost(e)), roots)
}

/// Dominator sets: row `i` marks the blocks that every way to block `i` goes through.
pub fn dominators(cfg: &Cfg) -> (dom: Vec<Vec<bool>>)
    ensures
        dom@.len() == cfg.blocks@.len(),
        forall|i: int| 0 <= i < dom@.len() ==> (#[trigger] dom@[i])@.len() == cfg.blocks@.len(),
        forall|i: int, j: int|
            0 <= i < dom@.len() && 0 <= j < dom@.len() ==> #[trigger] dom@[i]@[j] == dominates(
                cfg.blocks@,
                cfg.entry,
                j,
                i,
            ),
{
    let n: usize = cfg.blocks.len();
    let (succ, roots) = entry_lists(cfg);
    let ghost e = entry_edges(cfg.blocks@, cfg.entry);
    let ghost f = root_blocks(cfg.blocks@, cfg.entry);
    let mut avoid: Vec<Vec<bool>> = Vec::new();
    while avoid.len() < n
        invariant
            avoid@.len() <= n == cfg.blocks@.len() == succ@.len() == roots@.len(),
            e == entry_edges(cfg.blocks@, cfg.entry),
            f == root_blocks(cfg.blocks@, cfg.entry),
            lists(succ@, e),
            marked(roots@, f),
            forall|j: int| 0 <= j < avoid@.len() ==> (#[trigger] avoid@[j])@.len() == n,
            forall|j: int, i: int|
                0 <= j < avoid@.len() && 0 <= i < n ==> #[trigger] avoid@[j]@[i] == !dominates(
                    cfg.blocks@,
                    cfg.entry,
                    j,
                    i,
                ),
        decreases n - avoid@.len(),
    {
        let at: usize = avoid.len();
        let ghost before = avoid@;
        let ghost open = all_but(cfg.blocks@, at as int);
        let mut mask = all_true(n);
        mask.set(at, false);
        let ways = closure(&succ, &mask, &roots, Ghost(e), Ghost(open), Ghost(f));
        avoid.push(ways);
        proof {
            let g = |i: int| led_to(e, open, f, i);
            assert forall|j: int, i: int|
                0 <= j < avoid@.len() && 0 <= i < n implies #[trigger] avoid@[j]@[i] == !dominates(
                cfg.blocks@,
                cfg.entry,
                j,
                i,
            ) by {
                if j < at {
                    assert(avoid@[j] == before[j]);
                } else {
                    lemma_dominates(cfg.blocks@, cfg.entry, j, i);
                    assert(ways@[i] == g(i));
                }
            }
        }
    }
    let mut dom: Vec<Vec<bool>> = Vec::new();
    while dom.len() < n
        invariant
            dom@.len() <= n == cfg.blocks@.len() == avoid@.len(),
            forall|j: int| 0 <= j < avoid@.len() ==> (#[trigger] avoid@[j])@.len() == n,
            forall|j: int, i: int|
                0 <= j < avoid@.len() && 0 <= i < n ==> #[trigger] avoid@[j]@[i] == !dominates(
                    cfg.blocks@,
                    cfg.entry,
                    j,
                    i,
                ),
            forall|i: int| 0 <= i < dom@.len() ==> (#[trigger] dom@[i])@.len() == n,
            forall|i: int, j: int|
                0 <= i < dom@.len() && 0 <= j < n ==> #[trigger] dom@[i]@[j] == dominates(
                    cfg.blocks@,
                    cfg.entry,
                    j,
                    i,
                ),
        decreases n - dom@.len(),
    {
        let at: usize = dom.len();
        let ghost before = dom@;
        let mut row: Vec<bool> = Vec::new();
        while row.len() < n
            invariant
                row@.len() <= n == avoid@.len(),
                at < n,
                forall|j: int| 0 <= j < avoid@.len() ==> (#[trigger] avoid@[j])@.len() == n,
                forall|j: int, i: int|
                    0 <= j < avoid@.len() && 0 <= i < n ==> #[trigger] avoid@[j]@[i] == !dominates(
                        cfg.blocks@,
                        cfg.entry,
                        j,
                        i,
                    ),
                forall|j: int|
                    0 <= j < row@.len() ==> #[trigger] row@[j] == dominates(
                        cfg.blocks@,
                        cfg.entry,
                        j,
                        at as int,
                    ),
            decreases n - row@.len(),
        {
            let j: usize = row.len();
            row.push(!avoid[j][at]);
        }
        dom.push(row);
        proof {
            assert forall|i: int, j: int| 0 <= i < dom@.len() && 0 <= j < n implies #[trigger] dom@[i]@[j]
                == dominates(cfg.blocks@, cfg.entry, j, i) by {
                if i < at {
                    assert(dom@[i] == before[i]);
                }
            }
        }
    }
    dom
}

/// A block other than the entry is dominated by itself and by whatever dominates all of its
/// recovered predecessors, and by nothing else; a block where ways begin only by itself.
pub proof fn dominators_are_what_all_predecessors_share(
    blocks: Seq<Block>,
    entry: BlockId,
    j: int,
    i: int,
)
    requires
        0 <= i < blocks.len(),
        0 <= j < blocks.len(),
    ensures
        dominates(blocks, entry, j, i) <==> (i == j || (!is_root(blocks, entry, i) && forall|p: int|
            0 <= p < blocks.len() && #[trigger] precedes(blocks, entry, p, i) ==> dominates(
                blocks,
                entry,
                j,
                p,
            ))),
{
    let r = entry_edges(blocks, entry);
    let every = every_block(blocks);
    if i == j {
        assert forall|p: Seq<int>| #[trigger]
            is_walk(r, every, p) && is_root(blocks, entry, p[0]) && p.last()
                == i implies p.contains(j) by {
            assert(p[p.len() - 1] == j);
        }
    } else {
        if dominates(blocks, entry, j, i) {
            if is_root(blocks, entry, i) {
                let p = seq![i];
                assert(is_walk(r, every, p));
                assert(p[0] == i);
                assert(p.contains(j));
            }
            assert forall|q: int|
                0 <= q < blocks.len() && #[trigger] precedes(blocks, entry, q, i) implies dominates(
                blocks,
                entry,
                j,
                q,
            ) by {
                assert forall|p: Seq<int>| #[trigger]
                    is_walk(r, every, p) && is_root(blocks, entry, p[0]) && p.last()
                        == q implies p.contains(j) by {
                    let w = p.push(i);
                    assert forall|k: int| 0 <= k < w.len() - 1 implies #[trigger] related(r, w, k) by {
                        if k < p.len() - 1 {
                            assert(related(r, p, k));
                        }
                    }
                    assert forall|k: int| 0 <= k < w.len() implies every(#[trigger] w[k]) by {
                        if k < p.len() {
                            assert(every(p[k]));
                        }
                    }
                    assert(is_walk(r, every, w));
                    assert(w[0] == p[0]);
                    assert(w.contains(j));
                    let k = choose|k: int| 0 <= k < w.len() && w[k] == j;
                    assert(k < p.len());
                    assert(p[k] == j);
                }
            }
        } else {
            let w = choose|p: Seq<int>| #[trigger]
                is_walk(r, every, p) && is_root(blocks, entry, p[0]) && p.last() == i
                    && !p.contains(j);
            assert(every(w[0]));
            if w.len() > 1 {
                let p = w.drop_last();
                let q = p.last();
                assert(every(w[w.len() - 2]));
                assert(related(r, w, w.len() - 2));
                assert(precedes(blocks, entry, q, i));
                assert forall|k: int| 0 <= k < p.len() - 1 implies #[trigger] related(r, p, k) by {
                    assert(related(r, w, k));
                }
                assert forall|k: int| 0 <= k < p.len() implies every(#[trigger] p[k]) by {
                    assert(every(w[k]));
                }
                assert(is_walk(r, every, p));
                assert(p[0] == w[0]);
                assert(!p.contains(j)) by {
                    if p.contains(j) {
                        let k = choose|k: int| 0 <= k < p.len() && p[k] == j;
                        assert(w[k] == j);
                    }
                }
                assert(!dominates(blocks, entry, j, q));
            } else {
                assert(w[0] == i);
            }
        }
    }
}

} // verus!
