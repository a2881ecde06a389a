//! Which registers still matter where a block is left.

use crate::ir::closure::{closure, led_to, lists, marked};
use crate::ir::flow::{find_last, ids, last_index, successors_of, successors_spec};
use crate::ir::graph::{Block, Cfg, Terminator};
use crate::ir::instr::{operands_read, reads, Operand, SchedBlock};
use crate::ir::live::{is_volatile, volatile};
use crate::ir::value::Reg;
use crate::vm::reach::{contains_id, is_exit};
use vstd::prelude::*;

verus! {

/// The number of the register whose entry value an operand is.
pub open spec fn entry_number(o: Operand) -> Option<int> {
    match o {
        Operand::Entry(r) => Some(r.number() as int),
        Operand::Param(r) => Some(r.number() as int),
        _ => None,
    }
}

/// Whether an exit puts back what the caller's convention restores anyway: a return that
/// leaves a preserved register as it was.
pub open spec fn restored_anyway(b: Block, e: (Reg, Operand)) -> bool {
    &&& b.terminator is Return
    &&& !volatile(e.0)
    &&& e.0 != Reg::Rsp
    &&& e.1 == Operand::Entry(e.0) || e.1 == Operand::Param(e.0)
}

/// Whether an exit passes the entry value of register `c` on in register `a`.
pub open spec fn passes_on(b: Block, e: (Reg, Operand), a: int, c: int) -> bool {
    e.0.number() == a && !restored_anyway(b, e) && entry_number(e.1) == Some(c)
}

/// Whether a block passes the entry value of register `c` on in register `a`.
pub open spec fn hands_on(b: Block, sb: SchedBlock, a: int, c: int) -> bool {
    exists|k: int| 0 <= k < sb.exits@.len() && passes_on(b, #[trigger] sb.exits@[k], a, c)
}

/// Whether block `i` leads to block `j`, which stands for its identity.
pub open spec fn leads_into(blocks: Seq<Block>, i: int, j: int) -> bool {
    &&& successors_spec(blocks[i].terminator).contains(blocks[j].id)
    &&& last_index(ids(blocks), blocks[j].id) == Some(j)
}

/// Registers where blocks are left and entered, as numbers: for each block its registers on
/// leaving, then those on entry. One matters because of another: a register on leaving
/// because of the same one on entry to what follows; a register on entry because its value
/// is handed on in one that matters on leaving.
pub open spec fn matters_for(
    cfg: Seq<Block>,
    blocks: Seq<SchedBlock>,
    x: int,
    y: int,
) -> bool {
    let a = x % 32;
    let b = y % 32;
    if a < 16 {
        b >= 16 && x / 32 == y / 32 && hands_on(cfg[x / 32], blocks[x / 32], a, b - 16)
    } else {
        b < 16 && b == a - 16 && leads_into(cfg, y / 32, x / 32)
    }
}

/// Whether a block can be left for somewhere that was not recovered.
pub open spec fn open_ended(blocks: Seq<Block>, i: int) -> bool {
    is_exit(blocks[i].terminator) || exists|k: int|
        0 <= k < successors_spec(blocks[i].terminator).len() && !ids(blocks).contains(
            #[trigger] successors_spec(blocks[i].terminator)[k],
        )
}

/// Whether some block leaves a value in a register.
pub open spec fn ever_left(blocks: Seq<Block>, a: int) -> bool {
    exists|i: int, k: int|
        0 <= i < blocks.len() && 0 <= k < blocks[i].exit_regs@.len() && (
        #[trigger] blocks[i].exit_regs@[k]).0.number() == a
}

/// Whether operands include the entry value of a register.
pub open spec fn among(ops: Seq<Operand>, c: int) -> bool {
    exists|k: int| 0 <= k < ops.len() && entry_number(#[trigger] ops[k]) == Some(c)
}

/// Whether a block reads the entry value of a register, in an instruction or to decide
/// where to go, or takes it as a parameter.
pub open spec fn takes(b: Block, sb: SchedBlock, c: int) -> bool {
    ||| exists|k: int| 0 <= k < sb.instrs@.len() && among(reads(#[trigger] sb.instrs@[k]), c)
    ||| sb.control matches Some(o) && entry_number(o) == Some(c)
    ||| exists|k: int| 0 <= k < b.params@.len() && (#[trigger] b.params@[k]).0.number() == c
}

/// What matters in itself: every register where a block can be left for somewhere unknown,
/// and what a block reads on entry.
pub open spec fn matters_at_once(cfg: Seq<Block>, blocks: Seq<SchedBlock>, x: int) -> bool {
    let a = x % 32;
    if a < 16 {
        ever_left(cfg, a) && open_ended(cfg, x / 32)
    } else {
        takes(cfg[x / 32], blocks[x / 32], a - 16)
    }
}

pub open spec fn need_edges(cfg: Seq<Block>, blocks: Seq<SchedBlock>) -> spec_fn(int, int) -> bool {
    |x: int, y: int| matters_for(cfg, blocks, x, y)
}

pub open spec fn need_seeds(cfg: Seq<Block>, blocks: Seq<SchedBlock>) -> spec_fn(int) -> bool {
    |x: int| matters_at_once(cfg, blocks, x)
}

pub open spec fn need_nodes(blocks: Seq<SchedBlock>) -> spec_fn(int) -> bool {
    |x: int| 0 <= x < 32 * blocks.len()
}

/// Whether a register matters where block `i` is left.
pub open spec fn live_out(cfg: Seq<Block>, blocks: Seq<SchedBlock>, i: int, r: Reg) -> bool {
    led_to(need_edges(cfg, blocks), need_nodes(blocks), need_seeds(cfg, blocks), 32 * i + r.number())
}

fn entry_of(o: Operand) -> (r: Option<usize>)
    ensures
        match r {
            Some(n) => entry_number(o) == Some(n as int) && n < 16,
            None => entry_number(o) is None,
        },
{
    match o {
        Operand::Entry(r) => Some(r.number() as usize),
        Operand::Param(r) => Some(r.number() as usize),
        _ => None,
    }
}

fn is_restored(b: &Block, e: (Reg, Operand)) -> (r: bool)
    ensures
        r == restored_anyway(*b, e),
{
    let returns: bool = match &b.terminator {
        Terminator::Return { .. } => true,
        _ => false,
    };
    returns && !is_volatile(e.0) && e.0 != Reg::Rsp && (e.1 == Operand::Entry(e.0) || e.1
        == Operand::Param(e.0))
}

/// What a register matters for where block `i` is left.
fn leaving_row(cfg: &Vec<Block>, blocks: &Vec<SchedBlock>, i: usize, a: usize) -> (row: Vec<usize>)
    requires
        cfg@.len() == blocks@.len(),
        i < blocks@.len(),
        a < 16,
        32 * blocks@.len() <= usize::MAX,
    ensures
        forall|k: int| 0 <= k < row@.len() ==> #[trigger] row@[k] < 32 * blocks@.len(),
        forall|y: int|
            0 <= y < 32 * blocks@.len() ==> (#[trigger] row@.contains(y as usize) <==> matters_for(
                cfg@,
                blocks@,
                32 * i + a,
                y,
            )),
{
    let b = &cfg[i];
    let sb = &blocks[i];
    let mut row: Vec<usize> = Vec::new();
    let mut k: usize = 0;
    while k < sb.exits.len()
        invariant
            k <= sb.exits@.len(),
            *sb == blocks@[i as int],
            *b == cfg@[i as int],
            i < blocks@.len(),
            a < 16,
            32 * blocks@.len() <= usize::MAX,
            forall|j: int| 0 <= j < row@.len() ==> #[trigger] row@[j] < 32 * blocks@.len(),
            forall|y: int|
                0 <= y < 32 * blocks@.len() ==> (#[trigger] row@.contains(y as usize) <==> y / 32
                    == i && y % 32 >= 16 && exists|j: int|
                    0 <= j < k && passes_on(*b, #[trigger] sb.exits@[j], a as int, y % 32 - 16)),
        decreases sb.exits@.len() - k,
    {
        let e = sb.exits[k];
        let ghost row0 = row@;
        if e.0.number() as usize == a && !is_restored(b, e) {
            if let Some(c) = entry_of(e.1) {
                let y: usize = 32 * i + 16 + c;
                row.push(y);
                proof {
                    crate::ir::walk::lemma_push_contains(row0, y);
                    assert(passes_on(*b, sb.exits@[k as int], a as int, c as int));
                    assert((y as int) / 32 == i && (y as int) % 32 == 16 + c);
                }
            }
        }
        proof {
            assert forall|y: int| 0 <= y < 32 * blocks@.len() implies (
            #[trigger] row@.contains(y as usize) <==> y / 32 == i && y % 32 >= 16 && exists|j: int|
                0 <= j < k + 1 && passes_on(
                    *b,
                    #[trigger] sb.exits@[j],
                    a as int,
                    y % 32 - 16,
                )) by {
                assert(row0.contains(y as usize) <==> y / 32 == i && y % 32 >= 16 && exists|j: int|
                    0 <= j < k && passes_on(*b, #[trigger] sb.exits@[j], a as int, y % 32 - 16));
                if row0.contains(y as usize) {
                    let j = choose|j: int|
                        0 <= j < k && passes_on(
                            *b,
                            #[trigger] sb.exits@[j],
                            a as int,
                            y % 32 - 16,
                        );
                    assert(passes_on(*b, sb.exits@[j], a as int, y % 32 - 16));
                }
            }
        }
        k = k + 1;
    }
    proof {
        let x = 32 * i + a;
        assert(x / 32 == i && x % 32 == a);
    }
    row
}

/// Whether the last block with the identity of block `j` is that block.
fn stands_for_itself(cfg: &Vec<Block>, j: usize) -> (r: bool)
    requires
        j < cfg@.len(),
    ensures
        r == (last_index(ids(cfg@), cfg@[j as int].id) == Some(j as int)),
{
    match find_last(cfg, cfg[j].id) {
        Some(k) => k == j,
        None => false,
    }
}

/// The blocks that lead to block `j`.
fn led_from(cfg: &Vec<Block>, j: usize) -> (v: Vec<usize>)
    requires
        j < cfg@.len(),
    ensures
        forall|k: int| 0 <= k < v@.len() ==> #[trigger] v@[k] < cfg@.len(),
        forall|i: int|
            0 <= i < cfg@.len() ==> (#[trigger] v@.contains(i as usize) <==> leads_into(
                cfg@,
                i,
                j as int,
            )),
{
    let stands: bool = stands_for_itself(cfg, j);
    let mut v: Vec<usize> = Vec::new();
    let mut i: usize = 0;
    while i < cfg.len()
        invariant
            i <= cfg@.len(),
            j < cfg@.len(),
            stands == (last_index(ids(cfg@), cfg@[j as int].id) == Some(j as int)),
            forall|k: int| 0 <= k < v@.len() ==> #[trigger] v@[k] < i,
            forall|k: int|
                0 <= k < i ==> (#[trigger] v@.contains(k as usize) <==> leads_into(
                    cfg@,
                    k,
                    j as int,
                )),
        decreases cfg@.len() - i,
    {
        let ghost v0 = v@;
        proof {
            assert(!v0.contains(i));
        }
        if stands {
            let out = successors_of(&cfg[i].terminator);
            if contains_id(&out, cfg[j].id) {
                v.push(i);
                proof {
                    crate::ir::walk::lemma_push_contains(v0, i);
                }
            }
        }
        i = i + 1;
    }
    v
}

/// What a register matters for where a block is entered, given the blocks that lead there.
fn entering_row(
    cfg: &Vec<Block>,
    blocks: &Vec<SchedBlock>,
    from: &Vec<usize>,
    j: usize,
    c: usize,
) -> (row: Vec<usize>)
    requires
        cfg@.len() == blocks@.len(),
        j < blocks@.len(),
        c < 16,
        32 * blocks@.len() <= usize::MAX,
        forall|k: int| 0 <= k < from@.len() ==> #[trigger] from@[k] < cfg@.len(),
        forall|i: int|
            0 <= i < cfg@.len() ==> (#[trigger] from@.contains(i as usize) <==> leads_into(
                cfg@,
                i,
                j as int,
            )),
    ensures
        forall|k: int| 0 <= k < row@.len() ==> #[trigger] row@[k] < 32 * blocks@.len(),
        forall|y: int|
            0 <= y < 32 * blocks@.len() ==> (#[trigger] row@.contains(y as usize) <==> matters_for(
                cfg@,
                blocks@,
                32 * j + 16 + c,
                y,
            )),
{
    let mut row: Vec<usize> = Vec::new();
    let mut k: usize = 0;
    while k < from.len()
        invariant
            k <= from@.len(),
            c < 16,
            32 * blocks@.len() <= usize::MAX,
            cfg@.len() == blocks@.len(),
            forall|i: int| 0 <= i < from@.len() ==> #[trigger] from@[i] < cfg@.len(),
            forall|i: int| 0 <= i < row@.len() ==> #[trigger] row@[i] < 32 * blocks@.len(),
            forall|y: int|
                0 <= y < 32 * blocks@.len() ==> (#[trigger] row@.contains(y as usize) <==> y % 32
                    == c && from@.take(k as int).contains((y / 32) as usize)),
        decreases from@.len() - k,
    {
        let ghost row0 = row@;
        let i: usize = from[k];
        let y: usize = 32 * i + c;
        row.push(y);
        proof {
            crate::ir::walk::lemma_push_contains(row0, y);
            assert(from@.take(k + 1) =~= from@.take(k as int).push(i));
            crate::ir::walk::lemma_push_contains(from@.take(k as int), i);
            assert forall|z: int| 0 <= z < 32 * blocks@.len() implies (
            #[trigger] row@.contains(z as usize) <==> z % 32 == c && from@.take(k + 1).contains(
                (z / 32) as usize,
            )) by {
                assert(row0.contains(z as usize) <==> z % 32 == c && from@.take(k as int).contains(
                    (z / 32) as usize,
                ));
                if z % 32 == c && (z / 32) as usize == i {
                    assert(z == y);
                }
                if z == y {
                    assert(z % 32 == c && z / 32 == i);
                }
            }
        }
        k = k + 1;
    }
    proof {
        let x = 32 * j + 16 + c;
        assert(x / 32 == j && x % 32 == 16 + c);
        assert(from@.take(from@.len() as int) =~= from@);
        assert forall|y: int| 0 <= y < 32 * blocks@.len() implies (
        #[trigger] row@.contains(y as usize) <==> matters_for(cfg@, blocks@, x, y)) by {
            assert(from@.contains((y / 32) as usize) <==> leads_into(cfg@, y / 32, j as int));
        }
    }
    row
}

/// What every register matters for.
fn need_lists(cfg: &Vec<Block>, blocks: &Vec<SchedBlock>) -> (succ: Vec<Vec<usize>>)
    requires
        cfg@.len() == blocks@.len(),
        32 * blocks@.len() <= usize::MAX,
    ensures
        succ@.len() == 32 * blocks@.len(),
        lists(succ@, need_edges(cfg@, blocks@)),
{
    let ghost r = need_edges(cfg@, blocks@);
    let ghost total = 32 * blocks@.len();
    let mut succ: Vec<Vec<usize>> = Vec::new();
    let mut i: usize = 0;
    while i < blocks.len()
        invariant
            i <= blocks@.len() == cfg@.len(),
            total == 32 * blocks@.len(),
            total <= usize::MAX,
            r == need_edges(cfg@, blocks@),
            succ@.len() == 32 * i,
            forall|x: int, k: int|
                0 <= x < succ@.len() && 0 <= k < succ@[x]@.len() ==> #[trigger] succ@[x]@[k] < total,
            forall|x: int, y: int|
                0 <= x < succ@.len() && 0 <= y < total ==> (#[trigger] succ@[x]@.contains(
                    y as usize,
                ) <==> r(x, y)),
        decreases blocks@.len() - i,
    {
        let from = led_from(cfg, i);
        let mut d: usize = 0;
        while d < 32
            invariant
                i < blocks@.len() == cfg@.len(),
                d <= 32,
                total == 32 * blocks@.len(),
                total <= usize::MAX,
                r == need_edges(cfg@, blocks@),
                succ@.len() == 32 * i + d,
                forall|k: int| 0 <= k < from@.len() ==> #[trigger] from@[k] < cfg@.len(),
                forall|k: int|
                    0 <= k < cfg@.len() ==> (#[trigger] from@.contains(k as usize) <==> leads_into(
                        cfg@,
                        k,
                        i as int,
                    )),
                forall|x: int, k: int|
                    0 <= x < succ@.len() && 0 <= k < succ@[x]@.len() ==> #[trigger] succ@[x]@[k]
                        < total,
                forall|x: int, y: int|
                    0 <= x < succ@.len() && 0 <= y < total ==> (#[trigger] succ@[x]@.contains(
                        y as usize,
                    ) <==> r(x, y)),
            decreases 32 - d,
        {
            let ghost before = succ@;
            let row = if d < 16 {
                leaving_row(cfg, blocks, i, d)
            } else {
                entering_row(cfg, blocks, &from, i, d - 16)
            };
            succ.push(row);
            proof {
                assert forall|x: int, y: int| 0 <= x < succ@.len() && 0 <= y < total implies (
                #[trigger] succ@[x]@.contains(y as usize) <==> r(x, y)) by {
                    if x < before.len() {
                        assert(succ@[x] == before[x]);
                        assert(before[x]@.contains(y as usize) <==> r(x, y));
                    } else {
                        assert(succ@[x]@ == row@);
                        assert(row@.contains(y as usize) <==> matters_for(cfg@, blocks@, x, y));
                    }
                }
                assert forall|x: int, k: int|
                    0 <= x < succ@.len() && 0 <= k < succ@[x]@.len() implies #[trigger] succ@[x]@[k]
                    < total by {
                    if x < before.len() {
                        assert(succ@[x] == before[x]);
                    }
                }
            }
            d = d + 1;
        }
        i = i + 1;
    }
    succ
}

fn is_open_ended(cfg: &Vec<Block>, i: usize) -> (r: bool)
    requires
        i < cfg@.len(),
    ensures
        r == open_ended(cfg@, i as int),
{
    let leaves: bool = match &cfg[i].terminator {
        Terminator::Return { .. } => true,
        Terminator::AdoptedReturn => true,
        Terminator::TailCall { .. } => true,
        Terminator::Unresolved { .. } => true,
        _ => false,
    };
    if leaves {
        return true;
    }
    let out = successors_of(&cfg[i].terminator);
    let mut k: usize = 0;
    while k < out.len()
        invariant
            k <= out@.len(),
            i < cfg@.len(),
            !is_exit(cfg@[i as int].terminator),
            out@ == successors_spec(cfg@[i as int].terminator),
            forall|j: int| 0 <= j < k ==> ids(cfg@).contains(#[trigger] out@[j]),
        decreases out@.len() - k,
    {
        match find_last(cfg, out[k]) {
            Some(j) => {
                proof {
                    crate::ir::flow::lemma_last_index(ids(cfg@), out@[k as int]);
                    assert(ids(cfg@)[j as int] == out@[k as int]);
                }
            },
            None => {
                proof {
                    if ids(cfg@).contains(out@[k as int]) {
                        let m = choose|m: int|
                            0 <= m < ids(cfg@).len() && ids(cfg@)[m] == out@[k as int];
                        crate::vm::reach::lemma_known(ids(cfg@), out@[k as int], m);
                    }
                    assert(!ids(cfg@).contains(
                        successors_spec(cfg@[i as int].terminator)[k as int],
                    ));
                }
                return true;
            },
        }
        k = k + 1;
    }
    false
}

/// Which registers some block leaves a value in, by number.
fn ever_left_in(cfg: &Vec<Block>) -> (v: Vec<bool>)
    ensures
        v@.len() == 16,
        forall|a: int| 0 <= a < 16 ==> #[trigger] v@[a] == ever_left(cfg@, a),
{
    let mut v: Vec<bool> = vec![false; 16];
    let mut i: usize = 0;
    while i < cfg.len()
        invariant
            i <= cfg@.len(),
            v@.len() == 16,
            forall|a: int|
                0 <= a < 16 ==> #[trigger] v@[a] == exists|x: int, k: int|
                    0 <= x < i && 0 <= k < cfg@[x].exit_regs@.len() && (
                    #[trigger] cfg@[x].exit_regs@[k]).0.number() == a,
        decreases cfg@.len() - i,
    {
        let ghost v0 = v@;
        let regs = &cfg[i].exit_regs;
        let mut k: usize = 0;
        while k < regs.len()
            invariant
                i < cfg@.len(),
                k <= regs@.len(),
                *regs == cfg@[i as int].exit_regs,
                v@.len() == 16,
                forall|a: int|
                    0 <= a < 16 ==> #[trigger] v@[a] == (v0[a] || exists|j: int|
                        0 <= j < k && (#[trigger] regs@[j]).0.number() == a),
            decreases regs@.len() - k,
        {
            let ghost v1 = v@;
            let at: usize = regs[k].0.number() as usize;
            v.set(at, true);
            proof {
                assert(regs@[k as int].0.number() == at);
                assert forall|a: int| 0 <= a < 16 implies #[trigger] v@[a] == (v0[a]
                    || exists|j: int| 0 <= j < k + 1 && (#[trigger] regs@[j]).0.number() == a) by {
                    assert(v1[a] == (v0[a] || exists|j: int|
                        0 <= j < k && (#[trigger] regs@[j]).0.number() == a));
                    if exists|j: int| 0 <= j < k && (#[trigger] regs@[j]).0.number() == a {
                        let j = choose|j: int| 0 <= j < k && (#[trigger] regs@[j]).0.number() == a;
                        assert(regs@[j].0.number() == a);
                    }
                }
            }
            k = k + 1;
        }
        proof {
            assert forall|a: int| 0 <= a < 16 implies #[trigger] v@[a] == exists|x: int, k: int|
                0 <= x < i + 1 && 0 <= k < cfg@[x].exit_regs@.len() && (
                #[trigger] cfg@[x].exit_regs@[k]).0.number() == a by {
                assert(v0[a] == exists|x: int, k: int|
                    0 <= x < i && 0 <= k < cfg@[x].exit_regs@.len() && (
                    #[trigger] cfg@[x].exit_regs@[k]).0.number() == a);
                if v0[a] {
                    let (x, k) = choose|x: int, k: int|
                        0 <= x < i && 0 <= k < cfg@[x].exit_regs@.len() && (
                        #[trigger] cfg@[x].exit_regs@[k]).0.number() == a;
                    assert(cfg@[x].exit_regs@[k].0.number() == a);
                }
                if exists|j: int| 0 <= j < regs@.len() && (#[trigger] regs@[j]).0.number() == a {
                    let j = choose|j: int|
                        0 <= j < regs@.len() && (#[trigger] regs@[j]).0.number() == a;
                    assert(cfg@[i as int].exit_regs@[j].0.number() == a);
                }
            }
        }
        i = i + 1;
    }
    v
}

/// Notes which entry values are among operands.
fn note_all(v: &mut Vec<bool>, ops: &Vec<Operand>)
    requires
        old(v)@.len() == 16,
    ensures
        final(v)@.len() == 16,
        forall|c: int| 0 <= c < 16 ==> #[trigger] final(v)@[c] == (old(v)@[c] || among(ops@, c)),
{
    let ghost v0 = v@;
    let mut k: usize = 0;
    while k < ops.len()
        invariant
            k <= ops@.len(),
            v@.len() == 16,
            forall|c: int|
                0 <= c < 16 ==> #[trigger] v@[c] == (v0[c] || exists|j: int|
                    0 <= j < k && entry_number(#[trigger] ops@[j]) == Some(c)),
        decreases ops@.len() - k,
    {
        let ghost v1 = v@;
        if let Some(n) = entry_of(ops[k]) {
            v.set(n, true);
        }
        proof {
            assert forall|c: int| 0 <= c < 16 implies #[trigger] v@[c] == (v0[c] || exists|j: int|
                0 <= j < k + 1 && entry_number(#[trigger] ops@[j]) == Some(c)) by {
                assert(v1[c] == (v0[c] || exists|j: int|
                    0 <= j < k && entry_number(#[trigger] ops@[j]) == Some(c)));
                if exists|j: int| 0 <= j < k && entry_number(#[trigger] ops@[j]) == Some(c) {
                    let j = choose|j: int| 0 <= j < k && entry_number(#[trigger] ops@[j]) == Some(c);
                    assert(entry_number(ops@[j]) == Some(c));
                }
                if entry_number(ops@[k as int]) == Some(c) {
                    assert(v@[c]);
                }
            }
        }
        k = k + 1;
    }
}

/// Which entry values a block takes, by register number.
fn taken_by(b: &Block, sb: &SchedBlock) -> (v: Vec<bool>)
    ensures
        v@.len() == 16,
        forall|c: int| 0 <= c < 16 ==> #[trigger] v@[c] == takes(*b, *sb, c),
{
    let mut v: Vec<bool> = vec![false; 16];
    let mut k: usize = 0;
    while k < sb.instrs.len()
        invariant
            k <= sb.instrs@.len(),
            v@.len() == 16,
            forall|c: int|
                0 <= c < 16 ==> #[trigger] v@[c] == exists|j: int|
                    0 <= j < k && among(reads(#[trigger] sb.instrs@[j]), c),
        decreases sb.instrs@.len() - k,
    {
        let ghost v0 = v@;
        let ops = operands_read(&sb.instrs[k]);
        note_all(&mut v, &ops);
        proof {
            assert forall|c: int| 0 <= c < 16 implies #[trigger] v@[c] == exists|j: int|
                0 <= j < k + 1 && among(reads(#[trigger] sb.instrs@[j]), c) by {
                assert(v0[c] == exists|j: int|
                    0 <= j < k && among(reads(#[trigger] sb.instrs@[j]), c));
                if v0[c] {
                    let j = choose|j: int| 0 <= j < k && among(reads(#[trigger] sb.instrs@[j]), c);
                    assert(among(reads(sb.instrs@[j]), c));
                }
                if among(ops@, c) {
                    assert(among(reads(sb.instrs@[k as int]), c));
                }
            }
        }
        k = k + 1;
    }
    let ghost body = v@;
    if let Some(o) = sb.control {
        if let Some(n) = entry_of(o) {
            v.set(n, true);
        }
    }
    let ghost mid = v@;
    let mut j: usize = 0;
    while j < b.params.len()
        invariant
            j <= b.params@.len(),
            v@.len() == 16,
            mid.len() == 16,
            forall|c: int|
                0 <= c < 16 ==> #[trigger] v@[c] == (mid[c] || exists|m: int|
                    0 <= m < j && (#[trigger] b.params@[m]).0.number() == c),
        decreases b.params@.len() - j,
    {
        let ghost v1 = v@;
        let at: usize = b.params[j].0.number() as usize;
        v.set(at, true);
        proof {
            assert(b.params@[j as int].0.number() == at);
            assert forall|c: int| 0 <= c < 16 implies #[trigger] v@[c] == (mid[c] || exists|m: int|
                0 <= m < j + 1 && (#[trigger] b.params@[m]).0.number() == c) by {
                assert(v1[c] == (mid[c] || exists|m: int|
                    0 <= m < j && (#[trigger] b.params@[m]).0.number() == c));
                if exists|m: int| 0 <= m < j && (#[trigger] b.params@[m]).0.number() == c {
                    let m = choose|m: int| 0 <= m < j && (#[trigger] b.params@[m]).0.number() == c;
                    assert(b.params@[m].0.number() == c);
                }
            }
        }
        j = j + 1;
    }
    proof {
        assert forall|c: int| 0 <= c < 16 implies #[trigger] v@[c] == takes(*b, *sb, c) by {
            assert(body[c] == exists|k: int|
                0 <= k < sb.instrs@.len() && among(reads(#[trigger] sb.instrs@[k]), c));
            assert(mid[c] == (body[c] || (sb.control matches Some(o) && entry_number(o) == Some(c))));
        }
    }
    v
}

/// What matters in itself.
fn seed_marks(cfg: &Vec<Block>, blocks: &Vec<SchedBlock>) -> (seeds: Vec<bool>)
    requires
        cfg@.len() == blocks@.len(),
        32 * blocks@.len() <= usize::MAX,
    ensures
        seeds@.len() == 32 * blocks@.len(),
        marked(seeds@, need_seeds(cfg@, blocks@)),
{
    let ghost f = need_seeds(cfg@, blocks@);
    let left = ever_left_in(cfg);
    let mut seeds: Vec<bool> = Vec::new();
    let mut i: usize = 0;
    while i < blocks.len()
        invariant
            i <= blocks@.len() == cfg@.len(),
            left@.len() == 16,
            forall|a: int| 0 <= a < 16 ==> #[trigger] left@[a] == ever_left(cfg@, a),
            f == need_seeds(cfg@, blocks@),
            seeds@.len() == 32 * i,
            forall|x: int| 0 <= x < seeds@.len() ==> #[trigger] seeds@[x] == f(x),
        decreases blocks@.len() - i,
    {
        let open: bool = is_open_ended(cfg, i);
        let taken = taken_by(&cfg[i], &blocks[i]);
        let mut d: usize = 0;
        while d < 32
            invariant
                d <= 32,
                i < blocks@.len() == cfg@.len(),
                left@.len() == 16,
                taken@.len() == 16,
                open == open_ended(cfg@, i as int),
                forall|a: int| 0 <= a < 16 ==> #[trigger] left@[a] == ever_left(cfg@, a),
                forall|c: int|
                    0 <= c < 16 ==> #[trigger] taken@[c] == takes(
                        cfg@[i as int],
                        blocks@[i as int],
                        c,
                    ),
                f == need_seeds(cfg@, blocks@),
                seeds@.len() == 32 * i + d,
                forall|x: int| 0 <= x < seeds@.len() ==> #[trigger] seeds@[x] == f(x),
            decreases 32 - d,
        {
            let on: bool = if d < 16 {
                left[d] && open
            } else {
                taken[d - 16]
            };
            seeds.push(on);
            proof {
                let x = 32 * i + d;
                assert(x / 32 == i && x % 32 == d);
                assert(on == f(x));
            }
            d = d + 1;
        }
        i = i + 1;
    }
    seeds
}

/// The exits that still matter, and the stack pointer's: frame recovery reads that to size
/// the frame.
pub open spec fn kept_exits(cfg: Seq<Block>, blocks: Seq<SchedBlock>, i: int) -> Seq<(Reg, Operand)> {
    blocks[i].exits@.filter(|e: (Reg, Operand)| e.0 == Reg::Rsp || live_out(cfg, blocks, i, e.0))
}

fn retain_exits(
    exits: &Vec<(Reg, Operand)>,
    marks: &Vec<bool>,
    i: usize,
    Ghost(keep): Ghost<spec_fn((Reg, Operand)) -> bool>,
) -> (out: Vec<(Reg, Operand)>)
    requires
        32 * i + 32 <= marks@.len(),
        forall|e: (Reg, Operand)| #[trigger]
            keep(e) == (e.0 == Reg::Rsp || marks@[32 * i + e.0.number()]),
    ensures
        out@ == exits@.filter(keep),
{
    let n: usize = marks.len();
    let mut out: Vec<(Reg, Operand)> = Vec::new();
    let mut k: usize = 0;
    proof {
        assert(exits@.take(0).filter(keep) =~= Seq::<(Reg, Operand)>::empty()) by {
            reveal(Seq::filter);
        }
    }
    while k < exits.len()
        invariant
            k <= exits@.len(),
            n == marks@.len(),
            32 * i + 32 <= marks@.len(),
            forall|e: (Reg, Operand)| #[trigger]
                keep(e) == (e.0 == Reg::Rsp || marks@[32 * i + e.0.number()]),
            out@ == exits@.take(k as int).filter(keep),
        decreases exits@.len() - k,
    {
        let e = exits[k];
        let at: usize = 32 * i + e.0.number() as usize;
        proof {
            assert(exits@.take(k + 1) =~= exits@.take(k as int).push(e));
            exits@.take(k as int).lemma_filter_push(e, keep);
            assert(keep(e) == (e.0 == Reg::Rsp || marks@[at as int]));
        }
        if e.0 == Reg::Rsp || marks[at] {
            out.push(e);
        }
        k = k + 1;
    }
    proof {
        assert(exits@.take(exits@.len() as int) =~= exits@);
    }
    out
}

/// Drop the exits of registers that nothing after the block reads.
pub fn prune_dead_exits(cfg: &Cfg, blocks: &mut Vec<SchedBlock>)
    requires
        old(blocks)@.len() == cfg.blocks@.len(),
        32 * old(blocks)@.len() <= usize::MAX,
    ensures
        final(blocks)@.len() == old(blocks)@.len(),
        forall|i: int|
            0 <= i < old(blocks)@.len() ==> (#[trigger] final(blocks)@[i]) == (SchedBlock {
                exits: final(blocks)@[i].exits,
                ..old(blocks)@[i]
            }) && final(blocks)@[i].exits@ == kept_exits(cfg.blocks@, old(blocks)@, i),
{
    let ghost b0 = blocks@;
    let n: usize = blocks.len();
    let succ = need_lists(&cfg.blocks, blocks);
    let seeds = seed_marks(&cfg.blocks, blocks);
    let mut mask: Vec<bool> = Vec::new();
    while mask.len() < 32 * n
        invariant
            n == blocks@.len(),
            32 * n <= usize::MAX,
            mask@.len() <= 32 * n,
            forall|x: int| 0 <= x < mask@.len() ==> #[trigger] mask@[x],
        decreases 32 * n - mask@.len(),
    {
        mask.push(true);
    }
    let marks = closure(
        &succ,
        &mask,
        &seeds,
        Ghost(need_edges(cfg.blocks@, b0)),
        Ghost(need_nodes(b0)),
        Ghost(need_seeds(cfg.blocks@, b0)),
    );
    let mut k: usize = 0;
    while k < n
        invariant
            k <= n == blocks@.len() == b0.len() == cfg.blocks@.len(),
            marks@.len() == 32 * n,
            forall|x: int|
                0 <= x < marks@.len() ==> #[trigger] marks@[x] == led_to(
                    need_edges(cfg.blocks@, b0),
                    need_nodes(b0),
                    need_seeds(cfg.blocks@, b0),
                    x,
                ),
            forall|i: int|
                0 <= i < n ==> if i < k {
                    (#[trigger] blocks@[i]) == (SchedBlock { exits: blocks@[i].exits, ..b0[i] })
                        && blocks@[i].exits@ == kept_exits(cfg.blocks@, b0, i)
                } else {
                    blocks@[i] == b0[i]
                },
        decreases n - k,
    {
        let ghost before = blocks@;
        let ghost keep = |e: (Reg, Operand)|
            e.0 == Reg::Rsp || live_out(cfg.blocks@, b0, k as int, e.0);
        proof {
            assert(blocks@[k as int] == b0[k as int]);
            assert forall|e: (Reg, Operand)| #[trigger]
                keep(e) == (e.0 == Reg::Rsp || marks@[32 * k + e.0.number()]) by {
                let x = 32 * k + e.0.number();
                assert(marks@[x] == led_to(
                    need_edges(cfg.blocks@, b0),
                    need_nodes(b0),
                    need_seeds(cfg.blocks@, b0),
                    x,
                ));
            }
        }
        let exits = retain_exits(&blocks[k].exits, &marks, k, Ghost(keep));
        blocks[k].exits = exits;
        proof {
            assert forall|i: int| 0 <= i < n implies if i < k + 1 {
                (#[trigger] blocks@[i]) == (SchedBlock { exits: blocks@[i].exits, ..b0[i] })
                    && blocks@[i].exits@ == kept_exits(cfg.blocks@, b0, i)
            } else {
                blocks@[i] == b0[i]
            } by {
                if i != k {
                    assert(blocks@[i] == before[i]);
                }
            }
        }
        k = k + 1;
    }
}

/// A register that matters on entry to what a block leads to matters where it is left; one
/// that matters where it is left and takes its value from another's entry makes that one
/// matter on entry. So what is dropped is read by nothing that follows.
pub proof fn what_follows_reads_is_kept(
    cfg: Seq<Block>,
    blocks: Seq<SchedBlock>,
    i: int,
    j: int,
    r: Reg,
)
    requires
        cfg.len() == blocks.len(),
        0 <= i < blocks.len(),
        0 <= j < blocks.len(),
        leads_into(cfg, i, j),
        takes(cfg[j], blocks[j], r.number() as int) || exists|q: Reg|
            live_out(cfg, blocks, j, q) && #[trigger] hands_on(
                cfg[j],
                blocks[j],
                q.number() as int,
                r.number() as int,
            ),
    ensures
        live_out(cfg, blocks, i, r),
{
    let e = need_edges(cfg, blocks);
    let nodes = need_nodes(blocks);
    let seeds = need_seeds(cfg, blocks);
    let x = 32 * j + 16 + r.number();
    let y = 32 * i + r.number();
    assert(x / 32 == j && x % 32 == 16 + r.number());
    assert(y / 32 == i && y % 32 == r.number());
    if takes(cfg[j], blocks[j], r.number() as int) {
        let p = seq![x];
        assert(crate::ir::closure::is_walk(e, nodes, p));
        assert(seeds(p[0]));
        assert(led_to(e, nodes, seeds, x));
    } else {
        let q = choose|q: Reg|
            live_out(cfg, blocks, j, q) && #[trigger] hands_on(
                cfg[j],
                blocks[j],
                q.number() as int,
                r.number() as int,
            );
        let z = 32 * j + q.number();
        assert(z / 32 == j && z % 32 == q.number());
        crate::ir::closure::lemma_walk_push(e, nodes, seeds, z, x);
    }
    crate::ir::closure::lemma_walk_push(e, nodes, seeds, x, y);
}

} // verus!
