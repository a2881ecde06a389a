//! How the blocks of a graph hang together.

use crate::ir::edges::arms_of;
use crate::ir::expr::Ref;
use crate::ir::flow::{
    block_phis, handed, ids, incoming, last_index, lemma_last_index, lemma_phi_source,
    lemma_value_in, phis_upto, successors_spec, value_in, PhiView,
};
use crate::ir::graph::{Block, BlockId};
use crate::ir::value::{Reg, Width};
use crate::ir::x86::{register_part, AH, AL, AX, EAX, RAX, SPL};
use crate::vm::joining::leads;
use crate::vm::order::id_before;
use crate::vm::validate::{dangling_of, dangling_upto};
use vstd::prelude::*;

verus! {

/// Whether some block has an identity and leaves a value in a register.
pub open spec fn leaves(blocks: Seq<Block>, id: BlockId, r: Reg, v: Ref) -> bool {
    exists|k: int|
        0 <= k < blocks.len() && (#[trigger] blocks[k]).id == id && blocks[k].exit_regs@.contains(
            (r, v),
        )
}

/// Whether what comes in along an edge is what the block at its start leaves in a register.
pub open spec fn comes_in(blocks: Seq<Block>, r: Reg, edge: (BlockId, Option<Ref>)) -> bool {
    match edge.1 {
        Some(v) => leaves(blocks, edge.0, r, v),
        None => forall|v: Ref| !#[trigger] leaves(blocks, edge.0, r, v),
    }
}

/// Whether a phi is that of a block's parameter: it has an edge for each predecessor, in
/// order, and along each comes what the predecessor leaves in the parameter's register.
pub open spec fn is_phi_of(blocks: Seq<Block>, p: PhiView, k: int, j: int) -> bool {
    &&& p.block == blocks[k].id
    &&& p.reg == blocks[k].params@[j].0
    &&& p.param == blocks[k].params@[j].1
    &&& p.incoming.len() == blocks[k].preds@.len()
    &&& forall|m: int|
        0 <= m < p.incoming.len() ==> (#[trigger] p.incoming[m]).0 == blocks[k].preds@[m]
            && comes_in(blocks, p.reg, p.incoming[m])
}

/// Whether no two blocks have one identity.
pub open spec fn told_apart(blocks: Seq<Block>) -> bool {
    forall|i: int, j: int|
        0 <= i < blocks.len() && 0 <= j < blocks.len() && (#[trigger] blocks[i]).id == (
        #[trigger] blocks[j]).id ==> i == j
}

proof fn lemma_value_found(regs: Seq<(Reg, Ref)>, r: Reg, v: Ref)
    requires
        regs.contains((r, v)),
    ensures
        value_in(regs, r) is Some,
    decreases regs.len(),
{
    let j = choose|j: int| 0 <= j < regs.len() && regs[j] == (r, v);
    if regs[0].0 != r {
        assert(regs.skip(1)[j - 1] == (r, v));
        assert(regs.skip(1).contains((r, v)));
        lemma_value_found(regs.skip(1), r, v);
    }
}

proof fn lemma_last_found(all: Seq<BlockId>, id: BlockId, k: int)
    requires
        0 <= k < all.len(),
        all[k] == id,
    ensures
        last_index(all, id) is Some,
    decreases all.len(),
{
    if all.last() != id {
        assert(all.drop_last()[k] == id);
        lemma_last_found(all.drop_last(), id, k);
    }
}

proof fn lemma_comes_in(blocks: Seq<Block>, p: BlockId, r: Reg)
    requires
        told_apart(blocks),
    ensures
        comes_in(blocks, r, (p, handed(blocks, p, r))),
{
    lemma_last_index(ids(blocks), p);
    match last_index(ids(blocks), p) {
        Some(k) => {
            assert(ids(blocks)[k] == p);
            match value_in(blocks[k].exit_regs@, r) {
                Some(v) => {
                    let j = lemma_value_in(blocks[k].exit_regs@, r);
                    assert(blocks[k].exit_regs@[j] == (r, v));
                    assert(leaves(blocks, p, r, v));
                },
                None => {
                    assert forall|v: Ref| !#[trigger] leaves(blocks, p, r, v) by {
                        if leaves(blocks, p, r, v) {
                            let q = choose|q: int|
                                0 <= q < blocks.len() && (#[trigger] blocks[q]).id == p
                                    && blocks[q].exit_regs@.contains((r, v));
                            assert(blocks[k].id == p);
                            lemma_value_found(blocks[q].exit_regs@, r, v);
                        }
                    }
                },
            }
        },
        None => {
            assert forall|v: Ref| !#[trigger] leaves(blocks, p, r, v) by {
                if leaves(blocks, p, r, v) {
                    let q = choose|q: int|
                        0 <= q < blocks.len() && (#[trigger] blocks[q]).id == p
                            && blocks[q].exit_regs@.contains((r, v));
                    assert(ids(blocks)[q] == p);
                    lemma_last_found(ids(blocks), p, q);
                }
            }
        },
    }
}

proof fn lemma_is_phi(blocks: Seq<Block>, k: int, j: int, p: PhiView)
    requires
        told_apart(blocks),
        0 <= k < blocks.len(),
        0 <= j < blocks[k].params@.len(),
        p == (PhiView {
            block: blocks[k].id,
            reg: blocks[k].params@[j].0,
            param: blocks[k].params@[j].1,
            incoming: incoming(blocks, blocks[k], blocks[k].params@[j].0),
        }),
    ensures
        is_phi_of(blocks, p, k, j),
{
    assert forall|m: int| 0 <= m < p.incoming.len() implies (#[trigger] p.incoming[m]).0
        == blocks[k].preds@[m] && comes_in(blocks, p.reg, p.incoming[m]) by {
        lemma_comes_in(blocks, blocks[k].preds@[m], p.reg);
    }
}

/// Every parameter of every block has its phi.
pub proof fn every_parameter_has_its_phi(blocks: Seq<Block>, k: int, j: int) -> (i: int)
    requires
        told_apart(blocks),
        0 <= k < blocks.len(),
        0 <= j < blocks[k].params@.len(),
    ensures
        0 <= i < phis_upto(blocks, blocks.len() as int).len(),
        is_phi_of(blocks, phis_upto(blocks, blocks.len() as int)[i], k, j),
{
    let i = lemma_phi_place(blocks, blocks.len() as int, k, j);
    lemma_is_phi(blocks, k, j, phis_upto(blocks, blocks.len() as int)[i]);
    i
}

proof fn lemma_phi_place(blocks: Seq<Block>, n: int, k: int, j: int) -> (i: int)
    requires
        0 <= k < n <= blocks.len(),
        0 <= j < blocks[k].params@.len(),
    ensures
        0 <= i < phis_upto(blocks, n).len(),
        phis_upto(blocks, n)[i] == (PhiView {
            block: blocks[k].id,
            reg: blocks[k].params@[j].0,
            param: blocks[k].params@[j].1,
            incoming: incoming(blocks, blocks[k], blocks[k].params@[j].0),
        }),
    decreases n,
{
    let before = phis_upto(blocks, n - 1);
    let own = block_phis(blocks, blocks[n - 1], blocks[n - 1].params@.len() as int);
    assert(phis_upto(blocks, n) == before + own);
    if k == n - 1 {
        assert((before + own)[before.len() + j] == own[j]);
        before.len() + j
    } else {
        let i = lemma_phi_place(blocks, n - 1, k, j);
        assert((before + own)[i] == before[i]);
        i
    }
}

/// Every phi is that of a parameter.
pub proof fn every_phi_is_of_a_parameter(blocks: Seq<Block>, i: int) -> (at: (int, int))
    requires
        told_apart(blocks),
        0 <= i < phis_upto(blocks, blocks.len() as int).len(),
    ensures
        0 <= at.0 < blocks.len(),
        0 <= at.1 < blocks[at.0].params@.len(),
        is_phi_of(blocks, phis_upto(blocks, blocks.len() as int)[i], at.0, at.1),
{
    let at = lemma_phi_source(blocks, blocks.len() as int, i);
    lemma_is_phi(blocks, at.0, at.1, phis_upto(blocks, blocks.len() as int)[i]);
    at
}

/// Whether a block of a list has an identity.
pub open spec fn stands(blocks: Seq<Block>, id: BlockId) -> bool {
    exists|k: int| 0 <= k < blocks.len() && (#[trigger] blocks[k]).id == id
}

proof fn lemma_stands(blocks: Seq<Block>, id: BlockId)
    ensures
        ids(blocks).contains(id) <==> stands(blocks, id),
{
    if stands(blocks, id) {
        let k = choose|k: int| 0 <= k < blocks.len() && (#[trigger] blocks[k]).id == id;
        assert(ids(blocks)[k] == id);
    }
    if ids(blocks).contains(id) {
        let k = choose|k: int| 0 <= k < ids(blocks).len() && ids(blocks)[k] == id;
        assert(blocks[k].id == id);
    }
}

proof fn lemma_dangling_of(blocks: Seq<Block>, from: BlockId, succ: Seq<BlockId>, k: int, to: BlockId)
    requires
        0 <= k <= succ.len(),
    ensures
        dangling_of(blocks, from, succ, k).contains((from, to)) <==> !stands(blocks, to) && succ.take(
            k,
        ).contains(to),
        forall|x: (BlockId, BlockId)| #[trigger]
            dangling_of(blocks, from, succ, k).contains(x) ==> x.0 == from,
    decreases k,
{
    if k > 0 {
        lemma_dangling_of(blocks, from, succ, k - 1, to);
        lemma_stands(blocks, succ[k - 1]);
        let before = dangling_of(blocks, from, succ, k - 1);
        let now = dangling_of(blocks, from, succ, k);
        assert(succ.take(k) =~= succ.take(k - 1).push(succ[k - 1]));
        assert forall|x: BlockId| #[trigger] succ.take(k).contains(x) <==> succ.take(k - 1).contains(x)
            || x == succ[k - 1] by {
            lemma_pushed_has(succ.take(k - 1), succ[k - 1], x);
        }
        if !ids(blocks).contains(succ[k - 1]) {
            assert forall|x: (BlockId, BlockId)| #[trigger] now.contains(x) <==> before.contains(x)
                || x == (from, succ[k - 1]) by {
                lemma_pushed_has(before, (from, succ[k - 1]), x);
            }
        }
    }
}

proof fn lemma_pushed_has<A>(s: Seq<A>, v: A, x: A)
    ensures
        s.push(v).contains(x) <==> s.contains(x) || x == v,
{
    if s.contains(x) {
        let i = choose|i: int| 0 <= i < s.len() && s[i] == x;
        assert(s.push(v)[i] == x);
    }
    if x == v {
        assert(s.push(v)[s.len() as int] == x);
    }
    if s.push(v).contains(x) {
        let i = choose|i: int| 0 <= i < s.push(v).len() && s.push(v)[i] == x;
        if i < s.len() {
            assert(s[i] == x);
        }
    }
}

proof fn lemma_joined_has<A>(s: Seq<A>, t: Seq<A>, x: A)
    ensures
        (s + t).contains(x) <==> s.contains(x) || t.contains(x),
{
    if s.contains(x) {
        let i = choose|i: int| 0 <= i < s.len() && s[i] == x;
        assert((s + t)[i] == x);
    }
    if t.contains(x) {
        let i = choose|i: int| 0 <= i < t.len() && t[i] == x;
        assert((s + t)[s.len() + i] == x);
    }
    if (s + t).contains(x) {
        let i = choose|i: int| 0 <= i < (s + t).len() && (s + t)[i] == x;
        if i < s.len() {
            assert(s[i] == x);
        } else {
            assert(t[i - s.len()] == x);
        }
    }
}

proof fn lemma_dangling(blocks: Seq<Block>, n: int, from: BlockId, to: BlockId)
    requires
        0 <= n <= blocks.len(),
    ensures
        dangling_upto(blocks, n).contains((from, to)) <==> !stands(blocks, to) && leads(
            blocks.take(n),
            from,
            to,
        ),
    decreases n,
{
    if n > 0 {
        lemma_dangling(blocks, n - 1, from, to);
        let b = blocks[n - 1];
        let s = successors_spec(b.terminator);
        assert(s == arms_of(b.terminator));
        lemma_dangling_of(blocks, b.id, s, s.len() as int, to);
        assert(s.take(s.len() as int) =~= s);
        let own = dangling_of(blocks, b.id, s, s.len() as int);
        lemma_joined_has(dangling_upto(blocks, n - 1), own, (from, to));
        assert(blocks.take(n)[n - 1] == b);
        if leads(blocks.take(n - 1), from, to) {
            let k = choose|k: int|
                0 <= k < n - 1 && (#[trigger] blocks.take(n - 1)[k]).id == from && arms_of(
                    blocks.take(n - 1)[k].terminator,
                ).contains(to);
            assert(blocks.take(n)[k] == blocks.take(n - 1)[k]);
        }
        if leads(blocks.take(n), from, to) {
            let k = choose|k: int|
                0 <= k < n && (#[trigger] blocks.take(n)[k]).id == from && arms_of(
                    blocks.take(n)[k].terminator,
                ).contains(to);
            if k < n - 1 {
                assert(blocks.take(n - 1)[k] == blocks.take(n)[k]);
            }
        }
    }
}

/// The dangling edges are those that lead from a block to where no block stands.
pub proof fn dangling_edges_lead_nowhere(blocks: Seq<Block>, from: BlockId, to: BlockId)
    ensures
        dangling_upto(blocks, blocks.len() as int).contains((from, to)) <==> leads(blocks, from, to)
            && !stands(blocks, to),
{
    lemma_dangling(blocks, blocks.len() as int, from, to);
    assert(blocks.take(blocks.len() as int) =~= blocks);
}

/// Identities are in one order: of two that differ one comes first, none comes before itself,
/// and what comes before another comes before all that the other does. A handler's address
/// goes before everything else.
pub proof fn identities_are_in_one_order(a: BlockId, b: BlockId, c: BlockId)
    ensures
        !id_before(a, a),
        a != b ==> id_before(a, b) != id_before(b, a),
        id_before(a, b) && id_before(b, c) ==> id_before(a, c),
        a.handler < b.handler ==> id_before(a, b),
{
}

/// Different numbers are different parts of registers, and a part's register has the number
/// that its own is counted from: from `rax`, `eax`, `ax` and `al` on, with the four second
/// bytes between the first four and the other low bytes.
pub proof fn register_numbers_are_told_apart(x: u32, y: u32)
    ensures
        register_part(x) is Some && register_part(x) == register_part(y) ==> x == y,
        match register_part(x) {
            Some((r, offset, Width::W64)) => offset == 0 && x == RAX + r.number(),
            Some((r, offset, Width::W32)) => offset == 0 && x == EAX + r.number(),
            Some((r, offset, Width::W16)) => offset == 0 && x == AX + r.number(),
            Some((r, offset, Width::W8)) => {
                ||| offset == 1 && x == AH + r.number() && r.number() < 4
                ||| offset == 0 && x == AL + r.number() && r.number() < 4
                ||| offset == 0 && x == SPL + r.number() - 4 && r.number() >= 4
            },
            None => x < AL || x >= RAX + 16,
        },
{
}

} // verus!
