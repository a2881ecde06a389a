//! Control flow between blocks: edges, phis, and blocks that need not exist.

use crate::ir::clear_made::replaced_parameters_are_gone;
use crate::ir::event::{copy_list, BoxedMem, Event};
use crate::ir::expr::{
    eval, extends, has, lemma_extends, nodes_ok, ok_at, op_of, operands, width_of, Arena, Env,
    Node, Op, Ref,
};
use crate::ir::graph::{Block, BlockId, Cfg, Phi, Terminator};
use crate::ir::lower::{block_held, event_held};
use crate::ir::value::{Reg, Width};
use crate::ir::walk::{
    depends, is_leaf, leaves, lemma_operands, replaced, replacements_ok, rewrites,
};
use std::collections::{HashMap, HashSet};
use vstd::prelude::*;

verus! {

broadcast use vstd::std_specs::hash::group_hash_axioms;

/// The blocks a terminator can transfer control to.
pub open spec fn successors_spec(t: Terminator) -> Seq<BlockId> {
    match t {
        Terminator::Jump(x) => seq![x],
        Terminator::Branch { taken, not_taken, .. } => seq![taken, not_taken],
        Terminator::Switch { targets, .. } => targets@,
        Terminator::Backedge { target } => seq![target],
        Terminator::Adopted { taken, not_taken } => seq![taken, not_taken],
        Terminator::AdoptedSwitch { targets } => targets@,
        _ => Seq::empty(),
    }
}

/// The blocks a terminator can transfer control to.
pub fn successors_of(t: &Terminator) -> (v: Vec<BlockId>)
    ensures
        v@ == successors_spec(*t),
{
    let mut v: Vec<BlockId> = Vec::new();
    match t {
        Terminator::Jump(x) => {
            v.push(*x);
        },
        Terminator::Branch { taken, not_taken, .. } => {
            v.push(*taken);
            v.push(*not_taken);
        },
        Terminator::Switch { targets, .. } => {
            return copy_list(targets);
        },
        Terminator::Backedge { target } => {
            v.push(*target);
        },
        Terminator::Adopted { taken, not_taken } => {
            v.push(*taken);
            v.push(*not_taken);
        },
        Terminator::AdoptedSwitch { targets } => {
            return copy_list(targets);
        },
        _ => {},
    }
    proof {
        assert(v@ =~= successors_spec(*t));
    }
    v
}

/// The identities of a list of blocks.
pub open spec fn ids(blocks: Seq<Block>) -> Seq<BlockId> {
    Seq::new(blocks.len(), |k: int| blocks[k].id)
}

/// The first place of an identity.
pub open spec fn first_index(ids: Seq<BlockId>, id: BlockId) -> Option<int>
    decreases ids.len(),
{
    if ids.len() == 0 {
        None
    } else {
        match first_index(ids.drop_last(), id) {
            Some(k) => Some(k),
            None => if ids.last() == id {
                Some(ids.len() - 1)
            } else {
                None
            },
        }
    }
}

/// The last place of an identity.
pub open spec fn last_index(ids: Seq<BlockId>, id: BlockId) -> Option<int>
    decreases ids.len(),
{
    if ids.len() == 0 {
        None
    } else if ids.last() == id {
        Some(ids.len() - 1)
    } else {
        last_index(ids.drop_last(), id)
    }
}

/// The value a register has in a list, from its first entry.
pub open spec fn value_in(regs: Seq<(Reg, Ref)>, r: Reg) -> Option<Ref>
    decreases regs.len(),
{
    if regs.len() == 0 {
        None
    } else if regs[0].0 == r {
        Some(regs[0].1)
    } else {
        value_in(regs.skip(1), r)
    }
}

pub fn find_value(regs: &Vec<(Reg, Ref)>, r: Reg) -> (v: Option<Ref>)
    ensures
        v == value_in(regs@, r),
{
    let mut k: usize = 0;
    proof {
        assert(regs@.skip(0) =~= regs@);
    }
    while k < regs.len()
        invariant
            k <= regs@.len(),
            value_in(regs@, r) == value_in(regs@.skip(k as int), r),
        decreases regs@.len() - k,
    {
        let (x, v) = regs[k];
        proof {
            assert(regs@.skip(k as int)[0] == (x, v));
            assert(regs@.skip(k as int).skip(1) =~= regs@.skip(k + 1));
        }
        if x == r {
            return Some(v);
        }
        k = k + 1;
    }
    proof {
        assert(regs@.skip(k as int).len() == 0);
    }
    None
}

/// The last block with an identity.
pub fn find_last(blocks: &Vec<Block>, id: BlockId) -> (k: Option<usize>)
    ensures
        match k {
            Some(k) => k < blocks@.len() && last_index(ids(blocks@), id) == Some(k as int),
            None => last_index(ids(blocks@), id) is None,
        },
{
    let mut k: usize = blocks.len();
    let ghost all = ids(blocks@);
    proof {
        assert(all.take(all.len() as int) =~= all);
    }
    while k > 0
        invariant
            k <= blocks@.len(),
            all == ids(blocks@),
            last_index(all, id) == last_index(all.take(k as int), id),
        decreases k,
    {
        proof {
            assert(all.take(k as int).last() == blocks@[k - 1].id);
            assert(all.take(k as int).drop_last() =~= all.take(k - 1));
        }
        if blocks[k - 1].id == id {
            return Some(k - 1);
        }
        k = k - 1;
    }
    proof {
        assert(all.take(0).len() == 0);
    }
    None
}

/// What a predecessor hands a register: `None` where it was never recovered, or gives the
/// register no value.
pub open spec fn handed(blocks: Seq<Block>, pred: BlockId, r: Reg) -> Option<Ref> {
    match last_index(ids(blocks), pred) {
        Some(k) => value_in(blocks[k].exit_regs@, r),
        None => None,
    }
}

/// The values a register takes along the edges into a block.
pub open spec fn incoming(blocks: Seq<Block>, b: Block, r: Reg) -> Seq<(BlockId, Option<Ref>)> {
    Seq::new(b.preds@.len(), |i: int| (b.preds@[i], handed(blocks, b.preds@[i], r)))
}

/// What a phi says.
pub ghost struct PhiView {
    pub block: BlockId,
    pub reg: Reg,
    pub param: Ref,
    pub incoming: Seq<(BlockId, Option<Ref>)>,
}

impl View for Phi {
    type V = PhiView;

    open spec fn view(&self) -> PhiView {
        PhiView {
            block: self.block,
            reg: self.reg,
            param: self.param,
            incoming: self.incoming@,
        }
    }
}

/// The phis of a block's first `n` parameters.
pub open spec fn block_phis(blocks: Seq<Block>, b: Block, n: int) -> Seq<PhiView> {
    Seq::new(
        n as nat,
        |j: int|
            PhiView {
                block: b.id,
                reg: b.params@[j].0,
                param: b.params@[j].1,
                incoming: incoming(blocks, b, b.params@[j].0),
            },
    )
}

/// The phis of the first `k` blocks.
pub open spec fn phis_upto(blocks: Seq<Block>, k: int) -> Seq<PhiView>
    decreases k,
{
    if k <= 0 {
        Seq::empty()
    } else {
        phis_upto(blocks, k - 1) + block_phis(blocks, blocks[k - 1], blocks[k - 1].params@.len() as int)
    }
}

/// A list of phis, as what they say.
pub open spec fn phi_views(v: Seq<Phi>) -> Seq<PhiView> {
    Seq::new(v.len(), |i: int| v[i]@)
}

impl Cfg {
    /// The block with an identity.
    pub fn block(&self, id: BlockId) -> (b: Option<&Block>)
        ensures
            match b {
                Some(b) => first_index(ids(self.blocks@), id) matches Some(k) && self.blocks@[k] == *b,
                None => first_index(ids(self.blocks@), id) is None,
            },
    {
        let ghost all = ids(self.blocks@);
        let mut k: usize = 0;
        proof {
            assert(all.take(0).len() == 0);
        }
        while k < self.blocks.len()
            invariant
                k <= self.blocks@.len(),
                all == ids(self.blocks@),
                first_index(all.take(k as int), id) is None,
            decreases self.blocks@.len() - k,
        {
            proof {
                assert(all.take(k + 1).drop_last() =~= all.take(k as int));
                assert(all.take(k + 1).last() == self.blocks@[k as int].id);
            }
            if self.blocks[k].id == id {
                proof {
                    lemma_first_index(all, id, k + 1);
                }
                return Some(&self.blocks[k]);
            }
            k = k + 1;
        }
        proof {
            assert(all.take(all.len() as int) =~= all);
        }
        None
    }

    /// Incoming values for every block parameter, i.e. the phi nodes.
    pub fn phis(&self) -> (out: Vec<Phi>)
        ensures
            phi_views(out@) == phis_upto(self.blocks@, self.blocks@.len() as int),
    {
        let mut out: Vec<Phi> = Vec::new();
        let mut k: usize = 0;
        while k < self.blocks.len()
            invariant
                k <= self.blocks@.len(),
                phi_views(out@) == phis_upto(self.blocks@, k as int),
            decreases self.blocks@.len() - k,
        {
            let b = &self.blocks[k];
            let mut j: usize = 0;
            proof {
                assert(phis_upto(self.blocks@, k as int) + block_phis(self.blocks@, *b, 0)
                    =~= phis_upto(self.blocks@, k as int));
            }
            while j < b.params.len()
                invariant
                    j <= b.params@.len(),
                    phi_views(out@) == phis_upto(self.blocks@, k as int) + block_phis(
                        self.blocks@,
                        *b,
                        j as int,
                    ),
                decreases b.params@.len() - j,
            {
                let (reg, param) = b.params[j];
                let mut values: Vec<(BlockId, Option<Ref>)> = Vec::new();
                let mut i: usize = 0;
                while i < b.preds.len()
                    invariant
                        i <= b.preds@.len(),
                        values@.len() == i,
                        forall|m: int|
                            0 <= m < i ==> #[trigger] values@[m] == (
                                b.preds@[m],
                                handed(self.blocks@, b.preds@[m], reg),
                            ),
                    decreases b.preds@.len() - i,
                {
                    let p = b.preds[i];
                    let v = match find_last(&self.blocks, p) {
                        Some(at) => find_value(&self.blocks[at].exit_regs, reg),
                        None => None,
                    };
                    values.push((p, v));
                    i = i + 1;
                }
                let ghost o0 = out@;
                proof {
                    assert(values@ =~= incoming(self.blocks@, *b, reg));
                }
                out.push(Phi { block: b.id, reg, param, incoming: values });
                proof {
                    assert(phi_views(out@) =~= phi_views(o0).push(out@[o0.len() as int]@));
                    assert(phi_views(out@) =~= phis_upto(self.blocks@, k as int) + block_phis(
                        self.blocks@,
                        *b,
                        j + 1,
                    ));
                }
                j = j + 1;
            }
            k = k + 1;
        }
        out
    }

    /// The blocks control can reach from this one in a step.
    pub fn successors(b: &Block) -> (v: Vec<BlockId>)
        ensures
            v@ == successors_spec(b.terminator),
    {
        successors_of(&b.terminator)
    }
}

proof fn lemma_first_index(all: Seq<BlockId>, id: BlockId, k: int)
    requires
        0 <= k <= all.len(),
        first_index(all.take(k), id) is Some,
    ensures
        first_index(all, id) == first_index(all.take(k), id),
    decreases all.len() - k,
{
    if k == all.len() {
        assert(all.take(k) =~= all);
    } else {
        assert(all.take(k + 1).drop_last() =~= all.take(k));
        lemma_first_index(all, id, k + 1);
    }
}

/// What kind of end a block has.
pub open spec fn kind_text(t: Terminator) -> Seq<char> {
    match t {
        Terminator::Jump(_) => "jump"@,
        Terminator::Branch { .. } => "branch"@,
        Terminator::Switch { .. } => "switch"@,
        Terminator::Return { .. } => "return"@,
        Terminator::TailCall { .. } => "tailcall"@,
        Terminator::Unresolved { .. } => "unresolved"@,
        Terminator::Backedge { .. } => "backedge"@,
        Terminator::Adopted { .. } => "branch (edges only)"@,
        Terminator::AdoptedSwitch { .. } => "switch (edges only)"@,
        Terminator::AdoptedReturn => "return (adopted)"@,
    }
}

/// What kind of end a block has, for people.
pub fn terminator_kind(t: &Terminator) -> (r: &'static str)
    ensures
        r@ == kind_text(*t),
{
    match t {
        Terminator::Jump(_) => "jump",
        Terminator::Branch { .. } => "branch",
        Terminator::Switch { .. } => "switch",
        Terminator::Return { .. } => "return",
        Terminator::TailCall { .. } => "tailcall",
        Terminator::Unresolved { .. } => "unresolved",
        Terminator::Backedge { .. } => "backedge",
        Terminator::Adopted { .. } => "branch (edges only)",
        Terminator::AdoptedSwitch { .. } => "switch (edges only)",
        Terminator::AdoptedReturn => "return (adopted)",
    }
}

/// How many of the first `k` blocks end in a kind.
pub open spec fn kinds_upto(blocks: Seq<Block>, kind: Seq<char>, k: int) -> nat
    decreases k,
{
    if k <= 0 {
        0
    } else {
        kinds_upto(blocks, kind, k - 1) + if kind_text(blocks[k - 1].terminator) == kind {
            1nat
        } else {
            0nat
        }
    }
}

/// How many blocks end in each kind that occurs, in the order the kinds occur.
pub fn summarize(cfg: &Cfg) -> (m: Vec<(&'static str, usize)>)
    ensures
        forall|i: int|
            0 <= i < m@.len() ==> (#[trigger] m@[i]).1 == kinds_upto(
                cfg.blocks@,
                m@[i].0@,
                cfg.blocks@.len() as int,
            ) && m@[i].1 > 0,
        forall|i: int, j: int| 0 <= i < j < m@.len() ==> (#[trigger] m@[i]).0@ != (#[trigger] m@[j]).0@,
        forall|k: int|
            0 <= k < cfg.blocks@.len() ==> kind_listed(m@, kind_text((#[trigger] cfg.blocks@[k]).terminator)),
{
    let mut m: Vec<(&'static str, usize)> = Vec::new();
    let mut k: usize = 0;
    while k < cfg.blocks.len()
        invariant
            k <= cfg.blocks@.len(),
            forall|i: int|
                0 <= i < m@.len() ==> (#[trigger] m@[i]).1 == kinds_upto(cfg.blocks@, m@[i].0@, k as int)
                    && 0 < m@[i].1 <= k,
            forall|i: int, j: int|
                0 <= i < j < m@.len() ==> (#[trigger] m@[i]).0@ != (#[trigger] m@[j]).0@,
            forall|j: int|
                0 <= j < k ==> kind_listed(m@, kind_text((#[trigger] cfg.blocks@[j]).terminator)),
            forall|kind: Seq<char>|
                !#[trigger] kind_listed(m@, kind) ==> kinds_upto(cfg.blocks@, kind, k as int) == 0,
        decreases cfg.blocks@.len() - k,
    {
        let kind = terminator_kind(&cfg.blocks[k].terminator);
        let ghost m0 = m@;
        let mut i: usize = 0;
        while i < m.len() && !crate::ir::expr::same_text(m[i].0, kind)
            invariant
                i <= m@.len(),
                m@ == m0,
                forall|j: int| 0 <= j < i ==> (#[trigger] m0[j]).0@ != kind@,
            decreases m@.len() - i,
        {
            i = i + 1;
        }
        if i < m.len() {
            let (name, n) = m[i];
            m.set(i, (name, n + 1));
        } else {
            m.push((kind, 1));
            proof {
                assert(!kind_listed(m0, kind@));
            }
        }
        proof {
            assert(m@[i as int].0@ == kind@);
            assert forall|j: int| 0 <= j < m0.len() && j != i implies (#[trigger] m@[j]) == m0[j]
                && m0[j].0@ != kind@ by {
                if j > i {
                    assert(m0[i as int].0@ != m0[j].0@);
                }
            }
            assert forall|t: Seq<char>| #[trigger] kind_listed(m@, t) == (kind_listed(m0, t) || t == kind@) by {
                if kind_listed(m0, t) {
                    let j = choose|j: int| 0 <= j < m0.len() && (#[trigger] m0[j]).0@ == t;
                    assert(m@[j].0@ == t);
                }
                if kind_listed(m@, t) {
                    let j = choose|j: int| 0 <= j < m@.len() && (#[trigger] m@[j]).0@ == t;
                    if j < m0.len() && j != i {
                        assert(m0[j].0@ == t);
                    }
                }
            }
            assert forall|t: Seq<char>| !#[trigger] kind_listed(m@, t) implies kinds_upto(
                cfg.blocks@,
                t,
                k + 1,
            ) == 0 by {
                assert(!kind_listed(m0, t));
            }
            assert forall|x: int| 0 <= x < m@.len() implies (#[trigger] m@[x]).1 == kinds_upto(
                cfg.blocks@,
                m@[x].0@,
                k + 1,
            ) && 0 < m@[x].1 <= k + 1 by {
                if x != i {
                    assert(m@[x] == m0[x]);
                }
            }
        }
        k = k + 1;
    }
    m
}

/// Whether a kind is in the list.
pub open spec fn kind_listed(m: Seq<(&'static str, usize)>, kind: Seq<char>) -> bool {
    exists|i: int| 0 <= i < m.len() && (#[trigger] m[i]).0@ == kind
}

/// Whether every reference of the graph is to a node of its arena, and guest registers
/// hold 64-bit values.
pub open spec fn cfg_ok(cfg: Cfg) -> bool {
    &&& cfg.arena.wf()
    &&& blocks_ok(cfg.arena.nodes@, cfg.blocks@)
}

/// Whether every reference of the blocks is to a node, and guest registers hold 64-bit
/// values.
pub open spec fn blocks_ok(ns: Seq<Node>, blocks: Seq<Block>) -> bool {
    forall|k: int| 0 <= k < blocks.len() ==> block_ok(ns, #[trigger] blocks[k])
}

/// Whether every reference of a block is to a node, and guest registers hold 64-bit values.
pub open spec fn block_ok(ns: Seq<Node>, b: Block) -> bool {
    &&& block_held(ns, b)
    &&& forall|j: int| 0 <= j < b.exit_regs@.len() ==> width_of(ns, (#[trigger] b.exit_regs@[j]).1) == Width::W64
    &&& forall|j: int| 0 <= j < b.params@.len() ==> width_of(ns, (#[trigger] b.params@[j]).1) == Width::W64
}

/// What stands for an expression is computed from no replaced parameter, where no replacement is.
#[verifier::opaque]
pub open spec fn freed(ns: Seq<Node>, now: Seq<Node>, map: Map<usize, Ref>, after: Ref) -> bool {
    apart(ns, map) && params_only(ns, map) ==> forall|k: usize| #[trigger]
        map.dom().contains(k) ==> !depends(now, after, Ref { idx: k })
}

/// Whether a reference of the new graph is what replacing makes of one of the old.
pub open spec fn rewritten_ref(
    ns: Seq<Node>,
    now: Seq<Node>,
    map: Map<usize, Ref>,
    before: Ref,
    after: Ref,
) -> bool {
    &&& has(now, after)
    &&& width_of(now, after) == width_of(ns, before)
    &&& freed(ns, now, map, after)
    &&& forall|e: Env| #[trigger] eval(now, after, e) == replaced(ns, before, map, e)
}

/// The same for each value of a list of registers.
pub open spec fn rewritten_regs<K>(
    ns: Seq<Node>,
    now: Seq<Node>,
    map: Map<usize, Ref>,
    before: Seq<(K, Ref)>,
    after: Seq<(K, Ref)>,
) -> bool {
    &&& after.len() == before.len()
    &&& forall|j: int|
        0 <= j < before.len() ==> (#[trigger] after[j]).0 == before[j].0 && rewritten_ref(
            ns,
            now,
            map,
            before[j].1,
            after[j].1,
        )
}

/// The same for an event.
pub open spec fn rewritten_event(
    ns: Seq<Node>,
    now: Seq<Node>,
    map: Map<usize, Ref>,
    before: Event,
    after: Event,
) -> bool {
    match (before, after) {
        (
            Event::Store { addr, value, width, site, region },
            Event::Store { addr: a1, value: v1, width: w1, site: s1, region: r1 },
        ) => rewritten_ref(ns, now, map, addr, a1) && rewritten_ref(ns, now, map, value, v1) && width
            == w1 && site == s1 && region == r1,
        (
            Event::Load { addr, value, width, site, region },
            Event::Load { addr: a1, value: v1, width: w1, site: s1, region: r1 },
        ) => rewritten_ref(ns, now, map, addr, a1) && rewritten_ref(ns, now, map, value, v1) && width
            == w1 && site == s1 && region == r1,
        (
            Event::Call { target, site, rsp, import_slot, args, ret },
            Event::Call { target: t1, site: s1, rsp: p1, import_slot: i1, args: a1, ret: r1 },
        ) => {
            &&& match (target, t1) {
                (Some(t), Some(u)) => rewritten_ref(ns, now, map, t, u),
                (None, None) => true,
                _ => false,
            }
            &&& site == s1 && rsp == p1 && import_slot == i1 && ret == r1
            &&& rewritten_regs(ns, now, map, args@, a1@)
        },
        (
            Event::Boxed { site, text, bytes, mem, defs, uses },
            Event::Boxed { site: s1, text: t1, bytes: b1, mem: m1, defs: d1, uses: u1 },
        ) => {
            &&& site == s1 && text == t1 && bytes == b1
            &&& match (mem, m1) {
                (Some(m), Some(n)) => rewritten_ref(ns, now, map, m.addr, n.addr) && n.bytes == m.bytes
                    && n.writes == m.writes,
                (None, None) => true,
                _ => false,
            }
            &&& rewritten_regs(ns, now, map, defs@, d1@)
            &&& rewritten_regs(ns, now, map, uses@, u1@)
        },
        _ => false,
    }
}

/// The same for a terminator.
pub open spec fn rewritten_terminator(
    ns: Seq<Node>,
    now: Seq<Node>,
    map: Map<usize, Ref>,
    before: Terminator,
    after: Terminator,
) -> bool {
    match (before, after) {
        (
            Terminator::Branch { predicate, taken, not_taken },
            Terminator::Branch { predicate: p1, taken: t1, not_taken: n1 },
        ) => rewritten_ref(ns, now, map, predicate, p1) && taken == t1 && not_taken == n1,
        (
            Terminator::Switch { selector, targets },
            Terminator::Switch { selector: s1, targets: t1 },
        ) => rewritten_ref(ns, now, map, selector, s1) && targets == t1,
        (Terminator::Return { dest }, Terminator::Return { dest: d1 }) => rewritten_ref(
            ns,
            now,
            map,
            dest,
            d1,
        ),
        _ => after == before,
    }
}

/// The parameters that are not replaced.
pub open spec fn kept_params(params: Seq<(Reg, Ref)>, map: Map<usize, Ref>) -> Seq<(Reg, Ref)> {
    params.filter(|p: (Reg, Ref)| !map.dom().contains(p.1.idx))
}

/// Whether a block is another with every expression rewritten and the replaced parameters
/// gone.
pub open spec fn rewritten_block(
    ns: Seq<Node>,
    now: Seq<Node>,
    map: Map<usize, Ref>,
    before: Block,
    after: Block,
) -> bool {
    &&& after.id == before.id
    &&& after.block_ref == before.block_ref
    &&& after.from_vm_context == before.from_vm_context
    &&& after.cost == before.cost
    &&& after.preds == before.preds
    &&& after.params@ == kept_params(before.params@, map)
    &&& rewritten_regs(ns, now, map, before.exit_regs@, after.exit_regs@)
    &&& after.events@.len() == before.events@.len()
    &&& forall|j: int|
        0 <= j < before.events@.len() ==> rewritten_event(
            ns,
            now,
            map,
            before.events@[j],
            #[trigger] after.events@[j],
        )
    &&& rewritten_terminator(ns, now, map, before.terminator, after.terminator)
}

/// Replacing in a larger arena makes what it made in the smaller.
proof fn lemma_replaced_extends(ns: Seq<Node>, now: Seq<Node>, r: Ref, map: Map<usize, Ref>, e: Env)
    requires
        nodes_ok(ns),
        extends(ns, now),
        has(ns, r),
        replacements_ok(ns, map),
    ensures
        replaced(now, r, map, e) == replaced(ns, r, map, e),
    decreases r.idx,
{
    assert(ok_at(ns, r.idx as int));
    if map.dom().contains(r.idx) {
        lemma_extends(ns, now, map[r.idx], e);
    } else {
        match op_of(ns, r) {
            Op::Load(a, _) => {
                lemma_replaced_extends(ns, now, a, map, e);
            },
            Op::Bin(_, a, b) => {
                lemma_replaced_extends(ns, now, a, map, e);
                lemma_replaced_extends(ns, now, b, map, e);
            },
            Op::Un(_, a) => {
                lemma_replaced_extends(ns, now, a, map, e);
            },
            Op::Zext(a) => {
                lemma_replaced_extends(ns, now, a, map, e);
            },
            Op::Sext(a) => {
                lemma_replaced_extends(ns, now, a, map, e);
            },
            Op::Trunc(a) => {
                lemma_replaced_extends(ns, now, a, map, e);
            },
            Op::Select(c, a, b) => {
                lemma_replaced_extends(ns, now, c, map, e);
                lemma_replaced_extends(ns, now, a, map, e);
                lemma_replaced_extends(ns, now, b, map, e);
            },
            _ => {
                lemma_extends(ns, now, r, e);
            },
        }
    }
}

/// What a node depends on stays the same while the arena grows.
pub proof fn lemma_depends_kept(ns: Seq<Node>, now: Seq<Node>, r: Ref, x: Ref)
    requires
        nodes_ok(ns),
        extends(ns, now),
        has(ns, r),
    ensures
        depends(now, r, x) == depends(ns, r, x),
    decreases r.idx,
{
    assert(op_of(now, r) == op_of(ns, r));
    lemma_operands(ns, r);
    assert forall|c: Ref| #[trigger] operands(op_of(ns, r)).contains(c) implies depends(now, c, x)
        == depends(ns, c, x) by {
        lemma_depends_kept(ns, now, c, x);
    }
}

/// What a rewritten expression becomes depends on nothing that was replaced.
proof fn lemma_freed(
    ns: Seq<Node>,
    mid: Seq<Node>,
    r: Ref,
    map: Map<usize, Ref>,
    order: Seq<Ref>,
    depth: nat,
    now: Seq<Node>,
    out: Ref,
)
    requires
        nodes_ok(ns),
        nodes_ok(mid),
        extends(ns, mid),
        has(ns, r),
        mid.len() <= usize::MAX,
        now.len() <= usize::MAX,
        replacements_ok(ns, map),
        forall|k: usize| #[trigger] map.dom().contains(k) ==> k < ns.len(),
        rewrites(mid, r, map, order, depth, now, out),
    ensures
        freed(ns, now, map, out),
{
    reveal(freed);
    if apart(ns, map) && params_only(ns, map) {
        assert forall|k: usize, x: Ref|
            #![trigger map.dom().contains(k), map.dom().contains(x.idx)]
            map.dom().contains(k) && map.dom().contains(x.idx) implies !depends(mid, map[k], x) by {
            lemma_depends_kept(ns, mid, map[k], x);
        }
        assert forall|k: usize| #[trigger] map.dom().contains(k) implies !depends(
            now,
            out,
            Ref { idx: k },
        ) by {
            replaced_parameters_are_gone(mid, r, map, order, depth, now, out, Ref { idx: k });
        }
    }
}

/// What was rewritten stays so while the arena grows.
proof fn lemma_rewritten_grows(
    ns: Seq<Node>,
    mid: Seq<Node>,
    now: Seq<Node>,
    map: Map<usize, Ref>,
    before: Ref,
    after: Ref,
)
    requires
        rewritten_ref(ns, mid, map, before, after),
        nodes_ok(mid),
        extends(mid, now),
    ensures
        rewritten_ref(ns, now, map, before, after),
{
    assert forall|e: Env| #[trigger] eval(now, after, e) == replaced(ns, before, map, e) by {
        lemma_extends(mid, now, after, e);
        assert(eval(mid, after, e) == replaced(ns, before, map, e));
    }
    assert(freed(ns, now, map, after)) by {
        reveal(freed);
        assert forall|k: usize| #[trigger] map.dom().contains(k) implies depends(
            now,
            after,
            Ref { idx: k },
        ) == depends(mid, after, Ref { idx: k }) by {
            lemma_depends_kept(mid, now, after, Ref { idx: k });
        }
    }
}

proof fn lemma_regs_grow<K>(
    ns: Seq<Node>,
    mid: Seq<Node>,
    now: Seq<Node>,
    map: Map<usize, Ref>,
    before: Seq<(K, Ref)>,
    after: Seq<(K, Ref)>,
)
    requires
        rewritten_regs(ns, mid, map, before, after),
        nodes_ok(mid),
        extends(mid, now),
    ensures
        rewritten_regs(ns, now, map, before, after),
{
    assert forall|j: int| 0 <= j < before.len() implies (#[trigger] after[j]).0 == before[j].0 && rewritten_ref(
        ns,
        now,
        map,
        before[j].1,
        after[j].1,
    ) by {
        lemma_rewritten_grows(ns, mid, now, map, before[j].1, after[j].1);
    }
}

proof fn lemma_event_grows(
    ns: Seq<Node>,
    mid: Seq<Node>,
    now: Seq<Node>,
    map: Map<usize, Ref>,
    before: Event,
    after: Event,
)
    requires
        rewritten_event(ns, mid, map, before, after),
        nodes_ok(mid),
        extends(mid, now),
    ensures
        rewritten_event(ns, now, map, before, after),
{
    match (before, after) {
        (Event::Store { addr, value, .. }, Event::Store { addr: a1, value: v1, .. }) => {
            lemma_rewritten_grows(ns, mid, now, map, addr, a1);
            lemma_rewritten_grows(ns, mid, now, map, value, v1);
        },
        (Event::Load { addr, value, .. }, Event::Load { addr: a1, value: v1, .. }) => {
            lemma_rewritten_grows(ns, mid, now, map, addr, a1);
            lemma_rewritten_grows(ns, mid, now, map, value, v1);
        },
        (Event::Call { target, args, .. }, Event::Call { target: t1, args: a1, .. }) => {
            lemma_regs_grow(ns, mid, now, map, args@, a1@);
            if let (Some(t), Some(u)) = (target, t1) {
                lemma_rewritten_grows(ns, mid, now, map, t, u);
            }
        },
        (Event::Boxed { mem, defs, uses, .. }, Event::Boxed { mem: m1, defs: d1, uses: u1, .. }) => {
            lemma_regs_grow(ns, mid, now, map, defs@, d1@);
            lemma_regs_grow(ns, mid, now, map, uses@, u1@);
            if let (Some(m), Some(n)) = (mem, m1) {
                lemma_rewritten_grows(ns, mid, now, map, m.addr, n.addr);
            }
        },
        _ => {},
    }
}

/// Rewrite one reference.
fn rewrite_ref(
    arena: &mut Arena,
    r: Ref,
    map: &HashMap<usize, Ref>,
    Ghost(ns): Ghost<Seq<Node>>,
) -> (out: Ref)
    requires
        old(arena).wf(),
        nodes_ok(ns),
        extends(ns, old(arena).nodes@),
        has(ns, r),
        replacements_ok(ns, map@),
        forall|k: usize| #[trigger] map@.dom().contains(k) ==> k < ns.len(),
    ensures
        final(arena).grows(*old(arena)),
        extends(ns, final(arena).nodes@),
        rewritten_ref(ns, final(arena).nodes@, map@, r, out),
{
    let ghost mid = arena.nodes@;
    proof {
        assert forall|k: usize| #[trigger] map@.dom().contains(k) && k < mid.len() implies has(
            mid,
            map@[k],
        ) && width_of(mid, map@[k]) == mid[k as int].width by {
            assert(has(ns, map@[k]));
        }
    }
    let out = arena.rewrite(r, map);
    proof {
        assert forall|e: Env| #[trigger] eval(arena.nodes@, out, e) == replaced(ns, r, map@, e) by {
            lemma_replaced_extends(ns, mid, r, map@, e);
        }
        if map@.dom().len() == 0 {
            reveal(freed);
            assert forall|k: usize| #[trigger] map@.dom().contains(k) implies false by {
                assert(map@.dom().remove(k).len() + 1 == map@.dom().len());
            }
        } else {
            let depth = old(arena).trunc_depth as nat;
            let order = choose|order: Seq<Ref>| #[trigger]
                rewrites(mid, r, map@, order, depth, arena.nodes@, out);
            assert(old(arena).nodes.len() == mid.len() && arena.nodes.len() == arena.nodes@.len());
            lemma_freed(ns, mid, r, map@, order, depth, arena.nodes@, out);
        }
    }
    out
}

/// Rewrite the values of a list of registers.
fn rewrite_regs<K: Copy>(
    arena: &mut Arena,
    regs: &mut Vec<(K, Ref)>,
    map: &HashMap<usize, Ref>,
    Ghost(ns): Ghost<Seq<Node>>,
)
    requires
        old(arena).wf(),
        nodes_ok(ns),
        extends(ns, old(arena).nodes@),
        forall|j: int| 0 <= j < old(regs)@.len() ==> has(ns, (#[trigger] old(regs)@[j]).1),
        replacements_ok(ns, map@),
        forall|k: usize| #[trigger] map@.dom().contains(k) ==> k < ns.len(),
    ensures
        final(arena).grows(*old(arena)),
        extends(ns, final(arena).nodes@),
        rewritten_regs(ns, final(arena).nodes@, map@, old(regs)@, final(regs)@),
{
    let ghost r0 = regs@;
    let ghost a0 = *arena;
    let mut j: usize = 0;
    while j < regs.len()
        invariant
            j <= regs@.len() == r0.len(),
            arena.grows(a0),
            a0.wf(),
            nodes_ok(ns),
            extends(ns, arena.nodes@),
            forall|j: int| 0 <= j < r0.len() ==> has(ns, (#[trigger] r0[j]).1),
            replacements_ok(ns, map@),
            forall|k: usize| #[trigger] map@.dom().contains(k) ==> k < ns.len(),
            forall|i: int|
                0 <= i < r0.len() ==> (#[trigger] regs@[i]).0 == r0[i].0 && if i < j {
                    rewritten_ref(ns, arena.nodes@, map@, r0[i].1, regs@[i].1)
                } else {
                    regs@[i] == r0[i]
                },
        decreases regs@.len() - j,
    {
        let (x, v) = regs[j];
        let ghost mid = *arena;
        let ghost regs0 = regs@;
        proof {
            assert(regs@[j as int] == r0[j as int]);
            assert(has(ns, r0[j as int].1));
        }
        let w = rewrite_ref(arena, v, map, Ghost(ns));
        regs.set(j, (x, w));
        proof {
            assert forall|i: int| 0 <= i < r0.len() implies (#[trigger] regs@[i]).0 == r0[i].0 && if i < j
                + 1 {
                rewritten_ref(ns, arena.nodes@, map@, r0[i].1, regs@[i].1)
            } else {
                regs@[i] == r0[i]
            } by {
                if i < j {
                    assert(regs@[i] == regs0[i]);
                    lemma_rewritten_grows(ns, mid.nodes@, arena.nodes@, map@, r0[i].1, regs@[i].1);
                }
            }
        }
        j = j + 1;
    }
}

/// Rewrite the expressions inside an event through `map`.
fn rewrite_event(
    arena: &mut Arena,
    e: &mut Event,
    map: &HashMap<usize, Ref>,
    Ghost(ns): Ghost<Seq<Node>>,
)
    requires
        old(arena).wf(),
        nodes_ok(ns),
        extends(ns, old(arena).nodes@),
        event_held(ns, *old(e)),
        replacements_ok(ns, map@),
        forall|k: usize| #[trigger] map@.dom().contains(k) ==> k < ns.len(),
    ensures
        final(arena).grows(*old(arena)),
        extends(ns, final(arena).nodes@),
        rewritten_event(ns, final(arena).nodes@, map@, *old(e), *final(e)),
{
    match e {
        Event::Store { addr, value, .. } => {
            let a = rewrite_ref(arena, *addr, map, Ghost(ns));
            let ghost mid = arena.nodes@;
            let v = rewrite_ref(arena, *value, map, Ghost(ns));
            proof {
                lemma_rewritten_grows(ns, mid, arena.nodes@, map@, *addr, a);
            }
            *addr = a;
            *value = v;
        },
        Event::Load { addr, value, .. } => {
            let a = rewrite_ref(arena, *addr, map, Ghost(ns));
            let ghost mid = arena.nodes@;
            let v = rewrite_ref(arena, *value, map, Ghost(ns));
            proof {
                lemma_rewritten_grows(ns, mid, arena.nodes@, map@, *addr, a);
            }
            *addr = a;
            *value = v;
        },
        Event::Call { target, args, .. } => {
            let ghost t0 = *target;
            if let Some(t) = *target {
                let u = rewrite_ref(arena, t, map, Ghost(ns));
                *target = Some(u);
            }
            let ghost mid = arena.nodes@;
            rewrite_regs(arena, args, map, Ghost(ns));
            proof {
                if let Some(t) = t0 {
                    lemma_rewritten_grows(ns, mid, arena.nodes@, map@, t, target->0);
                }
            }
        },
        Event::Boxed { mem, defs, uses, .. } => {
            let ghost m0 = *mem;
            let ghost d0 = defs@;
            if let Some(m) = *mem {
                let a = rewrite_ref(arena, m.addr, map, Ghost(ns));
                *mem = Some(BoxedMem { addr: a, bytes: m.bytes, writes: m.writes });
            }
            let ghost mid = arena.nodes@;
            rewrite_regs(arena, defs, map, Ghost(ns));
            let ghost far = arena.nodes@;
            rewrite_regs(arena, uses, map, Ghost(ns));
            proof {
                if let Some(m) = m0 {
                    lemma_rewritten_grows(ns, mid, far, map@, m.addr, (mem->0).addr);
                    lemma_rewritten_grows(ns, far, arena.nodes@, map@, m.addr, (mem->0).addr);
                }
                lemma_regs_grow(ns, far, arena.nodes@, map@, d0, defs@);
            }
        },
    }
}

/// Keep the parameters a predicate holds of.
fn retain_params(params: &mut Vec<(Reg, Ref)>, keep: &Vec<bool>, Ghost(pred): Ghost<spec_fn((Reg, Ref)) -> bool>)
    requires
        keep@.len() == old(params)@.len(),
        forall|j: int| 0 <= j < keep@.len() ==> #[trigger] keep@[j] == pred(old(params)@[j]),
    ensures
        final(params)@ == old(params)@.filter(pred),
{
    let ghost p0 = params@;
    let mut out: Vec<(Reg, Ref)> = Vec::new();
    let mut j: usize = 0;
    proof {
        assert(p0.take(0) =~= Seq::empty());
        reveal(Seq::filter);
    }
    while j < params.len()
        invariant
            j <= params@.len(),
            params@ == p0,
            keep@.len() == p0.len(),
            forall|j: int| 0 <= j < keep@.len() ==> #[trigger] keep@[j] == pred(p0[j]),
            out@ == p0.take(j as int).filter(pred),
        decreases params@.len() - j,
    {
        proof {
            assert(p0.take(j + 1) =~= p0.take(j as int).push(p0[j as int]));
            p0.take(j as int).lemma_filter_push(p0[j as int], pred);
        }
        if keep[j] {
            out.push(params[j]);
        }
        j = j + 1;
    }
    proof {
        assert(p0.take(p0.len() as int) =~= p0);
    }
    *params = out;
}

/// Rewrite every expression of a block and drop its replaced parameters.
fn rewrite_block(
    arena: &mut Arena,
    b: &mut Block,
    map: &HashMap<usize, Ref>,
    Ghost(ns): Ghost<Seq<Node>>,
)
    requires
        old(arena).wf(),
        nodes_ok(ns),
        extends(ns, old(arena).nodes@),
        block_held(ns, *old(b)),
        replacements_ok(ns, map@),
        forall|k: usize| #[trigger] map@.dom().contains(k) ==> k < ns.len(),
    ensures
        final(arena).grows(*old(arena)),
        extends(ns, final(arena).nodes@),
        rewritten_block(ns, final(arena).nodes@, map@, *old(b), *final(b)),
{
    let ghost b0 = *b;
    let ghost a0 = *arena;
    let mut j: usize = 0;
    while j < b.events.len()
        invariant
            j <= b.events@.len() == b0.events@.len(),
            b.id == b0.id,
            b.block_ref == b0.block_ref,
            b.from_vm_context == b0.from_vm_context,
            b.cost == b0.cost,
            b.preds == b0.preds,
            b.params == b0.params,
            b.exit_regs == b0.exit_regs,
            b.terminator == b0.terminator,
            arena.grows(a0),
            a0.wf(),
            nodes_ok(ns),
            extends(ns, arena.nodes@),
            block_held(ns, b0),
            replacements_ok(ns, map@),
            forall|k: usize| #[trigger] map@.dom().contains(k) ==> k < ns.len(),
            forall|i: int|
                0 <= i < b0.events@.len() ==> if i < j {
                    rewritten_event(ns, arena.nodes@, map@, b0.events@[i], #[trigger] b.events@[i])
                } else {
                    b.events@[i] == b0.events@[i]
                },
        decreases b.events@.len() - j,
    {
        let ghost mid = arena.nodes@;
        let ghost ev0 = b.events@;
        proof {
            assert(b.events@[j as int] == b0.events@[j as int]);
            assert(event_held(ns, b0.events@[j as int]));
        }
        rewrite_event(arena, &mut b.events[j], map, Ghost(ns));
        proof {
            assert forall|i: int| 0 <= i < b0.events@.len() implies if i < j + 1 {
                rewritten_event(ns, arena.nodes@, map@, b0.events@[i], #[trigger] b.events@[i])
            } else {
                b.events@[i] == b0.events@[i]
            } by {
                if i < j {
                    assert(b.events@[i] == ev0[i]);
                    lemma_event_grows(ns, mid, arena.nodes@, map@, b0.events@[i], b.events@[i]);
                } else if i > j {
                    assert(b.events@[i] == ev0[i]);
                }
            }
        }
        j = j + 1;
    }
    let ghost n1 = arena.nodes@;
    let ghost ev1 = b.events@;
    rewrite_regs(arena, &mut b.exit_regs, map, Ghost(ns));
    let ghost n2 = arena.nodes@;
    let ghost regs2 = b.exit_regs@;
    let mut keep: Vec<bool> = Vec::new();
    let ghost pred = |p: (Reg, Ref)| !map@.dom().contains(p.1.idx);
    let mut j: usize = 0;
    while j < b.params.len()
        invariant
            j <= b.params@.len(),
            keep@.len() == j,
            pred == (|p: (Reg, Ref)| !map@.dom().contains(p.1.idx)),
            forall|i: int| 0 <= i < j ==> #[trigger] keep@[i] == pred(b.params@[i]),
        decreases b.params@.len() - j,
    {
        keep.push(!map.contains_key(&b.params[j].1.idx));
        j = j + 1;
    }
    retain_params(&mut b.params, &keep, Ghost(pred));
    match &mut b.terminator {
        Terminator::Branch { predicate, .. } => {
            *predicate = rewrite_ref(arena, *predicate, map, Ghost(ns));
        },
        Terminator::Switch { selector, .. } => {
            *selector = rewrite_ref(arena, *selector, map, Ghost(ns));
        },
        Terminator::Return { dest } => {
            *dest = rewrite_ref(arena, *dest, map, Ghost(ns));
        },
        _ => {},
    }
    proof {
        let now = arena.nodes@;
        lemma_regs_grow(ns, n2, now, map@, b0.exit_regs@, regs2);
        assert forall|i: int| 0 <= i < b0.events@.len() implies rewritten_event(
            ns,
            now,
            map@,
            b0.events@[i],
            #[trigger] b.events@[i],
        ) by {
            assert(b.events@[i] == ev1[i]);
            lemma_event_grows(ns, n1, n2, map@, b0.events@[i], b.events@[i]);
            lemma_event_grows(ns, n2, now, map@, b0.events@[i], b.events@[i]);
        }
    }
}

proof fn lemma_terminator_grows(
    ns: Seq<Node>,
    mid: Seq<Node>,
    now: Seq<Node>,
    map: Map<usize, Ref>,
    before: Block,
    after: Block,
)
    requires
        rewritten_block(ns, mid, map, before, after),
        nodes_ok(mid),
        extends(mid, now),
    ensures
        rewritten_block(ns, now, map, before, after),
{
    lemma_regs_grow(ns, mid, now, map, before.exit_regs@, after.exit_regs@);
    assert forall|i: int| 0 <= i < before.events@.len() implies rewritten_event(
        ns,
        now,
        map,
        before.events@[i],
        #[trigger] after.events@[i],
    ) by {
        lemma_event_grows(ns, mid, now, map, before.events@[i], after.events@[i]);
    }
    match (before.terminator, after.terminator) {
        (Terminator::Branch { predicate, .. }, Terminator::Branch { predicate: p1, .. }) => {
            lemma_rewritten_grows(ns, mid, now, map, predicate, p1);
        },
        (Terminator::Switch { selector, .. }, Terminator::Switch { selector: s1, .. }) => {
            lemma_rewritten_grows(ns, mid, now, map, selector, s1);
        },
        (Terminator::Return { dest }, Terminator::Return { dest: d1 }) => {
            lemma_rewritten_grows(ns, mid, now, map, dest, d1);
        },
        _ => {},
    }
}

/// A rewritten block refers to nodes, and its guest registers hold 64-bit values.
proof fn lemma_rewritten_ok(
    ns: Seq<Node>,
    now: Seq<Node>,
    map: Map<usize, Ref>,
    before: Block,
    after: Block,
)
    requires
        block_ok(ns, before),
        extends(ns, now),
        rewritten_block(ns, now, map, before, after),
    ensures
        block_ok(now, after),
        after.params@.len() <= before.params@.len(),
{
    assert forall|j: int| 0 <= j < after.events@.len() implies event_held(now, #[trigger] after.events@[j]) by {
        assert(rewritten_event(ns, now, map, before.events@[j], after.events@[j]));
        assert(event_held(ns, before.events@[j]));
        match (before.events@[j], after.events@[j]) {
            (Event::Call { args, .. }, Event::Call { args: a1, .. }) => {
                assert forall|k: int| 0 <= k < a1@.len() implies has(now, (#[trigger] a1@[k]).1) by {
                    assert(rewritten_ref(ns, now, map, args@[k].1, a1@[k].1));
                }
            },
            (Event::Boxed { defs, uses, .. }, Event::Boxed { defs: d1, uses: u1, .. }) => {
                assert forall|k: int| 0 <= k < d1@.len() implies has(now, (#[trigger] d1@[k]).1) by {
                    assert(rewritten_ref(ns, now, map, defs@[k].1, d1@[k].1));
                }
                assert forall|k: int| 0 <= k < u1@.len() implies has(now, (#[trigger] u1@[k]).1) by {
                    assert(rewritten_ref(ns, now, map, uses@[k].1, u1@[k].1));
                }
            },
            _ => {},
        }
    }
    assert forall|j: int| 0 <= j < after.exit_regs@.len() implies has(now, (#[trigger] after.exit_regs@[j]).1)
        && width_of(now, after.exit_regs@[j].1) == Width::W64 by {
        assert(rewritten_ref(ns, now, map, before.exit_regs@[j].1, after.exit_regs@[j].1));
        assert(width_of(ns, before.exit_regs@[j].1) == Width::W64);
    }
    let pred = |p: (Reg, Ref)| !map.dom().contains(p.1.idx);
    assert forall|j: int| 0 <= j < after.params@.len() implies has(now, (#[trigger] after.params@[j]).1)
        && width_of(now, after.params@[j].1) == Width::W64 by {
        lemma_filtered(before.params@, pred, j);
        let i = choose|i: int| 0 <= i < before.params@.len() && before.params@[i] == after.params@[j];
        assert(has(ns, before.params@[i].1));
        assert(width_of(ns, before.params@[i].1) == Width::W64);
    }
    before.params@.lemma_filter_len(pred);
}

proof fn lemma_filtered(s: Seq<(Reg, Ref)>, pred: spec_fn((Reg, Ref)) -> bool, j: int)
    requires
        0 <= j < s.filter(pred).len(),
    ensures
        pred(s.filter(pred)[j]),
        exists|i: int| 0 <= i < s.len() && s[i] == s.filter(pred)[j],
{
    s.lemma_filter_pred(pred, j);
    let x = s.filter(pred)[j];
    assert(s.filter(pred).contains(x));
    s.lemma_filter_contains_rev(pred, x);
}

impl Cfg {
    /// Rewrite every expression the graph holds through `map`.
    fn apply_rewrite(&mut self, map: &HashMap<usize, Ref>)
        requires
            cfg_ok(*old(self)),
            replacements_ok(old(self).arena.nodes@, map@),
            forall|k: usize| #[trigger] map@.dom().contains(k) ==> k < old(self).arena.nodes@.len(),
        ensures
            cfg_ok(*final(self)),
            rewritten_graph(*old(self), map@, *final(self)),
    {
        let ghost c0 = *self;
        let ghost ns = self.arena.nodes@;
        let mut k: usize = 0;
        while k < self.blocks.len()
            invariant
                k <= self.blocks@.len() == c0.blocks@.len(),
                same_but_blocks(c0, *self),
                cfg_ok(c0),
                ns == c0.arena.nodes@,
                self.arena.grows(c0.arena),
                nodes_ok(ns),
                extends(ns, self.arena.nodes@),
                replacements_ok(ns, map@),
                forall|k: usize| #[trigger] map@.dom().contains(k) ==> k < ns.len(),
                forall|i: int|
                    0 <= i < c0.blocks@.len() ==> if i < k {
                        rewritten_block(
                            ns,
                            self.arena.nodes@,
                            map@,
                            c0.blocks@[i],
                            #[trigger] self.blocks@[i],
                        )
                    } else {
                        self.blocks@[i] == c0.blocks@[i]
                    },
            decreases self.blocks@.len() - k,
        {
            let ghost mid = self.arena.nodes@;
            let ghost bs0 = self.blocks@;
            proof {
                assert(self.blocks@[k as int] == c0.blocks@[k as int]);
                assert(block_ok(ns, c0.blocks@[k as int]));
            }
            rewrite_block(&mut self.arena, &mut self.blocks[k], map, Ghost(ns));
            proof {
                assert forall|i: int| 0 <= i < c0.blocks@.len() implies if i < k + 1 {
                    rewritten_block(
                        ns,
                        self.arena.nodes@,
                        map@,
                        c0.blocks@[i],
                        #[trigger] self.blocks@[i],
                    )
                } else {
                    self.blocks@[i] == c0.blocks@[i]
                } by {
                    if i < k {
                        assert(self.blocks@[i] == bs0[i]);
                        lemma_terminator_grows(
                            ns,
                            mid,
                            self.arena.nodes@,
                            map@,
                            c0.blocks@[i],
                            self.blocks@[i],
                        );
                    } else if i > k {
                        assert(self.blocks@[i] == bs0[i]);
                    }
                }
            }
            k = k + 1;
        }
        proof {
            assert forall|i: int| 0 <= i < self.blocks@.len() implies block_ok(
                self.arena.nodes@,
                #[trigger] self.blocks@[i],
            ) by {
                assert(block_ok(ns, c0.blocks@[i]));
                lemma_rewritten_ok(ns, self.arena.nodes@, map@, c0.blocks@[i], self.blocks@[i]);
            }
        }
    }
}

/// Whether two graphs differ in their blocks and arenas at most.
pub open spec fn same_but_blocks(a: Cfg, b: Cfg) -> bool {
    &&& b.entry == a.entry
    &&& b.total_steps == a.total_steps
    &&& b.unresolved == a.unresolved
    &&& b.back_edges == a.back_edges
    &&& b.trivial_phis_removed == a.trivial_phis_removed
    &&& b.timed_out == a.timed_out
    &&& b.stack_base == a.stack_base
    &&& b.vm_range == a.vm_range
}

/// Whether a graph is another with every expression rewritten.
pub open spec fn rewritten_graph(a: Cfg, map: Map<usize, Ref>, b: Cfg) -> bool {
    &&& same_but_blocks(a, b)
    &&& extends(a.arena.nodes@, b.arena.nodes@)
    &&& b.blocks@.len() == a.blocks@.len()
    &&& forall|i: int|
        0 <= i < a.blocks@.len() ==> rewritten_block(
            a.arena.nodes@,
            b.arena.nodes@,
            map,
            a.blocks@[i],
            #[trigger] b.blocks@[i],
        )
}

/// Whether a value is the only one that comes in besides the parameter itself: the
/// parameter then is that value.
pub open spec fn sole(incoming: Seq<(BlockId, Option<Ref>)>, param: Ref, v: Ref) -> bool {
    &&& v != param
    &&& exists|i: int| 0 <= i < incoming.len() && (#[trigger] incoming[i]).1 == Some(v)
    &&& forall|i: int|
        0 <= i < incoming.len() ==> ((#[trigger] incoming[i]).1 matches Some(x) ==> x == param || x == v)
}

/// Whether a phi is trivial.
pub open spec fn trivial(p: PhiView) -> bool {
    exists|v: Ref| #[trigger] sole(p.incoming, p.param, v)
}

/// The value a trivial phi is.
fn sole_value(p: &Phi) -> (r: Option<Ref>)
    ensures
        match r {
            Some(v) => sole(p.incoming@, p.param, v),
            None => !trivial(p@),
        },
{
    let mut only: Option<Ref> = None;
    let mut k: usize = 0;
    while k < p.incoming.len()
        invariant
            k <= p.incoming@.len(),
            only matches Some(v) ==> v != p.param && exists|i: int|
                0 <= i < k && (#[trigger] p.incoming@[i]).1 == Some(v),
            forall|i: int|
                0 <= i < k ==> ((#[trigger] p.incoming@[i]).1 matches Some(x) ==> x == p.param || only
                    == Some(x)),
        decreases p.incoming@.len() - k,
    {
        if let Some(x) = p.incoming[k].1 {
            if x != p.param {
                match only {
                    None => {
                        proof {
                            assert(p.incoming@[k as int].1 == Some(x));
                        }
                        only = Some(x);
                    },
                    Some(y) => {
                        if x != y {
                            proof {
                                let i = choose|i: int|
                                    0 <= i < k && (#[trigger] p.incoming@[i]).1 == Some(y);
                                assert forall|v: Ref| !#[trigger] sole(p.incoming@, p.param, v) by {
                                    if sole(p.incoming@, p.param, v) {
                                        assert(p.incoming@[i].1 == Some(y));
                                        assert(p.incoming@[k as int].1 == Some(x));
                                    }
                                }
                            }
                            return None;
                        }
                    },
                }
            }
        }
        k = k + 1;
    }
    proof {
        if only is None {
            assert forall|v: Ref| !#[trigger] sole(p.incoming@, p.param, v) by {
                if sole(p.incoming@, p.param, v) {
                    let i = choose|i: int|
                        0 <= i < p.incoming@.len() && (#[trigger] p.incoming@[i]).1 == Some(v);
                }
            }
        }
    }
    only
}

/// Whether a phi can be replaced: one value comes in, and it is not computed from the
/// parameter itself.
pub open spec fn replaceable(ns: Seq<Node>, p: PhiView) -> bool {
    exists|v: Ref| #[trigger] sole(p.incoming, p.param, v) && !depends(ns, v, p.param)
}

/// Replacements that trivial phis ask for, and there is one where there is a trivial phi. No
/// replacement is computed from a parameter that is itself replaced, so that none is left
/// behind; only where every trivial phi is computed from itself is one of them replaced.
pub open spec fn trivial_map(ns: Seq<Node>, ps: Seq<PhiView>, map: Map<usize, Ref>) -> bool {
    &&& forall|k: usize| #[trigger]
        map.dom().contains(k) ==> exists|i: int|
            0 <= i < ps.len() && (#[trigger] ps[i]).param.idx == k && sole(
                ps[i].incoming,
                ps[i].param,
                map[k],
            )
    &&& apart(ns, map) || map.dom().len() == 1 && forall|i: int|
        0 <= i < ps.len() ==> !replaceable(ns, #[trigger] ps[i])
    &&& (exists|i: int| 0 <= i < ps.len() && trivial(#[trigger] ps[i])) ==> exists|k: usize| #[trigger]
        map.dom().contains(k)
}

/// No replacement is computed from what is replaced.
pub open spec fn apart(ns: Seq<Node>, map: Map<usize, Ref>) -> bool {
    forall|k: usize, x: Ref|
        #![trigger map.dom().contains(k), map.dom().contains(x.idx)]
        map.dom().contains(k) && map.dom().contains(x.idx) ==> !depends(ns, map[k], x)
}

/// What is replaced are parameters.
pub open spec fn params_only(ns: Seq<Node>, map: Map<usize, Ref>) -> bool {
    forall|k: usize| #[trigger] map.dom().contains(k) ==> k < ns.len() && ns[k as int].op is Param
}

/// Every value a phi names is in the arena.
pub open spec fn phis_held(ns: Seq<Node>, ps: Seq<PhiView>) -> bool {
    forall|i: int, m: int|
        0 <= i < ps.len() && 0 <= m < ps[i].incoming.len() ==> ((#[trigger] ps[i].incoming[m]).1 matches Some(v)
            ==> has(ns, v))
}

/// Whether any of the nodes is one of the keys or the parameter.
fn any_replaced(under: &Vec<Ref>, p: Ref, m: &HashMap<usize, Ref>) -> (r: bool)
    ensures
        r <==> exists|x: Ref| #[trigger] under@.contains(x) && (x == p || m@.dom().contains(x.idx)),
{
    let mut j: usize = 0;
    while j < under.len()
        invariant
            j <= under@.len(),
            forall|i: int| 0 <= i < j ==> #[trigger] under@[i] != p && !m@.dom().contains(under@[i].idx),
        decreases under@.len() - j,
    {
        if under[j] == p || m.contains_key(&under[j].idx) {
            proof {
                assert(under@.contains(under@[j as int]));
            }
            return true;
        }
        j = j + 1;
    }
    false
}

fn note_all(used: &mut HashSet<usize>, under: &Vec<Ref>)
    ensures
        forall|k: usize| #[trigger]
            final(used)@.contains(k) <==> old(used)@.contains(k) || under@.contains(Ref { idx: k }),
{
    let ghost u0 = used@;
    let mut j: usize = 0;
    while j < under.len()
        invariant
            j <= under@.len(),
            forall|k: usize| #[trigger]
                used@.contains(k) <==> u0.contains(k) || exists|i: int|
                    0 <= i < j && #[trigger] under@[i] == (Ref { idx: k }),
        decreases under@.len() - j,
    {
        let ghost u1 = used@;
        let x = under[j].idx;
        used.insert(x);
        proof {
            assert forall|k: usize| #[trigger] used@.contains(k) <==> u0.contains(k) || exists|i: int|
                0 <= i < j + 1 && #[trigger] under@[i] == (Ref { idx: k }) by {
                if k == x {
                    assert(under@[j as int] == (Ref { idx: k }));
                }
                assert(u1.contains(k) <==> u0.contains(k) || exists|i: int|
                    0 <= i < j && #[trigger] under@[i] == (Ref { idx: k }));
            }
        }
        j = j + 1;
    }
}

/// The keys and what their replacements are computed from.
spec fn noted(ns: Seq<Node>, m: Map<usize, Ref>, used: Set<usize>) -> bool {
    forall|k: usize, x: Ref|
        #![trigger m.dom().contains(k), used.contains(x.idx)]
        m.dom().contains(k) && depends(ns, m[k], x) ==> used.contains(x.idx)
}

/// One trivial phi, where there is any.
fn any_trivial(ps: &Vec<Phi>) -> (r: Option<(Ref, Ref)>)
    ensures
        match r {
            Some((p, v)) => exists|i: int|
                0 <= i < ps@.len() && (#[trigger] phi_views(ps@)[i]).param == p && sole(
                    phi_views(ps@)[i].incoming,
                    p,
                    v,
                ),
            None => forall|i: int| 0 <= i < ps@.len() ==> !trivial(#[trigger] phi_views(ps@)[i]),
        },
{
    let ghost views = phi_views(ps@);
    let mut k: usize = 0;
    while k < ps.len()
        invariant
            k <= ps@.len(),
            views == phi_views(ps@),
            forall|i: int| 0 <= i < k ==> !trivial(#[trigger] views[i]),
        decreases ps@.len() - k,
    {
        proof {
            assert(views[k as int] == ps@[k as int]@);
        }
        if let Some(v) = sole_value(&ps[k]) {
            return Some((ps[k].param, v));
        }
        k = k + 1;
    }
    None
}

/// The replacements of one round.
fn trivial_phis(arena: &Arena, ps: &Vec<Phi>) -> (m: HashMap<usize, Ref>)
    requires
        arena.wf(),
        phis_held(arena.nodes@, phi_views(ps@)),
    ensures
        trivial_map(arena.nodes@, phi_views(ps@), m@),
        m@.dom().finite(),
{
    let mut m = apart_phis(arena, ps);
    if m.len() == 0 {
        let ghost m0 = m@;
        let ghost views = phi_views(ps@);
        proof {
            assert(m0.dom() =~= Set::<usize>::empty());
            assert forall|i: int| 0 <= i < views.len() implies !replaceable(
                arena.nodes@,
                #[trigger] views[i],
            ) by {
                if replaceable(arena.nodes@, views[i]) {
                    let k = choose|k: usize| #[trigger] m0.dom().contains(k);
                    assert(m0.dom().contains(k));
                }
            }
        }
        if let Some((p, v)) = any_trivial(ps) {
            m.insert(p.idx, v);
            proof {
                assert(m@.dom() =~= Set::<usize>::empty().insert(p.idx));
                assert(m@.dom().contains(p.idx));
            }
        }
    } else {
        proof {
            assert(exists|k: usize| #[trigger] m@.dom().contains(k)) by {
                let k = m@.dom().choose();
                assert(m@.dom().contains(k));
            }
        }
    }
    m
}

/// Replacements of which none is computed from what is replaced, one at least where one can
/// be.
fn apart_phis(arena: &Arena, ps: &Vec<Phi>) -> (m: HashMap<usize, Ref>)
    requires
        arena.wf(),
        phis_held(arena.nodes@, phi_views(ps@)),
    ensures
        forall|k: usize| #[trigger]
            m@.dom().contains(k) ==> exists|i: int|
                0 <= i < ps@.len() && (#[trigger] phi_views(ps@)[i]).param.idx == k && sole(
                    phi_views(ps@)[i].incoming,
                    phi_views(ps@)[i].param,
                    m@[k],
                ),
        apart(arena.nodes@, m@),
        (exists|i: int| 0 <= i < ps@.len() && replaceable(arena.nodes@, #[trigger] phi_views(ps@)[i]))
            ==> exists|k: usize| #[trigger] m@.dom().contains(k),
        m@.dom().finite(),
{
    let ghost ns = arena.nodes@;
    let mut m: HashMap<usize, Ref> = HashMap::new();
    let mut used: HashSet<usize> = HashSet::new();
    let ghost views = phi_views(ps@);
    let mut k: usize = 0;
    while k < ps.len()
        invariant
            k <= ps@.len(),
            arena.wf(),
            ns == arena.nodes@,
            phis_held(ns, views),
            views == phi_views(ps@),
            m@.dom().finite(),
            forall|j: usize| #[trigger]
                m@.dom().contains(j) ==> exists|i: int|
                    0 <= i < k && (#[trigger] views[i]).param.idx == j && sole(
                        views[i].incoming,
                        views[i].param,
                        m@[j],
                    ),
            apart(ns, m@),
            noted(ns, m@, used@),
            (exists|u: usize| #[trigger] used@.contains(u)) ==> exists|j: usize| #[trigger] m@.dom().contains(j),
            (exists|i: int| 0 <= i < k && replaceable(ns, #[trigger] views[i])) ==> exists|j: usize| #[trigger]
                m@.dom().contains(j),
        decreases ps@.len() - k,
    {
        let ghost m0 = m@;
        let ghost u0 = used@;
        let p = ps[k].param;
        proof {
            assert(views[k as int] == ps@[k as int]@);
        }
        if let Some(v) = sole_value(&ps[k]) {
            proof {
                let c = choose|c: int|
                    0 <= c < views[k as int].incoming.len() && (#[trigger] views[k as int].incoming[c]).1
                        == Some(v);
                assert(views[k as int].incoming[c].1 == Some(v));
                assert(has(ns, v));
            }
            let under = arena.reachable(v);
            if !used.contains(&p.idx) && !any_replaced(&under, p, &m) {
                note_all(&mut used, &under);
                m.insert(p.idx, v);
                proof {
                    lemma_taken(ns, m0, u0, p, v, under@, m@, used@);
                    assert(m@.dom().contains(p.idx));
                }
            } else {
                proof {
                    if replaceable(ns, views[k as int]) {
                        lemma_sole_once(views[k as int], v);
                        assert(!under@.contains(p));
                        if !used@.contains(p.idx) {
                            let x = choose|x: Ref| #[trigger]
                                under@.contains(x) && (x == p || m@.dom().contains(x.idx));
                            assert(m@.dom().contains(x.idx));
                        }
                    }
                }
            }
        } else {
            proof {
                if replaceable(ns, views[k as int]) {
                    let v = choose|v: Ref| #[trigger]
                        sole(views[k as int].incoming, views[k as int].param, v) && !depends(
                            ns,
                            v,
                            views[k as int].param,
                        );
                    assert(trivial(views[k as int]));
                }
            }
        }
        proof {
            assert forall|j: usize| #[trigger] m@.dom().contains(j) implies exists|i: int|
                0 <= i < k + 1 && (#[trigger] views[i]).param.idx == j && sole(
                    views[i].incoming,
                    views[i].param,
                    m@[j],
                ) by {
                if m0.dom().contains(j) && m@[j] == m0[j] {
                    let i = choose|i: int|
                        0 <= i < k && (#[trigger] views[i]).param.idx == j && sole(
                            views[i].incoming,
                            views[i].param,
                            m0[j],
                        );
                    assert(views[i].param.idx == j);
                } else {
                    assert(views[k as int].param.idx == j);
                }
            }
            if exists|i: int| 0 <= i < k + 1 && replaceable(ns, #[trigger] views[i]) {
                let i = choose|i: int| 0 <= i < k + 1 && replaceable(ns, #[trigger] views[i]);
                assert(replaceable(ns, views[i]));
                if i < k {
                    let j = choose|j: usize| #[trigger] m0.dom().contains(j);
                    assert(m@.dom().contains(j));
                }
            }
        }
        k = k + 1;
    }
    m
}

/// One value at most is the only one.
proof fn lemma_sole_once(p: PhiView, v: Ref)
    requires
        sole(p.incoming, p.param, v),
    ensures
        forall|w: Ref| #[trigger] sole(p.incoming, p.param, w) ==> w == v,
{
    assert forall|w: Ref| #[trigger] sole(p.incoming, p.param, w) implies w == v by {
        let i = choose|i: int| 0 <= i < p.incoming.len() && (#[trigger] p.incoming[i]).1 == Some(w);
        assert(p.incoming[i].1 == Some(w));
    }
}

/// One more replacement that is computed from none of the replaced parameters.
proof fn lemma_taken(
    ns: Seq<Node>,
    m0: Map<usize, Ref>,
    u0: Set<usize>,
    p: Ref,
    v: Ref,
    under: Seq<Ref>,
    m: Map<usize, Ref>,
    used: Set<usize>,
)
    requires
        apart(ns, m0),
        noted(ns, m0, u0),
        !u0.contains(p.idx),
        forall|x: Ref| #[trigger] under.contains(x) <==> depends(ns, v, x),
        forall|x: Ref| #[trigger] under.contains(x) ==> x != p && !m0.dom().contains(x.idx),
        m == m0.insert(p.idx, v),
        forall|k: usize| #[trigger] used.contains(k) <==> u0.contains(k) || under.contains(Ref { idx: k }),
    ensures
        apart(ns, m),
        noted(ns, m, used),
{
    assert forall|k: usize, x: Ref|
        #![trigger m.dom().contains(k), used.contains(x.idx)]
        m.dom().contains(k) && depends(ns, m[k], x) implies used.contains(x.idx) by {
        if k == p.idx {
            assert(under.contains(x));
            assert(x == (Ref { idx: x.idx }));
        } else {
            assert(m0.dom().contains(k));
            assert(u0.contains(x.idx));
        }
    }
    assert forall|k: usize, x: Ref|
        #![trigger m.dom().contains(k), m.dom().contains(x.idx)]
        m.dom().contains(k) && m.dom().contains(x.idx) implies !depends(ns, m[k], x) by {
        assert(x == (Ref { idx: x.idx }));
        assert(p == (Ref { idx: p.idx }));
        if depends(ns, m[k], x) {
            if k == p.idx {
                assert(under.contains(x));
            } else {
                assert(m0.dom().contains(k));
                if x.idx == p.idx {
                    assert(u0.contains(x.idx));
                } else {
                    assert(m0.dom().contains(x.idx));
                }
            }
        }
    }
}

/// How many parameters the first `k` blocks have.
pub open spec fn params_upto(blocks: Seq<Block>, k: int) -> nat
    decreases k,
{
    if k <= 0 {
        0
    } else {
        params_upto(blocks, k - 1) + blocks[k - 1].params@.len()
    }
}

/// How many parameters there are.
pub open spec fn params_total(blocks: Seq<Block>) -> nat {
    params_upto(blocks, blocks.len() as int)
}

/// Whether one graph is another with parameters replaced: the same blocks, joined by the same
/// edges.
pub open spec fn same_edges(a: Cfg, b: Cfg) -> bool {
    &&& same_but_blocks(a, b)
    &&& extends(a.arena.nodes@, b.arena.nodes@)
    &&& b.blocks@.len() == a.blocks@.len()
    &&& forall|i: int|
        0 <= i < a.blocks@.len() ==> {
            &&& (#[trigger] b.blocks@[i]).id == a.blocks@[i].id
            &&& b.blocks@[i].preds == a.blocks@[i].preds
            &&& b.blocks@[i].events@.len() == a.blocks@[i].events@.len()
            &&& b.blocks@[i].exit_regs@.len() == a.blocks@[i].exit_regs@.len()
            &&& successors_spec(b.blocks@[i].terminator) == successors_spec(a.blocks@[i].terminator)
        }
}

/// Where a phi comes from.
pub proof fn lemma_phi_source(blocks: Seq<Block>, k: int, i: int) -> (at: (int, int))
    requires
        0 <= k <= blocks.len(),
        0 <= i < phis_upto(blocks, k).len(),
    ensures
        0 <= at.0 < k,
        0 <= at.1 < blocks[at.0].params@.len(),
        phis_upto(blocks, k)[i] == (PhiView {
            block: blocks[at.0].id,
            reg: blocks[at.0].params@[at.1].0,
            param: blocks[at.0].params@[at.1].1,
            incoming: incoming(blocks, blocks[at.0], blocks[at.0].params@[at.1].0),
        }),
    decreases k,
{
    let before = phis_upto(blocks, k - 1);
    if i < before.len() {
        lemma_phi_source(blocks, k - 1, i)
    } else {
        (k - 1, i - before.len())
    }
}

/// Where a register's value in a list comes from.
pub proof fn lemma_value_in(regs: Seq<(Reg, Ref)>, r: Reg) -> (j: int)
    requires
        value_in(regs, r) is Some,
    ensures
        0 <= j < regs.len(),
        regs[j] == (r, value_in(regs, r)->0),
    decreases regs.len(),
{
    if regs[0].0 == r {
        0
    } else {
        let j = lemma_value_in(regs.skip(1), r);
        j + 1
    }
}

/// The last place of an identity holds it.
pub proof fn lemma_last_index(all: Seq<BlockId>, id: BlockId)
    ensures
        last_index(all, id) matches Some(k) ==> 0 <= k < all.len() && all[k] == id,
    decreases all.len(),
{
    if all.len() > 0 {
        lemma_last_index(all.drop_last(), id);
    }
}

/// What trivial phis ask for can be replaced: nodes, of the parameters' width.
proof fn lemma_trivial_map_ok(cfg: Cfg, map: Map<usize, Ref>, key: usize)
    requires
        cfg_ok(cfg),
        trivial_map(cfg.arena.nodes@, phis_upto(cfg.blocks@, cfg.blocks@.len() as int), map),
        map.dom().contains(key),
    ensures
        key < cfg.arena.nodes@.len(),
        has(cfg.arena.nodes@, map[key]),
        width_of(cfg.arena.nodes@, map[key]) == cfg.arena.nodes@[key as int].width,
        exists|at: (int, int)| #[trigger] param_at(cfg.blocks@, at, key),
{
    let ns = cfg.arena.nodes@;
    let n = cfg.blocks@.len() as int;
    let ps = phis_upto(cfg.blocks@, n);
    let i = choose|i: int|
        0 <= i < ps.len() && (#[trigger] ps[i]).param.idx == key && sole(
            ps[i].incoming,
            ps[i].param,
            map[key],
        );
    let at = lemma_phi_source(cfg.blocks@, n, i);
    let b = cfg.blocks@[at.0];
    assert(block_ok(ns, b));
    assert(has(ns, b.params@[at.1].1) && width_of(ns, b.params@[at.1].1) == Width::W64);
    let inc = ps[i].incoming;
    let m = choose|m: int| 0 <= m < inc.len() && (#[trigger] inc[m]).1 == Some(map[key]);
    let pred = b.preds@[m];
    lemma_last_index(ids(cfg.blocks@), pred);
    let src = last_index(ids(cfg.blocks@), pred)->0;
    let j = lemma_value_in(cfg.blocks@[src].exit_regs@, b.params@[at.1].0);
    assert(block_ok(ns, cfg.blocks@[src]));
    assert(has(ns, cfg.blocks@[src].exit_regs@[j].1));
    assert(width_of(ns, cfg.blocks@[src].exit_regs@[j].1) == Width::W64);
    assert(param_at(cfg.blocks@, at, key));
}

/// Whether two valuations differ at most in the parameters that are replaced.
pub open spec fn same_but_replaced(ns: Seq<Node>, map: Map<usize, Ref>, e1: Env, e2: Env) -> bool {
    &&& e1.regs == e2.regs
    &&& e1.mem == e2.mem
    &&& e1.opaques == e2.opaques
    &&& forall|x: Ref|
        has(ns, x) && !map.dom().contains(x.idx) ==> (#[trigger] op_of(ns, x) matches Op::Param(b, r)
            ==> (e1.params)(b, r) == (e2.params)(b, r))
}

/// What is computed from no replaced parameter has one value under both.
proof fn lemma_same_value(ns: Seq<Node>, r: Ref, map: Map<usize, Ref>, e1: Env, e2: Env)
    requires
        nodes_ok(ns),
        has(ns, r),
        same_but_replaced(ns, map, e1, e2),
        forall|x: Ref| #[trigger] depends(ns, r, x) ==> !map.dom().contains(x.idx),
    ensures
        eval(ns, r, e1) == eval(ns, r, e2),
    decreases r.idx,
{
    assert(ok_at(ns, r.idx as int));
    assert(depends(ns, r, r));
    assert forall|c: Ref, x: Ref| operands(op_of(ns, r)).contains(c) && c.idx < r.idx && #[trigger] depends(
        ns,
        c,
        x,
    ) implies !map.dom().contains(x.idx) by {
        assert(depends(ns, r, x));
    }
    match op_of(ns, r) {
        Op::Load(a, _) => {
            assert(operands(op_of(ns, r))[0] == a);
            lemma_same_value(ns, a, map, e1, e2);
        },
        Op::Bin(_, a, b) => {
            assert(operands(op_of(ns, r))[0] == a);
            lemma_same_value(ns, a, map, e1, e2);
            assert(operands(op_of(ns, r))[1] == b);
            lemma_same_value(ns, b, map, e1, e2);
        },
        Op::Un(_, a) => {
            assert(operands(op_of(ns, r))[0] == a);
            lemma_same_value(ns, a, map, e1, e2);
        },
        Op::Zext(a) => {
            assert(operands(op_of(ns, r))[0] == a);
            lemma_same_value(ns, a, map, e1, e2);
        },
        Op::Sext(a) => {
            assert(operands(op_of(ns, r))[0] == a);
            lemma_same_value(ns, a, map, e1, e2);
        },
        Op::Trunc(a) => {
            assert(operands(op_of(ns, r))[0] == a);
            lemma_same_value(ns, a, map, e1, e2);
        },
        Op::Select(c, a, b) => {
            assert(operands(op_of(ns, r))[0] == c);
            lemma_same_value(ns, c, map, e1, e2);
            assert(operands(op_of(ns, r))[1] == a);
            lemma_same_value(ns, a, map, e1, e2);
            assert(operands(op_of(ns, r))[2] == b);
            lemma_same_value(ns, b, map, e1, e2);
        },
        _ => {},
    }
}

proof fn lemma_same_replaced(ns: Seq<Node>, r: Ref, map: Map<usize, Ref>, e1: Env, e2: Env)
    requires
        nodes_ok(ns),
        has(ns, r),
        same_but_replaced(ns, map, e1, e2),
        replacements_ok(ns, map),
        apart(ns, map),
    ensures
        replaced(ns, r, map, e1) == replaced(ns, r, map, e2),
    decreases r.idx,
{
    assert(ok_at(ns, r.idx as int));
    if map.dom().contains(r.idx) {
        assert forall|x: Ref| #[trigger] depends(ns, map[r.idx], x) implies !map.dom().contains(x.idx) by {
            if map.dom().contains(x.idx) {
                assert(!depends(ns, map[r.idx], x));
            }
        }
        lemma_same_value(ns, map[r.idx], map, e1, e2);
    } else {
        match op_of(ns, r) {
            Op::Load(a, _) => {
                lemma_same_replaced(ns, a, map, e1, e2);
            },
            Op::Bin(_, a, b) => {
                lemma_same_replaced(ns, a, map, e1, e2);
                lemma_same_replaced(ns, b, map, e1, e2);
            },
            Op::Un(_, a) => {
                lemma_same_replaced(ns, a, map, e1, e2);
            },
            Op::Zext(a) => {
                lemma_same_replaced(ns, a, map, e1, e2);
            },
            Op::Sext(a) => {
                lemma_same_replaced(ns, a, map, e1, e2);
            },
            Op::Trunc(a) => {
                lemma_same_replaced(ns, a, map, e1, e2);
            },
            Op::Select(c, a, b) => {
                lemma_same_replaced(ns, c, map, e1, e2);
                lemma_same_replaced(ns, a, map, e1, e2);
                lemma_same_replaced(ns, b, map, e1, e2);
            },
            _ => {},
        }
    }
}

/// A parameter that is replaced matters no more: what stands for an expression has the same
/// value whatever the replaced parameters hold.
pub proof fn replaced_parameters_do_not_matter(
    ns: Seq<Node>,
    now: Seq<Node>,
    map: Map<usize, Ref>,
    before: Ref,
    after: Ref,
    e1: Env,
    e2: Env,
)
    requires
        nodes_ok(ns),
        has(ns, before),
        replacements_ok(ns, map),
        apart(ns, map),
        rewritten_ref(ns, now, map, before, after),
        same_but_replaced(ns, map, e1, e2),
    ensures
        eval(now, after, e1) == eval(now, after, e2),
{
    lemma_same_replaced(ns, before, map, e1, e2);
}

/// Every value a phi of the graph names is in its arena.
proof fn lemma_phis_held(cfg: Cfg)
    requires
        cfg_ok(cfg),
    ensures
        phis_held(cfg.arena.nodes@, phis_upto(cfg.blocks@, cfg.blocks@.len() as int)),
{
    let ns = cfg.arena.nodes@;
    let n = cfg.blocks@.len() as int;
    let ps = phis_upto(cfg.blocks@, n);
    assert forall|i: int, m: int|
        0 <= i < ps.len() && 0 <= m < ps[i].incoming.len() implies ((#[trigger] ps[i].incoming[m]).1 matches Some(v)
        ==> has(ns, v)) by {
        if let Some(v) = ps[i].incoming[m].1 {
            let at = lemma_phi_source(cfg.blocks@, n, i);
            let b = cfg.blocks@[at.0];
            let pred = b.preds@[m];
            lemma_last_index(ids(cfg.blocks@), pred);
            let src = last_index(ids(cfg.blocks@), pred)->0;
            let j = lemma_value_in(cfg.blocks@[src].exit_regs@, b.params@[at.1].0);
            assert(block_ok(ns, cfg.blocks@[src]));
            assert(has(ns, cfg.blocks@[src].exit_regs@[j].1));
        }
    }
}

spec fn param_at(blocks: Seq<Block>, at: (int, int), key: usize) -> bool {
    0 <= at.0 < blocks.len() && 0 <= at.1 < blocks[at.0].params@.len() && blocks[at.0].params@[at.1].1.idx
        == key
}

proof fn lemma_same_edges(a: Cfg, b: Cfg, map: Map<usize, Ref>, c: Cfg)
    requires
        same_edges(a, b),
        rewritten_graph(b, map, c),
    ensures
        same_edges(a, c),
{
    assert forall|i: int| 0 <= i < a.blocks@.len() implies {
        &&& (#[trigger] c.blocks@[i]).id == a.blocks@[i].id
        &&& c.blocks@[i].preds == a.blocks@[i].preds
        &&& c.blocks@[i].events@.len() == a.blocks@[i].events@.len()
        &&& c.blocks@[i].exit_regs@.len() == a.blocks@[i].exit_regs@.len()
        &&& successors_spec(c.blocks@[i].terminator) == successors_spec(a.blocks@[i].terminator)
    } by {
        assert(rewritten_block(b.arena.nodes@, c.arena.nodes@, map, b.blocks@[i], c.blocks@[i]));
        assert(b.blocks@[i].id == a.blocks@[i].id);
    }
    assert forall|i: int| 0 <= i < a.arena.nodes@.len() implies #[trigger] c.arena.nodes@[i]
        == a.arena.nodes@[i] by {
        assert(b.arena.nodes@[i] == a.arena.nodes@[i]);
    }
}

/// One round of eliminating trivial phis: parameters replaced by the one value that comes in.
pub open spec fn simplify_step(a: Cfg, map: Map<usize, Ref>, b: Cfg) -> bool {
    &&& trivial_map(a.arena.nodes@, phis_upto(a.blocks@, a.blocks@.len() as int), map)
    &&& map.dom().finite()
    &&& map.dom().len() > 0
    &&& rewritten_graph(a, map, b)
}

/// Rounds of eliminating trivial phis, one after the other.
pub open spec fn simplify_chain(gs: Seq<Cfg>, maps: Seq<Map<usize, Ref>>) -> bool {
    &&& gs.len() == maps.len() + 1
    &&& forall|i: int| 0 <= i < maps.len() ==> simplify_step(gs[i], #[trigger] maps[i], gs[i + 1])
}

/// How many parameters the first `k` rounds replace.
pub open spec fn replaced_upto(maps: Seq<Map<usize, Ref>>, k: int) -> nat
    decreases k,
{
    if k <= 0 {
        0
    } else {
        replaced_upto(maps, k - 1) + maps[k - 1].dom().len()
    }
}

/// Whether rounds of eliminating trivial phis make one graph of another, replacing `n`
/// parameters.
pub open spec fn simplifies(a: Cfg, b: Cfg, n: nat) -> bool {
    exists|gs: Seq<Cfg>, maps: Seq<Map<usize, Ref>>| #[trigger]
        simplify_chain(gs, maps) && gs.first() == a && gs.last() == b && replaced_upto(
            maps,
            maps.len() as int,
        ) == n
}

proof fn lemma_replaced_same(a: Seq<Map<usize, Ref>>, b: Seq<Map<usize, Ref>>, k: int)
    requires
        0 <= k <= a.len(),
        k <= b.len(),
        forall|i: int| 0 <= i < k ==> a[i] == b[i],
    ensures
        replaced_upto(a, k) == replaced_upto(b, k),
    decreases k,
{
    if k > 0 {
        lemma_replaced_same(a, b, k - 1);
    }
}

impl Cfg {
    /// Eliminate trivial phis, returning how many were removed. A phi is trivial when, but for
    /// the parameter itself, one value comes in: the parameter is that value then. A phi with
    /// no incoming value at all is left alone: every predecessor failed to recover, and
    /// inventing a value would be a lie.
    pub fn simplify_phis(&mut self) -> (n: usize)
        requires
            cfg_ok(*old(self)),
            params_total(old(self).blocks@) <= usize::MAX,
        ensures
            cfg_ok(*final(self)),
            simplifies(*old(self), *final(self), n as nat),
            same_edges(*old(self), *final(self)),
            forall|i: int|
                0 <= i < phis_upto(final(self).blocks@, final(self).blocks@.len() as int).len()
                    ==> !trivial(
                    #[trigger] phis_upto(final(self).blocks@, final(self).blocks@.len() as int)[i],
                ),
            n + params_total(final(self).blocks@) <= params_total(old(self).blocks@),
            n == 0 ==> *final(self) == *old(self),
            (exists|i: int|
                0 <= i < phis_upto(old(self).blocks@, old(self).blocks@.len() as int).len() && trivial(
                    #[trigger] phis_upto(old(self).blocks@, old(self).blocks@.len() as int)[i],
                )) ==> n > 0,
    {
        let ghost c0 = *self;
        let mut removed: usize = 0;
        let ghost mut gs: Seq<Cfg> = seq![c0];
        let ghost mut maps: Seq<Map<usize, Ref>> = Seq::empty();
        loop
            invariant
                c0 == *old(self),
                simplify_chain(gs, maps),
                gs.first() == c0,
                gs.last() == *self,
                replaced_upto(maps, maps.len() as int) == removed,
                cfg_ok(*self),
                same_edges(c0, *self),
                params_total(c0.blocks@) <= usize::MAX,
                removed + params_total(self.blocks@) <= params_total(c0.blocks@),
                removed == 0 ==> *self == c0,
            decreases params_total(self.blocks@),
        {
            let ghost c1 = *self;
            let ps = self.phis();
            let ghost views = phis_upto(self.blocks@, self.blocks@.len() as int);
            proof {
                lemma_phis_held(*self);
            }
            let map = trivial_phis(&self.arena, &ps);
            if map.len() == 0 {
                proof {
                    assert(map@.dom() =~= Set::<usize>::empty());
                    assert forall|i: int| 0 <= i < views.len() implies !trivial(#[trigger] views[i]) by {
                        if trivial(views[i]) {
                            let k = choose|k: usize| #[trigger] map@.dom().contains(k);
                            assert(map@.dom().contains(k));
                        }
                    }
                }
                return removed;
            }
            proof {
                assert forall|k: usize| #[trigger] map@.dom().contains(k) implies k
                    < self.arena.nodes@.len() && has(self.arena.nodes@, map@[k]) && width_of(
                    self.arena.nodes@,
                    map@[k],
                ) == self.arena.nodes@[k as int].width by {
                    lemma_trivial_map_ok(*self, map@, k);
                }
            }
            self.apply_rewrite(&map);
            proof {
                lemma_same_edges(c0, c1, map@, *self);
                lemma_map_params(c1, map@, *self);
                let gs0 = gs;
                let maps0 = maps;
                gs = gs.push(*self);
                maps = maps.push(map@);
                assert forall|i: int| 0 <= i < maps.len() implies simplify_step(
                    gs[i],
                    #[trigger] maps[i],
                    gs[i + 1],
                ) by {
                    assert(gs[i] == gs0[i]);
                    if i < maps0.len() {
                        assert(maps[i] == maps0[i]);
                        assert(gs[i + 1] == gs0[i + 1]);
                    }
                }
                lemma_replaced_same(maps0, maps, maps0.len() as int);
            }
            removed = removed + map.len();
        }
    }
}

/// A set with the replaced among the parameters added.
spec fn with_dropped(base: Set<usize>, params: Seq<(Reg, Ref)>, map: Map<usize, Ref>) -> Set<usize>
    decreases params.len(),
{
    if params.len() == 0 {
        base
    } else {
        let s = with_dropped(base, params.drop_last(), map);
        if map.dom().contains(params.last().1.idx) {
            s.insert(params.last().1.idx)
        } else {
            s
        }
    }
}

/// The replaced among the parameters of the first `k` blocks.
spec fn dropped(blocks: Seq<Block>, map: Map<usize, Ref>, k: int) -> Set<usize>
    decreases k,
{
    if k <= 0 {
        Set::empty()
    } else {
        with_dropped(dropped(blocks, map, k - 1), blocks[k - 1].params@, map)
    }
}

proof fn lemma_with_dropped(base: Set<usize>, params: Seq<(Reg, Ref)>, map: Map<usize, Ref>)
    requires
        base.finite(),
    ensures
        with_dropped(base, params, map).finite(),
        with_dropped(base, params, map).len() + kept_params(params, map).len() <= base.len()
            + params.len(),
        base.subset_of(with_dropped(base, params, map)),
        forall|j: int|
            0 <= j < params.len() && map.dom().contains((#[trigger] params[j]).1.idx) ==> with_dropped(
                base,
                params,
                map,
            ).contains(params[j].1.idx),
    decreases params.len(),
{
    reveal(Seq::filter);
    if params.len() > 0 {
        let rest = params.drop_last();
        lemma_with_dropped(base, rest, map);
        let pred = |p: (Reg, Ref)| !map.dom().contains(p.1.idx);
        rest.lemma_filter_push(params.last(), pred);
        assert(rest.push(params.last()) =~= params);
        assert forall|j: int|
            0 <= j < params.len() && map.dom().contains((#[trigger] params[j]).1.idx) implies with_dropped(
            base,
            params,
            map,
        ).contains(params[j].1.idx) by {
            if j < rest.len() {
                assert(rest[j] == params[j]);
            }
        }
    }
}

proof fn lemma_dropped(a: Cfg, map: Map<usize, Ref>, b: Cfg, k: int)
    requires
        rewritten_graph(a, map, b),
        0 <= k <= a.blocks@.len(),
    ensures
        dropped(a.blocks@, map, k).finite(),
        dropped(a.blocks@, map, k).len() + params_upto(b.blocks@, k) <= params_upto(a.blocks@, k),
        forall|at: (int, int), key: usize|
            at.0 < k && #[trigger] param_at(a.blocks@, at, key) && map.dom().contains(key) ==> dropped(
                a.blocks@,
                map,
                k,
            ).contains(key),
    decreases k,
{
    if k > 0 {
        lemma_dropped(a, map, b, k - 1);
        let x = a.blocks@[k - 1];
        assert(rewritten_block(a.arena.nodes@, b.arena.nodes@, map, x, b.blocks@[k - 1]));
        lemma_with_dropped(dropped(a.blocks@, map, k - 1), x.params@, map);
        assert forall|at: (int, int), key: usize|
            at.0 < k && #[trigger] param_at(a.blocks@, at, key) && map.dom().contains(key) implies dropped(
            a.blocks@,
            map,
            k,
        ).contains(key) by {
            if at.0 < k - 1 {
                assert(dropped(a.blocks@, map, k - 1).contains(key));
            }
        }
    }
}

/// Every replaced parameter is gone.
proof fn lemma_map_params(a: Cfg, map: Map<usize, Ref>, b: Cfg)
    requires
        cfg_ok(a),
        trivial_map(a.arena.nodes@, phis_upto(a.blocks@, a.blocks@.len() as int), map),
        map.dom().finite(),
        rewritten_graph(a, map, b),
    ensures
        map.dom().len() + params_total(b.blocks@) <= params_total(a.blocks@),
{
    let n = a.blocks@.len() as int;
    lemma_dropped(a, map, b, n);
    assert(map.dom().subset_of(dropped(a.blocks@, map, n))) by {
        assert forall|k: usize| map.dom().contains(k) implies dropped(a.blocks@, map, n).contains(k) by {
            lemma_trivial_map_ok(a, map, k);
            let at = choose|at: (int, int)| #[trigger] param_at(a.blocks@, at, k);
            assert(param_at(a.blocks@, at, k));
        }
    }
    vstd::set_lib::lemma_len_subset(map.dom(), dropped(a.blocks@, map, n));
}

/// What a block's body computes: its exits, its effects and what it tests.
pub open spec fn body_refs(b: Block) -> Seq<Ref> {
    Seq::new(b.exit_regs@.len(), |j: int| b.exit_regs@[j].1) + event_refs_upto(
        b.events@,
        b.events@.len() as int,
    ) + match b.terminator {
        Terminator::Branch { predicate, .. } => seq![predicate],
        Terminator::Switch { selector, .. } => seq![selector],
        Terminator::Return { dest } => seq![dest],
        _ => Seq::empty(),
    }
}

/// What an event computes.
pub open spec fn event_refs(e: Event) -> Seq<Ref> {
    match e {
        Event::Store { addr, value, .. } => seq![addr, value],
        Event::Load { addr, value, .. } => seq![addr, value],
        Event::Call { target, args, .. } => match target {
            Some(t) => seq![t] + Seq::new(args@.len(), |j: int| args@[j].1),
            None => Seq::new(args@.len(), |j: int| args@[j].1),
        },
        Event::Boxed { mem, uses, .. } => match mem {
            Some(m) => seq![m.addr] + Seq::new(uses@.len(), |j: int| uses@[j].1),
            None => Seq::new(uses@.len(), |j: int| uses@[j].1),
        },
    }
}

/// What the first `k` events compute.
pub open spec fn event_refs_upto(events: Seq<Event>, k: int) -> Seq<Ref>
    decreases k,
{
    if k <= 0 {
        Seq::empty()
    } else {
        event_refs_upto(events, k - 1) + event_refs(events[k - 1])
    }
}

/// Whether a block's body reads a parameter.
pub open spec fn reads_param(ns: Seq<Node>, b: Block, p: Ref) -> bool {
    is_leaf(op_of(ns, p)) && exists|i: int|
        0 <= i < body_refs(b).len() && depends(ns, #[trigger] body_refs(b)[i], p)
}

fn push_values<K: Copy>(out: &mut Vec<Ref>, regs: &Vec<(K, Ref)>)
    ensures
        final(out)@ == old(out)@ + Seq::new(regs@.len(), |j: int| regs@[j].1),
{
    let ghost all = Seq::new(regs@.len(), |j: int| regs@[j].1);
    let mut j: usize = 0;
    proof {
        assert(out@ =~= old(out)@ + all.take(0));
    }
    while j < regs.len()
        invariant
            j <= regs@.len(),
            all == Seq::new(regs@.len(), |j: int| regs@[j].1),
            out@ == old(out)@ + all.take(j as int),
        decreases regs@.len() - j,
    {
        out.push(regs[j].1);
        j = j + 1;
        proof {
            assert(out@ =~= old(out)@ + all.take(j as int));
        }
    }
    proof {
        assert(all.take(all.len() as int) =~= all);
    }
}

fn push_event_refs(out: &mut Vec<Ref>, e: &Event)
    ensures
        final(out)@ == old(out)@ + event_refs(*e),
{
    match e {
        Event::Store { addr, value, .. } => {
            out.push(*addr);
            out.push(*value);
        },
        Event::Load { addr, value, .. } => {
            out.push(*addr);
            out.push(*value);
        },
        Event::Call { target, args, .. } => {
            if let Some(t) = target {
                out.push(*t);
            }
            push_values(out, args);
        },
        Event::Boxed { mem, uses, .. } => {
            if let Some(m) = mem {
                out.push(m.addr);
            }
            push_values(out, uses);
        },
    }
    proof {
        assert(out@ =~= old(out)@ + event_refs(*e));
    }
}

/// What a block's body computes.
pub fn refs_of(b: &Block) -> (out: Vec<Ref>)
    ensures
        out@ == body_refs(*b),
{
    let mut out: Vec<Ref> = Vec::new();
    push_values(&mut out, &b.exit_regs);
    let ghost head = out@;
    let mut j: usize = 0;
    proof {
        assert(out@ =~= head + event_refs_upto(b.events@, 0));
    }
    while j < b.events.len()
        invariant
            j <= b.events@.len(),
            out@ == head + event_refs_upto(b.events@, j as int),
        decreases b.events@.len() - j,
    {
        push_event_refs(&mut out, &b.events[j]);
        j = j + 1;
        proof {
            assert(out@ =~= head + event_refs_upto(b.events@, j as int));
        }
    }
    match &b.terminator {
        Terminator::Branch { predicate, .. } => {
            out.push(*predicate);
        },
        Terminator::Switch { selector, .. } => {
            out.push(*selector);
        },
        Terminator::Return { dest } => {
            out.push(*dest);
        },
        _ => {},
    }
    proof {
        assert(out@ =~= body_refs(*b));
    }
    out
}

proof fn lemma_event_refs_held(ns: Seq<Node>, events: Seq<Event>, k: int, i: int)
    requires
        0 <= k <= events.len(),
        forall|j: int| 0 <= j < events.len() ==> event_held(ns, #[trigger] events[j]),
        0 <= i < event_refs_upto(events, k).len(),
    ensures
        has(ns, event_refs_upto(events, k)[i]),
    decreases k,
{
    let before = event_refs_upto(events, k - 1);
    if i < before.len() {
        lemma_event_refs_held(ns, events, k - 1, i);
    } else {
        assert(event_held(ns, events[k - 1]));
        match events[k - 1] {
            Event::Call { target, args, .. } => {
                let at = i - before.len();
                match target {
                    Some(t) => {
                        if at > 0 {
                            assert(has(ns, args@[at - 1].1));
                        }
                    },
                    None => {
                        assert(has(ns, args@[at].1));
                    },
                }
            },
            Event::Boxed { mem, uses, .. } => {
                let at = i - before.len();
                match mem {
                    Some(m) => {
                        if at > 0 {
                            assert(has(ns, uses@[at - 1].1));
                        }
                    },
                    None => {
                        assert(has(ns, uses@[at].1));
                    },
                }
            },
            _ => {},
        }
    }
}

/// What a block's body computes is in the arena.
pub proof fn lemma_body_refs_held(ns: Seq<Node>, b: Block, i: int)
    requires
        block_held(ns, b),
        0 <= i < body_refs(b).len(),
    ensures
        has(ns, body_refs(b)[i]),
{
    let n = b.exit_regs@.len();
    let m = event_refs_upto(b.events@, b.events@.len() as int).len();
    if i < n {
        assert(has(ns, b.exit_regs@[i].1));
    } else if i < n + m {
        lemma_event_refs_held(ns, b.events@, b.events@.len() as int, i - n);
    }
}

/// What the rewritten events compute depends on nothing that was replaced.
proof fn lemma_event_refs_freed(
    ns: Seq<Node>,
    now: Seq<Node>,
    map: Map<usize, Ref>,
    before: Seq<Event>,
    after: Seq<Event>,
    n: int,
    i: int,
)
    requires
        0 <= n <= before.len() == after.len(),
        forall|j: int|
            0 <= j < before.len() ==> rewritten_event(
                ns,
                now,
                map,
                before[j],
                #[trigger] after[j],
            ),
        0 <= i < event_refs_upto(after, n).len(),
    ensures
        freed(ns, now, map, event_refs_upto(after, n)[i]),
    decreases n,
{
    let first = event_refs_upto(after, n - 1);
    if i < first.len() {
        lemma_event_refs_freed(ns, now, map, before, after, n - 1, i);
    } else {
        let at = i - first.len();
        assert(rewritten_event(ns, now, map, before[n - 1], after[n - 1]));
        match after[n - 1] {
            Event::Call { target, args, .. } => {
                let skip: int = if target is Some { 1 } else { 0 };
                if at >= skip {
                    assert(freed(ns, now, map, args@[at - skip].1));
                }
            },
            Event::Boxed { mem, uses, .. } => {
                let skip: int = if mem is Some { 1 } else { 0 };
                if at >= skip {
                    assert(freed(ns, now, map, uses@[at - skip].1));
                }
            },
            _ => {},
        }
    }
}

/// A parameter that a round of eliminating trivial phis replaces is read by no block any more:
/// no exit value, no event and no terminator is computed from it. It is left only where its
/// one incoming value is computed from the parameter itself.
pub proof fn a_removed_parameter_is_read_nowhere(
    a: Cfg,
    map: Map<usize, Ref>,
    b: Cfg,
    i: int,
    p: Ref,
)
    requires
        simplify_step(a, map, b),
        apart(a.arena.nodes@, map),
        params_only(a.arena.nodes@, map),
        0 <= i < b.blocks@.len(),
        map.dom().contains(p.idx),
    ensures
        !reads_param(b.arena.nodes@, b.blocks@[i], p),
{
    let ns = a.arena.nodes@;
    let now = b.arena.nodes@;
    let x = a.blocks@[i];
    let y = b.blocks@[i];
    assert(rewritten_block(ns, now, map, x, y));
    let n = y.exit_regs@.len();
    let all = event_refs_upto(y.events@, y.events@.len() as int);
    assert forall|j: int| 0 <= j < body_refs(y).len() implies !depends(
        now,
        #[trigger] body_refs(y)[j],
        p,
    ) by {
        if j < n {
            assert(freed(ns, now, map, y.exit_regs@[j].1));
        } else if j < n + all.len() {
            lemma_event_refs_freed(
                ns,
                now,
                map,
                x.events@,
                y.events@,
                y.events@.len() as int,
                j - n,
            );
        }
        assert(freed(ns, now, map, body_refs(y)[j]));
        reveal(freed);
        assert(p == Ref { idx: p.idx });
    }
}

/// Whether a reference is among the leaves of the first `k` references.
spec fn leaf_upto(ns: Seq<Node>, refs: Seq<Ref>, k: int, p: Ref) -> bool {
    is_leaf(op_of(ns, p)) && exists|i: int| 0 <= i < k && depends(ns, #[trigger] refs[i], p)
}

impl Cfg {
    /// Remove parameters that the block's body never reads.
    pub fn remove_dead_params(&mut self)
        requires
            cfg_ok(*old(self)),
        ensures
            cfg_ok(*final(self)),
            final(self).arena == old(self).arena,
            same_but_blocks(*old(self), *final(self)),
            final(self).blocks@.len() == old(self).blocks@.len(),
            forall|k: int|
                0 <= k < old(self).blocks@.len() ==> read_params_kept(
                    old(self).arena.nodes@,
                    old(self).blocks@[k],
                    #[trigger] final(self).blocks@[k],
                ),
    {
        let ghost c0 = *self;
        let ghost ns = self.arena.nodes@;
        let mut k: usize = 0;
        while k < self.blocks.len()
            invariant
                k <= self.blocks@.len() == c0.blocks@.len(),
                self.arena == c0.arena,
                same_but_blocks(c0, *self),
                cfg_ok(c0),
                ns == c0.arena.nodes@,
                forall|i: int|
                    0 <= i < c0.blocks@.len() ==> if i < k {
                        read_params_kept(ns, c0.blocks@[i], #[trigger] self.blocks@[i])
                    } else {
                        self.blocks@[i] == c0.blocks@[i]
                    },
            decreases self.blocks@.len() - k,
        {
            proof {
                assert(self.blocks@[k as int] == c0.blocks@[k as int]);
                assert(block_ok(ns, c0.blocks@[k as int]));
            }
            let ghost b0 = self.blocks@[k as int];
            let ghost bs0 = self.blocks@;
            let refs = refs_of(&self.blocks[k]);
            let mut used: HashMap<usize, bool> = HashMap::new();
            let mut i: usize = 0;
            while i < refs.len()
                invariant
                    i <= refs@.len(),
                    self.arena == c0.arena,
                    c0.arena.wf(),
                    ns == c0.arena.nodes@,
                    refs@ == body_refs(b0),
                    block_held(ns, b0),
                    forall|p: usize| #[trigger]
                        used@.dom().contains(p) <==> leaf_upto(ns, refs@, i as int, Ref { idx: p }),
                decreases refs@.len() - i,
            {
                proof {
                    lemma_body_refs_held(ns, b0, i as int);
                }
                let found = leaves(&self.arena, refs[i]);
                let ghost u0 = used@;
                let mut j: usize = 0;
                while j < found.len()
                    invariant
                        j <= found@.len(),
                        forall|p: usize| #[trigger]
                            used@.dom().contains(p) <==> u0.dom().contains(p) || found@.take(j as int).contains(
                                Ref { idx: p },
                            ),
                    decreases found@.len() - j,
                {
                    let ghost u1 = used@;
                    used.insert(found[j].idx, true);
                    proof {
                        assert(found@.take(j + 1) =~= found@.take(j as int).push(found@[j as int]));
                        crate::ir::walk::lemma_push_contains(found@.take(j as int), found@[j as int]);
                        assert(found@[j as int] == Ref { idx: found@[j as int].idx });
                        assert forall|p: usize| #[trigger] used@.dom().contains(p) <==> u0.dom().contains(p)
                            || found@.take(j + 1).contains(Ref { idx: p }) by {
                            assert(u1.dom().contains(p) <==> u0.dom().contains(p) || found@.take(
                                j as int,
                            ).contains(Ref { idx: p }));
                        }
                    }
                    j = j + 1;
                }
                proof {
                    assert(found@.take(found@.len() as int) =~= found@);
                    assert forall|p: usize| #[trigger] used@.dom().contains(p) <==> leaf_upto(
                        ns,
                        refs@,
                        i + 1,
                        Ref { idx: p },
                    ) by {
                        let q = Ref { idx: p };
                        assert(u0.dom().contains(p) <==> leaf_upto(ns, refs@, i as int, q));
                        assert(found@.contains(q) <==> depends(ns, refs@[i as int], q) && is_leaf(
                            op_of(ns, q),
                        ));
                        if leaf_upto(ns, refs@, i as int, q) {
                            let m = choose|m: int| 0 <= m < i && depends(ns, #[trigger] refs@[m], q);
                            assert(depends(ns, refs@[m], q));
                        }
                        if leaf_upto(ns, refs@, i + 1, q) {
                            let m = choose|m: int| 0 <= m < i + 1 && depends(ns, #[trigger] refs@[m], q);
                            if m < i {
                                assert(depends(ns, refs@[m], q));
                            }
                        }
                    }
                }
                i = i + 1;
            }
            let ghost pred = |p: (Reg, Ref)| reads_param(ns, b0, p.1);
            let mut keep: Vec<bool> = Vec::new();
            let mut j: usize = 0;
            while j < self.blocks[k].params.len()
                invariant
                    k < self.blocks@.len(),
                    self.blocks@[k as int] == b0,
                    j <= b0.params@.len(),
                    keep@.len() == j,
                    refs@ == body_refs(b0),
                    pred == (|p: (Reg, Ref)| reads_param(ns, b0, p.1)),
                    forall|p: usize| #[trigger]
                        used@.dom().contains(p) <==> leaf_upto(
                            ns,
                            refs@,
                            refs@.len() as int,
                            Ref { idx: p },
                        ),
                    forall|i: int| 0 <= i < j ==> #[trigger] keep@[i] == pred(b0.params@[i]),
                decreases b0.params@.len() - j,
            {
                let p = self.blocks[k].params[j].1;
                proof {
                    assert(p == Ref { idx: p.idx });
                    assert(used@.dom().contains(p.idx) <==> leaf_upto(ns, refs@, refs@.len() as int, p));
                    assert(leaf_upto(ns, refs@, refs@.len() as int, p) == reads_param(ns, b0, p));
                }
                keep.push(used.contains_key(&p.idx));
                j = j + 1;
            }
            retain_params(&mut self.blocks[k].params, &keep, Ghost(pred));
            proof {
                assert forall|i: int| 0 <= i < c0.blocks@.len() implies if i < k + 1 {
                    read_params_kept(ns, c0.blocks@[i], #[trigger] self.blocks@[i])
                } else {
                    self.blocks@[i] == c0.blocks@[i]
                } by {
                    if i != k {
                        assert(self.blocks@[i] == bs0[i]);
                    }
                }
            }
            k = k + 1;
        }
        proof {
            assert forall|i: int| 0 <= i < self.blocks@.len() implies block_ok(ns, #[trigger] self.blocks@[i]) by {
                let a = c0.blocks@[i];
                let b = self.blocks@[i];
                assert(block_ok(ns, a));
                assert(read_params_kept(ns, a, b));
                let pred = |p: (Reg, Ref)| reads_param(ns, a, p.1);
                assert forall|j: int| 0 <= j < b.params@.len() implies has(ns, (#[trigger] b.params@[j]).1)
                    && width_of(ns, b.params@[j].1) == Width::W64 by {
                    lemma_filtered(a.params@, pred, j);
                    let m = choose|m: int| 0 <= m < a.params@.len() && a.params@[m] == b.params@[j];
                    assert(has(ns, a.params@[m].1) && width_of(ns, a.params@[m].1) == Width::W64);
                }
            }
        }
    }
}

/// Whether a block is another without the parameters its body never reads.
pub open spec fn read_params_kept(ns: Seq<Node>, a: Block, b: Block) -> bool {
    &&& b.id == a.id
    &&& b.block_ref == a.block_ref
    &&& b.params@ == a.params@.filter(|p: (Reg, Ref)| reads_param(ns, a, p.1))
    &&& b.events == a.events
    &&& b.from_vm_context == a.from_vm_context
    &&& b.exit_regs == a.exit_regs
    &&& b.terminator == a.terminator
    &&& b.cost == a.cost
    &&& b.preds == a.preds
}

} // verus!
