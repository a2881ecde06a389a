//! Structural checks of a recovered control-flow graph.

use crate::ir::expr::{op_of, BlockRef, Node, Op, Ref};
use crate::ir::flow::{
    body_refs, ids, lemma_body_refs_held, params_total, params_upto, refs_of, successors_of,
    successors_spec,
};
use crate::ir::graph::{Block, BlockId, Cfg, Terminator};
use crate::ir::lower::block_held;
use crate::ir::text::{decimal_text, push_decimal};
use crate::ir::walk::{depends, is_leaf, leaves, leaves_in};
use crate::vm::order::{ascending, insert_id};
use crate::vm::reach::{blocks_held, contains_id, dominates, dominators, stuck, stuck_blocks};
use vstd::prelude::*;
use vstd::string::StringExecFns;

verus! {

/// Structural problems in a recovered CFG.
///
/// These are invariants the recovery process should maintain regardless of the binary. A
/// violation means a bug in the explorer rather than a limitation on the target, so they are
/// checked separately from coverage.
#[derive(Debug)]
pub struct CfgIssues {
    /// Edges pointing at a block that was never recovered.
    pub dangling_edges: Vec<(BlockId, BlockId)>,
    /// Blocks the VM was interpreting for which no bytecode position could be read, so their
    /// identity is `handler` alone.
    pub unidentified_blocks: Vec<BlockId>,
    /// Blocks other than the entry with no predecessors.
    pub orphans: Vec<BlockId>,
    /// Distinct blocks that share a handler and a bytecode position, which should be
    /// impossible given that the pair is the block identity.
    pub duplicate_ids: Vec<BlockId>,
    /// Branch or switch terminators whose targets are not all distinct.
    pub degenerate_branches: Vec<BlockId>,
    /// Uses of a parameter owned by a block that does not dominate the use.
    pub nondominating_params: Vec<(BlockId, BlockRef)>,
    /// Parameters declared by a block but not used by anything in it. Harmless, but a sign
    /// the cut is wider than it needs to be.
    pub dead_params: usize,
    /// Blocks that can be reached, never leave the function, and poll nothing meanwhile.
    pub cannot_reach_exit: Vec<BlockId>,
}

impl Default for CfgIssues {
    /// Nothing is wrong.
    fn default() -> (r: Self)
        ensures
            r.dangling_edges@.len() == 0,
            r.unidentified_blocks@.len() == 0,
            r.orphans@.len() == 0,
            r.duplicate_ids@.len() == 0,
            r.degenerate_branches@.len() == 0,
            r.nondominating_params@.len() == 0,
            r.dead_params == 0,
            r.cannot_reach_exit@.len() == 0,
    {
        CfgIssues {
            dangling_edges: Vec::new(),
            unidentified_blocks: Vec::new(),
            orphans: Vec::new(),
            duplicate_ids: Vec::new(),
            degenerate_branches: Vec::new(),
            nondominating_params: Vec::new(),
            dead_params: 0,
            cannot_reach_exit: Vec::new(),
        }
    }
}

/// The identities of those of the first `k` blocks that a predicate picks.
pub open spec fn ids_where(blocks: Seq<Block>, p: spec_fn(int) -> bool, k: int) -> Seq<BlockId>
    decreases k,
{
    if k <= 0 {
        Seq::empty()
    } else if p(k - 1) {
        ids_where(blocks, p, k - 1).push(blocks[k - 1].id)
    } else {
        ids_where(blocks, p, k - 1)
    }
}

/// Whether a block was interpreted by the VM, but has no bytecode position.
pub open spec fn unidentified(cfg: Cfg, i: int) -> bool {
    let b = cfg.blocks@[i];
    b.id != cfg.entry && b.from_vm_context && b.id.vip is None && cfg.vm_range.0 <= b.id.handler
        < cfg.vm_range.1
}

/// Whether an earlier block has the same identity.
pub open spec fn repeated(blocks: Seq<Block>, i: int) -> bool {
    exists|k: int| 0 <= k < i && (#[trigger] blocks[k]).id == blocks[i].id
}

/// Whether a terminator tells apart targets that are the same.
pub open spec fn degenerate(t: Terminator) -> bool {
    match t {
        Terminator::Branch { taken, not_taken, .. } => taken == not_taken,
        Terminator::Switch { targets, .. } => !targets@.no_duplicates(),
        _ => false,
    }
}

/// Whether a block other than the entry has no predecessors.
pub open spec fn orphan(cfg: Cfg, i: int) -> bool {
    cfg.blocks@[i].id != cfg.entry && cfg.blocks@[i].preds@.len() == 0
}

/// The edges of the first `k` of a block's successors that lead to no block.
pub open spec fn dangling_of(
    blocks: Seq<Block>,
    from: BlockId,
    succ: Seq<BlockId>,
    k: int,
) -> Seq<(BlockId, BlockId)>
    decreases k,
{
    if k <= 0 {
        Seq::empty()
    } else if ids(blocks).contains(succ[k - 1]) {
        dangling_of(blocks, from, succ, k - 1)
    } else {
        dangling_of(blocks, from, succ, k - 1).push((from, succ[k - 1]))
    }
}

/// The edges of the first `k` blocks that lead to no block.
pub open spec fn dangling_upto(blocks: Seq<Block>, k: int) -> Seq<(BlockId, BlockId)>
    decreases k,
{
    if k <= 0 {
        Seq::empty()
    } else {
        let s = successors_spec(blocks[k - 1].terminator);
        dangling_upto(blocks, k - 1) + dangling_of(blocks, blocks[k - 1].id, s, s.len() as int)
    }
}

/// Whether a parameter is read by one of the first `k` expressions.
pub open spec fn read_upto(ns: Seq<Node>, refs: Seq<Ref>, k: int, x: Ref) -> bool {
    op_of(ns, x) is Param && exists|i: int| 0 <= i < k && depends(ns, #[trigger] refs[i], x)
}

/// Whether a block's body reads a parameter.
pub open spec fn param_read(ns: Seq<Node>, b: Block, x: Ref) -> bool {
    read_upto(ns, body_refs(b), body_refs(b).len() as int, x)
}

/// Whether block `o` is the one that owns the parameters of `owner`.
pub open spec fn owns(blocks: Seq<Block>, owner: BlockRef, o: int) -> bool {
    &&& 0 <= o < blocks.len()
    &&& blocks[o].block_ref == owner
    &&& forall|k: int| o < k < blocks.len() ==> (#[trigger] blocks[k]).block_ref != owner
}

/// Whether every way to block `i` goes through block `j`, which has the identity given.
pub open spec fn dominated_by(cfg: Cfg, i: int, id: BlockId, j: int) -> bool {
    0 <= j < cfg.blocks@.len() && cfg.blocks@[j].id == id && dominates(cfg.blocks@, cfg.entry, j, i)
}

/// Whether the block that owns the parameters of `owner` dominates block `i`.
pub open spec fn owner_dominates(cfg: Cfg, i: int, owner: BlockRef) -> bool {
    exists|o: int, j: int|
        #![trigger owns(cfg.blocks@, owner, o), dominated_by(cfg, i, cfg.blocks@[o].id, j)]
        owns(cfg.blocks@, owner, o) && dominated_by(cfg, i, cfg.blocks@[o].id, j)
}

/// Whether block `i` reads a parameter of `owner` that it cannot rely on.
pub open spec fn misreads(cfg: Cfg, i: int, owner: BlockRef) -> bool {
    !owner_dominates(cfg, i, owner) && exists|x: Ref|
        #[trigger] param_read(cfg.arena.nodes@, cfg.blocks@[i], x) && op_of(cfg.arena.nodes@, x)->Param_0
            == owner
}

/// The parameters the first `k` expressions read, once for each expression that does.
pub open spec fn reads_in(ns: Seq<Node>, refs: Seq<Ref>, k: int) -> Seq<Ref>
    decreases k,
{
    if k <= 0 {
        Seq::empty()
    } else {
        reads_in(ns, refs, k - 1) + leaves_in(ns, refs[k - 1]).filter(
            |x: Ref| op_of(ns, x) is Param,
        )
    }
}

/// The owners among the first `k` parameters read that do not dominate block `i`.
pub open spec fn misread_of(cfg: Cfg, i: int, used: Seq<Ref>, k: int) -> Seq<(BlockId, BlockRef)>
    decreases k,
{
    if k <= 0 {
        Seq::empty()
    } else {
        let owner = op_of(cfg.arena.nodes@, used[k - 1])->Param_0;
        if owner_dominates(cfg, i, owner) {
            misread_of(cfg, i, used, k - 1)
        } else {
            misread_of(cfg, i, used, k - 1).push((cfg.blocks@[i].id, owner))
        }
    }
}

/// What the first `k` blocks read of parameters they cannot rely on, block by block, in the
/// order of their expressions.
pub open spec fn misread_upto(cfg: Cfg, k: int) -> Seq<(BlockId, BlockRef)>
    decreases k,
{
    if k <= 0 {
        Seq::empty()
    } else {
        let refs = body_refs(cfg.blocks@[k - 1]);
        let used = reads_in(cfg.arena.nodes@, refs, refs.len() as int);
        misread_upto(cfg, k - 1) + misread_of(cfg, k - 1, used, used.len() as int)
    }
}

/// How many of the first `j` parameters of a block its body does not read.
pub open spec fn dead_in(ns: Seq<Node>, b: Block, j: int) -> nat
    decreases j,
{
    if j <= 0 {
        0
    } else {
        dead_in(ns, b, j - 1) + if param_read(ns, b, b.params@[j - 1].1) {
            0nat
        } else {
            1nat
        }
    }
}

/// How many parameters of the first `k` blocks their own body does not read.
pub open spec fn dead_upto(ns: Seq<Node>, blocks: Seq<Block>, k: int) -> nat
    decreases k,
{
    if k <= 0 {
        0
    } else {
        dead_upto(ns, blocks, k - 1) + dead_in(
            ns,
            blocks[k - 1],
            blocks[k - 1].params@.len() as int,
        )
    }
}

/// Whether a list names the stuck blocks.
pub open spec fn names_stuck(cfg: Cfg, v: Seq<BlockId>) -> bool {
    &&& ascending(v)
    &&& forall|x: BlockId| #[trigger]
        v.contains(x) <==> exists|i: int|
            0 <= i < cfg.blocks@.len() && #[trigger] stuck(cfg, i) && cfg.blocks@[i].id == x
}

/// Whether a list names the parameters that blocks cannot rely on.
pub open spec fn names_misreads(cfg: Cfg, v: Seq<(BlockId, BlockRef)>) -> bool {
    forall|x: BlockId, owner: BlockRef| #[trigger]
        v.contains((x, owner)) <==> exists|i: int|
            0 <= i < cfg.blocks@.len() && cfg.blocks@[i].id == x && #[trigger] misreads(
                cfg,
                i,
                owner,
            )
}

/// What is wrong with a graph.
pub open spec fn found_in(cfg: Cfg, v: CfgIssues) -> bool {
    let n = cfg.blocks@.len() as int;
    &&& v.dangling_edges@ == dangling_upto(cfg.blocks@, n)
    &&& v.unidentified_blocks@ == ids_where(cfg.blocks@, |i: int| unidentified(cfg, i), n)
    &&& v.orphans@ == ids_where(cfg.blocks@, |i: int| orphan(cfg, i), n)
    &&& v.duplicate_ids@ == ids_where(cfg.blocks@, |i: int| repeated(cfg.blocks@, i), n)
    &&& v.degenerate_branches@ == ids_where(
        cfg.blocks@,
        |i: int| degenerate(cfg.blocks@[i].terminator),
        n,
    )
    &&& names_misreads(cfg, v.nondominating_params@)
    &&& v.nondominating_params@ == misread_upto(cfg, n)
    &&& v.dead_params == dead_upto(cfg.arena.nodes@, cfg.blocks@, n)
    &&& names_stuck(cfg, v.cannot_reach_exit@)
}

/// Whether adopting a terminator found by an earlier pass would describe the whole block:
/// only when this pass ran at least as far as that one.
pub fn adoption_covers_the_block(steps_this_pass: usize, steps_concrete_pass: usize) -> (r: bool)
    ensures
        r == (steps_this_pass >= steps_concrete_pass),
{
    steps_this_pass >= steps_concrete_pass
}

/// A summary with one more kind of problem, where there is any of it.
pub open spec fn with_part(acc: Seq<char>, name: Seq<char>, n: nat) -> Seq<char> {
    let part = name + " "@ + decimal_text(n as u64);
    if n == 0 {
        acc
    } else if acc.len() == 0 {
        part
    } else {
        acc + ", "@ + part
    }
}

fn add_part(out: &mut String, name: &'static str, n: usize)
    ensures
        final(out)@ == with_part(old(out)@, name@, n as nat),
{
    let ghost acc = out@;
    if n > 0 {
        if out.as_str().unicode_len() > 0 {
            out.append(", ");
        }
        out.append(name);
        out.append(" ");
        push_decimal(out, n as u64);
        proof {
            assert(out@ =~= with_part(acc, name@, n as nat));
        }
    }
}

impl CfgIssues {
    /// Whether nothing is wrong that would make the graph unusable.
    pub open spec fn is_clean_spec(&self) -> bool {
        &&& self.nondominating_params@.len() == 0
        &&& self.dangling_edges@.len() == 0
        &&& self.orphans@.len() == 0
        &&& self.duplicate_ids@.len() == 0
        &&& self.degenerate_branches@.len() == 0
        &&& self.cannot_reach_exit@.len() == 0
        &&& self.unidentified_blocks@.len() == 0
    }

    /// Whether nothing is wrong that would make the graph unusable.
    pub fn is_clean(&self) -> (r: bool)
        ensures
            r == self.is_clean_spec(),
    {
        self.nondominating_params.len() == 0 && self.dangling_edges.len() == 0
            && self.orphans.len() == 0 && self.duplicate_ids.len() == 0
            && self.degenerate_branches.len() == 0 && self.cannot_reach_exit.len() == 0
            && self.unidentified_blocks.len() == 0
    }

    /// The kinds of problem that were found, with counts.
    pub open spec fn parts_spec(&self) -> Seq<char> {
        let a = with_part(Seq::empty(), "dangling_edges"@, self.dangling_edges@.len());
        let b = with_part(a, "unidentified"@, self.unidentified_blocks@.len());
        let c = with_part(b, "orphans"@, self.orphans@.len());
        let d = with_part(c, "duplicate_ids"@, self.duplicate_ids@.len());
        let e = with_part(d, "degenerate_branches"@, self.degenerate_branches@.len());
        let f = with_part(e, "nondominating_params"@, self.nondominating_params@.len());
        with_part(f, "cannot_reach_exit"@, self.cannot_reach_exit@.len())
    }

    pub open spec fn summary_spec(&self) -> Seq<char> {
        let named = if self.parts_spec().len() == 0 {
            "clean"@
        } else {
            self.parts_spec()
        };
        if self.dead_params > 0 {
            named + ", (dead_params "@ + decimal_text(self.dead_params as u64) + ")"@
        } else {
            named
        }
    }

    /// One line naming the kinds that fired, with counts. The `Debug` form lists every
    /// offending identity, which runs to hundreds of lines for a large graph and buries the
    /// one fact needed first: which invariant broke.
    pub fn summary(&self) -> (r: String)
        ensures
            r@ == self.summary_spec(),
    {
        let mut out = String::new();
        proof {
            assert(out@ =~= Seq::empty());
        }
        add_part(&mut out, "dangling_edges", self.dangling_edges.len());
        add_part(&mut out, "unidentified", self.unidentified_blocks.len());
        add_part(&mut out, "orphans", self.orphans.len());
        add_part(&mut out, "duplicate_ids", self.duplicate_ids.len());
        add_part(&mut out, "degenerate_branches", self.degenerate_branches.len());
        add_part(&mut out, "nondominating_params", self.nondominating_params.len());
        add_part(&mut out, "cannot_reach_exit", self.cannot_reach_exit.len());
        if out.as_str().unicode_len() == 0 {
            out.append("clean");
            proof {
                assert(out@ =~= "clean"@);
            }
        }
        if self.dead_params > 0 {
            let ghost named = out@;
            out.append(", (dead_params ");
            push_decimal(&mut out, self.dead_params as u64);
            out.append(")");
            proof {
                assert(out@ =~= named + ", (dead_params "@ + decimal_text(self.dead_params as u64)
                    + ")"@);
            }
        }
        out
    }
}

/// The summary names some kind of problem exactly where the graph is not clean.
pub proof fn only_a_clean_graph_has_no_parts(v: CfgIssues)
    ensures
        v.parts_spec().len() == 0 <==> v.is_clean_spec(),
{
    reveal_strlit("dangling_edges");
    reveal_strlit("unidentified");
    reveal_strlit("orphans");
    reveal_strlit("duplicate_ids");
    reveal_strlit("degenerate_branches");
    reveal_strlit("nondominating_params");
    reveal_strlit("cannot_reach_exit");
}

/// Whether no identity is in a list twice.
fn all_different(v: &Vec<BlockId>) -> (r: bool)
    ensures
        r == v@.no_duplicates(),
{
    let mut i: usize = 0;
    while i < v.len()
        invariant
            i <= v@.len(),
            forall|a: int, b: int| 0 <= a < b < i ==> #[trigger] v@[a] != #[trigger] v@[b],
        decreases v@.len() - i,
    {
        let mut j: usize = 0;
        while j < i
            invariant
                j <= i < v@.len(),
                forall|a: int| 0 <= a < j ==> #[trigger] v@[a] != v@[i as int],
            decreases i - j,
        {
            if v[j] == v[i] {
                assert(v@[j as int] == v@[i as int]);
                return false;
            }
            j = j + 1;
        }
        i = i + 1;
    }
    true
}

/// Whether a block with the identity of block `at` comes before it.
fn seen_before(blocks: &Vec<Block>, at: usize) -> (r: bool)
    requires
        at < blocks@.len(),
    ensures
        r == repeated(blocks@, at as int),
{
    let mut k: usize = 0;
    while k < at
        invariant
            k <= at < blocks@.len(),
            forall|j: int| 0 <= j < k ==> (#[trigger] blocks@[j]).id != blocks@[at as int].id,
        decreases at - k,
    {
        if blocks[k].id == blocks[at].id {
            assert(blocks@[k as int].id == blocks@[at as int].id);
            return true;
        }
        k = k + 1;
    }
    false
}

fn all_ids(blocks: &Vec<Block>) -> (v: Vec<BlockId>)
    ensures
        v@ == ids(blocks@),
{
    let mut v: Vec<BlockId> = Vec::new();
    while v.len() < blocks.len()
        invariant
            v@.len() <= blocks@.len(),
            forall|i: int| 0 <= i < v@.len() ==> #[trigger] v@[i] == blocks@[i].id,
        decreases blocks@.len() - v@.len(),
    {
        let at: usize = v.len();
        v.push(blocks[at].id);
    }
    proof {
        assert(v@ =~= ids(blocks@));
    }
    v
}

/// The edges that lead to no block.
fn dangling(blocks: &Vec<Block>) -> (out: Vec<(BlockId, BlockId)>)
    ensures
        out@ == dangling_upto(blocks@, blocks@.len() as int),
{
    let known = all_ids(blocks);
    let mut out: Vec<(BlockId, BlockId)> = Vec::new();
    let mut k: usize = 0;
    while k < blocks.len()
        invariant
            k <= blocks@.len(),
            known@ == ids(blocks@),
            out@ == dangling_upto(blocks@, k as int),
        decreases blocks@.len() - k,
    {
        let from = blocks[k].id;
        let succ = successors_of(&blocks[k].terminator);
        let ghost base = out@;
        let mut j: usize = 0;
        proof {
            assert(out@ =~= base + dangling_of(blocks@, from, succ@, 0));
        }
        while j < succ.len()
            invariant
                j <= succ@.len(),
                known@ == ids(blocks@),
                out@ == base + dangling_of(blocks@, from, succ@, j as int),
            decreases succ@.len() - j,
        {
            if !contains_id(&known, succ[j]) {
                out.push((from, succ[j]));
            }
            j = j + 1;
            proof {
                assert(out@ =~= base + dangling_of(blocks@, from, succ@, j as int));
            }
        }
        k = k + 1;
    }
    out
}

/// The parameters a block's body reads.
fn params_read(cfg: &Cfg, at: usize) -> (out: Vec<Ref>)
    requires
        cfg.arena.wf(),
        at < cfg.blocks@.len(),
        block_held(cfg.arena.nodes@, cfg.blocks@[at as int]),
    ensures
        forall|x: Ref| #[trigger]
            out@.contains(x) <==> param_read(cfg.arena.nodes@, cfg.blocks@[at as int], x),
        forall|i: int| 0 <= i < out@.len() ==> cfg.arena.holds(#[trigger] out@[i]),
        out@ == reads_in(
            cfg.arena.nodes@,
            body_refs(cfg.blocks@[at as int]),
            body_refs(cfg.blocks@[at as int]).len() as int,
        ),
{
    let ghost ns = cfg.arena.nodes@;
    let ghost b = cfg.blocks@[at as int];
    let ghost read = |x: Ref| op_of(ns, x) is Param;
    let refs = refs_of(&cfg.blocks[at]);
    let mut out: Vec<Ref> = Vec::new();
    let mut i: usize = 0;
    while i < refs.len()
        invariant
            i <= refs@.len(),
            cfg.arena.wf(),
            ns == cfg.arena.nodes@,
            refs@ == body_refs(b),
            block_held(ns, b),
            read == (|x: Ref| op_of(ns, x) is Param),
            out@ == reads_in(ns, refs@, i as int),
            forall|x: Ref| #[trigger] out@.contains(x) <==> read_upto(ns, refs@, i as int, x),
            forall|j: int| 0 <= j < out@.len() ==> cfg.arena.holds(#[trigger] out@[j]),
        decreases refs@.len() - i,
    {
        proof {
            lemma_body_refs_held(ns, b, i as int);
        }
        let found = leaves(&cfg.arena, refs[i]);
        let ghost base = out@;
        let mut j: usize = 0;
        proof {
            reveal(Seq::filter);
            assert(out@ =~= base + found@.take(0).filter(read));
        }
        while j < found.len()
            invariant
                j <= found@.len(),
                read == (|x: Ref| op_of(ns, x) is Param),
                out@ == base + found@.take(j as int).filter(read),
                cfg.arena.wf(),
                ns == cfg.arena.nodes@,
                forall|k: int| 0 <= k < found@.len() ==> cfg.arena.holds(#[trigger] found@[k]),
                forall|k: int| 0 <= k < out@.len() ==> cfg.arena.holds(#[trigger] out@[k]),
                forall|x: Ref| #[trigger]
                    out@.contains(x) <==> base.contains(x) || (op_of(ns, x) is Param
                        && found@.take(j as int).contains(x)),
            decreases found@.len() - j,
        {
            let ghost o1 = out@;
            let is_param: bool = match *cfg.arena.op(found[j]) {
                Op::Param(_, _) => true,
                _ => false,
            };
            if is_param {
                out.push(found[j]);
                proof {
                    crate::ir::walk::lemma_push_contains(o1, found@[j as int]);
                }
            }
            proof {
                assert(found@.take(j + 1) =~= found@.take(j as int).push(found@[j as int]));
                assert(out@ =~= base + found@.take(j + 1).filter(read)) by {
                    reveal(Seq::filter);
                    assert(found@.take(j + 1).drop_last() =~= found@.take(j as int));
                }
                crate::ir::walk::lemma_push_contains(found@.take(j as int), found@[j as int]);
            }
            j = j + 1;
        }
        proof {
            assert(found@.take(found@.len() as int) =~= found@);
            assert forall|x: Ref| #[trigger] out@.contains(x) <==> read_upto(ns, refs@, i + 1, x) by {
                assert(base.contains(x) <==> read_upto(ns, refs@, i as int, x));
                assert(found@.contains(x) <==> depends(ns, refs@[i as int], x) && is_leaf(
                    op_of(ns, x),
                ));
                if read_upto(ns, refs@, i as int, x) {
                    let m = choose|m: int| 0 <= m < i && depends(ns, #[trigger] refs@[m], x);
                    assert(depends(ns, refs@[m], x));
                }
                if read_upto(ns, refs@, i + 1, x) {
                    let m = choose|m: int| 0 <= m < i + 1 && depends(ns, #[trigger] refs@[m], x);
                    if m < i {
                        assert(depends(ns, refs@[m], x));
                    }
                }
            }
        }
        i = i + 1;
    }
    out
}

/// The block that owns the parameters of `owner`.
fn find_owner(blocks: &Vec<Block>, owner: BlockRef) -> (r: Option<usize>)
    ensures
        match r {
            Some(o) => owns(blocks@, owner, o as int),
            None => forall|o: int| !#[trigger] owns(blocks@, owner, o),
        },
{
    let mut k: usize = blocks.len();
    while k > 0
        invariant
            k <= blocks@.len(),
            forall|j: int| k <= j < blocks@.len() ==> (#[trigger] blocks@[j]).block_ref != owner,
        decreases k,
    {
        if blocks[k - 1].block_ref.0 == owner.0 {
            return Some(k - 1);
        }
        k = k - 1;
    }
    None
}

/// Whether dominator sets say what dominates what.
spec fn dominators_of(cfg: Cfg, dom: Seq<Vec<bool>>) -> bool {
    &&& dom.len() == cfg.blocks@.len()
    &&& forall|i: int| 0 <= i < dom.len() ==> (#[trigger] dom[i])@.len() == cfg.blocks@.len()
    &&& forall|i: int, j: int|
        0 <= i < dom.len() && 0 <= j < dom.len() ==> #[trigger] dom[i]@[j] == dominates(
            cfg.blocks@,
            cfg.entry,
            j,
            i,
        )
}

/// Whether the block that owns the parameters of `owner` dominates a block.
fn is_owner_dominating(cfg: &Cfg, dom: &Vec<Vec<bool>>, at: usize, owner: BlockRef) -> (r: bool)
    requires
        at < cfg.blocks@.len(),
        dominators_of(*cfg, dom@),
    ensures
        r == owner_dominates(*cfg, at as int, owner),
{
    let o: usize = match find_owner(&cfg.blocks, owner) {
        Some(o) => o,
        None => {
            return false;
        },
    };
    let id = cfg.blocks[o].id;
    let mut j: usize = 0;
    while j < cfg.blocks.len()
        invariant
            j <= cfg.blocks@.len(),
            at < cfg.blocks@.len(),
            owns(cfg.blocks@, owner, o as int),
            id == cfg.blocks@[o as int].id,
            dominators_of(*cfg, dom@),
            forall|k: int| 0 <= k < j ==> !#[trigger] dominated_by(*cfg, at as int, id, k),
        decreases cfg.blocks@.len() - j,
    {
        proof {
            assert(dom@[at as int]@.len() == cfg.blocks@.len());
            assert(dom@[at as int]@[j as int] == dominates(
                cfg.blocks@,
                cfg.entry,
                j as int,
                at as int,
            ));
        }
        if cfg.blocks[j].id == id && dom[at][j] {
            assert(dominated_by(*cfg, at as int, cfg.blocks@[o as int].id, j as int));
            return true;
        }
        j = j + 1;
    }
    proof {
        assert forall|o1: int, j1: int|
            !(owns(cfg.blocks@, owner, o1) && #[trigger] dominated_by(
                *cfg,
                at as int,
                cfg.blocks@[o1].id,
                j1,
            )) by {
            if owns(cfg.blocks@, owner, o1) {
                assert(o1 == o) by {
                    if o1 < o {
                        assert(cfg.blocks@[o as int].block_ref != owner);
                    } else if o < o1 {
                        assert(cfg.blocks@[o1].block_ref != owner);
                    }
                }
            }
        }
    }
    false
}

/// How many of a block's parameters are not in a list.
fn count_dead(cfg: &Cfg, at: usize, used: &Vec<Ref>) -> (n: usize)
    requires
        at < cfg.blocks@.len(),
        forall|x: Ref| #[trigger]
            used@.contains(x) <==> param_read(cfg.arena.nodes@, cfg.blocks@[at as int], x),
    ensures
        n == dead_in(
            cfg.arena.nodes@,
            cfg.blocks@[at as int],
            cfg.blocks@[at as int].params@.len() as int,
        ),
        n <= cfg.blocks@[at as int].params@.len(),
{
    let b = &cfg.blocks[at];
    let mut n: usize = 0;
    let mut j: usize = 0;
    while j < b.params.len()
        invariant
            at < cfg.blocks@.len(),
            *b == cfg.blocks@[at as int],
            n <= j <= b.params@.len(),
            n == dead_in(cfg.arena.nodes@, *b, j as int),
            forall|x: Ref| #[trigger]
                used@.contains(x) <==> param_read(cfg.arena.nodes@, *b, x),
        decreases b.params@.len() - j,
    {
        let p = b.params[j].1;
        let mut hit: bool = false;
        let mut k: usize = 0;
        while k < used.len() && !hit
            invariant
                k <= used@.len(),
                hit ==> used@.contains(p),
                !hit ==> forall|m: int| 0 <= m < k ==> #[trigger] used@[m] != p,
            decreases used@.len() - k, !hit as int,
        {
            if used[k].idx == p.idx {
                assert(used@[k as int] == p);
                hit = true;
            } else {
                k = k + 1;
            }
        }
        proof {
            assert(hit == used@.contains(p));
            assert(param_read(cfg.arena.nodes@, *b, b.params@[j as int].1) == hit);
        }
        if !hit {
            n = n + 1;
        }
        j = j + 1;
    }
    n
}

/// Whether a list names the parameters that the first `k` blocks cannot rely on.
spec fn names_upto(cfg: Cfg, v: Seq<(BlockId, BlockRef)>, k: int) -> bool {
    forall|x: BlockId, owner: BlockRef| #[trigger]
        v.contains((x, owner)) <==> exists|i: int|
            0 <= i < k && cfg.blocks@[i].id == x && #[trigger] misreads(cfg, i, owner)
}

/// Adds the owners whose parameters a block reads without being dominated by them.
fn push_misreads(
    cfg: &Cfg,
    dom: &Vec<Vec<bool>>,
    at: usize,
    used: &Vec<Ref>,
    out: &mut Vec<(BlockId, BlockRef)>,
)
    requires
        at < cfg.blocks@.len(),
        dominators_of(*cfg, dom@),
        names_upto(*cfg, old(out)@, at as int),
        forall|x: Ref| #[trigger]
            used@.contains(x) <==> param_read(cfg.arena.nodes@, cfg.blocks@[at as int], x),
        forall|i: int| 0 <= i < used@.len() ==> cfg.arena.holds(#[trigger] used@[i]),
    ensures
        names_upto(*cfg, final(out)@, at + 1),
        final(out)@ == old(out)@ + misread_of(*cfg, at as int, used@, used@.len() as int),
{
    let ghost ns = cfg.arena.nodes@;
    let ghost base = out@;
    let id = cfg.blocks[at].id;
    let mut k: usize = 0;
    proof {
        assert(out@ =~= base + misread_of(*cfg, at as int, used@, 0));
    }
    while k < used.len()
        invariant
            k <= used@.len(),
            out@ == base + misread_of(*cfg, at as int, used@, k as int),
            at < cfg.blocks@.len(),
            id == cfg.blocks@[at as int].id,
            ns == cfg.arena.nodes@,
            dominators_of(*cfg, dom@),
            forall|x: Ref| #[trigger]
                used@.contains(x) <==> param_read(ns, cfg.blocks@[at as int], x),
            forall|i: int| 0 <= i < used@.len() ==> cfg.arena.holds(#[trigger] used@[i]),
            forall|x: BlockId, owner: BlockRef| #[trigger]
                base.contains((x, owner)) ==> out@.contains((x, owner)),
            forall|x: BlockId, owner: BlockRef| #[trigger]
                out@.contains((x, owner)) ==> base.contains((x, owner)) || (x == id && misreads(
                    *cfg,
                    at as int,
                    owner,
                )),
            forall|j: int|
                0 <= j < k ==> (owner_dominates(
                    *cfg,
                    at as int,
                    op_of(ns, #[trigger] used@[j])->Param_0,
                ) || out@.contains((id, op_of(ns, used@[j])->Param_0))),
        decreases used@.len() - k,
    {
        let ghost o1 = out@;
        proof {
            assert(used@.contains(used@[k as int]));
        }
        if let Op::Param(owner, _) = *cfg.arena.op(used[k]) {
            if !is_owner_dominating(cfg, dom, at, owner) {
                out.push((id, owner));
                proof {
                    crate::ir::walk::lemma_push_contains(o1, (id, owner));
                    assert(param_read(ns, cfg.blocks@[at as int], used@[k as int]));
                    assert(misreads(*cfg, at as int, owner));
                }
            }
        }
        proof {
            assert(out@ =~= base + misread_of(*cfg, at as int, used@, k + 1));
            assert forall|j: int| 0 <= j < k + 1 implies (owner_dominates(
                *cfg,
                at as int,
                op_of(ns, #[trigger] used@[j])->Param_0,
            ) || out@.contains((id, op_of(ns, used@[j])->Param_0))) by {
                if j < k {
                    if !owner_dominates(*cfg, at as int, op_of(ns, used@[j])->Param_0) {
                        assert(o1.contains((id, op_of(ns, used@[j])->Param_0)));
                    }
                }
            }
        }
        k = k + 1;
    }
    proof {
        assert forall|x: BlockId, owner: BlockRef| #[trigger]
            out@.contains((x, owner)) <==> exists|i: int|
                0 <= i < at + 1 && cfg.blocks@[i].id == x && #[trigger] misreads(
                    *cfg,
                    i,
                    owner,
                ) by {
            if out@.contains((x, owner)) {
                if base.contains((x, owner)) {
                    let i = choose|i: int|
                        0 <= i < at && cfg.blocks@[i].id == x && #[trigger] misreads(
                            *cfg,
                            i,
                            owner,
                        );
                    assert(misreads(*cfg, i, owner));
                } else {
                    assert(misreads(*cfg, at as int, owner));
                }
            }
            if exists|i: int|
                0 <= i < at + 1 && cfg.blocks@[i].id == x && #[trigger] misreads(
                    *cfg,
                    i,
                    owner,
                ) {
                let i = choose|i: int|
                    0 <= i < at + 1 && cfg.blocks@[i].id == x && #[trigger] misreads(
                        *cfg,
                        i,
                        owner,
                    );
                if i < at {
                    assert(base.contains((x, owner)));
                } else {
                    let r = choose|r: Ref| #[trigger]
                        param_read(ns, cfg.blocks@[at as int], r) && op_of(ns, r)->Param_0 == owner;
                    assert(used@.contains(r));
                    let j = choose|j: int| 0 <= j < used@.len() && used@[j] == r;
                    assert(used@[j] == r);
                }
            }
        }
    }
}

/// The identities of the stuck blocks, in order.
fn stuck_ids(cfg: &Cfg) -> (v: Vec<BlockId>)
    requires
        cfg.arena.wf(),
        blocks_held(cfg.arena.nodes@, cfg.blocks@),
    ensures
        names_stuck(*cfg, v@),
{
    let marks = stuck_blocks(cfg);
    let mut v: Vec<BlockId> = Vec::new();
    let mut k: usize = 0;
    while k < marks.len()
        invariant
            k <= marks@.len() == cfg.blocks@.len(),
            forall|i: int| 0 <= i < marks@.len() ==> #[trigger] marks@[i] == stuck(*cfg, i),
            ascending(v@),
            forall|x: BlockId| #[trigger]
                v@.contains(x) <==> exists|i: int|
                    0 <= i < k && #[trigger] stuck(*cfg, i) && cfg.blocks@[i].id == x,
        decreases marks@.len() - k,
    {
        let ghost v0 = v@;
        if marks[k] {
            insert_id(&mut v, cfg.blocks[k].id);
            proof {
                assert(stuck(*cfg, k as int));
            }
        } else {
            proof {
                assert(!stuck(*cfg, k as int));
            }
        }
        proof {
            assert forall|x: BlockId| #[trigger]
                v@.contains(x) <==> exists|i: int|
                    0 <= i < k + 1 && #[trigger] stuck(*cfg, i) && cfg.blocks@[i].id == x by {
                if v0.contains(x) {
                    let i = choose|i: int|
                        0 <= i < k && #[trigger] stuck(*cfg, i) && cfg.blocks@[i].id == x;
                    assert(stuck(*cfg, i));
                }
            }
        }
        k = k + 1;
    }
    v
}

/// Check a recovered CFG against its structural invariants.
pub fn validate(cfg: &Cfg) -> (issues: CfgIssues)
    requires
        cfg.arena.wf(),
        blocks_held(cfg.arena.nodes@, cfg.blocks@),
        params_total(cfg.blocks@) <= usize::MAX,
    ensures
        found_in(*cfg, issues),
{
    let n: usize = cfg.blocks.len();
    let ghost ns = cfg.arena.nodes@;
    let ghost unknown = |i: int| unidentified(*cfg, i);
    let ghost alone = |i: int| orphan(*cfg, i);
    let ghost again = |i: int| repeated(cfg.blocks@, i);
    let ghost same = |i: int| degenerate(cfg.blocks@[i].terminator);
    let dom = dominators(cfg);
    let mut unidentified_blocks: Vec<BlockId> = Vec::new();
    let mut orphans: Vec<BlockId> = Vec::new();
    let mut duplicate_ids: Vec<BlockId> = Vec::new();
    let mut degenerate_branches: Vec<BlockId> = Vec::new();
    let mut nondominating_params: Vec<(BlockId, BlockRef)> = Vec::new();
    let mut dead_params: usize = 0;
    let mut k: usize = 0;
    while k < n
        invariant
            k <= n == cfg.blocks@.len(),
            ns == cfg.arena.nodes@,
            cfg.arena.wf(),
            blocks_held(ns, cfg.blocks@),
            params_total(cfg.blocks@) <= usize::MAX,
            dominators_of(*cfg, dom@),
            unknown == (|i: int| unidentified(*cfg, i)),
            alone == (|i: int| orphan(*cfg, i)),
            again == (|i: int| repeated(cfg.blocks@, i)),
            same == (|i: int| degenerate(cfg.blocks@[i].terminator)),
            unidentified_blocks@ == ids_where(cfg.blocks@, unknown, k as int),
            orphans@ == ids_where(cfg.blocks@, alone, k as int),
            duplicate_ids@ == ids_where(cfg.blocks@, again, k as int),
            degenerate_branches@ == ids_where(cfg.blocks@, same, k as int),
            names_upto(*cfg, nondominating_params@, k as int),
            nondominating_params@ == misread_upto(*cfg, k as int),
            dead_params == dead_upto(ns, cfg.blocks@, k as int),
            dead_params <= params_upto(cfg.blocks@, k as int),
        decreases n - k,
    {
        let b = &cfg.blocks[k];
        let is_entry: bool = b.id == cfg.entry;
        if !is_entry && b.from_vm_context && b.id.vip.is_none() && cfg.vm_range.0 <= b.id.handler
            && b.id.handler < cfg.vm_range.1 {
            unidentified_blocks.push(b.id);
        }
        if seen_before(&cfg.blocks, k) {
            duplicate_ids.push(b.id);
        }
        let folded: bool = match &b.terminator {
            Terminator::Branch { taken, not_taken, .. } => *taken == *not_taken,
            Terminator::Switch { targets, .. } => !all_different(targets),
            _ => false,
        };
        if folded {
            degenerate_branches.push(b.id);
        }
        if !is_entry && b.preds.len() == 0 {
            orphans.push(b.id);
        }
        proof {
            assert(block_held(ns, cfg.blocks@[k as int]));
            lemma_params_grow(cfg.blocks@, k + 1);
        }
        let used = params_read(cfg, k);
        push_misreads(cfg, &dom, k, &used, &mut nondominating_params);
        let dead: usize = count_dead(cfg, k, &used);
        dead_params = dead_params + dead;
        k = k + 1;
    }
    CfgIssues {
        dangling_edges: dangling(&cfg.blocks),
        unidentified_blocks,
        orphans,
        duplicate_ids,
        degenerate_branches,
        nondominating_params,
        dead_params,
        cannot_reach_exit: stuck_ids(cfg),
    }
}

/// The parameters of the first blocks are among those of all.
proof fn lemma_params_grow(blocks: Seq<Block>, k: int)
    requires
        0 <= k <= blocks.len(),
    ensures
        params_upto(blocks, k) <= params_total(blocks),
    decreases blocks.len() - k,
{
    if k < blocks.len() {
        lemma_params_grow(blocks, k + 1);
    }
}

} // verus!
