//! CFG recovery by state forking at virtualized branches. Evaluation of a single path stops
//! as soon as an indirect branch depends on a guest value.

use crate::ir::expr::{Arena, BlockRef, Node};
use crate::ir::flow::{
    block_ok, blocks_ok, cfg_ok, ids, params_total, params_upto, read_params_kept,
    same_but_blocks, simplifies,
};
use crate::ir::graph::{Block, BlockId, Cfg, Terminator};
use crate::ir::guest::{fresh, section_range};
use crate::ir::lift::Emulator;
use crate::ir::run::finds_vip_slot;
use crate::vm::fork::Task;
use crate::vm::image::Image;
use crate::vm::order::{ascending, comes_before, id_before, insert_id};
use crate::vm::reach::contains_id;
use crate::vm::validate::ids_where;
use crate::vm::visit::{pass_ok, visit, visits, Pass};
use std::time::{Duration, Instant};
use vstd::prelude::*;

verus! {

/// `std::time::Instant`: a reading of the monotonic clock. Nothing is known of its value.
#[verifier::external_type_specification]
#[verifier::external_body]
pub struct ExInstant(std::time::Instant);

/// Calls `std::time::Instant::now`. Nothing is claimed of the reading.
#[verifier::external_body]
fn start_clock() -> Instant {
    Instant::now()
}

/// Calls `std::time::Instant::elapsed`. Nothing is claimed of the duration: it depends on
/// when the call is made.
#[verifier::external_body]
fn time_since(start: &Instant) -> Duration {
    start.elapsed()
}

/// Calls `std::time::Duration::as_secs`. Nothing is claimed of the number, since nothing is
/// known of what a duration holds.
#[verifier::external_body]
fn whole_seconds(d: &Duration) -> u64 {
    d.as_secs()
}

/// How many steps are spent on finding where the VM keeps its bytecode position.
pub const VIP_PROBE_STEPS: usize = 20_000;

/// What a block is marked with when the whole recovery took too long.
pub const OUT_OF_TIME: &'static str = "time budget reached";

/// What a block is marked with when there are too many.
pub const OUT_OF_BLOCKS: &'static str = "block budget reached";

/// Recovers the control-flow graph of virtualized functions.
pub struct Explorer<'a> {
    pub pe: &'a Image,
    pub stack_base: u64,
    /// Instruction budget per block.
    pub step_budget: usize,
    /// Maximum blocks to recover.
    pub block_budget: usize,
    /// Wall-clock limit for the whole recovery, in seconds. Guards against a single path
    /// that keeps making progress without ever terminating.
    pub time_budget: u64,
    /// Total interpreted instructions allowed across the whole function.
    pub work_budget: usize,
    /// Name of the section holding VM bytecode.
    pub vm_section: String,
}

/// A block of which nothing was recovered.
pub open spec fn blank(id: BlockId, at: nat, reason: Seq<char>, b: Block) -> bool {
    &&& b.id == id
    &&& b.block_ref == BlockRef(at as u32)
    &&& b.params@.len() == 0
    &&& b.events@.len() == 0
    &&& !b.from_vm_context
    &&& b.exit_regs@.len() == 0
    &&& b.terminator matches Terminator::Unresolved { reason: r } && r@ == reason
    &&& b.cost == 0
    &&& b.preds@.len() == 0
}

fn blank_block(id: BlockId, at: usize, reason: &'static str) -> (b: Block)
    ensures
        blank(id, at as nat, reason@, b),
{
    Block {
        id,
        block_ref: BlockRef(at as u32),
        params: Vec::new(),
        events: Vec::new(),
        from_vm_context: false,
        exit_regs: Vec::new(),
        terminator: Terminator::Unresolved { reason: reason.to_string() },
        cost: 0,
        preds: Vec::new(),
    }
}

/// A pass that gains a block of which nothing was recovered.
pub open spec fn gives_up_on(p0: Pass, id: BlockId, reason: Seq<char>, p1: Pass) -> bool {
    &&& p1.blocks@.len() == p0.blocks@.len() + 1
    &&& p1.blocks@.drop_last() == p0.blocks@
    &&& blank(id, p0.blocks@.len(), reason, p1.blocks@.last())
    &&& p1.unresolved == p0.unresolved + 1
}

/// What a pass keeps of another but for its queue, edges and blocks.
pub open spec fn same_progress(p0: Pass, p1: Pass) -> bool {
    &&& p1.arena == p0.arena
    &&& p1.total_steps == p0.total_steps
}

/// The edge by which a task was reached.
pub open spec fn reached_by(t: Task) -> Seq<(BlockId, BlockId)> {
    match t.from {
        Some(p) => seq![(p, t.id)],
        None => Seq::empty(),
    }
}

/// The edge by which a task was reached, where that closes a loop: its block is on the path
/// to it.
pub open spec fn looped_by(t: Task) -> Seq<(BlockId, BlockId)> {
    if t.ancestors@.contains(t.id) {
        reached_by(t)
    } else {
        Seq::empty()
    }
}

/// A pass that notes how a task was reached.
pub open spec fn enters(p0: Pass, task: Task, p1: Pass) -> bool {
    &&& p1.queue@ == p0.queue@.drop_last()
    &&& p1.edges@ == p0.edges@ + reached_by(task)
    &&& p1.arena == p0.arena
    &&& p1.blocks == p0.blocks
    &&& p1.total_steps == p0.total_steps
    &&& p1.unresolved == p0.unresolved
    &&& p1.timed_out == p0.timed_out
    &&& p1.back_edges == p0.back_edges
}

/// What the next task of a pass comes to. `late` says whether the clock ran out; `go_on` is
/// whether the pass continues.
pub open spec fn advance_steps(
    x: Explorer,
    cut: Seq<BlockId>,
    known: Option<Cfg>,
    late: bool,
    p0: Pass,
    pa: Pass,
    p1: Pass,
    go_on: bool,
) -> bool {
    let task = p0.queue@.last();
    let spent = p0.total_steps >= x.work_budget;
    if late || spent {
        &&& !go_on
        &&& same_progress(p0, p1)
        &&& gives_up_on(p0, task.id, OUT_OF_TIME@, p1)
        &&& p1.queue@ == p0.queue@.drop_last()
        &&& p1.visited == p0.visited
        &&& p1.edges == p0.edges
        &&& p1.back_edges == p0.back_edges
        &&& p1.timed_out == (p0.timed_out || !spent)
    } else {
        &&& go_on
        &&& enters(p0, task, pa)
        &&& if p0.visited@.contains(task.id) {
            &&& pa.visited == p0.visited
            &&& p1 == (Pass { back_edges: p1.back_edges, ..pa })
            &&& p1.back_edges@ == pa.back_edges@ + looped_by(task)
        } else {
            &&& pa.visited@ == p0.visited@.push(task.id)
            &&& if p0.blocks@.len() >= x.block_budget {
                &&& p1 == (Pass { blocks: p1.blocks, unresolved: p1.unresolved, ..pa })
                &&& gives_up_on(pa, task.id, OUT_OF_BLOCKS@, p1)
            } else {
                visits(*x.pe, x.step_budget, cut, known, task, pa, p1)
            }
        }
    }
}

/// What the next task of a pass comes to.
pub open spec fn advances(
    x: Explorer,
    cut: Seq<BlockId>,
    known: Option<Cfg>,
    late: bool,
    p0: Pass,
    p1: Pass,
    go_on: bool,
) -> bool {
    p0.queue@.len() > 0 && exists|pa: Pass| #[trigger]
        advance_steps(x, cut, known, late, p0, pa, p1, go_on)
}

/// Whether a pass with so many blocks and tasks has less to do than one before it: it has
/// more blocks, while there may be more, or else fewer tasks.
pub open spec fn shrinks(b0: nat, q0: nat, b1: nat, q1: nat, budget: nat) -> bool {
    (b0 < budget && b1 > b0) || (q1 < q0 && b1 >= b0)
}

/// Whether parameters are few enough to be counted.
pub open spec fn few_params(blocks: Seq<Block>, budget: usize) -> bool {
    params_total(blocks) <= 16 * (if blocks.len() < budget {
        blocks.len() as int
    } else {
        budget as int
    })
}

proof fn lemma_params_prefix(a: Seq<Block>, b: Seq<Block>, k: int)
    requires
        0 <= k <= a.len(),
        k <= b.len(),
        forall|i: int| 0 <= i < k ==> a[i].params@.len() == b[i].params@.len(),
    ensures
        params_upto(a, k) == params_upto(b, k),
    decreases k,
{
    if k > 0 {
        lemma_params_prefix(a, b, k - 1);
    }
}

proof fn lemma_params_push(a: Seq<Block>, b: Seq<Block>)
    requires
        b.len() == a.len() + 1,
        b.drop_last() == a,
    ensures
        params_total(b) == params_total(a) + b.last().params@.len(),
{
    assert forall|i: int| 0 <= i < a.len() implies a[i].params@.len() == b[i].params@.len() by {
        assert(b.drop_last()[i] == b[i]);
    }
    lemma_params_prefix(a, b, a.len() as int);
}

proof fn lemma_blank_ok(ns: Seq<Node>, a: Seq<Block>, b: Seq<Block>, id: BlockId, reason: Seq<char>)
    requires
        blocks_ok(ns, a),
        b.len() == a.len() + 1,
        b.drop_last() == a,
        blank(id, a.len(), reason, b.last()),
    ensures
        blocks_ok(ns, b),
{
    assert forall|i: int| 0 <= i < b.len() implies block_ok(ns, #[trigger] b[i]) by {
        if i < a.len() {
            assert(b.drop_last()[i] == b[i]);
            assert(block_ok(ns, a[i]));
        }
    }
}

impl<'a> Explorer<'a> {
    /// Whether the budgets can be counted with.
    pub open spec fn countable(self) -> bool {
        &&& self.work_budget + self.step_budget <= usize::MAX
        &&& 16 * self.block_budget <= usize::MAX
    }

    /// An explorer with the default budgets, for the default VM section.
    pub fn new(pe: &'a Image, stack_base: u64) -> (x: Self)
        ensures
            x.pe == pe,
            x.stack_base == stack_base,
            x.step_budget == 500_000,
            x.block_budget == 512,
            x.time_budget == 120,
            x.work_budget == 24_000_000,
            x.vm_section@ == crate::vm::DEFAULT_VM_SECTION@,
            x.countable(),
    {
        Explorer {
            pe,
            stack_base,
            step_budget: 500_000,
            block_budget: 512,
            time_budget: 120,
            work_budget: 24_000_000,
            vm_section: crate::vm::DEFAULT_VM_SECTION.to_string(),
        }
    }

    /// Recover from a VM section other than the default.
    pub fn with_vm_section(pe: &'a Image, stack_base: u64, vm_section: &str) -> (x: Self)
        ensures
            x.pe == pe,
            x.stack_base == stack_base,
            x.step_budget == 500_000,
            x.block_budget == 512,
            x.time_budget == 120,
            x.work_budget == 24_000_000,
            x.vm_section@ == vm_section@,
            x.countable(),
    {
        Explorer { vm_section: vm_section.to_string(), ..Self::new(pe, stack_base) }
    }

    /// What holds of a pass between tasks.
    pub open spec fn keeps(self, p: Pass) -> bool {
        &&& pass_ok(p)
        &&& p.total_steps <= self.work_budget + self.step_budget
        &&& few_params(p.blocks@, self.block_budget)
    }

    /// Take the next task of a pass. `late` says whether the clock ran out.
    ///
    /// The work budget is the deterministic limit and should be the one that fires. If the
    /// clock wins the race the result depends on machine load, so that is noted rather than
    /// silently recovering a different graph than last time.
    pub fn advance(
        &self,
        cut: &Vec<BlockId>,
        known: Option<&Cfg>,
        late: bool,
        pass: &mut Pass<'a>,
    ) -> (go_on: bool)
        requires
            self.countable(),
            self.keeps(*old(pass)),
            old(pass).queue@.len() > 0,
        ensures
            self.keeps(*final(pass)),
            advances(
                *self,
                cut@,
                match known {
                    Some(c) => Some(*c),
                    None => None,
                },
                late,
                *old(pass),
                *final(pass),
                go_on,
            ),
            final(pass).blocks@.len() >= old(pass).blocks@.len(),
            go_on ==> shrinks(
                old(pass).blocks@.len(),
                old(pass).queue@.len(),
                final(pass).blocks@.len(),
                final(pass).queue@.len(),
                self.block_budget as nat,
            ),
    {
        let ghost p0 = *pass;
        let ghost k = match known {
            Some(c) => Some(*c),
            None => None,
        };
        let task = pass.queue.pop().unwrap();
        let ghost was = task;
        let at: usize = pass.blocks.len();
        proof {
            assert(pass.queue@ =~= p0.queue@.drop_last());
            assert(was == p0.queue@.last());
            assert(p0.queue@[p0.queue@.len() - 1].emu.wf());
            assert forall|i: int| 0 <= i < pass.queue@.len() implies (#[trigger] pass.queue@[i]).emu.wf()
                && pass.queue@[i].emu.steps <= pass.total_steps by {
                assert(pass.queue@[i] == p0.queue@[i]);
            }
        }
        let spent: bool = pass.total_steps >= self.work_budget;
        if late || spent {
            if !spent {
                pass.timed_out = true;
            }
            pass.blocks.push(blank_block(task.id, at, OUT_OF_TIME));
            let n: usize = pass.blocks.len();
            pass.unresolved = pass.unresolved + 1;
            proof {
                assert(n == pass.blocks@.len());
                assert(pass.blocks@.drop_last() =~= p0.blocks@);
                lemma_params_push(p0.blocks@, pass.blocks@);
                lemma_blank_ok(pass.arena.nodes@, p0.blocks@, pass.blocks@, was.id, OUT_OF_TIME@);
                assert(advance_steps(*self, cut@, k, late, p0, p0, *pass, false));
            }
            return false;
        }
        if let Some(p) = task.from {
            pass.edges.push((p, task.id));
        }
        proof {
            assert(pass.edges@ =~= p0.edges@ + reached_by(was));
        }
        if contains_id(&pass.visited, task.id) {
            let ghost pa = *pass;
            if let Some(p) = task.from {
                if contains_id(&task.ancestors, task.id) {
                    pass.back_edges.push((p, task.id));
                }
            }
            proof {
                assert(pass.back_edges@ =~= pa.back_edges@ + looped_by(was));
                assert(advance_steps(*self, cut@, k, late, p0, pa, *pass, true));
            }
            return true;
        }
        pass.visited.push(task.id);
        let ghost pa = *pass;
        if at >= self.block_budget {
            pass.blocks.push(blank_block(task.id, at, OUT_OF_BLOCKS));
            let n: usize = pass.blocks.len();
            pass.unresolved = pass.unresolved + 1;
            proof {
                assert(n == pass.blocks@.len());
                assert(pass.blocks@.drop_last() =~= p0.blocks@);
                lemma_params_push(p0.blocks@, pass.blocks@);
                lemma_blank_ok(pass.arena.nodes@, p0.blocks@, pass.blocks@, was.id, OUT_OF_BLOCKS@);
                assert(advance_steps(*self, cut@, k, late, p0, pa, *pass, true));
            }
            return true;
        }
        visit(self.pe, self.step_budget, cut, known, task, pass);
        proof {
            lemma_params_push(pa.blocks@, pass.blocks@);
            assert(advance_steps(*self, cut@, k, late, p0, pa, *pass, true));
        }
        true
    }
}

/// Whether one edge comes before another: by source, then by target.
pub open spec fn edge_before(a: (BlockId, BlockId), b: (BlockId, BlockId)) -> bool {
    id_before(a.0, b.0) || (a.0 == b.0 && id_before(a.1, b.1))
}

/// Edges in ascending order, each once.
pub open spec fn edges_ascending(s: Seq<(BlockId, BlockId)>) -> bool {
    forall|i: int, j: int| 0 <= i < j < s.len() ==> edge_before(#[trigger] s[i], #[trigger] s[j])
}

fn edge_comes_before(a: (BlockId, BlockId), b: (BlockId, BlockId)) -> (r: bool)
    ensures
        r == edge_before(a, b),
{
    comes_before(a.0, b.0) || (a.0 == b.0 && comes_before(a.1, b.1))
}

/// Adds an edge to an ascending list, unless it is there.
fn insert_edge(v: &mut Vec<(BlockId, BlockId)>, e: (BlockId, BlockId))
    requires
        edges_ascending(old(v)@),
    ensures
        edges_ascending(final(v)@),
        forall|x: (BlockId, BlockId)| #[trigger]
            final(v)@.contains(x) <==> old(v)@.contains(x) || x == e,
{
    let ghost v0 = v@;
    let mut k: usize = 0;
    while k < v.len() && edge_comes_before(v[k], e)
        invariant
            k <= v@.len(),
            v@ == v0,
            forall|i: int| 0 <= i < k ==> edge_before(#[trigger] v@[i], e),
        decreases v@.len() - k,
    {
        k = k + 1;
    }
    if k < v.len() && v[k].0 == e.0 && v[k].1 == e.1 {
        assert(v0[k as int] == e);
        return;
    }
    v.insert(k, e);
    proof {
        assert(v@ =~= v0.insert(k as int, e));
        assert forall|i: int, j: int| 0 <= i < j < v@.len() implies edge_before(
            #[trigger] v@[i],
            #[trigger] v@[j],
        ) by {
            let oi = if i < k {
                i
            } else {
                i - 1
            };
            let oj = if j < k {
                j
            } else {
                j - 1
            };
            if i == k {
                assert(v@[j] == v0[j - 1]);
                assert(!edge_before(v0[k as int], e));
                if j - 1 > k {
                    assert(edge_before(v0[k as int], v0[j - 1]));
                }
            } else if j == k {
                assert(v@[i] == v0[i]);
            } else {
                assert(v@[i] == v0[oi] && v@[j] == v0[oj]);
                assert(edge_before(v0[oi], v0[oj]));
            }
        }
        assert forall|x: (BlockId, BlockId)| #[trigger] v@.contains(x) <==> v0.contains(x) || x == e by {
            if v0.contains(x) {
                let i = choose|i: int| 0 <= i < v0.len() && v0[i] == x;
                if i < k {
                    assert(v@[i] == x);
                } else {
                    assert(v@[i + 1] == x);
                }
            }
            if x == e {
                assert(v@[k as int] == x);
            }
            if v@.contains(x) && x != e {
                let i = choose|i: int| 0 <= i < v@.len() && v@[i] == x;
                if i < k {
                    assert(v0[i] == x);
                } else {
                    assert(v0[i - 1] == x);
                }
            }
        }
    }
}

/// The edges of a list in ascending order, each once.
fn sorted_edges(edges: &Vec<(BlockId, BlockId)>) -> (v: Vec<(BlockId, BlockId)>)
    ensures
        edges_ascending(v@),
        forall|x: (BlockId, BlockId)| #[trigger] v@.contains(x) <==> edges@.contains(x),
{
    let mut v: Vec<(BlockId, BlockId)> = Vec::new();
    let mut k: usize = 0;
    while k < edges.len()
        invariant
            k <= edges@.len(),
            edges_ascending(v@),
            forall|x: (BlockId, BlockId)| #[trigger]
                v@.contains(x) <==> edges@.take(k as int).contains(x),
        decreases edges@.len() - k,
    {
        insert_edge(&mut v, edges[k]);
        proof {
            assert(edges@.take(k + 1) =~= edges@.take(k as int).push(edges@[k as int]));
            crate::ir::walk::lemma_push_contains(edges@.take(k as int), edges@[k as int]);
        }
        k = k + 1;
    }
    proof {
        assert(edges@.take(edges@.len() as int) =~= edges@);
    }
    v
}

/// Whether a list names the sources of the edges to a block, in order.
pub open spec fn names_preds(edges: Seq<(BlockId, BlockId)>, id: BlockId, v: Seq<BlockId>) -> bool {
    &&& ascending(v)
    &&& forall|x: BlockId| #[trigger] v.contains(x) <==> edges.contains((x, id))
}

fn preds_of(edges: &Vec<(BlockId, BlockId)>, id: BlockId) -> (v: Vec<BlockId>)
    ensures
        names_preds(edges@, id, v@),
{
    let mut v: Vec<BlockId> = Vec::new();
    let mut k: usize = 0;
    while k < edges.len()
        invariant
            k <= edges@.len(),
            ascending(v@),
            forall|x: BlockId| #[trigger]
                v@.contains(x) <==> edges@.take(k as int).contains((x, id)),
        decreases edges@.len() - k,
    {
        let (from, to) = edges[k];
        let ghost v0 = v@;
        if to == id {
            insert_id(&mut v, from);
        }
        proof {
            let before = edges@.take(k as int);
            assert(edges@.take(k + 1) =~= before.push(edges@[k as int]));
            crate::ir::walk::lemma_push_contains(before, edges@[k as int]);
            assert forall|x: BlockId| #[trigger] v@.contains(x) <==> edges@.take(k + 1).contains(
                (x, id),
            ) by {
                assert(v0.contains(x) <==> before.contains((x, id)));
            }
        }
        k = k + 1;
    }
    proof {
        assert(edges@.take(edges@.len() as int) =~= edges@);
    }
    v
}

/// A list of blocks with one more, behind those that do not come after it.
pub open spec fn with_block(s: Seq<Block>, b: Block) -> Seq<Block>
    decreases s.len(),
{
    if s.len() == 0 || !id_before(b.id, s.last().id) {
        s.push(b)
    } else {
        with_block(s.drop_last(), b).push(s.last())
    }
}

/// The first `k` blocks in the order of their identities.
pub open spec fn by_id(blocks: Seq<Block>, k: int) -> Seq<Block>
    decreases k,
{
    if k <= 0 {
        Seq::empty()
    } else {
        with_block(by_id(blocks, k - 1), blocks[k - 1])
    }
}

/// Putting a block in its place adds that block and nothing else.
proof fn lemma_with_block(ns: Seq<Node>, s: Seq<Block>, b: Block)
    requires
        blocks_ok(ns, s),
        block_ok(ns, b),
    ensures
        blocks_ok(ns, with_block(s, b)),
        with_block(s, b).len() == s.len() + 1,
        params_total(with_block(s, b)) == params_total(s) + b.params@.len(),
    decreases s.len(),
{
    if s.len() == 0 || !id_before(b.id, s.last().id) {
        assert(s.push(b).drop_last() =~= s);
        lemma_params_push(s, s.push(b));
    } else {
        let rest = s.drop_last();
        assert(blocks_ok(ns, rest)) by {
            assert forall|i: int| 0 <= i < rest.len() implies block_ok(ns, #[trigger] rest[i]) by {
                assert(rest[i] == s[i]);
            }
        }
        lemma_with_block(ns, rest, b);
        let w = with_block(rest, b);
        assert(w.push(s.last()).drop_last() =~= w);
        lemma_params_push(w, w.push(s.last()));
        lemma_params_push(rest, s);
        assert forall|i: int| 0 <= i < with_block(s, b).len() implies block_ok(
            ns,
            #[trigger] with_block(s, b)[i],
        ) by {
            if i < w.len() {
                assert(with_block(s, b)[i] == w[i]);
            } else {
                assert(block_ok(ns, s[s.len() - 1]));
            }
        }
    }
}

fn insert_block(v: &mut Vec<Block>, b: Block)
    ensures
        final(v)@ == with_block(old(v)@, b),
{
    let ghost v0 = v@;
    let mut k: usize = v.len();
    proof {
        assert(v0.take(v0.len() as int) =~= v0);
        assert(v0.skip(v0.len() as int) =~= Seq::empty());
        assert(with_block(v0, b) =~= with_block(v0.take(k as int), b) + v0.skip(k as int));
    }
    while k > 0 && comes_before(b.id, v[k - 1].id)
        invariant
            k <= v@.len(),
            v@ == v0,
            with_block(v0, b) == with_block(v0.take(k as int), b) + v0.skip(k as int),
        decreases k,
    {
        proof {
            let t = v0.take(k as int);
            assert(t.drop_last() =~= v0.take(k - 1));
            assert(t.last() == v0[k - 1]);
            assert(with_block(v0, b) =~= with_block(v0.take(k - 1), b) + v0.skip(k - 1));
        }
        k = k - 1;
    }
    let ghost x = b;
    v.insert(k, b);
    proof {
        let t = v0.take(k as int);
        assert(with_block(t, x) =~= t.push(x)) by {
            if t.len() > 0 {
                assert(t.last() == v0[k - 1]);
            }
        }
        assert(v@ =~= with_block(v0, x));
    }
}

/// Whether a block is another with its predecessors filled in.
pub open spec fn filled(edges: Seq<(BlockId, BlockId)>, a: Block, b: Block) -> bool {
    &&& b == (Block { preds: b.preds, ..a })
    &&& names_preds(edges, a.id, b.preds@)
}

/// The blocks of a pass with their predecessors filled in.
pub open spec fn all_filled(edges: Seq<(BlockId, BlockId)>, a: Seq<Block>, b: Seq<Block>) -> bool {
    &&& b.len() == a.len()
    &&& forall|i: int| 0 <= i < a.len() ==> filled(edges, a[i], #[trigger] b[i])
}

/// The graph a pass comes to: its blocks in the order of their identities, each with its
/// predecessors.
pub open spec fn finish_steps(x: Explorer, start: u64, p: Pass, full: Seq<Block>, cfg: Cfg) -> bool {
    &&& cfg.entry == (BlockId { handler: start, vip: None })
    &&& cfg.arena == p.arena
    &&& all_filled(p.edges@, p.blocks@, full)
    &&& cfg.blocks@ == by_id(full, full.len() as int)
    &&& cfg.total_steps == p.total_steps
    &&& cfg.unresolved == p.unresolved
    &&& cfg.timed_out == p.timed_out
    &&& cfg.trivial_phis_removed == 0
    &&& cfg.stack_base == x.stack_base
    &&& cfg.vm_range == section_range(*x.pe, x.vm_section@)
    &&& edges_ascending(cfg.back_edges@)
    &&& forall|e: (BlockId, BlockId)| #[trigger]
        cfg.back_edges@.contains(e) <==> p.back_edges@.contains(e)
}

/// The graph a pass comes to.
pub open spec fn finishes(x: Explorer, start: u64, p: Pass, cfg: Cfg) -> bool {
    exists|full: Seq<Block>| #[trigger] finish_steps(x, start, p, full, cfg)
}

/// The machine a pass starts with.
pub open spec fn starts_with(x: Explorer, slot: Option<u64>, m0: Emulator, m: Emulator) -> bool {
    &&& fresh(m0, *x.pe, x.stack_base, x.vm_section@)
    &&& m == (Emulator { vip_slot: slot, ..m0 })
}

/// A pass before its first task: the function's entry.
pub open spec fn initial(x: Explorer, start: u64, slot: Option<u64>, p: Pass) -> bool {
    &&& p.arena.nodes@.len() == 0
    &&& p.blocks@.len() == 0
    &&& p.visited@.len() == 0
    &&& p.edges@.len() == 0
    &&& p.back_edges@.len() == 0
    &&& p.total_steps == 0
    &&& p.unresolved == 0
    &&& !p.timed_out
    &&& p.queue@.len() == 1
    &&& exists|m0: Emulator| #[trigger] starts_with(x, slot, m0, p.queue@[0].emu)
    &&& p.queue@[0].resume == start
    &&& p.queue@[0].id == (BlockId { handler: start, vip: None })
    &&& p.queue@[0].from is None
    &&& p.queue@[0].ancestors@.len() == 0
}

/// Passes, each after one more task than the one before, with whether the clock had run out.
pub open spec fn pass_chain(
    x: Explorer,
    cut: Seq<BlockId>,
    known: Option<Cfg>,
    ps: Seq<Pass>,
    late: Seq<bool>,
    go_on: Seq<bool>,
) -> bool {
    &&& ps.len() == late.len() + 1
    &&& go_on.len() == late.len()
    &&& forall|i: int|
        0 <= i < late.len() ==> advances(
            x,
            cut,
            known,
            #[trigger] late[i],
            ps[i],
            ps[i + 1],
            go_on[i],
        ) && (i < late.len() - 1 ==> go_on[i])
}

/// Whether a pass is over: no task is left, or a budget ran out.
pub open spec fn is_over(p: Pass, go_on: Seq<bool>) -> bool {
    p.queue@.len() == 0 || (go_on.len() > 0 && !go_on.last())
}

/// What one pass over the graph recovers.
pub open spec fn passes(
    x: Explorer,
    start: u64,
    cut: Seq<BlockId>,
    known: Option<Cfg>,
    slot: Option<u64>,
    cfg: Cfg,
) -> bool {
    exists|ps: Seq<Pass>, late: Seq<bool>, go_on: Seq<bool>| #[trigger]
        pass_chain(x, cut, known, ps, late, go_on) && initial(x, start, slot, ps.first()) && is_over(
            ps.last(),
            go_on,
        ) && finishes(x, start, ps.last(), cfg)
}

impl<'a> Explorer<'a> {
    fn first_pass(&self, start: u64, slot: Option<u64>) -> (p: Pass<'a>)
        requires
            self.countable(),
        ensures
            initial(*self, start, slot, p),
            self.keeps(p),
    {
        let mut emu = Emulator::with_vm_section(self.pe, self.stack_base, self.vm_section.as_str());
        let ghost m0 = emu;
        emu.vip_slot = slot;
        proof {
            crate::ir::lift::lemma_wf_grows(m0, emu);
            assert(starts_with(*self, slot, m0, emu));
        }
        let mut queue: Vec<Task<'a>> = Vec::new();
        queue.push(
            Task {
                emu,
                resume: start,
                id: BlockId { handler: start, vip: None },
                from: None,
                ancestors: Vec::new(),
            },
        );
        Pass {
            arena: Arena::new(),
            blocks: Vec::new(),
            visited: Vec::new(),
            edges: Vec::new(),
            back_edges: Vec::new(),
            total_steps: 0,
            unresolved: 0,
            timed_out: false,
            queue,
        }
    }

    /// The graph a pass comes to.
    pub fn finish(&self, start: u64, pass: Pass<'a>) -> (cfg: Cfg)
        requires
            self.keeps(pass),
        ensures
            finishes(*self, start, pass, cfg),
            cfg_ok(cfg),
            params_total(cfg.blocks@) == params_total(pass.blocks@),
    {
        let ghost p0 = pass;
        let Pass {
            arena,
            mut blocks,
            visited: _,
            edges,
            back_edges,
            total_steps,
            unresolved,
            timed_out,
            queue: _,
        } = pass;
        let ghost ns = arena.nodes@;
        let ghost mut full: Seq<Block> = Seq::empty();
        let ghost all = blocks@;
        let mut sorted: Vec<Block> = Vec::new();
        proof {
            assert(all.skip(0) =~= all);
        }
        while blocks.len() > 0
            invariant
                full.len() <= all.len(),
                blocks@ == all.skip(full.len() as int),
                blocks_ok(ns, all),
                blocks_ok(ns, sorted@),
                sorted@ == by_id(full, full.len() as int),
                sorted@.len() == full.len(),
                params_total(sorted@) == params_upto(all, full.len() as int),
                forall|i: int| 0 <= i < full.len() ==> filled(edges@, all[i], #[trigger] full[i]),
            decreases blocks@.len(),
        {
            let ghost was = full;
            proof {
                assert(blocks@[0] == all[full.len() as int]);
            }
            let mut b = blocks.remove(0);
            let ghost b0 = b;
            b.preds = preds_of(&edges, b.id);
            let ghost made = b;
            proof {
                assert(blocks@ =~= all.skip(full.len() as int + 1));
                full = full.push(b);
                lemma_by_id_same(was, full, was.len() as int);
                assert(block_ok(ns, all[was.len() as int]));
                assert(block_ok(ns, made));
                lemma_with_block(ns, sorted@, made);
                assert forall|i: int| 0 <= i < full.len() implies filled(
                    edges@,
                    all[i],
                    #[trigger] full[i],
                ) by {
                    if i < was.len() {
                        assert(full[i] == was[i]);
                    }
                }
            }
            insert_block(&mut sorted, b);
        }
        let cfg = Cfg {
            entry: BlockId { handler: start, vip: None },
            arena,
            blocks: sorted,
            total_steps,
            unresolved,
            back_edges: sorted_edges(&back_edges),
            trivial_phis_removed: 0,
            timed_out,
            stack_base: self.stack_base,
            vm_range: crate::ir::guest::range_of(self.pe, self.vm_section.as_str()),
        };
        proof {
            assert(full.len() == all.len());
            assert(finish_steps(*self, start, p0, full, cfg));
        }
        cfg
    }

    /// One recovery pass, optionally guided by the structure an earlier pass found, which
    /// decouples control-flow recovery from data-flow recovery. Registers become parameters
    /// of the blocks in `cut_at`.
    pub fn recover_pass_with(
        &self,
        start: u64,
        cut_at: &Vec<BlockId>,
        known: Option<&Cfg>,
        vip_slot: Option<u64>,
    ) -> (cfg: Cfg)
        requires
            self.countable(),
        ensures
            cfg_ok(cfg),
            params_total(cfg.blocks@) <= usize::MAX,
            passes(
                *self,
                start,
                cut_at@,
                match known {
                    Some(c) => Some(*c),
                    None => None,
                },
                vip_slot,
                cfg,
            ),
    {
        let ghost k = match known {
            Some(c) => Some(*c),
            None => None,
        };
        let clock = start_clock();
        let mut pass = self.first_pass(start, vip_slot);
        let ghost mut ps: Seq<Pass<'a>> = seq![pass];
        let ghost mut lates: Seq<bool> = Seq::empty();
        let ghost mut goes: Seq<bool> = Seq::empty();
        let mut go_on: bool = true;
        while go_on && pass.queue.len() > 0
            invariant
                self.countable(),
                self.keeps(pass),
                k == (match known {
                    Some(c) => Some(*c),
                    None => None,
                }),
                pass_chain(*self, cut_at@, k, ps, lates, goes),
                initial(*self, start, vip_slot, ps.first()),
                ps.last() == pass,
                go_on ==> forall|i: int| 0 <= i < goes.len() ==> #[trigger] goes[i],
                !go_on ==> goes.len() > 0 && !goes.last(),
            decreases
                    go_on as int,
                    (if pass.blocks@.len() < self.block_budget {
                        self.block_budget - pass.blocks@.len()
                    } else {
                        0
                    }),
                    pass.queue@.len(),
        {
            let late: bool = whole_seconds(&time_since(&clock)) >= self.time_budget;
            let ghost p0 = pass;
            let ghost ps0 = ps;
            let ghost lates0 = lates;
            let ghost goes0 = goes;
            go_on = self.advance(cut_at, known, late, &mut pass);
            proof {
                ps = ps.push(pass);
                lates = lates.push(late);
                goes = goes.push(go_on);
                assert forall|i: int| 0 <= i < lates.len() implies advances(
                    *self,
                    cut_at@,
                    k,
                    #[trigger] lates[i],
                    ps[i],
                    ps[i + 1],
                    goes[i],
                ) && (i < lates.len() - 1 ==> goes[i]) by {
                    assert(ps[i] == ps0[i]);
                    if i < lates0.len() {
                        assert(lates[i] == lates0[i]);
                        assert(goes[i] == goes0[i]);
                        assert(ps[i + 1] == ps0[i + 1]);
                    }
                }
                assert(ps.first() == ps0.first());
            }
        }
        let ghost end = pass;
        let cfg = self.finish(start, pass);
        proof {
            assert(is_over(end, goes));
            assert(finishes(*self, start, ps.last(), cfg));
        }
        cfg
    }

    /// One recovery pass without guidance.
    pub fn recover_pass(&self, start: u64, cut_at: &Vec<BlockId>, vip_slot: Option<u64>) -> (cfg:
        Cfg)
        requires
            self.countable(),
        ensures
            cfg_ok(cfg),
            params_total(cfg.blocks@) <= usize::MAX,
            passes(*self, start, cut_at@, None, vip_slot, cfg),
    {
        self.recover_pass_with(start, cut_at, None, vip_slot)
    }
}

proof fn lemma_by_id_same(a: Seq<Block>, b: Seq<Block>, k: int)
    requires
        0 <= k <= a.len(),
        k <= b.len(),
        forall|i: int| 0 <= i < k ==> a[i] == b[i],
    ensures
        by_id(a, k) == by_id(b, k),
    decreases k,
{
    if k > 0 {
        lemma_by_id_same(a, b, k - 1);
    }
}

/// Blocks reached along more than one edge.
pub open spec fn join_blocks(blocks: Seq<Block>) -> spec_fn(int) -> bool {
    |i: int| blocks[i].preds@.len() > 1
}

/// The identities of the blocks reached along more than one edge.
pub open spec fn joins(blocks: Seq<Block>) -> Seq<BlockId> {
    ids_where(blocks, join_blocks(blocks), blocks.len() as int)
}

/// A graph with the parameters no body reads removed.
pub open spec fn without_dead_params(a: Cfg, b: Cfg) -> bool {
    &&& b.arena == a.arena
    &&& same_but_blocks(a, b)
    &&& b.blocks@.len() == a.blocks@.len()
    &&& forall|k: int|
        0 <= k < a.blocks@.len() ==> read_params_kept(
            a.arena.nodes@,
            a.blocks@[k],
            #[trigger] b.blocks@[k],
        )
}

/// Recovery in two passes: the first discovers the graph's shape; the second runs again
/// knowing which blocks are joins, and makes registers parameters only there.
pub open spec fn recover_steps(
    x: Explorer,
    start: u64,
    m0: Emulator,
    m1: Emulator,
    slot: Option<u64>,
    first: Cfg,
    second: Cfg,
    mid: Cfg,
    cfg: Cfg,
) -> bool {
    &&& fresh(m0, *x.pe, x.stack_base, x.vm_section@)
    &&& finds_vip_slot(m0, start, VIP_PROBE_STEPS as int, m1, slot)
    &&& passes(x, start, Seq::empty(), None, slot, first)
    &&& if joins(first.blocks@).len() == 0 {
        cfg == first
    } else {
        &&& passes(x, start, joins(first.blocks@), Some(first), slot, second)
        &&& simplifies(second, mid, cfg.trivial_phis_removed as nat)
        &&& without_dead_params(
            Cfg { trivial_phis_removed: cfg.trivial_phis_removed, ..mid },
            cfg,
        )
    }
}

/// What recovery comes to.
pub open spec fn recovers(x: Explorer, start: u64, cfg: Cfg) -> bool {
    exists|
        m0: Emulator,
        m1: Emulator,
        slot: Option<u64>,
        first: Cfg,
        second: Cfg,
        mid: Cfg,
    | #[trigger] recover_steps(x, start, m0, m1, slot, first, second, mid, cfg)
}

fn join_ids(blocks: &Vec<Block>) -> (v: Vec<BlockId>)
    ensures
        v@ == joins(blocks@),
{
    let ghost f = join_blocks(blocks@);
    let mut v: Vec<BlockId> = Vec::new();
    let mut k: usize = 0;
    while k < blocks.len()
        invariant
            k <= blocks@.len(),
            f == join_blocks(blocks@),
            v@ == ids_where(blocks@, f, k as int),
        decreases blocks@.len() - k,
    {
        if blocks[k].preds.len() > 1 {
            v.push(blocks[k].id);
        }
        k = k + 1;
    }
    v
}

impl<'a> Explorer<'a> {
    /// Recover the graph of the virtualized function entered at `start`.
    ///
    /// Where the VM keeps its bytecode position is found once, and the same answer is used
    /// for both passes: identities that differed between passes would leave the second
    /// unable to find the joins the first reported.
    pub fn recover(&self, start: u64) -> (cfg: Cfg)
        requires
            self.countable(),
        ensures
            cfg_ok(cfg),
            recovers(*self, start, cfg),
    {
        let mut probe = Emulator::with_vm_section(self.pe, self.stack_base, self.vm_section.as_str());
        let ghost m0 = probe;
        let slot = probe.discover_vip_slot(start, VIP_PROBE_STEPS);
        let none: Vec<BlockId> = Vec::new();
        proof {
            assert(none@ =~= Seq::<BlockId>::empty());
        }
        let first = self.recover_pass(start, &none, slot);
        let cut = join_ids(&first.blocks);
        if cut.len() == 0 {
            proof {
                assert(recover_steps(*self, start, m0, probe, slot, first, first, first, first));
            }
            return first;
        }
        let mut cfg = self.recover_pass_with(start, &cut, Some(&first), slot);
        let ghost second = cfg;
        let n: usize = cfg.simplify_phis();
        let ghost mid = cfg;
        cfg.trivial_phis_removed = n;
        cfg.remove_dead_params();
        proof {
            assert(recover_steps(*self, start, m0, probe, slot, first, second, mid, cfg));
        }
        cfg
    }
}

/// What holds of a pass as long as it goes on: each block has an identity of its own, which
/// was noted when it was visited.
spec fn distinct_so_far(p: Pass) -> bool {
    &&& ids(p.blocks@).no_duplicates()
    &&& forall|i: int| 0 <= i < p.blocks@.len() ==> p.visited@.contains((#[trigger] p.blocks@[i]).id)
}

proof fn lemma_distinct_push(a: Seq<Block>, b: Seq<Block>, va: Seq<BlockId>, vb: Seq<BlockId>)
    requires
        ids(a).no_duplicates(),
        forall|i: int| 0 <= i < a.len() ==> va.contains((#[trigger] a[i]).id),
        b.len() == a.len() + 1,
        b.drop_last() == a,
        !va.contains(b.last().id),
        vb == va.push(b.last().id),
    ensures
        ids(b).no_duplicates(),
        forall|i: int| 0 <= i < b.len() ==> vb.contains((#[trigger] b[i]).id),
{
    crate::ir::walk::lemma_push_contains(va, b.last().id);
    assert forall|i: int| 0 <= i < b.len() implies vb.contains((#[trigger] b[i]).id) by {
        if i < a.len() {
            assert(b.drop_last()[i] == b[i]);
            assert(va.contains(a[i].id));
        }
    }
    assert forall|i: int, j: int| 0 <= i < j < b.len() implies ids(b)[i] != ids(b)[j] by {
        assert(b.drop_last()[i] == b[i]);
        if j < a.len() {
            assert(b.drop_last()[j] == b[j]);
            assert(ids(a)[i] != ids(a)[j]);
        } else {
            assert(va.contains(a[i].id));
        }
    }
}

proof fn lemma_distinct_kept(
    x: Explorer,
    cut: Seq<BlockId>,
    known: Option<Cfg>,
    late: bool,
    p0: Pass,
    p1: Pass,
)
    requires
        advances(x, cut, known, late, p0, p1, true),
        distinct_so_far(p0),
    ensures
        distinct_so_far(p1),
{
    let task = p0.queue@.last();
    let pa = choose|pa: Pass| #[trigger] advance_steps(x, cut, known, late, p0, pa, p1, true);
    if !p0.visited@.contains(task.id) {
        lemma_distinct_push(p0.blocks@, p1.blocks@, p0.visited@, p1.visited@);
    }
}

proof fn lemma_push_distinct(s: Seq<BlockId>, id: BlockId)
    requires
        s.no_duplicates(),
        !s.contains(id),
    ensures
        s.push(id).no_duplicates(),
{
    assert forall|i: int, j: int| 0 <= i < j < s.push(id).len() implies s.push(id)[i] != s.push(
        id,
    )[j] by {
        if j == s.len() {
            assert(s[i] != id);
        }
    }
}

proof fn lemma_with_block_distinct(s: Seq<Block>, b: Block)
    requires
        ids(s).no_duplicates(),
        !ids(s).contains(b.id),
    ensures
        ids(with_block(s, b)).no_duplicates(),
        forall|id: BlockId| #[trigger]
            ids(with_block(s, b)).contains(id) <==> ids(s).contains(id) || id == b.id,
    decreases s.len(),
{
    let w = with_block(s, b);
    if s.len() == 0 || !id_before(b.id, s.last().id) {
        assert(ids(w) =~= ids(s).push(b.id));
        crate::ir::walk::lemma_push_contains(ids(s), b.id);
        lemma_push_distinct(ids(s), b.id);
    } else {
        let rest = s.drop_last();
        assert(ids(s) =~= ids(rest).push(s.last().id));
        crate::ir::walk::lemma_push_contains(ids(rest), s.last().id);
        assert(ids(rest).no_duplicates()) by {
            assert forall|i: int, j: int| 0 <= i < j < ids(rest).len() implies ids(rest)[i]
                != ids(rest)[j] by {
                assert(ids(s)[i] != ids(s)[j]);
            }
        }
        lemma_with_block_distinct(rest, b);
        let v = with_block(rest, b);
        assert(ids(w) =~= ids(v).push(s.last().id));
        crate::ir::walk::lemma_push_contains(ids(v), s.last().id);
        assert(!ids(rest).contains(s.last().id)) by {
            if ids(rest).contains(s.last().id) {
                let i = choose|i: int| 0 <= i < ids(rest).len() && ids(rest)[i] == s.last().id;
                assert(ids(s)[i] != ids(s)[s.len() - 1]);
            }
        }
        assert(ids(s).contains(s.last().id)) by {
            assert(ids(s)[s.len() - 1] == s.last().id);
        }
        lemma_push_distinct(ids(v), s.last().id);
    }
}

proof fn lemma_by_id_distinct(blocks: Seq<Block>, k: int)
    requires
        0 <= k <= blocks.len(),
        ids(blocks).no_duplicates(),
    ensures
        ids(by_id(blocks, k)).no_duplicates(),
        forall|id: BlockId| #[trigger]
            ids(by_id(blocks, k)).contains(id) <==> ids(blocks).take(k).contains(id),
    decreases k,
{
    if k > 0 {
        lemma_by_id_distinct(blocks, k - 1);
        let s = by_id(blocks, k - 1);
        let id = blocks[k - 1].id;
        assert(ids(blocks).take(k) =~= ids(blocks).take(k - 1).push(id));
        crate::ir::walk::lemma_push_contains(ids(blocks).take(k - 1), id);
        assert(!ids(s).contains(id)) by {
            if ids(s).contains(id) {
                let before = ids(blocks).take(k - 1);
                let i = choose|i: int| 0 <= i < before.len() && before[i] == id;
                assert(ids(blocks)[i] != ids(blocks)[k - 1]);
            }
        }
        lemma_with_block_distinct(s, blocks[k - 1]);
    }
}

/// Every block of a recovered graph has an identity of its own, unless a budget for the
/// whole recovery ran out: handler and bytecode position together name a block.
pub proof fn recovered_blocks_are_distinct(
    x: Explorer,
    start: u64,
    cut: Seq<BlockId>,
    known: Option<Cfg>,
    slot: Option<u64>,
    cfg: Cfg,
)
    requires
        passes(x, start, cut, known, slot, cfg),
        !cfg.timed_out,
        cfg.total_steps < x.work_budget,
    ensures
        ids(cfg.blocks@).no_duplicates(),
{
    let (ps, late, go_on) = choose|ps: Seq<Pass>, late: Seq<bool>, go_on: Seq<bool>| #[trigger]
        pass_chain(x, cut, known, ps, late, go_on) && initial(x, start, slot, ps.first()) && is_over(
            ps.last(),
            go_on,
        ) && finishes(x, start, ps.last(), cfg);
    let end = ps.last();
    let full = choose|full: Seq<Block>| #[trigger] finish_steps(x, start, end, full, cfg);
    if go_on.len() > 0 && !go_on.last() {
        let n = late.len() - 1;
        assert(advances(x, cut, known, late[n], ps[n], ps[n + 1], go_on[n]));
        let pa = choose|pa: Pass| #[trigger]
            advance_steps(x, cut, known, late[n], ps[n], pa, ps[n + 1], go_on[n]);
        assert(false);
    }
    assert forall|i: int| 0 <= i < late.len() implies #[trigger] go_on[i] by {
        assert(advances(x, cut, known, late[i], ps[i], ps[i + 1], go_on[i]));
    }
    lemma_chain_distinct(x, cut, known, ps, late, go_on, late.len() as int);
    assert(ids(full) =~= ids(end.blocks@)) by {
        assert forall|i: int| 0 <= i < full.len() implies ids(full)[i] == ids(end.blocks@)[i] by {
            assert(filled(end.edges@, end.blocks@[i], full[i]));
        }
    }
    lemma_by_id_distinct(full, full.len() as int);
}

proof fn lemma_chain_distinct(
    x: Explorer,
    cut: Seq<BlockId>,
    known: Option<Cfg>,
    ps: Seq<Pass>,
    late: Seq<bool>,
    go_on: Seq<bool>,
    k: int,
)
    requires
        pass_chain(x, cut, known, ps, late, go_on),
        ps.first().blocks@.len() == 0,
        0 <= k <= late.len(),
        forall|i: int| 0 <= i < k ==> #[trigger] go_on[i],
    ensures
        distinct_so_far(ps[k]),
    decreases k,
{
    if k > 0 {
        lemma_chain_distinct(x, cut, known, ps, late, go_on, k - 1);
        assert(go_on[k - 1]);
        assert(advances(x, cut, known, late[k - 1], ps[k - 1], ps[k], go_on[k - 1]));
        lemma_distinct_kept(x, cut, known, late[k - 1], ps[k - 1], ps[k]);
    }
}

} // verus!
