//! Scheduling: expression DAGs plus ordered effects into linear three-address code.
//!
//! Recovery leaves each block as a set of expression DAGs and a list of effects in program
//! order. Any sequence computing the same values and performing the same effects in the
//! same order will do. Two properties carry the rest: a shared subexpression is emitted
//! once, and a value is defined before it is read.

use crate::ir::anchor::FRAME_REACH;
use crate::ir::expr::{
    eval, has, nodes_ok, ok_at, op_of, operands, same_text, width_of, Arena, BlockRef, Env, Node,
    Op, Ref,
};
use crate::ir::fold::{bin_val, lemma_mask, sign_extend_spec, un_val, wadd, wrapping_difference, wsub};
use crate::ir::instr::{defines, reads, reads_value, CastKind, Instr, Operand, ValId};
use crate::ir::value::{BinOp, Reg};
use crate::ir::walk::{depends, lemma_bounded_set, lemma_members, operands_first};
use std::collections::HashMap;
use vstd::prelude::*;

verus! {

broadcast use vstd::std_specs::hash::group_hash_axioms;

/// How far from the pinned RSP a constant may be and still count as a stack address.
pub const FRAME_WINDOW: u64 = 0x8000;

/// The offset of a constant from the pinned stack pointer, if it is a stack address.
pub open spec fn frame_offset_spec(c: u64, base: u64) -> Option<i64> {
    let up = wsub(c, base);
    let down = wsub(base, c);
    if up <= FRAME_WINDOW {
        Some(up as i64)
    } else if down <= FRAME_WINDOW {
        Some((-(down as int)) as i64)
    } else {
        None
    }
}

fn frame_offset(c: u64, base: u64) -> (r: Option<i64>)
    ensures
        r == frame_offset_spec(c, base),
{
    let up: u64 = wrapping_difference(c, base);
    let down: u64 = wrapping_difference(base, c);
    if up <= FRAME_WINDOW {
        Some(up as i64)
    } else if down <= FRAME_WINDOW {
        Some(-(down as i64))
    } else {
        None
    }
}

/// How a node that costs no instruction is referred to: it names a value that exists.
pub open spec fn leaf_operand(ns: Seq<Node>, r: Ref, base: u64) -> Option<Operand> {
    match op_of(ns, r) {
        Op::Const(c) => match frame_offset_spec(c, base) {
            Some(o) => Some(Operand::Frame(o)),
            None => Some(Operand::Imm(c)),
        },
        Op::InitReg(reg) => Some(Operand::Entry(reg)),
        Op::Param(_, reg) => Some(Operand::Param(reg)),
        Op::Opaque(tag, _) => if tag@ == "call_ret"@ {
            Some(Operand::Entry(Reg::Rax))
        } else {
            None
        },
        _ => None,
    }
}

/// The instruction for a node whose operands are placed.
pub open spec fn node_instr(
    ns: Seq<Node>,
    r: Ref,
    placed: Map<usize, Operand>,
    dst: ValId,
    base: u64,
) -> Instr {
    let width = width_of(ns, r);
    match op_of(ns, r) {
        Op::Load(a, _) => Instr::Load { dst, addr: placed[a.idx], disp: 0, width },
        Op::Bin(op, a, b) => {
            let operand_width = width_of(ns, a).wider(width_of(ns, b));
            match (op, placed[b.idx]) {
                (BinOp::Add, Operand::Imm(c)) => match frame_offset_spec(wsub(0, c), base) {
                    Some(o) => Instr::Bin {
                        dst,
                        op: BinOp::Sub,
                        a: placed[a.idx],
                        b: Operand::Frame(o),
                        width,
                        operand_width,
                    },
                    None => Instr::Bin {
                        dst,
                        op,
                        a: placed[a.idx],
                        b: placed[b.idx],
                        width,
                        operand_width,
                    },
                },
                _ => Instr::Bin {
                    dst,
                    op,
                    a: placed[a.idx],
                    b: placed[b.idx],
                    width,
                    operand_width,
                },
            }
        },
        Op::Un(op, a) => Instr::Un { dst, op, a: placed[a.idx], width },
        Op::Zext(a) => Instr::Cast {
            dst,
            kind: CastKind::Zext,
            a: placed[a.idx],
            from: width_of(ns, a),
            to: width,
        },
        Op::Sext(a) => Instr::Cast {
            dst,
            kind: CastKind::Sext,
            a: placed[a.idx],
            from: width_of(ns, a),
            to: width,
        },
        Op::Trunc(a) => Instr::Cast {
            dst,
            kind: CastKind::Trunc,
            a: placed[a.idx],
            from: width_of(ns, a),
            to: width,
        },
        Op::Select(c, a, b) => Instr::Select {
            dst,
            cond: placed[c.idx],
            a: placed[a.idx],
            b: placed[b.idx],
            width,
        },
        Op::Opaque(tag, _) => Instr::Opaque { dst, tag, width, at: None },
        Op::Const(_) | Op::InitReg(_) | Op::Param(_, _) => Instr::Opaque {
            dst,
            tag: "",
            width,
            at: None,
        },
    }
}

/// Whether some instruction among the first `k` defines the value.
pub open spec fn defined_in(instrs: Seq<Instr>, k: int, v: ValId) -> bool {
    exists|j: int| 0 <= j < k && j < instrs.len() && defines(#[trigger] instrs[j]) == Some(v)
}

/// Whether every value an instruction reads is defined among the first `k`.
pub open spec fn inputs_defined(instrs: Seq<Instr>, k: int, i: Instr) -> bool {
    forall|v: ValId| #[trigger] reads_value(reads(i), v) ==> defined_in(instrs, k, v)
}

/// Whether code is in order: each value has one definition, below `next` and in increasing
/// order, and is read only after it.
pub open spec fn in_sequence(instrs: Seq<Instr>, next: u32) -> bool {
    &&& forall|i: int|
        0 <= i < instrs.len() ==> (defines(#[trigger] instrs[i]) matches Some(v) ==> v.0 < next)
    &&& forall|i: int, j: int|
        0 <= i < j < instrs.len() ==> (defines(#[trigger] instrs[i]) matches Some(v) ==> (defines(
            #[trigger] instrs[j],
        ) matches Some(w) ==> v.0 < w.0))
    &&& forall|i: int| 0 <= i < instrs.len() ==> inputs_defined(instrs, i, #[trigger] instrs[i])
}

/// Whether an operand may be used after the code: a value must be defined in it.
pub open spec fn operand_ready(instrs: Seq<Instr>, o: Operand) -> bool {
    o matches Operand::Val(v) ==> defined_in(instrs, instrs.len() as int, v)
}

/// Whether a stack operand leaves room to add to it.
pub open spec fn in_window(o: Operand) -> bool {
    o matches Operand::Frame(x) ==> -FRAME_REACH <= x <= FRAME_REACH
}

/// Whether every stack operand an instruction reads is in the window.
pub open spec fn reads_window(i: Instr) -> bool {
    forall|k: int| 0 <= k < reads(i).len() ==> in_window(#[trigger] reads(i)[k])
}

/// Whether a placed node is where its operation says.
pub open spec fn placed_ok(
    ns: Seq<Node>,
    instrs: Seq<Instr>,
    placed: Map<usize, Operand>,
    base: u64,
    from: int,
    k: usize,
) -> bool {
    let r = Ref { idx: k };
    ||| leaf_operand(ns, r, base) == Some(placed[k])
    ||| leaf_operand(ns, r, base) is None && (exists|i: int|
        from <= i < instrs.len() && (placed[k] matches Operand::Val(v) && #[trigger] instrs[i]
            == node_instr(ns, r, placed, v, base))) && (forall|c: Ref| #[trigger]
        operands(op_of(ns, r)).contains(c) ==> placed.dom().contains(c.idx))
}

/// Whether a value is picked up from the register an instruction leaves it in.
pub open spec fn picked_up(instrs: Seq<Instr>, o: Operand) -> bool {
    exists|i: int|
        0 <= i < instrs.len() && (#[trigger] instrs[i] matches Instr::Opaque { dst, at, .. } && at is Some
            && o == Operand::Val(dst))
}

/// Whether what a placed node is computed from is placed too, or the node's value is picked up
/// from a register and not computed.
#[verifier::opaque]
pub open spec fn reads_placed(
    ns: Seq<Node>,
    instrs: Seq<Instr>,
    placed: Map<usize, Operand>,
    k: usize,
) -> bool {
    ||| picked_up(instrs, placed[k])
    ||| forall|c: Ref| #[trigger]
        operands(op_of(ns, Ref { idx: k })).contains(c) ==> placed.dom().contains(c.idx)
}

/// More code and more placed nodes leave that so.
pub proof fn lemma_reads_placed(
    ns: Seq<Node>,
    i0: Seq<Instr>,
    p0: Map<usize, Operand>,
    i1: Seq<Instr>,
    p1: Map<usize, Operand>,
    k: usize,
)
    requires
        reads_placed(ns, i0, p0, k),
        p0.dom().contains(k),
        starts(i0, i1),
        placed_more(p0, p1),
    ensures
        reads_placed(ns, i1, p1, k),
{
    reveal(reads_placed);
    if picked_up(i0, p0[k]) {
        let i = choose|i: int|
            0 <= i < i0.len() && (#[trigger] i0[i] matches Instr::Opaque { dst, at, .. } && at is Some && p0[k]
                == Operand::Val(dst));
        assert(i1[i] == i0[i]);
    }
}

/// Linearize one block.
pub struct Scheduler<'a> {
    pub arena: &'a Arena,
    pub stack_base: u64,
    pub block: BlockRef,
    /// Values already scheduled, by node, so a shared subexpression is emitted once.
    pub placed: HashMap<usize, Operand>,
    pub instrs: Vec<Instr>,
    pub next: u32,
}

impl<'a> Scheduler<'a> {
    /// What the state of the scheduler keeps.
    pub open spec fn ok(self) -> bool {
        &&& self.arena.wf()
        &&& self.arena.nodes@.len() <= u32::MAX
        &&& self.placed@.dom().finite()
        &&& forall|k: usize| #[trigger] self.placed@.dom().contains(k) ==> k < self.arena.nodes@.len()
        &&& self.next <= self.placed@.dom().len()
        &&& in_sequence(self.instrs@, self.next)
        &&& forall|k: usize| #[trigger]
            self.placed@.dom().contains(k) ==> operand_ready(self.instrs@, self.placed@[k])
                && in_window(self.placed@[k])
        &&& forall|i: int| 0 <= i < self.instrs@.len() ==> reads_window(#[trigger] self.instrs@[i])
        &&& forall|k: usize| #[trigger]
            self.placed@.dom().contains(k) ==> reads_placed(
                self.arena.nodes@,
                self.instrs@,
                self.placed@,
                k,
            )
    }

    pub fn new(arena: &'a Arena, block: BlockRef, stack_base: u64) -> (s: Self)
        requires
            arena.wf(),
            arena.nodes@.len() <= u32::MAX,
        ensures
            s.ok(),
            s.arena == arena,
            s.block == block,
            s.stack_base == stack_base,
            s.instrs@.len() == 0,
            s.placed@ == Map::<usize, Operand>::empty(),
            s.next == 0,
    {
        Self { arena, block, stack_base, placed: HashMap::new(), instrs: Vec::new(), next: 0 }
    }

    /// The operand a node is placed at.
    fn at(&self, r: Ref) -> (o: Operand)
        requires
            self.placed@.dom().contains(r.idx),
        ensures
            o == self.placed@[r.idx],
    {
        *self.placed.get(&r.idx).unwrap()
    }

    /// Emit the single operation for `r`, whose operands are already scheduled.
    fn emit(&mut self, r: Ref) -> (o: Operand)
        requires
            old(self).ok(),
            old(self).arena.holds(r),
            !old(self).placed@.dom().contains(r.idx),
            forall|c: Ref| #[trigger]
                operands(op_of(old(self).arena.nodes@, r)).contains(c)
                    ==> old(self).placed@.dom().contains(c.idx),
        ensures
            final(self).arena == old(self).arena,
            final(self).block == old(self).block,
            final(self).stack_base == old(self).stack_base,
            final(self).placed == old(self).placed,
            match leaf_operand(old(self).arena.nodes@, r, old(self).stack_base) {
                Some(x) => {
                    &&& o == x
                    &&& final(self).instrs == old(self).instrs
                    &&& final(self).next == old(self).next
                },
                None => {
                    &&& o == Operand::Val(ValId(old(self).next))
                    &&& final(self).next == old(self).next + 1
                    &&& final(self).instrs@ == old(self).instrs@.push(
                        node_instr(
                            old(self).arena.nodes@,
                            r,
                            old(self).placed@,
                            ValId(old(self).next),
                            old(self).stack_base,
                        ),
                    )
                },
            },
    {
        let ghost ns = self.arena.nodes@;
        proof {
            lemma_room(self.placed@.dom(), ns.len(), r.idx);
            lemma_members(op_of(ns, r));
        }
        let width = self.arena.width(r);
        let base = self.stack_base;
        let dst = ValId(self.next);
        let instr = match *self.arena.op(r) {
            Op::Const(c) => {
                return match frame_offset(c, base) {
                    Some(off) => Operand::Frame(off),
                    None => Operand::Imm(c),
                };
            },
            Op::InitReg(reg) => {
                return Operand::Entry(reg);
            },
            Op::Param(_, reg) => {
                return Operand::Param(reg);
            },
            Op::Opaque(tag, _) => {
                // A return value no call of this block produced arrives in its register.
                if same_text(tag, "call_ret") {
                    return Operand::Entry(Reg::Rax);
                }
                Instr::Opaque { dst, tag, width, at: None }
            },
            Op::Load(addr, _) => Instr::Load { dst, addr: self.at(addr), disp: 0, width },
            Op::Bin(op, a, b) => {
                let operand_width = self.arena.width(a).wider(self.arena.width(b));
                let x = self.at(a);
                let y = self.at(b);
                let negated = match (op, y) {
                    (BinOp::Add, Operand::Imm(c)) => frame_offset(wrapping_difference(0, c), base),
                    _ => None,
                };
                match negated {
                    Some(off) => Instr::Bin {
                        dst,
                        op: BinOp::Sub,
                        a: x,
                        b: Operand::Frame(off),
                        width,
                        operand_width,
                    },
                    None => Instr::Bin { dst, op, a: x, b: y, width, operand_width },
                }
            },
            Op::Un(op, a) => Instr::Un { dst, op, a: self.at(a), width },
            Op::Zext(a) => Instr::Cast {
                dst,
                kind: CastKind::Zext,
                a: self.at(a),
                from: self.arena.width(a),
                to: width,
            },
            Op::Sext(a) => Instr::Cast {
                dst,
                kind: CastKind::Sext,
                a: self.at(a),
                from: self.arena.width(a),
                to: width,
            },
            Op::Trunc(a) => Instr::Cast {
                dst,
                kind: CastKind::Trunc,
                a: self.at(a),
                from: self.arena.width(a),
                to: width,
            },
            Op::Select(c, a, b) => Instr::Select {
                dst,
                cond: self.at(c),
                a: self.at(a),
                b: self.at(b),
                width,
            },
        };
        self.instrs.push(instr);
        self.next = self.next + 1;
        Operand::Val(dst)
    }
}

/// A set that lacks one of the first `n` numbers has fewer than `n` of them.
pub proof fn lemma_room(s: Set<usize>, n: nat, k: usize)
    requires
        s.finite(),
        forall|x: usize| #[trigger] s.contains(x) ==> x < n,
        k < n,
        !s.contains(k),
    ensures
        s.len() < n,
{
    let t = s.insert(k);
    assert forall|x: usize| #[trigger] t.contains(x) implies x < n by {}
    lemma_bounded_set(t, n);
}

/// Whether one placement extends another.
pub open spec fn placed_more(p: Map<usize, Operand>, q: Map<usize, Operand>) -> bool {
    forall|k: usize| #[trigger] p.dom().contains(k) ==> q.dom().contains(k) && q[k] == p[k]
}

/// Whether one instruction list is the start of another.
pub open spec fn starts(a: Seq<Instr>, b: Seq<Instr>) -> bool {
    a.len() <= b.len() && forall|i: int| 0 <= i < a.len() ==> #[trigger] b[i] == a[i]
}

pub proof fn lemma_node_instr(
    ns: Seq<Node>,
    r: Ref,
    p: Map<usize, Operand>,
    q: Map<usize, Operand>,
    dst: ValId,
    base: u64,
)
    requires
        placed_more(p, q),
        forall|c: Ref| #[trigger] operands(op_of(ns, r)).contains(c) ==> p.dom().contains(c.idx),
    ensures
        node_instr(ns, r, p, dst, base) == node_instr(ns, r, q, dst, base),
{
    lemma_members(op_of(ns, r));
}

proof fn lemma_defined_more(a: Seq<Instr>, b: Seq<Instr>, k: int, v: ValId)
    requires
        starts(a, b),
        defined_in(a, k, v),
    ensures
        defined_in(b, k, v),
        defined_in(b, b.len() as int, v),
{
    let j = choose|j: int| 0 <= j < k && j < a.len() && defines(#[trigger] a[j]) == Some(v);
    assert(b[j] == a[j]);
}

/// Appending an instruction whose inputs are defined and whose result is new.
pub proof fn lemma_in_sequence(instrs: Seq<Instr>, next: u32, i: Instr, after: u32)
    requires
        in_sequence(instrs, next),
        inputs_defined(instrs, instrs.len() as int, i),
        next <= after,
        defines(i) matches Some(v) ==> v.0 >= next && v.0 < after,
    ensures
        in_sequence(instrs.push(i), after),
        starts(instrs, instrs.push(i)),
{
    let more = instrs.push(i);
    assert forall|k: int| 0 <= k < more.len() implies inputs_defined(more, k, #[trigger] more[k]) by {
        assert forall|v: ValId| #[trigger] reads_value(reads(more[k]), v) implies defined_in(more, k, v) by {
            if k < instrs.len() {
                assert(more[k] == instrs[k]);
                assert(inputs_defined(instrs, k, instrs[k]));
                assert(reads_value(reads(instrs[k]), v));
                assert(defined_in(instrs, k, v));
            }
            let j = choose|j: int|
                0 <= j < k && j < instrs.len() && defines(#[trigger] instrs[j]) == Some(v);
            assert(more[j] == instrs[j]);
        }
    }
    assert forall|x: int, y: int| 0 <= x < y < more.len() implies (defines(#[trigger] more[x]) matches Some(
        v,
    ) ==> (defines(#[trigger] more[y]) matches Some(w) ==> v.0 < w.0)) by {
        assert(more[x] == instrs[x]);
        if y < instrs.len() {
            assert(more[y] == instrs[y]);
        }
    }
    assert forall|x: int| 0 <= x < more.len() implies (defines(#[trigger] more[x]) matches Some(v)
        ==> v.0 < after) by {
        if x < instrs.len() {
            assert(more[x] == instrs[x]);
        }
    }
}

/// What a node's instruction reads is where its operands are placed.
proof fn lemma_node_inputs(
    ns: Seq<Node>,
    r: Ref,
    placed: Map<usize, Operand>,
    instrs: Seq<Instr>,
    dst: ValId,
    base: u64,
)
    requires
        forall|c: Ref| #[trigger] operands(op_of(ns, r)).contains(c) ==> placed.dom().contains(c.idx),
        forall|k: usize| #[trigger]
            placed.dom().contains(k) ==> operand_ready(instrs, placed[k]) && in_window(placed[k]),
        leaf_operand(ns, r, base) is None,
    ensures
        inputs_defined(instrs, instrs.len() as int, node_instr(ns, r, placed, dst, base)),
        reads_window(node_instr(ns, r, placed, dst, base)),
        defines(node_instr(ns, r, placed, dst, base)) == Some(dst),
{
    lemma_members(op_of(ns, r));
    let i = node_instr(ns, r, placed, dst, base);
    let ops = reads(i);
    assert forall|k: int| 0 <= k < ops.len() implies operand_ready(instrs, #[trigger] ops[k])
        && in_window(ops[k]) by {
        match op_of(ns, r) {
            Op::Load(a, _) => {
                assert(placed.dom().contains(a.idx));
            },
            Op::Bin(_, a, b) => {
                assert(placed.dom().contains(a.idx) && placed.dom().contains(b.idx));
            },
            Op::Un(_, a) => {
                assert(placed.dom().contains(a.idx));
            },
            Op::Zext(a) => {
                assert(placed.dom().contains(a.idx));
            },
            Op::Sext(a) => {
                assert(placed.dom().contains(a.idx));
            },
            Op::Trunc(a) => {
                assert(placed.dom().contains(a.idx));
            },
            Op::Select(c, a, b) => {
                assert(placed.dom().contains(a.idx) && placed.dom().contains(b.idx)
                    && placed.dom().contains(c.idx));
            },
            _ => {},
        }
    }
    assert forall|v: ValId| #[trigger] reads_value(ops, v) implies defined_in(
        instrs,
        instrs.len() as int,
        v,
    ) by {
        let k = choose|k: int| 0 <= k < ops.len() && ops[k] == Operand::Val(v);
        assert(operand_ready(instrs, ops[k]));
    }
}

impl<'a> Scheduler<'a> {
    /// Whether the scheduler went on from an earlier state: what was placed and emitted
    /// stays, and what is new is placed where its operation says.
    pub open spec fn went_on(self, before: Self) -> bool {
        &&& self.arena == before.arena
        &&& self.block == before.block
        &&& self.stack_base == before.stack_base
        &&& starts(before.instrs@, self.instrs@)
        &&& placed_more(before.placed@, self.placed@)
        &&& forall|k: usize| #[trigger]
            self.placed@.dom().contains(k) && !before.placed@.dom().contains(k) ==> placed_ok(
                self.arena.nodes@,
                self.instrs@,
                self.placed@,
                self.stack_base,
                before.instrs@.len() as int,
                k,
            )
        &&& forall|i: int|
            before.instrs@.len() <= i < self.instrs@.len() ==> emitted_for(
                self.arena.nodes@,
                before.placed@,
                self.placed@,
                self.stack_base,
                #[trigger] self.instrs@[i],
            )
    }

    /// Place the node `r`, whose operands are placed.
    fn place(&mut self, r: Ref)
        requires
            old(self).ok(),
            old(self).arena.holds(r),
            !old(self).placed@.dom().contains(r.idx),
            forall|c: Ref| #[trigger]
                operands(op_of(old(self).arena.nodes@, r)).contains(c)
                    ==> old(self).placed@.dom().contains(c.idx),
        ensures
            final(self).placed@.dom() == old(self).placed@.dom().insert(r.idx),
            final(self).ok(),
            final(self).went_on(*old(self)),
            final(self).placed@.dom() == old(self).placed@.dom().insert(r.idx),
    {
        let ghost ns = self.arena.nodes@;
        let ghost p0 = self.placed@;
        let ghost i0 = self.instrs@;
        let ghost n0 = self.next;
        let ghost base = self.stack_base;
        let o = self.emit(r);
        self.placed.insert(r.idx, o);
        proof {
            let p1 = self.placed@;
            assert(r == Ref { idx: r.idx });
            assert(p1.dom() =~= p0.dom().insert(r.idx));
            if leaf_operand(ns, r, base) is None {
                let i = node_instr(ns, r, p0, ValId(n0), base);
                lemma_node_inputs(ns, r, p0, i0, ValId(n0), base);
                lemma_in_sequence(i0, n0, i, self.next);
                lemma_node_instr(ns, r, p0, p1, ValId(n0), base);
                assert(self.instrs@[i0.len() as int] == node_instr(ns, r, p1, ValId(n0), base));
                assert(defines(self.instrs@[i0.len() as int]) == Some(ValId(n0)));
                assert(defined_in(self.instrs@, self.instrs@.len() as int, ValId(n0)));
                assert(placed_ok(ns, self.instrs@, p1, base, i0.len() as int, r.idx));
                assert(emitted_for(ns, p0, p1, base, self.instrs@[i0.len() as int])) by {
                    assert(p1.dom().contains(r.idx));
                }
                assert forall|k: int| 0 <= k < self.instrs@.len() implies reads_window(
                    #[trigger] self.instrs@[k],
                ) by {
                    if k < i0.len() {
                        assert(self.instrs@[k] == i0[k]);
                    }
                }
            } else {
                assert(placed_ok(ns, self.instrs@, p1, base, i0.len() as int, r.idx));
            }
            assert forall|k: usize| #[trigger] p1.dom().contains(k) implies operand_ready(
                self.instrs@,
                p1[k],
            ) && in_window(p1[k]) by {
                if k != r.idx {
                    assert(p0.dom().contains(k));
                    if let Operand::Val(v) = p0[k] {
                        assert(operand_ready(i0, p0[k]));
                        lemma_defined_more(i0, self.instrs@, i0.len() as int, v);
                    }
                }
            }
            assert forall|k: usize| #[trigger] p1.dom().contains(k) implies reads_placed(
                ns,
                self.instrs@,
                p1,
                k,
            ) by {
                if k != r.idx {
                    assert(starts(i0, self.instrs@));
                    lemma_reads_placed(ns, i0, p0, self.instrs@, p1, k);
                } else {
                    reveal(reads_placed);
                }
            }
        }
    }
}

/// Whether an instruction is that of a node which became placed.
pub open spec fn emitted_for(
    ns: Seq<Node>,
    before: Map<usize, Operand>,
    placed: Map<usize, Operand>,
    base: u64,
    i: Instr,
) -> bool {
    exists|k: usize| #[trigger]
        placed.dom().contains(k) && !before.dom().contains(k) && (placed[k] matches Operand::Val(v) && i
            == node_instr(ns, Ref { idx: k }, placed, v, base))
}

/// Going on twice is going on.
pub proof fn lemma_went_on<'a>(a: Scheduler<'a>, b: Scheduler<'a>, c: Scheduler<'a>)
    requires
        b.went_on(a),
        c.went_on(b),
    ensures
        c.went_on(a),
{
    let ns = c.arena.nodes@;
    let base = c.stack_base;
    assert forall|k: usize| #[trigger]
        c.placed@.dom().contains(k) && !a.placed@.dom().contains(k) implies placed_ok(
        ns,
        c.instrs@,
        c.placed@,
        base,
        a.instrs@.len() as int,
        k,
    ) by {
        let r = Ref { idx: k };
        if b.placed@.dom().contains(k) {
            assert(placed_ok(ns, b.instrs@, b.placed@, base, a.instrs@.len() as int, k));
            if leaf_operand(ns, r, base) != Some(b.placed@[k]) {
                let i = choose|i: int|
                    a.instrs@.len() <= i < b.instrs@.len() && (b.placed@[k] matches Operand::Val(v)
                        && #[trigger] b.instrs@[i] == node_instr(ns, r, b.placed@, v, base));
                let v = b.placed@[k]->Val_0;
                lemma_node_instr(ns, r, b.placed@, c.placed@, v, base);
                assert(c.instrs@[i] == b.instrs@[i]);
                assert(c.instrs@[i] == node_instr(ns, r, c.placed@, v, base));
            }
        } else {
            assert(placed_ok(ns, c.instrs@, c.placed@, base, b.instrs@.len() as int, k));
            if leaf_operand(ns, r, base) != Some(c.placed@[k]) {
                let i = choose|i: int|
                    b.instrs@.len() <= i < c.instrs@.len() && (c.placed@[k] matches Operand::Val(v)
                        && #[trigger] c.instrs@[i] == node_instr(ns, r, c.placed@, v, base));
                assert(a.instrs@.len() <= i);
            }
        }
    }
    assert forall|i: int| a.instrs@.len() <= i < c.instrs@.len() implies emitted_for(
        ns,
        a.placed@,
        c.placed@,
        base,
        #[trigger] c.instrs@[i],
    ) by {
        if i < b.instrs@.len() {
            assert(c.instrs@[i] == b.instrs@[i]);
            assert(emitted_for(ns, a.placed@, b.placed@, base, b.instrs@[i]));
            let k = choose|k: usize| #[trigger]
                b.placed@.dom().contains(k) && !a.placed@.dom().contains(k) && (
                b.placed@[k] matches Operand::Val(v) && b.instrs@[i] == node_instr(
                    ns,
                    Ref { idx: k },
                    b.placed@,
                    v,
                    base,
                ));
            assert(placed_ok(ns, b.instrs@, b.placed@, base, a.instrs@.len() as int, k));
            let v = b.placed@[k]->Val_0;
            assert(c.placed@.dom().contains(k));
            if leaf_operand(ns, Ref { idx: k }, base) is None {
                lemma_node_instr(ns, Ref { idx: k }, b.placed@, c.placed@, v, base);
            }
        } else {
            assert(emitted_for(ns, b.placed@, c.placed@, base, c.instrs@[i]));
            let k = choose|k: usize| #[trigger]
                c.placed@.dom().contains(k) && !b.placed@.dom().contains(k) && (
                c.placed@[k] matches Operand::Val(v) && c.instrs@[i] == node_instr(
                    ns,
                    Ref { idx: k },
                    c.placed@,
                    v,
                    base,
                ));
            assert(!a.placed@.dom().contains(k));
        }
    }
}

impl<'a> Scheduler<'a> {
    /// Schedule `r` and everything it depends on, returning how to refer to it.
    pub fn value(&mut self, r: Ref) -> (o: Operand)
        requires
            old(self).ok(),
            old(self).arena.holds(r),
        ensures
            final(self).ok(),
            final(self).went_on(*old(self)),
            final(self).placed@.dom().contains(r.idx),
            o == final(self).placed@[r.idx],
            old(self).placed@.dom().contains(r.idx) ==> *final(self) == *old(self),
            forall|k: usize| #[trigger]
                final(self).placed@.dom().contains(k) && !old(self).placed@.dom().contains(k) ==> depends(
                    old(self).arena.nodes@,
                    r,
                    Ref { idx: k },
                ),
    {
        let ghost start = *self;
        if self.placed.contains_key(&r.idx) {
            return self.at(r);
        }
        let stop: HashMap<usize, Ref> = HashMap::new();
        let order = self.arena.post_order(r, &self.placed, &stop);
        let ghost ns = self.arena.nodes@;
        let mut i: usize = 0;
        while i < order.len()
            invariant
                i <= order@.len(),
                self.ok(),
                self.went_on(start),
                ns == start.arena.nodes@,
                forall|j: int| 0 <= j < order@.len() ==> start.arena.holds(#[trigger] order@[j]),
                forall|j: int|
                    0 <= j < order@.len() ==> #[trigger] operands_first(ns, order@, start.placed@, j),
                forall|j: int| 0 <= j < i ==> self.placed@.dom().contains((#[trigger] order@[j]).idx),
                forall|j: int| 0 <= j < order@.len() ==> depends(ns, r, #[trigger] order@[j]),
                forall|k: usize| #[trigger]
                    self.placed@.dom().contains(k) && !start.placed@.dom().contains(k) ==> depends(
                        ns,
                        r,
                        Ref { idx: k },
                    ),
            decreases order@.len() - i,
        {
            let cur = order[i];
            let ghost before = *self;
            if !self.placed.contains_key(&cur.idx) {
                proof {
                    assert(start.arena.holds(order@[i as int]));
                    assert(operands_first(ns, order@, start.placed@, i as int));
                    assert forall|c: Ref| #[trigger]
                        operands(op_of(ns, cur)).contains(c) implies self.placed@.dom().contains(c.idx) by {
                        if !start.placed@.dom().contains(c.idx) {
                            assert(order@.take(i as int).contains(c));
                            let j = choose|j: int| 0 <= j < i && order@.take(i as int)[j] == c;
                            assert(order@[j] == c);
                        }
                    }
                }
                self.place(cur);
                proof {
                    lemma_went_on(start, before, *self);
                    assert(depends(ns, r, order@[i as int]));
                    assert(cur == (Ref { idx: cur.idx }));
                }
            }
            i = i + 1;
        }
        proof {
            let j = choose|j: int| 0 <= j < order@.len() && order@[j] == r;
            assert(order@[j].idx == r.idx);
        }
        self.at(r)
    }
}

/// Whether the scheduled value of `r` is computed from that of `q`. What is picked up from a
/// register is not computed.
pub open spec fn computed_from<'a>(s: Scheduler<'a>, r: Ref, q: Ref) -> bool
    decreases r.idx,
{
    ||| q == r
    ||| !picked_up(s.instrs@, s.placed@[r.idx]) && exists|c: Ref|
        #![trigger operands(op_of(s.arena.nodes@, r)).contains(c)]
        operands(op_of(s.arena.nodes@, r)).contains(c) && c.idx < r.idx && computed_from(s, c, q)
}

/// A value is scheduled once: where a node is placed, so is everything it is computed from, so
/// that scheduling any of it again appends nothing and gives the same operand.
pub proof fn a_value_is_scheduled_once<'a>(s: Scheduler<'a>, r: Ref, q: Ref)
    requires
        s.ok(),
        s.placed@.dom().contains(r.idx),
        computed_from(s, r, q),
    ensures
        s.placed@.dom().contains(q.idx),
    decreases r.idx,
{
    if q != r {
        let ns = s.arena.nodes@;
        let c = choose|c: Ref|
            #![trigger operands(op_of(ns, r)).contains(c)]
            operands(op_of(ns, r)).contains(c) && c.idx < r.idx && computed_from(s, c, q);
        assert(r == Ref { idx: r.idx });
        reveal(reads_placed);
        assert(reads_placed(ns, s.instrs@, s.placed@, r.idx));
        a_value_is_scheduled_once(s, c, q);
    }
}

/// Where nothing that `r` depends on and that is computed from others is picked up from a
/// register, the value of `r` is computed from everything it depends on.
pub proof fn a_value_is_computed_from_all_it_depends_on<'a>(s: Scheduler<'a>, r: Ref, q: Ref)
    requires
        depends(s.arena.nodes@, r, q),
        forall|x: Ref| #[trigger]
            depends(s.arena.nodes@, r, x) && picked_up(s.instrs@, s.placed@[x.idx]) ==> operands(
                op_of(s.arena.nodes@, x),
            ).len() == 0,
    ensures
        computed_from(s, r, q),
    decreases r.idx,
{
    if q != r {
        let ns = s.arena.nodes@;
        let c = choose|c: Ref|
            #![trigger operands(op_of(ns, r)).contains(c)]
            operands(op_of(ns, r)).contains(c) && c.idx < r.idx && depends(ns, c, q);
        assert(depends(ns, r, r));
        assert forall|x: Ref| #[trigger]
            depends(ns, c, x) && picked_up(s.instrs@, s.placed@[x.idx]) implies operands(
            op_of(ns, x),
        ).len() == 0 by {
            assert(depends(ns, r, x));
        }
        a_value_is_computed_from_all_it_depends_on(s, c, q);
    }
}

/// What scheduled operands stand for: the computed values, and where the stack pointer was
/// pinned for a block.
pub ghost struct Run {
    pub vals: spec_fn(ValId) -> u64,
    pub env: Env,
    pub block: BlockRef,
    pub base: u64,
}

/// The value of an operand. A stack location is an address.
pub open spec fn operand_value(o: Operand, run: Run) -> u64 {
    match o {
        Operand::Val(v) => (run.vals)(v),
        Operand::Imm(c) => c,
        Operand::Param(r) => (run.env.params)(run.block, r),
        Operand::Entry(r) => (run.env.regs)(r),
        Operand::Frame(x) => if x >= 0 {
            wadd(run.base, x as u64)
        } else {
            wsub(run.base, (-x) as u64)
        },
        Operand::OutArg(_) => 0,
    }
}

/// Whether the values are those an instruction computes. What a load reads and what an
/// unmodelled instruction leaves behind is for the memory and the machine to say.
pub open spec fn computes(i: Instr, run: Run) -> bool {
    match i {
        Instr::Bin { dst, op, a, b, operand_width, .. } => (run.vals)(dst) == bin_val(
            op,
            operand_value(a, run),
            operand_value(b, run),
            operand_width,
        ),
        Instr::Un { dst, op, a, width } => (run.vals)(dst) == un_val(op, operand_value(a, run), width),
        Instr::Cast { dst, kind, a, from, to } => (run.vals)(dst) == match kind {
            CastKind::Zext => operand_value(a, run),
            CastKind::Sext => sign_extend_spec(operand_value(a, run), from) & to.mask(),
            CastKind::Trunc => operand_value(a, run) & to.mask(),
        },
        Instr::Select { dst, cond, a, b, width } => (run.vals)(dst) == if operand_value(cond, run) != 0 {
            operand_value(a, run)
        } else {
            operand_value(b, run) & width.mask()
        },
        _ => true,
    }
}

/// Whether a valuation gives loads and opaque values what the machine left in the values
/// that stand for them, and parameters those of the run's block.
pub open spec fn agrees(ns: Seq<Node>, placed: Map<usize, Operand>, run: Run) -> bool {
    &&& forall|k: usize| #[trigger]
        placed.dom().contains(k) && (op_of(ns, Ref { idx: k }) is Load || op_of(
            ns,
            Ref { idx: k },
        ) is Opaque) ==> operand_value(placed[k], run) == eval(ns, Ref { idx: k }, run.env)
    &&& forall|k: usize| #[trigger]
        placed.dom().contains(k) ==> (op_of(ns, Ref { idx: k }) matches Op::Param(owner, _) ==> owner
            == run.block)
}

proof fn lemma_frame_value(c: u64, base: u64)
    ensures
        frame_offset_spec(c, base) matches Some(x) ==> (if x >= 0 {
            wadd(base, x as u64)
        } else {
            wsub(base, (-x) as u64)
        }) == c,
{
    let up = wsub(c, base);
    let down = wsub(base, c);
    assert(wadd(base, up) == c && wsub(base, down) == c && (down == 0 ==> up == 0)) by {
        lemma_there_and_back(base, c);
    }
}

proof fn lemma_there_and_back(a: u64, c: u64)
    by (bit_vector)
    ensures
        ((a + ((c - a) as u64)) as u64) == c,
        ((a - ((a - c) as u64)) as u64) == c,
        ((a - c) as u64) == 0 ==> ((c - a) as u64) == 0,
        ((a - ((0u64 - c) as u64)) as u64) == ((a + c) as u64),
{
}

/// Scheduled code computes the expression: where the code's instructions hold, the operand
/// a node is placed at has the node's value. Nodes whose operands have theirs anyway may be
/// placed in any way.
pub proof fn scheduled_value(
    ns: Seq<Node>,
    instrs: Seq<Instr>,
    placed: Map<usize, Operand>,
    run: Run,
    r: Ref,
)
    requires
        nodes_ok(ns),
        has(ns, r),
        placed.dom().contains(r.idx),
        forall|k: usize| #[trigger]
            placed.dom().contains(k) && k < ns.len() ==> placed_ok(ns, instrs, placed, run.base, 0, k)
                || operand_value(placed[k], run) == eval(ns, Ref { idx: k }, run.env),
        forall|i: int| 0 <= i < instrs.len() ==> computes(#[trigger] instrs[i], run),
        agrees(ns, placed, run),
    ensures
        operand_value(placed[r.idx], run) == eval(ns, r, run.env),
    decreases r.idx,
{
    let k = r.idx;
    assert(r == Ref { idx: k });
    assert(ok_at(ns, k as int));
    let w = width_of(ns, r);
    let op = op_of(ns, r);
    lemma_members(op);
    if operand_value(placed[k], run) == eval(ns, r, run.env) {
    } else if leaf_operand(ns, r, run.base) == Some(placed[k]) {
        match op {
            Op::Const(c) => {
                lemma_mask(c, w.mask());
                lemma_frame_value(c, run.base);
            },
            Op::InitReg(reg) => {
                lemma_mask((run.env.regs)(reg), w.mask());
            },
            Op::Param(owner, reg) => {
                lemma_mask((run.env.params)(owner, reg), w.mask());
            },
            _ => {},
        }
    } else {
        let v = placed[k]->Val_0;
        let i = choose|i: int|
            0 <= i < instrs.len() && #[trigger] instrs[i] == node_instr(ns, r, placed, v, run.base);
        assert(computes(instrs[i], run));
        match op {
            Op::Bin(o, a, b) => {
                scheduled_value(ns, instrs, placed, run, a);
                scheduled_value(ns, instrs, placed, run, b);
                if let (BinOp::Add, Operand::Imm(c)) = (o, placed[b.idx]) {
                    lemma_frame_value(wsub(0, c), run.base);
                    lemma_there_and_back(eval(ns, a, run.env), c);
                }
            },
            Op::Un(_, a) => {
                scheduled_value(ns, instrs, placed, run, a);
            },
            Op::Zext(a) => {
                scheduled_value(ns, instrs, placed, run, a);
            },
            Op::Sext(a) => {
                scheduled_value(ns, instrs, placed, run, a);
            },
            Op::Trunc(a) => {
                scheduled_value(ns, instrs, placed, run, a);
            },
            Op::Select(c, a, b) => {
                scheduled_value(ns, instrs, placed, run, c);
                scheduled_value(ns, instrs, placed, run, a);
                scheduled_value(ns, instrs, placed, run, b);
            },
            _ => {},
        }
    }
}

} // verus!
