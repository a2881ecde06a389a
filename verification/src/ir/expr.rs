//! Hash-consed expression DAG for guest (symbolic) semantics.
//!
//! Everything the virtual machine needs in order to dispatch depends only on image
//! constants, the initial stack pointer and the bytecode position, so folding
//! expressions as they are built is what makes dispatch resolvable.

use crate::ir::fold::{
    bin_val, lemma_mask, low_zero_run_spec, mask_of_low_bits_spec, shift_count_spec,
    sign_extend_spec, un_val,
};
use crate::ir::hash;
use crate::ir::known::lemma_eval_fits;
pub use crate::ir::fold::{fold_bin, sign_extend};
pub use crate::ir::value::{BinOp, Reg, UnOp, Width, GPRS};
use std::collections::HashMap;
use crate::ir::rules::{found, literal, recorded};
use vstd::prelude::*;
use vstd::string::StringSliceAdditionalSpecFns;

verus! {

broadcast use vstd::std_specs::hash::group_hash_axioms;

/// Index into [`Arena`]. Cheap to copy and compare.
#[derive(Debug, Clone, Copy, PartialEq, Eq, Hash, PartialOrd, Ord, Structural)]
pub struct Ref {
    pub idx: usize,
}

/// Identity of a block, as referenced by [`Op::Param`].
///
/// A plain index into the graph's block list, kept separate from the identity the
/// recovery stage gives a block.
#[derive(Debug, Clone, Copy, PartialEq, Eq, Hash, PartialOrd, Ord, Structural)]
pub struct BlockRef(pub u32);

/// A node in the expression DAG. `width` is carried by [`Node`].
#[derive(Debug, Clone, Copy, PartialEq, Eq, Hash)]
pub enum Op {
    Const(u64),
    /// Initial value of a guest register on entry to the virtualized function.
    InitReg(Reg),
    /// Guest memory at an address, as of a memory generation. The generation keeps a
    /// load taken after a write from being shared with one taken before it.
    Load(Ref, u32),
    Bin(BinOp, Ref, Ref),
    Un(UnOp, Ref),
    /// Zero-extend the operand to this node's width.
    Zext(Ref),
    /// Sign-extend the operand to this node's width.
    Sext(Ref),
    /// Truncate the operand to this node's width.
    Trunc(Ref),
    /// `cond ? a : b`, cond is a 0/1 value.
    Select(Ref, Ref, Ref),
    /// Opaque result of an instruction the lifter does not model, identified by a tag
    /// and a number so that two occurrences are not taken for one.
    Opaque(&'static str, u32),
    /// Value of a guest register on entry to a recovered block: an SSA block
    /// parameter. The same register at two blocks is two different values.
    Param(BlockRef, Reg),
}

#[derive(Debug, Clone, Copy, PartialEq, Eq, Hash)]
pub struct Node {
    pub op: Op,
    pub width: Width,
}

/// A valuation of everything an expression can leave open.
pub ghost struct Env {
    pub regs: spec_fn(Reg) -> u64,
    pub mem: spec_fn(u64, u32, Width) -> u64,
    pub opaques: spec_fn(Seq<char>, u32, Width) -> u64,
    pub params: spec_fn(BlockRef, Reg) -> u64,
}

/// Some valuation, where any will do.
pub open spec fn some_env() -> Env {
    Env {
        regs: |r: Reg| 0u64,
        mem: |x: u64, g: u32, w: Width| 0u64,
        opaques: |t: Seq<char>, n: u32, w: Width| 0u64,
        params: |b: BlockRef, r: Reg| 0u64,
    }
}

/// Operands come before the node that uses them.
pub open spec fn operands_before(op: Op, i: int) -> bool {
    match op {
        Op::Const(_) | Op::InitReg(_) | Op::Opaque(_, _) | Op::Param(_, _) => true,
        Op::Load(a, _) | Op::Un(_, a) | Op::Zext(a) | Op::Sext(a) | Op::Trunc(a) => a.idx < i,
        Op::Bin(_, a, b) => a.idx < i && b.idx < i,
        Op::Select(c, a, b) => c.idx < i && a.idx < i && b.idx < i,
    }
}

/// The value of `r` under a valuation. Division by zero is read as zero.
pub open spec fn eval(ns: Seq<Node>, r: Ref, e: Env) -> u64
    decreases r.idx,
{
    if !(r.idx < ns.len() && operands_before(ns[r.idx as int].op, r.idx as int)) {
        0
    } else {
        let w = ns[r.idx as int].width;
        match ns[r.idx as int].op {
            Op::Const(c) => c & w.mask(),
            Op::InitReg(reg) => (e.regs)(reg) & w.mask(),
            Op::Load(a, gen_at) => (e.mem)(eval(ns, a, e), gen_at, w) & w.mask(),
            Op::Bin(op, a, b) => bin_val(
                op,
                eval(ns, a, e),
                eval(ns, b, e),
                width_of(ns, a).wider(width_of(ns, b)),
            ),
            Op::Un(op, a) => un_val(op, eval(ns, a, e), w),
            Op::Zext(a) => eval(ns, a, e),
            Op::Sext(a) => sign_extend_spec(eval(ns, a, e), width_of(ns, a)) & w.mask(),
            Op::Trunc(a) => eval(ns, a, e) & w.mask(),
            Op::Select(c, a, b) => if eval(ns, c, e) != 0 {
                eval(ns, a, e)
            } else {
                eval(ns, b, e) & w.mask()
            },
            Op::Opaque(tag, id) => (e.opaques)(tag@, id, w) & w.mask(),
            Op::Param(block, reg) => (e.params)(block, reg) & w.mask(),
        }
    }
}

pub open spec fn width_of(ns: Seq<Node>, r: Ref) -> Width {
    ns[r.idx as int].width
}

pub open spec fn op_of(ns: Seq<Node>, r: Ref) -> Op {
    ns[r.idx as int].op
}

pub open spec fn has(ns: Seq<Node>, r: Ref) -> bool {
    r.idx < ns.len()
}

/// Width of the node an operator makes over operands of the given widths.
pub open spec fn bin_width(op: BinOp, a: Width, b: Width) -> Width {
    if op.is_comparison() {
        Width::W8
    } else {
        a.wider(b)
    }
}

/// A node may be added at position `i`: its operands exist and its width is the one
/// its operator gives.
pub open spec fn node_ok(ns: Seq<Node>, n: Node, i: int) -> bool {
    &&& i <= ns.len()
    &&& operands_before(n.op, i)
    &&& match n.op {
        Op::Const(c) => c <= n.width.mask(),
        Op::InitReg(_) | Op::Param(_, _) => n.width == Width::W64,
        Op::Load(_, _) | Op::Opaque(_, _) => true,
        Op::Bin(op, a, b) => n.width == bin_width(op, width_of(ns, a), width_of(ns, b)),
        Op::Un(_, a) => n.width == width_of(ns, a),
        Op::Zext(a) | Op::Sext(a) => n.width.bits() > width_of(ns, a).bits(),
        Op::Trunc(a) => n.width.bits() < width_of(ns, a).bits(),
        Op::Select(_, a, _) => n.width == width_of(ns, a),
    }
}

pub open spec fn ok_at(ns: Seq<Node>, i: int) -> bool {
    node_ok(ns, ns[i], i)
}

pub open spec fn nodes_ok(ns: Seq<Node>) -> bool {
    forall|i: int| 0 <= i < ns.len() ==> #[trigger] ok_at(ns, i)
}

/// Two operations are the same computation. Tags count by their text.
pub open spec fn op_same(a: Op, b: Op) -> bool {
    match a {
        Op::Opaque(t1, n1) => match b {
            Op::Opaque(t2, n2) => t1@ == t2@ && n1 == n2,
            _ => false,
        },
        _ => a == b,
    }
}

pub open spec fn node_same(a: Node, b: Node) -> bool {
    a.width == b.width && op_same(a.op, b.op)
}

/// No computation is recorded twice, so equal computations have equal indices.
#[verifier::opaque]
pub open spec fn all_distinct(ns: Seq<Node>) -> bool {
    forall|i: int, j: int|
        0 <= i < j < ns.len() ==> !node_same(#[trigger] ns[i], #[trigger] ns[j])
}

/// `b` continues `a`.
pub open spec fn extends(a: Seq<Node>, b: Seq<Node>) -> bool {
    &&& a.len() <= b.len()
    &&& forall|i: int| 0 <= i < a.len() ==> #[trigger] b[i] == a[i]
}

/// Bits that are provably zero in `r`.
pub open spec fn known_zero_bits(ns: Seq<Node>, r: Ref) -> u64
    decreases r.idx,
{
    if !(r.idx < ns.len() && operands_before(ns[r.idx as int].op, r.idx as int)) {
        0
    } else {
        let w = ns[r.idx as int].width;
        let k = match ns[r.idx as int].op {
            Op::Const(c) => !c,
            Op::Bin(op, a, b) => {
                let ka = known_zero_bits(ns, a);
                let kb = known_zero_bits(ns, b);
                match op {
                    // A bit is zero if it is zero in either operand.
                    BinOp::And => ka | kb,
                    // Zero only where both are zero.
                    BinOp::Or | BinOp::Xor => ka & kb,
                    BinOp::Shl => match op_of(ns, b) {
                        Op::Const(c) => (ka << shift_count_spec(c, w)) | mask_of_low_bits_spec(
                            shift_count_spec(c, w) as u32,
                        ),
                        _ => 0,
                    },
                    BinOp::Shr => match op_of(ns, b) {
                        Op::Const(c) => (ka >> shift_count_spec(c, w)) | !(w.mask()
                            >> shift_count_spec(c, w)),
                        _ => 0,
                    },
                    // Carries only propagate upward, so a common run of low zero
                    // bits survives addition and subtraction.
                    BinOp::Add | BinOp::Sub => low_zero_run_spec(ka & kb),
                    BinOp::Mul => product_zero_run(ka, kb),
                    BinOp::Ult | BinOp::Slt | BinOp::Eq => !1u64,
                    _ => 0,
                }
            },
            Op::Zext(a) => known_zero_bits(ns, a) | !width_of(ns, a).mask(),
            Op::Trunc(a) => known_zero_bits(ns, a),
            Op::Select(_, a, b) => known_zero_bits(ns, a) & known_zero_bits(ns, b),
            Op::Un(UnOp::ParityByte, _) => !1u64,
            _ => 0,
        };
        // Bits above the node's width are always zero.
        k | !w.mask()
    }
}

/// Low bits a product is sure to have clear, given those clear in its factors.
pub open spec fn product_zero_run(ka: u64, kb: u64) -> u64 {
    mask_of_low_bits_spec(
        (vstd::std_specs::bits::u64_trailing_ones(ka) + vstd::std_specs::bits::u64_trailing_ones(
            kb,
        )) as u32,
    )
}

/// Bits that are provably one in `r`.
pub open spec fn known_one_bits(ns: Seq<Node>, r: Ref) -> u64
    decreases r.idx,
{
    if !(r.idx < ns.len() && operands_before(ns[r.idx as int].op, r.idx as int)) {
        0
    } else {
        let w = ns[r.idx as int].width;
        let k = match ns[r.idx as int].op {
            Op::Const(c) => c,
            Op::Bin(op, a, b) => {
                let oa = known_one_bits(ns, a);
                let ob = known_one_bits(ns, b);
                match op {
                    BinOp::And => oa & ob,
                    BinOp::Or => oa | ob,
                    // Set where exactly one is set *and* the other is known zero.
                    BinOp::Xor => (oa & known_zero_bits(ns, b)) | (ob & known_zero_bits(ns, a)),
                    BinOp::Shl => match op_of(ns, b) {
                        Op::Const(c) => oa << shift_count_spec(c, w),
                        _ => 0,
                    },
                    BinOp::Shr => match op_of(ns, b) {
                        Op::Const(c) => oa >> shift_count_spec(c, w),
                        _ => 0,
                    },
                    _ => 0,
                }
            },
            Op::Zext(a) | Op::Trunc(a) => known_one_bits(ns, a) & width_of(ns, a).mask(),
            // Set only where set on both arms, since the condition is unknown.
            Op::Select(_, a, b) => known_one_bits(ns, a) & known_one_bits(ns, b),
            // A bit known *zero* in the operand is known *one* after inverting.
            Op::Un(UnOp::Not, a) => known_zero_bits(ns, a),
            _ => 0,
        };
        k & w.mask()
    }
}

/// Growing an arena changes nothing about what it already holds.
pub proof fn lemma_extends(a: Seq<Node>, b: Seq<Node>, r: Ref, e: Env)
    requires
        extends(a, b),
        nodes_ok(a),
        has(a, r),
    ensures
        eval(b, r, e) == eval(a, r, e),
        known_zero_bits(b, r) == known_zero_bits(a, r),
        known_one_bits(b, r) == known_one_bits(a, r),
    decreases r.idx,
{
    assert(b[r.idx as int] == a[r.idx as int]);
    assert(ok_at(a, r.idx as int));
    match a[r.idx as int].op {
        Op::Load(x, _) | Op::Un(_, x) | Op::Zext(x) | Op::Sext(x) | Op::Trunc(x) => {
            lemma_extends(a, b, x, e);
            assert(b[x.idx as int] == a[x.idx as int]);
        },
        Op::Bin(_, x, y) => {
            lemma_extends(a, b, x, e);
            lemma_extends(a, b, y, e);
            assert(b[x.idx as int] == a[x.idx as int]);
            assert(b[y.idx as int] == a[y.idx as int]);
        },
        Op::Select(c, x, y) => {
            lemma_extends(a, b, c, e);
            lemma_extends(a, b, x, e);
            lemma_extends(a, b, y, e);
        },
        _ => {},
    }
}

/// Parts of an operation that tell it apart from others, for hashing.
pub open spec fn op_parts(op: Op) -> (u64, u64, u64, u64) {
    match op {
        Op::Const(c) => (1, c, 0, 0),
        Op::InitReg(r) => (2, r.number() as u64, 0, 0),
        Op::Load(a, g) => (3, a.idx as u64, g as u64, 0),
        Op::Bin(o, a, b) => (4, o.number(), a.idx as u64, b.idx as u64),
        Op::Un(o, a) => (5, o.number(), a.idx as u64, 0),
        Op::Zext(a) => (6, a.idx as u64, 0, 0),
        Op::Sext(a) => (7, a.idx as u64, 0, 0),
        Op::Trunc(a) => (8, a.idx as u64, 0, 0),
        Op::Select(c, a, b) => (9, c.idx as u64, a.idx as u64, b.idx as u64),
        Op::Opaque(_, n) => (10, n as u64, 0, 0),
        Op::Param(b, r) => (11, b.0 as u64, r.number() as u64, 0),
    }
}

pub open spec fn key_step(h: u64, v: u64) -> u64 {
    vstd::wrapping::u64_specs::wrapping_mul(h ^ v, hash::FNV1A_PRIME)
}

/// Lookup key of a node. Equal nodes have equal keys.
#[verifier::opaque]
pub open spec fn node_key(n: Node) -> u64 {
    let p = op_parts(n.op);
    key_step(key_step(key_step(key_step(p.0 ^ (n.width.bytes() as u64), p.1), p.2), p.3), p.1)
}

fn key_of(n: &Node) -> (r: u64)
    ensures
        r == node_key(*n),
{
    reveal(node_key);
    let p: (u64, u64, u64, u64) = match n.op {
        Op::Const(c) => (1, c, 0, 0),
        Op::InitReg(r) => (2, r.number() as u64, 0, 0),
        Op::Load(a, g) => (3, a.idx as u64, g as u64, 0),
        Op::Bin(o, a, b) => (4, o.number(), a.idx as u64, b.idx as u64),
        Op::Un(o, a) => (5, o.number(), a.idx as u64, 0),
        Op::Zext(a) => (6, a.idx as u64, 0, 0),
        Op::Sext(a) => (7, a.idx as u64, 0, 0),
        Op::Trunc(a) => (8, a.idx as u64, 0, 0),
        Op::Select(c, a, b) => (9, c.idx as u64, a.idx as u64, b.idx as u64),
        Op::Opaque(_, n) => (10, n as u64, 0, 0),
        Op::Param(b, r) => (11, b.0 as u64, r.number() as u64, 0),
    };
    let h0: u64 = p.0 ^ (n.width.bytes() as u64);
    let h1: u64 = (h0 ^ p.1).wrapping_mul(hash::FNV1A_PRIME);
    let h2: u64 = (h1 ^ p.2).wrapping_mul(hash::FNV1A_PRIME);
    let h3: u64 = (h2 ^ p.3).wrapping_mul(hash::FNV1A_PRIME);
    (h3 ^ p.1).wrapping_mul(hash::FNV1A_PRIME)
}

/// Whether two strings hold the same text.
pub fn same_text(a: &str, b: &str) -> (r: bool)
    ensures
        r == (a@ == b@),
{
    let x = a.as_bytes();
    let y = b.as_bytes();
    proof {
        vstd::utf8::encode_utf8_decode_utf8(a@);
        vstd::utf8::encode_utf8_decode_utf8(b@);
    }
    if x.len() != y.len() {
        return false;
    }
    let mut i: usize = 0;
    while i < x.len()
        invariant
            i <= x@.len(),
            x@.len() == y@.len(),
            x@ == a.spec_bytes(),
            y@ == b.spec_bytes(),
            forall|j: int| 0 <= j < i ==> x@[j] == y@[j],
        decreases x@.len() - i,
    {
        if x[i] != y[i] {
            return false;
        }
        i = i + 1;
    }
    proof {
        assert(x@ =~= y@);
    }
    true
}

fn same_op(a: &Op, b: &Op) -> (r: bool)
    ensures
        r == op_same(*a, *b),
{
    match *a {
        Op::Const(x) => match *b {
            Op::Const(y) => x == y,
            _ => false,
        },
        Op::InitReg(x) => match *b {
            Op::InitReg(y) => x == y,
            _ => false,
        },
        Op::Load(x, g) => match *b {
            Op::Load(y, h) => x == y && g == h,
            _ => false,
        },
        Op::Bin(o, x1, x2) => match *b {
            Op::Bin(p, y1, y2) => o == p && x1 == y1 && x2 == y2,
            _ => false,
        },
        Op::Un(o, x) => match *b {
            Op::Un(p, y) => o == p && x == y,
            _ => false,
        },
        Op::Zext(x) => match *b {
            Op::Zext(y) => x == y,
            _ => false,
        },
        Op::Sext(x) => match *b {
            Op::Sext(y) => x == y,
            _ => false,
        },
        Op::Trunc(x) => match *b {
            Op::Trunc(y) => x == y,
            _ => false,
        },
        Op::Select(x0, x1, x2) => match *b {
            Op::Select(y0, y1, y2) => x0 == y0 && x1 == y1 && x2 == y2,
            _ => false,
        },
        Op::Opaque(t, n) => match *b {
            Op::Opaque(u, m) => n == m && same_text(t, u),
            _ => false,
        },
        Op::Param(x, r) => match *b {
            Op::Param(y, s) => x == y && r == s,
            _ => false,
        },
    }
}

/// How many levels `trunc` is pushed through arithmetic before it is left in
/// place. The masking idioms are shallow, so a small bound keeps the rewrite
/// effective without letting it rebuild deep expression trees repeatedly.
pub const TRUNC_DISTRIBUTE_DEPTH: u32 = 6;

/// Hash-consing arena. All expression construction goes through here so that
/// structural equality is equality of references.
#[derive(Debug)]
pub struct Arena {
    pub nodes: Vec<Node>,
    /// The latest node with each lookup key.
    pub heads: HashMap<u64, usize>,
    /// For each node the one before it with the same key, or itself when there is none.
    pub links: Vec<usize>,
    /// Distinguishes two occurrences of the same unmodelled instruction. Incremented
    /// *before* use, which is what lets [`Arena::undef`] reserve 0 for its shared nodes.
    pub opaque_counter: u32,
    /// Current memory generation, stamped onto every [`Op::Load`].
    pub mem_gen: u32,
    /// Memoized known-zero bit masks. Nodes never change, so these stay right.
    pub zero_memo: HashMap<usize, u64>,
    pub one_memo: HashMap<usize, u64>,
    /// Current nesting depth of truncation distribution.
    pub trunc_depth: u32,
}

/// The lookup table finds every node by its key.
#[verifier::opaque]
pub open spec fn table_ok(ns: Seq<Node>, heads: Map<u64, usize>, links: Seq<usize>) -> bool {
    &&& links.len() == ns.len()
    &&& forall|k: u64| #[trigger]
        heads.dom().contains(k) ==> heads[k] < ns.len() && node_key(ns[heads[k] as int]) == k
    &&& forall|i: int|
        0 <= i < ns.len() ==> heads.dom().contains(node_key(#[trigger] ns[i])) && i
            <= heads[node_key(ns[i])]
    &&& forall|i: int|
        0 <= i < ns.len() ==> #[trigger] links[i] <= i && node_key(ns[links[i] as int])
            == node_key(ns[i])
    &&& forall|i: int, j: int|
        0 <= j < i < ns.len() && (#[trigger] links[i] == i || links[i] < j) ==> node_key(
            #[trigger] ns[j],
        ) != node_key(ns[i])
}

#[verifier::opaque]
pub open spec fn zero_memo_ok(ns: Seq<Node>, memo: Map<usize, u64>) -> bool {
    forall|k: usize| #[trigger]
        memo.dom().contains(k) ==> k < ns.len() && memo[k] == known_zero_bits(ns, Ref { idx: k })
}

#[verifier::opaque]
pub open spec fn one_memo_ok(ns: Seq<Node>, memo: Map<usize, u64>) -> bool {
    forall|k: usize| #[trigger]
        memo.dom().contains(k) ==> k < ns.len() && memo[k] == known_one_bits(ns, Ref { idx: k })
}

/// Whether the number of an opaque value was handed out by the counter.
pub open spec fn counted(op: Op, counter: u32) -> bool {
    op matches Op::Opaque(_, n) ==> n <= counter
}

/// Every opaque value of the arena was numbered by its counter.
#[verifier::opaque]
pub open spec fn opaques_counted(ns: Seq<Node>, counter: u32) -> bool {
    forall|i: int| 0 <= i < ns.len() ==> counted((#[trigger] ns[i]).op, counter)
}

/// A computation that is recorded is found where it is.
proof fn lemma_found(ns: Seq<Node>, node: Node, i: int)
    requires
        all_distinct(ns),
        0 <= i < ns.len(),
        i <= usize::MAX,
        node_same(ns[i], node),
    ensures
        found(ns, node) == Some(Ref { idx: i as usize }),
{
    reveal(all_distinct);
    let j = choose|j: int| 0 <= j < ns.len() && node_same(#[trigger] ns[j], node);
    assert(node_same(ns[j], node));
    if i < j {
        assert(node_same(ns[i], ns[j]));
    } else if j < i {
        assert(node_same(ns[j], ns[i]));
    }
}

impl Arena {
    pub open spec fn wf(self) -> bool {
        &&& nodes_ok(self.nodes@)
        &&& all_distinct(self.nodes@)
        &&& table_ok(self.nodes@, self.heads@, self.links@)
        &&& zero_memo_ok(self.nodes@, self.zero_memo@)
        &&& one_memo_ok(self.nodes@, self.one_memo@)
        &&& opaques_counted(self.nodes@, self.opaque_counter)
    }

    /// `r` is a node of this arena.
    pub open spec fn holds(self, r: Ref) -> bool {
        has(self.nodes@, r)
    }

    pub open spec fn width_spec(&self, r: Ref) -> Width {
        width_of(self.nodes@, r)
    }

    /// This arena continues `before`: what was there is unchanged, in itself and in
    /// what it evaluates to.
    pub open spec fn continues(self, before: Arena) -> bool {
        &&& self.wf()
        &&& extends(before.nodes@, self.nodes@)
        &&& forall|r: Ref, e: Env|
            has(before.nodes@, r) ==> #[trigger] eval(self.nodes@, r, e) == eval(
                before.nodes@,
                r,
                e,
            )
        &&& forall|r: Ref|
            has(before.nodes@, r) ==> #[trigger] known_zero_bits(self.nodes@, r)
                == known_zero_bits(before.nodes@, r)
        &&& self.trunc_depth == before.trunc_depth
        &&& self.opaque_counter >= before.opaque_counter
    }

    /// [`Arena::continues`], with the counters untouched.
    pub open spec fn grows(self, before: Arena) -> bool {
        &&& self.continues(before)
        &&& self.opaque_counter == before.opaque_counter
        &&& self.mem_gen == before.mem_gen
    }

    pub fn new() -> (r: Self)
        ensures
            r.wf(),
            r.nodes@.len() == 0,
            r.opaque_counter == 0,
            r.mem_gen == 0,
            r.trunc_depth == 0,
    {
        proof {
            reveal(all_distinct);
            reveal(table_ok);
            reveal(zero_memo_ok);
            reveal(one_memo_ok);
            reveal(opaques_counted);
        }
        Arena {
            nodes: Vec::new(),
            heads: HashMap::new(),
            links: Vec::new(),
            opaque_counter: 0,
            mem_gen: 0,
            zero_memo: HashMap::new(),
            one_memo: HashMap::new(),
            trunc_depth: 0,
        }
    }

    pub fn len(&self) -> (r: usize)
        ensures
            r == self.nodes@.len(),
    {
        self.nodes.len()
    }

    pub fn op(&self, r: Ref) -> (o: &Op)
        requires
            self.holds(r),
        ensures
            *o == op_of(self.nodes@, r),
    {
        &self.nodes[r.idx].op
    }

    #[verifier::when_used_as_spec(width_spec)]
    pub fn width(&self, r: Ref) -> (w: Width)
        requires
            self.holds(r),
        ensures
            w == self.width_spec(r),
    {
        self.nodes[r.idx].width
    }

    /// The node already recorded for a computation, if there is one.
    pub fn find(&self, node: &Node) -> (r: Option<Ref>)
        requires
            self.wf(),
        ensures
            r == found(self.nodes@, *node),
            r matches Some(x) ==> self.holds(x) && node_same(self.nodes@[x.idx as int], *node),
            r is None ==> forall|i: int|
                0 <= i < self.nodes@.len() ==> !node_same(#[trigger] self.nodes@[i], *node),
    {
        reveal(table_ok);
        let key = key_of(node);
        let head: usize = match self.heads.get(&key) {
            Some(h) => *h,
            None => {
                proof {
                    assert forall|i: int| 0 <= i < self.nodes@.len() implies !node_same(
                        #[trigger] self.nodes@[i],
                        *node,
                    ) by {
                        lemma_same_key(self.nodes@[i], *node);
                    }
                }
                return None;
            },
        };
        let mut cur: usize = head;
        proof {
            assert forall|i: int| head < i < self.nodes@.len() implies !node_same(
                #[trigger] self.nodes@[i],
                *node,
            ) by {
                lemma_same_key(self.nodes@[i], *node);
            }
        }
        loop
            invariant
                all_distinct(self.nodes@),
                table_ok(self.nodes@, self.heads@, self.links@),
                key == node_key(*node),
                cur < self.nodes@.len(),
                node_key(self.nodes@[cur as int]) == key,
                forall|i: int|
                    cur < i < self.nodes@.len() ==> !node_same(#[trigger] self.nodes@[i], *node),
            decreases cur,
        {
            proof {
                reveal(table_ok);
            }
            if self.nodes[cur].width == node.width && same_op(&self.nodes[cur].op, &node.op) {
                proof {
                    lemma_found(self.nodes@, *node, cur as int);
                }
                return Some(Ref { idx: cur });
            }
            let prev: usize = self.links[cur];
            proof {
                assert forall|i: int|
                    0 <= i < cur && (prev == cur || prev < i) implies !node_same(
                    #[trigger] self.nodes@[i],
                    *node,
                ) by {
                    lemma_same_key(self.nodes@[i], *node);
                }
            }
            if prev == cur {
                return None;
            }
            cur = prev;
        }
    }

    /// Record a computation, or find it already recorded.
    pub fn intern(&mut self, node: Node) -> (r: Ref)
        requires
            old(self).wf(),
            node_ok(old(self).nodes@, node, old(self).nodes@.len() as int),
            counted(node.op, old(self).opaque_counter),
        ensures
            (final(self).nodes@, r) == recorded(old(self).nodes@, node),
            final(self).grows(*old(self)),
            final(self).holds(r),
            node_same(final(self).nodes@[r.idx as int], node),
            ok_at(final(self).nodes@, r.idx as int),
            final(self).nodes@ == old(self).nodes@ || (final(self).nodes@ == old(self).nodes@.push(
                node,
            ) && r.idx == old(self).nodes@.len()),
            (forall|i: int|
                0 <= i < old(self).nodes@.len() ==> !node_same(#[trigger] old(self).nodes@[i], node))
                ==> r.idx == old(self).nodes@.len(),
    {
        if let Some(r) = self.find(&node) {
            return r;
        }
        reveal(table_ok);
        let key = key_of(&node);
        let i: usize = self.nodes.len();
        let prev: usize = match self.heads.get(&key) {
            Some(h) => *h,
            None => i,
        };
        let ghost before = *self;
        self.nodes.push(node);
        self.links.push(prev);
        self.heads.insert(key, i);
        proof {
            lemma_push_ok(before.nodes@, node);
            lemma_push_table(before.nodes@, before.heads@, before.links@, node, prev);
            lemma_memos_survive(before, *self);
            reveal(opaques_counted);
        }
        Ref { idx: i }
    }

    /// The constant `value`, cut to `width`.
    pub fn constant(&mut self, value: u64, width: Width) -> (r: Ref)
        requires
            old(self).wf(),
        ensures
            (final(self).nodes@, r) == literal(old(self).nodes@, value, width),
            final(self).grows(*old(self)),
            final(self).holds(r),
            op_of(final(self).nodes@, r) == Op::Const(value & width.mask()),
            final(self).width(r) == width,
            forall|e: Env| #[trigger] eval(final(self).nodes@, r, e) == value & width.mask(),
    {
        proof {
            lemma_mask(value, width.mask());
        }
        self.intern(Node { op: Op::Const(value & width.mask()), width })
    }

    /// The value of `reg` on entry to the function.
    pub fn init_reg(&mut self, reg: Reg) -> (r: Ref)
        requires
            old(self).wf(),
        ensures
            (final(self).nodes@, r) == recorded(
                old(self).nodes@,
                (Node { op: Op::InitReg(reg), width: Width::W64 }),
            ),
            final(self).grows(*old(self)),
            final(self).holds(r),
            op_of(final(self).nodes@, r) == Op::InitReg(reg),
            final(self).width(r) == Width::W64,
    {
        self.intern(Node { op: Op::InitReg(reg), width: Width::W64 })
    }

    /// A load at the current memory generation.
    pub fn load(&mut self, addr: Ref, width: Width) -> (r: Ref)
        requires
            old(self).wf(),
            old(self).holds(addr),
        ensures
            (final(self).nodes@, r) == recorded(
                old(self).nodes@,
                (Node { op: Op::Load(addr, old(self).mem_gen), width }),
            ),
            final(self).grows(*old(self)),
            final(self).holds(r),
            op_of(final(self).nodes@, r) == Op::Load(addr, old(self).mem_gen),
            final(self).width(r) == width,
    {
        let gen_at: u32 = self.mem_gen;
        self.intern(Node { op: Op::Load(addr, gen_at), width })
    }

    /// A load carrying an explicit generation, for rebuilding one that already exists.
    pub fn load_at(&mut self, addr: Ref, width: Width, gen_at: u32) -> (r: Ref)
        requires
            old(self).wf(),
            old(self).holds(addr),
        ensures
            (final(self).nodes@, r) == recorded(
                old(self).nodes@,
                (Node { op: Op::Load(addr, gen_at), width }),
            ),
            final(self).grows(*old(self)),
            final(self).holds(r),
            op_of(final(self).nodes@, r) == Op::Load(addr, gen_at),
            final(self).width(r) == width,
            forall|e: Env| #[trigger]
                eval(final(self).nodes@, r, e) == (e.mem)(
                    eval(old(self).nodes@, addr, e),
                    gen_at,
                    width,
                ) & width.mask(),
    {
        let r = self.intern(Node { op: Op::Load(addr, gen_at), width });
        proof {
            assert forall|e: Env| #[trigger]
                eval(self.nodes@, r, e) == (e.mem)(eval(old(self).nodes@, addr, e), gen_at, width)
                    & width.mask() by {
                assert(eval(self.nodes@, addr, e) == eval(old(self).nodes@, addr, e));
            }
        }
        r
    }

    /// Note that guest memory has changed, so later loads cannot be shared with earlier
    /// ones. See [`Op::Load`].
    pub fn bump_mem_gen(&mut self)
        requires
            old(self).wf(),
        ensures
            final(self).continues(*old(self)),
            final(self).nodes@ == old(self).nodes@,
            final(self).opaque_counter == old(self).opaque_counter,
            final(self).mem_gen == vstd::wrapping::u32_specs::wrapping_add(old(self).mem_gen, 1),
    {
        self.mem_gen = self.mem_gen.wrapping_add(1);
    }

    /// The generation later loads will be stamped with.
    pub fn mem_gen(&self) -> (r: u32)
        ensures
            r == self.mem_gen,
    {
        self.mem_gen
    }

    /// A value nothing is known of, different from every other one. The numbers that tell
    /// them apart last for as many calls as there are numbers.
    pub fn opaque(&mut self, tag: &'static str, width: Width) -> (r: Ref)
        requires
            old(self).wf(),
        ensures
            final(self).continues(*old(self)),
            final(self).holds(r),
            final(self).mem_gen == old(self).mem_gen,
            final(self).opaque_counter == (if old(self).opaque_counter < u32::MAX {
                old(self).opaque_counter + 1
            } else {
                u32::MAX as int
            }),
            final(self).opaque_counter != 0,
            op_same(
                op_of(final(self).nodes@, r),
                Op::Opaque(tag, final(self).opaque_counter),
            ),
            final(self).width(r) == width,
            old(self).opaque_counter < u32::MAX ==> r.idx == old(self).nodes@.len()
                && final(self).nodes@.len() == old(self).nodes@.len() + 1,
    {
        let ghost before = *self;
        if self.opaque_counter < u32::MAX {
            self.opaque_counter = self.opaque_counter + 1;
        }
        let id: u32 = self.opaque_counter;
        let node = Node { op: Op::Opaque(tag, id), width };
        proof {
            reveal(opaques_counted);
            if before.opaque_counter < u32::MAX {
                assert forall|i: int| 0 <= i < self.nodes@.len() implies !node_same(
                    #[trigger] self.nodes@[i],
                    node,
                ) by {
                    assert(counted(self.nodes@[i].op, before.opaque_counter));
                }
            }
        }
        let r = self.intern(node);
        proof {
            assert(self.continues(before));
        }
        r
    }

    /// An opaque that every call with the same tag *shares*, unlike [`Self::opaque`].
    /// For a value the architecture leaves undefined rather than merely unknown.
    pub fn undef(&mut self, tag: &'static str, width: Width) -> (r: Ref)
        requires
            old(self).wf(),
        ensures
            (final(self).nodes@, r) == recorded(
                old(self).nodes@,
                (Node { op: Op::Opaque(tag, 0), width }),
            ),
            final(self).grows(*old(self)),
            final(self).holds(r),
            op_same(op_of(final(self).nodes@, r), Op::Opaque(tag, 0)),
            final(self).width(r) == width,
    {
        self.intern(Node { op: Op::Opaque(tag, 0), width })
    }

    /// A block parameter: the value of `reg` on entry to `block`.
    pub fn param(&mut self, block: BlockRef, reg: Reg) -> (r: Ref)
        requires
            old(self).wf(),
        ensures
            (final(self).nodes@, r) == recorded(
                old(self).nodes@,
                (Node { op: Op::Param(block, reg), width: Width::W64 }),
            ),
            final(self).grows(*old(self)),
            final(self).holds(r),
            op_of(final(self).nodes@, r) == Op::Param(block, reg),
            final(self).width(r) == Width::W64,
    {
        self.intern(Node { op: Op::Param(block, reg), width: Width::W64 })
    }

    /// Direct operands of a node, in evaluation order.
    pub fn children(&self, r: Ref) -> (c: Vec<Ref>)
        requires
            self.wf(),
            self.holds(r),
        ensures
            c@ == operands(op_of(self.nodes@, r)),
            forall|i: int| 0 <= i < c@.len() ==> (#[trigger] c@[i]).idx < r.idx,
    {
        proof {
            assert(ok_at(self.nodes@, r.idx as int));
        }
        match *self.op(r) {
            Op::Const(_) | Op::InitReg(_) | Op::Opaque(_, _) | Op::Param(_, _) => Vec::new(),
            Op::Load(a, _) | Op::Un(_, a) | Op::Zext(a) | Op::Sext(a) | Op::Trunc(a) => vec![a],
            Op::Bin(_, a, b) => vec![a, b],
            Op::Select(c, a, b) => vec![c, a, b],
        }
    }

    /// Constant value of `r`, if it is one.
    pub fn as_const(&self, r: Ref) -> (c: Option<u64>)
        requires
            self.wf(),
            self.holds(r),
        ensures
            c == const_of(self.nodes@, r),
            c matches Some(v) ==> v <= self.width(r).mask() && forall|e: Env| #[trigger]
                eval(self.nodes@, r, e) == v,
    {
        proof {
            assert(ok_at(self.nodes@, r.idx as int));
        }
        match *self.op(r) {
            Op::Const(c) => {
                proof {
                    lemma_mask(c, self.width(r).mask());
                }
                Some(c)
            },
            _ => None,
        }
    }

    pub fn is_const(&self, r: Ref) -> (b: bool)
        requires
            self.holds(r),
        ensures
            b == const_of(self.nodes@, r) is Some,
    {
        match *self.op(r) {
            Op::Const(_) => true,
            _ => false,
        }
    }

    /// The operator and operands of `r`, if it is a binary operation.
    pub fn as_bin(&self, r: Ref) -> (b: Option<(BinOp, Ref, Ref)>)
        requires
            self.wf(),
            self.holds(r),
        ensures
            b matches Some(t) ==> op_of(self.nodes@, r) == Op::Bin(t.0, t.1, t.2) && is_bin(
                self.nodes@,
                r,
                t.0,
                t.1,
                t.2,
            ) && fits(self.nodes@, t.1) && fits(self.nodes@, t.2),
            b is None ==> !(op_of(self.nodes@, r) is Bin),
    {
        proof {
            assert(ok_at(self.nodes@, r.idx as int));
        }
        match *self.op(r) {
            Op::Bin(o, a, b) => {
                proof {
                    lemma_fits(self.nodes@, a);
                    lemma_fits(self.nodes@, b);
                }
                Some((o, a, b))
            },
            _ => None,
        }
    }

    /// The operand of `r`, if it is a complement.
    pub fn as_not(&self, r: Ref) -> (b: Option<Ref>)
        requires
            self.wf(),
            self.holds(r),
        ensures
            b matches Some(x) ==> op_of(self.nodes@, r) == Op::Un(UnOp::Not, x) && is_not(
                self.nodes@,
                r,
                x,
            ) && fits(self.nodes@, x),
            b is None ==> !(op_of(self.nodes@, r) matches Op::Un(UnOp::Not, _)),
    {
        proof {
            assert(ok_at(self.nodes@, r.idx as int));
        }
        match *self.op(r) {
            Op::Un(UnOp::Not, x) => {
                proof {
                    lemma_fits(self.nodes@, x);
                }
                Some(x)
            },
            _ => None,
        }
    }
}

/// `r` is a node that computes `a op b`.
pub open spec fn is_bin(ns: Seq<Node>, r: Ref, op: BinOp, a: Ref, b: Ref) -> bool {
    &&& a.idx < r.idx
    &&& b.idx < r.idx
    &&& width_of(ns, r) == bin_width(op, width_of(ns, a), width_of(ns, b))
    &&& forall|e: Env| #[trigger]
        eval(ns, r, e) == bin_val(
            op,
            eval(ns, a, e),
            eval(ns, b, e),
            width_of(ns, a).wider(width_of(ns, b)),
        )
}

/// `r` is a node that computes `!x`.
pub open spec fn is_not(ns: Seq<Node>, r: Ref, x: Ref) -> bool {
    &&& x.idx < r.idx
    &&& width_of(ns, r) == width_of(ns, x)
    &&& forall|e: Env| #[trigger] eval(ns, r, e) == !eval(ns, x, e) & width_of(ns, x).mask()
}

/// Every value of `r` fits the width of its node.
pub open spec fn fits(ns: Seq<Node>, r: Ref) -> bool {
    forall|e: Env| #[trigger] eval(ns, r, e) <= width_of(ns, r).mask()
}

pub proof fn lemma_fits(ns: Seq<Node>, r: Ref)
    requires
        nodes_ok(ns),
        has(ns, r),
    ensures
        fits(ns, r),
{
    assert forall|e: Env| #[trigger] eval(ns, r, e) <= width_of(ns, r).mask() by {
        lemma_eval_fits(ns, r, e);
    }
}

/// Whether a node is a constant.
pub open spec fn is_const(ns: Seq<Node>, r: Ref) -> bool {
    const_of(ns, r) is Some
}

pub open spec fn const_of(ns: Seq<Node>, r: Ref) -> Option<u64> {
    match op_of(ns, r) {
        Op::Const(c) => Some(c),
        _ => None,
    }
}

/// Direct operands of an operation, in evaluation order.
pub open spec fn operands(op: Op) -> Seq<Ref> {
    match op {
        Op::Const(_) | Op::InitReg(_) | Op::Opaque(_, _) | Op::Param(_, _) => seq![],
        Op::Load(a, _) | Op::Un(_, a) | Op::Zext(a) | Op::Sext(a) | Op::Trunc(a) => seq![a],
        Op::Bin(_, a, b) => seq![a, b],
        Op::Select(c, a, b) => seq![c, a, b],
    }
}

impl Default for Arena {
    fn default() -> (r: Self)
        ensures
            r.wf(),
            r.nodes@.len() == 0,
            r.opaque_counter == 0,
            r.mem_gen == 0,
            r.trunc_depth == 0,
    {
        Arena::new()
    }
}

/// The memoized masks are left behind: they are cheaper to recompute on demand than
/// to carry.
impl Clone for Arena {
    fn clone(&self) -> (r: Self)
        ensures
            r.nodes@ == self.nodes@,
            r.opaque_counter == self.opaque_counter,
            r.mem_gen == self.mem_gen,
            r.trunc_depth == self.trunc_depth,
            self.wf() ==> r.wf(),
    {
        proof {
            reveal(zero_memo_ok);
            reveal(one_memo_ok);
        }
        Arena {
            nodes: self.nodes.clone(),
            heads: self.heads.clone(),
            links: self.links.clone(),
            opaque_counter: self.opaque_counter,
            mem_gen: self.mem_gen,
            zero_memo: HashMap::new(),
            one_memo: HashMap::new(),
            trunc_depth: self.trunc_depth,
        }
    }
}

/// A load after a write is not the load before it: loads of different generations are
/// different nodes.
pub proof fn loads_around_a_write_are_two_nodes(
    arena: Arena,
    addr: Ref,
    before: Ref,
    after: Ref,
    gen_at: u32,
)
    requires
        arena.wf(),
        op_of(arena.nodes@, before) == Op::Load(addr, gen_at),
        op_of(arena.nodes@, after) == Op::Load(
            addr,
            vstd::wrapping::u32_specs::wrapping_add(gen_at, 1),
        ),
    ensures
        before != after,
{
}

/// Equal computations are one node: two references whose nodes are the same computation
/// are the same reference.
pub proof fn equal_computations_are_one_node(arena: Arena, a: Ref, b: Ref)
    requires
        arena.wf(),
        arena.holds(a),
        arena.holds(b),
        node_same(arena.nodes@[a.idx as int], arena.nodes@[b.idx as int]),
    ensures
        a == b,
{
    reveal(all_distinct);
    let x = arena.nodes@[a.idx as int];
    let y = arena.nodes@[b.idx as int];
    assert(node_same(y, x));
    assert(!(a.idx < b.idx) && !(b.idx < a.idx));
}

proof fn lemma_push_ok(a: Seq<Node>, node: Node)
    requires
        nodes_ok(a),
        all_distinct(a),
        node_ok(a, node, a.len() as int),
        forall|i: int| 0 <= i < a.len() ==> !node_same(#[trigger] a[i], node),
    ensures
        nodes_ok(a.push(node)),
        all_distinct(a.push(node)),
        extends(a, a.push(node)),
{
    reveal(all_distinct);
    let b = a.push(node);
    assert forall|j: int| 0 <= j < b.len() implies #[trigger] ok_at(b, j) by {
        if j < a.len() {
            assert(ok_at(a, j));
        }
    }
}

proof fn lemma_push_table(
    a: Seq<Node>,
    heads: Map<u64, usize>,
    links: Seq<usize>,
    node: Node,
    prev: usize,
)
    requires
        table_ok(a, heads, links),
        a.len() <= usize::MAX,
        heads.dom().contains(node_key(node)) ==> prev == heads[node_key(node)],
        !heads.dom().contains(node_key(node)) ==> prev == a.len(),
    ensures
        table_ok(a.push(node), heads.insert(node_key(node), a.len() as usize), links.push(prev)),
{
    reveal(table_ok);
    let b = a.push(node);
    let k = node_key(node);
    let n = a.len() as int;
    let h2 = heads.insert(k, a.len() as usize);
    let l2 = links.push(prev);
    assert forall|i: int| 0 <= i < b.len() implies h2.dom().contains(node_key(#[trigger] b[i]))
        && i <= h2[node_key(b[i])] by {
        if i < n {
            assert(b[i] == a[i]);
        }
    }
    assert forall|i: int| 0 <= i < b.len() implies #[trigger] l2[i] <= i && node_key(
        b[l2[i] as int],
    ) == node_key(b[i]) by {
        if i < n {
            assert(l2[i] == links[i]);
            assert(links[i] <= i);
            assert(b[links[i] as int] == a[links[i] as int]);
        }
    }
    assert forall|i: int, j: int|
        0 <= j < i < b.len() && (#[trigger] l2[i] == i || l2[i] < j) implies node_key(
        #[trigger] b[j],
    ) != node_key(b[i]) by {
        assert(b[j] == a[j]);
        if i < n {
            assert(l2[i] == links[i]);
        } else {
            assert(l2[i] == prev);
            assert(heads.dom().contains(node_key(a[j])) && j <= heads[node_key(a[j])]);
        }
    }
    assert forall|q: u64| #[trigger] h2.dom().contains(q) implies h2[q] < b.len() && node_key(
        b[h2[q] as int],
    ) == q by {
        if q != k {
            assert(heads.dom().contains(q));
            assert(b[heads[q] as int] == a[heads[q] as int]);
        }
    }
}

proof fn lemma_same_key(a: Node, b: Node)
    ensures
        node_same(a, b) ==> node_key(a) == node_key(b),
{
    reveal(node_key);
}

/// What held of the memoized masks still holds after nodes were added.
proof fn lemma_memos_survive(before: Arena, after: Arena)
    requires
        before.wf(),
        extends(before.nodes@, after.nodes@),
        after.zero_memo@ == before.zero_memo@,
        after.one_memo@ == before.one_memo@,
    ensures
        zero_memo_ok(after.nodes@, after.zero_memo@),
        one_memo_ok(after.nodes@, after.one_memo@),
        forall|r: Ref, e: Env|
            has(before.nodes@, r) ==> #[trigger] eval(after.nodes@, r, e) == eval(
                before.nodes@,
                r,
                e,
            ),
        forall|r: Ref|
            has(before.nodes@, r) ==> #[trigger] known_zero_bits(after.nodes@, r)
                == known_zero_bits(before.nodes@, r),
{
    reveal(zero_memo_ok);
    reveal(one_memo_ok);
    let a = before.nodes@;
    let b = after.nodes@;
    let any = some_env();
    assert forall|r: Ref, e: Env| has(a, r) implies #[trigger] eval(b, r, e) == eval(a, r, e) by {
        lemma_extends(a, b, r, e);
    }
    assert forall|r: Ref| has(a, r) implies #[trigger] known_zero_bits(b, r) == known_zero_bits(
        a,
        r,
    ) by {
        lemma_extends(a, b, r, any);
    }
    assert forall|k: usize| #[trigger] after.one_memo@.dom().contains(k) implies k < b.len()
        && after.one_memo@[k] == known_one_bits(b, Ref { idx: k }) by {
        lemma_extends(a, b, Ref { idx: k }, any);
    }
}

} // verus!
