//! The shape of an expression: a hash of it that no arena takes part in, and its text.

use crate::ir::expr::{has, ok_at, op_of, width_of, Arena, BlockRef, Node, Op, Ref, UnOp};
use crate::ir::hash;
use crate::ir::hash::{fnv_bytes, fnv_u64};
use crate::ir::text::{decimal_text, hex_text, push_decimal, push_hex};
use vstd::prelude::*;
use vstd::string::{StringExecFns, StringSliceAdditionalSpecFns};

verus! {

/// FNV-1a over the shape of `r` down to `depth` levels, continuing from `h`.
///
/// The generation of a load is left out: it is a local counter, so two identical program
/// points reached by different paths would otherwise hash differently.
pub open spec fn shape_hash(ns: Seq<Node>, r: Ref, depth: nat, h: u64) -> u64
    decreases depth,
{
    let h = fnv_u64(width_of(ns, r).bytes() as u64, h);
    if depth == 0 {
        fnv_u64(0xdeadbeef, h)
    } else {
        let d = (depth - 1) as nat;
        match op_of(ns, r) {
            Op::Const(c) => fnv_u64(c, fnv_u64(1, h)),
            Op::InitReg(reg) => fnv_u64(reg.number() as u64, fnv_u64(2, h)),
            Op::Opaque(tag, n) => fnv_u64(n as u64, fnv_bytes(tag.spec_bytes(), fnv_u64(3, h))),
            Op::Param(b, reg) => fnv_u64(reg.number() as u64, fnv_u64(b.0 as u64, fnv_u64(4, h))),
            Op::Load(a, _) => shape_hash(ns, a, d, fnv_u64(5, h)),
            Op::Bin(op, a, b) => shape_hash(
                ns,
                b,
                d,
                shape_hash(ns, a, d, fnv_u64(op.number(), fnv_u64(6, h))),
            ),
            Op::Un(op, a) => shape_hash(ns, a, d, fnv_u64(op.number(), fnv_u64(7, h))),
            Op::Zext(a) => shape_hash(ns, a, d, fnv_u64(8, h)),
            Op::Sext(a) => shape_hash(ns, a, d, fnv_u64(9, h)),
            Op::Trunc(a) => shape_hash(ns, a, d, fnv_u64(10, h)),
            Op::Select(c, a, b) => shape_hash(
                ns,
                b,
                d,
                shape_hash(ns, a, d, shape_hash(ns, c, d, fnv_u64(11, h))),
            ),
        }
    }
}

/// Two expressions, perhaps of different arenas, have the same shape down to `depth`:
/// the same operators, widths and leaves, whatever their indices and load generations.
pub open spec fn same_shape(n1: Seq<Node>, r1: Ref, n2: Seq<Node>, r2: Ref, depth: nat) -> bool
    decreases depth,
{
    &&& width_of(n1, r1) == width_of(n2, r2)
    &&& depth > 0 ==> {
        let d = (depth - 1) as nat;
        match op_of(n1, r1) {
            Op::Const(c) => op_of(n2, r2) == Op::Const(c),
            Op::InitReg(reg) => op_of(n2, r2) == Op::InitReg(reg),
            Op::Opaque(t, n) => match op_of(n2, r2) {
                Op::Opaque(u, m) => t@ == u@ && n == m,
                _ => false,
            },
            Op::Param(b, reg) => op_of(n2, r2) == Op::Param(b, reg),
            Op::Load(a, _) => match op_of(n2, r2) {
                Op::Load(b, _) => same_shape(n1, a, n2, b, d),
                _ => false,
            },
            Op::Bin(op, a, b) => match op_of(n2, r2) {
                Op::Bin(op2, a2, b2) => op == op2 && same_shape(n1, a, n2, a2, d) && same_shape(
                    n1,
                    b,
                    n2,
                    b2,
                    d,
                ),
                _ => false,
            },
            Op::Un(op, a) => match op_of(n2, r2) {
                Op::Un(op2, a2) => op == op2 && same_shape(n1, a, n2, a2, d),
                _ => false,
            },
            Op::Zext(a) => match op_of(n2, r2) {
                Op::Zext(a2) => same_shape(n1, a, n2, a2, d),
                _ => false,
            },
            Op::Sext(a) => match op_of(n2, r2) {
                Op::Sext(a2) => same_shape(n1, a, n2, a2, d),
                _ => false,
            },
            Op::Trunc(a) => match op_of(n2, r2) {
                Op::Trunc(a2) => same_shape(n1, a, n2, a2, d),
                _ => false,
            },
            Op::Select(c, a, b) => match op_of(n2, r2) {
                Op::Select(c2, a2, b2) => same_shape(n1, c, n2, c2, d) && same_shape(
                    n1,
                    a,
                    n2,
                    a2,
                    d,
                ) && same_shape(n1, b, n2, b2, d),
                _ => false,
            },
        }
    }
}

/// The same shape hashes the same in any arena, whatever the indices of its nodes and the
/// generations of its loads.
pub proof fn same_shape_same_hash(
    n1: Seq<Node>,
    r1: Ref,
    n2: Seq<Node>,
    r2: Ref,
    depth: nat,
    h: u64,
)
    requires
        same_shape(n1, r1, n2, r2, depth),
    ensures
        shape_hash(n1, r1, depth, h) == shape_hash(n2, r2, depth, h),
    decreases depth,
{
    let h1 = fnv_u64(width_of(n1, r1).bytes() as u64, h);
    if depth > 0 {
        let d = (depth - 1) as nat;
        match op_of(n1, r1) {
            Op::Load(a, _) => {
                let b = op_of(n2, r2)->Load_0;
                same_shape_same_hash(n1, a, n2, b, d, fnv_u64(5, h1));
            },
            Op::Bin(op, a, b) => {
                let a2 = op_of(n2, r2)->Bin_1;
                let b2 = op_of(n2, r2)->Bin_2;
                let g = fnv_u64(op.number(), fnv_u64(6, h1));
                same_shape_same_hash(n1, a, n2, a2, d, g);
                same_shape_same_hash(n1, b, n2, b2, d, shape_hash(n1, a, d, g));
            },
            Op::Un(op, a) => {
                let a2 = op_of(n2, r2)->Un_1;
                same_shape_same_hash(n1, a, n2, a2, d, fnv_u64(op.number(), fnv_u64(7, h1)));
            },
            Op::Zext(a) => {
                same_shape_same_hash(n1, a, n2, op_of(n2, r2)->Zext_0, d, fnv_u64(8, h1));
            },
            Op::Sext(a) => {
                same_shape_same_hash(n1, a, n2, op_of(n2, r2)->Sext_0, d, fnv_u64(9, h1));
            },
            Op::Trunc(a) => {
                same_shape_same_hash(n1, a, n2, op_of(n2, r2)->Trunc_0, d, fnv_u64(10, h1));
            },
            Op::Select(c, a, b) => {
                let c2 = op_of(n2, r2)->Select_0;
                let a2 = op_of(n2, r2)->Select_1;
                let b2 = op_of(n2, r2)->Select_2;
                let g = fnv_u64(11, h1);
                same_shape_same_hash(n1, c, n2, c2, d, g);
                let g2 = shape_hash(n1, c, d, g);
                same_shape_same_hash(n1, a, n2, a2, d, g2);
                same_shape_same_hash(n1, b, n2, b2, d, shape_hash(n1, a, d, g2));
            },
            _ => {},
        }
    }
}

/// The text of `r` at nesting `depth`, cut off below `max`.
pub open spec fn shape_text(ns: Seq<Node>, r: Ref, depth: nat, max: nat) -> Seq<char>
    decreases r.idx,
{
    if depth > max {
        "..."@
    } else if !(has(ns, r) && crate::ir::expr::operands_before(op_of(ns, r), r.idx as int)) {
        ""@
    } else {
        let d = depth + 1;
        let bits = decimal_text(width_of(ns, r).bits() as u64);
        match op_of(ns, r) {
            Op::Const(c) => hex_text(c),
            Op::InitReg(reg) => reg.name_spec(),
            Op::Opaque(tag, id) => tag@ + "#"@ + decimal_text(id as u64),
            Op::Param(b, reg) => block_text(b) + "."@ + reg.name_spec(),
            Op::Load(a, _) => "load"@ + bits + "["@ + shape_text(ns, a, d, max) + "]"@,
            Op::Bin(op, x, y) => "("@ + shape_text(ns, x, d, max) + " "@ + op.symbol_spec() + " "@
                + shape_text(ns, y, d, max) + ")"@,
            Op::Un(op, x) => un_text(op) + shape_text(ns, x, d, max),
            Op::Zext(x) => "zext"@ + bits + "("@ + shape_text(ns, x, d, max) + ")"@,
            Op::Sext(x) => "sext"@ + bits + "("@ + shape_text(ns, x, d, max) + ")"@,
            Op::Trunc(x) => "trunc"@ + bits + "("@ + shape_text(ns, x, d, max) + ")"@,
            Op::Select(c, x, y) => shape_text(ns, c, d, max) + " ? "@ + shape_text(ns, x, d, max)
                + " : "@ + shape_text(ns, y, d, max),
        }
    }
}

pub open spec fn un_text(op: UnOp) -> Seq<char> {
    match op {
        UnOp::Not => "~"@,
        UnOp::Neg => "-"@,
        UnOp::ParityByte => "parity"@,
        UnOp::Bswap => "bswap"@,
    }
}

/// How a block is named in text, e.g. `b3`.
pub open spec fn block_text(b: BlockRef) -> Seq<char> {
    "b"@ + decimal_text(b.0 as u64)
}

impl BlockRef {
    /// The block's name in text, e.g. `b3`.
    pub fn text(self) -> (r: String)
        ensures
            r@ == block_text(self),
    {
        let mut s = String::new();
        s.append("b");
        push_decimal(&mut s, self.0 as u64);
        proof {
            assert(s@ =~= block_text(self));
        }
        s
    }
}

impl Arena {
    /// A hash of the *structure* of `r`, stable across arenas. `depth` bounds the walk.
    pub fn structural_hash(&self, r: Ref, depth: u32) -> (h: u64)
        requires
            self.wf(),
            self.holds(r),
        ensures
            h == shape_hash(self.nodes@, r, depth as nat, hash::FNV1A_OFFSET_BASIS),
    {
        let mut h: u64 = hash::FNV1A_OFFSET_BASIS;
        self.hash_into(r, depth, &mut h);
        h
    }

    fn hash_into(&self, r: Ref, depth: u32, h: &mut u64)
        requires
            self.wf(),
            self.holds(r),
        ensures
            *final(h) == shape_hash(self.nodes@, r, depth as nat, *old(h)),
        decreases depth,
    {
        proof {
            assert(ok_at(self.nodes@, r.idx as int));
        }
        hash::mix_u64(self.width(r).bytes() as u64, h);
        if depth == 0 {
            hash::mix_u64(0xdeadbeef, h);
            return;
        }
        // The discriminant has to be mixed in separately from the operands, so that two
        // different operators over the same operands do not collide.
        match *self.op(r) {
            Op::Const(c) => {
                hash::mix_u64(1, h);
                hash::mix_u64(c, h);
            },
            Op::InitReg(reg) => {
                hash::mix_u64(2, h);
                hash::mix_u64(reg.number() as u64, h);
            },
            Op::Opaque(tag, n) => {
                hash::mix_u64(3, h);
                hash::mix_bytes(tag.as_bytes(), h);
                hash::mix_u64(n as u64, h);
            },
            Op::Param(b, reg) => {
                hash::mix_u64(4, h);
                hash::mix_u64(b.0 as u64, h);
                hash::mix_u64(reg.number() as u64, h);
            },
            Op::Load(a, _) => {
                hash::mix_u64(5, h);
                self.hash_into(a, depth - 1, h);
            },
            Op::Bin(op, a, b) => {
                hash::mix_u64(6, h);
                hash::mix_u64(op.number(), h);
                self.hash_into(a, depth - 1, h);
                self.hash_into(b, depth - 1, h);
            },
            Op::Un(op, a) => {
                hash::mix_u64(7, h);
                hash::mix_u64(op.number(), h);
                self.hash_into(a, depth - 1, h);
            },
            Op::Zext(a) => {
                hash::mix_u64(8, h);
                self.hash_into(a, depth - 1, h);
            },
            Op::Sext(a) => {
                hash::mix_u64(9, h);
                self.hash_into(a, depth - 1, h);
            },
            Op::Trunc(a) => {
                hash::mix_u64(10, h);
                self.hash_into(a, depth - 1, h);
            },
            Op::Select(c, a, b) => {
                hash::mix_u64(11, h);
                self.hash_into(c, depth - 1, h);
                self.hash_into(a, depth - 1, h);
                self.hash_into(b, depth - 1, h);
            },
        }
    }
}

fn render_into(a: &Arena, r: Ref, depth: u64, max: u64, out: &mut String)
    requires
        a.wf(),
        a.holds(r),
        depth <= max + 1,
        max <= 0xffff_ffff,
    ensures
        final(out)@ == old(out)@ + shape_text(a.nodes@, r, depth as nat, max as nat),
    decreases r.idx,
{
    if depth > max {
        out.append("...");
        return;
    }
    proof {
        assert(ok_at(a.nodes@, r.idx as int));
    }
    let ghost start = out@;
    let bits: u64 = a.width(r).bits() as u64;
    match *a.op(r) {
        Op::Const(c) => push_hex(out, c),
        Op::InitReg(reg) => out.append(reg.name()),
        Op::Opaque(tag, id) => {
            out.append(tag);
            out.append("#");
            push_decimal(out, id as u64);
        },
        Op::Param(b, reg) => {
            out.append("b");
            push_decimal(out, b.0 as u64);
            out.append(".");
            out.append(reg.name());
        },
        Op::Load(addr, _) => {
            out.append("load");
            push_decimal(out, bits);
            out.append("[");
            render_into(a, addr, depth + 1, max, out);
            out.append("]");
        },
        Op::Bin(op, x, y) => {
            out.append("(");
            render_into(a, x, depth + 1, max, out);
            out.append(" ");
            out.append(op.symbol());
            out.append(" ");
            render_into(a, y, depth + 1, max, out);
            out.append(")");
        },
        Op::Un(op, x) => {
            out.append(
                match op {
                    UnOp::Not => "~",
                    UnOp::Neg => "-",
                    UnOp::ParityByte => "parity",
                    UnOp::Bswap => "bswap",
                },
            );
            render_into(a, x, depth + 1, max, out);
        },
        Op::Zext(x) => {
            out.append("zext");
            push_decimal(out, bits);
            out.append("(");
            render_into(a, x, depth + 1, max, out);
            out.append(")");
        },
        Op::Sext(x) => {
            out.append("sext");
            push_decimal(out, bits);
            out.append("(");
            render_into(a, x, depth + 1, max, out);
            out.append(")");
        },
        Op::Trunc(x) => {
            out.append("trunc");
            push_decimal(out, bits);
            out.append("(");
            render_into(a, x, depth + 1, max, out);
            out.append(")");
        },
        Op::Select(c, x, y) => {
            render_into(a, c, depth + 1, max, out);
            out.append(" ? ");
            render_into(a, x, depth + 1, max, out);
            out.append(" : ");
            render_into(a, y, depth + 1, max, out);
        },
    }
    proof {
        assert(out@ =~= start + shape_text(a.nodes@, r, depth as nat, max as nat));
    }
}

/// Depth-limited rendering, for diagnostics.
pub fn render(a: &Arena, r: Ref, max_depth: u32) -> (s: String)
    requires
        a.wf(),
        a.holds(r),
    ensures
        s@ == shape_text(a.nodes@, r, 0, max_depth as nat),
{
    let mut s = String::new();
    render_into(a, r, 0, max_depth as u64, &mut s);
    proof {
        assert(s@ =~= shape_text(a.nodes@, r, 0, max_depth as nat));
    }
    s
}

} // verus!
