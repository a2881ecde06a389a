//! Scheduled code: three-address instructions in a fixed order.

use crate::ir::event::copy_list;
use crate::ir::graph::{BlockId, Terminator};
use crate::ir::text::{decimal_text, push_decimal};
use crate::ir::value::{BinOp, Reg, UnOp, Width};
use vstd::prelude::*;
use vstd::string::StringExecFns;

verus! {

/// A scheduled value: the result of one operation.
#[derive(Debug, Clone, Copy, PartialEq, Eq, Hash, PartialOrd, Ord, Structural)]
pub struct ValId(pub u32);

impl ValId {
    pub open spec fn text_spec(self) -> Seq<char> {
        "v"@ + decimal_text(self.0 as u64)
    }

    /// The value's name, e.g. `v3`.
    pub fn text(&self) -> (r: String)
        ensures
            r@ == self.text_spec(),
    {
        let mut out = String::new();
        out.append("v");
        push_decimal(&mut out, self.0 as u64);
        proof {
            assert(out@ =~= self.text_spec());
        }
        out
    }
}

/// An operand to a scheduled instruction.
#[derive(Debug, Clone, Copy, PartialEq, Eq, Structural)]
pub enum Operand {
    /// A previously scheduled value.
    Val(ValId),
    /// An immediate.
    Imm(u64),
    /// A guest register as it was on entry to this block, i.e. an SSA parameter.
    Param(Reg),
    /// A guest register on entry to the whole function.
    Entry(Reg),
    /// A stack location, as a signed offset from RSP on entry to the function.
    Frame(i64),
    /// A stack slot an outgoing argument is passed in.
    OutArg(u32),
}

/// The memory operand of a boxed instruction, addressed like any other operand.
#[derive(Debug, Clone, Copy, PartialEq, Eq, Structural)]
pub struct BoxedMemOp {
    pub addr: Operand,
    /// Access size in bytes. 16 for SSE, which no `Width` covers.
    pub bytes: u32,
    pub writes: bool,
}

#[derive(Debug, Clone, Copy, PartialEq, Eq, Structural)]
pub enum CastKind {
    Zext,
    Sext,
    Trunc,
}

#[derive(Debug, Clone, Copy, PartialEq, Eq, Structural)]
pub enum CallTarget {
    Direct(u64),
    Indirect(Operand),
    /// A call through an import address table slot.
    Import { slot: u64 },
    /// The callee could not be recovered. Kept explicit rather than guessed.
    Unknown { site: u64 },
}

/// One scheduled operation, in three-address form.
#[derive(Debug)]
pub enum Instr {
    /// `dst = a op b`. `width` is the width of the result, which for a comparison is a
    /// boolean; `operand_width` is what the comparison measures.
    Bin { dst: ValId, op: BinOp, a: Operand, b: Operand, width: Width, operand_width: Width },
    /// `dst = op a`
    Un { dst: ValId, op: UnOp, a: Operand, width: Width },
    /// `dst = zero/sign-extend or truncate a`
    Cast { dst: ValId, kind: CastKind, a: Operand, from: Width, to: Width },
    /// `dst = cond ? a : b`
    Select { dst: ValId, cond: Operand, a: Operand, b: Operand, width: Width },
    /// `dst = [addr + disp]`
    Load { dst: ValId, addr: Operand, disp: i64, width: Width },
    /// `[addr + disp] = value`
    Store { addr: Operand, value: Operand, disp: i64, width: Width },
    /// A call to `target`. `args` names the values the Win64 argument registers must
    /// hold at the call.
    Call { target: CallTarget, args: Vec<(Reg, Operand)> },
    /// An instruction the lifter does not model, re-emitted verbatim.
    Boxed {
        site: u64,
        text: String,
        /// Original encoding.
        bytes: Vec<u8>,
        /// The memory operand, with its address as a schedulable operand.
        mem: Option<BoxedMemOp>,
        /// The values the instruction's implicit register reads must find in place.
        uses: Vec<(Reg, Operand)>,
    },
    /// `dst` is an unmodelled result. Nothing is emitted for it; the definition exists
    /// so uses have something to refer to.
    Opaque { dst: ValId, tag: &'static str, width: Width, at: Option<Reg> },
}

/// A comparison lifted out of the instruction stream into the branch.
#[derive(Debug, Clone, Copy)]
pub struct FusedCmp {
    pub a: Operand,
    pub b: Operand,
    pub op: BinOp,
    pub width: Width,
}

/// A block lowered to a linear instruction sequence.
#[derive(Debug)]
pub struct SchedBlock {
    pub id: BlockId,
    pub instrs: Vec<Instr>,
    /// Guest register values leaving the block, as scheduled operands.
    pub exits: Vec<(Reg, Operand)>,
    /// Registers left holding whatever a callee returned.
    pub callee_set: Vec<Reg>,
    /// The branch predicate or switch selector, once scheduled.
    pub control: Option<Operand>,
    /// A comparison folded into the terminator's conditional jump.
    pub fused: Option<FusedCmp>,
    pub terminator: Terminator,
}

/// The operands of a list of register assignments.
pub open spec fn sources(v: Seq<(Reg, Operand)>) -> Seq<Operand> {
    Seq::new(v.len(), |i: int| v[i].1)
}

/// Everything an instruction reads, in order.
pub open spec fn reads(i: Instr) -> Seq<Operand> {
    match i {
        Instr::Bin { a, b, .. } => seq![a, b],
        Instr::Un { a, .. } => seq![a],
        Instr::Cast { a, .. } => seq![a],
        Instr::Select { cond, a, b, .. } => seq![cond, a, b],
        Instr::Load { addr, .. } => seq![addr],
        Instr::Store { addr, value, .. } => seq![addr, value],
        Instr::Call { target, args } => match target {
            CallTarget::Indirect(t) => seq![t] + sources(args@),
            _ => sources(args@),
        },
        Instr::Boxed { mem, uses, .. } => match mem {
            Some(m) => seq![m.addr] + sources(uses@),
            None => sources(uses@),
        },
        Instr::Opaque { .. } => Seq::empty(),
    }
}

/// The value an instruction defines, if any.
pub open spec fn defines(i: Instr) -> Option<ValId> {
    match i {
        Instr::Bin { dst, .. } => Some(dst),
        Instr::Un { dst, .. } => Some(dst),
        Instr::Cast { dst, .. } => Some(dst),
        Instr::Select { dst, .. } => Some(dst),
        Instr::Load { dst, .. } => Some(dst),
        Instr::Opaque { dst, .. } => Some(dst),
        _ => None,
    }
}

pub fn defined(i: &Instr) -> (r: Option<ValId>)
    ensures
        r == defines(*i),
{
    match i {
        Instr::Bin { dst, .. } => Some(*dst),
        Instr::Un { dst, .. } => Some(*dst),
        Instr::Cast { dst, .. } => Some(*dst),
        Instr::Select { dst, .. } => Some(*dst),
        Instr::Load { dst, .. } => Some(*dst),
        Instr::Opaque { dst, .. } => Some(*dst),
        _ => None,
    }
}

fn push_sources(out: &mut Vec<Operand>, v: &Vec<(Reg, Operand)>)
    ensures
        final(out)@ == old(out)@ + sources(v@),
{
    let mut i: usize = 0;
    while i < v.len()
        invariant
            i <= v@.len(),
            out@ == old(out)@ + sources(v@).take(i as int),
        decreases v@.len() - i,
    {
        out.push(v[i].1);
        i = i + 1;
        proof {
            assert(out@ =~= old(out)@ + sources(v@).take(i as int));
        }
    }
    proof {
        assert(sources(v@).take(v@.len() as int) =~= sources(v@));
    }
}

/// Everything an instruction reads, in order.
pub fn operands_read(i: &Instr) -> (r: Vec<Operand>)
    ensures
        r@ == reads(*i),
{
    let mut v: Vec<Operand> = Vec::new();
    match i {
        Instr::Bin { a, b, .. } => {
            v.push(*a);
            v.push(*b);
        },
        Instr::Un { a, .. } => {
            v.push(*a);
        },
        Instr::Cast { a, .. } => {
            v.push(*a);
        },
        Instr::Select { cond, a, b, .. } => {
            v.push(*cond);
            v.push(*a);
            v.push(*b);
        },
        Instr::Load { addr, .. } => {
            v.push(*addr);
        },
        Instr::Store { addr, value, .. } => {
            v.push(*addr);
            v.push(*value);
        },
        Instr::Call { target, args } => {
            if let CallTarget::Indirect(t) = target {
                v.push(*t);
            }
            push_sources(&mut v, args);
        },
        Instr::Boxed { mem, uses, .. } => {
            if let Some(m) = mem {
                v.push(m.addr);
            }
            push_sources(&mut v, uses);
        },
        Instr::Opaque { .. } => {},
    }
    proof {
        assert(v@ =~= reads(*i));
    }
    v
}

/// Whether a value is among the operands.
pub open spec fn reads_value(ops: Seq<Operand>, v: ValId) -> bool {
    ops.contains(Operand::Val(v))
}

/// Whether a register's entry value is among the operands.
pub open spec fn reads_entry(ops: Seq<Operand>, r: Reg) -> bool {
    ops.contains(Operand::Entry(r)) || ops.contains(Operand::Param(r))
}

/// What the block needs after its last instruction: exit register values, and the
/// operands the terminator tests.
pub open spec fn kept(b: SchedBlock) -> Seq<Operand> {
    sources(b.exits@) + match (b.fused, b.control) {
        (Some(f), _) => seq![f.a, f.b],
        (None, Some(c)) => seq![c],
        (None, None) => Seq::empty(),
    }
}

/// What the block needs after its last instruction.
pub fn operands_kept(b: &SchedBlock) -> (r: Vec<Operand>)
    ensures
        r@ == kept(*b),
{
    let mut v: Vec<Operand> = Vec::new();
    push_sources(&mut v, &b.exits);
    match &b.fused {
        Some(f) => {
            v.push(f.a);
            v.push(f.b);
        },
        None => {
            if let Some(c) = &b.control {
                v.push(*c);
            }
        },
    }
    proof {
        assert(v@ =~= kept(*b));
    }
    v
}

/// Whether a list of register assignments is another with every operand turned by `f`.
pub open spec fn turned_list<F: Fn(Operand) -> Operand>(
    f: F,
    v: Seq<(Reg, Operand)>,
    w: Seq<(Reg, Operand)>,
) -> bool {
    &&& w.len() == v.len()
    &&& forall|k: int|
        0 <= k < v.len() ==> (#[trigger] w[k]).0 == v[k].0 && call_ensures(f, (v[k].1,), w[k].1)
}

/// Whether an instruction is another with every operand turned by `f`, those of a boxed
/// instruction included.
pub open spec fn turned_instr<F: Fn(Operand) -> Operand>(f: F, x: Instr, y: Instr) -> bool {
    match (x, y) {
        (Instr::Bin { a, b, .. }, Instr::Bin { a: a1, b: b1, .. }) => y == (Instr::Bin {
            dst: x->Bin_dst,
            op: x->Bin_op,
            a: a1,
            b: b1,
            width: x->Bin_width,
            operand_width: x->operand_width,
        }) && call_ensures(f, (a,), a1) && call_ensures(f, (b,), b1),
        (Instr::Un { dst, op, a, width }, Instr::Un { a: a1, .. }) => y == (Instr::Un {
            dst,
            op,
            a: a1,
            width,
        }) && call_ensures(f, (a,), a1),
        (Instr::Cast { dst, kind, a, from, to }, Instr::Cast { a: a1, .. }) => y == (Instr::Cast {
            dst,
            kind,
            a: a1,
            from,
            to,
        }) && call_ensures(f, (a,), a1),
        (
            Instr::Select { dst, cond, a, b, width },
            Instr::Select { cond: c1, a: a1, b: b1, .. },
        ) => y == (Instr::Select { dst, cond: c1, a: a1, b: b1, width }) && call_ensures(
            f,
            (cond,),
            c1,
        ) && call_ensures(f, (a,), a1) && call_ensures(f, (b,), b1),
        (Instr::Load { dst, addr, disp, width }, Instr::Load { addr: a1, .. }) => y
            == (Instr::Load { dst, addr: a1, disp, width }) && call_ensures(f, (addr,), a1),
        (Instr::Store { addr, value, disp, width }, Instr::Store { addr: a1, value: v1, .. }) => y
            == (Instr::Store { addr: a1, value: v1, disp, width }) && call_ensures(f, (addr,), a1)
            && call_ensures(f, (value,), v1),
        (Instr::Call { target, args }, Instr::Call { target: t1, args: args1 }) => turned_list(
            f,
            args@,
            args1@,
        ) && match (target, t1) {
            (CallTarget::Indirect(o), CallTarget::Indirect(o1)) => call_ensures(f, (o,), o1),
            (CallTarget::Indirect(_), _) => false,
            _ => t1 == target,
        },
        (
            Instr::Boxed { site, text, bytes, mem, uses },
            Instr::Boxed { site: site1, text: text1, bytes: bytes1, mem: mem1, uses: uses1 },
        ) => site1 == site && text1@ == text@ && bytes1@ == bytes@ && turned_list(f, uses@, uses1@)
            && match (mem, mem1) {
            (Some(m), Some(m1)) => m1 == (BoxedMemOp { addr: m1.addr, ..m }) && call_ensures(
                f,
                (m.addr,),
                m1.addr,
            ),
            (None, None) => true,
            _ => false,
        },
        (Instr::Opaque { .. }, _) => y == x,
        _ => false,
    }
}

fn turn_list<F: Fn(Operand) -> Operand>(v: &Vec<(Reg, Operand)>, f: &F) -> (w: Vec<
    (Reg, Operand),
>)
    requires
        forall|o: Operand| #[trigger] call_requires(*f, (o,)),
    ensures
        turned_list(*f, v@, w@),
{
    let mut w: Vec<(Reg, Operand)> = Vec::new();
    while w.len() < v.len()
        invariant
            w@.len() <= v@.len(),
            forall|o: Operand| #[trigger] call_requires(*f, (o,)),
            forall|k: int|
                0 <= k < w@.len() ==> (#[trigger] w@[k]).0 == v@[k].0 && call_ensures(
                    *f,
                    (v@[k].1,),
                    w@[k].1,
                ),
        decreases v@.len() - w@.len(),
    {
        let (reg, o) = v[w.len()];
        w.push((reg, f(o)));
    }
    w
}

/// Turns every operand of an instruction, for a pass that rewrites them in place.
pub fn each_operand_mut<F: Fn(Operand) -> Operand>(i: &mut Instr, f: F)
    requires
        forall|o: Operand| #[trigger] call_requires(f, (o,)),
    ensures
        turned_instr(f, *old(i), *final(i)),
{
    let turned = match &*i {
        Instr::Bin { dst, op, a, b, width, operand_width } => Instr::Bin {
            dst: *dst,
            op: *op,
            a: f(*a),
            b: f(*b),
            width: *width,
            operand_width: *operand_width,
        },
        Instr::Un { dst, op, a, width } => Instr::Un {
            dst: *dst,
            op: *op,
            a: f(*a),
            width: *width,
        },
        Instr::Cast { dst, kind, a, from, to } => Instr::Cast {
            dst: *dst,
            kind: *kind,
            a: f(*a),
            from: *from,
            to: *to,
        },
        Instr::Select { dst, cond, a, b, width } => Instr::Select {
            dst: *dst,
            cond: f(*cond),
            a: f(*a),
            b: f(*b),
            width: *width,
        },
        Instr::Load { dst, addr, disp, width } => Instr::Load {
            dst: *dst,
            addr: f(*addr),
            disp: *disp,
            width: *width,
        },
        Instr::Store { addr, value, disp, width } => Instr::Store {
            addr: f(*addr),
            value: f(*value),
            disp: *disp,
            width: *width,
        },
        Instr::Call { target, args } => Instr::Call {
            target: match target {
                CallTarget::Indirect(o) => CallTarget::Indirect(f(*o)),
                _ => *target,
            },
            args: turn_list(args, &f),
        },
        Instr::Boxed { site, text, bytes, mem, uses } => Instr::Boxed {
            site: *site,
            text: text.clone(),
            bytes: copy_list(bytes),
            mem: match mem {
                Some(m) => Some(
                    BoxedMemOp { addr: f(m.addr), bytes: m.bytes, writes: m.writes },
                ),
                None => None,
            },
            uses: turn_list(uses, &f),
        },
        Instr::Opaque { dst, tag, width, at } => Instr::Opaque {
            dst: *dst,
            tag: *tag,
            width: *width,
            at: *at,
        },
    };
    *i = turned;
}

} // verus!
