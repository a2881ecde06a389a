//! Scheduled code as text.

use crate::ir::instr::{BoxedMemOp, CallTarget, CastKind, Instr, Operand, SchedBlock, ValId};
use crate::ir::moves::{offset_text, push_offset};
use crate::ir::text::{decimal_text, hex_text, push_decimal, push_hex};
use crate::ir::value::{BinOp, Reg, UnOp};
use std::collections::HashMap;
use vstd::prelude::*;
use vstd::string::StringExecFns;

verus! {

broadcast use vstd::std_specs::hash::group_hash_axioms;

pub open spec fn bin_text(x: BinOp) -> Seq<char> {
    match x {
        BinOp::Add => "Add"@,
        BinOp::Sub => "Sub"@,
        BinOp::Mul => "Mul"@,
        BinOp::And => "And"@,
        BinOp::Or => "Or"@,
        BinOp::Xor => "Xor"@,
        BinOp::Shl => "Shl"@,
        BinOp::Shr => "Shr"@,
        BinOp::Sar => "Sar"@,
        BinOp::Rol => "Rol"@,
        BinOp::Ror => "Ror"@,
        BinOp::MulHiU => "MulHiU"@,
        BinOp::MulHiS => "MulHiS"@,
        BinOp::UDiv => "UDiv"@,
        BinOp::URem => "URem"@,
        BinOp::SDiv => "SDiv"@,
        BinOp::SRem => "SRem"@,
        BinOp::Ult => "Ult"@,
        BinOp::Slt => "Slt"@,
        BinOp::Eq => "Eq"@,
    }
}

/// How a binary operator is written.
fn bin_name(x: BinOp) -> (r: &'static str)
    ensures
        r@ == bin_text(x),
{
    match x {
        BinOp::Add => "Add",
        BinOp::Sub => "Sub",
        BinOp::Mul => "Mul",
        BinOp::And => "And",
        BinOp::Or => "Or",
        BinOp::Xor => "Xor",
        BinOp::Shl => "Shl",
        BinOp::Shr => "Shr",
        BinOp::Sar => "Sar",
        BinOp::Rol => "Rol",
        BinOp::Ror => "Ror",
        BinOp::MulHiU => "MulHiU",
        BinOp::MulHiS => "MulHiS",
        BinOp::UDiv => "UDiv",
        BinOp::URem => "URem",
        BinOp::SDiv => "SDiv",
        BinOp::SRem => "SRem",
        BinOp::Ult => "Ult",
        BinOp::Slt => "Slt",
        BinOp::Eq => "Eq",
    }
}

pub open spec fn un_text(x: UnOp) -> Seq<char> {
    match x {
        UnOp::Not => "Not"@,
        UnOp::Neg => "Neg"@,
        UnOp::ParityByte => "ParityByte"@,
        UnOp::Bswap => "Bswap"@,
    }
}

/// How a unary operator is written.
fn un_name(x: UnOp) -> (r: &'static str)
    ensures
        r@ == un_text(x),
{
    match x {
        UnOp::Not => "Not",
        UnOp::Neg => "Neg",
        UnOp::ParityByte => "ParityByte",
        UnOp::Bswap => "Bswap",
    }
}

pub open spec fn cast_text(x: CastKind) -> Seq<char> {
    match x {
        CastKind::Zext => "Zext"@,
        CastKind::Sext => "Sext"@,
        CastKind::Trunc => "Trunc"@,
    }
}

/// How a conversion is written.
fn cast_name(x: CastKind) -> (r: &'static str)
    ensures
        r@ == cast_text(x),
{
    match x {
        CastKind::Zext => "Zext",
        CastKind::Sext => "Sext",
        CastKind::Trunc => "Trunc",
    }
}

pub open spec fn place_text(x: Reg) -> Seq<char> {
    match x {
        Reg::Rax => "Rax"@,
        Reg::Rcx => "Rcx"@,
        Reg::Rdx => "Rdx"@,
        Reg::Rbx => "Rbx"@,
        Reg::Rsp => "Rsp"@,
        Reg::Rbp => "Rbp"@,
        Reg::Rsi => "Rsi"@,
        Reg::Rdi => "Rdi"@,
        Reg::R8 => "R8"@,
        Reg::R9 => "R9"@,
        Reg::R10 => "R10"@,
        Reg::R11 => "R11"@,
        Reg::R12 => "R12"@,
        Reg::R13 => "R13"@,
        Reg::R14 => "R14"@,
        Reg::R15 => "R15"@,
    }
}

/// How a register is written where a value is said to be left in it.
fn place_name(x: Reg) -> (r: &'static str)
    ensures
        r@ == place_text(x),
{
    match x {
        Reg::Rax => "Rax",
        Reg::Rcx => "Rcx",
        Reg::Rdx => "Rdx",
        Reg::Rbx => "Rbx",
        Reg::Rsp => "Rsp",
        Reg::Rbp => "Rbp",
        Reg::Rsi => "Rsi",
        Reg::Rdi => "Rdi",
        Reg::R8 => "R8",
        Reg::R9 => "R9",
        Reg::R10 => "R10",
        Reg::R11 => "R11",
        Reg::R12 => "R12",
        Reg::R13 => "R13",
        Reg::R14 => "R14",
        Reg::R15 => "R15",
    }
}

/// Whether an operand has a text: the lowest stack offset there is has no size to write.
pub open spec fn writable(o: Operand) -> bool {
    o matches Operand::Frame(x) ==> x > i64::MIN
}

pub open spec fn operand_text(o: Operand) -> Seq<char> {
    match o {
        Operand::Val(v) => v.text_spec(),
        Operand::Imm(c) => hex_text(c),
        Operand::Param(r) => "in."@ + r.name_spec(),
        Operand::Entry(r) => r.name_spec(),
        Operand::Frame(x) => "rsp"@ + offset_text(x),
        // Told apart from a stack offset, because it is relative to the call's RSP rather
        // than to RSP on entry.
        Operand::OutArg(n) => "arg[rsp+"@ + hex_text(n as u64) + "]"@,
    }
}

fn push_operand(out: &mut String, o: Operand)
    requires
        writable(o),
    ensures
        final(out)@ == old(out)@ + operand_text(o),
{
    let ghost base = out@;
    match o {
        Operand::Val(v) => {
            let t = v.text();
            out.append(t.as_str());
        },
        Operand::Imm(c) => push_hex(out, c),
        Operand::Param(r) => {
            out.append("in.");
            out.append(r.name());
        },
        Operand::Entry(r) => out.append(r.name()),
        Operand::Frame(x) => {
            out.append("rsp");
            push_offset(out, x);
        },
        Operand::OutArg(n) => {
            out.append("arg[rsp+");
            push_hex(out, n as u64);
            out.append("]");
        },
    }
    proof {
        assert(out@ =~= base + operand_text(o));
    }
}

/// The text of an operand, e.g. `v3`, `0x10` or `rsp-0x20`.
pub fn render_operand(o: Operand) -> (r: String)
    requires
        writable(o),
    ensures
        r@ == operand_text(o),
{
    let mut out = String::new();
    push_operand(&mut out, o);
    proof {
        assert(out@ =~= operand_text(o));
    }
    out
}

/// A memory operand with its displacement.
pub open spec fn address_text(o: Operand, disp: i64) -> Seq<char> {
    if disp == 0 {
        operand_text(o)
    } else {
        operand_text(o) + offset_text(disp)
    }
}

fn push_address(out: &mut String, o: Operand, disp: i64)
    requires
        writable(o),
        disp > i64::MIN,
    ensures
        final(out)@ == old(out)@ + address_text(o, disp),
{
    let ghost base = out@;
    push_operand(out, o);
    if disp != 0 {
        push_offset(out, disp);
    }
    proof {
        assert(out@ =~= base + address_text(o, disp));
    }
}

/// Whether every operand of a list has a text.
pub open spec fn all_writable(v: Seq<(Reg, Operand)>) -> bool {
    forall|i: int| 0 <= i < v.len() ==> writable((#[trigger] v[i]).1)
}

/// One assignment, e.g. `rcx=v3`.
pub open spec fn assignment_text(e: (Reg, Operand)) -> Seq<char> {
    e.0.name_spec() + "="@ + operand_text(e.1)
}

/// The first `k` assignments, with commas between them.
pub open spec fn assignments_text(v: Seq<(Reg, Operand)>, k: int) -> Seq<char>
    decreases k,
{
    if k <= 0 {
        Seq::empty()
    } else if k == 1 {
        assignment_text(v[0])
    } else {
        assignments_text(v, k - 1) + ", "@ + assignment_text(v[k - 1])
    }
}

/// A list of assignments in brackets, where there are any.
pub open spec fn args_text(v: Seq<(Reg, Operand)>) -> Seq<char> {
    if v.len() == 0 {
        Seq::empty()
    } else {
        "("@ + assignments_text(v, v.len() as int) + ")"@
    }
}

fn push_assignments(out: &mut String, v: &Vec<(Reg, Operand)>)
    requires
        all_writable(v@),
    ensures
        final(out)@ == old(out)@ + assignments_text(v@, v@.len() as int),
{
    let ghost base = out@;
    let mut k: usize = 0;
    proof {
        assert(out@ =~= base + assignments_text(v@, 0));
    }
    while k < v.len()
        invariant
            k <= v@.len(),
            all_writable(v@),
            out@ == base + assignments_text(v@, k as int),
        decreases v@.len() - k,
    {
        if k > 0 {
            out.append(", ");
        }
        out.append(v[k].0.name());
        out.append("=");
        push_operand(out, v[k].1);
        k = k + 1;
        proof {
            assert(out@ =~= base + assignments_text(v@, k as int));
        }
    }
}

fn push_args(out: &mut String, v: &Vec<(Reg, Operand)>)
    requires
        all_writable(v@),
    ensures
        final(out)@ == old(out)@ + args_text(v@),
{
    let ghost base = out@;
    if v.len() > 0 {
        out.append("(");
        push_assignments(out, v);
        out.append(")");
    }
    proof {
        assert(out@ =~= base + args_text(v@));
    }
}

/// A call's argument list, e.g. `(rcx=v3, rdx=0x0)`.
pub fn render_args(v: &Vec<(Reg, Operand)>) -> (r: String)
    requires
        all_writable(v@),
    ensures
        r@ == args_text(v@),
{
    let mut out = String::new();
    push_args(&mut out, v);
    proof {
        assert(out@ =~= args_text(v@));
    }
    out
}

/// A defined value with its width, and what it is.
pub open spec fn definition_text(dst: ValId, bits: u32) -> Seq<char> {
    dst.text_spec() + ":"@ + decimal_text(bits as u64) + " = "@
}

fn push_definition(out: &mut String, dst: ValId, bits: u32)
    ensures
        final(out)@ == old(out)@ + definition_text(dst, bits),
{
    let ghost base = out@;
    let t = dst.text();
    out.append(t.as_str());
    out.append(":");
    push_decimal(out, bits as u64);
    out.append(" = ");
    proof {
        assert(out@ =~= base + definition_text(dst, bits));
    }
}

pub open spec fn target_text(t: CallTarget) -> Seq<char> {
    match t {
        CallTarget::Direct(a) => "call "@ + hex_text(a),
        CallTarget::Indirect(o) => "call ["@ + operand_text(o) + "]"@,
        CallTarget::Import { slot } => "call import ["@ + hex_text(slot) + "]"@,
        CallTarget::Unknown { site } => "call <unrecovered> @"@ + hex_text(site),
    }
}

pub open spec fn boxed_mem_text(m: Option<BoxedMemOp>) -> Seq<char> {
    match m {
        Some(m) => "   ; mem "@ + operand_text(m.addr) + " "@ + decimal_text(m.bytes as u64)
            + " bytes "@ + (if m.writes {
            "write"@
        } else {
            "read"@
        }),
        None => Seq::empty(),
    }
}

pub open spec fn instr_text(i: Instr) -> Seq<char> {
    match i {
        Instr::Bin { dst, op, a, b, width, .. } => definition_text(dst, width.bits()) + bin_text(op)
            + " "@ + operand_text(a) + ", "@ + operand_text(b),
        Instr::Un { dst, op, a, width } => definition_text(dst, width.bits()) + un_text(op) + " "@
            + operand_text(a),
        Instr::Cast { dst, kind, a, from, to } => definition_text(dst, to.bits()) + cast_text(kind)
            + decimal_text(from.bits() as u64) + " "@ + operand_text(a),
        Instr::Select { dst, cond, a, b, width } => definition_text(dst, width.bits()) + "select "@
            + operand_text(cond) + ", "@ + operand_text(a) + ", "@ + operand_text(b),
        Instr::Load { dst, addr, disp, width } => definition_text(dst, width.bits()) + "load ["@
            + address_text(addr, disp) + "]"@,
        Instr::Store { addr, value, disp, width } => "store"@ + decimal_text(width.bits() as u64)
            + " ["@ + address_text(addr, disp) + "], "@ + operand_text(value),
        Instr::Call { target, args } => target_text(target) + args_text(args@),
        // Implicit register reads are shown, since the encoding does not show them.
        Instr::Boxed { site, text, mem, uses, .. } => "boxed @"@ + hex_text(site) + " "@ + text@
            + args_text(uses@) + boxed_mem_text(mem),
        Instr::Opaque { dst, tag, width, at } => definition_text(dst, width.bits()) + "opaque "@
            + tag@ + (match at {
            Some(r) => " @"@ + place_text(r),
            None => Seq::empty(),
        }),
    }
}

/// Whether every operand and displacement of an instruction has a text.
pub open spec fn instr_writable(i: Instr) -> bool {
    match i {
        Instr::Bin { a, b, .. } => writable(a) && writable(b),
        Instr::Un { a, .. } => writable(a),
        Instr::Cast { a, .. } => writable(a),
        Instr::Select { cond, a, b, .. } => writable(cond) && writable(a) && writable(b),
        Instr::Load { addr, disp, .. } => writable(addr) && disp > i64::MIN,
        Instr::Store { addr, value, disp, .. } => writable(addr) && writable(value) && disp
            > i64::MIN,
        Instr::Call { target, args } => all_writable(args@) && (target matches CallTarget::Indirect(
            o,
        ) ==> writable(o)),
        Instr::Boxed { mem, uses, .. } => all_writable(uses@) && (mem matches Some(m) ==> writable(
            m.addr,
        )),
        Instr::Opaque { .. } => true,
    }
}

fn push_target(out: &mut String, t: CallTarget)
    requires
        t matches CallTarget::Indirect(o) ==> writable(o),
    ensures
        final(out)@ == old(out)@ + target_text(t),
{
    let ghost base = out@;
    match t {
        CallTarget::Direct(a) => {
            out.append("call ");
            push_hex(out, a);
        },
        CallTarget::Indirect(o) => {
            out.append("call [");
            push_operand(out, o);
            out.append("]");
        },
        CallTarget::Import { slot } => {
            out.append("call import [");
            push_hex(out, slot);
            out.append("]");
        },
        CallTarget::Unknown { site } => {
            out.append("call <unrecovered> @");
            push_hex(out, site);
        },
    }
    proof {
        assert(out@ =~= base + target_text(t));
    }
}

fn push_boxed_mem(out: &mut String, m: Option<BoxedMemOp>)
    requires
        m matches Some(x) ==> writable(x.addr),
    ensures
        final(out)@ == old(out)@ + boxed_mem_text(m),
{
    let ghost base = out@;
    if let Some(m) = m {
        out.append("   ; mem ");
        push_operand(out, m.addr);
        out.append(" ");
        push_decimal(out, m.bytes as u64);
        out.append(" bytes ");
        if m.writes {
            out.append("write");
        } else {
            out.append("read");
        }
    }
    proof {
        assert(out@ =~= base + boxed_mem_text(m));
    }
}

fn push_bin(out: &mut String, i: &Instr)
    requires
        instr_writable(*i),
        i is Bin,
    ensures
        final(out)@ == old(out)@ + instr_text(*i),
{
    let ghost base = out@;
    match i {
        Instr::Bin { dst, op, a, b, width, .. } => {
            push_definition(out, *dst, width.bits());
            out.append(bin_name(*op));
            out.append(" ");
            push_operand(out, *a);
            out.append(", ");
            push_operand(out, *b);
            proof {
                assert(out@ =~= base + instr_text(*i));
            }
        },
        _ => {},
    }
}

fn push_conversion(out: &mut String, i: &Instr)
    requires
        instr_writable(*i),
        i is Un || i is Cast,
    ensures
        final(out)@ == old(out)@ + instr_text(*i),
{
    let ghost base = out@;
    match i {
        Instr::Un { dst, op, a, width } => {
            push_definition(out, *dst, width.bits());
            out.append(un_name(*op));
            out.append(" ");
            push_operand(out, *a);
            proof {
                assert(out@ =~= base + instr_text(*i));
            }
        },
        Instr::Cast { dst, kind, a, from, to } => {
            push_definition(out, *dst, to.bits());
            out.append(cast_name(*kind));
            push_decimal(out, from.bits() as u64);
            out.append(" ");
            push_operand(out, *a);
            proof {
                assert(out@ =~= base + instr_text(*i));
            }
        },
        _ => {},
    }
}

fn push_select(out: &mut String, i: &Instr)
    requires
        instr_writable(*i),
        i is Select,
    ensures
        final(out)@ == old(out)@ + instr_text(*i),
{
    let ghost base = out@;
    match i {
        Instr::Select { dst, cond, a, b, width } => {
            push_definition(out, *dst, width.bits());
            out.append("select ");
            push_operand(out, *cond);
            out.append(", ");
            push_operand(out, *a);
            out.append(", ");
            push_operand(out, *b);
            proof {
                assert(out@ =~= base + instr_text(*i));
            }
        },
        _ => {},
    }
}

fn push_access(out: &mut String, i: &Instr)
    requires
        instr_writable(*i),
        i is Load || i is Store,
    ensures
        final(out)@ == old(out)@ + instr_text(*i),
{
    let ghost base = out@;
    match i {
        Instr::Load { dst, addr, disp, width } => {
            push_definition(out, *dst, width.bits());
            out.append("load [");
            push_address(out, *addr, *disp);
            out.append("]");
            proof {
                assert(out@ =~= base + instr_text(*i));
            }
        },
        Instr::Store { addr, value, disp, width } => {
            out.append("store");
            push_decimal(out, width.bits() as u64);
            out.append(" [");
            push_address(out, *addr, *disp);
            out.append("], ");
            push_operand(out, *value);
            proof {
                assert(out@ =~= base + instr_text(*i));
            }
        },
        _ => {},
    }
}

fn push_call(out: &mut String, i: &Instr)
    requires
        instr_writable(*i),
        i is Call,
    ensures
        final(out)@ == old(out)@ + instr_text(*i),
{
    let ghost base = out@;
    match i {
        Instr::Call { target, args } => {
            push_target(out, *target);
            push_args(out, args);
            proof {
                assert(out@ =~= base + instr_text(*i));
            }
        },
        _ => {},
    }
}

fn push_boxed(out: &mut String, i: &Instr)
    requires
        instr_writable(*i),
        i is Boxed,
    ensures
        final(out)@ == old(out)@ + instr_text(*i),
{
    let ghost base = out@;
    match i {
        Instr::Boxed { site, text, mem, uses, .. } => {
            out.append("boxed @");
            push_hex(out, *site);
            out.append(" ");
            out.append(text.as_str());
            push_args(out, uses);
            push_boxed_mem(out, *mem);
            proof {
                assert(out@ =~= base + instr_text(*i));
            }
        },
        _ => {},
    }
}

fn push_opaque(out: &mut String, i: &Instr)
    requires
        instr_writable(*i),
        i is Opaque,
    ensures
        final(out)@ == old(out)@ + instr_text(*i),
{
    let ghost base = out@;
    match i {
        Instr::Opaque { dst, tag, width, at } => {
            push_definition(out, *dst, width.bits());
            out.append("opaque ");
            out.append(tag);
            if let Some(r) = at {
                out.append(" @");
                out.append(place_name(*r));
            }
            proof {
                assert(out@ =~= base + instr_text(*i));
            }
        },
        _ => {},
    }
}

fn push_instr(out: &mut String, i: &Instr)
    requires
        instr_writable(*i),
    ensures
        final(out)@ == old(out)@ + instr_text(*i),
{
    match i {
        Instr::Bin { .. } => push_bin(out, i),
        Instr::Un { .. } | Instr::Cast { .. } => push_conversion(out, i),
        Instr::Select { .. } => push_select(out, i),
        Instr::Load { .. } | Instr::Store { .. } => push_access(out, i),
        Instr::Call { .. } => push_call(out, i),
        Instr::Boxed { .. } => push_boxed(out, i),
        Instr::Opaque { .. } => push_opaque(out, i),
    }
}

/// The text of an instruction, e.g. `v3:64 = Add v1, 0x10`.
pub fn render_instr(i: &Instr) -> (r: String)
    requires
        instr_writable(*i),
    ensures
        r@ == instr_text(*i),
{
    let mut out = String::new();
    push_instr(&mut out, i);
    proof {
        assert(out@ =~= instr_text(*i));
    }
    out
}

/// An instruction in a listing: a call through a named import is shown by its name.
pub open spec fn line_text(i: Instr, imports: Map<u64, String>) -> Seq<char> {
    match i {
        Instr::Call { target: CallTarget::Import { slot }, args } => if imports.dom().contains(
            slot,
        ) {
            "call "@ + imports[slot]@ + args_text(args@)
        } else {
            instr_text(i)
        },
        _ => instr_text(i),
    }
}

/// The first `k` instructions of a listing, a line each.
pub open spec fn lines_text(instrs: Seq<Instr>, imports: Map<u64, String>, k: int) -> Seq<char>
    decreases k,
{
    if k <= 0 {
        Seq::empty()
    } else {
        lines_text(instrs, imports, k - 1) + "    "@ + line_text(instrs[k - 1], imports) + "\n"@
    }
}

pub open spec fn comparison_text(op: BinOp) -> Seq<char> {
    match op {
        BinOp::Eq => "=="@,
        BinOp::Ult => "<"@,
        BinOp::Slt => "s<"@,
        _ => "?"@,
    }
}

/// What decides where a block goes: the comparison folded into its branch, where there is
/// one, since the value it stood for is gone from the code.
pub open spec fn control_text(b: SchedBlock) -> Seq<char> {
    match (b.fused, b.control) {
        (Some(f), _) => "    control = "@ + operand_text(f.a) + " "@ + comparison_text(f.op) + " "@
            + operand_text(f.b) + "\n"@,
        (None, Some(c)) => "    control = "@ + operand_text(c) + "\n"@,
        (None, None) => Seq::empty(),
    }
}

/// Whether an exit gives a register a value other than its own.
pub open spec fn changes(e: (Reg, Operand)) -> bool {
    !(e.1 == Operand::Entry(e.0) || e.1 == Operand::Param(e.0))
}

/// Those of the first `k` exits that give a register a value other than its own.
pub open spec fn changed_exits(v: Seq<(Reg, Operand)>, k: int) -> Seq<(Reg, Operand)>
    decreases k,
{
    if k <= 0 {
        Seq::empty()
    } else if changes(v[k - 1]) {
        changed_exits(v, k - 1).push(v[k - 1])
    } else {
        changed_exits(v, k - 1)
    }
}

pub open spec fn exits_text(v: Seq<(Reg, Operand)>) -> Seq<char> {
    let live = changed_exits(v, v.len() as int);
    if live.len() == 0 {
        Seq::empty()
    } else {
        "    exits: "@ + assignments_text(live, live.len() as int) + "\n"@
    }
}

/// The first `k` names, with commas between them.
pub open spec fn names_text(v: Seq<Reg>, k: int) -> Seq<char>
    decreases k,
{
    if k <= 0 {
        Seq::empty()
    } else if k == 1 {
        v[0].name_spec()
    } else {
        names_text(v, k - 1) + ", "@ + v[k - 1].name_spec()
    }
}

pub open spec fn callee_text(v: Seq<Reg>) -> Seq<char> {
    if v.len() == 0 {
        Seq::empty()
    } else {
        "    (callee-set: "@ + names_text(v, v.len() as int) + ")\n"@
    }
}

pub open spec fn block_text(b: SchedBlock, imports: Map<u64, String>) -> Seq<char> {
    b.id.text_spec() + ":\n"@ + lines_text(b.instrs@, imports, b.instrs@.len() as int)
        + control_text(b) + exits_text(b.exits@) + callee_text(b.callee_set@)
}

/// Whether everything in a block has a text.
pub open spec fn block_writable(b: SchedBlock) -> bool {
    &&& forall|i: int| 0 <= i < b.instrs@.len() ==> instr_writable(#[trigger] b.instrs@[i])
    &&& all_writable(b.exits@)
    &&& b.control matches Some(c) ==> writable(c)
    &&& b.fused matches Some(f) ==> writable(f.a) && writable(f.b)
}

fn push_line(out: &mut String, i: &Instr, imports: &HashMap<u64, String>)
    requires
        instr_writable(*i),
    ensures
        final(out)@ == old(out)@ + line_text(*i, imports@),
{
    let ghost base = out@;
    if let Instr::Call { target: CallTarget::Import { slot }, args } = i {
        if let Some(name) = imports.get(slot) {
            out.append("call ");
            out.append(name.as_str());
            push_args(out, args);
            proof {
                assert(out@ =~= base + line_text(*i, imports@));
            }
            return;
        }
    }
    push_instr(out, i);
}

fn push_control(out: &mut String, b: &SchedBlock)
    requires
        block_writable(*b),
    ensures
        final(out)@ == old(out)@ + control_text(*b),
{
    let ghost base = out@;
    if let Some(f) = &b.fused {
        out.append("    control = ");
        push_operand(out, f.a);
        out.append(" ");
        out.append(
            match f.op {
                BinOp::Eq => "==",
                BinOp::Ult => "<",
                BinOp::Slt => "s<",
                _ => "?",
            },
        );
        out.append(" ");
        push_operand(out, f.b);
        out.append("\n");
    } else if let Some(c) = b.control {
        out.append("    control = ");
        push_operand(out, c);
        out.append("\n");
    }
    proof {
        assert(out@ =~= base + control_text(*b));
    }
}

fn push_exits(out: &mut String, v: &Vec<(Reg, Operand)>)
    requires
        all_writable(v@),
    ensures
        final(out)@ == old(out)@ + exits_text(v@),
{
    let ghost base = out@;
    let mut live: Vec<(Reg, Operand)> = Vec::new();
    let mut k: usize = 0;
    while k < v.len()
        invariant
            k <= v@.len(),
            all_writable(v@),
            all_writable(live@),
            live@ == changed_exits(v@, k as int),
        decreases v@.len() - k,
    {
        let e = v[k];
        if !(e.1 == Operand::Entry(e.0) || e.1 == Operand::Param(e.0)) {
            proof {
                assert(writable(v@[k as int].1));
            }
            live.push(e);
        }
        k = k + 1;
    }
    if live.len() > 0 {
        out.append("    exits: ");
        push_assignments(out, &live);
        out.append("\n");
    }
    proof {
        assert(out@ =~= base + exits_text(v@));
    }
}

fn push_callee(out: &mut String, v: &Vec<Reg>)
    ensures
        final(out)@ == old(out)@ + callee_text(v@),
{
    let ghost base = out@;
    if v.len() > 0 {
        out.append("    (callee-set: ");
        let ghost head = out@;
        let mut k: usize = 0;
        proof {
            assert(out@ =~= head + names_text(v@, 0));
        }
        while k < v.len()
            invariant
                k <= v@.len(),
                out@ == head + names_text(v@, k as int),
            decreases v@.len() - k,
        {
            if k > 0 {
                out.append(", ");
            }
            out.append(v[k].name());
            k = k + 1;
            proof {
                assert(out@ =~= head + names_text(v@, k as int));
            }
        }
        out.append(")\n");
    }
    proof {
        assert(out@ =~= base + callee_text(v@));
    }
}

/// Render a scheduled block, naming import calls from `imports`.
pub fn render_block_with(b: &SchedBlock, imports: &HashMap<u64, String>) -> (r: String)
    requires
        block_writable(*b),
    ensures
        r@ == block_text(*b, imports@),
{
    let mut out = String::new();
    let name = b.id.text();
    out.append(name.as_str());
    out.append(":\n");
    let ghost head = out@;
    let mut k: usize = 0;
    proof {
        assert(out@ =~= head + lines_text(b.instrs@, imports@, 0));
    }
    while k < b.instrs.len()
        invariant
            k <= b.instrs@.len(),
            block_writable(*b),
            out@ == head + lines_text(b.instrs@, imports@, k as int),
        decreases b.instrs@.len() - k,
    {
        out.append("    ");
        push_line(&mut out, &b.instrs[k], imports);
        out.append("\n");
        k = k + 1;
        proof {
            assert(out@ =~= head + lines_text(b.instrs@, imports@, k as int));
        }
    }
    push_control(&mut out, b);
    push_exits(&mut out, &b.exits);
    push_callee(&mut out, &b.callee_set);
    proof {
        assert(out@ =~= block_text(*b, imports@));
    }
    out
}

} // verus!
