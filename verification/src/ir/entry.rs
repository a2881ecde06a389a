//! Where the function's entry values are found on arrival at a block, and how much of them
//! is read there.

use crate::ir::expr::{const_of, eval, has, nodes_ok, ok_at, width_of, Arena, Env, Node, Op, Ref};
use crate::ir::flow::{find_value, value_in};
use crate::ir::graph::Block;
use crate::ir::instr::{CallTarget, CastKind, Instr, Operand, SchedBlock};
use crate::ir::value::{BinOp, Reg, Width};
use vstd::prelude::*;

verus! {

/// The mask of the low `n` bits.
pub open spec fn low_bits(n: nat) -> u64 {
    u64::MAX >> ((64 - n) as u64)
}

/// How many low bits a mask keeps, trying `n` and below, where it keeps nothing else.
pub open spec fn prefix_from(mask: u64, n: nat) -> Option<nat>
    decreases n,
{
    if n == 0 {
        None
    } else if mask == low_bits(n) {
        Some(n)
    } else {
        prefix_from(mask, (n - 1) as nat)
    }
}

/// How many low bits a mask keeps, where it keeps nothing else.
pub open spec fn prefix_of(mask: u64) -> Option<nat> {
    prefix_from(mask, 64)
}

proof fn lemma_prefix(mask: u64, n: nat)
    ensures
        prefix_from(mask, n) matches Some(b) ==> 1 <= b <= n && mask == low_bits(b),
    decreases n,
{
    if n > 0 && mask != low_bits(n) {
        lemma_prefix(mask, (n - 1) as nat);
    }
}

fn mask_prefix(mask: u64) -> (r: Option<u32>)
    ensures
        match r {
            Some(n) => prefix_of(mask) == Some(n as nat) && 1 <= n <= 64,
            None => prefix_of(mask) is None,
        },
{
    let mut n: u32 = 64;
    while n > 0
        invariant
            n <= 64,
            prefix_of(mask) == prefix_from(mask, n as nat),
        decreases n,
    {
        let shift: u64 = (64 - n) as u64;
        if mask == u64::MAX >> shift {
            return Some(n);
        }
        n = n - 1;
    }
    None
}

pub open spec fn smaller(a: nat, b: nat) -> nat {
    if a < b {
        a
    } else {
        b
    }
}

/// How many low bits of a register's entry value an expression preserves, if it is that
/// value at all.
pub open spec fn preserved(ns: Seq<Node>, v: Ref, q: Reg) -> Option<nat>
    decreases v.idx,
{
    if !(v.idx < ns.len() && crate::ir::expr::operands_before(ns[v.idx as int].op, v.idx as int)) {
        None
    } else {
        match ns[v.idx as int].op {
            Op::InitReg(r) => if r == q {
                Some(64)
            } else {
                None
            },
            // `x & (2^n - 1)`, the shape a 32-bit move leaves behind.
            Op::Bin(BinOp::And, x, m) => match const_of(ns, m) {
                Some(mask) => match (prefix_of(mask), preserved(ns, x, q)) {
                    (Some(bits), Some(p)) => Some(smaller(p, bits)),
                    _ => None,
                },
                None => None,
            },
            Op::Trunc(x) => match preserved(ns, x, q) {
                Some(p) => Some(smaller(p, ns[v.idx as int].width.bits() as nat)),
                None => None,
            },
            Op::Zext(x) => preserved(ns, x, q),
            _ => None,
        }
    }
}

/// How many low bits of `q`'s function-entry value the expression `v` preserves, or `None`
/// if it is not that value at all.
pub fn preserved_entry_bits(a: &Arena, v: Ref, q: Reg) -> (r: Option<u32>)
    requires
        a.wf(),
        a.holds(v),
    ensures
        match r {
            Some(n) => preserved(a.nodes@, v, q) == Some(n as nat) && 1 <= n <= 64,
            None => preserved(a.nodes@, v, q) is None,
        },
    decreases v.idx,
{
    proof {
        assert(ok_at(a.nodes@, v.idx as int));
    }
    match *a.op(v) {
        Op::InitReg(r) => if r == q {
            Some(64)
        } else {
            None
        },
        Op::Bin(BinOp::And, x, m) => {
            let mask: u64 = match a.as_const(m) {
                Some(c) => c,
                None => {
                    return None;
                },
            };
            let inner = preserved_entry_bits(a, x, q);
            match (mask_prefix(mask), inner) {
                (Some(bits), Some(p)) => Some(
                    if p < bits {
                        p
                    } else {
                        bits
                    },
                ),
                _ => None,
            }
        },
        Op::Trunc(x) => {
            let bits: u32 = a.width(v).bits();
            match preserved_entry_bits(a, x, q) {
                Some(p) => Some(
                    if p < bits {
                        p
                    } else {
                        bits
                    },
                ),
                None => None,
            }
        },
        Op::Zext(x) => preserved_entry_bits(a, x, q),
        _ => None,
    }
}

/// Masking with a longer prefix first changes nothing; values that agree in a prefix agree
/// in every shorter one. Prefixes are given by the bits they leave out.
proof fn lemma_prefixes(x: u64, y: u64, n: u64, p: u64, b: u64)
    by (bit_vector)
    requires
        n < 64,
        p <= n,
        b <= n,
    ensures
        (x & (0xffff_ffff_ffff_ffffu64 >> b)) & (0xffff_ffff_ffff_ffffu64 >> n) == x & (
        0xffff_ffff_ffff_ffffu64 >> n),
        x & (0xffff_ffff_ffff_ffffu64 >> p) == y & (0xffff_ffff_ffff_ffffu64 >> p) ==> x & (
        0xffff_ffff_ffff_ffffu64 >> n) == y & (0xffff_ffff_ffff_ffffu64 >> n),
{
}

proof fn lemma_width_prefix(w: Width)
    ensures
        w.mask() == low_bits(w.bits() as nat),
        1 <= w.bits() <= 64,
{
    assert(0xffu64 == 0xffff_ffff_ffff_ffffu64 >> 56u64 && 0xffffu64 == 0xffff_ffff_ffff_ffffu64
        >> 48u64 && 0xffff_ffffu64 == 0xffff_ffff_ffff_ffffu64 >> 32u64 && 0xffff_ffff_ffff_ffffu64
        == 0xffff_ffff_ffff_ffffu64 >> 0u64) by (bit_vector);
}

/// As many low bits as an expression is said to preserve of a register's entry value are
/// those of that value, whatever the machine was entered with.
pub proof fn preserved_bits_are_the_registers(ns: Seq<Node>, v: Ref, q: Reg, e: Env)
    requires
        nodes_ok(ns),
        has(ns, v),
        preserved(ns, v, q) is Some,
    ensures
        1 <= preserved(ns, v, q)->0 <= width_of(ns, v).bits(),
        eval(ns, v, e) & low_bits(preserved(ns, v, q)->0) == (e.regs)(q) & low_bits(
            preserved(ns, v, q)->0,
        ),
    decreases v.idx,
{
    assert(ok_at(ns, v.idx as int));
    let n = preserved(ns, v, q)->0;
    let y = (e.regs)(q);
    lemma_width_prefix(width_of(ns, v));
    match ns[v.idx as int].op {
        Op::InitReg(_) => {
            lemma_prefixes(y, y, 0, 0, 0);
        },
        Op::Bin(BinOp::And, x, m) => {
            preserved_bits_are_the_registers(ns, x, q, e);
            let mask = const_of(ns, m)->0;
            lemma_prefix(mask, 64);
            let p = preserved(ns, x, q)->0;
            let b = prefix_of(mask)->0;
            let ex = eval(ns, x, e);
            crate::ir::known::lemma_eval_fits(ns, m, e);
            assert(eval(ns, m, e) == mask) by {
                assert(ok_at(ns, m.idx as int));
                crate::ir::fold::lemma_mask(mask, width_of(ns, m).mask());
            }
            lemma_prefixes(ex, y, (64 - n) as u64, (64 - p) as u64, (64 - b) as u64);
            let w = width_of(ns, x).wider(width_of(ns, m));
            lemma_width_prefix(w);
            lemma_width_prefix(width_of(ns, x));
            lemma_prefixes(
                ex & mask,
                y,
                (64 - n) as u64,
                (64 - n) as u64,
                (64 - w.bits()) as u64,
            );
        },
        Op::Trunc(x) => {
            preserved_bits_are_the_registers(ns, x, q, e);
            let p = preserved(ns, x, q)->0;
            let b = width_of(ns, v).bits();
            lemma_prefixes(
                eval(ns, x, e),
                y,
                (64 - n) as u64,
                (64 - p) as u64,
                (64 - b) as u64,
            );
        },
        Op::Zext(x) => {
            preserved_bits_are_the_registers(ns, x, q, e);
        },
        _ => {},
    }
}

/// An operand that is read, with how many of its low bits are.
pub type Note = (Operand, u32);

/// How many low bits of an operand of width `w` a mask leaves to be seen.
pub open spec fn masked_bits(op: BinOp, m: Operand, w: Width) -> nat {
    match m {
        Operand::Imm(mask) if op == BinOp::And => match prefix_of(mask) {
            Some(bits) => smaller(bits, w.bits() as nat),
            None => w.bits() as nat,
        },
        _ => w.bits() as nat,
    }
}

/// Operands that are read whole.
pub open spec fn whole(v: Seq<(Reg, Operand)>) -> Seq<(Operand, nat)> {
    Seq::new(v.len(), |i: int| (v[i].1, 64nat))
}

/// What an instruction reads, and how many low bits of it.
pub open spec fn instr_notes(i: Instr) -> Seq<(Operand, nat)> {
    match i {
        // A mask observes only the bits it keeps.
        Instr::Bin { op, a, b, operand_width, .. } => seq![
            (a, masked_bits(op, b, operand_width)),
            (b, masked_bits(op, a, operand_width)),
        ],
        Instr::Un { a, width, .. } => seq![(a, width.bits() as nat)],
        // A truncation reads only the bits it keeps, whatever its source width claims.
        Instr::Cast { a, kind, from, to, .. } => seq![
            (
                a,
                match kind {
                    CastKind::Trunc => to.bits() as nat,
                    _ => from.bits() as nat,
                },
            ),
        ],
        Instr::Select { cond, a, b, width, .. } => seq![
            (cond, 8nat),
            (a, width.bits() as nat),
            (b, width.bits() as nat),
        ],
        // An address is always consumed whole, whatever the width of the access.
        Instr::Load { addr, .. } => seq![(addr, 64nat)],
        Instr::Store { addr, value, width, .. } => seq![(addr, 64nat), (value, width.bits() as nat)],
        Instr::Call { target, args } => match target {
            CallTarget::Indirect(t) => seq![(t, 64nat)] + whole(args@),
            _ => whole(args@),
        },
        // A boxed instruction is emitted again from its own encoding, so nothing here can
        // narrow what it reads.
        Instr::Boxed { mem, uses, .. } => match mem {
            Some(m) => seq![(m.addr, 64nat)] + whole(uses@),
            None => whole(uses@),
        },
        Instr::Opaque { .. } => Seq::empty(),
    }
}

/// What an exit reads: a narrowed pass-through of an entry value costs only the bits it
/// keeps; anything else is read whole.
pub open spec fn exit_note(ns: Seq<Node>, b: Block, e: (Reg, Operand)) -> (Operand, nat) {
    let carried = match value_in(b.exit_regs@, e.0) {
        Some(v) => match e.1 {
            Operand::Entry(q) => preserved(ns, v, q),
            Operand::Param(q) => preserved(ns, v, q),
            _ => None,
        },
        None => None,
    };
    match carried {
        Some(n) => (e.1, n),
        None => (e.1, 64),
    }
}

/// Whether an operand is what a register held on entry.
pub open spec fn names_entry(o: Operand, r: Reg) -> bool {
    o == Operand::Entry(r) || o == Operand::Param(r)
}

/// The widest of the first `k` reads of a register's entry value.
pub open spec fn widest(notes: Seq<(Operand, nat)>, r: Reg, k: int) -> nat
    decreases k,
{
    if k <= 0 {
        0
    } else {
        let before = widest(notes, r, k - 1);
        if names_entry(notes[k - 1].0, r) && notes[k - 1].1 > before {
            notes[k - 1].1
        } else {
            before
        }
    }
}

/// What the first `k` instructions of a block read.
pub open spec fn notes_upto(sb: SchedBlock, k: int) -> Seq<(Operand, nat)>
    decreases k,
{
    if k <= 0 {
        Seq::empty()
    } else {
        notes_upto(sb, k - 1) + instr_notes(sb.instrs@[k - 1])
    }
}

/// What a block reads: in its instructions, to decide where to go, and to leave in registers.
pub open spec fn block_notes(ns: Seq<Node>, sb: SchedBlock, b: Block) -> Seq<(Operand, nat)> {
    notes_upto(sb, sb.instrs@.len() as int) + match sb.control {
        Some(c) => seq![(c, 8nat)],
        None => Seq::empty(),
    } + Seq::new(sb.exits@.len(), |i: int| exit_note(ns, b, sb.exits@[i]))
}

/// The widest read of each register's entry value in a block.
pub open spec fn read_width(ns: Seq<Node>, sb: SchedBlock, b: Block, r: Reg) -> nat {
    let notes = block_notes(ns, sb, b);
    widest(notes, r, notes.len() as int)
}

/// Notes as numbers that can be computed with.
pub open spec fn as_notes(v: Seq<Note>) -> Seq<(Operand, nat)> {
    Seq::new(v.len(), |i: int| (v[i].0, v[i].1 as nat))
}

fn bits_masked(op: BinOp, m: Operand, w: Width) -> (n: u32)
    ensures
        n == masked_bits(op, m, w),
{
    let full: u32 = w.bits();
    if op != BinOp::And {
        return full;
    }
    match m {
        Operand::Imm(mask) => match mask_prefix(mask) {
            Some(bits) => if bits < full {
                bits
            } else {
                full
            },
            None => full,
        },
        _ => full,
    }
}

fn push_whole(out: &mut Vec<Note>, v: &Vec<(Reg, Operand)>)
    ensures
        as_notes(final(out)@) == as_notes(old(out)@) + whole(v@),
{
    let ghost base = as_notes(out@);
    let mut k: usize = 0;
    proof {
        assert(as_notes(out@) =~= base + whole(v@).take(0));
    }
    while k < v.len()
        invariant
            k <= v@.len(),
            as_notes(out@) == base + whole(v@).take(k as int),
        decreases v@.len() - k,
    {
        let ghost was = as_notes(out@);
        out.push((v[k].1, 64));
        k = k + 1;
        proof {
            assert(as_notes(out@) =~= was.push((v@[k - 1].1, 64nat)));
            assert(as_notes(out@) =~= base + whole(v@).take(k as int));
        }
    }
    proof {
        assert(whole(v@).take(v@.len() as int) =~= whole(v@));
    }
}

fn push_notes(out: &mut Vec<Note>, i: &Instr)
    ensures
        as_notes(final(out)@) == as_notes(old(out)@) + instr_notes(*i),
{
    let ghost base = as_notes(out@);
    match i {
        Instr::Bin { op, a, b, operand_width, .. } => {
            out.push((*a, bits_masked(*op, *b, *operand_width)));
            out.push((*b, bits_masked(*op, *a, *operand_width)));
        },
        Instr::Un { a, width, .. } => {
            out.push((*a, width.bits()));
        },
        Instr::Cast { a, kind, from, to, .. } => {
            let bits: u32 = match kind {
                CastKind::Trunc => to.bits(),
                _ => from.bits(),
            };
            out.push((*a, bits));
        },
        Instr::Select { cond, a, b, width, .. } => {
            out.push((*cond, 8));
            out.push((*a, width.bits()));
            out.push((*b, width.bits()));
        },
        Instr::Load { addr, .. } => {
            out.push((*addr, 64));
        },
        Instr::Store { addr, value, width, .. } => {
            out.push((*addr, 64));
            out.push((*value, width.bits()));
        },
        Instr::Call { target, args } => {
            if let CallTarget::Indirect(t) = target {
                out.push((*t, 64));
                proof {
                    assert(as_notes(out@) =~= base + seq![(*t, 64nat)]);
                }
            }
            push_whole(out, args);
        },
        Instr::Boxed { mem, uses, .. } => {
            if let Some(m) = mem {
                out.push((m.addr, 64));
                proof {
                    assert(as_notes(out@) =~= base + seq![(m.addr, 64nat)]);
                }
            }
            push_whole(out, uses);
        },
        Instr::Opaque { .. } => {},
    }
    proof {
        assert(as_notes(out@) =~= base + instr_notes(*i));
    }
}

fn notes_of(sb: &SchedBlock, b: &Block, arena: &Arena) -> (out: Vec<Note>)
    requires
        arena.wf(),
        forall|k: int| 0 <= k < b.exit_regs@.len() ==> has(arena.nodes@, (#[trigger] b.exit_regs@[k]).1),
    ensures
        as_notes(out@) == block_notes(arena.nodes@, *sb, *b),
{
    let ghost ns = arena.nodes@;
    let mut out: Vec<Note> = Vec::new();
    let mut k: usize = 0;
    proof {
        assert(as_notes(out@) =~= notes_upto(*sb, 0));
    }
    while k < sb.instrs.len()
        invariant
            k <= sb.instrs@.len(),
            as_notes(out@) == notes_upto(*sb, k as int),
        decreases sb.instrs@.len() - k,
    {
        push_notes(&mut out, &sb.instrs[k]);
        k = k + 1;
    }
    let ghost body = as_notes(out@);
    let ghost mid = match sb.control {
        Some(c) => seq![(c, 8nat)],
        None => Seq::empty(),
    };
    if let Some(c) = sb.control {
        out.push((c, 8));
    }
    let ghost tail = Seq::new(sb.exits@.len(), |i: int| exit_note(ns, *b, sb.exits@[i]));
    let mut j: usize = 0;
    proof {
        assert(as_notes(out@) =~= body + mid + tail.take(0));
    }
    while j < sb.exits.len()
        invariant
            j <= sb.exits@.len(),
            arena.wf(),
            ns == arena.nodes@,
            forall|k: int|
                0 <= k < b.exit_regs@.len() ==> has(ns, (#[trigger] b.exit_regs@[k]).1),
            tail == Seq::new(sb.exits@.len(), |i: int| exit_note(ns, *b, sb.exits@[i])),
            as_notes(out@) == body + mid + tail.take(j as int),
        decreases sb.exits@.len() - j,
    {
        let ghost was = as_notes(out@);
        let (reg, o) = sb.exits[j];
        let value = find_value(&b.exit_regs, reg);
        let carried: Option<u32> = match value {
            Some(v) => {
                proof {
                    lemma_value_held(ns, b.exit_regs@, reg);
                }
                match o {
                    Operand::Entry(q) => preserved_entry_bits(arena, v, q),
                    Operand::Param(q) => preserved_entry_bits(arena, v, q),
                    _ => None,
                }
            },
            None => None,
        };
        let bits: u32 = match carried {
            Some(n) => n,
            None => 64,
        };
        out.push((o, bits));
        j = j + 1;
        proof {
            assert((o, bits as nat) == exit_note(ns, *b, sb.exits@[j - 1]));
            assert(as_notes(out@) =~= was.push((o, bits as nat)));
            assert(as_notes(out@) =~= body + mid + tail.take(j as int));
        }
    }
    proof {
        assert(tail.take(tail.len() as int) =~= tail);
    }
    out
}

proof fn lemma_value_held(ns: Seq<Node>, regs: Seq<(Reg, Ref)>, r: Reg)
    requires
        forall|k: int| 0 <= k < regs.len() ==> has(ns, (#[trigger] regs[k]).1),
    ensures
        value_in(regs, r) matches Some(v) ==> has(ns, v),
    decreases regs.len(),
{
    if value_in(regs, r) is Some {
        let j = crate::ir::flow::lemma_value_in(regs, r);
        assert(has(ns, regs[j].1));
    }
}

/// The widest read of each guest register's entry value in this block, by register number.
/// A narrowed home is only a valid substitute for reads that fit inside it, so a rename
/// needs to know how wide the widest read is.
pub fn entry_read_widths(sb: &SchedBlock, b: &Block, arena: &Arena) -> (out: Vec<u32>)
    requires
        arena.wf(),
        forall|k: int| 0 <= k < b.exit_regs@.len() ==> has(arena.nodes@, (#[trigger] b.exit_regs@[k]).1),
    ensures
        out@.len() == 16,
        forall|r: Reg| out@[#[trigger] r.number() as int] == read_width(arena.nodes@, *sb, *b, r),
{
    let notes = notes_of(sb, b, arena);
    let ghost all = as_notes(notes@);
    let mut out: Vec<u32> = vec![0u32; 16];
    let mut k: usize = 0;
    while k < notes.len()
        invariant
            k <= notes@.len(),
            all == as_notes(notes@),
            out@.len() == 16,
            forall|r: Reg| out@[#[trigger] r.number() as int] == widest(all, r, k as int),
        decreases notes@.len() - k,
    {
        let ghost out0 = out@;
        let (o, bits) = notes[k];
        let named: Option<Reg> = match o {
            Operand::Entry(r) => Some(r),
            Operand::Param(r) => Some(r),
            _ => None,
        };
        if let Some(r) = named {
            let at: usize = r.number() as usize;
            if bits > out[at] {
                out.set(at, bits);
            }
        }
        proof {
            assert(all[k as int] == (o, bits as nat));
            assert forall|r: Reg| out@[#[trigger] r.number() as int] == widest(all, r, k + 1) by {
                assert(out0[r.number() as int] == widest(all, r, k as int));
                if let Some(x) = named {
                    if x != r {
                        assert(x.number() != r.number());
                    }
                }
            }
        }
        k = k + 1;
    }
    out
}

} // verus!
