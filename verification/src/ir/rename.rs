//! Reading an entry value from the register it was saved in.

use crate::ir::entry::{entry_read_widths, preserved, preserved_entry_bits, read_width, smaller};
use crate::ir::expr::{has, Arena, Node, Ref};
use crate::ir::flow::{find_last, ids, last_index};
use crate::ir::graph::{Block, BlockId, Cfg};
use crate::ir::instr::{
    each_operand_mut, BoxedMemOp, CallTarget, FusedCmp, Instr, Operand, SchedBlock,
};
use crate::ir::value::{Reg, GPRS};
use vstd::prelude::*;

verus! {

/// Which register holds the entry value of `q` when a block is left, and how many bits of it
/// are preserved there. A value still in its own register needs no other; the stack pointer
/// is never a home, being the frame's anchor rather than a value that is placed.
pub open spec fn home_from(
    ns: Seq<Node>,
    regs: Seq<(Reg, Ref)>,
    q: Reg,
    k: int,
    found: Option<(Reg, nat)>,
) -> Option<(Reg, nat)>
    decreases regs.len() - k,
{
    if k < 0 || k >= regs.len() {
        found
    } else {
        match preserved(ns, regs[k].1, q) {
            Some(bits) if regs[k].0 != Reg::Rsp => if regs[k].0 == q {
                Some((q, bits))
            } else {
                home_from(
                    ns,
                    regs,
                    q,
                    k + 1,
                    match found {
                        Some(f) => Some(f),
                        None => Some((regs[k].0, bits)),
                    },
                )
            },
            _ => home_from(ns, regs, q, k + 1, found),
        }
    }
}

/// The register all predecessors from `k` on leave the entry value of `q` in, with the
/// fewest bits any of them preserves; `None` where they do not agree.
pub open spec fn agreed_from(
    ns: Seq<Node>,
    blocks: Seq<Block>,
    preds: Seq<BlockId>,
    q: Reg,
    k: int,
    acc: Option<(Reg, nat)>,
) -> Option<(Reg, nat)>
    decreases preds.len() - k,
{
    if k < 0 || k >= preds.len() {
        acc
    } else {
        match last_index(ids(blocks), preds[k]) {
            Some(j) => match home_from(ns, blocks[j].exit_regs@, q, 0, None) {
                Some((h, bits)) => match acc {
                    None => agreed_from(ns, blocks, preds, q, k + 1, Some((h, bits))),
                    Some((a, b)) => if a == h {
                        agreed_from(ns, blocks, preds, q, k + 1, Some((h, smaller(b, bits))))
                    } else {
                        None
                    },
                },
                None => None,
            },
            None => None,
        }
    }
}

/// Whether a block leaves a value in a register.
pub open spec fn leaves_in(regs: Seq<(Reg, Ref)>, q: Reg) -> bool {
    exists|i: int| 0 <= i < regs.len() && (#[trigger] regs[i]).0 == q
}

/// The register to read the entry value of `q` from instead, in a block. A narrowed home
/// cannot answer a wider read.
pub open spec fn home_of(cfg: Cfg, sb: SchedBlock, b: Block, q: Reg) -> Option<Reg> {
    if q == Reg::Rsp || !leaves_in(b.exit_regs@, q) {
        None
    } else {
        match agreed_from(cfg.arena.nodes@, cfg.blocks@, b.preds@, q, 0, None) {
            Some((h, bits)) => if h != q && read_width(cfg.arena.nodes@, sb, b, q) <= bits {
                Some(h)
            } else {
                None
            },
            None => None,
        }
    }
}

pub open spec fn homes_in(cfg: Cfg, sb: SchedBlock, b: Block) -> spec_fn(Reg) -> Option<Reg> {
    |q: Reg| home_of(cfg, sb, b, q)
}

/// An operand with an entry value read from its home.
pub open spec fn renamed(f: spec_fn(Reg) -> Option<Reg>, o: Operand) -> Operand {
    match o {
        Operand::Entry(q) => match f(q) {
            Some(to) => Operand::Entry(to),
            None => o,
        },
        Operand::Param(q) => match f(q) {
            Some(to) => Operand::Entry(to),
            None => o,
        },
        _ => o,
    }
}

pub open spec fn renamed_list(f: spec_fn(Reg) -> Option<Reg>, v: Seq<(Reg, Operand)>) -> Seq<
    (Reg, Operand),
> {
    Seq::new(v.len(), |i: int| (v[i].0, renamed(f, v[i].1)))
}

/// Whether an instruction is another with every operand renamed.
pub open spec fn renamed_instr(f: spec_fn(Reg) -> Option<Reg>, x: Instr, y: Instr) -> bool {
    match x {
        Instr::Bin { dst, op, a, b, width, operand_width } => y == (Instr::Bin {
            dst,
            op,
            a: renamed(f, a),
            b: renamed(f, b),
            width,
            operand_width,
        }),
        Instr::Un { dst, op, a, width } => y == (Instr::Un { dst, op, a: renamed(f, a), width }),
        Instr::Cast { dst, kind, a, from, to } => y == (Instr::Cast {
            dst,
            kind,
            a: renamed(f, a),
            from,
            to,
        }),
        Instr::Select { dst, cond, a, b, width } => y == (Instr::Select {
            dst,
            cond: renamed(f, cond),
            a: renamed(f, a),
            b: renamed(f, b),
            width,
        }),
        Instr::Load { dst, addr, disp, width } => y == (Instr::Load {
            dst,
            addr: renamed(f, addr),
            disp,
            width,
        }),
        Instr::Store { addr, value, disp, width } => y == (Instr::Store {
            addr: renamed(f, addr),
            value: renamed(f, value),
            disp,
            width,
        }),
        Instr::Call { target, args } => y matches Instr::Call { target: t1, args: a1 } && t1
            == renamed_target(f, target) && a1@ == renamed_list(f, args@),
        Instr::Boxed { site, text, bytes, mem, uses } => y matches Instr::Boxed {
            site: s1,
            text: t1,
            bytes: b1,
            mem: m1,
            uses: u1,
        } && s1 == site && t1@ == text@ && b1@ == bytes@ && m1 == renamed_mem(f, mem) && u1@
            == renamed_list(f, uses@),
        Instr::Opaque { .. } => y == x,
    }
}

pub open spec fn renamed_target(f: spec_fn(Reg) -> Option<Reg>, t: CallTarget) -> CallTarget {
    match t {
        CallTarget::Indirect(o) => CallTarget::Indirect(renamed(f, o)),
        _ => t,
    }
}

pub open spec fn renamed_mem(f: spec_fn(Reg) -> Option<Reg>, m: Option<BoxedMemOp>) -> Option<
    BoxedMemOp,
> {
    match m {
        Some(m) => Some(BoxedMemOp { addr: renamed(f, m.addr), ..m }),
        None => None,
    }
}

pub open spec fn renamed_option(f: spec_fn(Reg) -> Option<Reg>, o: Option<Operand>) -> Option<
    Operand,
> {
    match o {
        Some(o) => Some(renamed(f, o)),
        None => None,
    }
}

pub open spec fn renamed_fused(f: spec_fn(Reg) -> Option<Reg>, c: Option<FusedCmp>) -> Option<
    FusedCmp,
> {
    match c {
        Some(c) => Some(FusedCmp { a: renamed(f, c.a), b: renamed(f, c.b), ..c }),
        None => None,
    }
}

/// Whether a block is another with every operand renamed.
pub open spec fn renamed_block(f: spec_fn(Reg) -> Option<Reg>, x: SchedBlock, y: SchedBlock) -> bool {
    &&& y == (SchedBlock { instrs: y.instrs, exits: y.exits, control: y.control, fused: y.fused, ..x })
    &&& y.instrs@.len() == x.instrs@.len()
    &&& forall|i: int|
        0 <= i < x.instrs@.len() ==> renamed_instr(f, x.instrs@[i], #[trigger] y.instrs@[i])
    &&& y.exits@ == renamed_list(f, x.exits@)
    &&& y.control == renamed_option(f, x.control)
    &&& y.fused == renamed_fused(f, x.fused)
}

/// The homes that a list gives by register number.
spec fn listed(homes: Seq<Option<Reg>>) -> spec_fn(Reg) -> Option<Reg> {
    |q: Reg| homes[q.number() as int]
}

/// Whether homes are listed by register number.
spec fn lists_homes(homes: Seq<Option<Reg>>, f: spec_fn(Reg) -> Option<Reg>) -> bool {
    &&& homes.len() == 16
    &&& forall|q: Reg| homes[#[trigger] q.number() as int] == f(q)
}

fn rename(homes: &Vec<Option<Reg>>, o: Operand, Ghost(f): Ghost<spec_fn(Reg) -> Option<Reg>>) -> (r:
    Operand)
    requires
        lists_homes(homes@, f),
    ensures
        r == renamed(f, o),
{
    let named: Option<Reg> = match o {
        Operand::Entry(q) => Some(q),
        Operand::Param(q) => Some(q),
        _ => None,
    };
    match named {
        Some(q) => match homes[q.number() as usize] {
            Some(to) => Operand::Entry(to),
            None => o,
        },
        None => o,
    }
}

fn rename_list(
    homes: &Vec<Option<Reg>>,
    v: &Vec<(Reg, Operand)>,
    Ghost(f): Ghost<spec_fn(Reg) -> Option<Reg>>,
) -> (out: Vec<(Reg, Operand)>)
    requires
        lists_homes(homes@, f),
    ensures
        out@ == renamed_list(f, v@),
{
    let mut out: Vec<(Reg, Operand)> = Vec::new();
    while out.len() < v.len()
        invariant
            out@.len() <= v@.len(),
            lists_homes(homes@, f),
            out@ == renamed_list(f, v@).take(out@.len() as int),
        decreases v@.len() - out@.len(),
    {
        let k: usize = out.len();
        out.push((v[k].0, rename(homes, v[k].1, Ghost(f))));
        proof {
            assert(out@ =~= renamed_list(f, v@).take(out@.len() as int));
        }
    }
    proof {
        assert(out@ =~= renamed_list(f, v@));
    }
    out
}

fn rename_instr(
    homes: &Vec<Option<Reg>>,
    i: &mut Instr,
    Ghost(f): Ghost<spec_fn(Reg) -> Option<Reg>>,
)
    requires
        lists_homes(homes@, f),
    ensures
        renamed_instr(f, *old(i), *final(i)),
{
    let ghost x = *i;
    let turn = |o: Operand| -> (r: Operand)
        requires
            homes@.len() == 16,
        ensures
            r == renamed(listed(homes@), o),
        { rename(homes, o, Ghost(listed(homes@))) };
    each_operand_mut(i, turn);
    let ghost y = *i;
    proof {
        assert forall|o: Operand| #[trigger] renamed(listed(homes@), o) == renamed(f, o) by {
            match o {
                Operand::Entry(q) => {
                    assert(homes@[q.number() as int] == f(q));
                },
                Operand::Param(q) => {
                    assert(homes@[q.number() as int] == f(q));
                },
                _ => {},
            }
        }
        match (x, y) {
            (Instr::Call { args, .. }, Instr::Call { args: args1, .. }) => {
                assert(args1@ =~= renamed_list(f, args@));
            },
            (Instr::Boxed { uses, .. }, Instr::Boxed { uses: uses1, .. }) => {
                assert(uses1@ =~= renamed_list(f, uses@));
            },
            _ => {},
        }
    }
}

fn rename_block(
    homes: &Vec<Option<Reg>>,
    b: &mut SchedBlock,
    Ghost(f): Ghost<spec_fn(Reg) -> Option<Reg>>,
)
    requires
        lists_homes(homes@, f),
    ensures
        renamed_block(f, *old(b), *final(b)),
{
    let ghost b0 = *b;
    let mut k: usize = 0;
    while k < b.instrs.len()
        invariant
            k <= b.instrs@.len() == b0.instrs@.len(),
            lists_homes(homes@, f),
            *b == (SchedBlock { instrs: b.instrs, ..b0 }),
            forall|i: int|
                0 <= i < b0.instrs@.len() ==> if i < k {
                    renamed_instr(f, b0.instrs@[i], #[trigger] b.instrs@[i])
                } else {
                    b.instrs@[i] == b0.instrs@[i]
                },
        decreases b.instrs@.len() - k,
    {
        let ghost before = b.instrs@;
        proof {
            assert(b.instrs@[k as int] == b0.instrs@[k as int]);
        }
        rename_instr(homes, &mut b.instrs[k], Ghost(f));
        proof {
            assert forall|i: int| 0 <= i < b0.instrs@.len() implies if i < k + 1 {
                renamed_instr(f, b0.instrs@[i], #[trigger] b.instrs@[i])
            } else {
                b.instrs@[i] == b0.instrs@[i]
            } by {
                if i != k {
                    assert(b.instrs@[i] == before[i]);
                }
            }
        }
        k = k + 1;
    }
    b.control = match b.control {
        Some(c) => Some(rename(homes, c, Ghost(f))),
        None => None,
    };
    let exits = rename_list(homes, &b.exits, Ghost(f));
    b.exits = exits;
    b.fused = match b.fused {
        Some(c) => Some(
            FusedCmp {
                a: rename(homes, c.a, Ghost(f)),
                b: rename(homes, c.b, Ghost(f)),
                op: c.op,
                width: c.width,
            },
        ),
        None => None,
    };
}

/// A home as a spec function names it.
spec fn as_home(a: Option<(Reg, u32)>) -> Option<(Reg, nat)> {
    match a {
        Some(x) => Some((x.0, x.1 as nat)),
        None => None,
    }
}

fn find_home(a: &Arena, regs: &Vec<(Reg, Ref)>, q: Reg) -> (r: Option<(Reg, u32)>)
    requires
        a.wf(),
        forall|k: int| 0 <= k < regs@.len() ==> has(a.nodes@, (#[trigger] regs@[k]).1),
    ensures
        as_home(r) == home_from(a.nodes@, regs@, q, 0, None),
{
    let mut found: Option<(Reg, u32)> = None;
    let mut k: usize = 0;
    while k < regs.len()
        invariant
            k <= regs@.len(),
            a.wf(),
            forall|k: int| 0 <= k < regs@.len() ==> has(a.nodes@, (#[trigger] regs@[k]).1),
            home_from(a.nodes@, regs@, q, 0, None) == home_from(
                a.nodes@,
                regs@,
                q,
                k as int,
                as_home(found),
            ),
        decreases regs@.len() - k,
    {
        let (reg, v) = regs[k];
        proof {
            assert(has(a.nodes@, regs@[k as int].1));
        }
        let bits = preserved_entry_bits(a, v, q);
        if reg != Reg::Rsp {
            if let Some(n) = bits {
                if reg == q {
                    return Some((q, n));
                }
                if found.is_none() {
                    found = Some((reg, n));
                }
            }
        }
        k = k + 1;
    }
    found
}

fn find_agreed(cfg: &Cfg, preds: &Vec<BlockId>, q: Reg) -> (r: Option<(Reg, u32)>)
    requires
        cfg.arena.wf(),
        crate::vm::reach::blocks_held(cfg.arena.nodes@, cfg.blocks@),
    ensures
        as_home(r) == agreed_from(cfg.arena.nodes@, cfg.blocks@, preds@, q, 0, None),
{
    let ghost ns = cfg.arena.nodes@;
    let mut acc: Option<(Reg, u32)> = None;
    let mut k: usize = 0;
    while k < preds.len()
        invariant
            k <= preds@.len(),
            cfg.arena.wf(),
            ns == cfg.arena.nodes@,
            crate::vm::reach::blocks_held(ns, cfg.blocks@),
            agreed_from(ns, cfg.blocks@, preds@, q, 0, None) == agreed_from(
                ns,
                cfg.blocks@,
                preds@,
                q,
                k as int,
                as_home(acc),
            ),
        decreases preds@.len() - k,
    {
        let j: usize = match find_last(&cfg.blocks, preds[k]) {
            Some(j) => j,
            None => {
                return None;
            },
        };
        proof {
            assert(crate::ir::lower::block_held(ns, cfg.blocks@[j as int]));
        }
        match find_home(&cfg.arena, &cfg.blocks[j].exit_regs, q) {
            Some((h, bits)) => {
                match acc {
                    None => {
                        acc = Some((h, bits));
                    },
                    Some((a, b)) => {
                        if a != h {
                            return None;
                        }
                        acc = Some(
                            (
                                h,
                                if b < bits {
                                    b
                                } else {
                                    bits
                                },
                            ),
                        );
                    },
                }
            },
            None => {
                return None;
            },
        }
        k = k + 1;
    }
    acc
}

fn is_left(regs: &Vec<(Reg, Ref)>, q: Reg) -> (r: bool)
    ensures
        r == leaves_in(regs@, q),
{
    let mut k: usize = 0;
    while k < regs.len()
        invariant
            k <= regs@.len(),
            forall|i: int| 0 <= i < k ==> (#[trigger] regs@[i]).0 != q,
        decreases regs@.len() - k,
    {
        if regs[k].0 == q {
            assert(regs@[k as int].0 == q);
            return true;
        }
        k = k + 1;
    }
    false
}

fn find_homes(cfg: &Cfg, sb: &SchedBlock, b: &Block) -> (homes: Vec<Option<Reg>>)
    requires
        cfg.arena.wf(),
        crate::vm::reach::blocks_held(cfg.arena.nodes@, cfg.blocks@),
        crate::ir::lower::block_held(cfg.arena.nodes@, *b),
    ensures
        lists_homes(homes@, homes_in(*cfg, *sb, *b)),
{
    let read = entry_read_widths(sb, b, &cfg.arena);
    let ghost f = homes_in(*cfg, *sb, *b);
    let mut homes: Vec<Option<Reg>> = Vec::new();
    let mut k: usize = 0;
    while k < 16
        invariant
            k <= 16,
            homes@.len() == k,
            cfg.arena.wf(),
            crate::vm::reach::blocks_held(cfg.arena.nodes@, cfg.blocks@),
            read@.len() == 16,
            forall|r: Reg|
                read@[#[trigger] r.number() as int] == read_width(cfg.arena.nodes@, *sb, *b, r),
            f == homes_in(*cfg, *sb, *b),
            forall|i: int| 0 <= i < k ==> #[trigger] homes@[i] == f(GPRS@[i]),
        decreases 16 - k,
    {
        let q: Reg = GPRS[k];
        proof {
            assert(q.number() == k);
        }
        let home: Option<Reg> = if q == Reg::Rsp || !is_left(&b.exit_regs, q) {
            None
        } else {
            match find_agreed(cfg, &b.preds, q) {
                Some((h, bits)) => if h != q && read[k] <= bits {
                    Some(h)
                } else {
                    None
                },
                None => None,
            }
        };
        homes.push(home);
        k = k + 1;
    }
    proof {
        assert forall|q: Reg| homes@[#[trigger] q.number() as int] == f(q) by {
            assert(GPRS@[q.number() as int] == q);
        }
    }
    homes
}

/// Whether blocks are others with every entry value read from where the predecessors leave
/// it.
pub open spec fn reads_renamed(cfg: Cfg, a: Seq<SchedBlock>, b: Seq<SchedBlock>) -> bool {
    &&& b.len() == a.len()
    &&& forall|i: int|
        0 <= i < a.len() ==> renamed_block(
            homes_in(cfg, a[i], cfg.blocks@[i]),
            a[i],
            #[trigger] b[i],
        )
}

/// Read every entry value from the register that all predecessors of the block leave it in.
pub fn rename_entry_reads(cfg: &Cfg, blocks: &mut Vec<SchedBlock>)
    requires
        cfg.arena.wf(),
        crate::vm::reach::blocks_held(cfg.arena.nodes@, cfg.blocks@),
        old(blocks)@.len() == cfg.blocks@.len(),
    ensures
        reads_renamed(*cfg, old(blocks)@, final(blocks)@),
{
    let ghost b0 = blocks@;
    let mut k: usize = 0;
    while k < blocks.len()
        invariant
            k <= blocks@.len() == b0.len() == cfg.blocks@.len(),
            cfg.arena.wf(),
            crate::vm::reach::blocks_held(cfg.arena.nodes@, cfg.blocks@),
            forall|i: int|
                0 <= i < b0.len() ==> if i < k {
                    renamed_block(
                        homes_in(*cfg, b0[i], cfg.blocks@[i]),
                        b0[i],
                        #[trigger] blocks@[i],
                    )
                } else {
                    blocks@[i] == b0[i]
                },
        decreases blocks@.len() - k,
    {
        let ghost before = blocks@;
        proof {
            assert(blocks@[k as int] == b0[k as int]);
            assert(crate::ir::lower::block_held(cfg.arena.nodes@, cfg.blocks@[k as int]));
        }
        let homes = find_homes(cfg, &blocks[k], &cfg.blocks[k]);
        rename_block(
            &homes,
            &mut blocks[k],
            Ghost(homes_in(*cfg, b0[k as int], cfg.blocks@[k as int])),
        );
        proof {
            assert forall|i: int| 0 <= i < b0.len() implies if i < k + 1 {
                renamed_block(
                    homes_in(*cfg, b0[i], cfg.blocks@[i]),
                    b0[i],
                    #[trigger] blocks@[i],
                )
            } else {
                blocks@[i] == b0[i]
            } by {
                if i != k {
                    assert(blocks@[i] == before[i]);
                }
            }
        }
        k = k + 1;
    }
}

} // verus!
