//! Live ranges, register allocation, boundary moves and the audit of an allocation.

use std::collections::{HashMap, HashSet};
use tvm_devirt::ir::audit::{verify, AllocError};
use tvm_devirt::ir::graph::{BlockId, Terminator};
use tvm_devirt::ir::instr::{CallTarget, CastKind, FusedCmp, Instr, Operand, SchedBlock, ValId};
use tvm_devirt::ir::live::{intervals, ranges, Interval, Item, RegSet, ALLOCATABLE, VOLATILE};
use tvm_devirt::ir::moves::{reconcile, Move};
use tvm_devirt::ir::regalloc::{allocate, non_volatile, Alloc, Loc, Segment};
use tvm_devirt::ir::value::{BinOp, Reg, Width};

fn blk(instrs: Vec<Instr>, exits: Vec<(Reg, Operand)>) -> SchedBlock {
    SchedBlock {
        id: BlockId {
            handler: 0,
            vip: None,
        },
        instrs,
        exits,
        callee_set: Vec::new(),
        control: None,
        terminator: Terminator::Unresolved {
            reason: String::new(),
        },
        fused: None,
    }
}

fn v(n: u32) -> ValId {
    ValId(n)
}

#[test]
fn interval_ends_at_last_use() {
    // v0 = zext rax ; v1 = zext v0 ; store [v1], v1
    let b = blk(
        vec![
            Instr::Cast {
                dst: v(0),
                kind: CastKind::Zext,
                a: Operand::Entry(Reg::Rax),
                from: Width::W8,
                to: Width::W64,
            },
            Instr::Cast {
                dst: v(1),
                kind: CastKind::Zext,
                a: Operand::Val(v(0)),
                from: Width::W8,
                to: Width::W64,
            },
            Instr::Store {
                disp: 0,
                addr: Operand::Val(v(1)),
                value: Operand::Val(v(1)),
                width: Width::W64,
            },
        ],
        Vec::new(),
    );
    let ivs = intervals(&b);
    assert_eq!(
        ivs[0],
        Interval {
            val: v(0),
            def: 0,
            last_use: 2,
            crosses_call: false,
            avoid: RegSet::empty()
        }
    );
    assert_eq!(
        ivs[1],
        Interval {
            val: v(1),
            def: 1,
            last_use: 3,
            crosses_call: false,
            avoid: RegSet::empty()
        }
    );
    // v0 dies before v1 is last used, but they still overlap: v1 is defined while
    // v0 is live, so they cannot share a register.
    assert!(ivs[0].overlaps(&ivs[1]));
}

/// A chain of single-use arithmetic must be allocated to one register, so the two-operand lowering needs no copies at all.
#[test]
fn single_use_arithmetic_chain_coalesces_into_one_register() {
    // v0 = rax + 1 ; v1 = v0 | 2 ; v2 = v1 ^ 3 ; exit rax = v2
    let b = blk(
        vec![
            Instr::Bin {
                dst: v(0),
                op: BinOp::Add,
                a: Operand::Entry(Reg::Rax),
                b: Operand::Imm(1),
                width: Width::W64,
                operand_width: Width::W64,
            },
            Instr::Bin {
                dst: v(1),
                op: BinOp::Or,
                a: Operand::Val(v(0)),
                b: Operand::Imm(2),
                width: Width::W64,
                operand_width: Width::W64,
            },
            Instr::Bin {
                dst: v(2),
                op: BinOp::Xor,
                a: Operand::Val(v(1)),
                b: Operand::Imm(3),
                width: Width::W64,
                operand_width: Width::W64,
            },
        ],
        vec![(Reg::Rax, Operand::Val(v(2)))],
    );
    let a = allocate(&b);
    assert!(
        verify(&b, &a).is_empty(),
        "coalescing must not break the allocation"
    );

    // Each value dies into the next, so all three share one register.
    let loc_of = |val: u32, pos: usize| a.loc_at(Item::Val(v(val)), pos);
    let r0 = loc_of(0, 0);
    assert_eq!(r0, loc_of(1, 1), "v1 must reuse the register v0 dies in");
    assert_eq!(r0, loc_of(2, 2), "v2 must reuse it too");
    assert!(
        matches!(r0, Some(Loc::Reg(_))),
        "the chain must stay in a register"
    );
}

/// The relaxed overlap rule must accept only the one-position handoff, and still reject a real conflict. `verify` treats `end == start + 1` as a legal share, because `end` is one past the last read and x86 reads the operand before writing the result.
#[test]
fn overlap_rule_admits_the_handoff_but_not_a_real_conflict() {
    let b = blk(Vec::new(), Vec::new());
    let seg = |item: Item, start: usize, end: usize, reg: Reg| Segment {
        item,
        start,
        end,
        loc: Loc::Reg(reg),
    };

    // v0 read by the instruction at 1, which defines v1: end == start + 1.
    let handoff = Alloc {
        segments: vec![
            seg(Item::Val(v(0)), 0, 2, Reg::Rax),
            seg(Item::Val(v(1)), 1, 3, Reg::Rax),
        ],
        ..Alloc::default()
    };
    assert!(
        !verify(&b, &handoff)
            .iter()
            .any(|e| matches!(e, AllocError::Conflict { .. })),
        "a read-then-write handoff is not a conflict"
    );

    // One position further and v0 is still live after v1 is defined.
    let real = Alloc {
        segments: vec![
            seg(Item::Val(v(0)), 0, 3, Reg::Rax),
            seg(Item::Val(v(1)), 1, 4, Reg::Rax),
        ],
        ..Alloc::default()
    };
    assert!(
        verify(&b, &real)
            .iter()
            .any(|e| matches!(e, AllocError::Conflict { .. })),
        "a genuine overlap must still be reported"
    );
}

#[test]
fn exit_value_lives_to_end_of_block() {
    let b = blk(
        vec![Instr::Cast {
            dst: v(0),
            kind: CastKind::Zext,
            a: Operand::Entry(Reg::Rax),
            from: Width::W8,
            to: Width::W64,
        }],
        vec![(Reg::Rbx, Operand::Val(v(0)))],
    );
    let ivs = intervals(&b);
    assert_eq!(
        ivs[0].last_use, 2,
        "an exit value must outlive the last instruction"
    );
}

#[test]
fn value_live_across_call_is_flagged() {
    let b = blk(
        vec![
            Instr::Cast {
                dst: v(0),
                kind: CastKind::Zext,
                a: Operand::Entry(Reg::Rax),
                from: Width::W8,
                to: Width::W64,
            },
            Instr::Call {
                target: CallTarget::Direct(0x1000),
                args: Vec::new(),
            },
            Instr::Store {
                disp: 0,
                addr: Operand::Val(v(0)),
                value: Operand::Imm(0),
                width: Width::W64,
            },
        ],
        Vec::new(),
    );
    let ivs = intervals(&b);
    assert!(ivs[0].crosses_call);
}

#[test]
fn entry_value_keeps_its_own_register() {
    // v0 is computed from rax, and rax's entry value is still needed afterwards.
    // The allocator must not hand rax to v0.
    let b = blk(
        vec![Instr::Cast {
            dst: v(0),
            kind: CastKind::Zext,
            a: Operand::Entry(Reg::Rax),
            from: Width::W8,
            to: Width::W64,
        }],
        vec![
            (Reg::Rbx, Operand::Entry(Reg::Rax)),
            (Reg::Rcx, Operand::Val(v(0))),
        ],
    );
    let a = allocate(&b);
    assert_eq!(a.loc_at(Item::Entry(Reg::Rax), 0), Some(Loc::Reg(Reg::Rax)));
    assert_ne!(
        a.loc_at(Item::Val(v(0)), 1),
        Some(Loc::Reg(Reg::Rax)),
        "v0 must not take the register still holding rax's entry value"
    );
}

#[test]
fn value_crossing_a_call_gets_a_non_volatile() {
    let b = blk(
        vec![
            Instr::Opaque {
                dst: v(0),
                tag: "t",
                width: Width::W64,
                at: None,
            },
            Instr::Call {
                target: CallTarget::Direct(0x1000),
                args: Vec::new(),
            },
            Instr::Store {
                disp: 0,
                addr: Operand::Val(v(0)),
                value: Operand::Imm(0),
                width: Width::W64,
            },
        ],
        Vec::new(),
    );
    let a = allocate(&b);
    match a.loc_at(Item::Val(v(0)), 1) {
        Some(Loc::Reg(r)) => assert!(
            !VOLATILE.contains(&r),
            "a value live across a call cannot sit in volatile {r:?}"
        ),
        Some(Loc::Spill(_)) => {}
        None => panic!("v0 was not placed"),
    }
}

#[test]
fn excess_pressure_spills() {
    // More simultaneously-live values than there are registers. Every value must
    // still be placed, with the overflow going to stack slots.
    let n = ALLOCATABLE.len() + 4;
    let mut instrs: Vec<Instr> = (0..n)
        .map(|i| Instr::Opaque {
            dst: v(i as u32),
            tag: "t",
            width: Width::W64,
            at: None,
        })
        .collect();
    // Keep them all live to the end by storing each one.
    for i in 0..n {
        instrs.push(Instr::Store {
            disp: 0,
            addr: Operand::Imm(0x1000),
            value: Operand::Val(v(i as u32)),
            width: Width::W64,
        });
    }
    let b = blk(instrs, Vec::new());
    let a = allocate(&b);
    for i in 0..n {
        assert!(
            a.loc_at(Item::Val(v(i as u32)), n).is_some(),
            "value {i} unplaced"
        );
    }
    assert!(a.slots > 0, "excess pressure must produce spill slots");
    // No two live values may share a register.
    let mut seen = HashSet::new();
    for i in 0..n {
        if let Some(Loc::Reg(r)) = a.loc_at(Item::Val(v(i as u32)), n) {
            assert!(
                seen.insert(r),
                "register {r:?} assigned twice among live values"
            );
        }
    }
}

#[test]
fn entry_value_in_volatile_is_split_across_a_call() {
    // rcx's entry value is needed after a call, but a call destroys rcx. The
    // range must split: rcx up to the call, somewhere preserved afterwards, with a
    // copy between.
    let b = blk(
        vec![
            Instr::Store {
                disp: 0,
                addr: Operand::Entry(Reg::Rcx),
                value: Operand::Imm(0),
                width: Width::W64,
            },
            Instr::Call {
                target: CallTarget::Direct(0x1000),
                args: Vec::new(),
            },
            Instr::Store {
                disp: 0,
                addr: Operand::Entry(Reg::Rcx),
                value: Operand::Imm(1),
                width: Width::W64,
            },
        ],
        Vec::new(),
    );
    let a = allocate(&b);
    assert_eq!(
        a.loc_at(Item::Entry(Reg::Rcx), 0),
        Some(Loc::Reg(Reg::Rcx)),
        "before the call the value is still in rcx"
    );
    let after = a
        .loc_at(Item::Saved(Reg::Rcx), 2)
        .expect("split half must be placed");
    if let Loc::Reg(r) = after {
        assert!(
            !VOLATILE.contains(&r),
            "the saved half must survive the call"
        );
    }
    assert_eq!(a.copies.len(), 1, "the split needs exactly one copy");
    assert_eq!(a.copies[0].from, Loc::Reg(Reg::Rcx));
    assert_eq!(a.copies[0].to, after);
    assert!(verify(&b, &a).is_empty(), "{:?}", verify(&b, &a));
}

#[test]
fn spill_slots_are_reused_when_lifetimes_do_not_overlap() {
    // Two batches of high pressure separated in time. The second batch should
    // reuse the first batch's slots rather than allocating new ones.
    let n = ALLOCATABLE.len() + 3;
    let mut instrs: Vec<Instr> = Vec::new();
    for batch in 0..2u32 {
        let base = batch * 100;
        for i in 0..n {
            instrs.push(Instr::Opaque {
                dst: v(base + i as u32),
                tag: "t",
                width: Width::W64,
                at: None,
            });
        }
        for i in 0..n {
            instrs.push(Instr::Store {
                disp: 0,
                addr: Operand::Imm(0x1000),
                value: Operand::Val(v(base + i as u32)),
                width: Width::W64,
            });
        }
    }
    let b = blk(instrs, Vec::new());
    let a = allocate(&b);
    assert!(
        a.slots <= 6,
        "slots should be reused across disjoint pressure peaks, got {}",
        a.slots
    );
    assert!(verify(&b, &a).is_empty(), "{:?}", verify(&b, &a));
}

/// What a reload from the first spill slot is modelled as.
const SPILL_BASE: u64 = 0x9000;

/// Run a move sequence against a starting register state and report the result.
fn run_moves(start: &HashMap<Reg, u64>, moves: &[Move]) -> HashMap<Reg, u64> {
    let mut st = start.clone();
    for m in moves {
        match m {
            Move::Assign {
                dst,
                src: Loc::Reg(r),
            } => {
                let v = *st.get(r).unwrap_or(&0);
                st.insert(*dst, v);
            }
            // A reload is modelled as a distinct value per slot.
            Move::Assign {
                dst,
                src: Loc::Spill(i),
            } => {
                st.insert(*dst, SPILL_BASE + *i as u64);
            }
            Move::Imm { dst, value } => {
                st.insert(*dst, *value);
            }
            Move::Swap { a, b } => {
                let va = *st.get(a).unwrap_or(&0);
                let vb = *st.get(b).unwrap_or(&0);
                st.insert(*a, vb);
                st.insert(*b, va);
            }
            Move::Frame { dst, offset } => {
                // Treated as a distinct synthetic value for test purposes.
                st.insert(*dst, SPILL_BASE.wrapping_add(*offset as u64));
            }
        }
    }
    st
}

/// Check that `reconcile` realizes the parallel assignment in `exits`.
fn check_parallel(exits: Vec<(Reg, Operand)>) {
    let b = blk(Vec::new(), exits.clone());
    let a = allocate(&b);
    let moves = reconcile(&b, &a);

    // Distinct starting value per register, so any mix-up is visible.
    let start: HashMap<Reg, u64> = ALLOCATABLE
        .iter()
        .enumerate()
        .map(|(i, r)| (*r, 0x100 + i as u64))
        .collect();
    let got = run_moves(&start, &moves);

    for (dst, src) in &exits {
        let want = match src {
            Operand::Imm(v) => *v,
            Operand::Entry(r) | Operand::Param(r) => *start.get(r).expect("known reg"),
            Operand::Val(_) | Operand::Frame(_) | Operand::OutArg(_) => continue,
        };
        assert_eq!(
            got.get(dst).copied(),
            Some(want),
            "after {moves:?}, {dst:?} should hold the entry value of {src:?}"
        );
    }
}

#[test]
fn a_two_cycle_is_broken_by_a_swap() {
    // rax <- rcx and rcx <- rax simultaneously. No ordering of plain moves works.
    let exits = vec![
        (Reg::Rax, Operand::Entry(Reg::Rcx)),
        (Reg::Rcx, Operand::Entry(Reg::Rax)),
    ];
    let b = blk(Vec::new(), exits.clone());
    let moves = reconcile(&b, &allocate(&b));
    assert_eq!(
        moves.len(),
        1,
        "a two-cycle needs exactly one swap: {moves:?}"
    );
    assert!(matches!(moves[0], Move::Swap { .. }));
    check_parallel(exits);
}

#[test]
fn a_three_cycle_is_resolved() {
    check_parallel(vec![
        (Reg::Rax, Operand::Entry(Reg::Rcx)),
        (Reg::Rcx, Operand::Entry(Reg::Rdx)),
        (Reg::Rdx, Operand::Entry(Reg::Rax)),
    ]);
}

#[test]
fn fan_out_from_one_source_is_resolved() {
    // Two destinations read the same source, and one of them is that source's own
    // destination, so order matters.
    check_parallel(vec![
        (Reg::Rbx, Operand::Entry(Reg::Rax)),
        (Reg::R12, Operand::Entry(Reg::Rax)),
        (Reg::Rax, Operand::Entry(Reg::Rbx)),
    ]);
}

#[test]
fn immediates_and_cycles_mix() {
    check_parallel(vec![
        (Reg::Rax, Operand::Entry(Reg::Rcx)),
        (Reg::Rcx, Operand::Entry(Reg::Rax)),
        (Reg::Rbx, Operand::Imm(0xdead)),
    ]);
}

#[test]
fn dead_definitions_do_not_share_a_register() {
    // Two values, neither read. Both must still get an interval, or they could be
    // assigned the same register and later confused for one value.
    let b = blk(
        vec![
            Instr::Opaque {
                dst: v(0),
                tag: "t",
                width: Width::W64,
                at: None,
            },
            Instr::Opaque {
                dst: v(1),
                tag: "t",
                width: Width::W64,
                at: None,
            },
        ],
        Vec::new(),
    );
    let ivs = intervals(&b);
    assert_eq!(ivs.len(), 2);
}
#[test]
fn call_crossing_value_spills_only_when_non_volatiles_are_pinned() {
    // rcx is read after the call, so its live range spans it and splits.
    let instrs = || {
        vec![
            Instr::Call {
                target: CallTarget::Direct(0x1000),
                args: vec![],
            },
            Instr::Store {
                addr: Operand::Entry(Reg::Rcx),
                disp: 0,
                value: Operand::Imm(1),
                width: Width::W64,
            },
        ]
    };

    // Short exit list: the saved half gets a register.
    let lean = blk(instrs(), vec![(Reg::Rax, Operand::Entry(Reg::Rax))]);
    let a = allocate(&lean);
    let saved = a
        .segments
        .iter()
        .find(|s| s.item == Item::Saved(Reg::Rcx))
        .expect("rcx is read after the call, so its range splits");
    assert!(
        matches!(saved.loc, Loc::Reg(r) if !VOLATILE.contains(&r)),
        "expected a non-volatile register, got {:?}",
        saved.loc
    );

    // Every non-volatile pinned by an identity exit: nothing left to place it in.
    let pinned: Vec<(Reg, Operand)> = non_volatile()
        .into_iter()
        .map(|r| (r, Operand::Entry(r)))
        .collect();
    let crowded = blk(instrs(), pinned);
    let a2 = allocate(&crowded);
    let saved2 = a2
        .segments
        .iter()
        .find(|s| s.item == Item::Saved(Reg::Rcx))
        .expect("same split");
    assert!(
        matches!(saved2.loc, Loc::Spill(_)),
        "with all non-volatiles pinned the value must spill, got {:?}",
        saved2.loc
    );
}

/// A fused comparison reads its operands at the branch, so an entry value the
/// comparison names must stay live one past the last instruction.
#[test]
fn a_fused_comparison_keeps_its_entry_operand_live() {
    // rcx is read by nothing in the block; only the fused comparison uses it.
    let mut b = blk(
        vec![Instr::Cast {
            dst: v(0),
            kind: CastKind::Zext,
            a: Operand::Entry(Reg::Rax),
            from: Width::W8,
            to: Width::W64,
        }],
        Vec::new(),
    );
    b.fused = Some(FusedCmp {
        a: Operand::Entry(Reg::Rcx),
        b: Operand::Imm(0),
        op: BinOp::Eq,
        width: Width::W64,
    });

    let rs = ranges(&b);
    let rcx = rs
        .iter()
        .find(|r| r.item == Item::Entry(Reg::Rcx))
        .expect("the fused comparison's entry operand needs a range");
    assert_eq!(
        rcx.last_use,
        b.instrs.len() + 1,
        "a fused comparison operand is read by the branch, one past the last \
         instruction; a shorter range lets another value take the register"
    );
}

#[test]
fn value_live_across_a_boxed_write_avoids_its_registers() {
    let b = blk(
        vec![
            Instr::Cast {
                dst: v(0),
                kind: CastKind::Zext,
                a: Operand::Entry(Reg::Rsi),
                from: Width::W8,
                to: Width::W64,
            },
            // `cpuid` = 0f a2, writing RAX/RBX/RCX/RDX.
            Instr::Boxed {
                site: 0x2000,
                text: "cpuid".into(),
                bytes: vec![0x0f, 0xa2],
                mem: None,
                uses: Vec::new(),
            },
            Instr::Store {
                disp: 0,
                addr: Operand::Val(v(0)),
                value: Operand::Imm(0),
                width: Width::W64,
            },
        ],
        Vec::new(),
    );
    let ivs = intervals(&b);
    // The constraint is recorded in `avoid`, not `crosses_call`. Deliberately
    // narrower: `cpuid` rules out the four registers it writes, whereas
    // `crosses_call` would restrict the range to the eight non-volatile registers
    // and spill far more than necessary.
    assert!(
        !ivs[0].avoid.is_empty(),
        "a value read after a boxed instruction that clobbers registers must record \
         those registers, or it can be placed in one the instruction destroys"
    );
    for clobbered in [Reg::Rax, Reg::Rbx, Reg::Rcx, Reg::Rdx] {
        assert!(
            ivs[0].avoid.contains(clobbered),
            "cpuid writes {clobbered:?}, so it must be in the avoid set"
        );
    }
    let a = allocate(&b);
    let loc = a.loc_at(Item::Val(v(0)), 2);
    for clobbered in [Reg::Rax, Reg::Rbx, Reg::Rcx, Reg::Rdx] {
        assert_ne!(
            loc,
            Some(Loc::Reg(clobbered)),
            "cpuid destroys {clobbered:?}; a value live across it cannot live there"
        );
    }
    // And the verifier must agree, so a regression is caught even where the
    // allocator happens to pick a safe register by luck.
    assert!(
        verify(&b, &a).is_empty(),
        "the allocation must verify: {:?}",
        verify(&b, &a)
    );
}

#[test]
fn values_split_at_one_call_are_copied_in_the_order_they_end() {
    let store = |r: Reg| Instr::Store {
        disp: 0,
        addr: Operand::Entry(r),
        value: Operand::Imm(0),
        width: Width::W64,
    };
    let b = blk(
        vec![
            Instr::Call {
                target: CallTarget::Direct(0x1000),
                args: Vec::new(),
            },
            store(Reg::Rdx),
            store(Reg::Rcx),
        ],
        Vec::new(),
    );
    let a = allocate(&b);
    assert_eq!(a.copies.len(), 2);
    assert_eq!(a.copies[0].item, Item::Saved(Reg::Rdx));
    assert_eq!(a.copies[0].from, Loc::Reg(Reg::Rdx));
    assert_eq!(a.copies[1].item, Item::Saved(Reg::Rcx));
    assert_eq!(a.copies[1].from, Loc::Reg(Reg::Rcx));
    assert_eq!(a.copies[0].at, a.copies[1].at);
    assert_ne!(a.copies[0].to, a.copies[1].to);
    assert_eq!(a.slots, 0);
    assert!(verify(&b, &a).is_empty(), "{:?}", verify(&b, &a));
}
