//! The texts of scheduled code, and the errors of an allocation.

use std::collections::HashMap;
use tvm_devirt::ir::anchor::{reanchor_small_addrs_on_call_ret, stack_arg_count};
use tvm_devirt::ir::audit::{verify, AllocError};
use tvm_devirt::ir::expr::Ref;
use tvm_devirt::ir::frame::frame_extent;
use tvm_devirt::ir::graph::{BlockId, Terminator};
use tvm_devirt::ir::instr::{
    BoxedMemOp, CallTarget, CastKind, FusedCmp, Instr, Operand, SchedBlock, ValId,
};
use tvm_devirt::ir::live::{Item, RegSet};
use tvm_devirt::ir::moves::{render_move, Move};
use tvm_devirt::ir::passes::fold_addressing;
use tvm_devirt::ir::regalloc::{Alloc, Loc, Segment};
use tvm_devirt::ir::render::{render_args, render_block_with, render_instr, render_operand};
use tvm_devirt::ir::thread::merge_identical_returns;
use tvm_devirt::ir::value::{BinOp, Reg, UnOp, Width};

fn v(n: u32) -> ValId {
    ValId(n)
}

fn block(instrs: Vec<Instr>) -> SchedBlock {
    SchedBlock {
        id: BlockId { handler: 0x1000, vip: None },
        instrs,
        exits: Vec::new(),
        callee_set: Vec::new(),
        control: None,
        fused: None,
        terminator: Terminator::AdoptedReturn,
    }
}

fn call() -> Instr {
    Instr::Call { target: CallTarget::Direct(0x2000), args: Vec::new() }
}

#[test]
fn operands_are_written_out() {
    assert_eq!(render_operand(Operand::Val(v(3))), "v3");
    assert_eq!(render_operand(Operand::Imm(255)), "0xff");
    assert_eq!(render_operand(Operand::Param(Reg::Rcx)), "in.rcx");
    assert_eq!(render_operand(Operand::Entry(Reg::R12)), "r12");
    assert_eq!(render_operand(Operand::Frame(-0x28)), "rsp-0x28");
    assert_eq!(render_operand(Operand::Frame(8)), "rsp+0x8");
    assert_eq!(render_operand(Operand::OutArg(0x20)), "arg[rsp+0x20]");
    let args = vec![(Reg::Rcx, Operand::Val(v(3))), (Reg::Rdx, Operand::Imm(0))];
    assert_eq!(render_args(&args), "(rcx=v3, rdx=0x0)");
    assert_eq!(render_args(&Vec::new()), "");
}

#[test]
fn instructions_are_written_out() {
    let cases = vec![
        (
            Instr::Bin {
                dst: v(1),
                op: BinOp::Add,
                a: Operand::Entry(Reg::Rax),
                b: Operand::Imm(1),
                width: Width::W32,
                operand_width: Width::W32,
            },
            "v1:32 = Add rax, 0x1",
        ),
        (
            Instr::Un { dst: v(1), op: UnOp::Not, a: Operand::Val(v(0)), width: Width::W64 },
            "v1:64 = Not v0",
        ),
        (
            Instr::Cast {
                dst: v(1),
                kind: CastKind::Zext,
                a: Operand::Val(v(0)),
                from: Width::W8,
                to: Width::W64,
            },
            "v1:64 = Zext8 v0",
        ),
        (
            Instr::Select {
                dst: v(2),
                cond: Operand::Val(v(0)),
                a: Operand::Imm(1),
                b: Operand::Imm(2),
                width: Width::W16,
            },
            "v2:16 = select v0, 0x1, 0x2",
        ),
        (
            Instr::Load { dst: v(2), addr: Operand::Val(v(0)), disp: -8, width: Width::W64 },
            "v2:64 = load [v0-0x8]",
        ),
        (
            Instr::Store {
                addr: Operand::Frame(-0x10),
                value: Operand::Imm(7),
                disp: 0,
                width: Width::W8,
            },
            "store8 [rsp-0x10], 0x7",
        ),
        (call(), "call 0x2000"),
        (
            Instr::Call { target: CallTarget::Unknown { site: 0x10 }, args: Vec::new() },
            "call <unrecovered> @0x10",
        ),
        (
            Instr::Call {
                target: CallTarget::Indirect(Operand::Val(v(4))),
                args: vec![(Reg::Rcx, Operand::Imm(1))],
            },
            "call [v4](rcx=0x1)",
        ),
        (
            Instr::Boxed {
                site: 0x20,
                text: "rdmsr".into(),
                bytes: vec![0x0f, 0x32],
                mem: None,
                uses: vec![(Reg::Rcx, Operand::Val(v(1)))],
            },
            "boxed @0x20 rdmsr(rcx=v1)",
        ),
        (
            Instr::Boxed {
                site: 0x20,
                text: "movups".into(),
                bytes: Vec::new(),
                mem: Some(BoxedMemOp { addr: Operand::Val(v(1)), bytes: 16, writes: true }),
                uses: Vec::new(),
            },
            "boxed @0x20 movups   ; mem v1 16 bytes write",
        ),
        (
            Instr::Opaque { dst: v(5), tag: "call_ret", width: Width::W64, at: Some(Reg::Rax) },
            "v5:64 = opaque call_ret @Rax",
        ),
    ];
    for (i, text) in cases {
        assert_eq!(render_instr(&i), text);
    }
}

#[test]
fn a_block_is_written_out() {
    let mut b = block(vec![Instr::Call {
        target: CallTarget::Import { slot: 0x3000 },
        args: Vec::new(),
    }]);
    b.fused = Some(FusedCmp {
        a: Operand::Entry(Reg::Rcx),
        b: Operand::Imm(0),
        op: BinOp::Slt,
        width: Width::W64,
    });
    b.exits = vec![
        (Reg::Rbx, Operand::Entry(Reg::Rbx)),
        (Reg::Rax, Operand::Imm(1)),
    ];
    b.callee_set = vec![Reg::Rcx, Reg::Rdx];
    let names: HashMap<u64, String> = [(0x3000u64, "Sleep".to_string())].into_iter().collect();
    assert_eq!(
        render_block_with(&b, &names),
        "0x1000:\n    call Sleep\n    control = rcx s< 0x0\n    exits: rax=0x1\n    \
         (callee-set: rcx, rdx)\n"
    );
}

#[test]
fn moves_are_written_out() {
    let m = |m: Move| render_move(&m);
    assert_eq!(m(Move::Assign { dst: Reg::Rax, src: Loc::Reg(Reg::Rbx) }), "mov rax, rbx");
    assert_eq!(m(Move::Assign { dst: Reg::Rax, src: Loc::Spill(2) }), "mov rax, [spill2]");
    assert_eq!(m(Move::Imm { dst: Reg::Rcx, value: 0x10 }), "mov rcx, 0x10");
    assert_eq!(m(Move::Frame { dst: Reg::Rcx, offset: -8 }), "lea rcx, [rsp-0x8]");
    assert_eq!(m(Move::Swap { a: Reg::Rax, b: Reg::Rdx }), "xchg rax, rdx");
}

#[test]
fn each_fault_of_an_allocation_is_reported() {
    let opaque = |n: u32| Instr::Opaque { dst: v(n), tag: "t", width: Width::W64, at: None };
    let keep = |n: u32| Instr::Store {
        addr: Operand::Imm(0x1000),
        value: Operand::Val(v(n)),
        disp: 0,
        width: Width::W64,
    };
    let seg = |n: u32, start: usize, end: usize, reg: Reg| Segment {
        item: Item::Val(v(n)),
        start,
        end,
        loc: Loc::Reg(reg),
    };
    // A value with no place at all.
    let b = block(vec![opaque(0), keep(0)]);
    let errs = verify(&b, &Alloc::default());
    assert!(errs.iter().any(|e| matches!(e, AllocError::Unplaced { item } if *item == Item::Val(v(0)))));
    // One kept in a register that a call destroys.
    let b = block(vec![opaque(0), call(), keep(0)]);
    let a = Alloc { segments: vec![seg(0, 0, 3, Reg::Rcx)], ..Alloc::default() };
    let errs = verify(&b, &a);
    assert!(errs.iter().any(
        |e| matches!(e, AllocError::VolatileAcrossCall { reg: Reg::Rcx, item } if *item == Item::Val(v(0)))
    ));
    let a = Alloc { segments: vec![seg(0, 0, 3, Reg::Rbx)], ..Alloc::default() };
    assert!(verify(&b, &a).is_empty());
    // Two in one register.
    let b = block(vec![opaque(0), opaque(1), keep(0), keep(1)]);
    let a = Alloc {
        segments: vec![seg(0, 0, 3, Reg::Rbx), seg(1, 1, 4, Reg::Rbx)],
        ..Alloc::default()
    };
    assert!(verify(&b, &a).iter().any(|e| matches!(e, AllocError::Conflict { reg: Reg::Rbx, .. })));
}

#[test]
fn register_sets_hold_what_is_put_in() {
    let mut s = RegSet::empty();
    assert!(s.is_empty());
    s.insert(Reg::R15);
    assert!(s.contains(Reg::R15) && !s.contains(Reg::Rax));
    let mut t = RegSet::default();
    t.insert(Reg::Rax);
    let u = s.union(t);
    assert!(u.contains(Reg::R15) && u.contains(Reg::Rax) && !u.contains(Reg::Rcx));
}

#[test]
fn an_addition_folds_into_the_access() {
    let mut b = block(vec![
        Instr::Bin {
            dst: v(0),
            op: BinOp::Add,
            a: Operand::Entry(Reg::Rcx),
            b: Operand::Imm(0x18),
            width: Width::W64,
            operand_width: Width::W64,
        },
        Instr::Load { dst: v(1), addr: Operand::Val(v(0)), disp: 0, width: Width::W32 },
    ]);
    b.exits = vec![(Reg::Rax, Operand::Val(v(1)))];
    assert_eq!(fold_addressing(&mut b), 1);
    assert_eq!(render_instr(&b.instrs[1]), "v1:32 = load [rcx+0x18]");
}

#[test]
fn frame_and_argument_slots_are_measured() {
    let store = |addr: Operand, width: Width| Instr::Store {
        addr,
        value: Operand::Imm(0),
        disp: 0,
        width,
    };
    let b = block(vec![
        store(Operand::Frame(-0x30), Width::W64),
        store(Operand::Frame(-0x10), Width::W8),
        store(Operand::OutArg(0x20), Width::W64),
        store(Operand::OutArg(0x28), Width::W32),
    ]);
    assert_eq!(frame_extent(&b), Some((-0x30, -0x10)));
    assert_eq!(stack_arg_count(&b), 2);
    let none = block(Vec::new());
    assert_eq!(frame_extent(&none), None);
    assert_eq!(stack_arg_count(&none), 0);
}

#[test]
fn a_small_address_is_relative_to_the_last_result() {
    let mut instrs = vec![
        call(),
        Instr::Opaque { dst: v(0), tag: "call_ret", width: Width::W64, at: Some(Reg::Rax) },
        Instr::Load { dst: v(1), addr: Operand::Imm(0x18), disp: 0, width: Width::W64 },
    ];
    reanchor_small_addrs_on_call_ret(&mut instrs);
    assert_eq!(render_instr(&instrs[2]), "v1:64 = load [v0+0x18]");
}

#[test]
fn returns_that_do_the_same_become_one() {
    let ret = |h: u64| {
        let mut b = block(Vec::new());
        b.id = BlockId { handler: h, vip: None };
        b.exits = vec![(Reg::Rax, Operand::Imm(1))];
        b.terminator = Terminator::Return { dest: Ref { idx: 0 } };
        b
    };
    let mut first = block(Vec::new());
    first.id = BlockId { handler: 0, vip: None };
    first.terminator = Terminator::Adopted {
        taken: BlockId { handler: 1, vip: None },
        not_taken: BlockId { handler: 2, vip: None },
    };
    let mut blocks = vec![first, ret(1), ret(2)];
    merge_identical_returns(&mut blocks);
    match &blocks[0].terminator {
        Terminator::Adopted { taken, not_taken } => assert_eq!(taken, not_taken),
        other => panic!("{other:?}"),
    }
}
