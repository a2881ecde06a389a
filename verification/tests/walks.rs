//! The order in which an expression is walked, and what is found in that order.

use tvm_devirt::ir::expr::{Arena, BlockRef};
use tvm_devirt::ir::graph::{Block, BlockId, Cfg, Terminator};
use tvm_devirt::ir::value::{BinOp, Reg, Width};
use tvm_devirt::ir::walk::leaves;
use tvm_devirt::vm::candidates::{flag_candidates, narrow_indices};
use tvm_devirt::vm::validate::validate;
use tvm_devirt::vm::DEFAULT_STACK_BASE;

fn id(handler: u64) -> BlockId {
    BlockId { handler, vip: None }
}

#[test]
fn the_last_operand_is_walked_first() {
    let mut a = Arena::new();
    let x = a.init_reg(Reg::Rax);
    let y = a.init_reg(Reg::Rbx);
    let d = a.bin(BinOp::Sub, x, y);
    assert_eq!(a.reachable(d), vec![d, y, x]);
    assert_eq!(leaves(&a, d), vec![y, x]);
}

#[test]
fn what_is_shared_is_walked_once() {
    let mut a = Arena::new();
    let x = a.init_reg(Reg::Rax);
    let y = a.init_reg(Reg::Rbx);
    let z = a.init_reg(Reg::Rcx);
    let low = a.bin(BinOp::Shl, x, y);
    let high = a.bin(BinOp::Shr, x, z);
    let d = a.bin(BinOp::Sub, low, high);
    let (found, depths) = a.reachable_ranked(d);
    assert_eq!(found, vec![d, high, z, x, low, y]);
    assert_eq!(depths, vec![0, 1, 2, 2, 1, 2]);
    assert_eq!(leaves(&a, d), vec![z, x, y]);
}

#[test]
fn ranges_of_one_size_come_in_the_order_of_the_walk() {
    let mut a = Arena::new();
    let x = a.init_reg(Reg::Rax);
    let y = a.init_reg(Reg::Rbx);
    let one = a.constant(1, Width::W64);
    let low = a.bin(BinOp::And, x, one);
    let high = a.bin(BinOp::And, y, one);
    let d = a.bin(BinOp::Shl, low, high);
    let found: Vec<_> = narrow_indices(&a, d).into_iter().filter(|(r, _)| *r != d).collect();
    assert_eq!(found, vec![(high, 1), (low, 1)]);
}

#[test]
fn bits_come_innermost_first() {
    let mut a = Arena::new();
    let x = a.init_reg(Reg::Rax);
    let y = a.init_reg(Reg::Rbx);
    let one = a.constant(1, Width::W64);
    let low = a.bin(BinOp::And, x, one);
    let high = a.bin(BinOp::And, y, one);
    let moved = a.bin(BinOp::Shl, x, low);
    let d = a.bin(BinOp::Sub, moved, high);
    assert_eq!(flag_candidates(&a, d), vec![low, high]);
}

#[test]
fn a_misread_parameter_counts_for_each_expression() {
    let mut a = Arena::new();
    let p = a.param(BlockRef(9), Reg::Rbx);
    let one = a.constant(1, Width::W64);
    let next = a.bin(BinOp::Add, p, one);
    let block = Block {
        id: id(0),
        block_ref: BlockRef(0),
        params: Vec::new(),
        events: Vec::new(),
        from_vm_context: false,
        exit_regs: vec![(Reg::Rax, p), (Reg::Rcx, next)],
        terminator: Terminator::AdoptedReturn,
        cost: 0,
        preds: Vec::new(),
    };
    let cfg = Cfg {
        entry: id(0),
        arena: a,
        blocks: vec![block],
        total_steps: 0,
        unresolved: 0,
        back_edges: Vec::new(),
        trivial_phis_removed: 0,
        timed_out: false,
        stack_base: DEFAULT_STACK_BASE,
        vm_range: (0, 0),
    };
    let issues = validate(&cfg);
    assert_eq!(issues.nondominating_params, vec![(id(0), BlockRef(9)), (id(0), BlockRef(9))]);
}
