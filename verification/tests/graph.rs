//! Graphs: edges, phis, dominators, problems and texts.

use tvm_devirt::ir::event::{BoxedMem, Event};
use tvm_devirt::ir::expr::{Arena, BlockRef, Ref};
use tvm_devirt::ir::flow::{successors_of, summarize, terminator_kind};
use tvm_devirt::ir::graph::{Block, BlockId, Cfg, Terminator};
use tvm_devirt::ir::value::{Reg, Width};
use tvm_devirt::vm::reach::{dominators, reachable_blocks};
use tvm_devirt::vm::validate::validate;
use tvm_devirt::vm::DEFAULT_STACK_BASE;

fn id(h: u64) -> BlockId {
    BlockId { handler: h, vip: None }
}

fn blk(h: u64, preds: Vec<BlockId>, terminator: Terminator) -> Block {
    Block {
        id: id(h),
        block_ref: BlockRef(h as u32),
        params: Vec::new(),
        events: Vec::new(),
        from_vm_context: false,
        exit_regs: Vec::new(),
        terminator,
        cost: 0,
        preds,
    }
}

fn graph(arena: Arena, blocks: Vec<Block>) -> Cfg {
    Cfg {
        entry: id(0),
        arena,
        blocks,
        total_steps: 0,
        unresolved: 0,
        back_edges: Vec::new(),
        trivial_phis_removed: 0,
        timed_out: false,
        stack_base: DEFAULT_STACK_BASE,
        vm_range: (0, 0),
    }
}

/// 0 leads to 1 and 2, which both lead to 3.
fn diamond(arena: Arena, predicate: Ref) -> Cfg {
    graph(
        arena,
        vec![
            blk(0, vec![], Terminator::Branch { predicate, taken: id(1), not_taken: id(2) }),
            blk(1, vec![id(0)], Terminator::Jump(id(3))),
            blk(2, vec![id(0)], Terminator::Jump(id(3))),
            blk(3, vec![id(1), id(2)], Terminator::TailCall { target: 0x1000 }),
        ],
    )
}

#[test]
fn identities_are_written_out() {
    assert_eq!(id(0x1400).text(), "0x1400");
    let b = BlockId { handler: 0x1400, vip: Some(0x20) };
    assert_eq!(b.text(), "0x1400@vip0x20");
}

#[test]
fn every_ending_leads_where_it_says() {
    let mut a = Arena::new();
    let r = a.init_reg(Reg::Rax);
    let cases = vec![
        (Terminator::Jump(id(1)), "jump", vec![id(1)]),
        (
            Terminator::Branch { predicate: r, taken: id(1), not_taken: id(2) },
            "branch",
            vec![id(1), id(2)],
        ),
        (
            Terminator::Switch { selector: r, targets: vec![id(3), id(4)] },
            "switch",
            vec![id(3), id(4)],
        ),
        (Terminator::Return { dest: r }, "return", vec![]),
        (Terminator::TailCall { target: 5 }, "tailcall", vec![]),
        (Terminator::Unresolved { reason: "x".into() }, "unresolved", vec![]),
        (Terminator::Backedge { target: id(1) }, "backedge", vec![id(1)]),
        (
            Terminator::Adopted { taken: id(1), not_taken: id(2) },
            "branch (edges only)",
            vec![id(1), id(2)],
        ),
        (Terminator::AdoptedSwitch { targets: vec![id(3)] }, "switch (edges only)", vec![id(3)]),
        (Terminator::AdoptedReturn, "return (adopted)", vec![]),
    ];
    for (t, kind, to) in cases {
        assert_eq!(terminator_kind(&t), kind);
        assert_eq!(successors_of(&t), to, "{kind}");
    }
}

#[test]
fn endings_are_counted() {
    let mut a = Arena::new();
    let p = a.init_reg(Reg::Rax);
    let mut m = summarize(&diamond(a, p));
    m.sort();
    assert_eq!(m, vec![("branch", 1), ("jump", 2), ("tailcall", 1)]);
}

#[test]
fn a_join_is_dominated_by_the_fork_alone() {
    let mut a = Arena::new();
    let p = a.init_reg(Reg::Rax);
    let cfg = diamond(a, p);
    assert_eq!(
        dominators(&cfg),
        vec![
            vec![true, false, false, false],
            vec![true, true, false, false],
            vec![true, false, true, false],
            vec![true, false, false, true],
        ]
    );
    assert_eq!(reachable_blocks(&cfg.blocks, id(1)), vec![false, true, false, true]);
}

#[test]
fn a_phi_lists_what_each_predecessor_leaves() {
    let mut a = Arena::new();
    let p = a.init_reg(Reg::Rax);
    let one = a.constant(1, Width::W64);
    let two = a.constant(2, Width::W64);
    let param = a.param(BlockRef(3), Reg::Rbx);
    let mut cfg = diamond(a, p);
    cfg.blocks[1].exit_regs = vec![(Reg::Rbx, one)];
    cfg.blocks[2].exit_regs = vec![(Reg::Rbx, two)];
    cfg.blocks[3].params = vec![(Reg::Rbx, param)];
    cfg.blocks[3].exit_regs = vec![(Reg::Rbx, param)];
    let phis = cfg.phis();
    assert_eq!(phis.len(), 1);
    assert_eq!((phis[0].block, phis[0].reg, phis[0].param), (id(3), Reg::Rbx, param));
    assert_eq!(phis[0].incoming, vec![(id(1), Some(one)), (id(2), Some(two))]);
    // The two differ, so the parameter stays.
    assert_eq!(cfg.simplify_phis(), 0);
    assert_eq!(cfg.blocks[3].params.len(), 1);
}

#[test]
fn a_phi_of_one_value_is_that_value() {
    let mut a = Arena::new();
    let p = a.init_reg(Reg::Rax);
    let one = a.constant(1, Width::W64);
    let param = a.param(BlockRef(3), Reg::Rbx);
    let mut cfg = diamond(a, p);
    cfg.blocks[1].exit_regs = vec![(Reg::Rbx, one)];
    cfg.blocks[2].exit_regs = vec![(Reg::Rbx, one)];
    cfg.blocks[3].params = vec![(Reg::Rbx, param)];
    cfg.blocks[3].exit_regs = vec![(Reg::Rbx, param)];
    assert_eq!(cfg.simplify_phis(), 1);
    assert!(cfg.blocks[3].params.is_empty());
    assert_eq!(cfg.blocks[3].exit_regs, vec![(Reg::Rbx, one)]);
}

#[test]
fn a_parameter_nothing_reads_is_removed() {
    let mut a = Arena::new();
    let p = a.init_reg(Reg::Rax);
    let param = a.param(BlockRef(3), Reg::Rbx);
    let mut cfg = diamond(a, p);
    cfg.blocks[3].params = vec![(Reg::Rbx, param)];
    assert_eq!(validate(&cfg).dead_params, 1);
    cfg.remove_dead_params();
    assert!(cfg.blocks[3].params.is_empty());
}

#[test]
fn each_problem_is_found() {
    let a = Arena::new();
    // 0 leads to a block that was never recovered; 5 has no predecessor; 6 occurs twice.
    let cfg = graph(
        a,
        vec![
            blk(0, vec![], Terminator::Adopted { taken: id(9), not_taken: id(6) }),
            blk(5, vec![], Terminator::AdoptedReturn),
            blk(6, vec![id(0)], Terminator::AdoptedReturn),
            blk(6, vec![id(0)], Terminator::AdoptedReturn),
        ],
    );
    let issues = validate(&cfg);
    assert_eq!(issues.dangling_edges, vec![(id(0), id(9))]);
    assert_eq!(issues.orphans, vec![id(5)]);
    assert_eq!(issues.duplicate_ids, vec![id(6)]);
    assert!(!issues.is_clean());
    assert_eq!(issues.summary(), "dangling_edges 1, orphans 1, duplicate_ids 1");

    let mut a = Arena::new();
    let predicate = a.init_reg(Reg::Rax);
    let cfg = graph(
        a,
        vec![
            blk(0, vec![], Terminator::Branch { predicate, taken: id(1), not_taken: id(1) }),
            blk(1, vec![id(0)], Terminator::AdoptedReturn),
        ],
    );
    let issues = validate(&cfg);
    assert_eq!(issues.degenerate_branches, vec![id(0)]);
    assert_eq!(issues.summary(), "degenerate_branches 1");
}

#[test]
fn a_clean_graph_says_so() {
    let mut a = Arena::new();
    let p = a.init_reg(Reg::Rax);
    let issues = validate(&diamond(a, p));
    assert!(issues.is_clean());
    assert_eq!(issues.summary(), "clean");
}

fn boxed(addr: Ref, used: Ref) -> Event {
    Event::Boxed {
        site: 0x10,
        text: "fild [rax]".into(),
        bytes: vec![0xdb],
        mem: Some(BoxedMem { addr, bytes: 8, writes: false }),
        defs: vec![],
        uses: vec![(0, used)],
    }
}

#[test]
fn a_replaced_parameter_is_gone_from_boxed_instructions() {
    let mut a = Arena::new();
    let p = a.init_reg(Reg::Rax);
    let one = a.constant(1, Width::W64);
    let param = a.param(BlockRef(3), Reg::Rbx);
    let mut cfg = diamond(a, p);
    cfg.blocks[1].exit_regs = vec![(Reg::Rbx, one)];
    cfg.blocks[2].exit_regs = vec![(Reg::Rbx, one)];
    cfg.blocks[3].params = vec![(Reg::Rbx, param)];
    cfg.blocks[3].events = vec![boxed(param, param)];
    assert_eq!(cfg.simplify_phis(), 1);
    match &cfg.blocks[3].events[0] {
        Event::Boxed { mem: Some(m), uses, .. } => {
            assert_eq!(m.addr, one);
            assert_eq!(uses, &vec![(0, one)]);
        }
        other => panic!("{other:?}"),
    }
}

#[test]
fn a_parameter_a_boxed_instruction_reads_stays() {
    let mut a = Arena::new();
    let p = a.init_reg(Reg::Rax);
    let by_addr = a.param(BlockRef(3), Reg::Rbx);
    let by_use = a.param(BlockRef(3), Reg::Rcx);
    let mut cfg = diamond(a, p);
    cfg.blocks[3].params = vec![(Reg::Rbx, by_addr), (Reg::Rcx, by_use)];
    cfg.blocks[3].events = vec![boxed(by_addr, by_use)];
    assert_eq!(validate(&cfg).dead_params, 0);
    cfg.remove_dead_params();
    assert_eq!(cfg.blocks[3].params.len(), 2);
}

#[test]
fn a_chain_of_phis_is_followed_to_its_end() {
    // 1 gets its parameter from 0, and 3 gets its own from 1 and 2.
    let mut a = Arena::new();
    let p = a.init_reg(Reg::Rax);
    let one = a.constant(1, Width::W64);
    let first = a.param(BlockRef(1), Reg::Rbx);
    let last = a.param(BlockRef(3), Reg::Rbx);
    let mut cfg = diamond(a, p);
    cfg.blocks[0].exit_regs = vec![(Reg::Rbx, one)];
    cfg.blocks[1].params = vec![(Reg::Rbx, first)];
    cfg.blocks[1].exit_regs = vec![(Reg::Rbx, first)];
    cfg.blocks[2].exit_regs = vec![(Reg::Rbx, first)];
    cfg.blocks[3].params = vec![(Reg::Rbx, last)];
    cfg.blocks[3].exit_regs = vec![(Reg::Rbx, last)];
    assert_eq!(cfg.simplify_phis(), 2);
    for b in &cfg.blocks {
        assert!(b.params.is_empty());
        for (_, v) in &b.exit_regs {
            assert_eq!(*v, one);
        }
    }
}
