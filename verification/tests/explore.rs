//! Validation of recovered graphs and the search for branch conditions.

use tvm_devirt::ir::expr::{Arena, BlockRef};
use tvm_devirt::ir::graph::{Block, BlockId, Cfg, Terminator};
use tvm_devirt::ir::value::{BinOp, Reg, Width};
use tvm_devirt::vm::candidates::flag_candidates;
use tvm_devirt::vm::validate::{adoption_covers_the_block, validate};
use tvm_devirt::vm::DEFAULT_STACK_BASE;

const STACK_BASE: u64 = DEFAULT_STACK_BASE;

fn blk(handler: u64, preds: Vec<BlockId>, term: Terminator) -> Block {
    Block {
        id: BlockId { handler, vip: None },
        block_ref: BlockRef(handler as u32),
        params: Vec::new(),
        events: Vec::new(),
        // These are structural tests: the blocks carry no VM context, so the
        // "no bytecode position" invariant does not apply to them.
        from_vm_context: false,
        exit_regs: Vec::new(),
        terminator: term,
        cost: 0,
        preds,
    }
}

fn id(h: u64) -> BlockId {
    BlockId {
        handler: h,
        vip: None,
    }
}

/// A diamond: 0 -> {1, 2} -> 3. Block 0 dominates all; 1 and 2 dominate only
/// themselves and neither dominates the join.
fn diamond() -> Cfg {
    let mut arena = Arena::default();
    let pred = arena.init_reg(Reg::Rax);
    let mut blocks = vec![
        blk(
            0,
            vec![],
            Terminator::Branch {
                predicate: pred,
                taken: id(1),
                not_taken: id(2),
            },
        ),
        blk(1, vec![id(0)], Terminator::Jump(id(3))),
        blk(2, vec![id(0)], Terminator::Jump(id(3))),
        blk(
            3,
            vec![id(1), id(2)],
            Terminator::TailCall { target: 0x1000 },
        ),
    ];
    blocks.sort_by_key(|b| b.id);
    Cfg {
        entry: id(0),
        arena,
        blocks,
        total_steps: 0,
        unresolved: 0,
        back_edges: Vec::new(),
        trivial_phis_removed: 0,
        timed_out: false,
        stack_base: STACK_BASE,
        vm_range: (0, 0),
    }
}

/// Adoption must be refused exactly when the block's events are incomplete.
#[test]
fn adoption_is_refused_when_it_would_lose_events() {
    // The two real truncations.
    assert!(
        !adoption_covers_the_block(2833, 4610),
        "0x140012bac lost 1777 steps including the indexed CAS"
    );
    assert!(
        !adoption_covers_the_block(2831, 4890),
        "0x140012d1c lost 2059 steps the same way"
    );
    // Reaching the same stop point is what makes adoption coherent.
    assert!(
        adoption_covers_the_block(4610, 4610),
        "same stop, safe to adopt"
    );
    // One step short is still short: there is no tolerance to spend, because a
    // single missing step can be the guest operation the whole block exists to
    // perform.
    assert!(
        !adoption_covers_the_block(4609, 4610),
        "one step short is short"
    );
    // The symbolic pass cannot outrun the concrete one, but if it ever did the
    // block would be fully covered and adoption stays sound.
    assert!(adoption_covers_the_block(4611, 4610), "more than covered");
    // A block the concrete pass never ran has nothing to be short of.
    assert!(adoption_covers_the_block(0, 0));
}

/// A graph where every path loops forever must be rejected, and the same
/// graph with one exit added must pass.
#[test]
fn a_graph_with_no_reachable_exit_is_rejected() {
    let mut arena = Arena::default();
    let pred = arena.init_reg(Reg::Rax);
    let spin = |arena: Arena, last: Terminator| {
        let mut blocks = vec![
            blk(0, vec![], Terminator::Jump(id(1))),
            blk(
                1,
                vec![id(0), id(2), id(3)],
                Terminator::Branch {
                    predicate: pred,
                    taken: id(2),
                    not_taken: id(3),
                },
            ),
            blk(2, vec![id(1)], Terminator::Backedge { target: id(1) }),
            blk(3, vec![id(1)], last),
        ];
        blocks.sort_by_key(|b| b.id);
        Cfg {
            entry: id(0),
            arena,
            blocks,
            total_steps: 0,
            unresolved: 0,
            back_edges: Vec::new(),
            trivial_phis_removed: 0,
            timed_out: false,
            stack_base: STACK_BASE,
            vm_range: (0, 0),
        }
    };

    let looping = spin(arena.clone(), Terminator::Backedge { target: id(1) });
    let issues = validate(&looping);
    assert_eq!(
        issues.cannot_reach_exit.len(),
        4,
        "every block of a graph that cannot terminate must be flagged"
    );
    assert!(!issues.is_clean());
    // Nothing else should be wrong with it: the point is that this graph is
    // well formed apart from having no way out.
    assert!(issues.dangling_edges.is_empty());
    assert!(issues.orphans.is_empty());
    assert!(issues.degenerate_branches.is_empty());

    // Giving one path an exit clears every block: block 2 loops back to 1,
    // and 1 can still reach the exit through 3.
    let exits = spin(arena.clone(), Terminator::TailCall { target: 0x1000 });
    assert!(validate(&exits).cannot_reach_exit.is_empty());

    // But a block that returns does not excuse a sibling stuck in a closed
    // cycle. This is the shape that reached the output file: one arm of the
    // branch returns, the other spins, and checking only the entry passes it.
    let mut arena2 = arena;
    let pred2 = arena2.init_reg(Reg::Rbx);
    let dest = arena2.init_reg(Reg::Rax);
    let mut blocks = vec![
        blk(
            0,
            vec![],
            Terminator::Branch {
                predicate: pred2,
                taken: id(1),
                not_taken: id(2),
            },
        ),
        blk(1, vec![id(0)], Terminator::Return { dest }),
        blk(2, vec![id(0), id(3)], Terminator::Jump(id(3))),
        blk(3, vec![id(2)], Terminator::Jump(id(2))),
    ];
    blocks.sort_by_key(|b| b.id);
    let half = Cfg {
        entry: id(0),
        arena: arena2,
        blocks,
        total_steps: 0,
        unresolved: 0,
        back_edges: Vec::new(),
        trivial_phis_removed: 0,
        timed_out: false,
        stack_base: STACK_BASE,
        vm_range: (0, 0),
    };
    let issues = validate(&half);
    assert_eq!(
        issues.cannot_reach_exit,
        vec![id(2), id(3)],
        "a hanging arm must be flagged even when another arm returns"
    );
}

#[test]
fn using_a_sibling_branchs_param_is_flagged() {
    // Block 2 using block 1's parameter is unsound: block 1 does not run on
    // the path through block 2. This is exactly the mistake block parameters
    // exist to prevent, so validation must catch it.
    let mut cfg = diamond();
    let p = cfg.arena.param(BlockRef(1), Reg::Rax);
    let two = cfg.blocks.iter_mut().find(|b| b.id == id(2)).unwrap();
    two.exit_regs = vec![(Reg::Rax, p)];

    let issues = validate(&cfg);
    assert_eq!(
        issues.nondominating_params,
        vec![(id(2), BlockRef(1))]
    );
    assert!(!issues.is_clean());
}

#[test]
fn using_a_dominators_param_is_accepted() {
    // Block 3 using block 0's parameter is fine: block 0 dominates everything,
    // so the value is always defined by the time block 3 runs.
    let mut cfg = diamond();
    let p = cfg.arena.param(BlockRef(0), Reg::Rax);
    let three = cfg.blocks.iter_mut().find(|b| b.id == id(3)).unwrap();
    three.exit_regs = vec![(Reg::Rax, p)];

    let issues = validate(&cfg);
    assert!(issues.nondominating_params.is_empty());
    assert!(issues.is_clean());
}

/// The missing-position invariant applies to VM handlers, not to native blocks. `.tvm0` also holds *partially* virtualized functions: the VM stub runs the prologue and then jumps into ordinary `.text` that still addresses the VM context through RBP.
#[test]
fn a_native_block_without_a_bytecode_position_is_not_unidentified() {
    let mut cfg = diamond();
    cfg.vm_range = (0x1_0000, 0x2_0000);
    // Block 2 sits outside the VM section: a native continuation of the stub.
    let two = cfg.blocks.iter_mut().find(|b| b.id == id(2)).unwrap();
    two.from_vm_context = true;
    assert!(
        validate(&cfg).unidentified_blocks.is_empty(),
        "a native block needs no bytecode position to be identified"
    );

    // A block at a VM handler is still checked, since handlers are shared.
    let mut cfg = diamond();
    cfg.vm_range = (0, 0x1_0000);
    let two = cfg.blocks.iter_mut().find(|b| b.id == id(2)).unwrap();
    two.from_vm_context = true;
    assert_eq!(
        validate(&cfg).unidentified_blocks,
        vec![id(2)],
        "a VM handler without a position is ambiguous and must be flagged"
    );
}

/// The VJCC index shape must yield the ZF bit as a candidate.
#[test]
fn finds_one_bit_flag_under_trunc_and_shift() {
    let mut a = Arena::new();
    let packed = a.init_reg(Reg::Rax);
    let six = a.constant(6, Width::W64);
    let shifted = a.bin(BinOp::Shr, packed, six);
    let t = a.trunc(shifted, Width::W8);
    let one = a.constant(1, Width::W8);
    let bit = a.bin(BinOp::And, t, one);
    // index = bit << 3, then used as a table offset
    let wide = a.zext(bit, Width::W64);
    let three = a.constant(3, Width::W64);
    let idx = a.bin(BinOp::Shl, wide, three);
    let base = a.constant(0x140055f6b, Width::W64);
    let addr = a.bin(BinOp::Add, idx, base);
    let dest = a.load(addr, Width::W32);

    let cands = flag_candidates(&a, dest);
    assert!(
        !cands.is_empty(),
        "no candidates found for the VJCC index shape"
    );
    // The one-bit value must be among them.
    assert!(
        cands.iter().any(|&c| {
            let mut probe = a.clone();
            probe.known_zero(c) | 1 == u64::MAX
        }),
        "candidates contain no provably one-bit value"
    );
}
