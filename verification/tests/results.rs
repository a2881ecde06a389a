//! What instructions leave behind: results of calls, unknown values, constants and moves.

use tvm_devirt::ir::boxed::EBX;
use tvm_devirt::ir::event::{Event, Region, Step};
use tvm_devirt::ir::expr::{Arena, BlockRef, Op, Ref};
use tvm_devirt::ir::graph::{Block, BlockId, Cfg, Terminator};
use tvm_devirt::ir::instr::{CallTarget, Instr, Operand, SchedBlock};
use tvm_devirt::ir::lift::Emulator;
use tvm_devirt::ir::lower::{retarget_stack_args, schedule_block};
use tvm_devirt::ir::moves::{reconcile, Move};
use tvm_devirt::ir::regalloc::{allocate, Loc};
use tvm_devirt::ir::schedule::Scheduler;
use tvm_devirt::ir::value::{BinOp, Reg, UnOp, Width};
use tvm_devirt::ir::x86::EAX;
use tvm_devirt::vm::image::{Image, Import, Section};
use tvm_devirt::vm::state::Flag;
use tvm_devirt::vm::DEFAULT_STACK_BASE;

const TEXT: u64 = 0x1_4000_1000;
const DATA: u64 = 0x1_4000_3000;

fn id(handler: u64) -> BlockId {
    BlockId { handler, vip: None }
}

fn block(events: Vec<Event>) -> Block {
    Block {
        id: id(0),
        block_ref: BlockRef(0),
        params: Vec::new(),
        events,
        from_vm_context: false,
        exit_regs: Vec::new(),
        terminator: Terminator::AdoptedReturn,
        cost: 0,
        preds: Vec::new(),
    }
}

fn graph(arena: Arena, blocks: Vec<Block>) -> Cfg {
    Cfg {
        entry: id(0),
        arena,
        blocks,
        total_steps: 0,
        unresolved: 0,
        back_edges: Vec::new(),
        trivial_phis_removed: 0,
        timed_out: false,
        stack_base: DEFAULT_STACK_BASE,
        vm_range: (0, 0),
    }
}

fn image(code: &[u8]) -> Image {
    Image {
        sections: vec![
            Section {
                name: ".text".into(),
                start: TEXT,
                virtual_size: 0x1000,
                raw_size: code.len() as u32,
                data: code.to_vec(),
                writable: false,
                executable: true,
            },
            Section {
                name: ".rdata".into(),
                start: DATA,
                virtual_size: 0x1000,
                raw_size: 0,
                data: Vec::new(),
                writable: false,
                executable: false,
            },
        ],
        imports: vec![Import {
            slot: DATA + 0x100,
            module: "KERNEL32.dll".into(),
            name: "Sleep".into(),
        }],
        functions: Vec::new(),
    }
}

fn call(site: u64, rsp: u64, ret: Ref) -> Event {
    Event::Call {
        target: None,
        site,
        rsp: Some(rsp),
        import_slot: Some(DATA + 0x100),
        args: Vec::new(),
        ret: Some(ret),
    }
}

fn tag_of(a: &Arena, r: Ref) -> Option<(&'static str, u32)> {
    match a.op(r) {
        Op::Opaque(tag, n) => Some((*tag, *n)),
        _ => None,
    }
}

#[test]
fn each_call_is_followed_by_what_it_returns() {
    let mut a = Arena::new();
    let first = a.opaque("call_ret", Width::W64);
    let second = a.opaque("call_ret", Width::W64);
    let at = a.init_reg(Reg::Rbx);
    let sum = a.bin(BinOp::Add, first, second);
    let store = Event::Store {
        addr: at,
        value: sum,
        width: Width::W64,
        site: 0x30,
        region: Region::Guest,
    };
    let rsp = DEFAULT_STACK_BASE - 0x28;
    let cfg = graph(a, vec![block(vec![call(0x10, rsp, first), call(0x20, rsp, second), store])]);
    let sb = schedule_block(&cfg, &cfg.blocks[0]);
    assert_eq!(sb.instrs.len(), 6);
    let mut values = Vec::new();
    for k in [0, 2] {
        assert!(matches!(sb.instrs[k], Instr::Call { .. }));
        match &sb.instrs[k + 1] {
            Instr::Opaque { dst, tag, width, at } => {
                assert_eq!((*tag, *width, *at), ("call_ret", Width::W64, Some(Reg::Rax)));
                values.push(Operand::Val(*dst));
            }
            other => panic!("{other:?}"),
        }
    }
    match &sb.instrs[4] {
        Instr::Bin { op: BinOp::Add, a, b, .. } => assert_eq!(vec![*a, *b], values),
        other => panic!("{other:?}"),
    }
    assert!(matches!(sb.instrs[5], Instr::Store { .. }));
}

#[test]
fn a_boxed_instruction_is_followed_by_what_it_leaves() {
    let mut a = Arena::new();
    let x = a.opaque("cpuid", Width::W64);
    let y = a.opaque("cpuid", Width::W64);
    let e = Event::Boxed {
        site: 0x10,
        text: "cpuid".into(),
        bytes: vec![0x0f, 0xa2],
        mem: None,
        defs: vec![(EAX, x), (EBX, y)],
        uses: Vec::new(),
    };
    let cfg = graph(a, vec![block(vec![e])]);
    let sb = schedule_block(&cfg, &cfg.blocks[0]);
    assert_eq!(sb.instrs.len(), 3);
    assert!(matches!(sb.instrs[0], Instr::Boxed { .. }));
    for (k, reg) in [(1, Reg::Rax), (2, Reg::Rbx)] {
        match &sb.instrs[k] {
            Instr::Opaque { tag, at, .. } => assert_eq!((*tag, *at), ("cpuid", Some(reg))),
            other => panic!("{other:?}"),
        }
    }
}

#[test]
fn the_stack_pointer_of_each_call_anchors_its_arguments() {
    // The same slot is an argument of the second call, whose stack pointer is lower.
    let mut a = Arena::new();
    let slot = a.constant(DEFAULT_STACK_BASE - 0x38, Width::W64);
    let v = a.constant(7, Width::W64);
    let first = a.opaque("call_ret", Width::W64);
    let second = a.opaque("call_ret", Width::W64);
    let store = Event::Store { addr: slot, value: v, width: Width::W64, site: 0x18, region: Region::Guest };
    let cfg = graph(
        a,
        vec![block(vec![
            call(0x10, DEFAULT_STACK_BASE - 0x8, first),
            store,
            call(0x20, DEFAULT_STACK_BASE - 0x58, second),
        ])],
    );
    let sb = schedule_block(&cfg, &cfg.blocks[0]);
    assert!(sb.instrs.iter().any(|i| matches!(i, Instr::Store { addr: Operand::OutArg(0x20), .. })));
}

#[test]
fn a_displacement_counts_when_arguments_are_anchored() {
    let mut instrs = vec![
        Instr::Store {
            addr: Operand::Frame(-0x40),
            value: Operand::Imm(0),
            disp: 8,
            width: Width::W32,
        },
        Instr::Call { target: CallTarget::Direct(TEXT), args: Vec::new() },
    ];
    retarget_stack_args(&mut instrs, &vec![(1, Some(DEFAULT_STACK_BASE - 0x58))], DEFAULT_STACK_BASE);
    assert!(matches!(instrs[0], Instr::Store { addr: Operand::OutArg(0x20), disp: 0, .. }));
}

#[test]
fn scheduling_again_appends_nothing() {
    let mut a = Arena::new();
    let x = a.init_reg(Reg::Rax);
    let y = a.load(x, Width::W64);
    let z = a.bin(BinOp::Mul, x, y);
    let n = a.un(UnOp::Bswap, z);
    let mut s = Scheduler::new(&a, BlockRef(0), DEFAULT_STACK_BASE);
    let first = s.value(n);
    let len = s.instrs.len();
    assert_eq!(len, 3);
    assert_eq!(s.value(n), first);
    for r in [x, y, z] {
        s.value(r);
    }
    assert_eq!(s.instrs.len(), len);
}

#[test]
fn an_unknown_shift_leaves_unknown_carry_and_overflow() {
    // shl eax, cl
    let pe = image(&[0xd3, 0xe0]);
    let mut emu = Emulator::new(&pe, DEFAULT_STACK_BASE);
    let before = emu.arena.opaque_counter;
    assert!(matches!(emu.step(TEXT), Step::Next(ip) if ip == TEXT + 2));
    let cf = emu.state.flag(Flag::Cf);
    let of = emu.state.flag(Flag::Of);
    assert_eq!(tag_of(&emu.arena, cf), Some(("shift_cf", before + 1)));
    assert_eq!(tag_of(&emu.arena, of), Some(("shift_of", before + 2)));
}

#[test]
fn a_call_leaves_new_values_in_what_it_may_change() {
    // call [rip + 0x20fa]
    let pe = image(&[0xff, 0x15, 0xfa, 0x20, 0x00, 0x00]);
    let mut emu = Emulator::new(&pe, DEFAULT_STACK_BASE);
    let rbx = emu.state.reg(Reg::Rbx);
    let before = emu.arena.opaque_counter;
    assert!(matches!(emu.step(TEXT), Step::Next(ip) if ip == TEXT + 6));
    let regs = [Reg::Rax, Reg::Rcx, Reg::Rdx, Reg::R8, Reg::R9, Reg::R10, Reg::R11];
    for (k, r) in regs.iter().enumerate() {
        let tag = if *r == Reg::Rax { "call_ret" } else { "clobbered" };
        assert_eq!(tag_of(&emu.arena, emu.state.reg(*r)), Some((tag, before + 1 + k as u32)));
    }
    let flags = [Flag::Cf, Flag::Of, Flag::Zf, Flag::Sf, Flag::Pf, Flag::Af];
    let tags = ["cf", "of", "flag", "flag", "flag", "flag"];
    for k in 0..6 {
        assert_eq!(
            tag_of(&emu.arena, emu.state.flag(flags[k])),
            Some((tags[k], before + 8 + k as u32))
        );
    }
    assert_eq!(emu.state.reg(Reg::Rbx), rbx);
    match &emu.events[emu.events.len() - 1] {
        Event::Call { ret, import_slot, .. } => {
            assert_eq!(*ret, Some(emu.state.reg(Reg::Rax)));
            assert_eq!(*import_slot, Some(DATA + 0x100));
        }
        other => panic!("{other:?}"),
    }
}

#[test]
fn a_move_carries_the_node() {
    // mov rbx, rax / mov ecx, eax
    let pe = image(&[0x48, 0x89, 0xc3, 0x89, 0xc1]);
    let mut emu = Emulator::new(&pe, DEFAULT_STACK_BASE);
    let rax = emu.state.reg(Reg::Rax);
    emu.run(TEXT, 2);
    assert_eq!(emu.state.reg(Reg::Rbx), rax);
    let low = emu.arena.trunc(rax, Width::W32);
    let wide = emu.arena.zext(low, Width::W64);
    assert_eq!(emu.state.reg(Reg::Rcx), wide);
}

#[test]
fn constants_stay_constants() {
    // xor eax, eax / mov al, 0x12 / imul ebx, eax, 3 / neg ebx
    let pe = image(&[0x31, 0xc0, 0xb0, 0x12, 0x6b, 0xd8, 0x03, 0xf7, 0xdb]);
    let mut emu = Emulator::new(&pe, DEFAULT_STACK_BASE);
    emu.run(TEXT, 4);
    assert_eq!(emu.arena.as_const(emu.state.reg(Reg::Rax)), Some(0x12));
    assert_eq!(emu.arena.as_const(emu.state.reg(Reg::Rbx)), Some(0xffff_ffca));
    assert_eq!(emu.arena.as_const(emu.state.flag(Flag::Sf)), Some(1));
    assert_eq!(emu.arena.as_const(emu.state.flag(Flag::Cf)), Some(1));
}

fn exits(list: Vec<(Reg, Operand)>) -> SchedBlock {
    SchedBlock {
        id: id(0),
        instrs: Vec::new(),
        exits: list,
        callee_set: Vec::new(),
        control: None,
        fused: None,
        terminator: Terminator::AdoptedReturn,
    }
}

#[test]
fn a_register_nothing_reads_is_written_first() {
    let b = exits(vec![
        (Reg::Rcx, Operand::Entry(Reg::Rax)),
        (Reg::Rax, Operand::Imm(5)),
        (Reg::Rdx, Operand::Entry(Reg::Rdx)),
    ]);
    let moves = reconcile(&b, &allocate(&b));
    assert_eq!(
        moves,
        vec![
            Move::Assign { dst: Reg::Rcx, src: Loc::Reg(Reg::Rax) },
            Move::Imm { dst: Reg::Rax, value: 5 },
        ]
    );
}

#[test]
fn a_phi_computed_from_itself_is_removed() {
    let mut a = Arena::new();
    let p = a.param(BlockRef(0), Reg::Rbx);
    let one = a.constant(1, Width::W64);
    let next = a.bin(BinOp::Add, p, one);
    let mut b = block(Vec::new());
    b.params = vec![(Reg::Rbx, p)];
    b.exit_regs = vec![(Reg::Rbx, next)];
    b.preds = vec![id(0)];
    b.terminator = Terminator::Jump(id(0));
    let mut cfg = graph(a, vec![b]);
    assert_eq!(cfg.simplify_phis(), 1);
    assert!(cfg.blocks[0].params.is_empty());
    assert!(cfg.phis().is_empty());
}

#[test]
fn rewriting_goes_through_the_constructors() {
    let mut a = Arena::new();
    let p = a.param(BlockRef(1), Reg::Rax);
    let x = a.init_reg(Reg::Rcx);
    let e = a.bin(BinOp::Xor, p, x);
    let map = std::collections::HashMap::from([(p.idx, x)]);
    let r = a.rewrite(e, &map);
    assert_eq!(a.as_const(r), Some(0));
}
