//! Whole runs: the evaluator on small programs, and recovery down to allocated code.

use std::collections::HashMap;
use tvm_devirt::ir::audit::verify;
use tvm_devirt::ir::branch::callee_never_returns;
use tvm_devirt::ir::event::{Event, Region, Step, Stop};
use tvm_devirt::ir::expr::BlockRef;
use tvm_devirt::ir::flow::summarize;
use tvm_devirt::ir::graph::{BlockId, Cfg, Terminator};
use tvm_devirt::ir::guest::noreturn_import_slots;
use tvm_devirt::ir::lift::{Emulator, GUEST_IMAGE_ORDER};
use tvm_devirt::ir::moves::reconcile;
use tvm_devirt::ir::pipeline::{instr_count, schedule, schedule_counted};
use tvm_devirt::ir::regalloc::allocate;
use tvm_devirt::ir::region::layouts;
use tvm_devirt::ir::render::render_block_with;
use tvm_devirt::ir::value::{Reg, Width};
use tvm_devirt::vm::explore::{Explorer, OUT_OF_BLOCKS, OUT_OF_TIME};
use tvm_devirt::vm::image::{Image, Import, Section};
use tvm_devirt::vm::state::Flag;
use tvm_devirt::vm::validate::validate;
use tvm_devirt::vm::DEFAULT_STACK_BASE;

const TEXT: u64 = 0x1_4000_1000;
const DATA: u64 = 0x1_4000_3000;

fn image(code: &[u8]) -> Image {
    Image {
        sections: vec![
            Section {
                name: ".text".into(),
                start: TEXT,
                virtual_size: 0x1000,
                raw_size: code.len() as u32,
                data: code.to_vec(),
                writable: false,
                executable: true,
            },
            Section {
                name: ".rdata".into(),
                start: DATA,
                virtual_size: 0x1000,
                raw_size: 8,
                data: vec![0x88, 0x77, 0x66, 0x55, 0x44, 0x33, 0x22, 0x11],
                writable: false,
                executable: false,
            },
        ],
        imports: vec![
            Import { slot: DATA + 0x100, module: "KERNEL32.dll".into(), name: "Sleep".into() },
            Import { slot: DATA + 0x108, module: "ntoskrnl.exe".into(), name: "KeBugCheck".into() },
        ],
        functions: Vec::new(),
    }
}

fn value(emu: &Emulator, r: Reg) -> Option<u64> {
    emu.arena.as_const(emu.state.reg(r))
}

#[test]
fn arithmetic_is_evaluated() {
    // mov eax,5 / add eax,3 / ret
    let pe = image(&[0xb8, 5, 0, 0, 0, 0x83, 0xc0, 3, 0xc3]);
    let mut emu = Emulator::new(&pe, DEFAULT_STACK_BASE);
    let stop = emu.run(TEXT, 100);
    assert!(matches!(stop, Stop::Return { site, .. } if site == TEXT + 8), "{stop:?}");
    assert_eq!(value(&emu, Reg::Rax), Some(8));
    assert_eq!(emu.steps, 3);
    assert_eq!(value(&emu, Reg::Rsp), Some(DEFAULT_STACK_BASE + 8));
    assert_eq!(emu.trace_tail(2), vec![TEXT + 5, TEXT + 8]);
}

#[test]
fn what_is_pushed_is_popped() {
    // push rcx / push 7 / pop rax / pop rdx / ret
    let pe = image(&[0x51, 0x6a, 7, 0x58, 0x5a, 0xc3]);
    let mut emu = Emulator::new(&pe, DEFAULT_STACK_BASE);
    emu.run(TEXT, 4);
    assert_eq!(value(&emu, Reg::Rax), Some(7));
    assert_eq!(emu.state.reg(Reg::Rdx), emu.state.reg(Reg::Rcx));
    assert_eq!(value(&emu, Reg::Rsp), Some(DEFAULT_STACK_BASE));
}

#[test]
fn constant_memory_is_read_from_the_image() {
    // mov rax,[rip+1ff9h] / ret, which reads the start of .rdata
    let pe = image(&[0x48, 0x8b, 0x05, 0xf9, 0x1f, 0, 0, 0xc3]);
    let mut emu = Emulator::new(&pe, DEFAULT_STACK_BASE);
    emu.run(TEXT, 1);
    assert_eq!(value(&emu, Reg::Rax), Some(0x1122_3344_5566_7788));
}

#[test]
fn a_store_through_a_guest_pointer_is_an_event() {
    // mov [rcx],rdx / ret
    let pe = image(&[0x48, 0x89, 0x11, 0xc3]);
    let mut emu = Emulator::new(&pe, DEFAULT_STACK_BASE);
    emu.run(TEXT, 1);
    assert_eq!(emu.events.len(), 1);
    let rcx = emu.state.reg(Reg::Rcx);
    let rdx = emu.state.reg(Reg::Rdx);
    match &emu.events[0] {
        Event::Store { addr, value, width, site, region } => {
            assert_eq!((*addr, *value), (rcx, rdx));
            assert_eq!((*width, *site), (Width::W64, TEXT));
            assert!(region.is_guest());
        }
        other => panic!("not a store: {other:?}"),
    }
    assert!(!Region::VmScratch.is_guest());
}

#[test]
fn evaluation_says_why_it_stopped() {
    // nop / nop / ret
    let pe = image(&[0x90, 0x90, 0xc3]);
    let mut emu = Emulator::new(&pe, DEFAULT_STACK_BASE);
    let stop = emu.run(TEXT, 1);
    assert!(matches!(stop, Stop::Budget { site } if site == TEXT + 1), "{stop:?}");
    let stop = emu.run(0x10, 5);
    assert!(matches!(stop, Stop::OutOfImage { site: 0x10 }), "{stop:?}");
    emu.node_limit = 0;
    let stop = emu.run(TEXT, 5);
    assert!(matches!(stop, Stop::Diverged { site, nodes } if site == TEXT && nodes > 0));

    let pe = image(&[0x06]);
    let mut emu = Emulator::new(&pe, DEFAULT_STACK_BASE);
    let step = emu.step(TEXT);
    assert!(matches!(step, Step::Stopped(Stop::Unreadable { site }) if site == TEXT), "{step:?}");

    let pe = image(&[0xcc]);
    let mut emu = Emulator::new(&pe, DEFAULT_STACK_BASE);
    match emu.run(TEXT, 5) {
        Stop::Unsupported { site, text } => assert_eq!((site, text.as_str()), (TEXT, "int3")),
        other => panic!("{other:?}"),
    }

    // jmp rax
    let pe = image(&[0xff, 0xe0]);
    let mut emu = Emulator::new(&pe, DEFAULT_STACK_BASE);
    let stop = emu.run(TEXT, 5);
    assert!(matches!(stop, Stop::SymbolicBranch { site, .. } if site == TEXT), "{stop:?}");

    // test ecx,ecx / je +4
    let pe = image(&[0x85, 0xc9, 0x74, 0x04]);
    let mut emu = Emulator::new(&pe, DEFAULT_STACK_BASE);
    match emu.run(TEXT, 5) {
        Stop::NativeBranch { site, taken, not_taken, .. } => {
            assert_eq!((site, taken, not_taken), (TEXT + 2, TEXT + 8, TEXT + 4));
        }
        other => panic!("{other:?}"),
    }
}

#[test]
fn a_known_condition_is_followed() {
    // xor eax,eax / je +1 / int3 / mov al,9 / ret
    let pe = image(&[0x31, 0xc0, 0x74, 0x01, 0xcc, 0xb0, 9, 0xc3]);
    let mut emu = Emulator::new(&pe, DEFAULT_STACK_BASE);
    let stop = emu.run(TEXT, 10);
    assert!(matches!(stop, Stop::Return { .. }), "{stop:?}");
    assert_eq!(value(&emu, Reg::Rax), Some(9));
}

#[test]
fn a_call_is_recorded_and_clobbers_the_volatile_registers() {
    // mov ebx,1 / mov ecx,2 / call [rip+20f0h] (Sleep) / ret
    let code = [
        0xbb, 1, 0, 0, 0, 0xb9, 2, 0, 0, 0, 0xff, 0x15, 0xf0, 0x20, 0, 0, 0xc3,
    ];
    let pe = image(&code);
    let mut emu = Emulator::new(&pe, DEFAULT_STACK_BASE);
    emu.run(TEXT, 3);
    assert_eq!(value(&emu, Reg::Rbx), Some(1));
    assert_eq!(value(&emu, Reg::Rcx), None);
    assert_eq!(value(&emu, Reg::Rax), None);
    let calls: Vec<&Event> =
        emu.events.iter().filter(|e| matches!(e, Event::Call { .. })).collect();
    assert_eq!(calls.len(), 1);
    match calls[0] {
        Event::Call { site, import_slot, args, ret, .. } => {
            assert_eq!((*site, *import_slot), (TEXT + 10, Some(DATA + 0x100)));
            assert_eq!(args.len(), 1);
            assert_eq!(args[0].0, Reg::Rcx);
            assert_eq!(emu.arena.as_const(args[0].1), Some(2));
            assert_eq!(*ret, Some(emu.state.reg(Reg::Rax)));
        }
        other => panic!("not a call: {other:?}"),
    }
}

#[test]
fn a_call_that_never_returns_ends_the_block() {
    // call [rip+2102h] (KeBugCheck)
    let pe = image(&[0xff, 0x15, 0x02, 0x21, 0, 0, 0x90]);
    assert_eq!(noreturn_import_slots(&pe), vec![DATA + 0x108]);
    let mut emu = Emulator::new(&pe, DEFAULT_STACK_BASE);
    let stop = emu.run(TEXT, 5);
    assert!(matches!(stop, Stop::NoReturn { site } if site == TEXT), "{stop:?}");

    // sub rsp,28h / call $+5 / int3
    let pe = image(&[0x48, 0x83, 0xec, 0x28, 0xe8, 0, 0, 0, 0, 0xcc]);
    assert!(callee_never_returns(&pe, TEXT));
    let pe = image(&[0x48, 0x83, 0xec, 0x28, 0xc3]);
    assert!(!callee_never_returns(&pe, TEXT));
}

#[test]
fn what_is_not_modelled_is_boxed() {
    // rdmsr / ret
    let pe = image(&[0x0f, 0x32, 0xc3]);
    let mut emu = Emulator::new(&pe, DEFAULT_STACK_BASE);
    emu.run(TEXT, 1);
    match &emu.events[0] {
        Event::Boxed { site, text, bytes, mem, .. } => {
            assert_eq!((*site, text.as_str()), (TEXT, "rdmsr"));
            assert_eq!(bytes, &vec![0x0f, 0x32]);
            assert!(mem.is_none());
        }
        other => panic!("not boxed: {other:?}"),
    }
    assert_eq!(value(&emu, Reg::Rax), None);
}

/// test ecx,ecx / je L / mov eax,1 / ret / L: mov eax,2 / ret
const TWO_WAYS: [u8; 16] = [
    0x85, 0xc9, 0x74, 0x06, 0xb8, 1, 0, 0, 0, 0xc3, 0xb8, 2, 0, 0, 0, 0xc3,
];

fn at(va: u64) -> BlockId {
    BlockId { handler: va, vip: None }
}

fn recover(pe: &Image) -> Cfg {
    Explorer::new(pe, DEFAULT_STACK_BASE).recover(TEXT)
}

#[test]
fn both_ways_of_a_branch_are_recovered() {
    let pe = image(&TWO_WAYS);
    let cfg = recover(&pe);
    assert_eq!(cfg.entry, at(TEXT));
    let ids: Vec<BlockId> = cfg.blocks.iter().map(|b| b.id).collect();
    assert_eq!(ids, vec![at(TEXT), at(TEXT + 4), at(TEXT + 10)]);
    assert_eq!(cfg.unresolved, 0);
    assert!(!cfg.timed_out);
    match &cfg.blocks[0].terminator {
        Terminator::Branch { taken, not_taken, .. } => {
            assert_eq!((*taken, *not_taken), (at(TEXT + 10), at(TEXT + 4)));
        }
        other => panic!("{other:?}"),
    }
    assert_eq!(cfg.blocks[1].preds, vec![at(TEXT)]);
    let issues = validate(&cfg);
    assert!(issues.is_clean(), "{}", issues.summary());
    let mut kinds = summarize(&cfg);
    kinds.sort();
    assert_eq!(kinds, vec![("branch", 1), ("return", 2)]);
}

#[test]
fn a_recovered_function_is_lowered_and_allocated() {
    let pe = image(&TWO_WAYS);
    let cfg = recover(&pe);
    let blocks = schedule(&cfg);
    assert_eq!(blocks.len(), 3);
    let (again, _) = schedule_counted(&cfg);
    assert_eq!(instr_count(&again), instr_count(&blocks));
    for b in &blocks {
        let a = allocate(b);
        assert!(verify(b, &a).is_empty());
        reconcile(b, &a);
        let text = render_block_with(b, &HashMap::new());
        assert!(text.starts_with(&format!("{}:\n", b.id.text())), "{text}");
    }
    assert!(blocks[1].exits.iter().any(|(r, _)| *r == Reg::Rax));
}

#[test]
fn a_loop_is_a_back_edge() {
    // xor eax,eax / L: mov [rdx],ecx / dec ecx / jne L / ret
    let pe = image(&[0x31, 0xc0, 0x89, 0x0a, 0xff, 0xc9, 0x75, 0xfa, 0xc3]);
    let cfg = recover(&pe);
    let head = at(TEXT + 2);
    assert_eq!(cfg.back_edges, vec![(head, head)]);
    assert!(validate(&cfg).cannot_reach_exit.is_empty());
    let b = cfg.block(head).expect("the head is recovered");
    assert_eq!(b.preds, vec![at(TEXT), head]);
    // Native code keeps no register image, so there is nothing to cut the block at.
    assert!(b.params.is_empty() && !b.from_vm_context);
    assert!(cfg.phis().is_empty());
}

#[test]
fn recovery_keeps_to_its_budgets() {
    let pe = image(&TWO_WAYS);
    let mut x = Explorer::new(&pe, DEFAULT_STACK_BASE);
    x.time_budget = 0;
    let cfg = x.recover(TEXT);
    assert!(cfg.timed_out);
    assert!(cfg.blocks.iter().any(
        |b| matches!(&b.terminator, Terminator::Unresolved { reason } if reason == OUT_OF_TIME)
    ));
    let mut x = Explorer::new(&pe, DEFAULT_STACK_BASE);
    x.block_budget = 1;
    let cfg = x.recover(TEXT);
    assert!(cfg.blocks.iter().any(
        |b| matches!(&b.terminator, Terminator::Unresolved { reason } if reason == OUT_OF_BLOCKS)
    ));
}

#[test]
fn an_import_is_called_by_its_name() {
    // call [rip+20fah] (Sleep) / ret
    let pe = image(&[0xff, 0x15, 0xfa, 0x20, 0, 0, 0xc3]);
    let cfg = recover(&pe);
    let blocks = schedule(&cfg);
    let names: HashMap<u64, String> = [(DATA + 0x100, "Sleep".to_string())].into_iter().collect();
    let text = render_block_with(&blocks[0], &names);
    assert!(text.contains("call Sleep"), "{text}");
    let plain = render_block_with(&blocks[0], &HashMap::new());
    assert!(plain.contains("call import [0x140003100]"), "{plain}");
}

/// A machine whose frame holds the guest's registers, and where.
fn with_guest_image(pe: &Image) -> (Emulator<'_>, u64) {
    let mut emu = Emulator::new(pe, DEFAULT_STACK_BASE);
    let base = DEFAULT_STACK_BASE - 0x400;
    for (i, reg) in GUEST_IMAGE_ORDER.iter().enumerate() {
        let v = if *reg == Reg::Rsp {
            emu.arena.constant(DEFAULT_STACK_BASE, Width::W64)
        } else {
            emu.arena.init_reg(*reg)
        };
        emu.state.store_concrete(&emu.arena, base + 8 * i as u64, v, Width::W64);
    }
    let rbp = emu.arena.constant(base, Width::W64);
    emu.state.set_reg(Reg::Rbp, rbp);
    (emu, base)
}

#[test]
fn the_guest_registers_are_found_in_the_frame() {
    let pe = image(&[0xc3]);
    let (mut emu, base) = with_guest_image(&pe);
    assert_eq!(emu.locate_guest_context(), Some(base));
    let regs = emu.guest_registers().expect("the image was found");
    assert_eq!(regs.len(), 16);
    let rcx = emu.arena.init_reg(Reg::Rcx);
    assert!(regs.contains(&(Reg::Rcx, rcx)));
    // Without a frame pointer there is nothing to search around.
    let mut bare = Emulator::new(&pe, DEFAULT_STACK_BASE);
    assert_eq!(bare.locate_guest_context(), None);
    assert_eq!(bare.ctx_miss, Some((false, 0)));
}

#[test]
fn a_cut_block_sees_parameters() {
    let pe = image(&[0xc3]);
    let (mut emu, base) = with_guest_image(&pe);
    let params = emu.seed_guest_params(BlockRef(2));
    assert_eq!(params.len(), 16);
    let rax = emu.arena.param(BlockRef(2), Reg::Rax);
    assert!(params.contains(&(Reg::Rax, rax)));
    assert_eq!(emu.raw_slot(base), Some(rax));
    // What was known stays known: the stack pointer's parameter is pinned to its value.
    let rsp = emu.arena.param(BlockRef(2), Reg::Rsp);
    assert!(emu.pins.contains(&(rsp, DEFAULT_STACK_BASE)));
    let known = emu.substitute(rsp);
    assert_eq!(emu.arena.as_const(known), Some(DEFAULT_STACK_BASE));
    // The image is found again by its parameters.
    assert_eq!(emu.locate_guest_context(), Some(base));
}

#[test]
fn both_register_images_place_every_register() {
    let layouts = layouts();
    assert_eq!(layouts.len(), 2);
    assert_eq!(layouts[0].slot(0x1000, Reg::Rax), Some(0x1000));
    assert_eq!(layouts[0].slot(0x1000, Reg::Rcx), Some(0x1010));
    assert_eq!(layouts[1].slot(0x1000, Reg::Rax), Some(0x1008));
    assert_eq!(layouts[1].slot(0x1000, Reg::Rcx), Some(0x1020));
}

#[test]
fn the_carry_of_a_carry_is_not_lost() {
    // xor eax,eax / mov ebx,-1 / cmp eax,1 / adc eax,ebx
    let pe = image(&[0x31, 0xc0, 0xbb, 0xff, 0xff, 0xff, 0xff, 0x83, 0xf8, 1, 0x11, 0xd8]);
    let mut emu = Emulator::new(&pe, DEFAULT_STACK_BASE);
    emu.run(TEXT, 4);
    assert_eq!(value(&emu, Reg::Rax), Some(0));
    assert_eq!(emu.arena.as_const(emu.state.flag(Flag::Cf)), Some(1));
    assert_eq!(emu.arena.as_const(emu.state.flag(Flag::Zf)), Some(1));
    assert_eq!(emu.arena.as_const(emu.state.flag(Flag::Of)), Some(0));
    assert_eq!(emu.steps, 4);

    // xor eax,eax / mov ebx,-1 / cmp eax,1 / sbb eax,ebx
    let pe = image(&[0x31, 0xc0, 0xbb, 0xff, 0xff, 0xff, 0xff, 0x83, 0xf8, 1, 0x19, 0xd8]);
    let mut emu = Emulator::new(&pe, DEFAULT_STACK_BASE);
    emu.run(TEXT, 4);
    assert_eq!(value(&emu, Reg::Rax), Some(0));
    assert_eq!(emu.arena.as_const(emu.state.flag(Flag::Cf)), Some(1));
}
