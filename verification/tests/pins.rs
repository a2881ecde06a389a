//! Pinned values, and arithmetic to the last bit.

use tvm_devirt::ir::dead::eliminate_dead_with;
use tvm_devirt::ir::event::Step;
use tvm_devirt::ir::expr::{Arena, Ref};
use tvm_devirt::ir::frame::FrameEscapes;
use tvm_devirt::ir::graph::{BlockId, Terminator};
use tvm_devirt::ir::instr::{BoxedMemOp, Instr, Operand, SchedBlock, ValId};
use tvm_devirt::ir::lift::Emulator;
use tvm_devirt::ir::value::{BinOp, Reg, Width};
use tvm_devirt::vm::image::{Image, Section};
use tvm_devirt::vm::state::Flag;
use tvm_devirt::vm::DEFAULT_STACK_BASE;

const TEXT: u64 = 0x1_4000_1000;
const TABLE: u64 = 0x1_4000_3000;

fn section(name: &str, start: u64, data: &[u8], executable: bool) -> Section {
    Section {
        name: name.into(),
        start,
        virtual_size: 0x1000,
        raw_size: data.len() as u32,
        data: data.to_vec(),
        writable: false,
        executable,
    }
}

fn image(code: &[u8], table: &[u64]) -> Image {
    let mut bytes: Vec<u8> = Vec::new();
    for t in table {
        bytes.extend_from_slice(&t.to_le_bytes());
    }
    Image {
        sections: vec![section(".text", TEXT, code, true), section(".rdata", TABLE, &bytes, false)],
        imports: Vec::new(),
        functions: Vec::new(),
    }
}

/// What rax and rdx hold after some steps.
fn run(code: &[u8], steps: usize) -> Vec<Option<u64>> {
    let pe = image(code, &[]);
    let mut emu = Emulator::new(&pe, DEFAULT_STACK_BASE);
    let mut ip = TEXT;
    for _ in 0..steps {
        match emu.step(ip) {
            Step::Next(next) => ip = next,
            other => panic!("{other:?}"),
        }
    }
    let regs = [Reg::Rax, Reg::Rdx];
    regs.iter().map(|r| emu.arena.as_const(emu.state.reg(*r))).collect()
}

/// What is loaded from the table at eight times a flag.
fn dispatch(emu: &mut Emulator, base: u64) -> (Ref, Ref) {
    let flag = emu.arena.opaque("flag", Width::W64);
    let three = emu.arena.constant(3, Width::W64);
    let scaled = emu.arena.bin(BinOp::Shl, flag, three);
    let table = emu.arena.constant(base, Width::W64);
    let addr = emu.arena.bin(BinOp::Add, scaled, table);
    let load = emu.arena.load(addr, Width::W64);
    (flag, load)
}

#[test]
fn a_pinned_index_picks_its_entry_of_a_table() {
    let pe = image(&[], &[TEXT + 0x10, TEXT + 0x20]);
    for (value, target) in [(0, TEXT + 0x10), (1, TEXT + 0x20)] {
        let mut emu = Emulator::new(&pe, DEFAULT_STACK_BASE);
        let (flag, load) = dispatch(&mut emu, TABLE);
        assert_eq!(emu.substitute(load), load);
        emu.pin_to(flag, value);
        let out = emu.substitute(load);
        assert_eq!(emu.arena.as_const(out), Some(target));
    }
}

#[test]
fn what_is_computed_from_a_table_entry_is_a_constant_too() {
    let pe = image(&[], &[0x10, 0x20]);
    let mut emu = Emulator::new(&pe, DEFAULT_STACK_BASE);
    let (flag, load) = dispatch(&mut emu, TABLE);
    let text = emu.arena.constant(TEXT, Width::W64);
    let target = emu.arena.bin(BinOp::Add, text, load);
    let low = emu.arena.trunc(target, Width::W32);
    let wide = emu.arena.sext(low, Width::W64);
    emu.pin_to(flag, 1);
    let out = emu.substitute(wide);
    assert_eq!(emu.arena.as_const(out), Some((TEXT + 0x20) & 0xffff_ffff));
}

#[test]
fn a_pinned_load_from_nowhere_stays_a_load() {
    let pe = image(&[], &[0x10, 0x20]);
    let mut emu = Emulator::new(&pe, DEFAULT_STACK_BASE);
    let (flag, load) = dispatch(&mut emu, 0x10);
    emu.pin_to(flag, 1);
    let out = emu.substitute(load);
    assert_ne!(out, load);
    assert_eq!(emu.arena.as_const(out), None);
}

#[test]
fn a_byte_divides_the_whole_of_ax() {
    // mov eax, 0x105; mov ecx, 2; div cl
    let code = [0xb8, 0x05, 0x01, 0, 0, 0xb9, 2, 0, 0, 0, 0xf6, 0xf1];
    assert_eq!(run(&code, 3)[0], Some(0x0182));
}

#[test]
fn a_negative_divisor_keeps_its_sign() {
    // mov eax, 10; xor edx, edx; mov ecx, -2; idiv ecx
    let code =
        [0xb8, 10, 0, 0, 0, 0x31, 0xd2, 0xb9, 0xfe, 0xff, 0xff, 0xff, 0xf7, 0xf9];
    let regs = run(&code, 4);
    assert_eq!(regs[0], Some(0xffff_fffb));
    assert_eq!(regs[1], Some(0));
}

#[test]
fn an_unsigned_divisor_is_not_extended() {
    // mov eax, 10; xor edx, edx; mov ecx, -2; div ecx
    let code =
        [0xb8, 10, 0, 0, 0, 0x31, 0xd2, 0xb9, 0xfe, 0xff, 0xff, 0xff, 0xf7, 0xf1];
    let regs = run(&code, 4);
    assert_eq!(regs[0], Some(0));
    assert_eq!(regs[1], Some(10));
}

#[test]
fn a_byte_product_fills_ax() {
    // mov eax, 0x80; mov ecx, 6; mul cl
    let code = [0xb8, 0x80, 0, 0, 0, 0xb9, 6, 0, 0, 0, 0xf6, 0xe1];
    assert_eq!(run(&code, 3)[0], Some(0x0300));
    // mov eax, 0xff; mov ecx, 2; imul cl
    let code = [0xb8, 0xff, 0, 0, 0, 0xb9, 2, 0, 0, 0, 0xf6, 0xe9];
    assert_eq!(run(&code, 3)[0], Some(0xfffe));
}

#[test]
fn a_rotation_leaves_the_flags_of_results() {
    // rol eax, 3
    let pe = image(&[0xc1, 0xc0, 3], &[]);
    let mut emu = Emulator::new(&pe, DEFAULT_STACK_BASE);
    let before: Vec<Ref> =
        [Flag::Zf, Flag::Sf, Flag::Pf].iter().map(|f| emu.state.flag(*f)).collect();
    let carry = emu.state.flag(Flag::Cf);
    assert!(matches!(emu.step(TEXT), Step::Next(ip) if ip == TEXT + 3));
    let after: Vec<Ref> =
        [Flag::Zf, Flag::Sf, Flag::Pf].iter().map(|f| emu.state.flag(*f)).collect();
    assert_eq!(before, after);
    assert_ne!(emu.state.flag(Flag::Cf), carry);
}

fn sched(instrs: Vec<Instr>) -> SchedBlock {
    let mut a = Arena::new();
    let dest = a.constant(0, Width::W64);
    SchedBlock {
        id: BlockId { handler: 0, vip: None },
        instrs,
        exits: Vec::new(),
        callee_set: Vec::new(),
        control: None,
        terminator: Terminator::Return { dest },
        fused: None,
    }
}

fn store(addr: Operand, value: u64) -> Instr {
    Instr::Store { addr, value: Operand::Imm(value), disp: 0, width: Width::W64 }
}

#[test]
fn a_slot_that_a_boxed_instruction_reads_keeps_its_store() {
    let slot = Operand::Frame(-0x50);
    let boxed = Instr::Boxed {
        site: TEXT,
        text: "fld qword ptr [rsp]".into(),
        bytes: vec![0xdd],
        mem: Some(BoxedMemOp { addr: slot, bytes: 8, writes: false }),
        uses: Vec::new(),
    };
    let mut b = sched(vec![store(slot, 1), boxed, store(slot, 2)]);
    assert_eq!(eliminate_dead_with(&mut b, &FrameEscapes::default()), 0);
    let mut b = sched(vec![store(slot, 1), store(slot, 2)]);
    assert_eq!(eliminate_dead_with(&mut b, &FrameEscapes::default()), 1);
}

#[test]
fn a_load_through_another_pointer_may_read_a_store() {
    let p = Operand::Val(ValId(0));
    let value = |dst, addr| Instr::Load { dst: ValId(dst), addr, disp: 0, width: Width::W64 };
    let entry = |dst, r| value(dst, Operand::Entry(r));
    let instrs = vec![
        entry(0, Reg::Rcx),
        entry(1, Reg::Rdx),
        store(p, 1),
        value(2, Operand::Val(ValId(1))),
        store(p, 2),
    ];
    let mut b = sched(instrs);
    b.exits = vec![(Reg::Rax, Operand::Val(ValId(2)))];
    assert_eq!(eliminate_dead_with(&mut b, &FrameEscapes::default()), 0);
}
