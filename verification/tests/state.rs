//! The machine state: registers, flags, vector halves and memory.

use tvm_devirt::ir::expr::Arena;
use tvm_devirt::ir::value::{BinOp, Reg, Width};
use tvm_devirt::vm::state::{Flag, State, XmmHalf, FLAGS};
use tvm_devirt::vm::DEFAULT_STACK_BASE;

fn nothing(_: u64) -> Option<u8> {
    None
}

fn zeros(_: u64) -> Option<u8> {
    Some(0)
}

#[test]
fn a_fresh_state_knows_only_the_stack_pointer() {
    let mut a = Arena::new();
    let s = State::new(&mut a, DEFAULT_STACK_BASE);
    assert_eq!(s.concrete_rsp(&a), Some(DEFAULT_STACK_BASE));
    let rcx = a.init_reg(Reg::Rcx);
    assert_eq!(s.reg(Reg::Rcx), rcx);
    assert_eq!(s.xmm(0, XmmHalf::Low), None);
}

#[test]
fn what_is_set_is_read_back() {
    let mut a = Arena::new();
    let mut s = State::new(&mut a, 0x1000);
    let v = a.constant(7, Width::W64);
    s.set_reg(Reg::R9, v);
    assert_eq!(s.reg(Reg::R9), v);
    let f = a.constant(1, Width::W8);
    s.set_flag(Flag::Zf, f);
    assert_eq!(s.flag(Flag::Zf), f);
    s.set_xmm(3, XmmHalf::High, v);
    assert_eq!(s.xmm(3, XmmHalf::High), Some(v));
    assert_eq!(s.xmm(3, XmmHalf::Low), None);
    s.forget_xmm(3);
    assert_eq!(s.xmm(3, XmmHalf::High), None);
}

#[test]
fn flags_stand_at_their_bits() {
    let bits: Vec<u32> = FLAGS.iter().map(|f| f.bit()).collect();
    let mut sorted = bits.clone();
    sorted.sort();
    assert_eq!(sorted, vec![0, 2, 4, 6, 7, 10, 11]);
    let mut a = Arena::new();
    let mut s = State::new(&mut a, 0x1000);
    for f in FLAGS {
        let v = a.constant(matches!(f, Flag::Zf | Flag::Cf) as u64, Width::W8);
        s.set_flag(f, v);
    }
    let packed = s.pack_flags(&mut a);
    assert_eq!(a.as_const(packed), Some(0x43));
}

#[test]
fn unpacking_gives_the_packed_flags_back() {
    let mut a = Arena::new();
    let mut s = State::new(&mut a, 0x1000);
    let word = a.constant(0x8d7, Width::W64);
    s.unpack_flags(&mut a, word);
    for (f, want) in [
        (Flag::Cf, 1),
        (Flag::Pf, 1),
        (Flag::Af, 1),
        (Flag::Zf, 1),
        (Flag::Sf, 1),
        (Flag::Of, 1),
        (Flag::Df, 0),
    ] {
        assert_eq!(a.as_const(s.flag(f)), Some(want), "{f:?}");
    }
    let again = s.pack_flags(&mut a);
    assert_eq!(a.as_const(again), Some(0x8d7));
}

#[test]
fn a_read_gives_back_what_was_written() {
    let mut a = Arena::new();
    let mut s = State::new(&mut a, 0x1000);
    let v = a.constant(0x1122_3344_5566_7788, Width::W64);
    s.store_concrete(&a, 0x2000, v, Width::W64);
    let back = s.load_concrete(&mut a, 0x2000, Width::W64, nothing).unwrap();
    assert_eq!(a.as_const(back), Some(0x1122_3344_5566_7788));
    // A part of it, and the bytes below the highest.
    let part = s.load_concrete(&mut a, 0x2002, Width::W16, nothing).unwrap();
    assert_eq!(a.as_const(part), Some(0x5566));
    // A later narrow write shows through.
    let b = a.constant(0xff, Width::W8);
    s.store_concrete(&a, 0x2007, b, Width::W8);
    let mixed = s.load_concrete(&mut a, 0x2000, Width::W64, nothing).unwrap();
    assert_eq!(a.as_const(mixed), Some(0xff22_3344_5566_7788));
    // A symbolic value comes back as itself.
    let r = a.init_reg(Reg::Rdx);
    s.store_concrete(&a, 0x3000, r, Width::W64);
    assert_eq!(s.load_concrete(&mut a, 0x3000, Width::W64, nothing), Some(r));
}

#[test]
fn memory_falls_back_to_the_image() {
    let mut a = Arena::new();
    let mut s = State::new(&mut a, 0x1000);
    assert_eq!(s.load_concrete(&mut a, 0x2000, Width::W32, nothing), None);
    let image = |at: u64| if at < 0x2004 { Some(at as u8) } else { None };
    let v = s.load_concrete(&mut a, 0x2000, Width::W32, image).unwrap();
    assert_eq!(a.as_const(v), Some(0x0302_0100));
    // One byte short of the width is nothing.
    assert_eq!(s.load_concrete(&mut a, 0x2001, Width::W32, image), None);
    let k = a.constant(0xaabb, Width::W16);
    s.store_concrete(&a, 0x2001, k, Width::W16);
    let v = s.load_concrete(&mut a, 0x2000, Width::W32, image).unwrap();
    assert_eq!(a.as_const(v), Some(0x03aa_bb00));
    s.forget_concrete(0x2001, 2);
    let v = s.load_concrete(&mut a, 0x2000, Width::W32, zeros).unwrap();
    assert_eq!(a.as_const(v), Some(0));
}

#[test]
fn a_copied_state_goes_its_own_way() {
    let mut a = Arena::new();
    let mut s = State::new(&mut a, 0x1000);
    let mut t = s.clone();
    let x = a.constant(1, Width::W64);
    let y = a.constant(2, Width::W64);
    s.set_reg(Reg::Rax, x);
    t.set_reg(Reg::Rax, y);
    assert_eq!(a.as_const(s.reg(Reg::Rax)), Some(1));
    assert_eq!(a.as_const(t.reg(Reg::Rax)), Some(2));
    let sum = a.bin(BinOp::Add, s.reg(Reg::Rax), t.reg(Reg::Rax));
    assert_eq!(a.as_const(sum), Some(3));
}
