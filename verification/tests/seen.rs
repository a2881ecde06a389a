//! What is dropped and what is kept: frame slots, dead stores, parameters, carries and the
//! nodes the constructors make.

use tvm_devirt::ir::dead::eliminate_dead_with;
use tvm_devirt::ir::event::{BoxedMem, Event};
use tvm_devirt::ir::expr::{Arena, BlockRef, Op, Ref};
use tvm_devirt::ir::frame::{analyze_frame_escapes, analyze_frame_reads, frame_extent, FrameEscapes, FrameReads};
use tvm_devirt::ir::graph::{BlockId, Terminator};
use tvm_devirt::ir::instr::{BoxedMemOp, Instr, Operand, SchedBlock};
use tvm_devirt::ir::pipeline::drop_write_only_frame_slots;
use tvm_devirt::ir::value::{BinOp, Reg, UnOp, Width};
use tvm_devirt::vm::state::{Flag, State};
use tvm_devirt::vm::validate::CfgIssues;

fn block(instrs: Vec<Instr>) -> SchedBlock {
    SchedBlock {
        id: BlockId { handler: 0x1000, vip: None },
        instrs,
        exits: vec![],
        callee_set: vec![],
        control: None,
        fused: None,
        terminator: Terminator::AdoptedReturn,
    }
}

fn store(at: i64, width: Width) -> Instr {
    Instr::Store { addr: Operand::Frame(at), value: Operand::Imm(0x1122_3344), disp: 0, width }
}

fn boxed_at(at: i64) -> Instr {
    Instr::Boxed {
        site: 0x1000,
        text: "fild [rsp]".into(),
        bytes: vec![0xdb],
        mem: Some(BoxedMemOp { addr: Operand::Frame(at), bytes: 8, writes: false }),
        uses: vec![],
    }
}

#[test]
fn the_frame_reaches_as_far_as_a_boxed_operand() {
    assert_eq!(frame_extent(&block(vec![boxed_at(-0x100)])), Some((-0x100, -0x100)));
    assert_eq!(frame_extent(&block(vec![])), None);
    let b = block(vec![store(-8, Width::W64), boxed_at(-0x20)]);
    assert_eq!(frame_extent(&b), Some((-0x20, -8)));
}

#[test]
fn a_store_that_reaches_an_escaping_byte_stays() {
    let escapes = FrameEscapes { runs: vec![(0, 8)], unattributed: false };
    let reads = FrameReads { runs: vec![] };
    let mut bs = vec![block(vec![store(-4, Width::W64), store(-16, Width::W64)])];
    assert_eq!(drop_write_only_frame_slots(&mut bs, &reads, &escapes), 1);
    assert_eq!(bs[0].instrs.len(), 1);
    assert!(matches!(&bs[0].instrs[0], Instr::Store { addr: Operand::Frame(-4), .. }));
}

#[test]
fn a_store_that_is_read_in_part_stays() {
    let reads = FrameReads { runs: vec![(-12, -11)] };
    let mut bs = vec![block(vec![store(-16, Width::W64), store(-24, Width::W64)])];
    assert_eq!(drop_write_only_frame_slots(&mut bs, &reads, &FrameEscapes::default()), 1);
    assert!(matches!(&bs[0].instrs[0], Instr::Store { addr: Operand::Frame(-16), .. }));
}

#[test]
fn a_narrow_store_does_not_overwrite_a_wide_one() {
    let none = FrameEscapes::default();
    let mut b = block(vec![store(-0x38, Width::W64), store(-0x38, Width::W8)]);
    assert_eq!(eliminate_dead_with(&mut b, &none), 0);
    assert_eq!(b.instrs.len(), 2);
    let mut b = block(vec![store(-0x38, Width::W8), store(-0x38, Width::W64)]);
    assert_eq!(eliminate_dead_with(&mut b, &none), 1);
    let mut b = block(vec![store(-0x34, Width::W32), store(-0x38, Width::W64)]);
    assert_eq!(eliminate_dead_with(&mut b, &none), 1);
}

#[test]
fn a_load_of_one_byte_keeps_a_store() {
    let dst = tvm_devirt::ir::instr::ValId(0);
    let mut b = block(vec![
        store(-0x38, Width::W64),
        Instr::Load { dst, addr: Operand::Frame(-0x35), disp: 0, width: Width::W8 },
        store(-0x38, Width::W64),
    ]);
    b.exits = vec![(Reg::Rax, Operand::Val(dst))];
    assert_eq!(eliminate_dead_with(&mut b, &FrameEscapes::default()), 0);
}

#[test]
fn nothing_is_known_by_default() {
    let e = FrameEscapes::default();
    assert!(!e.may_escape(0));
    assert!(!e.clone().may_escape(-8));
    assert!(!FrameReads::default().clone().overlaps(0, 8));
    let none = CfgIssues::default();
    assert!(none.orphans.is_empty() && none.dead_params == 0);
    let blocks = vec![block(vec![boxed_at(-0x40)])];
    assert!(analyze_frame_reads(&blocks).overlaps(-0x40, 1));
    assert!(!analyze_frame_escapes(&blocks).may_escape(-0x200));
}

#[test]
fn obfuscated_sums_are_the_plain_ones() {
    let mut a = Arena::new();
    let x = a.init_reg(Reg::Rax);
    let y = a.init_reg(Reg::Rbx);
    let or = a.bin(BinOp::Or, x, y);
    let and = a.bin(BinOp::And, x, y);
    let xor = a.bin(BinOp::Xor, x, y);
    let sum = a.bin(BinOp::Add, x, y);
    assert_eq!(a.bin(BinOp::Add, or, and), sum);
    assert_eq!(a.bin(BinOp::Add, xor, and), or);
    assert_eq!(a.bin(BinOp::Sub, or, and), xor);
    assert_eq!(*a.op(sum), Op::Bin(BinOp::Add, x, y));
}

#[test]
fn an_exclusive_or_with_the_own_union_is_a_mask() {
    let mut a = Arena::new();
    let x = a.init_reg(Reg::Rcx);
    let c = a.constant(0xe0, Width::W64);
    let o = a.bin(BinOp::Or, x, c);
    let r = a.bin(BinOp::Xor, x, o);
    let n = a.not(x);
    assert_eq!(*a.op(n), Op::Un(UnOp::Not, x));
    assert_eq!(*a.op(r), Op::Bin(BinOp::And, n, c));
}

#[test]
fn operands_change_places() {
    let ops = [
        BinOp::Add,
        BinOp::Mul,
        BinOp::And,
        BinOp::Or,
        BinOp::Xor,
        BinOp::Eq,
        BinOp::MulHiU,
        BinOp::MulHiS,
    ];
    for op in ops {
        let mut a = Arena::new();
        let x = a.init_reg(Reg::Rax);
        let y = a.init_reg(Reg::Rbx);
        let c = a.constant(7, Width::W64);
        let mut b = a.clone();
        assert_eq!(a.bin(op, x, y), b.bin(op, y, x));
        assert_eq!(a.bin(op, x, c), b.bin(op, c, x));
    }
}

#[test]
fn casts_see_through_each_other() {
    let mut a = Arena::new();
    let x = a.init_reg(Reg::Rax);
    let y = a.init_reg(Reg::Rbx);
    let low = a.trunc(x, Width::W8);
    let back = a.zext(low, Width::W64);
    let mask = a.constant(0xff, Width::W64);
    assert_eq!(*a.op(back), Op::Bin(BinOp::And, x, mask));
    let sum = a.bin(BinOp::Add, x, y);
    let cut = a.trunc(sum, Width::W8);
    let ly = a.trunc(y, Width::W8);
    assert_eq!(*a.op(cut), Op::Bin(BinOp::Add, low, ly));
    let nx = a.not(x);
    let or = a.bin(BinOp::Or, nx, y);
    let flipped = a.not(or);
    let ny = a.not(y);
    assert_eq!(*a.op(flipped), Op::Bin(BinOp::And, x, ny));
}

#[test]
fn every_opaque_is_new() {
    let mut a = Arena::new();
    let p = a.opaque("x", Width::W64);
    let n = a.len();
    let q = a.opaque("x", Width::W64);
    assert_ne!(p, q);
    assert_eq!(a.len(), n + 1);
    let u = a.undef("x", Width::W64);
    assert!(u != p && u != q);
    assert_eq!(a.undef("x", Width::W64), u);
    let s = State::new(&mut a, 0x1000);
    let flags = [Flag::Cf, Flag::Pf, Flag::Af, Flag::Zf, Flag::Sf, Flag::Of, Flag::Df];
    for (i, f) in flags.iter().enumerate() {
        for g in flags.iter().skip(i + 1) {
            assert_ne!(s.flag(*f), s.flag(*g));
        }
    }
}

#[test]
fn copies_keep_names_and_number_unknowns_anew() {
    let mut src = Arena::new();
    let p = src.param(BlockRef(1), Reg::Rax);
    let u = src.undef("af_undef", Width::W8);
    let o = src.opaque("x", Width::W64);
    let mut dst = Arena::new();
    let mut first = std::collections::HashMap::new();
    let mut second = std::collections::HashMap::new();
    assert_eq!(dst.graft(&src, p, &mut first), dst.graft(&src, p, &mut second));
    assert_eq!(dst.graft(&src, u, &mut first), dst.graft(&src, u, &mut second));
    assert_ne!(dst.graft(&src, o, &mut first), dst.graft(&src, o, &mut second));
}

#[test]
fn an_expression_of_constants_is_one() {
    let mut a = Arena::new();
    let p = a.param(BlockRef(1), Reg::Rax);
    let q = a.param(BlockRef(1), Reg::Rbx);
    let prod = a.bin(BinOp::Mul, p, q);
    let e = a.bin(BinOp::Sub, prod, p);
    assert_eq!(a.as_const(e), None);
    let c: Ref = a.constant(6, Width::W64);
    let map = std::collections::HashMap::from([(p.idx, c), (q.idx, c)]);
    let r = a.rewrite(e, &map);
    assert_eq!(a.as_const(r), Some(30));
}

#[test]
fn a_boxed_address_is_an_event_reference() {
    let e = Event::Boxed {
        site: 1,
        text: "nop".into(),
        bytes: vec![0x90],
        mem: Some(BoxedMem { addr: Ref { idx: 3 }, bytes: 8, writes: false }),
        defs: vec![],
        uses: vec![],
    };
    assert!(matches!(e, Event::Boxed { mem: Some(m), .. } if m.addr.idx == 3));
}
