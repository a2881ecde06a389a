//! Scheduling: lowering of blocks, dead code, frame slots, entry values and block threading.

use std::collections::HashMap;
use tvm_devirt::ir::dead::{eliminate_dead, eliminate_dead_with};
use tvm_devirt::ir::event::{Event, Region};
use tvm_devirt::ir::expr::{Arena, BlockRef, Ref};
use tvm_devirt::ir::frame::{analyze_frame_escapes, analyze_frame_reads};
use tvm_devirt::ir::graph::{Block, BlockId, Cfg, Terminator};
use tvm_devirt::ir::instr::{
    each_operand_mut, BoxedMemOp, CallTarget, Instr, Operand, SchedBlock, ValId,
};
use tvm_devirt::ir::lower::retarget_stack_args;
use tvm_devirt::ir::narrow::narrow_partially_dead_stores;
use tvm_devirt::ir::passes::rewrite_masked_sign_tests;
use tvm_devirt::ir::pipeline::{drop_write_only_frame_slots, schedule_one};
use tvm_devirt::ir::prune::prune_dead_exits;
use tvm_devirt::ir::rename::rename_entry_reads;
use tvm_devirt::ir::thread::{drop_unreachable, thread_empty_jumps};
use tvm_devirt::ir::value::{BinOp, Reg, Width};
use tvm_devirt::vm::DEFAULT_STACK_BASE;

const STACK_BASE: u64 = DEFAULT_STACK_BASE;

/// An immediate store to a frame slot, for the narrowing tests.
fn fstore(a: i64, v: u64, w: Width) -> Instr {
    Instr::Store {
        addr: Operand::Frame(a),
        disp: 0,
        value: Operand::Imm(v),
        width: w,
    }
}

/// What the frame holds after the stores of a block.
fn replay(b: &SchedBlock) -> HashMap<i64, u8> {
    let mut mem: HashMap<i64, u8> = HashMap::new();
    for ins in &b.instrs {
        if let Instr::Store {
            addr: Operand::Frame(off),
            disp,
            value: Operand::Imm(v),
            width,
        } = ins
        {
            for k in 0..width.bytes() as i64 {
                mem.insert(off + disp + k, (v >> (8 * k)) as u8);
            }
        }
    }
    mem
}

fn bid(h: u64) -> BlockId {
    BlockId {
        handler: h,
        vip: None,
    }
}

fn empty_sb(id: BlockId, exits: Vec<(Reg, Operand)>, t: Terminator) -> SchedBlock {
    SchedBlock {
        id,
        instrs: Vec::new(),
        exits,
        callee_set: Vec::new(),
        control: None,
        terminator: t,
        fused: None,
    }
}

/// A masked sign test becomes a signed comparison against zero, and the unused
/// mask operation is removed by DCE.
#[test]
fn a_masked_sign_test_becomes_a_signed_comparison() {
    for (width, sign) in [
        (Width::W32, 0x8000_0000u64),
        (Width::W8, 0x80),
        (Width::W64, 0x8000_0000_0000_0000),
        (Width::W16, 0x8000),
    ] {
        let x = ValId(2);
        let and = ValId(1);
        let cmp = ValId(0);
        let mut b = empty_sb(
            bid(0x1000),
            vec![(Reg::Rax, Operand::Val(cmp))],
            Terminator::AdoptedReturn,
        );
        b.instrs.push(Instr::Bin {
            dst: and,
            op: BinOp::And,
            a: Operand::Val(x),
            b: Operand::Imm(sign),
            width,
            operand_width: width,
        });
        b.instrs.push(Instr::Bin {
            dst: cmp,
            op: BinOp::Eq,
            a: Operand::Val(and),
            b: Operand::Imm(sign),
            width: Width::W8,
            operand_width: width,
        });
        eliminate_dead(&mut b);
        let bins: Vec<_> = b
            .instrs
            .iter()
            .filter_map(|i| match i {
                Instr::Bin { op, a, b: rhs, .. } => Some((*op, a.clone(), rhs.clone())),
                _ => None,
            })
            .collect();
        assert_eq!(
            bins,
            vec![(BinOp::Slt, Operand::Val(x), Operand::Imm(0))],
            "{width:?}: (x & {sign:#x}) == {sign:#x} is x < 0, and the mask must go"
        );
    }
}

#[test]
fn a_masked_sign_test_is_only_rewritten_when_it_is_sound() {
    // Not the sign bit.
    let mut b = empty_sb(
        bid(0x1000),
        vec![(Reg::Rax, Operand::Val(ValId(0)))],
        Terminator::AdoptedReturn,
    );
    b.instrs.push(Instr::Bin {
        dst: ValId(1),
        op: BinOp::And,
        a: Operand::Val(ValId(2)),
        b: Operand::Imm(0x10),
        width: Width::W32,
        operand_width: Width::W32,
    });
    b.instrs.push(Instr::Bin {
        dst: ValId(0),
        op: BinOp::Eq,
        a: Operand::Val(ValId(1)),
        b: Operand::Imm(0x10),
        width: Width::W8,
        operand_width: Width::W32,
    });
    assert_eq!(
        rewrite_masked_sign_tests(&mut b),
        0,
        "bit 4 is not the sign bit"
    );

    // Sign bit, but the mask result is read twice.
    let mut b = empty_sb(
        bid(0x1000),
        vec![
            (Reg::Rax, Operand::Val(ValId(0))),
            (Reg::Rbx, Operand::Val(ValId(1))),
        ],
        Terminator::AdoptedReturn,
    );
    b.instrs.push(Instr::Bin {
        dst: ValId(1),
        op: BinOp::And,
        a: Operand::Val(ValId(2)),
        b: Operand::Imm(0x8000_0000),
        width: Width::W32,
        operand_width: Width::W32,
    });
    b.instrs.push(Instr::Bin {
        dst: ValId(0),
        op: BinOp::Eq,
        a: Operand::Val(ValId(1)),
        b: Operand::Imm(0x8000_0000),
        width: Width::W8,
        operand_width: Width::W32,
    });
    assert_eq!(
        rewrite_masked_sign_tests(&mut b),
        0,
        "the masked value escapes, so the `and` cannot be bypassed"
    );
}

#[test]
fn a_private_frame_slot_is_dead_across_a_call() {
    let mut b = empty_sb(bid(0x1000), Vec::new(), Terminator::AdoptedReturn);
    b.instrs.push(Instr::Store {
        addr: Operand::Frame(-0x68),
        value: Operand::Imm(1),
        disp: 0,
        width: Width::W64,
    });
    b.instrs.push(Instr::Call {
        target: CallTarget::Direct(0x140001000),
        args: Vec::new(),
    });
    b.instrs.push(Instr::Store {
        addr: Operand::Frame(-0x68),
        value: Operand::Imm(2),
        disp: 0,
        width: Width::W64,
    });
    let blocks = vec![b];
    let escapes = analyze_frame_escapes(&blocks);
    let mut b = blocks.into_iter().next().unwrap();
    assert!(
        !escapes.may_escape(-0x68),
        "nothing takes the slot's address"
    );
    eliminate_dead_with(&mut b, &escapes);
    let stores = b
        .instrs
        .iter()
        .filter(|i| matches!(i, Instr::Store { .. }))
        .count();
    assert_eq!(
        stores, 1,
        "the overwritten store must go; got {:?}",
        b.instrs
    );
}

/// The same slot survives once its address escapes.
///
/// The guard that makes the pass safe. A callee handed a pointer into the frame can
/// read the slot, so the earlier store is observable even though this block has no
/// load of it.
#[test]
fn an_address_taken_frame_slot_survives_a_call() {
    let mut b = empty_sb(bid(0x1000), Vec::new(), Terminator::AdoptedReturn);
    b.instrs.push(Instr::Store {
        addr: Operand::Frame(-0x68),
        value: Operand::Imm(1),
        disp: 0,
        width: Width::W64,
    });
    // The address of the slot is handed to the callee.
    b.instrs.push(Instr::Call {
        target: CallTarget::Direct(0x140001000),
        args: vec![(Reg::Rcx, Operand::Frame(-0x68))],
    });
    b.instrs.push(Instr::Store {
        addr: Operand::Frame(-0x68),
        value: Operand::Imm(2),
        disp: 0,
        width: Width::W64,
    });
    let blocks = vec![b];
    let escapes = analyze_frame_escapes(&blocks);
    let mut b = blocks.into_iter().next().unwrap();
    assert!(
        escapes.may_escape(-0x68),
        "the address was passed to the callee"
    );
    eliminate_dead_with(&mut b, &escapes);
    let stores = b
        .instrs
        .iter()
        .filter(|i| matches!(i, Instr::Store { .. }))
        .count();
    assert_eq!(stores, 2, "both stores must survive; got {:?}", b.instrs);
}

/// An escape into a buffer taints the whole buffer, not just the byte named. A string built a byte at a time is one object, and `&buf[0]` licenses the callee to read all of it.
#[test]
fn an_escape_into_a_buffer_covers_its_interior() {
    let mut b = empty_sb(bid(0x1000), Vec::new(), Terminator::AdoptedReturn);
    for i in 0..6i64 {
        b.instrs.push(Instr::Store {
            addr: Operand::Frame(-0x37 + i),
            value: Operand::Imm(0x41),
            disp: 0,
            width: Width::W8,
        });
    }
    // Only the base is handed over.
    b.instrs.push(Instr::Call {
        target: CallTarget::Direct(0x140001000),
        args: vec![(Reg::Rcx, Operand::Frame(-0x37))],
    });
    let blocks = vec![b];
    let escapes = analyze_frame_escapes(&blocks);
    for i in 0..6i64 {
        assert!(
            escapes.may_escape(-0x37 + i),
            "byte {i} of the escaped buffer must be treated as readable"
        );
    }
    // A slot outside the buffer is still private.
    assert!(!escapes.may_escape(-0x68));
}
#[test]
fn a_store_into_the_outgoing_argument_area_is_anchored_to_the_call() {
    let stack_base = STACK_BASE;
    let call_rsp = stack_base - 0x58;
    let mut instrs = vec![
        Instr::Store {
            addr: Operand::Frame(-0x38),
            value: Operand::Imm(0),
            disp: 0,
            width: Width::W32,
        },
        Instr::Call {
            target: CallTarget::Direct(0x140001000),
            args: Vec::new(),
        },
    ];
    retarget_stack_args(&mut instrs, &vec![(1, Some(call_rsp))], stack_base);
    assert!(
        matches!(
            instrs[0],
            Instr::Store {
                addr: Operand::OutArg(0x20),
                disp: 0,
                ..
            }
        ),
        "entry-0x38 with RSP at entry-0x58 is argument 5, at call_rsp+0x20; got {:?}",
        instrs[0]
    );
}

#[test]
fn a_store_to_the_callers_frame_stays_entry_relative() {
    let stack_base = STACK_BASE;
    let call_rsp = stack_base - 0x58;
    let mut instrs = vec![
        Instr::Store {
            addr: Operand::Frame(8),
            value: Operand::Entry(Reg::Rbx),
            disp: 0,
            width: Width::W64,
        },
        Instr::Call {
            target: CallTarget::Direct(0x140001000),
            args: Vec::new(),
        },
    ];
    retarget_stack_args(&mut instrs, &vec![(1, Some(call_rsp))], stack_base);
    assert!(
        matches!(
            instrs[0],
            Instr::Store {
                addr: Operand::Frame(8),
                ..
            }
        ),
        "entry+8 is the caller's frame, not an argument; got {:?}",
        instrs[0]
    );
}

#[test]
fn stack_arguments_survive_a_later_store_to_the_same_slot() {
    // v0 is the stack base. Store to [v0+0x20], call, then store the same slot
    // again. Only the *second* store may be considered redundant-free; the first
    // is read by the call and must be kept.
    let mut arena = Arena::new();
    let dest = arena.constant(0, Width::W64);
    let mut sb = empty_sb(bid(0x1000), Vec::new(), Terminator::Return { dest });
    let slot = |v| Instr::Store {
        addr: Operand::Val(ValId(0)),
        value: Operand::Imm(v),
        disp: 0x20,
        width: Width::W64,
    };
    sb.instrs = vec![
        slot(0xaa),
        Instr::Call {
            target: CallTarget::Direct(0x140001000),
            args: Vec::new(),
        },
        slot(0xbb),
    ];
    eliminate_dead(&mut sb);

    let stores: Vec<u64> = sb
        .instrs
        .iter()
        .filter_map(|i| match i {
            Instr::Store {
                value: Operand::Imm(v),
                ..
            } => Some(*v),
            _ => None,
        })
        .collect();
    assert_eq!(
        stores,
        vec![0xaa, 0xbb],
        "the store before the call is an argument the callee reads and must not be              eliminated by the store after it"
    );
}

/// A wide store whose upper bytes are overwritten narrows to the surviving prefix.
#[test]
fn the_address_of_a_boxed_instruction_keeps_its_definition_alive() {
    // The address arithmetic for a boxed memory operand is a real use. When `each_operand` skipped `Instr::Boxed`, this `Add` looked dead and was deleted, and codegen then aimed the boxed instruction at whatever the scratch register happened to hold.
    let base = ValId(0);
    let addr = ValId(1);
    let mut b = empty_sb(bid(0x1000), vec![], Terminator::AdoptedReturn);
    b.instrs.push(Instr::Opaque {
        dst: base,
        tag: "call_ret",
        width: Width::W64,
        at: Some(Reg::Rax),
    });
    b.instrs.push(Instr::Bin {
        dst: addr,
        op: BinOp::Add,
        a: Operand::Val(base),
        b: Operand::Imm(0x10),
        width: Width::W64,
        operand_width: Width::W64,
    });
    b.instrs.push(Instr::Boxed {
        site: 0x1400b0adb,
        text: "movups xmm1,[rcx+10h]".into(),
        bytes: vec![0x0F, 0x10, 0x49, 0x10],
        mem: Some(BoxedMemOp {
            addr: Operand::Val(addr),
            bytes: 16,
            writes: false,
        }),
        uses: Vec::new(),
    });

    eliminate_dead(&mut b);

    assert!(
        b.instrs
            .iter()
            .any(|i| matches!(i, Instr::Bin { dst, .. } if *dst == addr)),
        "the Add computing the boxed operand's address was deleted as dead"
    );
    assert!(
        b.instrs.iter().any(|i| matches!(i, Instr::Boxed { .. })),
        "the boxed instruction itself must never be removed"
    );
}

#[test]
fn a_boxed_address_is_rewritten_like_any_other_operand() {
    // `each_operand_mut` drives operand rewriting. Skipping `Instr::Boxed` there
    // leaves the address pointing at a value later passes have replaced.
    let old = ValId(7);
    let new = ValId(9);
    let mut b = empty_sb(bid(0x1000), vec![], Terminator::AdoptedReturn);
    b.instrs.push(Instr::Boxed {
        site: 0x1400afec5,
        text: "movups xmm0,[rcx]".into(),
        bytes: vec![0x0F, 0x10, 0x01],
        mem: Some(BoxedMemOp {
            addr: Operand::Val(old),
            bytes: 16,
            writes: false,
        }),
        uses: Vec::new(),
    });

    for ins in &mut b.instrs {
        each_operand_mut(ins, |o| {
            if o == Operand::Val(old) {
                Operand::Val(new)
            } else {
                o
            }
        });
    }

    match &b.instrs[0] {
        Instr::Boxed { mem: Some(m), .. } => {
            assert_eq!(
                m.addr,
                Operand::Val(new),
                "the boxed address was not rewritten"
            );
        }
        other => panic!("expected a boxed instruction, got {other:?}"),
    }
}

/// A frame slot every block writes and none reads is dropped everywhere.
#[test]
fn a_frame_slot_no_block_reads_is_dropped() {
    let mut blocks = vec![
        empty_sb(bid(1), vec![], Terminator::Jump(bid(2))),
        empty_sb(bid(2), vec![], Terminator::AdoptedReturn),
    ];
    blocks[0].instrs.push(fstore(-0x298, 0x82, Width::W64));
    blocks[1].instrs.push(fstore(-0x298, 0x46, Width::W64));
    // A slot that is read, to show the pass is selective rather than blanket.
    blocks[0].instrs.push(fstore(-0x40, 7, Width::W64));
    blocks[1].instrs.push(Instr::Load {
        dst: ValId(0),
        addr: Operand::Frame(-0x40),
        disp: 0,
        width: Width::W64,
    });

    let escapes = analyze_frame_escapes(&blocks);
    let reads = analyze_frame_reads(&blocks);
    let n = drop_write_only_frame_slots(&mut blocks, &reads, &escapes);
    assert_eq!(n, 2, "both stores to the unread slot should go");
    let left: Vec<i64> = blocks
        .iter()
        .flat_map(|b| &b.instrs)
        .filter_map(|i| match i {
            Instr::Store {
                addr: Operand::Frame(off),
                ..
            } => Some(*off),
            _ => None,
        })
        .collect();
    assert_eq!(
        left,
        vec![-0x40],
        "only the read slot's store should remain"
    );
}

/// A slot written in one block and read in another survives. The case that makes the pass whole-function rather than per-block.
#[test]
fn a_slot_read_by_a_later_block_survives() {
    let mut blocks = vec![
        empty_sb(bid(1), vec![], Terminator::Jump(bid(2))),
        empty_sb(bid(2), vec![], Terminator::AdoptedReturn),
    ];
    blocks[0].instrs.push(fstore(-0x60, 0x1234, Width::W64));
    blocks[1].instrs.push(Instr::Load {
        dst: ValId(0),
        addr: Operand::Frame(-0x60),
        disp: 0,
        width: Width::W64,
    });

    let escapes = analyze_frame_escapes(&blocks);
    let reads = analyze_frame_reads(&blocks);
    let n = drop_write_only_frame_slots(&mut blocks, &reads, &escapes);
    assert_eq!(n, 0, "a cross-block read must keep the store");
}

/// A narrow read anywhere in the slot keeps a wide store to it.
///
/// Reads are ranges, not offsets: a one-byte load from the middle of an eight-byte
/// store observes it, so overlap rather than equality has to be the test.
#[test]
fn a_partial_read_keeps_the_whole_store() {
    let mut blocks = vec![empty_sb(bid(1), vec![], Terminator::AdoptedReturn)];
    blocks[0]
        .instrs
        .push(fstore(-0x80, 0xdead_beef, Width::W64));
    blocks[0].instrs.push(Instr::Load {
        dst: ValId(0),
        addr: Operand::Frame(-0x80),
        disp: 4,
        width: Width::W8,
    });

    let escapes = analyze_frame_escapes(&blocks);
    let reads = analyze_frame_reads(&blocks);
    let n = drop_write_only_frame_slots(&mut blocks, &reads, &escapes);
    assert_eq!(n, 0, "a byte read inside the stored range must keep it");
}

/// A slot whose address escapes survives even though nothing here reads it. An out-parameter: the function hands the callee a pointer and never loads the slot itself.
#[test]
fn an_escaping_slot_survives_with_no_read() {
    let mut blocks = vec![empty_sb(bid(1), vec![], Terminator::AdoptedReturn)];
    blocks[0].instrs.push(fstore(-0x50, 0, Width::W64));
    blocks[0].instrs.push(Instr::Call {
        target: CallTarget::Direct(0x1400_1000),
        args: vec![(Reg::Rcx, Operand::Frame(-0x50))],
    });

    let escapes = analyze_frame_escapes(&blocks);
    let reads = analyze_frame_reads(&blocks);
    let n = drop_write_only_frame_slots(&mut blocks, &reads, &escapes);
    assert_eq!(n, 0, "a slot handed to a callee must keep its store");
}

/// Stores at and above the return address are never dropped. These offsets
/// belong to the caller and may be read after this function returns.
#[test]
fn the_callers_slots_are_never_dropped() {
    let mut blocks = vec![empty_sb(bid(1), vec![], Terminator::AdoptedReturn)];
    blocks[0].instrs.push(fstore(0x10, 0, Width::W64));
    blocks[0].instrs.push(fstore(0x8, 0, Width::W64));

    let escapes = analyze_frame_escapes(&blocks);
    let reads = analyze_frame_reads(&blocks);
    let n = drop_write_only_frame_slots(&mut blocks, &reads, &escapes);
    assert_eq!(n, 0, "caller-visible slots must survive");
}

/// A boxed instruction's memory operand counts as a read. The IR does not record whether a boxed operand is read, written, or both, so it has to be assumed readable.
#[test]
fn a_boxed_memory_operand_counts_as_a_read() {
    let mut blocks = vec![empty_sb(bid(1), vec![], Terminator::AdoptedReturn)];
    blocks[0].instrs.push(fstore(-0x100, 0xabcd, Width::W64));
    blocks[0].instrs.push(Instr::Boxed {
        site: 0x1400_2000,
        bytes: vec![0x90],
        text: "nop".into(),
        mem: Some(BoxedMemOp {
            addr: Operand::Frame(-0x100),
            bytes: 8,
            writes: false,
        }),
        uses: Vec::new(),
    });

    let escapes = analyze_frame_escapes(&blocks);
    let reads = analyze_frame_reads(&blocks);
    let n = drop_write_only_frame_slots(&mut blocks, &reads, &escapes);
    assert_eq!(n, 0, "a boxed operand may read the slot");
}

#[test]
fn a_store_narrows_to_only_the_bytes_that_survive() {
    let mut b = empty_sb(bid(1), vec![], Terminator::AdoptedReturn);
    b.instrs.push(fstore(-0x38, 0x032E_3345, Width::W32));
    b.instrs.push(fstore(-0x37, 0x76, Width::W8));
    b.instrs.push(fstore(-0x36, 0x6b, Width::W8));
    b.instrs.push(fstore(-0x35, 0x46, Width::W8));

    let before = replay(&b);
    let n = narrow_partially_dead_stores(&mut b);
    let after = replay(&b);

    assert_eq!(n, 1, "exactly the dword store should narrow");
    assert_eq!(before, after, "narrowing changed what memory holds");
    assert_eq!(before.get(&-0x38), Some(&0x45u8), "the key byte survives");

    match &b.instrs[0] {
        Instr::Store { width, value, .. } => {
            assert_eq!(*width, Width::W8, "should be a byte store");
            assert_eq!(
                *value,
                Operand::Imm(0x45),
                "the immediate should be truncated to the key byte"
            );
        }
        other => panic!("expected a store, got {other:?}"),
    }
}

/// A byte someone reads is never narrowed away.
#[test]
fn a_store_is_not_narrowed_across_a_read_or_a_call() {
    // A load of the full dword freezes all four bytes, so nothing may narrow even
    // though later byte stores overwrite three of them.
    let mut b = empty_sb(bid(1), vec![], Terminator::AdoptedReturn);
    b.instrs.push(fstore(-0x38, 0x032E_3345, Width::W32));
    b.instrs.push(Instr::Load {
        dst: ValId(1),
        addr: Operand::Frame(-0x38),
        disp: 0,
        width: Width::W32,
    });
    b.instrs.push(fstore(-0x37, 0x76, Width::W8));
    b.instrs.push(fstore(-0x36, 0x6b, Width::W8));
    b.instrs.push(fstore(-0x35, 0x46, Width::W8));
    assert_eq!(
        narrow_partially_dead_stores(&mut b),
        0,
        "a read of the span must block narrowing"
    );

    // A call is a barrier for the same reason: the callee is handed a pointer to
    // this buffer and reads it.
    let mut b = empty_sb(bid(1), vec![], Terminator::AdoptedReturn);
    b.instrs.push(fstore(-0x38, 0x032E_3345, Width::W32));
    b.instrs.push(Instr::Call {
        target: CallTarget::Direct(0x1_4000_5744),
        args: vec![],
    });
    b.instrs.push(fstore(-0x37, 0x76, Width::W8));
    b.instrs.push(fstore(-0x36, 0x6b, Width::W8));
    b.instrs.push(fstore(-0x35, 0x46, Width::W8));
    assert_eq!(
        narrow_partially_dead_stores(&mut b),
        0,
        "a call must block narrowing"
    );
}

/// Consecutive stores to the same frame slot are dead when no read occurs between
/// them.
#[test]
fn a_frame_store_clobbered_before_any_read_is_dead() {
    let mut arena = Arena::new();
    let dest = arena.constant(0, Width::W64);
    let mut sb = empty_sb(bid(0x1000), Vec::new(), Terminator::Return { dest });
    let slot = |v| Instr::Store {
        addr: Operand::Frame(-0x50),
        value: Operand::Imm(v),
        disp: 0,
        width: Width::W64,
    };
    sb.instrs = vec![slot(0xaa), slot(0xbb), slot(0xcc)];
    eliminate_dead(&mut sb);

    let stores: Vec<u64> = sb
        .instrs
        .iter()
        .filter_map(|i| match i {
            Instr::Store {
                value: Operand::Imm(v),
                ..
            } => Some(*v),
            _ => None,
        })
        .collect();
    assert_eq!(
        stores,
        vec![0xcc],
        "only the last store to the slot is live; the first two are overwritten              before any read"
    );
}

/// A callee handed a pointer into the bytes being re-anchored keeps them where they are.
#[test]
fn stores_are_not_re_anchored_when_the_callee_is_given_their_address() {
    let stack_base = STACK_BASE;
    // RSP at the call, as measured for both functions.
    let call_rsp = stack_base.wrapping_sub(0x58);

    let store_at = |off: i64| Instr::Store {
        addr: Operand::Frame(off),
        value: Operand::Imm(0x41),
        disp: 0,
        width: Width::W8,
    };

    // The decryptor: rcx points at -0x36, inside the -0x38..-0x2c span.
    let mut decryptor = vec![
        store_at(-0x38),
        store_at(-0x32),
        store_at(-0x2c),
        Instr::Call {
            target: CallTarget::Direct(0x140005744),
            args: vec![(Reg::Rcx, Operand::Frame(-0x36))],
        },
    ];
    retarget_stack_args(&mut decryptor, &vec![(3, Some(call_rsp))], stack_base);
    for (n, ins) in decryptor[..3].iter().enumerate() {
        assert!(
            matches!(
                ins,
                Instr::Store {
                    addr: Operand::Frame(_),
                    ..
                }
            ),
            "store {n} feeds a buffer the callee is handed a pointer to, so it must \
             stay frame-anchored; got {ins:?}"
        );
    }

    let mut io_create = vec![
        store_at(-0x38),
        store_at(-0x30),
        store_at(-0x28),
        Instr::Call {
            target: CallTarget::Direct(0x14002a288),
            args: vec![
                (Reg::Rcx, Operand::Entry(Reg::Rcx)),
                (Reg::R8, Operand::Frame(-0x18)),
            ],
        },
    ];
    retarget_stack_args(&mut io_create, &vec![(3, Some(call_rsp))], stack_base);
    for (n, ins) in io_create[..3].iter().enumerate() {
        assert!(
            matches!(
                ins,
                Instr::Store {
                    addr: Operand::OutArg(_),
                    ..
                }
            ),
            "store {n} is a genuine stack argument and must be re-anchored to the \
             ABI area; got {ins:?}"
        );
    }
}

#[test]
fn empty_block_chains_are_threaded_and_orphans_dropped() {
    let rsp_only = || vec![(Reg::Rsp, Operand::Imm(0x58))];
    // entry -> a -> b -> real, where a and b do nothing.
    let blocks = vec![
        empty_sb(bid(0x10), Vec::new(), Terminator::Jump(bid(0x20))),
        empty_sb(bid(0x20), rsp_only(), Terminator::Jump(bid(0x30))),
        empty_sb(bid(0x30), rsp_only(), Terminator::Jump(bid(0x40))),
        empty_sb(bid(0x40), Vec::new(), Terminator::AdoptedReturn),
    ];
    let mut threaded = blocks;
    thread_empty_jumps(&mut threaded);
    assert!(
        matches!(threaded[0].terminator, Terminator::Jump(t) if t == bid(0x40)),
        "the entry must jump straight past both empty blocks, got {:?}",
        threaded[0].terminator
    );
    let kept = drop_unreachable(threaded);
    assert_eq!(
        kept.iter().map(|b| b.id).collect::<Vec<_>>(),
        vec![bid(0x10), bid(0x40)],
        "the bypassed blocks have no predecessors left and must be dropped"
    );
}

/// A block whose exit actually moves a value must not be threaded past.
///
/// `rbx = Entry(Rdx)` is a real register move the successor depends on. Only an
/// identity exit, or one naming RSP (which codegen strips), is safe to skip.
#[test]
fn a_block_with_a_real_exit_move_is_not_threaded() {
    let mut blocks = vec![
        empty_sb(bid(0x10), Vec::new(), Terminator::Jump(bid(0x20))),
        empty_sb(
            bid(0x20),
            vec![(Reg::Rbx, Operand::Entry(Reg::Rdx))],
            Terminator::Jump(bid(0x30)),
        ),
        empty_sb(bid(0x30), Vec::new(), Terminator::AdoptedReturn),
    ];
    thread_empty_jumps(&mut blocks);
    assert!(
        matches!(blocks[0].terminator, Terminator::Jump(t) if t == bid(0x20)),
        "the exit move has to happen, so the block cannot be skipped, got {:?}",
        blocks[0].terminator
    );
}

/// Threading must terminate even if the empty blocks form a cycle.
///
/// Such a graph is an infinite loop and is rejected upstream, but the resolver
/// walks a chain and must not be the thing that hangs.
#[test]
fn threading_a_cycle_of_empty_blocks_terminates() {
    let rsp_only = || vec![(Reg::Rsp, Operand::Imm(0x58))];
    let mut blocks = vec![
        empty_sb(bid(0x10), Vec::new(), Terminator::Jump(bid(0x20))),
        empty_sb(bid(0x20), rsp_only(), Terminator::Jump(bid(0x30))),
        empty_sb(bid(0x30), rsp_only(), Terminator::Jump(bid(0x20))),
    ];
    thread_empty_jumps(&mut blocks);
    // Whichever end it settles on, it must have stopped.
    assert!(matches!(blocks[0].terminator, Terminator::Jump(_)));
}

#[test]
fn a_returns_identity_exit_does_not_pin_a_non_volatile() {
    let mut arena = Arena::default();
    let rcx = arena.init_reg(Reg::Rcx);
    let rsp = arena.init_reg(Reg::Rsp);
    let rbp = arena.init_reg(Reg::Rbp);
    let rbx = arena.init_reg(Reg::Rbx);
    let rax = arena.init_reg(Reg::Rax);

    let regs = vec![
        (Reg::Rcx, rcx),
        (Reg::Rsp, rsp),
        (Reg::Rbp, rbp),
        (Reg::Rbx, rbx),
        (Reg::Rax, rax),
    ];
    let mk = |h: u64, preds: Vec<BlockId>, term: Terminator| Block {
        id: bid(h),
        block_ref: BlockRef(h as u32),
        params: Vec::new(),
        events: Vec::new(),
        from_vm_context: true,
        exit_regs: regs.clone(),
        terminator: term,
        cost: 0,
        preds,
    };

    let cfg = Cfg {
        entry: bid(0),
        arena,
        blocks: vec![
            mk(0, vec![], Terminator::Jump(bid(1))),
            mk(1, vec![bid(0)], Terminator::Return { dest: rsp }),
        ],
        total_steps: 0,
        unresolved: 0,
        back_edges: Vec::new(),
        trivial_phis_removed: 0,
        timed_out: false,
        stack_base: STACK_BASE,
        vm_range: (0, 0),
    };

    // An exit is `(destination, source)`, and the prune keeps or drops it by its
    // *destination*. So block 0 has to name every register it might have to
    // deliver, and the return names what it does with them.
    let block0_exits = vec![
        (Reg::Rcx, Operand::Entry(Reg::Rcx)),
        (Reg::Rbp, Operand::Entry(Reg::Rbp)),
        (Reg::Rbx, Operand::Entry(Reg::Rbx)),
        (Reg::Rax, Operand::Entry(Reg::Rax)),
        (Reg::Rsp, Operand::Entry(Reg::Rsp)),
    ];
    let return_exits = vec![
        // Identity, non-volatile: the epilogue restores it, so it is redundant and
        // must not make RBP live-out at block 0.
        (Reg::Rbp, Operand::Entry(Reg::Rbp)),
        // Not the identity: a real move, so its *source* RCX must reach the return.
        (Reg::Rbx, Operand::Entry(Reg::Rcx)),
        // Volatile: nothing restores it, so an identity exit here is real.
        (Reg::Rax, Operand::Entry(Reg::Rax)),
        (Reg::Rsp, Operand::Entry(Reg::Rsp)),
    ];
    let mut blocks: Vec<SchedBlock> = cfg
        .blocks
        .iter()
        .enumerate()
        .map(|(i, b)| SchedBlock {
            id: b.id,
            instrs: Vec::new(),
            exits: if i == 0 {
                block0_exits.clone()
            } else {
                return_exits.clone()
            },
            callee_set: Vec::new(),
            control: None,
            terminator: b.terminator.clone(),
            fused: None,
        })
        .collect();

    prune_dead_exits(&cfg, &mut blocks);

    let has = |b: &SchedBlock, r: Reg| b.exits.iter().any(|(x, _)| *x == r);

    assert!(
        !has(&blocks[0], Reg::Rbp),
        "block 0 must not carry RBP: the return's exit for it is the identity and \
         the epilogue restores it, so nothing downstream needs it delivered"
    );
    assert!(
        has(&blocks[0], Reg::Rcx),
        "block 0 must keep RCX: the return moves it into RBX, which is a real move"
    );
    assert!(
        has(&blocks[0], Reg::Rax),
        "block 0 must keep RAX: it is volatile, so no epilogue restores it"
    );
}

#[test]
fn liveness_carries_through_a_block_that_does_not_read() {
    let mut arena = Arena::default();
    let rcx = arena.init_reg(Reg::Rcx);
    let rsp = arena.init_reg(Reg::Rsp);
    let rdi = arena.init_reg(Reg::Rdi);

    // Every block passes RCX, RSP and RDI along unchanged.
    let regs = vec![(Reg::Rcx, rcx), (Reg::Rsp, rsp), (Reg::Rdi, rdi)];
    let mk = |h: u64, preds: Vec<BlockId>, term: Terminator| Block {
        id: bid(h),
        block_ref: BlockRef(h as u32),
        params: Vec::new(),
        events: Vec::new(),
        from_vm_context: true,
        exit_regs: regs.clone(),
        terminator: term,
        cost: 0,
        preds,
    };

    let cfg = Cfg {
        entry: bid(0),
        arena,
        blocks: vec![
            mk(0, vec![], Terminator::Jump(bid(1))),
            mk(1, vec![bid(0), bid(2)], Terminator::Jump(bid(2))),
            // Loops back rather than returning. A return or tail call is an
            // opaque exit that holds every register live, which would mask the
            // pruning this test is checking.
            mk(2, vec![bid(1)], Terminator::Backedge { target: bid(1) }),
        ],
        total_steps: 0,
        unresolved: 0,
        back_edges: Vec::new(),
        trivial_phis_removed: 0,
        timed_out: false,
        stack_base: STACK_BASE,
        vm_range: (0, 0),
    };

    let mut blocks: Vec<SchedBlock> = cfg
        .blocks
        .iter()
        .map(|b| SchedBlock {
            id: b.id,
            instrs: Vec::new(),
            exits: vec![
                (Reg::Rcx, Operand::Entry(Reg::Rcx)),
                (Reg::Rsp, Operand::Entry(Reg::Rsp)),
                (Reg::Rdi, Operand::Entry(Reg::Rdi)),
            ],
            callee_set: Vec::new(),
            control: None,
            terminator: b.terminator.clone(),
            fused: None,
        })
        .collect();

    // Only block 2 reads RCX, and it reads nothing else.
    blocks[2].instrs.push(Instr::Store {
        addr: Operand::Entry(Reg::Rcx),
        disp: 0,
        value: Operand::Imm(1),
        width: Width::W64,
    });

    prune_dead_exits(&cfg, &mut blocks);

    let has = |b: &SchedBlock, r: Reg| b.exits.iter().any(|(x, _)| *x == r);

    assert!(
        has(&blocks[0], Reg::Rcx),
        "block 0 must keep RCX: block 2 reads it, two edges away"
    );
    assert!(
        has(&blocks[1], Reg::Rcx),
        "block 1 must keep RCX even though it never reads it, because it is on \
         the path to a block that does"
    );
    // RDI is read by nothing anywhere in the loop, so every block drops it.
    for (i, b) in blocks.iter().enumerate() {
        assert!(
            !has(b, Reg::Rdi),
            "nothing reads RDI, so block {i} drops it"
        );
    }
    // Guest RSP is always kept: frame recovery reads it.
    assert!(has(&blocks[0], Reg::Rsp), "RSP is never pruned");
}
#[test]
fn entry_read_follows_the_register_the_value_was_saved_in() {
    let mut arena = Arena::default();
    let in_rdx = arena.init_reg(Reg::Rdx);
    let in_rsp = arena.init_reg(Reg::Rsp);
    let trashed = arena.opaque("clobbered", Width::W64);

    // Block 0 saves the incoming RDX into RBX, and a call destroys RDX itself.
    let b0_exits = vec![(Reg::Rbx, in_rdx), (Reg::Rdx, trashed), (Reg::Rsp, in_rsp)];
    // Block 1 changes nothing.
    let b1_exits = b0_exits.clone();

    let mk = |h: u64, preds: Vec<BlockId>, term: Terminator, ex: Vec<(Reg, Ref)>| Block {
        id: bid(h),
        block_ref: BlockRef(h as u32),
        params: Vec::new(),
        events: Vec::new(),
        from_vm_context: true,
        exit_regs: ex,
        terminator: term,
        cost: 0,
        preds,
    };

    let cfg = Cfg {
        entry: bid(0),
        arena,
        // Order the consumer before its predecessor to keep the pass independent
        // of block ordering.
        blocks: vec![
            mk(0, vec![], Terminator::Jump(bid(1)), b0_exits),
            mk(
                1,
                vec![bid(0)],
                Terminator::Backedge { target: bid(1) },
                b1_exits,
            ),
        ],
        total_steps: 0,
        unresolved: 0,
        back_edges: Vec::new(),
        trivial_phis_removed: 0,
        timed_out: false,
        stack_base: STACK_BASE,
        vm_range: (0, 0),
    };

    let mut blocks: Vec<SchedBlock> = cfg
        .blocks
        .iter()
        .map(|b| SchedBlock {
            id: b.id,
            instrs: Vec::new(),
            exits: vec![(Reg::Rsp, Operand::Entry(Reg::Rsp))],
            callee_set: Vec::new(),
            control: None,
            terminator: b.terminator.clone(),
            fused: None,
        })
        .collect();

    // Block 1 passes the incoming RDX as an argument.
    blocks[1].instrs.push(Instr::Call {
        target: CallTarget::Direct(0x2000),
        args: vec![(Reg::Rcx, Operand::Entry(Reg::Rdx))],
    });

    rename_entry_reads(&cfg, &mut blocks);

    let Instr::Call { args, .. } = &blocks[1].instrs[0] else {
        panic!("still a call")
    };
    assert_eq!(
        args[0].1,
        Operand::Entry(Reg::Rbx),
        "the incoming RDX was saved into RBX, so the argument must read RBX, not \
         the RDX the call destroyed"
    );

    // Block 0 defines the value rather than receiving it, so it is left alone.
    assert!(blocks[0].instrs.is_empty());
}

/// A narrowed save cannot answer a read wider than it preserves. The other half of the rule above.
#[test]
fn a_narrowed_save_is_not_a_home_for_a_wide_read() {
    let mut arena = Arena::default();
    let in_rcx = arena.init_reg(Reg::Rcx);
    let in_rsp = arena.init_reg(Reg::Rsp);
    let mask = arena.constant(0xffff_ffff, Width::W64);
    let narrowed = arena.bin(BinOp::And, in_rcx, mask);
    let addr = arena.constant(0x7fff_fffe_fd14, Width::W64);

    let b0_exits = vec![(Reg::Rcx, addr), (Reg::Rdi, narrowed), (Reg::Rsp, in_rsp)];

    let mk = |h: u64, preds: Vec<BlockId>, term: Terminator, ex: Vec<(Reg, Ref)>| Block {
        id: bid(h),
        block_ref: BlockRef(h as u32),
        params: Vec::new(),
        events: Vec::new(),
        from_vm_context: false,
        exit_regs: ex,
        terminator: term,
        cost: 0,
        preds,
    };

    let cfg = Cfg {
        entry: bid(0),
        arena,
        blocks: vec![
            mk(0, vec![], Terminator::Jump(bid(1)), b0_exits.clone()),
            mk(1, vec![bid(0)], Terminator::AdoptedReturn, b0_exits),
        ],
        total_steps: 0,
        unresolved: 0,
        back_edges: Vec::new(),
        trivial_phis_removed: 0,
        timed_out: false,
        stack_base: STACK_BASE,
        vm_range: (0, 0),
    };

    let mut blocks: Vec<SchedBlock> = cfg
        .blocks
        .iter()
        .map(|b| SchedBlock {
            id: b.id,
            instrs: Vec::new(),
            exits: vec![(Reg::Rsp, Operand::Entry(Reg::Rsp))],
            callee_set: Vec::new(),
            control: None,
            terminator: b.terminator.clone(),
            fused: None,
        })
        .collect();

    // Block 1 uses the incoming RCX as a 64-bit pointer.
    blocks[1].instrs.push(Instr::Load {
        dst: ValId(0),
        addr: Operand::Entry(Reg::Rcx),
        disp: 0,
        width: Width::W64,
    });

    rename_entry_reads(&cfg, &mut blocks);

    let Instr::Load { addr, .. } = &blocks[1].instrs[0] else {
        panic!("still a load")
    };
    assert_eq!(
        *addr,
        Operand::Entry(Reg::Rcx),
        "RDI keeps only 32 bits, so it cannot stand in for a 64-bit read and the \
         rename must decline rather than substitute a zero-extended value"
    );
}

#[test]
fn a_call_return_value_is_placed_at_the_call() {
    let mut arena = Arena::new();
    let stack_base = 0x7ff0_0000_u64;
    let ret = arena.opaque("call_ret", Width::W64);
    // The reader is a load *through* the returned pointer, so scheduling it
    // requires the return value: exactly the shape of `v3 = load [v2]`.
    let loaded = arena.load(ret, Width::W64);
    let dest = arena.constant(0, Width::W64);
    let events = vec![
        Event::Call {
            target: None,
            site: 0x140001010,
            rsp: Some(stack_base - 0x28),
            import_slot: Some(0x14002a288),
            args: Vec::new(),
            ret: Some(ret),
        },
        Event::Load {
            addr: ret,
            value: loaded,
            width: Width::W64,
            site: 0x140001020,
            region: Region::Guest,
        },
    ];
    let block = Block {
        id: bid(0x1000),
        block_ref: BlockRef(0),
        params: Vec::new(),
        events,
        from_vm_context: true,
        exit_regs: vec![(Reg::Rbx, loaded)],
        terminator: Terminator::Return { dest },
        cost: 0,
        preds: Vec::new(),
    };
    let cfg = Cfg {
        entry: bid(0x1000),
        arena,
        blocks: vec![block],
        total_steps: 0,
        unresolved: 0,
        back_edges: Vec::new(),
        trivial_phis_removed: 0,
        timed_out: false,
        stack_base,
        vm_range: (0, 0),
    };
    let sb = schedule_one(&cfg, &cfg.blocks[0]);
    let call = sb
        .instrs
        .iter()
        .position(|i| matches!(i, Instr::Call { .. }))
        .unwrap_or_else(|| panic!("no call scheduled: {:?}", sb.instrs));
    let opaque = sb
        .instrs
        .iter()
        .position(|i| {
            matches!(
                i,
                Instr::Opaque {
                    tag: "call_ret",
                    ..
                }
            )
        })
        .unwrap_or_else(|| panic!("no return opaque scheduled: {:?}", sb.instrs));
    assert_eq!(
        opaque,
        call + 1,
        "the return opaque must sit immediately after its call, where the value              actually is; got call at {call} and opaque at {opaque} in {:?}",
        sb.instrs
    );
}

/// A return value from a *predecessor's* call is read as RAX's entry value. Block boundaries are fixed: a successor reads guest register `R` from `R`.
#[test]
fn a_return_value_from_a_predecessors_call_reads_rax_at_entry() {
    let mut arena = Arena::new();
    let stack_base = 0x7ff0_0000_u64;
    // No `Event::Call` in this block: the opaque came from a predecessor.
    let ret = arena.opaque("call_ret", Width::W64);
    let loaded = arena.load(ret, Width::W64);
    let dest = arena.constant(0, Width::W64);
    let events = vec![Event::Load {
        addr: ret,
        value: loaded,
        width: Width::W64,
        site: 0x140001020,
        region: Region::Guest,
    }];
    let block = Block {
        id: bid(0x1000),
        block_ref: BlockRef(0),
        params: Vec::new(),
        events,
        from_vm_context: true,
        exit_regs: vec![(Reg::Rbx, loaded)],
        terminator: Terminator::Return { dest },
        cost: 0,
        preds: Vec::new(),
    };
    let cfg = Cfg {
        entry: bid(0x1000),
        arena,
        blocks: vec![block],
        total_steps: 0,
        unresolved: 0,
        back_edges: Vec::new(),
        trivial_phis_removed: 0,
        timed_out: false,
        stack_base,
        vm_range: (0, 0),
    };
    let sb = schedule_one(&cfg, &cfg.blocks[0]);
    assert!(
        !sb.instrs.iter().any(|i| matches!(
            i,
            Instr::Opaque {
                tag: "call_ret",
                ..
            }
        )),
        "no call in this block returns anything, so there is no definition to              place here; got {:?}",
        sb.instrs
    );
    let addr = sb
        .instrs
        .iter()
        .find_map(|i| match i {
            Instr::Load { addr, .. } => Some(*addr),
            _ => None,
        })
        .unwrap_or_else(|| panic!("no load scheduled: {:?}", sb.instrs));
    assert_eq!(
        addr,
        Operand::Entry(Reg::Rax),
        "the pointer arrives in rax at entry, so the load must address it there;              got {addr:?}"
    );
}

#[test]
fn a_boxed_implicit_read_keeps_its_definition_alive() {
    let base = ValId(0);
    let index = ValId(1);
    let mut b = empty_sb(bid(0x1000), vec![], Terminator::AdoptedReturn);
    b.instrs.push(Instr::Opaque {
        dst: base,
        tag: "call_ret",
        width: Width::W64,
        at: Some(Reg::Rax),
    });
    b.instrs.push(Instr::Bin {
        dst: index,
        op: BinOp::Add,
        a: Operand::Val(base),
        b: Operand::Imm(0x6a2),
        width: Width::W64,
        operand_width: Width::W64,
    });
    // `rdmsr` = 0f 32, reading its MSR index from ECX and naming no operand.
    b.instrs.push(Instr::Boxed {
        site: 0x14010e025,
        text: "rdmsr".into(),
        bytes: vec![0x0F, 0x32],
        mem: None,
        uses: vec![(Reg::Rcx, Operand::Val(index))],
    });

    eliminate_dead(&mut b);

    assert!(
        b.instrs
            .iter()
            .any(|i| matches!(i, Instr::Bin { dst, .. } if *dst == index)),
        "the Add computing the MSR index was deleted as dead, so codegen has no \
         location for it and the whole function fails to lower"
    );
}

/// A `uses` operand is rewritten like any other.
///
/// `each_operand_mut` drives operand renaming, so leaving `uses` out of it would
/// point an implicit read at a value later passes have replaced; the same defect
/// `a_boxed_address_is_rewritten_like_any_other_operand` guards for the address.
#[test]
fn a_boxed_implicit_read_is_rewritten_like_any_other_operand() {
    let old = ValId(7);
    let new = ValId(9);
    let mut b = empty_sb(bid(0x1000), vec![], Terminator::AdoptedReturn);
    b.instrs.push(Instr::Boxed {
        site: 0x14010e025,
        text: "rdmsr".into(),
        bytes: vec![0x0F, 0x32],
        mem: None,
        uses: vec![(Reg::Rcx, Operand::Val(old))],
    });
    each_operand_mut(&mut b.instrs[0], |o| {
        if o == Operand::Val(old) {
            Operand::Val(new)
        } else {
            o
        }
    });
    let Instr::Boxed { uses, .. } = &b.instrs[0] else {
        panic!("not boxed")
    };
    assert_eq!(
        uses[0].1,
        Operand::Val(new),
        "a uses operand must be renamed with the rest"
    );
}
