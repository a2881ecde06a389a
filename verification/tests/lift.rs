//! Locating guest state, telling instructions apart, and picking the bytecode position.

use iced_x86::Mnemonic;
use std::collections::HashSet;
use tvm_devirt::ir::branch::is_iat_tail_call;
use tvm_devirt::ir::context::slot_confirms_register;
use tvm_devirt::ir::decode::Inst;
use tvm_devirt::ir::expr::{Arena, BlockRef};
use tvm_devirt::ir::mnemonic::is_boxable;
use tvm_devirt::ir::run::{pick_vip_slot, Observed};
use tvm_devirt::ir::value::{Reg, Width};

fn obs(pairs: &[(u64, &[u64])]) -> Vec<Observed> {
    pairs
        .iter()
        .map(|(o, vs)| Observed { offset: *o, values: vs.to_vec() })
        .collect()
}

/// The slot that moves most wins, which is what makes the offset derivable
/// instead of hardcoded.
#[test]
fn the_slot_that_moves_most_is_the_vip() {
    let many: Vec<u64> = (0..130).collect();
    let few: Vec<u64> = (0..7).collect();
    let seen = obs(&[
        (0x60, &many),
        (0x90, &few),
        (0x98, &few),
        (0x8, &[1]),
        (0x20, &[2]),
        (0x30, &[3]),
    ]);
    assert_eq!(pick_vip_slot(&seen), Some(0x60));
}

/// A constant slot is not a position.
///
/// Accepting one would be worse than returning nothing: it looks like a valid
/// vip, so identity silently degenerates to the handler alone rather than
/// falling back to the handler-only path on purpose.
#[test]
fn a_slot_that_never_moves_is_not_a_vip() {
    assert_eq!(pick_vip_slot(&obs(&[(0x60, &[0x1400a3c2])])), None);
    assert_eq!(pick_vip_slot(&obs(&[])), None);
    // Several slots, none of which move.
    assert_eq!(
        pick_vip_slot(&obs(&[(0x8, &[1]), (0x60, &[2]), (0x90, &[3])])),
        None
    );
}

/// A tie must resolve the same way every run.
#[test]
fn a_tie_resolves_to_the_lower_offset() {
    let a: Vec<u64> = (0..20).collect();
    for _ in 0..64 {
        let seen = obs(&[(0x98, &a), (0x60, &a), (0x90, &a)]);
        assert_eq!(
            pick_vip_slot(&seen),
            Some(0x60),
            "ties must not depend on hash order"
        );
    }
}

/// A seeded slot still confirms its register, so cutting a block does not erase
/// the evidence that locates the guest context.
#[test]
fn a_seeded_slot_still_confirms_its_register() {
    let mut a = Arena::new();

    // Untouched: the register's entry value.
    let init = a.init_reg(Reg::Rcx);
    assert!(slot_confirms_register(a.op(init), Reg::Rcx));

    // Cut: an SSA parameter for the same register, which only gets written here
    // once the image has already been found at this base.
    let p = a.param(BlockRef(3), Reg::Rcx);
    assert!(
        slot_confirms_register(a.op(p), Reg::Rcx),
        "a cut block must not erase its own context base"
    );

    // Both forms must still discriminate on the register, or the layout probe
    // cannot tell the candidate slot orderings apart.
    let other_init = a.init_reg(Reg::Rdx);
    let other_param = a.param(BlockRef(3), Reg::Rdx);
    assert!(!slot_confirms_register(a.op(other_init), Reg::Rcx));
    assert!(!slot_confirms_register(a.op(other_param), Reg::Rcx));

    // Anything else is not evidence either way.
    let c = a.constant(0x140030ab0, Width::W64);
    assert!(!slot_confirms_register(a.op(c), Reg::Rcx));
    let sym = a.opaque("call_ret", Width::W64);
    assert!(!slot_confirms_register(a.op(sym), Reg::Rcx));
}

/// Only an exact IAT slot is a tail call.
#[test]
fn only_an_exact_iat_slot_is_a_tail_call() {
    let slots: HashSet<u64> = [0x14002a000, 0x14002a008, 0x14002a168]
        .into_iter()
        .collect();

    assert!(
        is_iat_tail_call(0x14002a168, &slots),
        "a real slot is a tail call"
    );
    assert!(is_iat_tail_call(0x14002a000, &slots));

    assert!(
        !is_iat_tail_call(0x14002a010, &slots),
        "a gap in the IAT is not a slot"
    );
    // Misaligned into the middle of a real slot.
    assert!(!is_iat_tail_call(0x14002a16c, &slots));
    // A VM dispatch table entry, which uses the identical instruction form.
    assert!(
        !is_iat_tail_call(0x14002d038, &slots),
        "a dispatch table is not the IAT"
    );
    // A handler address in the VM section.
    assert!(!is_iat_tail_call(0x1401e1897, &slots));

    // An empty set means no imports were parsed; nothing may be a tail call,
    // because guessing would truncate every function that dispatches this way.
    assert!(!is_iat_tail_call(0x14002a168, &HashSet::new()));
}

fn decode(bytes: &[u8]) -> Inst {
    Inst::decode(bytes.to_vec(), 0x1400a4c4d).expect("a whole instruction")
}

/// FS/GS-relative accesses are segment-relative; nothing else is.
#[test]
fn only_fs_and_gs_are_segment_relative() {
    let gs = decode(&[0x65, 0x8a, 0x0c, 0x25, 0x84, 0x01, 0x00, 0x00]);
    assert_eq!(gs.head.mnemonic, Mnemonic::Mov as u32);
    assert!(gs.seg_relative(), "a gs-prefixed load is segment-relative");

    // `mov eax, fs:[18h]`.
    let fs = decode(&[0x64, 0x8b, 0x04, 0x25, 0x18, 0x00, 0x00, 0x00]);
    assert!(fs.seg_relative(), "an fs-prefixed load is segment-relative");

    // The same load with no prefix: an ordinary absolute access, which models
    // fine and must not be diverted to boxing.
    let plain = decode(&[0x8a, 0x0c, 0x25, 0x84, 0x01, 0x00, 0x00]);
    assert!(!plain.seg_relative(), "no prefix is not segment-relative");

    // A DS-prefixed access. In long mode DS is forced to zero, so the prefix
    // contributes nothing; treating it as segment-relative would box addresses
    // that resolve perfectly well.
    let ds = decode(&[0x3e, 0x8b, 0x04, 0x25, 0x18, 0x00, 0x00, 0x00]);
    assert!(!ds.seg_relative(), "ds contributes no base in long mode");

    // A register-only instruction carries no memory operand to be relative to.
    let reg_only = decode(&[0x48, 0x89, 0xc8]);
    assert!(!reg_only.seg_relative(), "no memory operand");
}

/// `vmxoff` and `vmlaunch` appear as guest instructions, so they must be boxable.
#[test]
fn vmx_fallthrough_instructions_are_boxable() {
    assert!(is_boxable(Mnemonic::Vmxoff as u32), "0x1400a8654 needs this");
    assert!(is_boxable(Mnemonic::Vmlaunch as u32), "0x1401175fa needs this");
    assert!(
        is_boxable(Mnemonic::Vmresume as u32),
        "same family, same treatment"
    );
    assert!(is_boxable(Mnemonic::Vmxon as u32), "was never excluded");
}

/// Boxing is still refused where continuing would be meaningless. Boxable means "replay the bytes and keep evaluating the next instruction". That is only sound when the instruction falls through to `next`.
#[test]
fn control_transfers_and_traps_are_still_not_boxable() {
    for m in [
        Mnemonic::Iretq,
        Mnemonic::Syscall,
        Mnemonic::Sysret,
        Mnemonic::Int3,
        Mnemonic::Ud2,
        Mnemonic::Hlt,
    ] {
        assert!(!is_boxable(m as u32), "{m:?} does not fall through");
    }
}
