//! Exact values of the arithmetic, the hash, the texts and the arguments.

use tvm_devirt::args::parse_u64;
use tvm_devirt::ir::expr::{Arena, BlockRef, Op};
use tvm_devirt::ir::fold::{
    bswap, fold_bin, low_zero_run, mask_of_low_bits, parity_byte, shift_count, sign_extend,
};
use tvm_devirt::ir::hash::{mix_bytes, mix_u64, FNV1A_OFFSET_BASIS};
use tvm_devirt::ir::shape::render;
use tvm_devirt::ir::value::{BinOp, Reg, UnOp, Width, GPRS};
use tvm_devirt::ir::walk::{is_guest_rooted, leaves};

#[test]
fn widths_know_their_sizes() {
    assert_eq!(Width::from_bytes(1), Some(Width::W8));
    assert_eq!(Width::from_bytes(2), Some(Width::W16));
    assert_eq!(Width::from_bytes(4), Some(Width::W32));
    assert_eq!(Width::from_bytes(8), Some(Width::W64));
    assert_eq!(Width::from_bytes(3), None);
    assert_eq!(Width::from_bytes(16), None);
    assert_eq!((Width::W16.bytes(), Width::W16.bits()), (2, 16));
    assert_eq!((Width::W32.mask(), Width::W64.mask()), (0xffff_ffff, u64::MAX));
    assert_eq!((Width::W8.sign_bit(), Width::W64.sign_bit()), (0x80, 1 << 63));
    assert_eq!(Width::W8.wider(Width::W32), Width::W32);
}

#[test]
fn registers_are_numbered_as_the_processor_numbers_them() {
    let names: Vec<&str> = GPRS.iter().map(|r| r.name()).collect();
    assert_eq!(
        names,
        vec![
            "rax", "rcx", "rdx", "rbx", "rsp", "rbp", "rsi", "rdi", "r8", "r9", "r10", "r11",
            "r12", "r13", "r14", "r15"
        ]
    );
    for (i, r) in GPRS.iter().enumerate() {
        assert_eq!(r.number() as usize, i);
    }
}

#[test]
fn constants_fold_at_their_width() {
    assert_eq!(fold_bin(BinOp::Add, 0xff, 1, Width::W8), Some(0));
    assert_eq!(fold_bin(BinOp::Sub, 0, 1, Width::W16), Some(0xffff));
    assert_eq!(fold_bin(BinOp::Mul, 0x1_0000, 0x1_0000, Width::W32), Some(0));
    assert_eq!(fold_bin(BinOp::MulHiU, 0x1_0000, 0x1_0000, Width::W32), Some(1));
    assert_eq!(fold_bin(BinOp::MulHiS, u64::MAX, 2, Width::W64), Some(u64::MAX));
    assert_eq!(fold_bin(BinOp::Shl, 1, 33, Width::W32), Some(2));
    assert_eq!(fold_bin(BinOp::Sar, 0x80, 3, Width::W8), Some(0xf0));
    assert_eq!(fold_bin(BinOp::Rol, 0x81, 1, Width::W8), Some(0x03));
    assert_eq!(fold_bin(BinOp::Ror, 0x81, 1, Width::W8), Some(0xc0));
    assert_eq!(fold_bin(BinOp::UDiv, 100, 7, Width::W64), Some(14));
    assert_eq!(fold_bin(BinOp::URem, 100, 7, Width::W64), Some(2));
    assert_eq!(fold_bin(BinOp::SDiv, 0xf9, 2, Width::W8), Some(0xfd));
    assert_eq!(fold_bin(BinOp::SRem, 0xf9, 2, Width::W8), Some(0xff));
    assert_eq!(fold_bin(BinOp::Ult, 1, 2, Width::W8), Some(1));
    assert_eq!(fold_bin(BinOp::Slt, 0xff, 0, Width::W8), Some(1));
    assert_eq!(fold_bin(BinOp::Eq, 0x1ff, 0xff, Width::W8), Some(1));
    for op in [BinOp::UDiv, BinOp::URem, BinOp::SDiv, BinOp::SRem] {
        assert_eq!(fold_bin(op, 1, 0, Width::W32), None);
    }
}

#[test]
fn the_small_helpers_give_known_values() {
    assert_eq!(sign_extend(0x80, Width::W8), 0xffff_ffff_ffff_ff80);
    assert_eq!(sign_extend(0x7f, Width::W8), 0x7f);
    assert_eq!(sign_extend(0x8000_0000, Width::W32), 0xffff_ffff_8000_0000);
    assert_eq!(bswap(0x1122_3344, Width::W32), 0x4433_2211);
    assert_eq!(bswap(0x1122_3344_5566_7788, Width::W64), 0x8877_6655_4433_2211);
    assert_eq!((parity_byte(3), parity_byte(7), parity_byte(0x100)), (1, 0, 1));
    assert_eq!((shift_count(65, Width::W64), shift_count(33, Width::W8)), (1, 1));
    assert_eq!(mask_of_low_bits(12), 0xfff);
    assert_eq!(mask_of_low_bits(64), u64::MAX);
    assert_eq!(low_zero_run(0b1011), 0b11);
}

#[test]
fn the_hash_is_fnv1a() {
    let mut h = FNV1A_OFFSET_BASIS;
    mix_bytes(b"foobar", &mut h);
    assert_eq!(h, 0x8594_4171_f739_67e8);
    let mut h = FNV1A_OFFSET_BASIS;
    mix_bytes(b"", &mut h);
    assert_eq!(h, FNV1A_OFFSET_BASIS);
    // A word is hashed as its bytes, lowest first.
    let (mut a, mut b) = (FNV1A_OFFSET_BASIS, FNV1A_OFFSET_BASIS);
    mix_u64(0x0807_0605_0403_0201, &mut a);
    mix_bytes(&[1, 2, 3, 4, 5, 6, 7, 8], &mut b);
    assert_eq!(a, b);
    // In two parts or at once.
    let mut c = FNV1A_OFFSET_BASIS;
    mix_bytes(&[1, 2, 3], &mut c);
    mix_bytes(&[4, 5, 6, 7, 8], &mut c);
    assert_eq!(b, c);
}

#[test]
fn expressions_are_written_out() {
    let mut a = Arena::new();
    let rax = a.init_reg(Reg::Rax);
    let k = a.constant(0x10, Width::W64);
    let sum = a.bin(BinOp::Add, rax, k);
    let text = render(&a, sum, 8);
    assert!(text == "(rax + 0x10)" || text == "(0x10 + rax)", "{text}");
    let ld = a.load(rax, Width::W32);
    assert_eq!(render(&a, ld, 8), "load32[rax]");
    let z = a.zext(ld, Width::W64);
    assert_eq!(render(&a, z, 8), "zext64(load32[rax])");
    assert_eq!(render(&a, z, 1), "zext64(load32[...])");
    let n = a.un(UnOp::Not, rax);
    assert_eq!(render(&a, n, 8), "~rax");
    let p = a.param(BlockRef(3), Reg::Rbx);
    assert_eq!(render(&a, p, 8), "b3.rbx");
    let o = a.opaque("rdtsc", Width::W64);
    assert!(render(&a, o, 8).starts_with("rdtsc#"));
    assert_eq!(BlockRef(12).text(), "b12");
}

#[test]
fn equal_computations_share_a_node() {
    let mut a = Arena::new();
    let rax = a.init_reg(Reg::Rax);
    let rbx = a.init_reg(Reg::Rbx);
    let x = a.bin(BinOp::Mul, rax, rbx);
    let n = a.len();
    let y = a.bin(BinOp::Mul, rbx, rax);
    assert_eq!(x, y);
    assert_eq!(a.len(), n);
    assert_eq!(a.init_reg(Reg::Rax), rax);
}

#[test]
fn constants_fold_through_the_constructors() {
    let mut a = Arena::new();
    let x = a.constant(0xff, Width::W8);
    assert_eq!(a.as_const(x), Some(0xff));
    let wide = a.constant(0x1ff, Width::W8);
    assert_eq!(a.as_const(wide), Some(0xff));
    let z = a.zext(x, Width::W64);
    assert_eq!(a.as_const(z), Some(0xff));
    let s = a.sext(x, Width::W64);
    assert_eq!(a.as_const(s), Some(u64::MAX));
    let t = a.trunc(s, Width::W16);
    assert_eq!(a.as_const(t), Some(0xffff));
    let n = a.not(x);
    assert_eq!(a.as_const(n), Some(0));
    let m = a.neg(x);
    assert_eq!(a.as_const(m), Some(1));
    let r = a.init_reg(Reg::Rax);
    let same = a.bin(BinOp::Xor, r, r);
    assert_eq!(a.as_const(same), Some(0));
    let one = a.constant(1, Width::W8);
    let picked = a.select(one, r, same);
    assert_eq!(picked, r);
    assert!(matches!(a.op(r), Op::InitReg(Reg::Rax)));
}

#[test]
fn leaves_are_the_inputs() {
    let mut a = Arena::new();
    let rax = a.init_reg(Reg::Rax);
    let rbx = a.init_reg(Reg::Rbx);
    let ld = a.load(rbx, Width::W64);
    let e = a.bin(BinOp::Add, rax, ld);
    let found = leaves(&a, e);
    assert!(found.contains(&rax));
    assert!(is_guest_rooted(&a, e));
    let k = a.constant(4, Width::W64);
    assert!(!is_guest_rooted(&a, k));
}

#[test]
fn numbers_are_read_in_both_bases() {
    assert_eq!(parse_u64("0x1400a8654"), Ok(0x1_400a_8654));
    assert_eq!(parse_u64(" 0XfF\t"), Ok(0xff));
    assert_eq!(parse_u64("42"), Ok(42));
    assert_eq!(parse_u64("+7"), Ok(7));
    assert_eq!(parse_u64("0x+7"), Ok(7));
    assert_eq!(parse_u64("000"), Ok(0));
    assert_eq!(parse_u64("\u{2003}9\u{3000}"), Ok(9));
    assert_eq!(parse_u64("18446744073709551615"), Ok(u64::MAX));
    assert_eq!(parse_u64("0xffffffffffffffff"), Ok(u64::MAX));
}

#[test]
fn bad_numbers_are_refused_with_their_reason() {
    let empty = "cannot parse integer from empty string".to_string();
    let digit = "invalid digit found in string".to_string();
    let large = "number too large to fit in target type".to_string();
    assert_eq!(parse_u64(""), Err(empty.clone()));
    assert_eq!(parse_u64("  "), Err(empty.clone()));
    assert_eq!(parse_u64("0x"), Err(empty));
    assert_eq!(parse_u64("-1"), Err(digit.clone()));
    assert_eq!(parse_u64("+"), Err(digit.clone()));
    assert_eq!(parse_u64("ff"), Err(digit.clone()));
    assert_eq!(parse_u64("0xfg"), Err(digit));
    assert_eq!(parse_u64("18446744073709551616"), Err(large.clone()));
    // The first digit that cannot be taken decides.
    assert_eq!(parse_u64("0x10000000000000000z"), Err(large));
}

#[test]
fn numbers_are_read_as_the_standard_library_reads_them() {
    for t in ["0", "7", "+12", "-3", "", "+", "-", "12x", "99999999999999999999", "00012", "1_0"] {
        let want = t.parse::<u64>().map_err(|e| e.to_string());
        assert_eq!(parse_u64(t), want, "{t}");
        let hex = format!("0x{t}");
        let want = u64::from_str_radix(t, 16).map_err(|e| e.to_string());
        assert_eq!(parse_u64(&hex), want, "{hex}");
    }
}

#[test]
fn what_changes_nothing_is_dropped() {
    let mut a = Arena::new();
    let x = a.init_reg(Reg::Rax);
    let zero = a.constant(0, Width::W64);
    let one = a.constant(1, Width::W64);
    for op in [
        BinOp::Add,
        BinOp::Sub,
        BinOp::Shl,
        BinOp::Shr,
        BinOp::Sar,
        BinOp::Rol,
        BinOp::Ror,
    ] {
        assert_eq!(a.bin(op, x, zero), x, "{op:?}");
    }
    assert_eq!(a.bin(BinOp::Add, zero, x), x);
    assert_eq!(a.bin(BinOp::Mul, x, one), x);
    assert_eq!(a.bin(BinOp::Mul, one, x), x);
    let n = a.neg(x);
    assert_eq!(a.neg(n), x);
    let n = a.not(x);
    assert_eq!(a.not(n), x);
}
