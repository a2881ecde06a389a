//! Behaviour of the expression arena: simplification, bit facts, grafting and hashing.

use std::collections::HashMap;
use tvm_devirt::ir::expr::{Arena, BlockRef, Op, Ref};
use tvm_devirt::ir::fold::{bswap, fold_bin, sign_extend};
use tvm_devirt::ir::shape::render;
use tvm_devirt::ir::value::{BinOp, Reg, UnOp, Width, GPRS};

/// Bit positions the VM uses, and which input supplies each.
const PLACED: [(bool, u64); 4] = [(true, 2), (false, 4), (true, 6), (false, 7)];

/// The same thing computed from the raw inputs.
type Model = Box<dyn Fn(u64, u64) -> u64>;

fn sym(a: &mut Arena, name: Reg) -> Ref {
    a.init_reg(name)
}

/// Nodes are hash-consed, so a load must carry the memory generation to
/// distinguish loads separated by a write.
#[test]
fn a_load_after_a_write_is_not_the_load_before_it() {
    let mut a = Arena::new();
    let addr = sym(&mut a, Reg::Rsp);

    let before = a.load(addr, Width::W8);
    // Same generation: still one node, so CSE keeps working.
    assert_eq!(before, a.load(addr, Width::W8));

    a.bump_mem_gen();
    let after = a.load(addr, Width::W8);

    assert_ne!(
        before, after,
        "a load after a write interned to one taken before it"
    );
}

/// Rebuilding an existing load must keep its generation. `graft` and
/// `substitute` go through `load_at` for this reason: stamping the current
/// generation would merge loads the source arena kept apart.
#[test]
fn rebuilding_a_load_preserves_its_generation() {
    let mut a = Arena::new();
    let addr = sym(&mut a, Reg::Rsp);

    let first = a.load(addr, Width::W8);
    let gen_of_first = a.mem_gen();
    a.bump_mem_gen();
    let second = a.load(addr, Width::W8);
    assert_ne!(first, second);

    // At the recorded generation: recovers the original node.
    assert_eq!(a.load_at(addr, Width::W8, gen_of_first), first);
    // At the current one: the later node, not the earlier.
    let now = a.mem_gen();
    assert_eq!(a.load_at(addr, Width::W8, now), second);
}

/// The generation is arena-local, so hashing it would make two structurally
/// identical program points reached by different paths hash differently and
/// defeat the state matching that consumes this.
#[test]
fn the_structural_hash_ignores_the_generation() {
    let mut a = Arena::new();
    let addr = sym(&mut a, Reg::Rsp);
    let first = a.load(addr, Width::W8);
    a.bump_mem_gen();
    let second = a.load(addr, Width::W8);

    assert_ne!(first, second);
    assert_eq!(a.structural_hash(first, 8), a.structural_hash(second, 8));
}

#[test]
fn mba_or_and_add() {
    // (A|B) + (A&B) == A + B
    let mut a = Arena::new();
    let (x, y) = (sym(&mut a, Reg::Rax), sym(&mut a, Reg::Rbx));
    let or = a.bin(BinOp::Or, x, y);
    let and = a.bin(BinOp::And, x, y);
    let got = a.bin(BinOp::Add, or, and);
    let want = a.bin(BinOp::Add, x, y);
    assert_eq!(got, want);
}

#[test]
fn mba_xor_and_or() {
    // (A^B) + (A&B) == A | B
    let mut a = Arena::new();
    let (x, y) = (sym(&mut a, Reg::Rax), sym(&mut a, Reg::Rbx));
    let xor = a.bin(BinOp::Xor, x, y);
    let and = a.bin(BinOp::And, x, y);
    let got = a.bin(BinOp::Add, xor, and);
    let want = a.bin(BinOp::Or, x, y);
    assert_eq!(got, want);
}

#[test]
fn mba_or_sub_and_is_xor() {
    // (A|B) - (A&B) == A ^ B
    let mut a = Arena::new();
    let (x, y) = (sym(&mut a, Reg::Rax), sym(&mut a, Reg::Rbx));
    let or = a.bin(BinOp::Or, x, y);
    let and = a.bin(BinOp::And, x, y);
    let got = a.bin(BinOp::Sub, or, and);
    let want = a.bin(BinOp::Xor, x, y);
    assert_eq!(got, want);
}

#[test]
fn mba_demorgan_to_and() {
    // ~((~A ^ ~B) | ~A) == A & B
    //
    // ~A ^ ~B folds to A ^ B, so this reduces to ~((A^B) | ~A).
    let mut a = Arena::new();
    let (x, y) = (sym(&mut a, Reg::Rax), sym(&mut a, Reg::Rbx));
    let nx = a.not(x);
    let ny = a.not(y);
    let xor = a.bin(BinOp::Xor, nx, ny);
    let or = a.bin(BinOp::Or, xor, nx);
    let got = a.not(or);
    // Verify semantically over a sample of inputs rather than structurally,
    // since the rule chain may land on a different but equal form.
    let want = a.bin(BinOp::And, x, y);
    assert!(equal_on_samples(&a, got, want));
}

#[test]
fn or_drops_operand_already_covered() {
    // (~A & c) | (A | c) == A | c
    //
    // Every bit the left side can contribute is inside c, and c is already known
    // set on the right, so the left side is redundant.
    let mut a = Arena::default();
    let x = a.init_reg(Reg::Rdx);
    let c = a.constant(0x30, Width::W64);
    let nx = a.un(UnOp::Not, x);
    let lhs = a.bin(BinOp::And, nx, c);
    let rhs = a.bin(BinOp::Or, x, c);
    let got = a.bin(BinOp::Or, lhs, rhs);
    assert_eq!(got, rhs, "got {}", render(&a, got, 8));
}

#[test]
fn and_xor_or_identity() {
    // (A&B) ^ (A|B) == A ^ B
    let mut a = Arena::default();
    let x = a.init_reg(Reg::Rcx);
    let c = a.constant(0x80, Width::W64);
    let and = a.bin(BinOp::And, x, c);
    let or = a.bin(BinOp::Or, x, c);
    let got = a.bin(BinOp::Xor, and, or);
    let want = a.bin(BinOp::Xor, x, c);
    assert_eq!(got, want, "got {}", render(&a, got, 8));
}

#[test]
fn xor_const_or_const_collapses() {
    // (A ^ c) | c == A | c
    let mut a = Arena::default();
    let x = a.init_reg(Reg::Rcx);
    let c = a.constant(0xe0, Width::W64);
    let xo = a.bin(BinOp::Xor, x, c);
    let got = a.bin(BinOp::Or, xo, c);
    let want = a.bin(BinOp::Or, x, c);
    assert_eq!(got, want, "got {}", render(&a, got, 8));
}

#[test]
fn xor_with_own_or_is_masked_complement() {
    // A ^ (A | B) == ~A & B
    let mut a = Arena::default();
    let x = a.init_reg(Reg::Rcx);
    let c = a.constant(0xe0, Width::W64);
    let or = a.bin(BinOp::Or, x, c);
    let got = a.bin(BinOp::Xor, x, or);
    let nx = a.un(UnOp::Not, x);
    let want = a.bin(BinOp::And, nx, c);
    assert_eq!(got, want, "got {}", render(&a, got, 8));
}

#[test]
fn or_absorbs_through_nested_or() {
    // A | ((A & k) | c) == A | c
    let mut a = Arena::default();
    let x = a.init_reg(Reg::Rcx);
    let k = a.constant(0xffff_ffff_ffff_ff0f, Width::W64);
    let c = a.constant(0xf0, Width::W64);
    let inner = a.bin(BinOp::And, x, k);
    let nested = a.bin(BinOp::Or, inner, c);
    let got = a.bin(BinOp::Or, x, nested);
    let want = a.bin(BinOp::Or, x, c);
    assert_eq!(got, want, "got {}", render(&a, got, 8));
}

#[test]
fn and_keeps_only_known_one_bits() {
    // (A | c) & c == c, because c's bits are all known set.
    let mut a = Arena::default();
    let x = a.init_reg(Reg::Rcx);
    let c = a.constant(0xf0, Width::W64);
    let or = a.bin(BinOp::Or, x, c);
    let got = a.bin(BinOp::And, or, c);
    assert_eq!(a.as_const(got), Some(0xf0), "got {}", render(&a, got, 8));
}

fn mask_of(a: &mut Arena, x: Ref, c: u64) -> Ref {
    // x & c, written the way the obfuscator does: x - (x & (x ^ (x & c)))
    let kc = a.constant(c, Width::W64);
    let inner = a.bin(BinOp::And, x, kc);
    let cleared = a.bin(BinOp::Xor, x, inner);
    let anded = a.bin(BinOp::And, x, cleared);
    a.bin(BinOp::Sub, x, anded)
}

#[test]
fn sub_of_and_complement_is_mask() {
    // x - (x & (x ^ (x & c))) == x & c `x ^ (x & c)` clears exactly c's bits from x, so the AND with x gives x & ~c, and subtracting that from x leaves x & c.
    let mut a = Arena::default();
    let x = a.init_reg(Reg::Rcx);
    let got = mask_of(&mut a, x, 0x70);
    let kc = a.constant(0x70, Width::W64);
    let want = a.bin(BinOp::And, x, kc);
    assert_eq!(got, want, "got {}", render(&a, got, 8));
}

#[test]
fn demorgan_not_or_not() {
    // ~((~v) | c) == v & ~c
    let mut a = Arena::default();
    let v = a.init_reg(Reg::Rcx);
    let nv = a.un(UnOp::Not, v);
    let kc = a.constant(0xffff_ffff_ffff_ff8f, Width::W64);
    let ored = a.bin(BinOp::Or, nv, kc);
    let got = a.un(UnOp::Not, ored);
    let k2 = a.constant(0x70, Width::W64);
    let want = a.bin(BinOp::And, v, k2);
    assert_eq!(got, want, "got {}", render(&a, got, 8));
}

#[test]
fn xor_cancels_through_xor_const() {
    // u ^ (u ^ c) == c
    let mut a = Arena::default();
    let u = a.init_reg(Reg::Rcx);
    let kc = a.constant(0x70, Width::W64);
    let inner = a.bin(BinOp::Xor, u, kc);
    let got = a.bin(BinOp::Xor, u, inner);
    assert_eq!(a.as_const(got), Some(0x70), "got {}", render(&a, got, 8));
}

#[test]
fn params_are_distinct_per_block_and_register() {
    let mut a = Arena::default();
    let b0 = BlockRef(0);
    let b1 = BlockRef(1);
    // Same register in two blocks must not be CSE'd: they are different
    // values, and conflating them would merge unrelated paths.
    assert_ne!(a.param(b0, Reg::Rax), a.param(b1, Reg::Rax));
    // Different registers in one block are likewise distinct.
    assert_ne!(a.param(b0, Reg::Rax), a.param(b0, Reg::Rcx));
    // But the same (block, register) is one value, so uses share it.
    assert_eq!(a.param(b0, Reg::Rax), a.param(b0, Reg::Rax));
}

#[test]
fn params_survive_grafting_unchanged() {
    // Grafting must preserve parameter identity exactly. Unlike `Opaque`,
    // which is renumbered to avoid collisions, (block, register) *is* the
    // identity: renumbering would break the link between a block's
    // expressions and its phis.
    let mut src = Arena::default();
    let p = src.param(BlockRef(3), Reg::R12);
    let eight = src.constant(8, Width::W64);
    let e = src.bin(BinOp::Add, p, eight);

    let mut dst = Arena::default();
    let mut memo = HashMap::new();
    let out = dst.graft(&src, e, &mut memo);
    let expect_p = dst.param(BlockRef(3), Reg::R12);
    let dst_eight = dst.constant(8, Width::W64);
    let expect = dst.bin(BinOp::Add, expect_p, dst_eight);
    assert_eq!(out, expect);
}

#[test]
fn rewrite_substitutes_and_resimplifies() {
    let mut a = Arena::default();
    let p = a.param(BlockRef(0), Reg::Rsp);
    // (rsp - 8) + 8, which does not fold while rsp is opaque.
    let eight = a.constant(8, Width::W64);
    let lo = a.bin(BinOp::Sub, p, eight);
    let e = a.bin(BinOp::Add, lo, eight);
    assert_eq!(a.as_const(e), None);

    // Resolving the parameter to a constant must fold the whole expression,
    // which is the point of rebuilding through the constructors rather than
    // copying structurally. This is the trivial-phi case for guest RSP.
    let mut map = HashMap::new();
    let base = a.constant(0x7fff_fffe_fda0, Width::W64);
    map.insert(p.idx, base);
    let out = a.rewrite(e, &map);
    assert_eq!(a.as_const(out), Some(0x7fff_fffe_fda0));
}

#[test]
fn graft_preserves_semantics_and_sharing() {
    // Build an expression in one arena, with a deliberately shared subterm.
    let mut src = Arena::default();
    let rax = src.init_reg(Reg::Rax);
    let rbx = src.init_reg(Reg::Rbx);
    let shared = src.bin(BinOp::Xor, rax, rbx);
    let addr = src.bin(BinOp::Add, shared, rax);
    let loaded = src.load(addr, Width::W32);
    let widened = src.zext(loaded, Width::W64);
    let root = src.bin(BinOp::Or, widened, shared);
    let tsc = src.opaque("rdtsc", Width::W64);
    let with_tsc = src.bin(BinOp::Add, root, tsc);

    let mut dst = Arena::default();
    let mut memo = HashMap::new();
    let g_root = dst.graft(&src, root, &mut memo);
    let g_shared = dst.graft(&src, shared, &mut memo);
    let g_again = dst.graft(&src, root, &mut memo);

    // Sharing survives: the second graft of the same node is the same node,
    // and the shared subterm is not duplicated.
    assert_eq!(g_root, g_again);
    assert_eq!(dst.width(g_root), src.width(root));
    assert_eq!(dst.width(g_shared), src.width(shared));

    // Semantics survive, checked by evaluating in each arena under the same
    // environment. `Load` evaluates as a function of its address in `eval`,
    // so this covers the load and the zext too.
    let mut seed = 0x2545F4914F6CDD1Du64;
    for _ in 0..64 {
        let mut env = HashMap::new();
        for reg in GPRS {
            seed ^= seed << 13;
            seed ^= seed >> 7;
            seed ^= seed << 17;
            env.insert(reg, seed);
        }
        assert_eq!(eval(&src, root, &env), eval(&dst, g_root, &env));
    }

    // Opaque nodes are given fresh identities rather than copied, so two
    // distinct opaques must stay distinct after grafting.
    let tsc2 = src.opaque("rdtsc", Width::W64);
    assert_ne!(tsc, tsc2);
    let g_tsc = dst.graft(&src, with_tsc, &mut memo);
    let g_tsc2 = dst.graft(&src, tsc2, &mut memo);
    assert_ne!(g_tsc, g_tsc2);
}

/// A shared `undef` stays shared across grafts; a counted `opaque` does not. The complement of the last assertion in `graft_preserves_semantics_and_sharing`. Fresh memos each time, because a shared memo would preserve sharing on its own and hide a regression here.
#[test]
fn graft_keeps_a_shared_undef_shared() {
    let mut src = Arena::new();
    let mut dst = Arena::new();

    let u = src.undef("af_undef", Width::W8);
    assert_eq!(
        u,
        src.undef("af_undef", Width::W8),
        "undef must share within an arena"
    );

    let g1 = dst.graft(&src, u, &mut HashMap::new());
    let g2 = dst.graft(&src, u, &mut HashMap::new());
    assert_eq!(
        g1, g2,
        "a shared undef must survive separate grafts as one node"
    );

    // A counted opaque behaves the opposite way, for the same reason.
    let o = src.opaque("rdtsc", Width::W64);
    let h1 = dst.graft(&src, o, &mut HashMap::new());
    let h2 = dst.graft(&src, o, &mut HashMap::new());
    assert_ne!(h1, h2, "a counted opaque must be reissued per graft");
}

/// Brute-force semantic check of two expressions over random assignments to
/// their `InitReg` leaves. Used to validate rewrite rules.
fn equal_on_samples(a: &Arena, p: Ref, q: Ref) -> bool {
    let mut seed = 0x243F6A8885A308D3u64;
    for _ in 0..64 {
        let mut env = HashMap::new();
        let mut next = || {
            seed ^= seed << 13;
            seed ^= seed >> 7;
            seed ^= seed << 17;
            seed
        };
        for r in GPRS {
            env.insert(r, next());
        }
        if eval(a, p, &env) != eval(a, q, &env) {
            return false;
        }
    }
    true
}

/// Union of all bits ever observed set in `r` over random assignments.
/// Any bit `known_zero` claims must be absent from this set.
fn observed_ones(a: &Arena, r: Ref) -> u64 {
    let mut seed = 0x9E3779B97F4A7C15u64;
    let mut acc = 0u64;
    for _ in 0..512 {
        let mut env = HashMap::new();
        for reg in GPRS {
            seed ^= seed << 13;
            seed ^= seed >> 7;
            seed ^= seed << 17;
            env.insert(reg, seed);
        }
        acc |= eval(a, r, &env);
    }
    // Also probe the all-ones and all-zeros corners.
    for fill in [0u64, u64::MAX] {
        let env: HashMap<Reg, u64> = GPRS.iter().map(|&g| (g, fill)).collect();
        acc |= eval(a, r, &env);
    }
    acc
}

fn eval(a: &Arena, r: Ref, env: &HashMap<Reg, u64>) -> u64 {
    let w = a.width(r);
    let v = match a.op(r) {
        Op::Const(c) => *c,
        Op::InitReg(reg) => env[reg],
        Op::Un(UnOp::Not, x) => !eval(a, *x, env),
        Op::Un(UnOp::Neg, x) => eval(a, *x, env).wrapping_neg(),
        Op::Un(UnOp::Bswap, x) => bswap(eval(a, *x, env), w),
        Op::Un(UnOp::ParityByte, x) => ((eval(a, *x, env) as u8).count_ones() % 2 == 0) as u64,
        Op::Bin(o, x, y) => fold_bin(
            *o,
            eval(a, *x, env),
            eval(a, *y, env),
            a.width(*x).wider(a.width(*y)),
        )
        .unwrap_or(0),
        Op::Zext(x) => eval(a, *x, env) & a.width(*x).mask(),
        Op::Sext(x) => sign_extend(eval(a, *x, env), a.width(*x)),
        Op::Trunc(x) => eval(a, *x, env) & w.mask(),
        Op::Select(c, x, y) => {
            if eval(a, *c, env) != 0 {
                eval(a, *x, env)
            } else {
                eval(a, *y, env)
            }
        }
        // Not modelled by the sampling evaluator: these are the opaque
        // inputs of an expression, and the simplification rules under test
        // must hold for any value they take.
        Op::Load(..) | Op::Opaque(..) | Op::Param(..) => 0,
    };
    v & w.mask()
}

/// `known_zero` must never claim a bit is zero when some assignment makes
/// it one. Unsound bit facts would silently corrupt folded addresses, so
/// this is checked against brute-force evaluation.
#[test]
fn known_zero_is_sound() {
    let mut a = Arena::new();
    let x = a.init_reg(Reg::Rax);
    let y = a.init_reg(Reg::Rbx);

    let mut probes = Vec::new();
    let m1 = a.constant(0xffff_ffff_ffff_0000, Width::W64);
    let hi = a.bin(BinOp::And, x, m1);
    let t = a.trunc(y, Width::W16);
    let z = a.zext(t, Width::W64);
    probes.push(a.bin(BinOp::Or, hi, z));
    let sh = a.constant(8, Width::W64);
    probes.push(a.bin(BinOp::Shl, x, sh));
    probes.push(a.bin(BinOp::Shr, x, sh));
    let m2 = a.constant(0xff00, Width::W64);
    let am = a.bin(BinOp::And, x, m2);
    let bm = a.bin(BinOp::And, y, m2);
    probes.push(a.bin(BinOp::Add, am, bm));
    probes.push(a.bin(BinOp::Mul, am, bm));
    probes.push(a.bin(BinOp::Xor, am, bm));
    probes.push(a.trunc(x, Width::W8));

    for p in probes {
        let kz = a.known_zero(p);
        let observed = observed_ones(&a, p);
        assert_eq!(
            observed & kz,
            0,
            "unsound known_zero for {:?}: claimed zero {:#x}, observed ones {:#x}",
            a.op(p),
            kz,
            observed
        );
    }
}

/// Observed *zeros* over random assignments: bit set in the result means some
/// assignment left that bit clear.
fn observed_zeros(a: &Arena, r: Ref) -> u64 {
    let mut seed = 0x2545F4914F6CDD1Du64;
    let mut acc = 0u64;
    for _ in 0..512 {
        let mut env = HashMap::new();
        for reg in GPRS {
            seed ^= seed << 13;
            seed ^= seed >> 7;
            seed ^= seed << 17;
            env.insert(reg, seed);
        }
        acc |= !eval(a, r, &env);
    }
    acc
}

/// The structural hash must agree with structural equality: equal shapes hash equal even when built in different arenas, and different shapes separate. The first property is the one recovery depends on.
#[test]
fn structural_hash_is_stable_across_arenas() {
    // Build the same expression in two arenas, in a different order and with
    // unrelated padding, so the Refs cannot coincide.
    let build = |pad: usize| {
        let mut a = Arena::default();
        for i in 0..pad {
            let _ = a.constant(0xdead_0000 + i as u64, Width::W64);
        }
        let rcx = a.init_reg(Reg::Rcx);
        let k = a.constant(0x1e22_c984_c352_8bb6, Width::W64);
        let t = a.bin(BinOp::Xor, rcx, k);
        let l = a.load(t, Width::W64);
        let e = a.bin(BinOp::Add, l, k);
        (a, e)
    };
    let (a1, e1) = build(0);
    let (a2, e2) = build(37);
    assert_ne!(
        e1.idx, e2.idx,
        "the two arenas must not hand out the same index"
    );
    assert_eq!(
        a1.structural_hash(e1, 12),
        a2.structural_hash(e2, 12),
        "the same shape must hash the same in any arena"
    );

    // Distinct shapes must separate: a different operator, a different operand,
    // a different register, and a different constant.
    let mut a = Arena::default();
    let rcx = a.init_reg(Reg::Rcx);
    let rdx = a.init_reg(Reg::Rdx);
    let k1 = a.constant(7, Width::W64);
    let k2 = a.constant(8, Width::W64);
    let variants = vec![
        a.bin(BinOp::Add, rcx, k1),
        a.bin(BinOp::Sub, rcx, k1),
        a.bin(BinOp::Add, rdx, k1),
        a.bin(BinOp::Add, rcx, k2),
        rcx,
        rdx,
    ];
    let mut seen = HashMap::new();
    for (i, v) in variants.iter().enumerate() {
        let h = a.structural_hash(*v, 12);
        if let Some(j) = seen.insert(h, i) {
            panic!("variants {j} and {i} collided");
        }
    }

    // Commutative operands are canonicalized by `bin`, so the two orders are
    // literally the same node and must hash alike. Asserting it here records
    // that the equal hash is canonicalization rather than a collision.
    let ab = a.bin(BinOp::Add, rcx, k1);
    let ba = a.bin(BinOp::Add, k1, rcx);
    assert_eq!(ab, ba, "commutative operands are canonicalized");
    assert_eq!(a.structural_hash(ab, 12), a.structural_hash(ba, 12));

    // Truncation must collapse, never split: hashing the same value at the same
    // depth twice has to agree, however deep the value is.
    let mut deep = a.init_reg(Reg::Rax);
    for i in 0..40u64 {
        let c = a.constant(i, Width::W64);
        deep = a.bin(BinOp::Add, deep, c);
    }
    assert_eq!(a.structural_hash(deep, 4), a.structural_hash(deep, 4));
}

/// `known_one` must never claim a bit is set when some assignment leaves it clear. Checked by brute force for the same reason as `known_zero`: an unsound bit fact silently corrupts folded addresses, and this analysis is what licenses replacing a whole subtree with a constant.
#[test]
fn known_one_is_sound() {
    let mut a = Arena::new();
    let x = a.init_reg(Reg::Rax);
    let y = a.init_reg(Reg::Rbx);

    let mut probes = Vec::new();
    let c70 = a.constant(0x70, Width::W64);
    let cff = a.constant(0xff00, Width::W64);
    probes.push(c70);
    // ~x: a bit that is not known to be zero is not thereby known to be one.
    let nx = a.un(UnOp::Not, x);
    probes.push(nx);
    probes.push(a.bin(BinOp::And, nx, c70));
    probes.push(a.bin(BinOp::Or, x, c70));
    probes.push(a.bin(BinOp::And, x, c70));
    probes.push(a.bin(BinOp::Xor, x, c70));
    let ax = a.bin(BinOp::And, x, c70);
    let ay = a.bin(BinOp::And, y, cff);
    probes.push(a.bin(BinOp::Xor, ax, ay));
    probes.push(a.bin(BinOp::Or, ax, ay));
    let sh = a.constant(8, Width::W64);
    probes.push(a.bin(BinOp::Shl, c70, sh));
    probes.push(a.bin(BinOp::Shr, cff, sh));
    probes.push(a.trunc(cff, Width::W8));
    let t16 = a.trunc(cff, Width::W16);
    probes.push(a.zext(t16, Width::W64));

    for p in probes {
        let ko = a.known_one(p);
        let zeros = observed_zeros(&a, p);
        assert_eq!(
            zeros & ko,
            0,
            "unsound known_one for {:?}: claimed one {:#x}, observed zeros {:#x}",
            a.op(p),
            ko,
            zeros
        );
    }
}

#[test]
fn vm_context_mask_idiom_folds() {
    // ((x & 0xffff_ffff_ffff_0000) | zext16(y)) & 0xffff  ==  y & 0xffff
    let mut a = Arena::new();
    let x = a.init_reg(Reg::Rax);
    let y = a.init_reg(Reg::Rbx);
    let m1 = a.constant(0xffff_ffff_ffff_0000, Width::W64);
    let hi = a.bin(BinOp::And, x, m1);
    let t = a.trunc(y, Width::W16);
    let z = a.zext(t, Width::W64);
    let or = a.bin(BinOp::Or, hi, z);
    let m2 = a.constant(0xffff, Width::W64);
    let got = a.bin(BinOp::And, or, m2);
    let want = a.bin(BinOp::And, y, m2);
    assert_eq!(got, want, "got {:?}", a.op(got));
}

#[test]
fn zext_trunc_becomes_mask() {
    let mut a = Arena::new();
    let x = a.init_reg(Reg::Rdx);
    let t = a.trunc(x, Width::W16);
    let z = a.zext(t, Width::W64);
    // expect (x & 0xffff)
    match a.op(z) {
        Op::Bin(BinOp::And, _, m) => assert_eq!(a.as_const(*m), Some(0xffff)),
        other => panic!("not a mask: {other:?}"),
    }
}

/// TVM computes `base + idx` obfuscated as `((base+idx) & idx) | (base+idx)`
/// and `((t+t) | t) & t`. Both must collapse, otherwise every table read
/// stays symbolic and dispatch stalls.
#[test]
fn obfuscated_address_forms_collapse() {
    let mut a = Arena::new();
    let base = a.constant(0x140000000, Width::W64);
    let idx = a.init_reg(Reg::R9);

    // mov rax,rdx / add rax,r9 / and rax,r9 / add rdx,r9 / or rax,rdx
    let sum = a.bin(BinOp::Add, base, idx);
    let anded = a.bin(BinOp::And, sum, idx);
    let got = a.bin(BinOp::Or, anded, sum);
    assert_eq!(
        got,
        sum,
        "((b+i)&i)|(b+i) should be b+i, got {:?}",
        a.op(got)
    );

    // lea r8,[X] / mov rdx,r8 / add rdx,r8 / or rdx,r8 / and rdx,r8
    let t = a.constant(0x14017c21e, Width::W64);
    let tt = a.bin(BinOp::Add, t, t);
    let or = a.bin(BinOp::Or, tt, t);
    let and = a.bin(BinOp::And, or, t);
    assert_eq!(a.as_const(and), Some(0x14017c21e));
}

#[test]
fn or_xor_or_absorbs() {
    let mut a = Arena::new();
    let base = a.init_reg(Reg::R10);
    let idx = a.init_reg(Reg::Rcx);
    let or1 = a.bin(BinOp::Or, base, idx);
    let x = a.bin(BinOp::Xor, or1, idx);
    let or2 = a.bin(BinOp::Or, x, base);
    assert_eq!(or2, base, "((A|B)^B)|A should be A, got {:?}", a.op(or2));
    let sum = a.bin(BinOp::Add, or2, idx);
    let want = a.bin(BinOp::Add, base, idx);
    assert_eq!(sum, want);
}

/// Same identity, verified semantically rather than structurally.
#[test]
fn or_xor_or_is_semantically_sound() {
    let mut a = Arena::new();
    let p = a.init_reg(Reg::Rax);
    let q = a.init_reg(Reg::Rbx);
    let or1 = a.bin(BinOp::Or, p, q);
    let x = a.bin(BinOp::Xor, or1, q);
    let got = a.bin(BinOp::Or, x, p);
    assert!(equal_on_samples(&a, got, p));
}

/// `(~t & X) | (t & X) == X`, for an arbitrary `t`. Every bit of `X` is selected by exactly one arm, so the pair reconstructs `X` whatever `t` is.
#[test]
fn complementary_masks_over_one_value_rebuild_it() {
    let mut a = Arena::new();
    let x = a.init_reg(Reg::Rax);
    let t = a.init_reg(Reg::Rbx);
    let nt = a.not(t);
    let lo = a.bin(BinOp::And, nt, x);
    let hi = a.bin(BinOp::And, t, x);
    let got = a.bin(BinOp::Or, lo, hi);
    assert_eq!(got, x, "got {}", render(&a, got, 12));
}

/// The identity as it actually reaches the arena: `t` is the VM's
/// `~X ^ C ^ (~X & C)` (i.e. `~X | C`), wrapping a guest pointer.
#[test]
fn the_vms_pointer_wrapper_reduces_to_the_pointer() {
    let mut a = Arena::new();
    let base = a.init_reg(Reg::Rcx);
    let x = a.load(base, Width::W64);
    let c = a.constant(0xffff_ffff_ffff_fe7f, Width::W64);
    let nx = a.not(x);
    let and = a.bin(BinOp::And, nx, c);
    let xor1 = a.bin(BinOp::Xor, nx, c);
    let t = a.bin(BinOp::Xor, xor1, and);
    let nt = a.not(t);
    let lo = a.bin(BinOp::And, nt, x);
    let hi = a.bin(BinOp::And, t, x);
    let joined = a.bin(BinOp::Or, lo, hi);
    assert!(
        equal_on_samples(&a, joined, x),
        "{} should equal {}",
        render(&a, joined, 12),
        render(&a, x, 12)
    );
    assert_eq!(joined, x, "got {}", render(&a, joined, 12));
}

/// TVM's other pointer wrapper, the one built around a displaced copy of the pointer rather than around a constant mask. ```text s   = a + 0x180 v13 = s | (a & (a ^ s)) v17 = (~a & v13) + ~v13 out = ~v17            // == a ```
#[test]
fn the_displaced_pointer_wrapper_reduces_to_the_pointer() {
    let mut a = Arena::new();
    let base = a.init_reg(Reg::Rcx);
    let p = a.load(base, Width::W64);
    let k = a.constant(0x180, Width::W64);
    let s = a.bin(BinOp::Add, p, k);
    let xor = a.bin(BinOp::Xor, p, s);
    let and = a.bin(BinOp::And, p, xor);
    let v13 = a.bin(BinOp::Or, s, and);
    let v14 = a.not(v13);
    let np = a.not(p);
    let v16 = a.bin(BinOp::And, np, v13);
    let v17 = a.bin(BinOp::Add, v16, v14);
    let got = a.not(v17);
    assert!(
        equal_on_samples(&a, got, p),
        "{} should equal {}",
        render(&a, got, 14),
        render(&a, p, 14)
    );
    assert_eq!(got, p, "got {}", render(&a, got, 14));
}
/// The two mask rules that break the RFLAGS pack/unpack round trip must agree with a value computed independently of the arena.
#[test]
fn mask_rules_match_independent_evaluation() {

    let reference = |vx: u64, vy: u64| -> u64 {
        let mut acc = 0x2u64;
        for (from_x, bit) in PLACED {
            let src = if from_x { vx } else { vy };
            acc |= ((src & 0xff) & 1) << bit;
        }
        acc
    };

    let mut a = Arena::new();
    let x = a.init_reg(Reg::Rax);
    let y = a.init_reg(Reg::Rbx);

    let mut packed = a.constant(0x2, Width::W64);
    for (from_x, bit) in PLACED {
        let t = a.trunc(if from_x { x } else { y }, Width::W8);
        let z = a.zext(t, Width::W64);
        let one = a.constant(1, Width::W64);
        let m = a.bin(BinOp::And, z, one);
        let sh = a.constant(bit, Width::W64);
        let placed = a.bin(BinOp::Shl, m, sh);
        packed = a.bin(BinOp::Or, packed, placed);
    }

    // (node, closure computing the same thing from the raw inputs)
    let mut probes: Vec<(Ref, Model)> = Vec::new();

    // Mask down to a single flag, at every position the VM uses and one it
    // does not, where the whole `Or` is dead and the result must be zero.
    for bit in [2u64, 4, 6, 7, 9] {
        let m = a.constant(1 << bit, Width::W64);
        probes.push((
            a.bin(BinOp::And, packed, m),
            Box::new(move |vx, vy| reference(vx, vy) & (1 << bit)),
        ));
    }

    // ~(packed ^ c1) & c2: covered, over-covered, and not covered, so the
    // rule has to decline on the last one.
    for (c1, c2) in [(0x80u64, 0x80u64), (0xff, 0x80), (0x40, 0x80), (0x0, 0x80)] {
        let k = a.constant(c1, Width::W64);
        let xr = a.bin(BinOp::Xor, packed, k);
        let nt = a.un(UnOp::Not, xr);
        let m = a.constant(c2, Width::W64);
        probes.push((
            a.bin(BinOp::And, nt, m),
            Box::new(move |vx, vy| !(reference(vx, vy) ^ c1) & c2),
        ));
    }

    // Masks spanning several live flags: nothing may be dropped.
    for mask in [0xd0u64, 0x54, 0xff, 0x2] {
        let m = a.constant(mask, Width::W64);
        probes.push((
            a.bin(BinOp::And, packed, m),
            Box::new(move |vx, vy| reference(vx, vy) & mask),
        ));
    }

    for &vx in &[0u64, 1, 0xff, 0x80, 0x1234_5678_9abc_def0, u64::MAX] {
        for &vy in &[0u64, 1, 0xfe, 0x8000_0000_0000_0001, u64::MAX] {
            let env: HashMap<Reg, u64> = [(Reg::Rax, vx), (Reg::Rbx, vy)].into_iter().collect();
            for (i, (node, model)) in probes.iter().enumerate() {
                assert_eq!(
                    eval(&a, *node, &env),
                    model(vx, vy),
                    "probe {i} disagrees at rax={vx:#x} rbx={vy:#x}"
                );
            }
        }
    }
}

/// The three rules that let TVM's 64-bit TSC composition fold must agree with a value computed independently of the arena.
#[test]
fn tsc_composition_rules_match_independent_evaluation() {
    let mut a = Arena::new();
    let x = a.init_reg(Reg::Rax);
    let y = a.init_reg(Reg::Rbx);
    let m32 = a.constant(0xffff_ffff, Width::W64);
    let sh = a.constant(32, Width::W64);

    // hi = (x & 0xffffffff) << 32, lo = y & 0xffffffff
    let hi = {
        let t = a.bin(BinOp::And, x, m32);
        a.bin(BinOp::Shl, t, sh)
    };
    let lo = a.bin(BinOp::And, y, m32);

    let mut probes: Vec<(Ref, Model)> = Vec::new();

    let mhi = |vx: u64| (vx & 0xffff_ffff) << 32;
    let mlo = |vy: u64| vy & 0xffff_ffff;

    // ~(hi << 32) & lo, the halves recombined by masking.
    let n = a.un(UnOp::Not, hi);
    probes.push((
        a.bin(BinOp::And, n, lo),
        Box::new(move |vx, vy| !mhi(vx) & mlo(vy)),
    ));

    // a | (a ^ b) == a | b, both operand orders.
    let xr = a.bin(BinOp::Xor, hi, lo);
    probes.push((
        a.bin(BinOp::Or, hi, xr),
        Box::new(move |vx, vy| mhi(vx) | (mhi(vx) ^ mlo(vy))),
    ));
    probes.push((
        a.bin(BinOp::Or, xr, hi),
        Box::new(move |vx, vy| (mhi(vx) ^ mlo(vy)) | mhi(vx)),
    ));

    // (a + t) - a == t, both operand orders of the Add.
    let t = a.bin(BinOp::Or, hi, lo);
    let s1 = a.bin(BinOp::Add, hi, t);
    probes.push((
        a.bin(BinOp::Sub, s1, hi),
        Box::new(move |vx, vy| {
            mhi(vx)
                .wrapping_add(mhi(vx) | mlo(vy))
                .wrapping_sub(mhi(vx))
        }),
    ));
    let s2 = a.bin(BinOp::Add, t, hi);
    probes.push((
        a.bin(BinOp::Sub, s2, hi),
        Box::new(move |vx, vy| {
            (mhi(vx) | mlo(vy))
                .wrapping_add(mhi(vx))
                .wrapping_sub(mhi(vx))
        }),
    ));

    // The full composition, which must reach exactly `hi | lo`.
    let full = {
        let inner = a.bin(BinOp::Xor, hi, lo);
        let or = a.bin(BinOp::Or, hi, inner);
        let add = a.bin(BinOp::Add, or, hi);
        a.bin(BinOp::Sub, add, hi)
    };
    probes.push((full, Box::new(move |vx, vy| mhi(vx) | mlo(vy))));

    // A subtraction that must NOT cancel: the Add operand differs.
    let s3 = a.bin(BinOp::Add, hi, lo);
    probes.push((
        a.bin(BinOp::Sub, s3, t),
        Box::new(move |vx, vy| {
            mhi(vx)
                .wrapping_add(mlo(vy))
                .wrapping_sub(mhi(vx) | mlo(vy))
        }),
    ));

    for &vx in &[0u64, 1, 0xffff_ffff, 0x8000_0000, 0x1234_5678, u64::MAX] {
        for &vy in &[0u64, 1, 0xffff_ffff, 0xdead_beef, 0x8000_0000, u64::MAX] {
            let env: HashMap<Reg, u64> = [(Reg::Rax, vx), (Reg::Rbx, vy)].into_iter().collect();
            for (i, (node, model)) in probes.iter().enumerate() {
                assert_eq!(
                    eval(&a, *node, &env),
                    model(vx, vy),
                    "probe {i} disagrees at rax={vx:#x} rbx={vy:#x}"
                );
            }
        }
    }

    // The composition must have folded to the same node as a plain `hi | lo`,
    // not merely evaluate equally: the point of the rules is that the tree
    // collapses so the VPC becomes concrete.
    assert_eq!(full, t, "TSC composition did not fold to `hi | lo`");
}

/// Masking a deeply nested Or drops every term whose bits are all outside the mask.
#[test]
fn masking_a_nested_or_chain_drops_terms_outside_the_mask() {
    let mut a = Arena::new();
    let v = a.init_reg(Reg::Rax);

    // CF: Ult result, bit 0 — inside 0x41
    let kbb8 = a.constant(0xbb8, Width::W32);
    let cf = a.bin(BinOp::Ult, v, kbb8);
    let cf64 = a.zext(cf, Width::W64);

    // PF: ParityByte result, shifted to bit 2 — outside 0x41
    let vb = a.trunc(v, Width::W8);
    let pf = a.un(UnOp::ParityByte, vb);
    let pf64 = a.zext(pf, Width::W64);
    let k2sh = a.constant(2, Width::W64);
    let pf_sh = a.bin(BinOp::Shl, pf64, k2sh);

    // AF: Eq result, shifted to bit 4 — outside 0x41
    let k10 = a.constant(0x10, Width::W32);
    let v_and_10 = a.bin(BinOp::And, v, k10);
    let af = a.bin(BinOp::Eq, v_and_10, k10);
    let af64 = a.zext(af, Width::W64);
    let k4sh = a.constant(4, Width::W64);
    let af_sh = a.bin(BinOp::Shl, af64, k4sh);

    // ZF: Eq result, shifted to bit 6 — inside 0x41
    let k0 = a.constant(0, Width::W32);
    let zf = a.bin(BinOp::Eq, v, k0);
    let zf64 = a.zext(zf, Width::W64);
    let k6sh = a.constant(6, Width::W64);
    let zf_sh = a.bin(BinOp::Shl, zf64, k6sh);

    // Constant 0x2 sits at bit 1 — outside 0x41
    let k2 = a.constant(0x2, Width::W64);

    // Build the nested pack: ZF<<6 | (AF<<4 | (PF<<2 | (0x2 | CF)))
    let p = a.bin(BinOp::Or, k2, cf64);
    let p = a.bin(BinOp::Or, pf_sh, p);
    let p = a.bin(BinOp::Or, af_sh, p);
    let packed = a.bin(BinOp::Or, zf_sh, p);

    let mask = a.constant(0x41, Width::W64);
    let result = a.bin(BinOp::And, packed, mask);

    // Expected: (ZF<<6 | CF) & 0x41  — PF, AF, and 0x2 are gone.
    let zf_or_cf = a.bin(BinOp::Or, zf_sh, cf64);
    let expected = a.bin(BinOp::And, zf_or_cf, mask);
    assert_eq!(
        result,
        expected,
        "dead flag terms (PF<<2, AF<<4, 0x2) should be stripped; \
         got: {}",
        render(&a, result, 24),
    );
}
