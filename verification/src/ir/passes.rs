//! Rewriting within one scheduled block.

use crate::ir::anchor::small_frames;
use crate::ir::fold::{bin_val, wadd};
use crate::ir::instr::{
    defines, kept, operands_read, reads, reads_value, sources, Instr, Operand, SchedBlock, ValId,
};
use crate::ir::lower::sched_ok;
use crate::ir::schedule::{
    computes, defined_in, in_sequence, in_window, inputs_defined, operand_ready, operand_value,
    reads_window, Run,
};
use crate::ir::value::{BinOp, Width};
use std::collections::HashMap;
use vstd::prelude::*;

verus! {

broadcast use vstd::std_specs::hash::group_hash_axioms;

/// A 64-bit constant read as a signed number.
pub open spec fn as_signed(c: u64) -> int {
    if c < 0x8000_0000_0000_0000 {
        c as int
    } else {
        c - 0x1_0000_0000_0000_0000
    }
}

/// The base and offset of an instruction that adds a constant to a value. A stack location
/// already is a displacement the frame layout owns.
pub open spec fn sum_of(i: Instr) -> Option<(ValId, Operand, u64)> {
    match i {
        Instr::Bin { dst, op: BinOp::Add, a, b: Operand::Imm(c), width: Width::W64, .. } => match a {
            Operand::Imm(_) => None,
            Operand::Frame(_) => None,
            _ => Some((dst, a, c)),
        },
        _ => None,
    }
}

/// What the last such instruction among the first `k` says of a value.
pub open spec fn sum_upto(instrs: Seq<Instr>, v: ValId, k: int) -> Option<(Operand, u64)>
    decreases k,
{
    if k <= 0 {
        None
    } else {
        match sum_of(instrs[k - 1]) {
            Some((dst, a, c)) => if dst == v {
                Some((a, c))
            } else {
                sum_upto(instrs, v, k - 1)
            },
            None => sum_upto(instrs, v, k - 1),
        }
    }
}

/// The address of a memory access.
pub open spec fn address_of(i: Instr) -> Option<(Operand, i64)> {
    match i {
        Instr::Load { addr, disp, .. } => Some((addr, disp)),
        Instr::Store { addr, disp, .. } => Some((addr, disp)),
        _ => None,
    }
}

/// A memory access with another address.
pub open spec fn with_address(i: Instr, addr: Operand, disp: i64) -> Instr {
    match i {
        Instr::Load { dst, width, .. } => Instr::Load { dst, addr, disp, width },
        Instr::Store { value, width, .. } => Instr::Store { addr, value, disp, width },
        _ => i,
    }
}

/// The address a memory access folds to: one that is a sum becomes base and displacement,
/// where the displacement fits the encoding.
pub open spec fn folded_address(instrs: Seq<Instr>, i: Instr) -> Option<(Operand, i64)> {
    match address_of(i) {
        Some((Operand::Val(v), disp)) => match sum_upto(instrs, v, instrs.len() as int) {
            Some((base, c)) => if -0x8000_0000 <= disp + as_signed(c) <= 0x7fff_ffff {
                Some((base, (disp + as_signed(c)) as i64))
            } else {
                None
            },
            None => None,
        },
        _ => None,
    }
}

/// An instruction with its address folded.
pub open spec fn folded(instrs: Seq<Instr>, i: Instr) -> Instr {
    match folded_address(instrs, i) {
        Some((base, disp)) => with_address(i, base, disp),
        None => i,
    }
}

/// How many of the first `k` instructions fold.
pub open spec fn folds_upto(instrs: Seq<Instr>, k: int) -> nat
    decreases k,
{
    if k <= 0 {
        0
    } else {
        folds_upto(instrs, k - 1) + if folded_address(instrs, instrs[k - 1]) is Some {
            1nat
        } else {
            0nat
        }
    }
}

fn sum_in(i: &Instr) -> (r: Option<(ValId, Operand, u64)>)
    ensures
        r == sum_of(*i),
{
    match i {
        Instr::Bin { dst, op: BinOp::Add, a, b: Operand::Imm(c), width: Width::W64, .. } => match a {
            Operand::Imm(_) => None,
            Operand::Frame(_) => None,
            _ => Some((*dst, *a, *c)),
        },
        _ => None,
    }
}

/// Every value that is a sum with a constant.
fn sums(instrs: &Vec<Instr>) -> (m: HashMap<u32, (Operand, u64)>)
    ensures
        forall|v: u32| #[trigger]
            m@.dom().contains(v) <==> sum_upto(instrs@, ValId(v), instrs@.len() as int) is Some,
        forall|v: u32| #[trigger]
            m@.dom().contains(v) ==> sum_upto(instrs@, ValId(v), instrs@.len() as int) == Some(m@[v]),
{
    let mut m: HashMap<u32, (Operand, u64)> = HashMap::new();
    let mut i: usize = 0;
    while i < instrs.len()
        invariant
            i <= instrs@.len(),
            forall|v: u32| #[trigger]
                m@.dom().contains(v) <==> sum_upto(instrs@, ValId(v), i as int) is Some,
            forall|v: u32| #[trigger]
                m@.dom().contains(v) ==> sum_upto(instrs@, ValId(v), i as int) == Some(m@[v]),
        decreases instrs@.len() - i,
    {
        let ghost m0 = m@;
        if let Some((dst, a, c)) = sum_in(&instrs[i]) {
            m.insert(dst.0, (a, c));
        }
        i = i + 1;
        proof {
            assert forall|v: u32| #[trigger]
                m@.dom().contains(v) <==> sum_upto(instrs@, ValId(v), i as int) is Some by {
                assert(m0.dom().contains(v) <==> sum_upto(instrs@, ValId(v), i - 1) is Some);
            }
        }
    }
    m
}

/// Move constant offsets into the memory operands that use them, returning how many.
pub fn fold_addressing(b: &mut SchedBlock) -> (n: usize)
    ensures
        final(b).instrs@ == Seq::new(
            old(b).instrs@.len(),
            |i: int| folded(old(b).instrs@, old(b).instrs@[i]),
        ),
        n == folds_upto(old(b).instrs@, old(b).instrs@.len() as int),
        final(b).id == old(b).id,
        final(b).exits == old(b).exits,
        final(b).callee_set == old(b).callee_set,
        final(b).control == old(b).control,
        final(b).fused == old(b).fused,
        final(b).terminator == old(b).terminator,
{
    let ghost i0 = b.instrs@;
    let m = sums(&b.instrs);
    let mut n: usize = 0;
    let mut i: usize = 0;
    while i < b.instrs.len()
        invariant
            i <= b.instrs@.len() == i0.len(),
            n == folds_upto(i0, i as int),
            n <= i,
            forall|v: u32| #[trigger]
                m@.dom().contains(v) <==> sum_upto(i0, ValId(v), i0.len() as int) is Some,
            forall|v: u32| #[trigger]
                m@.dom().contains(v) ==> sum_upto(i0, ValId(v), i0.len() as int) == Some(m@[v]),
            forall|k: int|
                0 <= k < i0.len() ==> #[trigger] b.instrs@[k] == if k < i {
                    folded(i0, i0[k])
                } else {
                    i0[k]
                },
            b.id == old(b).id,
            b.exits == old(b).exits,
            b.callee_set == old(b).callee_set,
            b.control == old(b).control,
            b.fused == old(b).fused,
            b.terminator == old(b).terminator,
        decreases b.instrs@.len() - i,
    {
        proof {
            assert(b.instrs@[i as int] == i0[i as int]);
        }
        let place = match &b.instrs[i] {
            Instr::Load { addr: Operand::Val(v), disp, .. } => Some((*v, *disp)),
            Instr::Store { addr: Operand::Val(v), disp, .. } => Some((*v, *disp)),
            _ => None,
        };
        if let Some((v, disp)) = place {
            proof {
                assert(v == ValId(v.0));
                assert(m@.dom().contains(v.0) <==> sum_upto(i0, v, i0.len() as int) is Some);
            }
            if let Some(sum) = m.get(&v.0) {
                let (base, c) = *sum;
                let off: i128 = if c < 0x8000_0000_0000_0000 {
                    c as i128
                } else {
                    c as i128 - 0x1_0000_0000_0000_0000
                };
                let total: i128 = disp as i128 + off;
                if -0x8000_0000 <= total && total <= 0x7fff_ffff {
                    let moved = match &b.instrs[i] {
                        Instr::Load { dst, width, .. } => Some(
                            Instr::Load { dst: *dst, addr: base, disp: total as i64, width: *width },
                        ),
                        Instr::Store { value, width, .. } => Some(
                            Instr::Store { addr: base, value: *value, disp: total as i64, width: *width },
                        ),
                        _ => None,
                    };
                    if let Some(x) = moved {
                        b.instrs.set(i, x);
                        n = n + 1;
                    }
                }
            }
        }
        i = i + 1;
    }
    proof {
        assert(b.instrs@ =~= Seq::new(i0.len(), |i: int| folded(i0, i0[i])));
    }
    n
}

/// The address an access computes, modulo two to the sixty-fourth.
pub open spec fn effective(o: Operand, disp: int, run: Run) -> int {
    (operand_value(o, run) + disp) % 0x1_0000_0000_0000_0000
}

proof fn lemma_sum(instrs: Seq<Instr>, v: ValId, k: int)
    requires
        0 <= k <= instrs.len(),
    ensures
        sum_upto(instrs, v, k) matches Some((a, c)) ==> exists|j: int|
            0 <= j < k && #[trigger] sum_of(instrs[j]) == Some((v, a, c)),
    decreases k,
{
    if k > 0 {
        lemma_sum(instrs, v, k - 1);
        if let Some((a, c)) = sum_upto(instrs, v, k) {
            if sum_of(instrs[k - 1]) != Some((v, a, c)) {
                let j = choose|j: int| 0 <= j < k - 1 && #[trigger] sum_of(instrs[j]) == Some((v, a, c));
                assert(sum_of(instrs[j]) == Some((v, a, c)));
            }
        }
    }
}

/// Folding an address leaves it the address it was: where the code's instructions hold, base
/// and displacement add up to what the folded value and its displacement did.
pub proof fn folding_keeps_the_address(instrs: Seq<Instr>, i: Instr, run: Run)
    requires
        forall|k: int| 0 <= k < instrs.len() ==> computes(#[trigger] instrs[k], run),
        forall|k: int|
            0 <= k < instrs.len() ==> (#[trigger] instrs[k] matches Instr::Bin { width: Width::W64, operand_width, .. }
                ==> operand_width == Width::W64 || !(sum_of(instrs[k]) is Some)),
    ensures
        match (address_of(i), address_of(folded(instrs, i))) {
            (Some((o, d)), Some((p, e))) => effective(o, d as int, run) == effective(p, e as int, run),
            (None, None) => true,
            _ => false,
        },
{
    if let Some((base, disp)) = folded_address(instrs, i) {
        let v = (address_of(i)->0).0->Val_0;
        let d = (address_of(i)->0).1;
        lemma_sum(instrs, v, instrs.len() as int);
        let c = (sum_upto(instrs, v, instrs.len() as int)->0).1;
        let j = choose|j: int| 0 <= j < instrs.len() && #[trigger] sum_of(instrs[j]) == Some((v, base, c));
        assert(computes(instrs[j], run));
        let x = operand_value(base, run);
        assert((run.vals)(v) == wadd(x, c) & 0xffff_ffff_ffff_ffff);
        assert(wadd(x, c) & 0xffff_ffff_ffff_ffff == (x + c) % 0x1_0000_0000_0000_0000) by {
            lemma_wraps(x, c);
        }
        let s: int = x + c;
        let m: int = 0x1_0000_0000_0000_0000;
        assert((s % m + d) % m == (s + d) % m) by {
            vstd::arithmetic::div_mod::lemma_add_mod_noop(s % m, d as int, m);
            vstd::arithmetic::div_mod::lemma_add_mod_noop(s, d as int, m);
            vstd::arithmetic::div_mod::lemma_mod_twice(s, m);
        }
        assert((x + disp) % m == (s + d) % m) by {
            if as_signed(c) != c {
                vstd::arithmetic::div_mod::lemma_mod_multiples_vanish(1, x + disp, m);
                assert(m * 1 + (x + disp) == s + d);
            }
        }
    }
}

proof fn lemma_wraps(x: u64, c: u64)
    by (bit_vector)
    ensures
        ((x + c) as u64) & 0xffff_ffff_ffff_ffff == (x + c) % 0x1_0000_0000_0000_0000,
{
}

/// A defined value has one definition, so what is known of it is known before it is read.
pub proof fn lemma_one_def(instrs: Seq<Instr>, v: ValId, j: int, i: int)
    requires
        in_sequence(instrs, u32::MAX),
        0 <= j < instrs.len(),
        0 <= i <= instrs.len(),
        defines(instrs[j]) == Some(v),
        defined_in(instrs, i, v),
    ensures
        j < i,
{
    let k = choose|k: int| 0 <= k < i && k < instrs.len() && defines(#[trigger] instrs[k]) == Some(v);
    if j < k {
        assert(defines(instrs[j]) == Some(v) && defines(instrs[k]) == Some(v));
    } else if k < j {
        assert(defines(instrs[k]) == Some(v) && defines(instrs[j]) == Some(v));
    }
}

/// Pointwise rewriting that keeps definitions and reads only what was defined keeps code
/// in sequence.
pub proof fn lemma_pointwise(a: Seq<Instr>, b: Seq<Instr>)
    requires
        in_sequence(a, u32::MAX),
        a.len() == b.len(),
        forall|i: int| 0 <= i < a.len() ==> defines(#[trigger] b[i]) == defines(a[i]),
        forall|i: int, v: ValId|
            0 <= i < a.len() && #[trigger] reads_value(reads(b[i]), v) ==> reads_value(reads(a[i]), v)
                || defined_in(a, i, v),
    ensures
        in_sequence(b, u32::MAX),
        forall|k: int, v: ValId| #[trigger] defined_in(b, k, v) <==> defined_in(a, k, v),
{
    assert forall|k: int, v: ValId| #[trigger] defined_in(b, k, v) <==> defined_in(a, k, v) by {
        if defined_in(a, k, v) {
            let j = choose|j: int| 0 <= j < k && j < a.len() && defines(#[trigger] a[j]) == Some(v);
            assert(defines(b[j]) == Some(v));
        }
        if defined_in(b, k, v) {
            let j = choose|j: int| 0 <= j < k && j < b.len() && defines(#[trigger] b[j]) == Some(v);
            assert(defines(a[j]) == Some(v));
        }
    }
    assert forall|i: int| 0 <= i < b.len() implies inputs_defined(b, i, #[trigger] b[i]) by {
        assert forall|v: ValId| #[trigger] reads_value(reads(b[i]), v) implies defined_in(b, i, v) by {
            if reads_value(reads(a[i]), v) {
                assert(inputs_defined(a, i, a[i]));
                assert(defined_in(a, i, v));
            }
        }
    }
    assert forall|i: int, j: int| 0 <= i < j < b.len() implies (defines(#[trigger] b[i]) matches Some(v)
        ==> (defines(#[trigger] b[j]) matches Some(w) ==> v.0 < w.0)) by {
        assert(defines(b[i]) == defines(a[i]) && defines(b[j]) == defines(a[j]));
    }
}

/// Folding addresses keeps a block in order.
pub proof fn lemma_folded_ok(b0: SchedBlock, b1: SchedBlock)
    requires
        sched_ok(b0),
        b1.instrs@ == Seq::new(b0.instrs@.len(), |i: int| folded(b0.instrs@, b0.instrs@[i])),
        b1.exits == b0.exits,
        b1.control == b0.control,
        b1.fused == b0.fused,
    ensures
        sched_ok(b1),
{
    let a = b0.instrs@;
    let b = b1.instrs@;
    assert forall|i: int| 0 <= i < a.len() implies defines(#[trigger] b[i]) == defines(a[i])
        && small_frames(b[i]) && reads_window(b[i]) && (forall|v: ValId| #[trigger]
        reads_value(reads(b[i]), v) ==> reads_value(reads(a[i]), v) || defined_in(a, i, v)) by {
        assert(b[i] == folded(a, a[i]));
        assert(small_frames(a[i]) && reads_window(a[i]));
        if let Some((base, disp)) = folded_address(a, a[i]) {
            let v = (address_of(a[i])->0).0->Val_0;
            lemma_sum(a, v, a.len() as int);
            let c = (sum_upto(a, v, a.len() as int)->0).1;
            let j = choose|j: int| 0 <= j < a.len() && #[trigger] sum_of(a[j]) == Some((v, base, c));
            assert(reads(a[i])[0] == Operand::Val(v));
            assert(reads_value(reads(a[i]), v));
            assert(inputs_defined(a, i, a[i]));
            lemma_one_def(a, v, j, i);
            assert(reads(a[j])[0] == base);
            assert(reads_window(a[j]));
            assert(inputs_defined(a, j, a[j]));
            assert forall|k: int| 0 <= k < reads(b[i]).len() implies in_window(#[trigger] reads(b[i])[k]) by {
                if k == 0 {
                    assert(in_window(reads(a[j])[0]));
                } else {
                    assert(in_window(reads(a[i])[1]));
                }
            }
            assert forall|w: ValId| #[trigger] reads_value(reads(b[i]), w) implies reads_value(
                reads(a[i]),
                w,
            ) || defined_in(a, i, w) by {
                let k = choose|k: int| 0 <= k < reads(b[i]).len() && reads(b[i])[k] == Operand::Val(w);
                if k == 0 {
                    assert(reads_value(reads(a[j]), w));
                    assert(defined_in(a, j, w));
                    let m = choose|m: int|
                        0 <= m < j && m < a.len() && defines(#[trigger] a[m]) == Some(w);
                    assert(defines(a[m]) == Some(w));
                } else {
                    assert(reads(a[i])[1] == Operand::Val(w));
                }
            }
        }
    }
    lemma_pointwise(a, b);
    assert(kept(b1) =~= kept(b0));
    assert forall|k: int| 0 <= k < kept(b1).len() implies operand_ready(b, #[trigger] kept(b1)[k])
        && in_window(kept(b1)[k]) by {
        assert(operand_ready(a, kept(b0)[k]) && in_window(kept(b0)[k]));
    }
}

/// How often a value is among the operands.
pub open spec fn occurrences(ops: Seq<Operand>, v: ValId) -> nat
    decreases ops.len(),
{
    if ops.len() == 0 {
        0
    } else {
        occurrences(ops.drop_last(), v) + if ops.last() == Operand::Val(v) {
            1nat
        } else {
            0nat
        }
    }
}

/// How often the first `k` instructions read a value.
pub open spec fn reads_upto(instrs: Seq<Instr>, v: ValId, k: int) -> nat
    decreases k,
{
    if k <= 0 {
        0
    } else {
        reads_upto(instrs, v, k - 1) + occurrences(reads(instrs[k - 1]), v)
    }
}

/// What the block's exits and its branch condition read.
pub open spec fn end_reads(b: SchedBlock) -> Seq<Operand> {
    sources(b.exits@) + match b.control {
        Some(c) => seq![c],
        None => Seq::empty(),
    }
}

/// How often a block reads a value.
pub open spec fn reader_count(b: SchedBlock, v: ValId) -> nat {
    reads_upto(b.instrs@, v, b.instrs@.len() as int) + occurrences(end_reads(b), v)
}

/// The last two-operand instruction among the first `k` that defines a value.
pub open spec fn bin_upto(instrs: Seq<Instr>, v: ValId, k: int) -> Option<(BinOp, Operand, Operand, Width)>
    decreases k,
{
    if k <= 0 {
        None
    } else {
        match instrs[k - 1] {
            Instr::Bin { dst, op, a, b, operand_width, .. } => if dst == v {
                Some((op, a, b, operand_width))
            } else {
                bin_upto(instrs, v, k - 1)
            },
            _ => bin_upto(instrs, v, k - 1),
        }
    }
}

/// The other operand, where one of two is the constant.
pub open spec fn beside(a: Operand, b: Operand, c: u64) -> Option<Operand> {
    if b == Operand::Imm(c) {
        Some(a)
    } else if a == Operand::Imm(c) {
        Some(b)
    } else {
        None
    }
}

/// The value a comparison tests against the sign bit of its width, once masked with it, if
/// nothing else reads the masked value.
pub open spec fn sign_tested(b: SchedBlock, i: Instr) -> Option<Operand> {
    match i {
        Instr::Bin { op: BinOp::Eq, a, b: rhs, operand_width, .. } => {
            let sign = operand_width.sign_bit();
            match beside(a, rhs, sign) {
                Some(Operand::Val(v)) => if reader_count(b, v) == 1 {
                    match bin_upto(b.instrs@, v, b.instrs@.len() as int) {
                        Some((BinOp::And, x, y, w)) => if w == operand_width {
                            beside(x, y, sign)
                        } else {
                            None
                        },
                        _ => None,
                    }
                } else {
                    None
                },
                _ => None,
            }
        },
        _ => None,
    }
}

/// A masked sign test as a signed comparison with zero.
pub open spec fn sign_rewritten(b: SchedBlock, i: Instr) -> Instr {
    match (i, sign_tested(b, i)) {
        (Instr::Bin { dst, width, operand_width, .. }, Some(x)) => Instr::Bin {
            dst,
            op: BinOp::Slt,
            a: x,
            b: Operand::Imm(0),
            width,
            operand_width,
        },
        _ => i,
    }
}

proof fn lemma_sign(x: u64)
    by (bit_vector)
    ensures
        x <= 0xff ==> (x & 0x80 == 0x80 <==> x >= 0x80),
        x <= 0xffff ==> (x & 0x8000 == 0x8000 <==> x >= 0x8000),
        x <= 0xffff_ffff ==> (x & 0x8000_0000 == 0x8000_0000 <==> x >= 0x8000_0000),
        x & 0x8000_0000_0000_0000 == 0x8000_0000_0000_0000 <==> x >= 0x8000_0000_0000_0000,
{
}

/// Testing a value's sign bit is comparing the value with zero.
pub proof fn sign_tests_are_comparisons(x: u64, w: Width)
    requires
        x <= w.mask(),
    ensures
        bin_val(BinOp::Eq, bin_val(BinOp::And, x, w.sign_bit(), w), w.sign_bit(), w) == bin_val(
            BinOp::Slt,
            x,
            0,
            w,
        ),
{
    lemma_sign(x);
}

/// Count up to two.
fn count_in(ops: &Vec<Operand>, v: ValId, so_far: u8) -> (n: u8)
    requires
        so_far <= 2,
    ensures
        n <= 2,
        n < 2 ==> n == so_far + occurrences(ops@, v),
        n == 2 ==> so_far + occurrences(ops@, v) >= 2,
{
    let mut n: u8 = so_far;
    let mut k: usize = 0;
    proof {
        assert(ops@.take(0) =~= Seq::empty());
    }
    while k < ops.len()
        invariant
            k <= ops@.len(),
            n <= 2,
            n < 2 ==> n == so_far + occurrences(ops@.take(k as int), v),
            n == 2 ==> so_far + occurrences(ops@.take(k as int), v) >= 2,
        decreases ops@.len() - k,
    {
        proof {
            assert(ops@.take(k + 1).drop_last() =~= ops@.take(k as int));
        }
        if ops[k] == Operand::Val(v) {
            if n < 2 {
                n = n + 1;
            }
        }
        k = k + 1;
    }
    proof {
        assert(ops@.take(ops@.len() as int) =~= ops@);
    }
    n
}

fn end_operands(b: &SchedBlock) -> (v: Vec<Operand>)
    ensures
        v@ == end_reads(*b),
{
    let mut v: Vec<Operand> = Vec::new();
    let mut k: usize = 0;
    while k < b.exits.len()
        invariant
            k <= b.exits@.len(),
            v@ == sources(b.exits@).take(k as int),
        decreases b.exits@.len() - k,
    {
        v.push(b.exits[k].1);
        k = k + 1;
        proof {
            assert(v@ =~= sources(b.exits@).take(k as int));
        }
    }
    if let Some(c) = &b.control {
        v.push(*c);
    }
    proof {
        assert(v@ =~= end_reads(*b));
    }
    v
}

/// Whether a block reads a value exactly once.
fn read_once(b: &SchedBlock, v: ValId) -> (r: bool)
    ensures
        r == (reader_count(*b, v) == 1),
{
    let mut n: u8 = 0;
    let mut k: usize = 0;
    while k < b.instrs.len()
        invariant
            k <= b.instrs@.len(),
            n <= 2,
            n < 2 ==> n == reads_upto(b.instrs@, v, k as int),
            n == 2 ==> reads_upto(b.instrs@, v, k as int) >= 2,
        decreases b.instrs@.len() - k,
    {
        let ops = operands_read(&b.instrs[k]);
        n = count_in(&ops, v, n);
        k = k + 1;
    }
    let ops = end_operands(b);
    n = count_in(&ops, v, n);
    n == 1
}

fn bin_defining(b: &SchedBlock, v: ValId) -> (r: Option<(BinOp, Operand, Operand, Width)>)
    ensures
        r == bin_upto(b.instrs@, v, b.instrs@.len() as int),
{
    let mut k: usize = b.instrs.len();
    while k > 0
        invariant
            k <= b.instrs@.len(),
            bin_upto(b.instrs@, v, b.instrs@.len() as int) == bin_upto(b.instrs@, v, k as int),
        decreases k,
    {
        if let Instr::Bin { dst, op, a, b: rhs, operand_width, .. } = &b.instrs[k - 1] {
            if *dst == v {
                return Some((*op, *a, *rhs, *operand_width));
            }
        }
        k = k - 1;
    }
    None
}

fn beside_of(a: Operand, b: Operand, c: u64) -> (r: Option<Operand>)
    ensures
        r == beside(a, b, c),
{
    if b == Operand::Imm(c) {
        Some(a)
    } else if a == Operand::Imm(c) {
        Some(b)
    } else {
        None
    }
}

fn sign_test_at(b: &SchedBlock, i: usize) -> (r: Option<Operand>)
    requires
        i < b.instrs@.len(),
    ensures
        r == sign_tested(*b, b.instrs@[i as int]),
{
    if let Instr::Bin { op: BinOp::Eq, a, b: rhs, operand_width, .. } = &b.instrs[i] {
        let width = *operand_width;
        let sign: u64 = width.sign_bit();
        if let Some(Operand::Val(v)) = beside_of(*a, *rhs, sign) {
            if read_once(b, v) {
                if let Some((BinOp::And, x, y, w)) = bin_defining(b, v) {
                    if w == width {
                        return beside_of(x, y, sign);
                    }
                }
            }
        }
    }
    None
}

/// How many of the first `k` instructions are masked sign tests.
pub open spec fn sign_tests_upto(b: SchedBlock, k: int) -> nat
    decreases k,
{
    if k <= 0 {
        0
    } else {
        sign_tests_upto(b, k - 1) + if sign_tested(b, b.instrs@[k - 1]) is Some {
            1nat
        } else {
            0nat
        }
    }
}

/// Turn masked sign tests into signed comparisons, returning how many.
pub fn rewrite_masked_sign_tests(b: &mut SchedBlock) -> (n: usize)
    ensures
        final(b).instrs@ == Seq::new(
            old(b).instrs@.len(),
            |i: int| sign_rewritten(*old(b), old(b).instrs@[i]),
        ),
        n == sign_tests_upto(*old(b), old(b).instrs@.len() as int),
        final(b).id == old(b).id,
        final(b).exits == old(b).exits,
        final(b).callee_set == old(b).callee_set,
        final(b).control == old(b).control,
        final(b).fused == old(b).fused,
        final(b).terminator == old(b).terminator,
{
    let ghost b0 = *b;
    let mut found: Vec<Option<Operand>> = Vec::new();
    let mut n: usize = 0;
    let mut i: usize = 0;
    while i < b.instrs.len()
        invariant
            i <= b.instrs@.len(),
            *b == b0,
            found@.len() == i,
            n == sign_tests_upto(b0, i as int),
            n <= i,
            forall|k: int| 0 <= k < i ==> #[trigger] found@[k] == sign_tested(b0, b0.instrs@[k]),
        decreases b.instrs@.len() - i,
    {
        let x = sign_test_at(b, i);
        if x.is_some() {
            n = n + 1;
        }
        found.push(x);
        i = i + 1;
    }
    let mut i: usize = 0;
    while i < b.instrs.len()
        invariant
            i <= b.instrs@.len() == b0.instrs@.len(),
            found@.len() == b0.instrs@.len(),
            forall|k: int|
                0 <= k < found@.len() ==> #[trigger] found@[k] == sign_tested(b0, b0.instrs@[k]),
            forall|k: int|
                0 <= k < b0.instrs@.len() ==> #[trigger] b.instrs@[k] == if k < i {
                    sign_rewritten(b0, b0.instrs@[k])
                } else {
                    b0.instrs@[k]
                },
            b.id == b0.id,
            b.exits == b0.exits,
            b.callee_set == b0.callee_set,
            b.control == b0.control,
            b.fused == b0.fused,
            b.terminator == b0.terminator,
        decreases b.instrs@.len() - i,
    {
        proof {
            assert(b.instrs@[i as int] == b0.instrs@[i as int]);
        }
        if let Some(x) = found[i] {
            let moved = match &b.instrs[i] {
                Instr::Bin { dst, width, operand_width, .. } => Some(
                    Instr::Bin {
                        dst: *dst,
                        op: BinOp::Slt,
                        a: x,
                        b: Operand::Imm(0),
                        width: *width,
                        operand_width: *operand_width,
                    },
                ),
                _ => None,
            };
            if let Some(m) = moved {
                b.instrs.set(i, m);
            }
        }
        i = i + 1;
    }
    proof {
        assert(b.instrs@ =~= Seq::new(b0.instrs@.len(), |i: int| sign_rewritten(b0, b0.instrs@[i])));
    }
    n
}

} // verus!
