//! Abstract machine state for the guided evaluator. Registers and flags hold references
//! into an arena, so a value is "concrete" exactly when its node is a constant.

use crate::ir::expr::{const_of, eval, has, is_const, lemma_fits, op_of, width_of, Arena, BinOp, Env, GPRS, Node, Op, Ref, Reg, Width};
use crate::ir::fold::lemma_mask;
use crate::ir::known::lemma_shift_count;
use std::collections::HashMap;
use vstd::prelude::*;

verus! {

broadcast use vstd::std_specs::hash::group_hash_axioms;

/// x86 status flags the lifter models.
#[derive(Debug, Clone, Copy, PartialEq, Eq, Hash, Structural)]
pub enum Flag {
    Cf,
    Pf,
    Af,
    Zf,
    Sf,
    Of,
    /// Direction flag; needed to keep `pushfq`/`popfq` round-trips exact.
    Df,
}

/// Every flag, in the order of [`Flag::slot`].
pub const FLAGS: [Flag; 7] = [
    Flag::Cf,
    Flag::Pf,
    Flag::Af,
    Flag::Zf,
    Flag::Sf,
    Flag::Of,
    Flag::Df,
];

impl Flag {
    pub open spec fn bit_spec(self) -> u32 {
        match self {
            Flag::Cf => 0,
            Flag::Pf => 2,
            Flag::Af => 4,
            Flag::Zf => 6,
            Flag::Sf => 7,
            Flag::Df => 10,
            Flag::Of => 11,
        }
    }

    /// Bit position inside RFLAGS.
    #[verifier::when_used_as_spec(bit_spec)]
    pub fn bit(self) -> (r: u32)
        ensures
            r == self.bit_spec(),
    {
        match self {
            Flag::Cf => 0,
            Flag::Pf => 2,
            Flag::Af => 4,
            Flag::Zf => 6,
            Flag::Sf => 7,
            Flag::Df => 10,
            Flag::Of => 11,
        }
    }

    pub open spec fn slot_spec(self) -> usize {
        match self {
            Flag::Cf => 0,
            Flag::Pf => 1,
            Flag::Af => 2,
            Flag::Zf => 3,
            Flag::Sf => 4,
            Flag::Of => 5,
            Flag::Df => 6,
        }
    }

    /// Position in [`FLAGS`].
    #[verifier::when_used_as_spec(slot_spec)]
    pub fn slot(self) -> (r: usize)
        ensures
            r == self.slot_spec(),
            r < 7,
    {
        match self {
            Flag::Cf => 0,
            Flag::Pf => 1,
            Flag::Af => 2,
            Flag::Zf => 3,
            Flag::Sf => 4,
            Flag::Of => 5,
            Flag::Df => 6,
        }
    }
}

/// RFLAGS bits that are always set on x86 (bit 1 is reserved-as-1).
pub const RFLAGS_FIXED: u64 = 0x2;

/// One byte of memory: either a known constant or a byte extracted from a symbolic
/// expression.
#[derive(Debug, Clone, Copy, PartialEq, Eq, Structural)]
pub enum Byte {
    Const(u8),
    /// Byte `index` (little-endian) of the value `expr`.
    Sym { expr: Ref, index: u32 },
}

/// Which 64-bit half of an XMM register. SSE moves are 8- or 16-byte, so halves are
/// enough; anything narrower stays boxed.
#[derive(Debug, Clone, Copy, PartialEq, Eq, Hash, Structural)]
pub enum XmmHalf {
    Low,
    High,
}

/// The place of a half register among all of them.
pub open spec fn xmm_key(index: u8, half: XmmHalf) -> u32 {
    (2 * index + match half {
        XmmHalf::Low => 0int,
        XmmHalf::High => 1int,
    }) as u32
}

fn xmm_slot(index: u8, half: XmmHalf) -> (r: u32)
    ensures
        r == xmm_key(index, half),
{
    match half {
        XmmHalf::Low => 2 * (index as u32),
        XmmHalf::High => 2 * (index as u32) + 1,
    }
}

#[derive(Debug)]
pub struct State {
    /// One value per register, by register number.
    pub regs: Vec<Ref>,
    /// One value per flag, by flag slot.
    pub flags: Vec<Ref>,
    /// Symbolic or overwritten memory, keyed by concrete address.
    pub mem: HashMap<u64, Byte>,
    /// Stores whose address did not fold to a constant. Kept so the lifter can see that
    /// it lost precision instead of silently dropping the store.
    pub sym_stores: Vec<(Ref, Ref, Width)>,
    /// Halves of XMM registers that were written, by [`xmm_key`].
    pub xmm: HashMap<u32, Ref>,
}

impl Clone for State {
    fn clone(&self) -> (r: Self)
        ensures
            r.regs@ == self.regs@,
            r.flags@ == self.flags@,
            r.mem@ == self.mem@,
            r.sym_stores@ == self.sym_stores@,
            r.xmm@ == self.xmm@,
    {
        let mut sym_stores: Vec<(Ref, Ref, Width)> = Vec::new();
        let mut i: usize = 0;
        while i < self.sym_stores.len()
            invariant
                i <= self.sym_stores@.len(),
                sym_stores@ == self.sym_stores@.take(i as int),
            decreases self.sym_stores@.len() - i,
        {
            sym_stores.push(self.sym_stores[i]);
            i = i + 1;
            proof {
                assert(sym_stores@ =~= self.sym_stores@.take(i as int));
            }
        }
        proof {
            assert(sym_stores@ =~= self.sym_stores@);
        }
        State {
            regs: self.regs.clone(),
            flags: self.flags.clone(),
            mem: self.mem.clone(),
            sym_stores,
            xmm: self.xmm.clone(),
        }
    }
}

/// The value of one byte of memory.
pub open spec fn byte_value(ns: Seq<Node>, b: Byte, e: Env) -> u64 {
    match b {
        Byte::Const(c) => c as u64,
        Byte::Sym { expr, index } => (eval(ns, expr, e) >> ((8 * index) as u64)) & 0xff,
    }
}

/// The little-endian number made of a run of bytes, placed from byte `at` on.
pub open spec fn join_bytes(ns: Seq<Node>, bytes: Seq<Byte>, e: Env) -> u64
    decreases bytes.len(),
{
    if bytes.len() == 0 {
        0
    } else {
        join_bytes(ns, bytes.drop_last(), e) | (byte_value(ns, bytes.last(), e) << ((8 * (
        bytes.len() - 1)) as u64))
    }
}

/// A byte refers to a node of the arena, and to a byte a 64-bit value has.
pub open spec fn byte_ok(ns: Seq<Node>, b: Byte) -> bool {
    match b {
        Byte::Const(_) => true,
        Byte::Sym { expr, index } => has(ns, expr) && index < 8,
    }
}

/// Address of the `i`th byte from `addr`, wrapping at the end of memory.
pub open spec fn byte_addr(addr: u64, i: int) -> u64 {
    vstd::wrapping::u64_specs::wrapping_add(addr, i as u64)
}

/// Byte `i` of a stored value.
pub open spec fn stored_byte(ns: Seq<Node>, value: Ref, i: int) -> Byte {
    match const_of(ns, value) {
        Some(c) => Byte::Const((c >> ((8 * i) as u64)) as u8),
        None => Byte::Sym { expr: value, index: i as u32 },
    }
}

/// RFLAGS as made of the flags' low bits.
pub open spec fn packed_value(ns: Seq<Node>, flags: Seq<Ref>, e: Env) -> u64 {
    pack(
        eval(ns, flags[0], e),
        eval(ns, flags[1], e),
        eval(ns, flags[2], e),
        eval(ns, flags[3], e),
        eval(ns, flags[4], e),
        eval(ns, flags[5], e),
        eval(ns, flags[6], e),
    )
}

/// The RFLAGS word of seven flag values, each by its low bit.
pub open spec fn pack(cf: u64, pf: u64, af: u64, zf: u64, sf: u64, of: u64, df: u64) -> u64 {
    0x2 | ((cf & 1) << 0u64) | ((pf & 1) << 2u64) | ((af & 1) << 4u64) | ((zf & 1) << 6u64) | ((sf
        & 1) << 7u64) | ((of & 1) << 11u64) | ((df & 1) << 10u64)
}

/// Packing flags and taking them out again gives every flag back: `pushfq` and `popfq`
/// round-trip.
pub proof fn unpacking_undoes_packing(
    cf: u64,
    pf: u64,
    af: u64,
    zf: u64,
    sf: u64,
    of: u64,
    df: u64,
)
    requires
        cf <= 1,
        pf <= 1,
        af <= 1,
        zf <= 1,
        sf <= 1,
        of <= 1,
        df <= 1,
    ensures
        (pack(cf, pf, af, zf, sf, of, df) >> (Flag::Cf.bit() as u64)) & 1 == cf,
        (pack(cf, pf, af, zf, sf, of, df) >> (Flag::Pf.bit() as u64)) & 1 == pf,
        (pack(cf, pf, af, zf, sf, of, df) >> (Flag::Af.bit() as u64)) & 1 == af,
        (pack(cf, pf, af, zf, sf, of, df) >> (Flag::Zf.bit() as u64)) & 1 == zf,
        (pack(cf, pf, af, zf, sf, of, df) >> (Flag::Sf.bit() as u64)) & 1 == sf,
        (pack(cf, pf, af, zf, sf, of, df) >> (Flag::Of.bit() as u64)) & 1 == of,
        (pack(cf, pf, af, zf, sf, of, df) >> (Flag::Df.bit() as u64)) & 1 == df,
        pack(cf, pf, af, zf, sf, of, df) == 2 + cf + 4 * pf + 0x10 * af + 0x40 * zf + 0x80 * sf
            + 0x400 * df + 0x800 * of,
{
    let w = pack(cf, pf, af, zf, sf, of, df);
    assert((w >> 0u64) & 1 == cf && (w >> 2u64) & 1 == pf && (w >> 4u64) & 1 == af && (w >> 6u64)
        & 1 == zf && (w >> 7u64) & 1 == sf && (w >> 11u64) & 1 == of && (w >> 10u64) & 1 == df && w
        == 2 + cf + 4 * pf + 0x10 * af + 0x40 * zf + 0x80 * sf + 0x400 * df + 0x800 * of)
        by (bit_vector)
        requires
            w == 0x2 | ((cf & 1) << 0u64) | ((pf & 1) << 2u64) | ((af & 1) << 4u64) | ((zf & 1)
                << 6u64) | ((sf & 1) << 7u64) | ((of & 1) << 11u64) | ((df & 1) << 10u64),
            cf <= 1,
            pf <= 1,
            af <= 1,
            zf <= 1,
            sf <= 1,
            of <= 1,
            df <= 1,
    ;
}

impl State {
    /// Every register and flag has a value.
    pub open spec fn complete(self) -> bool {
        self.regs@.len() == 16 && self.flags@.len() == 7
    }

    pub open spec fn reg_spec(&self, r: Reg) -> Ref {
        self.regs@[r.number() as int]
    }

    pub open spec fn flag_spec(&self, f: Flag) -> Ref {
        self.flags@[f.slot() as int]
    }

    /// Every value of the state is a node, registers as wide as the machine and flags one
    /// byte wide.
    pub open spec fn fits_in(self, ns: Seq<Node>) -> bool {
        &&& self.complete()
        &&& forall|i: int|
            0 <= i < 16 ==> has(ns, #[trigger] self.regs@[i]) && width_of(ns, self.regs@[i])
                == Width::W64
        &&& forall|i: int|
            0 <= i < 7 ==> has(ns, #[trigger] self.flags@[i]) && width_of(ns, self.flags@[i])
                == Width::W8
        &&& forall|a: u64| #[trigger] self.mem@.dom().contains(a) ==> byte_ok(ns, self.mem@[a])
        &&& forall|k: u32| #[trigger]
            self.xmm@.dom().contains(k) ==> has(ns, self.xmm@[k]) && width_of(ns, self.xmm@[k])
                == Width::W64
    }

    /// Fresh state: all registers symbolic but RSP, which is concrete; all flags unknown
    /// but the direction flag, which the calling convention clears.
    pub fn new(arena: &mut Arena, stack_base: u64) -> (s: Self)
        requires
            old(arena).wf(),
        ensures
            final(arena).continues(*old(arena)),
            final(arena).mem_gen == old(arena).mem_gen,
            s.fits_in(final(arena).nodes@),
            forall|r: Reg|
                r != Reg::Rsp ==> op_of(final(arena).nodes@, #[trigger] s.reg(r)) == Op::InitReg(r),
            const_of(final(arena).nodes@, s.reg(Reg::Rsp)) == Some(stack_base),
            const_of(final(arena).nodes@, s.flag(Flag::Df)) == Some(0u64),
            forall|f: Flag|
                f != Flag::Df ==> op_of(final(arena).nodes@, #[trigger] s.flag(f)) is Opaque,
            old(arena).opaque_counter < u32::MAX - 7 ==> forall|f: Flag, g: Flag|
                f != g ==> #[trigger] s.flag(f) != #[trigger] s.flag(g),
            s.mem@ == Map::<u64, Byte>::empty(),
            s.sym_stores@.len() == 0,
            s.xmm@ == Map::<u32, Ref>::empty(),
    {
        let mut regs: Vec<Ref> = Vec::new();
        let ghost start = *arena;
        let mut i: usize = 0;
        while i < 16
            invariant
                i <= 16,
                arena.continues(start),
                arena.mem_gen == start.mem_gen,
                arena.opaque_counter == start.opaque_counter,
                regs@.len() == i,
                forall|j: int|
                    0 <= j < i ==> has(arena.nodes@, #[trigger] regs@[j]) && width_of(
                        arena.nodes@,
                        regs@[j],
                    ) == Width::W64 && op_of(arena.nodes@, regs@[j]) == Op::InitReg(GPRS@[j]),
            decreases 16 - i,
        {
            let v = arena.init_reg(GPRS[i]);
            regs.push(v);
            i = i + 1;
        }
        let ghost mid = *arena;
        let sp = arena.constant(stack_base, Width::W64);
        proof {
            lemma_mask(stack_base, 0xffff_ffff_ffff_ffff);
        }
        regs.set(Reg::Rsp.number() as usize, sp);
        let ghost after_regs = *arena;
        let mut flags: Vec<Ref> = Vec::new();
        let mut k: usize = 0;
        while k < 7
            invariant
                k <= 7,
                arena.continues(after_regs),
                arena.mem_gen == after_regs.mem_gen,
                after_regs.opaque_counter < u32::MAX - 7 ==> arena.opaque_counter
                    <= after_regs.opaque_counter + k,
                after_regs.opaque_counter < u32::MAX - 7 ==> forall|i: int, j: int|
                    0 <= i < j < k ==> #[trigger] flags@[i] != #[trigger] flags@[j],
                flags@.len() == k,
                forall|j: int|
                    0 <= j < k ==> has(arena.nodes@, #[trigger] flags@[j]) && width_of(
                        arena.nodes@,
                        flags@[j],
                    ) == Width::W8 && (if j == 6 {
                        const_of(arena.nodes@, flags@[j]) == Some(0u64)
                    } else {
                        op_of(arena.nodes@, flags@[j]) is Opaque
                    }),
            decreases 7 - k,
        {
            // Guest flags on entry are unknown but DF is 0 by the calling convention.
            let v = if FLAGS[k] == Flag::Df {
                proof {
                    lemma_mask(0, 0xff);
                }
                arena.constant(0, Width::W8)
            } else {
                arena.opaque("init_flag", Width::W8)
            };
            flags.push(v);
            k = k + 1;
        }
        proof {
            assert forall|r: Reg| r != Reg::Rsp implies op_of(
                arena.nodes@,
                #[trigger] regs@[r.number() as int],
            ) == Op::InitReg(r) by {
                assert(GPRS@[r.number() as int] == r);
            }
        }
        State { regs, flags, mem: HashMap::new(), sym_stores: Vec::new(), xmm: HashMap::new() }
    }

    #[verifier::when_used_as_spec(reg_spec)]
    pub fn reg(&self, r: Reg) -> (v: Ref)
        requires
            self.complete(),
        ensures
            v == self.reg_spec(r),
    {
        self.regs[r.number() as usize]
    }

    pub fn set_reg(&mut self, r: Reg, v: Ref)
        requires
            old(self).complete(),
        ensures
            final(self).regs@ == old(self).regs@.update(r.number() as int, v),
            final(self).flags@ == old(self).flags@,
            final(self).mem@ == old(self).mem@,
            final(self).sym_stores@ == old(self).sym_stores@,
            final(self).xmm@ == old(self).xmm@,
    {
        self.regs.set(r.number() as usize, v);
    }

    /// One half of an XMM register, or `None` if it was never written.
    pub fn xmm(&self, index: u8, half: XmmHalf) -> (v: Option<Ref>)
        ensures
            v == (if self.xmm@.dom().contains(xmm_key(index, half)) {
                Some(self.xmm@[xmm_key(index, half)])
            } else {
                None
            }),
    {
        match self.xmm.get(&xmm_slot(index, half)) {
            Some(v) => Some(*v),
            None => None,
        }
    }

    pub fn set_xmm(&mut self, index: u8, half: XmmHalf, v: Ref)
        ensures
            final(self).xmm@ == old(self).xmm@.insert(xmm_key(index, half), v),
            final(self).regs@ == old(self).regs@,
            final(self).flags@ == old(self).flags@,
            final(self).mem@ == old(self).mem@,
            final(self).sym_stores@ == old(self).sym_stores@,
    {
        self.xmm.insert(xmm_slot(index, half), v);
    }

    /// Drop all knowledge of an XMM register, for an instruction that writes one in a way
    /// this does not model.
    pub fn forget_xmm(&mut self, index: u8)
        ensures
            final(self).xmm@ == old(self).xmm@.remove(xmm_key(index, XmmHalf::Low)).remove(
                xmm_key(index, XmmHalf::High),
            ),
            final(self).regs@ == old(self).regs@,
            final(self).flags@ == old(self).flags@,
            final(self).mem@ == old(self).mem@,
            final(self).sym_stores@ == old(self).sym_stores@,
    {
        self.xmm.remove(&xmm_slot(index, XmmHalf::Low));
        self.xmm.remove(&xmm_slot(index, XmmHalf::High));
    }

    #[verifier::when_used_as_spec(flag_spec)]
    pub fn flag(&self, f: Flag) -> (v: Ref)
        requires
            self.complete(),
        ensures
            v == self.flag_spec(f),
    {
        self.flags[f.slot()]
    }

    pub fn set_flag(&mut self, f: Flag, v: Ref)
        requires
            old(self).complete(),
        ensures
            final(self).flags@ == old(self).flags@.update(f.slot() as int, v),
            final(self).regs@ == old(self).regs@,
            final(self).mem@ == old(self).mem@,
            final(self).sym_stores@ == old(self).sym_stores@,
            final(self).xmm@ == old(self).xmm@,
    {
        self.flags.set(f.slot(), v);
    }

    /// Concrete RSP, when it is one. VM exits are detected off this.
    pub fn concrete_rsp(&self, arena: &Arena) -> (v: Option<u64>)
        requires
            arena.wf(),
            self.complete(),
            arena.holds(self.reg(Reg::Rsp)),
        ensures
            v == const_of(arena.nodes@, self.reg(Reg::Rsp)),
    {
        arena.as_const(self.reg(Reg::Rsp))
    }

    /// `acc | ((bit & 1) << pos)`.
    fn place_flag(arena: &mut Arena, acc: Ref, bit: Ref, pos: u32) -> (r: Ref)
        requires
            old(arena).wf(),
            old(arena).holds(acc),
            old(arena).holds(bit),
            old(arena).width(acc) == Width::W64,
            pos < 64,
        ensures
            final(arena).grows(*old(arena)),
            final(arena).holds(r),
            final(arena).width(r) == Width::W64,
            forall|e: Env| #[trigger]
                eval(final(arena).nodes@, r, e) == eval(old(arena).nodes@, acc, e) | ((eval(
                    old(arena).nodes@,
                    bit,
                    e,
                ) & 1) << (pos as u64)),
            is_const(old(arena).nodes@, acc) && is_const(old(arena).nodes@, bit) ==> is_const(
                final(arena).nodes@,
                r,
            ),
    {
        let ghost n0 = arena.nodes@;
        let wide = arena.zext(bit, Width::W64);
        let ghost n1 = arena.nodes@;
        let one = arena.constant(1, Width::W64);
        let ghost n2 = arena.nodes@;
        let masked = arena.bin(BinOp::And, wide, one);
        let ghost n3 = arena.nodes@;
        let shift = arena.constant(pos as u64, Width::W64);
        let ghost n4 = arena.nodes@;
        let placed = arena.bin(BinOp::Shl, masked, shift);
        let ghost n5 = arena.nodes@;
        let r = arena.bin(BinOp::Or, acc, placed);
        proof {
            let n6 = arena.nodes@;
            let full = 0xffff_ffff_ffff_ffffu64;
            lemma_fits(n0, bit);
            lemma_mask(1, full);
            lemma_mask(pos as u64, full);
            assert forall|e: Env| #[trigger]
                eval(n6, r, e) == eval(n0, acc, e) | ((eval(n0, bit, e) & 1) << (pos as u64)) by {
                let v = eval(n0, bit, e);
                lemma_mask(v, full);
                assert(eval(n1, bit, e) == v);
                assert(eval(n1, wide, e) == v);
                assert(eval(n2, wide, e) == v);
                assert(eval(n3, wide, e) == v);
                assert(eval(n2, one, e) == 1);
                assert(eval(n3, one, e) == 1);
                assert(eval(n3, masked, e) == v & 1);
                assert(eval(n4, masked, e) == v & 1);
                assert(eval(n5, masked, e) == v & 1);
                assert(eval(n4, shift, e) == pos as u64);
                assert(eval(n5, shift, e) == pos as u64);
                lemma_shift_count(pos as u64, Width::W64);
                lemma_mask((v & 1) << (pos as u64), full);
                assert(eval(n5, placed, e) == (v & 1) << (pos as u64));
                assert(eval(n6, placed, e) == eval(n5, placed, e));
                assert(eval(n6, acc, e) == eval(n0, acc, e)) by {
                    assert(eval(n5, acc, e) == eval(n4, acc, e));
                    assert(eval(n4, acc, e) == eval(n3, acc, e));
                    assert(eval(n3, acc, e) == eval(n2, acc, e));
                    assert(eval(n2, acc, e) == eval(n1, acc, e));
                }
            }
        }
        r
    }

    /// Pack the modelled flags into an RFLAGS value for `pushfq`.
    pub fn pack_flags(&self, arena: &mut Arena) -> (r: Ref)
        requires
            old(arena).wf(),
            self.complete(),
            forall|i: int| 0 <= i < 7 ==> has(old(arena).nodes@, #[trigger] self.flags@[i]),
        ensures
            final(arena).grows(*old(arena)),
            final(arena).holds(r),
            final(arena).width(r) == Width::W64,
            forall|e: Env| #[trigger]
                eval(final(arena).nodes@, r, e) == packed_value(
                    old(arena).nodes@,
                    self.flags@,
                    e,
                ),
            (forall|i: int| 0 <= i < 7 ==> is_const(old(arena).nodes@, #[trigger] self.flags@[i]))
                ==> is_const(final(arena).nodes@, r),
    {
        let ghost n0 = arena.nodes@;
        let ghost fl = self.flags@;
        let a0 = arena.constant(RFLAGS_FIXED, Width::W64);
        let ghost m0 = arena.nodes@;
        let a1 = Self::place_flag(arena, a0, self.flags[0], Flag::Cf.bit());
        let ghost m1 = arena.nodes@;
        let a2 = Self::place_flag(arena, a1, self.flags[1], Flag::Pf.bit());
        let ghost m2 = arena.nodes@;
        let a3 = Self::place_flag(arena, a2, self.flags[2], Flag::Af.bit());
        let ghost m3 = arena.nodes@;
        let a4 = Self::place_flag(arena, a3, self.flags[3], Flag::Zf.bit());
        let ghost m4 = arena.nodes@;
        let a5 = Self::place_flag(arena, a4, self.flags[4], Flag::Sf.bit());
        let ghost m5 = arena.nodes@;
        let a6 = Self::place_flag(arena, a5, self.flags[5], Flag::Of.bit());
        let ghost m6 = arena.nodes@;
        let a7 = Self::place_flag(arena, a6, self.flags[6], Flag::Df.bit());
        proof {
            let m7 = arena.nodes@;
            lemma_mask(0x2, 0xffff_ffff_ffff_ffff);
            assert forall|e: Env| #[trigger]
                eval(m7, a7, e) == packed_value(n0, self.flags@, e) by {
                assert(eval(m0, fl[0], e) == eval(n0, fl[0], e));
                assert(eval(m1, fl[1], e) == eval(m0, fl[1], e));
                assert(eval(m2, fl[2], e) == eval(m1, fl[2], e));
                assert(eval(m3, fl[3], e) == eval(m2, fl[3], e));
                assert(eval(m4, fl[4], e) == eval(m3, fl[4], e));
                assert(eval(m5, fl[5], e) == eval(m4, fl[5], e));
                assert(eval(m6, fl[6], e) == eval(m5, fl[6], e));
                assert(eval(m0, a0, e) == 0x2);
                assert(eval(m1, a1, e) == 0x2 | ((eval(n0, fl[0], e) & 1) << 0u64));
            }
        }
        a7
    }

    /// Bit `pos` of `value`, one byte wide.
    fn take_flag(arena: &mut Arena, value: Ref, pos: u32) -> (r: Ref)
        requires
            old(arena).wf(),
            old(arena).holds(value),
            pos < 64,
        ensures
            final(arena).grows(*old(arena)),
            final(arena).holds(r),
            final(arena).width(r) == Width::W8,
            forall|e: Env| #[trigger]
                eval(final(arena).nodes@, r, e) == (eval(old(arena).nodes@, value, e) >> (
                pos as u64)) & 1,
            is_const(old(arena).nodes@, value) ==> is_const(final(arena).nodes@, r),
    {
        let ghost n0 = arena.nodes@;
        let shift = arena.constant(pos as u64, Width::W64);
        let ghost n1 = arena.nodes@;
        let shifted = arena.bin(BinOp::Shr, value, shift);
        let ghost n2 = arena.nodes@;
        let one = arena.constant(1, Width::W64);
        let ghost n3 = arena.nodes@;
        let bit = arena.bin(BinOp::And, shifted, one);
        let ghost n4 = arena.nodes@;
        let r = arena.trunc(bit, Width::W8);
        proof {
            let n5 = arena.nodes@;
            let full = 0xffff_ffff_ffff_ffffu64;
            lemma_mask(1, full);
            lemma_mask(pos as u64, full);
            assert forall|e: Env| #[trigger]
                eval(n5, r, e) == (eval(n0, value, e) >> (pos as u64)) & 1 by {
                let v = eval(n0, value, e);
                assert(eval(n1, value, e) == v);
                assert(eval(n2, value, e) == v);
                assert(eval(n1, shift, e) == pos as u64);
                assert(eval(n2, shift, e) == pos as u64);
                lemma_shift_count(pos as u64, Width::W64);
                assert(eval(n2, shifted, e) == v >> (pos as u64));
                assert(eval(n3, shifted, e) == v >> (pos as u64));
                assert(eval(n4, shifted, e) == v >> (pos as u64));
                assert(eval(n3, one, e) == 1);
                assert(eval(n4, one, e) == 1);
                assert(eval(n4, bit, e) == (v >> (pos as u64)) & 1);
                assert(eval(n5, bit, e) == eval(n4, bit, e));
                crate::ir::bits::lemma_bit(v, 0, pos as u64, 0, 0xff, 0xff);
                lemma_mask((v >> (pos as u64)) & 1, 0xff);
            }
        }
        r
    }

    /// Unpack an RFLAGS value into the modelled flags for `popfq`.
    pub fn unpack_flags(&mut self, arena: &mut Arena, value: Ref)
        requires
            old(arena).wf(),
            old(arena).holds(value),
            old(self).complete(),
        ensures
            final(arena).grows(*old(arena)),
            final(self).regs@ == old(self).regs@,
            final(self).mem@ == old(self).mem@,
            final(self).sym_stores@ == old(self).sym_stores@,
            final(self).xmm@ == old(self).xmm@,
            final(self).flags@.len() == 7,
            forall|f: Flag|
                has(final(arena).nodes@, #[trigger] final(self).flag(f)) && width_of(
                    final(arena).nodes@,
                    final(self).flag(f),
                ) == Width::W8,
            forall|f: Flag, e: Env| #[trigger]
                eval(final(arena).nodes@, final(self).flag(f), e) == (eval(
                    old(arena).nodes@,
                    value,
                    e,
                ) >> (f.bit() as u64)) & 1,
            is_const(old(arena).nodes@, value) ==> forall|f: Flag|
                is_const(final(arena).nodes@, #[trigger] final(self).flag(f)),
    {
        let ghost n0 = arena.nodes@;
        let ghost start = *arena;
        let ghost was = *self;
        let mut i: usize = 0;
        while i < 7
            invariant
                i <= 7,
                start.wf(),
                n0 == start.nodes@,
                has(n0, value),
                arena.grows(start),
                self.complete(),
                self.regs@ == was.regs@,
                self.mem@ == was.mem@,
                self.sym_stores@ == was.sym_stores@,
                self.xmm@ == was.xmm@,
                forall|f: Flag|
                    f.slot() < i ==> has(arena.nodes@, #[trigger] self.flag(f)) && width_of(
                        arena.nodes@,
                        self.flag(f),
                    ) == Width::W8,
                forall|f: Flag, e: Env|
                    f.slot() < i ==> #[trigger] eval(arena.nodes@, self.flag(f), e) == (eval(
                        n0,
                        value,
                        e,
                    ) >> (f.bit() as u64)) & 1,
                is_const(n0, value) ==> forall|f: Flag|
                    f.slot() < i ==> is_const(arena.nodes@, #[trigger] self.flag(f)),
            decreases 7 - i,
        {
            let f = FLAGS[i];
            proof {
                assert(f.slot() == i);
            }
            let ghost before = arena.nodes@;
            let ghost s0 = *self;
            let narrow = Self::take_flag(arena, value, f.bit());
            self.set_flag(f, narrow);
            proof {
                assert forall|g: Flag| g.slot() < i + 1 implies has(
                    arena.nodes@,
                    #[trigger] self.flag(g),
                ) && width_of(arena.nodes@, self.flag(g)) == Width::W8 by {
                    if g.slot() < i {
                        assert(self.flag(g) == s0.flag(g));
                        assert(has(before, s0.flag(g)));
                    } else {
                        assert(g == f);
                    }
                }
                assert forall|g: Flag|
                    is_const(n0, value) && g.slot() < i + 1 implies is_const(
                    arena.nodes@,
                    #[trigger] self.flag(g),
                ) by {
                    if g.slot() < i {
                        assert(self.flag(g) == s0.flag(g));
                        assert(has(before, s0.flag(g)) && is_const(before, s0.flag(g)));
                    } else {
                        assert(g == f);
                    }
                }
                assert forall|g: Flag, e: Env|
                    g.slot() < i + 1 implies #[trigger] eval(arena.nodes@, self.flag(g), e) == (
                eval(n0, value, e) >> (g.bit() as u64)) & 1 by {
                    if g.slot() < i {
                        assert(self.flag(g) == s0.flag(g));
                        assert(has(before, s0.flag(g)));
                        assert(eval(before, s0.flag(g), e) == (eval(n0, value, e) >> (
                        g.bit() as u64)) & 1);
                    } else {
                        assert(g == f);
                        assert(eval(before, value, e) == eval(n0, value, e));
                    }
                }
            }
            i = i + 1;
        }
    }

    /// Store `value` of `width` at a concrete address.
    pub fn store_concrete(&mut self, arena: &Arena, addr: u64, value: Ref, width: Width)
        requires
            arena.wf(),
            arena.holds(value),
        ensures
            forall|i: int|
                0 <= i < width.bytes() ==> final(self).mem@.dom().contains(
                    #[trigger] byte_addr(addr, i),
                ) && final(self).mem@[byte_addr(addr, i)] == stored_byte(arena.nodes@, value, i),
            forall|a: u64|
                (forall|i: int| 0 <= i < width.bytes() ==> a != #[trigger] byte_addr(addr, i))
                    ==> #[trigger] final(self).mem@.dom().contains(a)
                    == old(self).mem@.dom().contains(a) && (final(self).mem@.dom().contains(a)
                    ==> final(self).mem@[a] == old(self).mem@[a]),
            final(self).regs@ == old(self).regs@,
            final(self).flags@ == old(self).flags@,
            final(self).sym_stores@ == old(self).sym_stores@,
            final(self).xmm@ == old(self).xmm@,
    {
        let konst = arena.as_const(value);
        let n: u32 = width.bytes();
        let ghost was = *self;
        let mut i: u32 = 0;
        while i < n
            invariant
                i <= n <= 8,
                n == width.bytes(),
                konst == const_of(arena.nodes@, value),
                self.regs@ == was.regs@,
                self.flags@ == was.flags@,
                self.sym_stores@ == was.sym_stores@,
                self.xmm@ == was.xmm@,
                forall|j: int|
                    0 <= j < i ==> self.mem@.dom().contains(#[trigger] byte_addr(addr, j))
                        && self.mem@[byte_addr(addr, j)] == stored_byte(arena.nodes@, value, j),
                forall|a: u64|
                    (forall|j: int| 0 <= j < i ==> a != #[trigger] byte_addr(addr, j))
                        ==> #[trigger] self.mem@.dom().contains(a) == was.mem@.dom().contains(a)
                        && (self.mem@.dom().contains(a) ==> self.mem@[a] == was.mem@[a]),
            decreases n - i,
        {
            let b = match konst {
                Some(c) => Byte::Const((c >> ((i as u64) * 8)) as u8),
                None => Byte::Sym { expr: value, index: i },
            };
            let ghost before = self.mem@;
            let at: u64 = addr.wrapping_add(i as u64);
            self.mem.insert(at, b);
            proof {
                assert(at == byte_addr(addr, i as int));
                assert forall|j: int| 0 <= j < i + 1 implies self.mem@.dom().contains(
                    #[trigger] byte_addr(addr, j),
                ) && self.mem@[byte_addr(addr, j)] == stored_byte(arena.nodes@, value, j) by {
                    if j < i {
                        assert(byte_addr(addr, j) != at);
                    }
                }
                assert forall|a: u64|
                    (forall|j: int| 0 <= j < i + 1 ==> a != #[trigger] byte_addr(
                        addr,
                        j,
                    )) implies #[trigger] self.mem@.dom().contains(a) == was.mem@.dom().contains(a)
                    && (self.mem@.dom().contains(a) ==> self.mem@[a] == was.mem@[a]) by {
                    assert(a != byte_addr(addr, i as int));
                    assert(before.dom().contains(a) == was.mem@.dom().contains(a));
                }
            }
            i = i + 1;
        }
    }

    /// Forget what is known of `bytes` bytes of memory.
    pub fn forget_concrete(&mut self, addr: u64, bytes: u32)
        ensures
            forall|a: u64| #[trigger]
                final(self).mem@.dom().contains(a) <==> old(self).mem@.dom().contains(a) && (
                forall|i: int| 0 <= i < bytes ==> a != #[trigger] byte_addr(addr, i)),
            forall|a: u64| #[trigger]
                final(self).mem@.dom().contains(a) ==> final(self).mem@[a] == old(self).mem@[a],
            final(self).regs@ == old(self).regs@,
            final(self).flags@ == old(self).flags@,
            final(self).sym_stores@ == old(self).sym_stores@,
            final(self).xmm@ == old(self).xmm@,
    {
        let ghost was = *self;
        let mut i: u32 = 0;
        while i < bytes
            invariant
                i <= bytes,
                self.regs@ == was.regs@,
                self.flags@ == was.flags@,
                self.sym_stores@ == was.sym_stores@,
                self.xmm@ == was.xmm@,
                forall|a: u64| #[trigger]
                    self.mem@.dom().contains(a) <==> was.mem@.dom().contains(a) && (forall|j: int|
                        0 <= j < i ==> a != #[trigger] byte_addr(addr, j)),
                forall|a: u64| #[trigger]
                    self.mem@.dom().contains(a) ==> self.mem@[a] == was.mem@[a],
            decreases bytes - i,
        {
            let at: u64 = addr.wrapping_add(i as u64);
            let ghost before = self.mem@;
            self.mem.remove(&at);
            proof {
                assert(at == byte_addr(addr, i as int));
                assert forall|a: u64| #[trigger] self.mem@.dom().contains(a) <==> was.mem@.dom(
                ).contains(a) && (forall|j: int|
                    0 <= j < i + 1 ==> a != #[trigger] byte_addr(addr, j)) by {
                    if self.mem@.dom().contains(a) {
                        assert(before.dom().contains(a));
                    }
                    if was.mem@.dom().contains(a) && (forall|j: int|
                        0 <= j < i + 1 ==> a != #[trigger] byte_addr(addr, j)) {
                        assert(a != byte_addr(addr, i as int));
                        assert(before.dom().contains(a));
                    }
                }
            }
            i = i + 1;
        }
    }
}

} // verus!
