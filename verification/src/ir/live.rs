//! Live ranges of a scheduled block, and what destroys registers inside them.

use crate::ir::instr::{
    defined, defines, kept, operands_kept, operands_read, reads, reads_entry, reads_value, Instr,
    Operand, SchedBlock, ValId,
};
use crate::ir::value::{Reg, GPRS};
use crate::ir::x86::{decode_reg, effects_of, is_write, register_effects, register_part};
use std::collections::HashMap;
use vstd::prelude::*;

verus! {

broadcast use vstd::std_specs::hash::group_hash_axioms;

/// Registers available to hold intermediate values. RSP is excluded: it is the stack
/// pointer, and the recovered code stores through it.
pub const ALLOCATABLE: [Reg; 15] = [
    Reg::Rax,
    Reg::Rcx,
    Reg::Rdx,
    Reg::Rbx,
    Reg::Rbp,
    Reg::Rsi,
    Reg::Rdi,
    Reg::R8,
    Reg::R9,
    Reg::R10,
    Reg::R11,
    Reg::R12,
    Reg::R13,
    Reg::R14,
    Reg::R15,
];

/// Registers a call may destroy, per the Windows x64 ABI. A value live across a call
/// cannot sit in one of these.
pub const VOLATILE: [Reg; 7] = [
    Reg::Rax,
    Reg::Rcx,
    Reg::Rdx,
    Reg::R8,
    Reg::R9,
    Reg::R10,
    Reg::R11,
];

/// Whether the allocator hands the register out.
pub open spec fn allocatable(r: Reg) -> bool {
    r != Reg::Rsp
}

/// Whether a call may destroy the register.
pub open spec fn volatile(r: Reg) -> bool {
    r == Reg::Rax || r == Reg::Rcx || r == Reg::Rdx || r == Reg::R8 || r == Reg::R9 || r
        == Reg::R10 || r == Reg::R11
}

pub(crate) fn is_volatile(r: Reg) -> (b: bool)
    ensures
        b == volatile(r),
{
    matches!(
        r,
        Reg::Rax | Reg::Rcx | Reg::Rdx | Reg::R8 | Reg::R9 | Reg::R10 | Reg::R11
    )
}

/// The two tables hold exactly the registers they are named for.
pub proof fn register_tables()
    ensures
        forall|r: Reg| #[trigger] ALLOCATABLE@.contains(r) <==> allocatable(r),
        forall|r: Reg| #[trigger] VOLATILE@.contains(r) <==> volatile(r),
{
    assert forall|r: Reg| allocatable(r) implies #[trigger] ALLOCATABLE@.contains(r) by {
        let n = r.number_spec() as int;
        let k = if n < 4 {
            n
        } else {
            n - 1
        };
        assert(ALLOCATABLE@[k] == r);
    }
    assert forall|r: Reg| volatile(r) implies #[trigger] VOLATILE@.contains(r) by {
        let n = r.number_spec() as int;
        let k = if n < 4 {
            n
        } else {
            n - 5
        };
        assert(VOLATILE@[k] == r);
    }
}

/// A set of registers, as a bitmask over the registers' numbers.
#[derive(Debug, Clone, Copy, PartialEq, Eq, Structural)]
pub struct RegSet {
    pub bits: u16,
}

proof fn lemma_mask_bits(x: u16, y: u16, i: u16, j: u16)
    by (bit_vector)
    requires
        i < 16,
        j < 16,
    ensures
        ((x | (1u16 << j)) & (1u16 << i) != 0) <==> (i == j || x & (1u16 << i) != 0),
        ((x | y) & (1u16 << i) != 0) <==> (x & (1u16 << i) != 0 || y & (1u16 << i) != 0),
        0u16 & (1u16 << i) == 0,
        x != 0 <==> (x & (1u16 << 0) != 0 || x & (1u16 << 1) != 0 || x & (1u16 << 2) != 0 || x & (
        1u16 << 3) != 0 || x & (1u16 << 4) != 0 || x & (1u16 << 5) != 0 || x & (1u16 << 6) != 0 || x
            & (1u16 << 7) != 0 || x & (1u16 << 8) != 0 || x & (1u16 << 9) != 0 || x & (1u16 << 10)
            != 0 || x & (1u16 << 11) != 0 || x & (1u16 << 12) != 0 || x & (1u16 << 13) != 0 || x & (
        1u16 << 14) != 0 || x & (1u16 << 15) != 0),
{
}

impl RegSet {
    /// Membership.
    pub open spec fn has(self, r: Reg) -> bool {
        self.bits & (1u16 << (r.number_spec() as u16)) != 0
    }

    /// The set of no register.
    pub fn empty() -> (s: RegSet)
        ensures
            s == (RegSet { bits: 0 }),
            forall|x: Reg| !#[trigger] s.has(x),
    {
        proof {
            lemma_empty();
        }
        RegSet { bits: 0 }
    }

    pub fn insert(&mut self, r: Reg)
        ensures
            forall|x: Reg| #[trigger] final(self).has(x) <==> x == r || old(self).has(x),
    {
        let k: u16 = r.number() as u16;
        proof {
            assert forall|x: Reg| #[trigger]
                (RegSet { bits: self.bits | (1u16 << k) }).has(x) <==> x == r || self.has(x) by {
                lemma_mask_bits(self.bits, 0, x.number_spec() as u16, k);
            }
        }
        self.bits = self.bits | (1u16 << k);
    }

    pub fn contains(&self, r: Reg) -> (b: bool)
        ensures
            b == self.has(r),
    {
        let k: u16 = r.number() as u16;
        self.bits & (1u16 << k) != 0
    }

    pub fn union(self, other: RegSet) -> (u: RegSet)
        ensures
            forall|x: Reg| #[trigger] u.has(x) <==> self.has(x) || other.has(x),
    {
        proof {
            assert forall|x: Reg| #[trigger]
                (RegSet { bits: self.bits | other.bits }).has(x) <==> self.has(x) || other.has(x) by {
                lemma_mask_bits(self.bits, other.bits, x.number_spec() as u16, 0);
            }
        }
        RegSet { bits: self.bits | other.bits }
    }

    pub fn is_empty(&self) -> (b: bool)
        ensures
            b <==> (forall|x: Reg| !#[trigger] self.has(x)),
    {
        proof {
            lemma_mask_bits(self.bits, 0, 0, 0);
            if self.bits == 0 {
                assert forall|x: Reg| !#[trigger] self.has(x) by {
                    lemma_mask_bits(0, 0, x.number_spec() as u16, 0);
                }
            } else if forall|x: Reg| !#[trigger] self.has(x) {
                assert(!self.has(Reg::Rax) && !self.has(Reg::Rcx) && !self.has(Reg::Rdx)
                    && !self.has(Reg::Rbx) && !self.has(Reg::Rsp) && !self.has(Reg::Rbp)
                    && !self.has(Reg::Rsi) && !self.has(Reg::Rdi) && !self.has(Reg::R8)
                    && !self.has(Reg::R9) && !self.has(Reg::R10) && !self.has(Reg::R11)
                    && !self.has(Reg::R12) && !self.has(Reg::R13) && !self.has(Reg::R14)
                    && !self.has(Reg::R15));
            }
        }
        self.bits == 0
    }
}

/// The set of no register has no member.
pub proof fn lemma_empty()
    ensures
        forall|x: Reg| !#[trigger] (RegSet { bits: 0 }).has(x),
{
    assert forall|x: Reg| !#[trigger] (RegSet { bits: 0 }).has(x) by {
        lemma_mask_bits(0, 0, x.number_spec() as u16, 0);
    }
}

impl Default for RegSet {
    fn default() -> (r: Self)
        ensures
            r == (RegSet { bits: 0 }),
    {
        RegSet { bits: 0 }
    }
}

/// Whether a live range spans the call at `call`. `last_use` is one past the last
/// reading position, so a range read by the call itself has `last_use == call + 1`.
pub open spec fn spans(def: int, last_use: int, call: int) -> bool {
    def <= call && call + 1 < last_use
}

pub(crate) fn spans_call(def: usize, last_use: usize, call: usize) -> (r: bool)
    requires
        call < usize::MAX,
    ensures
        r == spans(def as int, last_use as int, call as int),
{
    def <= call && call + 1 < last_use
}

/// Whether the effects of an instruction write the register.
pub open spec fn effects_write(effects: Seq<(u32, u32)>, r: Reg) -> bool {
    exists|i: int|
        0 <= i < effects.len() && is_write((#[trigger] effects[i]).1) && (register_part(
            effects[i].0,
        ) matches Some((base, _, _)) && base == r)
}

/// Whether an instruction that is re-emitted verbatim writes an allocatable register.
/// One that cannot be decoded is taken to write them all.
pub open spec fn boxed_writes(bytes: Seq<u8>, site: u64, r: Reg) -> bool {
    bytes.len() > 0 && allocatable(r) && match effects_of(bytes, site) {
        Some(effects) => effects_write(effects, r),
        None => true,
    }
}

/// Whether a register is among those an assignment list fills.
pub open spec fn fills(uses: Seq<(Reg, Operand)>, r: Reg) -> bool {
    exists|i: int| 0 <= i < uses.len() && (#[trigger] uses[i]).0 == r
}

/// Whether executing the instruction destroys what the register held.
pub open spec fn destroys(i: Instr, r: Reg) -> bool {
    match i {
        Instr::Call { .. } => volatile(r),
        Instr::Boxed { site, bytes, uses, .. } => boxed_writes(bytes@, site, r) || (allocatable(r)
            && fills(uses@, r)),
        _ => false,
    }
}

/// The allocatable registers that instruction effects write.
pub fn written(effects: &Vec<(u32, u32)>) -> (s: RegSet)
    ensures
        forall|r: Reg| #[trigger] s.has(r) <==> allocatable(r) && effects_write(effects@, r),
{
    let mut out = RegSet::empty();
    proof {
        lemma_empty();
    }
    let mut i: usize = 0;
    while i < effects.len()
        invariant
            i <= effects@.len(),
            forall|r: Reg| #[trigger]
                out.has(r) <==> allocatable(r) && effects_write(effects@.take(i as int), r),
        decreases effects@.len() - i,
    {
        let (code, access) = effects[i];
        let ghost before = out;
        let ghost pre = effects@.take(i as int);
        let ghost post = effects@.take(i + 1);
        if 3 <= access && access <= 6 {
            if let Some((base, _, _)) = decode_reg(code) {
                if base != Reg::Rsp {
                    out.insert(base);
                }
            }
        }
        proof {
            assert forall|r: Reg| #[trigger]
                out.has(r) <==> allocatable(r) && effects_write(post, r) by {
                if effects_write(pre, r) {
                    let k = choose|k: int|
                        0 <= k < pre.len() && is_write((#[trigger] pre[k]).1) && (register_part(
                            pre[k].0,
                        ) matches Some((base, _, _)) && base == r);
                    assert(post[k] == pre[k]);
                }
                assert(before.has(r) <==> allocatable(r) && effects_write(pre, r));
                assert(post[i as int] == (code, access));
                if effects_write(post, r) {
                    let k = choose|k: int|
                        0 <= k < post.len() && is_write((#[trigger] post[k]).1) && (register_part(
                            post[k].0,
                        ) matches Some((base, _, _)) && base == r);
                    if k < i {
                        assert(pre[k] == post[k]);
                    }
                }
            }
        }
        i = i + 1;
    }
    proof {
        assert(effects@.take(effects@.len() as int) =~= effects@);
    }
    out
}

/// The allocatable registers a boxed instruction destroys.
pub(crate) fn boxed_clobbers(bytes: &[u8], site: u64) -> (s: RegSet)
    ensures
        forall|r: Reg| #[trigger] s.has(r) <==> boxed_writes(bytes@, site, r),
{
    proof {
        lemma_empty();
    }
    if bytes.len() == 0 {
        return RegSet::empty();
    }
    match register_effects(bytes, site) {
        Some(effects) => written(&effects),
        None => {
            let mut all = RegSet::empty();
            let mut i: usize = 0;
            proof {
                register_tables();
            }
            while i < 15
                invariant
                    i <= 15,
                    forall|r: Reg| #[trigger]
                        all.has(r) <==> (exists|k: int| 0 <= k < i && #[trigger] ALLOCATABLE@[k] == r),
                decreases 15 - i,
            {
                let ghost before = all;
                let x = ALLOCATABLE[i];
                all.insert(x);
                proof {
                    assert forall|r: Reg| #[trigger] all.has(r) <==> (exists|k: int|
                        0 <= k < i + 1 && #[trigger] ALLOCATABLE@[k] == r) by {
                        assert(before.has(r) <==> (exists|k: int|
                            0 <= k < i && #[trigger] ALLOCATABLE@[k] == r));
                        assert(ALLOCATABLE@[i as int] == x);
                    }
                }
                i = i + 1;
            }
            proof {
                assert forall|r: Reg| #[trigger] all.has(r) <==> boxed_writes(bytes@, site, r) by {
                    assert(ALLOCATABLE@.contains(r) <==> allocatable(r));
                }
            }
            all
        },
    }
}

/// A position that constrains register choice.
#[derive(Debug, Clone, Copy)]
pub struct Clobber {
    pub at: usize,
    /// `None` for a call, which clobbers the whole volatile set. `Some` for a boxed
    /// instruction, naming exactly the registers it destroys.
    pub regs: Option<RegSet>,
}

impl Clobber {
    /// Whether the register is destroyed here.
    pub open spec fn kills(self, r: Reg) -> bool {
        match self.regs {
            None => volatile(r),
            Some(s) => s.has(r),
        }
    }
}

/// Whether a position record describes the instruction it names.
pub open spec fn clobber_ok(instrs: Seq<Instr>, c: Clobber) -> bool {
    &&& c.at < instrs.len()
    &&& c.regs is None <==> instrs[c.at as int] is Call
    &&& c.regs is Some ==> instrs[c.at as int] is Boxed
    &&& forall|r: Reg| #[trigger] c.kills(r) <==> destroys(instrs[c.at as int], r)
}

/// The list of all positions that destroy registers, in order.
pub open spec fn clobbers_ok(instrs: Seq<Instr>, cs: Seq<Clobber>) -> bool {
    &&& forall|k: int| 0 <= k < cs.len() ==> clobber_ok(instrs, #[trigger] cs[k])
    &&& forall|j: int, k: int|
        0 <= j < k < cs.len() ==> (#[trigger] cs[j]).at < (#[trigger] cs[k]).at
    &&& forall|i: int, r: Reg|
        0 <= i < instrs.len() && #[trigger] destroys(instrs[i], r) ==> at_some(cs, i)
}

/// Whether a position is in the list.
pub open spec fn at_some(cs: Seq<Clobber>, i: int) -> bool {
    exists|k: int| 0 <= k < cs.len() && (#[trigger] cs[k]).at == i
}

/// What one instruction destroys, if anything.
fn clobber_at(instrs: &Vec<Instr>, i: usize) -> (c: Option<Clobber>)
    requires
        i < instrs@.len(),
    ensures
        c is None ==> forall|r: Reg| !#[trigger] destroys(instrs@[i as int], r),
        c matches Some(x) ==> x.at == i && clobber_ok(instrs@, x),
{
    match &instrs[i] {
        Instr::Call { .. } => Some(Clobber { at: i, regs: None }),
        Instr::Boxed { bytes, site, uses, .. } => {
            let mut regs = boxed_clobbers(bytes.as_slice(), *site);
            let mut k: usize = 0;
            while k < uses.len()
                invariant
                    k <= uses@.len(),
                    forall|r: Reg| #[trigger]
                        regs.has(r) <==> boxed_writes(bytes@, *site, r) || (allocatable(r) && fills(
                            uses@.take(k as int),
                            r,
                        )),
                decreases uses@.len() - k,
            {
                let ghost before = regs;
                let x = uses[k].0;
                if x != Reg::Rsp {
                    regs.insert(x);
                }
                proof {
                    let pre = uses@.take(k as int);
                    let post = uses@.take(k + 1);
                    assert forall|r: Reg| #[trigger] regs.has(r) <==> boxed_writes(bytes@, *site, r) || (
                    allocatable(r) && fills(post, r)) by {
                        assert(before.has(r) <==> boxed_writes(bytes@, *site, r) || (allocatable(r)
                            && fills(pre, r)));
                        if fills(pre, r) {
                            let j = choose|j: int| 0 <= j < pre.len() && (#[trigger] pre[j]).0 == r;
                            assert(post[j].0 == r);
                        }
                        assert(post[k as int].0 == x);
                        if fills(post, r) {
                            let j = choose|j: int|
                                0 <= j < post.len() && (#[trigger] post[j]).0 == r;
                            if j < k {
                                assert(pre[j].0 == r);
                            }
                        }
                    }
                }
                k = k + 1;
            }
            proof {
                assert(uses@.take(uses@.len() as int) =~= uses@);
                assert forall|r: Reg| #[trigger] regs.has(r) <==> destroys(instrs@[i as int], r) by {}
            }
            if regs.is_empty() {
                proof {
                    assert forall|r: Reg| !#[trigger] destroys(instrs@[i as int], r) by {
                        assert(!regs.has(r));
                    }
                }
                None
            } else {
                Some(Clobber { at: i, regs: Some(regs) })
            }
        },
        _ => None,
    }
}

/// Every position in `b` that destroys registers: calls and boxed instructions.
pub fn clobber_points(b: &SchedBlock) -> (cs: Vec<Clobber>)
    ensures
        clobbers_ok(b.instrs@, cs@),
{
    let mut cs: Vec<Clobber> = Vec::new();
    let mut i: usize = 0;
    while i < b.instrs.len()
        invariant
            i <= b.instrs@.len(),
            forall|k: int| 0 <= k < cs@.len() ==> clobber_ok(b.instrs@, #[trigger] cs@[k]) && cs@[k].at < i,
            forall|j: int, k: int|
                0 <= j < k < cs@.len() ==> (#[trigger] cs@[j]).at < (#[trigger] cs@[k]).at,
            forall|k: int, r: Reg|
                0 <= k < i && #[trigger] destroys(b.instrs@[k], r) ==> at_some(cs@, k),
        decreases b.instrs@.len() - i,
    {
        let ghost before = cs@;
        if let Some(c) = clobber_at(&b.instrs, i) {
            cs.push(c);
            proof {
                assert(cs@[cs@.len() - 1].at == i);
            }
        }
        proof {
            assert forall|k: int, r: Reg|
                0 <= k < i + 1 && #[trigger] destroys(b.instrs@[k], r) implies at_some(cs@, k) by {
                if k < i {
                    assert(at_some(before, k));
                    let j = choose|j: int| 0 <= j < before.len() && (#[trigger] before[j]).at == k;
                    assert(cs@[j].at == k);
                }
            }
        }
        i = i + 1;
    }
    cs
}

/// The live interval of one computed value. `def` is where it is written, `last_use` is
/// one past its final read.
#[derive(Debug, Clone, Copy, PartialEq, Eq, Structural)]
pub struct Interval {
    pub val: ValId,
    pub def: usize,
    pub last_use: usize,
    /// Whether the interval spans a call, which rules out the volatile registers.
    pub crosses_call: bool,
    /// Registers destroyed by a boxed instruction the interval spans.
    pub avoid: RegSet,
}

impl Interval {
    /// Whether two intervals need distinct registers.
    pub fn overlaps(&self, other: &Interval) -> (r: bool)
        ensures
            r == (self.def < other.last_use && other.def < self.last_use),
    {
        self.def < other.last_use && other.def < self.last_use
    }
}

/// Where a value is last defined among the first `k` instructions.
pub open spec fn def_upto(instrs: Seq<Instr>, v: ValId, k: int) -> Option<int>
    decreases k,
{
    if k <= 0 {
        None
    } else if defines(instrs[k - 1]) == Some(v) {
        Some(k - 1)
    } else {
        def_upto(instrs, v, k - 1)
    }
}

/// One past the last read of a value among the first `k` instructions, or one past its
/// first definition where nothing reads it.
pub open spec fn end_upto(instrs: Seq<Instr>, v: ValId, k: int) -> Option<int>
    decreases k,
{
    if k <= 0 {
        None
    } else if reads_value(reads(instrs[k - 1]), v) {
        Some(k)
    } else if defines(instrs[k - 1]) == Some(v) && end_upto(instrs, v, k - 1) is None {
        Some(k)
    } else {
        end_upto(instrs, v, k - 1)
    }
}

/// Where the life of a value of the block ends. What the terminator or a successor needs
/// outlives the last instruction.
pub open spec fn live_end(b: SchedBlock, v: ValId) -> Option<int> {
    if reads_value(kept(b), v) {
        Some((b.instrs@.len() + 1) as int)
    } else {
        end_upto(b.instrs@, v, b.instrs@.len() as int)
    }
}

/// Whether a span of the code crosses a call.
pub open spec fn crosses(instrs: Seq<Instr>, def: int, last_use: int) -> bool {
    exists|c: int|
        0 <= c < instrs.len() && spans(def, last_use, c) && (#[trigger] instrs[c]) is Call
}

/// Whether a span of the code crosses a boxed instruction that destroys the register.
pub open spec fn boxed_kills(instrs: Seq<Instr>, def: int, last_use: int, r: Reg) -> bool {
    exists|c: int|
        0 <= c < instrs.len() && spans(def, last_use, c) && (#[trigger] instrs[c]) is Boxed
            && destroys(instrs[c], r)
}

/// What an interval says is so.
pub open spec fn interval_ok(b: SchedBlock, i: Interval) -> bool {
    &&& def_upto(b.instrs@, i.val, b.instrs@.len() as int) == Some(i.def as int)
    &&& live_end(b, i.val) == Some(i.last_use as int)
    &&& i.crosses_call <==> crosses(b.instrs@, i.def as int, i.last_use as int)
    &&& forall|r: Reg| #[trigger]
        i.avoid.has(r) <==> boxed_kills(b.instrs@, i.def as int, i.last_use as int, r)
}

pub proof fn lemma_def_upto(instrs: Seq<Instr>, v: ValId, k: int)
    requires
        0 <= k <= instrs.len(),
    ensures
        def_upto(instrs, v, k) matches Some(d) ==> 0 <= d < k && defines(instrs[d]) == Some(v),
        def_upto(instrs, v, k) is Some ==> end_upto(instrs, v, k) is Some,
        def_upto(instrs, v, k) is None ==> forall|i: int|
            0 <= i < k ==> defines(#[trigger] instrs[i]) != Some(v),
        end_upto(instrs, v, k) matches Some(e) ==> 0 < e <= k,
    decreases k,
{
    if k > 0 {
        lemma_def_upto(instrs, v, k - 1);
    }
}

/// The constraints on a span of the code: whether it crosses a call, and the registers
/// boxed instructions in it destroy.
pub(crate) fn constraints(b: &SchedBlock, cs: &Vec<Clobber>, def: usize, last_use: usize) -> (r: (bool, RegSet))
    requires
        clobbers_ok(b.instrs@, cs@),
    ensures
        r.0 <==> crosses(b.instrs@, def as int, last_use as int),
        forall|x: Reg| #[trigger]
            r.1.has(x) <==> boxed_kills(b.instrs@, def as int, last_use as int, x),
{
    let mut crosses_call = false;
    let mut avoid = RegSet::empty();
    let mut k: usize = 0;
    let ghost ins = b.instrs@;
    while k < cs.len()
        invariant
            k <= cs@.len(),
            ins == b.instrs@,
            clobbers_ok(ins, cs@),
            crosses_call <==> (exists|j: int|
                0 <= j < k && spans(def as int, last_use as int, (#[trigger] cs@[j]).at as int)
                    && cs@[j].regs is None),
            forall|x: Reg| #[trigger]
                avoid.has(x) <==> (exists|j: int|
                    0 <= j < k && spans(def as int, last_use as int, (#[trigger] cs@[j]).at as int)
                        && cs@[j].regs is Some && cs@[j].kills(x)),
        decreases cs@.len() - k,
    {
        let ghost before = avoid;
        let ghost crossed = crosses_call;
        let c = cs[k];
        let n: usize = b.instrs.len();
        proof {
            assert(clobber_ok(ins, cs@[k as int]));
        }
        if spans_call(def, last_use, c.at) {
            match c.regs {
                None => {
                    crosses_call = true;
                },
                Some(s) => {
                    avoid = avoid.union(s);
                },
            }
        }
        proof {
            assert(cs@[k as int] == c);
            assert forall|x: Reg| #[trigger] avoid.has(x) <==> (exists|j: int|
                0 <= j < k + 1 && spans(def as int, last_use as int, (#[trigger] cs@[j]).at as int)
                    && cs@[j].regs is Some && cs@[j].kills(x)) by {
                let w = spans(def as int, last_use as int, c.at as int) && c.regs is Some && c.kills(x);
                assert(avoid.has(x) <==> before.has(x) || w);
                assert(before.has(x) <==> (exists|j: int|
                    0 <= j < k && spans(def as int, last_use as int, (#[trigger] cs@[j]).at as int)
                        && cs@[j].regs is Some && cs@[j].kills(x)));
            }
        }
        k = k + 1;
    }
    proof {
        if crosses_call {
            let j = choose|j: int|
                0 <= j < cs@.len() && spans(def as int, last_use as int, (#[trigger] cs@[j]).at as int)
                    && cs@[j].regs is None;
            assert(clobber_ok(ins, cs@[j]));
            assert(ins[cs@[j].at as int] is Call);
        }
        if crosses(ins, def as int, last_use as int) {
            let c = choose|c: int|
                0 <= c < ins.len() && spans(def as int, last_use as int, c) && (#[trigger] ins[c]) is Call;
            assert(destroys(ins[c], Reg::Rax));
            let j = choose|j: int| 0 <= j < cs@.len() && (#[trigger] cs@[j]).at == c;
            assert(clobber_ok(ins, cs@[j]));
        }
        assert forall|x: Reg| #[trigger]
            avoid.has(x) <==> boxed_kills(ins, def as int, last_use as int, x) by {
            if avoid.has(x) {
                let j = choose|j: int|
                    0 <= j < cs@.len() && spans(
                        def as int,
                        last_use as int,
                        (#[trigger] cs@[j]).at as int,
                    ) && cs@[j].regs is Some && cs@[j].kills(x);
                assert(clobber_ok(ins, cs@[j]));
                assert(ins[cs@[j].at as int] is Boxed);
            }
            if boxed_kills(ins, def as int, last_use as int, x) {
                let c = choose|c: int|
                    0 <= c < ins.len() && spans(def as int, last_use as int, c) && (
                    #[trigger] ins[c]) is Boxed && destroys(ins[c], x);
                let j = choose|j: int| 0 <= j < cs@.len() && (#[trigger] cs@[j]).at == c;
                assert(at_some(cs@, c));
                assert(clobber_ok(ins, cs@[j]));
                assert(cs@[j].kills(x));
            }
        }
    }
    (crosses_call, avoid)
}

/// The tables of definitions and ends after the first `k` instructions.
spec fn tables_ok(instrs: Seq<Instr>, k: int, def: Map<u32, usize>, last: Map<u32, usize>) -> bool {
    &&& forall|v: u32| #[trigger]
        def.dom().contains(v) <==> def_upto(instrs, ValId(v), k) is Some
    &&& forall|v: u32| #[trigger]
        def.dom().contains(v) ==> def_upto(instrs, ValId(v), k) == Some(def[v] as int)
    &&& forall|v: u32| #[trigger]
        last.dom().contains(v) <==> end_upto(instrs, ValId(v), k) is Some
    &&& forall|v: u32| #[trigger]
        last.dom().contains(v) ==> end_upto(instrs, ValId(v), k) == Some(last[v] as int)
}

/// Extend the life of every value among the operands to `end`.
fn extend(last: &mut HashMap<u32, usize>, ops: &Vec<Operand>, end: usize)
    ensures
        forall|v: u32| #[trigger]
            final(last)@.dom().contains(v) <==> old(last)@.dom().contains(v) || reads_value(
                ops@,
                ValId(v),
            ),
        forall|v: u32| #[trigger]
            final(last)@.dom().contains(v) ==> final(last)@[v] == if reads_value(ops@, ValId(v)) {
                end
            } else {
                old(last)@[v]
            },
{
    let mut j: usize = 0;
    while j < ops.len()
        invariant
            j <= ops@.len(),
            forall|v: u32| #[trigger]
                last@.dom().contains(v) <==> old(last)@.dom().contains(v) || reads_value(
                    ops@.take(j as int),
                    ValId(v),
                ),
            forall|v: u32| #[trigger]
                last@.dom().contains(v) ==> last@[v] == if reads_value(ops@.take(j as int), ValId(v)) {
                    end
                } else {
                    old(last)@[v]
                },
        decreases ops@.len() - j,
    {
        let ghost before = last@;
        if let Operand::Val(v) = ops[j] {
            last.insert(v.0, end);
        }
        proof {
            assert(ops@.take(j + 1) =~= ops@.take(j as int).push(ops@[j as int]));
            assert forall|v: u32|
                reads_value(ops@.take(j + 1), ValId(v)) <==> #[trigger] reads_value(
                    ops@.take(j as int),
                    ValId(v),
                ) || ops@[j as int] == Operand::Val(ValId(v)) by {
                crate::ir::walk::lemma_push_contains(ops@.take(j as int), ops@[j as int]);
            }
        }
        j = j + 1;
    }
    proof {
        assert(ops@.take(ops@.len() as int) =~= ops@);
    }
}

/// Live intervals for every value defined in `b`, in definition order.
pub fn intervals(b: &SchedBlock) -> (out: Vec<Interval>)
    requires
        b.instrs@.len() < usize::MAX,
    ensures
        forall|k: int| 0 <= k < out@.len() ==> interval_ok(*b, #[trigger] out@[k]),
        forall|j: int, k: int| 0 <= j < k < out@.len() ==> (#[trigger] out@[j]).def < (#[trigger] out@[k]).def,
        forall|v: ValId| #[trigger]
            def_upto(b.instrs@, v, b.instrs@.len() as int) is Some ==> exists|k: int|
                0 <= k < out@.len() && (#[trigger] out@[k]).val == v,
        out@.len() <= b.instrs@.len(),
{
    let n: usize = b.instrs.len();
    let ghost ins = b.instrs@;
    let mut def: HashMap<u32, usize> = HashMap::new();
    let mut last: HashMap<u32, usize> = HashMap::new();
    let mut i: usize = 0;
    while i < n
        invariant
            i <= n,
            n == b.instrs@.len(),
            ins == b.instrs@,
            tables_ok(ins, i as int, def@, last@),
        decreases n - i,
    {
        let ghost def0 = def@;
        let ghost last0 = last@;
        if let Some(d) = defined(&b.instrs[i]) {
            def.insert(d.0, i);
            if !last.contains_key(&d.0) {
                last.insert(d.0, i + 1);
            }
        }
        let ops = operands_read(&b.instrs[i]);
        extend(&mut last, &ops, i + 1);
        i = i + 1;
        proof {
            assert forall|v: u32| #[trigger]
                def@.dom().contains(v) <==> def_upto(ins, ValId(v), i as int) is Some by {
                assert(def0.dom().contains(v) <==> def_upto(ins, ValId(v), i - 1) is Some);
            }
            assert forall|v: u32| #[trigger] last@.dom().contains(v) <==> end_upto(ins, ValId(v), i as int) is Some by {
                assert(last0.dom().contains(v) <==> end_upto(ins, ValId(v), i - 1) is Some);
            }
            assert forall|v: u32| #[trigger] last@.dom().contains(v) implies end_upto(ins, ValId(v), i as int) == Some(last@[v] as int) by {
                assert(last0.dom().contains(v) <==> end_upto(ins, ValId(v), i - 1) is Some);
            }
        }
    }
    let after = operands_kept(b);
    let ghost last1 = last@;
    extend(&mut last, &after, n + 1);
    let cs = clobber_points(b);
    let mut out: Vec<Interval> = Vec::new();
    let mut i: usize = 0;
    proof {
        assert forall|v: ValId| (#[trigger] def_upto(ins, v, n as int)) is Some implies def_upto(
            ins,
            v,
            n as int,
        )->0 >= 0 by {
            lemma_def_upto(ins, v, n as int);
        }
    }
    while i < n
        invariant
            i <= n,
            n == b.instrs@.len(),
            n < usize::MAX,
            ins == b.instrs@,
            clobbers_ok(ins, cs@),
            tables_ok(ins, n as int, def@, last1),
            after@ == kept(*b),
            forall|v: u32| #[trigger]
                last@.dom().contains(v) <==> last1.dom().contains(v) || reads_value(after@, ValId(v)),
            forall|v: u32| #[trigger]
                last@.dom().contains(v) ==> last@[v] == if reads_value(after@, ValId(v)) {
                    (n + 1) as usize
                } else {
                    last1[v]
                },
            out@.len() <= i,
            forall|k: int|
                0 <= k < out@.len() ==> interval_ok(*b, #[trigger] out@[k]) && out@[k].def < i,
            forall|j: int, k: int|
                0 <= j < k < out@.len() ==> (#[trigger] out@[j]).def < (#[trigger] out@[k]).def,
            forall|v: ValId| #[trigger]
                def_upto(ins, v, n as int) matches Some(d) && d < i ==> exists|k: int|
                    0 <= k < out@.len() && (#[trigger] out@[k]).val == v,
        decreases n - i,
    {
        let ghost out0 = out@;
        if let Some(d) = defined(&b.instrs[i]) {
            proof {
                lemma_def_upto(ins, d, n as int);
                assert(def@.dom().contains(d.0));
                assert(ValId(d.0) == d);
                assert(last1.dom().contains(d.0));
                assert(last@.dom().contains(d.0));
            }
            if let Some(at) = def.get(&d.0) {
                if *at == i {
                    if let Some(end) = last.get(&d.0) {
                        let (crosses_call, avoid) = constraints(b, &cs, i, *end);
                        out.push(
                            Interval { val: d, def: i, last_use: *end, crosses_call, avoid },
                        );
                        proof {
                            assert(out@[out@.len() - 1].val == d);
                        }
                    }
                }
            }
        }
        proof {
            assert forall|v: ValId| #[trigger]
                def_upto(ins, v, n as int) matches Some(d) && d < i + 1 implies exists|k: int|
                0 <= k < out@.len() && (#[trigger] out@[k]).val == v by {
                lemma_def_upto(ins, v, n as int);
                if def_upto(ins, v, n as int) matches Some(d) && d < i {
                    let k = choose|k: int| 0 <= k < out0.len() && (#[trigger] out0[k]).val == v;
                    assert(out@[k].val == v);
                } else {
                    assert(ValId(v.0) == v);
                    assert(def@.dom().contains(v.0));
                    assert(out@[out@.len() - 1].val == v);
                }
            }
        }
        i = i + 1;
    }
    proof {
        assert forall|v: ValId| #[trigger]
            def_upto(ins, v, n as int) is Some implies exists|k: int|
            0 <= k < out@.len() && (#[trigger] out@[k]).val == v by {
            lemma_def_upto(ins, v, n as int);
        }
    }
    out
}

/// A value the allocator must place.
#[derive(Debug, Clone, Copy, PartialEq, Eq, Hash, Structural)]
pub enum Item {
    Val(ValId),
    /// The value guest register `Reg` held on entry to the block.
    Entry(Reg),
    /// An entry value moved out of its volatile register so it survives a call.
    Saved(Reg),
}

/// A live range over items, so entry values and computed values compete for registers
/// on the same footing.
#[derive(Debug, Clone, Copy)]
pub struct Range {
    pub item: Item,
    pub def: usize,
    pub last_use: usize,
    pub crosses_call: bool,
    /// Registers a boxed instruction in the range's span destroys.
    pub avoid: RegSet,
    /// Set for entry values: the register the item already occupies and must keep for
    /// as long as it is live, since nothing writes it there.
    pub fixed: Option<Reg>,
}

/// One past the last read of a register's entry value among the first `k` instructions.
pub open spec fn entry_end_upto(instrs: Seq<Instr>, r: Reg, k: int) -> Option<int>
    decreases k,
{
    if k <= 0 {
        None
    } else if reads_entry(reads(instrs[k - 1]), r) {
        Some(k)
    } else {
        entry_end_upto(instrs, r, k - 1)
    }
}

/// Whether a register's entry value is needed after the last instruction.
pub open spec fn entry_kept(b: SchedBlock, r: Reg) -> bool {
    reads_entry(kept(b), r) || b.control == Some(Operand::Entry(r)) || b.control == Some(
        Operand::Param(r),
    )
}

/// Where the life of a register's entry value ends, if anything needs it.
pub open spec fn entry_end(b: SchedBlock, r: Reg) -> Option<int> {
    if entry_kept(b, r) {
        Some((b.instrs@.len() + 1) as int)
    } else {
        entry_end_upto(b.instrs@, r, b.instrs@.len() as int)
    }
}

/// Whether the constraints of a range are those of its span.
pub open spec fn constrained(instrs: Seq<Instr>, r: Range) -> bool {
    &&& r.crosses_call <==> crosses(instrs, r.def as int, r.last_use as int)
    &&& forall|x: Reg| #[trigger]
        r.avoid.has(x) <==> boxed_kills(instrs, r.def as int, r.last_use as int, x)
}

/// What a range of the block says is so. Entry values start live at position 0 because
/// they are already in their register when the block begins.
pub open spec fn range_ok(b: SchedBlock, r: Range) -> bool {
    &&& constrained(b.instrs@, r)
    &&& match r.item {
        Item::Val(v) => {
            &&& def_upto(b.instrs@, v, b.instrs@.len() as int) == Some(r.def as int)
            &&& live_end(b, v) == Some(r.last_use as int)
            &&& r.fixed is None
        },
        Item::Entry(x) => {
            &&& entry_end(b, x) == Some(r.last_use as int)
            &&& r.def == 0
            &&& r.fixed == Some(x)
        },
        Item::Saved(_) => false,
    }
}

/// Position among ranges with the same extent: a computed value first, then entry values
/// by register.
pub open spec fn rank(i: Item) -> int {
    match i {
        Item::Val(_) => 0,
        Item::Entry(r) => 1 + r.number_spec(),
        Item::Saved(r) => 17 + r.number_spec(),
    }
}

/// Order by start, then by end.
pub open spec fn no_later(a: Range, b: Range) -> bool {
    a.def < b.def || (a.def == b.def && a.last_use <= b.last_use)
}

/// The order of the range list.
pub open spec fn before(a: Range, b: Range) -> bool {
    a.def < b.def || (a.def == b.def && (a.last_use < b.last_use || (a.last_use == b.last_use
        && rank(a.item) < rank(b.item))))
}

/// Whether a list of ranges holds the item.
pub open spec fn lists(v: Seq<Range>, i: Item) -> bool {
    exists|k: int| 0 <= k < v.len() && (#[trigger] v[k]).item == i
}

/// In order by start and end.
pub open spec fn in_order(v: Seq<Range>) -> bool {
    forall|j: int, k: int| 0 <= j < k < v.len() ==> no_later(#[trigger] v[j], #[trigger] v[k])
}

/// Insert a range behind those that sort with or before it.
pub(crate) fn place(v: &mut Vec<Range>, r: Range) -> (p: usize)
    requires
        in_order(old(v)@),
    ensures
        p <= old(v)@.len(),
        final(v)@ == old(v)@.insert(p as int, r),
        in_order(final(v)@),
        forall|k: int| 0 <= k < p ==> no_later(#[trigger] old(v)@[k], r),
        forall|k: int| p <= k < old(v)@.len() ==> !no_later(#[trigger] old(v)@[k], r),
{
    let mut p: usize = v.len();
    while p > 0 && (r.def < v[p - 1].def || (r.def == v[p - 1].def && r.last_use < v[p - 1].last_use))
        invariant
            p <= v@.len(),
            v@ == old(v)@,
            in_order(v@),
            forall|k: int| p <= k < v@.len() ==> !no_later(#[trigger] v@[k], r),
        decreases p,
    {
        p = p - 1;
    }
    let ghost v0 = v@;
    v.insert(p, r);
    proof {
        assert forall|k: int| 0 <= k < p implies no_later(#[trigger] v0[k], r) by {
            assert(no_later(v0[p - 1], r));
            if k < p - 1 {
                assert(no_later(v0[k], v0[p - 1]));
            }
        }
        assert forall|j: int, k: int| 0 <= j < k < v@.len() implies no_later(
            #[trigger] v@[j],
            #[trigger] v@[k],
        ) by {
            let x = if j < p {
                j
            } else {
                j - 1
            };
            let y = if k < p {
                k
            } else {
                k - 1
            };
            if j == p {
                assert(v@[k] == v0[y]);
            } else if k == p {
                assert(v@[j] == v0[x]);
            } else {
                assert(v@[j] == v0[x] && v@[k] == v0[y]);
                assert(no_later(v0[x], v0[y]));
            }
        }
    }
    p
}

/// Mark the entry values among the operands as needed until `end`.
fn extend_entries(last: &mut Vec<Option<usize>>, ops: &Vec<Operand>, end: usize)
    requires
        old(last)@.len() == 16,
    ensures
        final(last)@.len() == 16,
        forall|r: Reg|
            (#[trigger] final(last)@[r.number_spec() as int]) == if reads_entry(ops@, r) {
                Some(end)
            } else {
                old(last)@[r.number_spec() as int]
            },
{
    let mut j: usize = 0;
    proof {
        assert(ops@.take(0) =~= Seq::empty());
    }
    while j < ops.len()
        invariant
            j <= ops@.len(),
            old(last)@.len() == 16,
            last@.len() == 16,
            forall|r: Reg|
                (#[trigger] last@[r.number_spec() as int]) == if reads_entry(ops@.take(j as int), r) {
                    Some(end)
                } else {
                    old(last)@[r.number_spec() as int]
                },
        decreases ops@.len() - j,
    {
        let ghost l0 = last@;
        let ghost pre = ops@.take(j as int);
        match ops[j] {
            Operand::Entry(r) => {
                last.set(r.number() as usize, Some(end));
            },
            Operand::Param(r) => {
                last.set(r.number() as usize, Some(end));
            },
            _ => {},
        }
        proof {
            assert(ops@.take(j + 1) =~= pre.push(ops@[j as int]));
            crate::ir::walk::lemma_push_contains(pre, ops@[j as int]);
            assert forall|r: Reg|
                (#[trigger] last@[r.number_spec() as int]) == if reads_entry(ops@.take(j + 1), r) {
                    Some(end)
                } else {
                    old(last)@[r.number_spec() as int]
                } by {
                assert(l0[r.number_spec() as int] == if reads_entry(pre, r) {
                    Some(end)
                } else {
                    old(last)@[r.number_spec() as int]
                });
                assert(reads_entry(ops@.take(j + 1), r) <==> reads_entry(pre, r) || ops@[j as int]
                    == Operand::Entry(r) || ops@[j as int] == Operand::Param(r));
            }
        }
        j = j + 1;
    }
    proof {
        assert(ops@.take(ops@.len() as int) =~= ops@);
    }
}

/// Where each register's entry value is last needed, by register number.
fn entry_ends(b: &SchedBlock) -> (last: Vec<Option<usize>>)
    requires
        b.instrs@.len() < usize::MAX,
    ensures
        last@.len() == 16,
        forall|r: Reg|
            match #[trigger] last@[r.number_spec() as int] {
                Some(e) => entry_end(*b, r) == Some(e as int),
                None => entry_end(*b, r) is None,
            },
{
    let n: usize = b.instrs.len();
    let mut last: Vec<Option<usize>> = Vec::new();
    while last.len() < 16
        invariant
            last@.len() <= 16,
            forall|k: int| 0 <= k < last@.len() ==> (#[trigger] last@[k]) is None,
        decreases 16 - last@.len(),
    {
        last.push(None);
    }
    let mut i: usize = 0;
    while i < n
        invariant
            i <= n,
            n == b.instrs@.len(),
            last@.len() == 16,
            forall|r: Reg|
                match #[trigger] last@[r.number_spec() as int] {
                    Some(e) => entry_end_upto(b.instrs@, r, i as int) == Some(e as int),
                    None => entry_end_upto(b.instrs@, r, i as int) is None,
                },
        decreases n - i,
    {
        let ghost l0 = last@;
        let ops = operands_read(&b.instrs[i]);
        extend_entries(&mut last, &ops, i + 1);
        i = i + 1;
        proof {
            assert forall|r: Reg|
                match #[trigger] last@[r.number_spec() as int] {
                    Some(e) => entry_end_upto(b.instrs@, r, i as int) == Some(e as int),
                    None => entry_end_upto(b.instrs@, r, i as int) is None,
                } by {
                let old_entry = l0[r.number_spec() as int];
                assert(match old_entry {
                    Some(e) => entry_end_upto(b.instrs@, r, i - 1) == Some(e as int),
                    None => entry_end_upto(b.instrs@, r, i - 1) is None,
                });
            }
        }
    }
    let ghost l1 = last@;
    let after = operands_kept(b);
    extend_entries(&mut last, &after, n + 1);
    let ghost l2 = last@;
    let mut tested: Vec<Operand> = Vec::new();
    if let Some(c) = &b.control {
        tested.push(*c);
    }
    extend_entries(&mut last, &tested, n + 1);
    proof {
        assert forall|r: Reg|
            match #[trigger] last@[r.number_spec() as int] {
                Some(e) => entry_end(*b, r) == Some(e as int),
                None => entry_end(*b, r) is None,
            } by {
            let i = r.number_spec() as int;
            let e1 = l1[i];
            let e2 = l2[i];
            assert(e2 == if reads_entry(kept(*b), r) {
                Some((n + 1) as usize)
            } else {
                e1
            });
            if let Some(c) = b.control {
                assert(tested@ =~= seq![c]);
                assert(tested@[0] == c);
                assert(reads_entry(tested@, r) <==> c == Operand::Entry(r) || c == Operand::Param(r));
            } else {
                assert(tested@ =~= Seq::empty());
            }
        }
    }
    last
}

/// Live ranges for a block, covering both computed values and guest entry values.
pub fn ranges(b: &SchedBlock) -> (out: Vec<Range>)
    requires
        b.instrs@.len() < usize::MAX,
    ensures
        forall|k: int| 0 <= k < out@.len() ==> range_ok(*b, #[trigger] out@[k]),
        forall|j: int, k: int| 0 <= j < k < out@.len() ==> before(#[trigger] out@[j], #[trigger] out@[k]),
        forall|v: ValId| #[trigger]
            def_upto(b.instrs@, v, b.instrs@.len() as int) is Some ==> lists(out@, Item::Val(v)),
        forall|r: Reg| #[trigger] entry_end(*b, r) is Some ==> lists(out@, Item::Entry(r)),
        out@.len() <= b.instrs@.len() + 16,
{
    let found = intervals(b);
    let mut out: Vec<Range> = Vec::new();
    let mut k: usize = 0;
    while k < found.len()
        invariant
            k <= found@.len(),
            out@.len() == k,
            forall|j: int| 0 <= j < found@.len() ==> interval_ok(*b, #[trigger] found@[j]),
            forall|i: int, j: int|
                0 <= i < j < found@.len() ==> (#[trigger] found@[i]).def < (#[trigger] found@[j]).def,
            forall|j: int|
                0 <= j < k ==> range_ok(*b, #[trigger] out@[j]) && out@[j].item == Item::Val(
                    found@[j].val,
                ) && out@[j].def == found@[j].def,
        decreases found@.len() - k,
    {
        let i = found[k];
        proof {
            assert(interval_ok(*b, found@[k as int]));
        }
        out.push(
            Range {
                item: Item::Val(i.val),
                def: i.def,
                last_use: i.last_use,
                crosses_call: i.crosses_call,
                avoid: i.avoid,
                fixed: None,
            },
        );
        k = k + 1;
    }
    proof {
        assert forall|v: ValId| #[trigger]
            def_upto(b.instrs@, v, b.instrs@.len() as int) is Some implies lists(
            out@,
            Item::Val(v),
        ) by {
            let k = choose|k: int| 0 <= k < found@.len() && (#[trigger] found@[k]).val == v;
            assert(out@[k].item == Item::Val(v));
        }
        assert forall|i: int, j: int| 0 <= i < j < out@.len() implies before(
            #[trigger] out@[i],
            #[trigger] out@[j],
        ) by {
            assert(found@[i].def < found@[j].def);
        }
    }
    let cs = clobber_points(b);
    let last = entry_ends(b);
    let mut g: usize = 0;
    while g < 16
        invariant
            g <= 16,
            out@.len() <= b.instrs@.len() + g,
            clobbers_ok(b.instrs@, cs@),
            last@.len() == 16,
            forall|r: Reg|
                match #[trigger] last@[r.number_spec() as int] {
                    Some(e) => entry_end(*b, r) == Some(e as int),
                    None => entry_end(*b, r) is None,
                },
            forall|j: int|
                0 <= j < out@.len() ==> range_ok(*b, #[trigger] out@[j]) && rank(out@[j].item) <= g,
            forall|i: int, j: int|
                0 <= i < j < out@.len() ==> before(#[trigger] out@[i], #[trigger] out@[j]),
            forall|v: ValId| #[trigger]
                def_upto(b.instrs@, v, b.instrs@.len() as int) is Some ==> lists(out@, Item::Val(v)),
            forall|r: Reg| #[trigger]
                entry_end(*b, r) is Some && r.number_spec() < g ==> lists(out@, Item::Entry(r)),
        decreases 16 - g,
    {
        let r = GPRS[g];
        let ghost out0 = out@;
        proof {
            assert(r.number_spec() == g);
            assert(last@[r.number_spec() as int] == last@[g as int]);
        }
        if let Some(end) = last[g] {
            let (crosses_call, avoid) = constraints(b, &cs, 0, end);
            let x = Range {
                item: Item::Entry(r),
                def: 0,
                last_use: end,
                crosses_call,
                avoid,
                fixed: Some(r),
            };
            let p = place(&mut out, x);
            proof {
                assert(out@[p as int] == x);
                assert forall|i: int, j: int| 0 <= i < j < out@.len() implies before(
                    #[trigger] out@[i],
                    #[trigger] out@[j],
                ) by {
                    let a = if i < p {
                        i
                    } else {
                        i - 1
                    };
                    let c = if j < p {
                        j
                    } else {
                        j - 1
                    };
                    if i == p {
                        assert(out@[j] == out0[c]);
                        assert(!no_later(out0[c], x));
                    } else if j == p {
                        assert(out@[i] == out0[a]);
                        assert(no_later(out0[a], x));
                        assert(rank(out0[a].item) <= g);
                    } else {
                        assert(out@[i] == out0[a] && out@[j] == out0[c]);
                        assert(before(out0[a], out0[c]));
                    }
                }
                assert forall|j: int| 0 <= j < out@.len() implies range_ok(*b, #[trigger] out@[j])
                    && rank(out@[j].item) <= g + 1 by {
                    if j < p {
                        assert(out@[j] == out0[j]);
                    } else if j > p {
                        assert(out@[j] == out0[j - 1]);
                    }
                }
                assert forall|i: Item| lists(out0, i) implies #[trigger] lists(out@, i) by {
                    let k = choose|k: int| 0 <= k < out0.len() && (#[trigger] out0[k]).item == i;
                    if k < p {
                        assert(out@[k] == out0[k]);
                    } else {
                        assert(out@[k + 1] == out0[k]);
                    }
                }
                assert(lists(out@, Item::Entry(r)));
            }
        }
        proof {
            assert forall|x: Reg| #[trigger]
                entry_end(*b, x) is Some && x.number_spec() < g + 1 implies lists(
                out@,
                Item::Entry(x),
            ) by {
                if x.number_spec() == g {
                    assert(x == r);
                }
            }
        }
        g = g + 1;
    }
    out
}

} // verus!
