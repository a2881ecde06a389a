//! Instructions that are kept as their bytes, and vector moves.

use crate::ir::alu::{fixed, flags_clobbered, made, unmodelled, val, wid};
use crate::ir::decode::{
    text_of, vector_index, xmm_index, Inst, MEMORY, NO_REGISTER, REGISTER, RIP,
};
use crate::ir::event::{BoxedMem, Event};
use crate::ir::expr::{eval, has, Env, Ref};
use crate::ir::fold::lemma_mask;
use crate::ir::lift::{lemma_events_push, lemma_wf_grows, Emulator};
use crate::ir::machine::{
    addressed, forgotten, goes_on, lemma_quiet, loaded, part_value, quiet, reg_written, state_only,
    stored,
};
use crate::ir::mnemonic::{is_silent, sse_move, sse_xor, CPUID, RDMSR, RDTSC, RDTSCP};
use crate::ir::subst::lemma_continues_twice;
use crate::ir::transfer::lemma_goes_on;
use crate::ir::value::{BinOp, Width};
use crate::ir::x86::{decode_reg, effects_of, register_effects, register_part, EAX, EDX};
use crate::vm::state::{xmm_key, XmmHalf};
use vstd::prelude::*;

verus! {

broadcast use vstd::std_specs::hash::group_hash_axioms;

pub const ECX: u32 = 38;

pub const EBX: u32 = 40;

/// A register is read: outright, conditionally, or before being written.
pub open spec fn is_read(access: u32) -> bool {
    access == 1 || access == 2 || access == 5 || access == 6
}

/// Whether an operand's register is a field of the encoding, so that another register can
/// be encoded in its place.
pub open spec fn rewritable(encoding: u32) -> bool {
    (13 <= encoding <= 15) || encoding == 17 || (25 <= encoding <= 40)
}

/// Whether a register is one of the operands that can be encoded anew.
pub open spec fn encoded(inst: Inst, code: u32) -> bool {
    exists|i: int|
        0 <= i < inst.head.op_count && (#[trigger] inst.ops@[i]).kind == REGISTER && rewritable(
            inst.ops@[i].encoding,
        ) && inst.ops@[i].register == code
}

/// Whether a use is an implicit input that has to travel with the instruction.
pub open spec fn implicit_input(inst: Inst, u: (u32, u32)) -> bool {
    is_read(u.1) && u.0 != NO_REGISTER && u.0 != RIP && !encoded(inst, u.0) && register_part(u.0)
        is Some
}

/// The implicit inputs among the first `k` uses, each once.
pub open spec fn inputs_upto(inst: Inst, used: Seq<(u32, u32)>, k: int) -> Seq<u32>
    decreases k,
{
    if k <= 0 {
        Seq::empty()
    } else {
        let before = inputs_upto(inst, used, k - 1);
        if implicit_input(inst, used[k - 1]) && !before.contains(used[k - 1].0) {
            before.push(used[k - 1].0)
        } else {
            before
        }
    }
}

/// The implicit inputs of an instruction.
pub open spec fn inputs_of(inst: Inst) -> Seq<u32> {
    match effects_of(inst.code@, inst.ip) {
        Some(used) => inputs_upto(inst, used, used.len() as int),
        None => Seq::empty(),
    }
}

/// `v` is what a part of a register held: a constant where the register does.
pub open spec fn held_by(m0: Emulator, code: u32, m1: Emulator, v: Ref) -> bool {
    let (base, offset, w) = register_part(code)->0;
    &&& has(m1.arena.nodes@, v)
    &&& wid(m1, v) == w
    &&& forall|e: Env| #[trigger]
        eval(m1.arena.nodes@, v, e) == part_value(val(m0, m0.state.reg(base), e), offset, w)
    &&& fixed(m0, m0.state.reg(base)) ==> fixed(m1, v)
    &&& offset == 0 && w == Width::W64 ==> v == m0.state.reg(base)
}

/// Each of the registers is read.
pub open spec fn inputs_read(m0: Emulator, codes: Seq<u32>, m1: Emulator, uses: Seq<(u32, Ref)>) -> bool {
    &&& quiet(m0, m1)
    &&& uses.len() == codes.len()
    &&& forall|i: int|
        0 <= i < uses.len() ==> (#[trigger] uses[i]).0 == codes[i] && held_by(
            m0,
            codes[i],
            m1,
            uses[i].1,
        )
}

/// The registers an instruction leaves a hardware value in, whatever its encoding.
pub open spec fn outputs_of(mnemonic: u32) -> Seq<u32> {
    if mnemonic == CPUID {
        seq![EAX, EBX, ECX, EDX]
    } else if mnemonic == RDTSC || mnemonic == RDMSR {
        seq![EAX, EDX]
    } else if mnemonic == RDTSCP {
        seq![EAX, EDX, ECX]
    } else {
        Seq::empty()
    }
}

/// `v` is a new value nothing is known of, with the tag.
pub open spec fn unknown_made(m0: Emulator, m1: Emulator, v: Ref, tag: Seq<char>) -> bool {
    &&& quiet(m0, m1)
    &&& has(m1.arena.nodes@, v)
    &&& wid(m1, v) == Width::W64
    &&& unmodelled(m0, 1, m1, v, tag)
}

/// A register is overwritten with a new unknown value.
pub open spec fn reg_clobbered(m0: Emulator, code: u32, m1: Emulator, v: Ref, tag: Seq<char>) -> bool {
    exists|mid: Emulator| #[trigger] unknown_made(m0, mid, v, tag) && reg_written(mid, code, v, m1)
}

/// What the values are tagged that an instruction leaves, whatever its encoding.
pub open spec fn output_tag(mnemonic: u32) -> Seq<char> {
    if mnemonic == CPUID {
        "cpuid"@
    } else if mnemonic == RDMSR {
        "rdmsr"@
    } else {
        "rdtsc"@
    }
}

/// The machines between overwriting one output and the next.
pub open spec fn output_chain(
    ms: Seq<Emulator>,
    codes: Seq<u32>,
    tag: Seq<char>,
    defs: Seq<(u32, Ref)>,
) -> bool {
    &&& ms.len() == codes.len() + 1
    &&& defs.len() == codes.len()
    &&& forall|i: int|
        0 <= i < codes.len() ==> (#[trigger] defs[i]).0 == codes[i] && reg_clobbered(
            ms[i],
            codes[i],
            ms[i + 1],
            defs[i].1,
            tag,
        )
}

/// The outputs are overwritten with unknown values, one after the other, which are listed.
pub open spec fn outputs_written(
    m0: Emulator,
    codes: Seq<u32>,
    tag: Seq<char>,
    m1: Emulator,
    defs: Seq<(u32, Ref)>,
) -> bool {
    exists|ms: Seq<Emulator>| #[trigger]
        output_chain(ms, codes, tag, defs) && ms.first() == m0 && ms.last() == m1
}

/// Nothing is known of a vector register.
pub open spec fn xmm_dropped(xmm: Map<u32, Ref>, x: u8) -> Map<u32, Ref> {
    xmm.remove(xmm_key(x, XmmHalf::Low)).remove(xmm_key(x, XmmHalf::High))
}

/// Nothing but the vector registers differs.
pub open spec fn xmm_only(m0: Emulator, m1: Emulator, xmm: Map<u32, Ref>) -> bool {
    &&& m1.arena == m0.arena
    &&& state_only(m0, m1)
    &&& m1.written_args == m0.written_args
    &&& m1.state.regs@ == m0.state.regs@
    &&& m1.state.flags@ == m0.state.flags@
    &&& m1.state.mem@ == m0.state.mem@
    &&& m1.state.sym_stores@ == m0.state.sym_stores@
    &&& m1.state.xmm@ == xmm
}

/// The first operand is no longer known: the register, the vector register, or the memory.
pub open spec fn destination_clobbered(m0: Emulator, inst: Inst, m1: Emulator) -> bool {
    let o = inst.ops@[0];
    if inst.head.op_count > 0 && o.kind == REGISTER {
        if register_part(o.register) is Some {
            exists|v: Ref| #[trigger] reg_clobbered(m0, o.register, m1, v, "boxed"@)
        } else if xmm_index(o.register) is Some {
            xmm_only(m0, m1, xmm_dropped(m0.state.xmm@, xmm_index(o.register)->0))
        } else if vector_index(o.register) is Some {
            xmm_only(m0, m1, xmm_dropped(m0.state.xmm@, vector_index(o.register)->0))
        } else {
            m1 == m0
        }
    } else if inst.head.op_count > 0 && o.kind == MEMORY {
        exists|mid: Emulator, a: Ref| #[trigger]
            addressed(m0, inst, mid, a) && forgotten(mid, a, inst.head.memory_bytes as u32, m1)
    } else {
        m1 == m0
    }
}

/// What an instruction that is not modelled does: its hardware outputs, or its first
/// operand and the flags, become unknown.
pub open spec fn boxed_effects(m0: Emulator, inst: Inst, m1: Emulator, defs: Seq<(u32, Ref)>) -> bool {
    let outputs = outputs_of(inst.head.mnemonic);
    if outputs.len() > 0 {
        outputs_written(m0, outputs, output_tag(inst.head.mnemonic), m1, defs)
    } else {
        &&& defs.len() == 0
        &&& if is_silent(inst.head.mnemonic) {
            m1 == m0
        } else {
            exists|mid: Emulator| #[trigger]
                destination_clobbered(m0, inst, mid) && if inst.head.flags_modified != 0 {
                    flags_clobbered(mid, m1)
                } else {
                    m1 == mid
                }
        }
    }
}

/// The memory operand as a value, which has to travel with the instruction: the encoding
/// names registers that mean nothing elsewhere.
pub open spec fn boxed_memory(m0: Emulator, inst: Inst, m1: Emulator, mem: Option<BoxedMem>) -> bool {
    if !inst.seg_relative() && inst.touches_memory() {
        mem matches Some(b) && addressed(m0, inst, m1, b.addr) && b.bytes == inst.head.memory_bytes
            as u32 && b.writes == (inst.ops@[0].kind == MEMORY)
    } else {
        mem is None && m1 == m0
    }
}

/// The bytes of the instruction itself.
pub open spec fn own_bytes(inst: Inst) -> Seq<u8> {
    if inst.head.len <= inst.code@.len() {
        inst.code@.take(inst.head.len as int)
    } else {
        Seq::empty()
    }
}

pub open spec fn boxed_steps(
    m0: Emulator,
    inst: Inst,
    ma: Emulator,
    mem: Option<BoxedMem>,
    mb: Emulator,
    uses: Vec<(u32, Ref)>,
    mc: Emulator,
    defs: Vec<(u32, Ref)>,
    text: String,
    bytes: Vec<u8>,
    m1: Emulator,
) -> bool {
    &&& boxed_memory(m0, inst, ma, mem)
    &&& inputs_read(ma, inputs_of(inst), mb, uses@)
    &&& boxed_effects(mb, inst, mc, defs@)
    &&& text@ == text_of(inst.code@, inst.ip)
    &&& bytes@ == own_bytes(inst)
    &&& m1.events@ == mc.events@.push(
        Event::Boxed { site: inst.ip, text, bytes, mem, defs, uses },
    )
    &&& m1 == (Emulator { events: m1.events, ..mc })
}

/// The instruction is recorded with its bytes, its memory operand and its implicit inputs
/// as they were before, and its results become unknown.
pub open spec fn boxes(m0: Emulator, inst: Inst, m1: Emulator) -> bool {
    exists|
        ma: Emulator,
        mem: Option<BoxedMem>,
        mb: Emulator,
        uses: Vec<(u32, Ref)>,
        mc: Emulator,
        defs: Vec<(u32, Ref)>,
        text: String,
        bytes: Vec<u8>,
    | #[trigger]
        boxed_steps(m0, inst, ma, mem, mb, uses, mc, defs, text, bytes, m1)
}

/// Whether a vector instruction is the zeroing idiom.
pub open spec fn clears_vector(inst: Inst) -> Option<u8> {
    if sse_xor(inst.head.mnemonic) && inst.head.op_count == 2 && inst.ops@[0].kind == REGISTER
        && inst.ops@[1].kind == REGISTER && inst.ops@[0].register == inst.ops@[1].register {
        xmm_index(inst.ops@[0].register)
    } else {
        None
    }
}

pub open spec fn half(xmm: Map<u32, Ref>, x: u8, h: XmmHalf) -> Option<Ref> {
    if xmm.dom().contains(xmm_key(x, h)) {
        Some(xmm[xmm_key(x, h)])
    } else {
        None
    }
}

/// How a vector move is modelled.
pub enum VectorMove {
    /// Clear register.
    Clear(u8),
    /// Register from memory, by bytes.
    FromMemory(u8, u32),
    /// Memory from register, by bytes.
    ToMemory(u8, u32),
    /// First register from the second, by bytes.
    Between(u8, u8, u32),
}

/// The vector move an instruction is, where it is one that is modelled: pure movement in
/// 8- and 16-byte units, or the zeroing idiom.
pub open spec fn vector_move_spec(inst: Inst) -> Option<VectorMove> {
    let k0 = inst.ops@[0].kind;
    let k1 = inst.ops@[1].kind;
    let x0 = xmm_index(inst.ops@[0].register);
    let x1 = xmm_index(inst.ops@[1].register);
    if sse_xor(inst.head.mnemonic) {
        match clears_vector(inst) {
            Some(d) => Some(VectorMove::Clear(d)),
            None => None,
        }
    } else {
        match sse_move(inst.head.mnemonic) {
            Some(bytes) => if inst.head.op_count != 2 {
                None
            } else if k0 == REGISTER && k1 == MEMORY && x0 is Some {
                Some(VectorMove::FromMemory(x0->0, bytes))
            } else if k0 == MEMORY && k1 == REGISTER && x1 is Some {
                Some(VectorMove::ToMemory(x1->0, bytes))
            } else if k0 == REGISTER && k1 == REGISTER && x0 is Some && x1 is Some {
                Some(VectorMove::Between(x0->0, x1->0, bytes))
            } else {
                None
            },
            None => None,
        }
    }
}

pub open spec fn zero_made(m0: Emulator, m1: Emulator, z: Ref) -> bool {
    made(m0, m1, true, z, Width::W64, |e: Env| 0u64)
}

pub open spec fn clear_steps(m0: Emulator, d: u8, ma: Emulator, z: Ref, m1: Emulator) -> bool {
    &&& zero_made(m0, ma, z)
    &&& xmm_only(
        ma,
        m1,
        ma.state.xmm@.insert(xmm_key(d, XmmHalf::Low), z).insert(xmm_key(d, XmmHalf::High), z),
    )
}

/// The address eight bytes on.
pub open spec fn next_word(m0: Emulator, a: Ref, m1: Emulator, b: Ref) -> bool {
    made(
        m0,
        m1,
        fixed(m0, a),
        b,
        wid(m0, a).wider(Width::W64),
        |e: Env|
            crate::ir::fold::bin_val(
                BinOp::Add,
                val(m0, a, e),
                8,
                wid(m0, a).wider(Width::W64),
            ),
    )
}

pub open spec fn from_memory_steps(
    m0: Emulator,
    inst: Inst,
    d: u8,
    bytes: u32,
    ma: Emulator,
    a: Ref,
    mb: Emulator,
    lo: Ref,
    mc: Emulator,
    md: Emulator,
    hi: Ref,
    m1: Emulator,
) -> bool {
    &&& addressed(m0, inst, ma, a)
    &&& loaded(ma, a, Width::W64, inst.ip, mb, lo)
    &&& xmm_only(mb, mc, mb.state.xmm@.insert(xmm_key(d, XmmHalf::Low), lo))
    &&& if bytes == 16 {
        exists|mx: Emulator, b: Ref| #[trigger]
            next_word_read(mc, a, mx, b, inst.ip, md, hi)
    } else {
        zero_made(mc, md, hi)
    }
    &&& xmm_only(md, m1, md.state.xmm@.insert(xmm_key(d, XmmHalf::High), hi))
}

pub open spec fn next_word_read(
    m0: Emulator,
    a: Ref,
    mx: Emulator,
    b: Ref,
    site: u64,
    m1: Emulator,
    hi: Ref,
) -> bool {
    next_word(m0, a, mx, b) && loaded(mx, b, Width::W64, site, m1, hi)
}

pub open spec fn next_word_stored(
    m0: Emulator,
    a: Ref,
    mx: Emulator,
    b: Ref,
    hi: Ref,
    site: u64,
    m1: Emulator,
) -> bool {
    next_word(m0, a, mx, b) && stored(mx, b, hi, Width::W64, site, m1)
}

/// Whether what a vector register holds is known as far as a move needs it.
pub open spec fn vector_known(m: Emulator, s: u8, bytes: u32) -> bool {
    half(m.state.xmm@, s, XmmHalf::Low) is Some && (bytes == 16 ==> half(
        m.state.xmm@,
        s,
        XmmHalf::High,
    ) is Some)
}

pub open spec fn to_memory_steps(
    m0: Emulator,
    inst: Inst,
    s: u8,
    bytes: u32,
    ma: Emulator,
    a: Ref,
    mb: Emulator,
    m1: Emulator,
) -> bool {
    &&& addressed(m0, inst, ma, a)
    &&& if !vector_known(m0, s, bytes) {
        forgotten(ma, a, bytes, m1)
    } else {
        &&& stored(ma, a, half(m0.state.xmm@, s, XmmHalf::Low)->0, Width::W64, inst.ip, mb)
        &&& if bytes == 16 {
            exists|mx: Emulator, b: Ref| #[trigger]
                next_word_stored(
                    mb,
                    a,
                    mx,
                    b,
                    half(m0.state.xmm@, s, XmmHalf::High)->0,
                    inst.ip,
                    m1,
                )
        } else {
            m1 == mb
        }
    }
}

/// The registers after the low half is copied: unknown where the source is.
pub open spec fn low_copied(xmm: Map<u32, Ref>, d: u8, s: u8) -> Map<u32, Ref> {
    match half(xmm, s, XmmHalf::Low) {
        Some(lo) => xmm.insert(xmm_key(d, XmmHalf::Low), lo),
        None => xmm_dropped(xmm, d),
    }
}

/// The registers after the high half is copied too. Where it is unknown the whole register
/// is dropped, rather than leave a stale half behind.
pub open spec fn high_copied(xmm: Map<u32, Ref>, d: u8, s: u8) -> Map<u32, Ref> {
    match half(xmm, s, XmmHalf::High) {
        Some(hi) => xmm.insert(xmm_key(d, XmmHalf::High), hi),
        None => xmm_dropped(xmm, d),
    }
}

pub open spec fn between_steps(
    m0: Emulator,
    d: u8,
    s: u8,
    bytes: u32,
    ma: Emulator,
    z: Ref,
    m1: Emulator,
) -> bool {
    let low = low_copied(m0.state.xmm@, d, s);
    if bytes == 16 {
        xmm_only(m0, m1, high_copied(low, d, s))
    } else {
        zero_made(m0, ma, z) && xmm_only(ma, m1, low.insert(xmm_key(d, XmmHalf::High), z))
    }
}

/// A vector register is cleared.
pub open spec fn clears(m0: Emulator, d: u8, m1: Emulator) -> bool {
    exists|ma: Emulator, z: Ref| #[trigger] clear_steps(m0, d, ma, z, m1)
}

/// A vector register is loaded. Eight bytes clear the upper half.
pub open spec fn loads_vector(m0: Emulator, inst: Inst, d: u8, bytes: u32, m1: Emulator) -> bool {
    exists|ma: Emulator, a: Ref, mb: Emulator, lo: Ref, mc: Emulator, md: Emulator, hi: Ref|
     #[trigger]
        from_memory_steps(m0, inst, d, bytes, ma, a, mb, lo, mc, md, hi, m1)
}

/// A vector register is stored. Where it is not known, the memory becomes unknown.
pub open spec fn stores_vector(m0: Emulator, inst: Inst, s: u8, bytes: u32, m1: Emulator) -> bool {
    exists|ma: Emulator, a: Ref, mb: Emulator| #[trigger]
        to_memory_steps(m0, inst, s, bytes, ma, a, mb, m1)
}

/// A vector register is copied. Eight bytes clear the upper half.
pub open spec fn copies_vector(m0: Emulator, d: u8, s: u8, bytes: u32, m1: Emulator) -> bool {
    exists|ma: Emulator, z: Ref| #[trigger] between_steps(m0, d, s, bytes, ma, z, m1)
}

pub open spec fn moves_vector(m0: Emulator, inst: Inst, v: VectorMove, m1: Emulator) -> bool {
    match v {
        VectorMove::Clear(d) => clears(m0, d, m1),
        VectorMove::FromMemory(d, bytes) => loads_vector(m0, inst, d, bytes, m1),
        VectorMove::ToMemory(s, bytes) => stores_vector(m0, inst, s, bytes, m1),
        VectorMove::Between(d, s, bytes) => copies_vector(m0, d, s, bytes, m1),
    }
}

impl Inst {
    /// The vector move this is, where it is one that is modelled.
    pub(crate) fn vector_move(&self) -> (r: Option<VectorMove>)
        requires
            self.wf(),
        ensures
            r == vector_move_spec(*self),
    {
        let m: u32 = self.head.mnemonic;
        let o0 = self.ops[0];
        let o1 = self.ops[1];
        if sse_xor(m) {
            if self.head.op_count == 2 && o0.kind == REGISTER && o1.kind == REGISTER && o0.register
                == o1.register {
                return match xmm_index(o0.register) {
                    Some(d) => Some(VectorMove::Clear(d)),
                    None => None,
                };
            }
            return None;
        }
        let bytes: u32 = match sse_move(m) {
            Some(b) => b,
            None => {
                return None;
            },
        };
        if self.head.op_count != 2 {
            return None;
        }
        if o0.kind == REGISTER && o1.kind == MEMORY {
            return match xmm_index(o0.register) {
                Some(d) => Some(VectorMove::FromMemory(d, bytes)),
                None => None,
            };
        }
        if o0.kind == MEMORY && o1.kind == REGISTER {
            return match xmm_index(o1.register) {
                Some(s) => Some(VectorMove::ToMemory(s, bytes)),
                None => None,
            };
        }
        if o0.kind == REGISTER && o1.kind == REGISTER {
            if let Some(d) = xmm_index(o0.register) {
                if let Some(s) = xmm_index(o1.register) {
                    return Some(VectorMove::Between(d, s, bytes));
                }
            }
        }
        None
    }

    /// Whether a register is one of the operands that can be encoded anew.
    fn encodes(&self, code: u32) -> (r: bool)
        requires
            self.wf(),
        ensures
            r == encoded(*self, code),
    {
        let mut i: usize = 0;
        while i < self.head.op_count as usize
            invariant
                self.wf(),
                i <= self.head.op_count,
                forall|k: int|
                    0 <= k < i ==> !((#[trigger] self.ops@[k]).kind == REGISTER && rewritable(
                        self.ops@[k].encoding,
                    ) && self.ops@[k].register == code),
            decreases self.head.op_count - i,
        {
            let o = self.ops[i];
            let x: u32 = o.encoding;
            let anew: bool = (13 <= x && x <= 15) || x == 17 || (25 <= x && x <= 40);
            if o.kind == REGISTER && anew && o.register == code {
                return true;
            }
            i = i + 1;
        }
        false
    }

    /// The implicit inputs.
    fn inputs(&self) -> (r: Vec<u32>)
        requires
            self.wf(),
        ensures
            r@ == inputs_of(*self),
            forall|k: int| 0 <= k < r@.len() ==> register_part(#[trigger] r@[k]) is Some,
    {
        let used = match register_effects(self.code.as_slice(), self.ip) {
            Some(u) => u,
            None => {
                return Vec::new();
            },
        };
        let mut out: Vec<u32> = Vec::new();
        let mut i: usize = 0;
        while i < used.len()
            invariant
                self.wf(),
                i <= used@.len(),
                out@ == inputs_upto(*self, used@, i as int),
                forall|k: int| 0 <= k < out@.len() ==> register_part(#[trigger] out@[k]) is Some,
            decreases used@.len() - i,
        {
            let (code, access) = used[i];
            let reads: bool = access == 1 || access == 2 || access == 5 || access == 6;
            if reads && code != NO_REGISTER && code != RIP && !self.encodes(code) && decode_reg(
                code,
            ).is_some() && !listed(&out, code) {
                out.push(code);
            }
            i = i + 1;
        }
        out
    }

    fn bytes(&self) -> (r: Vec<u8>)
        ensures
            r@ == own_bytes(*self),
    {
        let mut out: Vec<u8> = Vec::new();
        if self.head.len > self.code.len() {
            return out;
        }
        let mut i: usize = 0;
        while i < self.head.len
            invariant
                i <= self.head.len <= self.code@.len(),
                out@ == self.code@.take(i as int),
            decreases self.head.len - i,
        {
            out.push(self.code[i]);
            i = i + 1;
            proof {
                assert(out@ =~= self.code@.take(i as int));
            }
        }
        out
    }
}

fn listed(codes: &Vec<u32>, code: u32) -> (r: bool)
    ensures
        r == codes@.contains(code),
{
    let mut i: usize = 0;
    while i < codes.len()
        invariant
            i <= codes@.len(),
            forall|k: int| 0 <= k < i ==> #[trigger] codes@[k] != code,
        decreases codes@.len() - i,
    {
        if codes[i] == code {
            return true;
        }
        i = i + 1;
    }
    false
}

proof fn lemma_held_grows(m0: Emulator, code: u32, m1: Emulator, m2: Emulator, v: Ref)
    requires
        held_by(m0, code, m1, v),
        m2.arena.continues(m1.arena),
    ensures
        held_by(m0, code, m2, v),
{
    let (base, offset, w) = register_part(code)->0;
    assert forall|e: Env| #[trigger] eval(m2.arena.nodes@, v, e) == part_value(
        val(m0, m0.state.reg(base), e),
        offset,
        w,
    ) by {
        assert(eval(m2.arena.nodes@, v, e) == eval(m1.arena.nodes@, v, e));
    }
}

impl<'a> Emulator<'a> {
    fn boxed_uses(&mut self, inst: &Inst) -> (uses: Vec<(u32, Ref)>)
        requires
            old(self).wf(),
            inst.wf(),
        ensures
            goes_on(*old(self), *final(self)),
            inputs_read(*old(self), inputs_of(*inst), *final(self), uses@),
    {
        let ghost m0 = *self;
        let codes = inst.inputs();
        let mut uses: Vec<(u32, Ref)> = Vec::new();
        let mut i: usize = 0;
        while i < codes.len()
            invariant
                i <= codes@.len(),
                uses@.len() == i,
                m0.wf(),
                self.wf(),
                quiet(m0, *self),
                forall|k: int|
                    0 <= k < codes@.len() ==> register_part(#[trigger] codes@[k]) is Some,
                forall|k: int|
                    0 <= k < i ==> (#[trigger] uses@[k]).0 == codes@[k] && held_by(
                        m0,
                        codes@[k],
                        *self,
                        uses@[k].1,
                    ),
            decreases codes@.len() - i,
        {
            let ghost before = *self;
            let ghost listed = uses@;
            let code: u32 = codes[i];
            let v = self.read_reg(code);
            proof {
                crate::ir::machine::lemma_quiet_twice(m0, before, *self);
                let base = (register_part(code)->0).0;
                assert(has(m0.arena.nodes@, m0.state.regs@[base.number() as int]));
                assert(held_by(m0, code, *self, v)) by {
                    assert forall|e: Env| #[trigger] eval(self.arena.nodes@, v, e) == part_value(
                        val(m0, m0.state.reg(base), e),
                        (register_part(code)->0).1,
                        (register_part(code)->0).2,
                    ) by {
                        assert(eval(before.arena.nodes@, m0.state.reg(base), e) == val(
                            m0,
                            m0.state.reg(base),
                            e,
                        ));
                    }
                }
                assert forall|k: int| 0 <= k < i implies held_by(
                    m0,
                    codes@[k],
                    *self,
                    (#[trigger] listed[k]).1,
                ) by {
                    lemma_held_grows(m0, codes@[k], before, *self, listed[k].1);
                }
            }
            uses.push((code, v));
            i = i + 1;
        }
        uses
    }

    /// Overwrite a register with an unknown value.
    fn clobber_part(&mut self, code: u32, tag: &'static str) -> (v: Ref)
        requires
            old(self).wf(),
        ensures
            goes_on(*old(self), *final(self)),
            reg_clobbered(*old(self), code, *final(self), v, tag@),
            final(self).arena.holds(v),
    {
        let ghost m0 = *self;
        let v = self.arena.opaque(tag, Width::W64);
        let ghost mid = *self;
        proof {
            lemma_quiet(m0, mid);
        }
        self.write_reg(code, v);
        proof {
            assert(unknown_made(m0, mid, v, tag@));
            lemma_goes_on(m0, mid, *self);
        }
        v
    }

    fn write_outputs(&mut self, codes: &Vec<u32>, tag: &'static str) -> (defs: Vec<(u32, Ref)>)
        requires
            old(self).wf(),
        ensures
            goes_on(*old(self), *final(self)),
            outputs_written(*old(self), codes@, tag@, *final(self), defs@),
            forall|k: int|
                0 <= k < defs@.len() ==> has(final(self).arena.nodes@, (#[trigger] defs@[k]).1),
    {
        let ghost m0 = *self;
        let mut defs: Vec<(u32, Ref)> = Vec::new();
        let mut i: usize = 0;
        let ghost mut ms: Seq<Emulator> = seq![m0];
        proof {
            lemma_quiet(m0, m0);
        }
        while i < codes.len()
            invariant
                i <= codes@.len(),
                goes_on(m0, *self),
                output_chain(ms, codes@.take(i as int), tag@, defs@),
                ms.first() == m0,
                ms.last() == *self,
                forall|k: int|
                    0 <= k < defs@.len() ==> has(self.arena.nodes@, (#[trigger] defs@[k]).1),
            decreases codes@.len() - i,
        {
            let ghost before = *self;
            let ghost listed = defs@;
            let v = self.clobber_part(codes[i], tag);
            defs.push((codes[i], v));
            proof {
                lemma_goes_on(m0, before, *self);
                let before_ms = ms;
                ms = ms.push(*self);
                let now = codes@.take(i + 1);
                assert forall|k: int| 0 <= k < now.len() implies (#[trigger] defs@[k]).0 == now[k]
                    && reg_clobbered(ms[k], now[k], ms[k + 1], defs@[k].1, tag@) by {
                    assert(ms[k] == before_ms[k]);
                    if k < i {
                        assert(defs@[k] == listed[k]);
                        assert(ms[k + 1] == before_ms[k + 1]);
                        assert(codes@.take(i as int)[k] == now[k]);
                    } else {
                        assert(before_ms[k] == before);
                    }
                }
                assert forall|k: int| 0 <= k < defs@.len() implies has(
                    self.arena.nodes@,
                    (#[trigger] defs@[k]).1,
                ) by {
                    if k < listed.len() {
                        assert(defs@[k] == listed[k]);
                    }
                }
            }
            i = i + 1;
        }
        proof {
            assert(codes@.take(codes@.len() as int) =~= codes@);
            assert(output_chain(ms, codes@, tag@, defs@));
        }
        defs
    }

    /// Drop all knowledge of a vector register.
    fn drop_vector(&mut self, x: u8)
        requires
            old(self).wf(),
        ensures
            goes_on(*old(self), *final(self)),
            xmm_only(*old(self), *final(self), xmm_dropped(old(self).state.xmm@, x)),
    {
        let ghost m0 = *self;
        self.state.forget_xmm(x);
        proof {
            lemma_wf_grows(m0, *self);
        }
    }

    fn put_vector(&mut self, x: u8, h: XmmHalf, v: Ref)
        requires
            old(self).wf(),
            old(self).arena.holds(v),
            old(self).arena.width(v) == Width::W64,
        ensures
            goes_on(*old(self), *final(self)),
            xmm_only(
                *old(self),
                *final(self),
                old(self).state.xmm@.insert(xmm_key(x, h), v),
            ),
    {
        let ghost m0 = *self;
        self.state.set_xmm(x, h, v);
        proof {
            lemma_wf_grows(m0, *self);
        }
    }

    fn clobber_destination(&mut self, inst: &Inst)
        requires
            old(self).wf(),
            inst.wf(),
        ensures
            goes_on(*old(self), *final(self)),
            destination_clobbered(*old(self), *inst, *final(self)),
    {
        let ghost m0 = *self;
        proof {
            lemma_quiet(m0, m0);
        }
        if inst.head.op_count == 0 {
            return;
        }
        let o = inst.ops[0];
        if o.kind == REGISTER {
            if decode_reg(o.register).is_some() {
                let v = self.clobber_part(o.register, "boxed");
                proof {
                    assert(reg_clobbered(m0, o.register, *self, v, "boxed"@));
                }
            } else if let Some(x) = xmm_index(o.register) {
                self.drop_vector(x);
            } else if let Some(x) = vector_index(o.register) {
                self.drop_vector(x);
            }
        } else if o.kind == MEMORY {
            let a = self.mem_address(inst);
            let ghost mid = *self;
            self.forget_memory(a, inst.head.memory_bytes as u32);
            proof {
                assert(addressed(m0, *inst, mid, a));
                lemma_goes_on(m0, mid, *self);
            }
        }
    }

    /// Make the results of an instruction that is not modelled unknown, returning the
    /// registers it leaves a hardware value in.
    fn apply_boxed_effects(&mut self, inst: &Inst) -> (defs: Vec<(u32, Ref)>)
        requires
            old(self).wf(),
            inst.wf(),
        ensures
            goes_on(*old(self), *final(self)),
            boxed_effects(*old(self), *inst, *final(self), defs@),
            forall|k: int|
                0 <= k < defs@.len() ==> has(final(self).arena.nodes@, (#[trigger] defs@[k]).1),
    {
        let ghost m0 = *self;
        let m: u32 = inst.head.mnemonic;
        if m == CPUID {
            let codes: Vec<u32> = vec![EAX, EBX, ECX, EDX];
            proof {
                assert(codes@ =~= outputs_of(m));
            }
            return self.write_outputs(&codes, "cpuid");
        }
        if m == RDTSC {
            let codes: Vec<u32> = vec![EAX, EDX];
            proof {
                assert(codes@ =~= outputs_of(m));
            }
            return self.write_outputs(&codes, "rdtsc");
        }
        if m == RDTSCP {
            let codes: Vec<u32> = vec![EAX, EDX, ECX];
            proof {
                assert(codes@ =~= outputs_of(m));
            }
            return self.write_outputs(&codes, "rdtsc");
        }
        if m == RDMSR {
            let codes: Vec<u32> = vec![EAX, EDX];
            proof {
                assert(codes@ =~= outputs_of(m));
            }
            return self.write_outputs(&codes, "rdmsr");
        }
        proof {
            lemma_quiet(m0, m0);
        }
        if is_silent(m) {
            return Vec::new();
        }
        self.clobber_destination(inst);
        let ghost mid = *self;
        if inst.head.flags_modified != 0 {
            self.clobber_arith_flags();
        }
        proof {
            assert(destination_clobbered(m0, *inst, mid));
            lemma_goes_on(m0, mid, *self);
        }
        Vec::new()
    }

    fn read_boxed_memory(&mut self, inst: &Inst) -> (mem: Option<BoxedMem>)
        requires
            old(self).wf(),
            inst.wf(),
        ensures
            goes_on(*old(self), *final(self)),
            boxed_memory(*old(self), *inst, *final(self), mem),
            mem matches Some(b) ==> final(self).arena.holds(b.addr),
    {
        let ghost m0 = *self;
        if inst.plain_memory() {
            let writes: bool = inst.ops[0].kind == MEMORY;
            let addr = self.mem_address(inst);
            Some(BoxedMem { addr, bytes: inst.head.memory_bytes as u32, writes })
        } else {
            proof {
                lemma_quiet(m0, m0);
            }
            None
        }
    }

    /// Record an instruction verbatim and make its effects unknown.
    pub(crate) fn box_instruction(&mut self, inst: &Inst)
        requires
            old(self).wf(),
            inst.wf(),
        ensures
            goes_on(*old(self), *final(self)),
            boxes(*old(self), *inst, *final(self)),
    {
        let ghost m0 = *self;
        let text = inst.text();
        let mem = self.read_boxed_memory(inst);
        let ghost ma = *self;
        let bytes = inst.bytes();
        let uses = self.boxed_uses(inst);
        let ghost mb = *self;
        let defs = self.apply_boxed_effects(inst);
        let ghost mc = *self;
        let ghost (u, d, t, b) = (uses, defs, text, bytes);
        let event = Event::Boxed { site: inst.ip, text, bytes, mem, defs, uses };
        proof {
            lemma_goes_on(m0, ma, mb);
            lemma_goes_on(m0, mb, mc);
            lemma_continues_twice(ma.arena, mb.arena, mc.arena);
            assert forall|k: int| 0 <= k < u@.len() implies has(
                mc.arena.nodes@,
                (#[trigger] u@[k]).1,
            ) by {
                assert(has(mb.arena.nodes@, u@[k].1));
            }
            lemma_events_push(self.events@, event, self.arena.nodes@);
        }
        self.events.push(event);
        proof {
            assert(boxed_steps(m0, *inst, ma, mem, mb, u, mc, d, t, b, *self));
            lemma_goes_on(m0, mc, *self);
        }
    }

    fn zero_word(&mut self) -> (z: Ref)
        requires
            old(self).wf(),
        ensures
            goes_on(*old(self), *final(self)),
            zero_made(*old(self), *final(self), z),
    {
        let ghost m0 = *self;
        let z = self.arena.constant(0, Width::W64);
        proof {
            lemma_mask(0, Width::W64.mask());
            lemma_quiet(m0, *self);
        }
        z
    }

    fn word_after(&mut self, a: Ref) -> (b: Ref)
        requires
            old(self).wf(),
            old(self).arena.holds(a),
        ensures
            goes_on(*old(self), *final(self)),
            next_word(*old(self), a, *final(self), b),
    {
        let ghost m0 = *self;
        let ghost n0 = self.arena.nodes@;
        let eight = self.arena.constant(8, Width::W64);
        let ghost a1 = self.arena;
        let b = self.arena.bin(BinOp::Add, a, eight);
        proof {
            lemma_mask(8, Width::W64.mask());
            lemma_continues_twice(m0.arena, a1, self.arena);
            lemma_quiet(m0, *self);
            let n2 = self.arena.nodes@;
            assert forall|e: Env| #[trigger] eval(n2, b, e) == crate::ir::fold::bin_val(
                BinOp::Add,
                val(m0, a, e),
                8,
                wid(m0, a).wider(Width::W64),
            ) by {
                assert(eval(n2, b, e) == crate::ir::simplify::bin_at(n2, BinOp::Add, a, eight, e));
                assert(eval(n2, a, e) == eval(n0, a, e));
                assert(eval(n2, eight, e) == eval(a1.nodes@, eight, e));
            }
        }
        b
    }

    fn load_vector(&mut self, inst: &Inst, d: u8, bytes: u32)
        requires
            old(self).wf(),
            inst.wf(),
        ensures
            goes_on(*old(self), *final(self)),
            loads_vector(*old(self), *inst, d, bytes, *final(self)),
    {
        let ghost m0 = *self;
        let a = self.mem_address(inst);
        let ghost ma = *self;
        let lo = self.load(a, Width::W64, inst.ip);
        let ghost mb = *self;
        self.put_vector(d, XmmHalf::Low, lo);
        let ghost mc = *self;
        proof {
            lemma_goes_on(m0, ma, mb);
            lemma_goes_on(m0, mb, mc);
        }
        let hi = if bytes == 16 {
            let b = self.word_after(a);
            let ghost mx = *self;
            let hi = self.load(b, Width::W64, inst.ip);
            proof {
                lemma_goes_on(m0, mc, mx);
                lemma_goes_on(m0, mx, *self);
                assert(next_word_read(mc, a, mx, b, inst.ip, *self, hi));
            }
            hi
        } else {
            let z = self.zero_word();
            proof {
                lemma_goes_on(m0, mc, *self);
            }
            z
        };
        let ghost md = *self;
        self.put_vector(d, XmmHalf::High, hi);
        proof {
            lemma_goes_on(m0, md, *self);
            assert(from_memory_steps(m0, *inst, d, bytes, ma, a, mb, lo, mc, md, hi, *self));
        }
    }

    fn store_vector(&mut self, inst: &Inst, s: u8, bytes: u32)
        requires
            old(self).wf(),
            inst.wf(),
        ensures
            goes_on(*old(self), *final(self)),
            stores_vector(*old(self), *inst, s, bytes, *final(self)),
    {
        let ghost m0 = *self;
        let lo = self.state.xmm(s, XmmHalf::Low);
        let hi = self.state.xmm(s, XmmHalf::High);
        let a = self.mem_address(inst);
        let ghost ma = *self;
        let low = match lo {
            Some(l) => l,
            None => {
                self.forget_memory(a, bytes);
                proof {
                    lemma_goes_on(m0, ma, *self);
                    assert(to_memory_steps(m0, *inst, s, bytes, ma, a, ma, *self));
                }
                return;
            },
        };
        if bytes != 16 {
            self.store(a, low, Width::W64, inst.ip);
            proof {
                lemma_goes_on(m0, ma, *self);
                assert(to_memory_steps(m0, *inst, s, bytes, ma, a, *self, *self));
            }
            return;
        }
        let high = match hi {
            Some(h) => h,
            None => {
                self.forget_memory(a, bytes);
                proof {
                    lemma_goes_on(m0, ma, *self);
                    assert(to_memory_steps(m0, *inst, s, bytes, ma, a, ma, *self));
                }
                return;
            },
        };
        self.store(a, low, Width::W64, inst.ip);
        let ghost mb = *self;
        let b = self.word_after(a);
        let ghost mx = *self;
        self.store(b, high, Width::W64, inst.ip);
        proof {
            lemma_goes_on(m0, ma, mb);
            lemma_goes_on(m0, mb, mx);
            lemma_goes_on(m0, mx, *self);
            assert(next_word_stored(mb, a, mx, b, high, inst.ip, *self));
            assert(to_memory_steps(m0, *inst, s, bytes, ma, a, mb, *self));
        }
    }

    fn copy_vector(&mut self, d: u8, s: u8, bytes: u32)
        requires
            old(self).wf(),
        ensures
            goes_on(*old(self), *final(self)),
            copies_vector(*old(self), d, s, bytes, *final(self)),
    {
        let ghost m0 = *self;
        match self.state.xmm(s, XmmHalf::Low) {
            Some(lo) => self.put_vector(d, XmmHalf::Low, lo),
            None => self.drop_vector(d),
        }
        let ghost m1 = *self;
        if bytes == 16 {
            match self.state.xmm(s, XmmHalf::High) {
                Some(hi) => self.put_vector(d, XmmHalf::High, hi),
                None => self.drop_vector(d),
            }
            proof {
                lemma_goes_on(m0, m1, *self);
                assert(between_steps(m0, d, s, bytes, m0, crate::ir::expr::Ref { idx: 0 }, *self));
            }
        } else {
            let z = self.zero_word();
            let ghost ma = *self;
            self.put_vector(d, XmmHalf::High, z);
            proof {
                lemma_goes_on(m0, m1, ma);
                lemma_goes_on(m0, ma, *self);
                let mid = Emulator { state: m0.state, ..ma };
                assert(zero_made(m0, mid, z));
                assert(between_steps(m0, d, s, bytes, mid, z, *self));
            }
        }
    }

    /// Model a vector move.
    pub(crate) fn step_vector(&mut self, inst: &Inst, v: VectorMove)
        requires
            old(self).wf(),
            inst.wf(),
        ensures
            goes_on(*old(self), *final(self)),
            moves_vector(*old(self), *inst, v, *final(self)),
    {
        let ghost m0 = *self;
        match v {
            VectorMove::Clear(d) => {
                let z = self.zero_word();
                let ghost ma = *self;
                self.put_vector(d, XmmHalf::Low, z);
                let ghost mb = *self;
                self.put_vector(d, XmmHalf::High, z);
                proof {
                    lemma_goes_on(m0, ma, mb);
                    lemma_goes_on(m0, mb, *self);
                    assert(clear_steps(m0, d, ma, z, *self));
                }
            },
            VectorMove::FromMemory(d, bytes) => self.load_vector(inst, d, bytes),
            VectorMove::ToMemory(s, bytes) => self.store_vector(inst, s, bytes),
            VectorMove::Between(d, s, bytes) => self.copy_vector(d, s, bytes),
        }
    }
}

} // verus!
