//! Machine instructions as plain values.

use crate::vm::image::{Image};
use crate::ir::value::Width;
use iced_x86::{Decoder, DecoderOptions, Formatter, IntelFormatter};
use vstd::prelude::*;

verus! {

/// Operand kinds, by the decoder's numbers.
pub const REGISTER: u32 = 0;

pub const NEAR_BRANCH_16: u32 = 1;

pub const NEAR_BRANCH_64: u32 = 3;

pub const IMMEDIATE_8: u32 = 6;

pub const IMMEDIATE_8_2ND: u32 = 7;

pub const IMMEDIATE_16: u32 = 8;

pub const IMMEDIATE_32: u32 = 9;

pub const IMMEDIATE_64: u32 = 10;

pub const IMMEDIATE_8_TO_16: u32 = 11;

pub const IMMEDIATE_8_TO_32: u32 = 12;

pub const IMMEDIATE_8_TO_64: u32 = 13;

pub const IMMEDIATE_32_TO_64: u32 = 14;

pub const MEMORY: u32 = 24;

/// Registers with a part of their own here, by the decoder's numbers.
pub const NO_REGISTER: u32 = 0;

pub const EIP: u32 = 69;

pub const RIP: u32 = 70;

pub const FS: u32 = 75;

pub const GS: u32 = 76;

pub const XMM_FIRST: u32 = 77;

pub const YMM_FIRST: u32 = 109;

pub const ZMM_FIRST: u32 = 141;

pub const ZMM_END: u32 = 173;

/// What an instruction is, apart from its operands. Registers and the mnemonic are the
/// decoder's numbers.
#[derive(Debug, Clone, Copy, PartialEq, Eq, Structural)]
pub struct Head {
    pub mnemonic: u32,
    pub len: usize,
    pub next_ip: u64,
    pub op_count: u32,
    pub segment: u32,
    pub base: u32,
    pub index: u32,
    pub scale: u32,
    pub displacement: u64,
    pub memory_bytes: usize,
    pub flags_modified: u32,
    pub branch_target: u64,
}

/// One operand. The immediate is sign-extended where the encoding says so, and zero for
/// an operand that is none. The encoding is how the operand is written in the opcode.
#[derive(Debug, Clone, Copy, PartialEq, Eq, Structural)]
pub struct Oper {
    pub kind: u32,
    pub register: u32,
    pub register_bytes: usize,
    pub immediate: u64,
    pub encoding: u32,
}

/// What `iced_x86::Decoder::decode` reads from `bytes` in 64-bit mode at address `ip`.
/// `None` where the bytes are not an instruction.
pub uninterp spec fn head_of(bytes: Seq<u8>, ip: u64) -> Option<Head>;

/// Operand `i` of the instruction `iced_x86::Decoder::decode` reads from `bytes`.
pub uninterp spec fn operand_of(bytes: Seq<u8>, ip: u64, i: u32) -> Oper;

/// What `iced_x86::IntelFormatter` prints for the instruction that
/// `iced_x86::Decoder::decode` reads from `bytes`.
pub uninterp spec fn text_of(bytes: Seq<u8>, ip: u64) -> Seq<char>;

/// `iced_x86::Decoder::decode` on `bytes` in 64-bit mode at address `ip`, with what
/// `iced_x86::Instruction` reports of the result. It is claimed to depend on the bytes
/// and the address alone, to be missing exactly when the decoder calls the instruction
/// invalid, and to have at most five operands.
#[verifier::external_body]
fn decode_head(bytes: &[u8], ip: u64) -> (r: Option<Head>)
    ensures
        r == head_of(bytes@, ip),
        r matches Some(h) ==> h.op_count <= 5,
{
    let inst = Decoder::with_ip(64, bytes, ip, DecoderOptions::NONE).decode();
    let head = Head {
        mnemonic: inst.mnemonic() as u32, len: inst.len(), next_ip: inst.next_ip(),
        op_count: inst.op_count(), segment: inst.segment_prefix() as u32,
        base: inst.memory_base() as u32, index: inst.memory_index() as u32,
        scale: inst.memory_index_scale(), displacement: inst.memory_displacement64(),
        memory_bytes: inst.memory_size().size(), flags_modified: inst.rflags_modified(),
        branch_target: inst.near_branch_target(),
    };
    if inst.is_invalid() { None } else { Some(head) }
}

/// Operand `i` of the instruction `iced_x86::Decoder::decode` reads from `bytes` in
/// 64-bit mode at address `ip`: `Instruction::op_kind`, `op_register`, `try_immediate` and
/// `OpCodeInfo::op_kinds`. It is claimed to depend on the bytes, the address and the
/// operand's number alone.
#[verifier::external_body]
fn decode_operand(bytes: &[u8], ip: u64, i: u32) -> (r: Oper)
    requires
        i < 5,
    ensures
        r == operand_of(bytes@, ip, i),
{
    let inst = Decoder::with_ip(64, bytes, ip, DecoderOptions::NONE).decode();
    Oper {
        kind: inst.op_kind(i) as u32,
        register: inst.op_register(i) as u32,
        register_bytes: inst.op_register(i).size(),
        immediate: inst.try_immediate(i).unwrap_or(0),
        encoding: inst.op_code().op_kinds().get(i as usize).map_or(0, |k| *k as u32),
    }
}

/// `iced_x86::IntelFormatter` on the instruction that `iced_x86::Decoder::decode` reads
/// from `bytes` in 64-bit mode at address `ip`. The text is claimed to depend on the
/// bytes and the address alone.
#[verifier::external_body]
fn instruction_text(bytes: &[u8], ip: u64) -> (r: String)
    ensures
        r@ == text_of(bytes@, ip),
{
    let inst = Decoder::with_ip(64, bytes, ip, DecoderOptions::NONE).decode();
    let mut text = String::new();
    IntelFormatter::new().format(&inst, &mut text);
    text
}

/// A decoded instruction with the bytes it was decoded from.
#[derive(Debug)]
pub struct Inst {
    pub ip: u64,
    /// The code from `ip` on that the decoder was given.
    pub code: Vec<u8>,
    pub head: Head,
    /// The five operand places; those past the count are unused.
    pub ops: Vec<Oper>,
}

impl Inst {
    /// The fields are what the decoder makes of the code.
    pub open spec fn wf(self) -> bool {
        &&& head_of(self.code@, self.ip) == Some(self.head)
        &&& self.head.op_count <= 5
        &&& self.ops@.len() == 5
        &&& forall|i: int|
            0 <= i < 5 ==> #[trigger] self.ops@[i] == operand_of(self.code@, self.ip, i as u32)
    }

    /// Whether one of the operands is in memory.
    pub open spec fn touches_memory(self) -> bool {
        exists|i: int| 0 <= i < self.head.op_count && (#[trigger] self.ops@[i]).kind == MEMORY
    }

    /// Whether the instruction has an FS- or GS-relative memory operand. The other
    /// segments contribute no base in long mode.
    pub open spec fn seg_relative_spec(&self) -> bool {
        (self.head.segment == FS || self.head.segment == GS) && self.touches_memory()
    }

    /// The target of a direct branch.
    pub open spec fn direct_target_spec(&self) -> Option<u64> {
        if NEAR_BRANCH_16 <= self.ops@[0].kind <= NEAR_BRANCH_64 {
            Some(self.head.branch_target)
        } else {
            None
        }
    }

    /// Width of an operand, the machine's own where no width covers it.
    pub open spec fn op_width_spec(&self, op: int) -> Width {
        let o = self.ops@[op];
        let n: int = if o.kind == REGISTER {
            o.register_bytes as u32 as int
        } else if o.kind == MEMORY {
            self.head.memory_bytes as u32 as int
        } else if o.kind == IMMEDIATE_8 || o.kind == IMMEDIATE_8_2ND {
            1
        } else if o.kind == IMMEDIATE_16 || o.kind == IMMEDIATE_8_TO_16 {
            2
        } else if o.kind == IMMEDIATE_32 || o.kind == IMMEDIATE_8_TO_32 {
            4
        } else {
            8
        };
        width_or_word(n)
    }

    /// The code bytes decode to an instruction, which this is.
    pub fn decode(code: Vec<u8>, ip: u64) -> (r: Option<Inst>)
        ensures
            match r {
                Some(inst) => inst.wf() && inst.ip == ip && inst.code@ == code@,
                None => head_of(code@, ip) is None,
            },
    {
        let head = match decode_head(code.as_slice(), ip) {
            Some(h) => h,
            None => {
                return None;
            },
        };
        let mut ops: Vec<Oper> = Vec::new();
        let mut i: u32 = 0;
        while i < 5
            invariant
                i <= 5,
                ops@.len() == i,
                forall|k: int|
                    0 <= k < i ==> #[trigger] ops@[k] == operand_of(code@, ip, k as u32),
            decreases 5 - i,
        {
            ops.push(decode_operand(code.as_slice(), ip, i));
            i = i + 1;
        }
        Some(Inst { ip, code, head, ops })
    }

    fn has_memory(&self) -> (r: bool)
        requires
            self.wf(),
        ensures
            r == self.touches_memory(),
    {
        let mut i: usize = 0;
        while i < self.head.op_count as usize
            invariant
                self.wf(),
                i <= self.head.op_count,
                forall|k: int| 0 <= k < i ==> (#[trigger] self.ops@[k]).kind != MEMORY,
            decreases self.head.op_count - i,
        {
            if self.ops[i].kind == MEMORY {
                return true;
            }
            i = i + 1;
        }
        false
    }

    #[verifier::when_used_as_spec(seg_relative_spec)]
    pub fn seg_relative(&self) -> (r: bool)
        requires
            self.wf(),
        ensures
            r == self.seg_relative_spec(),
    {
        (self.head.segment == FS || self.head.segment == GS) && self.has_memory()
    }

    /// Whether the address of the instruction's memory operand does without a segment
    /// base.
    pub fn plain_memory(&self) -> (r: bool)
        requires
            self.wf(),
        ensures
            r == (!self.seg_relative() && self.touches_memory()),
    {
        !self.seg_relative() && self.has_memory()
    }

    #[verifier::when_used_as_spec(direct_target_spec)]
    pub fn direct_target(&self) -> (r: Option<u64>)
        requires
            self.wf(),
        ensures
            r == self.direct_target_spec(),
    {
        let kind: u32 = self.ops[0].kind;
        if NEAR_BRANCH_16 <= kind && kind <= NEAR_BRANCH_64 {
            Some(self.head.branch_target)
        } else {
            None
        }
    }

    /// Width of operand `op`.
    pub fn op_width(&self, op: usize) -> (w: Width)
        requires
            self.wf(),
            op < 5,
        ensures
            w == self.op_width_spec(op as int),
    {
        let o = self.ops[op];
        let n: u32 = if o.kind == REGISTER {
            o.register_bytes as u32
        } else if o.kind == MEMORY {
            self.head.memory_bytes as u32
        } else if o.kind == IMMEDIATE_8 || o.kind == IMMEDIATE_8_2ND {
            1
        } else if o.kind == IMMEDIATE_16 || o.kind == IMMEDIATE_8_TO_16 {
            2
        } else if o.kind == IMMEDIATE_32 || o.kind == IMMEDIATE_8_TO_32 {
            4
        } else {
            8
        };
        match Width::from_bytes(n) {
            Some(w) => w,
            None => Width::W64,
        }
    }

    /// Width of the memory operand.
    pub fn memory_width(&self) -> (w: Width)
        ensures
            w == width_or_word(self.head.memory_bytes as u32 as int),
    {
        match Width::from_bytes(self.head.memory_bytes as u32) {
            Some(w) => w,
            None => Width::W64,
        }
    }

    /// The instruction in the Intel syntax.
    pub fn text(&self) -> (r: String)
        ensures
            r@ == text_of(self.code@, self.ip),
    {
        instruction_text(self.code.as_slice(), self.ip)
    }
}

/// The width of so many bytes, or the machine's own where there is none.
pub open spec fn width_or_word(n: int) -> Width {
    if n == 1 {
        Width::W8
    } else if n == 2 {
        Width::W16
    } else if n == 4 {
        Width::W32
    } else {
        Width::W64
    }
}

/// Number of an XMM register.
pub open spec fn xmm_index_spec(reg: u32) -> Option<u8> {
    if XMM_FIRST <= reg < YMM_FIRST {
        Some((reg - XMM_FIRST) as u8)
    } else {
        None
    }
}

/// Number of an XMM register, or `None` where it is another register.
#[verifier::when_used_as_spec(xmm_index_spec)]
pub fn xmm_index(reg: u32) -> (r: Option<u8>)
    ensures
        r == xmm_index_spec(reg),
{
    if XMM_FIRST <= reg && reg < YMM_FIRST {
        Some((reg - XMM_FIRST) as u8)
    } else {
        None
    }
}

/// Number of the XMM register whose contents a wider vector register holds.
pub open spec fn vector_index_spec(reg: u32) -> Option<u8> {
    if YMM_FIRST <= reg < ZMM_FIRST {
        Some((reg - YMM_FIRST) as u8)
    } else if ZMM_FIRST <= reg < ZMM_END {
        Some((reg - ZMM_FIRST) as u8)
    } else {
        None
    }
}

/// Number of the XMM register whose contents a wider vector register holds.
#[verifier::when_used_as_spec(vector_index_spec)]
pub fn vector_index(reg: u32) -> (r: Option<u8>)
    ensures
        r == vector_index_spec(reg),
{
    if YMM_FIRST <= reg && reg < ZMM_FIRST {
        Some((reg - YMM_FIRST) as u8)
    } else if ZMM_FIRST <= reg && reg < ZMM_END {
        Some((reg - ZMM_FIRST) as u8)
    } else {
        None
    }
}

/// Longest instruction.
pub const MAX_INSTRUCTION: usize = 15;

/// The code the decoder is given for an address.
pub open spec fn code_at(pe: Image, ip: u64) -> Option<Seq<u8>> {
    pe.code_spec(ip, MAX_INSTRUCTION as int)
}

/// Whether an instruction is what is found at an address.
pub open spec fn decodes_to(pe: Image, ip: u64, inst: Option<Inst>) -> bool {
    match inst {
        Some(i) => code_at(pe, ip) == Some(i.code@) && i.ip == ip && i.wf(),
        None => code_at(pe, ip) matches Some(code) ==> head_of(code, ip) is None,
    }
}

/// The mnemonic of the instruction at an address.
pub open spec fn mnemonic_at(pe: Image, ip: u64) -> Option<u32> {
    match code_at(pe, ip) {
        Some(code) => match head_of(code, ip) {
            Some(h) => Some(h.mnemonic),
            None => None,
        },
        None => None,
    }
}

/// The instruction at an address of the image, or `None` where there is no code or the
/// bytes are not an instruction.
pub fn decode_at(pe: &Image, ip: u64) -> (r: Option<Inst>)
    ensures
        decodes_to(*pe, ip, r),
{
    match pe.code(ip, MAX_INSTRUCTION) {
        Some(code) => Inst::decode(code, ip),
        None => None,
    }
}

} // verus!
