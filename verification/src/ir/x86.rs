//! Register numbers and effects of machine instructions, as the decoder reports them.

use crate::ir::value::{Reg, Width};
use iced_x86::{Decoder, DecoderOptions, InstructionInfoFactory};
use vstd::prelude::*;

verus! {

/// First of the byte registers `al, cl, dl, bl` in the decoder's register numbering.
pub const AL: u32 = 1;

/// First of the high byte registers `ah, ch, dh, bh`.
pub const AH: u32 = 5;

/// First of the byte registers `spl` to `r15b`, in encoding order from register 4 on.
pub const SPL: u32 = 9;

pub const AX: u32 = 21;

pub const DX: u32 = 23;

pub const EAX: u32 = 37;

pub const EDX: u32 = 39;

pub const RAX: u32 = 53;

pub const RDX: u32 = 55;

/// One past `r15`.
pub const GPR_END: u32 = 69;

/// A register is written: outright, conditionally, or after being read.
pub open spec fn is_write(access: u32) -> bool {
    3 <= access <= 6
}

/// The register with a hardware encoding.
pub open spec fn gpr(n: u32) -> Reg {
    match n {
        0 => Reg::Rax,
        1 => Reg::Rcx,
        2 => Reg::Rdx,
        3 => Reg::Rbx,
        4 => Reg::Rsp,
        5 => Reg::Rbp,
        6 => Reg::Rsi,
        7 => Reg::Rdi,
        8 => Reg::R8,
        9 => Reg::R9,
        10 => Reg::R10,
        11 => Reg::R11,
        12 => Reg::R12,
        13 => Reg::R13,
        14 => Reg::R14,
        _ => Reg::R15,
    }
}

pub fn gpr_of(n: u32) -> (r: Reg)
    ensures
        r == gpr(n),
        n < 16 ==> r.number() == n,
{
    match n {
        0 => Reg::Rax,
        1 => Reg::Rcx,
        2 => Reg::Rdx,
        3 => Reg::Rbx,
        4 => Reg::Rsp,
        5 => Reg::Rbp,
        6 => Reg::Rsi,
        7 => Reg::Rdi,
        8 => Reg::R8,
        9 => Reg::R9,
        10 => Reg::R10,
        11 => Reg::R11,
        12 => Reg::R12,
        13 => Reg::R13,
        14 => Reg::R14,
        _ => Reg::R15,
    }
}

/// The general purpose register a numbered register is part of, the byte it starts at
/// and its width.
pub open spec fn register_part(code: u32) -> Option<(Reg, u32, Width)> {
    if AL <= code < AH {
        Some((gpr((code - AL) as u32), 0, Width::W8))
    } else if AH <= code < SPL {
        Some((gpr((code - AH) as u32), 1, Width::W8))
    } else if SPL <= code < AX {
        Some((gpr((code - SPL + 4) as u32), 0, Width::W8))
    } else if AX <= code < EAX {
        Some((gpr((code - AX) as u32), 0, Width::W16))
    } else if EAX <= code < RAX {
        Some((gpr((code - EAX) as u32), 0, Width::W32))
    } else if RAX <= code < GPR_END {
        Some((gpr((code - RAX) as u32), 0, Width::W64))
    } else {
        None
    }
}

/// Split a numbered register into the 64-bit register it lives in, its byte offset
/// within it, and its width. `None` for a register that is not general purpose.
pub fn decode_reg(code: u32) -> (r: Option<(Reg, u32, Width)>)
    ensures
        r == register_part(code),
{
    if AL <= code && code < AH {
        Some((gpr_of(code - AL), 0, Width::W8))
    } else if AH <= code && code < SPL {
        Some((gpr_of(code - AH), 1, Width::W8))
    } else if SPL <= code && code < AX {
        Some((gpr_of(code - SPL + 4), 0, Width::W8))
    } else if AX <= code && code < EAX {
        Some((gpr_of(code - AX), 0, Width::W16))
    } else if EAX <= code && code < RAX {
        Some((gpr_of(code - EAX), 0, Width::W32))
    } else if RAX <= code && code < GPR_END {
        Some((gpr_of(code - RAX), 0, Width::W64))
    } else {
        None
    }
}

/// The registers an encoded instruction uses, each with the way it is accessed: what
/// `InstructionInfoFactory::info` reports, as the numbers of its `Register` and
/// `OpAccess` values. `None` where the bytes are not an instruction.
pub uninterp spec fn effects_of(bytes: Seq<u8>, ip: u64) -> Option<Seq<(u32, u32)>>;

/// `iced_x86::InstructionInfoFactory::info` on the instruction that
/// `iced_x86::Decoder::decode` reads from `bytes` in 64-bit mode at address `ip`. The
/// list is claimed to depend on the bytes and the address alone, and to be missing
/// exactly when the decoder calls the instruction invalid.
#[verifier::external_body]
pub(crate) fn register_effects(bytes: &[u8], ip: u64) -> (r: Option<Vec<(u32, u32)>>)
    ensures
        match r {
            Some(v) => effects_of(bytes@, ip) == Some(v@),
            None => effects_of(bytes@, ip) is None,
        },
{
    let inst = Decoder::with_ip(64, bytes, ip, DecoderOptions::NONE).decode();
    if inst.is_invalid() {
        return None;
    }
    let mut factory = InstructionInfoFactory::new();
    let used = factory.info(&inst).used_registers();
    Some(used.iter().map(|u| (u.register() as u32, u.access() as u32)).collect())
}

} // verus!
