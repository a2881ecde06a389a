//! The instructions that are modelled, by the numbers the decoder gives mnemonics.

use crate::ir::value::{BinOp, Width};
use vstd::prelude::*;

verus! {

pub const ADC: u32 = 5;

pub const ADD: u32 = 7;

pub const AND: u32 = 21;

pub const BSWAP: u32 = 53;

pub const BT: u32 = 54;

pub const CALL: u32 = 59;

pub const CDQ: u32 = 61;

pub const CMOVA: u32 = 77;

pub const CMOVAE: u32 = 78;

pub const CMOVB: u32 = 79;

pub const CMOVBE: u32 = 80;

pub const CMOVE: u32 = 81;

pub const CMOVG: u32 = 82;

pub const CMOVGE: u32 = 83;

pub const CMOVL: u32 = 84;

pub const CMOVLE: u32 = 85;

pub const CMOVNE: u32 = 86;

pub const CMOVNO: u32 = 87;

pub const CMOVNP: u32 = 88;

pub const CMOVNS: u32 = 89;

pub const CMOVO: u32 = 90;

pub const CMOVP: u32 = 91;

pub const CMOVS: u32 = 92;

pub const CMP: u32 = 93;

pub const CMPXCHG: u32 = 101;

pub const CPUID: u32 = 106;

pub const CQO: u32 = 107;

pub const CWD: u32 = 131;

pub const DEC: u32 = 137;

pub const DIV: u32 = 138;

pub const HLT: u32 = 272;

pub const IDIV: u32 = 276;

pub const IMUL: u32 = 277;

pub const INC: u32 = 279;

pub const INCSSPD: u32 = 280;

pub const INCSSPQ: u32 = 281;

pub const INT: u32 = 287;

pub const INT3: u32 = 1620;

pub const INTO: u32 = 289;

pub const INVLPG: u32 = 292;

pub const IRET: u32 = 296;

pub const IRETD: u32 = 1618;

pub const IRETQ: u32 = 1619;

pub const JA: u32 = 297;

pub const JAE: u32 = 298;

pub const JB: u32 = 299;

pub const JBE: u32 = 300;

pub const JE: u32 = 302;

pub const JG: u32 = 304;

pub const JGE: u32 = 305;

pub const JL: u32 = 306;

pub const JLE: u32 = 307;

pub const JMP: u32 = 308;

pub const JNE: u32 = 310;

pub const JNO: u32 = 311;

pub const JNP: u32 = 312;

pub const JNS: u32 = 313;

pub const JO: u32 = 314;

pub const JP: u32 = 315;

pub const JS: u32 = 317;

pub const LEA: u32 = 374;

pub const LFENCE: u32 = 377;

pub const MFENCE: u32 = 406;

pub const MOV: u32 = 414;

pub const MOVAPD: u32 = 415;

pub const MOVAPS: u32 = 416;

pub const MOVDQA: u32 = 423;

pub const MOVDQU: u32 = 424;

pub const MOVLPD: u32 = 429;

pub const MOVLPS: u32 = 430;

pub const MOVQ: u32 = 441;

pub const MOVSD: u32 = 444;

pub const MOVSX: u32 = 450;

pub const MOVSXD: u32 = 451;

pub const MOVUPD: u32 = 452;

pub const MOVUPS: u32 = 453;

pub const MOVZX: u32 = 454;

pub const MUL: u32 = 456;

pub const NEG: u32 = 464;

pub const NOP: u32 = 465;

pub const NOT: u32 = 466;

pub const OR: u32 = 467;

pub const PAUSE: u32 = 492;

pub const POP: u32 = 590;

pub const POPFQ: u32 = 1617;

pub const PREFETCHNTA: u32 = 596;

pub const PREFETCHW: u32 = 600;

pub const PUSH: u32 = 640;

pub const PUSHFQ: u32 = 1615;

pub const PXOR: u32 = 643;

pub const RDMSR: u32 = 650;

pub const RDSSPD: u32 = 657;

pub const RDSSPQ: u32 = 658;

pub const RDTSC: u32 = 659;

pub const RDTSCP: u32 = 660;

pub const RET: u32 = 662;

pub const ROL: u32 = 664;

pub const ROR: u32 = 665;

pub const SAR: u32 = 678;

pub const SBB: u32 = 681;

pub const SETA: u32 = 686;

pub const SETAE: u32 = 687;

pub const SETB: u32 = 688;

pub const SETBE: u32 = 689;

pub const SETE: u32 = 690;

pub const SETG: u32 = 691;

pub const SETGE: u32 = 692;

pub const SETL: u32 = 693;

pub const SETLE: u32 = 694;

pub const SETNE: u32 = 695;

pub const SETNO: u32 = 696;

pub const SETNP: u32 = 697;

pub const SETNS: u32 = 698;

pub const SETO: u32 = 699;

pub const SETP: u32 = 700;

pub const SETS: u32 = 701;

pub const SFENCE: u32 = 703;

pub const SHL: u32 = 712;

pub const SHR: u32 = 715;

pub const SUB: u32 = 740;

pub const SYSCALL: u32 = 746;

pub const SYSENTER: u32 = 747;

pub const SYSEXIT: u32 = 748;

pub const SYSEXITQ: u32 = 1549;

pub const SYSRET: u32 = 749;

pub const SYSRETQ: u32 = 1562;

pub const TEST: u32 = 751;

pub const UD0: u32 = 757;

pub const UD1: u32 = 758;

pub const UD2: u32 = 759;

pub const VMLAUNCH: u32 = 1032;

pub const VMRESUME: u32 = 1070;

pub const VMXOFF: u32 = 1078;

pub const WBINVD: u32 = 1495;

pub const WRMSR: u32 = 1499;

pub const XCHG: u32 = 1509;

pub const XOR: u32 = 1518;

pub const XORPD: u32 = 1519;

pub const XORPS: u32 = 1520;

/// What the processor tests in a conditional instruction.
#[derive(Debug, Clone, Copy, PartialEq, Eq, Structural)]
pub enum ConditionCode {
    O,
    No,
    B,
    Ae,
    E,
    Ne,
    Be,
    A,
    S,
    Ns,
    P,
    Np,
    L,
    Ge,
    Le,
    G,
}

/// How an instruction is evaluated.
#[derive(Debug, Clone, Copy, PartialEq, Eq, Structural)]
pub enum Kind {
    /// No effect on anything that is tracked.
    Nothing,
    Mov,
    Movzx,
    Movsx,
    Lea,
    Xchg,
    /// `cmpxchg`.
    Exchange,
    Push,
    Pop,
    Pushfq,
    Popfq,
    Sum { carry: bool },
    Difference { borrow: bool },
    /// A difference that sets the flags alone.
    Compare,
    Test,
    Logic { op: BinOp },
    Not,
    Neg,
    Inc,
    Dec,
    Shift { op: BinOp },
    Bswap,
    Bt,
    /// `cwd`, `cdq` and `cqo`: the accumulator's sign in every bit of `dx`.
    SignFill { width: Width },
    Imul,
    Mul,
    Div { signed: bool },
    /// A conditional move.
    Cmov { cc: ConditionCode },
    /// A condition as a byte.
    Setcc { cc: ConditionCode },
    Jmp,
    Jcc { cc: ConditionCode },
    Call,
    Ret,
    /// Reads the shadow stack pointer.
    ShadowStack,
    Trap,
    Other,
}

/// The condition a conditional jump tests.
pub open spec fn jcc_cc_spec(m: u32) -> Option<ConditionCode> {
    if m == JO {
        Some(ConditionCode::O)
    } else if m == JNO {
        Some(ConditionCode::No)
    } else if m == JB {
        Some(ConditionCode::B)
    } else if m == JAE {
        Some(ConditionCode::Ae)
    } else if m == JE {
        Some(ConditionCode::E)
    } else if m == JNE {
        Some(ConditionCode::Ne)
    } else if m == JBE {
        Some(ConditionCode::Be)
    } else if m == JA {
        Some(ConditionCode::A)
    } else if m == JS {
        Some(ConditionCode::S)
    } else if m == JNS {
        Some(ConditionCode::Ns)
    } else if m == JP {
        Some(ConditionCode::P)
    } else if m == JNP {
        Some(ConditionCode::Np)
    } else if m == JL {
        Some(ConditionCode::L)
    } else if m == JGE {
        Some(ConditionCode::Ge)
    } else if m == JLE {
        Some(ConditionCode::Le)
    } else if m == JG {
        Some(ConditionCode::G)
    } else {
        None
    }
}

/// The condition a conditional jump tests.
#[verifier::when_used_as_spec(jcc_cc_spec)]
pub fn jcc_cc(m: u32) -> (r: Option<ConditionCode>)
    ensures
        r == jcc_cc_spec(m),
{
    if m == JO {
        Some(ConditionCode::O)
    } else if m == JNO {
        Some(ConditionCode::No)
    } else if m == JB {
        Some(ConditionCode::B)
    } else if m == JAE {
        Some(ConditionCode::Ae)
    } else if m == JE {
        Some(ConditionCode::E)
    } else if m == JNE {
        Some(ConditionCode::Ne)
    } else if m == JBE {
        Some(ConditionCode::Be)
    } else if m == JA {
        Some(ConditionCode::A)
    } else if m == JS {
        Some(ConditionCode::S)
    } else if m == JNS {
        Some(ConditionCode::Ns)
    } else if m == JP {
        Some(ConditionCode::P)
    } else if m == JNP {
        Some(ConditionCode::Np)
    } else if m == JL {
        Some(ConditionCode::L)
    } else if m == JGE {
        Some(ConditionCode::Ge)
    } else if m == JLE {
        Some(ConditionCode::Le)
    } else if m == JG {
        Some(ConditionCode::G)
    } else {
        None
    }
}

/// The condition a `setcc` stores.
pub open spec fn setcc_cc_spec(m: u32) -> Option<ConditionCode> {
    if m == SETO {
        Some(ConditionCode::O)
    } else if m == SETNO {
        Some(ConditionCode::No)
    } else if m == SETB {
        Some(ConditionCode::B)
    } else if m == SETAE {
        Some(ConditionCode::Ae)
    } else if m == SETE {
        Some(ConditionCode::E)
    } else if m == SETNE {
        Some(ConditionCode::Ne)
    } else if m == SETBE {
        Some(ConditionCode::Be)
    } else if m == SETA {
        Some(ConditionCode::A)
    } else if m == SETS {
        Some(ConditionCode::S)
    } else if m == SETNS {
        Some(ConditionCode::Ns)
    } else if m == SETP {
        Some(ConditionCode::P)
    } else if m == SETNP {
        Some(ConditionCode::Np)
    } else if m == SETL {
        Some(ConditionCode::L)
    } else if m == SETGE {
        Some(ConditionCode::Ge)
    } else if m == SETLE {
        Some(ConditionCode::Le)
    } else if m == SETG {
        Some(ConditionCode::G)
    } else {
        None
    }
}

/// The condition a `setcc` stores.
#[verifier::when_used_as_spec(setcc_cc_spec)]
pub fn setcc_cc(m: u32) -> (r: Option<ConditionCode>)
    ensures
        r == setcc_cc_spec(m),
{
    if m == SETO {
        Some(ConditionCode::O)
    } else if m == SETNO {
        Some(ConditionCode::No)
    } else if m == SETB {
        Some(ConditionCode::B)
    } else if m == SETAE {
        Some(ConditionCode::Ae)
    } else if m == SETE {
        Some(ConditionCode::E)
    } else if m == SETNE {
        Some(ConditionCode::Ne)
    } else if m == SETBE {
        Some(ConditionCode::Be)
    } else if m == SETA {
        Some(ConditionCode::A)
    } else if m == SETS {
        Some(ConditionCode::S)
    } else if m == SETNS {
        Some(ConditionCode::Ns)
    } else if m == SETP {
        Some(ConditionCode::P)
    } else if m == SETNP {
        Some(ConditionCode::Np)
    } else if m == SETL {
        Some(ConditionCode::L)
    } else if m == SETGE {
        Some(ConditionCode::Ge)
    } else if m == SETLE {
        Some(ConditionCode::Le)
    } else if m == SETG {
        Some(ConditionCode::G)
    } else {
        None
    }
}

/// The condition a conditional move tests.
pub open spec fn cmov_cc_spec(m: u32) -> Option<ConditionCode> {
    if m == CMOVO {
        Some(ConditionCode::O)
    } else if m == CMOVNO {
        Some(ConditionCode::No)
    } else if m == CMOVB {
        Some(ConditionCode::B)
    } else if m == CMOVAE {
        Some(ConditionCode::Ae)
    } else if m == CMOVE {
        Some(ConditionCode::E)
    } else if m == CMOVNE {
        Some(ConditionCode::Ne)
    } else if m == CMOVBE {
        Some(ConditionCode::Be)
    } else if m == CMOVA {
        Some(ConditionCode::A)
    } else if m == CMOVS {
        Some(ConditionCode::S)
    } else if m == CMOVNS {
        Some(ConditionCode::Ns)
    } else if m == CMOVP {
        Some(ConditionCode::P)
    } else if m == CMOVNP {
        Some(ConditionCode::Np)
    } else if m == CMOVL {
        Some(ConditionCode::L)
    } else if m == CMOVGE {
        Some(ConditionCode::Ge)
    } else if m == CMOVLE {
        Some(ConditionCode::Le)
    } else if m == CMOVG {
        Some(ConditionCode::G)
    } else {
        None
    }
}

/// The condition a conditional move tests.
#[verifier::when_used_as_spec(cmov_cc_spec)]
pub fn cmov_cc(m: u32) -> (r: Option<ConditionCode>)
    ensures
        r == cmov_cc_spec(m),
{
    if m == CMOVO {
        Some(ConditionCode::O)
    } else if m == CMOVNO {
        Some(ConditionCode::No)
    } else if m == CMOVB {
        Some(ConditionCode::B)
    } else if m == CMOVAE {
        Some(ConditionCode::Ae)
    } else if m == CMOVE {
        Some(ConditionCode::E)
    } else if m == CMOVNE {
        Some(ConditionCode::Ne)
    } else if m == CMOVBE {
        Some(ConditionCode::Be)
    } else if m == CMOVA {
        Some(ConditionCode::A)
    } else if m == CMOVS {
        Some(ConditionCode::S)
    } else if m == CMOVNS {
        Some(ConditionCode::Ns)
    } else if m == CMOVP {
        Some(ConditionCode::P)
    } else if m == CMOVNP {
        Some(ConditionCode::Np)
    } else if m == CMOVL {
        Some(ConditionCode::L)
    } else if m == CMOVGE {
        Some(ConditionCode::Ge)
    } else if m == CMOVLE {
        Some(ConditionCode::Le)
    } else if m == CMOVG {
        Some(ConditionCode::G)
    } else {
        None
    }
}

/// How an instruction is evaluated.
pub open spec fn kind_spec(m: u32) -> Kind {
    if m == NOP || m == PAUSE || m == PREFETCHW || m == PREFETCHNTA || m == INCSSPQ || m == INCSSPD {
        Kind::Nothing
    } else if m == MOV {
        Kind::Mov
    } else if m == MOVZX {
        Kind::Movzx
    } else if m == MOVSX || m == MOVSXD {
        Kind::Movsx
    } else if m == LEA {
        Kind::Lea
    } else if m == XCHG {
        Kind::Xchg
    } else if m == CMPXCHG {
        Kind::Exchange
    } else if m == PUSH {
        Kind::Push
    } else if m == POP {
        Kind::Pop
    } else if m == PUSHFQ {
        Kind::Pushfq
    } else if m == POPFQ {
        Kind::Popfq
    } else if m == ADD {
        Kind::Sum { carry: false }
    } else if m == ADC {
        Kind::Sum { carry: true }
    } else if m == SUB {
        Kind::Difference { borrow: false }
    } else if m == SBB {
        Kind::Difference { borrow: true }
    } else if m == CMP {
        Kind::Compare
    } else if m == TEST {
        Kind::Test
    } else if m == AND {
        Kind::Logic { op: BinOp::And }
    } else if m == OR {
        Kind::Logic { op: BinOp::Or }
    } else if m == XOR {
        Kind::Logic { op: BinOp::Xor }
    } else if m == NOT {
        Kind::Not
    } else if m == NEG {
        Kind::Neg
    } else if m == INC {
        Kind::Inc
    } else if m == DEC {
        Kind::Dec
    } else if m == SHL {
        Kind::Shift { op: BinOp::Shl }
    } else if m == SHR {
        Kind::Shift { op: BinOp::Shr }
    } else if m == SAR {
        Kind::Shift { op: BinOp::Sar }
    } else if m == ROL {
        Kind::Shift { op: BinOp::Rol }
    } else if m == ROR {
        Kind::Shift { op: BinOp::Ror }
    } else if m == BSWAP {
        Kind::Bswap
    } else if m == BT {
        Kind::Bt
    } else if m == CWD {
        Kind::SignFill { width: Width::W16 }
    } else if m == CDQ {
        Kind::SignFill { width: Width::W32 }
    } else if m == CQO {
        Kind::SignFill { width: Width::W64 }
    } else if m == IMUL {
        Kind::Imul
    } else if m == MUL {
        Kind::Mul
    } else if m == DIV {
        Kind::Div { signed: false }
    } else if m == IDIV {
        Kind::Div { signed: true }
    } else if m == JMP {
        Kind::Jmp
    } else if m == CALL {
        Kind::Call
    } else if m == RET {
        Kind::Ret
    } else if m == RDSSPQ || m == RDSSPD {
        Kind::ShadowStack
    } else if m == INT3 {
        Kind::Trap
    } else {
        match jcc_cc(m) {
            Some(cc) => Kind::Jcc { cc },
            None => match setcc_cc(m) {
                Some(cc) => Kind::Setcc { cc },
                None => match cmov_cc(m) {
                    Some(cc) => Kind::Cmov { cc },
                    None => Kind::Other,
                },
            },
        }
    }
}

/// How an instruction is evaluated.
#[verifier::when_used_as_spec(kind_spec)]
pub fn kind(m: u32) -> (r: Kind)
    ensures
        r == kind_spec(m),
{
    if m == NOP || m == PAUSE || m == PREFETCHW || m == PREFETCHNTA || m == INCSSPQ || m == INCSSPD {
        Kind::Nothing
    } else if m == MOV {
        Kind::Mov
    } else if m == MOVZX {
        Kind::Movzx
    } else if m == MOVSX || m == MOVSXD {
        Kind::Movsx
    } else if m == LEA {
        Kind::Lea
    } else if m == XCHG {
        Kind::Xchg
    } else if m == CMPXCHG {
        Kind::Exchange
    } else if m == PUSH {
        Kind::Push
    } else if m == POP {
        Kind::Pop
    } else if m == PUSHFQ {
        Kind::Pushfq
    } else if m == POPFQ {
        Kind::Popfq
    } else if m == ADD {
        Kind::Sum { carry: false }
    } else if m == ADC {
        Kind::Sum { carry: true }
    } else if m == SUB {
        Kind::Difference { borrow: false }
    } else if m == SBB {
        Kind::Difference { borrow: true }
    } else if m == CMP {
        Kind::Compare
    } else if m == TEST {
        Kind::Test
    } else if m == AND {
        Kind::Logic { op: BinOp::And }
    } else if m == OR {
        Kind::Logic { op: BinOp::Or }
    } else if m == XOR {
        Kind::Logic { op: BinOp::Xor }
    } else if m == NOT {
        Kind::Not
    } else if m == NEG {
        Kind::Neg
    } else if m == INC {
        Kind::Inc
    } else if m == DEC {
        Kind::Dec
    } else if m == SHL {
        Kind::Shift { op: BinOp::Shl }
    } else if m == SHR {
        Kind::Shift { op: BinOp::Shr }
    } else if m == SAR {
        Kind::Shift { op: BinOp::Sar }
    } else if m == ROL {
        Kind::Shift { op: BinOp::Rol }
    } else if m == ROR {
        Kind::Shift { op: BinOp::Ror }
    } else if m == BSWAP {
        Kind::Bswap
    } else if m == BT {
        Kind::Bt
    } else if m == CWD {
        Kind::SignFill { width: Width::W16 }
    } else if m == CDQ {
        Kind::SignFill { width: Width::W32 }
    } else if m == CQO {
        Kind::SignFill { width: Width::W64 }
    } else if m == IMUL {
        Kind::Imul
    } else if m == MUL {
        Kind::Mul
    } else if m == DIV {
        Kind::Div { signed: false }
    } else if m == IDIV {
        Kind::Div { signed: true }
    } else if m == JMP {
        Kind::Jmp
    } else if m == CALL {
        Kind::Call
    } else if m == RET {
        Kind::Ret
    } else if m == RDSSPQ || m == RDSSPD {
        Kind::ShadowStack
    } else if m == INT3 {
        Kind::Trap
    } else {
        match jcc_cc(m) {
            Some(cc) => Kind::Jcc { cc },
            None => match setcc_cc(m) {
                Some(cc) => Kind::Setcc { cc },
                None => match cmov_cc(m) {
                    Some(cc) => Kind::Cmov { cc },
                    None => Kind::Other,
                },
            },
        }
    }
}

/// Whether an instruction falls through to the next one and can be replayed from its
/// bytes. Control transfers and traps cannot.
pub open spec fn is_boxable_spec(m: u32) -> bool {
    !(m == IRET || m == IRETD || m == IRETQ || m == SYSENTER || m == SYSEXIT || m == SYSEXITQ || m == SYSCALL || m == SYSRET || m == SYSRETQ || m == INT || m == INT3 || m == INTO || m == UD0 || m == UD1 || m == UD2 || m == HLT)
}

/// Whether an unmodelled instruction can be kept as its bytes.
#[verifier::when_used_as_spec(is_boxable_spec)]
pub fn is_boxable(m: u32) -> (r: bool)
    ensures
        r == is_boxable_spec(m),
{
    !(m == IRET || m == IRETD || m == IRETQ || m == SYSENTER || m == SYSEXIT || m == SYSEXITQ || m == SYSCALL || m == SYSRET || m == SYSRETQ || m == INT || m == INT3 || m == INTO || m == UD0 || m == UD1 || m == UD2 || m == HLT)
}

/// Bytes a vector move transfers, for the moves that are modelled.
pub open spec fn sse_move_spec(m: u32) -> Option<u32> {
    if m == MOVUPS || m == MOVAPS || m == MOVDQU || m == MOVDQA || m == MOVUPD || m == MOVAPD {
        Some(16u32)
    } else if m == MOVSD || m == MOVQ || m == MOVLPS || m == MOVLPD {
        Some(8u32)
    } else {
        None
    }
}

/// Bytes a vector move transfers, for the moves that are modelled.
#[verifier::when_used_as_spec(sse_move_spec)]
pub fn sse_move(m: u32) -> (r: Option<u32>)
    ensures
        r == sse_move_spec(m),
{
    if m == MOVUPS || m == MOVAPS || m == MOVDQU || m == MOVDQA || m == MOVUPD || m == MOVAPD {
        Some(16u32)
    } else if m == MOVSD || m == MOVQ || m == MOVLPS || m == MOVLPD {
        Some(8u32)
    } else {
        None
    }
}

/// Exclusive or of vectors, which clears a register when both operands are that one.
pub open spec fn sse_xor_spec(m: u32) -> bool {
    m == XORPS || m == XORPD || m == PXOR
}

/// Exclusive or of vectors, which clears a register when both operands are that one.
#[verifier::when_used_as_spec(sse_xor_spec)]
pub fn sse_xor(m: u32) -> (r: bool)
    ensures
        r == sse_xor_spec(m),
{
    m == XORPS || m == XORPD || m == PXOR
}

/// System instructions that leave no register and no flag changed.
pub open spec fn is_silent_spec(m: u32) -> bool {
    m == WRMSR || m == INVLPG || m == WBINVD || m == MFENCE || m == LFENCE || m == SFENCE || m == VMXOFF || m == VMLAUNCH || m == VMRESUME
}

/// System instructions that leave no register and no flag changed.
#[verifier::when_used_as_spec(is_silent_spec)]
pub fn is_silent(m: u32) -> (r: bool)
    ensures
        r == is_silent_spec(m),
{
    m == WRMSR || m == INVLPG || m == WBINVD || m == MFENCE || m == LFENCE || m == SFENCE || m == VMXOFF || m == VMLAUNCH || m == VMRESUME
}

} // verus!
