//! Machine words: widths, operators and their meaning on concrete values.

use vstd::prelude::*;

verus! {

/// Bit width of a value.
#[derive(Debug, Clone, Copy, PartialEq, Eq, Hash, PartialOrd, Ord, Structural)]
pub enum Width {
    W8,
    W16,
    W32,
    W64,
}

impl Width {
    pub open spec fn bytes_spec(self) -> u32 {
        match self {
            Width::W8 => 1,
            Width::W16 => 2,
            Width::W32 => 4,
            Width::W64 => 8,
        }
    }

    pub open spec fn bits_spec(self) -> u32 {
        match self {
            Width::W8 => 8,
            Width::W16 => 16,
            Width::W32 => 32,
            Width::W64 => 64,
        }
    }

    pub open spec fn mask_spec(self) -> u64 {
        match self {
            Width::W8 => 0xff,
            Width::W16 => 0xffff,
            Width::W32 => 0xffff_ffff,
            Width::W64 => 0xffff_ffff_ffff_ffff,
        }
    }

    pub open spec fn sign_bit_spec(self) -> u64 {
        match self {
            Width::W8 => 0x80,
            Width::W16 => 0x8000,
            Width::W32 => 0x8000_0000,
            Width::W64 => 0x8000_0000_0000_0000,
        }
    }

    /// The wider of two widths.
    pub open spec fn wider_spec(self, other: Width) -> Width {
        if self.bits_spec() >= other.bits_spec() {
            self
        } else {
            other
        }
    }

    /// The width of `n` bytes, for the four sizes that are one.
    pub fn from_bytes(n: u32) -> (r: Option<Width>)
        ensures
            r matches Some(w) ==> w.bytes() == n,
            r is None <==> n != 1 && n != 2 && n != 4 && n != 8,
    {
        if n == 1 {
            Some(Width::W8)
        } else if n == 2 {
            Some(Width::W16)
        } else if n == 4 {
            Some(Width::W32)
        } else if n == 8 {
            Some(Width::W64)
        } else {
            None
        }
    }

    #[verifier::when_used_as_spec(bytes_spec)]
    pub fn bytes(self) -> (r: u32)
        ensures
            r == self.bytes_spec(),
    {
        match self {
            Width::W8 => 1,
            Width::W16 => 2,
            Width::W32 => 4,
            Width::W64 => 8,
        }
    }

    #[verifier::when_used_as_spec(bits_spec)]
    pub fn bits(self) -> (r: u32)
        ensures
            r == self.bits_spec(),
            r == 8 * self.bytes(),
    {
        match self {
            Width::W8 => 8,
            Width::W16 => 16,
            Width::W32 => 32,
            Width::W64 => 64,
        }
    }

    /// Mask covering the value's bits, e.g. `W32 -> 0xffff_ffff`.
    #[verifier::when_used_as_spec(mask_spec)]
    pub fn mask(self) -> (r: u64)
        ensures
            r == self.mask_spec(),
    {
        match self {
            Width::W8 => 0xff,
            Width::W16 => 0xffff,
            Width::W32 => 0xffff_ffff,
            Width::W64 => 0xffff_ffff_ffff_ffff,
        }
    }

    #[verifier::when_used_as_spec(sign_bit_spec)]
    pub fn sign_bit(self) -> (r: u64)
        ensures
            r == self.sign_bit_spec(),
    {
        match self {
            Width::W8 => 0x80,
            Width::W16 => 0x8000,
            Width::W32 => 0x8000_0000,
            Width::W64 => 0x8000_0000_0000_0000,
        }
    }

    #[verifier::when_used_as_spec(wider_spec)]
    pub fn wider(self, other: Width) -> (r: Width)
        ensures
            r == self.wider_spec(other),
    {
        if self.bits() >= other.bits() {
            self
        } else {
            other
        }
    }
}

/// Guest register file slot, used for the initial symbolic state.
#[derive(Debug, Clone, Copy, PartialEq, Eq, Hash, PartialOrd, Ord, Structural)]
pub enum Reg {
    Rax,
    Rcx,
    Rdx,
    Rbx,
    Rsp,
    Rbp,
    Rsi,
    Rdi,
    R8,
    R9,
    R10,
    R11,
    R12,
    R13,
    R14,
    R15,
}

/// Every general purpose register, in encoding order.
pub const GPRS: [Reg; 16] = [
    Reg::Rax,
    Reg::Rcx,
    Reg::Rdx,
    Reg::Rbx,
    Reg::Rsp,
    Reg::Rbp,
    Reg::Rsi,
    Reg::Rdi,
    Reg::R8,
    Reg::R9,
    Reg::R10,
    Reg::R11,
    Reg::R12,
    Reg::R13,
    Reg::R14,
    Reg::R15,
];

impl Reg {
    pub open spec fn number_spec(self) -> u8 {
        match self {
            Reg::Rax => 0,
            Reg::Rcx => 1,
            Reg::Rdx => 2,
            Reg::Rbx => 3,
            Reg::Rsp => 4,
            Reg::Rbp => 5,
            Reg::Rsi => 6,
            Reg::Rdi => 7,
            Reg::R8 => 8,
            Reg::R9 => 9,
            Reg::R10 => 10,
            Reg::R11 => 11,
            Reg::R12 => 12,
            Reg::R13 => 13,
            Reg::R14 => 14,
            Reg::R15 => 15,
        }
    }

    /// Hardware encoding of the register, also its position in [`GPRS`].
    #[verifier::when_used_as_spec(number_spec)]
    pub fn number(self) -> (r: u8)
        ensures
            r == self.number_spec(),
            r < 16,
    {
        match self {
            Reg::Rax => 0,
            Reg::Rcx => 1,
            Reg::Rdx => 2,
            Reg::Rbx => 3,
            Reg::Rsp => 4,
            Reg::Rbp => 5,
            Reg::Rsi => 6,
            Reg::Rdi => 7,
            Reg::R8 => 8,
            Reg::R9 => 9,
            Reg::R10 => 10,
            Reg::R11 => 11,
            Reg::R12 => 12,
            Reg::R13 => 13,
            Reg::R14 => 14,
            Reg::R15 => 15,
        }
    }

    pub open spec fn name_spec(self) -> Seq<char> {
        match self {
            Reg::Rax => "rax"@,
            Reg::Rcx => "rcx"@,
            Reg::Rdx => "rdx"@,
            Reg::Rbx => "rbx"@,
            Reg::Rsp => "rsp"@,
            Reg::Rbp => "rbp"@,
            Reg::Rsi => "rsi"@,
            Reg::Rdi => "rdi"@,
            Reg::R8 => "r8"@,
            Reg::R9 => "r9"@,
            Reg::R10 => "r10"@,
            Reg::R11 => "r11"@,
            Reg::R12 => "r12"@,
            Reg::R13 => "r13"@,
            Reg::R14 => "r14"@,
            Reg::R15 => "r15"@,
        }
    }

    pub fn name(self) -> (r: &'static str)
        ensures
            r@ == self.name_spec(),
    {
        match self {
            Reg::Rax => "rax",
            Reg::Rcx => "rcx",
            Reg::Rdx => "rdx",
            Reg::Rbx => "rbx",
            Reg::Rsp => "rsp",
            Reg::Rbp => "rbp",
            Reg::Rsi => "rsi",
            Reg::Rdi => "rdi",
            Reg::R8 => "r8",
            Reg::R9 => "r9",
            Reg::R10 => "r10",
            Reg::R11 => "r11",
            Reg::R12 => "r12",
            Reg::R13 => "r13",
            Reg::R14 => "r14",
            Reg::R15 => "r15",
        }
    }
}

#[derive(Debug, Clone, Copy, PartialEq, Eq, Hash, Structural)]
pub enum BinOp {
    Add,
    Sub,
    Mul,
    And,
    Or,
    Xor,
    Shl,
    Shr,
    Sar,
    Rol,
    Ror,
    /// Unsigned multiply, high half.
    MulHiU,
    /// Signed multiply, high half.
    MulHiS,
    UDiv,
    URem,
    SDiv,
    SRem,
    /// Unsigned less-than, produces 0/1.
    Ult,
    /// Signed less-than, produces 0/1.
    Slt,
    Eq,
}

impl BinOp {
    pub open spec fn is_commutative_spec(self) -> bool {
        match self {
            BinOp::Add | BinOp::Mul | BinOp::And | BinOp::Or | BinOp::Xor => true,
            BinOp::Eq | BinOp::MulHiU | BinOp::MulHiS => true,
            _ => false,
        }
    }

    /// Commutative ops get their operands canonically ordered so that
    /// hash-consing catches `a op b` and `b op a` as the same node.
    #[verifier::when_used_as_spec(is_commutative_spec)]
    pub fn is_commutative(self) -> (r: bool)
        ensures
            r == self.is_commutative_spec(),
    {
        match self {
            BinOp::Add | BinOp::Mul | BinOp::And | BinOp::Or | BinOp::Xor => true,
            BinOp::Eq | BinOp::MulHiU | BinOp::MulHiS => true,
            _ => false,
        }
    }

    pub open spec fn is_comparison_spec(self) -> bool {
        match self {
            BinOp::Ult | BinOp::Slt | BinOp::Eq => true,
            _ => false,
        }
    }

    /// Whether the result is a truth value, one byte wide whatever the operands.
    #[verifier::when_used_as_spec(is_comparison_spec)]
    pub fn is_comparison(self) -> (r: bool)
        ensures
            r == self.is_comparison_spec(),
    {
        match self {
            BinOp::Ult | BinOp::Slt | BinOp::Eq => true,
            _ => false,
        }
    }

    pub open spec fn number_spec(self) -> u64 {
        match self {
            BinOp::Add => 0,
            BinOp::Sub => 1,
            BinOp::Mul => 2,
            BinOp::And => 3,
            BinOp::Or => 4,
            BinOp::Xor => 5,
            BinOp::Shl => 6,
            BinOp::Shr => 7,
            BinOp::Sar => 8,
            BinOp::Rol => 9,
            BinOp::Ror => 10,
            BinOp::MulHiU => 11,
            BinOp::MulHiS => 12,
            BinOp::UDiv => 13,
            BinOp::URem => 14,
            BinOp::SDiv => 15,
            BinOp::SRem => 16,
            BinOp::Ult => 17,
            BinOp::Slt => 18,
            BinOp::Eq => 19,
        }
    }

    /// Position in the declaration, a stable key for hashing.
    #[verifier::when_used_as_spec(number_spec)]
    pub fn number(self) -> (r: u64)
        ensures
            r == self.number_spec(),
    {
        match self {
            BinOp::Add => 0,
            BinOp::Sub => 1,
            BinOp::Mul => 2,
            BinOp::And => 3,
            BinOp::Or => 4,
            BinOp::Xor => 5,
            BinOp::Shl => 6,
            BinOp::Shr => 7,
            BinOp::Sar => 8,
            BinOp::Rol => 9,
            BinOp::Ror => 10,
            BinOp::MulHiU => 11,
            BinOp::MulHiS => 12,
            BinOp::UDiv => 13,
            BinOp::URem => 14,
            BinOp::SDiv => 15,
            BinOp::SRem => 16,
            BinOp::Ult => 17,
            BinOp::Slt => 18,
            BinOp::Eq => 19,
        }
    }

    pub open spec fn symbol_spec(self) -> Seq<char> {
        match self {
            BinOp::Add => "+"@,
            BinOp::Sub => "-"@,
            BinOp::Mul => "*"@,
            BinOp::And => "&"@,
            BinOp::Or => "|"@,
            BinOp::Xor => "^"@,
            BinOp::Shl => "<<"@,
            BinOp::Shr => ">>"@,
            BinOp::Sar => ">>s"@,
            BinOp::Rol => "rol"@,
            BinOp::Ror => "ror"@,
            BinOp::MulHiU => "mulhu"@,
            BinOp::MulHiS => "mulhs"@,
            BinOp::UDiv => "/u"@,
            BinOp::URem => "%u"@,
            BinOp::SDiv => "/s"@,
            BinOp::SRem => "%s"@,
            BinOp::Ult => "<u"@,
            BinOp::Slt => "<s"@,
            BinOp::Eq => "=="@,
        }
    }

    pub fn symbol(self) -> (r: &'static str)
        ensures
            r@ == self.symbol_spec(),
    {
        match self {
            BinOp::Add => "+",
            BinOp::Sub => "-",
            BinOp::Mul => "*",
            BinOp::And => "&",
            BinOp::Or => "|",
            BinOp::Xor => "^",
            BinOp::Shl => "<<",
            BinOp::Shr => ">>",
            BinOp::Sar => ">>s",
            BinOp::Rol => "rol",
            BinOp::Ror => "ror",
            BinOp::MulHiU => "mulhu",
            BinOp::MulHiS => "mulhs",
            BinOp::UDiv => "/u",
            BinOp::URem => "%u",
            BinOp::SDiv => "/s",
            BinOp::SRem => "%s",
            BinOp::Ult => "<u",
            BinOp::Slt => "<s",
            BinOp::Eq => "==",
        }
    }
}

#[derive(Debug, Clone, Copy, PartialEq, Eq, Hash, Structural)]
pub enum UnOp {
    Not,
    Neg,
    /// Even parity of the low byte, used for PF.
    ParityByte,
    /// Byte swap.
    Bswap,
}

impl UnOp {
    pub open spec fn number_spec(self) -> u64 {
        match self {
            UnOp::Not => 0,
            UnOp::Neg => 1,
            UnOp::ParityByte => 2,
            UnOp::Bswap => 3,
        }
    }

    /// Position in the declaration, a stable key for hashing.
    #[verifier::when_used_as_spec(number_spec)]
    pub fn number(self) -> (r: u64)
        ensures
            r == self.number_spec(),
    {
        match self {
            UnOp::Not => 0,
            UnOp::Neg => 1,
            UnOp::ParityByte => 2,
            UnOp::Bswap => 3,
        }
    }
}

} // verus!
