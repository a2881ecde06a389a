//! What each operator computes on concrete values, and its evaluation.

use crate::ir::value::{BinOp, UnOp, Width};
use vstd::prelude::*;

verus! {

/// Sum modulo two to the sixty-fourth.
pub open spec fn wadd(x: u64, y: u64) -> u64 {
    (x + y) as u64
}

/// Difference modulo two to the sixty-fourth.
pub open spec fn wsub(x: u64, y: u64) -> u64 {
    (x - y) as u64
}

/// Product modulo two to the sixty-fourth.
pub open spec fn wmul(x: u64, y: u64) -> u64 {
    (x * y) as u64
}

/// Number of values of a width.
pub open spec fn modulus(w: Width) -> int {
    w.mask() + 1
}

/// The value read as a two's complement number.
pub open spec fn signed(x: u64, w: Width) -> int {
    if x >= w.sign_bit() {
        x - modulus(w)
    } else {
        x as int
    }
}

/// Division rounding toward zero.
pub open spec fn quot(a: int, b: int) -> int {
    if a >= 0 {
        if b > 0 {
            a / b
        } else {
            -(a / -b)
        }
    } else if b > 0 {
        -(-a / b)
    } else {
        -a / -b
    }
}

/// Remainder of [`quot`], with the sign of the dividend.
pub open spec fn remainder(a: int, b: int) -> int {
    let d = if b > 0 {
        b
    } else {
        -b
    };
    if a >= 0 {
        a % d
    } else {
        -(-a % d)
    }
}

pub open spec fn sign_extend_spec(value: u64, from: Width) -> u64 {
    let v = value & from.mask();
    if v & from.sign_bit() != 0 {
        v | !from.mask()
    } else {
        v
    }
}

/// Shift count as the processor reads it: modulo 64 for 64-bit operands and
/// modulo 32 for all others.
pub open spec fn shift_count_spec(y: u64, width: Width) -> u64 {
    match width {
        Width::W64 => y & 0x3f,
        _ => y & 0x1f,
    }
}

pub open spec fn mask_of_low_bits_spec(n: u32) -> u64 {
    if n >= 64 {
        0xffff_ffff_ffff_ffff
    } else {
        ((1u64 << n) - 1) as u64
    }
}

pub open spec fn low_zero_run_spec(k: u64) -> u64 {
    mask_of_low_bits_spec(vstd::std_specs::bits::u64_trailing_ones(k))
}

pub open spec fn bswap_spec(v: u64, w: Width) -> u64 {
    match w {
        Width::W8 => v & 0xff,
        Width::W16 => ((v & 0xff) << 8) | ((v >> 8) & 0xff),
        Width::W32 => ((v & 0xff) << 24) | (((v >> 8) & 0xff) << 16) | (((v >> 16) & 0xff) << 8)
            | ((v >> 24) & 0xff),
        Width::W64 => ((v & 0xff) << 56) | (((v >> 8) & 0xff) << 48) | (((v >> 16) & 0xff) << 40)
            | (((v >> 24) & 0xff) << 32) | (((v >> 32) & 0xff) << 24) | (((v >> 40) & 0xff) << 16)
            | (((v >> 48) & 0xff) << 8) | ((v >> 56) & 0xff),
    }
}

/// One when the low byte holds an even number of set bits.
pub open spec fn parity_byte_spec(v: u64) -> u64 {
    let n = (v & 1) + ((v >> 1) & 1) + ((v >> 2) & 1) + ((v >> 3) & 1) + ((v >> 4) & 1) + ((v >> 5)
        & 1) + ((v >> 6) & 1) + ((v >> 7) & 1);
    if n % 2 == 0 {
        1
    } else {
        0
    }
}

/// Arithmetic right shift of a value of width `w` by `c` places.
pub open spec fn sar_spec(x: u64, c: u64, w: Width) -> u64 {
    if x >= w.sign_bit() {
        !((!(x | !w.mask())) >> c) & w.mask()
    } else {
        x >> c
    }
}

pub open spec fn truth(b: bool) -> u64 {
    if b {
        1
    } else {
        0
    }
}

/// What `op` computes on two values that fit in `w`. `None` where it is undefined:
/// division by zero, and the one signed quotient that does not fit in 64 bits.
pub open spec fn bin_fold(op: BinOp, x: u64, y: u64, w: Width) -> Option<u64> {
    let m = w.mask();
    let bits = w.bits() as u64;
    match op {
        BinOp::Add => Some(wadd(x, y) & m),
        BinOp::Sub => Some(wsub(x, y) & m),
        BinOp::Mul => Some(wmul(x, y) & m),
        BinOp::And => Some(x & y),
        BinOp::Or => Some(x | y),
        BinOp::Xor => Some(x ^ y),
        BinOp::Shl => {
            let c = shift_count_spec(y, w);
            Some(
                if c >= bits {
                    0
                } else {
                    (x << c) & m
                },
            )
        },
        BinOp::Shr => {
            let c = shift_count_spec(y, w);
            Some(
                if c >= bits {
                    0
                } else {
                    x >> c
                },
            )
        },
        BinOp::Sar => {
            let c = shift_count_spec(y, w);
            Some(
                sar_spec(
                    x,
                    if c >= bits {
                        (bits - 1) as u64
                    } else {
                        c
                    },
                    w,
                ),
            )
        },
        BinOp::Rol => {
            let c = y % bits;
            Some(
                if c == 0 {
                    x
                } else {
                    ((x << c) | (x >> ((bits - c) as u64))) & m
                },
            )
        },
        BinOp::Ror => {
            let c = y % bits;
            Some(
                if c == 0 {
                    x
                } else {
                    ((x >> c) | (x << ((bits - c) as u64))) & m
                },
            )
        },
        BinOp::MulHiU => Some(((x * y) / modulus(w)) as u64),
        BinOp::MulHiS => Some(
            (((signed(x, w) * signed(y, w)) / modulus(w)) % modulus(w)) as u64,
        ),
        BinOp::UDiv => if y == 0 {
            None
        } else {
            Some(x / y)
        },
        BinOp::URem => if y == 0 {
            None
        } else {
            Some(x % y)
        },
        BinOp::SDiv => if y == 0 || signed_division_overflows(x, y, w) {
            None
        } else {
            Some((quot(signed(x, w), signed(y, w)) % modulus(w)) as u64)
        },
        BinOp::SRem => if y == 0 || signed_division_overflows(x, y, w) {
            None
        } else {
            Some((remainder(signed(x, w), signed(y, w)) % modulus(w)) as u64)
        },
        BinOp::Ult => Some(truth(x < y)),
        BinOp::Slt => Some(truth(signed(x, w) < signed(y, w))),
        BinOp::Eq => Some(truth(x == y)),
    }
}

/// The most negative 64-bit number divided by minus one.
pub open spec fn signed_division_overflows(x: u64, y: u64, w: Width) -> bool {
    w is W64 && x == 0x8000_0000_0000_0000 && y == 0xffff_ffff_ffff_ffff
}

/// [`bin_fold`] with the undefined results read as zero.
pub open spec fn bin_val(op: BinOp, x: u64, y: u64, w: Width) -> u64 {
    match bin_fold(op, x, y, w) {
        Some(v) => v,
        None => 0,
    }
}

/// What a unary operator computes on a value of width `w`.
pub open spec fn un_val(op: UnOp, x: u64, w: Width) -> u64 {
    match op {
        UnOp::Not => !x & w.mask(),
        UnOp::Neg => wsub(0, x) & w.mask(),
        UnOp::ParityByte => parity_byte_spec(x),
        UnOp::Bswap => bswap_spec(x, w),
    }
}

/// The four masks a width can have.
pub open spec fn is_mask(m: u64) -> bool {
    m == 0xff || m == 0xffff || m == 0xffff_ffff || m == 0xffff_ffff_ffff_ffff
}

/// Masking is the identity on values that fit, and always makes one that does.
pub proof fn lemma_mask(x: u64, m: u64)
    by (bit_vector)
    requires
        is_mask(m),
    ensures
        x & m <= m,
        x <= m ==> x & m == x,
        (x & m) & m == x & m,
        (!x & m) <= m,
        x <= m ==> (!x & m) == (m - x) as u64,
        !(!x & m) & m == x & m,
        (!x & m) & x == 0,
{
}

/// A sum that wraps is below its first operand, and one that does not is the sum; a
/// difference that does not borrow is the difference.
pub proof fn lemma_carry(x: u64, y: u64, m: u64)
    by (bit_vector)
    requires
        is_mask(m),
        x <= m,
        y <= m,
    ensures
        (wadd(x, y) & m) < x <==> x + y > m,
        x + y <= m ==> wadd(x, y) & m == x + y,
        y <= x ==> wsub(x, y) & m == x - y,
{
}

/// Bitwise operators keep values inside a mask.
pub proof fn lemma_bitwise_fit(x: u64, y: u64, m: u64)
    by (bit_vector)
    requires
        is_mask(m),
        x <= m,
        y <= m,
    ensures
        x & y <= m,
        x | y <= m,
        x ^ y <= m,
{
}

/// Shifts and rotations keep values inside a mask.
pub proof fn lemma_shift_fit(x: u64, c: u64, w: Width)
    requires
        c < w.bits(),
        x <= w.mask(),
    ensures
        x >> c <= w.mask(),
        !((!(x | !w.mask())) >> c) & w.mask() <= w.mask(),
        sar_spec(x, c, w) <= w.mask(),
{
    assert(x >> c <= x) by (bit_vector);
    lemma_mask(!((!(x | !w.mask())) >> c), w.mask());
}

proof fn lemma_wrapping(x: u64, y: u64)
    by (bit_vector)
    ensures
        vstd::wrapping::u64_specs::wrapping_add(x, y) == wadd(x, y),
        vstd::wrapping::u64_specs::wrapping_sub(x, y) == wsub(x, y),
        vstd::wrapping::u64_specs::wrapping_mul(x, y) == wmul(x, y),
{
}

pub proof fn lemma_wrapping_mul(x: u64, y: u64)
    ensures
        vstd::wrapping::u64_specs::wrapping_mul(x, y) == wmul(x, y),
{
    lemma_wrapping(x, y);
}

/// Wrapping sum, for use where no other width is involved.
pub fn wrapping_sum(x: u64, y: u64) -> (r: u64)
    ensures
        r == wadd(x, y),
{
    proof {
        lemma_wrapping(x, y);
    }
    x.wrapping_add(y)
}

/// Wrapping difference, for use where no other width is involved.
pub fn wrapping_difference(x: u64, y: u64) -> (r: u64)
    ensures
        r == wsub(x, y),
{
    proof {
        lemma_wrapping(x, y);
    }
    x.wrapping_sub(y)
}

pub fn shift_count(y: u64, width: Width) -> (r: u64)
    ensures
        r == shift_count_spec(y, width),
        r <= 0x3f,
        width != Width::W64 ==> r <= 0x1f,
{
    proof {
        lemma_sign_extend(y);
    }
    match width {
        Width::W64 => y & 0x3f,
        _ => y & 0x1f,
    }
}

proof fn lemma_sign_extend(v: u64)
    by (bit_vector)
    ensures
        v & 0xff <= 0xff,
        (v & 0xff) & 0x80 != 0 <==> (v & 0xff) >= 0x80,
        (v & 0xffff) & 0x8000 != 0 <==> (v & 0xffff) >= 0x8000,
        (v & 0xffff_ffff) & 0x8000_0000 != 0 <==> (v & 0xffff_ffff) >= 0x8000_0000,
        v & 0xffff_ffff_ffff_ffff == v,
        v | !0xffff_ffff_ffff_ffffu64 == v,
        v & 0x3f <= 0x3f,
        v & 0x1f <= 0x1f,
{
}

/// `value`, taken at width `from`, extended to 64 bits with copies of its sign.
pub fn sign_extend(value: u64, from: Width) -> (r: u64)
    ensures
        r == sign_extend_spec(value, from),
{
    proof {
        lemma_sign_extend(value);
    }
    let m = from.mask();
    let v = value & m;
    if v & from.sign_bit() != 0 {
        v | !m
    } else {
        v
    }
}

/// Mask of the `n` lowest bits.
pub fn mask_of_low_bits(n: u32) -> (r: u64)
    ensures
        r == mask_of_low_bits_spec(n),
{
    if n >= 64 {
        0xffff_ffff_ffff_ffff
    } else {
        proof {
            assert(n < 64 ==> (1u64 << n) >= 1) by (bit_vector);
        }
        (1u64 << n) - 1
    }
}

/// Mask covering the contiguous run of low bits that are set in `k`.
/// e.g. `0b1011 -> 0b0011`. Used to reason about carry propagation.
pub fn low_zero_run(k: u64) -> (r: u64)
    ensures
        r == low_zero_run_spec(k),
{
    mask_of_low_bits(k.trailing_ones())
}

/// Reverse the bytes of the low `w` of `v`.
pub fn bswap(v: u64, w: Width) -> (r: u64)
    ensures
        r == bswap_spec(v, w),
{
    match w {
        Width::W8 => v & 0xff,
        Width::W16 => ((v & 0xff) << 8) | ((v >> 8) & 0xff),
        Width::W32 => ((v & 0xff) << 24) | (((v >> 8) & 0xff) << 16) | (((v >> 16) & 0xff) << 8)
            | ((v >> 24) & 0xff),
        Width::W64 => ((v & 0xff) << 56) | (((v >> 8) & 0xff) << 48) | (((v >> 16) & 0xff) << 40)
            | (((v >> 24) & 0xff) << 32) | (((v >> 32) & 0xff) << 24) | (((v >> 40) & 0xff) << 16)
            | (((v >> 48) & 0xff) << 8) | ((v >> 56) & 0xff),
    }
}

/// One when the low byte of `v` holds an even number of set bits, else zero.
pub fn parity_byte(v: u64) -> (r: u64)
    ensures
        r == parity_byte_spec(v),
{
    proof {
        assert((v & 1) <= 1 && ((v >> 1) & 1) <= 1 && ((v >> 2) & 1) <= 1 && ((v >> 3) & 1) <= 1
            && ((v >> 4) & 1) <= 1 && ((v >> 5) & 1) <= 1 && ((v >> 6) & 1) <= 1 && ((v >> 7) & 1)
            <= 1) by (bit_vector);
    }
    let n: u64 = (v & 1) + ((v >> 1) & 1) + ((v >> 2) & 1) + ((v >> 3) & 1) + ((v >> 4) & 1) + ((v
        >> 5) & 1) + ((v >> 6) & 1) + ((v >> 7) & 1);
    if n % 2 == 0 {
        1
    } else {
        0
    }
}

/// Distance of a value from zero when read as two's complement.
fn magnitude(x: u64, w: Width) -> (r: u64)
    requires
        x <= w.mask(),
    ensures
        signed(x, w) < 0 ==> r == -signed(x, w),
        signed(x, w) >= 0 ==> r == signed(x, w),
        r <= w.sign_bit(),
{
    if x >= w.sign_bit() {
        (w.mask() - x) + 1
    } else {
        x
    }
}

/// The two's complement encoding of `-q`.
fn negated(q: u64, w: Width) -> (r: u64)
    requires
        q <= w.mask(),
    ensures
        r == (-(q as int)) % modulus(w),
        r <= w.mask(),
{
    if q == 0 {
        0
    } else {
        proof {
            vstd::arithmetic::div_mod::lemma_fundamental_div_mod_converse(
                -(q as int),
                modulus(w),
                -1,
                modulus(w) - q,
            );
        }
        (w.mask() - q) + 1
    }
}

fn unsigned_high_product(x: u64, y: u64, w: Width) -> (r: u64)
    requires
        x <= w.mask(),
        y <= w.mask(),
    ensures
        r == (x * y) / modulus(w),
        r <= w.mask(),
{
    proof {
        assert(x * y <= w.mask() * w.mask()) by (nonlinear_arith)
            requires
                x <= w.mask(),
                y <= w.mask(),
        ;
        assert(0 <= x * y <= 0xffff_ffff_ffff_ffff * 0xffff_ffff_ffff_ffff) by (nonlinear_arith)
            requires
                0 <= x <= 0xffff_ffff_ffff_ffff,
                0 <= y <= 0xffff_ffff_ffff_ffff,
        ;
        assert(w.mask() * w.mask() < modulus(w) * modulus(w)) by (nonlinear_arith)
            requires
                modulus(w) == w.mask() + 1,
        ;
    }
    let p: u128 = (x as u128) * (y as u128);
    let b: u128 = (w.mask() as u128) + 1;
    proof {
        assert((p / b) * b <= p) by (nonlinear_arith)
            requires
                b > 0,
        ;
        assert(p / b < b) by (nonlinear_arith)
            requires
                p < b * b,
                b > 0,
        ;
    }
    (p / b) as u64
}

fn signed_high_product(x: u64, y: u64, w: Width) -> (r: u64)
    requires
        x <= w.mask(),
        y <= w.mask(),
    ensures
        r == ((signed(x, w) * signed(y, w)) / modulus(w)) % modulus(w),
        r <= w.mask(),
{
    let ax: u64 = magnitude(x, w);
    let ay: u64 = magnitude(y, w);
    let ghost sx = signed(x, w);
    let ghost sy = signed(y, w);
    let b: u128 = (w.mask() as u128) + 1;
    proof {
        assert(0 <= ax * ay <= w.sign_bit() * w.sign_bit()) by (nonlinear_arith)
            requires
                ax <= w.sign_bit(),
                ay <= w.sign_bit(),
        ;
        assert(w.sign_bit() * w.sign_bit() < w.mask() * modulus(w)) by (nonlinear_arith)
            requires
                w.sign_bit() <= w.mask(),
                modulus(w) == w.mask() + 1,
                w.mask() > 0,
        ;
    }
    let p: u128 = (ax as u128) * (ay as u128);
    let q: u128 = p / b;
    let low: u128 = p % b;
    proof {
        assert(p == q * b + low && q < w.mask()) by (nonlinear_arith)
            requires
                q == p / b,
                low == p % b,
                b == w.mask() + 1,
                p < w.mask() * b,
        ;
        assert((-sx) * sy == -(sx * sy)) by (nonlinear_arith);
        assert(sx * (-sy) == -(sx * sy)) by (nonlinear_arith);
        assert((-sx) * (-sy) == sx * sy) by (nonlinear_arith);
    }
    if (x >= w.sign_bit()) == (y >= w.sign_bit()) {
        proof {
            vstd::arithmetic::div_mod::lemma_small_mod(q as nat, modulus(w) as nat);
        }
        q as u64
    } else if low == 0 {
        proof {
            assert(sx * sy == -(q as int) * b) by (nonlinear_arith)
                requires
                    sx * sy == -(p as int),
                    p == q * b,
            ;
            vstd::arithmetic::div_mod::lemma_fundamental_div_mod_converse(
                sx * sy,
                b as int,
                -(q as int),
                0,
            );
        }
        negated(q as u64, w)
    } else {
        proof {
            assert(sx * sy == (-(q as int) - 1) * b + (b - low)) by (nonlinear_arith)
                requires
                    sx * sy == -(p as int),
                    p == q * b + low,
            ;
            vstd::arithmetic::div_mod::lemma_fundamental_div_mod_converse(
                sx * sy,
                b as int,
                -(q as int) - 1,
                b - low,
            );
        }
        negated((q as u64) + 1, w)
    }
}

fn signed_quotient(x: u64, y: u64, w: Width) -> (r: Option<u64>)
    requires
        x <= w.mask(),
        y <= w.mask(),
    ensures
        r == bin_fold(BinOp::SDiv, x, y, w),
        r matches Some(v) ==> v <= w.mask(),
{
    if y == 0 || (w == Width::W64 && x == 0x8000_0000_0000_0000 && y == 0xffff_ffff_ffff_ffff) {
        return None;
    }
    let ax: u64 = magnitude(x, w);
    let ay: u64 = magnitude(y, w);
    let q: u64 = ax / ay;
    proof {
        assert(q <= ax) by (nonlinear_arith)
            requires
                q == ax / ay,
                ay >= 1,
        ;
        assert(ay >= 2 ==> q <= ax / 2) by (nonlinear_arith)
            requires
                q == ax / ay,
                ay >= 1,
        ;
    }
    if (x >= w.sign_bit()) == (y >= w.sign_bit()) {
        proof {
            vstd::arithmetic::div_mod::lemma_small_mod(q as nat, modulus(w) as nat);
        }
        Some(q)
    } else {
        Some(negated(q, w))
    }
}

fn signed_remainder(x: u64, y: u64, w: Width) -> (r: Option<u64>)
    requires
        x <= w.mask(),
        y <= w.mask(),
    ensures
        r == bin_fold(BinOp::SRem, x, y, w),
        r matches Some(v) ==> v <= w.mask(),
{
    if y == 0 || (w == Width::W64 && x == 0x8000_0000_0000_0000 && y == 0xffff_ffff_ffff_ffff) {
        return None;
    }
    let ax: u64 = magnitude(x, w);
    let ay: u64 = magnitude(y, w);
    let q: u64 = ax % ay;
    if x >= w.sign_bit() {
        Some(negated(q, w))
    } else {
        proof {
            vstd::arithmetic::div_mod::lemma_small_mod(q as nat, modulus(w) as nat);
        }
        Some(q)
    }
}

/// Evaluate `op` on two concrete values at `width`. `None` for division by zero
/// and for a signed quotient that does not fit.
pub fn fold_bin(op: BinOp, x: u64, y: u64, width: Width) -> (r: Option<u64>)
    ensures
        r == bin_fold(op, x & width.mask(), y & width.mask(), width),
        r matches Some(v) ==> v <= width.mask(),
{
    let m: u64 = width.mask();
    let bits: u64 = width.bits() as u64;
    proof {
        lemma_mask(x, m);
        lemma_mask(y, m);
        lemma_bitwise_fit(x & m, y & m, m);
        lemma_wrapping(x & m, y & m);
        lemma_wrapping_mul(x & m, y & m);
        lemma_mask(wadd(x & m, y & m), m);
        lemma_mask(wsub(x & m, y & m), m);
        lemma_mask(wmul(x & m, y & m), m);
    }
    let x: u64 = x & m;
    let y: u64 = y & m;
    match op {
        BinOp::Add => Some(x.wrapping_add(y) & m),
        BinOp::Sub => Some(x.wrapping_sub(y) & m),
        BinOp::Mul => Some(x.wrapping_mul(y) & m),
        BinOp::And => Some(x & y),
        BinOp::Or => Some(x | y),
        BinOp::Xor => Some(x ^ y),
        BinOp::Shl => {
            let c: u64 = shift_count(y, width);
            if c >= bits {
                Some(0)
            } else {
                proof {
                    lemma_mask(x << c, m);
                }
                Some((x << c) & m)
            }
        },
        BinOp::Shr => {
            let c: u64 = shift_count(y, width);
            if c >= bits {
                Some(0)
            } else {
                proof {
                    lemma_shift_fit(x, c, width);
                }
                Some(x >> c)
            }
        },
        BinOp::Sar => {
            let count: u64 = shift_count(y, width);
            let c: u64 = if count >= bits {
                bits - 1
            } else {
                count
            };
            proof {
                lemma_shift_fit(x, c, width);
            }
            if x >= width.sign_bit() {
                Some(!((!(x | !m)) >> c) & m)
            } else {
                Some(x >> c)
            }
        },
        BinOp::Rol => {
            let c: u64 = y % bits;
            if c == 0 {
                Some(x)
            } else {
                proof {
                    lemma_mask((x << c) | (x >> ((bits - c) as u64)), m);
                }
                Some(((x << c) | (x >> (bits - c))) & m)
            }
        },
        BinOp::Ror => {
            let c: u64 = y % bits;
            if c == 0 {
                Some(x)
            } else {
                proof {
                    lemma_mask((x >> c) | (x << ((bits - c) as u64)), m);
                }
                Some(((x >> c) | (x << (bits - c))) & m)
            }
        },
        BinOp::MulHiU => Some(unsigned_high_product(x, y, width)),
        BinOp::MulHiS => Some(signed_high_product(x, y, width)),
        BinOp::UDiv => if y == 0 {
            None
        } else {
            proof {
                assert(x / y <= x) by (nonlinear_arith)
                    requires
                        y >= 1,
                ;
            }
            Some(x / y)
        },
        BinOp::URem => if y == 0 {
            None
        } else {
            Some(x % y)
        },
        BinOp::SDiv => signed_quotient(x, y, width),
        BinOp::SRem => signed_remainder(x, y, width),
        BinOp::Ult => Some(
            if x < y {
                1
            } else {
                0
            },
        ),
        BinOp::Slt => {
            let nx: bool = x >= width.sign_bit();
            let ny: bool = y >= width.sign_bit();
            Some(
                if (nx && !ny) || (nx == ny && x < y) {
                    1
                } else {
                    0
                },
            )
        },
        BinOp::Eq => Some(
            if x == y {
                1
            } else {
                0
            },
        ),
    }
}

} // verus!
