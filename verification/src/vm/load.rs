//! Reading memory back out of the abstract state.

use crate::ir::bits::lemma_bitwise;
use crate::ir::expr::{
    const_of, eval, has, lemma_fits, width_of, Arena, BinOp, Env, Node, Ref, Width,
};
use crate::ir::fold::{is_mask, lemma_mask};
use crate::ir::known::lemma_shift_count;
use crate::vm::state::{byte_addr, byte_ok, byte_value, join_bytes, stored_byte, Byte, State};
use vstd::prelude::*;

verus! {

broadcast use vstd::std_specs::hash::group_hash_axioms;

/// The bytes found at `addr`: what was written there, else what the image holds.
pub open spec fn gathered<F: Fn(u64) -> Option<u8>>(
    mem: Map<u64, Byte>,
    image: F,
    addr: u64,
    bytes: Seq<Byte>,
) -> bool {
    forall|i: int|
        0 <= i < bytes.len() ==> found_at(mem, image, byte_addr(addr, i), #[trigger] bytes[i])
}

pub open spec fn found_at<F: Fn(u64) -> Option<u8>>(
    mem: Map<u64, Byte>,
    image: F,
    a: u64,
    b: Byte,
) -> bool {
    if mem.dom().contains(a) {
        b == mem[a]
    } else {
        b is Const && image.ensures((a,), Some(b->Const_0))
    }
}

pub open spec fn all_known(bytes: Seq<Byte>) -> bool {
    forall|i: int| 0 <= i < bytes.len() ==> (#[trigger] bytes[i]) is Const
}

/// Bytes `i..j` of a value, each at its place.
pub open spec fn byte_run(ns: Seq<Node>, bytes: Seq<Byte>, i: int, j: int, e: Env) -> u64
    decreases j - i,
{
    if j <= i {
        0
    } else {
        byte_run(ns, bytes, i, j - 1, e) | (byte_value(ns, bytes[j - 1], e) << ((8 * (j
            - 1)) as u64))
    }
}

proof fn lemma_join_run(ns: Seq<Node>, bytes: Seq<Byte>, i: int, j: int, e: Env)
    requires
        0 <= i <= j <= bytes.len(),
    ensures
        join_bytes(ns, bytes.take(j), e) == join_bytes(ns, bytes.take(i), e) | byte_run(
            ns,
            bytes,
            i,
            j,
            e,
        ),
    decreases j - i,
{
    if i < j {
        lemma_join_run(ns, bytes, i, j - 1, e);
        assert(bytes.take(j).drop_last() =~= bytes.take(j - 1));
        lemma_bitwise(
            join_bytes(ns, bytes.take(i), e),
            byte_run(ns, bytes, i, j - 1, e),
            byte_value(ns, bytes[j - 1], e) << ((8 * (j - 1)) as u64),
        );
    } else {
        lemma_bitwise(join_bytes(ns, bytes.take(i), e), 0, 0);
    }
}

/// Mask of the low `t` bits.
pub open spec fn low_mask(t: u64) -> u64 {
    if t >= 64 {
        0xffff_ffff_ffff_ffff
    } else {
        ((1u64 << t) - 1) as u64
    }
}

/// Placing one more byte of a value extends the placed run by that byte.
#[verifier::rlimit(50)]
proof fn lemma_run_longer(y: u64, t: u64, p: u64)
    by (bit_vector)
    requires
        t <= 56,
        p + t <= 56,
    ensures
        (y & low_mask((t + 8) as u64)) << p == ((y & low_mask(t)) << p) | (((y >> t) & 0xff) << ((p
            + t) as u64)),
{
}

proof fn lemma_shifts(x: u64, s: u64, t: u64)
    by (bit_vector)
    requires
        s <= 64,
        t <= 64,
    ensures
        t < 64 ==> (1u64 << t) >= 1,
        0u64 << t == 0,
        low_mask(0) == 0,
        x & 0 == 0,
{
}

/// Shifting twice is shifting by the sum.
proof fn lemma_shift_twice(x: u64, s: u64, t: u64)
    requires
        s + t < 64,
    ensures
        (x >> s) >> t == x >> ((s + t) as u64),
{
    vstd::bits::lemma_u64_shr_is_div(x, s);
    vstd::bits::lemma_u64_shr_is_div(x >> s, t);
    vstd::bits::lemma_u64_shr_is_div(x, (s + t) as u64);
    vstd::arithmetic::power2::lemma_pow2_adds(s as nat, t as nat);
    vstd::arithmetic::power2::lemma_pow2_pos(s as nat);
    vstd::arithmetic::power2::lemma_pow2_pos(t as nat);
    vstd::arithmetic::div_mod::lemma_div_denominator(
        x as int,
        vstd::arithmetic::power2::pow2(s as nat) as int,
        vstd::arithmetic::power2::pow2(t as nat) as int,
    );
}

proof fn lemma_run_step(x: u64, s: u64, t: u64, p: u64)
    requires
        s <= 56,
        t <= 56,
        p <= 56,
        s + t <= 56,
        p + t <= 56,
    ensures
        ((x >> s) & low_mask((t + 8) as u64)) << p == (((x >> s) & low_mask(t)) << p) | (((x >> ((s
            + t) as u64)) & 0xff) << ((p + t) as u64)),
        ((x >> s) & low_mask(0)) << p == 0,
        low_mask(0) == 0,
{
    lemma_run_longer(x >> s, t, p);
    lemma_shift_twice(x, s, t);
    lemma_shifts(x >> s, s, p);
}

/// A run that ends inside a width fits it.
proof fn lemma_run_fits(x: u64, t: u64, p: u64, m: u64)
    by (bit_vector)
    requires
        is_mask(m),
        8 <= t <= 64,
        p <= 56,
        (m == 0xff && p + t <= 8) || (m == 0xffff && p + t <= 16) || (m == 0xffff_ffff && p + t
            <= 32) || (m == 0xffff_ffff_ffff_ffff && p + t <= 64),
    ensures
        (x & low_mask(t)) <= m,
        ((x & low_mask(t)) << p) & m == (x & low_mask(t)) << p,
        (x & m) & low_mask(t) == x & low_mask(t),
        m == 0xff && t == 8 ==> low_mask(t) == m,
        m == 0xffff && t == 16 ==> low_mask(t) == m,
        m == 0xffff_ffff && t == 32 ==> low_mask(t) == m,
        t == 64 ==> low_mask(t) == 0xffff_ffff_ffff_ffff,
        (x & low_mask(t)) << 0u64 == x & low_mask(t),
        x >> 0u64 == x,
        t < 64 ==> low_mask(t) <= m,
{
}

/// A shift that leaves a value behind entirely reads nothing.
proof fn lemma_shifted_out(x: u64, s: u64, m: u64)
    by (bit_vector)
    requires
        x <= m,
        s <= 56,
        (m == 0xff && s >= 8) || (m == 0xffff && s >= 16) || (m == 0xffff_ffff && s >= 32),
    ensures
        x >> s == 0,
{
}

/// A run of consecutive bytes of one expression, placed, is that part of its value.
proof fn lemma_symbolic_run(
    ns: Seq<Node>,
    bytes: Seq<Byte>,
    i: int,
    len: int,
    expr: Ref,
    index: int,
    e: Env,
)
    requires
        0 <= i,
        0 <= index,
        0 <= len,
        i + len <= bytes.len() <= 8,
        index + len <= 8,
        forall|k: int|
            0 <= k < len ==> #[trigger] bytes[i + k] == (Byte::Sym {
                expr,
                index: (index + k) as u32,
            }),
    ensures
        byte_run(ns, bytes, i, i + len, e) == ((eval(ns, expr, e) >> ((8 * index) as u64))
            & low_mask((8 * len) as u64)) << ((8 * i) as u64),
    decreases len,
{
    let x = eval(ns, expr, e);
    if len == 0 {
        if i < 8 && index < 8 {
            lemma_run_step(x, (8 * index) as u64, 0, (8 * i) as u64);
        } else {
            let y = x >> ((8 * index) as u64);
            lemma_run_step(x, 0, 0, 0);
            lemma_bitwise(y, 0, 0);
            lemma_shifts(0, 0, (8 * i) as u64);
        }
    } else {
        lemma_symbolic_run(ns, bytes, i, len - 1, expr, index, e);
        lemma_run_step(x, (8 * index) as u64, (8 * (len - 1)) as u64, (8 * i) as u64);
        assert(bytes[i + (len - 1)] == (Byte::Sym { expr, index: (index + len - 1) as u32 }));
    }
}

impl State {
    /// The bytes at `addr`, if the image holds those that were never written.
    fn gather(&self, addr: u64, n: u32, image: &impl Fn(u64) -> Option<u8>) -> (r: Option<
        Vec<Byte>,
    >)
        requires
            forall|a: u64| #[trigger] image.requires((a,)),
            n <= 8,
        ensures
            r matches Some(b) ==> b@.len() == n && gathered(self.mem@, *image, addr, b@),
            r is None ==> exists|i: int|
                #![trigger byte_addr(addr, i)]
                0 <= i < n && !self.mem@.dom().contains(byte_addr(addr, i)) && image.ensures(
                    (byte_addr(addr, i),),
                    None,
                ),
    {
        let mut bytes: Vec<Byte> = Vec::new();
        let mut i: u32 = 0;
        while i < n
            invariant
                i <= n <= 8,
                bytes@.len() == i,
                forall|a: u64| #[trigger] image.requires((a,)),
                gathered(self.mem@, *image, addr, bytes@),
            decreases n - i,
        {
            let a: u64 = addr.wrapping_add(i as u64);
            proof {
                assert(a == byte_addr(addr, i as int));
            }
            let b = match self.mem.get(&a) {
                Some(b) => *b,
                None => match image(a) {
                    Some(c) => Byte::Const(c),
                    None => {
                        return None;
                    },
                },
            };
            bytes.push(b);
            i = i + 1;
        }
        Some(bytes)
    }

    /// Read `width` bytes from a concrete address. `image` supplies bytes that have never
    /// been written. `None` when one of those is not in the image.
    ///
    /// A read of known bytes is an immediate, which is what turns bytecode and
    /// dispatch-table reads into constants.
    pub fn load_concrete(
        &self,
        arena: &mut Arena,
        addr: u64,
        width: Width,
        image: impl Fn(u64) -> Option<u8>,
    ) -> (r: Option<Ref>)
        requires
            old(arena).wf(),
            forall|a: u64| #[trigger] image.requires((a,)),
            forall|a: u64| #[trigger]
                self.mem@.dom().contains(a) ==> byte_ok(old(arena).nodes@, self.mem@[a]),
        ensures
            final(arena).grows(*old(arena)),
            r is None ==> exists|i: int|
                #![trigger byte_addr(addr, i)]
                0 <= i < width.bytes() && !self.mem@.dom().contains(byte_addr(addr, i))
                    && image.ensures((byte_addr(addr, i),), None),
            r matches Some(x) ==> final(arena).holds(x) && final(arena).width(x) == width && (
            exists|bytes: Seq<Byte>| #[trigger]
                gathered(self.mem@, image, addr, bytes) && bytes.len() == width.bytes() && (
                forall|e: Env| #[trigger]
                    eval(final(arena).nodes@, x, e) == join_bytes(old(arena).nodes@, bytes, e)) && (
                all_known(bytes) ==> const_of(final(arena).nodes@, x) is Some) && (forall|v: Ref| #[trigger]
                    is_whole(bytes, v) && old(arena).holds(v) && old(arena).width(v) == width ==> x == v)),
    {
        let ghost n0 = arena.nodes@;
        let bytes = match self.gather(addr, width.bytes(), &image) {
            Some(b) => b,
            None => {
                return None;
            },
        };
        proof {
            assert forall|i: int| 0 <= i < bytes@.len() implies byte_ok(
                n0,
                #[trigger] bytes@[i],
            ) by {
                assert(found_at(self.mem@, image, byte_addr(addr, i), bytes@[i]));
            }
        }
        let r = join_read(arena, &bytes, width);
        proof {
            assert(gathered(self.mem@, image, addr, bytes@));
        }
        Some(r)
    }
}

/// The known bytes `i..j`, each at its place.
fn known_run(bytes: &Vec<Byte>, i: usize, j: usize) -> (v: u64)
    requires
        i <= j <= bytes@.len() <= 8,
        forall|k: int| i <= k < j ==> (#[trigger] bytes@[k]) is Const,
    ensures
        forall|ns: Seq<Node>, e: Env| v == #[trigger] byte_run(ns, bytes@, i as int, j as int, e),
{
    let mut v: u64 = 0;
    let mut k: usize = i;
    while k < j
        invariant
            i <= k <= j <= bytes@.len() <= 8,
            forall|q: int| i <= q < j ==> (#[trigger] bytes@[q]) is Const,
            forall|ns: Seq<Node>, e: Env|
                v == #[trigger] byte_run(ns, bytes@, i as int, k as int, e),
        decreases j - k,
    {
        let ghost before = v;
        if let Byte::Const(c) = bytes[k] {
            let at: u64 = 8 * (k as u64);
            v = v | ((c as u64) << at);
        }
        proof {
            assert forall|ns: Seq<Node>, e: Env| v == #[trigger] byte_run(
                ns,
                bytes@,
                i as int,
                k + 1,
                e,
            ) by {
                assert(bytes@[k as int] is Const);
                assert(before == byte_run(ns, bytes@, i as int, k as int, e));
            }
        }
        k = k + 1;
    }
    v
}

/// End of the run of known bytes that starts at `i`.
fn known_end(bytes: &Vec<Byte>, i: usize) -> (j: usize)
    requires
        i < bytes@.len(),
        bytes@[i as int] is Const,
    ensures
        i < j <= bytes@.len(),
        forall|k: int| i <= k < j ==> (#[trigger] bytes@[k]) is Const,
        j == bytes@.len() || !(bytes@[j as int] is Const),
{
    let n: usize = bytes.len();
    let mut j: usize = i + 1;
    while j < n
        invariant
            n == bytes@.len(),
            i < j <= bytes@.len(),
            forall|k: int| i <= k < j ==> (#[trigger] bytes@[k]) is Const,
        ensures
            i < j <= bytes@.len(),
            forall|k: int| i <= k < j ==> (#[trigger] bytes@[k]) is Const,
            j == bytes@.len() || !(bytes@[j as int] is Const),
        decreases bytes@.len() - j,
    {
        let known: bool = match bytes[j] {
            Byte::Const(_) => true,
            _ => false,
        };
        if !known {
            break;
        }
        j = j + 1;
    }
    j
}

/// End of the run of consecutive bytes of one expression that starts at `i`.
fn symbolic_end(bytes: &Vec<Byte>, i: usize, expr: Ref, index: u32) -> (j: usize)
    requires
        i < bytes@.len() <= 8,
        index < 8,
        bytes@[i as int] == (Byte::Sym { expr, index }),
        forall|k: int| 0 <= k < bytes@.len() ==> match #[trigger] bytes@[k] {
            Byte::Sym { index, .. } => index < 8,
            _ => true,
        },
    ensures
        i < j <= bytes@.len(),
        index + (j - i) <= 8,
        forall|k: int|
            0 <= k < j - i ==> #[trigger] bytes@[i + k] == (Byte::Sym {
                expr,
                index: (index + k) as u32,
            }),
        j < bytes@.len() ==> bytes@[j as int] != (Byte::Sym { expr, index: (index + (j - i)) as u32 }),
{
    let mut j: usize = i + 1;
    while j < bytes.len()
        invariant
            i < j <= bytes@.len() <= 8,
            index < 8,
            index + (j - i) <= 8,
            forall|k: int| 0 <= k < bytes@.len() ==> match #[trigger] bytes@[k] {
                Byte::Sym { index, .. } => index < 8,
                _ => true,
            },
            forall|k: int|
                0 <= k < j - i ==> #[trigger] bytes@[i + k] == (Byte::Sym {
                    expr,
                    index: (index + k) as u32,
                }),
        ensures
            i < j <= bytes@.len(),
            index + (j - i) <= 8,
            forall|k: int|
                0 <= k < j - i ==> #[trigger] bytes@[i + k] == (Byte::Sym {
                    expr,
                    index: (index + k) as u32,
                }),
            j < bytes@.len() ==> bytes@[j as int] != (Byte::Sym { expr, index: (index + (j - i)) as u32 }),
        decreases bytes@.len() - j,
    {
        let next: bool = match bytes[j] {
            Byte::Sym { expr: other, index: at } => other == expr && at == index + ((j
                - i) as u32),
            _ => false,
        };
        if !next {
            break;
        }
        proof {
            assert(bytes@[i + (j - i)] == (Byte::Sym { expr, index: (index + (j - i)) as u32 }));
        }
        j = j + 1;
    }
    j
}

/// Bytes `index .. index + len` of `expr`, placed from byte `at` on.
#[verifier::rlimit(90)]
fn symbolic_term(
    arena: &mut Arena,
    expr: Ref,
    index: u32,
    len: u32,
    at: u32,
    width: Width,
) -> (r: Ref)
    requires
        old(arena).wf(),
        old(arena).holds(expr),
        0 < len,
        index + len <= 8,
        at + len <= width.bytes(),
    ensures
        final(arena).grows(*old(arena)),
        final(arena).holds(r),
        final(arena).width(r) == width,
        forall|e: Env| #[trigger]
            eval(final(arena).nodes@, r, e) == ((eval(old(arena).nodes@, expr, e) >> ((8
                * index) as u64)) & low_mask((8 * len) as u64)) << ((8 * at) as u64),
        index == 0 && at == 0 && len == width.bytes() && old(arena).width(expr) == width ==> r == expr,
{
    let ghost n0 = arena.nodes@;
    let ghost m = width.mask();
    let s: u64 = 8 * (index as u64);
    let t: u64 = 8 * (len as u64);
    let p: u64 = 8 * (at as u64);
    let ghost full = 0xffff_ffff_ffff_ffffu64;
    proof {
        lemma_fits(n0, expr);
    }
    // Select the bytes at the wider of the two widths, so that neither the source's high
    // bytes nor the result's are lost.
    let common = arena.width(expr).wider(width);
    let wide = arena.zext(expr, common);
    let ghost n1 = arena.nodes@;
    let shifted = if index == 0 {
        wide
    } else if s >= common.bits() as u64 {
        arena.constant(0, common)
    } else {
        let sh = arena.constant(s, common);
        let ghost k1 = arena.nodes@;
        let r = arena.bin(BinOp::Shr, wide, sh);
        proof {
            assert forall|e: Env| #[trigger]
                eval(arena.nodes@, r, e) == eval(n1, wide, e) >> s by {
                lemma_mask(s, common.mask());
                lemma_shift_count(s, common);
                assert(eval(k1, sh, e) == s);
                assert(eval(arena.nodes@, sh, e) == s);
                assert(eval(k1, wide, e) == eval(n1, wide, e));
                assert(eval(arena.nodes@, wide, e) == eval(n1, wide, e));
            }
        }
        r
    };
    let ghost n2 = arena.nodes@;
    proof {
        assert forall|e: Env| #[trigger] eval(n2, shifted, e) == eval(n0, expr, e) >> s by {
            let x = eval(n0, expr, e);
            lemma_mask(x, common.mask());
            assert(eval(n1, expr, e) == x);
            assert(eval(n1, wide, e) == x);
            lemma_run_fits(x, 8, 0, 0xff);
            lemma_mask(0, common.mask());
            if s >= common.bits() as u64 {
                lemma_shifted_out(x, s, common.mask());
            }
        }
    }
    let cut = arena.trunc(shifted, width);
    let ghost n3 = arena.nodes@;
    // Mask only when the run is narrower than the result, so a run covering the whole
    // read needs no mask at all.
    let masked = if len < width.bytes() {
        proof {
            lemma_low_mask_cast(t);
        }
        let k = arena.constant((1u64 << t) - 1, width);
        let ghost k1 = arena.nodes@;
        let r = arena.bin(BinOp::And, cut, k);
        proof {
            assert forall|e: Env| #[trigger]
                eval(arena.nodes@, r, e) == eval(n3, cut, e) & low_mask(t) by {
                lemma_run_fits(0, t, p, m);
                lemma_mask(low_mask(t), m);
                assert(eval(k1, k, e) == low_mask(t));
                assert(eval(arena.nodes@, k, e) == low_mask(t));
                assert(eval(k1, cut, e) == eval(n3, cut, e));
                assert(eval(arena.nodes@, cut, e) == eval(n3, cut, e));
            }
        }
        r
    } else {
        cut
    };
    let ghost n4 = arena.nodes@;
    proof {
        assert forall|e: Env| #[trigger]
            eval(n4, masked, e) == (eval(n0, expr, e) >> s) & low_mask(t) by {
            let y = eval(n0, expr, e) >> s;
            assert(eval(n2, shifted, e) == y);
            assert(eval(n3, shifted, e) == y);
            assert(eval(n3, cut, e) == y & m);
            lemma_run_fits(y, t, p, m);
        }
    }
    // ... and place them at their offset in the result.
    if at > 0 {
        let sh = arena.constant(p, width);
        let ghost k1 = arena.nodes@;
        let r = arena.bin(BinOp::Shl, masked, sh);
        proof {
            assert forall|e: Env| #[trigger]
                eval(arena.nodes@, r, e) == ((eval(n0, expr, e) >> s) & low_mask(t)) << p by {
                let y = eval(n0, expr, e) >> s;
                assert(eval(n4, masked, e) == y & low_mask(t));
                assert(eval(k1, masked, e) == eval(n4, masked, e));
                assert(eval(arena.nodes@, masked, e) == eval(n4, masked, e));
                lemma_mask(p, m);
                lemma_shift_count(p, width);
                assert(eval(k1, sh, e) == p);
                assert(eval(arena.nodes@, sh, e) == p);
                lemma_run_fits(y, t, p, m);
            }
        }
        r
    } else {
        proof {
            assert forall|e: Env| #[trigger]
                eval(n4, masked, e) == ((eval(n0, expr, e) >> s) & low_mask(t)) << p by {
                lemma_run_fits(eval(n0, expr, e) >> s, t, 0, m);
            }
        }
        masked
    }
}

proof fn lemma_low_mask_cast(t: u64)
    requires
        8 <= t < 64,
    ensures
        (1u64 << t) >= 1,
        low_mask(t) == ((1u64 << t) - 1) as u64,
{
    lemma_shifts(0, 0, t);
}

/// Whether bytes are those of one value, all of them and in order.
pub open spec fn is_whole(bytes: Seq<Byte>, x: Ref) -> bool {
    bytes.len() > 0 && forall|i: int|
        0 <= i < bytes.len() ==> #[trigger] bytes[i] == (Byte::Sym { expr: x, index: i as u32 })
}

/// The value of a run of bytes as one expression of `width`.
fn join_read(arena: &mut Arena, bytes: &Vec<Byte>, width: Width) -> (r: Ref)
    requires
        old(arena).wf(),
        bytes@.len() == width.bytes(),
        forall|i: int| 0 <= i < bytes@.len() ==> byte_ok(old(arena).nodes@, #[trigger] bytes@[i]),
    ensures
        final(arena).grows(*old(arena)),
        final(arena).holds(r),
        final(arena).width(r) == width,
        forall|e: Env| #[trigger]
            eval(final(arena).nodes@, r, e) == join_bytes(old(arena).nodes@, bytes@, e),
        all_known(bytes@) ==> const_of(final(arena).nodes@, r) is Some,
        forall|x: Ref| #[trigger]
            is_whole(bytes@, x) && old(arena).holds(x) && old(arena).width(x) == width ==> r == x,
{
    let ghost n0 = arena.nodes@;
    let ghost start = *arena;
    let n: usize = bytes.len();
    let ghost m = width.mask();
    let mut acc: Option<Ref> = None;
    let mut i: usize = 0;
    proof {
        assert(bytes@.take(0) =~= Seq::<Byte>::empty());
    }
    while i < n
        invariant
            n == bytes@.len() == width.bytes(),
            i <= n <= 8,
            start.wf(),
            n0 == start.nodes@,
            m == width.mask(),
            arena.grows(start),
            forall|k: int| 0 <= k < bytes@.len() ==> byte_ok(n0, #[trigger] bytes@[k]),
            acc matches Some(a) ==> arena.holds(a) && arena.width(a) == width,
            forall|e: Env|
                #![trigger join_bytes(n0, bytes@.take(i as int), e)]
                join_bytes(n0, bytes@.take(i as int), e) == match acc {
                    Some(a) => eval(arena.nodes@, a, e),
                    None => 0,
                },
            all_known(bytes@) ==> (i == 0 || i == n) && (acc matches Some(a) ==> const_of(
                arena.nodes@,
                a,
            ) is Some),
            forall|x: Ref| #[trigger]
                is_whole(bytes@, x) && has(n0, x) && width_of(n0, x) == width ==> (i == 0 && acc is None) || (i
                    == n && acc == Some(x)),
        decreases n - i,
    {
        let ghost b0 = arena.nodes@;
        let ghost acc0 = acc;
        let ghost i0 = i;
        let (j, term): (usize, Option<Ref>) = match bytes[i] {
            Byte::Const(_) => {
                let j = known_end(bytes, i);
                let v: u64 = known_run(bytes, i, j);
                // Zero bytes contribute nothing to a disjunction.
                if v == 0 {
                    (j, None)
                } else {
                    (j, Some(arena.constant(v, width)))
                }
            },
            Byte::Sym { expr, index } => {
                proof {
                    assert(byte_ok(n0, bytes@[i as int]));
                    assert forall|k: int| 0 <= k < bytes@.len() implies match #[trigger] bytes@[k] {
                        Byte::Sym { index, .. } => index < 8,
                        _ => true,
                    } by {
                        assert(byte_ok(n0, bytes@[k]));
                    }
                }
                let j = symbolic_end(bytes, i, expr, index);
                let t = symbolic_term(arena, expr, index, (j - i) as u32, i as u32, width);
                (j, Some(t))
            },
        };
        let ghost b1 = arena.nodes@;
        proof {
            assert forall|e: Env|
                #![trigger byte_run(n0, bytes@, i as int, j as int, e)]
                byte_run(n0, bytes@, i as int, j as int, e) == match term {
                    Some(t) => eval(b1, t, e),
                    None => 0,
                } by {
                match bytes@[i as int] {
                    Byte::Const(_) => {
                        let v = byte_run(n0, bytes@, i as int, j as int, e);
                        lemma_known_fits(n0, bytes@, i as int, j as int, e, width);
                        lemma_mask(v, m);
                    },
                    Byte::Sym { expr, index } => {
                        lemma_symbolic_run(
                            n0,
                            bytes@,
                            i as int,
                            j - i,
                            expr,
                            index as int,
                            e,
                        );
                        assert(eval(b0, expr, e) == eval(n0, expr, e));
                    },
                }
            }
            if all_known(bytes@) {
                assert(bytes@[i as int] is Const);
                if j < n {
                    assert(bytes@[j as int] is Const);
                }
            }
        }
        if let Some(t) = term {
            acc = Some(
                match acc {
                    None => t,
                    Some(a) => arena.bin(BinOp::Or, a, t),
                },
            );
        }
        proof {
            assert forall|e: Env|
                #![trigger join_bytes(n0, bytes@.take(j as int), e)]
                join_bytes(n0, bytes@.take(j as int), e) == match acc {
                    Some(a) => eval(arena.nodes@, a, e),
                    None => 0,
                } by {
                lemma_join_run(n0, bytes@, i as int, j as int, e);
                let left = join_bytes(n0, bytes@.take(i as int), e);
                let run = byte_run(n0, bytes@, i as int, j as int, e);
                lemma_bitwise(left, 0, 0);
                lemma_bitwise(0, run, 0);
                lemma_bitwise(run, 0, 0);
                if let Some(a) = acc0 {
                    assert(eval(b0, a, e) == left);
                    assert(eval(b1, a, e) == left);
                    assert(eval(arena.nodes@, a, e) == left);
                }
                if let Some(t) = term {
                    assert(eval(b1, t, e) == run);
                    assert(eval(arena.nodes@, t, e) == run);
                }
            }
        }
        proof {
            assert forall|x: Ref| #[trigger]
                is_whole(bytes@, x) && has(n0, x) && width_of(n0, x) == width implies j == n && acc == Some(x) by {
                assert(bytes@[0] == (Byte::Sym { expr: x, index: 0 }));
                if j < n {
                    assert(bytes@[j as int] == (Byte::Sym { expr: x, index: j as u32 }));
                }
            }
        }
        i = j;
    }
    proof {
        assert(bytes@.take(i as int) =~= bytes@);
    }
    match acc {
        Some(a) => a,
        None => {
            // Every byte was a zero constant.
            let ghost b0 = arena.nodes@;
            let r = arena.constant(0, width);
            proof {
                lemma_mask(0, m);
                assert forall|e: Env| #[trigger]
                    eval(arena.nodes@, r, e) == join_bytes(n0, bytes@, e) by {
                    assert(join_bytes(n0, bytes@.take(i as int), e) == 0);
                }
            }
            r
        },
    }
}

/// Known bytes inside a width make a number that fits it.
proof fn lemma_known_fits(ns: Seq<Node>, bytes: Seq<Byte>, i: int, j: int, e: Env, width: Width)
    requires
        0 <= i <= j <= bytes.len(),
        bytes.len() == width.bytes(),
        forall|k: int| i <= k < j ==> (#[trigger] bytes[k]) is Const,
    ensures
        byte_run(ns, bytes, i, j, e) <= width.mask(),
    decreases j - i,
{
    if i < j {
        lemma_known_fits(ns, bytes, i, j - 1, e, width);
        assert(bytes[j - 1] is Const);
        let c = byte_value(ns, bytes[j - 1], e);
        let at = (8 * (j - 1)) as u64;
        lemma_byte_at_fits(c, at, width.mask());
        crate::ir::fold::lemma_bitwise_fit(
            byte_run(ns, bytes, i, j - 1, e),
            c << at,
            width.mask(),
        );
    }
}

proof fn lemma_byte_at_fits(c: u64, at: u64, m: u64)
    by (bit_vector)
    requires
        c <= 0xff,
        (m == 0xff && at == 0) || (m == 0xffff && at <= 8) || (m == 0xffff_ffff && at <= 24) || (m
            == 0xffff_ffff_ffff_ffff && at <= 56),
    ensures
        c << at <= m,
{
}

/// A read at the address and width of a write gives back the value written, cut to that
/// width, whatever the image holds.
pub proof fn a_read_gives_back_the_write<F: Fn(u64) -> Option<u8>>(
    ns: Seq<Node>,
    mem: Map<u64, Byte>,
    image: F,
    addr: u64,
    value: Ref,
    width: Width,
    bytes: Seq<Byte>,
    e: Env,
)
    requires
        crate::ir::expr::nodes_ok(ns),
        has(ns, value),
        forall|i: int|
            0 <= i < width.bytes() ==> mem.dom().contains(#[trigger] byte_addr(addr, i))
                && mem[byte_addr(addr, i)] == stored_byte(ns, value, i),
        bytes.len() == width.bytes(),
        gathered(mem, image, addr, bytes),
    ensures
        join_bytes(ns, bytes, e) == eval(ns, value, e) & width.mask(),
{
    assert forall|i: int| 0 <= i < bytes.len() implies #[trigger] bytes[i] == stored_byte(
        ns,
        value,
        i,
    ) by {
        assert(found_at(mem, image, byte_addr(addr, i), bytes[i]));
    }
    lemma_join_stored(ns, bytes, value, width, e);
}

/// The bytes of a stored value, joined.
pub(crate) proof fn lemma_join_stored(
    ns: Seq<Node>,
    bytes: Seq<Byte>,
    value: Ref,
    width: Width,
    e: Env,
)
    requires
        crate::ir::expr::nodes_ok(ns),
        has(ns, value),
        bytes.len() == width.bytes(),
        forall|i: int| 0 <= i < bytes.len() ==> #[trigger] bytes[i] == stored_byte(ns, value, i),
    ensures
        join_bytes(ns, bytes, e) == eval(ns, value, e) & width.mask(),
{
    let n = width.bytes() as int;
    let x = eval(ns, value, e);
    let sym = Seq::new(n as nat, |i: int| Byte::Sym { expr: value, index: i as u32 });
    assert forall|i: int| 0 <= i < n implies byte_value(ns, #[trigger] bytes[i], e) == byte_value(
        ns,
        sym[i],
        e,
    ) by {
        assert(bytes[i] == stored_byte(ns, value, i));
        if let Some(c) = const_of(ns, value) {
            assert(crate::ir::expr::ok_at(ns, value.idx as int));
            lemma_mask(c, width_of(ns, value).mask());
            let y = c >> ((8 * i) as u64);
            lemma_low_byte(y);
        }
    }
    lemma_join_same(ns, bytes, sym, e);
    lemma_symbolic_run(ns, sym, 0, n, value, 0, e);
    lemma_join_run(ns, sym, 0, n, e);
    assert(sym.take(n) =~= sym);
    assert(sym.take(0) =~= Seq::<Byte>::empty());
    let run = byte_run(ns, sym, 0, n, e);
    lemma_bitwise(run, 0, 0);
    lemma_bitwise(0, run, 0);
    lemma_run_fits(x, (8 * n) as u64, 0, width.mask());
    assert(low_mask((8 * n) as u64) == width.mask());
}

proof fn lemma_low_byte(y: u64)
    by (bit_vector)
    ensures
        (y as u8) as u64 == y & 0xff,
{
}

proof fn lemma_join_same(ns: Seq<Node>, a: Seq<Byte>, b: Seq<Byte>, e: Env)
    requires
        a.len() == b.len(),
        forall|i: int|
            0 <= i < a.len() ==> byte_value(ns, #[trigger] a[i], e) == byte_value(ns, b[i], e),
    ensures
        join_bytes(ns, a, e) == join_bytes(ns, b, e),
    decreases a.len(),
{
    if a.len() > 0 {
        assert forall|i: int| 0 <= i < a.drop_last().len() implies byte_value(
            ns,
            #[trigger] a.drop_last()[i],
            e,
        ) == byte_value(ns, b.drop_last()[i], e) by {
            assert(a.drop_last()[i] == a[i]);
        }
        lemma_join_same(ns, a.drop_last(), b.drop_last(), e);
        assert(a.last() == a[a.len() - 1]);
    }
}

} // verus!
